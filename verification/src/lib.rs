//! Conflict-free motion scheduling for many robots on a shared grid.
//!
//! Robots move on a discrete street grid by turning, advancing, reversing or
//! waiting. The library models the grid and the action transition function,
//! a time-indexed resource reservation ledger, a greedy sequential
//! arbitration that resolves fixed plans into conflict-free schedules, a
//! Pareto search over agent visiting orders, a per-tick myopic stepper for
//! live simulation, and a per-agent shortest-path re-planner.

pub mod arbitration;
pub mod blocks;
pub mod cell;
pub mod coords;
pub mod grid;
pub mod planner;
pub mod reservation;
pub mod rng;
pub mod sampling;
pub mod world;
