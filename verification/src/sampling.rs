//! A set with fast random sampling.
//!
//! The sampler keeps its cells in a priority queue keyed by random
//! priorities, so the top of the queue is an arbitrarily chosen member and
//! drawing one is constant-time. The queue is opaque to verification; its
//! contents are modeled as the set `sampler_items`.

use vstd::prelude::*;

use crate::coords::XYCell;
use priority_queue::PriorityQueue;
use rand::RngExt;
use std::collections::hash_map::RandomState;

verus! {

/// A set of cells from which a member can be drawn at random in constant
/// time: each inserted cell gets a random priority, so the queue's top is an
/// arbitrary member.
#[verifier::external_body]
pub struct SetSampler {
    queue: PriorityQueue<XYCell, u32, RandomState>,
    rng: rand::rngs::ThreadRng,
}

/// The set of cells a sampler holds; the backing queue never holds a cell
/// twice.
pub uninterp spec fn sampler_items(s: SetSampler) -> Set<XYCell>;

impl SetSampler {
    /// The set of cells the sampler holds.
    pub open spec fn contents(self) -> Set<XYCell> {
        sampler_items(self)
    }

    /// Relies on `PriorityQueue::new` and rand's `rng()`: the new queue holds
    /// no item.
    #[verifier::external_body]
    pub fn new() -> (r: Self)
        ensures
            sampler_items(r) == Set::<XYCell>::empty(),
    {
        SetSampler { queue: PriorityQueue::new(), rng: rand::rng() }
    }

    /// Relies on `PriorityQueue::push` under a freshly drawn priority: the
    /// cell joins the queue's item set; a cell already present only has its
    /// priority replaced.
    #[verifier::external_body]
    pub fn insert(&mut self, item: XYCell)
        ensures
            sampler_items(*final(self)) == sampler_items(*old(self)).insert(item),
    {
        let priority: u32 = self.rng.random();
        self.queue.push(item, priority);
    }

    /// Relies on `PriorityQueue::remove`: the cell leaves the queue's item
    /// set; removing an absent cell changes nothing.
    #[verifier::external_body]
    pub fn remove(&mut self, item: XYCell)
        ensures
            sampler_items(*final(self)) == sampler_items(*old(self)).remove(item),
    {
        self.queue.remove(&item);
    }

    /// Relies on `PriorityQueue::peek`: a member of the item set when one
    /// exists, and nothing exactly when the queue is empty.
    #[verifier::external_body]
    pub fn get_random(&self) -> (r: Option<XYCell>)
        ensures
            match r {
                Some(item) => sampler_items(*self).contains(item),
                None => sampler_items(*self) == Set::<XYCell>::empty(),
            },
    {
        match self.queue.peek() {
            Some((item, _priority)) => Some(*item),
            None => None,
        }
    }

    /// Relies on `PriorityQueue::pop`: a member leaves the item set when one
    /// exists, and nothing happens exactly when the queue is empty.
    #[verifier::external_body]
    pub fn pop_random(&mut self) -> (r: Option<XYCell>)
        ensures
            match r {
                Some(item) => sampler_items(*old(self)).contains(item) && sampler_items(
                    *final(self),
                ) == sampler_items(*old(self)).remove(item),
                None => sampler_items(*old(self)) == Set::<XYCell>::empty() && sampler_items(
                    *final(self),
                ) == sampler_items(*old(self)),
            },
    {
        match self.queue.pop() {
            Some((item, _priority)) => Some(item),
            None => None,
        }
    }

    /// Relies on `PriorityQueue::is_empty`: true exactly when the item set is
    /// empty.
    #[verifier::external_body]
    pub fn is_empty(&self) -> (r: bool)
        ensures
            r == (sampler_items(*self) == Set::<XYCell>::empty()),
    {
        self.queue.is_empty()
    }
}

} // verus!
