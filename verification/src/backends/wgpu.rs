//! The submission throttle of the wgpu backend: execution only blocks once
//! too many submissions are unfinished, and then waits for the oldest one,
//! keeping the queue fed instead of stalling on every submit.

use vstd::prelude::*;
use std::collections::VecDeque;

verus! {

/// Block only once this many submissions are unfinished.
pub const MAX_IN_FLIGHT: usize = 16;

/// The submissions handed to the queue and not yet waited for, oldest first.
pub struct InFlight<T> {
    queue: VecDeque<T>,
}

impl<T> InFlight<T> {
    /// Never more than `MAX_IN_FLIGHT` submissions are unfinished.
    #[verifier::type_invariant]
    spec fn within_limit(&self) -> bool {
        self.queue@.len() <= MAX_IN_FLIGHT
    }

    /// The unfinished submissions, oldest first.
    pub closed spec fn pending(&self) -> Seq<T> {
        self.queue@
    }

    pub fn new() -> (q: Self)
        ensures
            q.pending() == Seq::<T>::empty(),
    {
        InFlight { queue: VecDeque::new() }
    }

    /// Records a new submission. When that makes more than `MAX_IN_FLIGHT`
    /// unfinished, hands back the oldest one, which the caller then waits
    /// for.
    pub fn submit(&mut self, idx: T) -> (oldest: Option<T>)
        ensures
            final(self).pending().len() <= MAX_IN_FLIGHT,
            old(self).pending().len() < MAX_IN_FLIGHT ==> oldest is None && final(self).pending()
                == old(self).pending().push(idx),
            old(self).pending().len() == MAX_IN_FLIGHT ==> oldest == Some(old(self).pending()[0])
                && final(self).pending() == old(self).pending().push(idx).drop_first(),
    {
        proof {
            use_type_invariant(&*self);
        }
        let mut queue = VecDeque::new();
        std::mem::swap(&mut queue, &mut self.queue);
        queue.push_back(idx);
        let oldest = if queue.len() > MAX_IN_FLIGHT {
            queue.pop_front()
        } else {
            None
        };
        self.queue = queue;
        oldest
    }

    /// Forgets every submission: the caller has waited for the whole queue.
    pub fn clear(&mut self)
        ensures
            final(self).pending() == Seq::<T>::empty(),
    {
        self.queue = VecDeque::new();
    }
}

} // verus!
