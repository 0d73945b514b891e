//! Dropping stale or reordered input from one connection.
use vstd::prelude::*;

verus! {

/// The last sequence number accepted on a connection.
#[derive(Clone, Copy, Debug, PartialEq, Eq, Structural)]
pub struct SequenceGuard {
    pub last: u64,
}

impl SequenceGuard {
    /// A guard that has accepted nothing yet: any number above `start` passes.
    pub fn new(start: u64) -> (r: SequenceGuard)
        ensures
            r.last == start,
    {
        SequenceGuard { last: start }
    }

    /// Accepts `seq` only when it is strictly greater than the last accepted
    /// number, and then remembers it.
    pub fn accept(&mut self, seq: u64) -> (r: bool)
        ensures
            r == (seq > old(self).last),
            final(self).last == (if r { seq } else { old(self).last }),
    {
        if seq > self.last {
            self.last = seq;
            true
        } else {
            false
        }
    }
}

} // verus!
