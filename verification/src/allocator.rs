//! The source of kitty ids: a counter that hands out each number once.

use crate::error::Error;
use vstd::prelude::*;

verus! {

/// What a counter that stands at `counter` hands out: the number itself, or
/// nothing once it has reached the largest number an id can hold.
pub open spec fn issued(counter: u64) -> Result<u64, Error> {
    if counter == u64::MAX {
        Err(Error::IdOverflow)
    } else {
        Ok(counter)
    }
}

/// Two ids handed out one after the other, with one step of the counter in
/// between, grow strictly.
pub proof fn lemma_ids_increase(counter: u64)
    requires
        issued(counter) is Ok,
        issued((counter + 1) as u64) is Ok,
    ensures
        issued(counter)->Ok_0 < issued((counter + 1) as u64)->Ok_0,
{
}

/// Hands out ids in increasing order. Its view is the next id.
///
/// Reading the next id does not use it up: a caller reads it, makes sure
/// that the kitty can be stored under it, and only then advances.
pub struct IdAllocator {
    next: u64,
}

impl View for IdAllocator {
    type V = u64;

    closed spec fn view(&self) -> u64 {
        self.next
    }
}

impl IdAllocator {
    /// An allocator whose first id is zero.
    pub fn new() -> (r: Self)
        ensures
            r@ == 0,
    {
        IdAllocator { next: 0 }
    }

    /// An allocator whose first id is `next`.
    pub fn starting_at(next: u64) -> (r: Self)
        ensures
            r@ == next,
    {
        IdAllocator { next }
    }

    /// Where the counter stands: the id that comes next.
    pub fn count(&self) -> (r: u64)
        ensures
            r == self@,
    {
        self.next
    }

    /// The id to use next. Fails once the counter stands at the largest
    /// number; the counter itself does not move.
    pub fn next_id(&self) -> (r: Result<u64, Error>)
        ensures
            r == issued(self@),
    {
        if self.next == u64::MAX {
            return Err(Error::IdOverflow);
        }
        Ok(self.next)
    }

    /// Marks the id that [`IdAllocator::next_id`] returned as used.
    pub fn advance(&mut self)
        requires
            old(self)@ < u64::MAX,
        ensures
            final(self)@ == old(self)@ + 1,
    {
        self.next = self.next + 1;
    }
}

} // verus!
