use vstd::prelude::*;

verus! {

/// An identifier unique among those drawn from one `IdCounter`.
#[derive(Clone, Copy, PartialEq, Eq, Hash, Debug)]
pub struct ProcessUniqueId(u128);

/// The counter that hands out identifiers; it starts at zero, and the first
/// identifier is one.
pub struct IdCounter {
    count: u128,
}

impl IdCounter {
    pub closed spec fn count(self) -> u128 {
        self.count
    }

    pub fn new() -> (r: Self)
        ensures
            r.count() == 0,
    {
        IdCounter { count: 0 }
    }

    /// Whether another identifier can still be drawn.
    pub fn can_draw(&self) -> (r: bool)
        ensures
            r == (self.count() + 1 < u128::MAX),
    {
        self.count < u128::MAX - 1
    }
}

impl ProcessUniqueId {
    pub closed spec fn value(self) -> u128 {
        self.0
    }

    /// Draws the next identifier: one more than the last one drawn.
    pub fn get(counter: &mut IdCounter) -> (r: Self)
        requires
            old(counter).count() + 1 < u128::MAX,
        ensures
            final(counter).count() == old(counter).count() + 1,
            r.value() == final(counter).count(),
    {
        counter.count = counter.count + 1;
        ProcessUniqueId(counter.count)
    }

    /// The identifier's number.
    pub fn as_u128(&self) -> (r: u128)
        ensures
            r == self.value(),
    {
        self.0
    }
}

/// Identifiers drawn one after another from the same counter differ: each is
/// larger than every one drawn before it.
pub proof fn law_ids_increase(before: IdCounter, between: IdCounter, after: IdCounter, first: ProcessUniqueId, second: ProcessUniqueId)
    requires
        between.count() == before.count() + 1,
        first.value() == between.count(),
        after.count() >= between.count() + 1,
        second.value() == after.count(),
    ensures
        first.value() < second.value(),
        first != second,
{
}

} // verus!
