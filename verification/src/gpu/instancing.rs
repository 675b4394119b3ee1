//! How instance buffers grow.
use vstd::prelude::*;

verus! {

/// Whether `x` is a power of two.
pub open spec fn is_power_of_two(x: nat) -> bool
    decreases x,
{
    if x <= 1 {
        x == 1
    } else {
        x % 2 == 0 && is_power_of_two(x / 2)
    }
}

/// Calls `usize::next_power_of_two`, which gives the smallest power of two
/// that is at least `n` (1 for 0). It is called only where that power fits.
#[verifier::external_body]
fn next_power_of_two(n: usize) -> (r: usize)
    requires
        n <= usize::MAX / 2 + 1,
    ensures
        is_power_of_two(r as nat),
        n <= r,
        r == 1 || r / 2 < n,
{
    n.next_power_of_two()
}

/// Where the items added to an instance buffer go.
#[derive(Debug, Clone, Copy, PartialEq, Eq)]
pub struct Extension {
    /// The capacity of a new buffer that replaces the old one, into which
    /// the items already held are copied; `None` where they still fit.
    pub grow: Option<usize>,
    /// Where the range of the buffer that the new items are written to
    /// starts: a slot of the new buffer where it grows, else the offset, in
    /// bytes, into the buffer at which it is mapped.
    pub start: usize,
    /// Where that range ends, counted as `start` is.
    pub end: usize,
}

/// How many instances a buffer holds and how many it has room for.
#[derive(Debug, Clone, Copy)]
pub struct InstanceSlots {
    length: usize,
    capacity: usize,
}

impl InstanceSlots {
    /// The number of instances held.
    pub closed spec fn held(&self) -> nat {
        self.length as nat
    }

    /// The number of instances there is room for.
    pub closed spec fn room(&self) -> nat {
        self.capacity as nat
    }

    /// There is room for what is held.
    pub open spec fn wf(&self) -> bool {
        self.held() <= self.room()
    }

    /// An empty buffer with no room.
    pub fn new() -> (s: Self)
        ensures
            s.wf(),
            s.held() == 0,
            s.room() == 0,
    {
        InstanceSlots { length: 0, capacity: 0 }
    }

    /// The number of instances held.
    pub fn len(&self) -> (r: usize)
        ensures
            r == self.held(),
    {
        self.length
    }

    /// The number of instances there is room for.
    pub fn capacity(&self) -> (r: usize)
        ensures
            r == self.room(),
    {
        self.capacity
    }

    /// Makes room for `add` more instances after those held, and says which
    /// range of the buffer they are written to: slots `held .. held + add`
    /// of a new buffer where they do not fit, which grows to the smallest
    /// power of two that holds them all; else the buffer is mapped from
    /// byte `held` to byte `held + add`.
    pub fn extend(&mut self, add: usize) -> (e: Extension)
        requires
            old(self).wf(),
            old(self).held() + add <= usize::MAX,
            old(self).room() < old(self).held() + add ==> old(self).held() + add <= usize::MAX / 2 + 1,
        ensures
            final(self).wf(),
            final(self).held() == old(self).held() + add,
            e.start == old(self).held(),
            e.end == final(self).held(),
            old(self).room() >= final(self).held() ==> e.grow is None && final(self).room() == old(self).room(),
            old(self).room() < final(self).held() ==> {
                &&& e.grow == Some(final(self).room() as usize)
                &&& is_power_of_two(final(self).room())
                &&& final(self).held() <= final(self).room()
                &&& (final(self).room() == 1 || final(self).room() / 2 < final(self).held())
            },
    {
        let start = self.length;
        let length = self.length + add;
        let grow = if self.capacity < length {
            let capacity = next_power_of_two(length);
            self.capacity = capacity;
            Some(capacity)
        } else {
            None
        };
        self.length = length;
        Extension { grow, start, end: length }
    }
}

} // verus!
