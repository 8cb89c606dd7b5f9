//! Bookkeeping of the window that was sieved last.

use vstd::prelude::*;

verus! {

/// The window `[offset, offset + size)` of the number line; `offset` is always
/// `current * size`.
pub struct Batch {
    pub current: u64,
    pub size: u64,
    pub offset: u64,
}

impl Batch {
    /// The offset agrees with the index and the width.
    pub open spec fn wf(&self) -> bool {
        &&& self.size >= 1
        &&& self.offset == self.current * self.size
    }

    /// One past the last value of the window.
    pub open spec fn upper(&self) -> int {
        self.offset + self.size
    }

    /// The first window, `[0, batch_size)`.
    pub fn new(batch_size: u64) -> (b: Batch)
        requires
            batch_size >= 1,
        ensures
            b.wf(),
            b.current == 0,
            b.size == batch_size,
            b.offset == 0,
    {
        Batch { current: 0, size: batch_size, offset: 0 }
    }

    /// Recomputes the offset from the index and the width.
    pub fn calculate_offset(&mut self)
        requires
            old(self).size >= 1,
            old(self).current * old(self).size <= u64::MAX,
        ensures
            final(self).wf(),
            final(self).current == old(self).current,
            final(self).size == old(self).size,
    {
        self.offset = self.current * self.size;
    }

    /// Moves to the next window: the index grows by one and the offset follows.
    pub fn advance(&mut self)
        requires
            old(self).wf(),
            old(self).upper() + old(self).size <= u64::MAX,
        ensures
            final(self).wf(),
            final(self).current == old(self).current + 1,
            final(self).size == old(self).size,
            final(self).offset == old(self).upper(),
    {
        assert((self.current + 1) * self.size == self.current * self.size + self.size)
            by (nonlinear_arith);
        assert(self.current <= self.current * self.size) by (nonlinear_arith)
            requires
                self.size >= 1,
        ;
        self.current = self.current + 1;
        self.calculate_offset();
    }
}

} // verus!
