//! The small tier: cardinalities 0 to 2 in a single 64-bit word.
//!
//! Word layout: bits 0..1 are kept clear for an embedded variant tag,
//! bits 2..32 hold the first 31-bit codeword, bits 33..63 the second.
//! A zero slot means "empty"; an encoded codeword is never zero because
//! its rank field is at least 1.

use vstd::prelude::*;

verus! {

/// Mask for one 31-bit codeword slot.
pub const SMALL_MASK: u64 = 0x7fff_ffff;

/// The first slot of a small word.
pub open spec fn spec_h1(d: u64) -> u32 {
    ((d >> 2) & SMALL_MASK) as u32
}

/// The second slot of a small word.
pub open spec fn spec_h2(d: u64) -> u32 {
    ((d >> 33) & SMALL_MASK) as u32
}

/// Whether the small word can absorb codeword `h` without promotion:
/// a free slot remains, or `h` is already stored.
pub open spec fn spec_small_fits(d: u64, h: u32) -> bool {
    spec_h1(d) == 0 || spec_h1(d) == h || spec_h2(d) == 0 || spec_h2(d) == h
}

/// The word after inserting codeword `h`: filled into the first empty slot,
/// unchanged when `h` is already present or both slots are taken.
pub open spec fn spec_small_insert(d: u64, h: u32) -> u64 {
    if spec_h1(d) == 0 {
        d | ((h as u64) << 2)
    } else if spec_h1(d) == h {
        d
    } else if spec_h2(d) == 0 {
        d | ((h as u64) << 33)
    } else {
        d
    }
}

/// The exact count of occupied slots: an empty second slot caps the
/// estimate at the first slot's state.
pub open spec fn spec_small_estimate(d: u64) -> int {
    if spec_h2(d) == 0 {
        if spec_h1(d) == 0 {
            0int
        } else {
            1int
        }
    } else {
        2int
    }
}

/// Small representation container.
#[derive(Debug, PartialEq, Eq, Clone, Copy)]
pub struct Small<const P: usize, const W: usize>(pub u64);

impl<const P: usize, const W: usize> View for Small<P, W> {
    type V = u64;

    open spec fn view(&self) -> u64 {
        self.0
    }
}

impl<const P: usize, const W: usize> Small<P, W> {
    /// The empty small word: both slots free.
    pub fn new() -> (r: Self)
        ensures
            r@ == 0u64,
    {
        Small(0)
    }

    /// First stored codeword, zero when the slot is empty.
    pub fn h1(&self) -> (r: u32)
        ensures
            r == spec_h1(self@),
    {
        ((self.0 >> 2) & 0x7fff_ffffu64) as u32
    }

    /// Second stored codeword, zero when the slot is empty.
    pub fn h2(&self) -> (r: u32)
        ensures
            r == spec_h2(self@),
    {
        ((self.0 >> 33) & 0x7fff_ffffu64) as u32
    }

    /// Both stored codewords, for merge and promotion.
    pub fn items(&self) -> (r: (u32, u32))
        ensures
            r.0 == spec_h1(self@),
            r.1 == spec_h2(self@),
    {
        (self.h1(), self.h2())
    }

    /// Insert the codeword `h`.  Returns true when it was stored or was
    /// already present, false when both slots hold other codewords and the
    /// representation must be promoted.
    pub fn insert(&mut self, h: u32) -> (ok: bool)
        ensures
            final(self)@ == spec_small_insert(old(self)@, h),
            ok == spec_small_fits(old(self)@, h),
    {
        let h1 = self.h1();
        if h1 == 0 {
            self.0 = self.0 | ((h as u64) << 2u64);
            return true;
        } else if h1 == h {
            return true;
        }
        let h2 = self.h2();
        if h2 == 0 {
            self.0 = self.0 | ((h as u64) << 33u64);
            return true;
        } else if h2 == h {
            return true;
        }
        false
    }

    /// Exact cardinality estimate of this tier: the number of occupied slots.
    pub fn estimate(&self) -> (r: usize)
        ensures
            r == spec_small_estimate(self@),
    {
        if self.h2() == 0 {
            if self.h1() == 0 {
                0
            } else {
                1
            }
        } else {
            2
        }
    }

    /// Shallow memory footprint of this representation: one packed word.
    pub fn size_of(&self) -> (r: usize)
        ensures
            r == 8,
    {
        8
    }
}

impl<const P: usize, const W: usize> Default for Small<P, W> {
    /// The empty small word.
    fn default() -> (r: Self)
        ensures
            r@ == 0u64,
    {
        Small(0)
    }
}

} // verus!
