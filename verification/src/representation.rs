//! The tagged representation over the three tiers, with the promotion rules.
//!
//! A representation starts small, may be promoted to the exact array on the
//! third distinct codeword, and to the HyperLogLog register file when the
//! array overflows its capacity.  Downgrades never happen.

use vstd::prelude::*;

verus! {

use vstd::arithmetic::power2::pow2;
use crate::element::valid_params;
use crate::small::Small;
use crate::small::spec_h1;
use crate::small::spec_h2;
use crate::small::spec_small_fits;
use crate::small::spec_small_insert;
use crate::small::spec_small_estimate;
use crate::array::Array;
use crate::array::spec_array_fits;
use crate::array::spec_array_insert;
use crate::hyperloglog::HyperLogLog;
use crate::hyperloglog::spec_hll_insert;
use crate::hyperloglog::spec_hll_merge;
use crate::hyperloglog::count_zeros;
use crate::hyperloglog::spec_hsum;
use crate::hyperloglog::lemma_count_zeros_bounds;
use crate::estimate::spec_estimate_hll;

/// The logical state of a representation: the packed small word, the exact
/// codeword sequence, or the register file.
pub enum RepView {
    Small { data: u64 },
    Array { items: Seq<u32> },
    Hll { regs: Seq<u32> },
}

/// The register file reached by inserting a codeword sequence, in order,
/// into an all-zero register file.
pub open spec fn regs_of_seq(items: Seq<u32>, p: nat, w: nat) -> Seq<u32>
    decreases items.len(),
{
    if items.len() == 0 {
        Seq::new(pow2(p), |i: int| 0u32)
    } else {
        spec_hll_insert(regs_of_seq(items.drop_last(), p, w), items.last(), p, w)
    }
}

/// The representation after inserting codeword `h`, promotions included:
/// a full small word seeds a three-codeword array, a full array seeds a
/// register file holding every array codeword and the new one.
pub open spec fn spec_insert(v: RepView, h: u32, p: nat, w: nat) -> RepView {
    match v {
        RepView::Small { data } => {
            if spec_small_fits(data, h) {
                RepView::Small { data: spec_small_insert(data, h) }
            } else {
                RepView::Array { items: seq![spec_h1(data), spec_h2(data), h] }
            }
        },
        RepView::Array { items } => {
            if spec_array_fits(items, h) {
                RepView::Array { items: spec_array_insert(items, h) }
            } else {
                RepView::Hll { regs: spec_hll_insert(regs_of_seq(items, p, w), h, p, w) }
            }
        },
        RepView::Hll { regs } => RepView::Hll { regs: spec_hll_insert(regs, h, p, w) },
    }
}

/// The representation after inserting a whole codeword sequence, in order.
pub open spec fn spec_insert_seq(v: RepView, items: Seq<u32>, p: nat, w: nat) -> RepView
    decreases items.len(),
{
    if items.len() == 0 {
        v
    } else {
        spec_insert(spec_insert_seq(v, items.drop_last(), p, w), items.last(), p, w)
    }
}

/// The cardinality estimate of a representation: exact slot and sequence
/// counts on the two exact tiers, the LogLog-beta formula on the register
/// file.
pub open spec fn spec_estimate(v: RepView, p: nat, w: nat) -> int {
    match v {
        RepView::Small { data } => spec_small_estimate(data),
        RepView::Array { items } => items.len() as int,
        RepView::Hll { regs } => spec_estimate_hll(p, count_zeros(regs), spec_hsum(regs)),
    }
}

/// The representation after merging `b` into `a`.  An exact right-hand
/// side replays its codewords into the left; a register-file right-hand
/// side absorbs an exact left side into a copy of its registers, and meets
/// another register file pointwise.
pub open spec fn spec_merge(a: RepView, b: RepView, p: nat, w: nat) -> RepView {
    match b {
        RepView::Small { data } => {
            let v1 = if spec_h1(data) != 0 {
                spec_insert(a, spec_h1(data), p, w)
            } else {
                a
            };
            if spec_h2(data) != 0 {
                spec_insert(v1, spec_h2(data), p, w)
            } else {
                v1
            }
        },
        RepView::Array { items } => spec_insert_seq(a, items, p, w),
        RepView::Hll { regs } => {
            match a {
                RepView::Small { data } => RepView::Hll {
                    regs: spec_hll_insert(
                        spec_hll_insert(regs, spec_h1(data), p, w),
                        spec_h2(data),
                        p,
                        w,
                    ),
                },
                RepView::Array { items } => RepView::Hll { regs: hll_with_seq(regs, items, p, w) },
                RepView::Hll { regs: lhs } => RepView::Hll { regs: spec_hll_merge(lhs, regs) },
            }
        },
    }
}

/// A register file after inserting a codeword sequence, in order.
pub open spec fn hll_with_seq(regs: Seq<u32>, items: Seq<u32>, p: nat, w: nat) -> Seq<u32>
    decreases items.len(),
{
    if items.len() == 0 {
        regs
    } else {
        spec_hll_insert(hll_with_seq(regs, items.drop_last(), p, w), items.last(), p, w)
    }
}

/// Representation variants of the sketch.
#[derive(Debug)]
pub enum Representation<const P: usize, const W: usize> {
    Small(Small<P, W>),
    Array(Array<P, W>),
    Hll(HyperLogLog<P, W>),
}

impl<const P: usize, const W: usize> View for Representation<P, W> {
    type V = RepView;

    open spec fn view(&self) -> RepView {
        match self {
            Representation::Small(s) => RepView::Small { data: s@ },
            Representation::Array(a) => RepView::Array { items: a@ },
            Representation::Hll(h) => RepView::Hll { regs: h@ },
        }
    }
}

impl<const P: usize, const W: usize> Representation<P, W> {
    /// Structural soundness of the current tier.
    pub open spec fn wf(&self) -> bool {
        match self {
            Representation::Small(_) => true,
            Representation::Array(a) => a.wf(),
            Representation::Hll(h) => h.wf(),
        }
    }

    /// Insert the encoded codeword `h` into the current tier.  `None` means
    /// the tier absorbed it in place; `Some` carries the promoted
    /// replacement representation, and the receiver is left untouched.
    pub fn insert_encoded_hash(&mut self, h: u32) -> (r: Option<Representation<P, W>>)
        requires
            old(self).wf(),
            valid_params(P as nat, W as nat),
        ensures
            match r {
                None => final(self).wf() && final(self)@ == spec_insert(
                    old(self)@,
                    h,
                    P as nat,
                    W as nat,
                ),
                Some(rep) => rep.wf() && rep@ == spec_insert(old(self)@, h, P as nat, W as nat)
                    && final(self)@ == old(self)@ && final(self).wf(),
            },
    {
        match self {
            Representation::Small(s) => {
                if s.insert(h) {
                    None
                } else {
                    let arr = Array::<P, W>::from_small(s.h1(), s.h2(), h);
                    proof {
                        assert(arr@ =~= seq![
                            spec_h1(old(self)@->Small_data),
                            spec_h2(old(self)@->Small_data),
                            h,
                        ]);
                    }
                    Some(Representation::Array(arr))
                }
            },
            Representation::Array(a) => {
                if a.insert(h) {
                    None
                } else {
                    let mut hll = HyperLogLog::<P, W>::new();
                    let n = a.len();
                    let mut i: usize = 0;
                    proof {
                        assert(a@.take(0) =~= Seq::<u32>::empty());
                        assert(hll@ =~= regs_of_seq(a@.take(0), P as nat, W as nat));
                    }
                    while i < n
                        invariant
                            a.wf(),
                            hll.wf(),
                            valid_params(P as nat, W as nat),
                            n == a@.len(),
                            i <= n,
                            hll@ =~= regs_of_seq(a@.take(i as int), P as nat, W as nat),
                        decreases n - i,
                    {
                        let h2 = a.get(i);
                        hll.insert(h2);
                        i += 1;
                        proof {
                            assert(a@.take(i as int).drop_last() =~= a@.take(i as int - 1));
                            assert(a@.take(i as int).last() == a@[i as int - 1]);
                        }
                    }
                    proof {
                        assert(a@.take(n as int) =~= a@);
                    }
                    hll.insert(h);
                    Some(Representation::Hll(hll))
                }
            },
            Representation::Hll(hl) => {
                hl.insert(h);
                None
            },
        }
    }

    /// Insert the encoded codeword in place, applying the promotion when
    /// one is returned.
    pub fn iec(&mut self, h: u32)
        requires
            old(self).wf(),
            valid_params(P as nat, W as nat),
        ensures
            final(self).wf(),
            final(self)@ == spec_insert(old(self)@, h, P as nat, W as nat),
    {
        let upgraded = self.insert_encoded_hash(h);
        match upgraded {
            Some(rep) => {
                *self = rep;
            },
            None => {},
        }
    }

    /// The cardinality estimate of the current tier.
    pub fn estimate(&self) -> (r: usize)
        requires
            self.wf(),
            valid_params(P as nat, W as nat),
        ensures
            r as int == spec_estimate(self@, P as nat, W as nat),
    {
        match self {
            Representation::Small(s) => s.estimate(),
            Representation::Array(a) => a.estimate(),
            Representation::Hll(h) => {
                proof {
                    lemma_count_zeros_bounds(h@);
                    crate::hyperloglog::lemma_pow2_fits_u32(P as nat);
                    lemma_hsum_bounds(h@);
                }
                let sum = h.harmonic_sum_fixed();
                crate::estimate::estimate_fixed(P, h.zeros, sum)
            },
        }
    }


    /// Merge another representation into this one: replay an exact right
    /// side codeword by codeword, absorb an exact left side into a copy of
    /// a register-file right side, and meet two register files pointwise.
    pub fn merge(&mut self, rhs: &Representation<P, W>)
        requires
            old(self).wf(),
            rhs.wf(),
            valid_params(P as nat, W as nat),
        ensures
            final(self).wf(),
            final(self)@ == spec_merge(old(self)@, rhs@, P as nat, W as nat),
    {
        match rhs {
            Representation::Small(rs) => {
                let items = rs.items();
                if items.0 != 0 {
                    self.iec(items.0);
                }
                if items.1 != 0 {
                    self.iec(items.1);
                }
            },
            Representation::Array(ra) => {
                let n = ra.len();
                let mut i: usize = 0;
                proof {
                    assert(ra@.take(0) =~= Seq::<u32>::empty());
                }
                while i < n
                    invariant
                        self.wf(),
                        ra.wf(),
                        valid_params(P as nat, W as nat),
                        n == ra@.len(),
                        i <= n,
                        self@ == spec_insert_seq(old(self)@, ra@.take(i as int), P as nat, W as nat),
                    decreases n - i,
                {
                    let h = ra.get(i);
                    self.iec(h);
                    i += 1;
                    proof {
                        assert(ra@.take(i as int).drop_last() =~= ra@.take(i as int - 1));
                        assert(ra@.take(i as int).last() == ra@[i as int - 1]);
                    }
                }
                proof {
                    assert(ra@.take(n as int) =~= ra@);
                }
            },
            Representation::Hll(rh) => {
                if let Representation::Hll(lh) = self {
                    lh.merge(rh);
                    return ;
                }
                let mut hll = rh.duplicate();
                match &*self {
                    Representation::Small(ls) => {
                        let items = ls.items();
                        hll.insert(items.0);
                        hll.insert(items.1);
                    },
                    Representation::Array(la) => {
                        let n = la.len();
                        let mut i: usize = 0;
                        proof {
                            assert(la@.take(0) =~= Seq::<u32>::empty());
                        }
                        while i < n
                            invariant
                                hll.wf(),
                                la.wf(),
                                valid_params(P as nat, W as nat),
                                n == la@.len(),
                                i <= n,
                                hll@ == hll_with_seq(rh@, la@.take(i as int), P as nat, W as nat),
                            decreases n - i,
                        {
                            let h = la.get(i);
                            hll.insert(h);
                            i += 1;
                            proof {
                                assert(la@.take(i as int).drop_last() =~= la@.take(i as int - 1));
                                assert(la@.take(i as int).last() == la@[i as int - 1]);
                            }
                        }
                        proof {
                            assert(la@.take(n as int) =~= la@);
                        }
                    },
                    Representation::Hll(_) => {
                        proof {
                            assert(false);
                        }
                    },
                }
                *self = Representation::Hll(hll);
            },
        }
    }

    /// Shallow memory footprint of the current tier.
    pub fn size_of(&self) -> (r: usize)
        ensures
            r as int == spec_size_of(self@),
    {
        match self {
            Representation::Small(s) => s.size_of(),
            Representation::Array(a) => a.size_of(),
            Representation::Hll(h) => h.size_of(),
        }
    }
}

/// The shallow memory footprint of each tier.
pub open spec fn spec_size_of(v: RepView) -> int {
    match v {
        RepView::Small { .. } => 8int,
        RepView::Array { .. } => 32int,
        RepView::Hll { .. } => 32int,
    }
}

impl<const P: usize, const W: usize> Default for Representation<P, W> {
    /// A fresh representation: the empty small word.
    fn default() -> (r: Self)
        ensures
            r.wf(),
            r@ == (RepView::Small { data: 0u64 }),
    {
        Representation::Small(Small::new())
    }
}

/// The harmonic sum of a register sequence lies between zero and one unit
/// per register.
pub proof fn lemma_hsum_bounds(regs: Seq<u32>)
    ensures
        0 <= spec_hsum(regs) <= regs.len() * 0x8000000000000000,
    decreases regs.len(),
{
    if regs.len() == 0 {
    } else {
        lemma_hsum_bounds(regs.drop_last());
        vstd::arithmetic::power2::lemma2_to64();
        vstd::arithmetic::power2::lemma2_to64_rest();
        if regs.last() < 64u32 {
            assert(pow2((63 - regs.last()) as nat) <= pow2(63)) by {
                if regs.last() > 0 {
                    vstd::arithmetic::power2::lemma_pow2_strictly_increases(
                        (63 - regs.last()) as nat,
                        63,
                    );
                }
            }
        }
        assert((regs.len() - 1) * 0x8000000000000000 + 0x8000000000000000 == regs.len()
            * 0x8000000000000000) by (nonlinear_arith);
    }
}


} // verus!
