//! Proved laws of the sketch: idempotence, exactness below the array
//! capacity, promotion thresholds, merge as union on the exact tiers, and
//! commutativity of merge outcomes where the register file is involved.

use vstd::prelude::*;

verus! {

use crate::element::valid_params;
use crate::small::spec_h1;
use crate::small::spec_h2;
use crate::small::spec_small_fits;
use crate::small::spec_small_insert;
use crate::small::spec_small_estimate;
use crate::array::MAX_CAPACITY;
use crate::array::spec_array_fits;
use crate::array::spec_array_insert;
use crate::hyperloglog::spec_hll_insert;
use crate::hyperloglog::spec_hll_merge;
use crate::hyperloglog::spec_hll_idx;
use crate::hyperloglog::spec_hll_rank;
use crate::representation::RepView;
use crate::representation::spec_insert;
use crate::representation::spec_insert_seq;
use crate::representation::spec_merge;
use crate::representation::spec_estimate;
use crate::representation::hll_with_seq;

/// A codeword that an element can carry: non-zero and 31 bits wide.
pub open spec fn wf_code(h: u32) -> bool {
    h != 0 && h < 0x8000_0000u32
}

/// The rank with which the tier ladder orders the representations:
/// promotions climb, downgrades never happen.
pub open spec fn tier_rank(v: RepView) -> int {
    match v {
        RepView::Small { .. } => 0int,
        RepView::Array { .. } => 1int,
        RepView::Hll { .. } => 2int,
    }
}

/// A representation that holds exactly the codeword set `s`: a disciplined
/// small word or a duplicate-free array whose entries are exactly `s`.
pub open spec fn exact_rep(v: RepView, s: Set<u32>) -> bool {
    match v {
        RepView::Small { data } => {
            &&& s.finite()
            &&& (spec_h2(data) != 0 ==> spec_h1(data) != 0 && spec_h1(data) != spec_h2(data))
            &&& (forall|c: u32| s.contains(c) <==> (c != 0 && (spec_h1(data) == c || spec_h2(data)
                == c)))
            &&& (spec_h1(data) != 0 ==> wf_code(spec_h1(data)))
            &&& (spec_h2(data) != 0 ==> wf_code(spec_h2(data)))
            &&& s.len() == spec_small_estimate(data)
        },
        RepView::Array { items } => {
            &&& s.finite()
            &&& items.no_duplicates()
            &&& (forall|c: u32| s.contains(c) <==> items.contains(c))
            &&& (forall|i: int| 0 <= i < items.len() ==> wf_code(#[trigger] items[i]))
            &&& s.len() == items.len()
            &&& 3 <= items.len() <= MAX_CAPACITY
        },
        RepView::Hll { .. } => false,
    }
}

/// Slot one takes the codeword when it is empty; the other slot and the
/// tag bits keep their bits.
proof fn lemma_small_store1(d: u64, h: u32)
    by (bit_vector)
    requires
        spec_h1(d) == 0,
        h < 0x8000_0000u32,
    ensures
        spec_h1(d | ((h as u64) << 2)) == h,
        spec_h2(d | ((h as u64) << 2)) == spec_h2(d),
{
}

/// Slot two takes the codeword when it is empty; the other slot keeps its
/// bits.
proof fn lemma_small_store2(d: u64, h: u32)
    by (bit_vector)
    requires
        spec_h2(d) == 0,
        h < 0x8000_0000u32,
    ensures
        spec_h2(d | ((h as u64) << 33)) == h,
        spec_h1(d | ((h as u64) << 33)) == spec_h1(d),
{
}

/// LAW (exact insertion).  Inserting a well-formed codeword into a
/// representation that exactly holds `s` yields one that exactly holds
/// `s` with the codeword added, as long as that union still fits the
/// array capacity; the tier is decided by the size of the union alone.
pub proof fn lemma_insert_exact(v: RepView, s: Set<u32>, h: u32, p: nat, w: nat)
    requires
        exact_rep(v, s),
        wf_code(h),
        s.insert(h).len() <= MAX_CAPACITY,
    ensures
        exact_rep(spec_insert(v, h, p, w), s.insert(h)),
        spec_estimate(spec_insert(v, h, p, w), p, w) == s.insert(h).len(),
{
    let s2 = s.insert(h);
    broadcast use vstd::set_lib::group_set_properties;
    broadcast use vstd::set::group_set_axioms;
    broadcast use vstd::seq_lib::seq_to_set_is_finite;
    match v {
        RepView::Small { data } => {
            let h1 = spec_h1(data);
            let h2 = spec_h2(data);
            if h1 == 0 {
                // both slots empty: s is empty, h lands in slot one
                assert(!s.contains(h2));
                assert(s =~= Set::<u32>::empty());
                assert(s.len() == 0) by {
                    assert(s =~= Set::<u32>::empty());
                }
                lemma_small_store1(data, h);
                let d2 = spec_small_insert(data, h);
                assert(spec_h1(d2) == h && spec_h2(d2) == h2);
                assert(s2 =~= s.insert(h));
                assert(exact_rep(spec_insert(v, h, p, w), s2));
            } else if h1 == h {
                assert(s.contains(h));
                assert(s2 =~= s);
                assert(exact_rep(spec_insert(v, h, p, w), s2));
            } else if h2 == 0 {
                assert(!s.contains(h));
                assert(s =~= Set::<u32>::empty().insert(h1));
                lemma_small_store2(data, h);
                let d2 = spec_small_insert(data, h);
                assert(spec_h2(d2) == h && spec_h1(d2) == h1);
                assert(forall|c: u32|
                    s2.contains(c) <==> (c != 0 && (spec_h1(d2) == c || spec_h2(d2) == c)));
                assert(exact_rep(spec_insert(v, h, p, w), s2));
            } else if h2 == h {
                assert(s.contains(h));
                assert(s2 =~= s);
                assert(exact_rep(spec_insert(v, h, p, w), s2));
            } else {
                // a third distinct codeword: promotion to the array tier
                assert(!spec_small_fits(data, h));
                let items = seq![h1, h2, h];
                assert(s =~= Set::<u32>::empty().insert(h1).insert(h2));
                assert(items.no_duplicates()) by {
                    assert(items[0] == h1 && items[1] == h2 && items[2] == h);
                }
                assert(forall|c: u32| s2.contains(c) <==> items.contains(c)) by {
                    assert(forall|c: u32|
                        items.contains(c) <==> (items[0] == c || items[1] == c || items[2] == c));
                }
                assert(s.len() == 2);
                assert(s2.len() == 3);
                assert(forall|i: int| 0 <= i < items.len() ==> wf_code(#[trigger] items[i]));
                assert(exact_rep(spec_insert(v, h, p, w), s2));
            }
        },
        RepView::Array { items } => {
            if items.contains(h) {
                assert(s.contains(h));
                assert(s2 =~= s);
                assert(spec_array_fits(items, h));
                assert(exact_rep(spec_insert(v, h, p, w), s2));
            } else {
                assert(!s.contains(h));
                assert(s2.len() == s.len() + 1);
                assert(items.len() < MAX_CAPACITY);
                assert(spec_array_fits(items, h));
                let items2 = spec_array_insert(items, h);
                assert(items2 == items.push(h));
                assert(items2.no_duplicates()) by {
                    assert(forall|i: int, j: int|
                        0 <= i < j < items2.len() && j < items.len() ==> items2[i] != items2[j]);
                    assert(forall|i: int|
                        0 <= i < items.len() ==> items2[i] == items[i] && items.contains(
                            items[i],
                        ));
                }
                assert(forall|c: u32| s2.contains(c) <==> items2.contains(c)) by {
                    assert(forall|c: u32|
                        items2.contains(c) <==> (items.contains(c) || c == h)) by {
                        assert(forall|i: int|
                            0 <= i < items.len() ==> items2[i] == items[i]);
                        assert(items2[items.len() as int] == h);
                        assert(forall|c: u32| #[trigger] items.contains(c) ==> items2.contains(c));
                    }
                }
                assert(forall|i: int| 0 <= i < items2.len() ==> wf_code(#[trigger] items2[i]));
                assert(exact_rep(spec_insert(v, h, p, w), s2));
            }
        },
        RepView::Hll { .. } => {},
    }
}

/// LAW (idempotence).  Inserting the same element codeword twice leaves
/// the representation, and with it the estimate, exactly as one insert
/// does, in every tier and every state.
pub proof fn lemma_insert_idempotent(v: RepView, h: u32, p: nat, w: nat)
    requires
        wf_code(h),
        valid_params(p, w),
        v is Hll ==> v->Hll_regs.len() == crate::hyperloglog::spec_m(p),
    ensures
        spec_insert(spec_insert(v, h, p, w), h, p, w) == spec_insert(v, h, p, w),
        spec_estimate(spec_insert(spec_insert(v, h, p, w), h, p, w), p, w) == spec_estimate(
            spec_insert(v, h, p, w),
            p,
            w,
        ),
{
    match v {
        RepView::Small { data } => {
            let h1 = spec_h1(data);
            let h2 = spec_h2(data);
            if h1 == 0 {
                lemma_small_store1(data, h);
            } else if h1 == h {
            } else if h2 == 0 {
                lemma_small_store2(data, h);
            } else if h2 == h {
            } else {
                let items = seq![h1, h2, h];
                assert(items.contains(h)) by {
                    assert(items[2] == h);
                }
            }
        },
        RepView::Array { items } => {
            if items.contains(h) {
            } else if items.len() < MAX_CAPACITY {
                let items2 = spec_array_insert(items, h);
                assert(items2.contains(h)) by {
                    assert(items2[items.len() as int] == h);
                }
            } else {
                let regs = crate::representation::regs_of_seq(items, p, w);
                lemma_regs_of_seq_len(items, p, w);
                lemma_hll_insert_idempotent(regs, h, p, w);
            }
        },
        RepView::Hll { regs } => {
            lemma_hll_insert_idempotent(regs, h, p, w);
        },
    }
}

/// The register index a codeword addresses is always inside a register
/// file of the right size, and an insert keeps that size.
pub proof fn lemma_hll_insert_len(regs: Seq<u32>, h: u32, p: nat, w: nat)
    requires
        valid_params(p, w),
        regs.len() == crate::hyperloglog::spec_m(p),
    ensures
        0 <= spec_hll_idx(h, p, w) < regs.len(),
        spec_hll_insert(regs, h, p, w).len() == regs.len(),
{
    crate::hyperloglog::lemma_and_mask_lt(h >> (w as u32), p as u32);
    vstd::arithmetic::power2::lemma2_to64();
    vstd::arithmetic::power2::lemma2_to64_rest();
    assert(1 * vstd::arithmetic::power2::pow2(p) == vstd::arithmetic::power2::pow2(p));
    vstd::bits::lemma_u32_pow2_no_overflow(p);
    vstd::bits::lemma_u32_shl_is_mul(1u32, p as u32);
}

/// Observing the same codeword again never moves a register: the second
/// insert sees a rank at least as large as its own.
pub proof fn lemma_hll_insert_idempotent(regs: Seq<u32>, h: u32, p: nat, w: nat)
    requires
        valid_params(p, w),
        regs.len() == crate::hyperloglog::spec_m(p),
    ensures
        spec_hll_insert(spec_hll_insert(regs, h, p, w), h, p, w) == spec_hll_insert(
            regs,
            h,
            p,
            w,
        ),
{
    lemma_hll_insert_len(regs, h, p, w);
    let idx = spec_hll_idx(h, p, w);
    let rank = spec_hll_rank(h, w);
    let r1 = spec_hll_insert(regs, h, p, w);
    if rank > regs[idx] {
        assert(r1[idx] == rank);
    }
}

/// Inserting the zero codeword never moves a register: its rank field is
/// zero, which no register is below.
pub proof fn lemma_hll_insert_zero(regs: Seq<u32>, p: nat, w: nat)
    requires
        w < 32,
    ensures
        spec_hll_insert(regs, 0u32, p, w) == regs,
{
    let w32 = w as u32;
    assert((0u32 & (((1u32 << w32) - 1) as u32)) == 0u32) by (bit_vector);
    assert(spec_hll_rank(0u32, w) == 0u32);
}


/// The register file built from a codeword sequence always has one
/// register per index.
pub proof fn lemma_regs_of_seq_len(items: Seq<u32>, p: nat, w: nat)
    requires
        valid_params(p, w),
    ensures
        crate::representation::regs_of_seq(items, p, w).len() == crate::hyperloglog::spec_m(p),
    decreases items.len(),
{
    if items.len() > 0 {
        lemma_regs_of_seq_len(items.drop_last(), p, w);
        lemma_hll_insert_len(
            crate::representation::regs_of_seq(items.drop_last(), p, w),
            items.last(),
            p,
            w,
        );
    }
}

/// LAW (no downgrade).  One insert never moves the representation to a
/// lower tier.
pub proof fn lemma_tier_monotonic(v: RepView, h: u32, p: nat, w: nat)
    ensures
        tier_rank(spec_insert(v, h, p, w)) >= tier_rank(v),
{
}

/// LAW (promotion thresholds and exactness).  Starting from the empty
/// sketch and inserting any sequence of distinct well-formed codewords:
/// with up to two of them the representation is the small tier, from three
/// to the array capacity it is the array tier, and in both cases the
/// estimate equals the number of codewords exactly.
pub proof fn lemma_exact_below_capacity(items: Seq<u32>, p: nat, w: nat)
    requires
        items.no_duplicates(),
        forall|i: int| 0 <= i < items.len() ==> wf_code(#[trigger] items[i]),
        items.len() <= MAX_CAPACITY,
    ensures
        exact_rep(
            spec_insert_seq(RepView::Small { data: 0u64 }, items, p, w),
            items.to_set(),
        ) || items.len() <= 2,
        spec_estimate(spec_insert_seq(RepView::Small { data: 0u64 }, items, p, w), p, w)
            == items.len(),
        items.len() <= 2 ==> spec_insert_seq(RepView::Small { data: 0u64 }, items, p, w) is Small,
        3 <= items.len() ==> spec_insert_seq(RepView::Small { data: 0u64 }, items, p, w) is Array,
    decreases items.len(),
{
    lemma_exact_rep_from_empty(items, p, w);
}

/// The induction behind the exactness law: the state after the replay
/// exactly holds the codeword set of the sequence.
pub proof fn lemma_exact_rep_from_empty(items: Seq<u32>, p: nat, w: nat)
    requires
        items.no_duplicates(),
        forall|i: int| 0 <= i < items.len() ==> wf_code(#[trigger] items[i]),
        items.len() <= MAX_CAPACITY,
    ensures
        exact_rep(spec_insert_seq(RepView::Small { data: 0u64 }, items, p, w), items.to_set()),
        items.to_set().len() == items.len(),
        spec_estimate(spec_insert_seq(RepView::Small { data: 0u64 }, items, p, w), p, w)
            == items.len(),
        tier_rank(spec_insert_seq(RepView::Small { data: 0u64 }, items, p, w)) == (if items.len()
            <= 2 {
            0int
        } else {
            1int
        }),
    decreases items.len(),
{
    broadcast use vstd::set_lib::group_set_properties;
    broadcast use vstd::set::group_set_axioms;
    broadcast use vstd::seq_lib::seq_to_set_is_finite;
    if items.len() == 0 {
        assert(items.to_set() =~= Set::<u32>::empty());
        assert(exact_rep(RepView::Small { data: 0u64 }, items.to_set())) by {
            assert(spec_h1(0u64) == 0u32) by (bit_vector);
            assert(spec_h2(0u64) == 0u32) by (bit_vector);
        }
    } else {
        let prefix = items.drop_last();
        let h = items.last();
        assert(prefix.no_duplicates());
        lemma_exact_rep_from_empty(prefix, p, w);
        let vp = spec_insert_seq(RepView::Small { data: 0u64 }, prefix, p, w);
        assert(!prefix.contains(h));
        assert(!prefix.to_set().contains(h));
        lemma_to_set_drop_last(items);
        assert(items.to_set() =~= prefix.to_set().insert(h));
        lemma_insert_exact(vp, prefix.to_set(), h, p, w);
    }
}


/// A sequence's codeword set is its prefix's set plus its last element.
pub proof fn lemma_to_set_drop_last(t: Seq<u32>)
    requires
        t.len() > 0,
    ensures
        t.to_set() =~= t.drop_last().to_set().insert(t.last()),
{
    broadcast use vstd::set::group_set_axioms;
    assert forall|c: u32| t.to_set().contains(c) implies t.drop_last().to_set().insert(
        t.last(),
    ).contains(c) by {
        let i = choose|i: int| 0 <= i < t.len() && t[i] == c;
        if i < t.len() - 1 {
            assert(t.drop_last()[i] == c);
            assert(t.drop_last().contains(c));
        }
    }
    assert forall|c: u32|
        t.drop_last().to_set().insert(t.last()).contains(c) implies t.to_set().contains(c) by {
        if c == t.last() {
            assert(t[t.len() - 1] == c);
            assert(t.contains(c));
        } else {
            let i = choose|i: int| 0 <= i < t.drop_last().len() && t.drop_last()[i] == c;
            assert(t[i] == c);
            assert(t.contains(c));
        }
    }
}

/// LAW (merge as union, exact tiers).  Merging two exact representations
/// whose codeword union still fits the array capacity yields an exact
/// representation of the union, so the merged estimate is the exact
/// distinct count of the union.
pub proof fn lemma_merge_exact(a: RepView, b: RepView, sa: Set<u32>, sb: Set<u32>, p: nat, w: nat)
    requires
        exact_rep(a, sa),
        exact_rep(b, sb),
        sa.union(sb).len() <= MAX_CAPACITY,
    ensures
        exact_rep(spec_merge(a, b, p, w), sa.union(sb)),
        spec_estimate(spec_merge(a, b, p, w), p, w) == sa.union(sb).len(),
{
    broadcast use vstd::set_lib::group_set_properties;
    broadcast use vstd::set::group_set_axioms;
    broadcast use vstd::seq_lib::seq_to_set_is_finite;
    match b {
        RepView::Small { data } => {
            let h1 = spec_h1(data);
            let h2 = spec_h2(data);
            if h1 != 0 && h2 != 0 {
                assert(sb =~= Set::<u32>::empty().insert(h1).insert(h2));
                lemma_union_insert_two(sa, sb, h1, h2);
                lemma_insert_exact(a, sa, h1, p, w);
                lemma_insert_exact(spec_insert(a, h1, p, w), sa.insert(h1), h2, p, w);
                assert(sa.union(sb) =~= sa.insert(h1).insert(h2));
            } else if h1 != 0 {
                assert(sb =~= Set::<u32>::empty().insert(h1));
                assert(sa.union(sb) =~= sa.insert(h1));
                lemma_insert_exact(a, sa, h1, p, w);
            } else if h2 != 0 {
                assert(sb =~= Set::<u32>::empty().insert(h2));
                assert(sa.union(sb) =~= sa.insert(h2));
                lemma_insert_exact(a, sa, h2, p, w);
            } else {
                assert(sb =~= Set::<u32>::empty());
                assert(sa.union(sb) =~= sa);
            }
        },
        RepView::Array { items } => {
            assert(sb =~= items.to_set());
            lemma_insert_seq_exact(a, sa, items, p, w);
            assert(sa.union(sb) =~= sa.union(items.to_set()));
        },
        RepView::Hll { .. } => {},
    }
}

/// Replaying a duplicate-free well-formed codeword sequence into an exact
/// representation accumulates the sequence's codewords into its set.
pub proof fn lemma_insert_seq_exact(a: RepView, sa: Set<u32>, items: Seq<u32>, p: nat, w: nat)
    requires
        exact_rep(a, sa),
        items.no_duplicates(),
        forall|i: int| 0 <= i < items.len() ==> wf_code(#[trigger] items[i]),
        sa.union(items.to_set()).len() <= MAX_CAPACITY,
    ensures
        exact_rep(spec_insert_seq(a, items, p, w), sa.union(items.to_set())),
    decreases items.len(),
{
    broadcast use vstd::set_lib::group_set_properties;
    broadcast use vstd::set::group_set_axioms;
    broadcast use vstd::seq_lib::seq_to_set_is_finite;
    if items.len() == 0 {
        assert(items.to_set() =~= Set::<u32>::empty());
        assert(sa.union(items.to_set()) =~= sa);
    } else {
        let prefix = items.drop_last();
        let h = items.last();
        assert(prefix.no_duplicates());
        assert(prefix.to_set().subset_of(items.to_set())) by {
            assert(forall|c: u32| #[trigger] prefix.contains(c) ==> items.contains(c));
        }
        assert(sa.union(prefix.to_set()).subset_of(sa.union(items.to_set())));
        vstd::set_lib::lemma_len_subset(sa.union(prefix.to_set()), sa.union(items.to_set()));
        lemma_insert_seq_exact(a, sa, prefix, p, w);
        lemma_to_set_drop_last(items);
        assert(items.to_set() =~= prefix.to_set().insert(h));
        assert(sa.union(items.to_set()) =~= sa.union(prefix.to_set()).insert(h));
        assert(sa.union(prefix.to_set()).insert(h).subset_of(sa.union(items.to_set())));
        vstd::set_lib::lemma_len_subset(
            sa.union(prefix.to_set()).insert(h),
            sa.union(items.to_set()),
        );
        lemma_insert_exact(spec_insert_seq(a, prefix, p, w), sa.union(prefix.to_set()), h, p, w);
    }
}

/// Two single insertions reach the two-element union.
proof fn lemma_union_insert_two(sa: Set<u32>, sb: Set<u32>, h1: u32, h2: u32)
    requires
        sb =~= Set::<u32>::empty().insert(h1).insert(h2),
        sa.union(sb).len() <= MAX_CAPACITY,
        sa.finite(),
        sb.finite(),
    ensures
        sa.insert(h1).len() <= MAX_CAPACITY,
        sa.insert(h1).insert(h2).len() <= MAX_CAPACITY,
        sa.insert(h1).insert(h2) =~= sa.union(sb),
{
    broadcast use vstd::set_lib::group_set_properties;
    broadcast use vstd::set::group_set_axioms;
    broadcast use vstd::seq_lib::seq_to_set_is_finite;
    assert(sa.insert(h1).insert(h2) =~= sa.union(sb));
    assert(sa.insert(h1).subset_of(sa.union(sb)));
    vstd::set_lib::lemma_len_subset(sa.insert(h1), sa.union(sb));
}

/// LAW (commutativity of merge, register files).  Wherever a register
/// file is involved, merging in either order yields the same register
/// file, and with it the same estimate.
pub proof fn lemma_merge_commutes_hll(a: RepView, b: RepView, p: nat, w: nat)
    requires
        valid_params(p, w),
        a is Hll || b is Hll,
        a is Hll ==> a->Hll_regs.len() == crate::hyperloglog::spec_m(p),
        b is Hll ==> b->Hll_regs.len() == crate::hyperloglog::spec_m(p),
    ensures
        spec_merge(a, b, p, w) == spec_merge(b, a, p, w),
        spec_estimate(spec_merge(a, b, p, w), p, w) == spec_estimate(spec_merge(b, a, p, w), p, w),
{
    if a is Hll && b is Hll {
        let ra = a->Hll_regs;
        let rb = b->Hll_regs;
        assert(spec_hll_merge(ra, rb) =~= spec_hll_merge(rb, ra));
    } else if b is Hll {
        lemma_merge_hll_one_side(a, b->Hll_regs, p, w);
    } else {
        lemma_merge_hll_one_side(b, a->Hll_regs, p, w);
    }
}

/// Merging an exact representation with a register file gives the same
/// registers from either side: the replay of the exact side's codewords.
proof fn lemma_merge_hll_one_side(e: RepView, regs: Seq<u32>, p: nat, w: nat)
    requires
        valid_params(p, w),
        !(e is Hll),
    ensures
        spec_merge(e, RepView::Hll { regs }, p, w) == spec_merge(RepView::Hll { regs }, e, p, w),
{
    match e {
        RepView::Small { data } => {
            let h1 = spec_h1(data);
            let h2 = spec_h2(data);
            // the replay inserts both slots; empty slots are zero codewords,
            // which never move a register
            lemma_hll_insert_zero(regs, p, w);
            lemma_hll_insert_zero(spec_hll_insert(regs, h1, p, w), p, w);
        },
        RepView::Array { items } => {
            lemma_insert_seq_into_hll(regs, items, p, w);
        },
        RepView::Hll { .. } => {},
    }
}

/// Replaying a codeword sequence into a register-file representation is
/// the same as folding the codewords into the registers directly.
proof fn lemma_insert_seq_into_hll(regs: Seq<u32>, items: Seq<u32>, p: nat, w: nat)
    ensures
        spec_insert_seq(RepView::Hll { regs }, items, p, w) == (RepView::Hll {
            regs: hll_with_seq(regs, items, p, w),
        }),
    decreases items.len(),
{
    if items.len() > 0 {
        lemma_insert_seq_into_hll(regs, items.drop_last(), p, w);
    }
}

/// LAW (estimate monotone, exact tiers).  As long as an insert does not
/// promote into the register file, the estimate never decreases.
pub proof fn lemma_insert_estimate_monotonic_exact(v: RepView, h: u32, p: nat, w: nat)
    requires
        !(v is Hll),
        !(spec_insert(v, h, p, w) is Hll),
    ensures
        spec_estimate(spec_insert(v, h, p, w), p, w) >= spec_estimate(v, p, w),
{
    match v {
        RepView::Small { data } => {
            let h1 = spec_h1(data);
            let h2 = spec_h2(data);
            if spec_small_fits(data, h) {
                if h1 == 0 {
                    lemma_small_slot1_monotone(data, h);
                } else if h1 == h {
                } else if h2 == 0 {
                    lemma_small_slot2_monotone(data, h);
                }
            }
        },
        RepView::Array { .. } => {},
        RepView::Hll { .. } => {},
    }
}

/// Filling slot one cannot lower the number of occupied slots.
proof fn lemma_small_slot1_monotone(d: u64, h: u32)
    by (bit_vector)
    requires
        spec_h1(d) == 0,
    ensures
        spec_small_estimate(d | ((h as u64) << 2)) >= spec_small_estimate(d),
{
}

/// Filling slot two cannot lower the number of occupied slots.
proof fn lemma_small_slot2_monotone(d: u64, h: u32)
    by (bit_vector)
    requires
        spec_h2(d) == 0,
        spec_h1(d) != 0,
    ensures
        spec_small_estimate(d | ((h as u64) << 33)) >= spec_small_estimate(d),
{
}

} // verus!
