//! The HyperLogLog tier: approximate large cardinalities.
//!
//! `M = 2^P` registers of `W` bits each are packed into a vector of 32-bit
//! words.  A register may straddle a word boundary, so reads and writes
//! always touch two adjacent words; the vector carries extra trailing words
//! so that this never needs a bounds branch.  Alongside the registers the
//! tier tracks the count of zero registers; the harmonic sum that the
//! estimator needs is recomputed exactly from the registers.

use vstd::prelude::*;

verus! {

use vstd::arithmetic::power2::pow2;
use vstd::arithmetic::power2::lemma_pow2_strictly_increases;
use vstd::arithmetic::div_mod::lemma_fundamental_div_mod;
use vstd::arithmetic::div_mod::lemma_div_is_ordered;
use vstd::arithmetic::mul::lemma_mul_inequality;
use vstd::bits::lemma_usize_shl_is_mul;
use crate::element::valid_params;

/// Number of registers for precision `p`.
pub open spec fn spec_m(p: nat) -> int {
    pow2(p) as int
}

/// Length in 32-bit words of the register vector: the packed registers plus
/// three trailing words, so that a two-word access at the last register and
/// the serialized prefix of two bookkeeping words always stay in bounds.
pub open spec fn spec_slice_len(p: nat, w: nat) -> int {
    spec_m(p) * (w as int) / 32 + 3
}

/// First bit of register `idx` in the packed bit stream.
pub open spec fn spec_bit(idx: int, w: nat) -> int {
    idx * (w as int)
}

/// Word that holds the first bit of register `idx`.
pub open spec fn spec_word(idx: int, w: nat) -> int {
    spec_bit(idx, w) / 32
}

/// Position of the first bit of register `idx` inside its word.
pub open spec fn spec_pos(idx: int, w: nat) -> int {
    spec_bit(idx, w) % 32
}

/// Number of register bits that live in the first word.
pub open spec fn spec_lo(idx: int, w: nat) -> int {
    if 32 - spec_pos(idx, w) < w as int {
        32 - spec_pos(idx, w)
    } else {
        w as int
    }
}

/// Number of register bits that spill into the second word.
pub open spec fn spec_hi(idx: int, w: nat) -> int {
    w as int - spec_lo(idx, w)
}

/// The value of register `idx`, read from the packed words: `lo` bits from
/// the first word at the register's position, then `hi` bits from the bottom
/// of the next word.
pub open spec fn spec_reg(words: Seq<u32>, idx: int, w: nat) -> u32 {
    let bp = spec_pos(idx, w) as u32;
    let b1 = spec_lo(idx, w) as u32;
    let b2 = spec_hi(idx, w) as u32;
    let m1 = (((1u32 << b1) - 1) as u32);
    let m2 = (((1u32 << b2) - 1) as u32);
    ((words[spec_word(idx, w)] >> bp) & m1) | ((words[spec_word(idx, w) + 1] & m2) << b1)
}

/// All bits of the word vector beyond the last register are zero.
pub open spec fn spec_pads_zero(words: Seq<u32>, p: nat, w: nat) -> bool {
    let q = spec_m(p) * (w as int) / 32;
    let part = spec_m(p) * (w as int) % 32;
    &&& (words[q] as int) < pow2(part as nat)
    &&& forall|k: int| q < k < words.len() ==> words[k] == 0u32
}

/// Number of zero registers in a register sequence.
pub open spec fn count_zeros(regs: Seq<u32>) -> int
    decreases regs.len(),
{
    if regs.len() == 0 {
        0int
    } else {
        count_zeros(regs.drop_last()) + if regs.last() == 0u32 {
            1int
        } else {
            0int
        }
    }
}

/// The harmonic sum of a register sequence, held exactly in fixed point at
/// scale `2^63`: each register contributes `2^(63 - rank)`.
pub open spec fn spec_hsum(regs: Seq<u32>) -> int
    decreases regs.len(),
{
    if regs.len() == 0 {
        0int
    } else {
        spec_hsum(regs.drop_last()) + if regs.last() < 64u32 {
            pow2((63 - regs.last()) as nat) as int
        } else {
            1int
        }
    }
}


/// The larger of two register values.
pub open spec fn spec_max_u32(a: u32, b: u32) -> u32 {
    if b > a {
        b
    } else {
        a
    }
}

/// The register index a codeword addresses: `(h >> w) mod 2^p`.
pub open spec fn spec_hll_idx(h: u32, p: nat, w: nat) -> int {
    ((h >> (w as u32)) & (((1u32 << (p as u32)) - 1) as u32)) as int
}

/// The rank a codeword carries: its low `w` bits.
pub open spec fn spec_hll_rank(h: u32, w: nat) -> u32 {
    h & (((1u32 << (w as u32)) - 1) as u32)
}

/// The register file after observing codeword `h`: the addressed register
/// raised to the codeword's rank when that is an increase.
pub open spec fn spec_hll_insert(regs: Seq<u32>, h: u32, p: nat, w: nat) -> Seq<u32> {
    let idx = spec_hll_idx(h, p, w);
    let rank = spec_hll_rank(h, w);
    if rank > regs[idx] {
        regs.update(idx, rank)
    } else {
        regs
    }
}

/// The pointwise maximum of two register files.
pub open spec fn spec_hll_merge(a: Seq<u32>, b: Seq<u32>) -> Seq<u32> {
    Seq::new(a.len(), |i: int| spec_max_u32(a[i], b[i]))
}

/// HyperLogLog representation container: the count of zero registers and
/// the packed register words.
#[derive(Debug)]
pub struct HyperLogLog<const P: usize, const W: usize> {
    pub zeros: u32,
    pub registers: Vec<u32>,
}

impl<const P: usize, const W: usize> View for HyperLogLog<P, W> {
    type V = Seq<u32>;

    /// The logical content: the sequence of the `M` register values.
    open spec fn view(&self) -> Seq<u32> {
        Seq::new(pow2(P as nat), |i: int| spec_reg(self.registers@, i, W as nat))
    }
}

impl<const P: usize, const W: usize> HyperLogLog<P, W> {
    /// Structural soundness: valid parameters, a register vector of the
    /// fixed size with clear padding, and a zero-register count that agrees
    /// with the registers.
    pub open spec fn wf(&self) -> bool {
        &&& valid_params(P as nat, W as nat)
        &&& self.registers@.len() == spec_slice_len(P as nat, W as nat)
        &&& spec_pads_zero(self.registers@, P as nat, W as nat)
        &&& self.zeros as int == count_zeros(self@)
    }

    /// Number of registers.
    pub fn m(&self) -> (r: usize)
        requires
            valid_params(P as nat, W as nat),
        ensures
            r == spec_m(P as nat),
            r == pow2(P as nat),
    {
        proof {
            vstd::bits::lemma_usize_pow2_no_overflow(P as nat);
            assert(1 * pow2(P as nat) == pow2(P as nat));
            lemma_usize_shl_is_mul(1, P as usize);
        }
        1usize << P
    }

    /// Length in words of the register vector.
    pub fn slice_len() -> (r: usize)
        requires
            valid_params(P as nat, W as nat),
        ensures
            r == spec_slice_len(P as nat, W as nat),
    {
        proof {
            vstd::bits::lemma_usize_pow2_no_overflow(P as nat);
            assert(1 * pow2(P as nat) == pow2(P as nat));
            lemma_usize_shl_is_mul(1, P as usize);
            lemma_m_times_w_bounds(P as nat, W as nat);
        }
        (1usize << P) * W / 32 + 3
    }

    /// The empty tier: every register zero.
    pub fn new() -> (r: Self)
        requires
            valid_params(P as nat, W as nat),
        ensures
            r.wf(),
            r@ =~= Seq::new(pow2(P as nat), |i: int| 0u32),
            r.zeros == spec_m(P as nat),
    {
        let m = (1usize << P);
        proof {
            vstd::bits::lemma_usize_pow2_no_overflow(P as nat);
            assert(1 * pow2(P as nat) == pow2(P as nat));
            lemma_usize_shl_is_mul(1, P as usize);
            lemma_m_times_w_bounds(P as nat, W as nat);
            lemma_pow2_fits_u32(P as nat);
        }
        let len = Self::slice_len();
        let registers: Vec<u32> = vec![0u32; len];
        let r = HyperLogLog { zeros: m as u32, registers };
        proof {
            assert forall|i: int| 0 <= i < pow2(P as nat) implies r@[i] == 0u32 by {
                lemma_reg_geometry(i, P as nat, W as nat);
                lemma_zero_words_zero_reg(r.registers@, i, W as nat);
            }
            lemma_count_zeros_all_zero(r@);
            assert(r@ =~= Seq::new(pow2(P as nat), |i: int| 0u32));
            vstd::arithmetic::power2::lemma_pow2_pos(
                (spec_m(P as nat) * (W as int) % 32) as nat,
            );
            assert(spec_pads_zero(r.registers@, P as nat, W as nat));
        }
        r
    }

    /// Read register `idx`.
    pub fn get_register(&self, idx: u32) -> (r: u32)
        requires
            self.wf(),
            (idx as int) < spec_m(P as nat),
        ensures
            r == self@[idx as int],
            r < pow2(W as nat),
    {
        proof {
            lemma_reg_geometry(idx as int, P as nat, W as nat);
            lemma_m_times_w_bounds(P as nat, W as nat);
        }
        let bit_idx: usize = (idx as usize) * W;
        let u32_idx: usize = bit_idx / 32;
        let bit_pos: u32 = (bit_idx % 32) as u32;
        let bits_1: u32 = if (W as u32) < 32 - bit_pos {
            W as u32
        } else {
            32 - bit_pos
        };
        let bits_2: u32 = W as u32 - bits_1;
        assert((1u32 << bits_1) >= 1 && (1u32 << bits_2) >= 1) by (bit_vector)
            requires
                bits_1 < 32 && bits_2 < 32,
        ;
        let mask_1: u32 = (1u32 << bits_1) - 1;
        let mask_2: u32 = (1u32 << bits_2) - 1;
        let w0 = self.registers[u32_idx];
        let w1 = self.registers[u32_idx + 1];
        let r = ((w0 >> bit_pos) & mask_1) | ((w1 & mask_2) << bits_1);
        proof {
            lemma_reg_value_bound(w0, w1, bit_pos, bits_1, bits_2, W as u32);
            vstd::arithmetic::power2::lemma2_to64();
            assert(1 * pow2(W as nat) == pow2(W as nat));
            vstd::bits::lemma_u32_shl_is_mul(1, W as u32);
        }
        r
    }

    /// Write register `idx`, replacing value `old_rank` with `new_rank`, and
    /// keep the zero-register count in step.
    pub fn set_register(&mut self, idx: u32, old_rank: u32, new_rank: u32)
        requires
            old(self).wf(),
            (idx as int) < spec_m(P as nat),
            old_rank == old(self)@[idx as int],
            1 <= new_rank,
            (new_rank as int) < pow2(W as nat),
        ensures
            final(self).wf(),
            final(self)@ =~= old(self)@.update(idx as int, new_rank),
            final(self).zeros == if old_rank == 0 {
                (old(self).zeros - 1) as u32
            } else {
                old(self).zeros
            },
    {
        proof {
            lemma_reg_geometry(idx as int, P as nat, W as nat);
            lemma_m_times_w_bounds(P as nat, W as nat);
            vstd::arithmetic::power2::lemma2_to64();
            assert(1 * pow2(W as nat) == pow2(W as nat));
            vstd::bits::lemma_u32_shl_is_mul(1, W as u32);
        }
        let bit_idx: usize = (idx as usize) * W;
        let u32_idx: usize = bit_idx / 32;
        let bit_pos: u32 = (bit_idx % 32) as u32;
        let bits_1: u32 = if (W as u32) < 32 - bit_pos {
            W as u32
        } else {
            32 - bit_pos
        };
        let bits_2: u32 = W as u32 - bits_1;
        assert((1u32 << bits_1) >= 1 && (1u32 << bits_2) >= 1) by (bit_vector)
            requires
                bits_1 < 32 && bits_2 < 32,
        ;
        let mask_1: u32 = (1u32 << bits_1) - 1;
        let mask_2: u32 = (1u32 << bits_2) - 1;
        let w0 = self.registers[u32_idx];
        let w1 = self.registers[u32_idx + 1];
        let nw0: u32 = (w0 & !(mask_1 << bit_pos)) | ((new_rank & mask_1) << bit_pos);
        let nw1: u32 = (w1 & !mask_2) | ((new_rank >> bits_1) & mask_2);
        self.registers[u32_idx] = nw0;
        self.registers[u32_idx + 1] = nw1;
        proof {
            let ow = old(self).registers@;
            let nw = self.registers@;
            assert(nw0 == spec_write0(ow[u32_idx as int], new_rank, idx as int, W as nat));
            assert(nw1 == spec_write1(ow[u32_idx as int + 1], new_rank, idx as int, W as nat));
            assert(nw =~= ow.update(
                spec_word(idx as int, W as nat),
                spec_write0(ow[spec_word(idx as int, W as nat)], new_rank, idx as int, W as nat),
            ).update(
                spec_word(idx as int, W as nat) + 1,
                spec_write1(
                    ow[spec_word(idx as int, W as nat) + 1],
                    new_rank,
                    idx as int,
                    W as nat,
                ),
            ));
            assert forall|j: int|
                0 <= j < pow2(P as nat) && j != idx as int implies self@[j] == old(self)@[j] by {
                lemma_set_keeps_others(ow, nw, idx as int, j, new_rank, P as nat, W as nat);
            }
            assert(self@[idx as int] == new_rank) by {
                lemma_write_read_back(
                    w0,
                    w1,
                    nw0,
                    nw1,
                    new_rank,
                    bit_pos,
                    bits_1,
                    bits_2,
                    W as u32,
                );
            }
            assert(self@ =~= old(self)@.update(idx as int, new_rank));
            lemma_set_keeps_pads(ow, nw, idx as int, new_rank, P as nat, W as nat);
            lemma_count_zeros_update(old(self)@, idx as int, new_rank);
            if old_rank == 0 {
                lemma_count_zeros_pos(old(self)@, idx as int);
            }
        }
        if old_rank == 0 && self.zeros > 0 {
            self.zeros = self.zeros - 1;
        }
    }

    /// Raise register `idx` to `new_rank` when that is an increase; smaller
    /// or equal observations leave the register file unchanged.
    pub fn update_rank(&mut self, idx: u32, new_rank: u32)
        requires
            old(self).wf(),
            (idx as int) < spec_m(P as nat),
            (new_rank as int) < pow2(W as nat),
        ensures
            final(self).wf(),
            final(self)@ =~= if new_rank > old(self)@[idx as int] {
                old(self)@.update(idx as int, new_rank)
            } else {
                old(self)@
            },
    {
        let old_rank = self.get_register(idx);
        if new_rank > old_rank {
            self.set_register(idx, old_rank, new_rank);
        }
    }

    /// Insert an encoded codeword: decode its register index and rank, and
    /// raise that register if the rank is an increase.
    pub fn insert(&mut self, h: u32)
        requires
            old(self).wf(),
        ensures
            final(self).wf(),
            final(self)@ =~= spec_hll_insert(old(self)@, h, P as nat, W as nat),
    {
        proof {
            lemma_m_times_w_bounds(P as nat, W as nat);
            vstd::arithmetic::power2::lemma2_to64();
            assert(1 * pow2(W as nat) == pow2(W as nat));
            vstd::bits::lemma_u32_shl_is_mul(1, W as u32);
            assert(1 * pow2(P as nat) == pow2(P as nat));
            lemma_pow2_fits_u32(P as nat);
            vstd::bits::lemma_u32_pow2_no_overflow(P as nat);
            vstd::bits::lemma_u32_shl_is_mul(1, P as u32);
            lemma_and_mask_lt(h >> (W as u32), P as u32);
            lemma_and_mask_lt(h, W as u32);
        }
        let rank: u32 = h & ((1u32 << (W as u32)) - 1);
        let idx: u32 = (h >> (W as u32)) & ((1u32 << (P as u32)) - 1);
        self.update_rank(idx, rank);
    }

    /// Fold another register file into this one, register by register,
    /// keeping the larger rank on each side.
    pub fn merge(&mut self, rhs: &HyperLogLog<P, W>)
        requires
            old(self).wf(),
            rhs.wf(),
        ensures
            final(self).wf(),
            final(self)@ =~= spec_hll_merge(old(self)@, rhs@),
    {
        let m = self.m();
        proof {
            lemma_pow2_fits_u32(P as nat);
        }
        let mut idx: usize = 0;
        while idx < m
            invariant
                self.wf(),
                rhs.wf(),
                m == spec_m(P as nat),
                m < 0x100000000,
                idx <= m,
                self@ =~= Seq::new(
                    pow2(P as nat),
                    |j: int|
                        if j < idx {
                            spec_max_u32(old(self)@[j], rhs@[j])
                        } else {
                            old(self)@[j]
                        },
                ),
            decreases m - idx,
        {
            let lhs_rank = self.get_register(idx as u32);
            let rhs_rank = rhs.get_register(idx as u32);
            if rhs_rank > lhs_rank {
                self.set_register(idx as u32, lhs_rank, rhs_rank);
            }
            idx += 1;
            proof {
                assert(self@ =~= Seq::new(
                    pow2(P as nat),
                    |j: int|
                        if j < idx {
                            spec_max_u32(old(self)@[j], rhs@[j])
                        } else {
                            old(self)@[j]
                        },
                ));
            }
        }
        proof {
            assert(self@ =~= spec_hll_merge(old(self)@, rhs@));
        }
    }

    /// The exact harmonic sum of the registers, in fixed point at scale
    /// `2^63`: each register `r` contributes `2^(63 - r)`.
    pub fn harmonic_sum_fixed(&self) -> (r: u128)
        requires
            self.wf(),
        ensures
            r as int == spec_hsum(self@),
    {
        let m = self.m();
        let mut sum: u128 = 0;
        let mut idx: usize = 0;
        proof {
            assert(self@.take(0) =~= Seq::<u32>::empty());
            lemma_pow2_fits_u32(P as nat);
        }
        while idx < m
            invariant
                self.wf(),
                m == spec_m(P as nat),
                m < 0x100000000,
                idx <= m,
                sum as int == spec_hsum(self@.take(idx as int)),
                sum as int <= (idx as int) * 0x8000000000000000,
            decreases m - idx,
        {
            let rank = self.get_register(idx as u32);
            proof {
                vstd::arithmetic::power2::lemma2_to64();
                assert(pow2(W as nat) <= pow2(6)) by {
                    if (W as nat) < 6 {
                        lemma_pow2_strictly_increases(W as nat, 6);
                    }
                }
                vstd::arithmetic::power2::lemma2_to64_rest();
                assert(1 * pow2((63 - rank) as nat) == pow2((63 - rank) as nat));
                vstd::bits::lemma_u64_pow2_no_overflow((63 - rank) as nat);
                vstd::bits::lemma_u64_shl_is_mul(1u64, (63 - rank) as u64);
            }
            let term: u64 = 1u64 << ((63 - rank) as u64);
            proof {
                vstd::arithmetic::power2::lemma2_to64_rest();
                assert(term as int == pow2((63 - rank) as nat));
                assert(term as int <= 0x8000000000000000) by {
                    if ((63 - rank) as nat) < 63 {
                        lemma_pow2_strictly_increases((63 - rank) as nat, 63);
                    }
                }
                assert((idx as int) * 0x8000000000000000 + 0x8000000000000000 == (idx as int + 1)
                    * 0x8000000000000000) by (nonlinear_arith);
                assert((idx as int + 1) * 0x8000000000000000 <= 0x100000000int
                    * 0x8000000000000000) by (nonlinear_arith)
                    requires
                        idx as int + 1 <= 0x100000000int,
                ;
                assert(self@.take(idx as int + 1).drop_last() =~= self@.take(idx as int));
                assert(self@.take(idx as int + 1).last() == self@[idx as int]);
            }
            sum = sum + (term as u128);
            idx += 1;
        }
        proof {
            assert(self@.take(m as int) =~= self@);
        }
        sum
    }

    /// Rebuild a tier from a serialized register vector: every register
    /// value is copied over; stray bits in the padding area are dropped.
    pub fn from_registers(registers: Vec<u32>) -> (r: Self)
        requires
            valid_params(P as nat, W as nat),
            registers@.len() == spec_slice_len(P as nat, W as nat),
        ensures
            r.wf(),
            r@ =~= Seq::new(pow2(P as nat), |i: int| spec_reg(registers@, i, W as nat)),
    {
        let mut hll = Self::new();
        let m = hll.m();
        proof {
            lemma_pow2_fits_u32(P as nat);
        }
        let mut idx: usize = 0;
        while idx < m
            invariant
                hll.wf(),
                valid_params(P as nat, W as nat),
                registers@.len() == spec_slice_len(P as nat, W as nat),
                m == spec_m(P as nat),
                m < 0x100000000,
                idx <= m,
                hll@ =~= Seq::new(
                    pow2(P as nat),
                    |j: int|
                        if j < idx {
                            spec_reg(registers@, j, W as nat)
                        } else {
                            0u32
                        },
                ),
            decreases m - idx,
        {
            let v = Self::register_at(&registers, idx as u32);
            if v > 0 {
                hll.set_register(idx as u32, 0, v);
            }
            idx += 1;
            proof {
                assert(hll@ =~= Seq::new(
                    pow2(P as nat),
                    |j: int|
                        if j < idx {
                            spec_reg(registers@, j, W as nat)
                        } else {
                            0u32
                        },
                ));
            }
        }
        hll
    }

    /// Read register `idx` out of a raw register word vector.
    pub fn register_at(words: &Vec<u32>, idx: u32) -> (r: u32)
        requires
            valid_params(P as nat, W as nat),
            words@.len() == spec_slice_len(P as nat, W as nat),
            (idx as int) < spec_m(P as nat),
        ensures
            r == spec_reg(words@, idx as int, W as nat),
            r < pow2(W as nat),
    {
        proof {
            lemma_reg_geometry(idx as int, P as nat, W as nat);
            lemma_m_times_w_bounds(P as nat, W as nat);
        }
        let bit_idx: usize = (idx as usize) * W;
        let u32_idx: usize = bit_idx / 32;
        let bit_pos: u32 = (bit_idx % 32) as u32;
        let bits_1: u32 = if (W as u32) < 32 - bit_pos {
            W as u32
        } else {
            32 - bit_pos
        };
        let bits_2: u32 = W as u32 - bits_1;
        assert((1u32 << bits_1) >= 1 && (1u32 << bits_2) >= 1) by (bit_vector)
            requires
                bits_1 < 32 && bits_2 < 32,
        ;
        let mask_1: u32 = (1u32 << bits_1) - 1;
        let mask_2: u32 = (1u32 << bits_2) - 1;
        let w0 = words[u32_idx];
        let w1 = words[u32_idx + 1];
        let r = ((w0 >> bit_pos) & mask_1) | ((w1 & mask_2) << bits_1);
        proof {
            lemma_reg_value_bound(w0, w1, bit_pos, bits_1, bits_2, W as u32);
            vstd::arithmetic::power2::lemma2_to64();
            assert(1 * pow2(W as nat) == pow2(W as nat));
            vstd::bits::lemma_u32_shl_is_mul(1, W as u32);
        }
        r
    }


    /// A deep copy of this tier: same zero count, same register words.
    pub fn duplicate(&self) -> (r: Self)
        requires
            self.wf(),
        ensures
            r.wf(),
            r@ =~= self@,
            r.registers@ =~= self.registers@,
            r.zeros == self.zeros,
    {
        let mut words: Vec<u32> = Vec::new();
        let n = self.registers.len();
        let mut i: usize = 0;
        while i < n
            invariant
                i <= n,
                n == self.registers@.len(),
                words@ =~= self.registers@.take(i as int),
            decreases n - i,
        {
            words.push(self.registers[i]);
            i += 1;
            proof {
                assert(words@ =~= self.registers@.take(i as int));
            }
        }
        proof {
            assert(self.registers@.take(n as int) =~= self.registers@);
        }
        let r = HyperLogLog { zeros: self.zeros, registers: words };
        proof {
            assert(r@ =~= self@);
        }
        r
    }

    /// Shallow memory footprint of this representation: the zero count and
    /// the register vector header.
    pub fn size_of(&self) -> (r: usize)
        ensures
            r == 32,
    {
        32
    }
}

/// Geometry facts for register `idx` under precision `p` and width `w`:
/// where its bits sit, how they split across the two words, and that both
/// words are inside the vector.
pub proof fn lemma_reg_geometry(idx: int, p: nat, w: nat)
    requires
        valid_params(p, w),
        0 <= idx < spec_m(p),
    ensures
        0 <= spec_bit(idx, w) <= spec_m(p) * (w as int) - (w as int),
        spec_bit(idx, w) == 32 * spec_word(idx, w) + spec_pos(idx, w),
        0 <= spec_pos(idx, w) < 32,
        1 <= spec_lo(idx, w) <= w as int,
        0 <= spec_hi(idx, w) < w as int,
        spec_lo(idx, w) + spec_hi(idx, w) == w as int,
        0 <= spec_word(idx, w),
        spec_word(idx, w) + 1 < spec_slice_len(p, w),
{
    lemma_mul_inequality(idx + 1, spec_m(p), w as int);
    assert((idx + 1) * (w as int) == idx * (w as int) + w) by (nonlinear_arith);
    assert(idx * (w as int) >= 0) by (nonlinear_arith)
        requires
            idx >= 0 && w >= 4,
    ;
    lemma_fundamental_div_mod(spec_bit(idx, w), 32);
    lemma_div_is_ordered(spec_bit(idx, w), spec_m(p) * (w as int) - (w as int), 32);
    assert((spec_m(p) * (w as int) - (w as int)) / 32 <= spec_m(p) * (w as int) / 32) by {
        lemma_div_is_ordered(spec_m(p) * (w as int) - (w as int), spec_m(p) * (w as int), 32);
    }
}

/// The total register bit count `m * w` fits comfortably in a machine word,
/// and the slice length is positive.
pub proof fn lemma_m_times_w_bounds(p: nat, w: nat)
    requires
        valid_params(p, w),
    ensures
        0 < spec_m(p) <= 0x40000,
        4 <= spec_m(p) * (w as int) <= 0x180000,
        3 <= spec_slice_len(p, w) <= 0x180000int / 32 + 3,
{
    vstd::arithmetic::power2::lemma2_to64();
    vstd::arithmetic::power2::lemma2_to64_rest();
    assert(pow2(p) <= pow2(18)) by {
        if p < 18 {
            lemma_pow2_strictly_increases(p, 18);
        }
    }
    assert(spec_m(p) * (w as int) <= 0x40000 * 6) by (nonlinear_arith)
        requires
            0 < spec_m(p) <= 0x40000 && 4 <= w <= 6,
    ;
    assert(spec_m(p) * (w as int) >= 1 * 4) by (nonlinear_arith)
        requires
            1 <= spec_m(p) && 4 <= w,
    ;
    lemma_div_is_ordered(4, spec_m(p) * (w as int), 32);
    lemma_div_is_ordered(spec_m(p) * (w as int), 0x180000, 32);
}

/// `2^p` fits in a `u32` for every valid precision.
pub proof fn lemma_pow2_fits_u32(p: nat)
    requires
        p <= 18,
    ensures
        pow2(p) < 0x100000000,
{
    vstd::arithmetic::power2::lemma2_to64();
    vstd::arithmetic::power2::lemma2_to64_rest();
    assert(pow2(p) <= pow2(18)) by {
        if p < 18 {
            lemma_pow2_strictly_increases(p, 18);
        }
    }
}

/// Extracting any register from all-zero words yields zero.
proof fn lemma_zero_words_zero_reg(words: Seq<u32>, idx: int, w: nat)
    requires
        0 <= spec_word(idx, w),
        spec_word(idx, w) + 1 < words.len(),
        forall|k: int| 0 <= k < words.len() ==> words[k] == 0u32,
        0 <= spec_pos(idx, w) < 32,
        1 <= spec_lo(idx, w),
        spec_lo(idx, w) + spec_hi(idx, w) == w as int,
        w <= 6,
    ensures
        spec_reg(words, idx, w) == 0u32,
{
    let bp = spec_pos(idx, w) as u32;
    let b1 = spec_lo(idx, w) as u32;
    let b2 = spec_hi(idx, w) as u32;
    assert((((0u32 >> bp) & (((1u32 << b1) - 1) as u32)) | ((0u32 & (((1u32 << b2) - 1) as u32))
        << b1)) == 0u32) by (bit_vector);
}

/// A value assembled from `b1 + b2 == w` bits is below `2^w`.
proof fn lemma_reg_value_bound(w0: u32, w1: u32, bp: u32, b1: u32, b2: u32, w: u32)
    by (bit_vector)
    requires
        4 <= w <= 6,
        1 <= b1 <= w,
        b2 == w - b1,
        bp < 32,
    ensures
        (((w0 >> bp) & (((1u32 << b1) - 1) as u32)) | ((w1 & (((1u32 << b2) - 1) as u32)) << b1))
            < (1u32 << w),
{
}

/// A sequence of zero registers has as many zeros as entries.
proof fn lemma_count_zeros_all_zero(regs: Seq<u32>)
    requires
        forall|i: int| 0 <= i < regs.len() ==> regs[i] == 0u32,
    ensures
        count_zeros(regs) == regs.len(),
    decreases regs.len(),
{
    if regs.len() > 0 {
        lemma_count_zeros_all_zero(regs.drop_last());
    }
}


/// The first word of register `i`'s field after writing value `v`: the
/// field's low bits replaced, all other bits kept.
pub open spec fn spec_write0(x: u32, v: u32, i: int, w: nat) -> u32 {
    let bp = spec_pos(i, w) as u32;
    let b1 = spec_lo(i, w) as u32;
    let m1 = (((1u32 << b1) - 1) as u32);
    (x & !(m1 << bp)) | ((v & m1) << bp)
}

/// The second word of register `i`'s field after writing value `v`: the
/// field's spill bits replaced at the bottom, all other bits kept.
pub open spec fn spec_write1(x: u32, v: u32, i: int, w: nat) -> u32 {
    let b1 = spec_lo(i, w) as u32;
    let b2 = spec_hi(i, w) as u32;
    let m2 = (((1u32 << b2) - 1) as u32);
    (x & !m2) | ((v >> b1) & m2)
}

/// A field write inside one word does not disturb a disjoint bit range of
/// the same word.
proof fn lemma_write_keeps_disjoint_range(
    w0: u32,
    nw0: u32,
    v: u32,
    bpi: u32,
    b1i: u32,
    bpj: u32,
    b1j: u32,
)
    by (bit_vector)
    requires
        bpi < 32,
        bpj < 32,
        1 <= b1i <= 6,
        1 <= b1j <= 6,
        bpj + b1j <= bpi || bpi + b1i <= bpj,
        nw0 == (w0 & !((((1u32 << b1i) - 1) as u32) << bpi)) | ((v & (((1u32 << b1i) - 1) as u32))
            << bpi),
    ensures
        (nw0 >> bpj) & (((1u32 << b1j) - 1) as u32) == (w0 >> bpj) & (((1u32 << b1j) - 1) as u32),
{
}

/// A spill write at the bottom of a word does not disturb a bit range that
/// starts above the spilled bits.
proof fn lemma_tail_write_keeps_above(
    w1: u32,
    nw1: u32,
    v: u32,
    b1i: u32,
    b2i: u32,
    bpj: u32,
    b1j: u32,
)
    by (bit_vector)
    requires
        b2i <= bpj,
        b2i <= 6,
        b1i < 32,
        bpj < 32,
        1 <= b1j <= 6,
        nw1 == (w1 & !(((1u32 << b2i) - 1) as u32)) | ((v >> b1i) & (((1u32 << b2i) - 1) as u32)),
    ensures
        (nw1 >> bpj) & (((1u32 << b1j) - 1) as u32) == (w1 >> bpj) & (((1u32 << b1j) - 1) as u32),
{
}

/// A field write at or above position `bpi` does not disturb the bottom
/// `b2j <= bpi` bits of the word.
proof fn lemma_head_write_keeps_low(w0: u32, nw0: u32, v: u32, bpi: u32, b1i: u32, b2j: u32)
    by (bit_vector)
    requires
        b2j <= bpi,
        bpi < 32,
        1 <= b1i <= 6,
        b2j <= 6,
        nw0 == (w0 & !((((1u32 << b1i) - 1) as u32) << bpi)) | ((v & (((1u32 << b1i) - 1) as u32))
            << bpi),
    ensures
        nw0 & (((1u32 << b2j) - 1) as u32) == w0 & (((1u32 << b2j) - 1) as u32),
{
}

/// A spill write of zero bits leaves the word unchanged.
proof fn lemma_tail_write_empty(w1: u32, nw1: u32, v: u32, b1i: u32)
    by (bit_vector)
    requires
        b1i < 32,
        nw1 == (w1 & !(((1u32 << 0u32) - 1) as u32)) | ((v >> b1i) & (((1u32 << 0u32) - 1)
            as u32)),
    ensures
        nw1 == w1,
{
}

/// The zero-width mask masks everything away.
proof fn lemma_empty_mask(x: u32, y: u32, b1: u32)
    by (bit_vector)
    requires
        b1 < 32,
    ensures
        ((x & (((1u32 << 0u32) - 1) as u32)) << b1) == ((y & (((1u32 << 0u32) - 1) as u32)) << b1),
{
}

/// Reading the field back after the two-word write yields the written value.
proof fn lemma_write_read_back(
    w0: u32,
    w1: u32,
    nw0: u32,
    nw1: u32,
    v: u32,
    bp: u32,
    b1: u32,
    b2: u32,
    w: u32,
)
    by (bit_vector)
    requires
        4 <= w <= 6,
        bp < 32,
        b1 == (if 32 - bp < w {
            (32 - bp) as u32
        } else {
            w
        }),
        b2 == w - b1,
        v < (1u32 << w),
        nw0 == (w0 & !((((1u32 << b1) - 1) as u32) << bp)) | ((v & (((1u32 << b1) - 1) as u32))
            << bp),
        nw1 == (w1 & !(((1u32 << b2) - 1) as u32)) | ((v >> b1) & (((1u32 << b2) - 1) as u32)),
    ensures
        ((nw0 >> bp) & (((1u32 << b1) - 1) as u32)) | ((nw1 & (((1u32 << b2) - 1) as u32)) << b1)
            == v,
{
}

/// Bit-interval ordering between two distinct registers: the field of the
/// earlier one ends before the field of the later one starts.
proof fn lemma_fields_disjoint(lo: int, hi: int, w: nat)
    requires
        4 <= w <= 6,
        0 <= lo < hi,
    ensures
        spec_bit(lo, w) + w <= spec_bit(hi, w),
        spec_word(lo, w) <= spec_word(hi, w),
{
    assert((hi - lo) * (w as int) >= 1 * (w as int)) by {
        lemma_mul_inequality(1, hi - lo, w as int);
    }
    assert(hi * (w as int) - lo * (w as int) == (hi - lo) * (w as int)) by (nonlinear_arith);
    lemma_div_is_ordered(spec_bit(lo, w), spec_bit(hi, w), 32);
}

/// Writing register `i` leaves every other register unchanged.
proof fn lemma_set_keeps_others(old_words: Seq<u32>, new_words: Seq<u32>, i: int, j: int, v: u32, p: nat, w: nat)
    requires
        valid_params(p, w),
        0 <= i < spec_m(p),
        0 <= j < spec_m(p),
        j != i,
        old_words.len() == spec_slice_len(p, w),
        new_words =~= old_words.update(spec_word(i, w), spec_write0(old_words[spec_word(i, w)], v, i, w)).update(
            spec_word(i, w) + 1,
            spec_write1(old_words[spec_word(i, w) + 1], v, i, w),
        ),
    ensures
        spec_reg(new_words, j, w) == spec_reg(old_words, j, w),
{
    lemma_reg_geometry(i, p, w);
    lemma_reg_geometry(j, p, w);
    let wi = spec_word(i, w);
    let wj = spec_word(j, w);
    let bpi = spec_pos(i, w) as u32;
    let b1i = spec_lo(i, w) as u32;
    let b2i = spec_hi(i, w) as u32;
    let bpj = spec_pos(j, w) as u32;
    let b1j = spec_lo(j, w) as u32;
    let b2j = spec_hi(j, w) as u32;
    let x0 = old_words[wj];
    let x1 = old_words[wj + 1];
    let y0 = new_words[wj];
    let y1 = new_words[wj + 1];
    let nw0 = spec_write0(old_words[wi], v, i, w);
    let nw1 = spec_write1(old_words[wi + 1], v, i, w);
    if j < i {
        lemma_fields_disjoint(j, i, w);
    } else {
        lemma_fields_disjoint(i, j, w);
    }
    assert(j < i ==> spec_bit(j, w) + w <= spec_bit(i, w));
    assert(i < j ==> spec_bit(i, w) + w <= spec_bit(j, w));
    // relate word and in-word positions through the bit offsets
    lemma_fundamental_div_mod(spec_bit(i, w), 32);
    lemma_fundamental_div_mod(spec_bit(j, w), 32);
    if wj == wi {
        // both fields start in the same word; their in-word head ranges are
        // disjoint, and at most one field can spill into the next word
        assert(y0 == nw0);
        assert(bpj + b1j <= bpi || bpi + b1i <= bpj);
        lemma_write_keeps_disjoint_range(x0, y0, v, bpi, b1i, bpj, b1j);
        if b2j == 0 {
            lemma_empty_mask(x1, y1, b1j);
        } else {
            // j spills, so i cannot: i's head range sits below j's in the word
            assert(b2i == 0);
            assert(y1 == nw1);
            lemma_tail_write_empty(old_words[wi + 1], nw1, v, b1i);
        }
        assert(spec_reg(new_words, j, w) == spec_reg(old_words, j, w));
    } else if wj == wi + 1 {
        // the write may spill into j's first word, below j's head range
        assert(y0 == nw1);
        assert(y1 == x1);
        if b2i == 0 {
            lemma_tail_write_empty(old_words[wi + 1], nw1, v, b1i);
        } else {
            assert(j > i);
            assert(b2i <= bpj);
            lemma_tail_write_keeps_above(x0, y0, v, b1i, b2i, bpj, b1j);
        }
        assert(spec_reg(new_words, j, w) == spec_reg(old_words, j, w));
    } else if wj + 1 == wi {
        // j may spill into the written word, below the written head range
        assert(y0 == x0);
        assert(y1 == nw0);
        if b2j == 0 {
            lemma_empty_mask(x1, y1, b1j);
        } else {
            assert(j < i);
            assert(b2j <= bpi);
            lemma_head_write_keeps_low(x1, y1, v, bpi, b1i, b2j);
        }
        assert(spec_reg(new_words, j, w) == spec_reg(old_words, j, w));
    } else {
        // no word is shared
        assert(y0 == x0);
        assert(y1 == x1);
    }
}



/// Masking with the low `s` bits keeps a value below `2^s`.
pub proof fn lemma_and_mask_lt(x: u32, s: u32)
    by (bit_vector)
    requires
        s < 32,
    ensures
        (x & (((1u32 << s) - 1) as u32)) < (1u32 << s),
        (1u32 << s) >= 1,
{
}

/// A spill write stays below the padding boundary when the spilled bits do.
proof fn lemma_tail_write_bounded(w1: u32, nw1: u32, v: u32, b1i: u32, b2i: u32, part: u32)
    by (bit_vector)
    requires
        1 <= b2i <= part,
        part < 32,
        b1i < 32,
        w1 < (1u32 << part),
        nw1 == (w1 & !(((1u32 << b2i) - 1) as u32)) | ((v >> b1i) & (((1u32 << b2i) - 1) as u32)),
    ensures
        nw1 < (1u32 << part),
{
}

/// A head write stays below the padding boundary when the written field does.
proof fn lemma_head_write_bounded(w0: u32, nw0: u32, v: u32, bpi: u32, b1i: u32, part: u32)
    by (bit_vector)
    requires
        bpi + b1i <= part,
        part < 32,
        1 <= b1i <= 6,
        w0 < (1u32 << part),
        nw0 == (w0 & !((((1u32 << b1i) - 1) as u32) << bpi)) | ((v & (((1u32 << b1i) - 1) as u32))
            << bpi),
    ensures
        nw0 < (1u32 << part),
{
}

/// Any extracted register value is below `2^w`.
pub proof fn lemma_reg_bound(words: Seq<u32>, idx: int, p: nat, w: nat)
    requires
        valid_params(p, w),
        0 <= idx < spec_m(p),
    ensures
        (spec_reg(words, idx, w) as int) < pow2(w),
{
    lemma_reg_geometry(idx, p, w);
    let bp = spec_pos(idx, w) as u32;
    let b1 = spec_lo(idx, w) as u32;
    let b2 = spec_hi(idx, w) as u32;
    lemma_reg_value_bound(words[spec_word(idx, w)], words[spec_word(idx, w) + 1], bp, b1, b2, w as u32);
    vstd::arithmetic::power2::lemma2_to64();
    assert(1 * pow2(w) == pow2(w));
    vstd::bits::lemma_u32_shl_is_mul(1, w as u32);
}

/// Writing register `i` keeps every bit beyond the register area zero.
proof fn lemma_set_keeps_pads(old_words: Seq<u32>, new_words: Seq<u32>, i: int, v: u32, p: nat, w: nat)
    requires
        valid_params(p, w),
        0 <= i < spec_m(p),
        old_words.len() == spec_slice_len(p, w),
        spec_pads_zero(old_words, p, w),
        new_words =~= old_words.update(
            spec_word(i, w),
            spec_write0(old_words[spec_word(i, w)], v, i, w),
        ).update(spec_word(i, w) + 1, spec_write1(old_words[spec_word(i, w) + 1], v, i, w)),
    ensures
        spec_pads_zero(new_words, p, w),
{
    lemma_reg_geometry(i, p, w);
    lemma_m_times_w_bounds(p, w);
    let mw = spec_m(p) * (w as int);
    let q = mw / 32;
    let part = mw % 32;
    let wi = spec_word(i, w);
    let bpi = spec_pos(i, w) as u32;
    let b1i = spec_lo(i, w) as u32;
    let b2i = spec_hi(i, w) as u32;
    let nw0 = spec_write0(old_words[wi], v, i, w);
    let nw1 = spec_write1(old_words[wi + 1], v, i, w);
    lemma_fundamental_div_mod(mw, 32);
    lemma_fundamental_div_mod(spec_bit(i, w), 32);
    assert(spec_bit(i, w) + (w as int) <= mw);
    lemma_div_is_ordered(spec_bit(i, w), mw - 1, 32);
    // the written words never lie beyond the padding boundary word
    assert(wi <= q) by {
        lemma_div_is_ordered(spec_bit(i, w), mw, 32);
    }
    vstd::arithmetic::power2::lemma_pow2_pos(part as nat);
    if wi + 1 < q {
        assert(new_words[q] == old_words[q]);
    } else if wi + 1 == q {
        if b2i == 0 {
            lemma_tail_write_empty(old_words[wi + 1], nw1, v, b1i);
            assert(new_words[q] == old_words[q]);
        } else {
            // the field spills b2i bits into the boundary word, all below part
            assert(32 * wi + bpi + (w as int) == 32 * (wi + 1) + b2i);
            assert(b2i <= part);
            assert(1 <= part < 32);
            assert((old_words[q] as int) < pow2(part as nat));
            assert(1 * pow2(part as nat) == pow2(part as nat));
            vstd::bits::lemma_u32_pow2_no_overflow(part as nat);
            vstd::bits::lemma_u32_shl_is_mul(1, part as u32);
            lemma_tail_write_bounded(old_words[q], nw1, v, b1i, b2i, part as u32);
            assert((new_words[q] as int) < pow2(part as nat));
        }
    } else {
        // the field starts in the boundary word, so it ends there too
        assert(wi == q);
        assert(bpi + (w as int) <= part);
        assert(b1i == w as int);
        assert(b2i == 0);
        lemma_tail_write_empty(old_words[wi + 1], nw1, v, b1i);
        assert(1 * pow2(part as nat) == pow2(part as nat));
        vstd::bits::lemma_u32_pow2_no_overflow(part as nat);
        vstd::bits::lemma_u32_shl_is_mul(1, part as u32);
        lemma_head_write_bounded(old_words[q], nw0, v, bpi, b1i, part as u32);
        assert((new_words[q] as int) < pow2(part as nat));
    }
}

/// Updating one entry to a non-zero value lowers the zero count exactly
/// when the old entry was zero.
proof fn lemma_count_zeros_update(regs: Seq<u32>, i: int, v: u32)
    requires
        0 <= i < regs.len(),
        v != 0u32,
    ensures
        count_zeros(regs.update(i, v)) == count_zeros(regs) - (if regs[i] == 0u32 {
            1int
        } else {
            0int
        }),
    decreases regs.len(),
{
    let n = regs.len() as int;
    if i == n - 1 {
        assert(regs.update(i, v).drop_last() =~= regs.drop_last());
    } else {
        lemma_count_zeros_update(regs.drop_last(), i, v);
        assert(regs.update(i, v).drop_last() =~= regs.drop_last().update(i, v));
        assert(regs.update(i, v).last() == regs.last());
    }
}

/// A zero entry witnesses a positive zero count.
proof fn lemma_count_zeros_pos(regs: Seq<u32>, i: int)
    requires
        0 <= i < regs.len(),
        regs[i] == 0u32,
    ensures
        count_zeros(regs) >= 1,
    decreases regs.len(),
{
    lemma_count_zeros_bounds(regs.drop_last());
    if i < regs.len() - 1 {
        lemma_count_zeros_pos(regs.drop_last(), i);
    }
}

/// The zero count lies between zero and the register count.
pub proof fn lemma_count_zeros_bounds(regs: Seq<u32>)
    ensures
        0 <= count_zeros(regs) <= regs.len(),
    decreases regs.len(),
{
    if regs.len() > 0 {
        lemma_count_zeros_bounds(regs.drop_last());
    }
}


} // verus!
