//! The binary wire form of a sketch.
//!
//! The layout is self-describing and little-endian: one variant tag byte
//! (`s`, `a` or `h` in ASCII), then the payload.  The small tier carries
//! its packed word as eight bytes; the array and register-file tiers carry
//! a 32-bit count followed by that many 32-bit values.  The register-file
//! payload starts with the zero-register count and the harmonic sum as a
//! 32-bit float bit pattern, then the packed register words; on reading,
//! both bookkeeping values are checked against the registers.

use vstd::prelude::*;

verus! {

use vstd::arithmetic::power2::pow2;
use vstd::bytes::spec_u32_to_le_bytes;
use vstd::bytes::spec_u32_from_le_bytes;
use vstd::bytes::spec_u64_to_le_bytes;
use vstd::bytes::spec_u64_from_le_bytes;
use vstd::bytes::u32_to_le_bytes;
use vstd::bytes::u32_from_le_bytes;
use vstd::bytes::u64_to_le_bytes;
use vstd::bytes::u64_from_le_bytes;
use vstd::slice::slice_subrange;
use crate::element::valid_params;
use crate::representation::Representation;
use crate::representation::RepView;
use crate::hyperloglog::HyperLogLog;
use crate::hyperloglog::spec_slice_len;
use crate::hyperloglog::spec_reg;
use crate::hyperloglog::count_zeros;
use crate::hyperloglog::spec_hsum;
use crate::representation::lemma_hsum_bounds;
use crate::float_bits::spec_f32_of_sum;
use crate::float_bits::spec_within_half;
use crate::float_bits::f32_bits_of_sum;
use crate::float_bits::f32_within_half;
use crate::array::Array;
use crate::sketch::Sketch;

/// Why a serialized sketch was rejected.
#[derive(Debug, PartialEq, Eq, Structural, Clone, Copy)]
pub enum DeserializeError {
    /// The variant tag names no known representation.
    InvalidVariantTag,
    /// A payload length lies outside what its tier allows.
    InvalidLength,
    /// A payload value contradicts the register contents.
    InvalidValue,
}

/// A sequence of 32-bit values as little-endian bytes.
pub open spec fn spec_le_words(words: Seq<u32>) -> Seq<u8>
    decreases words.len(),
{
    if words.len() == 0 {
        Seq::<u8>::empty()
    } else {
        spec_le_words(words.drop_last()) + spec_u32_to_le_bytes(words.last())
    }
}

/// The words read back from a byte sequence: `count` values of four bytes
/// each, starting at `off`.
pub open spec fn spec_words_at(bytes: Seq<u8>, count: int, off: int) -> Seq<u32> {
    Seq::new(count as nat, |i: int| spec_u32_from_le_bytes(bytes.subrange(off + 4 * i, off + 4 * i + 4)))
}

/// The serialized bytes of a representation.
pub open spec fn spec_bin_of<const P: usize, const W: usize>(rep: Representation<P, W>) -> Seq<
    u8,
> {
    match rep {
        Representation::Small(s) => seq![115u8] + spec_u64_to_le_bytes(s@),
        Representation::Array(a) => seq![97u8] + spec_u32_to_le_bytes(a@.len() as u32)
            + spec_le_words(a@),
        Representation::Hll(h) => seq![104u8] + spec_u32_to_le_bytes(
            (spec_slice_len(P as nat, W as nat) + 2) as u32,
        ) + spec_u32_to_le_bytes(h.zeros) + spec_u32_to_le_bytes(
            spec_f32_of_sum(spec_hsum(h@)),
        ) + spec_le_words(h.registers@),
    }
}

/// The outcome of reading the serialized bytes back: the decoded logical
/// state, or the error the validation rules give.
pub open spec fn spec_bin_parse(bytes: Seq<u8>, p: nat, w: nat) -> Result<
    RepView,
    DeserializeError,
> {
    if bytes.len() < 1 {
        Err(DeserializeError::InvalidLength)
    } else if bytes[0] == 115u8 {
        if bytes.len() != 9 {
            Err(DeserializeError::InvalidLength)
        } else {
            Ok(RepView::Small { data: spec_u64_from_le_bytes(bytes.subrange(1, 9)) })
        }
    } else if bytes[0] == 97u8 {
        if bytes.len() < 5 {
            Err(DeserializeError::InvalidLength)
        } else {
            let l = spec_u32_from_le_bytes(bytes.subrange(1, 5)) as int;
            if l < 3 || l > 128 {
                Err(DeserializeError::InvalidLength)
            } else if bytes.len() != 5 + 4 * l {
                Err(DeserializeError::InvalidLength)
            } else {
                Ok(RepView::Array { items: spec_words_at(bytes, l, 5) })
            }
        }
    } else if bytes[0] == 104u8 {
        if bytes.len() < 5 {
            Err(DeserializeError::InvalidLength)
        } else {
            let l = spec_u32_from_le_bytes(bytes.subrange(1, 5)) as int;
            if l != spec_slice_len(p, w) + 2 {
                Err(DeserializeError::InvalidLength)
            } else if bytes.len() != 5 + 4 * l {
                Err(DeserializeError::InvalidLength)
            } else {
                let zeros = spec_u32_from_le_bytes(bytes.subrange(5, 9));
                let sum_bits = spec_u32_from_le_bytes(bytes.subrange(9, 13));
                let words = spec_words_at(bytes, spec_slice_len(p, w), 13);
                let regs = Seq::new(pow2(p), |i: int| spec_reg(words, i, w));
                if zeros as int != count_zeros(regs) {
                    Err(DeserializeError::InvalidValue)
                } else if !spec_within_half(sum_bits, spec_hsum(regs)) {
                    Err(DeserializeError::InvalidValue)
                } else {
                    Ok(RepView::Hll { regs })
                }
            }
        }
    } else {
        Err(DeserializeError::InvalidVariantTag)
    }
}

/// Append one 32-bit value as four little-endian bytes.
fn push_u32_le(out: &mut Vec<u8>, x: u32)
    ensures
        final(out)@ == old(out)@ + spec_u32_to_le_bytes(x),
{
    let mut b = u32_to_le_bytes(x);
    out.append(&mut b);
}

/// Append a vector of 32-bit values as little-endian bytes.
fn push_words_le(out: &mut Vec<u8>, words: &Vec<u32>)
    ensures
        final(out)@ == old(out)@ + spec_le_words(words@),
{
    let n = words.len();
    let mut i: usize = 0;
    proof {
        assert(old(out)@ + spec_le_words(words@.take(0)) =~= old(out)@);
    }
    while i < n
        invariant
            n == words@.len(),
            i <= n,
            out@ == old(out)@ + spec_le_words(words@.take(i as int)),
        decreases n - i,
    {
        push_u32_le(out, words[i]);
        i += 1;
        proof {
            assert(words@.take(i as int).drop_last() =~= words@.take(i as int - 1));
            assert(words@.take(i as int).last() == words@[i as int - 1]);
        }
    }
    proof {
        assert(words@.take(n as int) =~= words@);
    }
}

/// Every aligned four-byte window of a word sequence's bytes reads back as
/// the corresponding word.
proof fn lemma_le_words_extract(words: Seq<u32>, i: int)
    requires
        0 <= i < words.len(),
    ensures
        spec_le_words(words).len() == 4 * words.len(),
        spec_le_words(words).subrange(4 * i, 4 * i + 4) == spec_u32_to_le_bytes(words[i]),
    decreases words.len(),
{
    vstd::bytes::lemma_auto_spec_u32_to_from_le_bytes();
    lemma_le_words_len(words);
    if i == words.len() - 1 {
        lemma_le_words_len(words.drop_last());
        assert(spec_le_words(words).subrange(4 * i, 4 * i + 4) =~= spec_u32_to_le_bytes(
            words.last(),
        ));
    } else {
        lemma_le_words_extract(words.drop_last(), i);
        lemma_le_words_len(words.drop_last());
        assert(spec_le_words(words).subrange(4 * i, 4 * i + 4) =~= spec_le_words(
            words.drop_last(),
        ).subrange(4 * i, 4 * i + 4));
    }
}

/// A word sequence serializes to four bytes per word.
proof fn lemma_le_words_len(words: Seq<u32>)
    ensures
        spec_le_words(words).len() == 4 * words.len(),
    decreases words.len(),
{
    vstd::bytes::lemma_auto_spec_u32_to_from_le_bytes();
    if words.len() > 0 {
        lemma_le_words_len(words.drop_last());
    }
}

/// Read `count` 32-bit values from `bytes` starting at `off`.
fn read_words(bytes: &[u8], off: usize, count: usize) -> (words: Vec<u32>)
    requires
        off + 4 * count <= bytes@.len(),
    ensures
        words@ =~= spec_words_at(bytes@, count as int, off as int),
{
    let total: usize = bytes.len();
    let mut words: Vec<u32> = Vec::new();
    let mut i: usize = 0;
    while i < count
        invariant
            off + 4 * count <= bytes@.len(),
            total == bytes@.len(),
            i <= count,
            words@.len() == i,
            forall|j: int|
                0 <= j < i ==> words@[j] == spec_u32_from_le_bytes(
                    bytes@.subrange(off + 4 * j, off + 4 * j + 4),
                ),
        decreases count - i,
    {
        proof {
            assert(4 * (i as int) + 4 <= 4 * (count as int));
            assert(off + 4 * (i as int) + 4 <= bytes@.len());
        }
        let chunk = slice_subrange(bytes, off + 4 * i, off + 4 * i + 4);
        let x = u32_from_le_bytes(chunk);
        words.push(x);
        i += 1;
    }
    words
}

impl<const P: usize, const W: usize> Sketch<P, W> {
    /// Serialize this sketch into its binary wire form.
    pub fn to_bytes(&self) -> (out: Vec<u8>)
        requires
            self.wf(),
            valid_params(P as nat, W as nat),
        ensures
            out@ == spec_bin_of(self.rep),
    {
        let mut out: Vec<u8> = Vec::new();
        match &self.rep {
            Representation::Small(s) => {
                out.push(115);
                let mut b = u64_to_le_bytes(s.0);
                out.append(&mut b);
                proof {
                    assert(out@ =~= spec_bin_of(self.rep));
                }
            },
            Representation::Array(a) => {
                out.push(97);
                let used = a.len();
                push_u32_le(&mut out, used as u32);
                let mut items: Vec<u32> = Vec::new();
                let mut i: usize = 0;
                while i < used
                    invariant
                        a.wf(),
                        used == a@.len(),
                        i <= used,
                        items@ =~= a@.take(i as int),
                    decreases used - i,
                {
                    items.push(a.get(i));
                    i += 1;
                    proof {
                        assert(items@ =~= a@.take(i as int));
                    }
                }
                proof {
                    assert(a@.take(used as int) =~= a@);
                }
                push_words_le(&mut out, &items);
                proof {
                    assert(out@ =~= spec_bin_of(self.rep));
                }
            },
            Representation::Hll(h) => {
                out.push(104);
                proof {
                    crate::hyperloglog::lemma_m_times_w_bounds(P as nat, W as nat);
                }
                let len = HyperLogLog::<P, W>::slice_len();
                push_u32_le(&mut out, (len + 2) as u32);
                push_u32_le(&mut out, h.zeros);
                let sum = h.harmonic_sum_fixed();
                proof {
                    lemma_hsum_bounds(h@);
                    lemma_hsum_lower(h@);
                    crate::hyperloglog::lemma_m_times_w_bounds(P as nat, W as nat);
                    assert(h@.len() as int * 0x8000000000000000 <= 0x40000int * 0x8000000000000000)
                        by (nonlinear_arith)
                        requires
                            h@.len() as int <= 0x40000,
                    ;
                }
                let sum_bits = f32_bits_of_sum(sum);
                push_u32_le(&mut out, sum_bits);
                push_words_le(&mut out, &h.registers);
                proof {
                    assert(out@ =~= spec_bin_of(self.rep));
                }
            },
        }
        out
    }

    /// Read a sketch back from its binary wire form.  The returned sketch
    /// is exactly the decoded state; rejected input reports which
    /// validation rule failed.
    pub fn from_bytes(bytes: &[u8]) -> (r: Result<Sketch<P, W>, DeserializeError>)
        requires
            valid_params(P as nat, W as nat),
        ensures
            match r {
                Ok(s) => s.wf() && spec_bin_parse(bytes@, P as nat, W as nat) == Ok::<
                    RepView,
                    DeserializeError,
                >(s@),
                Err(e) => spec_bin_parse(bytes@, P as nat, W as nat) == Err::<
                    RepView,
                    DeserializeError,
                >(e),
            },
    {
        if bytes.len() < 1 {
            return Err(DeserializeError::InvalidLength);
        }
        let tag = *vstd::slice::slice_index_get(bytes, 0);
        if tag == 115 {
            if bytes.len() != 9 {
                return Err(DeserializeError::InvalidLength);
            }
            let word = u64_from_le_bytes(slice_subrange(bytes, 1, 9));
            return Ok(
                Sketch {
                    rep: Representation::Small(crate::small::Small(word)),
                },
            );
        }
        if tag == 97 {
            if bytes.len() < 5 {
                return Err(DeserializeError::InvalidLength);
            }
            let l = u32_from_le_bytes(slice_subrange(bytes, 1, 5));
            if l < 3 || l > 128 {
                return Err(DeserializeError::InvalidLength);
            }
            let lu = l as usize;
            if bytes.len() != 5 + 4 * lu {
                return Err(DeserializeError::InvalidLength);
            }
            let items = read_words(bytes, 5, lu);
            let arr = Array::<P, W>::from_items(items);
            return Ok(Sketch { rep: Representation::Array(arr) });
        }
        if tag == 104 {
            if bytes.len() < 5 {
                return Err(DeserializeError::InvalidLength);
            }
            let l = u32_from_le_bytes(slice_subrange(bytes, 1, 5));
            proof {
                crate::hyperloglog::lemma_m_times_w_bounds(P as nat, W as nat);
            }
            let need = HyperLogLog::<P, W>::slice_len() + 2;
            if (l as usize) != need {
                return Err(DeserializeError::InvalidLength);
            }
            if bytes.len() != 5 + 4 * (l as usize) {
                return Err(DeserializeError::InvalidLength);
            }
            let zeros = u32_from_le_bytes(slice_subrange(bytes, 5, 9));
            let sum_bits = u32_from_le_bytes(slice_subrange(bytes, 9, 13));
            let words = read_words(bytes, 13, need - 2);
            let hll = HyperLogLog::<P, W>::from_registers(words);
            if zeros != hll.zeros {
                return Err(DeserializeError::InvalidValue);
            }
            proof {
                lemma_hsum_bounds(hll@);
                crate::hyperloglog::lemma_m_times_w_bounds(P as nat, W as nat);
                assert(hll@.len() as int * 0x8000000000000000 <= 0x40000int * 0x8000000000000000)
                    by (nonlinear_arith)
                    requires
                        hll@.len() as int <= 0x40000,
                ;
            }
            let sum = hll.harmonic_sum_fixed();
            if !f32_within_half(sum_bits, sum) {
                return Err(DeserializeError::InvalidValue);
            }
            return Ok(Sketch { rep: Representation::Hll(hll) });
        }
        Err(DeserializeError::InvalidVariantTag)
    }
}

/// Every register contributes at least one unit to the harmonic sum.
pub proof fn lemma_hsum_lower(regs: Seq<u32>)
    ensures
        spec_hsum(regs) >= regs.len(),
    decreases regs.len(),
{
    if regs.len() > 0 {
        lemma_hsum_lower(regs.drop_last());
        if regs.last() < 64u32 {
            vstd::arithmetic::power2::lemma_pow2_pos((63 - regs.last()) as nat);
        }
    }
}

/// LAW (round trip, binary form).  Reading a sketch's serialized bytes
/// back yields exactly the sketch's logical state, so the estimate
/// survives the round trip unchanged.
pub proof fn lemma_bin_round_trip<const P: usize, const W: usize>(rep: Representation<P, W>)
    requires
        rep.wf(),
        valid_params(P as nat, W as nat),
    ensures
        spec_bin_parse(spec_bin_of(rep), P as nat, W as nat) == Ok::<RepView, DeserializeError>(
            rep@,
        ),
{
    vstd::bytes::lemma_auto_spec_u32_to_from_le_bytes();
    vstd::bytes::lemma_auto_spec_u64_to_from_le_bytes();
    let bytes = spec_bin_of(rep);
    match rep {
        Representation::Small(s) => {
            assert(bytes.len() == 9);
            assert(bytes[0] == 115u8);
            assert(bytes.subrange(1, 9) =~= spec_u64_to_le_bytes(s@));
        },
        Representation::Array(a) => {
            lemma_le_words_len(a@);
            assert(bytes.len() == 5 + 4 * a@.len());
            assert(bytes[0] == 97u8);
            assert(bytes.subrange(1, 5) =~= spec_u32_to_le_bytes(a@.len() as u32));
            let l = a@.len() as int;
            assert forall|i: int| 0 <= i < l implies spec_words_at(bytes, l, 5)[i] == a@[i] by {
                lemma_le_words_extract(a@, i);
                assert(bytes.subrange(5 + 4 * i, 5 + 4 * i + 4) =~= spec_le_words(a@).subrange(
                    4 * i,
                    4 * i + 4,
                ));
            }
            assert(spec_words_at(bytes, l, 5) =~= a@);
        },
        Representation::Hll(h) => {
            let sl = spec_slice_len(P as nat, W as nat);
            crate::hyperloglog::lemma_m_times_w_bounds(P as nat, W as nat);
            lemma_le_words_len(h.registers@);
            assert(bytes.len() == 13 + 4 * sl);
            assert(bytes[0] == 104u8);
            assert(bytes.subrange(1, 5) =~= spec_u32_to_le_bytes((sl + 2) as u32));
            assert(bytes.subrange(5, 9) =~= spec_u32_to_le_bytes(h.zeros));
            assert(bytes.subrange(9, 13) =~= spec_u32_to_le_bytes(
                spec_f32_of_sum(spec_hsum(h@)),
            ));
            assert forall|i: int| 0 <= i < sl implies spec_words_at(bytes, sl, 13)[i]
                == h.registers@[i] by {
                lemma_le_words_extract(h.registers@, i);
                assert(bytes.subrange(13 + 4 * i, 13 + 4 * i + 4) =~= spec_le_words(
                    h.registers@,
                ).subrange(4 * i, 4 * i + 4));
            }
            assert(spec_words_at(bytes, sl, 13) =~= h.registers@);
            let regs = Seq::new(pow2(P as nat), |i: int| spec_reg(h.registers@, i, W as nat));
            assert(regs =~= h@);
            lemma_hsum_bounds(h@);
            lemma_hsum_lower(h@);
            crate::hyperloglog::lemma_m_times_w_bounds(P as nat, W as nat);
            assert(h@.len() as int * 0x8000000000000000 <= 0x40000int * 0x8000000000000000)
                by (nonlinear_arith)
                requires
                    h@.len() as int <= 0x40000,
            ;
            crate::float_bits::lemma_f32_of_sum_within(spec_hsum(h@));
        },
    }
}

} // verus!
