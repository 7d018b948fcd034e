//! The JSON wire form of a sketch.
//!
//! The text is an object with exactly one key, the variant tag `s`, `a`
//! or `h`.  The `s` value is the packed small word as an unsigned decimal;
//! the `a` and `h` values are arrays of unsigned 32-bit decimals laid out
//! exactly as in the binary form.  The reader accepts whitespace between
//! tokens and enforces the same validation rules as the binary reader:
//! array lengths, and the zero-count and harmonic-sum checks for the
//! register file.  A malformed number or stray text reads as an invalid
//! value, an unknown key as an invalid variant tag.

use vstd::prelude::*;

verus! {

use vstd::arithmetic::power2::pow2;
use crate::element::valid_params;
use crate::representation::Representation;
use crate::representation::RepView;
use crate::hyperloglog::HyperLogLog;
use crate::hyperloglog::spec_slice_len;
use crate::hyperloglog::spec_reg;
use crate::hyperloglog::count_zeros;
use crate::hyperloglog::spec_hsum;
use crate::float_bits::spec_f32_of_sum;
use crate::float_bits::spec_within_half;
use crate::float_bits::f32_bits_of_sum;
use crate::float_bits::f32_within_half;
use crate::codec::DeserializeError;
use crate::array::Array;
use crate::sketch::Sketch;

/// The decimal digits of a non-negative integer, most significant first.
pub open spec fn spec_dec(n: int) -> Seq<u8>
    decreases n,
{
    if n < 10 {
        seq![(48 + if n >= 0 {
            n
        } else {
            0int
        }) as u8]
    } else {
        spec_dec(n / 10) + seq![(48 + n % 10) as u8]
    }
}

/// A list of unsigned 32-bit decimals joined by commas.
pub open spec fn spec_dec_list(items: Seq<u32>) -> Seq<u8>
    decreases items.len(),
{
    if items.len() == 0 {
        Seq::<u8>::empty()
    } else if items.len() == 1 {
        spec_dec(items[0] as int)
    } else {
        spec_dec_list(items.drop_last()) + seq![44u8] + spec_dec(items.last() as int)
    }
}

/// The serialized JSON text of a representation, as bytes.
pub open spec fn spec_json_of<const P: usize, const W: usize>(rep: Representation<P, W>) -> Seq<
    u8,
> {
    match rep {
        Representation::Small(s) => seq![123u8, 34u8, 115u8, 34u8, 58u8] + spec_dec(s@ as int)
            + seq![125u8],
        Representation::Array(a) => seq![123u8, 34u8, 97u8, 34u8, 58u8, 91u8] + spec_dec_list(a@)
            + seq![93u8, 125u8],
        Representation::Hll(h) => seq![123u8, 34u8, 104u8, 34u8, 58u8, 91u8] + spec_dec_list(
            seq![h.zeros, spec_f32_of_sum(spec_hsum(h@))] + h.registers@,
        ) + seq![93u8, 125u8],
    }
}

/// Whether a byte is JSON whitespace.
pub open spec fn is_ws(b: u8) -> bool {
    b == 32 || b == 9 || b == 10 || b == 13
}

/// Whether a byte is a decimal digit.
pub open spec fn is_digit(b: u8) -> bool {
    48 <= b <= 57
}

/// The first non-whitespace position at or after `i`.
pub open spec fn spec_skip_ws(bytes: Seq<u8>, i: int) -> int
    decreases bytes.len() - i,
{
    if 0 <= i < bytes.len() && is_ws(bytes[i]) {
        spec_skip_ws(bytes, i + 1)
    } else {
        i
    }
}

/// The first non-digit position at or after `i`.
pub open spec fn spec_num_end(bytes: Seq<u8>, i: int) -> int
    decreases bytes.len() - i,
{
    if 0 <= i < bytes.len() && is_digit(bytes[i]) {
        spec_num_end(bytes, i + 1)
    } else {
        i
    }
}

/// The value of the digit span `[i, j)`.
pub open spec fn spec_num_val(bytes: Seq<u8>, i: int, j: int) -> int
    decreases j - i,
{
    if j <= i {
        0int
    } else {
        spec_num_val(bytes, i, j - 1) * 10 + (bytes[j - 1] - 48)
    }
}

/// One parsed unsigned decimal: its value and the position after it, or
/// an invalid-value error when no digit starts at `i`, the digit run is
/// over twenty digits, or the value exceeds `limit`.
pub open spec fn spec_parse_num(bytes: Seq<u8>, i: int, limit: int) -> Result<(int, int), DeserializeError> {
    let end = spec_num_end(bytes, i);
    if end == i {
        Err(DeserializeError::InvalidValue)
    } else if end - i > 20 {
        Err(DeserializeError::InvalidValue)
    } else {
        let v = spec_num_val(bytes, i, end);
        if v > limit {
            Err(DeserializeError::InvalidValue)
        } else {
            Ok((v, end))
        }
    }
}

/// Whitespace skipping never moves backwards, and stays inside the text.
pub proof fn lemma_skip_ws_bounds(bytes: Seq<u8>, i: int)
    requires
        0 <= i,
    ensures
        i <= spec_skip_ws(bytes, i),
        spec_skip_ws(bytes, i) <= bytes.len() || spec_skip_ws(bytes, i) == i,
    decreases bytes.len() - i,
{
    if 0 <= i < bytes.len() && is_ws(bytes[i]) {
        lemma_skip_ws_bounds(bytes, i + 1);
    }
}

/// The digit run never moves backwards, and stays inside the text.
pub proof fn lemma_num_end_bounds(bytes: Seq<u8>, i: int)
    requires
        0 <= i,
    ensures
        i <= spec_num_end(bytes, i),
        spec_num_end(bytes, i) <= bytes.len() || spec_num_end(bytes, i) == i,
    decreases bytes.len() - i,
{
    if 0 <= i < bytes.len() && is_digit(bytes[i]) {
        lemma_num_end_bounds(bytes, i + 1);
    }
}

/// The comma-separated unsigned 32-bit values from position `i` (at a
/// number) up to the closing bracket, appended to `acc`: the collected
/// values and the position after the bracket.
pub open spec fn spec_parse_items(bytes: Seq<u8>, i: int, acc: Seq<u32>) -> Result<(Seq<u32>, int), DeserializeError>
    decreases bytes.len() - i,
    via spec_parse_items_decreases
{
    if i < 0 || i > bytes.len() {
        Err(DeserializeError::InvalidValue)
    } else {
        match spec_parse_num(bytes, i, 0xffffffff) {
            Err(e) => Err(e),
            Ok((v, end)) => {
                let j = spec_skip_ws(bytes, end);
                if j >= bytes.len() {
                    Err(DeserializeError::InvalidValue)
                } else if bytes[j] == 44 {
                    let k = spec_skip_ws(bytes, j + 1);
                    spec_parse_items(bytes, k, acc.push(v as u32))
                } else if bytes[j] == 93 {
                    Ok((acc.push(v as u32), j + 1))
                } else {
                    Err(DeserializeError::InvalidValue)
                }
            },
        }
    }
}

#[via_fn]
proof fn spec_parse_items_decreases(bytes: Seq<u8>, i: int, acc: Seq<u32>) {
    if 0 <= i <= bytes.len() {
        lemma_num_end_bounds(bytes, i);
        let end = spec_num_end(bytes, i);
        if end != i && end - i <= 20 {
            lemma_skip_ws_bounds(bytes, end);
            let j = spec_skip_ws(bytes, end);
            if j < bytes.len() && bytes[j] == 44 {
                lemma_skip_ws_bounds(bytes, j + 1);
            }
        }
    }
}

/// The values of a bracketed list starting right after `[` at `i`: empty
/// when the bracket closes at once, else the items.
pub open spec fn spec_parse_list(bytes: Seq<u8>, i: int) -> Result<(Seq<u32>, int), DeserializeError> {
    let j = spec_skip_ws(bytes, i);
    if j < bytes.len() && bytes[j] == 93 {
        Ok((Seq::<u32>::empty(), j + 1))
    } else {
        spec_parse_items(bytes, j, Seq::<u32>::empty())
    }
}

/// The decoded state of a JSON text, or the error its validation gives.
pub open spec fn spec_json_parse(bytes: Seq<u8>, p: nat, w: nat) -> Result<RepView, DeserializeError> {
    let i0 = spec_skip_ws(bytes, 0);
    if !(i0 < bytes.len() && bytes[i0] == 123) {
        Err(DeserializeError::InvalidValue)
    } else {
        let i1 = spec_skip_ws(bytes, i0 + 1);
        if !(i1 + 2 < bytes.len() && bytes[i1] == 34 && bytes[i1 + 2] == 34) {
            Err(DeserializeError::InvalidVariantTag)
        } else {
            let tag = bytes[i1 + 1];
            if tag != 115 && tag != 97 && tag != 104 {
                Err(DeserializeError::InvalidVariantTag)
            } else {
                let i2 = spec_skip_ws(bytes, i1 + 3);
                if !(i2 < bytes.len() && bytes[i2] == 58) {
                    Err(DeserializeError::InvalidValue)
                } else {
                    let i3 = spec_skip_ws(bytes, i2 + 1);
                    if tag == 115 {
                        match spec_parse_num(bytes, i3, 0xffffffffffffffff) {
                            Err(e) => Err(e),
                            Ok((v, end)) => {
                                match spec_expect_close(bytes, end) {
                                    Err(e) => Err(e),
                                    Ok(_) => Ok(RepView::Small { data: v as u64 }),
                                }
                            },
                        }
                    } else {
                        if !(i3 < bytes.len() && bytes[i3] == 91) {
                            Err(DeserializeError::InvalidValue)
                        } else {
                            match spec_parse_list(bytes, i3 + 1) {
                                Err(e) => Err(e),
                                Ok((items, end)) => {
                                    match spec_expect_close(bytes, end) {
                                        Err(e) => Err(e),
                                        Ok(_) => spec_decode_list(items, tag, p, w),
                                    }
                                },
                            }
                        }
                    }
                }
            }
        }
    }
}

/// The closing brace and the end of input after position `i`.
pub open spec fn spec_expect_close(bytes: Seq<u8>, i: int) -> Result<(), DeserializeError> {
    let j = spec_skip_ws(bytes, i);
    if !(j < bytes.len() && bytes[j] == 125) {
        Err(DeserializeError::InvalidValue)
    } else if spec_skip_ws(bytes, j + 1) != bytes.len() {
        Err(DeserializeError::InvalidValue)
    } else {
        Ok(())
    }
}

/// The representation a decoded value list denotes under tag `a` or `h`:
/// the array tier with its length rule, or the register file with its
/// length, zero-count and harmonic-sum rules.
pub open spec fn spec_decode_list(items: Seq<u32>, tag: u8, p: nat, w: nat) -> Result<RepView, DeserializeError> {
    if tag == 97 {
        if items.len() < 3 || items.len() > 128 {
            Err(DeserializeError::InvalidLength)
        } else {
            Ok(RepView::Array { items })
        }
    } else {
        if items.len() != spec_slice_len(p, w) + 2 {
            Err(DeserializeError::InvalidLength)
        } else {
            let zeros = items[0];
            let sum_bits = items[1];
            let words = items.subrange(2, items.len() as int);
            let regs = Seq::new(pow2(p), |i: int| spec_reg(words, i, w));
            if zeros as int != count_zeros(regs) {
                Err(DeserializeError::InvalidValue)
            } else if !spec_within_half(sum_bits, spec_hsum(regs)) {
                Err(DeserializeError::InvalidValue)
            } else {
                Ok(RepView::Hll { regs })
            }
        }
    }
}

/// Append the decimal digits of `n`.
fn push_dec(out: &mut Vec<u8>, n: u64)
    ensures
        final(out)@ == old(out)@ + spec_dec(n as int),
    decreases n,
{
    if n < 10 {
        out.push(48 + (n as u8));
        proof {
            assert(final(out)@ =~= old(out)@ + spec_dec(n as int));
        }
    } else {
        push_dec(out, n / 10);
        out.push(48 + ((n % 10) as u8));
        proof {
            assert(final(out)@ =~= old(out)@ + spec_dec(n as int));
        }
    }
}

/// Append a comma-separated decimal list of 32-bit values.
fn push_dec_list(out: &mut Vec<u8>, items: &Vec<u32>)
    ensures
        final(out)@ == old(out)@ + spec_dec_list(items@),
{
    let n = items.len();
    let mut i: usize = 0;
    proof {
        assert(out@ =~= old(out)@ + spec_dec_list(items@.take(0)));
    }
    while i < n
        invariant
            n == items@.len(),
            i <= n,
            out@ == old(out)@ + spec_dec_list(items@.take(i as int)),
        decreases n - i,
    {
        if i > 0 {
            out.push(44);
        }
        push_dec(out, items[i] as u64);
        i += 1;
        proof {
            assert(items@.take(i as int).drop_last() =~= items@.take(i as int - 1));
            assert(items@.take(i as int).last() == items@[i as int - 1]);
            if i == 1 {
                assert(spec_dec_list(items@.take(1)) =~= spec_dec(items@[0] as int));
            }
            assert(out@ =~= old(out)@ + spec_dec_list(items@.take(i as int)));
        }
    }
    proof {
        assert(items@.take(n as int) =~= items@);
    }
}

impl<const P: usize, const W: usize> Sketch<P, W> {
    /// Serialize this sketch into its JSON text, as bytes.
    pub fn to_json(&self) -> (out: Vec<u8>)
        requires
            self.wf(),
            valid_params(P as nat, W as nat),
        ensures
            out@ == spec_json_of(self.rep),
    {
        let mut out: Vec<u8> = Vec::new();
        out.push(123);
        out.push(34);
        match &self.rep {
            Representation::Small(s) => {
                out.push(115);
                out.push(34);
                out.push(58);
                push_dec(&mut out, s.0);
                out.push(125);
                proof {
                    assert(out@ =~= spec_json_of(self.rep));
                }
            },
            Representation::Array(a) => {
                out.push(97);
                out.push(34);
                out.push(58);
                out.push(91);
                let used = a.len();
                let mut items: Vec<u32> = Vec::new();
                let mut i: usize = 0;
                while i < used
                    invariant
                        a.wf(),
                        used == a@.len(),
                        i <= used,
                        items@ =~= a@.take(i as int),
                    decreases used - i,
                {
                    items.push(a.get(i));
                    i += 1;
                    proof {
                        assert(items@ =~= a@.take(i as int));
                    }
                }
                proof {
                    assert(a@.take(used as int) =~= a@);
                }
                push_dec_list(&mut out, &items);
                out.push(93);
                out.push(125);
                proof {
                    assert(out@ =~= spec_json_of(self.rep));
                }
            },
            Representation::Hll(h) => {
                out.push(104);
                out.push(34);
                out.push(58);
                out.push(91);
                let sum = h.harmonic_sum_fixed();
                proof {
                    crate::representation::lemma_hsum_bounds(h@);
                    crate::codec::lemma_hsum_lower(h@);
                    crate::hyperloglog::lemma_m_times_w_bounds(P as nat, W as nat);
                    assert(h@.len() as int * 0x8000000000000000 <= 0x40000int * 0x8000000000000000)
                        by (nonlinear_arith)
                        requires
                            h@.len() as int <= 0x40000,
                    ;
                }
                let sum_bits = f32_bits_of_sum(sum);
                let mut items: Vec<u32> = Vec::new();
                items.push(h.zeros);
                items.push(sum_bits);
                let n = h.registers.len();
                let mut i: usize = 0;
                proof {
                    assert(items@ =~= seq![h.zeros, sum_bits] + h.registers@.take(0));
                }
                while i < n
                    invariant
                        n == h.registers@.len(),
                        i <= n,
                        items@ =~= seq![h.zeros, sum_bits] + h.registers@.take(i as int),
                    decreases n - i,
                {
                    items.push(h.registers[i]);
                    i += 1;
                    proof {
                        assert(items@ =~= seq![h.zeros, sum_bits] + h.registers@.take(i as int));
                    }
                }
                proof {
                    assert(h.registers@.take(n as int) =~= h.registers@);
                }
                push_dec_list(&mut out, &items);
                out.push(93);
                out.push(125);
                proof {
                    assert(out@ =~= spec_json_of(self.rep));
                }
            },
        }
        out
    }

    /// Read a sketch back from JSON text.  The returned sketch is exactly
    /// the decoded state; rejected input reports which rule failed.
    pub fn from_json(bytes: &[u8]) -> (r: Result<Sketch<P, W>, DeserializeError>)
        requires
            valid_params(P as nat, W as nat),
        ensures
            match r {
                Ok(s) => s.wf() && spec_json_parse(bytes@, P as nat, W as nat) == Ok::<
                    RepView,
                    DeserializeError,
                >(s@),
                Err(e) => spec_json_parse(bytes@, P as nat, W as nat) == Err::<
                    RepView,
                    DeserializeError,
                >(e),
            },
    {
        let total = bytes.len();
        let i0 = skip_ws(bytes, 0);
        if !(i0 < total && *vstd::slice::slice_index_get(bytes, i0) == 123) {
            return Err(DeserializeError::InvalidValue);
        }
        let i1 = skip_ws(bytes, i0 + 1);
        if !(total >= 3 && i1 < total - 2 && *vstd::slice::slice_index_get(bytes, i1) == 34
            && *vstd::slice::slice_index_get(bytes, i1 + 2) == 34) {
            return Err(DeserializeError::InvalidVariantTag);
        }
        let tag = *vstd::slice::slice_index_get(bytes, i1 + 1);
        if tag != 115 && tag != 97 && tag != 104 {
            return Err(DeserializeError::InvalidVariantTag);
        }
        let i2 = skip_ws(bytes, i1 + 3);
        if !(i2 < bytes.len() && *vstd::slice::slice_index_get(bytes, i2) == 58) {
            return Err(DeserializeError::InvalidValue);
        }
        let i3 = skip_ws(bytes, i2 + 1);
        if tag == 115 {
            let (v, end) = match parse_num(bytes, i3, 0xffffffffffffffff) {
                Ok(pair) => pair,
                Err(e) => {
                    return Err(e);
                },
            };
            match expect_close(bytes, end) {
                Ok(_) => {},
                Err(e) => {
                    return Err(e);
                },
            }
            return Ok(Sketch { rep: Representation::Small(crate::small::Small(v)) });
        }
        if !(i3 < bytes.len() && *vstd::slice::slice_index_get(bytes, i3) == 91) {
            return Err(DeserializeError::InvalidValue);
        }
        let (items, end) = match parse_list(bytes, i3 + 1) {
            Ok(pair) => pair,
            Err(e) => {
                return Err(e);
            },
        };
        match expect_close(bytes, end) {
            Ok(_) => {},
            Err(e) => {
                return Err(e);
            },
        }
        if tag == 97 {
            if items.len() < 3 || items.len() > 128 {
                return Err(DeserializeError::InvalidLength);
            }
            let arr = Array::<P, W>::from_items(items);
            return Ok(Sketch { rep: Representation::Array(arr) });
        }
        proof {
            crate::hyperloglog::lemma_m_times_w_bounds(P as nat, W as nat);
        }
        let need = HyperLogLog::<P, W>::slice_len() + 2;
        if items.len() != need {
            return Err(DeserializeError::InvalidLength);
        }
        let zeros = items[0];
        let sum_bits = items[1];
        let mut words: Vec<u32> = Vec::new();
        let mut i: usize = 2;
        while i < need
            invariant
                2 <= i <= need,
                need == items@.len(),
                words@ =~= items@.subrange(2, i as int),
            decreases need - i,
        {
            words.push(items[i]);
            i += 1;
            proof {
                assert(words@ =~= items@.subrange(2, i as int));
            }
        }
        let hll = HyperLogLog::<P, W>::from_registers(words);
        if zeros != hll.zeros {
            return Err(DeserializeError::InvalidValue);
        }
        proof {
            crate::representation::lemma_hsum_bounds(hll@);
            assert(hll@.len() as int * 0x8000000000000000 <= 0x40000int * 0x8000000000000000)
                by (nonlinear_arith)
                requires
                    hll@.len() as int <= 0x40000,
            ;
        }
        let sum = hll.harmonic_sum_fixed();
        if !f32_within_half(sum_bits, sum) {
            return Err(DeserializeError::InvalidValue);
        }
        Ok(Sketch { rep: Representation::Hll(hll) })
    }
}

/// The first non-whitespace position at or after `i`, capped at the end.
fn skip_ws(bytes: &[u8], i: usize) -> (r: usize)
    requires
        i <= bytes@.len() + 3,
    ensures
        r as int == spec_skip_ws(bytes@, i as int),
        i <= r,
        r <= bytes@.len() || r == i,
    decreases bytes@.len() + 4 - i,
{
    if i < bytes.len() {
        let b = *vstd::slice::slice_index_get(bytes, i);
        if b == 32 || b == 9 || b == 10 || b == 13 {
            return skip_ws(bytes, i + 1);
        }
    }
    i
}

/// The first non-digit position at or after `i`, capped at the end.
fn num_end(bytes: &[u8], i: usize) -> (r: usize)
    requires
        i <= bytes@.len() + 3,
    ensures
        r as int == spec_num_end(bytes@, i as int),
        i <= r,
        r <= bytes@.len() || r == i,
    decreases bytes@.len() + 4 - i,
{
    if i < bytes.len() {
        let b = *vstd::slice::slice_index_get(bytes, i);
        if 48 <= b && b <= 57 {
            return num_end(bytes, i + 1);
        }
    }
    i
}

/// Every byte of a digit run is a digit.
proof fn lemma_num_end_digits(bytes: Seq<u8>, i: int)
    requires
        0 <= i,
    ensures
        forall|k: int| i <= k < spec_num_end(bytes, i) ==> is_digit(bytes[k]),
        i <= spec_num_end(bytes, i),
    decreases bytes.len() - i,
{
    if 0 <= i < bytes.len() && is_digit(bytes[i]) {
        lemma_num_end_digits(bytes, i + 1);
    }
}

/// One parsed unsigned decimal and the position after it.
fn parse_num(bytes: &[u8], i: usize, limit: u64) -> (r: Result<(u64, usize), DeserializeError>)
    requires
        i <= bytes@.len() + 3,
    ensures
        match r {
            Ok((v, end)) => spec_parse_num(bytes@, i as int, limit as int) == Ok::<
                (int, int),
                DeserializeError,
            >((v as int, end as int)) && i < end <= bytes@.len(),
            Err(e) => spec_parse_num(bytes@, i as int, limit as int) == Err::<
                (int, int),
                DeserializeError,
            >(e),
        },
{
    let end = num_end(bytes, i);
    proof {
        lemma_num_end_digits(bytes@, i as int);
    }
    if end == i {
        return Err(DeserializeError::InvalidValue);
    }
    if end - i > 20 {
        return Err(DeserializeError::InvalidValue);
    }
    let mut acc: u128 = 0;
    let mut j: usize = i;
    while j < end
        invariant
            i <= j <= end,
            end as int == spec_num_end(bytes@, i as int),
            end <= bytes@.len(),
            end - i <= 20,
            forall|k: int| i <= k < end ==> is_digit(bytes@[k]),
            acc as int == spec_num_val(bytes@, i as int, j as int),
            (acc as int) < spec_pow10((j - i) as nat),
        decreases end - j,
    {
        let d = *vstd::slice::slice_index_get(bytes, j);
        proof {
            lemma_pow10_le((j - i) as nat, 19);
            assert(spec_pow10(19) == 10000000000000000000int) by {
                reveal_with_fuel(spec_pow10, 21);
            }
            lemma_pow10_mono((j + 1 - i) as nat);
        }
        acc = acc * 10 + ((d - 48) as u128);
        j += 1;
        proof {
            assert(acc as int == spec_num_val(bytes@, i as int, j as int));
        }
    }
    if acc > (limit as u128) {
        return Err(DeserializeError::InvalidValue);
    }
    Ok((acc as u64, end))
}

/// Ten to the given power.
pub open spec fn spec_pow10(n: nat) -> int
    decreases n,
{
    if n == 0 {
        1int
    } else {
        10 * spec_pow10((n - 1) as nat)
    }
}

/// Powers of ten are positive and grow with the exponent.
proof fn lemma_pow10_le(a: nat, b: nat)
    requires
        a <= b,
    ensures
        1 <= spec_pow10(a),
        spec_pow10(a) <= spec_pow10(b),
    decreases b,
{
    if b > 0 {
        if a == b {
            lemma_pow10_le((a - 1) as nat, (b - 1) as nat);
        } else {
            lemma_pow10_le(a, (b - 1) as nat);
        }
    }
}

/// One more digit multiplies the bound by ten.
proof fn lemma_pow10_mono(n: nat)
    requires
        n >= 1,
    ensures
        spec_pow10((n - 1) as nat) * 10 == spec_pow10(n),
        spec_pow10(n) >= 10,
    decreases n,
{
    if n > 1 {
        lemma_pow10_mono((n - 1) as nat);
    }
}

/// The bracketed value list and the position after the closing bracket.
fn parse_list(bytes: &[u8], i: usize) -> (r: Result<(Vec<u32>, usize), DeserializeError>)
    requires
        i <= bytes@.len() + 3,
    ensures
        match r {
            Ok((items, end)) => spec_parse_list(bytes@, i as int) == Ok::<
                (Seq<u32>, int),
                DeserializeError,
            >((items@, end as int)) && end <= bytes@.len(),
            Err(e) => spec_parse_list(bytes@, i as int) == Err::<(Seq<u32>, int), DeserializeError>(
                e,
            ),
        },
{
    let j0 = skip_ws(bytes, i);
    if j0 < bytes.len() && *vstd::slice::slice_index_get(bytes, j0) == 93 {
        return Ok((Vec::new(), j0 + 1));
    }
    parse_items(bytes, j0, Vec::new())
}

/// The comma-separated values from a number position to the closing
/// bracket, appended to the collected prefix.
fn parse_items(bytes: &[u8], i: usize, items: Vec<u32>) -> (r: Result<
    (Vec<u32>, usize),
    DeserializeError,
>)
    requires
        i <= bytes@.len() + 3,
    ensures
        match r {
            Ok((out, end)) => spec_parse_items(bytes@, i as int, items@) == Ok::<
                (Seq<u32>, int),
                DeserializeError,
            >((out@, end as int)) && end <= bytes@.len(),
            Err(e) => spec_parse_items(bytes@, i as int, items@) == Err::<
                (Seq<u32>, int),
                DeserializeError,
            >(e),
        },
    decreases bytes@.len() + 4 - i,
{
    let (v, end) = match parse_num(bytes, i, 0xffffffff) {
        Ok(pair) => pair,
        Err(e) => {
            return Err(e);
        },
    };
    let mut items2 = items;
    items2.push(v as u32);
    let j = skip_ws(bytes, end);
    if !(j < bytes.len()) {
        return Err(DeserializeError::InvalidValue);
    }
    let b = *vstd::slice::slice_index_get(bytes, j);
    if b == 44 {
        let k = skip_ws(bytes, j + 1);
        parse_items(bytes, k, items2)
    } else if b == 93 {
        Ok((items2, j + 1))
    } else {
        Err(DeserializeError::InvalidValue)
    }
}

/// The closing brace and the end of input.
fn expect_close(bytes: &[u8], i: usize) -> (r: Result<(), DeserializeError>)
    requires
        i <= bytes@.len() + 3,
    ensures
        match r {
            Ok(_) => spec_expect_close(bytes@, i as int) == Ok::<(), DeserializeError>(()),
            Err(e) => spec_expect_close(bytes@, i as int) == Err::<(), DeserializeError>(e),
        },
{
    let j = skip_ws(bytes, i);
    if !(j < bytes.len() && *vstd::slice::slice_index_get(bytes, j) == 125) {
        return Err(DeserializeError::InvalidValue);
    }
    let k = skip_ws(bytes, j + 1);
    if k != bytes.len() {
        return Err(DeserializeError::InvalidValue);
    }
    Ok(())
}


/// The decimal digits of a value are digits, and there are few of them
/// for any value a register word or small word can hold.
proof fn lemma_dec_digits(n: int)
    requires
        n >= 0,
    ensures
        spec_dec(n).len() >= 1,
        forall|k: int| 0 <= k < spec_dec(n).len() ==> is_digit(#[trigger] spec_dec(n)[k]),
    decreases n,
{
    if n >= 10 {
        lemma_dec_digits(n / 10);
    }
}

/// A value below ten to the `d` has at most `d` digits.
proof fn lemma_dec_len(n: int, d: nat)
    requires
        0 <= n,
        n < spec_pow10(d),
        d >= 1,
    ensures
        spec_dec(n).len() <= d,
    decreases d,
{
    if n >= 10 {
        lemma_pow10_mono(d);
        lemma_dec_len(n / 10, (d - 1) as nat);
    }
}

/// Reading the decimal digits of `n` embedded in a byte string, the digit
/// run ends exactly at the first byte after them, and its value is `n`.
proof fn lemma_dec_reads_back(bytes: Seq<u8>, i: int, n: int)
    requires
        0 <= n,
        0 <= i,
        i + spec_dec(n).len() <= bytes.len(),
        bytes.subrange(i, i + spec_dec(n).len() as int) == spec_dec(n),
    ensures
        spec_num_val(bytes, i, i + spec_dec(n).len() as int) == n,
        forall|k: int| i <= k < i + spec_dec(n).len() ==> is_digit(bytes[k]),
    decreases n,
{
    lemma_dec_digits(n);
    let l = spec_dec(n).len() as int;
    assert(forall|k: int| i <= k < i + l ==> bytes[k] == spec_dec(n)[k - i]);
    if n < 10 {
        assert(spec_num_val(bytes, i, i + 1) == spec_num_val(bytes, i, i) * 10 + (bytes[i] - 48));
        assert(bytes[i] == spec_dec(n)[0]);
    } else {
        let prefix = spec_dec(n / 10);
        assert(spec_dec(n) == prefix + seq![(48 + n % 10) as u8]);
        assert(bytes.subrange(i, i + prefix.len() as int) =~= prefix) by {
            assert(forall|k: int|
                0 <= k < prefix.len() ==> spec_dec(n)[k] == prefix[k]);
        }
        lemma_dec_reads_back(bytes, i, n / 10);
        assert(bytes[i + l - 1] == spec_dec(n)[l - 1]);
        assert(spec_dec(n)[l - 1] == (48 + n % 10) as u8);
        assert(spec_num_val(bytes, i, i + l) == spec_num_val(bytes, i, i + l - 1) * 10 + (bytes[i
            + l - 1] - 48));
    }
}

/// A digit run bounded by a non-digit stops right there.
proof fn lemma_num_end_at(bytes: Seq<u8>, i: int, j: int)
    requires
        0 <= i <= j <= bytes.len(),
        forall|k: int| i <= k < j ==> is_digit(bytes[k]),
        j == bytes.len() || !is_digit(bytes[j]),
    ensures
        spec_num_end(bytes, i) == j,
    decreases j - i,
{
    if i < j {
        lemma_num_end_at(bytes, i + 1, j);
    }
}

/// Skipping whitespace at a non-whitespace byte stays put.
proof fn lemma_skip_ws_at(bytes: Seq<u8>, i: int)
    requires
        0 <= i,
        i < bytes.len() ==> !is_ws(bytes[i]),
    ensures
        spec_skip_ws(bytes, i) == i,
{
}


/// The list text read from the front: the first value's digits, a comma,
/// then the rest of the list.
proof fn lemma_dec_list_front(items: Seq<u32>)
    requires
        items.len() >= 2,
    ensures
        spec_dec_list(items) == spec_dec(items[0] as int) + seq![44u8] + spec_dec_list(
            items.subrange(1, items.len() as int),
        ),
    decreases items.len(),
{
    let rest = items.subrange(1, items.len() as int);
    if items.len() == 2 {
        assert(items.drop_last() =~= seq![items[0]]);
        assert(rest =~= seq![items[1]]);
        assert(spec_dec_list(items.drop_last()) == spec_dec(items[0] as int));
        assert(spec_dec_list(rest) == spec_dec(items[1] as int));
    } else {
        lemma_dec_list_front(items.drop_last());
        assert(items.drop_last().subrange(1, items.drop_last().len() as int) =~= rest.drop_last());
        assert(items.drop_last()[0] == items[0]);
        assert(rest.last() == items.last());
        assert(spec_dec_list(items) == spec_dec_list(items.drop_last()) + seq![44u8] + spec_dec(
            items.last() as int,
        ));
        assert(spec_dec_list(rest) == spec_dec_list(rest.drop_last()) + seq![44u8] + spec_dec(
            rest.last() as int,
        ));
        assert(spec_dec(items[0] as int) + seq![44u8] + (spec_dec_list(rest.drop_last())
            + seq![44u8] + spec_dec(rest.last() as int)) =~= (spec_dec(items[0] as int)
            + seq![44u8] + spec_dec_list(rest.drop_last())) + seq![44u8] + spec_dec(
            rest.last() as int,
        ));
    }
}

/// Reading a serialized value list back: starting at its first digit, the
/// item parser collects exactly the list and stops after the bracket.
proof fn lemma_parse_items_of_list(bytes: Seq<u8>, i: int, items: Seq<u32>, acc: Seq<u32>)
    requires
        0 <= i,
        items.len() >= 1,
        i + spec_dec_list(items).len() + 1 <= bytes.len(),
        bytes.subrange(i, i + spec_dec_list(items).len() as int) == spec_dec_list(items),
        bytes[i + spec_dec_list(items).len() as int] == 93u8,
    ensures
        spec_parse_items(bytes, i, acc) == Ok::<(Seq<u32>, int), DeserializeError>(
            (acc + items, i + spec_dec_list(items).len() + 1),
        ),
    decreases items.len(),
{
    let h = items[0];
    let dh = spec_dec(h as int);
    let ll = spec_dec_list(items).len() as int;
    lemma_pow10_le(10, 10);
    assert(spec_pow10(10) == 10000000000int) by {
        reveal_with_fuel(spec_pow10, 11);
    }
    lemma_dec_len(h as int, 10);
    if items.len() == 1 {
        assert(spec_dec_list(items) == dh);
        assert(bytes.subrange(i, i + dh.len() as int) =~= dh);
        lemma_dec_reads_back(bytes, i, h as int);
        lemma_num_end_at(bytes, i, i + dh.len() as int);
        lemma_skip_ws_at(bytes, i + dh.len() as int);
        assert(spec_parse_num(bytes, i, 0xffffffff) == Ok::<(int, int), DeserializeError>(
            (h as int, i + dh.len() as int),
        ));
        assert(acc.push(h) =~= acc + items);
    } else {
        lemma_dec_list_front(items);
        let rest = items.subrange(1, items.len() as int);
        let lr = spec_dec_list(rest).len() as int;
        assert(ll == dh.len() + 1 + lr);
        assert(bytes.subrange(i, i + dh.len() as int) =~= dh) by {
            assert(forall|k: int|
                0 <= k < dh.len() ==> spec_dec_list(items)[k] == dh[k]);
        }
        lemma_dec_reads_back(bytes, i, h as int);
        assert(bytes[i + dh.len() as int] == spec_dec_list(items)[dh.len() as int]);
        assert(spec_dec_list(items)[dh.len() as int] == 44u8);
        lemma_num_end_at(bytes, i, i + dh.len() as int);
        lemma_skip_ws_at(bytes, i + dh.len() as int);
        assert(spec_parse_num(bytes, i, 0xffffffff) == Ok::<(int, int), DeserializeError>(
            (h as int, i + dh.len() as int),
        ));
        let k0 = i + dh.len() as int + 1;
        lemma_dec_digits(rest[0] as int);
        assert(bytes.subrange(k0, k0 + lr) =~= spec_dec_list(rest)) by {
            assert(forall|k: int|
                0 <= k < lr ==> spec_dec_list(items)[dh.len() + 1 + k] == spec_dec_list(rest)[k]);
        }
        assert(bytes[k0] == spec_dec_list(rest)[0]);
        assert(spec_dec_list(rest)[0] == spec_dec(rest[0] as int)[0]) by {
            if rest.len() >= 2 {
                lemma_dec_list_front(rest);
            }
        }
        lemma_skip_ws_at(bytes, k0);
        lemma_parse_items_of_list(bytes, k0, rest, acc.push(h));
        assert(acc.push(h) + rest =~= acc + items) by {
            assert(forall|k: int| 0 <= k < rest.len() ==> rest[k] == items[k + 1]);
        }
    }
}


/// LAW (round trip, JSON form).  Reading a sketch's serialized JSON text
/// back yields exactly the sketch's logical state, so the estimate
/// survives the round trip unchanged.
pub proof fn lemma_json_round_trip<const P: usize, const W: usize>(rep: Representation<P, W>)
    requires
        rep.wf(),
        valid_params(P as nat, W as nat),
    ensures
        spec_json_parse(spec_json_of(rep), P as nat, W as nat) == Ok::<RepView, DeserializeError>(
            rep@,
        ),
{
    let bytes = spec_json_of(rep);
    let p = P as nat;
    let w = W as nat;
    lemma_pow10_le(20, 20);
    assert(spec_pow10(20) == 100000000000000000000int) by {
        reveal_with_fuel(spec_pow10, 21);
    }
    match rep {
        Representation::Small(sm) => {
            let n = sm@ as int;
            let d = spec_dec(n);
            lemma_dec_digits(n);
            lemma_dec_len(n, 20);
            let l = d.len() as int;
            assert(bytes.len() == 6 + l);
            assert(bytes[0] == 123u8 && bytes[1] == 34u8 && bytes[2] == 115u8 && bytes[3] == 34u8
                && bytes[4] == 58u8 && bytes[5 + l] == 125u8);
            lemma_skip_ws_at(bytes, 0);
            lemma_skip_ws_at(bytes, 1);
            lemma_skip_ws_at(bytes, 4);
            assert(bytes.subrange(5, 5 + l) =~= d);
            assert(bytes[5] == d[0]);
            lemma_skip_ws_at(bytes, 5);
            lemma_dec_reads_back(bytes, 5, n);
            lemma_num_end_at(bytes, 5, 5 + l);
            assert(spec_parse_num(bytes, 5, 0xffffffffffffffff) == Ok::<
                (int, int),
                DeserializeError,
            >((n, 5 + l)));
            lemma_skip_ws_at(bytes, 5 + l);
            lemma_skip_ws_at(bytes, 6 + l);
            assert(spec_expect_close(bytes, 5 + l) == Ok::<(), DeserializeError>(()));
        },
        Representation::Array(a) => {
            let items = a@;
            let dl = spec_dec_list(items);
            let l = dl.len() as int;
            assert(bytes.len() == 8 + l);
            assert(bytes[0] == 123u8 && bytes[1] == 34u8 && bytes[2] == 97u8 && bytes[3] == 34u8
                && bytes[4] == 58u8 && bytes[5] == 91u8 && bytes[6 + l] == 93u8 && bytes[7 + l]
                == 125u8);
            lemma_skip_ws_at(bytes, 0);
            lemma_skip_ws_at(bytes, 1);
            lemma_skip_ws_at(bytes, 4);
            lemma_skip_ws_at(bytes, 5);
            assert(bytes.subrange(6, 6 + l) =~= dl);
            lemma_dec_digits(items[0] as int);
            assert(dl[0] == spec_dec(items[0] as int)[0]) by {
                if items.len() >= 2 {
                    lemma_dec_list_front(items);
                }
            }
            assert(bytes[6] == dl[0]);
            lemma_skip_ws_at(bytes, 6);
            lemma_parse_items_of_list(bytes, 6, items, Seq::<u32>::empty());
            assert(spec_parse_list(bytes, 6) == Ok::<(Seq<u32>, int), DeserializeError>(
                (Seq::<u32>::empty() + items, 7 + l),
            ));
            assert(Seq::<u32>::empty() + items =~= items);
            lemma_skip_ws_at(bytes, 7 + l);
            lemma_skip_ws_at(bytes, 8 + l);
            assert(spec_expect_close(bytes, 7 + l) == Ok::<(), DeserializeError>(()));
            assert(spec_decode_list(items, 97u8, p, w) == Ok::<RepView, DeserializeError>(rep@));
        },
        Representation::Hll(h) => {
            let sum = spec_hsum(h@);
            let sum_bits = spec_f32_of_sum(sum);
            let items = seq![h.zeros, sum_bits] + h.registers@;
            let dl = spec_dec_list(items);
            let l = dl.len() as int;
            crate::hyperloglog::lemma_m_times_w_bounds(p, w);
            assert(items.len() == spec_slice_len(p, w) + 2);
            assert(bytes.len() == 8 + l);
            assert(bytes[0] == 123u8 && bytes[1] == 34u8 && bytes[2] == 104u8 && bytes[3] == 34u8
                && bytes[4] == 58u8 && bytes[5] == 91u8 && bytes[6 + l] == 93u8 && bytes[7 + l]
                == 125u8);
            lemma_skip_ws_at(bytes, 0);
            lemma_skip_ws_at(bytes, 1);
            lemma_skip_ws_at(bytes, 4);
            lemma_skip_ws_at(bytes, 5);
            assert(bytes.subrange(6, 6 + l) =~= dl);
            lemma_dec_digits(items[0] as int);
            assert(dl[0] == spec_dec(items[0] as int)[0]) by {
                if items.len() >= 2 {
                    lemma_dec_list_front(items);
                }
            }
            assert(bytes[6] == dl[0]);
            lemma_skip_ws_at(bytes, 6);
            lemma_parse_items_of_list(bytes, 6, items, Seq::<u32>::empty());
            assert(spec_parse_list(bytes, 6) == Ok::<(Seq<u32>, int), DeserializeError>(
                (Seq::<u32>::empty() + items, 7 + l),
            ));
            assert(Seq::<u32>::empty() + items =~= items);
            lemma_skip_ws_at(bytes, 7 + l);
            lemma_skip_ws_at(bytes, 8 + l);
            assert(spec_expect_close(bytes, 7 + l) == Ok::<(), DeserializeError>(()));
            // the decoded list passes every register-file check
            assert(items[0] == h.zeros && items[1] == sum_bits);
            assert(items.subrange(2, items.len() as int) =~= h.registers@);
            let regs = Seq::new(vstd::arithmetic::power2::pow2(p), |i: int| spec_reg(h.registers@, i, w));
            assert(regs =~= h@);
            crate::representation::lemma_hsum_bounds(h@);
            crate::codec::lemma_hsum_lower(h@);
            assert(h@.len() as int * 0x8000000000000000 <= 0x40000int * 0x8000000000000000)
                by (nonlinear_arith)
                requires
                    h@.len() as int <= 0x40000,
            ;
            crate::float_bits::lemma_f32_of_sum_within(sum);
            assert(spec_decode_list(items, 104u8, p, w) == Ok::<RepView, DeserializeError>(rep@));
        },
    }
}

} // verus!
