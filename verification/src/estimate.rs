//! The LogLog-beta estimator, evaluated in exact fixed-point arithmetic.
//!
//! The estimate divides `alpha(m) * m * (m - zeros)` by the harmonic sum
//! plus a bias-correction polynomial in `ln(zeros + 1)`, then rounds to the
//! nearest non-negative integer.  Every quantity is carried in fixed point
//! at scale `2^44`; the logarithm comes from an inverse-hyperbolic-tangent
//! series, and the polynomial from Horner's rule over the per-precision
//! coefficient table.  The whole computation is deterministic integer
//! arithmetic, so the contract pins the estimate exactly.

use vstd::prelude::*;

verus! {

use vstd::arithmetic::power2::pow2;
use vstd::arithmetic::power2::lemma_pow2_strictly_increases;
use crate::hyperloglog::spec_m;

/// The fixed-point scale: `2^44`.
pub const FP: u128 = 0x100000000000;

/// `ln 2` at scale `2^44`, rounded to the nearest integer.
pub const LN2_Q: u128 = 12193974156573;

/// Division by the scale that truncates toward zero, as machine signed
/// division does.
pub open spec fn spec_tdiv_fp(a: int) -> int {
    if a >= 0 {
        a / (FP as int)
    } else {
        -((-a) / (FP as int))
    }
}

/// One Horner step at the fixed-point scale.
pub open spec fn spec_step(r: int, zl: int, c: int) -> int {
    spec_tdiv_fp(r * zl) + c
}

/// Floor of the base-two logarithm.
pub open spec fn spec_floor_log2(x: int) -> int
    decreases x,
{
    if x < 2 {
        0int
    } else {
        1 + spec_floor_log2(x / 2)
    }
}

/// The tail of the inverse-hyperbolic-tangent series from term `i` on:
/// `sum_{j >= i} pw_j / (2 j + 1)` with `pw_{j+1} = pw_j * z2 / 2^44`,
/// truncated after thirty terms, where it has long reached zero.
pub open spec fn spec_series(z2: int, pw: int, i: int) -> int
    decreases 30 - i,
{
    if i < 0 || i >= 30 {
        0int
    } else {
        pw / (2 * i + 1) + spec_series(z2, (pw * z2) / (FP as int), i + 1)
    }
}

/// `ln x` at scale `2^44` for an integer `x >= 1`: split off the power of
/// two, then apply `ln m = 2 atanh((m - 1) / (m + 1))` to the mantissa.
pub open spec fn spec_ln_q(x: int) -> int {
    let k = spec_floor_log2(x);
    let mq = x * pow2((44 - k) as nat);
    let t = mq - FP as int;
    let u = mq + FP as int;
    let zat = (t * FP as int) / u;
    let z2 = (zat * zat) / FP as int;
    k * LN2_Q as int + 2 * spec_series(z2, zat, 0)
}

/// The LogLog-beta coefficient row for precision `p`, at scale `2^44`.
/// Index 0 is the linear term in the zero count; indices 1 to 7 are the
/// polynomial coefficients of `ln(zeros + 1)`.
pub open spec fn spec_beta_row(p: int) -> Seq<int> {
    if p == 4 {
        seq![-10248880619427int, -34046163942021int, 194909524797671int, -389338957613320int, 395919040368399int, -211118966371535int, 56657032119767int, -6020491186662int]
    } else if p == 5 {
        seq![-13227563738110int, -16870959329930int, 98511617429736int, -144427690390681int, 114509746596806int, -47200351900055int, 9874302470938int, -815101609794int]
    } else if p == 6 {
        seq![524700848307455int, -551140465538973int, -186376057527438int, -203576998020584int, 67182367175029int, -42502950759685int, 7990738474217int, -1011824171640int]
    } else if p == 7 {
        seq![49439181973969int, -69982593087137int, 23156031613058int, -69053704232539int, 35326579851079int, -13241905727009int, 2226414103173int, -193419820499int]
    } else if p == 8 {
        seq![17703640439709int, -35286524003117int, 28916232109297int, -47597561048023int, 24490078716958int, -8175154697499int, 1299056693854int, -101780451783int]
    } else if p == 9 {
        seq![-1656419977346int, -13744946642965int, 30173228526366int, -30559606351596int, 15206950992993int, -4190287625622int, 588185662874int, -36566858986int]
    } else if p == 10 {
        seq![-4562603937370int, -9253191144010int, 26200576585755int, -22806987454862int, 10957250191045int, -2757104882911int, 361416667936int, -19789183371int]
    } else if p == 11 {
        seq![-7605551575190int, -1907885531396int, 10716395370813int, -291481063535int, -1400037782802int, 830053173364int, -137460574681525584int, 10278563820int]
    } else if p == 12 {
        seq![-6772625755170int, 3222224081259int, 2293962809682int, 1239965754620int, -157607334221int, 198809359124int, -34179078860int, 3965908078int]
    } else if p == 13 {
        seq![-7328072762207int, -3896084627653int, 6836698428038int, 7976469511288int, -6379760234563int, 2164656929536int, -299338150072int, 18076035738int]
    } else if p == 14 {
        seq![-6526872726273int, 172194417722int, 3268562958522int, 3571486926667int, -2053193212911int, 758410926247int, -105479851939int, 7911281702int]
    } else if p == 15 {
        seq![-6722879501223int, -15669254650955int, 6615072866528int, 17475369960404int, -11536505536181int, 3225059733756int, -394334063289int, 21356876796int]
    } else if p == 16 {
        seq![-6567493193041int, -24928844937197int, 7165153963794int, 27470556316986int, -17458878357985int, 4585347243681int, -537232177600int, 27403385176int]
    } else if p == 17 {
        seq![-6469614783280int, 9470123970410int, 13540756488846int, 9676156833764int, -13119476230619int, 4523273986877int, -604802222625int, 32712519778int]
    } else if p == 18 {
        seq![-6417563203805int, 17544759679717int, 27330232653756int, 22154310863391int, -26973386063312int, 8409248275004int, -1046915419976int, 51206773005int]
    } else {
        seq![0int, 0int, 0int, 0int, 0int, 0int, 0int, 0int]
    }
}

/// The bias correction for precision `p` and zero count `z`:
/// the degree-seven polynomial in `ln(z + 1)` plus the linear term.
pub open spec fn spec_beta_q(p: int, z: int) -> int {
    let zl = spec_ln_q(z + 1);
    let row = spec_beta_row(p);
    let r7 = row[7];
    let r6 = spec_step(r7, zl, row[6]);
    let r5 = spec_step(r6, zl, row[5]);
    let r4 = spec_step(r5, zl, row[4]);
    let r3 = spec_step(r4, zl, row[3]);
    let r2 = spec_step(r3, zl, row[2]);
    let r1 = spec_step(r2, zl, row[1]);
    spec_tdiv_fp(r1 * zl) + row[0] * z
}

/// The bias-correction constant `alpha(m)` at scale `2^44`: fixed values
/// for the three smallest register counts, else `0.7213 / (1 + 1.079 / m)`
/// as the exact rational `7213 m / (10000 m + 10790)`.
pub open spec fn spec_alpha_q(m: int) -> int {
    if m == 16 {
        (673 * FP as int) / 1000
    } else if m == 32 {
        (697 * FP as int) / 1000
    } else if m == 64 {
        (709 * FP as int) / 1000
    } else {
        (7213 * m * FP as int) / (10000 * m + 10790)
    }
}

/// The full estimate for precision `p`, zero count `z` and exact harmonic
/// sum `sum63` at scale `2^63`: `alpha * m * (m - z)` over the sum plus the
/// bias correction, rounded to nearest, never negative, and saturated at
/// the machine word.  A non-positive denominator, which only degenerate
/// register files reach, yields zero.
pub open spec fn spec_estimate_hll(p: nat, z: int, sum63: int) -> int {
    let m = spec_m(p);
    let beta = spec_beta_q(p as int, z);
    let sq = sum63 / 0x80000;
    let denom = sq + beta;
    if denom <= 0 {
        0int
    } else {
        let num = spec_alpha_q(m) * (m * (m - z));
        let q = (2 * num + denom) / (2 * denom);
        if q > usize::MAX as int {
            usize::MAX as int
        } else {
            q
        }
    }
}

/// Truncating division by the scale.
fn tdiv_fp(a: i128) -> (r: i128)
    requires
        -0x40000000000000000000000000000000 <= a,
    ensures
        r as int == spec_tdiv_fp(a as int),
{
    if a >= 0 {
        ((a as u128) / FP) as i128
    } else {
        proof {
            vstd::arithmetic::div_mod::lemma_div_is_ordered(
                -(a as int),
                0x40000000000000000000000000000000int,
                FP as int,
            );
            vstd::arithmetic::div_mod::lemma_div_pos_is_pos(-(a as int), FP as int);
        }
        let m = ((-a) as u128) / FP;
        -(m as i128)
    }
}

/// A truncated product at the scale is bounded by sixteen times the factor
/// when the multiplier stays below `2^48`.
proof fn lemma_step_bound(r: int, zl: int, c: int, rb: int, cb: int)
    requires
        -rb <= r <= rb,
        0 <= zl < 0x1000000000000,
        -cb <= c <= cb,
        0 <= rb,
        0 <= cb,
    ensures
        -(16 * rb + cb) <= spec_step(r, zl, c) <= 16 * rb + cb,
{
    let prod = r * zl;
    assert(prod <= rb * 0x1000000000000) by (nonlinear_arith)
        requires
            prod == r * zl && -rb <= r <= rb && 0 <= zl <= 0xffffffffffff && 0 <= rb,
    ;
    assert(-rb * 0x1000000000000 <= prod) by (nonlinear_arith)
        requires
            prod == r * zl && -rb <= r <= rb && 0 <= zl <= 0xffffffffffff && 0 <= rb,
    ;
    assert(rb * 0x1000000000000 == (16 * rb) * (FP as int)) by (nonlinear_arith)
        requires
            FP == 0x100000000000u128,
    ;
    if prod >= 0 {
        assert(prod / (FP as int) <= (16 * rb) * (FP as int) / (FP as int)) by {
            vstd::arithmetic::div_mod::lemma_div_is_ordered(prod, (16 * rb) * (FP as int), FP as int);
        }
        assert((16 * rb) * (FP as int) / (FP as int) == 16 * rb) by {
            vstd::arithmetic::div_mod::lemma_div_by_multiple(16 * rb, FP as int);
        }
        assert(prod / (FP as int) >= 0) by {
            vstd::arithmetic::div_mod::lemma_div_pos_is_pos(prod, FP as int);
        }
    } else {
        assert((-prod) / (FP as int) <= (16 * rb) * (FP as int) / (FP as int)) by {
            vstd::arithmetic::div_mod::lemma_div_is_ordered(-prod, (16 * rb) * (FP as int), FP as int);
        }
        assert((16 * rb) * (FP as int) / (FP as int) == 16 * rb) by {
            vstd::arithmetic::div_mod::lemma_div_by_multiple(16 * rb, FP as int);
        }
        assert((-prod) / (FP as int) >= 0) by {
            vstd::arithmetic::div_mod::lemma_div_pos_is_pos(-prod, FP as int);
        }
    }
}

/// One Horner step: multiply by the logarithm, scale back, add the next
/// coefficient.
fn horner_step(r: i128, zl: i128, c: i128) -> (out: i128)
    requires
        -0x40000000000000000000 <= r <= 0x40000000000000000000,
        0 <= zl < 0x1000000000000,
        -0x200000000000000000 <= c <= 0x200000000000000000,
    ensures
        out as int == spec_step(r as int, zl as int, c as int),
{
    proof {
        assert((r as int) * (zl as int) <= 0x40000000000000000000 * 0x1000000000000int)
            by (nonlinear_arith)
            requires
                -0x40000000000000000000 <= r as int <= 0x40000000000000000000 && 0 <= (zl as int) < 0x1000000000000,
        ;
        assert((r as int) * (zl as int) >= -0x40000000000000000000 * 0x1000000000000int)
            by (nonlinear_arith)
            requires
                -0x40000000000000000000 <= r as int <= 0x40000000000000000000 && 0 <= (zl as int) < 0x1000000000000,
        ;
    }
    let prod: i128 = r * zl;
    let t = tdiv_fp(prod);
    proof {
        lemma_step_bound(r as int, zl as int, 0, 0x40000000000000000000, 0);
    }
    t + c
}

/// Floor of the base-two logarithm, by repeated halving.
fn floor_log2(x: u64) -> (k: u32)
    requires
        1 <= x,
    ensures
        k as int == spec_floor_log2(x as int),
        pow2(k as nat) <= x as int,
        (x as int) < pow2((k + 1) as nat),
        k < 64,
{
    let mut k: u32 = 0;
    let mut y: u64 = x;
    proof {
        vstd::arithmetic::power2::lemma2_to64();
    }
    while y >= 2
        invariant
            1 <= y <= x,
            spec_floor_log2(x as int) == k + spec_floor_log2(y as int),
            pow2(k as nat) * (y as int) <= x as int,
            (x as int) < pow2(k as nat) * (y as int + 1),
            k < 64,
        decreases y,
    {
        proof {
            vstd::arithmetic::power2::lemma_pow2_adds(k as nat, 1);
            vstd::arithmetic::power2::lemma2_to64();
            assert(pow2((k + 1) as nat) * ((y as int) / 2) <= pow2(k as nat) * (y as int))
                by (nonlinear_arith)
                requires
                    pow2((k + 1) as nat) == 2 * pow2(k as nat) && y >= 2 && pow2(k as nat) > 0,
            ;
            assert(pow2(k as nat) * (y as int + 1) <= pow2((k + 1) as nat) * ((y as int) / 2 + 1))
                by (nonlinear_arith)
                requires
                    pow2((k + 1) as nat) == 2 * pow2(k as nat) && y >= 2 && pow2(k as nat) > 0,
            ;
            assert(pow2(k as nat) > 0) by {
                vstd::arithmetic::power2::lemma_pow2_pos(k as nat);
            }
            if k >= 63 {
                assert(pow2(63) * (y as int) > u64::MAX as int) by (nonlinear_arith)
                    requires
                        y >= 2 && pow2(63) == 0x8000000000000000,
                ;
            }
        }
        y = y / 2;
        k = k + 1;
    }
    proof {
        vstd::arithmetic::power2::lemma_pow2_pos(k as nat);
        assert(pow2(k as nat) * 1int == pow2(k as nat)) by (nonlinear_arith);
        assert(pow2(k as nat) * (y as int) == pow2(k as nat)) by (nonlinear_arith)
            requires
                y == 1,
        ;
        assert(pow2(k as nat) * (y as int + 1) == 2 * pow2(k as nat)) by (nonlinear_arith)
            requires
                y == 1,
        ;
        vstd::arithmetic::power2::lemma_pow2_adds(k as nat, 1);
        vstd::arithmetic::power2::lemma2_to64();
    }
    k
}

/// The series tail is non-negative and at most twice its leading power.
proof fn lemma_series_bound(z2: int, pw: int, i: int)
    requires
        0 <= z2 <= (FP as int) / 4,
        0 <= pw,
        0 <= i,
    ensures
        0 <= spec_series(z2, pw, i) <= 2 * pw,
    decreases 30 - i,
{
    if i < 30 {
        let nxt = (pw * z2) / (FP as int);
        assert(pw * z2 <= pw * ((FP as int) / 4)) by (nonlinear_arith)
            requires
                0 <= z2 <= (FP as int) / 4 && 0 <= pw,
        ;
        assert(pw * ((FP as int) / 4) <= (pw * (FP as int)) / 4) by (nonlinear_arith)
            requires
                0 <= pw,
        ;
        assert(0 <= nxt) by {
            assert(pw * z2 >= 0) by (nonlinear_arith)
                requires
                    0 <= pw && 0 <= z2,
            ;
            vstd::arithmetic::div_mod::lemma_div_pos_is_pos(pw * z2, FP as int);
        }
        assert(nxt <= pw / 4) by {
            vstd::arithmetic::div_mod::lemma_div_is_ordered(pw * z2, (pw * (FP as int)) / 4, FP as int);
            assert((pw * (FP as int)) / 4 / (FP as int) == pw / 4) by {
                vstd::arithmetic::div_mod::lemma_div_denominator(pw * (FP as int), 4, FP as int);
                vstd::arithmetic::div_mod::lemma_div_denominator(pw * (FP as int), FP as int, 4);
                assert((pw * (FP as int)) / (FP as int) == pw) by {
                    vstd::arithmetic::div_mod::lemma_div_by_multiple(pw, FP as int);
                }
            }
        }
        lemma_series_bound(z2, nxt, i + 1);
        assert(pw / (2 * i + 1) <= pw) by {
            vstd::arithmetic::div_mod::lemma_div_is_ordered_by_denominator(pw, 1, 2 * i + 1);
        }
        assert(pw / (2 * i + 1) >= 0) by {
            vstd::arithmetic::div_mod::lemma_div_pos_is_pos(pw, 2 * i + 1);
        }
        assert(2 * nxt <= pw / 2) by (nonlinear_arith)
            requires
                nxt <= pw / 4 && 0 <= pw,
        ;
    }
}

/// `ln x` at scale `2^44`, for `x` between 1 and `2^18 + 1`.
fn ln_fp(x: u64) -> (r: u128)
    requires
        1 <= x <= 0x40001,
    ensures
        r as int == spec_ln_q(x as int),
        r < 0x1000000000000,
{
    let k = floor_log2(x);
    proof {
        vstd::arithmetic::power2::lemma2_to64();
        if k >= 19 {
            assert(pow2(19) <= pow2(k as nat)) by {
                if 19 < k {
                    lemma_pow2_strictly_increases(19, k as nat);
                }
            }
        }
        vstd::bits::lemma_u64_pow2_no_overflow((44 - k) as nat);
        assert(1 * pow2((44 - k) as nat) == pow2((44 - k) as nat));
        vstd::bits::lemma_u64_shl_is_mul(1u64, (44 - k) as u64);
        assert(pow2((44 - k) as nat) * pow2(k as nat) == pow2(44)) by {
            vstd::arithmetic::power2::lemma_pow2_adds((44 - k) as nat, k as nat);
        }
        vstd::arithmetic::power2::lemma2_to64_rest();
        assert((x as int) * pow2((44 - k) as nat) < pow2((k + 1) as nat) * pow2((44 - k) as nat))
            by (nonlinear_arith)
            requires
                (x as int) < pow2((k + 1) as nat) && pow2((44 - k) as nat) > 0,
        ;
        assert(pow2((k + 1) as nat) * pow2((44 - k) as nat) == 2 * pow2(44)) by {
            vstd::arithmetic::power2::lemma_pow2_adds((k + 1) as nat, (44 - k) as nat);
            vstd::arithmetic::power2::lemma_pow2_adds(44, 1);
        }
        assert(pow2(k as nat) * pow2((44 - k) as nat) <= (x as int) * pow2((44 - k) as nat))
            by (nonlinear_arith)
            requires
                pow2(k as nat) <= (x as int) && pow2((44 - k) as nat) > 0,
        ;
    }
    proof {
        assert(pow2((44 - k) as nat) <= pow2(44)) by {
            if k > 0 {
                lemma_pow2_strictly_increases((44 - k) as nat, 44);
            }
        }
    }
    let fac: u64 = 1u64 << ((44 - k) as u64);
    let mq: u128 = (x as u128) * (fac as u128);
    let t: u128 = mq - FP;
    let u: u128 = mq + FP;
    let zat: u128 = (t * FP) / u;
    proof {
        assert((zat as int) < (FP as int) / 2) by (nonlinear_arith)
            requires
                zat as int == ((t as int) * (FP as int)) / (u as int) && (t as int) < FP as int && (
                u as int) >= 2 * (FP as int) && FP == 0x100000000000u128,
        ;
        assert((FP as int) / 2int == 0x80000000000int);
    }
    proof {
        assert((zat as int) * (zat as int) < 0x40000000000000000000000int) by (nonlinear_arith)
            requires
                0 <= (zat as int) < 0x80000000000,
        ;
    }
    let z2: u128 = (zat * zat) / FP;
    proof {
        assert((z2 as int) <= (FP as int) / 4) by (nonlinear_arith)
            requires
                z2 as int == ((zat as int) * (zat as int)) / (FP as int) && (zat as int) < (
                FP as int) / 2 && FP == 0x100000000000u128,
        ;
    }
    let mut acc: u128 = 0;
    let mut pw: u128 = zat;
    let mut i: usize = 0;
    proof {
        lemma_series_bound(z2 as int, zat as int, 0);
    }
    while i < 30
        invariant
            0 <= z2 <= FP / 4,
            pw < FP,
            i <= 30,
            acc + spec_series(z2 as int, pw as int, i as int) == spec_series(
                z2 as int,
                zat as int,
                0,
            ),
            zat < FP / 2,
        decreases 30 - i,
    {
        proof {
            lemma_series_bound(z2 as int, pw as int, i as int);
            assert((pw as int) * (z2 as int) < (FP as int) * (FP as int)) by (nonlinear_arith)
                requires
                    (pw as int) < FP as int && (z2 as int) <= (FP as int) / 4 && FP
                        == 0x100000000000u128,
            ;
            assert(((pw as int) * (z2 as int)) / (FP as int) < FP as int) by (nonlinear_arith)
                requires
                    (pw as int) * (z2 as int) < (FP as int) * (FP as int) && FP
                        == 0x100000000000u128,
            ;
            lemma_series_bound(z2 as int, ((pw as int) * (z2 as int)) / (FP as int), i as int + 1);
            assert((pw as int) / (2 * (i as int) + 1) + spec_series(
                z2 as int,
                ((pw as int) * (z2 as int)) / (FP as int),
                i as int + 1,
            ) == spec_series(z2 as int, pw as int, i as int));
        }
        proof {
            lemma_series_bound(z2 as int, zat as int, 0);
            assert(acc as int <= spec_series(z2 as int, zat as int, 0));
        }
        let term: u128 = pw / ((2 * i + 1) as u128);
        proof {
            vstd::arithmetic::div_mod::lemma_div_is_ordered_by_denominator(
                pw as int,
                1,
                2 * (i as int) + 1,
            );
        }
        acc = acc + term;
        pw = (pw * z2) / FP;
        i = i + 1;
    }
    proof {
        lemma_series_bound(z2 as int, zat as int, 0);
        assert(acc as int == spec_series(z2 as int, zat as int, 0));
        assert(acc <= 2 * zat);
        assert(LN2_Q * 19 + 2 * FP < 0x1000000000000u128);
        assert((k as int) * (LN2_Q as int) <= 18 * (LN2_Q as int)) by (nonlinear_arith)
            requires
                0 <= k <= 18,
        ;
    }
    (k as u128) * LN2_Q + 2 * acc
}

/// The LogLog-beta coefficient row for precision `p`, at scale `2^44`.
#[verifier::rlimit(60)]
fn beta_row(p: usize) -> (v: Vec<i128>)
    requires
        4 <= p <= 18,
    ensures
        v@.len() == 8,
        forall|i: int| 0 <= i < 8 ==> #[trigger] (v@[i]) as int == spec_beta_row(p as int)[i],
        forall|i: int|
            0 <= i < 8 ==> -0x200000000000000000 <= #[trigger] (v@[i]) as int
                <= 0x200000000000000000,
        -524700848307455 <= v@[0] as int <= 524700848307455,
        -551140465538973 <= v@[1] as int <= 551140465538973,
        -194909524797671 <= v@[2] as int <= 194909524797671,
        -389338957613320 <= v@[3] as int <= 389338957613320,
        -395919040368399 <= v@[4] as int <= 395919040368399,
        -211118966371535 <= v@[5] as int <= 211118966371535,
        -137460574681525584 <= v@[6] as int <= 137460574681525584,
        -6020491186662 <= v@[7] as int <= 6020491186662,
{
    let mut v: Vec<i128> = Vec::new();
    if p == 4 {
        v.push(-10248880619427i128);
        v.push(-34046163942021i128);
        v.push(194909524797671i128);
        v.push(-389338957613320i128);
        v.push(395919040368399i128);
        v.push(-211118966371535i128);
        v.push(56657032119767i128);
        v.push(-6020491186662i128);
    } else if p == 5 {
        v.push(-13227563738110i128);
        v.push(-16870959329930i128);
        v.push(98511617429736i128);
        v.push(-144427690390681i128);
        v.push(114509746596806i128);
        v.push(-47200351900055i128);
        v.push(9874302470938i128);
        v.push(-815101609794i128);
    } else if p == 6 {
        v.push(524700848307455i128);
        v.push(-551140465538973i128);
        v.push(-186376057527438i128);
        v.push(-203576998020584i128);
        v.push(67182367175029i128);
        v.push(-42502950759685i128);
        v.push(7990738474217i128);
        v.push(-1011824171640i128);
    } else if p == 7 {
        v.push(49439181973969i128);
        v.push(-69982593087137i128);
        v.push(23156031613058i128);
        v.push(-69053704232539i128);
        v.push(35326579851079i128);
        v.push(-13241905727009i128);
        v.push(2226414103173i128);
        v.push(-193419820499i128);
    } else if p == 8 {
        v.push(17703640439709i128);
        v.push(-35286524003117i128);
        v.push(28916232109297i128);
        v.push(-47597561048023i128);
        v.push(24490078716958i128);
        v.push(-8175154697499i128);
        v.push(1299056693854i128);
        v.push(-101780451783i128);
    } else if p == 9 {
        v.push(-1656419977346i128);
        v.push(-13744946642965i128);
        v.push(30173228526366i128);
        v.push(-30559606351596i128);
        v.push(15206950992993i128);
        v.push(-4190287625622i128);
        v.push(588185662874i128);
        v.push(-36566858986i128);
    } else if p == 10 {
        v.push(-4562603937370i128);
        v.push(-9253191144010i128);
        v.push(26200576585755i128);
        v.push(-22806987454862i128);
        v.push(10957250191045i128);
        v.push(-2757104882911i128);
        v.push(361416667936i128);
        v.push(-19789183371i128);
    } else if p == 11 {
        v.push(-7605551575190i128);
        v.push(-1907885531396i128);
        v.push(10716395370813i128);
        v.push(-291481063535i128);
        v.push(-1400037782802i128);
        v.push(830053173364i128);
        v.push(-137460574681525584i128);
        v.push(10278563820i128);
    } else if p == 12 {
        v.push(-6772625755170i128);
        v.push(3222224081259i128);
        v.push(2293962809682i128);
        v.push(1239965754620i128);
        v.push(-157607334221i128);
        v.push(198809359124i128);
        v.push(-34179078860i128);
        v.push(3965908078i128);
    } else if p == 13 {
        v.push(-7328072762207i128);
        v.push(-3896084627653i128);
        v.push(6836698428038i128);
        v.push(7976469511288i128);
        v.push(-6379760234563i128);
        v.push(2164656929536i128);
        v.push(-299338150072i128);
        v.push(18076035738i128);
    } else if p == 14 {
        v.push(-6526872726273i128);
        v.push(172194417722i128);
        v.push(3268562958522i128);
        v.push(3571486926667i128);
        v.push(-2053193212911i128);
        v.push(758410926247i128);
        v.push(-105479851939i128);
        v.push(7911281702i128);
    } else if p == 15 {
        v.push(-6722879501223i128);
        v.push(-15669254650955i128);
        v.push(6615072866528i128);
        v.push(17475369960404i128);
        v.push(-11536505536181i128);
        v.push(3225059733756i128);
        v.push(-394334063289i128);
        v.push(21356876796i128);
    } else if p == 16 {
        v.push(-6567493193041i128);
        v.push(-24928844937197i128);
        v.push(7165153963794i128);
        v.push(27470556316986i128);
        v.push(-17458878357985i128);
        v.push(4585347243681i128);
        v.push(-537232177600i128);
        v.push(27403385176i128);
    } else if p == 17 {
        v.push(-6469614783280i128);
        v.push(9470123970410i128);
        v.push(13540756488846i128);
        v.push(9676156833764i128);
        v.push(-13119476230619i128);
        v.push(4523273986877i128);
        v.push(-604802222625i128);
        v.push(32712519778i128);
    } else if p == 18 {
        v.push(-6417563203805i128);
        v.push(17544759679717i128);
        v.push(27330232653756i128);
        v.push(22154310863391i128);
        v.push(-26973386063312i128);
        v.push(8409248275004i128);
        v.push(-1046915419976i128);
        v.push(51206773005i128);
    }
    v
}

/// The estimate for precision `p`, zero count `zeros` and the exact
/// harmonic sum at scale `2^63`.
#[verifier::rlimit(60)]
pub fn estimate_fixed(p: usize, zeros: u32, sum63: u128) -> (r: usize)
    requires
        4 <= p <= 18,
        (zeros as int) <= spec_m(p as nat),
        sum63 as int <= spec_m(p as nat) * 0x8000000000000000,
    ensures
        r as int == spec_estimate_hll(p as nat, zeros as int, sum63 as int),
{
    proof {
        vstd::arithmetic::power2::lemma2_to64();
        vstd::arithmetic::power2::lemma2_to64_rest();
        assert(pow2(p as nat) <= pow2(18)) by {
            if p < 18 {
                lemma_pow2_strictly_increases(p as nat, 18);
            }
        }
        assert(spec_m(p as nat) >= pow2(4)) by {
            if 4 < p {
                lemma_pow2_strictly_increases(4, p as nat);
            }
        }
    }
    let zl_u: u128 = ln_fp((zeros as u64) + 1);
    let zl: i128 = zl_u as i128;
    let row = beta_row(p);
    let ghost srow = spec_beta_row(p as int);
    let r7: i128 = row[7];
    let mut r: i128 = r7;
        proof {
            lemma_step_bound(r as int, zl as int, spec_beta_row(p as int)[6], 6020491186662, 137460574681525584);
        }
        let r = horner_step(r, zl, row[6]);
        proof {
            lemma_step_bound(r as int, zl as int, spec_beta_row(p as int)[5], 137556902540512176, 211118966371535);
        }
        let r = horner_step(r, zl, row[5]);
        proof {
            lemma_step_bound(r as int, zl as int, spec_beta_row(p as int)[4], 2201121559614566351, 395919040368399);
        }
        let r = horner_step(r, zl, row[4]);
        proof {
            lemma_step_bound(r as int, zl as int, spec_beta_row(p as int)[3], 35218340872873430015, 389338957613320);
        }
        let r = horner_step(r, zl, row[3]);
        proof {
            lemma_step_bound(r as int, zl as int, spec_beta_row(p as int)[2], 563493843304932493560, 194909524797671);
        }
        let r = horner_step(r, zl, row[2]);
        proof {
            lemma_step_bound(r as int, zl as int, spec_beta_row(p as int)[1], 9015901687788444694631, 551140465538973);
        }
        let r = horner_step(r, zl, row[1]);

    proof {
        lemma_step_bound(r as int, zl as int, 0, 144254427555755580653069, 0);
    }
    let rfin = tdiv_fp(r * zl);
    proof {
        assert((r as int) * (zl as int) <= 144254427555755580653069int * 0x1000000000000int)
            by (nonlinear_arith)
            requires
                -144254427555755580653069 <= r as int <= 144254427555755580653069 && 0 <= (zl as int) < 0x1000000000000,
        ;
        assert((r as int) * (zl as int) >= -144254427555755580653069int * 0x1000000000000int)
            by (nonlinear_arith)
            requires
                -144254427555755580653069 <= r as int <= 144254427555755580653069 && 0 <= (zl as int) < 0x1000000000000,
        ;
        assert((row@[0] as int) * (zeros as int) <= 0x200000000000000000int * 0x40000int)
            by (nonlinear_arith)
            requires
                -0x200000000000000000 <= row@[0] as int <= 0x200000000000000000 && 0 <= (zeros as int) <= 0x40000,
        ;
        assert((row@[0] as int) * (zeros as int) >= -0x200000000000000000int * 0x40000int)
            by (nonlinear_arith)
            requires
                -0x200000000000000000 <= row@[0] as int <= 0x200000000000000000 && 0 <= (zeros as int) <= 0x40000,
        ;
    }
    let beta: i128 = rfin + row[0] * (zeros as i128);
    let sq: u128 = sum63 / 0x80000;
    proof {
        assert(sum63 as int / 0x80000int <= (0x40000int * 0x8000000000000000int) / 0x80000int) by {
            vstd::arithmetic::div_mod::lemma_div_is_ordered(
                sum63 as int,
                0x40000int * 0x8000000000000000int,
                0x80000,
            );
        }
        assert((0x40000int * 0x8000000000000000int) / 0x80000int
            < 0x8000000000000000000000000000000int);
    }
    let denom: i128 = (sq as i128) + beta;
    if denom <= 0 {
        proof {
            assert(spec_estimate_hll(p as nat, zeros as int, sum63 as int) == 0);
        }
        return 0;
    }
    let m: u128 = {
        proof {
            vstd::bits::lemma_usize_pow2_no_overflow(p as nat);
            assert(1 * pow2(p as nat) == pow2(p as nat));
            vstd::bits::lemma_usize_shl_is_mul(1, p);
        }
        (1usize << p) as u128
    };
    let alpha: u128 = if m == 16 {
        (673 * FP) / 1000
    } else if m == 32 {
        (697 * FP) / 1000
    } else if m == 64 {
        (709 * FP) / 1000
    } else {
        (7213 * m * FP) / (10000 * m + 10790)
    };
    proof {
        assert(spec_alpha_q(m as int) == alpha as int);
        assert(alpha < FP) by {
            if m != 16 && m != 32 && m != 64 {
                assert(7213 * (m as int) * (FP as int) < (10000 * (m as int) + 10790) * (FP as int))
                    by (nonlinear_arith)
                    requires
                        m as int >= 1 && FP == 0x100000000000u128,
                ;
                assert((7213 * (m as int) * (FP as int)) / (10000 * (m as int) + 10790) < FP as int)
                    by (nonlinear_arith)
                    requires
                        7213 * (m as int) * (FP as int) < (10000 * (m as int) + 10790) * (
                        FP as int) && 10000 * (m as int) + 10790 > 0 && 7213 * (m as int) * (
                        FP as int) >= 0,
                ;
            }
        }
        assert((m as int) * ((m as int) - zeros as int) <= 0x40000int * 0x40000int)
            by (nonlinear_arith)
            requires
                0 <= (m as int) - zeros as int <= 0x40000 && m as int <= 0x40000,
        ;
        assert((m as int) * ((m as int) - zeros as int) >= 0) by (nonlinear_arith)
            requires
                0 <= (m as int) - zeros as int && m as int >= 0,
        ;
        assert((alpha as int) * ((m as int) * ((m as int) - zeros as int)) <= (FP as int) * (
        0x40000int * 0x40000int)) by (nonlinear_arith)
            requires
                0 <= alpha as int <= FP as int && 0 <= (m as int) * ((m as int) - zeros as int)
                    <= 0x40000int * 0x40000int,
        ;
    }
    let num: u128 = alpha * (m * (m - (zeros as u128)));
    let dpos: u128 = denom as u128;
    let q: u128 = (2 * num + dpos) / (2 * dpos);
    proof {
        assert(num as int <= 0x100000000000int * (0x40000int * 0x40000int));
        assert(2 * (num as int) + (dpos as int) < 0x80000000000000000000000000000000int);
    }
    if q > (usize::MAX as u128) {
        usize::MAX
    } else {
        q as usize
    }
}

} // verus!
