//! The 32-bit float boundary of the serialized form.
//!
//! The wire format carries the harmonic sum as the bit pattern of a 32-bit
//! IEEE float.  The library holds the sum exactly in fixed point, so this
//! module converts between the two without any floating-point arithmetic:
//! every float value is treated as the exact integer it denotes at scale
//! `2^149`, the scale of the smallest positive 32-bit float.

use vstd::prelude::*;

verus! {

use vstd::arithmetic::power2::pow2;
use vstd::arithmetic::power2::lemma_pow2_adds;
use vstd::arithmetic::power2::lemma_pow2_pos;
use vstd::arithmetic::power2::lemma_pow2_strictly_increases;
use vstd::arithmetic::power2::lemma2_to64;
use vstd::arithmetic::power2::lemma2_to64_rest;
use crate::estimate::spec_floor_log2;

/// The exact value denoted by an IEEE 32-bit float bit pattern, at scale
/// `2^149`.  Subnormals use the minimum exponent without the implicit bit;
/// the infinity and not-a-number patterns decode as huge magnitudes, which
/// keeps them outside every tolerance below.
pub open spec fn spec_f32_scaled(bits: u32) -> int {
    let e = (bits >> 23) & 0xff;
    let m = ((bits & 0x7fffff) as int);
    let mant = if e == 0 {
        m
    } else {
        m + 0x800000
    };
    let eexp = if e == 0 {
        1int
    } else {
        e as int
    };
    let mag = mant * pow2((eexp - 1) as nat);
    if bits >= 0x8000_0000 {
        -mag
    } else {
        mag
    }
}

/// Whether the float denoted by `bits` lies within one half of the exact
/// sum `sum63` (at scale `2^63`): at the common scale `2^149`, within
/// `2^148`.
pub open spec fn spec_within_half(bits: u32, sum63: int) -> bool {
    let diff = spec_f32_scaled(bits) - sum63 * pow2(86);
    -0x10000000000000000000000000000000000000 <= diff
        <= 0x10000000000000000000000000000000000000
}

/// The truncated 32-bit float of a positive fixed-point sum at scale
/// `2^63`: the top 24 bits of the sum as the mantissa, the position of its
/// leading bit as the exponent.
pub open spec fn spec_f32_of_sum(sum63: int) -> u32 {
    let b = spec_floor_log2(sum63);
    let mant24 = if b >= 23 {
        sum63 / pow2((b - 23) as nat) as int
    } else {
        sum63 * pow2((23 - b) as nat)
    };
    (((b + 64) * 0x800000) + (mant24 - 0x800000)) as u32
}

/// Powers of two in a machine double word.
pub fn pow2_u128(k: u32) -> (r: u128)
    requires
        k < 128,
    ensures
        r as int == pow2(k as nat),
{
    let mut r: u128 = 1;
    let mut i: u32 = 0;
    proof {
        lemma2_to64();
    }
    while i < k
        invariant
            i <= k < 128,
            r as int == pow2(i as nat),
        decreases k - i,
    {
        proof {
            lemma_pow2_adds(i as nat, 1);
            lemma2_to64();
            assert(pow2(i as nat + 1) <= pow2(127)) by {
                if i as nat + 1 < 127 {
                    lemma_pow2_strictly_increases(i as nat + 1, 127);
                }
            }
            assert(pow2(127) == 0x80000000000000000000000000000000) by {
                lemma_pow2_adds(64, 63);
                lemma2_to64_rest();
            }
        }
        r = r * 2;
        i = i + 1;
    }
    r
}

/// Floor of the base-two logarithm of a double-word value.
pub fn floor_log2_u128(x: u128) -> (k: u32)
    requires
        1 <= x,
    ensures
        k as int == spec_floor_log2(x as int),
        pow2(k as nat) <= x as int,
        (x as int) < pow2((k + 1) as nat),
        k < 128,
{
    let mut k: u32 = 0;
    let mut y: u128 = x;
    proof {
        lemma2_to64();
    }
    while y >= 2
        invariant
            1 <= y <= x,
            spec_floor_log2(x as int) == k + spec_floor_log2(y as int),
            pow2(k as nat) * (y as int) <= x as int,
            (x as int) < pow2(k as nat) * (y as int + 1),
            k < 128,
        decreases y,
    {
        proof {
            lemma_pow2_adds(k as nat, 1);
            lemma_pow2_pos(k as nat);
            lemma2_to64();
            assert(pow2((k + 1) as nat) * ((y as int) / 2) <= pow2(k as nat) * (y as int))
                by (nonlinear_arith)
                requires
                    pow2((k + 1) as nat) == 2 * pow2(k as nat) && y >= 2 && pow2(k as nat) > 0,
            ;
            assert(pow2(k as nat) * (y as int + 1) <= pow2((k + 1) as nat) * ((y as int) / 2 + 1))
                by (nonlinear_arith)
                requires
                    pow2((k + 1) as nat) == 2 * pow2(k as nat) && y >= 2 && pow2(k as nat) > 0,
            ;
            if k >= 127 {
                assert(pow2(127) == 0x80000000000000000000000000000000) by {
                    lemma_pow2_adds(64, 63);
                    lemma2_to64();
                    lemma2_to64_rest();
                }
                assert(pow2(k as nat) * (y as int) > u128::MAX as int) by (nonlinear_arith)
                    requires
                        y >= 2 && pow2(k as nat) >= 0x80000000000000000000000000000000,
                ;
            }
        }
        y = y / 2;
        k = k + 1;
    }
    proof {
        lemma_pow2_pos(k as nat);
        assert(pow2(k as nat) * (y as int) == pow2(k as nat)) by (nonlinear_arith)
            requires
                y == 1,
        ;
        assert(pow2(k as nat) * (y as int + 1) == 2 * pow2(k as nat)) by (nonlinear_arith)
            requires
                y == 1,
        ;
        lemma_pow2_adds(k as nat, 1);
    }
    k
}

/// Scaling an inequality by a positive power of two preserves it in both
/// directions.
proof fn lemma_scale_iff(x: int, t: int, c: int)
    requires
        c > 0,
        t >= 0,
    ensures
        (-t <= x <= t) <==> (-(t * c) <= x * c <= t * c),
{
    if -t <= x <= t {
        assert(x * c <= t * c && -(t * c) <= x * c) by (nonlinear_arith)
            requires
                c > 0 && -t <= x <= t,
        ;
    }
    if -(t * c) <= x * c <= t * c {
        assert(-t <= x <= t) by (nonlinear_arith)
            requires
                c > 0 && -(t * c) <= x * c <= t * c,
        ;
    }
}

/// Whether the float `bits` lies within one half of the exact sum, decided
/// in integer arithmetic alone.
pub fn f32_within_half(bits: u32, sum63: u128) -> (r: bool)
    requires
        sum63 as int <= 0x200000000000000000000,
    ensures
        r == spec_within_half(bits, sum63 as int),
    {
    proof {
        lemma2_to64();
        lemma2_to64_rest();
        lemma_pow2_adds(64, 22);
        lemma_pow2_adds(64, 62);
    }
    let e: u32 = (bits >> 23) & 0xff;
    let m: u32 = bits & 0x7fffff;
    proof {
        assert(e < 256) by (bit_vector)
            requires
                e == (bits >> 23) & 0xff,
        ;
        assert(m < 0x800000) by (bit_vector)
            requires
                m == bits & 0x7fffff,
        ;
    }
    let mant: u32 = if e == 0 {
        m
    } else {
        m + 0x800000
    };
    let eexp: u32 = if e == 0 {
        1
    } else {
        e
    };
    let neg: bool = bits >= 0x8000_0000;
    let ghost v149 = spec_f32_scaled(bits);
    let ghost s149 = (sum63 as int) * pow2(86);
    let ghost half = 0x10000000000000000000000000000000000000int;
    proof {
        assert(s149 >= 0 && s149 <= 0x200000000000000000000 * pow2(86)) by (nonlinear_arith)
            requires
                s149 == (sum63 as int) * pow2(86) && 0 <= sum63 as int <= 0x200000000000000000000
                    && pow2(86) > 0,
        ;
        assert(0x200000000000000000000 * pow2(86) == pow2(81) * pow2(86)) by {
            lemma_pow2_adds(64, 17);
        }
        assert(pow2(81) * pow2(86) == pow2(167)) by {
            lemma_pow2_adds(81, 86);
        }
    }
    if mant == 0 {
        // an exact zero (or a zero with stray sign): within one half of the
        // sum exactly when the sum itself is at most one half
        proof {
            assert(v149 == 0);
            assert(pow2(62) * pow2(86) == pow2(148)) by {
                lemma_pow2_adds(62, 86);
            }
            assert(half == pow2(148)) by {
                lemma_pow2_adds(84, 64);
                lemma_pow2_adds(148, 0);
                lemma_pow2_adds(74, 74);
                lemma_pow2_adds(37, 37);
                assert(pow2(37) == 0x2000000000) by {
                    lemma2_to64_rest();
                }
                assert(pow2(74) == 0x2000000000 * 0x2000000000) by {
                    lemma_pow2_adds(37, 37);
                    lemma2_to64_rest();
                }
            }
            lemma_scale_iff(sum63 as int, pow2(62) as int, pow2(86) as int);
            assert((-half <= 0 - s149 <= half) <==> (sum63 as int <= pow2(62)));
        }
        return sum63 <= 0x4000000000000000;
    }
    if eexp >= 147 {
        // at least 2^169 in magnitude: far beyond any admissible sum
        proof {
            assert(e == eexp && e >= 147);
            assert(mant >= 0x800000);
            let mag = (mant as int) * pow2((eexp - 1) as nat);
            assert(pow2((eexp - 1) as nat) >= pow2(146)) by {
                if eexp - 1 > 146 {
                    lemma_pow2_strictly_increases(146, (eexp - 1) as nat);
                }
            }
            assert(mag >= 0x800000 * pow2(146)) by (nonlinear_arith)
                requires
                    mag == (mant as int) * pow2((eexp - 1) as nat) && mant >= 0x800000 && pow2(
                        (eexp - 1) as nat,
                    ) >= pow2(146),
            ;
            assert(0x800000 * pow2(146) == pow2(169)) by {
                lemma_pow2_adds(23, 146);
            }
            assert(pow2(169) > pow2(167) + pow2(148)) by {
                lemma_pow2_adds(167, 2);
                lemma_pow2_strictly_increases(148, 167);
                lemma_pow2_strictly_increases(167, 169);
            }
            assert(half == pow2(148)) by {
                lemma2_to64_rest();
                lemma_pow2_adds(37, 37);
                assert(pow2(74) == 0x2000000000 * 0x2000000000int);
                assert(pow2(74) == 0x4000000000000000000int);
                lemma_pow2_adds(74, 74);
                assert(pow2(148) == 0x4000000000000000000int * 0x4000000000000000000int);
            }
            assert(v149 == if neg {
                -mag
            } else {
                mag
            });
        }
        return false;
    }
    proof {
        assert(half == pow2(148)) by {
            lemma2_to64_rest();
            lemma_pow2_adds(37, 37);
            assert(pow2(74) == 0x2000000000 * 0x2000000000int);
            assert(pow2(74) == 0x4000000000000000000int);
            lemma_pow2_adds(74, 74);
            assert(pow2(148) == 0x4000000000000000000int * 0x4000000000000000000int);
        }
    }
    if eexp >= 87 {
        // the float is an exact multiple of the sum scale: compare at 2^86
        let pw: u128 = pow2_u128(eexp - 87);
        proof {
            assert(pow2((eexp - 87) as nat) <= pow2(59)) by {
                if eexp - 87 < 59 {
                    lemma_pow2_strictly_increases((eexp - 87) as nat, 59);
                }
            }
            assert((mant as int) * pow2((eexp - 87) as nat) <= 0x1000000 * pow2(59))
                by (nonlinear_arith)
                requires
                    mant <= 0x1000000 && 0 <= pow2((eexp - 87) as nat) <= pow2(59),
            ;
            assert(0x1000000int * pow2(59) == pow2(83)) by {
                lemma_pow2_adds(24, 59);
            }
        }
        let v86: u128 = (mant as u128) * pw;
        proof {
            assert(0x1000000 * pow2(59) == pow2(83)) by {
                lemma_pow2_adds(24, 59);
            }
            assert((mant as int) * pow2((eexp - 87) as nat) * pow2(86) == (mant as int) * pow2(
                (eexp - 1) as nat,
            )) by {
                lemma_pow2_adds((eexp - 87) as nat, 86);
                assert((mant as int) * (pow2((eexp - 87) as nat) * pow2(86)) == ((mant as int)
                    * pow2((eexp - 87) as nat)) * pow2(86)) by (nonlinear_arith);
            }
            let x = if neg {
                -(v86 as int) - (sum63 as int)
            } else {
                (v86 as int) - (sum63 as int)
            };
            assert(x * pow2(86) == v149 - s149) by (nonlinear_arith)
                requires
                    v149 == (if neg {
                        -((v86 as int) * pow2(86))
                    } else {
                        (v86 as int) * pow2(86)
                    }) && s149 == (sum63 as int) * pow2(86) && x == (if neg {
                        -(v86 as int) - (sum63 as int)
                    } else {
                        (v86 as int) - (sum63 as int)
                    }),
            ;
            lemma_scale_iff(x, pow2(62) as int, pow2(86) as int);
            assert(pow2(62) * pow2(86) == pow2(148)) by {
                lemma_pow2_adds(62, 86);
            }
        }
        if neg {
            return (v86 + sum63) <= 0x4000000000000000;
        }
        if v86 >= sum63 {
            return (v86 - sum63) <= 0x4000000000000000;
        }
        return (sum63 - v86) <= 0x4000000000000000;
    }
    if eexp >= 41 {
        // compare at the float's own scale 2^(eexp - 1)
        let pw2s: u128 = pow2_u128(87 - eexp);
        proof {
            assert(sum63 as int <= pow2(81)) by {
                lemma_pow2_adds(64, 17);
            }
            assert(pow2((87 - eexp) as nat) <= pow2(46)) by {
                if 87 - eexp < 46 {
                    lemma_pow2_strictly_increases((87 - eexp) as nat, 46);
                }
            }
            assert((sum63 as int) * pow2((87 - eexp) as nat) <= pow2(81) * pow2(46))
                by (nonlinear_arith)
                requires
                    0 <= sum63 as int <= pow2(81) && 0 <= pow2((87 - eexp) as nat) <= pow2(46),
            ;
            assert(pow2(81) * pow2(46) == pow2(127)) by {
                lemma_pow2_adds(81, 46);
            }
            assert(pow2(127) == 0x80000000000000000000000000000000) by {
                lemma_pow2_adds(64, 63);
            }
        }
        let s_sc: u128 = sum63 * pw2s;
        let thresh: u128 = pow2_u128(149 - eexp);
        proof {
            assert(s_sc <= 0x80000000000000000000000000000000u128);
            assert(pow2(128) == 0x100000000000000000000000000000000) by {
                lemma_pow2_adds(64, 64);
            }
            assert(pow2((149 - eexp) as nat) <= pow2(108)) by {
                if 149 - eexp < 108 {
                    lemma_pow2_strictly_increases((149 - eexp) as nat, 108);
                }
            }
            assert(pow2(108) < pow2(128)) by {
                lemma_pow2_strictly_increases(108, 128);
            }
            // the scaled difference is the true difference over 2^(eexp-1)
            assert((sum63 as int) * pow2((87 - eexp) as nat) * pow2((eexp - 1) as nat) == (
            sum63 as int) * pow2(86)) by {
                lemma_pow2_adds((87 - eexp) as nat, (eexp - 1) as nat);
                assert((sum63 as int) * (pow2((87 - eexp) as nat) * pow2((eexp - 1) as nat)) == ((
                sum63 as int) * pow2((87 - eexp) as nat)) * pow2((eexp - 1) as nat))
                    by (nonlinear_arith);
            }
            assert(pow2((149 - eexp) as nat) * pow2((eexp - 1) as nat) == pow2(148)) by {
                lemma_pow2_adds((149 - eexp) as nat, (eexp - 1) as nat);
            }
            let x = if neg {
                -(mant as int) - (s_sc as int)
            } else {
                (mant as int) - (s_sc as int)
            };
            assert(x * pow2((eexp - 1) as nat) == v149 - s149) by (nonlinear_arith)
                requires
                    v149 == (if neg {
                        -((mant as int) * pow2((eexp - 1) as nat))
                    } else {
                        (mant as int) * pow2((eexp - 1) as nat)
                    }) && s149 == ((s_sc as int) * pow2((eexp - 1) as nat)) && x == (if neg {
                        -(mant as int) - (s_sc as int)
                    } else {
                        (mant as int) - (s_sc as int)
                    }),
            ;
            lemma_scale_iff(x, pow2((149 - eexp) as nat) as int, pow2((eexp - 1) as nat) as int);
        }
        if neg {
            return (s_sc + (mant as u128)) <= thresh;
        }
        if (mant as u128) >= s_sc {
            return ((mant as u128) - s_sc) <= thresh;
        }
        return (s_sc - (mant as u128)) <= thresh;
    }
    // a tiny float, below one unit of the sum scale: only the sum decides
    proof {
        let mag = (mant as int) * pow2((eexp - 1) as nat);
        assert(pow2((eexp - 1) as nat) <= pow2(39)) by {
            if eexp - 1 < 39 {
                lemma_pow2_strictly_increases((eexp - 1) as nat, 39);
            }
        }
        lemma_pow2_pos((eexp - 1) as nat);
        assert(0 < mag <= 0x1000000 * pow2(39)) by (nonlinear_arith)
            requires
                mag == (mant as int) * pow2((eexp - 1) as nat) && 0 < mant <= 0x1000000 && 0 < pow2(
                    (eexp - 1) as nat,
                ) <= pow2(39),
        ;
        assert(0x1000000 * pow2(39) == pow2(63)) by {
            lemma_pow2_adds(24, 39);
        }
        assert(pow2(63) < pow2(86)) by {
            lemma_pow2_strictly_increases(63, 86);
        }
        assert(pow2(62) * pow2(86) == pow2(148)) by {
            lemma_pow2_adds(62, 86);
        }
        assert(v149 == if neg {
            -mag
        } else {
            mag
        });
        if neg {
            // within tolerance exactly when the sum is strictly below one half
            if sum63 < 0x4000000000000000 {
                assert(s149 <= (pow2(62) - 1) * pow2(86)) by (nonlinear_arith)
                    requires
                        s149 == (sum63 as int) * pow2(86) && sum63 as int <= pow2(62) - 1 && pow2(
                            86,
                        ) > 0,
                ;
                assert((pow2(62) - 1) * pow2(86) == pow2(148) - pow2(86)) by (nonlinear_arith)
                    requires
                        pow2(62) * pow2(86) == pow2(148),
                ;
            } else {
                assert(s149 >= pow2(62) * pow2(86)) by (nonlinear_arith)
                    requires
                        s149 == (sum63 as int) * pow2(86) && sum63 as int >= pow2(62) && pow2(86)
                            > 0,
                ;
            }
        } else {
            if sum63 <= 0x4000000000000000 {
                assert(s149 <= pow2(62) * pow2(86)) by (nonlinear_arith)
                    requires
                        s149 == (sum63 as int) * pow2(86) && sum63 as int <= pow2(62) && pow2(86)
                            > 0,
                ;
            } else {
                assert(s149 >= (pow2(62) + 1) * pow2(86)) by (nonlinear_arith)
                    requires
                        s149 == (sum63 as int) * pow2(86) && sum63 as int >= pow2(62) + 1 && pow2(
                            86,
                        ) > 0,
                ;
                assert((pow2(62) + 1) * pow2(86) == pow2(148) + pow2(86)) by (nonlinear_arith)
                    requires
                        pow2(62) * pow2(86) == pow2(148),
                ;
            }
        }
    }
    if neg {
        sum63 < 0x4000000000000000
    } else {
        sum63 <= 0x4000000000000000
    }
}


/// Packing an exponent and 23 low mantissa bits into a float word, read
/// back field by field.
proof fn lemma_f32_pack(bb: u32, r: u32)
    by (bit_vector)
    requires
        64 <= bb <= 145,
        r < 0x800000,
    ensures
        ((((bb * 0x800000 + r) as u32) >> 23) & 0xff) == bb,
        (((bb * 0x800000 + r) as u32) & 0x7fffff) == r,
        ((bb * 0x800000 + r) as u32) < 0x8000_0000u32,
{
}

/// The truncated float bit pattern of the exact harmonic sum.  The
/// truncation error is below one register unit, far inside the tolerance
/// that deserialization later checks, so a serialized sum always reads
/// back as valid.
pub fn f32_bits_of_sum(sum63: u128) -> (bits: u32)
    requires
        1 <= sum63,
        sum63 as int <= 0x200000000000000000000,
    ensures
        bits == spec_f32_of_sum(sum63 as int),
        spec_within_half(bits, sum63 as int),
{
    proof {
        lemma2_to64();
        lemma2_to64_rest();
    }
    let b = floor_log2_u128(sum63);
    proof {
        assert(sum63 as int <= pow2(81)) by {
            lemma_pow2_adds(64, 17);
        }
        if b >= 82 {
            lemma_pow2_strictly_increases(81, b as nat);
        }
    }
    let bits: u32;
    let ghost mut mant24: int = 0int;
    if b >= 23 {
        let pw = pow2_u128(b - 23);
        proof {
            lemma_pow2_pos((b - 23) as nat);
        }
        let q = sum63 / pw;
        proof {
            // the quotient is a 24-bit mantissa with its top bit set
            assert(pow2(b as nat) == pow2(23) * pow2((b - 23) as nat)) by {
                lemma_pow2_adds(23, (b - 23) as nat);
            }
            assert(pow2((b + 1) as nat) == pow2(24) * pow2((b - 23) as nat)) by {
                lemma_pow2_adds(24, (b - 23) as nat);
            }
            assert(q as int == (sum63 as int) / pow2((b - 23) as nat) as int);
            assert(q as int >= pow2(23)) by (nonlinear_arith)
                requires
                    q as int == (sum63 as int) / pow2((b - 23) as nat) as int && sum63 as int
                        >= pow2(23) * pow2((b - 23) as nat) && pow2((b - 23) as nat) > 0,
            ;
            assert((q as int) < pow2(24)) by (nonlinear_arith)
                requires
                    q as int == (sum63 as int) / pow2((b - 23) as nat) as int && (sum63 as int)
                        < pow2(24) * pow2((b - 23) as nat) && pow2((b - 23) as nat) > 0,
            ;
        }
        bits = (b + 64) * 0x800000 + ((q as u32) - 0x800000);
        proof {
            mant24 = q as int;
            lemma_f32_pack((b + 64) as u32, (q - 0x800000) as u32);
        }
    } else {
        let pw = pow2_u128(23 - b);
        proof {
            lemma_pow2_pos((23 - b) as nat);
            assert(pow2((b + 1) as nat) * pow2((23 - b) as nat) == pow2(24)) by {
                lemma_pow2_adds((b + 1) as nat, (23 - b) as nat);
            }
            assert(pow2(b as nat) * pow2((23 - b) as nat) == pow2(23)) by {
                lemma_pow2_adds(b as nat, (23 - b) as nat);
            }
            assert((sum63 as int) * pow2((23 - b) as nat) < pow2(24)) by (nonlinear_arith)
                requires
                    (sum63 as int) < pow2((b + 1) as nat) && pow2((b + 1) as nat) * pow2(
                        (23 - b) as nat,
                    ) == pow2(24) && pow2((23 - b) as nat) > 0,
            ;
            assert((sum63 as int) * pow2((23 - b) as nat) >= pow2(23)) by (nonlinear_arith)
                requires
                    (sum63 as int) >= pow2(b as nat) && pow2(b as nat) * pow2((23 - b) as nat)
                        == pow2(23) && pow2((23 - b) as nat) > 0,
            ;
        }
        let q = sum63 * pw;
        bits = (b + 64) * 0x800000 + ((q as u32) - 0x800000);
        proof {
            mant24 = q as int;
            lemma_f32_pack((b + 64) as u32, (q - 0x800000) as u32);
        }
    }
    proof {
        // the packed word decodes to mantissa `mant24` at exponent `b + 64`
        let e = (bits >> 23) & 0xff;
        assert(e == b + 64);
        assert(spec_f32_scaled(bits) == mant24 * pow2((b + 63) as nat));
        let s149 = (sum63 as int) * pow2(86);
        if b >= 23 {
            vstd::arithmetic::div_mod::lemma_fundamental_div_mod(
                sum63 as int,
                pow2((b - 23) as nat) as int,
            );
            let rem = (sum63 as int) % (pow2((b - 23) as nat) as int);
            assert(0 <= rem < pow2((b - 23) as nat)) by {
                vstd::arithmetic::div_mod::lemma_mod_bound(
                    sum63 as int,
                    pow2((b - 23) as nat) as int,
                );
            }
            assert(pow2((b - 23) as nat) * pow2(86) == pow2((b + 63) as nat)) by {
                lemma_pow2_adds((b - 23) as nat, 86);
            }
            assert(s149 == mant24 * pow2((b + 63) as nat) + rem * pow2(86)) by (nonlinear_arith)
                requires
                    sum63 as int == pow2((b - 23) as nat) * mant24 + rem && s149 == (sum63 as int)
                        * pow2(86) && pow2((b - 23) as nat) * pow2(86) == pow2((b + 63) as nat),
            ;
            lemma_pow2_pos(86);
            assert(rem * pow2(86) < pow2((b + 63) as nat)) by (nonlinear_arith)
                requires
                    0 <= rem && rem < pow2((b - 23) as nat) && pow2((b - 23) as nat) * pow2(86)
                        == pow2((b + 63) as nat) && pow2(86) > 0,
            ;
            assert(pow2((b + 63) as nat) <= pow2(144)) by {
                if b + 63 < 144 {
                    lemma_pow2_strictly_increases((b + 63) as nat, 144);
                }
            }
            assert(pow2(144) < pow2(148)) by {
                lemma_pow2_strictly_increases(144, 148);
            }
            assert(pow2(148) == 0x10000000000000000000000000000000000000int) by {
                lemma_pow2_adds(37, 37);
                assert(pow2(74) == 0x2000000000 * 0x2000000000int);
                assert(pow2(74) == 0x4000000000000000000int);
                lemma_pow2_adds(74, 74);
                assert(pow2(148) == 0x4000000000000000000int * 0x4000000000000000000int);
            }
        } else {
            assert(pow2((23 - b) as nat) * pow2((b + 63) as nat) == pow2(86)) by {
                lemma_pow2_adds((23 - b) as nat, (b + 63) as nat);
            }
            assert(mant24 * pow2((b + 63) as nat) == s149) by (nonlinear_arith)
                requires
                    mant24 == (sum63 as int) * pow2((23 - b) as nat) && s149 == (sum63 as int)
                        * pow2(86) && pow2((23 - b) as nat) * pow2((b + 63) as nat) == pow2(86),
            ;
            assert(pow2(148) == 0x10000000000000000000000000000000000000int) by {
                lemma_pow2_adds(37, 37);
                assert(pow2(74) == 0x2000000000 * 0x2000000000int);
                assert(pow2(74) == 0x4000000000000000000int);
                lemma_pow2_adds(74, 74);
                assert(pow2(148) == 0x4000000000000000000int * 0x4000000000000000000int);
            }
        }
    }
    bits
}


/// The floor logarithm brackets its argument between two powers of two.
pub proof fn lemma_floor_log2_bounds(x: int)
    requires
        x >= 1,
    ensures
        0 <= spec_floor_log2(x),
        pow2(spec_floor_log2(x) as nat) <= x,
        x < pow2((spec_floor_log2(x) + 1) as nat),
    decreases x,
{
    lemma2_to64();
    if x < 2 {
    } else {
        lemma_floor_log2_bounds(x / 2);
        let k = spec_floor_log2(x / 2);
        lemma_pow2_adds(k as nat, 1);
        assert(pow2((k + 1) as nat) == 2 * pow2(k as nat));
        assert(2 * (x / 2) <= x < 2 * (x / 2) + 2);
        assert(pow2((k + 1) as nat) <= 2 * (x / 2)) by (nonlinear_arith)
            requires
                pow2(k as nat) <= x / 2 && pow2((k + 1) as nat) == 2 * pow2(k as nat),
        ;
        lemma_pow2_adds((k + 1) as nat, 1);
        assert(x < 2 * (x / 2) + 2 <= 2 * (x / 2 + 1) <= 2 * pow2((k + 1) as nat))
            by (nonlinear_arith)
            requires
                x / 2 < pow2((k + 1) as nat) && x < 2 * (x / 2) + 2,
        ;
    }
}

/// The truncated float of an exact sum lies within the deserialization
/// tolerance of that sum: truncation drops less than one register unit.
pub proof fn lemma_f32_of_sum_within(s: int)
    requires
        1 <= s <= 0x200000000000000000000,
    ensures
        spec_within_half(spec_f32_of_sum(s), s),
{
    lemma2_to64();
    lemma2_to64_rest();
    lemma_floor_log2_bounds(s);
    let b = spec_floor_log2(s);
    assert(s <= pow2(81)) by {
        lemma_pow2_adds(64, 17);
    }
    if b >= 82 {
        lemma_pow2_strictly_increases(81, b as nat);
    }
    let bits = spec_f32_of_sum(s);
    let mant24 = if b >= 23 {
        s / pow2((b - 23) as nat) as int
    } else {
        s * pow2((23 - b) as nat)
    };
    if b >= 23 {
        lemma_pow2_pos((b - 23) as nat);
        assert(pow2(b as nat) == pow2(23) * pow2((b - 23) as nat)) by {
            lemma_pow2_adds(23, (b - 23) as nat);
        }
        assert(pow2((b + 1) as nat) == pow2(24) * pow2((b - 23) as nat)) by {
            lemma_pow2_adds(24, (b - 23) as nat);
        }
        assert(mant24 >= pow2(23)) by (nonlinear_arith)
            requires
                mant24 == s / pow2((b - 23) as nat) as int && s >= pow2(23) * pow2(
                    (b - 23) as nat,
                ) && pow2((b - 23) as nat) > 0,
        ;
        assert(mant24 < pow2(24)) by (nonlinear_arith)
            requires
                mant24 == s / pow2((b - 23) as nat) as int && s < pow2(24) * pow2((b - 23) as nat)
                    && pow2((b - 23) as nat) > 0,
        ;
    } else {
        lemma_pow2_pos((23 - b) as nat);
        assert(pow2((b + 1) as nat) * pow2((23 - b) as nat) == pow2(24)) by {
            lemma_pow2_adds((b + 1) as nat, (23 - b) as nat);
        }
        assert(pow2(b as nat) * pow2((23 - b) as nat) == pow2(23)) by {
            lemma_pow2_adds(b as nat, (23 - b) as nat);
        }
        assert(mant24 < pow2(24)) by (nonlinear_arith)
            requires
                mant24 == s * pow2((23 - b) as nat) && s < pow2((b + 1) as nat) && pow2(
                    (b + 1) as nat,
                ) * pow2((23 - b) as nat) == pow2(24) && pow2((23 - b) as nat) > 0,
        ;
        assert(mant24 >= pow2(23)) by (nonlinear_arith)
            requires
                mant24 == s * pow2((23 - b) as nat) && s >= pow2(b as nat) && pow2(b as nat)
                    * pow2((23 - b) as nat) == pow2(23) && pow2((23 - b) as nat) > 0,
        ;
    }
    lemma_f32_pack((b + 64) as u32, (mant24 - 0x800000) as u32);
    assert(bits == ((b + 64) * 0x800000 + (mant24 - 0x800000)) as u32);
    assert(bits as int == (b + 64) * 0x800000 + (mant24 - 0x800000)) by (nonlinear_arith)
        requires
            0 <= b <= 81 && 0x800000 <= mant24 < 0x1000000 && bits == ((b + 64) * 0x800000 + (
            mant24 - 0x800000)) as u32,
    ;
    let e = (bits >> 23) & 0xff;
    assert(e == b + 64);
    assert(spec_f32_scaled(bits) == mant24 * pow2((b + 63) as nat));
    let s149 = s * pow2(86);
    assert(pow2(148) == 0x10000000000000000000000000000000000000int) by {
        lemma_pow2_adds(37, 37);
        assert(pow2(74) == 0x2000000000 * 0x2000000000int);
        assert(pow2(74) == 0x4000000000000000000int);
        lemma_pow2_adds(74, 74);
        assert(pow2(148) == 0x4000000000000000000int * 0x4000000000000000000int);
    }
    if b >= 23 {
        vstd::arithmetic::div_mod::lemma_fundamental_div_mod(s, pow2((b - 23) as nat) as int);
        let rem = s % (pow2((b - 23) as nat) as int);
        assert(0 <= rem < pow2((b - 23) as nat)) by {
            vstd::arithmetic::div_mod::lemma_mod_bound(s, pow2((b - 23) as nat) as int);
        }
        assert(pow2((b - 23) as nat) * pow2(86) == pow2((b + 63) as nat)) by {
            lemma_pow2_adds((b - 23) as nat, 86);
        }
        assert(s149 == mant24 * pow2((b + 63) as nat) + rem * pow2(86)) by (nonlinear_arith)
            requires
                s == pow2((b - 23) as nat) * mant24 + rem && s149 == s * pow2(86) && pow2(
                    (b - 23) as nat,
                ) * pow2(86) == pow2((b + 63) as nat),
        ;
        lemma_pow2_pos(86);
        assert(rem * pow2(86) < pow2((b + 63) as nat)) by (nonlinear_arith)
            requires
                0 <= rem && rem < pow2((b - 23) as nat) && pow2((b - 23) as nat) * pow2(86)
                    == pow2((b + 63) as nat) && pow2(86) > 0,
        ;
        assert(pow2((b + 63) as nat) <= pow2(144)) by {
            if b + 63 < 144 {
                lemma_pow2_strictly_increases((b + 63) as nat, 144);
            }
        }
        assert(pow2(144) < pow2(148)) by {
            lemma_pow2_strictly_increases(144, 148);
        }
        assert(rem * pow2(86) >= 0) by (nonlinear_arith)
            requires
                rem >= 0 && pow2(86) > 0,
        ;
    } else {
        assert(pow2((23 - b) as nat) * pow2((b + 63) as nat) == pow2(86)) by {
            lemma_pow2_adds((23 - b) as nat, (b + 63) as nat);
        }
        assert(mant24 * pow2((b + 63) as nat) == s149) by (nonlinear_arith)
            requires
                mant24 == s * pow2((23 - b) as nat) && s149 == s * pow2(86) && pow2(
                    (23 - b) as nat,
                ) * pow2((b + 63) as nat) == pow2(86),
        ;
    }
}

} // verus!
