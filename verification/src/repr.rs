//! The bit-level model of IEEE-754 binary64 values.
//!
//! A value is carried as its 64-bit pattern (`u64`).  The spec functions
//! here read the three fields of the pattern — sign, biased exponent,
//! fraction — and give the number it denotes as an exact integer in units
//! of `2^-1074` (the smallest positive subnormal), so that every finite
//! value, normal or subnormal, is a mathematical integer.
//!
//! `decode` and `encode` are the verified bridges between a bit pattern
//! and an integer significand/exponent pair.

use vstd::prelude::*;
use vstd::arithmetic::div_mod::{
    lemma_fundamental_div_mod, lemma_fundamental_div_mod_converse,
};
use vstd::arithmetic::mul::{
    lemma_mul_inequality, lemma_mul_is_commutative, lemma_mul_is_distributive_add_other_way,
    lemma_mul_nonnegative, lemma_mul_strict_inequality,
};
use vstd::arithmetic::power2::{
    lemma2_to64, lemma2_to64_rest, lemma_pow2_adds, lemma_pow2_pos, lemma_pow2_strictly_increases,
    lemma_pow2_unfold, pow2,
};

verus! {

/// Bit pattern of 2π (one full turn) as a binary64 value.
pub const TAU_BITS: u64 = 0x401921FB54442D18;

/// Integer significand of `TAU_BITS`: the implicit bit plus the fraction
/// field.  2π equals `TAU_SIG * 2^-50`.
pub const TAU_SIG: u64 = 0x1921FB54442D18;

/// The implicit leading significand bit, `2^52`.
pub const IMPLICIT_BIT: u64 = 0x10000000000000;

/// The sign bit, `2^63`.
pub const SIGN_BIT: u64 = 0x8000000000000000;

/// True when the sign bit of the pattern is set.
pub open spec fn sign_of(b: u64) -> bool {
    b as int / SIGN_BIT as int == 1
}

/// The biased exponent field (11 bits).
pub open spec fn exp_of(b: u64) -> int {
    (b as int / IMPLICIT_BIT as int) % 0x800
}

/// The fraction field (52 bits).
pub open spec fn frac_of(b: u64) -> int {
    b as int % IMPLICIT_BIT as int
}

/// True when the pattern denotes a finite number (not an infinity, not
/// a NaN).
pub open spec fn is_finite_bits(b: u64) -> bool {
    exp_of(b) != 0x7FF
}

/// Magnitude of the denoted finite number, in units of `2^-1074`.
pub open spec fn mag_of(b: u64) -> int {
    if exp_of(b) == 0 {
        frac_of(b)
    } else {
        (frac_of(b) + IMPLICIT_BIT) * pow2((exp_of(b) - 1) as nat)
    }
}

/// The denoted finite number, in units of `2^-1074`.
pub open spec fn val_of(b: u64) -> int {
    if sign_of(b) {
        -mag_of(b)
    } else {
        mag_of(b)
    }
}

/// One full turn, 2π, in units of `2^-1074`: `TAU_SIG * 2^1024`.
pub open spec fn tau_units() -> int {
    TAU_SIG * pow2(1024)
}

/// The magnitude of a pattern is never negative.
pub proof fn lemma_mag_nonneg(b: u64)
    ensures
        mag_of(b) >= 0,
{
    if exp_of(b) != 0 {
        lemma_pow2_pos((exp_of(b) - 1) as nat);
        lemma_mul_nonnegative(frac_of(b) + IMPLICIT_BIT, pow2((exp_of(b) - 1) as nat) as int);
    }
}

/// 2π in units of `2^-1074` lies strictly between `2^1076` and `2^1077`.
pub proof fn lemma_tau_units_bounds()
    ensures
        pow2(1076) < tau_units(),
        tau_units() < pow2(1077),
        tau_units() == TAU_SIG * pow2(1024),
{
    lemma2_to64();
    lemma2_to64_rest();
    lemma_pow2_pos(1024);
    lemma_pow2_adds(52, 1024);
    lemma_pow2_adds(53, 1024);
    assert(pow2(52) < TAU_SIG < pow2(53));
    lemma_mul_strict_inequality(pow2(52) as int, TAU_SIG as int, pow2(1024) as int);
    lemma_mul_strict_inequality(TAU_SIG as int, pow2(53) as int, pow2(1024) as int);
    lemma_mul_is_commutative(pow2(53) as int, pow2(1024) as int);
}

/// A pattern strictly below `TAU_BITS` denotes a non-negative finite
/// value strictly below 2π: on sign-free patterns the bit order is the
/// value order.
pub proof fn lemma_pos_lt_tau(b: u64)
    requires
        b < TAU_BITS,
    ensures
        !sign_of(b),
        is_finite_bits(b),
        0 <= val_of(b),
        val_of(b) == mag_of(b),
        mag_of(b) < tau_units(),
{
    lemma2_to64();
    lemma2_to64_rest();
    lemma_tau_units_bounds();
    lemma_fundamental_div_mod_converse(b as int, SIGN_BIT as int, 0, b as int);
    assert(!sign_of(b));
    lemma_fundamental_div_mod(b as int, IMPLICIT_BIT as int);
    let q = b as int / IMPLICIT_BIT as int;
    let fr = frac_of(b);
    assert(b == q * IMPLICIT_BIT + fr) by {
        lemma_mul_is_commutative(q, IMPLICIT_BIT as int);
    };
    assert(q <= 0x401) by {
        if q >= 0x402 {
            lemma_mul_inequality(0x402, q, IMPLICIT_BIT as int);
            assert(false);
        }
    };
    assert(exp_of(b) == q) by {
        lemma_fundamental_div_mod_converse(q, 0x800, 0, q);
    };
    lemma_mag_nonneg(b);
    if q == 0 {
        assert(mag_of(b) == fr);
        lemma_pow2_strictly_increases(52, 1076);
        assert(mag_of(b) < tau_units());
    } else if q < 0x401 {
        let p: int = pow2((q - 1) as nat) as int;
        assert(mag_of(b) == (fr + IMPLICIT_BIT) * p);
        lemma_pow2_pos((q - 1) as nat);
        lemma_mul_strict_inequality(fr + IMPLICIT_BIT, pow2(53) as int, p);
        assert(pow2(53) * p <= pow2(53) * pow2(1023) as int) by {
            if q - 1 < 1023 {
                lemma_pow2_strictly_increases((q - 1) as nat, 1023);
            }
            lemma_mul_inequality(p, pow2(1023) as int, pow2(53) as int);
            lemma_mul_is_commutative(p, pow2(53) as int);
            lemma_mul_is_commutative(pow2(1023) as int, pow2(53) as int);
        };
        lemma_pow2_adds(53, 1023);
        lemma_pow2_strictly_increases(1076, 1077);
        assert(mag_of(b) < tau_units());
    } else {
        // q == 0x401: compare the fraction fields.
        assert(fr < 0x921FB54442D18);
        assert(mag_of(b) == (fr + IMPLICIT_BIT) * pow2(1024));
        lemma_pow2_pos(1024);
        lemma_mul_strict_inequality(fr + IMPLICIT_BIT, TAU_SIG as int, pow2(1024) as int);
        assert(mag_of(b) < tau_units());
    }
}

/// A finite sign-free pattern at or above `TAU_BITS` denotes a value at
/// or above 2π.
pub proof fn lemma_pos_ge_tau(b: u64)
    requires
        TAU_BITS <= b,
        b < SIGN_BIT,
        is_finite_bits(b),
    ensures
        !sign_of(b),
        val_of(b) >= tau_units(),
        exp_of(b) >= 0x401,
{
    lemma2_to64();
    lemma2_to64_rest();
    lemma_tau_units_bounds();
    lemma_fundamental_div_mod_converse(b as int, SIGN_BIT as int, 0, b as int);
    lemma_fundamental_div_mod(b as int, IMPLICIT_BIT as int);
    let q = b as int / IMPLICIT_BIT as int;
    let fr = frac_of(b);
    assert(b == q * IMPLICIT_BIT + fr) by {
        lemma_mul_is_commutative(q, IMPLICIT_BIT as int);
    };
    assert(q < 0x800) by {
        if q >= 0x800 {
            lemma_mul_inequality(0x800, q, IMPLICIT_BIT as int);
            assert(false);
        }
    };
    assert(exp_of(b) == q) by {
        lemma_fundamental_div_mod_converse(q, 0x800, 0, q);
    };
    assert(q >= 0x401) by {
        if q <= 0x400 {
            lemma_mul_inequality(q, 0x400, IMPLICIT_BIT as int);
            assert(false);
        }
    };
    if q == 0x401 {
        assert(fr >= 0x921FB54442D18);
        assert(mag_of(b) == (fr + IMPLICIT_BIT) * pow2(1024));
        lemma_pow2_pos(1024);
        lemma_mul_inequality(TAU_SIG as int, fr + IMPLICIT_BIT, pow2(1024) as int);
        assert(mag_of(b) >= tau_units());
    } else {
        let p: int = pow2((q - 1) as nat) as int;
        assert(mag_of(b) == (fr + IMPLICIT_BIT) * p);
        assert(pow2(1025) <= p) by {
            if 1025 < q - 1 {
                lemma_pow2_strictly_increases(1025, (q - 1) as nat);
            }
        };
        assert(pow2(52) * pow2(1025) as int <= (fr + IMPLICIT_BIT) * p) by {
            lemma_mul_inequality(pow2(1025) as int, p, pow2(52) as int);
            lemma_mul_is_commutative(pow2(1025) as int, pow2(52) as int);
            lemma_mul_is_commutative(p, pow2(52) as int);
            lemma_mul_inequality(pow2(52) as int, fr + IMPLICIT_BIT, p);
            lemma_mul_is_commutative(pow2(52) as int, p);
        };
        lemma_pow2_adds(52, 1025);
        assert(mag_of(b) >= pow2(1077));
        assert(mag_of(b) >= tau_units());
    }
}

/// Clearing the sign bit keeps the exponent and fraction fields, hence
/// the magnitude, of a pattern.
pub proof fn lemma_mag_strip(b: u64)
    ensures
        !sign_of(b % SIGN_BIT),
        exp_of(b % SIGN_BIT) == exp_of(b),
        frac_of(b % SIGN_BIT) == frac_of(b),
        mag_of(b % SIGN_BIT) == mag_of(b),
        is_finite_bits(b % SIGN_BIT) == is_finite_bits(b),
        sign_of(b) ==> b as int == SIGN_BIT + b % SIGN_BIT,
{
    lemma2_to64();
    lemma2_to64_rest();
    let s = b as int / SIGN_BIT as int;
    let mb = b as int % SIGN_BIT as int;
    lemma_fundamental_div_mod(b as int, SIGN_BIT as int);
    assert(b == s * SIGN_BIT + mb) by {
        lemma_mul_is_commutative(s, SIGN_BIT as int);
    };
    assert(0 <= s <= 1) by {
        if s >= 2 {
            lemma_mul_inequality(2, s, SIGN_BIT as int);
            assert(false);
        }
        if s < 0 {
            lemma_mul_inequality(s, -1, SIGN_BIT as int);
            assert(false);
        }
    };
    lemma_fundamental_div_mod_converse(mb, SIGN_BIT as int, 0, mb);
    lemma_fundamental_div_mod(mb, IMPLICIT_BIT as int);
    let qm = mb / IMPLICIT_BIT as int;
    let fm = mb % IMPLICIT_BIT as int;
    assert(b as int == (s * 0x800 + qm) * IMPLICIT_BIT + fm) by {
        lemma_mul_is_distributive_add_other_way(IMPLICIT_BIT as int, s * 0x800, qm);
        assert((s * 0x800) * IMPLICIT_BIT as int == s * SIGN_BIT) by (nonlinear_arith);
        lemma_mul_is_commutative(qm, IMPLICIT_BIT as int);
    };
    assert(qm < 0x800) by {
        if qm >= 0x800 {
            lemma_mul_inequality(0x800, qm, IMPLICIT_BIT as int);
            assert(false);
        }
    };
    assert(qm >= 0);
    lemma_fundamental_div_mod_converse(b as int, IMPLICIT_BIT as int, s * 0x800 + qm, fm);
    assert(frac_of(b) == fm);
    assert(exp_of(b) == (s * 0x800 + qm) % 0x800);
    assert((s * 0x800 + qm) % 0x800 == qm) by {
        vstd::arithmetic::div_mod::lemma_mod_multiples_vanish(s, qm, 0x800);
        lemma_fundamental_div_mod_converse(qm, 0x800, 0, qm);
    };
    assert(exp_of(b % SIGN_BIT) == qm) by {
        lemma_fundamental_div_mod_converse(qm, 0x800, 0, qm);
    };
}

/// Splits a pattern into sign, integer significand and exponent:
/// the denoted magnitude is exactly `m * 2^(e - 1074 + 1074)` units,
/// that is `m * 2^e` in real value.
pub fn decode(bits: u64) -> (r: (bool, u64, i32))
    requires
        is_finite_bits(bits),
    ensures
        ({
            let (neg, m, e) = r;
            &&& neg == sign_of(bits)
            &&& m < 0x20000000000000u64
            &&& -1074 <= e <= 971
            &&& mag_of(bits) == m * pow2((e + 1074) as nat)
            &&& (exp_of(bits) == 0 ==> e == -1074)
            &&& (exp_of(bits) != 0 ==> e == exp_of(bits) - 1075)
        }),
{
    let neg: bool = bits / SIGN_BIT == 1;
    let ef: u64 = (bits / IMPLICIT_BIT) % 0x800;
    let fr: u64 = bits % IMPLICIT_BIT;
    proof {
        assert(ef == exp_of(bits));
        assert(fr == frac_of(bits));
        assert(ef <= 0x7FF) by {
            assert((bits as int / IMPLICIT_BIT as int) % 0x800 < 0x800);
        };
    }
    if ef == 0 {
        proof {
            lemma2_to64();
            assert(mag_of(bits) == fr * pow2(0)) by {
                assert(pow2(0) == 1);
            };
        }
        (neg, fr, -1074i32)
    } else {
        let e: i32 = ef as i32 - 1075;
        proof {
            assert(mag_of(bits) == (fr + IMPLICIT_BIT) * pow2((ef - 1) as nat));
            assert((e + 1074) as nat == (ef - 1) as nat);
        }
        (neg, fr + IMPLICIT_BIT, e)
    }
}

/// Packs a non-negative finite value, given as integer significand `m`
/// and exponent `e` (value `m * 2^e`, i.e. `m * 2^(e+1074)` units), into
/// its canonical bit pattern.
pub fn encode(m: u64, e: i32) -> (b: u64)
    requires
        m < 0x20000000000000u64,
        -1074 <= e,
        m * pow2((e + 1074) as nat) < pow2(2098),
    ensures
        !sign_of(b),
        is_finite_bits(b),
        val_of(b) == m * pow2((e + 1074) as nat),
{
    let mut mm: u64 = m;
    let mut ee: i32 = e;
    proof {
        lemma2_to64();
    }
    while mm < IMPLICIT_BIT && ee > -1074
        invariant
            mm < 0x20000000000000u64,
            -1074 <= ee <= e,
            mm * pow2((ee + 1074) as nat) == m * pow2((e + 1074) as nat),
        decreases ee + 1074,
    {
        proof {
            lemma_pow2_unfold((ee + 1074) as nat);
            assert((mm * 2) * pow2((ee + 1073) as nat) == mm * pow2((ee + 1074) as nat)) by {
                assert(pow2((ee + 1074) as nat) == 2 * pow2((ee + 1073) as nat));
                assert((mm * 2) * pow2((ee + 1073) as nat) == mm * (2 * pow2((ee + 1073) as nat)))
                    by (nonlinear_arith);
            };
            assert(mm < 0x10000000000000u64);
        }
        mm = mm * 2;
        ee = ee - 1;
    }
    if mm < IMPLICIT_BIT {
        // Subnormal (or zero): ee has reached the minimum exponent.
        assert(ee == -1074);
        proof {
            lemma2_to64();
            assert(pow2(0) == 1);
            assert(exp_of(mm) == 0) by {
                assert(mm as int / IMPLICIT_BIT as int == 0);
            };
            assert(!sign_of(mm)) by {
                assert(mm as int / SIGN_BIT as int == 0);
            };
            assert(frac_of(mm) == mm as int);
            assert(mag_of(mm) == mm * pow2(0));
        }
        mm
    } else {
        // Normal: the significand carries the implicit bit.
        proof {
            // The value bound caps the exponent: 2^52 * 2^(ee+1074) <= value < 2^2098.
            lemma2_to64_rest();
            lemma_pow2_adds(52, (ee + 1074) as nat);
            lemma_mul_inequality(IMPLICIT_BIT as int, mm as int, pow2((ee + 1074) as nat) as int);
            lemma_mul_is_commutative(IMPLICIT_BIT as int, pow2((ee + 1074) as nat) as int);
            lemma_mul_is_commutative(mm as int, pow2((ee + 1074) as nat) as int);
            assert(pow2((52 + ee + 1074) as nat) < pow2(2098));
            if 52 + (ee + 1074) > 2098 {
                lemma_pow2_strictly_increases(2098, (52 + ee + 1074) as nat);
                assert(false);
            }
            assert(ee <= 971);
        }
        let ef: u64 = (ee + 1075) as u64;
        let b: u64 = ef * IMPLICIT_BIT + (mm - IMPLICIT_BIT);
        proof {
            lemma2_to64();
            assert(1 <= ef <= 2046);
            assert(b < SIGN_BIT) by {
                assert(ef * IMPLICIT_BIT <= 2046 * 0x10000000000000) by {
                    lemma_mul_inequality(ef as int, 2046, IMPLICIT_BIT as int);
                };
            };
            lemma_fundamental_div_mod_converse(
                b as int,
                IMPLICIT_BIT as int,
                ef as int,
                mm - IMPLICIT_BIT,
            );
            assert(exp_of(b) == ef);
            assert(frac_of(b) == mm - IMPLICIT_BIT);
            assert(!sign_of(b)) by {
                assert(b as int / SIGN_BIT as int == 0);
            };
            assert(mag_of(b) == mm * pow2((ee + 1074) as nat));
        }
        b
    }
}

/// The all-zero pattern denotes the value zero.
pub proof fn lemma_zero_val()
    ensures
        val_of(0u64) == 0,
        mag_of(0u64) == 0,
        !sign_of(0u64),
        is_finite_bits(0u64),
        exp_of(0u64) == 0,
{
    lemma_fundamental_div_mod_converse(0, SIGN_BIT as int, 0, 0);
    lemma_fundamental_div_mod_converse(0, IMPLICIT_BIT as int, 0, 0);
}

/// The pattern `2^52` denotes the smallest positive normal value,
/// `2^-1022`, that is `2^52` units.
pub proof fn lemma_min_positive_val()
    ensures
        val_of(IMPLICIT_BIT) == pow2(52),
        !sign_of(IMPLICIT_BIT),
        is_finite_bits(IMPLICIT_BIT),
{
    lemma2_to64();
    lemma2_to64_rest();
    lemma_fundamental_div_mod_converse(IMPLICIT_BIT as int, SIGN_BIT as int, 0, IMPLICIT_BIT as int);
    lemma_fundamental_div_mod_converse(IMPLICIT_BIT as int, IMPLICIT_BIT as int, 1, 0);
    assert(exp_of(IMPLICIT_BIT) == 1) by {
        lemma_fundamental_div_mod_converse(1, 0x800, 0, 1);
    };
    assert(mag_of(IMPLICIT_BIT) == (0 + IMPLICIT_BIT) * pow2(0));
}

/// A pattern without its sign bit set is numerically below `2^63`.
pub proof fn lemma_sign_free_bound(b: u64)
    requires
        !sign_of(b),
    ensures
        b < SIGN_BIT,
{
    lemma_fundamental_div_mod(b as int, SIGN_BIT as int);
    let d = b as int / SIGN_BIT as int;
    if d >= 2 {
        lemma_mul_inequality(2, d, SIGN_BIT as int);
        lemma_mul_is_commutative(d, SIGN_BIT as int);
        assert(false);
    }
    if d < 0 {
        lemma_mul_inequality(d, -1, SIGN_BIT as int);
        lemma_mul_is_commutative(d, SIGN_BIT as int);
        assert(false);
    }
}

/// Attaches a sign to a sign-free finite pattern: the magnitude is kept,
/// the denoted value is negated when `neg` is set.
pub fn apply_sign(neg: bool, b0: u64) -> (b: u64)
    requires
        !sign_of(b0),
        is_finite_bits(b0),
    ensures
        is_finite_bits(b),
        val_of(b) == if neg {
            -val_of(b0)
        } else {
            val_of(b0)
        },
        !neg ==> b == b0,
{
    if neg {
        proof {
            assert(b0 < SIGN_BIT) by {
                lemma_fundamental_div_mod(b0 as int, SIGN_BIT as int);
                let d = b0 as int / SIGN_BIT as int;
                if d >= 2 {
                    lemma_mul_inequality(2, d, SIGN_BIT as int);
                    lemma_mul_is_commutative(d, SIGN_BIT as int);
                    assert(false);
                }
                if d < 0 {
                    lemma_mul_inequality(d, -1, SIGN_BIT as int);
                    lemma_mul_is_commutative(d, SIGN_BIT as int);
                    assert(false);
                }
            };
            let b = (SIGN_BIT + b0) as u64;
            lemma_mag_strip(b);
            assert(b as int % SIGN_BIT as int == b0) by {
                vstd::arithmetic::div_mod::lemma_mod_multiples_vanish(1, b0 as int, SIGN_BIT as int);
                lemma_fundamental_div_mod_converse(b0 as int, SIGN_BIT as int, 0, b0 as int);
            };
            assert(sign_of(b)) by {
                lemma_fundamental_div_mod_converse(b as int, SIGN_BIT as int, 1, b0 as int);
            };
        }
        SIGN_BIT + b0
    } else {
        b0
    }
}

} // verus!
