//! The radian unit: an angle always normalized to `[0, 2π)`.
//!
//! `normalized` states, over exact integers, what construction
//! computes on binary64 values:
//!
//! * an input already in `[0, 2π)` is kept bit-for-bit (the fast path —
//!   no rounding may perturb an already canonical value);
//! * a larger input is reduced by the exact remainder modulo 2π (the
//!   binary64 `%` is exact);
//! * a negative input is reduced by the exact remainder, then corrected
//!   by one rounded binary64 addition of 2π and a second exact
//!   remainder, which sends a sum that rounded up to exactly 2π back
//!   to zero.
//!
//! All values are in units of `2^-1074` (see [`crate::repr`]).

use vstd::prelude::*;
use crate::positive::PositiveFloat;
use crate::repr::{
    decode, encode, exp_of, is_finite_bits, lemma_mag_nonneg, lemma_mag_strip, lemma_pos_ge_tau,
    lemma_pos_lt_tau, lemma_sign_free_bound, lemma_tau_units_bounds, mag_of, sign_of, tau_units,
    val_of, IMPLICIT_BIT, SIGN_BIT, TAU_BITS, TAU_SIG,
};
use crate::round::{
    bit_pos, lemma_bit_pos_bounds, lemma_rnd_div_bounds, pow2_u128, rnd_div, round_and_encode,
    round_f64, ulp_exp,
};
use vstd::arithmetic::div_mod::{
    lemma_fundamental_div_mod, lemma_fundamental_div_mod_converse, lemma_mod_pos_bound,
    lemma_mul_mod_noop_left, lemma_truncate_middle,
};
use vstd::arithmetic::mul::{
    lemma_mul_inequality, lemma_mul_is_commutative, lemma_mul_is_distributive_sub_other_way,
    lemma_mul_nonnegative, lemma_mul_strict_inequality, lemma_mul_strict_inequality_converse,
};
use vstd::arithmetic::power2::{
    lemma2_to64, lemma2_to64_rest, lemma_pow2_adds, lemma_pow2_pos, lemma_pow2_strictly_increases,
    pow2,
};

verus! {

/// What construction from a raw value stores: the argument `v` (units
/// of `2^-1074`) normalized into `[0, 2π)` exactly as the binary64
/// algorithm does it, rounding included.
pub open spec fn normalized(v: int) -> int {
    if 0 <= v && v < tau_units() {
        v
    } else if v >= tau_units() {
        v % tau_units()
    } else {
        let a = -v;
        if a >= tau_units() {
            let rem = a % tau_units();
            if rem == 0 {
                0
            } else {
                tau_units() - rem
            }
        } else {
            let sum = round_f64((tau_units() - a) * pow2(1074));
            if sum == tau_units() {
                0
            } else {
                sum
            }
        }
    }
}

/// The binary64 product of two finite values (units of `2^-1074`):
/// the exact product, rounded to nearest, ties to even.
pub open spec fn product_rounded(v1: int, v2: int) -> int {
    if v1 * v2 >= 0 {
        round_f64(v1 * v2)
    } else {
        -round_f64(-(v1 * v2))
    }
}

/// The rounded product stays finite (no binary64 overflow: the rounded
/// magnitude is below `2^1024`, that is `2^2098` units).
pub open spec fn product_fits(v1: int, v2: int) -> bool {
    round_f64(
        if v1 * v2 >= 0 {
            v1 * v2
        } else {
            -(v1 * v2)
        },
    ) < pow2(2098)
}

/// An angle in radians: a [`PositiveFloat`] further constrained to lie
/// strictly below one full turn.  Constructed only through
/// normalization, so the invariant holds in every reachable value.
#[derive(Clone, Copy, Debug, PartialEq, Eq, Structural, PartialOrd)]
pub struct Radian {
    value: PositiveFloat,
}

impl View for Radian {
    type V = int;

    /// The angle in radians, in units of `2^-1074`.
    closed spec fn view(&self) -> int {
        self.value@
    }
}

impl Radian {
    /// The stored value is a well-formed non-negative float below 2π.
    pub closed spec fn wf(self) -> bool {
        self.value.wf() && 0 <= self.value@ < tau_units()
    }

    /// Range invariant: a well-formed angle lies in `[0, 2π)`.
    pub proof fn lemma_wf_range(self)
        requires
            self.wf(),
        ensures
            0 <= self@ < tau_units(),
    {
    }
}

/// Law: normalization always lands in `[0, 2π)`, whatever the input.
pub proof fn lemma_normalized_in_range(v: int)
    ensures
        0 <= normalized(v) < tau_units(),
{
    lemma_tau_units_bounds();
    let t = tau_units();
    if 0 <= v && v < t {
    } else if v >= t {
        lemma_mod_pos_bound(v, t);
    } else {
        let a = -v;
        if a >= t {
            lemma_mod_pos_bound(a, t);
        } else {
            lemma_round_diff_le_tau(a);
        }
    }
}

/// Law: normalization is the identity on already canonical input — a
/// value in `[0, 2π)` is stored exactly, with no drift.
pub proof fn lemma_normalized_identity(v: int)
    requires
        0 <= v < tau_units(),
    ensures
        normalized(v) == v,
{
}

/// Law: normalization is idempotent — re-normalizing a stored angle
/// changes nothing.
pub proof fn lemma_normalized_idempotent(v: int)
    ensures
        normalized(normalized(v)) == normalized(v),
{
    lemma_normalized_in_range(v);
    lemma_normalized_identity(normalized(v));
}

/// Law: no finite binary64 value in `[0, 2π)` exceeds `2π - 2^-50`,
/// the value of [`Radian::max`] — it is the largest representable angle.
pub proof fn lemma_max_is_largest(b: u64)
    requires
        is_finite_bits(b),
        0 <= val_of(b) < tau_units(),
    ensures
        val_of(b) <= tau_units() - pow2(1024),
{
    lemma2_to64();
    lemma2_to64_rest();
    lemma_tau_units_bounds();
    lemma_mag_nonneg(b);
    lemma_pow2_strictly_increases(1024, 1076);
    if sign_of(b) {
        // A non-negative value with the sign bit set is a negative zero.
        assert(val_of(b) == 0);
    } else {
        let ex = exp_of(b);
        let fr = crate::repr::frac_of(b);
        if ex == 0 {
            lemma_pow2_strictly_increases(52, 1076);
            assert(val_of(b) < pow2(52));
        } else if ex <= 1024 {
            let p: int = pow2((ex - 1) as nat) as int;
            assert(mag_of(b) == (fr + IMPLICIT_BIT) * p);
            assert(mag_of(b) < pow2(53) * p) by {
                lemma_pow2_pos((ex - 1) as nat);
                lemma_mul_strict_inequality(fr + IMPLICIT_BIT, pow2(53) as int, p);
            };
            assert(pow2(53) * p <= pow2(53) * pow2(1023) as int) by {
                if ex - 1 < 1023 {
                    lemma_pow2_strictly_increases((ex - 1) as nat, 1023);
                }
                lemma_mul_inequality(p, pow2(1023) as int, pow2(53) as int);
                lemma_mul_is_commutative(p, pow2(53) as int);
                lemma_mul_is_commutative(pow2(1023) as int, pow2(53) as int);
            };
            lemma_pow2_adds(53, 1023);
            // value < 2^1076 <= 2π - 2^1024, since 2π > 2^1076 + 2^1024.
            assert(pow2(1076) + pow2(1024) <= tau_units()) by {
                assert(tau_units() - pow2(1076) == (TAU_SIG - pow2(52)) * pow2(1024)) by {
                    lemma_pow2_adds(52, 1024);
                    lemma_mul_is_distributive_sub_other_way(
                        pow2(1024) as int,
                        TAU_SIG as int,
                        pow2(52) as int,
                    );
                };
                assert((TAU_SIG - pow2(52)) * pow2(1024) >= 1 * pow2(1024)) by {
                    lemma_mul_inequality(1, TAU_SIG - pow2(52), pow2(1024) as int);
                };
            };
        } else if ex == 1025 {
            // The binade of 2π: values are multiples of 2^1024.
            assert(mag_of(b) == (fr + IMPLICIT_BIT) * pow2(1024));
            assert(fr + IMPLICIT_BIT <= TAU_SIG - 1) by {
                lemma_pow2_pos(1024);
                if fr + IMPLICIT_BIT >= TAU_SIG {
                    lemma_mul_inequality(TAU_SIG as int, fr + IMPLICIT_BIT, pow2(1024) as int);
                    assert(false);
                }
            };
            assert((fr + IMPLICIT_BIT) * pow2(1024) <= (TAU_SIG - 1) * pow2(1024)) by {
                lemma_mul_inequality(fr + IMPLICIT_BIT, TAU_SIG - 1, pow2(1024) as int);
            };
            assert((TAU_SIG - 1) * pow2(1024) == tau_units() - pow2(1024)) by {
                lemma_mul_is_distributive_sub_other_way(pow2(1024) as int, TAU_SIG as int, 1);
            };
        } else {
            // Exponent beyond the binade of 2π: the value exceeds 2π.
            assert(mag_of(b) >= pow2(1077)) by {
                let p: int = pow2((ex - 1) as nat) as int;
                assert(pow2(1025) <= p) by {
                    if 1025 < ex - 1 {
                        lemma_pow2_strictly_increases(1025, (ex - 1) as nat);
                    }
                };
                assert(pow2(52) * pow2(1025) as int <= (fr + IMPLICIT_BIT) * p) by {
                    lemma_mul_inequality(pow2(1025) as int, p, pow2(52) as int);
                    lemma_mul_is_commutative(pow2(1025) as int, pow2(52) as int);
                    lemma_mul_is_commutative(p, pow2(52) as int);
                    lemma_mul_inequality(pow2(52) as int, fr + IMPLICIT_BIT, p);
                    lemma_mul_is_commutative(pow2(52) as int, p);
                };
                lemma_pow2_adds(52, 1025);
            };
            assert(false);
        }
    }
}

/// The rounded binary64 sum `2π - a` for `0 < a < 2π` never exceeds 2π:
/// 2π is itself representable, so rounding cannot jump past it.
pub proof fn lemma_round_diff_le_tau(a: int)
    requires
        1 <= a < tau_units(),
    ensures
        0 <= round_f64((tau_units() - a) * pow2(1074)) <= tau_units(),
{
    lemma_tau_units_bounds();
    lemma_pow2_pos(1074);
    let t = tau_units();
    let p = (t - a) * pow2(1074);
    assert(p >= 1 * pow2(1074)) by {
        lemma_mul_inequality(1, t - a, pow2(1074) as int);
    };
    let u = ulp_exp(p);
    let q: int = pow2(u) as int;
    lemma_pow2_pos(u);
    // p is below 2^2151, so its ulp exponent is at most 2098.
    assert(p < pow2(2151)) by {
        lemma_pow2_adds(1077, 1074);
        lemma_mul_strict_inequality(t - a, pow2(1077) as int, pow2(1074) as int);
    };
    lemma_bit_pos_bounds(p);
    assert(bit_pos(p) <= 2150) by {
        if bit_pos(p) >= 2151 {
            if bit_pos(p) > 2151 {
                lemma_pow2_strictly_increases(2151, bit_pos(p));
            }
            assert(false);
        }
    };
    assert(u <= 2098);
    // 2π * 2^1074 units is an exact multiple of the ulp.
    let mm = TAU_SIG as int * pow2((2098 - u) as nat) as int;
    assert(t * pow2(1074) == mm * q) by {
        lemma_pow2_adds(1024, 1074);
        lemma_pow2_adds((2098 - u) as nat, u);
        assert(TAU_SIG as int * (pow2((2098 - u) as nat) * pow2(u) as int) == (TAU_SIG as int
            * pow2((2098 - u) as nat) as int) * pow2(u) as int) by (nonlinear_arith);
        assert(TAU_SIG as int * (pow2(1024) * pow2(1074) as int) == (TAU_SIG as int * pow2(
            1024,
        ) as int) * pow2(1074) as int) by (nonlinear_arith);
    };
    lemma_rnd_div_bounds(p, q);
    let k = rnd_div(p, q);
    assert(k * q <= p + q / 2);
    assert(p + q / 2 < mm * q + q) by {
        lemma_fundamental_div_mod(q, 2);
        assert(p <= t * pow2(1074) - pow2(1074)) by {
            lemma_mul_is_distributive_sub_other_way(pow2(1074) as int, t, a);
            assert(a * pow2(1074) >= 1 * pow2(1074)) by {
                lemma_mul_inequality(1, a, pow2(1074) as int);
            };
        };
    };
    assert(k <= mm) by {
        assert(k * q < (mm + 1) * q) by {
            vstd::arithmetic::mul::lemma_mul_is_distributive_add_other_way(q, mm, 1);
        };
        lemma_mul_strict_inequality_converse(k, mm + 1, q);
    };
    let w: int = pow2((u - 1074) as nat) as int;
    lemma_pow2_pos((u - 1074) as nat);
    assert(round_f64(p) == k * w);
    lemma_mul_nonnegative(k, w);
    assert(k * w <= mm * w) by {
        lemma_mul_inequality(k, mm, w);
    };
    assert(mm * w == t) by {
        lemma_pow2_adds((2098 - u) as nat, (u - 1074) as nat);
        lemma_pow2_adds(52, 972);
        assert((TAU_SIG as int * pow2((2098 - u) as nat) as int) * pow2((u - 1074) as nat) as int
            == TAU_SIG as int * (pow2((2098 - u) as nat) * pow2((u - 1074) as nat) as int))
            by (nonlinear_arith);
        assert(pow2((2098 - u) as nat) * pow2((u - 1074) as nat) == pow2(1024));
    };
}

/// A negative value of magnitude below `2^-52` wraps to zero: the
/// rounded binary64 sum `2π - g` lands on 2π itself, and the closing
/// exact remainder sends 2π to zero.
pub proof fn lemma_tiny_negative_rounds_to_tau(g: int)
    requires
        1 <= g,
        g < pow2(1022),
    ensures
        round_f64((tau_units() - g) * pow2(1074)) == tau_units(),
{
    lemma_tau_units_bounds();
    lemma2_to64();
    lemma2_to64_rest();
    let t = tau_units();
    let tsig = TAU_SIG as int;
    let p = (t - g) * pow2(1074);
    let q: int = pow2(2098) as int;
    lemma_pow2_pos(1074);
    lemma_pow2_pos(2098);
    assert(p == tsig * q - g * pow2(1074)) by {
        lemma_mul_is_distributive_sub_other_way(pow2(1074) as int, t, g);
        lemma_pow2_adds(1024, 1074);
        assert((tsig * pow2(1024) as int) * pow2(1074) as int == tsig * (pow2(1024) * pow2(
            1074,
        ) as int)) by (nonlinear_arith);
    };
    assert(g * pow2(1074) < pow2(2096)) by {
        lemma_pow2_adds(1022, 1074);
        lemma_mul_strict_inequality(g, pow2(1022) as int, pow2(1074) as int);
    };
    assert(g * pow2(1074) >= pow2(1074)) by {
        lemma_mul_inequality(1, g, pow2(1074) as int);
    };
    // The difference still has the highest bit of 2π * 2^1074.
    assert(pow2(2150) <= p < pow2(2151)) by {
        assert(tsig * q >= (pow2(52) + 1) * q) by {
            lemma_mul_inequality(pow2(52) as int + 1, tsig, q);
        };
        assert((pow2(52) + 1) * q == pow2(2150) + q) by {
            vstd::arithmetic::mul::lemma_mul_is_distributive_add_other_way(
                q,
                pow2(52) as int,
                1,
            );
            lemma_pow2_adds(52, 2098);
        };
        lemma_pow2_strictly_increases(2096, 2098);
        assert(tsig * q < pow2(53) * q) by {
            lemma_mul_strict_inequality(tsig, pow2(53) as int, q);
        };
        lemma_pow2_adds(53, 2098);
        lemma_pow2_strictly_increases(2150, 2151);
    };
    crate::round::lemma_bit_pos(p, 2150);
    assert(ulp_exp(p) == 2098);
    let r0 = q - g * pow2(1074);
    assert(p == (tsig - 1) * q + r0) by {
        lemma_mul_is_distributive_sub_other_way(q, tsig, 1);
    };
    assert(0 <= r0 < q) by {
        lemma_pow2_strictly_increases(2096, 2098);
    };
    lemma_fundamental_div_mod_converse(p, q, tsig - 1, r0);
    assert(2 * r0 > q) by {
        lemma_pow2_strictly_increases(2097, 2098);
        assert(2 * (g * pow2(1074)) < pow2(2097)) by {
            vstd::arithmetic::power2::lemma_pow2_unfold(2097);
        };
    };
    assert(rnd_div(p, q) == tsig);
    assert(round_f64(p) == tsig * pow2(1024)) by {
        assert(round_f64(p) == rnd_div(p, q) * pow2((2098 - 1074) as nat));
    };
}

/// Reduces `m * 2^k` modulo the significand of 2π by `k` doublings.
fn mod_tau(m: u64, k: u32) -> (r: u64)
    requires
        m < 0x20000000000000u64,
        k <= 1021,
    ensures
        r < TAU_SIG,
        r as int == (m as int * pow2(k as nat)) % (TAU_SIG as int),
{
    let mut r: u64 = m % TAU_SIG;
    let mut i: u32 = 0;
    proof {
        lemma2_to64();
        assert(m as int * pow2(0) == m as int);
    }
    while i < k
        invariant
            i <= k,
            r < TAU_SIG,
            r as int == (m as int * pow2(i as nat)) % (TAU_SIG as int),
        decreases k - i,
    {
        proof {
            let x = m as int * pow2(i as nat);
            lemma_mul_nonnegative(m as int, pow2(i as nat) as int);
            lemma_mul_mod_noop_left(x, 2, TAU_SIG as int);
            vstd::arithmetic::power2::lemma_pow2_unfold((i + 1) as nat);
            assert(x * 2 == m as int * pow2((i + 1) as nat)) by {
                assert(pow2((i + 1) as nat) == 2 * pow2(i as nat));
                assert((m as int * pow2(i as nat)) * 2 == m as int * (2 * pow2(i as nat) as int))
                    by (nonlinear_arith);
            };
        }
        r = (r * 2) % TAU_SIG;
        i = i + 1;
    }
    r
}

impl Radian {
    /// The zero angle.
    fn zero() -> (r: Radian)
        ensures
            r.wf(),
            r@ == 0,
    {
        proof {
            lemma_tau_units_bounds();
        }
        Radian { value: PositiveFloat::zero() }
    }

    /// Builds an angle from any finite binary64 value (given as its bit
    /// pattern), normalizing it into `[0, 2π)`:
    ///
    /// * a value already in range is stored unchanged;
    /// * otherwise the exact remainder modulo 2π is taken, and a
    ///   negative remainder is corrected by one rounded addition of 2π
    ///   and a second exact remainder.
    ///
    /// Construction never fails on finite input; the non-finite
    /// patterns (infinities, NaNs), on which normalization is
    /// undefined, are excluded by contract.
    pub fn from(bits: u64) -> (r: Radian)
        requires
            is_finite_bits(bits),
        ensures
            r.wf(),
            r@ == normalized(val_of(bits)),
    {
        proof {
            lemma_tau_units_bounds();
            lemma2_to64();
            lemma2_to64_rest();
        }
        if bits < TAU_BITS {
            // Fast path: the value is already canonical, keep it exactly.
            proof {
                lemma_pos_lt_tau(bits);
            }
            return Radian { value: PositiveFloat::from(bits) };
        }
        let (neg, m, e) = decode(bits);
        if m == 0 {
            // A zero magnitude with the sign bit set: the value is zero.
            proof {
                assert(mag_of(bits) == 0) by {
                    vstd::arithmetic::mul::lemma_mul_by_zero_is_zero(
                        pow2((e + 1074) as nat) as int,
                    );
                };
            }
            return Radian::zero();
        }
        let mag_bits: u64 = bits % SIGN_BIT;
        proof {
            lemma_mag_strip(bits);
            if !neg {
                lemma_sign_free_bound(bits);
                lemma_fundamental_div_mod_converse(bits as int, SIGN_BIT as int, 0, bits as int);
                assert(mag_bits == bits);
            }
        }
        if !neg || mag_bits >= TAU_BITS {
            // Magnitude at or above 2π: one exact remainder.
            proof {
                lemma_pos_ge_tau(mag_bits);
                assert(e >= -50);
            }
            let k: u32 = (e + 50) as u32;
            let rm = mod_tau(m, k);
            proof {
                // mag % 2π in units: the remainder scaled back up.
                lemma_pow2_pos(1024);
                lemma_pow2_adds(k as nat, 1024);
                assert(mag_of(bits) == (m as int * pow2(k as nat)) * pow2(1024)) by {
                    assert(m as int * (pow2(k as nat) * pow2(1024) as int) == (m as int * pow2(
                        k as nat,
                    )) * pow2(1024) as int) by (nonlinear_arith);
                };
                lemma_mul_nonnegative(m as int, pow2(k as nat) as int);
                lemma_truncate_middle(m as int * pow2(k as nat), pow2(1024) as int, TAU_SIG as int);
                lemma_mul_is_commutative(pow2(1024) as int, TAU_SIG as int);
                lemma_mul_is_commutative(pow2(1024) as int, rm as int);
                assert(mag_of(bits) % tau_units() == rm as int * pow2(1024));
            }
            if rm == 0 {
                proof {
                    assert(rm as int * pow2(1024) == 0) by {
                        vstd::arithmetic::mul::lemma_mul_by_zero_is_zero(pow2(1024) as int);
                    };
                    assert(mag_of(bits) % tau_units() == 0);
                    assert(normalized(val_of(bits)) == 0);
                }
                return Radian::zero();
            }
            if !neg {
                proof {
                    assert(rm as int * pow2(1024) < tau_units()) by {
                        lemma_mul_strict_inequality(rm as int, TAU_SIG as int, pow2(1024) as int);
                    };
                    assert((rm as int) * pow2((-50 + 1074) as nat) < pow2(2098)) by {
                        lemma_pow2_strictly_increases(1077, 2098);
                    };
                }
                let eb = encode(rm, -50);
                return Radian { value: PositiveFloat::from(eb) };
            } else {
                proof {
                    assert(rm as int * pow2(1024) >= pow2(1024)) by {
                        lemma_mul_inequality(1, rm as int, pow2(1024) as int);
                    };
                    assert((TAU_SIG - rm) as int * pow2(1024) == tau_units() - rm as int * pow2(
                        1024,
                    )) by {
                        lemma_mul_is_distributive_sub_other_way(
                            pow2(1024) as int,
                            TAU_SIG as int,
                            rm as int,
                        );
                    };
                    assert((TAU_SIG - rm) as int * pow2(1024) < pow2(2098)) by {
                        lemma_mul_strict_inequality(
                            (TAU_SIG - rm) as int,
                            TAU_SIG as int,
                            pow2(1024) as int,
                        );
                        lemma_pow2_strictly_increases(1077, 2098);
                    };
                }
                let eb = encode(TAU_SIG - rm, -50);
                return Radian { value: PositiveFloat::from(eb) };
            }
        } else {
            // Negative, magnitude below 2π: the exact remainder is the
            // value itself; add 2π with binary64 rounding.
            proof {
                lemma_pos_lt_tau(mag_bits);
                assert(mag_of(bits) >= pow2((e + 1074) as nat)) by {
                    lemma_mul_inequality(1, m as int, pow2((e + 1074) as nat) as int);
                    lemma_mul_is_commutative(m as int, pow2((e + 1074) as nat) as int);
                };
                lemma_pow2_pos((e + 1074) as nat);
                assert(e <= -50) by {
                    if e >= -49 {
                        assert(m >= IMPLICIT_BIT);
                        assert(mag_of(bits) >= pow2(52) * pow2((e + 1074) as nat)) by {
                            lemma_mul_inequality(
                                pow2(52) as int,
                                m as int,
                                pow2((e + 1074) as nat) as int,
                            );
                        };
                        assert(pow2(52) * pow2((e + 1074) as nat) >= pow2(52) * pow2(1025) as int)
                            by {
                            if 1025 < e + 1074 {
                                lemma_pow2_strictly_increases(1025, (e + 1074) as nat);
                            }
                            lemma_mul_inequality(
                                pow2(1025) as int,
                                pow2((e + 1074) as nat) as int,
                                pow2(52) as int,
                            );
                            lemma_mul_is_commutative(pow2(1025) as int, pow2(52) as int);
                            lemma_mul_is_commutative(pow2((e + 1074) as nat) as int, pow2(52) as int);
                        };
                        lemma_pow2_adds(52, 1025);
                        assert(false);
                    }
                };
            }
            let d: i32 = -50 - e;
            if d >= 55 {
                // Magnitude below 2^-52: wraps all the way to zero.
                proof {
                    assert(mag_of(bits) < pow2(1022)) by {
                        lemma_mul_strict_inequality(
                            m as int,
                            pow2(53) as int,
                            pow2((e + 1074) as nat) as int,
                        );
                        lemma_mul_is_commutative(pow2(53) as int, pow2((e + 1074) as nat) as int);
                        assert(pow2((e + 1074) as nat) * pow2(53) as int <= pow2(969) * pow2(
                            53,
                        ) as int) by {
                            if e + 1074 < 969 {
                                lemma_pow2_strictly_increases((e + 1074) as nat, 969);
                            }
                            lemma_mul_inequality(
                                pow2((e + 1074) as nat) as int,
                                pow2(969) as int,
                                pow2(53) as int,
                            );
                        };
                        lemma_pow2_adds(969, 53);
                    };
                    lemma_tiny_negative_rounds_to_tau(mag_of(bits));
                }
                return Radian::zero();
            }
            let q128 = pow2_u128(d as u32);
            proof {
                assert(TAU_SIG as int * pow2(d as nat) < pow2(107)) by {
                    lemma_mul_strict_inequality(TAU_SIG as int, pow2(53) as int, pow2(d as nat) as int);
                    lemma_mul_is_commutative(pow2(53) as int, pow2(d as nat) as int);
                    assert(pow2(d as nat) * pow2(53) as int <= pow2(54) * pow2(53) as int) by {
                        if d < 54 {
                            lemma_pow2_strictly_increases(d as nat, 54);
                        }
                        lemma_mul_inequality(pow2(d as nat) as int, pow2(54) as int, pow2(53) as int);
                    };
                    lemma_pow2_adds(54, 53);
                };
                // m < TAU_SIG * 2^d, since the magnitude is below 2π.
                assert((m as int) < TAU_SIG as int * pow2(d as nat)) by {
                    lemma_pow2_pos((e + 1074) as nat);
                    lemma_pow2_adds(d as nat, (e + 1074) as nat);
                    assert((TAU_SIG as int * pow2(d as nat)) * pow2((e + 1074) as nat) == TAU_SIG
                        as int * pow2(1024)) by {
                        assert((TAU_SIG as int * pow2(d as nat)) * pow2((e + 1074) as nat) == TAU_SIG
                            as int * (pow2(d as nat) * pow2((e + 1074) as nat) as int))
                            by (nonlinear_arith);
                    };
                    lemma_mul_strict_inequality_converse(
                        m as int,
                        TAU_SIG as int * pow2(d as nat),
                        pow2((e + 1074) as nat) as int,
                    );
                };
            }
            let n: u128 = (TAU_SIG as u128) * q128 - (m as u128);
            proof {
                // n * 2^e is exactly 2π minus the magnitude.
                let ghost diff: int = (tau_units() - mag_of(bits)) * pow2(1074);
                assert(n as int * pow2((e + 2148) as nat) == diff) by {
                    lemma_pow2_pos((e + 2148) as nat);
                    lemma_mul_is_distributive_sub_other_way(
                        pow2((e + 2148) as nat) as int,
                        TAU_SIG as int * pow2(d as nat),
                        m as int,
                    );
                    lemma_pow2_adds(d as nat, (e + 2148) as nat);
                    assert((TAU_SIG as int * pow2(d as nat)) * pow2((e + 2148) as nat) == TAU_SIG
                        as int * pow2(2098)) by {
                        assert((TAU_SIG as int * pow2(d as nat)) * pow2((e + 2148) as nat) == TAU_SIG
                            as int * (pow2(d as nat) * pow2((e + 2148) as nat) as int))
                            by (nonlinear_arith);
                    };
                    lemma_pow2_adds(1024, 1074);
                    assert(TAU_SIG as int * (pow2(1024) * pow2(1074) as int) == (TAU_SIG as int
                        * pow2(1024) as int) * pow2(1074) as int) by (nonlinear_arith);
                    lemma_pow2_adds((e + 1074) as nat, 1074);
                    assert((m as int * pow2((e + 1074) as nat)) * pow2(1074) as int == m as int * (
                    pow2((e + 1074) as nat) * pow2(1074) as int)) by (nonlinear_arith);
                    lemma_mul_is_distributive_sub_other_way(
                        pow2(1074) as int,
                        tau_units(),
                        mag_of(bits),
                    );
                };
                lemma_round_diff_le_tau(mag_of(bits));
                assert(round_f64(n as int * pow2((e + 2148) as nat)) < pow2(2098)) by {
                    lemma_pow2_strictly_increases(1077, 2098);
                };
            }
            let rb = round_and_encode(false, n, e);
            if rb < TAU_BITS {
                proof {
                    lemma_pos_lt_tau(rb);
                }
                return Radian { value: PositiveFloat::from(rb) };
            } else {
                // The sum rounded up to exactly 2π: the second exact
                // remainder brings it to zero.
                proof {
                    lemma_sign_free_bound(rb);
                    lemma_pos_ge_tau(rb);
                }
                return Radian::zero();
            }
        }
    }

    /// Returns the stored angle unchanged, as the bit pattern of a
    /// binary64 value in `[0, 2π)`.
    pub fn as_float(&self) -> (r: u64)
        requires
            self.wf(),
        ensures
            val_of(r) == self@,
            is_finite_bits(r),
            !sign_of(r),
    {
        self.value.as_float()
    }

    /// Scales the angle in place: multiplies it by the given finite
    /// binary64 factor (one rounded binary64 multiplication) and
    /// re-normalizes the product into `[0, 2π)`.  Factors whose rounded
    /// product would overflow to infinity are excluded by contract.
    pub fn scale(&mut self, factor_bits: u64)
        requires
            old(self).wf(),
            is_finite_bits(factor_bits),
            product_fits(old(self)@, val_of(factor_bits)),
        ensures
            final(self).wf(),
            final(self)@ == normalized(product_rounded(old(self)@, val_of(factor_bits))),
    {
        let a_bits = self.value.as_float();
        let (_pos, m1, e1) = decode(a_bits);
        let (neg2, m2, e2) = decode(factor_bits);
        let ghost v1: int = old(self)@;
        let ghost v2: int = val_of(factor_bits);
        proof {
            lemma2_to64();
            lemma2_to64_rest();
            assert(pow2(106) == 0x20000000000000 * 0x20000000000000) by {
                lemma_pow2_adds(53, 53);
            };
            assert((m1 as int) * (m2 as int) < pow2(106)) by (nonlinear_arith)
                requires
                    m1 < 0x20000000000000u64,
                    m2 < 0x20000000000000u64,
                    pow2(106) == 0x20000000000000 * 0x20000000000000,
            ;
            lemma_pow2_strictly_increases(106, 107);
            lemma_pow2_strictly_increases(106, 128);
            assert(pow2(128) == pow2(64) * pow2(64)) by {
                lemma_pow2_adds(64, 64);
            };
        }
        let p: u128 = (m1 as u128) * (m2 as u128);
        proof {
            // |v1 * v2| == p * 2^(e1 + e2 + 2148).
            assert(mag_of(a_bits) * mag_of(factor_bits) == p as int * pow2(
                ((e1 + e2) + 2148) as nat,
            )) by {
                lemma_pow2_adds((e1 + 1074) as nat, (e2 + 1074) as nat);
                assert((m1 as int * pow2((e1 + 1074) as nat)) * (m2 as int * pow2(
                    (e2 + 1074) as nat,
                )) == (m1 as int * m2 as int) * (pow2((e1 + 1074) as nat) * pow2(
                    (e2 + 1074) as nat,
                ) as int)) by (nonlinear_arith);
            };
            assert(v1 == mag_of(a_bits));
            lemma_mag_nonneg(a_bits);
            lemma_mag_nonneg(factor_bits);
            if neg2 {
                assert(v2 == -mag_of(factor_bits));
                assert(v1 * v2 == -(mag_of(a_bits) * mag_of(factor_bits))) by (nonlinear_arith)
                    requires
                        v2 == -mag_of(factor_bits),
                        v1 == mag_of(a_bits),
                ;
            } else {
                assert(v2 == mag_of(factor_bits));
            }
            lemma_mul_nonnegative(mag_of(a_bits), mag_of(factor_bits));
            if v1 * v2 != 0 {
                assert(mag_of(a_bits) * mag_of(factor_bits) != 0);
            } else {
                assert(mag_of(a_bits) * mag_of(factor_bits) == -(v1 * v2) || mag_of(a_bits)
                    * mag_of(factor_bits) == v1 * v2);
            }
        }
        let nb = round_and_encode(neg2, p, e1 + e2);
        proof {
            // The encoded pattern denotes exactly the rounded product.
            let ghost pr = product_rounded(v1, v2);
            if v1 * v2 >= 0 {
                if neg2 && mag_of(a_bits) * mag_of(factor_bits) != 0 {
                    assert(false);
                }
                assert(val_of(nb) == pr);
            } else {
                assert(val_of(nb) == pr);
            }
        }
        *self = Radian::from(nb);
    }

    /// The smallest angle: zero radians.
    pub fn min() -> (r: Radian)
        ensures
            r.wf(),
            r@ == 0,
    {
        Radian::zero()
    }

    /// The largest angle: the greatest binary64 value strictly below
    /// one full turn, `2π - 2^-50` (that is `2π` minus `2^1024` units).
    pub fn max() -> (r: Radian)
        ensures
            r.wf(),
            r@ == tau_units() - pow2(1024),
    {
        proof {
            lemma2_to64();
            lemma2_to64_rest();
            lemma_pos_lt_tau((TAU_BITS - 1) as u64);
            lemma_fundamental_div_mod_converse(
                (TAU_BITS - 1) as int,
                IMPLICIT_BIT as int,
                0x401,
                0x921FB54442D17,
            );
            assert(exp_of((TAU_BITS - 1) as u64) == 0x401) by {
                lemma_fundamental_div_mod_converse(0x401, 0x800, 0, 0x401);
            };
            assert(mag_of((TAU_BITS - 1) as u64) == (0x921FB54442D17 + IMPLICIT_BIT) * pow2(1024));
            assert((TAU_SIG as int - 1) * pow2(1024) == tau_units() - pow2(1024)) by {
                lemma_mul_is_distributive_sub_other_way(pow2(1024) as int, TAU_SIG as int, 1);
            };
        }
        Radian { value: PositiveFloat::from(TAU_BITS - 1) }
    }
}

impl Default for Radian {
    /// The default angle is zero radians.
    fn default() -> (r: Radian)
        ensures
            r.wf(),
            r@ == 0,
    {
        Radian::zero()
    }
}

} // verus!
