//! Round-to-nearest-even, stated exactly over integers.
//!
//! A positive real that is an integer multiple of `2^-2148` (every exact
//! product of two finite binary64 values is one) is rounded to the
//! nearest representable binary64 value the way the IEEE-754 default
//! rounding does: to the nearest multiple of the unit in the last place,
//! ties to the even significand.  `round_f64` takes the real in units of
//! `2^-2148` and returns the rounded value in units of `2^-1074`.

use vstd::prelude::*;
use vstd::arithmetic::div_mod::{
    lemma_div_by_multiple, lemma_div_denominator, lemma_fundamental_div_mod,
    lemma_fundamental_div_mod_converse, lemma_mod_multiples_basic, lemma_small_mod,
    lemma_truncate_middle,
};
use vstd::arithmetic::mul::{
    lemma_mul_inequality, lemma_mul_is_commutative, lemma_mul_nonnegative,
    lemma_mul_strict_inequality,
};
use vstd::arithmetic::power2::{
    lemma2_to64, lemma2_to64_rest, lemma_pow2_adds, lemma_pow2_pos, lemma_pow2_strictly_increases,
    lemma_pow2_unfold, pow2,
};

verus! {

/// Position of the highest set bit: `bit_pos(p) == n` when
/// `2^n <= p < 2^(n+1)`; zero for `p <= 1`.
pub open spec fn bit_pos(p: int) -> nat
    decreases p,
{
    if p < 2 {
        0
    } else {
        (1 + bit_pos(p / 2)) as nat
    }
}

/// `p / q` rounded to the nearest integer, ties to the even one.
pub open spec fn rnd_div(p: int, q: int) -> int {
    let d = p / q;
    let r = p % q;
    if 2 * r < q {
        d
    } else if 2 * r > q {
        d + 1
    } else if d % 2 == 0 {
        d
    } else {
        d + 1
    }
}

/// Binary exponent of the unit in the last place of a binary64 value
/// near the positive real `p * 2^-2148`: 52 below the highest bit for
/// values at or above the smallest normal (`2^-1022`, that is
/// `bit_pos >= 1126`), pinned at `2^-1074` (position 1074) below it.
pub open spec fn ulp_exp(p: int) -> nat {
    if bit_pos(p) >= 1126 {
        (bit_pos(p) - 52) as nat
    } else {
        1074
    }
}

/// The binary64 value nearest to the non-negative real `p * 2^-2148`
/// (ties to even significand), in units of `2^-1074`.
pub open spec fn round_f64(p: int) -> int {
    if p <= 0 {
        0
    } else {
        rnd_div(p, pow2(ulp_exp(p)) as int) * pow2((ulp_exp(p) - 1074) as nat)
    }
}

/// The highest set bit brackets the number: `2^bit_pos(p) <= p` for
/// positive `p`.
pub proof fn lemma_bit_pos_bounds(p: int)
    requires
        p >= 1,
    ensures
        pow2(bit_pos(p)) <= p < pow2(bit_pos(p) + 1),
    decreases p,
{
    lemma2_to64();
    if p < 2 {
        assert(bit_pos(p) == 0);
    } else {
        lemma_bit_pos_bounds(p / 2);
        let n = bit_pos(p / 2);
        lemma_fundamental_div_mod(p, 2);
        lemma_pow2_unfold(n + 1);
        lemma_pow2_unfold(n + 2);
        assert(bit_pos(p) == n + 1);
        assert(pow2(n + 1) <= p) by {
            assert(p >= 2 * (p / 2));
            assert(2 * pow2(n) <= 2 * (p / 2));
        };
        assert(p < pow2(n + 2)) by {
            assert(p <= 2 * (p / 2) + 1);
            assert(p / 2 + 1 <= pow2(n + 1));
        };
    }
}

/// `bit_pos` is determined by any bracketing power of two.
pub proof fn lemma_bit_pos(p: int, n: nat)
    requires
        pow2(n) <= p < pow2(n + 1),
    ensures
        bit_pos(p) == n,
    decreases n,
{
    lemma2_to64();
    lemma_pow2_pos(n);
    if n == 0 {
        assert(1 <= p < 2);
    } else {
        lemma_pow2_unfold(n);
        lemma_pow2_unfold(n + 1);
        assert(p >= 2);
        lemma_fundamental_div_mod(p, 2);
        assert(pow2((n - 1) as nat) <= p / 2 < pow2(n)) by {
            assert(2 * pow2((n - 1) as nat) <= 2 * (p / 2) + p % 2);
            assert(2 * (p / 2) <= p);
            assert(p <= 2 * pow2(n) - 1);
        };
        lemma_bit_pos(p / 2, (n - 1) as nat);
    }
}

/// Nearest-rounding bounds: the rounded multiple is within half a `q`
/// of `p`, and never negative for non-negative `p`.
pub proof fn lemma_rnd_div_bounds(p: int, q: int)
    requires
        p >= 0,
        q > 0,
    ensures
        rnd_div(p, q) >= 0,
        rnd_div(p, q) * q <= p + q / 2,
        rnd_div(p, q) <= p / q + 1,
{
    lemma_fundamental_div_mod(p, q);
    let d = p / q;
    let r = p % q;
    assert(d >= 0) by {
        if d < 0 {
            lemma_mul_inequality(d, -1, q);
            lemma_mul_is_commutative(d, q);
            assert(false);
        }
    };
    assert(d * q == p - r) by {
        lemma_mul_is_commutative(d, q);
    };
    if 2 * r < q {
        assert(rnd_div(p, q) * q == p - r);
    } else {
        assert(rnd_div(p, q) <= d + 1);
        assert((d + 1) * q == p - r + q) by {
            vstd::arithmetic::mul::lemma_mul_is_distributive_add_other_way(q, d, 1);
            lemma_mul_is_commutative(d, q);
        };
        assert(p - r + q <= p + q / 2) by {
            assert(2 * r >= q);
            assert(r >= q / 2) by {
                lemma_fundamental_div_mod(q, 2);
            };
        };
        if rnd_div(p, q) == d {
            lemma_mul_nonnegative(r, 1);
            assert(d * q <= p + q / 2);
        }
    }
}

/// Rounding an exact multiple returns its factor unchanged.
pub proof fn lemma_rnd_div_exact(m: int, q: int)
    requires
        m >= 0,
        q > 0,
    ensures
        rnd_div(m * q, q) == m,
{
    lemma_mod_multiples_basic(m, q);
    lemma_div_by_multiple(m, q);
}

/// Scaling numerator and denominator by the same positive factor does
/// not change the nearest-even rounding.
pub proof fn lemma_rnd_div_scale(p: int, c: int, q: int)
    requires
        p >= 0,
        c > 0,
        q > 0,
    ensures
        rnd_div(p * c, q * c) == rnd_div(p, q),
{
    let d = p / q;
    let r = p % q;
    assert((p * c) / (q * c) == d) by {
        lemma_mul_is_commutative(p, c);
        lemma_mul_is_commutative(q, c);
        lemma_div_denominator(c * p, c, q);
        lemma_div_by_multiple(p, c);
    };
    assert((p * c) % (q * c) == r * c) by {
        lemma_truncate_middle(p, c, q);
        lemma_mul_is_commutative(p, c);
        lemma_mul_is_commutative(q, c);
        lemma_mul_is_commutative(r, c);
        assert(c * (p % q) == r * c) by {
            lemma_mul_is_commutative(c, r);
        };
    };
    assert(2 * (r * c) < q * c <==> 2 * r < q) by (nonlinear_arith)
        requires
            c > 0,
    ;
    assert(2 * (r * c) > q * c <==> 2 * r > q) by (nonlinear_arith)
        requires
            c > 0,
    ;
}

/// Executable power of two.
pub fn pow2_u128(s: u32) -> (q: u128)
    requires
        s <= 127,
    ensures
        q == pow2(s as nat),
{
    let mut q: u128 = 1;
    let mut i: u32 = 0;
    proof {
        lemma2_to64();
        lemma2_to64_rest();
        lemma_pow2_adds(63, 64);
    }
    while i < s
        invariant
            i <= s <= 127,
            q == pow2(i as nat),
        decreases s - i,
    {
        proof {
            lemma_pow2_unfold((i + 1) as nat);
            assert(pow2((i + 1) as nat) <= pow2(127)) by {
                if i + 1 < 127 {
                    lemma_pow2_strictly_increases((i + 1) as nat, 127);
                }
            };
            assert(pow2(127) == pow2(63) * pow2(64)) by {
                lemma_pow2_adds(63, 64);
            };
            lemma2_to64();
            lemma2_to64_rest();
        }
        q = q * 2;
        i = i + 1;
    }
    q
}

/// Number of bits of `p`: the least `l` with `p < 2^l`.
pub fn bit_len(p: u128) -> (l: u32)
    ensures
        (p as int) < pow2(l as nat),
        l > 0 ==> pow2((l - 1) as nat) <= p as int,
        p > 0 ==> l >= 1,
        l <= 128,
{
    let mut x: u128 = p;
    let mut l: u32 = 0;
    proof {
        lemma2_to64();
        assert(p as int / pow2(0) as int == p as int) by {
            lemma_fundamental_div_mod_converse(p as int, 1, p as int, 0);
        };
        assert(pow2(128) == pow2(64) * pow2(64)) by {
            lemma_pow2_adds(64, 64);
        };
        lemma2_to64_rest();
    }
    while x > 0
        invariant
            x as int == p as int / pow2(l as nat) as int,
            l > 0 ==> pow2((l - 1) as nat) <= p as int,
            l <= 128,
        decreases x,
    {
        proof {
            lemma_pow2_pos(l as nat);
            lemma_fundamental_div_mod(p as int, pow2(l as nat) as int);
            // x > 0 here, so p >= 2^l; and p < 2^128 caps l below 128.
            assert(pow2(l as nat) <= p as int) by {
                lemma_mul_inequality(1, x as int, pow2(l as nat) as int);
                lemma_mul_is_commutative(x as int, pow2(l as nat) as int);
            };
            assert(pow2(128) == pow2(64) * pow2(64)) by {
                lemma_pow2_adds(64, 64);
            };
            lemma2_to64();
            lemma2_to64_rest();
            assert(l < 128) by {
                if l >= 128 {
                    if l > 128 {
                        lemma_pow2_strictly_increases(128, l as nat);
                    }
                    assert(false);
                }
            };
            lemma_pow2_unfold((l + 1) as nat);
            lemma_div_denominator(p as int, pow2(l as nat) as int, 2);
            assert(pow2(l as nat) * 2 == pow2((l + 1) as nat)) by {
                lemma_mul_is_commutative(pow2(l as nat) as int, 2);
            };
        }
        x = x / 2;
        l = l + 1;
    }
    proof {
        lemma_pow2_pos(l as nat);
        lemma_fundamental_div_mod(p as int, pow2(l as nat) as int);
        vstd::arithmetic::div_mod::lemma_mod_pos_bound(p as int, pow2(l as nat) as int);
        assert(pow2(l as nat) as int * (p as int / pow2(l as nat) as int) == 0) by {
            vstd::arithmetic::mul::lemma_mul_by_zero_is_zero(pow2(l as nat) as int);
        };
        assert(p as int == p as int % pow2(l as nat) as int);
    }
    l
}

/// `p / 2^s`, rounded to the nearest integer, ties to even.
pub fn round_shift(p: u128, s: u32) -> (k: u128)
    requires
        1 <= s <= 127,
    ensures
        k as int == rnd_div(p as int, pow2(s as nat) as int),
{
    let q = pow2_u128(s);
    proof {
        lemma_pow2_pos(s as nat);
        lemma_pow2_unfold(s as nat);
    }
    let d = p / q;
    let r = p % q;
    let h = q / 2;
    proof {
        assert(h as int == pow2((s - 1) as nat)) by {
            assert(q as int == pow2((s - 1) as nat) * 2) by {
                lemma_mul_is_commutative(2, pow2((s - 1) as nat) as int);
            };
            lemma_div_by_multiple(pow2((s - 1) as nat) as int, 2);
        };
        assert(q == 2 * h);
        assert(d < u128::MAX) by {
            lemma_fundamental_div_mod(p as int, q as int);
            assert(2 * (d as int) <= q as int * d as int) by {
                lemma_mul_inequality(2, q as int, d as int);
                lemma_mul_is_commutative(q as int, d as int);
            };
        };
    }
    if r < h {
        d
    } else if r > h {
        d + 1
    } else if d % 2 == 0 {
        d
    } else {
        d + 1
    }
}

/// Rounds the exact non-negative real `p * 2^e` (`p < 2^107`) to the
/// nearest binary64 value, attaches the sign, and returns the bit
/// pattern.  This is exactly what an IEEE-754 binary64 multiplication
/// does to an exact product.
pub fn round_and_encode(neg: bool, p: u128, e: i32) -> (b: u64)
    requires
        -2148 <= e <= 1950,
        (p as int) < pow2(107),
        round_f64(p as int * pow2((e + 2148) as nat)) < pow2(2098),
    ensures
        crate::repr::is_finite_bits(b),
        crate::repr::val_of(b) == if neg {
            -round_f64(p as int * pow2((e + 2148) as nat))
        } else {
            round_f64(p as int * pow2((e + 2148) as nat))
        },
        !neg ==> !crate::repr::sign_of(b),
{
    let ghost bige: int = e + 2148;
    let ghost pp: int = p as int * pow2(bige as nat) as int;
    if p == 0 {
        proof {
            lemma_pow2_pos(bige as nat);
            assert(pp == 0) by {
                vstd::arithmetic::mul::lemma_mul_by_zero_is_zero(pow2(bige as nat) as int);
            };
            assert(crate::repr::val_of(0u64) == 0) by {
                lemma2_to64();
                lemma2_to64_rest();
                lemma_fundamental_div_mod_converse(0, 0x8000000000000000, 0, 0);
                lemma_fundamental_div_mod_converse(0, 0x10000000000000, 0, 0);
                lemma_small_mod(0, 0x800);
            };
        }
        return crate::repr::apply_sign(neg, 0);
    }
    let bl = bit_len(p);
    proof {
        lemma2_to64();
        lemma2_to64_rest();
        assert(bl <= 107) by {
            if bl >= 108 {
                if bl - 1 > 107 {
                    lemma_pow2_strictly_increases(107, (bl - 1) as nat);
                }
                assert(false);
            }
        };
        // The highest bit of p * 2^bige.
        lemma_pow2_pos(bige as nat);
        lemma_pow2_adds((bl - 1) as nat, bige as nat);
        lemma_pow2_adds(bl as nat, bige as nat);
        assert(pow2(((bl - 1) + bige) as nat) <= pp) by {
            lemma_mul_inequality(pow2((bl - 1) as nat) as int, p as int, pow2(bige as nat) as int);
        };
        assert(pp < pow2((bl + bige) as nat)) by {
            lemma_mul_strict_inequality(p as int, pow2(bl as nat) as int, pow2(bige as nat) as int);
        };
        lemma_bit_pos(pp, ((bl - 1) + bige) as nat);
    }
    let se: i32 = if (bl as i32) - 53 >= -1074 - e {
        (bl as i32) - 53
    } else {
        -1074 - e
    };
    proof {
        // The chosen shift matches the spec-level ulp exponent.
        assert(ulp_exp(pp) == (bige + se) as nat);
        assert(bige + se >= 1074);
    }
    if se <= 0 {
        // No rounding: every bit of p is kept.
        proof {
            let ghost m: int = p as int * pow2((-se) as nat) as int;
            lemma_pow2_pos((-se) as nat);
            lemma_pow2_pos((bige + se) as nat);
            lemma_pow2_adds((-se) as nat, (bige + se) as nat);
            assert(pp == m * pow2((bige + se) as nat)) by {
                assert(pow2(bige as nat) as int == pow2((-se) as nat) * pow2((bige + se) as nat));
                assert(p as int * (pow2((-se) as nat) * pow2((bige + se) as nat) as int) == (
                p as int * pow2((-se) as nat)) * pow2((bige + se) as nat)) by (nonlinear_arith);
            };
            lemma_mul_nonnegative(p as int, pow2((-se) as nat) as int);
            lemma_rnd_div_exact(m, pow2((bige + se) as nat) as int);
            lemma_pow2_adds((-se) as nat, (bige + se - 1074) as nat);
            assert(round_f64(pp) == m * pow2((bige + se - 1074) as nat));
            assert(round_f64(pp) == p as int * pow2((e + 1074) as nat)) by {
                assert(pow2((bige - 1074) as nat) as int == pow2((-se) as nat) * pow2((bige + se
                    - 1074) as nat));
                assert((p as int * pow2((-se) as nat)) * pow2((bige + se - 1074) as nat) == p as int
                    * (pow2((-se) as nat) * pow2((bige + se - 1074) as nat) as int))
                    by (nonlinear_arith);
            };
            assert(p < 0x20000000000000) by {
                if bl <= 53 {
                    if bl < 53 {
                        lemma_pow2_strictly_increases(bl as nat, 53);
                    }
                }
            };
        }
        let b0 = crate::repr::encode(p as u64, e);
        crate::repr::apply_sign(neg, b0)
    } else if se >= 109 {
        // Far below the smallest subnormal: rounds to zero.
        proof {
            assert(se == -1074 - e);
            let ghost q: int = pow2((bige + se) as nat) as int;
            lemma_pow2_pos((bige + se) as nat);
            lemma_pow2_adds(se as nat, bige as nat);
            assert(2 * pp < q) by {
                assert(2 * (p as int) < pow2(108)) by {
                    lemma_pow2_unfold(108);
                };
                assert(pow2(108) <= pow2(se as nat)) by {
                    lemma_pow2_strictly_increases(108, se as nat);
                };
                assert(2 * (p as int) * pow2(bige as nat) < pow2(se as nat) * pow2(bige as nat))
                    by {
                    lemma_mul_strict_inequality(
                        2 * (p as int),
                        pow2(se as nat) as int,
                        pow2(bige as nat) as int,
                    );
                };
                assert(2 * (p as int) * pow2(bige as nat) == 2 * (p as int * pow2(
                    bige as nat,
                ) as int)) by (nonlinear_arith);
            };
            assert(pp < q);
            assert(pp % q == pp && pp / q == 0) by {
                lemma_fundamental_div_mod_converse(pp, q, 0, pp);
            };
            assert(rnd_div(pp, q) == 0);
            assert(round_f64(pp) == 0) by {
                vstd::arithmetic::mul::lemma_mul_by_zero_is_zero(
                    pow2((bige + se - 1074) as nat) as int,
                );
            };
            lemma2_to64();
        }
        let b0 = crate::repr::encode(0, -1074);
        crate::repr::apply_sign(neg, b0)
    } else {
        let s = se as u32;
        let k128 = round_shift(p, s);
        proof {
            let ghost q: int = pow2(s as nat) as int;
            lemma_pow2_pos(s as nat);
            lemma_rnd_div_bounds(p as int, q);
            // k128 is at most 2^53.
            assert((p as int) < pow2((53 + se) as nat)) by {
                if bl < 53 + se {
                    lemma_pow2_strictly_increases(bl as nat, (53 + se) as nat);
                }
            };
            assert(p as int / q < 0x20000000000000) by {
                lemma_pow2_adds(s as nat, 53);
                assert((p as int) < q * pow2(53));
                vstd::arithmetic::div_mod::lemma_multiply_divide_lt(p as int, q, pow2(53) as int);
            };
            assert(k128 <= 0x20000000000000u128);
            // The spec rounding of pp reduces to the machine rounding of p.
            lemma_pow2_pos(bige as nat);
            lemma_pow2_adds(s as nat, bige as nat);
            lemma_rnd_div_scale(p as int, pow2(bige as nat) as int, q);
            assert(rnd_div(pp, pow2((bige + se) as nat) as int) == rnd_div(p as int, q)) by {
                assert(q * pow2(bige as nat) == pow2((se + bige) as nat)) by {
                    lemma_pow2_adds(s as nat, bige as nat);
                };
            };
            assert(round_f64(pp) == k128 as int * pow2((bige + se - 1074) as nat));
        }
        let kk: u64;
        let tt: i32;
        if k128 == 0x20000000000000u128 {
            kk = 0x10000000000000u64;
            tt = e + se + 1;
            proof {
                lemma_pow2_unfold((bige + se + 1 - 1074) as nat);
                assert(0x20000000000000 * pow2((bige + se - 1074) as nat) == 0x10000000000000 * (2
                    * pow2((bige + se - 1074) as nat))) by (nonlinear_arith);
                assert(round_f64(pp) == kk as int * pow2((tt + 1074) as nat));
            }
        } else {
            kk = k128 as u64;
            tt = e + se;
            proof {
                assert(round_f64(pp) == kk as int * pow2((tt + 1074) as nat));
            }
        }
        let b0 = crate::repr::encode(kk, tt);
        crate::repr::apply_sign(neg, b0)
    }
}

} // verus!
