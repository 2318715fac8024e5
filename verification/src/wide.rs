//! Exact quotients of numbers that are wider than a machine word: the
//! difference of two products of a 64-bit factor with a 128-bit factor,
//! divided by a 128-bit number.
use vstd::prelude::*;
use vstd::arithmetic::div_mod::{lemma_fundamental_div_mod, lemma_fundamental_div_mod_converse};
use vstd::arithmetic::power2::{lemma2_to64, lemma_pow2_adds, lemma_pow2_unfold, pow2};
use crate::fixed::{quot, sat, Fixed};

verus! {

/// The magnitude at which wide quotients are clamped, `2^100`: far beyond
/// the range of the fixed-point numbers.
pub const WIDE_LIMIT: i128 = 0x10_0000_0000_0000_0000_0000_0000;

/// `v` clamped to the interval from minus to plus the wide limit.
pub open spec fn clamp_wide(v: int) -> int {
    if v < -WIDE_LIMIT {
        -WIDE_LIMIT as int
    } else if v > WIDE_LIMIT {
        WIDE_LIMIT as int
    } else {
        v
    }
}

/// The weighted difference `m1 * x1 - m2 * x2`.
pub open spec fn weighted_difference(m1: i64, x1: u128, m2: i64, x2: u128) -> int {
    m1 * x1 - m2 * x2
}

/// The quotient rounded toward zero, from the quotient rounded down and its
/// remainder: for a positive divisor `d` and `n == q * d + r` with
/// `0 <= r < d`, the quotient of `n` by `d` rounded toward zero is `q` where
/// `n` is not negative or `r` is zero, and `q + 1` elsewhere; the quotient
/// by `-d` is its negative.
pub proof fn lemma_quot_from_floor(n: int, d: int, q: int, r: int)
    requires
        d > 0,
        0 <= r < d,
        n == q * d + r,
    ensures
        quot(n, d) == if q >= 0 || r == 0 {
            q
        } else {
            q + 1
        },
        quot(n, -d) == -quot(n, d),
{
    assert(q >= 0 ==> q * d >= 0) by (nonlinear_arith)
        requires
            d > 0,
    ;
    assert(q <= -1 ==> q * d <= -d) by (nonlinear_arith)
        requires
            d > 0,
    ;
    if q >= 0 {
        lemma_fundamental_div_mod_converse(n, d, q, r);
    } else if r == 0 {
        assert(-n == (-q) * d) by (nonlinear_arith)
            requires
                n == q * d + r,
                r == 0,
        ;
        lemma_fundamental_div_mod_converse(-n, d, -q, 0);
    } else {
        assert(-n == (-q - 1) * d + (d - r)) by (nonlinear_arith)
            requires
                n == q * d + r,
        ;
        lemma_fundamental_div_mod_converse(-n, d, -q - 1, d - r);
    }
}

/// The difference `m1 * x1 - m2 * x2` divided by `d`: the quotient rounded
/// down, clamped to the wide limit, and the remainder.
///
/// The bits of `x1` and `x2` are taken from the top, and quotient and
/// remainder of the part taken so far are kept, so that no number wider
/// than 128 bits is ever formed.
pub fn weighted_difference_quotient(m1: i64, x1: u128, m2: i64, x2: u128, d: u128) -> (res: (
    i128,
    u128,
))
    requires
        d > 0,
    ensures
        res.0 == clamp_wide(weighted_difference(m1, x1, m2, x2) / (d as int)),
        res.1 == weighted_difference(m1, x1, m2, x2) % (d as int),
{
    let mut q: i128 = 0;
    let mut r: u128 = 0;
    let mut rest1: u128 = x1;
    let mut rest2: u128 = x2;
    let mut p: u128 = 0x8000_0000_0000_0000_0000_0000_0000_0000;
    let mut i: u32 = 128;
    let ghost mut exact: int = 0;
    let ghost mut top1: int = 0;
    let ghost mut top2: int = 0;
    proof {
        lemma2_to64();
        lemma_pow2_adds(64, 64);
        lemma_pow2_unfold(128);
        assert(pow2(64) * pow2(64) == 0x1_0000_0000_0000_0000_0000_0000_0000_0000) by (nonlinear_arith)
            requires
                pow2(64) == 0x1_0000_0000_0000_0000,
        ;
        assert(m1 * 0 == 0 && m2 * 0 == 0 && 0 * d == 0 && 0 * pow2(128) == 0) by (nonlinear_arith);
    }
    while i > 0
        invariant
            0 <= i <= 128,
            d > 0,
            i > 0 ==> p == pow2((i - 1) as nat),
            top1 >= 0,
            top2 >= 0,
            x1 == top1 * pow2(i as nat) + rest1,
            x2 == top2 * pow2(i as nat) + rest2,
            rest1 < pow2(i as nat),
            rest2 < pow2(i as nat),
            m1 * top1 - m2 * top2 == exact * d + r,
            r < d,
            q == clamp_wide(exact),
        decreases i,
    {
        proof {
            lemma_pow2_unfold(i as nat);
        }
        let ghost old_top1 = top1;
        let ghost old_top2 = top2;
        let ghost old_exact = exact;
        let ghost old_r = r;
        // The next bit of each factor.
        let b1: bool = rest1 >= p;
        if b1 {
            rest1 = rest1 - p;
        }
        let b2: bool = rest2 >= p;
        if b2 {
            rest2 = rest2 - p;
        }
        let ghost bit1: int = if b1 {
            1
        } else {
            0
        };
        let ghost bit2: int = if b2 {
            1
        } else {
            0
        };
        let plus: i128 = if b1 {
            m1 as i128
        } else {
            0
        };
        let minus: i128 = if b2 {
            m2 as i128
        } else {
            0
        };
        let delta: i128 = plus - minus;
        // Twice the remainder.
        let mut step: i128 = 0;
        let doubled: u128 = if r >= d - r {
            step = 1;
            r - (d - r)
        } else {
            r + r
        };
        let ghost carry: int = step as int;
        // Plus the weights of the bits.
        let next: u128;
        if delta >= 0 {
            let e: u128 = delta as u128;
            let k: u128 = e / d;
            let e2: u128 = e % d;
            proof {
                lemma_fundamental_div_mod(e as int, d as int);
                assert(k <= e) by (nonlinear_arith)
                    requires
                        e == d * k + e2,
                        d >= 1,
                        k >= 0,
                        e2 >= 0,
                ;
            }
            if doubled >= d - e2 {
                next = doubled - (d - e2);
                step = step + (k as i128) + 1;
            } else {
                next = doubled + e2;
                step = step + (k as i128);
            }
            proof {
                assert(2 * old_r + delta == step * d + next) by (nonlinear_arith)
                    requires
                        2 * old_r == carry * d + doubled,
                        delta == d * k + e2,
                        step * 1 == if doubled >= d - e2 {
                            carry + k + 1
                        } else {
                            carry + k
                        },
                        next * 1 == if doubled >= d - e2 {
                            doubled - (d - e2)
                        } else {
                            doubled + e2
                        },
                ;
            }
        } else {
            let e: u128 = (-delta) as u128;
            let k: u128 = e / d;
            let e2: u128 = e % d;
            proof {
                lemma_fundamental_div_mod(e as int, d as int);
                assert(k <= e) by (nonlinear_arith)
                    requires
                        e == d * k + e2,
                        d >= 1,
                        k >= 0,
                        e2 >= 0,
                ;
            }
            if doubled >= e2 {
                next = doubled - e2;
                step = step - (k as i128);
            } else {
                next = d - (e2 - doubled);
                step = step - (k as i128) - 1;
            }
            proof {
                assert(2 * old_r + delta == step * d + next) by (nonlinear_arith)
                    requires
                        2 * old_r == carry * d + doubled,
                        -delta == d * k + e2,
                        step * 1 == if doubled >= e2 {
                            carry - k
                        } else {
                            carry - k - 1
                        },
                        next * 1 == if doubled >= e2 {
                            doubled - e2
                        } else {
                            d - (e2 - doubled)
                        },
                ;
            }
        }
        let twice: i128 = 2 * q + step;
        q = if twice < -WIDE_LIMIT {
            -WIDE_LIMIT
        } else if twice > WIDE_LIMIT {
            WIDE_LIMIT
        } else {
            twice
        };
        proof {
            top1 = 2 * old_top1 + bit1;
            top2 = 2 * old_top2 + bit2;
            exact = 2 * old_exact + step;
            let half = pow2((i - 1) as nat);
            assert(top1 * half + rest1 == old_top1 * (2 * half) + (rest1 + bit1 * half))
                by (nonlinear_arith)
                requires
                    top1 == 2 * old_top1 + bit1,
            ;
            assert(top2 * half + rest2 == old_top2 * (2 * half) + (rest2 + bit2 * half))
                by (nonlinear_arith)
                requires
                    top2 == 2 * old_top2 + bit2,
            ;
            assert(bit1 * half == if b1 {
                half as int
            } else {
                0
            }) by (nonlinear_arith)
                requires
                    bit1 == if b1 {
                        1int
                    } else {
                        0int
                    },
            ;
            assert(bit2 * half == if b2 {
                half as int
            } else {
                0
            }) by (nonlinear_arith)
                requires
                    bit2 == if b2 {
                        1int
                    } else {
                        0int
                    },
            ;
            assert(m1 * top1 - m2 * top2 == 2 * (m1 * old_top1 - m2 * old_top2) + delta)
                by (nonlinear_arith)
                requires
                    top1 == 2 * old_top1 + bit1,
                    top2 == 2 * old_top2 + bit2,
                    delta == m1 * bit1 - m2 * bit2,
            ;
            assert(exact * d + next == 2 * (old_exact * d + old_r) + delta) by (nonlinear_arith)
                requires
                    exact == 2 * old_exact + step,
                    2 * old_r + delta == step * d + next,
            ;
        }
        r = next;
        i = i - 1;
        p = p / 2;
        proof {
            if i > 0 {
                lemma_pow2_unfold(i as nat);
            }
        }
    }
    proof {
        lemma2_to64();
        let n = weighted_difference(m1, x1, m2, x2);
        assert(top1 * 1 == top1 && top2 * 1 == top2) by (nonlinear_arith);
        assert(top1 == x1 && top2 == x2);
        lemma_fundamental_div_mod_converse(n, d as int, exact, r as int);
    }
    (q, r)
}

/// The divisor with the magnitude `d`, negative where `negative` holds.
pub open spec fn signed_divisor(d: u128, negative: bool) -> int {
    if negative {
        -(d as int)
    } else {
        d as int
    }
}

/// The difference `m1 * x1 - m2 * x2` divided by the divisor of the
/// magnitude `d` and the given sign, rounded toward zero once and
/// saturating.
pub fn weighted_difference_ratio(
    m1: i64,
    x1: u128,
    m2: i64,
    x2: u128,
    d: u128,
    negative: bool,
) -> (res: Fixed)
    requires
        d > 0,
    ensures
        res == Fixed::of(
            quot(weighted_difference(m1, x1, m2, x2), signed_divisor(d, negative)),
        ),
{
    let (q, r) = weighted_difference_quotient(m1, x1, m2, x2, d);
    let toward_zero: i128 = if q >= 0 || r == 0 {
        q
    } else {
        q + 1
    };
    let signed: i128 = if negative {
        -toward_zero
    } else {
        toward_zero
    };
    proof {
        let n = weighted_difference(m1, x1, m2, x2);
        lemma_fundamental_div_mod(n, d as int);
        assert(n == (n / (d as int)) * d + n % (d as int)) by (nonlinear_arith)
            requires
                n == d * (n / (d as int)) + n % (d as int),
        ;
        lemma_quot_from_floor(n, d as int, n / (d as int), n % (d as int));
        assert(sat(signed as int) == sat(quot(n, signed_divisor(d, negative))));
    }
    Fixed::saturate(signed)
}

} // verus!
