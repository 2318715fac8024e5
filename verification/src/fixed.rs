//! Saturating signed fixed-point numbers with 24 fractional bits.
//!
//! A [`Fixed`] holds a 64-bit raw integer `raw` and stands for the rational
//! number `raw / 2^24`. Every operation is total: a result that does not fit
//! is clamped to the nearest representable value, and a quotient is rounded
//! toward zero.
use vstd::prelude::*;

verus! {

/// Raw value of the number one.
pub const ONE_RAW: i64 = 0x100_0000;

/// Largest raw value.
pub const RAW_MAX: i64 = 0x7fff_ffff_ffff_ffff;

/// Smallest raw value.
pub const RAW_MIN: i64 = -0x8000_0000_0000_0000;

/// Raw value of the comparison tolerance, `2^-23`.
pub const EPSILON_RAW: i64 = 2;

/// `v` clamped to the range of raw values.
pub open spec fn sat(v: int) -> int {
    if v < RAW_MIN as int {
        RAW_MIN as int
    } else if v > RAW_MAX as int {
        RAW_MAX as int
    } else {
        v
    }
}

/// Absolute value of an integer.
pub open spec fn magnitude(v: int) -> int {
    if v < 0 {
        -v
    } else {
        v
    }
}

/// Quotient of `a` by `b` rounded toward zero; zero when `b` is zero.
pub open spec fn quot(a: int, b: int) -> int {
    if b == 0 {
        0
    } else if (a >= 0) == (b > 0) {
        magnitude(a) / magnitude(b)
    } else {
        -(magnitude(a) / magnitude(b))
    }
}

/// For a dividend that is not negative and a positive divisor, the quotient
/// rounded toward zero is the quotient rounded down.
pub proof fn lemma_quot_positive(a: int, b: int)
    requires
        a >= 0,
        b > 0,
    ensures
        quot(a, b) == a / b,
{
}

/// Integer square root: the largest `r` with `r * r <= n`.
pub open spec fn isqrt(n: nat) -> nat
    decreases n,
{
    if n == 0 {
        0
    } else {
        let r = isqrt((n - 1) as nat);
        if (r + 1) * (r + 1) <= n {
            r + 1
        } else {
            r
        }
    }
}

/// The integer square root brackets its argument.
pub proof fn lemma_isqrt_bounds(n: nat)
    ensures
        isqrt(n) * isqrt(n) <= n,
        n < (isqrt(n) + 1) * (isqrt(n) + 1),
    decreases n,
{
    if n > 0 {
        lemma_isqrt_bounds((n - 1) as nat);
        let r = isqrt((n - 1) as nat);
        if (r + 1) * (r + 1) <= n {
            assert(isqrt(n) == r + 1);
            assert(n < (r + 1 + 1) * (r + 1 + 1)) by (nonlinear_arith)
                requires
                    n - 1 < (r + 1) * (r + 1),
            ;
        } else {
            assert(isqrt(n) == r);
        }
    } else {
        assert(isqrt(n) == 0);
        assert(0 < (0 + 1) * (0 + 1)) by (nonlinear_arith);
    }
}

/// Any number that brackets `n` between its square and the next square is the
/// integer square root of `n`.
pub proof fn lemma_isqrt_unique(n: nat, r: nat)
    requires
        r * r <= n,
        n < (r + 1) * (r + 1),
    ensures
        isqrt(n) == r,
{
    lemma_isqrt_bounds(n);
    let s = isqrt(n);
    if s < r {
        assert((s + 1) * (s + 1) <= r * r) by (nonlinear_arith)
            requires
                s + 1 <= r,
        ;
    } else if r < s {
        assert((r + 1) * (r + 1) <= s * s) by (nonlinear_arith)
            requires
                r + 1 <= s,
        ;
    }
}

/// The product of two raw values fits in 127 bits.
pub proof fn lemma_raw_product_bounds(a: i64, b: i64)
    ensures
        -0x4000_0000_0000_0000_0000_0000_0000_0000 < a * b
            <= 0x4000_0000_0000_0000_0000_0000_0000_0000,
{
    assert(-0x4000_0000_0000_0000_0000_0000_0000_0000 < a * b
        <= 0x4000_0000_0000_0000_0000_0000_0000_0000) by (nonlinear_arith)
        requires
            -0x8000_0000_0000_0000 <= a <= 0x7fff_ffff_ffff_ffff,
            -0x8000_0000_0000_0000 <= b <= 0x7fff_ffff_ffff_ffff,
    ;
}

/// A quotient rounded toward zero, times the divisor, misses the dividend
/// by less than the magnitude of the divisor.
pub proof fn lemma_quot_remainder(n: int, d: int)
    requires
        d != 0,
    ensures
        -magnitude(d) < n - d * quot(n, d) < magnitude(d),
{
    let m = magnitude(n);
    let e = magnitude(d);
    let k = m / e;
    let rem = m % e;
    vstd::arithmetic::div_mod::lemma_fundamental_div_mod(m, e);
    vstd::arithmetic::div_mod::lemma_mod_bound(m, e);
    assert(m == e * k + rem);
    if n >= 0 && d > 0 {
        assert(d * k == e * k);
    } else if n >= 0 && d < 0 {
        assert(d * (-k) == e * k) by (nonlinear_arith)
            requires
                d == -e,
        ;
    } else if n < 0 && d > 0 {
        assert(d * (-k) == -(e * k)) by (nonlinear_arith)
            requires
                d == e,
        ;
    } else {
        assert(d * k == -(e * k)) by (nonlinear_arith)
            requires
                d == -e,
        ;
    }
}

/// Two numbers whose difference is small against their sum have integer
/// square roots that differ by at most five: where the square of the
/// difference is at most sixteen times the sum.
pub proof fn lemma_roots_close(big: nat, small: nat)
    requires
        small <= big,
        (big - small) * (big - small) <= 16 * (big + small),
    ensures
        isqrt(small) <= isqrt(big) <= isqrt(small) + 5,
{
    lemma_isqrt_bounds(big);
    lemma_isqrt_bounds(small);
    let p = isqrt(big) as int;
    let q = isqrt(small) as int;
    if p < q {
        assert((p + 1) * (p + 1) <= q * q) by (nonlinear_arith)
            requires
                0 <= p,
                p + 1 <= q,
        ;
    }
    if p >= q + 6 {
        let t = big - small;
        assert(p * p >= (q + 6) * (q + 6)) by (nonlinear_arith)
            requires
                p >= q + 6,
                q >= 0,
        ;
        assert((q + 6) * (q + 6) == q * q + 12 * q + 36) by (nonlinear_arith);
        assert((q + 1) * (q + 1) == q * q + 2 * q + 1) by (nonlinear_arith);
        assert(t >= 10 * q + 36);
        assert(big + small <= t + 2 * (q * q) + 4 * q);
        assert(t * (t - 16) >= (10 * q + 36) * (10 * q + 20)) by (nonlinear_arith)
            requires
                t >= 10 * q + 36,
                q >= 0,
        ;
        assert((10 * q + 36) * (10 * q + 20) == 100 * (q * q) + 560 * q + 720)
            by (nonlinear_arith);
        assert(t * t == t * (t - 16) + 16 * t) by (nonlinear_arith);
        assert(q * q >= 0) by (nonlinear_arith);
        assert(false);
    }
}

/// A number of magnitude at most `den`, times the ratio of a number that
/// is not negative to `den`, has at most the magnitude of that number.
pub proof fn lemma_mul_div_bounded(v: Fixed, num: Fixed, den: Fixed)
    requires
        den.raw > 0,
        num.raw >= 0,
        -den.raw <= v.raw <= den.raw,
    ensures
        -num.raw <= v.spec_mul_div(num, den).raw <= num.raw,
{
    let p = v.raw * num.raw;
    let m = magnitude(p);
    assert(0 <= m <= den.raw * num.raw) by (nonlinear_arith)
        requires
            p == v.raw * num.raw,
            m == magnitude(p),
            num.raw >= 0,
            -den.raw <= v.raw <= den.raw,
    ;
    assert(m / (den.raw as int) <= num.raw) by (nonlinear_arith)
        requires
            0 <= m <= den.raw * num.raw,
            den.raw > 0,
    ;
    assert(m / (den.raw as int) >= 0) by (nonlinear_arith)
        requires
            0 <= m,
            den.raw > 0,
    ;
    assert(magnitude(den.raw as int) == den.raw);
}

/// The squares of two quotients and the squares of their dividends: where
/// `x` and `y` are the quotients of `a` and `b` by the positive number `d`,
/// rounded toward zero, `d * d` times the sum of the squares of `x` and `y`
/// misses the sum of the squares of `a` and `b` by at most twice
/// `d * (|a| + |b|)`.
pub proof fn lemma_squares_of_quotients(a: int, b: int, d: int)
    requires
        d > 0,
    ensures
        ({
            let x = quot(a, d);
            let y = quot(b, d);
            let low = a * a + b * b - 2 * (d * magnitude(a)) - 2 * (d * magnitude(b));
            let high = a * a + b * b + 2 * (d * magnitude(a)) + 2 * (d * magnitude(b)) + 2 * (d
                * d);
            low <= (d * d) * (x * x + y * y) <= high
        }),
{
    let x = quot(a, d);
    let y = quot(b, d);
    lemma_quot_remainder(a, d);
    lemma_quot_remainder(b, d);
    let p = a - d * x;
    let q = b - d * y;
    let dx = d * x;
    let dy = d * y;
    assert((d * d) * (x * x + y * y) == dx * dx + dy * dy) by (nonlinear_arith)
        requires
            dx == d * x,
            dy == d * y,
    ;
    assert(dx * dx == a * a - 2 * (a * p) + p * p) by (nonlinear_arith)
        requires
            dx == a - p,
    ;
    assert(dy * dy == b * b - 2 * (b * q) + q * q) by (nonlinear_arith)
        requires
            dy == b - q,
    ;
    assert(-(d * magnitude(a)) <= a * p <= d * magnitude(a)) by (nonlinear_arith)
        requires
            -d < p < d,
    ;
    assert(-(d * magnitude(b)) <= b * q <= d * magnitude(b)) by (nonlinear_arith)
        requires
            -d < q < d,
    ;
    assert(0 <= p * p <= d * d) by (nonlinear_arith)
        requires
            -d < p < d,
    ;
    assert(0 <= q * q <= d * d) by (nonlinear_arith)
        requires
            -d < q < d,
    ;
}

/// The length of a vector of the length one, stretched by `r`: where `t`
/// is one up to rounding, in squared raw units, and `w` times the square of
/// one is `r * r * t` up to the rounding of two products, the integer
/// square root of `w` is `r` up to a few raw units for each whole unit of
/// `r`.
pub proof fn lemma_stretched_length(t: int, r: int, w: nat)
    requires
        r >= 0,
        0x1_0000_0000_0000 - 0x400_0000 <= t <= 0x1_0000_0000_0000 + 0x800_0000 + 2,
        0x1_0000_0000_0000 * w <= (r * r) * t + 4 * (0x1_0000_0000_0000 * r) + 2
            * 0x1_0000_0000_0000,
        0x1_0000_0000_0000 * w >= (r * r) * t - 4 * (0x1_0000_0000_0000 * r),
    ensures
        r - (3 * (r / 0x100_0000) + 8) <= isqrt(w) <= r + 5 * (r / 0x100_0000) + 7,
{
    let q = r / 0x100_0000;
    let rr = r * r;
    let rq = r * q;
    lemma_isqrt_bounds(w);
    let root = isqrt(w) as int;
    assert(rr >= 0 && rq >= 0) by (nonlinear_arith)
        requires
            rr == r * r,
            rq == r * q,
            r >= 0,
            q >= 0,
    ;
    assert(rr <= 0x100_0000 * (rq + r)) by (nonlinear_arith)
        requires
            rr == r * r,
            rq == r * q,
            r >= 0,
            r < 0x100_0000 * (q + 1),
    ;
    assert(rr * t <= rr * (0x1_0000_0000_0000 + 0x800_0000 + 2)) by (nonlinear_arith)
        requires
            rr >= 0,
            t <= 0x1_0000_0000_0000 + 0x800_0000 + 2,
    ;
    assert(rr * t >= rr * (0x1_0000_0000_0000 - 0x400_0000)) by (nonlinear_arith)
        requires
            rr >= 0,
            t >= 0x1_0000_0000_0000 - 0x400_0000,
    ;
    // From above.
    let k = 5 * q + 7;
    let high = rr * (0x1_0000_0000_0000 + 0x800_0000 + 2);
    assert(high == 0x1_0000_0000_0000 * rr + 0x800_0002 * rr) by (nonlinear_arith)
        requires
            high == rr * (0x1_0000_0000_0000 + 0x800_0000 + 2),
    ;
    assert(0x800_0002 * rr <= 0x900_0000 * rr);
    assert(0x900_0000 * rr <= 0x900_0000 * (0x100_0000 * (rq + r)));
    assert(0x1_0000_0000_0000 * w <= 0x1_0000_0000_0000 * (rr + 9 * rq + 13 * r + 2));
    assert(w <= rr + 9 * rq + 13 * r + 2);
    assert((r + k) * (r + k) == rr + 10 * rq + 14 * r + k * k) by (nonlinear_arith)
        requires
            rr == r * r,
            rq == r * q,
            k == 5 * q + 7,
    ;
    assert(k * k >= 49) by (nonlinear_arith)
        requires
            k >= 7,
    ;
    assert(root < r + k) by (nonlinear_arith)
        requires
            root * root <= w,
            w < (r + k) * (r + k),
            root >= 0,
            r + k >= 0,
    ;
    // From below.
    let j = 3 * q + 8;
    if r > j {
        let low = rr * (0x1_0000_0000_0000 - 0x400_0000);
        assert(low == 0x1_0000_0000_0000 * rr - 0x400_0000 * rr) by (nonlinear_arith)
            requires
                low == rr * (0x1_0000_0000_0000 - 0x400_0000),
        ;
        assert(0x400_0000 * rr <= 0x400_0000 * (0x100_0000 * (rq + r)));
        assert(0x1_0000_0000_0000 * w >= 0x1_0000_0000_0000 * (rr - 4 * rq - 8 * r));
        assert(w >= rr - 4 * rq - 8 * r);
        assert((r - j) * (r - j) == rr - 6 * rq - 16 * r + j * j) by (nonlinear_arith)
            requires
                rr == r * r,
                rq == r * q,
                j == 3 * q + 8,
        ;
        assert(j * j == 9 * (q * q) + 48 * q + 64) by (nonlinear_arith)
            requires
                j == 3 * q + 8,
        ;
        assert(rq >= 0x100_0000 * (q * q)) by (nonlinear_arith)
            requires
                rq == r * q,
                r >= 0x100_0000 * q,
                q >= 0,
        ;
        assert(q * q >= q) by (nonlinear_arith)
            requires
                q >= 0,
        ;
        assert(j * j <= 2 * rq + 8 * r);
        assert((r - j) * (r - j) <= w);
        assert(root >= r - j) by (nonlinear_arith)
            requires
                (r - j) * (r - j) <= w,
                w < (root + 1) * (root + 1),
                root >= 0,
                r - j >= 0,
        ;
    }
}

/// Multiplying by one changes nothing.
pub proof fn lemma_mul_one(v: Fixed)
    ensures
        v.spec_mul(Fixed::spec_one()) == v,
{
    let m = magnitude(v.raw as int);
    assert(m * 0x100_0000 / 0x100_0000 == m);
    assert(magnitude(v.raw * ONE_RAW) == m * 0x100_0000);
}

/// Multiplying by zero gives zero.
pub proof fn lemma_mul_zero(v: Fixed)
    ensures
        v.spec_mul(Fixed::spec_zero()) == Fixed::spec_zero(),
{
    assert(v.raw * 0 == 0);
}

/// A number other than zero divided by itself is one.
pub proof fn lemma_div_self(v: Fixed)
    requires
        v.raw != 0,
    ensures
        v.spec_div(v) == Fixed::spec_one(),
{
    let m = magnitude(v.raw as int);
    assert(magnitude(v.raw * ONE_RAW) == m * 0x100_0000);
    assert((m * 0x100_0000) / m == 0x100_0000) by (nonlinear_arith)
        requires
            m > 0,
    ;
}

/// A number times the ratio of a number other than zero to itself is the
/// number.
pub proof fn lemma_mul_div_self(v: Fixed, x: Fixed)
    requires
        x.raw != 0,
    ensures
        v.spec_mul_div(x, x) == v,
{
    let m = magnitude(v.raw as int);
    let n = magnitude(x.raw as int);
    assert(magnitude(v.raw * x.raw) == m * n) by (nonlinear_arith)
        requires
            m == magnitude(v.raw as int),
            n == magnitude(x.raw as int),
    ;
    assert((m * n) / n == m) by (nonlinear_arith)
        requires
            n > 0,
            m >= 0,
    ;
    if v.raw == 0 {
        assert(v.raw * x.raw == 0);
    } else {
        assert((v.raw * x.raw > 0) == ((v.raw > 0) == (x.raw > 0)) && v.raw * x.raw != 0)
            by (nonlinear_arith)
            requires
                v.raw != 0,
                x.raw != 0,
        ;
    }
}

/// Half of a number with the raw value `2 * r` has the raw value `r`.
pub proof fn lemma_half_of_even(v: Fixed, r: int)
    requires
        v.raw == 2 * r,
    ensures
        v.spec_div_int(2).raw == r,
{
    let m = magnitude(r);
    assert(magnitude(v.raw as int) == 2 * m);
    assert(magnitude(2int) == 2);
    assert((2 * m) / 2 == m);
    assert(quot(v.raw as int, 2) == r);
}

/// A number times a ratio between zero and one lies between zero and the
/// number.
pub proof fn lemma_mul_div_within(v: Fixed, num: Fixed, den: Fixed)
    requires
        0 <= num.raw <= den.raw,
        den.raw > 0,
    ensures
        v.raw >= 0 ==> 0 <= v.spec_mul_div(num, den).raw <= v.raw,
        v.raw <= 0 ==> v.raw <= v.spec_mul_div(num, den).raw <= 0,
{
    let m = magnitude(v.raw as int);
    let p = v.raw * num.raw;
    assert(magnitude(p) == m * num.raw) by (nonlinear_arith)
        requires
            m == magnitude(v.raw as int),
            p == v.raw * num.raw,
            num.raw >= 0,
    ;
    assert(0 <= (m * num.raw) / (den.raw as int) <= m) by (nonlinear_arith)
        requires
            0 <= num.raw <= den.raw,
            den.raw > 0,
            m >= 0,
    ;
    assert((v.raw >= 0 ==> p >= 0) && (v.raw <= 0 ==> p <= 0)) by (nonlinear_arith)
        requires
            p == v.raw * num.raw,
            num.raw >= 0,
    ;
    if p == 0 {
        assert(magnitude(p) / magnitude(den.raw as int) == 0);
    }
}

/// A number times a factor between zero and one lies between zero and the
/// number.
pub proof fn lemma_mul_within(v: Fixed, factor: Fixed)
    requires
        0 <= factor.raw <= ONE_RAW,
    ensures
        v.raw >= 0 ==> 0 <= v.spec_mul(factor).raw <= v.raw,
        v.raw <= 0 ==> v.raw <= v.spec_mul(factor).raw <= 0,
{
    lemma_mul_div_within(v, factor, Fixed::spec_one());
}

/// A number that is not negative, times a factor between minus one and
/// one, lies between minus the number and the number.
pub proof fn lemma_mul_signed_within(v: Fixed, factor: Fixed)
    requires
        v.raw >= 0,
        -ONE_RAW <= factor.raw <= ONE_RAW,
    ensures
        -v.raw <= v.spec_mul(factor).raw <= v.raw,
{
    let p = v.raw * factor.raw;
    let m = magnitude(p);
    assert(0 <= m <= v.raw * 0x100_0000) by (nonlinear_arith)
        requires
            p == v.raw * factor.raw,
            m == magnitude(p),
            v.raw >= 0,
            -0x100_0000 <= factor.raw <= 0x100_0000,
    ;
    assert(m / 0x100_0000 <= v.raw);
}

/// The square of a number of magnitude at most `bound`, where `bound` is at
/// most one, lies between zero and `bound`.
pub proof fn lemma_square_within(v: Fixed, bound: int)
    requires
        -bound <= v.raw <= bound,
        0 <= bound <= ONE_RAW,
    ensures
        0 <= v.spec_mul(v).raw <= bound,
{
    let p = v.raw * v.raw;
    assert(0 <= p <= bound * 0x100_0000) by (nonlinear_arith)
        requires
            p == v.raw * v.raw,
            -bound <= v.raw <= bound,
            0 <= bound <= 0x100_0000,
    ;
    assert(magnitude(p) == p);
    assert(p / 0x100_0000 <= bound);
}

/// A number that is not negative, divided by a positive integer, lies
/// between zero and the number.
pub proof fn lemma_div_int_within(v: Fixed, n: i64)
    requires
        v.raw >= 0,
        n >= 1,
    ensures
        0 <= v.spec_div_int(n).raw <= v.raw,
{
    assert(0 <= (v.raw as int) / (n as int) <= v.raw) by (nonlinear_arith)
        requires
            v.raw >= 0,
            n >= 1,
    ;
    assert(magnitude(v.raw as int) == v.raw);
    assert(magnitude(n as int) == n);
}

/// The quotient of a number that is not negative by a positive number that
/// is not less lies between zero and one.
pub proof fn lemma_div_within(num: Fixed, den: Fixed)
    requires
        0 <= num.raw <= den.raw,
        den.raw > 0,
    ensures
        0 <= num.spec_div(den).raw <= ONE_RAW,
{
    let p = num.raw * ONE_RAW;
    assert(0 <= p / (den.raw as int) <= 0x100_0000) by (nonlinear_arith)
        requires
            p == num.raw * 0x100_0000,
            0 <= num.raw <= den.raw,
            den.raw > 0,
    ;
    assert(magnitude(p) == p);
    assert(magnitude(den.raw as int) == den.raw);
}

/// The product of two numbers does not depend on their order.
pub proof fn lemma_mul_commutes(a: Fixed, b: Fixed)
    ensures
        a.spec_mul(b) == b.spec_mul(a),
{
    assert(a.raw * b.raw == b.raw * a.raw) by (nonlinear_arith);
}

/// The mean of two numbers lies between them.
pub proof fn lemma_mid_between(a: Fixed, b: Fixed)
    ensures
        a.min(b).raw <= a.spec_mid(b).raw <= a.max(b).raw,
{
    let sum = a.raw + b.raw;
    assert(quot(sum, 2) == if sum >= 0 {
        sum / 2
    } else {
        -((-sum) / 2)
    });
}

/// The weighted mean of three numbers lies between the least and the
/// greatest of them.
pub proof fn lemma_blend_between(curr: Fixed, prev: Fixed, next: Fixed)
    ensures
        curr.min(prev).min(next).raw <= curr.spec_blend(prev, next).raw,
        curr.spec_blend(prev, next).raw <= curr.max(prev).max(next).raw,
{
    let sum = prev.raw + 2 * curr.raw + next.raw;
    assert(quot(sum, 4) == if sum >= 0 {
        sum / 4
    } else {
        -((-sum) / 4)
    });
}

/// Computes the integer square root of `n`.
pub fn isqrt_u128(n: u128) -> (r: u64)
    ensures
        r == isqrt(n as nat),
{
    let mut r: u128 = 0;
    let mut step: u128 = 0x1_0000_0000_0000_0000;
    let mut k: u32 = 64;
    proof {
        vstd::arithmetic::power2::lemma2_to64();
        assert(n < 0x1_0000_0000_0000_0000 * 0x1_0000_0000_0000_0000) by (nonlinear_arith)
            requires
                n <= 0xffff_ffff_ffff_ffff_ffff_ffff_ffff_ffff,
        ;
    }
    while k > 0
        invariant
            0 <= k <= 64,
            step == vstd::arithmetic::power2::pow2(k as nat),
            r + step <= 0x1_0000_0000_0000_0000,
            r * r <= n,
            n < (r + step) * (r + step),
        decreases k,
    {
        proof {
            vstd::arithmetic::power2::lemma_pow2_unfold(k as nat);
        }
        let half: u128 = step / 2;
        let t: u128 = r + half;
        assert(t * t <= 0xffff_ffff_ffff_ffff * 0xffff_ffff_ffff_ffff) by (nonlinear_arith)
            requires
                0 <= t <= 0xffff_ffff_ffff_ffff,
        ;
        if t * t <= n {
            r = t;
        }
        step = half;
        k = k - 1;
    }
    proof {
        vstd::arithmetic::power2::lemma2_to64();
        lemma_isqrt_unique(n as nat, r as nat);
    }
    r as u64
}

/// A saturating fixed-point number; its view is the raw integer.
#[derive(Clone, Copy, Debug, PartialEq, Eq, Structural)]
pub struct Fixed {
    pub raw: i64,
}

impl View for Fixed {
    type V = int;

    open spec fn view(&self) -> int {
        self.raw as int
    }
}

impl Fixed {
    /// The number with raw value `sat(v)`.
    pub open spec fn of(v: int) -> Fixed {
        Fixed { raw: sat(v) as i64 }
    }

    pub open spec fn spec_zero() -> Fixed {
        Fixed { raw: 0 }
    }

    pub open spec fn spec_one() -> Fixed {
        Fixed { raw: ONE_RAW }
    }

    pub open spec fn spec_from_int(n: i32) -> Fixed {
        Fixed { raw: (n as int * ONE_RAW as int) as i64 }
    }

    /// Saturating sum.
    pub open spec fn spec_add(self, other: Fixed) -> Fixed {
        Fixed::of(self.raw + other.raw)
    }

    /// Saturating difference.
    pub open spec fn spec_sub(self, other: Fixed) -> Fixed {
        Fixed::of(self.raw - other.raw)
    }

    /// Saturating negation.
    pub open spec fn spec_neg(self) -> Fixed {
        Fixed::of(-self.raw)
    }

    /// Saturating absolute value.
    pub open spec fn spec_abs(self) -> Fixed {
        Fixed::of(magnitude(self.raw as int))
    }

    /// Saturating product, rounded toward zero.
    pub open spec fn spec_mul(self, other: Fixed) -> Fixed {
        Fixed::of(quot(self.raw * other.raw, ONE_RAW as int))
    }

    /// Saturating quotient, rounded toward zero. Division of a positive
    /// number by zero gives the largest value, of a negative number the
    /// smallest, and of zero gives zero.
    pub open spec fn spec_div(self, other: Fixed) -> Fixed {
        if other.raw == 0 {
            if self.raw > 0 {
                Fixed { raw: RAW_MAX }
            } else if self.raw < 0 {
                Fixed { raw: RAW_MIN }
            } else {
                Fixed { raw: 0 }
            }
        } else {
            Fixed::of(quot(self.raw * ONE_RAW, other.raw as int))
        }
    }

    /// The number times the ratio `num / den`: the product with `num`
    /// divided by `den`, rounded toward zero once and saturating. For a
    /// divisor of zero, the saturating product divided by zero.
    pub open spec fn spec_mul_div(self, num: Fixed, den: Fixed) -> Fixed {
        if den.raw == 0 {
            self.spec_mul(num).spec_div(den)
        } else {
            Fixed::of(quot(self.raw * num.raw, den.raw as int))
        }
    }

    /// Saturating product with an integer.
    pub open spec fn spec_mul_int(self, n: i64) -> Fixed {
        Fixed::of(self.raw * n)
    }

    /// Quotient by an integer, rounded toward zero; the number itself when
    /// `n` is zero.
    pub open spec fn spec_div_int(self, n: i64) -> Fixed {
        if n == 0 {
            self
        } else {
            Fixed::of(quot(self.raw as int, n as int))
        }
    }

    /// Square root rounded down; zero for a negative number.
    pub open spec fn spec_sqrt(self) -> Fixed {
        if self.raw <= 0 {
            Fixed { raw: 0 }
        } else {
            Fixed::of(isqrt((self.raw * ONE_RAW) as nat) as int)
        }
    }

    /// Mean of two numbers, computed without intermediate saturation and
    /// rounded toward zero.
    pub open spec fn spec_mid(self, other: Fixed) -> Fixed {
        Fixed { raw: quot(self.raw + other.raw, 2) as i64 }
    }

    /// Weighted mean `(prev + 2 * self + next) / 4`, computed without
    /// intermediate saturation and rounded toward zero.
    pub open spec fn spec_blend(self, prev: Fixed, next: Fixed) -> Fixed {
        Fixed { raw: quot(prev.raw + 2 * self.raw + next.raw, 4) as i64 }
    }

    /// The smaller of two numbers.
    pub open spec fn min(self, other: Fixed) -> Fixed {
        if self.raw <= other.raw {
            self
        } else {
            other
        }
    }

    /// The larger of two numbers.
    pub open spec fn max(self, other: Fixed) -> Fixed {
        if self.raw >= other.raw {
            self
        } else {
            other
        }
    }

    /// The number limited to the interval from `lo` to `hi`.
    pub open spec fn spec_clamp(self, lo: Fixed, hi: Fixed) -> Fixed {
        if self.raw < lo.raw {
            lo
        } else if self.raw > hi.raw {
            hi
        } else {
            self
        }
    }

    /// The least integer that is not below the number.
    pub open spec fn spec_ceil(self) -> i64 {
        (-((-(self.raw as int)) / (ONE_RAW as int))) as i64
    }

    /// Whether two numbers differ by at most the comparison tolerance.
    pub open spec fn spec_near(self, other: Fixed) -> bool {
        self.spec_sub(other).spec_abs().raw <= EPSILON_RAW
    }

    #[verifier::when_used_as_spec(spec_zero)]
    pub fn zero() -> (r: Fixed)
        ensures
            r == Fixed::spec_zero(),
    {
        Fixed { raw: 0 }
    }

    #[verifier::when_used_as_spec(spec_one)]
    pub fn one() -> (r: Fixed)
        ensures
            r == Fixed::spec_one(),
    {
        Fixed { raw: ONE_RAW }
    }

    /// The number with the given raw value.
    pub fn from_raw(raw: i64) -> (r: Fixed)
        ensures
            r.raw == raw,
    {
        Fixed { raw }
    }

    /// The fixed-point number equal to the integer `n`.
    #[verifier::when_used_as_spec(spec_from_int)]
    pub fn from_int(n: i32) -> (r: Fixed)
        ensures
            r == Fixed::spec_from_int(n),
            r.raw == n * ONE_RAW,
    {
        Fixed { raw: (n as i64) * ONE_RAW }
    }

    /// Quotient of two wide integers, rounded toward zero.
    fn quotient(a: i128, b: i128) -> (r: i128)
        requires
            b != 0,
            -0x4000_0000_0000_0000_0000_0000_0000_0000 <= a
                <= 0x4000_0000_0000_0000_0000_0000_0000_0000,
            -0x4000_0000_0000_0000_0000_0000_0000_0000 <= b
                <= 0x4000_0000_0000_0000_0000_0000_0000_0000,
        ensures
            r == quot(a as int, b as int),
    {
        let ma: u128 = if a < 0 {
            (-a) as u128
        } else {
            a as u128
        };
        let mb: u128 = if b < 0 {
            (-b) as u128
        } else {
            b as u128
        };
        let q: u128 = ma / mb;
        assert(q <= ma) by (nonlinear_arith)
            requires
                q == ma / mb,
                mb >= 1,
        ;
        if (a >= 0) == (b > 0) {
            q as i128
        } else {
            -(q as i128)
        }
    }

    /// The number with the raw value `v`, clamped to the range of raw
    /// values.
    pub fn saturate(v: i128) -> (r: Fixed)
        ensures
            r == Fixed::of(v as int),
    {
        if v < RAW_MIN as i128 {
            Fixed { raw: RAW_MIN }
        } else if v > RAW_MAX as i128 {
            Fixed { raw: RAW_MAX }
        } else {
            Fixed { raw: v as i64 }
        }
    }

    #[verifier::when_used_as_spec(spec_add)]
    pub fn add(self, other: Fixed) -> (r: Fixed)
        ensures
            r == self.spec_add(other),
    {
        Fixed::saturate(self.raw as i128 + other.raw as i128)
    }

    #[verifier::when_used_as_spec(spec_sub)]
    pub fn sub(self, other: Fixed) -> (r: Fixed)
        ensures
            r == self.spec_sub(other),
    {
        Fixed::saturate(self.raw as i128 - other.raw as i128)
    }

    #[verifier::when_used_as_spec(spec_neg)]
    pub fn neg(self) -> (r: Fixed)
        ensures
            r == self.spec_neg(),
    {
        Fixed::saturate(-(self.raw as i128))
    }

    #[verifier::when_used_as_spec(spec_abs)]
    pub fn abs(self) -> (r: Fixed)
        ensures
            r == self.spec_abs(),
    {
        if self.raw < 0 {
            Fixed::saturate(-(self.raw as i128))
        } else {
            self
        }
    }

    #[verifier::when_used_as_spec(spec_mul)]
    pub fn mul(self, other: Fixed) -> (r: Fixed)
        ensures
            r == self.spec_mul(other),
    {
        proof {
            lemma_raw_product_bounds(self.raw, other.raw);
        }
        let p: i128 = (self.raw as i128) * (other.raw as i128);
        Fixed::saturate(Fixed::quotient(p, ONE_RAW as i128))
    }

    #[verifier::when_used_as_spec(spec_div)]
    pub fn div(self, other: Fixed) -> (r: Fixed)
        ensures
            r == self.spec_div(other),
    {
        if other.raw == 0 {
            if self.raw > 0 {
                Fixed { raw: RAW_MAX }
            } else if self.raw < 0 {
                Fixed { raw: RAW_MIN }
            } else {
                Fixed { raw: 0 }
            }
        } else {
            assert(-0x80_0000_0000_0000_0000_0000 <= self.raw * 0x100_0000
                <= 0x80_0000_0000_0000_0000_0000);
            let n: i128 = (self.raw as i128) * 0x100_0000;
            Fixed::saturate(Fixed::quotient(n, other.raw as i128))
        }
    }

    #[verifier::when_used_as_spec(spec_mul_div)]
    pub fn mul_div(self, num: Fixed, den: Fixed) -> (r: Fixed)
        ensures
            r == self.spec_mul_div(num, den),
    {
        if den.raw == 0 {
            self.mul(num).div(den)
        } else {
            proof {
                lemma_raw_product_bounds(self.raw, num.raw);
            }
            let p: i128 = (self.raw as i128) * (num.raw as i128);
            Fixed::saturate(Fixed::quotient(p, den.raw as i128))
        }
    }

    #[verifier::when_used_as_spec(spec_mul_int)]
    pub fn mul_int(self, n: i64) -> (r: Fixed)
        ensures
            r == self.spec_mul_int(n),
    {
        proof {
            lemma_raw_product_bounds(self.raw, n);
        }
        Fixed::saturate((self.raw as i128) * (n as i128))
    }

    #[verifier::when_used_as_spec(spec_div_int)]
    pub fn div_int(self, n: i64) -> (r: Fixed)
        ensures
            r == self.spec_div_int(n),
    {
        if n == 0 {
            self
        } else {
            Fixed::saturate(Fixed::quotient(self.raw as i128, n as i128))
        }
    }

    #[verifier::when_used_as_spec(spec_sqrt)]
    pub fn sqrt(self) -> (r: Fixed)
        ensures
            r == self.spec_sqrt(),
    {
        if self.raw <= 0 {
            Fixed { raw: 0 }
        } else {
            let n: u128 = (self.raw as u128) * (ONE_RAW as u128);
            let s: u64 = isqrt_u128(n);
            Fixed::saturate(s as i128)
        }
    }

    #[verifier::when_used_as_spec(spec_mid)]
    pub fn mid(self, other: Fixed) -> (r: Fixed)
        ensures
            r == self.spec_mid(other),
            self.min(other).raw <= r.raw <= self.max(other).raw,
    {
        let sum: i128 = self.raw as i128 + other.raw as i128;
        let q: i128 = Fixed::quotient(sum, 2);
        assert(q == if sum >= 0 {
            sum / 2
        } else {
            -((-sum) / 2)
        });
        Fixed { raw: q as i64 }
    }

    #[verifier::when_used_as_spec(spec_blend)]
    pub fn blend(self, prev: Fixed, next: Fixed) -> (r: Fixed)
        ensures
            r == self.spec_blend(prev, next),
            self.min(prev).min(next).raw <= r.raw,
            r.raw <= self.max(prev).max(next).raw,
    {
        let sum: i128 = prev.raw as i128 + 2 * (self.raw as i128) + next.raw as i128;
        let q: i128 = Fixed::quotient(sum, 4);
        assert(q == if sum >= 0 {
            sum / 4
        } else {
            -((-sum) / 4)
        });
        Fixed { raw: q as i64 }
    }

    #[verifier::when_used_as_spec(spec_clamp)]
    pub fn clamp(self, lo: Fixed, hi: Fixed) -> (r: Fixed)
        ensures
            r == self.spec_clamp(lo, hi),
    {
        if self.raw < lo.raw {
            lo
        } else if self.raw > hi.raw {
            hi
        } else {
            self
        }
    }

    #[verifier::when_used_as_spec(spec_ceil)]
    pub fn ceil(self) -> (r: i64)
        ensures
            r == self.spec_ceil(),
    {
        let q: i64 = self.raw / ONE_RAW;
        if self.raw > 0 && q * ONE_RAW != self.raw {
            q + 1
        } else {
            q
        }
    }

    #[verifier::when_used_as_spec(spec_near)]
    pub fn near(self, other: Fixed) -> (r: bool)
        ensures
            r == self.spec_near(other),
    {
        self.sub(other).abs().raw <= EPSILON_RAW
    }
}

} // verus!
