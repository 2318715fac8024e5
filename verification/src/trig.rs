//! Sine, cosine and arc tangent of fixed-point angles in radians, by range
//! reduction and truncated power series. Sine and cosine are divided by the
//! length of their vector, so that the sum of their squares is one up to
//! rounding.
use vstd::prelude::*;
use crate::fixed::{
    isqrt, lemma_div_int_within, lemma_div_within, lemma_isqrt_bounds, lemma_mul_commutes,
    lemma_mul_div_bounded, lemma_mul_one, lemma_mul_within, lemma_quot_positive,
    lemma_square_within, lemma_squares_of_quotients, magnitude, quot, Fixed, ONE_RAW,
};
use crate::point::Pos2;

verus! {

/// Raw value of a quarter turn, `pi / 2`.
pub const HALF_PI_RAW: i64 = 26353589;

/// Raw value of an eighth of a turn, `pi / 4`.
pub const QUARTER_PI_RAW: i64 = 13176795;

/// Raw value of half a turn: twice a quarter turn.
pub const PI_RAW: i64 = 52707178;

/// Raw value of a full turn: four quarter turns.
pub const TWO_PI_RAW: i64 = 105414356;

/// Raw value of the tangent of a sixteenth of a turn.
pub const TAN_PI_8_RAW: i64 = 6949350;

/// A whole number of full turns, larger than the magnitude of any raw
/// value, plus an eighth of a turn.
pub const TURN_OFFSET: u128 = 14488038769578020827;

/// The angle `pi`.
pub open spec fn spec_pi() -> Fixed {
    Fixed { raw: PI_RAW }
}

/// The angle `2 * pi`.
pub open spec fn spec_two_pi() -> Fixed {
    Fixed { raw: TWO_PI_RAW }
}

/// The number of the quarter turn, counted from zero to three, in whose
/// middle eighth-to-eighth interval the angle lies.
pub open spec fn quadrant(angle: Fixed) -> int {
    ((angle.raw + TURN_OFFSET) / (HALF_PI_RAW as int)) % 4
}

/// The angle less its quarter turns: between minus and plus an eighth of a
/// turn.
pub open spec fn reduced(angle: Fixed) -> Fixed {
    Fixed { raw: ((angle.raw + TURN_OFFSET) % (HALF_PI_RAW as int) - QUARTER_PI_RAW) as i64 }
}

/// The sine series up to the ninth power, for a reduced angle.
pub open spec fn sin_series(r: Fixed) -> Fixed {
    let r2 = r.mul(r);
    let s4 = Fixed::one().sub(r2.div_int(72));
    let s3 = Fixed::one().sub(r2.div_int(42).mul(s4));
    let s2 = Fixed::one().sub(r2.div_int(20).mul(s3));
    let s1 = Fixed::one().sub(r2.div_int(6).mul(s2));
    r.mul(s1)
}

/// The cosine series up to the eighth power, for a reduced angle.
pub open spec fn cos_series(r: Fixed) -> Fixed {
    let r2 = r.mul(r);
    let s4 = Fixed::one().sub(r2.div_int(56));
    let s3 = Fixed::one().sub(r2.div_int(30).mul(s4));
    let s2 = Fixed::one().sub(r2.div_int(12).mul(s3));
    Fixed::one().sub(r2.div_int(2).mul(s2))
}

/// The length of the vector of the two series of a reduced angle.
pub open spec fn series_length(r: Fixed) -> Fixed {
    Pos2 { x: cos_series(r), y: sin_series(r) }.length()
}

/// The sine of a reduced angle: the sine series divided by the length of
/// the vector of both series, so that sine and cosine are the coordinates
/// of a vector of the length one.
pub open spec fn unit_sine(r: Fixed) -> Fixed {
    sin_series(r).mul_div(Fixed::one(), series_length(r))
}

/// The cosine of a reduced angle: the cosine series divided by the length
/// of the vector of both series.
pub open spec fn unit_cosine(r: Fixed) -> Fixed {
    cos_series(r).mul_div(Fixed::one(), series_length(r))
}

/// Approximate sine of an angle.
pub open spec fn sine(angle: Fixed) -> Fixed {
    let q = quadrant(angle);
    let r = reduced(angle);
    if q == 0 {
        unit_sine(r)
    } else if q == 1 {
        unit_cosine(r)
    } else if q == 2 {
        unit_sine(r).neg()
    } else {
        unit_cosine(r).neg()
    }
}

/// Approximate cosine of an angle.
pub open spec fn cosine(angle: Fixed) -> Fixed {
    let q = quadrant(angle);
    let r = reduced(angle);
    if q == 0 {
        unit_cosine(r)
    } else if q == 1 {
        unit_sine(r).neg()
    } else if q == 2 {
        unit_cosine(r).neg()
    } else {
        unit_sine(r)
    }
}

/// The arc tangent series up to the seventeenth power, for a small
/// argument.
pub open spec fn atan_series(u: Fixed) -> Fixed {
    let u2 = u.mul(u);
    let s8 = Fixed::one().div_int(17);
    let s7 = Fixed::one().div_int(15).sub(u2.mul(s8));
    let s6 = Fixed::one().div_int(13).sub(u2.mul(s7));
    let s5 = Fixed::one().div_int(11).sub(u2.mul(s6));
    let s4 = Fixed::one().div_int(9).sub(u2.mul(s5));
    let s3 = Fixed::one().div_int(7).sub(u2.mul(s4));
    let s2 = Fixed::one().div_int(5).sub(u2.mul(s3));
    let s1 = Fixed::one().div_int(3).sub(u2.mul(s2));
    let s0 = Fixed::one().sub(u2.mul(s1));
    u.mul(s0)
}

/// Approximate arc tangent of a slope between zero and one. A slope above
/// the tangent of a sixteenth of a turn is turned back by an eighth of a
/// turn first.
pub open spec fn atan_unit(t: Fixed) -> Fixed {
    if t.raw <= TAN_PI_8_RAW {
        atan_series(t)
    } else {
        Fixed { raw: QUARTER_PI_RAW }.add(
            atan_series(t.sub(Fixed::one()).div(t.add(Fixed::one()))),
        )
    }
}

/// Approximate angle of the vector `(x, y)`, between minus and plus half a
/// turn; zero for the zero vector.
pub open spec fn arc_tangent2(y: Fixed, x: Fixed) -> Fixed {
    let ax = x.abs();
    let ay = y.abs();
    let steep = if ax.raw == 0 && ay.raw == 0 {
        Fixed::zero()
    } else if ay.raw <= ax.raw {
        atan_unit(ay.div(ax))
    } else {
        Fixed { raw: HALF_PI_RAW }.sub(atan_unit(ax.div(ay)))
    };
    let upper = if x.raw < 0 {
        spec_pi().sub(steep)
    } else {
        steep
    };
    if y.raw < 0 {
        upper.neg()
    } else {
        upper
    }
}

/// Approximate arc sine.
pub open spec fn arc_sine(x: Fixed) -> Fixed {
    arc_tangent2(x, Fixed::one().sub(x.mul(x)).sqrt())
}

/// A reduced angle lies between minus and plus an eighth of a turn.
pub proof fn lemma_reduced_range(angle: Fixed)
    ensures
        -QUARTER_PI_RAW <= reduced(angle).raw < QUARTER_PI_RAW,
        0 <= quadrant(angle) < 4,
{
}

/// One step of a series: one less a share of a square that is at most one,
/// times a factor between zero and one, lies between zero and one.
proof fn lemma_series_step(r2: Fixed, n: i64, factor: Fixed)
    requires
        0 <= r2.raw <= ONE_RAW,
        n >= 1,
        0 <= factor.raw <= ONE_RAW,
    ensures
        0 <= Fixed::one().sub(r2.div_int(n).mul(factor)).raw <= ONE_RAW,
        Fixed::one().sub(r2.div_int(n).mul(factor)).raw >= ONE_RAW - r2.div_int(n).raw,
        r2.div_int(n).raw <= r2.raw,
{
    lemma_div_int_within(r2, n);
    lemma_mul_within(r2.div_int(n), factor);
}

/// For an angle of at most an eighth of a turn, the sine series lies
/// between zero and the angle, and the cosine series between one half and
/// one.
pub proof fn lemma_series_bounds(r: Fixed)
    requires
        -QUARTER_PI_RAW <= r.raw <= QUARTER_PI_RAW,
    ensures
        r.raw >= 0 ==> 0 <= sin_series(r).raw <= r.raw,
        r.raw <= 0 ==> r.raw <= sin_series(r).raw <= 0,
        ONE_RAW / 2 <= cos_series(r).raw <= ONE_RAW,
{
    let one = Fixed::one();
    let r2 = r.mul(r);
    lemma_square_within(r, QUARTER_PI_RAW as int);
    lemma_series_step(r2, 72, one);
    let s4 = one.sub(r2.div_int(72));
    assert(s4 == one.sub(r2.div_int(72).mul(one))) by {
        lemma_mul_one(r2.div_int(72));
    }
    lemma_series_step(r2, 42, s4);
    let s3 = one.sub(r2.div_int(42).mul(s4));
    lemma_series_step(r2, 20, s3);
    let s2 = one.sub(r2.div_int(20).mul(s3));
    lemma_series_step(r2, 6, s2);
    let s1 = one.sub(r2.div_int(6).mul(s2));
    lemma_mul_within(r, s1);
    lemma_series_step(r2, 56, one);
    let c4 = one.sub(r2.div_int(56));
    assert(c4 == one.sub(r2.div_int(56).mul(one))) by {
        lemma_mul_one(r2.div_int(56));
    }
    lemma_series_step(r2, 30, c4);
    let c3 = one.sub(r2.div_int(30).mul(c4));
    lemma_series_step(r2, 12, c3);
    let c2 = one.sub(r2.div_int(12).mul(c3));
    lemma_series_step(r2, 2, c2);
    lemma_div_int_within(r2, 2);
    assert(r2.div_int(2).raw <= ONE_RAW / 2) by {
        lemma_quot_positive(r2.raw as int, 2);
    }
}

/// The length of the vector of the two series of a reduced angle is at
/// least one half, and neither series exceeds it in magnitude.
pub proof fn lemma_series_length(r: Fixed)
    requires
        -QUARTER_PI_RAW <= r.raw <= QUARTER_PI_RAW,
    ensures
        ONE_RAW / 2 <= series_length(r).raw <= 2 * ONE_RAW,
        series_length(r).raw == isqrt(
            (cos_series(r).raw * cos_series(r).raw + sin_series(r).raw * sin_series(r).raw) as nat,
        ),
        -series_length(r).raw <= sin_series(r).raw <= series_length(r).raw,
        -series_length(r).raw <= cos_series(r).raw <= series_length(r).raw,
{
    lemma_series_bounds(r);
    let c = cos_series(r).raw as int;
    let s = sin_series(r).raw as int;
    let n = c * c + s * s;
    assert(0x80_0000 * 0x80_0000 <= c * c <= 0x100_0000 * 0x100_0000) by (nonlinear_arith)
        requires
            0x80_0000 <= c <= 0x100_0000,
    ;
    assert(0 <= s * s <= c * c + s * s) by (nonlinear_arith);
    assert(s * s <= 0x100_0000 * 0x100_0000) by (nonlinear_arith)
        requires
            -0x100_0000 <= s <= 0x100_0000,
    ;
    assert(c * c <= c * c + s * s) by (nonlinear_arith);
    lemma_isqrt_bounds(n as nat);
    let len = isqrt(n as nat) as int;
    assert(len >= 0x80_0000) by (nonlinear_arith)
        requires
            n < (len + 1) * (len + 1),
            n >= 0x80_0000 * 0x80_0000,
            len >= 0,
    ;
    assert(len <= 0x200_0000) by (nonlinear_arith)
        requires
            len * len <= n,
            n <= 2 * (0x100_0000 * 0x100_0000),
            len >= 0,
    ;
    assert(-len <= s <= len) by (nonlinear_arith)
        requires
            s * s <= n,
            n < (len + 1) * (len + 1),
            len >= 0,
    ;
    assert(-len <= c <= len) by (nonlinear_arith)
        requires
            c * c <= n,
            n < (len + 1) * (len + 1),
            len >= 0,
    ;
}

/// The sine and the cosine of a reduced angle lie between minus one and
/// one.
pub proof fn lemma_unit_bounds(r: Fixed)
    requires
        -QUARTER_PI_RAW <= r.raw <= QUARTER_PI_RAW,
    ensures
        -ONE_RAW <= unit_sine(r).raw <= ONE_RAW,
        -ONE_RAW <= unit_cosine(r).raw <= ONE_RAW,
{
    lemma_series_length(r);
    lemma_mul_div_bounded(sin_series(r), Fixed::one(), series_length(r));
    lemma_mul_div_bounded(cos_series(r), Fixed::one(), series_length(r));
}

/// The squares of the sine and the cosine of a reduced angle sum to one,
/// up to a few raw units of relative error: the sum of the squares of the
/// raw values lies between `ONE^2 - 4 ONE` and `ONE^2 + 8 ONE + 2`.
pub proof fn lemma_unit_squares(r: Fixed)
    requires
        -QUARTER_PI_RAW <= r.raw <= QUARTER_PI_RAW,
    ensures
        ONE_RAW * ONE_RAW - 4 * ONE_RAW <= unit_sine(r).raw * unit_sine(r).raw + unit_cosine(
            r,
        ).raw * unit_cosine(r).raw <= ONE_RAW * ONE_RAW + 8 * ONE_RAW + 2,
{
    lemma_series_length(r);
    lemma_unit_bounds(r);
    let s = sin_series(r).raw as int;
    let c = cos_series(r).raw as int;
    let len = series_length(r).raw as int;
    let n = c * c + s * s;
    let m = 0x100_0000int;
    lemma_isqrt_bounds(n as nat);
    assert(n >= 0) by (nonlinear_arith)
        requires
            n == c * c + s * s,
    ;
    let a = s * m;
    let b = c * m;
    let x = unit_sine(r).raw as int;
    let y = unit_cosine(r).raw as int;
    assert(x == quot(a, len) && y == quot(b, len));
    lemma_squares_of_quotients(a, b, len);
    let ll = len * len;
    let t = x * x + y * y;
    assert(a * a + b * b == (m * m) * n) by (nonlinear_arith)
        requires
            a == s * m,
            b == c * m,
            n == c * c + s * s,
    ;
    assert(magnitude(a) <= len * m && magnitude(b) <= len * m) by (nonlinear_arith)
        requires
            a == s * m,
            b == c * m,
            -len <= s <= len,
            -len <= c <= len,
            m == 0x100_0000,
    ;
    assert(len * (len * m) == ll * m) by (nonlinear_arith)
        requires
            ll == len * len,
    ;
    assert(len * magnitude(a) <= ll * m && len * magnitude(b) <= ll * m) by (nonlinear_arith)
        requires
            0 <= magnitude(a) <= len * m,
            0 <= magnitude(b) <= len * m,
            len * (len * m) == ll * m,
            len >= 0,
    ;
    // The squared length of the series lies between two squares.
    assert(ll <= n <= ll + 2 * len) by (nonlinear_arith)
        requires
            len * len <= n,
            n < (len + 1) * (len + 1),
            ll == len * len,
    ;
    assert(2 * len * m <= 4 * ll) by (nonlinear_arith)
        requires
            m <= 2 * len,
            len >= 0,
            ll == len * len,
    ;
    let squares = a * a + b * b;
    let la = len * magnitude(a);
    let lb = len * magnitude(b);
    assert(squares - 2 * la - 2 * lb <= ll * t <= squares + 2 * la + 2 * lb + 2 * ll);
    assert(squares <= 0x1_0000_0000_0000 * ll + 0x400_0000 * ll && squares
        >= 0x1_0000_0000_0000 * ll) by (nonlinear_arith)
        requires
            squares == (m * m) * n,
            m == 0x100_0000,
            ll <= n <= ll + 2 * len,
            2 * len * m <= 4 * ll,
            ll >= 0,
    ;
    assert(la <= 0x100_0000 * ll && lb <= 0x100_0000 * ll);
    assert(ll * t <= ll * (m * m + 8 * m + 2)) by (nonlinear_arith)
        requires
            ll * t <= squares + 2 * la + 2 * lb + 2 * ll,
            squares <= 0x1_0000_0000_0000 * ll + 0x400_0000 * ll,
            la <= 0x100_0000 * ll,
            lb <= 0x100_0000 * ll,
            m == 0x100_0000,
    ;
    assert(ll * t >= ll * (m * m - 4 * m)) by (nonlinear_arith)
        requires
            ll * t >= squares - 2 * la - 2 * lb,
            squares >= 0x1_0000_0000_0000 * ll,
            la <= 0x100_0000 * ll,
            lb <= 0x100_0000 * ll,
            m == 0x100_0000,
    ;
    assert(ll > 0) by (nonlinear_arith)
        requires
            len >= 1,
            ll == len * len,
    ;
    assert(t <= m * m + 8 * m + 2) by (nonlinear_arith)
        requires
            ll * t <= ll * (m * m + 8 * m + 2),
            ll > 0,
    ;
    assert(t >= m * m - 4 * m) by (nonlinear_arith)
        requires
            ll * t >= ll * (m * m - 4 * m),
            ll > 0,
    ;
}

/// The sine of the reduced angle zero is zero, and its cosine is one.
pub proof fn lemma_unit_at_zero()
    ensures
        unit_sine(Fixed::zero()) == Fixed::zero(),
        unit_cosine(Fixed::zero()) == Fixed::one(),
{
    let zero = Fixed::zero();
    let one = Fixed::one();
    assert(zero.mul(zero) == zero) by {
        crate::fixed::lemma_mul_zero(zero);
    }
    assert(zero.div_int(72) == zero && zero.div_int(42) == zero && zero.div_int(20) == zero
        && zero.div_int(6) == zero);
    assert(zero.div_int(56) == zero && zero.div_int(30) == zero && zero.div_int(12) == zero
        && zero.div_int(2) == zero);
    assert(forall|v: Fixed| #[trigger] zero.mul(v) == zero) by {
        assert forall|v: Fixed| #[trigger] zero.mul(v) == zero by {
            assert(0 * v.raw == 0);
        }
    }
    assert(sin_series(zero) == zero);
    assert(cos_series(zero) == one);
    assert(isqrt((0x100_0000int * 0x100_0000 + 0 * 0) as nat) == 0x100_0000) by {
        assert(0x100_0000int * 0x100_0000 + 0 * 0 < (0x100_0000int + 1) * (0x100_0000 + 1));
        crate::fixed::lemma_isqrt_unique(
            (0x100_0000int * 0x100_0000 + 0 * 0) as nat,
            0x100_0000nat,
        );
    }
    assert(series_length(zero) == one);
    crate::fixed::lemma_mul_div_self(one, one);
    crate::fixed::lemma_mul_div_self(zero, one);
}

/// A whole number of quarter turns, between two turns back and two turns
/// forth, is reduced to the angle zero, and its quadrant is that number
/// modulo four.
pub proof fn lemma_quarter_turns(k: int)
    requires
        -8 <= k <= 8,
    ensures
        reduced(Fixed { raw: (k * HALF_PI_RAW) as i64 }) == Fixed::zero(),
        quadrant(Fixed { raw: (k * HALF_PI_RAW) as i64 }) == k % 4,
{
    let angle = Fixed { raw: (k * HALF_PI_RAW) as i64 };
    let n = angle.raw + TURN_OFFSET;
    let turns = 0x80_0000_0000int + k;
    assert(n == turns * 26353589 + 13176795) by (nonlinear_arith)
        requires
            n == k * 26353589 + 14488038769578020827,
            turns == 0x80_0000_0000 + k,
    ;
    vstd::arithmetic::div_mod::lemma_fundamental_div_mod_converse(n, 26353589, turns, 13176795);
}

/// The sine and the cosine of every angle lie between minus one and one.
pub proof fn lemma_sine_cosine_bounds(angle: Fixed)
    ensures
        -ONE_RAW <= sine(angle).raw <= ONE_RAW,
        -ONE_RAW <= cosine(angle).raw <= ONE_RAW,
{
    lemma_reduced_range(angle);
    lemma_unit_bounds(reduced(angle));
}

/// One step of the arc tangent series: a coefficient less the product of
/// a square that is at most one with a tail between zero and the next
/// coefficient lies between the difference of the coefficients and the
/// coefficient.
proof fn lemma_atan_step(u2: Fixed, coefficient: Fixed, tail: Fixed)
    requires
        0 <= u2.raw <= ONE_RAW,
        0 <= tail.raw <= coefficient.raw <= ONE_RAW,
    ensures
        coefficient.raw - tail.raw <= coefficient.sub(u2.mul(tail)).raw <= coefficient.raw,
{
    lemma_mul_within(tail, u2);
    lemma_mul_commutes(tail, u2);
}

/// For an argument of magnitude at most one, the arc tangent series lies
/// between zero and the argument.
pub proof fn lemma_atan_series_within(u: Fixed)
    requires
        -ONE_RAW <= u.raw <= ONE_RAW,
    ensures
        u.raw >= 0 ==> 0 <= atan_series(u).raw <= u.raw,
        u.raw <= 0 ==> u.raw <= atan_series(u).raw <= 0,
{
    let one = Fixed::one();
    let u2 = u.mul(u);
    lemma_square_within(u, ONE_RAW as int);
    let s8 = one.div_int(17);
    assert(s8.raw == 986895) by {
        lemma_quot_positive(0x100_0000, 17);
        assert(0x100_0000int / 17 == 986895);
    }
    assert(one.div_int(15).raw == 1118481) by {
        lemma_quot_positive(0x100_0000, 15);
        assert(0x100_0000int / 15 == 1118481);
    }
    assert(one.div_int(13).raw == 1290555) by {
        lemma_quot_positive(0x100_0000, 13);
        assert(0x100_0000int / 13 == 1290555);
    }
    assert(one.div_int(11).raw == 1525201) by {
        lemma_quot_positive(0x100_0000, 11);
        assert(0x100_0000int / 11 == 1525201);
    }
    assert(one.div_int(9).raw == 1864135) by {
        lemma_quot_positive(0x100_0000, 9);
        assert(0x100_0000int / 9 == 1864135);
    }
    assert(one.div_int(7).raw == 2396745) by {
        lemma_quot_positive(0x100_0000, 7);
        assert(0x100_0000int / 7 == 2396745);
    }
    assert(one.div_int(5).raw == 3355443) by {
        lemma_quot_positive(0x100_0000, 5);
        assert(0x100_0000int / 5 == 3355443);
    }
    assert(one.div_int(3).raw == 5592405) by {
        lemma_quot_positive(0x100_0000, 3);
        assert(0x100_0000int / 3 == 5592405);
    }
    lemma_atan_step(u2, one.div_int(15), s8);
    let s7 = one.div_int(15).sub(u2.mul(s8));
    lemma_atan_step(u2, one.div_int(13), s7);
    let s6 = one.div_int(13).sub(u2.mul(s7));
    lemma_atan_step(u2, one.div_int(11), s6);
    let s5 = one.div_int(11).sub(u2.mul(s6));
    lemma_atan_step(u2, one.div_int(9), s5);
    let s4 = one.div_int(9).sub(u2.mul(s5));
    lemma_atan_step(u2, one.div_int(7), s4);
    let s3 = one.div_int(7).sub(u2.mul(s4));
    lemma_atan_step(u2, one.div_int(5), s3);
    let s2 = one.div_int(5).sub(u2.mul(s3));
    lemma_atan_step(u2, one.div_int(3), s2);
    let s1 = one.div_int(3).sub(u2.mul(s2));
    lemma_atan_step(u2, one, s1);
    let s0 = one.sub(u2.mul(s1));
    lemma_mul_within(u, s0);
}

/// The arc tangent of a slope between zero and one lies between zero and
/// an eighth of a turn.
pub proof fn lemma_atan_unit_range(t: Fixed)
    requires
        0 <= t.raw <= ONE_RAW,
    ensures
        0 <= atan_unit(t).raw <= QUARTER_PI_RAW,
{
    if t.raw <= TAN_PI_8_RAW {
        lemma_atan_series_within(t);
    } else {
        let one = Fixed::one();
        let num = t.sub(one);
        let den = t.add(one);
        let u = num.div(den);
        assert(num.raw == t.raw - ONE_RAW);
        assert(den.raw == t.raw + ONE_RAW);
        let up = (ONE_RAW - t.raw) * ONE_RAW;
        assert(0 <= up / (den.raw as int) <= QUARTER_PI_RAW) by (nonlinear_arith)
            requires
                up == (0x100_0000 - t.raw) * 0x100_0000,
                den.raw == t.raw + 0x100_0000,
                6949350 < t.raw <= 0x100_0000,
                QUARTER_PI_RAW == 13176795,
        ;
        assert(magnitude(num.raw * ONE_RAW) == up);
        assert(magnitude(den.raw as int) == den.raw);
        assert(-QUARTER_PI_RAW <= u.raw <= 0);
        lemma_atan_series_within(u);
    }
}

/// The angle of every vector lies between minus and plus half a turn.
pub proof fn lemma_arc_tangent2_range(y: Fixed, x: Fixed)
    ensures
        -PI_RAW <= arc_tangent2(y, x).raw <= PI_RAW,
{
    let ax = x.abs();
    let ay = y.abs();
    assert(ax.raw >= 0 && ay.raw >= 0);
    if ax.raw == 0 && ay.raw == 0 {
    } else if ay.raw <= ax.raw {
        lemma_div_within(ay, ax);
        lemma_atan_unit_range(ay.div(ax));
    } else {
        lemma_div_within(ax, ay);
        lemma_atan_unit_range(ax.div(ay));
    }
}

#[verifier::when_used_as_spec(spec_pi)]
pub fn pi() -> (r: Fixed)
    ensures
        r == spec_pi(),
{
    Fixed { raw: PI_RAW }
}

#[verifier::when_used_as_spec(spec_two_pi)]
pub fn two_pi() -> (r: Fixed)
    ensures
        r == spec_two_pi(),
{
    Fixed { raw: TWO_PI_RAW }
}

/// Sine and cosine of `angle`, in this order.
pub fn sin_cos(angle: Fixed) -> (r: (Fixed, Fixed))
    ensures
        r.0 == sine(angle),
        r.1 == cosine(angle),
        -ONE_RAW <= r.0.raw <= ONE_RAW,
        -ONE_RAW <= r.1.raw <= ONE_RAW,
{
    proof {
        lemma_sine_cosine_bounds(angle);
    }
    let n: u128 = (angle.raw as i128 + TURN_OFFSET as i128) as u128;
    let q: u128 = (n / (HALF_PI_RAW as u128)) % 4;
    let rem: u128 = n % (HALF_PI_RAW as u128);
    let r: Fixed = Fixed { raw: rem as i64 - QUARTER_PI_RAW };
    let r2: Fixed = r.mul(r);
    let one: Fixed = Fixed::one();
    let s4: Fixed = one.sub(r2.div_int(72));
    let s3: Fixed = one.sub(r2.div_int(42).mul(s4));
    let s2: Fixed = one.sub(r2.div_int(20).mul(s3));
    let s1: Fixed = one.sub(r2.div_int(6).mul(s2));
    let sin_r: Fixed = r.mul(s1);
    let c4: Fixed = one.sub(r2.div_int(56));
    let c3: Fixed = one.sub(r2.div_int(30).mul(c4));
    let c2: Fixed = one.sub(r2.div_int(12).mul(c3));
    let cos_r: Fixed = one.sub(r2.div_int(2).mul(c2));
    // Both series are divided by the length of their vector.
    let length: Fixed = Pos2 { x: cos_r, y: sin_r }.length();
    let sin_u: Fixed = sin_r.mul_div(one, length);
    let cos_u: Fixed = cos_r.mul_div(one, length);
    if q == 0 {
        (sin_u, cos_u)
    } else if q == 1 {
        (cos_u, sin_u.neg())
    } else if q == 2 {
        (sin_u.neg(), cos_u.neg())
    } else {
        (cos_u.neg(), sin_u)
    }
}

fn atan_small(u: Fixed) -> (r: Fixed)
    ensures
        r == atan_series(u),
{
    let u2: Fixed = u.mul(u);
    let one: Fixed = Fixed::one();
    let s8: Fixed = one.div_int(17);
    let s7: Fixed = one.div_int(15).sub(u2.mul(s8));
    let s6: Fixed = one.div_int(13).sub(u2.mul(s7));
    let s5: Fixed = one.div_int(11).sub(u2.mul(s6));
    let s4: Fixed = one.div_int(9).sub(u2.mul(s5));
    let s3: Fixed = one.div_int(7).sub(u2.mul(s4));
    let s2: Fixed = one.div_int(5).sub(u2.mul(s3));
    let s1: Fixed = one.div_int(3).sub(u2.mul(s2));
    let s0: Fixed = one.sub(u2.mul(s1));
    u.mul(s0)
}

fn atan_of_unit(t: Fixed) -> (r: Fixed)
    ensures
        r == atan_unit(t),
{
    if t.raw <= TAN_PI_8_RAW {
        atan_small(t)
    } else {
        let one: Fixed = Fixed::one();
        Fixed { raw: QUARTER_PI_RAW }.add(atan_small(t.sub(one).div(t.add(one))))
    }
}

/// The angle of the vector `(x, y)`.
#[verifier::when_used_as_spec(arc_tangent2)]
pub fn atan2(y: Fixed, x: Fixed) -> (r: Fixed)
    ensures
        r == arc_tangent2(y, x),
        -PI_RAW <= r.raw <= PI_RAW,
{
    proof {
        lemma_arc_tangent2_range(y, x);
    }
    let ax: Fixed = x.abs();
    let ay: Fixed = y.abs();
    let steep: Fixed = if ax.raw == 0 && ay.raw == 0 {
        Fixed::zero()
    } else if ay.raw <= ax.raw {
        atan_of_unit(ay.div(ax))
    } else {
        Fixed { raw: HALF_PI_RAW }.sub(atan_of_unit(ax.div(ay)))
    };
    let upper: Fixed = if x.raw < 0 {
        pi().sub(steep)
    } else {
        steep
    };
    if y.raw < 0 {
        upper.neg()
    } else {
        upper
    }
}

/// The arc sine of `x`.
#[verifier::when_used_as_spec(arc_sine)]
pub fn asin(x: Fixed) -> (r: Fixed)
    ensures
        r == arc_sine(x),
{
    atan2(x, Fixed::one().sub(x.mul(x)).sqrt())
}

} // verus!
