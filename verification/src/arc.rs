//! The circular arc through three points: its centre, radius and angles, and
//! its sampling into a polyline. The centre is computed relative to the
//! first point from exact products, with one rounding at the division.
use vstd::prelude::*;
use crate::bezier::{approximate_bezier, approximated};
use crate::fixed::{isqrt, lemma_raw_product_bounds, magnitude, quot, Fixed, EPSILON_RAW};
use crate::point::Pos2;
use crate::wide::{signed_divisor, weighted_difference, weighted_difference_ratio};
use crate::trig::{
    asin, atan2, cosine, lemma_arc_tangent2_range, sin_cos, sine, two_pi, PI_RAW, TWO_PI_RAW,
};

verus! {

/// Raw value of the largest distance allowed between the arc and its
/// polyline, a tenth.
pub const CIRCULAR_ARC_TOLERANCE_RAW: i64 = 1677722;

/// Raw value of one half.
pub const HALF_RAW: i64 = 0x80_0000;

/// A circular arc: it starts at the angle `theta_start` on the circle round
/// `centre` and sweeps `theta_range` in the sense given by `direction`,
/// which is one or minus one.
#[derive(Clone, Copy, Debug, PartialEq, Eq, Structural)]
pub struct CircularArcProperties {
    pub theta_start: Fixed,
    pub theta_range: Fixed,
    pub direction: Fixed,
    pub radius: Fixed,
    pub centre: Pos2,
}

impl CircularArcProperties {
    /// The start angle lies between minus and plus half a turn, the sweep
    /// between zero and a full turn, the direction is one or minus one,
    /// and the radius is positive.
    pub open spec fn well_formed(self) -> bool {
        &&& -PI_RAW <= self.theta_start.raw <= PI_RAW
        &&& 0 <= self.theta_range.raw <= TWO_PI_RAW
        &&& self.direction == Fixed::one() || self.direction == Fixed::one().neg()
        &&& self.radius.raw > 0
    }
}

/// The cross product of `b - a` and `c - a`, in squared raw units: twice
/// the signed area of the triangle. It is zero exactly for collinear
/// points.
pub open spec fn cross(a: Pos2, b: Pos2, c: Pos2) -> int {
    let u = b.sub(a);
    let v = c.sub(a);
    u.x.raw * v.y.raw - u.y.raw * v.x.raw
}

/// The determinant of the circumcircle formula: twice the cross product,
/// as a fixed-point number.
pub open spec fn determinant(a: Pos2, b: Pos2, c: Pos2) -> Fixed {
    Fixed::of(quot(cross(a, b, c), HALF_RAW as int))
}

/// Whether the three points are collinear or nearly so: the determinant is
/// within the tolerance of zero.
pub open spec fn is_degenerate(a: Pos2, b: Pos2, c: Pos2) -> bool {
    determinant(a, b, c).abs().raw <= EPSILON_RAW
}

/// The numerator of the first coordinate of the circumcentre of the
/// triangle with the corners zero, `u` and `v`, in cubed raw units:
/// `v.y * |u|^2 - u.y * |v|^2`.
pub open spec fn centre_numerator_x(u: Pos2, v: Pos2) -> int {
    v.y.raw * u.spec_norm_sq() - u.y.raw * v.spec_norm_sq()
}

/// The numerator of the second coordinate of the circumcentre of the
/// triangle with the corners zero, `u` and `v`, in cubed raw units:
/// `u.x * |v|^2 - v.x * |u|^2`.
pub open spec fn centre_numerator_y(u: Pos2, v: Pos2) -> int {
    u.x.raw * v.spec_norm_sq() - v.x.raw * u.spec_norm_sq()
}

/// The vector from `a` to the centre of the circle through `a`, `b` and
/// `c`: the numerators, computed exactly from `b - a` and `c - a`, divided
/// by twice the cross product and rounded toward zero once.
pub open spec fn centre_offset(a: Pos2, b: Pos2, c: Pos2) -> Pos2 {
    let u = b.sub(a);
    let v = c.sub(a);
    Pos2 {
        x: Fixed::of(quot(centre_numerator_x(u, v), 2 * cross(a, b, c))),
        y: Fixed::of(quot(centre_numerator_y(u, v), 2 * cross(a, b, c))),
    }
}

/// The centre of the circle through three points.
pub open spec fn circumcentre(a: Pos2, b: Pos2, c: Pos2) -> Pos2 {
    a.add(centre_offset(a, b, c))
}

/// By how many raw units the angle `end` is less than `start`; zero if it
/// is not.
pub open spec fn shortfall(end: Fixed, start: Fixed) -> nat {
    if end.raw < start.raw {
        (start.raw - end.raw) as nat
    } else {
        0
    }
}

/// The angle `end` raised by full turns until it is not less than `start`.
pub open spec fn unwrapped(end: Fixed, start: Fixed) -> Fixed
    decreases shortfall(end, start),
{
    if end.raw < start.raw {
        proof {
            assert(end.add(two_pi()).raw > end.raw);
        }
        unwrapped(end.add(two_pi()), start)
    } else {
        end
    }
}

/// The arc from `a` through `b` to `c`; none for degenerate points. The
/// radius is the length of the vector from `a` to the centre, and the start
/// angle is the angle of the opposite vector.
pub open spec fn arc_properties(a: Pos2, b: Pos2, c: Pos2) -> Option<CircularArcProperties> {
    if is_degenerate(a, b, c) {
        None
    } else {
        let offset = centre_offset(a, b, c);
        let centre = circumcentre(a, b, c);
        let d_a = offset.neg();
        let d_c = c.sub(centre);
        let theta_start = atan2(d_a.y, d_a.x);
        let theta_end = unwrapped(atan2(d_c.y, d_c.x), theta_start);
        let forward = theta_end.sub(theta_start);
        if cross(a, b, c) < 0 {
            Some(
                CircularArcProperties {
                    theta_start,
                    theta_range: two_pi().sub(forward),
                    direction: Fixed::one().neg(),
                    radius: offset.length(),
                    centre,
                },
            )
        } else {
            Some(
                CircularArcProperties {
                    theta_start,
                    theta_range: forward,
                    direction: Fixed::one(),
                    radius: offset.length(),
                    centre,
                },
            )
        }
    }
}

/// The angle under which a chord of the circle stays within the tolerance
/// of its arc, `2 * acos(1 - tolerance / radius)`. It is computed in the
/// equal form `4 * asin(sqrt(tolerance / (2 * radius)))`, which keeps its
/// precision where the quotient is small.
pub open spec fn tolerance_angle(radius: Fixed) -> Fixed {
    let tolerance = Fixed { raw: CIRCULAR_ARC_TOLERANCE_RAW };
    asin(tolerance.mul(radius).div_int(2).sqrt().div(radius)).mul_int(4)
}

/// The number of points that sample the arc: two for an arc whose diameter
/// is within the tolerance, else the sweep divided by the tolerance angle,
/// rounded up, and at least two.
pub open spec fn arc_point_count(pr: CircularArcProperties) -> i64 {
    if pr.radius.mul_int(2).raw <= CIRCULAR_ARC_TOLERANCE_RAW {
        2
    } else {
        let wanted = pr.theta_range.div(tolerance_angle(pr.radius)).ceil();
        if wanted < 2 {
            2
        } else {
            wanted
        }
    }
}

/// The point of the circle at the angle `theta`.
pub open spec fn point_at_angle(pr: CircularArcProperties, theta: Fixed) -> Pos2 {
    pr.centre.add(Pos2 { x: cosine(theta), y: sine(theta) }.scale(pr.radius))
}

/// Point `i` of the `count` points that sample the arc at equal angles.
pub open spec fn arc_sample(pr: CircularArcProperties, count: i64, i: i64) -> Pos2 {
    let fract = Fixed::one().mul_int(i).div(Fixed::one().mul_int((count - 1) as i64));
    point_at_angle(pr, pr.theta_start.add(fract.mul(pr.direction.mul(pr.theta_range))))
}

/// The point at the arc length `d` from the start of the arc: the point of
/// the circle at the angle `theta_start + direction * (d / radius)`.
pub open spec fn arc_point(pr: CircularArcProperties, d: Fixed) -> Pos2 {
    point_at_angle(pr, pr.theta_start.add(pr.direction.mul(d.div(pr.radius))))
}

/// The polyline that samples the arc.
pub open spec fn arc_path(pr: CircularArcProperties) -> Seq<Pos2> {
    Seq::new(
        arc_point_count(pr) as nat,
        |i: int| arc_sample(pr, arc_point_count(pr), i as i64),
    )
}

/// The polyline of the arc from `a` through `b` to `c`; for degenerate
/// points, the Bezier approximation of the three points.
pub open spec fn circular_arc(a: Pos2, b: Pos2, c: Pos2) -> Seq<Pos2> {
    match arc_properties(a, b, c) {
        Some(pr) => arc_path(pr),
        None => approximated(seq![a, b, c]),
    }
}

/// Where both of two numbers, each smaller in magnitude than twice `s`,
/// weighted with `x` and `y` sum to `s` times the squared length of
/// `(x, y)`, the magnitudes of `x` and `y` are at most two.
proof fn lemma_short_side(nx: int, ny: int, x: int, y: int, s: int)
    requires
        s != 0,
        nx * x + ny * y == s * (x * x + y * y),
        -2 * magnitude(s) < nx < 2 * magnitude(s),
        -2 * magnitude(s) < ny < 2 * magnitude(s),
    ensures
        -2 <= x <= 2,
        -2 <= y <= 2,
{
    let m = magnitude(s);
    let mx = magnitude(x);
    let my = magnitude(y);
    let len = x * x + y * y;
    assert(len == mx * mx + my * my) by (nonlinear_arith)
        requires
            len == x * x + y * y,
            mx == magnitude(x),
            my == magnitude(y),
    ;
    assert(magnitude(nx * x) <= (2 * m - 1) * mx) by (nonlinear_arith)
        requires
            -2 * m < nx < 2 * m,
            mx == magnitude(x),
    ;
    assert(magnitude(ny * y) <= (2 * m - 1) * my) by (nonlinear_arith)
        requires
            -2 * m < ny < 2 * m,
            my == magnitude(y),
    ;
    assert(magnitude(s * len) == m * len) by (nonlinear_arith)
        requires
            m == magnitude(s),
            len >= 0,
    ;
    assert(m * len <= (2 * m - 1) * mx + (2 * m - 1) * my);
    assert(len <= 2 * mx + 2 * my) by (nonlinear_arith)
        requires
            m * len <= (2 * m - 1) * mx + (2 * m - 1) * my,
            m >= 1,
            mx >= 0,
            my >= 0,
            len >= 0,
    ;
    assert(mx <= 2 && my <= 2) by (nonlinear_arith)
        requires
            mx * mx + my * my <= 2 * mx + 2 * my,
            mx >= 0,
            my >= 0,
    ;
}

/// The numerators of the circumcentre, weighted with the coordinates of a
/// side, sum to the cross product times the squared length of the side.
pub proof fn lemma_centre_identity(ux: int, uy: int, vx: int, vy: int)
    ensures
        ({
            let uu = ux * ux + uy * uy;
            let vv = vx * vx + vy * vy;
            let s = ux * vy - uy * vx;
            let nx = vy * uu - uy * vv;
            let ny = ux * vv - vx * uu;
            &&& nx * ux + ny * uy == s * uu
            &&& nx * vx + ny * vy == s * vv
        }),
{
    let uu = ux * ux + uy * uy;
    let vv = vx * vx + vy * vy;
    let s = ux * vy - uy * vx;
    let nx = vy * uu - uy * vv;
    let ny = ux * vv - vx * uu;
    assert(nx * ux + ny * uy == s * uu) by (nonlinear_arith)
        requires
            s == ux * vy - uy * vx,
            nx == vy * uu - uy * vv,
            ny == ux * vv - vx * uu,
    ;
    assert(nx * vx + ny * vy == s * vv) by (nonlinear_arith)
        requires
            s == ux * vy - uy * vx,
            nx == vy * uu - uy * vv,
            ny == ux * vv - vx * uu,
    ;
}

/// Where the quotients `ox` and `oy` of `nx` and `ny` by `d` miss their
/// dividends by less than the divisor, and the dividends weighted with the
/// side `(x, y)` sum to half of `d` times the squared length of the side,
/// the point `(ox, oy)` is nearly as far from `(x, y)` as from zero: the
/// squares of the two distances differ by little against their sum.
pub proof fn lemma_nearly_equidistant(nx: int, ny: int, ox: int, oy: int, x: int, y: int, d: int)
    requires
        d != 0,
        -magnitude(d) < nx - d * ox < magnitude(d),
        -magnitude(d) < ny - d * oy < magnitude(d),
        2 * (nx * x + ny * y) == d * (x * x + y * y),
    ensures
        ({
            let far = (x - ox) * (x - ox) + (y - oy) * (y - oy);
            let near = ox * ox + oy * oy;
            &&& far >= 0
            &&& near >= 0
            &&& (far - near) * (far - near) <= 16 * (far + near)
        }),
{
    let far = (x - ox) * (x - ox) + (y - oy) * (y - oy);
    let near = ox * ox + oy * oy;
    let len = x * x + y * y;
    let w = far - near;
    let rx = nx - d * ox;
    let ry = ny - d * oy;
    let e = magnitude(d);
    let mx = magnitude(x);
    let my = magnitude(y);
    assert(far >= 0 && near >= 0 && len >= 0) by (nonlinear_arith)
        requires
            far == (x - ox) * (x - ox) + (y - oy) * (y - oy),
            near == ox * ox + oy * oy,
            len == x * x + y * y,
    ;
    assert(w == len - 2 * (ox * x + oy * y)) by (nonlinear_arith)
        requires
            w == (x - ox) * (x - ox) + (y - oy) * (y - oy) - (ox * ox + oy * oy),
            len == x * x + y * y,
    ;
    let ax = ox * x;
    let ay = oy * y;
    assert(d * w == d * len - 2 * (d * ax) - 2 * (d * ay)) by (nonlinear_arith)
        requires
            w == len - 2 * (ax + ay),
    ;
    assert(d * ax == (d * ox) * x) by (nonlinear_arith)
        requires
            ax == ox * x,
    ;
    assert(d * ay == (d * oy) * y) by (nonlinear_arith)
        requires
            ay == oy * y,
    ;
    assert((d * ox) * x == nx * x - rx * x) by (nonlinear_arith)
        requires
            d * ox == nx - rx,
    ;
    assert((d * oy) * y == ny * y - ry * y) by (nonlinear_arith)
        requires
            d * oy == ny - ry,
    ;
    assert(d * w == 2 * (rx * x + ry * y));
    assert(magnitude(rx * x) <= (e - 1) * mx) by (nonlinear_arith)
        requires
            -e < rx < e,
            mx == magnitude(x),
    ;
    assert(magnitude(ry * y) <= (e - 1) * my) by (nonlinear_arith)
        requires
            -e < ry < e,
            my == magnitude(y),
    ;
    assert(magnitude(d * w) == e * magnitude(w)) by (nonlinear_arith)
        requires
            e == magnitude(d),
    ;
    assert(e * magnitude(w) <= 2 * ((e - 1) * mx) + 2 * ((e - 1) * my));
    let mw = magnitude(w);
    assert(mw <= 2 * mx + 2 * my) by (nonlinear_arith)
        requires
            e * mw <= 2 * ((e - 1) * mx) + 2 * ((e - 1) * my),
            e >= 1,
            mx >= 0,
            my >= 0,
            mw >= 0,
    ;
    assert(w * w == mw * mw) by (nonlinear_arith)
        requires
            mw == magnitude(w),
    ;
    assert(mw * mw <= (2 * mx + 2 * my) * (2 * mx + 2 * my)) by (nonlinear_arith)
        requires
            0 <= mw <= 2 * mx + 2 * my,
    ;
    assert((2 * mx + 2 * my) * (2 * mx + 2 * my) <= 8 * len) by (nonlinear_arith)
        requires
            len == x * x + y * y,
            mx == magnitude(x),
            my == magnitude(y),
    ;
    assert(x * x <= 2 * ((x - ox) * (x - ox)) + 2 * (ox * ox)) by (nonlinear_arith);
    assert(y * y <= 2 * ((y - oy) * (y - oy)) + 2 * (oy * oy)) by (nonlinear_arith);
    assert(len <= 2 * far + 2 * near);
}

/// A quotient rounded toward zero is zero only where the dividend is
/// smaller in magnitude than the divisor.
proof fn lemma_quot_zero(n: int, d: int)
    requires
        d != 0,
        quot(n, d) == 0,
    ensures
        -magnitude(d) < n < magnitude(d),
{
    let m = magnitude(n);
    let e = magnitude(d);
    vstd::arithmetic::div_mod::lemma_fundamental_div_mod(m, e);
    assert(m / e == 0);
    assert(e * 0 == 0);
    assert(m % e < e) by {
        vstd::arithmetic::div_mod::lemma_mod_bound(m, e);
    }
}

/// The centre of the circle through three points that are not degenerate
/// is not the first point: the radius is positive.
pub proof fn lemma_offset_not_zero(a: Pos2, b: Pos2, c: Pos2)
    requires
        !is_degenerate(a, b, c),
    ensures
        centre_offset(a, b, c).spec_norm_sq() >= 1,
        centre_offset(a, b, c).length().raw > 0,
{
    let u = b.sub(a);
    let v = c.sub(a);
    let s = cross(a, b, c);
    let offset = centre_offset(a, b, c);
    // The cross product is far from zero.
    assert(magnitude(s) >= 0x80_0000) by {
        if magnitude(s) < 0x80_0000 {
            assert(magnitude(s) / 0x80_0000 == 0);
            assert(quot(s, 0x80_0000) == 0);
        }
    }
    if offset.x.raw == 0 && offset.y.raw == 0 {
        let nx = centre_numerator_x(u, v);
        let ny = centre_numerator_y(u, v);
        assert(quot(nx, 2 * s) == 0);
        assert(quot(ny, 2 * s) == 0);
        lemma_quot_zero(nx, 2 * s);
        lemma_quot_zero(ny, 2 * s);
        let ux = u.x.raw as int;
        let uy = u.y.raw as int;
        let vx = v.x.raw as int;
        let vy = v.y.raw as int;
        let uu = ux * ux + uy * uy;
        let vv = vx * vx + vy * vy;
        assert(uu >= 0 && vv >= 0) by (nonlinear_arith)
            requires
                uu == ux * ux + uy * uy,
                vv == vx * vx + vy * vy,
        ;
        assert(u.spec_norm_sq() == uu);
        assert(v.spec_norm_sq() == vv);
        assert(s == ux * vy - uy * vx);
        assert(nx == vy * uu - uy * vv);
        assert(ny == ux * vv - vx * uu);
        lemma_centre_identity(ux, uy, vx, vy);
        lemma_short_side(nx, ny, ux, uy, s);
        lemma_short_side(nx, ny, vx, vy, s);
        assert(-8 <= s <= 8) by (nonlinear_arith)
            requires
                s == u.x.raw * v.y.raw - u.y.raw * v.x.raw,
                -2 <= u.x.raw <= 2,
                -2 <= u.y.raw <= 2,
                -2 <= v.x.raw <= 2,
                -2 <= v.y.raw <= 2,
        ;
        assert(false);
    }
    assert(offset.spec_norm_sq() >= 1) by (nonlinear_arith)
        requires
            offset.x.raw != 0 || offset.y.raw != 0,
            offset.spec_norm_sq() == (offset.x.raw * offset.x.raw + offset.y.raw
                * offset.y.raw) as nat,
    ;
    crate::fixed::lemma_isqrt_bounds(offset.spec_norm_sq());
    assert(isqrt(offset.spec_norm_sq()) >= 1) by {
        if isqrt(offset.spec_norm_sq()) == 0 {
            assert((0 + 1) * (0 + 1) == 1) by (nonlinear_arith);
        }
    }
}

/// The arc through three points is well formed.
pub proof fn lemma_arc_properties_well_formed(a: Pos2, b: Pos2, c: Pos2)
    ensures
        arc_properties(a, b, c) matches Some(pr) ==> pr.well_formed(),
{
    if !is_degenerate(a, b, c) {
        lemma_offset_not_zero(a, b, c);
        let centre = circumcentre(a, b, c);
        let d_a = centre_offset(a, b, c).neg();
        let d_c = c.sub(centre);
        let theta_start = atan2(d_a.y, d_a.x);
        let first = atan2(d_c.y, d_c.x);
        lemma_arc_tangent2_range(d_a.y, d_a.x);
        lemma_arc_tangent2_range(d_c.y, d_c.x);
        let theta_end = unwrapped(first, theta_start);
        if first.raw < theta_start.raw {
            let raised = first.add(two_pi());
            assert(raised.raw == first.raw + TWO_PI_RAW);
            assert(raised.raw >= theta_start.raw);
            assert(unwrapped(raised, theta_start) == raised);
            assert(theta_end == raised);
        } else {
            assert(theta_end == first);
        }
        let forward = theta_end.sub(theta_start);
        assert(0 <= forward.raw <= TWO_PI_RAW);
    }
}

impl CircularArcProperties {
    /// The point of the circle at the angle `theta`.
    pub fn point_at_angle(&self, theta: Fixed) -> (r: Pos2)
        ensures
            r == point_at_angle(*self, theta),
    {
        let (sin, cos) = sin_cos(theta);
        let origin: Pos2 = Pos2 { x: cos, y: sin };
        self.centre.add(origin.scale(self.radius))
    }

    /// The point at the arc length `d` from the start of the arc.
    pub fn point_at_distance(&self, d: Fixed) -> (r: Pos2)
        ensures
            r == arc_point(*self, d),
    {
        self.point_at_angle(self.theta_start.add(self.direction.mul(d.div(self.radius))))
    }
}

/// The cross product of `b - a` and `c - a`.
pub fn cross_product(a: Pos2, b: Pos2, c: Pos2) -> (r: i128)
    ensures
        r == cross(a, b, c),
        -0x8000_0000_0000_0000_0000_0000_0000_0000 < r < 0x8000_0000_0000_0000_0000_0000_0000_0000,
{
    let u: Pos2 = b.sub(a);
    let v: Pos2 = c.sub(a);
    proof {
        lemma_raw_product_bounds(u.x.raw, v.y.raw);
        lemma_raw_product_bounds(u.y.raw, v.x.raw);
    }
    (u.x.raw as i128) * (v.y.raw as i128) - (u.y.raw as i128) * (v.x.raw as i128)
}

/// The properties of the arc from `a` through `b` to `c`; none if the
/// points are collinear or nearly so.
pub fn circular_arc_properties(a: Pos2, b: Pos2, c: Pos2) -> (r: Option<CircularArcProperties>)
    ensures
        r == arc_properties(a, b, c),
        r is None <==> is_degenerate(a, b, c),
        r matches Some(pr) ==> pr.well_formed(),
{
    proof {
        lemma_arc_properties_well_formed(a, b, c);
    }
    let area: i128 = cross_product(a, b, c);
    let halves: i128 = if area < 0 {
        -((-area) / (HALF_RAW as i128))
    } else {
        area / (HALF_RAW as i128)
    };
    let d: Fixed = if halves < -0x8000_0000_0000_0000 {
        Fixed { raw: -0x8000_0000_0000_0000 }
    } else if halves > 0x7fff_ffff_ffff_ffff {
        Fixed { raw: 0x7fff_ffff_ffff_ffff }
    } else {
        Fixed { raw: halves as i64 }
    };
    assert(d == determinant(a, b, c));
    if d.abs().raw <= EPSILON_RAW {
        return None;
    }
    // The centre relative to `a`, from exact products and one division.
    let u: Pos2 = b.sub(a);
    let v: Pos2 = c.sub(a);
    let uu: u128 = u.norm_sq();
    let vv: u128 = v.norm_sq();
    let negative: bool = area < 0;
    let twice: u128 = if negative {
        2 * ((-area) as u128)
    } else {
        2 * (area as u128)
    };
    assert(signed_divisor(twice, negative) == 2 * cross(a, b, c));
    assert(weighted_difference(v.y.raw, uu, u.y.raw, vv) == centre_numerator_x(u, v));
    assert(weighted_difference(u.x.raw, vv, v.x.raw, uu) == centre_numerator_y(u, v));
    let offset: Pos2 = Pos2 {
        x: weighted_difference_ratio(v.y.raw, uu, u.y.raw, vv, twice, negative),
        y: weighted_difference_ratio(u.x.raw, vv, v.x.raw, uu, twice, negative),
    };
    let centre: Pos2 = a.add(offset);
    let d_a: Pos2 = offset.neg();
    let d_c: Pos2 = c.sub(centre);
    let radius: Fixed = offset.length();
    let theta_start: Fixed = atan2(d_a.y, d_a.x);
    let mut theta_end: Fixed = atan2(d_c.y, d_c.x);
    // Both angles lie within half a turn of zero, so one full turn is enough.
    while theta_end.raw < theta_start.raw
        invariant
            unwrapped(theta_end, theta_start) == unwrapped(atan2(d_c.y, d_c.x), theta_start),
        decreases shortfall(theta_end, theta_start),
    {
        assert(theta_end.add(two_pi()).raw > theta_end.raw);
        theta_end = theta_end.add(two_pi());
    }
    let forward: Fixed = theta_end.sub(theta_start);
    if area < 0 {
        Some(
            CircularArcProperties {
                theta_start,
                theta_range: two_pi().sub(forward),
                direction: Fixed::one().neg(),
                radius,
                centre,
            },
        )
    } else {
        Some(
            CircularArcProperties {
                theta_start,
                theta_range: forward,
                direction: Fixed::one(),
                radius,
                centre,
            },
        )
    }
}

/// The number of points that sample the arc.
pub fn circular_arc_point_count(pr: &CircularArcProperties) -> (n: i64)
    ensures
        n == arc_point_count(*pr),
        n >= 2,
{
    if pr.radius.mul_int(2).raw <= CIRCULAR_ARC_TOLERANCE_RAW {
        2
    } else {
        let tolerance: Fixed = Fixed { raw: CIRCULAR_ARC_TOLERANCE_RAW };
        let half_chord: Fixed = tolerance.mul(pr.radius).div_int(2).sqrt().div(pr.radius);
        let divisor: Fixed = asin(half_chord).mul_int(4);
        let wanted: i64 = pr.theta_range.div(divisor).ceil();
        if wanted < 2 {
            2
        } else {
            wanted
        }
    }
}

/// Appends to `path` the polyline of the circular arc from `a` through `b`
/// to `c`, or the Bezier approximation of the three points if they are
/// collinear or nearly so.
pub fn approximate_circular_arc(path: &mut Vec<Pos2>, a: Pos2, b: Pos2, c: Pos2)
    ensures
        final(path)@ == old(path)@ + circular_arc(a, b, c),
{
    let ghost start = path@;
    let pr: CircularArcProperties = match circular_arc_properties(a, b, c) {
        Some(pr) => pr,
        None => {
            let mut corners: Vec<Pos2> = Vec::new();
            corners.push(a);
            corners.push(b);
            corners.push(c);
            assert(corners@ == seq![a, b, c]);
            approximate_bezier(path, &corners);
            return;
        },
    };
    let amount_points: i64 = circular_arc_point_count(&pr);
    let divisor: Fixed = Fixed::one().mul_int(amount_points - 1);
    let directed_range: Fixed = pr.direction.mul(pr.theta_range);
    let mut i: i64 = 0;
    while i < amount_points
        invariant
            0 <= i <= amount_points,
            amount_points == arc_point_count(pr),
            divisor == Fixed::one().mul_int((amount_points - 1) as i64),
            directed_range == pr.direction.mul(pr.theta_range),
            path@.len() == start.len() + i,
            forall|m: int| 0 <= m < start.len() ==> path@[m] == start[m],
            forall|m: int| 0 <= m < i ==> path@[start.len() + m] == arc_path(pr)[m],
        decreases amount_points - i,
    {
        let fract: Fixed = Fixed::one().mul_int(i).div(divisor);
        let theta: Fixed = pr.theta_start.add(fract.mul(directed_range));
        path.push(pr.point_at_angle(theta));
        i = i + 1;
    }
    assert(path@ =~= start + arc_path(pr));
}

} // verus!
