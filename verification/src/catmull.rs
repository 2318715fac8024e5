//! Sampling of Catmull-Rom splines at a fixed number of steps.
use vstd::prelude::*;
use crate::fixed::{lemma_half_of_even, lemma_mul_one, lemma_mul_zero, Fixed};
use crate::point::Pos2;

verus! {

/// The number of steps between two control points.
pub const CATMULL_DETAIL: u32 = 50;

/// The spline parameter of step `step`: `step / 50`.
pub open spec fn parameter(step: int) -> Fixed {
    Fixed::one().mul_int(step as i64).div(Fixed::from_int(CATMULL_DETAIL as i32))
}

/// One coordinate of the spline through `v2` and `v3` at parameter `t`:
/// `(2 v2 + (v3 - v1) t + (2 v1 - 5 v2 + 4 v3 - v4) t^2
/// + (3 v2 - v1 - 3 v3 + v4) t^3) / 2`.
pub open spec fn catmull_coordinate(v1: Fixed, v2: Fixed, v3: Fixed, v4: Fixed, t: Fixed) -> Fixed {
    let t2 = t.mul(t);
    let t3 = t2.mul(t);
    let linear = v1.neg().add(v3);
    let quadratic = v1.mul_int(2).sub(v2.mul_int(5)).add(v3.mul_int(4)).sub(v4);
    let cubic = v1.neg().add(v2.mul_int(3)).sub(v3.mul_int(3)).add(v4);
    v2.mul_int(2).add(linear.mul(t)).add(quadratic.mul(t2)).add(cubic.mul(t3)).div_int(2)
}

/// The point of the spline through `v2` and `v3` at parameter `t`.
pub open spec fn spline_point(v1: Pos2, v2: Pos2, v3: Pos2, v4: Pos2, t: Fixed) -> Pos2 {
    Pos2 {
        x: catmull_coordinate(v1.x, v2.x, v3.x, v4.x, t),
        y: catmull_coordinate(v1.y, v2.y, v3.y, v4.y, t),
    }
}

/// The control point before `points[i]`; `points[i]` itself at the start.
pub open spec fn before(points: Seq<Pos2>, i: int) -> Pos2 {
    if i > 0 {
        points[i - 1]
    } else {
        points[i]
    }
}

/// The control point after `points[i]`; past the end, the mirror image of
/// the point before in `points[i]`.
pub open spec fn after(points: Seq<Pos2>, i: int) -> Pos2 {
    if i + 1 < points.len() {
        points[i + 1]
    } else {
        points[i].scale_int(2).sub(before(points, i))
    }
}

/// The control point two places after `points[i]`; past the end, the mirror
/// image of `points[i]` in the point after it.
pub open spec fn second_after(points: Seq<Pos2>, i: int) -> Pos2 {
    if i + 2 < points.len() {
        points[i + 2]
    } else {
        after(points, i).scale_int(2).sub(points[i])
    }
}

/// The samples of one span: for each of its fifty steps, the points of the
/// spline at both ends of the step.
pub open spec fn span_samples(v1: Pos2, v2: Pos2, v3: Pos2, v4: Pos2) -> Seq<Pos2> {
    Seq::new(100, |k: int| spline_point(v1, v2, v3, v4, parameter(k / 2 + k % 2)))
}

/// The samples of the span that starts at control point `i`.
pub open spec fn samples_of_span(points: Seq<Pos2>, i: int) -> Seq<Pos2> {
    span_samples(before(points, i), points[i], after(points, i), second_after(points, i))
}

/// The polyline of a Catmull-Rom spline: the samples of its spans in a row.
/// A single control point stands for itself.
pub open spec fn catmull_path(points: Seq<Pos2>) -> Seq<Pos2> {
    if points.len() <= 1 {
        points
    } else {
        Seq::new(
            ((points.len() - 1) * 100) as nat,
            |k: int| samples_of_span(points, k / 100)[k % 100],
        )
    }
}

/// Whether the magnitude of the number is at most `2^58`, so that the
/// sums of the spline formula do not saturate.
pub open spec fn moderate(v: Fixed) -> bool {
    -0x400_0000_0000_0000 <= v.raw <= 0x400_0000_0000_0000
}

/// A coordinate of the spline is `v2` at parameter zero and `v3` at
/// parameter one, for moderate values.
pub proof fn lemma_coordinate_ends(v1: Fixed, v2: Fixed, v3: Fixed, v4: Fixed)
    requires
        moderate(v1),
        moderate(v2),
        moderate(v3),
        moderate(v4),
    ensures
        parameter(0) == Fixed::zero(),
        parameter(50) == Fixed::one(),
        catmull_coordinate(v1, v2, v3, v4, Fixed::zero()) == v2,
        catmull_coordinate(v1, v2, v3, v4, Fixed::one()) == v3,
{
    let linear = v1.neg().add(v3);
    let quadratic = v1.mul_int(2).sub(v2.mul_int(5)).add(v3.mul_int(4)).sub(v4);
    let cubic = v1.neg().add(v2.mul_int(3)).sub(v3.mul_int(3)).add(v4);
    lemma_mul_zero(Fixed::zero());
    lemma_mul_zero(linear);
    lemma_mul_zero(quadratic);
    lemma_mul_zero(cubic);
    lemma_mul_one(Fixed::one());
    lemma_mul_one(linear);
    lemma_mul_one(quadratic);
    lemma_mul_one(cubic);
    assert(linear.raw == v3.raw - v1.raw);
    assert(quadratic.raw == 2 * v1.raw - 5 * v2.raw + 4 * v3.raw - v4.raw);
    assert(cubic.raw == 3 * v2.raw - v1.raw - 3 * v3.raw + v4.raw);
    assert(50int * 0x100_0000 * 0x100_0000 / (50int * 0x100_0000) == 0x100_0000);
    let doubled = v2.mul_int(2);
    assert(doubled.raw == 2 * v2.raw);
    lemma_half_of_even(doubled, v2.raw as int);
    assert(doubled.div_int(2) == v2);
    // At parameter zero every power of the parameter is zero.
    let zero = Fixed::zero();
    assert(zero.mul(zero) == zero);
    assert(doubled.add(linear.mul(zero)).add(quadratic.mul(zero)).add(cubic.mul(zero))
        == doubled);
    // At parameter one every power of the parameter is one.
    let one = Fixed::one();
    assert(one.mul(one) == one);
    let sum = doubled.add(linear.mul(one)).add(quadratic.mul(one)).add(cubic.mul(one));
    assert(doubled.add(linear).raw == v2.raw * 2 + v3.raw - v1.raw);
    assert(doubled.add(linear).add(quadratic).raw == v1.raw - 3 * v2.raw + 5 * v3.raw - v4.raw);
    assert(sum.raw == 2 * v3.raw);
    lemma_half_of_even(sum, v3.raw as int);
    assert(sum.div_int(2) == v3);
}

/// The point of the spline through `v2` and `v3`, with the neighbours `v1`
/// and `v4`, at parameter `t`.
pub fn catmull_find_point(v1: Pos2, v2: Pos2, v3: Pos2, v4: Pos2, t: Fixed) -> (r: Pos2)
    ensures
        r == spline_point(v1, v2, v3, v4, t),
{
    let t2: Fixed = t.mul(t);
    let t3: Fixed = t2.mul(t);
    let x: Fixed = v2.x.mul_int(2).add(v1.x.neg().add(v3.x).mul(t)).add(
        v1.x.mul_int(2).sub(v2.x.mul_int(5)).add(v3.x.mul_int(4)).sub(v4.x).mul(t2),
    ).add(v1.x.neg().add(v2.x.mul_int(3)).sub(v3.x.mul_int(3)).add(v4.x).mul(t3)).div_int(2);
    let y: Fixed = v2.y.mul_int(2).add(v1.y.neg().add(v3.y).mul(t)).add(
        v1.y.mul_int(2).sub(v2.y.mul_int(5)).add(v3.y.mul_int(4)).sub(v4.y).mul(t2),
    ).add(v1.y.neg().add(v2.y.mul_int(3)).sub(v3.y.mul_int(3)).add(v4.y).mul(t3)).div_int(2);
    Pos2 { x, y }
}

/// Appends to `result` the samples of the span from `v2` to `v3` with the
/// neighbours `v1` and `v4`.
pub fn catmull_points(result: &mut Vec<Pos2>, v1: Pos2, v2: Pos2, v3: Pos2, v4: Pos2)
    ensures
        final(result)@ == old(result)@ + span_samples(v1, v2, v3, v4),
{
    let ghost start = result@;
    let detail: Fixed = Fixed::from_int(CATMULL_DETAIL as i32);
    let mut c: u32 = 0;
    while c < CATMULL_DETAIL
        invariant
            c <= CATMULL_DETAIL,
            detail == Fixed::from_int(CATMULL_DETAIL as i32),
            result@.len() == start.len() + 2 * c,
            forall|m: int| 0 <= m < start.len() ==> result@[m] == start[m],
            forall|k: int|
                0 <= k < 2 * c ==> result@[start.len() + k] == span_samples(v1, v2, v3, v4)[k],
        decreases CATMULL_DETAIL - c,
    {
        let t1: Fixed = Fixed::one().mul_int(c as i64).div(detail);
        let t2: Fixed = Fixed::one().mul_int((c + 1) as i64).div(detail);
        let p1: Pos2 = catmull_find_point(v1, v2, v3, v4, t1);
        let p2: Pos2 = catmull_find_point(v1, v2, v3, v4, t2);
        proof {
            let k1 = 2 * c;
            let k2 = k1 + 1;
            assert(k1 / 2 + k1 % 2 == c);
            assert(k2 / 2 + k2 % 2 == c + 1);
            assert(p1 == span_samples(v1, v2, v3, v4)[k1 as int]);
            assert(p2 == span_samples(v1, v2, v3, v4)[k2 as int]);
        }
        result.push(p1);
        result.push(p2);
        c = c + 1;
    }
    assert(result@ =~= start + span_samples(v1, v2, v3, v4));
}

/// The polyline of a spline up to the end of span `i` is the polyline up to
/// the start of the span, then the samples of the span.
pub proof fn lemma_catmull_path_step(points: Seq<Pos2>, i: int)
    requires
        0 <= i < points.len() - 1,
    ensures
        i * 100 + 100 <= catmull_path(points).len(),
        catmull_path(points).take(i * 100 + 100) == catmull_path(points).take(i * 100)
            + samples_of_span(points, i),
{
    let whole = catmull_path(points);
    let samples = samples_of_span(points, i);
    assert(whole.len() == (points.len() - 1) * 100);
    assert(samples.len() == 100);
    let longer = whole.take(i * 100 + 100);
    let joined = whole.take(i * 100) + samples;
    assert(longer.len() == joined.len());
    assert forall|k: int| 0 <= k < longer.len() implies longer[k] == joined[k] by {
        if k >= i * 100 {
            let j = k - i * 100;
            assert(k / 100 == i && k % 100 == j);
            assert(whole[k] == samples_of_span(points, k / 100)[k % 100]);
        }
    }
    assert(longer =~= joined);
}

/// Appends to `path` the polyline of the Catmull-Rom spline through
/// `points`.
pub fn approximate_catmull(path: &mut Vec<Pos2>, points: &Vec<Pos2>)
    ensures
        final(path)@ == old(path)@ + catmull_path(points@),
{
    let ghost start = path@;
    let n: usize = points.len();
    if n == 0 {
        assert(path@ == start + catmull_path(points@));
        return;
    }
    if n == 1 {
        path.push(points[0]);
        assert(path@ == start + catmull_path(points@));
        return;
    }
    let mut i: usize = 0;
    assert(path@ == start + catmull_path(points@).take(0));
    while i < n - 1
        invariant
            n == points@.len(),
            n >= 2,
            i <= n - 1,
            path@ == start + catmull_path(points@).take(i * 100),
        decreases n - i,
    {
        let v2: Pos2 = points[i];
        let v1: Pos2 = if i > 0 {
            points[i - 1]
        } else {
            v2
        };
        let v3: Pos2 = points[i + 1];
        let v4: Pos2 = if i + 1 < n - 1 {
            points[i + 2]
        } else {
            v3.scale_int(2).sub(v2)
        };
        assert(v1 == before(points@, i as int));
        assert(v3 == after(points@, i as int));
        assert(v4 == second_after(points@, i as int));
        catmull_points(path, v1, v2, v3, v4);
        proof {
            lemma_catmull_path_step(points@, i as int);
            assert(path@ =~= start + catmull_path(points@).take(i * 100 + 100));
        }
        i = i + 1;
    }
    assert(catmull_path(points@).len() == (n - 1) * 100);
    assert(catmull_path(points@).take((n - 1) * 100) == catmull_path(points@));
}

} // verus!
