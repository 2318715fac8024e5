//! Points of the plane with fixed-point coordinates.
use vstd::prelude::*;
use crate::fixed::{isqrt, lemma_raw_product_bounds, isqrt_u128, Fixed};

verus! {

/// A point, or a vector, of the plane.
#[derive(Clone, Copy, Debug, PartialEq, Eq, Structural)]
pub struct Pos2 {
    pub x: Fixed,
    pub y: Fixed,
}

impl Pos2 {
    pub open spec fn spec_zero() -> Pos2 {
        Pos2 { x: Fixed::zero(), y: Fixed::zero() }
    }

    pub open spec fn spec_new(x: Fixed, y: Fixed) -> Pos2 {
        Pos2 { x, y }
    }

    /// Coordinate-wise saturating sum.
    pub open spec fn spec_add(self, other: Pos2) -> Pos2 {
        Pos2 { x: self.x.add(other.x), y: self.y.add(other.y) }
    }

    /// Coordinate-wise saturating difference.
    pub open spec fn spec_sub(self, other: Pos2) -> Pos2 {
        Pos2 { x: self.x.sub(other.x), y: self.y.sub(other.y) }
    }

    /// Coordinate-wise saturating negation.
    pub open spec fn spec_neg(self) -> Pos2 {
        Pos2 { x: self.x.neg(), y: self.y.neg() }
    }

    /// The vector stretched by the factor `f`.
    pub open spec fn spec_scale(self, f: Fixed) -> Pos2 {
        Pos2 { x: self.x.mul(f), y: self.y.mul(f) }
    }

    /// The vector stretched by the integer factor `n`.
    pub open spec fn spec_scale_int(self, n: i64) -> Pos2 {
        Pos2 { x: self.x.mul_int(n), y: self.y.mul_int(n) }
    }

    /// The vector shrunk by the divisor `f`.
    pub open spec fn spec_div(self, f: Fixed) -> Pos2 {
        Pos2 { x: self.x.div(f), y: self.y.div(f) }
    }

    /// The vector times the ratio `num / den`, each coordinate rounded
    /// once.
    pub open spec fn spec_scale_ratio(self, num: Fixed, den: Fixed) -> Pos2 {
        Pos2 { x: self.x.mul_div(num, den), y: self.y.mul_div(num, den) }
    }

    /// Scalar product.
    pub open spec fn spec_dot(self, other: Pos2) -> Fixed {
        self.x.mul(other.x).add(self.y.mul(other.y))
    }

    /// Squared length as a fixed-point number.
    pub open spec fn spec_length_squared(self) -> Fixed {
        self.spec_dot(self)
    }

    /// Exact squared length in squared raw units.
    pub open spec fn spec_norm_sq(self) -> nat {
        (self.x.raw * self.x.raw + self.y.raw * self.y.raw) as nat
    }

    /// Euclidean length, rounded down to a raw unit.
    pub open spec fn spec_length(self) -> Fixed {
        Fixed::of(isqrt(self.spec_norm_sq()) as int)
    }

    /// The vector divided by its length.
    pub open spec fn spec_normalize(self) -> Pos2 {
        self.spec_div(self.spec_length())
    }

    /// Midpoint of two points.
    pub open spec fn spec_midpoint(self, other: Pos2) -> Pos2 {
        Pos2 { x: self.x.mid(other.x), y: self.y.mid(other.y) }
    }

    /// Weighted mean `(prev + 2 * self + next) / 4` of three points.
    pub open spec fn spec_blend(self, prev: Pos2, next: Pos2) -> Pos2 {
        Pos2 { x: self.x.blend(prev.x, next.x), y: self.y.blend(prev.y, next.y) }
    }

    /// Whether the point lies in the box with the corners `lo` and `hi`.
    pub open spec fn within(self, lo: Pos2, hi: Pos2) -> bool {
        &&& lo.x.raw <= self.x.raw <= hi.x.raw
        &&& lo.y.raw <= self.y.raw <= hi.y.raw
    }

    /// Whether each coordinate of the point lies between the coordinates
    /// of `a` and `b`, in either order.
    pub open spec fn between(self, a: Pos2, b: Pos2) -> bool {
        &&& a.x.raw <= self.x.raw <= b.x.raw || b.x.raw <= self.x.raw <= a.x.raw
        &&& a.y.raw <= self.y.raw <= b.y.raw || b.y.raw <= self.y.raw <= a.y.raw
    }

    /// Distance between two points.
    pub open spec fn spec_distance(self, other: Pos2) -> Fixed {
        other.spec_sub(self).spec_length()
    }

    #[verifier::when_used_as_spec(spec_zero)]
    pub fn zero() -> (r: Pos2)
        ensures
            r == Pos2::spec_zero(),
    {
        Pos2 { x: Fixed::zero(), y: Fixed::zero() }
    }

    #[verifier::when_used_as_spec(spec_new)]
    pub fn new(x: Fixed, y: Fixed) -> (r: Pos2)
        ensures
            r == Pos2::spec_new(x, y),
    {
        Pos2 { x, y }
    }

    #[verifier::when_used_as_spec(spec_add)]
    pub fn add(self, other: Pos2) -> (r: Pos2)
        ensures
            r == self.spec_add(other),
    {
        Pos2 { x: self.x.add(other.x), y: self.y.add(other.y) }
    }

    #[verifier::when_used_as_spec(spec_sub)]
    pub fn sub(self, other: Pos2) -> (r: Pos2)
        ensures
            r == self.spec_sub(other),
    {
        Pos2 { x: self.x.sub(other.x), y: self.y.sub(other.y) }
    }

    #[verifier::when_used_as_spec(spec_neg)]
    pub fn neg(self) -> (r: Pos2)
        ensures
            r == self.spec_neg(),
    {
        Pos2 { x: self.x.neg(), y: self.y.neg() }
    }

    #[verifier::when_used_as_spec(spec_scale)]
    pub fn scale(self, f: Fixed) -> (r: Pos2)
        ensures
            r == self.spec_scale(f),
    {
        Pos2 { x: self.x.mul(f), y: self.y.mul(f) }
    }

    #[verifier::when_used_as_spec(spec_scale_int)]
    pub fn scale_int(self, n: i64) -> (r: Pos2)
        ensures
            r == self.spec_scale_int(n),
    {
        Pos2 { x: self.x.mul_int(n), y: self.y.mul_int(n) }
    }

    #[verifier::when_used_as_spec(spec_div)]
    pub fn div(self, f: Fixed) -> (r: Pos2)
        ensures
            r == self.spec_div(f),
    {
        Pos2 { x: self.x.div(f), y: self.y.div(f) }
    }

    #[verifier::when_used_as_spec(spec_scale_ratio)]
    pub fn scale_ratio(self, num: Fixed, den: Fixed) -> (r: Pos2)
        ensures
            r == self.spec_scale_ratio(num, den),
    {
        Pos2 { x: self.x.mul_div(num, den), y: self.y.mul_div(num, den) }
    }

    #[verifier::when_used_as_spec(spec_dot)]
    pub fn dot(self, other: Pos2) -> (r: Fixed)
        ensures
            r == self.spec_dot(other),
    {
        self.x.mul(other.x).add(self.y.mul(other.y))
    }

    #[verifier::when_used_as_spec(spec_length_squared)]
    pub fn length_squared(self) -> (r: Fixed)
        ensures
            r == self.spec_length_squared(),
    {
        self.dot(self)
    }

    pub fn norm_sq(self) -> (r: u128)
        ensures
            r == self.spec_norm_sq(),
    {
        proof {
            lemma_raw_product_bounds(self.x.raw, self.x.raw);
            lemma_raw_product_bounds(self.y.raw, self.y.raw);
            assert(self.x.raw * self.x.raw >= 0) by (nonlinear_arith);
            assert(self.y.raw * self.y.raw >= 0) by (nonlinear_arith);
        }
        let xx: i128 = (self.x.raw as i128) * (self.x.raw as i128);
        let yy: i128 = (self.y.raw as i128) * (self.y.raw as i128);
        (xx as u128) + (yy as u128)
    }

    #[verifier::when_used_as_spec(spec_length)]
    pub fn length(self) -> (r: Fixed)
        ensures
            r == self.spec_length(),
            r.raw >= 0,
    {
        let s: u64 = isqrt_u128(self.norm_sq());
        if s > 0x7fff_ffff_ffff_ffff {
            Fixed { raw: 0x7fff_ffff_ffff_ffff }
        } else {
            Fixed { raw: s as i64 }
        }
    }

    #[verifier::when_used_as_spec(spec_normalize)]
    pub fn normalize(self) -> (r: Pos2)
        ensures
            r == self.spec_normalize(),
    {
        let len: Fixed = self.length();
        self.div(len)
    }

    #[verifier::when_used_as_spec(spec_midpoint)]
    pub fn midpoint(self, other: Pos2) -> (r: Pos2)
        ensures
            r == self.spec_midpoint(other),
    {
        Pos2 { x: self.x.mid(other.x), y: self.y.mid(other.y) }
    }

    #[verifier::when_used_as_spec(spec_blend)]
    pub fn blend(self, prev: Pos2, next: Pos2) -> (r: Pos2)
        ensures
            r == self.spec_blend(prev, next),
    {
        Pos2 { x: self.x.blend(prev.x, next.x), y: self.y.blend(prev.y, next.y) }
    }

    #[verifier::when_used_as_spec(spec_distance)]
    pub fn distance(self, other: Pos2) -> (r: Fixed)
        ensures
            r == self.spec_distance(other),
            r.raw >= 0,
    {
        other.sub(self).length()
    }
}

} // verus!
