//! Curves through lists of typed control points, and the points at given
//! distances along them.
//!
//! A list of control points is cut into segments; each segment is a straight
//! line, a Bezier curve, a Catmull-Rom spline or the circular arc through
//! three points. [`curve::Curve::new`] approximates the segments by one
//! polyline, corrects the polyline to a declared total length and keeps the
//! arc length at each vertex, so that [`curve::Curve::point_at_distance`]
//! finds the point at any distance by a binary search and one interpolation.
//!
//! All numbers are [`fixed::Fixed`]: fixed-point numbers with 24 fractional
//! bits whose operations saturate and never fail. The same input therefore
//! gives the same curve, to the last bit, on every machine, and every
//! function of the library is total.
//!
//! The modules, from the leaves up:
//!
//! - [`fixed`]: fixed-point numbers;
//! - [`point`]: points and vectors of the plane;
//! - [`wide`]: exact quotients of numbers wider than a machine word;
//! - [`trig`]: sine, cosine and arc tangent;
//! - [`bezier`], [`catmull`], [`arc`]: the polylines of the kinds of
//!   segments;
//! - [`path`]: control points, and the polyline of a list of them;
//! - [`length`]: the table of cumulative lengths and its correction;
//! - [`curve`]: curves and the queries on them;
//! - [`laws`]: what holds of every curve.
pub mod arc;
pub mod bezier;
pub mod catmull;
pub mod curve;
pub mod fixed;
pub mod laws;
pub mod length;
pub mod path;
pub mod point;
pub mod trig;
pub mod wide;

pub use crate::arc::CircularArcProperties;
pub use crate::bezier::BezierBuffers;
pub use crate::curve::{Curve, Curve_, Points};
pub use crate::fixed::Fixed;
pub use crate::path::{PathControlPoint, PathType};
pub use crate::point::Pos2;
