//! 2D rigid-body pose ([`Pose2`], SE(2)) and angle normalization.

use vstd::prelude::*;

use crate::float::F64;
use crate::numerics::{
    deterministic, difference, minus, plus, product, rem_euclid, remainder, sin_cos, sin_cos_of,
    sum, times, Numerics,
};

verus! {

/// π.
pub const PI: u64 = 0x4009_21fb_5444_2d18;

/// 2π.
pub const TAU: u64 = 0x4019_21fb_5444_2d18;

/// A point in 2D, metres. x forward, y left, right-handed.
#[derive(Debug, Clone, Copy, PartialEq, Eq, Structural)]
pub struct Point2 {
    /// Forward coordinate, metres.
    pub x: F64,
    /// Left coordinate, metres.
    pub y: F64,
}

impl Point2 {
    /// A point from its coordinates.
    #[verifier::allow_in_spec]
    pub fn new(x: F64, y: F64) -> Point2
        returns
            (Point2 { x, y }),
    {
        Point2 { x, y }
    }

    /// `true` if both coordinates are finite.
    #[verifier::allow_in_spec]
    pub fn is_finite(self) -> bool
        returns
            self.x.is_finite() && self.y.is_finite(),
    {
        self.x.is_finite() && self.y.is_finite()
    }
}

/// `angle` lies in the half-open interval `(-π, π]`, or is a NaN.
#[verifier::allow_in_spec]
pub fn within_turn(angle: F64) -> bool
    returns
        angle.is_nan() || ((F64 { bits: PI }).negated().lt(angle) && angle.le(F64 { bits: PI })),
{
    angle.is_nan() || ((F64 { bits: PI }).negated().lt(angle) && angle.le(F64 { bits: PI }))
}

/// `angle`, or `π` if it fell out of `(-π, π]` by rounding: the two ends of the
/// interval are one heading.
#[verifier::allow_in_spec]
pub fn held_in_turn(angle: F64) -> F64
    returns
        (if within_turn(angle) {
            angle
        } else {
            F64 { bits: PI }
        }),
{
    if within_turn(angle) {
        angle
    } else {
        F64 { bits: PI }
    }
}

/// `theta` normalized to `(-π, π]`: the remainder of `π - theta` by `2π`, taken
/// from `π`.
pub open spec fn wrapped<N: Numerics>(theta: F64) -> F64 {
    let turn = remainder::<N>(sum::<N>(theta.negated(), F64 { bits: PI }), F64 { bits: TAU });
    held_in_turn(difference::<N>(turn, F64 { bits: PI }).negated())
}

/// Normalize an angle in radians to the half-open interval `(-π, π]`.
///
/// This is the only angle-wrapping function in the crate; every [`Pose2`]
/// operation routes through it. The remainder lies in `[0, 2π)`, and the two
/// negations move the closed end to `+π`; a result that rounding moves out of the
/// interval is `π`. A NaN stays a NaN.
pub fn normalize_angle<N: Numerics>(theta: F64) -> (r: F64)
    ensures
        deterministic::<N>() ==> r == wrapped::<N>(theta),
        within_turn(r),
{
    let turn = rem_euclid::<N>(
        plus::<N>(theta.negated(), F64 { bits: PI }),
        F64 { bits: TAU },
    );
    held_in_turn(minus::<N>(turn, F64 { bits: PI }).negated())
}

/// 2D rigid-body pose.
///
/// `x`, `y` in metres; `theta` in radians, counter-clockwise positive. Construct
/// via [`Pose2::new`] to get `theta` normalized.
#[derive(Debug, Clone, Copy, PartialEq, Eq, Structural)]
pub struct Pose2 {
    /// Translation x, metres.
    pub x: F64,
    /// Translation y, metres.
    pub y: F64,
    /// Heading, radians.
    pub theta: F64,
}

/// `(x, y)` rotated by `theta` and moved by `(tx, ty)`.
pub open spec fn rotated<N: Numerics>(theta: F64, tx: F64, ty: F64, x: F64, y: F64) -> Point2 {
    let (s, c) = sin_cos_of::<N>(theta);
    Point2 {
        x: difference::<N>(sum::<N>(tx, product::<N>(c, x)), product::<N>(s, y)),
        y: sum::<N>(sum::<N>(ty, product::<N>(s, x)), product::<N>(c, y)),
    }
}

impl Pose2 {
    /// The pose that [`Pose2::new`] returns.
    pub open spec fn normalized<N: Numerics>(x: F64, y: F64, theta: F64) -> Pose2 {
        Pose2 { x, y, theta: wrapped::<N>(theta) }
    }

    /// Create a pose from `x`, `y` (metres) and `theta` (radians), which is
    /// normalized to `(-π, π]`.
    pub fn new<N: Numerics>(x: F64, y: F64, theta: F64) -> (r: Pose2)
        ensures
            r.x == x && r.y == y,
            within_turn(r.theta),
            deterministic::<N>() ==> r == Pose2::normalized::<N>(x, y, theta),
    {
        Pose2 { x, y, theta: normalize_angle::<N>(theta) }
    }

    /// The identity pose (origin, zero heading).
    #[verifier::allow_in_spec]
    pub fn identity() -> Pose2
        returns
            (Pose2 { x: F64 { bits: 0 }, y: F64 { bits: 0 }, theta: F64 { bits: 0 } }),
    {
        Pose2 { x: F64 { bits: 0 }, y: F64 { bits: 0 }, theta: F64 { bits: 0 } }
    }

    /// `other`, applied in the frame of `self`.
    pub open spec fn composed<N: Numerics>(self, other: Pose2) -> Pose2 {
        let p = rotated::<N>(self.theta, self.x, self.y, other.x, other.y);
        Pose2 { x: p.x, y: p.y, theta: wrapped::<N>(sum::<N>(self.theta, other.theta)) }
    }

    /// Pose composition `self ⊕ other`: apply `other` in the frame of `self`.
    pub fn compose<N: Numerics>(&self, other: &Pose2) -> (r: Pose2)
        ensures
            deterministic::<N>() ==> r == self.composed::<N>(*other),
            within_turn(r.theta),
    {
        let p = self.transform_point::<N>(Point2 { x: other.x, y: other.y });
        Pose2 {
            x: p.x,
            y: p.y,
            theta: normalize_angle::<N>(plus::<N>(self.theta, other.theta)),
        }
    }

    /// The pose that undoes `self`.
    pub open spec fn inverted<N: Numerics>(self) -> Pose2 {
        let (s, c) = sin_cos_of::<N>(self.theta);
        Pose2 {
            x: sum::<N>(product::<N>(c, self.x), product::<N>(s, self.y)).negated(),
            y: difference::<N>(product::<N>(s, self.x), product::<N>(c, self.y)),
            theta: wrapped::<N>(self.theta.negated()),
        }
    }

    /// The inverse pose: `self ⊕ self.inverse()` is the identity.
    pub fn inverse<N: Numerics>(&self) -> (r: Pose2)
        ensures
            deterministic::<N>() ==> r == self.inverted::<N>(),
            within_turn(r.theta),
    {
        let (s, c) = sin_cos::<N>(self.theta);
        Pose2 {
            x: plus::<N>(times::<N>(c, self.x), times::<N>(s, self.y)).negated(),
            y: minus::<N>(times::<N>(s, self.x), times::<N>(c, self.y)),
            theta: normalize_angle::<N>(self.theta.negated()),
        }
    }

    /// `other`, seen from `self`.
    pub open spec fn relative<N: Numerics>(self, other: Pose2) -> Pose2 {
        self.inverted::<N>().composed::<N>(other)
    }

    /// Relative transform from `self` to `other`: `self ⊕ result` is `other`.
    pub fn between<N: Numerics>(&self, other: &Pose2) -> (r: Pose2)
        ensures
            deterministic::<N>() ==> r == self.relative::<N>(*other),
            within_turn(r.theta),
    {
        self.inverse::<N>().compose::<N>(other)
    }

    /// `p` in the world frame.
    pub open spec fn transformed<N: Numerics>(self, p: Point2) -> Point2 {
        rotated::<N>(self.theta, self.x, self.y, p.x, p.y)
    }

    /// Transform a point (metres) from this pose's frame into the world frame.
    pub fn transform_point<N: Numerics>(&self, p: Point2) -> (r: Point2)
        ensures
            deterministic::<N>() ==> r == self.transformed::<N>(p),
    {
        let (s, c) = sin_cos::<N>(self.theta);
        Point2 {
            x: minus::<N>(plus::<N>(self.x, times::<N>(c, p.x)), times::<N>(s, p.y)),
            y: plus::<N>(plus::<N>(self.y, times::<N>(s, p.x)), times::<N>(c, p.y)),
        }
    }
}

impl Default for Pose2 {
    fn default() -> (r: Pose2)
        ensures
            r == Pose2::identity(),
    {
        Pose2::identity()
    }
}

} // verus!
