//! The pose algebra up to rounding.
//!
//! Poses are composed in floating point, so the laws of rigid motions hold up to
//! rounding only. Under premises that say how far the single operations (sum,
//! difference, product, remainder, sine and cosine) may round, the laws here say how
//! far the results of composing may stray.
//!
//! Values are counted in units of 2^-1074, of which every finite value is a multiple.
//! Points of the plane are taken as complex numbers: a rotation is a product.

use vstd::prelude::*;

use crate::accuracy::{lemma_bounded_product, near};
use crate::float::{
    law_order_is_value_order, lemma_units_negated, lemma_units_of_constants, lemma_units_of_pattern,
    unit, F64,
};
use crate::numerics::{difference, product, remainder, sin_cos_of, sum, Numerics};
use crate::pose::{held_in_turn, rotated, within_turn, wrapped, Point2, Pose2, PI, TAU};

verus! {

/// Half a turn, in units.
pub open spec fn half_turn() -> int {
    (F64 { bits: PI }).units()
}

/// `k` full turns, in units.
pub open spec fn laps(k: int) -> int {
    k * (2 * half_turn())
}

/// `a` and `b` are one heading, up to `slack` and full turns.
pub open spec fn same_heading(a: int, b: int, slack: int) -> bool {
    exists|k: int| near(a, b + #[trigger] laps(k), slack)
}

// ---- The plane ----

/// A point of the plane, or a rotation: `re + im·i`, in units.
pub ghost struct Complex {
    /// Real part: x, or the cosine.
    pub re: int,
    /// Imaginary part: y, or the sine.
    pub im: int,
}

impl Complex {
    /// `self + b`.
    pub open spec fn plus(self, b: Complex) -> Complex {
        Complex { re: self.re + b.re, im: self.im + b.im }
    }

    /// `self - b`.
    pub open spec fn minus(self, b: Complex) -> Complex {
        Complex { re: self.re - b.re, im: self.im - b.im }
    }

    /// `self · b`.
    pub open spec fn times(self, b: Complex) -> Complex {
        Complex {
            re: self.re * b.re - self.im * b.im,
            im: self.re * b.im + self.im * b.re,
        }
    }

    /// `k · self`.
    pub open spec fn scaled(self, k: int) -> Complex {
        Complex { re: k * self.re, im: k * self.im }
    }

    /// The number mirrored at the real axis: the inverse of a rotation.
    pub open spec fn mirrored(self) -> Complex {
        Complex { re: self.re, im: -self.im }
    }

    /// The squared distance from 0.
    pub open spec fn square(self) -> int {
        self.re * self.re + self.im * self.im
    }

    /// Neither part is larger than `bound`.
    pub open spec fn is_within(self, bound: int) -> bool {
        near(self.re, 0, bound) && near(self.im, 0, bound)
    }
}

/// The product of two bounded points is bounded.
proof fn lemma_times_bound(a: Complex, b: Complex, x: int, y: int)
    requires
        a.is_within(x),
        b.is_within(y),
        x >= 0,
        y >= 0,
    ensures
        a.times(b).is_within(2 * (x * y)),
{
    lemma_bounded_product(a.re, b.re, x, y);
    lemma_bounded_product(a.im, b.im, x, y);
    lemma_bounded_product(a.re, b.im, x, y);
    lemma_bounded_product(a.im, b.re, x, y);
}

/// A multiple of a bounded point is bounded.
proof fn lemma_scaled_bound(a: Complex, k: int, x: int, y: int)
    requires
        near(k, 0, x),
        a.is_within(y),
        x >= 0,
        y >= 0,
    ensures
        a.scaled(k).is_within(x * y),
{
    lemma_bounded_product(k, a.re, x, y);
    lemma_bounded_product(k, a.im, x, y);
}

/// A bound on a multiple is a bound on the point.
proof fn lemma_divided_bound(a: Complex, k: int, bound: int)
    requires
        k > 0,
        a.scaled(k).is_within(k * bound),
    ensures
        a.is_within(bound),
{
    let (x, y) = (a.re, a.im);
    assert(-bound <= x && x <= bound) by (nonlinear_arith)
        requires
            k > 0,
            -(k * bound) <= k * x,
            k * x <= k * bound,
    ;
    assert(-bound <= y && y <= bound) by (nonlinear_arith)
        requires
            k > 0,
            -(k * bound) <= k * y,
            k * y <= k * bound,
    ;
}

/// Products commute.
proof fn lemma_times_commutes(a: Complex, b: Complex)
    ensures
        a.times(b) == b.times(a),
{
    let (p, q, r, s) = (a.re, a.im, b.re, b.im);
    assert(p * r == r * p && q * s == s * q && p * s == s * p && q * r == r * q)
        by (nonlinear_arith);
}

/// Products distribute over sums and differences.
proof fn lemma_times_distributes(a: Complex, b: Complex, c: Complex)
    ensures
        a.times(b.plus(c)) == a.times(b).plus(a.times(c)),
        a.times(b.minus(c)) == a.times(b).minus(a.times(c)),
        b.plus(c).times(a) == b.times(a).plus(c.times(a)),
{
    lemma_spread(a.re, b.re, c.re);
    lemma_spread(a.im, b.im, c.im);
    lemma_spread(a.re, b.im, c.im);
    lemma_spread(a.im, b.re, c.re);
    lemma_times_commutes(a, b.plus(c));
    lemma_times_commutes(a, b);
    lemma_times_commutes(a, c);
}

/// A product over a sum and a difference.
proof fn lemma_spread(a: int, x: int, y: int)
    ensures
        a * (x + y) == a * x + a * y,
        a * (x - y) == a * x - a * y,
{
    assert(a * (x + y) == a * x + a * y) by (nonlinear_arith);
    assert(a * (x - y) == a * x - a * y) by (nonlinear_arith);
}

/// A product of three numbers, regrouped.
proof fn lemma_regroup(a: int, b: int, x: int)
    ensures
        a * (b * x) == (a * b) * x,
        a * (b * x) == b * (a * x),
{
    assert(a * (b * x) == (a * b) * x) by (nonlinear_arith);
    assert(b * (a * x) == (a * b) * x) by (nonlinear_arith);
}

/// A sum or difference times a number.
proof fn lemma_spread_left(x: int, y: int, a: int)
    ensures
        (x + y) * a == x * a + y * a,
        (x - y) * a == x * a - y * a,
{
    assert((x + y) * a == x * a + y * a) by (nonlinear_arith);
    assert((x - y) * a == x * a - y * a) by (nonlinear_arith);
}

/// Products associate.
proof fn lemma_times_associates(a: Complex, b: Complex, c: Complex)
    ensures
        a.times(b.times(c)) == a.times(b).times(c),
{
    lemma_spread(a.re, b.re * c.re, b.im * c.im);
    lemma_spread(a.im, b.re * c.im, b.im * c.re);
    lemma_spread(a.re, b.re * c.im, b.im * c.re);
    lemma_spread(a.im, b.re * c.re, b.im * c.im);
    lemma_spread_left(a.re * b.re, a.im * b.im, c.re);
    lemma_spread_left(a.re * b.im, a.im * b.re, c.im);
    lemma_spread_left(a.re * b.re, a.im * b.im, c.im);
    lemma_spread_left(a.re * b.im, a.im * b.re, c.re);
    lemma_regroup(a.re, b.re, c.re);
    lemma_regroup(a.re, b.im, c.im);
    lemma_regroup(a.im, b.re, c.im);
    lemma_regroup(a.im, b.im, c.re);
    lemma_regroup(a.re, b.re, c.im);
    lemma_regroup(a.re, b.im, c.re);
    lemma_regroup(a.im, b.re, c.re);
    lemma_regroup(a.im, b.im, c.im);
}

/// A number times its mirror image is its square.
proof fn lemma_times_mirrored(r: Complex, d: Complex)
    ensures
        r.times(r.mirrored().times(d)) == d.scaled(r.square()),
        r.mirrored().times(r.times(d)) == d.scaled(r.square()),
{
    let m = r.mirrored();
    lemma_times_associates(r, m, d);
    lemma_times_associates(m, r, d);
    let (c, s) = (r.re, r.im);
    assert(c * (-s) + s * c == 0 && c * s + (-s) * c == 0 && s * (-s) == -(s * s) && (-s) * s == -(s
        * s)) by (nonlinear_arith);
    assert(r.times(m) == Complex { re: r.square(), im: 0 });
    assert(m.times(r) == Complex { re: r.square(), im: 0 });
    assert(0 * d.re == 0 && 0 * d.im == 0) by (nonlinear_arith);
}

/// Multiples pass through sums, differences and products.
proof fn lemma_scaled(k: int, a: Complex, b: Complex)
    ensures
        a.plus(b).scaled(k) == a.scaled(k).plus(b.scaled(k)),
        a.minus(b).scaled(k) == a.scaled(k).minus(b.scaled(k)),
        a.times(b.scaled(k)) == a.times(b).scaled(k),
        a.scaled(k).times(b) == a.times(b).scaled(k),
{
    lemma_spread(k, a.re, b.re);
    lemma_spread(k, a.im, b.im);
    lemma_regroup(a.re, k, b.re);
    lemma_regroup(a.im, k, b.im);
    lemma_regroup(a.re, k, b.im);
    lemma_regroup(a.im, k, b.re);
    lemma_regroup(k, a.re, b.re);
    lemma_regroup(k, a.im, b.im);
    lemma_regroup(k, a.re, b.im);
    lemma_regroup(k, a.im, b.re);
    lemma_spread(k, a.re * b.re, a.im * b.im);
    lemma_spread(k, a.re * b.im, a.im * b.re);
}

// ---- Premises on single operations ----

/// How the single operations round, in units.
pub ghost struct Precision {
    /// Bound of the coordinates.
    pub reach: int,
    /// Bound of the operands.
    pub limit: int,
    /// Greatest error of a sum, difference, product or remainder.
    pub e: int,
    /// Greatest error of the addition theorems of sine and cosine.
    pub g: int,
    /// Greatest error of `sin² + cos²`.
    pub d: int,
}

/// Cosine and sine of an angle.
pub open spec fn rotation<N: Numerics>(theta: F64) -> Complex {
    let (s, c) = sin_cos_of::<N>(theta);
    Complex { re: c.units(), im: s.units() }
}

/// A finite angle in `(-π, π]`.
pub open spec fn is_angle(a: F64) -> bool {
    a.is_finite() && within_turn(a)
}

/// A point of the plane, in units.
pub open spec fn place(x: F64, y: F64) -> Complex {
    Complex { re: x.units(), im: y.units() }
}

impl Precision {
    /// No bound is negative, and the operands that occur are within theirs.
    pub open spec fn wf(self) -> bool {
        &&& self.reach >= 0
        &&& self.e >= 0
        &&& self.g >= 0
        &&& self.d >= 0
        &&& self.limit >= 2 * self.reach + 2 * self.e
        &&& self.limit >= 4 * half_turn() + 2 * self.e
    }

    /// A finite operand within the limit.
    pub open spec fn admits(self, a: F64) -> bool {
        a.is_finite() && near(a.units(), 0, self.limit)
    }

    /// A finite coordinate within reach.
    pub open spec fn reaches(self, a: F64) -> bool {
        a.is_finite() && near(a.units(), 0, self.reach)
    }

    /// A pose within reach.
    pub open spec fn holds(self, p: Pose2) -> bool {
        self.reaches(p.x) && self.reaches(p.y) && is_angle(p.theta)
    }

    /// `N` adds, subtracts and multiplies up to `e`; one factor is at most one.
    pub open spec fn describes_arithmetic<N: Numerics>(self) -> bool {
        &&& forall|a: F64, b: F64|
            self.admits(a) && self.admits(b) ==> (#[trigger] sum::<N>(a, b)).is_finite() && near(
                sum::<N>(a, b).units(),
                a.units() + b.units(),
                self.e,
            )
        &&& forall|a: F64, b: F64|
            self.admits(a) && self.admits(b) ==> (#[trigger] difference::<N>(a, b)).is_finite()
                && near(difference::<N>(a, b).units(), a.units() - b.units(), self.e)
        &&& forall|a: F64, b: F64|
            a.is_finite() && near(a.units(), 0, unit()) && self.admits(b) ==> (#[trigger] product::<
                N,
            >(a, b)).is_finite() && near(
                unit() * product::<N>(a, b).units(),
                a.units() * b.units(),
                unit() * self.e,
            )
    }

    /// `N` gives the remainder by a full turn up to `e`: it lies within one turn, and is
    /// the same heading.
    pub open spec fn describes_remainder<N: Numerics>(self) -> bool {
        forall|a: F64|
            self.admits(a) ==> {
                let r = #[trigger] remainder::<N>(a, F64 { bits: TAU });
                &&& r.is_finite()
                &&& 0 <= r.units() <= 2 * half_turn()
                &&& same_heading(r.units(), a.units(), self.e)
            }
    }

    /// `N` gives sines and cosines that lie on the unit circle up to `d`, are those of
    /// the mirrored rotation for opposite headings and of the product of two rotations
    /// for the sum of two headings up to `g`, and are exact at zero.
    pub open spec fn describes_rotations<N: Numerics>(self) -> bool {
        &&& forall|a: F64|
            is_angle(a) ==> {
                let (s, c) = sin_cos_of::<N>(a);
                let r = #[trigger] rotation::<N>(a);
                &&& s.is_finite() && c.is_finite()
                &&& r.is_within(unit())
                &&& near(r.square(), unit() * unit(), unit() * self.d)
            }
        &&& forall|a: F64, b: F64|
            #![trigger rotation::<N>(a), rotation::<N>(b)]
            is_angle(a) && is_angle(b) && same_heading(a.units(), -b.units(), 5 * self.e)
                ==> rotation::<N>(a).minus(rotation::<N>(b).mirrored()).is_within(self.g)
        &&& forall|a: F64, b: F64, x: F64|
            #![trigger rotation::<N>(a), rotation::<N>(b), rotation::<N>(x)]
            is_angle(a) && is_angle(b) && is_angle(x) && same_heading(
                x.units(),
                a.units() + b.units(),
                5 * self.e,
            ) ==> rotation::<N>(x).scaled(unit()).minus(
                rotation::<N>(a).times(rotation::<N>(b)),
            ).is_within(unit() * self.g)
        &&& rotation::<N>(F64 { bits: 0 }) == (Complex { re: unit(), im: 0 })
    }

    /// `N` rounds so in every operation.
    pub open spec fn describes<N: Numerics>(self) -> bool {
        &&& self.describes_arithmetic::<N>()
        &&& self.describes_remainder::<N>()
        &&& self.describes_rotations::<N>()
    }
}

// ---- Angles ----

/// Half a turn is positive and finite, and the two ends of the interval are its values.
pub proof fn lemma_half_turn()
    ensures
        half_turn() > 0,
        (F64 { bits: PI }).is_finite(),
        (F64 { bits: PI }).negated().is_finite(),
        (F64 { bits: PI }).negated().units() == -half_turn(),
        is_angle(F64 { bits: PI }),
        is_angle(F64 { bits: 0 }),
        (F64 { bits: 0 }).units() == 0,
        unit() > 0,
{
    let (zero, pi) = (F64 { bits: 0 }, F64 { bits: PI });
    lemma_units_of_constants();
    lemma_units_negated(pi);
    law_order_is_value_order(zero, pi);
}

/// An angle lies between the ends of the interval, by value.
pub proof fn lemma_angle_range(a: F64)
    requires
        is_angle(a),
    ensures
        -half_turn() < a.units() <= half_turn(),
{
    let pi = F64 { bits: PI };
    lemma_half_turn();
    law_order_is_value_order(pi.negated(), a);
    law_order_is_value_order(a, pi);
}

/// Headings add up.
pub proof fn lemma_headings_add(a: int, b: int, c: int, x: int, s: int, t: int)
    requires
        same_heading(a, b, s),
        same_heading(c, a + x, t),
    ensures
        same_heading(c, b + x, s + t),
{
    let k = choose|k: int| near(a, b + #[trigger] laps(k), s);
    let j = choose|j: int| near(c, a + x + #[trigger] laps(j), t);
    lemma_spread_left(k, j, 2 * half_turn());
    assert(laps(k + j) == laps(k) + laps(j));
    assert(near(c, b + x + laps(k + j), s + t));
}

/// Close numbers are one heading.
pub proof fn lemma_near_is_heading(a: int, b: int, s: int)
    requires
        near(a, b, s),
    ensures
        same_heading(a, b, s),
{
    assert(0 * (2 * half_turn()) == 0) by (nonlinear_arith);
    assert(near(a, b + laps(0), s));
}

/// Wrapping an angle keeps its heading up to `4·e` and lands in `(-π, π]`.
pub proof fn law_wrapping_keeps_the_heading<N: Numerics>(c: Precision, theta: F64)
    requires
        c.wf(),
        c.describes_arithmetic::<N>(),
        c.describes_remainder::<N>(),
        theta.is_finite(),
        near(theta.units(), 0, 2 * half_turn() + c.e),
    ensures
        is_angle(wrapped::<N>(theta)),
        same_heading(wrapped::<N>(theta).units(), theta.units(), 4 * c.e),
{
    let pi = F64 { bits: PI };
    lemma_half_turn();
    lemma_units_negated(theta);
    let s = sum::<N>(theta.negated(), pi);
    assert(c.admits(theta.negated()) && c.admits(pi));
    assert(c.admits(s));
    let r = remainder::<N>(s, F64 { bits: TAU });
    assert(c.admits(r));
    let t = difference::<N>(r, pi);
    lemma_units_negated(t);
    let w = t.negated();
    let result = held_in_turn(w);
    law_order_is_value_order(pi.negated(), w);
    law_order_is_value_order(w, pi);
    let k = choose|k: int| near(r.units(), s.units() + #[trigger] laps(k), c.e);
    assert((-k) * (2 * half_turn()) == -(k * (2 * half_turn()))) by (nonlinear_arith);
    assert(laps(-k) == -laps(k));
    assert(near(w.units(), theta.units() + laps(-k), 3 * c.e));
    if within_turn(w) {
        assert(near(result.units(), theta.units() + laps(-k), 4 * c.e));
    } else if w.units() > half_turn() {
        assert(near(result.units(), theta.units() + laps(-k), 4 * c.e));
    } else {
        lemma_spread_left(-k, 1, 2 * half_turn());
        assert(laps(-k + 1) == laps(-k) + 2 * half_turn());
        assert(near(result.units(), theta.units() + laps(-k + 1), 4 * c.e));
    }
}

/// Wrapping an angle that is wrapped already leaves its heading, up to `4·e`; where
/// nothing rounds, it leaves the angle itself.
pub proof fn law_wrapping_is_idempotent<N: Numerics>(c: Precision, theta: F64)
    requires
        c.wf(),
        c.describes_arithmetic::<N>(),
        c.describes_remainder::<N>(),
        theta.is_finite(),
        near(theta.units(), 0, 2 * half_turn() + c.e),
    ensures
        is_angle(wrapped::<N>(wrapped::<N>(theta))),
        same_heading(
            wrapped::<N>(wrapped::<N>(theta)).units(),
            wrapped::<N>(theta).units(),
            4 * c.e,
        ),
        c.e == 0 ==> wrapped::<N>(wrapped::<N>(theta)).units() == wrapped::<N>(theta).units(),
{
    let once = wrapped::<N>(theta);
    let twice = wrapped::<N>(once);
    law_wrapping_keeps_the_heading::<N>(c, theta);
    lemma_half_turn();
    lemma_angle_range(once);
    law_wrapping_keeps_the_heading::<N>(c, once);
    lemma_angle_range(twice);
    if c.e == 0 {
        let k = choose|k: int|
            near(twice.units(), once.units() + #[trigger] laps(k), 4 * c.e);
        let turn = 2 * half_turn();
        assert(k == 0) by (nonlinear_arith)
            requires
                -turn < k * turn < turn,
                turn > 0,
        ;
        assert(0 * turn == 0) by (nonlinear_arith);
    }
}

/// The heading of a composition is the sum of the headings, up to `5·e`.
proof fn lemma_composed_heading<N: Numerics>(c: Precision, a: F64, b: F64)
    requires
        c.wf(),
        c.describes::<N>(),
        is_angle(a),
        is_angle(b),
    ensures
        is_angle(wrapped::<N>(sum::<N>(a, b))),
        same_heading(wrapped::<N>(sum::<N>(a, b)).units(), a.units() + b.units(), 5 * c.e),
{
    let s = sum::<N>(a, b);
    lemma_half_turn();
    lemma_angle_range(a);
    lemma_angle_range(b);
    assert(c.admits(a) && c.admits(b));
    law_wrapping_keeps_the_heading::<N>(c, s);
    lemma_near_is_heading(s.units(), a.units() + b.units(), c.e);
    lemma_headings_add(s.units(), a.units() + b.units(), wrapped::<N>(s).units(), 0, c.e, 4 * c.e);
}

/// The heading of an inverse is the opposite, up to `4·e`.
proof fn lemma_inverted_heading<N: Numerics>(c: Precision, a: F64)
    requires
        c.wf(),
        c.describes::<N>(),
        is_angle(a),
    ensures
        is_angle(wrapped::<N>(a.negated())),
        same_heading(wrapped::<N>(a.negated()).units(), -a.units(), 4 * c.e),
{
    lemma_half_turn();
    lemma_angle_range(a);
    lemma_units_negated(a);
    law_wrapping_keeps_the_heading::<N>(c, a.negated());
}

// ---- Rotated points ----

/// The difference between a point times one and its exact value.
pub open spec fn error(z: Complex, exact: Complex) -> Complex {
    z.scaled(unit()).minus(exact)
}

/// A product with a sine or cosine, and its range.
proof fn lemma_product<N: Numerics>(c: Precision, a: F64, x: F64)
    requires
        c.wf(),
        c.describes_arithmetic::<N>(),
        a.is_finite(),
        near(a.units(), 0, unit()),
        c.reaches(x),
    ensures
        product::<N>(a, x).is_finite(),
        near(unit() * product::<N>(a, x).units(), a.units() * x.units(), unit() * c.e),
        near(product::<N>(a, x).units(), 0, c.reach + c.e),
{
    lemma_half_turn();
    assert(c.admits(x));
    let p = product::<N>(a, x).units();
    lemma_bounded_product(a.units(), x.units(), unit(), c.reach);
    let (u, bound) = (unit(), c.reach + c.e);
    lemma_spread(u, c.reach, c.e);
    assert(-bound <= p && p <= bound) by (nonlinear_arith)
        requires
            u > 0,
            -(u * bound) <= u * p,
            u * p <= u * bound,
    ;
}

/// Transforming a point is exact up to `4·e`.
pub proof fn lemma_rotated<N: Numerics>(c: Precision, theta: F64, tx: F64, ty: F64, x: F64, y: F64)
    requires
        c.wf(),
        c.describes::<N>(),
        is_angle(theta),
        c.reaches(tx),
        c.reaches(ty),
        c.reaches(x),
        c.reaches(y),
    ensures
        ({
            let r = rotated::<N>(theta, tx, ty, x, y);
            &&& r.is_finite()
            &&& error(
                place(r.x, r.y),
                place(tx, ty).scaled(unit()).plus(rotation::<N>(theta).times(place(x, y))),
            ).is_within(unit() * (4 * c.e))
        }),
{
    lemma_half_turn();
    let (s, co) = sin_cos_of::<N>(theta);
    let rot = rotation::<N>(theta);
    lemma_product::<N>(c, co, x);
    lemma_product::<N>(c, s, y);
    lemma_product::<N>(c, s, x);
    lemma_product::<N>(c, co, y);
    let (cx, sy, sx, cy) = (
        product::<N>(co, x),
        product::<N>(s, y),
        product::<N>(s, x),
        product::<N>(co, y),
    );
    let (px, py) = (sum::<N>(tx, cx), sum::<N>(ty, sx));
    assert(c.admits(tx) && c.admits(ty) && c.admits(cx) && c.admits(sx) && c.admits(sy) && c.admits(
        cy,
    ));
    assert(c.admits(px) && c.admits(py));
    let r = rotated::<N>(theta, tx, ty, x, y);
    let u = unit();
    lemma_scaled_difference(u, r.x.units(), px.units() - sy.units(), c.e);
    lemma_scaled_difference(u, px.units(), tx.units() + cx.units(), c.e);
    lemma_scaled_difference(u, r.y.units(), py.units() + cy.units(), c.e);
    lemma_scaled_difference(u, py.units(), ty.units() + sx.units(), c.e);
    lemma_spread(u, px.units(), sy.units());
    lemma_spread(u, tx.units(), cx.units());
    lemma_spread(u, py.units(), cy.units());
    lemma_spread(u, ty.units(), sx.units());
    assert(u * (4 * c.e) == 4 * (u * c.e)) by (nonlinear_arith);
}

/// A bound on a difference, times a unit.
proof fn lemma_scaled_difference(u: int, a: int, b: int, e: int)
    requires
        u > 0,
        near(a, b, e),
    ensures
        near(u * a, u * b, u * e),
{
    assert(u * a - u * b <= u * e && -(u * e) <= u * a - u * b) by (nonlinear_arith)
        requires
            u > 0,
            -e <= a - b,
            a - b <= e,
    ;
}

/// Inverting a pose is exact up to `4·e`, and its rotation up to `g`.
proof fn lemma_inverted<N: Numerics>(c: Precision, p: Pose2)
    requires
        c.wf(),
        c.describes::<N>(),
        c.holds(p),
    ensures
        ({
            let r = p.inverted::<N>();
            let rot = rotation::<N>(p.theta);
            &&& r.x.is_finite() && r.y.is_finite()
            &&& is_angle(r.theta)
            &&& error(
                place(r.x, r.y),
                rot.mirrored().times(place(p.x, p.y)).scaled(-1),
            ).is_within(unit() * (4 * c.e))
            &&& rotation::<N>(r.theta).minus(rot.mirrored()).is_within(c.g)
        }),
{
    lemma_half_turn();
    let (s, co) = sin_cos_of::<N>(p.theta);
    let rot = rotation::<N>(p.theta);
    lemma_product::<N>(c, co, p.x);
    lemma_product::<N>(c, s, p.y);
    lemma_product::<N>(c, s, p.x);
    lemma_product::<N>(c, co, p.y);
    let (cx, sy, sx, cy) = (
        product::<N>(co, p.x),
        product::<N>(s, p.y),
        product::<N>(s, p.x),
        product::<N>(co, p.y),
    );
    assert(c.admits(cx) && c.admits(sx) && c.admits(sy) && c.admits(cy));
    let total = sum::<N>(cx, sy);
    let r = p.inverted::<N>();
    lemma_units_negated(total);
    let u = unit();
    lemma_scaled_difference(u, total.units(), cx.units() + sy.units(), c.e);
    lemma_scaled_difference(u, r.y.units(), sx.units() - cy.units(), c.e);
    lemma_spread(u, cx.units(), sy.units());
    lemma_spread(u, sx.units(), cy.units());
    let (si, x, y, t) = (s.units(), p.x.units(), p.y.units(), total.units());
    assert((-si) * y == -(si * y) && (-si) * x == -(si * x) && u * (-t) == -(u * t))
        by (nonlinear_arith);
    assert(u * (4 * c.e) == 4 * (u * c.e)) by (nonlinear_arith);
    assert(u * c.e >= 0) by (nonlinear_arith)
        requires
            u > 0,
            c.e >= 0,
    ;
    lemma_inverted_heading::<N>(c, p.theta);
    let k = choose|k: int| near(r.theta.units(), -p.theta.units() + #[trigger] laps(k), 4 * c.e);
    assert(near(r.theta.units(), -p.theta.units() + laps(k), 5 * c.e));
    assert(rotation::<N>(r.theta).minus(rot.mirrored()).is_within(c.g));
}

// ---- Relative poses ----

/// Error of a relative pose, times one.
pub open spec fn relative_error(c: Precision) -> int {
    2 * (unit() * (4 * c.e)) + 2 * (c.g * c.reach)
}

/// The point `b` seen from the pose `a` is the difference of the positions, rotated
/// back, up to the error of a relative pose.
proof fn lemma_seen_from<N: Numerics>(c: Precision, a: Pose2, x: F64, y: F64)
    requires
        c.wf(),
        c.describes::<N>(),
        c.holds(a),
        c.holds(a.inverted::<N>()),
        c.reaches(x),
        c.reaches(y),
    ensures
        ({
            let inv = a.inverted::<N>();
            let r = rotated::<N>(inv.theta, inv.x, inv.y, x, y);
            let d = place(x, y).minus(place(a.x, a.y));
            &&& r.is_finite()
            &&& error(place(r.x, r.y), rotation::<N>(a.theta).mirrored().times(d)).is_within(
                relative_error(c),
            )
            &&& relative_error(c) >= 0
        }),
{
    lemma_half_turn();
    lemma_inverted::<N>(c, a);
    let inv = a.inverted::<N>();
    lemma_rotated::<N>(c, inv.theta, inv.x, inv.y, x, y);
    let r = rotated::<N>(inv.theta, inv.x, inv.y, x, y);
    let rot = rotation::<N>(a.theta).mirrored();
    let rot1 = rotation::<N>(inv.theta);
    let (pa, pb, pi, pr) = (place(a.x, a.y), place(x, y), place(inv.x, inv.y), place(r.x, r.y));
    let gamma = rot1.minus(rot);
    lemma_times_bound(gamma, pb, c.g, c.reach);
    lemma_times_distributes(pb, rot, gamma);
    assert(rot.plus(gamma) == rot1);
    assert(rot1.times(pb) == rot.times(pb).plus(gamma.times(pb)));
    lemma_times_distributes(rot, pb, pa);
    let alpha = error(pi, rot.times(pa).scaled(-1));
    let beta = error(pr, pi.scaled(unit()).plus(rot1.times(pb)));
    assert((-1) * rot.times(pa).re == -rot.times(pa).re && (-1) * rot.times(pa).im == -rot.times(
        pa,
    ).im);
    let (u, e, g, reach) = (unit(), c.e, c.g, c.reach);
    assert(u * (4 * e) >= 0 && g * reach >= 0) by (nonlinear_arith)
        requires
            u > 0,
            e >= 0,
            g >= 0,
            reach >= 0,
    ;
    assert(error(pr, rot.times(pb.minus(pa))) == alpha.plus(beta).plus(gamma.times(pb)));
}

// ---- Laws ----

/// Composing a pose with the relative pose to another gives the other, up to rounding:
/// each coordinate strays by at most `20·e + (4·g·reach + 2·d·reach) / one`, the
/// heading by at most `14·e` and full turns.
pub proof fn law_between_leads_to_the_other<N: Numerics>(c: Precision, a: Pose2, b: Pose2)
    requires
        c.wf(),
        c.describes::<N>(),
        c.holds(a),
        c.holds(b),
        c.holds(a.inverted::<N>()),
        c.holds(a.relative::<N>(b)),
    ensures
        ({
            let z = a.composed::<N>(a.relative::<N>(b));
            let bound = 5 * (unit() * (4 * c.e)) + 4 * (c.g * c.reach) + 2 * (c.d * c.reach);
            &&& place(z.x, z.y).minus(place(b.x, b.y)).scaled(unit()).is_within(bound)
            &&& same_heading(z.theta.units(), b.theta.units(), 14 * c.e)
        }),
{
    lemma_half_turn();
    let inv = a.inverted::<N>();
    let rel = a.relative::<N>(b);
    let z = a.composed::<N>(rel);
    lemma_seen_from::<N>(c, a, b.x, b.y);
    lemma_rotated::<N>(c, a.theta, a.x, a.y, rel.x, rel.y);
    let rot = rotation::<N>(a.theta);
    let (pa, pb, pr, pz) = (place(a.x, a.y), place(b.x, b.y), place(rel.x, rel.y), place(z.x, z.y));
    let d = pb.minus(pa);
    let kappa = error(pr, rot.mirrored().times(d));
    let delta = error(pz, pa.scaled(unit()).plus(rot.times(pr)));
    let k = relative_error(c);
    let u = unit();
    // u·(u·(z - b)) = (|rot|² - u²)·d + rot·kappa + u·delta
    let eta = rot.square() - u * u;
    lemma_scaled(u, rot, pr);
    lemma_times_distributes(rot, rot.mirrored().times(d), kappa);
    assert(rot.mirrored().times(d).plus(kappa) == pr.scaled(u));
    lemma_times_mirrored(rot, d);
    assert(rot.times(pr).scaled(u) == d.scaled(rot.square()).plus(rot.times(kappa)));
    lemma_spread_left(rot.square(), u * u, d.re);
    lemma_spread_left(rot.square(), u * u, d.im);
    assert(d.scaled(rot.square()) == d.scaled(eta).plus(d.scaled(u * u)));
    lemma_twice_scaled(u, d);
    let x = pz.minus(pb).scaled(u);
    lemma_scaled(u, pz.scaled(u), pa.scaled(u).plus(rot.times(pr)));
    lemma_scaled(u, pa.scaled(u), rot.times(pr));
    lemma_scaled(u, pz, pb);
    lemma_scaled(u, pz.scaled(u), pb.scaled(u));
    lemma_scaled(u, pb, pa);
    lemma_scaled(u, pb.scaled(u), pa.scaled(u));
    assert(x.scaled(u) == d.scaled(eta).plus(rot.times(kappa)).plus(delta.scaled(u)));
    lemma_scaled_bound(d, eta, u * c.d, 2 * c.reach);
    lemma_times_bound(rot, kappa, u, k);
    lemma_scaled_bound(delta, u, u, u * (4 * c.e));
    let bound = 5 * (u * (4 * c.e)) + 4 * (c.g * c.reach) + 2 * (c.d * c.reach);
    lemma_bound_sum(u, c.d, 2 * c.reach, 2 * k + u * (4 * c.e));
    lemma_bound_sum(u, 1, 2 * k, u * (4 * c.e));
    assert(2 * (u * k) == u * (2 * k)) by (nonlinear_arith);
    assert(c.d * (2 * c.reach) == 2 * (c.d * c.reach)) by (nonlinear_arith);
    lemma_divided_bound(x, u, bound);
    lemma_heading_restored::<N>(c, a, b);
}

/// A unit times a sum of bounds.
proof fn lemma_bound_sum(u: int, d: int, x: int, y: int)
    ensures
        u * (d * x + y) == (u * d) * x + u * y,
{
    lemma_spread(u, d * x, y);
    lemma_regroup(u, d, x);
}

/// A multiple of a multiple.
proof fn lemma_twice_scaled(u: int, a: Complex)
    ensures
        a.scaled(u).scaled(u) == a.scaled(u * u),
{
    lemma_regroup(u, u, a.re);
    lemma_regroup(u, u, a.im);
}

/// The heading of a composition with a relative pose.
proof fn lemma_heading_restored<N: Numerics>(c: Precision, a: Pose2, b: Pose2)
    requires
        c.wf(),
        c.describes::<N>(),
        is_angle(a.theta),
        is_angle(b.theta),
    ensures
        is_angle(a.relative::<N>(b).theta),
        same_heading(
            a.relative::<N>(b).theta.units(),
            b.theta.units() - a.theta.units(),
            9 * c.e,
        ),
        same_heading(
            a.composed::<N>(a.relative::<N>(b)).theta.units(),
            b.theta.units(),
            14 * c.e,
        ),
{
    let inv = wrapped::<N>(a.theta.negated());
    let rel = a.relative::<N>(b).theta;
    let z = a.composed::<N>(a.relative::<N>(b)).theta;
    lemma_inverted_heading::<N>(c, a.theta);
    lemma_composed_heading::<N>(c, inv, b.theta);
    lemma_headings_add(
        inv.units(),
        -a.theta.units(),
        rel.units(),
        b.theta.units(),
        4 * c.e,
        5 * c.e,
    );
    lemma_composed_heading::<N>(c, a.theta, rel);
    lemma_headings_add(
        rel.units(),
        b.theta.units() - a.theta.units(),
        z.units(),
        a.theta.units(),
        9 * c.e,
        5 * c.e,
    );
}

/// Composing the inverse of a pose with the pose gives the identity, up to rounding;
/// this is the relative pose from the pose to itself. Each coordinate strays by at most
/// `8·e + 2·g·reach / one`, the heading by at most `9·e`.
pub proof fn law_between_itself_is_identity<N: Numerics>(c: Precision, a: Pose2)
    requires
        c.wf(),
        c.describes::<N>(),
        c.holds(a),
        c.holds(a.inverted::<N>()),
    ensures
        a.relative::<N>(a) == a.inverted::<N>().composed::<N>(a),
        ({
            let r = a.relative::<N>(a);
            &&& place(r.x, r.y).scaled(unit()).is_within(relative_error(c))
            &&& same_heading(r.theta.units(), 0, 9 * c.e)
        }),
{
    lemma_seen_from::<N>(c, a, a.x, a.y);
    lemma_heading_restored::<N>(c, a, a);
    let rot = rotation::<N>(a.theta).mirrored();
    let none = Complex { re: 0, im: 0 };
    assert(place(a.x, a.y).minus(place(a.x, a.y)) == none);
    let (p, q) = (rot.re, rot.im);
    assert(p * 0 == 0 && q * 0 == 0) by (nonlinear_arith);
    assert(rot.times(none) == none);
}

/// Composing a pose with its inverse gives the identity, up to rounding: each
/// coordinate strays by at most `12·e + d·reach / one`, the heading by at most `9·e`.
pub proof fn law_inverse_leads_back<N: Numerics>(c: Precision, a: Pose2)
    requires
        c.wf(),
        c.describes::<N>(),
        c.holds(a),
        c.holds(a.inverted::<N>()),
    ensures
        ({
            let z = a.composed::<N>(a.inverted::<N>());
            let bound = 3 * (unit() * (4 * c.e)) + c.d * c.reach;
            &&& place(z.x, z.y).scaled(unit()).is_within(bound)
            &&& same_heading(z.theta.units(), 0, 9 * c.e)
        }),
{
    lemma_half_turn();
    let inv = a.inverted::<N>();
    let z = a.composed::<N>(inv);
    lemma_inverted::<N>(c, a);
    lemma_rotated::<N>(c, a.theta, a.x, a.y, inv.x, inv.y);
    let rot = rotation::<N>(a.theta);
    let (pa, pi, pz) = (place(a.x, a.y), place(inv.x, inv.y), place(z.x, z.y));
    let alpha = error(pi, rot.mirrored().times(pa).scaled(-1));
    let delta = error(pz, pa.scaled(unit()).plus(rot.times(pi)));
    let u = unit();
    let eta = rot.square() - u * u;
    // u·(u·z) = (u² - |rot|²)·a + rot·alpha + u·delta
    let back = rot.mirrored().times(pa).scaled(-1);
    lemma_scaled(u, rot, pi);
    lemma_scaled(-1, rot, rot.mirrored().times(pa));
    lemma_times_distributes(rot, back, alpha);
    assert(back.plus(alpha) == pi.scaled(u));
    lemma_times_mirrored(rot, pa);
    assert(rot.times(back) == pa.scaled(rot.square()).scaled(-1));
    lemma_spread_left(rot.square(), u * u, pa.re);
    lemma_spread_left(rot.square(), u * u, pa.im);
    assert(pa.scaled(rot.square()) == pa.scaled(eta).plus(pa.scaled(u * u)));
    lemma_twice_scaled(u, pa);
    lemma_scaled(u, pz.scaled(u), pa.scaled(u).plus(rot.times(pi)));
    lemma_scaled(u, pa.scaled(u), rot.times(pi));
    let x = pz.scaled(u);
    let n = pa.scaled(eta);
    assert((-1) * pa.scaled(rot.square()).re == -pa.scaled(rot.square()).re && (-1) * pa.scaled(
        rot.square(),
    ).im == -pa.scaled(rot.square()).im);
    assert(x.scaled(u) == rot.times(alpha).plus(delta.scaled(u)).minus(n));
    lemma_scaled_bound(pa, eta, u * c.d, c.reach);
    let e4 = u * (4 * c.e);
    assert(e4 >= 0 && u * c.d >= 0) by (nonlinear_arith)
        requires
            e4 == u * (4 * c.e),
            u > 0,
            c.e >= 0,
            c.d >= 0,
    ;
    lemma_times_bound(rot, alpha, u, e4);
    lemma_scaled_bound(delta, u, u, e4);
    let bound = 3 * e4 + c.d * c.reach;
    lemma_bound_sum(u, c.d, c.reach, 3 * e4);
    assert(u * (3 * e4) == 3 * (u * e4)) by (nonlinear_arith);
    lemma_divided_bound(x, u, bound);
    lemma_inverted_heading::<N>(c, a.theta);
    lemma_composed_heading::<N>(c, a.theta, inv.theta);
    lemma_headings_add(
        inv.theta.units(),
        -a.theta.units(),
        z.theta.units(),
        a.theta.units(),
        4 * c.e,
        5 * c.e,
    );
}

/// Transforming a point and transforming it back through the inverse pose restores it,
/// up to rounding: each coordinate strays by at most
/// `16·e + (2·g·reach + d·reach) / one`.
pub proof fn law_inverse_restores_points<N: Numerics>(c: Precision, a: Pose2, q: Point2)
    requires
        c.wf(),
        c.describes::<N>(),
        c.holds(a),
        c.holds(a.inverted::<N>()),
        c.reaches(q.x),
        c.reaches(q.y),
        c.reaches(a.transformed::<N>(q).x),
        c.reaches(a.transformed::<N>(q).y),
    ensures
        ({
            let z = a.inverted::<N>().transformed::<N>(a.transformed::<N>(q));
            let bound = 2 * (unit() * (4 * c.e)) + relative_error(c) + c.d * c.reach;
            place(z.x, z.y).minus(place(q.x, q.y)).scaled(unit()).is_within(bound)
        }),
{
    lemma_half_turn();
    let p = a.transformed::<N>(q);
    let z = a.inverted::<N>().transformed::<N>(p);
    lemma_rotated::<N>(c, a.theta, a.x, a.y, q.x, q.y);
    lemma_seen_from::<N>(c, a, p.x, p.y);
    let rot = rotation::<N>(a.theta);
    let mir = rot.mirrored();
    let (pa, pp, pq, pz) = (place(a.x, a.y), place(p.x, p.y), place(q.x, q.y), place(z.x, z.y));
    let u = unit();
    let d = pp.minus(pa);
    let f = error(pp, pa.scaled(u).plus(rot.times(pq)));
    let kappa = error(pz, mir.times(d));
    let eta = rot.square() - u * u;
    let k = relative_error(c);
    // u·(u·(z - q)) = (|rot|² - u²)·q + mir·f + u·kappa
    lemma_scaled(u, pp, pa);
    assert(d.scaled(u) == rot.times(pq).plus(f));
    lemma_scaled(u, mir, d);
    lemma_times_distributes(mir, rot.times(pq), f);
    lemma_times_mirrored(rot, pq);
    assert(mir.times(d).scaled(u) == pq.scaled(rot.square()).plus(mir.times(f)));
    lemma_spread_left(rot.square(), u * u, pq.re);
    lemma_spread_left(rot.square(), u * u, pq.im);
    assert(pq.scaled(rot.square()) == pq.scaled(eta).plus(pq.scaled(u * u)));
    lemma_twice_scaled(u, pq);
    lemma_scaled(u, pz, pq);
    lemma_scaled(u, pz.scaled(u), pq.scaled(u));
    lemma_scaled(u, pz.scaled(u), mir.times(d));
    let x = pz.minus(pq).scaled(u);
    assert(x.scaled(u) == pq.scaled(eta).plus(mir.times(f)).plus(kappa.scaled(u)));
    let e4 = u * (4 * c.e);
    assert(e4 >= 0 && u * c.d >= 0) by (nonlinear_arith)
        requires
            e4 == u * (4 * c.e),
            u > 0,
            c.e >= 0,
            c.d >= 0,
    ;
    lemma_scaled_bound(pq, eta, u * c.d, c.reach);
    lemma_times_bound(mir, f, u, e4);
    lemma_scaled_bound(kappa, u, u, k);
    let bound = 2 * e4 + k + c.d * c.reach;
    lemma_bound_sum(u, c.d, c.reach, 2 * e4 + k);
    lemma_spread(u, 2 * e4, k);
    assert(u * (2 * e4) == 2 * (u * e4)) by (nonlinear_arith);
    lemma_divided_bound(x, u, bound);
}

/// The identity is neutral on both sides, up to rounding: each coordinate strays by at
/// most `4·e`, the heading by at most `5·e`.
pub proof fn law_identity_is_neutral<N: Numerics>(c: Precision, a: Pose2)
    requires
        c.wf(),
        c.describes::<N>(),
        c.holds(a),
    ensures
        ({
            let before = Pose2::identity().composed::<N>(a);
            let after = a.composed::<N>(Pose2::identity());
            &&& place(before.x, before.y).minus(place(a.x, a.y)).is_within(4 * c.e)
            &&& place(after.x, after.y).minus(place(a.x, a.y)).is_within(4 * c.e)
            &&& same_heading(before.theta.units(), a.theta.units(), 5 * c.e)
            &&& same_heading(after.theta.units(), a.theta.units(), 5 * c.e)
        }),
{
    lemma_half_turn();
    let zero = F64 { bits: 0 };
    let before = Pose2::identity().composed::<N>(a);
    let after = a.composed::<N>(Pose2::identity());
    lemma_rotated::<N>(c, zero, zero, zero, a.x, a.y);
    lemma_rotated::<N>(c, a.theta, a.x, a.y, zero, zero);
    lemma_composed_heading::<N>(c, zero, a.theta);
    lemma_composed_heading::<N>(c, a.theta, zero);
    let u = unit();
    let rot = rotation::<N>(a.theta);
    let (p, pb, pf) = (place(a.x, a.y), place(before.x, before.y), place(after.x, after.y));
    let none = Complex { re: 0, im: 0 };
    let (s, co) = (rot.im, rot.re);
    assert(u * 0 == 0 && co * 0 == 0 && s * 0 == 0 && 0 * p.re == 0 && 0 * p.im == 0)
        by (nonlinear_arith);
    assert(place(zero, zero) == none);
    assert(rot.times(none) == none);
    assert(none.scaled(u) == none);
    assert((Complex { re: u, im: 0 }).times(p) == p.scaled(u));
    lemma_scaled(u, pb, p);
    lemma_scaled(u, pf, p);
    lemma_divided_bound(pb.minus(p), u, 4 * c.e);
    lemma_divided_bound(pf.minus(p), u, 4 * c.e);
}

/// Composition is associative, up to rounding: each coordinate strays by at most
/// `20·e + 2·g·reach / one`, the heading by at most `20·e`.
pub proof fn law_composition_is_associative<N: Numerics>(
    c: Precision,
    a: Pose2,
    b: Pose2,
    p: Pose2,
)
    requires
        c.wf(),
        c.describes::<N>(),
        c.holds(a),
        c.holds(b),
        c.holds(p),
        c.holds(a.composed::<N>(b)),
        c.holds(b.composed::<N>(p)),
    ensures
        ({
            let left = a.composed::<N>(b).composed::<N>(p);
            let right = a.composed::<N>(b.composed::<N>(p));
            let bound = 5 * (unit() * (4 * c.e)) + 2 * (c.g * c.reach);
            &&& place(left.x, left.y).minus(place(right.x, right.y)).scaled(unit()).is_within(bound)
            &&& same_heading(left.theta.units(), right.theta.units(), 20 * c.e)
        }),
{
    lemma_half_turn();
    let ab = a.composed::<N>(b);
    let bp = b.composed::<N>(p);
    let left = ab.composed::<N>(p);
    let right = a.composed::<N>(bp);
    lemma_rotated::<N>(c, a.theta, a.x, a.y, b.x, b.y);
    lemma_rotated::<N>(c, ab.theta, ab.x, ab.y, p.x, p.y);
    lemma_rotated::<N>(c, b.theta, b.x, b.y, p.x, p.y);
    lemma_rotated::<N>(c, a.theta, a.x, a.y, bp.x, bp.y);
    lemma_composed_heading::<N>(c, a.theta, b.theta);
    let u = unit();
    let (ra, rb, rab) = (
        rotation::<N>(a.theta),
        rotation::<N>(b.theta),
        rotation::<N>(ab.theta),
    );
    let (pa, pb, pp) = (place(a.x, a.y), place(b.x, b.y), place(p.x, p.y));
    let (pab, pbp) = (place(ab.x, ab.y), place(bp.x, bp.y));
    let (pl, pr) = (place(left.x, left.y), place(right.x, right.y));
    lemma_associative_points(c, ra, rb, rab, pa, pb, pp, pab, pbp, pl, pr);
    lemma_associative_heading::<N>(c, a.theta, b.theta, p.theta);
}

/// Both ways of composing three points differ by the errors of their steps.
proof fn lemma_associative_points(
    c: Precision,
    ra: Complex,
    rb: Complex,
    rab: Complex,
    pa: Complex,
    pb: Complex,
    pp: Complex,
    pab: Complex,
    pbp: Complex,
    pl: Complex,
    pr: Complex,
)
    requires
        c.wf(),
        ra.is_within(unit()),
        pp.is_within(c.reach),
        error(pab, pa.scaled(unit()).plus(ra.times(pb))).is_within(unit() * (4 * c.e)),
        error(pl, pab.scaled(unit()).plus(rab.times(pp))).is_within(unit() * (4 * c.e)),
        error(pbp, pb.scaled(unit()).plus(rb.times(pp))).is_within(unit() * (4 * c.e)),
        error(pr, pa.scaled(unit()).plus(ra.times(pbp))).is_within(unit() * (4 * c.e)),
        rab.scaled(unit()).minus(ra.times(rb)).is_within(unit() * c.g),
    ensures
        pl.minus(pr).scaled(unit()).is_within(5 * (unit() * (4 * c.e)) + 2 * (c.g * c.reach)),
{
    lemma_half_turn();
    let u = unit();
    let e1 = error(pab, pa.scaled(u).plus(ra.times(pb)));
    let e2 = error(pl, pab.scaled(u).plus(rab.times(pp)));
    let e3 = error(pbp, pb.scaled(u).plus(rb.times(pp)));
    let e4 = error(pr, pa.scaled(u).plus(ra.times(pbp)));
    let gamma = rab.scaled(u).minus(ra.times(rb));
    let x = pl.minus(pr).scaled(u);
    lemma_left_points(u, ra, rb, rab, pa, pb, pp, pab, pl);
    lemma_right_points(u, ra, rb, pa, pb, pp, pbp, pr);
    lemma_scaled(u, pl, pr);
    lemma_scaled(u, pl.scaled(u), pr.scaled(u));
    let first = pa.scaled(u).scaled(u).plus(ra.times(pb).scaled(u)).plus(ra.times(rb.times(pp)));
    let more = e1.scaled(u).plus(gamma.times(pp)).plus(e2.scaled(u));
    let less = ra.times(e3).plus(e4.scaled(u));
    assert(x.scaled(u) == first.plus(more).minus(first.plus(less)));
    assert(x.scaled(u) == more.minus(less));
    let small = u * (4 * c.e);
    assert(small >= 0 && u * c.g >= 0) by (nonlinear_arith)
        requires
            small == u * (4 * c.e),
            u > 0,
            c.e >= 0,
            c.g >= 0,
    ;
    lemma_scaled_bound(e1, u, u, small);
    lemma_scaled_bound(e2, u, u, small);
    lemma_scaled_bound(e4, u, u, small);
    lemma_times_bound(ra, e3, u, small);
    lemma_times_bound(gamma, pp, u * c.g, c.reach);
    let bound = 5 * small + 2 * (c.g * c.reach);
    lemma_bound_sum(u, c.g, c.reach, 0);
    lemma_spread(u, 5 * small, 2 * (c.g * c.reach));
    assert(u * (5 * small) == 5 * (u * small)) by (nonlinear_arith);
    assert(u * (2 * (c.g * c.reach)) == 2 * (u * (c.g * c.reach))) by (nonlinear_arith);
    assert(u * 0 == 0) by (nonlinear_arith);
    lemma_divided_bound(x, u, bound);
}

/// Composing from the left: the exact part and the errors.
proof fn lemma_left_points(
    u: int,
    ra: Complex,
    rb: Complex,
    rab: Complex,
    pa: Complex,
    pb: Complex,
    pp: Complex,
    pab: Complex,
    pl: Complex,
)
    ensures
        ({
            let e1 = pab.scaled(u).minus(pa.scaled(u).plus(ra.times(pb)));
            let e2 = pl.scaled(u).minus(pab.scaled(u).plus(rab.times(pp)));
            let gamma = rab.scaled(u).minus(ra.times(rb));
            pl.scaled(u).scaled(u) == pa.scaled(u).scaled(u).plus(ra.times(pb).scaled(u)).plus(
                ra.times(rb.times(pp)),
            ).plus(e1.scaled(u).plus(gamma.times(pp)).plus(e2.scaled(u)))
        }),
{
    let e1 = pab.scaled(u).minus(pa.scaled(u).plus(ra.times(pb)));
    let e2 = pl.scaled(u).minus(pab.scaled(u).plus(rab.times(pp)));
    let gamma = rab.scaled(u).minus(ra.times(rb));
    lemma_scaled(u, pl.scaled(u), pab.scaled(u).plus(rab.times(pp)));
    lemma_scaled(u, pab.scaled(u), rab.times(pp));
    lemma_scaled(u, pab.scaled(u), pa.scaled(u).plus(ra.times(pb)));
    lemma_scaled(u, pa.scaled(u), ra.times(pb));
    lemma_scaled(u, rab, pp);
    lemma_times_distributes(pp, ra.times(rb), gamma);
    lemma_minus_restores(rab.scaled(u), ra.times(rb));
    lemma_times_associates(ra, rb, pp);
    lemma_left_sum(
        pl.scaled(u).scaled(u),
        pab.scaled(u).scaled(u),
        rab.times(pp).scaled(u),
        pa.scaled(u).scaled(u),
        ra.times(pb).scaled(u),
        ra.times(rb.times(pp)),
        gamma.times(pp),
        e1.scaled(u),
        e2.scaled(u),
    );
}

/// What is taken away and added again.
proof fn lemma_minus_restores(a: Complex, b: Complex)
    ensures
        b.plus(a.minus(b)) == a,
{
}

/// Collecting the terms of a composition from the left.
proof fn lemma_left_sum(
    l: Complex,
    ab: Complex,
    turned: Complex,
    a: Complex,
    b: Complex,
    p: Complex,
    g: Complex,
    e1: Complex,
    e2: Complex,
)
    requires
        e2 == l.minus(ab.plus(turned)),
        e1 == ab.minus(a.plus(b)),
        turned == p.plus(g),
    ensures
        l == a.plus(b).plus(p).plus(e1.plus(g).plus(e2)),
{
}

/// Composing from the right: the exact part and the errors.
proof fn lemma_right_points(
    u: int,
    ra: Complex,
    rb: Complex,
    pa: Complex,
    pb: Complex,
    pp: Complex,
    pbp: Complex,
    pr: Complex,
)
    ensures
        ({
            let e3 = pbp.scaled(u).minus(pb.scaled(u).plus(rb.times(pp)));
            let e4 = pr.scaled(u).minus(pa.scaled(u).plus(ra.times(pbp)));
            pr.scaled(u).scaled(u) == pa.scaled(u).scaled(u).plus(ra.times(pb).scaled(u)).plus(
                ra.times(rb.times(pp)),
            ).plus(ra.times(e3).plus(e4.scaled(u)))
        }),
{
    let e3 = pbp.scaled(u).minus(pb.scaled(u).plus(rb.times(pp)));
    let e4 = pr.scaled(u).minus(pa.scaled(u).plus(ra.times(pbp)));
    lemma_scaled(u, pr.scaled(u), pa.scaled(u).plus(ra.times(pbp)));
    lemma_scaled(u, pa.scaled(u), ra.times(pbp));
    lemma_scaled(u, ra, pbp);
    lemma_scaled(u, ra, pb);
    lemma_times_distributes(ra, pb.scaled(u).plus(rb.times(pp)), e3);
    lemma_times_distributes(ra, pb.scaled(u), rb.times(pp));
    lemma_minus_restores(pbp.scaled(u), pb.scaled(u).plus(rb.times(pp)));
    lemma_right_sum(
        pr.scaled(u).scaled(u),
        pa.scaled(u).scaled(u),
        ra.times(pbp).scaled(u),
        ra.times(pb).scaled(u),
        ra.times(rb.times(pp)),
        ra.times(e3),
        e4.scaled(u),
    );
}

/// Collecting the terms of a composition from the right.
proof fn lemma_right_sum(
    r: Complex,
    a: Complex,
    turned: Complex,
    b: Complex,
    p: Complex,
    e3: Complex,
    e4: Complex,
)
    requires
        e4 == r.minus(a.plus(turned)),
        turned == b.plus(p).plus(e3),
    ensures
        r == a.plus(b).plus(p).plus(e3.plus(e4)),
{
}

/// Both ways of composing three headings are one heading.
proof fn lemma_associative_heading<N: Numerics>(c: Precision, a: F64, b: F64, p: F64)
    requires
        c.wf(),
        c.describes::<N>(),
        is_angle(a),
        is_angle(b),
        is_angle(p),
    ensures
        same_heading(
            wrapped::<N>(sum::<N>(wrapped::<N>(sum::<N>(a, b)), p)).units(),
            wrapped::<N>(sum::<N>(a, wrapped::<N>(sum::<N>(b, p)))).units(),
            20 * c.e,
        ),
{
    let ab = wrapped::<N>(sum::<N>(a, b));
    let bp = wrapped::<N>(sum::<N>(b, p));
    let left = wrapped::<N>(sum::<N>(ab, p));
    let right = wrapped::<N>(sum::<N>(a, bp));
    lemma_composed_heading::<N>(c, a, b);
    lemma_composed_heading::<N>(c, b, p);
    lemma_composed_heading::<N>(c, ab, p);
    lemma_composed_heading::<N>(c, a, bp);
    let all = a.units() + b.units() + p.units();
    lemma_headings_add(ab.units(), a.units() + b.units(), left.units(), p.units(), 5 * c.e, 5 * c.e);
    lemma_headings_add(bp.units(), b.units() + p.units(), right.units(), a.units(), 5 * c.e, 5 * c.e);
    assert(same_heading(left.units(), all, 10 * c.e));
    assert(same_heading(right.units(), all, 10 * c.e));
    let k = choose|k: int| near(left.units(), all + #[trigger] laps(k), 10 * c.e);
    let j = choose|j: int| near(right.units(), all + #[trigger] laps(j), 10 * c.e);
    lemma_spread_left(k, j, 2 * half_turn());
    assert(laps(k - j) == laps(k) - laps(j));
    assert(near(left.units(), right.units() + laps(k - j), 20 * c.e));
}

/// The way to another pose and the way back compose to the identity, up to rounding:
/// each coordinate strays by at most `44·e + (16·g·reach + 4·d·reach) / one`, the
/// heading by at most `23·e`.
pub proof fn law_there_and_back_is_identity<N: Numerics>(c: Precision, a: Pose2, b: Pose2)
    requires
        c.wf(),
        c.describes::<N>(),
        c.holds(a),
        c.holds(b),
        c.holds(a.inverted::<N>()),
        c.holds(b.inverted::<N>()),
        c.holds(a.relative::<N>(b)),
        c.holds(b.relative::<N>(a)),
    ensures
        ({
            let z = a.relative::<N>(b).composed::<N>(b.relative::<N>(a));
            let bound = 5 * relative_error(c) + unit() * (4 * c.e) + 6 * (c.g * c.reach) + 4 * (c.d
                * c.reach);
            &&& place(z.x, z.y).scaled(unit()).is_within(bound)
            &&& same_heading(z.theta.units(), 0, 23 * c.e)
        }),
{
    lemma_half_turn();
    let inv = a.inverted::<N>();
    let r1 = a.relative::<N>(b);
    let r2 = b.relative::<N>(a);
    let z = r1.composed::<N>(r2);
    lemma_seen_from::<N>(c, a, b.x, b.y);
    lemma_seen_from::<N>(c, b, a.x, a.y);
    lemma_rotated::<N>(c, r1.theta, r1.x, r1.y, r2.x, r2.y);
    lemma_inverted::<N>(c, a);
    lemma_composed_heading::<N>(c, inv.theta, b.theta);
    lemma_there_and_back_points(
        c,
        rotation::<N>(a.theta).mirrored(),
        rotation::<N>(b.theta),
        rotation::<N>(inv.theta),
        rotation::<N>(r1.theta),
        place(a.x, a.y),
        place(b.x, b.y),
        place(r1.x, r1.y),
        place(r2.x, r2.y),
        place(z.x, z.y),
    );
    lemma_there_and_back_heading::<N>(c, a, b);
}

/// The heading of a way there and back.
proof fn lemma_there_and_back_heading<N: Numerics>(c: Precision, a: Pose2, b: Pose2)
    requires
        c.wf(),
        c.describes::<N>(),
        is_angle(a.theta),
        is_angle(b.theta),
    ensures
        same_heading(
            a.relative::<N>(b).composed::<N>(b.relative::<N>(a)).theta.units(),
            0,
            23 * c.e,
        ),
{
    let r1 = a.relative::<N>(b).theta;
    let r2 = b.relative::<N>(a).theta;
    let z = wrapped::<N>(sum::<N>(r1, r2));
    lemma_heading_restored::<N>(c, a, b);
    lemma_heading_restored::<N>(c, b, a);
    lemma_composed_heading::<N>(c, r1, r2);
    let diff = b.theta.units() - a.theta.units();
    lemma_headings_add(r1.units(), diff, z.units(), r2.units(), 9 * c.e, 5 * c.e);
    assert(same_heading(z.units(), r2.units() + diff, 14 * c.e));
    lemma_headings_add(r2.units(), -diff, z.units(), diff, 9 * c.e, 14 * c.e);
}

/// The points of a way there and back: `ra` mirrors the rotation of the start, `rb` is
/// that of the end, `ri` that of the inverse of the start, `rz` that of the way there.
proof fn lemma_there_and_back_points(
    c: Precision,
    ra: Complex,
    rb: Complex,
    ri: Complex,
    rz: Complex,
    pa: Complex,
    pb: Complex,
    p1: Complex,
    p2: Complex,
    pz: Complex,
)
    requires
        c.wf(),
        relative_error(c) >= 0,
        pa.is_within(c.reach),
        pb.is_within(c.reach),
        p2.is_within(c.reach),
        ra.is_within(unit()),
        rb.is_within(unit()),
        near(rb.square(), unit() * unit(), unit() * c.d),
        ri.minus(ra).is_within(c.g),
        rz.scaled(unit()).minus(ri.times(rb)).is_within(unit() * c.g),
        error(p1, ra.times(pb.minus(pa))).is_within(relative_error(c)),
        error(p2, rb.mirrored().times(pa.minus(pb))).is_within(relative_error(c)),
        error(pz, p1.scaled(unit()).plus(rz.times(p2))).is_within(unit() * (4 * c.e)),
    ensures
        pz.scaled(unit()).is_within(
            5 * relative_error(c) + unit() * (4 * c.e) + 6 * (c.g * c.reach) + 4 * (c.d * c.reach),
        ),
{
    lemma_half_turn();
    let u = unit();
    let d = pb.minus(pa);
    let back = pa.minus(pb);
    let k1 = error(p1, ra.times(d));
    let k2 = error(p2, rb.mirrored().times(back));
    let delta = error(pz, p1.scaled(u).plus(rz.times(p2)));
    let eta = rb.square() - u * u;
    let gamma = lemma_turned_rotation(c, ra, rb, ri, rz);
    assert(back == d.scaled(-1)) by {
        assert((-1) * d.re == -d.re && (-1) * d.im == -d.im);
    }
    let whole = p2.scaled(u);
    let way = ra.times(d);
    lemma_back_points(u, ra, rb, rz, gamma, d, back, k2, p2);
    assert(eta + u * u == rb.square());
    lemma_collected(
        u,
        p1,
        pz,
        rz.times(p2),
        way,
        k1,
        delta,
        ra.times(rb.times(k2)),
        gamma.times(whole),
        eta,
    );
    lemma_there_and_back_bound(
        c,
        k1,
        k2,
        gamma,
        whole,
        delta,
        way,
        ra,
        rb,
        d,
        eta,
        pz.scaled(u),
        p2,
    );
}

/// The rotation of a way there is the product of the mirrored rotation of its start and
/// the rotation of its end, up to `3·g`.
proof fn lemma_turned_rotation(
    c: Precision,
    ra: Complex,
    rb: Complex,
    ri: Complex,
    rz: Complex,
) -> (gamma: Complex)
    requires
        c.wf(),
        rb.is_within(unit()),
        ri.minus(ra).is_within(c.g),
        rz.scaled(unit()).minus(ri.times(rb)).is_within(unit() * c.g),
    ensures
        rz.scaled(unit()) == ra.times(rb).plus(gamma),
        gamma.is_within(3 * (unit() * c.g)),
{
    lemma_half_turn();
    let u = unit();
    let g0 = ri.minus(ra);
    let g1 = rz.scaled(u).minus(ri.times(rb));
    lemma_times_distributes(rb, ra, g0);
    lemma_minus_restores(ri, ra);
    lemma_times_bound(g0, rb, c.g, u);
    assert(c.g * u == u * c.g) by (nonlinear_arith);
    lemma_turned_sum(rz.scaled(u), ri.times(rb), ra.times(rb), g0.times(rb), g1);
    g0.times(rb).plus(g1)
}

/// Collecting the terms of a rotation.
proof fn lemma_turned_sum(z: Complex, i: Complex, a: Complex, g0: Complex, g1: Complex)
    requires
        g1 == z.minus(i),
        i == a.plus(g0),
    ensures
        z == a.plus(g0.plus(g1)),
{
}

/// The turned way back, times one twice: the opposite of the way there, and the errors.
proof fn lemma_back_points(
    u: int,
    ra: Complex,
    rb: Complex,
    rz: Complex,
    gamma: Complex,
    d: Complex,
    back: Complex,
    k2: Complex,
    p2: Complex,
)
    requires
        rz.scaled(u) == ra.times(rb).plus(gamma),
        back == d.scaled(-1),
        k2 == p2.scaled(u).minus(rb.mirrored().times(back)),
    ensures
        rz.times(p2).scaled(u * u) == ra.times(rb.times(k2)).plus(
            gamma.times(p2.scaled(u)),
        ).minus(ra.times(d).scaled(rb.square())),
{
    let rm = rb.mirrored();
    let whole = p2.scaled(u);
    lemma_minus_restores(whole, rm.times(back));
    lemma_times_distributes(whole, ra.times(rb), gamma);
    lemma_times_associates(ra, rb, whole);
    lemma_times_distributes(rb, rm.times(back), k2);
    lemma_times_mirrored(rb, back);
    lemma_times_distributes(ra, back.scaled(rb.square()), rb.times(k2));
    lemma_scaled(rb.square(), ra, back);
    lemma_scaled(-1, ra, d);
    lemma_opposite(ra.times(d), rb.square());
    lemma_scaled(u, rz, whole);
    lemma_scaled(u, rz, p2);
    lemma_twice_scaled(u, rz.times(p2));
    lemma_back_sum(
        rz.scaled(u).times(whole),
        ra.times(back).scaled(rb.square()),
        ra.times(d).scaled(rb.square()),
        ra.times(rb.times(k2)),
        gamma.times(whole),
    );
}

/// Collecting the terms of a turned way back.
proof fn lemma_back_sum(t: Complex, b: Complex, way: Complex, k: Complex, g: Complex)
    requires
        t == b.plus(k).plus(g),
        b.re == -way.re,
        b.im == -way.im,
    ensures
        t == k.plus(g).minus(way),
{
}

/// Collecting the terms of a way there and back, times one twice.
proof fn lemma_collected(
    u: int,
    p1: Complex,
    pz: Complex,
    turned: Complex,
    way: Complex,
    k1: Complex,
    delta: Complex,
    k: Complex,
    g: Complex,
    eta: int,
)
    requires
        k1 == p1.scaled(u).minus(way),
        delta == pz.scaled(u).minus(p1.scaled(u).plus(turned)),
        turned.scaled(u * u) == k.plus(g).minus(way.scaled(eta + u * u)),
    ensures
        pz.scaled(u).scaled(u * u) == k1.scaled(u * u).plus(k).plus(g).plus(
            delta.scaled(u * u),
        ).minus(way.scaled(eta)),
{
    let v = u * u;
    let x = pz.scaled(u);
    lemma_scaled(v, x, p1.scaled(u).plus(turned));
    lemma_scaled(v, p1.scaled(u), turned);
    lemma_scaled(v, p1.scaled(u), way);
    lemma_spread_left(eta, v, way.re);
    lemma_spread_left(eta, v, way.im);
    lemma_collected_sum(
        x.scaled(v),
        p1.scaled(u).scaled(v),
        turned.scaled(v),
        way.scaled(v),
        way.scaled(eta),
        k1.scaled(v),
        delta.scaled(v),
        k,
        g,
    );
}

/// Collecting the terms of a sum.
proof fn lemma_collected_sum(
    x: Complex,
    p: Complex,
    turned: Complex,
    way: Complex,
    stray: Complex,
    k1: Complex,
    delta: Complex,
    k: Complex,
    g: Complex,
)
    requires
        k1 == p.minus(way),
        delta == x.minus(p.plus(turned)),
        turned == k.plus(g).minus(stray.plus(way)),
    ensures
        x == k1.plus(k).plus(g).plus(delta).minus(stray),
{
}

/// A multiple of the opposite is the opposite of the multiple.
proof fn lemma_opposite(a: Complex, k: int)
    ensures
        a.scaled(-1).scaled(k).re == -a.scaled(k).re,
        a.scaled(-1).scaled(k).im == -a.scaled(k).im,
{
    let (x, y) = (a.re, a.im);
    assert(k * ((-1) * x) == -(k * x) && k * ((-1) * y) == -(k * y)) by (nonlinear_arith);
}

/// The errors of a way there and back add up to their bound.
proof fn lemma_there_and_back_bound(
    c: Precision,
    k1: Complex,
    k2: Complex,
    gamma: Complex,
    whole: Complex,
    delta: Complex,
    way: Complex,
    ra: Complex,
    rb: Complex,
    d: Complex,
    eta: int,
    x: Complex,
    p2: Complex,
)
    requires
        c.wf(),
        relative_error(c) >= 0,
        k1.is_within(relative_error(c)),
        k2.is_within(relative_error(c)),
        gamma.is_within(3 * (unit() * c.g)),
        whole == p2.scaled(unit()),
        p2.is_within(c.reach),
        delta.is_within(unit() * (4 * c.e)),
        ra.is_within(unit()),
        rb.is_within(unit()),
        d.is_within(2 * c.reach),
        way == ra.times(d),
        near(eta, 0, unit() * c.d),
        x.scaled(unit() * unit()) == k1.scaled(unit() * unit()).plus(
            ra.times(rb.times(k2)),
        ).plus(gamma.times(whole)).plus(delta.scaled(unit() * unit())).minus(way.scaled(eta)),
    ensures
        x.is_within(
            5 * relative_error(c) + unit() * (4 * c.e) + 6 * (c.g * c.reach) + 4 * (c.d * c.reach),
        ),
{
    lemma_half_turn();
    let u = unit();
    let v = u * u;
    let k = relative_error(c);
    let small = u * (4 * c.e);
    let (g, dd, reach) = (c.g, c.d, c.reach);
    assert(v > 0 && small >= 0 && u * g >= 0 && u * dd >= 0 && u * reach >= 0 && u * k >= 0)
        by (nonlinear_arith)
        requires
            u > 0,
            v == u * u,
            small == u * (4 * c.e),
            c.e >= 0,
            g >= 0,
            dd >= 0,
            reach >= 0,
            k >= 0,
    ;
    lemma_scaled_bound(k1, v, v, k);
    lemma_times_bound(rb, k2, u, k);
    lemma_times_bound(ra, rb.times(k2), u, 2 * (u * k));
    lemma_scaled_bound(p2, u, u, reach);
    lemma_times_bound(gamma, whole, 3 * (u * g), u * reach);
    lemma_scaled_bound(delta, v, v, small);
    lemma_times_bound(ra, d, u, 2 * reach);
    assert(u * (2 * reach) >= 0) by (nonlinear_arith)
        requires
            u > 0,
            reach >= 0,
    ;
    lemma_scaled_bound(way, eta, u * dd, 2 * (u * (2 * reach)));
    lemma_regroup(u, u, k);
    assert(2 * (u * (2 * (u * k))) == 4 * (u * (u * k))) by (nonlinear_arith);
    assert(2 * ((3 * (u * g)) * (u * reach)) == 6 * (v * (g * reach))) by (nonlinear_arith)
        requires
            v == u * u,
    ;
    assert((u * dd) * (2 * (u * (2 * reach))) == 4 * (v * (dd * reach))) by (nonlinear_arith)
        requires
            v == u * u,
    ;
    let bound = 5 * k + small + 6 * (g * reach) + 4 * (dd * reach);
    let (p, q) = (g * reach, dd * reach);
    assert(v * bound == 5 * (v * k) + v * small + 6 * (v * p) + 4 * (v * q)) by (nonlinear_arith)
        requires
            bound == 5 * k + small + 6 * p + 4 * q,
    ;
    lemma_divided_bound(x, v, bound);
}

/// Half a turn is pi: between two of its convergents.
pub proof fn law_half_turn_is_pi()
    ensures
        103_993 * unit() < 33_102 * half_turn(),
        33_215 * half_turn() < 104_348 * unit(),
        (F64 { bits: TAU }).units() == 2 * half_turn(),
{
    let (pi, tau) = (F64 { bits: PI }, F64 { bits: TAU });
    lemma_units_of_pattern(pi, 1024, 0x0019_21fb_5444_2d18);
    lemma_units_of_pattern(tau, 1025, 0x0019_21fb_5444_2d18);
    vstd::arithmetic::power2::lemma_pow2_adds(1023, 51);
    vstd::arithmetic::power2::lemma_pow2_adds(1023, 1);
    vstd::arithmetic::power2::lemma2_to64();
    vstd::arithmetic::power2::lemma2_to64_rest();
    let p = vstd::arithmetic::power2::pow2(1023) as int;
    vstd::arithmetic::power2::lemma_pow2_pos(1023);
    assert(unit() == p * 0x8_0000_0000_0000);
    assert(half_turn() == 0x0019_21fb_5444_2d18 * p);
}

} // verus!
