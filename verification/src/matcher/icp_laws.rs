//! What an iteration of ICP does, in terms of the points and the pose.

use vstd::prelude::*;

use crate::accuracy::{
    indices, lemma_absolute_units, lemma_bounded_product, lemma_divided_bound, lemma_indices_finite,
    lemma_indices_step, lemma_multiple_order, lemma_product_admitted, lemma_scaled_bound,
    lemma_square_order, lemma_sum_of_squares, multiplies_exactly, near, size, subtracts_exactly,
    Accuracy,
};
use crate::algebra::{
    is_angle, law_wrapping_keeps_the_heading, lemma_angle_range, lemma_half_turn,
    lemma_headings_add, lemma_near_is_heading, same_heading, Precision,
};
use crate::error::SlamError;
use crate::float::{
    law_order_is_value_order, lemma_units_negated, lemma_units_of_constants, lemma_units_of_numbers,
    unit, F64,
};
use crate::grid::cellmath::ONE;
use crate::matcher::csm::TWO;
use crate::matcher::csm_laws::{held_score, lemma_weighed_error};
use crate::matcher::icp::{
    equations, finite_points, huber_of, icp_matched, iterated, law_iterations_are_bounded, mirrored,
    norm_of, opposite, partner, rated, run, scaled, start_from, with_pair, IcpConfig, IcpState,
    NormalEquations, LEAST_VARIANCE, THREE,
};
use crate::matcher::{float_of_len, MatchResult};
use crate::matrix::{Matrix3, Vector3};
use crate::numerics::{
    difference, exp_of, float_of, inverse_of, nearest_of, product, quotient, root_of, solution_of,
    sum, tree_of, Nearest, Numerics,
};
use crate::pose::{Point2, Pose2};

verus! {

// ---- Residuals ----

/// The norm is the length of the vector: its square is the sum of the squares, up to
/// rounding.
pub proof fn law_norm_is_the_length<N: Numerics>(c: Accuracy, x: F64, y: F64)
    requires
        c.wf(),
        c.describes::<N>(),
        c.describes_roots::<N>(),
        c.is_factor(x),
        c.is_factor(y),
    ensures
        ({
            let r = norm_of::<N>(x, y);
            &&& r.is_finite()
            &&& r.units() >= 0
            &&& near(
                r.units() * r.units(),
                x.units() * x.units() + y.units() * y.units(),
                4 * (unit() * c.e),
            )
        }),
{
    lemma_sum_of_squares::<N>(c, x, y);
}

/// A residual within the kernel width counts in full, one beyond by the ratio of the
/// width to the residual.
pub proof fn law_huber_weight_falls_beyond_the_width<N: Numerics>(c: Accuracy, err: F64, delta: F64)
    requires
        c.wf(),
        c.describes_quotients::<N>(),
        unit() <= c.limit,
        err.is_finite(),
        delta.is_finite(),
        err.units() >= 0,
        delta.units() >= 0,
    ensures
        ({
            let w = huber_of::<N>(err, delta);
            &&& w.is_finite()
            &&& err.units() <= delta.units() ==> w.units() == unit()
            &&& err.units() > delta.units() ==> near(
                w.units() * err.units(),
                unit() * delta.units(),
                c.e * err.units(),
            )
        }),
{
    lemma_units_of_constants();
    law_order_is_value_order(err, delta);
    law_order_is_value_order(err, F64 { bits: 0 });
    law_order_is_value_order(F64 { bits: 0 }, err);
    let (u, a, b) = (unit(), delta.units(), err.units());
    if b > a {
        assert(u * a <= c.limit * b) by (nonlinear_arith)
            requires
                u <= c.limit,
                0 <= a <= b,
                u > 0,
        ;
    }
}

/// A query point is paired with the nearest reference point unless that is farther away
/// than the greatest distance, up to rounding.
pub proof fn law_partner_is_near<N: Numerics>(
    c: Accuracy,
    entries: Seq<Point2>,
    found: Nearest,
    max_dist: F64,
)
    requires
        c.wf(),
        c.describes::<N>(),
        c.is_factor(max_dist),
        found.distance.is_finite(),
    ensures
        ({
            let max2 = max_dist.units() * max_dist.units();
            let r = partner(entries, found, product::<N>(max_dist, max_dist));
            &&& r is Some ==> found.item < entries.len() && r == Some(entries[found.item as int])
                && unit() * found.distance.units() <= max2 + unit() * c.e
            &&& found.item < entries.len() && unit() * found.distance.units() + unit() * c.e <= max2
                ==> r is Some
        }),
{
    lemma_units_of_constants();
    lemma_product_admitted::<N>(c, max_dist, max_dist);
    let m = product::<N>(max_dist, max_dist);
    law_order_is_value_order(m, found.distance);
    lemma_multiple_order(unit(), m.units(), found.distance.units());
}

// ---- Normal equations ----

/// `t` is how a point `q` moves as the rotation grows: at a right angle to its rotated
/// place.
pub open spec fn moves_with_rotation(c: Accuracy, q: Point2, sin: F64, cos: F64, t: Point2) -> bool {
    let (s, k, x, y) = (sin.units(), cos.units(), q.x.units(), q.y.units());
    &&& near(unit() * t.x.units(), -(s * x + k * y), 3 * (unit() * c.e))
    &&& near(unit() * t.y.units(), k * x - s * y, 3 * (unit() * c.e))
}

/// `r` is the way from the target to the query point.
pub open spec fn is_residual(c: Accuracy, world: Point2, target: Point2, r: Point2) -> bool {
    &&& near(r.x.units(), world.x.units() - target.x.units(), c.e)
    &&& near(r.y.units(), world.y.units() - target.y.units(), c.e)
}

/// `after` is `before` plus `w·v`, up to rounding; `v` is exact up to `slack`, times one.
pub open spec fn grew_by(c: Accuracy, before: F64, after: F64, w: int, v: int, slack: int) -> bool {
    near(
        unit() * (unit() * (after.units() - before.units())),
        w * v,
        2 * (unit() * (unit() * c.e)) + 2 * (unit() * slack),
    )
}

/// One pair of points adds its weighted share to the normal equations: `J^T·J` to the
/// Hessian and `J^T·r` to the right-hand side, where the columns of `J` are the ways a
/// point moves with x, with y and with the rotation, and `r` is its residual; and the
/// squared residual to the sum.
pub proof fn law_pair_adds_its_share<N: Numerics>(
    c: Accuracy,
    n: NormalEquations,
    q: Point2,
    world: Point2,
    target: Point2,
    rotation: (F64, F64),
    delta: F64,
    o: int,
)
    requires
        c.wf(),
        c.describes::<N>(),
        c.describes_quotients::<N>(),
        c.describes_roots::<N>(),
        pairs_within(c, q, world, target, rotation, delta, o),
        c.admits(n.hessian.m11) && c.admits(n.hessian.m22) && c.admits(n.hessian.m33),
        c.admits(n.hessian.m13) && c.admits(n.hessian.m23) && c.admits(n.sse),
        c.admits(n.rhs.x) && c.admits(n.rhs.y) && c.admits(n.rhs.z),
        n.inliers < usize::MAX,
    ensures
        ({
            let m = with_pair::<N>(n, q, world, target, rotation, delta);
            exists|t: Point2, r: Point2, err: F64, w: F64|
                {
                    let (a, b) = (t.x.units(), t.y.units());
                    let (x, y) = (r.x.units(), r.y.units());
                    let k = w.units();
                    let u2 = unit() * c.e;
                    &&& #[trigger] moves_with_rotation(c, q, rotation.0, rotation.1, t)
                    &&& #[trigger] is_residual(c, world, target, r)
                    &&& #[trigger] is_length(c, r, err)
                    &&& #[trigger] is_huber_weight(c, err, delta, w)
                    &&& near(m.hessian.m11.units(), n.hessian.m11.units() + k, c.e)
                    &&& near(m.hessian.m22.units(), n.hessian.m22.units() + k, c.e)
                    &&& near(
                        unit() * m.hessian.m13.units(),
                        unit() * n.hessian.m13.units() + k * a,
                        2 * u2,
                    )
                    &&& near(
                        unit() * m.hessian.m23.units(),
                        unit() * n.hessian.m23.units() + k * b,
                        2 * u2,
                    )
                    &&& grew_by(c, n.hessian.m33, m.hessian.m33, k, a * a + b * b, 3 * u2)
                    &&& near(unit() * m.rhs.x.units(), unit() * n.rhs.x.units() + k * x, 2 * u2)
                    &&& near(unit() * m.rhs.y.units(), unit() * n.rhs.y.units() + k * y, 2 * u2)
                    &&& grew_by(c, n.rhs.z, m.rhs.z, k, a * x + b * y, 3 * u2)
                    &&& grew_by(c, n.sse, m.sse, k, err.units() * err.units(), o * c.e)
                    &&& m.hessian.m12 == n.hessian.m12 && m.hessian.m21 == n.hessian.m21
                    &&& m.inliers == n.inliers + 1
                }
        }),
{
    let (sin, cos) = rotation;
    let rx = difference::<N>(world.x, target.x);
    let ry = difference::<N>(world.y, target.y);
    let err = norm_of::<N>(rx, ry);
    let w = huber_of::<N>(err, delta);
    let tx = difference::<N>(product::<N>(sin.negated(), q.x), product::<N>(cos, q.y));
    let ty = difference::<N>(product::<N>(cos, q.x), product::<N>(sin, q.y));
    let t = Point2 { x: tx, y: ty };
    let r = Point2 { x: rx, y: ry };
    lemma_units_of_constants();
    lemma_units_negated(sin);
    lemma_difference_of_products::<N>(c, sin.negated(), q.x, cos, q.y, o);
    lemma_difference_of_products::<N>(c, cos, q.x, sin, q.y, o);
    let (s, x) = (sin.units(), q.x.units());
    assert((-s) * x == -(s * x)) by (nonlinear_arith);
    assert(moves_with_rotation(c, q, sin, cos, t));
    assert(is_residual(c, world, target, r));
    law_norm_is_the_length::<N>(c, rx, ry);
    assert(is_length(c, r, err));
    lemma_length_within(c, rx.units(), ry.units(), err.units(), o);
    law_huber_weight_falls_beyond_the_width::<N>(c, err, delta);
    lemma_weight_range(c, err, delta, w);
    assert(is_huber_weight(c, err, delta, w));
    let m = with_pair::<N>(n, q, world, target, rotation, delta);
    lemma_added_product::<N>(c, n.hessian.m13, w, tx);
    lemma_added_product::<N>(c, n.hessian.m23, w, ty);
    lemma_added_product::<N>(c, n.rhs.x, w, rx);
    lemma_added_product::<N>(c, n.rhs.y, w, ry);
    lemma_sum_of_products::<N>(c, tx, tx, ty, ty);
    lemma_sum_of_products::<N>(c, tx, rx, ty, ry);
    let turn = sum::<N>(product::<N>(tx, tx), product::<N>(ty, ty));
    let pull = sum::<N>(product::<N>(tx, rx), product::<N>(ty, ry));
    let (a, b) = (tx.units(), ty.units());
    lemma_within_share(c, a, a, b, b, turn.units(), o);
    lemma_within_share(c, a, rx.units(), b, ry.units(), pull.units(), o);
    lemma_added_product::<N>(c, n.hessian.m33, w, turn);
    lemma_added_product::<N>(c, n.rhs.z, w, pull);
    lemma_grew(
        c,
        n.hessian.m33.units(),
        m.hessian.m33.units(),
        w.units(),
        turn.units(),
        a * a + b * b,
        3 * (unit() * c.e),
    );
    lemma_grew(
        c,
        n.rhs.z.units(),
        m.rhs.z.units(),
        w.units(),
        pull.units(),
        a * rx.units() + b * ry.units(),
        3 * (unit() * c.e),
    );
    lemma_weighted_square::<N>(c, n.sse, w, err, o);
}

/// `err` is the length of `r`.
pub open spec fn is_length(c: Accuracy, r: Point2, err: F64) -> bool {
    &&& err.units() >= 0
    &&& near(
        err.units() * err.units(),
        r.x.units() * r.x.units() + r.y.units() * r.y.units(),
        4 * (unit() * c.e),
    )
}

/// `w` is the Huber weight of the residual `err`.
pub open spec fn is_huber_weight(c: Accuracy, err: F64, delta: F64, w: F64) -> bool {
    &&& err.units() <= delta.units() ==> w.units() == unit()
    &&& err.units() > delta.units() ==> near(
        w.units() * err.units(),
        unit() * delta.units(),
        c.e * err.units(),
    )
}

/// Operands small enough for the products of a pair: `o` bounds the movement, the
/// residual and its length.
pub open spec fn pairs_within(
    c: Accuracy,
    q: Point2,
    world: Point2,
    target: Point2,
    rotation: (F64, F64),
    delta: F64,
    o: int,
) -> bool {
    let (sin, cos) = rotation;
    &&& sin.is_finite() && near(sin.units(), 0, unit())
    &&& cos.is_finite() && near(cos.units(), 0, unit())
    &&& q.x.is_finite() && q.y.is_finite()
    &&& 2 * size(q.x.units()) + 3 * c.e <= o && 2 * size(q.y.units()) + 3 * c.e <= o
    &&& c.admits(world.x) && c.admits(world.y) && c.admits(target.x) && c.admits(target.y)
    &&& 2 * size(world.x.units() - target.x.units()) + 4 * c.e <= o
    &&& 2 * size(world.y.units() - target.y.units()) + 4 * c.e <= o
    &&& 4 * (unit() * c.e) <= o * o / 4
    &&& delta.is_finite() && delta.units() >= 0
    &&& 2 * o + 3 * c.e <= c.side
    &&& unit() + 2 * c.e <= c.side
    &&& c.e <= unit()
    &&& 2 * (o * o) + 3 * (unit() * c.e) <= unit() * (c.side - c.e)
}

/// A difference of two products, and its range.
proof fn lemma_difference_of_products<N: Numerics>(
    c: Accuracy,
    a: F64,
    x: F64,
    b: F64,
    y: F64,
    o: int,
)
    requires
        c.wf(),
        c.describes::<N>(),
        a.is_finite() && near(a.units(), 0, unit()),
        b.is_finite() && near(b.units(), 0, unit()),
        x.is_finite() && y.is_finite(),
        2 * size(x.units()) + 3 * c.e <= o,
        2 * size(y.units()) + 3 * c.e <= o,
        o <= c.side,
        unit() <= c.side,
    ensures
        ({
            let r = difference::<N>(product::<N>(a, x), product::<N>(b, y));
            &&& r.is_finite()
            &&& near(r.units(), 0, o)
            &&& near(
                unit() * r.units(),
                a.units() * x.units() - b.units() * y.units(),
                3 * (unit() * c.e),
            )
        }),
{
    lemma_units_of_constants();
    lemma_product_admitted::<N>(c, a, x);
    lemma_product_admitted::<N>(c, b, y);
    let (p, q) = (product::<N>(a, x), product::<N>(b, y));
    let r = difference::<N>(p, q).units();
    let (u, e) = (unit(), c.e);
    lemma_scaled_bound(u, r, p.units() - q.units(), e);
    let (i, j) = (p.units(), q.units());
    assert(u * (i - j) == u * i - u * j) by (nonlinear_arith);
    lemma_bounded_product(a.units(), x.units(), u, size(x.units()));
    lemma_bounded_product(b.units(), y.units(), u, size(y.units()));
    let (k, l) = (size(x.units()), size(y.units()));
    assert(u * k + u * l + 3 * (u * e) <= u * o) by (nonlinear_arith)
        requires
            u > 0,
            2 * k + 3 * e <= o,
            2 * l + 3 * e <= o,
    ;
    lemma_divided_bound(u, r, o);
}

/// A sum of two products.
proof fn lemma_sum_of_products<N: Numerics>(c: Accuracy, a: F64, x: F64, b: F64, y: F64)
    requires
        c.wf(),
        c.describes::<N>(),
        c.is_factor(a) && c.is_factor(b) && c.is_factor(x) && c.is_factor(y),
    ensures
        ({
            let r = sum::<N>(product::<N>(a, x), product::<N>(b, y));
            &&& r.is_finite()
            &&& near(
                unit() * r.units(),
                a.units() * x.units() + b.units() * y.units(),
                3 * (unit() * c.e),
            )
        }),
{
    lemma_units_of_constants();
    lemma_product_admitted::<N>(c, a, x);
    lemma_product_admitted::<N>(c, b, y);
    let (p, q) = (product::<N>(a, x), product::<N>(b, y));
    let r = sum::<N>(p, q).units();
    let (u, i, j) = (unit(), p.units(), q.units());
    lemma_scaled_bound(u, r, i + j, c.e);
    assert(u * (i + j) == u * i + u * j) by (nonlinear_arith);
}

/// A sum of two products of bounded numbers is a factor.
proof fn lemma_within_share(c: Accuracy, a: int, x: int, b: int, y: int, r: int, o: int)
    requires
        near(a, 0, o) && near(b, 0, o) && near(x, 0, o) && near(y, 0, o),
        o >= 0,
        near(unit() * r, a * x + b * y, 3 * (unit() * c.e)),
        2 * (o * o) + 3 * (unit() * c.e) <= unit() * (c.side - c.e),
        c.e >= 0,
    ensures
        near(r, 0, c.side),
{
    lemma_units_of_constants();
    lemma_bounded_product(a, x, o, o);
    lemma_bounded_product(b, y, o, o);
    lemma_divided_bound(unit(), r, c.side - c.e);
}

/// The length of a residual is bounded as its coordinates are.
proof fn lemma_length_within(c: Accuracy, x: int, y: int, r: int, o: int)
    requires
        2 * size(x) + 2 * c.e <= o,
        2 * size(y) + 2 * c.e <= o,
        c.e >= 0,
        r >= 0,
        4 * (unit() * c.e) <= o * o / 4,
        near(r * r, x * x + y * y, 4 * (unit() * c.e)),
    ensures
        r <= o,
{
    assert(4 * (x * x) <= o * o) by (nonlinear_arith)
        requires
            -o <= 2 * x <= o,
    ;
    assert(4 * (y * y) <= o * o) by (nonlinear_arith)
        requires
            -o <= 2 * y <= o,
    ;
    assert(o * o >= 0) by (nonlinear_arith);
    assert(r * r <= o * o);
    lemma_square_order(r, o);
}

/// A weight is at most one, up to rounding.
proof fn lemma_weight_range(c: Accuracy, err: F64, delta: F64, w: F64)
    requires
        c.e >= 0,
        err.units() >= 0,
        delta.units() >= 0,
        is_huber_weight(c, err, delta, w),
    ensures
        near(w.units(), 0, unit() + c.e),
{
    lemma_units_of_constants();
    let (u, a, b, k, e) = (unit(), err.units(), delta.units(), w.units(), c.e);
    if a > b {
        assert(k <= u + e && -(u + e) <= k) by (nonlinear_arith)
            requires
                a > b,
                b >= 0,
                u > 0,
                e >= 0,
                k * a <= u * b + e * a,
                u * b - e * a <= k * a,
        ;
    }
}

/// A value plus a product.
proof fn lemma_added_product<N: Numerics>(c: Accuracy, a: F64, w: F64, v: F64)
    requires
        c.wf(),
        c.describes::<N>(),
        c.admits(a),
        c.is_factor(w),
        c.is_factor(v),
    ensures
        ({
            let r = sum::<N>(a, product::<N>(w, v));
            &&& r.is_finite()
            &&& near(
                unit() * r.units(),
                unit() * a.units() + w.units() * v.units(),
                2 * (unit() * c.e),
            )
        }),
{
    lemma_units_of_constants();
    lemma_product_admitted::<N>(c, w, v);
    let p = product::<N>(w, v);
    let r = sum::<N>(a, p).units();
    let (u, i, j) = (unit(), a.units(), p.units());
    lemma_scaled_bound(u, r, i + j, c.e);
    assert(u * (i + j) == u * i + u * j) by (nonlinear_arith);
}

/// A value that grew by a weight times something known up to `slack`.
proof fn lemma_grew(c: Accuracy, before: int, after: int, w: int, v: int, exact: int, slack: int)
    requires
        near(unit() * after, unit() * before + w * v, 2 * (unit() * c.e)),
        near(unit() * v, exact, slack),
        near(w, 0, unit() + c.e),
        0 <= c.e <= unit(),
        slack >= 0,
    ensures
        near(
            unit() * (unit() * (after - before)),
            w * exact,
            2 * (unit() * (unit() * c.e)) + 2 * (unit() * slack),
        ),
{
    lemma_units_of_constants();
    let (u, e) = (unit(), c.e);
    assert((u + e) * slack <= 2 * (u * slack)) by (nonlinear_arith)
        requires
            e <= u,
            slack >= 0,
    ;
    lemma_scaled_bound(u, u * after, u * before + w * v, 2 * (u * e));
    assert(u * (u * before + w * v) == u * (u * before) + w * (u * v)) by (nonlinear_arith);
    lemma_bounded_product(w, u * v - exact, u + e, slack);
    assert(w * (u * v - exact) == w * (u * v) - w * exact) by (nonlinear_arith);
    assert(u * (u * (after - before)) == u * (u * after) - u * (u * before)) by (nonlinear_arith);
    assert(u * (2 * (u * e)) == 2 * (u * (u * e))) by (nonlinear_arith);
}

/// The sum of squared residuals with one more.
proof fn lemma_weighted_square<N: Numerics>(c: Accuracy, a: F64, w: F64, err: F64, o: int)
    requires
        c.wf(),
        c.describes::<N>(),
        c.admits(a),
        c.is_factor(w),
        near(w.units(), 0, unit() + c.e),
        err.is_finite() && 0 <= err.units() <= o,
        2 * o + 3 * c.e <= c.side,
        c.e <= unit(),
    ensures
        ({
            let r = sum::<N>(a, product::<N>(product::<N>(w, err), err)).units();
            let (u, e) = (unit(), c.e);
            near(
                u * (u * (r - a.units())),
                w.units() * (err.units() * err.units()),
                2 * (u * (u * e)) + 2 * (u * (o * e)),
            )
        }),
{
    lemma_units_of_constants();
    let (u, e, k, d) = (unit(), c.e, w.units(), err.units());
    let p = product::<N>(w, err);
    lemma_product_admitted::<N>(c, w, err);
    lemma_bounded_product(k, d, u + e, o);
    assert((u + e) * o + u * e <= u * (2 * o + e)) by (nonlinear_arith)
        requires
            0 <= e <= u,
            o >= 0,
    ;
    lemma_divided_bound(u, p.units(), 2 * o + e);
    lemma_product_admitted::<N>(c, p, err);
    let q = product::<N>(p, err);
    let r = sum::<N>(a, q).units();
    lemma_weighed_error(u, e, o, k, d, d, p.units(), q.units(), a.units(), r);
    let b = a.units();
    assert(u * (u * (r - b)) == u * (u * r) - u * (u * b)) by (nonlinear_arith);
    assert(u * (2 * (u * e) + o * e) == 2 * (u * (u * e)) + u * (o * e)) by (nonlinear_arith);
    assert(u * (o * e) >= 0) by (nonlinear_arith)
        requires
            u > 0,
            o >= 0,
            e >= 0,
    ;
}

/// The Hessian is symmetric, with one weight in x and y.
pub proof fn law_hessian_is_symmetric<N: Numerics>(
    tree: N::Tree,
    entries: Seq<Point2>,
    query: Seq<Point2>,
    pose: Pose2,
    cfg: IcpConfig,
    n: nat,
)
    ensures
        ({
            let h = mirrored(equations::<N>(tree, entries, query, pose, cfg, n)).hessian;
            &&& h.m12 == h.m21 && h.m13 == h.m31 && h.m23 == h.m32
            &&& h.m11 == h.m22
            &&& h.m12 == F64 { bits: 0 }
        }),
    decreases n,
{
    if n > 0 {
        law_hessian_is_symmetric::<N>(tree, entries, query, pose, cfg, (n - 1) as nat);
    }
}

/// Query point `i` has a partner at `pose`.
pub open spec fn has_partner<N: Numerics>(
    tree: N::Tree,
    entries: Seq<Point2>,
    query: Seq<Point2>,
    pose: Pose2,
    cfg: IcpConfig,
) -> spec_fn(int) -> bool {
    |i: int|
        partner(
            entries,
            nearest_of::<N>(tree, pose.transformed::<N>(query[i])),
            product::<N>(cfg.max_correspondence_dist_m, cfg.max_correspondence_dist_m),
        ) is Some
}

/// The inliers are the query points that found a partner.
pub proof fn law_inliers_are_counted<N: Numerics>(
    tree: N::Tree,
    entries: Seq<Point2>,
    query: Seq<Point2>,
    pose: Pose2,
    cfg: IcpConfig,
    n: nat,
)
    requires
        n <= query.len() <= usize::MAX,
    ensures
        equations::<N>(tree, entries, query, pose, cfg, n).inliers == indices(
            n,
            has_partner::<N>(tree, entries, query, pose, cfg),
        ).len(),
    decreases n,
{
    let pick = has_partner::<N>(tree, entries, query, pose, cfg);
    lemma_indices_step(0, pick);
    if n > 0 {
        let m = (n - 1) as nat;
        law_inliers_are_counted::<N>(tree, entries, query, pose, cfg, m);
        lemma_indices_step(m, pick);
        lemma_indices_finite(m, pick);
    }
}

// ---- Updates ----

/// `d` solves `m·d = b` up to `slack`, times one.
pub open spec fn solves(m: Matrix3, d: Vector3, b: Vector3, slack: int) -> bool {
    let (x, y, z) = (d.x.units(), d.y.units(), d.z.units());
    &&& near(m.m11.units() * x + m.m12.units() * y + m.m13.units() * z, unit() * b.x.units(), slack)
    &&& near(m.m21.units() * x + m.m22.units() * y + m.m23.units() * z, unit() * b.y.units(), slack)
    &&& near(m.m31.units() * x + m.m32.units() * y + m.m33.units() * z, unit() * b.z.units(), slack)
}

/// `d` is the step from one pose to the next.
pub open spec fn is_step(c: Precision, from: Pose2, to: Pose2, d: Vector3) -> bool {
    &&& near(to.x.units(), from.x.units() + d.x.units(), c.e)
    &&& near(to.y.units(), from.y.units() + d.y.units(), c.e)
    &&& same_heading(to.theta.units(), from.theta.units() + d.z.units(), 5 * c.e)
}

/// `d` brings the gradient to nothing: the Hessian times the step, plus the right-hand
/// side, vanishes up to `slack`.
pub open spec fn cancels(normal: NormalEquations, d: Vector3, slack: int) -> bool {
    let (h, b) = (normal.hessian, normal.rhs);
    let (x, y, z) = (d.x.units(), d.y.units(), d.z.units());
    &&& near(
        h.m11.units() * x + h.m12.units() * y + h.m13.units() * z + unit() * b.x.units(),
        0,
        slack,
    )
    &&& near(
        h.m21.units() * x + h.m22.units() * y + h.m23.units() * z + unit() * b.y.units(),
        0,
        slack,
    )
    &&& near(
        h.m31.units() * x + h.m32.units() * y + h.m33.units() * z + unit() * b.z.units(),
        0,
        slack,
    )
}

/// The step `d` is below both thresholds, up to rounding for the length of its translation,
/// if and only if it counts as converged.
pub open spec fn converges(a: Accuracy, d: Vector3, cfg: IcpConfig, converged: bool) -> bool {
    let (x, y, limit) = (d.x.units(), d.y.units(), cfg.translation_epsilon_m.units());
    let error = 4 * (unit() * a.e);
    let turns_less = size(d.z.units()) < cfg.rotation_epsilon_rad.units();
    &&& converged ==> x * x + y * y < limit * limit + error && turns_less
    &&& x * x + y * y + error < limit * limit && turns_less ==> converged
}

/// `N` solves the system of the normal equations up to `slack`, whatever the signs of the
/// right-hand side, by a step that fits the arithmetic.
pub open spec fn solves_well<N: Numerics>(
    c: Precision,
    a: Accuracy,
    normal: NormalEquations,
    slack: int,
) -> bool {
    let (h, r) = (normal.hessian, normal.rhs);
    &&& r.x.is_finite() && r.y.is_finite() && r.z.is_finite()
    &&& forall|b: Vector3|
        b.x.is_finite() && b.y.is_finite() && b.z.is_finite() && size(b.x.units()) == size(
            r.x.units(),
        ) && size(b.y.units()) == size(r.y.units()) && size(b.z.units()) == size(r.z.units()) ==> (
        #[trigger] solution_of::<N>(h, b) matches Some(d) ==> {
            &&& solves(h, d, b, slack)
            &&& c.admits(d.x) && c.admits(d.y) && is_angle(d.z)
            &&& a.is_factor(d.x) && a.is_factor(d.y)
        })
}

/// One iteration moves the pose by the step that brings the gradient at that pose to
/// nothing. It counts as one iteration, and as converged exactly if the step is below both
/// thresholds.
pub proof fn law_iteration_takes_the_gauss_newton_step<N: Numerics>(
    c: Precision,
    a: Accuracy,
    s: IcpState,
    tree: N::Tree,
    entries: Seq<Point2>,
    query: Seq<Point2>,
    cfg: IcpConfig,
    slack: int,
    next: IcpState,
)
    requires
        c.wf(),
        c.describes_arithmetic::<N>(),
        c.describes_remainder::<N>(),
        a.wf(),
        a.describes::<N>(),
        a.describes_roots::<N>(),
        c.admits(s.pose.x) && c.admits(s.pose.y) && is_angle(s.pose.theta),
        cfg.translation_epsilon_m.is_finite() && cfg.translation_epsilon_m.units() >= 0,
        cfg.rotation_epsilon_rad.is_finite(),
        s.iterations < usize::MAX,
        solves_well::<N>(
            c,
            a,
            mirrored(equations::<N>(tree, entries, query, s.pose, cfg, query.len())),
            slack,
        ),
        iterated::<N>(s, tree, entries, query, cfg) == Ok::<IcpState, SlamError>(next),
    ensures
        next.normal == mirrored(equations::<N>(tree, entries, query, s.pose, cfg, query.len())),
        next.iterations == s.iterations + 1,
        exists|d: Vector3| #[trigger]
            is_step(c, s.pose, next.pose, d) && cancels(next.normal, d, slack) && converges(
                a,
                d,
                cfg,
                next.converged,
            ),
{
    let normal = mirrored(equations::<N>(tree, entries, query, s.pose, cfg, query.len()));
    let b = opposite(normal.rhs);
    lemma_units_negated(normal.rhs.x);
    lemma_units_negated(normal.rhs.y);
    lemma_units_negated(normal.rhs.z);
    assert(next.normal == normal);
    let d = solution_of::<N>(normal.hessian, b)->0;
    assert(solves(normal.hessian, d, b, slack));
    lemma_half_turn();
    lemma_angle_range(s.pose.theta);
    lemma_angle_range(d.z);
    let t = sum::<N>(s.pose.theta, d.z);
    assert(c.admits(s.pose.theta) && c.admits(d.z));
    law_wrapping_keeps_the_heading::<N>(c, t);
    lemma_near_is_heading(t.units(), s.pose.theta.units() + d.z.units(), c.e);
    lemma_headings_add(
        t.units(),
        s.pose.theta.units() + d.z.units(),
        next.pose.theta.units(),
        0,
        c.e,
        4 * c.e,
    );
    let (u, i, j, k) = (
        unit(),
        normal.rhs.x.units(),
        normal.rhs.y.units(),
        normal.rhs.z.units(),
    );
    assert(u * (-i) == -(u * i) && u * (-j) == -(u * j) && u * (-k) == -(u * k))
        by (nonlinear_arith);
    law_norm_is_the_length::<N>(a, d.x, d.y);
    let l = norm_of::<N>(d.x, d.y);
    law_order_is_value_order(l, cfg.translation_epsilon_m);
    lemma_square_order(cfg.translation_epsilon_m.units(), l.units());
    lemma_absolute_units(d.z);
    law_order_is_value_order(d.z.absolute(), cfg.rotation_epsilon_rad);
    assert(is_step(c, s.pose, next.pose, d));
    assert(cancels(normal, d, slack));
    assert(converges(a, d, cfg, next.converged));
}

/// An iteration uses the equations of its own pose.
pub proof fn law_iteration_uses_its_own_pose<N: Numerics>(
    s: IcpState,
    tree: N::Tree,
    entries: Seq<Point2>,
    query: Seq<Point2>,
    cfg: IcpConfig,
    next: IcpState,
)
    requires
        query.len() <= usize::MAX,
        iterated::<N>(s, tree, entries, query, cfg) == Ok::<IcpState, SlamError>(next),
    ensures
        next.normal.inliers >= 2,
        next.normal.inliers == indices(
            query.len(),
            has_partner::<N>(tree, entries, query, s.pose, cfg),
        ).len(),
{
    law_inliers_are_counted::<N>(tree, entries, query, s.pose, cfg, query.len());
}

// ---- Rating ----

/// The variance of the residuals: the squared residuals over the degrees of freedom, two
/// per pair less the three of a pose, but at least one.
pub open spec fn freedoms(inliers: int) -> int {
    if 2 * inliers - 3 >= 1 {
        2 * inliers - 3
    } else {
        1
    }
}

/// A match counts as converged if the run converged and enough query points found a
/// partner: the inliers are at least the least ratio of all, up to rounding.
pub proof fn law_match_converges_with_enough_inliers<N: Numerics>(
    c: Accuracy,
    s: IcpState,
    n: nat,
    cfg: IcpConfig,
)
    requires
        c.wf(),
        c.describes_quotients::<N>(),
        c.counts::<N>(),
        s.normal.inliers <= n,
        1 <= n <= u32::MAX,
        unit() <= c.limit,
        cfg.min_inlier_ratio.is_finite(),
    ensures
        ({
            let r = rated::<N>(s, n, cfg);
            let (least, inliers) = (cfg.min_inlier_ratio.units(), s.normal.inliers as int);
            &&& r.converged ==> s.converged && least * n <= unit() * inliers + c.e * n
            &&& s.converged && least * n <= unit() * inliers - c.e * n ==> r.converged
            &&& r.pose == s.pose
            &&& r.iterations == s.iterations
        }),
{
    lemma_units_of_constants();
    let inliers = float_of_len::<N>(s.normal.inliers as nat);
    let all = float_of_len::<N>(n);
    assert(all == float_of::<N>(n as u32));
    assert(inliers == float_of::<N>(s.normal.inliers as u32));
    let (u, k, m) = (unit(), s.normal.inliers as int, n as int);
    assert(u * (k * u) <= c.limit * (m * u) && k * u >= 0 && m * u > 0) by (nonlinear_arith)
        requires
            u > 0,
            0 <= k <= m,
            m >= 1,
            u <= c.limit,
    ;
    let ratio = quotient::<N>(inliers, all);
    let (q, e) = (ratio.units(), c.e);
    assert(q * (m * u) == u * (q * m) && u * (k * u) == u * (u * k) && e * (m * u) == u * (e * m))
        by (nonlinear_arith);
    assert(u * (q * m) - u * (u * k) == u * (q * m - u * k)) by (nonlinear_arith);
    lemma_divided_bound(u, q * m - u * k, e * m);
    let least = cfg.min_inlier_ratio;
    law_order_is_value_order(least, ratio);
    let l = least.units();
    assert((l <= q) == (l * m <= q * m)) by (nonlinear_arith)
        requires
            m >= 1,
    ;
}

/// The covariance of a match is the inverse of the Hessian, times the variance of the
/// residuals, which has a floor.
pub proof fn law_covariance_is_the_scaled_inverse<N: Numerics>(
    c: Accuracy,
    s: IcpState,
    n: nat,
    cfg: IcpConfig,
    inv: Matrix3,
)
    requires
        c.wf(),
        c.describes::<N>(),
        c.describes_quotients::<N>(),
        c.counts::<N>(),
        s.normal.inliers <= u32::MAX,
        inverse_of::<N>(s.normal.hessian) == Some(inv),
        multiplies_by::<N>(c, inv),
        s.normal.sse.is_finite() && 0 <= s.normal.sse.units() && s.normal.sse.units() + c.e
            <= c.side,
        (2 * s.normal.inliers + 3) * unit() + c.e <= c.side,
        (F64 { bits: LEAST_VARIANCE }).units() <= c.side,
        multiplies_exactly::<N>(F64 { bits: TWO }, float_of::<N>(s.normal.inliers as u32)),
        forall|a: F64, b: F64|
            #![trigger difference::<N>(a, b)]
            c.admits(a) && c.admits(b) && a.units() % unit() == 0 && b.units() % unit() == 0
                ==> subtracts_exactly::<N>(a, b),
    ensures
        ({
            let r = rated::<N>(s, n, cfg).covariance;
            exists|v: F64|
                {
                    &&& c.is_factor(v)
                    &&& (F64 { bits: LEAST_VARIANCE }).units() <= v.units()
                    &&& v == F64 { bits: LEAST_VARIANCE } || near(
                        v.units() * freedoms(s.normal.inliers as int),
                        s.normal.sse.units(),
                        c.e * freedoms(s.normal.inliers as int),
                    )
                    &&& #[trigger] is_multiple(c, inv, v, r)
                }
        }),
{
    lemma_units_of_constants();
    lemma_units_of_numbers();
    let k = s.normal.inliers as int;
    let inliers = float_of_len::<N>(s.normal.inliers as nat);
    assert(inliers == float_of::<N>(s.normal.inliers as u32));
    let (one, two, three) = (F64 { bits: ONE }, F64 { bits: TWO }, F64 { bits: THREE });
    let u = unit();
    assert((2 * k + 3) * u == 2 * (k * u) + 3 * u && k * u >= 0) by (nonlinear_arith)
        requires
            u > 0,
            k >= 0,
    ;
    lemma_product_admitted::<N>(c, two, inliers);
    let twice = product::<N>(two, inliers);
    let z = twice.units();
    assert(z == (2 * k) * u + 0) by (nonlinear_arith)
        requires
            u * z == (2 * u) * (k * u),
            u > 0,
    ;
    vstd::arithmetic::div_mod::lemma_fundamental_div_mod_converse(z, u, 2 * k, 0);
    vstd::arithmetic::div_mod::lemma_fundamental_div_mod_converse(three.units(), u, 3, 0);
    let rest = difference::<N>(twice, three);
    let dof = rest.max(one);
    law_order_is_value_order(rest, one);
    law_order_is_value_order(one, rest);
    let f = freedoms(k);
    assert(dof.units() == f * u) by (nonlinear_arith)
        requires
            rest.units() == (2 * k) * u - 3 * u,
            u > 0,
            dof.units() == (if rest.units() >= u {
                rest.units()
            } else {
                u
            }),
            f == (if 2 * k - 3 >= 1 {
                2 * k - 3
            } else {
                1
            }),
    ;
    let sse = s.normal.sse;
    let z = sse.units();
    let q = quotient::<N>(sse, dof);
    assert(u * z <= c.limit * (f * u) && f * u > 0) by (nonlinear_arith)
        requires
            u > 0,
            f >= 1,
            0 <= z <= c.limit,
    ;
    let (e, x) = (c.e, q.units());
    assert(x * (f * u) == u * (x * f) && e * (f * u) == u * (e * f)) by (nonlinear_arith);
    assert(u * (x * f) - u * z == u * (x * f - z)) by (nonlinear_arith);
    lemma_divided_bound(u, x * f - z, e * f);
    assert(-c.side <= x <= c.side) by (nonlinear_arith)
        requires
            f >= 1,
            0 <= z,
            z + e <= c.side,
            e >= 0,
            -(e * f) <= x * f - z <= e * f,
    ;
    let least = F64 { bits: LEAST_VARIANCE };
    law_order_is_value_order(q, least);
    law_order_is_value_order(least, q);
    law_order_is_value_order(F64 { bits: 0 }, least);
    let v = q.max(least);
    assert(c.is_factor(v));
    assert(least.units() <= v.units());
    assert(v == least || near(v.units() * f, z, e * f));
    assert(rated::<N>(s, n, cfg).covariance == scaled::<N>(inv, v));
    assert(is_multiple(c, inv, v, rated::<N>(s, n, cfg).covariance));
}

/// Every entry of a matrix is a factor.
pub open spec fn multiplies_by<N: Numerics>(c: Accuracy, m: Matrix3) -> bool {
    &&& c.is_factor(m.m11) && c.is_factor(m.m12) && c.is_factor(m.m13)
    &&& c.is_factor(m.m21) && c.is_factor(m.m22) && c.is_factor(m.m23)
    &&& c.is_factor(m.m31) && c.is_factor(m.m32) && c.is_factor(m.m33)
}

/// `r` is `m` times `v`, entry by entry.
pub open spec fn is_multiple(c: Accuracy, m: Matrix3, v: F64, r: Matrix3) -> bool {
    let (k, u) = (v.units(), unit());
    &&& near(u * r.m11.units(), m.m11.units() * k, u * c.e)
    &&& near(u * r.m12.units(), m.m12.units() * k, u * c.e)
    &&& near(u * r.m13.units(), m.m13.units() * k, u * c.e)
    &&& near(u * r.m21.units(), m.m21.units() * k, u * c.e)
    &&& near(u * r.m22.units(), m.m22.units() * k, u * c.e)
    &&& near(u * r.m23.units(), m.m23.units() * k, u * c.e)
    &&& near(u * r.m31.units(), m.m31.units() * k, u * c.e)
    &&& near(u * r.m32.units(), m.m32.units() * k, u * c.e)
    &&& near(u * r.m33.units(), m.m33.units() * k, u * c.e)
}

/// Where quotients, roots, exponentials and products keep the order, a match with the
/// same inliers and greater residuals has no greater score.
pub proof fn law_greater_residuals_score_less<N: Numerics>(
    a: IcpState,
    b: IcpState,
    n: nat,
    cfg: IcpConfig,
)
    requires
        keeps_order::<N>(),
        a.normal.inliers == b.normal.inliers,
        (F64 { bits: 0 }).le(a.normal.sse),
        a.normal.sse.le(b.normal.sse),
        (F64 { bits: 0 }).lt(cfg.score_sigma_m),
        cfg.score_sigma_m.is_finite(),
        float_of_len::<N>(a.normal.inliers as nat).is_finite(),
        ({
            let ratio = quotient::<N>(
                float_of_len::<N>(a.normal.inliers as nat),
                float_of_len::<N>(n),
            );
            (F64 { bits: 0 }).le(ratio) && ratio.is_finite()
        }),
    ensures
        rated::<N>(b, n, cfg).score.le(rated::<N>(a, n, cfg).score),
{
    let (zero, one) = (F64 { bits: 0 }, F64 { bits: ONE });
    let inliers = float_of_len::<N>(a.normal.inliers as nat);
    let d = inliers.max(one);
    let (p, q) = (quotient::<N>(a.normal.sse, d), quotient::<N>(b.normal.sse, d));
    assert(zero.lt(d) && d.is_finite());
    assert(zero.le(p) && p.le(q));
    let (x, y) = (root_of::<N>(p), root_of::<N>(q));
    assert(zero.le(x) && x.le(y));
    let (i, j) = (
        quotient::<N>(x.negated(), cfg.score_sigma_m),
        quotient::<N>(y.negated(), cfg.score_sigma_m),
    );
    assert(y.negated().le(x.negated()) && x.negated().le(zero));
    assert(j.le(i) && i.le(zero));
    assert(exp_of::<N>(j).le(exp_of::<N>(i)));
}

/// Quotients by something positive, roots, exponentials and products with something that
/// is not negative keep the order.
pub open spec fn keeps_order<N: Numerics>() -> bool {
    let zero = F64 { bits: 0 };
    &&& forall|a: F64, b: F64, d: F64|
        #![trigger quotient::<N>(a, d), quotient::<N>(b, d)]
        a.le(b) && zero.lt(d) && d.is_finite() ==> quotient::<N>(a, d).le(quotient::<N>(b, d))
    &&& forall|a: F64, b: F64|
        #![trigger root_of::<N>(a), root_of::<N>(b)]
        zero.le(a) && a.le(b) ==> root_of::<N>(a).le(root_of::<N>(b))
    &&& forall|a: F64, d: F64|
        #![trigger quotient::<N>(a, d)]
        zero.lt(d) && d.is_finite() ==> {
            &&& zero.le(a) ==> zero.le(quotient::<N>(a, d))
            &&& a.le(zero) ==> quotient::<N>(a, d).le(zero)
        }
    &&& forall|a: F64| zero.le(a) ==> zero.le(#[trigger] root_of::<N>(a))
    &&& forall|a: F64, b: F64|
        #![trigger exp_of::<N>(a), exp_of::<N>(b)]
        a.le(b) && b.le(zero) ==> exp_of::<N>(a).le(exp_of::<N>(b)) && exp_of::<N>(a).is_finite()
            && exp_of::<N>(b).is_finite()
    &&& forall|k: F64, a: F64, b: F64|
        #![trigger product::<N>(k, a), product::<N>(k, b)]
        zero.le(k) && k.is_finite() && a.is_finite() && b.is_finite() && a.le(b) ==> product::<N>(
            k,
            a,
        ).le(product::<N>(k, b))
}

/// A match without residuals scores the share of its inliers, where the exponential of
/// nothing is one and one is neutral.
pub proof fn law_perfect_match_scores_its_inliers<N: Numerics>(
    s: IcpState,
    n: nat,
    cfg: IcpConfig,
    ratio: F64,
)
    requires
        ratio == quotient::<N>(
            float_of_len::<N>(s.normal.inliers as nat),
            float_of_len::<N>(n),
        ),
        (F64 { bits: 0 }).le(ratio),
        ratio.le(F64 { bits: ONE }),
        s.normal.sse == (F64 { bits: 0 }),
        forall|d: F64| #[trigger] quotient::<N>(F64 { bits: 0 }, d) == (F64 { bits: 0 }),
        forall|d: F64|
            #[trigger] quotient::<N>((F64 { bits: 0 }).negated(), d) == (F64 { bits: 0 }).negated(),
        root_of::<N>(F64 { bits: 0 }) == (F64 { bits: 0 }),
        exp_of::<N>((F64 { bits: 0 }).negated()) == (F64 { bits: ONE }),
        product::<N>(ratio, F64 { bits: ONE }) == ratio,
    ensures
        rated::<N>(s, n, cfg).score == ratio,
{
}

// ---- Runs ----

/// The points that are matched against are the finite ones, all of them and in order.
pub proof fn law_reference_is_the_finite_points(a: Seq<Point2>, p: Point2, b: Seq<Point2>)
    ensures
        finite_points(Seq::<Point2>::empty()) == Seq::<Point2>::empty(),
        p.x.is_finite() && p.y.is_finite() ==> finite_points(a + seq![p] + b) == finite_points(a)
            + seq![p] + finite_points(b),
        !(p.x.is_finite() && p.y.is_finite()) ==> finite_points(a + seq![p] + b) == finite_points(
            a + b,
        ),
{
    let finite = |q: Point2| q.is_finite();
    reveal(Seq::filter);
    Seq::filter_distributes_over_add(a + seq![p], b, finite);
    Seq::filter_distributes_over_add(a, seq![p], finite);
    Seq::filter_distributes_over_add(a, b, finite);
    assert(seq![p].drop_last() =~= Seq::<Point2>::empty());
    assert(Seq::<Point2>::empty().filter(finite) =~= Seq::<Point2>::empty());
    assert(seq![p].last() == p);
    assert(finite(p) == (p.x.is_finite() && p.y.is_finite()));
    if finite(p) {
        assert(seq![p].filter(finite) =~= seq![p]);
    } else {
        assert(seq![p].filter(finite) =~= Seq::<Point2>::empty());
        assert(a.filter(finite) + Seq::<Point2>::empty() =~= a.filter(finite));
    }
}

/// Two scans are matched only if both have enough points, and the reference enough finite
/// ones.
pub proof fn law_small_scans_are_refused<N: Numerics>(
    reference: Seq<Point2>,
    query: Seq<Point2>,
    guess: Pose2,
    cfg: IcpConfig,
)
    requires
        reference.len() < cfg.min_points || query.len() < cfg.min_points || finite_points(
            reference,
        ).len() < cfg.min_points,
    ensures
        icp_matched::<N>(reference, query, guess, cfg) matches Err(e) && e is MatchFailed,
{
}

/// A match comes from a chain of poses: it begins with the guess, each iteration leads
/// from one to the next, only the last may have converged, and the match is at the last.
pub proof fn law_match_follows_a_chain_of_iterations<N: Numerics>(
    reference: Seq<Point2>,
    query: Seq<Point2>,
    guess: Pose2,
    cfg: IcpConfig,
    m: MatchResult,
)
    requires
        icp_matched::<N>(reference, query, guess, cfg) == Ok::<MatchResult, SlamError>(m),
    ensures
        m.iterations <= cfg.max_iterations,
        exists|chain: Seq<IcpState>|
            {
                &&& chain.len() == m.iterations + 1
                &&& chain[0].pose == guess
                &&& chain.last().pose == m.pose
                &&& m.converged ==> chain.last().converged
                &&& m.iterations < cfg.max_iterations ==> chain.last().converged
                &&& #[trigger] is_chain::<N>(finite_points(reference), query, cfg, chain)
            },
{
    let entries = finite_points(reference);
    let tree = tree_of::<N>(entries);
    lemma_chain::<N>(guess, entries, query, cfg, cfg.max_iterations as nat);
    let s = run::<N>(guess, tree, entries, query, cfg, cfg.max_iterations as nat)->Ok_0;
    let chain = choose|chain: Seq<IcpState>|
        chain.len() == s.iterations + 1 && chain[0] == start_from(guess) && chain.last() == s
            && #[trigger] is_chain::<N>(entries, query, cfg, chain);
    law_iterations_are_bounded::<N>(
        guess,
        tree,
        entries,
        query,
        cfg,
        cfg.max_iterations as nat,
    );
    assert(is_chain::<N>(entries, query, cfg, chain));
}

/// Each state but the last is not converged, and the next comes of it by one iteration.
pub open spec fn is_chain<N: Numerics>(
    entries: Seq<Point2>,
    query: Seq<Point2>,
    cfg: IcpConfig,
    chain: Seq<IcpState>,
) -> bool {
    forall|i: int|
        #![trigger chain[i]]
        0 <= i < chain.len() - 1 ==> !chain[i].converged && iterated::<N>(
            chain[i],
            tree_of::<N>(entries),
            entries,
            query,
            cfg,
        ) == Ok::<IcpState, SlamError>(chain[i + 1])
}

/// A run is a chain.
proof fn lemma_chain<N: Numerics>(
    guess: Pose2,
    entries: Seq<Point2>,
    query: Seq<Point2>,
    cfg: IcpConfig,
    n: nat,
)
    requires
        n <= cfg.max_iterations,
    ensures
        run::<N>(guess, tree_of::<N>(entries), entries, query, cfg, n) matches Ok(s) ==> exists|
            chain: Seq<IcpState>,
        |
            chain.len() == s.iterations + 1 && chain[0] == start_from(guess) && chain.last() == s
                && #[trigger] is_chain::<N>(entries, query, cfg, chain),
    decreases n,
{
    let tree = tree_of::<N>(entries);
    if n == 0 {
        let chain = seq![start_from(guess)];
        assert(is_chain::<N>(entries, query, cfg, chain));
    } else {
        let m = (n - 1) as nat;
        lemma_chain::<N>(guess, entries, query, cfg, m);
        law_iterations_are_bounded::<N>(guess, tree, entries, query, cfg, m);
        match run::<N>(guess, tree, entries, query, cfg, m) {
            Err(e) => {},
            Ok(s) => {
                let before = choose|chain: Seq<IcpState>|
                    chain.len() == s.iterations + 1 && chain[0] == start_from(guess)
                        && chain.last() == s && #[trigger] is_chain::<N>(
                        entries,
                        query,
                        cfg,
                        chain,
                    );
                if !s.converged {
                    match iterated::<N>(s, tree, entries, query, cfg) {
                        Err(e) => {},
                        Ok(next) => {
                            let chain = before.push(next);
                            assert forall|i: int|
                                #![trigger chain[i]]
                                0 <= i < chain.len() - 1 implies !chain[i].converged && iterated::<
                                N,
                            >(chain[i], tree, entries, query, cfg) == Ok::<IcpState, SlamError>(
                                chain[i + 1],
                            ) by {
                                assert(chain[i] == before[i]);
                            }
                            assert(is_chain::<N>(entries, query, cfg, chain));
                            assert(chain.last() == next);
                        },
                    }
                } else {
                    assert(is_chain::<N>(entries, query, cfg, before));
                }
            },
        }
    }
}

/// `r` is the root of the mean squared residual: its square, times the inliers (at least
/// one), is the sum of the squared residuals, up to rounding.
pub open spec fn is_rmse(c: Accuracy, s: IcpState, r: F64) -> bool {
    let n = if s.normal.inliers == 0 {
        1
    } else {
        s.normal.inliers as int
    };
    &&& r.is_finite() && r.units() >= 0
    &&& near(
        n * (r.units() * r.units()),
        unit() * s.normal.sse.units(),
        2 * (n * (unit() * c.e)),
    )
}

/// The score of a match is the share of inliers, times the exponential of minus the root
/// mean square of the residuals over its scale, held between 0 and 1.
pub proof fn law_score_falls_off_with_the_mean_residual<N: Numerics>(
    c: Accuracy,
    s: IcpState,
    n: nat,
    cfg: IcpConfig,
)
    requires
        c.wf(),
        c.describes_quotients::<N>(),
        c.describes_roots::<N>(),
        c.counts::<N>(),
        s.normal.inliers <= n <= u32::MAX,
        s.normal.sse.is_finite() && 0 <= s.normal.sse.units() <= c.limit,
        forall|a: F64, b: F64|
            #![trigger quotient::<N>(a, b)]
            a.is_finite() && b.is_finite() && a.units() >= 0 && b.units() > 0 ==> quotient::<N>(
                a,
                b,
            ).units() >= 0,
    ensures
        exists|r: F64, ratio: F64, part: F64|
            {
                &&& #[trigger] is_rmse(c, s, r)
                &&& #[trigger] is_quotient::<N>(
                    float_of::<N>(s.normal.inliers as u32),
                    float_of::<N>(n as u32),
                    ratio,
                )
                &&& #[trigger] is_quotient::<N>(r.negated(), cfg.score_sigma_m, part)
                &&& rated::<N>(s, n, cfg).score == held_score(
                    product::<N>(ratio, exp_of::<N>(part)),
                )
            },
{
    lemma_units_of_constants();
    let k = s.normal.inliers as int;
    let one = F64 { bits: ONE };
    let inliers = float_of_len::<N>(s.normal.inliers as nat);
    let all = float_of_len::<N>(n);
    assert(inliers == float_of::<N>(s.normal.inliers as u32) && all == float_of::<N>(n as u32));
    let d = inliers.max(one);
    let (u, z, e) = (unit(), s.normal.sse.units(), c.e);
    law_order_is_value_order(inliers, one);
    law_order_is_value_order(one, inliers);
    let m = if k == 0 {
        1
    } else {
        k
    };
    assert(k >= 1 ==> k * u >= u) by (nonlinear_arith)
        requires
            u > 0,
    ;
    assert(d.units() == m * u) by (nonlinear_arith)
        requires
            d.units() == (if k * u >= u {
                k * u
            } else {
                u
            }),
            m == (if k == 0 {
                1
            } else {
                k
            }),
            k >= 1 ==> k * u >= u,
            k >= 0,
            u > 0,
    ;
    assert(m * u > 0 && u * z <= c.limit * (m * u)) by (nonlinear_arith)
        requires
            m >= 1,
            u > 0,
            0 <= z <= c.limit,
    ;
    let q = quotient::<N>(s.normal.sse, d);
    let x = q.units();
    assert(x * (m * u) == u * (m * x) && e * (m * u) == u * (m * e) && u * (m * x) - u * z == u * (m
        * x - z)) by (nonlinear_arith);
    lemma_divided_bound(u, m * x - z, m * e);
    assert(x <= c.limit + e) by (nonlinear_arith)
        requires
            m >= 1,
            m * x - z <= m * e,
            0 <= z <= c.limit,
    ;
    let r = root_of::<N>(q);
    let y = r.units() * r.units();
    lemma_scaled_bound(m, y, u * x, u * e);
    lemma_scaled_bound(u, m * x, z, m * e);
    assert(m * (u * x) == u * (m * x) && m * (u * e) == u * (m * e)) by (nonlinear_arith);
    assert(is_rmse(c, s, r));
    let ratio = quotient::<N>(inliers, all);
    let part = quotient::<N>(r.negated(), cfg.score_sigma_m);
    assert(is_quotient::<N>(inliers, all, ratio));
    assert(is_quotient::<N>(r.negated(), cfg.score_sigma_m, part));
}

/// `r` is the quotient of `a` and `b`.
pub open spec fn is_quotient<N: Numerics>(a: F64, b: F64, r: F64) -> bool {
    r == quotient::<N>(a, b)
}

} // verus!
