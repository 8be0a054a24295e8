//! What the correlative search finds, in terms of the scan and the field.

use vstd::arithmetic::power::{lemma_pow_distributes, lemma_pow_positive, pow};
use vstd::prelude::*;

use crate::accuracy::{
    adds_exactly, divides_exactly, keeps_signs, lemma_bounded_product, lemma_divided_bound,
    lemma_product_admitted, lemma_scaled_bound, multiplies_exactly, near, size, subtracts_exactly,
    total, Accuracy,
};
use crate::algebra::{
    error, is_angle, law_wrapping_keeps_the_heading, lemma_angle_range, lemma_half_turn,
    lemma_headings_add, lemma_near_is_heading, lemma_rotated, place, rotation, same_heading,
    Precision,
};
use crate::error::SlamError;
use crate::float::{
    law_order_is_value_order, lemma_units_negated, lemma_units_of_constants, lemma_units_of_numbers,
    lemma_units_of_pattern, unit, F32, F64,
};
use crate::grid::cellmath::ONE;
use crate::grid::{centres, least_log_odds, lemma_index_in_grid, GridConfig};
use crate::matcher::csm::{
    best_at, centred, coarse_step, coarse_turn, concluded, covariance_of, falling, fine_samples,
    fine_score, inverse_len, last_peak, law_peak_is_greatest, likelihood_sum, margin_of, matched,
    moments, no_moments, offsets, peak, plane, quantization, query_fault, refinement, refinements,
    score_of, sharpened, shifted, top, turned, vertex_of, weight_of, with_samples, Candidate,
    CsmConfig, Moments, RefinedModel, BELOW, FLAT, FOUR, LEAST_WEIGHT, MARGIN_M, TWELVE, TWO,
};
use crate::matcher::likelihood::{field_of, pooled, FieldModel};
use crate::matcher::scan_to_map::{matched_to_map, ScanToMapConfig};
use crate::matcher::icp::LEAST_VARIANCE;
use crate::matcher::{float_of_count, float_of_len, MatchResult, UNKNOWN_VARIANCE};
use crate::matrix::{Matrix3, Vector3};
use crate::numerics::{difference, float_of, power_of, product, quotient, sum, widen_of, Numerics};
use crate::order::{
    law_order_is_stable_and_ascending, lemma_order_is_complete, lemma_order_len, lemma_place_range,
    ordered,
};
use crate::pose::{wrapped, Point2, Pose2};

verus! {

// ---- Scores ----

/// What the field says of `p`, moved by `(dx, dy)`.
pub open spec fn seen_at<N: Numerics>(
    field: FieldModel,
    p: Point2,
    dx: F64,
    dy: F64,
    fine: bool,
) -> F64 {
    let moved = Point2 { x: sum::<N>(p.x, dx), y: sum::<N>(p.y, dy) };
    widen_of::<N>(
        if fine {
            field.smooth::<N>(moved)
        } else {
            field.nearest::<N>(moved)
        },
    )
}

/// A sum of likelihoods, up to one error for each.
proof fn lemma_likelihood_sum<N: Numerics>(
    c: Accuracy,
    field: FieldModel,
    points: Seq<Point2>,
    dx: F64,
    dy: F64,
    fine: bool,
    seen: Seq<F64>,
    n: nat,
)
    requires
        c.wf(),
        c.describes::<N>(),
        seen.len() == points.len(),
        n <= points.len(),
        points.len() * (unit() + c.e) <= c.side,
        unit() <= c.side,
        forall|i: int|
            0 <= i < points.len() ==> {
                &&& #[trigger] seen[i] == seen_at::<N>(field, points[i], dx, dy, fine)
                &&& seen[i].is_finite()
                &&& 0 <= seen[i].units() <= unit()
            },
    ensures
        ({
            let s = likelihood_sum::<N>(field, points, dx, dy, fine, n);
            &&& s.is_finite()
            &&& near(s.units(), total(seen.take(n as int)), n * c.e)
            &&& 0 <= total(seen.take(n as int)) <= n * unit()
        }),
    decreases n,
{
    lemma_units_of_constants();
    if n == 0 {
        assert(seen.take(0) =~= Seq::<F64>::empty());
    } else {
        let m = (n - 1) as nat;
        lemma_likelihood_sum::<N>(c, field, points, dx, dy, fine, seen, m);
        assert(seen.take(n as int).drop_last() =~= seen.take(m as int));
        let before = likelihood_sum::<N>(field, points, dx, dy, fine, m);
        let (u, e, k) = (unit(), c.e, points.len() as int);
        assert(m * u + m * e <= k * (u + e) && m * e >= 0 && m * u >= 0) by (nonlinear_arith)
            requires
                0 <= m <= k,
                u >= 0,
                e >= 0,
        ;
        assert(n * e == m * e + e && n * u == m * u + u) by (nonlinear_arith)
            requires
                n == m + 1,
        ;
        assert(c.admits(before));
        assert(seen[m as int] == seen_at::<N>(field, points[m as int], dx, dy, fine));
        assert(c.admits(seen[m as int]));
    }
}

/// The score of a translation is the mean of what the field says of the points, each
/// moved by it: times the number of points, it is the sum of the likelihoods, up to
/// rounding.
pub proof fn law_score_is_the_mean_likelihood<N: Numerics>(
    c: Accuracy,
    field: FieldModel,
    points: Seq<Point2>,
    dx: F64,
    dy: F64,
    fine: bool,
    seen: Seq<F64>,
)
    requires
        c.wf(),
        c.describes::<N>(),
        c.describes_quotients::<N>(),
        c.counts::<N>(),
        seen.len() == points.len(),
        1 <= points.len() <= u32::MAX,
        points.len() * (unit() + c.e) <= c.side,
        forall|i: int|
            0 <= i < points.len() ==> {
                &&& #[trigger] seen[i] == seen_at::<N>(field, points[i], dx, dy, fine)
                &&& seen[i].is_finite()
                &&& 0 <= seen[i].units() <= unit()
            },
    ensures
        near(
            points.len() * (unit() * score_of::<N>(
                field,
                points,
                dx,
                dy,
                fine,
                inverse_len::<N>(points.len()),
            ).units()),
            unit() * total(seen),
            (points.len() * c.e) * (2 * unit() + c.side),
        ),
{
    lemma_units_of_constants();
    let n = points.len() as int;
    let (u, e, side) = (unit(), c.e, c.side);
    assert(u + e <= n * (u + e)) by (nonlinear_arith)
        requires
            n >= 1,
            u >= 0,
            e >= 0,
    ;
    lemma_likelihood_sum::<N>(c, field, points, dx, dy, fine, seen, points.len());
    assert(seen.take(n) =~= seen);
    let s = likelihood_sum::<N>(field, points, dx, dy, fine, points.len());
    let one = F64 { bits: ONE };
    let count = float_of_len::<N>(points.len());
    let inv = quotient::<N>(one, count);
    assert(count == float_of::<N>(n as u32));
    let i = inv.units();
    assert(n * u > 0 && u * u <= c.limit * (n * u)) by (nonlinear_arith)
        requires
            n >= 1,
            u > 0,
            u <= side,
            side <= c.limit,
    ;
    assert(near(i * (n * u), u * u, e * (n * u)));
    assert(i * (n * u) == u * (i * n) && e * (n * u) == u * (n * e)) by (nonlinear_arith);
    assert(u * (i * n) - u * u == u * (i * n - u)) by (nonlinear_arith);
    lemma_divided_bound(u, i * n - u, n * e);
    assert(-side <= i && i <= side) by (nonlinear_arith)
        requires
            -(n * e) <= i * n - u,
            i * n - u <= n * e,
            n >= 1,
            u >= 0,
            e >= 0,
            u + e <= side,
    ;
    assert(n * (u + e) == n * u + n * e) by (nonlinear_arith);
    assert(c.is_factor(s) && c.is_factor(inv));
    let r = product::<N>(s, inv).units();
    let a = s.units();
    lemma_scaled_bound(n, u * r, a * i, u * e);
    lemma_bounded_product(a, i * n - u, side, n * e);
    assert(n * (a * i) == a * (i * n - u) + a * u) by (nonlinear_arith);
    lemma_scaled_bound(u, a, total(seen), n * e);
    assert(u * a == a * u && n * (u * e) == u * (n * e)) by (nonlinear_arith);
    assert((n * e) * (2 * u + side) == 2 * (u * (n * e)) + side * (n * e)) by (nonlinear_arith);
}

// ---- Candidates ----

/// A rotation is searched over every pair of offsets and over nothing else, and each
/// candidate carries the score of its own offsets.
pub proof fn law_plane_covers_the_window<N: Numerics>(
    field: FieldModel,
    points: Seq<Point2>,
    dtheta: F64,
    xs: Seq<F64>,
    ys: Seq<F64>,
    fine: bool,
    inv_n: F64,
)
    ensures
        ({
            let r = plane::<N>(field, points, dtheta, xs, ys, fine, inv_n);
            &&& r.len() == xs.len() * ys.len()
            &&& forall|k: int|
                #![trigger r[k]]
                0 <= k < r.len() ==> xs.contains(r[k].dx) && ys.contains(r[k].dy) && r[k].dtheta
                    == dtheta && r[k].score == score_of::<N>(
                    field,
                    points,
                    r[k].dx,
                    r[k].dy,
                    fine,
                    inv_n,
                )
            &&& forall|x: F64, y: F64|
                xs.contains(x) && ys.contains(y) ==> #[trigger] holds_offset(r, x, y, dtheta)
        }),
{
    let r = plane::<N>(field, points, dtheta, xs, ys, fine, inv_n);
    let (w, h) = (ys.len() as int, xs.len() as int);
    assert forall|k: int| #![trigger r[k]] 0 <= k < r.len() implies xs.contains(r[k].dx)
        && ys.contains(r[k].dy) by {
        assert(w > 0) by (nonlinear_arith)
            requires
                0 <= k < h * w,
                h >= 0,
                w >= 0,
        ;
        assert(0 <= k / w < h && 0 <= k % w < w) by (nonlinear_arith)
            requires
                0 <= k < h * w,
                w > 0,
        ;
        assert(r[k].dx == xs[k / w] && r[k].dy == ys[k % w]);
    }
    assert forall|x: F64, y: F64| xs.contains(x) && ys.contains(y) implies #[trigger] holds_offset(
        r,
        x,
        y,
        dtheta,
    ) by {
        let i = choose|i: int| 0 <= i < xs.len() && xs[i] == x;
        let j = choose|j: int| 0 <= j < ys.len() && ys[j] == y;
        lemma_index_in_grid(j, i, w, h);
        assert(h * w == w * h) by (nonlinear_arith);
        let k = i * w + j;
        assert(r[k].dx == x && r[k].dy == y && r[k].dtheta == dtheta);
    }
}

/// Some candidate stands at the given offsets.
pub open spec fn holds_offset(candidates: Seq<Candidate>, x: F64, y: F64, dtheta: F64) -> bool {
    exists|k: int|
        0 <= k < candidates.len() && (#[trigger] candidates[k]).dx == x && candidates[k].dy == y
            && candidates[k].dtheta == dtheta
}

/// The coarse candidate of a rotation stands at one of the offsets, with the score of
/// the scan turned by the rotation and moved by its offsets, and no offset of the window
/// has a greater score.
pub proof fn law_coarse_candidate_is_the_best_of_its_rotation<N: Numerics>(
    coarse: FieldModel,
    query: Seq<Point2>,
    guess: Pose2,
    xs: Seq<F64>,
    ys: Seq<F64>,
    inv_n: F64,
    dtheta: F64,
    x: F64,
    y: F64,
)
    requires
        xs.contains(x),
        ys.contains(y),
        ({
            let score = score_of::<N>(
                coarse,
                turned::<N>(query, guess, dtheta),
                x,
                y,
                false,
                inv_n,
            );
            (F64 { bits: BELOW }).lt(score)
        }),
    ensures
        ({
            let points = turned::<N>(query, guess, dtheta);
            let r = best_at::<N>(coarse, query, guess, xs, ys, inv_n, dtheta);
            &&& r.dtheta == dtheta
            &&& xs.contains(r.dx) && ys.contains(r.dy)
            &&& r.score == score_of::<N>(coarse, points, r.dx, r.dy, false, inv_n)
            &&& score_of::<N>(coarse, points, x, y, false, inv_n).le(r.score)
        }),
{
    let points = turned::<N>(query, guess, dtheta);
    let samples = plane::<N>(coarse, points, dtheta, xs, ys, false, inv_n);
    let seed = Candidate {
        dx: F64 { bits: 0 },
        dy: F64 { bits: 0 },
        dtheta,
        score: F64 { bits: BELOW },
    };
    law_plane_covers_the_window::<N>(coarse, points, dtheta, xs, ys, false, inv_n);
    law_peak_is_greatest(samples, seed, samples.len());
    assert(holds_offset(samples, x, y, dtheta));
    let k = choose|k: int|
        0 <= k < samples.len() && (#[trigger] samples[k]).dx == x && samples[k].dy == y
            && samples[k].dtheta == dtheta;
    assert(samples[k].score.le(peak(samples, seed, samples.len()).score));
}

/// The samples around a candidate stand at its offsets plus the fine ones, all of them
/// and nothing else, and each carries the score of its own offsets.
pub proof fn law_fine_samples_surround_the_candidate<N: Numerics>(
    field: FieldModel,
    query: Seq<Point2>,
    guess: Pose2,
    inv_n: F64,
    dxs: Seq<F64>,
    dts: Seq<F64>,
    around: Candidate,
    n: nat,
)
    requires
        n <= dts.len(),
    ensures
        ({
            let r = fine_samples::<N>(field, query, guess, inv_n, dxs, dts, around, n);
            &&& forall|k: int|
                #![trigger r[k]]
                0 <= k < r.len() ==> {
                    &&& r[k].score == fine_score::<N>(field, query, guess, inv_n, r[k])
                    &&& exists|a: int, i: int, j: int|
                        0 <= a < n && 0 <= i < dxs.len() && 0 <= j < dxs.len() && #[trigger]
                            is_moved::<N>(around, dxs[i], dxs[j], dts[a], r[k])
                }
            &&& forall|a: int, i: int, j: int|
                0 <= a < n && 0 <= i < dxs.len() && 0 <= j < dxs.len() ==> #[trigger] holds_offset(
                    r,
                    sum::<N>(around.dx, dxs[i]),
                    sum::<N>(around.dy, dxs[j]),
                    sum::<N>(around.dtheta, dts[a]),
                )
        }),
    decreases n,
{
    let r = fine_samples::<N>(field, query, guess, inv_n, dxs, dts, around, n);
    if n > 0 {
        let m = (n - 1) as nat;
        let before = fine_samples::<N>(field, query, guess, inv_n, dxs, dts, around, m);
        law_fine_samples_surround_the_candidate::<N>(
            field,
            query,
            guess,
            inv_n,
            dxs,
            dts,
            around,
            m,
        );
        let dtheta = sum::<N>(around.dtheta, dts[m as int]);
        let points = turned::<N>(query, guess, dtheta);
        let xs = shifted::<N>(around.dx, dxs);
        let ys = shifted::<N>(around.dy, dxs);
        let layer = plane::<N>(field, points, dtheta, xs, ys, true, inv_n);
        law_plane_covers_the_window::<N>(field, points, dtheta, xs, ys, true, inv_n);
        assert(r == before + layer);
        assert forall|k: int| #![trigger r[k]] 0 <= k < r.len() implies r[k].score == fine_score::<
            N,
        >(field, query, guess, inv_n, r[k]) && exists|a: int, i: int, j: int|
            0 <= a < n && 0 <= i < dxs.len() && 0 <= j < dxs.len() && #[trigger] is_moved::<N>(
                around,
                dxs[i],
                dxs[j],
                dts[a],
                r[k],
            ) by {
            if k < before.len() {
                assert(r[k] == before[k]);
                let (a, i, j) = choose|a: int, i: int, j: int|
                    0 <= a < m && 0 <= i < dxs.len() && 0 <= j < dxs.len() && #[trigger]
                        is_moved::<N>(around, dxs[i], dxs[j], dts[a], before[k]);
                assert(is_moved::<N>(around, dxs[i], dxs[j], dts[a], r[k]));
            } else {
                let l = k - before.len();
                assert(r[k] == layer[l]);
                let i = choose|i: int| 0 <= i < xs.len() && xs[i] == layer[l].dx;
                let j = choose|j: int| 0 <= j < ys.len() && ys[j] == layer[l].dy;
                assert(is_moved::<N>(around, dxs[i], dxs[j], dts[m as int], r[k]));
            }
        }
        assert forall|a: int, i: int, j: int|
            0 <= a < n && 0 <= i < dxs.len() && 0 <= j < dxs.len() implies #[trigger] holds_offset(
            r,
            sum::<N>(around.dx, dxs[i]),
            sum::<N>(around.dy, dxs[j]),
            sum::<N>(around.dtheta, dts[a]),
        ) by {
            let (x, y, t) = (
                sum::<N>(around.dx, dxs[i]),
                sum::<N>(around.dy, dxs[j]),
                sum::<N>(around.dtheta, dts[a]),
            );
            if a < m {
                assert(holds_offset(before, x, y, t));
                let k = choose|k: int|
                    0 <= k < before.len() && (#[trigger] before[k]).dx == x && before[k].dy == y
                        && before[k].dtheta == t;
                assert(r[k] == before[k]);
            } else {
                assert(xs[i] == x && ys[j] == y);
                assert(xs.contains(x) && ys.contains(y));
                assert(holds_offset(layer, x, y, t));
                let k = choose|k: int|
                    0 <= k < layer.len() && (#[trigger] layer[k]).dx == x && layer[k].dy == y
                        && layer[k].dtheta == t;
                assert(r[before.len() + k] == layer[k]);
            }
        }
    }
}

/// `s` is `around`, moved.
pub open spec fn is_moved<N: Numerics>(
    around: Candidate,
    dx: F64,
    dy: F64,
    dt: F64,
    s: Candidate,
) -> bool {
    &&& s.dx == sum::<N>(around.dx, dx)
    &&& s.dy == sum::<N>(around.dy, dy)
    &&& s.dtheta == sum::<N>(around.dtheta, dt)
}

/// The refinement of a candidate has the greatest score of all samples around it, and
/// that score is the one of its own offsets.
pub proof fn law_refinement_is_the_best_sample<N: Numerics>(
    field: FieldModel,
    query: Seq<Point2>,
    guess: Pose2,
    inv_n: F64,
    dxs: Seq<F64>,
    dts: Seq<F64>,
    around: Candidate,
)
    ensures
        ({
            let r = refinement::<N>(field, query, guess, inv_n, dxs, dts, around);
            &&& forall|k: int|
                #![trigger r.samples[k]]
                0 <= k < r.samples.len() && !r.samples[k].score.is_nan()
                    ==> r.samples[k].score.le(r.best.score)
            &&& r.best.score == F64 { bits: BELOW } || r.best.score == fine_score::<N>(
                field,
                query,
                guess,
                inv_n,
                r.best,
            )
        }),
{
    let samples = fine_samples::<N>(field, query, guess, inv_n, dxs, dts, around, dts.len());
    let seed = Candidate { score: F64 { bits: BELOW }, ..around };
    law_fine_samples_surround_the_candidate::<N>(
        field,
        query,
        guess,
        inv_n,
        dxs,
        dts,
        around,
        dts.len(),
    );
    law_peak_is_greatest(samples, seed, samples.len());
}

/// The candidates that are refined are the best: none that is left out has a greater
/// score than one that is taken. They come in order, as many as asked for, but at least
/// one and no more than there are.
pub proof fn law_top_candidates_are_the_best(candidates: Seq<Candidate>, k: usize)
    requires
        forall|i: int| 0 <= i < candidates.len() ==> !(#[trigger] candidates[i]).score.is_nan(),
    ensures
        ({
            let r = top(candidates, k);
            &&& r.len() == if k >= candidates.len() {
                candidates.len()
            } else if k == 0 {
                1
            } else {
                k as nat
            }
            &&& forall|i: int, j: int|
                0 <= i < j < r.len() ==> (#[trigger] r[j]).score.le((#[trigger] r[i]).score)
            &&& forall|i: int| 0 <= i < r.len() ==> candidates.contains(#[trigger] r[i])
            &&& forall|c: Candidate, i: int|
                candidates.contains(c) && 0 <= i < r.len() ==> #[trigger] r.contains(c)
                    || c.score.le((#[trigger] r[i]).score)
        }),
{
    let keys = falling(candidates);
    let n = candidates.len();
    let order = ordered(keys, n);
    let r = top(candidates, k);
    assert forall|i: int| 0 <= i < keys.len() implies !(#[trigger] keys[i]).is_nan() by {
        assert(!candidates[i].score.is_nan());
    }
    lemma_order_len(keys, n);
    law_order_is_stable_and_ascending(keys, n);
    assert forall|i: int, j: int| 0 <= i < j < n implies candidates[#[trigger] order[j]].score.le(
        candidates[#[trigger] order[i]].score,
    ) by {
        let (a, b) = (order[i], order[j]);
        assert(0 <= a < n && 0 <= b < n);
        assert(keys[a].le(keys[b]));
        assert(!candidates[a].score.is_nan() && !candidates[b].score.is_nan());
        lemma_negated_order(candidates[a].score, candidates[b].score);
    }
    assert forall|i: int| 0 <= i < r.len() implies candidates.contains(#[trigger] r[i]) by {
        assert(r[i] == candidates[order[i]]);
    }
    assert forall|c: Candidate, i: int|
        candidates.contains(c) && 0 <= i < r.len() implies #[trigger] r.contains(c) || c.score.le(
        (#[trigger] r[i]).score,
    ) by {
        let a = choose|a: int| 0 <= a < n && candidates[a] == c;
        lemma_order_is_complete(keys, n, a);
        let l = choose|l: int| 0 <= l < order.len() && order[l] == a;
        if l < r.len() {
            assert(r[l] == c);
        } else {
            assert(r[i] == candidates[order[i]]);
            assert(candidates[order[l]].score.le(candidates[order[i]].score));
        }
    }
}

/// Negation turns the order round.
proof fn lemma_negated_order(a: F64, b: F64)
    requires
        !a.is_nan(),
        !b.is_nan(),
    ensures
        a.negated().le(b.negated()) <==> b.le(a),
{
}

// ---- Sub-step refinement ----

/// A finite score, from 0 to 1 or a little more.
pub open spec fn is_score(a: F64) -> bool {
    a.is_finite() && 0 <= a.units() <= 2 * unit()
}

/// The vertex lies on the side of the greater score, and at most one step away.
pub proof fn law_vertex_lies_on_the_higher_side<N: Numerics>(
    c: Accuracy,
    below: F64,
    at: F64,
    above: F64,
    step: F64,
)
    requires
        c.wf(),
        c.describes::<N>(),
        keeps_signs::<N>(),
        8 * unit() + 4 * c.e <= c.side,
        is_score(below) && is_score(at) && is_score(above),
        c.is_factor(step) && step.units() >= 0,
    ensures
        ({
            let v = vertex_of::<N>(below, at, above, step);
            &&& v.is_finite()
            &&& size(v.units()) <= step.units()
            &&& below.units() <= above.units() ==> v.units() >= 0
            &&& above.units() <= below.units() ==> v.units() <= 0
        }),
{
    lemma_units_of_constants();
    lemma_units_of_numbers();
    let (two, zero) = (F64 { bits: TWO }, F64 { bits: 0 });
    let twice = product::<N>(two, at);
    let bend = difference::<N>(sum::<N>(above, below), twice);
    lemma_product_admitted::<N>(c, two, at);
    let (u, r, a, e) = (unit(), twice.units(), at.units(), c.e);
    assert((2 * u) * a == u * (2 * a) && u * r - u * (2 * a) == u * (r - 2 * a)) by (nonlinear_arith);
    lemma_divided_bound(u, r - 2 * a, e);
    assert(c.is_factor(bend));
    lemma_units_negated(step);
    if bend.lt(F64 { bits: FLAT }) {
        let slope = difference::<N>(below, above);
        assert(c.is_factor(slope));
        let rise = product::<N>(step, slope);
        let run = product::<N>(two, bend);
        lemma_product_admitted::<N>(c, step, slope);
        lemma_product_admitted::<N>(c, two, bend);
        law_order_is_value_order(below, above);
        law_order_is_value_order(above, below);
        law_order_is_value_order(zero, step);
        assert((F64 { bits: FLAT }).lt(zero));
        assert(bend.lt(zero));
        assert(run.lt(zero));
        let q = quotient::<N>(rise, run);
        assert(below.units() <= above.units() ==> zero.le(q));
        assert(above.units() <= below.units() ==> q.le(zero));
        let v = q.clamped(step.negated(), step);
        assert(v.is_finite());
        law_order_is_value_order(v, zero);
        law_order_is_value_order(zero, v);
        law_order_is_value_order(v, step);
        law_order_is_value_order(step.negated(), v);
    }
}

/// Where the operations are exact, the vertex is the summit of the parabola through the
/// three scores: its slope `(above - below) / 2` and its bend cancel there. A summit more
/// than a step away is taken as one step away.
pub proof fn law_vertex_is_the_summit<N: Numerics>(below: F64, at: F64, above: F64, step: F64)
    requires
        below.is_finite() && at.is_finite() && above.is_finite() && step.is_finite(),
        step.units() > 0,
        adds_exactly::<N>(above, below),
        multiplies_exactly::<N>(F64 { bits: TWO }, at),
        subtracts_exactly::<N>(sum::<N>(above, below), product::<N>(F64 { bits: TWO }, at)),
        subtracts_exactly::<N>(below, above),
        multiplies_exactly::<N>(step, difference::<N>(below, above)),
        ({
            let two = F64 { bits: TWO };
            let bend = difference::<N>(sum::<N>(above, below), product::<N>(two, at));
            &&& multiplies_exactly::<N>(two, bend)
            &&& divides_exactly::<N>(
                product::<N>(step, difference::<N>(below, above)),
                product::<N>(two, bend),
            )
        }),
    ensures
        ({
            let bend = above.units() + below.units() - 2 * at.units();
            let v = vertex_of::<N>(below, at, above, step).units();
            let s = step.units();
            &&& bend >= (F64 { bits: FLAT }).units() ==> v == 0
            &&& bend < (F64 { bits: FLAT }).units() ==> {
                let summit = s * (below.units() - above.units());
                &&& 2 * (bend * s) <= summit <= -(2 * (bend * s)) ==> 2 * (bend * v) == summit
                &&& summit < 2 * (bend * s) ==> v == s
                &&& summit > -(2 * (bend * s)) ==> v == -s
            }
        }),
{
    lemma_units_of_constants();
    lemma_units_of_numbers();
    let two = F64 { bits: TWO };
    let twice = product::<N>(two, at);
    let bend = difference::<N>(sum::<N>(above, below), twice);
    let (u, r, a, s) = (unit(), twice.units(), at.units(), step.units());
    assert(r == 2 * a) by (nonlinear_arith)
        requires
            u > 0,
            u * r == (2 * u) * a,
    ;
    let b = bend.units();
    assert(b == above.units() + below.units() - 2 * a);
    let flat = F64 { bits: FLAT };
    law_order_is_value_order(bend, flat);
    law_order_is_value_order(flat, F64 { bits: 0 });
    lemma_units_negated(step);
    if bend.lt(flat) {
        let run = product::<N>(two, bend).units();
        assert(run == 2 * b) by (nonlinear_arith)
            requires
                u > 0,
                u * run == (2 * u) * b,
        ;
        let rise = product::<N>(step, difference::<N>(below, above)).units();
        let summit = s * (below.units() - above.units());
        let q = quotient::<N>(
            product::<N>(step, difference::<N>(below, above)),
            product::<N>(two, bend),
        );
        let x = q.units();
        assert(x * (2 * b) == 2 * (b * x)) by (nonlinear_arith);
        assert(2 * (b * x) == summit);
        law_order_is_value_order(q, step.negated());
        law_order_is_value_order(step, q);
        assert(b < 0);
        assert(x <= s <==> 2 * (b * s) <= 2 * (b * x)) by (nonlinear_arith)
            requires
                b < 0,
        ;
        assert(-s <= x <==> 2 * (b * x) <= -(2 * (b * s))) by (nonlinear_arith)
            requires
                b < 0,
        ;
    }
}

/// Sharpening moves a candidate along each axis by at most one step, up to rounding, and
/// towards the greater of the two scores a step away: along x first, then along y at the
/// new x, and then in rotation at the new x and y.
pub proof fn law_sharpening_climbs<N: Numerics>(
    c: Accuracy,
    field: FieldModel,
    query: Seq<Point2>,
    guess: Pose2,
    inv_n: F64,
    cfg: CsmConfig,
    best: Candidate,
)
    requires
        c.wf(),
        c.describes::<N>(),
        keeps_signs::<N>(),
        8 * unit() + 4 * c.e <= c.side,
        is_score(best.score),
        forall|s: Candidate| is_score(#[trigger] fine_score::<N>(field, query, guess, inv_n, s)),
        c.is_factor(cfg.linear_step_m) && cfg.linear_step_m.units() >= 0,
        c.is_factor(cfg.angular_step_rad) && cfg.angular_step_rad.units() >= 0,
        c.admits(best.dx) && c.admits(best.dy) && c.admits(best.dtheta),
    ensures
        ({
            let (lin, ang) = (cfg.linear_step_m, cfg.angular_step_rad);
            let r = sharpened::<N>(field, query, guess, inv_n, cfg, best);
            let score = |x: F64, y: F64, t: F64|
                fine_score::<N>(
                    field,
                    query,
                    guess,
                    inv_n,
                    Candidate { dx: x, dy: y, dtheta: t, score: best.score },
                ).units();
            let up_x = score(sum::<N>(best.dx, lin), best.dy, best.dtheta);
            let down_x = score(difference::<N>(best.dx, lin), best.dy, best.dtheta);
            let up_y = score(r.dx, sum::<N>(best.dy, lin), best.dtheta);
            let down_y = score(r.dx, difference::<N>(best.dy, lin), best.dtheta);
            let up_t = score(r.dx, r.dy, sum::<N>(best.dtheta, ang));
            let down_t = score(r.dx, r.dy, difference::<N>(best.dtheta, ang));
            &&& size(r.dx.units() - best.dx.units()) <= lin.units() + c.e
            &&& size(r.dy.units() - best.dy.units()) <= lin.units() + c.e
            &&& size(r.dtheta.units() - best.dtheta.units()) <= ang.units() + c.e
            &&& down_x <= up_x ==> best.dx.units() <= r.dx.units()
            &&& up_x <= down_x ==> r.dx.units() <= best.dx.units()
            &&& down_y <= up_y ==> best.dy.units() <= r.dy.units()
            &&& up_y <= down_y ==> r.dy.units() <= best.dy.units()
            &&& down_t <= up_t ==> best.dtheta.units() <= r.dtheta.units()
            &&& up_t <= down_t ==> r.dtheta.units() <= best.dtheta.units()
            &&& r.score == best.score || r.score == fine_score::<N>(
                field,
                query,
                guess,
                inv_n,
                Candidate { score: best.score, ..r },
            )
            &&& best.score.units() <= r.score.units()
        }),
{
    let (lin, ang) = (cfg.linear_step_m, cfg.angular_step_rad);
    let r = sharpened::<N>(field, query, guess, inv_n, cfg, best);
    let a = Candidate { dx: r.dx, ..best };
    let b = Candidate { dy: r.dy, ..a };
    let z = Candidate { dtheta: r.dtheta, ..b };
    let up_x = fine_score::<N>(
        field,
        query,
        guess,
        inv_n,
        Candidate { dx: sum::<N>(best.dx, lin), ..best },
    );
    let down_x = fine_score::<N>(
        field,
        query,
        guess,
        inv_n,
        Candidate { dx: difference::<N>(best.dx, lin), ..best },
    );
    let up_y = fine_score::<N>(
        field,
        query,
        guess,
        inv_n,
        Candidate { dy: sum::<N>(a.dy, lin), ..a },
    );
    let down_y = fine_score::<N>(
        field,
        query,
        guess,
        inv_n,
        Candidate { dy: difference::<N>(a.dy, lin), ..a },
    );
    let up_t = fine_score::<N>(
        field,
        query,
        guess,
        inv_n,
        Candidate { dtheta: sum::<N>(b.dtheta, ang), ..b },
    );
    let down_t = fine_score::<N>(
        field,
        query,
        guess,
        inv_n,
        Candidate { dtheta: difference::<N>(b.dtheta, ang), ..b },
    );
    lemma_moved_to_vertex::<N>(c, best.dx, down_x, best.score, up_x, lin);
    lemma_moved_to_vertex::<N>(c, best.dy, down_y, best.score, up_y, lin);
    lemma_moved_to_vertex::<N>(c, best.dtheta, down_t, best.score, up_t, ang);
    let end = fine_score::<N>(field, query, guess, inv_n, z);
    assert(r.score == best.score.max(end));
    law_order_is_value_order(best.score, end);
    law_order_is_value_order(end, best.score);
}

/// An offset moved to the vertex.
proof fn lemma_moved_to_vertex<N: Numerics>(
    c: Accuracy,
    from: F64,
    below: F64,
    at: F64,
    above: F64,
    step: F64,
)
    requires
        c.wf(),
        c.describes::<N>(),
        keeps_signs::<N>(),
        8 * unit() + 4 * c.e <= c.side,
        is_score(below) && is_score(at) && is_score(above),
        c.is_factor(step) && step.units() >= 0,
        c.admits(from),
    ensures
        ({
            let to = sum::<N>(from, vertex_of::<N>(below, at, above, step)).units();
            &&& size(to - from.units()) <= step.units() + c.e
            &&& below.units() <= above.units() ==> from.units() <= to
            &&& above.units() <= below.units() ==> to <= from.units()
        }),
{
    lemma_units_of_constants();
    law_vertex_lies_on_the_higher_side::<N>(c, below, at, above, step);
    let v = vertex_of::<N>(below, at, above, step);
    let to = sum::<N>(from, v);
    let zero = F64 { bits: 0 };
    law_order_is_value_order(zero, v);
    law_order_is_value_order(v, zero);
    law_order_is_value_order(from, to);
    law_order_is_value_order(to, from);
}

// ---- The match ----

/// A match is the guess, moved by the offsets of the sharpened best candidate: the
/// coordinates add, and so do the headings.
pub proof fn law_match_is_the_guess_moved<N: Numerics>(
    c: Precision,
    field: FieldModel,
    query: Seq<Point2>,
    guess: Pose2,
    cfg: CsmConfig,
    inv_n: F64,
    coarse_evals: nat,
    refined: Seq<RefinedModel>,
    best: Candidate,
    m: MatchResult,
)
    requires
        c.wf(),
        c.describes_arithmetic::<N>(),
        c.describes_remainder::<N>(),
        best == sharpened::<N>(field, query, guess, inv_n, cfg, last_peak(refined, refined.len())),
        c.admits(guess.x) && c.admits(guess.y) && is_angle(guess.theta),
        c.admits(best.dx) && c.admits(best.dy) && is_angle(best.dtheta),
        best.score.is_finite(),
        concluded::<N>(field, query, guess, cfg, inv_n, coarse_evals, refined) == Ok::<
            MatchResult,
            SlamError,
        >(m),
    ensures
        near(m.pose.x.units(), guess.x.units() + best.dx.units(), c.e),
        near(m.pose.y.units(), guess.y.units() + best.dy.units(), c.e),
        same_heading(m.pose.theta.units(), guess.theta.units() + best.dtheta.units(), 5 * c.e),
        0 <= best.score.units() <= unit() ==> m.score.units() == best.score.units(),
        best.score.units() > unit() ==> m.score.units() == unit(),
{
    lemma_units_of_constants();
    lemma_half_turn();
    lemma_angle_range(guess.theta);
    lemma_angle_range(best.dtheta);
    let s = sum::<N>(guess.theta, best.dtheta);
    assert(c.admits(guess.theta) && c.admits(best.dtheta));
    law_wrapping_keeps_the_heading::<N>(c, s);
    lemma_near_is_heading(s.units(), guess.theta.units() + best.dtheta.units(), c.e);
    lemma_headings_add(
        s.units(),
        guess.theta.units() + best.dtheta.units(),
        m.pose.theta.units(),
        0,
        c.e,
        4 * c.e,
    );
    law_order_is_value_order(best.score, F64 { bits: 0 });
    law_order_is_value_order(F64 { bits: ONE }, best.score);
}

// ---- Covariance ----

/// A candidate with x and y exchanged.
pub open spec fn mirrored(s: Candidate) -> Candidate {
    Candidate { dx: s.dy, dy: s.dx, ..s }
}

/// A candidate with x and the rotation exchanged.
pub open spec fn tilted(s: Candidate) -> Candidate {
    Candidate { dx: s.dtheta, dtheta: s.dx, ..s }
}

/// A matrix with its first and second rows and columns exchanged.
pub open spec fn mirrored_matrix(m: Matrix3) -> Matrix3 {
    Matrix3 {
        m11: m.m22,
        m12: m.m21,
        m13: m.m23,
        m21: m.m12,
        m22: m.m11,
        m23: m.m13,
        m31: m.m32,
        m32: m.m31,
        m33: m.m33,
    }
}

/// A matrix with its first and third rows and columns exchanged.
pub open spec fn tilted_matrix(m: Matrix3) -> Matrix3 {
    Matrix3 {
        m11: m.m33,
        m12: m.m32,
        m13: m.m31,
        m21: m.m23,
        m22: m.m22,
        m23: m.m21,
        m31: m.m13,
        m32: m.m12,
        m33: m.m11,
    }
}

/// Moments with x and y exchanged.
pub open spec fn mirrored_moments(m: Moments) -> Moments {
    Moments {
        weight: m.weight,
        first: Vector3 { x: m.first.y, y: m.first.x, z: m.first.z },
        second: mirrored_matrix(m.second),
    }
}

/// Moments with x and the rotation exchanged.
pub open spec fn tilted_moments(m: Moments) -> Moments {
    Moments {
        weight: m.weight,
        first: Vector3 { x: m.first.z, y: m.first.y, z: m.first.x },
        second: tilted_matrix(m.second),
    }
}

/// Moments do not prefer an axis: samples with two axes exchanged have the moments with
/// these axes exchanged.
pub proof fn law_moments_have_no_preferred_axis<N: Numerics>(
    samples: Seq<Candidate>,
    best: F64,
    n: nat,
)
    requires
        n <= samples.len(),
    ensures
        ({
            let r = with_samples::<N>(no_moments(), samples, best, n);
            &&& with_samples::<N>(
                no_moments(),
                samples.map_values(|s: Candidate| mirrored(s)),
                best,
                n,
            ) == mirrored_moments(r)
            &&& with_samples::<N>(
                no_moments(),
                samples.map_values(|s: Candidate| tilted(s)),
                best,
                n,
            ) == tilted_moments(r)
        }),
    decreases n,
{
    if n > 0 {
        law_moments_have_no_preferred_axis::<N>(samples, best, (n - 1) as nat);
    }
}

/// The covariance does not prefer an axis: moments with x and y exchanged have the
/// covariance with x and y exchanged, and so for x and the rotation where both have one
/// step.
pub proof fn law_covariance_has_no_preferred_axis<N: Numerics>(m: Moments, cfg: CsmConfig)
    ensures
        covariance_of::<N>(mirrored_moments(m), cfg) == mirrored_matrix(covariance_of::<N>(m, cfg)),
        cfg.linear_step_m == cfg.angular_step_rad ==> covariance_of::<N>(tilted_moments(m), cfg)
            == tilted_matrix(covariance_of::<N>(m, cfg)),
{
}

/// A matrix entry, in units, `scale` times over, about the centred second moment.
pub open spec fn is_centred(w: int, s: int, x: int, y: int, e: int, r: int) -> bool {
    near(unit() * (w * r), unit() * (unit() * s) - w * (x * y), 3 * (unit() * (w * e)))
}

/// Covariance entries are second moments about the mean: `w·r = s - w·x·y` up to
/// rounding, for the mean offsets `x` and `y`; those on the diagonal are no smaller.
pub proof fn law_covariance_is_about_the_mean<N: Numerics>(c: Accuracy, m: Moments, cfg: CsmConfig)
    requires
        c.wf(),
        c.describes::<N>(),
        c.describes_quotients::<N>(),
        m.weight.is_finite() && m.weight.units() > 0,
        holds_moments(c, m),
        c.is_factor(quotient::<N>(m.first.x, m.weight)),
        c.is_factor(quotient::<N>(m.first.y, m.weight)),
        c.is_factor(quotient::<N>(m.first.z, m.weight)),
        c.admits(quantization::<N>(cfg.linear_step_m)),
        c.admits(quantization::<N>(cfg.angular_step_rad)),
    ensures
        ({
            let r = covariance_of::<N>(m, cfg);
            let w = m.weight.units();
            let x = quotient::<N>(m.first.x, m.weight).units();
            let y = quotient::<N>(m.first.y, m.weight).units();
            let t = quotient::<N>(m.first.z, m.weight).units();
            &&& near(x * w, unit() * m.first.x.units(), c.e * w)
            &&& near(y * w, unit() * m.first.y.units(), c.e * w)
            &&& near(t * w, unit() * m.first.z.units(), c.e * w)
            &&& is_centred(w, m.second.m12.units(), x, y, c.e, r.m12.units())
            &&& is_centred(w, m.second.m13.units(), x, t, c.e, r.m13.units())
            &&& is_centred(w, m.second.m21.units(), y, x, c.e, r.m21.units())
            &&& is_centred(w, m.second.m23.units(), y, t, c.e, r.m23.units())
            &&& is_centred(w, m.second.m31.units(), t, x, c.e, r.m31.units())
            &&& is_centred(w, m.second.m32.units(), t, y, c.e, r.m32.units())
            &&& r.m11 == quantization::<N>(cfg.linear_step_m) || is_centred(
                w,
                m.second.m11.units(),
                x,
                x,
                c.e,
                r.m11.units(),
            )
            &&& r.m22 == quantization::<N>(cfg.linear_step_m) || is_centred(
                w,
                m.second.m22.units(),
                y,
                y,
                c.e,
                r.m22.units(),
            )
            &&& r.m33 == quantization::<N>(cfg.angular_step_rad) || is_centred(
                w,
                m.second.m33.units(),
                t,
                t,
                c.e,
                r.m33.units(),
            )
        }),
{
    lemma_units_of_constants();
    let w = m.weight;
    law_order_is_value_order(w, F64 { bits: 0 });
    let x = quotient::<N>(m.first.x, w);
    let y = quotient::<N>(m.first.y, w);
    let t = quotient::<N>(m.first.z, w);
    lemma_centred::<N>(c, m.second.m11, w, x, x);
    lemma_centred::<N>(c, m.second.m12, w, x, y);
    lemma_centred::<N>(c, m.second.m13, w, x, t);
    lemma_centred::<N>(c, m.second.m21, w, y, x);
    lemma_centred::<N>(c, m.second.m22, w, y, y);
    lemma_centred::<N>(c, m.second.m23, w, y, t);
    lemma_centred::<N>(c, m.second.m31, w, t, x);
    lemma_centred::<N>(c, m.second.m32, w, t, y);
    lemma_centred::<N>(c, m.second.m33, w, t, t);
}

/// Moments, divided by the weight, stay within the limit.
pub open spec fn holds_moments(c: Accuracy, m: Moments) -> bool {
    let w = m.weight;
    &&& divides_within(c, m.first.x, w) && divides_within(c, m.first.y, w) && divides_within(
        c,
        m.first.z,
        w,
    )
    &&& divides_within(c, m.second.m11, w) && divides_within(c, m.second.m12, w) && divides_within(
        c,
        m.second.m13,
        w,
    )
    &&& divides_within(c, m.second.m21, w) && divides_within(c, m.second.m22, w) && divides_within(
        c,
        m.second.m23,
        w,
    )
    &&& divides_within(c, m.second.m31, w) && divides_within(c, m.second.m32, w) && divides_within(
        c,
        m.second.m33,
        w,
    )
}

/// `a / w` is an operand, also after rounding.
pub open spec fn divides_within(c: Accuracy, a: F64, w: F64) -> bool {
    a.is_finite() && unit() * size(a.units()) + c.e * w.units() <= c.limit * w.units()
}

/// One centred entry.
proof fn lemma_centred<N: Numerics>(c: Accuracy, s: F64, w: F64, u: F64, v: F64)
    requires
        c.wf(),
        c.describes::<N>(),
        c.describes_quotients::<N>(),
        w.is_finite() && w.units() > 0,
        divides_within(c, s, w),
        c.is_factor(u) && c.is_factor(v),
    ensures
        centred::<N>(s, w, u, v).is_finite(),
        is_centred(
            w.units(),
            s.units(),
            u.units(),
            v.units(),
            c.e,
            centred::<N>(s, w, u, v).units(),
        ),
{
    lemma_units_of_constants();
    lemma_product_admitted::<N>(c, u, v);
    let (one, k, e) = (unit(), w.units(), c.e);
    assert(e * k >= 0) by (nonlinear_arith)
        requires
            e >= 0,
            k > 0,
    ;
    let q = quotient::<N>(s, w);
    let p = product::<N>(u, v);
    let r = difference::<N>(q, p).units();
    let (a, b, z) = (q.units(), p.units(), s.units());
    assert(near(a * k, one * z, e * k));
    assert(one * z <= one * size(z) && -(one * z) <= one * size(z)) by (nonlinear_arith)
        requires
            one > 0,
            z <= size(z),
            -z <= size(z),
    ;
    assert(-c.limit <= a <= c.limit) by (nonlinear_arith)
        requires
            k > 0,
            a * k <= c.limit * k,
            -(c.limit * k) <= a * k,
    ;
    assert(c.admits(q));
    lemma_scaled_bound(k, r, a - b, e);
    lemma_scaled_bound(one, k * r, k * (a - b), k * e);
    lemma_scaled_bound(one, a * k, one * z, e * k);
    lemma_scaled_bound(k, one * b, u.units() * v.units(), one * e);
    assert(one * (k * (a - b)) == one * (a * k) - k * (one * b)) by (nonlinear_arith);
    assert(e * k == k * e) by (nonlinear_arith);
    assert(k * (one * e) == one * (k * e)) by (nonlinear_arith);
}

/// What the samples that count weigh together, times `f`: the exact sum of weight times
/// `f`, in units.
pub open spec fn exact_moment<N: Numerics>(
    samples: Seq<Candidate>,
    best: F64,
    f: spec_fn(Candidate) -> int,
    n: nat,
) -> int
    decreases n,
{
    if n == 0 {
        0
    } else {
        let before = exact_moment::<N>(samples, best, f, (n - 1) as nat);
        let s = samples[n - 1];
        let w = weight_of::<N>(s, best);
        if w.lt(F64 { bits: LEAST_WEIGHT }) {
            before
        } else {
            before + w.units() * f(s)
        }
    }
}

/// Offsets small enough for their products: `o` bounds them, `b` bounds the products.
pub open spec fn weighs_within(c: Accuracy, o: int, b: int, n: int) -> bool {
    &&& o >= 0
    &&& b >= 0
    &&& o + c.e <= c.side
    &&& unit() <= c.side
    &&& (o + c.e) * o + unit() * c.e <= unit() * b
    &&& n * (b + c.e) <= c.limit
    &&& n * (o + 2 * c.e) <= c.limit
    &&& n * (unit() + c.e) <= c.limit
}

/// Error of a weighted product, times one twice.
pub open spec fn weighing_error(c: Accuracy, o: int) -> int {
    unit() * (2 * (unit() * c.e) + o * c.e)
}

/// Moments are weighted sums over the samples that count: of one, of the offsets, and of
/// their products, up to one error per sample.
pub proof fn law_moments_are_weighted_sums<N: Numerics>(
    c: Accuracy,
    o: int,
    b: int,
    samples: Seq<Candidate>,
    best: F64,
    n: nat,
)
    requires
        c.wf(),
        c.describes::<N>(),
        n <= samples.len(),
        weighs_within(c, o, b, samples.len() as int),
        forall|i: int|
            0 <= i < samples.len() ==> {
                let s = #[trigger] samples[i];
                &&& s.dx.is_finite() && near(s.dx.units(), 0, o)
                &&& s.dy.is_finite() && near(s.dy.units(), 0, o)
                &&& s.dtheta.is_finite() && near(s.dtheta.units(), 0, o)
                &&& weight_of::<N>(s, best).is_finite()
                &&& 0 <= weight_of::<N>(s, best).units() <= unit()
            },
    ensures
        ({
            let m = with_samples::<N>(no_moments(), samples, best, n);
            let sum_of = |f: spec_fn(Candidate) -> int|
                exact_moment::<N>(samples, best, f, n);
            let (one, k) = (unit(), n as int);
            let step = 2 * (one * c.e);
            let error = weighing_error(c, o);
            &&& near(m.weight.units(), sum_of(|s: Candidate| 1), k * c.e)
            &&& near(one * m.first.x.units(), sum_of(|s: Candidate| s.dx.units()), k * step)
            &&& near(one * m.first.y.units(), sum_of(|s: Candidate| s.dy.units()), k * step)
            &&& near(one * m.first.z.units(), sum_of(|s: Candidate| s.dtheta.units()), k * step)
            &&& near(
                one * (one * m.second.m11.units()),
                sum_of(|s: Candidate| s.dx.units() * s.dx.units()),
                k * error,
            )
            &&& near(
                one * (one * m.second.m12.units()),
                sum_of(|s: Candidate| s.dx.units() * s.dy.units()),
                k * error,
            )
            &&& near(
                one * (one * m.second.m13.units()),
                sum_of(|s: Candidate| s.dx.units() * s.dtheta.units()),
                k * error,
            )
            &&& near(
                one * (one * m.second.m22.units()),
                sum_of(|s: Candidate| s.dy.units() * s.dy.units()),
                k * error,
            )
            &&& near(
                one * (one * m.second.m23.units()),
                sum_of(|s: Candidate| s.dy.units() * s.dtheta.units()),
                k * error,
            )
            &&& near(
                one * (one * m.second.m33.units()),
                sum_of(|s: Candidate| s.dtheta.units() * s.dtheta.units()),
                k * error,
            )
        }),
{
    lemma_first_moment::<N>(c, o, b, samples, best, n, 0);
    lemma_first_moment::<N>(c, o, b, samples, best, n, 1);
    lemma_first_moment::<N>(c, o, b, samples, best, n, 2);
    lemma_second_moment::<N>(c, o, b, samples, best, n, 0, 0);
    lemma_second_moment::<N>(c, o, b, samples, best, n, 0, 1);
    lemma_second_moment::<N>(c, o, b, samples, best, n, 0, 2);
    lemma_second_moment::<N>(c, o, b, samples, best, n, 1, 1);
    lemma_second_moment::<N>(c, o, b, samples, best, n, 1, 2);
    lemma_second_moment::<N>(c, o, b, samples, best, n, 2, 2);
    lemma_same_moment::<N>(samples, best, part_of(0), |s: Candidate| s.dx.units(), n);
    lemma_same_moment::<N>(samples, best, part_of(1), |s: Candidate| s.dy.units(), n);
    lemma_same_moment::<N>(samples, best, part_of(2), |s: Candidate| s.dtheta.units(), n);
    lemma_same_moment::<N>(
        samples,
        best,
        parts_of(0, 0),
        |s: Candidate| s.dx.units() * s.dx.units(),
        n,
    );
    lemma_same_moment::<N>(
        samples,
        best,
        parts_of(0, 1),
        |s: Candidate| s.dx.units() * s.dy.units(),
        n,
    );
    lemma_same_moment::<N>(
        samples,
        best,
        parts_of(0, 2),
        |s: Candidate| s.dx.units() * s.dtheta.units(),
        n,
    );
    lemma_same_moment::<N>(
        samples,
        best,
        parts_of(1, 1),
        |s: Candidate| s.dy.units() * s.dy.units(),
        n,
    );
    lemma_same_moment::<N>(
        samples,
        best,
        parts_of(1, 2),
        |s: Candidate| s.dy.units() * s.dtheta.units(),
        n,
    );
    lemma_same_moment::<N>(
        samples,
        best,
        parts_of(2, 2),
        |s: Candidate| s.dtheta.units() * s.dtheta.units(),
        n,
    );
    lemma_whole_weight::<N>(c, o, b, samples, best, n);
}

/// An offset of a candidate, by its number.
spec fn offset_of(s: Candidate, i: int) -> F64 {
    if i == 0 {
        s.dx
    } else if i == 1 {
        s.dy
    } else {
        s.dtheta
    }
}

/// A first moment, by its number.
spec fn first_of(m: Moments, i: int) -> F64 {
    if i == 0 {
        m.first.x
    } else if i == 1 {
        m.first.y
    } else {
        m.first.z
    }
}

/// A second moment of the upper triangle, by its numbers.
spec fn second_of(m: Moments, i: int, j: int) -> F64 {
    if i == 0 {
        if j == 0 {
            m.second.m11
        } else if j == 1 {
            m.second.m12
        } else {
            m.second.m13
        }
    } else if i == 1 {
        if j == 1 {
            m.second.m22
        } else {
            m.second.m23
        }
    } else {
        m.second.m33
    }
}

/// The value of an offset.
spec fn part_of(i: int) -> spec_fn(Candidate) -> int {
    |s: Candidate| offset_of(s, i).units()
}

/// The product of two offsets.
spec fn parts_of(i: int, j: int) -> spec_fn(Candidate) -> int {
    |s: Candidate| offset_of(s, i).units() * offset_of(s, j).units()
}

/// Equal functions have equal moments.
proof fn lemma_same_moment<N: Numerics>(
    samples: Seq<Candidate>,
    best: F64,
    f: spec_fn(Candidate) -> int,
    g: spec_fn(Candidate) -> int,
    n: nat,
)
    requires
        forall|s: Candidate| #[trigger] f(s) == g(s),
    ensures
        exact_moment::<N>(samples, best, f, n) == exact_moment::<N>(samples, best, g, n),
    decreases n,
{
    if n > 0 {
        lemma_same_moment::<N>(samples, best, f, g, (n - 1) as nat);
        assert(f(samples[n - 1]) == g(samples[n - 1]));
    }
}

/// The samples of [`law_moments_are_weighted_sums`].
spec fn weighable<N: Numerics>(
    c: Accuracy,
    o: int,
    b: int,
    samples: Seq<Candidate>,
    best: F64,
) -> bool {
    &&& c.wf()
    &&& c.describes::<N>()
    &&& weighs_within(c, o, b, samples.len() as int)
    &&& forall|i: int|
        0 <= i < samples.len() ==> {
            let s = #[trigger] samples[i];
            &&& s.dx.is_finite() && near(s.dx.units(), 0, o)
            &&& s.dy.is_finite() && near(s.dy.units(), 0, o)
            &&& s.dtheta.is_finite() && near(s.dtheta.units(), 0, o)
            &&& weight_of::<N>(s, best).is_finite()
            &&& 0 <= weight_of::<N>(s, best).units() <= unit()
        }
}

/// One more times a number.
proof fn lemma_one_more(n: int, m: int, k: int, a: int)
    requires
        0 <= m < n <= k,
        n == m + 1,
        a >= 0,
    ensures
        n * a == m * a + a,
        0 <= m * a,
        n * a <= k * a,
{
    assert(n * a == m * a + a && 0 <= m * a && n * a <= k * a) by (nonlinear_arith)
        requires
            0 <= m < n <= k,
            n == m + 1,
            a >= 0,
    ;
}

/// The sum of the weights.
proof fn lemma_whole_weight<N: Numerics>(
    c: Accuracy,
    o: int,
    b: int,
    samples: Seq<Candidate>,
    best: F64,
    n: nat,
)
    requires
        weighable::<N>(c, o, b, samples, best),
        n <= samples.len(),
    ensures
        ({
            let w = with_samples::<N>(no_moments(), samples, best, n).weight;
            &&& w.is_finite()
            &&& near(w.units(), 0, n * (unit() + c.e))
            &&& near(
                w.units(),
                exact_moment::<N>(samples, best, |s: Candidate| 1, n),
                n * c.e,
            )
        }),
    decreases n,
{
    lemma_units_of_constants();
    if n > 0 {
        let m = (n - 1) as nat;
        lemma_whole_weight::<N>(c, o, b, samples, best, m);
        lemma_one_more(n as int, m as int, samples.len() as int, c.e);
        lemma_one_more(n as int, m as int, samples.len() as int, unit() + c.e);
        let s = samples[m as int];
        let w = weight_of::<N>(s, best).units();
        assert(w * 1 == w);
    }
}

/// A first moment.
proof fn lemma_first_moment<N: Numerics>(
    c: Accuracy,
    o: int,
    b: int,
    samples: Seq<Candidate>,
    best: F64,
    n: nat,
    i: int,
)
    requires
        weighable::<N>(c, o, b, samples, best),
        n <= samples.len(),
        0 <= i <= 2,
    ensures
        ({
            let r = first_of(with_samples::<N>(no_moments(), samples, best, n), i);
            &&& r.is_finite()
            &&& near(r.units(), 0, n * (o + 2 * c.e))
            &&& near(
                unit() * r.units(),
                exact_moment::<N>(samples, best, part_of(i), n),
                n * (2 * (unit() * c.e)),
            )
        }),
    decreases n,
{
    lemma_units_of_constants();
    let (u, e) = (unit(), c.e);
    if n > 0 {
        let m = (n - 1) as nat;
        lemma_first_moment::<N>(c, o, b, samples, best, m, i);
        let before = first_of(with_samples::<N>(no_moments(), samples, best, m), i);
        let s = samples[m as int];
        let w = weight_of::<N>(s, best);
        let x = offset_of(s, i);
        assert(u * e >= 0) by (nonlinear_arith)
            requires
                u > 0,
                e >= 0,
        ;
        lemma_one_more(n as int, m as int, samples.len() as int, o + 2 * e);
        lemma_one_more(n as int, m as int, samples.len() as int, 2 * (u * e));
        lemma_weight_times::<N>(c, o, w, x);
        let p = product::<N>(w, x);
        let r = sum::<N>(before, p);
        lemma_scaled_bound(u, r.units(), before.units() + p.units(), e);
        let (y, z) = (before.units(), p.units());
        assert(u * (y + z) == u * y + u * z) by (nonlinear_arith);
        if !w.lt(F64 { bits: LEAST_WEIGHT }) {
            assert(first_of(with_samples::<N>(no_moments(), samples, best, n), i) == r);
        }
    } else {
        assert(u * 0 == 0);
    }
}

/// A weight times an offset.
proof fn lemma_weight_times<N: Numerics>(c: Accuracy, o: int, w: F64, x: F64)
    requires
        c.wf(),
        c.describes::<N>(),
        w.is_finite() && 0 <= w.units() <= unit(),
        x.is_finite() && near(x.units(), 0, o),
        0 <= o,
        o + c.e <= c.side,
        unit() <= c.side,
    ensures
        product::<N>(w, x).is_finite(),
        near(product::<N>(w, x).units(), 0, o + c.e),
        near(unit() * product::<N>(w, x).units(), w.units() * x.units(), unit() * c.e),
{
    lemma_units_of_constants();
    let (u, a, b, p, e) = (unit(), w.units(), x.units(), product::<N>(w, x).units(), c.e);
    lemma_bounded_product(a, b, u, o);
    assert(u * (o + e) == u * o + u * e) by (nonlinear_arith);
    lemma_divided_bound(u, p, o + e);
}

/// A second moment.
proof fn lemma_second_moment<N: Numerics>(
    c: Accuracy,
    o: int,
    b: int,
    samples: Seq<Candidate>,
    best: F64,
    n: nat,
    i: int,
    j: int,
)
    requires
        weighable::<N>(c, o, b, samples, best),
        n <= samples.len(),
        0 <= i <= j <= 2,
    ensures
        ({
            let r = second_of(with_samples::<N>(no_moments(), samples, best, n), i, j);
            &&& r.is_finite()
            &&& near(r.units(), 0, n * (b + c.e))
            &&& near(
                unit() * (unit() * r.units()),
                exact_moment::<N>(samples, best, parts_of(i, j), n),
                n * weighing_error(c, o),
            )
        }),
    decreases n,
{
    lemma_units_of_constants();
    let (u, e) = (unit(), c.e);
    if n > 0 {
        let m = (n - 1) as nat;
        lemma_second_moment::<N>(c, o, b, samples, best, m, i, j);
        let before = second_of(with_samples::<N>(no_moments(), samples, best, m), i, j);
        let s = samples[m as int];
        let w = weight_of::<N>(s, best);
        let (x, y) = (offset_of(s, i), offset_of(s, j));
        assert(u * e >= 0 && o * e >= 0) by (nonlinear_arith)
            requires
                u > 0,
                e >= 0,
                o >= 0,
        ;
        assert(weighing_error(c, o) >= 0) by (nonlinear_arith)
            requires
                u > 0,
                u * e >= 0,
                o * e >= 0,
                weighing_error(c, o) == u * (2 * (u * e) + o * e),
        ;
        lemma_one_more(n as int, m as int, samples.len() as int, b + e);
        lemma_one_more(n as int, m as int, samples.len() as int, weighing_error(c, o));
        lemma_weight_times::<N>(c, o, w, x);
        let p = product::<N>(w, x);
        lemma_product_admitted::<N>(c, p, y);
        let q = product::<N>(p, y);
        lemma_bounded_product(p.units(), y.units(), o + e, o);
        lemma_divided_bound(u, q.units(), b);
        let r = sum::<N>(before, q);
        lemma_weighed_error(
            u,
            e,
            o,
            w.units(),
            x.units(),
            y.units(),
            p.units(),
            q.units(),
            before.units(),
            r.units(),
        );
        if !w.lt(F64 { bits: LEAST_WEIGHT }) {
            assert(second_of(with_samples::<N>(no_moments(), samples, best, n), i, j) == r);
        }
    } else {
        assert(u * 0 == 0);
    }
}

/// The error of one weighted product and of adding it.
pub proof fn lemma_weighed_error(
    u: int,
    e: int,
    o: int,
    w: int,
    x: int,
    y: int,
    p: int,
    q: int,
    before: int,
    r: int,
)
    requires
        u > 0,
        e >= 0,
        o >= 0,
        near(y, 0, o),
        near(u * p, w * x, u * e),
        near(u * q, p * y, u * e),
        near(r, before + q, e),
    ensures
        near(u * (u * r), u * (u * before) + w * (x * y), u * (2 * (u * e) + o * e)),
{
    lemma_scaled_bound(u, r, before + q, e);
    lemma_scaled_bound(u, u * r, u * (before + q), u * e);
    lemma_scaled_bound(u, u * q, p * y, u * e);
    let d = u * p - w * x;
    assert(u * e >= 0) by (nonlinear_arith)
        requires
            u > 0,
            e >= 0,
    ;
    lemma_bounded_product(d, y, u * e, o);
    assert(d * y == u * (p * y) - w * (x * y)) by (nonlinear_arith)
        requires
            d == u * p - w * x,
    ;
    assert(u * (u * (before + q)) == u * (u * before) + u * (u * q)) by (nonlinear_arith);
    assert(u * (2 * (u * e) + o * e) == 2 * (u * (u * e)) + (u * e) * o) by (nonlinear_arith);
}

/// The quantization variance is a twelfth of the squared step, up to rounding.
pub proof fn law_quantization_is_a_twelfth_of_the_square<N: Numerics>(c: Accuracy, step: F64)
    requires
        c.wf(),
        c.describes::<N>(),
        c.describes_quotients::<N>(),
        c.is_factor(step),
    ensures
        near(
            12 * (unit() * quantization::<N>(step).units()),
            step.units() * step.units(),
            13 * (unit() * c.e),
        ),
{
    lemma_units_of_constants();
    lemma_units_of_numbers();
    lemma_product_admitted::<N>(c, step, step);
    let p = product::<N>(step, step);
    let twelve = F64 { bits: TWELVE };
    let (u, a, l) = (unit(), p.units(), c.limit);
    assert(u * size(a) <= l * (12 * u)) by (nonlinear_arith)
        requires
            u > 0,
            0 <= size(a) <= l,
    ;
    let q = quantization::<N>(step).units();
    let e = c.e;
    assert(q * (12 * u) == 12 * (u * q) && e * (12 * u) == 12 * (u * e)) by (nonlinear_arith);
}

/// Where the operations are exact, the weight of a sample is the eighth power of its score
/// relative to the best.
pub proof fn law_weight_is_the_eighth_power<N: Numerics>(s: Candidate, best: F64)
    requires
        s.score.is_finite() && best.is_finite(),
        0 <= s.score.units() <= best.units(),
        divides_exactly::<N>(s.score, best),
        ({
            let ratio = quotient::<N>(s.score, best);
            power_of::<N>(ratio, 8).units() * pow(unit(), 7) == pow(ratio.units(), 8)
        }),
    ensures
        weight_of::<N>(s, best).units() * pow(best.units(), 8) == unit() * pow(s.score.units(), 8),
{
    lemma_units_of_constants();
    let ratio = quotient::<N>(s.score, best);
    let (u, r, a, b) = (unit(), ratio.units(), s.score.units(), best.units());
    assert(u * a >= 0 && u * a <= u * b) by (nonlinear_arith)
        requires
            u > 0,
            0 <= a <= b,
    ;
    assert(0 <= r <= u) by (nonlinear_arith)
        requires
            b > 0,
            r * b == u * a,
            0 <= u * a <= u * b,
    ;
    law_order_is_value_order(ratio, F64 { bits: 0 });
    law_order_is_value_order(F64 { bits: ONE }, ratio);
    let w = weight_of::<N>(s, best).units();
    lemma_pow_distributes(r, b, 8);
    lemma_pow_distributes(u, a, 8);
    let (u7, p, q) = (pow(u, 7), pow(a, 8), pow(b, 8));
    reveal_with_fuel(pow, 2);
    assert(pow(u, 8) == u * u7);
    lemma_pow_positive(u, 7);
    assert(w * q == u * p) by (nonlinear_arith)
        requires
            (w * u7) * q == (u * u7) * p,
            u7 > 0,
    ;
}

// ---- The window ----

/// A scan is turned about the sensor: at the guess's place, with a heading that is the
/// guess's plus the rotation, every point is where a sensor that stands there sees it.
pub proof fn law_scan_is_turned_about_the_sensor<N: Numerics>(
    c: Precision,
    query: Seq<Point2>,
    guess: Pose2,
    dtheta: F64,
    i: int,
)
    requires
        c.wf(),
        c.describes::<N>(),
        c.holds(guess),
        is_angle(dtheta),
        0 <= i < query.len(),
        c.reaches(query[i].x) && c.reaches(query[i].y),
    ensures
        turned::<N>(query, guess, dtheta).len() == query.len(),
        exists|t: F64| #[trigger]
            is_angle(t) && same_heading(
                t.units(),
                guess.theta.units() + dtheta.units(),
                9 * c.e,
            ) && ({
                let r = turned::<N>(query, guess, dtheta)[i];
                error(
                    place(r.x, r.y),
                    place(guess.x, guess.y).scaled(unit()).plus(
                        rotation::<N>(t).times(place(query[i].x, query[i].y)),
                    ),
                ).is_within(unit() * (4 * c.e))
            }),
{
    lemma_half_turn();
    lemma_angle_range(guess.theta);
    lemma_angle_range(dtheta);
    assert(c.admits(guess.theta) && c.admits(dtheta));
    let s = sum::<N>(guess.theta, dtheta);
    let w = wrapped::<N>(s);
    let t = wrapped::<N>(w);
    law_wrapping_keeps_the_heading::<N>(c, s);
    lemma_angle_range(w);
    law_wrapping_keeps_the_heading::<N>(c, w);
    let exact = guess.theta.units() + dtheta.units();
    lemma_near_is_heading(s.units(), exact, c.e);
    lemma_headings_add(s.units(), exact, w.units(), 0, c.e, 4 * c.e);
    lemma_headings_add(w.units(), exact, t.units(), 0, 5 * c.e, 4 * c.e);
    lemma_rotated::<N>(c, t, guess.x, guess.y, query[i].x, query[i].y);
}

/// The offsets of a window are whole multiples of the step, as many on either side: the
/// `i`-th of `2·n + 1` is `(i - n)` steps, up to rounding.
pub proof fn law_offsets_are_multiples_of_the_step<N: Numerics>(
    c: Accuracy,
    half_width: F64,
    step: F64,
    n: int,
    i: int,
)
    requires
        c.wf(),
        c.describes::<N>(),
        c.counts::<N>(),
        c.is_factor(step),
        n >= 0,
        offsets::<N>(half_width, step).len() == 2 * n + 1,
        0 <= i <= 2 * n,
        2 * n <= u32::MAX,
        2 * n * unit() + c.e <= c.side,
    ensures
        near(
            unit() * offsets::<N>(half_width, step)[i].units(),
            step.units() * ((i - n) * unit()),
            unit() * c.e + c.side * c.e,
        ),
{
    lemma_units_of_constants();
    let (a, b) = (float_of_count::<N>(i as u64), float_of_count::<N>(n as u64));
    assert(a == float_of::<N>(i as u32) && b == float_of::<N>(n as u32));
    let (u, e) = (unit(), c.e);
    assert(0 <= i * u <= 2 * n * u && 0 <= n * u <= 2 * n * u && i * u - n * u == (i - n) * u)
        by (nonlinear_arith)
        requires
            u > 0,
            0 <= i <= 2 * n,
            n >= 0,
    ;
    let d = difference::<N>(a, b);
    assert(c.is_factor(d));
    let r = offsets::<N>(half_width, step)[i];
    assert(r == product::<N>(step, d));
    let (k, s) = (d.units(), step.units());
    lemma_bounded_product(s, k - (i - n) * u, c.side, e);
    let x = (i - n) * u;
    assert(s * (k - x) == s * k - s * x) by (nonlinear_arith);
}

/// The margin of a field is the wider half of the window, four smoothing widths and a
/// fifth of a metre, up to rounding.
pub proof fn law_margin_holds_the_window<N: Numerics>(c: Accuracy, cfg: CsmConfig)
    requires
        c.wf(),
        c.describes::<N>(),
        c.admits(cfg.search_x_m) && c.admits(cfg.search_y_m),
        c.is_factor(cfg.sigma_m),
        4 * unit() <= c.side,
        size(cfg.search_x_m.units()) + 4 * size(cfg.sigma_m.units()) + 2 * c.e <= c.limit,
        size(cfg.search_y_m.units()) + 4 * size(cfg.sigma_m.units()) + 2 * c.e <= c.limit,
    ensures
        ({
            let m = margin_of::<N>(cfg).units();
            let (x, y) = (cfg.search_x_m.units(), cfg.search_y_m.units());
            let rest = 4 * cfg.sigma_m.units() + (F64 { bits: MARGIN_M }).units();
            &&& x >= y ==> near(m, x + rest, 3 * c.e)
            &&& y >= x ==> near(m, y + rest, 3 * c.e)
            &&& 19 * unit() < 100 * (F64 { bits: MARGIN_M }).units()
            &&& 100 * (F64 { bits: MARGIN_M }).units() < 21 * unit()
        }),
{
    lemma_units_of_constants();
    lemma_units_of_numbers();
    lemma_fifth();
    let (four, fifth) = (F64 { bits: FOUR }, F64 { bits: MARGIN_M });
    let wide = cfg.search_x_m.max(cfg.search_y_m);
    law_order_is_value_order(cfg.search_x_m, cfg.search_y_m);
    law_order_is_value_order(cfg.search_y_m, cfg.search_x_m);
    lemma_product_admitted::<N>(c, four, cfg.sigma_m);
    let blur = product::<N>(four, cfg.sigma_m);
    let (u, b, s) = (unit(), blur.units(), cfg.sigma_m.units());
    assert((4 * u) * s == u * (4 * s) && u * b - u * (4 * s) == u * (b - 4 * s))
        by (nonlinear_arith);
    lemma_divided_bound(u, b - 4 * s, c.e);
    let part = sum::<N>(wide, blur);
    assert(c.admits(part));
}

/// The value of a fifth.
proof fn lemma_fifth()
    ensures
        ({
            let m = F64 { bits: MARGIN_M };
            &&& m.is_finite()
            &&& 19 * unit() < 100 * m.units()
            &&& 100 * m.units() < 21 * unit()
        }),
{
    let m = F64 { bits: MARGIN_M };
    assert(m.exponent() == 1020);
    assert(m.significand() == 0x0019_9999_9999_999a);
    vstd::arithmetic::power2::lemma_pow2_pos(1019);
    vstd::arithmetic::power2::lemma_pow2_adds(1019, 55);
    vstd::arithmetic::power2::lemma2_to64_rest();
    let p = vstd::arithmetic::power2::pow2(1019) as int;
    assert(unit() == p * 0x80_0000_0000_0000);
    assert(m.units() == 0x0019_9999_9999_999a * p);
}

/// Coarse steps are whole multiples of the cells and of the fine rotations, up to
/// rounding.
pub proof fn law_coarse_steps_are_multiples<N: Numerics>(c: Accuracy, cfg: CsmConfig)
    requires
        c.wf(),
        c.describes::<N>(),
        c.counts::<N>(),
        c.is_factor(cfg.field_resolution_m) && c.is_factor(cfg.angular_step_rad),
        cfg.coarse_factor <= u32::MAX && cfg.angular_coarse_factor <= u32::MAX,
        cfg.coarse_factor * unit() <= c.side && cfg.angular_coarse_factor * unit() <= c.side,
    ensures
        near(
            coarse_step::<N>(cfg).units(),
            cfg.coarse_factor * cfg.field_resolution_m.units(),
            c.e,
        ),
        near(
            coarse_turn::<N>(cfg).units(),
            cfg.angular_coarse_factor * cfg.angular_step_rad.units(),
            c.e,
        ),
{
    lemma_times_count::<N>(c, cfg.field_resolution_m, cfg.coarse_factor);
    lemma_times_count::<N>(c, cfg.angular_step_rad, cfg.angular_coarse_factor);
}

/// A value times a count.
proof fn lemma_times_count<N: Numerics>(c: Accuracy, a: F64, n: usize)
    requires
        c.wf(),
        c.describes::<N>(),
        c.counts::<N>(),
        c.is_factor(a),
        n <= u32::MAX,
        n * unit() <= c.side,
    ensures
        near(product::<N>(a, float_of_count::<N>(n as u64)).units(), n * a.units(), c.e),
{
    lemma_units_of_constants();
    let (u, x, k) = (unit(), a.units(), n as int);
    let f = float_of_count::<N>(n as u64);
    assert(f == float_of::<N>(n as u32));
    assert(k * u >= 0) by (nonlinear_arith)
        requires
            k >= 0,
            u > 0,
    ;
    lemma_product_admitted::<N>(c, a, f);
    let r = product::<N>(a, f).units();
    assert(x * (k * u) == u * (k * x) && u * r - u * (k * x) == u * (r - k * x))
        by (nonlinear_arith);
    lemma_divided_bound(u, r - k * x, c.e);
}

/// Every refinement surrounds one of the coarse candidates, which is the best of its
/// rotation in the pooled field, with samples up to half a coarse step and one fine step
/// away.
pub proof fn law_search_refines_coarse_candidates<N: Numerics>(
    c: Accuracy,
    field: FieldModel,
    query: Seq<Point2>,
    guess: Pose2,
    cfg: CsmConfig,
    k: int,
)
    requires
        c.wf(),
        c.describes::<N>(),
        c.describes_quotients::<N>(),
        c.admits(cfg.linear_step_m) && c.admits(cfg.angular_step_rad),
        c.admits(coarse_step::<N>(cfg)) && c.admits(coarse_turn::<N>(cfg)),
        0 <= k < refinements::<N>(field, query, guess, cfg).len(),
        2 * c.e <= c.limit,
    ensures
        exists|around: Candidate, dtheta: F64, span: F64, turn: F64|
            {
                &&& #[trigger] is_coarse_candidate::<N>(field, query, guess, cfg, dtheta, around)
                &&& #[trigger] reaches_half_a_step(
                    c,
                    span,
                    coarse_step::<N>(cfg),
                    cfg.linear_step_m,
                )
                &&& #[trigger] reaches_half_a_step(
                    c,
                    turn,
                    coarse_turn::<N>(cfg),
                    cfg.angular_step_rad,
                )
                &&& refinements::<N>(field, query, guess, cfg)[k] == refinement::<N>(
                    field,
                    query,
                    guess,
                    inverse_len::<N>(query.len()),
                    offsets::<N>(span, cfg.linear_step_m),
                    offsets::<N>(turn, cfg.angular_step_rad),
                    around,
                )
            },
{
    let step = coarse_step::<N>(cfg);
    let turn = coarse_turn::<N>(cfg);
    let thetas = offsets::<N>(cfg.search_theta_rad, turn);
    let xs = offsets::<N>(cfg.search_x_m, step);
    let ys = offsets::<N>(cfg.search_y_m, step);
    let inv_n = inverse_len::<N>(query.len());
    let coarse = pooled::<N>(field, cfg.coarse_factor);
    let candidates = thetas.map_values(
        |t: F64| best_at::<N>(coarse, query, guess, xs, ys, inv_n, t),
    );
    let keys = falling(candidates);
    let order = ordered(keys, candidates.len());
    lemma_order_len(keys, candidates.len());
    lemma_order_range(keys, candidates.len(), k);
    let i = order[k];
    let around = top(candidates, cfg.refine_top_k)[k];
    assert(around == candidates[i]);
    assert(is_coarse_candidate::<N>(field, query, guess, cfg, thetas[i], around));
    let two = F64 { bits: TWO };
    let span = sum::<N>(quotient::<N>(step, two), cfg.linear_step_m);
    let reach = sum::<N>(quotient::<N>(turn, two), cfg.angular_step_rad);
    lemma_half_step::<N>(c, step, cfg.linear_step_m);
    lemma_half_step::<N>(c, turn, cfg.angular_step_rad);
    assert(reaches_half_a_step(c, span, step, cfg.linear_step_m));
    assert(reaches_half_a_step(c, reach, turn, cfg.angular_step_rad));
}

/// `around` is the best of the rotation `dtheta`, one of the window, in the pooled field.
pub open spec fn is_coarse_candidate<N: Numerics>(
    field: FieldModel,
    query: Seq<Point2>,
    guess: Pose2,
    cfg: CsmConfig,
    dtheta: F64,
    around: Candidate,
) -> bool {
    &&& offsets::<N>(cfg.search_theta_rad, coarse_turn::<N>(cfg)).contains(dtheta)
    &&& around == best_at::<N>(
        pooled::<N>(field, cfg.coarse_factor),
        query,
        guess,
        offsets::<N>(cfg.search_x_m, coarse_step::<N>(cfg)),
        offsets::<N>(cfg.search_y_m, coarse_step::<N>(cfg)),
        inverse_len::<N>(query.len()),
        dtheta,
    )
}

/// `span` is half a coarse step and one fine step.
pub open spec fn reaches_half_a_step(c: Accuracy, span: F64, coarse: F64, fine: F64) -> bool {
    near(2 * span.units(), coarse.units() + 2 * fine.units(), 4 * c.e)
}

/// Half a step and a step.
proof fn lemma_half_step<N: Numerics>(c: Accuracy, coarse: F64, fine: F64)
    requires
        c.wf(),
        c.describes::<N>(),
        c.describes_quotients::<N>(),
        c.admits(coarse) && c.admits(fine),
        2 * c.e <= c.limit,
    ensures
        reaches_half_a_step(
            c,
            sum::<N>(quotient::<N>(coarse, F64 { bits: TWO }), fine),
            coarse,
            fine,
        ),
{
    lemma_units_of_constants();
    lemma_units_of_numbers();
    let two = F64 { bits: TWO };
    let (u, a, e) = (unit(), coarse.units(), c.e);
    assert(u * size(a) <= c.limit * (2 * u)) by (nonlinear_arith)
        requires
            u > 0,
            0 <= size(a) <= c.limit,
    ;
    let q = quotient::<N>(coarse, two);
    let x = q.units();
    assert(x * (2 * u) == u * (2 * x) && e * (2 * u) == u * (2 * e) && u * (2 * x) - u * a == u * (2
        * x - a)) by (nonlinear_arith);
    lemma_divided_bound(u, 2 * x - a, 2 * e);
    assert(c.admits(q));
}

/// Ordered indices are indices.
proof fn lemma_order_range(keys: Seq<F64>, n: nat, k: int)
    requires
        0 <= k < n,
    ensures
        0 <= ordered(keys, n)[k] < n,
    decreases n,
{
    let m = (n - 1) as nat;
    let before = ordered(keys, m);
    lemma_order_len(keys, m);
    lemma_order_len(keys, n);
    let at = crate::order::place(keys, before, m as int, before.len());
    lemma_place_range(keys, before, m as int, before.len());
    if k < at {
        lemma_order_range(keys, m, k);
    } else if k > at {
        lemma_order_range(keys, m, k - 1);
    }
}

/// All samples of the first `n` refinements, one after the other.
pub open spec fn all_samples(refined: Seq<RefinedModel>, n: nat) -> Seq<Candidate>
    decreases n,
{
    if n == 0 {
        Seq::empty()
    } else {
        all_samples(refined, (n - 1) as nat) + refined[n - 1].samples
    }
}

/// The moments of refinements are those of all their samples, none left out.
pub proof fn law_moments_run_through_all_samples<N: Numerics>(
    refined: Seq<RefinedModel>,
    best: F64,
    n: nat,
)
    requires
        n <= refined.len(),
    ensures
        moments::<N>(refined, best, n) == with_samples::<N>(
            no_moments(),
            all_samples(refined, n),
            best,
            all_samples(refined, n).len(),
        ),
    decreases n,
{
    if n > 0 {
        let m = (n - 1) as nat;
        law_moments_run_through_all_samples::<N>(refined, best, m);
        let (a, b) = (all_samples(refined, m), refined[n - 1].samples);
        lemma_samples_follow::<N>(no_moments(), a, b, best, b.len());
        lemma_first_samples::<N>(no_moments(), a, b, best, a.len());
    }
}

/// Samples behind the first do not matter to the first.
proof fn lemma_first_samples<N: Numerics>(
    m: Moments,
    a: Seq<Candidate>,
    b: Seq<Candidate>,
    best: F64,
    n: nat,
)
    requires
        n <= a.len(),
    ensures
        with_samples::<N>(m, a + b, best, n) == with_samples::<N>(m, a, best, n),
    decreases n,
{
    if n > 0 {
        lemma_first_samples::<N>(m, a, b, best, (n - 1) as nat);
        assert((a + b)[n - 1] == a[n - 1]);
    }
}

/// Samples that follow others.
proof fn lemma_samples_follow<N: Numerics>(
    m: Moments,
    a: Seq<Candidate>,
    b: Seq<Candidate>,
    best: F64,
    n: nat,
)
    requires
        n <= b.len(),
    ensures
        with_samples::<N>(m, a + b, best, a.len() + n) == with_samples::<N>(
            with_samples::<N>(m, a, best, a.len()),
            b,
            best,
            n,
        ),
    decreases n,
{
    if n > 0 {
        lemma_samples_follow::<N>(m, a, b, best, (n - 1) as nat);
        assert((a + b)[a.len() + n - 1] == b[n - 1]);
    } else {
        lemma_first_samples::<N>(m, a, b, best, a.len());
    }
}

/// A query is searched for exactly if it has a point and no more than allowed.
pub proof fn law_query_is_searched_if_it_fits(n: nat, cfg: CsmConfig)
    requires
        n <= usize::MAX,
    ensures
        query_fault(n, cfg) is None <==> 1 <= n <= cfg.max_points,
        n > cfg.max_points && n > 0 ==> query_fault(n, cfg) == Some(
            SlamError::ScanTooLarge { actual: n as usize, limit: cfg.max_points },
        ),
        n == 0 ==> (query_fault(n, cfg) matches Some(e) && e is MatchFailed),
{
}

/// A score, held between 0 and 1.
pub open spec fn held_score(a: F64) -> F64 {
    if a.lt(F64 { bits: 0 }) {
        F64 { bits: 0 }
    } else if (F64 { bits: ONE }).lt(a) {
        F64 { bits: ONE }
    } else {
        a
    }
}

/// The score of a match is that of the query in the field of the reference, turned and
/// moved by some offsets from the guess; a match is never made without an overlap.
pub proof fn law_match_scores_the_query_in_the_reference<N: Numerics>(
    reference: Seq<Point2>,
    query: Seq<Point2>,
    guess: Pose2,
    cfg: CsmConfig,
    field: FieldModel,
    m: MatchResult,
)
    requires
        field_of::<N>(
            reference,
            cfg.field_resolution_m,
            cfg.sigma_m,
            margin_of::<N>(cfg),
            cfg.max_field_cells,
        ) == Ok::<FieldModel, SlamError>(field),
        matched::<N>(reference, query, guess, cfg) == Ok::<MatchResult, SlamError>(m),
    ensures
        1 <= query.len() <= cfg.max_points,
        exists|s: Candidate|
            m.score == held_score(
                #[trigger] fine_score::<N>(
                    field,
                    query,
                    guess,
                    inverse_len::<N>(query.len()),
                    s,
                ),
            ),
{
    reveal(matched);
    let inv_n = inverse_len::<N>(query.len());
    let refined = refinements::<N>(field, query, guess, cfg);
    let found = last_peak(refined, refined.len());
    lemma_last_peak_is_one(refined, refined.len());
    let i = choose|i: int| 0 <= i < refined.len() && #[trigger] refined[i].best == found;
    let step = coarse_step::<N>(cfg);
    let turn = coarse_turn::<N>(cfg);
    let two = F64 { bits: TWO };
    let dxs = offsets::<N>(
        sum::<N>(quotient::<N>(step, two), cfg.linear_step_m),
        cfg.linear_step_m,
    );
    let dts = offsets::<N>(
        sum::<N>(quotient::<N>(turn, two), cfg.angular_step_rad),
        cfg.angular_step_rad,
    );
    let coarse = pooled::<N>(field, cfg.coarse_factor);
    let candidates = offsets::<N>(cfg.search_theta_rad, turn).map_values(
        |t: F64|
            best_at::<N>(
                coarse,
                query,
                guess,
                offsets::<N>(cfg.search_x_m, step),
                offsets::<N>(cfg.search_y_m, step),
                inv_n,
                t,
            ),
    );
    let around = top(candidates, cfg.refine_top_k)[i];
    assert(refined[i] == refinement::<N>(field, query, guess, inv_n, dxs, dts, around));
    law_refinement_is_the_best_sample::<N>(field, query, guess, inv_n, dxs, dts, around);
    assert((F64 { bits: BELOW }).le(F64 { bits: 0 }));
    assert(found.score == fine_score::<N>(field, query, guess, inv_n, found));
    let best = sharpened::<N>(field, query, guess, inv_n, cfg, found);
    let end = Candidate { score: found.score, ..best };
    assert(best.score == found.score || best.score == fine_score::<N>(
        field,
        query,
        guess,
        inv_n,
        end,
    ));
}

/// The best refinement is one of them.
proof fn lemma_last_peak_is_one(refined: Seq<RefinedModel>, n: nat)
    requires
        1 <= n <= refined.len(),
    ensures
        exists|i: int| 0 <= i < n && #[trigger] refined[i].best == last_peak(refined, n),
    decreases n,
{
    if n == 1 {
        assert(refined[0].best == last_peak(refined, n));
    } else {
        lemma_last_peak_is_one(refined, (n - 1) as nat);
        if refined[n - 1].best.score.lt(last_peak(refined, (n - 1) as nat).score) {
            let i = choose|i: int|
                0 <= i < n - 1 && #[trigger] refined[i].best == last_peak(
                    refined,
                    (n - 1) as nat,
                );
            assert(refined[i].best == last_peak(refined, n));
        } else {
            assert(refined[n - 1].best == last_peak(refined, n));
        }
    }
}

/// A scan is matched against the centres of the occupied cells, with the search of the
/// configuration, as soon as there are enough of them.
pub proof fn law_map_is_matched_by_its_obstacles<N: Numerics>(
    cells: Seq<F32>,
    grid: GridConfig,
    query: Seq<Point2>,
    guess: Pose2,
    config: ScanToMapConfig,
    occupied: Seq<Point2>,
)
    requires
        occupied == centres::<N>(
            cells,
            grid,
            least_log_odds::<N>(config.occupied_threshold),
            cells.len(),
        ),
        occupied.len() <= usize::MAX,
    ensures
        occupied.len() >= config.min_occupied_cells ==> matched_to_map::<N>(
            cells,
            grid,
            query,
            guess,
            config,
        ) == matched::<N>(occupied, query, guess, config.csm),
        occupied.len() < config.min_occupied_cells ==> (matched_to_map::<N>(
            cells,
            grid,
            query,
            guess,
            config,
        ) matches Err(e) && e is MatchFailed),
{
}

/// The bounds of the search: a bend counts as flat above minus a million-millionth, a
/// weight is negligible below a millionth, and an unknown variance is a thousand.
pub proof fn law_bounds_have_their_values()
    ensures
        ({
            let w = (F64 { bits: LEAST_WEIGHT }).units();
            999_999 * w < unit() && unit() < 1_000_001 * w
        }),
        ({
            let f = (F64 { bits: FLAT }).negated().units();
            (F64 { bits: FLAT }).is_negative() && 999_999_999_999 * f < unit() && unit()
                < 1_000_000_000_001 * f
        }),
        (F64 { bits: LEAST_VARIANCE }) == (F64 { bits: FLAT }).negated(),
        (F64 { bits: UNKNOWN_VARIANCE }).units() == 1000 * unit(),
        (F64 { bits: BELOW }).negated() == (F64 { bits: ONE }),
{
    let flat = (F64 { bits: FLAT }).negated();
    assert(flat.bits == 0x3d71_9799_812d_ea11);
    lemma_units_of_pattern(F64 { bits: LEAST_WEIGHT }, 1003, 0x0010_c6f7_a0b5_ed8d);
    lemma_units_of_pattern(flat, 983, 0x0011_9799_812d_ea11);
    lemma_units_of_pattern(F64 { bits: UNKNOWN_VARIANCE }, 1032, 0x001f_4000_0000_0000);
    vstd::arithmetic::power2::lemma2_to64_rest();
    vstd::arithmetic::power2::lemma_pow2_adds(1002, 72);
    vstd::arithmetic::power2::lemma_pow2_adds(36, 36);
    vstd::arithmetic::power2::lemma_pow2_adds(982, 92);
    vstd::arithmetic::power2::lemma_pow2_adds(46, 46);
    vstd::arithmetic::power2::lemma_pow2_adds(1031, 43);
    vstd::arithmetic::power2::lemma_pow2_pos(1002);
    vstd::arithmetic::power2::lemma_pow2_pos(982);
    lemma_near_reciprocal(
        vstd::arithmetic::power2::pow2(1002) as int,
        0x0010_c6f7_a0b5_ed8d,
        0x10_0000_0000int * 0x10_0000_0000int,
        1_000_000,
    );
    lemma_near_reciprocal(
        vstd::arithmetic::power2::pow2(982) as int,
        0x0011_9799_812d_ea11,
        0x4000_0000_0000int * 0x4000_0000_0000int,
        1_000_000_000_000,
    );
    let p = vstd::arithmetic::power2::pow2(1031) as int;
    assert(unit() == p * 0x800_0000_0000);
    assert(0x001f_4000_0000_0000 * p == 1000 * (p * 0x800_0000_0000)) by (nonlinear_arith);
}

/// A number near the reciprocal of another.
proof fn lemma_near_reciprocal(p: int, s: int, k: int, n: int)
    requires
        p > 0,
        (n - 1) * s < k,
        k < (n + 1) * s,
    ensures
        (n - 1) * (s * p) < p * k,
        p * k < (n + 1) * (s * p),
{
    assert((n - 1) * (s * p) < p * k && p * k < (n + 1) * (s * p)) by (nonlinear_arith)
        requires
            p > 0,
            (n - 1) * s < k,
            k < (n + 1) * s,
    ;
}

} // verus!
