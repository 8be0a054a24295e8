//! What a scan does to the map, the graph and the pose.

use vstd::prelude::*;

use crate::accuracy::{
    lemma_bounded_product, lemma_divided_bound, lemma_product_admitted, lemma_scaled_bound, near,
    Accuracy,
};
use crate::algebra::{
    is_angle, law_wrapping_keeps_the_heading, lemma_angle_range, lemma_half_turn,
    lemma_headings_add, lemma_near_is_heading, same_heading, Precision,
};
use crate::error::SlamError;
use crate::float::{lemma_units_of_constants, unit, F64};
use crate::graph::{law_handle_stands_for_its_index, optimized, GraphPrior};
use crate::loop_closure::{
    sound_information, verified, weighed_up, LoopClosureConfig, LoopConstraint,
};
use crate::matcher::csm::{matched, CsmConfig};
use crate::matcher::MatchResult;
use crate::matrix::Matrix3;
use crate::numerics::{deterministic, difference, inverse_of, product, sum, Numerics};
use crate::pose::{Point2, Pose2};
use crate::slam::{
    accepted, chi2_of, closing, dot3, found_loop, inserted, keyframe_due, located, loop_edge,
    mapped, replayed, settled, SlamModel,
};

verus! {

// ---- Scans ----

/// A match is good: it converged and its score reaches the least.
pub open spec fn is_good(m: MatchResult, least: F64) -> bool {
    m.converged && least.le(m.score)
}

/// In localization mode a good match moves the pose, and that is all.
pub proof fn law_good_match_locates(
    s: SlamModel,
    m: MatchResult,
    r: Result<Pose2, SlamError>,
    t: SlamModel,
)
    requires
        located(s, Ok(m), r, t),
        is_good(m, s.config.keyframes.min_integration_score),
    ensures
        r == Ok::<Pose2, SlamError>(m.pose),
        t.pose == m.pose,
        t.keyframes == s.keyframes && t.nodes == s.nodes && t.edges == s.edges && t.cells
            == s.cells,
{
}

/// An error other than a failed match is passed on in either mode, and changes nothing.
pub proof fn law_other_errors_are_passed_on<N: Numerics>(
    s: SlamModel,
    points: Seq<Point2>,
    timestamp_ns: u64,
    e: SlamError,
    r: Result<Pose2, SlamError>,
    t: SlamModel,
)
    requires
        !(e is MatchFailed),
        if s.mapping {
            s.keyframes.len() > 0 && mapped::<N>(s, points, timestamp_ns, Err(e), r, t)
        } else {
            located(s, Err(e), r, t)
        },
    ensures
        r == Err::<Pose2, SlamError>(e),
        t == s,
{
}

/// A good match before the next keyframe is due moves the pose, and nothing is mapped.
pub proof fn law_good_match_moves_the_pose<N: Numerics>(
    s: SlamModel,
    points: Seq<Point2>,
    timestamp_ns: u64,
    m: MatchResult,
    r: Result<Pose2, SlamError>,
    t: SlamModel,
)
    requires
        s.keyframes.len() > 0,
        mapped::<N>(s, points, timestamp_ns, Ok(m), r, t),
        is_good(m, s.config.keyframes.min_integration_score),
        !keyframe_due::<N>(
            s.keyframes[s.keyframes.len() - 1].pose.relative::<N>(m.pose),
            s.config.keyframes,
        ),
    ensures
        r == Ok::<Pose2, SlamError>(m.pose),
        t.pose == m.pose,
        t.keyframes == s.keyframes && t.nodes == s.nodes && t.edges == s.edges && t.cells
            == s.cells,
{
}

/// A good match with a keyframe due adds one keyframe with the scan, one node, and one
/// edge from the last keyframe to the new one: the way between their poses, weighed by
/// the inverse of the match's covariance, and not robust. Unless a loop is closed, the new
/// keyframe stands at the matched pose and everything before it is as it was.
pub proof fn law_due_keyframe_extends_the_map<N: Numerics>(
    s: SlamModel,
    points: Seq<Point2>,
    timestamp_ns: u64,
    m: MatchResult,
    r: Result<Pose2, SlamError>,
    t: SlamModel,
    inverse: Matrix3,
)
    requires
        s.wf(),
        0 < s.keyframes.len() < usize::MAX,
        s.loops_closed < usize::MAX,
        deterministic::<N>(),
        mapped::<N>(s, points, timestamp_ns, Ok(m), r, t),
        is_good(m, s.config.keyframes.min_integration_score),
        keyframe_due::<N>(
            s.keyframes[s.keyframes.len() - 1].pose.relative::<N>(m.pose),
            s.config.keyframes,
        ),
        inverse_of::<N>(m.covariance) == Some(inverse),
        is_finite_matrix(inverse),
    ensures
        ({
            let n = s.keyframes.len() as int;
            &&& t.keyframes.len() == n + 1
            &&& t.keyframes[n].points == points && t.keyframes[n].timestamp_ns == timestamp_ns
            &&& t.nodes.len() == n + 1
            &&& t.edges.len() >= s.edges.len() + 1
            &&& s.edges.is_prefix_of(t.edges)
            &&& t.edges[s.edges.len() as int].from.spec_index() == n - 1
            &&& t.edges[s.edges.len() as int].to.spec_index() == n
            &&& t.edges[s.edges.len() as int].measurement == s.nodes[n - 1].relative::<N>(m.pose)
            &&& t.edges[s.edges.len() as int].information == inverse
            &&& !t.edges[s.edges.len() as int].robust
            &&& r matches Ok(p) ==> p == t.pose
            &&& t.loops_closed == s.loops_closed ==> {
                &&& t.pose == m.pose
                &&& t.keyframes[n].pose == m.pose && t.nodes[n] == m.pose
                &&& t.edges.len() == s.edges.len() + 1
                &&& forall|i: int| 0 <= i < n ==> #[trigger] t.keyframes[i] == s.keyframes[i]
                &&& forall|i: int| 0 <= i < n ==> #[trigger] t.nodes[i] == s.nodes[i]
            }
        }),
{
    let n = s.keyframes.len() as int;
    let delta = s.keyframes.last().pose.relative::<N>(m.pose);
    assert(s.keyframes[n - 1].pose == s.nodes[n - 1]);
    let here = SlamModel { pose: m.pose, ..s };
    let grown = inserted::<N>(
        here,
        points,
        timestamp_ns,
        Some(((n - 1) as usize, delta, m.covariance)),
    );
    let outcome = match r {
        Ok(p) => Ok::<(), SlamError>(()),
        Err(e) => Err(e),
    };
    assert(closing::<N>(grown, outcome, t));
    law_handle_stands_for_its_index((n - 1) as usize);
    law_handle_stands_for_its_index(n as usize);
    assert(grown.edges[s.edges.len() as int].measurement == delta);
    if t != grown {
        law_closed_loop_moves_everything_together::<N>(grown, outcome, t);
    }
}

/// No entry is infinite or a NaN.
pub open spec fn is_finite_matrix(m: Matrix3) -> bool {
    &&& m.m11.is_finite() && m.m12.is_finite() && m.m13.is_finite()
    &&& m.m21.is_finite() && m.m22.is_finite() && m.m23.is_finite()
    &&& m.m31.is_finite() && m.m32.is_finite() && m.m33.is_finite()
}

/// Closing a loop adds one robust edge, from the keyframe that was found to the newest,
/// with the constraint that was found; moves every keyframe to its node, with its scan;
/// ends at the newest node; counts the closure; and rebuilds the map from the moved
/// keyframes.
pub proof fn law_closed_loop_moves_everything_together<N: Numerics>(
    s: SlamModel,
    r: Result<(), SlamError>,
    t: SlamModel,
)
    requires
        deterministic::<N>(),
        closing::<N>(s, r, t),
        t != s,
        s.keyframes.len() > 0,
        s.keyframes.len() == s.nodes.len(),
        s.keyframes.len() <= usize::MAX,
        s.loops_closed < usize::MAX,
    ensures
        r is Ok,
        t.loops_closed == s.loops_closed + 1,
        t.nodes.len() == s.nodes.len(),
        t.keyframes.len() == s.keyframes.len(),
        forall|i: int|
            0 <= i < s.keyframes.len() ==> (#[trigger] t.keyframes[i]).pose == t.nodes[i]
                && t.keyframes[i].points == s.keyframes[i].points && t.keyframes[i].timestamp_ns
                == s.keyframes[i].timestamp_ns,
        t.pose == t.nodes[t.nodes.len() - 1],
        t.edges.len() == s.edges.len() + 1,
        s.edges.is_prefix_of(t.edges),
        found_loop::<N>(s) matches Ok(Some(c)) && ({
            let e = t.edges[s.edges.len() as int];
            &&& e.from.spec_index() == c.node
            &&& e.to.spec_index() == s.keyframes.len() - 1
            &&& e.measurement == c.relative
            &&& e.information == c.information
            &&& e.robust
        }),
        t.config == s.config && t.mapping == s.mapping,
        t.cells == replayed::<N>(t.config.grid, t.far, t.keyframes, t.keyframes.len()),
{
    let c = found_loop::<N>(s)->Ok_0->0;
    law_handle_stands_for_its_index(c.node);
    law_handle_stands_for_its_index((s.keyframes.len() - 1) as usize);
    let current = (s.keyframes.len() - 1) as usize;
    let (o, nodes) = choose|o: Result<F64, SlamError>, nodes: Seq<Pose2>| #[trigger]
        optimized::<N>(
            s.nodes,
            s.edges.push(loop_edge(c, current)),
            Seq::<GraphPrior>::empty(),
            s.config.keyframes.optimize_iterations,
            o,
            nodes,
        ) && match o {
            Err(e) => r == Err::<(), SlamError>(e) && t == s,
            Ok(_) => r == Ok::<(), SlamError>(()) && t == settled::<N>(s, c, current, nodes),
        };
    assert(nodes.len() == s.nodes.len());
    assert(t == accepted::<N>(s, loop_edge(c, current), nodes));
}

// ---- Residuals ----

/// The exact quadratic form of a matrix at a vector, in units.
pub open spec fn quadratic_form(m: Matrix3, x: int, y: int, t: int) -> int {
    x * (m.m11.units() * x + m.m12.units() * y + m.m13.units() * t) + y * (m.m21.units() * x
        + m.m22.units() * y + m.m23.units() * t) + t * (m.m31.units() * x + m.m32.units() * y
        + m.m33.units() * t)
}

/// A finite value no larger than `b`.
pub open spec fn is_bounded(a: F64, b: int) -> bool {
    a.is_finite() && near(a.units(), 0, b)
}

/// A scalar product of two vectors.
proof fn lemma_dot<N: Numerics>(
    c: Accuracy,
    p: (F64, F64, F64),
    q: (F64, F64, F64),
    a: int,
    b: int,
    most: int,
)
    requires
        c.wf(),
        c.describes::<N>(),
        is_bounded(p.0, a) && is_bounded(p.1, a) && is_bounded(p.2, a),
        is_bounded(q.0, b) && is_bounded(q.1, b) && is_bounded(q.2, b),
        0 <= a <= c.side,
        0 <= b <= c.side,
        3 * (a * b) + 5 * (unit() * c.e) <= unit() * most,
        most <= c.limit,
    ensures
        ({
            let r = dot3::<N>(p.0, p.1, p.2, q.0, q.1, q.2);
            &&& is_bounded(r, most)
            &&& near(
                unit() * r.units(),
                p.0.units() * q.0.units() + p.1.units() * q.1.units() + p.2.units() * q.2.units(),
                5 * (unit() * c.e),
            )
        }),
{
    lemma_units_of_constants();
    lemma_product_admitted::<N>(c, p.0, q.0);
    lemma_product_admitted::<N>(c, p.1, q.1);
    lemma_product_admitted::<N>(c, p.2, q.2);
    lemma_bounded_product(p.0.units(), q.0.units(), a, b);
    lemma_bounded_product(p.1.units(), q.1.units(), a, b);
    lemma_bounded_product(p.2.units(), q.2.units(), a, b);
    let (f, g, h) = (product::<N>(p.0, q.0), product::<N>(p.1, q.1), product::<N>(p.2, q.2));
    let s = sum::<N>(f, g);
    let (u, e) = (unit(), c.e);
    let (i, j, k) = (f.units(), g.units(), h.units());
    lemma_scaled_bound(u, s.units(), i + j, e);
    assert(u * (i + j) == u * i + u * j) by (nonlinear_arith);
    assert(a * b >= 0 && u * e >= 0) by (nonlinear_arith)
        requires
            a >= 0,
            b >= 0,
            u > 0,
            e >= 0,
    ;
    lemma_divided_bound(u, s.units(), most);
    assert(c.admits(s));
    let r = sum::<N>(s, h).units();
    let l = s.units();
    lemma_scaled_bound(u, r, l + k, e);
    assert(u * (l + k) == u * l + u * k) by (nonlinear_arith);
    lemma_divided_bound(u, r, most);
}

/// The residual of a constraint is what its two poses say less what it says: the way
/// between them, less the way that was measured.
pub open spec fn is_way_less<N: Numerics>(
    c: Precision,
    from: Pose2,
    to: Pose2,
    relative: Pose2,
    x: F64,
    y: F64,
    t: F64,
) -> bool {
    let seen = from.relative::<N>(to);
    &&& near(x.units(), seen.x.units() - relative.x.units(), c.e)
    &&& near(y.units(), seen.y.units() - relative.y.units(), c.e)
    &&& is_angle(t)
    &&& same_heading(t.units(), seen.theta.units() - relative.theta.units(), 5 * c.e)
}

/// Small enough for the quadratic form: `b` bounds the residual and the matrix, `most`
/// the matrix times the residual.
pub open spec fn forms_within(c: Accuracy, b: int, most: int) -> bool {
    &&& 0 <= b <= c.side
    &&& 0 <= most <= c.side
    &&& 3 * (b * b) + 5 * (unit() * c.e) <= unit() * most
    &&& 3 * (b * most) + 5 * (unit() * c.e) <= unit() * c.limit
}

/// The residual of a loop edge is the quadratic form of its information at the way
/// between the two poses less the measured way, up to rounding. A constraint that its
/// poses meet has no residual.
pub proof fn law_residual_is_the_quadratic_form<N: Numerics>(
    c: Precision,
    a: Accuracy,
    from: Pose2,
    to: Pose2,
    relative: Pose2,
    m: Matrix3,
    b: int,
    most: int,
)
    requires
        c.wf(),
        c.describes_arithmetic::<N>(),
        c.describes_remainder::<N>(),
        a.wf(),
        a.describes::<N>(),
        forms_within(a, b, most),
        ({
            let seen = from.relative::<N>(to);
            &&& c.admits(seen.x) && c.admits(seen.y) && is_angle(seen.theta)
            &&& c.admits(relative.x) && c.admits(relative.y) && is_angle(relative.theta)
            &&& near(seen.x.units() - relative.x.units(), 0, b - c.e)
            &&& near(seen.y.units() - relative.y.units(), 0, b - c.e)
        }),
        crate::algebra::half_turn() <= b,
        is_bounded(m.m11, b) && is_bounded(m.m12, b) && is_bounded(m.m13, b),
        is_bounded(m.m21, b) && is_bounded(m.m22, b) && is_bounded(m.m23, b),
        is_bounded(m.m31, b) && is_bounded(m.m32, b) && is_bounded(m.m33, b),
    ensures
        exists|x: F64, y: F64, t: F64| #[trigger]
            is_way_less::<N>(c, from, to, relative, x, y, t) && near(
                unit() * (unit() * chi2_of::<N>(from, to, relative, m).units()),
                quadratic_form(m, x.units(), y.units(), t.units()),
                5 * (unit() * (unit() * a.e)) + 15 * (b * (unit() * a.e)),
            ),
{
    lemma_units_of_constants();
    lemma_half_turn();
    let seen = from.relative::<N>(to);
    lemma_angle_range(seen.theta);
    lemma_angle_range(relative.theta);
    let x = difference::<N>(seen.x, relative.x);
    let y = difference::<N>(seen.y, relative.y);
    let d = difference::<N>(seen.theta, relative.theta);
    let t = crate::pose::wrapped::<N>(d);
    assert(c.admits(seen.theta) && c.admits(relative.theta));
    law_wrapping_keeps_the_heading::<N>(c, d);
    lemma_near_is_heading(d.units(), seen.theta.units() - relative.theta.units(), c.e);
    lemma_headings_add(
        d.units(),
        seen.theta.units() - relative.theta.units(),
        t.units(),
        0,
        c.e,
        4 * c.e,
    );
    lemma_angle_range(t);
    assert(is_way_less::<N>(c, from, to, relative, x, y, t));
    let r = (x, y, t);
    lemma_dot::<N>(a, (m.m11, m.m12, m.m13), r, b, b, most);
    lemma_dot::<N>(a, (m.m21, m.m22, m.m23), r, b, b, most);
    lemma_dot::<N>(a, (m.m31, m.m32, m.m33), r, b, b, most);
    let f = dot3::<N>(m.m11, m.m12, m.m13, x, y, t);
    let g = dot3::<N>(m.m21, m.m22, m.m23, x, y, t);
    let h = dot3::<N>(m.m31, m.m32, m.m33, x, y, t);
    lemma_dot::<N>(a, r, (f, g, h), b, most, a.limit);
    let z = dot3::<N>(x, y, t, f, g, h).units();
    let (u, ue) = (unit(), unit() * a.e);
    let (i, j, k) = (x.units(), y.units(), t.units());
    let (p, q, s) = (f.units(), g.units(), h.units());
    lemma_scaled_bound(u, u * z, i * p + j * q + k * s, 5 * ue);
    assert(u * (i * p + j * q + k * s) == i * (u * p) + j * (u * q) + k * (u * s))
        by (nonlinear_arith);
    let row1 = m.m11.units() * i + m.m12.units() * j + m.m13.units() * k;
    let row2 = m.m21.units() * i + m.m22.units() * j + m.m23.units() * k;
    let row3 = m.m31.units() * i + m.m32.units() * j + m.m33.units() * k;
    assert(ue >= 0) by (nonlinear_arith)
        requires
            u > 0,
            a.e >= 0,
            ue == u * a.e,
    ;
    lemma_bounded_product(i, u * p - row1, b, 5 * ue);
    lemma_bounded_product(j, u * q - row2, b, 5 * ue);
    lemma_bounded_product(k, u * s - row3, b, 5 * ue);
    assert(i * (u * p - row1) == i * (u * p) - i * row1) by (nonlinear_arith);
    assert(j * (u * q - row2) == j * (u * q) - j * row2) by (nonlinear_arith);
    assert(k * (u * s - row3) == k * (u * s) - k * row3) by (nonlinear_arith);
    assert(b * (5 * ue) == 5 * (b * ue)) by (nonlinear_arith);
    assert(u * (5 * ue) == 5 * (u * ue)) by (nonlinear_arith);
}

// ---- Loops ----

/// The match of the scan of candidate `i` with the current scan, from the way between
/// their poses.
pub open spec fn match_of<N: Numerics>(
    poses: Seq<Pose2>,
    scans: Seq<Seq<Point2>>,
    current: int,
    config: LoopClosureConfig,
    i: int,
) -> Result<MatchResult, SlamError> {
    matched::<N>(
        scans[i],
        scans[current],
        poses[i].relative::<N>(poses[current]),
        config.verification(),
    )
}

/// A match that can make a constraint.
pub open spec fn is_accepted(r: Result<MatchResult, SlamError>, least: F64) -> bool {
    r matches Ok(m) && m.converged && !m.score.lt(least)
}

/// The constraint that is found is the match of one of the candidates, accepted, and no
/// accepted match of a candidate has a greater score; none is found only if no match is
/// accepted.
pub proof fn law_constraint_is_the_best_match<N: Numerics>(
    poses: Seq<Pose2>,
    scans: Seq<Seq<Point2>>,
    current: int,
    candidates: Seq<int>,
    config: LoopClosureConfig,
    n: nat,
)
    requires
        n <= candidates.len(),
        forall|k: int| 0 <= k < candidates.len() ==> 0 <= #[trigger] candidates[k] <= usize::MAX,
        forall|k: int|
            0 <= k < candidates.len() ==> (match_of::<N>(
                poses,
                scans,
                current,
                config,
                #[trigger] candidates[k],
            ) matches Ok(m) ==> !m.score.is_nan()),
    ensures
        match verified::<N>(poses, scans, current, candidates, config, n) {
            Err(e) => !(e is MatchFailed),
            Ok(None) => forall|k: int|
                0 <= k < n ==> !is_accepted(
                    match_of::<N>(poses, scans, current, config, #[trigger] candidates[k]),
                    config.min_score,
                ),
            Ok(Some(c)) => {
                &&& !c.score.is_nan()
                &&& is_constraint_of::<N>(
                    match_of::<N>(poses, scans, current, config, c.node as int),
                    config.min_score,
                    c,
                )
                &&& exists|k: int| 0 <= k < n && #[trigger] candidates[k] == c.node
                &&& forall|k: int|
                    0 <= k < n && is_accepted(
                        match_of::<N>(poses, scans, current, config, #[trigger] candidates[k]),
                        config.min_score,
                    ) ==> match_of::<N>(
                        poses,
                        scans,
                        current,
                        config,
                        candidates[k],
                    )->Ok_0.score.le(c.score)
            },
        },
    decreases n,
{
    if n > 0 {
        let m = (n - 1) as nat;
        law_constraint_is_the_best_match::<N>(poses, scans, current, candidates, config, m);
        let i = candidates[m as int];
        match verified::<N>(poses, scans, current, candidates, config, m) {
            Err(e) => {},
            Ok(best) => {
                let result = match_of::<N>(poses, scans, current, config, i);
                assert(verified::<N>(poses, scans, current, candidates, config, n) == weighed_up::<
                    N,
                >(best, i as usize, result, config.min_score));
                if best is Some {
                    let k = choose|k: int| 0 <= k < m && #[trigger] candidates[k] == best->0.node;
                    assert(candidates[k] == best->0.node);
                }
            },
        }
    }
}

/// `c` is the constraint that the match `r` makes: its pose, its score, and the inverse of
/// its covariance where that is finite.
pub open spec fn is_constraint_of<N: Numerics>(
    r: Result<MatchResult, SlamError>,
    least: F64,
    c: LoopConstraint,
) -> bool {
    &&& is_accepted(r, least)
    &&& r matches Ok(m) && c.relative == m.pose && c.score == m.score && (inverse_of::<N>(
        m.covariance,
    ) matches Some(inverse) ==> is_finite_matrix(inverse) ==> c.information == inverse)
}

/// A covariance that has no finite inverse weighs as one in every direction.
pub proof fn law_information_is_sound(inverse: Option<Matrix3>)
    ensures
        is_finite_matrix(sound_information(inverse)),
        inverse matches Some(m) ==> is_finite_matrix(m) ==> sound_information(inverse) == m,
        !(inverse matches Some(m) && is_finite_matrix(m)) ==> {
            let r = sound_information(inverse);
            &&& r.m11.units() == unit() && r.m22.units() == unit() && r.m33.units() == unit()
            &&& r.m12.units() == 0 && r.m13.units() == 0 && r.m21.units() == 0
            &&& r.m23.units() == 0 && r.m31.units() == 0 && r.m32.units() == 0
        },
{
    lemma_units_of_constants();
}

/// Loops are verified in the configured window, alike in x and y, and otherwise with the
/// standard search but for its steps.
pub proof fn law_verification_searches_the_window(config: LoopClosureConfig)
    ensures
        ({
            let v = config.verification();
            let s = CsmConfig::standard();
            &&& v.search_x_m == config.verification_window_m
            &&& v.search_y_m == config.verification_window_m
            &&& v.search_theta_rad == config.verification_theta_rad
            &&& v == CsmConfig {
                search_x_m: v.search_x_m,
                search_y_m: v.search_y_m,
                search_theta_rad: v.search_theta_rad,
                linear_step_m: v.linear_step_m,
                angular_step_rad: v.angular_step_rad,
                ..s
            }
            &&& s.linear_step_m.lt(v.linear_step_m)
            &&& s.angular_step_rad.lt(v.angular_step_rad)
        }),
{
}

/// A loop edge whose residual lies within the configured bound is accepted.
pub proof fn law_consistent_loop_is_accepted<N: Numerics>(
    s: SlamModel,
    c: LoopConstraint,
    current: usize,
    nodes: Seq<Pose2>,
)
    requires
        s.loops_closed < usize::MAX,
        chi2_of::<N>(nodes[c.node as int], nodes[current as int], c.relative, c.information).le(
            s.config.loop_closure.residual_gate,
        ),
    ensures
        settled::<N>(s, c, current, nodes).loops_closed == s.loops_closed + 1,
        settled::<N>(s, c, current, nodes).nodes == nodes,
{
}

} // verus!
