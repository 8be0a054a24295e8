//! Point-to-point ICP with k-d tree correspondences and Huber weighting.

use vstd::prelude::*;

use crate::error::{Reason, SlamError};
use crate::float::F64;
use crate::grid::cellmath::ONE;
use crate::matcher::csm::TWO;
use crate::matcher::{
    diagonal, float_of_len, len_as_f64, MatchResult, ScanMatcher, UNKNOWN_VARIANCE,
};
use crate::matrix::{Matrix3, Vector3};
use crate::numerics::{
    build_tree, cholesky_solve, deterministic, difference, exp, exp_of, inverse_of, minus, nearest,
    nearest_of, over, plus, product, quotient, root_of, sin_cos, sin_cos_of, solution_of, sqrt,
    sum, times, tree_of, try_inverse, Nearest, Numerics,
};
use crate::pose::{normalize_angle, within_turn, wrapped, Point2, Pose2};
use crate::scan::ScanCloud;

verus! {

/// 3: the number of parameters of a pose.
pub const THREE: u64 = 0x4008_0000_0000_0000;

/// 10^-12: the least residual variance.
pub const LEAST_VARIANCE: u64 = 0x3d71_9799_812d_ea11;

/// Tunables for [`IcpMatcher`]. Distances in metres, angles in radians.
#[derive(Debug, Clone, Copy, PartialEq, Eq, Structural)]
pub struct IcpConfig {
    /// Maximum Gauss-Newton iterations. Default `50`.
    pub max_iterations: usize,
    /// Correspondences farther apart than this are rejected, metres. Default
    /// `1.0`.
    pub max_correspondence_dist_m: F64,
    /// Huber kernel width, metres: residuals beyond this are down-weighted
    /// linearly instead of quadratically. Default `0.1`.
    pub huber_delta_m: F64,
    /// Convergence threshold on the translation update, metres. Default `1e-5`.
    pub translation_epsilon_m: F64,
    /// Convergence threshold on the rotation update, radians. Default `1e-5`.
    pub rotation_epsilon_rad: F64,
    /// Minimum points required in each scan. Default `10`.
    pub min_points: usize,
    /// Minimum inlier fraction for the result to count as converged. Default
    /// `0.5`.
    pub min_inlier_ratio: F64,
    /// RMSE scale for the score: `score = inlier_ratio × exp(-rmse / this)`.
    /// Default `0.1`.
    pub score_sigma_m: F64,
}

impl IcpConfig {
    /// The default values.
    pub open spec fn standard() -> IcpConfig {
        IcpConfig {
            max_iterations: 50,
            max_correspondence_dist_m: F64 { bits: ONE },
            huber_delta_m: F64 { bits: 0x3fb9_9999_9999_999a },
            translation_epsilon_m: F64 { bits: 0x3ee4_f8b5_88e3_68f1 },
            rotation_epsilon_rad: F64 { bits: 0x3ee4_f8b5_88e3_68f1 },
            min_points: 10,
            min_inlier_ratio: F64 { bits: 0x3fe0_0000_0000_0000 },
            score_sigma_m: F64 { bits: 0x3fb9_9999_9999_999a },
        }
    }
}

impl Default for IcpConfig {
    fn default() -> (r: IcpConfig)
        ensures
            r == IcpConfig::standard(),
    {
        IcpConfig {
            max_iterations: 50,
            max_correspondence_dist_m: F64 { bits: ONE },
            huber_delta_m: F64 { bits: 0x3fb9_9999_9999_999a },
            translation_epsilon_m: F64 { bits: 0x3ee4_f8b5_88e3_68f1 },
            rotation_epsilon_rad: F64 { bits: 0x3ee4_f8b5_88e3_68f1 },
            min_points: 10,
            min_inlier_ratio: F64 { bits: 0x3fe0_0000_0000_0000 },
            score_sigma_m: F64 { bits: 0x3fb9_9999_9999_999a },
        }
    }
}

// ---- Normal equations ----

/// Accumulated weighted Gauss-Newton normal equations for one iteration.
#[derive(Debug, Clone, Copy, PartialEq, Eq, Structural)]
pub struct NormalEquations {
    /// Weighted sum of `Jᵀ J`.
    pub hessian: Matrix3,
    /// Weighted sum of `Jᵀ r`.
    pub rhs: Vector3,
    /// Number of correspondences.
    pub inliers: usize,
    /// Weighted sum of squared residuals.
    pub sse: F64,
}

/// No correspondence yet.
#[verifier::allow_in_spec]
pub fn no_equations() -> NormalEquations
    returns
        (NormalEquations {
            hessian: diagonal(F64 { bits: 0 }),
            rhs: Vector3 { x: F64 { bits: 0 }, y: F64 { bits: 0 }, z: F64 { bits: 0 } },
            inliers: 0,
            sse: F64 { bits: 0 },
        }),
{
    let zero = F64 { bits: 0 };
    NormalEquations {
        hessian: diagonal(zero),
        rhs: Vector3 { x: zero, y: zero, z: zero },
        inliers: 0,
        sse: zero,
    }
}

/// `√(x² + y²)`.
pub open spec fn norm_of<N: Numerics>(x: F64, y: F64) -> F64 {
    root_of::<N>(sum::<N>(product::<N>(x, x), product::<N>(y, y)))
}

/// Compute [`norm_of`].
fn norm<N: Numerics>(x: F64, y: F64) -> (r: F64)
    ensures
        deterministic::<N>() ==> r == norm_of::<N>(x, y),
{
    sqrt::<N>(plus::<N>(times::<N>(x, x), times::<N>(y, y)))
}

/// The Huber weight of a residual: quadratic within `delta`, linear beyond.
pub open spec fn huber_of<N: Numerics>(err: F64, delta: F64) -> F64 {
    if err.le(delta) || (err.le(F64 { bits: 0 }) && (F64 { bits: 0 }).le(err)) {
        F64 { bits: ONE }
    } else {
        quotient::<N>(delta, err)
    }
}

/// Compute [`huber_of`].
pub fn huber<N: Numerics>(err: F64, delta: F64) -> (r: F64)
    ensures
        deterministic::<N>() ==> r == huber_of::<N>(err, delta),
        err.le(delta) ==> r == (F64 { bits: ONE }),
{
    let zero = F64 { bits: 0 };
    if err.le(delta) || (err.le(zero) && zero.le(err)) {
        F64 { bits: ONE }
    } else {
        over::<N>(delta, err)
    }
}

/// The equations with one correspondence more: query point `q`, at `world`, with
/// `target`.
pub open spec fn with_pair<N: Numerics>(
    n: NormalEquations,
    q: Point2,
    world: Point2,
    target: Point2,
    rotation: (F64, F64),
    delta: F64,
) -> NormalEquations {
    let (sin, cos) = rotation;
    let rx = difference::<N>(world.x, target.x);
    let ry = difference::<N>(world.y, target.y);
    let err = norm_of::<N>(rx, ry);
    let w = huber_of::<N>(err, delta);
    let tx = difference::<N>(product::<N>(sin.negated(), q.x), product::<N>(cos, q.y));
    let ty = difference::<N>(product::<N>(cos, q.x), product::<N>(sin, q.y));
    NormalEquations {
        hessian: Matrix3 {
            m11: sum::<N>(n.hessian.m11, w),
            m22: sum::<N>(n.hessian.m22, w),
            m13: sum::<N>(n.hessian.m13, product::<N>(w, tx)),
            m23: sum::<N>(n.hessian.m23, product::<N>(w, ty)),
            m33: sum::<N>(
                n.hessian.m33,
                product::<N>(w, sum::<N>(product::<N>(tx, tx), product::<N>(ty, ty))),
            ),
            ..n.hessian
        },
        rhs: Vector3 {
            x: sum::<N>(n.rhs.x, product::<N>(w, rx)),
            y: sum::<N>(n.rhs.y, product::<N>(w, ry)),
            z: sum::<N>(
                n.rhs.z,
                product::<N>(w, sum::<N>(product::<N>(tx, rx), product::<N>(ty, ry))),
            ),
        },
        inliers: (n.inliers + 1) as usize,
        sse: sum::<N>(n.sse, product::<N>(product::<N>(w, err), err)),
    }
}

/// Add one correspondence.
fn add_pair<N: Numerics>(
    n: NormalEquations,
    q: Point2,
    world: Point2,
    target: Point2,
    rotation: (F64, F64),
    delta: F64,
) -> (r: NormalEquations)
    requires
        n.inliers < usize::MAX,
    ensures
        r.inliers == n.inliers + 1,
        deterministic::<N>() ==> r == with_pair::<N>(n, q, world, target, rotation, delta),
{
    let (sin, cos) = rotation;
    let rx = minus::<N>(world.x, target.x);
    let ry = minus::<N>(world.y, target.y);
    let err = norm::<N>(rx, ry);
    let w = huber::<N>(err, delta);
    let tx = minus::<N>(times::<N>(sin.negated(), q.x), times::<N>(cos, q.y));
    let ty = minus::<N>(times::<N>(cos, q.x), times::<N>(sin, q.y));
    NormalEquations {
        hessian: Matrix3 {
            m11: plus::<N>(n.hessian.m11, w),
            m22: plus::<N>(n.hessian.m22, w),
            m13: plus::<N>(n.hessian.m13, times::<N>(w, tx)),
            m23: plus::<N>(n.hessian.m23, times::<N>(w, ty)),
            m33: plus::<N>(
                n.hessian.m33,
                times::<N>(w, plus::<N>(times::<N>(tx, tx), times::<N>(ty, ty))),
            ),
            ..n.hessian
        },
        rhs: Vector3 {
            x: plus::<N>(n.rhs.x, times::<N>(w, rx)),
            y: plus::<N>(n.rhs.y, times::<N>(w, ry)),
            z: plus::<N>(
                n.rhs.z,
                times::<N>(w, plus::<N>(times::<N>(tx, rx), times::<N>(ty, ry))),
            ),
        },
        inliers: n.inliers + 1,
        sse: plus::<N>(n.sse, times::<N>(times::<N>(w, err), err)),
    }
}

/// The correspondence of a query point: the nearest entry, unless it is too far
/// away.
pub open spec fn partner(entries: Seq<Point2>, found: Nearest, max_dist2: F64) -> Option<Point2> {
    if max_dist2.lt(found.distance) || found.item >= entries.len() {
        None
    } else {
        Some(entries[found.item as int])
    }
}

/// Compute [`partner`].
pub fn find_partner(entries: &Vec<Point2>, found: Nearest, max_dist2: F64) -> (r: Option<Point2>)
    ensures
        r == partner(entries@, found, max_dist2),
{
    if max_dist2.lt(found.distance) || found.item >= entries.len() as u64 {
        None
    } else {
        Some(entries[found.item as usize])
    }
}

/// The equations of the first `n` query points at a pose.
pub open spec fn equations<N: Numerics>(
    tree: N::Tree,
    entries: Seq<Point2>,
    query: Seq<Point2>,
    pose: Pose2,
    cfg: IcpConfig,
    n: nat,
) -> NormalEquations
    decreases n,
{
    if n == 0 {
        no_equations()
    } else {
        let before = equations::<N>(tree, entries, query, pose, cfg, (n - 1) as nat);
        let q = query[n - 1];
        let world = pose.transformed::<N>(q);
        let max_dist2 = product::<N>(cfg.max_correspondence_dist_m, cfg.max_correspondence_dist_m);
        match partner(entries, nearest_of::<N>(tree, world), max_dist2) {
            Some(target) => with_pair::<N>(
                before,
                q,
                world,
                target,
                sin_cos_of::<N>(pose.theta),
                cfg.huber_delta_m,
            ),
            None => before,
        }
    }
}

/// The equations with the lower triangle of the Hessian filled in.
#[verifier::allow_in_spec]
pub fn mirrored(n: NormalEquations) -> NormalEquations
    returns
        (NormalEquations {
            hessian: Matrix3 { m31: n.hessian.m13, m32: n.hessian.m23, ..n.hessian },
            ..n
        }),
{
    NormalEquations {
        hessian: Matrix3 { m31: n.hessian.m13, m32: n.hessian.m23, ..n.hessian },
        ..n
    }
}

/// One correspondence and accumulation pass at the current pose estimate.
pub fn accumulate<N: Numerics>(
    tree: &N::Tree,
    entries: &Vec<Point2>,
    query: &Vec<Point2>,
    pose: &Pose2,
    cfg: &IcpConfig,
) -> (r: NormalEquations)
    ensures
        r.inliers <= query@.len(),
        deterministic::<N>() ==> r == mirrored(
            equations::<N>(*tree, entries@, query@, *pose, *cfg, query@.len()),
        ),
{
    let max_dist2 = times::<N>(cfg.max_correspondence_dist_m, cfg.max_correspondence_dist_m);
    let rotation = sin_cos::<N>(pose.theta);
    let mut n = no_equations();
    for i in 0..query.len()
        invariant
            n.inliers <= i,
            deterministic::<N>() ==> max_dist2 == product::<N>(
                cfg.max_correspondence_dist_m,
                cfg.max_correspondence_dist_m,
            ),
            deterministic::<N>() ==> rotation == sin_cos_of::<N>(pose.theta),
            deterministic::<N>() ==> n == equations::<N>(
                *tree,
                entries@,
                query@,
                *pose,
                *cfg,
                i as nat,
            ),
    {
        let q = query[i];
        let world = pose.transform_point::<N>(q);
        let found = nearest::<N>(tree, world);
        match find_partner(entries, found, max_dist2) {
            Some(target) => {
                n = add_pair::<N>(n, q, world, target, rotation, cfg.huber_delta_m);
            },
            None => {},
        }
    }
    mirrored(n)
}

// ---- Iteration ----

/// Where the iteration stands.
#[derive(Debug, Clone, Copy, PartialEq, Eq, Structural)]
pub struct IcpState {
    /// Current estimate.
    pub pose: Pose2,
    /// The equations that led to it.
    pub normal: NormalEquations,
    /// Iterations made.
    pub iterations: usize,
    /// `true` if the last update was below both thresholds.
    pub converged: bool,
}

/// Before the first iteration.
#[verifier::allow_in_spec]
pub fn start_from(guess: Pose2) -> IcpState
    returns
        (IcpState { pose: guess, normal: no_equations(), iterations: 0, converged: false }),
{
    IcpState { pose: guess, normal: no_equations(), iterations: 0, converged: false }
}

/// The vector with every sign turned.
#[verifier::allow_in_spec]
pub fn opposite(v: Vector3) -> Vector3
    returns
        (Vector3 { x: v.x.negated(), y: v.y.negated(), z: v.z.negated() }),
{
    Vector3 { x: v.x.negated(), y: v.y.negated(), z: v.z.negated() }
}

/// The state after an update, from new equations and their solution.
pub open spec fn updated<N: Numerics>(
    s: IcpState,
    normal: NormalEquations,
    solution: Option<Vector3>,
    cfg: IcpConfig,
) -> Result<IcpState, SlamError> {
    if normal.inliers < 2 {
        Err(SlamError::MatchFailed { reason: Reason::TooFewCorrespondences(normal.inliers) })
    } else {
        match solution {
            None => Err(SlamError::MatchFailed { reason: Reason::SingularNormalEquations }),
            Some(d) => Ok(
                IcpState {
                    pose: Pose2 {
                        x: sum::<N>(s.pose.x, d.x),
                        y: sum::<N>(s.pose.y, d.y),
                        theta: wrapped::<N>(sum::<N>(s.pose.theta, d.z)),
                    },
                    normal,
                    iterations: (s.iterations + 1) as usize,
                    converged: norm_of::<N>(d.x, d.y).lt(cfg.translation_epsilon_m)
                        && d.z.absolute().lt(cfg.rotation_epsilon_rad),
                },
            ),
        }
    }
}

/// Make one update.
pub fn update<N: Numerics>(
    s: &IcpState,
    normal: NormalEquations,
    solution: Option<Vector3>,
    cfg: &IcpConfig,
) -> (r: Result<IcpState, SlamError>)
    requires
        s.iterations < usize::MAX,
    ensures
        deterministic::<N>() ==> r == updated::<N>(*s, normal, solution, *cfg),
        normal.inliers < 2 ==> r == Err::<IcpState, SlamError>(
            SlamError::MatchFailed { reason: Reason::TooFewCorrespondences(normal.inliers) },
        ),
        normal.inliers >= 2 && solution is None ==> r == Err::<IcpState, SlamError>(
            SlamError::MatchFailed { reason: Reason::SingularNormalEquations },
        ),
        normal.inliers >= 2 && solution is Some ==> (r matches Ok(next) && next.normal == normal
            && next.iterations == s.iterations + 1 && within_turn(next.pose.theta)),
{
    if normal.inliers < 2 {
        return Err(
            SlamError::MatchFailed { reason: Reason::TooFewCorrespondences(normal.inliers) },
        );
    }
    match solution {
        None => Err(SlamError::MatchFailed { reason: Reason::SingularNormalEquations }),
        Some(d) => Ok(
            IcpState {
                pose: Pose2 {
                    x: plus::<N>(s.pose.x, d.x),
                    y: plus::<N>(s.pose.y, d.y),
                    theta: normalize_angle::<N>(plus::<N>(s.pose.theta, d.z)),
                },
                normal,
                iterations: s.iterations + 1,
                converged: norm::<N>(d.x, d.y).lt(cfg.translation_epsilon_m)
                    && d.z.absolute().lt(cfg.rotation_epsilon_rad),
            },
        ),
    }
}

/// One iteration.
pub open spec fn iterated<N: Numerics>(
    s: IcpState,
    tree: N::Tree,
    entries: Seq<Point2>,
    query: Seq<Point2>,
    cfg: IcpConfig,
) -> Result<IcpState, SlamError> {
    let normal = mirrored(equations::<N>(tree, entries, query, s.pose, cfg, query.len()));
    updated::<N>(s, normal, solution_of::<N>(normal.hessian, opposite(normal.rhs)), cfg)
}

/// The state after at most `n` iterations: fewer if one converges or fails.
pub open spec fn run<N: Numerics>(
    guess: Pose2,
    tree: N::Tree,
    entries: Seq<Point2>,
    query: Seq<Point2>,
    cfg: IcpConfig,
    n: nat,
) -> Result<IcpState, SlamError>
    decreases n,
{
    if n == 0 {
        Ok(start_from(guess))
    } else {
        match run::<N>(guess, tree, entries, query, cfg, (n - 1) as nat) {
            Err(e) => Err(e),
            Ok(s) => if s.converged {
                Ok(s)
            } else {
                iterated::<N>(s, tree, entries, query, cfg)
            },
        }
    }
}

/// Once it has converged or failed, a run stays as it is.
proof fn lemma_run_stays<N: Numerics>(
    guess: Pose2,
    tree: N::Tree,
    entries: Seq<Point2>,
    query: Seq<Point2>,
    cfg: IcpConfig,
    m: nat,
    n: nat,
)
    requires
        m <= n,
        run::<N>(guess, tree, entries, query, cfg, m) matches Ok(s) ==> s.converged,
    ensures
        run::<N>(guess, tree, entries, query, cfg, n) == run::<N>(
            guess,
            tree,
            entries,
            query,
            cfg,
            m,
        ),
    decreases n,
{
    if m < n {
        lemma_run_stays::<N>(guess, tree, entries, query, cfg, m, (n - 1) as nat);
    }
}

/// Iterate from `guess` until an update converges, one fails, or the iterations
/// are used up.
fn iterate<N: Numerics>(
    guess: &Pose2,
    entries: &Vec<Point2>,
    query: &Vec<Point2>,
    cfg: &IcpConfig,
) -> (r: Result<IcpState, SlamError>)
    ensures
        deterministic::<N>() ==> r == run::<N>(
            *guess,
            tree_of::<N>(entries@),
            entries@,
            query@,
            *cfg,
            cfg.max_iterations as nat,
        ),
        r matches Ok(s) ==> s.iterations <= cfg.max_iterations && s.normal.inliers <= query@.len(),
        r matches Err(e) ==> e is MatchFailed,
{
    let tree = build_tree::<N>(entries);
    let mut s = start_from(*guess);
    for i in 0..cfg.max_iterations
        invariant
            s.iterations == i,
            !s.converged,
            s.normal.inliers <= query@.len(),
            deterministic::<N>() ==> tree == tree_of::<N>(entries@),
            deterministic::<N>() ==> run::<N>(*guess, tree, entries@, query@, *cfg, i as nat) == Ok::<
                IcpState,
                SlamError,
            >(s),
    {
        let normal = accumulate::<N>(&tree, entries, query, &s.pose, cfg);
        let solution = cholesky_solve::<N>(normal.hessian, opposite(normal.rhs));
        match update::<N>(&s, normal, solution, cfg) {
            Err(e) => {
                proof {
                    if deterministic::<N>() {
                        lemma_run_stays::<N>(
                            *guess,
                            tree,
                            entries@,
                            query@,
                            *cfg,
                            (i + 1) as nat,
                            cfg.max_iterations as nat,
                        );
                    }
                }
                return Err(e);
            },
            Ok(next) => {
                s = next;
                if s.converged {
                    proof {
                        if deterministic::<N>() {
                            lemma_run_stays::<N>(
                                *guess,
                                tree,
                                entries@,
                                query@,
                                *cfg,
                                (i + 1) as nat,
                                cfg.max_iterations as nat,
                            );
                        }
                    }
                    return Ok(s);
                }
            },
        }
    }
    Ok(s)
}

// ---- Result ----

/// `m` with every entry multiplied by `v`.
pub open spec fn scaled<N: Numerics>(m: Matrix3, v: F64) -> Matrix3 {
    Matrix3 {
        m11: product::<N>(m.m11, v),
        m12: product::<N>(m.m12, v),
        m13: product::<N>(m.m13, v),
        m21: product::<N>(m.m21, v),
        m22: product::<N>(m.m22, v),
        m23: product::<N>(m.m23, v),
        m31: product::<N>(m.m31, v),
        m32: product::<N>(m.m32, v),
        m33: product::<N>(m.m33, v),
    }
}

/// Compute [`scaled`].
fn scale<N: Numerics>(m: &Matrix3, v: F64) -> (r: Matrix3)
    ensures
        deterministic::<N>() ==> r == scaled::<N>(*m, v),
{
    Matrix3 {
        m11: times::<N>(m.m11, v),
        m12: times::<N>(m.m12, v),
        m13: times::<N>(m.m13, v),
        m21: times::<N>(m.m21, v),
        m22: times::<N>(m.m22, v),
        m23: times::<N>(m.m23, v),
        m31: times::<N>(m.m31, v),
        m32: times::<N>(m.m32, v),
        m33: times::<N>(m.m33, v),
    }
}

/// The match that a finished run gives for a query of `n` points.
pub open spec fn rated<N: Numerics>(s: IcpState, n: nat, cfg: IcpConfig) -> MatchResult {
    let one = F64 { bits: ONE };
    let inliers = float_of_len::<N>(s.normal.inliers as nat);
    let ratio = quotient::<N>(inliers, float_of_len::<N>(n));
    let rmse = root_of::<N>(quotient::<N>(s.normal.sse, inliers.max(one)));
    let dof = difference::<N>(product::<N>(F64 { bits: TWO }, inliers), F64 { bits: THREE }).max(
        one,
    );
    let sigma2 = quotient::<N>(s.normal.sse, dof).max(F64 { bits: LEAST_VARIANCE });
    MatchResult {
        pose: s.pose,
        covariance: match inverse_of::<N>(s.normal.hessian) {
            Some(inv) => scaled::<N>(inv, sigma2),
            None => diagonal(F64 { bits: UNKNOWN_VARIANCE }),
        },
        score: product::<N>(
            ratio,
            exp_of::<N>(quotient::<N>(rmse.negated(), cfg.score_sigma_m)),
        ).clamped(F64 { bits: 0 }, one),
        iterations: s.iterations,
        converged: s.converged && cfg.min_inlier_ratio.le(ratio),
    }
}

/// Rate a finished run.
pub fn rate<N: Numerics>(s: &IcpState, n: usize, cfg: &IcpConfig) -> (r: MatchResult)
    ensures
        deterministic::<N>() ==> r == rated::<N>(*s, n as nat, *cfg),
        r.pose == s.pose,
        r.iterations == s.iterations,
        r.converged ==> s.converged,
        r.score.is_nan() || ((F64 { bits: 0 }).le(r.score) && r.score.le(F64 { bits: ONE })),
{
    let one = F64 { bits: ONE };
    let inliers = len_as_f64::<N>(s.normal.inliers);
    let ratio = over::<N>(inliers, len_as_f64::<N>(n));
    let rmse = sqrt::<N>(over::<N>(s.normal.sse, inliers.max(one)));
    let score = times::<N>(ratio, exp::<N>(over::<N>(rmse.negated(), cfg.score_sigma_m))).clamp(
        F64 { bits: 0 },
        one,
    );
    let dof = minus::<N>(times::<N>(F64 { bits: TWO }, inliers), F64 { bits: THREE }).max(one);
    let sigma2 = over::<N>(s.normal.sse, dof).max(F64 { bits: LEAST_VARIANCE });
    let covariance = match try_inverse::<N>(s.normal.hessian) {
        Some(inv) => scale::<N>(&inv, sigma2),
        None => diagonal(F64 { bits: UNKNOWN_VARIANCE }),
    };
    MatchResult {
        pose: s.pose,
        covariance,
        score,
        iterations: s.iterations,
        converged: s.converged && cfg.min_inlier_ratio.le(ratio),
    }
}

/// The finite points, in order.
pub open spec fn finite_points(points: Seq<Point2>) -> Seq<Point2> {
    points.filter(|p: Point2| p.is_finite())
}

/// Collect the finite points.
fn collect_finite(points: &Vec<Point2>) -> (r: Vec<Point2>)
    ensures
        r@ == finite_points(points@),
{
    let mut out: Vec<Point2> = Vec::new();
    let ghost pred = |p: Point2| p.is_finite();
    proof {
        reveal(Seq::filter);
    }
    for i in 0..points.len()
        invariant
            pred == (|p: Point2| p.is_finite()),
            out@ == points@.take(i as int).filter(pred),
    {
        let p = points[i];
        proof {
            reveal(Seq::filter);
            assert(points@.take(i + 1).drop_last() =~= points@.take(i as int));
            assert(points@.take(i + 1).last() == p);
        }
        if p.is_finite() {
            out.push(p);
        }
    }
    proof {
        assert(points@.take(points@.len() as int) =~= points@);
    }
    out
}

/// Why two scans cannot be matched at all, if they cannot.
pub open spec fn input_fault(reference: Seq<Point2>, query: Seq<Point2>, cfg: IcpConfig) -> Option<
    SlamError,
> {
    if reference.len() < cfg.min_points || query.len() < cfg.min_points {
        Some(
            SlamError::MatchFailed {
                reason: Reason::TooFewPoints {
                    reference: reference.len() as usize,
                    query: query.len() as usize,
                    need: cfg.min_points,
                },
            },
        )
    } else if finite_points(reference).len() < cfg.min_points {
        Some(SlamError::MatchFailed { reason: Reason::TooFewFiniteReference })
    } else {
        None
    }
}

/// Point-to-point ICP scan matcher.
///
/// Fast and precise when the initial guess is within roughly half the scan's
/// feature spacing; diverges silently otherwise (use
/// [`crate::matcher::csm::CorrelativeMatcher`] when no good guess exists).
#[derive(Debug, Clone, Copy)]
pub struct IcpMatcher {
    config: IcpConfig,
}

impl Default for IcpMatcher {
    fn default() -> (r: IcpMatcher)
        ensures
            r.spec_config() == IcpConfig::standard(),
    {
        IcpMatcher { config: IcpConfig::default() }
    }
}

impl IcpMatcher {
    /// The active configuration.
    pub closed spec fn spec_config(&self) -> IcpConfig {
        self.config
    }

    /// Create a matcher with the given configuration.
    pub fn new(config: IcpConfig) -> (r: IcpMatcher)
        ensures
            r.spec_config() == config,
    {
        IcpMatcher { config }
    }

    /// The active configuration.
    pub fn config(&self) -> (r: &IcpConfig)
        ensures
            *r == self.spec_config(),
    {
        &self.config
    }

    /// Match two point lists; what [`ScanMatcher::match_scans`] does.
    pub fn match_points<N: Numerics>(
        &self,
        reference: &Vec<Point2>,
        query: &Vec<Point2>,
        guess: &Pose2,
    ) -> (r: Result<MatchResult, SlamError>)
        ensures
            deterministic::<N>() ==> r == icp_matched::<N>(
                reference@,
                query@,
                *guess,
                self.spec_config(),
            ),
            input_fault(reference@, query@, self.spec_config()) matches Some(e) ==> r == Err::<
                MatchResult,
                SlamError,
            >(e),
            r matches Ok(m) ==> m.iterations <= self.spec_config().max_iterations,
            r matches Err(e) ==> e is MatchFailed,
    {
        let cfg = &self.config;
        if reference.len() < cfg.min_points || query.len() < cfg.min_points {
            return Err(
                SlamError::MatchFailed {
                    reason: Reason::TooFewPoints {
                        reference: reference.len(),
                        query: query.len(),
                        need: cfg.min_points,
                    },
                },
            );
        }
        let entries = collect_finite(reference);
        if entries.len() < cfg.min_points {
            return Err(SlamError::MatchFailed { reason: Reason::TooFewFiniteReference });
        }
        match iterate::<N>(guess, &entries, query, cfg) {
            Err(e) => Err(e),
            Ok(s) => Ok(rate::<N>(&s, query.len(), cfg)),
        }
    }
}

/// What ICP makes of two point lists and a guess.
pub open spec fn icp_matched<N: Numerics>(
    reference: Seq<Point2>,
    query: Seq<Point2>,
    guess: Pose2,
    cfg: IcpConfig,
) -> Result<MatchResult, SlamError> {
    let entries = finite_points(reference);
    match input_fault(reference, query, cfg) {
        Some(e) => Err(e),
        None => match run::<N>(
            guess,
            tree_of::<N>(entries),
            entries,
            query,
            cfg,
            cfg.max_iterations as nat,
        ) {
            Err(e) => Err(e),
            Ok(s) => Ok(rated::<N>(s, query.len(), cfg)),
        },
    }
}

impl<N: Numerics> ScanMatcher<N> for IcpMatcher {
    open spec fn ready(&self) -> bool {
        true
    }

    open spec fn answer(
        &self,
        reference: Seq<Point2>,
        query: Seq<Point2>,
        guess: Pose2,
    ) -> Result<MatchResult, SlamError> {
        icp_matched::<N>(reference, query, guess, self.spec_config())
    }

    open spec fn allows(
        &self,
        reference: Seq<Point2>,
        query: Seq<Point2>,
        r: Result<MatchResult, SlamError>,
    ) -> bool {
        match input_fault(reference, query, self.spec_config()) {
            Some(e) => r == Err::<MatchResult, SlamError>(e),
            None => match r {
                Ok(m) => m.iterations <= self.spec_config().max_iterations,
                Err(e) => e is MatchFailed,
            },
        }
    }

    fn match_scans(
        &self,
        reference: &ScanCloud,
        query: &ScanCloud,
        initial_guess: &Pose2,
    ) -> (r: Result<MatchResult, SlamError>) {
        self.match_points::<N>(&reference.points, &query.points, initial_guess)
    }
}

/// A run makes at most the allowed number of iterations, and fewer only if it
/// converged.
pub proof fn law_iterations_are_bounded<N: Numerics>(
    guess: Pose2,
    tree: N::Tree,
    entries: Seq<Point2>,
    query: Seq<Point2>,
    cfg: IcpConfig,
    n: nat,
)
    requires
        n <= cfg.max_iterations,
    ensures
        run::<N>(guess, tree, entries, query, cfg, n) matches Ok(s) ==> s.iterations <= n && (
        s.iterations < n ==> s.converged),
    decreases n,
{
    if n > 0 {
        law_iterations_are_bounded::<N>(guess, tree, entries, query, cfg, (n - 1) as nat);
    }
}

/// A match of which too few query points found a partner is not converged.
pub proof fn law_few_inliers_is_not_converged<N: Numerics>(s: IcpState, n: nat, cfg: IcpConfig)
    requires
        quotient::<N>(
            float_of_len::<N>(s.normal.inliers as nat),
            float_of_len::<N>(n),
        ).lt(cfg.min_inlier_ratio),
    ensures
        !rated::<N>(s, n, cfg).converged,
{
}

} // verus!
