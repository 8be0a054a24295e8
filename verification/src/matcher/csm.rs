//! Correlative scan matching (CSM) after Olson 2009, "Real-Time Correlative Scan
//! Matching".
//!
//! CSM aligns a query scan to a likelihood field by evaluating a cost function
//! over a bounded 3D search window — translation in x and y, rotation in θ — and
//! taking the numerical maximum. Unlike ICP it needs no good initial guess, and
//! its runtime is bounded by the window, not by the data.
//!
//! Two-level search: a coarse pass over a max-pooled field (optimistic, so
//! candidates are never pruned by pooling), then fine refinement with bilinear
//! interpolation around the best coarse candidates. [`search`] runs the stages one
//! after the other; [`eval_theta`] and [`refine_one`] are independent for each
//! rotation and each candidate, so a caller may also run them in parallel.

use vstd::arithmetic::div_mod::{lemma_div_pos_is_pos, lemma_fundamental_div_mod_converse};
use vstd::arithmetic::power2::{lemma2_to64_rest, lemma_pow2_adds, lemma_pow2_pos};
use vstd::prelude::*;

use crate::accuracy::{lemma_absolute_units, near, size};
use crate::algebra::{
    half_turn, is_angle, law_wrapping_keeps_the_heading, lemma_angle_range, lemma_half_turn,
    lemma_headings_add, lemma_near_is_heading, same_heading, Precision,
};
use crate::convert::{floor_to_i64, floored};
use crate::error::{Reason, SlamError};
use crate::float::{law_order_is_value_order, unit, F64};
use crate::grid::cellmath::ONE;
use crate::grid::lemma_index_in_grid;
use crate::matcher::likelihood::{extent, field_of, pooled, FieldModel, LikelihoodField};
use crate::matcher::{
    as_f64, diagonal, float_of_count, float_of_len, len_as_f64, MatchResult, ScanMatcher,
    UNKNOWN_VARIANCE,
};
use crate::matrix::{Matrix3, Vector3};
use crate::numerics::{
    deterministic, difference, floor, floor_of, minus, over, plus, power_of, powi, product,
    quotient, sum, times, widen, widen_of, Numerics,
};
use crate::order::{lemma_order_len, ordered, stable_order};
use crate::pose::{normalize_angle, within_turn, wrapped, Point2, Pose2, PI};
use crate::scan::ScanCloud;

verus! {

/// -1: below every score.
pub const BELOW: u64 = 0xbff0_0000_0000_0000;

/// 2.
pub const TWO: u64 = 0x4000_0000_0000_0000;

/// 4.
pub const FOUR: u64 = 0x4010_0000_0000_0000;

/// 0.2: part of the field margin, metres.
pub const MARGIN_M: u64 = 0x3fc9_9999_9999_999a;

/// 12: the divisor that turns a squared step into its quantization variance.
pub const TWELVE: u64 = 0x4028_0000_0000_0000;

/// -10^-12: a curvature above this is no peak.
pub const FLAT: u64 = 0xbd71_9799_812d_ea11;

/// 10^-6: a weight below this is left out of the covariance.
pub const LEAST_WEIGHT: u64 = 0x3eb0_c6f7_a0b5_ed8d;

/// Tunables for correlative scan matching. Distances in metres, angles in
/// radians.
#[derive(Debug, Clone, Copy, PartialEq, Eq, Structural)]
pub struct CsmConfig {
    /// Half-width of the translation search window in x, metres. Default `0.5`.
    pub search_x_m: F64,
    /// Half-width of the translation search window in y, metres. Default `0.5`.
    pub search_y_m: F64,
    /// Half-width of the rotation search window, radians. Default `0.35` (~20°).
    pub search_theta_rad: F64,
    /// Rotation step of the fine search, radians. Default `0.005` (~0.29°).
    pub angular_step_rad: F64,
    /// Coarse rotation step = `angular_step_rad × this`. Default `5`.
    pub angular_coarse_factor: usize,
    /// Translation step of the fine search, metres. Default `0.01`.
    pub linear_step_m: F64,
    /// Likelihood field raster resolution, metres. Default `0.03`.
    pub field_resolution_m: F64,
    /// Gaussian smoothing σ of the likelihood field, metres. Default `0.08`.
    pub sigma_m: F64,
    /// Coarse translation cells = `field_resolution_m × this`. Default `8`.
    pub coarse_factor: usize,
    /// Number of coarse candidates refined at fine resolution. Default `5`.
    pub refine_top_k: usize,
    /// Score below which the result is flagged not-converged. Default `0.25`.
    pub min_score: F64,
    /// Maximum likelihood-field cells. Default `4_000_000`.
    pub max_field_cells: usize,
    /// Maximum accepted query points. Default `4096`.
    pub max_points: usize,
}

impl CsmConfig {
    /// The default values.
    pub open spec fn standard() -> CsmConfig {
        CsmConfig {
            search_x_m: F64 { bits: 0x3fe0_0000_0000_0000 },
            search_y_m: F64 { bits: 0x3fe0_0000_0000_0000 },
            search_theta_rad: F64 { bits: 0x3fd6_6666_6666_6666 },
            angular_step_rad: F64 { bits: 0x3f74_7ae1_47ae_147b },
            angular_coarse_factor: 5,
            linear_step_m: F64 { bits: 0x3f84_7ae1_47ae_147b },
            field_resolution_m: F64 { bits: 0x3f9e_b851_eb85_1eb8 },
            sigma_m: F64 { bits: 0x3fb4_7ae1_47ae_147b },
            coarse_factor: 8,
            refine_top_k: 5,
            min_score: F64 { bits: 0x3fd0_0000_0000_0000 },
            max_field_cells: 4_000_000,
            max_points: 4096,
        }
    }

    /// A wide-window variant for loop-closure verification, where the pose prior
    /// is weak: ±`radius_m` translation, ±π rotation.
    pub fn wide(radius_m: F64) -> (r: CsmConfig)
        ensures
            r == (CsmConfig {
                search_x_m: radius_m,
                search_y_m: radius_m,
                search_theta_rad: F64 { bits: PI },
                angular_step_rad: F64 { bits: 0x3f84_7ae1_47ae_147b },
                ..CsmConfig::standard()
            }),
            r.usable(),
    {
        CsmConfig {
            search_x_m: radius_m,
            search_y_m: radius_m,
            search_theta_rad: F64 { bits: PI },
            angular_step_rad: F64 { bits: 0x3f84_7ae1_47ae_147b },
            ..CsmConfig::default()
        }
    }

    /// Neither fine step is negative or a NaN.
    pub open spec fn usable(self) -> bool {
        &&& (F64 { bits: 0 }).le(self.linear_step_m)
        &&& (F64 { bits: 0 }).le(self.angular_step_rad)
    }
}

impl Default for CsmConfig {
    fn default() -> (r: CsmConfig)
        ensures
            r == CsmConfig::standard(),
            r.usable(),
    {
        CsmConfig {
            search_x_m: F64 { bits: 0x3fe0_0000_0000_0000 },
            search_y_m: F64 { bits: 0x3fe0_0000_0000_0000 },
            search_theta_rad: F64 { bits: 0x3fd6_6666_6666_6666 },
            angular_step_rad: F64 { bits: 0x3f74_7ae1_47ae_147b },
            angular_coarse_factor: 5,
            linear_step_m: F64 { bits: 0x3f84_7ae1_47ae_147b },
            field_resolution_m: F64 { bits: 0x3f9e_b851_eb85_1eb8 },
            sigma_m: F64 { bits: 0x3fb4_7ae1_47ae_147b },
            coarse_factor: 8,
            refine_top_k: 5,
            min_score: F64 { bits: 0x3fd0_0000_0000_0000 },
            max_field_cells: 4_000_000,
            max_points: 4096,
        }
    }
}

/// One evaluated candidate: pose offsets relative to the guess plus score.
#[derive(Debug, Clone, Copy, PartialEq, Eq, Structural)]
pub struct Candidate {
    /// Offset in x, metres.
    pub dx: F64,
    /// Offset in y, metres.
    pub dy: F64,
    /// Rotation offset, radians.
    pub dtheta: F64,
    /// Mean likelihood of the query points.
    pub score: F64,
}

// ---- Search window ----

/// How many steps fit: the floor, or none if that is no count.
pub open spec fn step_number(steps: F64) -> u64 {
    match floored(steps) {
        Some(v) => if 0 <= v <= usize::MAX {
            v as u64
        } else {
            0
        },
        None => 0,
    }
}

/// The sample offsets `-n·step ..= n·step` that cover ±`half_width`.
pub open spec fn offsets<N: Numerics>(half_width: F64, step: F64) -> Seq<F64> {
    let n = step_number(floor_of::<N>(quotient::<N>(half_width, step)));
    Seq::new(
        (2 * n + 1) as nat,
        |i: int|
            product::<N>(
                step,
                difference::<N>(float_of_count::<N>(i as u64), float_of_count::<N>(n)),
            ),
    )
}

/// Compute [`step_number`].
pub fn count_steps(steps: F64) -> (r: u64)
    ensures
        r == step_number(steps),
        r <= 0x20_0000_0000_0000,
{
    match floor_to_i64(steps) {
        Some(v) => if 0 <= v && v as u64 <= usize::MAX as u64 {
            v as u64
        } else {
            0
        },
        None => 0,
    }
}

/// Symmetric sample offsets `-n·step ..= n·step` covering ±`half_width`.
pub fn symmetric_steps<N: Numerics>(half_width: F64, step: F64) -> (r: Vec<F64>)
    ensures
        r@.len() >= 1,
        r@.len() % 2 == 1,
        deterministic::<N>() ==> r@ == offsets::<N>(half_width, step),
{
    let n: u64 = count_steps(floor::<N>(over::<N>(half_width, step)));
    let total: u64 = 2 * n + 1;
    let mut out: Vec<F64> = Vec::new();
    for i in 0..total
        invariant
            total == 2 * n + 1,
            out@.len() == i,
            deterministic::<N>() ==> forall|k: int|
                0 <= k < i ==> #[trigger] out@[k] == product::<N>(
                    step,
                    difference::<N>(float_of_count::<N>(k as u64), float_of_count::<N>(n)),
                ),
    {
        out.push(times::<N>(step, minus::<N>(as_f64::<N>(i), as_f64::<N>(n))));
    }
    proof {
        if deterministic::<N>() {
            assert(out@ =~= offsets::<N>(half_width, step));
        }
    }
    out
}

/// The query points in the world frame, at the guess pose rotated by `dtheta`.
pub open spec fn turned<N: Numerics>(query: Seq<Point2>, guess: Pose2, dtheta: F64) -> Seq<Point2> {
    let pose = Pose2::normalized::<N>(
        guess.x,
        guess.y,
        wrapped::<N>(sum::<N>(guess.theta, dtheta)),
    );
    query.map_values(|p: Point2| pose.transformed::<N>(p))
}

/// Transform the query points into the world frame at the guess pose rotated by
/// an extra `dtheta` (translation applied from the guess; the search adds its
/// own offsets on top).
pub fn rotate_into_world<N: Numerics>(query: &Vec<Point2>, guess: &Pose2, dtheta: F64) -> (r: Vec<
    Point2,
>)
    ensures
        r@.len() == query@.len(),
        deterministic::<N>() ==> r@ == turned::<N>(query@, *guess, dtheta),
{
    let pose = Pose2::new::<N>(
        guess.x,
        guess.y,
        normalize_angle::<N>(plus::<N>(guess.theta, dtheta)),
    );
    let mut out: Vec<Point2> = Vec::new();
    for i in 0..query.len()
        invariant
            out@.len() == i,
            deterministic::<N>() ==> out@ =~= query@.take(i as int).map_values(
                |p: Point2| pose.transformed::<N>(p),
            ),
    {
        out.push(pose.transform_point::<N>(query[i]));
    }
    proof {
        assert(query@.take(query@.len() as int) =~= query@);
    }
    out
}

// ---- Scoring ----

/// The sum of the likelihoods of the first `n` points, moved by `(dx, dy)`:
/// interpolated if `fine`, of the nearest cell if not.
pub open spec fn likelihood_sum<N: Numerics>(
    field: FieldModel,
    points: Seq<Point2>,
    dx: F64,
    dy: F64,
    fine: bool,
    n: nat,
) -> F64
    decreases n,
{
    if n == 0 {
        F64 { bits: 0 }
    } else {
        let before = likelihood_sum::<N>(field, points, dx, dy, fine, (n - 1) as nat);
        let p = points[n - 1];
        let moved = Point2 { x: sum::<N>(p.x, dx), y: sum::<N>(p.y, dy) };
        sum::<N>(
            before,
            widen_of::<N>(
                if fine {
                    field.smooth::<N>(moved)
                } else {
                    field.nearest::<N>(moved)
                },
            ),
        )
    }
}

/// The mean likelihood of `points`, moved by `(dx, dy)`.
pub open spec fn score_of<N: Numerics>(
    field: FieldModel,
    points: Seq<Point2>,
    dx: F64,
    dy: F64,
    fine: bool,
    inv_n: F64,
) -> F64 {
    product::<N>(likelihood_sum::<N>(field, points, dx, dy, fine, points.len()), inv_n)
}

/// Score `points`, moved by `(dx, dy)`.
pub fn score_points<N: Numerics>(
    field: &LikelihoodField,
    points: &Vec<Point2>,
    dx: F64,
    dy: F64,
    fine: bool,
    inv_n: F64,
) -> (r: F64)
    requires
        field@.wf(),
    ensures
        deterministic::<N>() ==> r == score_of::<N>(field@, points@, dx, dy, fine, inv_n),
{
    let mut total = F64 { bits: 0 };
    for i in 0..points.len()
        invariant
            field@.wf(),
            deterministic::<N>() ==> total == likelihood_sum::<N>(
                field@,
                points@,
                dx,
                dy,
                fine,
                i as nat,
            ),
    {
        let p = points[i];
        let moved = Point2::new(plus::<N>(p.x, dx), plus::<N>(p.y, dy));
        let value = if fine {
            field.lookup_bilinear::<N>(moved)
        } else {
            field.lookup::<N>(moved)
        };
        total = plus::<N>(total, widen::<N>(value));
    }
    times::<N>(total, inv_n)
}

/// The candidates of one rotation: every offset of `xs` with every offset of
/// `ys`.
pub open spec fn plane<N: Numerics>(
    field: FieldModel,
    points: Seq<Point2>,
    dtheta: F64,
    xs: Seq<F64>,
    ys: Seq<F64>,
    fine: bool,
    inv_n: F64,
) -> Seq<Candidate> {
    Seq::new(
        (xs.len() * ys.len()) as nat,
        |k: int|
            {
                let dx = xs[k / ys.len() as int];
                let dy = ys[k % ys.len() as int];
                Candidate {
                    dx,
                    dy,
                    dtheta,
                    score: score_of::<N>(field, points, dx, dy, fine, inv_n),
                }
            },
    )
}

/// Evaluate the candidates of one rotation.
fn scan_plane<N: Numerics>(
    field: &LikelihoodField,
    points: &Vec<Point2>,
    dtheta: F64,
    xs: &Vec<F64>,
    ys: &Vec<F64>,
    fine: bool,
    inv_n: F64,
) -> (r: Vec<Candidate>)
    requires
        field@.wf(),
    ensures
        r@.len() == xs@.len() * ys@.len(),
        deterministic::<N>() ==> r@ == plane::<N>(
            field@,
            points@,
            dtheta,
            xs@,
            ys@,
            fine,
            inv_n,
        ),
{
    let ghost expected = plane::<N>(field@, points@, dtheta, xs@, ys@, fine, inv_n);
    let mut out: Vec<Candidate> = Vec::new();
    proof {
        assert(0 * ys@.len() == 0) by (nonlinear_arith);
    }
    for i in 0..xs.len()
        invariant
            field@.wf(),
            expected == plane::<N>(field@, points@, dtheta, xs@, ys@, fine, inv_n),
            out@.len() == i * ys@.len(),
            deterministic::<N>() ==> forall|k: int|
                0 <= k < out@.len() ==> #[trigger] out@[k] == expected[k],
    {
        for j in 0..ys.len()
            invariant
                field@.wf(),
                i < xs@.len(),
                expected == plane::<N>(field@, points@, dtheta, xs@, ys@, fine, inv_n),
                out@.len() == i * ys@.len() + j,
                deterministic::<N>() ==> forall|k: int|
                    0 <= k < out@.len() ==> #[trigger] out@[k] == expected[k],
        {
            let (dx, dy) = (xs[i], ys[j]);
            let score = score_points::<N>(field, points, dx, dy, fine, inv_n);
            proof {
                lemma_index_in_grid(j as int, i as int, ys@.len() as int, xs@.len() as int);
                assert(xs@.len() * ys@.len() == ys@.len() * xs@.len()) by (nonlinear_arith);
            }
            out.push(Candidate { dx, dy, dtheta, score });
        }
        proof {
            assert((i + 1) * ys@.len() == i * ys@.len() + ys@.len()) by (nonlinear_arith);
        }
    }
    proof {
        if deterministic::<N>() {
            assert(out@ =~= expected);
        }
    }
    out
}

/// The first candidate with the greatest score above the seed's, or the seed.
pub open spec fn peak(samples: Seq<Candidate>, seed: Candidate, n: nat) -> Candidate
    decreases n,
{
    if n == 0 {
        seed
    } else {
        let before = peak(samples, seed, (n - 1) as nat);
        if before.score.lt(samples[n - 1].score) {
            samples[n - 1]
        } else {
            before
        }
    }
}

/// Find the [`peak`].
pub fn find_peak(samples: &Vec<Candidate>, seed: Candidate) -> (r: Candidate)
    ensures
        r == peak(samples@, seed, samples@.len()),
{
    let mut best = seed;
    for i in 0..samples.len()
        invariant
            best == peak(samples@, seed, i as nat),
    {
        let s = samples[i];
        if best.score.lt(s.score) {
            best = s;
        }
    }
    best
}

// ---- Coarse stage ----

/// The best coarse candidate of one rotation.
pub open spec fn best_at<N: Numerics>(
    coarse: FieldModel,
    query: Seq<Point2>,
    guess: Pose2,
    xs: Seq<F64>,
    ys: Seq<F64>,
    inv_n: F64,
    dtheta: F64,
) -> Candidate {
    let samples = plane::<N>(
        coarse,
        turned::<N>(query, guess, dtheta),
        dtheta,
        xs,
        ys,
        false,
        inv_n,
    );
    peak(
        samples,
        Candidate {
            dx: F64 { bits: 0 },
            dy: F64 { bits: 0 },
            dtheta,
            score: F64 { bits: BELOW },
        },
        samples.len(),
    )
}

/// Evaluate one coarse rotation over the whole translation window.
pub fn eval_theta<N: Numerics>(
    coarse: &LikelihoodField,
    query: &Vec<Point2>,
    guess: &Pose2,
    xs: &Vec<F64>,
    ys: &Vec<F64>,
    inv_n: F64,
    dtheta: F64,
) -> (r: Candidate)
    requires
        coarse@.wf(),
    ensures
        !r.score.is_nan(),
        deterministic::<N>() ==> r == best_at::<N>(
            coarse@,
            query@,
            *guess,
            xs@,
            ys@,
            inv_n,
            dtheta,
        ),
{
    let points = rotate_into_world::<N>(query, guess, dtheta);
    let samples = scan_plane::<N>(coarse, &points, dtheta, xs, ys, false, inv_n);
    let seed = Candidate {
        dx: F64 { bits: 0 },
        dy: F64 { bits: 0 },
        dtheta,
        score: F64 { bits: BELOW },
    };
    proof {
        law_peak_is_greatest(samples@, seed, samples@.len());
    }
    find_peak(&samples, seed)
}

/// Translation step of the coarse search.
pub open spec fn coarse_step<N: Numerics>(cfg: CsmConfig) -> F64 {
    product::<N>(cfg.field_resolution_m, float_of_count::<N>(cfg.coarse_factor as u64))
}

/// Rotation step of the coarse search.
pub open spec fn coarse_turn<N: Numerics>(cfg: CsmConfig) -> F64 {
    product::<N>(cfg.angular_step_rad, float_of_count::<N>(cfg.angular_coarse_factor as u64))
}

/// One over the number of query points.
pub open spec fn inverse_len<N: Numerics>(n: nat) -> F64 {
    quotient::<N>(F64 { bits: ONE }, float_of_len::<N>(n))
}

/// Everything that the two stages need to know of the window.
#[derive(Debug)]
pub struct SearchPlan {
    /// The pooled field of the coarse stage.
    pub coarse: LikelihoodField,
    /// One over the number of query points.
    pub inv_n: F64,
    /// Coarse rotations.
    pub thetas: Vec<F64>,
    /// Coarse offsets in x.
    pub xs: Vec<F64>,
    /// Coarse offsets in y.
    pub ys: Vec<F64>,
    /// Fine offsets in x and y, relative to a coarse candidate.
    pub dxs: Vec<F64>,
    /// Fine rotations, relative to a coarse candidate.
    pub dts: Vec<F64>,
}

impl SearchPlan {
    /// A valid field and windows that are not empty.
    pub open spec fn wf(&self) -> bool {
        &&& self.coarse@.wf()
        &&& self.thetas@.len() >= 1
        &&& self.xs@.len() >= 1
        &&& self.ys@.len() >= 1
        &&& self.dxs@.len() >= 1
        &&& self.dts@.len() >= 1
    }

    /// The plan follows from a field, a configuration and the number of query
    /// points.
    pub open spec fn follows<N: Numerics>(&self, field: FieldModel, n: nat, cfg: CsmConfig) -> bool {
        let step = coarse_step::<N>(cfg);
        let turn = coarse_turn::<N>(cfg);
        let two = F64 { bits: TWO };
        let span = sum::<N>(quotient::<N>(step, two), cfg.linear_step_m);
        let theta_span = sum::<N>(quotient::<N>(turn, two), cfg.angular_step_rad);
        &&& self.coarse@ == pooled::<N>(field, cfg.coarse_factor)
        &&& self.inv_n == inverse_len::<N>(n)
        &&& self.thetas@ == offsets::<N>(cfg.search_theta_rad, turn)
        &&& self.xs@ == offsets::<N>(cfg.search_x_m, step)
        &&& self.ys@ == offsets::<N>(cfg.search_y_m, step)
        &&& self.dxs@ == offsets::<N>(span, cfg.linear_step_m)
        &&& self.dts@ == offsets::<N>(theta_span, cfg.angular_step_rad)
    }
}

/// Why a query cannot be searched for, if it cannot.
pub open spec fn query_fault(n: nat, cfg: CsmConfig) -> Option<SlamError> {
    if n == 0 {
        Some(SlamError::MatchFailed { reason: Reason::EmptyQuery })
    } else if n > cfg.max_points {
        Some(SlamError::ScanTooLarge { actual: n as usize, limit: cfg.max_points })
    } else {
        None
    }
}

/// Check a query and lay out its search.
pub fn plan_search<N: Numerics>(field: &LikelihoodField, query: &Vec<Point2>, cfg: &CsmConfig) -> (r:
    Result<SearchPlan, SlamError>)
    requires
        field@.wf(),
    ensures
        match query_fault(query@.len(), *cfg) {
            Some(e) => r == Err::<SearchPlan, SlamError>(e),
            None => r matches Ok(plan) && plan.wf() && (deterministic::<N>() ==> plan.follows::<N>(
                field@,
                query@.len(),
                *cfg,
            )),
        },
{
    if query.len() == 0 {
        return Err(SlamError::MatchFailed { reason: Reason::EmptyQuery });
    }
    if query.len() > cfg.max_points {
        return Err(SlamError::ScanTooLarge { actual: query.len(), limit: cfg.max_points });
    }
    let inv_n = over::<N>(F64 { bits: ONE }, len_as_f64::<N>(query.len()));
    let coarse = field.max_pool::<N>(cfg.coarse_factor);
    let step = times::<N>(cfg.field_resolution_m, as_f64::<N>(cfg.coarse_factor as u64));
    let turn = times::<N>(cfg.angular_step_rad, as_f64::<N>(cfg.angular_coarse_factor as u64));
    let thetas = symmetric_steps::<N>(cfg.search_theta_rad, turn);
    let xs = symmetric_steps::<N>(cfg.search_x_m, step);
    let ys = symmetric_steps::<N>(cfg.search_y_m, step);
    let two = F64 { bits: TWO };
    let span = plus::<N>(over::<N>(step, two), cfg.linear_step_m);
    let theta_span = plus::<N>(over::<N>(turn, two), cfg.angular_step_rad);
    let dxs = symmetric_steps::<N>(span, cfg.linear_step_m);
    let dts = symmetric_steps::<N>(theta_span, cfg.angular_step_rad);
    Ok(SearchPlan { coarse, inv_n, thetas, xs, ys, dxs, dts })
}

/// The scores of candidates, turned round so that the best comes first in
/// ascending order.
pub open spec fn falling(candidates: Seq<Candidate>) -> Seq<F64> {
    candidates.map_values(|c: Candidate| c.score.negated())
}

/// The `k` candidates with the greatest scores (one, if `k` is 0), best first,
/// equal scores in their order.
pub open spec fn top(candidates: Seq<Candidate>, k: usize) -> Seq<Candidate> {
    let order = ordered(falling(candidates), candidates.len());
    let n = if k == 0 {
        1
    } else {
        k as int
    };
    order.take(if n < order.len() {
        n
    } else {
        order.len() as int
    }).map_values(|i: int| candidates[i])
}

/// Select the coarse candidates to refine.
pub fn select_top(candidates: &Vec<Candidate>, k: usize) -> (r: Vec<Candidate>)
    ensures
        r@ == top(candidates@, k),
        candidates@.len() >= 1 ==> r@.len() >= 1,
{
    let mut keys: Vec<F64> = Vec::new();
    for i in 0..candidates.len()
        invariant
            keys@ =~= falling(candidates@.take(i as int)),
    {
        keys.push(candidates[i].score.negated());
    }
    proof {
        assert(candidates@.take(candidates@.len() as int) =~= candidates@);
    }
    let order = stable_order(&keys);
    let wanted: usize = if k == 0 {
        1
    } else {
        k
    };
    let count: usize = if wanted < order.len() {
        wanted
    } else {
        order.len()
    };
    let ghost indices = ordered(falling(candidates@), candidates@.len());
    proof {
        assert(order@.map_values(|i: usize| i as int) == indices);
        assert(indices.len() == order@.len());
    }
    let mut out: Vec<Candidate> = Vec::new();
    for j in 0..count
        invariant
            count <= order@.len(),
            order@.map_values(|i: usize| i as int) == indices,
            forall|i: int| 0 <= i < order@.len() ==> (#[trigger] order@[i]) < candidates@.len(),
            out@.len() == j,
            forall|i: int| 0 <= i < j ==> #[trigger] out@[i] == candidates@[indices[i]],
    {
        proof {
            assert(indices[j as int] == order@[j as int] as int);
        }
        out.push(candidates[order[j]]);
    }
    proof {
        assert(out@ =~= top(candidates@, k));
    }
    out
}

// ---- Fine stage ----

/// `base + d` for every `d`.
pub open spec fn shifted<N: Numerics>(base: F64, ds: Seq<F64>) -> Seq<F64> {
    ds.map_values(|d: F64| sum::<N>(base, d))
}

/// Compute [`shifted`].
fn shift<N: Numerics>(base: F64, ds: &Vec<F64>) -> (r: Vec<F64>)
    ensures
        r@.len() == ds@.len(),
        deterministic::<N>() ==> r@ == shifted::<N>(base, ds@),
{
    let mut out: Vec<F64> = Vec::new();
    for i in 0..ds.len()
        invariant
            out@.len() == i,
            deterministic::<N>() ==> out@ =~= shifted::<N>(base, ds@.take(i as int)),
    {
        out.push(plus::<N>(base, ds[i]));
    }
    proof {
        assert(ds@.take(ds@.len() as int) =~= ds@);
    }
    out
}

/// The fine samples around a candidate, for the first `n` fine rotations.
pub open spec fn fine_samples<N: Numerics>(
    field: FieldModel,
    query: Seq<Point2>,
    guess: Pose2,
    inv_n: F64,
    dxs: Seq<F64>,
    dts: Seq<F64>,
    around: Candidate,
    n: nat,
) -> Seq<Candidate>
    decreases n,
{
    if n == 0 {
        Seq::empty()
    } else {
        let dtheta = sum::<N>(around.dtheta, dts[n - 1]);
        fine_samples::<N>(field, query, guess, inv_n, dxs, dts, around, (n - 1) as nat)
            + plane::<N>(
            field,
            turned::<N>(query, guess, dtheta),
            dtheta,
            shifted::<N>(around.dx, dxs),
            shifted::<N>(around.dy, dxs),
            true,
            inv_n,
        )
    }
}

/// A refined candidate with all samples taken around it.
#[derive(Debug)]
pub struct Refined {
    /// The best sample.
    pub best: Candidate,
    /// All samples.
    pub samples: Vec<Candidate>,
}

/// What a [`Refined`] holds.
pub ghost struct RefinedModel {
    /// The best sample.
    pub best: Candidate,
    /// All samples.
    pub samples: Seq<Candidate>,
}

impl View for Refined {
    type V = RefinedModel;

    open spec fn view(&self) -> RefinedModel {
        RefinedModel { best: self.best, samples: self.samples@ }
    }
}

/// The refinement of a candidate.
pub open spec fn refinement<N: Numerics>(
    field: FieldModel,
    query: Seq<Point2>,
    guess: Pose2,
    inv_n: F64,
    dxs: Seq<F64>,
    dts: Seq<F64>,
    around: Candidate,
) -> RefinedModel {
    let samples = fine_samples::<N>(field, query, guess, inv_n, dxs, dts, around, dts.len());
    RefinedModel {
        best: peak(
            samples,
            Candidate { score: F64 { bits: BELOW }, ..around },
            samples.len(),
        ),
        samples,
    }
}

/// Refine one coarse candidate with bilinear scoring around it.
pub fn refine_one<N: Numerics>(
    field: &LikelihoodField,
    query: &Vec<Point2>,
    guess: &Pose2,
    plan: &SearchPlan,
    around: &Candidate,
) -> (r: Refined)
    requires
        field@.wf(),
    ensures
        !r.best.score.is_nan(),
        deterministic::<N>() ==> r@ == refinement::<N>(
            field@,
            query@,
            *guess,
            plan.inv_n,
            plan.dxs@,
            plan.dts@,
            *around,
        ),
{
    let xs = shift::<N>(around.dx, &plan.dxs);
    let ys = shift::<N>(around.dy, &plan.dxs);
    let mut samples: Vec<Candidate> = Vec::new();
    for a in 0..plan.dts.len()
        invariant
            field@.wf(),
            deterministic::<N>() ==> xs@ == shifted::<N>(around.dx, plan.dxs@) && ys@ == shifted::<
                N,
            >(around.dy, plan.dxs@),
            deterministic::<N>() ==> samples@ == fine_samples::<N>(
                field@,
                query@,
                *guess,
                plan.inv_n,
                plan.dxs@,
                plan.dts@,
                *around,
                a as nat,
            ),
    {
        let dtheta = plus::<N>(around.dtheta, plan.dts[a]);
        let points = rotate_into_world::<N>(query, guess, dtheta);
        let mut layer = scan_plane::<N>(field, &points, dtheta, &xs, &ys, true, plan.inv_n);
        samples.append(&mut layer);
    }
    let seed = Candidate { score: F64 { bits: BELOW }, ..*around };
    proof {
        law_peak_is_greatest(samples@, seed, samples@.len());
    }
    let best = find_peak(&samples, seed);
    Refined { best, samples }
}

// ---- Sub-step refinement ----

/// The offset of the vertex of the parabola through three scores a step apart,
/// at most one step; 0 where they show no peak.
pub open spec fn vertex_of<N: Numerics>(below: F64, at: F64, above: F64, step: F64) -> F64 {
    let two = F64 { bits: TWO };
    let bend = difference::<N>(sum::<N>(above, below), product::<N>(two, at));
    if bend.lt(F64 { bits: FLAT }) {
        quotient::<N>(
            product::<N>(step, difference::<N>(below, above)),
            product::<N>(two, bend),
        ).clamped(step.negated(), step)
    } else {
        F64 { bits: 0 }
    }
}

/// Compute [`vertex_of`].
pub fn vertex<N: Numerics>(below: F64, at: F64, above: F64, step: F64) -> (r: F64)
    requires
        (F64 { bits: 0 }).le(step),
    ensures
        deterministic::<N>() ==> r == vertex_of::<N>(below, at, above, step),
        r.is_nan() || (step.negated().le(r) && r.le(step)),
{
    let two = F64 { bits: TWO };
    let bend = minus::<N>(plus::<N>(above, below), times::<N>(two, at));
    if bend.lt(F64 { bits: FLAT }) {
        over::<N>(times::<N>(step, minus::<N>(below, above)), times::<N>(two, bend)).clamp(
            step.negated(),
            step,
        )
    } else {
        F64 { bits: 0 }
    }
}

/// The interpolated score of an offset.
pub open spec fn fine_score<N: Numerics>(
    field: FieldModel,
    query: Seq<Point2>,
    guess: Pose2,
    inv_n: F64,
    c: Candidate,
) -> F64 {
    score_of::<N>(field, turned::<N>(query, guess, c.dtheta), c.dx, c.dy, true, inv_n)
}

/// Compute [`fine_score`].
fn score_at<N: Numerics>(
    field: &LikelihoodField,
    query: &Vec<Point2>,
    guess: &Pose2,
    inv_n: F64,
    c: &Candidate,
) -> (r: F64)
    requires
        field@.wf(),
    ensures
        deterministic::<N>() ==> r == fine_score::<N>(field@, query@, *guess, inv_n, *c),
{
    let points = rotate_into_world::<N>(query, guess, c.dtheta);
    score_points::<N>(field, &points, c.dx, c.dy, true, inv_n)
}

/// A candidate moved to the vertex along x, then y, then θ.
pub open spec fn sharpened<N: Numerics>(
    field: FieldModel,
    query: Seq<Point2>,
    guess: Pose2,
    inv_n: F64,
    cfg: CsmConfig,
    best: Candidate,
) -> Candidate {
    let (lin, ang) = (cfg.linear_step_m, cfg.angular_step_rad);
    let a = Candidate {
        dx: sum::<N>(
            best.dx,
            vertex_of::<N>(
                fine_score::<N>(
                    field,
                    query,
                    guess,
                    inv_n,
                    Candidate { dx: difference::<N>(best.dx, lin), ..best },
                ),
                best.score,
                fine_score::<N>(
                    field,
                    query,
                    guess,
                    inv_n,
                    Candidate { dx: sum::<N>(best.dx, lin), ..best },
                ),
                lin,
            ),
        ),
        ..best
    };
    let b = Candidate {
        dy: sum::<N>(
            a.dy,
            vertex_of::<N>(
                fine_score::<N>(
                    field,
                    query,
                    guess,
                    inv_n,
                    Candidate { dy: difference::<N>(a.dy, lin), ..a },
                ),
                a.score,
                fine_score::<N>(
                    field,
                    query,
                    guess,
                    inv_n,
                    Candidate { dy: sum::<N>(a.dy, lin), ..a },
                ),
                lin,
            ),
        ),
        ..a
    };
    let c = Candidate {
        dtheta: sum::<N>(
            b.dtheta,
            vertex_of::<N>(
                fine_score::<N>(
                    field,
                    query,
                    guess,
                    inv_n,
                    Candidate { dtheta: difference::<N>(b.dtheta, ang), ..b },
                ),
                b.score,
                fine_score::<N>(
                    field,
                    query,
                    guess,
                    inv_n,
                    Candidate { dtheta: sum::<N>(b.dtheta, ang), ..b },
                ),
                ang,
            ),
        ),
        ..b
    };
    Candidate { score: c.score.max(fine_score::<N>(field, query, guess, inv_n, c)), ..c }
}

/// Sub-step parabolic refinement: fit a 1D parabola through the score at best ±
/// one step along each axis and move to its vertex. Pushes accuracy well below
/// the search step on smooth score surfaces.
pub fn parabolic_refine<N: Numerics>(
    field: &LikelihoodField,
    query: &Vec<Point2>,
    guess: &Pose2,
    inv_n: F64,
    cfg: &CsmConfig,
    best: Candidate,
) -> (r: Candidate)
    requires
        field@.wf(),
        cfg.usable(),
    ensures
        deterministic::<N>() ==> r == sharpened::<N>(field@, query@, *guess, inv_n, *cfg, best),
        !best.score.is_nan() ==> best.score.le(r.score),
{
    let (lin, ang) = (cfg.linear_step_m, cfg.angular_step_rad);
    let below = score_at::<N>(
        field,
        query,
        guess,
        inv_n,
        &Candidate { dx: minus::<N>(best.dx, lin), ..best },
    );
    let above = score_at::<N>(
        field,
        query,
        guess,
        inv_n,
        &Candidate { dx: plus::<N>(best.dx, lin), ..best },
    );
    let a = Candidate {
        dx: plus::<N>(best.dx, vertex::<N>(below, best.score, above, lin)),
        ..best
    };
    let below = score_at::<N>(
        field,
        query,
        guess,
        inv_n,
        &Candidate { dy: minus::<N>(a.dy, lin), ..a },
    );
    let above = score_at::<N>(
        field,
        query,
        guess,
        inv_n,
        &Candidate { dy: plus::<N>(a.dy, lin), ..a },
    );
    let b = Candidate { dy: plus::<N>(a.dy, vertex::<N>(below, a.score, above, lin)), ..a };
    let below = score_at::<N>(
        field,
        query,
        guess,
        inv_n,
        &Candidate { dtheta: minus::<N>(b.dtheta, ang), ..b },
    );
    let above = score_at::<N>(
        field,
        query,
        guess,
        inv_n,
        &Candidate { dtheta: plus::<N>(b.dtheta, ang), ..b },
    );
    let c = Candidate {
        dtheta: plus::<N>(b.dtheta, vertex::<N>(below, b.score, above, ang)),
        ..b
    };
    let score = c.score.max(score_at::<N>(field, query, guess, inv_n, &c));
    Candidate { score, ..c }
}

// ---- Covariance ----

/// Weighted moments of samples.
#[derive(Debug, Clone, Copy, PartialEq, Eq, Structural)]
pub struct Moments {
    /// Sum of the weights.
    pub weight: F64,
    /// Weighted sum of the offsets.
    pub first: Vector3,
    /// Weighted sum of the offsets' outer products.
    pub second: Matrix3,
}

/// No moments yet.
#[verifier::allow_in_spec]
pub fn no_moments() -> Moments
    returns
        (Moments {
            weight: F64 { bits: 0 },
            first: Vector3 { x: F64 { bits: 0 }, y: F64 { bits: 0 }, z: F64 { bits: 0 } },
            second: diagonal(F64 { bits: 0 }),
        }),
{
    let zero = F64 { bits: 0 };
    Moments {
        weight: zero,
        first: Vector3 { x: zero, y: zero, z: zero },
        second: diagonal(zero),
    }
}

/// The weight of a sample: its score relative to the best, sharpened so that the
/// covariance reflects the peak and not the whole window.
pub open spec fn weight_of<N: Numerics>(s: Candidate, best: F64) -> F64 {
    power_of::<N>(
        quotient::<N>(s.score, best).clamped(F64 { bits: 0 }, F64 { bits: ONE }),
        8,
    )
}

/// `a + w·u·v`.
pub open spec fn weighed<N: Numerics>(a: F64, w: F64, u: F64, v: F64) -> F64 {
    sum::<N>(a, product::<N>(product::<N>(w, u), v))
}

/// Compute [`weighed`].
fn weigh<N: Numerics>(a: F64, w: F64, u: F64, v: F64) -> (r: F64)
    ensures
        deterministic::<N>() ==> r == weighed::<N>(a, w, u, v),
{
    plus::<N>(a, times::<N>(times::<N>(w, u), v))
}

/// Moments with one more sample; a sample of negligible weight is left out.
pub open spec fn with_sample<N: Numerics>(m: Moments, s: Candidate, best: F64) -> Moments {
    let w = weight_of::<N>(s, best);
    let (x, y, t) = (s.dx, s.dy, s.dtheta);
    if w.lt(F64 { bits: LEAST_WEIGHT }) {
        m
    } else {
        Moments {
            weight: sum::<N>(m.weight, w),
            first: Vector3 {
                x: sum::<N>(m.first.x, product::<N>(w, x)),
                y: sum::<N>(m.first.y, product::<N>(w, y)),
                z: sum::<N>(m.first.z, product::<N>(w, t)),
            },
            second: Matrix3 {
                m11: weighed::<N>(m.second.m11, w, x, x),
                m12: weighed::<N>(m.second.m12, w, x, y),
                m13: weighed::<N>(m.second.m13, w, x, t),
                m21: weighed::<N>(m.second.m21, w, y, x),
                m22: weighed::<N>(m.second.m22, w, y, y),
                m23: weighed::<N>(m.second.m23, w, y, t),
                m31: weighed::<N>(m.second.m31, w, t, x),
                m32: weighed::<N>(m.second.m32, w, t, y),
                m33: weighed::<N>(m.second.m33, w, t, t),
            },
        }
    }
}

/// Add one sample to moments.
fn add_sample<N: Numerics>(m: Moments, s: &Candidate, best: F64) -> (r: Moments)
    ensures
        deterministic::<N>() ==> r == with_sample::<N>(m, *s, best),
{
    let w = powi::<N>(
        over::<N>(s.score, best).clamp(F64 { bits: 0 }, F64 { bits: ONE }),
        8,
    );
    if w.lt(F64 { bits: LEAST_WEIGHT }) {
        return m;
    }
    let (x, y, t) = (s.dx, s.dy, s.dtheta);
    Moments {
        weight: plus::<N>(m.weight, w),
        first: Vector3 {
            x: plus::<N>(m.first.x, times::<N>(w, x)),
            y: plus::<N>(m.first.y, times::<N>(w, y)),
            z: plus::<N>(m.first.z, times::<N>(w, t)),
        },
        second: Matrix3 {
            m11: weigh::<N>(m.second.m11, w, x, x),
            m12: weigh::<N>(m.second.m12, w, x, y),
            m13: weigh::<N>(m.second.m13, w, x, t),
            m21: weigh::<N>(m.second.m21, w, y, x),
            m22: weigh::<N>(m.second.m22, w, y, y),
            m23: weigh::<N>(m.second.m23, w, y, t),
            m31: weigh::<N>(m.second.m31, w, t, x),
            m32: weigh::<N>(m.second.m32, w, t, y),
            m33: weigh::<N>(m.second.m33, w, t, t),
        },
    }
}

/// Moments with the first `n` samples of one refinement more.
pub open spec fn with_samples<N: Numerics>(
    m: Moments,
    samples: Seq<Candidate>,
    best: F64,
    n: nat,
) -> Moments
    decreases n,
{
    if n == 0 {
        m
    } else {
        with_sample::<N>(
            with_samples::<N>(m, samples, best, (n - 1) as nat),
            samples[n - 1],
            best,
        )
    }
}

/// The moments of all samples of the first `n` refinements.
pub open spec fn moments<N: Numerics>(refined: Seq<RefinedModel>, best: F64, n: nat) -> Moments
    decreases n,
{
    if n == 0 {
        no_moments()
    } else {
        let samples = refined[n - 1].samples;
        with_samples::<N>(
            moments::<N>(refined, best, (n - 1) as nat),
            samples,
            best,
            samples.len(),
        )
    }
}

/// `s / w - u·v`.
pub open spec fn centred<N: Numerics>(s: F64, w: F64, u: F64, v: F64) -> F64 {
    difference::<N>(quotient::<N>(s, w), product::<N>(u, v))
}

/// Compute [`centred`].
fn centre<N: Numerics>(s: F64, w: F64, u: F64, v: F64) -> (r: F64)
    ensures
        deterministic::<N>() ==> r == centred::<N>(s, w, u, v),
{
    minus::<N>(over::<N>(s, w), times::<N>(u, v))
}

/// The variance of a value known to within a step.
pub open spec fn quantization<N: Numerics>(step: F64) -> F64 {
    quotient::<N>(product::<N>(step, step), F64 { bits: TWELVE })
}

/// The covariance that moments give, its diagonal not below the quantization
/// variances of the search steps.
pub open spec fn covariance_of<N: Numerics>(m: Moments, cfg: CsmConfig) -> Matrix3 {
    if m.weight.le(F64 { bits: 0 }) {
        diagonal(F64 { bits: UNKNOWN_VARIANCE })
    } else {
        let w = m.weight;
        let x = quotient::<N>(m.first.x, w);
        let y = quotient::<N>(m.first.y, w);
        let t = quotient::<N>(m.first.z, w);
        let lin = quantization::<N>(cfg.linear_step_m);
        let ang = quantization::<N>(cfg.angular_step_rad);
        Matrix3 {
            m11: centred::<N>(m.second.m11, w, x, x).max(lin),
            m12: centred::<N>(m.second.m12, w, x, y),
            m13: centred::<N>(m.second.m13, w, x, t),
            m21: centred::<N>(m.second.m21, w, y, x),
            m22: centred::<N>(m.second.m22, w, y, y).max(lin),
            m23: centred::<N>(m.second.m23, w, y, t),
            m31: centred::<N>(m.second.m31, w, t, x),
            m32: centred::<N>(m.second.m32, w, t, y),
            m33: centred::<N>(m.second.m33, w, t, t).max(ang),
        }
    }
}

/// Compute [`covariance_of`].
fn covariance_from<N: Numerics>(m: &Moments, cfg: &CsmConfig) -> (r: Matrix3)
    ensures
        deterministic::<N>() ==> r == covariance_of::<N>(*m, *cfg),
{
    if m.weight.le(F64 { bits: 0 }) {
        return diagonal(F64 { bits: UNKNOWN_VARIANCE });
    }
    let w = m.weight;
    let x = over::<N>(m.first.x, w);
    let y = over::<N>(m.first.y, w);
    let t = over::<N>(m.first.z, w);
    let twelve = F64 { bits: TWELVE };
    let lin = over::<N>(times::<N>(cfg.linear_step_m, cfg.linear_step_m), twelve);
    let ang = over::<N>(times::<N>(cfg.angular_step_rad, cfg.angular_step_rad), twelve);
    Matrix3 {
        m11: centre::<N>(m.second.m11, w, x, x).max(lin),
        m12: centre::<N>(m.second.m12, w, x, y),
        m13: centre::<N>(m.second.m13, w, x, t),
        m21: centre::<N>(m.second.m21, w, y, x),
        m22: centre::<N>(m.second.m22, w, y, y).max(lin),
        m23: centre::<N>(m.second.m23, w, y, t),
        m31: centre::<N>(m.second.m31, w, t, x),
        m32: centre::<N>(m.second.m32, w, t, y),
        m33: centre::<N>(m.second.m33, w, t, t).max(ang),
    }
}

/// The models of refinements.
pub open spec fn models(refined: Seq<Refined>) -> Seq<RefinedModel> {
    refined.map_values(|r: Refined| r@)
}

/// Weighted covariance of the candidate samples about the best candidate.
pub fn sample_covariance<N: Numerics>(refined: &Vec<Refined>, best: F64, cfg: &CsmConfig) -> (r:
    Matrix3)
    ensures
        deterministic::<N>() ==> r == covariance_of::<N>(
            moments::<N>(models(refined@), best, refined@.len()),
            *cfg,
        ),
{
    let mut m = no_moments();
    for i in 0..refined.len()
        invariant
            deterministic::<N>() ==> m == moments::<N>(models(refined@), best, i as nat),
    {
        let samples = &refined[i].samples;
        let ghost before = m;
        for k in 0..samples.len()
            invariant
                deterministic::<N>() ==> m == with_samples::<N>(before, samples@, best, k as nat),
        {
            m = add_sample::<N>(m, &samples[k], best);
        }
        proof {
            assert(models(refined@)[i as int].samples == samples@);
        }
    }
    covariance_from::<N>(&m, cfg)
}

// ---- Conclusion ----

/// The last of the refinements with the greatest score, among the first `n`.
pub open spec fn last_peak(refined: Seq<RefinedModel>, n: nat) -> Candidate
    recommends
        n > 0,
    decreases n,
{
    if n <= 1 {
        refined[0].best
    } else {
        let before = last_peak(refined, (n - 1) as nat);
        if refined[n - 1].best.score.lt(before.score) {
            before
        } else {
            refined[n - 1].best
        }
    }
}

/// The number of samples of the first `n` refinements.
pub open spec fn sample_count(refined: Seq<RefinedModel>, n: nat) -> nat
    decreases n,
{
    if n == 0 {
        0
    } else {
        sample_count(refined, (n - 1) as nat) + refined[n - 1].samples.len()
    }
}

/// A count, as far as it can be told.
pub open spec fn capped(n: nat) -> usize {
    if n <= usize::MAX {
        n as usize
    } else {
        usize::MAX
    }
}

/// A product, capped.
fn capped_product(a: usize, b: usize) -> (r: usize)
    ensures
        r == capped((a * b) as nat),
{
    match a.checked_mul(b) {
        Some(v) => v,
        None => usize::MAX,
    }
}

/// A sum, capped.
fn capped_sum(a: usize, b: usize) -> (r: usize)
    ensures
        r == capped((a + b) as nat),
{
    match a.checked_add(b) {
        Some(v) => v,
        None => usize::MAX,
    }
}

/// An offset on the boundary of the window: the true maximum may lie outside.
pub open spec fn on_boundary<N: Numerics>(c: Candidate, cfg: CsmConfig) -> bool {
    ||| difference::<N>(cfg.search_x_m, cfg.linear_step_m).le(c.dx.absolute())
    ||| difference::<N>(cfg.search_y_m, cfg.linear_step_m).le(c.dy.absolute())
    ||| difference::<N>(cfg.search_theta_rad, cfg.angular_step_rad).le(c.dtheta.absolute())
}

/// The match that refinements give.
pub open spec fn concluded<N: Numerics>(
    field: FieldModel,
    query: Seq<Point2>,
    guess: Pose2,
    cfg: CsmConfig,
    inv_n: F64,
    coarse_evals: nat,
    refined: Seq<RefinedModel>,
) -> Result<MatchResult, SlamError> {
    let found = last_peak(refined, refined.len());
    if refined.len() == 0 {
        Err(SlamError::MatchFailed { reason: Reason::EmptyWindow })
    } else if found.score.le(F64 { bits: 0 }) {
        Err(SlamError::MatchFailed { reason: Reason::NoOverlap })
    } else {
        let best = sharpened::<N>(field, query, guess, inv_n, cfg, found);
        Ok(
            MatchResult {
                pose: Pose2::normalized::<N>(
                    sum::<N>(guess.x, best.dx),
                    sum::<N>(guess.y, best.dy),
                    sum::<N>(guess.theta, best.dtheta),
                ),
                covariance: covariance_of::<N>(
                    moments::<N>(refined, best.score, refined.len()),
                    cfg,
                ),
                score: best.score.clamped(F64 { bits: 0 }, F64 { bits: ONE }),
                iterations: capped(coarse_evals + sample_count(refined, refined.len())),
                converged: !on_boundary::<N>(best, cfg) && cfg.min_score.le(best.score),
            },
        )
    }
}

/// Turn refinements into a match.
pub fn conclude<N: Numerics>(
    field: &LikelihoodField,
    query: &Vec<Point2>,
    guess: &Pose2,
    cfg: &CsmConfig,
    plan: &SearchPlan,
    refined: &Vec<Refined>,
) -> (r: Result<MatchResult, SlamError>)
    requires
        field@.wf(),
        cfg.usable(),
        plan.wf(),
    ensures
        refined@.len() == 0 ==> r == Err::<MatchResult, SlamError>(
            SlamError::MatchFailed { reason: Reason::EmptyWindow },
        ),
        refined@.len() > 0 ==> (r is Err <==> last_peak(
            models(refined@),
            refined@.len(),
        ).score.le(F64 { bits: 0 })),
        refined@.len() > 0 && r is Err ==> r == Err::<MatchResult, SlamError>(
            SlamError::MatchFailed { reason: Reason::NoOverlap },
        ),
        r matches Ok(m) ==> within_turn(m.pose.theta),
        deterministic::<N>() ==> r == concluded::<N>(
            field@,
            query@,
            *guess,
            *cfg,
            plan.inv_n,
            plan.thetas@.len() * plan.xs@.len() * plan.ys@.len(),
            models(refined@),
        ),
{
    if refined.len() == 0 {
        return Err(SlamError::MatchFailed { reason: Reason::EmptyWindow });
    }
    let ghost all = models(refined@);
    let mut found = refined[0].best;
    let coarse_evals: usize = capped_product(
        capped_product(plan.thetas.len(), plan.xs.len()),
        plan.ys.len(),
    );
    let ghost coarse = plan.thetas@.len() * plan.xs@.len() * plan.ys@.len();
    proof {
        lemma_capped_product(
            plan.thetas@.len() as int,
            plan.xs@.len() as int,
            plan.ys@.len() as int,
        );
    }
    let mut evals: usize = capped_sum(coarse_evals, refined[0].samples.len());
    proof {
        reveal_with_fuel(sample_count, 2);
        assert(all[0].samples == refined@[0].samples@);
        assert(all[0].best == refined@[0].best);
    }
    for i in 1..refined.len()
        invariant
            refined@.len() >= 1,
            all == models(refined@),
            coarse >= 0,
            found == last_peak(all, i as nat),
            evals == capped(coarse + sample_count(all, i as nat)),
    {
        let r = &refined[i];
        proof {
            assert(all[i as int] == r@);
        }
        evals = capped_sum(evals, r.samples.len());
        if !r.best.score.lt(found.score) {
            found = r.best;
        }
    }
    if found.score.le(F64 { bits: 0 }) {
        return Err(SlamError::MatchFailed { reason: Reason::NoOverlap });
    }
    let best = parabolic_refine::<N>(field, query, guess, plan.inv_n, cfg, found);
    let covariance = sample_covariance::<N>(refined, best.score, cfg);
    let outside = minus::<N>(cfg.search_x_m, cfg.linear_step_m).le(best.dx.absolute())
        || minus::<N>(cfg.search_y_m, cfg.linear_step_m).le(best.dy.absolute()) || minus::<N>(
        cfg.search_theta_rad,
        cfg.angular_step_rad,
    ).le(best.dtheta.absolute());
    Ok(
        MatchResult {
            pose: Pose2::new::<N>(
                plus::<N>(guess.x, best.dx),
                plus::<N>(guess.y, best.dy),
                plus::<N>(guess.theta, best.dtheta),
            ),
            covariance,
            score: best.score.clamp(F64 { bits: 0 }, F64 { bits: ONE }),
            iterations: evals,
            converged: !outside && cfg.min_score.le(best.score),
        },
    )
}

/// A product of three positive counts, capped at either step.
proof fn lemma_capped_product(a: int, b: int, c: int)
    requires
        a >= 1,
        b >= 1,
        c >= 1,
    ensures
        a * b * c >= 1,
        a * b > usize::MAX ==> a * b * c > usize::MAX && usize::MAX * c >= usize::MAX,
{
    assert(a * b >= 1) by (nonlinear_arith)
        requires
            a >= 1,
            b >= 1,
    ;
    assert(a * b * c >= a * b) by (nonlinear_arith)
        requires
            a * b >= 1,
            c >= 1,
    ;
    assert(usize::MAX * c >= usize::MAX) by (nonlinear_arith)
        requires
            c >= 1,
    ;
}

// ---- The search ----

/// The refinements of the best coarse candidates.
pub open spec fn refinements<N: Numerics>(
    field: FieldModel,
    query: Seq<Point2>,
    guess: Pose2,
    cfg: CsmConfig,
) -> Seq<RefinedModel> {
    let step = coarse_step::<N>(cfg);
    let turn = coarse_turn::<N>(cfg);
    let two = F64 { bits: TWO };
    let inv_n = inverse_len::<N>(query.len());
    let coarse = pooled::<N>(field, cfg.coarse_factor);
    let xs = offsets::<N>(cfg.search_x_m, step);
    let ys = offsets::<N>(cfg.search_y_m, step);
    let candidates = offsets::<N>(cfg.search_theta_rad, turn).map_values(
        |t: F64| best_at::<N>(coarse, query, guess, xs, ys, inv_n, t),
    );
    let dxs = offsets::<N>(
        sum::<N>(quotient::<N>(step, two), cfg.linear_step_m),
        cfg.linear_step_m,
    );
    let dts = offsets::<N>(
        sum::<N>(quotient::<N>(turn, two), cfg.angular_step_rad),
        cfg.angular_step_rad,
    );
    top(candidates, cfg.refine_top_k).map_values(
        |c: Candidate| refinement::<N>(field, query, guess, inv_n, dxs, dts, c),
    )
}

/// Number of coarse candidates.
pub open spec fn coarse_count<N: Numerics>(cfg: CsmConfig) -> nat {
    let step = coarse_step::<N>(cfg);
    offsets::<N>(cfg.search_theta_rad, coarse_turn::<N>(cfg)).len() * offsets::<N>(
        cfg.search_x_m,
        step,
    ).len() * offsets::<N>(cfg.search_y_m, step).len()
}

/// What [`search`] finds.
pub open spec fn searched<N: Numerics>(
    field: FieldModel,
    query: Seq<Point2>,
    guess: Pose2,
    cfg: CsmConfig,
) -> Result<MatchResult, SlamError> {
    match query_fault(query.len(), cfg) {
        Some(e) => Err(e),
        None => concluded::<N>(
            field,
            query,
            guess,
            cfg,
            inverse_len::<N>(query.len()),
            coarse_count::<N>(cfg),
            refinements::<N>(field, query, guess, cfg),
        ),
    }
}

/// The shared CSM search over a prebuilt likelihood field. Used by both the
/// scan-to-scan and the scan-to-map matcher.
pub fn search<N: Numerics>(
    field: &LikelihoodField,
    query: &Vec<Point2>,
    guess: &Pose2,
    cfg: &CsmConfig,
) -> (r: Result<MatchResult, SlamError>)
    requires
        field@.wf(),
        cfg.usable(),
    ensures
        deterministic::<N>() ==> r == searched::<N>(field@, query@, *guess, *cfg),
        query_fault(query@.len(), *cfg) matches Some(e) ==> r == Err::<MatchResult, SlamError>(e),
        query_fault(query@.len(), *cfg) is None && r is Err ==> r == Err::<MatchResult, SlamError>(
            SlamError::MatchFailed { reason: Reason::NoOverlap },
        ),
{
    let plan = match plan_search::<N>(field, query, cfg) {
        Ok(plan) => plan,
        Err(e) => return Err(e),
    };
    let mut candidates: Vec<Candidate> = Vec::new();
    for i in 0..plan.thetas.len()
        invariant
            plan.wf(),
            candidates@.len() == i,
            deterministic::<N>() ==> candidates@ =~= plan.thetas@.take(i as int).map_values(
                |t: F64|
                    best_at::<N>(
                        plan.coarse@,
                        query@,
                        *guess,
                        plan.xs@,
                        plan.ys@,
                        plan.inv_n,
                        t,
                    ),
            ),
    {
        candidates.push(
            eval_theta::<N>(
                &plan.coarse,
                query,
                guess,
                &plan.xs,
                &plan.ys,
                plan.inv_n,
                plan.thetas[i],
            ),
        );
    }
    let chosen = select_top(&candidates, cfg.refine_top_k);
    let mut refined: Vec<Refined> = Vec::new();
    for i in 0..chosen.len()
        invariant
            field@.wf(),
            refined@.len() == i,
            deterministic::<N>() ==> models(refined@) =~= chosen@.take(i as int).map_values(
                |c: Candidate|
                    refinement::<N>(
                        field@,
                        query@,
                        *guess,
                        plan.inv_n,
                        plan.dxs@,
                        plan.dts@,
                        c,
                    ),
            ),
    {
        let next = refine_one::<N>(field, query, guess, &plan, &chosen[i]);
        let ghost before = refined@;
        refined.push(next);
        proof {
            assert(models(refined@) =~= models(before).push(next@));
            assert(chosen@.take(i + 1) =~= chosen@.take(i as int).push(chosen@[i as int]));
        }
    }
    proof {
        assert(plan.thetas@.take(plan.thetas@.len() as int) =~= plan.thetas@);
        assert(chosen@.take(chosen@.len() as int) =~= chosen@);
        if deterministic::<N>() {
            assert(candidates@ =~= plan.thetas@.map_values(
                |t: F64|
                    best_at::<N>(
                        plan.coarse@,
                        query@,
                        *guess,
                        plan.xs@,
                        plan.ys@,
                        plan.inv_n,
                        t,
                    ),
            ));
            assert(models(refined@) =~= refinements::<N>(field@, query@, *guess, *cfg));
        }
    }
    conclude::<N>(field, query, guess, cfg, &plan, &refined)
}

// ---- The matcher ----

/// The margin of a field around its points: the search window, and room for the
/// smoothing.
pub open spec fn margin_of<N: Numerics>(cfg: CsmConfig) -> F64 {
    sum::<N>(
        sum::<N>(
            cfg.search_x_m.max(cfg.search_y_m),
            product::<N>(F64 { bits: FOUR }, cfg.sigma_m),
        ),
        F64 { bits: MARGIN_M },
    )
}

/// What matching a query against reference points gives.
#[verifier::opaque]
pub open spec fn matched<N: Numerics>(
    reference: Seq<Point2>,
    query: Seq<Point2>,
    guess: Pose2,
    cfg: CsmConfig,
) -> Result<MatchResult, SlamError> {
    match field_of::<N>(
        reference,
        cfg.field_resolution_m,
        cfg.sigma_m,
        margin_of::<N>(cfg),
        cfg.max_field_cells,
    ) {
        Err(e) => Err(e),
        Ok(field) => searched::<N>(field, query, guess, cfg),
    }
}

/// Which errors `r` may hold, whatever the arithmetic: without a finite reference
/// point that; else a field too large; else a query that cannot be searched for;
/// else no overlap.
pub open spec fn refused(
    reference: Seq<Point2>,
    query: Seq<Point2>,
    cfg: CsmConfig,
    r: Result<MatchResult, SlamError>,
) -> bool {
    let too_large = Err::<MatchResult, SlamError>(
        SlamError::GridTooLarge { cells: usize::MAX, limit: cfg.max_field_cells },
    );
    if !extent(reference, reference.len()).0.is_finite() {
        r == Err::<MatchResult, SlamError>(
            SlamError::MatchFailed { reason: Reason::NoFiniteReference },
        )
    } else {
        match query_fault(query.len(), cfg) {
            Some(e) => r == too_large || r == Err::<MatchResult, SlamError>(e),
            None => r is Ok || r == too_large || r == Err::<MatchResult, SlamError>(
                SlamError::MatchFailed { reason: Reason::NoOverlap },
            ),
        }
    }
}

/// Build the field that a search in reference points needs.
pub fn reference_field<N: Numerics>(reference: &Vec<Point2>, cfg: &CsmConfig) -> (r: Result<
    LikelihoodField,
    SlamError,
>)
    ensures
        r matches Ok(field) ==> field@.wf(),
        !extent(reference@, reference@.len()).0.is_finite() ==> r == Err::<
            LikelihoodField,
            SlamError,
        >(SlamError::MatchFailed { reason: Reason::NoFiniteReference }),
        extent(reference@, reference@.len()).0.is_finite() && r is Err ==> r == Err::<
            LikelihoodField,
            SlamError,
        >(SlamError::GridTooLarge { cells: usize::MAX, limit: cfg.max_field_cells }),
        deterministic::<N>() ==> match field_of::<N>(
            reference@,
            cfg.field_resolution_m,
            cfg.sigma_m,
            margin_of::<N>(*cfg),
            cfg.max_field_cells,
        ) {
            Ok(model) => r matches Ok(field) && field@ == model,
            Err(e) => r == Err::<LikelihoodField, SlamError>(e),
        },
{
    let margin = plus::<N>(
        plus::<N>(
            cfg.search_x_m.max(cfg.search_y_m),
            times::<N>(F64 { bits: FOUR }, cfg.sigma_m),
        ),
        F64 { bits: MARGIN_M },
    );
    LikelihoodField::from_points::<N>(
        reference,
        cfg.field_resolution_m,
        cfg.sigma_m,
        margin,
        cfg.max_field_cells,
    )
}

/// Build the field of reference points and search it.
pub fn match_points<N: Numerics>(
    reference: &Vec<Point2>,
    query: &Vec<Point2>,
    guess: &Pose2,
    cfg: &CsmConfig,
) -> (r: Result<MatchResult, SlamError>)
    requires
        cfg.usable(),
    ensures
        deterministic::<N>() ==> r == matched::<N>(reference@, query@, *guess, *cfg),
        refused(reference@, query@, *cfg, r),
{
    proof {
        reveal(matched);
    }
    match reference_field::<N>(reference, cfg) {
        Err(e) => Err(e),
        Ok(field) => search::<N>(&field, query, guess, cfg),
    }
}

/// Correlative scan-to-scan matcher. See the module docs.
#[derive(Debug, Clone, Copy)]
pub struct CorrelativeMatcher {
    config: CsmConfig,
}

impl Default for CorrelativeMatcher {
    fn default() -> (r: CorrelativeMatcher)
        ensures
            r.spec_config() == CsmConfig::standard(),
            r.spec_config().usable(),
    {
        CorrelativeMatcher { config: CsmConfig::default() }
    }
}

impl CorrelativeMatcher {
    /// The active configuration.
    pub closed spec fn spec_config(&self) -> CsmConfig {
        self.config
    }

    /// Create a matcher with the given configuration.
    pub fn new(config: CsmConfig) -> (r: CorrelativeMatcher)
        ensures
            r.spec_config() == config,
    {
        CorrelativeMatcher { config }
    }

    /// The active configuration.
    pub fn config(&self) -> (r: &CsmConfig)
        ensures
            *r == self.spec_config(),
    {
        &self.config
    }
}

impl<N: Numerics> ScanMatcher<N> for CorrelativeMatcher {
    open spec fn ready(&self) -> bool {
        self.spec_config().usable()
    }

    open spec fn answer(
        &self,
        reference: Seq<Point2>,
        query: Seq<Point2>,
        guess: Pose2,
    ) -> Result<MatchResult, SlamError> {
        matched::<N>(reference, query, guess, self.spec_config())
    }

    open spec fn allows(
        &self,
        reference: Seq<Point2>,
        query: Seq<Point2>,
        r: Result<MatchResult, SlamError>,
    ) -> bool {
        refused(reference, query, self.spec_config(), r)
    }

    fn match_scans(
        &self,
        reference: &ScanCloud,
        query: &ScanCloud,
        initial_guess: &Pose2,
    ) -> (r: Result<MatchResult, SlamError>) {
        match_points::<N>(&reference.points, &query.points, initial_guess, &self.config)
    }
}

// ---- Laws ----

/// The peak is no worse than the seed or any sample that can be compared, and is
/// one of them.
pub proof fn law_peak_is_greatest(samples: Seq<Candidate>, seed: Candidate, n: nat)
    requires
        n <= samples.len(),
        !seed.score.is_nan(),
    ensures
        !peak(samples, seed, n).score.is_nan(),
        seed.score.le(peak(samples, seed, n).score),
        forall|i: int|
            0 <= i < n && !(#[trigger] samples[i]).score.is_nan() ==> samples[i].score.le(
                peak(samples, seed, n).score,
            ),
        peak(samples, seed, n) == seed || exists|i: int|
            0 <= i < n && #[trigger] samples[i] == peak(samples, seed, n),
    decreases n,
{
    if n > 0 {
        law_peak_is_greatest(samples, seed, (n - 1) as nat);
        let before = peak(samples, seed, (n - 1) as nat);
        if before.score.lt(samples[n - 1].score) {
            assert(samples[n - 1] == peak(samples, seed, n));
        } else if before != seed {
            let i = choose|i: int| 0 <= i < n - 1 && #[trigger] samples[i] == before;
            assert(samples[i] == peak(samples, seed, n));
        }
    }
}

/// The refinement that is taken has the greatest score of all, the later one of
/// equals.
pub proof fn law_last_peak_is_greatest(refined: Seq<RefinedModel>, n: nat)
    requires
        1 <= n <= refined.len(),
        forall|i: int| 0 <= i < refined.len() ==> !(#[trigger] refined[i]).best.score.is_nan(),
    ensures
        forall|i: int|
            0 <= i < n ==> (#[trigger] refined[i]).best.score.le(last_peak(refined, n).score),
        exists|i: int|
            0 <= i < n && (#[trigger] refined[i]).best == last_peak(refined, n) && forall|j: int|
                i < j < n ==> (#[trigger] refined[j]).best.score.lt(refined[i].best.score),
    decreases n,
{
    if n == 1 {
        assert(refined[0].best == last_peak(refined, n));
    } else {
        law_last_peak_is_greatest(refined, (n - 1) as nat);
        let before = last_peak(refined, (n - 1) as nat);
        let i = choose|i: int|
            0 <= i < n - 1 && (#[trigger] refined[i]).best == before && forall|j: int|
                i < j < n - 1 ==> (#[trigger] refined[j]).best.score.lt(refined[i].best.score);
        if refined[n - 1].best.score.lt(before.score) {
            assert(refined[i].best == last_peak(refined, n));
        } else {
            assert(refined[n - 1].best == last_peak(refined, n));
        }
    }
}

/// The score of a match lies above 0 and is at most 1.
pub proof fn law_match_score_is_normalized<N: Numerics>(
    field: FieldModel,
    query: Seq<Point2>,
    guess: Pose2,
    cfg: CsmConfig,
    inv_n: F64,
    coarse_evals: nat,
    refined: Seq<RefinedModel>,
)
    requires
        forall|i: int| 0 <= i < refined.len() ==> !(#[trigger] refined[i]).best.score.is_nan(),
    ensures
        concluded::<N>(field, query, guess, cfg, inv_n, coarse_evals, refined) matches Ok(m) ==> (
        F64 { bits: 0 }).lt(m.score) && m.score.le(F64 { bits: ONE }),
{
    if refined.len() > 0 {
        law_last_peak_is_greatest(refined, refined.len());
    }
}

/// A match counts as converged only if its score reaches the configured minimum
/// and it does not lie on the boundary of the search window.
pub proof fn law_weak_or_boundary_match_is_not_converged<N: Numerics>(
    field: FieldModel,
    query: Seq<Point2>,
    guess: Pose2,
    cfg: CsmConfig,
    inv_n: F64,
    coarse_evals: nat,
    refined: Seq<RefinedModel>,
)
    requires
        refined.len() > 0,
        ({
            let best = sharpened::<N>(
                field,
                query,
                guess,
                inv_n,
                cfg,
                last_peak(refined, refined.len()),
            );
            on_boundary::<N>(best, cfg) || best.score.lt(cfg.min_score)
        }),
    ensures
        concluded::<N>(field, query, guess, cfg, inv_n, coarse_evals, refined) matches Ok(m)
            ==> !m.converged,
{
}

/// The variances of a match never lie below the quantization variances of the
/// search steps.
pub proof fn law_variance_has_a_floor<N: Numerics>(m: Moments, cfg: CsmConfig)
    requires
        !quantization::<N>(cfg.linear_step_m).is_nan(),
        !quantization::<N>(cfg.angular_step_rad).is_nan(),
        (F64 { bits: 0 }).lt(m.weight),
    ensures
        quantization::<N>(cfg.linear_step_m).le(covariance_of::<N>(m, cfg).m11),
        quantization::<N>(cfg.linear_step_m).le(covariance_of::<N>(m, cfg).m22),
        quantization::<N>(cfg.angular_step_rad).le(covariance_of::<N>(m, cfg).m33),
{
}

/// A search window always holds its centre and as many steps on either side.
pub proof fn law_window_is_symmetric<N: Numerics>(half_width: F64, step: F64)
    ensures
        offsets::<N>(half_width, step).len() % 2 == 1,
        offsets::<N>(half_width, step)[step_number(
            floor_of::<N>(quotient::<N>(half_width, step)),
        ) as int] == product::<N>(
            step,
            difference::<N>(
                float_of_count::<N>(
                    step_number(floor_of::<N>(quotient::<N>(half_width, step))),
                ),
                float_of_count::<N>(
                    step_number(floor_of::<N>(quotient::<N>(half_width, step))),
                ),
            ),
        ),
{
}

/// Number of coarse candidates that are refined: the configured number, but at least
/// one, and no more than there are rotations.
pub open spec fn refined_count<N: Numerics>(cfg: CsmConfig) -> nat {
    let rotations = offsets::<N>(cfg.search_theta_rad, coarse_turn::<N>(cfg)).len();
    let wanted = if cfg.refine_top_k == 0 {
        1
    } else {
        cfg.refine_top_k as nat
    };
    if wanted < rotations {
        wanted
    } else {
        rotations
    }
}

/// Number of fine samples around one candidate: every fine rotation with every fine
/// offset in x and in y.
pub open spec fn fine_count<N: Numerics>(cfg: CsmConfig) -> nat {
    let two = F64 { bits: TWO };
    let dxs = offsets::<N>(
        sum::<N>(quotient::<N>(coarse_step::<N>(cfg), two), cfg.linear_step_m),
        cfg.linear_step_m,
    );
    let dts = offsets::<N>(
        sum::<N>(quotient::<N>(coarse_turn::<N>(cfg), two), cfg.angular_step_rad),
        cfg.angular_step_rad,
    );
    dts.len() * (dxs.len() * dxs.len())
}

/// The effort of a search is fixed by its window: any two matches under one
/// configuration took the same number of evaluations, whatever the data.
pub proof fn law_search_effort_is_fixed_by_the_window<N: Numerics>(
    field: FieldModel,
    query: Seq<Point2>,
    guess: Pose2,
    cfg: CsmConfig,
)
    ensures
        searched::<N>(field, query, guess, cfg) matches Ok(m) ==> m.iterations == capped(
            coarse_count::<N>(cfg) + refined_count::<N>(cfg) * fine_count::<N>(cfg),
        ),
{
    let step = coarse_step::<N>(cfg);
    let turn = coarse_turn::<N>(cfg);
    let two = F64 { bits: TWO };
    let inv_n = inverse_len::<N>(query.len());
    let coarse = pooled::<N>(field, cfg.coarse_factor);
    let xs = offsets::<N>(cfg.search_x_m, step);
    let ys = offsets::<N>(cfg.search_y_m, step);
    let candidates = offsets::<N>(cfg.search_theta_rad, turn).map_values(
        |t: F64| best_at::<N>(coarse, query, guess, xs, ys, inv_n, t),
    );
    let dxs = offsets::<N>(
        sum::<N>(quotient::<N>(step, two), cfg.linear_step_m),
        cfg.linear_step_m,
    );
    let dts = offsets::<N>(
        sum::<N>(quotient::<N>(turn, two), cfg.angular_step_rad),
        cfg.angular_step_rad,
    );
    let refined = refinements::<N>(field, query, guess, cfg);
    let chosen = top(candidates, cfg.refine_top_k);
    lemma_order_len(falling(candidates), candidates.len());
    assert(refined =~= chosen.map_values(
        |c: Candidate| refinement::<N>(field, query, guess, inv_n, dxs, dts, c),
    ));
    assert(refined.len() == refined_count::<N>(cfg));
    assert forall|i: int| 0 <= i < refined.len() implies (#[trigger] refined[i]).samples.len()
        == fine_count::<N>(cfg) by {
        lemma_fine_samples_len::<N>(
            field,
            query,
            guess,
            inv_n,
            dxs,
            dts,
            chosen[i],
            dts.len(),
        );
    }
    lemma_sample_count(refined, fine_count::<N>(cfg), refined.len());
}

/// Each fine rotation adds one sample per pair of fine offsets.
proof fn lemma_fine_samples_len<N: Numerics>(
    field: FieldModel,
    query: Seq<Point2>,
    guess: Pose2,
    inv_n: F64,
    dxs: Seq<F64>,
    dts: Seq<F64>,
    around: Candidate,
    n: nat,
)
    ensures
        fine_samples::<N>(field, query, guess, inv_n, dxs, dts, around, n).len() == n * (dxs.len()
            * dxs.len()),
    decreases n,
{
    if n > 0 {
        lemma_fine_samples_len::<N>(
            field,
            query,
            guess,
            inv_n,
            dxs,
            dts,
            around,
            (n - 1) as nat,
        );
        let size = dxs.len() * dxs.len();
        assert(n * size == (n - 1) * size + size) by (nonlinear_arith)
            requires
                n >= 1,
        ;
    } else {
        assert(0 * (dxs.len() * dxs.len()) == 0) by (nonlinear_arith);
    }
}

/// Refinements of one size add up to their number times that size.
proof fn lemma_sample_count(refined: Seq<RefinedModel>, size: nat, n: nat)
    requires
        n <= refined.len(),
        forall|i: int| 0 <= i < refined.len() ==> (#[trigger] refined[i]).samples.len() == size,
    ensures
        sample_count(refined, n) == n * size,
    decreases n,
{
    if n > 0 {
        lemma_sample_count(refined, size, (n - 1) as nat);
        assert(n * size == (n - 1) * size + size) by (nonlinear_arith)
            requires
                n >= 1,
        ;
    } else {
        assert(0 * size == 0) by (nonlinear_arith);
    }
}

/// Where the quotient and its floor are exact, a window of half-width `h` in steps of
/// `s` holds `2·⌊h / s⌋ + 1` offsets.
pub proof fn law_window_holds_whole_steps<N: Numerics>(half_width: F64, step: F64)
    requires
        step.units() > 0,
        half_width.units() >= 0,
        half_width.units() / step.units() < 0x20_0000_0000_0000,
        half_width.units() / step.units() <= usize::MAX,
        floor_of::<N>(quotient::<N>(half_width, step)).is_finite(),
        floor_of::<N>(quotient::<N>(half_width, step)).units() == unit() * (half_width.units()
            / step.units()),
    ensures
        offsets::<N>(half_width, step).len() == 2 * (half_width.units() / step.units()) + 1,
{
    let n = half_width.units() / step.units();
    let one = unit();
    lemma_pow2_pos(1074);
    lemma_pow2_adds(1074, 53);
    lemma2_to64_rest();
    lemma_div_pos_is_pos(half_width.units(), step.units());
    assert(one * n < one * 0x20_0000_0000_0000 && one * n >= 0) by (nonlinear_arith)
        requires
            one > 0,
            0 <= n < 0x20_0000_0000_0000,
    ;
    assert(one * n == n * one) by (nonlinear_arith);
    lemma_fundamental_div_mod_converse(one * n, one, n, 0);
}

/// A converged match lies strictly inside the window in each of its three offsets, and
/// reaches the least score: each offset is less than its half-width minus one step, or
/// one of the two cannot be compared.
pub proof fn law_converged_offsets_lie_inside<N: Numerics>(
    field: FieldModel,
    query: Seq<Point2>,
    guess: Pose2,
    cfg: CsmConfig,
    inv_n: F64,
    coarse_evals: nat,
    refined: Seq<RefinedModel>,
)
    requires
        !difference::<N>(cfg.search_x_m, cfg.linear_step_m).is_nan(),
        !difference::<N>(cfg.search_y_m, cfg.linear_step_m).is_nan(),
        !difference::<N>(cfg.search_theta_rad, cfg.angular_step_rad).is_nan(),
    ensures
        concluded::<N>(field, query, guess, cfg, inv_n, coarse_evals, refined) matches Ok(m)
            ==> m.converged ==> {
            let best = sharpened::<N>(
                field,
                query,
                guess,
                inv_n,
                cfg,
                last_peak(refined, refined.len()),
            );
            &&& best.dx.is_nan() || best.dx.absolute().lt(
                difference::<N>(cfg.search_x_m, cfg.linear_step_m),
            )
            &&& best.dy.is_nan() || best.dy.absolute().lt(
                difference::<N>(cfg.search_y_m, cfg.linear_step_m),
            )
            &&& best.dtheta.is_nan() || best.dtheta.absolute().lt(
                difference::<N>(cfg.search_theta_rad, cfg.angular_step_rad),
            )
            &&& cfg.min_score.le(best.score)
        },
{
}

/// A converged match moves the guess by less than the half-width minus one step in x and
/// in y, and turns it by less than the half-width minus one step, up to rounding.
pub proof fn law_converged_match_stays_in_the_window<N: Numerics>(
    c: Precision,
    field: FieldModel,
    query: Seq<Point2>,
    guess: Pose2,
    cfg: CsmConfig,
    inv_n: F64,
    coarse_evals: nat,
    refined: Seq<RefinedModel>,
    m: MatchResult,
)
    requires
        c.wf(),
        c.describes_arithmetic::<N>(),
        c.describes_remainder::<N>(),
        c.admits(guess.x),
        c.admits(guess.y),
        is_angle(guess.theta),
        c.admits(cfg.search_x_m),
        c.admits(cfg.search_y_m),
        c.admits(cfg.search_theta_rad),
        c.admits(cfg.linear_step_m),
        c.admits(cfg.angular_step_rad),
        concluded::<N>(field, query, guess, cfg, inv_n, coarse_evals, refined) == Ok::<
            MatchResult,
            SlamError,
        >(m),
        m.converged,
        ({
            let best = sharpened::<N>(
                field,
                query,
                guess,
                inv_n,
                cfg,
                last_peak(refined, refined.len()),
            );
            c.admits(best.dx) && c.admits(best.dy) && best.dtheta.is_finite() && near(
                best.dtheta.units(),
                0,
                half_turn(),
            )
        }),
    ensures
        size(m.pose.x.units() - guess.x.units()) < cfg.search_x_m.units() - cfg.linear_step_m.units()
            + 2 * c.e,
        size(m.pose.y.units() - guess.y.units()) < cfg.search_y_m.units() - cfg.linear_step_m.units()
            + 2 * c.e,
        exists|t: int|
            size(t) < cfg.search_theta_rad.units() - cfg.angular_step_rad.units() + c.e
                && #[trigger] same_heading(m.pose.theta.units(), guess.theta.units() + t, 5 * c.e),
{
    let best = sharpened::<N>(field, query, guess, inv_n, cfg, last_peak(refined, refined.len()));
    let in_x = difference::<N>(cfg.search_x_m, cfg.linear_step_m);
    let in_y = difference::<N>(cfg.search_y_m, cfg.linear_step_m);
    let in_t = difference::<N>(cfg.search_theta_rad, cfg.angular_step_rad);
    lemma_absolute_units(best.dx);
    lemma_absolute_units(best.dy);
    lemma_absolute_units(best.dtheta);
    law_order_is_value_order(in_x, best.dx.absolute());
    law_order_is_value_order(in_y, best.dy.absolute());
    law_order_is_value_order(in_t, best.dtheta.absolute());
    lemma_half_turn();
    lemma_angle_range(guess.theta);
    let s = sum::<N>(guess.theta, best.dtheta);
    assert(c.admits(guess.theta) && c.admits(best.dtheta));
    law_wrapping_keeps_the_heading::<N>(c, s);
    lemma_near_is_heading(s.units(), guess.theta.units() + best.dtheta.units(), c.e);
    lemma_headings_add(
        s.units(),
        guess.theta.units() + best.dtheta.units(),
        m.pose.theta.units(),
        0,
        c.e,
        4 * c.e,
    );
    assert(same_heading(m.pose.theta.units(), guess.theta.units() + best.dtheta.units(), 5 * c.e));
}

} // verus!
