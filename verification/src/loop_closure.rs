//! Loop closure: recognizing previously visited places and producing verified
//! graph constraints.
//!
//! Structured as three separate stages:
//!
//! 1. **Candidate search** — keyframes whose estimated pose is within a radius of
//!    the current pose but temporally distant.
//! 2. **Verification** — wide-window CSM between the current scan and the
//!    candidate's scan.
//! 3. **Gating** — performed by the caller ([`crate::slam::Slam`]): the edge is
//!    added speculatively, the graph optimized on a copy, and the constraint
//!    accepted only if its residual stays consistent. **A single false positive
//!    folds the map in half** — every threshold here errs on the conservative
//!    side, because a missed closure costs accuracy while a false one destroys the
//!    map.

use vstd::prelude::*;

use crate::accuracy::{
    distance_error, lemma_multiple_order, lemma_product_admitted, lemma_squared_distance, near,
    Accuracy,
};
use crate::error::SlamError;
use crate::float::{law_order_is_value_order, lemma_units_of_constants, unit, F64};
use crate::grid::cellmath::ONE;
use crate::matcher::csm::{match_points, matched, CsmConfig};
use crate::matcher::{diagonal, MatchResult};
use crate::matrix::Matrix3;
use crate::numerics::{
    deterministic, difference, inverse_of, minus, plus, product, sum, times, try_inverse, Numerics,
};
use crate::order::{
    law_order_is_stable_and_ascending, lemma_order_is_complete, ordered, stable_order,
};
use crate::pose::{Point2, Pose2, PI};
use crate::scan::ScanCloud;

verus! {

/// Tunables for loop-closure detection. Distances in metres, angles in radians.
#[derive(Debug, Clone, Copy, PartialEq, Eq, Structural)]
pub struct LoopClosureConfig {
    /// Candidate radius: keyframes estimated to be within this distance of the
    /// current pose are considered. Default `3.0`.
    pub search_radius_m: F64,
    /// Minimum keyframe-index separation for a candidate — recent keyframes are
    /// not loops. Default `20`.
    pub min_node_separation: usize,
    /// CSM translation half-window for verification (the pose estimate may have
    /// drifted this far). Default `2.0`.
    pub verification_window_m: F64,
    /// CSM rotation half-window for verification. Default `π` (all headings).
    pub verification_theta_rad: F64,
    /// Minimum verification match score to accept a candidate. Conservative on
    /// purpose. Default `0.6`.
    pub min_score: F64,
    /// Maximum candidates verified per keyframe (verification is the expensive
    /// step). Default `3`.
    pub max_candidates: usize,
    /// Post-optimization χ² gate on the loop edge residual (3 degrees of freedom;
    /// 9.0 ≈ the 97th percentile). Applied by the caller during gating. Default
    /// `9.0`.
    pub residual_gate: F64,
}

impl LoopClosureConfig {
    /// The default values.
    pub open spec fn standard() -> LoopClosureConfig {
        LoopClosureConfig {
            search_radius_m: F64 { bits: 0x4008_0000_0000_0000 },
            min_node_separation: 20,
            verification_window_m: F64 { bits: 0x4000_0000_0000_0000 },
            verification_theta_rad: F64 { bits: PI },
            min_score: F64 { bits: 0x3fe3_3333_3333_3333 },
            max_candidates: 3,
            residual_gate: F64 { bits: 0x4022_0000_0000_0000 },
        }
    }

    /// The correlative search that verifies candidates. Loop closing needs speed
    /// more than sub-centimetre precision; the graph optimization refines geometry
    /// anyway.
    pub open spec fn verification(self) -> CsmConfig {
        CsmConfig {
            search_x_m: self.verification_window_m,
            search_y_m: self.verification_window_m,
            search_theta_rad: self.verification_theta_rad,
            angular_step_rad: F64 { bits: 0x3f84_7ae1_47ae_147b },
            linear_step_m: F64 { bits: 0x3f94_7ae1_47ae_147b },
            ..CsmConfig::standard()
        }
    }
}

impl Default for LoopClosureConfig {
    fn default() -> (r: LoopClosureConfig)
        ensures
            r == LoopClosureConfig::standard(),
    {
        LoopClosureConfig {
            search_radius_m: F64 { bits: 0x4008_0000_0000_0000 },
            min_node_separation: 20,
            verification_window_m: F64 { bits: 0x4000_0000_0000_0000 },
            verification_theta_rad: F64 { bits: PI },
            min_score: F64 { bits: 0x3fe3_3333_3333_3333 },
            max_candidates: 3,
            residual_gate: F64 { bits: 0x4022_0000_0000_0000 },
        }
    }
}

/// A verified loop-closure constraint, ready for speculative insertion.
#[derive(Debug, Clone, Copy, PartialEq, Eq, Structural)]
pub struct LoopConstraint {
    /// Index of the matched (older) keyframe.
    pub node: usize,
    /// Measured relative pose: `keyframe[node].between(current)`.
    pub relative: Pose2,
    /// Information matrix of the measurement over `[x, y, θ]`.
    pub information: Matrix3,
    /// Verification match score (`0..=1`).
    pub score: F64,
}

/// Anything that pairs a pose estimate with a scan — implemented by
/// [`crate::slam::Keyframe`] and by plain `(Pose2, ScanCloud)` tuples.
pub trait KeyframeLike {
    /// The pose estimate.
    spec fn spec_pose(&self) -> Pose2;

    /// The points of the scan.
    spec fn spec_points(&self) -> Seq<Point2>;

    /// Current pose estimate of this keyframe (world frame).
    fn pose(&self) -> (r: Pose2)
        ensures
            r == self.spec_pose(),
    ;

    /// The keyframe's scan in its own sensor frame.
    fn scan(&self) -> (r: &ScanCloud)
        ensures
            r.points@ == self.spec_points(),
    ;
}

impl KeyframeLike for (Pose2, ScanCloud) {
    open spec fn spec_pose(&self) -> Pose2 {
        self.0
    }

    open spec fn spec_points(&self) -> Seq<Point2> {
        self.1.points@
    }

    fn pose(&self) -> (r: Pose2) {
        self.0
    }

    fn scan(&self) -> (r: &ScanCloud) {
        &self.1
    }
}

// ---- Candidate search ----

/// Squared distance of the positions of two poses.
pub open spec fn distance2<N: Numerics>(p: Pose2, q: Pose2) -> F64 {
    let dx = difference::<N>(p.x, q.x);
    let dy = difference::<N>(p.y, q.y);
    sum::<N>(product::<N>(dx, dx), product::<N>(dy, dy))
}

/// Those of the first `n` poses, by index, that lie within the squared radius
/// `r2` of `here`.
pub open spec fn nearby<N: Numerics>(poses: Seq<Pose2>, here: Pose2, r2: F64, n: nat) -> Seq<int>
    decreases n,
{
    if n == 0 {
        Seq::empty()
    } else {
        let i = n - 1;
        let before = nearby::<N>(poses, here, r2, i as nat);
        if distance2::<N>(poses[i], here).le(r2) {
            before.push(i)
        } else {
            before
        }
    }
}

/// The distances that candidates are ordered by.
pub open spec fn distances<N: Numerics>(poses: Seq<Pose2>, here: Pose2, near: Seq<int>) -> Seq<
    F64,
> {
    near.map_values(|i: int| distance2::<N>(poses[i], here))
}

/// How many keyframes are old enough to be a loop: those before `current` that are
/// at least `separation` keyframes older.
pub open spec fn old_enough(current: usize, separation: usize) -> nat {
    if separation == 0 {
        current as nat
    } else if current >= separation {
        (current - separation + 1) as nat
    } else {
        0
    }
}

/// Keyframe `i` comes before `current` and is at least `separation` keyframes
/// older.
pub open spec fn is_older(i: int, current: usize, separation: usize) -> bool {
    i < current && i + separation <= current
}

/// The indices of the candidates for the keyframe `current`, nearest first.
pub open spec fn candidates_for<N: Numerics>(
    poses: Seq<Pose2>,
    current: usize,
    config: LoopClosureConfig,
) -> Seq<int> {
    if current >= poses.len() {
        Seq::empty()
    } else {
        let here = poses[current as int];
        let r2 = product::<N>(config.search_radius_m, config.search_radius_m);
        let near = nearby::<N>(poses, here, r2, old_enough(current, config.min_node_separation));
        let order = ordered(distances::<N>(poses, here, near), near.len());
        let count = if config.max_candidates < order.len() {
            config.max_candidates as int
        } else {
            order.len() as int
        };
        order.take(count).map_values(|k: int| near[k])
    }
}

// ---- Verification ----

/// `m` has no entry that is infinite or a NaN.
#[verifier::allow_in_spec]
pub fn all_finite(m: Matrix3) -> bool
    returns
        m.m11.is_finite() && m.m12.is_finite() && m.m13.is_finite() && m.m21.is_finite()
            && m.m22.is_finite() && m.m23.is_finite() && m.m31.is_finite() && m.m32.is_finite()
            && m.m33.is_finite(),
{
    m.m11.is_finite() && m.m12.is_finite() && m.m13.is_finite() && m.m21.is_finite()
        && m.m22.is_finite() && m.m23.is_finite() && m.m31.is_finite() && m.m32.is_finite()
        && m.m33.is_finite()
}

/// An inverse that can serve as information: finite, or else the identity.
#[verifier::allow_in_spec]
pub fn sound_information(inverse: Option<Matrix3>) -> Matrix3
    returns
        (match inverse {
            Some(m) => if all_finite(m) {
                m
            } else {
                diagonal(F64 { bits: ONE })
            },
            None => diagonal(F64 { bits: ONE }),
        }),
{
    match inverse {
        Some(m) => if all_finite(m) {
            m
        } else {
            diagonal(F64 { bits: ONE })
        },
        None => diagonal(F64 { bits: ONE }),
    }
}

/// Covariance to information with graceful degradation: a singular covariance
/// falls back to a weak diagonal information (the constraint still helps but
/// cannot dominate).
pub fn invert_covariance<N: Numerics>(covariance: &Matrix3) -> (r: Matrix3)
    ensures
        deterministic::<N>() ==> r == sound_information(inverse_of::<N>(*covariance)),
        all_finite(r),
{
    sound_information(try_inverse::<N>(*covariance))
}

/// What a candidate's verification adds to the best constraint so far: a match
/// that failed, did not converge or scored too low adds nothing, any other error
/// ends the search, and a good match replaces a worse one.
pub open spec fn weighed_up<N: Numerics>(
    best: Option<LoopConstraint>,
    node: usize,
    result: Result<MatchResult, SlamError>,
    min_score: F64,
) -> Result<Option<LoopConstraint>, SlamError> {
    match result {
        Err(SlamError::MatchFailed { reason }) => Ok(best),
        Err(e) => Err(e),
        Ok(m) => if !m.converged || m.score.lt(min_score) {
            Ok(best)
        } else if best matches Some(b) && !b.score.lt(m.score) {
            Ok(best)
        } else {
            Ok(
                Some(
                    LoopConstraint {
                        node,
                        relative: m.pose,
                        information: sound_information(inverse_of::<N>(m.covariance)),
                        score: m.score,
                    },
                ),
            )
        },
    }
}

/// Weigh up the verification of one candidate.
pub fn weigh_up<N: Numerics>(
    best: Option<LoopConstraint>,
    node: usize,
    result: Result<MatchResult, SlamError>,
    min_score: F64,
) -> (r: Result<Option<LoopConstraint>, SlamError>)
    ensures
        deterministic::<N>() ==> r == weighed_up::<N>(best, node, result, min_score),
        result matches Err(SlamError::MatchFailed { reason }) ==> r == Ok::<
            Option<LoopConstraint>,
            SlamError,
        >(best),
        result matches Ok(m) ==> r matches Ok(b) && (!m.converged || m.score.lt(min_score) ==> b
            == best),
        r matches Ok(Some(b)) ==> best == Some(b) || (b.node == node && (result matches Ok(m)
            && m.converged && !m.score.lt(min_score) && b.relative == m.pose && b.score == m.score)),
        r matches Err(e) ==> result == Err::<MatchResult, SlamError>(e) && !(e
            matches SlamError::MatchFailed { reason }),
{
    match result {
        Err(e) => match e {
            SlamError::MatchFailed { reason } => Ok(best),
            _ => Err(e),
        },
        Ok(m) => {
            if !m.converged || m.score.lt(min_score) {
                return Ok(best);
            }
            let information = invert_covariance::<N>(&m.covariance);
            let better = match best {
                Some(b) => b.score.lt(m.score),
                None => true,
            };
            if better {
                Ok(
                    Some(
                        LoopConstraint {
                            node,
                            relative: m.pose,
                            information,
                            score: m.score,
                        },
                    ),
                )
            } else {
                Ok(best)
            }
        },
    }
}

/// The best constraint of the first `n` candidates, or the error that ends the
/// search.
pub open spec fn verified<N: Numerics>(
    poses: Seq<Pose2>,
    scans: Seq<Seq<Point2>>,
    current: int,
    candidates: Seq<int>,
    config: LoopClosureConfig,
    n: nat,
) -> Result<Option<LoopConstraint>, SlamError>
    decreases n,
{
    if n == 0 {
        Ok(None)
    } else {
        match verified::<N>(poses, scans, current, candidates, config, (n - 1) as nat) {
            Err(e) => Err(e),
            Ok(best) => {
                let i = candidates[n - 1];
                let guess = poses[i].relative::<N>(poses[current]);
                weighed_up::<N>(
                    best,
                    i as usize,
                    matched::<N>(scans[i], scans[current], guess, config.verification()),
                    config.min_score,
                )
            },
        }
    }
}

/// What [`LoopDetector::detect`] finds.
pub open spec fn detected<N: Numerics>(
    poses: Seq<Pose2>,
    scans: Seq<Seq<Point2>>,
    current: usize,
    config: LoopClosureConfig,
) -> Result<Option<LoopConstraint>, SlamError> {
    if current >= poses.len() {
        Ok(None)
    } else {
        let candidates = candidates_for::<N>(poses, current, config);
        verified::<N>(poses, scans, current as int, candidates, config, candidates.len())
    }
}

/// An error of the first `m` candidates is the error of all.
proof fn lemma_verification_error_stays<N: Numerics>(
    poses: Seq<Pose2>,
    scans: Seq<Seq<Point2>>,
    current: int,
    candidates: Seq<int>,
    config: LoopClosureConfig,
    m: nat,
    n: nat,
)
    requires
        m <= n,
    ensures
        verified::<N>(poses, scans, current, candidates, config, m) is Err ==> verified::<N>(
            poses,
            scans,
            current,
            candidates,
            config,
            n,
        ) == verified::<N>(poses, scans, current, candidates, config, m),
    decreases n,
{
    if m < n {
        lemma_verification_error_stays::<N>(
            poses,
            scans,
            current,
            candidates,
            config,
            m,
            (n - 1) as nat,
        );
    }
}

/// The pose estimates of keyframes.
pub open spec fn poses_of<K: KeyframeLike>(keyframes: Seq<K>) -> Seq<Pose2> {
    keyframes.map_values(|k: K| k.spec_pose())
}

/// The point lists of keyframes.
pub open spec fn scans_of<K: KeyframeLike>(keyframes: Seq<K>) -> Seq<Seq<Point2>> {
    keyframes.map_values(|k: K| k.spec_points())
}

/// Loop-closure detector (stages 1 and 2; gating is the caller's).
#[derive(Debug, Clone, Copy)]
pub struct LoopDetector {
    config: LoopClosureConfig,
}

impl Default for LoopDetector {
    fn default() -> (r: LoopDetector)
        ensures
            r.spec_config() == LoopClosureConfig::standard(),
    {
        LoopDetector { config: LoopClosureConfig::default() }
    }
}

impl LoopDetector {
    /// The active configuration.
    pub closed spec fn spec_config(&self) -> LoopClosureConfig {
        self.config
    }

    /// Create a detector with the given configuration.
    pub fn new(config: LoopClosureConfig) -> (r: LoopDetector)
        ensures
            r.spec_config() == config,
    {
        LoopDetector { config }
    }

    /// The active configuration.
    pub fn config(&self) -> (r: &LoopClosureConfig)
        ensures
            *r == self.spec_config(),
    {
        &self.config
    }

    /// Stage 1: indices of keyframes near `poses[current]` but at least
    /// `min_node_separation` keyframes older, nearest first, capped at
    /// `max_candidates`.
    pub fn candidates<N: Numerics>(&self, poses: &Vec<Pose2>, current: usize) -> (r: Vec<usize>)
        ensures
            r@.len() <= self.spec_config().max_candidates,
            forall|k: int|
                0 <= k < r@.len() ==> is_older(
                    (#[trigger] r@[k]) as int,
                    current,
                    self.spec_config().min_node_separation,
                ) && current < poses@.len(),
            deterministic::<N>() ==> r@.map_values(|i: usize| i as int) == candidates_for::<N>(
                poses@,
                current,
                self.spec_config(),
            ),
    {
        if current >= poses.len() {
            let none: Vec<usize> = Vec::new();
            proof {
                assert(none@.map_values(|i: usize| i as int) =~= Seq::<int>::empty());
            }
            return none;
        }
        let here = poses[current];
        let r2 = times::<N>(self.config.search_radius_m, self.config.search_radius_m);
        let limit: usize = if self.config.min_node_separation == 0 {
            current
        } else if current >= self.config.min_node_separation {
            current - self.config.min_node_separation + 1
        } else {
            0
        };
        let mut near: Vec<usize> = Vec::new();
        let mut keys: Vec<F64> = Vec::new();
        for i in 0..limit
            invariant
                limit <= current < poses@.len(),
                here == poses@[current as int],
                near@.len() == keys@.len(),
                forall|k: int| 0 <= k < near@.len() ==> (#[trigger] near@[k]) < limit,
                deterministic::<N>() ==> near@.map_values(|j: usize| j as int) == nearby::<N>(
                    poses@,
                    here,
                    r2,
                    i as nat,
                ),
                deterministic::<N>() ==> keys@ == distances::<N>(
                    poses@,
                    here,
                    near@.map_values(|j: usize| j as int),
                ),
        {
            let p = poses[i];
            let dx = minus::<N>(p.x, here.x);
            let dy = minus::<N>(p.y, here.y);
            let d2 = plus::<N>(times::<N>(dx, dx), times::<N>(dy, dy));
            if d2.le(r2) {
                let ghost before = near@;
                near.push(i);
                keys.push(d2);
                proof {
                    assert(near@.map_values(|j: usize| j as int) =~= before.map_values(
                        |j: usize| j as int,
                    ).push(i as int));
                    if deterministic::<N>() {
                        assert(keys@ =~= distances::<N>(
                            poses@,
                            here,
                            near@.map_values(|j: usize| j as int),
                        ));
                    }
                }
            }
        }
        let order = stable_order(&keys);
        let count: usize = if self.config.max_candidates < order.len() {
            self.config.max_candidates
        } else {
            order.len()
        };
        let ghost indices = ordered(keys@, keys@.len());
        let mut out: Vec<usize> = Vec::new();
        for k in 0..count
            invariant
                count <= order@.len(),
                near@.len() == keys@.len(),
                order@.map_values(|i: usize| i as int) == indices,
                forall|j: int| 0 <= j < order@.len() ==> (#[trigger] order@[j]) < keys@.len(),
                forall|j: int| 0 <= j < near@.len() ==> (#[trigger] near@[j]) < limit,
                out@.len() == k,
                forall|j: int| 0 <= j < out@.len() ==> (#[trigger] out@[j]) < limit,
                forall|j: int|
                    0 <= j < k ==> #[trigger] out@[j] as int == near@.map_values(
                        |i: usize| i as int,
                    )[indices[j]],
        {
            proof {
                assert(indices[k as int] == order@[k as int] as int);
            }
            out.push(near[order[k]]);
        }
        proof {
            if deterministic::<N>() {
                assert(order@.map_values(|i: usize| i as int).len() == order@.len());
                assert(out@.map_values(|i: usize| i as int) =~= candidates_for::<N>(
                    poses@,
                    current,
                    self.config,
                ));
            }
        }
        out
    }

    /// Stages 1 and 2: find the best verified loop constraint for the keyframe
    /// `current`, or `None` if no candidate survives verification.
    ///
    /// Only hard failures propagate (such as [`SlamError::GridTooLarge`] from a
    /// mis-configured verification window); candidates that merely fail to match
    /// are skipped.
    pub fn detect<N: Numerics, K: KeyframeLike>(&self, keyframes: &Vec<K>, current: usize) -> (r:
        Result<Option<LoopConstraint>, SlamError>)
        ensures
            deterministic::<N>() ==> r == detected::<N>(
                poses_of(keyframes@),
                scans_of(keyframes@),
                current,
                self.spec_config(),
            ),
            current >= keyframes@.len() ==> r == Ok::<Option<LoopConstraint>, SlamError>(None),
            r matches Ok(Some(c)) ==> is_older(
                c.node as int,
                current,
                self.spec_config().min_node_separation,
            ) && !c.score.lt(self.spec_config().min_score),
            r matches Err(e) ==> !(e matches SlamError::MatchFailed { reason }),
    {
        if current >= keyframes.len() {
            return Ok(None);
        }
        let mut poses: Vec<Pose2> = Vec::new();
        for i in 0..keyframes.len()
            invariant
                poses@ =~= poses_of(keyframes@.take(i as int)),
        {
            poses.push(keyframes[i].pose());
        }
        proof {
            assert(keyframes@.take(keyframes@.len() as int) =~= keyframes@);
        }
        let config = CsmConfig {
            search_x_m: self.config.verification_window_m,
            search_y_m: self.config.verification_window_m,
            search_theta_rad: self.config.verification_theta_rad,
            angular_step_rad: F64 { bits: 0x3f84_7ae1_47ae_147b },
            linear_step_m: F64 { bits: 0x3f94_7ae1_47ae_147b },
            ..CsmConfig::default()
        };
        let scan = keyframes[current].scan();
        let candidates = self.candidates::<N>(&poses, current);
        let ghost indices = candidates@.map_values(|i: usize| i as int);
        let ghost scans = scans_of(keyframes@);
        let mut best: Option<LoopConstraint> = None;
        for k in 0..candidates.len()
            invariant
                current < keyframes@.len(),
                poses@ == poses_of(keyframes@),
                scans == scans_of(keyframes@),
                scan.points@ == scans[current as int],
                config == self.config.verification(),
                config.usable(),
                indices == candidates@.map_values(|i: usize| i as int),
                deterministic::<N>() ==> indices == candidates_for::<N>(
                    poses@,
                    current,
                    self.config,
                ),
                forall|j: int|
                    0 <= j < candidates@.len() ==> is_older(
                        (#[trigger] candidates@[j]) as int,
                        current,
                        self.config.min_node_separation,
                    ),
                best matches Some(b) ==> is_older(
                    b.node as int,
                    current,
                    self.config.min_node_separation,
                ) && !b.score.lt(self.config.min_score),
                deterministic::<N>() ==> verified::<N>(
                    poses@,
                    scans,
                    current as int,
                    indices,
                    self.config,
                    k as nat,
                ) == Ok::<Option<LoopConstraint>, SlamError>(best),
        {
            let i: usize = candidates[k];
            proof {
                assert(indices[k as int] == i);
                assert(is_older(i as int, current, self.config.min_node_separation));
            }
            let guess = poses[i].between::<N>(&poses[current]);
            let result = match_points::<N>(
                &keyframes[i].scan().points,
                &scan.points,
                &guess,
                &config,
            );
            match weigh_up::<N>(best, i, result, self.config.min_score) {
                Ok(b) => {
                    best = b;
                },
                Err(e) => {
                    proof {
                        lemma_verification_error_stays::<N>(
                            poses@,
                            scans,
                            current as int,
                            indices,
                            self.config,
                            (k + 1) as nat,
                            indices.len(),
                        );
                    }
                    return Err(e);
                },
            }
        }
        Ok(best)
    }
}

// ---- Laws ----

/// The search returns only keyframes that lie within the radius and are at least
/// the configured number of keyframes older, no more than configured, the nearest
/// first.
pub proof fn law_candidates_are_near_and_old<N: Numerics>(
    poses: Seq<Pose2>,
    current: usize,
    config: LoopClosureConfig,
)
    requires
        current < poses.len(),
    ensures
        ({
            let found = candidates_for::<N>(poses, current, config);
            let here = poses[current as int];
            let r2 = product::<N>(config.search_radius_m, config.search_radius_m);
            &&& found.len() <= config.max_candidates
            &&& forall|k: int|
                0 <= k < found.len() ==> {
                    &&& 0 <= #[trigger] found[k]
                    &&& is_older(found[k], current, config.min_node_separation)
                    &&& distance2::<N>(poses[found[k]], here).le(r2)
                }
            &&& forall|j: int, k: int|
                #![trigger found[j], found[k]]
                0 <= j < k < found.len() ==> distance2::<N>(poses[found[j]], here).le(
                    distance2::<N>(poses[found[k]], here),
                )
        }),
{
    let here = poses[current as int];
    let r2 = product::<N>(config.search_radius_m, config.search_radius_m);
    let n = old_enough(current, config.min_node_separation);
    let near = nearby::<N>(poses, here, r2, n);
    lemma_nearby::<N>(poses, here, r2, n);
    let keys = distances::<N>(poses, here, near);
    assert forall|i: int| 0 <= i < keys.len() implies !(#[trigger] keys[i]).is_nan() by {
        assert(distance2::<N>(poses[near[i]], here).le(r2));
    }
    law_order_is_stable_and_ascending(keys, near.len());
    let order = ordered(keys, near.len());
    let found = candidates_for::<N>(poses, current, config);
    assert(order.len() == near.len());
    assert forall|k: int| 0 <= k < found.len() implies {
        &&& 0 <= #[trigger] found[k]
        &&& is_older(found[k], current, config.min_node_separation)
        &&& distance2::<N>(poses[found[k]], here).le(r2)
    } by {
        assert(0 <= order[k] < near.len());
        assert(found[k] == near[order[k]]);
    }
    assert forall|j: int, k: int|
        #![trigger found[j], found[k]]
        0 <= j < k < found.len() implies distance2::<N>(poses[found[j]], here).le(
        distance2::<N>(poses[found[k]], here),
    ) by {
        assert(keys[order[j]].le(keys[order[k]]));
        assert(0 <= order[j] < near.len() && 0 <= order[k] < near.len());
        assert(found[j] == near[order[j]] && found[k] == near[order[k]]);
    }
}

/// What is nearby is within the radius.
proof fn lemma_nearby<N: Numerics>(poses: Seq<Pose2>, here: Pose2, r2: F64, n: nat)
    ensures
        forall|k: int|
            0 <= k < nearby::<N>(poses, here, r2, n).len() ==> {
                &&& 0 <= #[trigger] nearby::<N>(poses, here, r2, n)[k] < n
                &&& distance2::<N>(poses[nearby::<N>(poses, here, r2, n)[k]], here).le(r2)
            },
    decreases n,
{
    if n > 0 {
        lemma_nearby::<N>(poses, here, r2, (n - 1) as nat);
        let before = nearby::<N>(poses, here, r2, (n - 1) as nat);
        let now = nearby::<N>(poses, here, r2, n);
        assert forall|k: int| 0 <= k < now.len() implies {
            &&& 0 <= #[trigger] now[k] < n
            &&& distance2::<N>(poses[now[k]], here).le(r2)
        } by {
            if k < before.len() {
                assert(now[k] == before[k]);
            }
        }
    }
}

/// A keyframe's own recent past is no loop: with fewer keyframes before it than the
/// separation there is no candidate.
pub proof fn law_recent_keyframes_are_no_loop<N: Numerics>(
    poses: Seq<Pose2>,
    current: usize,
    config: LoopClosureConfig,
)
    requires
        current < config.min_node_separation,
    ensures
        candidates_for::<N>(poses, current, config).len() == 0,
{
}

/// Every keyframe that is near and at least the configured number of keyframes
/// older is a candidate, unless the list is full and holds none that is farther.
pub proof fn law_near_and_old_keyframes_are_candidates<N: Numerics>(
    poses: Seq<Pose2>,
    current: usize,
    config: LoopClosureConfig,
    i: int,
)
    requires
        current < poses.len(),
        0 <= i,
        is_older(i, current, config.min_node_separation),
        distance2::<N>(poses[i], poses[current as int]).le(
            product::<N>(config.search_radius_m, config.search_radius_m),
        ),
    ensures
        ({
            let found = candidates_for::<N>(poses, current, config);
            let here = poses[current as int];
            found.contains(i) || (found.len() == config.max_candidates && forall|k: int|
                0 <= k < found.len() ==> distance2::<N>(poses[#[trigger] found[k]], here).le(
                    distance2::<N>(poses[i], here),
                ))
        }),
{
    let here = poses[current as int];
    let r2 = product::<N>(config.search_radius_m, config.search_radius_m);
    let n = old_enough(current, config.min_node_separation);
    let near = nearby::<N>(poses, here, r2, n);
    lemma_nearby::<N>(poses, here, r2, n);
    lemma_nearby_is_complete::<N>(poses, here, r2, n, i);
    let k = choose|k: int| 0 <= k < near.len() && near[k] == i;
    let keys = distances::<N>(poses, here, near);
    assert forall|j: int| 0 <= j < keys.len() implies !(#[trigger] keys[j]).is_nan() by {
        assert(distance2::<N>(poses[near[j]], here).le(r2));
    }
    law_order_is_stable_and_ascending(keys, near.len());
    let order = ordered(keys, near.len());
    lemma_order_is_complete(keys, near.len(), k);
    let at = choose|at: int| 0 <= at < order.len() && order[at] == k;
    let found = candidates_for::<N>(poses, current, config);
    if at < found.len() {
        assert(found[at] == i);
    } else {
        assert forall|j: int| 0 <= j < found.len() implies distance2::<N>(
            poses[#[trigger] found[j]],
            here,
        ).le(distance2::<N>(poses[i], here)) by {
            assert(0 <= order[j] < near.len());
            assert(keys[order[j]].le(keys[order[at]]));
            assert(found[j] == near[order[j]]);
        }
    }
}

/// Every near pose is found.
proof fn lemma_nearby_is_complete<N: Numerics>(
    poses: Seq<Pose2>,
    here: Pose2,
    r2: F64,
    n: nat,
    i: int,
)
    requires
        0 <= i < n,
        distance2::<N>(poses[i], here).le(r2),
    ensures
        nearby::<N>(poses, here, r2, n).contains(i),
        nearby::<N>(poses, here, r2, n).len() <= n,
    decreases n,
{
    let before = nearby::<N>(poses, here, r2, (n - 1) as nat);
    let now = nearby::<N>(poses, here, r2, n);
    lemma_nearby_len::<N>(poses, here, r2, n);
    if i == n - 1 {
        assert(now[before.len() as int] == i);
    } else {
        lemma_nearby_is_complete::<N>(poses, here, r2, (n - 1) as nat, i);
        let k = choose|k: int| 0 <= k < before.len() && before[k] == i;
        assert(now[k] == i);
    }
}

/// No pose is found twice.
proof fn lemma_nearby_len<N: Numerics>(poses: Seq<Pose2>, here: Pose2, r2: F64, n: nat)
    ensures
        nearby::<N>(poses, here, r2, n).len() <= n,
    decreases n,
{
    if n > 0 {
        lemma_nearby_len::<N>(poses, here, r2, (n - 1) as nat);
    }
}

/// A constraint that comes out of verification scored at least the minimum.
pub proof fn law_weak_match_gives_no_constraint<N: Numerics>(
    poses: Seq<Pose2>,
    scans: Seq<Seq<Point2>>,
    current: int,
    candidates: Seq<int>,
    config: LoopClosureConfig,
    n: nat,
)
    ensures
        verified::<N>(poses, scans, current, candidates, config, n) matches Ok(Some(c))
            ==> !c.score.lt(config.min_score),
    decreases n,
{
    if n > 0 {
        law_weak_match_gives_no_constraint::<N>(
            poses,
            scans,
            current,
            candidates,
            config,
            (n - 1) as nat,
        );
    }
}

/// Error of a squared distance against a squared radius, times one.
pub open spec fn disc_error(c: Accuracy) -> int {
    distance_error(c) + unit() * c.e
}

/// The exact squared distance of two positions, in units.
pub open spec fn exact_distance2(p: Pose2, q: Pose2) -> int {
    let (x, y) = (p.x.units() - q.x.units(), p.y.units() - q.y.units());
    x * x + y * y
}

/// Both positions are operands, and no farther apart than a factor in each coordinate.
pub open spec fn comparable(c: Accuracy, p: Pose2, q: Pose2) -> bool {
    &&& c.admits(p.x) && c.admits(p.y) && c.admits(q.x) && c.admits(q.y)
    &&& near(p.x.units() - q.x.units(), 0, c.side - c.e)
    &&& near(p.y.units() - q.y.units(), 0, c.side - c.e)
}

/// A position compared with the radius, by the exact values.
proof fn lemma_in_disc<N: Numerics>(c: Accuracy, p: Pose2, q: Pose2, radius: F64)
    requires
        c.wf(),
        c.describes::<N>(),
        c.is_factor(radius),
        comparable(c, p, q),
    ensures
        ({
            let r = radius.units();
            let found = distance2::<N>(p, q).le(product::<N>(radius, radius));
            &&& found ==> exact_distance2(p, q) <= r * r + disc_error(c)
            &&& exact_distance2(p, q) + disc_error(c) <= r * r ==> found
        }),
{
    lemma_units_of_constants();
    lemma_squared_distance::<N>(c, p.x, p.y, q.x, q.y);
    lemma_product_admitted::<N>(c, radius, radius);
    let d2 = distance2::<N>(p, q);
    let r2 = product::<N>(radius, radius);
    law_order_is_value_order(d2, r2);
    lemma_multiple_order(unit(), d2.units(), r2.units());
}

/// Every candidate lies, by the exact values of the coordinates, within the search
/// radius of the current position, up to rounding; and every old enough keyframe that
/// lies within it by more than the rounding is found, unless the list is full of
/// keyframes that are no farther.
pub proof fn law_candidates_lie_in_the_disc<N: Numerics>(
    c: Accuracy,
    poses: Seq<Pose2>,
    current: usize,
    config: LoopClosureConfig,
)
    requires
        c.wf(),
        c.describes::<N>(),
        c.is_factor(config.search_radius_m),
        current < poses.len(),
        forall|i: int|
            0 <= i < poses.len() ==> comparable(c, #[trigger] poses[i], poses[current as int]),
    ensures
        ({
            let here = poses[current as int];
            let r = config.search_radius_m.units();
            let found = candidates_for::<N>(poses, current, config);
            &&& forall|k: int|
                0 <= k < found.len() ==> exact_distance2(poses[#[trigger] found[k]], here) <= r * r
                    + disc_error(c)
            &&& forall|i: int|
                0 <= i && i < current && i + config.min_node_separation <= current
                    && exact_distance2(#[trigger] poses[i], here) + disc_error(c) <= r * r
                    ==> found.contains(i) || (found.len() == config.max_candidates && forall|k: int|
                    0 <= k < found.len() ==> exact_distance2(poses[#[trigger] found[k]], here)
                        <= exact_distance2(poses[i], here) + 2 * distance_error(c))
        }),
{
    let here = poses[current as int];
    let r = config.search_radius_m.units();
    let found = candidates_for::<N>(poses, current, config);
    law_candidates_are_near_and_old::<N>(poses, current, config);
    assert forall|k: int| 0 <= k < found.len() implies exact_distance2(
        poses[#[trigger] found[k]],
        here,
    ) <= r * r + disc_error(c) by {
        assert(0 <= found[k] < poses.len());
        lemma_in_disc::<N>(c, poses[found[k]], here, config.search_radius_m);
    }
    assert forall|i: int|
        0 <= i && i < current && i + config.min_node_separation <= current && exact_distance2(
            #[trigger] poses[i],
            here,
        ) + disc_error(c) <= r * r implies found.contains(i) || (found.len()
        == config.max_candidates && forall|k: int|
        0 <= k < found.len() ==> exact_distance2(poses[#[trigger] found[k]], here)
            <= exact_distance2(poses[i], here) + 2 * distance_error(c)) by {
        lemma_in_disc::<N>(c, poses[i], here, config.search_radius_m);
        law_near_and_old_keyframes_are_candidates::<N>(poses, current, config, i);
        if !found.contains(i) {
            assert forall|k: int| 0 <= k < found.len() implies exact_distance2(
                poses[#[trigger] found[k]],
                here,
            ) <= exact_distance2(poses[i], here) + 2 * distance_error(c) by {
                assert(0 <= found[k] < poses.len());
                let (p, q) = (poses[found[k]], poses[i]);
                lemma_units_of_constants();
                lemma_squared_distance::<N>(c, p.x, p.y, here.x, here.y);
                lemma_squared_distance::<N>(c, q.x, q.y, here.x, here.y);
                let (d, f) = (distance2::<N>(p, here), distance2::<N>(q, here));
                law_order_is_value_order(d, f);
                lemma_multiple_order(unit(), d.units(), f.units());
            }
        }
    }
}

} // verus!
