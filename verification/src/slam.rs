//! The high-level SLAM orchestrator: preprocessing → scan-to-map matching →
//! keyframes → pose graph → loop closure, behind one [`Slam`] type.
//!
//! The loop is exposed as discrete callable steps (`process_scan` per scan, no
//! hidden threads) so an external orchestrator can drive it.

use vstd::prelude::*;

use crate::accuracy::{
    lemma_absolute_units, lemma_square_order, lemma_sum_of_squares, size, Accuracy,
};
use crate::error::SlamError;
use crate::float::{law_order_is_value_order, lemma_units_of_constants, unit, F32, F64};
use crate::graph::{optimized, GraphEdge, GraphPrior, NodeId, PoseGraph};
use crate::grid::{clamped_cells, integrated, GridConfig, OccupancyGrid};
use crate::loop_closure::{
    detected, invert_covariance, poses_of, scans_of, sound_information, KeyframeLike,
    LoopClosureConfig, LoopConstraint, LoopDetector,
};
use crate::matcher::scan_to_map::{matched_to_map, ScanToMapConfig, ScanToMapMatcher};
use crate::matcher::MatchResult;
use crate::matrix::Matrix3;
use crate::numerics::{
    deterministic, difference, inverse_of, minus, plus, product, root_of, sqrt, sum, times,
    Numerics,
};
use crate::pose::{normalize_angle, wrapped, Point2, Pose2};
use crate::preprocess::{preprocessed, PreprocessConfig, Preprocessor};
use crate::scan::ScanCloud;

verus! {

/// Top-level configuration: every stage's tunables in one place.
#[derive(Debug, Clone, Copy, PartialEq, Eq, Structural)]
pub struct SlamConfig {
    /// Scan preprocessing (range gate, outlier rejection, subsampling).
    pub preprocess: PreprocessConfig,
    /// Occupancy grid geometry and sensor model.
    pub grid: GridConfig,
    /// Scan-to-map matcher (CSM window, likelihood field).
    pub matcher: ScanToMapConfig,
    /// Loop-closure detection and gating.
    pub loop_closure: LoopClosureConfig,
    /// Keyframe policy and optimization settings.
    pub keyframes: KeyframeConfig,
}

impl Default for SlamConfig {
    fn default() -> (r: SlamConfig)
        ensures
            r.matcher == ScanToMapConfig::standard(),
            r.loop_closure == LoopClosureConfig::standard(),
            r.keyframes == KeyframeConfig::standard(),
            call_ensures(PreprocessConfig::default, (), r.preprocess),
            call_ensures(GridConfig::default, (), r.grid),
            r.matcher.csm.usable(),
    {
        SlamConfig {
            preprocess: PreprocessConfig::default(),
            grid: GridConfig::default(),
            matcher: ScanToMapConfig::default(),
            loop_closure: LoopClosureConfig::default(),
            keyframes: KeyframeConfig::default(),
        }
    }
}

/// Keyframe policy and graph-optimization tunables.
#[derive(Debug, Clone, Copy, PartialEq, Eq, Structural)]
pub struct KeyframeConfig {
    /// Insert a keyframe after moving this far, metres. Default `0.3`.
    pub distance_m: F64,
    /// Insert a keyframe after rotating this much, radians. Default `0.3`.
    pub angle_rad: F64,
    /// Gauss-Newton iterations per optimization. Default `50`.
    pub optimize_iterations: usize,
    /// Scans whose match score falls below this are tracked but neither
    /// integrated into the map nor eligible as keyframes. Default `0.2`.
    pub min_integration_score: F64,
}

impl KeyframeConfig {
    /// The default values.
    pub open spec fn standard() -> KeyframeConfig {
        KeyframeConfig {
            distance_m: F64 { bits: 0x3fd3_3333_3333_3333 },
            angle_rad: F64 { bits: 0x3fd3_3333_3333_3333 },
            optimize_iterations: 50,
            min_integration_score: F64 { bits: 0x3fc9_9999_9999_999a },
        }
    }
}

impl Default for KeyframeConfig {
    fn default() -> (r: KeyframeConfig)
        ensures
            r == KeyframeConfig::standard(),
    {
        KeyframeConfig {
            distance_m: F64 { bits: 0x3fd3_3333_3333_3333 },
            angle_rad: F64 { bits: 0x3fd3_3333_3333_3333 },
            optimize_iterations: 50,
            min_integration_score: F64 { bits: 0x3fc9_9999_9999_999a },
        }
    }
}

/// A stored keyframe: a graph node with its (preprocessed) scan.
#[derive(Debug)]
pub struct Keyframe {
    /// Current pose estimate (kept in sync with the graph).
    pub pose: Pose2,
    /// The preprocessed scan, sensor frame, metres.
    pub cloud: ScanCloud,
}

/// What a [`Keyframe`] holds.
pub ghost struct KeyframeModel {
    /// Current pose estimate.
    pub pose: Pose2,
    /// Points of the scan.
    pub points: Seq<Point2>,
    /// Timestamp of the scan.
    pub timestamp_ns: u64,
}

impl View for Keyframe {
    type V = KeyframeModel;

    open spec fn view(&self) -> KeyframeModel {
        KeyframeModel {
            pose: self.pose,
            points: self.cloud.points@,
            timestamp_ns: self.cloud.timestamp_ns,
        }
    }
}

impl Clone for Keyframe {
    fn clone(&self) -> (r: Keyframe)
        ensures
            r@ == self@,
    {
        Keyframe { pose: self.pose, cloud: self.cloud.clone() }
    }
}

impl KeyframeLike for Keyframe {
    open spec fn spec_pose(&self) -> Pose2 {
        self.pose
    }

    open spec fn spec_points(&self) -> Seq<Point2> {
        self.cloud.points@
    }

    fn pose(&self) -> (r: Pose2) {
        self.pose
    }

    fn scan(&self) -> (r: &ScanCloud) {
        &self.cloud
    }
}

/// The models of keyframes.
pub open spec fn keyframe_models(keyframes: Seq<Keyframe>) -> Seq<KeyframeModel> {
    keyframes.map_values(|k: Keyframe| k@)
}

// ---- The state and its invariant ----

/// What a [`Slam`] holds.
pub ghost struct SlamModel {
    /// Configuration.
    pub config: SlamConfig,
    /// `true` while the map is built, `false` in localization mode.
    pub mapping: bool,
    /// Graph nodes.
    pub nodes: Seq<Pose2>,
    /// Graph edges.
    pub edges: Seq<GraphEdge>,
    /// Keyframes.
    pub keyframes: Seq<KeyframeModel>,
    /// Log-odds of the map.
    pub cells: Seq<F32>,
    /// Far corner of the map.
    pub far: Point2,
    /// Current pose estimate.
    pub pose: Pose2,
    /// Accepted loop closures.
    pub loops_closed: usize,
}

impl SlamModel {
    /// Keyframes and graph nodes stand in lockstep, with equal poses; the
    /// configuration is valid and the map fits it.
    pub open spec fn wf(self) -> bool {
        &&& self.config.preprocess.fault() is None
        &&& self.config.grid.fault() is None
        &&& self.cells.len() == self.config.grid.width_cells * self.config.grid.height_cells
        &&& clamped_cells(self.cells, self.config.grid)
        &&& self.keyframes.len() == self.nodes.len()
        &&& forall|i: int|
            0 <= i < self.nodes.len() ==> (#[trigger] self.keyframes[i]).pose == self.nodes[i]
    }

    /// The map is what integrating the keyframes, one after the other, into an
    /// empty map gives.
    pub open spec fn faithful<N: Numerics>(self) -> bool {
        &&& self.far == self.config.grid.far_corner::<N>()
        &&& self.cells == replayed::<N>(
            self.config.grid,
            self.far,
            self.keyframes,
            self.keyframes.len(),
        )
    }
}

/// The map after integrating the first `n` keyframes into an empty one.
pub open spec fn replayed<N: Numerics>(
    grid: GridConfig,
    far: Point2,
    keyframes: Seq<KeyframeModel>,
    n: nat,
) -> Seq<F32>
    decreases n,
{
    if n == 0 {
        Seq::new((grid.width_cells * grid.height_cells) as nat, |i: int| F32 { bits: 0 })
    } else {
        let k = keyframes[n - 1];
        integrated::<N>(
            replayed::<N>(grid, far, keyframes, (n - 1) as nat),
            grid,
            far,
            k.pose,
            k.points,
            k.points.len(),
        )
    }
}

/// Keyframes behind the first `n` do not matter to the first `n`.
proof fn lemma_replay_of_prefix<N: Numerics>(
    grid: GridConfig,
    far: Point2,
    a: Seq<KeyframeModel>,
    b: Seq<KeyframeModel>,
    n: nat,
)
    requires
        n <= a.len(),
        n <= b.len(),
        forall|i: int| 0 <= i < n ==> a[i] == b[i],
    ensures
        replayed::<N>(grid, far, a, n) == replayed::<N>(grid, far, b, n),
    decreases n,
{
    if n > 0 {
        lemma_replay_of_prefix::<N>(grid, far, a, b, (n - 1) as nat);
    }
}

// ---- Decisions ----

/// What becomes of a match: carry the old pose forward, accept the new one, or
/// fail.
#[derive(Debug, Clone, Copy)]
pub enum Judgement {
    /// The match is too weak, or there is none.
    Carry,
    /// The match is good.
    Accept(MatchResult),
    /// Matching could not be tried at all.
    Fail(SlamError),
}

/// A match that failed, did not converge or scored below the minimum is
/// survivable; other errors are not.
pub open spec fn judged(result: Result<MatchResult, SlamError>, min_score: F64) -> Judgement {
    match result {
        Err(SlamError::MatchFailed { reason }) => Judgement::Carry,
        Err(e) => Judgement::Fail(e),
        Ok(m) => if !m.converged || m.score.lt(min_score) {
            Judgement::Carry
        } else {
            Judgement::Accept(m)
        },
    }
}

/// Judge a match while mapping.
pub fn judge(result: Result<MatchResult, SlamError>, min_score: F64) -> (r: Judgement)
    ensures
        r == judged(result, min_score),
{
    match result {
        Err(e) => match e {
            SlamError::MatchFailed { reason } => Judgement::Carry,
            _ => Judgement::Fail(e),
        },
        Ok(m) => if !m.converged || m.score.lt(min_score) {
            Judgement::Carry
        } else {
            Judgement::Accept(m)
        },
    }
}

/// A match is good enough to localize by: like [`judged`], but a score that
/// cannot be compared with the minimum is not enough.
pub open spec fn judged_strictly(result: Result<MatchResult, SlamError>, min_score: F64) -> Judgement {
    match result {
        Err(SlamError::MatchFailed { reason }) => Judgement::Carry,
        Err(e) => Judgement::Fail(e),
        Ok(m) => if m.converged && min_score.le(m.score) {
            Judgement::Accept(m)
        } else {
            Judgement::Carry
        },
    }
}

/// Judge a match while localizing.
pub fn judge_strictly(result: Result<MatchResult, SlamError>, min_score: F64) -> (r: Judgement)
    ensures
        r == judged_strictly(result, min_score),
{
    match result {
        Err(e) => match e {
            SlamError::MatchFailed { reason } => Judgement::Carry,
            _ => Judgement::Fail(e),
        },
        Ok(m) => if m.converged && min_score.le(m.score) {
            Judgement::Accept(m)
        } else {
            Judgement::Carry
        },
    }
}

/// The sensor has moved or turned far enough since the last keyframe.
pub open spec fn keyframe_due<N: Numerics>(delta: Pose2, config: KeyframeConfig) -> bool {
    ||| config.distance_m.le(
        root_of::<N>(sum::<N>(product::<N>(delta.x, delta.x), product::<N>(delta.y, delta.y))),
    )
    ||| config.angle_rad.le(delta.theta.absolute())
}

/// Keyframe policy: bound graph growth by distance and angle travelled.
pub fn is_keyframe_due<N: Numerics>(delta: &Pose2, config: &KeyframeConfig) -> (r: bool)
    ensures
        deterministic::<N>() ==> r == keyframe_due::<N>(*delta, *config),
        config.angle_rad.le(delta.theta.absolute()) ==> r,
{
    let moved = sqrt::<N>(
        plus::<N>(times::<N>(delta.x, delta.x), times::<N>(delta.y, delta.y)),
    );
    config.distance_m.le(moved) || config.angle_rad.le(delta.theta.absolute())
}

/// `a·x + b·y + c·z`.
pub open spec fn dot3<N: Numerics>(a: F64, b: F64, c: F64, x: F64, y: F64, z: F64) -> F64 {
    sum::<N>(sum::<N>(product::<N>(a, x), product::<N>(b, y)), product::<N>(c, z))
}

/// Compute [`dot3`].
fn dot<N: Numerics>(a: F64, b: F64, c: F64, x: F64, y: F64, z: F64) -> (r: F64)
    ensures
        deterministic::<N>() ==> r == dot3::<N>(a, b, c, x, y, z),
{
    plus::<N>(plus::<N>(times::<N>(a, x), times::<N>(b, y)), times::<N>(c, z))
}

/// The squared residual of a constraint between two poses, weighted by its
/// information: `rᵀ·I·r`.
pub open spec fn chi2_of<N: Numerics>(
    from: Pose2,
    to: Pose2,
    relative: Pose2,
    m: Matrix3,
) -> F64 {
    let seen = from.relative::<N>(to);
    let x = difference::<N>(seen.x, relative.x);
    let y = difference::<N>(seen.y, relative.y);
    let t = wrapped::<N>(difference::<N>(seen.theta, relative.theta));
    dot3::<N>(
        x,
        y,
        t,
        dot3::<N>(m.m11, m.m12, m.m13, x, y, t),
        dot3::<N>(m.m21, m.m22, m.m23, x, y, t),
        dot3::<N>(m.m31, m.m32, m.m33, x, y, t),
    )
}

/// Compute [`chi2_of`].
pub fn edge_chi2<N: Numerics>(from: &Pose2, to: &Pose2, relative: &Pose2, m: &Matrix3) -> (r: F64)
    ensures
        deterministic::<N>() ==> r == chi2_of::<N>(*from, *to, *relative, *m),
{
    let seen = from.between::<N>(to);
    let x = minus::<N>(seen.x, relative.x);
    let y = minus::<N>(seen.y, relative.y);
    let t = normalize_angle::<N>(minus::<N>(seen.theta, relative.theta));
    dot::<N>(
        x,
        y,
        t,
        dot::<N>(m.m11, m.m12, m.m13, x, y, t),
        dot::<N>(m.m21, m.m22, m.m23, x, y, t),
        dot::<N>(m.m31, m.m32, m.m33, x, y, t),
    )
}

// ---- Steps ----

/// The state with a keyframe more: a graph node at the current pose, an edge from
/// the previous keyframe if one is given, and the scan integrated into the map.
pub open spec fn inserted<N: Numerics>(
    s: SlamModel,
    points: Seq<Point2>,
    timestamp_ns: u64,
    edge: Option<(usize, Pose2, Matrix3)>,
) -> SlamModel {
    SlamModel {
        nodes: s.nodes.push(s.pose),
        edges: match edge {
            Some((previous, delta, covariance)) => s.edges.push(
                GraphEdge {
                    from: NodeId::at(previous),
                    to: NodeId::at(s.nodes.len() as usize),
                    measurement: delta,
                    information: sound_information(inverse_of::<N>(covariance)),
                    robust: false,
                },
            ),
            None => s.edges,
        },
        keyframes: s.keyframes.push(KeyframeModel { pose: s.pose, points, timestamp_ns }),
        cells: integrated::<N>(
            s.cells,
            s.config.grid,
            s.far,
            s.pose,
            points,
            points.len(),
        ),
        ..s
    }
}

/// The robust edge of a loop constraint.
pub open spec fn loop_edge(c: LoopConstraint, current: usize) -> GraphEdge {
    GraphEdge {
        from: NodeId::at(c.node),
        to: NodeId::at(current),
        measurement: c.relative,
        information: c.information,
        robust: true,
    }
}

/// The keyframes moved to the poses of the graph nodes.
pub open spec fn moved(keyframes: Seq<KeyframeModel>, nodes: Seq<Pose2>) -> Seq<KeyframeModel> {
    Seq::new(keyframes.len(), |i: int| KeyframeModel { pose: nodes[i], ..keyframes[i] })
}

/// The state after a loop closure: the optimized graph, the keyframes moved to its
/// poses, and the map rebuilt from them.
pub open spec fn accepted<N: Numerics>(s: SlamModel, edge: GraphEdge, nodes: Seq<Pose2>) -> SlamModel {
    let keyframes = moved(s.keyframes, nodes);
    let far = s.config.grid.far_corner::<N>();
    SlamModel {
        nodes,
        edges: s.edges.push(edge),
        keyframes,
        cells: replayed::<N>(s.config.grid, far, keyframes, keyframes.len()),
        far,
        pose: nodes.last(),
        loops_closed: (s.loops_closed + 1) as usize,
        ..s
    }
}

/// What a successful trial optimization makes of `s`: nothing if the loop edge is
/// inconsistent with the optimized graph.
pub open spec fn settled<N: Numerics>(
    s: SlamModel,
    c: LoopConstraint,
    current: usize,
    nodes: Seq<Pose2>,
) -> SlamModel {
    if s.config.loop_closure.residual_gate.lt(
        chi2_of::<N>(nodes[c.node as int], nodes[current as int], c.relative, c.information),
    ) {
        s
    } else {
        accepted::<N>(s, loop_edge(c, current), nodes)
    }
}

/// The result `r` and the state `t` come out of trying a loop constraint in the
/// state `s`: a failure of the optimization is passed on and leaves nothing of the
/// trial behind.
pub open spec fn tried<N: Numerics>(
    s: SlamModel,
    c: LoopConstraint,
    current: usize,
    r: Result<(), SlamError>,
    t: SlamModel,
) -> bool {
    exists|o: Result<F64, SlamError>, nodes: Seq<Pose2>| #[trigger]
        optimized::<N>(
            s.nodes,
            s.edges.push(loop_edge(c, current)),
            Seq::<GraphPrior>::empty(),
            s.config.keyframes.optimize_iterations,
            o,
            nodes,
        ) && match o {
            Err(e) => r == Err::<(), SlamError>(e) && t == s,
            Ok(_) => r == Ok::<(), SlamError>(()) && t == settled::<N>(s, c, current, nodes),
        }
}

/// What detection finds for the newest keyframe.
pub open spec fn found_loop<N: Numerics>(s: SlamModel) -> Result<
    Option<LoopConstraint>,
    SlamError,
> {
    detected::<N>(
        s.nodes,
        s.keyframes.map_values(|k: KeyframeModel| k.points),
        (s.keyframes.len() - 1) as usize,
        s.config.loop_closure,
    )
}

/// The result `r` and the state `t` come out of looking for a loop in the state
/// `s`.
pub open spec fn closing<N: Numerics>(s: SlamModel, r: Result<(), SlamError>, t: SlamModel) -> bool {
    match found_loop::<N>(s) {
        Err(e) => r == Err::<(), SlamError>(e) && t == s,
        Ok(None) => r == Ok::<(), SlamError>(()) && t == s,
        Ok(Some(c)) => tried::<N>(s, c, (s.keyframes.len() - 1) as usize, r, t),
    }
}

/// The match of preprocessed points against the map.
pub open spec fn match_in<N: Numerics>(s: SlamModel, points: Seq<Point2>) -> Result<
    MatchResult,
    SlamError,
> {
    matched_to_map::<N>(s.cells, s.config.grid, points, s.pose, s.config.matcher)
}

/// The result `r` and the state `t` come out of a scan in mapping mode that matched
/// the map with `result`; the first scan needs no match.
pub open spec fn mapped<N: Numerics>(
    s: SlamModel,
    points: Seq<Point2>,
    timestamp_ns: u64,
    result: Result<MatchResult, SlamError>,
    r: Result<Pose2, SlamError>,
    t: SlamModel,
) -> bool {
    if s.keyframes.len() == 0 {
        let origin = SlamModel { pose: Pose2::identity(), ..s };
        r == Ok::<Pose2, SlamError>(Pose2::identity()) && t == inserted::<N>(
            origin,
            points,
            timestamp_ns,
            None,
        )
    } else {
        match judged(result, s.config.keyframes.min_integration_score) {
            Judgement::Carry => r == Ok::<Pose2, SlamError>(s.pose) && t == s,
            Judgement::Fail(e) => r == Err::<Pose2, SlamError>(e) && t == s,
            Judgement::Accept(m) => {
                let here = SlamModel { pose: m.pose, ..s };
                let delta = s.keyframes.last().pose.relative::<N>(m.pose);
                if keyframe_due::<N>(delta, s.config.keyframes) {
                    let grown = inserted::<N>(
                        here,
                        points,
                        timestamp_ns,
                        Some(((s.keyframes.len() - 1) as usize, delta, m.covariance)),
                    );
                    closing::<N>(
                        grown,
                        match r {
                            Ok(p) => Ok(()),
                            Err(e) => Err(e),
                        },
                        t,
                    ) && (r matches Ok(p) ==> p == t.pose)
                } else {
                    r == Ok::<Pose2, SlamError>(m.pose) && t == here
                }
            },
        }
    }
}

/// The result `r` and the state `t` come out of a scan in localization mode that
/// matched the map with `result`.
pub open spec fn located(
    s: SlamModel,
    result: Result<MatchResult, SlamError>,
    r: Result<Pose2, SlamError>,
    t: SlamModel,
) -> bool {
    match judged_strictly(result, s.config.keyframes.min_integration_score) {
        Judgement::Carry => r == Ok::<Pose2, SlamError>(s.pose) && t == s,
        Judgement::Fail(e) => r == Err::<Pose2, SlamError>(e) && t == s,
        Judgement::Accept(m) => r == Ok::<Pose2, SlamError>(m.pose) && t == (SlamModel {
            pose: m.pose,
            ..s
        }),
    }
}

/// Everything mapped in the state `s` stands unchanged in the state `t`: keyframes,
/// nodes and edges have at most been added.
pub open spec fn extends(s: SlamModel, t: SlamModel) -> bool {
    &&& s.keyframes.is_prefix_of(t.keyframes)
    &&& s.nodes.is_prefix_of(t.nodes)
    &&& s.edges.is_prefix_of(t.edges)
}

/// Operating mode. See [`Slam::set_localization_mode`].
#[derive(Debug, Clone, Copy, PartialEq, Eq, Structural)]
enum Mode {
    /// Build the map while tracking (default).
    Mapping,
    /// Track against a frozen map; never modify it.
    Localization,
}

/// The SLAM system. Feed it scans; it returns poses and maintains the map.
#[derive(Debug)]
pub struct Slam {
    config: SlamConfig,
    preprocessor: Preprocessor,
    matcher: ScanToMapMatcher,
    detector: LoopDetector,
    graph: PoseGraph,
    keyframes: Vec<Keyframe>,
    grid: OccupancyGrid,
    pose: Pose2,
    mode: Mode,
    /// Scratch buffer reused across scans.
    filtered: ScanCloud,
    /// Total accepted loop closures.
    loops_closed: usize,
}

/// Serializable SLAM state. The grid is *not* stored: rebuilding it from the
/// keyframes is deterministic, so a reload reproduces identical geometry from a
/// fraction of the bytes.
#[derive(Debug)]
pub struct SlamState {
    /// Configuration.
    pub config: SlamConfig,
    /// Keyframes with their scans.
    pub keyframes: Vec<Keyframe>,
    /// Graph edges.
    pub edges: Vec<GraphEdge>,
    /// Current pose estimate.
    pub pose: Pose2,
    /// Accepted loop closures.
    pub loops_closed: usize,
}

/// The state that a stored one stands for: in mapping mode, the graph nodes at the
/// keyframes' poses and the map rebuilt from them.
pub open spec fn restored<N: Numerics>(
    config: SlamConfig,
    keyframes: Seq<KeyframeModel>,
    edges: Seq<GraphEdge>,
    pose: Pose2,
    loops_closed: usize,
) -> SlamModel {
    let far = config.grid.far_corner::<N>();
    SlamModel {
        config,
        mapping: true,
        nodes: keyframes.map_values(|k: KeyframeModel| k.pose),
        edges,
        keyframes,
        cells: replayed::<N>(config.grid, far, keyframes, keyframes.len()),
        far,
        pose,
        loops_closed,
    }
}

/// The error of a configuration, if it has one.
pub open spec fn config_fault(config: SlamConfig) -> Option<SlamError> {
    match config.preprocess.fault() {
        Some((field, reason)) => Some(SlamError::InvalidConfig { field, reason }),
        None => config.grid.fault(),
    }
}

impl View for Slam {
    type V = SlamModel;

    closed spec fn view(&self) -> SlamModel {
        SlamModel {
            config: self.config,
            mapping: self.mode == Mode::Mapping,
            nodes: self.graph.spec_nodes(),
            edges: self.graph.spec_edges(),
            keyframes: keyframe_models(self.keyframes@),
            cells: self.grid.spec_cells(),
            far: self.grid.spec_far(),
            pose: self.pose,
            loops_closed: self.loops_closed,
        }
    }
}

impl Slam {
    /// Every part runs under the configuration, and the graph has no priors.
    pub closed spec fn consistent(&self) -> bool {
        &&& self.preprocessor.spec_config() == self.config.preprocess
        &&& self.matcher.spec_config() == self.config.matcher
        &&& self.detector.spec_config() == self.config.loop_closure
        &&& self.grid.spec_config() == self.config.grid
        &&& self.graph.spec_priors() == Seq::<GraphPrior>::empty()
    }

    /// The invariant.
    pub open spec fn wf(&self) -> bool {
        self@.wf() && self.consistent()
    }

    /// Create a SLAM system with the given configuration.
    ///
    /// [`SlamError::InvalidConfig`] or [`SlamError::GridTooLarge`] if any stage's
    /// configuration fails validation.
    pub fn new<N: Numerics>(config: SlamConfig) -> (r: Result<Slam, SlamError>)
        ensures
            match config_fault(config) {
                Some(e) => r == Err::<Slam, SlamError>(e),
                None => r matches Ok(slam) && slam.wf() && slam@.config == config
                    && slam@.mapping && slam@.nodes.len() == 0 && slam@.edges.len() == 0
                    && slam@.pose == Pose2::identity() && slam@.loops_closed == 0 && (
                deterministic::<N>() ==> slam@ == restored::<N>(
                    config,
                    Seq::empty(),
                    Seq::empty(),
                    Pose2::identity(),
                    0,
                )),
            },
    {
        let preprocessor = match Preprocessor::new(config.preprocess) {
            Ok(p) => p,
            Err(e) => return Err(e),
        };
        let grid = match OccupancyGrid::new::<N>(config.grid) {
            Ok(g) => g,
            Err(e) => return Err(e),
        };
        let slam = Slam {
            config,
            preprocessor,
            matcher: ScanToMapMatcher::new(config.matcher),
            detector: LoopDetector::new(config.loop_closure),
            graph: PoseGraph::new(),
            keyframes: Vec::new(),
            grid,
            pose: Pose2::identity(),
            mode: Mode::Mapping,
            filtered: ScanCloud::default(),
            loops_closed: 0,
        };
        proof {
            assert(slam@.keyframes =~= Seq::<KeyframeModel>::empty());
            assert(slam@.nodes =~= Seq::<KeyframeModel>::empty().map_values(
                |k: KeyframeModel| k.pose,
            ));
        }
        Ok(slam)
    }

    /// Process one scan (sensor frame, metres) and return the updated world pose
    /// of the sensor.
    ///
    /// In mapping mode this may insert a keyframe, extend the pose graph, close
    /// loops, and update the grid. In localization mode the map is never touched.
    ///
    /// [`SlamError::ScanTooLarge`] for oversized input;
    /// [`SlamError::OptimizationFailed`] if the backend fails; an error of the
    /// matcher that is no mere failure to match. A merely *weak* match is not an
    /// error — the previous pose is carried forward.
    pub fn process_scan<N: Numerics>(&mut self, cloud: &ScanCloud) -> (r: Result<Pose2, SlamError>)
        requires
            old(self).wf(),
            old(self)@.config.matcher.csm.usable(),
            old(self)@.loops_closed < usize::MAX,
            cloud.points@.len() <= u32::MAX || cloud.points@.len()
                > old(self)@.config.preprocess.max_input_points,
        ensures
            final(self).wf(),
            final(self)@.config == old(self)@.config,
            final(self)@.mapping == old(self)@.mapping,
            r matches Ok(p) ==> p == final(self)@.pose,
            final(self)@.keyframes.len() <= old(self)@.keyframes.len() + 1,
            final(self)@.loops_closed == old(self)@.loops_closed || final(self)@.loops_closed
                == old(self)@.loops_closed + 1,
            final(self)@.loops_closed == old(self)@.loops_closed ==> extends(
                old(self)@,
                final(self)@,
            ),
            cloud.points@.len() > old(self)@.config.preprocess.max_input_points ==> r == Err::<
                Pose2,
                SlamError,
            >(
                SlamError::ScanTooLarge {
                    actual: cloud.points@.len() as usize,
                    limit: old(self)@.config.preprocess.max_input_points,
                },
            ) && final(self)@ == old(self)@,
            !old(self)@.mapping ==> final(self)@ == (SlamModel {
                pose: final(self)@.pose,
                ..old(self)@
            }),
            deterministic::<N>() && cloud.points@.len()
                <= old(self)@.config.preprocess.max_input_points ==> {
                let points = preprocessed::<N>(cloud.points@, old(self)@.config.preprocess);
                let result = match_in::<N>(old(self)@, points);
                if old(self)@.mapping {
                    mapped::<N>(
                        old(self)@,
                        points,
                        cloud.timestamp_ns,
                        result,
                        r,
                        final(self)@,
                    )
                } else {
                    located(old(self)@, result, r, final(self)@)
                }
            },
            deterministic::<N>() && old(self)@.faithful::<N>() ==> final(self)@.faithful::<N>(),
    {
        match self.filter_scan::<N>(cloud) {
            Err(e) => return Err(e),
            Ok(()) => {},
        }
        if self.is_unmapped() {
            Ok(self.start::<N>())
        } else {
            let result = self.match_filtered::<N>();
            self.follow::<N>(result)
        }
    }

    /// The filtered points and the timestamp of the scan in progress.
    pub closed spec fn spec_filtered(&self) -> (Seq<Point2>, u64) {
        (self.filtered.points@, self.filtered.timestamp_ns)
    }

    /// First step of [`Slam::process_scan`]: preprocess a scan.
    ///
    /// [`SlamError::ScanTooLarge`] for oversized input.
    pub fn filter_scan<N: Numerics>(&mut self, cloud: &ScanCloud) -> (r: Result<(), SlamError>)
        requires
            old(self).wf(),
            cloud.points@.len() <= u32::MAX || cloud.points@.len()
                > old(self)@.config.preprocess.max_input_points,
        ensures
            final(self).wf(),
            final(self)@ == old(self)@,
            cloud.points@.len() > old(self)@.config.preprocess.max_input_points ==> r == Err::<
                (),
                SlamError,
            >(
                SlamError::ScanTooLarge {
                    actual: cloud.points@.len() as usize,
                    limit: old(self)@.config.preprocess.max_input_points,
                },
            ) && final(self).spec_filtered() == old(self).spec_filtered(),
            cloud.points@.len() <= old(self)@.config.preprocess.max_input_points ==> r is Ok
                && final(self).spec_filtered().1 == cloud.timestamp_ns && (
            deterministic::<N>() ==> final(self).spec_filtered().0 == preprocessed::<N>(
                cloud.points@,
                old(self)@.config.preprocess,
            )),
    {
        self.preprocessor.process::<N>(cloud, &mut self.filtered)
    }

    /// `true` while the map has no keyframe and is to be built: the scan in progress
    /// starts it and needs no match.
    pub fn is_unmapped(&self) -> (r: bool)
        ensures
            r == (self@.mapping && self@.keyframes.len() == 0),
    {
        match self.mode {
            Mode::Mapping => self.keyframes.len() == 0,
            Mode::Localization => false,
        }
    }

    /// The scan in progress, preprocessed.
    pub fn filtered(&self) -> (r: &ScanCloud)
        ensures
            (r.points@, r.timestamp_ns) == self.spec_filtered(),
    {
        &self.filtered
    }

    /// Second step of [`Slam::process_scan`]: match the scan in progress against the
    /// map.
    pub fn match_filtered<N: Numerics>(&self) -> (r: Result<MatchResult, SlamError>)
        requires
            self.wf(),
            self@.config.matcher.csm.usable(),
        ensures
            deterministic::<N>() ==> r == match_in::<N>(self@, self.spec_filtered().0),
    {
        self.matcher.match_scan::<N>(&self.grid, &self.filtered, &self.pose)
    }

    /// Third step of [`Slam::process_scan`] for the first scan: bootstrap the map at
    /// the origin.
    pub fn start<N: Numerics>(&mut self) -> (r: Pose2)
        requires
            old(self).wf(),
            old(self)@.mapping,
            old(self)@.keyframes.len() == 0,
        ensures
            final(self).wf(),
            final(self)@.config == old(self)@.config,
            final(self)@.mapping,
            final(self)@.loops_closed == old(self)@.loops_closed,
            final(self)@.pose == Pose2::identity(),
            r == Pose2::identity(),
            final(self)@.keyframes == seq![
                KeyframeModel {
                    pose: Pose2::identity(),
                    points: old(self).spec_filtered().0,
                    timestamp_ns: old(self).spec_filtered().1,
                },
            ],
            extends(old(self)@, final(self)@),
            forall|result: Result<MatchResult, SlamError>|
                deterministic::<N>() ==> #[trigger] mapped::<N>(
                    old(self)@,
                    old(self).spec_filtered().0,
                    old(self).spec_filtered().1,
                    result,
                    Ok(r),
                    final(self)@,
                ),
            deterministic::<N>() && old(self)@.faithful::<N>() ==> final(self)@.faithful::<N>(),
    {
        let mut filtered = ScanCloud::default();
        core::mem::swap(&mut filtered, &mut self.filtered);
        self.pose = Pose2::identity();
        self.insert_keyframe::<N>(&filtered, None);
        self.filtered = filtered;
        proof {
            assert(self@.keyframes =~= seq![
                KeyframeModel {
                    pose: Pose2::identity(),
                    points: old(self).spec_filtered().0,
                    timestamp_ns: old(self).spec_filtered().1,
                },
            ]);
        }
        self.pose
    }

    /// Third step of [`Slam::process_scan`]: act on the match of the scan in progress,
    /// whatever it is, and return the updated pose.
    pub fn follow<N: Numerics>(&mut self, result: Result<MatchResult, SlamError>) -> (r: Result<
        Pose2,
        SlamError,
    >)
        requires
            old(self).wf(),
            !old(self)@.mapping || old(self)@.keyframes.len() > 0,
            old(self)@.loops_closed < usize::MAX,
        ensures
            final(self).wf(),
            final(self)@.config == old(self)@.config,
            final(self)@.mapping == old(self)@.mapping,
            r matches Ok(p) ==> p == final(self)@.pose,
            final(self)@.keyframes.len() <= old(self)@.keyframes.len() + 1,
            final(self)@.loops_closed == old(self)@.loops_closed || final(self)@.loops_closed
                == old(self)@.loops_closed + 1,
            final(self)@.loops_closed == old(self)@.loops_closed ==> extends(
                old(self)@,
                final(self)@,
            ),
            !old(self)@.mapping ==> located(old(self)@, result, r, final(self)@),
            old(self)@.mapping && deterministic::<N>() ==> mapped::<N>(
                old(self)@,
                old(self).spec_filtered().0,
                old(self).spec_filtered().1,
                result,
                r,
                final(self)@,
            ),
            deterministic::<N>() && old(self)@.faithful::<N>() ==> final(self)@.faithful::<N>(),
    {
        match self.mode {
            Mode::Mapping => {
                let mut filtered = ScanCloud::default();
                core::mem::swap(&mut filtered, &mut self.filtered);
                let r = self.track_and_map::<N>(&filtered, result);
                self.filtered = filtered;
                r
            },
            Mode::Localization => self.track_only(result),
        }
    }

    /// Current pose estimate (world frame, metres and radians).
    pub fn pose(&self) -> (r: Pose2)
        ensures
            r == self@.pose,
    {
        self.pose
    }

    /// The occupancy grid map.
    pub fn grid(&self) -> (r: &OccupancyGrid)
        ensures
            r.spec_cells() == self@.cells,
            r.spec_far() == self@.far,
            self.wf() ==> r.wf() && r.spec_config() == self@.config.grid,
    {
        &self.grid
    }

    /// The stored keyframes (poses stay in sync with the graph).
    pub fn keyframes(&self) -> (r: &Vec<Keyframe>)
        ensures
            keyframe_models(r@) == self@.keyframes,
    {
        &self.keyframes
    }

    /// The underlying pose graph.
    pub fn graph(&self) -> (r: &PoseGraph)
        ensures
            r.spec_nodes() == self@.nodes,
            r.spec_edges() == self@.edges,
            self.wf() ==> r.spec_priors() == Seq::<GraphPrior>::empty(),
    {
        &self.graph
    }

    /// The configuration this system was built with.
    pub fn config(&self) -> (r: &SlamConfig)
        ensures
            *r == self@.config,
    {
        &self.config
    }

    /// Number of loop closures accepted so far.
    pub fn loops_closed(&self) -> (r: usize)
        ensures
            r == self@.loops_closed,
    {
        self.loops_closed
    }

    /// Switch between mapping (default) and localization mode. In localization
    /// mode the map and graph are frozen; scans only update the pose estimate.
    pub fn set_localization_mode(&mut self, enabled: bool)
        ensures
            final(self)@ == (SlamModel { mapping: !enabled, ..old(self)@ }),
            old(self).wf() ==> final(self).wf(),
    {
        self.mode = if enabled {
            Mode::Localization
        } else {
            Mode::Mapping
        };
    }

    /// `true` when in localization mode.
    pub fn is_localization_mode(&self) -> (r: bool)
        ensures
            r == !self@.mapping,
    {
        match self.mode {
            Mode::Localization => true,
            Mode::Mapping => false,
        }
    }

    // ---- internals ----

    /// Track a scan and extend the map.
    fn track_and_map<N: Numerics>(
        &mut self,
        filtered: &ScanCloud,
        result: Result<MatchResult, SlamError>,
    ) -> (r: Result<Pose2, SlamError>)
        requires
            old(self).wf(),
            old(self)@.keyframes.len() > 0,
            old(self)@.loops_closed < usize::MAX,
        ensures
            final(self).wf(),
            final(self)@.config == old(self)@.config,
            final(self)@.mapping == old(self)@.mapping,
            r matches Ok(p) ==> p == final(self)@.pose,
            final(self)@.keyframes.len() <= old(self)@.keyframes.len() + 1,
            final(self)@.loops_closed == old(self)@.loops_closed || final(self)@.loops_closed
                == old(self)@.loops_closed + 1,
            final(self)@.loops_closed == old(self)@.loops_closed ==> extends(
                old(self)@,
                final(self)@,
            ),
            deterministic::<N>() ==> mapped::<N>(
                old(self)@,
                filtered.points@,
                filtered.timestamp_ns,
                result,
                r,
                final(self)@,
            ),
            deterministic::<N>() && old(self)@.faithful::<N>() ==> final(self)@.faithful::<N>(),
    {
        let m = match judge(result, self.config.keyframes.min_integration_score) {
            Judgement::Carry => return Ok(self.pose),
            Judgement::Fail(e) => return Err(e),
            Judgement::Accept(m) => m,
        };
        self.pose = m.pose;
        let last: usize = self.keyframes.len() - 1;
        let delta = self.keyframes[last].pose.between::<N>(&self.pose);
        proof {
            assert(old(self)@.keyframes.last() == self.keyframes@[last as int]@);
        }
        if is_keyframe_due::<N>(&delta, &self.config.keyframes) {
            self.insert_keyframe::<N>(filtered, Some((last, delta, m.covariance)));
            match self.try_close_loop::<N>() {
                Ok(()) => {},
                Err(e) => return Err(e),
            }
        }
        Ok(self.pose)
    }

    /// Track a scan in the frozen map.
    fn track_only(&mut self, result: Result<MatchResult, SlamError>) -> (r: Result<
        Pose2,
        SlamError,
    >)
        requires
            old(self).wf(),
        ensures
            final(self).wf(),
            final(self)@ == (SlamModel { pose: final(self)@.pose, ..old(self)@ }),
            r matches Ok(p) ==> p == final(self)@.pose,
            located(old(self)@, result, r, final(self)@),
    {
        match judge_strictly(result, self.config.keyframes.min_integration_score) {
            Judgement::Carry => Ok(self.pose),
            Judgement::Fail(e) => Err(e),
            Judgement::Accept(m) => {
                self.pose = m.pose;
                Ok(self.pose)
            },
        }
    }

    /// Store a keyframe: add the graph node (and odometry-style edge from the
    /// previous keyframe when given) and integrate the scan into the grid.
    fn insert_keyframe<N: Numerics>(
        &mut self,
        filtered: &ScanCloud,
        edge_from: Option<(usize, Pose2, Matrix3)>,
    )
        requires
            old(self).wf(),
        ensures
            final(self).wf(),
            final(self)@.config == old(self)@.config,
            final(self)@.mapping == old(self)@.mapping,
            final(self)@.pose == old(self)@.pose,
            final(self)@.loops_closed == old(self)@.loops_closed,
            final(self)@.keyframes == old(self)@.keyframes.push(
                KeyframeModel {
                    pose: old(self)@.pose,
                    points: filtered.points@,
                    timestamp_ns: filtered.timestamp_ns,
                },
            ),
            final(self)@.nodes == old(self)@.nodes.push(old(self)@.pose),
            match edge_from {
                None => final(self)@.edges == old(self)@.edges,
                Some((previous, delta, covariance)) => final(self)@.edges
                    == old(self)@.edges.push(final(self)@.edges.last())
                    && final(self)@.edges.last().from == NodeId::at(previous)
                    && final(self)@.edges.last().to == NodeId::at(
                    old(self)@.nodes.len() as usize,
                ) && final(self)@.edges.last().measurement == delta
                    && !final(self)@.edges.last().robust,
            },
            deterministic::<N>() ==> final(self)@ == inserted::<N>(
                old(self)@,
                filtered.points@,
                filtered.timestamp_ns,
                edge_from,
            ),
            deterministic::<N>() && old(self)@.faithful::<N>() ==> final(self)@.faithful::<N>(),
    {
        let id = self.graph.add_node(self.pose);
        match edge_from {
            Some((previous, delta, covariance)) => {
                let information = invert_covariance::<N>(&covariance);
                self.graph.add_edge(node(previous), id, delta, information);
            },
            None => {},
        }
        self.grid.integrate_scan::<N>(&self.pose, filtered);
        let keyframe = Keyframe { pose: self.pose, cloud: filtered.clone() };
        self.keyframes.push(keyframe);
        proof {
            let before = old(self)@.keyframes;
            assert(self@.keyframes =~= before.push(keyframe@));
            if edge_from is Some {
                assert(self@.edges =~= old(self)@.edges.push(self@.edges.last()));
            }
            lemma_replay_of_prefix::<N>(
                self@.config.grid,
                self@.far,
                before,
                self@.keyframes,
                before.len(),
            );
        }
    }

    /// Loop-closure stages 1 to 3. Detection runs on the freshly added keyframe;
    /// gating optimizes a *copy* of the graph and adopts it only if the loop edge
    /// stays consistent — a rejected constraint leaves no trace, nor does a failed
    /// optimization, which is reported.
    fn try_close_loop<N: Numerics>(&mut self) -> (r: Result<(), SlamError>)
        requires
            old(self).wf(),
            old(self)@.keyframes.len() > 0,
            old(self)@.loops_closed < usize::MAX,
        ensures
            final(self).wf(),
            final(self)@.config == old(self)@.config,
            final(self)@.mapping == old(self)@.mapping,
            final(self)@.keyframes.len() == old(self)@.keyframes.len(),
            final(self)@ == old(self)@ || final(self)@.loops_closed == old(self)@.loops_closed + 1,
            deterministic::<N>() ==> closing::<N>(old(self)@, r, final(self)@),
            deterministic::<N>() && old(self)@.faithful::<N>() ==> final(self)@.faithful::<N>(),
    {
        let ghost s = self@;
        let current: usize = self.keyframes.len() - 1;
        proof {
            assert(poses_of(self.keyframes@) =~= s.nodes) by {
                assert forall|i: int| 0 <= i < s.nodes.len() implies poses_of(self.keyframes@)[i]
                    == s.nodes[i] by {
                    assert(s.keyframes[i] == self.keyframes@[i]@);
                }
            }
            assert(scans_of(self.keyframes@) =~= s.keyframes.map_values(
                |k: KeyframeModel| k.points,
            ));
        }
        let constraint = match self.detector.detect::<N, Keyframe>(&self.keyframes, current) {
            Err(e) => return Err(e),
            Ok(None) => return Ok(()),
            Ok(Some(c)) => c,
        };
        let mut trial = self.graph.clone();
        trial.add_robust_edge(
            node(constraint.node),
            node(current),
            constraint.relative,
            constraint.information,
        );
        let ghost edges = trial.spec_edges();
        proof {
            assert(edges == s.edges.push(loop_edge(constraint, current)));
        }
        let outcome = trial.optimize::<N>(self.config.keyframes.optimize_iterations);
        let ghost nodes = trial.spec_nodes();
        proof {
            if deterministic::<N>() {
                assert(optimized::<N>(
                    s.nodes,
                    edges,
                    Seq::<GraphPrior>::empty(),
                    s.config.keyframes.optimize_iterations,
                    outcome,
                    nodes,
                ));
            }
        }
        match outcome {
            Err(e) => {
                return Err(e);
            },
            Ok(_) => {},
        }
        let (from, to) = match (
            trial.node_pose(node(constraint.node)),
            trial.node_pose(node(current)),
        ) {
            (Some(from), Some(to)) => (from, to),
            _ => return Ok(()),
        };
        let chi2 = edge_chi2::<N>(&from, &to, &constraint.relative, &constraint.information);
        if self.detector.config().residual_gate.lt(chi2) {
            return Ok(());
        }
        self.graph = trial;
        self.follow_graph();
        proof {
            assert(self@.keyframes =~= moved(s.keyframes, nodes));
            assert(self@.keyframes == keyframe_models(self.keyframes@));
            assert(self.keyframes@.len() == self@.keyframes.len());
        }
        self.pose = self.keyframes[current].pose;
        proof {
            assert(self@.keyframes[current as int] == self.keyframes@[current as int]@);
        }
        self.rebuild_grid::<N>();
        self.loops_closed += 1;
        Ok(())
    }

    /// Move the keyframes to the poses of their graph nodes.
    fn follow_graph(&mut self)
        requires
            old(self)@.keyframes.len() == old(self)@.nodes.len(),
        ensures
            final(self)@ == (SlamModel {
                keyframes: moved(old(self)@.keyframes, old(self)@.nodes),
                ..old(self)@
            }),
            old(self).consistent() ==> final(self).consistent(),
    {
        let count: usize = self.keyframes.len();
        let ghost nodes = self@.nodes;
        let ghost before = self@.keyframes;
        for i in 0..count
            invariant
                count == self.keyframes@.len(),
                count == nodes.len(),
                count == before.len(),
                before == old(self)@.keyframes,
                nodes == old(self)@.nodes,
                self.graph == old(self).graph,
                self.grid == old(self).grid,
                self.config == old(self).config,
                self.mode == old(self).mode,
                self.pose == old(self).pose,
                self.loops_closed == old(self).loops_closed,
                self.preprocessor == old(self).preprocessor,
                self.matcher == old(self).matcher,
                self.detector == old(self).detector,
                nodes == self.graph.spec_nodes(),
                forall|j: int|
                    0 <= j < count ==> (#[trigger] self.keyframes@[j])@ == (if j < i {
                        KeyframeModel { pose: nodes[j], ..before[j] }
                    } else {
                        before[j]
                    }),
        {
            let pose = self.graph.node_poses()[i];
            self.keyframes[i].pose = pose;
        }
        proof {
            assert(self@.keyframes =~= moved(before, nodes));
        }
    }

    /// Re-integrate every keyframe scan at its (optimized) pose.
    fn rebuild_grid<N: Numerics>(&mut self)
        requires
            old(self)@.config.grid.fault() is None,
            old(self).consistent(),
        ensures
            final(self).consistent(),
            final(self)@ == (SlamModel {
                cells: final(self)@.cells,
                far: final(self)@.far,
                ..old(self)@
            }),
            final(self)@.cells.len() == old(self)@.config.grid.width_cells
                * old(self)@.config.grid.height_cells,
            clamped_cells(final(self)@.cells, old(self)@.config.grid),
            deterministic::<N>() ==> final(self)@.faithful::<N>(),
    {
        match OccupancyGrid::new::<N>(self.config.grid) {
            Ok(fresh) => {
                let mut grid = fresh;
                for i in 0..self.keyframes.len()
                    invariant
                        self == old(self),
                        grid.wf(),
                        grid.spec_config() == self.config.grid,
                        deterministic::<N>() ==> grid.spec_far()
                            == self.config.grid.far_corner::<N>(),
                        deterministic::<N>() ==> grid.spec_cells() == replayed::<N>(
                            self.config.grid,
                            grid.spec_far(),
                            keyframe_models(self.keyframes@),
                            i as nat,
                        ),
                {
                    let k = &self.keyframes[i];
                    proof {
                        assert(keyframe_models(self.keyframes@)[i as int] == k@);
                    }
                    grid.integrate_scan::<N>(&k.pose, &k.cloud);
                }
                self.grid = grid;
            },
            Err(_) => {},
        }
    }

    /// The state to save.
    pub fn snapshot(&self) -> (r: SlamState)
        ensures
            r.config == self@.config,
            keyframe_models(r.keyframes@) == self@.keyframes,
            r.edges@ == self@.edges,
            r.pose == self@.pose,
            r.loops_closed == self@.loops_closed,
    {
        let mut keyframes: Vec<Keyframe> = Vec::new();
        for i in 0..self.keyframes.len()
            invariant
                keyframe_models(keyframes@) =~= keyframe_models(self.keyframes@.take(i as int)),
                keyframes@.len() == i,
        {
            let k = self.keyframes[i].clone();
            let ghost before = keyframes@;
            keyframes.push(k);
            proof {
                assert(keyframe_models(keyframes@) =~= keyframe_models(before).push(k@));
                assert(keyframe_models(self.keyframes@.take(i + 1)) =~= keyframe_models(
                    self.keyframes@.take(i as int),
                ).push(self.keyframes@[i as int]@));
            }
        }
        proof {
            assert(self.keyframes@.take(self.keyframes@.len() as int) =~= self.keyframes@);
        }
        let edges = self.graph.edges().clone();
        proof {
            assert(edges@ =~= self.graph.spec_edges());
        }
        SlamState {
            config: self.config,
            keyframes,
            edges,
            pose: self.pose,
            loops_closed: self.loops_closed,
        }
    }

    /// Restore a saved state. The grid is rebuilt from the stored keyframes. The
    /// system starts in mapping mode; call [`Slam::set_localization_mode`] to
    /// localize in the map without extending it.
    ///
    /// Fails as [`Slam::new`] does on an invalid configuration.
    pub fn restore<N: Numerics>(state: SlamState) -> (r: Result<Slam, SlamError>)
        ensures
            match config_fault(state.config) {
                Some(e) => r == Err::<Slam, SlamError>(e),
                None => r matches Ok(slam) && slam.wf() && slam@ == (SlamModel {
                    cells: slam@.cells,
                    far: slam@.far,
                    ..restored::<N>(
                        state.config,
                        keyframe_models(state.keyframes@),
                        state.edges@,
                        state.pose,
                        state.loops_closed,
                    )
                }) && (deterministic::<N>() ==> slam@ == restored::<N>(
                    state.config,
                    keyframe_models(state.keyframes@),
                    state.edges@,
                    state.pose,
                    state.loops_closed,
                )),
            },
    {
        let mut slam = match Slam::new::<N>(state.config) {
            Ok(s) => s,
            Err(e) => return Err(e),
        };
        let mut poses: Vec<Pose2> = Vec::new();
        for i in 0..state.keyframes.len()
            invariant
                poses@.len() == i,
                forall|j: int|
                    0 <= j < i ==> #[trigger] poses@[j] == state.keyframes@[j].pose,
        {
            poses.push(state.keyframes[i].pose);
        }
        let ghost models = keyframe_models(state.keyframes@);
        proof {
            assert(poses@ =~= models.map_values(|k: KeyframeModel| k.pose));
        }
        slam.graph = PoseGraph::from_parts(poses, state.edges);
        slam.keyframes = state.keyframes;
        slam.pose = state.pose;
        slam.loops_closed = state.loops_closed;
        slam.rebuild_grid::<N>();
        Ok(slam)
    }
}

/// Keyframe index to graph node id (they are inserted in lockstep).
pub fn node(index: usize) -> (r: NodeId)
    ensures
        r == NodeId::at(index),
        r.spec_index() == index,
{
    PoseGraph::node_id_for_index(index)
}

// ---- Laws ----

/// Saving and restoring a system gives the same keyframes, graph, pose and map
/// back, in mapping mode.
pub proof fn law_restoring_a_snapshot_restores_the_map<N: Numerics>(s: SlamModel)
    requires
        s.wf(),
        s.faithful::<N>(),
    ensures
        restored::<N>(s.config, s.keyframes, s.edges, s.pose, s.loops_closed) == (SlamModel {
            mapping: true,
            ..s
        }),
{
    assert(s.keyframes.map_values(|k: KeyframeModel| k.pose) =~= s.nodes);
}

/// In localization mode a scan changes nothing but the pose.
pub proof fn law_localization_freezes_the_map(
    s: SlamModel,
    result: Result<MatchResult, SlamError>,
    r: Result<Pose2, SlamError>,
    t: SlamModel,
)
    requires
        located(s, result, r, t),
    ensures
        t == (SlamModel { pose: t.pose, ..s }),
{
}

/// A failed or weak match is no error: the pose is carried forward and nothing is
/// mapped, in either mode.
pub proof fn law_weak_match_carries_the_pose<N: Numerics>(
    s: SlamModel,
    points: Seq<Point2>,
    timestamp_ns: u64,
    result: Result<MatchResult, SlamError>,
    r: Result<Pose2, SlamError>,
    t: SlamModel,
)
    requires
        match result {
            Ok(m) => !m.converged || m.score.lt(s.config.keyframes.min_integration_score),
            Err(e) => e is MatchFailed,
        },
        if s.mapping {
            s.keyframes.len() > 0 && mapped::<N>(s, points, timestamp_ns, result, r, t)
        } else {
            located(s, result, r, t)
        },
    ensures
        r == Ok::<Pose2, SlamError>(s.pose),
        t == s,
{
}

/// A rejected loop constraint leaves no trace: unless a closure is counted,
/// nothing has changed.
pub proof fn law_rejected_loop_leaves_no_trace<N: Numerics>(
    s: SlamModel,
    r: Result<(), SlamError>,
    t: SlamModel,
)
    requires
        closing::<N>(s, r, t),
        s.loops_closed < usize::MAX,
    ensures
        t == s || t.loops_closed == s.loops_closed + 1,
{
}

/// An accepted loop edge is consistent with the optimized graph: its residual lies
/// within the configured bound, or cannot be compared with it.
pub proof fn law_accepted_loop_is_consistent<N: Numerics>(
    s: SlamModel,
    c: LoopConstraint,
    current: usize,
    nodes: Seq<Pose2>,
)
    requires
        settled::<N>(s, c, current, nodes) != s,
    ensures
        !s.config.loop_closure.residual_gate.lt(
            chi2_of::<N>(nodes[c.node as int], nodes[current as int], c.relative, c.information),
        ),
        settled::<N>(s, c, current, nodes).edges == s.edges.push(loop_edge(c, current)),
{
}

/// A backend failure is passed on, and nothing of the trial is kept.
pub proof fn law_backend_failure_is_reported<N: Numerics>(
    s: SlamModel,
    c: LoopConstraint,
    r: Result<(), SlamError>,
    t: SlamModel,
)
    requires
        found_loop::<N>(s) == Ok::<Option<LoopConstraint>, SlamError>(Some(c)),
        closing::<N>(s, r, t),
        forall|o: Result<F64, SlamError>, nodes: Seq<Pose2>| #[trigger]
            optimized::<N>(
                s.nodes,
                s.edges.push(loop_edge(c, (s.keyframes.len() - 1) as usize)),
                Seq::<GraphPrior>::empty(),
                s.config.keyframes.optimize_iterations,
                o,
                nodes,
            ) ==> o is Err && o->Err_0 is OptimizationFailed,
    ensures
        r is Err,
        r->Err_0 is OptimizationFailed,
        t == s,
{
}

/// The first scan sets up the map at the origin.
pub proof fn law_first_scan_starts_at_the_origin<N: Numerics>(
    s: SlamModel,
    points: Seq<Point2>,
    timestamp_ns: u64,
    result: Result<MatchResult, SlamError>,
    r: Result<Pose2, SlamError>,
    t: SlamModel,
)
    requires
        s.keyframes.len() == 0,
        mapped::<N>(s, points, timestamp_ns, result, r, t),
    ensures
        r == Ok::<Pose2, SlamError>(Pose2::identity()),
        t.keyframes.len() == 1,
        t.keyframes[0].pose == Pose2::identity(),
        t.keyframes[0].points == points,
{
}

/// A keyframe is due by the length of the way since the last one, in whatever direction,
/// or by the angle turned: with the exact length `√(x² + y²)` it is due where that
/// reaches the configured distance by more than the rounding, it is not due by distance
/// where it falls short by more, and it is due where the angle is reached.
pub proof fn law_keyframe_is_due_by_length_or_angle<N: Numerics>(
    c: Accuracy,
    delta: Pose2,
    config: KeyframeConfig,
)
    requires
        c.wf(),
        c.describes::<N>(),
        c.describes_roots::<N>(),
        c.is_factor(delta.x),
        c.is_factor(delta.y),
        delta.theta.is_finite(),
        config.distance_m.is_finite(),
        config.distance_m.units() >= 0,
        config.angle_rad.is_finite(),
    ensures
        ({
            let (x, y, t) = (delta.x.units(), delta.y.units(), delta.theta.units());
            let reach = config.distance_m.units();
            let slack = 4 * (unit() * c.e);
            &&& reach * reach + slack <= x * x + y * y ==> keyframe_due::<N>(delta, config)
            &&& config.angle_rad.units() <= size(t) ==> keyframe_due::<N>(delta, config)
            &&& keyframe_due::<N>(delta, config) ==> reach * reach <= x * x + y * y + slack
                || config.angle_rad.units() <= size(t)
        }),
{
    lemma_units_of_constants();
    lemma_sum_of_squares::<N>(c, delta.x, delta.y);
    let s = sum::<N>(product::<N>(delta.x, delta.x), product::<N>(delta.y, delta.y));
    let r = root_of::<N>(s);
    law_order_is_value_order(config.distance_m, r);
    lemma_square_order(config.distance_m.units(), r.units());
    lemma_absolute_units(delta.theta);
    law_order_is_value_order(config.angle_rad, delta.theta.absolute());
}

/// The direction of a way does not matter to whether a keyframe is due: turned by a
/// quarter, or mirrored, it is due as before, where sums do not depend on the order of
/// their terms nor squares on the sign.
pub proof fn law_keyframe_policy_has_no_direction<N: Numerics>(
    x: F64,
    y: F64,
    theta: F64,
    config: KeyframeConfig,
)
    requires
        sum::<N>(product::<N>(x, x), product::<N>(y, y)) == sum::<N>(
            product::<N>(y, y),
            product::<N>(x, x),
        ),
        product::<N>(x.negated(), x.negated()) == product::<N>(x, x),
    ensures
        keyframe_due::<N>(Pose2 { x, y, theta }, config) == keyframe_due::<N>(
            Pose2 { x: y, y: x, theta },
            config,
        ),
        keyframe_due::<N>(Pose2 { x, y, theta }, config) == keyframe_due::<N>(
            Pose2 { x: x.negated(), y, theta },
            config,
        ),
        keyframe_due::<N>(Pose2 { x, y, theta }, config) == keyframe_due::<N>(
            Pose2 { x: y, y: x.negated(), theta: theta.negated() },
            config,
        ),
{
    assert(theta.negated().absolute() == theta.absolute());
}

} // verus!
