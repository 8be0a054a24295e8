//! Pose graph.
//!
//! Nodes are keyframe poses; edges are relative-pose constraints with
//! information matrices from the scan matcher. The graph stores its own nodes
//! and edges and hands the solver a fresh [`Problem`] on every
//! [`PoseGraph::optimize`] call, which makes speculative optimization (and
//! taking it back) simple.
//!
//! Conventions of a [`Problem`]: variables have 32-bit keys, and information
//! matrices are ordered rotation first, `[θ, x, y]`, where the graph's own are
//! ordered `[x, y, θ]`.

use vstd::prelude::*;

use crate::error::{Reason, SlamError};
use crate::float::{lemma_units_of_pattern, unit, F64};
use crate::matrix::Matrix3;
use crate::numerics::{
    definite, deterministic, is_positive_definite, plus, product, sum, times, Numerics,
};
use crate::pose::{within_turn, Pose2};

verus! {

/// 10^-4: standard deviation of the anchor on the first node.
pub const ANCHOR_SIGMA: u64 = 0x3f1a_36e2_eb1c_432d;

/// 10^-9: the first regularization tried.
pub const FIRST_REGULARIZATION: u64 = 0x3e11_2e0b_e826_d695;

/// 1000: the growth of the regularization from try to try.
pub const REGULARIZATION_GROWTH: u64 = 0x408f_4000_0000_0000;

/// Number of regularizations tried, none at all being the first.
pub const REGULARIZATION_TRIES: u32 = 6;

/// Handle to a node in a [`PoseGraph`].
#[derive(Debug, Clone, Copy, PartialEq, Eq, Hash, Structural)]
pub struct NodeId(usize);

impl NodeId {
    /// The node's index.
    pub closed spec fn spec_index(self) -> usize {
        self.0
    }

    /// The handle of the node with an index.
    pub closed spec fn at(index: usize) -> NodeId {
        NodeId(index)
    }

    /// The node's index (nodes are numbered densely from 0 in insertion
    /// order).
    pub fn index(self) -> (r: usize)
        ensures
            r == self.spec_index(),
    {
        self.0
    }
}

/// A relative-pose constraint between two nodes.
#[derive(Debug, Clone, Copy, PartialEq, Eq, Structural)]
pub struct GraphEdge {
    /// Source node.
    pub from: NodeId,
    /// Target node.
    pub to: NodeId,
    /// Measured relative pose: `from.between(to)` (metres and radians).
    pub measurement: Pose2,
    /// Information matrix (inverse covariance) over `[x, y, θ]`.
    pub information: Matrix3,
    /// If `true` the edge uses a Huber robust kernel, so a bad constraint
    /// degrades the solution gracefully. Use for loop closures.
    pub robust: bool,
}

/// A prior (absolute) constraint on a single node.
#[derive(Debug, Clone, Copy, PartialEq, Eq, Structural)]
pub struct GraphPrior {
    /// Constrained node.
    pub node: NodeId,
    /// Prior pose in the world frame (metres and radians).
    pub pose: Pose2,
    /// Information matrix over `[x, y, θ]`.
    pub information: Matrix3,
}

/// The noise model of a factor.
#[derive(Debug, Clone, Copy, PartialEq, Eq, Structural)]
pub enum Noise {
    /// One standard deviation for all three components.
    Sigma(F64),
    /// A positive definite information matrix over `[θ, x, y]`.
    Information(Matrix3),
}

/// A factor on one variable.
#[derive(Debug, Clone, Copy, PartialEq, Eq, Structural)]
pub struct PriorFactor {
    /// Key of the variable.
    pub key: u32,
    /// Its expected pose.
    pub pose: Pose2,
    /// How firmly it is expected.
    pub noise: Noise,
}

/// A factor on the relative pose of two variables.
#[derive(Debug, Clone, Copy, PartialEq, Eq, Structural)]
pub struct BetweenFactor {
    /// Key of the source variable.
    pub from: u32,
    /// Key of the target variable.
    pub to: u32,
    /// The expected relative pose.
    pub measurement: Pose2,
    /// How firmly it is expected.
    pub noise: Noise,
    /// `true` for a Huber robust kernel.
    pub robust: bool,
}

/// A least-squares problem for the solver: the variable with key `i` starts at
/// pose `i`, and the prior factors stand before the between factors.
#[derive(Debug)]
pub struct Problem {
    /// Initial values.
    pub poses: Vec<Pose2>,
    /// Factors on one variable.
    pub priors: Vec<PriorFactor>,
    /// Factors on two variables.
    pub betweens: Vec<BetweenFactor>,
}

/// What a [`Problem`] holds.
pub ghost struct ProblemModel {
    /// Initial values.
    pub poses: Seq<Pose2>,
    /// Factors on one variable.
    pub priors: Seq<PriorFactor>,
    /// Factors on two variables.
    pub betweens: Seq<BetweenFactor>,
}

impl View for Problem {
    type V = ProblemModel;

    open spec fn view(&self) -> ProblemModel {
        ProblemModel {
            poses: self.poses@,
            priors: self.priors@,
            betweens: self.betweens@,
        }
    }
}

/// Where a solver ended: the value of each variable, by key, where it has one,
/// and the objective there.
#[derive(Debug)]
pub struct Estimate {
    /// Values by key; angles need not be normalized.
    pub poses: Vec<Option<Pose2>>,
    /// The objective.
    pub cost: F64,
}

/// How a solver ended.
#[derive(Debug)]
pub enum Outcome {
    /// It converged.
    Converged(Estimate),
    /// It used up its iterations.
    IterationLimit(Estimate),
    /// The system is structurally invalid.
    InvalidSystem,
    /// It could not make a step.
    FailedToStep,
}

/// The key of a node, or why it has none.
pub open spec fn key_of(id: NodeId, count: nat) -> Result<u32, SlamError> {
    if id.spec_index() >= count {
        Err(SlamError::OptimizationFailed { reason: Reason::MissingNode(id.spec_index()) })
    } else if id.spec_index() > u32::MAX {
        Err(SlamError::OptimizationFailed { reason: Reason::NodeIdBeyondU32 })
    } else {
        Ok(id.spec_index() as u32)
    }
}

/// Validate a node id against the node count and convert it to a key.
pub fn node_key(id: NodeId, count: usize) -> (r: Result<u32, SlamError>)
    ensures
        r == key_of(id, count as nat),
        r matches Ok(key) ==> key == id.spec_index() && key < count,
{
    if id.0 >= count {
        return Err(SlamError::OptimizationFailed { reason: Reason::MissingNode(id.0) });
    }
    if id.0 as u64 > u32::MAX as u64 {
        return Err(SlamError::OptimizationFailed { reason: Reason::NodeIdBeyondU32 });
    }
    Ok(id.0 as u32)
}

/// A matrix over `[x, y, θ]`, reordered to `[θ, x, y]`.
#[verifier::allow_in_spec]
pub fn rotation_first(m: Matrix3) -> Matrix3
    returns
        (Matrix3 {
            m11: m.m33,
            m12: m.m31,
            m13: m.m32,
            m21: m.m13,
            m22: m.m11,
            m23: m.m12,
            m31: m.m23,
            m32: m.m21,
            m33: m.m22,
        }),
{
    Matrix3 {
        m11: m.m33,
        m12: m.m31,
        m13: m.m32,
        m21: m.m13,
        m22: m.m11,
        m23: m.m12,
        m31: m.m23,
        m32: m.m21,
        m33: m.m22,
    }
}

/// `m` plus a diagonal matrix.
pub open spec fn loaded<N: Numerics>(m: Matrix3, diagonal: F64) -> Matrix3 {
    let zero = F64 { bits: 0 };
    Matrix3 {
        m11: sum::<N>(m.m11, diagonal),
        m12: sum::<N>(m.m12, zero),
        m13: sum::<N>(m.m13, zero),
        m21: sum::<N>(m.m21, zero),
        m22: sum::<N>(m.m22, diagonal),
        m23: sum::<N>(m.m23, zero),
        m31: sum::<N>(m.m31, zero),
        m32: sum::<N>(m.m32, zero),
        m33: sum::<N>(m.m33, diagonal),
    }
}

/// Compute [`loaded`].
fn load_diagonal<N: Numerics>(m: Matrix3, diagonal: F64) -> (r: Matrix3)
    ensures
        deterministic::<N>() ==> r == loaded::<N>(m, diagonal),
{
    let zero = F64 { bits: 0 };
    Matrix3 {
        m11: plus::<N>(m.m11, diagonal),
        m12: plus::<N>(m.m12, zero),
        m13: plus::<N>(m.m13, zero),
        m21: plus::<N>(m.m21, zero),
        m22: plus::<N>(m.m22, diagonal),
        m23: plus::<N>(m.m23, zero),
        m31: plus::<N>(m.m31, zero),
        m32: plus::<N>(m.m32, zero),
        m33: plus::<N>(m.m33, diagonal),
    }
}

/// The regularization that follows `reg`.
pub open spec fn next_regularization<N: Numerics>(reg: F64) -> F64 {
    if reg.magnitude() == 0 {
        F64 { bits: FIRST_REGULARIZATION }
    } else {
        product::<N>(reg, F64 { bits: REGULARIZATION_GROWTH })
    }
}

/// `m` with the first of the next `tries` regularizations, from `reg` on, that
/// makes it positive definite.
pub open spec fn regularized<N: Numerics>(m: Matrix3, reg: F64, tries: nat) -> Option<Matrix3>
    decreases tries,
{
    if tries == 0 {
        None
    } else if definite::<N>(loaded::<N>(m, reg)) {
        Some(loaded::<N>(m, reg))
    } else {
        regularized::<N>(m, next_regularization::<N>(reg), (tries - 1) as nat)
    }
}

/// The noise model of an `[x, y, θ]` information matrix.
pub open spec fn noise_of<N: Numerics>(information: Matrix3) -> Result<Noise, SlamError> {
    match regularized::<N>(
        rotation_first(information),
        F64 { bits: 0 },
        REGULARIZATION_TRIES as nat,
    ) {
        Some(m) => Ok(Noise::Information(m)),
        None => Err(SlamError::OptimizationFailed { reason: Reason::NotPositiveDefinite }),
    }
}

/// Convert an `[x, y, θ]` information matrix into a noise model, regularizing
/// minimally if it is not positive definite.
pub fn information_to_noise<N: Numerics>(information: &Matrix3) -> (r: Result<Noise, SlamError>)
    ensures
        deterministic::<N>() ==> r == noise_of::<N>(*information),
        r matches Err(e) ==> e == (SlamError::OptimizationFailed {
            reason: Reason::NotPositiveDefinite,
        }),
        r matches Ok(n) ==> n matches Noise::Information(m) && call_ensures(
            N::is_positive_definite,
            (m,),
            true,
        ),
{
    let permuted = rotation_first(*information);
    let mut reg = F64 { bits: 0 };
    for i in 0..REGULARIZATION_TRIES
        invariant
            permuted == rotation_first(*information),
            deterministic::<N>() ==> regularized::<N>(
                permuted,
                F64 { bits: 0 },
                REGULARIZATION_TRIES as nat,
            ) == regularized::<N>(permuted, reg, (REGULARIZATION_TRIES - i) as nat),
    {
        let candidate = load_diagonal::<N>(permuted, reg);
        if is_positive_definite::<N>(candidate) {
            return Ok(Noise::Information(candidate));
        }
        reg = if reg.magnitude() == 0 {
            F64 { bits: FIRST_REGULARIZATION }
        } else {
            times::<N>(reg, F64 { bits: REGULARIZATION_GROWTH })
        };
    }
    Err(SlamError::OptimizationFailed { reason: Reason::NotPositiveDefinite })
}

/// The factor of a prior.
pub open spec fn prior_factor<N: Numerics>(p: GraphPrior, count: nat) -> Result<
    PriorFactor,
    SlamError,
> {
    match key_of(p.node, count) {
        Err(e) => Err(e),
        Ok(key) => match noise_of::<N>(p.information) {
            Err(e) => Err(e),
            Ok(noise) => Ok(PriorFactor { key, pose: p.pose, noise }),
        },
    }
}

/// The factors of the first `n` priors, or the first error.
pub open spec fn prior_factors<N: Numerics>(
    priors: Seq<GraphPrior>,
    count: nat,
    n: nat,
) -> Result<Seq<PriorFactor>, SlamError>
    decreases n,
{
    if n == 0 {
        Ok(Seq::empty())
    } else {
        match prior_factors::<N>(priors, count, (n - 1) as nat) {
            Err(e) => Err(e),
            Ok(before) => match prior_factor::<N>(priors[n - 1], count) {
                Err(e) => Err(e),
                Ok(f) => Ok(before.push(f)),
            },
        }
    }
}

/// The factor of an edge.
pub open spec fn between_factor<N: Numerics>(e: GraphEdge, count: nat) -> Result<
    BetweenFactor,
    SlamError,
> {
    match key_of(e.from, count) {
        Err(err) => Err(err),
        Ok(from) => match key_of(e.to, count) {
            Err(err) => Err(err),
            Ok(to) => match noise_of::<N>(e.information) {
                Err(err) => Err(err),
                Ok(noise) => Ok(
                    BetweenFactor {
                        from,
                        to,
                        measurement: e.measurement,
                        noise,
                        robust: e.robust,
                    },
                ),
            },
        },
    }
}

/// The factors of the first `n` edges, or the first error.
pub open spec fn between_factors<N: Numerics>(edges: Seq<GraphEdge>, count: nat, n: nat) -> Result<
    Seq<BetweenFactor>,
    SlamError,
>
    decreases n,
{
    if n == 0 {
        Ok(Seq::empty())
    } else {
        match between_factors::<N>(edges, count, (n - 1) as nat) {
            Err(e) => Err(e),
            Ok(before) => match between_factor::<N>(edges[n - 1], count) {
                Err(e) => Err(e),
                Ok(f) => Ok(before.push(f)),
            },
        }
    }
}

/// The anchor of the first node, for a graph without priors: gauge freedom must
/// be fixed somewhere.
pub open spec fn anchor(nodes: Seq<Pose2>) -> PriorFactor {
    PriorFactor {
        key: 0,
        pose: if nodes.len() > 0 {
            nodes[0]
        } else {
            Pose2::identity()
        },
        noise: Noise::Sigma(F64 { bits: ANCHOR_SIGMA }),
    }
}

/// The solver's problem for a graph, or the first error: too many nodes, then
/// the priors' errors, then the edges'.
pub open spec fn problem_of<N: Numerics>(
    nodes: Seq<Pose2>,
    edges: Seq<GraphEdge>,
    priors: Seq<GraphPrior>,
) -> Result<ProblemModel, SlamError> {
    if nodes.len() > u32::MAX + 1 {
        Err(SlamError::OptimizationFailed { reason: Reason::TooManyNodes })
    } else {
        match prior_factors::<N>(priors, nodes.len(), priors.len()) {
            Err(e) => Err(e),
            Ok(pf) => match between_factors::<N>(edges, nodes.len(), edges.len()) {
                Err(e) => Err(e),
                Ok(betweens) => Ok(
                    ProblemModel {
                        poses: nodes,
                        priors: if priors.len() == 0 {
                            seq![anchor(nodes)]
                        } else {
                            pf
                        },
                        betweens,
                    },
                ),
            },
        }
    }
}

/// The node poses after adopting an estimate: normalized where the estimate has
/// a value, unchanged elsewhere.
pub open spec fn adopted<N: Numerics>(nodes: Seq<Pose2>, poses: Seq<Option<Pose2>>) -> Seq<Pose2> {
    Seq::new(
        nodes.len(),
        |i: int|
            if i <= u32::MAX && i < poses.len() {
                match poses[i] {
                    Some(p) => Pose2::normalized::<N>(p.x, p.y, p.theta),
                    None => nodes[i],
                }
            } else {
                nodes[i]
            },
    )
}

/// What [`PoseGraph::optimize`] makes of an outcome: an estimate is adopted,
/// whether the solver converged or not.
pub open spec fn verdict(o: Outcome) -> Result<Estimate, SlamError> {
    match o {
        Outcome::Converged(e) => Ok(e),
        Outcome::IterationLimit(e) => Ok(e),
        Outcome::InvalidSystem => Err(
            SlamError::OptimizationFailed { reason: Reason::InvalidSystem },
        ),
        Outcome::FailedToStep => Err(
            SlamError::OptimizationFailed { reason: Reason::FailedToStep },
        ),
    }
}

/// The result `r` and the node poses `after` follow from the solver's answer to
/// the problem `model`, whatever it is.
pub open spec fn answered<N: Numerics>(
    model: ProblemModel,
    max_iterations: usize,
    nodes: Seq<Pose2>,
    r: Result<F64, SlamError>,
    after: Seq<Pose2>,
) -> bool {
    exists|p: Problem, o: Outcome| #[trigger]
        call_ensures(N::solve, (&p, max_iterations), o) && p@ == model && match verdict(o) {
            Ok(e) => r == Ok::<F64, SlamError>(e.cost) && (deterministic::<N>() ==> after
                == adopted::<N>(nodes, e.poses@)),
            Err(e) => r == Err::<F64, SlamError>(e) && after == nodes,
        }
}

/// The result `r` and the node poses `after` are those of optimizing a graph: an
/// empty graph costs nothing, a graph without a valid problem is refused, and any
/// other follows the solver.
pub open spec fn optimized<N: Numerics>(
    nodes: Seq<Pose2>,
    edges: Seq<GraphEdge>,
    priors: Seq<GraphPrior>,
    max_iterations: usize,
    r: Result<F64, SlamError>,
    after: Seq<Pose2>,
) -> bool {
    if nodes.len() == 0 {
        r == Ok::<F64, SlamError>(F64 { bits: 0 }) && after == nodes
    } else {
        match problem_of::<N>(nodes, edges, priors) {
            Err(e) => r == Err::<F64, SlamError>(e) && after == nodes,
            Ok(model) => answered::<N>(model, max_iterations, nodes, r, after),
        }
    }
}

/// `cost` is what the solver says of the objective of the problem `model`.
pub open spec fn valued<N: Numerics>(model: ProblemModel, cost: F64) -> bool {
    exists|p: Problem| #[trigger] call_ensures(N::objective, (&p,), cost) && p@ == model
}

/// 2D pose graph. See the module docs for conventions.
#[derive(Debug)]
pub struct PoseGraph {
    nodes: Vec<Pose2>,
    edges: Vec<GraphEdge>,
    priors: Vec<GraphPrior>,
}

impl Default for PoseGraph {
    fn default() -> (r: PoseGraph)
        ensures
            r.spec_nodes() == Seq::<Pose2>::empty(),
            r.spec_edges() == Seq::<GraphEdge>::empty(),
            r.spec_priors() == Seq::<GraphPrior>::empty(),
    {
        PoseGraph { nodes: Vec::new(), edges: Vec::new(), priors: Vec::new() }
    }
}

impl Clone for PoseGraph {
    fn clone(&self) -> (r: PoseGraph)
        ensures
            r.spec_nodes() == self.spec_nodes(),
            r.spec_edges() == self.spec_edges(),
            r.spec_priors() == self.spec_priors(),
    {
        let r = PoseGraph {
            nodes: self.nodes.clone(),
            edges: self.edges.clone(),
            priors: self.priors.clone(),
        };
        proof {
            assert(r.nodes@ =~= self.nodes@);
            assert(r.edges@ =~= self.edges@);
            assert(r.priors@ =~= self.priors@);
        }
        r
    }
}

impl PoseGraph {
    /// Node poses in insertion order.
    pub closed spec fn spec_nodes(&self) -> Seq<Pose2> {
        self.nodes@
    }

    /// Edges in insertion order.
    pub closed spec fn spec_edges(&self) -> Seq<GraphEdge> {
        self.edges@
    }

    /// Priors in insertion order.
    pub closed spec fn spec_priors(&self) -> Seq<GraphPrior> {
        self.priors@
    }

    /// Create an empty graph.
    pub fn new() -> (r: PoseGraph)
        ensures
            r.spec_nodes() == Seq::<Pose2>::empty(),
            r.spec_edges() == Seq::<GraphEdge>::empty(),
            r.spec_priors() == Seq::<GraphPrior>::empty(),
    {
        PoseGraph { nodes: Vec::new(), edges: Vec::new(), priors: Vec::new() }
    }

    /// Rebuild a graph from saved parts. Nodes take the given poses in order;
    /// edge validity is checked at the next [`PoseGraph::optimize`].
    pub fn from_parts(poses: Vec<Pose2>, edges: Vec<GraphEdge>) -> (r: PoseGraph)
        ensures
            r.spec_nodes() == poses@,
            r.spec_edges() == edges@,
            r.spec_priors() == Seq::<GraphPrior>::empty(),
    {
        PoseGraph { nodes: poses, edges, priors: Vec::new() }
    }

    /// The [`NodeId`] for a dense insertion index (nodes are numbered from 0 in
    /// insertion order). Ids out of range are rejected at optimization time.
    pub fn node_id_for_index(index: usize) -> (r: NodeId)
        ensures
            r.spec_index() == index,
            r == NodeId::at(index),
    {
        NodeId(index)
    }

    /// Add a node with an initial pose estimate; returns its handle.
    pub fn add_node(&mut self, pose: Pose2) -> (r: NodeId)
        ensures
            final(self).spec_nodes() == old(self).spec_nodes().push(pose),
            final(self).spec_edges() == old(self).spec_edges(),
            final(self).spec_priors() == old(self).spec_priors(),
            r.spec_index() == old(self).spec_nodes().len(),
            r == NodeId::at(old(self).spec_nodes().len() as usize),
    {
        self.nodes.push(pose);
        NodeId(self.nodes.len() - 1)
    }

    /// Add a relative-pose edge. `measurement` is `from.between(to)`;
    /// `information` is the inverse covariance over `[x, y, θ]`.
    pub fn add_edge(&mut self, from: NodeId, to: NodeId, measurement: Pose2, information: Matrix3)
        ensures
            final(self).spec_nodes() == old(self).spec_nodes(),
            final(self).spec_edges() == old(self).spec_edges().push(
                GraphEdge { from, to, measurement, information, robust: false },
            ),
            final(self).spec_priors() == old(self).spec_priors(),
    {
        self.edges.push(GraphEdge { from, to, measurement, information, robust: false });
    }

    /// Like [`PoseGraph::add_edge`] but with a Huber robust kernel — use for
    /// loop-closure constraints, which may be wrong.
    pub fn add_robust_edge(
        &mut self,
        from: NodeId,
        to: NodeId,
        measurement: Pose2,
        information: Matrix3,
    )
        ensures
            final(self).spec_nodes() == old(self).spec_nodes(),
            final(self).spec_edges() == old(self).spec_edges().push(
                GraphEdge { from, to, measurement, information, robust: true },
            ),
            final(self).spec_priors() == old(self).spec_priors(),
    {
        self.edges.push(GraphEdge { from, to, measurement, information, robust: true });
    }

    /// Add an absolute prior on a node.
    pub fn add_prior(&mut self, node: NodeId, pose: Pose2, information: Matrix3)
        ensures
            final(self).spec_nodes() == old(self).spec_nodes(),
            final(self).spec_edges() == old(self).spec_edges(),
            final(self).spec_priors() == old(self).spec_priors().push(
                GraphPrior { node, pose, information },
            ),
    {
        self.priors.push(GraphPrior { node, pose, information });
    }

    /// Remove and return the most recently added edge (used to revert a
    /// speculative loop closure).
    pub fn pop_edge(&mut self) -> (r: Option<GraphEdge>)
        ensures
            final(self).spec_nodes() == old(self).spec_nodes(),
            final(self).spec_priors() == old(self).spec_priors(),
            match r {
                Some(e) => old(self).spec_edges() == final(self).spec_edges().push(e),
                None => old(self).spec_edges().len() == 0 && final(self).spec_edges() == old(self).spec_edges(),
            },
    {
        let r = self.edges.pop();
        proof {
            match r {
                Some(e) => {
                    assert(old(self).edges@ =~= self.edges@.push(e));
                },
                None => {},
            }
        }
        r
    }

    /// Current pose estimate of `id`, if it exists.
    pub fn node_pose(&self, id: NodeId) -> (r: Option<Pose2>)
        ensures
            r == (if id.spec_index() < self.spec_nodes().len() {
                Some(self.spec_nodes()[id.spec_index() as int])
            } else {
                None
            }),
    {
        if id.0 < self.nodes.len() {
            Some(self.nodes[id.0])
        } else {
            None
        }
    }

    /// All node poses in insertion order.
    pub fn node_poses(&self) -> (r: &Vec<Pose2>)
        ensures
            r@ == self.spec_nodes(),
    {
        &self.nodes
    }

    /// All edges in insertion order.
    pub fn edges(&self) -> (r: &Vec<GraphEdge>)
        ensures
            r@ == self.spec_edges(),
    {
        &self.edges
    }

    /// Number of nodes.
    pub fn node_count(&self) -> (r: usize)
        ensures
            r == self.spec_nodes().len(),
    {
        self.nodes.len()
    }

    /// Optimize the graph in place and return the final objective value. If no
    /// explicit prior exists, the first node is anchored automatically (gauge
    /// freedom).
    ///
    /// Hitting the iteration limit still adopts the (partially optimized)
    /// estimate — standard practice in an online SLAM loop.
    ///
    /// [`SlamError::OptimizationFailed`] if the problem is structurally invalid
    /// or the solver cannot make a step; node poses are left unchanged in that
    /// case.
    pub fn optimize<N: Numerics>(&mut self, max_iterations: usize) -> (r: Result<F64, SlamError>)
        ensures
            final(self).spec_edges() == old(self).spec_edges(),
            final(self).spec_priors() == old(self).spec_priors(),
            final(self).spec_nodes().len() == old(self).spec_nodes().len(),
            r is Err ==> final(self).spec_nodes() == old(self).spec_nodes(),
            r matches Err(e) ==> e is OptimizationFailed,
            old(self).spec_nodes().len() > 0 && refers_outside(
                old(self).spec_nodes(),
                old(self).spec_edges(),
                old(self).spec_priors(),
            ) ==> r is Err,
            old(self).spec_nodes().len() == 0 ==> r == Ok::<F64, SlamError>(F64 { bits: 0 }),
            deterministic::<N>() ==> optimized::<N>(
                old(self).spec_nodes(),
                old(self).spec_edges(),
                old(self).spec_priors(),
                max_iterations,
                r,
                final(self).spec_nodes(),
            ),
    {
        if self.nodes.len() == 0 {
            proof {
                assert(self.nodes@ =~= old(self).nodes@);
            }
            return Ok(F64 { bits: 0 });
        }
        match self.build_problem::<N>() {
            Err(e) => Err(e),
            Ok(problem) => {
                let outcome = N::solve(&problem, max_iterations);
                self.adopt::<N>(outcome)
            },
        }
    }

    /// Take over the outcome of a solver: an estimate replaces the node poses
    /// for which it has a value, a failure changes nothing.
    pub fn adopt<N: Numerics>(&mut self, outcome: Outcome) -> (r: Result<F64, SlamError>)
        ensures
            final(self).spec_edges() == old(self).spec_edges(),
            final(self).spec_priors() == old(self).spec_priors(),
            final(self).spec_nodes().len() == old(self).spec_nodes().len(),
            match verdict(outcome) {
                Ok(e) => r == Ok::<F64, SlamError>(e.cost) && (deterministic::<N>() ==> final(self).spec_nodes() == adopted::<N>(old(self).spec_nodes(), e.poses@)),
                Err(e) => r == Err::<F64, SlamError>(e) && final(self).spec_nodes() == old(self).spec_nodes(),
            },
    {
        let estimate = match outcome {
            Outcome::Converged(e) => e,
            Outcome::IterationLimit(e) => e,
            Outcome::InvalidSystem => {
                return Err(SlamError::OptimizationFailed { reason: Reason::InvalidSystem });
            },
            Outcome::FailedToStep => {
                return Err(SlamError::OptimizationFailed { reason: Reason::FailedToStep });
            },
        };
        let ghost target = adopted::<N>(self.nodes@, estimate.poses@);
        let count: usize = self.nodes.len();
        for i in 0..count
            invariant
                count == self.nodes@.len(),
                self.edges == old(self).edges,
                self.priors == old(self).priors,
                self.nodes@.len() == old(self).nodes@.len(),
                target == adopted::<N>(old(self).nodes@, estimate.poses@),
                forall|j: int| i <= j < self.nodes@.len() ==> self.nodes@[j] == old(self).nodes@[j],
                deterministic::<N>() ==> forall|j: int|
                    0 <= j < i ==> self.nodes@[j] == #[trigger] target[j],
        {
            if i as u64 <= u32::MAX as u64 && i < estimate.poses.len() {
                match estimate.poses[i] {
                    Some(p) => {
                        let pose = Pose2::new::<N>(p.x, p.y, p.theta);
                        self.nodes.set(i, pose);
                    },
                    None => {},
                }
            }
        }
        proof {
            if deterministic::<N>() {
                assert(self.nodes@ =~= target);
            }
        }
        Ok(estimate.cost)
    }

    /// Total objective at the current estimate (without optimizing).
    ///
    /// [`SlamError::OptimizationFailed`] if the problem cannot be built (no
    /// positive definite information matrix, too many nodes, a missing node).
    pub fn error<N: Numerics>(&self) -> (r: Result<F64, SlamError>)
        requires
            self.spec_nodes().len() + self.spec_edges().len() + self.spec_priors().len() > 0,
        ensures
            deterministic::<N>() ==> match problem_of::<N>(
                self.spec_nodes(),
                self.spec_edges(),
                self.spec_priors(),
            ) {
                Err(e) => r == Err::<F64, SlamError>(e),
                Ok(model) => r matches Ok(cost) && valued::<N>(model, cost),
            },
            refers_outside(self.spec_nodes(), self.spec_edges(), self.spec_priors()) ==> r is Err,
            r matches Err(e) ==> e is OptimizationFailed,
    {
        match self.build_problem::<N>() {
            Err(e) => Err(e),
            Ok(problem) => {
                let cost = N::objective(&problem);
                proof {
                    assert(valued::<N>(problem@, cost));
                }
                Ok(cost)
            },
        }
    }

    /// Build the solver's problem from the stored nodes, edges, and priors.
    pub fn build_problem<N: Numerics>(&self) -> (r: Result<Problem, SlamError>)
        ensures
            deterministic::<N>() ==> match problem_of::<N>(
                self.spec_nodes(),
                self.spec_edges(),
                self.spec_priors(),
            ) {
                Err(e) => r == Err::<Problem, SlamError>(e),
                Ok(model) => r matches Ok(p) && p@ == model,
            },
            r matches Ok(p) ==> problem_is_closed(p@) && problem_holds_graph(
                p@,
                self.spec_nodes(),
                self.spec_edges(),
                self.spec_priors(),
            ),
            refers_outside(self.spec_nodes(), self.spec_edges(), self.spec_priors()) ==> r is Err,
            r matches Err(e) ==> e is OptimizationFailed,
    {
        let count: usize = self.nodes.len();
        if count as u64 > u32::MAX as u64 + 1 {
            return Err(SlamError::OptimizationFailed { reason: Reason::TooManyNodes });
        }
        let poses = self.nodes.clone();
        proof {
            assert(poses@ =~= self.nodes@);
        }
        let mut priors: Vec<PriorFactor> = Vec::new();
        let mut betweens: Vec<BetweenFactor> = Vec::new();
        for i in 0..self.priors.len()
            invariant
                count == self.nodes@.len(),
                priors@.len() == i,
                forall|k: int| 0 <= k < priors@.len() ==> (#[trigger] priors@[k]).key < count,
                forall|k: int|
                    0 <= k < priors@.len() ==> says_of_prior(#[trigger] priors@[k], self.priors@[k]),
                forall|k: int|
                    0 <= k < i ==> (#[trigger] self.priors@[k]).node.spec_index() < count,
                deterministic::<N>() ==> prior_factors::<N>(self.priors@, count as nat, i as nat)
                    == Ok::<Seq<PriorFactor>, SlamError>(priors@),
                count <= u32::MAX + 1,
        {
            let p = self.priors[i];
            match node_key(p.node, count) {
                Err(e) => {
                    proof {
                        lemma_prior_error_stays::<N>(
                            self.priors@,
                            count as nat,
                            (i + 1) as nat,
                            self.priors@.len(),
                        );
                    }
                    return Err(e);
                },
                Ok(key) => match information_to_noise::<N>(&p.information) {
                    Err(e) => {
                        proof {
                            lemma_prior_error_stays::<N>(
                                self.priors@,
                                count as nat,
                                (i + 1) as nat,
                                self.priors@.len(),
                            );
                        }
                        return Err(e);
                    },
                    Ok(noise) => {
                        priors.push(PriorFactor { key, pose: p.pose, noise });
                    },
                },
            }
        }
        for i in 0..self.edges.len()
            invariant
                count == self.nodes@.len(),
                count <= u32::MAX + 1,
                priors@.len() == self.priors@.len(),
                forall|k: int|
                    0 <= k < priors@.len() ==> says_of_prior(#[trigger] priors@[k], self.priors@[k]),
                forall|k: int|
                    0 <= k < i ==> says_of_edge(#[trigger] betweens@[k], self.edges@[k]),
                forall|k: int|
                    0 <= k < self.priors@.len() ==> (#[trigger] self.priors@[k]).node.spec_index()
                        < count,
                betweens@.len() == i,
                forall|k: int|
                    0 <= k < i ==> (#[trigger] self.edges@[k]).from.spec_index() < count
                        && self.edges@[k].to.spec_index() < count,
                forall|k: int|
                    0 <= k < betweens@.len() ==> (#[trigger] betweens@[k]).from < count
                        && betweens@[k].to < count,
                deterministic::<N>() ==> prior_factors::<N>(
                    self.priors@,
                    count as nat,
                    self.priors@.len(),
                ) == Ok::<Seq<PriorFactor>, SlamError>(priors@),
                deterministic::<N>() ==> between_factors::<N>(self.edges@, count as nat, i as nat)
                    == Ok::<Seq<BetweenFactor>, SlamError>(betweens@),
        {
            let e = self.edges[i];
            match self.edge_factor::<N>(&e) {
                Err(err) => {
                    proof {
                        lemma_between_error_stays::<N>(
                            self.edges@,
                            count as nat,
                            (i + 1) as nat,
                            self.edges@.len(),
                        );
                    }
                    return Err(err);
                },
                Ok(f) => {
                    betweens.push(f);
                },
            }
        }
        if self.priors.len() == 0 {
            let pose = if count > 0 {
                self.nodes[0]
            } else {
                Pose2::identity()
            };
            priors.push(
                PriorFactor { key: 0, pose, noise: Noise::Sigma(F64 { bits: ANCHOR_SIGMA }) },
            );
            proof {
                assert(priors@ =~= seq![anchor(self.nodes@)]);
            }
        }
        Ok(Problem { poses, priors, betweens })
    }

    /// The factor of an edge.
    fn edge_factor<N: Numerics>(&self, e: &GraphEdge) -> (r: Result<BetweenFactor, SlamError>)
        ensures
            deterministic::<N>() ==> r == between_factor::<N>(*e, self.spec_nodes().len()),
            r matches Ok(f) ==> f.from < self.spec_nodes().len() && f.to < self.spec_nodes().len()
                && says_of_edge(f, *e),
            r matches Err(err) ==> err is OptimizationFailed,
    {
        let from: u32 = match node_key(e.from, self.nodes.len()) {
            Err(err) => return Err(err),
            Ok(key) => key,
        };
        let to: u32 = match node_key(e.to, self.nodes.len()) {
            Err(err) => return Err(err),
            Ok(key) => key,
        };
        let noise = match information_to_noise::<N>(&e.information) {
            Err(err) => return Err(err),
            Ok(noise) => noise,
        };
        Ok(BetweenFactor { from, to, measurement: e.measurement, noise, robust: e.robust })
    }
}

/// Some edge or prior refers to a node that does not exist.
pub open spec fn refers_outside(
    nodes: Seq<Pose2>,
    edges: Seq<GraphEdge>,
    priors: Seq<GraphPrior>,
) -> bool {
    ||| exists|k: int|
        0 <= k < edges.len() && ((#[trigger] edges[k]).from.spec_index() >= nodes.len()
            || edges[k].to.spec_index() >= nodes.len())
    ||| exists|k: int|
        0 <= k < priors.len() && (#[trigger] priors[k]).node.spec_index() >= nodes.len()
}

/// Every factor but an anchor speaks of variables that the problem has.
pub open spec fn problem_is_closed(p: ProblemModel) -> bool {
    &&& forall|k: int|
        0 <= k < p.priors.len() ==> (#[trigger] p.priors[k]).key < p.poses.len()
            || p.priors[k].noise is Sigma
    &&& forall|k: int|
        0 <= k < p.betweens.len() ==> (#[trigger] p.betweens[k]).from < p.poses.len()
            && p.betweens[k].to < p.poses.len()
}

/// An error of the first `m` priors is the error of all.
proof fn lemma_prior_error_stays<N: Numerics>(
    priors: Seq<GraphPrior>,
    count: nat,
    m: nat,
    n: nat,
)
    requires
        m <= n,
    ensures
        prior_factors::<N>(priors, count, m) is Err ==> prior_factors::<N>(priors, count, n)
            == prior_factors::<N>(priors, count, m),
    decreases n,
{
    if m < n {
        lemma_prior_error_stays::<N>(priors, count, m, (n - 1) as nat);
    }
}

/// An error of the first `m` edges is the error of all.
proof fn lemma_between_error_stays<N: Numerics>(
    edges: Seq<GraphEdge>,
    count: nat,
    m: nat,
    n: nat,
)
    requires
        m <= n,
    ensures
        between_factors::<N>(edges, count, m) is Err ==> between_factors::<N>(edges, count, n)
            == between_factors::<N>(edges, count, m),
    decreases n,
{
    if m < n {
        lemma_between_error_stays::<N>(edges, count, m, (n - 1) as nat);
    }
}

/// Node handles are their indices: equal exactly if the indices are.
pub proof fn law_ids_are_indices(a: NodeId, b: NodeId)
    ensures
        a == b <==> a.spec_index() == b.spec_index(),
        NodeId::at(a.spec_index()) == a,
{
}

/// Taking back the last edge restores the graph from before it was added.
pub proof fn law_pop_edge_undoes_add(
    before: Seq<GraphEdge>,
    after: Seq<GraphEdge>,
    e: GraphEdge,
    popped: GraphEdge,
)
    requires
        before.push(e) == after.push(popped),
    ensures
        after == before,
        popped == e,
{
    assert(before.push(e).drop_last() =~= before);
    assert(after.push(popped).drop_last() =~= after);
    assert(before.push(e).last() == e);
    assert(after.push(popped).last() == popped);
}

/// Reordering an information matrix rotation first moves every entry to the
/// place of its two components: entry `(x, θ)` to `(x, θ)`, whatever their
/// positions. Doing it three times restores the matrix.
pub proof fn law_rotating_three_times_restores(m: Matrix3)
    ensures
        rotation_first(rotation_first(rotation_first(m))) == m,
{
}

/// A positive definite information matrix is used as it is: nothing is added to
/// its diagonal but zero.
pub proof fn law_definite_matrix_is_not_regularized<N: Numerics>(information: Matrix3)
    requires
        definite::<N>(loaded::<N>(rotation_first(information), F64 { bits: 0 })),
    ensures
        noise_of::<N>(information) == Ok::<Noise, SlamError>(
            Noise::Information(loaded::<N>(rotation_first(information), F64 { bits: 0 })),
        ),
{
}

/// A graph with an edge to a missing node, whatever else is in it, is refused.
pub proof fn law_missing_node_is_refused<N: Numerics>(
    nodes: Seq<Pose2>,
    edges: Seq<GraphEdge>,
    priors: Seq<GraphPrior>,
    k: int,
)
    requires
        0 <= k < edges.len(),
        edges[k].from.spec_index() >= nodes.len() || edges[k].to.spec_index() >= nodes.len(),
    ensures
        problem_of::<N>(nodes, edges, priors) is Err,
{
    assert(between_factor::<N>(edges[k], nodes.len()) is Err);
    lemma_between_error_stays::<N>(edges, nodes.len(), (k + 1) as nat, edges.len());
}

/// Adding zero to an entry leaves it.
pub open spec fn zero_is_neutral<N: Numerics>(m: Matrix3) -> bool {
    let zero = F64 { bits: 0 };
    &&& sum::<N>(m.m11, zero) == m.m11
    &&& sum::<N>(m.m12, zero) == m.m12
    &&& sum::<N>(m.m13, zero) == m.m13
    &&& sum::<N>(m.m21, zero) == m.m21
    &&& sum::<N>(m.m22, zero) == m.m22
    &&& sum::<N>(m.m23, zero) == m.m23
    &&& sum::<N>(m.m31, zero) == m.m31
    &&& sum::<N>(m.m32, zero) == m.m32
    &&& sum::<N>(m.m33, zero) == m.m33
}

/// `m` weighs `[θ, x, y]` as `information` weighs `[x, y, θ]`: every entry stands for
/// the same two components.
pub open spec fn weighs_alike(m: Matrix3, information: Matrix3) -> bool {
    &&& m.m11 == information.m33 && m.m12 == information.m31 && m.m13 == information.m32
    &&& m.m21 == information.m13 && m.m22 == information.m11 && m.m23 == information.m12
    &&& m.m31 == information.m23 && m.m32 == information.m21 && m.m33 == information.m22
}

/// As [`weighs_alike`], but for the diagonal.
pub open spec fn weighs_alike_off_the_diagonal(m: Matrix3, information: Matrix3) -> bool {
    &&& m.m12 == information.m31 && m.m13 == information.m32
    &&& m.m21 == information.m13 && m.m23 == information.m12
    &&& m.m31 == information.m23 && m.m32 == information.m21
}

/// A noise model is the information that it was made of: entry by entry if that is
/// positive definite as it stands, and up to something added to the diagonal, which
/// makes it positive definite, if not.
pub proof fn law_noise_is_the_information<N: Numerics>(information: Matrix3)
    requires
        zero_is_neutral::<N>(information),
    ensures
        noise_of::<N>(information) matches Ok(noise) ==> (noise matches Noise::Information(m)
            && definite::<N>(m) && weighs_alike_off_the_diagonal(m, information)),
        forall|m: Matrix3|
            #![trigger weighs_alike(m, information)]
            weighs_alike(m, information) && definite::<N>(m) ==> noise_of::<N>(information) == Ok::<
                Noise,
                SlamError,
            >(Noise::Information(m)),
{
    let zero = F64 { bits: 0 };
    let permuted = Matrix3 {
        m11: information.m33,
        m12: information.m31,
        m13: information.m32,
        m21: information.m13,
        m22: information.m11,
        m23: information.m12,
        m31: information.m23,
        m32: information.m21,
        m33: information.m22,
    };
    assert(loaded::<N>(rotation_first(information), zero) == permuted);
    lemma_regularized_off_diagonal::<N>(
        rotation_first(information),
        zero,
        REGULARIZATION_TRIES as nat,
    );
    assert forall|m: Matrix3|
        #![trigger weighs_alike(m, information)]
        weighs_alike(m, information) && definite::<N>(m) implies noise_of::<N>(information) == Ok::<
        Noise,
        SlamError,
    >(Noise::Information(m)) by {
        assert(m == permuted);
    }
}

/// Regularization makes definite and adds nothing but zero off the diagonal.
proof fn lemma_regularized_off_diagonal<N: Numerics>(m: Matrix3, reg: F64, tries: nat)
    ensures
        regularized::<N>(m, reg, tries) matches Some(r) ==> definite::<N>(r) && r.m12 == sum::<N>(
            m.m12,
            F64 { bits: 0 },
        ) && r.m13 == sum::<N>(m.m13, F64 { bits: 0 }) && r.m21 == sum::<N>(
            m.m21,
            F64 { bits: 0 },
        ) && r.m23 == sum::<N>(m.m23, F64 { bits: 0 }) && r.m31 == sum::<N>(
            m.m31,
            F64 { bits: 0 },
        ) && r.m32 == sum::<N>(m.m32, F64 { bits: 0 }),
    decreases tries,
{
    if tries > 0 {
        lemma_regularized_off_diagonal::<N>(
            m,
            next_regularization::<N>(reg),
            (tries - 1) as nat,
        );
    }
}

/// The factor `f` says what the edge `e` says: the same two nodes, the same measurement
/// and the same kernel.
pub open spec fn says_of_edge(f: BetweenFactor, e: GraphEdge) -> bool {
    &&& f.from == e.from.spec_index()
    &&& f.to == e.to.spec_index()
    &&& f.measurement == e.measurement
    &&& f.robust == e.robust
    &&& f.noise is Information
}

/// The factor `f` says what the prior `p` says.
pub open spec fn says_of_prior(f: PriorFactor, p: GraphPrior) -> bool {
    &&& f.key == p.node.spec_index()
    &&& f.pose == p.pose
    &&& f.noise is Information
}

/// The problem of a graph holds the graph: every node at its pose, every edge and every
/// prior as a factor of its own, in order, and without priors an anchor of the first
/// node at its pose.
pub open spec fn problem_holds_graph(
    p: ProblemModel,
    nodes: Seq<Pose2>,
    edges: Seq<GraphEdge>,
    priors: Seq<GraphPrior>,
) -> bool {
    &&& p.poses == nodes
    &&& p.betweens.len() == edges.len()
    &&& forall|k: int| 0 <= k < edges.len() ==> says_of_edge(#[trigger] p.betweens[k], edges[k])
    &&& priors.len() > 0 ==> p.priors.len() == priors.len() && forall|k: int|
        0 <= k < priors.len() ==> says_of_prior(#[trigger] p.priors[k], priors[k])
    &&& priors.len() == 0 ==> p.priors.len() == 1 && p.priors[0].key == 0 && (nodes.len() > 0
        ==> p.priors[0].pose == nodes[0]) && p.priors[0].noise == Noise::Sigma(
        F64 { bits: ANCHOR_SIGMA },
    )
}

/// The problem that is built holds the graph, and weighs every edge and every prior with
/// its own information: entry by entry if that is positive definite.
pub proof fn law_problem_weighs_edges_with_their_information<N: Numerics>(
    nodes: Seq<Pose2>,
    edges: Seq<GraphEdge>,
    priors: Seq<GraphPrior>,
    model: ProblemModel,
)
    requires
        problem_of::<N>(nodes, edges, priors) == Ok::<ProblemModel, SlamError>(model),
    ensures
        problem_holds_graph(model, nodes, edges, priors),
        forall|k: int, m: Matrix3|
            #![trigger model.betweens[k], weighs_alike(m, edges[k].information)]
            0 <= k < edges.len() && zero_is_neutral::<N>(edges[k].information) && weighs_alike(
                m,
                edges[k].information,
            ) && definite::<N>(m) ==> model.betweens[k].noise == Noise::Information(m),
        forall|k: int, m: Matrix3|
            #![trigger model.priors[k], weighs_alike(m, priors[k].information)]
            0 <= k < priors.len() && zero_is_neutral::<N>(priors[k].information) && weighs_alike(
                m,
                priors[k].information,
            ) && definite::<N>(m) ==> model.priors[k].noise == Noise::Information(m),
{
    lemma_between_factors::<N>(edges, nodes.len(), edges.len());
    lemma_prior_factors::<N>(priors, nodes.len(), priors.len());
    assert forall|k: int, m: Matrix3|
        #![trigger model.betweens[k], weighs_alike(m, edges[k].information)]
        0 <= k < edges.len() && zero_is_neutral::<N>(edges[k].information) && weighs_alike(
            m,
            edges[k].information,
        ) && definite::<N>(m) implies model.betweens[k].noise == Noise::Information(m) by {
        law_noise_is_the_information::<N>(edges[k].information);
        assert(between_factor::<N>(edges[k], nodes.len()) == Ok::<BetweenFactor, SlamError>(
            model.betweens[k],
        ));
    }
    assert forall|k: int, m: Matrix3|
        #![trigger model.priors[k], weighs_alike(m, priors[k].information)]
        0 <= k < priors.len() && zero_is_neutral::<N>(priors[k].information) && weighs_alike(
            m,
            priors[k].information,
        ) && definite::<N>(m) implies model.priors[k].noise == Noise::Information(m) by {
        law_noise_is_the_information::<N>(priors[k].information);
        assert(prior_factor::<N>(priors[k], nodes.len()) == Ok::<PriorFactor, SlamError>(
            model.priors[k],
        ));
    }
}

/// Each between factor is that of its edge.
proof fn lemma_between_factors<N: Numerics>(edges: Seq<GraphEdge>, count: nat, n: nat)
    requires
        n <= edges.len(),
    ensures
        between_factors::<N>(edges, count, n) matches Ok(s) ==> s.len() == n && forall|k: int|
            0 <= k < n ==> between_factor::<N>(edges[k], count) == Ok::<BetweenFactor, SlamError>(
                #[trigger] s[k],
            ) && says_of_edge(s[k], edges[k]),
    decreases n,
{
    if n > 0 {
        lemma_between_factors::<N>(edges, count, (n - 1) as nat);
    }
}

/// Each prior factor is that of its prior.
proof fn lemma_prior_factors<N: Numerics>(priors: Seq<GraphPrior>, count: nat, n: nat)
    requires
        n <= priors.len(),
    ensures
        prior_factors::<N>(priors, count, n) matches Ok(s) ==> s.len() == n && forall|k: int|
            0 <= k < n ==> prior_factor::<N>(priors[k], count) == Ok::<PriorFactor, SlamError>(
                #[trigger] s[k],
            ) && says_of_prior(s[k], priors[k]),
    decreases n,
{
    if n > 0 {
        lemma_prior_factors::<N>(priors, count, (n - 1) as nat);
    }
}

/// An adopted estimate moves each node for which it has a value to that position, at that
/// heading normalized, and no other node; a failed solver moves none.
pub proof fn law_adopting_moves_nodes_to_their_values<N: Numerics>(
    nodes: Seq<Pose2>,
    poses: Seq<Option<Pose2>>,
    i: int,
)
    requires
        0 <= i < nodes.len(),
        i <= u32::MAX,
    ensures
        adopted::<N>(nodes, poses).len() == nodes.len(),
        i < poses.len() && poses[i] is Some ==> ({
            let (p, q) = (poses[i]->0, adopted::<N>(nodes, poses)[i]);
            q.x == p.x && q.y == p.y && within_turn(q.theta) && q == Pose2::normalized::<N>(
                p.x,
                p.y,
                p.theta,
            )
        }),
        i >= poses.len() || poses[i] is None ==> adopted::<N>(nodes, poses)[i] == nodes[i],
{
}

/// A handle stands for the index that it was made of.
pub proof fn law_handle_stands_for_its_index(index: usize)
    ensures
        NodeId::at(index).spec_index() == index,
{
}

/// The amount of the `k`-th try to regularize: nothing, then a billionth, then a thousand
/// times the one before.
pub open spec fn amount<N: Numerics>(k: nat) -> F64
    decreases k,
{
    if k == 0 {
        F64 { bits: 0 }
    } else if k == 1 {
        F64 { bits: 0x3e11_2e0b_e826_d695 }
    } else {
        product::<N>(amount::<N>((k - 1) as nat), F64 { bits: 0x408f_4000_0000_0000 })
    }
}

/// `r` is `m` with `d` added to each entry of the diagonal, and zero to the others.
pub open spec fn is_loaded<N: Numerics>(m: Matrix3, d: F64, r: Matrix3) -> bool {
    let zero = F64 { bits: 0 };
    &&& r.m11 == sum::<N>(m.m11, d) && r.m22 == sum::<N>(m.m22, d) && r.m33 == sum::<N>(m.m33, d)
    &&& r.m12 == sum::<N>(m.m12, zero) && r.m21 == sum::<N>(m.m21, zero)
    &&& r.m13 == sum::<N>(m.m13, zero) && r.m31 == sum::<N>(m.m31, zero)
    &&& r.m23 == sum::<N>(m.m23, zero) && r.m32 == sum::<N>(m.m32, zero)
}

/// None of the first `k` amounts makes `m` positive definite.
pub open spec fn is_indefinite_before<N: Numerics>(m: Matrix3, k: nat) -> bool {
    forall|j: nat, q: Matrix3|
        j < k && #[trigger] is_loaded::<N>(m, amount::<N>(j), q) ==> !definite::<N>(q)
}

/// Regularization is minimal: the noise is the information, rotation first, with the
/// least of six growing amounts on its diagonal that makes it positive definite, and
/// there is none only if no amount does.
pub proof fn law_regularization_is_minimal<N: Numerics>(information: Matrix3, r: Matrix3)
    requires
        forall|k: nat| 1 <= k <= 6 ==> (#[trigger] amount::<N>(k)).magnitude() != 0,
    ensures
        noise_of::<N>(information) == Ok::<Noise, SlamError>(Noise::Information(r)) ==> definite::<
            N,
        >(r) && exists|k: nat|
            k < 6 && #[trigger] is_indefinite_before::<N>(rotation_first(information), k)
                && is_loaded::<N>(rotation_first(information), amount::<N>(k), r),
        noise_of::<N>(information) is Err ==> is_indefinite_before::<N>(
            rotation_first(information),
            6,
        ),
{
    let m = rotation_first(information);
    lemma_tries::<N>(m, 0, 6);
    match regularized::<N>(m, F64 { bits: 0 }, 6) {
        Some(s) => {
            let k = choose|k: nat|
                0 <= k < 6 && s == loaded::<N>(m, #[trigger] amount::<N>(k)) && forall|j: nat|
                    0 <= j < k ==> !definite::<N>(loaded::<N>(m, #[trigger] amount::<N>(j)));
            lemma_indefinite::<N>(m, k);
            assert(is_indefinite_before::<N>(m, k));
        },
        None => {
            lemma_indefinite::<N>(m, 6);
        },
    }
}

/// Amounts that do not help.
proof fn lemma_indefinite<N: Numerics>(m: Matrix3, k: nat)
    requires
        forall|j: nat| 0 <= j < k ==> !definite::<N>(loaded::<N>(m, #[trigger] amount::<N>(j))),
    ensures
        is_indefinite_before::<N>(m, k),
{
    assert forall|j: nat, q: Matrix3|
        j < k && #[trigger] is_loaded::<N>(m, amount::<N>(j), q) implies !definite::<N>(q) by {
        assert(q == loaded::<N>(m, amount::<N>(j)));
    }
}

/// The tries from the `k`-th on.
proof fn lemma_tries<N: Numerics>(m: Matrix3, k: nat, tries: nat)
    requires
        k + tries == 6,
        forall|k: nat| 1 <= k <= 6 ==> (#[trigger] amount::<N>(k)).magnitude() != 0,
    ensures
        match regularized::<N>(m, amount::<N>(k), tries) {
            Some(r) => definite::<N>(r) && exists|i: nat|
                k <= i < 6 && r == loaded::<N>(m, #[trigger] amount::<N>(i)) && forall|j: nat|
                    k <= j < i ==> !definite::<N>(loaded::<N>(m, #[trigger] amount::<N>(j))),
            None => forall|j: nat|
                k <= j < 6 ==> !definite::<N>(loaded::<N>(m, #[trigger] amount::<N>(j))),
        },
    decreases tries,
{
    if tries > 0 {
        if definite::<N>(loaded::<N>(m, amount::<N>(k))) {
            assert(k <= k < 6);
        } else {
            assert(amount::<N>(k).magnitude() == 0 <==> k == 0);
            assert(next_regularization::<N>(amount::<N>(k)) == amount::<N>(k + 1));
            lemma_tries::<N>(m, k + 1, (tries - 1) as nat);
        }
    }
}

/// An estimate is adopted whether the solver converged or ran out of iterations; without
/// one the optimization failed.
pub proof fn law_estimate_is_adopted_either_way(o: Outcome)
    ensures
        verdict(o) is Ok <==> o is Converged || o is IterationLimit,
        o matches Outcome::Converged(e) ==> verdict(o) == Ok::<Estimate, SlamError>(e),
        o matches Outcome::IterationLimit(e) ==> verdict(o) == Ok::<Estimate, SlamError>(e),
        verdict(o) matches Err(e) ==> e is OptimizationFailed,
{
}

/// The anchor holds the first node to a ten-thousandth.
pub proof fn law_anchor_is_tight()
    ensures
        ({
            let sigma = (F64 { bits: ANCHOR_SIGMA }).units();
            9_999 * sigma < unit() && unit() < 10_001 * sigma
        }),
{
    lemma_units_of_pattern(F64 { bits: ANCHOR_SIGMA }, 1009, 0x001a_36e2_eb1c_432d);
    vstd::arithmetic::power2::lemma_pow2_adds(1008, 66);
    vstd::arithmetic::power2::lemma_pow2_adds(33, 33);
    vstd::arithmetic::power2::lemma2_to64_rest();
    vstd::arithmetic::power2::lemma_pow2_pos(1008);
    let p = vstd::arithmetic::power2::pow2(1008) as int;
    let k = 0x2_0000_0000int * 0x2_0000_0000int;
    assert(unit() == p * k);
    let s: int = 0x001a_36e2_eb1c_432d;
    assert(9_999 * (s * p) < p * k && p * k < 10_001 * (s * p)) by (nonlinear_arith)
        requires
            p > 0,
            9_999 * s < k,
            k < 10_001 * s,
    ;
}

} // verus!
