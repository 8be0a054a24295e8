//! Crate-wide error type.

use vstd::prelude::*;

use crate::float::{F32, F64};

verus! {

/// Why an input, a match or a stored state was rejected.
#[derive(Debug, Clone, Copy, PartialEq, Eq, Structural)]
#[non_exhaustive]
pub enum Reason {
    /// Must be finite and greater than zero.
    NotFinitePositive(F64),
    /// Both coordinates must be finite.
    PointNotFinite(F64, F64),
    /// Must be greater than zero, and is zero.
    Zero,
    /// Must fit in 32 bits.
    BeyondU32,
    /// Must be finite and of the given sign.
    WrongSign {
        /// `true` if the value must be greater than zero, `false` if less.
        positive: bool,
        /// The rejected value.
        value: F32,
    },
    /// Must be finite.
    NotFinite(F64),
    /// Must not be less than zero.
    Negative(F64),
    /// Must be greater than zero.
    NotPositive(F64),
    /// Must exceed the minimum range.
    RangeOrder {
        /// The minimum range.
        min: F64,
        /// The rejected maximum range.
        max: F64,
    },
    /// The likelihood field has no finite reference point.
    NoFiniteReference,
    /// The query scan is empty.
    EmptyQuery,
    /// The search window holds no candidate.
    EmptyWindow,
    /// Query and reference overlap nowhere in the search window.
    NoOverlap,
    /// Too few points to match.
    TooFewPoints {
        /// Points of the reference scan.
        reference: usize,
        /// Points of the query scan.
        query: usize,
        /// Points needed in each.
        need: usize,
    },
    /// Too few finite reference points.
    TooFewFiniteReference,
    /// Only this many correspondences are within range.
    TooFewCorrespondences(usize),
    /// The normal equations are singular.
    SingularNormalEquations,
    /// The grid has too few occupied cells.
    TooFewOccupiedCells {
        /// Occupied cells found.
        found: usize,
        /// Occupied cells needed.
        need: usize,
    },
    /// There are more nodes than 32-bit keys.
    TooManyNodes,
    /// A constraint refers to a node that does not exist.
    MissingNode(usize),
    /// A node id does not fit in a 32-bit key.
    NodeIdBeyondU32,
    /// An information matrix is not positive definite.
    NotPositiveDefinite,
    /// The solver met a structurally invalid system.
    InvalidSystem,
    /// The solver could not make a step.
    FailedToStep,
    /// The stored state ends before its header does.
    TooShort,
    /// The stored state does not begin with the state magic.
    BadMagic,
    /// The stored state has this unsupported version.
    BadVersion(u32),
}

/// Errors returned by this crate.
#[derive(Debug, Clone, Copy, PartialEq)]
#[non_exhaustive]
pub enum SlamError {
    /// A configuration field failed validation.
    InvalidConfig {
        /// Name of the offending config field.
        field: &'static str,
        /// Why the value was rejected.
        reason: Reason,
    },
    /// An input scan exceeded the configured point-count limit.
    ScanTooLarge {
        /// Number of points in the rejected scan.
        actual: usize,
        /// Configured maximum.
        limit: usize,
    },
    /// A grid configuration would allocate more cells than allowed.
    GridTooLarge {
        /// Requested total cell count (`width × height`).
        cells: usize,
        /// Configured maximum.
        limit: usize,
    },
    /// Scan matching failed to produce a usable estimate.
    MatchFailed {
        /// Why the match was rejected.
        reason: Reason,
    },
    /// Pose-graph optimization failed.
    OptimizationFailed {
        /// The underlying failure.
        reason: Reason,
    },
    /// Saving or loading state failed.
    Serialization {
        /// What went wrong while encoding or decoding.
        reason: Reason,
    },
}

} // verus!
