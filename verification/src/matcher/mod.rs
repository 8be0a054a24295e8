//! Scan matching: ICP (scan to scan) and correlative scan matching (CSM, scan to
//! scan and scan to map).
//!
//! The scan-to-scan matchers implement [`ScanMatcher`]: given a reference, a
//! query, and an initial guess, they return the pose of the query frame expressed
//! in the reference frame, with a covariance and a normalized score.
//!
//! - [`icp::IcpMatcher`] — point-to-point ICP. Fast and accurate *given a good
//!   initial guess*; runtime varies with the data.
//! - [`csm::CorrelativeMatcher`] — CSM per Olson 2009. Evaluates a bounded 3D
//!   search window (x, y, θ) over a likelihood field, so it needs no good initial
//!   guess and its runtime is predictable.
//! - [`scan_to_map::ScanToMapMatcher`] — the same CSM machinery, but the
//!   likelihood field comes from the accumulated occupancy grid.

pub mod csm;
pub mod csm_laws;
pub mod distance;
pub mod field_laws;
pub mod icp;
pub mod icp_laws;
pub mod likelihood;
pub mod scan_to_map;

pub use csm::{CorrelativeMatcher, CsmConfig};
pub use icp::{IcpConfig, IcpMatcher};
pub use scan_to_map::{ScanToMapConfig, ScanToMapMatcher};

use vstd::prelude::*;

use crate::error::SlamError;
use crate::float::F64;
use crate::matrix::Matrix3;
use crate::numerics::{deterministic, float_of, from_u32, Numerics};
use crate::pose::{Point2, Pose2};
use crate::scan::ScanCloud;

verus! {

/// The greatest finite value.
pub const GREATEST: u64 = 0x7fef_ffff_ffff_ffff;

/// 1000: the variance of an estimate of which nothing is known.
pub const UNKNOWN_VARIANCE: u64 = 0x408f_4000_0000_0000;

/// Result of a scan match.
#[derive(Debug, Clone, Copy, PartialEq, Eq, Structural)]
pub struct MatchResult {
    /// Estimated pose of the query frame in the reference frame (metres and
    /// radians).
    pub pose: Pose2,
    /// Covariance of the estimate over `(x, y, θ)` (m², m·rad, rad²).
    pub covariance: Matrix3,
    /// Normalized match quality in `0..=1`, higher is better.
    pub score: F64,
    /// Iterations (ICP) or candidate evaluations (CSM) performed.
    pub iterations: usize,
    /// `true` if the estimate is trustworthy: the optimization converged (ICP)
    /// or the maximum lies inside the search window with an acceptable score
    /// (CSM). A `false` result is still returned — the caller decides what to do
    /// with a weak match.
    pub converged: bool,
}

/// A scan-to-scan matcher.
pub trait ScanMatcher<N: Numerics> {
    /// The configuration is one that the matcher can work with.
    spec fn ready(&self) -> bool;

    /// What the matcher makes of two point lists and a guess.
    spec fn answer(
        &self,
        reference: Seq<Point2>,
        query: Seq<Point2>,
        guess: Pose2,
    ) -> Result<MatchResult, SlamError>;

    /// What the matcher may answer to two point lists, whatever the arithmetic.
    spec fn allows(
        &self,
        reference: Seq<Point2>,
        query: Seq<Point2>,
        r: Result<MatchResult, SlamError>,
    ) -> bool;

    /// Estimate the pose of `query`'s frame expressed in `reference`'s frame,
    /// starting from `initial_guess` (metres and radians).
    ///
    /// [`SlamError::MatchFailed`] when no estimate can be produced at all
    /// (degenerate input, singular normal equations). Low-quality matches are
    /// *not* errors: they come back as `Ok` with `converged = false`.
    fn match_scans(
        &self,
        reference: &ScanCloud,
        query: &ScanCloud,
        initial_guess: &Pose2,
    ) -> (r: Result<MatchResult, SlamError>)
        requires
            self.ready(),
        ensures
            deterministic::<N>() ==> r == self.answer(
                reference.points@,
                query.points@,
                *initial_guess,
            ),
            self.allows(reference.points@, query.points@, r),
    ;
}

/// A count as a float: exact while it fits in 32 bits.
pub open spec fn float_of_count<N: Numerics>(v: u64) -> F64 {
    if v <= u32::MAX {
        float_of::<N>(v as u32)
    } else {
        F64 { bits: GREATEST }
    }
}

/// Convert a count (step counts, pool factors) to a float.
pub fn as_f64<N: Numerics>(v: u64) -> (r: F64)
    ensures
        deterministic::<N>() ==> r == float_of_count::<N>(v),
{
    if v <= u32::MAX as u64 {
        from_u32::<N>(v as u32)
    } else {
        F64 { bits: GREATEST }
    }
}

/// A length as a float, capped at the greatest 32-bit value.
pub open spec fn float_of_len<N: Numerics>(n: nat) -> F64 {
    float_of::<N>(if n <= u32::MAX {
        n as u32
    } else {
        u32::MAX
    })
}

/// Convert a length to a float, capped at the greatest 32-bit value.
pub fn len_as_f64<N: Numerics>(n: usize) -> (r: F64)
    ensures
        deterministic::<N>() ==> r == float_of_len::<N>(n as nat),
{
    from_u32::<N>(
        if n as u64 <= u32::MAX as u64 {
            n as u32
        } else {
            u32::MAX
        },
    )
}

/// A multiple of the identity matrix.
#[verifier::allow_in_spec]
pub fn diagonal(v: F64) -> Matrix3
    returns
        (Matrix3 {
            m11: v,
            m12: F64 { bits: 0 },
            m13: F64 { bits: 0 },
            m21: F64 { bits: 0 },
            m22: v,
            m23: F64 { bits: 0 },
            m31: F64 { bits: 0 },
            m32: F64 { bits: 0 },
            m33: v,
        }),
{
    let zero = F64 { bits: 0 };
    Matrix3 {
        m11: v,
        m12: zero,
        m13: zero,
        m21: zero,
        m22: v,
        m23: zero,
        m31: zero,
        m32: zero,
        m33: v,
    }
}

} // verus!
