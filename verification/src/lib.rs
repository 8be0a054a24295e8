//! 2D lidar SLAM.
//!
//! The crate takes lidar scans and produces a consistent occupancy-grid map plus
//! a pose estimate. Every layer (preprocessing, scan matching, grid mapping, pose
//! graph) is independently usable; depend only on what you need.
//!
//! # Units
//!
//! **Everything inside this crate is metres and radians.** Sensor drivers often
//! report millimetres and degrees — convert once at the boundary, before
//! constructing a [`ScanCloud`], and never again. Angles are radians in the
//! half-open interval `(-π, π]`, counter-clockwise positive, in an x-forward,
//! y-left, right-handed frame.
//!
//! # Numbers
//!
//! Poses are double precision (composition accumulates error); grid cells are
//! single precision (memory-bound, precision is ample). Values are carried as bit
//! patterns ([`float`]); operations that round come from the embedding program
//! ([`numerics`]), and contracts that speak of their results hold under the
//! condition that they give one result for given operands.

pub mod accuracy;
pub mod algebra;
pub mod convert;
pub mod error;
pub mod float;
pub mod graph;
pub mod grid;
pub mod loop_closure;
pub mod matcher;
pub mod matrix;
pub mod numerics;
pub mod order;
pub mod pose;
pub mod preprocess;
pub mod scan;
pub mod slam;
pub mod slam_laws;
pub mod state;

pub use error::SlamError;
pub use graph::{NodeId, PoseGraph};
pub use grid::{GridConfig, OccupancyGrid};
pub use loop_closure::LoopClosureConfig;
pub use matcher::{MatchResult, ScanMatcher};
pub use pose::{normalize_angle, Point2, Pose2};
pub use scan::ScanCloud;
pub use slam::{Keyframe, KeyframeConfig, Slam, SlamConfig};
