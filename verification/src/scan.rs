//! Scan data as consumed by the SLAM pipeline.

use vstd::prelude::*;

use crate::pose::Point2;

verus! {

/// A lidar scan in the sensor frame, already converted to Cartesian: metres,
/// x forward, y left.
#[derive(Debug)]
pub struct ScanCloud {
    /// Scan points in the sensor frame, metres.
    pub points: Vec<Point2>,
    /// Capture time in nanoseconds since an arbitrary, monotonic session epoch.
    pub timestamp_ns: u64,
}

impl ScanCloud {
    /// Create a scan cloud from points (metres, sensor frame) and a timestamp
    /// (nanoseconds since the session epoch).
    pub fn new(points: Vec<Point2>, timestamp_ns: u64) -> (r: ScanCloud)
        ensures
            r.points == points,
            r.timestamp_ns == timestamp_ns,
    {
        ScanCloud { points, timestamp_ns }
    }

    /// Number of points in the scan.
    pub fn len(&self) -> (r: usize)
        ensures
            r == self.points@.len(),
    {
        self.points.len()
    }

    /// `true` if the scan contains no points.
    pub fn is_empty(&self) -> (r: bool)
        ensures
            r == (self.points@.len() == 0),
    {
        self.points.len() == 0
    }
}

impl Default for ScanCloud {
    fn default() -> (r: ScanCloud)
        ensures
            r.points@.len() == 0,
            r.timestamp_ns == 0,
    {
        ScanCloud { points: Vec::new(), timestamp_ns: 0 }
    }
}

impl Clone for ScanCloud {
    fn clone(&self) -> (r: ScanCloud)
        ensures
            r.points@ == self.points@,
            r.timestamp_ns == self.timestamp_ns,
    {
        ScanCloud { points: self.points.clone(), timestamp_ns: self.timestamp_ns }
    }
}

} // verus!
