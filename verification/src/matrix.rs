//! 3×3 matrices and 3-vectors over `(x, y, θ)`.

use vstd::prelude::*;

use crate::float::F64;

verus! {

/// A 3-vector.
#[derive(Debug, Clone, Copy, PartialEq, Eq, Structural)]
pub struct Vector3 {
    /// First component.
    pub x: F64,
    /// Second component.
    pub y: F64,
    /// Third component.
    pub z: F64,
}

/// A 3×3 matrix; `m12` is row 1, column 2.
#[derive(Debug, Clone, Copy, PartialEq, Eq, Structural)]
pub struct Matrix3 {
    /// Row 1, column 1.
    pub m11: F64,
    /// Row 1, column 2.
    pub m12: F64,
    /// Row 1, column 3.
    pub m13: F64,
    /// Row 2, column 1.
    pub m21: F64,
    /// Row 2, column 2.
    pub m22: F64,
    /// Row 2, column 3.
    pub m23: F64,
    /// Row 3, column 1.
    pub m31: F64,
    /// Row 3, column 2.
    pub m32: F64,
    /// Row 3, column 3.
    pub m33: F64,
}

} // verus!
