//! Floating-point operations that round, as an interface.
//!
//! The pipeline computes in floating point, on values that [`crate::float`]
//! carries as bit patterns. What rounds, or is the work of a numerical library,
//! is an operation of [`Numerics`], which the embedding program implements; the
//! pipeline is generic over it and assumes nothing of the results.
//!
//! Contracts name those results: `sum::<N>(a, b)` is what `N::plus` returns for
//! `a` and `b`. A name stands for one value, so a contract that uses one speaks
//! under the condition [`deterministic`]: that `N` gives one result for given
//! operands.

use vstd::prelude::*;

use crate::float::{F32, F64};
use crate::graph::{Outcome, Problem};
use crate::matrix::{Matrix3, Vector3};
use crate::pose::Point2;

verus! {

/// A nearest neighbour: its squared distance and its position in the point
/// list that the tree was built from.
#[derive(Debug, Clone, Copy, PartialEq, Eq, Structural)]
pub struct Nearest {
    /// Squared distance to the neighbour, square metres.
    pub distance: F64,
    /// Position of the neighbour in the point list.
    pub item: u64,
}

/// The numerical operations that the pipeline needs.
///
/// No operation promises anything: every function of the crate copes with
/// whatever comes back. An implementation on floating-point hardware gives every
/// NaN one bit pattern, so that equal operands have equal results.
pub trait Numerics: Sized {
    /// A nearest-neighbour index over a list of points.
    type Tree;

    /// `a + b`, rounded.
    fn plus(a: F64, b: F64) -> F64;

    /// `a - b`, rounded.
    fn minus(a: F64, b: F64) -> F64;

    /// `a * b`, rounded.
    fn times(a: F64, b: F64) -> F64;

    /// `a / b`, rounded.
    fn over(a: F64, b: F64) -> F64;

    /// The least non-negative remainder of `a` by `b`.
    fn rem_euclid(a: F64, b: F64) -> F64;

    /// The largest integer not above `a`.
    fn floor(a: F64) -> F64;

    /// The smallest integer not below `a`.
    fn ceil(a: F64) -> F64;

    /// The square root of `a`.
    fn sqrt(a: F64) -> F64;

    /// The exponential of `a`.
    fn exp(a: F64) -> F64;

    /// The sine and the cosine of `a` radians.
    fn sin_cos(a: F64) -> (F64, F64);

    /// `a` to the power `n`.
    fn powi(a: F64, n: i32) -> F64;

    /// `n` as a binary64 value.
    fn from_u32(n: u32) -> F64;

    /// `a + b` in binary32, rounded.
    fn plus32(a: F32, b: F32) -> F32;

    /// `a - b` in binary32, rounded.
    fn minus32(a: F32, b: F32) -> F32;

    /// `a * b` in binary32, rounded.
    fn times32(a: F32, b: F32) -> F32;

    /// `a / b` in binary32, rounded.
    fn over32(a: F32, b: F32) -> F32;

    /// The exponential of `a` in binary32.
    fn exp32(a: F32) -> F32;

    /// The natural logarithm of `a` in binary32.
    fn ln32(a: F32) -> F32;

    /// `a`, rounded to binary32.
    fn narrow(a: F64) -> F32;

    /// `a` as a binary64 value.
    fn widen(a: F32) -> F64;

    /// The inverse of `m`, if `m` is not singular.
    fn try_inverse(m: Matrix3) -> Option<Matrix3>;

    /// `true` if `m` has a Cholesky factorization.
    fn is_positive_definite(m: Matrix3) -> bool;

    /// The solution `x` of `m x = b` by Cholesky factorization, if `m` has one.
    fn cholesky_solve(m: Matrix3, b: Vector3) -> Option<Vector3>;

    /// Index `points`.
    fn build_tree(points: &Vec<Point2>) -> Self::Tree;

    /// The point of the index that is nearest to `p`.
    fn nearest(tree: &Self::Tree, p: Point2) -> Nearest;

    /// Minimize the objective of `problem` from its initial values, in at most
    /// `max_iterations` steps.
    fn solve(problem: &Problem, max_iterations: usize) -> Outcome;

    /// The objective of `problem` at its initial values.
    fn objective(problem: &Problem) -> F64;
}

/// `N` gives one result for given operands, in every operation but the solver.
///
/// An implementation whose operations state their results as functions of their
/// operands meets this.
#[verifier::opaque]
pub open spec fn deterministic<N: Numerics>() -> bool {
    &&& forall|a: F64, b: F64, r: F64, s: F64|
        #![trigger call_ensures(N::plus, (a, b), r), call_ensures(N::plus, (a, b), s)]
        call_ensures(N::plus, (a, b), r) && call_ensures(N::plus, (a, b), s) ==> r == s
    &&& forall|a: F64, b: F64, r: F64, s: F64|
        #![trigger call_ensures(N::minus, (a, b), r), call_ensures(N::minus, (a, b), s)]
        call_ensures(N::minus, (a, b), r) && call_ensures(N::minus, (a, b), s) ==> r == s
    &&& forall|a: F64, b: F64, r: F64, s: F64|
        #![trigger call_ensures(N::times, (a, b), r), call_ensures(N::times, (a, b), s)]
        call_ensures(N::times, (a, b), r) && call_ensures(N::times, (a, b), s) ==> r == s
    &&& forall|a: F64, b: F64, r: F64, s: F64|
        #![trigger call_ensures(N::over, (a, b), r), call_ensures(N::over, (a, b), s)]
        call_ensures(N::over, (a, b), r) && call_ensures(N::over, (a, b), s) ==> r == s
    &&& forall|a: F64, b: F64, r: F64, s: F64|
        #![trigger call_ensures(N::rem_euclid, (a, b), r), call_ensures(N::rem_euclid, (a, b), s)]
        call_ensures(N::rem_euclid, (a, b), r) && call_ensures(N::rem_euclid, (a, b), s) ==> r == s
    &&& forall|a: F64, r: F64, s: F64|
        #![trigger call_ensures(N::floor, (a,), r), call_ensures(N::floor, (a,), s)]
        call_ensures(N::floor, (a,), r) && call_ensures(N::floor, (a,), s) ==> r == s
    &&& forall|a: F64, r: F64, s: F64|
        #![trigger call_ensures(N::ceil, (a,), r), call_ensures(N::ceil, (a,), s)]
        call_ensures(N::ceil, (a,), r) && call_ensures(N::ceil, (a,), s) ==> r == s
    &&& forall|a: F64, r: F64, s: F64|
        #![trigger call_ensures(N::sqrt, (a,), r), call_ensures(N::sqrt, (a,), s)]
        call_ensures(N::sqrt, (a,), r) && call_ensures(N::sqrt, (a,), s) ==> r == s
    &&& forall|a: F64, r: F64, s: F64|
        #![trigger call_ensures(N::exp, (a,), r), call_ensures(N::exp, (a,), s)]
        call_ensures(N::exp, (a,), r) && call_ensures(N::exp, (a,), s) ==> r == s
    &&& forall|a: F64, r: (F64, F64), s: (F64, F64)|
        #![trigger call_ensures(N::sin_cos, (a,), r), call_ensures(N::sin_cos, (a,), s)]
        call_ensures(N::sin_cos, (a,), r) && call_ensures(N::sin_cos, (a,), s) ==> r == s
    &&& forall|a: F64, n: i32, r: F64, s: F64|
        #![trigger call_ensures(N::powi, (a, n), r), call_ensures(N::powi, (a, n), s)]
        call_ensures(N::powi, (a, n), r) && call_ensures(N::powi, (a, n), s) ==> r == s
    &&& forall|n: u32, r: F64, s: F64|
        #![trigger call_ensures(N::from_u32, (n,), r), call_ensures(N::from_u32, (n,), s)]
        call_ensures(N::from_u32, (n,), r) && call_ensures(N::from_u32, (n,), s) ==> r == s
    &&& forall|a: F32, b: F32, r: F32, s: F32|
        #![trigger call_ensures(N::plus32, (a, b), r), call_ensures(N::plus32, (a, b), s)]
        call_ensures(N::plus32, (a, b), r) && call_ensures(N::plus32, (a, b), s) ==> r == s
    &&& forall|a: F32, b: F32, r: F32, s: F32|
        #![trigger call_ensures(N::minus32, (a, b), r), call_ensures(N::minus32, (a, b), s)]
        call_ensures(N::minus32, (a, b), r) && call_ensures(N::minus32, (a, b), s) ==> r == s
    &&& forall|a: F32, b: F32, r: F32, s: F32|
        #![trigger call_ensures(N::times32, (a, b), r), call_ensures(N::times32, (a, b), s)]
        call_ensures(N::times32, (a, b), r) && call_ensures(N::times32, (a, b), s) ==> r == s
    &&& forall|a: F32, b: F32, r: F32, s: F32|
        #![trigger call_ensures(N::over32, (a, b), r), call_ensures(N::over32, (a, b), s)]
        call_ensures(N::over32, (a, b), r) && call_ensures(N::over32, (a, b), s) ==> r == s
    &&& forall|a: F32, r: F32, s: F32|
        #![trigger call_ensures(N::exp32, (a,), r), call_ensures(N::exp32, (a,), s)]
        call_ensures(N::exp32, (a,), r) && call_ensures(N::exp32, (a,), s) ==> r == s
    &&& forall|a: F32, r: F32, s: F32|
        #![trigger call_ensures(N::ln32, (a,), r), call_ensures(N::ln32, (a,), s)]
        call_ensures(N::ln32, (a,), r) && call_ensures(N::ln32, (a,), s) ==> r == s
    &&& forall|a: F64, r: F32, s: F32|
        #![trigger call_ensures(N::narrow, (a,), r), call_ensures(N::narrow, (a,), s)]
        call_ensures(N::narrow, (a,), r) && call_ensures(N::narrow, (a,), s) ==> r == s
    &&& forall|a: F32, r: F64, s: F64|
        #![trigger call_ensures(N::widen, (a,), r), call_ensures(N::widen, (a,), s)]
        call_ensures(N::widen, (a,), r) && call_ensures(N::widen, (a,), s) ==> r == s
    &&& forall|m: Matrix3, r: Option<Matrix3>, s: Option<Matrix3>|
        #![trigger call_ensures(N::try_inverse, (m,), r), call_ensures(N::try_inverse, (m,), s)]
        call_ensures(N::try_inverse, (m,), r) && call_ensures(N::try_inverse, (m,), s) ==> r == s
    &&& forall|m: Matrix3, r: bool, s: bool|
        #![trigger call_ensures(N::is_positive_definite, (m,), r), call_ensures(N::is_positive_definite, (m,), s)]
        call_ensures(N::is_positive_definite, (m,), r) && call_ensures(N::is_positive_definite, (m,), s) ==> r == s
    &&& forall|m: Matrix3, b: Vector3, r: Option<Vector3>, s: Option<Vector3>|
        #![trigger call_ensures(N::cholesky_solve, (m, b), r), call_ensures(N::cholesky_solve, (m, b), s)]
        call_ensures(N::cholesky_solve, (m, b), r) && call_ensures(N::cholesky_solve, (m, b), s) ==> r == s
    &&& forall|p: Vec<Point2>, q: Vec<Point2>, r: N::Tree, s: N::Tree|
        #![trigger call_ensures(N::build_tree, (&p,), r), call_ensures(N::build_tree, (&q,), s)]
        p@ == q@ && call_ensures(N::build_tree, (&p,), r) && call_ensures(N::build_tree, (&q,), s)
            ==> r == s
    &&& forall|t: N::Tree, p: Point2, r: Nearest, s: Nearest|
        #![trigger call_ensures(N::nearest, (&t, p), r), call_ensures(N::nearest, (&t, p), s)]
        call_ensures(N::nearest, (&t, p), r) && call_ensures(N::nearest, (&t, p), s) ==> r == s
}

/// What `N::plus` returns.
pub open spec fn sum<N: Numerics>(a: F64, b: F64) -> F64 {
    choose|r: F64| call_ensures(N::plus, (a, b), r)
}

/// `a + b`, rounded.
#[inline]
pub fn plus<N: Numerics>(a: F64, b: F64) -> (r: F64)
    ensures
        call_ensures(N::plus, (a, b), r),
        deterministic::<N>() ==> r == sum::<N>(a, b),
{
    let r = N::plus(a, b);
    proof {
        reveal(deterministic);
    }
    r
}

/// What `N::minus` returns.
pub open spec fn difference<N: Numerics>(a: F64, b: F64) -> F64 {
    choose|r: F64| call_ensures(N::minus, (a, b), r)
}

/// `a - b`, rounded.
#[inline]
pub fn minus<N: Numerics>(a: F64, b: F64) -> (r: F64)
    ensures
        call_ensures(N::minus, (a, b), r),
        deterministic::<N>() ==> r == difference::<N>(a, b),
{
    let r = N::minus(a, b);
    proof {
        reveal(deterministic);
    }
    r
}

/// What `N::times` returns.
pub open spec fn product<N: Numerics>(a: F64, b: F64) -> F64 {
    choose|r: F64| call_ensures(N::times, (a, b), r)
}

/// `a * b`, rounded.
#[inline]
pub fn times<N: Numerics>(a: F64, b: F64) -> (r: F64)
    ensures
        call_ensures(N::times, (a, b), r),
        deterministic::<N>() ==> r == product::<N>(a, b),
{
    let r = N::times(a, b);
    proof {
        reveal(deterministic);
    }
    r
}

/// What `N::over` returns.
pub open spec fn quotient<N: Numerics>(a: F64, b: F64) -> F64 {
    choose|r: F64| call_ensures(N::over, (a, b), r)
}

/// `a / b`, rounded.
#[inline]
pub fn over<N: Numerics>(a: F64, b: F64) -> (r: F64)
    ensures
        call_ensures(N::over, (a, b), r),
        deterministic::<N>() ==> r == quotient::<N>(a, b),
{
    let r = N::over(a, b);
    proof {
        reveal(deterministic);
    }
    r
}

/// What `N::rem_euclid` returns.
pub open spec fn remainder<N: Numerics>(a: F64, b: F64) -> F64 {
    choose|r: F64| call_ensures(N::rem_euclid, (a, b), r)
}

/// The least non-negative remainder of `a` by `b`.
#[inline]
pub fn rem_euclid<N: Numerics>(a: F64, b: F64) -> (r: F64)
    ensures
        call_ensures(N::rem_euclid, (a, b), r),
        deterministic::<N>() ==> r == remainder::<N>(a, b),
{
    let r = N::rem_euclid(a, b);
    proof {
        reveal(deterministic);
    }
    r
}

/// What `N::floor` returns.
pub open spec fn floor_of<N: Numerics>(a: F64) -> F64 {
    choose|r: F64| call_ensures(N::floor, (a,), r)
}

/// The largest integer not above `a`.
#[inline]
pub fn floor<N: Numerics>(a: F64) -> (r: F64)
    ensures
        call_ensures(N::floor, (a,), r),
        deterministic::<N>() ==> r == floor_of::<N>(a),
{
    let r = N::floor(a);
    proof {
        reveal(deterministic);
    }
    r
}

/// What `N::ceil` returns.
pub open spec fn ceil_of<N: Numerics>(a: F64) -> F64 {
    choose|r: F64| call_ensures(N::ceil, (a,), r)
}

/// The smallest integer not below `a`.
#[inline]
pub fn ceil<N: Numerics>(a: F64) -> (r: F64)
    ensures
        call_ensures(N::ceil, (a,), r),
        deterministic::<N>() ==> r == ceil_of::<N>(a),
{
    let r = N::ceil(a);
    proof {
        reveal(deterministic);
    }
    r
}

/// What `N::sqrt` returns.
pub open spec fn root_of<N: Numerics>(a: F64) -> F64 {
    choose|r: F64| call_ensures(N::sqrt, (a,), r)
}

/// The square root of `a`.
#[inline]
pub fn sqrt<N: Numerics>(a: F64) -> (r: F64)
    ensures
        call_ensures(N::sqrt, (a,), r),
        deterministic::<N>() ==> r == root_of::<N>(a),
{
    let r = N::sqrt(a);
    proof {
        reveal(deterministic);
    }
    r
}

/// What `N::exp` returns.
pub open spec fn exp_of<N: Numerics>(a: F64) -> F64 {
    choose|r: F64| call_ensures(N::exp, (a,), r)
}

/// The exponential of `a`.
#[inline]
pub fn exp<N: Numerics>(a: F64) -> (r: F64)
    ensures
        call_ensures(N::exp, (a,), r),
        deterministic::<N>() ==> r == exp_of::<N>(a),
{
    let r = N::exp(a);
    proof {
        reveal(deterministic);
    }
    r
}

/// What `N::sin_cos` returns.
pub open spec fn sin_cos_of<N: Numerics>(a: F64) -> (F64, F64) {
    choose|r: (F64, F64)| call_ensures(N::sin_cos, (a,), r)
}

/// The sine and the cosine of `a` radians.
#[inline]
pub fn sin_cos<N: Numerics>(a: F64) -> (r: (F64, F64))
    ensures
        call_ensures(N::sin_cos, (a,), r),
        deterministic::<N>() ==> r == sin_cos_of::<N>(a),
{
    let r = N::sin_cos(a);
    proof {
        reveal(deterministic);
    }
    r
}

/// What `N::powi` returns.
pub open spec fn power_of<N: Numerics>(a: F64, n: i32) -> F64 {
    choose|r: F64| call_ensures(N::powi, (a, n), r)
}

/// `a` to the power `n`.
#[inline]
pub fn powi<N: Numerics>(a: F64, n: i32) -> (r: F64)
    ensures
        call_ensures(N::powi, (a, n), r),
        deterministic::<N>() ==> r == power_of::<N>(a, n),
{
    let r = N::powi(a, n);
    proof {
        reveal(deterministic);
    }
    r
}

/// What `N::from_u32` returns.
pub open spec fn float_of<N: Numerics>(n: u32) -> F64 {
    choose|r: F64| call_ensures(N::from_u32, (n,), r)
}

/// `n` as a binary64 value.
#[inline]
pub fn from_u32<N: Numerics>(n: u32) -> (r: F64)
    ensures
        call_ensures(N::from_u32, (n,), r),
        deterministic::<N>() ==> r == float_of::<N>(n),
{
    let r = N::from_u32(n);
    proof {
        reveal(deterministic);
    }
    r
}

/// What `N::plus32` returns.
pub open spec fn sum32<N: Numerics>(a: F32, b: F32) -> F32 {
    choose|r: F32| call_ensures(N::plus32, (a, b), r)
}

/// `a + b` in binary32, rounded.
#[inline]
pub fn plus32<N: Numerics>(a: F32, b: F32) -> (r: F32)
    ensures
        call_ensures(N::plus32, (a, b), r),
        deterministic::<N>() ==> r == sum32::<N>(a, b),
{
    let r = N::plus32(a, b);
    proof {
        reveal(deterministic);
    }
    r
}

/// What `N::minus32` returns.
pub open spec fn difference32<N: Numerics>(a: F32, b: F32) -> F32 {
    choose|r: F32| call_ensures(N::minus32, (a, b), r)
}

/// `a - b` in binary32, rounded.
#[inline]
pub fn minus32<N: Numerics>(a: F32, b: F32) -> (r: F32)
    ensures
        call_ensures(N::minus32, (a, b), r),
        deterministic::<N>() ==> r == difference32::<N>(a, b),
{
    let r = N::minus32(a, b);
    proof {
        reveal(deterministic);
    }
    r
}

/// What `N::times32` returns.
pub open spec fn product32<N: Numerics>(a: F32, b: F32) -> F32 {
    choose|r: F32| call_ensures(N::times32, (a, b), r)
}

/// `a * b` in binary32, rounded.
#[inline]
pub fn times32<N: Numerics>(a: F32, b: F32) -> (r: F32)
    ensures
        call_ensures(N::times32, (a, b), r),
        deterministic::<N>() ==> r == product32::<N>(a, b),
{
    let r = N::times32(a, b);
    proof {
        reveal(deterministic);
    }
    r
}

/// What `N::over32` returns.
pub open spec fn quotient32<N: Numerics>(a: F32, b: F32) -> F32 {
    choose|r: F32| call_ensures(N::over32, (a, b), r)
}

/// `a / b` in binary32, rounded.
#[inline]
pub fn over32<N: Numerics>(a: F32, b: F32) -> (r: F32)
    ensures
        call_ensures(N::over32, (a, b), r),
        deterministic::<N>() ==> r == quotient32::<N>(a, b),
{
    let r = N::over32(a, b);
    proof {
        reveal(deterministic);
    }
    r
}

/// What `N::exp32` returns.
pub open spec fn exp_of32<N: Numerics>(a: F32) -> F32 {
    choose|r: F32| call_ensures(N::exp32, (a,), r)
}

/// The exponential of `a` in binary32.
#[inline]
pub fn exp32<N: Numerics>(a: F32) -> (r: F32)
    ensures
        call_ensures(N::exp32, (a,), r),
        deterministic::<N>() ==> r == exp_of32::<N>(a),
{
    let r = N::exp32(a);
    proof {
        reveal(deterministic);
    }
    r
}

/// What `N::ln32` returns.
pub open spec fn ln_of32<N: Numerics>(a: F32) -> F32 {
    choose|r: F32| call_ensures(N::ln32, (a,), r)
}

/// The natural logarithm of `a` in binary32.
#[inline]
pub fn ln32<N: Numerics>(a: F32) -> (r: F32)
    ensures
        call_ensures(N::ln32, (a,), r),
        deterministic::<N>() ==> r == ln_of32::<N>(a),
{
    let r = N::ln32(a);
    proof {
        reveal(deterministic);
    }
    r
}

/// What `N::narrow` returns.
pub open spec fn narrow_of<N: Numerics>(a: F64) -> F32 {
    choose|r: F32| call_ensures(N::narrow, (a,), r)
}

/// `a`, rounded to binary32.
#[inline]
pub fn narrow<N: Numerics>(a: F64) -> (r: F32)
    ensures
        call_ensures(N::narrow, (a,), r),
        deterministic::<N>() ==> r == narrow_of::<N>(a),
{
    let r = N::narrow(a);
    proof {
        reveal(deterministic);
    }
    r
}

/// What `N::widen` returns.
pub open spec fn widen_of<N: Numerics>(a: F32) -> F64 {
    choose|r: F64| call_ensures(N::widen, (a,), r)
}

/// `a` as a binary64 value.
#[inline]
pub fn widen<N: Numerics>(a: F32) -> (r: F64)
    ensures
        call_ensures(N::widen, (a,), r),
        deterministic::<N>() ==> r == widen_of::<N>(a),
{
    let r = N::widen(a);
    proof {
        reveal(deterministic);
    }
    r
}

/// What `N::try_inverse` returns.
pub open spec fn inverse_of<N: Numerics>(m: Matrix3) -> Option<Matrix3> {
    choose|r: Option<Matrix3>| call_ensures(N::try_inverse, (m,), r)
}

/// The inverse of `m`, if `m` is not singular.
#[inline]
pub fn try_inverse<N: Numerics>(m: Matrix3) -> (r: Option<Matrix3>)
    ensures
        call_ensures(N::try_inverse, (m,), r),
        deterministic::<N>() ==> r == inverse_of::<N>(m),
{
    let r = N::try_inverse(m);
    proof {
        reveal(deterministic);
    }
    r
}

/// What `N::is_positive_definite` returns.
pub open spec fn definite<N: Numerics>(m: Matrix3) -> bool {
    choose|r: bool| call_ensures(N::is_positive_definite, (m,), r)
}

/// `true` if `m` has a Cholesky factorization.
#[inline]
pub fn is_positive_definite<N: Numerics>(m: Matrix3) -> (r: bool)
    ensures
        call_ensures(N::is_positive_definite, (m,), r),
        deterministic::<N>() ==> r == definite::<N>(m),
{
    let r = N::is_positive_definite(m);
    proof {
        reveal(deterministic);
    }
    r
}

/// What `N::cholesky_solve` returns.
pub open spec fn solution_of<N: Numerics>(m: Matrix3, b: Vector3) -> Option<Vector3> {
    choose|r: Option<Vector3>| call_ensures(N::cholesky_solve, (m, b), r)
}

/// The solution `x` of `m x = b` by Cholesky factorization, if `m` has one.
#[inline]
pub fn cholesky_solve<N: Numerics>(m: Matrix3, b: Vector3) -> (r: Option<Vector3>)
    ensures
        call_ensures(N::cholesky_solve, (m, b), r),
        deterministic::<N>() ==> r == solution_of::<N>(m, b),
{
    let r = N::cholesky_solve(m, b);
    proof {
        reveal(deterministic);
    }
    r
}

/// What `N::build_tree` returns for a list of points.
pub open spec fn tree_of<N: Numerics>(points: Seq<Point2>) -> N::Tree {
    choose|t: N::Tree| is_tree_of::<N>(points, t)
}

/// `N::build_tree` may return `t` for a list of points.
pub open spec fn is_tree_of<N: Numerics>(points: Seq<Point2>, t: N::Tree) -> bool {
    exists|p: Vec<Point2>| p@ == points && #[trigger] call_ensures(N::build_tree, (&p,), t)
}

/// Index `points`.
pub fn build_tree<N: Numerics>(points: &Vec<Point2>) -> (r: N::Tree)
    ensures
        call_ensures(N::build_tree, (points,), r),
        deterministic::<N>() ==> r == tree_of::<N>(points@),
{
    let r = N::build_tree(points);
    proof {
        reveal(deterministic);
        assert(is_tree_of::<N>(points@, r));
    }
    r
}

/// What `N::nearest` returns.
pub open spec fn nearest_of<N: Numerics>(tree: N::Tree, p: Point2) -> Nearest {
    choose|r: Nearest| call_ensures(N::nearest, (&tree, p), r)
}

/// The point of the index that is nearest to `p`.
pub fn nearest<N: Numerics>(tree: &N::Tree, p: Point2) -> (r: Nearest)
    ensures
        call_ensures(N::nearest, (tree, p), r),
        deterministic::<N>() ==> r == nearest_of::<N>(*tree, p),
{
    let r = N::nearest(tree, p);
    proof {
        reveal(deterministic);
    }
    r
}

} // verus!
