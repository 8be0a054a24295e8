//! What needs no rounding: bit patterns, cells, lines, orders, frames, decisions.

use std::f64::consts::PI;

use olivaw_slam::convert::floor_to_i64;
use olivaw_slam::error::Reason;
use olivaw_slam::float::{F32, F64};
use olivaw_slam::graph::{node_key, rotation_first, PoseGraph};
use olivaw_slam::grid::bresenham::trace;
use olivaw_slam::grid::cellmath::{cell_in_bounds, floor_cell, narrow_span};
use olivaw_slam::grid::{has_sign, nudged};
use olivaw_slam::grid::image::{gray_level, pgm_pixel};
use olivaw_slam::loop_closure::{all_finite, sound_information};
use olivaw_slam::matcher::csm::{count_steps, find_peak, select_top, Candidate};
use olivaw_slam::matcher::icp::{find_partner, mirrored, no_equations};
use olivaw_slam::matcher::likelihood::{count_cells, in_bounds};
use olivaw_slam::matcher::{diagonal, MatchResult};
use olivaw_slam::matrix::Matrix3;
use olivaw_slam::numerics::Nearest;
use olivaw_slam::order::stable_order;
use olivaw_slam::pose::{held_in_turn, within_turn};
use olivaw_slam::preprocess::in_range;
use olivaw_slam::slam::{judge, judge_strictly, node, Judgement};
use olivaw_slam::state::{frame, unframe};
use olivaw_slam::{GridConfig, Point2, Pose2, SlamError};

const MAX_EXACT: f64 = 9_007_199_254_740_992.0;

fn f(v: f64) -> F64 {
    F64 { bits: v.to_bits() }
}

fn f32v(v: f32) -> F32 {
    F32 { bits: v.to_bits() }
}

#[test]
fn floors_positives_and_negatives() {
    assert_eq!(floor_to_i64(f(0.0)), Some(0));
    assert_eq!(floor_to_i64(f(1.99)), Some(1));
    assert_eq!(floor_to_i64(f(-0.5)), Some(-1));
    assert_eq!(floor_to_i64(f(-2.0)), Some(-2));
    assert_eq!(floor_to_i64(f(41.999_999)), Some(41));
}

#[test]
fn rejects_non_finite() {
    assert_eq!(floor_to_i64(f(f64::NAN)), None);
    assert_eq!(floor_to_i64(f(f64::INFINITY)), None);
    assert_eq!(floor_to_i64(f(f64::NEG_INFINITY)), None);
}

#[test]
fn boundary_at_2_pow_53() {
    assert_eq!(floor_to_i64(f(MAX_EXACT)), None);
    assert_eq!(floor_to_i64(f(-MAX_EXACT)), None);
    assert_eq!(floor_to_i64(f(MAX_EXACT - 1.0)), Some(9_007_199_254_740_991));
    assert_eq!(floor_to_i64(f(-(MAX_EXACT - 1.0))), Some(-9_007_199_254_740_991));
}

#[test]
fn floor_agrees_with_the_processor() {
    let mut v = 1e-310_f64;
    while v < 1e17 {
        for x in [v, -v, v.floor(), -v.floor(), v + 0.5, -(v + 0.5)] {
            let expected = if x.floor().abs() < MAX_EXACT { Some(x.floor() as i64) } else { None };
            assert_eq!(floor_to_i64(f(x)), expected, "{x}");
        }
        v *= 1.7;
    }
    assert_eq!(floor_to_i64(f(-0.0)), Some(0));
}

#[test]
fn order_of_bits_is_the_order_of_values() {
    let values = [
        f64::NEG_INFINITY, -1e300, -2.0, -1.0, -1e-310, -0.0, 0.0, 5e-324, 0.5, 1.0, 3.5, 1e308,
        f64::INFINITY, f64::NAN,
    ];
    for a in values {
        for b in values {
            assert_eq!(f(a).lt(f(b)), a < b, "{a} < {b}");
            assert_eq!(f(a).le(f(b)), a <= b, "{a} <= {b}");
            assert_eq!(f32v(a as f32).lt(f32v(b as f32)), (a as f32) < (b as f32));
            assert_eq!(f32v(a as f32).le(f32v(b as f32)), (a as f32) <= (b as f32));
            let (low, high) = (f64::from_bits(f(a).min(f(b)).bits), f64::from_bits(f(a).max(f(b)).bits));
            assert!(low == a.min(b) || (low.is_nan() && a.is_nan() && b.is_nan()));
            assert!(high == a.max(b) || (high.is_nan() && a.is_nan() && b.is_nan()));
        }
        assert_eq!(f(a).is_nan(), a.is_nan());
        assert_eq!(f(a).is_finite(), a.is_finite());
        assert_eq!(f(a).negated(), f(-a));
        assert_eq!(f(a).absolute(), f(a.abs()));
    }
    // Zeros are told apart, whichever comes first.
    assert_eq!((f(0.0).min(f(-0.0)), f(-0.0).min(f(0.0))), (f(-0.0), f(-0.0)));
    assert_eq!((f(0.0).max(f(-0.0)), f(-0.0).max(f(0.0))), (f(0.0), f(0.0)));
    assert_eq!(f(7.0).clamp(f(-1.0), f(1.0)), f(1.0));
    assert_eq!(f(-7.0).clamp(f(-1.0), f(1.0)), f(-1.0));
    assert_eq!(f(0.25).clamp(f(-1.0), f(1.0)), f(0.25));
    assert!(f(f64::NAN).clamp(f(-1.0), f(1.0)).is_nan());
    assert_eq!(f32v(9.0).clamp(f32v(-2.0), f32v(3.5)), f32v(3.5));
}

#[test]
fn horizontal_and_vertical() {
    assert_eq!(trace((0, 0), (3, 0)), vec![(0, 0), (1, 0), (2, 0)]);
    assert_eq!(trace((0, 0), (0, 3)), vec![(0, 0), (0, 1), (0, 2)]);
    assert_eq!(trace((3, 0), (0, 0)), vec![(3, 0), (2, 0), (1, 0)]);
    assert_eq!(trace((0, 3), (0, 0)), vec![(0, 3), (0, 2), (0, 1)]);
}

#[test]
fn diagonals() {
    assert_eq!(trace((0, 0), (3, 3)), vec![(0, 0), (1, 1), (2, 2)]);
    assert_eq!(trace((0, 0), (-3, -3)), vec![(0, 0), (-1, -1), (-2, -2)]);
    assert_eq!(trace((0, 0), (3, -3)), vec![(0, 0), (1, -1), (2, -2)]);
}

#[test]
fn endpoint_excluded_and_degenerate_empty() {
    assert!(!trace((0, 0), (5, 2)).contains(&(5, 2)));
    assert!(trace((4, 4), (4, 4)).is_empty());
}

#[test]
fn shallow_and_steep_slopes_form_connected_paths() {
    for &(from, to) in &[
        ((0_i64, 0_i64), (7_i64, 2_i64)), // shallow
        ((0, 0), (2, 7)),                 // steep
        ((5, 5), (-3, 1)),                // negative x direction
        ((1, -2), (-4, 6)),               // mixed signs
    ] {
        let cells = trace(from, to);
        // Correct cell count: one per Chebyshev step, endpoint excluded.
        let expected = (to.0 - from.0).abs().max((to.1 - from.1).abs());
        assert_eq!(cells.len(), usize::try_from(expected).unwrap(), "{from:?}→{to:?}");
        assert_eq!(cells.first(), Some(&from));
        // Consecutive cells are 8-adjacent (a connected ray, no gaps).
        for pair in cells.windows(2) {
            let [(ax, ay), (bx, by)] = [pair[0], pair[1]];
            assert!((ax - bx).abs() <= 1 && (ay - by).abs() <= 1, "gap in {from:?}→{to:?}");
        }
    }
}

#[test]
fn line_rounds_to_the_nearest_cell() {
    assert_eq!(trace((0, 0), (7, 2)), vec![(0, 0), (1, 0), (2, 1), (3, 1), (4, 1), (5, 1), (6, 2)]);
    assert_eq!(trace((0, 0), (2, 5)), vec![(0, 0), (0, 1), (1, 2), (1, 3), (2, 4)]);
}

#[test]
fn bounds_check() {
    assert_eq!(cell_in_bounds((0, 0), 10, 10), Some((0, 0)));
    assert_eq!(cell_in_bounds((9, 9), 10, 10), Some((9, 9)));
    assert_eq!(cell_in_bounds((10, 9), 10, 10), None);
    assert_eq!(cell_in_bounds((-1, 5), 10, 10), None);
    assert_eq!(in_bounds(9, 0, 10, 1), Some((9, 0)));
    assert_eq!(in_bounds(0, 1, 10, 1), None);
}

#[test]
fn cell_floors_both_coordinates() {
    assert_eq!(floor_cell(f(2.5), f(-0.1)), Some((2, -1)));
    assert_eq!(floor_cell(f(2.5), f(f64::INFINITY)), None);
}

#[test]
fn span_is_narrowed_by_each_edge() {
    let whole = (f(0.0), f(1.0));
    // Leaving through the edge at half way.
    assert_eq!(narrow_span(whole, f(2.0), f(1.0), f(0.5)), Some((f(0.0), f(0.5))));
    // Entering through it.
    assert_eq!(narrow_span(whole, f(-2.0), f(-1.0), f(0.5)), Some((f(0.5), f(1.0))));
    // Parallel inside, parallel outside.
    assert_eq!(narrow_span(whole, f(0.0), f(1.0), f(f64::INFINITY)), Some(whole));
    assert_eq!(narrow_span(whole, f(0.0), f(-1.0), f(f64::NEG_INFINITY)), None);
    // Entering after it has left.
    assert_eq!(narrow_span((f(0.0), f(0.25)), f(-2.0), f(-1.0), f(0.5)), None);
}

#[test]
fn counts_are_floors_with_a_fallback() {
    assert_eq!(count_cells(f(3.0)), Some(3));
    assert_eq!(count_cells(f(0.0)), Some(1));
    assert_eq!(count_cells(f(-4.0)), Some(1));
    assert_eq!(count_cells(f(f64::NEG_INFINITY)), Some(1));
    assert_eq!(count_cells(f(f64::NAN)), Some(1));
    // Too many to count.
    assert_eq!(count_cells(f(MAX_EXACT - 1.0)), Some(9_007_199_254_740_991));
    assert_eq!(count_cells(f(MAX_EXACT)), None);
    assert_eq!(count_cells(f(1e300)), None);
    assert_eq!(count_cells(f(f64::INFINITY)), None);
    assert_eq!(count_steps(f(3.0)), 3);
    assert_eq!(count_steps(f(-1.0)), 0);
    assert_eq!(count_steps(f(f64::INFINITY)), 0);
}

#[test]
fn range_bounds_are_inclusive() {
    assert!(in_range(f(1.0), f(1.0), f(4.0)));
    assert!(in_range(f(4.0), f(1.0), f(4.0)));
    assert!(!in_range(f(4.1), f(1.0), f(4.0)));
    assert!(!in_range(f(f64::NAN), f(1.0), f(4.0)));
}

#[test]
fn log_odds_fields_have_their_sign() {
    assert!(has_sign(f32v(0.85), true));
    assert!(!has_sign(f32v(0.85), false));
    assert!(has_sign(f32v(-0.4), false));
    assert!(!has_sign(f32v(0.0), true));
    assert!(!has_sign(f32v(f32::INFINITY), true));
}

#[test]
fn cells_stay_within_the_clamps() {
    let config = GridConfig::default();
    assert_eq!(nudged(f32v(0.5), f32v(1.35), config), f32v(1.35));
    assert_eq!(nudged(f32v(3.0), f32v(3.85), config), f32v(3.5));
    assert_eq!(nudged(f32v(-1.9), f32v(-2.3), config), f32v(-2.0));
    assert_eq!(nudged(f32v(0.5), f32v(f32::NAN), config), f32v(0.5));
}

#[test]
fn angles_are_held_in_the_half_open_turn() {
    use_turn(PI, PI);
    use_turn(-PI, PI);
    use_turn(f64::from_bits(PI.to_bits() + 1), PI);
    use_turn(f64::from_bits((-PI).to_bits() - 1), f64::from_bits((-PI).to_bits() - 1));
    use_turn(0.5, 0.5);
    assert!(held_in_turn(f(f64::NAN)).is_nan());
}

fn use_turn(angle: f64, expected: f64) {
    assert_eq!(held_in_turn(f(angle)), f(expected));
    assert_eq!(within_turn(f(angle)), angle == expected);
}

#[test]
fn pixels_follow_the_map_server_convention() {
    assert_eq!(pgm_pixel(f32v(0.66)), 0);
    assert_eq!(pgm_pixel(f32v(0.65)), 205);
    assert_eq!(pgm_pixel(f32v(0.5)), 205);
    assert_eq!(pgm_pixel(f32v(0.196)), 205);
    assert_eq!(pgm_pixel(f32v(0.19)), 254);
    assert_eq!(gray_level(f(128.0)), 128);
    assert_eq!(gray_level(f(255.5)), 255);
    assert_eq!(gray_level(f(256.0)), 205);
    assert_eq!(gray_level(f(-0.5)), 205);
    assert_eq!(gray_level(f(f64::NAN)), 205);
}

#[test]
fn equal_keys_keep_their_order() {
    let keys = vec![f(2.0), f(1.0), f(2.0), f(0.5), f(1.0)];
    assert_eq!(stable_order(&keys), vec![3, 1, 4, 0, 2]);
    assert!(stable_order(&Vec::new()).is_empty());
}

fn candidate(dx: f64, score: f64) -> Candidate {
    Candidate { dx: f(dx), dy: f(0.0), dtheta: f(0.0), score: f(score) }
}

#[test]
fn best_candidates_come_first() {
    let all = vec![candidate(1.0, 0.2), candidate(2.0, 0.9), candidate(3.0, 0.9), candidate(4.0, 0.5)];
    assert_eq!(select_top(&all, 3), vec![all[1], all[2], all[3]]);
    assert_eq!(select_top(&all, 0), vec![all[1]]);
    assert_eq!(select_top(&all, 9).len(), 4);
    assert_eq!(find_peak(&all, candidate(0.0, -1.0)), all[1]);
    assert_eq!(find_peak(&all, candidate(0.0, 0.95)), candidate(0.0, 0.95));
    assert_eq!(find_peak(&vec![candidate(1.0, f64::NAN)], candidate(0.0, -1.0)).dx, f(0.0));
}

#[test]
fn partner_must_be_near_and_known() {
    let entries = vec![Point2::new(f(1.0), f(2.0))];
    let near = Nearest { distance: f(0.5), item: 0 };
    assert_eq!(find_partner(&entries, near, f(1.0)), Some(entries[0]));
    assert_eq!(find_partner(&entries, near, f(0.5)), Some(entries[0]));
    assert_eq!(find_partner(&entries, near, f(0.25)), None);
    assert_eq!(find_partner(&entries, Nearest { distance: f(0.5), item: 1 }, f(1.0)), None);
}

fn counted() -> Matrix3 {
    Matrix3 {
        m11: f(11.0),
        m12: f(12.0),
        m13: f(13.0),
        m21: f(21.0),
        m22: f(22.0),
        m23: f(23.0),
        m31: f(31.0),
        m32: f(32.0),
        m33: f(33.0),
    }
}

#[test]
fn rotation_moves_to_the_front() {
    let m = rotation_first(counted());
    assert_eq!((m.m11, m.m12, m.m13), (f(33.0), f(31.0), f(32.0)));
    assert_eq!((m.m21, m.m22, m.m23), (f(13.0), f(11.0), f(12.0)));
    assert_eq!((m.m31, m.m32, m.m33), (f(23.0), f(21.0), f(22.0)));
    assert_eq!(rotation_first(rotation_first(m)), counted());
}

#[test]
fn hessian_is_mirrored() {
    let mut n = no_equations();
    n.hessian = counted();
    assert_eq!((mirrored(n).hessian.m31, mirrored(n).hessian.m32), (f(13.0), f(23.0)));
    assert_eq!(mirrored(n).hessian.m21, f(21.0));
}

#[test]
fn unsound_information_falls_back_to_the_identity() {
    assert_eq!(sound_information(Some(counted())), counted());
    assert_eq!(sound_information(None), diagonal(f(1.0)));
    let broken = Matrix3 { m23: f(f64::NAN), ..counted() };
    assert!(!all_finite(broken));
    assert_eq!(sound_information(Some(broken)), diagonal(f(1.0)));
}

#[test]
fn node_keys_are_checked() {
    let id = PoseGraph::node_id_for_index(3);
    assert_eq!(id.index(), 3);
    assert_eq!(id, node(3));
    assert_eq!(node_key(id, 4), Ok(3));
    assert_eq!(
        node_key(id, 3),
        Err(SlamError::OptimizationFailed { reason: Reason::MissingNode(3) })
    );
    let far = PoseGraph::node_id_for_index(0x1_0000_0000);
    assert_eq!(
        node_key(far, usize::MAX),
        Err(SlamError::OptimizationFailed { reason: Reason::NodeIdBeyondU32 })
    );
}

#[test]
fn edges_are_popped_in_reverse() {
    let mut graph = PoseGraph::new();
    let a = graph.add_node(Pose2::identity());
    let b = graph.add_node(Pose2::identity());
    assert_eq!((a.index(), b.index(), graph.node_count()), (0, 1, 2));
    graph.add_edge(a, b, Pose2::identity(), diagonal(f(1.0)));
    graph.add_robust_edge(b, a, Pose2::identity(), diagonal(f(2.0)));
    let last = graph.pop_edge().unwrap();
    assert!(last.robust && last.from == b && last.information == diagonal(f(2.0)));
    assert_eq!(graph.edges().len(), 1);
    assert!(!graph.pop_edge().unwrap().robust);
    assert!(graph.pop_edge().is_none());
    assert_eq!(graph.node_pose(b), Some(Pose2::identity()));
    assert_eq!(graph.node_pose(node(2)), None);
}

fn matched(score: f64, converged: bool) -> MatchResult {
    MatchResult {
        pose: Pose2::identity(),
        covariance: diagonal(f(1.0)),
        score: f(score),
        iterations: 1,
        converged,
    }
}

#[test]
fn weak_matches_are_carried_and_hard_errors_fail() {
    let failed = Err(SlamError::MatchFailed { reason: Reason::NoOverlap });
    let hard = Err(SlamError::GridTooLarge { cells: 9, limit: 4 });
    let min = f(0.2);
    assert!(matches!(judge(failed, min), Judgement::Carry));
    assert!(matches!(judge(hard, min), Judgement::Fail(SlamError::GridTooLarge { cells: 9, limit: 4 })));
    assert!(matches!(judge(Ok(matched(0.9, false)), min), Judgement::Carry));
    assert!(matches!(judge(Ok(matched(0.1, true)), min), Judgement::Carry));
    assert!(matches!(judge(Ok(matched(0.2, true)), min), Judgement::Accept(_)));
    assert!(matches!(judge(Ok(matched(f64::NAN, true)), min), Judgement::Accept(_)));
    assert!(matches!(judge_strictly(failed, min), Judgement::Carry));
    assert!(matches!(judge_strictly(hard, min), Judgement::Fail(_)));
    assert!(matches!(judge_strictly(Ok(matched(0.2, true)), min), Judgement::Accept(_)));
    assert!(matches!(judge_strictly(Ok(matched(f64::NAN, true)), min), Judgement::Carry));
}

#[test]
fn frames_round_trip_and_reject_strangers() {
    let body = vec![7u8, 8, 9];
    let data = frame(&body);
    assert_eq!(data, b"OLIVSLAM\x01\x00\x00\x00\x07\x08\x09".to_vec());
    assert_eq!(unframe(&data), Ok(body));
    assert_eq!(
        unframe(&b"OLIVSLAM\x01".to_vec()),
        Err(SlamError::Serialization { reason: Reason::TooShort })
    );
    assert_eq!(
        unframe(&b"OLIVSLAN\x01\x00\x00\x00".to_vec()),
        Err(SlamError::Serialization { reason: Reason::BadMagic })
    );
    assert_eq!(
        unframe(&b"OLIVSLAM\x02\x01\x00\x00".to_vec()),
        Err(SlamError::Serialization { reason: Reason::BadVersion(258) })
    );
}

#[test]
fn corrupt_file_is_rejected_not_panicked() {
    let result = unframe(&b"definitely not a slam state".to_vec());
    assert!(result.is_err(), "corrupt input must error, not panic");
}
