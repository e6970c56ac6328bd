use omoya::geom::{Direction, Rect};
use omoya::layout::{nearest_in_direction, placement_changed, placement_disagrees, LayoutMode, BORDER, GAP};
use omoya::role::PlacementConfig;
use std::collections::HashSet;

fn changed(mode: LayoutMode, should_float_by_app: bool, in_set: bool) -> bool {
    placement_disagrees(mode, should_float_by_app, in_set)
}

#[test]
fn the_gap_is_at_least_two_borders_wide() {
    assert!(GAP >= BORDER * 2, "GAP ({GAP}) must be at least 2*BORDER ({})", BORDER * 2);
}

#[test]
#[allow(clippy::identity_op)]
fn the_gap_separates_rather_than_overlaps() {
    let half = 960;
    let left_right_edge = 0 + GAP + (half - GAP * 2);
    let right_left_edge = half + GAP;
    assert!(left_right_edge < right_left_edge, "the inset halves must leave a visible seam");
    assert!(right_left_edge - left_right_edge >= BORDER * 2, "the gap must fit two borders");
}

#[test]
fn floating_mode_converges_instead_of_firing_forever() {
    assert!(!changed(LayoutMode::Floating, false, true), "an ordinary window in floating mode is settled");
    assert!(changed(LayoutMode::Floating, false, false));
}

#[test]
fn tiling_mode_is_unchanged_by_the_fix() {
    assert!(!changed(LayoutMode::Tiling, false, false));
    assert!(!changed(LayoutMode::Tiling, true, true));
    assert!(!changed(LayoutMode::Floating, true, true));
    assert!(changed(LayoutMode::Tiling, true, false));
    assert!(changed(LayoutMode::Tiling, false, true));
}

#[test]
fn dropping_the_mode_term_reproduces_the_defect() {
    let without_mode = |should_float_by_app: bool, in_set: bool| should_float_by_app != in_set;
    assert!(without_mode(false, true), "the pre-fix expression fires on a settled floating window");
    assert!(!changed(LayoutMode::Floating, false, true));
    let _ = PlacementConfig::default();
}

#[test]
fn the_guard_reads_the_app_id_and_the_floating_set() {
    let cfg = PlacementConfig::default();
    let mut set = HashSet::new();
    assert!(placement_changed(Some(3), Some("tobira"), &set, &cfg, LayoutMode::Tiling), "a launcher must float");
    set.insert(3);
    assert!(!placement_changed(Some(3), Some("tobira"), &set, &cfg, LayoutMode::Tiling));
    assert!(placement_changed(Some(3), Some("mado"), &set, &cfg, LayoutMode::Tiling), "a terminal must tile");
    assert!(!placement_changed(None, Some("tobira"), &HashSet::new(), &cfg, LayoutMode::Tiling));
}

fn r(x: i32, y: i32, w: i32, h: i32) -> Rect {
    Rect { x, y, w, h }
}

#[test]
fn directional_focus_picks_the_neighbour_in_that_direction() {
    let from = r(100, 100, 200, 200);
    let right = r(500, 100, 200, 200);
    let left = r(-300, 100, 200, 200);
    let below = r(100, 500, 200, 200);
    let others = [("right", right), ("left", left), ("below", below)];
    assert_eq!(nearest_in_direction(from, &others, Direction::Right), Some("right"));
    assert_eq!(nearest_in_direction(from, &others, Direction::Left), Some("left"));
    assert_eq!(nearest_in_direction(from, &others, Direction::Below), Some("below"));
    assert_eq!(nearest_in_direction(from, &others, Direction::Above), None);
}

#[test]
fn straight_ahead_beats_closer_but_off_to_the_side() {
    let from = r(0, 0, 100, 100);
    let ahead = r(400, 0, 100, 100);
    let askew = r(300, 600, 100, 100);
    let others = [("askew", askew), ("ahead", ahead)];
    assert_eq!(nearest_in_direction(from, &others, Direction::Right), Some("ahead"));
}

#[test]
fn a_window_behind_you_is_never_the_neighbour_ahead() {
    let from = r(500, 0, 100, 100);
    let behind = r(0, 0, 100, 100);
    assert_eq!(nearest_in_direction(from, &[("behind", behind)], Direction::Right), None);
    assert_eq!(nearest_in_direction(from, &[("behind", behind)], Direction::Left), Some("behind"));
    let none: [(&str, Rect); 0] = [];
    assert_eq!(nearest_in_direction(from, &none, Direction::Left), None);
}
