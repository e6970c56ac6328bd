use omoya::geom::Direction::{Above, Below, Left, Right};
use omoya::geom::{Point, Rect};
use omoya::layout::GAP;
use omoya::placement::{cascade_from, centred_in, centred_loc, overlay_by_default, snap_to_edges};
use omoya::role::{floats_by_app_id, PlacementConfig};
use omoya::snap::{frame_for, step, zone_for, Step, Tile, EDGE};

fn screen() -> Rect {
    Rect { x: 0, y: 0, w: 1920, h: 1080 }
}
fn usable() -> Rect {
    Rect { x: 0, y: 28, w: 1920, h: 1052 }
}
fn at(x: i32, y: i32) -> Point {
    Point { x, y }
}

#[test]
fn edges_pick_halves_and_the_top_maximises() {
    assert_eq!(zone_for(at(0, 540), screen()), Some(Tile::Left));
    assert_eq!(zone_for(at(1919, 540), screen()), Some(Tile::Right));
    assert_eq!(zone_for(at(960, 0), screen()), Some(Tile::Full));
}

#[test]
fn corners_beat_edges_along_their_whole_run() {
    assert_eq!(zone_for(at(0, 0), screen()), Some(Tile::TopLeft));
    assert_eq!(zone_for(at(0, 90), screen()), Some(Tile::TopLeft));
    assert_eq!(zone_for(at(90, 0), screen()), Some(Tile::TopLeft));
    assert_eq!(zone_for(at(1919, 0), screen()), Some(Tile::TopRight));
    assert_eq!(zone_for(at(0, 1079), screen()), Some(Tile::BottomLeft));
    assert_eq!(zone_for(at(1919, 1079), screen()), Some(Tile::BottomRight));
}

#[test]
fn a_drop_short_of_the_edge_or_on_the_bottom_alone_stays_free() {
    assert_eq!(zone_for(at(EDGE + 1, 540), screen()), None);
    assert_eq!(zone_for(at(960, 540), screen()), None);
    assert_eq!(zone_for(at(960, 1079), screen()), None);
}

#[test]
fn two_halves_cover_the_zone_with_one_gap_between_and_no_overlap() {
    let (l, r) = (frame_for(Tile::Left, usable()), frame_for(Tile::Right, usable()));
    let g = GAP;
    assert_eq!(l.x, g);
    assert_eq!(r.x, l.x + l.w + g, "one gap between the halves");
    assert_eq!(r.x + r.w, 1920 - g, "the right half reaches the zone edge");
    assert_eq!(l.y, 28 + g);
    assert_eq!(l.h, 1052 - 2 * g);
}

fn overlaps(a: Rect, b: Rect) -> bool {
    a.x < b.x + b.w && b.x < a.x + a.w && a.y < b.y + b.h && b.y < a.y + a.h
}

#[test]
fn four_quarters_tile_the_zone_exactly() {
    let q = [Tile::TopLeft, Tile::TopRight, Tile::BottomLeft, Tile::BottomRight].map(|t| frame_for(t, usable()));
    let area: i32 = q.iter().map(|r| r.w * r.h).sum();
    let g = GAP;
    assert_eq!(area, (1920 - 3 * g) * (1052 - 3 * g));
    for (i, a) in q.iter().enumerate() {
        for b in &q[i + 1..] {
            assert!(!overlaps(*a, *b), "{a:?} overlaps {b:?}");
        }
    }
}

#[test]
fn full_is_exactly_the_usable_zone_like_maximise() {
    assert_eq!(frame_for(Tile::Full, usable()), usable());
}

#[test]
fn the_win_arrow_table() {
    assert_eq!(step(None, Left), Step::To(Some(Tile::Left)));
    assert_eq!(step(Some(Tile::Left), Right), Step::To(None));
    assert_eq!(step(Some(Tile::Left), Above), Step::To(Some(Tile::TopLeft)));
    assert_eq!(step(Some(Tile::TopLeft), Right), Step::To(Some(Tile::TopRight)));
    assert_eq!(step(Some(Tile::TopRight), Below), Step::To(Some(Tile::Right)));
    assert_eq!(step(Some(Tile::Right), Below), Step::To(Some(Tile::BottomRight)));
    assert_eq!(step(Some(Tile::BottomRight), Below), Step::To(None));
    assert_eq!(step(None, Above), Step::To(Some(Tile::Full)));
    assert_eq!(step(Some(Tile::Full), Below), Step::To(None));
    assert_eq!(step(None, Below), Step::Minimize);
}

fn zone(x: i32, y: i32, w: i32, h: i32) -> Rect {
    Rect { x, y, w, h }
}

/// The pixel size a fraction of the zone comes to, as the seat computes it.
fn centred(usable: Rect, width: f64, height: f64) -> Rect {
    let w = ((f64::from(usable.w) * width) as i32).max(1);
    let h = ((f64::from(usable.h) * height) as i32).max(1);
    centred_in(usable, w, h)
}

fn cascaded(usable: Rect, width: f64, height: f64, index: usize, step: i32) -> Rect {
    cascade_from(centred(usable, width, height), usable, index, step)
}

#[test]
fn a_client_chosen_size_is_centred_at_that_size() {
    let usable = zone(0, 28, 1920, 1052);
    let loc = centred_loc(usable, 600, 400);
    assert_eq!(loc.0, (1920 - 600) / 2, "not horizontally centred");
    assert_eq!(loc.1, 28 + (1052 - 400) / 2, "the bar offset was dropped");
}

#[test]
fn centring_is_relative_to_the_zone_not_the_output() {
    let loc = centred_loc(zone(100, 200, 800, 600), 400, 300);
    assert_eq!(loc, (100 + 200, 200 + 150));
}

#[test]
fn an_oversized_client_is_pinned_rather_than_placed_offscreen() {
    let loc = centred_loc(zone(0, 28, 800, 600), 1600, 1200);
    assert_eq!(loc, (0, 28), "got {loc:?}");
}

#[test]
fn an_odd_remainder_does_not_shift_the_window() {
    let loc = centred_loc(zone(0, 0, 101, 101), 10, 10);
    assert_eq!(loc, (45, 45), "91/2 must truncate, not round");
}

#[test]
fn a_configured_rule_set_is_honoured_and_an_empty_one_floats_nothing() {
    let empty = PlacementConfig { floating_app_ids: vec![] };
    assert!(!floats_by_app_id(Some("tobira"), &empty));
    let custom = PlacementConfig { floating_app_ids: vec!["my-dialog".into()] };
    assert!(floats_by_app_id(Some("my-dialog"), &custom));
    assert!(!floats_by_app_id(Some("tobira"), &custom));
}

#[test]
fn the_launcher_floats_and_everything_else_tiles() {
    assert!(overlay_by_default(Some("tobira")));
    for other in ["mado", "google-chrome", "chromium-browser", ""] {
        assert!(!overlay_by_default(Some(other)), "{other} must tile");
    }
}

#[test]
fn an_unknown_app_id_tiles_rather_than_floats() {
    assert!(!overlay_by_default(None));
    assert!(!floats_by_app_id(None, &PlacementConfig::default()));
}

#[test]
fn matching_is_exact_not_a_prefix() {
    assert!(!overlay_by_default(Some("tobira-settings")));
    assert!(!overlay_by_default(Some("tobirato")));
    assert!(overlay_by_default(Some("tobira")));
}

#[test]
fn a_floating_window_is_actually_centred() {
    let usable = zone(0, 28, 1920, 1052);
    let r = centred(usable, 0.5, 0.5);
    let left = r.x - usable.x;
    let right = (usable.x + usable.w) - (r.x + r.w);
    let top = r.y - usable.y;
    let bottom = (usable.y + usable.h) - (r.y + r.h);
    assert!((left - right).abs() <= 1, "h-margins {left} vs {right}");
    assert!((top - bottom).abs() <= 1, "v-margins {top} vs {bottom}");
}

#[test]
#[allow(non_snake_case)]
fn it_is_centred_in_the_USABLE_area_not_the_output() {
    let usable = zone(0, 28, 1920, 1052);
    let r = centred(usable, 0.5, 0.5);
    assert!(r.y >= usable.y, "must not intrude into the bar");
    let centre_y = r.y + r.h / 2;
    let usable_centre = usable.y + usable.h / 2;
    assert!((centre_y - usable_centre).abs() <= 1, "centre {centre_y} vs usable centre {usable_centre}");
}

#[test]
fn a_degenerate_area_still_yields_a_usable_rectangle() {
    let r = centred(zone(0, 0, 0, 0), 0.5, 0.5);
    assert!(r.w >= 1 && r.h >= 1, "got {r:?}");
}

#[test]
fn snapping_is_a_no_op_at_zero_threshold() {
    let r = zone(3, 31, 100, 100);
    assert_eq!(snap_to_edges(r, usable(), 0), r, "0 must disable snapping");
}

#[test]
fn a_near_edge_snaps_flush_and_the_size_is_unchanged() {
    let r = zone(5, 33, 400, 300);
    let s = snap_to_edges(r, usable(), 16);
    assert_eq!((s.x, s.y), (0, 28), "should sit flush at top-left");
    assert_eq!((s.w, s.h), (r.w, r.h), "snapping must never resize");
}

#[test]
fn a_far_edge_is_left_alone() {
    let r = zone(500, 500, 400, 300);
    assert_eq!(snap_to_edges(r, usable(), 16), r, "beyond the threshold is a choice");
}

#[test]
fn the_right_and_bottom_edges_snap_too() {
    let z = usable();
    let r = zone(z.w - 400 - 6, z.y + z.h - 300 - 6, 400, 300);
    let s = snap_to_edges(r, z, 16);
    assert_eq!(s.x + s.w, z.x + z.w);
    assert_eq!(s.y + s.h, z.y + z.h);
}

#[test]
fn cascade_separates_windows_and_wraps_rather_than_leaving_the_zone() {
    let z = usable();
    let a = cascaded(z, 0.6, 0.6, 0, 24);
    let b = cascaded(z, 0.6, 0.6, 1, 24);
    assert_ne!((a.x, a.y), (b.x, b.y), "must not stack");
    for i in 0..50 {
        let r = cascaded(z, 0.6, 0.6, i, 24);
        assert!(r.x >= z.x && r.y >= z.y);
        assert!(r.x + r.w <= z.x + z.w, "window {i} left the zone horizontally");
        assert!(r.y + r.h <= z.y + z.h, "window {i} left the zone vertically");
    }
}

#[test]
fn a_zero_step_falls_back_to_centred() {
    let z = usable();
    assert_eq!(cascaded(z, 0.6, 0.6, 7, 0), centred(z, 0.6, 0.6));
}

#[test]
fn placement_the_launcher_is_an_overlay_and_a_terminal_is_not() {
    let cfg = PlacementConfig::default();
    assert!(floats_by_app_id(Some("tobira"), &cfg), "tobira is the launcher and must be an overlay");
    assert!(!floats_by_app_id(Some("mado"), &cfg), "a terminal is not an overlay");
    assert!(!floats_by_app_id(None, &cfg), "an unidentified window must not be treated as an overlay");
}
