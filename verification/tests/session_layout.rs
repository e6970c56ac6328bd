use omoya::geom::Rect;
use omoya::layout::{fixed_size, float_frame_this_pass, frame_this_pass, FloatFrame, inset_by_gap, min_frame, to_cell, usable_zone, GAP};
use omoya::windowmode::Placement;
use omoya::snap::{frame_for, Tile};
use omoya::session::{activity_change, card_nodes, pause_needs_ack, vt_number, SessionChange};

#[test]
fn only_a_change_of_activity_is_an_event() {
    assert_eq!(activity_change(true, true), None);
    assert_eq!(activity_change(false, false), None);
    assert_eq!(activity_change(false, true), Some(SessionChange::Activate));
    assert_eq!(activity_change(true, false), Some(SessionChange::Pause));
}

#[test]
fn every_pause_but_gone_is_acknowledged() {
    assert!(pause_needs_ack("pause"));
    assert!(pause_needs_ack("force"));
    assert!(!pause_needs_ack("gone"));
}

#[test]
fn a_negative_vt_is_vt_zero() {
    assert_eq!(vt_number(-3), 0);
    assert_eq!(vt_number(2), 2);
}

#[test]
fn logical_coordinates_clamp_into_cells_rather_than_wrapping() {
    assert_eq!(to_cell(-1), 0);
    assert_eq!(to_cell(1920), 1920);
    assert_eq!(to_cell(70_000), u16::MAX);
}

#[test]
fn a_parcel_is_inset_by_the_gap_and_never_goes_negative() {
    let r = inset_by_gap(960, 0, 960, 1080);
    assert_eq!((r.x, r.y, r.w, r.h), (960 + GAP, GAP, 960 - 2 * GAP, 1080 - 2 * GAP));
    let tiny = inset_by_gap(0, 0, 3, 0);
    assert_eq!((tiny.w, tiny.h), (1, 1));
    let left = inset_by_gap(0, 0, 960, 1080);
    assert_eq!(r.x - (left.x + left.w), 2 * GAP, "two gaps between neighbours");
}

#[test]
fn a_client_fixes_its_size_by_making_min_and_max_agree() {
    assert_eq!(fixed_size((300, 200), (300, 200)), Some((300, 200)));
    assert_eq!(fixed_size((300, 200), (600, 200)), None);
    assert_eq!(fixed_size((0, 0), (0, 0)), None, "0x0 is 'no constraint', not a fixed size");
    assert_eq!(min_frame((0, 0), 24), (0, 0));
    assert_eq!(min_frame((200, 100), 24), (200, 124));
    assert_eq!(min_frame((-5, 100), 24), (0, 124));
}

#[test]
fn every_card_node_is_a_candidate_and_nothing_else_is() {
    let names: Vec<String> = ["renderD128", "card1", "by-path", "card0"].iter().map(|s| s.to_string()).collect();
    assert_eq!(card_nodes(&names), vec!["card1".to_string(), "card0".to_string()]);
    assert!(card_nodes(&["car".to_string()]).is_empty());
}

#[test]
fn the_bar_comes_off_the_top_of_the_zone() {
    let zone = Rect { x: 0, y: 0, w: 1920, h: 1080 };
    assert_eq!(usable_zone((0, 0), zone, 28), Rect { x: 0, y: 28, w: 1920, h: 1052 });
    assert_eq!(usable_zone((1920, 0), zone, 28), Rect { x: 1920, y: 28, w: 1920, h: 1052 });
    let strip = Rect { x: 0, y: 40, w: 800, h: 20 };
    assert_eq!(usable_zone((0, 0), strip, 28), Rect { x: 0, y: 68, w: 800, h: 1 }, "at least a pixel is left");
}

#[test]
fn hidden_maps_nothing_and_maximised_takes_the_zone() {
    let laid = Rect { x: 4, y: 32, w: 500, h: 400 };
    let zone = Rect { x: 0, y: 28, w: 1920, h: 1052 };
    assert_eq!(frame_this_pass(Placement::Hidden, laid, zone), None);
    assert_eq!(frame_this_pass(Placement::Maximized, laid, zone), Some(zone));
    assert_eq!(frame_this_pass(Placement::AsLaidOut, laid, zone), Some(laid));
}

#[test]
fn a_snapped_float_takes_its_tile_only_in_floating_mode_and_after_hide_and_maximise() {
    let zone = Rect { x: 0, y: 28, w: 1920, h: 1052 };
    let left = Some(Tile::Left);
    assert_eq!(float_frame_this_pass(Placement::Hidden, true, left, zone), FloatFrame::Hidden);
    assert_eq!(float_frame_this_pass(Placement::Maximized, true, left, zone), FloatFrame::Framed(zone));
    assert_eq!(
        float_frame_this_pass(Placement::AsLaidOut, true, left, zone),
        FloatFrame::Framed(frame_for(Tile::Left, zone))
    );
    assert_eq!(float_frame_this_pass(Placement::AsLaidOut, false, left, zone), FloatFrame::Placed);
    assert_eq!(float_frame_this_pass(Placement::AsLaidOut, true, None, zone), FloatFrame::Placed);
}
