use omoya::geom::{Direction, Rect};
use omoya::layout::{cells_fit, Tiling, TreeRect, WindowId, GAP};

/// The screen the vkms gate runs at.
const SCREEN: TreeRect = TreeRect { x: 0, y: 0, w: 1024, h: 768 };

#[test]
fn one_window_fills_the_screen() {
    let mut t = Tiling::default();
    let a = t.map_id();
    assert_eq!(t.arrange_ids(SCREEN), vec![(a, SCREEN)]);
}

#[test]
fn two_windows_get_disjoint_halves() {
    let mut t = Tiling::default();
    let a = t.map_id();
    let b = t.map_id();
    let rects = t.arrange_ids(SCREEN);
    assert_eq!(rects.len(), 2);
    let ra = rects.iter().find(|(i, _)| *i == a).expect("a is laid out").1;
    let rb = rects.iter().find(|(i, _)| *i == b).expect("b is laid out").1;
    assert_ne!(ra.x, rb.x, "both windows at the same x — that is stacking");
    assert_eq!(ra.w + rb.w, SCREEN.w, "the halves must tile the screen exactly");
    assert_eq!(ra.h, SCREEN.h);
    assert_eq!(rb.h, SCREEN.h);
}

#[test]
fn a_third_window_splits_the_focused_one_the_other_way() {
    let mut t = Tiling::default();
    let _a = t.map_id();
    let b = t.map_id();
    let c = t.map_id();
    let rects = t.arrange_ids(SCREEN);
    assert_eq!(rects.len(), 3);
    let rb = rects.iter().find(|(i, _)| *i == b).expect("b").1;
    let rc = rects.iter().find(|(i, _)| *i == c).expect("c").1;
    assert_eq!(rb.x, rc.x, "the third window should share the second's column");
    assert_ne!(rb.y, rc.y, "and sit above or below it, not on top of it");
}

#[test]
fn rectangles_never_overlap() {
    for (w, h) in [(1024u16, 768u16), (1920, 1080), (3840, 2160), (640, 480)] {
        let screen = TreeRect { x: 0, y: 0, w, h };
        let mut t = Tiling::default();
        for _ in 0..6 {
            t.map_id();
        }
        let rects = t.arrange_ids(screen);
        assert_eq!(rects.len(), 6, "{w}x{h}");
        for (i, (_, a)) in rects.iter().enumerate() {
            for (_, b) in rects.iter().skip(i + 1) {
                let disjoint = a.x + a.w <= b.x || b.x + b.w <= a.x || a.y + a.h <= b.y || b.y + b.h <= a.y;
                assert!(disjoint, "{w}x{h}: {a:?} overlaps {b:?}");
            }
        }
    }
}

#[test]
fn an_empty_tiling_arranges_nothing() {
    assert!(Tiling::default().arrange_ids(SCREEN).is_empty());
    assert!(Tiling::default().is_empty());
}

#[test]
fn ids_count_up_and_focus_follows_the_newest() {
    let mut t = Tiling::default();
    assert_eq!(t.map_id(), WindowId(0));
    assert_eq!(t.map_id(), WindowId(1));
    assert_eq!(t.focused(), Some(WindowId(1)));
    assert_eq!(t.len(), 2);
    assert!(t.holds(WindowId(0)));
    assert!(!t.holds(WindowId(7)));
}

#[test]
fn unmapping_collapses_the_split_and_moves_focus() {
    let mut t = Tiling::default();
    let a = t.map_id();
    let b = t.map_id();
    assert!(t.unmap(b), "a is still there");
    assert_eq!(t.focused(), Some(a), "focus lands on what is left");
    assert_eq!(t.arrange_ids(SCREEN), vec![(a, SCREEN)]);
    assert!(!t.unmap(a), "the last window empties the tree");
    assert!(t.is_empty());
    assert_eq!(t.focused(), None);
}

#[test]
fn unmapping_an_unknown_window_changes_nothing() {
    let mut t = Tiling::default();
    assert!(!t.unmap(WindowId(3)));
    let a = t.map_id();
    assert!(t.unmap(WindowId(9)));
    assert_eq!(t.focused(), Some(a));
    assert_eq!(t.len(), 1);
}

#[test]
fn map_then_unmap_restores_the_layout() {
    let mut t = Tiling::default();
    t.map_id();
    t.map_id();
    let before = t.arrange_ids(SCREEN);
    let c = t.map_id();
    t.unmap(c);
    assert_eq!(t.arrange_ids(SCREEN), before);
}

#[test]
fn focus_moves_to_the_neighbour_and_stops_at_the_edge() {
    let mut t = Tiling::default();
    let a = t.map_id();
    let b = t.map_id();
    let screen = Rect { x: 0, y: 0, w: 1024, h: 768 };
    assert_eq!(t.focus_direction(Direction::Left, screen), Some(a));
    assert_eq!(t.focused(), Some(a));
    assert_eq!(t.focus_direction(Direction::Left, screen), None, "nothing further left");
    assert_eq!(t.focused(), Some(a));
    assert_eq!(t.focus_direction(Direction::Right, screen), Some(b));
}

#[test]
fn focus_window_only_takes_held_windows() {
    let mut t = Tiling::default();
    let a = t.map_id();
    let b = t.map_id();
    t.focus_window(a);
    assert_eq!(t.focused(), Some(a));
    t.focus_window(WindowId(42));
    assert_eq!(t.focused(), Some(a));
    t.focus_window(b);
    assert_eq!(t.focused(), Some(b));
}

#[test]
fn arranged_windows_are_inset_by_the_gap() {
    let mut t = Tiling::default();
    let a = t.map_id();
    let b = t.map_id();
    let placed = t.arrange(Rect { x: 0, y: 0, w: 1024, h: 768 });
    assert_eq!(placed.len(), 2);
    assert_eq!(placed[0], (a, Rect { x: GAP, y: GAP, w: 512 - 2 * GAP, h: 768 - 2 * GAP }));
    assert_eq!(placed[1], (b, Rect { x: 512 + GAP, y: GAP, w: 512 - 2 * GAP, h: 768 - 2 * GAP }));
}

#[test]
fn negative_bounds_clamp_rather_than_wrap() {
    let mut t = Tiling::default();
    let a = t.map_id();
    let placed = t.arrange(Rect { x: -5, y: -5, w: 100, h: 100 });
    assert_eq!(placed, vec![(a, Rect { x: GAP, y: GAP, w: 100 - 2 * GAP, h: 100 - 2 * GAP })]);
}

#[test]
fn bounds_past_the_cell_range_are_refused_before_layout() {
    assert!(cells_fit(Rect { x: 0, y: 0, w: 1920, h: 1080 }));
    assert!(cells_fit(Rect { x: -5, y: -5, w: 100, h: 100 }));
    assert!(!cells_fit(Rect { x: 70000, y: 0, w: 4, h: 4 }));
    assert!(!cells_fit(Rect { x: 65000, y: 0, w: 1000, h: 4 }));
}

#[test]
fn a_fresh_tiling_can_map_a_window() {
    let mut t = Tiling::default();
    assert!(t.can_map());
    let a = t.map_id();
    assert!(t.can_map());
    let b = t.map_id();
    assert_ne!(a, b);
}

#[test]
fn a_fourth_window_turns_the_split_back_to_side_by_side() {
    let mut t = Tiling::default();
    let _a = t.map_id();
    let _b = t.map_id();
    let c = t.map_id();
    let d = t.map_id();
    let rects = t.arrange_ids(SCREEN);
    let rc = rects.iter().find(|(i, _)| *i == c).expect("c").1;
    let rd = rects.iter().find(|(i, _)| *i == d).expect("d").1;
    assert_eq!(rc.y, rd.y, "two levels down the divider is vertical again: same row");
    assert_eq!(rc.h, rd.h);
    assert_eq!(rc.x + rc.w, rd.x, "d sits right beside c");
}

#[test]
fn the_parcels_cover_the_screen_without_overlap() {
    let mut t = Tiling::default();
    for _ in 0..5 {
        t.map_id();
    }
    let rects = t.arrange_ids(SCREEN);
    let area: u32 = rects.iter().map(|(_, r)| u32::from(r.w) * u32::from(r.h)).sum();
    assert_eq!(area, u32::from(SCREEN.w) * u32::from(SCREEN.h), "no gap and no overlap");
    for (_, r) in &rects {
        assert!(r.x + r.w <= SCREEN.x + SCREEN.w && r.y + r.h <= SCREEN.y + SCREEN.h);
    }
}

#[test]
fn mapping_splits_only_the_focused_tile_and_unmapping_gives_it_back() {
    let mut t = Tiling::default();
    let a = t.map_id();
    let b = t.map_id();
    let c = t.map_id();
    let before = t.arrange_ids(SCREEN);
    let rect = |rs: &Vec<(WindowId, TreeRect)>, id: WindowId| rs.iter().find(|(i, _)| *i == id).expect("held").1;
    let d = t.map_id();
    let during = t.arrange_ids(SCREEN);
    assert_eq!(rect(&during, a), rect(&before, a));
    assert_eq!(rect(&during, b), rect(&before, b));
    let (rc, rd, old_c) = (rect(&during, c), rect(&during, d), rect(&before, c));
    assert_eq!(rc.w + rd.w, old_c.w, "c's tile is shared between c and d");
    assert_eq!(rc.w, (old_c.w + 1) / 2);
    assert!(t.unmap(d));
    assert_eq!(t.arrange_ids(SCREEN), before);
}
