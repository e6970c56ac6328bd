use omoya::wash::Wash;
use omoya::windowmode::{Mode, Placement, Windows};

#[test]
fn zero_slices_is_no_wash_at_all() {
    assert!(Wash::new(0).is_none());
    assert!(Wash::new(1).is_some());
}

#[test]
fn a_sweep_tiles_the_output_with_no_gap_and_no_overlap() {
    for slices in 1u8..=16 {
        for height in [1i32, 7, 8, 9, 100, 1045, 1080, 1081, 2160] {
            let mut w = Wash::new(slices).expect("non-zero");
            let mut covered = vec![0u32; usize::try_from(height).unwrap()];
            for _ in 0..slices {
                let r = w.advance(1920, height);
                for y in r.y..r.y + r.h {
                    covered[usize::try_from(y).unwrap()] += 1;
                }
            }
            assert!(
                covered.iter().all(|&c| c == 1),
                "slices={slices} height={height}: rows covered {:?} times, not exactly once",
                covered.iter().collect::<std::collections::BTreeSet<_>>()
            );
        }
    }
}

#[test]
fn the_sweep_repeats_so_the_bound_is_permanent() {
    let mut w = Wash::new(4).expect("non-zero");
    let first: Vec<_> = (0..4).map(|_| w.advance(800, 600)).collect();
    let second: Vec<_> = (0..4).map(|_| w.advance(800, 600)).collect();
    assert_eq!(first, second);
}

#[test]
fn every_slice_spans_the_full_width() {
    let mut w = Wash::new(5).expect("non-zero");
    for _ in 0..5 {
        let r = w.advance(1920, 1080);
        assert_eq!(r.x, 0);
        assert_eq!(r.w, 1920);
    }
}

#[test]
fn a_zero_sized_output_yields_an_empty_rect() {
    let mut w = Wash::new(3).expect("non-zero");
    assert_eq!(w.advance(0, 0).h, 0);
    assert_eq!(w.advance(1920, 0).h, 0);
}

#[test]
fn covering_every_row_more_than_once_would_fail_the_tiling_test() {
    let height = 64i32;
    let mut covered = vec![0u32; usize::try_from(height).unwrap()];
    for _ in 0..8 {
        for c in &mut covered {
            *c += 1;
        }
    }
    assert!(!covered.iter().all(|&c| c == 1), "the tiling assertion must reject a full-screen repaint");
}

#[test]
fn the_wash_bound_is_its_slice_count() {
    let w = Wash::new(6).expect("non-zero");
    assert_eq!(w.bound_frames(), 6);
}

#[test]
fn an_unknown_window_is_normal_and_laid_out() {
    let w = Windows::default();
    assert_eq!(w.mode_of(7), Mode::Normal);
    assert_eq!(w.placement_of(7), Placement::AsLaidOut);
}

#[test]
fn maximize_toggles_and_reports_the_mode_now_in_force() {
    let mut w = Windows::default();
    assert_eq!(w.toggle_maximize(1), Mode::Maximized);
    assert_eq!(w.placement_of(1), Placement::Maximized);
    assert_eq!(w.toggle_maximize(1), Mode::Normal);
    assert_eq!(w.placement_of(1), Placement::AsLaidOut);
}

#[test]
fn maximizing_a_minimized_window_makes_it_visible() {
    let mut w = Windows::default();
    w.minimize(1);
    assert_eq!(w.placement_of(1), Placement::Hidden);
    w.toggle_maximize(1);
    assert_eq!(w.placement_of(1), Placement::Maximized);
    assert_eq!(w.minimized_count(), 0, "it must leave the minimise list");
}

#[test]
fn restore_is_lifo_because_that_is_what_un_minimise_means() {
    let mut w = Windows::default();
    w.minimize(1);
    w.minimize(2);
    w.minimize(3);
    assert_eq!(w.restore_last(), Some(3));
    assert_eq!(w.restore_last(), Some(2));
    assert_eq!(w.restore_last(), Some(1));
    assert_eq!(w.restore_last(), None, "nothing left to restore");
}

#[test]
fn minimizing_twice_does_not_double_the_restore_queue() {
    let mut w = Windows::default();
    w.minimize(1);
    w.minimize(1);
    assert_eq!(w.minimized_count(), 1);
    assert_eq!(w.restore_last(), Some(1));
    assert_eq!(w.restore_last(), None);
}

#[test]
fn a_group_shows_exactly_one_member() {
    let mut w = Windows::default();
    w.join(2, 1);
    let shown: Vec<u32> = [1, 2].into_iter().filter(|id| w.placement_of(*id) != Placement::Hidden).collect();
    assert_eq!(shown, vec![2], "the joiner is active");
}

#[test]
fn cycling_wraps_in_both_directions_without_underflow() {
    let mut w = Windows::default();
    w.join(2, 1);
    w.join(3, 1);
    assert_eq!(w.cycle(1, true), Some(1));
    assert_eq!(w.cycle(1, true), Some(2));
    assert_eq!(w.cycle(1, false), Some(1));
    assert_eq!(w.cycle(1, false), Some(3));
}

#[test]
fn cycling_an_ungrouped_window_is_none_not_a_panic() {
    let mut w = Windows::default();
    assert_eq!(w.cycle(9, true), None);
}

#[test]
fn a_group_of_one_is_dissolved_rather_than_kept() {
    let mut w = Windows::default();
    w.join(2, 1);
    w.leave(2);
    assert!(w.group_of(1).is_none(), "a group of one is a window");
    assert_eq!(w.placement_of(1), Placement::AsLaidOut);
}

#[test]
fn leaving_clamps_the_active_index_instead_of_going_out_of_range() {
    let mut w = Windows::default();
    w.join(2, 1);
    w.join(3, 1);
    w.leave(3);
    let g = w.group_of(1).expect("two members remain");
    assert!(g.active < g.members.len(), "active {} out of range", g.active);
}

#[test]
fn joining_moves_a_window_between_groups_rather_than_duplicating_it() {
    let mut w = Windows::default();
    w.join(2, 1);
    w.join(4, 3);
    w.join(2, 3);
    assert_eq!(w.group_of(1), None, "the first group dropped to one member and dissolved");
    let g = w.group_of(3).expect("second group holds it");
    assert_eq!(g.members.iter().filter(|m| **m == 2).count(), 1);
}

#[test]
fn a_window_cannot_join_itself() {
    let mut w = Windows::default();
    w.join(1, 1);
    assert!(w.group_of(1).is_none());
}

#[test]
fn minimized_beats_tab_active() {
    let mut w = Windows::default();
    w.join(2, 1);
    w.minimize(2);
    assert_eq!(w.placement_of(2), Placement::Hidden);
}

#[test]
fn an_inactive_tab_is_hidden_even_when_maximized() {
    let mut w = Windows::default();
    w.join(2, 1);
    w.toggle_maximize(1);
    assert_eq!(w.placement_of(1), Placement::Hidden);
    assert_eq!(w.placement_of(2), Placement::AsLaidOut);
}

#[test]
fn position_describes_the_asked_for_window_not_the_visible_one() {
    let mut w = Windows::default();
    w.join(2, 1);
    assert_eq!(w.position_in_group(1), Some((0, 2)), "the inactive member");
    assert_eq!(w.position_in_group(2), Some((1, 2)), "the visible member");
    assert_eq!(w.position_in_group(9), None, "ungrouped");
}

#[test]
fn forget_prevents_a_recycled_id_from_being_restored_as_someone_else() {
    let mut w = Windows::default();
    w.join(2, 1);
    w.minimize(2);
    w.forget(2);
    assert_eq!(w.minimized_count(), 0);
    assert_eq!(w.mode_of(2), Mode::Normal);
    assert!(w.group_of(1).is_none(), "the group dissolved with it");
    assert_eq!(w.restore_last(), None);
}

#[test]
fn minimise_then_restore_gives_back_a_normal_window() {
    let mut w = Windows::default();
    w.toggle_maximize(5);
    w.minimize(5);
    assert_eq!(w.restore_last(), Some(5));
    assert_eq!(w.mode_of(5), Mode::Normal);
    assert_eq!(w.placement_of(5), Placement::AsLaidOut);
}
