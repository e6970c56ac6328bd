use omoya::rouka::{
    choose_route, eligible_for_plane, Advertisement, Candidate, Ineligible, PlaneTable,
    ReadbackReason, Requirement, RoukaError, Route,
};

const ARGB: u32 = 0x3443_2241;
const LINEAR: u64 = 0;
const FULLSCREEN_BYTES: u64 = 1920 * 1080 * 4;

fn req() -> Requirement {
    Requirement { fourcc: ARGB, modifier: LINEAR, bytes: FULLSCREEN_BYTES }
}

#[test]
fn advertising_a_readback_route_is_refused() {
    let err = Advertisement::try_promise(Route::CpuReadback {
        reason: ReadbackReason::CompositorIsCpu,
        bytes: FULLSCREEN_BYTES,
    })
    .expect_err("a readback route must never become a promise");
    assert_eq!(
        err,
        RoukaError::PromisedWhatWeServeBadly { route: "cpu-readback", cpu_bytes_per_frame: FULLSCREEN_BYTES }
    );
    assert!(err.to_string().contains("8294400"));
}

#[test]
fn a_scanout_route_may_be_promised() {
    let mut table = PlaneTable::new(vec![(31, vec![(ARGB, LINEAR)])]);
    let route = choose_route(&mut table, &req(), true);
    assert_eq!(route.label(), "direct-scanout");
    assert!(route.cost().is_zero_copy());
    assert!(Advertisement::try_promise(route).is_ok());
}

#[test]
fn a_plane_that_cannot_scan_out_the_format_is_not_leased() {
    let mut table = PlaneTable::new(vec![(31, vec![(ARGB, 0x0100_0000)])]);
    let route = choose_route(&mut table, &req(), true);
    assert_eq!(route.label(), "cpu-readback");
    assert_eq!(table.free_count(), 1, "the plane must stay available");
}

#[test]
fn one_plane_cannot_back_two_surfaces() {
    let mut table = PlaneTable::new(vec![(31, vec![(ARGB, LINEAR)])]);
    let first = choose_route(&mut table, &req(), true);
    let second = choose_route(&mut table, &req(), true);
    assert_eq!(first.label(), "direct-scanout");
    assert_eq!(second.label(), "cpu-readback");
    assert_eq!(table.free_count(), 0);
}

#[test]
fn cost_is_expressed_in_bytes_and_a_readback_is_never_zero() {
    let readback = Route::CpuReadback { reason: ReadbackReason::CompositorIsCpu, bytes: FULLSCREEN_BYTES };
    assert_eq!(readback.cost().cpu_bytes_per_frame, 8_294_400);
    assert!(!readback.cost().is_zero_copy());
}

#[test]
fn the_fallback_names_its_reason() {
    let mut empty = PlaneTable::default();
    match choose_route(&mut empty, &req(), true) {
        Route::CpuReadback { reason, .. } => {
            assert_eq!(reason, ReadbackReason::CompositorIsCpu);
            assert_eq!(reason.to_string(), "the compositor has no GPU renderer");
        }
        other => panic!("expected a readback, got {}", other.label()),
    }
}

fn cand(x: i32, y: i32, w: i32, h: i32) -> Candidate {
    Candidate { x, y, w, h, buffer_w: w, buffer_h: h, opaque: true }
}

#[test]
fn the_measured_plo_layout_is_eligible_for_a_plane() {
    let occluders = [
        (0, 0, 1920, 28),
        (516, 278, 887, 2),
        (516, 827, 887, 2),
        (516, 280, 2, 547),
        (1401, 280, 2, 547),
    ];
    assert_eq!(eligible_for_plane(&cand(518, 280, 883, 547), &req(), &occluders, &[(ARGB, LINEAR)]), Ok(()));
}

#[test]
fn an_abutting_edge_does_not_occlude() {
    assert_eq!(
        eligible_for_plane(&cand(100, 100, 50, 50), &req(), &[(50, 100, 50, 50)], &[(ARGB, LINEAR)]),
        Ok(())
    );
}

#[test]
fn a_single_overlapping_pixel_refuses() {
    assert_eq!(
        eligible_for_plane(&cand(100, 100, 50, 50), &req(), &[(51, 100, 50, 50)], &[(ARGB, LINEAR)]),
        Err(Ineligible::Occluded)
    );
}

#[test]
fn each_refusal_names_its_own_constraint() {
    let ok_fmt = [(ARGB, LINEAR)];
    let mut scaled = cand(0, 0, 100, 100);
    scaled.buffer_w = 50;
    let mut clear = cand(0, 0, 100, 100);
    clear.opaque = false;
    assert_eq!(eligible_for_plane(&scaled, &req(), &[], &ok_fmt), Err(Ineligible::Scaled));
    assert_eq!(eligible_for_plane(&clear, &req(), &[], &ok_fmt), Err(Ineligible::Translucent));
    assert_eq!(eligible_for_plane(&cand(0, 0, 100, 100), &req(), &[], &[]), Err(Ineligible::UnsupportedFormat));
    assert_eq!(eligible_for_plane(&cand(0, 0, 0, 10), &req(), &[], &ok_fmt), Err(Ineligible::Empty));
}

#[test]
fn the_guard_discriminates_rather_than_accepting_everything() {
    let mut table = PlaneTable::new(vec![(31, vec![(ARGB, LINEAR)])]);
    let good = choose_route(&mut table, &req(), true);
    let bad = choose_route(&mut table, &req(), true);
    assert!(Advertisement::try_promise(good).is_ok());
    assert!(Advertisement::try_promise(bad).is_err());
}

#[test]
fn without_a_plane_a_gpu_compositor_names_the_format_as_the_reason() {
    let mut empty = PlaneTable::default();
    match choose_route(&mut empty, &req(), false) {
        Route::CpuReadback { reason, bytes } => {
            assert_eq!(reason, ReadbackReason::NoSharedFormat);
            assert_eq!(bytes, FULLSCREEN_BYTES);
            assert_eq!(reason.to_string(), "no format both sides can address");
        }
        other => panic!("expected a readback, got {}", other.label()),
    }
}

#[test]
fn the_second_plane_is_leased_when_the_first_cannot_serve() {
    let mut table = PlaneTable::new(vec![(30, vec![(ARGB, 7)]), (31, vec![(ARGB, LINEAR)])]);
    match choose_route(&mut table, &req(), true) {
        Route::DirectScanout { plane } => assert_eq!(plane.id(), 31),
        other => panic!("expected scanout, got {}", other.label()),
    }
    assert_eq!(table.free_count(), 1);
}
