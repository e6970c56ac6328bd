use omoya::geom::Rect;
use omoya::truedamage::{
    changed_rows, refine_commit, spans_to_damage, union_spans, worth_refining, Mode, RowSpan, Shadows, Verdict,
};

fn buf(rows: &[u8], stride: usize) -> Vec<u8> {
    rows.iter()
        .flat_map(|v| std::iter::repeat(*v).take(stride))
        .collect()
}

#[test]
fn the_wire_encoding_round_trips_every_mode() {
    for m in [Mode::Off, Mode::On, Mode::Verify] {
        assert_eq!(Mode::from_u64(m.to_u64()), m, "{m:?} must round-trip");
    }
    assert_eq!(Mode::from_u64(99), Mode::On);
}

#[test]
fn an_unknown_mode_name_is_refused_with_the_accepted_set() {
    assert_eq!(Mode::parse("on"), Ok(Mode::On));
    assert_eq!(Mode::parse("verify"), Ok(Mode::Verify));
    assert_eq!(Mode::parse("off"), Ok(Mode::Off));
    let e = Mode::parse("ON").unwrap_err();
    assert!(e.contains("off, on, verify"), "the refusal must name the set: {e}");
}

#[test]
fn only_on_is_allowed_to_replace_the_declaration() {
    assert!(Mode::On.replaces_declaration());
    assert!(!Mode::Verify.replaces_declaration());
    assert!(!Mode::Off.replaces_declaration());
}

#[test]
fn verify_computes_but_off_does_not() {
    assert!(Mode::Verify.computes());
    assert!(Mode::On.computes());
    assert!(!Mode::Off.computes());
}

#[test]
fn an_identical_buffer_has_no_damage() {
    let a = buf(&[1, 2, 3, 4], 16);
    let v = changed_rows(&a, &a, 16, 4);
    assert_eq!(v.rows(), Some(0), "identical buffers must produce zero rows");
}

#[test]
fn one_changed_row_yields_one_row() {
    let a = buf(&[1, 2, 3, 4], 16);
    let b = buf(&[1, 2, 9, 4], 16);
    let v = changed_rows(&a, &b, 16, 4);
    assert_eq!(
        v,
        Verdict::Refined {
            spans: vec![RowSpan { start: 2, end: 3 }],
            rows_examined: 4
        }
    );
}

#[test]
fn adjacent_changed_rows_coalesce_into_one_span() {
    let a = buf(&[1, 1, 1, 1, 1, 1], 8);
    let b = buf(&[1, 9, 9, 9, 1, 1], 8);
    let v = changed_rows(&a, &b, 8, 6);
    assert_eq!(
        v,
        Verdict::Refined {
            spans: vec![RowSpan { start: 1, end: 4 }],
            rows_examined: 6
        }
    );
}

#[test]
fn a_run_touching_the_last_row_is_closed() {
    let a = buf(&[1, 1, 1, 1], 8);
    let b = buf(&[1, 1, 9, 9], 8);
    let v = changed_rows(&a, &b, 8, 4);
    assert_eq!(v.rows(), Some(2), "a run at the bottom edge must be emitted");
    if let Verdict::Refined { spans, .. } = v {
        assert_eq!(spans, vec![RowSpan { start: 2, end: 4 }]);
    }
}

#[test]
fn every_row_changed_reports_every_row() {
    let a = buf(&[1, 1, 1, 1], 8);
    let b = buf(&[2, 2, 2, 2], 8);
    let v = changed_rows(&a, &b, 8, 4);
    assert_eq!(v.rows(), Some(4));
}

#[test]
#[allow(non_snake_case)]
fn a_mismatched_shape_is_REFUSED_not_guessed() {
    let a = buf(&[1, 1], 8);
    assert!(matches!(changed_rows(&a, &a, 8, 99), Verdict::Refused(_)));
    assert!(matches!(changed_rows(&a, &a, 0, 2), Verdict::Refused(_)));
    assert!(matches!(changed_rows(&a, &a, 8, 0), Verdict::Refused(_)));
    assert!(matches!(changed_rows(&[], &[], 8, 2), Verdict::Refused(_)));
    assert_eq!(changed_rows(&a, &a, 8, 99).rows(), None);
}

#[test]
fn damage_from_a_commit_that_was_never_presented_is_not_lost() {
    let (stride, height) = (4, 8);
    let base = vec![0u8; stride * height];
    let mut sh = Shadows::default();
    assert!(matches!(sh.refine(1, &base, stride, height, 0), Verdict::Refused(_)));

    let mut a = base.clone();
    a[stride] = 0xAA;
    let v1 = sh.refine(1, &a, stride, height, 0);
    assert_eq!(v1.rows(), Some(1), "first change is one row");

    let mut b = a.clone();
    b[5 * stride] = 0xBB;
    let v2 = sh.refine(1, &b, stride, height, 0);

    let Verdict::Refined { spans, .. } = &v2 else {
        panic!("expected a refinement");
    };
    let covered: Vec<usize> = spans.iter().flat_map(|s| s.start..s.end).collect();
    assert!(
        covered.contains(&1),
        "row 1 changed in an UNPRESENTED commit and must still be reported; got {spans:?}"
    );
    assert!(covered.contains(&5), "row 5 changed too; got {spans:?}");
}

#[test]
fn a_present_clears_the_ledger_and_a_commit_does_not() {
    let (stride, height) = (4, 8);
    let base = vec![0u8; stride * height];
    let mut sh = Shadows::default();
    let _ = sh.refine(1, &base, stride, height, 0);

    let mut a = base.clone();
    a[2 * stride] = 0xAA;
    let _ = sh.refine(1, &a, stride, height, 0);
    assert_eq!(sh.mark_presented(), 1, "one surface had something outstanding");

    let v = sh.refine(1, &a, stride, height, 0);
    assert_eq!(v.rows(), Some(0), "a present cleared the ledger, so an unchanged commit is free");
}

#[test]
fn presented_marks_is_the_denominator_for_the_ledger() {
    let mut sh = Shadows::default();
    assert_eq!(sh.presented_marks, 0);
    assert_eq!(sh.mark_presented(), 0, "nothing outstanding yet");
    assert_eq!(sh.presented_marks, 1, "the mark is counted even when empty");
}

#[test]
fn union_spans_coalesces_touching_and_overlapping_bands() {
    let u = union_spans(
        &[RowSpan { start: 0, end: 2 }, RowSpan { start: 5, end: 7 }],
        &[RowSpan { start: 2, end: 4 }, RowSpan { start: 6, end: 9 }],
    );
    assert_eq!(
        u,
        vec![RowSpan { start: 0, end: 4 }, RowSpan { start: 5, end: 9 }],
        "touching bands coalesce; disjoint ones stay apart"
    );
}

#[test]
fn the_first_commit_refuses_and_the_second_refines() {
    let mut sh = Shadows::default();
    let a = buf(&[1, 1, 1, 1], 8);
    assert!(matches!(sh.refine(7, &a, 8, 4, 0), Verdict::Refused(_)));
    assert_eq!(sh.refined, 0);
    assert_eq!(sh.refused, 1);

    let b = buf(&[1, 9, 1, 1], 8);
    assert_eq!(sh.refine(7, &b, 8, 4, 0).rows(), Some(1));
    assert_eq!(sh.refined, 1);
}

#[test]
fn a_refusal_does_not_disable_refinement_forever() {
    let mut sh = Shadows::default();
    sh.refine(1, &buf(&[1, 1], 8), 8, 2, 0);
    assert!(matches!(sh.refine(1, &buf(&[1, 1, 1, 1], 8), 8, 4, 0), Verdict::Refused(_)));
    let v = sh.refine(1, &buf(&[1, 1, 9, 1], 8), 8, 4, 0);
    assert_eq!(v.rows(), Some(1), "refinement must resume immediately");
}

#[test]
fn the_shadow_tracks_the_latest_pixels_after_a_partial_update() {
    let mut sh = Shadows::default();
    sh.refine(1, &buf(&[1, 1, 1], 8), 8, 3, 0);
    sh.refine(1, &buf(&[1, 9, 1], 8), 8, 3, 0);
    sh.mark_presented();
    let v = sh.refine(1, &buf(&[1, 9, 1], 8), 8, 3, 0);
    assert_eq!(v.rows(), Some(0), "the shadow did not adopt the changed row");
}

#[test]
fn a_format_change_refuses_even_at_identical_dimensions() {
    let mut sh = Shadows::default();
    let a = buf(&[1, 1], 8);
    sh.refine(1, &a, 8, 2, 0x3432_5258);
    assert!(matches!(sh.refine(1, &a, 8, 2, 0x3234_5241), Verdict::Refused(_)));
}

#[test]
fn forgetting_a_surface_releases_its_shadow() {
    let mut sh = Shadows::default();
    sh.refine(1, &buf(&[1], 8), 8, 1, 0);
    sh.refine(2, &buf(&[1], 8), 8, 1, 0);
    assert_eq!(sh.len(), 2);
    sh.forget(1);
    assert_eq!(sh.len(), 1);
    assert!(!sh.is_empty());
}

#[test]
fn the_denominator_travels_with_the_count() {
    let mut sh = Shadows::default();
    let a = buf(&[1, 1, 1, 1], 8);
    sh.refine(1, &a, 8, 4, 0);
    sh.refine(1, &a, 8, 4, 0);
    assert_eq!(sh.rows_dirty, 0, "nothing changed");
    assert_eq!(sh.rows_examined, 4, "but four rows WERE examined");
}

#[test]
fn the_setting_resolves_over_the_configured_mode() {
    assert_eq!(Mode::resolve(Mode::Off, None), Mode::Off);
    assert_eq!(Mode::resolve(Mode::Off, Some("verify")), Mode::Verify);
    assert_eq!(Mode::from_setting(None), Mode::On);
    assert_eq!(Mode::from_setting(Some("off")), Mode::Off);
    assert_eq!(Mode::default(), Mode::On);
    assert_eq!(Mode::Verify.name(), "verify");
}

#[test]
fn only_a_declaration_covering_half_the_surface_is_worth_comparing() {
    assert!(worth_refining(&[(1920, 1080)], 1920, 1080), "a whole-surface declaration is refined");
    assert!(worth_refining(&[(1920, 540)], 1920, 1080), "exactly half still pays for the read");
    assert!(!worth_refining(&[(1920, 539)], 1920, 1080), "honest small damage is left alone");
    assert!(worth_refining(&[(1920, 300), (1920, 300)], 1920, 1080), "declarations add up");
    assert!(!worth_refining(&[(-5, 1080)], 1920, 1080), "a negative size declares nothing");
    assert!(!worth_refining(&[(100, 100)], 0, 1080), "an empty surface is never compared");
}

#[test]
fn changed_bands_become_full_width_damage() {
    let d = spans_to_damage(&[RowSpan { start: 2, end: 5 }, RowSpan { start: 9, end: 10 }], 640);
    assert_eq!(d, vec![Rect { x: 0, y: 2, w: 640, h: 3 }, Rect { x: 0, y: 9, w: 640, h: 1 }]);
    assert!(spans_to_damage(&[], 640).is_empty());
}

#[test]
fn union_spans_accepts_unsorted_and_overlapping_lists() {
    let u = union_spans(
        &[RowSpan { start: 6, end: 9 }, RowSpan { start: 0, end: 2 }],
        &[RowSpan { start: 1, end: 3 }, RowSpan { start: 2, end: 4 }, RowSpan { start: 7, end: 8 }],
    );
    assert_eq!(u, vec![RowSpan { start: 0, end: 4 }, RowSpan { start: 6, end: 9 }]);
    assert_eq!(union_spans(&[], &[]), vec![]);
}

#[test]
fn a_commit_is_refined_only_past_every_gate_and_only_shrinks_in_on_mode() {
    // Two pixels wide (8 bytes a row), four rows, with four bytes of pool
    // before the buffer.
    let mut pool = vec![0u8; 4];
    pool.extend(buf(&[1, 1, 1, 1], 8));
    let whole = [(2, 4)];
    let mut sh = Shadows::new();
    assert!(refine_commit(&mut sh, Mode::Off, 7, true, &whole, &pool, 4, 8, 2, 4, 0).is_none());
    assert!(refine_commit(&mut sh, Mode::On, 7, false, &whole, &pool, 4, 8, 2, 4, 0).is_none());
    assert!(refine_commit(&mut sh, Mode::On, 7, true, &[], &pool, 4, 8, 2, 4, 0).is_none());
    assert!(refine_commit(&mut sh, Mode::On, 7, true, &[(1, 1)], &pool, 4, 8, 2, 4, 0).is_none(), "small damage is left alone");
    assert!(refine_commit(&mut sh, Mode::On, 7, true, &whole, &pool, 8, 8, 2, 4, 0).is_none(), "past the pool");
    assert_eq!(sh.len(), 0, "a gated commit touches no shadow");

    let (v, replaced) = refine_commit(&mut sh, Mode::On, 7, true, &whole, &pool, 4, 8, 2, 4, 0).unwrap();
    assert!(matches!(v, Verdict::Refused(_)));
    assert_eq!(replaced, None, "a refusal leaves the declaration standing");

    let mut next = vec![0u8; 4];
    next.extend(buf(&[1, 9, 1, 1], 8));
    let (v, replaced) = refine_commit(&mut sh, Mode::On, 7, true, &whole, &next, 4, 8, 2, 4, 0).unwrap();
    assert_eq!(v.rows(), Some(1));
    assert_eq!(replaced, Some(vec![Rect { x: 0, y: 1, w: 2, h: 1 }]));

    let mut again = vec![0u8; 4];
    again.extend(buf(&[1, 9, 1, 7], 8));
    let (v, replaced) = refine_commit(&mut sh, Mode::Verify, 7, true, &whole, &again, 4, 8, 2, 4, 0).unwrap();
    assert!(v.rows().is_some());
    assert_eq!(replaced, None, "verify mode computes but replaces nothing");
}

#[test]
fn a_run_of_refined_commits_reports_every_row_changed_since_the_present() {
    let mut sh = Shadows::default();
    sh.refine(1, &buf(&[0, 0, 0, 0, 0, 0], 8), 8, 6, 0);
    sh.mark_presented();
    let (refined, examined) = (sh.refined, sh.rows_examined);
    sh.refine(1, &buf(&[5, 0, 0, 0, 0, 0], 8), 8, 6, 0);
    sh.refine(1, &buf(&[5, 0, 0, 7, 0, 0], 8), 8, 6, 0);
    let v = sh.refine(1, &buf(&[0, 0, 0, 7, 4, 0], 8), 8, 6, 0);
    match v {
        Verdict::Refined { spans, rows_examined } => {
            assert_eq!(rows_examined, 6);
            assert_eq!(spans, vec![RowSpan { start: 0, end: 1 }, RowSpan { start: 3, end: 5 }]);
        }
        Verdict::Refused(why) => panic!("refused: {why}"),
    }
    assert_eq!(sh.refined, refined + 3);
    assert_eq!(sh.rows_examined, examined + 18);
}
