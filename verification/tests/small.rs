use omoya::mcp::leaves;
use omoya::owed::Owed;
use omoya::remap::{apply, remaps, EVDEV_CAPSLOCK, XKB_OFFSET};
use omoya::state::SeatMode;
use omoya::winid::IdMint;
use omoya::xkb::{Context, Keymap, CONTEXT_NO_FLAGS};

#[test]
fn every_leaf_is_unique_and_sorted_enough_to_read() {
    let mut seen = std::collections::HashSet::new();
    let all = leaves();
    for l in &all {
        assert!(seen.insert(*l), "duplicate leaf in catalog: {l}");
    }
    assert!(all.len() >= 40, "catalog shrank unexpectedly: {}", all.len());
}

#[test]
fn read_catalog_excludes_the_write_only_verbs() {
    let all = leaves();
    for verb in ["do", "type", "key", "click", "capture", "td_mode_set"] {
        assert!(!all.contains(&verb), "write-only verb `{verb}` must not be listed as a readable leaf");
    }
    assert!(all.contains(&"pointer"), "`pointer` answers a read and must stay in the catalog");
}

#[test]
fn the_two_launchable_modes_parse() {
    assert_eq!(SeatMode::parse("entrance"), Ok(SeatMode::Entrance));
    assert_eq!(SeatMode::parse("session"), Ok(SeatMode::Session));
}

#[test]
fn lock_is_refused_as_a_launchable_mode_and_says_why() {
    let err = SeatMode::parse("lock").unwrap_err();
    assert!(err.contains("in-process"), "{err}");
}

#[test]
fn an_unknown_mode_lists_the_real_ones() {
    let err = SeatMode::parse("kiosk").unwrap_err();
    assert!(err.contains("entrance"));
    assert!(err.contains("session"));
    assert_eq!(err, "unknown mode `kiosk` (entrance | session)");
}

#[test]
fn mode_names_match_omoya_spec() {
    assert_eq!(SeatMode::Entrance.name(), "entrance");
    assert_eq!(SeatMode::Session.name(), "session");
}

#[test]
fn successive_mints_never_repeat() {
    let mut m = IdMint::new();
    let a = m.mint();
    let b = m.mint();
    let c = m.mint();
    assert_ne!(a, b);
    assert_ne!(b, c);
    assert_ne!(a, c);
    assert!(b > a && c > b, "ids must increase");
}

#[test]
fn no_window_is_ever_id_zero() {
    let mut m = IdMint::new();
    assert!(m.peek() >= 1, "the counter must start above the reserved 0");
    assert_ne!(m.mint(), 0);
}

#[test]
fn every_cause_has_a_distinct_bit() {
    let all = Owed::all();
    for (i, a) in all.iter().enumerate() {
        assert!(a.bit() < 64, "{a:?} must name a bit of the mask");
        for b in all.iter().skip(i + 1) {
            assert_ne!(a.bit(), b.bit(), "{a:?} and {b:?} share a bit");
        }
    }
}

#[test]
fn every_cause_has_a_distinct_name() {
    let mut names: Vec<&str> = Owed::all().iter().map(|c| c.name()).collect();
    let total = names.len();
    names.sort_unstable();
    names.dedup();
    assert_eq!(names.len(), total, "two causes share a published name");
}

#[test]
fn the_catalog_is_complete() {
    assert_eq!(Owed::all().len(), 7, "a new Owed variant must join all()");
}

#[test]
fn capslock_becomes_escape() {
    assert_eq!(apply(66), 9);
}

#[test]
fn every_other_key_passes_through_untouched() {
    let table = remaps();
    for evdev in 0u32..=255 {
        if table.iter().any(|(f, _)| *f == evdev) {
            continue;
        }
        let k = evdev + XKB_OFFSET;
        assert_eq!(apply(k), k, "evdev {evdev} was rewritten and should not have been");
    }
}

#[test]
fn the_remap_is_idempotent() {
    let esc = apply(EVDEV_CAPSLOCK + XKB_OFFSET);
    assert_eq!(apply(esc), esc, "applying twice must be stable");
}

#[test]
fn no_two_remaps_share_a_source() {
    let table = remaps();
    let mut froms: Vec<u32> = table.iter().map(|(f, _)| *f).collect();
    let n = froms.len();
    froms.sort_unstable();
    froms.dedup();
    assert_eq!(froms.len(), n, "a source keycode is remapped twice");
}

#[test]
fn no_remap_forms_a_chain() {
    let table = remaps();
    for (_, to) in &table {
        assert!(!table.iter().any(|(f, _)| f == to), "evdev {to} is both a target and a source");
    }
}

#[test]
fn the_remap_is_still_needed() {
    // The keymap facade ignores XKB options: asking for `caps:escape`
    // compiles the same US keymap, so the remap is still what does the work.
    let ctx = Context::new(CONTEXT_NO_FLAGS);
    let with_option =
        Keymap::new_from_names(&ctx, "evdev", "pc105", "us", "", Some("caps:escape".to_string()), 0)
            .expect("options are ignored, not refused");
    let without = Keymap::new_from_names(&ctx, "evdev", "pc105", "us", "", None, 0).expect("us compiles");
    assert_eq!(with_option.get_as_string(1), without.get_as_string(1));
    assert_eq!(apply(EVDEV_CAPSLOCK + XKB_OFFSET), 9);
}
