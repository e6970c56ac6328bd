use omoya::remap::remaps;
use omoya::ukeire::{
    cursor_scale, refusals, reserved_codes, Keymap, Remaps, Repeat, ScrollDirection, SeatModifier, UkeireError,
};

#[test]
fn the_default_repeat_is_fast_enough_to_be_worth_having() {
    let (delay, rate) = Repeat::default().smithay_repeat_info();
    assert!(delay <= 300, "the first repeat must arrive within 300ms, got {delay}ms");
    assert!(rate >= 40, "at least 40 repeats a second, got {rate}Hz");
    assert!(delay < 600 && rate > 25, "both must be strictly faster than 600/25, got {delay}/{rate}");
}

#[test]
fn smithay_wants_the_delay_first_and_wayland_wants_the_rate_first() {
    let r = Repeat::new(199, 44);
    assert_eq!(r.smithay_repeat_info(), (199, 44));
}

#[test]
fn an_out_of_band_repeat_value_clamps_and_does_not_refuse_the_seat() {
    let fast = Repeat::new(1, 100_000);
    assert_eq!(fast.smithay_repeat_info(), (50, 100));
    let slow = Repeat::new(999_999, -7);
    assert_eq!(slow.smithay_repeat_info(), (2000, 0));
}

#[test]
fn a_rate_of_zero_is_off_and_stays_expressible() {
    let off = Repeat::new(200, 0);
    assert!(off.is_disabled());
    assert_eq!(off.rate_hz(), 0);
    assert!(!Repeat::default().is_disabled());
}

#[test]
fn the_default_modifier_is_what_deed_rs_hardcoded() {
    assert_eq!(SeatModifier::default().modifiers(), awase::Modifiers::CMD);
}

#[test]
fn the_defaults_are_super_and_traditional_scrolling() {
    assert_eq!(SeatModifier::default(), SeatModifier::Super);
    assert_eq!(SeatModifier::Alt.modifiers(), awase::Modifiers::ALT);
    assert_eq!(ScrollDirection::default(), ScrollDirection::Traditional);
}

#[test]
fn the_seat_modifier_cannot_be_set_to_something_that_soft_bricks_the_box() {
    let reserved = awase::Reserved::fleet_linux();
    for m in [SeatModifier::Super, SeatModifier::Alt] {
        for key in [awase::Key::F1, awase::Key::F12, awase::Key::Delete] {
            let hk = awase::Hotkey::new(m.modifiers(), key);
            assert!(reserved.is_available(&hk), "{m:?} + {key:?} collides with a reserved escape chord");
        }
    }
}

#[test]
fn an_unconfigured_keymap_is_exactly_the_old_hardcoded_behaviour() {
    assert!(Keymap::default().is_default());
}

#[test]
fn a_keymap_carries_the_operators_layout_verbatim() {
    let km = Keymap { layout: Some("br".to_string()), ..Keymap::default() };
    assert_eq!(km.layout.as_deref(), Some("br"));
    assert!(!km.is_default());
}

#[test]
fn the_default_remaps_are_accepted() {
    let reserved = awase::Reserved::fleet_linux();
    assert_eq!(refusals(&remaps(), &reserved), vec![], "the seat's own default remap set was refused");
}

#[test]
fn remapping_a_vt_switch_key_is_refused() {
    let reserved = awase::Reserved::fleet_linux();
    let out = refusals(&[(60, 1)], &reserved);
    assert_eq!(out, vec![UkeireError::RemapOfReservedKey { code: 60, key: "F2" }]);
}

#[test]
fn a_self_remap_and_a_duplicate_source_are_both_named() {
    let reserved = awase::Reserved::fleet_linux();
    let out = refusals(&[(30, 30), (31, 1), (31, 2)], &reserved);
    assert!(out.contains(&UkeireError::SelfRemap { code: 30 }));
    assert!(out.contains(&UkeireError::DuplicateRemapSource { code: 31 }));
    assert_eq!(out.len(), 2);
}

#[test]
fn every_reserved_claim_maps_to_an_evdev_code_this_file_knows() {
    let reserved = awase::Reserved::fleet_linux();
    assert!(reserved.len() > 0, "an empty claim set protects nothing");
    let claims: Vec<String> = reserved.iter().map(|(spelling, _)| spelling.to_string()).collect();
    let protected = reserved_codes(&claims);
    assert!(protected.len() >= 12, "expected at least the 12 VT switches, derived {}", protected.len());
}

#[test]
fn refusals_are_empty_for_an_empty_remap_set() {
    assert_eq!(refusals(&[], &awase::Reserved::fleet_linux()), vec![]);
}

#[test]
fn a_remap_set_parses_against_the_fleet_policy() {
    let reserved = awase::Reserved::fleet_linux();
    let ok = Remaps::parse_against(&[(58, 1)], &reserved).expect("capslock to escape is fine");
    assert_eq!(ok.pairs(), vec![(58, 1)]);
    assert_eq!(ok.len(), 1);
    assert!(Remaps::parse_against(&[(60, 1)], &reserved).is_err());
    assert!(Remaps::default().is_empty());
}

#[test]
fn every_refusal_says_what_it_refused() {
    assert_eq!(UkeireError::SelfRemap { code: 30 }.to_string(), "remap of evdev 30 to itself is a no-op");
    assert_eq!(
        UkeireError::DuplicateRemapSource { code: 31 }.to_string(),
        "evdev 31 is remapped more than once"
    );
    assert!(UkeireError::RemapOfReservedKey { code: 60, key: "F2" }.to_string().starts_with("evdev 60 is F2, reserved"));
}

#[test]
fn the_cursor_scale_is_clamped_into_its_bounds() {
    assert_eq!(cursor_scale(0), 1);
    assert_eq!(cursor_scale(3), 3);
    assert_eq!(cursor_scale(60), 6);
}

#[test]
fn parse_holds_the_fleet_policy_itself() {
    assert_eq!(
        Remaps::parse(&[(60, 1)]).err(),
        Some(vec![UkeireError::RemapOfReservedKey { code: 60, key: "F2" }])
    );
    assert_eq!(Remaps::parse(&[(58, 1)]).map(|r| r.pairs()).ok(), Some(vec![(58, 1)]));
}
