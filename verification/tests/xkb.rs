use omoya::xkb::ffi;
use omoya::xkb::{keysym_from_name, keysym_get_name, NO_SYMBOL};
use omoya::xkb::{
    Context, KeyDirection, Keymap, State, CONTEXT_NO_FLAGS, KEYMAP_FORMAT_TEXT_V1, LED_INVALID, LED_NAME_CAPS,
    LED_NAME_NUM, LED_NAME_SCROLL, MOD_INVALID, MOD_NAME_ALT, MOD_NAME_CAPS, MOD_NAME_CTRL, MOD_NAME_LOGO,
    MOD_NAME_SHIFT, STATE_LAYOUT_DEPRESSED, STATE_LAYOUT_EFFECTIVE, STATE_LAYOUT_LATCHED, STATE_LEDS,
    STATE_MODS_DEPRESSED, STATE_MODS_EFFECTIVE, STATE_MODS_LATCHED, STATE_MODS_LOCKED,
};

fn keymap() -> Keymap {
    Keymap::new_from_names(&Context::new(CONTEXT_NO_FLAGS), "", "", "", "", None, 0).expect("default layout compiles")
}

#[test]
fn default_and_us_layouts_compile() {
    let ctx = Context::new(CONTEXT_NO_FLAGS);
    assert!(Keymap::new_from_names(&ctx, "", "", "", "", None, 0).is_some());
    assert!(Keymap::new_from_names(&ctx, "evdev", "pc105", "us", "", None, 0).is_some());
}

#[test]
fn an_unsupported_layout_refuses_instead_of_lying() {
    let ctx = Context::new(CONTEXT_NO_FLAGS);
    assert!(Keymap::new_from_names(&ctx, "evdev", "pc105", "de", "", None, 0).is_none());
    assert!(Keymap::new_from_names(&ctx, "evdev", "pc105", "us", "dvorak", None, 0).is_none());
}

#[test]
fn keymap_text_is_non_empty_and_well_formed() {
    let t = keymap().get_as_string(KEYMAP_FORMAT_TEXT_V1);
    assert!(t.starts_with("xkb_keymap {"));
    assert!(t.len() > 1000);
}

#[test]
fn mod_indices_match_the_c_api() {
    let km = keymap();
    assert_eq!(km.mod_get_index(MOD_NAME_SHIFT), 0);
    assert_eq!(km.mod_get_index(MOD_NAME_CAPS), 1);
    assert_eq!(km.mod_get_index(MOD_NAME_CTRL), 2);
    assert_eq!(km.mod_get_index(MOD_NAME_ALT), 3);
    assert_eq!(km.mod_get_index(MOD_NAME_LOGO), 6);
    assert_eq!(km.mod_get_index("Nonexistent"), MOD_INVALID);
}

#[test]
fn led_indices_match_the_c_api() {
    let km = keymap();
    assert_eq!(km.led_get_index(LED_NAME_CAPS), 0);
    assert_eq!(km.led_get_index(LED_NAME_NUM), 1);
    assert_eq!(km.led_get_index(LED_NAME_SCROLL), 2);
    assert_eq!(km.led_get_index("Nope"), LED_INVALID);
}

#[test]
fn state_resolves_shift_through_the_facade() {
    let km = keymap();
    let mut st = State::new(&km);
    assert_eq!(st.key_get_one_sym(38), 0x61);
    st.update_key(50, KeyDirection::Down);
    assert_eq!(st.key_get_one_sym(38), 0x41);
    assert!(st.mod_name_is_active(MOD_NAME_SHIFT, STATE_MODS_EFFECTIVE));
}

#[test]
fn new_from_string_refuses_rather_than_pretending() {
    let ctx = Context::new(CONTEXT_NO_FLAGS);
    assert!(Keymap::new_from_string(&ctx, "xkb_keymap {};", KEYMAP_FORMAT_TEXT_V1, 0).is_none());
}

#[test]
fn ffi_constants_agree_with_the_safe_ones() {
    assert_eq!(ffi::XKB_STATE_LAYOUT_EFFECTIVE, STATE_LAYOUT_EFFECTIVE);
    assert_eq!(ffi::XKB_STATE_MODS_EFFECTIVE, STATE_MODS_EFFECTIVE);
    assert_eq!(ffi::XKB_STATE_MODS_DEPRESSED, STATE_MODS_DEPRESSED);
}

#[test]
fn layouts_iterates_exactly_the_declared_layouts() {
    let km = keymap();
    let names = km.layouts();
    assert_eq!(names.len(), km.num_layouts() as usize);
    assert_eq!(names, vec!["English (US)".to_string()]);
}

#[test]
fn led_index_is_active_agrees_with_led_name_is_active() {
    let km = keymap();
    let mut st = State::new(&km);
    let caps = km.led_get_index(LED_NAME_CAPS);
    assert!(!st.led_index_is_active(caps));
    st.update_key(66, KeyDirection::Down);
    assert!(st.led_index_is_active(caps));
    assert_eq!(st.led_index_is_active(caps), st.led_name_is_active(LED_NAME_CAPS));
    assert!(!st.led_index_is_active(LED_INVALID));
    assert!(!st.led_index_is_active(99));
}

#[test]
fn layout_zero_is_the_active_layout() {
    let km = keymap();
    let st = State::new(&km);
    assert!(st.layout_index_is_active(0, STATE_LAYOUT_EFFECTIVE));
    assert!(!st.layout_index_is_active(1, STATE_LAYOUT_EFFECTIVE));
}

#[test]
fn led_state_is_readable_through_the_facade() {
    let km = keymap();
    let mut st = State::new(&km);
    assert!(!st.led_name_is_active(LED_NAME_CAPS));
    st.update_key(66, KeyDirection::Down);
    assert!(st.led_name_is_active(LED_NAME_CAPS));
}

#[test]
fn a_context_keeps_its_flags() {
    assert_eq!(Context::new(2).get_flags(), 2);
    assert_eq!(Context::default().get_flags(), CONTEXT_NO_FLAGS);
}

#[test]
fn the_keymap_spans_the_us_keycodes() {
    let km = keymap();
    assert!(km.min_keycode() >= 8);
    assert!(km.max_keycode() > km.min_keycode());
    assert_eq!(km.layout_get_name(0), "English (US)");
    assert_eq!(km.num_layouts_for_key(38), 1);
}

#[test]
fn keysym_names_use_xkb_spelling_not_c_macros() {
    assert_eq!(keysym_get_name(0x61), "a");
    assert_eq!(keysym_get_name(0xff08), "BackSpace");
    assert_eq!(keysym_get_name(0x1008_ff12), "XF86AudioMute");
    assert_eq!(keysym_get_name(0x00ab_cdef), "0x00abcdef", "an unnamed keysym is written in hex");
}

#[test]
fn a_one_character_name_is_that_characters_keysym() {
    assert_eq!(keysym_from_name("a", 0), 0x61);
    assert_eq!(keysym_from_name("BackSpace", 0), NO_SYMBOL);
    assert_eq!(keysym_from_name("", 0), NO_SYMBOL);
}

#[test]
fn modifier_keys_do_not_repeat() {
    let km = keymap();
    assert!(km.key_repeats(38));
    assert!(km.key_repeats(9));
    assert!(!km.key_repeats(50));
    assert!(!km.key_repeats(66));
    assert!(!km.key_repeats(1), "a keycode the keymap lacks does not repeat");
}

#[test]
fn syms_by_level_clamp_to_the_last_level() {
    let km = keymap();
    assert_eq!(km.key_get_syms_by_level(38, 0, 0), vec![0x61]);
    assert_eq!(km.key_get_syms_by_level(38, 0, 1), vec![0x41]);
    assert_eq!(km.key_get_syms_by_level(38, 0, 5), vec![0x41]);
    assert_eq!(km.key_get_syms_by_level(1, 0, 0), Vec::<u32>::new());
}

#[test]
fn a_fresh_state_serialises_to_nothing() {
    let km = keymap();
    let st = State::new(&km);
    assert_eq!(st.serialize_mods(STATE_MODS_EFFECTIVE), 0);
    assert_eq!(st.serialize_layout(STATE_LAYOUT_EFFECTIVE), 0);
    assert_eq!(st.key_get_level(38, 0), 0);
    assert_eq!(st.key_get_layout(38), 0);
    assert_eq!(st.key_get_syms(38), vec![0x61]);
}

#[test]
fn update_mask_reads_back_component_by_component() {
    let km = keymap();
    let mut st = State::new(&km);
    let changed = st.update_mask(1, 0, 2, 1, 2, 3);
    assert_eq!(changed, STATE_MODS_DEPRESSED | STATE_MODS_LOCKED | STATE_LEDS | STATE_MODS_EFFECTIVE);
    assert_eq!(st.serialize_mods(STATE_MODS_DEPRESSED), 1);
    assert_eq!(st.serialize_mods(STATE_MODS_LATCHED), 0);
    assert_eq!(st.serialize_mods(STATE_MODS_LOCKED), 2);
    assert_eq!(st.serialize_mods(STATE_MODS_EFFECTIVE), 3);
    assert_eq!(st.serialize_layout(STATE_LAYOUT_DEPRESSED), 1);
    assert_eq!(st.serialize_layout(STATE_LAYOUT_LATCHED), 2);
    assert_eq!(st.serialize_layout(STATE_LAYOUT_EFFECTIVE), 3);
    assert_eq!(st.serialize_layout(STATE_LAYOUT_DEPRESSED | STATE_LAYOUT_LATCHED), 3);
    assert!(st.led_name_is_active(LED_NAME_CAPS));
    assert_eq!(st.update_mask(1, 0, 2, 0, 0, 0), 0, "writing the same masks changes nothing");
}

#[test]
fn shift_under_caps_lock_types_lower_case() {
    let km = keymap();
    let mut st = State::new(&km);
    st.update_mask(1, 0, 2, 0, 0, 0);
    assert_eq!(st.key_get_level(38, 0), 0);
    assert_eq!(st.key_get_one_sym(38), 0x61);
    st.update_mask(1, 0, 0, 0, 0, 0);
    assert_eq!(st.key_get_level(38, 0), 1);
    assert_eq!(st.key_get_syms(38), vec![0x41]);
}

#[test]
fn a_shift_press_reports_the_depressed_and_effective_components() {
    let km = keymap();
    let mut st = State::new(&km);
    assert_eq!(st.update_key(50, KeyDirection::Down), STATE_MODS_DEPRESSED | STATE_MODS_EFFECTIVE);
    assert_eq!(st.update_key(38, KeyDirection::Down), 0);
    assert_eq!(st.update_key(50, KeyDirection::Up), STATE_MODS_DEPRESSED | STATE_MODS_EFFECTIVE);
}

#[test]
fn the_state_hands_back_its_keymap() {
    let km = keymap();
    let st = State::new(&km);
    let again = st.get_keymap();
    assert_eq!(again.layout_get_name(0), km.layout_get_name(0));
    assert_eq!(again.min_keycode(), km.min_keycode());
}

#[test]
fn caps_lock_toggles_on_the_press_and_a_second_press_undoes_it() {
    let km = keymap();
    let mut st = State::new(&km);
    assert_eq!(st.update_key(66, KeyDirection::Down), STATE_MODS_LOCKED | STATE_LEDS | STATE_MODS_EFFECTIVE);
    assert_eq!(st.update_key(66, KeyDirection::Up), 0, "the release toggles nothing");
    assert_eq!(st.serialize_mods(STATE_MODS_LOCKED), 2);
    st.update_key(66, KeyDirection::Down);
    st.update_key(66, KeyDirection::Up);
    assert_eq!(st.serialize_mods(STATE_MODS_LOCKED), 0);
    assert!(!st.led_name_is_active(LED_NAME_CAPS));
}

#[test]
fn releasing_one_of_two_shift_keys_keeps_shift() {
    let km = keymap();
    let mut st = State::new(&km);
    st.update_key(50, KeyDirection::Down);
    st.update_key(62, KeyDirection::Down);
    st.update_key(50, KeyDirection::Up);
    assert!(st.mod_name_is_active(MOD_NAME_SHIFT, STATE_MODS_EFFECTIVE), "right Shift is still held");
    assert_eq!(st.key_get_one_sym(38), 0x41);
    st.update_key(62, KeyDirection::Up);
    assert!(!st.mod_name_is_active(MOD_NAME_SHIFT, STATE_MODS_EFFECTIVE));
    assert_eq!(st.key_get_one_sym(38), 0x61);
}

#[test]
fn a_release_drops_a_modifier_set_only_by_mask() {
    let km = keymap();
    let mut st = State::new(&km);
    st.update_mask(1, 0, 0, 0, 0, 0);
    st.update_key(38, KeyDirection::Down);
    st.update_key(38, KeyDirection::Up);
    assert_eq!(st.serialize_mods(STATE_MODS_DEPRESSED), 0, "no held key holds Shift down");
}
