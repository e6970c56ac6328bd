use omoya::synth::{evdev_for, expand, key_for_char, keymap_for, Step, Synth, KEY_LEFTSHIFT, KEY_RIGHTALT, MOD_SHIFT};

fn us() -> hairetsu::Keymap {
    keymap_for("us")
}

#[test]
fn a_lowercase_run_needs_no_shift() {
    let steps = expand(&Synth::Text("abc".into()), &us()).unwrap();
    assert!(
        !steps.iter().any(|s| matches!(s, Step::Key { code: KEY_LEFTSHIFT, .. })),
        "no shift for lowercase"
    );
    assert_eq!(steps.len(), 6, "three characters, press and release each");
}

#[test]
fn shift_is_held_across_a_run_not_tapped_per_character() {
    let steps = expand(&Synth::Text("ABC".into()), &us()).unwrap();
    let shifts = steps.iter().filter(|s| matches!(s, Step::Key { code: KEY_LEFTSHIFT, .. })).count();
    assert_eq!(shifts, 2, "one press before the run and one release after, not two per char");
}

#[test]
fn the_modifier_is_never_left_down() {
    for text in ["A", "aA", "Aa", "!", "hello World!"] {
        let steps = expand(&Synth::Text(text.into()), &us()).unwrap();
        let mut held = false;
        for s in &steps {
            if let Step::Key { code: KEY_LEFTSHIFT, pressed } = s {
                held = *pressed;
            }
        }
        assert!(!held, "{text:?} left shift down");
    }
}

#[test]
fn every_press_has_its_release() {
    let steps = expand(&Synth::Text("Hello, World!".into()), &us()).unwrap();
    let mut down = std::collections::HashSet::new();
    for s in &steps {
        if let Step::Key { code, pressed } = s {
            if *pressed {
                assert!(down.insert(*code), "{code} pressed twice without release");
            } else {
                assert!(down.remove(code), "{code} released without press");
            }
        }
    }
    assert!(down.is_empty(), "keys left down: {down:?}");
}

#[test]
fn an_unmappable_character_is_refused_not_skipped() {
    let e = expand(&Synth::Text("héllo".into()), &us()).unwrap_err();
    assert!(e.contains('é'), "the refusal must name the character: {e}");
    assert!(e.contains("English (US)"), "the refusal must name the layout: {e}");
    assert!(expand(&Synth::Text("hello".into()), &us()).is_ok());
}

#[test]
fn the_layout_table_round_trips_the_printable_ascii_it_claims() {
    let mut seen: std::collections::HashMap<(u32, bool), char> = std::collections::HashMap::new();
    for c in (0x20u8..0x7f).map(char::from) {
        if let Some(k) = evdev_for(c) {
            if let Some(prev) = seen.insert(k, c) {
                panic!("{c:?} and {prev:?} both map to {k:?}");
            }
        }
    }
    let us = us();
    for c in (0x20u8..0x7f).map(char::from) {
        let old = evdev_for(c);
        let new = key_for_char(&us, c).ok().map(|(code, mods)| (code, mods & MOD_SHIFT != 0));
        assert_eq!(old, new, "{c:?}: retired table says {old:?}, layout lookup says {new:?}");
    }
    assert_eq!(evdev_for('a'), Some((30, false)), "KEY_A");
    assert_eq!(evdev_for('z'), Some((44, false)), "KEY_Z");
    assert_eq!(evdev_for('1'), Some((2, false)), "KEY_1");
    assert_eq!(evdev_for('q'), Some((16, false)), "KEY_Q");
    assert_eq!(evdev_for(' '), Some((57, false)), "KEY_SPACE");
    assert_eq!(evdev_for('\n'), Some((28, false)), "KEY_ENTER");
    assert_eq!(evdev_for('A'), Some((30, true)), "shifted KEY_A");
}

#[test]
fn a_key_and_a_button_are_one_step_each() {
    assert_eq!(
        expand(&Synth::Key { code: 30, pressed: true }, &us()).unwrap(),
        vec![Step::Key { code: 30, pressed: true }]
    );
    assert_eq!(
        expand(&Synth::Button { code: 272, pressed: false }, &us()).unwrap(),
        vec![Step::Button { code: 272, pressed: false }]
    );
}

#[test]
fn a_capital_is_bracketed_by_one_shift_press_and_release() {
    let steps = expand(&Synth::Text("A".into()), &us()).unwrap();
    assert_eq!(
        steps,
        vec![
            Step::Key { code: KEY_LEFTSHIFT, pressed: true },
            Step::Key { code: 30, pressed: true },
            Step::Key { code: 30, pressed: false },
            Step::Key { code: KEY_LEFTSHIFT, pressed: false },
        ]
    );
    assert!(!steps.iter().any(|s| matches!(s, Step::Key { code: KEY_RIGHTALT, .. })));
}

#[test]
fn a_character_with_no_key_is_refused_by_name() {
    let e = key_for_char(&us(), 'ç').unwrap_err();
    assert!(e.starts_with("'ç' is not reachable by one keystroke on layout \"English (US)\""), "{e}");
    assert_eq!(evdev_for('ç'), None);
}

#[test]
fn shift_is_pressed_once_for_each_run_of_shifted_characters() {
    let steps = expand(&Synth::Text("ABcD!e".into()), &us()).unwrap();
    let presses = steps
        .iter()
        .filter(|s| matches!(s, Step::Key { code: KEY_LEFTSHIFT, pressed: true }))
        .count();
    assert_eq!(presses, 2, "one press for \"AB\", one for \"D!\"");
}
