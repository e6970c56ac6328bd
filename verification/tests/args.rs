use omoya::args::{parse_args, split_words, Backend, InputBackendKind, RendererKind, SessionBackend};
use omoya::state::SeatMode;

fn argv(v: &[&str]) -> Vec<String> {
    v.iter().map(|s| s.to_string()).collect()
}

#[test]
fn no_arguments_is_a_session_on_the_pure_rust_defaults() {
    let a = parse_args(&[]).unwrap();
    assert_eq!(a.mode, SeatMode::Session);
    assert_eq!(a.backend, Backend::Drm);
    assert_eq!(a.session, SessionBackend::Logind);
    assert_eq!(a.input, InputBackendKind::Evdev);
    assert_eq!(a.renderer, RendererKind::Nuri);
    assert_eq!(a.spawn, None);
    assert_eq!(a.launcher, None);
}

#[test]
fn everything_after_the_separator_is_the_command_to_spawn() {
    let a = parse_args(&argv(&["--mode", "entrance", "--", "mado", "--mode", "x"])).unwrap();
    assert_eq!(a.mode, SeatMode::Entrance);
    assert_eq!(a.spawn, Some(argv(&["mado", "--mode", "x"])));
    assert_eq!(parse_args(&argv(&["--"])).unwrap().spawn, None);
}

#[test]
fn the_launcher_is_split_on_white_space_and_never_through_a_shell() {
    let a = parse_args(&argv(&["--launcher", "  tobira  --x\t'y z'"])).unwrap();
    assert_eq!(a.launcher, Some(argv(&["tobira", "--x", "'y", "z'"])));
    assert_eq!(
        parse_args(&argv(&["--launcher", "   "])).unwrap_err(),
        "--launcher was given an empty command"
    );
    assert_eq!(split_words("a\u{3000}b"), argv(&["a", "b"]));
}

#[test]
fn a_flag_without_its_value_says_what_it_needed() {
    assert_eq!(parse_args(&argv(&["--mode"])).unwrap_err(), "--mode needs a value (entrance | session)");
    assert_eq!(parse_args(&argv(&["--backend"])).unwrap_err(), "--backend needs a value (nested | drm)");
}

#[test]
fn a_backend_not_in_this_build_is_refused_by_name() {
    assert!(parse_args(&argv(&["--session", "libseat"])).unwrap_err().contains("not in this build"));
    assert!(parse_args(&argv(&["--input", "libinput"])).unwrap_err().contains("not in this build"));
    assert!(parse_args(&argv(&["--renderer", "pixman"])).unwrap_err().contains("not in this build"));
    assert_eq!(
        parse_args(&argv(&["--backend", "nested"])).unwrap_err(),
        "unknown backend `nested` \u{2014} expected `nested` or `drm`"
    );
    assert_eq!(parse_args(&argv(&["--backend", "kms"])).unwrap().backend, Backend::Drm);
}

#[test]
fn an_unknown_argument_points_at_help() {
    assert_eq!(parse_args(&argv(&["--frobnicate"])).unwrap_err(), "unknown argument `--frobnicate` (try --help)");
    assert!(parse_args(&argv(&["-h"])).unwrap_err().starts_with("omoya \u{2014} the pleme-io Wayland compositor"));
    assert_eq!(parse_args(&argv(&["--mode", "lock"])).unwrap_err(), SeatMode::parse("lock").unwrap_err());
}
