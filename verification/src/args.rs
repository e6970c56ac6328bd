//! The command line: which seat, which backends, and what to run in it.
//!
//! Every backend is typed rather than guessed, and a backend that is not in
//! this build is refused by name, saying why, rather than as an unknown value.

use vstd::prelude::*;
use vstd::string::{StringExecFns, StrSliceExecFns};
use crate::state::{SeatMode, mode_parse};
use crate::text::{str_eq, push_char};

verus! {

/// Which backend drives the pixels. This build takes a display; the nested
/// development backend is not in it.
#[derive(Debug, Clone, Copy, PartialEq, Eq, Structural)]
pub enum Backend {
    /// Take a display through DRM.
    Drm,
}

/// Which session implementation arbitrates devices.
#[derive(Debug, Clone, Copy, PartialEq, Eq, Structural)]
pub enum SessionBackend {
    /// logind over D-Bus, and the only one in this build.
    Logind,
}

/// Which implementation supplies input events.
#[derive(Debug, Clone, Copy, PartialEq, Eq, Structural)]
pub enum InputBackendKind {
    /// evdev straight from the kernel, and the only one in this build.
    Evdev,
}

/// Which rasterizer paints the frame.
#[derive(Debug, Clone, Copy, PartialEq, Eq, Structural)]
pub enum RendererKind {
    /// nuri, and the only one in this build.
    Nuri,
}

/// What the operator asked for on the command line.
#[derive(Debug, Clone, PartialEq, Eq)]
pub struct Args {
    pub mode: SeatMode,
    /// A command to spawn into the new seat once it is up.
    pub spawn: Option<Vec<String>>,
    /// The seat's application launcher, bound to Ctrl+Space.
    pub launcher: Option<Vec<String>>,
    pub backend: Backend,
    pub session: SessionBackend,
    pub input: InputBackendKind,
    pub renderer: RendererKind,
}

/// The settings the command line decides, as plain values: mode, spawn
/// command, launcher command, backend, session, input and renderer.
pub type ArgsView = (
    SeatMode,
    Option<Seq<Seq<char>>>,
    Option<Seq<Seq<char>>>,
    Backend,
    SessionBackend,
    InputBackendKind,
    RendererKind,
);

/// The strings of `v`, each by its characters.
pub open spec fn strings(v: Seq<String>) -> Seq<Seq<char>> {
    Seq::new(v.len(), |i: int| v[i]@)
}

/// A command, each word by its characters.
pub open spec fn command(c: Option<Vec<String>>) -> Option<Seq<Seq<char>>> {
    match c {
        Some(v) => Some(strings(v@)),
        None => None,
    }
}

impl View for Args {
    type V = ArgsView;

    open spec fn view(&self) -> ArgsView {
        (
            self.mode,
            command(self.spawn),
            command(self.launcher),
            self.backend,
            self.session,
            self.input,
            self.renderer,
        )
    }
}

/// The settings with nothing on the command line.
pub open spec fn defaults() -> ArgsView {
    (
        SeatMode::Session,
        None,
        None,
        Backend::Drm,
        SessionBackend::Logind,
        InputBackendKind::Evdev,
        RendererKind::Nuri,
    )
}

/// Whether `c` is white space by Unicode's `White_Space` property.
pub open spec fn is_space(c: char) -> bool {
    let u = c as u32;
    (9 <= u && u <= 13) || u == 32 || u == 0x85 || u == 0xa0 || u == 0x1680 || (0x2000 <= u && u
        <= 0x200a) || u == 0x2028 || u == 0x2029 || u == 0x202f || u == 0x205f || u == 0x3000
}

/// The words of `s[i..]`, when the word being read so far is `cur`.
pub open spec fn words_from(s: Seq<char>, i: int, cur: Seq<char>) -> Seq<Seq<char>>
    decreases s.len() - i,
{
    if i < 0 || i >= s.len() {
        if cur.len() > 0 {
            seq![cur]
        } else {
            Seq::empty()
        }
    } else if is_space(s[i]) {
        (if cur.len() > 0 {
            seq![cur]
        } else {
            Seq::empty()
        }) + words_from(s, i + 1, Seq::empty())
    } else {
        words_from(s, i + 1, cur.push(s[i]))
    }
}

/// The words of `s`: its longest runs of characters that are not white
/// space, in order.
pub open spec fn words(s: Seq<char>) -> Seq<Seq<char>> {
    words_from(s, 0, Seq::empty())
}

/// The help text, which `-h` and `--help` answer with.
pub open spec fn help_text() -> Seq<char> {
    "omoya \u{2014} the pleme-io Wayland compositor\n\n  omoya [--mode entrance|session] [--backend nested|drm]\n        [--session logind|libseat] [--input evdev|libinput]\n        [--renderer nuri|pixman] [--launcher CMD]\n        [-- CMD ARGS...]\n\n--backend nested  composite into an existing session's window\n--backend drm     take a display (M4a: scanout only, no input)\n--session libseat the C library (default \u{2014} what has been running)\n\n  \u{2605} THE DEFAULTS ARE PURE RUST. Each C library is one flag away.\n\n--session logind  The session backend. logind over D-Bus, pure\n                  Rust; libseat is NOT LINKED. logind itself is a C\n                  daemon \u{2014} see pending-omoya-direct-session.\n--input evdev     DEFAULT. Kernel evdev, pure Rust. NO pointer\n                  acceleration, tap-to-click or gestures \u{2014} that is\n                  libinput policy nobody has reimplemented.\n--input libinput  the C library, and it carries that policy.\n--renderer nuri   The renderer. pleme-io's own, zero dependencies.\n                  libpixman is NOT LINKED \u{2014} the feature is off.\n\n--launcher CMD    what Ctrl+Space opens. Split on whitespace, NOT\n                  through a shell \u{2014} a launcher needing shell syntax\n                  should be a script. Absent means Ctrl+Space says so\n                  in the log rather than opening something else.\n\n`lock` is not a launchable mode: it is in-process session\nstate (theory/OMOYA.md \u{a7}4.2)."@
}

/// What the command line `args` decides, read from the settings `acc`: the
/// settings, or the refusal of the first argument that is wrong.
pub open spec fn parse_from(args: Seq<Seq<char>>, acc: ArgsView) -> Result<ArgsView, Seq<char>>
    decreases args.len(),
{
    if args.len() == 0 {
        Ok(acc)
    } else {
        let a = args[0];
        let rest = args.drop_first();
        if a == "--mode"@ {
            if rest.len() == 0 {
                Err("--mode needs a value (entrance | session)"@)
            } else {
                match mode_parse(rest[0]) {
                    Ok(m) => parse_from(rest.drop_first(), (m, acc.1, acc.2, acc.3, acc.4, acc.5, acc.6)),
                    Err(e) => Err(e),
                }
            }
        } else if a == "--backend"@ {
            if rest.len() == 0 {
                Err("--backend needs a value (nested | drm)"@)
            } else if rest[0] == "drm"@ || rest[0] == "kms"@ {
                parse_from(rest.drop_first(), (acc.0, acc.1, acc.2, Backend::Drm, acc.4, acc.5, acc.6))
            } else {
                Err("unknown backend `"@ + rest[0] + "` \u{2014} expected `nested` or `drm`"@)
            }
        } else if a == "--session"@ {
            if rest.len() == 0 {
                Err("--session needs a value (libseat | logind)"@)
            } else if rest[0] == "logind"@ {
                parse_from(rest.drop_first(), (acc.0, acc.1, acc.2, acc.3, SessionBackend::Logind, acc.5, acc.6))
            } else if rest[0] == "libseat"@ {
                Err("session backend `libseat` is not in this build \u{2014} the backend_session_libseat feature is off and libseat is not linked. `logind` is the only backend."@)
            } else {
                Err("unknown session backend `"@ + rest[0] + "` \u{2014} expected `libseat` or `logind`"@)
            }
        } else if a == "--input"@ {
            if rest.len() == 0 {
                Err("--input needs a value (libinput | evdev)"@)
            } else if rest[0] == "evdev"@ {
                parse_from(rest.drop_first(), (acc.0, acc.1, acc.2, acc.3, acc.4, InputBackendKind::Evdev, acc.6))
            } else if rest[0] == "libinput"@ {
                Err("input backend `libinput` is not in this build \u{2014} the backend_libinput/backend_udev features are off. `evdev` is the only backend, and it implements no pointer acceleration, tap-to-click or gestures (pending-omoya-input-policy)."@)
            } else {
                Err("unknown input backend `"@ + rest[0] + "` \u{2014} expected `evdev`"@)
            }
        } else if a == "--renderer"@ {
            if rest.len() == 0 {
                Err("--renderer needs a value (nuri | pixman)"@)
            } else if rest[0] == "nuri"@ {
                parse_from(rest.drop_first(), (acc.0, acc.1, acc.2, acc.3, acc.4, acc.5, RendererKind::Nuri))
            } else if rest[0] == "pixman"@ {
                Err("renderer `pixman` is not in this build \u{2014} the renderer_pixman feature is off and libpixman is not linked. `nuri` is the only renderer."@)
            } else {
                Err("unknown renderer `"@ + rest[0] + "` \u{2014} expected `nuri`"@)
            }
        } else if a == "--launcher"@ {
            if rest.len() == 0 {
                Err("--launcher needs a command (e.g. --launcher tobira)"@)
            } else if words(rest[0]).len() == 0 {
                Err("--launcher was given an empty command"@)
            } else {
                parse_from(rest.drop_first(), (acc.0, acc.1, Some(words(rest[0])), acc.3, acc.4, acc.5, acc.6))
            }
        } else if a == "--"@ {
            if rest.len() == 0 {
                Ok(acc)
            } else {
                Ok((acc.0, Some(rest), acc.2, acc.3, acc.4, acc.5, acc.6))
            }
        } else if a == "-h"@ || a == "--help"@ {
            Err(help_text())
        } else {
            Err("unknown argument `"@ + a + "` (try --help)"@)
        }
    }
}

/// What the command line `args` (the program's name left off) decides.
pub open spec fn parsed(args: Seq<Seq<char>>) -> Result<ArgsView, Seq<char>> {
    parse_from(args, defaults())
}

/// Whether `c` is white space by Unicode's `White_Space` property.
pub fn is_space_char(c: char) -> (r: bool)
    ensures
        r == is_space(c),
{
    let u = c as u32;
    (9 <= u && u <= 13) || u == 32 || u == 0x85 || u == 0xa0 || u == 0x1680 || (0x2000 <= u && u
        <= 0x200a) || u == 0x2028 || u == 0x2029 || u == 0x202f || u == 0x205f || u == 0x3000
}

/// Split `s` into its words on white space: no quoting, no expansion.
pub fn split_words(s: &str) -> (r: Vec<String>)
    ensures
        strings(r@) == words(s@),
{
    let n = s.unicode_len();
    let mut out: Vec<String> = Vec::new();
    let mut cur = String::new();
    let mut i: usize = 0;
    while i < n
        invariant
            n == s@.len(),
            i <= n,
            strings(out@) + words_from(s@, i as int, cur@) == words(s@),
        decreases n - i,
    {
        let c = s.get_char(i);
        let ghost before = strings(out@);
        let ghost cur0 = cur@;
        if is_space_char(c) {
            if cur.unicode_len() > 0 {
                out.push(cur);
                proof {
                    assert(strings(out@) =~= before.push(cur0));
                }
            }
            cur = String::new();
            proof {
                assert(strings(out@) + words_from(s@, i + 1, cur@) =~= before + words_from(s@, i as int, cur0));
            }
        } else {
            push_char(&mut cur, c);
        }
        i = i + 1;
    }
    if cur.unicode_len() > 0 {
        let ghost before = strings(out@);
        let ghost cur0 = cur@;
        out.push(cur);
        proof {
            assert(strings(out@) =~= before.push(cur0));
            assert(strings(out@) =~= before + words_from(s@, i as int, cur0));
        }
    } else {
        proof {
            assert(strings(out@) =~= strings(out@) + words_from(s@, i as int, cur@));
        }
    }
    out
}


/// The value after the flag at `i`, when there is one.
fn value_at(args: &[String], i: usize) -> (r: Option<&str>)
    ensures
        match r {
            Some(v) => i + 1 < args@.len() && v@ == args@[i + 1]@,
            None => i + 1 >= args@.len(),
        },
{
    if i < args.len() && args.len() - i > 1 {
        Some(args[i + 1].as_str())
    } else {
        None
    }
}

/// Read the command line, the program's name left off.
pub fn parse_args(args: &[String]) -> (r: Result<Args, String>)
    ensures
        match r {
            Ok(a) => parsed(strings(args@)) == Ok::<ArgsView, Seq<char>>(a@),
            Err(e) => parsed(strings(args@)) == Err::<ArgsView, Seq<char>>(e@),
        },
{
    let mut mode = SeatMode::Session;
    let mut spawn: Option<Vec<String>> = None;
    let mut launcher: Option<Vec<String>> = None;
    let mut backend = Backend::Drm;
    let mut session = SessionBackend::Logind;
    let mut input = InputBackendKind::Evdev;
    let mut renderer = RendererKind::Nuri;
    let ghost all = strings(args@);
    let mut i: usize = 0;
    proof {
        assert(all.skip(0) =~= all);
    }
    while i < args.len()
        invariant
            i <= args@.len(),
            all == strings(args@),
            parsed(all) == parse_from(
                all.skip(i as int),
                (mode, command(spawn), command(launcher), backend, session, input, renderer),
            ),
        decreases args@.len() - i,
    {
        let a = args[i].as_str();
        let ghost acc = (mode, command(spawn), command(launcher), backend, session, input, renderer);
        let ghost here = all.skip(i as int);
        proof {
            assert(here[0] == a@);
            assert(here.drop_first() =~= all.skip(i + 1));
            if i + 1 < args@.len() {
                assert(here.drop_first()[0] == args@[i + 1]@);
                assert(here.drop_first().drop_first() =~= all.skip(i + 2));
            }
        }
        if str_eq(a, "--mode") {
            let v = match value_at(args, i) {
                Some(v) => v,
                None => {
                    return Err(String::from_str("--mode needs a value (entrance | session)"));
                },
            };
            match SeatMode::parse(v) {
                Ok(m) => {
                    mode = m;
                },
                Err(e) => {
                    return Err(e);
                },
            }
            i = i + 2;
        } else if str_eq(a, "--backend") {
            let v = match value_at(args, i) {
                Some(v) => v,
                None => {
                    return Err(String::from_str("--backend needs a value (nested | drm)"));
                },
            };
            if str_eq(v, "drm") || str_eq(v, "kms") {
                backend = Backend::Drm;
            } else {
                let mut e = String::from_str("unknown backend `");
                e.append(v);
                e.append("` \u{2014} expected `nested` or `drm`");
                return Err(e);
            }
            i = i + 2;
        } else if str_eq(a, "--session") {
            let v = match value_at(args, i) {
                Some(v) => v,
                None => {
                    return Err(String::from_str("--session needs a value (libseat | logind)"));
                },
            };
            if str_eq(v, "logind") {
                session = SessionBackend::Logind;
            } else if str_eq(v, "libseat") {
                return Err(String::from_str("session backend `libseat` is not in this build \u{2014} the backend_session_libseat feature is off and libseat is not linked. `logind` is the only backend."));
            } else {
                let mut e = String::from_str("unknown session backend `");
                e.append(v);
                e.append("` \u{2014} expected `libseat` or `logind`");
                return Err(e);
            }
            i = i + 2;
        } else if str_eq(a, "--input") {
            let v = match value_at(args, i) {
                Some(v) => v,
                None => {
                    return Err(String::from_str("--input needs a value (libinput | evdev)"));
                },
            };
            if str_eq(v, "evdev") {
                input = InputBackendKind::Evdev;
            } else if str_eq(v, "libinput") {
                return Err(String::from_str("input backend `libinput` is not in this build \u{2014} the backend_libinput/backend_udev features are off. `evdev` is the only backend, and it implements no pointer acceleration, tap-to-click or gestures (pending-omoya-input-policy)."));
            } else {
                let mut e = String::from_str("unknown input backend `");
                e.append(v);
                e.append("` \u{2014} expected `evdev`");
                return Err(e);
            }
            i = i + 2;
        } else if str_eq(a, "--renderer") {
            let v = match value_at(args, i) {
                Some(v) => v,
                None => {
                    return Err(String::from_str("--renderer needs a value (nuri | pixman)"));
                },
            };
            if str_eq(v, "nuri") {
                renderer = RendererKind::Nuri;
            } else if str_eq(v, "pixman") {
                return Err(String::from_str("renderer `pixman` is not in this build \u{2014} the renderer_pixman feature is off and libpixman is not linked. `nuri` is the only renderer."));
            } else {
                let mut e = String::from_str("unknown renderer `");
                e.append(v);
                e.append("` \u{2014} expected `nuri`");
                return Err(e);
            }
            i = i + 2;
        } else if str_eq(a, "--launcher") {
            let v = match value_at(args, i) {
                Some(v) => v,
                None => {
                    return Err(String::from_str("--launcher needs a command (e.g. --launcher tobira)"));
                },
            };
            let parts = split_words(v);
            if parts.len() == 0 {
                return Err(String::from_str("--launcher was given an empty command"));
            }
            launcher = Some(parts);
            i = i + 2;
        } else if str_eq(a, "--") {
            if i + 1 < args.len() {
                let mut rest: Vec<String> = Vec::new();
                let mut j: usize = i + 1;
                while j < args.len()
                    invariant
                        i + 1 <= j <= args@.len(),
                        all == strings(args@),
                        strings(rest@) =~= all.subrange(i + 1, j as int),
                    decreases args@.len() - j,
                {
                    let ghost before = strings(rest@);
                    rest.push(args[j].clone());
                    proof {
                        assert(strings(rest@) =~= before.push(all[j as int]));
                    }
                    j = j + 1;
                }
                proof {
                    assert(strings(rest@) =~= here.drop_first());
                }
                spawn = Some(rest);
            }
            return Ok(Args { mode, spawn, launcher, backend, session, input, renderer });
        } else if str_eq(a, "-h") || str_eq(a, "--help") {
            return Err(String::from_str("omoya \u{2014} the pleme-io Wayland compositor\n\n  omoya [--mode entrance|session] [--backend nested|drm]\n        [--session logind|libseat] [--input evdev|libinput]\n        [--renderer nuri|pixman] [--launcher CMD]\n        [-- CMD ARGS...]\n\n--backend nested  composite into an existing session's window\n--backend drm     take a display (M4a: scanout only, no input)\n--session libseat the C library (default \u{2014} what has been running)\n\n  \u{2605} THE DEFAULTS ARE PURE RUST. Each C library is one flag away.\n\n--session logind  The session backend. logind over D-Bus, pure\n                  Rust; libseat is NOT LINKED. logind itself is a C\n                  daemon \u{2014} see pending-omoya-direct-session.\n--input evdev     DEFAULT. Kernel evdev, pure Rust. NO pointer\n                  acceleration, tap-to-click or gestures \u{2014} that is\n                  libinput policy nobody has reimplemented.\n--input libinput  the C library, and it carries that policy.\n--renderer nuri   The renderer. pleme-io's own, zero dependencies.\n                  libpixman is NOT LINKED \u{2014} the feature is off.\n\n--launcher CMD    what Ctrl+Space opens. Split on whitespace, NOT\n                  through a shell \u{2014} a launcher needing shell syntax\n                  should be a script. Absent means Ctrl+Space says so\n                  in the log rather than opening something else.\n\n`lock` is not a launchable mode: it is in-process session\nstate (theory/OMOYA.md \u{a7}4.2)."));
        } else {
            let mut e = String::from_str("unknown argument `");
            e.append(a);
            e.append("` (try --help)");
            return Err(e);
        }
    }
    proof {
        assert(all.skip(i as int) =~= Seq::<Seq<char>>::empty());
    }
    Ok(Args { mode, spawn, launcher, backend, session, input, renderer })
}

/// `--` ends the command line: whatever follows it, flags included, is the
/// command to spawn, word for word, and nothing after it is read as a flag.
pub proof fn lemma_separator_is_terminal(rest: Seq<Seq<char>>)
    requires
        rest.len() > 0,
    ensures
        parsed(seq!["--"@] + rest) == Ok::<ArgsView, Seq<char>>(
            (
                SeatMode::Session,
                Some(rest),
                None,
                Backend::Drm,
                SessionBackend::Logind,
                InputBackendKind::Evdev,
                RendererKind::Nuri,
            ),
        ),
{
    let all = seq!["--"@] + rest;
    assert(all[0] == "--"@);
    assert(all.drop_first() =~= rest);
    reveal_strlit("--");
    reveal_strlit("--mode");
    reveal_strlit("--backend");
    reveal_strlit("--session");
    reveal_strlit("--input");
    reveal_strlit("--renderer");
    reveal_strlit("--launcher");
    assert("--"@ != "--mode"@ && "--"@ != "--backend"@ && "--"@ != "--session"@ && "--"@ != "--input"@
        && "--"@ != "--renderer"@ && "--"@ != "--launcher"@) by {
        assert("--"@.len() == 2);
    }
}

} // verus!
