//! The agent-facing face of the compositor: the catalog of readable
//! introspection leaves, and the typed inputs of the write verbs.

use vstd::prelude::*;

verus! {

/// The app name the introspection socket is discovered by.
pub const APP: &'static str = "omoya";

/// Every read leaf the introspection sidecar answers.
pub open spec fn leaves_spec() -> Seq<&'static str> {
    seq![
        "backend",
        "blit_fast",
        "blit_general",
        "blit_slow",
        "capture_result",
        "chord_deeds",
        "deeds_performed",
        "elements",
        "focus_rect",
        "frame_us",
        "frames",
        "gather_us",
        "geometry",
        "import_full",
        "import_partial",
        "input_attached",
        "input_devices",
        "last_frame_causes",
        "layout",
        "mode",
        "modes",
        "output",
        "owed",
        "owed_causes",
        "owed_vt_switches",
        "pointer",
        "presented",
        "seat",
        "session_active",
        "session_events",
        "socket",
        "synth_performed",
        "td_dirty_pct",
        "td_mode",
        "td_refined",
        "td_refused",
        "td_rows_dirty",
        "td_rows_examined",
        "td_shadows",
        "verbs",
        "window_app_ids",
        "windows",
    ]
}

/// Every read leaf the introspection sidecar answers.
pub fn leaves() -> (v: Vec<&'static str>)
    ensures
        v@ == leaves_spec(),
{
    let v = vec![
        "backend",
        "blit_fast",
        "blit_general",
        "blit_slow",
        "capture_result",
        "chord_deeds",
        "deeds_performed",
        "elements",
        "focus_rect",
        "frame_us",
        "frames",
        "gather_us",
        "geometry",
        "import_full",
        "import_partial",
        "input_attached",
        "input_devices",
        "last_frame_causes",
        "layout",
        "mode",
        "modes",
        "output",
        "owed",
        "owed_causes",
        "owed_vt_switches",
        "pointer",
        "presented",
        "seat",
        "session_active",
        "session_events",
        "socket",
        "synth_performed",
        "td_dirty_pct",
        "td_mode",
        "td_refined",
        "td_refused",
        "td_rows_dirty",
        "td_rows_examined",
        "td_shadows",
        "verbs",
        "window_app_ids",
        "windows",
    ];
    proof {
        assert(v@ =~= leaves_spec());
    }
    v
}

/// The leaf to read.
#[derive(Debug, Clone, PartialEq, Eq)]
pub struct ReadInput {
    pub leaf: String,
}

/// The verb to perform, e.g. `focus-right`, `close`, `spawn-terminal`.
#[derive(Debug, Clone, PartialEq, Eq)]
pub struct VerbInput {
    pub verb: String,
}

/// Text to type into the focused surface.
#[derive(Debug, Clone, PartialEq, Eq)]
pub struct TypeInput {
    pub text: String,
}

/// An evdev keycode; `pressed` omitted for a tap.
#[derive(Debug, Clone, Copy, PartialEq, Eq, Structural)]
pub struct KeyInput {
    pub code: u32,
    pub pressed: Option<bool>,
}

/// A pointer button; `None` for the left button.
#[derive(Debug, Clone, Copy, PartialEq, Eq, Structural)]
pub struct ClickInput {
    pub code: Option<u32>,
}

/// Where on the compositor's host to write a screenshot.
#[derive(Debug, Clone, PartialEq, Eq)]
pub struct CaptureInput {
    pub path: String,
}

} // verus!
