//! What the seat tells clients it can do, and what makes each claim true.
//!
//! A Wayland global is a promise: binding one is a client saying "I will
//! build on this". So the catalog below is a list of promises, each paired
//! with the thing that keeps it, and a list of what is deliberately withheld
//! and why.

use vstd::prelude::*;

verus! {

/// What makes an advertised global's promise true.
#[derive(Debug, Clone, Copy, PartialEq, Eq)]
pub enum Served {
    /// A code path honours it; the string names where.
    By(&'static str),
    /// The protocol is a hint the compositor may ignore, by its own spec.
    HintOnly(&'static str),
}

/// One global the seat advertises.
#[derive(Debug, Clone, Copy, PartialEq, Eq)]
pub struct Protocol {
    /// The wire interface a client binds.
    pub interface: &'static str,
    /// The delegate that wires it, without its `delegate_` prefix.
    pub delegate: &'static str,
    /// What keeps the promise.
    pub served: Served,
}

/// Every global the seat advertises, and what serves it, in wiring order.
pub open spec fn advertised_spec() -> Seq<Protocol> {
    seq![
        Protocol { interface: "wl_compositor", delegate: "compositor", served: Served::By("handlers.rs CompositorHandler::commit \u{2014} damage, shadows, layout") },
        Protocol { interface: "wl_shm", delegate: "shm", served: Served::By("nuri_renderer / kasane_renderer import shm buffers") },
        Protocol { interface: "xdg_wm_base", delegate: "xdg_shell", served: Served::By("handlers.rs XdgShellHandler + layout.rs tiling") },
        Protocol { interface: "wp_presentation", delegate: "presentation", served: Served::By("drm.rs presentation feedback on flip completion") },
        Protocol { interface: "zxdg_decoration_manager_v1", delegate: "xdg_decoration", served: Served::By("chrome.rs draws server-side decorations") },
        Protocol { interface: "zwlr_layer_shell_v1", delegate: "layer_shell", served: Served::By("handlers.rs WlrLayerShellHandler + layer surfaces in the render pass") },
        Protocol { interface: "wl_seat", delegate: "seat", served: Served::By("input.rs \u{2014} keyboard, pointer, focus") },
        Protocol { interface: "wl_data_device_manager", delegate: "data_device", served: Served::By("smithay's own selection plumbing (one of three planes; see below)") },
        Protocol { interface: "wl_output / xdg_output", delegate: "output", served: Served::By("drm.rs / winit.rs map a real output with a mode") },
        Protocol { interface: "zwp_relative_pointer_manager_v1", delegate: "relative_pointer", served: Served::By("input.rs pointer.relative_motion on every PointerMotion event") },
        Protocol { interface: "zwp_linux_dmabuf_v1", delegate: "dmabuf", served: Served::By("handlers.rs DmabufHandler::dmabuf_imported + the renderer's import path") },
    ]
}

/// Every global the seat advertises, and what serves it.
pub fn advertised() -> (v: Vec<Protocol>)
    ensures
        v@ == advertised_spec(),
{
    let v = vec![
        Protocol { interface: "wl_compositor", delegate: "compositor", served: Served::By("handlers.rs CompositorHandler::commit \u{2014} damage, shadows, layout") },
        Protocol { interface: "wl_shm", delegate: "shm", served: Served::By("nuri_renderer / kasane_renderer import shm buffers") },
        Protocol { interface: "xdg_wm_base", delegate: "xdg_shell", served: Served::By("handlers.rs XdgShellHandler + layout.rs tiling") },
        Protocol { interface: "wp_presentation", delegate: "presentation", served: Served::By("drm.rs presentation feedback on flip completion") },
        Protocol { interface: "zxdg_decoration_manager_v1", delegate: "xdg_decoration", served: Served::By("chrome.rs draws server-side decorations") },
        Protocol { interface: "zwlr_layer_shell_v1", delegate: "layer_shell", served: Served::By("handlers.rs WlrLayerShellHandler + layer surfaces in the render pass") },
        Protocol { interface: "wl_seat", delegate: "seat", served: Served::By("input.rs \u{2014} keyboard, pointer, focus") },
        Protocol { interface: "wl_data_device_manager", delegate: "data_device", served: Served::By("smithay's own selection plumbing (one of three planes; see below)") },
        Protocol { interface: "wl_output / xdg_output", delegate: "output", served: Served::By("drm.rs / winit.rs map a real output with a mode") },
        Protocol { interface: "zwp_relative_pointer_manager_v1", delegate: "relative_pointer", served: Served::By("input.rs pointer.relative_motion on every PointerMotion event") },
        Protocol { interface: "zwp_linux_dmabuf_v1", delegate: "dmabuf", served: Served::By("handlers.rs DmabufHandler::dmabuf_imported + the renderer's import path") },
    ];
    proof {
        assert(v@ =~= advertised_spec());
    }
    v
}

/// What the seat deliberately does not advertise, and why.
pub open spec fn withheld_spec() -> Seq<(&'static str, &'static str)> {
    seq![
        ("wp_viewporter", "one line to advertise; means nothing until the renderer applies the src/dst rects. Advertising it would make every scaled client render at the wrong size with no error. Prerequisite for fractional scale and for xwayland-satellite."),
        ("wp_fractional_scale_v1", "requires SENDING a preferred scale the compositor actually honours; needs wp_viewporter first, and wl_compositor v6 for preferred_buffer_scale."),
        ("wp_alpha_modifier_v1", "the client sets an alpha the compositor must APPLY in the blend. Ignoring it renders opaque what the client asked to be transparent."),
        ("wp_single_pixel_buffer_v1", "a buffer TYPE the renderer must be able to import. Advertising it before nuri/kasane handle it yields a broken surface, not a solid one."),
        ("zwp_pointer_gestures_v1", "the compositor must SEND pinch/swipe events; evdev_backend.rs does not synthesise them. A bound client would wait forever."),
        ("ext_session_lock_v1", "\u{2605} SECURITY. smithay 0.7.0's implementation has a reachable lock-screen bypass: session_lock/lock.rs:181-189 posts InvalidUnlock and then calls state.unlock() anyway, with no else and no return, while every Request::Lock mints a fresh lock_status = false. Any client can unlock a locked screen at the cost of its own connection. Fixed on smithay master, in no release. See docs/DESKTOP-PLAN.md P4."),
        ("zwp_primary_selection_v1 / wlr_data_control / ext_data_control", "the other two selection planes. Real work in hasami, not a delegate line \u{2014} and a clipboard manager needs data-control specifically."),
        ("zwp_text_input_v3 / zwp_input_method_v2", "for INPUT METHODS (fcitx5/ibus, CJK). NOT needed for dead keys: hairetsu emits dead_acute and the client composes it with its own libxkbcommon. Wiring these without an input-method client running buys nothing."),
    ]
}

/// What the seat deliberately does not advertise, and why.
pub fn withheld() -> (v: Vec<(&'static str, &'static str)>)
    ensures
        v@ == withheld_spec(),
{
    let v = vec![
        ("wp_viewporter", "one line to advertise; means nothing until the renderer applies the src/dst rects. Advertising it would make every scaled client render at the wrong size with no error. Prerequisite for fractional scale and for xwayland-satellite."),
        ("wp_fractional_scale_v1", "requires SENDING a preferred scale the compositor actually honours; needs wp_viewporter first, and wl_compositor v6 for preferred_buffer_scale."),
        ("wp_alpha_modifier_v1", "the client sets an alpha the compositor must APPLY in the blend. Ignoring it renders opaque what the client asked to be transparent."),
        ("wp_single_pixel_buffer_v1", "a buffer TYPE the renderer must be able to import. Advertising it before nuri/kasane handle it yields a broken surface, not a solid one."),
        ("zwp_pointer_gestures_v1", "the compositor must SEND pinch/swipe events; evdev_backend.rs does not synthesise them. A bound client would wait forever."),
        ("ext_session_lock_v1", "\u{2605} SECURITY. smithay 0.7.0's implementation has a reachable lock-screen bypass: session_lock/lock.rs:181-189 posts InvalidUnlock and then calls state.unlock() anyway, with no else and no return, while every Request::Lock mints a fresh lock_status = false. Any client can unlock a locked screen at the cost of its own connection. Fixed on smithay master, in no release. See docs/DESKTOP-PLAN.md P4."),
        ("zwp_primary_selection_v1 / wlr_data_control / ext_data_control", "the other two selection planes. Real work in hasami, not a delegate line \u{2014} and a clipboard manager needs data-control specifically."),
        ("zwp_text_input_v3 / zwp_input_method_v2", "for INPUT METHODS (fcitx5/ibus, CJK). NOT needed for dead keys: hairetsu emits dead_acute and the client composes it with its own libxkbcommon. Wiring these without an input-method client running buys nothing."),
    ];
    proof {
        assert(v@ =~= withheld_spec());
    }
    v
}

} // verus!
