//! omoya: the decision-making core of a small Wayland compositor.
//!
//! Every module here is plain logic over plain values — damage refinement,
//! plane routing, window modes, tiling geometry, keyboard remapping, uevent
//! and tzfile parsing — verified against its contract. The compositor glue
//! that drives it lives outside this crate.

pub mod args;
pub mod geom;
pub mod layers;
pub mod layout;
pub mod localtime;
pub mod mcp;
pub mod owed;
pub mod pixels;
pub mod placement;
pub mod protocols;
pub mod remap;
pub mod role;
pub mod rouka;
pub mod session;
pub mod snap;
pub mod stale;
pub mod state;
pub mod synth;
pub mod text;
pub mod truedamage;
pub mod uevent;
pub mod ukeire;
pub mod wash;
pub mod windowmode;
pub mod winid;
pub mod xkb;
