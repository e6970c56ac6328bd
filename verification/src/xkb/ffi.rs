//! Raw constants under the names the C binding's consumers reference; the
//! values are the same integers as the safe constants in the parent module.

use vstd::prelude::*;

verus! {

pub const XKB_STATE_MODS_DEPRESSED: u32 = 1;

pub const XKB_STATE_MODS_LATCHED: u32 = 2;

pub const XKB_STATE_MODS_LOCKED: u32 = 4;

pub const XKB_STATE_MODS_EFFECTIVE: u32 = 8;

pub const XKB_STATE_LAYOUT_DEPRESSED: u32 = 16;

pub const XKB_STATE_LAYOUT_LATCHED: u32 = 32;

pub const XKB_STATE_LAYOUT_LOCKED: u32 = 64;

pub const XKB_STATE_LAYOUT_EFFECTIVE: u32 = 128;

pub const XKB_STATE_LEDS: u32 = 256;

} // verus!
