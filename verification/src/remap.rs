//! Keycode remapping, applied before xkb sees the key.
//!
//! The keymap library in use ignores xkb options, so `caps:escape` would
//! compile the plain keymap and silently do nothing. The remap happens here
//! instead, on keycodes, so everything downstream sees a real Escape.

use vstd::prelude::*;

verus! {

/// evdev `KEY_CAPSLOCK`.
pub const EVDEV_CAPSLOCK: u32 = 58;

/// evdev `KEY_ESC`.
pub const EVDEV_ESC: u32 = 1;

/// The offset between an evdev code and the XKB keycode xkb expects.
pub const XKB_OFFSET: u32 = 8;

/// The seat's default remaps, as `(from_evdev, to_evdev)`: CapsLock is
/// Escape.
pub open spec fn default_remaps() -> Seq<(u32, u32)> {
    seq![(EVDEV_CAPSLOCK, EVDEV_ESC)]
}

/// The remap table, as `(from_evdev, to_evdev)` pairs.
pub fn remaps() -> (v: Vec<(u32, u32)>)
    ensures
        v@ == default_remaps(),
{
    let v = vec![(EVDEV_CAPSLOCK, EVDEV_ESC)];
    proof {
        assert(v@ =~= default_remaps());
    }
    v
}

/// The XKB keycode `code` becomes: the target of the first remap whose
/// source it is, else itself.
pub open spec fn apply_spec(code: u32) -> u32 {
    if code == EVDEV_CAPSLOCK + XKB_OFFSET {
        (EVDEV_ESC + XKB_OFFSET) as u32
    } else {
        code
    }
}

/// Apply the seat's remaps to an XKB keycode (evdev + 8).
pub fn apply(code: u32) -> (r: u32)
    ensures
        r == apply_spec(code),
{
    let table = remaps();
    let mut i: usize = 0;
    while i < table.len()
        invariant
            table@ == default_remaps(),
            i <= table@.len(),
            forall|j: int| 0 <= j < i ==> code != (#[trigger] table@[j]).0 + XKB_OFFSET,
        decreases table@.len() - i,
    {
        proof {
            assert(default_remaps()[0] == (EVDEV_CAPSLOCK, EVDEV_ESC));
            assert(table@[i as int] == (EVDEV_CAPSLOCK, EVDEV_ESC));
        }
        let (from, to) = table[i];
        if code == from + XKB_OFFSET {
            return to + XKB_OFFSET;
        }
        i = i + 1;
    }
    proof {
        assert(default_remaps()[0] == (EVDEV_CAPSLOCK, EVDEV_ESC));
        assert(code != table@[0].0 + XKB_OFFSET);
    }
    code
}

/// No target of the table is also a source, so applying the remap twice is
/// the same as applying it once.
pub proof fn lemma_remap_idempotent(code: u32)
    ensures
        apply_spec(apply_spec(code)) == apply_spec(code),
        forall|i: int, j: int|
            0 <= i < default_remaps().len() && 0 <= j < default_remaps().len() ==> (
            #[trigger] default_remaps()[i]).1 != (#[trigger] default_remaps()[j]).0,
        forall|i: int, j: int|
            0 <= i < j < default_remaps().len() ==> (#[trigger] default_remaps()[i]).0 != (
            #[trigger] default_remaps()[j]).0,
{
}

} // verus!
