//! The `xkb` vocabulary of the xkbcommon API, served by the `hairetsu`
//! layout engine.
//!
//! Every constant is the integer the C API uses, because these values cross
//! to clients unchanged. The engine serves one layout, `us`: a request for
//! any other is refused with `None` rather than answered with the wrong
//! keyboard.

pub mod ffi;

use vstd::prelude::*;
use vstd::string::{StringExecFns, StrSliceExecFns};
use std::sync::Arc;
use hairetsu::Keymap as LayoutKeymap;
use hairetsu::State as LayoutState;
use crate::windowmode::without;
use crate::synth::{KeyKind, keymap_kinds, keymap_layout, keymap_span, keymap_keys, level_keysym, level_sym, us_keymap, min_keycode, max_keycode, layout_name, char_keysym, keysym_for_char};
use crate::text::{str_eq, chars_of, string_from_chars, push_char};

verus! {

pub type LayoutIndex = u32;

pub type LayoutMask = u32;

pub type LevelIndex = u32;

pub type ModIndex = u32;

pub type ModMask = u32;

pub type LedIndex = u32;

pub type LedMask = u32;

pub type ContextFlags = u32;

pub type KeymapCompileFlags = u32;

pub type KeymapFormat = u32;

pub type StateComponent = u32;

pub const MOD_NAME_SHIFT: &'static str = "Shift";

pub const MOD_NAME_CAPS: &'static str = "Lock";

pub const MOD_NAME_CTRL: &'static str = "Control";

pub const MOD_NAME_ALT: &'static str = "Mod1";

pub const MOD_NAME_NUM: &'static str = "Mod2";

pub const MOD_NAME_MOD3: &'static str = "Mod3";

pub const MOD_NAME_LOGO: &'static str = "Mod4";

pub const MOD_NAME_MOD5: &'static str = "Mod5";

pub const MOD_NAME_ISO_LEVEL3_SHIFT: &'static str = "Mod5";

pub const LED_NAME_CAPS: &'static str = "Caps Lock";

pub const LED_NAME_NUM: &'static str = "Num Lock";

pub const LED_NAME_SCROLL: &'static str = "Scroll Lock";

pub const MOD_INVALID: u32 = 0xffff_ffff;

pub const LED_INVALID: u32 = 0xffff_ffff;

pub const LAYOUT_INVALID: u32 = 0xffff_ffff;

pub const KEYCODE_INVALID: u32 = 0xffff_ffff;

pub const CONTEXT_NO_FLAGS: u32 = 0;

pub const CONTEXT_NO_DEFAULT_INCLUDES: u32 = 1;

pub const CONTEXT_NO_ENVIRONMENT_NAMES: u32 = 2;

pub const KEYMAP_COMPILE_NO_FLAGS: u32 = 0;

pub const KEYMAP_FORMAT_TEXT_V1: u32 = 1;

pub const STATE_MODS_DEPRESSED: u32 = 1;

pub const STATE_MODS_LATCHED: u32 = 2;

pub const STATE_MODS_LOCKED: u32 = 4;

pub const STATE_MODS_EFFECTIVE: u32 = 8;

pub const STATE_LAYOUT_DEPRESSED: u32 = 16;

pub const STATE_LAYOUT_LATCHED: u32 = 32;

pub const STATE_LAYOUT_LOCKED: u32 = 64;

pub const STATE_LAYOUT_EFFECTIVE: u32 = 128;

pub const STATE_LEDS: u32 = 256;

pub const STATE_MATCH_ANY: u32 = 1;

pub const STATE_MATCH_ALL: u32 = 2;

pub const STATE_MATCH_NON_EXCLUSIVE: u32 = 65536;

/// Whether a key was pressed or released.
#[derive(Debug, Clone, Copy, PartialEq, Eq, Structural)]
pub enum KeyDirection {
    Up,
    Down,
}

/// An xkbcommon context. The engine reads no files and logs nothing, so it
/// carries only the flags it was made with.
#[derive(Debug, Clone, Copy, PartialEq, Eq, Structural)]
pub struct Context {
    flags: u32,
}

impl Context {
    pub fn new(flags: u32) -> (c: Context)
        ensures
            c.flags() == flags,
    {
        Context { flags }
    }

    /// The flags the context was made with.
    pub closed spec fn flags(self) -> u32 {
        self.flags
    }

    pub fn get_flags(&self) -> (f: u32)
        ensures
            f == self.flags(),
    {
        self.flags
    }
}

impl Default for Context {
    fn default() -> (c: Context)
        ensures
            c.flags() == CONTEXT_NO_FLAGS,
    {
        Context::new(CONTEXT_NO_FLAGS)
    }
}

#[verifier::external_type_specification]
#[verifier::external_body]
pub struct ExLayoutState(LayoutState);

/// The keymap text clients are sent, by `Keymap::as_text`.
pub uninterp spec fn keymap_text(k: LayoutKeymap) -> Seq<char>;

/// What `State::serialize_mods` reads of a state for the given components.
pub uninterp spec fn state_serialized_mods(s: LayoutState, components: u32) -> u32;

/// What `State::serialize_layout` reads of a state for the given components.
pub uninterp spec fn state_serialized_layout(s: LayoutState, components: u32) -> u32;

/// The keymap a state was made over, by `State::keymap`.
pub uninterp spec fn state_keymap(s: LayoutState) -> LayoutKeymap;

/// The shift level a key resolves to in a state, by `State::level_for_key`.
pub uninterp spec fn state_key_level(s: LayoutState, keycode: u32) -> u32;

/// The keycodes a state holds down, in the order they went down: hairetsu
/// keeps them so that releasing one of two held Shift keys keeps Shift.
pub uninterp spec fn state_held(s: LayoutState) -> Seq<u32>;

/// The depressed modifiers of a state.
pub open spec fn depressed(s: LayoutState) -> u32 {
    state_serialized_mods(s, STATE_MODS_DEPRESSED)
}

/// The latched modifiers of a state.
pub open spec fn latched(s: LayoutState) -> u32 {
    state_serialized_mods(s, STATE_MODS_LATCHED)
}

/// The locked modifiers of a state.
pub open spec fn locked(s: LayoutState) -> u32 {
    state_serialized_mods(s, STATE_MODS_LOCKED)
}

/// The modifiers in effect: depressed, latched or locked.
pub open spec fn effective(s: LayoutState) -> u32 {
    depressed(s) | latched(s) | locked(s)
}

/// The modifier mask read for `components` out of the three masks: each
/// component bit adds its mask, and the effective bit adds all three.
pub open spec fn mods_mask(components: u32, d: u32, l: u32, k: u32) -> u32 {
    (if components & STATE_MODS_DEPRESSED != 0 { d } else { 0 })
        | (if components & STATE_MODS_LATCHED != 0 { l } else { 0 })
        | (if components & STATE_MODS_LOCKED != 0 { k } else { 0 })
        | (if components & STATE_MODS_EFFECTIVE != 0 { d | l | k } else { 0 })
}

/// The layout index read for `components` out of the three layout indices;
/// the effective layout is the locked one.
pub open spec fn layout_mask(components: u32, d: u32, l: u32, k: u32) -> u32 {
    (if components & STATE_LAYOUT_DEPRESSED != 0 { d } else { 0 })
        | (if components & STATE_LAYOUT_LATCHED != 0 { l } else { 0 })
        | (if components & (STATE_LAYOUT_LOCKED | STATE_LAYOUT_EFFECTIVE) != 0 { k } else { 0 })
}

/// The LED mask that follows from the locked modifiers: Caps Lock from the
/// Lock modifier, Num Lock from Mod2.
pub open spec fn leds_from(k: u32) -> u32 {
    (if k & 2 != 0 { 1u32 } else { 0u32 }) | (if k & 16 != 0 { 2u32 } else { 0u32 })
}

/// Which state components a change of the three modifier masks touched:
/// each mask that changed, the locks bringing the LEDs with them, and the
/// effective mask whenever anything did.
pub open spec fn mods_changes(d0: u32, l0: u32, k0: u32, d1: u32, l1: u32, k1: u32) -> u32 {
    let c = (if d0 != d1 { STATE_MODS_DEPRESSED } else { 0 })
        | (if l0 != l1 { STATE_MODS_LATCHED } else { 0 })
        | (if k0 != k1 { STATE_MODS_LOCKED | STATE_LEDS } else { 0 });
    if c != 0 { c | STATE_MODS_EFFECTIVE } else { 0 }
}

/// What `update_mask` writes, `serialize_mods` reads back: each modifier
/// component alone gives its own mask, and the effective component gives the
/// three together.
pub proof fn lemma_masks_read_back(d: u32, l: u32, k: u32)
    ensures
        mods_mask(STATE_MODS_DEPRESSED, d, l, k) == d,
        mods_mask(STATE_MODS_LATCHED, d, l, k) == l,
        mods_mask(STATE_MODS_LOCKED, d, l, k) == k,
        mods_mask(STATE_MODS_EFFECTIVE, d, l, k) == d | l | k,
{
    assert(((if 1u32 & 1 != 0 { d } else { 0 }) | (if 1u32 & 2 != 0 { l } else { 0 }) | (if 1u32 & 4 != 0 { k } else { 0 }) | (if 1u32 & 8 != 0 { d | l | k } else { 0 })) == d) by (bit_vector);
    assert(((if 2u32 & 1 != 0 { d } else { 0 }) | (if 2u32 & 2 != 0 { l } else { 0 }) | (if 2u32 & 4 != 0 { k } else { 0 }) | (if 2u32 & 8 != 0 { d | l | k } else { 0 })) == l) by (bit_vector);
    assert(((if 4u32 & 1 != 0 { d } else { 0 }) | (if 4u32 & 2 != 0 { l } else { 0 }) | (if 4u32 & 4 != 0 { k } else { 0 }) | (if 4u32 & 8 != 0 { d | l | k } else { 0 })) == k) by (bit_vector);
    assert(((if 8u32 & 1 != 0 { d } else { 0 }) | (if 8u32 & 2 != 0 { l } else { 0 }) | (if 8u32 & 4 != 0 { k } else { 0 }) | (if 8u32 & 8 != 0 { d | l | k } else { 0 })) == d | l | k) by (bit_vector);
}

/// The modifier bit a keysym holds down while its key is held: Shift for
/// either Shift, Control for either Control, Mod1 for left Alt and either
/// Meta, Mod4 for either Super, Mod5 for right Alt and `ISO_Level3_Shift`;
/// none for any other keysym.
pub open spec fn modifier_bit(sym: u32) -> u32 {
    if sym == 0xffe1 || sym == 0xffe2 {
        1
    } else if sym == 0xffe3 || sym == 0xffe4 {
        4
    } else if sym == 0xffe9 || sym == 0xffe7 || sym == 0xffe8 {
        8
    } else if sym == 0xffeb || sym == 0xffec {
        64
    } else if sym == 0xffea || sym == 0xfe03 {
        128
    } else {
        0
    }
}

/// The modifier bit a keysym toggles when pressed: Lock for Caps Lock, Mod2
/// for Num Lock; none for any other keysym.
pub open spec fn lock_bit(sym: u32) -> u32 {
    if sym == 0xffe5 {
        2
    } else if sym == 0xff7f {
        16
    } else {
        0
    }
}

/// The keysym at a key's first level, if the keymap has the key and it has
/// a level.
pub open spec fn base_keysym(keys: Map<u32, Seq<u32>>, keycode: u32) -> Option<u32> {
    if keys.contains_key(keycode) && keys[keycode].len() > 0 {
        Some(keys[keycode][0])
    } else {
        None
    }
}

/// The modifiers the held keys hold down: each key's modifier bit, taken
/// from its first-level keysym.
pub open spec fn held_mask(keys: Map<u32, Seq<u32>>, held: Seq<u32>) -> u32
    decreases held.len(),
{
    if held.len() == 0 {
        0
    } else {
        held_mask(keys, held.drop_last()) | match base_keysym(keys, held.last()) {
            Some(sym) => modifier_bit(sym),
            None => 0,
        }
    }
}

/// The keys held after a press of `keycode`: it joins them unless already
/// there.
pub open spec fn held_after_press(held: Seq<u32>, keycode: u32) -> Seq<u32> {
    if held.contains(keycode) {
        held
    } else {
        held.push(keycode)
    }
}

/// The shift level a key resolves to under the modifiers `mods`: none for a
/// key the keymap lacks; otherwise the second level as its kind has Shift,
/// Caps Lock or Num Lock select it, and two levels up with Mod5 on a key
/// that has four.
pub open spec fn level_rule(keys: Map<u32, Seq<u32>>, kinds: Map<u32, KeyKind>, keycode: u32, mods: u32) -> u32 {
    if !kinds.contains_key(keycode) {
        0
    } else {
        let shift = mods & 1 != 0;
        let caps = mods & 2 != 0;
        let num = mods & 16 != 0;
        let level3 = mods & 128 != 0;
        let base: u32 = match kinds[keycode] {
            KeyKind::OneLevel => 0,
            KeyKind::TwoLevel => if shift {
                1
            } else {
                0
            },
            KeyKind::Alphabetic => if shift != caps {
                1
            } else {
                0
            },
            KeyKind::Keypad => if shift || num {
                1
            } else {
                0
            },
        };
        if level3 && keys.contains_key(keycode) && keys[keycode].len() >= 4 {
            (base + 2) as u32
        } else {
            base
        }
    }
}

/// A key still held keeps its modifier down: the held keys' mask includes
/// each one's modifier bit. So releasing one of two held Shift keys keeps
/// Shift.
pub proof fn lemma_held_key_keeps_its_modifier(keys: Map<u32, Seq<u32>>, held: Seq<u32>, keycode: u32)
    requires
        held.contains(keycode),
        base_keysym(keys, keycode) is Some,
    ensures
        held_mask(keys, held) & modifier_bit(base_keysym(keys, keycode)->0) == modifier_bit(
            base_keysym(keys, keycode)->0,
        ),
    decreases held.len(),
{
    let m = modifier_bit(base_keysym(keys, keycode)->0);
    let d = held.drop_last();
    let last_bit: u32 = match base_keysym(keys, held.last()) {
        Some(sym) => modifier_bit(sym),
        None => 0,
    };
    let rest = held_mask(keys, d);
    assert(held_mask(keys, held) == rest | last_bit);
    if held.last() == keycode {
        assert(last_bit == m);
        assert((rest | m) & m == m) by (bit_vector);
    } else {
        assert(d.contains(keycode)) by {
            let a = choose|a: int| 0 <= a < held.len() && held[a] == keycode;
            assert(a < d.len());
            assert(d[a] == keycode);
        }
        lemma_held_key_keeps_its_modifier(keys, d, keycode);
        assert(rest & m == m);
        assert((rest | last_bit) & m == m) by (bit_vector)
            requires
                rest & m == m,
        ;
    }
}

/// What a key press does to the depressed and locked modifiers: its
/// modifier bit goes down, and its lock bit flips.
pub open spec fn pressed_masks(keys: Map<u32, Seq<u32>>, keycode: u32, d: u32, k: u32) -> (u32, u32) {
    match base_keysym(keys, keycode) {
        Some(sym) => (d | modifier_bit(sym), k ^ lock_bit(sym)),
        None => (d, k),
    }
}

/// A lock toggles on the press alone, so pressing its key twice (each press
/// followed by a release, which leaves the locks alone) puts the locked
/// modifiers back where they were; and a press never releases a held
/// modifier.
pub proof fn lemma_two_presses_restore_the_locks(keys: Map<u32, Seq<u32>>, keycode: u32, d: u32, k: u32)
    ensures
        pressed_masks(keys, keycode, pressed_masks(keys, keycode, d, k).0, pressed_masks(keys, keycode, d, k).1).1
            == k,
        pressed_masks(keys, keycode, d, k).0 & d == d,
{
    match base_keysym(keys, keycode) {
        Some(sym) => {
            let b = lock_bit(sym);
            let m = modifier_bit(sym);
            assert((k ^ b) ^ b == k) by (bit_vector);
            assert((d | m) & d == d) by (bit_vector);
        },
        None => {
            assert(d & d == d) by (bit_vector);
        },
    }
}

/// A keysym that is a modifier or lock key: the Shift, Control, Alt, Meta
/// and Super keys, Caps, Num and Scroll Lock, and `ISO_Level3_Shift`.
pub open spec fn is_modifier_keysym(sym: u32) -> bool {
    sym == 0xffe1 || sym == 0xffe2 || sym == 0xffe3 || sym == 0xffe4 || sym == 0xffe9
        || sym == 0xffea || sym == 0xffeb || sym == 0xffec || sym == 0xffe7 || sym == 0xffe8
        || sym == 0xffe5 || sym == 0xff7f || sym == 0xff14 || sym == 0xfe03
}

/// Whether a key repeats when held: a key the keymap has, unless its first
/// keysym is a modifier or lock key.
pub open spec fn key_repeat_rule(keys: Map<u32, Seq<u32>>, keycode: u32) -> bool {
    keys.contains_key(keycode) && (keys[keycode].len() == 0 || !is_modifier_keysym(keys[keycode][0]))
}

/// The keysyms at `level` of a key: the one `level_keysym` gives, or none.
pub open spec fn level_syms(keys: Map<u32, Seq<u32>>, keycode: u32, level: u32) -> Seq<u32> {
    match level_keysym(keys, keycode, level) {
        Some(x) => seq![x],
        None => Seq::empty(),
    }
}

/// The modifier names in the C API's bit order.
pub open spec fn mod_index(name: Seq<char>) -> Option<u32> {
    if name == "Shift"@ {
        Some(0)
    } else if name == "Lock"@ {
        Some(1)
    } else if name == "Control"@ {
        Some(2)
    } else if name == "Mod1"@ {
        Some(3)
    } else if name == "Mod2"@ {
        Some(4)
    } else if name == "Mod3"@ {
        Some(5)
    } else if name == "Mod4"@ {
        Some(6)
    } else if name == "Mod5"@ {
        Some(7)
    } else {
        None
    }
}

/// The LED names in index order.
pub open spec fn led_index(name: Seq<char>) -> Option<u32> {
    if name == "Caps Lock"@ {
        Some(0)
    } else if name == "Num Lock"@ {
        Some(1)
    } else if name == "Scroll Lock"@ {
        Some(2)
    } else {
        None
    }
}

/// A modifier's index by name, by `hairetsu::modifier::index_of`, which looks
/// the name up among the eight XKB modifier names in bit order.
#[verifier::external_body]
fn modifier_index(name: &str) -> (r: Option<u32>)
    ensures
        r == mod_index(name@),
{
    hairetsu::modifier::index_of(name)
}

/// The LED names in index order, `hairetsu::LED_NAMES`: "Caps Lock", "Num
/// Lock", "Scroll Lock".
#[verifier::external_body]
fn led_names() -> (r: Vec<&'static str>)
    ensures
        r@.len() == 3,
        r@[0]@ == "Caps Lock"@,
        r@[1]@ == "Num Lock"@,
        r@[2]@ == "Scroll Lock"@,
{
    hairetsu::LED_NAMES.to_vec()
}

/// An LED's index by name, its position among the LED names.
fn led_position(name: &str) -> (r: Option<u32>)
    ensures
        r == led_index(name@),
{
    let names = led_names();
    let mut i: usize = 0;
    while i < names.len()
        invariant
            names@.len() == 3,
            names@[0]@ == "Caps Lock"@,
            names@[1]@ == "Num Lock"@,
            names@[2]@ == "Scroll Lock"@,
            i <= 3,
            forall|j: int| 0 <= j < i ==> names@[j]@ != name@,
        decreases 3 - i,
    {
        if str_eq(names[i], name) {
            proof {
                reveal_strlit("Caps Lock");
                reveal_strlit("Num Lock");
                reveal_strlit("Scroll Lock");
            }
            return Some(i as u32);
        }
        i = i + 1;
    }
    None
}

/// The keymap as XKB text, by `Keymap::as_text`.
#[verifier::external_body]
fn text_of(k: &LayoutKeymap) -> (r: String)
    ensures
        r@ == keymap_text(*k),
{
    k.as_text().to_owned()
}

/// A fresh state over a keymap, by `State::new`: over that keymap, nothing
/// held, latched or locked, layout 0.
#[verifier::external_body]
fn new_state(k: &Arc<LayoutKeymap>) -> (s: LayoutState)
    ensures
        state_keymap(s) == **k,
        forall|c: u32| #[trigger] state_serialized_mods(s, c) == 0,
        forall|c: u32| #[trigger] state_serialized_layout(s, c) == 0,
        state_held(s) == Seq::<u32>::empty(),
{
    LayoutState::new(Arc::clone(k))
}

/// Feed a key event to a state, by `State::update_key`. The keymap, the
/// latched modifiers and the layout stay. A press adds its key to the held
/// keys, holds down its modifier bit and flips its lock bit; a release takes
/// the key out of the held keys, leaves the locks alone and sets the
/// depressed modifiers to those of the keys still held. The result names the
/// components that changed.
#[verifier::external_body]
fn feed_key(s: &mut LayoutState, keycode: u32, direction: KeyDirection) -> (changed: u32)
    ensures
        state_keymap(*final(s)) == state_keymap(*old(s)),
        latched(*final(s)) == latched(*old(s)),
        direction == KeyDirection::Down ==> (depressed(*final(s)), locked(*final(s))) == pressed_masks(
            keymap_keys(state_keymap(*old(s))),
            keycode,
            depressed(*old(s)),
            locked(*old(s)),
        ),
        direction == KeyDirection::Down ==> state_held(*final(s)) == held_after_press(state_held(*old(s)), keycode),
        direction == KeyDirection::Up ==> locked(*final(s)) == locked(*old(s)),
        direction == KeyDirection::Up ==> state_held(*final(s)) == without(state_held(*old(s)), keycode),
        direction == KeyDirection::Up ==> depressed(*final(s)) == held_mask(
            keymap_keys(state_keymap(*old(s))),
            state_held(*final(s)),
        ),
        forall|c: u32| #[trigger] state_serialized_layout(*final(s), c) == state_serialized_layout(*old(s), c),
        changed == mods_changes(
            depressed(*old(s)), latched(*old(s)), locked(*old(s)),
            depressed(*final(s)), latched(*final(s)), locked(*final(s)),
        ),
{
    s.update_key(
        keycode,
        match direction {
            KeyDirection::Up => hairetsu::KeyDirection::Up,
            KeyDirection::Down => hairetsu::KeyDirection::Down,
        },
    )
}

/// Adopt modifier and layout state, by `State::update_mask`: the six values
/// are stored as they are, the held keys stay, and the result names the
/// modifier components that changed.
#[verifier::external_body]
fn set_masks(s: &mut LayoutState, d: u32, l: u32, k: u32, ld: u32, ll: u32, lk: u32) -> (changed: u32)
    ensures
        state_keymap(*final(s)) == state_keymap(*old(s)),
        state_held(*final(s)) == state_held(*old(s)),
        forall|c: u32| #[trigger] state_serialized_mods(*final(s), c) == mods_mask(c, d, l, k),
        forall|c: u32| #[trigger] state_serialized_layout(*final(s), c) == layout_mask(c, ld, ll, lk),
        changed == mods_changes(depressed(*old(s)), latched(*old(s)), locked(*old(s)), d, l, k),
{
    s.update_mask(d, l, k, ld, ll, lk)
}

/// The modifier mask for some components, by `State::serialize_mods`.
#[verifier::external_body]
fn mods_for(s: &LayoutState, components: u32) -> (r: u32)
    ensures
        r == state_serialized_mods(*s, components),
        r == mods_mask(components, depressed(*s), latched(*s), locked(*s)),
{
    s.serialize_mods(components)
}

/// The layout index for some components, by `State::serialize_layout`.
#[verifier::external_body]
fn layout_for(s: &LayoutState, components: u32) -> (r: u32)
    ensures
        r == state_serialized_layout(*s, components),
        r == layout_mask(
            components,
            state_serialized_layout(*s, STATE_LAYOUT_DEPRESSED),
            state_serialized_layout(*s, STATE_LAYOUT_LATCHED),
            state_serialized_layout(*s, STATE_LAYOUT_LOCKED),
        ),
{
    s.serialize_layout(components)
}

/// The LED mask of a state, by `State::leds`: it follows the locks.
#[verifier::external_body]
fn leds_of(s: &LayoutState) -> (r: u32)
    ensures
        r == leds_from(locked(*s)),
{
    s.leds()
}

/// The modifiers in effect in a state, by `State::effective_mods`.
#[verifier::external_body]
fn mods_of(s: &LayoutState) -> (r: u32)
    ensures
        r == effective(*s),
{
    s.effective_mods()
}

/// The shift level of a key in a state, by `State::level_for_key`, which
/// picks it from the key's kind and the modifiers in effect.
#[verifier::external_body]
fn level_of(s: &LayoutState, keycode: u32) -> (r: u32)
    ensures
        r == state_key_level(*s, keycode),
        r == level_rule(
            keymap_keys(state_keymap(*s)),
            keymap_kinds(state_keymap(*s)),
            keycode,
            effective(*s),
        ),
{
    s.level_for_key(keycode)
}

/// The keysyms a key produces in a state, by `State::key_syms`: those of its
/// keymap at the level the key resolves to.
#[verifier::external_body]
fn syms_of(s: &LayoutState, keycode: u32) -> (r: Vec<u32>)
    ensures
        r@ == level_syms(keymap_keys(state_keymap(*s)), keycode, state_key_level(*s, keycode)),
        r@ == level_syms(
            keymap_keys(state_keymap(*s)),
            keycode,
            level_rule(keymap_keys(state_keymap(*s)), keymap_kinds(state_keymap(*s)), keycode, effective(*s)),
        ),
{
    s.key_syms(keycode).iter().map(|k| k.raw()).collect()
}

/// The keysym a key produces in a state, by `State::key_sym`: the first of
/// its keysyms, or `NoSymbol`.
#[verifier::external_body]
fn key_sym_of(s: &LayoutState, keycode: u32) -> (r: u32)
    ensures
        r == match level_keysym(keymap_keys(state_keymap(*s)), keycode, state_key_level(*s, keycode)) {
            Some(x) => x,
            None => NO_SYMBOL,
        },
        r == match level_keysym(
            keymap_keys(state_keymap(*s)),
            keycode,
            level_rule(keymap_keys(state_keymap(*s)), keymap_kinds(state_keymap(*s)), keycode, effective(*s)),
        ) {
            Some(x) => x,
            None => NO_SYMBOL,
        },
{
    s.key_sym(keycode).raw()
}

/// The keymap a state is over, by `State::keymap`.
#[verifier::external_body]
fn keymap_of(s: &LayoutState) -> (r: Arc<LayoutKeymap>)
    ensures
        *r == state_keymap(*s),
{
    Arc::clone(s.keymap())
}

/// Whether a key repeats when held, by `Keymap::key_repeats`.
#[verifier::external_body]
fn repeats(k: &LayoutKeymap, keycode: u32) -> (r: bool)
    ensures
        r == key_repeat_rule(keymap_keys(*k), keycode),
{
    k.key_repeats(keycode)
}

/// A compiled keymap.
#[derive(Debug, Clone)]
pub struct Keymap {
    inner: Arc<LayoutKeymap>,
}

impl Keymap {
    /// The engine's keymap underneath.
    pub closed spec fn layout(self) -> LayoutKeymap {
        *self.inner
    }

    /// Compile a keymap from RMLVO names. An empty layout (the system
    /// default) or `us`, with no variant, compiles to the US keymap; anything
    /// else is refused with `None`, never answered with another layout.
    pub fn new_from_names(
        context: &Context,
        rules: &str,
        model: &str,
        layout: &str,
        variant: &str,
        options: Option<String>,
        flags: u32,
    ) -> (r: Option<Keymap>)
        ensures
            r is Some <==> ((layout@ == ""@ || layout@ == "us"@) && variant@ == ""@),
            r matches Some(k) ==> keymap_layout(k.layout()) == "English (US)"@,
    {
        proof {
            reveal_strlit("");
        }
        let known = str_eq(layout, "") || str_eq(layout, "us");
        if !known || !str_eq(variant, "") {
            return None;
        }
        Some(Keymap { inner: Arc::new(us_keymap()) })
    }

    /// Compile a keymap from XKB text: always `None`, since the engine emits
    /// keymap text but does not parse it.
    pub fn new_from_string(context: &Context, text: &str, format: u32, flags: u32) -> (r: Option<Keymap>)
        ensures
            r is None,
    {
        None
    }

    /// The keymap as XKB text.
    pub fn get_as_string(&self, format: u32) -> (s: String)
        ensures
            s@ == keymap_text(self.layout()),
    {
        text_of(&*self.inner)
    }

    /// A modifier's index by name, or `MOD_INVALID`.
    pub fn mod_get_index(&self, name: &str) -> (i: u32)
        ensures
            i == match mod_index(name@) {
                Some(i) => i,
                None => MOD_INVALID,
            },
    {
        match modifier_index(name) {
            Some(i) => i,
            None => MOD_INVALID,
        }
    }

    /// An LED's index by name, or `LED_INVALID`.
    pub fn led_get_index(&self, name: &str) -> (i: u32)
        ensures
            i == match led_index(name@) {
                Some(i) => i,
                None => LED_INVALID,
            },
    {
        match led_position(name) {
            Some(i) => i,
            None => LED_INVALID,
        }
    }

    /// How many layouts the keymap holds: one, by scope.
    pub fn num_layouts(&self) -> (n: u32)
        ensures
            n == 1,
    {
        1
    }

    /// The names of the keymap's layouts, in index order.
    pub fn layouts(&self) -> (v: Vec<String>)
        ensures
            v@.len() == 1,
            v@[0]@ == keymap_layout(self.layout()),
    {
        let mut v: Vec<String> = Vec::new();
        v.push(layout_name(&*self.inner));
        v
    }

    /// How many layouts a key has: as many as the keymap.
    pub fn num_layouts_for_key(&self, key: u32) -> (n: u32)
        ensures
            n == 1,
    {
        self.num_layouts()
    }

    /// The name of a layout. The engine holds one, which every index names.
    pub fn layout_get_name(&self, idx: u32) -> (s: String)
        ensures
            s@ == keymap_layout(self.layout()),
    {
        layout_name(&*self.inner)
    }

    /// The lowest keycode the keymap holds.
    pub fn min_keycode(&self) -> (k: u32)
        ensures
            k == keymap_span(self.layout()).0,
    {
        min_keycode(&*self.inner)
    }

    /// The highest keycode the keymap holds.
    pub fn max_keycode(&self) -> (k: u32)
        ensures
            k == keymap_span(self.layout()).1,
    {
        max_keycode(&*self.inner)
    }

    /// Whether a key repeats when held: a key the keymap has, unless it is a
    /// modifier or lock key.
    pub fn key_repeats(&self, key: u32) -> (r: bool)
        ensures
            r == key_repeat_rule(keymap_keys(self.layout()), key),
    {
        repeats(&*self.inner, key)
    }

    /// The keysyms of a key at a level, whatever the modifiers: the keysym of
    /// that level, the last level's for a level past the end, and none for a
    /// key the keymap lacks. The keymap holds one layout, so `layout` is not
    /// consulted.
    pub fn key_get_syms_by_level(&self, key: u32, layout: u32, level: u32) -> (r: Vec<u32>)
        ensures
            r@ == level_syms(keymap_keys(self.layout()), key, level),
    {
        let mut v: Vec<u32> = Vec::new();
        match level_sym(&*self.inner, key, level) {
            Some(x) => v.push(x),
            None => {},
        }
        v
    }
}

/// Live keyboard state over a keymap.
#[derive(Debug)]
pub struct State {
    inner: LayoutState,
}

impl State {
    /// The engine's state underneath.
    pub closed spec fn engine(self) -> LayoutState {
        self.inner
    }

    /// A fresh state over a keymap: nothing depressed, latched or locked,
    /// and layout 0.
    pub fn new(keymap: &Keymap) -> (s: State)
        ensures
            state_keymap(s.engine()) == keymap.layout(),
            forall|c: u32| #[trigger] state_serialized_mods(s.engine(), c) == 0,
            forall|c: u32| #[trigger] state_serialized_layout(s.engine(), c) == 0,
            state_held(s.engine()) == Seq::<u32>::empty(),
    {
        State { inner: new_state(&keymap.inner) }
    }

    /// Feed a key event; returns which state components changed. The keymap,
    /// the latched modifiers and the layout stay as they were; a press holds
    /// its key and its key's modifier down and flips its lock, and a release
    /// lets the key go, leaves the locks alone and holds down exactly the
    /// modifiers of the keys still held.
    pub fn update_key(&mut self, key: u32, direction: KeyDirection) -> (changed: u32)
        ensures
            state_keymap(final(self).engine()) == state_keymap(old(self).engine()),
            latched(final(self).engine()) == latched(old(self).engine()),
            direction == KeyDirection::Down ==> (depressed(final(self).engine()), locked(final(self).engine()))
                == pressed_masks(
                keymap_keys(state_keymap(old(self).engine())),
                key,
                depressed(old(self).engine()),
                locked(old(self).engine()),
            ),
            direction == KeyDirection::Down ==> state_held(final(self).engine()) == held_after_press(
                state_held(old(self).engine()),
                key,
            ),
            direction == KeyDirection::Up ==> locked(final(self).engine()) == locked(old(self).engine()),
            direction == KeyDirection::Up ==> state_held(final(self).engine()) == without(
                state_held(old(self).engine()),
                key,
            ),
            direction == KeyDirection::Up ==> depressed(final(self).engine()) == held_mask(
                keymap_keys(state_keymap(old(self).engine())),
                state_held(final(self).engine()),
            ),
            forall|c: u32| #[trigger] state_serialized_layout(final(self).engine(), c)
                == state_serialized_layout(old(self).engine(), c),
            changed == mods_changes(
                depressed(old(self).engine()), latched(old(self).engine()), locked(old(self).engine()),
                depressed(final(self).engine()), latched(final(self).engine()), locked(final(self).engine()),
            ),
    {
        feed_key(&mut self.inner, key, direction)
    }

    /// Adopt modifier and layout state computed elsewhere; returns which
    /// modifier components changed. Every later read gives back what was
    /// written here.
    pub fn update_mask(
        &mut self,
        depressed_mods: u32,
        latched_mods: u32,
        locked_mods: u32,
        depressed_layout: u32,
        latched_layout: u32,
        locked_layout: u32,
    ) -> (changed: u32)
        ensures
            state_keymap(final(self).engine()) == state_keymap(old(self).engine()),
            state_held(final(self).engine()) == state_held(old(self).engine()),
            forall|c: u32| #[trigger] state_serialized_mods(final(self).engine(), c)
                == mods_mask(c, depressed_mods, latched_mods, locked_mods),
            forall|c: u32| #[trigger] state_serialized_layout(final(self).engine(), c)
                == layout_mask(c, depressed_layout, latched_layout, locked_layout),
            changed == mods_changes(
                depressed(old(self).engine()), latched(old(self).engine()), locked(old(self).engine()),
                depressed_mods, latched_mods, locked_mods,
            ),
    {
        set_masks(
            &mut self.inner,
            depressed_mods,
            latched_mods,
            locked_mods,
            depressed_layout,
            latched_layout,
            locked_layout,
        )
    }

    /// The modifier mask for the given components.
    pub fn serialize_mods(&self, components: u32) -> (m: u32)
        ensures
            m == state_serialized_mods(self.engine(), components),
            m == mods_mask(components, depressed(self.engine()), latched(self.engine()), locked(self.engine())),
    {
        mods_for(&self.inner, components)
    }

    /// The layout index for the given components.
    pub fn serialize_layout(&self, components: u32) -> (l: u32)
        ensures
            l == state_serialized_layout(self.engine(), components),
            l == layout_mask(
                components,
                state_serialized_layout(self.engine(), STATE_LAYOUT_DEPRESSED),
                state_serialized_layout(self.engine(), STATE_LAYOUT_LATCHED),
                state_serialized_layout(self.engine(), STATE_LAYOUT_LOCKED),
            ),
    {
        layout_for(&self.inner, components)
    }

    /// Whether the named modifier is in effect: an unknown name never is.
    pub fn mod_name_is_active(&self, name: &str, kind: u32) -> (r: bool)
        ensures
            r == match mod_index(name@) {
                Some(i) => (effective(self.engine()) >> i) & 1 == 1,
                None => false,
            },
    {
        match modifier_index(name) {
            Some(i) => {
                let m = mods_of(&self.inner);
                (m >> i) & 1 == 1
            },
            None => false,
        }
    }

    /// Whether the LED at `idx` is lit: an invalid or out-of-range index
    /// never is, and is never shifted by.
    pub fn led_index_is_active(&self, idx: u32) -> (r: bool)
        ensures
            r == led_index_lit(leds_from(locked(self.engine())), idx),
    {
        if idx == LED_INVALID || idx >= 3 {
            return false;
        }
        let leds = leds_of(&self.inner);
        (leds >> idx) & 1 == 1
    }

    /// Whether the named LED is lit: an unknown name never is.
    pub fn led_name_is_active(&self, name: &str) -> (r: bool)
        ensures
            r == led_name_lit(leds_from(locked(self.engine())), name@),
    {
        match led_position(name) {
            Some(i) => {
                let leds = leds_of(&self.inner);
                (leds >> i) & 1 == 1
            },
            None => false,
        }
    }

    /// Whether the layout at `idx` is active: layout 0, the only one.
    pub fn layout_index_is_active(&self, idx: u32, kind: u32) -> (r: bool)
        ensures
            r == (idx == 0),
    {
        idx == 0
    }

    /// The keysyms a key produces now: its keymap's keysyms at the level the
    /// key resolves to.
    pub fn key_get_syms(&self, key: u32) -> (r: Vec<u32>)
        ensures
            r@ == level_syms(keymap_keys(state_keymap(self.engine())), key, state_key_level(self.engine(), key)),
            r@ == level_syms(
                keymap_keys(state_keymap(self.engine())),
                key,
                level_rule(
                    keymap_keys(state_keymap(self.engine())),
                    keymap_kinds(state_keymap(self.engine())),
                    key,
                    effective(self.engine()),
                ),
            ),
    {
        syms_of(&self.inner, key)
    }

    /// The single keysym a key produces now, `NoSymbol` for none.
    pub fn key_get_one_sym(&self, key: u32) -> (sym: u32)
        ensures
            sym == match level_keysym(keymap_keys(state_keymap(self.engine())), key, state_key_level(self.engine(), key)) {
                Some(x) => x,
                None => NO_SYMBOL,
            },
            sym == match level_keysym(
                keymap_keys(state_keymap(self.engine())),
                key,
                level_rule(
                    keymap_keys(state_keymap(self.engine())),
                    keymap_kinds(state_keymap(self.engine())),
                    key,
                    effective(self.engine()),
                ),
            ) {
                Some(x) => x,
                None => NO_SYMBOL,
            },
    {
        key_sym_of(&self.inner, key)
    }

    /// The layout a key resolves in: layout 0, the only one.
    pub fn key_get_layout(&self, key: u32) -> (l: u32)
        ensures
            l == 0,
    {
        0
    }

    /// The shift level a key resolves to under the current modifiers.
    pub fn key_get_level(&self, key: u32, layout: u32) -> (l: u32)
        ensures
            l == state_key_level(self.engine(), key),
            l == level_rule(
                keymap_keys(state_keymap(self.engine())),
                keymap_kinds(state_keymap(self.engine())),
                key,
                effective(self.engine()),
            ),
    {
        level_of(&self.inner, key)
    }

    /// The keymap the state is over.
    pub fn get_keymap(&self) -> (k: Keymap)
        ensures
            k.layout() == state_keymap(self.engine()),
    {
        Keymap { inner: keymap_of(&self.inner) }
    }
}

/// Whether the LED at `idx` is lit in the mask `leds`: an invalid or
/// out-of-range index never is.
pub open spec fn led_index_lit(leds: u32, idx: u32) -> bool {
    idx != LED_INVALID && idx < 3 && (leds >> idx) & 1 == 1
}

/// Whether the named LED is lit in the mask `leds`: an unknown name never is.
pub open spec fn led_name_lit(leds: u32, name: Seq<char>) -> bool {
    match led_index(name) {
        Some(i) => (leds >> i) & 1 == 1,
        None => false,
    }
}

/// The two spellings of one question agree: whether an LED is lit, asked by
/// its name, is the answer asked by the index its name has.
pub proof fn lemma_led_spellings_agree(leds: u32, name: Seq<char>)
    requires
        led_index(name) is Some,
    ensures
        led_name_lit(leds, name) == led_index_lit(leds, led_index(name)->0),
{
}

/// The keysym `NoSymbol`.
pub const NO_SYMBOL: u32 = 0;

/// A keysym's name as the C header spells it, by `xkeysym::Keysym::name`.
pub uninterp spec fn keysym_c_name(sym: u32) -> Option<Seq<char>>;

/// A keysym's C header name, by `xkeysym::Keysym::name`.
#[verifier::external_body]
fn c_name_of(sym: u32) -> (r: Option<String>)
    ensures
        match r {
            Some(n) => keysym_c_name(sym) == Some(n@),
            None => keysym_c_name(sym) is None,
        },
{
    xkeysym::Keysym::new(sym).name().map(|n| n.to_owned())
}

/// The lower-case hex digit for `d < 16`.
pub open spec fn hex_digit(d: int) -> char {
    if d < 10 {
        (48 + d) as char
    } else {
        (87 + d) as char
    }
}

/// `v` as `0x` and eight lower-case hex digits.
pub open spec fn hex8(v: u32) -> Seq<char> {
    seq!['0', 'x'] + Seq::new(8, |i: int| hex_digit((v as int / pow16(7 - i)) % 16))
}

/// `16` to the `n`.
pub open spec fn pow16(n: int) -> int
    decreases n,
{
    if n <= 0 {
        1
    } else {
        16 * pow16(n - 1)
    }
}

/// Powers of 16 are positive.
proof fn lemma_pow16_positive(n: int)
    ensures
        pow16(n) >= 1,
    decreases n,
{
    if n > 0 {
        lemma_pow16_positive(n - 1);
    }
}

/// A name in XKB's spelling from the C header's: `XF86XK_` becomes `XF86`,
/// `XK_` is dropped, and anything else is kept as it is.
pub open spec fn xkb_spelling(n: Seq<char>) -> Seq<char> {
    if n.len() >= 7 && n.take(7) == "XF86XK_"@ {
        "XF86"@ + n.skip(7)
    } else if n.len() >= 3 && n.take(3) == "XK_"@ {
        n.skip(3)
    } else {
        n
    }
}

/// The name of a keysym, in XKB's spelling.
pub open spec fn keysym_name(sym: u32) -> Seq<char> {
    match keysym_c_name(sym) {
        Some(n) => xkb_spelling(n),
        None => hex8(sym),
    }
}

/// Whether `v` starts with the characters of `p`.
fn has_prefix(v: &Vec<char>, p: &str) -> (r: bool)
    ensures
        r <==> (p@.len() <= v@.len() && v@.take(p@.len() as int) == p@),
{
    let n = p.unicode_len();
    if n > v.len() {
        return false;
    }
    let mut i: usize = 0;
    while i < n
        invariant
            n == p@.len(),
            n <= v@.len(),
            i <= n,
            forall|j: int| 0 <= j < i ==> v@[j] == p@[j],
        decreases n - i,
    {
        if v[i] != p.get_char(i) {
            proof {
                assert(v@.take(n as int)[i as int] != p@[i as int]);
            }
            return false;
        }
        i = i + 1;
    }
    proof {
        assert(v@.take(n as int) =~= p@);
    }
    true
}

/// The hex digit for `d < 16`.
fn hex_char(d: u32) -> (c: char)
    requires
        d < 16,
    ensures
        c == hex_digit(d as int),
{
    if d < 10 {
        let b: u8 = 48 + d as u8;
        b as char
    } else {
        let b: u8 = 87 + d as u8;
        b as char
    }
}

/// The name of a keysym, in XKB's spelling rather than the C header's; a
/// keysym with no name is written as `0x` and eight hex digits.
pub fn keysym_get_name(keysym: u32) -> (s: String)
    ensures
        s@ == keysym_name(keysym),
{
    match c_name_of(keysym) {
        Some(n) => {
            let v = chars_of(n.as_str());
            proof {
                reveal_strlit("XF86XK_");
                reveal_strlit("XK_");
                reveal_strlit("XF86");
            }
            if has_prefix(&v, "XF86XK_") {
                let mut out = String::from_str("XF86");
                let rest = string_from_chars(&v, 7, v.len());
                out.append(rest.as_str());
                proof {
                    assert(v@.skip(7) =~= v@.subrange(7, v@.len() as int));
                }
                out
            } else if has_prefix(&v, "XK_") {
                let rest = string_from_chars(&v, 3, v.len());
                proof {
                    assert(v@.skip(3) =~= v@.subrange(3, v@.len() as int));
                }
                rest
            } else {
                n
            }
        },
        None => {
            let mut out = String::from_str("0x");
            let mut k: u32 = 0;
            let mut div: u32 = 0x1000_0000;
            proof {
                reveal_strlit("0x");
                reveal_with_fuel(pow16, 8);
                assert(pow16(7) == 0x1000_0000);
            }
            while k < 8
                invariant
                    k <= 8,
                    div as int == pow16(7 - k as int),
                    div >= 1,
                    out@ == seq!['0', 'x'] + Seq::new(k as nat, |i: int| hex_digit((keysym as int / pow16(7 - i)) % 16)),
                decreases 8 - k,
            {
                let d = (keysym / div) % 16;
                push_char(&mut out, hex_char(d));
                proof {
                    assert(out@ =~= seq!['0', 'x'] + Seq::new((k + 1) as nat, |i: int| hex_digit((keysym as int / pow16(7 - i)) % 16)));
                    if k < 7 {
                        assert(pow16(7 - k as int) == 16 * pow16(7 - (k + 1) as int));
                        lemma_pow16_positive(7 - (k + 1) as int);
                    }
                }
                if k < 7 {
                    div = div / 16;
                }
                k = k + 1;
            }
            out
        },
    }
}

/// A keysym by name: a one-character name is that character's keysym, and
/// any other name is `NoSymbol`.
pub fn keysym_from_name(name: &str, flags: u32) -> (sym: u32)
    ensures
        sym == (if name@.len() == 1 {
            char_keysym(name@[0])
        } else {
            NO_SYMBOL
        }),
{
    if name.unicode_len() == 1 {
        keysym_for_char(name.get_char(0))
    } else {
        NO_SYMBOL
    }
}

} // verus!
