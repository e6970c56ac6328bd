//! Synthetic input: the key and button steps a synthetic action expands to.
//!
//! Typing a string asks the live keymap which key produces each character,
//! and brackets Shift and AltGr around the characters that need them,
//! changing a modifier only when it changes and never leaving one down. A
//! character no single keystroke produces is refused by name rather than
//! skipped.

use vstd::prelude::*;
use vstd::string::{StringExecFns, StrSliceExecFns};
use crate::text::chars_of;
use hairetsu::Keymap as LayoutKeymap;

verus! {

/// `KEY_LEFTSHIFT`, held around characters on the shifted level.
pub const KEY_LEFTSHIFT: u32 = 42;

/// `KEY_RIGHTALT`, `ISO_Level3_Shift` on layouts that bind it.
pub const KEY_RIGHTALT: u32 = 100;

/// The Shift modifier bit.
pub const MOD_SHIFT: u32 = 1;

/// The AltGr (Mod5) modifier bit.
pub const MOD_ALTGR: u32 = 128;

/// One synthetic input action on keys or buttons.
#[derive(Debug, Clone, PartialEq, Eq)]
pub enum Synth {
    /// A single key, by evdev code.
    Key { code: u32, pressed: bool },
    /// Type a string.
    Text(String),
    /// A pointer button by evdev code.
    Button { code: u32, pressed: bool },
}

/// One elementary key or button action, after expansion.
#[derive(Debug, Clone, Copy, PartialEq, Eq, Structural)]
pub enum Step {
    Key { code: u32, pressed: bool },
    Button { code: u32, pressed: bool },
}

#[verifier::external_type_specification]
#[verifier::external_body]
pub struct ExKeymap(LayoutKeymap);

/// The keysyms of each key of a keymap, by XKB keycode and then by level.
pub uninterp spec fn keymap_keys(k: LayoutKeymap) -> Map<u32, Seq<u32>>;

/// How a key picks its level from the modifiers, as hairetsu's `KeyType`
/// names it.
#[derive(Debug, Clone, Copy, PartialEq, Eq, Structural)]
pub enum KeyKind {
    /// One level; modifiers are ignored.
    OneLevel,
    /// Shift selects the second level.
    TwoLevel,
    /// Shift or Caps Lock, but not both, selects the second level: letters.
    Alphabetic,
    /// Shift or Num Lock selects the second level: the keypad.
    Keypad,
}

/// The kind of each key of a keymap, by XKB keycode.
pub uninterp spec fn keymap_kinds(k: LayoutKeymap) -> Map<u32, KeyKind>;

/// The lowest and highest XKB keycode a keymap holds.
pub uninterp spec fn keymap_span(k: LayoutKeymap) -> (u32, u32);

/// The name of a keymap's first layout.
pub uninterp spec fn keymap_layout(k: LayoutKeymap) -> Seq<char>;

/// The keysym a character is typed as.
pub uninterp spec fn char_keysym(c: char) -> u32;

/// A character's debug spelling, quoted and escaped.
pub uninterp spec fn char_debug(c: char) -> Seq<char>;

/// A string's debug spelling, quoted and escaped.
pub uninterp spec fn str_debug(s: Seq<char>) -> Seq<char>;

/// The lowest XKB keycode in the keymap, by `Keymap::min_keycode`.
#[verifier::external_body]
pub(crate) fn min_keycode(k: &LayoutKeymap) -> (r: u32)
    ensures
        r == keymap_span(*k).0,
{
    k.min_keycode()
}

/// The highest XKB keycode in the keymap, by `Keymap::max_keycode`.
#[verifier::external_body]
pub(crate) fn max_keycode(k: &LayoutKeymap) -> (r: u32)
    ensures
        r == keymap_span(*k).1,
{
    k.max_keycode()
}

/// How many levels a key has (0 for a keycode the keymap lacks), by
/// `Keymap::num_levels_for_key`.
#[verifier::external_body]
fn level_count(k: &LayoutKeymap, keycode: u32) -> (r: u32)
    ensures
        r == if keymap_keys(*k).contains_key(keycode) {
            keymap_keys(*k)[keycode].len()
        } else {
            0
        },
{
    k.num_levels_for_key(keycode)
}

/// The keysym at `level` of a key, by `Keymap::key_syms_by_level`: `None`
/// for a keycode the keymap lacks or a key with no level, and the last level
/// for a level past the end.
#[verifier::external_body]
pub(crate) fn level_sym(k: &LayoutKeymap, keycode: u32, level: u32) -> (r: Option<u32>)
    ensures
        r == level_keysym(keymap_keys(*k), keycode, level),
{
    k.key_syms_by_level(keycode, level).first().map(|s| s.raw())
}

/// The keysym at `level` of a key: `None` for a keycode the table lacks or a
/// key with no level, and the last level for a level past the end.
pub open spec fn level_keysym(keys: Map<u32, Seq<u32>>, keycode: u32, level: u32) -> Option<u32> {
    if keys.contains_key(keycode) && keys[keycode].len() > 0 {
        let syms = keys[keycode];
        if level < syms.len() {
            Some(syms[level as int])
        } else {
            Some(syms[syms.len() - 1])
        }
    } else {
        None
    }
}

/// The name of the keymap's first layout, by `Keymap::layout_name`.
#[verifier::external_body]
pub(crate) fn layout_name(k: &LayoutKeymap) -> (r: String)
    ensures
        r@ == keymap_layout(*k),
{
    k.layout_name(0).to_string()
}

/// A modifier key's keysym: `Shift_L` through `Hyper_R`.
pub open spec fn modifier_keysym(sym: u32) -> bool {
    0xffe1 <= sym <= 0xffee
}

/// The keysym a character is typed as, by `xkeysym::Keysym::from_char`.
/// That gives a Latin-1 character's own code, a control character's
/// `0xff..` function keysym, `NoSymbol`, a legacy keysym from its table
/// (none above `0x20ac`) or the code with `0x0100_0000` set: never a
/// modifier's keysym.
#[verifier::external_body]
pub(crate) fn keysym_for_char(c: char) -> (r: u32)
    ensures
        r == char_keysym(c),
        !modifier_keysym(r),
{
    xkeysym::Keysym::from_char(c).raw()
}

/// A character's debug spelling, by its `Debug` formatting.
#[verifier::external_body]
fn debug_char(c: char) -> (r: String)
    ensures
        r@ == char_debug(c),
{
    format!("{c:?}")
}

/// A string's debug spelling, by its `Debug` formatting.
#[verifier::external_body]
fn debug_str(s: &str) -> (r: String)
    ensures
        r@ == str_debug(s@),
{
    format!("{s:?}")
}

/// The modifiers a level is reached with: the second level needs Shift, the
/// third AltGr, the fourth both.
pub open spec fn level_mods(level: u32) -> u32 {
    if level == 0 {
        0
    } else if level == 1 {
        MOD_SHIFT
    } else if level == 2 {
        MOD_ALTGR
    } else {
        (MOD_SHIFT + MOD_ALTGR) as u32
    }
}

/// Keycode `kc` at `level` produces keysym `sym`.
pub open spec fn key_makes(keys: Map<u32, Seq<u32>>, kc: u32, level: int, sym: u32) -> bool {
    keys.contains_key(kc) && 0 <= level < keys[kc].len() && keys[kc][level] == sym
}

/// The first key (lowest keycode in `[lo, hi]`, then lowest level) that
/// produces `sym`, as `(XKB keycode, level)`.
pub open spec fn find_key(keys: Map<u32, Seq<u32>>, lo: u32, hi: u32, sym: u32) -> Option<(u32, u32)> {
    if exists|kc: u32, l: int| lo <= kc <= hi && #[trigger] key_makes(keys, kc, l, sym) {
        let (kc, l) = choose|kc: u32, l: int|
            lo <= kc <= hi && #[trigger] key_makes(keys, kc, l, sym) && (forall|kc2: u32, l2: int|
                lo <= kc2 <= hi && #[trigger] key_makes(keys, kc2, l2, sym) ==> kc < kc2 || (kc
                    == kc2 && l <= l2));
        Some((kc, l as u32))
    } else {
        None
    }
}

/// The first keycode a search may start from: XKB keycodes below 8 have no
/// evdev code.
pub open spec fn first_xkb(lo: u32) -> u32 {
    if lo < 8 {
        8
    } else {
        lo
    }
}

/// Where character `c` is typed on keymap `k`: `(evdev code, modifiers)`.
pub open spec fn key_for(k: LayoutKeymap, c: char) -> Option<(u32, u32)> {
    match find_key(keymap_keys(k), first_xkb(keymap_span(k).0), keymap_span(k).1, char_keysym(c)) {
        Some((kc, l)) => Some(((kc - 8) as u32, level_mods(l))),
        None => None,
    }
}

/// The refusal for a character no single keystroke produces.
pub open spec fn unreachable_message(k: LayoutKeymap, c: char) -> Seq<char> {
    char_debug(c) + " is not reachable by one keystroke on layout "@ + str_debug(keymap_layout(k))
        + " \u{2014} it may need a dead-key sequence, which synthetic input cannot express"@
}

/// Which evdev key, with which modifiers, produces `c` on this keymap, or
/// the refusal naming it. The layout engine this crate builds against
/// (hairetsu 0.1.0) has no reverse lookup from a keysym to its key, so the
/// search runs here, over the engine's own per-level keysym answers, lowest
/// keycode and level first.
pub fn key_for_char(keymap: &LayoutKeymap, c: char) -> (r: Result<(u32, u32), String>)
    ensures
        !modifier_keysym(char_keysym(c)),
        match key_for(*keymap, c) {
            Some(p) => r == Ok::<(u32, u32), String>(p),
            None => r matches Err(e) && e@ == unreachable_message(*keymap, c),
        },
{
    let sym = keysym_for_char(c);
    let lowest = min_keycode(keymap);
    let lo = if lowest < 8 {
        8
    } else {
        lowest
    };
    let hi = max_keycode(keymap);
    let ghost keys = keymap_keys(*keymap);
    let mut kc = lo;
    let mut found: Option<(u32, u32)> = None;
    if lo <= hi {
        loop
            invariant_except_break
                found is None,
            invariant
                lo <= kc <= hi,
                lo == first_xkb(keymap_span(*keymap).0),
                hi == keymap_span(*keymap).1,
                keys == keymap_keys(*keymap),
                sym == char_keysym(c),
                forall|kc2: u32, l2: int| lo <= kc2 < kc ==> !#[trigger] key_makes(keys, kc2, l2, sym),
            ensures
                match found {
                    Some((fk, fl)) => {
                        &&& lo <= fk <= hi
                        &&& key_makes(keys, fk, fl as int, sym)
                        &&& forall|kc2: u32, l2: int|
                            lo <= kc2 <= hi && #[trigger] key_makes(keys, kc2, l2, sym) ==> fk < kc2
                                || (fk == kc2 && fl <= l2)
                    },
                    None => forall|kc2: u32, l2: int|
                        lo <= kc2 <= hi ==> !#[trigger] key_makes(keys, kc2, l2, sym),
                },
            decreases hi - kc,
        {
            let n = level_count(keymap, kc);
            let mut l: u32 = 0;
            let mut hit = false;
            while l < n && !hit
                invariant
                    l <= n,
                    n == (if keys.contains_key(kc) { keys[kc].len() } else { 0 }),
                    keys == keymap_keys(*keymap),
                    hit ==> l < n && key_makes(keys, kc, l as int, sym),
                    forall|l2: int| 0 <= l2 < l ==> !#[trigger] key_makes(keys, kc, l2, sym),
                decreases n - l + (if hit { 0int } else { 1int }),
            {
                match level_sym(keymap, kc, l) {
                    Some(s) => {
                        if s == sym {
                            hit = true;
                        } else {
                            l = l + 1;
                        }
                    },
                    None => {
                        l = l + 1;
                    },
                }
            }
            if hit {
                found = Some((kc, l));
                break;
            }
            proof {
                assert forall|l2: int| !#[trigger] key_makes(keys, kc, l2, sym) by {
                    if 0 <= l2 < n {
                    }
                }
            }
            if kc == hi {
                break;
            }
            kc = kc + 1;
        }
    }
    match found {
        Some((fk, fl)) => {
            proof {
                assert(key_makes(keys, fk, fl as int, sym));
                let (ck, cl) = choose|kc: u32, l: int|
                    lo <= kc <= hi && #[trigger] key_makes(keys, kc, l, sym) && (forall|kc2: u32, l2: int|
                        lo <= kc2 <= hi && #[trigger] key_makes(keys, kc2, l2, sym) ==> kc < kc2 || (kc
                            == kc2 && l <= l2));
                assert(ck == fk && cl == fl as int);
            }
            Ok((fk - 8, if fl == 0 {
                0
            } else if fl == 1 {
                MOD_SHIFT
            } else if fl == 2 {
                MOD_ALTGR
            } else {
                MOD_SHIFT + MOD_ALTGR
            }))
        },
        None => {
            let mut e = debug_char(c);
            e.append(" is not reachable by one keystroke on layout ");
            let name = layout_name(keymap);
            let d = debug_str(name.as_str());
            e.append(d.as_str());
            e.append(" \u{2014} it may need a dead-key sequence, which synthetic input cannot express");
            Err(e)
        },
    }
}

/// Whether modifiers `mods` hold Shift.
pub open spec fn shift_of(mods: u32) -> bool {
    mods == MOD_SHIFT || mods == MOD_SHIFT + MOD_ALTGR
}

/// Whether modifiers `mods` hold AltGr.
pub open spec fn altgr_of(mods: u32) -> bool {
    mods == MOD_ALTGR || mods == MOD_SHIFT + MOD_ALTGR
}

/// A press (`true`) or release of the key `code`.
pub open spec fn key_step(code: u32, pressed: bool) -> Step {
    Step::Key { code, pressed }
}

/// The steps one character adds: Shift, then AltGr, each only where it
/// changes from what is held, then the key itself pressed and released.
pub open spec fn char_steps(code: u32, mods: u32, shift_held: bool, altgr_held: bool) -> Seq<Step> {
    (if shift_of(mods) != shift_held {
        seq![key_step(KEY_LEFTSHIFT, shift_of(mods))]
    } else {
        Seq::empty()
    }) + (if altgr_of(mods) != altgr_held {
        seq![key_step(KEY_RIGHTALT, altgr_of(mods))]
    } else {
        Seq::empty()
    }) + seq![key_step(code, true), key_step(code, false)]
}

/// Every character of `cs` has a key on keymap `k`.
pub open spec fn all_reachable(k: LayoutKeymap, cs: Seq<char>) -> bool {
    forall|i: int| 0 <= i < cs.len() ==> #[trigger] key_for(k, cs[i]) is Some
}

/// Typing `cs` before the closing releases: the steps, and whether Shift and
/// AltGr are left held.
pub open spec fn typed(k: LayoutKeymap, cs: Seq<char>) -> (Seq<Step>, bool, bool)
    decreases cs.len(),
{
    if cs.len() == 0 {
        (Seq::empty(), false, false)
    } else {
        let (prev, shift_held, altgr_held) = typed(k, cs.drop_last());
        let (code, mods) = key_for(k, cs.last()).unwrap();
        (prev + char_steps(code, mods, shift_held, altgr_held), shift_of(mods), altgr_of(mods))
    }
}

/// The steps that type `cs`: every character in turn, then a release of each
/// modifier still held.
pub open spec fn text_steps(k: LayoutKeymap, cs: Seq<char>) -> Seq<Step> {
    let (steps, shift_held, altgr_held) = typed(k, cs);
    steps + (if shift_held {
        seq![key_step(KEY_LEFTSHIFT, false)]
    } else {
        Seq::empty()
    }) + (if altgr_held {
        seq![key_step(KEY_RIGHTALT, false)]
    } else {
        Seq::empty()
    })
}

/// What typing `t` on keymap `k` gives: the typed steps when every character
/// has a key, and otherwise the refusal of the first character that has none.
pub open spec fn text_expansion(k: LayoutKeymap, t: Seq<char>, r: Result<Vec<Step>, String>) -> bool {
    if all_reachable(k, t) {
        r matches Ok(v) && v@ == text_steps(k, t)
    } else {
        r matches Err(e) && exists|i: int|
            0 <= i < t.len() && #[trigger] key_for(k, t[i]) is None && all_reachable(k, t.take(i))
                && e@ == unreachable_message(k, t[i])
    }
}

/// What `expand` gives for `s` on keymap `k`: one step for a key or button,
/// and the typed steps, or the refusal, for a text.
pub open spec fn expansion(k: LayoutKeymap, s: Synth, r: Result<Vec<Step>, String>) -> bool {
    match s {
        Synth::Key { code, pressed } => r matches Ok(v) && v@ == seq![key_step(code, pressed)],
        Synth::Button { code, pressed } => r matches Ok(v) && v@ == seq![Step::Button { code, pressed }],
        Synth::Text(t) => text_expansion(k, t@, r),
    }
}

/// Expand one action into the key and button steps that perform it.
pub fn expand(s: &Synth, keymap: &LayoutKeymap) -> (r: Result<Vec<Step>, String>)
    ensures
        expansion(*keymap, *s, r),
        match *s {
            Synth::Text(t) => r is Ok ==> forall|i: int|
                0 <= i < t@.len() ==> !modifier_keysym(#[trigger] char_keysym(t@[i])),
            _ => true,
        },
{
    match s {
        Synth::Key { code, pressed } => {
            let v = vec![Step::Key { code: *code, pressed: *pressed }];
            proof {
                assert(v@ =~= seq![key_step(*code, *pressed)]);
            }
            Ok(v)
        },
        Synth::Button { code, pressed } => {
            let v = vec![Step::Button { code: *code, pressed: *pressed }];
            proof {
                assert(v@ =~= seq![Step::Button { code: *code, pressed: *pressed }]);
            }
            Ok(v)
        },
        Synth::Text(t) => expand_text(t.as_str(), keymap),
    }
}

/// Type a string: each character's key pressed and released in turn, with
/// Shift and AltGr changed only where they change, and released at the end.
/// The first character no single keystroke produces is refused.
pub fn expand_text(t: &str, keymap: &LayoutKeymap) -> (r: Result<Vec<Step>, String>)
    ensures
        text_expansion(*keymap, t@, r),
        r is Ok ==> forall|i: int| 0 <= i < t@.len() ==> !modifier_keysym(#[trigger] char_keysym(t@[i])),
{
    let cs = chars_of(t);
    let mut out: Vec<Step> = Vec::new();
    let mut shift_held = false;
    let mut altgr_held = false;
    let mut i: usize = 0;
    while i < cs.len()
        invariant
            cs@ == t@,
            i <= cs.len(),
            all_reachable(*keymap, cs@.take(i as int)),
            typed(*keymap, cs@.take(i as int)) == (out@, shift_held, altgr_held),
            forall|j: int| 0 <= j < i ==> !modifier_keysym(#[trigger] char_keysym(cs@[j])),
        decreases cs.len() - i,
    {
        let c = cs[i];
        let (code, mods) = match key_for_char(keymap, c) {
            Ok(p) => p,
            Err(e) => {
                proof {
                    assert(cs@.take(i as int) =~= t@.take(i as int));
                    assert(t@[i as int] == c);
                    assert(key_for(*keymap, t@[i as int]) is None);
                    assert(!all_reachable(*keymap, t@));
                    assert(e@ == unreachable_message(*keymap, t@[i as int]));
                    assert(all_reachable(*keymap, t@.take(i as int)));
                    let w = i as int;
                    assert(0 <= w < t@.len() && key_for(*keymap, t@[w]) is None && all_reachable(*keymap, t@.take(w))
                        && e@ == unreachable_message(*keymap, t@[w]));
                }
                return Err(e);
            },
        };
        proof {
            assert(mods == 0 || mods == MOD_SHIFT || mods == MOD_ALTGR || mods == MOD_SHIFT
                + MOD_ALTGR);
        }
        let shift = mods & MOD_SHIFT != 0;
        let altgr = mods & MOD_ALTGR != 0;
        proof {
            assert(shift == shift_of(mods) && altgr == altgr_of(mods)) by (bit_vector)
                requires
                    mods == 0u32 || mods == 1u32 || mods == 128u32 || mods == 129u32,
                    shift == (mods & 1u32 != 0),
                    altgr == (mods & 128u32 != 0),
            ;
        }
        let ghost before = out@;
        if shift != shift_held {
            out.push(Step::Key { code: KEY_LEFTSHIFT, pressed: shift });
            shift_held = shift;
        }
        if altgr != altgr_held {
            out.push(Step::Key { code: KEY_RIGHTALT, pressed: altgr });
            altgr_held = altgr;
        }
        out.push(Step::Key { code, pressed: true });
        out.push(Step::Key { code, pressed: false });
        proof {
            let old_shift = typed(*keymap, cs@.take(i as int)).1;
            let old_altgr = typed(*keymap, cs@.take(i as int)).2;
            assert(out@ =~= before + char_steps(code, mods, old_shift, old_altgr));
            let next = cs@.take(i + 1);
            assert(next.drop_last() =~= cs@.take(i as int));
            assert(next.last() == c);
            assert forall|j: int| 0 <= j < next.len() implies #[trigger] key_for(*keymap, next[j]) is Some by {
                if j < i {
                    assert(next[j] == cs@.take(i as int)[j]);
                }
            }
        }
        i = i + 1;
    }
    proof {
        assert(cs@.take(i as int) =~= t@);
    }
    let ghost body = out@;
    if shift_held {
        out.push(Step::Key { code: KEY_LEFTSHIFT, pressed: false });
    }
    if altgr_held {
        out.push(Step::Key { code: KEY_RIGHTALT, pressed: false });
    }
    proof {
        assert(out@ =~= text_steps(*keymap, t@));
    }
    Ok(out)
}

/// Replays `steps` from the keys `held` down: the keys down afterwards, or
/// `None` when a step presses a key already down or releases one that is up.
/// Buttons do not touch the keys.
pub open spec fn replay(held: Set<u32>, steps: Seq<Step>) -> Option<Set<u32>>
    decreases steps.len(),
{
    if steps.len() == 0 {
        Some(held)
    } else {
        match steps[0] {
            Step::Key { code, pressed } => if pressed == held.contains(code) {
                None
            } else {
                replay(
                    if pressed {
                        held.insert(code)
                    } else {
                        held.remove(code)
                    },
                    steps.drop_first(),
                )
            },
            Step::Button { .. } => replay(held, steps.drop_first()),
        }
    }
}

/// Replaying two runs one after the other is replaying the second from where
/// the first left off.
pub proof fn lemma_replay_append(held: Set<u32>, a: Seq<Step>, b: Seq<Step>)
    ensures
        replay(held, a + b) == match replay(held, a) {
            Some(h) => replay(h, b),
            None => None,
        },
    decreases a.len(),
{
    if a.len() == 0 {
        assert(a + b =~= b);
    } else {
        assert((a + b).drop_first() =~= a.drop_first() + b);
        match a[0] {
            Step::Key { code, pressed } => {
                if pressed != held.contains(code) {
                    let next = if pressed {
                        held.insert(code)
                    } else {
                        held.remove(code)
                    };
                    lemma_replay_append(next, a.drop_first(), b);
                }
            },
            Step::Button { .. } => {
                lemma_replay_append(held, a.drop_first(), b);
            },
        }
    }
}

/// The modifier keys down while Shift and AltGr are held as given.
pub open spec fn modifiers_down(shift: bool, altgr: bool) -> Set<u32> {
    (if shift {
        set![KEY_LEFTSHIFT]
    } else {
        Set::empty()
    }).union(
        if altgr {
            set![KEY_RIGHTALT]
        } else {
            Set::empty()
        },
    )
}

/// A character's steps leave exactly the modifiers it needs down, when its
/// own key is neither modifier.
proof fn lemma_char_steps_replay(code: u32, mods: u32, shift_held: bool, altgr_held: bool)
    requires
        code != KEY_LEFTSHIFT,
        code != KEY_RIGHTALT,
    ensures
        replay(modifiers_down(shift_held, altgr_held), char_steps(code, mods, shift_held, altgr_held))
            == Some(modifiers_down(shift_of(mods), altgr_of(mods))),
{
    let h0 = modifiers_down(shift_held, altgr_held);
    let sh = shift_of(mods);
    let ag = altgr_of(mods);
    let s1: Seq<Step> = if sh != shift_held {
        seq![key_step(KEY_LEFTSHIFT, sh)]
    } else {
        Seq::empty()
    };
    let s2: Seq<Step> = if ag != altgr_held {
        seq![key_step(KEY_RIGHTALT, ag)]
    } else {
        Seq::empty()
    };
    let s3: Seq<Step> = seq![key_step(code, true), key_step(code, false)];
    assert(char_steps(code, mods, shift_held, altgr_held) == s1 + s2 + s3);
    let h1 = modifiers_down(sh, altgr_held);
    let h2 = modifiers_down(sh, ag);
    lemma_replay_append(h0, s1 + s2, s3);
    lemma_replay_append(h0, s1, s2);
    reveal_with_fuel(replay, 3);
    assert(replay(h0, s1) == Some(h1)) by {
        if sh != shift_held {
            assert(s1.drop_first() =~= Seq::<Step>::empty());
            if sh {
                assert(h0.insert(KEY_LEFTSHIFT) =~= h1);
            } else {
                assert(h0.remove(KEY_LEFTSHIFT) =~= h1);
            }
        } else {
            assert(h0 =~= h1);
        }
    }
    assert(replay(h1, s2) == Some(h2)) by {
        if ag != altgr_held {
            assert(s2.drop_first() =~= Seq::<Step>::empty());
            if ag {
                assert(h1.insert(KEY_RIGHTALT) =~= h2);
            } else {
                assert(h1.remove(KEY_RIGHTALT) =~= h2);
            }
        } else {
            assert(h1 =~= h2);
        }
    }
    assert(replay(h2, s3) == Some(h2)) by {
        assert(!h2.contains(code));
        assert(s3.drop_first() =~= seq![key_step(code, false)]);
        assert(s3.drop_first().drop_first() =~= Seq::<Step>::empty());
        assert(h2.insert(code).remove(code) =~= h2);
    }
}

/// Typing `cs` up to the closing releases leaves exactly the held modifiers
/// down, every press and release on the way matching.
proof fn lemma_typed_replay(k: LayoutKeymap, cs: Seq<char>)
    requires
        all_reachable(k, cs),
        forall|i: int| 0 <= i < cs.len() ==> #[trigger] key_for(k, cs[i]).unwrap().0 != KEY_LEFTSHIFT
            && key_for(k, cs[i]).unwrap().0 != KEY_RIGHTALT,
    ensures
        replay(Set::empty(), typed(k, cs).0) == Some(modifiers_down(typed(k, cs).1, typed(k, cs).2)),
    decreases cs.len(),
{
    if cs.len() == 0 {
        assert(modifiers_down(false, false) =~= Set::<u32>::empty());
    } else {
        let prefix = cs.drop_last();
        assert forall|i: int| 0 <= i < prefix.len() implies #[trigger] key_for(k, prefix[i]) is Some by {
            assert(prefix[i] == cs[i]);
        }
        assert forall|i: int| 0 <= i < prefix.len() implies #[trigger] key_for(k, prefix[i]).unwrap().0
            != KEY_LEFTSHIFT && key_for(k, prefix[i]).unwrap().0 != KEY_RIGHTALT by {
            assert(prefix[i] == cs[i]);
        }
        lemma_typed_replay(k, prefix);
        let (prev, sh, ag) = typed(k, prefix);
        let last = cs[cs.len() - 1];
        assert(key_for(k, last) is Some);
        let (code, mods) = key_for(k, last).unwrap();
        lemma_replay_append(Set::empty(), prev, char_steps(code, mods, sh, ag));
        lemma_char_steps_replay(code, mods, sh, ag);
    }
}

/// Typing a text presses no key that is already down, releases none that is
/// up, and leaves nothing down at the end: in particular no modifier stays
/// held. This holds when no character's own key is Shift or AltGr.
pub proof fn lemma_typing_leaves_no_key_down(k: LayoutKeymap, cs: Seq<char>)
    requires
        all_reachable(k, cs),
        forall|i: int| 0 <= i < cs.len() ==> #[trigger] key_for(k, cs[i]).unwrap().0 != KEY_LEFTSHIFT
            && key_for(k, cs[i]).unwrap().0 != KEY_RIGHTALT,
    ensures
        replay(Set::empty(), text_steps(k, cs)) == Some(Set::<u32>::empty()),
{
    lemma_typed_replay(k, cs);
    let (steps, sh, ag) = typed(k, cs);
    let rs: Seq<Step> = if sh {
        seq![key_step(KEY_LEFTSHIFT, false)]
    } else {
        Seq::empty()
    };
    let ra: Seq<Step> = if ag {
        seq![key_step(KEY_RIGHTALT, false)]
    } else {
        Seq::empty()
    };
    assert(text_steps(k, cs) == steps + rs + ra);
    lemma_replay_append(Set::empty(), steps + rs, ra);
    lemma_replay_append(Set::empty(), steps, rs);
    let h0 = modifiers_down(sh, ag);
    let h1 = modifiers_down(false, ag);
    reveal_with_fuel(replay, 2);
    assert(replay(h0, rs) == Some(h1)) by {
        if sh {
            assert(rs.drop_first() =~= Seq::<Step>::empty());
            assert(h0.remove(KEY_LEFTSHIFT) =~= h1);
        } else {
            assert(h0 =~= h1);
        }
    }
    assert(replay(h1, ra) == Some(Set::<u32>::empty())) by {
        if ag {
            assert(ra.drop_first() =~= Seq::<Step>::empty());
            assert(h1.remove(KEY_RIGHTALT) =~= Set::<u32>::empty());
        } else {
            assert(h1 =~= Set::<u32>::empty());
        }
    }
}

/// How many of `steps` press Shift.
pub open spec fn shift_presses(steps: Seq<Step>) -> nat
    decreases steps.len(),
{
    if steps.len() == 0 {
        0
    } else {
        shift_presses(steps.drop_last()) + if steps.last() == key_step(KEY_LEFTSHIFT, true) {
            1nat
        } else {
            0nat
        }
    }
}

/// Character `c` is typed on keymap `k` with Shift held.
pub open spec fn needs_shift(k: LayoutKeymap, c: char) -> bool {
    shift_of(key_for(k, c).unwrap().1)
}

/// The maximal runs of consecutive characters of `cs` typed with Shift.
pub open spec fn shift_runs(k: LayoutKeymap, cs: Seq<char>) -> nat
    decreases cs.len(),
{
    if cs.len() == 0 {
        0
    } else {
        shift_runs(k, cs.drop_last()) + if needs_shift(k, cs.last()) && (cs.len() == 1
            || !needs_shift(k, cs[cs.len() - 2])) {
            1nat
        } else {
            0nat
        }
    }
}

proof fn lemma_shift_presses_append(a: Seq<Step>, b: Seq<Step>)
    ensures
        shift_presses(a + b) == shift_presses(a) + shift_presses(b),
    decreases b.len(),
{
    if b.len() == 0 {
        assert(a + b =~= a);
    } else {
        lemma_shift_presses_append(a, b.drop_last());
        assert((a + b).drop_last() =~= a + b.drop_last());
    }
}

/// A character's steps press Shift exactly when it needs Shift and Shift is
/// not already held.
proof fn lemma_char_shift_presses(code: u32, mods: u32, shift_held: bool, altgr_held: bool)
    requires
        code != KEY_LEFTSHIFT,
    ensures
        shift_presses(char_steps(code, mods, shift_held, altgr_held)) == if shift_of(mods)
            && !shift_held {
            1nat
        } else {
            0nat
        },
{
    let s1: Seq<Step> = if shift_of(mods) != shift_held {
        seq![key_step(KEY_LEFTSHIFT, shift_of(mods))]
    } else {
        Seq::empty()
    };
    let s2: Seq<Step> = if altgr_of(mods) != altgr_held {
        seq![key_step(KEY_RIGHTALT, altgr_of(mods))]
    } else {
        Seq::empty()
    };
    let s3: Seq<Step> = seq![key_step(code, true), key_step(code, false)];
    assert(char_steps(code, mods, shift_held, altgr_held) == s1 + s2 + s3);
    lemma_shift_presses_append(s1 + s2, s3);
    lemma_shift_presses_append(s1, s2);
    reveal_with_fuel(shift_presses, 3);
    assert(s3.drop_last() =~= seq![key_step(code, true)]);
    assert(s3.drop_last().drop_last() =~= Seq::<Step>::empty());
    if s1.len() > 0 {
        assert(s1.drop_last() =~= Seq::<Step>::empty());
    }
    if s2.len() > 0 {
        assert(s2.drop_last() =~= Seq::<Step>::empty());
    }
}

proof fn lemma_typed_shift(k: LayoutKeymap, cs: Seq<char>)
    requires
        forall|i: int| 0 <= i < cs.len() ==> #[trigger] key_for(k, cs[i]).unwrap().0 != KEY_LEFTSHIFT,
    ensures
        cs.len() == 0 ==> !typed(k, cs).1,
        cs.len() > 0 ==> typed(k, cs).1 == needs_shift(k, cs.last()),
        shift_presses(typed(k, cs).0) == shift_runs(k, cs),
    decreases cs.len(),
{
    if cs.len() > 0 {
        let p = cs.drop_last();
        assert forall|i: int| 0 <= i < p.len() implies #[trigger] key_for(k, p[i]).unwrap().0
            != KEY_LEFTSHIFT by {
            assert(p[i] == cs[i]);
        }
        lemma_typed_shift(k, p);
        let (prev, sh, ag) = typed(k, p);
        let last = cs[cs.len() - 1];
        assert(key_for(k, last).unwrap().0 != KEY_LEFTSHIFT);
        let (code, mods) = key_for(k, last).unwrap();
        lemma_shift_presses_append(prev, char_steps(code, mods, sh, ag));
        lemma_char_shift_presses(code, mods, sh, ag);
        if p.len() > 0 {
            assert(p.last() == cs[cs.len() - 2]);
        }
    }
}

/// Typing a text presses Shift once for each maximal run of characters that
/// need it, not once for each such character. This holds when no
/// character's own key is Shift.
pub proof fn lemma_shift_once_per_run(k: LayoutKeymap, cs: Seq<char>)
    requires
        all_reachable(k, cs),
        forall|i: int| 0 <= i < cs.len() ==> #[trigger] key_for(k, cs[i]).unwrap().0 != KEY_LEFTSHIFT,
    ensures
        shift_presses(text_steps(k, cs)) == shift_runs(k, cs),
{
    lemma_typed_shift(k, cs);
    let (steps, sh, ag) = typed(k, cs);
    let rs: Seq<Step> = if sh {
        seq![key_step(KEY_LEFTSHIFT, false)]
    } else {
        Seq::empty()
    };
    let ra: Seq<Step> = if ag {
        seq![key_step(KEY_RIGHTALT, false)]
    } else {
        Seq::empty()
    };
    assert(text_steps(k, cs) == steps + rs + ra);
    lemma_shift_presses_append(steps + rs, ra);
    lemma_shift_presses_append(steps, rs);
    reveal_with_fuel(shift_presses, 2);
    if sh {
        assert(rs.drop_last() =~= Seq::<Step>::empty());
    }
    if ag {
        assert(ra.drop_last() =~= Seq::<Step>::empty());
    }
}

/// Of the keys in `[lo, hi]` that produce `sym`, one comes first: lowest
/// keycode, then lowest level.
proof fn lemma_first_key_exists(keys: Map<u32, Seq<u32>>, lo: u32, hi: u32, sym: u32, kc: u32, l: int)
    requires
        lo <= kc <= hi,
        key_makes(keys, kc, l, sym),
    ensures
        exists|a: u32, b: int|
            lo <= a <= hi && #[trigger] key_makes(keys, a, b, sym) && (forall|kc2: u32, l2: int|
                lo <= kc2 <= hi && #[trigger] key_makes(keys, kc2, l2, sym) ==> a < kc2 || (a == kc2
                    && b <= l2)),
    decreases kc - lo, l,
{
    if exists|a2: u32, b2: int|
        lo <= a2 <= hi && #[trigger] key_makes(keys, a2, b2, sym) && (a2 < kc || (a2 == kc && b2 < l)) {
        let (a2, b2) = choose|a2: u32, b2: int|
            lo <= a2 <= hi && #[trigger] key_makes(keys, a2, b2, sym) && (a2 < kc || (a2 == kc && b2 < l));
        lemma_first_key_exists(keys, lo, hi, sym, a2, b2);
    } else {
        assert(forall|kc2: u32, l2: int|
            lo <= kc2 <= hi && #[trigger] key_makes(keys, kc2, l2, sym) ==> kc < kc2 || (kc == kc2 && l
                <= l2));
    }
}

/// On the US layout no character that is not a modifier's keysym is typed
/// on the Shift or AltGr key.
proof fn lemma_us_key_is_no_modifier(k: LayoutKeymap, c: char)
    requires
        keymap_keys(k) == us_keys(),
        key_for(k, c) is Some,
        !modifier_keysym(char_keysym(c)),
    ensures
        key_for(k, c).unwrap().0 != KEY_LEFTSHIFT,
        key_for(k, c).unwrap().0 != KEY_RIGHTALT,
{
    lemma_us_modifier_keys();
    let keys = keymap_keys(k);
    let sym = char_keysym(c);
    let lo = first_xkb(keymap_span(k).0);
    let hi = keymap_span(k).1;
    assert(find_key(keys, lo, hi, sym) is Some);
    let (kc0, l0) = choose|kc: u32, l: int| lo <= kc <= hi && #[trigger] key_makes(keys, kc, l, sym);
    lemma_first_key_exists(keys, lo, hi, sym, kc0, l0);
    let (kc, l) = choose|kc: u32, l: int|
        lo <= kc <= hi && #[trigger] key_makes(keys, kc, l, sym) && (forall|kc2: u32, l2: int|
            lo <= kc2 <= hi && #[trigger] key_makes(keys, kc2, l2, sym) ==> kc < kc2 || (kc == kc2 && l
                <= l2));
    assert(find_key(keys, lo, hi, sym) == Some((kc, l as u32)));
    assert(key_makes(keys, kc, l, sym));
    assert(kc >= 8);
    if kc == 50 || kc == 108 {
        assert(keys[kc][l] == sym);
    }
}

/// The US layout's left Shift key and right Alt key, each with its one
/// keysym.
proof fn lemma_us_modifier_keys()
    ensures
        us_keys().contains_key(50u32),
        us_keys()[50u32] == seq![0xffe1u32],
        us_keys().contains_key(108u32),
        us_keys()[108u32] == seq![0xffeau32],
{
    reveal(us_keys);
}

/// Typing a text on the US layout presses no key already down, releases
/// none that is up, leaves nothing down, and presses Shift once for each
/// maximal run of characters that need it. The keymap `keymap_for` gives
/// and a text `expand` typed without refusal meet what this asks.
pub proof fn lemma_typing_on_the_us_layout(k: LayoutKeymap, cs: Seq<char>)
    requires
        keymap_keys(k) == us_keys(),
        all_reachable(k, cs),
        forall|i: int| 0 <= i < cs.len() ==> !modifier_keysym(#[trigger] char_keysym(cs[i])),
    ensures
        replay(Set::empty(), text_steps(k, cs)) == Some(Set::<u32>::empty()),
        shift_presses(text_steps(k, cs)) == shift_runs(k, cs),
{
    assert forall|i: int| 0 <= i < cs.len() implies #[trigger] key_for(k, cs[i]).unwrap().0 != KEY_LEFTSHIFT
        && key_for(k, cs[i]).unwrap().0 != KEY_RIGHTALT by {
        assert(!modifier_keysym(char_keysym(cs[i])));
        lemma_us_key_is_no_modifier(k, cs[i]);
    }
    lemma_typing_leaves_no_key_down(k, cs);
    lemma_shift_once_per_run(k, cs);
}

/// The keymap synthetic input types against, for the layout the seat
/// published. The layout engine here serves the US layout alone, which is
/// also what `<bare>` and `<xkb default>` name, so every name resolves to it.
pub fn keymap_for(published: &str) -> (k: LayoutKeymap)
    ensures
        keymap_layout(k) == "English (US)"@,
        keymap_keys(k) == us_keys(),
        keymap_span(k) == (9u32, 135u32),
{
    us_keymap()
}

/// The keysyms of each key of the built-in US layout, by XKB keycode and
/// then by level: hairetsu's compiled `us` table.
#[verifier::opaque]
pub open spec fn us_keys() -> Map<u32, Seq<u32>> {
    map![
        9u32 => seq![0xff1b_u32],
        10u32 => seq![0x31_u32, 0x21_u32],
        11u32 => seq![0x32_u32, 0x40_u32],
        12u32 => seq![0x33_u32, 0x23_u32],
        13u32 => seq![0x34_u32, 0x24_u32],
        14u32 => seq![0x35_u32, 0x25_u32],
        15u32 => seq![0x36_u32, 0x5e_u32],
        16u32 => seq![0x37_u32, 0x26_u32],
        17u32 => seq![0x38_u32, 0x2a_u32],
        18u32 => seq![0x39_u32, 0x28_u32],
        19u32 => seq![0x30_u32, 0x29_u32],
        20u32 => seq![0x2d_u32, 0x5f_u32],
        21u32 => seq![0x3d_u32, 0x2b_u32],
        22u32 => seq![0xff08_u32],
        23u32 => seq![0xff09_u32],
        24u32 => seq![0x71_u32, 0x51_u32],
        25u32 => seq![0x77_u32, 0x57_u32],
        26u32 => seq![0x65_u32, 0x45_u32],
        27u32 => seq![0x72_u32, 0x52_u32],
        28u32 => seq![0x74_u32, 0x54_u32],
        29u32 => seq![0x79_u32, 0x59_u32],
        30u32 => seq![0x75_u32, 0x55_u32],
        31u32 => seq![0x69_u32, 0x49_u32],
        32u32 => seq![0x6f_u32, 0x4f_u32],
        33u32 => seq![0x70_u32, 0x50_u32],
        34u32 => seq![0x5b_u32, 0x7b_u32],
        35u32 => seq![0x5d_u32, 0x7d_u32],
        36u32 => seq![0xff0d_u32],
        37u32 => seq![0xffe3_u32],
        38u32 => seq![0x61_u32, 0x41_u32],
        39u32 => seq![0x73_u32, 0x53_u32],
        40u32 => seq![0x64_u32, 0x44_u32],
        41u32 => seq![0x66_u32, 0x46_u32],
        42u32 => seq![0x67_u32, 0x47_u32],
        43u32 => seq![0x68_u32, 0x48_u32],
        44u32 => seq![0x6a_u32, 0x4a_u32],
        45u32 => seq![0x6b_u32, 0x4b_u32],
        46u32 => seq![0x6c_u32, 0x4c_u32],
        47u32 => seq![0x3b_u32, 0x3a_u32],
        48u32 => seq![0x27_u32, 0x22_u32],
        49u32 => seq![0x60_u32, 0x7e_u32],
        50u32 => seq![0xffe1_u32],
        51u32 => seq![0x5c_u32, 0x7c_u32],
        52u32 => seq![0x7a_u32, 0x5a_u32],
        53u32 => seq![0x78_u32, 0x58_u32],
        54u32 => seq![0x63_u32, 0x43_u32],
        55u32 => seq![0x76_u32, 0x56_u32],
        56u32 => seq![0x62_u32, 0x42_u32],
        57u32 => seq![0x6e_u32, 0x4e_u32],
        58u32 => seq![0x6d_u32, 0x4d_u32],
        59u32 => seq![0x2c_u32, 0x3c_u32],
        60u32 => seq![0x2e_u32, 0x3e_u32],
        61u32 => seq![0x2f_u32, 0x3f_u32],
        62u32 => seq![0xffe2_u32],
        63u32 => seq![0xffaa_u32],
        64u32 => seq![0xffe9_u32],
        65u32 => seq![0x20_u32],
        66u32 => seq![0xffe5_u32],
        67u32 => seq![0xffbe_u32],
        68u32 => seq![0xffbf_u32],
        69u32 => seq![0xffc0_u32],
        70u32 => seq![0xffc1_u32],
        71u32 => seq![0xffc2_u32],
        72u32 => seq![0xffc3_u32],
        73u32 => seq![0xffc4_u32],
        74u32 => seq![0xffc5_u32],
        75u32 => seq![0xffc6_u32],
        76u32 => seq![0xffc7_u32],
        77u32 => seq![0xff7f_u32],
        78u32 => seq![0xff14_u32],
        79u32 => seq![0xff95_u32, 0xffb7_u32],
        80u32 => seq![0xff97_u32, 0xffb8_u32],
        81u32 => seq![0xff9a_u32, 0xffb9_u32],
        82u32 => seq![0xffad_u32],
        83u32 => seq![0xff96_u32, 0xffb4_u32],
        84u32 => seq![0xff9d_u32, 0xffb5_u32],
        85u32 => seq![0xff98_u32, 0xffb6_u32],
        86u32 => seq![0xffab_u32],
        87u32 => seq![0xff9c_u32, 0xffb1_u32],
        88u32 => seq![0xff99_u32, 0xffb2_u32],
        89u32 => seq![0xff9b_u32, 0xffb3_u32],
        90u32 => seq![0xff9e_u32, 0xffb0_u32],
        91u32 => seq![0xff9f_u32, 0xffae_u32],
        94u32 => seq![0x3c_u32, 0x3e_u32],
        95u32 => seq![0xffc8_u32],
        96u32 => seq![0xffc9_u32],
        104u32 => seq![0xff8d_u32],
        105u32 => seq![0xffe4_u32],
        106u32 => seq![0xffaf_u32],
        107u32 => seq![0xff61_u32],
        108u32 => seq![0xffea_u32],
        110u32 => seq![0xff50_u32],
        111u32 => seq![0xff52_u32],
        112u32 => seq![0xff55_u32],
        113u32 => seq![0xff51_u32],
        114u32 => seq![0xff53_u32],
        115u32 => seq![0xff57_u32],
        116u32 => seq![0xff54_u32],
        117u32 => seq![0xff56_u32],
        118u32 => seq![0xff63_u32],
        119u32 => seq![0xffff_u32],
        121u32 => seq![0x1008ff12_u32],
        122u32 => seq![0x1008ff11_u32],
        123u32 => seq![0x1008ff13_u32],
        127u32 => seq![0xff13_u32],
        133u32 => seq![0xffeb_u32],
        134u32 => seq![0xffec_u32],
        135u32 => seq![0xff67_u32],
    ]
}

/// The kind of each key of the built-in US layout, by XKB keycode:
/// hairetsu's compiled `us` table.
#[verifier::opaque]
pub open spec fn us_kinds() -> Map<u32, KeyKind> {
    map![
        9u32 => KeyKind::OneLevel,
        10u32 => KeyKind::TwoLevel,
        11u32 => KeyKind::TwoLevel,
        12u32 => KeyKind::TwoLevel,
        13u32 => KeyKind::TwoLevel,
        14u32 => KeyKind::TwoLevel,
        15u32 => KeyKind::TwoLevel,
        16u32 => KeyKind::TwoLevel,
        17u32 => KeyKind::TwoLevel,
        18u32 => KeyKind::TwoLevel,
        19u32 => KeyKind::TwoLevel,
        20u32 => KeyKind::TwoLevel,
        21u32 => KeyKind::TwoLevel,
        22u32 => KeyKind::OneLevel,
        23u32 => KeyKind::OneLevel,
        24u32 => KeyKind::Alphabetic,
        25u32 => KeyKind::Alphabetic,
        26u32 => KeyKind::Alphabetic,
        27u32 => KeyKind::Alphabetic,
        28u32 => KeyKind::Alphabetic,
        29u32 => KeyKind::Alphabetic,
        30u32 => KeyKind::Alphabetic,
        31u32 => KeyKind::Alphabetic,
        32u32 => KeyKind::Alphabetic,
        33u32 => KeyKind::Alphabetic,
        34u32 => KeyKind::TwoLevel,
        35u32 => KeyKind::TwoLevel,
        36u32 => KeyKind::OneLevel,
        37u32 => KeyKind::OneLevel,
        38u32 => KeyKind::Alphabetic,
        39u32 => KeyKind::Alphabetic,
        40u32 => KeyKind::Alphabetic,
        41u32 => KeyKind::Alphabetic,
        42u32 => KeyKind::Alphabetic,
        43u32 => KeyKind::Alphabetic,
        44u32 => KeyKind::Alphabetic,
        45u32 => KeyKind::Alphabetic,
        46u32 => KeyKind::Alphabetic,
        47u32 => KeyKind::TwoLevel,
        48u32 => KeyKind::TwoLevel,
        49u32 => KeyKind::TwoLevel,
        50u32 => KeyKind::OneLevel,
        51u32 => KeyKind::TwoLevel,
        52u32 => KeyKind::Alphabetic,
        53u32 => KeyKind::Alphabetic,
        54u32 => KeyKind::Alphabetic,
        55u32 => KeyKind::Alphabetic,
        56u32 => KeyKind::Alphabetic,
        57u32 => KeyKind::Alphabetic,
        58u32 => KeyKind::Alphabetic,
        59u32 => KeyKind::TwoLevel,
        60u32 => KeyKind::TwoLevel,
        61u32 => KeyKind::TwoLevel,
        62u32 => KeyKind::OneLevel,
        63u32 => KeyKind::OneLevel,
        64u32 => KeyKind::OneLevel,
        65u32 => KeyKind::OneLevel,
        66u32 => KeyKind::OneLevel,
        67u32 => KeyKind::OneLevel,
        68u32 => KeyKind::OneLevel,
        69u32 => KeyKind::OneLevel,
        70u32 => KeyKind::OneLevel,
        71u32 => KeyKind::OneLevel,
        72u32 => KeyKind::OneLevel,
        73u32 => KeyKind::OneLevel,
        74u32 => KeyKind::OneLevel,
        75u32 => KeyKind::OneLevel,
        76u32 => KeyKind::OneLevel,
        77u32 => KeyKind::OneLevel,
        78u32 => KeyKind::OneLevel,
        79u32 => KeyKind::Keypad,
        80u32 => KeyKind::Keypad,
        81u32 => KeyKind::Keypad,
        82u32 => KeyKind::OneLevel,
        83u32 => KeyKind::Keypad,
        84u32 => KeyKind::Keypad,
        85u32 => KeyKind::Keypad,
        86u32 => KeyKind::OneLevel,
        87u32 => KeyKind::Keypad,
        88u32 => KeyKind::Keypad,
        89u32 => KeyKind::Keypad,
        90u32 => KeyKind::Keypad,
        91u32 => KeyKind::Keypad,
        94u32 => KeyKind::TwoLevel,
        95u32 => KeyKind::OneLevel,
        96u32 => KeyKind::OneLevel,
        104u32 => KeyKind::OneLevel,
        105u32 => KeyKind::OneLevel,
        106u32 => KeyKind::OneLevel,
        107u32 => KeyKind::OneLevel,
        108u32 => KeyKind::OneLevel,
        110u32 => KeyKind::OneLevel,
        111u32 => KeyKind::OneLevel,
        112u32 => KeyKind::OneLevel,
        113u32 => KeyKind::OneLevel,
        114u32 => KeyKind::OneLevel,
        115u32 => KeyKind::OneLevel,
        116u32 => KeyKind::OneLevel,
        117u32 => KeyKind::OneLevel,
        118u32 => KeyKind::OneLevel,
        119u32 => KeyKind::OneLevel,
        121u32 => KeyKind::OneLevel,
        122u32 => KeyKind::OneLevel,
        123u32 => KeyKind::OneLevel,
        127u32 => KeyKind::OneLevel,
        133u32 => KeyKind::OneLevel,
        134u32 => KeyKind::OneLevel,
        135u32 => KeyKind::OneLevel,
    ]
}

/// The built-in US keymap, by `Keymap::us`: compiled from hairetsu's fixed
/// `us` table, its keys span XKB keycodes 9 to 135, and its layout is named
/// "English (US)".
#[verifier::external_body]
pub(crate) fn us_keymap() -> (k: LayoutKeymap)
    ensures
        keymap_layout(k) == "English (US)"@,
        keymap_keys(k) == us_keys(),
        keymap_kinds(k) == us_kinds(),
        keymap_span(k) == (9u32, 135u32),
{
    LayoutKeymap::us()
}

/// Where `c` first occurs in `s` at or after index `j`.
pub open spec fn index_from(s: Seq<char>, c: char, j: int) -> Option<int>
    decreases s.len() - j,
{
    if j < 0 || j >= s.len() {
        None
    } else if s[j] == c {
        Some(j)
    } else {
        index_from(s, c, j + 1)
    }
}

/// The key of `c` on a keyboard row whose first key has evdev code `base`.
pub open spec fn on_row(row: Seq<char>, c: char, base: u32, shifted: bool) -> Option<(u32, bool)> {
    match index_from(row, c, 0) {
        Some(i) => Some(((base + i) as u32, shifted)),
        None => None,
    }
}

/// `a` where it is `Some`, else `b`.
pub open spec fn or_else(a: Option<(u32, bool)>, b: Option<(u32, bool)>) -> Option<(u32, bool)> {
    if a is Some {
        a
    } else {
        b
    }
}

/// The US table: each printable row, unshifted then shifted, then the keys
/// outside the rows.
pub open spec fn us_key(c: char) -> Option<(u32, bool)> {
    or_else(on_row("1234567890-="@, c, 2, false), or_else(on_row("!@#$%^&*()_+"@, c, 2, true),
    or_else(on_row("qwertyuiop[]"@, c, 16, false), or_else(on_row("QWERTYUIOP{}"@, c, 16, true),
    or_else(on_row("asdfghjkl;'"@, c, 30, false), or_else(on_row("ASDFGHJKL:\""@, c, 30, true),
    or_else(on_row("zxcvbnm,./"@, c, 44, false), or_else(on_row("ZXCVBNM<>?"@, c, 44, true),
    other_key(c)))))))))
}

/// The keys outside the printable rows.
pub open spec fn other_key(c: char) -> Option<(u32, bool)> {
    if c == '\n' || c == '\r' {
        Some((28, false))
    } else if c == '\t' {
        Some((15, false))
    } else if c == ' ' {
        Some((57, false))
    } else if c == '\\' {
        Some((43, false))
    } else if c == '|' {
        Some((43, true))
    } else if c == '`' {
        Some((41, false))
    } else if c == '~' {
        Some((41, true))
    } else {
        None
    }
}

/// The key of `c` on one row, counting from `base`.
fn find_on_row(row: &str, c: char, base: u32, shifted: bool) -> (r: Option<(u32, bool)>)
    requires
        row@.len() <= 16,
        base <= 64,
    ensures
        r == on_row(row@, c, base, shifted),
{
    let n = row.unicode_len();
    let mut i: usize = 0;
    while i < n
        invariant
            n == row@.len(),
            n <= 16,
            base <= 64,
            i <= n,
            index_from(row@, c, 0) == index_from(row@, c, i as int),
        decreases n - i,
    {
        if row.get_char(i) == c {
            return Some((base + i as u32, shifted));
        }
        i = i + 1;
    }
    None
}

/// The retired US table: evdev code and Shift for each printable ASCII
/// character on a US keyboard, and for newline, tab and space.
pub fn evdev_for(c: char) -> (r: Option<(u32, bool)>)
    ensures
        r == us_key(c),
{
    proof {
        reveal_strlit("1234567890-=");
        reveal_strlit("!@#$%^&*()_+");
        reveal_strlit("qwertyuiop[]");
        reveal_strlit("QWERTYUIOP{}");
        reveal_strlit("asdfghjkl;'");
        reveal_strlit("ASDFGHJKL:\"");
        reveal_strlit("zxcvbnm,./");
        reveal_strlit("ZXCVBNM<>?");
    }
    if let Some(k) = find_on_row("1234567890-=", c, 2, false) {
        return Some(k);
    }
    if let Some(k) = find_on_row("!@#$%^&*()_+", c, 2, true) {
        return Some(k);
    }
    if let Some(k) = find_on_row("qwertyuiop[]", c, 16, false) {
        return Some(k);
    }
    if let Some(k) = find_on_row("QWERTYUIOP{}", c, 16, true) {
        return Some(k);
    }
    if let Some(k) = find_on_row("asdfghjkl;'", c, 30, false) {
        return Some(k);
    }
    if let Some(k) = find_on_row("ASDFGHJKL:\"", c, 30, true) {
        return Some(k);
    }
    if let Some(k) = find_on_row("zxcvbnm,./", c, 44, false) {
        return Some(k);
    }
    if let Some(k) = find_on_row("ZXCVBNM<>?", c, 44, true) {
        return Some(k);
    }
    if c == '\n' || c == '\r' {
        Some((28, false))
    } else if c == '\t' {
        Some((15, false))
    } else if c == ' ' {
        Some((57, false))
    } else if c == '\\' {
        Some((43, false))
    } else if c == '|' {
        Some((43, true))
    } else if c == '`' {
        Some((41, false))
    } else if c == '~' {
        Some((41, true))
    } else {
        None
    }
}

} // verus!
