//! ukeire (受け入れ): the seat's intake of physical input.
//!
//! When a physical input event arrives, what does it mean and how fast do we
//! take it? The keymap, the key-repeat pace, the scroll direction, the seat
//! modifier and the evdev-level remaps, each as a typed value. A remap set is
//! refused at the parse boundary when it rewrites a key an escape chord needs
//! (the VT switches and Ctrl+Alt+Delete), rewrites a key to itself, or names
//! one source twice.

use vstd::prelude::*;
use vstd::string::StringExecFns;
use crate::text::{chars_of, chars_eq, decimal, push_decimal};

verus! {

/// The default delay before a held key repeats, in milliseconds.
pub const DEFAULT_REPEAT_DELAY_MS: i32 = 200;

/// The default repeat rate, in repeats per second.
pub const DEFAULT_REPEAT_RATE_HZ: i32 = 45;

/// The default number of screen pixels per cursor-mask cell.
pub const DEFAULT_CURSOR_SCALE: i32 = 2;

/// `v` brought into `[lo, hi]`.
pub open spec fn clamp(v: int, lo: int, hi: int) -> int {
    if v < lo {
        lo
    } else if v > hi {
        hi
    } else {
        v
    }
}

fn clamp_i32(v: i32, lo: i32, hi: i32) -> (r: i32)
    requires
        lo <= hi,
    ensures
        r == clamp(v as int, lo as int, hi as int),
{
    if v < lo {
        lo
    } else if v > hi {
        hi
    } else {
        v
    }
}

/// 50..=2000 ms: below, every keypress becomes a burst; above, repeat looks
/// broken.
#[derive(Debug, Clone, Copy, PartialEq, Eq, Structural)]
pub struct RepeatDelayBounds;

impl RepeatDelayBounds {
    pub fn min() -> (v: i32)
        ensures
            v == 50,
    {
        50
    }

    pub fn max() -> (v: i32)
        ensures
            v == 2000,
    {
        2000
    }

    pub fn default() -> (v: i32)
        ensures
            v == DEFAULT_REPEAT_DELAY_MS,
    {
        DEFAULT_REPEAT_DELAY_MS
    }
}

/// 0..=100 Hz; 0 is Wayland's own spelling for "repeat disabled".
#[derive(Debug, Clone, Copy, PartialEq, Eq, Structural)]
pub struct RepeatRateBounds;

impl RepeatRateBounds {
    pub fn min() -> (v: i32)
        ensures
            v == 0,
    {
        0
    }

    pub fn max() -> (v: i32)
        ensures
            v == 100,
    {
        100
    }

    pub fn default() -> (v: i32)
        ensures
            v == DEFAULT_REPEAT_RATE_HZ,
    {
        DEFAULT_REPEAT_RATE_HZ
    }
}

/// 0.25..=10.0 lines per scroll detent; the fractional bounds are applied
/// where the scroll factor is read.
#[derive(Debug, Clone, Copy, PartialEq, Eq, Structural)]
pub struct ScrollFactorBounds;

/// 1..=6 screen pixels per cursor-mask cell.
#[derive(Debug, Clone, Copy, PartialEq, Eq, Structural)]
pub struct CursorScaleBounds;

impl CursorScaleBounds {
    pub fn min() -> (v: i32)
        ensures
            v == 1,
    {
        1
    }

    pub fn max() -> (v: i32)
        ensures
            v == 6,
    {
        6
    }

    pub fn default() -> (v: i32)
        ensures
            v == DEFAULT_CURSOR_SCALE,
    {
        DEFAULT_CURSOR_SCALE
    }
}

/// A cursor scale brought into its bounds.
pub fn cursor_scale(v: i32) -> (r: i32)
    ensures
        r == clamp(v as int, 1, 6),
{
    clamp_i32(v, 1, 6)
}

/// Which way a scroll detent moves the content.
#[derive(Debug, Clone, Copy, PartialEq, Eq, Structural)]
pub enum ScrollDirection {
    /// The content follows the wheel; the default.
    Traditional,
    /// The content follows the fingers.
    Natural,
}

impl Default for ScrollDirection {
    fn default() -> (d: Self)
        ensures
            d == ScrollDirection::Traditional,
    {
        ScrollDirection::Traditional
    }
}

/// The modifier the seat's chord vocabulary hangs off: two variants, both
/// known-safe, so a choice that collides with the VT-switch chords has no
/// representation.
#[derive(Debug, Clone, Copy, PartialEq, Eq, Structural)]
pub enum SeatModifier {
    /// The Super/Logo key; the default.
    Super,
    /// Alt.
    Alt,
}

impl Default for SeatModifier {
    fn default() -> (m: Self)
        ensures
            m == SeatModifier::Super,
    {
        SeatModifier::Super
    }
}

#[verifier::external_type_specification]
#[verifier::external_body]
pub struct ExModifiers(awase::Modifiers);

/// The bit mask of a modifier set, by `awase::Modifiers::bits`.
pub uninterp spec fn modifier_mask(m: awase::Modifiers) -> u8;

/// `awase::Modifiers::CMD`, the Super/Logo/Command modifier: bit 0.
#[verifier::external_body]
fn cmd_modifier() -> (m: awase::Modifiers)
    ensures
        modifier_mask(m) == 1,
{
    awase::Modifiers::CMD
}

/// `awase::Modifiers::ALT`: bit 2.
#[verifier::external_body]
fn alt_modifier() -> (m: awase::Modifiers)
    ensures
        modifier_mask(m) == 4,
{
    awase::Modifiers::ALT
}

impl SeatModifier {
    /// The awase modifier set the seat's chords hang off: Command for Super,
    /// Alt for Alt.
    pub fn modifiers(self) -> (m: awase::Modifiers)
        ensures
            modifier_mask(m) == match self {
                SeatModifier::Super => 1u8,
                SeatModifier::Alt => 4u8,
            },
    {
        match self {
            SeatModifier::Super => cmd_modifier(),
            SeatModifier::Alt => alt_modifier(),
        }
    }
}

/// The five xkb names; `None` is xkb's own default.
#[derive(Debug, Clone, PartialEq, Eq)]
pub struct Keymap {
    pub rules: Option<String>,
    pub model: Option<String>,
    pub layout: Option<String>,
    pub variant: Option<String>,
    pub options: Option<String>,
}

impl Default for Keymap {
    fn default() -> (k: Self)
        ensures
            k.rules is None && k.model is None && k.layout is None && k.variant is None
                && k.options is None,
    {
        Keymap { rules: None, model: None, layout: None, variant: None, options: None }
    }
}

impl Keymap {
    /// Every field absent: xkb's defaults.
    pub fn is_default(&self) -> (b: bool)
        ensures
            b <==> (self.rules is None && self.model is None && self.layout is None
                && self.variant is None && self.options is None),
    {
        self.rules.is_none() && self.model.is_none() && self.layout.is_none()
            && self.variant.is_none() && self.options.is_none()
    }
}

/// How fast a held key is taken: a delay in 50..=2000 ms and a rate in
/// 0..=100 Hz, where a rate of 0 disables repeat.
#[derive(Debug, Clone, Copy, PartialEq, Eq)]
pub struct Repeat {
    delay_ms: i32,
    rate_hz: i32,
}

impl View for Repeat {
    /// `(delay_ms, rate_hz)`.
    type V = (int, int);

    closed spec fn view(&self) -> (int, int) {
        (self.delay_ms as int, self.rate_hz as int)
    }
}

impl Repeat {
    #[verifier::type_invariant]
    spec fn in_bounds(self) -> bool {
        50 <= self.delay_ms <= 2000 && 0 <= self.rate_hz <= 100
    }

    /// A repeat pace, each value clamped into its bounds.
    pub fn new(delay_ms: i32, rate_hz: i32) -> (r: Self)
        ensures
            r@ == (clamp(delay_ms as int, 50, 2000), clamp(rate_hz as int, 0, 100)),
    {
        Repeat { delay_ms: clamp_i32(delay_ms, 50, 2000), rate_hz: clamp_i32(rate_hz, 0, 100) }
    }

    pub fn delay_ms(&self) -> (v: i32)
        ensures
            v == self@.0,
            50 <= v <= 2000,
    {
        proof {
            use_type_invariant(self);
        }
        self.delay_ms
    }

    pub fn rate_hz(&self) -> (v: i32)
        ensures
            v == self@.1,
            0 <= v <= 100,
    {
        proof {
            use_type_invariant(self);
        }
        self.rate_hz
    }

    /// The pair in the order the keyboard setup wants: `(delay_ms,
    /// rate_hz)`.
    pub fn smithay_repeat_info(self) -> (p: (i32, i32))
        ensures
            p.0 == self@.0 && p.1 == self@.1,
    {
        (self.delay_ms, self.rate_hz)
    }

    /// True when repeat is off.
    pub fn is_disabled(self) -> (b: bool)
        ensures
            b <==> self@.1 == 0,
    {
        self.rate_hz == 0
    }
}

impl Default for Repeat {
    /// 200 ms, then 45 repeats a second.
    fn default() -> (r: Self)
        ensures
            r@ == (200int, 45int),
    {
        Repeat { delay_ms: DEFAULT_REPEAT_DELAY_MS, rate_hz: DEFAULT_REPEAT_RATE_HZ }
    }
}

/// One evdev-level rewrite.
#[derive(Debug, Clone, Copy, PartialEq, Eq, Structural)]
pub struct Remap {
    /// evdev code to rewrite.
    pub from: u32,
    /// evdev code to rewrite it to.
    pub to: u32,
}

/// Why an intake policy was refused; every arm names the offending value.
#[derive(Debug, Clone, PartialEq, Eq)]
pub enum UkeireError {
    /// A remap whose source and target are the same key.
    SelfRemap { code: u32 },
    /// Two remaps claiming the same source key.
    DuplicateRemapSource { code: u32 },
    /// A remap of a key an escape chord needs.
    RemapOfReservedKey { code: u32, key: &'static str },
}

impl UkeireError {
    /// The refusal in words.
    pub fn to_string(&self) -> (s: String)
        ensures
            s@ == match self {
                UkeireError::SelfRemap { code } => "remap of evdev "@ + decimal(*code as nat)
                    + " to itself is a no-op"@,
                UkeireError::DuplicateRemapSource { code } => "evdev "@ + decimal(*code as nat)
                    + " is remapped more than once"@,
                UkeireError::RemapOfReservedKey { code, key } => "evdev "@ + decimal(
                    *code as nat,
                ) + " is "@ + key@
                    + ", reserved for an escape chord \u{2014} remapping it would remove the seat's own way out"@,
            },
    {
        match self {
            UkeireError::SelfRemap { code } => {
                let mut s = String::from_str("remap of evdev ");
                push_decimal(&mut s, *code as u64);
                s.append(" to itself is a no-op");
                s
            },
            UkeireError::DuplicateRemapSource { code } => {
                let mut s = String::from_str("evdev ");
                push_decimal(&mut s, *code as u64);
                s.append(" is remapped more than once");
                s
            },
            UkeireError::RemapOfReservedKey { code, key } => {
                let mut s = String::from_str("evdev ");
                push_decimal(&mut s, *code as u64);
                s.append(" is ");
                s.append(key);
                s.append(
                    ", reserved for an escape chord \u{2014} remapping it would remove the seat's own way out",
                );
                s
            },
        }
    }
}

/// The keys an escape chord needs, as `(key spelling, evdev code, name)`:
/// the spelling is the one a claim's last `+`-segment uses.
pub open spec fn escape_keys() -> Seq<(&'static str, u32, &'static str)> {
    seq![
        ("f1", 59u32, "F1"),
        ("f2", 60u32, "F2"),
        ("f3", 61u32, "F3"),
        ("f4", 62u32, "F4"),
        ("f5", 63u32, "F5"),
        ("f6", 64u32, "F6"),
        ("f7", 65u32, "F7"),
        ("f8", 66u32, "F8"),
        ("f9", 67u32, "F9"),
        ("f10", 68u32, "F10"),
        ("f11", 87u32, "F11"),
        ("f12", 88u32, "F12"),
        ("delete", 111u32, "Delete"),
    ]
}

fn escape_key_table() -> (v: Vec<(&'static str, u32, &'static str)>)
    ensures
        v@ == escape_keys(),
{
    let v = vec![
        ("f1", 59u32, "F1"),
        ("f2", 60u32, "F2"),
        ("f3", 61u32, "F3"),
        ("f4", 62u32, "F4"),
        ("f5", 63u32, "F5"),
        ("f6", 64u32, "F6"),
        ("f7", 65u32, "F7"),
        ("f8", 66u32, "F8"),
        ("f9", 67u32, "F9"),
        ("f10", 68u32, "F10"),
        ("f11", 87u32, "F11"),
        ("f12", 88u32, "F12"),
        ("delete", 111u32, "Delete"),
    ];
    proof {
        assert(v@ =~= escape_keys());
    }
    v
}

/// The part of a chord's spelling after its last `+`: the key.
pub open spec fn last_segment(s: Seq<char>) -> Seq<char>
    decreases s.len(),
{
    if s.len() == 0 {
        s
    } else if s.last() == '+' {
        Seq::empty()
    } else {
        last_segment(s.drop_last()).push(s.last())
    }
}

/// Some claim's key is exactly `name`.
pub open spec fn claimed(claims: Seq<Seq<char>>, name: Seq<char>) -> bool {
    exists|i: int| 0 <= i < claims.len() && last_segment(#[trigger] claims[i]) == name
}

/// The escape keys among the first `n` of the table that some claim names,
/// as `(evdev code, name)`.
pub open spec fn protected_upto(claims: Seq<Seq<char>>, n: int) -> Seq<(u32, &'static str)>
    decreases n,
{
    if n <= 0 {
        Seq::empty()
    } else {
        let rest = protected_upto(claims, n - 1);
        let k = escape_keys()[n - 1];
        if claimed(claims, k.0@) {
            rest.push((k.1, k.2))
        } else {
            rest
        }
    }
}

pub open spec fn protected(claims: Seq<Seq<char>>) -> Seq<(u32, &'static str)> {
    protected_upto(claims, 13)
}

fn last_segment_of(s: &str) -> (r: Vec<char>)
    ensures
        r@ == last_segment(s@),
{
    let v = chars_of(s);
    let mut k = v.len();
    proof {
        assert(v@.take(k as int) =~= v@);
        assert(v@.skip(k as int) =~= Seq::<char>::empty());
        assert(v@ + Seq::<char>::empty() =~= v@);
    }
    while k > 0 && v[k - 1] != '+'
        invariant
            k <= v@.len(),
            v@ == s@,
            last_segment(v@) == last_segment(v@.take(k as int)) + v@.skip(k as int),
        decreases k,
    {
        proof {
            let t = v@.take(k as int);
            assert(t.drop_last() =~= v@.take(k - 1));
            assert(t.last() == v@[k - 1]);
            assert(last_segment(t) == last_segment(v@.take(k - 1)).push(v@[k - 1]));
            assert(last_segment(v@.take(k - 1)).push(v@[k - 1]) + v@.skip(k as int) =~= last_segment(
                v@.take(k - 1),
            ) + v@.skip(k - 1));
        }
        k = k - 1;
    }
    proof {
        if k > 0 {
            assert(v@.take(k as int).last() == '+');
            assert(last_segment(v@.take(k as int)) == Seq::<char>::empty());
        } else {
            assert(v@.take(0) =~= Seq::<char>::empty());
        }
        assert(Seq::<char>::empty() + v@.skip(k as int) =~= v@.skip(k as int));
    }
    let mut r: Vec<char> = Vec::new();
    let mut j = k;
    let ghost start = j;
    while j < v.len()
        invariant
            start <= j <= v@.len(),
            r@ == v@.subrange(start as int, j as int),
        decreases v@.len() - j,
    {
        r.push(v[j]);
        j = j + 1;
        proof {
            assert(r@ =~= v@.subrange(start as int, j as int));
        }
    }
    proof {
        assert(r@ =~= v@.skip(start as int));
    }
    r
}

/// The escape keys the claims protect, as `(evdev code, name)`, in table
/// order: a key is protected when some claim's last `+`-segment is exactly
/// its spelling.
pub fn reserved_codes(claims: &Vec<String>) -> (r: Vec<(u32, &'static str)>)
    ensures
        r@ == protected(claims@.map_values(|c: String| c@)),
{
    let ghost cs = claims@.map_values(|c: String| c@);
    let mut segs: Vec<Vec<char>> = Vec::new();
    let mut i: usize = 0;
    while i < claims.len()
        invariant
            i <= claims@.len(),
            cs == claims@.map_values(|c: String| c@),
            segs@.len() == i,
            forall|j: int| 0 <= j < i ==> (#[trigger] segs@[j])@ == last_segment(cs[j]),
        decreases claims@.len() - i,
    {
        let seg = last_segment_of(claims[i].as_str());
        segs.push(seg);
        i = i + 1;
    }
    let table = escape_key_table();
    let mut out: Vec<(u32, &'static str)> = Vec::new();
    let mut k: usize = 0;
    while k < table.len()
        invariant
            k <= table@.len(),
            table@ == escape_keys(),
            segs@.len() == cs.len(),
            forall|j: int| 0 <= j < segs@.len() ==> (#[trigger] segs@[j])@ == last_segment(cs[j]),
            out@ == protected_upto(cs, k as int),
        decreases table@.len() - k,
    {
        let (name, code, disp) = table[k];
        let mut hit = false;
        let mut j: usize = 0;
        while j < segs.len()
            invariant
                j <= segs@.len(),
                segs@.len() == cs.len(),
                forall|q: int| 0 <= q < segs@.len() ==> (#[trigger] segs@[q])@ == last_segment(cs[q]),
                hit <==> exists|q: int| 0 <= q < j && last_segment(#[trigger] cs[q]) == name@,
            decreases segs@.len() - j,
        {
            if chars_eq(segs[j].as_slice(), name) {
                hit = true;
            }
            j = j + 1;
        }
        if hit {
            out.push((code, disp));
        }
        k = k + 1;
    }
    out
}

/// The first protected entry for evdev `code`, searching from `k`.
pub open spec fn first_protected(prot: Seq<(u32, &'static str)>, code: u32, k: int) -> Option<int>
    decreases prot.len() - k,
{
    if k >= prot.len() || k < 0 {
        None
    } else if prot[k].0 == code {
        Some(k)
    } else {
        first_protected(prot, code, k + 1)
    }
}

/// What is wrong with pair `i`, in order: a self-remap, a source seen
/// earlier, a protected source.
pub open spec fn errors_at(pairs: Seq<(u32, u32)>, i: int, prot: Seq<(u32, &'static str)>) -> Seq<
    UkeireError,
> {
    let from = pairs[i].0;
    let to = pairs[i].1;
    let a: Seq<UkeireError> = if from == to {
        seq![UkeireError::SelfRemap { code: from }]
    } else {
        Seq::empty()
    };
    let b: Seq<UkeireError> = if exists|j: int| 0 <= j < i && pairs[j].0 == from {
        seq![UkeireError::DuplicateRemapSource { code: from }]
    } else {
        Seq::empty()
    };
    let c: Seq<UkeireError> = match first_protected(prot, from, 0) {
        Some(k) => seq![UkeireError::RemapOfReservedKey { code: prot[k].0, key: prot[k].1 }],
        None => Seq::empty(),
    };
    a + b + c
}

/// Every problem with the first `n` pairs, in order.
pub open spec fn errors_upto(pairs: Seq<(u32, u32)>, n: int, prot: Seq<(u32, &'static str)>) -> Seq<
    UkeireError,
>
    decreases n,
{
    if n <= 0 {
        Seq::empty()
    } else {
        errors_upto(pairs, n - 1, prot) + errors_at(pairs, n - 1, prot)
    }
}

/// The remaps a pair list stands for.
pub open spec fn as_remaps(pairs: Seq<(u32, u32)>) -> Seq<Remap> {
    pairs.map_values(|p: (u32, u32)| Remap { from: p.0, to: p.1 })
}

/// A remap set that has already been proven safe.
#[derive(Debug, Clone, PartialEq, Eq)]
pub struct Remaps(Vec<Remap>);

impl View for Remaps {
    type V = Seq<Remap>;

    closed spec fn view(&self) -> Seq<Remap> {
        self.0@
    }
}

fn first_code(prot: &Vec<(u32, &'static str)>, code: u32) -> (r: Option<usize>)
    ensures
        r matches Some(k) ==> k < prot@.len() && first_protected(prot@, code, 0) == Some(k as int),
        r is None ==> first_protected(prot@, code, 0) is None,
{
    let mut k: usize = 0;
    while k < prot.len()
        invariant
            k <= prot@.len(),
            first_protected(prot@, code, 0) == first_protected(prot@, code, k as int),
        decreases prot@.len() - k,
    {
        if prot[k].0 == code {
            proof {
                assert(first_protected(prot@, code, k as int) == Some(k as int));
            }
            return Some(k);
        }
        k = k + 1;
    }
    None
}

fn to_remaps(pairs: &[(u32, u32)]) -> (v: Vec<Remap>)
    ensures
        v@ == as_remaps(pairs@),
{
    let mut v: Vec<Remap> = Vec::new();
    let mut i: usize = 0;
    while i < pairs.len()
        invariant
            i <= pairs@.len(),
            v@ == as_remaps(pairs@.take(i as int)),
        decreases pairs@.len() - i,
    {
        v.push(Remap { from: pairs[i].0, to: pairs[i].1 });
        i = i + 1;
        proof {
            assert(v@ =~= as_remaps(pairs@.take(i as int)));
        }
    }
    proof {
        assert(pairs@.take(i as int) =~= pairs@);
    }
    v
}

impl Remaps {
    /// Refuse anything unsafe against the keys `protected` names (as
    /// `(evdev code, name)`): every problem is reported, not just the first,
    /// and the pairs are accepted exactly when there is none.
    pub fn parse_with_protected(pairs: &[(u32, u32)], protected: &Vec<(u32, &'static str)>) -> (r:
        Result<Self, Vec<UkeireError>>)
        ensures
            errors_upto(pairs@, pairs@.len() as int, protected@).len() == 0 ==> (r matches Ok(m)
                && m@ == as_remaps(pairs@)),
            errors_upto(pairs@, pairs@.len() as int, protected@).len() > 0 ==> (r matches Err(e)
                && e@ == errors_upto(pairs@, pairs@.len() as int, protected@)),
    {
        let mut out: Vec<UkeireError> = Vec::new();
        let mut seen: Vec<u32> = Vec::new();
        let mut i: usize = 0;
        while i < pairs.len()
            invariant
                i <= pairs@.len(),
                out@ == errors_upto(pairs@, i as int, protected@),
                forall|x: u32| #[trigger] seen@.contains(x) <==> exists|j: int| 0 <= j < i && pairs@[j].0 == x,
            decreases pairs@.len() - i,
        {
            let (from, to) = pairs[i];
            let ghost before = out@;
            let ghost had_dup = exists|j: int| 0 <= j < i && pairs@[j].0 == from;
            if from == to {
                out.push(UkeireError::SelfRemap { code: from });
            }
            let ghost after_a = out@;
            let mut dup = false;
            let mut q: usize = 0;
            while q < seen.len()
                invariant
                    q <= seen@.len(),
                    dup <==> exists|p: int| 0 <= p < q && seen@[p] == from,
                decreases seen@.len() - q,
            {
                if seen[q] == from {
                    dup = true;
                }
                q = q + 1;
            }
            proof {
                if seen@.contains(from) {
                    let p = choose|p: int| 0 <= p < seen@.len() && seen@[p] == from;
                }
                assert(dup <==> seen@.contains(from));
                assert(dup <==> had_dup);
            }
            if dup {
                out.push(UkeireError::DuplicateRemapSource { code: from });
            } else {
                let ghost s0 = seen@;
                seen.push(from);
                proof {
                    assert forall|x: u32| #[trigger] seen@.contains(x) <==> exists|j: int|
                        0 <= j < i + 1 && pairs@[j].0 == x by {
                        if x == from {
                            assert(seen@[s0.len() as int] == from);
                        } else if seen@.contains(x) {
                            let p = choose|p: int| 0 <= p < seen@.len() && seen@[p] == x;
                            assert(s0[p] == x);
                            assert(s0.contains(x));
                        } else if exists|j: int| 0 <= j < i + 1 && pairs@[j].0 == x {
                            let j = choose|j: int| 0 <= j < i + 1 && pairs@[j].0 == x;
                            assert(j != i);
                            assert(s0.contains(x));
                            let p = choose|p: int| 0 <= p < s0.len() && s0[p] == x;
                            assert(seen@[p] == x);
                        }
                    }
                }
            }
            let ghost after_b = out@;
            let fc = first_code(protected, from);
            match fc {
                Some(k) => {
                    let e = UkeireError::RemapOfReservedKey { code: protected[k].0, key: protected[k].1 };
                    proof {
                        assert(first_protected(protected@, from, 0) == Some(k as int));
                        assert(e == UkeireError::RemapOfReservedKey { code: protected@[k as int].0, key: protected@[k as int].1 });
                    }
                    out.push(e);
                    proof {
                        assert(out@ =~= after_b + seq![e]);
                    }
                },
                None => {
                    proof {
                        assert(first_protected(protected@, from, 0) is None);
                        assert(out@ =~= after_b + Seq::<UkeireError>::empty());
                    }
                },
            }
            proof {
                let a: Seq<UkeireError> = if from == to {
                    seq![UkeireError::SelfRemap { code: from }]
                } else {
                    Seq::empty()
                };
                let b: Seq<UkeireError> = if had_dup {
                    seq![UkeireError::DuplicateRemapSource { code: from }]
                } else {
                    Seq::empty()
                };
                let c: Seq<UkeireError> = match first_protected(protected@, from, 0) {
                    Some(k) => seq![UkeireError::RemapOfReservedKey { code: protected@[k].0, key: protected@[k].1 }],
                    None => Seq::empty(),
                };
                assert(pairs@[i as int].0 == from && pairs@[i as int].1 == to);
                assert(after_a =~= before + a);
                assert(after_b =~= after_a + b);
                assert(out@ =~= after_b + c);
                assert(errors_at(pairs@, i as int, protected@) == a + b + c);
                assert(out@ =~= before + errors_at(pairs@, i as int, protected@));
                if dup {
                    assert forall|x: u32| #[trigger] seen@.contains(x) implies exists|j: int|
                        0 <= j < i + 1 && pairs@[j].0 == x by {}
                    assert forall|x: u32| (exists|j: int| 0 <= j < i + 1 && pairs@[j].0 == x) implies #[trigger] seen@.contains(x) by {
                        let j = choose|j: int| 0 <= j < i + 1 && pairs@[j].0 == x;
                        if j == i {
                            assert(seen@.contains(from));
                        }
                    }
                }
            }
            i = i + 1;
        }
        if out.len() == 0 {
            Ok(Remaps(to_remaps(pairs)))
        } else {
            Err(out)
        }
    }

    /// Refuse anything unsafe against a reservation policy's claims.
    pub fn parse_against(pairs: &[(u32, u32)], reserved: &awase::Reserved) -> (r: Result<
        Self,
        Vec<UkeireError>,
    >)
        ensures
            ({
                let prot = protected(reserved_claims(*reserved));
                &&& errors_upto(pairs@, pairs@.len() as int, prot).len() == 0 ==> (r matches Ok(m)
                    && m@ == as_remaps(pairs@))
                &&& errors_upto(pairs@, pairs@.len() as int, prot).len() > 0 ==> (r matches Err(e)
                    && e@ == errors_upto(pairs@, pairs@.len() as int, prot))
            }),
    {
        let claims = claim_spellings(reserved);
        proof {
            assert(claims@.map_values(|c: String| c@) =~= reserved_claims(*reserved));
        }
        let prot = reserved_codes(&claims);
        Remaps::parse_with_protected(pairs, &prot)
    }

    /// Refuse anything unsafe against the fleet's own reservation policy:
    /// the VT switches and Ctrl+Alt+Delete.
    pub fn parse(pairs: &[(u32, u32)]) -> (r: Result<Self, Vec<UkeireError>>)
        ensures
            ({
                let prot = protected(fleet_claims());
                &&& errors_upto(pairs@, pairs@.len() as int, prot).len() == 0 ==> (r matches Ok(m)
                    && m@ == as_remaps(pairs@))
                &&& errors_upto(pairs@, pairs@.len() as int, prot).len() > 0 ==> (r matches Err(e)
                    && e@ == errors_upto(pairs@, pairs@.len() as int, prot))
            }),
            (exists|i: int| 0 <= i < pairs@.len() && pairs@[i].0 == pairs@[i].1) ==> r is Err,
    {
        let reserved = fleet_linux();
        let r = Remaps::parse_against(pairs, &reserved);
        proof {
            let prot = protected(reserved_claims(reserved));
            if exists|i: int| 0 <= i < pairs@.len() && pairs@[i].0 == pairs@[i].1 {
                let i = choose|i: int| 0 <= i < pairs@.len() && pairs@[i].0 == pairs@[i].1;
                lemma_errors_grow(pairs@, prot, i + 1, pairs@.len() as int);
                assert(errors_upto(pairs@, i + 1, prot) == errors_upto(pairs@, i, prot) + errors_at(pairs@, i, prot));
                assert(errors_at(pairs@, i, prot).len() > 0);
            }
        }
        r
    }

    /// The pairs the remap layer wants.
    pub fn pairs(&self) -> (v: Vec<(u32, u32)>)
        ensures
            v@.len() == self@.len(),
            forall|i: int| 0 <= i < v@.len() ==> (#[trigger] v@[i]) == (self@[i].from, self@[i].to),
    {
        let mut v: Vec<(u32, u32)> = Vec::new();
        let mut i: usize = 0;
        while i < self.0.len()
            invariant
                i <= self@.len(),
                v@.len() == i,
                forall|j: int| 0 <= j < i ==> (#[trigger] v@[j]) == (self@[j].from, self@[j].to),
            decreases self@.len() - i,
        {
            v.push((self.0[i].from, self.0[i].to));
            i = i + 1;
        }
        v
    }

    /// How many rewrites.
    pub fn len(&self) -> (n: usize)
        ensures
            n == self@.len(),
    {
        self.0.len()
    }

    /// True when nothing is rewritten.
    pub fn is_empty(&self) -> (b: bool)
        ensures
            b <==> self@.len() == 0,
    {
        self.0.len() == 0
    }
}

impl Default for Remaps {
    fn default() -> (r: Self)
        ensures
            r@ == Seq::<Remap>::empty(),
    {
        Remaps(Vec::new())
    }
}

proof fn lemma_errors_grow(pairs: Seq<(u32, u32)>, prot: Seq<(u32, &'static str)>, m: int, n: int)
    requires
        0 <= m <= n,
    ensures
        errors_upto(pairs, m, prot).len() <= errors_upto(pairs, n, prot).len(),
    decreases n - m,
{
    if m < n {
        lemma_errors_grow(pairs, prot, m, n - 1);
    }
}

/// What a remap set would be refused for: nothing when it is accepted.
pub fn refusals(remaps: &[(u32, u32)], reserved: &awase::Reserved) -> (v: Vec<UkeireError>)
    ensures
        v@ == errors_upto(remaps@, remaps@.len() as int, protected(reserved_claims(*reserved))),
{
    match Remaps::parse_against(remaps, reserved) {
        Ok(_) => Vec::new(),
        Err(e) => e,
    }
}

#[verifier::external_type_specification]
#[verifier::external_body]
pub struct ExReserved(awase::Reserved);

/// The canonical spellings of the chords a reservation policy claims, in
/// the order it lists them.
pub uninterp spec fn reserved_claims(r: awase::Reserved) -> Seq<Seq<char>>;

/// The fleet policy's claims, spelled canonically and sorted: the reboot
/// chord, then the twelve VT switches in string order.
pub open spec fn fleet_claims() -> Seq<Seq<char>> {
    seq![
        "ctrl+alt+delete"@,
        "ctrl+alt+f1"@,
        "ctrl+alt+f10"@,
        "ctrl+alt+f11"@,
        "ctrl+alt+f12"@,
        "ctrl+alt+f2"@,
        "ctrl+alt+f3"@,
        "ctrl+alt+f4"@,
        "ctrl+alt+f5"@,
        "ctrl+alt+f6"@,
        "ctrl+alt+f7"@,
        "ctrl+alt+f8"@,
        "ctrl+alt+f9"@,
    ]
}

/// The canonical spelling of every claim, by `awase::Reserved::iter`.
#[verifier::external_body]
fn claim_spellings(r: &awase::Reserved) -> (v: Vec<String>)
    ensures
        v@.map_values(|c: String| c@) == reserved_claims(*r),
{
    let mut v = Vec::new();
    for (spelling, _) in r.iter() {
        v.push(spelling.to_string());
    }
    v
}

/// The fleet's reservation policy for a Linux seat, by
/// `awase::Reserved::fleet_linux`: Ctrl+Alt+F1 to F12 and Ctrl+Alt+Delete,
/// listed by canonical spelling in sorted order.
#[verifier::external_body]
fn fleet_linux() -> (r: awase::Reserved)
    ensures
        reserved_claims(r) == fleet_claims(),
{
    awase::Reserved::fleet_linux()
}

} // verus!
