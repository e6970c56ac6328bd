//! The seat's wall clock: UTC seconds to local `HH:MM`, honestly.
//!
//! The bar needs exactly one fact, the UTC offset in effect now, read from a
//! TZif buffer (RFC 8536). Only the parts needed for "what is the offset now"
//! are read; leap seconds, designations and the POSIX footer are skipped.
//! When no zone can be resolved the caller must say `UTC` rather than present
//! it as local.

use vstd::prelude::*;

verus! {

/// Seconds to add to UTC to get local time, and where it came from.
#[derive(Debug, Clone, Copy, PartialEq, Eq, Structural)]
pub enum Offset {
    /// Resolved from the system's zone data.
    Resolved(i32),
    /// No zone could be resolved.
    Unknown,
}

/// The unsigned big-endian 32-bit value at `s`.
pub open spec fn be_u32(d: Seq<u8>, s: int) -> int {
    d[s] * 0x100_0000 + d[s + 1] * 0x1_0000 + d[s + 2] * 0x100 + d[s + 3]
}

/// The signed big-endian 32-bit value at `s`.
pub open spec fn be_i32(d: Seq<u8>, s: int) -> int {
    let u = be_u32(d, s);
    if u >= 0x8000_0000 {
        u - 0x1_0000_0000
    } else {
        u
    }
}

/// The signed big-endian 64-bit value at `s`.
pub open spec fn be_i64(d: Seq<u8>, s: int) -> int {
    let u = be_u32(d, s) * 0x1_0000_0000 + be_u32(d, s + 4);
    if u >= 0x8000_0000_0000_0000 {
        u - 0x1_0000_0000_0000_0000
    } else {
        u
    }
}

/// Bytes `[s, s + 4)` spell `TZif`.
pub open spec fn magic_at(d: Seq<u8>, s: int) -> bool {
    d[s] == 0x54 && d[s + 1] == 0x5A && d[s + 2] == 0x69 && d[s + 3] == 0x66
}

/// The `i`th header count of the block whose counts start at `off`.
pub open spec fn count_at(d: Seq<u8>, off: int, i: int) -> int {
    be_u32(d, off + i * 4)
}

/// Bytes of a version-1 data block, from its header counts.
pub open spec fn v1_data_len(d: Seq<u8>) -> int {
    let isutcnt = count_at(d, 20, 0);
    let isstdcnt = count_at(d, 20, 1);
    let leapcnt = count_at(d, 20, 2);
    let timecnt = count_at(d, 20, 3);
    let typecnt = count_at(d, 20, 4);
    let charcnt = count_at(d, 20, 5);
    timecnt * 5 + typecnt * 6 + charcnt + leapcnt * 8 + isstdcnt + isutcnt
}

/// The transition time `i`, 8 or 4 bytes wide from `base`, if the buffer
/// holds it.
pub open spec fn time_at(d: Seq<u8>, base: int, wide: bool, i: int) -> Option<int> {
    if wide {
        if base + i * 8 + 8 <= d.len() {
            Some(be_i64(d, base + i * 8))
        } else {
            None
        }
    } else {
        if base + i * 4 + 4 <= d.len() {
            Some(be_i32(d, base + i * 4))
        } else {
            None
        }
    }
}

/// The byte at `k`, or 0 past the end.
pub open spec fn byte_or_zero(d: Seq<u8>, k: int) -> int {
    if 0 <= k < d.len() {
        d[k] as int
    } else {
        0
    }
}

/// The type index in effect at `at`: from transition `i` on, each transition
/// at or before `at` selects its type; the first one past `at`, or the first
/// the buffer does not hold, ends the scan.
pub open spec fn pick_from(
    d: Seq<u8>,
    base: int,
    wide: bool,
    types_at: int,
    tc: int,
    at: int,
    i: int,
    idx: int,
) -> int
    decreases tc - i,
{
    if i >= tc {
        idx
    } else {
        match time_at(d, base, wide, i) {
            Some(t) => if t <= at {
                pick_from(d, base, wide, types_at, tc, at, i + 1, byte_or_zero(d, types_at + i))
            } else {
                idx
            },
            None => idx,
        }
    }
}

/// The UTC offset of local time type `idx`, if it exists and the buffer
/// holds it.
pub open spec fn utoff_spec(d: Seq<u8>, ttinfo_at: int, typecnt: int, idx: int) -> Option<int> {
    if idx >= typecnt {
        None
    } else if ttinfo_at + idx * 6 + 4 <= d.len() {
        Some(be_i32(d, ttinfo_at + idx * 6))
    } else {
        None
    }
}

/// The offset at `at` from a data block at `base` with `tc` transitions and
/// `ty` local time types.
pub open spec fn lookup_spec(d: Seq<u8>, base: int, wide: bool, tc: int, ty: int, at: int) -> Option<int> {
    let w = if wide { 8int } else { 4int };
    let types_at = base + tc * w;
    let ttinfo_at = types_at + tc;
    utoff_spec(d, ttinfo_at, ty, pick_from(d, base, wide, types_at, tc, at, 0, 0))
}

/// The UTC offset in effect at `at` according to a TZif buffer: a version 2+
/// file is read from its second (64-bit) block, a version 1 file from its
/// only block.
pub open spec fn tzif_offset(d: Seq<u8>, at: int) -> Option<int> {
    if d.len() < 44 || !magic_at(d, 0) {
        None
    } else if d[4] >= 0x32 {
        let h2 = 44 + v1_data_len(d);
        if d.len() < h2 + 44 || !magic_at(d, h2) {
            None
        } else {
            lookup_spec(d, h2 + 44, true, count_at(d, h2 + 20, 3), count_at(d, h2 + 20, 4), at)
        }
    } else {
        lookup_spec(d, 44, false, count_at(d, 20, 3), count_at(d, 20, 4), at)
    }
}

fn read_u32(d: &[u8], s: u128) -> (r: u64)
    requires
        s + 4 <= d@.len(),
    ensures
        r == be_u32(d@, s as int),
        r < 0x1_0000_0000,
{
    let k = s as usize;
    (d[k] as u64) * 0x100_0000 + (d[k + 1] as u64) * 0x1_0000 + (d[k + 2] as u64) * 0x100 + (d[k
        + 3] as u64)
}

fn read_i32(d: &[u8], s: u128) -> (r: i32)
    requires
        s + 4 <= d@.len(),
    ensures
        r == be_i32(d@, s as int),
{
    let u = read_u32(d, s);
    if u >= 0x8000_0000 {
        (u - 0x8000_0000) as i32 - 0x4000_0000 - 0x4000_0000
    } else {
        u as i32
    }
}

fn read_i64(d: &[u8], s: u128) -> (r: i64)
    requires
        s + 8 <= d@.len(),
    ensures
        r == be_i64(d@, s as int),
{
    let dl = d.len();
    let hi = read_u32(d, s);
    let lo = read_u32(d, s + 4);
    let u: u64 = hi * 0x1_0000_0000 + lo;
    if u >= 0x8000_0000_0000_0000 {
        (u - 0x8000_0000_0000_0000) as i64 - 0x4000_0000_0000_0000 - 0x4000_0000_0000_0000
    } else {
        u as i64
    }
}

fn is_magic(d: &[u8], s: u128) -> (r: bool)
    requires
        s + 4 <= d@.len(),
    ensures
        r == magic_at(d@, s as int),
{
    let k = s as usize;
    d[k] == 0x54 && d[k + 1] == 0x5A && d[k + 2] == 0x69 && d[k + 3] == 0x66
}

/// Find the UTC offset in effect at `at` in a TZif buffer; `None` for a
/// short, foreign or truncated buffer.
pub fn parse_tzif(d: &[u8], at: i64) -> (r: Option<i32>)
    ensures
        r == match tzif_offset(d@, at as int) {
            Some(o) => Some(o as i32),
            None => None::<i32>,
        },
        r is Some ==> tzif_offset(d@, at as int) == Some(r->0 as int),
{
    let len = d.len() as u128;
    if len < 44 || !is_magic(d, 0) {
        return None;
    }
    let version = d[4];
    let isutcnt = read_u32(d, 20);
    let isstdcnt = read_u32(d, 24);
    let leapcnt = read_u32(d, 28);
    let timecnt = read_u32(d, 32);
    let typecnt = read_u32(d, 36);
    let charcnt = read_u32(d, 40);
    if version >= 0x32 {
        let v1 = timecnt * 5 + typecnt * 6 + charcnt + leapcnt * 8 + isstdcnt + isutcnt;
        let h2 = 44 + v1 as u128;
        proof {
            assert(v1 == v1_data_len(d@));
        }
        if len < h2 + 44 || !is_magic(d, h2) {
            return None;
        }
        let timecnt2 = read_u32(d, h2 + 32);
        let typecnt2 = read_u32(d, h2 + 36);
        return lookup64(d, h2 + 44, timecnt2, typecnt2, at);
    }
    lookup32(d, 44, timecnt, typecnt, at)
}

/// The offset at `at` from a 64-bit data block at `base`.
pub fn lookup64(d: &[u8], base: u128, timecnt: u64, typecnt: u64, at: i64) -> (r: Option<i32>)
    requires
        base <= d@.len() + 0x1_0000_0000_0000,
        timecnt < 0x1_0000_0000,
        typecnt < 0x1_0000_0000,
    ensures
        r == match lookup_spec(d@, base as int, true, timecnt as int, typecnt as int, at as int) {
            Some(o) => Some(o as i32),
            None => None::<i32>,
        },
        r is Some ==> lookup_spec(d@, base as int, true, timecnt as int, typecnt as int, at as int)
            == Some(r->0 as int),
{
    let dl = d.len();
    let types_at = base + timecnt as u128 * 8;
    let ttinfo_at = types_at + timecnt as u128;
    let idx = pick(d, base, true, types_at, timecnt, at);
    utoff(d, ttinfo_at, typecnt, idx)
}

/// The offset at `at` from a 32-bit data block at `base`.
pub fn lookup32(d: &[u8], base: u128, timecnt: u64, typecnt: u64, at: i64) -> (r: Option<i32>)
    requires
        base <= d@.len() + 0x1_0000_0000_0000,
        timecnt < 0x1_0000_0000,
        typecnt < 0x1_0000_0000,
    ensures
        r == match lookup_spec(d@, base as int, false, timecnt as int, typecnt as int, at as int) {
            Some(o) => Some(o as i32),
            None => None::<i32>,
        },
        r is Some ==> lookup_spec(d@, base as int, false, timecnt as int, typecnt as int, at as int)
            == Some(r->0 as int),
{
    let dl = d.len();
    let types_at = base + timecnt as u128 * 4;
    let ttinfo_at = types_at + timecnt as u128;
    let idx = pick(d, base, false, types_at, timecnt, at);
    utoff(d, ttinfo_at, typecnt, idx)
}

/// The type index in effect at `at`: that of the last transition at or
/// before it.
pub fn pick(d: &[u8], base: u128, wide: bool, types_at: u128, tc: u64, at: i64) -> (idx: u64)
    requires
        base <= d@.len() + 0x1_0000_0000_0000,
        tc < 0x1_0000_0000,
        types_at <= base + tc * 8,
    ensures
        idx == pick_from(d@, base as int, wide, types_at as int, tc as int, at as int, 0, 0),
        idx < 256,
{
    let len = d.len() as u128;
    let mut idx: u64 = 0;
    let mut i: u64 = 0;
    while i < tc
        invariant
            i <= tc,
            tc < 0x1_0000_0000,
            base <= len + 0x1_0000_0000_0000,
            len == d@.len(),
            len <= usize::MAX,
            types_at <= base + tc * 8,
            idx < 256,
            pick_from(d@, base as int, wide, types_at as int, tc as int, at as int, 0, 0)
                == pick_from(d@, base as int, wide, types_at as int, tc as int, at as int, i as int, idx as int),
        decreases tc - i,
    {
        let w: u128 = if wide {
            8
        } else {
            4
        };
        let s = base + i as u128 * w;
        if s + w > len {
            return idx;
        }
        let t: i64 = if wide {
            read_i64(d, s)
        } else {
            read_i32(d, s) as i64
        };
        if t > at {
            return idx;
        }
        let k = types_at + i as u128;
        idx = if k < len {
            d[k as usize] as u64
        } else {
            0
        };
        i = i + 1;
    }
    idx
}

/// The UTC offset of type `idx` in the records at `ttinfo_at`, or `None`
/// when there is no such type or the buffer does not hold it.
pub fn utoff(d: &[u8], ttinfo_at: u128, typecnt: u64, idx: u64) -> (r: Option<i32>)
    requires
        ttinfo_at <= 0x1_0000_0000_0000_0000_0000,
        idx < 256,
    ensures
        r == match utoff_spec(d@, ttinfo_at as int, typecnt as int, idx as int) {
            Some(o) => Some(o as i32),
            None => None::<i32>,
        },
        r is Some ==> utoff_spec(d@, ttinfo_at as int, typecnt as int, idx as int) == Some(
            r->0 as int,
        ),
{
    if idx >= typecnt {
        return None;
    }
    let s = ttinfo_at + idx as u128 * 6;
    if s + 4 <= d.len() as u128 {
        Some(read_i32(d, s))
    } else {
        None
    }
}

/// The offset a zone file gives at `utc_secs`: `Unknown` when there is no
/// file or it cannot be read as TZif.
pub fn offset(zone: Option<&[u8]>, utc_secs: i64) -> (o: Offset)
    ensures
        o == match zone {
            Some(d) => match tzif_offset(d@, utc_secs as int) {
                Some(v) => Offset::Resolved(v as i32),
                None => Offset::Unknown,
            },
            None => Offset::Unknown,
        },
{
    match zone {
        Some(d) => match parse_tzif(d, utc_secs) {
            Some(v) => Offset::Resolved(v),
            None => Offset::Unknown,
        },
        None => Offset::Unknown,
    }
}

/// The ASCII digit for `d < 10`.
pub open spec fn digit(d: int) -> char {
    (48 + d) as char
}

/// `HH:MM` of the time of day `secs` seconds after some midnight (any
/// integer, reduced into the day).
pub open spec fn hhmm_text(secs: int) -> Seq<char> {
    let day = secs % 86400;
    let hh = day / 3600;
    let mm = (day % 3600) / 60;
    seq![digit(hh / 10), digit(hh % 10), ':', digit(mm / 10), digit(mm % 10)]
}

pub open spec fn local_secs(utc_secs: int, o: Offset) -> int {
    match o {
        Offset::Resolved(v) => utc_secs + v,
        Offset::Unknown => utc_secs,
    }
}

fn ascii_digit(d: u64) -> (c: char)
    requires
        d < 10,
    ensures
        c == digit(d as int),
{
    let b: u8 = 48 + d as u8;
    proof {
        assert(b == 48 + d);
    }
    b as char
}

/// `HH:MM` for a UTC timestamp under an offset, plus whether the offset was
/// resolved.
pub fn hhmm(utc_secs: i64, o: Offset) -> (r: (String, bool))
    requires
        i64::MIN <= local_secs(utc_secs as int, o) <= i64::MAX,
    ensures
        r.0@ == hhmm_text(local_secs(utc_secs as int, o)),
        r.1 == (o is Resolved),
{
    let (secs, resolved) = match o {
        Offset::Resolved(v) => (utc_secs + v as i64, true),
        Offset::Unknown => (utc_secs, false),
    };
    // Shifted by a whole number of days onto the non-negative side, so the
    // remainder is the Euclidean one.
    let shift: i128 = 86400 * 0x8000_0000_0000;
    let pos: u128 = (secs as i128 + shift) as u128;
    let day: u64 = (pos % 86400) as u64;
    proof {
        vstd::arithmetic::div_mod::lemma_mod_multiples_vanish(0x8000_0000_0000, secs as int, 86400);
        assert((86400 * 0x8000_0000_0000 + secs as int) % 86400 == (secs as int) % 86400);
        assert(day == (secs as int) % 86400);
    }
    let hh = day / 3600;
    let mm = (day % 3600) / 60;
    let mut s = String::new();
    crate::text::push_char(&mut s, ascii_digit(hh / 10));
    crate::text::push_char(&mut s, ascii_digit(hh % 10));
    crate::text::push_char(&mut s, ':');
    crate::text::push_char(&mut s, ascii_digit(mm / 10));
    crate::text::push_char(&mut s, ascii_digit(mm % 10));
    proof {
        assert(s@ =~= hhmm_text(secs as int));
    }
    (s, resolved)
}

/// The clock wraps within the day: a time and the same time a day later
/// read the same, and every reading is a real hour and minute.
pub proof fn lemma_hhmm_is_a_time_of_day(secs: int)
    ensures
        hhmm_text(secs) == hhmm_text(secs + 86400),
        0 <= secs % 86400 / 3600 < 24,
        0 <= (secs % 86400) % 3600 / 60 < 60,
{
    assert((secs + 86400) % 86400 == secs % 86400) by {
        vstd::arithmetic::div_mod::lemma_mod_add_multiples_vanish(secs, 86400);
    }
}

} // verus!
