//! The udev monitor's netlink wire: decoding one datagram into a hotplug
//! event.
//!
//! A hotplugged `/dev/input/event*` must be opened through the session, and
//! the session refuses a device udev has not finished processing; udev's own
//! monitor group announces a device only after its database entry is
//! written. This module decodes that group's datagrams: a header carrying a
//! `libudev` prefix, a big-endian magic and a native-order offset to a list
//! of NUL-separated `KEY=value` properties.

use vstd::prelude::*;
use vstd::utf8::{valid_utf8, decode_utf8};
use vstd::string::StringExecFns;
use vstd::string::StrSliceExecFns;

verus! {

/// A device appearing or disappearing, already narrowed to evdev nodes.
#[derive(Debug, Clone, PartialEq, Eq)]
pub enum Hotplug {
    /// udev finished processing a new `/dev/input/event*`.
    Added(String),
    /// The node is gone.
    Removed(String),
}

/// The monitor header is 40 bytes: an 8-byte prefix and eight 32-bit fields.
pub const HEADER_LEN: usize = 40;

pub open spec fn libudev_prefix() -> Seq<u8> {
    seq![0x6Cu8, 0x69u8, 0x62u8, 0x75u8, 0x64u8, 0x65u8, 0x76u8, 0x00u8]
}

pub open spec fn be32(b: Seq<u8>, s: int) -> int {
    b[s] * 0x100_0000 + b[s + 1] * 0x1_0000 + b[s + 2] * 0x100 + b[s + 3]
}

pub open spec fn le32(b: Seq<u8>, s: int) -> int {
    b[s + 3] * 0x100_0000 + b[s + 2] * 0x1_0000 + b[s + 1] * 0x100 + b[s]
}

/// The bytes split at every NUL, as `split` on a slice does: an input with
/// no NUL is one segment, and a trailing NUL leaves an empty last segment.
pub open spec fn split_nul(s: Seq<u8>) -> Seq<Seq<u8>>
    decreases s.len(),
{
    if exists|i: int| 0 <= i < s.len() && s[i] == 0 {
        proof {
            lemma_min_nul(s);
        }
        let i = first_nul(s);
        seq![s.take(i)] + split_nul(s.skip(i + 1))
    } else {
        seq![s]
    }
}

pub open spec fn first_nul(s: Seq<u8>) -> int {
    choose|i: int| 0 <= i < s.len() && s[i] == 0 && forall|j: int| 0 <= j < i ==> s[j] != 0
}

/// A sequence holding a NUL has a first one.
pub proof fn lemma_min_nul(s: Seq<u8>)
    requires
        exists|i: int| 0 <= i < s.len() && s[i] == 0,
    ensures
        exists|i: int| 0 <= i < s.len() && s[i] == 0 && forall|j: int| 0 <= j < i ==> s[j] != 0,
    decreases s.len(),
{
    if s[0] != 0 {
        let t = s.skip(1);
        let i = choose|i: int| 0 <= i < s.len() && s[i] == 0;
        assert(t[i - 1] == s[i]);
        lemma_min_nul(t);
        let k = choose|k: int| 0 <= k < t.len() && t[k] == 0 && forall|j: int| 0 <= j < k ==> t[j] != 0;
        assert(s[k + 1] == 0);
        assert forall|j: int| 0 <= j < k + 1 implies s[j] != 0 by {
            if j > 0 {
                assert(s[j] == t[j - 1]);
            }
        }
    } else {
        assert(forall|j: int| 0 <= j < 0 ==> s[j] != 0);
    }
}

/// The position of the first `=` in a property, if any.
pub open spec fn first_eq(p: Seq<u8>) -> int {
    choose|i: int| 0 <= i < p.len() && p[i] == 0x3D && forall|j: int| 0 <= j < i ==> p[j] != 0x3D
}

pub open spec fn has_eq(p: Seq<u8>) -> bool {
    exists|i: int| 0 <= i < p.len() && p[i] == 0x3D
}

/// The three properties the decoder reads, each the value of the last
/// `KEY=value` seen for its key.
pub struct Props {
    pub action: Option<Seq<u8>>,
    pub subsystem: Option<Seq<u8>>,
    pub devname: Option<Seq<u8>>,
}

pub open spec fn key_action() -> Seq<u8> {
    seq![0x41u8, 0x43u8, 0x54u8, 0x49u8, 0x4Fu8, 0x4Eu8]
}

pub open spec fn key_subsystem() -> Seq<u8> {
    seq![0x53u8, 0x55u8, 0x42u8, 0x53u8, 0x59u8, 0x53u8, 0x54u8, 0x45u8, 0x4Du8]
}

pub open spec fn key_devname() -> Seq<u8> {
    seq![0x44u8, 0x45u8, 0x56u8, 0x4Eu8, 0x41u8, 0x4Du8, 0x45u8]
}

/// The properties after reading one more `KEY=value` segment.
pub open spec fn with_prop(cur: Props, p: Seq<u8>) -> Props {
    if !has_eq(p) {
        cur
    } else {
        let e = first_eq(p);
        let k = p.take(e);
        let v = p.skip(e + 1);
        if k == key_action() {
            Props { action: Some(v), subsystem: cur.subsystem, devname: cur.devname }
        } else if k == key_subsystem() {
            Props { action: cur.action, subsystem: Some(v), devname: cur.devname }
        } else if k == key_devname() {
            Props { action: cur.action, subsystem: cur.subsystem, devname: Some(v) }
        } else {
            cur
        }
    }
}

pub open spec fn fold_props(segs: Seq<Seq<u8>>, cur: Props) -> Props
    decreases segs.len(),
{
    if segs.len() == 0 {
        cur
    } else {
        fold_props(segs.drop_first(), with_prop(cur, segs[0]))
    }
}

/// Properties are read in order, each segment on top of those before it, so
/// of two segments with the same key the later one wins: reading one more
/// segment after a list is applying it to what the list gave.
pub proof fn lemma_later_property_wins(segs: Seq<Seq<u8>>, cur: Props, p: Seq<u8>)
    ensures
        fold_props(segs.push(p), cur) == with_prop(fold_props(segs, cur), p),
    decreases segs.len(),
{
    if segs.len() == 0 {
        assert(seq![p].drop_first() =~= Seq::<Seq<u8>>::empty());
        assert(segs.push(p) =~= seq![p]);
        assert(fold_props(seq![p], cur) == fold_props(seq![p].drop_first(), with_prop(cur, p)));
    } else {
        assert(segs.push(p).drop_first() =~= segs.drop_first().push(p));
        assert(segs.push(p)[0] == segs[0]);
        lemma_later_property_wins(segs.drop_first(), with_prop(cur, segs[0]), p);
    }
}

pub open spec fn no_props() -> Props {
    Props { action: None, subsystem: None, devname: None }
}

/// Where the last `/` before position `i` of `p` stands, or -1 when none
/// does.
pub open spec fn last_slash(p: Seq<char>, i: int) -> int
    decreases i,
{
    if i <= 0 {
        -1
    } else if p[i - 1] == '/' {
        i - 1
    } else {
        last_slash(p, i - 1)
    }
}

pub proof fn lemma_last_slash(p: Seq<char>, i: int)
    ensures
        -1 <= last_slash(p, i) < i || (i <= 0 && last_slash(p, i) == -1),
    decreases i,
{
    if i > 0 && p[i - 1] != '/' {
        lemma_last_slash(p, i - 1);
    }
}

/// The final component of a `/`-separated path: its last segment that is
/// neither empty nor `.`; nothing when there is none, or when that segment
/// is `..`.
pub open spec fn path_file_name(p: Seq<char>) -> Option<Seq<char>>
    decreases p.len(),
{
    let j = last_slash(p, p.len() as int);
    let tail = p.skip(j + 1);
    if tail.len() > 0 && tail != "."@ {
        if tail == ".."@ {
            None
        } else {
            Some(tail)
        }
    } else if j < 0 {
        None
    } else {
        proof {
            lemma_last_slash(p, p.len() as int);
        }
        path_file_name(p.take(j))
    }
}

/// The final component of `path`, by `std::path::Path::file_name`, which
/// on a `/`-separated path skips empty and `.` segments (`foo.txt/.//`
/// names `foo.txt`) and has no file name for a path ending in `..` or for
/// `/`.
#[verifier::external_body]
fn file_name_of(path: &str) -> (r: Option<String>)
    ensures
        match r {
            Some(s) => path_file_name(path@) == Some(s@),
            None => path_file_name(path@) is None,
        },
{
    match std::path::Path::new(path).file_name() {
        Some(n) => match n.to_str() {
            Some(s) => Some(s.to_string()),
            None => None,
        },
        None => None,
    }
}

/// The bytes as UTF-8 text, by `std::str::from_utf8`: text exactly when the
/// bytes are valid UTF-8.
#[verifier::external_body]
fn utf8_text(b: &[u8]) -> (r: Option<String>)
    ensures
        match r {
            Some(s) => valid_utf8(b@) && s@ == decode_utf8(b@),
            None => !valid_utf8(b@),
        },
{
    match std::str::from_utf8(b) {
        Ok(s) => Some(s.to_string()),
        Err(_) => None,
    }
}

/// The 32-bit value of four bytes in the machine's native order, by
/// `u32::from_ne_bytes`: little-endian or big-endian, whichever the machine
/// is.
#[verifier::external_body]
fn native_u32(b0: u8, b1: u8, b2: u8, b3: u8) -> (r: u32)
    ensures
        r == b3 * 0x100_0000 + b2 * 0x1_0000 + b1 * 0x100 + b0 || r == b0 * 0x100_0000 + b1
            * 0x1_0000 + b2 * 0x100 + b3,
{
    u32::from_ne_bytes([b0, b1, b2, b3])
}

/// The path udev names: absolute as given, or rooted at `/dev`.
pub open spec fn rooted(name: Seq<char>) -> Seq<char> {
    if name.len() > 0 && name[0] == '/' {
        name
    } else {
        "/dev/"@ + name
    }
}

pub open spec fn bytes_input() -> Seq<u8> {
    seq![0x69u8, 0x6Eu8, 0x70u8, 0x75u8, 0x74u8]
}

pub open spec fn bytes_add() -> Seq<u8> {
    seq![0x61u8, 0x64u8, 0x64u8]
}

pub open spec fn bytes_remove() -> Seq<u8> {
    seq![0x72u8, 0x65u8, 0x6Du8, 0x6Fu8, 0x76u8, 0x65u8]
}

/// The event an action names for a node path: `add` and `remove` only.
pub open spec fn event_for(action: Seq<u8>, path: Seq<char>) -> Option<(bool, Seq<char>)> {
    if action == bytes_add() {
        Some((true, path))
    } else if action == bytes_remove() {
        Some((false, path))
    } else {
        None
    }
}

/// The datagram header is udev's: long enough, the prefix, the magic.
pub open spec fn header_ok(msg: Seq<u8>) -> bool {
    &&& msg.len() >= 40
    &&& msg.take(8) == libudev_prefix()
    &&& be32(msg, 8) == 0xfeedcafe
}

/// What a datagram whose properties start at `off` decodes to, as
/// `(added, path)`: the header must be udev's, the offset inside the
/// datagram, the subsystem `input`, the node an `event*` node, and the
/// action `add` or `remove`.
pub open spec fn decode(msg: Seq<u8>, off: int) -> Option<(bool, Seq<char>)> {
    if !header_ok(msg) || off < 40 || off >= msg.len() {
        None
    } else {
        let p = fold_props(split_nul(msg.skip(off)), no_props());
        if p.subsystem != Some(bytes_input()) {
            None
        } else if p.devname is None {
            None
        } else if !valid_utf8(p.devname->0) {
            None
        } else {
            let path = rooted(decode_utf8(p.devname->0));
            match path_file_name(path) {
                None => None,
                Some(f) => if f.len() >= 5 && f.take(5) == "event"@ {
                    match p.action {
                        None => None,
                        Some(a) => event_for(a, path),
                    }
                } else {
                    None
                },
            }
        }
    }
}

pub open spec fn hotplug_view(h: Hotplug) -> (bool, Seq<char>) {
    match h {
        Hotplug::Added(p) => (true, p@),
        Hotplug::Removed(p) => (false, p@),
    }
}

pub open spec fn decoded(r: Option<Hotplug>) -> Option<(bool, Seq<char>)> {
    match r {
        Some(h) => Some(hotplug_view(h)),
        None => None,
    }
}

/// Decode one udev monitor datagram into a hotplug event. The properties
/// offset is read in the machine's native order.
pub fn parse(msg: &[u8]) -> (r: Option<Hotplug>)
    ensures
        msg@.len() >= 40 ==> (decoded(r) == decode(msg@, le32(msg@, 16)) || decoded(r) == decode(
            msg@,
            be32(msg@, 16),
        )),
        msg@.len() < 40 ==> r is None,
{
    if msg.len() < HEADER_LEN {
        return None;
    }
    let off = native_u32(msg[16], msg[17], msg[18], msg[19]);
    proof {
        assert(le32(msg@, 16) == msg@[19] * 0x100_0000 + msg@[18] * 0x1_0000 + msg@[17] * 0x100
            + msg@[16]);
    }
    parse_at(msg, off as usize)
}

fn starts_with_prefix(msg: &[u8]) -> (r: bool)
    requires
        msg@.len() >= 8,
    ensures
        r <==> msg@.take(8) == libudev_prefix(),
{
    let r = msg[0] == 0x6C && msg[1] == 0x69 && msg[2] == 0x62 && msg[3] == 0x75 && msg[4]
        == 0x64 && msg[5] == 0x65 && msg[6] == 0x76 && msg[7] == 0x00;
    proof {
        if r {
            assert(msg@.take(8) =~= libudev_prefix());
        } else {
            if msg@.take(8) == libudev_prefix() {
                assert(msg@.take(8)[0] == msg@[0]);
                assert(msg@.take(8)[7] == msg@[7]);
            }
        }
    }
    r
}

/// Whether `msg[a..b]` holds exactly `lit`.
fn range_is(msg: &[u8], a: usize, b: usize, lit: &[u8]) -> (r: bool)
    requires
        a <= b <= msg@.len(),
    ensures
        r <==> msg@.subrange(a as int, b as int) == lit@,
{
    if b - a != lit.len() {
        return false;
    }
    let mut k: usize = 0;
    while k < lit.len()
        invariant
            a <= b <= msg@.len(),
            b - a == lit@.len(),
            k <= lit@.len(),
            forall|j: int| 0 <= j < k ==> msg@[a + j] == lit@[j],
        decreases lit@.len() - k,
    {
        if msg[a + k] != lit[k] {
            return false;
        }
        k = k + 1;
    }
    proof {
        assert(msg@.subrange(a as int, b as int) =~= lit@);
    }
    true
}

/// The position of the first byte equal to `x` in `msg[a..b]`, or `b`.
fn find_byte(msg: &[u8], a: usize, b: usize, x: u8) -> (r: usize)
    requires
        a <= b <= msg@.len(),
    ensures
        a <= r <= b,
        r < b ==> msg@[r as int] == x,
        forall|j: int| a <= j < r ==> msg@[j] != x,
{
    let mut k = a;
    while k < b
        invariant
            a <= k <= b,
            b <= msg@.len(),
            forall|j: int| a <= j < k ==> msg@[j] != x,
        decreases b - k,
    {
        if msg[k] == x {
            return k;
        }
        k = k + 1;
    }
    b
}

/// Decode a datagram whose properties start at `off`.
pub fn parse_at(msg: &[u8], off: usize) -> (r: Option<Hotplug>)
    ensures
        decoded(r) == decode(msg@, off as int),
{
    let n = msg.len();
    if n < HEADER_LEN || !starts_with_prefix(msg) {
        return None;
    }
    let magic = (msg[8] as u32) * 0x100_0000 + (msg[9] as u32) * 0x1_0000 + (msg[10] as u32)
        * 0x100 + (msg[11] as u32);
    if magic != 0xfeed_cafe {
        return None;
    }
    if off < HEADER_LEN || off >= n {
        return None;
    }
    let (action, subsystem, devname) = scan_props(msg, off);
    let ghost p = fold_props(split_nul(msg@.skip(off as int)), no_props());
    let sub_ok = match subsystem {
        Some((a, b)) => range_is(msg, a, b, &[0x69, 0x6E, 0x70, 0x75, 0x74]),
        None => false,
    };
    proof {
        reveal_strlit("input");
    }
    if !sub_ok {
        proof {
            if p.subsystem == Some(bytes_input()) {
                assert(subsystem is Some);
            }
        }
        return None;
    }
    let (da, db) = match devname {
        Some(r) => r,
        None => {
            return None;
        },
    };
    let name = match utf8_text(slice_range(msg, da, db).as_slice()) {
        Some(s) => s,
        None => {
            return None;
        },
    };
    let path = root_path(name);
    let fname = match file_name_of(path.as_str()) {
        Some(f) => f,
        None => {
            return None;
        },
    };
    if !starts_with_event(fname.as_str()) {
        return None;
    }
    let (aa, ab) = match action {
        Some(r) => r,
        None => {
            return None;
        },
    };
    if range_is(msg, aa, ab, &[0x61, 0x64, 0x64]) {
        Some(Hotplug::Added(path))
    } else if range_is(msg, aa, ab, &[0x72, 0x65, 0x6D, 0x6F, 0x76, 0x65]) {
        Some(Hotplug::Removed(path))
    } else {
        None
    }
}

fn slice_range(msg: &[u8], a: usize, b: usize) -> (v: Vec<u8>)
    requires
        a <= b <= msg@.len(),
    ensures
        v@ == msg@.subrange(a as int, b as int),
{
    let mut v: Vec<u8> = Vec::new();
    let mut k = a;
    while k < b
        invariant
            a <= k <= b,
            b <= msg@.len(),
            v@ == msg@.subrange(a as int, k as int),
        decreases b - k,
    {
        v.push(msg[k]);
        k = k + 1;
        proof {
            assert(v@ =~= msg@.subrange(a as int, k as int));
        }
    }
    v
}

fn root_path(name: String) -> (p: String)
    ensures
        p@ == rooted(name@),
{
    let s = name.as_str();
    if s.unicode_len() > 0 && s.get_char(0) == '/' {
        name
    } else {
        let mut p = String::from_str("/dev/");
        p.append(s);
        p
    }
}

fn starts_with_event(f: &str) -> (r: bool)
    ensures
        r <==> (f@.len() >= 5 && f@.take(5) == "event"@),
{
    proof {
        reveal_strlit("event");
    }
    if f.unicode_len() < 5 {
        return false;
    }
    let r = f.get_char(0) == 'e' && f.get_char(1) == 'v' && f.get_char(2) == 'e' && f.get_char(3)
        == 'n' && f.get_char(4) == 't';
    proof {
        if r {
            assert(f@.take(5) =~= "event"@);
        } else if f@.take(5) == "event"@ {
            assert(f@.take(5)[0] == f@[0]);
            assert(f@.take(5)[1] == f@[1]);
            assert(f@.take(5)[2] == f@[2]);
            assert(f@.take(5)[3] == f@[3]);
            assert(f@.take(5)[4] == f@[4]);
        }
    }
    r
}

pub open spec fn range_opt(msg: Seq<u8>, r: Option<(usize, usize)>) -> Option<Seq<u8>> {
    match r {
        Some((a, b)) => Some(msg.subrange(a as int, b as int)),
        None => None,
    }
}


/// The properties after reading the segment `msg[j..z]`, whose first `=`
/// is at `e` (or `e == z` when it has none).
fn read_prop(
    msg: &[u8],
    j: usize,
    z: usize,
    e: usize,
    action: Option<(usize, usize)>,
    subsystem: Option<(usize, usize)>,
    devname: Option<(usize, usize)>,
) -> (r: (Option<(usize, usize)>, Option<(usize, usize)>, Option<(usize, usize)>))
    requires
        j <= e <= z <= msg@.len(),
        e < z ==> msg@[e as int] == 0x3D,
        forall|k: int| j <= k < e ==> msg@[k] != 0x3D,
        action matches Some((a, b)) ==> a <= b <= msg@.len(),
        subsystem matches Some((a, b)) ==> a <= b <= msg@.len(),
        devname matches Some((a, b)) ==> a <= b <= msg@.len(),
    ensures
        (Props {
            action: range_opt(msg@, r.0),
            subsystem: range_opt(msg@, r.1),
            devname: range_opt(msg@, r.2),
        }) == with_prop(
            Props {
                action: range_opt(msg@, action),
                subsystem: range_opt(msg@, subsystem),
                devname: range_opt(msg@, devname),
            },
            msg@.subrange(j as int, z as int),
        ),
        r.0 matches Some((a, b)) ==> a <= b <= msg@.len(),
        r.1 matches Some((a, b)) ==> a <= b <= msg@.len(),
        r.2 matches Some((a, b)) ==> a <= b <= msg@.len(),
{
    proof {
        lemma_eq_in_segment(msg@, j as int, z as int, e as int);
    }
    if e >= z {
        return (action, subsystem, devname);
    }
    let ghost seg = msg@.subrange(j as int, z as int);
    proof {
        assert(seg.skip(e - j + 1) =~= msg@.subrange(e + 1, z as int));
        assert(seg.take(e - j) =~= msg@.subrange(j as int, e as int));
    }
    if range_is(msg, j, e, &[0x41, 0x43, 0x54, 0x49, 0x4F, 0x4E]) {
        proof {
            assert(msg@.subrange(j as int, e as int) == key_action());
        }
        (Some((e + 1, z)), subsystem, devname)
    } else if range_is(msg, j, e, &[0x53, 0x55, 0x42, 0x53, 0x59, 0x53, 0x54, 0x45, 0x4D]) {
        proof {
            assert([0x53u8, 0x55u8, 0x42u8, 0x53u8, 0x59u8, 0x53u8, 0x54u8, 0x45u8, 0x4Du8]@ =~= key_subsystem());
            assert(msg@.subrange(j as int, e as int) != key_action());
        }
        (action, Some((e + 1, z)), devname)
    } else if range_is(msg, j, e, &[0x44, 0x45, 0x56, 0x4E, 0x41, 0x4D, 0x45]) {
        proof {
            assert([0x44u8, 0x45u8, 0x56u8, 0x4Eu8, 0x41u8, 0x4Du8, 0x45u8]@ =~= key_devname());
        }
        (action, subsystem, Some((e + 1, z)))
    } else {
        proof {
            assert([0x41u8, 0x43u8, 0x54u8, 0x49u8, 0x4Fu8, 0x4Eu8]@ =~= key_action());
            assert([0x53u8, 0x55u8, 0x42u8, 0x53u8, 0x59u8, 0x53u8, 0x54u8, 0x45u8, 0x4Du8]@ =~= key_subsystem());
            assert([0x44u8, 0x45u8, 0x56u8, 0x4Eu8, 0x41u8, 0x4Du8, 0x45u8]@ =~= key_devname());
        }
        (action, subsystem, devname)
    }
}

/// Read the `ACTION`, `SUBSYSTEM` and `DEVNAME` properties of `msg[off..]`,
/// as byte ranges of their values.
fn scan_props(msg: &[u8], off: usize) -> (r: (
    Option<(usize, usize)>,
    Option<(usize, usize)>,
    Option<(usize, usize)>,
))
    requires
        off <= msg@.len(),
    ensures
        ({
            let p = fold_props(split_nul(msg@.skip(off as int)), no_props());
            &&& p.action == range_opt(msg@, r.0)
            &&& p.subsystem == range_opt(msg@, r.1)
            &&& p.devname == range_opt(msg@, r.2)
            &&& (r.0 matches Some((a, b)) ==> a <= b <= msg@.len())
            &&& (r.1 matches Some((a, b)) ==> a <= b <= msg@.len())
            &&& (r.2 matches Some((a, b)) ==> a <= b <= msg@.len())
        }),
{
    let n = msg.len();
    let mut action: Option<(usize, usize)> = None;
    let mut subsystem: Option<(usize, usize)> = None;
    let mut devname: Option<(usize, usize)> = None;
    let mut j = off;
    loop
        invariant
            off <= j <= n,
            n == msg@.len(),
            fold_props(split_nul(msg@.skip(off as int)), no_props()) == fold_props(
                split_nul(msg@.skip(j as int)),
                Props {
                    action: range_opt(msg@, action),
                    subsystem: range_opt(msg@, subsystem),
                    devname: range_opt(msg@, devname),
                },
            ),
            action matches Some((a, b)) ==> a <= b <= n,
            subsystem matches Some((a, b)) ==> a <= b <= n,
            devname matches Some((a, b)) ==> a <= b <= n,
        decreases n - j,
    {
        let z = find_byte(msg, j, n, 0);
        let e = find_byte(msg, j, z, 0x3D);
        proof {
            lemma_split_step(msg@, j as int, z as int);
        }
        let (na, ns, nd) = read_prop(msg, j, z, e, action, subsystem, devname);
        action = na;
        subsystem = ns;
        devname = nd;
        if z >= n {
            proof {
                assert(msg@.skip(n as int) =~= Seq::<u8>::empty());
            }
            return (action, subsystem, devname);
        }
        j = z + 1;
    }
}

/// One step of the split: the segment up to the next NUL (or the end), then
/// the split of what follows it.
proof fn lemma_split_step(msg: Seq<u8>, j: int, z: int)
    requires
        0 <= j <= z <= msg.len(),
        z < msg.len() ==> msg[z] == 0,
        forall|k: int| j <= k < z ==> msg[k] != 0,
    ensures
        z < msg.len() ==> split_nul(msg.skip(j)) == seq![msg.subrange(j, z)] + split_nul(msg.skip(z + 1)),
        z == msg.len() ==> split_nul(msg.skip(j)) == seq![msg.subrange(j, z)],
        forall|cur: Props| fold_props(split_nul(msg.skip(j)), cur) == if z < msg.len() {
            fold_props(split_nul(msg.skip(z + 1)), with_prop(cur, msg.subrange(j, z)))
        } else {
            with_prop(cur, msg.subrange(j, z))
        },
{
    let s = msg.skip(j);
    if z < msg.len() {
        assert(s[z - j] == 0);
        assert forall|k: int| 0 <= k < z - j implies s[k] != 0 by {
            assert(s[k] == msg[j + k]);
        }
        let i = first_nul(s);
        assert(0 <= i < s.len() && s[i] == 0 && forall|k: int| 0 <= k < i ==> s[k] != 0);
        if i < z - j {
            assert(s[i] == msg[j + i]);
        }
        if i > z - j {
            assert(s[z - j] != 0);
        }
        assert(i == z - j);
        assert(s.take(i) =~= msg.subrange(j, z));
        assert(s.skip(i + 1) =~= msg.skip(z + 1));
        let segs = split_nul(s);
        assert forall|cur: Props| fold_props(segs, cur) == fold_props(
            split_nul(msg.skip(z + 1)),
            with_prop(cur, msg.subrange(j, z)),
        ) by {
            assert(segs[0] == msg.subrange(j, z));
            assert(segs.drop_first() =~= split_nul(msg.skip(z + 1)));
        }
    } else {
        assert(!exists|i: int| 0 <= i < s.len() && s[i] == 0) by {
            if exists|i: int| 0 <= i < s.len() && s[i] == 0 {
                let i = choose|i: int| 0 <= i < s.len() && s[i] == 0;
                assert(s[i] == msg[j + i]);
            }
        }
        assert(s =~= msg.subrange(j, z));
        let segs = split_nul(s);
        assert(segs == seq![s]);
        assert forall|cur: Props| fold_props(segs, cur) == with_prop(cur, msg.subrange(j, z)) by {
            assert(segs[0] == s);
            assert(segs.drop_first() =~= Seq::<Seq<u8>>::empty());
            let e: Seq<Seq<u8>> = segs.drop_first();
            assert(fold_props(e, with_prop(cur, s)) == with_prop(cur, s));
        }
    }
}

/// The first `=` of the segment `msg[j..z]` is at `e`, or there is none
/// when `e == z`.
proof fn lemma_eq_in_segment(msg: Seq<u8>, j: int, z: int, e: int)
    requires
        0 <= j <= e <= z <= msg.len(),
        e < z ==> msg[e] == 0x3D,
        forall|k: int| j <= k < e ==> msg[k] != 0x3D,
    ensures
        e == z ==> !has_eq(msg.subrange(j, z)),
        e < z ==> has_eq(msg.subrange(j, z)) && first_eq(msg.subrange(j, z)) == e - j,
{
    let p = msg.subrange(j, z);
    if e == z {
        if has_eq(p) {
            let i = choose|i: int| 0 <= i < p.len() && p[i] == 0x3D;
            assert(p[i] == msg[j + i]);
        }
    } else {
        assert(p[e - j] == 0x3D);
        let i = first_eq(p);
        if i < e - j {
            assert(p[i] == msg[j + i]);
        }
        if i > e - j {
            assert(p[e - j] != 0x3D);
        }
    }
}

/// The udev monitor's multicast group; group 1 carries the kernel's raw
/// messages.
pub const MONITOR_GROUP_UDEV: u32 = 2;

/// The first `received` bytes of a receive buffer, as far as it reaches.
pub open spec fn received_bytes(buf: Seq<u8>, received: int) -> Seq<u8> {
    buf.take(if received < buf.len() {
        received
    } else {
        buf.len() as int
    })
}

/// A received datagram, decoded only when root sent it to the udev group:
/// anything else is an impersonation attempt or a raw kernel message.
pub fn accept(from_root: bool, groups: u32, buf: &[u8], received: usize) -> (r: Option<Hotplug>)
    ensures
        !(from_root && groups == MONITOR_GROUP_UDEV) ==> r is None,
        from_root && groups == MONITOR_GROUP_UDEV ==> ({
            let m = received_bytes(buf@, received as int);
            &&& m.len() >= 40 ==> (decoded(r) == decode(m, le32(m, 16)) || decoded(r) == decode(m, be32(m, 16)))
            &&& m.len() < 40 ==> r is None
        }),
{
    if !from_root || groups != MONITOR_GROUP_UDEV {
        return None;
    }
    let n = if received < buf.len() {
        received
    } else {
        buf.len()
    };
    let mut m: Vec<u8> = Vec::new();
    let mut i: usize = 0;
    while i < n
        invariant
            i <= n,
            n <= buf@.len(),
            m@ == buf@.take(i as int),
        decreases n - i,
    {
        m.push(buf[i]);
        i = i + 1;
        proof {
            assert(m@ =~= buf@.take(i as int));
        }
    }
    parse(&m)
}

} // verus!
