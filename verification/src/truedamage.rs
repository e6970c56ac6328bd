//! What actually changed: the compositor computing a surface's damage itself.
//!
//! A client that presents through a swapchain API reports its whole surface as
//! dirty on every present. This module compares each committed buffer against
//! the surface's previous one, row by row, and reports the bands that really
//! differ. It may only ever *shrink* what the client declared, and it refuses
//! to shrink at all whenever the comparison is not meaningful: over-damage
//! costs time, under-damage leaves stale pixels on screen.

use vstd::prelude::*;
use std::collections::HashMap;
use vstd::std_specs::iter::IteratorSpec;
use crate::text::str_eq;

verus! {

broadcast use vstd::std_specs::hash::group_hash_axioms;

/// A half-open run of buffer rows `[start, end)` that differ.
#[derive(Debug, Clone, Copy, PartialEq, Eq, Structural)]
pub struct RowSpan {
    pub start: usize,
    pub end: usize,
}

/// Every span is non-empty, and the spans are in order with a gap of at least
/// one row between neighbours: the unique coalesced form of a set of rows.
pub open spec fn spans_wf(s: Seq<RowSpan>) -> bool {
    &&& forall|i: int| 0 <= i < s.len() ==> #[trigger] s[i].start < s[i].end
    &&& forall|i: int, j: int|
        #![trigger s[i], s[j]]
        0 <= i < j < s.len() ==> s[i].end < s[j].start
}

/// Row `y` lies in one of the spans.
pub open spec fn covers(s: Seq<RowSpan>, y: int) -> bool {
    exists|k: int| 0 <= k < s.len() && #[trigger] s[k].start <= y && y < s[k].end
}

/// No span reaches past row `h`.
pub open spec fn spans_within(s: Seq<RowSpan>, h: int) -> bool {
    forall|i: int| 0 <= i < s.len() ==> #[trigger] s[i].end <= h
}

/// The number of rows the spans name, counted span by span.
pub open spec fn total_rows(s: Seq<RowSpan>) -> int
    decreases s.len(),
{
    if s.len() == 0 {
        0
    } else {
        total_rows(s.drop_last()) + (s.last().end - s.last().start)
    }
}

/// Row `y` of the two buffers, `stride` bytes each, differs in some byte.
pub open spec fn row_differs(prev: Seq<u8>, next: Seq<u8>, stride: int, y: int) -> bool {
    exists|k: int| y * stride <= k < y * stride + stride && #[trigger] prev[k] != next[k]
}

pub proof fn lemma_covers_push(s: Seq<RowSpan>, x: RowSpan, y: int)
    ensures
        covers(s.push(x), y) <==> (covers(s, y) || (x.start <= y && y < x.end)),
{
    let t = s.push(x);
    if covers(s, y) {
        let k = choose|k: int| 0 <= k < s.len() && #[trigger] s[k].start <= y && y < s[k].end;
        assert(t[k] == s[k]);
    }
    if x.start <= y && y < x.end {
        assert(t[s.len() as int] == x);
    }
    if covers(t, y) {
        let k = choose|k: int| 0 <= k < t.len() && #[trigger] t[k].start <= y && y < t[k].end;
        if k < s.len() {
            assert(t[k] == s[k]);
        }
    }
}

/// Raising the end of the last span adds exactly the rows between the two ends.
pub proof fn lemma_covers_extend_last(s: Seq<RowSpan>, e: usize, y: int)
    requires
        s.len() > 0,
        s.last().end <= e,
    ensures
        covers(s.update(s.len() - 1, RowSpan { start: s.last().start, end: e }), y) <==> (
        covers(s, y) || (s.last().start <= y && y < e)),
{
    let n = s.len() - 1;
    let t = s.update(n, RowSpan { start: s.last().start, end: e });
    if covers(s, y) {
        let k = choose|k: int| 0 <= k < s.len() && #[trigger] s[k].start <= y && y < s[k].end;
        if k == n {
            assert(t[n].start <= y && y < t[n].end);
        } else {
            assert(t[k] == s[k]);
        }
    }
    if s.last().start <= y && y < e {
        assert(t[n].start <= y && y < t[n].end);
    }
    if covers(t, y) {
        let k = choose|k: int| 0 <= k < t.len() && #[trigger] t[k].start <= y && y < t[k].end;
        if k != n {
            assert(t[k] == s[k]);
        }
    }
}

proof fn lemma_total_prefix_bound(s: Seq<RowSpan>)
    requires
        forall|i: int| 0 <= i < s.len() ==> #[trigger] s[i].start <= s[i].end,
    ensures
        0 <= total_rows(s),
        forall|i: int|
            0 <= i <= s.len() ==> total_rows(#[trigger] s.take(i)) <= total_rows(s),
    decreases s.len(),
{
    if s.len() > 0 {
        let d = s.drop_last();
        assert forall|i: int| 0 <= i < d.len() implies #[trigger] d[i].start <= d[i].end by {
            assert(d[i] == s[i]);
        }
        lemma_total_prefix_bound(d);
        assert forall|i: int| 0 <= i <= s.len() implies total_rows(#[trigger] s.take(i))
            <= total_rows(s) by {
            if i < s.len() {
                assert(s.take(i) =~= d.take(i));
            } else {
                assert(s.take(i) =~= s);
            }
        }
    }
}

/// A coalesced list inside `[0, h)` names at most `h` rows.
pub proof fn lemma_total_within(s: Seq<RowSpan>, h: int)
    requires
        0 <= h,
        spans_wf(s),
        spans_within(s, h),
    ensures
        0 <= total_rows(s) <= h,
        s.len() > 0 ==> total_rows(s) <= s.last().end - s[0].start,
    decreases s.len(),
{
    if s.len() > 0 {
        let d = s.drop_last();
        assert(spans_wf(d)) by {
            assert forall|i: int, j: int| 0 <= i < j < d.len() implies d[i].end < d[j].start by {
                assert(d[i] == s[i] && d[j] == s[j]);
            }
            assert forall|i: int| 0 <= i < d.len() implies #[trigger] d[i].start < d[i].end by {
                assert(d[i] == s[i]);
            }
        }
        assert(spans_within(d, h)) by {
            assert forall|i: int| 0 <= i < d.len() implies #[trigger] d[i].end <= h by {
                assert(d[i] == s[i]);
            }
        }
        lemma_total_within(d, h);
        if d.len() > 0 {
            assert(d.last() == s[s.len() - 2]);
            assert(d[0] == s[0]);
            assert(s[s.len() - 2].end < s[s.len() - 1].start);
        }
        assert(s.last().end <= h);
        assert(s[0].start >= 0);
        assert(total_rows(s) == total_rows(d) + (s.last().end - s.last().start));
        if d.len() == 0 {
            assert(s[0] == s.last());
        }
        assert(total_rows(s) <= s.last().end - s[0].start);
    }
}

/// The verdict, with the denominator inside it.
///
/// "Found nothing" and "did not look" are opposite facts: the first means the
/// frame is free, the second that the client's own damage stands.
#[derive(Debug, Clone, PartialEq, Eq)]
pub enum Verdict {
    /// The comparison ran. `spans` is what differs; `rows_examined` is what it
    /// looked at, so a caller can report a ratio rather than a count.
    Refined { spans: Vec<RowSpan>, rows_examined: usize },
    /// No comparison was possible; the client's declared damage stands
    /// unmodified.
    Refused(&'static str),
}

impl Verdict {
    /// `rows` can add up this verdict's spans without overflowing.
    pub open spec fn rows_defined(&self) -> bool {
        match self {
            Verdict::Refined { spans, .. } => {
                &&& forall|i: int|
                    0 <= i < spans@.len() ==> #[trigger] spans@[i].start <= spans@[i].end
                &&& total_rows(spans@) <= usize::MAX
            },
            Verdict::Refused(_) => true,
        }
    }

    /// Rows this verdict says must be redrawn, or `None` when it refused.
    pub fn rows(&self) -> (r: Option<usize>)
        requires
            self.rows_defined(),
        ensures
            match self {
                Verdict::Refined { spans, .. } => r == Some(total_rows(spans@) as usize),
                Verdict::Refused(_) => r is None,
            },
    {
        match self {
            Verdict::Refined { spans, .. } => {
                proof {
                    lemma_total_prefix_bound(spans@);
                }
                let mut sum: usize = 0;
                let mut i: usize = 0;
                while i < spans.len()
                    invariant
                        i <= spans@.len(),
                        sum == total_rows(spans@.take(i as int)),
                        self.rows_defined(),
                        *self == (Verdict::Refined { spans: *spans, rows_examined: self->rows_examined }),
                        forall|j: int|
                            0 <= j <= spans@.len() ==> total_rows(#[trigger] spans@.take(j))
                                <= total_rows(spans@),
                    decreases spans@.len() - i,
                {
                    let s = spans[i];
                    proof {
                        assert(spans@.take(i as int + 1).drop_last() =~= spans@.take(i as int));
                        assert(spans@.take(i as int + 1).last() == spans@[i as int]);
                        assert(s.start <= s.end);
                    }
                    sum = sum + (s.end - s.start);
                    i = i + 1;
                }
                proof {
                    assert(spans@.take(i as int) =~= spans@);
                }
                Some(sum)
            },
            Verdict::Refused(_) => None,
        }
    }
}

/// Whether bytes `[a, b)` of the two buffers are equal.
pub(crate) fn same_bytes(prev: &[u8], next: &[u8], a: usize, b: usize) -> (same: bool)
    requires
        a <= b,
        b <= prev@.len(),
        b <= next@.len(),
    ensures
        same <==> forall|k: int| a <= k < b ==> prev@[k] == next@[k],
{
    let mut k = a;
    while k < b
        invariant
            a <= k <= b,
            b <= prev@.len(),
            b <= next@.len(),
            forall|j: int| a <= j < k ==> prev@[j] == next@[j],
        decreases b - k,
    {
        if prev[k] != next[k] {
            return false;
        }
        k = k + 1;
    }
    true
}

/// Compare two same-shaped buffers and return the rows that differ.
///
/// Refuses rather than guesses when the two do not describe the same picture:
/// empty geometry, a `stride * height` that overflows, or a buffer shorter
/// than its geometry. Otherwise the spans are exactly the coalesced bands of
/// differing rows, one span per contiguous band.
pub fn changed_rows(prev: &[u8], next: &[u8], stride: usize, height: usize) -> (v: Verdict)
    ensures
        (stride == 0 || height == 0) ==> v == Verdict::Refused("empty geometry"),
        (stride > 0 && height > 0 && stride * height > usize::MAX) ==> v == Verdict::Refused(
            "stride * height overflows",
        ),
        (stride > 0 && height > 0 && stride * height <= usize::MAX && (prev@.len() < stride
            * height || next@.len() < stride * height)) ==> v == Verdict::Refused(
            "buffer shorter than its geometry",
        ),
        (stride > 0 && height > 0 && stride * height <= usize::MAX && prev@.len() >= stride
            * height && next@.len() >= stride * height) ==> (match v {
            Verdict::Refined { spans, rows_examined } => {
                &&& rows_examined == height
                &&& spans_wf(spans@)
                &&& spans_within(spans@, height as int)
                &&& forall|y: int|
                    0 <= y < height ==> (covers(spans@, y) <==> row_differs(
                        prev@,
                        next@,
                        stride as int,
                        y,
                    ))
            },
            Verdict::Refused(_) => false,
        }),
{
    if stride == 0 || height == 0 {
        return Verdict::Refused("empty geometry");
    }
    let needed = match stride.checked_mul(height) {
        Some(n) => n,
        None => {
            proof {
                assert(stride * height == height * stride) by (nonlinear_arith);
            }
            return Verdict::Refused("stride * height overflows");
        },
    };
    proof {
        assert(stride * height == height * stride) by (nonlinear_arith);
    }
    if prev.len() < needed || next.len() < needed {
        return Verdict::Refused("buffer shorter than its geometry");
    }
    let mut spans: Vec<RowSpan> = Vec::new();
    let mut run: Option<usize> = None;
    let mut y: usize = 0;
    while y < height
        invariant
            stride > 0,
            y <= height,
            needed == height * stride,
            needed == stride * height,
            prev@.len() >= needed,
            next@.len() >= needed,
            spans_wf(spans@),
            match run {
                None => forall|i: int| 0 <= i < spans@.len() ==> #[trigger] spans@[i].end < y
                    || (y == 0 && false),
                Some(st) => {
                    &&& st < y
                    &&& forall|i: int| 0 <= i < spans@.len() ==> #[trigger] spans@[i].end < st
                    &&& forall|r: int| st <= r < y ==> row_differs(prev@, next@, stride as int, r)
                },
            },
            forall|r: int|
                0 <= r < (match run {
                    None => y,
                    Some(st) => st,
                }) ==> (covers(spans@, r) <==> row_differs(prev@, next@, stride as int, r)),
        decreases height - y,
    {
        proof {
            assert((y + 1) * stride <= height * stride) by (nonlinear_arith)
                requires
                    y < height,
                    stride > 0,
            ;
            assert((y + 1) * stride == y * stride + stride) by (nonlinear_arith);
        }
        let a = y * stride;
        let b = a + stride;
        let same = same_bytes(prev, next, a, b);
        let differs = !same;
        proof {
            if differs {
                let k = choose|k: int| a <= k < b && prev@[k] != next@[k];
                assert(row_differs(prev@, next@, stride as int, y as int));
            } else {
                assert(!row_differs(prev@, next@, stride as int, y as int));
            }
        }
        match run {
            None => {
                if differs {
                    run = Some(y);
                }
            },
            Some(start) => {
                if !differs {
                    let ghost old_spans = spans@;
                    let sp = RowSpan { start, end: y };
                    spans.push(sp);
                    proof {
                        assert forall|r: int|
                            0 <= r < y + 1 implies (covers(spans@, r) <==> row_differs(
                            prev@,
                            next@,
                            stride as int,
                            r,
                        )) by {
                            lemma_covers_push(old_spans, sp, r);
                            if r < start {
                                assert(!(sp.start <= r && r < sp.end));
                            }
                        }
                        assert forall|i: int, j: int|
                            0 <= i < j < spans@.len() implies spans@[i].end
                            < spans@[j].start by {
                            if j == spans@.len() - 1 {
                                assert(spans@[i] == old_spans[i]);
                            } else {
                                assert(spans@[i] == old_spans[i] && spans@[j] == old_spans[j]);
                            }
                        }
                        assert forall|i: int| 0 <= i < spans@.len() implies #[trigger] spans@[i].end
                            < y + 1 by {
                            if i < old_spans.len() {
                                assert(spans@[i] == old_spans[i]);
                            }
                        }
                    }
                    run = None;
                }
            },
        }
        y = y + 1;
    }
    match run {
        Some(start) => {
            let ghost old_spans = spans@;
            let sp = RowSpan { start, end: height };
            spans.push(sp);
            proof {
                assert forall|r: int| 0 <= r < height implies (covers(spans@, r) <==> row_differs(
                    prev@,
                    next@,
                    stride as int,
                    r,
                )) by {
                    lemma_covers_push(old_spans, sp, r);
                }
                assert forall|i: int, j: int|
                    0 <= i < j < spans@.len() implies spans@[i].end < spans@[j].start by {
                    if j == spans@.len() - 1 {
                        assert(spans@[i] == old_spans[i]);
                    } else {
                        assert(spans@[i] == old_spans[i] && spans@[j] == old_spans[j]);
                    }
                }
                assert forall|i: int| 0 <= i < spans@.len() implies #[trigger] spans@[i].end
                    <= height by {
                    if i < old_spans.len() {
                        assert(spans@[i] == old_spans[i]);
                    }
                }
            }
        },
        None => {
            proof {
                assert forall|i: int| 0 <= i < spans@.len() implies #[trigger] spans@[i].end
                    <= height by {}
            }
        },
    }
    Verdict::Refined { spans, rows_examined: height }
}


/// A span list that covers exactly the same rows stays inside the same bound.
pub proof fn lemma_within_from_covers(r: Seq<RowSpan>, a: Seq<RowSpan>, b: Seq<RowSpan>, h: int)
    requires
        spans_wf(r),
        spans_within(a, h),
        spans_within(b, h),
        forall|y: int| covers(r, y) ==> covers(a, y) || covers(b, y),
    ensures
        spans_within(r, h),
{
    assert forall|i: int| 0 <= i < r.len() implies #[trigger] r[i].end <= h by {
        let y = r[i].end - 1;
        assert(r[i].start <= y && y < r[i].end);
        assert(covers(r, y));
        if covers(a, y) {
            let k = choose|k: int| 0 <= k < a.len() && #[trigger] a[k].start <= y && y < a[k].end;
            assert(a[k].end <= h);
        } else {
            let k = choose|k: int| 0 <= k < b.len() && #[trigger] b[k].start <= y && y < b[k].end;
            assert(b[k].end <= h);
        }
    }
}

/// Every span names at least one row.
pub open spec fn spans_nonempty(s: Seq<RowSpan>) -> bool {
    forall|i: int| 0 <= i < s.len() ==> #[trigger] s[i].start < s[i].end
}

/// Union any two lists of non-empty row spans, in any order and overlapping
/// or touching as they may, into the one coalesced list of the rows either
/// names: sorted, and two touching or overlapping bands become one band.
pub fn union_spans(a: &[RowSpan], b: &[RowSpan]) -> (out: Vec<RowSpan>)
    requires
        spans_nonempty(a@),
        spans_nonempty(b@),
    ensures
        spans_wf(out@),
        forall|y: int| covers(out@, y) <==> (covers(a@, y) || covers(b@, y)),
{
    let mut acc: Vec<RowSpan> = Vec::new();
    let mut i: usize = 0;
    while i < a.len()
        invariant
            i <= a@.len(),
            spans_nonempty(a@),
            spans_wf(acc@),
            forall|y: int| covers(acc@, y) <==> covers(a@.take(i as int), y),
        decreases a@.len() - i,
    {
        let one = [a[i]];
        let ghost before = acc@;
        proof {
            assert(a@.take(i as int + 1) =~= a@.take(i as int).push(a@[i as int]));
            assert forall|y: int| covers(a@.take(i as int + 1), y) <==> (covers(a@.take(i as int), y) || covers(one@, y)) by {
                lemma_covers_push(a@.take(i as int), a@[i as int], y);
                lemma_covers_push(Seq::empty(), a@[i as int], y);
                assert(one@ =~= Seq::<RowSpan>::empty().push(a@[i as int]));
            }
        }
        acc = merge_coalesced(acc.as_slice(), &one);
        i = i + 1;
    }
    proof {
        assert(a@.take(a@.len() as int) =~= a@);
        assert(b@.take(0) =~= Seq::<RowSpan>::empty());
        assert forall|y: int| !covers(b@.take(0), y) by {}
    }
    let mut j: usize = 0;
    while j < b.len()
        invariant
            j <= b@.len(),
            spans_nonempty(b@),
            spans_wf(acc@),
            forall|y: int| covers(acc@, y) <==> (covers(a@, y) || covers(b@.take(j as int), y)),
        decreases b@.len() - j,
    {
        let one = [b[j]];
        proof {
            assert(b@.take(j as int + 1) =~= b@.take(j as int).push(b@[j as int]));
            assert forall|y: int| covers(b@.take(j as int + 1), y) <==> (covers(b@.take(j as int), y) || covers(one@, y)) by {
                lemma_covers_push(b@.take(j as int), b@[j as int], y);
                lemma_covers_push(Seq::empty(), b@[j as int], y);
                assert(one@ =~= Seq::<RowSpan>::empty().push(b@[j as int]));
            }
        }
        acc = merge_coalesced(acc.as_slice(), &one);
        j = j + 1;
    }
    proof {
        assert(a@.take(a@.len() as int) =~= a@);
        assert(b@.take(b@.len() as int) =~= b@);
    }
    acc
}

/// Union two ordered, coalesced row-span lists into one coalesced list.
///
/// Adjacent spans coalesce (`end == start`) as well as overlapping ones,
/// because two touching bands are one band.
#[verifier::spinoff_prover]
fn merge_coalesced(a: &[RowSpan], b: &[RowSpan]) -> (out: Vec<RowSpan>)
    requires
        spans_wf(a@),
        spans_wf(b@),
    ensures
        spans_wf(out@),
        forall|y: int| covers(out@, y) <==> (covers(a@, y) || covers(b@, y)),
{
    let mut out: Vec<RowSpan> = Vec::new();
    let mut i: usize = 0;
    let mut j: usize = 0;
    while i < a.len() || j < b.len()
        invariant
            i <= a@.len(),
            j <= b@.len(),
            spans_wf(a@),
            spans_wf(b@),
            spans_wf(out@),
            forall|y: int|
                covers(out@, y) <==> (covers(a@.take(i as int), y) || covers(b@.take(j as int), y)),
            out@.len() > 0 ==> (i < a@.len() ==> out@.last().start <= a@[i as int].start),
            out@.len() > 0 ==> (j < b@.len() ==> out@.last().start <= b@[j as int].start),
        decreases a@.len() + b@.len() - i - j,
    {
        let take_a = j >= b.len() || (i < a.len() && a[i].start <= b[j].start);
        let s = if take_a {
            a[i]
        } else {
            b[j]
        };
        let ghost old_out = out@;
        let ghost ta = a@.take(i as int);
        let ghost tb = b@.take(j as int);
        if take_a {
            proof {
                assert(a@.take(i as int + 1) =~= ta.push(s));
            }
            i = i + 1;
        } else {
            proof {
                assert(b@.take(j as int + 1) =~= tb.push(s));
            }
            j = j + 1;
        }
        proof {
            assert forall|y: int|
                covers(a@.take(i as int), y) || covers(b@.take(j as int), y) <==> (covers(ta, y)
                    || covers(tb, y) || (s.start <= y && y < s.end)) by {
                lemma_covers_push(ta, s, y);
                lemma_covers_push(tb, s, y);
            }
            if i < a@.len() {
                if take_a {
                    assert(a@[i - 1] == s);
                    assert(a@[i - 1].end < a@[i as int].start);
                    assert(s.start < s.end);
                }
            }
            if j < b@.len() {
                if !take_a {
                    assert(b@[j - 1] == s);
                    assert(b@[j - 1].end < b@[j as int].start);
                    assert(s.start < s.end);
                }
            }
            assert(s.start < s.end);
        }
        let n = out.len();
        proof {
            if n > 0 {
                assert(old_out.last().start <= s.start);
            }
        }
        if n > 0 && s.start <= out[n - 1].end {
            let last = out[n - 1];
            if s.end > last.end {
                let grown = RowSpan { start: last.start, end: s.end };
                out.set(n - 1, grown);
                proof {
                    assert forall|y: int| covers(out@, y) <==> (covers(old_out, y) || (s.start <= y
                        && y < s.end)) by {
                        lemma_covers_extend_last(old_out, s.end, y);
                        if last.start <= y && y < last.end {
                            assert(old_out[n - 1] == last);
                        }
                    }
                    assert forall|p: int, q: int|
                        0 <= p < q < out@.len() implies out@[p].end < out@[q].start by {
                        assert(out@[p] == old_out[p]);
                        if q < n - 1 {
                            assert(out@[q] == old_out[q]);
                        } else {
                            assert(out@[q] == grown);
                            assert(old_out[p].end < old_out[n - 1].start);
                        }
                    }
                    assert forall|p: int| 0 <= p < out@.len() implies #[trigger] out@[p].start
                        < out@[p].end by {
                        if p < n - 1 {
                            assert(out@[p] == old_out[p]);
                        }
                    }
                    assert(spans_wf(out@));
                }
            } else {
                proof {
                    assert forall|y: int| covers(out@, y) <==> (covers(old_out, y) || (s.start <= y
                        && y < s.end)) by {
                        if s.start <= y && y < s.end {
                            assert(old_out[n - 1].start <= y && y < old_out[n - 1].end);
                        }
                    }
                }
            }
        } else {
            out.push(s);
            proof {
                assert forall|y: int| covers(out@, y) <==> (covers(old_out, y) || (s.start <= y
                    && y < s.end)) by {
                    lemma_covers_push(old_out, s, y);
                }
                assert forall|p: int, q: int|
                    0 <= p < q < out@.len() implies out@[p].end < out@[q].start by {
                    assert(out@[p] == old_out[p]);
                    if q < n {
                        assert(out@[q] == old_out[q]);
                    } else {
                        assert(out@[q] == s);
                        assert(old_out[n - 1].end < s.start);
                        if p < n - 1 {
                            assert(old_out[p].end < old_out[n - 1].start);
                            assert(old_out[n - 1].start < old_out[n - 1].end);
                        }
                    }
                }
                assert forall|p: int| 0 <= p < out@.len() implies #[trigger] out@[p].start
                    < out@[p].end by {
                    if p < n {
                        assert(out@[p] == old_out[p]);
                    }
                }
                assert(spans_wf(out@));
            }
        }
        proof {
            assert forall|y: int|
                covers(out@, y) <==> (covers(a@.take(i as int), y) || covers(
                    b@.take(j as int),
                    y,
                )) by {
                assert(covers(out@, y) <==> (covers(old_out, y) || (s.start <= y && y < s.end)));
                assert(covers(old_out, y) <==> (covers(ta, y) || covers(tb, y)));
            }
        }
    }
    proof {
        assert(a@.take(i as int) =~= a@);
        assert(b@.take(j as int) =~= b@);
    }
    out
}


/// How much authority the refinement is given over what reaches the screen.
#[derive(Debug, Clone, Copy, PartialEq, Eq, Structural)]
pub enum Mode {
    /// Compute nothing: the client's declaration reaches the renderer intact.
    Off,
    /// Compute, and replace the client's declaration. The default.
    On,
    /// Compute and publish the counters, then throw the answer away: what
    /// reaches the screen is identical to `Off`.
    Verify,
}

impl Default for Mode {
    fn default() -> (m: Self)
        ensures
            m == Mode::On,
    {
        Mode::On
    }
}

impl Mode {
    /// The mode an operator's setting selects. An absent setting is `On`, and
    /// so is an unknown one: a typo must not silently disable the refinement.
    pub fn from_setting(value: Option<&str>) -> (m: Self)
        ensures
            m == match value {
                Some(v) => if v@ == "off"@ || v@ == "0"@ || v@ == "false"@ {
                    Mode::Off
                } else if v@ == "verify"@ {
                    Mode::Verify
                } else {
                    Mode::On
                },
                None => Mode::On,
            },
    {
        match value {
            Some(v) => {
                if str_eq(v, "off") || str_eq(v, "0") || str_eq(v, "false") {
                    Mode::Off
                } else if str_eq(v, "verify") {
                    Mode::Verify
                } else {
                    Mode::On
                }
            },
            None => Mode::On,
        }
    }

    /// The starting mode: the configured one, unless the operator's override
    /// is set, in which case the override decides.
    pub fn resolve(configured: Self, value: Option<&str>) -> (m: Self)
        ensures
            value is None ==> m == configured,
            value is Some ==> m == Mode::from_setting_spec(value),
    {
        match value {
            Some(_) => Mode::from_setting(value),
            None => configured,
        }
    }

    pub open spec fn from_setting_spec(value: Option<&str>) -> Mode {
        match value {
            Some(v) => if v@ == "off"@ || v@ == "0"@ || v@ == "false"@ {
                Mode::Off
            } else if v@ == "verify"@ {
                Mode::Verify
            } else {
                Mode::On
            },
            None => Mode::On,
        }
    }

    /// The wire encoding shared with the introspection interface.
    pub fn to_u64(self) -> (v: u64)
        ensures
            v == match self {
                Mode::Off => 0u64,
                Mode::On => 1u64,
                Mode::Verify => 2u64,
            },
    {
        match self {
            Mode::Off => 0,
            Mode::On => 1,
            Mode::Verify => 2,
        }
    }

    /// Decode the wire value. Anything unrecognised is `On`.
    pub fn from_u64(v: u64) -> (m: Self)
        ensures
            m == (if v == 0 {
                Mode::Off
            } else if v == 2 {
                Mode::Verify
            } else {
                Mode::On
            }),
    {
        if v == 0 {
            Mode::Off
        } else if v == 2 {
            Mode::Verify
        } else {
            Mode::On
        }
    }

    /// Parse an operator-supplied name; the refusal names the accepted set.
    pub fn parse(s: &str) -> (r: Result<Self, &'static str>)
        ensures
            s@ == "off"@ ==> r == Ok::<Mode, &'static str>(Mode::Off),
            s@ == "on"@ ==> r == Ok::<Mode, &'static str>(Mode::On),
            s@ == "verify"@ ==> r == Ok::<Mode, &'static str>(Mode::Verify),
            !(s@ == "off"@ || s@ == "on"@ || s@ == "verify"@) ==> r == Err::<Mode, &'static str>(
                "td_mode must be one of: off, on, verify",
            ),
    {
        proof {
            reveal_strlit("off");
            reveal_strlit("on");
            reveal_strlit("verify");
            assert("on"@.len() == 2);
            assert("off"@.len() == 3);
            assert("verify"@.len() == 6);
        }
        if str_eq(s, "off") {
            Ok(Mode::Off)
        } else if str_eq(s, "on") {
            Ok(Mode::On)
        } else if str_eq(s, "verify") {
            Ok(Mode::Verify)
        } else {
            Err("td_mode must be one of: off, on, verify")
        }
    }

    /// The operator-facing name.
    pub fn name(self) -> (n: &'static str)
        ensures
            n == match self {
                Mode::Off => "off",
                Mode::On => "on",
                Mode::Verify => "verify",
            },
    {
        match self {
            Mode::Off => "off",
            Mode::On => "on",
            Mode::Verify => "verify",
        }
    }

    /// Whether the refined damage is allowed to reach the renderer.
    pub fn replaces_declaration(self) -> (b: bool)
        ensures
            b <==> self == Mode::On,
    {
        matches!(self, Mode::On)
    }

    /// Whether to run the comparison at all.
    pub fn computes(self) -> (b: bool)
        ensures
            b <==> self != Mode::Off,
    {
        !matches!(self, Mode::Off)
    }
}

/// The wire encoding round-trips every mode.
pub proof fn lemma_mode_wire_round_trip(m: Mode)
    ensures
        (match m {
            Mode::Off => 0u64,
            Mode::On => 1u64,
            Mode::Verify => 2u64,
        }) == 0 ==> m == Mode::Off,
        (match m {
            Mode::Off => 0u64,
            Mode::On => 1u64,
            Mode::Verify => 2u64,
        }) == 2 ==> m == Mode::Verify,
        (match m {
            Mode::Off => 0u64,
            Mode::On => 1u64,
            Mode::Verify => 2u64,
        }) == 1 ==> m == Mode::On,
{
}


/// `k` lies in row `y` of a buffer whose rows are `stride` bytes long exactly
/// when `k / stride == y`.
pub proof fn lemma_row_of(k: int, stride: int, y: int)
    requires
        stride > 0,
        k >= 0,
    ensures
        (y * stride <= k && k < y * stride + stride) <==> k / stride == y,
        y * stride <= k <==> y <= k / stride,
        k < y * stride <==> k / stride < y,
{
    vstd::arithmetic::div_mod::lemma_fundamental_div_mod(k, stride);
    vstd::arithmetic::div_mod::lemma_mod_bound(k, stride);
    let q = k / stride;
    let r = k % stride;
    assert(y * stride <= k <==> y <= q) by (nonlinear_arith)
        requires
            k == stride * q + r,
            0 <= r < stride,
            stride > 0,
    ;
    assert(k < y * stride <==> q < y) by (nonlinear_arith)
        requires
            k == stride * q + r,
            0 <= r < stride,
            stride > 0,
    ;
    assert(k < y * stride + stride <==> q < y + 1) by (nonlinear_arith)
        requires
            k == stride * q + r,
            0 <= r < stride,
            stride > 0,
    ;
}

/// One surface's last committed pixels, and every span reported since the
/// last present.
struct Shadow {
    data: Vec<u8>,
    unpresented: Vec<RowSpan>,
    stride: usize,
    height: usize,
    format: u32,
}

/// What is known of one surface: its last committed pixels, the ledger of
/// rows reported since the last present, and the geometry they were in.
pub struct ShadowState {
    pub data: Seq<u8>,
    pub unpresented: Seq<RowSpan>,
    pub stride: usize,
    pub height: usize,
    pub format: u32,
}

impl Shadow {
    spec fn state(&self) -> ShadowState {
        ShadowState {
            data: self.data@,
            unpresented: self.unpresented@,
            stride: self.stride,
            height: self.height,
            format: self.format,
        }
    }

    spec fn wf(&self) -> bool {
        self.state().wf()
    }
}

impl ShadowState {
    /// The ledger is coalesced and inside the surface, and the pixels do not
    /// outrun the geometry.
    pub open spec fn wf(&self) -> bool {
        &&& spans_wf(self.unpresented)
        &&& spans_within(self.unpresented, self.height as int)
        &&& self.data.len() <= self.stride * self.height
    }
}

/// The comparison against the previous shadow is meaningful: same geometry,
/// same format, and both buffers long enough.
pub open spec fn comparable(
    prev: ShadowState,
    next: Seq<u8>,
    stride: usize,
    height: usize,
    format: u32,
) -> bool {
    &&& prev.stride == stride
    &&& prev.height == height
    &&& prev.format == format
    &&& stride > 0
    &&& height > 0
    &&& stride * height <= usize::MAX
    &&& prev.data.len() >= stride * height
    &&& next.len() >= stride * height
}

/// The pixels a commit leaves as the new shadow: the buffer cut to its
/// geometry.
pub open spec fn adopted(next: Seq<u8>, stride: usize, height: usize) -> Seq<u8> {
    if stride * height <= next.len() {
        next.take(stride * height)
    } else {
        next
    }
}

/// Why a commit was refused.
pub open spec fn refusal(
    prev: Option<ShadowState>,
    next_len: int,
    stride: usize,
    height: usize,
    format: u32,
) -> &'static str {
    match prev {
        None => "first commit for this surface",
        Some(p) => if p.stride != stride {
            "stride changed"
        } else if p.height != height {
            "height changed"
        } else if p.format != format {
            "format changed"
        } else if stride == 0 || height == 0 {
            "empty geometry"
        } else if stride * height > usize::MAX {
            "stride * height overflows"
        } else {
            "buffer shorter than its geometry"
        },
    }
}

/// The shadows themselves, one per surface key.
pub struct SurfaceShadows {
    entries: HashMap<u32, Shadow>,
}

impl SurfaceShadows {
    /// Every shadow held is well formed.
    pub closed spec fn wf(&self) -> bool {
        forall|k: u32| #[trigger] self.entries@.contains_key(k) ==> self.entries@[k].wf()
    }

    /// Every surface's ledger is coalesced and inside the surface, and no
    /// shadow holds more pixels than its geometry.
    pub proof fn lemma_ledgers_well_formed(&self)
        requires
            self.wf(),
        ensures
            forall|k: u32| #[trigger] self@.contains_key(k) ==> self@[k].wf(),
    {
        assert forall|k: u32| #[trigger] self@.contains_key(k) implies self@[k].wf() by {
            assert(self.entries@.contains_key(k));
        }
    }

    fn empty() -> (s: Self)
        ensures
            s.wf(),
            s@ == Map::<u32, ShadowState>::empty(),
    {
        let s = SurfaceShadows { entries: HashMap::new() };
        assert(s@ =~= Map::<u32, ShadowState>::empty());
        s
    }

    /// Hold `x` as the shadow of surface `key`.
    fn put(&mut self, key: u32, x: Shadow)
        requires
            old(self).wf(),
            x.wf(),
        ensures
            final(self).wf(),
            final(self)@ == old(self)@.insert(key, x.state()),
    {
        self.entries.insert(key, x);
        proof {
            assert(self@ =~= old(self)@.insert(key, x.state()));
        }
    }

    /// Take the shadow of surface `key` out, if one is held.
    fn take(&mut self, key: u32) -> (r: Option<Shadow>)
        requires
            old(self).wf(),
        ensures
            final(self).wf(),
            final(self)@ == old(self)@.remove(key),
            match r {
                Some(x) => old(self)@.contains_key(key) && x.state() == old(self)@[key] && x.wf(),
                None => !old(self)@.contains_key(key),
            },
    {
        let r = self.entries.remove(&key);
        proof {
            assert(self@ =~= old(self)@.remove(key));
        }
        r
    }

    /// The surfaces held, each once.
    fn keys(&self) -> (ks: Vec<u32>)
        ensures
            ks@.no_duplicates(),
            ks@.to_set() == self@.dom(),
    {
        let ghost all = vstd::std_specs::hash::spec_keys_iter(&self.entries).remaining().unref();
        let mut ks: Vec<u32> = Vec::new();
        for k in it: self.entries.keys()
            invariant
                it.seq() == vstd::std_specs::hash::spec_keys_iter(&self.entries).remaining(),
                all == it.seq().unref(),
                ks@.len() == it.index(),
                ks@ == all.take(it.index()),
        {
            ks.push(*k);
            proof {
                assert(ks@ =~= all.take(it.index() + 1));
            }
        }
        proof {
            assert(ks@ =~= all);
            assert(self@.dom() =~= self.entries@.dom());
        }
        ks
    }

    /// How many shadows are held.
    fn count(&self) -> (n: usize)
        ensures
            n == self@.len(),
    {
        proof {
            assert(self@.dom() =~= self.entries@.dom());
        }
        self.entries.len()
    }
}

/// The surfaces whose ledger has something outstanding.
pub open spec fn pending(m: Map<u32, ShadowState>) -> Set<u32> {
    m.dom().filter(|k: u32| m[k].unpresented.len() > 0)
}

/// A surface's state once a present has put its ledger on the glass.
pub open spec fn presented(st: ShadowState) -> ShadowState {
    ShadowState {
        data: st.data,
        unpresented: Seq::empty(),
        stride: st.stride,
        height: st.height,
        format: st.format,
    }
}

/// How many of the surfaces `ks` have something outstanding in `m`.
spec fn pending_among(ks: Seq<u32>, m: Map<u32, ShadowState>) -> nat
    decreases ks.len(),
{
    if ks.len() == 0 {
        0
    } else {
        pending_among(ks.drop_last(), m) + if m.contains_key(ks.last()) && m[ks.last()].unpresented.len()
            > 0 {
            1nat
        } else {
            0nat
        }
    }
}

spec fn outstanding_in(m: Map<u32, ShadowState>, k: u32) -> bool {
    m.contains_key(k) && m[k].unpresented.len() > 0
}

proof fn lemma_pending_among(ks: Seq<u32>, m: Map<u32, ShadowState>)
    requires
        ks.no_duplicates(),
    ensures
        ks.to_set().filter(|k: u32| outstanding_in(m, k)).finite(),
        ks.to_set().filter(|k: u32| outstanding_in(m, k)).len() == pending_among(ks, m),
    decreases ks.len(),
{
    let p = |k: u32| outstanding_in(m, k);
    if ks.len() == 0 {
        assert(ks.to_set().filter(p) =~= Set::<u32>::empty());
    } else {
        let d = ks.drop_last();
        let l = ks.last();
        assert(d.no_duplicates()) by {
            assert forall|a: int, b: int| 0 <= a < d.len() && 0 <= b < d.len() && a != b implies d[a]
                != d[b] by {
                assert(d[a] == ks[a] && d[b] == ks[b]);
            }
        }
        lemma_pending_among(d, m);
        assert(!d.contains(l)) by {
            if d.contains(l) {
                let a = choose|a: int| 0 <= a < d.len() && d[a] == l;
                assert(ks[a] == l && ks[ks.len() - 1] == l);
            }
        }
        assert forall|k: u32| ks.contains(k) <==> (d.contains(k) || k == l) by {
            if ks.contains(k) {
                let a = choose|a: int| 0 <= a < ks.len() && ks[a] == k;
                if a < d.len() {
                    assert(d[a] == k);
                }
            }
            if d.contains(k) {
                let a = choose|a: int| 0 <= a < d.len() && d[a] == k;
                assert(ks[a] == k);
            }
            if k == l {
                assert(ks[ks.len() - 1] == k);
            }
        }
        if p(l) {
            assert(ks.to_set().filter(p) =~= d.to_set().filter(p).insert(l));
            assert(!d.to_set().filter(p).contains(l));
        } else {
            assert(ks.to_set().filter(p) =~= d.to_set().filter(p));
        }
    }
}

impl View for SurfaceShadows {
    type V = Map<u32, ShadowState>;

    closed spec fn view(&self) -> Map<u32, ShadowState> {
        self.entries@.map_values(|s: Shadow| s.state())
    }
}

/// Per-surface shadows, and the counters that say whether refinement is
/// actually happening.
pub struct Shadows {
    /// The last committed pixels of each surface, keyed by surface.
    pub by_surface: SurfaceShadows,
    /// Commits where the comparison ran.
    pub refined: u64,
    /// Commits where it refused, and therefore paid full price.
    pub refused: u64,
    /// Rows the comparison said were dirty, summed.
    pub rows_dirty: u64,
    /// Rows it examined, summed: the denominator for `rows_dirty`.
    pub rows_examined: u64,
    /// How many times a present cleared the ledgers.
    pub presented_marks: u64,
}

impl Shadows {
    pub open spec fn wf(&self) -> bool {
        self.by_surface.wf()
    }

    /// No shadows, and every counter at zero.
    pub fn new() -> (s: Self)
        ensures
            s.wf(),
            s.by_surface@ == Map::<u32, ShadowState>::empty(),
            s.refined == 0 && s.refused == 0 && s.rows_dirty == 0 && s.rows_examined == 0
                && s.presented_marks == 0,
    {
        Shadows {
            by_surface: SurfaceShadows::empty(),
            refined: 0,
            refused: 0,
            rows_dirty: 0,
            rows_examined: 0,
            presented_marks: 0,
        }
    }
}

/// What one `refine` of `key` with `next` does: the surface's shadow
/// becomes `next` in the given geometry, with the refined rows, or nothing
/// on a refusal, as its new ledger; a comparable commit is refined to the
/// union of the ledger and the rows that differ, and any other is refused
/// with the reason; one counter moves, by the verdict.
pub open spec fn refines(
    before: Shadows,
    after: Shadows,
    key: u32,
    next: Seq<u8>,
    stride: usize,
    height: usize,
    format: u32,
    v: Verdict,
) -> bool {
    let comparable_now = before.by_surface@.contains_key(key) && comparable(
        before.by_surface@[key],
        next,
        stride,
        height,
        format,
    );
    &&& after.by_surface@ == before.by_surface@.insert(
        key,
        ShadowState {
            data: adopted(next, stride, height),
            unpresented: match v {
                Verdict::Refined { spans, .. } => spans@,
                Verdict::Refused(_) => Seq::empty(),
            },
            stride,
            height,
            format,
        },
    )
    &&& comparable_now ==> match v {
        Verdict::Refined { spans, rows_examined } => {
            &&& rows_examined == height
            &&& spans_wf(spans@)
            &&& spans_within(spans@, height as int)
            &&& forall|y: int|
                covers(spans@, y) <==> (covers(before.by_surface@[key].unpresented, y) || (0 <= y
                    < height && row_differs(before.by_surface@[key].data, next, stride as int, y)))
        },
        Verdict::Refused(_) => false,
    }
    &&& !comparable_now ==> v == Verdict::Refused(
        refusal(
            if before.by_surface@.contains_key(key) {
                Some(before.by_surface@[key])
            } else {
                None
            },
            next.len() as int,
            stride,
            height,
            format,
        ),
    )
    &&& match v {
        Verdict::Refined { spans, .. } => {
            &&& after.refined == before.refined + 1
            &&& after.refused == before.refused
            &&& after.rows_dirty == before.rows_dirty + total_rows(spans@)
            &&& after.rows_examined == before.rows_examined + height
        },
        Verdict::Refused(_) => {
            &&& after.refined == before.refined
            &&& after.refused == before.refused + 1
            &&& after.rows_dirty == before.rows_dirty
            &&& after.rows_examined == before.rows_examined
        },
    }
    &&& after.presented_marks == before.presented_marks
}

/// Refinement resumes right after any verdict. Whatever one commit of a
/// surface was answered (a refusal for a changed geometry included), the
/// next commit in that same geometry is compared against its pixels and
/// refined: to the rows that differ between the two commits, together with
/// the rows the first commit reported when it was refined too.
pub proof fn lemma_refine_resumes(
    s0: Shadows,
    s1: Shadows,
    s2: Shadows,
    key: u32,
    first: Seq<u8>,
    second: Seq<u8>,
    stride: usize,
    height: usize,
    format: u32,
    v1: Verdict,
    v2: Verdict,
)
    requires
        refines(s0, s1, key, first, stride, height, format, v1),
        refines(s1, s2, key, second, stride, height, format, v2),
        stride > 0,
        height > 0,
        stride * height <= usize::MAX,
        first.len() >= stride * height,
        second.len() >= stride * height,
    ensures
        v2 matches Verdict::Refined { spans, rows_examined } && rows_examined == height && forall|y: int|
            covers(spans@, y) <==> ((v1 matches Verdict::Refined { spans: earlier, .. } && covers(
                earlier@,
                y,
            )) || (0 <= y < height && row_differs(adopted(first, stride, height), second, stride as int, y))),
{
    let prev = s1.by_surface@[key];
    assert(s1.by_surface@.contains_key(key));
    assert(prev.data == adopted(first, stride, height));
    assert(prev.data.len() == stride * height);
    assert(comparable(prev, second, stride, height, format));
    match v1 {
        Verdict::Refined { spans, .. } => {
            assert(prev.unpresented == spans@);
        },
        Verdict::Refused(_) => {
            assert(prev.unpresented == Seq::<RowSpan>::empty());
            assert forall|y: int| !covers(prev.unpresented, y) by {}
        },
    }
}

/// The pixels commit `i` of a run is compared against: the shadow held
/// before the run for the first, and the commit before it for every other.
pub open spec fn compared_against(
    start: Seq<u8>,
    commits: Seq<Seq<u8>>,
    stride: usize,
    height: usize,
    i: int,
) -> Seq<u8> {
    if i == 0 {
        start
    } else {
        adopted(commits[i - 1], stride, height)
    }
}

/// Over a run of commits of one surface that are all refined, the ledger
/// ends up covering exactly the rows it covered before the run together
/// with every row some commit changed against the one before it, and the
/// last verdict reports that ledger. A present or a refusal leaves the
/// ledger empty, so from there the run's last verdict is the union of the
/// rows changed over the run. Each refined commit adds one to `refined`
/// and the height to `rows_examined`.
pub proof fn lemma_refined_run_reports_every_change(
    states: Seq<Shadows>,
    commits: Seq<Seq<u8>>,
    verdicts: Seq<Verdict>,
    key: u32,
    stride: usize,
    height: usize,
    format: u32,
)
    requires
        states.len() == commits.len() + 1,
        verdicts.len() == commits.len(),
        forall|i: int|
            #![trigger verdicts[i]]
            0 <= i < commits.len() ==> refines(
                states[i],
                states[i + 1],
                key,
                commits[i],
                stride,
                height,
                format,
                verdicts[i],
            ),
        forall|i: int| 0 <= i < verdicts.len() ==> #[trigger] verdicts[i] is Refined,
    ensures
        forall|y: int|
            covers(states.last().by_surface@[key].unpresented, y) <==> (covers(
                states[0].by_surface@[key].unpresented,
                y,
            ) || exists|i: int|
                0 <= i < commits.len() && 0 <= y < height && row_differs(
                    #[trigger] compared_against(
                        states[0].by_surface@[key].data,
                        commits,
                        stride,
                        height,
                        i,
                    ),
                    commits[i],
                    stride as int,
                    y,
                )),
        commits.len() > 0 ==> (verdicts.last() matches Verdict::Refined { spans, .. } && spans@
            == states.last().by_surface@[key].unpresented),
        states.last().refined == states[0].refined + commits.len(),
        states.last().rows_examined == states[0].rows_examined + commits.len() * height,
    decreases commits.len(),
{
    let n = commits.len() as int;
    if n > 0 {
        let ps = states.drop_last();
        let pc = commits.drop_last();
        let pv = verdicts.drop_last();
        assert forall|i: int| #![trigger pv[i]] 0 <= i < pc.len() implies refines(
            ps[i],
            ps[i + 1],
            key,
            pc[i],
            stride,
            height,
            format,
            pv[i],
        ) by {
            assert(verdicts[i] == pv[i]);
        }
        assert forall|i: int| 0 <= i < pv.len() implies #[trigger] pv[i] is Refined by {
            assert(verdicts[i] == pv[i]);
        }
        lemma_refined_run_reports_every_change(ps, pc, pv, key, stride, height, format);
        let before = states[n - 1];
        let after = states[n];
        assert(ps.last() == before);
        assert(ps[0] == states[0]);
        assert(verdicts[n - 1] is Refined);
        assert(refines(before, after, key, commits[n - 1], stride, height, format, verdicts[n - 1]));
        let start = states[0].by_surface@[key].data;
        assert(before.by_surface@.contains_key(key));
        assert(before.by_surface@[key].data == compared_against(start, commits, stride, height, n - 1))
            by {
            if n - 1 > 0 {
                assert(verdicts[n - 2] is Refined);
                assert(refines(
                    states[n - 2],
                    states[n - 1],
                    key,
                    commits[n - 2],
                    stride,
                    height,
                    format,
                    verdicts[n - 2],
                ));
            }
        }
        assert forall|i: int| 0 <= i < pc.len() implies compared_against(start, pc, stride, height, i)
            == compared_against(start, commits, stride, height, i) by {
            if i > 0 {
                assert(pc[i - 1] == commits[i - 1]);
            }
        }
        assert forall|y: int|
            covers(after.by_surface@[key].unpresented, y) <==> (covers(
                states[0].by_surface@[key].unpresented,
                y,
            ) || exists|i: int|
                0 <= i < commits.len() && 0 <= y < height && row_differs(
                    #[trigger] compared_against(start, commits, stride, height, i),
                    commits[i],
                    stride as int,
                    y,
                )) by {
            if exists|i: int|
                0 <= i < commits.len() && 0 <= y < height && row_differs(
                    #[trigger] compared_against(start, commits, stride, height, i),
                    commits[i],
                    stride as int,
                    y,
                ) {
                let i = choose|i: int|
                    0 <= i < commits.len() && 0 <= y < height && row_differs(
                        #[trigger] compared_against(start, commits, stride, height, i),
                        commits[i],
                        stride as int,
                        y,
                    );
                if i < n - 1 {
                    assert(pc[i] == commits[i]);
                    assert(compared_against(start, pc, stride, height, i) == compared_against(
                        start,
                        commits,
                        stride,
                        height,
                        i,
                    ));
                }
            }
            if covers(before.by_surface@[key].unpresented, y) && !covers(
                states[0].by_surface@[key].unpresented,
                y,
            ) {
                let i = choose|i: int|
                    0 <= i < pc.len() && 0 <= y < height && row_differs(
                        #[trigger] compared_against(start, pc, stride, height, i),
                        pc[i],
                        stride as int,
                        y,
                    );
                assert(pc[i] == commits[i]);
                assert(compared_against(start, pc, stride, height, i) == compared_against(
                    start,
                    commits,
                    stride,
                    height,
                    i,
                ));
            }
        }
        assert(n * height == (n - 1) * height + height) by (nonlinear_arith);
    }
}

impl Shadows {
    /// Compare `next` against this surface's last committed pixels, then adopt
    /// `next` as the new shadow.
    ///
    /// The shadow is updated whether or not the comparison succeeded, so the
    /// commit after a refusal can refine again. A refined verdict reports the
    /// union of this commit's changed rows with everything reported since the
    /// last present, and that union becomes the new ledger; a refusal leaves
    /// the client's whole-surface damage standing and starts the ledger clean.
    #[verifier::spinoff_prover]
    #[verifier::rlimit(40)]
    pub fn refine(
        &mut self,
        key: u32,
        next: &[u8],
        stride: usize,
        height: usize,
        format: u32,
    ) -> (v: Verdict)
        requires
            old(self).wf(),
            old(self).refined < u64::MAX,
            old(self).refused < u64::MAX,
            old(self).rows_dirty + height <= u64::MAX,
            old(self).rows_examined + height <= u64::MAX,
        ensures
            final(self).wf(),
            refines(*old(self), *final(self), key, next@, stride, height, format, v),
    {
        let ghost old_table = self.by_surface;
        let taken = self.by_surface.take(key);
        let verdict = match &taken {
            None => Verdict::Refused("first commit for this surface"),
            Some(prev) => {
                if prev.stride != stride {
                    Verdict::Refused("stride changed")
                } else if prev.height != height {
                    Verdict::Refused("height changed")
                } else if prev.format != format {
                    Verdict::Refused("format changed")
                } else {
                    changed_rows(prev.data.as_slice(), next, stride, height)
                }
            },
        };
        match verdict {
            Verdict::Refined { spans, rows_examined } => {
                proof {
                    assert(taken is Some);
                }
                let mut sh = taken.unwrap();
                let ghost prev = sh;
                proof {
                    assert(prev.wf());
                }
                copy_rows(&mut sh.data, next, spans.as_slice(), stride, height);
                proof {
                    let n = stride * height;
                    assert forall|k: int| 0 <= k < n implies sh.data@[k] == next@[k] by {
                        let y = k / stride as int;
                        lemma_row_of(k, stride as int, y);
                        lemma_row_of(k, stride as int, height as int);
                        if !covers(spans@, y) {
                            assert(0 <= y < height) by (nonlinear_arith)
                                requires
                                    0 <= k < n,
                                    n == stride * height,
                                    stride > 0,
                                    y == k / stride as int,
                            ;
                            assert(!row_differs(prev.data@, next@, stride as int, y));
                            assert(prev.data@[k] == next@[k]);
                        }
                    }
                    assert(sh.data@ =~= adopted(next@, stride, height));
                }
                let widened = merge_coalesced(sh.unpresented.as_slice(), spans.as_slice());
                proof {
                    assert forall|y: int| covers(spans@, y) implies 0 <= y < height by {
                        let k = choose|k: int|
                            0 <= k < spans@.len() && #[trigger] spans@[k].start <= y && y
                                < spans@[k].end;
                        assert(spans@[k].end <= height);
                    }
                    lemma_within_from_covers(widened@, prev.unpresented@, spans@, height as int);
                }
                sh.unpresented = widened.clone();
                proof {
                    assert(sh.unpresented@ =~= widened@);
                    assert(sh.wf());
                }
                self.by_surface.put(key, sh);
                proof {
                    assert(self.by_surface@ =~= old_table@.insert(key, sh.state()));
                    lemma_total_within(widened@, height as int);
                }
                let out = Verdict::Refined { spans: widened, rows_examined };
                let dirty = match out.rows() {
                    Some(r) => r,
                    None => 0,
                };
                self.refined = self.refined + 1;
                self.rows_dirty = self.rows_dirty + dirty as u64;
                self.rows_examined = self.rows_examined + height as u64;
                out
            },
            Verdict::Refused(why) => {
                let m = match stride.checked_mul(height) {
                    Some(n) => if n <= next.len() {
                        n
                    } else {
                        next.len()
                    },
                    None => next.len(),
                };
                let data = copy_prefix(next, m);
                let fresh = Shadow {
                    data,
                    unpresented: Vec::new(),
                    stride,
                    height,
                    format,
                };
                proof {
                    assert(fresh.data@ =~= adopted(next@, stride, height));
                    assert(fresh.unpresented@ =~= Seq::<RowSpan>::empty());
                    assert(fresh.wf());
                }
                self.by_surface.put(key, fresh);
                proof {
                    assert(self.by_surface@ =~= old_table@.insert(key, fresh.state()));
                }
                self.refused = self.refused + 1;
                Verdict::Refused(why)
            },
        }
    }

    /// The frame reached the screen: every surface's ledger is now on the
    /// glass and may be forgotten. This is the only thing that clears a
    /// ledger. Returns how many surfaces had something outstanding.
    pub fn mark_presented(&mut self) -> (had: usize)
        requires
            old(self).wf(),
            old(self).presented_marks < u64::MAX,
        ensures
            final(self).wf(),
            final(self).by_surface@ == old(self).by_surface@.map_values(
                |st: ShadowState| presented(st),
            ),
            had == pending(old(self).by_surface@).len(),
            final(self).presented_marks == old(self).presented_marks + 1,
            final(self).refined == old(self).refined,
            final(self).refused == old(self).refused,
            final(self).rows_dirty == old(self).rows_dirty,
            final(self).rows_examined == old(self).rows_examined,
    {
        let ghost old_table = self.by_surface;
        let keys = self.by_surface.keys();
        let mut had: usize = 0;
        let mut i: usize = 0;
        while i < keys.len()
            invariant
                self.by_surface.wf(),
                keys@.no_duplicates(),
                keys@.to_set() == old_table@.dom(),
                i <= keys@.len(),
                self.by_surface@.dom() == old_table@.dom(),
                forall|k: u32|
                    #[trigger] old_table@.contains_key(k) ==> self.by_surface@[k] == if keys@.take(
                        i as int,
                    ).contains(k) {
                        presented(old_table@[k])
                    } else {
                        old_table@[k]
                    },
                had == pending_among(keys@.take(i as int), old_table@),
                had <= i,
                self.presented_marks == old(self).presented_marks,
                self.refined == old(self).refined,
                self.refused == old(self).refused,
                self.rows_dirty == old(self).rows_dirty,
                self.rows_examined == old(self).rows_examined,
            decreases keys@.len() - i,
        {
            let k = keys[i];
            let ghost before = self.by_surface@;
            proof {
                assert(keys@.to_set().contains(k));
                assert(keys@.take(i as int + 1).drop_last() =~= keys@.take(i as int));
                assert(keys@.take(i as int + 1).last() == k);
                assert(!keys@.take(i as int).contains(k)) by {
                    if keys@.take(i as int).contains(k) {
                        let a = choose|a: int| 0 <= a < i && keys@.take(i as int)[a] == k;
                        assert(keys@[a] == keys@[i as int]);
                    }
                }
                assert(before[k] == old_table@[k]);
                let t0 = keys@.take(i as int);
                let t1 = keys@.take(i as int + 1);
                assert forall|x: u32| t1.contains(x) <==> (t0.contains(x) || x == k) by {
                    if t1.contains(x) {
                        let a = choose|a: int| 0 <= a < t1.len() && t1[a] == x;
                        if a < i {
                            assert(t0[a] == x);
                        }
                    }
                    if t0.contains(x) {
                        let a = choose|a: int| 0 <= a < t0.len() && t0[a] == x;
                        assert(t1[a] == x);
                    }
                    if x == k {
                        assert(t1[i as int] == x);
                    }
                }
            }
            let taken = self.by_surface.take(k);
            match taken {
                Some(mut sh) => {
                    if sh.unpresented.len() > 0 {
                        sh.unpresented = Vec::new();
                        had = had + 1;
                    }
                    proof {
                        assert(sh.unpresented@ =~= Seq::<RowSpan>::empty());
                        assert(sh.wf());
                        assert(sh.state() == presented(old_table@[k]));
                    }
                    self.by_surface.put(k, sh);
                    proof {
                        assert(self.by_surface@.dom() =~= old_table@.dom());
                    }
                },
                None => {},
            }
            i = i + 1;
        }
        proof {
            assert(keys@.take(i as int) =~= keys@);
            assert forall|k: u32| keys@.contains(k) <==> keys@.to_set().contains(k) by {}
            assert(self.by_surface@ =~= old_table@.map_values(|st: ShadowState| presented(st)));
            lemma_pending_among(keys@, old_table@);
            assert(pending(old_table@) =~= keys@.to_set().filter(|k: u32| outstanding_in(old_table@, k)));
        }
        self.presented_marks = self.presented_marks + 1;
        had
    }

    /// Drop a surface's shadow, when the surface is destroyed.
    pub fn forget(&mut self, key: u32)
        requires
            old(self).wf(),
        ensures
            final(self).wf(),
            final(self).by_surface@ == old(self).by_surface@.remove(key),
            final(self).refined == old(self).refined,
            final(self).refused == old(self).refused,
            final(self).rows_dirty == old(self).rows_dirty,
            final(self).rows_examined == old(self).rows_examined,
            final(self).presented_marks == old(self).presented_marks,
    {
        let _ = self.by_surface.take(key);
    }

    /// How many shadows are held.
    pub fn len(&self) -> (n: usize)
        requires
            self.wf(),
        ensures
            n == self.by_surface@.len(),
    {
        self.by_surface.count()
    }

    /// Whether no shadow is held.
    pub fn is_empty(&self) -> (b: bool)
        requires
            self.wf(),
        ensures
            b <==> self.by_surface@.len() == 0,
    {
        self.by_surface.count() == 0
    }
}

/// The first `m` bytes of `next`, as an owned buffer.
fn copy_prefix(next: &[u8], m: usize) -> (v: Vec<u8>)
    requires
        m <= next@.len(),
    ensures
        v@ == next@.take(m as int),
{
    let mut v: Vec<u8> = Vec::with_capacity(m);
    let mut k: usize = 0;
    while k < m
        invariant
            k <= m,
            m <= next@.len(),
            v@ == next@.take(k as int),
        decreases m - k,
    {
        v.push(next[k]);
        k = k + 1;
        proof {
            assert(v@ =~= next@.take(k as int));
        }
    }
    v
}

/// Copy into `data` the rows of `next` that the spans name, and only those.
fn copy_rows(data: &mut Vec<u8>, next: &[u8], spans: &[RowSpan], stride: usize, height: usize)
    requires
        stride > 0,
        stride * height <= usize::MAX,
        old(data)@.len() == stride * height,
        next@.len() >= stride * height,
        spans_wf(spans@),
        spans_within(spans@, height as int),
    ensures
        final(data)@.len() == old(data)@.len(),
        forall|k: int|
            0 <= k < stride * height ==> final(data)@[k] == if covers(spans@, k / stride as int) {
                next@[k]
            } else {
                old(data)@[k]
            },
{
    let ghost orig = data@;
    let n = stride * height;
    let mut i: usize = 0;
    while i < spans.len()
        invariant
            stride > 0,
            n == stride * height,
            data@.len() == n,
            orig.len() == n,
            next@.len() >= n,
            i <= spans@.len(),
            spans_wf(spans@),
            spans_within(spans@, height as int),
            forall|k: int|
                0 <= k < n ==> data@[k] == if covers(spans@.take(i as int), k / stride as int) {
                    next@[k]
                } else {
                    orig[k]
                },
        decreases spans@.len() - i,
    {
        let s = spans[i];
        proof {
            assert(s.end <= height);
            assert(s.end * stride <= height * stride) by (nonlinear_arith)
                requires
                    s.end <= height,
                    stride > 0,
            ;
            assert(stride * height == height * stride) by (nonlinear_arith);
            assert(s.start * stride <= s.end * stride) by (nonlinear_arith)
                requires
                    s.start <= s.end,
                    stride > 0,
            ;
        }
        let a = s.start * stride;
        let b = s.end * stride;
        let ghost before = data@;
        let mut p = a;
        while p < b
            invariant
                stride > 0,
                a <= p <= b,
                b <= n,
                data@.len() == n,
                next@.len() >= n,
                forall|k: int|
                    0 <= k < n ==> data@[k] == if a <= k < p {
                        next@[k]
                    } else {
                        before[k]
                    },
            decreases b - p,
        {
            data.set(p, next[p]);
            p = p + 1;
        }
        proof {
            let ghost prior = spans@.take(i as int);
            assert(spans@.take(i as int + 1) =~= prior.push(s));
            assert forall|k: int| 0 <= k < n implies data@[k] == if covers(
                spans@.take(i as int + 1),
                k / stride as int,
            ) {
                next@[k]
            } else {
                orig[k]
            } by {
                let y = k / stride as int;
                lemma_covers_push(prior, s, y);
                lemma_row_of(k, stride as int, s.start as int);
                lemma_row_of(k, stride as int, s.end as int);
            }
        }
        i = i + 1;
    }
    proof {
        assert(spans@.take(i as int) =~= spans@);
    }
}

impl Default for Shadows {
    fn default() -> (s: Self)
        ensures
            s.wf(),
            s.by_surface@ == Map::<u32, ShadowState>::empty(),
            s.refined == 0 && s.refused == 0 && s.rows_dirty == 0 && s.rows_examined == 0
                && s.presented_marks == 0,
    {
        Shadows::new()
    }
}

/// `v`, or 0 where it is negative.
pub open spec fn nonneg(v: i32) -> int {
    if v < 0 {
        0
    } else {
        v as int
    }
}

/// The area a client's damage rectangles declare, `(w, h)` each, negative
/// sizes counting as empty; overlaps are counted twice, as declared.
pub open spec fn declared_area(sizes: Seq<(i32, i32)>) -> int
    decreases sizes.len(),
{
    if sizes.len() == 0 {
        0
    } else {
        declared_area(sizes.drop_last()) + nonneg(sizes.last().0) * nonneg(sizes.last().1)
    }
}

/// Whether a commit is worth comparing: its surface is not empty and its
/// declared damage covers at least half of it. A client that already
/// declares small, honest damage is left alone, because the comparison reads
/// both buffers in full.
pub fn worth_refining(damage_sizes: &[(i32, i32)], width: i32, height: usize) -> (b: bool)
    ensures
        b == (nonneg(width) * height > 0 && 2 * declared_area(damage_sizes@) >= nonneg(width) * height),
{
    let mut declared: u128 = 0;
    let mut i: usize = 0;
    while i < damage_sizes.len()
        invariant
            i <= damage_sizes@.len(),
            declared == declared_area(damage_sizes@.take(i as int)),
            declared <= i * 0x4000_0000_0000_0000,
        decreases damage_sizes@.len() - i,
    {
        let (w, h) = damage_sizes[i];
        let ww: u128 = if w < 0 {
            0
        } else {
            w as u128
        };
        let hh: u128 = if h < 0 {
            0
        } else {
            h as u128
        };
        proof {
            assert(ww * hh <= 0x4000_0000_0000_0000) by (nonlinear_arith)
                requires
                    ww <= 0x8000_0000,
                    hh <= 0x8000_0000,
            ;
            assert(damage_sizes@.take(i + 1).drop_last() =~= damage_sizes@.take(i as int));
            assert(i * 0x4000_0000_0000_0000 + 0x4000_0000_0000_0000 <= u128::MAX) by (nonlinear_arith)
                requires
                    i <= usize::MAX,
            ;
        }
        declared = declared + ww * hh;
        i = i + 1;
    }
    proof {
        assert(damage_sizes@.take(i as int) =~= damage_sizes@);
    }
    let ww: u128 = if width < 0 {
        0
    } else {
        width as u128
    };
    proof {
        assert(ww * (height as u128) <= 0x8000_0000 * usize::MAX) by (nonlinear_arith)
            requires
                ww <= 0x8000_0000,
                height <= usize::MAX,
        ;
    }
    let area: u128 = ww * height as u128;
    area > 0 && (declared >= area || declared >= area - declared)
}

/// The damage rectangles that replace a client's declaration: each changed
/// band of rows, across the buffer's whole width.
pub fn spans_to_damage(spans: &[RowSpan], width: i32) -> (v: Vec<crate::geom::Rect>)
    requires
        forall|i: int| 0 <= i < spans@.len() ==> (#[trigger] spans@[i]).start <= spans@[i].end <= i32::MAX,
    ensures
        v@.len() == spans@.len(),
        forall|i: int|
            0 <= i < spans@.len() ==> #[trigger] v@[i] == (crate::geom::Rect {
                x: 0,
                y: spans@[i].start as i32,
                w: width,
                h: (spans@[i].end - spans@[i].start) as i32,
            }),
{
    let mut v: Vec<crate::geom::Rect> = Vec::new();
    let mut i: usize = 0;
    while i < spans.len()
        invariant
            i <= spans@.len(),
            v@.len() == i,
            forall|k: int| 0 <= k < spans@.len() ==> (#[trigger] spans@[k]).start <= spans@[k].end <= i32::MAX,
            forall|k: int|
                0 <= k < i ==> #[trigger] v@[k] == (crate::geom::Rect {
                    x: 0,
                    y: spans@[k].start as i32,
                    w: width,
                    h: (spans@[k].end - spans@[k].start) as i32,
                }),
        decreases spans@.len() - i,
    {
        let s = spans[i];
        v.push(crate::geom::Rect { x: 0, y: s.start as i32, w: width, h: (s.end - s.start) as i32 });
        i = i + 1;
    }
    v
}

/// How many bytes of a commit's pool the comparison reads, when the commit
/// passes every gate before it: the mode computes, the commit attaches a new
/// shared-memory buffer and declares damage, `stride * height` bytes from
/// `offset` lie inside the pool, and the declared damage covers at least
/// half the surface. `None` when any gate fails.
pub open spec fn commit_bytes(
    mode: Mode,
    new_buffer: bool,
    damage_sizes: Seq<(i32, i32)>,
    pool_len: int,
    offset: int,
    stride: int,
    width: i32,
    height: int,
) -> Option<int> {
    if mode != Mode::Off && new_buffer && damage_sizes.len() > 0 && stride * height <= usize::MAX
        && offset + stride * height <= usize::MAX && offset + stride * height <= pool_len && nonneg(
        width,
    ) * height > 0 && 2 * declared_area(damage_sizes) >= nonneg(width) * height {
        Some(stride * height)
    } else {
        None
    }
}

/// Refine one surface commit, given what the commit carries: whether it
/// attaches a new shared-memory buffer, the sizes of the damage it
/// declares, the buffer's pool, and the buffer's offset, stride, width,
/// height and format in it. A commit that fails a gate (see
/// [`commit_bytes`]) is left alone and the shadows are untouched.
/// Otherwise the buffer's bytes are compared by [`Shadows::refine`], and the
/// verdict comes back with, in `On` mode and on a refined verdict only, the
/// damage that replaces the client's declaration: one band per span of
/// rows, across the buffer's width. Damage is only ever shrunk this way; a
/// refusal leaves the declaration standing.
pub fn refine_commit(
    shadows: &mut Shadows,
    mode: Mode,
    key: u32,
    new_buffer: bool,
    damage_sizes: &[(i32, i32)],
    pool: &[u8],
    offset: usize,
    stride: usize,
    width: i32,
    height: usize,
    format: u32,
) -> (r: Option<(Verdict, Option<Vec<crate::geom::Rect>>)>)
    requires
        old(shadows).wf(),
        height <= i32::MAX,
        old(shadows).refined < u64::MAX,
        old(shadows).refused < u64::MAX,
        old(shadows).rows_dirty + height <= u64::MAX,
        old(shadows).rows_examined + height <= u64::MAX,
    ensures
        final(shadows).wf(),
        match commit_bytes(
            mode,
            new_buffer,
            damage_sizes@,
            pool@.len() as int,
            offset as int,
            stride as int,
            width,
            height as int,
        ) {
            None => r is None && *final(shadows) == *old(shadows),
            Some(n) => r matches Some((v, replaced)) && refines(
                *old(shadows),
                *final(shadows),
                key,
                pool@.subrange(offset as int, offset + n),
                stride,
                height,
                format,
                v,
            ) && match v {
                Verdict::Refined { spans, .. } => if mode == Mode::On {
                    replaced matches Some(d) && d@.len() == spans@.len() && forall|i: int|
                        0 <= i < spans@.len() ==> #[trigger] d@[i] == (crate::geom::Rect {
                            x: 0,
                            y: spans@[i].start as i32,
                            w: width,
                            h: (spans@[i].end - spans@[i].start) as i32,
                        })
                } else {
                    replaced is None
                },
                Verdict::Refused(_) => replaced is None,
            },
        },
{
    if !mode.computes() || !new_buffer || damage_sizes.len() == 0 {
        return None;
    }
    let needed = match stride.checked_mul(height) {
        Some(n) => n,
        None => {
            return None;
        },
    };
    let end = match offset.checked_add(needed) {
        Some(e) => e,
        None => {
            return None;
        },
    };
    if end > pool.len() {
        return None;
    }
    if !worth_refining(damage_sizes, width, height) {
        return None;
    }
    let bytes = vstd::slice::slice_subrange(pool, offset, end);
    let verdict = shadows.refine(key, bytes, stride, height, format);
    let replaced = match &verdict {
        Verdict::Refined { spans, .. } => {
            if mode.replaces_declaration() {
                proof {
                    assert forall|i: int| 0 <= i < spans@.len() implies (#[trigger] spans@[i]).start
                        <= spans@[i].end <= i32::MAX by {
                        assert(spans@[i].end <= height);
                    }
                }
                Some(spans_to_damage(spans.as_slice(), width))
            } else {
                None
            }
        },
        Verdict::Refused(_) => None,
    };
    Some((verdict, replaced))
}

} // verus!
