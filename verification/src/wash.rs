//! The rolling wash: a bounded backstop for staleness not yet diagnosed.
//!
//! It does not prevent a stale pixel; it guarantees one is repainted within
//! `slices` frames, by adding one horizontal slice of the output to each
//! frame's damage. The slices must tile the output: cover every row exactly
//! once, with no gap and no overlap.

use vstd::prelude::*;
use crate::geom::Rect;

verus! {

/// A rolling refresh cursor over an output.
#[derive(Debug, Clone, Copy, PartialEq, Eq)]
pub struct Wash {
    slices: u8,
    next: u8,
}

/// The first row of slice `i` of `n` over `h` rows: every earlier slice has
/// `h / n` rows, and the first `h % n` slices one row more.
pub open spec fn slice_y(i: int, n: int, h: int) -> int {
    i * (h / n) + if i <= h % n {
        i
    } else {
        h % n
    }
}

/// The rows of slice `i` of `n` over `h` rows.
pub open spec fn slice_h(i: int, n: int, h: int) -> int {
    h / n + if i < h % n {
        1int
    } else {
        0int
    }
}

impl View for Wash {
    /// `(slices per sweep, slice the next frame refreshes)`.
    type V = (nat, nat);

    closed spec fn view(&self) -> (nat, nat) {
        (self.slices as nat, self.next as nat)
    }
}

impl Wash {
    #[verifier::type_invariant]
    spec fn cursor_in_sweep(self) -> bool {
        0 < self.slices && self.next < self.slices
    }

    /// A wash of `slices` frames per sweep, or `None` for `slices == 0`: a
    /// disabled wash is absent rather than inert.
    pub fn new(slices: u8) -> (w: Option<Self>)
        ensures
            slices == 0 ==> w is None,
            slices > 0 ==> (w matches Some(x) && x@ == (slices as nat, 0nat)),
    {
        if slices == 0 {
            None
        } else {
            Some(Wash { slices, next: 0 })
        }
    }

    /// Frames per full sweep: the staleness bound, in frames.
    pub fn bound_frames(&self) -> (n: u8)
        ensures
            n == self@.0,
            n > 0,
            self@.1 < self@.0,
    {
        proof {
            use_type_invariant(self);
        }
        self.slices
    }

    /// Advance one frame and return the region to add to this frame's
    /// damage: the full width, rows `[slice_y, slice_y + slice_h)` of the
    /// current slice, or an empty rectangle for a degenerate output.
    pub fn advance(&mut self, width: i32, height: i32) -> (r: Rect)
        ensures
            final(self)@.0 == old(self)@.0,
            final(self)@.1 == (old(self)@.1 + 1) % old(self)@.0,
            (height <= 0 || width <= 0) ==> r == (Rect { x: 0, y: 0, w: 0, h: 0 }),
            (height > 0 && width > 0) ==> r == (Rect {
                x: 0,
                y: slice_y(old(self)@.1 as int, old(self)@.0 as int, height as int) as i32,
                w: width,
                h: slice_h(old(self)@.1 as int, old(self)@.0 as int, height as int) as i32,
            }),
            (height > 0 && width > 0) ==> 0 <= slice_y(old(self)@.1 as int, old(self)@.0 as int, height as int)
                && slice_y(old(self)@.1 as int, old(self)@.0 as int, height as int) + slice_h(
                old(self)@.1 as int,
                old(self)@.0 as int,
                height as int,
            ) <= height,
    {
        proof {
            use_type_invariant(&*self);
        }
        let i = self.next as u32;
        let n = self.slices as u32;
        self.next = ((self.next as u32 + 1) % n) as u8;
        if height <= 0 || width <= 0 {
            return Rect { x: 0, y: 0, w: 0, h: 0 };
        }
        let hh = height as u32;
        let base = hh / n;
        let extra = hh % n;
        proof {
            lemma_slice_bounds(i as int, n as int, hh as int);
        }
        let y = i * base + if i <= extra {
            i
        } else {
            extra
        };
        let h = base + if i < extra {
            1u32
        } else {
            0u32
        };
        Rect { x: 0, y: y as i32, w: width, h: h as i32 }
    }
}

proof fn lemma_slice_bounds(i: int, n: int, h: int)
    requires
        0 <= i < n,
        0 < h,
        0 < n,
    ensures
        0 <= i * (h / n) <= h,
        0 <= slice_y(i, n, h),
        slice_y(i, n, h) + slice_h(i, n, h) <= h,
        0 <= slice_h(i, n, h),
{
    lemma_slices_contiguous(n, h);
    lemma_slice_monotone(n, h, i + 1, n);
    vstd::arithmetic::div_mod::lemma_fundamental_div_mod(h, n);
    assert(0 <= h / n) by {
        vstd::arithmetic::div_mod::lemma_div_pos_is_pos(h, n);
    }
    assert(0 <= i * (h / n) <= n * (h / n)) by (nonlinear_arith)
        requires
            0 <= i < n,
            0 <= h / n,
    ;
    vstd::arithmetic::div_mod::lemma_mod_bound(h, n);
}

/// Each slice starts where the previous one ends, the first at row 0 and
/// the sweep ending at row `h`.
pub proof fn lemma_slices_contiguous(n: int, h: int)
    requires
        0 < n,
        0 <= h,
    ensures
        slice_y(0, n, h) == 0,
        slice_y(n, n, h) == h,
        forall|i: int| 0 <= i < n ==> slice_y(i + 1, n, h) == #[trigger] slice_y(i, n, h) + slice_h(i, n, h),
        forall|i: int| 0 <= i < n ==> #[trigger] slice_h(i, n, h) >= 0,
{
    vstd::arithmetic::div_mod::lemma_fundamental_div_mod(h, n);
    vstd::arithmetic::div_mod::lemma_mod_bound(h, n);
    vstd::arithmetic::div_mod::lemma_div_pos_is_pos(h, n);
    let q = h / n;
    let r = h % n;
    assert(n * q == q * n) by (nonlinear_arith);
    assert forall|i: int| 0 <= i < n implies slice_y(i + 1, n, h) == #[trigger] slice_y(i, n, h)
        + slice_h(i, n, h) by {
        assert((i + 1) * q == i * q + q) by (nonlinear_arith);
    }
    assert(0 * q == 0) by (nonlinear_arith);
}

proof fn lemma_slice_monotone(n: int, h: int, i: int, j: int)
    requires
        0 < n,
        0 <= h,
        0 <= i <= j <= n,
    ensures
        slice_y(i, n, h) <= slice_y(j, n, h),
    decreases j - i,
{
    if i < j {
        lemma_slices_contiguous(n, h);
        assert(slice_y(j, n, h) == slice_y(j - 1, n, h) + slice_h(j - 1, n, h));
        lemma_slice_monotone(n, h, i, j - 1);
    }
}

/// Row `y` lies in slice `i` of `n` over `h` rows.
pub open spec fn in_slice(y: int, i: int, n: int, h: int) -> bool {
    slice_y(i, n, h) <= y < slice_y(i, n, h) + slice_h(i, n, h)
}

/// Some slice of the sweep holds row `y`.
pub open spec fn swept(y: int, n: int, h: int) -> bool {
    exists|i: int| 0 <= i < n && #[trigger] in_slice(y, i, n, h)
}

/// A full sweep of `n` slices over `h` rows covers every row exactly once.
pub proof fn lemma_sweep_tiles_rows(n: int, h: int)
    requires
        0 < n,
        0 < h,
    ensures
        forall|y: int| 0 <= y < h ==> #[trigger] swept(y, n, h),
        forall|y: int, i: int, j: int|
            0 <= i < n && 0 <= j < n && #[trigger] in_slice(y, i, n, h) && #[trigger] in_slice(
                y,
                j,
                n,
                h,
            ) ==> i == j,
{
    lemma_slices_contiguous(n, h);
    assert forall|y: int| 0 <= y < h implies #[trigger] swept(y, n, h) by {
        lemma_row_in_some_slice(n, h, y, n);
        let i = choose|i: int| 0 <= i < n && slice_y(i, n, h) <= y < slice_y(i, n, h) + #[trigger] slice_h(i, n, h);
        assert(in_slice(y, i, n, h));
    }
    assert forall|y: int, i: int, j: int|
        0 <= i < n && 0 <= j < n && #[trigger] in_slice(y, i, n, h) && #[trigger] in_slice(y, j, n, h) implies i == j by {
        if i < j {
            lemma_slice_monotone(n, h, i + 1, j);
        } else if j < i {
            lemma_slice_monotone(n, h, j + 1, i);
        }
    }
}

proof fn lemma_row_in_some_slice(n: int, h: int, y: int, k: int)
    requires
        0 < n,
        0 <= y,
        0 <= k <= n,
        y < slice_y(k, n, h),
        0 <= h,
    ensures
        exists|i: int| 0 <= i < k && slice_y(i, n, h) <= y < slice_y(i, n, h) + #[trigger] slice_h(i, n, h),
    decreases k,
{
    lemma_slices_contiguous(n, h);
    if k == 0 {
        assert(false);
    } else if slice_y(k - 1, n, h) <= y {
        assert(slice_y(k, n, h) == slice_y(k - 1, n, h) + slice_h(k - 1, n, h));
        assert(slice_y(k - 1, n, h) <= y < slice_y(k - 1, n, h) + slice_h(k - 1, n, h));
    } else {
        lemma_row_in_some_slice(n, h, y, k - 1);
        let i = choose|i: int| 0 <= i < k - 1 && slice_y(i, n, h) <= y < slice_y(i, n, h) + #[trigger] slice_h(i, n, h);
        assert(0 <= i < k);
    }
}

/// Row `y` lies in the slice one of the `n` frames from cursor `start`
/// refreshes.
pub open spec fn repainted(y: int, start: int, n: int, h: int) -> bool {
    exists|f: int| 0 <= f < n && #[trigger] in_slice(y, (start + f) % n, n, h)
}

/// `a` reduced into `0..n`, for `a` below `2 * n`.
proof fn lemma_wrap(a: int, n: int)
    requires
        0 < n,
        0 <= a < 2 * n,
    ensures
        a % n == (if a < n {
            a
        } else {
            a - n
        }),
{
    if a < n {
        vstd::arithmetic::div_mod::lemma_small_mod(a as nat, n as nat);
    } else {
        vstd::arithmetic::div_mod::lemma_small_mod((a - n) as nat, n as nat);
        vstd::arithmetic::div_mod::lemma_mod_sub_multiples_vanish(a, n);
    }
}

/// Any `n` frames in a row repaint every row exactly once. Advancing moves
/// the cursor from slice `c` to slice `(c + 1) % n`, so from any starting
/// slice the `f`-th frame after it refreshes slice `(start + f) % n`; over
/// frames `0..n` each row of the output lies in the slice of exactly one.
pub proof fn lemma_n_frames_repaint_every_row_once(n: int, h: int, start: int)
    requires
        0 < n,
        0 < h,
        0 <= start < n,
    ensures
        forall|f: int| 0 <= f ==> ((start + f) % n + 1) % n == #[trigger] ((start + f + 1) % n),
        forall|y: int| 0 <= y < h ==> #[trigger] repainted(y, start, n, h),
        forall|y: int, f1: int, f2: int|
            0 <= f1 < n && 0 <= f2 < n && #[trigger] in_slice(y, (start + f1) % n, n, h) && #[trigger] in_slice(
                y,
                (start + f2) % n,
                n,
                h,
            ) ==> f1 == f2,
{
    assert forall|f: int| 0 <= f implies ((start + f) % n + 1) % n == #[trigger] ((start + f + 1) % n) by {
        vstd::arithmetic::div_mod::lemma_add_mod_noop_right(1, start + f, n);
        assert(1 + (start + f) == start + f + 1);
    }
    lemma_sweep_tiles_rows(n, h);
    assert forall|y: int| 0 <= y < h implies #[trigger] repainted(y, start, n, h) by {
        assert(swept(y, n, h));
        let i = choose|i: int| 0 <= i < n && #[trigger] in_slice(y, i, n, h);
        let f = if i >= start {
            i - start
        } else {
            i - start + n
        };
        lemma_wrap(start + f, n);
        assert((start + f) % n == i);
        assert(in_slice(y, (start + f) % n, n, h));
    }
    assert forall|y: int, f1: int, f2: int|
        0 <= f1 < n && 0 <= f2 < n && #[trigger] in_slice(y, (start + f1) % n, n, h) && #[trigger] in_slice(
            y,
            (start + f2) % n,
            n,
            h,
        ) implies f1 == f2 by {
        lemma_wrap(start + f1, n);
        lemma_wrap(start + f2, n);
        let i1 = (start + f1) % n;
        let i2 = (start + f2) % n;
        assert(0 <= i1 < n && 0 <= i2 < n);
        assert(i1 == i2);
    }
}

} // verus!
