//! Stale-pixel detection: what the display is showing versus what the
//! compositor composed.
//!
//! Compositing happens in a RAM shadow and one damage-clipped copy moves the
//! result into the scanout slot. If the damage is under-reported by even one
//! rectangle, that slot keeps whatever it held two frames ago. This module
//! compares the two buffers, merges the differing rows into rectangles, and
//! names each rectangle after the element it coincides with.

use vstd::prelude::*;
use crate::truedamage::same_bytes;
use crate::text::{decimal_bytes, push_decimal_bytes};

verus! {

/// One contiguous run of stale rows, merged into a rectangle.
#[derive(Debug, Clone, PartialEq, Eq)]
pub struct StaleRegion {
    pub x: i32,
    pub y: i32,
    pub w: i32,
    pub h: i32,
    /// Stale pixels inside this rectangle (not its area).
    pub pixels: u64,
    /// Which element this rectangle coincides with, if any. `None` is a
    /// finding: the background is not being repainted.
    pub attribution: Option<String>,
}

/// The verdict, with its denominator: "clean" and "did not look" must not
/// read the same.
#[derive(Debug, Clone, PartialEq, Eq)]
pub struct StaleReport {
    pub stale_pixels: u64,
    pub compared_pixels: u64,
    pub regions: Vec<StaleRegion>,
}

impl StaleReport {
    /// Something was compared and nothing was stale.
    pub fn is_clean(&self) -> (b: bool)
        ensures
            b <==> (self.compared_pixels > 0 && self.stale_pixels == 0),
    {
        self.compared_pixels > 0 && self.stale_pixels == 0
    }
}

/// An element the compositor drew, for attribution.
#[derive(Debug, Clone)]
pub struct NamedRect {
    pub name: String,
    pub x: i32,
    pub y: i32,
    pub w: i32,
    pub h: i32,
}

/// Pixel `(x, y)` of two ARGB8888 buffers `w` pixels wide differs in its
/// blue, green or red byte. Alpha is not compared.
pub open spec fn px_stale(sh: Seq<u8>, sc: Seq<u8>, w: int, y: int, x: int) -> bool {
    let p = y * (w * 4) + x * 4;
    sh[p] != sc[p] || sh[p + 1] != sc[p + 1] || sh[p + 2] != sc[p + 2]
}

/// Stale pixels among the first `n` of row `y`.
pub open spec fn stale_count(sh: Seq<u8>, sc: Seq<u8>, w: int, y: int, n: int) -> nat
    decreases n,
{
    if n <= 0 {
        0
    } else {
        stale_count(sh, sc, w, y, n - 1) + if px_stale(sh, sc, w, y, n - 1) {
            1nat
        } else {
            0nat
        }
    }
}

/// The leftmost stale pixel of row `y`.
pub open spec fn first_stale(sh: Seq<u8>, sc: Seq<u8>, w: int, y: int) -> int {
    choose|x: int|
        0 <= x < w && px_stale(sh, sc, w, y, x) && forall|z: int|
            0 <= z < x ==> !#[trigger] px_stale(sh, sc, w, y, z)
}

/// The rightmost stale pixel of row `y`.
pub open spec fn last_stale(sh: Seq<u8>, sc: Seq<u8>, w: int, y: int) -> int {
    choose|x: int|
        0 <= x < w && px_stale(sh, sc, w, y, x) && forall|z: int|
            x < z < w ==> !#[trigger] px_stale(sh, sc, w, y, z)
}

/// The rows among the first `y` that hold a stale pixel, each as
/// `(row, leftmost, rightmost, count)`.
pub open spec fn stale_runs(sh: Seq<u8>, sc: Seq<u8>, w: int, y: int) -> Seq<(int, int, int, nat)>
    decreases y,
{
    if y <= 0 {
        Seq::empty()
    } else {
        let r = stale_runs(sh, sc, w, y - 1);
        let n = stale_count(sh, sc, w, y - 1, w);
        if n > 0 {
            r.push((y - 1, first_stale(sh, sc, w, y - 1), last_stale(sh, sc, w, y - 1), n))
        } else {
            r
        }
    }
}

/// Fold one row run into the regions: it joins the last region when it
/// starts right below it and their extents overlap, else it opens a region.
/// Regions are `(x, y, w, h, pixels)`.
pub open spec fn merge_step(regs: Seq<(int, int, int, int, nat)>, run: (int, int, int, nat)) -> Seq<
    (int, int, int, int, nat),
> {
    if regs.len() > 0 && regs.last().1 + regs.last().3 == run.0 && run.1 <= regs.last().0
        + regs.last().2 && run.2 >= regs.last().0 {
        let last = regs.last();
        let nx = if last.0 <= run.1 {
            last.0
        } else {
            run.1
        };
        let nr = if last.0 + last.2 >= run.2 + 1 {
            last.0 + last.2
        } else {
            run.2 + 1
        };
        regs.update(regs.len() - 1, (nx, last.1, nr - nx, last.3 + 1, last.4 + run.3))
    } else {
        regs.push((run.1, run.0, run.2 - run.1 + 1, 1, run.3))
    }
}

pub open spec fn merge_runs(runs: Seq<(int, int, int, nat)>) -> Seq<(int, int, int, int, nat)>
    decreases runs.len(),
{
    if runs.len() == 0 {
        Seq::empty()
    } else {
        merge_step(merge_runs(runs.drop_last()), runs.last())
    }
}

pub open spec fn run_total(runs: Seq<(int, int, int, nat)>) -> nat
    decreases runs.len(),
{
    if runs.len() == 0 {
        0
    } else {
        run_total(runs.drop_last()) + runs.last().3
    }
}

pub open spec fn region_of(r: StaleRegion) -> (int, int, int, int, nat) {
    (r.x as int, r.y as int, r.w as int, r.h as int, r.pixels as nat)
}

/// The byte count both buffers must reach; a geometry whose byte count does
/// not fit in memory can never be met.
pub open spec fn usable_bytes(w: usize, h: usize) -> int {
    if w * 4 * h > usize::MAX {
        usize::MAX as int + 1
    } else {
        w * 4 * h
    }
}

proof fn lemma_stale_count_bound(sh: Seq<u8>, sc: Seq<u8>, w: int, y: int, n: int)
    ensures
        n >= 0 ==> stale_count(sh, sc, w, y, n) <= n,
        n < 0 ==> stale_count(sh, sc, w, y, n) == 0,
    decreases n,
{
    if n > 0 {
        lemma_stale_count_bound(sh, sc, w, y, n - 1);
    }
}

/// No stale pixel among the first `n` of the row means a count of zero.
proof fn lemma_stale_count_zero(sh: Seq<u8>, sc: Seq<u8>, w: int, y: int, n: int)
    requires
        forall|z: int| 0 <= z < n ==> !#[trigger] px_stale(sh, sc, w, y, z),
    ensures
        stale_count(sh, sc, w, y, n) == 0,
    decreases n,
{
    if n > 0 {
        lemma_stale_count_zero(sh, sc, w, y, n - 1);
    }
}

/// Each run is a row inside the picture with a non-empty extent, and the
/// runs climb row by row.
pub open spec fn runs_ok(runs: Seq<(int, int, int, nat)>, w: int, h: int) -> bool {
    &&& forall|i: int|
        0 <= i < runs.len() ==> {
            let r = #[trigger] runs[i];
            0 <= r.0 < h && 0 <= r.1 <= r.2 < w && r.3 <= w
        }
    &&& forall|i: int, j: int| #![trigger runs[i], runs[j]] 0 <= i < j < runs.len() ==> runs[i].0 < runs[j].0
}

pub open spec fn regions_ok(regs: Seq<(int, int, int, int, nat)>, w: int, h: int, t: nat) -> bool {
    forall|i: int|
        0 <= i < regs.len() ==> {
            let r = #[trigger] regs[i];
            &&& 0 <= r.0
            &&& 1 <= r.2
            &&& r.0 + r.2 <= w
            &&& 0 <= r.1
            &&& 1 <= r.3
            &&& r.1 + r.3 <= h
            &&& r.4 <= t
        }
}

proof fn lemma_merge_ok(runs: Seq<(int, int, int, nat)>, w: int, h: int)
    requires
        runs_ok(runs, w, h),
    ensures
        regions_ok(merge_runs(runs), w, h, run_total(runs)),
        runs.len() > 0 ==> merge_runs(runs).len() > 0 && merge_runs(runs).last().1
            + merge_runs(runs).last().3 == runs.last().0 + 1,
    decreases runs.len(),
{
    if runs.len() > 0 {
        let d = runs.drop_last();
        assert(runs_ok(d, w, h)) by {
            assert forall|i: int| 0 <= i < d.len() implies {
                let r = #[trigger] d[i];
                0 <= r.0 < h && 0 <= r.1 <= r.2 < w && r.3 <= w
            } by {
                assert(d[i] == runs[i]);
            }
            assert forall|i: int, j: int| 0 <= i < j < d.len() implies d[i].0 < d[j].0 by {
                assert(d[i] == runs[i] && d[j] == runs[j]);
            }
        }
        lemma_merge_ok(d, w, h);
        let regs = merge_runs(d);
        let run = runs.last();
        assert(run == runs[runs.len() - 1]);
        assert(0 <= run.0 < h && 0 <= run.1 <= run.2 < w);
        assert(merge_runs(runs) == merge_step(regs, run));
        assert forall|i: int| 0 <= i < regs.len() implies (#[trigger] regs[i]).4 <= run_total(runs) by {
        }
        if d.len() > 0 {
            assert(runs[runs.len() - 2].0 < runs[runs.len() - 1].0);
        }
    }
}

/// The pixels the regions hold, summed.
pub open spec fn region_pixels(regs: Seq<(int, int, int, int, nat)>) -> nat
    decreases regs.len(),
{
    if regs.len() == 0 {
        0
    } else {
        region_pixels(regs.drop_last()) + regs.last().4
    }
}

/// Pixel `(x, y)` lies in region `g`.
pub open spec fn in_region(g: (int, int, int, int, nat), x: int, y: int) -> bool {
    g.0 <= x < g.0 + g.2 && g.1 <= y < g.1 + g.3
}

/// Pixel `(x, y)` lies in one of the regions.
pub open spec fn in_some_region(regs: Seq<(int, int, int, int, nat)>, x: int, y: int) -> bool {
    exists|i: int| 0 <= i < regs.len() && #[trigger] in_region(regs[i], x, y)
}

proof fn lemma_merge_keeps_pixels(runs: Seq<(int, int, int, nat)>)
    ensures
        region_pixels(merge_runs(runs)) == run_total(runs),
    decreases runs.len(),
{
    if runs.len() > 0 {
        let d = runs.drop_last();
        lemma_merge_keeps_pixels(d);
        let regs = merge_runs(d);
        let run = runs.last();
        let m = merge_step(regs, run);
        if regs.len() > 0 && regs.last().1 + regs.last().3 == run.0 && run.1 <= regs.last().0
            + regs.last().2 && run.2 >= regs.last().0 {
            assert(m.drop_last() =~= regs.drop_last());
        } else {
            assert(m.drop_last() =~= regs);
        }
    }
}

proof fn lemma_merge_heights(runs: Seq<(int, int, int, nat)>)
    ensures
        forall|i: int| 0 <= i < merge_runs(runs).len() ==> (#[trigger] merge_runs(runs)[i]).3 >= 1,
    decreases runs.len(),
{
    if runs.len() > 0 {
        let d = runs.drop_last();
        lemma_merge_heights(d);
        let regs = merge_runs(d);
        let run = runs.last();
        assert(merge_runs(runs) == merge_step(regs, run));
        if regs.len() > 0 && regs.last().1 + regs.last().3 == run.0 && run.1 <= regs.last().0
            + regs.last().2 && run.2 >= regs.last().0 {
            assert(regs.last() == regs[regs.len() - 1]);
            assert forall|i: int| 0 <= i < merge_runs(runs).len() implies (#[trigger] merge_runs(
                runs,
            )[i]).3 >= 1 by {
                assert(regs[i].3 >= 1);
            }
        } else {
            assert forall|i: int| 0 <= i < merge_runs(runs).len() implies (#[trigger] merge_runs(
                runs,
            )[i]).3 >= 1 by {
                if i < regs.len() {
                    assert(regs[i].3 >= 1);
                }
            }
        }
    }
}

proof fn lemma_merge_covers_runs(runs: Seq<(int, int, int, nat)>, k: int, x: int)
    requires
        0 <= k < runs.len(),
        runs[k].1 <= x <= runs[k].2,
    ensures
        in_some_region(merge_runs(runs), x, runs[k].0),
    decreases runs.len(),
{
    let d = runs.drop_last();
    let regs = merge_runs(d);
    let run = runs.last();
    let m = merge_step(regs, run);
    assert(merge_runs(runs) == m);
    let joins = regs.len() > 0 && regs.last().1 + regs.last().3 == run.0 && run.1 <= regs.last().0
        + regs.last().2 && run.2 >= regs.last().0;
    if k == runs.len() - 1 {
        assert(run == runs[k]);
        if joins {
            lemma_merge_heights(d);
            let last = regs.last();
            assert(last == regs[regs.len() - 1]);
            let nx = if last.0 <= run.1 {
                last.0
            } else {
                run.1
            };
            let nr = if last.0 + last.2 >= run.2 + 1 {
                last.0 + last.2
            } else {
                run.2 + 1
            };
            let g = (nx, last.1, nr - nx, last.3 + 1, last.4 + run.3);
            assert(m == regs.update(regs.len() - 1, g));
            assert(m[regs.len() - 1] == g);
            assert(in_region(g, x, run.0));
            assert(in_region(m[regs.len() - 1], x, run.0));
        } else {
            let g = (run.1, run.0, run.2 - run.1 + 1, 1int, run.3);
            assert(m == regs.push(g));
            assert(m[regs.len() as int] == g);
            assert(in_region(g, x, run.0));
            assert(in_region(m[regs.len() as int], x, run.0));
        }
    } else {
        assert(d[k] == runs[k]);
        lemma_merge_covers_runs(d, k, x);
        let i = choose|i: int| 0 <= i < regs.len() && #[trigger] in_region(regs[i], x, runs[k].0);
        if joins && i == regs.len() - 1 {
            assert(in_region(m[i], x, runs[k].0));
        } else {
            assert(m[i] == regs[i]);
            assert(in_region(m[i], x, runs[k].0));
        }
    }
}

proof fn lemma_stale_counted(sh: Seq<u8>, sc: Seq<u8>, w: int, y: int, n: int, x: int)
    requires
        0 <= x < n,
        px_stale(sh, sc, w, y, x),
    ensures
        stale_count(sh, sc, w, y, n) > 0,
    decreases n,
{
    if x < n - 1 {
        lemma_stale_counted(sh, sc, w, y, n - 1, x);
    }
}

/// A stale pixel of a row lies between the row's leftmost and rightmost.
proof fn lemma_stale_between(sh: Seq<u8>, sc: Seq<u8>, w: int, y: int, x: int)
    requires
        0 <= x < w,
        px_stale(sh, sc, w, y, x),
    ensures
        first_stale(sh, sc, w, y) <= x <= last_stale(sh, sc, w, y),
{
    lemma_first_stale(sh, sc, w, y, x);
    lemma_last_stale(sh, sc, w, y, x);
}

proof fn lemma_first_stale(sh: Seq<u8>, sc: Seq<u8>, w: int, y: int, x: int)
    requires
        0 <= x < w,
        px_stale(sh, sc, w, y, x),
    ensures
        first_stale(sh, sc, w, y) <= x,
{
    lemma_least_stale(sh, sc, w, y, x, x);
    let f = first_stale(sh, sc, w, y);
    assert(0 <= f < w && forall|z: int| 0 <= z < f ==> !#[trigger] px_stale(sh, sc, w, y, z));
    if f > x {
        assert(!px_stale(sh, sc, w, y, x));
    }
}

proof fn lemma_last_stale(sh: Seq<u8>, sc: Seq<u8>, w: int, y: int, x: int)
    requires
        0 <= x < w,
        px_stale(sh, sc, w, y, x),
    ensures
        x <= last_stale(sh, sc, w, y),
{
    lemma_greatest_stale(sh, sc, w, y, x, x);
    let l = last_stale(sh, sc, w, y);
    assert(0 <= l < w && forall|z: int| l < z < w ==> !#[trigger] px_stale(sh, sc, w, y, z));
    if l < x {
        assert(!px_stale(sh, sc, w, y, x));
    }
}

proof fn lemma_least_stale(sh: Seq<u8>, sc: Seq<u8>, w: int, y: int, x: int, b: int)
    requires
        0 <= x <= b < w,
        px_stale(sh, sc, w, y, b),
    ensures
        exists|m: int|
            0 <= m < w && px_stale(sh, sc, w, y, m) && forall|z: int| 0 <= z < m ==> !#[trigger] px_stale(sh, sc, w, y, z),
    decreases b,
{
    if exists|z: int| 0 <= z < b && px_stale(sh, sc, w, y, z) {
        let z = choose|z: int| 0 <= z < b && px_stale(sh, sc, w, y, z);
        lemma_least_stale(sh, sc, w, y, 0, z);
    } else {
        assert(forall|z: int| 0 <= z < b ==> !#[trigger] px_stale(sh, sc, w, y, z));
    }
}

proof fn lemma_greatest_stale(sh: Seq<u8>, sc: Seq<u8>, w: int, y: int, x: int, b: int)
    requires
        0 <= b <= x < w,
        px_stale(sh, sc, w, y, b),
    ensures
        exists|m: int|
            0 <= m < w && px_stale(sh, sc, w, y, m) && forall|z: int| m < z < w ==> !#[trigger] px_stale(sh, sc, w, y, z),
    decreases w - b,
{
    if exists|z: int| b < z < w && px_stale(sh, sc, w, y, z) {
        let z = choose|z: int| b < z < w && px_stale(sh, sc, w, y, z);
        lemma_greatest_stale(sh, sc, w, y, z, z);
    } else {
        assert(forall|z: int| b < z < w ==> !#[trigger] px_stale(sh, sc, w, y, z));
    }
}

proof fn lemma_stale_has_run(sh: Seq<u8>, sc: Seq<u8>, w: int, rows: int, x: int, y: int)
    requires
        0 <= x < w,
        0 <= y < rows,
        px_stale(sh, sc, w, y, x),
    ensures
        exists|k: int|
            0 <= k < stale_runs(sh, sc, w, rows).len() && (#[trigger] stale_runs(sh, sc, w, rows)[k]).0 == y
                && stale_runs(sh, sc, w, rows)[k].1 <= x <= stale_runs(sh, sc, w, rows)[k].2,
    decreases rows,
{
    let prev = stale_runs(sh, sc, w, rows - 1);
    let runs = stale_runs(sh, sc, w, rows);
    if y == rows - 1 {
        lemma_stale_counted(sh, sc, w, y, w, x);
        lemma_stale_between(sh, sc, w, y, x);
        assert(runs[runs.len() - 1].0 == y);
    } else {
        lemma_stale_has_run(sh, sc, w, rows - 1, x, y);
        let k = choose|k: int|
            0 <= k < prev.len() && (#[trigger] prev[k]).0 == y && prev[k].1 <= x <= prev[k].2;
        assert(runs[k] == prev[k]);
    }
}

/// What `scan` reports accounts for every stale pixel: its regions hold, in
/// sum, exactly the stale pixels it counts, and every stale pixel of the
/// compared picture lies in one of its regions.
pub proof fn lemma_regions_account_for_every_stale_pixel(sh: Seq<u8>, sc: Seq<u8>, w: int, h: int)
    ensures
        region_pixels(merge_runs(stale_runs(sh, sc, w, h))) == run_total(stale_runs(sh, sc, w, h)),
        forall|x: int, y: int|
            0 <= x < w && 0 <= y < h && #[trigger] px_stale(sh, sc, w, y, x) ==> in_some_region(
                merge_runs(stale_runs(sh, sc, w, h)),
                x,
                y,
            ),
{
    lemma_merge_keeps_pixels(stale_runs(sh, sc, w, h));
    assert forall|x: int, y: int|
        0 <= x < w && 0 <= y < h && #[trigger] px_stale(sh, sc, w, y, x) implies in_some_region(
            merge_runs(stale_runs(sh, sc, w, h)),
            x,
            y,
        ) by {
        lemma_stale_has_run(sh, sc, w, h, x, y);
        let runs = stale_runs(sh, sc, w, h);
        let k = choose|k: int|
            0 <= k < runs.len() && (#[trigger] runs[k]).0 == y && runs[k].1 <= x <= runs[k].2;
        lemma_merge_covers_runs(runs, k, x);
    }
}

/// Compare the composed truth against what scanout actually holds.
///
/// Both buffers are ARGB8888, `w * h * 4` bytes; the alpha byte is ignored.
/// Rows holding a stale pixel become runs from their leftmost to their
/// rightmost stale pixel, and a run joins the region above it when it starts
/// on the next row and their extents overlap. Regions are `i32`
/// rectangles, so a picture that is compared is at most `i32::MAX` pixels
/// each way.
pub fn scan(shadow: &[u8], scanout: &[u8], w: usize, h: usize) -> (r: StaleReport)
    requires
        w * 4 <= usize::MAX,
        shadow@.len() >= usable_bytes(w, h) && scanout@.len() >= usable_bytes(w, h) ==> w <= i32::MAX
            && h <= i32::MAX,
    ensures
        (shadow@.len() < usable_bytes(w, h) || scanout@.len() < usable_bytes(w, h) || w == 0
            || h == 0) ==> (r.stale_pixels == 0 && r.compared_pixels == 0 && r.regions@.len()
            == 0),
        !(shadow@.len() < usable_bytes(w, h) || scanout@.len() < usable_bytes(w, h) || w == 0
            || h == 0) ==> {
            &&& r.compared_pixels == w * h
            &&& r.stale_pixels == run_total(stale_runs(shadow@, scanout@, w as int, h as int))
            &&& r.regions@.map_values(|g: StaleRegion| region_of(g)) == merge_runs(
                stale_runs(shadow@, scanout@, w as int, h as int),
            )
            &&& forall|i: int| 0 <= i < r.regions@.len() ==> (#[trigger] r.regions@[i]).attribution is None
        },
{
    let stride = w * 4;
    let slen = shadow.len();
    let clen = scanout.len();
    let usable = match stride.checked_mul(h) {
        Some(u) => u,
        None => {
            return StaleReport { stale_pixels: 0, compared_pixels: 0, regions: Vec::new() };
        },
    };
    if shadow.len() < usable || scanout.len() < usable || w == 0 || h == 0 {
        return StaleReport { stale_pixels: 0, compared_pixels: 0, regions: Vec::new() };
    }
    let ghost sh = shadow@;
    let ghost sc = scanout@;
    let ghost wi = w as int;
    let mut runs: Vec<(usize, usize, usize, u64)> = Vec::new();
    let mut y: usize = 0;
    while y < h
        invariant
            stride == w * 4,
            usable == stride * h,
            0 < w,
            w <= i32::MAX,
            y <= h,
            sh == shadow@,
            sc == scanout@,
            wi == w,
            shadow@.len() >= usable,
            scanout@.len() >= usable,
            runs@.len() == stale_runs(sh, sc, wi, y as int).len(),
            forall|i: int|
                0 <= i < runs@.len() ==> {
                    let a = #[trigger] runs@[i];
                    let b = stale_runs(sh, sc, wi, y as int)[i];
                    a.0 == b.0 && a.1 == b.1 && a.2 == b.2 && a.3 == b.3
                },
        decreases h - y,
    {
        proof {
            lemma_row_fits(y as int, h as int, stride as int);
        }
        let ghost prev_runs = stale_runs(sh, sc, wi, y as int);
        match row_run(shadow, scanout, w, y) {
            Some(run) => {
                runs.push(run);
                proof {
                    let nr = stale_runs(sh, sc, wi, y as int + 1);
                    assert(nr == prev_runs.push((y as int, run.1 as int, run.2 as int, run.3 as nat)));
                    assert forall|i: int| 0 <= i < runs@.len() implies {
                        let a = #[trigger] runs@[i];
                        let b = nr[i];
                        a.0 == b.0 && a.1 == b.1 && a.2 == b.2 && a.3 == b.3
                    } by {
                        if i < prev_runs.len() {
                            assert(nr[i] == prev_runs[i]);
                        }
                    }
                }
            },
            None => {
                proof {
                    assert(stale_runs(sh, sc, wi, y as int + 1) == prev_runs);
                }
            },
        }
        y = y + 1;
    }
    let ghost all_runs = stale_runs(sh, sc, wi, h as int);
    proof {
        lemma_runs_ok(sh, sc, wi, h as int);
        lemma_run_total_bound(sh, sc, wi, h as int);
        assert((h as int) * wi <= usize::MAX) by (nonlinear_arith)
            requires
                usable == wi * 4 * h,
                usable <= usize::MAX,
                wi > 0,
        ;
    }
    let mut stale_pixels: u64 = 0;
    let mut i: usize = 0;
    while i < runs.len()
        invariant
            i <= runs@.len(),
            runs@.len() == all_runs.len(),
            forall|k: int|
                0 <= k < runs@.len() ==> {
                    let a = #[trigger] runs@[k];
                    let b = all_runs[k];
                    a.0 == b.0 && a.1 == b.1 && a.2 == b.2 && a.3 == b.3
                },
            stale_pixels == run_total(all_runs.take(i as int)),
            run_total(all_runs) <= (h as int) * wi,
            (h as int) * wi <= usize::MAX,
            forall|k: int| 0 <= k <= all_runs.len() ==> run_total(#[trigger] all_runs.take(k)) <= run_total(all_runs),
        decreases runs@.len() - i,
    {
        proof {
            assert(all_runs.take(i as int + 1).drop_last() =~= all_runs.take(i as int));
            assert(all_runs.take(i as int + 1).last() == all_runs[i as int]);
        }
        stale_pixels = stale_pixels + runs[i].3;
        i = i + 1;
    }
    proof {
        assert(all_runs.take(i as int) =~= all_runs);
        lemma_merge_ok(all_runs, wi, h as int);
    }
    let mut regions: Vec<StaleRegion> = Vec::new();
    let mut j: usize = 0;
    while j < runs.len()
        invariant
            j <= runs@.len(),
            runs@.len() == all_runs.len(),
            wi == w,
            w <= i32::MAX,
            h <= i32::MAX,
            runs_ok(all_runs, wi, h as int),
            forall|k: int|
                0 <= k < runs@.len() ==> {
                    let a = #[trigger] runs@[k];
                    let b = all_runs[k];
                    a.0 == b.0 && a.1 == b.1 && a.2 == b.2 && a.3 == b.3
                },
            regions@.map_values(|g: StaleRegion| region_of(g)) == merge_runs(all_runs.take(j as int)),
            forall|k: int| 0 <= k < regions@.len() ==> (#[trigger] regions@[k]).attribution is None,
            run_total(all_runs) <= (h as int) * wi,
            (h as int) * wi <= usize::MAX,
        decreases runs@.len() - j,
    {
        let ghost pre = all_runs.take(j as int);
        let ghost regs = merge_runs(pre);
        proof {
            assert(all_runs.take(j as int + 1).drop_last() =~= pre);
            assert(all_runs.take(j as int + 1).last() == all_runs[j as int]);
            lemma_take_ok(all_runs, wi, h as int, j as int);
            lemma_take_ok(all_runs, wi, h as int, j as int + 1);
            lemma_merge_ok(pre, wi, h as int);
            lemma_merge_ok(all_runs.take(j as int + 1), wi, h as int);
            lemma_run_total_take(all_runs, j as int + 1);
            lemma_run_total_take(all_runs, j as int);
        }
        let (ry, x0, x1, n) = runs[j];
        let yi = ry as i32;
        let x0i = x0 as i32;
        let x1i = x1 as i32;
        let len = regions.len();
        let mut merged = false;
        if len > 0 {
            let lx = regions[len - 1].x;
            let ly = regions[len - 1].y;
            let lw = regions[len - 1].w;
            let lh = regions[len - 1].h;
            let lp = regions[len - 1].pixels;
            proof {
                assert(regions@.map_values(|g: StaleRegion| region_of(g))[len - 1] == regs[len - 1]);
                assert(regs[len - 1] == regs.last());
            }
            let contiguous = ly + lh == yi;
            let overlaps = x0i <= lx + lw && x1i >= lx;
            if contiguous && overlaps {
                let nx = if lx <= x0i {
                    lx
                } else {
                    x0i
                };
                let nr = if lx + lw >= x1i + 1 {
                    lx + lw
                } else {
                    x1i + 1
                };
                let grown = StaleRegion {
                    x: nx,
                    y: ly,
                    w: nr - nx,
                    h: lh + 1,
                    pixels: lp + n,
                    attribution: None,
                };
                let ghost before = regions@;
                regions.set(len - 1, grown);
                merged = true;
                proof {
                    assert(regions@.map_values(|g: StaleRegion| region_of(g)) =~= merge_step(
                        regs,
                        all_runs[j as int],
                    )) by {
                        assert forall|k: int| 0 <= k < len - 1 implies regions@[k] == before[k] by {}
                    }
                }
            }
        }
        if !merged {
            let fresh = StaleRegion {
                x: x0i,
                y: yi,
                w: x1i - x0i + 1,
                h: 1,
                pixels: n,
                attribution: None,
            };
            regions.push(fresh);
            proof {
                assert(regions@.map_values(|g: StaleRegion| region_of(g)) =~= merge_step(
                    regs,
                    all_runs[j as int],
                ));
            }
        }
        j = j + 1;
        proof {
            assert(merge_runs(all_runs.take(j as int)) == merge_step(regs, all_runs[j - 1]));
        }
    }
    proof {
        assert(all_runs.take(j as int) =~= all_runs);
        assert(w * h == h * w) by (nonlinear_arith);
        assert((w * h) as u64 == w * h);
    }
    StaleReport { stale_pixels, compared_pixels: (w * h) as u64, regions }
}


proof fn lemma_row_fits(y: int, h: int, stride: int)
    requires
        0 <= y < h,
        0 <= stride,
    ensures
        (y + 1) * stride <= h * stride,
        (y + 1) * stride == y * stride + stride,
        stride * h == h * stride,
        0 <= y * stride,
{
    assert((y + 1) * stride <= h * stride) by (nonlinear_arith)
        requires
            y < h,
            0 <= stride,
    ;
    assert((y + 1) * stride == y * stride + stride) by (nonlinear_arith);
    assert(stride * h == h * stride) by (nonlinear_arith);
    assert(0 <= y * stride) by (nonlinear_arith)
        requires
            0 <= y,
            0 <= stride,
    ;
}

/// Row `y` as a run `(row, leftmost, rightmost, count)`, or `None` when no
/// pixel of it is stale.
fn row_run(shadow: &[u8], scanout: &[u8], w: usize, y: usize) -> (r: Option<(usize, usize, usize, u64)>)
    requires
        0 < w,
        w * 4 <= usize::MAX,
        y * (w * 4) + w * 4 <= shadow@.len(),
        y * (w * 4) + w * 4 <= scanout@.len(),
    ensures
        match r {
            None => stale_count(shadow@, scanout@, w as int, y as int, w as int) == 0,
            Some(run) => {
                &&& run.0 == y
                &&& run.3 == stale_count(shadow@, scanout@, w as int, y as int, w as int)
                &&& run.3 > 0
                &&& run.1 == first_stale(shadow@, scanout@, w as int, y as int)
                &&& run.2 == last_stale(shadow@, scanout@, w as int, y as int)
            },
        },
{
    let ghost sh = shadow@;
    let ghost sc = scanout@;
    let ghost wi = w as int;
    let stride = w * 4;
    proof {
        assert(0 <= y * stride) by (nonlinear_arith)
            requires
                0 <= y,
                0 <= stride,
        ;
    }
    let slen = shadow.len();
    proof {
        assert(y * stride + stride <= slen);
    }
    let o = y * stride;
    if same_bytes(shadow, scanout, o, o + stride) {
        proof {
            assert forall|z: int| 0 <= z < wi implies !#[trigger] px_stale(sh, sc, wi, y as int, z) by {
                assert(z * 4 + 3 < wi * 4);
                assert(o <= o + z * 4 && o + z * 4 + 2 < o + stride);
            }
            lemma_stale_count_zero(sh, sc, wi, y as int, wi);
        }
        return None;
    }
    let (lo, hi, n) = row_extent(shadow, scanout, w, y, o);
    if n == 0 {
        return None;
    }
    proof {
        let fs = first_stale(sh, sc, wi, y as int);
        assert(0 <= lo < wi && px_stale(sh, sc, wi, y as int, lo as int) && forall|z: int|
            0 <= z < lo ==> !#[trigger] px_stale(sh, sc, wi, y as int, z));
        if fs < lo {
            assert(!px_stale(sh, sc, wi, y as int, fs));
        } else if fs > lo {
            assert(!px_stale(sh, sc, wi, y as int, lo as int));
        }
        let ls = last_stale(sh, sc, wi, y as int);
        assert(0 <= hi < wi && px_stale(sh, sc, wi, y as int, hi as int) && forall|z: int|
            hi < z < wi ==> !#[trigger] px_stale(sh, sc, wi, y as int, z));
        if ls < hi {
            assert(!px_stale(sh, sc, wi, y as int, hi as int));
        } else if ls > hi {
            assert(!px_stale(sh, sc, wi, y as int, ls));
        }
    }
    Some((y, lo, hi, n))
}

/// The leftmost and rightmost stale pixel of row `y`, and how many there are.
fn row_extent(shadow: &[u8], scanout: &[u8], w: usize, y: usize, o: usize) -> (r: (usize, usize, u64))
    requires
        0 < w,
        w * 4 <= usize::MAX,
        o == y * (w * 4),
        o + w * 4 <= shadow@.len(),
        o + w * 4 <= scanout@.len(),
    ensures
        r.2 == stale_count(shadow@, scanout@, w as int, y as int, w as int),
        r.2 <= w,
        r.2 == 0 ==> forall|z: int| 0 <= z < w ==> !#[trigger] px_stale(shadow@, scanout@, w as int, y as int, z),
        r.2 > 0 ==> {
            &&& r.0 <= r.1 < w
            &&& px_stale(shadow@, scanout@, w as int, y as int, r.0 as int)
            &&& px_stale(shadow@, scanout@, w as int, y as int, r.1 as int)
            &&& forall|z: int| 0 <= z < r.0 ==> !#[trigger] px_stale(shadow@, scanout@, w as int, y as int, z)
            &&& forall|z: int| r.1 < z < w ==> !#[trigger] px_stale(shadow@, scanout@, w as int, y as int, z)
        },
{
    let ghost sh = shadow@;
    let ghost sc = scanout@;
    let ghost wi = w as int;
    let stride = w * 4;
    let slen = shadow.len();
    let mut lo: usize = usize::MAX;
    let mut hi: usize = 0;
    let mut n: u64 = 0;
    let mut x: usize = 0;
    while x < w
        invariant
            stride == w * 4,
            0 < w,
            x <= w,
            o == y * stride,
            o + stride <= shadow@.len(),
            o + stride <= scanout@.len(),
            slen == shadow@.len(),
            sh == shadow@,
            sc == scanout@,
            wi == w,
            n == stale_count(sh, sc, wi, y as int, x as int),
            n <= x,
            n == 0 ==> lo == usize::MAX,
            n == 0 ==> forall|z: int| 0 <= z < x ==> !#[trigger] px_stale(sh, sc, wi, y as int, z),
            n > 0 ==> {
                &&& lo <= hi < x
                &&& px_stale(sh, sc, wi, y as int, lo as int)
                &&& px_stale(sh, sc, wi, y as int, hi as int)
                &&& forall|z: int| 0 <= z < lo ==> !#[trigger] px_stale(sh, sc, wi, y as int, z)
                &&& forall|z: int| hi < z < x ==> !#[trigger] px_stale(sh, sc, wi, y as int, z)
            },
        decreases w - x,
    {
        proof {
            assert(x * 4 + 3 < stride) by (nonlinear_arith)
                requires
                    x < w,
                    stride == w * 4,
            ;
            assert(o + x * 4 == y * (wi * 4) + x * 4);
        }
        let p = o + x * 4;
        if shadow[p] != scanout[p] || shadow[p + 1] != scanout[p + 1] || shadow[p + 2]
            != scanout[p + 2] {
            proof {
                assert(px_stale(sh, sc, wi, y as int, x as int));
            }
            if lo == usize::MAX {
                lo = x;
            }
            hi = x;
            n = n + 1;
        } else {
            proof {
                assert(!px_stale(sh, sc, wi, y as int, x as int));
            }
        }
        x = x + 1;
    }
    (lo, hi, n)
}

proof fn lemma_runs_ok(sh: Seq<u8>, sc: Seq<u8>, w: int, y: int)
    requires
        w > 0,
    ensures
        runs_ok(stale_runs(sh, sc, w, y), w, if y < 0 { 0 } else { y }),
        forall|i: int| 0 <= i < stale_runs(sh, sc, w, y).len() ==> #[trigger] stale_runs(sh, sc, w, y)[i].0 < y,
    decreases y,
{
    if y > 0 {
        lemma_runs_ok(sh, sc, w, y - 1);
        let r = stale_runs(sh, sc, w, y - 1);
        let n = stale_count(sh, sc, w, y - 1, w);
        lemma_stale_count_bound(sh, sc, w, y - 1, w);
        if n > 0 {
            lemma_some_stale(sh, sc, w, y - 1, w);
            let fs = first_stale(sh, sc, w, y - 1);
            let ls = last_stale(sh, sc, w, y - 1);
            let t = r.push((y - 1, fs, ls, n));
            assert(0 <= fs < w);
            assert(0 <= ls < w);
            assert(fs <= ls) by {
                if fs > ls {
                    assert(!px_stale(sh, sc, w, y - 1, fs));
                }
            }
            assert forall|i: int, j: int| #![trigger t[i], t[j]] 0 <= i < j < t.len() implies t[i].0 < t[j].0 by {
                if j == t.len() - 1 {
                    assert(t[i] == r[i]);
                } else {
                    assert(t[i] == r[i] && t[j] == r[j]);
                }
            }
            assert forall|i: int| 0 <= i < t.len() implies {
                let q = #[trigger] t[i];
                0 <= q.0 < y && 0 <= q.1 <= q.2 < w && q.3 <= w
            } by {
                if i < r.len() {
                    assert(t[i] == r[i]);
                }
            }
        } else {
            assert forall|i: int| 0 <= i < r.len() implies {
                let q = #[trigger] r[i];
                0 <= q.0 < y && 0 <= q.1 <= q.2 < w && q.3 <= w
            } by {}
        }
    } else {
        assert(stale_runs(sh, sc, w, y) =~= Seq::<(int, int, int, nat)>::empty());
    }
}

/// A row with a non-zero count has a leftmost and a rightmost stale pixel.
proof fn lemma_some_stale(sh: Seq<u8>, sc: Seq<u8>, w: int, y: int, n: int)
    requires
        stale_count(sh, sc, w, y, n) > 0,
        n <= w,
    ensures
        exists|x: int|
            0 <= x < w && px_stale(sh, sc, w, y, x) && forall|z: int|
                0 <= z < x ==> !#[trigger] px_stale(sh, sc, w, y, z),
        exists|x: int|
            0 <= x < w && px_stale(sh, sc, w, y, x) && forall|z: int|
                x < z < w ==> !#[trigger] px_stale(sh, sc, w, y, z),
    decreases n,
{
    if n <= 0 {
    } else if stale_count(sh, sc, w, y, n - 1) > 0 {
        lemma_some_stale(sh, sc, w, y, n - 1);
        let x = choose|x: int|
            0 <= x < w && px_stale(sh, sc, w, y, x) && forall|z: int|
                0 <= z < x ==> !#[trigger] px_stale(sh, sc, w, y, z);
        assert(0 <= x < w && px_stale(sh, sc, w, y, x));
        lemma_rightmost(sh, sc, w, y, x);
    } else {
        lemma_count_zero_means_none(sh, sc, w, y, n - 1);
        assert(px_stale(sh, sc, w, y, n - 1));
        assert(forall|z: int| 0 <= z < n - 1 ==> !#[trigger] px_stale(sh, sc, w, y, z));
        lemma_rightmost(sh, sc, w, y, n - 1);
    }
}

proof fn lemma_count_zero_means_none(sh: Seq<u8>, sc: Seq<u8>, w: int, y: int, n: int)
    requires
        stale_count(sh, sc, w, y, n) == 0,
    ensures
        forall|z: int| 0 <= z < n ==> !#[trigger] px_stale(sh, sc, w, y, z),
    decreases n,
{
    if n > 0 {
        lemma_count_zero_means_none(sh, sc, w, y, n - 1);
    }
}

/// A stale pixel at `x` means some stale pixel has none to its right.
proof fn lemma_rightmost(sh: Seq<u8>, sc: Seq<u8>, w: int, y: int, x: int)
    requires
        0 <= x < w,
        px_stale(sh, sc, w, y, x),
    ensures
        exists|m: int|
            0 <= m < w && px_stale(sh, sc, w, y, m) && forall|z: int|
                m < z < w ==> !#[trigger] px_stale(sh, sc, w, y, z),
    decreases w - x,
{
    if exists|z: int| x < z < w && #[trigger] px_stale(sh, sc, w, y, z) {
        let z = choose|z: int| x < z < w && #[trigger] px_stale(sh, sc, w, y, z);
        lemma_rightmost(sh, sc, w, y, z);
    } else {
        assert(forall|z: int| x < z < w ==> !#[trigger] px_stale(sh, sc, w, y, z));
    }
}

proof fn lemma_run_total_bound(sh: Seq<u8>, sc: Seq<u8>, w: int, y: int)
    requires
        w > 0,
    ensures
        y >= 0 ==> run_total(stale_runs(sh, sc, w, y)) <= y * w,
        forall|k: int|
            0 <= k <= stale_runs(sh, sc, w, y).len() ==> run_total(
                #[trigger] stale_runs(sh, sc, w, y).take(k),
            ) <= run_total(stale_runs(sh, sc, w, y)),
    decreases y,
{
    let r = stale_runs(sh, sc, w, y);
    if y > 0 {
        lemma_run_total_bound(sh, sc, w, y - 1);
        lemma_stale_count_bound(sh, sc, w, y - 1, w);
        let p = stale_runs(sh, sc, w, y - 1);
        let n = stale_count(sh, sc, w, y - 1, w);
        assert((y - 1) * w + w == y * w) by (nonlinear_arith);
        if n > 0 {
            assert(r.drop_last() =~= p);
            assert forall|k: int| 0 <= k <= r.len() implies run_total(#[trigger] r.take(k)) <= run_total(r) by {
                if k < r.len() {
                    assert(r.take(k) =~= p.take(k));
                } else {
                    assert(r.take(k) =~= r);
                }
            }
        }
    } else {
        assert(r =~= Seq::<(int, int, int, nat)>::empty());
        assert forall|k: int| 0 <= k <= r.len() implies run_total(#[trigger] r.take(k)) <= run_total(r) by {
            assert(r.take(k) =~= r);
        }
    }
}

proof fn lemma_take_ok(runs: Seq<(int, int, int, nat)>, w: int, h: int, k: int)
    requires
        runs_ok(runs, w, h),
        0 <= k <= runs.len(),
    ensures
        runs_ok(runs.take(k), w, h),
{
    let t = runs.take(k);
    assert forall|i: int| 0 <= i < t.len() implies {
        let r = #[trigger] t[i];
        0 <= r.0 < h && 0 <= r.1 <= r.2 < w && r.3 <= w
    } by {
        assert(t[i] == runs[i]);
    }
    assert forall|i: int, j: int| #![trigger t[i], t[j]] 0 <= i < j < t.len() implies t[i].0 < t[j].0 by {
        assert(t[i] == runs[i] && t[j] == runs[j]);
    }
}

proof fn lemma_run_total_take(runs: Seq<(int, int, int, nat)>, k: int)
    requires
        0 <= k <= runs.len(),
    ensures
        run_total(runs.take(k)) <= run_total(runs),
    decreases runs.len(),
{
    if k < runs.len() {
        assert(runs.drop_last().take(k) =~= runs.take(k));
        lemma_run_total_take(runs.drop_last(), k);
    } else {
        assert(runs.take(k) =~= runs);
    }
}


/// Element `e` contains region `r`.
pub open spec fn contains_region(e: NamedRect, r: StaleRegion) -> bool {
    r.x >= e.x && r.y >= e.y && r.x + r.w <= e.x + e.w && r.y + r.h <= e.y + e.h
}

pub open spec fn area(e: NamedRect) -> int {
    e.w * e.h
}

/// `i` is the element that names region `r`: it contains `r`, no element
/// containing `r` is smaller, and every earlier one containing it is larger.
pub open spec fn names_region(es: Seq<NamedRect>, r: StaleRegion, i: int) -> bool {
    &&& 0 <= i < es.len()
    &&& contains_region(es[i], r)
    &&& forall|j: int|
        0 <= j < es.len() && contains_region(#[trigger] es[j], r) ==> area(es[i]) <= area(es[j])
            && (j < i ==> area(es[i]) < area(es[j]))
}

/// The rectangle's edges can be computed without overflow.
pub open spec fn edges_fit(x: i32, y: i32, w: i32, h: i32) -> bool {
    i32::MIN <= x + w <= i32::MAX && i32::MIN <= y + h <= i32::MAX
}

/// Name each stale region after the smallest element that contains it
/// (the first such, on a tie), or `None` when no element does.
pub fn attribute(report: &mut StaleReport, elements: &[NamedRect])
    requires
        forall|k: int|
            0 <= k < old(report).regions@.len() ==> {
                let g = #[trigger] old(report).regions@[k];
                edges_fit(g.x, g.y, g.w, g.h)
            },
        old(report).regions@.len() > 0 ==> forall|j: int|
            0 <= j < elements@.len() ==> {
                let e = #[trigger] elements@[j];
                edges_fit(e.x, e.y, e.w, e.h)
            },
    ensures
        final(report).stale_pixels == old(report).stale_pixels,
        final(report).compared_pixels == old(report).compared_pixels,
        final(report).regions@.len() == old(report).regions@.len(),
        forall|k: int|
            0 <= k < final(report).regions@.len() ==> {
                let g = #[trigger] final(report).regions@[k];
                let o = old(report).regions@[k];
                &&& g.x == o.x && g.y == o.y && g.w == o.w && g.h == o.h && g.pixels == o.pixels
                &&& (g.attribution is None <==> forall|j: int|
                    0 <= j < elements@.len() ==> !contains_region(#[trigger] elements@[j], o))
                &&& (g.attribution is Some ==> exists|i: int|
                    names_region(elements@, o, i) && g.attribution->0@ == (
                    #[trigger] elements@[i]).name@)
            },
{
    let n = report.regions.len();
    let mut k: usize = 0;
    while k < n
        invariant
            n == report.regions@.len(),
            n == old(report).regions@.len(),
            k <= n,
            report.stale_pixels == old(report).stale_pixels,
            report.compared_pixels == old(report).compared_pixels,
            forall|q: int|
                0 <= q < n ==> {
                    let g = #[trigger] report.regions@[q];
                    let o = old(report).regions@[q];
                    &&& g.x == o.x && g.y == o.y && g.w == o.w && g.h == o.h && g.pixels == o.pixels
                    &&& (q < k ==> (g.attribution is None <==> forall|j: int|
                        0 <= j < elements@.len() ==> !contains_region(#[trigger] elements@[j], o)))
                    &&& (q < k ==> (g.attribution is Some ==> exists|i: int|
                        names_region(elements@, o, i) && g.attribution->0@ == (
                        #[trigger] elements@[i]).name@))
                },
            n > 0 ==> forall|j: int|
                0 <= j < elements@.len() ==> {
                    let e = #[trigger] elements@[j];
                    edges_fit(e.x, e.y, e.w, e.h)
                },
            forall|q: int|
                0 <= q < n ==> {
                    let g = #[trigger] old(report).regions@[q];
                    edges_fit(g.x, g.y, g.w, g.h)
                },
        decreases n - k,
    {
        let ghost o = old(report).regions@[k as int];
        let rx = report.regions[k].x;
        let ry = report.regions[k].y;
        let rw = report.regions[k].w;
        let rh = report.regions[k].h;
        let rp = report.regions[k].pixels;
        proof {
            assert(edges_fit(o.x, o.y, o.w, o.h));
        }
        let (rl, rt, rr, rb) = (rx, ry, rx + rw, ry + rh);
        let mut best: Option<usize> = None;
        let mut best_area: i64 = 0;
        let mut j: usize = 0;
        while j < elements.len()
            invariant
                j <= elements@.len(),
                rl == o.x && rt == o.y && rr == o.x + o.w && rb == o.y + o.h,
                forall|q: int|
                    0 <= q < elements@.len() ==> {
                        let e = #[trigger] elements@[q];
                        edges_fit(e.x, e.y, e.w, e.h)
                    },
                match best {
                    None => forall|q: int| 0 <= q < j ==> !contains_region(#[trigger] elements@[q], o),
                    Some(b) => {
                        &&& b < j
                        &&& contains_region(elements@[b as int], o)
                        &&& best_area == area(elements@[b as int])
                        &&& forall|q: int|
                            0 <= q < j && contains_region(#[trigger] elements@[q], o) ==> area(
                                elements@[b as int],
                            ) <= area(elements@[q]) && (q < b ==> area(elements@[b as int]) < area(
                                elements@[q],
                            ))
                    },
                },
            decreases elements@.len() - j,
        {
            let e = &elements[j];
            proof {
                assert(edges_fit(e.x, e.y, e.w, e.h));
            }
            let (el, et, er, eb) = (e.x, e.y, e.x + e.w, e.y + e.h);
            if rl >= el && rt >= et && rr <= er && rb <= eb {
                proof {
                    let ew = e.w as int;
                    let eh = e.h as int;
                    assert(-0x8000_0000_0000_0000 <= ew * eh <= 0x7fff_ffff_ffff_ffff) by (nonlinear_arith)
                        requires
                            -0x8000_0000 <= ew <= 0x7fff_ffff,
                            -0x8000_0000 <= eh <= 0x7fff_ffff,
                    ;
                }
                let a = (e.w as i64) * (e.h as i64);
                let better = match best {
                    None => true,
                    Some(_) => a < best_area,
                };
                if better {
                    best = Some(j);
                    best_area = a;
                }
            }
            j = j + 1;
        }
        let attribution = match best {
            Some(b) => Some(elements[b].name.clone()),
            None => None,
        };
        proof {
            if best is Some {
                let b = best->0 as int;
                assert(names_region(elements@, o, b));
            }
        }
        report.regions.set(k, StaleRegion { x: rx, y: ry, w: rw, h: rh, pixels: rp, attribution });
        k = k + 1;
    }
}

/// The seat's error colour, painted over stale pixels.
pub open spec fn err_colour() -> Seq<u8> {
    seq![0xBFu8, 0x61u8, 0x6Au8]
}

/// What the mask shows for pixel `(x, y)`: black past the end of either
/// buffer, the error colour where the pixel is stale, otherwise the scanout
/// pixel as R, G, B dimmed four times.
pub open spec fn mask_pixel(sh: Seq<u8>, sc: Seq<u8>, w: int, y: int, x: int) -> Seq<u8> {
    let p = y * (w * 4) + x * 4;
    if p + 3 >= sc.len() || p + 3 >= sh.len() {
        seq![0u8, 0u8, 0u8]
    } else if px_stale(sh, sc, w, y, x) {
        err_colour()
    } else {
        seq![sc[p + 2] / 4, sc[p + 1] / 4, sc[p] / 4]
    }
}

/// The PPM header for a `w` by `h` image.
pub open spec fn ppm_header(w: nat, h: nat) -> Seq<u8> {
    seq![0x50u8, 0x36u8, 0x0Au8] + decimal_bytes(w) + seq![0x20u8] + decimal_bytes(h) + seq![
        0x0Au8,
        0x32u8,
        0x35u8,
        0x35u8,
        0x0Au8,
    ]
}

/// Render the scan as a binary PPM a human can read at a glance: the real
/// screen, dimmed, with stale pixels glowing in the error colour.
pub fn render_mask(shadow: &[u8], scanout: &[u8], w: usize, h: usize) -> (out: Vec<u8>)
    requires
        w * 4 <= usize::MAX,
        w * 4 * h <= usize::MAX,
    ensures
        out@.len() == ppm_header(w as nat, h as nat).len() + 3 * w * h,
        out@.take(ppm_header(w as nat, h as nat).len() as int) == ppm_header(w as nat, h as nat),
        forall|y: int, x: int|
            0 <= y < h && 0 <= x < w ==> #[trigger] out@.subrange(
                ppm_header(w as nat, h as nat).len() + 3 * (y * w + x),
                ppm_header(w as nat, h as nat).len() + 3 * (y * w + x) + 3,
            ) == mask_pixel(shadow@, scanout@, w as int, y, x),
{
    let mut out: Vec<u8> = Vec::new();
    out.push(0x50);
    out.push(0x36);
    out.push(0x0A);
    push_decimal_bytes(&mut out, w as u64);
    out.push(0x20);
    push_decimal_bytes(&mut out, h as u64);
    out.push(0x0A);
    out.push(0x32);
    out.push(0x35);
    out.push(0x35);
    out.push(0x0A);
    let ghost hdr = ppm_header(w as nat, h as nat);
    proof {
        assert(out@ =~= hdr);
    }
    let hl = out.len();
    let stride = w * 4;
    let slen = shadow.len();
    let clen = scanout.len();
    let mut y: usize = 0;
    while y < h
        invariant
            y <= h,
            stride == w * 4,
            w * 4 * h <= usize::MAX,
            hl == hdr.len(),
            slen == shadow@.len(),
            clen == scanout@.len(),
            out@.len() == hl + 3 * (y * w),
            out@.take(hl as int) == hdr,
            forall|yy: int, xx: int|
                0 <= yy < y && 0 <= xx < w ==> #[trigger] out@.subrange(
                    hl + 3 * (yy * w + xx),
                    hl + 3 * (yy * w + xx) + 3,
                ) == mask_pixel(shadow@, scanout@, w as int, yy, xx),
        decreases h - y,
    {
        let mut x: usize = 0;
        while x < w
            invariant
                y < h,
                x <= w,
                stride == w * 4,
                w * 4 * h <= usize::MAX,
                hl == hdr.len(),
                slen == shadow@.len(),
                clen == scanout@.len(),
                out@.len() == hl + 3 * (y * w + x),
                out@.take(hl as int) == hdr,
                forall|yy: int, xx: int|
                    (0 <= yy < y && 0 <= xx < w) || (yy == y && 0 <= xx < x) ==> #[trigger] out@.subrange(
                        hl + 3 * (yy * w + xx),
                        hl + 3 * (yy * w + xx) + 3,
                    ) == mask_pixel(shadow@, scanout@, w as int, yy, xx),
            decreases w - x,
        {
            proof {
                assert(y * stride + x * 4 + 3 < stride * h) by (nonlinear_arith)
                    requires
                        y < h,
                        x < w,
                        stride == w * 4,
                ;
                assert(y * stride == y * (w * 4));
            }
            let p = y * stride + x * 4;
            let ghost before = out@;
            if p + 3 >= clen || p + 3 >= slen {
                out.push(0);
                out.push(0);
                out.push(0);
            } else if shadow[p] != scanout[p] || shadow[p + 1] != scanout[p + 1] || shadow[p + 2]
                != scanout[p + 2] {
                out.push(0xBF);
                out.push(0x61);
                out.push(0x6A);
            } else {
                out.push(scanout[p + 2] / 4);
                out.push(scanout[p + 1] / 4);
                out.push(scanout[p] / 4);
            }
            proof {
                let base = hl + 3 * (y * w + x);
                assert(before.len() == base);
                assert(out@.subrange(base, base + 3) =~= mask_pixel(
                    shadow@,
                    scanout@,
                    w as int,
                    y as int,
                    x as int,
                ));
                assert forall|yy: int, xx: int|
                    (0 <= yy < y && 0 <= xx < w) || (yy == y && 0 <= xx < x + 1) implies #[trigger] out@.subrange(
                    hl + 3 * (yy * w + xx),
                    hl + 3 * (yy * w + xx) + 3,
                ) == mask_pixel(shadow@, scanout@, w as int, yy, xx) by {
                    if yy == y && xx == x {
                    } else {
                        assert(yy * w + xx < y * w + x) by (nonlinear_arith)
                            requires
                                (0 <= yy < y && 0 <= xx < w) || (yy == y && 0 <= xx < x),
                        ;
                        assert(out@.subrange(hl + 3 * (yy * w + xx), hl + 3 * (yy * w + xx) + 3)
                            =~= before.subrange(hl + 3 * (yy * w + xx), hl + 3 * (yy * w + xx) + 3));
                    }
                }
                assert(out@.take(hl as int) =~= before.take(hl as int));
                assert(3 * (y * w + x) + 3 == 3 * (y * w + (x + 1)));
            }
            x = x + 1;
        }
        proof {
            assert(y * w + w == (y + 1) * w) by (nonlinear_arith);
        }
        y = y + 1;
    }
    proof {
        assert(3 * (y * w) == 3 * w * h) by (nonlinear_arith)
            requires
                y == h,
        ;
    }
    out
}

} // verus!
