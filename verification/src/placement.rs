//! Where a floating window lands: centred in the usable zone, cascaded so
//! successive windows do not stack exactly, and pulled flush to a zone edge
//! when it is already close to it. Sizes chosen as fractions of the zone are
//! turned into pixels by the caller; everything here is integer geometry.

use vstd::prelude::*;
use crate::geom::{Rect, half, half_of};
use crate::text::str_eq;

verus! {

/// The launcher floats by default, matched on its full `app_id`; a window
/// without one tiles.
pub fn overlay_by_default(app_id: Option<&str>) -> (b: bool)
    ensures
        b <==> (app_id matches Some(id) && id@ == "tobira"@),
{
    match app_id {
        Some(id) => str_eq(id, "tobira"),
        None => false,
    }
}

pub open spec fn max0(v: int) -> int {
    if v < 0 {
        0
    } else {
        v
    }
}

/// The origin that centres a client-chosen `(w, h)` inside `usable`: an odd
/// leftover pixel goes right and bottom, and a client larger than the zone
/// is pinned to the zone's origin rather than placed at a negative offset.
pub fn centred_loc(usable: Rect, w: i32, h: i32) -> (p: (i32, i32))
    requires
        i32::MIN <= usable.w - w <= i32::MAX,
        i32::MIN <= usable.h - h <= i32::MAX,
        usable.x + max0((usable.w - w) / 2) <= i32::MAX,
        usable.y + max0((usable.h - h) / 2) <= i32::MAX,
    ensures
        p.0 == usable.x + max0((usable.w - w) / 2),
        p.1 == usable.y + max0((usable.h - h) / 2),
{
    let dx = usable.w - w;
    let dy = usable.h - h;
    let hx = if dx >= 0 {
        dx / 2
    } else {
        0
    };
    let hy = if dy >= 0 {
        dy / 2
    } else {
        0
    };
    (usable.x + hx, usable.y + hy)
}

/// A window of the given pixel size, at least one pixel each way, centred
/// in `usable`; the leftover is halved after subtracting, so an odd pixel
/// goes right and bottom.
pub fn centred_in(usable: Rect, w: i32, h: i32) -> (r: Rect)
    requires
        i32::MIN <= usable.w - w && usable.w - w <= i32::MAX,
        i32::MIN <= usable.h - h && usable.h - h <= i32::MAX,
        i32::MIN + 1 <= usable.w && i32::MIN + 1 <= usable.h,
        i32::MIN <= usable.x + half(usable.w - (if w < 1 { 1 } else { w })) <= i32::MAX,
        i32::MIN <= usable.y + half(usable.h - (if h < 1 { 1 } else { h })) <= i32::MAX,
    ensures
        r.w == (if w < 1 { 1 } else { w }),
        r.h == (if h < 1 { 1 } else { h }),
        r.x == usable.x + half(usable.w - r.w),
        r.y == usable.y + half(usable.h - r.h),
{
    let w = if w < 1 {
        1
    } else {
        w
    };
    let h = if h < 1 {
        1
    } else {
        h
    };
    let x = usable.x as i64 + half_of(usable.w - w);
    let y = usable.y as i64 + half_of(usable.h - h);
    Rect { x: x as i32, y: y as i32, w, h }
}

/// Offset a centred floating window so successive ones do not stack: the
/// `index`th window moves `n * step` right and down, where `n` wraps at the
/// number of steps that fit before its far edge would leave the zone.
pub fn cascade_from(base: Rect, usable: Rect, index: usize, step: i32) -> (r: Rect)
    requires
        0 <= usable.x + usable.w <= i32::MAX,
        0 <= usable.y + usable.h <= i32::MAX,
        0 <= base.x + base.w <= i32::MAX,
        0 <= base.y + base.h <= i32::MAX,
        base.x >= 0,
        base.y >= 0,
        base.w >= 0,
        base.h >= 0,
    ensures
        step <= 0 ==> r == base,
        step > 0 ==> r.w == base.w && r.h == base.h,
        step > 0 ==> ({
            let room_x = max0(usable.x + usable.w - (base.x + base.w));
            let room_y = max0(usable.y + usable.h - (base.y + base.h));
            let room = if room_x <= room_y { room_x } else { room_y };
            let span = if room / (step as int) < 1 { 1 } else { room / (step as int) };
            let n = (index as int) % span;
            r.x == base.x + n * step && r.y == base.y + n * step
        }),
{
    if step <= 0 {
        return base;
    }
    let ex = usable.x + usable.w - (base.x + base.w);
    let ey = usable.y + usable.h - (base.y + base.h);
    let room_x = if ex > 0 {
        ex
    } else {
        0
    };
    let room_y = if ey > 0 {
        ey
    } else {
        0
    };
    let room = if room_x <= room_y {
        room_x
    } else {
        room_y
    };
    let q = (room as u32) / (step as u32);
    let span: u32 = if q < 1 {
        1
    } else {
        q
    };
    let n = (index % (span as usize)) as u32;
    proof {
        assert(n < span);
        assert(span == 1 || span <= (room as int) / (step as int));
        assert(span == 1 || span * step <= room) by (nonlinear_arith)
            requires
                span == 1 || span <= (room as int) / (step as int),
                step > 0,
                room >= 0,
        ;
        assert(n * step <= room) by (nonlinear_arith)
            requires
                n < span,
                span == 1 || span * step <= room,
                step > 0,
                room >= 0,
                span >= 1,
        ;
    }
    proof {
        assert(room <= room_x && room <= room_y);
    }
    let off = (n as i32) * step;
    Rect { x: base.x + off, y: base.y + off, w: base.w, h: base.h }
}

pub open spec fn abs(v: int) -> int {
    if v < 0 {
        -v
    } else {
        v
    }
}

/// Pull a floating window flush with the zone's edges when it is within
/// `threshold` of them. Each axis snaps at most one edge, the near (left,
/// top) edge winning a tie, and the size never changes; `threshold <= 0`
/// disables it.
pub fn snap_to_edges(rect: Rect, usable: Rect, threshold: i32) -> (r: Rect)
    requires
        i32::MIN <= usable.x + usable.w <= i32::MAX,
        i32::MIN <= usable.y + usable.h <= i32::MAX,
        i32::MIN <= rect.x + rect.w <= i32::MAX,
        i32::MIN <= rect.y + rect.h <= i32::MAX,
        i32::MIN <= usable.x + usable.w - rect.w <= i32::MAX,
        i32::MIN <= usable.y + usable.h - rect.h <= i32::MAX,
    ensures
        threshold <= 0 ==> r == rect,
        threshold > 0 ==> r.w == rect.w && r.h == rect.h,
        threshold > 0 ==> r.x == (if abs(rect.x - usable.x) <= threshold {
            usable.x as int
        } else if abs(rect.x + rect.w - (usable.x + usable.w)) <= threshold {
            usable.x + usable.w - rect.w
        } else {
            rect.x as int
        }),
        threshold > 0 ==> r.y == (if abs(rect.y - usable.y) <= threshold {
            usable.y as int
        } else if abs(rect.y + rect.h - (usable.y + usable.h)) <= threshold {
            usable.y + usable.h - rect.h
        } else {
            rect.y as int
        }),
{
    if threshold <= 0 {
        return rect;
    }
    let zl = usable.x as i64;
    let zt = usable.y as i64;
    let zr = usable.x as i64 + usable.w as i64;
    let zb = usable.y as i64 + usable.h as i64;
    let t = threshold as i64;
    let x = rect.x as i64;
    let y = rect.y as i64;
    let w = rect.w as i64;
    let h = rect.h as i64;
    let dl = if x >= zl { x - zl } else { zl - x };
    let dr = if x + w >= zr { x + w - zr } else { zr - (x + w) };
    let nx = if dl <= t {
        zl
    } else if dr <= t {
        zr - w
    } else {
        x
    };
    let dt = if y >= zt { y - zt } else { zt - y };
    let db = if y + h >= zb { y + h - zb } else { zb - (y + h) };
    let ny = if dt <= t {
        zt
    } else if db <= t {
        zb - h
    } else {
        y
    };
    Rect { x: nx as i32, y: ny as i32, w: rect.w, h: rect.h }
}

} // verus!
