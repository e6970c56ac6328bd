//! snap: tiling a floating window by gesture or chord.
//!
//! Drag a window to the left or right screen edge and it takes that half, to
//! the top edge and it fills the zone, into a corner and it takes that
//! quarter; Logo+Arrows step through the same tiles. Everything here is
//! geometry over plain integers.

use vstd::prelude::*;
use crate::geom::{Direction, Point, Rect};
use crate::layout::GAP;

verus! {

/// Where a snapped window sits.
#[derive(Debug, Clone, Copy, PartialEq, Eq, Structural)]
pub enum Tile {
    Left,
    Right,
    TopLeft,
    TopRight,
    BottomLeft,
    BottomRight,
    Full,
}

/// How close to a screen edge a drag must be released to snap.
pub const EDGE: i32 = 8;

/// How far along an edge from a corner still counts as that corner.
pub const CORNER: i32 = 96;

/// The tile a drag released at `p` on `screen` asks for. Corners win over
/// edges, and the bottom edge alone snaps nothing.
pub open spec fn zone_spec(p: Point, screen: Rect) -> Option<Tile> {
    if screen.w <= 0 || screen.h <= 0 {
        None
    } else {
        let l = screen.x as int;
        let t = screen.y as int;
        let r = l + screen.w - 1;
        let b = t + screen.h - 1;
        let near_l = p.x <= l + EDGE;
        let near_r = p.x >= r - EDGE;
        let near_t = p.y <= t + EDGE;
        let near_b = p.y >= b - EDGE;
        let top_run = p.y <= t + CORNER;
        let bottom_run = p.y >= b - CORNER;
        let left_run = p.x <= l + CORNER;
        let right_run = p.x >= r - CORNER;
        if (near_l && top_run) || (near_t && left_run) {
            Some(Tile::TopLeft)
        } else if (near_r && top_run) || (near_t && right_run) {
            Some(Tile::TopRight)
        } else if (near_l && bottom_run) || (near_b && left_run) {
            Some(Tile::BottomLeft)
        } else if (near_r && bottom_run) || (near_b && right_run) {
            Some(Tile::BottomRight)
        } else if near_l {
            Some(Tile::Left)
        } else if near_r {
            Some(Tile::Right)
        } else if near_t {
            Some(Tile::Full)
        } else {
            None
        }
    }
}

/// The tile a drag released at `p` asks for, or `None` for a free drop.
/// `screen` is the whole output, where the pointer actually stops.
pub fn zone_for(p: Point, screen: Rect) -> (t: Option<Tile>)
    ensures
        t == zone_spec(p, screen),
{
    if screen.w <= 0 || screen.h <= 0 {
        return None;
    }
    let l = screen.x as i64;
    let t = screen.y as i64;
    let r = l + screen.w as i64 - 1;
    let b = t + screen.h as i64 - 1;
    let px = p.x as i64;
    let py = p.y as i64;
    let near_l = px <= l + 8;
    let near_r = px >= r - 8;
    let near_t = py <= t + 8;
    let near_b = py >= b - 8;
    let top_run = py <= t + 96;
    let bottom_run = py >= b - 96;
    let left_run = px <= l + 96;
    let right_run = px >= r - 96;
    if (near_l && top_run) || (near_t && left_run) {
        Some(Tile::TopLeft)
    } else if (near_r && top_run) || (near_t && right_run) {
        Some(Tile::TopRight)
    } else if (near_l && bottom_run) || (near_b && left_run) {
        Some(Tile::BottomLeft)
    } else if (near_r && bottom_run) || (near_b && right_run) {
        Some(Tile::BottomRight)
    } else if near_l {
        Some(Tile::Left)
    } else if near_r {
        Some(Tile::Right)
    } else if near_t {
        Some(Tile::Full)
    } else {
        None
    }
}

/// The tile on the other side of the screen's vertical centre line.
pub open spec fn mirror_tile(t: Option<Tile>) -> Option<Tile> {
    match t {
        Some(Tile::Left) => Some(Tile::Right),
        Some(Tile::Right) => Some(Tile::Left),
        Some(Tile::TopLeft) => Some(Tile::TopRight),
        Some(Tile::TopRight) => Some(Tile::TopLeft),
        Some(Tile::BottomLeft) => Some(Tile::BottomRight),
        Some(Tile::BottomRight) => Some(Tile::BottomLeft),
        other => other,
    }
}

/// Snapping is mirror-symmetric: on a screen wider than two corner runs, a
/// drop at `q`, the mirror image of `p` across the screen's vertical centre
/// line, snaps to the mirror image of the tile `p` snaps to.
pub proof fn lemma_zone_mirror(p: Point, q: Point, screen: Rect)
    requires
        screen.w > 2 * CORNER + 1,
        q.y == p.y,
        q.x + p.x == 2 * screen.x + screen.w - 1,
    ensures
        zone_spec(q, screen) == mirror_tile(zone_spec(p, screen)),
{
}

/// What a drop snaps to, edge by edge: within `EDGE` of the left or right
/// edge and within `CORNER` of the top, or within `EDGE` of the top and
/// within `CORNER` of that side, is the top corner on that side (the left
/// one when both apply); the same with the bottom gives the bottom corner,
/// once no top corner applies; any other drop at the left or right edge
/// takes that half, one at the top alone fills the zone, and every other
/// drop, the bottom edge's middle included, stays free.
pub proof fn lemma_zone_by_edges(p: Point, screen: Rect)
    requires
        screen.w > 0,
        screen.h > 0,
    ensures
        ({
            let l = screen.x as int;
            let t = screen.y as int;
            let r = l + screen.w - 1;
            let b = t + screen.h - 1;
            let top_left = (p.x <= l + EDGE && p.y <= t + CORNER) || (p.y <= t + EDGE && p.x <= l + CORNER);
            let top_right = (p.x >= r - EDGE && p.y <= t + CORNER) || (p.y <= t + EDGE && p.x >= r - CORNER);
            let bottom_left = (p.x <= l + EDGE && p.y >= b - CORNER) || (p.y >= b - EDGE && p.x <= l + CORNER);
            let bottom_right = (p.x >= r - EDGE && p.y >= b - CORNER) || (p.y >= b - EDGE && p.x >= r
                - CORNER);
            let corner = top_left || top_right || bottom_left || bottom_right;
            &&& top_left ==> zone_spec(p, screen) == Some(Tile::TopLeft)
            &&& top_right && !top_left ==> zone_spec(p, screen) == Some(Tile::TopRight)
            &&& bottom_left && !top_left && !top_right ==> zone_spec(p, screen) == Some(Tile::BottomLeft)
            &&& bottom_right && !top_left && !top_right && !bottom_left ==> zone_spec(p, screen) == Some(
                Tile::BottomRight,
            )
            &&& !corner && p.x <= l + EDGE ==> zone_spec(p, screen) == Some(Tile::Left)
            &&& !corner && p.x > l + EDGE && p.x >= r - EDGE ==> zone_spec(p, screen) == Some(Tile::Right)
            &&& !corner && p.x > l + EDGE && p.x < r - EDGE && p.y <= t + EDGE ==> zone_spec(p, screen) == Some(
                Tile::Full,
            )
            &&& !corner && p.x > l + EDGE && p.x < r - EDGE && p.y > t + EDGE ==> zone_spec(p, screen) is None
        }),
{
}

/// Nothing snaps on an empty screen.
pub proof fn lemma_zone_needs_a_screen(p: Point, screen: Rect)
    requires
        screen.w <= 0 || screen.h <= 0,
    ensures
        zone_spec(p, screen) is None,
{
}

pub open spec fn at_least_1(v: int) -> int {
    if v < 1 {
        1
    } else {
        v
    }
}

/// Width of the left column: half of what the three gaps leave.
pub open spec fn left_w(uw: int) -> int {
    at_least_1((uw - 3 * GAP) / 2)
}

pub open spec fn right_w(uw: int) -> int {
    at_least_1(uw - 3 * GAP - left_w(uw))
}

pub open spec fn top_h(uh: int) -> int {
    at_least_1((uh - 3 * GAP) / 2)
}

pub open spec fn bottom_h(uh: int) -> int {
    at_least_1(uh - 3 * GAP - top_h(uh))
}

/// The frame a tile occupies in `usable`, as `(x, y, w, h)`: halves and
/// quarters keep one gap between each other and the zone edge, odd pixels go
/// to the right and bottom tiles, and `Full` is exactly the zone.
pub open spec fn frame_spec(tile: Tile, u: Rect) -> (int, int, int, int) {
    let lx = u.x + GAP;
    let rx = u.x + 2 * GAP + left_w(u.w as int);
    let ty = u.y + GAP;
    let by = u.y + 2 * GAP + top_h(u.h as int);
    let full_h = at_least_1(u.h - 2 * GAP);
    match tile {
        Tile::Full => (u.x as int, u.y as int, u.w as int, u.h as int),
        Tile::Left => (lx, ty, left_w(u.w as int), full_h),
        Tile::Right => (rx, ty, right_w(u.w as int), full_h),
        Tile::TopLeft => (lx, ty, left_w(u.w as int), top_h(u.h as int)),
        Tile::TopRight => (rx, ty, right_w(u.w as int), top_h(u.h as int)),
        Tile::BottomLeft => (lx, by, left_w(u.w as int), bottom_h(u.h as int)),
        Tile::BottomRight => (rx, by, right_w(u.w as int), bottom_h(u.h as int)),
    }
}

/// The zone is small enough that every tile's frame fits the coordinate
/// range.
pub open spec fn frame_fits(u: Rect) -> bool {
    &&& u.w - 3 * GAP - left_w(u.w as int) >= i32::MIN
    &&& u.h - 3 * GAP - top_h(u.h as int) >= i32::MIN
    &&& u.h - 2 * GAP >= i32::MIN
    &&& u.x + 2 * GAP + left_w(u.w as int) <= i32::MAX
    &&& u.y + 2 * GAP + top_h(u.h as int) <= i32::MAX
    &&& u.x + GAP <= i32::MAX
    &&& u.y + GAP <= i32::MAX
}

/// The frame (titlebar included) a tile occupies in `usable`.
pub fn frame_for(tile: Tile, usable: Rect) -> (r: Rect)
    requires
        tile != Tile::Full ==> frame_fits(usable),
    ensures
        (r.x as int, r.y as int, r.w as int, r.h as int) == frame_spec(tile, usable),
{
    if tile == Tile::Full {
        return usable;
    }
    let g = GAP;
    let ux = usable.x;
    let uy = usable.y;
    let uw = usable.w;
    let uh = usable.h;
    let lw0 = (uw - 3 * g) / 2;
    let lw = if lw0 < 1 {
        1
    } else {
        lw0
    };
    let rw0 = uw - 3 * g - lw;
    let rw = if rw0 < 1 {
        1
    } else {
        rw0
    };
    let th0 = (uh - 3 * g) / 2;
    let th = if th0 < 1 {
        1
    } else {
        th0
    };
    let bh0 = uh - 3 * g - th;
    let bh = if bh0 < 1 {
        1
    } else {
        bh0
    };
    proof {
        assert(lw == left_w(uw as int));
        assert(th == top_h(uh as int));
    }
    let lx = ux + g;
    let rx = ux + 2 * g + lw;
    let ty = uy + g;
    let by = uy + 2 * g + th;
    let fh0 = uh - 2 * g;
    let full_h = if fh0 < 1 {
        1
    } else {
        fh0
    };
    match tile {
        Tile::Left => Rect { x: lx, y: ty, w: lw, h: full_h },
        Tile::Right => Rect { x: rx, y: ty, w: rw, h: full_h },
        Tile::TopLeft => Rect { x: lx, y: ty, w: lw, h: th },
        Tile::TopRight => Rect { x: rx, y: ty, w: rw, h: th },
        Tile::BottomLeft => Rect { x: lx, y: by, w: lw, h: bh },
        Tile::BottomRight => Rect { x: rx, y: by, w: rw, h: bh },
        Tile::Full => usable,
    }
}

/// In a zone wide enough for two one-pixel columns, the halves sit one gap
/// from the zone's edges and one gap from each other, and together with the
/// three gaps fill its width exactly; likewise the quarter rows fill its
/// height.
pub proof fn lemma_halves_fill_the_zone(u: Rect)
    requires
        u.w >= 3 * GAP + 2,
        u.h >= 3 * GAP + 2,
    ensures
        frame_spec(Tile::Left, u).0 == u.x + GAP,
        frame_spec(Tile::Right, u).0 == frame_spec(Tile::Left, u).0 + frame_spec(Tile::Left, u).2
            + GAP,
        frame_spec(Tile::Right, u).0 + frame_spec(Tile::Right, u).2 == u.x + u.w - GAP,
        frame_spec(Tile::TopLeft, u).1 == u.y + GAP,
        frame_spec(Tile::BottomLeft, u).1 == frame_spec(Tile::TopLeft, u).1 + frame_spec(
            Tile::TopLeft,
            u,
        ).3 + GAP,
        frame_spec(Tile::BottomLeft, u).1 + frame_spec(Tile::BottomLeft, u).3 == u.y + u.h - GAP,
{
}

/// What a Logo+Arrow chord does from the current tile.
#[derive(Debug, Clone, Copy, PartialEq, Eq, Structural)]
pub enum Step {
    /// Snap to this tile, or `None` to restore the free geometry.
    To(Option<Tile>),
    /// Minimise: Down on a window that is already free.
    Minimize,
}

/// The Win+Arrow table. Left/Right move sideways (a half, or the quarter
/// on the same row) and pressing toward the opposite side of a half
/// restores it; Up grows (half to top quarter to full, free to full); Down
/// shrinks (full to free, top quarter to half to bottom quarter to free,
/// free to minimise).
pub open spec fn step_spec(current: Option<Tile>, dir: Direction) -> Step {
    match dir {
        Direction::Left => match current {
            Some(Tile::Right) => Step::To(None),
            Some(Tile::TopRight) => Step::To(Some(Tile::TopLeft)),
            Some(Tile::BottomRight) => Step::To(Some(Tile::BottomLeft)),
            Some(Tile::TopLeft) => Step::To(Some(Tile::TopLeft)),
            Some(Tile::BottomLeft) => Step::To(Some(Tile::BottomLeft)),
            _ => Step::To(Some(Tile::Left)),
        },
        Direction::Right => match current {
            Some(Tile::Left) => Step::To(None),
            Some(Tile::TopLeft) => Step::To(Some(Tile::TopRight)),
            Some(Tile::BottomLeft) => Step::To(Some(Tile::BottomRight)),
            Some(Tile::TopRight) => Step::To(Some(Tile::TopRight)),
            Some(Tile::BottomRight) => Step::To(Some(Tile::BottomRight)),
            _ => Step::To(Some(Tile::Right)),
        },
        Direction::Above => match current {
            Some(Tile::Left) => Step::To(Some(Tile::TopLeft)),
            Some(Tile::Right) => Step::To(Some(Tile::TopRight)),
            Some(Tile::BottomLeft) => Step::To(Some(Tile::Left)),
            Some(Tile::BottomRight) => Step::To(Some(Tile::Right)),
            _ => Step::To(Some(Tile::Full)),
        },
        Direction::Below => match current {
            Some(Tile::Full) => Step::To(None),
            Some(Tile::TopLeft) => Step::To(Some(Tile::Left)),
            Some(Tile::TopRight) => Step::To(Some(Tile::Right)),
            Some(Tile::Left) => Step::To(Some(Tile::BottomLeft)),
            Some(Tile::Right) => Step::To(Some(Tile::BottomRight)),
            Some(Tile::BottomLeft) => Step::To(None),
            Some(Tile::BottomRight) => Step::To(None),
            None => Step::Minimize,
        },
    }
}

/// What a Logo+Arrow chord does from `current`.
pub fn step(current: Option<Tile>, dir: Direction) -> (s: Step)
    ensures
        s == step_spec(current, dir),
{
    match dir {
        Direction::Left => match current {
            Some(Tile::Right) => Step::To(None),
            Some(Tile::TopRight) => Step::To(Some(Tile::TopLeft)),
            Some(Tile::BottomRight) => Step::To(Some(Tile::BottomLeft)),
            Some(Tile::TopLeft) => Step::To(Some(Tile::TopLeft)),
            Some(Tile::BottomLeft) => Step::To(Some(Tile::BottomLeft)),
            _ => Step::To(Some(Tile::Left)),
        },
        Direction::Right => match current {
            Some(Tile::Left) => Step::To(None),
            Some(Tile::TopLeft) => Step::To(Some(Tile::TopRight)),
            Some(Tile::BottomLeft) => Step::To(Some(Tile::BottomRight)),
            Some(Tile::TopRight) => Step::To(Some(Tile::TopRight)),
            Some(Tile::BottomRight) => Step::To(Some(Tile::BottomRight)),
            _ => Step::To(Some(Tile::Right)),
        },
        Direction::Above => match current {
            Some(Tile::Left) => Step::To(Some(Tile::TopLeft)),
            Some(Tile::Right) => Step::To(Some(Tile::TopRight)),
            Some(Tile::BottomLeft) => Step::To(Some(Tile::Left)),
            Some(Tile::BottomRight) => Step::To(Some(Tile::Right)),
            _ => Step::To(Some(Tile::Full)),
        },
        Direction::Below => match current {
            Some(Tile::Full) => Step::To(None),
            Some(Tile::TopLeft) => Step::To(Some(Tile::Left)),
            Some(Tile::TopRight) => Step::To(Some(Tile::Right)),
            Some(Tile::Left) => Step::To(Some(Tile::BottomLeft)),
            Some(Tile::Right) => Step::To(Some(Tile::BottomRight)),
            Some(Tile::BottomLeft) => Step::To(None),
            Some(Tile::BottomRight) => Step::To(None),
            None => Step::Minimize,
        },
    }
}

/// A direction mirrored across the vertical centre line.
pub open spec fn mirror_dir(d: Direction) -> Direction {
    match d {
        Direction::Left => Direction::Right,
        Direction::Right => Direction::Left,
        other => other,
    }
}

pub open spec fn mirror_step(s: Step) -> Step {
    match s {
        Step::To(t) => Step::To(mirror_tile(t)),
        Step::Minimize => Step::Minimize,
    }
}

/// The chords are mirror-symmetric: from the mirrored tile, the mirrored
/// arrow does the mirrored thing.
pub proof fn lemma_step_mirror(current: Option<Tile>, dir: Direction)
    ensures
        step_spec(mirror_tile(current), mirror_dir(dir)) == mirror_step(step_spec(current, dir)),
{
}

/// Up undoes Down: from every tile but a bottom quarter, and from a free
/// window's Up, Down then Up comes back where it started. So Down on a half
/// gives its bottom quarter and Up brings it back to the half; Down on a top
/// quarter gives the half, and Up the quarter again; Down on full restores
/// the free window, and Up fills the zone again.
pub proof fn lemma_up_undoes_down(t: Tile)
    ensures
        t != Tile::BottomLeft && t != Tile::BottomRight ==> match step_spec(Some(t), Direction::Below) {
            Step::To(q) => step_spec(q, Direction::Above) == Step::To(Some(t)),
            Step::Minimize => false,
        },
        step_spec(Some(Tile::Left), Direction::Below) == Step::To(Some(Tile::BottomLeft)),
        step_spec(Some(Tile::BottomLeft), Direction::Above) == Step::To(Some(Tile::Left)),
        step_spec(Some(Tile::BottomRight), Direction::Above) == Step::To(Some(Tile::Right)),
        step_spec(None, Direction::Below) == Step::Minimize,
{
}

/// Sideways chords undo each other: from every tile on the left side, and
/// from a free window, Right then Left comes back where it started (a left
/// half restores the free window and Left from there takes the half again,
/// a free window takes the right half and is restored, and a left quarter
/// moves along its row and back).
pub proof fn lemma_right_then_left(t: Option<Tile>)
    requires
        t is None || t == Some(Tile::Left) || t == Some(Tile::TopLeft) || t == Some(Tile::BottomLeft),
    ensures
        match step_spec(t, Direction::Right) {
            Step::To(q) => step_spec(q, Direction::Left) == Step::To(t),
            Step::Minimize => false,
        },
        t == Some(Tile::Left) ==> step_spec(t, Direction::Right) == Step::To(None),
{
}

/// Up then Down from a half comes back to that half; Right undoes Left on a
/// window that was free.
pub proof fn lemma_steps_undo(t: Tile)
    ensures
        (t == Tile::Left || t == Tile::Right) ==> match step_spec(Some(t), Direction::Above) {
            Step::To(Some(q)) => step_spec(Some(q), Direction::Below) == Step::To(Some(t)),
            _ => false,
        },
        step_spec(None, Direction::Left) == Step::To(Some(Tile::Left)),
        step_spec(Some(Tile::Left), Direction::Right) == Step::To(None),
{
}

} // verus!
