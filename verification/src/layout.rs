//! The layout's plain rules: the gap between windows, a window's identity in
//! the layout, which window lies in a direction, and whether a window's
//! floating-or-tiled answer has changed since the last layout pass; and the
//! tiling tree itself, over `kukaku`'s split algebra, keyed by window id.

use vstd::prelude::*;
use std::collections::HashSet;
use crate::geom::{Direction, Rect, half, half_of, overlap};
use crate::role::{PlacementConfig, floats_by_app_id, floats_by_app_id_spec};
use crate::windowmode::Placement;
use crate::snap::{Tile, frame_fits, frame_for, frame_spec};
use kukaku::{LayoutNode, LeafRemoval, SplitOrientation};

verus! {

broadcast use vstd::std_specs::hash::group_hash_axioms;

/// Empty space between adjacent windows and around the edge of the usable
/// zone, in logical pixels.
pub const GAP: i32 = 4;

/// How thick the focused window's border is; drawn in the gap.
pub const BORDER: i32 = 2;

/// A window's identity inside the layout tree: a plain counter.
#[derive(Debug, Clone, Copy, PartialEq, Eq, Hash, PartialOrd, Ord, Structural)]
pub struct WindowId(pub u64);

/// How windows are arranged on the seat.
#[derive(Debug, Clone, Copy, PartialEq, Eq, Structural)]
pub enum LayoutMode {
    /// A binary-split tree.
    Tiling,
    /// Every window floats.
    Floating,
}

/// The gap holds two borders, one per neighbour, so a focused window's edge
/// is never drawn over its neighbour.
pub proof fn lemma_gap_holds_two_borders()
    ensures
        GAP >= 2 * BORDER,
{
}

pub open spec fn centre_x(r: Rect) -> int {
    r.x + half(r.w as int)
}

pub open spec fn centre_y(r: Rect) -> int {
    r.y + half(r.h as int)
}

pub open spec fn abs(v: int) -> int {
    if v < 0 {
        -v
    } else {
        v
    }
}

/// How far `to`'s centre lies beyond `from`'s along `dir`.
pub open spec fn along(from: Rect, to: Rect, dir: Direction) -> int {
    match dir {
        Direction::Left => centre_x(from) - centre_x(to),
        Direction::Right => centre_x(to) - centre_x(from),
        Direction::Above => centre_y(from) - centre_y(to),
        Direction::Below => centre_y(to) - centre_y(from),
    }
}

/// How far off the axis of `dir` `to`'s centre lies.
pub open spec fn across(from: Rect, to: Rect, dir: Direction) -> int {
    match dir {
        Direction::Left | Direction::Right => abs(centre_y(to) - centre_y(from)),
        Direction::Above | Direction::Below => abs(centre_x(to) - centre_x(from)),
    }
}

/// Distance ahead, with sideways distance weighted double.
pub open spec fn score(from: Rect, to: Rect, dir: Direction) -> int {
    along(from, to, dir) + 2 * across(from, to, dir)
}

/// Candidate `i` is the neighbour in `dir`: strictly ahead, with the lowest
/// score, and the first among equals.
pub open spec fn is_nearest<T>(from: Rect, others: Seq<(T, Rect)>, dir: Direction, i: int) -> bool {
    &&& 0 <= i < others.len()
    &&& along(from, others[i].1, dir) > 0
    &&& forall|j: int|
        0 <= j < others.len() && along(from, (#[trigger] others[j]).1, dir) > 0 ==> score(
            from,
            others[i].1,
            dir,
        ) <= score(from, others[j].1, dir) && (j < i ==> score(from, others[i].1, dir) < score(
            from,
            others[j].1,
            dir,
        ))
}

/// The nearest neighbour of `from` in `dir`, by geometry: among the others
/// whose centre lies strictly beyond `from`'s on that axis, the one with the
/// lowest score (the first on a tie); `None` when none lies ahead.
pub fn nearest_in_direction<T: Copy>(from: Rect, others: &[(T, Rect)], dir: Direction) -> (r: Option<T>)
    ensures
        r is None <==> forall|j: int| 0 <= j < others@.len() ==> along(from, (#[trigger] others@[j]).1, dir) <= 0,
        r is Some ==> exists|i: int| is_nearest(from, others@, dir, i) && r->0 == (#[trigger] others@[i]).0,
{
    let fx = from.x as i64 + half_of(from.w);
    let fy = from.y as i64 + half_of(from.h);
    let mut best: Option<usize> = None;
    let mut best_score: i64 = 0;
    let mut k: usize = 0;
    while k < others.len()
        invariant
            k <= others@.len(),
            fx == centre_x(from),
            fy == centre_y(from),
            match best {
                None => forall|j: int| 0 <= j < k ==> along(from, (#[trigger] others@[j]).1, dir) <= 0,
                Some(b) => {
                    &&& b < k
                    &&& along(from, others@[b as int].1, dir) > 0
                    &&& best_score == score(from, others@[b as int].1, dir)
                    &&& forall|j: int|
                        0 <= j < k && along(from, (#[trigger] others@[j]).1, dir) > 0 ==> score(
                            from,
                            others@[b as int].1,
                            dir,
                        ) <= score(from, others@[j].1, dir) && (j < b ==> score(
                            from,
                            others@[b as int].1,
                            dir,
                        ) < score(from, others@[j].1, dir))
                },
            },
        decreases others@.len() - k,
    {
        let r = others[k].1;
        let cx = r.x as i64 + half_of(r.w);
        let cy = r.y as i64 + half_of(r.h);
        let (al, ac) = match dir {
            Direction::Left => (fx - cx, if cy >= fy { cy - fy } else { fy - cy }),
            Direction::Right => (cx - fx, if cy >= fy { cy - fy } else { fy - cy }),
            Direction::Above => (fy - cy, if cx >= fx { cx - fx } else { fx - cx }),
            Direction::Below => (cy - fy, if cx >= fx { cx - fx } else { fx - cx }),
        };
        if al > 0 {
            let s = al + ac * 2;
            let better = match best {
                None => true,
                Some(_) => s < best_score,
            };
            if better {
                best = Some(k);
                best_score = s;
            }
        }
        k = k + 1;
    }
    match best {
        Some(b) => {
            proof {
                assert(is_nearest(from, others@, dir, b as int));
            }
            Some(others[b].0)
        },
        None => None,
    }
}

/// A window's floating answer disagrees with the last layout pass: it should
/// float (every window does in floating mode, an overlay always does) and is
/// not in the floating set, or the other way round.
pub fn placement_disagrees(mode: LayoutMode, floats_by_app: bool, in_set: bool) -> (b: bool)
    ensures
        b <==> ((mode == LayoutMode::Floating || floats_by_app) != in_set),
{
    let should_float = mode == LayoutMode::Floating || floats_by_app;
    should_float != in_set
}

/// Whether the window with this surface id and `app_id` should be moved
/// between the tiling tree and the floating set; `false` for a window with
/// no surface id.
pub fn placement_changed(
    surface_id: Option<u32>,
    app_id: Option<&str>,
    floating_ids: &HashSet<u32>,
    placement: &PlacementConfig,
    mode: LayoutMode,
) -> (b: bool)
    ensures
        match surface_id {
            None => !b,
            Some(id) => b <==> ((mode == LayoutMode::Floating || floats_by_app_id_spec(app_id, placement))
                != floating_ids@.contains(id)),
        },
{
    let id = match surface_id {
        Some(id) => id,
        None => {
            return false;
        },
    };
    let in_set = floating_ids.contains(&id);
    placement_disagrees(mode, floats_by_app_id(app_id, placement), in_set)
}

/// A logical coordinate as a cell of the layout tree: negative values clamp
/// to 0 and values past `u16::MAX` to `u16::MAX`, never wrapping into a
/// plausible small number.
pub fn to_cell(v: i32) -> (c: u16)
    ensures
        c == (if v < 0 {
            0
        } else if v > u16::MAX {
            u16::MAX as int
        } else {
            v as int
        }),
{
    if v < 0 {
        0
    } else if v > 65535 {
        65535
    } else {
        v as u16
    }
}

/// One axis of a parcel inset by [`GAP`]: the start moves in by a gap, and
/// the extent loses a gap at each end but keeps at least one pixel.
pub open spec fn gap_inset(start: int, extent: int) -> (int, int) {
    (start + GAP, if extent - 2 * GAP < 1 {
        1
    } else {
        extent - 2 * GAP
    })
}

/// The rectangle a window gets inside the parcel `(x, y, w, h)` the tree
/// assigned it: inset by [`GAP`] on every side, and at least one pixel each
/// way, so a parcel narrower than two gaps is degenerate but never negative.
pub fn inset_by_gap(x: u16, y: u16, w: u16, h: u16) -> (r: Rect)
    ensures
        (r.x as int, r.w as int) == gap_inset(x as int, w as int),
        (r.y as int, r.h as int) == gap_inset(y as int, h as int),
{
    let ww = w as i32 - GAP * 2;
    let hh = h as i32 - GAP * 2;
    Rect {
        x: x as i32 + GAP,
        y: y as i32 + GAP,
        w: if ww < 1 {
            1
        } else {
            ww
        },
        h: if hh < 1 {
            1
        } else {
            hh
        },
    }
}

/// The gap separates rather than overlaps: when one parcel ends where the
/// next begins, and is wider than two gaps, the inset windows are exactly two
/// gaps apart — room for both neighbours' borders.
pub proof fn lemma_inset_keeps_neighbours_apart(x: int, w: int, next_x: int, next_w: int)
    requires
        x + w == next_x,
        w > 2 * GAP,
    ensures
        gap_inset(x, w).0 + gap_inset(x, w).1 + 2 * GAP == gap_inset(next_x, next_w).0,
        2 * GAP >= 2 * BORDER,
{
}

/// The size a client fixed for itself: its minimum and maximum agree and
/// are positive, which is how "not resizable" is spelled on the wire.
pub fn fixed_size(min: (i32, i32), max: (i32, i32)) -> (r: Option<(i32, i32)>)
    ensures
        r == (if min == max && min.0 > 0 && min.1 > 0 {
            Some(min)
        } else {
            None
        }),
{
    if min.0 == max.0 && min.1 == max.1 && min.0 > 0 && min.1 > 0 {
        Some(min)
    } else {
        None
    }
}

/// The smallest frame a client's minimum size allows, its title bar of
/// `bar_height` included: nothing when it declares no minimum, and negative
/// parts read as zero.
pub fn min_frame(min: (i32, i32), bar_height: i32) -> (r: (i32, i32))
    requires
        0 <= bar_height,
        min.1 + bar_height <= i32::MAX,
    ensures
        r == (if min.0 <= 0 && min.1 <= 0 {
            (0i32, 0i32)
        } else {
            (
                if min.0 < 0 {
                    0i32
                } else {
                    min.0
                },
                (if min.1 < 0 {
                    0
                } else {
                    min.1
                } + bar_height) as i32,
            )
        }),
{
    if min.0 <= 0 && min.1 <= 0 {
        (0, 0)
    } else {
        let w = if min.0 < 0 {
            0
        } else {
            min.0
        };
        let h = if min.1 < 0 {
            0
        } else {
            min.1
        };
        (w, h + bar_height)
    }
}

/// The zone windows are laid out in: the output's non-exclusive zone
/// (relative to the output at `origin`) with the seat's own bar of
/// `bar_height` taken off its top, and at least one pixel left.
pub fn usable_zone(origin: (i32, i32), zone: Rect, bar_height: i32) -> (r: Rect)
    requires
        i32::MIN <= origin.0 + zone.x <= i32::MAX,
        i32::MIN <= zone.y + bar_height <= i32::MAX,
        i32::MIN <= origin.1 + zone.y + bar_height <= i32::MAX,
        i32::MIN <= zone.h - bar_height <= i32::MAX,
    ensures
        r == (Rect {
            x: (origin.0 + zone.x) as i32,
            y: (origin.1 + zone.y + bar_height) as i32,
            w: zone.w,
            h: if zone.h - bar_height < 1 {
                1i32
            } else {
                (zone.h - bar_height) as i32
            },
        }),
{
    let y = zone.y + bar_height;
    let h = zone.h - bar_height;
    Rect { x: origin.0 + zone.x, y: origin.1 + y, w: zone.w, h: if h < 1 {
        1
    } else {
        h
    } }
}

/// Where a window's frame goes this pass: nowhere when it is hidden
/// (minimised, or a tab behind its sibling), the whole usable zone when it
/// is maximised, and the rectangle the layout gave it otherwise.
pub fn frame_this_pass(placement: Placement, laid_out: Rect, usable: Rect) -> (r: Option<Rect>)
    ensures
        r == match placement {
            Placement::Hidden => None,
            Placement::Maximized => Some(usable),
            Placement::AsLaidOut => Some(laid_out),
        },
{
    match placement {
        Placement::Hidden => None,
        Placement::Maximized => Some(usable),
        Placement::AsLaidOut => Some(laid_out),
    }
}

/// What the floating pass does with a floating window before the floating
/// rules place it.
#[derive(Debug, Clone, Copy, PartialEq, Eq)]
pub enum FloatFrame {
    /// Not shown: minimised, or a tab behind its sibling.
    Hidden,
    /// Given this frame outright.
    Framed(Rect),
    /// Placed by the floating rules: recalled, cascaded or centred.
    Placed,
}

/// Where a floating window's frame goes this pass: hidden and maximised win
/// first, as for a tiled window; then, in floating mode only, a snapped
/// window takes its tile's frame; anything else is left to the floating
/// rules.
pub fn float_frame_this_pass(placement: Placement, floating_mode: bool, tile: Option<Tile>, usable: Rect) -> (r: FloatFrame)
    requires
        (placement == Placement::AsLaidOut && floating_mode && tile is Some && tile->0 != Tile::Full)
            ==> frame_fits(usable),
    ensures
        match placement {
            Placement::Hidden => r == FloatFrame::Hidden,
            Placement::Maximized => r == FloatFrame::Framed(usable),
            Placement::AsLaidOut => match tile {
                Some(t) if floating_mode => r matches FloatFrame::Framed(f) && (
                    f.x as int,
                    f.y as int,
                    f.w as int,
                    f.h as int,
                ) == frame_spec(t, usable),
                _ => r == FloatFrame::Placed,
            },
        },
{
    match placement {
        Placement::Hidden => FloatFrame::Hidden,
        Placement::Maximized => FloatFrame::Framed(usable),
        Placement::AsLaidOut => {
            if floating_mode {
                if let Some(t) = tile {
                    return FloatFrame::Framed(frame_for(t, usable));
                }
            }
            FloatFrame::Placed
        },
    }
}

/// A rectangle of the layout tree: unitless and unsigned, which the seat
/// reads as pixels.
#[derive(Debug, Clone, Copy, PartialEq, Eq, Structural)]
pub struct TreeRect {
    pub x: u16,
    pub y: u16,
    pub w: u16,
    pub h: u16,
}

/// A layout tree of `kukaku`'s, held whole.
#[derive(Debug)]
#[verifier::external_body]
pub struct Tree {
    node: LayoutNode<WindowId>,
}

/// A subtree of a layout tree, borrowed.
#[verifier::external_body]
pub struct Node<'a> {
    node: &'a LayoutNode<WindowId>,
}

/// Which way a split divides its area, as kukaku's `SplitOrientation`
/// names it: a horizontal split stacks its sides one above the other, a
/// vertical one sets them side by side.
#[derive(Debug, Clone, Copy, PartialEq, Eq, Structural)]
pub enum SplitAxis {
    Horizontal,
    Vertical,
}

/// The axis a split toward `dir` divides along: left and right set the new
/// leaf beside its origin, above and below stack it.
pub open spec fn axis_of(dir: Direction) -> SplitAxis {
    match dir {
        Direction::Left | Direction::Right => SplitAxis::Vertical,
        Direction::Above | Direction::Below => SplitAxis::Horizontal,
    }
}

/// The axis of the split a new window makes of a leaf `depth` splits deep:
/// side by side at an even depth, stacked at an odd one, so a run of new
/// windows makes a grid.
pub open spec fn axis_for_depth(depth: nat) -> SplitAxis {
    if depth % 2 == 0 {
        SplitAxis::Vertical
    } else {
        SplitAxis::Horizontal
    }
}

/// A node taken apart: a leaf's window, or a split's axis and two sides.
pub enum Parts<'a> {
    Leaf(WindowId),
    Split(SplitAxis, Node<'a>, Node<'a>),
}

/// What removing a leaf did to the tree.
#[derive(Debug, Clone, Copy, PartialEq, Eq, Structural)]
pub enum Removal {
    /// The leaf went and its split collapsed into the sibling.
    Removed,
    /// The leaf was the whole tree, which cannot be empty.
    WasRoot,
    /// No leaf holds that id.
    NotFound,
}

/// The leaves of a tree, left to right and top to bottom, by
/// `LayoutNode::panes`.
pub uninterp spec fn tree_panes(t: Tree) -> Seq<WindowId>;

/// The leaves of a subtree, by `LayoutNode::panes`.
pub uninterp spec fn node_panes(n: Node) -> Seq<WindowId>;

/// The rectangle of every leaf laid out in `bounds`, by
/// `LayoutNode::compute_rects`.
pub uninterp spec fn tree_rects(t: Tree, bounds: TreeRect) -> Seq<(WindowId, TreeRect)>;

/// The leaf one lands on moving `dir` from `target`, by
/// `LayoutNode::neighbor`.
pub uninterp spec fn tree_neighbor(t: Tree, target: WindowId, dir: Direction, bounds: TreeRect) -> Option<WindowId>;

/// A rectangle of cells that ends within the cell range on both axes.
pub open spec fn fits_cells(b: TreeRect) -> bool {
    b.x + b.w <= u16::MAX && b.y + b.h <= u16::MAX
}

/// Cell `(x, y)` lies in `c`.
pub open spec fn holds_cell(c: TreeRect, x: int, y: int) -> bool {
    c.x <= x < c.x + c.w && c.y <= y < c.y + c.h
}

/// `c` lies inside `b`.
pub open spec fn cell_within(c: TreeRect, b: TreeRect) -> bool {
    b.x <= c.x && c.x + c.w <= b.x + b.w && b.y <= c.y && c.y + c.h <= b.y + b.h
}

/// `a` and `b` share no cell: one ends before the other begins on some
/// axis.
pub open spec fn cells_apart(a: TreeRect, b: TreeRect) -> bool {
    a.x + a.w <= b.x || b.x + b.w <= a.x || a.y + a.h <= b.y || b.y + b.h <= a.y
}

/// The rectangles tile `b`: each lies inside it, no two share a cell, and
/// every cell of `b` lies in one of them.
pub open spec fn tiles(rs: Seq<(WindowId, TreeRect)>, b: TreeRect) -> bool {
    &&& forall|i: int| 0 <= i < rs.len() ==> cell_within(#[trigger] rs[i].1, b)
    &&& forall|i: int, j: int| #![trigger rs[i], rs[j]] 0 <= i < j < rs.len() ==> cells_apart(rs[i].1, rs[j].1)
    &&& forall|x: int, y: int| #[trigger] holds_cell(b, x, y) ==> exists|i: int| 0 <= i < rs.len() && holds_cell(#[trigger] rs[i].1, x, y)
}

/// The first of the two rectangles an even split divides `r` into along
/// `axis`: the left part of a vertical split, the top of a horizontal one,
/// taking the larger half of an odd extent.
pub open spec fn first_half(r: TreeRect, axis: SplitAxis) -> TreeRect {
    match axis {
        SplitAxis::Vertical => TreeRect { x: r.x, y: r.y, w: ((r.w + 1) / 2) as u16, h: r.h },
        SplitAxis::Horizontal => TreeRect { x: r.x, y: r.y, w: r.w, h: ((r.h + 1) / 2) as u16 },
    }
}

/// The second of the two rectangles an even split divides `r` into along
/// `axis`: exactly what the first leaves.
pub open spec fn second_half(r: TreeRect, axis: SplitAxis) -> TreeRect {
    match axis {
        SplitAxis::Vertical => TreeRect {
            x: (r.x + (r.w + 1) / 2) as u16,
            y: r.y,
            w: (r.w - (r.w + 1) / 2) as u16,
            h: r.h,
        },
        SplitAxis::Horizontal => TreeRect {
            x: r.x,
            y: (r.y + (r.h + 1) / 2) as u16,
            w: r.w,
            h: (r.h - (r.h + 1) / 2) as u16,
        },
    }
}

/// The rectangles after the leaf at `i` is split evenly along `axis` into
/// `first` and `second`: every other leaf keeps its rectangle, and the two
/// halves of the old one go to the new pair.
pub open spec fn split_rects(
    rs: Seq<(WindowId, TreeRect)>,
    i: int,
    axis: SplitAxis,
    first: WindowId,
    second: WindowId,
) -> Seq<(WindowId, TreeRect)> {
    rs.take(i) + seq![(first, first_half(rs[i].1, axis)), (second, second_half(rs[i].1, axis))] + rs.skip(
        i + 1,
    )
}

/// `fs` is `rs` after the leaf at `i` left the split whose leaves are `s`
/// to `e`, one side of it: the split collapses into the other side, whose
/// leaves tile the area the whole split had, and every leaf outside it keeps
/// its rectangle.
pub open spec fn collapsed_rects(
    rs: Seq<(WindowId, TreeRect)>,
    fs: Seq<(WindowId, TreeRect)>,
    i: int,
    s: int,
    e: int,
) -> bool {
    &&& 0 <= s <= i < e <= rs.len()
    &&& e - s >= 2
    &&& (i == s || i == e - 1)
    &&& fs.len() == rs.len() - 1
    &&& fs.take(s) == rs.take(s)
    &&& fs.skip(e - 1) == rs.skip(e)
    &&& exists|r: TreeRect| tiles(rs.subrange(s, e), r) && tiles(fs.subrange(s, e - 1), r)
}

/// In any bounds in the cell range, `after` lays out as `before` does with
/// the leaf at `i` gone from the split whose leaves are `s` to `e`.
pub open spec fn collapses_in(before: Tree, after: Tree, i: int, s: int, e: int) -> bool {
    forall|b: TreeRect|
        fits_cells(b) ==> collapsed_rects(tree_rects(before, b), #[trigger] tree_rects(after, b), i, s, e)
}

/// A split toward the right or below puts the new leaf after its origin.
pub open spec fn lands_after(dir: Direction) -> bool {
    dir == Direction::Right || dir == Direction::Below
}

/// A tree of one leaf, by `LayoutNode::leaf`.
#[verifier::external_body]
fn leaf_of(id: WindowId) -> (t: Tree)
    ensures
        tree_panes(t) == seq![id],
{
    Tree { node: LayoutNode::leaf(id) }
}

/// Two trees side by side under an even vertical divider, by
/// `LayoutNode::split`: the first one's leaves, then the second one's. When
/// the second is one leaf the first lacks, the split right above that leaf
/// is this vertical one.
#[verifier::external_body]
fn side_by_side(a: Tree, b: Tree) -> (t: Tree)
    ensures
        tree_panes(t) == tree_panes(a) + tree_panes(b),
        tree_panes(b).len() == 1 && !tree_panes(a).contains(tree_panes(b)[0]) ==> parent_axis(
            tree_root(&t),
            tree_panes(b)[0],
        ) == Some(SplitAxis::Vertical),
{
    Tree { node: LayoutNode::split(SplitOrientation::Vertical, a.node, b.node) }
}

/// Whether a leaf holds `id`, by `LayoutNode::contains_pane`.
#[verifier::external_body]
fn holds_leaf(t: &Tree, id: WindowId) -> (r: bool)
    ensures
        r == tree_panes(*t).contains(id),
{
    t.node.contains_pane(id)
}

/// Split the first leaf holding `target` evenly between it and a fresh
/// leaf, by `LayoutNode::split_leaf`: the fresh leaf lands after its origin
/// for a split toward the right or below, before it otherwise, and the new
/// split divides along `dir`'s axis (`Direction::orientation`). Only that
/// leaf is replaced, so every other leaf keeps its rectangle; the two new
/// leaves share the old one at ratio one half, the first side taking
/// `round(extent / 2)` cells. Returns whether such a leaf was found; if not,
/// the tree is as it was.
#[verifier::external_body]
fn split_leaf_at(t: &mut Tree, target: WindowId, fresh: WindowId, dir: Direction) -> (found: bool)
    ensures
        found && !tree_panes(*old(t)).contains(fresh) ==> parent_axis(tree_root(final(t)), fresh)
            == Some(axis_of(dir)),
        found == tree_panes(*old(t)).contains(target),
        !found ==> tree_panes(*final(t)) == tree_panes(*old(t)),
        found ==> exists|i: int|
            0 <= i < tree_panes(*old(t)).len() && tree_panes(*old(t))[i] == target
                && (forall|j: int| 0 <= j < i ==> tree_panes(*old(t))[j] != target)
                && #[trigger] tree_panes(*final(t)) == tree_panes(*old(t)).insert(
                if lands_after(dir) {
                    i + 1
                } else {
                    i
                },
                fresh,
            ) && forall|b: TreeRect|
                fits_cells(b) ==> #[trigger] tree_rects(*final(t), b) == split_rects(
                    tree_rects(*old(t), b),
                    i,
                    axis_of(dir),
                    if lands_after(dir) {
                        target
                    } else {
                        fresh
                    },
                    if lands_after(dir) {
                        fresh
                    } else {
                        target
                    },
                ),
{
    let d = match dir {
        Direction::Left => kukaku::Direction::Left,
        Direction::Right => kukaku::Direction::Right,
        Direction::Above => kukaku::Direction::Above,
        Direction::Below => kukaku::Direction::Below,
    };
    t.node.split_leaf(target, fresh, d, kukaku::SplitRatio::BALANCED.get())
}

/// Remove a leaf holding `id` and collapse its split into the sibling, by
/// `LayoutNode::remove_leaf`: the sibling takes the split's place, so it is
/// laid out in the area the split had and every leaf outside the split
/// keeps its rectangle. A tree that is that one leaf is left as it is and
/// answered `WasRoot`; a tree without the id is left as it is.
#[verifier::external_body]
fn remove_leaf_of(t: &mut Tree, id: WindowId) -> (r: Removal)
    ensures
        (r == Removal::WasRoot) == (tree_panes(*old(t)) == seq![id]),
        (r == Removal::NotFound) == !tree_panes(*old(t)).contains(id),
        r != Removal::Removed ==> tree_panes(*final(t)) == tree_panes(*old(t)),
        r == Removal::Removed ==> exists|i: int|
            0 <= i < tree_panes(*old(t)).len() && tree_panes(*old(t))[i] == id
                && #[trigger] tree_panes(*final(t)) == tree_panes(*old(t)).remove(i) && exists|
                s: int,
                e: int,
            | #[trigger] collapses_in(*old(t), *final(t), i, s, e),
{
    match t.node.remove_leaf(id) {
        LeafRemoval::Removed => Removal::Removed,
        LeafRemoval::WasRoot => Removal::WasRoot,
        LeafRemoval::NotFound => Removal::NotFound,
    }
}

/// The first leaf of a tree, by `LayoutNode::panes`.
#[verifier::external_body]
fn first_leaf(t: &Tree) -> (r: Option<WindowId>)
    ensures
        r == (if tree_panes(*t).len() > 0 {
            Some(tree_panes(*t)[0])
        } else {
            None
        }),
{
    t.node.panes().first().copied()
}

/// How many leaves a tree has, by `LayoutNode::pane_count`.
#[verifier::external_body]
fn leaf_count(t: &Tree) -> (n: usize)
    ensures
        n == tree_panes(*t).len(),
{
    t.node.pane_count()
}

/// Every leaf's rectangle in `bounds`, by `LayoutNode::compute_rects`, leaf
/// by leaf in the tree's order. Each split gives its first side a share and
/// its second side exactly the rest, so the rectangles tile the bounds.
/// Splitting adds an offset to the bounds' corner in `u16`, so the bounds
/// must end within the cell range.
#[verifier::external_body]
fn rects_of(t: &Tree, bounds: TreeRect) -> (r: Vec<(WindowId, TreeRect)>)
    requires
        fits_cells(bounds),
    ensures
        r@ == tree_rects(*t, bounds),
        tiles(r@, bounds),
        r@.len() == tree_panes(*t).len(),
        forall|i: int| 0 <= i < r@.len() ==> (#[trigger] r@[i]).0 == tree_panes(*t)[i],
{
    t.node.compute_rects(kukaku::Rect::new(bounds.x, bounds.y, bounds.w, bounds.h))
        .into_iter()
        .map(|(id, c)| (id, TreeRect { x: c.x, y: c.y, w: c.w, h: c.h }))
        .collect()
}

/// The leaf one lands on moving `dir` from `target` in `bounds`, by
/// `LayoutNode::neighbor`: never `target` itself, always a leaf of the
/// tree, and nothing for a target the tree lacks. It lays the tree out
/// first, so the bounds must end within the cell range.
#[verifier::external_body]
fn neighbor_of(t: &Tree, target: WindowId, dir: Direction, bounds: TreeRect) -> (r: Option<WindowId>)
    requires
        fits_cells(bounds),
    ensures
        r == tree_neighbor(*t, target, dir, bounds),
        !tree_panes(*t).contains(target) ==> r is None,
        r matches Some(p) ==> p != target && tree_panes(*t).contains(p),
{
    let d = match dir {
        Direction::Left => kukaku::Direction::Left,
        Direction::Right => kukaku::Direction::Right,
        Direction::Above => kukaku::Direction::Above,
        Direction::Below => kukaku::Direction::Below,
    };
    t.node.neighbor(target, d, kukaku::Rect::new(bounds.x, bounds.y, bounds.w, bounds.h))
}

/// The root node of a tree, borrowed.
pub uninterp spec fn tree_root(t: &Tree) -> Node;

/// A node taken apart, as `parts` takes it.
pub uninterp spec fn node_parts(n: Node) -> Parts;

/// A node whose parts agree with its leaves: a leaf holds its one window,
/// and a split's leaves are its two sides' leaves in order, neither empty.
pub open spec fn shaped(n: Node) -> bool {
    match node_parts(n) {
        Parts::Leaf(p) => node_panes(n) == seq![p],
        Parts::Split(_, a, b) => node_panes(n) == node_panes(a) + node_panes(b) && node_panes(a).len() >= 1
            && node_panes(b).len() >= 1,
    }
}

/// How many splits lie above the first leaf holding `target`, in the
/// order leaves are listed (the first side before the second); nothing when
/// no leaf holds it.
pub open spec fn leaf_depth(n: Node, target: WindowId) -> Option<nat>
    decreases node_panes(n).len(),
{
    if !shaped(n) {
        None
    } else {
        match node_parts(n) {
            Parts::Leaf(p) => if p == target {
                Some(0)
            } else {
                None
            },
            Parts::Split(_, a, b) => match leaf_depth(a, target) {
                Some(d) => Some(d + 1),
                None => match leaf_depth(b, target) {
                    Some(d) => Some(d + 1),
                    None => None,
                },
            },
        }
    }
}

/// The axis of the split right above the first leaf holding `target`;
/// nothing when no leaf holds it or that leaf is the whole node.
pub open spec fn parent_axis(n: Node, target: WindowId) -> Option<SplitAxis>
    decreases node_panes(n).len(),
{
    if !shaped(n) {
        None
    } else {
        match node_parts(n) {
            Parts::Leaf(_) => None,
            Parts::Split(ax, a, b) => if node_panes(a).contains(target) {
                if node_parts(a) == Parts::Leaf(target) {
                    Some(ax)
                } else {
                    parent_axis(a, target)
                }
            } else if node_panes(b).contains(target) {
                if node_parts(b) == Parts::Leaf(target) {
                    Some(ax)
                } else {
                    parent_axis(b, target)
                }
            } else {
                None
            },
        }
    }
}

/// The whole tree, borrowed as its root node.
#[verifier::external_body]
fn root_of(t: &Tree) -> (n: Node)
    ensures
        n == tree_root(t),
        node_panes(n) == tree_panes(*t),
{
    Node { node: &t.node }
}

/// A node taken apart: a leaf is a tree of its one window, and a split's
/// leaves are its two sides' leaves in order, neither side empty.
#[verifier::external_body]
fn parts<'a>(n: &Node<'a>) -> (r: Parts<'a>)
    ensures
        r == node_parts(*n),
        r matches Parts::Leaf(p) ==> node_panes(*n) == seq![p],
        r matches Parts::Split(_, a, b) ==> node_panes(*n) == node_panes(a) + node_panes(b)
            && node_panes(a).len() >= 1 && node_panes(b).len() >= 1 && node_panes(*n).len() <= usize::MAX,
{
    match n.node {
        LayoutNode::Leaf { pane } => Parts::Leaf(*pane),
        LayoutNode::Split { orientation, a, b, .. } => Parts::Split(
            match orientation {
                SplitOrientation::Horizontal => SplitAxis::Horizontal,
                SplitOrientation::Vertical => SplitAxis::Vertical,
            },
            Node { node: &**a },
            Node { node: &**b },
        ),
    }
}

/// How many splits lie above the first leaf holding `target`, or nothing
/// when no leaf holds it.
fn walk(n: &Node, target: WindowId) -> (r: Option<usize>)
    ensures
        r is Some <==> node_panes(*n).contains(target),
        r matches Some(x) ==> x < node_panes(*n).len(),
        match r {
            Some(x) => leaf_depth(*n, target) == Some(x as nat),
            None => leaf_depth(*n, target) is None,
        },
    decreases node_panes(*n).len(),
{
    let pr = parts(n);
    proof {
        assert(shaped(*n));
    }
    match pr {
        Parts::Leaf(p) => {
            proof {
                assert(node_panes(*n)[0] == p);
                assert(node_parts(*n) == Parts::Leaf(p));
                assert(leaf_depth(*n, target) == (if p == target {
                    Some(0nat)
                } else {
                    None
                }));
            }
            if p == target {
                Some(0)
            } else {
                None
            }
        },
        Parts::Split(ax, a, b) => {
            proof {
                broadcast use vstd::seq_lib::group_seq_properties;
                assert(node_parts(*n) == Parts::Split(ax, a, b));
            }
            match walk(&a, target) {
                Some(x) => Some(x + 1),
                None => match walk(&b, target) {
                    Some(x) => Some(x + 1),
                    None => None,
                },
            }
        },
    }
}

/// The depth of the first leaf holding `target`, 0 when none does.
fn depth_of(tree: &Tree, target: WindowId) -> (r: usize)
    ensures
        match leaf_depth(tree_root(tree), target) {
            Some(d) => r == d,
            None => r == 0,
        },
        r < tree_panes(*tree).len() || r == 0,
        tree_panes(*tree).contains(target) ==> leaf_depth(tree_root(tree), target) is Some,
{
    let root = root_of(tree);
    match walk(&root, target) {
        Some(d) => d,
        None => 0,
    }
}

/// The tiling state for one output: the layout tree, keyed by window id,
/// the next id to hand out, and which leaf the keyboard is on. The seat
/// keeps which window each id names.
#[derive(Debug)]
pub struct Tiling {
    tree: Option<Tree>,
    next: u64,
    focus: Option<WindowId>,
}

/// The windows after mapping `id`: right after the focused window, or last
/// when nothing is focused.
pub open spec fn mapped_panes(panes: Seq<WindowId>, focus: Option<WindowId>, id: WindowId) -> Seq<WindowId> {
    match focus {
        Some(f) => panes.insert(panes.index_of(f) + 1, id),
        None => panes.push(id),
    }
}

/// The windows after unmapping `id`: the same, without it.
pub open spec fn unmapped_panes(panes: Seq<WindowId>, id: WindowId) -> Seq<WindowId> {
    panes.remove(panes.index_of(id))
}

/// Unmapping a window undoes mapping it: the tree holds the windows it held
/// before, in the same order.
pub proof fn lemma_unmap_undoes_map(panes: Seq<WindowId>, focus: Option<WindowId>, id: WindowId)
    requires
        panes.no_duplicates(),
        !panes.contains(id),
        focus matches Some(f) ==> panes.contains(f),
    ensures
        mapped_panes(panes, focus, id).contains(id),
        unmapped_panes(mapped_panes(panes, focus, id), id) == panes,
{
    let m = mapped_panes(panes, focus, id);
    let k = match focus {
        Some(f) => panes.index_of(f) + 1,
        None => panes.len() as int,
    };
    match focus {
        Some(f) => {
            assert(panes[panes.index_of(f)] == f);
        },
        None => {},
    }
    assert(m[k] == id);
    assert(m[m.index_of(id)] == id);
    assert(m.index_of(id) == k) by {
        let j = m.index_of(id);
        if j < k {
            assert(m[j] == panes[j]);
        } else if j > k {
            assert(m[j] == panes[j - 1]);
        }
    }
    assert(m.remove(k) =~= panes);
}

/// A tree's cells for a logical rectangle, each part clamped into `u16`.
pub open spec fn cells_of(r: Rect) -> TreeRect {
    TreeRect {
        x: clamp_cell(r.x as int) as u16,
        y: clamp_cell(r.y as int) as u16,
        w: clamp_cell(r.w as int) as u16,
        h: clamp_cell(r.h as int) as u16,
    }
}

/// A coordinate clamped into `0..=u16::MAX`.
pub open spec fn clamp_cell(v: int) -> int {
    if v < 0 {
        0
    } else if v > u16::MAX {
        u16::MAX as int
    } else {
        v
    }
}

/// Whether a logical rectangle, clamped into cells, ends within the cell
/// range: what laying a tree out in it needs.
pub fn cells_fit(bounds: Rect) -> (b: bool)
    ensures
        b == fits_cells(cells_of(bounds)),
{
    let c = TreeRect { x: to_cell(bounds.x), y: to_cell(bounds.y), w: to_cell(bounds.w), h: to_cell(bounds.h) };
    c.x as u32 + c.w as u32 <= 65535 && c.y as u32 + c.h as u32 <= 65535
}

/// A parcel of the tree, in pixels, inset by the gap.
pub open spec fn inset(c: TreeRect) -> Rect {
    Rect {
        x: gap_inset(c.x as int, c.w as int).0 as i32,
        y: gap_inset(c.y as int, c.h as int).0 as i32,
        w: gap_inset(c.x as int, c.w as int).1 as i32,
        h: gap_inset(c.y as int, c.h as int).1 as i32,
    }
}

/// A parcel wider and taller than the gap, so the window inset in it stays
/// inside it.
pub open spec fn roomy(c: TreeRect) -> bool {
    c.w > GAP && c.h > GAP
}

proof fn lemma_inset_inside(c: TreeRect)
    requires
        roomy(c),
    ensures
        c.x <= inset(c).x,
        inset(c).x + inset(c).w <= c.x + c.w,
        c.y <= inset(c).y,
        inset(c).y + inset(c).h <= c.y + c.h,
{
}

/// In any bounds in the cell range, `after` lays out as `before` does with
/// the window at `i` gone from the split whose windows are `s` to `e`: that
/// split collapses into its other side, and every window outside it keeps
/// its rectangle.
pub open spec fn collapsed_layout(before: Tiling, after: Tiling, i: int, s: int, e: int) -> bool {
    forall|b: TreeRect| fits_cells(b) ==> collapsed_rects(before.rects(b), #[trigger] after.rects(b), i, s, e)
}

impl Default for Tiling {
    fn default() -> (t: Tiling)
        ensures
            t.wf(),
            t.panes() == Seq::<WindowId>::empty(),
            t.focus() is None,
            t.counter() == 0,
    {
        Tiling { tree: None, next: 0, focus: None }
    }
}

impl Tiling {
    /// The windows the tree holds, in its order.
    pub closed spec fn panes(self) -> Seq<WindowId> {
        match self.tree {
            Some(t) => tree_panes(t),
            None => Seq::empty(),
        }
    }

    /// The window the keyboard is on, as far as the layout knows.
    pub closed spec fn focus(self) -> Option<WindowId> {
        self.focus
    }

    /// The next id to hand out.
    pub closed spec fn counter(self) -> u64 {
        self.next
    }

    /// How many splits lie above the first leaf holding `id`; nothing when
    /// the tree holds no such leaf.
    pub closed spec fn depth(self, id: WindowId) -> Option<nat> {
        match self.tree {
            Some(t) => leaf_depth(tree_root(&t), id),
            None => None,
        }
    }

    /// The axis of the split right above the first leaf holding `id`.
    pub closed spec fn split_above(self, id: WindowId) -> Option<SplitAxis> {
        match self.tree {
            Some(t) => parent_axis(tree_root(&t), id),
            None => None,
        }
    }

    /// The rectangles the tree assigns in `bounds`.
    pub closed spec fn rects(self, bounds: TreeRect) -> Seq<(WindowId, TreeRect)> {
        match self.tree {
            Some(t) => tree_rects(t, bounds),
            None => Seq::empty(),
        }
    }

    /// The window one lands on moving `dir` from the focused one in `bounds`.
    pub closed spec fn neighbor(self, dir: Direction, bounds: TreeRect) -> Option<WindowId> {
        match (self.tree, self.focus) {
            (Some(t), Some(f)) => tree_neighbor(t, f, dir, bounds),
            _ => None,
        }
    }

    /// Well-formed: a tree is never empty, focus names a window the tree
    /// holds, every id held is below the counter, and none is held twice.
    pub closed spec fn wf(self) -> bool {
        &&& (self.tree matches Some(t) ==> tree_panes(t).len() >= 1)
        &&& (self.focus matches Some(f) ==> self.panes().contains(f))
        &&& (forall|i: int| 0 <= i < self.panes().len() ==> (#[trigger] self.panes()[i]).0 < self.next)
        &&& self.panes().no_duplicates()
    }

    /// Whether another window can be given an id: the counter has not run
    /// out.
    pub fn can_map(&self) -> (b: bool)
        ensures
            b == (self.counter() < u64::MAX),
    {
        self.next < u64::MAX
    }

    /// Add a window, splitting the focused leaf, and focus it. The first
    /// window is the whole tree; a later one lands right after the focused
    /// window, the split turning with depth so a run of windows makes a grid.
    /// Should focus name no window of the tree, the newcomer splits the root
    /// and lands last.
    pub fn map_id(&mut self) -> (id: WindowId)
        requires
            old(self).wf(),
            old(self).counter() < u64::MAX,
        ensures
            final(self).wf(),
            id == WindowId(old(self).counter()),
            final(self).counter() == old(self).counter() + 1,
            final(self).focus() == Some(id),
            !old(self).panes().contains(id),
            final(self).panes() == mapped_panes(old(self).panes(), old(self).focus(), id),
            old(self).focus() matches Some(f) ==> forall|b: TreeRect|
                fits_cells(b) ==> #[trigger] final(self).rects(b) == split_rects(
                    old(self).rects(b),
                    old(self).panes().index_of(f),
                    axis_for_depth(old(self).depth(f)->0),
                    f,
                    id,
                ),
            old(self).panes().len() > 0 ==> final(self).split_above(id) == Some(
                match old(self).focus() {
                    Some(f) => match old(self).depth(f) {
                        Some(d) => axis_for_depth(d),
                        None => SplitAxis::Vertical,
                    },
                    None => SplitAxis::Vertical,
                },
            ),
    {
        let ghost before = self.panes();
        let id = WindowId(self.next);
        self.next = self.next + 1;
        proof {
            if before.contains(id) {
                let k = choose|k: int| 0 <= k < before.len() && before[k] == id;
                assert(before[k].0 < old(self).counter());
            }
        }
        let tree = match self.tree.take() {
            None => leaf_of(id),
            Some(mut tree) => {
                let target = match self.focus {
                    Some(f) => if holds_leaf(&tree, f) {
                        Some(f)
                    } else {
                        None
                    },
                    None => None,
                };
                match target {
                    Some(t) => {
                        let dir = if depth_of(&tree, t) % 2 == 0 {
                            Direction::Right
                        } else {
                            Direction::Below
                        };
                        let found = split_leaf_at(&mut tree, t, id, dir);
                        proof {
                            let i = choose|i: int|
                                0 <= i < before.len() && before[i] == t
                                    && (forall|j: int| 0 <= j < i ==> before[j] != t)
                                    && #[trigger] tree_panes(tree) == before.insert(
                                    if lands_after(dir) {
                                        i + 1
                                    } else {
                                        i
                                    },
                                    id,
                                );
                            assert(before[before.index_of(t)] == t);
                            assert(before.index_of(t) == i);
                        }
                        tree
                    },
                    None => {
                        let leaf = leaf_of(id);
                        side_by_side(tree, leaf)
                    },
                }
            },
        };
        self.tree = Some(tree);
        self.focus = Some(id);
        proof {
            let after = self.panes();
            assert(after.contains(id)) by {
                match old(self).focus() {
                    Some(f) => {
                        assert(after[before.index_of(f) + 1] == id);
                    },
                    None => {
                        assert(after[before.len() as int] == id);
                    },
                }
            }
            assert forall|i: int| 0 <= i < after.len() implies (#[trigger] after[i]).0 < self.next by {
                if after[i] != id {
                    assert(before.contains(after[i])) by {
                        match old(self).focus() {
                            Some(f) => {
                                let k = before.index_of(f) + 1;
                                if i < k {
                                    assert(after[i] == before[i]);
                                } else {
                                    assert(after[i] == before[i - 1]);
                                }
                            },
                            None => {
                                assert(after[i] == before[i]);
                            },
                        }
                    }
                    let k = choose|k: int| 0 <= k < before.len() && before[k] == after[i];
                    assert(before[k].0 < old(self).counter());
                }
            }
            assert(after.no_duplicates()) by {
                assert forall|i: int, j: int| 0 <= i < after.len() && 0 <= j < after.len() && i != j implies after[i]
                    != after[j] by {
                    match old(self).focus() {
                        Some(f) => {
                            let k = before.index_of(f) + 1;
                            if i != k && j != k {
                                let bi = if i < k { i } else { i - 1 };
                                let bj = if j < k { j } else { j - 1 };
                                assert(after[i] == before[bi]);
                                assert(after[j] == before[bj]);
                            } else if i == k {
                                let bj = if j < k { j } else { j - 1 };
                                assert(after[j] == before[bj]);
                            } else {
                                let bi = if i < k { i } else { i - 1 };
                                assert(after[i] == before[bi]);
                            }
                        },
                        None => {
                            if i < before.len() && j < before.len() {
                                assert(after[i] == before[i]);
                                assert(after[j] == before[j]);
                            } else if i < before.len() {
                                assert(after[i] == before[i]);
                            } else {
                                assert(after[j] == before[j]);
                            }
                        },
                    }
                }
            }
        }
        id
    }

    /// Remove a window and collapse its split; returns whether the tree still
    /// holds anything. If the focus was on it, focus moves to the first
    /// window left, so the next window has something to split. A window the
    /// tree does not hold changes nothing.
    pub fn unmap(&mut self, id: WindowId) -> (left: bool)
        requires
            old(self).wf(),
        ensures
            final(self).wf(),
            final(self).counter() == old(self).counter(),
            !old(self).panes().contains(id) ==> final(self).panes() == old(self).panes() && final(self).focus()
                == old(self).focus() && left == (old(self).panes().len() > 0),
            old(self).panes().contains(id) && old(self).panes().len() > 1 ==> exists|s: int, e: int|
                #[trigger] collapsed_layout(*old(self), *final(self), old(self).panes().index_of(id), s, e),
            old(self).panes().contains(id) ==> final(self).panes() == unmapped_panes(old(self).panes(), id) && left == (old(self).panes().len() > 1) && final(self).focus() == match old(self).focus() {
                Some(f) if f != id => Some(f),
                _ => if final(self).panes().len() > 0 {
                    Some(final(self).panes()[0])
                } else {
                    None
                },
            },
    {
        let ghost before = self.panes();
        let held = match &self.tree {
            Some(t) => holds_leaf(t, id),
            None => false,
        };
        if !held {
            return self.tree.is_some();
        }
        match self.focus {
            Some(f) => if f == id {
                self.focus = None;
            },
            None => {},
        }
        let mut tree = match self.tree.take() {
            Some(t) => t,
            None => {
                return false;
            },
        };
        let ghost old_tree = tree;
        match remove_leaf_of(&mut tree, id) {
            Removal::WasRoot => {
                proof {
                    assert(before =~= seq![id]);
                }
                false
            },
            _ => {
                let ghost after = tree_panes(tree);
                proof {
                    let i = choose|i: int|
                        0 <= i < before.len() && before[i] == id && #[trigger] tree_panes(tree) == before.remove(i);
                    assert(before[before.index_of(id)] == id);
                    assert(before.index_of(id) == i);
                    assert(before.len() >= 2) by {
                        if before.len() == 1 {
                            assert(before =~= seq![id]);
                        }
                    }
                    assert forall|k: int| 0 <= k < after.len() implies (#[trigger] after[k]).0 < self.next by {
                        if k < i {
                            assert(after[k] == before[k]);
                        } else {
                            assert(after[k] == before[k + 1]);
                        }
                    }
                    assert(after.no_duplicates()) by {
                        assert forall|a: int, b: int| 0 <= a < after.len() && 0 <= b < after.len() && a != b implies after[a]
                            != after[b] by {
                            let ba = if a < i { a } else { a + 1 };
                            let bb = if b < i { b } else { b + 1 };
                            assert(after[a] == before[ba]);
                            assert(after[b] == before[bb]);
                        }
                    }
                    match self.focus {
                        Some(f) => {
                            let k = choose|k: int| 0 <= k < before.len() && before[k] == f;
                            assert(k != i);
                            if k < i {
                                assert(after[k] == f);
                            } else {
                                assert(after[k - 1] == f);
                            }
                        },
                        None => {},
                    }
                }
                if self.focus.is_none() {
                    self.focus = first_leaf(&tree);
                }
                self.tree = Some(tree);
                proof {
                    let i = before.index_of(id);
                    let i2 = choose|i2: int|
                        0 <= i2 < before.len() && before[i2] == id && #[trigger] tree_panes(tree) == before.remove(i2)
                            && exists|s: int, e: int| #[trigger] collapses_in(old_tree, tree, i2, s, e);
                    assert(before[i] == id);
                    assert(i2 == i) by {
                        if i2 != i {
                            assert(before[i2] == before[i]);
                        }
                    }
                    let (s, e) = choose|s: int, e: int| #[trigger] collapses_in(old_tree, tree, i2, s, e);
                    assert(collapsed_layout(*old(self), *self, i, s, e));
                }
                true
            },
        }
    }

    /// The rectangles the tree assigns in `bounds`, window by window in the
    /// tree's order; nothing for an empty tree.
    pub fn arrange_ids(&self, bounds: TreeRect) -> (r: Vec<(WindowId, TreeRect)>)
        requires
            self.wf(),
            fits_cells(bounds),
        ensures
            r@ == self.rects(bounds),
            r@.len() == self.panes().len(),
            forall|i: int| 0 <= i < r@.len() ==> (#[trigger] r@[i]).0 == self.panes()[i],
            self.panes().len() > 0 ==> tiles(r@, bounds),
    {
        match &self.tree {
            Some(t) => rects_of(t, bounds),
            None => Vec::new(),
        }
    }

    /// Every window and the rectangle it should occupy in `bounds`, in
    /// pixels: the tree lays out the bounds clamped into its cells, and each
    /// parcel is inset by the gap. The clamped bounds must end within the
    /// cell range (see [`cells_fit`]).
    pub fn arrange(&self, bounds: Rect) -> (r: Vec<(WindowId, Rect)>)
        requires
            self.wf(),
            fits_cells(cells_of(bounds)),
        ensures
            r@.len() == self.panes().len(),
            forall|i: int| 0 <= i < r@.len() ==> (#[trigger] r@[i]).0 == self.panes()[i]
                && r@[i].1 == inset(self.rects(cells_of(bounds))[i].1),
            forall|i: int, j: int|
                #![trigger r@[i], r@[j]]
                0 <= i < j < r@.len() && roomy(self.rects(cells_of(bounds))[i].1) && roomy(
                    self.rects(cells_of(bounds))[j].1,
                ) ==> !overlap(r@[i].1, r@[j].1),
    {
        let b = TreeRect { x: to_cell(bounds.x), y: to_cell(bounds.y), w: to_cell(bounds.w), h: to_cell(bounds.h) };
        proof {
            assert(b == cells_of(bounds));
        }
        let cells = self.arrange_ids(b);
        let mut out: Vec<(WindowId, Rect)> = Vec::new();
        let mut i: usize = 0;
        while i < cells.len()
            invariant
                i <= cells@.len(),
                out@.len() == i,
                cells@ == self.rects(cells_of(bounds)),
                forall|k: int| 0 <= k < i ==> (#[trigger] out@[k]).0 == cells@[k].0 && out@[k].1 == inset(cells@[k].1),
            decreases cells@.len() - i,
        {
            let (id, c) = cells[i];
            let r = inset_by_gap(c.x, c.y, c.w, c.h);
            out.push((id, r));
            i = i + 1;
        }
        proof {
            let rs = self.rects(cells_of(bounds));
            assert forall|i: int, j: int|
                #![trigger out@[i], out@[j]]
                0 <= i < j < out@.len() && roomy(rs[i].1) && roomy(rs[j].1) implies !overlap(
                    out@[i].1,
                    out@[j].1,
                ) by {
                lemma_inset_inside(rs[i].1);
                lemma_inset_inside(rs[j].1);
                assert(cells_apart(rs[i].1, rs[j].1));
            }
        }
        out
    }

    /// Move focus to the window in `direction` from the focused one, within
    /// a screen the size of `bounds`; `None`, with focus where it was, when
    /// there is nothing that way, nothing focused or no tree.
    pub fn focus_direction(&mut self, direction: Direction, bounds: Rect) -> (r: Option<WindowId>)
        requires
            old(self).wf(),
        ensures
            final(self).wf(),
            final(self).panes() == old(self).panes(),
            final(self).counter() == old(self).counter(),
            r == old(self).neighbor(
                direction,
                TreeRect { x: 0, y: 0, w: clamp_cell(bounds.w as int) as u16, h: clamp_cell(bounds.h as int) as u16 },
            ),
            final(self).focus() == (if r is Some {
                r
            } else {
                old(self).focus()
            }),
    {
        let tree = match &self.tree {
            Some(t) => t,
            None => {
                return None;
            },
        };
        let from = match self.focus {
            Some(f) => f,
            None => {
                return None;
            },
        };
        let b = TreeRect { x: 0, y: 0, w: to_cell(bounds.w), h: to_cell(bounds.h) };
        let next = neighbor_of(tree, from, direction, b);
        match next {
            Some(n) => {
                self.focus = Some(n);
                Some(n)
            },
            None => None,
        }
    }

    /// Point focus at a window the tree holds; any other id changes nothing.
    pub fn focus_window(&mut self, id: WindowId)
        requires
            old(self).wf(),
        ensures
            final(self).wf(),
            final(self).panes() == old(self).panes(),
            final(self).counter() == old(self).counter(),
            final(self).focus() == (if old(self).panes().contains(id) {
                Some(id)
            } else {
                old(self).focus()
            }),
    {
        let held = match &self.tree {
            Some(t) => holds_leaf(t, id),
            None => false,
        };
        if held {
            self.focus = Some(id);
        }
    }

    /// The focused window, if any.
    pub fn focused(&self) -> (f: Option<WindowId>)
        ensures
            f == self.focus(),
    {
        self.focus
    }

    /// Whether the tree holds `id`.
    pub fn holds(&self, id: WindowId) -> (b: bool)
        ensures
            b == self.panes().contains(id),
    {
        match &self.tree {
            Some(t) => holds_leaf(t, id),
            None => false,
        }
    }

    /// How many windows the tree holds.
    pub fn len(&self) -> (n: usize)
        ensures
            n == self.panes().len(),
    {
        match &self.tree {
            Some(t) => leaf_count(t),
            None => 0,
        }
    }

    /// Whether the tree is empty.
    pub fn is_empty(&self) -> (b: bool)
        requires
            self.wf(),
        ensures
            b == (self.panes().len() == 0),
    {
        self.tree.is_none()
    }
}

} // verus!
