//! Close, minimise, maximise and tabs, as state rather than chrome.
//!
//! This module owns the per-window state those controls manipulate and
//! decides one thing: [`Windows::placement_of`], where a window goes this pass
//! or whether it is hidden. Every operation takes and returns plain window
//! ids (a surface's protocol id), so the whole state machine is exercised
//! without a seat.

use vstd::prelude::*;
use std::collections::HashMap;

verus! {

broadcast use vstd::std_specs::hash::group_hash_axioms;

/// A window's own display state. Minimised and maximised at once has no
/// representation.
#[derive(Debug, Clone, Copy, PartialEq, Eq, Structural)]
pub enum Mode {
    /// Wherever the layout puts it.
    Normal,
    /// Filling the usable zone.
    Maximized,
    /// Alive, mapped to no rectangle, reachable only by restoring.
    Minimized,
}

impl Default for Mode {
    fn default() -> (m: Self)
        ensures
            m == Mode::Normal,
    {
        Mode::Normal
    }
}

/// Windows shown one at a time in a shared rectangle.
#[derive(Debug, Clone, PartialEq, Eq)]
pub struct Group {
    /// Members in tab order; at least two.
    pub members: Vec<u32>,
    /// Index into `members` of the visible one; always in range.
    pub active: usize,
}

/// Where a window should go this pass.
#[derive(Debug, Clone, Copy, PartialEq, Eq, Structural)]
pub enum Placement {
    /// Use whatever the layout computed.
    AsLaidOut,
    /// Fill the usable zone.
    Maximized,
    /// Map nothing: minimised, or an inactive tab.
    Hidden,
}

/// The state behind the controls: each window's mode, the tab groups as
/// `(members, active)`, and the minimise order, most recent last.
pub struct WindowsView {
    pub modes: Map<u32, Mode>,
    pub groups: Seq<(Seq<u32>, nat)>,
    pub minimized: Seq<u32>,
}

/// `s` with every occurrence of `id` taken out.
pub open spec fn without(s: Seq<u32>, id: u32) -> Seq<u32>
    decreases s.len(),
{
    if s.len() == 0 {
        s
    } else {
        let rest = without(s.drop_last(), id);
        if s.last() != id {
            rest.push(s.last())
        } else {
            rest
        }
    }
}

pub proof fn lemma_without(s: Seq<u32>, id: u32)
    ensures
        forall|x: u32| #[trigger] without(s, id).contains(x) <==> (s.contains(x) && x != id),
        without(s, id).len() <= s.len(),
        s.no_duplicates() ==> without(s, id).no_duplicates(),
        !s.contains(id) ==> without(s, id) == s,
    decreases s.len(),
{
    if s.len() > 0 {
        let d = s.drop_last();
        lemma_without(d, id);
        let r = without(d, id);
        assert forall|x: u32| #[trigger] without(s, id).contains(x) <==> (s.contains(x) && x != id) by {
            if s.contains(x) && x != id {
                let i = choose|i: int| 0 <= i < s.len() && s[i] == x;
                if i < d.len() {
                    assert(d[i] == x);
                    assert(d.contains(x));
                    assert(without(d, id).contains(x));
                    assert(r.contains(x));
                    if s.last() != id {
                        assert(r.push(s.last()).contains(x)) by {
                            let j = choose|j: int| 0 <= j < r.len() && r[j] == x;
                            assert(r.push(s.last())[j] == x);
                        }
                    }
                } else {
                    assert(r.push(s.last())[r.len() as int] == x);
                }
            }
            if without(s, id).contains(x) {
                if s.last() != id {
                    let j = choose|j: int| 0 <= j < r.len() + 1 && r.push(s.last())[j] == x;
                    if j < r.len() {
                        assert(r[j] == x);
                        assert(r.contains(x));
                        let i = choose|i: int| 0 <= i < d.len() && d[i] == x;
                        assert(s[i] == x);
                    } else {
                        assert(s[s.len() - 1] == x);
                    }
                } else {
                    let i = choose|i: int| 0 <= i < d.len() && d[i] == x;
                    assert(s[i] == x);
                }
            }
        }
        if s.no_duplicates() {
            assert(d.no_duplicates()) by {
                assert forall|i: int, j: int|
                    0 <= i < d.len() && 0 <= j < d.len() && i != j implies d[i] != d[j] by {
                    assert(s[i] == d[i] && s[j] == d[j]);
                }
            }
            if s.last() != id {
                assert(!r.contains(s.last())) by {
                    if d.contains(s.last()) {
                        let i = choose|i: int| 0 <= i < d.len() && d[i] == s.last();
                        assert(s[i] == s[s.len() - 1]);
                    }
                }
                let t = r.push(s.last());
                assert forall|i: int, j: int|
                    0 <= i < t.len() && 0 <= j < t.len() && i != j implies t[i] != t[j] by {
                    if i == r.len() {
                        assert(r.contains(t[j]));
                    } else if j == r.len() {
                        assert(r.contains(t[i]));
                    }
                }
            }
        }
        if !s.contains(id) {
            assert(!d.contains(id)) by {
                if d.contains(id) {
                    let i = choose|i: int| 0 <= i < d.len() && d[i] == id;
                    assert(s[i] == id);
                }
            }
            assert(s.last() != id) by {
                assert(s[s.len() - 1] == s.last());
            }
            assert(s =~= d.push(s.last()));
        }
    }
}

/// Groups are well formed: at least two distinct members each, the active
/// index in range, and no window in two groups.
pub open spec fn groups_wf(gs: Seq<(Seq<u32>, nat)>) -> bool {
    &&& forall|i: int|
        0 <= i < gs.len() ==> {
            let g = #[trigger] gs[i];
            g.0.len() >= 2 && g.1 < g.0.len() && g.0.no_duplicates()
        }
    &&& forall|i: int, j: int, x: u32|
        #![trigger gs[i].0.contains(x), gs[j].0.contains(x)]
        0 <= i < gs.len() && 0 <= j < gs.len() && i != j && gs[i].0.contains(x) ==> !gs[j].0.contains(x)
}

impl WindowsView {
    /// The state is consistent: well-formed groups, a minimise order with no
    /// repeats, and a window is queued for restore exactly when its mode is
    /// minimised.
    pub open spec fn wf(self) -> bool {
        &&& groups_wf(self.groups)
        &&& self.minimized.no_duplicates()
        &&& forall|id: u32| #[trigger] self.minimized.contains(id) <==> self.mode_of(id) == Mode::Minimized
    }

    pub open spec fn mode_of(self, id: u32) -> Mode {
        if self.modes.contains_key(id) {
            self.modes[id]
        } else {
            Mode::Normal
        }
    }

    pub open spec fn grouped(self, id: u32) -> bool {
        exists|i: int| 0 <= i < self.groups.len() && #[trigger] self.groups[i].0.contains(id)
    }

    /// The group holding `id` (meaningful when `grouped(id)`).
    pub open spec fn group_index(self, id: u32) -> int {
        choose|i: int| 0 <= i < self.groups.len() && #[trigger] self.groups[i].0.contains(id)
    }

    pub open spec fn placement(self, id: u32) -> Placement {
        if self.mode_of(id) == Mode::Minimized {
            Placement::Hidden
        } else if self.grouped(id) && self.groups[self.group_index(id)].0[self.groups[self.group_index(
            id,
        )].1 as int] != id {
            Placement::Hidden
        } else if self.mode_of(id) == Mode::Maximized {
            Placement::Maximized
        } else {
            Placement::AsLaidOut
        }
    }

    pub open spec fn set_mode(self, id: u32, m: Mode) -> WindowsView {
        WindowsView {
            modes: self.modes.insert(id, m),
            groups: self.groups,
            minimized: if m == Mode::Minimized {
                without(self.minimized, id).push(id)
            } else {
                without(self.minimized, id)
            },
        }
    }

    pub open spec fn toggled(self, id: u32) -> Mode {
        if self.mode_of(id) == Mode::Maximized {
            Mode::Normal
        } else {
            Mode::Maximized
        }
    }

    /// The state after restoring the most recently minimised window.
    pub open spec fn restored(self) -> WindowsView {
        if self.minimized.len() == 0 {
            self
        } else {
            WindowsView {
                modes: self.modes.insert(self.minimized.last(), Mode::Normal),
                groups: self.groups,
                minimized: self.minimized.drop_last(),
            }
        }
    }

    /// The groups after `id` leaves its group, which dissolves when fewer
    /// than two members remain; the active index is clamped into range.
    pub open spec fn left(self, id: u32) -> WindowsView {
        if !self.grouped(id) {
            self
        } else {
            let gi = self.group_index(id);
            let g = self.groups[gi];
            let m = without(g.0, id);
            WindowsView {
                modes: self.modes,
                groups: if m.len() < 2 {
                    self.groups.remove(gi)
                } else {
                    self.groups.update(
                        gi,
                        (
                            m,
                            if g.1 >= m.len() {
                                (m.len() - 1) as nat
                            } else {
                                g.1
                            },
                        ),
                    )
                },
                minimized: self.minimized,
            }
        }
    }

    /// The state after `id` joins `host`'s tab group, as its active member.
    pub open spec fn joined(self, id: u32, host: u32) -> WindowsView {
        if id == host {
            self
        } else {
            let l = self.left(id);
            if l.grouped(host) {
                let gi = l.group_index(host);
                let g = l.groups[gi];
                WindowsView {
                    modes: l.modes,
                    groups: l.groups.update(gi, (g.0.push(id), g.0.len())),
                    minimized: l.minimized,
                }
            } else {
                WindowsView {
                    modes: l.modes,
                    groups: l.groups.push((seq![host, id], 1nat)),
                    minimized: l.minimized,
                }
            }
        }
    }

    /// The active index of `id`'s group after cycling one step.
    pub open spec fn cycled_active(self, id: u32, forward: bool) -> nat {
        let g = self.groups[self.group_index(id)];
        let n = g.0.len() as int;
        let a = g.1 as int;
        if forward {
            ((a + 1) % n) as nat
        } else {
            ((a + n - 1) % n) as nat
        }
    }

    pub open spec fn forgotten(self, id: u32) -> WindowsView {
        let l = self.left(id);
        WindowsView {
            modes: l.modes.remove(id),
            groups: l.groups,
            minimized: without(l.minimized, id),
        }
    }
}

pub proof fn lemma_group_index(v: WindowsView, i: int, id: u32)
    requires
        groups_wf(v.groups),
        0 <= i < v.groups.len(),
        v.groups[i].0.contains(id),
    ensures
        v.grouped(id),
        v.group_index(id) == i,
{
    assert(v.groups[i].0.contains(id));
    let j = v.group_index(id);
    if j != i {
        assert(v.groups[j].0.contains(id));
    }
}

/// Leaving keeps the state consistent and leaves `id` in no group.
pub proof fn lemma_left(v: WindowsView, id: u32)
    requires
        v.wf(),
    ensures
        v.left(id).wf(),
        !v.left(id).grouped(id),
        v.left(id).modes == v.modes,
        v.left(id).minimized == v.minimized,
        forall|x: u32| #[trigger] v.left(id).grouped(x) ==> v.grouped(x),
{
    if v.grouped(id) {
        let gi = v.group_index(id);
        let g = v.groups[gi];
        let m = without(g.0, id);
        lemma_without(g.0, id);
        let l = v.left(id);
        assert(g.0.len() >= 2 && g.1 < g.0.len() && g.0.no_duplicates());
        if m.len() < 2 {
            let gs = v.groups.remove(gi);
            assert(l.groups == gs);
            assert forall|i: int| 0 <= i < gs.len() implies {
                let h = #[trigger] gs[i];
                h.0.len() >= 2 && h.1 < h.0.len() && h.0.no_duplicates()
            } by {
                let oi = if i < gi { i } else { i + 1 };
                assert(gs[i] == v.groups[oi]);
            }
            assert forall|i: int, j: int, x: u32|
                0 <= i < gs.len() && 0 <= j < gs.len() && i != j && #[trigger] gs[i].0.contains(x)
                implies !#[trigger] gs[j].0.contains(x) by {
                let oi = if i < gi { i } else { i + 1 };
                let oj = if j < gi { j } else { j + 1 };
                assert(gs[i] == v.groups[oi] && gs[j] == v.groups[oj]);
                assert(v.groups[oi].0.contains(x));
            }
            assert forall|x: u32| #[trigger] l.grouped(x) implies v.grouped(x) by {
                let i = choose|i: int| 0 <= i < gs.len() && #[trigger] gs[i].0.contains(x);
                let oi = if i < gi { i } else { i + 1 };
                assert(gs[i] == v.groups[oi]);
                assert(v.groups[oi].0.contains(x));
            }
            assert(!l.grouped(id)) by {
                if l.grouped(id) {
                    let i = choose|i: int| 0 <= i < gs.len() && #[trigger] gs[i].0.contains(id);
                    let oi = if i < gi { i } else { i + 1 };
                    assert(gs[i] == v.groups[oi]);
                    assert(v.groups[oi].0.contains(id));
                    assert(v.groups[gi].0.contains(id));
                }
            }
        } else {
            let na: nat = if g.1 >= m.len() { (m.len() - 1) as nat } else { g.1 };
            let gs = v.groups.update(gi, (m, na));
            assert(l.groups == gs);
            assert forall|i: int| 0 <= i < gs.len() implies {
                let h = #[trigger] gs[i];
                h.0.len() >= 2 && h.1 < h.0.len() && h.0.no_duplicates()
            } by {
                if i != gi {
                    assert(gs[i] == v.groups[i]);
                }
            }
            assert forall|i: int, j: int, x: u32|
                0 <= i < gs.len() && 0 <= j < gs.len() && i != j && #[trigger] gs[i].0.contains(x)
                implies !#[trigger] gs[j].0.contains(x) by {
                if i == gi {
                    assert(m.contains(x));
                    assert(g.0.contains(x));
                    assert(gs[j] == v.groups[j]);
                    assert(v.groups[gi].0.contains(x));
                } else if j == gi {
                    assert(gs[i] == v.groups[i]);
                    assert(v.groups[i].0.contains(x));
                    if m.contains(x) {
                        assert(v.groups[gi].0.contains(x));
                    }
                } else {
                    assert(gs[i] == v.groups[i] && gs[j] == v.groups[j]);
                    assert(v.groups[i].0.contains(x));
                }
            }
            assert forall|x: u32| #[trigger] l.grouped(x) implies v.grouped(x) by {
                let i = choose|i: int| 0 <= i < gs.len() && #[trigger] gs[i].0.contains(x);
                if i == gi {
                    assert(m.contains(x));
                    assert(v.groups[gi].0.contains(x));
                } else {
                    assert(gs[i] == v.groups[i]);
                    assert(v.groups[i].0.contains(x));
                }
            }
            assert(!l.grouped(id)) by {
                if l.grouped(id) {
                    let i = choose|i: int| 0 <= i < gs.len() && #[trigger] gs[i].0.contains(id);
                    if i == gi {
                        assert(m.contains(id));
                    } else {
                        assert(gs[i] == v.groups[i]);
                        assert(v.groups[i].0.contains(id));
                        assert(v.groups[gi].0.contains(id));
                    }
                }
            }
        }
    }
}

/// Joining keeps the state consistent.
pub proof fn lemma_joined(v: WindowsView, id: u32, host: u32)
    requires
        v.wf(),
    ensures
        v.joined(id, host).wf(),
{
    if id != host {
        lemma_left(v, id);
        let l = v.left(id);
        let j = v.joined(id, host);
        if l.grouped(host) {
            let gi = l.group_index(host);
            let g = l.groups[gi];
            let gs = l.groups.update(gi, (g.0.push(id), g.0.len()));
            assert(j.groups == gs);
            assert(!g.0.contains(id)) by {
                if g.0.contains(id) {
                    assert(l.groups[gi].0.contains(id));
                }
            }
            assert forall|i: int| 0 <= i < gs.len() implies {
                let h = #[trigger] gs[i];
                h.0.len() >= 2 && h.1 < h.0.len() && h.0.no_duplicates()
            } by {
                if i != gi {
                    assert(gs[i] == l.groups[i]);
                } else {
                    assert(g.0.len() >= 2 && g.0.no_duplicates());
                    let t = g.0.push(id);
                    assert forall|a: int, b: int|
                        0 <= a < t.len() && 0 <= b < t.len() && a != b implies t[a] != t[b] by {
                        if a == g.0.len() {
                            assert(t[b] == g.0[b]);
                        } else if b == g.0.len() {
                            assert(t[a] == g.0[a]);
                        }
                    }
                }
            }
            assert forall|i: int, k: int, x: u32|
                0 <= i < gs.len() && 0 <= k < gs.len() && i != k && #[trigger] gs[i].0.contains(x)
                implies !#[trigger] gs[k].0.contains(x) by {
                if i == gi {
                    assert(gs[k] == l.groups[k]);
                    if x == id {
                        if l.groups[k].0.contains(id) {
                            assert(l.grouped(id));
                        }
                    } else {
                        let a = choose|a: int| 0 <= a < g.0.len() + 1 && g.0.push(id)[a] == x;
                        assert(g.0[a] == x);
                        assert(l.groups[gi].0.contains(x));
                    }
                } else if k == gi {
                    assert(gs[i] == l.groups[i]);
                    if x == id {
                        assert(l.groups[i].0.contains(id));
                        assert(l.grouped(id));
                    } else if gs[k].0.contains(x) {
                        let a = choose|a: int| 0 <= a < g.0.len() + 1 && g.0.push(id)[a] == x;
                        assert(g.0[a] == x);
                        assert(l.groups[gi].0.contains(x));
                        assert(l.groups[i].0.contains(x));
                    }
                } else {
                    assert(gs[i] == l.groups[i] && gs[k] == l.groups[k]);
                    assert(l.groups[i].0.contains(x));
                }
            }
        } else {
            let ng: (Seq<u32>, nat) = (seq![host, id], 1nat);
            let gs = l.groups.push(ng);
            assert(j.groups == gs);
            let n = l.groups.len() as int;
            assert forall|i: int| 0 <= i < gs.len() implies {
                let h = #[trigger] gs[i];
                h.0.len() >= 2 && h.1 < h.0.len() && h.0.no_duplicates()
            } by {
                if i < n {
                    assert(gs[i] == l.groups[i]);
                }
            }
            assert forall|i: int, k: int, x: u32|
                0 <= i < gs.len() && 0 <= k < gs.len() && i != k && #[trigger] gs[i].0.contains(x)
                implies !#[trigger] gs[k].0.contains(x) by {
                if i == n {
                    assert(gs[k] == l.groups[k]);
                    assert(x == host || x == id) by {
                        let a = choose|a: int| 0 <= a < 2 && ng.0[a] == x;
                    }
                    if l.groups[k].0.contains(x) {
                        assert(l.grouped(x));
                    }
                } else if k == n {
                    assert(gs[i] == l.groups[i]);
                    assert(l.groups[i].0.contains(x));
                    assert(l.grouped(x));
                    if gs[k].0.contains(x) {
                        let a = choose|a: int| 0 <= a < 2 && ng.0[a] == x;
                        assert(x == host || x == id);
                    }
                } else {
                    assert(gs[i] == l.groups[i] && gs[k] == l.groups[k]);
                    assert(l.groups[i].0.contains(x));
                }
            }
        }
    }
}

/// Joining moves a window between groups rather than copying it: joining a
/// window to itself changes nothing; otherwise the window ends up in exactly
/// one group, the one holding the host (a new pair of the two when the host
/// had none once the window left its old group), as its last and active
/// member, and the modes and the minimise order are untouched.
pub proof fn lemma_join_moves_the_window(v: WindowsView, id: u32, host: u32)
    requires
        v.wf(),
    ensures
        id == host ==> v.joined(id, host) == v,
        id != host ==> {
            let j = v.joined(id, host);
            let g = j.groups[j.group_index(id)];
            &&& j.grouped(id)
            &&& forall|i: int|
                0 <= i < j.groups.len() && #[trigger] j.groups[i].0.contains(id) ==> i == j.group_index(
                    id,
                )
            &&& g.0.contains(host)
            &&& g.0.last() == id
            &&& g.1 + 1 == g.0.len()
            &&& !v.left(id).grouped(host) ==> g.0 == seq![host, id]
            &&& j.modes == v.modes
            &&& j.minimized == v.minimized
        },
{
    if id != host {
        lemma_left(v, id);
        lemma_joined(v, id, host);
        let l = v.left(id);
        let j = v.joined(id, host);
        let gi = if l.grouped(host) {
            l.group_index(host)
        } else {
            l.groups.len() as int
        };
        if l.grouped(host) {
            let g = l.groups[gi];
            assert(j.groups[gi] == (g.0.push(id), g.0.len()));
            assert(g.0.contains(host));
            let a = choose|a: int| 0 <= a < g.0.len() && g.0[a] == host;
            assert(j.groups[gi].0[a] == host);
        } else {
            assert(j.groups[gi] == (seq![host, id], 1nat));
            assert(j.groups[gi].0[0] == host);
        }
        assert(j.groups[gi].0[j.groups[gi].0.len() - 1] == id);
        assert(j.groups[gi].0.contains(id));
        lemma_group_index(j, gi, id);
        assert forall|i: int|
            0 <= i < j.groups.len() && #[trigger] j.groups[i].0.contains(id) implies i
            == j.group_index(id) by {
            if i != gi {
                assert(j.groups[gi].0.contains(id));
            }
        }
    }
}

/// Setting a mode keeps the minimise queue in step with the modes.
pub proof fn lemma_set_mode(v: WindowsView, id: u32, m: Mode)
    requires
        v.wf(),
    ensures
        v.set_mode(id, m).wf(),
{
    lemma_without(v.minimized, id);
    let n = v.set_mode(id, m);
    let w = without(v.minimized, id);
    if m == Mode::Minimized {
        let t = w.push(id);
        assert forall|a: int, b: int| 0 <= a < t.len() && 0 <= b < t.len() && a != b implies t[a]
            != t[b] by {
            if a == w.len() {
                assert(w.contains(t[b]));
            } else if b == w.len() {
                assert(w.contains(t[a]));
            }
        }
        assert forall|x: u32| #[trigger] n.minimized.contains(x) <==> n.mode_of(x) == Mode::Minimized by {
            if x == id {
                assert(t[w.len() as int] == id);
            } else {
                assert(v.minimized.contains(x) <==> v.mode_of(x) == Mode::Minimized);
                if t.contains(x) {
                    let a = choose|a: int| 0 <= a < t.len() && t[a] == x;
                    assert(w[a] == x);
                    assert(w.contains(x));
                }
                if w.contains(x) {
                    let a = choose|a: int| 0 <= a < w.len() && w[a] == x;
                    assert(t[a] == x);
                }
            }
        }
    } else {
        assert forall|x: u32| #[trigger] n.minimized.contains(x) <==> n.mode_of(x) == Mode::Minimized by {
            assert(v.minimized.contains(x) <==> v.mode_of(x) == Mode::Minimized);
        }
    }
}

pub proof fn lemma_restored(v: WindowsView)
    requires
        v.wf(),
    ensures
        v.restored().wf(),
{
    if v.minimized.len() > 0 {
        let n = v.restored();
        let d = v.minimized.drop_last();
        let last = v.minimized.last();
        assert forall|x: u32| #[trigger] n.minimized.contains(x) <==> n.mode_of(x) == Mode::Minimized by {
            assert(v.minimized.contains(x) <==> v.mode_of(x) == Mode::Minimized);
            if d.contains(x) {
                let a = choose|a: int| 0 <= a < d.len() && d[a] == x;
                assert(v.minimized[a] == x);
                if x == last {
                    assert(v.minimized[v.minimized.len() - 1] == x);
                }
            }
            if x != last && v.minimized.contains(x) {
                let a = choose|a: int| 0 <= a < v.minimized.len() && v.minimized[a] == x;
                assert(a != v.minimized.len() - 1);
                assert(d[a] == x);
            }
        }
        assert forall|a: int, b: int| 0 <= a < d.len() && 0 <= b < d.len() && a != b implies d[a]
            != d[b] by {
            assert(d[a] == v.minimized[a] && d[b] == v.minimized[b]);
        }
    }
}

pub proof fn lemma_forgotten(v: WindowsView, id: u32)
    requires
        v.wf(),
    ensures
        v.forgotten(id).wf(),
        !v.forgotten(id).grouped(id),
        v.forgotten(id).mode_of(id) == Mode::Normal,
        !v.forgotten(id).minimized.contains(id),
{
    lemma_left(v, id);
    let l = v.left(id);
    lemma_without(l.minimized, id);
    let n = v.forgotten(id);
    assert forall|x: u32| #[trigger] n.minimized.contains(x) <==> n.mode_of(x) == Mode::Minimized by {
        assert(l.minimized.contains(x) <==> l.mode_of(x) == Mode::Minimized);
    }
}

/// Restoring is last-in, first-out: minimising a visible window and then
/// restoring gives that same window back, as a normal window, leaves every
/// other window's mode as it was, and leaves the restore queue as it stood
/// before.
pub proof fn lemma_restore_is_lifo(v: WindowsView, id: u32)
    requires
        v.wf(),
        v.mode_of(id) != Mode::Minimized,
    ensures
        v.set_mode(id, Mode::Minimized).minimized.last() == id,
        v.set_mode(id, Mode::Minimized).restored().mode_of(id) == Mode::Normal,
        v.set_mode(id, Mode::Minimized).restored().minimized == v.minimized,
        v.set_mode(id, Mode::Minimized).restored().groups == v.groups,
        forall|x: u32| x != id ==> #[trigger] v.set_mode(id, Mode::Minimized).restored().mode_of(x) == v.mode_of(x),
{
    lemma_without(v.minimized, id);
    assert(!v.minimized.contains(id));
    let m = v.set_mode(id, Mode::Minimized);
    assert(m.minimized == v.minimized.push(id));
    assert(m.minimized.drop_last() =~= v.minimized);
}

/// Minimising an already minimised window changes nothing: the restore
/// queue never holds a window twice.
pub proof fn lemma_minimize_twice_is_once(v: WindowsView, id: u32)
    ensures
        v.set_mode(id, Mode::Minimized).set_mode(id, Mode::Minimized) == v.set_mode(id, Mode::Minimized),
{
    let w = without(v.minimized, id);
    lemma_without(v.minimized, id);
    lemma_without(w, id);
    assert(w.push(id).drop_last() =~= w);
    assert(without(w.push(id), id) == without(w, id));
    assert(v.modes.insert(id, Mode::Minimized).insert(id, Mode::Minimized) =~= v.modes.insert(id, Mode::Minimized));
}

/// Taking `id` out of a list with no repeats shortens it by one exactly when
/// the list held it.
proof fn lemma_without_len(s: Seq<u32>, id: u32)
    requires
        s.no_duplicates(),
    ensures
        without(s, id).len() == s.len() - if s.contains(id) {
            1int
        } else {
            0int
        },
    decreases s.len(),
{
    if s.len() > 0 {
        let d = s.drop_last();
        let l = s.last();
        assert(d.no_duplicates()) by {
            assert forall|a: int, b: int| 0 <= a < d.len() && 0 <= b < d.len() && a != b implies d[a]
                != d[b] by {
                assert(d[a] == s[a] && d[b] == s[b]);
            }
        }
        lemma_without_len(d, id);
        if l == id {
            assert(!d.contains(id)) by {
                if d.contains(id) {
                    let a = choose|a: int| 0 <= a < d.len() && d[a] == id;
                    assert(s[a] == s[s.len() - 1]);
                }
            }
            lemma_without(d, id);
            assert(s.contains(id)) by {
                assert(s[s.len() - 1] == id);
            }
        } else {
            assert(d.contains(id) <==> s.contains(id)) by {
                if s.contains(id) {
                    let a = choose|a: int| 0 <= a < s.len() && s[a] == id;
                    assert(a < d.len());
                    assert(d[a] == id);
                }
                if d.contains(id) {
                    let a = choose|a: int| 0 <= a < d.len() && d[a] == id;
                    assert(s[a] == id);
                }
            }
        }
    }
}

/// Maximising a window, or toggling it back, leaves it visible: its mode
/// is the toggled one, it leaves the restore order, which shrinks by one
/// exactly when it was minimised, and every other window's mode and every
/// group stay as they were.
pub proof fn lemma_toggle_maximize_unminimizes(v: WindowsView, id: u32)
    requires
        v.wf(),
    ensures
        v.set_mode(id, v.toggled(id)).mode_of(id) == v.toggled(id),
        v.toggled(id) != Mode::Minimized,
        !v.set_mode(id, v.toggled(id)).minimized.contains(id),
        v.set_mode(id, v.toggled(id)).minimized.len() == v.minimized.len() - if v.mode_of(id)
            == Mode::Minimized {
            1int
        } else {
            0int
        },
        forall|x: u32| x != id ==> #[trigger] v.set_mode(id, v.toggled(id)).mode_of(x) == v.mode_of(x),
        v.set_mode(id, v.toggled(id)).groups == v.groups,
{
    lemma_without(v.minimized, id);
    lemma_without_len(v.minimized, id);
    assert(v.minimized.contains(id) <==> v.mode_of(id) == Mode::Minimized);
}

/// A tab group shows exactly one member: of a group's members, the only one
/// not hidden is its active member, and that one only while it is not
/// minimised.
pub proof fn lemma_group_shows_one(v: WindowsView, gi: int, j: int)
    requires
        v.wf(),
        0 <= gi < v.groups.len(),
        0 <= j < v.groups[gi].0.len(),
    ensures
        (v.placement(v.groups[gi].0[j]) != Placement::Hidden) <==> (j == v.groups[gi].1 && v.mode_of(
            v.groups[gi].0[j],
        ) != Mode::Minimized),
{
    let g = v.groups[gi];
    let x = g.0[j];
    assert(g.0.contains(x));
    lemma_group_index(v, gi, x);
    if j != g.1 {
        assert(g.0[g.1 as int] != x);
    }
}

/// The per-window state behind the four controls.
pub struct Windows {
    mode: HashMap<u32, Mode>,
    groups: Vec<Group>,
    minimized_order: Vec<u32>,
}

impl View for Windows {
    type V = WindowsView;

    closed spec fn view(&self) -> WindowsView {
        WindowsView {
            modes: self.mode@,
            groups: self.groups@.map_values(|g: Group| (g.members@, g.active as nat)),
            minimized: self.minimized_order@,
        }
    }
}


fn vec_has(v: &Vec<u32>, id: u32) -> (r: bool)
    ensures
        r <==> v@.contains(id),
{
    match vec_position(v, id) {
        Some(_) => true,
        None => false,
    }
}

fn vec_position(v: &Vec<u32>, id: u32) -> (r: Option<usize>)
    ensures
        match r {
            Some(i) => i < v@.len() && v@[i as int] == id,
            None => !v@.contains(id),
        },
{
    let mut i: usize = 0;
    while i < v.len()
        invariant
            i <= v@.len(),
            forall|j: int| 0 <= j < i ==> v@[j] != id,
        decreases v@.len() - i,
    {
        if v[i] == id {
            return Some(i);
        }
        i = i + 1;
    }
    None
}

fn vec_without(v: &Vec<u32>, id: u32) -> (r: Vec<u32>)
    ensures
        r@ == without(v@, id),
{
    let mut r: Vec<u32> = Vec::new();
    let mut i: usize = 0;
    while i < v.len()
        invariant
            i <= v@.len(),
            r@ == without(v@.take(i as int), id),
        decreases v@.len() - i,
    {
        proof {
            assert(v@.take(i as int + 1).drop_last() =~= v@.take(i as int));
            assert(v@.take(i as int + 1).last() == v@[i as int]);
        }
        if v[i] != id {
            r.push(v[i]);
        }
        i = i + 1;
    }
    proof {
        assert(v@.take(i as int) =~= v@);
    }
    r
}

impl Windows {
    pub open spec fn wf(&self) -> bool {
        self@.wf()
    }

    /// No window known: every window is normal and ungrouped.
    pub fn new() -> (w: Self)
        ensures
            w.wf(),
            w@.modes == Map::<u32, Mode>::empty(),
            w@.groups == Seq::<(Seq<u32>, nat)>::empty(),
            w@.minimized == Seq::<u32>::empty(),
    {
        let w = Windows { mode: HashMap::new(), groups: Vec::new(), minimized_order: Vec::new() };
        proof {
            assert(w@.groups =~= Seq::<(Seq<u32>, nat)>::empty());
        }
        w
    }

    /// Where `id` goes this pass: minimised beats tab-inactive beats
    /// maximised.
    pub fn placement_of(&self, id: u32) -> (p: Placement)
        requires
            self.wf(),
        ensures
            p == self@.placement(id),
    {
        if self.mode_of(id) == Mode::Minimized {
            return Placement::Hidden;
        }
        match self.group_index_of(id) {
            Some(gi) => {
                let g = &self.groups[gi];
                proof {
                    assert(self@.groups[gi as int] == (g.members@, g.active as nat));
                }
                if g.active < g.members.len() && g.members[g.active] != id {
                    return Placement::Hidden;
                }
            },
            None => {},
        }
        if self.mode_of(id) == Mode::Maximized {
            return Placement::Maximized;
        }
        Placement::AsLaidOut
    }

    /// The mode of `id`; a window never set is `Normal`.
    pub fn mode_of(&self, id: u32) -> (m: Mode)
        ensures
            m == self@.mode_of(id),
    {
        match self.mode.get(&id) {
            Some(m) => *m,
            None => Mode::Normal,
        }
    }

    /// Maximise or restore. Returns the mode now in force; a minimised
    /// window maximises to visible.
    pub fn toggle_maximize(&mut self, id: u32) -> (m: Mode)
        requires
            old(self).wf(),
        ensures
            m == old(self)@.toggled(id),
            final(self)@ == old(self)@.set_mode(id, m),
            final(self).wf(),
    {
        let next = if self.mode_of(id) == Mode::Maximized {
            Mode::Normal
        } else {
            Mode::Maximized
        };
        self.set_mode(id, next);
        next
    }

    /// Hide a window without closing it.
    pub fn minimize(&mut self, id: u32)
        requires
            old(self).wf(),
        ensures
            final(self)@ == old(self)@.set_mode(id, Mode::Minimized),
            final(self).wf(),
    {
        self.set_mode(id, Mode::Minimized);
    }

    /// Un-minimise the most recently minimised window, if any, and return it.
    pub fn restore_last(&mut self) -> (r: Option<u32>)
        requires
            old(self).wf(),
        ensures
            r == if old(self)@.minimized.len() == 0 {
                None
            } else {
                Some(old(self)@.minimized.last())
            },
            final(self)@ == old(self)@.restored(),
            final(self).wf(),
    {
        let ghost v = self@;
        match self.minimized_order.pop() {
            None => {
                proof {
                    lemma_restored(v);
                }
                None
            },
            Some(id) => {
                self.mode.insert(id, Mode::Normal);
                proof {
                    assert(self@.groups =~= v.groups);
                    assert(self@.minimized =~= v.minimized.drop_last());
                    lemma_restored(v);
                }
                Some(id)
            },
        }
    }

    fn set_mode(&mut self, id: u32, next: Mode)
        requires
            old(self).wf(),
        ensures
            final(self)@ == old(self)@.set_mode(id, next),
            final(self).wf(),
    {
        let ghost v = self@;
        let mut order = vec_without(&self.minimized_order, id);
        if next == Mode::Minimized {
            order.push(id);
        }
        self.minimized_order = order;
        self.mode.insert(id, next);
        proof {
            assert(self@.groups =~= v.groups);
            lemma_set_mode(v, id, next);
        }
    }

    /// Put `id` into `host`'s group, creating one if `host` has none; the
    /// joiner becomes the active member.
    pub fn join(&mut self, id: u32, host: u32)
        requires
            old(self).wf(),
        ensures
            final(self)@ == old(self)@.joined(id, host),
            final(self).wf(),
    {
        let ghost v = self@;
        if id == host {
            return;
        }
        self.leave(id);
        let ghost l = self@;
        proof {
            lemma_left(v, id);
            lemma_joined(v, id, host);
        }
        match self.group_index_of(host) {
            Some(gi) => {
                let mut g = self.groups.remove(gi);
                g.members.push(id);
                g.active = g.members.len() - 1;
                self.groups.insert(gi, g);
                proof {
                    assert(self@.groups =~= l.groups.update(
                        gi as int,
                        (l.groups[gi as int].0.push(id), l.groups[gi as int].0.len()),
                    ));
                }
            },
            None => {
                let mut members: Vec<u32> = Vec::new();
                members.push(host);
                members.push(id);
                self.groups.push(Group { members, active: 1 });
                proof {
                    assert(members@ =~= seq![host, id]);
                    assert(self@.groups =~= l.groups.push((seq![host, id], 1nat)));
                }
            },
        }
    }

    /// Remove `id` from any group, dissolving a group that drops below two.
    pub fn leave(&mut self, id: u32)
        requires
            old(self).wf(),
        ensures
            final(self)@ == old(self)@.left(id),
            final(self).wf(),
    {
        let ghost v = self@;
        proof {
            lemma_left(v, id);
        }
        let gi = match self.group_index_of(id) {
            Some(gi) => gi,
            None => {
                return;
            },
        };
        let mut g = self.groups.remove(gi);
        let members = vec_without(&g.members, id);
        if members.len() < 2 {
            proof {
                assert(self@.groups =~= v.groups.remove(gi as int));
            }
        } else {
            let n = members.len();
            g.members = members;
            if g.active >= n {
                g.active = n - 1;
            }
            self.groups.insert(gi, g);
            proof {
                assert(self@.groups =~= v.left(id).groups);
            }
        }
    }

    /// Show the next (or previous) member of `id`'s group, wrapping both
    /// ways. Returns the newly visible window, or `None` when `id` is not
    /// grouped.
    pub fn cycle(&mut self, id: u32, forward: bool) -> (r: Option<u32>)
        requires
            old(self).wf(),
        ensures
            final(self).wf(),
            !old(self)@.grouped(id) ==> r is None && final(self)@ == old(self)@,
            old(self)@.grouped(id) ==> {
                let gi = old(self)@.group_index(id);
                let g = old(self)@.groups[gi];
                let a = old(self)@.cycled_active(id, forward);
                &&& final(self)@.groups == old(self)@.groups.update(gi, (g.0, a))
                &&& final(self)@.modes == old(self)@.modes
                &&& final(self)@.minimized == old(self)@.minimized
                &&& r == Some(g.0[a as int])
            },
    {
        let ghost v = self@;
        let gi = match self.group_index_of(id) {
            Some(gi) => gi,
            None => {
                return None;
            },
        };
        let mut g = self.groups.remove(gi);
        let n = g.members.len();
        proof {
            assert(v.groups[gi as int] == (g.members@, g.active as nat));
            assert(n >= 2 && g.active < n);
        }
        proof {
            let a = g.active as int;
            let ni = n as int;
            if a == 0 {
                vstd::arithmetic::div_mod::lemma_small_mod((ni - 1) as nat, ni as nat);
            } else {
                vstd::arithmetic::div_mod::lemma_mod_add_multiples_vanish(a - 1, ni);
                vstd::arithmetic::div_mod::lemma_small_mod((a - 1) as nat, ni as nat);
            }
            assert((a + ni - 1) % ni == if a == 0 { ni - 1 } else { a - 1 });
        }
        g.active = if forward {
            (g.active + 1) % n
        } else if g.active == 0 {
            n - 1
        } else {
            g.active - 1
        };
        let shown = g.members[g.active];
        self.groups.insert(gi, g);
        proof {
            let a = v.cycled_active(id, forward);
            assert(g.active == a);
            assert(self@.groups =~= v.groups.update(gi as int, (v.groups[gi as int].0, a)));
            let ng = self@.groups;
            assert forall|i: int| 0 <= i < ng.len() implies {
                let h = #[trigger] ng[i];
                h.0.len() >= 2 && h.1 < h.0.len() && h.0.no_duplicates()
            } by {
                if i != gi {
                    assert(ng[i] == v.groups[i]);
                }
            }
            assert forall|i: int, j: int, x: u32|
                0 <= i < ng.len() && 0 <= j < ng.len() && i != j && #[trigger] ng[i].0.contains(x)
                implies !#[trigger] ng[j].0.contains(x) by {
                assert(ng[i].0 == v.groups[i].0 && ng[j].0 == v.groups[j].0);
                assert(v.groups[i].0.contains(x));
            }
        }
        Some(shown)
    }

    /// The group holding `id`, if any.
    pub fn group_of(&self, id: u32) -> (r: Option<&Group>)
        requires
            self.wf(),
        ensures
            match r {
                Some(g) => self@.grouped(id) && (g.members@, g.active as nat) == self@.groups[self@.group_index(id)],
                None => !self@.grouped(id),
            },
    {
        match self.group_index_of(id) {
            Some(i) => Some(&self.groups[i]),
            None => None,
        }
    }

    fn group_index_of(&self, id: u32) -> (r: Option<usize>)
        requires
            self.wf(),
        ensures
            match r {
                Some(i) => self@.grouped(id) && i == self@.group_index(id) && i < self.groups@.len(),
                None => !self@.grouped(id),
            },
    {
        let mut i: usize = 0;
        while i < self.groups.len()
            invariant
                i <= self.groups@.len(),
                self.wf(),
                forall|j: int| 0 <= j < i ==> !(#[trigger] self@.groups[j]).0.contains(id),
            decreases self.groups@.len() - i,
        {
            proof {
                assert(self@.groups[i as int] == (self.groups@[i as int].members@, self.groups@[i as int].active as nat));
            }
            if vec_has(&self.groups[i].members, id) {
                proof {
                    lemma_group_index(self@, i as int, id);
                }
                return Some(i);
            }
            i = i + 1;
        }
        proof {
            if self@.grouped(id) {
                let j = choose|j: int| 0 <= j < self@.groups.len() && #[trigger] self@.groups[j].0.contains(id);
            }
        }
        None
    }

    /// `id`'s 0-based position in its group, and the group's size.
    pub fn position_in_group(&self, id: u32) -> (r: Option<(usize, usize)>)
        requires
            self.wf(),
        ensures
            match r {
                Some((i, n)) => {
                    let g = self@.groups[self@.group_index(id)];
                    &&& self@.grouped(id)
                    &&& n == g.0.len()
                    &&& i < n
                    &&& g.0[i as int] == id
                },
                None => !self@.grouped(id),
            },
    {
        let gi = match self.group_index_of(id) {
            Some(gi) => gi,
            None => {
                return None;
            },
        };
        let g = &self.groups[gi];
        proof {
            assert(self@.groups[gi as int] == (g.members@, g.active as nat));
        }
        match vec_position(&g.members, id) {
            Some(idx) => Some((idx, g.members.len())),
            None => None,
        }
    }

    /// Forget a window entirely, when it is closed: its group membership,
    /// its mode and its place in the restore queue.
    pub fn forget(&mut self, id: u32)
        requires
            old(self).wf(),
        ensures
            final(self)@ == old(self)@.forgotten(id),
            final(self).wf(),
    {
        let ghost v = self@;
        self.leave(id);
        let ghost l = self@;
        self.mode.remove(&id);
        let order = vec_without(&self.minimized_order, id);
        self.minimized_order = order;
        proof {
            assert(self@.groups =~= l.groups);
            assert(self@.modes =~= l.modes.remove(id));
            lemma_forgotten(v, id);
        }
    }

    /// How many windows are minimised.
    pub fn minimized_count(&self) -> (n: usize)
        ensures
            n == self@.minimized.len(),
    {
        self.minimized_order.len()
    }

    /// Every group, in order.
    pub fn groups(&self) -> (g: &[Group])
        ensures
            g@.map_values(|h: Group| (h.members@, h.active as nat)) == self@.groups,
    {
        self.groups.as_slice()
    }
}

impl Default for Windows {
    fn default() -> (w: Self)
        ensures
            w.wf(),
            w@.modes == Map::<u32, Mode>::empty(),
            w@.groups == Seq::<(Seq<u32>, nat)>::empty(),
            w@.minimized == Seq::<u32>::empty(),
    {
        Windows::new()
    }
}

} // verus!
