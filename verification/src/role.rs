//! What kind of window this is, and therefore what may be done to it.
//!
//! A window has one role; a role has one policy; every site reads the policy
//! instead of re-deriving a predicate. Chrome geometry is gated by
//! [`Decorated`], a token obtainable only from a policy that permits
//! decoration.

use vstd::prelude::*;
use vstd::string::StringExecFns;
use crate::text::str_eq;

verus! {

/// Which apps float above the tiling, by exact `app_id`.
#[derive(Debug, Clone)]
pub struct PlacementConfig {
    pub floating_app_ids: Vec<String>,
}

impl Default for PlacementConfig {
    /// The launcher, `tobira`, and nothing else.
    fn default() -> (c: Self)
        ensures
            c.floating_app_ids@.len() == 1,
            c.floating_app_ids@[0]@ == "tobira"@,
    {
        let mut ids: Vec<String> = Vec::new();
        ids.push(String::from_str("tobira"));
        PlacementConfig { floating_app_ids: ids }
    }
}

/// The configured rule floats this `app_id`: it is listed, matched in full.
/// A window that has not sent an `app_id` yet tiles.
pub open spec fn floats_by_app_id_spec(app_id: Option<&str>, cfg: &PlacementConfig) -> bool {
    match app_id {
        Some(id) => exists|i: int|
            0 <= i < cfg.floating_app_ids@.len() && (#[trigger] cfg.floating_app_ids@[i])@ == id@,
        None => false,
    }
}

/// Whether the configured rule set floats this `app_id`.
pub fn floats_by_app_id(app_id: Option<&str>, cfg: &PlacementConfig) -> (b: bool)
    ensures
        b == floats_by_app_id_spec(app_id, cfg),
{
    let id = match app_id {
        Some(id) => id,
        None => {
            return false;
        },
    };
    let mut i: usize = 0;
    while i < cfg.floating_app_ids.len()
        invariant
            i <= cfg.floating_app_ids@.len(),
            app_id == Some(id),
            forall|j: int| 0 <= j < i ==> (#[trigger] cfg.floating_app_ids@[j])@ != id@,
        decreases cfg.floating_app_ids@.len() - i,
    {
        if str_eq(cfg.floating_app_ids[i].as_str(), id) {
            proof {
                assert((cfg.floating_app_ids@[i as int])@ == id@);
            }
            return true;
        }
        i = i + 1;
    }
    false
}

/// The kind of window.
#[derive(Debug, Clone, Copy, PartialEq, Eq, Structural)]
pub enum WindowRole {
    /// An ordinary application window: the operator owns its geometry.
    Managed,
    /// A transient panel the seat owns, like the launcher.
    Overlay,
}

/// What may be done to a window of a given role.
#[derive(Debug, Clone, Copy, PartialEq, Eq, Structural)]
pub struct RolePolicy {
    decorated: bool,
    /// May be dragged.
    pub movable: bool,
    /// May be resized.
    pub resizable: bool,
    /// May be snapped to a tile.
    pub snappable: bool,
    /// The compositor chooses its size.
    pub sized_by_compositor: bool,
    /// Placed in the centre of the usable zone every time it maps.
    pub centred: bool,
}

/// Proof that a window may be decorated; only [`RolePolicy::decorated`]
/// makes one.
#[derive(Debug, Clone, Copy)]
pub struct Decorated(());

impl RolePolicy {
    /// Gets a title bar and border. Closed because the field is private: decoration is handed out only as a [`Decorated`] proof; [`WindowRole::policy`] states it per role.
    pub closed spec fn gets_chrome(self) -> bool {
        self.decorated
    }

    /// May be dragged: the `movable` field.
    pub closed spec fn may_move(self) -> bool {
        self.movable
    }

    /// May be resized: the `resizable` field.
    pub closed spec fn may_resize(self) -> bool {
        self.resizable
    }

    /// May be snapped to a tile: the `snappable` field.
    pub closed spec fn may_snap(self) -> bool {
        self.snappable
    }

    /// The compositor chooses its size: the `sized_by_compositor` field.
    pub closed spec fn compositor_sizes(self) -> bool {
        self.sized_by_compositor
    }

    /// Placed in the centre of the usable zone: the `centred` field.
    pub closed spec fn centres(self) -> bool {
        self.centred
    }

    /// Proof of decoration, or `None` for a window that gets no chrome.
    pub fn decorated(self) -> (d: Option<Decorated>)
        ensures
            d is Some <==> self.gets_chrome(),
    {
        if self.decorated {
            Some(Decorated(()))
        } else {
            None
        }
    }

    /// Whether this window is decorated, for reporting.
    pub fn is_decorated(self) -> (b: bool)
        ensures
            b == self.gets_chrome(),
    {
        self.decorated
    }
}

impl WindowRole {
    /// The policy for this role: a managed window gets every freedom and an
    /// overlay none of them.
    pub fn policy(self) -> (p: RolePolicy)
        ensures
            match self {
                WindowRole::Managed => p.gets_chrome() && p.may_move() && p.may_resize()
                    && p.may_snap() && p.compositor_sizes() && !p.centres(),
                WindowRole::Overlay => !p.gets_chrome() && !p.may_move() && !p.may_resize()
                    && !p.may_snap() && !p.compositor_sizes() && p.centres(),
            },
    {
        match self {
            WindowRole::Managed => RolePolicy {
                decorated: true,
                movable: true,
                resizable: true,
                snappable: true,
                sized_by_compositor: true,
                centred: false,
            },
            WindowRole::Overlay => RolePolicy {
                decorated: false,
                movable: false,
                resizable: false,
                snappable: false,
                sized_by_compositor: false,
                centred: true,
            },
        }
    }

    /// The role of a window with this `app_id`: an overlay exactly when the
    /// placement rule floats it.
    pub fn of_app_id(app_id: Option<&str>, placement: &PlacementConfig) -> (r: WindowRole)
        ensures
            r == (if floats_by_app_id_spec(app_id, placement) {
                WindowRole::Overlay
            } else {
                WindowRole::Managed
            }),
    {
        if floats_by_app_id(app_id, placement) {
            WindowRole::Overlay
        } else {
            WindowRole::Managed
        }
    }
}

} // verus!
