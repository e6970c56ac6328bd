//! The seat session's decisions: what a change of the session's activity
//! means, which device pauses must be acknowledged, and which VT a switch
//! names. The bus calls that carry them are made by the caller.

use vstd::prelude::*;
use vstd::string::StringExecFns;
use crate::text::{str_eq, starts_with};

verus! {

/// What a change of the session's `Active` property means for the seat as a
/// whole.
#[derive(Debug, Clone, Copy, PartialEq, Eq, Structural)]
pub enum SessionChange {
    /// The session became active: resume drawing and input.
    Activate,
    /// The session went to the background.
    Pause,
}

/// The seat-level event for an `Active` property that went from
/// `was_active` to `now_active`: one only when it actually changed.
pub fn activity_change(was_active: bool, now_active: bool) -> (r: Option<SessionChange>)
    ensures
        r == (if was_active == now_active {
            None
        } else if now_active {
            Some(SessionChange::Activate)
        } else {
            Some(SessionChange::Pause)
        }),
{
    if was_active == now_active {
        None
    } else if now_active {
        Some(SessionChange::Activate)
    } else {
        Some(SessionChange::Pause)
    }
}

/// Whether a device pause of this kind must be acknowledged before the VT
/// switch can proceed: every kind but `gone`, a device already removed.
pub fn pause_needs_ack(kind: &str) -> (b: bool)
    ensures
        b <==> kind@ != "gone"@,
{
    !str_eq(kind, "gone")
}

/// The VT a switch request names: a negative number is VT 0.
pub fn vt_number(vt: i32) -> (n: u32)
    ensures
        n == (if vt < 0 {
            0
        } else {
            vt as int
        }),
{
    if vt < 0 {
        0
    } else {
        vt as u32
    }
}

/// A device node that is a DRM card: its name begins with `card`.
pub open spec fn is_card(name: Seq<char>) -> bool {
    name.len() >= 4 && name.take(4) == "card"@
}

/// The card nodes among `names`, in the order given.
pub open spec fn cards(names: Seq<Seq<char>>) -> Seq<Seq<char>>
    decreases names.len(),
{
    if names.len() == 0 {
        Seq::empty()
    } else {
        let rest = cards(names.drop_last());
        if is_card(names.last()) {
            rest.push(names.last())
        } else {
            rest
        }
    }
}

/// The DRM card nodes among the entries of the device directory: those
/// named `card…`, in the order given. The card number is an enumeration
/// order, not an identity, so every one is a candidate.
pub fn card_nodes(names: &[String]) -> (r: Vec<String>)
    ensures
        r@.map_values(|n: String| n@) == cards(names@.map_values(|n: String| n@)),
{
    let mut out: Vec<String> = Vec::new();
    let mut i: usize = 0;
    proof {
        reveal_strlit("card");
    }
    while i < names.len()
        invariant
            i <= names@.len(),
            out@.map_values(|n: String| n@) == cards(names@.map_values(|n: String| n@).take(i as int)),
        decreases names@.len() - i,
    {
        let ghost all = names@.map_values(|n: String| n@);
        proof {
            reveal_strlit("card");
            assert(all.take(i as int + 1).drop_last() =~= all.take(i as int));
            assert(all.take(i as int + 1).last() == names@[i as int]@);
        }
        if starts_with(names[i].as_str(), "card") {
            let n = names[i].clone();
            assert(n@ == names@[i as int]@);
            out.push(n);
            proof {
                assert(out@.map_values(|n: String| n@) =~= cards(all.take(i as int)).push(names@[i as int]@));
            }
        }
        i = i + 1;
    }
    proof {
        assert(names@.map_values(|n: String| n@).take(names@.len() as int) =~= names@.map_values(|n: String| n@));
    }
    out
}

} // verus!
