//! Which face the compositor is wearing: the greeter or the operator's
//! session.

use vstd::prelude::*;
use vstd::string::StringExecFns;
use crate::text::str_eq;

verus! {

/// Which face the compositor is wearing.
#[derive(Debug, Clone, Copy, PartialEq, Eq, Structural)]
pub enum SeatMode {
    /// The greeter; composites no clients.
    Entrance,
    /// The operator's desktop; the only mode that composites foreign clients.
    Session,
}

/// What `--mode` with value `s` means: a mode, or the refusal.
pub open spec fn mode_parse(s: Seq<char>) -> Result<SeatMode, Seq<char>> {
    if s == "entrance"@ {
        Ok(SeatMode::Entrance)
    } else if s == "session"@ {
        Ok(SeatMode::Session)
    } else if s == "lock"@ {
        Err("`lock` is not a launchable mode \u{2014} it is in-process session state (OMOYA.md \u{a7}4.2)"@)
    } else {
        Err("unknown mode `"@ + s + "` (entrance | session)"@)
    }
}

impl SeatMode {
    /// Parse the `--mode` argument. `lock` is refused with its reason: it is
    /// a state the session enters in-process, not a mode to launch into.
    pub fn parse(s: &str) -> (r: Result<SeatMode, String>)
        ensures
            match r {
                Ok(m) => mode_parse(s@) == Ok::<SeatMode, Seq<char>>(m),
                Err(e) => mode_parse(s@) == Err::<SeatMode, Seq<char>>(e@),
            },
    {
        proof {
            reveal_strlit("entrance");
            reveal_strlit("session");
            reveal_strlit("lock");
            assert("entrance"@.len() == 8);
            assert("session"@.len() == 7);
            assert("lock"@.len() == 4);
        }
        if str_eq(s, "entrance") {
            Ok(SeatMode::Entrance)
        } else if str_eq(s, "session") {
            Ok(SeatMode::Session)
        } else if str_eq(s, "lock") {
            Err(
                String::from_str(
                    "`lock` is not a launchable mode \u{2014} it is in-process session state (OMOYA.md \u{a7}4.2)",
                ),
            )
        } else {
            let mut e = String::from_str("unknown mode `");
            e.append(s);
            e.append("` (entrance | session)");
            Err(e)
        }
    }

    /// The mode's name.
    pub fn name(self) -> (n: &'static str)
        ensures
            n == match self {
                SeatMode::Entrance => "entrance",
                SeatMode::Session => "session",
            },
    {
        match self {
            SeatMode::Entrance => "entrance",
            SeatMode::Session => "session",
        }
    }
}

} // verus!
