//! Why a frame is owed: the closed list of things that can dirty the screen.
//!
//! Adding a producer means adding a variant. Something that changes what is
//! on screen without marking a cause leaves the screen stale with nothing to
//! say so, so this list is the first thing to check when repainting stops.

use vstd::prelude::*;

verus! {

/// A reason the screen no longer matches what was last presented.
#[derive(Debug, Clone, Copy, PartialEq, Eq, Structural)]
pub enum Owed {
    /// A client committed a new buffer.
    Commit,
    /// The pointer moved.
    Pointer,
    /// A window appeared, vanished, or was re-tiled.
    Windows,
    /// A deed ran.
    Deed,
    /// The status bar's text changed.
    Chrome,
    /// A screenshot was requested.
    Capture,
    /// The session was resumed.
    Resume,
}

pub open spec fn owed_bit(c: Owed) -> u8 {
    match c {
        Owed::Commit => 0,
        Owed::Pointer => 1,
        Owed::Windows => 2,
        Owed::Deed => 3,
        Owed::Chrome => 4,
        Owed::Capture => 5,
        Owed::Resume => 6,
    }
}

impl Owed {
    /// The cause's bit in the owed set.
    pub fn bit(self) -> (b: u8)
        ensures
            b == owed_bit(self),
    {
        match self {
            Owed::Commit => 0,
            Owed::Pointer => 1,
            Owed::Windows => 2,
            Owed::Deed => 3,
            Owed::Chrome => 4,
            Owed::Capture => 5,
            Owed::Resume => 6,
        }
    }

    /// Every cause, in bit order.
    pub fn all() -> (v: Vec<Owed>)
        ensures
            v@.len() == 7,
            forall|i: int| 0 <= i < 7 ==> owed_bit(#[trigger] v@[i]) == i,
            forall|c: Owed| #[trigger] v@.contains(c),
    {
        let v = vec![
            Owed::Commit,
            Owed::Pointer,
            Owed::Windows,
            Owed::Deed,
            Owed::Chrome,
            Owed::Capture,
            Owed::Resume,
        ];
        proof {
            assert forall|c: Owed| #[trigger] v@.contains(c) by {
                let i = owed_bit(c) as int;
                assert(v@[i] == c);
            }
        }
        v
    }

    /// The name published for this cause.
    pub fn name(self) -> (n: &'static str)
        ensures
            n == match self {
                Owed::Commit => "commit",
                Owed::Pointer => "pointer",
                Owed::Windows => "windows",
                Owed::Deed => "deed",
                Owed::Chrome => "chrome",
                Owed::Capture => "capture",
                Owed::Resume => "resume",
            },
    {
        match self {
            Owed::Commit => "commit",
            Owed::Pointer => "pointer",
            Owed::Windows => "windows",
            Owed::Deed => "deed",
            Owed::Chrome => "chrome",
            Owed::Capture => "capture",
            Owed::Resume => "resume",
        }
    }
}

/// No two causes share a bit, so no two reasons merge into one.
pub proof fn lemma_bits_distinct(a: Owed, b: Owed)
    ensures
        owed_bit(a) == owed_bit(b) ==> a == b,
{
}

} // verus!
