//! Window ids that are actually unique.
//!
//! A surface's protocol id is per-client, so two clients' windows can share
//! one. A window's id is instead minted from a counter, once per surface:
//! monotonic, so a later window is never mistaken for an earlier one, and
//! starting at 1, so 0 stays free as the "could not resolve" answer.

use vstd::prelude::*;

verus! {

/// The counter window ids are minted from.
pub struct IdMint {
    next: u32,
}

impl View for IdMint {
    /// The id the next mint hands out.
    type V = u32;

    closed spec fn view(&self) -> u32 {
        self.next
    }
}

impl IdMint {
    #[verifier::type_invariant]
    spec fn above_zero(self) -> bool {
        self.next >= 1
    }

    /// A fresh counter; the first id it mints is 1.
    pub fn new() -> (m: Self)
        ensures
            m@ == 1,
    {
        IdMint { next: 1 }
    }

    /// The id the next mint will hand out; never 0.
    pub fn peek(&self) -> (n: u32)
        ensures
            n == self@,
            n >= 1,
    {
        proof {
            use_type_invariant(self);
        }
        self.next
    }

    /// Hand out a fresh id: the counter's value, which then advances, so
    /// successive ids strictly increase and none is 0.
    pub fn mint(&mut self) -> (id: u32)
        requires
            old(self)@ < u32::MAX,
        ensures
            id == old(self)@,
            id >= 1,
            final(self)@ == old(self)@ + 1,
    {
        proof {
            use_type_invariant(&*self);
        }
        let id = self.next;
        self.next = self.next + 1;
        id
    }
}

} // verus!
