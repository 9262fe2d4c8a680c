//! The three roles a player can fill.

use vstd::prelude::*;

verus! {

/// A role on a team. Every team fields two players per role.
#[derive(Debug, Clone, Copy, PartialEq, Eq, Structural, Hash)]
pub enum Position {
    Tank,
    Damage,
    Support,
}

} // verus!
