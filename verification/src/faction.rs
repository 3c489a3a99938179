//! The seats of a match.

use vstd::prelude::*;

verus! {

/// A seat: the neutral non-player, the human player, or one of the AI seats.
#[derive(Debug, Clone, Copy, PartialEq, Eq, Structural)]
pub enum Faction {
    /// Nobody's (unowned ground).
    Neutral,
    /// The human player.
    Player,
    /// AI seat `i`.
    Ai(u32),
}

} // verus!
