//! The **roster** the GUI and the campaign levels pick from, and the stateless controller that
//! runs the greedy policy for a seat.

use vstd::prelude::*;
use crate::faction::Faction;
use crate::greedy::{decide_greedy, greedy_upto, GreedyAction, GreedyParams};
use crate::position::PositionView;
use crate::simple::SimpleVersion;

verus! {

/// The menu of campaign opponents.
#[derive(Debug, Clone, Copy, PartialEq, Eq, Structural)]
pub enum Roster {
    /// Inert dummy: issues nothing.
    Passive,
    /// The greedy adapter — a balanced expand/defend baseline.
    GreedyLocal,
    /// The stateful, ledger-driven Simple colonizer.
    SimpleColonize {
        /// The frozen brain snapshot this level was balanced against.
        version: SimpleVersion,
    },
    /// The scripted "Command and Control" drillmaster.
    Cycler,
    /// The adjacency-restricted Simple: attack targets limited to within `range` of an owned
    /// sub.
    SimpleAdjacent {
        /// The adjacency reach, as a distance rank (the same order-preserving encoding as the
        /// board's distances).
        range: u64,
        /// The frozen brain snapshot this level was balanced against.
        version: SimpleVersion,
    },
}

impl Roster {
    /// Every fixed (parameterless) roster entry, in a stable display order.
    pub fn all() -> (r: [Roster; 4])
        ensures
            r@ == seq![
                Roster::Passive,
                Roster::GreedyLocal,
                Roster::SimpleColonize { version: SimpleVersion::V1 },
                Roster::Cycler,
            ],
    {
        let r = [
            Roster::Passive,
            Roster::GreedyLocal,
            Roster::SimpleColonize { version: SimpleVersion::V1 },
            Roster::Cycler,
        ];
        assert(r@ =~= seq![
            Roster::Passive,
            Roster::GreedyLocal,
            Roster::SimpleColonize { version: SimpleVersion::V1 },
            Roster::Cycler,
        ]);
        r
    }

    /// A short human-readable name for the entry.
    pub fn name(self) -> (r: &'static str)
        ensures
            r@ == match self {
                Roster::Passive => "Passive"@,
                Roster::GreedyLocal => "Greedy (local)"@,
                Roster::SimpleColonize { .. } => "Simple"@,
                Roster::Cycler => "Cycler"@,
                Roster::SimpleAdjacent { .. } => "Simple (adjacent)"@,
            },
    {
        match self {
            Roster::Passive => "Passive",
            Roster::GreedyLocal => "Greedy (local)",
            Roster::SimpleColonize { .. } => "Simple",
            Roster::Cycler => "Cycler",
            Roster::SimpleAdjacent { .. } => "Simple (adjacent)",
        }
    }

    /// A one-line description (identity and blind spot) for tooltips and level text.
    pub fn description(self) -> (r: &'static str)
        ensures
            r@ == match self {
                Roster::Passive => "Issues no orders — the inert dummy for Level 1's enemy seat."@,
                Roster::GreedyLocal => "Expands to the nearest takeable position and defends reactively; never posts a rear guard (its exploitable seam)."@,
                Roster::Cycler => "Drills its surplus between its subs, masses everything on an attacked one, and strikes all-in only with crushing force — after a visible muster."@,
                Roster::SimpleAdjacent { .. } => "The Simple colonizer, leashed to its neighbourhood: it only attacks positions adjacent to its own ground — it crawls outward and never strikes across the middle."@,
                Roster::SimpleColonize { .. } => "Sizes each capture wave to the target's total resistance and fills nearest-first; keeps only a garrison floor. Blind spot: the thin-rear seam."@,
            },
    {
        match self {
            Roster::Passive => "Issues no orders — the inert dummy for Level 1's enemy seat.",
            Roster::GreedyLocal => "Expands to the nearest takeable position and defends reactively; never posts a rear guard (its exploitable seam).",
            Roster::Cycler => "Drills its surplus between its subs, masses everything on an attacked one, and strikes all-in only with crushing force — after a visible muster.",
            Roster::SimpleAdjacent { .. } => "The Simple colonizer, leashed to its neighbourhood: it only attacks positions adjacent to its own ground — it crawls outward and never strikes across the middle.",
            Roster::SimpleColonize { .. } => "Sizes each capture wave to the target's total resistance and fills nearest-first; keeps only a garrison floor. Blind spot: the thin-rear seam.",
        }
    }
}

/// The stateless controller for one seat: the greedy policy over the board, or nothing for the
/// inert dummy.
#[derive(Debug, Clone, Copy, PartialEq, Eq, Structural)]
pub struct AiController {
    /// The seat this controller plays.
    pub seat: Faction,
    /// Whether the seat plays at all (`false` for the passive dummy).
    pub active: bool,
    /// Tunables of the greedy policy.
    pub greedy: GreedyParams,
}

impl AiController {
    /// A controller for `seat` from a roster entry: active unless the entry is the dummy, with
    /// the default greedy tunables.
    pub fn from_roster(seat: Faction, entry: Roster) -> (r: AiController)
        ensures
            r.seat == seat,
            r.active == !(entry is Passive),
            r.greedy.garrison_floor == 2,
            r.greedy.prefer_neutral_expand,
    {
        AiController {
            seat,
            active: !matches!(entry, Roster::Passive),
            greedy: GreedyParams::default(),
        }
    }

    /// This seat's greedy actions for one decision tick on `view`; nothing when the controller
    /// is inactive or the seat has neither a sub nor a ship to command (`has_presence`).
    pub fn decide(&self, view: &PositionView, has_presence: bool) -> (acts: Vec<GreedyAction>)
        requires
            view.wf(),
        ensures
            acts@ == if self.active && has_presence {
                greedy_upto(view, self.greedy, view.size() as int)
            } else {
                Seq::empty()
            },
    {
        if !self.active || !has_presence {
            return Vec::new();
        }
        decide_greedy(view, &self.greedy)
    }
}

} // verus!
