//! The strategic (inter-structure) and tactical (intra-structure) policy menus.

use vstd::prelude::*;

verus! {

/// The strategic policy a seat runs each decision tick.
#[derive(Debug, Clone, Copy, PartialEq, Eq, Structural)]
pub enum StrategicPolicy {
    /// Issues nothing — the inert dummy.
    Passive,
    /// The greedy export rule lifted to the structure graph.
    GreedyLocal,
    /// The resistance-sized, nearest-first everyman colonizer.
    SimpleColonize,
    /// Marginal-value expansion.
    Colonize,
    /// Defense-first turtle, productive when there is no fight.
    Defend,
    /// Concentrate, then strike the soft, productive target.
    Attack,
    /// The direct hardcoded colonize recipe.
    HardcodedColonize,
    /// The direct hardcoded defend recipe.
    HardcodedDefend,
    /// The direct hardcoded attack recipe.
    HardcodedAttack,
    /// Colonize until a territory base is held, then attack.
    ColonizeThenAttack,
    /// Greedy, leaning on attack when nothing is left to expand to.
    Balanced,
}

/// Tick at which `ColonizeThenAttack` flips from colonizing to attacking if it has not already
/// secured a struct majority.
pub const COLONIZE_THEN_ATTACK_FLIP_TICK: u64 = 280;

impl StrategicPolicy {
    /// Whether this policy reads the forward projection: every policy except the two
    /// projection-free ones the live game fields (`Passive` and `GreedyLocal`).
    pub fn needs_projection(&self) -> (r: bool)
        ensures
            r == !(*self == StrategicPolicy::Passive || *self == StrategicPolicy::GreedyLocal),
    {
        !matches!(self, StrategicPolicy::Passive | StrategicPolicy::GreedyLocal)
    }

    /// A short human-readable name for the GUI/levels.
    pub fn name(&self) -> (r: &'static str)
        ensures
            r@ == match *self {
                StrategicPolicy::Passive => "Passive"@,
                StrategicPolicy::GreedyLocal => "GreedyLocal"@,
                StrategicPolicy::SimpleColonize => "SimpleColonize"@,
                StrategicPolicy::Colonize => "Colonize"@,
                StrategicPolicy::Defend => "Defend"@,
                StrategicPolicy::Attack => "Attack"@,
                StrategicPolicy::HardcodedColonize => "HardcodedColonize"@,
                StrategicPolicy::HardcodedDefend => "HardcodedDefend"@,
                StrategicPolicy::HardcodedAttack => "HardcodedAttack"@,
                StrategicPolicy::ColonizeThenAttack => "Colonize→Attack"@,
                StrategicPolicy::Balanced => "Balanced"@,
            },
    {
        match self {
            StrategicPolicy::Passive => "Passive",
            StrategicPolicy::GreedyLocal => "GreedyLocal",
            StrategicPolicy::SimpleColonize => "SimpleColonize",
            StrategicPolicy::Colonize => "Colonize",
            StrategicPolicy::Defend => "Defend",
            StrategicPolicy::Attack => "Attack",
            StrategicPolicy::HardcodedColonize => "HardcodedColonize",
            StrategicPolicy::HardcodedDefend => "HardcodedDefend",
            StrategicPolicy::HardcodedAttack => "HardcodedAttack",
            StrategicPolicy::ColonizeThenAttack => "Colonize→Attack",
            StrategicPolicy::Balanced => "Balanced",
        }
    }
}

/// The per-struct tactical policy: how each owned struct plays its internal sub-structures.
#[derive(Debug, Clone, Copy, PartialEq, Eq, Structural)]
pub enum TacticalPolicy {
    /// Each owned struct runs the greedy adapter.
    Greedy,
    /// Leave struct internals alone (named `None` in the GUI).
    Idle,
}

impl TacticalPolicy {
    /// A short human-readable name.
    pub fn name(&self) -> (r: &'static str)
        ensures
            r@ == match *self {
                TacticalPolicy::Greedy => "Greedy(local)"@,
                TacticalPolicy::Idle => "None"@,
            },
    {
        match self {
            TacticalPolicy::Greedy => "Greedy(local)",
            TacticalPolicy::Idle => "None",
        }
    }
}

} // verus!
