//! The observation vocabulary: what a watched seat did (a move *kind* and committed *band*) in
//! which coarse *situation*, recorded as a flat, append-only log of samples.

use vstd::prelude::*;
use crate::faction::Faction;
use crate::position::{PosOwner, PositionView, Side};
use crate::greedy::count_owned;

verus! {

/// The kind of move a watched seat made, abstracted away from node ids.
#[derive(Debug, Clone, Copy, PartialEq, Eq, Hash, Structural)]
pub enum MoveKind {
    /// Surplus sent toward capturable (neutral) ground.
    Colonize,
    /// Surplus sent toward a threatened own node.
    Reinforce,
    /// Surplus sent toward enemy ground.
    Strike,
    /// Declined to move a source that could have exported.
    Hold,
}

impl MoveKind {
    /// A short human-readable name.
    pub fn name(self) -> (r: &'static str)
        ensures
            r@ == match self {
                MoveKind::Colonize => "Colonize"@,
                MoveKind::Reinforce => "Reinforce"@,
                MoveKind::Strike => "Strike"@,
                MoveKind::Hold => "Hold"@,
            },
    {
        match self {
            MoveKind::Colonize => "Colonize",
            MoveKind::Reinforce => "Reinforce",
            MoveKind::Strike => "Strike",
            MoveKind::Hold => "Hold",
        }
    }

    /// The three active kinds (everything but `Hold`), in a stable order.
    pub const ACTIVE: [MoveKind; 3] = [MoveKind::Colonize, MoveKind::Reinforce, MoveKind::Strike];
}

/// The fraction of a source's eligible ships a move order ships.
#[derive(Debug, Clone, Copy, PartialEq, Eq, Hash, Structural)]
pub enum FractionBucket {
    /// A quarter.
    Quarter,
    /// A half.
    Half,
    /// Three quarters.
    ThreeQuarter,
    /// Everything.
    All,
}

/// The committed-fraction band of a move.
#[derive(Debug, Clone, Copy, PartialEq, Eq, Hash, Structural)]
pub enum FractionBand {
    /// Nothing committed (a `Hold`; named `None` in reports).
    Nothing,
    /// A quarter of the source's exportable surplus.
    Light,
    /// Half.
    Half,
    /// Three quarters or all.
    Heavy,
}

impl FractionBand {
    /// Coarsen a fraction bucket into a band.
    pub fn from_bucket(b: FractionBucket) -> (r: FractionBand)
        ensures
            r == match b {
                FractionBucket::Quarter => FractionBand::Light,
                FractionBucket::Half => FractionBand::Half,
                FractionBucket::ThreeQuarter => FractionBand::Heavy,
                FractionBucket::All => FractionBand::Heavy,
            },
    {
        match b {
            FractionBucket::Quarter => FractionBand::Light,
            FractionBucket::Half => FractionBand::Half,
            FractionBucket::ThreeQuarter | FractionBucket::All => FractionBand::Heavy,
        }
    }
}

/// One observed choice: the move kind and the committed band.
#[derive(Debug, Clone, Copy, PartialEq, Eq, Hash, Structural)]
pub struct Choice {
    /// The abstracted move kind.
    pub kind: MoveKind,
    /// How much of the source's exportable surplus was committed.
    pub band: FractionBand,
}

/// Ownership share band of the acting seat relative to the foe.
#[derive(Debug, Clone, Copy, PartialEq, Eq, Hash, Structural)]
pub enum OwnershipBand {
    /// Strictly fewer producers than the foe.
    Behind,
    /// Equal producer counts.
    Even,
    /// Strictly more producers than the foe.
    Ahead,
}

/// The source node's idle-stack band relative to its soft cap.
#[derive(Debug, Clone, Copy, PartialEq, Eq, Hash, Structural)]
pub enum GarrisonBand {
    /// Well below the soft cap.
    Low,
    /// Approaching the soft cap.
    Mid,
    /// At or over the soft cap.
    Over,
}

/// Whether any owned node is under threat.
#[derive(Debug, Clone, Copy, PartialEq, Eq, Hash, Structural)]
pub enum ThreatBand {
    /// Nothing owned is threatened.
    Calm,
    /// Some owned node is contested or projected to fall.
    Threatened,
}

/// Whether the source node is exposed to the enemy.
#[derive(Debug, Clone, Copy, PartialEq, Eq, Hash, Structural)]
pub enum FrontierBand {
    /// An interior (rear) node.
    Rear,
    /// A front node.
    Front,
}

/// The discrete situation key of one source decision.
#[derive(Debug, Clone, Copy, PartialEq, Eq, Hash, Structural)]
pub struct SituationBucket {
    /// Board-wide ownership share of the acting seat.
    pub ownership: OwnershipBand,
    /// The source's idle-stack pressure.
    pub garrison: GarrisonBand,
    /// Whether anything the seat owns is threatened.
    pub threat: ThreatBand,
    /// Whether the source is a front node.
    pub frontier: FrontierBand,
}

/// One observed `(situation -> choice)` pair.
#[derive(Debug, Clone, Copy, PartialEq, Eq, Structural)]
pub struct Sample {
    /// The decision tick this sample was observed at.
    pub tick: u64,
    /// The situation the watched seat faced from this source.
    pub bucket: SituationBucket,
    /// The choice it made.
    pub choice: Choice,
}

/// The append-only observation log of one watched seat.
pub struct ObservationLog {
    /// The watched seat (set on the first recorded sample).
    pub watched_seat: Option<Faction>,
    /// Every sample, in observation order.
    pub samples: Vec<Sample>,
}

impl ObservationLog {
    /// A fresh, empty log.
    pub fn new() -> (r: ObservationLog)
        ensures
            r.watched_seat is None,
            r.samples@.len() == 0,
    {
        ObservationLog { watched_seat: None, samples: Vec::new() }
    }

    /// The seat this log watches, if any sample has been recorded.
    pub fn watched(&self) -> (r: Option<Faction>)
        ensures
            r == self.watched_seat,
    {
        self.watched_seat
    }

    /// Number of samples recorded.
    pub fn len(&self) -> (r: usize)
        ensures
            r == self.samples@.len(),
    {
        self.samples.len()
    }

    /// True when nothing has been recorded.
    pub fn is_empty(&self) -> (r: bool)
        ensures
            r == (self.samples@.len() == 0),
    {
        self.samples.len() == 0
    }

    /// Append one sample; the first recorded seat stays the watched one.
    pub fn push(&mut self, watched: Faction, sample: Sample)
        ensures
            final(self).samples@ == old(self).samples@.push(sample),
            final(self).watched_seat == match old(self).watched_seat {
                Some(w) => Some(w),
                None => Some(watched),
            },
    {
        if self.watched_seat.is_none() {
            self.watched_seat = Some(watched);
        }
        self.samples.push(sample);
    }
}

/// The ownership band of the acting seat: its owned-position count against the foe's.
pub open spec fn ownership_band_spec(v: &PositionView) -> OwnershipBand {
    let mine = count_owned(v, PosOwner::Me, v.size() as int);
    let foe = count_owned(v, PosOwner::Enemy, v.size() as int);
    if mine < foe {
        OwnershipBand::Behind
    } else if mine == foe {
        OwnershipBand::Even
    } else {
        OwnershipBand::Ahead
    }
}

/// The board-wide ownership band of the acting seat.
pub fn ownership_band(view: &PositionView) -> (r: OwnershipBand)
    requires
        view.wf(),
    ensures
        r == ownership_band_spec(view),
{
    let n = view.len();
    let mut mine: usize = 0;
    let mut foe: usize = 0;
    let mut i: usize = 0;
    while i < n
        invariant
            view.wf(),
            n == view.size(),
            0 <= i <= n,
            mine == count_owned(view, PosOwner::Me, i as int),
            foe == count_owned(view, PosOwner::Enemy, i as int),
            mine <= i,
            foe <= i,
        decreases n - i,
    {
        match view.infos[i].owner {
            PosOwner::Me => mine = mine + 1,
            PosOwner::Enemy => foe = foe + 1,
            PosOwner::Neutral => {},
        }
        i = i + 1;
    }
    if mine < foe {
        OwnershipBand::Behind
    } else if mine == foe {
        OwnershipBand::Even
    } else {
        OwnershipBand::Ahead
    }
}

/// Whether some owned position is contested or projected to fall to the foe.
pub fn threat_band(view: &PositionView) -> (r: ThreatBand)
    requires
        view.wf(),
    ensures
        r == if exists|i: int|
            0 <= i < view.size() && (#[trigger] view.info(i)).owner == PosOwner::Me && (view.info(
                i,
            ).contested || view.next_owner@[i] == Some(Side::Foe)) {
            ThreatBand::Threatened
        } else {
            ThreatBand::Calm
        },
{
    let n = view.len();
    let mut i: usize = 0;
    while i < n
        invariant
            view.wf(),
            n == view.size(),
            0 <= i <= n,
            forall|k: int|
                0 <= k < i ==> !((#[trigger] view.info(k)).owner == PosOwner::Me && (view.info(
                    k,
                ).contested || view.next_owner@[k] == Some(Side::Foe))),
        decreases n - i,
    {
        let info = view.infos[i];
        if info.owner == PosOwner::Me && (info.contested || view.next_owner[i] == Some(Side::Foe)) {
            assert(view.info(i as int).owner == PosOwner::Me);
            return ThreatBand::Threatened;
        }
        i = i + 1;
    }
    ThreatBand::Calm
}

/// The parked pressure at which a source counts as over its soft cap (the order-preserving key
/// of the ratio 0.8).
pub const GARRISON_OVER: u64 = 0x3f4c_cccdu64;

/// The parked pressure at which a source counts as approaching its soft cap (the
/// order-preserving key of the ratio 0.4).
pub const GARRISON_MID: u64 = 0x3ecc_cccdu64;

/// The source's idle-stack band from its parked pressure.
pub fn garrison_band(view: &PositionView, from: usize) -> (r: GarrisonBand)
    requires
        view.wf(),
        from < view.size(),
    ensures
        r == if view.parked_ratio@[from as int] >= GARRISON_OVER {
            GarrisonBand::Over
        } else if view.parked_ratio@[from as int] >= GARRISON_MID {
            GarrisonBand::Mid
        } else {
            GarrisonBand::Low
        },
{
    let r = view.parked_ratio[from];
    if r >= GARRISON_OVER {
        GarrisonBand::Over
    } else if r >= GARRISON_MID {
        GarrisonBand::Mid
    } else {
        GarrisonBand::Low
    }
}

/// Whether the source is a front node: lane-adjacent (`adjacent`) to some node bearing the foe
/// (`foe_bearing`: foe-owned, or contested with foe ships present).
pub fn frontier_band(adjacent: &Vec<bool>, foe_bearing: &Vec<bool>) -> (r: FrontierBand)
    requires
        adjacent@.len() == foe_bearing@.len(),
    ensures
        r == if exists|j: int| 0 <= j < adjacent@.len() && #[trigger] adjacent@[j] && foe_bearing@[j] {
            FrontierBand::Front
        } else {
            FrontierBand::Rear
        },
{
    let mut j: usize = 0;
    while j < adjacent.len()
        invariant
            adjacent@.len() == foe_bearing@.len(),
            0 <= j <= adjacent@.len(),
            forall|k: int| 0 <= k < j ==> !(#[trigger] adjacent@[k] && foe_bearing@[k]),
        decreases adjacent@.len() - j,
    {
        if adjacent[j] && foe_bearing[j] {
            assert(adjacent@[j as int] && foe_bearing@[j as int]);
            return FrontierBand::Front;
        }
        j = j + 1;
    }
    FrontierBand::Rear
}

/// Classify a move by its destination's pre-move ownership: enemy ground with no capturable
/// neutral sub left is a `Strike`; an own node under threat (contested now, or projected to fall)
/// is a `Reinforce`; anything else — and an out-of-range destination — is a `Colonize`.
/// `foe_subs`, `neutral_subs` and `my_subs` count the destination's subs by owner.
pub fn classify_destination(
    in_range: bool,
    foe_subs: usize,
    neutral_subs: usize,
    my_subs: usize,
    contested: bool,
    falling: bool,
) -> (r: MoveKind)
    ensures
        r == if !in_range {
            MoveKind::Colonize
        } else if foe_subs > 0 && neutral_subs == 0 {
            MoveKind::Strike
        } else if my_subs > 0 && (contested || falling) {
            MoveKind::Reinforce
        } else {
            MoveKind::Colonize
        },
{
    if !in_range {
        return MoveKind::Colonize;
    }
    if foe_subs > 0 && neutral_subs == 0 {
        return MoveKind::Strike;
    }
    if my_subs > 0 {
        if contested || falling {
            return MoveKind::Reinforce;
        }
    }
    MoveKind::Colonize
}

/// Whether a securely held source has idle ships above `floor` on some sub the seat owns
/// (`owned_idle` lists the idle counts of the seat's own subs there).
pub fn has_exportable_surplus(securely_owned: bool, owned_idle: &Vec<usize>, floor: usize) -> (r: bool)
    ensures
        r == (securely_owned && exists|i: int| 0 <= i < owned_idle@.len() && #[trigger] owned_idle@[i] > floor),
{
    if !securely_owned {
        return false;
    }
    let mut i: usize = 0;
    while i < owned_idle.len()
        invariant
            securely_owned,
            0 <= i <= owned_idle@.len(),
            forall|k: int| 0 <= k < i ==> #[trigger] owned_idle@[k] <= floor,
        decreases owned_idle@.len() - i,
    {
        if owned_idle[i] > floor {
            return true;
        }
        i = i + 1;
    }
    false
}

} // verus!
