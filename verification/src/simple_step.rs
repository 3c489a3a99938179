//! The heart of the **Simple** colonizer: one decision tick of the per-struct program against
//! its departure ledger, in four phases.
//!
//! 0. **Expire** ops that have landed and have nothing left to send.
//! 1. **Defend**: an owned sub a foe can overwhelm flees everything to the nearest safe owned
//!    sub (a fortress never flees — it is pinned); a sub being captured is pinned. Ops fed by
//!    a fleeing or pinned source's unsent leg are cancelled. While an op is ongoing every owned
//!    fortress is first topped up to its capacity.
//! 2. **Plan + commit**: secure the minimum of up to `fronts` targets at a time (neutral ground
//!    first, then by the host's priority), deepen them toward their maximum, and commit one op
//!    per target whose legs are staggered to land together (a leg routed through an owned
//!    teleporter becomes two chained legs). With nothing fundable: mop up foe holdouts, stage
//!    surplus toward the mustering sub of the top target, or consolidate over-capacity
//!    garrisons onto the nearest friendly sub.
//! 3. **Dispatch** the unsent legs that have come due.
//!
//! The float-valued pricing of each position (its OVERWHELM bars, whether a foe overwhelms it,
//! the gauntlet tolls of each leg and the planning priority) is supplied on the
//! [`SimpleBoard`]; everything the program decides from them is specified here.

use vstd::prelude::*;
use crate::position::{PosOwner, PositionInfo};
use crate::simple::{Leg, Move, Op, op_view, ledger_view, ops_pending, legs_pending, sum_pending};
use crate::order::{first_id, next_id, sorted_ids, is_next, next_id_exec, sort_ids, lemma_sorted_ids_elems, lemma_sorted_ids_first, lemma_sorted_ids_complete};

verus! {

/// The largest finite distance rank: an unreachable leg counts as this far when measuring
/// toward the mustering sub.
pub const FAR: u64 = 0x7f7f_ffffu64;

/// Integer policy dials of the Simple program.
#[derive(Debug, Clone, Copy, PartialEq, Eq, Structural)]
pub struct SimpleDials {
    /// Garrison floor: every owned sub keeps this many ships home.
    pub floor: u32,
    /// Parallel fronts secured at a time.
    pub fronts: usize,
    /// How far over its capacity a sub must be before it consolidates.
    pub consolidate_margin: u32,
    /// With `Some(range)`, targets and legs are limited to within `range` (a distance rank) of
    /// an owned sub.
    pub adjacency_range: Option<u64>,
}

impl Default for SimpleDials {
    fn default() -> (r: SimpleDials)
        ensures
            r.floor == 10,
            r.fronts == 3,
            r.consolidate_margin == 20,
            r.adjacency_range is None,
    {
        SimpleDials { floor: 10, fronts: 3, consolidate_margin: 20, adjacency_range: None }
    }
}

/// One struct as the Simple program sees it, from the acting seat's point of view.
pub struct SimpleBoard {
    /// Per-sub snapshot (owner, idle ships of the seat, present foes, contested).
    pub infos: Vec<PositionInfo>,
    /// Foe ships inbound to each sub.
    pub enemy_incoming: Vec<u32>,
    /// The seat's ships inbound to each sub.
    pub incoming_mine: Vec<u32>,
    /// The earliest tick the seat's inbound ships reach each sub.
    pub friendly_eta: Vec<Option<u64>>,
    /// The capacity of each owned fortress (`None` for any other sub).
    pub fort_capacity: Vec<Option<u32>>,
    /// Each sub's storage capacity.
    pub capacity: Vec<u32>,
    /// `transit[a][b]`: ticks from `a` to `b`, `None` if unreachable.
    pub transit: Vec<Vec<Option<u64>>>,
    /// `via_gate[a][b]`: an owned teleporter `g` and the total ticks of the routed leg.
    pub via_gate: Vec<Vec<Option<(usize, u64)>>>,
    /// `reach[a][b]`: `b` is a legal destination of a move from `a`.
    pub reach: Vec<Vec<bool>>,
    /// `dist[a][b]`: distance rank (order-preserving), `None` if unknown.
    pub dist: Vec<Vec<Option<u64>>>,
    /// `toll[a][b]`: extra attackers a leg walking from `a` to `b` pays for the rival fortress
    /// gauntlets its path crosses.
    pub toll: Vec<Vec<u32>>,
    /// The force needed to start a front on each sub (OVERWHELM of its foes).
    pub min_bar: Vec<u32>,
    /// The most worth committing to each sub.
    pub max_bar: Vec<u32>,
    /// A foe, present or inbound, can overwhelm the seat's garrison at each sub.
    pub over_threat: Vec<bool>,
    /// Planning priority key of each sub (lower plans first).
    pub priority: Vec<u64>,
}

/// `a - b` clamped at zero.
pub open spec fn sat(a: int, b: int) -> int {
    if a > b {
        a - b
    } else {
        0
    }
}

/// The smaller of two integers.
pub open spec fn min_int(a: int, b: int) -> int {
    if a <= b {
        a
    } else {
        b
    }
}

/// The larger of two integers.
pub open spec fn max_int(a: int, b: int) -> int {
    if a >= b {
        a
    } else {
        b
    }
}

impl SimpleBoard {
    /// Number of subs.
    pub open spec fn n(&self) -> int {
        self.infos@.len() as int
    }

    /// Every table has one entry per sub, the pairwise tables are square, and every routing
    /// teleporter is a sub.
    pub open spec fn wf(&self) -> bool {
        &&& self.enemy_incoming@.len() == self.n()
        &&& self.incoming_mine@.len() == self.n()
        &&& self.friendly_eta@.len() == self.n()
        &&& self.fort_capacity@.len() == self.n()
        &&& self.capacity@.len() == self.n()
        &&& self.min_bar@.len() == self.n()
        &&& self.max_bar@.len() == self.n()
        &&& self.over_threat@.len() == self.n()
        &&& self.priority@.len() == self.n()
        &&& self.transit@.len() == self.n()
        &&& self.via_gate@.len() == self.n()
        &&& self.reach@.len() == self.n()
        &&& self.dist@.len() == self.n()
        &&& self.toll@.len() == self.n()
        &&& forall|a: int| 0 <= a < self.n() ==> (#[trigger] self.transit@[a])@.len() == self.n()
        &&& forall|a: int| 0 <= a < self.n() ==> (#[trigger] self.via_gate@[a])@.len() == self.n()
        &&& forall|a: int| 0 <= a < self.n() ==> (#[trigger] self.reach@[a])@.len() == self.n()
        &&& forall|a: int| 0 <= a < self.n() ==> (#[trigger] self.dist@[a])@.len() == self.n()
        &&& forall|a: int| 0 <= a < self.n() ==> (#[trigger] self.toll@[a])@.len() == self.n()
        &&& forall|a: int, b: int|
            0 <= a < self.n() && 0 <= b < self.n() ==> (#[trigger] self.via_gate@[a]@[b] matches Some(
                gv,
            ) ==> gv.0 < self.n())
    }

    /// `s` is owned by the seat.
    pub open spec fn owned(&self, s: int) -> bool {
        self.infos@[s].owner == PosOwner::Me
    }

    /// `s` is an owned fortress.
    pub open spec fn fort(&self, s: int) -> bool {
        self.fort_capacity@[s] is Some
    }

    /// The seat's idle ships at `s`.
    pub open spec fn my(&self, s: int) -> int {
        self.infos@[s].my_ships as int
    }

    /// Foe ships present at `s`.
    pub open spec fn en(&self, s: int) -> int {
        self.infos@[s].enemy_ships as int
    }

    /// Walking ticks from `a` to `b` (`u64::MAX` if unreachable).
    pub open spec fn direct(&self, a: int, b: int) -> u64 {
        match self.transit@[a]@[b] {
            Some(t) => t,
            None => u64::MAX,
        }
    }

    /// Travel ticks from `a` to `b`: walking, or faster through an owned teleporter.
    pub open spec fn travel(&self, a: int, b: int) -> u64 {
        match self.via_gate@[a]@[b] {
            Some(gv) => if gv.1 < self.direct(a, b) {
                gv.1
            } else {
                self.direct(a, b)
            },
            None => self.direct(a, b),
        }
    }

    /// The owned teleporter a leg from `a` to `b` routes through (strictly faster than
    /// walking), or `None` for a direct leg.
    pub open spec fn gate_route(&self, a: int, b: int) -> Option<usize> {
        match self.via_gate@[a]@[b] {
            Some(gv) => if gv.1 < self.direct(a, b) {
                Some(gv.0)
            } else {
                None
            },
            None => None,
        }
    }

    /// Distance rank from `a` to `b`, [`FAR`] if unknown.
    pub open spec fn dist_or_far(&self, a: int, b: int) -> u64 {
        match self.dist@[a]@[b] {
            Some(d) => d,
            None => FAR,
        }
    }

    /// `b` lies within `range` of `a`.
    pub open spec fn within(&self, a: int, b: int, range: u64) -> bool {
        self.dist@[a]@[b] matches Some(d) && d <= range
    }

    /// A leg from `s` to `t` obeys the adjacency leash.
    pub open spec fn leashed(&self, d: SimpleDials, s: int, t: int) -> bool {
        match d.adjacency_range {
            None => true,
            Some(r) => self.within(s, t, r),
        }
    }

    /// The owned sub `s` flees: a plain (non-fortress) owned sub with a garrison that a foe
    /// can overwhelm.
    pub open spec fn flee(&self, s: int) -> bool {
        self.owned(s) && !self.fort(s) && self.over_threat@[s] && self.my(s) > 0
    }

    /// The owned sub `s` is pinned: a fortress under fire, or a plain sub being captured (a
    /// foe present but not overwhelming).
    pub open spec fn pin(&self, s: int) -> bool {
        &&& self.owned(s)
        &&& if self.fort(s) {
            self.en(s) > 0 || (self.over_threat@[s] && self.my(s) > 0)
        } else {
            self.en(s) > 0 && !self.over_threat@[s]
        }
    }

    /// Some owned sub flees.
    pub open spec fn any_flee(&self) -> bool {
        exists|s: int| 0 <= s < self.n() && #[trigger] self.flee(s)
    }

    /// Some owned sub is pinned.
    pub open spec fn any_pin(&self) -> bool {
        exists|s: int| 0 <= s < self.n() && #[trigger] self.pin(s)
    }

    /// Keys ranking sources by travel to `t`.
    pub open spec fn keys_to(&self, t: int) -> Seq<(u64, u64)> {
        Seq::new(self.n() as nat, |s: int| (self.travel(s, t), 0u64))
    }

    /// Keys ranking destinations by travel from `from`.
    pub open spec fn keys_from(&self, from: int) -> Seq<(u64, u64)> {
        Seq::new(self.n() as nat, |t: int| (self.travel(from, t), 0u64))
    }

    /// Keys ranking subs by distance rank to `m`.
    pub open spec fn dist_keys_to(&self, m: int) -> Seq<(u64, u64)> {
        Seq::new(self.n() as nat, |h: int| (self.dist_or_far(h, m), 0u64))
    }

    /// Safe refuges from `from`: owned, uncontested, not overwhelmed, reachable.
    pub open spec fn safe_mask(&self, from: int) -> Seq<bool> {
        Seq::new(
            self.n() as nat,
            |to: int|
                to != from && self.owned(to) && !self.infos@[to].contested && !self.over_threat@[to]
                    && self.reach@[from]@[to],
        )
    }

    /// The nearest safe owned sub to flee to from `from`.
    pub open spec fn nearest_safe(&self, from: int) -> Option<usize> {
        first_id(self.safe_mask(from), self.keys_from(from))
    }

    /// The evacuation moves of the first `k` subs.
    pub open spec fn flee_moves(&self, k: int) -> Seq<Move>
        decreases k,
    {
        if k <= 0 {
            Seq::empty()
        } else {
            let prev = self.flee_moves(k - 1);
            if self.flee(k - 1) {
                match self.nearest_safe(k - 1) {
                    Some(d) => prev.push(Move { src: (k - 1) as usize, tgt: d, count: u32::MAX }),
                    None => prev,
                }
            } else {
                prev
            }
        }
    }

    /// The garrison floor of `s`: a fortress's floor is its capacity.
    pub open spec fn floor_of(&self, d: SimpleDials, s: int) -> int {
        match self.fort_capacity@[s] {
            Some(c) => c as int,
            None => d.floor as int,
        }
    }

    /// Ships `s` can still give an attack: idle above its floor, minus its reservations.
    pub open spec fn spare(&self, d: SimpleDials, ops: Seq<(usize, u64, Seq<Leg>)>, s: int) -> int {
        sat(sat(self.my(s), self.floor_of(d, s)), ops_pending(ops, true, s as usize) as int)
    }

    /// Everything already working on `t`: present, inbound, and reserved unsent legs.
    pub open spec fn our_force(&self, ops: Seq<(usize, u64, Seq<Leg>)>, t: int) -> int {
        self.my(t) + self.incoming_mine@[t] + ops_pending(ops, false, t as usize)
    }

    /// The spendable ships of each sub at the start of planning.
    pub open spec fn avail0(&self, d: SimpleDials, ops: Seq<(usize, u64, Seq<Leg>)>) -> Seq<u32> {
        Seq::new(
            self.n() as nat,
            |s: int|
                if self.owned(s) && !self.flee(s) && !self.pin(s) {
                    self.spare(d, ops, s) as u32
                } else {
                    0u32
                },
        )
    }

    // ---------------------------------------------------------------------------------
    // Pull: gather force toward a target, nearest sources first.
    // ---------------------------------------------------------------------------------

    /// Sources that can feed `t`: other subs with spendable ships that reach `t` within the
    /// leash.
    pub open spec fn pull_mask(&self, d: SimpleDials, t: int, avail: Seq<u32>) -> Seq<bool> {
        Seq::new(
            self.n() as nat,
            |s: int| s != t && avail[s] > 0 && self.reach@[s]@[t] && self.leashed(d, s, t),
        )
    }

    /// The gauntlet toll of a leg from `s` toward `t` (the walk to the teleporter for a
    /// routed leg), when tolls are charged.
    pub open spec fn leg_toll(&self, s: int, t: int, charge: bool) -> int {
        if charge {
            match self.gate_route(s, t) {
                Some(g) => self.toll@[s]@[g as int] as int,
                None => self.toll@[s]@[t] as int,
            }
        } else {
            0
        }
    }

    /// One source's contribution to a pull.
    pub open spec fn pull_step(&self, t: int, charge: bool, st: (Seq<u32>, Seq<(usize, u32)>, int, int), s: usize) -> (
        Seq<u32>,
        Seq<(usize, u32)>,
        int,
        int,
    ) {
        let (avail, legs, got, need) = st;
        if got >= need {
            st
        } else {
            let toll = self.leg_toll(s as int, t, charge);
            let take = min_int(avail[s as int] as int, need + toll - got);
            if take <= 0 {
                st
            } else {
                (
                    avail.update(s as int, (avail[s as int] - take) as u32),
                    legs.push((s, take as u32)),
                    got + take,
                    need + toll,
                )
            }
        }
    }

    /// The pull state after the first `k` ranked sources.
    pub open spec fn pull_fold(&self, t: int, charge: bool, srcs: Seq<usize>, k: int, init: (
        Seq<u32>,
        Seq<(usize, u32)>,
        int,
        int,
    )) -> (Seq<u32>, Seq<(usize, u32)>, int, int)
        decreases k,
    {
        if k <= 0 {
            init
        } else {
            self.pull_step(t, charge, self.pull_fold(t, charge, srcs, k - 1, init), srcs[k - 1])
        }
    }

    /// Pull toward `t` until the gathered count covers `base` plus the tolls of the chosen
    /// legs: `(avail after, legs, gathered, required)`.
    pub open spec fn pull(&self, d: SimpleDials, t: int, base: int, avail: Seq<u32>, charge: bool) -> (
        Seq<u32>,
        Seq<(usize, u32)>,
        int,
        int,
    ) {
        if base == 0 {
            (avail, Seq::empty(), 0, 0)
        } else {
            let srcs = sorted_ids(self.pull_mask(d, t, avail), self.keys_to(t));
            self.pull_fold(t, charge, srcs, srcs.len() as int, (avail, Seq::empty(), 0, base))
        }
    }

    // ---------------------------------------------------------------------------------
    // Manning the fortresses.
    // ---------------------------------------------------------------------------------

    /// The moves a list of pulled legs makes toward `f`.
    pub open spec fn legs_to_moves(legs: Seq<(usize, u32)>, f: usize) -> Seq<Move> {
        Seq::new(legs.len(), |i: int| Move { src: legs[i].0, tgt: f, count: legs[i].1 })
    }

    /// Manning of the first `k` subs: `(avail, moves)`.
    pub open spec fn man_fold(&self, d: SimpleDials, ops: Seq<(usize, u64, Seq<Leg>)>, k: int, avail: Seq<u32>) -> (
        Seq<u32>,
        Seq<Move>,
    )
        decreases k,
    {
        if k <= 0 {
            (avail, Seq::empty())
        } else {
            let (a, mv) = self.man_fold(d, ops, k - 1, avail);
            let f = k - 1;
            match self.fort_capacity@[f] {
                None => (a, mv),
                Some(cap) => if self.flee(f) {
                    (a, mv)
                } else {
                    let a1 = a.update(f, 0u32);
                    let deficit = sat(cap as int, self.our_force(ops, f));
                    if deficit == 0 {
                        (a1, mv)
                    } else {
                        let r = self.pull(d, f, deficit, a1, false);
                        (r.0, mv + Self::legs_to_moves(r.1, f as usize))
                    }
                },
            }
        }
    }

    // ---------------------------------------------------------------------------------
    // Candidates and planning.
    // ---------------------------------------------------------------------------------

    /// Some owned sub reaches `t`.
    pub open spec fn reached(&self, t: int) -> bool {
        exists|s: int| 0 <= s < self.n() && #[trigger] self.owned(s) && self.reach@[s]@[t]
    }

    /// Some owned sub lies within `range` of `t`.
    pub open spec fn near_owned(&self, t: int, range: u64) -> bool {
        exists|s: int| 0 <= s < self.n() && #[trigger] self.owned(s) && self.within(s, t, range)
    }

    /// The seat owns some sub.
    pub open spec fn any_owned(&self) -> bool {
        exists|s: int| 0 <= s < self.n() && #[trigger] self.owned(s)
    }

    /// `t` is a capture candidate: ground the seat does not own, reached from owned ground,
    /// within the leash of owned ground.
    pub open spec fn candidate(&self, d: SimpleDials, t: int) -> bool {
        &&& !self.owned(t)
        &&& self.reached(t)
        &&& match d.adjacency_range {
            None => true,
            Some(r) => !self.any_owned() || self.near_owned(t, r),
        }
    }

    /// The candidate selection.
    pub open spec fn cand_mask(&self, d: SimpleDials) -> Seq<bool> {
        Seq::new(self.n() as nat, |t: int| self.candidate(d, t))
    }

    /// Candidate keys: neutral ground first, then the host's priority.
    pub open spec fn cand_keys(&self) -> Seq<(u64, u64)> {
        Seq::new(
            self.n() as nat,
            |t: int|
                (
                    if self.infos@[t].owner != PosOwner::Neutral {
                        1u64
                    } else {
                        0u64
                    },
                    self.priority@[t],
                ),
        )
    }

    /// The candidates in planning order.
    pub open spec fn cands(&self, d: SimpleDials) -> Seq<usize> {
        sorted_ids(self.cand_mask(d), self.cand_keys())
    }

    /// Tag pulled legs with their target.
    pub open spec fn tag(t: usize, legs: Seq<(usize, u32)>) -> Seq<(usize, usize, u32)> {
        Seq::new(legs.len(), |i: int| (t, legs[i].0, legs[i].1))
    }

    /// Ships already planned toward `t`.
    pub open spec fn planned_to(flat: Seq<(usize, usize, u32)>, t: usize) -> int
        decreases flat.len(),
    {
        if flat.len() == 0 {
            0
        } else {
            Self::planned_to(flat.drop_last(), t) + (if flat.last().0 == t {
                flat.last().2 as int
            } else {
                0
            })
        }
    }

    /// Phase A on candidate `t`: secure its minimum, or roll back.
    pub open spec fn phase_a(&self, d: SimpleDials, ops: Seq<(usize, u64, Seq<Leg>)>, st: (
        Seq<u32>,
        Seq<usize>,
        Seq<(usize, usize, u32)>,
        Seq<usize>,
    ), t: usize) -> (Seq<u32>, Seq<usize>, Seq<(usize, usize, u32)>, Seq<usize>) {
        let of = self.our_force(ops, t as int);
        if sat(self.max_bar@[t as int] as int, of) == 0 {
            st
        } else {
            let r = self.pull(d, t as int, sat(self.min_bar@[t as int] as int, of), st.0, true);
            if r.2 < r.3 {
                st
            } else {
                (r.0, st.1.push(t), st.2 + Self::tag(t, r.1), st.3.push(t))
            }
        }
    }

    /// Phase B on a secured front `t`: deepen toward its maximum.
    pub open spec fn deepen(&self, d: SimpleDials, ops: Seq<(usize, u64, Seq<Leg>)>, st: (
        Seq<u32>,
        Seq<usize>,
        Seq<(usize, usize, u32)>,
        Seq<usize>,
    ), t: usize) -> (Seq<u32>, Seq<usize>, Seq<(usize, usize, u32)>, Seq<usize>) {
        let of = self.our_force(ops, t as int);
        let want = sat(sat(self.max_bar@[t as int] as int, of), Self::planned_to(st.2, t));
        if want > 0 {
            let r = self.pull(d, t as int, want, st.0, true);
            (r.0, st.1, st.2 + Self::tag(t, r.1), st.3)
        } else {
            st
        }
    }

    /// Deepen the first `k` fronts of `batch`.
    pub open spec fn deepen_fold(&self, d: SimpleDials, ops: Seq<(usize, u64, Seq<Leg>)>, st: (
        Seq<u32>,
        Seq<usize>,
        Seq<(usize, usize, u32)>,
        Seq<usize>,
    ), batch: Seq<usize>, k: int) -> (Seq<u32>, Seq<usize>, Seq<(usize, usize, u32)>, Seq<usize>)
        decreases k,
    {
        if k <= 0 {
            st
        } else {
            self.deepen(d, ops, self.deepen_fold(d, ops, st, batch, k - 1), batch[k - 1])
        }
    }

    /// Deepen every front of the current batch, then start a new batch.
    pub open spec fn flush(&self, d: SimpleDials, ops: Seq<(usize, u64, Seq<Leg>)>, st: (
        Seq<u32>,
        Seq<usize>,
        Seq<(usize, usize, u32)>,
        Seq<usize>,
    )) -> (Seq<u32>, Seq<usize>, Seq<(usize, usize, u32)>, Seq<usize>) {
        let r = self.deepen_fold(d, ops, st, st.3, st.3.len() as int);
        (r.0, r.1, r.2, Seq::empty())
    }

    /// Planning over the first `k` candidates (the batch flushes when it reaches `fronts`).
    pub open spec fn plan_fold(&self, d: SimpleDials, ops: Seq<(usize, u64, Seq<Leg>)>, cands: Seq<usize>, k: int, init: (
        Seq<u32>,
        Seq<usize>,
        Seq<(usize, usize, u32)>,
        Seq<usize>,
    )) -> (Seq<u32>, Seq<usize>, Seq<(usize, usize, u32)>, Seq<usize>)
        decreases k,
    {
        if k <= 0 {
            init
        } else {
            let s = self.phase_a(d, ops, self.plan_fold(d, ops, cands, k - 1, init), cands[k - 1]);
            if s.3.len() >= d.fronts {
                self.flush(d, ops, s)
            } else {
                s
            }
        }
    }

    /// The whole planning phase from `avail`: `(avail, planned targets, planned legs, _)`.
    pub open spec fn plan(&self, d: SimpleDials, ops: Seq<(usize, u64, Seq<Leg>)>, avail: Seq<u32>) -> (
        Seq<u32>,
        Seq<usize>,
        Seq<(usize, usize, u32)>,
        Seq<usize>,
    ) {
        let init = (avail, Seq::<usize>::empty(), Seq::<(usize, usize, u32)>::empty(), Seq::<usize>::empty());
        if d.fronts == 0 {
            init
        } else {
            let c = self.cands(d);
            self.flush(d, ops, self.plan_fold(d, ops, c, c.len() as int, init))
        }
    }

    // ---------------------------------------------------------------------------------
    // Mop-up, staging, consolidation.
    // ---------------------------------------------------------------------------------

    /// Least travel from any owned sub that reaches `t` (`u64::MAX` if none).
    pub open spec fn nearest_owned_travel(&self, t: int) -> u64 {
        match first_id(
            Seq::new(self.n() as nat, |s: int| self.owned(s) && self.reach@[s]@[t]),
            self.keys_to(t),
        ) {
            Some(s) => self.travel(s as int, t),
            None => u64::MAX,
        }
    }

    /// The holdout to mop up: a sub with foes present or inbound, nearest owned ground first.
    pub open spec fn holdout(&self) -> Option<usize> {
        first_id(
            Seq::new(self.n() as nat, |s: int| self.en(s) > 0 || self.enemy_incoming@[s] > 0),
            Seq::new(self.n() as nat, |s: int| (self.nearest_owned_travel(s), 0u64)),
        )
    }

    /// Total spendable ships.
    pub open spec fn total(avail: Seq<u32>) -> int
        decreases avail.len(),
    {
        if avail.len() == 0 {
            0
        } else {
            Self::total(avail.drop_last()) + avail.last() as int
        }
    }

    /// Some candidate still has room below its maximum.
    pub open spec fn any_room(&self, d: SimpleDials, ops: Seq<(usize, u64, Seq<Leg>)>) -> bool {
        exists|i: int|
            0 <= i < self.cands(d).len() && sat(
                self.max_bar@[#[trigger] self.cands(d)[i] as int] as int,
                self.our_force(ops, self.cands(d)[i] as int),
            ) > 0
    }

    /// Mop-up: with no capturable work left, one wave at the nearest holdout.
    pub open spec fn mop_up(&self, d: SimpleDials, ops: Seq<(usize, u64, Seq<Leg>)>, st: (
        Seq<u32>,
        Seq<usize>,
        Seq<(usize, usize, u32)>,
        Seq<usize>,
    )) -> (Seq<u32>, Seq<usize>, Seq<(usize, usize, u32)>, Seq<usize>) {
        if st.1.len() > 0 || self.any_flee() || self.any_room(d, ops) {
            st
        } else {
            match self.holdout() {
                None => st,
                Some(t) => {
                    let bar = sat(self.min_bar@[t as int] as int, self.our_force(ops, t as int));
                    let want = min_int(bar, Self::total(st.0));
                    if bar > 0 && want > 0 {
                        let r = self.pull(d, t as int, want, st.0, true);
                        (
                            r.0,
                            if r.2 > 0 {
                                st.1.push(t)
                            } else {
                                st.1
                            },
                            st.2 + Self::tag(t, r.1),
                            st.3,
                        )
                    } else {
                        st
                    }
                },
            }
        }
    }

    /// `h` is a relay for `s`'s surplus toward `m` (which lies `dm` away): another owned
    /// non-fortress sub reachable within `r` of `s` and strictly closer to `m`.
    pub open spec fn relay(&self, s: int, m: int, dm: u64, r: u64, h: int) -> bool {
        &&& h != s
        &&& self.owned(h)
        &&& !self.fort(h)
        &&& self.reach@[s]@[h]
        &&& self.within(s, h, r)
        &&& self.dist@[h]@[m] matches Some(dh)
        &&& dh < dm
    }

    /// The next hop of `s`'s surplus toward the mustering sub `m`.
    pub open spec fn stage_hop(&self, d: SimpleDials, s: int, m: usize) -> Option<usize> {
        match d.adjacency_range {
            None => Some(m),
            Some(r) => {
                let dm = self.dist_or_far(s, m as int);
                if dm <= r {
                    Some(m)
                } else {
                    first_id(
                        Seq::new(self.n() as nat, |h: int| self.relay(s, m as int, dm, r, h)),
                        self.dist_keys_to(m as int),
                    )
                }
            },
        }
    }

    /// Staging moves of the first `k` subs toward the mustering sub `m`.
    pub open spec fn stage_moves(&self, d: SimpleDials, m: usize, k: int) -> Seq<Move>
        decreases k,
    {
        if k <= 0 {
            Seq::empty()
        } else {
            let prev = self.stage_moves(d, m, k - 1);
            let s = k - 1;
            let surplus = sat(self.my(s), d.floor as int);
            if s == m || !self.owned(s) || self.fort(s) || self.flee(s) || self.pin(s) || surplus == 0 {
                prev
            } else {
                match self.stage_hop(d, s, m) {
                    Some(h) => prev.push(Move { src: s as usize, tgt: h, count: surplus as u32 }),
                    None => prev,
                }
            }
        }
    }

    /// Staging: with candidates but nothing fundable, relay surplus toward the owned sub
    /// nearest the top candidate.
    pub open spec fn stage(&self, d: SimpleDials, ops: Seq<(usize, u64, Seq<Leg>)>, planned: Seq<usize>) -> Seq<Move> {
        let c = self.cands(d);
        if planned.len() > 0 || c.len() == 0 || ops.len() > 0 || self.any_flee() {
            Seq::empty()
        } else {
            match first_id(
                Seq::new(self.n() as nat, |s: int| self.owned(s) && !self.fort(s)),
                self.keys_to(c[0] as int),
            ) {
                None => Seq::empty(),
                Some(m) => self.stage_moves(d, m, self.n()),
            }
        }
    }

    /// `t` is another owned sub that `s` reaches.
    pub open spec fn friend(&self, s: int, t: int) -> bool {
        t != s && self.owned(t) && self.reach@[s]@[t]
    }

    /// Consolidation moves of the first `k` subs.
    pub open spec fn consolidate_moves(&self, d: SimpleDials, k: int) -> Seq<Move>
        decreases k,
    {
        if k <= 0 {
            Seq::empty()
        } else {
            let prev = self.consolidate_moves(d, k - 1);
            let s = k - 1;
            let cap = self.capacity@[s] as int;
            if !self.owned(s) || self.my(s) <= cap + d.consolidate_margin {
                prev
            } else {
                match first_id(Seq::new(self.n() as nat, |t: int| self.friend(s, t)), self.keys_from(s)) {
                    Some(t) => prev.push(Move { src: s as usize, tgt: t, count: (self.my(s) - cap) as u32 }),
                    None => prev,
                }
            }
        }
    }

    /// Consolidation: with nothing at all to do, over-capacity garrisons move their surplus to
    /// the nearest friendly sub.
    pub open spec fn consolidate(&self, d: SimpleDials, ops: Seq<(usize, u64, Seq<Leg>)>, planned: Seq<usize>) -> Seq<Move> {
        if planned.len() > 0 || self.cands(d).len() > 0 || ops.len() > 0 || self.any_flee()
            || self.any_pin() {
            Seq::empty()
        } else {
            self.consolidate_moves(d, self.n())
        }
    }

    // ---------------------------------------------------------------------------------
    // Commit.
    // ---------------------------------------------------------------------------------

    /// The planned legs toward `t`, in planning order.
    pub open spec fn legs_of(flat: Seq<(usize, usize, u32)>, t: usize) -> Seq<(usize, u32)>
        decreases flat.len(),
    {
        if flat.len() == 0 {
            Seq::empty()
        } else {
            let prev = Self::legs_of(flat.drop_last(), t);
            if flat.last().0 == t {
                prev.push((flat.last().1, flat.last().2))
            } else {
                prev
            }
        }
    }

    /// The index of the entry with source `s`, or `-1`.
    pub open spec fn find_src(c: Seq<(usize, u32)>, s: usize) -> int
        decreases c.len(),
    {
        if c.len() == 0 {
            -1
        } else {
            let i = Self::find_src(c.drop_last(), s);
            if i >= 0 {
                i
            } else if c.last().0 == s {
                c.len() - 1
            } else {
                -1
            }
        }
    }

    /// Legs merged per source, in first-appearance order.
    pub open spec fn coalesce(legs: Seq<(usize, u32)>) -> Seq<(usize, u32)>
        decreases legs.len(),
    {
        if legs.len() == 0 {
            Seq::empty()
        } else {
            let c = Self::coalesce(legs.drop_last());
            let (s, k) = legs.last();
            let i = Self::find_src(c, s);
            if i >= 0 {
                c.update(i, (s, (c[i].1 + k) as u32))
            } else {
                c.push((s, k))
            }
        }
    }

    /// The longest travel of the merged legs to `t`.
    pub open spec fn max_travel(&self, c: Seq<(usize, u32)>, t: int) -> u64
        decreases c.len(),
    {
        if c.len() == 0 {
            0
        } else {
            max_int(self.max_travel(c.drop_last(), t) as int, self.travel(c.last().0 as int, t) as int) as u64
        }
    }

    /// The latest landing of a ledger op on `t`, at least `floor`.
    pub open spec fn latest_landing(ops: Seq<(usize, u64, Seq<Leg>)>, t: usize, floor: u64) -> u64
        decreases ops.len(),
    {
        if ops.len() == 0 {
            floor
        } else {
            let prev = Self::latest_landing(ops.drop_last(), t, floor);
            if ops.last().0 == t {
                max_int(prev as int, ops.last().1 as int) as u64
            } else {
                prev
            }
        }
    }

    /// The landing tick of a new op on `t`: no earlier than its farthest leg's travel, any
    /// inbound friendly arrival, or a ledger op's landing on the same target.
    pub open spec fn land_at(&self, ops: Seq<(usize, u64, Seq<Leg>)>, t: usize, c: Seq<(usize, u32)>, now: u64) -> u64 {
        let l0 = min_int(now + self.max_travel(c, t as int), u64::MAX as int) as u64;
        let l1 = match self.friendly_eta@[t as int] {
            Some(e) => max_int(l0 as int, e as int) as u64,
            None => l0,
        };
        Self::latest_landing(ops, t, l1)
    }

    /// The staggered legs of the merged sources toward `t` landing at `land`.
    pub open spec fn op_legs(&self, c: Seq<(usize, u32)>, t: usize, land: u64) -> Seq<Leg>
        decreases c.len(),
    {
        if c.len() == 0 {
            Seq::empty()
        } else {
            let prev = self.op_legs(c.drop_last(), t, land);
            let (s, k) = c.last();
            match self.gate_route(s as int, t as int) {
                Some(g) => {
                    let hop = sat(land as int, self.travel(g as int, t as int) as int) as u64;
                    prev.push(
                        Leg {
                            src: s,
                            tgt: g,
                            count: k,
                            depart_at: sat(hop as int, self.travel(s as int, g as int) as int) as u64,
                            sent: false,
                        },
                    ).push(Leg { src: g, tgt: t, count: k, depart_at: hop, sent: false })
                },
                None => prev.push(
                    Leg {
                        src: s,
                        tgt: t,
                        count: k,
                        depart_at: sat(land as int, self.travel(s as int, t as int) as int) as u64,
                        sent: false,
                    },
                ),
            }
        }
    }

    /// Commit one op per planned target (in planning order) with planned legs.
    pub open spec fn commit(&self, ops: Seq<(usize, u64, Seq<Leg>)>, plan_t: Seq<usize>, flat: Seq<(usize, usize, u32)>, now: u64, k: int) -> Seq<(usize, u64, Seq<Leg>)>
        decreases k,
    {
        if k <= 0 {
            ops
        } else {
            let prev = self.commit(ops, plan_t, flat, now, k - 1);
            let t = plan_t[k - 1];
            let legs = Self::legs_of(flat, t);
            if legs.len() == 0 {
                prev
            } else {
                let c = Self::coalesce(legs);
                let land = self.land_at(prev, t, c, now);
                prev.push((t, land, self.op_legs(c, t, land)))
            }
        }
    }

    // ---------------------------------------------------------------------------------
    // Dispatch.
    // ---------------------------------------------------------------------------------

    /// A leg fires this tick: unsent, due, and its source neither fleeing nor pinned.
    pub open spec fn due(&self, l: Leg, now: u64) -> bool {
        !l.sent && now >= l.depart_at && !self.flee(l.src as int) && !self.pin(l.src as int)
    }

    /// Dispatch the due legs of one op: `(legs after, moves)`.
    pub open spec fn dispatch_legs(&self, legs: Seq<Leg>, now: u64) -> (Seq<Leg>, Seq<Move>)
        decreases legs.len(),
    {
        if legs.len() == 0 {
            (Seq::empty(), Seq::empty())
        } else {
            let (l, m) = self.dispatch_legs(legs.drop_last(), now);
            let x = legs.last();
            if self.due(x, now) {
                (l.push(fired(x)), m.push(move_of(x)))
            } else {
                (l.push(x), m)
            }
        }
    }

    /// Dispatch the due legs of the ledger: `(ledger after, moves)`.
    pub open spec fn dispatch(&self, ops: Seq<(usize, u64, Seq<Leg>)>, now: u64) -> (Seq<(usize, u64, Seq<Leg>)>, Seq<Move>)
        decreases ops.len(),
    {
        if ops.len() == 0 {
            (Seq::empty(), Seq::empty())
        } else {
            let (o, m) = self.dispatch(ops.drop_last(), now);
            let x = ops.last();
            let (l, lm) = self.dispatch_legs(x.2, now);
            (o.push((x.0, x.1, l)), m + lm)
        }
    }
}

/// A leg once dispatched.
pub open spec fn fired(l: Leg) -> Leg {
    Leg { sent: true, ..l }
}

/// The move that dispatches a leg.
pub open spec fn move_of(l: Leg) -> Move {
    Move { src: l.src, tgt: l.tgt, count: l.count }
}

/// An op stays in the ledger until it has landed with nothing left to send.
pub open spec fn live(op: (usize, u64, Seq<Leg>), now: u64) -> bool {
    now < op.1 || exists|j: int| 0 <= j < op.2.len() && !(#[trigger] op.2[j]).sent
}

/// Drop the landed, fully sent ops.
pub open spec fn expire(ops: Seq<(usize, u64, Seq<Leg>)>, now: u64) -> Seq<(usize, u64, Seq<Leg>)>
    decreases ops.len(),
{
    if ops.len() == 0 {
        Seq::empty()
    } else {
        let prev = expire(ops.drop_last(), now);
        if live(ops.last(), now) {
            prev.push(ops.last())
        } else {
            prev
        }
    }
}

/// An op is fed by an unsent leg of a fleeing or pinned source.
pub open spec fn blocked(b: &SimpleBoard, op: (usize, u64, Seq<Leg>)) -> bool {
    exists|j: int|
        0 <= j < op.2.len() && !(#[trigger] op.2[j]).sent && (b.flee(op.2[j].src as int) || b.pin(
            op.2[j].src as int,
        ))
}

/// Cancel the ops fed by a fleeing or pinned source's unsent leg.
pub open spec fn cancel(b: &SimpleBoard, ops: Seq<(usize, u64, Seq<Leg>)>) -> Seq<(usize, u64, Seq<Leg>)>
    decreases ops.len(),
{
    if ops.len() == 0 {
        Seq::empty()
    } else {
        let prev = cancel(b, ops.drop_last());
        if blocked(b, ops.last()) {
            prev
        } else {
            prev.push(ops.last())
        }
    }
}

/// One decision tick of the Simple program for one struct: `(ledger after, moves to issue)`.
pub open spec fn step_spec(b: &SimpleBoard, d: SimpleDials, ops: Seq<(usize, u64, Seq<Leg>)>, now: u64) -> (
    Seq<(usize, u64, Seq<Leg>)>,
    Seq<Move>,
) {
    if b.n() == 0 {
        (ops, Seq::empty())
    } else {
        let ops1 = cancel(b, expire(ops, now));
        let fm = b.flee_moves(b.n());
        let a0 = b.avail0(d, ops1);
        let (a1, mm) = if ops1.len() > 0 {
            b.man_fold(d, ops1, b.n(), a0)
        } else {
            (a0, Seq::empty())
        };
        let p = b.mop_up(d, ops1, b.plan(d, ops1, a1));
        let sm = b.stage(d, ops1, p.1);
        let cm = b.consolidate(d, ops1, p.1);
        let committed = b.commit(ops1, p.1, p.2, now, p.1.len() as int);
        let (dispatched, dm) = b.dispatch(committed, now);
        (dispatched, fm + mm + sm + cm + dm)
    }
}

/// The ledger fits the board: every unsent leg's source is a sub, and every sub's
/// reservations fit a machine integer.
pub open spec fn ledger_fits(b: &SimpleBoard, ops: Seq<(usize, u64, Seq<Leg>)>) -> bool {
    &&& forall|i: int, j: int|
        0 <= i < ops.len() && 0 <= j < ops[i].2.len() && !(#[trigger] ops[i].2[j]).sent ==> ops[i].2[j].src < b.n()
    &&& forall|s: usize| s < b.n() ==> #[trigger] ops_pending(ops, true, s) <= u32::MAX
    &&& forall|s: usize| s < b.n() ==> #[trigger] ops_pending(ops, false, s) <= u32::MAX
}

// =====================================================================================
// Lemmas.
// =====================================================================================

/// Expiring ops never adds reservations, and keeps every leg from the ledger.
proof fn lemma_expire_sub(ops: Seq<(usize, u64, Seq<Leg>)>, now: u64, by_src: bool, s: usize)
    ensures
        ops_pending(expire(ops, now), by_src, s) <= ops_pending(ops, by_src, s),
        forall|i: int|
            0 <= i < expire(ops, now).len() ==> exists|k: int|
                0 <= k < ops.len() && #[trigger] expire(ops, now)[i] == ops[k],
    decreases ops.len(),
{
    if ops.len() > 0 {
        lemma_expire_sub(ops.drop_last(), now, by_src, s);
        let prev = expire(ops.drop_last(), now);
        if live(ops.last(), now) {
            assert(prev.push(ops.last()).drop_last() =~= prev);
            assert forall|i: int| 0 <= i < expire(ops, now).len() implies exists|k: int|
                0 <= k < ops.len() && #[trigger] expire(ops, now)[i] == ops[k] by {
                if i < prev.len() {
                    let k = choose|k: int| 0 <= k < ops.drop_last().len() && prev[i] == ops.drop_last()[k];
                    assert(ops[k] == ops.drop_last()[k]);
                } else {
                    assert(expire(ops, now)[i] == ops[ops.len() - 1]);
                }
            }
        } else {
            assert forall|i: int| 0 <= i < expire(ops, now).len() implies exists|k: int|
                0 <= k < ops.len() && #[trigger] expire(ops, now)[i] == ops[k] by {
                let k = choose|k: int| 0 <= k < ops.drop_last().len() && prev[i] == ops.drop_last()[k];
                assert(ops[k] == ops.drop_last()[k]);
            }
        }
    }
}

/// Cancelling ops never adds reservations, and keeps every leg from the ledger.
proof fn lemma_cancel_sub(b: &SimpleBoard, ops: Seq<(usize, u64, Seq<Leg>)>, by_src: bool, s: usize)
    ensures
        ops_pending(cancel(b, ops), by_src, s) <= ops_pending(ops, by_src, s),
        forall|i: int|
            0 <= i < cancel(b, ops).len() ==> exists|k: int|
                0 <= k < ops.len() && #[trigger] cancel(b, ops)[i] == ops[k],
    decreases ops.len(),
{
    if ops.len() > 0 {
        lemma_cancel_sub(b, ops.drop_last(), by_src, s);
        let prev = cancel(b, ops.drop_last());
        if !blocked(b, ops.last()) {
            assert(prev.push(ops.last()).drop_last() =~= prev);
            assert forall|i: int| 0 <= i < cancel(b, ops).len() implies exists|k: int|
                0 <= k < ops.len() && #[trigger] cancel(b, ops)[i] == ops[k] by {
                if i < prev.len() {
                    let k = choose|k: int| 0 <= k < ops.drop_last().len() && prev[i] == ops.drop_last()[k];
                    assert(ops[k] == ops.drop_last()[k]);
                } else {
                    assert(cancel(b, ops)[i] == ops[ops.len() - 1]);
                }
            }
        } else {
            assert forall|i: int| 0 <= i < cancel(b, ops).len() implies exists|k: int|
                0 <= k < ops.len() && #[trigger] cancel(b, ops)[i] == ops[k] by {
                let k = choose|k: int| 0 <= k < ops.drop_last().len() && prev[i] == ops.drop_last()[k];
                assert(ops[k] == ops.drop_last()[k]);
            }
        }
    }
}

/// The live, uncancelled ledger still fits the board.
proof fn lemma_ops1_fits(b: &SimpleBoard, ops: Seq<(usize, u64, Seq<Leg>)>, now: u64)
    requires
        ledger_fits(b, ops),
    ensures
        ledger_fits(b, expire(ops, now)),
        ledger_fits(b, cancel(b, expire(ops, now))),
{
    let e = expire(ops, now);
    let c = cancel(b, e);
    assert forall|s: usize| s < b.n() implies #[trigger] ops_pending(e, true, s) <= u32::MAX by {
        lemma_expire_sub(ops, now, true, s);
        assert(ops_pending(ops, true, s) <= u32::MAX);
    }
    assert forall|s: usize| s < b.n() implies #[trigger] ops_pending(e, false, s) <= u32::MAX by {
        lemma_expire_sub(ops, now, false, s);
        assert(ops_pending(ops, false, s) <= u32::MAX);
    }
    lemma_expire_sub(ops, now, true, 0);
    assert forall|i: int, j: int| 0 <= i < e.len() && 0 <= j < e[i].2.len() && !(
    #[trigger] e[i].2[j]).sent implies e[i].2[j].src < b.n() by {
        let k = choose|k: int| 0 <= k < ops.len() && e[i] == ops[k];
        assert(ops[k].2[j] == e[i].2[j]);
    }
    assert forall|s: usize| s < b.n() implies #[trigger] ops_pending(c, true, s) <= u32::MAX by {
        lemma_cancel_sub(b, e, true, s);
        assert(ops_pending(e, true, s) <= u32::MAX);
    }
    assert forall|s: usize| s < b.n() implies #[trigger] ops_pending(c, false, s) <= u32::MAX by {
        lemma_cancel_sub(b, e, false, s);
        assert(ops_pending(e, false, s) <= u32::MAX);
    }
    lemma_cancel_sub(b, e, true, 0);
    assert forall|i: int, j: int| 0 <= i < c.len() && 0 <= j < c[i].2.len() && !(
    #[trigger] c[i].2[j]).sent implies c[i].2[j].src < b.n() by {
        let k = choose|k: int| 0 <= k < e.len() && c[i] == e[k];
        assert(e[k].2[j] == c[i].2[j]);
    }
}

/// Appending one op to a ledger appends its value to the ledger's view.
proof fn lemma_view_push(ops: Seq<Op>, op: Op)
    ensures
        ledger_view(ops.push(op)) == ledger_view(ops).push(op_view(op)),
{
    assert(ledger_view(ops.push(op)) =~= ledger_view(ops).push(op_view(op)));
}

// =====================================================================================
// Implementation: board reads.
// =====================================================================================

/// Travel ticks from `a` to `c`.
fn travel_exec(b: &SimpleBoard, a: usize, c: usize) -> (r: u64)
    requires
        b.wf(),
        a < b.n(),
        c < b.n(),
    ensures
        r == b.travel(a as int, c as int),
{
    let direct = match b.transit[a][c] {
        Some(t) => t,
        None => u64::MAX,
    };
    match b.via_gate[a][c] {
        Some((_, vt)) => if vt < direct {
            vt
        } else {
            direct
        },
        None => direct,
    }
}

/// The owned teleporter a leg from `a` to `c` routes through.
fn gate_route_exec(b: &SimpleBoard, a: usize, c: usize) -> (r: Option<usize>)
    requires
        b.wf(),
        a < b.n(),
        c < b.n(),
    ensures
        r == b.gate_route(a as int, c as int),
        r matches Some(g) ==> g < b.n(),
{
    let direct = match b.transit[a][c] {
        Some(t) => t,
        None => u64::MAX,
    };
    match b.via_gate[a][c] {
        Some((g, vt)) => if vt < direct {
            Some(g)
        } else {
            None
        },
        None => None,
    }
}

/// Keys ranking sources by travel to `t`.
fn keys_to_exec(b: &SimpleBoard, t: usize) -> (r: Vec<(u64, u64)>)
    requires
        b.wf(),
        t < b.n(),
    ensures
        r@ == b.keys_to(t as int),
{
    let n = b.infos.len();
    let mut r: Vec<(u64, u64)> = Vec::new();
    let mut s: usize = 0;
    while s < n
        invariant
            b.wf(),
            n == b.n(),
            t < n,
            0 <= s <= n,
            r@.len() == s,
            forall|i: int| 0 <= i < s ==> r@[i] == (b.travel(i, t as int), 0u64),
        decreases n - s,
    {
        r.push((travel_exec(b, s, t), 0u64));
        s = s + 1;
    }
    assert(r@ =~= b.keys_to(t as int));
    r
}

/// Keys ranking destinations by travel from `from`.
fn keys_from_exec(b: &SimpleBoard, from: usize) -> (r: Vec<(u64, u64)>)
    requires
        b.wf(),
        from < b.n(),
    ensures
        r@ == b.keys_from(from as int),
{
    let n = b.infos.len();
    let mut r: Vec<(u64, u64)> = Vec::new();
    let mut t: usize = 0;
    while t < n
        invariant
            b.wf(),
            n == b.n(),
            from < n,
            0 <= t <= n,
            r@.len() == t,
            forall|i: int| 0 <= i < t ==> r@[i] == (b.travel(from as int, i), 0u64),
        decreases n - t,
    {
        r.push((travel_exec(b, from, t), 0u64));
        t = t + 1;
    }
    assert(r@ =~= b.keys_from(from as int));
    r
}

/// Keys ranking subs by distance rank to `m`.
fn dist_keys_to_exec(b: &SimpleBoard, m: usize) -> (r: Vec<(u64, u64)>)
    requires
        b.wf(),
        m < b.n(),
    ensures
        r@ == b.dist_keys_to(m as int),
{
    let n = b.infos.len();
    let mut r: Vec<(u64, u64)> = Vec::new();
    let mut h: usize = 0;
    while h < n
        invariant
            b.wf(),
            n == b.n(),
            m < n,
            0 <= h <= n,
            r@.len() == h,
            forall|i: int| 0 <= i < h ==> r@[i] == (b.dist_or_far(i, m as int), 0u64),
        decreases n - h,
    {
        let d = match b.dist[h][m] {
            Some(d) => d,
            None => FAR,
        };
        r.push((d, 0u64));
        h = h + 1;
    }
    assert(r@ =~= b.dist_keys_to(m as int));
    r
}

/// Whether any leg of `legs` is unsent.
fn any_unsent(legs: &Vec<Leg>) -> (r: bool)
    ensures
        r == exists|j: int| 0 <= j < legs@.len() && !(#[trigger] legs@[j]).sent,
{
    let mut j: usize = 0;
    while j < legs.len()
        invariant
            0 <= j <= legs@.len(),
            forall|i: int| 0 <= i < j ==> (#[trigger] legs@[i]).sent,
        decreases legs@.len() - j,
    {
        if !legs[j].sent {
            return true;
        }
        j = j + 1;
    }
    false
}

/// Drop the landed, fully sent ops.
fn expire_exec(ops: Vec<Op>, now: u64) -> (r: Vec<Op>)
    ensures
        ledger_view(r@) == expire(ledger_view(ops@), now),
{
    let ghost orig = ledger_view(ops@);
    let ghost orig_ops = ops@;
    let mut src = ops;
    let mut out: Vec<Op> = Vec::new();
    let ghost mut k: int = 0;
    while src.len() > 0
        invariant
            orig == ledger_view(orig_ops),
            0 <= k <= orig.len(),
            src@.len() == orig.len() - k,
            src@ == orig_ops.skip(k),
            ledger_view(out@) == expire(orig.take(k), now),
        decreases src@.len(),
    {
        let op = src.remove(0);
        proof {
            assert(op == orig_ops[k]);
            assert(op_view(op) == orig[k]);
            assert(src@ =~= orig_ops.skip(k + 1));
            assert(orig.take(k + 1).drop_last() =~= orig.take(k));
            assert(orig.take(k + 1).last() == orig[k]);
        }
        let unsent = any_unsent(&op.legs);
        let keep = now < op.land_at || unsent;
        proof {
            let v = op_view(op);
            assert(v.2 == op.legs@);
            assert(v.1 == op.land_at);
            if unsent {
                let j = choose|j: int| 0 <= j < op.legs@.len() && !(#[trigger] op.legs@[j]).sent;
                assert(!v.2[j].sent);
            }
            assert(live(v, now) == keep);
        }
        if keep {
            proof {
                lemma_view_push(out@, op);
            }
            out.push(op);
        }
        proof {
            k = k + 1;
        }
    }
    proof {
        assert(orig.take(k) =~= orig);
    }
    out
}

/// Cancel the ops fed by an unsent leg of a fleeing or pinned source.
fn cancel_exec(b: &SimpleBoard, ops: Vec<Op>, fleeing: &Vec<bool>, pinned: &Vec<bool>) -> (r: Vec<Op>)
    requires
        b.wf(),
        fleeing@.len() == b.n(),
        pinned@.len() == b.n(),
        forall|s: int| 0 <= s < b.n() ==> fleeing@[s] == b.flee(s) && pinned@[s] == b.pin(s),
        forall|i: int, j: int|
            0 <= i < ops@.len() && 0 <= j < ops@[i].legs@.len() && !(#[trigger] ops@[i].legs@[j]).sent
                ==> ops@[i].legs@[j].src < b.n(),
    ensures
        ledger_view(r@) == cancel(b, ledger_view(ops@)),
{
    let ghost orig = ledger_view(ops@);
    let ghost orig_ops = ops@;
    let mut src = ops;
    let mut out: Vec<Op> = Vec::new();
    let ghost mut k: int = 0;
    while src.len() > 0
        invariant
            b.wf(),
            fleeing@.len() == b.n(),
            pinned@.len() == b.n(),
            forall|s: int| 0 <= s < b.n() ==> fleeing@[s] == b.flee(s) && pinned@[s] == b.pin(s),
            forall|i: int, j: int|
                0 <= i < orig_ops.len() && 0 <= j < orig_ops[i].legs@.len() && !(
                #[trigger] orig_ops[i].legs@[j]).sent ==> orig_ops[i].legs@[j].src < b.n(),
            orig == ledger_view(orig_ops),
            0 <= k <= orig.len(),
            src@.len() == orig.len() - k,
            src@ == orig_ops.skip(k),
            ledger_view(out@) == cancel(b, orig.take(k)),
        decreases src@.len(),
    {
        let ghost before = src@;
        let op = src.remove(0);
        proof {
            assert(op == orig_ops[k]);
            assert(op_view(op) == orig[k]);
            assert(src@ =~= orig_ops.skip(k + 1));
            assert(orig.take(k + 1).drop_last() =~= orig.take(k));
            assert(orig.take(k + 1).last() == orig[k]);
        }
        let mut blocked_now = false;
        let mut j: usize = 0;
        while j < op.legs.len()
            invariant
                b.wf(),
                fleeing@.len() == b.n(),
                pinned@.len() == b.n(),
                forall|s: int| 0 <= s < b.n() ==> fleeing@[s] == b.flee(s) && pinned@[s] == b.pin(s),
                forall|jj: int| 0 <= jj < op.legs@.len() && !(#[trigger] op.legs@[jj]).sent ==> op.legs@[jj].src < b.n(),
                0 <= j <= op.legs@.len(),
                blocked_now == exists|i: int|
                    0 <= i < j && !(#[trigger] op.legs@[i]).sent && (b.flee(op.legs@[i].src as int)
                        || b.pin(op.legs@[i].src as int)),
            decreases op.legs@.len() - j,
        {
            let l = op.legs[j];
            if !l.sent && (fleeing[l.src] || pinned[l.src]) {
                blocked_now = true;
            }
            j = j + 1;
        }
        proof {
            let v = op_view(op);
            assert(v.2 == op.legs@);
            if blocked_now {
                let i = choose|i: int|
                    0 <= i < op.legs@.len() && !(#[trigger] op.legs@[i]).sent && (b.flee(
                        op.legs@[i].src as int,
                    ) || b.pin(op.legs@[i].src as int));
                assert(!v.2[i].sent);
            }
            assert(blocked(b, v) == blocked_now);
        }
        if !blocked_now {
            proof {
                lemma_view_push(out@, op);
            }
            out.push(op);
        }
        proof {
            k = k + 1;
        }
    }
    proof {
        assert(orig.take(k) =~= orig);
    }
    out
}

/// Ships the pulled `legs` take from source `s`.
pub open spec fn taken(legs: Seq<(usize, u32)>, s: usize) -> int
    decreases legs.len(),
{
    if legs.len() == 0 {
        0
    } else {
        taken(legs.drop_last(), s) + (if legs.last().0 == s {
            legs.last().1 as int
        } else {
            0
        })
    }
}

/// A pull only moves ships from the spendable stock into its legs: per source, spendable plus
/// taken is unchanged; and every leg is a ranked source.
proof fn lemma_pull_fold_conserves(b: &SimpleBoard, t: int, charge: bool, srcs: Seq<usize>, k: int, init: (
    Seq<u32>,
    Seq<(usize, u32)>,
    int,
    int,
))
    requires
        0 <= k <= srcs.len(),
        forall|i: int| 0 <= i < srcs.len() ==> #[trigger] srcs[i] < init.0.len(),
    ensures
        b.pull_fold(t, charge, srcs, k, init).0.len() == init.0.len(),
        forall|s: usize|
            #![trigger taken(b.pull_fold(t, charge, srcs, k, init).1, s)]
            s < init.0.len() ==> b.pull_fold(t, charge, srcs, k, init).0[s as int] + taken(
                b.pull_fold(t, charge, srcs, k, init).1,
                s,
            ) == init.0[s as int] + taken(init.1, s),
        b.pull_fold(t, charge, srcs, k, init).1.len() >= init.1.len(),
        forall|i: int|
            0 <= i < init.1.len() ==> #[trigger] b.pull_fold(t, charge, srcs, k, init).1[i]
                == init.1[i],
        forall|i: int|
            init.1.len() <= i < b.pull_fold(t, charge, srcs, k, init).1.len() ==> (
            #[trigger] b.pull_fold(t, charge, srcs, k, init).1[i]).0 < init.0.len(),
    decreases k,
{
    if k > 0 {
        lemma_pull_fold_conserves(b, t, charge, srcs, k - 1, init);
        let st = b.pull_fold(t, charge, srcs, k - 1, init);
        let x = srcs[k - 1];
        let nx = b.pull_step(t, charge, st, x);
        if nx != st {
            assert(nx.1.drop_last() =~= st.1);
            assert forall|s: usize| #![trigger taken(nx.1, s)]
                s < init.0.len() implies nx.0[s as int] + taken(nx.1, s) == init.0[s as int] + taken(
                init.1,
                s,
            ) by {
                assert(st.0[s as int] + taken(st.1, s) == init.0[s as int] + taken(init.1, s));
            }
        }
    }
}

// =====================================================================================
// Implementation: defend, spendable stock, pull.
// =====================================================================================

/// The nearest safe owned sub to flee to from `from`.
fn nearest_safe_exec(b: &SimpleBoard, from: usize) -> (r: Option<usize>)
    requires
        b.wf(),
        from < b.n(),
    ensures
        r == b.nearest_safe(from as int),
{
    let n = b.infos.len();
    let mut mask: Vec<bool> = Vec::new();
    let mut to: usize = 0;
    while to < n
        invariant
            b.wf(),
            n == b.n(),
            from < n,
            0 <= to <= n,
            mask@.len() == to,
            forall|i: int| 0 <= i < to ==> mask@[i] == b.safe_mask(from as int)[i],
        decreases n - to,
    {
        let i = b.infos[to];
        mask.push(
            to != from && i.owner == PosOwner::Me && !i.contested && !b.over_threat[to]
                && b.reach[from][to],
        );
        to = to + 1;
    }
    assert(mask@ =~= b.safe_mask(from as int));
    let keys = keys_from_exec(b, from);
    next_id_exec(&mask, &keys, None)
}

/// Which owned subs flee and which are pinned, and the evacuation moves.
fn defend_exec(b: &SimpleBoard) -> (r: (Vec<bool>, Vec<bool>, Vec<Move>))
    requires
        b.wf(),
    ensures
        r.0@.len() == b.n(),
        r.1@.len() == b.n(),
        forall|s: int| 0 <= s < b.n() ==> r.0@[s] == b.flee(s) && r.1@[s] == b.pin(s),
        r.2@ == b.flee_moves(b.n()),
{
    let n = b.infos.len();
    let mut fleeing: Vec<bool> = Vec::new();
    let mut pinned: Vec<bool> = Vec::new();
    let mut moves: Vec<Move> = Vec::new();
    let mut s: usize = 0;
    while s < n
        invariant
            b.wf(),
            n == b.n(),
            0 <= s <= n,
            fleeing@.len() == s,
            pinned@.len() == s,
            forall|i: int| 0 <= i < s ==> fleeing@[i] == b.flee(i) && pinned@[i] == b.pin(i),
            moves@ == b.flee_moves(s as int),
        decreases n - s,
    {
        let i = b.infos[s];
        let owned = i.owner == PosOwner::Me;
        let is_fort = b.fort_capacity[s].is_some();
        let threat = b.over_threat[s];
        let f = owned && !is_fort && threat && i.my_ships > 0;
        let p = owned && (if is_fort {
            i.enemy_ships > 0 || (threat && i.my_ships > 0)
        } else {
            i.enemy_ships > 0 && !threat
        });
        if f {
            match nearest_safe_exec(b, s) {
                Some(dst) => {
                    moves.push(Move { src: s, tgt: dst, count: u32::MAX });
                },
                None => {},
            }
        }
        fleeing.push(f);
        pinned.push(p);
        s = s + 1;
    }
    (fleeing, pinned, moves)
}

/// Ships `s` can still give an attack: idle above its floor (a fortress's floor is its
/// capacity), minus what unsent legs already reserve on it.
pub fn spare(b: &SimpleBoard, d: SimpleDials, ops: &Vec<Op>, s: usize) -> (r: u32)
    requires
        b.wf(),
        s < b.n(),
        ops_pending(ledger_view(ops@), true, s) <= u32::MAX,
    ensures
        r == b.spare(d, ledger_view(ops@), s as int),
{
    let i = b.infos[s];
    let f: u32 = match b.fort_capacity[s] {
        Some(c) => c,
        None => d.floor,
    };
    let a: u32 = if i.my_ships > f {
        i.my_ships - f
    } else {
        0
    };
    let cout = sum_pending(ops, true, s);
    if a > cout {
        a - cout
    } else {
        0
    }
}

/// The spendable ships of each sub at the start of planning.
fn avail0_exec(b: &SimpleBoard, d: SimpleDials, ops: &Vec<Op>, fleeing: &Vec<bool>, pinned: &Vec<bool>) -> (r: Vec<u32>)
    requires
        b.wf(),
        ledger_fits(b, ledger_view(ops@)),
        fleeing@.len() == b.n(),
        pinned@.len() == b.n(),
        forall|s: int| 0 <= s < b.n() ==> fleeing@[s] == b.flee(s) && pinned@[s] == b.pin(s),
    ensures
        r@ == b.avail0(d, ledger_view(ops@)),
{
    let n = b.infos.len();
    let mut r: Vec<u32> = Vec::new();
    let mut s: usize = 0;
    while s < n
        invariant
            b.wf(),
            n == b.n(),
            ledger_fits(b, ledger_view(ops@)),
            fleeing@.len() == n,
            pinned@.len() == n,
            forall|i: int| 0 <= i < n ==> fleeing@[i] == b.flee(i) && pinned@[i] == b.pin(i),
            0 <= s <= n,
            r@.len() == s,
            forall|i: int| 0 <= i < s ==> r@[i] == b.avail0(d, ledger_view(ops@))[i],
        decreases n - s,
    {
        let i = b.infos[s];
        let v: u32 = if i.owner == PosOwner::Me && !fleeing[s] && !pinned[s] {
            let f: u32 = match b.fort_capacity[s] {
                Some(c) => c,
                None => d.floor,
            };
            let a: u32 = if i.my_ships > f {
                i.my_ships - f
            } else {
                0
            };
            proof {
                assert(ops_pending(ledger_view(ops@), true, s) <= u32::MAX);
            }
            let cout = sum_pending(ops, true, s);
            if a > cout {
                a - cout
            } else {
                0
            }
        } else {
            0
        };
        r.push(v);
        s = s + 1;
    }
    assert(r@ =~= b.avail0(d, ledger_view(ops@)));
    r
}

/// Pull toward `t` (see [`SimpleBoard::pull`]): mutates the spendable stock and returns the
/// legs, the gathered count and the required count.
fn pull_exec(b: &SimpleBoard, d: SimpleDials, t: usize, base: u32, avail: &mut Vec<u32>, charge: bool) -> (r: (
    Vec<(usize, u32)>,
    u128,
    u128,
))
    requires
        b.wf(),
        t < b.n(),
        old(avail)@.len() == b.n(),
    ensures
        (final(avail)@, r.0@, r.1 as int, r.2 as int) == b.pull(d, t as int, base as int, old(avail)@, charge),
        final(avail)@.len() == b.n(),
{
    if base == 0 {
        return (Vec::new(), 0, 0);
    }
    let n = b.infos.len();
    let ghost a0 = avail@;
    let mut mask: Vec<bool> = Vec::new();
    let mut s: usize = 0;
    while s < n
        invariant
            b.wf(),
            n == b.n(),
            t < n,
            avail@ == a0,
            a0.len() == n,
            0 <= s <= n,
            mask@.len() == s,
            forall|i: int| 0 <= i < s ==> mask@[i] == b.pull_mask(d, t as int, a0)[i],
        decreases n - s,
    {
        let leash = match d.adjacency_range {
            None => true,
            Some(r) => match b.dist[s][t] {
                Some(x) => x <= r,
                None => false,
            },
        };
        mask.push(s != t && avail[s] > 0 && b.reach[s][t] && leash);
        s = s + 1;
    }
    assert(mask@ =~= b.pull_mask(d, t as int, a0));
    let keys = keys_to_exec(b, t);
    let srcs = sort_ids(&mask, &keys);
    proof {
        lemma_sorted_ids_elems(mask@, keys@);
    }
    let ghost init = (a0, Seq::<(usize, u32)>::empty(), 0int, base as int);
    let mut legs: Vec<(usize, u32)> = Vec::new();
    let mut got: u128 = 0;
    let mut need: u128 = base as u128;
    let mut i: usize = 0;
    while i < srcs.len()
        invariant
            b.wf(),
            n == b.n(),
            t < n,
            forall|j: int| 0 <= j < srcs@.len() ==> #[trigger] srcs@[j] < n,
            0 <= i <= srcs@.len(),
            avail@.len() == n,
            (avail@, legs@, got as int, need as int) == b.pull_fold(t as int, charge, srcs@, i as int, init),
            got <= i * 0xffff_ffffu128,
            need <= base + i * 0xffff_ffffu128,
        decreases srcs@.len() - i,
    {
        let x = srcs[i];
        if got < need {
            let toll: u128 = if charge {
                match gate_route_exec(b, x, t) {
                    Some(g) => b.toll[x][g] as u128,
                    None => b.toll[x][t] as u128,
                }
            } else {
                0
            };
            let want = need + toll - got;
            let a = avail[x] as u128;
            let take = if a <= want {
                a
            } else {
                want
            };
            if take > 0 {
                let left: u32 = avail[x] - (take as u32);
                avail.set(x, left);
                legs.push((x, take as u32));
                got = got + take;
                need = need + toll;
            }
        }
        i = i + 1;
    }
    (legs, got, need)
}

/// Ships the planned legs take from source `s`.
pub open spec fn taken3(flat: Seq<(usize, usize, u32)>, s: usize) -> int
    decreases flat.len(),
{
    if flat.len() == 0 {
        0
    } else {
        taken3(flat.drop_last(), s) + (if flat.last().1 == s {
            flat.last().2 as int
        } else {
            0
        })
    }
}

/// Appending tagged legs adds their takings.
proof fn lemma_taken3_tag(flat: Seq<(usize, usize, u32)>, t: usize, legs: Seq<(usize, u32)>, s: usize)
    ensures
        taken3(flat + SimpleBoard::tag(t, legs), s) == taken3(flat, s) + taken(legs, s),
    decreases legs.len(),
{
    if legs.len() > 0 {
        lemma_taken3_tag(flat, t, legs.drop_last(), s);
        assert((flat + SimpleBoard::tag(t, legs)).drop_last() =~= flat + SimpleBoard::tag(
            t,
            legs.drop_last(),
        ));
    } else {
        assert(flat + SimpleBoard::tag(t, legs) =~= flat);
    }
}

/// Takings are never negative.
proof fn lemma_taken_nonneg(legs: Seq<(usize, u32)>, s: usize)
    ensures
        taken(legs, s) >= 0,
    decreases legs.len(),
{
    if legs.len() > 0 {
        lemma_taken_nonneg(legs.drop_last(), s);
    }
}

/// Planned takings are never negative.
proof fn lemma_taken3_nonneg(flat: Seq<(usize, usize, u32)>, s: usize)
    ensures
        taken3(flat, s) >= 0,
    decreases flat.len(),
{
    if flat.len() > 0 {
        lemma_taken3_nonneg(flat.drop_last(), s);
    }
}

// =====================================================================================
// Implementation: manning, candidates, planning.
// =====================================================================================

/// A copy of a stock vector.
fn copy_u32s(v: &Vec<u32>) -> (r: Vec<u32>)
    ensures
        r@ == v@,
{
    let mut r: Vec<u32> = Vec::new();
    let mut i: usize = 0;
    while i < v.len()
        invariant
            0 <= i <= v@.len(),
            r@ == v@.take(i as int),
        decreases v@.len() - i,
    {
        r.push(v[i]);
        proof {
            assert(v@.take(i + 1) =~= v@.take(i as int).push(v@[i as int]));
        }
        i = i + 1;
    }
    assert(v@.take(v@.len() as int) =~= v@);
    r
}

/// Everything already working on `t`.
fn our_force_exec(b: &SimpleBoard, ops: &Vec<Op>, t: usize) -> (r: u64)
    requires
        b.wf(),
        t < b.n(),
        ledger_fits(b, ledger_view(ops@)),
    ensures
        r == b.our_force(ledger_view(ops@), t as int),
{
    proof {
        assert(ops_pending(ledger_view(ops@), false, t) <= u32::MAX);
    }
    let cin = sum_pending(ops, false, t);
    b.infos[t].my_ships as u64 + b.incoming_mine[t] as u64 + cin as u64
}

/// Append the moves of pulled legs toward `f`.
fn append_moves(moves: &mut Vec<Move>, legs: &Vec<(usize, u32)>, f: usize)
    ensures
        final(moves)@ == old(moves)@ + SimpleBoard::legs_to_moves(legs@, f),
{
    let ghost start = moves@;
    let mut j: usize = 0;
    while j < legs.len()
        invariant
            0 <= j <= legs@.len(),
            moves@ == start + SimpleBoard::legs_to_moves(legs@.take(j as int), f),
        decreases legs@.len() - j,
    {
        let (s, c) = legs[j];
        moves.push(Move { src: s, tgt: f, count: c });
        proof {
            assert(SimpleBoard::legs_to_moves(legs@.take(j + 1), f) =~= SimpleBoard::legs_to_moves(
                legs@.take(j as int),
                f,
            ).push(Move { src: s, tgt: f, count: c }));
        }
        j = j + 1;
    }
    assert(legs@.take(legs@.len() as int) =~= legs@);
}

/// Append pulled legs, tagged with their target, to the plan.
fn append_tagged(flat: &mut Vec<(usize, usize, u32)>, legs: &Vec<(usize, u32)>, t: usize)
    ensures
        final(flat)@ == old(flat)@ + SimpleBoard::tag(t, legs@),
{
    let ghost start = flat@;
    let mut j: usize = 0;
    while j < legs.len()
        invariant
            0 <= j <= legs@.len(),
            flat@ == start + SimpleBoard::tag(t, legs@.take(j as int)),
        decreases legs@.len() - j,
    {
        let (s, c) = legs[j];
        flat.push((t, s, c));
        proof {
            assert(SimpleBoard::tag(t, legs@.take(j + 1)) =~= SimpleBoard::tag(t, legs@.take(j as int)).push(
                (t, s, c),
            ));
            assert(start + SimpleBoard::tag(t, legs@.take(j + 1)) =~= (start + SimpleBoard::tag(
                t,
                legs@.take(j as int),
            )).push((t, s, c)));
        }
        j = j + 1;
    }
    assert(legs@.take(legs@.len() as int) =~= legs@);
}

/// Top up every owned fortress to its capacity (while an op is ongoing).
fn man_exec(b: &SimpleBoard, d: SimpleDials, ops: &Vec<Op>, fleeing: &Vec<bool>, avail: &mut Vec<u32>) -> (mm: Vec<Move>)
    requires
        b.wf(),
        ledger_fits(b, ledger_view(ops@)),
        fleeing@.len() == b.n(),
        forall|s: int| 0 <= s < b.n() ==> fleeing@[s] == b.flee(s),
        old(avail)@.len() == b.n(),
    ensures
        (final(avail)@, mm@) == b.man_fold(d, ledger_view(ops@), b.n(), old(avail)@),
        final(avail)@.len() == b.n(),
{
    let n = b.infos.len();
    let ghost a0 = avail@;
    let mut moves: Vec<Move> = Vec::new();
    let mut f: usize = 0;
    while f < n
        invariant
            b.wf(),
            n == b.n(),
            ledger_fits(b, ledger_view(ops@)),
            fleeing@.len() == n,
            forall|s: int| 0 <= s < n ==> fleeing@[s] == b.flee(s),
            0 <= f <= n,
            avail@.len() == n,
            (avail@, moves@) == b.man_fold(d, ledger_view(ops@), f as int, a0),
        decreases n - f,
    {
        match b.fort_capacity[f] {
            None => {},
            Some(cap) => {
                if !fleeing[f] {
                    avail.set(f, 0);
                    let have = our_force_exec(b, ops, f);
                    let deficit: u32 = if (cap as u64) > have {
                        (cap as u64 - have) as u32
                    } else {
                        0
                    };
                    if deficit > 0 {
                        let (legs, _, _) = pull_exec(b, d, f, deficit, avail, false);
                        append_moves(&mut moves, &legs, f);
                    }
                }
            },
        }
        f = f + 1;
    }
    moves
}

/// Some owned sub reaches `t`.
fn reached_exec(b: &SimpleBoard, t: usize) -> (r: bool)
    requires
        b.wf(),
        t < b.n(),
    ensures
        r == b.reached(t as int),
{
    let n = b.infos.len();
    let mut s: usize = 0;
    while s < n
        invariant
            b.wf(),
            n == b.n(),
            t < n,
            0 <= s <= n,
            forall|i: int| 0 <= i < s ==> !(#[trigger] b.owned(i) && b.reach@[i]@[t as int]),
        decreases n - s,
    {
        if b.infos[s].owner == PosOwner::Me && b.reach[s][t] {
            assert(b.owned(s as int));
            return true;
        }
        s = s + 1;
    }
    false
}

/// Some owned sub lies within `range` of `t`.
fn near_owned_exec(b: &SimpleBoard, t: usize, range: u64) -> (r: bool)
    requires
        b.wf(),
        t < b.n(),
    ensures
        r == b.near_owned(t as int, range),
{
    let n = b.infos.len();
    let mut s: usize = 0;
    while s < n
        invariant
            b.wf(),
            n == b.n(),
            t < n,
            0 <= s <= n,
            forall|i: int| 0 <= i < s ==> !(#[trigger] b.owned(i) && b.within(i, t as int, range)),
        decreases n - s,
    {
        let w = match b.dist[s][t] {
            Some(x) => x <= range,
            None => false,
        };
        if b.infos[s].owner == PosOwner::Me && w {
            assert(b.owned(s as int));
            return true;
        }
        s = s + 1;
    }
    false
}

/// The seat owns some sub.
fn any_owned_exec(b: &SimpleBoard) -> (r: bool)
    requires
        b.wf(),
    ensures
        r == b.any_owned(),
{
    let n = b.infos.len();
    let mut s: usize = 0;
    while s < n
        invariant
            b.wf(),
            n == b.n(),
            0 <= s <= n,
            forall|i: int| 0 <= i < s ==> !#[trigger] b.owned(i),
        decreases n - s,
    {
        if b.infos[s].owner == PosOwner::Me {
            assert(b.owned(s as int));
            return true;
        }
        s = s + 1;
    }
    false
}

/// The candidates in planning order.
fn cands_exec(b: &SimpleBoard, d: SimpleDials) -> (r: Vec<usize>)
    requires
        b.wf(),
    ensures
        r@ == b.cands(d),
        forall|i: int| 0 <= i < r@.len() ==> #[trigger] r@[i] < b.n(),
{
    let n = b.infos.len();
    let any = any_owned_exec(b);
    let mut mask: Vec<bool> = Vec::new();
    let mut keys: Vec<(u64, u64)> = Vec::new();
    let mut t: usize = 0;
    while t < n
        invariant
            b.wf(),
            n == b.n(),
            any == b.any_owned(),
            0 <= t <= n,
            mask@.len() == t,
            keys@.len() == t,
            forall|i: int| 0 <= i < t ==> mask@[i] == b.cand_mask(d)[i],
            forall|i: int| 0 <= i < t ==> keys@[i] == b.cand_keys()[i],
        decreases n - t,
    {
        let c = if b.infos[t].owner == PosOwner::Me {
            false
        } else if !reached_exec(b, t) {
            false
        } else {
            match d.adjacency_range {
                None => true,
                Some(r) => !any || near_owned_exec(b, t, r),
            }
        };
        mask.push(c);
        let g: u64 = if b.infos[t].owner != PosOwner::Neutral {
            1
        } else {
            0
        };
        keys.push((g, b.priority[t]));
        t = t + 1;
    }
    assert(mask@ =~= b.cand_mask(d));
    assert(keys@ =~= b.cand_keys());
    let r = sort_ids(&mask, &keys);
    proof {
        lemma_sorted_ids_elems(mask@, keys@);
    }
    r
}

/// Ships already planned toward `t`.
fn planned_to_exec(flat: &Vec<(usize, usize, u32)>, t: usize) -> (r: u128)
    ensures
        r == SimpleBoard::planned_to(flat@, t),
{
    let mut sum: u128 = 0;
    let mut i: usize = 0;
    while i < flat.len()
        invariant
            0 <= i <= flat@.len(),
            sum == SimpleBoard::planned_to(flat@.take(i as int), t),
            sum <= i * 0xffff_ffffu128,
        decreases flat@.len() - i,
    {
        proof {
            assert(flat@.take(i + 1).drop_last() =~= flat@.take(i as int));
        }
        let (tt, _, c) = flat[i];
        if tt == t {
            sum = sum + c as u128;
        }
        i = i + 1;
    }
    assert(flat@.take(flat@.len() as int) =~= flat@);
    sum
}

/// Phase A on candidate `t` (see [`SimpleBoard::phase_a`]).
fn phase_a_exec(
    b: &SimpleBoard,
    d: SimpleDials,
    ops: &Vec<Op>,
    avail: &mut Vec<u32>,
    plan_t: &mut Vec<usize>,
    flat: &mut Vec<(usize, usize, u32)>,
    batch: &mut Vec<usize>,
    t: usize,
)
    requires
        b.wf(),
        t < b.n(),
        ledger_fits(b, ledger_view(ops@)),
        old(avail)@.len() == b.n(),
    ensures
        (final(avail)@, final(plan_t)@, final(flat)@, final(batch)@) == b.phase_a(
            d,
            ledger_view(ops@),
            (old(avail)@, old(plan_t)@, old(flat)@, old(batch)@),
            t,
        ),
        final(avail)@.len() == b.n(),
        forall|s: usize|
            #![trigger taken3(final(flat)@, s)]
            s < b.n() ==> final(avail)@[s as int] + taken3(final(flat)@, s) == old(avail)@[s as int]
                + taken3(old(flat)@, s),
        (forall|i: int| 0 <= i < old(flat)@.len() ==> (#[trigger] old(flat)@[i]).1 < b.n()) ==> (
        forall|i: int| 0 <= i < final(flat)@.len() ==> (#[trigger] final(flat)@[i]).1 < b.n()),
        forall|i: int| 0 <= i < final(batch)@.len() ==> #[trigger] final(batch)@[i] < b.n() || (
        i < old(batch)@.len() && final(batch)@[i] == old(batch)@[i]),
        (forall|i: int| 0 <= i < old(plan_t)@.len() ==> #[trigger] old(plan_t)@[i] < b.n()) ==> (
        forall|i: int| 0 <= i < final(plan_t)@.len() ==> #[trigger] final(plan_t)@[i] < b.n()),
{
    let of = our_force_exec(b, ops, t);
    let mx = b.max_bar[t] as u64;
    if mx <= of {
        return ;
    }
    let mn = b.min_bar[t] as u64;
    let to_min: u32 = if mn > of {
        (mn - of) as u32
    } else {
        0
    };
    let saved = copy_u32s(avail);
    let ghost a_before = avail@;
    let (legs, got, need) = pull_exec(b, d, t, to_min, avail, true);
    if got < need {
        *avail = saved;
        return ;
    }
    proof {
        if to_min != 0 {
            let m = b.pull_mask(d, t as int, a_before);
            let k = b.keys_to(t as int);
            lemma_sorted_ids_elems(m, k);
            let srcs = sorted_ids(m, k);
            lemma_pull_fold_conserves(b, t as int, true, srcs, srcs.len() as int, (a_before, Seq::empty(), 0, to_min as int));
        }
        assert forall|i: int| 0 <= i < legs@.len() implies (#[trigger] legs@[i]).0 < b.n() by {}
        assert forall|s: usize| #![trigger taken3(flat@ + SimpleBoard::tag(t, legs@), s)]
            s < b.n() implies avail@[s as int] + taken3(flat@ + SimpleBoard::tag(t, legs@), s)
            == a_before[s as int] + taken3(flat@, s) by {
            lemma_taken3_tag(flat@, t, legs@, s);
        }
    }
    plan_t.push(t);
    append_tagged(flat, &legs, t);
    batch.push(t);
}

/// Phase B on a secured front `t` (see [`SimpleBoard::deepen`]).
fn deepen_exec(
    b: &SimpleBoard,
    d: SimpleDials,
    ops: &Vec<Op>,
    avail: &mut Vec<u32>,
    flat: &mut Vec<(usize, usize, u32)>,
    t: usize,
)
    requires
        b.wf(),
        t < b.n(),
        ledger_fits(b, ledger_view(ops@)),
        old(avail)@.len() == b.n(),
    ensures
        forall|pt: Seq<usize>, bt: Seq<usize>|
            #![trigger b.deepen(d, ledger_view(ops@), (old(avail)@, pt, old(flat)@, bt), t)]
            (final(avail)@, pt, final(flat)@, bt) == b.deepen(
                d,
                ledger_view(ops@),
                (old(avail)@, pt, old(flat)@, bt),
                t,
            ),
        final(avail)@.len() == b.n(),
        forall|s: usize|
            #![trigger taken3(final(flat)@, s)]
            s < b.n() ==> final(avail)@[s as int] + taken3(final(flat)@, s) == old(avail)@[s as int]
                + taken3(old(flat)@, s),
        (forall|i: int| 0 <= i < old(flat)@.len() ==> (#[trigger] old(flat)@[i]).1 < b.n()) ==> (
        forall|i: int| 0 <= i < final(flat)@.len() ==> (#[trigger] final(flat)@[i]).1 < b.n()),
{
    let of = our_force_exec(b, ops, t);
    let mx = b.max_bar[t] as u64;
    let to_max: u32 = if mx > of {
        (mx - of) as u32
    } else {
        0
    };
    let already = planned_to_exec(flat, t);
    let want: u32 = if (to_max as u128) > already {
        (to_max as u128 - already) as u32
    } else {
        0
    };
    if want > 0 {
        let ghost a_before = avail@;
        let (legs, _, _) = pull_exec(b, d, t, want, avail, true);
        proof {
            let m = b.pull_mask(d, t as int, a_before);
            let k = b.keys_to(t as int);
            lemma_sorted_ids_elems(m, k);
            let srcs = sorted_ids(m, k);
            lemma_pull_fold_conserves(b, t as int, true, srcs, srcs.len() as int, (a_before, Seq::empty(), 0, want as int));
            assert forall|i: int| 0 <= i < legs@.len() implies (#[trigger] legs@[i]).0 < b.n() by {}
            assert forall|s: usize| #![trigger taken3(flat@ + SimpleBoard::tag(t, legs@), s)]
                s < b.n() implies avail@[s as int] + taken3(flat@ + SimpleBoard::tag(t, legs@), s)
                == a_before[s as int] + taken3(flat@, s) by {
                lemma_taken3_tag(flat@, t, legs@, s);
            }
        }
        append_tagged(flat, &legs, t);
    }
}

/// Deepen every front of the batch, then start a new batch (see [`SimpleBoard::flush`]).
fn flush_exec(
    b: &SimpleBoard,
    d: SimpleDials,
    ops: &Vec<Op>,
    avail: &mut Vec<u32>,
    plan_t: &Vec<usize>,
    flat: &mut Vec<(usize, usize, u32)>,
    batch: &mut Vec<usize>,
)
    requires
        b.wf(),
        ledger_fits(b, ledger_view(ops@)),
        old(avail)@.len() == b.n(),
        forall|i: int| 0 <= i < old(batch)@.len() ==> #[trigger] old(batch)@[i] < b.n(),
        forall|i: int| 0 <= i < old(flat)@.len() ==> (#[trigger] old(flat)@[i]).1 < b.n(),
    ensures
        (final(avail)@, plan_t@, final(flat)@, final(batch)@) == b.flush(
            d,
            ledger_view(ops@),
            (old(avail)@, plan_t@, old(flat)@, old(batch)@),
        ),
        final(avail)@.len() == b.n(),
        forall|s: usize|
            #![trigger taken3(final(flat)@, s)]
            s < b.n() ==> final(avail)@[s as int] + taken3(final(flat)@, s) == old(avail)@[s as int]
                + taken3(old(flat)@, s),
        forall|i: int| 0 <= i < final(flat)@.len() ==> (#[trigger] final(flat)@[i]).1 < b.n(),
{
    let ghost st0 = (avail@, plan_t@, flat@, batch@);
    let ghost a0 = avail@;
    let ghost f0 = flat@;
    let mut k: usize = 0;
    while k < batch.len()
        invariant
            b.wf(),
            ledger_fits(b, ledger_view(ops@)),
            avail@.len() == b.n(),
            batch@ == st0.3,
            forall|i: int| 0 <= i < batch@.len() ==> #[trigger] batch@[i] < b.n(),
            forall|i: int| 0 <= i < flat@.len() ==> (#[trigger] flat@[i]).1 < b.n(),
            0 <= k <= batch@.len(),
            (avail@, plan_t@, flat@, batch@) == b.deepen_fold(d, ledger_view(ops@), st0, st0.3, k as int),
            forall|s: usize|
                #![trigger taken3(flat@, s)]
                s < b.n() ==> avail@[s as int] + taken3(flat@, s) == a0[s as int] + taken3(f0, s),
        decreases batch@.len() - k,
    {
        let t = batch[k];
        let ghost fa = flat@;
        let ghost aa = avail@;
        deepen_exec(b, d, ops, avail, flat, t);
        proof {
            assert(b.deepen(d, ledger_view(ops@), (aa, plan_t@, fa, batch@), t) == (
            avail@, plan_t@, flat@, batch@));
            assert forall|s: usize| #![trigger taken3(flat@, s)]
                s < b.n() implies avail@[s as int] + taken3(flat@, s) == a0[s as int] + taken3(f0, s) by {
                assert(aa[s as int] + taken3(fa, s) == a0[s as int] + taken3(f0, s));
            }
        }
        k = k + 1;
    }
    batch.clear();
    proof {
        assert(batch@ =~= Seq::<usize>::empty());
    }
}

/// The whole planning phase (see [`SimpleBoard::plan`]): `(stock after, planned targets,
/// planned legs)`.
fn plan_exec(b: &SimpleBoard, d: SimpleDials, ops: &Vec<Op>, avail: Vec<u32>, cands: &Vec<usize>) -> (r: (
    Vec<u32>,
    Vec<usize>,
    Vec<(usize, usize, u32)>,
))
    requires
        b.wf(),
        ledger_fits(b, ledger_view(ops@)),
        avail@.len() == b.n(),
        cands@ == b.cands(d),
        forall|i: int| 0 <= i < cands@.len() ==> #[trigger] cands@[i] < b.n(),
    ensures
        r.0@ == b.plan(d, ledger_view(ops@), avail@).0,
        r.1@ == b.plan(d, ledger_view(ops@), avail@).1,
        r.2@ == b.plan(d, ledger_view(ops@), avail@).2,
        r.0@.len() == b.n(),
        forall|s: usize|
            #![trigger taken3(r.2@, s)]
            s < b.n() ==> r.0@[s as int] + taken3(r.2@, s) == avail@[s as int],
        forall|i: int| 0 <= i < r.2@.len() ==> (#[trigger] r.2@[i]).1 < b.n(),
        forall|i: int| 0 <= i < r.1@.len() ==> #[trigger] r.1@[i] < b.n(),
{
    let ghost a0 = avail@;
    let ghost init = (a0, Seq::<usize>::empty(), Seq::<(usize, usize, u32)>::empty(), Seq::<usize>::empty());
    let mut av = avail;
    let mut plan_t: Vec<usize> = Vec::new();
    let mut flat: Vec<(usize, usize, u32)> = Vec::new();
    let mut batch: Vec<usize> = Vec::new();
    if d.fronts == 0 {
        return (av, plan_t, flat);
    }
    let mut k: usize = 0;
    while k < cands.len()
        invariant
            b.wf(),
            ledger_fits(b, ledger_view(ops@)),
            d.fronts > 0,
            cands@ == b.cands(d),
            forall|i: int| 0 <= i < cands@.len() ==> #[trigger] cands@[i] < b.n(),
            av@.len() == b.n(),
            0 <= k <= cands@.len(),
            (av@, plan_t@, flat@, batch@) == b.plan_fold(d, ledger_view(ops@), cands@, k as int, init),
            forall|i: int| 0 <= i < batch@.len() ==> #[trigger] batch@[i] < b.n(),
            forall|i: int| 0 <= i < flat@.len() ==> (#[trigger] flat@[i]).1 < b.n(),
            forall|i: int| 0 <= i < plan_t@.len() ==> #[trigger] plan_t@[i] < b.n(),
            forall|s: usize|
                #![trigger taken3(flat@, s)]
                s < b.n() ==> av@[s as int] + taken3(flat@, s) == a0[s as int],
        decreases cands@.len() - k,
    {
        let t = cands[k];
        let ghost fa = flat@;
        let ghost aa = av@;
        phase_a_exec(b, d, ops, &mut av, &mut plan_t, &mut flat, &mut batch, t);
        proof {
            assert forall|s: usize| #![trigger taken3(flat@, s)]
                s < b.n() implies av@[s as int] + taken3(flat@, s) == a0[s as int] by {
                assert(aa[s as int] + taken3(fa, s) == a0[s as int]);
            }
        }
        if batch.len() >= d.fronts {
            let ghost fb = flat@;
            let ghost ab = av@;
            flush_exec(b, d, ops, &mut av, &plan_t, &mut flat, &mut batch);
            proof {
                assert forall|s: usize| #![trigger taken3(flat@, s)]
                    s < b.n() implies av@[s as int] + taken3(flat@, s) == a0[s as int] by {
                    assert(ab[s as int] + taken3(fb, s) == a0[s as int]);
                }
            }
        }
        k = k + 1;
    }
    let ghost fb = flat@;
    let ghost ab = av@;
    flush_exec(b, d, ops, &mut av, &plan_t, &mut flat, &mut batch);
    proof {
        assert forall|s: usize| #![trigger taken3(flat@, s)]
            s < b.n() implies av@[s as int] + taken3(flat@, s) == a0[s as int] by {
            assert(ab[s as int] + taken3(fb, s) == a0[s as int]);
        }
    }
    (av, plan_t, flat)
}

/// Some sub flees.
fn any_true(v: &Vec<bool>) -> (r: bool)
    ensures
        r == exists|i: int| 0 <= i < v@.len() && #[trigger] v@[i],
{
    let mut i: usize = 0;
    while i < v.len()
        invariant
            0 <= i <= v@.len(),
            forall|j: int| 0 <= j < i ==> !#[trigger] v@[j],
        decreases v@.len() - i,
    {
        if v[i] {
            return true;
        }
        i = i + 1;
    }
    false
}

/// Least travel from any owned sub that reaches `t`.
fn nearest_owned_travel_exec(b: &SimpleBoard, t: usize) -> (r: u64)
    requires
        b.wf(),
        t < b.n(),
    ensures
        r == b.nearest_owned_travel(t as int),
{
    let n = b.infos.len();
    let mut mask: Vec<bool> = Vec::new();
    let mut s: usize = 0;
    while s < n
        invariant
            b.wf(),
            n == b.n(),
            t < n,
            0 <= s <= n,
            mask@.len() == s,
            forall|i: int| 0 <= i < s ==> mask@[i] == (b.owned(i) && b.reach@[i]@[t as int]),
        decreases n - s,
    {
        mask.push(b.infos[s].owner == PosOwner::Me && b.reach[s][t]);
        s = s + 1;
    }
    assert(mask@ =~= Seq::new(b.n() as nat, |i: int| b.owned(i) && b.reach@[i]@[t as int]));
    let keys = keys_to_exec(b, t);
    match next_id_exec(&mask, &keys, None) {
        Some(x) => travel_exec(b, x, t),
        None => u64::MAX,
    }
}

/// The holdout to mop up.
fn holdout_exec(b: &SimpleBoard) -> (r: Option<usize>)
    requires
        b.wf(),
    ensures
        r == b.holdout(),
        r matches Some(t) ==> t < b.n(),
{
    let n = b.infos.len();
    let mut mask: Vec<bool> = Vec::new();
    let mut keys: Vec<(u64, u64)> = Vec::new();
    let mut s: usize = 0;
    while s < n
        invariant
            b.wf(),
            n == b.n(),
            0 <= s <= n,
            mask@.len() == s,
            keys@.len() == s,
            forall|i: int| 0 <= i < s ==> mask@[i] == (b.en(i) > 0 || b.enemy_incoming@[i] > 0),
            forall|i: int| 0 <= i < s ==> keys@[i] == (b.nearest_owned_travel(i), 0u64),
        decreases n - s,
    {
        mask.push(b.infos[s].enemy_ships > 0 || b.enemy_incoming[s] > 0);
        keys.push((nearest_owned_travel_exec(b, s), 0u64));
        s = s + 1;
    }
    assert(mask@ =~= Seq::new(b.n() as nat, |i: int| b.en(i) > 0 || b.enemy_incoming@[i] > 0));
    assert(keys@ =~= Seq::new(b.n() as nat, |i: int| (b.nearest_owned_travel(i), 0u64)));
    next_id_exec(&mask, &keys, None)
}

/// Total spendable ships.
fn total_exec(avail: &Vec<u32>) -> (r: u128)
    ensures
        r == SimpleBoard::total(avail@),
{
    let mut sum: u128 = 0;
    let mut i: usize = 0;
    while i < avail.len()
        invariant
            0 <= i <= avail@.len(),
            sum == SimpleBoard::total(avail@.take(i as int)),
            sum <= i * 0xffff_ffffu128,
        decreases avail@.len() - i,
    {
        proof {
            assert(avail@.take(i + 1).drop_last() =~= avail@.take(i as int));
        }
        sum = sum + avail[i] as u128;
        i = i + 1;
    }
    assert(avail@.take(avail@.len() as int) =~= avail@);
    sum
}

/// Mop-up (see [`SimpleBoard::mop_up`]).
fn mop_up_exec(
    b: &SimpleBoard,
    d: SimpleDials,
    ops: &Vec<Op>,
    fleeing: &Vec<bool>,
    cands: &Vec<usize>,
    avail: &mut Vec<u32>,
    plan_t: &mut Vec<usize>,
    flat: &mut Vec<(usize, usize, u32)>,
)
    requires
        b.wf(),
        ledger_fits(b, ledger_view(ops@)),
        fleeing@.len() == b.n(),
        forall|s: int| 0 <= s < b.n() ==> fleeing@[s] == b.flee(s),
        cands@ == b.cands(d),
        forall|i: int| 0 <= i < cands@.len() ==> #[trigger] cands@[i] < b.n(),
        old(avail)@.len() == b.n(),
        forall|i: int| 0 <= i < old(flat)@.len() ==> (#[trigger] old(flat)@[i]).1 < b.n(),
    ensures
        forall|bt: Seq<usize>|
            #![trigger b.mop_up(d, ledger_view(ops@), (old(avail)@, old(plan_t)@, old(flat)@, bt))]
            b.mop_up(d, ledger_view(ops@), (old(avail)@, old(plan_t)@, old(flat)@, bt)) == (
            final(avail)@, final(plan_t)@, final(flat)@, bt),
        final(avail)@.len() == b.n(),
        forall|s: usize|
            #![trigger taken3(final(flat)@, s)]
            s < b.n() ==> final(avail)@[s as int] + taken3(final(flat)@, s) == old(avail)@[s as int]
                + taken3(old(flat)@, s),
        forall|i: int| 0 <= i < final(flat)@.len() ==> (#[trigger] final(flat)@[i]).1 < b.n(),
        (forall|i: int| 0 <= i < old(plan_t)@.len() ==> #[trigger] old(plan_t)@[i] < b.n()) ==> (
        forall|i: int| 0 <= i < final(plan_t)@.len() ==> #[trigger] final(plan_t)@[i] < b.n()),
{
    if plan_t.len() > 0 {
        return ;
    }
    let fl = any_true(fleeing);
    proof {
        if fl {
            let i = choose|i: int| 0 <= i < fleeing@.len() && #[trigger] fleeing@[i];
            assert(b.flee(i));
        }
        if b.any_flee() {
            let i = choose|i: int| 0 <= i < b.n() && #[trigger] b.flee(i);
            assert(fleeing@[i]);
        }
    }
    if fl {
        return ;
    }
    let mut room = false;
    let mut i: usize = 0;
    while i < cands.len()
        invariant
            b.wf(),
            ledger_fits(b, ledger_view(ops@)),
            cands@ == b.cands(d),
            forall|j: int| 0 <= j < cands@.len() ==> #[trigger] cands@[j] < b.n(),
            0 <= i <= cands@.len(),
            room == exists|j: int|
                0 <= j < i && sat(
                    b.max_bar@[#[trigger] b.cands(d)[j] as int] as int,
                    b.our_force(ledger_view(ops@), b.cands(d)[j] as int),
                ) > 0,
        decreases cands@.len() - i,
    {
        let t = cands[i];
        let of = our_force_exec(b, ops, t);
        if (b.max_bar[t] as u64) > of {
            room = true;
        }
        i = i + 1;
    }
    if room {
        return ;
    }
    match holdout_exec(b) {
        None => {},
        Some(t) => {
            let of = our_force_exec(b, ops, t);
            let mn = b.min_bar[t] as u64;
            let bar: u32 = if mn > of {
                (mn - of) as u32
            } else {
                0
            };
            let total = total_exec(avail);
            let want: u32 = if (bar as u128) <= total {
                bar
            } else {
                total as u32
            };
            if bar > 0 && want > 0 {
                let ghost a_before = avail@;
                let (legs, got, _) = pull_exec(b, d, t, want, avail, true);
                proof {
                    let m = b.pull_mask(d, t as int, a_before);
                    let k = b.keys_to(t as int);
                    lemma_sorted_ids_elems(m, k);
                    let srcs = sorted_ids(m, k);
                    lemma_pull_fold_conserves(b, t as int, true, srcs, srcs.len() as int, (a_before, Seq::empty(), 0, want as int));
                    assert forall|i: int| 0 <= i < legs@.len() implies (#[trigger] legs@[i]).0 < b.n() by {}
                    assert forall|s: usize| #![trigger taken3(flat@ + SimpleBoard::tag(t, legs@), s)]
                        s < b.n() implies avail@[s as int] + taken3(flat@ + SimpleBoard::tag(t, legs@), s)
                        == a_before[s as int] + taken3(flat@, s) by {
                        lemma_taken3_tag(flat@, t, legs@, s);
                    }
                }
                if got > 0 {
                    plan_t.push(t);
                }
                append_tagged(flat, &legs, t);
            }
        },
    }
}

/// The next hop of `s`'s surplus toward the mustering sub `m`.
fn stage_hop_exec(b: &SimpleBoard, d: SimpleDials, s: usize, m: usize) -> (r: Option<usize>)
    requires
        b.wf(),
        s < b.n(),
        m < b.n(),
    ensures
        r == b.stage_hop(d, s as int, m),
{
    match d.adjacency_range {
        None => Some(m),
        Some(range) => {
            let dm = match b.dist[s][m] {
                Some(x) => x,
                None => FAR,
            };
            if dm <= range {
                Some(m)
            } else {
                let n = b.infos.len();
                let mut mask: Vec<bool> = Vec::new();
                let mut h: usize = 0;
                while h < n
                    invariant
                        b.wf(),
                        n == b.n(),
                        s < n,
                        m < n,
                        d.adjacency_range == Some(range),
                        dm == b.dist_or_far(s as int, m as int),
                        0 <= h <= n,
                        mask@.len() == h,
                        forall|i: int|
                            0 <= i < h ==> mask@[i] == b.relay(s as int, m as int, dm, range, i),
                    decreases n - h,
                {
                    let w = match b.dist[s][h] {
                        Some(x) => x <= range,
                        None => false,
                    };
                    let closer = match b.dist[h][m] {
                        Some(x) => x < dm,
                        None => false,
                    };
                    mask.push(
                        h != s && b.infos[h].owner == PosOwner::Me && b.fort_capacity[h].is_none()
                            && b.reach[s][h] && w && closer,
                    );
                    h = h + 1;
                }
                assert(mask@ =~= Seq::new(
                    b.n() as nat,
                    |i: int| b.relay(s as int, m as int, dm, range, i),
                ));
                let keys = dist_keys_to_exec(b, m);
                next_id_exec(&mask, &keys, None)
            }
        },
    }
}

/// Staging (see [`SimpleBoard::stage`]).
fn stage_exec(
    b: &SimpleBoard,
    d: SimpleDials,
    ops: &Vec<Op>,
    fleeing: &Vec<bool>,
    pinned: &Vec<bool>,
    cands: &Vec<usize>,
    plan_t: &Vec<usize>,
) -> (r: Vec<Move>)
    requires
        b.wf(),
        fleeing@.len() == b.n(),
        pinned@.len() == b.n(),
        forall|s: int| 0 <= s < b.n() ==> fleeing@[s] == b.flee(s) && pinned@[s] == b.pin(s),
        cands@ == b.cands(d),
        forall|i: int| 0 <= i < cands@.len() ==> #[trigger] cands@[i] < b.n(),
    ensures
        r@ == b.stage(d, ledger_view(ops@), plan_t@),
{
    let fl = any_true(fleeing);
    proof {
        if fl {
            let i = choose|i: int| 0 <= i < fleeing@.len() && #[trigger] fleeing@[i];
            assert(b.flee(i));
        }
        if b.any_flee() {
            let i = choose|i: int| 0 <= i < b.n() && #[trigger] b.flee(i);
            assert(fleeing@[i]);
        }
    }
    if plan_t.len() > 0 || cands.len() == 0 || ops.len() > 0 || fl {
        return Vec::new();
    }
    let n = b.infos.len();
    let target = cands[0];
    let mut mask: Vec<bool> = Vec::new();
    let mut s: usize = 0;
    while s < n
        invariant
            b.wf(),
            n == b.n(),
            0 <= s <= n,
            mask@.len() == s,
            forall|i: int| 0 <= i < s ==> mask@[i] == (b.owned(i) && !b.fort(i)),
        decreases n - s,
    {
        mask.push(b.infos[s].owner == PosOwner::Me && b.fort_capacity[s].is_none());
        s = s + 1;
    }
    assert(mask@ =~= Seq::new(b.n() as nat, |i: int| b.owned(i) && !b.fort(i)));
    let keys = keys_to_exec(b, target);
    let muster = next_id_exec(&mask, &keys, None);
    match muster {
        None => Vec::new(),
        Some(m) => {
            let mut moves: Vec<Move> = Vec::new();
            let mut s: usize = 0;
            while s < n
                invariant
                    b.wf(),
                    n == b.n(),
                    m < n,
                    fleeing@.len() == n,
                    pinned@.len() == n,
                    forall|i: int| 0 <= i < n ==> fleeing@[i] == b.flee(i) && pinned@[i] == b.pin(i),
                    0 <= s <= n,
                    moves@ == b.stage_moves(d, m, s as int),
                decreases n - s,
            {
                let i = b.infos[s];
                let surplus: u32 = if i.my_ships > d.floor {
                    i.my_ships - d.floor
                } else {
                    0
                };
                if !(s == m || i.owner != PosOwner::Me || b.fort_capacity[s].is_some() || fleeing[s]
                    || pinned[s] || surplus == 0) {
                    match stage_hop_exec(b, d, s, m) {
                        Some(h) => {
                            moves.push(Move { src: s, tgt: h, count: surplus });
                        },
                        None => {},
                    }
                }
                s = s + 1;
            }
            moves
        },
    }
}

/// The owned subs other than `s` that `s` reaches.
fn friends_mask(b: &SimpleBoard, s: usize) -> (r: Vec<bool>)
    requires
        b.wf(),
        s < b.n(),
    ensures
        r@ == Seq::new(b.n() as nat, |j: int| b.friend(s as int, j)),
{
    let n = b.infos.len();
    let mut mask: Vec<bool> = Vec::new();
    let mut t: usize = 0;
    while t < n
        invariant
            b.wf(),
            n == b.n(),
            s < n,
            0 <= t <= n,
            mask@.len() == t,
            forall|j: int| 0 <= j < t ==> mask@[j] == b.friend(s as int, j),
        decreases n - t,
    {
        mask.push(t != s && b.infos[t].owner == PosOwner::Me && b.reach[s][t]);
        t = t + 1;
    }
    assert(mask@ =~= Seq::new(b.n() as nat, |j: int| b.friend(s as int, j)));
    mask
}

/// Consolidation (see [`SimpleBoard::consolidate`]).
fn consolidate_exec(
    b: &SimpleBoard,
    d: SimpleDials,
    ops: &Vec<Op>,
    fleeing: &Vec<bool>,
    pinned: &Vec<bool>,
    cands: &Vec<usize>,
    plan_t: &Vec<usize>,
) -> (r: Vec<Move>)
    requires
        b.wf(),
        fleeing@.len() == b.n(),
        pinned@.len() == b.n(),
        forall|s: int| 0 <= s < b.n() ==> fleeing@[s] == b.flee(s) && pinned@[s] == b.pin(s),
        cands@ == b.cands(d),
    ensures
        r@ == b.consolidate(d, ledger_view(ops@), plan_t@),
{
    let fl = any_true(fleeing);
    let pn = any_true(pinned);
    proof {
        if fl {
            let i = choose|i: int| 0 <= i < fleeing@.len() && #[trigger] fleeing@[i];
            assert(b.flee(i));
        }
        if b.any_flee() {
            let i = choose|i: int| 0 <= i < b.n() && #[trigger] b.flee(i);
            assert(fleeing@[i]);
        }
        if pn {
            let i = choose|i: int| 0 <= i < pinned@.len() && #[trigger] pinned@[i];
            assert(b.pin(i));
        }
        if b.any_pin() {
            let i = choose|i: int| 0 <= i < b.n() && #[trigger] b.pin(i);
            assert(pinned@[i]);
        }
    }
    if plan_t.len() > 0 || cands.len() > 0 || ops.len() > 0 || fl || pn {
        return Vec::new();
    }
    let n = b.infos.len();
    let mut moves: Vec<Move> = Vec::new();
    let mut s: usize = 0;
    while s < n
        invariant
            b.wf(),
            n == b.n(),
            0 <= s <= n,
            moves@ == b.consolidate_moves(d, s as int),
        decreases n - s,
    {
        let i = b.infos[s];
        let cap = b.capacity[s];
        if i.owner == PosOwner::Me && (i.my_ships as u64) > (cap as u64) + (d.consolidate_margin as u64) {
            let mask = friends_mask(b, s);
            let keys = keys_from_exec(b, s);
            match next_id_exec(&mask, &keys, None) {
                Some(t) => {
                    moves.push(Move { src: s, tgt: t, count: i.my_ships - cap });
                },
                None => {},
            }
        }
        s = s + 1;
    }
    moves
}

// =====================================================================================
// Commit and dispatch: lemmas.
// =====================================================================================

/// `find_src` reads only the sources.
proof fn lemma_find_src_sources(c1: Seq<(usize, u32)>, c2: Seq<(usize, u32)>, s: usize)
    requires
        c1.len() == c2.len(),
        forall|j: int| 0 <= j < c1.len() ==> (#[trigger] c1[j]).0 == c2[j].0,
    ensures
        SimpleBoard::find_src(c1, s) == SimpleBoard::find_src(c2, s),
    decreases c1.len(),
{
    if c1.len() > 0 {
        lemma_find_src_sources(c1.drop_last(), c2.drop_last(), s);
        assert(c1.last().0 == c2.last().0);
    }
}

/// `find_src` names an entry with that source, or there is none.
proof fn lemma_find_src(c: Seq<(usize, u32)>, s: usize)
    ensures
        -1 <= SimpleBoard::find_src(c, s) < c.len(),
        SimpleBoard::find_src(c, s) >= 0 ==> c[SimpleBoard::find_src(c, s)].0 == s,
        SimpleBoard::find_src(c, s) == -1 ==> forall|j: int| 0 <= j < c.len() ==> (#[trigger] c[j]).0 != s,
    decreases c.len(),
{
    if c.len() > 0 {
        lemma_find_src(c.drop_last(), s);
        assert forall|j: int| 0 <= j < c.len() - 1 implies #[trigger] c[j] == c.drop_last()[j] by {}
    }
}

/// A prefix of pulled legs takes no more than the whole list.
proof fn lemma_taken_prefix(legs: Seq<(usize, u32)>, j: int, s: usize)
    requires
        0 <= j <= legs.len(),
    ensures
        taken(legs.take(j), s) <= taken(legs, s),
    decreases legs.len() - j,
{
    if j < legs.len() {
        lemma_taken_prefix(legs, j + 1, s);
        assert(legs.take(j + 1).drop_last() =~= legs.take(j));
    } else {
        assert(legs.take(j) =~= legs);
    }
}

/// Merged legs: each entry carries everything its source takes, every source of the merge is
/// a source of the legs, and a source absent from the merge takes nothing.
proof fn lemma_coalesce(legs: Seq<(usize, u32)>, n: int)
    requires
        forall|s: usize| #[trigger] taken(legs, s) <= u32::MAX,
        forall|i: int| 0 <= i < legs.len() ==> (#[trigger] legs[i]).0 < n,
    ensures
        forall|s: usize|
            #![trigger SimpleBoard::find_src(SimpleBoard::coalesce(legs), s)]
            SimpleBoard::find_src(SimpleBoard::coalesce(legs), s) >= 0 ==> SimpleBoard::coalesce(
                legs,
            )[SimpleBoard::find_src(SimpleBoard::coalesce(legs), s)].1 == taken(legs, s),
        forall|s: usize|
            #![trigger SimpleBoard::find_src(SimpleBoard::coalesce(legs), s)]
            SimpleBoard::find_src(SimpleBoard::coalesce(legs), s) == -1 ==> taken(legs, s) == 0,
        forall|i: int|
            0 <= i < SimpleBoard::coalesce(legs).len() ==> (#[trigger] SimpleBoard::coalesce(legs)[i]).0
                < n,
    decreases legs.len(),
{
    if legs.len() > 0 {
        let l0 = legs.drop_last();
        assert forall|s: usize| #[trigger] taken(l0, s) <= u32::MAX by {
            lemma_taken_nonneg(l0, s);
            lemma_taken_nonneg(legs, s);
            assert(taken(legs, s) <= u32::MAX);
        }
        assert forall|i: int| 0 <= i < l0.len() implies (#[trigger] l0[i]).0 < n by {
            assert(l0[i] == legs[i]);
        }
        lemma_coalesce(l0, n);
        let c0 = SimpleBoard::coalesce(l0);
        let (s0, k) = legs.last();
        let i0 = SimpleBoard::find_src(c0, s0);
        lemma_find_src(c0, s0);
        let c = SimpleBoard::coalesce(legs);
        if i0 >= 0 {
            assert(c == c0.update(i0, (s0, (c0[i0].1 + k) as u32)));
            assert forall|s: usize| #![trigger SimpleBoard::find_src(c, s)]
                SimpleBoard::find_src(c, s) == SimpleBoard::find_src(c0, s) by {
                lemma_find_src_sources(c, c0, s);
            }
            assert forall|s: usize| #![trigger SimpleBoard::find_src(c, s)]
                SimpleBoard::find_src(c, s) >= 0 implies c[SimpleBoard::find_src(c, s)].1 == taken(
                legs,
                s,
            ) by {
                lemma_find_src(c0, s);
                assert(taken(legs, s0) <= u32::MAX);
            }
        } else {
            assert(c == c0.push((s0, k)));
            assert forall|s: usize| #![trigger SimpleBoard::find_src(c, s)]
                SimpleBoard::find_src(c, s) >= 0 implies c[SimpleBoard::find_src(c, s)].1 == taken(
                legs,
                s,
            ) by {
                assert(c.drop_last() =~= c0);
                lemma_find_src(c0, s);
            }
            assert forall|s: usize| #![trigger SimpleBoard::find_src(c, s)]
                SimpleBoard::find_src(c, s) == -1 implies taken(legs, s) == 0 by {
                assert(c.drop_last() =~= c0);
                assert(c.last() == (s0, k));
                let f0 = SimpleBoard::find_src(c0, s);
                assert(f0 == -1);
                assert(s != s0);
                assert(taken(l0, s) == 0);
            }
        }
    }
}

/// The planned legs toward `t` take no more from a source than the whole plan.
proof fn lemma_legs_of_taken(flat: Seq<(usize, usize, u32)>, t: usize, s: usize)
    ensures
        taken(SimpleBoard::legs_of(flat, t), s) <= taken3(flat, s),
        forall|i: int|
            0 <= i < SimpleBoard::legs_of(flat, t).len() ==> exists|j: int|
                0 <= j < flat.len() && (#[trigger] SimpleBoard::legs_of(flat, t)[i]).0 == flat[j].1,
    decreases flat.len(),
{
    if flat.len() > 0 {
        lemma_legs_of_taken(flat.drop_last(), t, s);
        let prev = SimpleBoard::legs_of(flat.drop_last(), t);
        if flat.last().0 == t {
            assert(SimpleBoard::legs_of(flat, t).drop_last() =~= prev);
        }
        assert forall|i: int| 0 <= i < SimpleBoard::legs_of(flat, t).len() implies exists|j: int|
            0 <= j < flat.len() && (#[trigger] SimpleBoard::legs_of(flat, t)[i]).0 == flat[j].1 by {
            if i < prev.len() {
                let j = choose|j: int| 0 <= j < flat.drop_last().len() && prev[i].0 == flat.drop_last()[j].1;
                assert(flat[j] == flat.drop_last()[j]);
            } else {
                assert(SimpleBoard::legs_of(flat, t)[i].0 == flat[flat.len() - 1].1);
            }
        }
    }
}

/// A plan whose legs all come from subs takes nothing from a position beyond the board.
proof fn lemma_taken3_outside(flat: Seq<(usize, usize, u32)>, s: usize, n: int)
    requires
        forall|i: int| 0 <= i < flat.len() ==> (#[trigger] flat[i]).1 < n,
        s >= n,
    ensures
        taken3(flat, s) == 0,
    decreases flat.len(),
{
    if flat.len() > 0 {
        assert forall|i: int| 0 <= i < flat.drop_last().len() implies (#[trigger] flat.drop_last()[i]).1 < n by {
            assert(flat.drop_last()[i] == flat[i]);
        }
        lemma_taken3_outside(flat.drop_last(), s, n);
    }
}

// =====================================================================================
// Commit and dispatch: implementation.
// =====================================================================================

/// The planned legs toward `t`, in planning order.
fn legs_of_exec(flat: &Vec<(usize, usize, u32)>, t: usize) -> (r: Vec<(usize, u32)>)
    ensures
        r@ == SimpleBoard::legs_of(flat@, t),
{
    let mut r: Vec<(usize, u32)> = Vec::new();
    let mut i: usize = 0;
    while i < flat.len()
        invariant
            0 <= i <= flat@.len(),
            r@ == SimpleBoard::legs_of(flat@.take(i as int), t),
        decreases flat@.len() - i,
    {
        proof {
            assert(flat@.take(i + 1).drop_last() =~= flat@.take(i as int));
        }
        let (tt, s, c) = flat[i];
        if tt == t {
            r.push((s, c));
        }
        i = i + 1;
    }
    assert(flat@.take(flat@.len() as int) =~= flat@);
    r
}

/// The index of the entry with source `s`.
fn find_src_exec(c: &Vec<(usize, u32)>, s: usize) -> (r: Option<usize>)
    ensures
        match r {
            Some(i) => i as int == SimpleBoard::find_src(c@, s),
            None => SimpleBoard::find_src(c@, s) == -1,
        },
{
    let mut i: usize = 0;
    while i < c.len()
        invariant
            0 <= i <= c@.len(),
            SimpleBoard::find_src(c@.take(i as int), s) == -1,
        decreases c@.len() - i,
    {
        proof {
            assert(c@.take(i + 1).drop_last() =~= c@.take(i as int));
        }
        if c[i].0 == s {
            proof {
                lemma_find_src_prefix(c@, i + 1, s);
            }
            return Some(i);
        }
        i = i + 1;
    }
    assert(c@.take(c@.len() as int) =~= c@);
    None
}

/// A match found in a prefix is the match of the whole list.
proof fn lemma_find_src_prefix(c: Seq<(usize, u32)>, k: int, s: usize)
    requires
        0 <= k <= c.len(),
        SimpleBoard::find_src(c.take(k), s) >= 0,
    ensures
        SimpleBoard::find_src(c, s) == SimpleBoard::find_src(c.take(k), s),
    decreases c.len() - k,
{
    if k < c.len() {
        assert(c.take(k + 1).drop_last() =~= c.take(k));
        lemma_find_src_prefix(c, k + 1, s);
    } else {
        assert(c.take(k) =~= c);
    }
}

/// Merge legs per source, in first-appearance order.
fn coalesce_exec(legs: &Vec<(usize, u32)>) -> (r: Vec<(usize, u32)>)
    requires
        forall|s: usize| #[trigger] taken(legs@, s) <= u32::MAX,
    ensures
        r@ == SimpleBoard::coalesce(legs@),
{
    let mut c: Vec<(usize, u32)> = Vec::new();
    let mut j: usize = 0;
    while j < legs.len()
        invariant
            0 <= j <= legs@.len(),
            forall|s: usize| #[trigger] taken(legs@, s) <= u32::MAX,
            c@ == SimpleBoard::coalesce(legs@.take(j as int)),
        decreases legs@.len() - j,
    {
        let (s, k) = legs[j];
        let ghost lj = legs@.take(j + 1);
        proof {
            assert(lj.drop_last() =~= legs@.take(j as int));
            assert(lj.last() == (s, k));
            assert forall|x: usize| #[trigger] taken(legs@.take(j as int), x) <= u32::MAX by {
                lemma_taken_prefix(legs@, j as int, x);
            }
            assert forall|i: int| 0 <= i < legs@.take(j as int).len() implies (#[trigger] legs@.take(j as int)[i]).0 < usize::MAX + 1 by {}
            lemma_coalesce(legs@.take(j as int), usize::MAX + 1);
            lemma_taken_prefix(legs@, j + 1, s);
        }
        match find_src_exec(&c, s) {
            Some(i) => {
                proof {
                    lemma_find_src(c@, s);
                    assert(c@[i as int].1 + k == taken(lj, s));
                }
                let merged: u32 = c[i].1 + k;
                c.set(i, (s, merged));
            },
            None => {
                c.push((s, k));
            },
        }
        j = j + 1;
    }
    assert(legs@.take(legs@.len() as int) =~= legs@);
    c
}

/// The longest travel of the merged legs to `t`.
fn max_travel_exec(b: &SimpleBoard, c: &Vec<(usize, u32)>, t: usize) -> (r: u64)
    requires
        b.wf(),
        t < b.n(),
        forall|i: int| 0 <= i < c@.len() ==> (#[trigger] c@[i]).0 < b.n(),
    ensures
        r == b.max_travel(c@, t as int),
{
    let mut m: u64 = 0;
    let mut i: usize = 0;
    while i < c.len()
        invariant
            b.wf(),
            t < b.n(),
            forall|k: int| 0 <= k < c@.len() ==> (#[trigger] c@[k]).0 < b.n(),
            0 <= i <= c@.len(),
            m == b.max_travel(c@.take(i as int), t as int),
        decreases c@.len() - i,
    {
        proof {
            assert(c@.take(i + 1).drop_last() =~= c@.take(i as int));
        }
        let tr = travel_exec(b, c[i].0, t);
        if tr > m {
            m = tr;
        }
        i = i + 1;
    }
    assert(c@.take(c@.len() as int) =~= c@);
    m
}

/// The latest landing of a ledger op on `t`, at least `floor`.
fn latest_landing_exec(ops: &Vec<Op>, t: usize, floor: u64) -> (r: u64)
    ensures
        r == SimpleBoard::latest_landing(ledger_view(ops@), t, floor),
{
    let ghost lv = ledger_view(ops@);
    let mut m: u64 = floor;
    let mut i: usize = 0;
    while i < ops.len()
        invariant
            lv == ledger_view(ops@),
            0 <= i <= ops@.len(),
            m == SimpleBoard::latest_landing(lv.take(i as int), t, floor),
        decreases ops@.len() - i,
    {
        proof {
            assert(lv.take(i + 1).drop_last() =~= lv.take(i as int));
            assert(lv.take(i + 1).last() == op_view(ops@[i as int]));
        }
        if ops[i].target == t && ops[i].land_at > m {
            m = ops[i].land_at;
        }
        i = i + 1;
    }
    assert(lv.take(ops@.len() as int) =~= lv);
    m
}

/// The staggered legs of the merged sources toward `t` landing at `land`.
fn op_legs_exec(b: &SimpleBoard, c: &Vec<(usize, u32)>, t: usize, land: u64) -> (r: Vec<Leg>)
    requires
        b.wf(),
        t < b.n(),
        forall|i: int| 0 <= i < c@.len() ==> (#[trigger] c@[i]).0 < b.n(),
    ensures
        r@ == b.op_legs(c@, t, land),
        forall|i: int| 0 <= i < r@.len() ==> (#[trigger] r@[i]).src < b.n(),
{
    let mut legs: Vec<Leg> = Vec::new();
    let mut i: usize = 0;
    while i < c.len()
        invariant
            b.wf(),
            t < b.n(),
            forall|k: int| 0 <= k < c@.len() ==> (#[trigger] c@[k]).0 < b.n(),
            0 <= i <= c@.len(),
            legs@ == b.op_legs(c@.take(i as int), t, land),
            forall|k: int| 0 <= k < legs@.len() ==> (#[trigger] legs@[k]).src < b.n(),
        decreases c@.len() - i,
    {
        proof {
            assert(c@.take(i + 1).drop_last() =~= c@.take(i as int));
        }
        let (s, k) = c[i];
        match gate_route_exec(b, s, t) {
            Some(g) => {
                let tg = travel_exec(b, g, t);
                let hop: u64 = if land > tg {
                    land - tg
                } else {
                    0
                };
                let ts = travel_exec(b, s, g);
                let walk: u64 = if hop > ts {
                    hop - ts
                } else {
                    0
                };
                legs.push(Leg { src: s, tgt: g, count: k, depart_at: walk, sent: false });
                legs.push(Leg { src: g, tgt: t, count: k, depart_at: hop, sent: false });
            },
            None => {
                let ts = travel_exec(b, s, t);
                let dep: u64 = if land > ts {
                    land - ts
                } else {
                    0
                };
                legs.push(Leg { src: s, tgt: t, count: k, depart_at: dep, sent: false });
            },
        }
        i = i + 1;
    }
    assert(c@.take(c@.len() as int) =~= c@);
    legs
}

/// Commit one op per planned target (see [`SimpleBoard::commit`]).
fn commit_exec(
    b: &SimpleBoard,
    ops: &mut Vec<Op>,
    plan_t: &Vec<usize>,
    flat: &Vec<(usize, usize, u32)>,
    now: u64,
    Ghost(a1): Ghost<Seq<u32>>,
    Ghost(af): Ghost<Seq<u32>>,
)
    requires
        b.wf(),
        forall|i: int| 0 <= i < plan_t@.len() ==> #[trigger] plan_t@[i] < b.n(),
        forall|i: int| 0 <= i < flat@.len() ==> (#[trigger] flat@[i]).1 < b.n(),
        af.len() == b.n(),
        forall|s: usize| #![trigger taken3(flat@, s)] s < b.n() ==> af[s as int] + taken3(flat@, s) == a1[s as int],
        forall|s: int| 0 <= s < b.n() ==> a1[s] <= u32::MAX,
        forall|i: int, j: int|
            0 <= i < old(ops)@.len() && 0 <= j < old(ops)@[i].legs@.len() && !(
            #[trigger] old(ops)@[i].legs@[j]).sent ==> old(ops)@[i].legs@[j].src < b.n(),
    ensures
        ledger_view(final(ops)@) == b.commit(ledger_view(old(ops)@), plan_t@, flat@, now, plan_t@.len() as int),
        forall|i: int, j: int|
            0 <= i < final(ops)@.len() && 0 <= j < final(ops)@[i].legs@.len() && !(
            #[trigger] final(ops)@[i].legs@[j]).sent ==> final(ops)@[i].legs@[j].src < b.n(),
{
    let ghost start = ledger_view(ops@);
    let mut k: usize = 0;
    while k < plan_t.len()
        invariant
            b.wf(),
            forall|i: int| 0 <= i < plan_t@.len() ==> #[trigger] plan_t@[i] < b.n(),
            forall|i: int| 0 <= i < flat@.len() ==> (#[trigger] flat@[i]).1 < b.n(),
            af.len() == b.n(),
            forall|s: usize| #![trigger taken3(flat@, s)] s < b.n() ==> af[s as int] + taken3(flat@, s) == a1[s as int],
            forall|s: int| 0 <= s < b.n() ==> a1[s] <= u32::MAX,
            0 <= k <= plan_t@.len(),
            ledger_view(ops@) == b.commit(start, plan_t@, flat@, now, k as int),
            forall|i: int, j: int|
                0 <= i < ops@.len() && 0 <= j < ops@[i].legs@.len() && !(#[trigger] ops@[i].legs@[j]).sent
                    ==> ops@[i].legs@[j].src < b.n(),
        decreases plan_t@.len() - k,
    {
        let t = plan_t[k];
        let legs = legs_of_exec(flat, t);
        if legs.len() > 0 {
            proof {
                assert forall|s: usize| #[trigger] taken(legs@, s) <= u32::MAX by {
                    lemma_legs_of_taken(flat@, t, s);
                    if s < b.n() {
                        lemma_taken3_nonneg(flat@, s);
                        assert(af[s as int] + taken3(flat@, s) == a1[s as int]);
                    } else {
                        lemma_taken3_outside(flat@, s, b.n());
                    }
                }
                lemma_legs_of_taken(flat@, t, 0);
                assert forall|i: int| 0 <= i < legs@.len() implies (#[trigger] legs@[i]).0 < b.n() by {
                    let j = choose|j: int| 0 <= j < flat@.len() && legs@[i].0 == flat@[j].1;
                    assert(flat@[j].1 < b.n());
                }
                lemma_coalesce(legs@, b.n());
            }
            let c = coalesce_exec(&legs);
            let mt = max_travel_exec(b, &c, t);
            let l0: u64 = if now > u64::MAX - mt {
                u64::MAX
            } else {
                now + mt
            };
            let l1: u64 = match b.friendly_eta[t] {
                Some(e) => if e > l0 {
                    e
                } else {
                    l0
                },
                None => l0,
            };
            let land = latest_landing_exec(ops, t, l1);
            let op_legs = op_legs_exec(b, &c, t, land);
            let ghost before = ops@;
            let op = Op { target: t, land_at: land, legs: op_legs };
            proof {
                lemma_view_push(before, op);
            }
            ops.push(op);
        }
        k = k + 1;
    }
}

/// Dispatch the due legs of the ledger (see [`SimpleBoard::dispatch`]).
fn dispatch_exec(b: &SimpleBoard, ops: Vec<Op>, fleeing: &Vec<bool>, pinned: &Vec<bool>, now: u64) -> (r: (
    Vec<Op>,
    Vec<Move>,
))
    requires
        b.wf(),
        fleeing@.len() == b.n(),
        pinned@.len() == b.n(),
        forall|s: int| 0 <= s < b.n() ==> fleeing@[s] == b.flee(s) && pinned@[s] == b.pin(s),
        forall|i: int, j: int|
            0 <= i < ops@.len() && 0 <= j < ops@[i].legs@.len() && !(#[trigger] ops@[i].legs@[j]).sent
                ==> ops@[i].legs@[j].src < b.n(),
    ensures
        (ledger_view(r.0@), r.1@) == b.dispatch(ledger_view(ops@), now),
{
    let ghost orig = ledger_view(ops@);
    let ghost orig_ops = ops@;
    let mut src = ops;
    let mut out: Vec<Op> = Vec::new();
    let mut moves: Vec<Move> = Vec::new();
    let ghost mut k: int = 0;
    while src.len() > 0
        invariant
            b.wf(),
            fleeing@.len() == b.n(),
            pinned@.len() == b.n(),
            forall|s: int| 0 <= s < b.n() ==> fleeing@[s] == b.flee(s) && pinned@[s] == b.pin(s),
            forall|i: int, j: int|
                0 <= i < orig_ops.len() && 0 <= j < orig_ops[i].legs@.len() && !(
                #[trigger] orig_ops[i].legs@[j]).sent ==> orig_ops[i].legs@[j].src < b.n(),
            orig == ledger_view(orig_ops),
            0 <= k <= orig.len(),
            src@.len() == orig.len() - k,
            src@ == orig_ops.skip(k),
            (ledger_view(out@), moves@) == b.dispatch(orig.take(k), now),
        decreases src@.len(),
    {
        let op = src.remove(0);
        proof {
            assert(op == orig_ops[k]);
            assert(src@ =~= orig_ops.skip(k + 1));
            assert(orig.take(k + 1).drop_last() =~= orig.take(k));
            assert(orig.take(k + 1).last() == op_view(op));
        }
        let mut legs: Vec<Leg> = Vec::new();
        let mut lm: Vec<Move> = Vec::new();
        let mut j: usize = 0;
        while j < op.legs.len()
            invariant
                b.wf(),
                fleeing@.len() == b.n(),
                pinned@.len() == b.n(),
                forall|s: int| 0 <= s < b.n() ==> fleeing@[s] == b.flee(s) && pinned@[s] == b.pin(s),
                forall|jj: int| 0 <= jj < op.legs@.len() && !(#[trigger] op.legs@[jj]).sent ==> op.legs@[jj].src < b.n(),
                0 <= j <= op.legs@.len(),
                (legs@, lm@) == b.dispatch_legs(op.legs@.take(j as int), now),
            decreases op.legs@.len() - j,
        {
            proof {
                assert(op.legs@.take(j + 1).drop_last() =~= op.legs@.take(j as int));
            }
            let l = op.legs[j];
            if !l.sent && now >= l.depart_at && !fleeing[l.src] && !pinned[l.src] {
                lm.push(Move { src: l.src, tgt: l.tgt, count: l.count });
                legs.push(Leg { sent: true, ..l });
            } else {
                legs.push(l);
            }
            j = j + 1;
        }
        proof {
            assert(op.legs@.take(op.legs@.len() as int) =~= op.legs@);
        }
        let new_op = Op { target: op.target, land_at: op.land_at, legs };
        let ghost out_before = out@;
        let ghost moves_before = moves@;
        proof {
            lemma_view_push(out_before, new_op);
        }
        out.push(new_op);
        let mut q: usize = 0;
        while q < lm.len()
            invariant
                0 <= q <= lm@.len(),
                moves@ == moves_before + lm@.take(q as int),
            decreases lm@.len() - q,
        {
            proof {
                assert(lm@.take(q + 1) =~= lm@.take(q as int).push(lm@[q as int]));
            }
            moves.push(lm[q]);
            q = q + 1;
        }
        proof {
            assert(lm@.take(lm@.len() as int) =~= lm@);
            k = k + 1;
        }
    }
    proof {
        assert(orig.take(k) =~= orig);
    }
    (out, moves)
}

/// Appends `tail` to `head`.
fn concat_moves(head: Vec<Move>, tail: Vec<Move>) -> (r: Vec<Move>)
    ensures
        r@ == head@ + tail@,
{
    let mut out = head;
    let mut i: usize = 0;
    while i < tail.len()
        invariant
            0 <= i <= tail@.len(),
            out@ == head@ + tail@.take(i as int),
        decreases tail@.len() - i,
    {
        proof {
            assert(tail@.take(i + 1) =~= tail@.take(i as int).push(tail@[i as int]));
        }
        out.push(tail[i]);
        i = i + 1;
    }
    assert(tail@.take(tail@.len() as int) =~= tail@);
    out
}

/// **One decision tick** of the Simple program for one struct against its departure
/// ledger `ops` (see the module doc): the ledger is updated in place and the moves to issue this
/// tick are returned — evacuations first, then fortress manning, staging or consolidation,
/// then the dispatched legs. `now` is the absolute tick.
pub fn simple_layer1_step(b: &SimpleBoard, d: SimpleDials, ops: &mut Vec<Op>, now: u64) -> (moves: Vec<Move>)
    requires
        b.wf(),
        ledger_fits(b, ledger_view(old(ops)@)),
    ensures
        (ledger_view(final(ops)@), moves@) == step_spec(b, d, ledger_view(old(ops)@), now),
{
    if b.infos.len() == 0 {
        return Vec::new();
    }
    let ghost lv0 = ledger_view(ops@);
    let mut cur: Vec<Op> = Vec::new();
    std::mem::swap(ops, &mut cur);
    let ghost cur0 = cur@;
    let e = expire_exec(cur, now);
    let (fleeing, pinned, fm) = defend_exec(b);
    proof {
        lemma_ops1_fits(b, lv0, now);
        let ev = ledger_view(e@);
        assert forall|i: int, j: int| 0 <= i < e@.len() && 0 <= j < e@[i].legs@.len() && !(
        #[trigger] e@[i].legs@[j]).sent implies e@[i].legs@[j].src < b.n() by {
            assert(ev[i].2 == e@[i].legs@);
            assert(ev[i].2[j] == e@[i].legs@[j]);
        }
    }
    let ops1 = cancel_exec(b, e, &fleeing, &pinned);
    let ghost lv1 = ledger_view(ops1@);
    proof {
        assert(lv1 == cancel(b, expire(lv0, now)));
        assert forall|i: int, j: int| 0 <= i < ops1@.len() && 0 <= j < ops1@[i].legs@.len() && !(
        #[trigger] ops1@[i].legs@[j]).sent implies ops1@[i].legs@[j].src < b.n() by {
            assert(lv1[i].2 == ops1@[i].legs@);
            assert(lv1[i].2[j] == ops1@[i].legs@[j]);
        }
    }
    let mut avail = avail0_exec(b, d, &ops1, &fleeing, &pinned);
    let mm = if ops1.len() > 0 {
        man_exec(b, d, &ops1, &fleeing, &mut avail)
    } else {
        Vec::new()
    };
    let ghost a1 = avail@;
    let cands = cands_exec(b, d);
    let (mut av2, mut plan_t, mut flat) = plan_exec(b, d, &ops1, avail, &cands);
    let ghost p_before = (av2@, plan_t@, flat@, b.plan(d, lv1, a1).3);
    let ghost flat_p = flat@;
    let ghost av_p = av2@;
    mop_up_exec(b, d, &ops1, &fleeing, &cands, &mut av2, &mut plan_t, &mut flat);
    proof {
        assert(b.mop_up(d, lv1, b.plan(d, lv1, a1)) == (av2@, plan_t@, flat@, b.plan(d, lv1, a1).3));
        assert forall|s: usize| #![trigger taken3(flat@, s)] s < b.n() implies av2@[s as int] + taken3(flat@, s) == a1[s as int] by {
            assert(av_p[s as int] + taken3(flat_p, s) == a1[s as int]);
        }
    }
    let sm = stage_exec(b, d, &ops1, &fleeing, &pinned, &cands, &plan_t);
    let cm = consolidate_exec(b, d, &ops1, &fleeing, &pinned, &cands, &plan_t);
    let mut led = ops1;
    commit_exec(b, &mut led, &plan_t, &flat, now, Ghost(a1), Ghost(av2@));
    let (dispatched, dm) = dispatch_exec(b, led, &fleeing, &pinned, now);
    *ops = dispatched;
    let m1 = concat_moves(fm, mm);
    let m2 = concat_moves(m1, sm);
    let m3 = concat_moves(m2, cm);
    concat_moves(m3, dm)
}

/// Whether the reservations of `s` fit a machine integer.
fn pending_fits(ops: &Vec<Op>, by_src: bool, s: usize) -> (r: bool)
    ensures
        r == (ops_pending(ledger_view(ops@), by_src, s) <= u32::MAX),
{
    let ghost lv = ledger_view(ops@);
    let mut total: u64 = 0;
    let mut i: usize = 0;
    while i < ops.len()
        invariant
            0 <= i <= ops@.len(),
            lv == ledger_view(ops@),
            total == ops_pending(lv.take(i as int), by_src, s),
            total <= u32::MAX,
        decreases ops@.len() - i,
    {
        let legs = &ops[i].legs;
        let ghost base = total as nat;
        proof {
            assert(lv.take(i + 1).drop_last() =~= lv.take(i as int));
            assert(lv.take(i + 1).last() == lv[i as int]);
            assert(lv[i as int].2 == legs@);
        }
        let mut j: usize = 0;
        while j < legs.len()
            invariant
                0 <= j <= legs@.len(),
                lv == ledger_view(ops@),
                0 <= i < ops@.len(),
                lv[i as int].2 == legs@,
                base == ops_pending(lv.take(i as int), by_src, s),
                total == base + legs_pending(legs@.take(j as int), by_src, s),
                total <= u32::MAX,
            decreases legs@.len() - j,
        {
            let l = legs[j];
            proof {
                assert(legs@.take(j + 1).drop_last() =~= legs@.take(j as int));
                assert(legs@.take(j + 1).last() == l);
            }
            let hit = if by_src {
                l.src == s
            } else {
                l.tgt == s
            };
            if !l.sent && hit {
                total = total + l.count as u64;
            }
            if total > 0xffff_ffffu64 {
                proof {
                    crate::simple::lemma_legs_pending_prefix(legs@, by_src, s, j + 1);
                    assert(lv.take(i + 1).drop_last() =~= lv.take(i as int));
                    assert(ops_pending(lv.take(i + 1), by_src, s) == base + legs_pending(legs@, by_src, s));
                    crate::simple::lemma_ops_pending_prefix(lv, by_src, s, i + 1);
                }
                return false;
            }
            j = j + 1;
        }
        proof {
            assert(legs@.take(legs@.len() as int) =~= legs@);
        }
        i = i + 1;
    }
    proof {
        assert(lv.take(ops@.len() as int) =~= lv);
    }
    true
}

/// Whether the ledger fits the board (see [`ledger_fits`]): the condition under which the
/// program may run on it.
pub fn ledger_fits_exec(b: &SimpleBoard, ops: &Vec<Op>) -> (r: bool)
    ensures
        r == ledger_fits(b, ledger_view(ops@)),
{
    let n = b.infos.len();
    let ghost lv = ledger_view(ops@);
    let mut i: usize = 0;
    while i < ops.len()
        invariant
            n == b.n(),
            lv == ledger_view(ops@),
            0 <= i <= ops@.len(),
            forall|a: int, c: int|
                0 <= a < i && 0 <= c < lv[a].2.len() && !(#[trigger] lv[a].2[c]).sent ==> lv[a].2[c].src
                    < n,
        decreases ops@.len() - i,
    {
        let legs = &ops[i].legs;
        proof {
            assert(lv[i as int].2 == legs@);
        }
        let mut j: usize = 0;
        while j < legs.len()
            invariant
                n == b.n(),
                lv == ledger_view(ops@),
                0 <= i < ops@.len(),
                lv[i as int].2 == legs@,
                0 <= j <= legs@.len(),
                forall|a: int, c: int|
                    0 <= a < i && 0 <= c < lv[a].2.len() && !(#[trigger] lv[a].2[c]).sent ==> lv[a].2[c].src
                        < n,
                forall|c: int| 0 <= c < j && !(#[trigger] legs@[c]).sent ==> legs@[c].src < n,
            decreases legs@.len() - j,
        {
            if !legs[j].sent && legs[j].src >= n {
                proof {
                    assert(lv[i as int].2[j as int] == legs@[j as int]);
                }
                return false;
            }
            j = j + 1;
        }
        proof {
            assert forall|a: int, c: int|
                0 <= a < i + 1 && 0 <= c < lv[a].2.len() && !(#[trigger] lv[a].2[c]).sent implies lv[a].2[c].src
                    < n by {
                if a == i {
                    assert(lv[a].2[c] == legs@[c]);
                }
            }
        }
        i = i + 1;
    }
    let mut s: usize = 0;
    while s < n
        invariant
            n == b.n(),
            lv == ledger_view(ops@),
            forall|a: int, c: int|
                0 <= a < lv.len() && 0 <= c < lv[a].2.len() && !(#[trigger] lv[a].2[c]).sent ==> lv[a].2[c].src
                    < n,
            0 <= s <= n,
            forall|x: usize| x < s ==> #[trigger] ops_pending(lv, true, x) <= u32::MAX,
            forall|x: usize| x < s ==> #[trigger] ops_pending(lv, false, x) <= u32::MAX,
        decreases n - s,
    {
        if !pending_fits(ops, true, s) || !pending_fits(ops, false, s) {
            return false;
        }
        s = s + 1;
    }
    true
}

/// The Simple seat's persistent departure ledgers, one per struct.
#[derive(Debug, Clone)]
pub struct SimpleLedger {
    /// `operations[p]`: the ledger of struct `p`.
    pub operations: Vec<Vec<Op>>,
}

impl SimpleLedger {
    /// An empty ledger (built fresh per match).
    pub fn new() -> (r: SimpleLedger)
        ensures
            r.operations@.len() == 0,
    {
        SimpleLedger { operations: Vec::new() }
    }

    /// Size the ledger to `np` structs: new structs start with an empty ledger, structs
    /// beyond `np` are dropped, the others keep theirs.
    pub fn track_structs(&mut self, np: usize)
        ensures
            final(self).operations@.len() == np,
            forall|p: int|
                0 <= p < np && p < old(self).operations@.len() ==> #[trigger] final(self).operations@[p]
                    == old(self).operations@[p],
            forall|p: int|
                old(self).operations@.len() <= p < np ==> (#[trigger] final(self).operations@[p])@.len()
                    == 0,
    {
        let ghost start = self.operations@;
        if self.operations.len() > np {
            self.operations.truncate(np);
            return ;
        }
        while self.operations.len() < np
            invariant
                start.len() <= self.operations@.len() <= np,
                forall|p: int| 0 <= p < start.len() ==> #[trigger] self.operations@[p] == start[p],
                forall|p: int|
                    start.len() <= p < self.operations@.len() ==> (#[trigger] self.operations@[p])@.len()
                        == 0,
            decreases np - self.operations@.len(),
        {
            self.operations.push(Vec::new());
        }
    }

    /// Drop struct `p`'s ledger (the seat lost all presence there).
    pub fn forget(&mut self, p: usize)
        requires
            p < old(self).operations@.len(),
        ensures
            final(self).operations@ == old(self).operations@.update(p as int, final(self).operations@[p as int]),
            final(self).operations@[p as int]@.len() == 0,
    {
        self.operations.set(p, Vec::new());
    }

    /// Clear every struct's ledger (with no economy left the ledger is meaningless).
    pub fn clear_all(&mut self)
        ensures
            final(self).operations@.len() == old(self).operations@.len(),
            forall|p: int| 0 <= p < final(self).operations@.len() ==> (#[trigger] final(self).operations@[p])@.len() == 0,
    {
        let n = self.operations.len();
        let mut p: usize = 0;
        while p < n
            invariant
                self.operations@.len() == n,
                0 <= p <= n,
                forall|q: int| 0 <= q < p ==> (#[trigger] self.operations@[q])@.len() == 0,
            decreases n - p,
        {
            self.operations.set(p, Vec::new());
            p = p + 1;
        }
    }

    /// Run one decision tick of the Simple program for struct `p` on its ledger (see
    /// [`simple_layer1_step`]); the other structs' ledgers are untouched.
    pub fn step(&mut self, p: usize, b: &SimpleBoard, d: SimpleDials, now: u64) -> (moves: Vec<Move>)
        requires
            p < old(self).operations@.len(),
            b.wf(),
            ledger_fits(b, ledger_view(old(self).operations@[p as int]@)),
        ensures
            final(self).operations@.len() == old(self).operations@.len(),
            forall|q: int|
                0 <= q < final(self).operations@.len() && q != p ==> #[trigger] final(self).operations@[q]
                    == old(self).operations@[q],
            (ledger_view(final(self).operations@[p as int]@), moves@) == step_spec(
                b,
                d,
                ledger_view(old(self).operations@[p as int]@),
                now,
            ),
    {
        let ghost start = self.operations@;
        let mut cur = self.operations.remove(p);
        let moves = simple_layer1_step(b, d, &mut cur, now);
        self.operations.insert(p, cur);
        proof {
            assert forall|q: int| 0 <= q < self.operations@.len() && q != p implies #[trigger] self.operations@[q]
                == start[q] by {
                if q < p {
                    assert(self.operations@[q] == start.remove(p as int)[q]);
                } else {
                    assert(self.operations@[q] == start.remove(p as int)[q - 1]);
                }
            }
        }
        moves
    }
}

// =====================================================================================
// Laws.
// =====================================================================================

/// **A fortress never evacuates**: every evacuation move leaves an owned plain sub under a
/// threat that overwhelms it, moves everything idle there, and heads for a safe owned sub.
pub proof fn law_no_fortress_evacuates(b: &SimpleBoard, k: int)
    requires
        b.wf(),
        0 <= k <= b.n(),
    ensures
        forall|i: int|
            0 <= i < b.flee_moves(k).len() ==> {
                let m = #[trigger] b.flee_moves(k)[i];
                &&& 0 <= m.src < k
                &&& b.owned(m.src as int)
                &&& !b.fort(m.src as int)
                &&& b.over_threat@[m.src as int]
                &&& m.count == u32::MAX
                &&& b.nearest_safe(m.src as int) == Some(m.tgt)
            },
    decreases k,
{
    if k > 0 {
        law_no_fortress_evacuates(b, k - 1);
        let prev = b.flee_moves(k - 1);
        if b.flee(k - 1) {
            match b.nearest_safe(k - 1) {
                Some(dd) => {
                    assert(b.flee_moves(k) == prev.push(Move { src: (k - 1) as usize, tgt: dd, count: u32::MAX }));
                },
                None => {},
            }
        }
    }
}

/// **Only due legs fire**: dispatching marks sent exactly the unsent legs whose departure
/// tick has come and whose source neither flees nor is pinned, changes nothing else of the leg
/// list, and issues one move per fired leg, in leg order.
pub proof fn law_dispatch_fires_due_legs(b: &SimpleBoard, legs: Seq<Leg>, now: u64)
    ensures
        b.dispatch_legs(legs, now).0.len() == legs.len(),
        forall|i: int|
            0 <= i < legs.len() ==> #[trigger] b.dispatch_legs(legs, now).0[i] == (if b.due(legs[i], now) {
                fired(legs[i])
            } else {
                legs[i]
            }),
        b.dispatch_legs(legs, now).1 == legs.filter(|l: Leg| b.due(l, now)).map_values(|l: Leg| move_of(l)),
    decreases legs.len(),
{
    reveal(Seq::filter);
    if legs.len() > 0 {
        law_dispatch_fires_due_legs(b, legs.drop_last(), now);
        let x = legs.last();
        assert forall|i: int| 0 <= i < legs.len() implies #[trigger] b.dispatch_legs(legs, now).0[i] == (if b.due(legs[i], now) {
            fired(legs[i])
        } else {
            legs[i]
        }) by {
            if i < legs.len() - 1 {
                assert(legs[i] == legs.drop_last()[i]);
            }
        }
        let f = legs.drop_last().filter(|l: Leg| b.due(l, now));
        if b.due(x, now) {
            assert(f.push(x).map_values(|l: Leg| move_of(l)) =~= f.map_values(|l: Leg| move_of(l)).push(move_of(x)));
        }
    } else {
        assert(legs.filter(|l: Leg| b.due(l, now)).map_values(|l: Leg| move_of(l)) =~= Seq::<Move>::empty());
    }
}

/// **A pull spends only spendable ships**: per source, the ships left spendable plus the
/// ships its legs take equal what it had; every leg takes from a ranked source; and the
/// gathered count is exactly what the legs take.
pub proof fn law_pull_conserves(b: &SimpleBoard, d: SimpleDials, t: int, base: int, avail: Seq<u32>, charge: bool)
    requires
        b.wf(),
        avail.len() == b.n(),
    ensures
        b.pull(d, t, base, avail, charge).0.len() == avail.len(),
        forall|s: usize|
            #![trigger taken(b.pull(d, t, base, avail, charge).1, s)]
            s < avail.len() ==> b.pull(d, t, base, avail, charge).0[s as int] + taken(
                b.pull(d, t, base, avail, charge).1,
                s,
            ) == avail[s as int],
        forall|i: int|
            0 <= i < b.pull(d, t, base, avail, charge).1.len() ==> (#[trigger] b.pull(
                d,
                t,
                base,
                avail,
                charge,
            ).1[i]).0 < b.n(),
{
    if base != 0 {
        let m = b.pull_mask(d, t, avail);
        let k = b.keys_to(t);
        lemma_sorted_ids_elems(m, k);
        let srcs = sorted_ids(m, k);
        lemma_pull_fold_conserves(b, t, charge, srcs, srcs.len() as int, (avail, Seq::empty(), 0, base));
    }
}

/// Ships gathered by a list of pulled legs.
pub open spec fn gathered_by(legs: Seq<(usize, u32)>) -> int
    decreases legs.len(),
{
    if legs.len() == 0 {
        0
    } else {
        gathered_by(legs.drop_last()) + legs.last().1 as int
    }
}

/// The shape of a pull fold over sources drawn from `mask`: new legs take a positive count
/// from a masked source, the gathered count grows by what they take, the requirement never
/// shrinks, and while short every visited source is drained.
proof fn lemma_pull_fold_shape(b: &SimpleBoard, t: int, charge: bool, srcs: Seq<usize>, k: int, init: (
    Seq<u32>,
    Seq<(usize, u32)>,
    int,
    int,
), mask: Seq<bool>)
    requires
        0 <= k <= srcs.len(),
        mask.len() == init.0.len(),
        forall|i: int| 0 <= i < srcs.len() ==> #[trigger] srcs[i] < init.0.len() && mask[srcs[i] as int],
    ensures
        b.pull_fold(t, charge, srcs, k, init).0.len() == init.0.len(),
        b.pull_fold(t, charge, srcs, k, init).1.len() >= init.1.len(),
        forall|i: int| 0 <= i < init.1.len() ==> #[trigger] b.pull_fold(t, charge, srcs, k, init).1[i] == init.1[i],
        forall|i: int|
            init.1.len() <= i < b.pull_fold(t, charge, srcs, k, init).1.len() ==> {
                let l = #[trigger] b.pull_fold(t, charge, srcs, k, init).1[i];
                &&& l.1 > 0
                &&& l.0 < mask.len()
                &&& mask[l.0 as int]
            },
        b.pull_fold(t, charge, srcs, k, init).2 - init.2 == gathered_by(b.pull_fold(t, charge, srcs, k, init).1)
            - gathered_by(init.1),
        b.pull_fold(t, charge, srcs, k, init).3 >= init.3,
        b.pull_fold(t, charge, srcs, k, init).2 < b.pull_fold(t, charge, srcs, k, init).3 ==> forall|i: int|
            0 <= i < k ==> b.pull_fold(t, charge, srcs, k, init).0[#[trigger] srcs[i] as int] == 0,
    decreases k,
{
    if k > 0 {
        lemma_pull_fold_shape(b, t, charge, srcs, k - 1, init, mask);
        let st = b.pull_fold(t, charge, srcs, k - 1, init);
        let x = srcs[k - 1];
        let nx = b.pull_step(t, charge, st, x);
        assert(b.pull_fold(t, charge, srcs, k, init) == nx);
        if nx != st {
            assert(nx.1.drop_last() =~= st.1);
            assert(nx.1.last() == nx.1[nx.1.len() - 1]);
            let toll = b.leg_toll(x as int, t, charge);
            assert(toll >= 0);
            if nx.2 < nx.3 {
                assert forall|i: int| 0 <= i < k implies nx.0[#[trigger] srcs[i] as int] == 0 by {
                    if srcs[i] != x {
                        assert(st.0[srcs[i] as int] == 0);
                    }
                }
            }
        } else if st.2 < st.3 {
            let toll = b.leg_toll(x as int, t, charge);
            assert(toll >= 0);
            assert(st.0[x as int] == 0);
        }
    }
}

/// **A pull is well formed**: a pull for nothing takes nothing; every leg takes a positive
/// count from another sub that reaches the target within the leash; the gathered count is
/// the sum of the legs' counts; the requirement is at least the base; and when the pull
/// falls short, every eligible source is drained.
pub proof fn law_pull_shape(b: &SimpleBoard, d: SimpleDials, t: int, base: int, avail: Seq<u32>, charge: bool)
    requires
        b.wf(),
        avail.len() == b.n(),
    ensures
        base == 0 ==> b.pull(d, t, base, avail, charge) == (avail, Seq::<(usize, u32)>::empty(), 0int, 0int),
        forall|i: int|
            0 <= i < b.pull(d, t, base, avail, charge).1.len() ==> {
                let l = #[trigger] b.pull(d, t, base, avail, charge).1[i];
                &&& l.1 > 0
                &&& l.0 < b.n()
                &&& l.0 != t
                &&& b.reach@[l.0 as int]@[t]
                &&& b.leashed(d, l.0 as int, t)
            },
        b.pull(d, t, base, avail, charge).2 == gathered_by(b.pull(d, t, base, avail, charge).1),
        b.pull(d, t, base, avail, charge).3 >= base,
        b.pull(d, t, base, avail, charge).2 < b.pull(d, t, base, avail, charge).3 ==> forall|s: int|
            0 <= s < b.n() && #[trigger] b.pull_mask(d, t, avail)[s] ==> b.pull(d, t, base, avail, charge).0[s]
                == 0,
{
    if base != 0 {
        let m = b.pull_mask(d, t, avail);
        let k = b.keys_to(t);
        lemma_sorted_ids_elems(m, k);
        let srcs = sorted_ids(m, k);
        let init = (avail, Seq::<(usize, u32)>::empty(), 0int, base);
        lemma_pull_fold_shape(b, t, charge, srcs, srcs.len() as int, init, m);
        let r = b.pull(d, t, base, avail, charge);
        assert(r == b.pull_fold(t, charge, srcs, srcs.len() as int, init));
        assert forall|i: int| 0 <= i < r.1.len() implies {
            let l = #[trigger] r.1[i];
            &&& l.1 > 0
            &&& l.0 < b.n()
            &&& l.0 != t
            &&& b.reach@[l.0 as int]@[t]
            &&& b.leashed(d, l.0 as int, t)
        } by {
            assert(m[r.1[i].0 as int]);
        }
        if r.2 < r.3 {
            assert(b.infos.len() == b.infos@.len());
            assert forall|s: int| 0 <= s < b.n() && #[trigger] b.pull_mask(d, t, avail)[s] implies r.0[s] == 0 by {
                lemma_sorted_ids_complete(m, k, s);
                let i = choose|i: int| 0 <= i < srcs.len() && srcs[i] == s as usize;
                assert(r.0[srcs[i] as int] == 0);
            }
        }
    }
}

/// A planning state `(avail, flat)` accounts for the spendable ships `a`: per sub, what is
/// still spendable plus what the planned legs take is what was spendable; every planned leg
/// takes a positive count from a sub.
pub open spec fn plan_accounts(b: &SimpleBoard, avail: Seq<u32>, flat: Seq<(usize, usize, u32)>, a: Seq<u32>) -> bool {
    &&& avail.len() == b.n()
    &&& a.len() == b.n()
    &&& forall|s: usize| #![trigger taken3(flat, s)] s < b.n() ==> avail[s as int] + taken3(flat, s) == a[s as int]
    &&& forall|i: int| 0 <= i < flat.len() ==> (#[trigger] flat[i]).2 > 0 && flat[i].1 < b.n()
}

/// Appending a pull from `avail` to a plan keeps it accounted.
proof fn lemma_pull_accounts(b: &SimpleBoard, d: SimpleDials, t: usize, base: int, avail: Seq<u32>, flat: Seq<(usize, usize, u32)>, a: Seq<u32>)
    requires
        b.wf(),
        plan_accounts(b, avail, flat, a),
    ensures
        plan_accounts(
            b,
            b.pull(d, t as int, base, avail, true).0,
            flat + SimpleBoard::tag(t, b.pull(d, t as int, base, avail, true).1),
            a,
        ),
{
    let r = b.pull(d, t as int, base, avail, true);
    law_pull_conserves(b, d, t as int, base, avail, true);
    law_pull_shape(b, d, t as int, base, avail, true);
    let f2 = flat + SimpleBoard::tag(t, r.1);
    assert forall|s: usize| #![trigger taken3(f2, s)] s < b.n() implies r.0[s as int] + taken3(f2, s) == a[s as int] by {
        lemma_taken3_tag(flat, t, r.1, s);
        assert(r.0[s as int] + taken(r.1, s) == avail[s as int]);
        assert(avail[s as int] + taken3(flat, s) == a[s as int]);
    }
    assert forall|i: int| 0 <= i < f2.len() implies (#[trigger] f2[i]).2 > 0 && f2[i].1 < b.n() by {
        if i < flat.len() {
            assert(f2[i] == flat[i]);
        } else {
            assert(f2[i] == (t, r.1[i - flat.len()].0, r.1[i - flat.len()].1));
        }
    }
}

proof fn lemma_deepen_fold_accounts(b: &SimpleBoard, d: SimpleDials, ops: Seq<(usize, u64, Seq<Leg>)>, st: (
    Seq<u32>,
    Seq<usize>,
    Seq<(usize, usize, u32)>,
    Seq<usize>,
), batch: Seq<usize>, k: int, a: Seq<u32>)
    requires
        b.wf(),
        plan_accounts(b, st.0, st.2, a),
    ensures
        plan_accounts(b, b.deepen_fold(d, ops, st, batch, k).0, b.deepen_fold(d, ops, st, batch, k).2, a),
    decreases k,
{
    if k > 0 {
        lemma_deepen_fold_accounts(b, d, ops, st, batch, k - 1, a);
        let s1 = b.deepen_fold(d, ops, st, batch, k - 1);
        let t = batch[k - 1];
        let of = b.our_force(ops, t as int);
        let want = sat(sat(b.max_bar@[t as int] as int, of), SimpleBoard::planned_to(s1.2, t));
        if want > 0 {
            lemma_pull_accounts(b, d, t, want, s1.0, s1.2, a);
        }
    }
}

proof fn lemma_plan_fold_accounts(b: &SimpleBoard, d: SimpleDials, ops: Seq<(usize, u64, Seq<Leg>)>, cands: Seq<usize>, k: int, init: (
    Seq<u32>,
    Seq<usize>,
    Seq<(usize, usize, u32)>,
    Seq<usize>,
), a: Seq<u32>)
    requires
        b.wf(),
        plan_accounts(b, init.0, init.2, a),
    ensures
        plan_accounts(b, b.plan_fold(d, ops, cands, k, init).0, b.plan_fold(d, ops, cands, k, init).2, a),
    decreases k,
{
    if k > 0 {
        lemma_plan_fold_accounts(b, d, ops, cands, k - 1, init, a);
        let st = b.plan_fold(d, ops, cands, k - 1, init);
        let t = cands[k - 1];
        let of = b.our_force(ops, t as int);
        if sat(b.max_bar@[t as int] as int, of) != 0 {
            lemma_pull_accounts(b, d, t, sat(b.min_bar@[t as int] as int, of), st.0, st.2, a);
        }
        let s2 = b.phase_a(d, ops, st, t);
        lemma_deepen_fold_accounts(b, d, ops, s2, s2.3, s2.3.len() as int, a);
    }
}

/// Planning and the mop-up keep the plan accounted for the spendable ships they start from.
proof fn lemma_plan_accounts(b: &SimpleBoard, d: SimpleDials, ops: Seq<(usize, u64, Seq<Leg>)>, a: Seq<u32>)
    requires
        b.wf(),
        a.len() == b.n(),
    ensures
        plan_accounts(b, b.mop_up(d, ops, b.plan(d, ops, a)).0, b.mop_up(d, ops, b.plan(d, ops, a)).2, a),
{
    let init = (a, Seq::<usize>::empty(), Seq::<(usize, usize, u32)>::empty(), Seq::<usize>::empty());
    assert(plan_accounts(b, a, Seq::<(usize, usize, u32)>::empty(), a));
    if d.fronts != 0 {
        let c = b.cands(d);
        lemma_plan_fold_accounts(b, d, ops, c, c.len() as int, init, a);
        let st = b.plan_fold(d, ops, c, c.len() as int, init);
        lemma_deepen_fold_accounts(b, d, ops, st, st.3, st.3.len() as int, a);
    }
    let p = b.plan(d, ops, a);
    if !(p.1.len() > 0 || b.any_flee() || b.any_room(d, ops)) {
        match b.holdout() {
            None => {},
            Some(t) => {
                let bar = sat(b.min_bar@[t as int] as int, b.our_force(ops, t as int));
                let want = min_int(bar, SimpleBoard::total(p.0));
                if bar > 0 && want > 0 {
                    lemma_pull_accounts(b, d, t, want, p.0, p.2, a);
                }
            },
        }
    }
}

/// Manning keeps one spendable count per sub and moves positive counts.
proof fn lemma_man_fold_moves(b: &SimpleBoard, d: SimpleDials, ops: Seq<(usize, u64, Seq<Leg>)>, k: int, avail: Seq<u32>)
    requires
        b.wf(),
        avail.len() == b.n(),
        k <= b.n(),
    ensures
        b.man_fold(d, ops, k, avail).0.len() == b.n(),
        forall|i: int| 0 <= i < b.man_fold(d, ops, k, avail).1.len() ==> (#[trigger] b.man_fold(d, ops, k, avail).1[i]).count > 0,
    decreases k,
{
    if k > 0 {
        lemma_man_fold_moves(b, d, ops, k - 1, avail);
        let (a, mv) = b.man_fold(d, ops, k - 1, avail);
        let f = k - 1;
        match b.fort_capacity@[f] {
            None => {},
            Some(cap) => if !b.flee(f) {
                let a1 = a.update(f, 0u32);
                let deficit = sat(cap as int, b.our_force(ops, f));
                if deficit != 0 {
                    let r = b.pull(d, f, deficit, a1, false);
                    law_pull_conserves(b, d, f, deficit, a1, false);
                    law_pull_shape(b, d, f, deficit, a1, false);
                    let lm = SimpleBoard::legs_to_moves(r.1, f as usize);
                    let all = mv + lm;
                    assert forall|i: int| 0 <= i < all.len() implies (#[trigger] all[i]).count > 0 by {
                        if i < mv.len() {
                            assert(all[i] == mv[i]);
                        } else {
                            assert(all[i] == lm[i - mv.len()]);
                            assert(r.1[i - mv.len()].1 > 0);
                        }
                    }
                }
            },
        }
    }
}

/// Merging positive legs whose per-source totals fit a `u32` gives positive merged counts.
proof fn lemma_coalesce_positive(legs: Seq<(usize, u32)>)
    requires
        forall|s: usize| #[trigger] taken(legs, s) <= u32::MAX,
        forall|i: int| 0 <= i < legs.len() ==> (#[trigger] legs[i]).1 > 0,
    ensures
        forall|i: int| 0 <= i < SimpleBoard::coalesce(legs).len() ==> (#[trigger] SimpleBoard::coalesce(legs)[i]).1 > 0,
    decreases legs.len(),
{
    if legs.len() > 0 {
        let l0 = legs.drop_last();
        assert forall|s: usize| #[trigger] taken(l0, s) <= u32::MAX by {
            lemma_taken_nonneg(l0, s);
            lemma_taken_nonneg(legs, s);
            assert(taken(legs, s) <= u32::MAX);
        }
        assert forall|i: int| 0 <= i < l0.len() implies (#[trigger] l0[i]).1 > 0 by {
            assert(l0[i] == legs[i]);
        }
        assert forall|i: int| 0 <= i < l0.len() implies (#[trigger] l0[i]).0 < usize::MAX + 1 by {}
        lemma_coalesce_positive(l0);
        lemma_coalesce(l0, usize::MAX + 1);
        let c0 = SimpleBoard::coalesce(l0);
        let (s0, k) = legs.last();
        assert(k > 0) by {
            assert(legs[legs.len() - 1].1 > 0);
        }
        let i0 = SimpleBoard::find_src(c0, s0);
        lemma_find_src(c0, s0);
        let c = SimpleBoard::coalesce(legs);
        if i0 >= 0 {
            assert(taken(legs, s0) <= u32::MAX);
            lemma_taken_nonneg(l0, s0);
            assert(c0[i0].1 + k <= u32::MAX);
            assert forall|i: int| 0 <= i < c.len() implies (#[trigger] c[i]).1 > 0 by {
                if i != i0 {
                    assert(c[i] == c0[i]);
                }
            }
        } else {
            assert forall|i: int| 0 <= i < c.len() implies (#[trigger] c[i]).1 > 0 by {
                if i < c0.len() {
                    assert(c[i] == c0[i]);
                }
            }
        }
    }
}

/// The legs of a new op carry the merged counts, unsent.
proof fn lemma_op_legs_positive(b: &SimpleBoard, c: Seq<(usize, u32)>, t: usize, land: u64)
    requires
        forall|i: int| 0 <= i < c.len() ==> (#[trigger] c[i]).1 > 0,
    ensures
        forall|i: int| 0 <= i < b.op_legs(c, t, land).len() ==> (#[trigger] b.op_legs(c, t, land)[i]).count > 0,
    decreases c.len(),
{
    if c.len() > 0 {
        assert forall|i: int| 0 <= i < c.drop_last().len() implies (#[trigger] c.drop_last()[i]).1 > 0 by {
            assert(c.drop_last()[i] == c[i]);
        }
        lemma_op_legs_positive(b, c.drop_last(), t, land);
        let prev = b.op_legs(c.drop_last(), t, land);
        let cur = b.op_legs(c, t, land);
        assert(c.last().1 > 0) by {
            assert(c[c.len() - 1].1 > 0);
        }
        assert forall|i: int| 0 <= i < cur.len() implies (#[trigger] cur[i]).count > 0 by {
            if i < prev.len() {
                assert(cur[i] == prev[i]);
            }
        }
    }
}

/// Committing keeps the ledger as a prefix and appends ops whose legs are unsent and carry
/// positive counts, when the plan's per-source takings fit a `u32` and its legs are positive.
proof fn lemma_commit_shape(b: &SimpleBoard, ops: Seq<(usize, u64, Seq<Leg>)>, plan_t: Seq<usize>, flat: Seq<(usize, usize, u32)>, now: u64, k: int)
    requires
        forall|s: usize| #[trigger] taken3(flat, s) <= u32::MAX,
        forall|i: int| 0 <= i < flat.len() ==> (#[trigger] flat[i]).2 > 0,
    ensures
        b.commit(ops, plan_t, flat, now, k).len() >= ops.len(),
        forall|i: int| 0 <= i < ops.len() ==> #[trigger] b.commit(ops, plan_t, flat, now, k)[i] == ops[i],
        forall|i: int, j: int|
            ops.len() <= i < b.commit(ops, plan_t, flat, now, k).len() && 0 <= j < b.commit(ops, plan_t, flat, now, k)[i].2.len()
                ==> !(#[trigger] b.commit(ops, plan_t, flat, now, k)[i].2[j]).sent && b.commit(ops, plan_t, flat, now, k)[i].2[j].count > 0,
    decreases k,
{
    if k > 0 {
        lemma_commit_shape(b, ops, plan_t, flat, now, k - 1);
        let prev = b.commit(ops, plan_t, flat, now, k - 1);
        let t = plan_t[k - 1];
        let legs = SimpleBoard::legs_of(flat, t);
        if legs.len() > 0 {
            assert forall|s: usize| #[trigger] taken(legs, s) <= u32::MAX by {
                lemma_legs_of_taken(flat, t, s);
            }
            lemma_legs_of_positive(flat, t);
            lemma_coalesce_positive(legs);
            let c = SimpleBoard::coalesce(legs);
            let land = b.land_at(prev, t, c, now);
            lemma_op_legs_positive(b, c, t, land);
            law_legs_land_together(b, c, t, land);
            let cur = prev.push((t, land, b.op_legs(c, t, land)));
            assert forall|i: int| 0 <= i < ops.len() implies #[trigger] cur[i] == ops[i] by {
                assert(cur[i] == prev[i]);
            }
            assert forall|i: int, j: int| ops.len() <= i < cur.len() && 0 <= j < cur[i].2.len() implies !(
            #[trigger] cur[i].2[j]).sent && cur[i].2[j].count > 0 by {
                if i < prev.len() {
                    assert(cur[i] == prev[i]);
                }
            }
        }
    }
}

/// The planned legs toward `t` are positive when the plan's are.
proof fn lemma_legs_of_positive(flat: Seq<(usize, usize, u32)>, t: usize)
    requires
        forall|i: int| 0 <= i < flat.len() ==> (#[trigger] flat[i]).2 > 0,
    ensures
        forall|i: int| 0 <= i < SimpleBoard::legs_of(flat, t).len() ==> (#[trigger] SimpleBoard::legs_of(flat, t)[i]).1 > 0,
    decreases flat.len(),
{
    if flat.len() > 0 {
        assert forall|i: int| 0 <= i < flat.drop_last().len() implies (#[trigger] flat.drop_last()[i]).2 > 0 by {
            assert(flat.drop_last()[i] == flat[i]);
        }
        lemma_legs_of_positive(flat.drop_last(), t);
        let prev = SimpleBoard::legs_of(flat.drop_last(), t);
        let cur = SimpleBoard::legs_of(flat, t);
        assert(flat.last().2 > 0) by {
            assert(flat[flat.len() - 1].2 > 0);
        }
        assert forall|i: int| 0 <= i < cur.len() implies (#[trigger] cur[i]).1 > 0 by {
            if i < prev.len() {
                assert(cur[i] == prev[i]);
            }
        }
    }
}

/// Dispatching one op's legs issues a move for every due leg and no other.
proof fn lemma_dispatch_legs_moves(b: &SimpleBoard, legs: Seq<Leg>, now: u64)
    ensures
        forall|j: int| 0 <= j < legs.len() && b.due(#[trigger] legs[j], now) ==> b.dispatch_legs(legs, now).1.contains(move_of(legs[j])),
        forall|i: int|
            0 <= i < b.dispatch_legs(legs, now).1.len() ==> exists|j: int|
                0 <= j < legs.len() && #[trigger] b.dispatch_legs(legs, now).1[i] == move_of(legs[j]),
    decreases legs.len(),
{
    if legs.len() > 0 {
        let l0 = legs.drop_last();
        lemma_dispatch_legs_moves(b, l0, now);
        let m0 = b.dispatch_legs(l0, now).1;
        let m = b.dispatch_legs(legs, now).1;
        let x = legs.last();
        assert(x == legs[legs.len() - 1]);
        assert forall|j: int| 0 <= j < legs.len() && b.due(#[trigger] legs[j], now) implies m.contains(move_of(legs[j])) by {
            if j < l0.len() {
                assert(legs[j] == l0[j]);
                let q = choose|q: int| 0 <= q < m0.len() && m0[q] == move_of(l0[j]);
                assert(m[q] == m0[q]);
            } else {
                assert(m[m.len() - 1] == move_of(x));
            }
        }
        assert forall|i: int| 0 <= i < m.len() implies exists|j: int|
            0 <= j < legs.len() && #[trigger] m[i] == move_of(legs[j]) by {
            if i < m0.len() {
                assert(m[i] == m0[i]);
                let j = choose|j: int| 0 <= j < l0.len() && m0[i] == move_of(l0[j]);
                assert(legs[j] == l0[j]);
            } else {
                assert(m[i] == move_of(legs[legs.len() - 1]));
            }
        }
    }
}

/// Dispatching the ledger dispatches each op's legs in place and collects their moves.
proof fn lemma_dispatch_ops(b: &SimpleBoard, ops: Seq<(usize, u64, Seq<Leg>)>, now: u64)
    ensures
        b.dispatch(ops, now).0.len() == ops.len(),
        forall|i: int|
            0 <= i < ops.len() ==> #[trigger] b.dispatch(ops, now).0[i] == (ops[i].0, ops[i].1, b.dispatch_legs(ops[i].2, now).0),
        forall|i: int, j: int|
            0 <= i < ops.len() && 0 <= j < ops[i].2.len() && b.due(#[trigger] ops[i].2[j], now) ==> b.dispatch(ops, now).1.contains(
                move_of(ops[i].2[j]),
            ),
        forall|k: int|
            0 <= k < b.dispatch(ops, now).1.len() ==> exists|i: int, j: int|
                0 <= i < ops.len() && 0 <= j < ops[i].2.len() && #[trigger] b.dispatch(ops, now).1[k] == move_of(ops[i].2[j]),
    decreases ops.len(),
{
    if ops.len() > 0 {
        let o0 = ops.drop_last();
        lemma_dispatch_ops(b, o0, now);
        let x = ops.last();
        assert(x == ops[ops.len() - 1]);
        lemma_dispatch_legs_moves(b, x.2, now);
        let (d0, m0) = b.dispatch(o0, now);
        let lm = b.dispatch_legs(x.2, now).1;
        let m = b.dispatch(ops, now).1;
        assert(m == m0 + lm);
        assert forall|i: int| 0 <= i < ops.len() implies #[trigger] b.dispatch(ops, now).0[i] == (ops[i].0, ops[i].1, b.dispatch_legs(ops[i].2, now).0) by {
            if i < o0.len() {
                assert(ops[i] == o0[i]);
            }
        }
        assert forall|i: int, j: int|
            0 <= i < ops.len() && 0 <= j < ops[i].2.len() && b.due(#[trigger] ops[i].2[j], now) implies m.contains(
                move_of(ops[i].2[j]),
            ) by {
            if i < o0.len() {
                assert(ops[i] == o0[i]);
                assert(o0[i].2[j] == ops[i].2[j]);
                let q = choose|q: int| 0 <= q < m0.len() && m0[q] == move_of(o0[i].2[j]);
                assert(m[q] == m0[q]);
            } else {
                let q = choose|q: int| 0 <= q < lm.len() && lm[q] == move_of(x.2[j]);
                assert(m[m0.len() + q] == lm[q]);
            }
        }
        assert forall|k: int| 0 <= k < m.len() implies exists|i: int, j: int|
            0 <= i < ops.len() && 0 <= j < ops[i].2.len() && #[trigger] m[k] == move_of(ops[i].2[j]) by {
            if k < m0.len() {
                assert(m[k] == m0[k]);
                let (i, j) = choose|i: int, j: int|
                    0 <= i < o0.len() && 0 <= j < o0[i].2.len() && m0[k] == move_of(o0[i].2[j]);
                assert(ops[i] == o0[i]);
            } else {
                assert(m[k] == lm[k - m0.len()]);
                let j = choose|j: int| 0 <= j < x.2.len() && lm[k - m0.len()] == move_of(x.2[j]);
                assert(ops[ops.len() - 1] == x);
            }
        }
    }
}

/// Evacuation, staging and consolidation move positive counts.
proof fn lemma_side_moves_positive(b: &SimpleBoard, d: SimpleDials, k: int, m: usize)
    ensures
        forall|i: int| 0 <= i < b.flee_moves(k).len() ==> (#[trigger] b.flee_moves(k)[i]).count > 0,
        forall|i: int| 0 <= i < b.stage_moves(d, m, k).len() ==> (#[trigger] b.stage_moves(d, m, k)[i]).count > 0,
        forall|i: int| 0 <= i < b.consolidate_moves(d, k).len() ==> (#[trigger] b.consolidate_moves(d, k)[i]).count > 0,
    decreases k,
{
    if k > 0 {
        lemma_side_moves_positive(b, d, k - 1, m);
        let f0 = b.flee_moves(k - 1);
        let f = b.flee_moves(k);
        assert forall|i: int| 0 <= i < f.len() implies (#[trigger] f[i]).count > 0 by {
            if i < f0.len() {
                assert(f[i] == f0[i]);
            }
        }
        let s = k - 1;
        let g0 = b.stage_moves(d, m, k - 1);
        let g = b.stage_moves(d, m, k);
        assert(b.my(s) <= u32::MAX);
        assert forall|i: int| 0 <= i < g.len() implies (#[trigger] g[i]).count > 0 by {
            if i < g0.len() {
                assert(g[i] == g0[i]);
            }
        }
        let c0 = b.consolidate_moves(d, k - 1);
        let c = b.consolidate_moves(d, k);
        assert forall|i: int| 0 <= i < c.len() implies (#[trigger] c[i]).count > 0 by {
            if i < c0.len() {
                assert(c[i] == c0[i]);
            }
        }
    }
}

/// `new` is the leg `old` after a tick: the same leg, and sent if `old` was.
pub open spec fn leg_kept(old: Leg, new: Leg) -> bool {
    &&& new.src == old.src
    &&& new.tgt == old.tgt
    &&& new.count == old.count
    &&& new.depart_at == old.depart_at
    &&& old.sent ==> new.sent
}

/// `new` is the ledger op `old` after a tick: same target and landing, each leg kept, and
/// each leg sent during the tick issued as one of `moves`.
pub open spec fn op_kept(old: (usize, u64, Seq<Leg>), new: (usize, u64, Seq<Leg>), moves: Seq<Move>) -> bool {
    &&& new.0 == old.0
    &&& new.1 == old.1
    &&& new.2.len() == old.2.len()
    &&& forall|j: int|
        0 <= j < old.2.len() ==> leg_kept(old.2[j], #[trigger] new.2[j]) && (new.2[j].sent && !old.2[j].sent
            ==> moves.contains(move_of(new.2[j])))
}

/// Every sent leg of the new op `new` was issued as one of `moves`.
pub open spec fn op_fresh(new: (usize, u64, Seq<Leg>), moves: Seq<Move>) -> bool {
    forall|j: int| 0 <= j < new.2.len() && (#[trigger] new.2[j]).sent ==> moves.contains(move_of(new.2[j]))
}

/// **A tick issues exactly what it sends.** Given a ledger that fits its board and whose legs
/// all carry ships, every move of the tick carries ships; every op of the ledger after the
/// tick is either an op of the ledger before it — same target, landing and legs, no sent leg
/// becoming unsent, and every leg sent during the tick issued as a move — or a new op every
/// sent leg of which was issued as a move.
pub proof fn law_step_issues_what_it_sends(b: &SimpleBoard, d: SimpleDials, ops: Seq<(usize, u64, Seq<Leg>)>, now: u64)
    requires
        b.wf(),
        ledger_fits(b, ops),
        forall|i: int, j: int| 0 <= i < ops.len() && 0 <= j < ops[i].2.len() ==> (#[trigger] ops[i].2[j]).count > 0,
    ensures
        forall|k: int| 0 <= k < step_spec(b, d, ops, now).1.len() ==> (#[trigger] step_spec(b, d, ops, now).1[k]).count > 0,
        forall|i: int|
            0 <= i < step_spec(b, d, ops, now).0.len() ==> (exists|q: int|
                0 <= q < ops.len() && op_kept(ops[q], #[trigger] step_spec(b, d, ops, now).0[i], step_spec(b, d, ops, now).1))
                || op_fresh(step_spec(b, d, ops, now).0[i], step_spec(b, d, ops, now).1),
{
    let r = step_spec(b, d, ops, now);
    if b.n() == 0 {
        assert forall|i: int| 0 <= i < r.0.len() implies (exists|q: int|
            0 <= q < ops.len() && op_kept(ops[q], #[trigger] r.0[i], r.1)) || op_fresh(r.0[i], r.1) by {
            assert(op_kept(ops[i], r.0[i], r.1));
        }
    } else {
        let e = expire(ops, now);
        let ops1 = cancel(b, e);
        lemma_expire_sub(ops, now, true, 0);
        lemma_cancel_sub(b, e, true, 0);
        let fm = b.flee_moves(b.n());
        let a0 = b.avail0(d, ops1);
        let (a1, mm) = if ops1.len() > 0 {
            b.man_fold(d, ops1, b.n(), a0)
        } else {
            (a0, Seq::empty())
        };
        if ops1.len() > 0 {
            lemma_man_fold_moves(b, d, ops1, b.n(), a0);
        }
        let p = b.mop_up(d, ops1, b.plan(d, ops1, a1));
        lemma_plan_accounts(b, d, ops1, a1);
        assert forall|s: usize| #[trigger] taken3(p.2, s) <= u32::MAX by {
            if s < b.n() {
                assert(p.0[s as int] + taken3(p.2, s) == a1[s as int]);
            } else {
                lemma_taken3_outside(p.2, s, b.n());
            }
        }
        let sm = b.stage(d, ops1, p.1);
        let cm = b.consolidate(d, ops1, p.1);
        let c = b.cands(d);
        match first_id(Seq::new(b.n() as nat, |s: int| b.owned(s) && !b.fort(s)), b.keys_to(c[0] as int)) {
            None => lemma_side_moves_positive(b, d, b.n(), 0),
            Some(m) => lemma_side_moves_positive(b, d, b.n(), m),
        }
        let committed = b.commit(ops1, p.1, p.2, now, p.1.len() as int);
        lemma_commit_shape(b, ops1, p.1, p.2, now, p.1.len() as int);
        let (dispatched, dm) = b.dispatch(committed, now);
        lemma_dispatch_ops(b, committed, now);
        assert(r == (dispatched, fm + mm + sm + cm + dm));
        let pre = fm + mm + sm + cm;
        assert forall|k: int| 0 <= k < dm.len() implies (#[trigger] dm[k]).count > 0 by {
            let (i, j) = choose|i: int, j: int|
                0 <= i < committed.len() && 0 <= j < committed[i].2.len() && dm[k] == move_of(committed[i].2[j]);
            if i < ops1.len() {
                assert(committed[i] == ops1[i]);
                let q2 = choose|q2: int| 0 <= q2 < e.len() && ops1[i] == e[q2];
                let q = choose|q: int| 0 <= q < ops.len() && e[q2] == ops[q];
                assert(ops[q].2[j].count > 0);
            }
        }
        assert forall|k: int| 0 <= k < r.1.len() implies (#[trigger] r.1[k]).count > 0 by {
            if k < fm.len() {
                assert(r.1[k] == fm[k]);
            } else if k < fm.len() + mm.len() {
                assert(r.1[k] == mm[k - fm.len()]);
            } else if k < fm.len() + mm.len() + sm.len() {
                assert(r.1[k] == sm[k - fm.len() - mm.len()]);
            } else if k < pre.len() {
                assert(r.1[k] == cm[k - fm.len() - mm.len() - sm.len()]);
            } else {
                assert(r.1[k] == dm[k - pre.len()]);
            }
        }
        assert forall|x: Move| dm.contains(x) implies #[trigger] r.1.contains(x) by {
            let q = choose|q: int| 0 <= q < dm.len() && dm[q] == x;
            assert(r.1[pre.len() + q] == dm[q]);
        }
        assert forall|i: int| 0 <= i < r.0.len() implies (exists|q: int|
            0 <= q < ops.len() && op_kept(ops[q], #[trigger] r.0[i], r.1)) || op_fresh(r.0[i], r.1) by {
            let ci = committed[i];
            let ni = r.0[i];
            assert(ni == (ci.0, ci.1, b.dispatch_legs(ci.2, now).0));
            law_dispatch_fires_due_legs(b, ci.2, now);
            if i < ops1.len() {
                assert(ci == ops1[i]);
                let q2 = choose|q2: int| 0 <= q2 < e.len() && ops1[i] == e[q2];
                let q = choose|q: int| 0 <= q < ops.len() && e[q2] == ops[q];
                assert forall|j: int| 0 <= j < ops[q].2.len() implies leg_kept(ops[q].2[j], #[trigger] ni.2[j]) && (ni.2[j].sent
                    && !ops[q].2[j].sent ==> r.1.contains(move_of(ni.2[j]))) by {
                    assert(ci.2[j] == ops[q].2[j]);
                    if b.due(ci.2[j], now) {
                        assert(dm.contains(move_of(committed[i].2[j])));
                        assert(r.1.contains(move_of(ci.2[j])));
                    }
                }
                assert(op_kept(ops[q], ni, r.1));
            } else {
                assert forall|j: int| 0 <= j < ni.2.len() && (#[trigger] ni.2[j]).sent implies r.1.contains(move_of(ni.2[j])) by {
                    assert(!committed[i].2[j].sent);
                    assert(b.due(ci.2[j], now));
                    assert(dm.contains(move_of(committed[i].2[j])));
                }
                assert(op_fresh(ni, r.1));
            }
        }
    }
}

/// **Departures are staggered so a taskforce lands together**: each committed leg toward the
/// target departs its travel time before the landing tick, and the walk of a teleporter-routed
/// pair departs its travel time before its hop (a departure is clamped at zero when the
/// landing is sooner than the travel).
pub proof fn law_legs_land_together(b: &SimpleBoard, c: Seq<(usize, u32)>, t: usize, land: u64)
    ensures
        forall|i: int|
            0 <= i < b.op_legs(c, t, land).len() ==> {
                let l = #[trigger] b.op_legs(c, t, land)[i];
                ||| (l.tgt == t && l.depart_at == sat(land as int, b.travel(l.src as int, t as int) as int))
                ||| (i + 1 < b.op_legs(c, t, land).len() && b.op_legs(c, t, land)[i + 1].src == l.tgt
                    && b.op_legs(c, t, land)[i + 1].tgt == t && l.depart_at == sat(
                    b.op_legs(c, t, land)[i + 1].depart_at as int,
                    b.travel(l.src as int, l.tgt as int) as int,
                ) && b.op_legs(c, t, land)[i + 1].depart_at == sat(
                    land as int,
                    b.travel(l.tgt as int, t as int) as int,
                ))
            },
        forall|i: int| 0 <= i < b.op_legs(c, t, land).len() ==> !(#[trigger] b.op_legs(c, t, land)[i]).sent,
    decreases c.len(),
{
    if c.len() > 0 {
        law_legs_land_together(b, c.drop_last(), t, land);
        let prev = b.op_legs(c.drop_last(), t, land);
        let (s, k) = c.last();
        let cur = b.op_legs(c, t, land);
        match b.gate_route(s as int, t as int) {
            Some(g) => {
                assert(cur.len() == prev.len() + 2);
                assert forall|i: int| 0 <= i < prev.len() implies #[trigger] cur[i] == prev[i] by {}
            },
            None => {
                assert(cur.len() == prev.len() + 1);
                assert forall|i: int| 0 <= i < prev.len() implies #[trigger] cur[i] == prev[i] by {}
            },
        }
    }
}

} // verus!
