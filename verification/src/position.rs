//! The abstract position board every policy of this crate reasons over.
//!
//! A *position* is identified by its index `0..len`. For each position the board carries a
//! seat-relative snapshot ([`PositionInfo`]), a **distance rank** to every other position
//! (`None` = unreachable), whether the position may export surplus this decision, and the
//! projection's next owner. Only the *ordering* of distances is ever used by the policies, so a
//! distance is stored as an unsigned rank whose order is the order of the real distances (a
//! host converts a non-negative `f32` distance with `f32::to_bits`, which preserves order).

use vstd::prelude::*;

verus! {

/// Ownership of a position **relative to the acting seat**.
#[derive(Debug, Clone, Copy, PartialEq, Eq, Structural)]
pub enum PosOwner {
    /// Owned by the seat the policy is deciding for.
    Me,
    /// Owned by the opponent.
    Enemy,
    /// Unowned / neutral — capturable.
    Neutral,
}

/// A side **relative to the acting seat**.
#[derive(Debug, Clone, Copy, PartialEq, Eq, Structural)]
pub enum Side {
    /// The acting seat.
    Me,
    /// The acting seat's opponent.
    Foe,
}

/// Per-position snapshot the policies reason over.
#[derive(Debug, Clone, Copy, PartialEq, Eq, Structural)]
pub struct PositionInfo {
    /// The position's id (its index on the board).
    pub id: usize,
    /// Ownership from the acting seat's point of view.
    pub owner: PosOwner,
    /// Living ships of the acting seat at the position.
    pub my_ships: u32,
    /// Living ships of the enemy at the position.
    pub enemy_ships: u32,
    /// True if both sides have a presence here (the position is being fought over).
    pub contested: bool,
}

/// The board: one snapshot per position, the pairwise distance ranks, the export gate and the
/// projected next owner of every position.
pub struct PositionView {
    /// `infos[i]` is the snapshot of position `i` (and `infos[i].id == i`).
    pub infos: Vec<PositionInfo>,
    /// `dist[a][b]` is the distance rank from `a` to `b`, `None` when `b` is unreachable from `a`.
    pub dist: Vec<Vec<Option<u64>>>,
    /// `export_ok[i]`: position `i` may act as an export source this decision.
    pub export_ok: Vec<bool>,
    /// `next_owner[i]`: who holds position `i` right after its first projected ownership change,
    /// `None` if it does not change within the projection horizon.
    pub next_owner: Vec<Option<Side>>,
    /// `parked_ratio[i]`: the seat's parked ships over its soft cap at position `i`, as an
    /// order-preserving key of the non-negative ratio.
    pub parked_ratio: Vec<u64>,
}

impl PositionView {
    /// Number of positions.
    pub open spec fn size(&self) -> nat {
        self.infos@.len()
    }

    /// The snapshot of position `i`.
    pub open spec fn info(&self, i: int) -> PositionInfo {
        self.infos@[i]
    }

    /// The distance rank from `a` to `b`.
    pub open spec fn d(&self, a: int, b: int) -> Option<u64> {
        self.dist@[a]@[b]
    }

    /// `b` is reachable from `a` (a legal destination of a move from `a`).
    pub open spec fn reach(&self, a: int, b: int) -> bool {
        self.d(a, b) is Some
    }

    /// The board is well formed: every per-position table has one entry per position, the
    /// distance table is square, and each snapshot carries its own index as id.
    pub open spec fn wf(&self) -> bool {
        &&& self.size() <= usize::MAX
        &&& self.dist@.len() == self.size()
        &&& forall|a: int| 0 <= a < self.size() ==> (#[trigger] self.dist@[a])@.len() == self.size()
        &&& self.export_ok@.len() == self.size()
        &&& self.next_owner@.len() == self.size()
        &&& self.parked_ratio@.len() == self.size()
        &&& forall|i: int| 0 <= i < self.size() ==> (#[trigger] self.infos@[i]).id == i
    }

    /// A board whose positions are all exportable, whose projection predicts no ownership
    /// change and whose parked pressure is zero; `None` if the tables do not describe a
    /// well-formed board.
    pub fn new(infos: Vec<PositionInfo>, dist: Vec<Vec<Option<u64>>>) -> (r: Option<PositionView>)
        ensures
            r is Some <==> {
                &&& dist@.len() == infos@.len()
                &&& forall|a: int| 0 <= a < infos@.len() ==> (#[trigger] dist@[a])@.len() == infos@.len()
                &&& forall|i: int| 0 <= i < infos@.len() ==> (#[trigger] infos@[i]).id == i
            },
            r matches Some(v) ==> {
                &&& v.wf()
                &&& v.infos@ == infos@
                &&& v.dist@ == dist@
                &&& forall|i: int| 0 <= i < v.size() ==> #[trigger] v.export_ok@[i]
                &&& forall|i: int| 0 <= i < v.size() ==> (#[trigger] v.next_owner@[i]) is None
                &&& forall|i: int| 0 <= i < v.size() ==> #[trigger] v.parked_ratio@[i] == 0
            },
    {
        let n = infos.len();
        if dist.len() != n {
            return None;
        }
        let mut i: usize = 0;
        while i < n
            invariant
                n == infos@.len(),
                dist@.len() == n,
                0 <= i <= n,
                forall|a: int| 0 <= a < i ==> (#[trigger] dist@[a])@.len() == n,
                forall|a: int| 0 <= a < i ==> (#[trigger] infos@[a]).id == a,
            decreases n - i,
        {
            if dist[i].len() != n || infos[i].id != i {
                return None;
            }
            i = i + 1;
        }
        let mut export_ok: Vec<bool> = Vec::new();
        let mut next_owner: Vec<Option<Side>> = Vec::new();
        let mut parked_ratio: Vec<u64> = Vec::new();
        let mut k: usize = 0;
        while k < n
            invariant
                0 <= k <= n,
                export_ok@.len() == k,
                next_owner@.len() == k,
                parked_ratio@.len() == k,
                forall|a: int| 0 <= a < k ==> #[trigger] export_ok@[a],
                forall|a: int| 0 <= a < k ==> (#[trigger] next_owner@[a]) is None,
                forall|a: int| 0 <= a < k ==> #[trigger] parked_ratio@[a] == 0,
            decreases n - k,
        {
            export_ok.push(true);
            next_owner.push(None);
            parked_ratio.push(0);
            k = k + 1;
        }
        Some(PositionView { infos, dist, export_ok, next_owner, parked_ratio })
    }

    /// Gate (or re-open) position `id` as an export source.
    pub fn set_export_ok(&mut self, id: usize, ok: bool)
        requires
            old(self).wf(),
            id < old(self).size(),
        ensures
            final(self).wf(),
            final(self).infos@ == old(self).infos@,
            final(self).dist@ == old(self).dist@,
            final(self).next_owner@ == old(self).next_owner@,
            final(self).parked_ratio@ == old(self).parked_ratio@,
            final(self).export_ok@ == old(self).export_ok@.update(id as int, ok),
    {
        self.export_ok.set(id, ok);
    }

    /// Record the projection's next owner of position `id`.
    pub fn set_next_owner(&mut self, id: usize, owner: Option<Side>)
        requires
            old(self).wf(),
            id < old(self).size(),
        ensures
            final(self).wf(),
            final(self).infos@ == old(self).infos@,
            final(self).dist@ == old(self).dist@,
            final(self).export_ok@ == old(self).export_ok@,
            final(self).parked_ratio@ == old(self).parked_ratio@,
            final(self).next_owner@ == old(self).next_owner@.update(id as int, owner),
    {
        self.next_owner.set(id, owner);
    }

    /// Record the parked pressure at position `id` (an order-preserving key of the ratio).
    pub fn set_parked_ratio(&mut self, id: usize, ratio: u64)
        requires
            old(self).wf(),
            id < old(self).size(),
        ensures
            final(self).wf(),
            final(self).infos@ == old(self).infos@,
            final(self).dist@ == old(self).dist@,
            final(self).export_ok@ == old(self).export_ok@,
            final(self).next_owner@ == old(self).next_owner@,
            final(self).parked_ratio@ == old(self).parked_ratio@.update(id as int, ratio),
    {
        self.parked_ratio.set(id, ratio);
    }

    /// Number of positions.
    pub fn len(&self) -> (r: usize)
        ensures
            r == self.size(),
    {
        self.infos.len()
    }

    /// True when the board has no positions.
    pub fn is_empty(&self) -> (r: bool)
        ensures
            r == (self.size() == 0),
    {
        self.infos.len() == 0
    }

    /// The snapshot of position `id`.
    pub fn info_of(&self, id: usize) -> (r: PositionInfo)
        requires
            id < self.size(),
        ensures
            r == self.info(id as int),
    {
        self.infos[id]
    }

    /// The distance rank from `from` to `to` (`None` = unreachable).
    pub fn distance(&self, from: usize, to: usize) -> (r: Option<u64>)
        requires
            self.wf(),
            from < self.size(),
            to < self.size(),
        ensures
            r == self.d(from as int, to as int),
    {
        self.dist[from][to]
    }

    /// Whether `to` is a legal destination of a move from `from`.
    pub fn reachable(&self, from: usize, to: usize) -> (r: bool)
        requires
            self.wf(),
            from < self.size(),
            to < self.size(),
        ensures
            r == self.reach(from as int, to as int),
    {
        self.dist[from][to].is_some()
    }

    /// Whether `from` may export surplus this decision.
    pub fn can_export_from(&self, from: usize) -> (r: bool)
        requires
            self.wf(),
            from < self.size(),
        ensures
            r == self.export_ok@[from as int],
    {
        self.export_ok[from]
    }

    /// The projection's next owner of `id`.
    pub fn projected_next_owner(&self, id: usize) -> (r: Option<Side>)
        requires
            self.wf(),
            id < self.size(),
        ensures
            r == self.next_owner@[id as int],
    {
        self.next_owner[id]
    }
}

} // verus!
