//! The Simple seat's whole turn across a world of structs: with no producing sub left
//! anywhere, every ledger is dropped and each struct fights its last stand; otherwise each
//! struct the seat is present on runs one ledger step (a struct it has lost drops its
//! ledger), and the funnel sends staged storage toward the structs that still need ships.

use vstd::prelude::*;
use crate::faction::Faction;
use crate::funnel::{funnel_orders, funnel_upto, graph_wf, is_sink, struct_is_sink, UNREACHED};
use crate::last_stand::{last_stand, last_stand_spec, StandBoard};
use crate::simple::{ledger_view, Leg, Move, Op};
use crate::simple_step::{ledger_fits, step_spec, SimpleBoard, SimpleDials, SimpleLedger};

verus! {

/// One struct of the seat's turn, as the host read it.
pub struct StructTurn {
    /// The struct priced for the Simple program.
    pub board: SimpleBoard,
    /// The struct as the last stand sees it.
    pub stand: StandBoard,
    /// The seat holds a sub or a ship on the struct.
    pub present: bool,
    /// The seat has ships on the struct (storage the funnel can send on).
    pub has_ships: bool,
    /// The seat owns a producing sub on the struct.
    pub producing: bool,
}

/// The orders of one turn.
pub struct SimpleTurn {
    /// Per struct: the internal moves of its ledger step.
    pub moves: Vec<Vec<Move>>,
    /// Per struct: the last-stand orders `(source, target)`, moving every idle ship.
    pub stand: Vec<Vec<(usize, usize)>>,
    /// Inter-struct fleets `(from, to)`, each shipping all staged storage.
    pub fleets: Vec<(usize, usize)>,
}

/// The seat owns a producing sub somewhere.
pub open spec fn has_economy(structs: Seq<StructTurn>) -> bool {
    exists|p: int| 0 <= p < structs.len() && #[trigger] structs[p].producing
}

/// The structs that still need ships.
pub open spec fn sink_mask(structs: Seq<StructTurn>) -> Seq<bool> {
    Seq::new(structs.len(), |p: int| is_sink(&structs[p].board))
}

/// The structs holding the seat's ships.
pub open spec fn ships_mask(structs: Seq<StructTurn>) -> Seq<bool> {
    Seq::new(structs.len(), |p: int| structs[p].has_ships)
}

/// The ledger struct `p` starts the turn with: its own, or an empty one for a struct not
/// tracked before.
pub open spec fn carried(ops: Seq<Vec<Op>>, p: int) -> Seq<(usize, u64, Seq<Leg>)> {
    if p < ops.len() {
        ledger_view(ops[p]@)
    } else {
        Seq::empty()
    }
}

/// The turn's inputs are well formed: every board is, the lane graph is square over the
/// structs, and each ledger the seat steps fits its struct.
pub open spec fn turn_wf(ops: Seq<Vec<Op>>, structs: Seq<StructTurn>, connected: Seq<Seq<bool>>) -> bool {
    &&& structs.len() < UNREACHED
    &&& connected.len() == structs.len()
    &&& forall|p: int| 0 <= p < structs.len() ==> (#[trigger] connected[p]).len() == structs.len()
    &&& forall|p: int|
        0 <= p < structs.len() ==> (#[trigger] structs[p]).board.wf() && structs[p].stand.wf()
    &&& forall|p: int|
        0 <= p < structs.len() && (#[trigger] structs[p]).present ==> ledger_fits(
            &structs[p].board,
            carried(ops, p),
        )
}

impl SimpleLedger {
    /// **One turn of the Simple seat** over `structs`. Without an economy anywhere every
    /// ledger is cleared and each struct's orders are its last stand; otherwise each struct the
    /// seat is present on runs one ledger step (the others drop their ledgers), and the fleets
    /// are the funnel orders toward the sinks.
    pub fn turn(
        &mut self,
        structs: &Vec<StructTurn>,
        connected: &Vec<Vec<bool>>,
        d: SimpleDials,
        now: u64,
        seat: Faction,
    ) -> (t: SimpleTurn)
        requires
            turn_wf(old(self).operations@, structs@, connected@.map_values(|r: Vec<bool>| r@)),
        ensures
            final(self).operations@.len() == structs@.len(),
            t.moves@.len() == structs@.len(),
            t.stand@.len() == structs@.len(),
            !has_economy(structs@) ==> {
                &&& t.fleets@.len() == 0
                &&& forall|p: int|
                    0 <= p < structs@.len() ==> {
                        &&& (#[trigger] final(self).operations@[p])@.len() == 0
                        &&& t.moves@[p]@.len() == 0
                        &&& t.stand@[p]@ == last_stand_spec(&structs@[p].stand, now, seat)
                    }
            },
            has_economy(structs@) ==> {
                &&& t.fleets@ == funnel_upto(
                    sink_mask(structs@),
                    connected@.map_values(|r: Vec<bool>| r@),
                    ships_mask(structs@),
                    structs@.len() as int,
                )
                &&& forall|p: int|
                    0 <= p < structs@.len() ==> {
                        &&& t.stand@[p]@.len() == 0
                        &&& (structs@[p].present ==> (
                            ledger_view((#[trigger] final(self).operations@[p])@),
                            t.moves@[p]@,
                        ) == step_spec(&structs@[p].board, d, carried(old(self).operations@, p), now))
                        &&& (!structs@[p].present ==> final(self).operations@[p]@.len() == 0
                            && t.moves@[p]@.len() == 0)
                    }
            },
    {
        let n = structs.len();
        let ghost old_ops = self.operations@;
        self.track_structs(n);
        let ghost start = self.operations@;
        assert forall|p: int| 0 <= p < n implies ledger_view(#[trigger] start[p]@) == carried(old_ops, p) by {
            if p >= old_ops.len() {
                assert(ledger_view(start[p]@) =~= Seq::<(usize, u64, Seq<Leg>)>::empty());
            }
        }
        let mut economy = false;
        let mut k: usize = 0;
        while k < n
            invariant
                n == structs@.len(),
                0 <= k <= n,
                economy == exists|p: int| 0 <= p < k && #[trigger] structs@[p].producing,
            decreases n - k,
        {
            if structs[k].producing {
                economy = true;
            }
            k = k + 1;
        }
        let mut moves: Vec<Vec<Move>> = Vec::new();
        let mut stand: Vec<Vec<(usize, usize)>> = Vec::new();
        if !economy {
            self.clear_all();
            let mut p: usize = 0;
            while p < n
                invariant
                    n == structs@.len(),
                    turn_wf(old_ops, structs@, connected@.map_values(|r: Vec<bool>| r@)),
                    0 <= p <= n,
                    moves@.len() == p,
                    stand@.len() == p,
                    forall|q: int| 0 <= q < p ==> (#[trigger] moves@[q])@.len() == 0,
                    forall|q: int| 0 <= q < p ==> (#[trigger] stand@[q])@ == last_stand_spec(&structs@[q].stand, now, seat),
                decreases n - p,
            {
                assert(structs@[p as int].stand.wf());
                stand.push(last_stand(&structs[p].stand, now, seat));
                moves.push(Vec::new());
                p = p + 1;
            }
            return SimpleTurn { moves, stand, fleets: Vec::new() };
        }
        let mut sinks: Vec<bool> = Vec::new();
        let mut ships: Vec<bool> = Vec::new();
        let mut p: usize = 0;
        while p < n
            invariant
                n == structs@.len(),
                turn_wf(old_ops, structs@, connected@.map_values(|r: Vec<bool>| r@)),
                forall|q: int| 0 <= q < n ==> ledger_view(#[trigger] start[q]@) == carried(old_ops, q),
                self.operations@.len() == n,
                0 <= p <= n,
                moves@.len() == p,
                stand@.len() == p,
                sinks@.len() == p,
                ships@.len() == p,
                forall|q: int| 0 <= q < p ==> #[trigger] sinks@[q] == is_sink(&structs@[q].board),
                forall|q: int| 0 <= q < p ==> #[trigger] ships@[q] == structs@[q].has_ships,
                forall|q: int| 0 <= q < p ==> (#[trigger] stand@[q])@.len() == 0,
                forall|q: int| p <= q < n ==> #[trigger] self.operations@[q] == start[q],
                forall|q: int|
                    0 <= q < p && structs@[q].present ==> (
                        ledger_view((#[trigger] self.operations@[q])@),
                        moves@[q]@,
                    ) == step_spec(&structs@[q].board, d, carried(old_ops, q), now),
                forall|q: int|
                    0 <= q < p && !structs@[q].present ==> (#[trigger] self.operations@[q])@.len() == 0,
                forall|q: int| 0 <= q < p && !structs@[q].present ==> (#[trigger] moves@[q])@.len() == 0,
            decreases n - p,
        {
            let st = &structs[p];
            assert(st.board.wf());
            let ghost before = self.operations@;
            let ghost mv = moves@;
            sinks.push(struct_is_sink(&st.board));
            ships.push(st.has_ships);
            stand.push(Vec::new());
            if !st.present {
                self.forget(p);
                moves.push(Vec::new());
            } else {
                assert(ledger_fits(&st.board, ledger_view(self.operations@[p as int]@)));
                let m = self.step(p, &st.board, d, now);
                moves.push(m);
            }
            assert forall|q: int| 0 <= q < n && q != p implies #[trigger] self.operations@[q] == before[q] by {}
            assert forall|q: int| 0 <= q < p implies #[trigger] moves@[q] == mv[q] by {}
            p = p + 1;
        }
        assert(sinks@ =~= sink_mask(structs@));
        assert(ships@ =~= ships_mask(structs@));
        let fleets = funnel_orders(&sinks, connected, &ships);
        SimpleTurn { moves, stand, fleets }
    }
}

} // verus!
