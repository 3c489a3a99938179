//! The Counter's **exploit candidates**: short vocabulary programs that punish a profiled
//! weakness. Each is a pure read of the [`PositionView`] board; which one (if any) is shipped is
//! decided by the host's projection scoring.

use vstd::prelude::*;
use crate::position::{PosOwner, PositionView};
use crate::greedy::{
    build_mask, mask_of, nearest, nearest_spec, ranks_before, GreedyAction, GreedyKind, Select,
};
use crate::vocab::{foe_present_spec, surplus_of, surplus_of_spec};

verus! {

/// The garrison floor every exploit keeps on an owned position; ships above it are surplus.
pub const GARRISON_FLOOR: u32 = 2;

/// One synthesizable exploit — the legible name of the weak module it punishes.
#[derive(Debug, Clone, Copy, PartialEq, Eq, Structural)]
pub enum Exploit {
    /// Against a seat that never guards its rear: flank the thinly-held rear.
    FlankRear,
    /// Against an over-committer: let its wave break, then press the emptied rear.
    CounterPunch,
    /// Against a hoarder bleeding to its soft cap: keep our own surplus in motion.
    OutTempo,
}

impl Exploit {
    /// A short human-readable name (the legible read).
    pub fn name(self) -> (r: &'static str)
        ensures
            r@ == match self {
                Exploit::FlankRear => "flank-undefended-rear"@,
                Exploit::CounterPunch => "counterpunch-emptied-rear"@,
                Exploit::OutTempo => "out-tempo-the-hoard"@,
            },
    {
        match self {
            Exploit::FlankRear => "flank-undefended-rear",
            Exploit::CounterPunch => "counterpunch-emptied-rear",
            Exploit::OutTempo => "out-tempo-the-hoard",
        }
    }
}

// =====================================================================================
// Specification.
// =====================================================================================

/// `j` is a foe-bearing position other than `from`, reachable from it.
pub open spec fn foe_target(v: &PositionView, from: int, j: int) -> bool {
    j != from && foe_present_spec(v, j) && v.reach(from, j)
}

/// `a` is no stronger a foe position than `b` as seen from `from`: fewer enemy ships, then
/// nearer, then the lower id.
pub open spec fn thinner(v: &PositionView, from: int, a: int, b: int) -> bool {
    let ea = v.info(a).enemy_ships;
    let eb = v.info(b).enemy_ships;
    ea < eb || (ea == eb && ranks_before(v.d(from, a)->0, a, v.d(from, b)->0, b))
}

/// `t` is the thinnest reachable foe position from `from`.
pub open spec fn is_thinnest_foe(v: &PositionView, from: int, t: int) -> bool {
    &&& 0 <= t < v.size()
    &&& foe_target(v, from, t)
    &&& forall|j: int| 0 <= j < v.size() && #[trigger] foe_target(v, from, j) ==> thinner(v, from, t, j)
}

/// The thinnest reachable foe position from `from`, `None` if no foe position is reachable.
pub open spec fn thinnest_foe_spec(v: &PositionView, from: int) -> Option<usize> {
    if exists|t: int| is_thinnest_foe(v, from, t) {
        Some((choose|t: int| is_thinnest_foe(v, from, t)) as usize)
    } else {
        None
    }
}

/// The nearest reachable foe-free position from `from` that is a neutral or a friendly strictly
/// thinner than `from`.
pub open spec fn expandable_spec(v: &PositionView, from: int) -> Option<usize> {
    nearest_spec(v, from, mask_of(v, Select::Expandable, from, v.info(from).my_ships))
}

/// The surplus an exploit may ship from `from`: an owned, exportable position's ships above the
/// garrison floor, if any.
pub open spec fn source_surplus(v: &PositionView, from: int) -> Option<u32> {
    if v.info(from).owner == PosOwner::Me && v.export_ok@[from] {
        surplus_of_spec(v, from, GARRISON_FLOOR)
    } else {
        None
    }
}

/// The wave position `from` sends toward `aim`, if it has a surplus and an aim.
pub open spec fn wave_to(v: &PositionView, from: int, aim: Option<usize>) -> Option<GreedyAction> {
    match source_surplus(v, from) {
        None => None,
        Some(s) => match aim {
            None => None,
            Some(t) => Some(GreedyAction { from: from as usize, to: t, count: s, kind: GreedyKind::Wave }),
        },
    }
}

/// The flank waves of the first `k` positions, in ascending source order.
pub open spec fn flank_upto(v: &PositionView, k: int) -> Seq<GreedyAction>
    decreases k,
{
    if k <= 0 {
        Seq::empty()
    } else {
        let prev = flank_upto(v, k - 1);
        match wave_to(v, k - 1, thinnest_foe_spec(v, k - 1)) {
            Some(a) => prev.push(a),
            None => prev,
        }
    }
}

/// The out-tempo waves of the first `k` positions, in ascending source order.
pub open spec fn tempo_upto(v: &PositionView, k: int) -> Seq<GreedyAction>
    decreases k,
{
    if k <= 0 {
        Seq::empty()
    } else {
        let prev = tempo_upto(v, k - 1);
        match wave_to(v, k - 1, expandable_spec(v, k - 1)) {
            Some(a) => prev.push(a),
            None => prev,
        }
    }
}

// =====================================================================================
// Lemmas.
// =====================================================================================

/// At most one position is the thinnest foe.
pub proof fn lemma_thinnest_unique(v: &PositionView, from: int, a: int, b: int)
    requires
        is_thinnest_foe(v, from, a),
        is_thinnest_foe(v, from, b),
    ensures
        a == b,
{
    assert(foe_target(v, from, a));
    assert(foe_target(v, from, b));
}

/// A witnessed thinnest foe is the one `thinnest_foe_spec` names.
pub proof fn lemma_thinnest_is(v: &PositionView, from: int, t: int)
    requires
        is_thinnest_foe(v, from, t),
    ensures
        thinnest_foe_spec(v, from) == Some(t as usize),
{
    let c = choose|c: int| is_thinnest_foe(v, from, c);
    lemma_thinnest_unique(v, from, c, t);
}

/// Every wave of a flank or out-tempo program ships from an owned, exportable position exactly
/// its surplus above the garrison floor, and the sources strictly increase.
pub proof fn lemma_exploit_waves_shape(v: &PositionView, k: int)
    requires
        0 <= k <= usize::MAX,
    ensures
        forall|i: int|
            0 <= i < flank_upto(v, k).len() ==> {
                let a = #[trigger] flank_upto(v, k)[i];
                &&& a.from < k
                &&& a.kind == GreedyKind::Wave
                &&& source_surplus(v, a.from as int) == Some(a.count)
                &&& thinnest_foe_spec(v, a.from as int) == Some(a.to)
            },
        forall|i: int, j: int|
            0 <= i < j < flank_upto(v, k).len() ==> (#[trigger] flank_upto(v, k)[i]).from
                < (#[trigger] flank_upto(v, k)[j]).from,
        forall|i: int|
            0 <= i < tempo_upto(v, k).len() ==> {
                let a = #[trigger] tempo_upto(v, k)[i];
                &&& a.from < k
                &&& a.kind == GreedyKind::Wave
                &&& source_surplus(v, a.from as int) == Some(a.count)
                &&& expandable_spec(v, a.from as int) == Some(a.to)
            },
        forall|i: int, j: int|
            0 <= i < j < tempo_upto(v, k).len() ==> (#[trigger] tempo_upto(v, k)[i]).from
                < (#[trigger] tempo_upto(v, k)[j]).from,
    decreases k,
{
    if k > 0 {
        lemma_exploit_waves_shape(v, k - 1);
        let f = flank_upto(v, k - 1);
        match wave_to(v, k - 1, thinnest_foe_spec(v, k - 1)) {
            Some(a) => {
                assert(flank_upto(v, k) == f.push(a));
            },
            None => {},
        }
        let g = tempo_upto(v, k - 1);
        match wave_to(v, k - 1, expandable_spec(v, k - 1)) {
            Some(a) => {
                assert(tempo_upto(v, k) == g.push(a));
            },
            None => {},
        }
    }
}

// =====================================================================================
// Implementation.
// =====================================================================================

/// The **thinnest reachable foe-bearing** position from `from` (fewest enemy ships present,
/// nearest on ties, then lowest id): the rear an exploiter flanks. `None` if no foe position is
/// reachable.
pub fn thinnest_reachable_foe(view: &PositionView, from: usize) -> (r: Option<usize>)
    requires
        view.wf(),
        from < view.size(),
    ensures
        r == thinnest_foe_spec(view, from as int),
        r matches Some(t) ==> is_thinnest_foe(view, from as int, t as int),
        r is None ==> forall|j: int| 0 <= j < view.size() ==> !foe_target(view, from as int, j),
{
    let n = view.len();
    let mut best: Option<(usize, u32, u64)> = None;
    let mut to: usize = 0;
    while to < n
        invariant
            view.wf(),
            n == view.size(),
            from < n,
            0 <= to <= n,
            best matches Some((b, be, bd)) ==> {
                &&& 0 <= b < to
                &&& foe_target(view, from as int, b as int)
                &&& view.info(b as int).enemy_ships == be
                &&& view.d(from as int, b as int) == Some(bd)
                &&& forall|j: int|
                    0 <= j < to && #[trigger] foe_target(view, from as int, j) ==> thinner(
                        view,
                        from as int,
                        b as int,
                        j,
                    )
            },
            best is None ==> forall|j: int| 0 <= j < to ==> !#[trigger] foe_target(view, from as int, j),
        decreases n - to,
    {
        let i = view.infos[to];
        let foe = i.owner == PosOwner::Enemy || i.enemy_ships > 0;
        if to != from && foe {
            match view.dist[from][to] {
                None => {},
                Some(d) => {
                    let e = i.enemy_ships;
                    match best {
                        Some((_, be, bd)) => {
                            if !(be < e || (be == e && bd <= d)) {
                                best = Some((to, e, d));
                            }
                        },
                        None => {
                            best = Some((to, e, d));
                        },
                    }
                },
            }
        }
        to = to + 1;
    }
    match best {
        Some((b, _, _)) => {
            proof {
                assert(is_thinnest_foe(view, from as int, b as int));
                lemma_thinnest_is(view, from as int, b as int);
            }
            Some(b)
        },
        None => {
            assert(!exists|t: int| is_thinnest_foe(view, from as int, t));
            None
        },
    }
}

/// The nearest reachable **expandable** position from `from`: a foe-free neutral, or a foe-free
/// friendly strictly thinner than the source. `None` if none is reachable.
pub fn nearest_expandable(view: &PositionView, from: usize) -> (r: Option<usize>)
    requires
        view.wf(),
        from < view.size(),
    ensures
        r == expandable_spec(view, from as int),
{
    let mask = build_mask(view, Select::Expandable, from, view.infos[from].my_ships);
    nearest(view, from, &mask)
}

/// The surplus above the garrison floor an owned, exportable position may ship.
fn source_surplus_exec(view: &PositionView, from: usize) -> (r: Option<u32>)
    requires
        view.wf(),
        from < view.size(),
    ensures
        r == source_surplus(view, from as int),
{
    if view.infos[from].owner == PosOwner::Me && view.export_ok[from] {
        surplus_of(view, from, GARRISON_FLOOR)
    } else {
        None
    }
}

/// **flank-undefended-rear**: every owned, exportable position with surplus above the garrison
/// floor ships that whole surplus onto the thinnest reachable foe position.
pub fn flank_rear(view: &PositionView) -> (acts: Vec<GreedyAction>)
    requires
        view.wf(),
    ensures
        acts@ == flank_upto(view, view.size() as int),
{
    let n = view.len();
    let mut acts: Vec<GreedyAction> = Vec::new();
    let mut from: usize = 0;
    while from < n
        invariant
            view.wf(),
            n == view.size(),
            0 <= from <= n,
            acts@ == flank_upto(view, from as int),
        decreases n - from,
    {
        let s = source_surplus_exec(view, from);
        match s {
            Some(surplus) => {
                match thinnest_reachable_foe(view, from) {
                    Some(target) => {
                        acts.push(
                            GreedyAction { from, to: target, count: surplus, kind: GreedyKind::Wave },
                        );
                    },
                    None => {},
                }
            },
            None => {},
        }
        from = from + 1;
    }
    acts
}

/// **counterpunch-emptied-rear**: against an over-committer, press the weakest reachable foe
/// position from every owned source — the same waves as the flank, composed with a defending
/// backbone instead of an attacking one.
pub fn counterpunch(view: &PositionView) -> (acts: Vec<GreedyAction>)
    requires
        view.wf(),
    ensures
        acts@ == flank_upto(view, view.size() as int),
{
    flank_rear(view)
}

/// **out-tempo-the-hoard**: every owned, exportable position with surplus above the garrison
/// floor ships that whole surplus to the nearest expandable position.
pub fn out_tempo(view: &PositionView) -> (acts: Vec<GreedyAction>)
    requires
        view.wf(),
    ensures
        acts@ == tempo_upto(view, view.size() as int),
{
    let n = view.len();
    let mut acts: Vec<GreedyAction> = Vec::new();
    let mut from: usize = 0;
    while from < n
        invariant
            view.wf(),
            n == view.size(),
            0 <= from <= n,
            acts@ == tempo_upto(view, from as int),
        decreases n - from,
    {
        let s = source_surplus_exec(view, from);
        match s {
            Some(surplus) => {
                match nearest_expandable(view, from) {
                    Some(target) => {
                        acts.push(
                            GreedyAction { from, to: target, count: surplus, kind: GreedyKind::Wave },
                        );
                    },
                    None => {},
                }
            },
            None => {},
        }
        from = from + 1;
    }
    acts
}

} // verus!
