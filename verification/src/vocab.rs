//! The shared automaton **vocabulary**: named PREDICATES (yes/no facts about a position now)
//! and ACTIONS (one atomic thing to do with a position's surplus), each a pure read of the
//! [`PositionView`] board. A policy is a short program over these words: for each owned
//! position, look at some predicates and emit one action.

use vstd::prelude::*;
use crate::position::{PosOwner, PositionView, Side};
use crate::greedy::{
    count_owned, mask_of, nearest, nearest_spec, superior, surplus, GreedyAction, GreedyKind,
    Select,
};

verus! {

/// The no-mechanic-constant marker: the AI answers every mechanic question through a projection
/// query or a property accessor, never a raw constant or formula; the only numbers it names are
/// policy tunables.
pub const NO_MECHANIC_CONSTANTS: &'static str =
    "ai answers every mechanic question via a projection query or a property accessor — never a raw constant/formula. The only numbers in ai are policy tunables in the *Params structs.";

/// A foe is present at the position: it is enemy-owned or enemy ships are there.
pub open spec fn foe_present_spec(v: &PositionView, id: int) -> bool {
    v.info(id).owner == PosOwner::Enemy || v.info(id).enemy_ships > 0
}

/// The movable surplus of an owned position above `floor`, if positive.
pub open spec fn surplus_of_spec(v: &PositionView, id: int, floor: u32) -> Option<u32> {
    if v.info(id).owner != PosOwner::Me || surplus(v.info(id).my_ships, floor) == 0 {
        None
    } else {
        Some(surplus(v.info(id).my_ships, floor))
    }
}

/// A capture wave of up to `size` surplus ships from `from` toward `target`, if any.
pub open spec fn wave_spec(v: &PositionView, from: usize, target: usize, size: u32, floor: u32) -> Option<GreedyAction> {
    match surplus_of_spec(v, from as int, floor) {
        None => None,
        Some(s) => if size == 0 {
            None
        } else {
            Some(
                GreedyAction {
                    from,
                    to: target,
                    count: if size < s {
                        size
                    } else {
                        s
                    },
                    kind: GreedyKind::Wave,
                },
            )
        },
    }
}

/// A denial detachment of exactly `detach` ships from `from` onto `target`, if the surplus
/// fields it.
pub open spec fn deny_spec(v: &PositionView, from: usize, target: usize, detach: u32, floor: u32) -> Option<GreedyAction> {
    match surplus_of_spec(v, from as int, floor) {
        None => None,
        Some(s) => if s >= detach && detach > 0 {
            Some(GreedyAction { from, to: target, count: detach, kind: GreedyKind::Deny })
        } else {
            None
        },
    }
}

/// The whole surplus of `from` pulled back to the nearest safe owned position, if any.
pub open spec fn retreat_spec(v: &PositionView, from: usize, floor: u32) -> Option<GreedyAction> {
    match surplus_of_spec(v, from as int, floor) {
        None => None,
        Some(s) => match nearest_spec(
            v,
            from as int,
            mask_of(v, Select::SafeOwned, from as int, v.info(from as int).my_ships),
        ) {
            None => None,
            Some(to) => Some(GreedyAction { from, to, count: s, kind: GreedyKind::Retreat }),
        },
    }
}

/// **owned_by_me** — the acting seat owns this position.
pub fn owned_by_me(view: &PositionView, id: usize) -> (r: bool)
    requires
        id < view.size(),
    ensures
        r == (view.info(id as int).owner == PosOwner::Me),
{
    view.infos[id].owner == PosOwner::Me
}

/// **owned_by_foe** — the opponent owns this position.
pub fn owned_by_foe(view: &PositionView, id: usize) -> (r: bool)
    requires
        id < view.size(),
    ensures
        r == (view.info(id as int).owner == PosOwner::Enemy),
{
    view.infos[id].owner == PosOwner::Enemy
}

/// **neutral** — the position is unowned.
pub fn neutral(view: &PositionView, id: usize) -> (r: bool)
    requires
        id < view.size(),
    ensures
        r == (view.info(id as int).owner == PosOwner::Neutral),
{
    view.infos[id].owner == PosOwner::Neutral
}

/// **contested** — both sides have a presence here.
pub fn contested(view: &PositionView, id: usize) -> (r: bool)
    requires
        id < view.size(),
    ensures
        r == view.info(id as int).contested,
{
    view.infos[id].contested
}

/// **outnumbered_here** — contested, and the enemy out-masses the seat here.
pub fn outnumbered_here(view: &PositionView, id: usize) -> (r: bool)
    requires
        id < view.size(),
    ensures
        r == (view.info(id as int).contested && view.info(id as int).enemy_ships > view.info(
            id as int,
        ).my_ships),
{
    let i = view.infos[id];
    i.contested && i.enemy_ships > i.my_ships
}

/// **foe_present** — enemy-owned, or at least one enemy ship is here.
pub fn foe_present(view: &PositionView, id: usize) -> (r: bool)
    requires
        id < view.size(),
    ensures
        r == foe_present_spec(view, id as int),
{
    let i = view.infos[id];
    i.owner == PosOwner::Enemy || i.enemy_ships > 0
}

/// **is_frontier** — an owned position from which some other foe-bearing position is reachable.
pub fn is_frontier(view: &PositionView, id: usize) -> (r: bool)
    requires
        view.wf(),
        id < view.size(),
    ensures
        r == (view.info(id as int).owner == PosOwner::Me && exists|j: int|
            0 <= j < view.size() && j != id && #[trigger] foe_present_spec(view, j) && view.reach(
                id as int,
                j,
            )),
{
    if view.infos[id].owner != PosOwner::Me {
        return false;
    }
    let n = view.len();
    let mut j: usize = 0;
    while j < n
        invariant
            view.wf(),
            n == view.size(),
            id < n,
            view.info(id as int).owner == PosOwner::Me,
            0 <= j <= n,
            forall|k: int|
                0 <= k < j ==> !(k != id && #[trigger] foe_present_spec(view, k) && view.reach(
                    id as int,
                    k,
                )),
        decreases n - j,
    {
        if j != id && foe_present(view, j) && view.reachable(id, j) {
            assert(foe_present_spec(view, j as int));
            return true;
        }
        j = j + 1;
    }
    false
}

/// **being_eroded** — an owned position with a foe present that the projection hands to the
/// foe.
pub fn being_eroded(view: &PositionView, id: usize) -> (r: bool)
    requires
        view.wf(),
        id < view.size(),
    ensures
        r == (view.info(id as int).owner == PosOwner::Me && foe_present_spec(view, id as int)
            && view.next_owner@[id as int] == Some(Side::Foe)),
{
    owned_by_me(view, id) && foe_present(view, id) && view.next_owner[id] == Some(Side::Foe)
}

/// **has_surplus** — an owned position holding more than `floor` ships.
pub fn has_surplus(view: &PositionView, id: usize, floor: u32) -> (r: bool)
    requires
        id < view.size(),
    ensures
        r == (view.info(id as int).owner == PosOwner::Me && view.info(id as int).my_ships > floor),
{
    let i = view.infos[id];
    i.owner == PosOwner::Me && i.my_ships > floor
}

/// **over_soft_cap** — the parked ships at the position have reached `frac` of the soft cap
/// (`frac` in the same order-preserving encoding as the board's parked pressure), so surplus
/// must be spent or kept moving.
pub fn over_soft_cap(view: &PositionView, id: usize, frac: u64) -> (r: bool)
    requires
        view.wf(),
        id < view.size(),
    ensures
        r == (view.parked_ratio@[id as int] >= frac),
{
    view.parked_ratio[id] >= frac
}

/// **production_superior** — the seat owns strictly more positions than the enemy.
pub fn production_superior(view: &PositionView) -> (r: bool)
    requires
        view.wf(),
    ensures
        r == superior(view),
{
    let n = view.len();
    let mut mine: usize = 0;
    let mut foe: usize = 0;
    let mut i: usize = 0;
    while i < n
        invariant
            view.wf(),
            n == view.size(),
            0 <= i <= n,
            mine == count_owned(view, PosOwner::Me, i as int),
            foe == count_owned(view, PosOwner::Enemy, i as int),
            mine <= i,
            foe <= i,
        decreases n - i,
    {
        match view.infos[i].owner {
            PosOwner::Me => mine = mine + 1,
            PosOwner::Enemy => foe = foe + 1,
            PosOwner::Neutral => {},
        }
        i = i + 1;
    }
    mine > foe
}

/// **settles_mine** — the projection already hands this position to the seat.
pub fn settles_mine(view: &PositionView, id: usize) -> (r: bool)
    requires
        view.wf(),
        id < view.size(),
    ensures
        r == (view.next_owner@[id as int] == Some(Side::Me)),
{
    view.next_owner[id] == Some(Side::Me)
}

/// **foe_takes_first** — the projection hands this position to the foe first.
pub fn foe_takes_first(view: &PositionView, id: usize) -> (r: bool)
    requires
        view.wf(),
        id < view.size(),
    ensures
        r == (view.next_owner@[id as int] == Some(Side::Foe)),
{
    view.next_owner[id] == Some(Side::Foe)
}

/// The movable surplus of an owned position above `floor`, or `None` if it is not the seat's or
/// sits at/below the floor.
pub fn surplus_of(view: &PositionView, id: usize, floor: u32) -> (r: Option<u32>)
    requires
        id < view.size(),
    ensures
        r == surplus_of_spec(view, id as int, floor),
        r matches Some(s) ==> s > 0 && s + floor == view.info(id as int).my_ships,
{
    let i = view.infos[id];
    if i.owner != PosOwner::Me {
        return None;
    }
    let s = i.my_ships.saturating_sub(floor);
    if s > 0 {
        Some(s)
    } else {
        None
    }
}

/// **wave(from, target, size)** — a capture wave of up to `size` surplus ships from `from`
/// toward `target`, clamped to the surplus above `floor`; `None` with no surplus or `size == 0`.
pub fn wave(view: &PositionView, from: usize, target: usize, size: u32, floor: u32) -> (r: Option<
    GreedyAction,
>)
    requires
        from < view.size(),
    ensures
        r == wave_spec(view, from, target, size, floor),
{
    let surplus = match surplus_of(view, from, floor) {
        Some(s) => s,
        None => return None,
    };
    let count = if size < surplus {
        size
    } else {
        surplus
    };
    if count > 0 {
        Some(GreedyAction { from, to: target, count, kind: GreedyKind::Wave })
    } else {
        None
    }
}

/// **retreat(from)** — pull the whole surplus of `from` back to the nearest safe owned position
/// (owned, not contested); `None` with no surplus or no reachable safe position.
pub fn retreat(view: &PositionView, from: usize, floor: u32) -> (r: Option<GreedyAction>)
    requires
        view.wf(),
        from < view.size(),
    ensures
        r == retreat_spec(view, from, floor),
{
    let surplus = match surplus_of(view, from, floor) {
        Some(s) => s,
        None => return None,
    };
    let mask = crate::greedy::build_mask(view, Select::SafeOwned, from, view.infos[from].my_ships);
    match nearest(view, from, &mask) {
        Some(to) => Some(GreedyAction { from, to, count: surplus, kind: GreedyKind::Retreat }),
        None => None,
    }
}

/// **deny(from, target, detach)** — park a detachment of exactly `detach` ships on `target`;
/// `None` unless the surplus above `floor` can field it (and `detach > 0`).
pub fn deny(view: &PositionView, from: usize, target: usize, detach: u32, floor: u32) -> (r: Option<
    GreedyAction,
>)
    requires
        from < view.size(),
    ensures
        r == deny_spec(view, from, target, detach, floor),
{
    let surplus = match surplus_of(view, from, floor) {
        Some(s) => s,
        None => return None,
    };
    if surplus >= detach && detach > 0 {
        Some(GreedyAction { from, to: target, count: detach, kind: GreedyKind::Deny })
    } else {
        None
    }
}

/// **hold** — keep amassing; emit no order this tick.
pub fn hold() -> (r: Option<GreedyAction>)
    ensures
        r is None,
{
    None
}

} // verus!
