//! The layer-agnostic **GREEDY** tactical policy, over the abstract [`PositionView`] board.
//!
//! Keep a small **garrison floor** on every owned position; ships above it are **surplus**.
//! For each owned, exportable position **with surplus**, in ascending id order:
//!
//! 1. **Retreat from a losing fight.** Contested and outnumbered there (`enemy_ships >
//!    my_ships`): send the surplus to the nearest safe owned position (owned, not contested).
//! 2. **Expand** (only while some expand target exists anywhere): send the surplus to the
//!    nearest uncontested neutral, else to the nearest uncontested friendly strictly thinner
//!    than the source (with `prefer_neutral_expand`), or to the nearest of either kind.
//! 3. **Amass and assault** (nothing left to expand to): break one enemy target chosen by a
//!    production-superiority proxy, routing all surplus through one staging position that
//!    commits only once it has local superiority.
//!
//! Every "nearest" breaks ties to the lowest id, so the result is a pure function of the board.
//! The documented seam: a source ships its *whole* surplus and keeps exactly the floor — no
//! rear guard is ever posted above it.

use vstd::prelude::*;
use crate::position::{PosOwner, PositionInfo, PositionView};

verus! {

/// Tunables of the greedy policy.
#[derive(Debug, Clone, Copy, PartialEq, Eq, Structural)]
pub struct GreedyParams {
    /// Garrison floor: only ships strictly above it are surplus.
    pub garrison_floor: u32,
    /// Prefer a capturable neutral over reinforcing a friendly position when expanding.
    pub prefer_neutral_expand: bool,
}

impl Default for GreedyParams {
    fn default() -> (r: GreedyParams)
        ensures
            r.garrison_floor == 2,
            r.prefer_neutral_expand,
    {
        GreedyParams { garrison_floor: 2, prefer_neutral_expand: true }
    }
}

/// Which rule produced a [`GreedyAction`].
#[derive(Debug, Clone, Copy, PartialEq, Eq, Structural)]
pub enum GreedyKind {
    /// Rule 1 — retreat the surplus to the nearest safe owned position.
    Retreat,
    /// Rule 2 — expand the surplus to the nearest uncontested position.
    Expand,
    /// Rule 3 — amass behind the staging position and assault the enemy target.
    Assault,
    /// A sized capture wave (vocabulary action).
    Wave,
    /// A cheap denial detachment (vocabulary action).
    Deny,
}

/// Move `count` surplus ships from owned position `from` to position `to`, for reason `kind`.
#[derive(Debug, Clone, Copy, PartialEq, Eq, Structural)]
pub struct GreedyAction {
    /// Source position.
    pub from: usize,
    /// Destination position.
    pub to: usize,
    /// Number of ships to send.
    pub count: u32,
    /// The rule that produced the action.
    pub kind: GreedyKind,
}

// =====================================================================================
// Specification.
// =====================================================================================

/// `(d1, i1)` ranks no later than `(d2, i2)`: nearer first, lower id on a tie.
pub open spec fn ranks_before(d1: u64, i1: int, d2: u64, i2: int) -> bool {
    d1 < d2 || (d1 == d2 && i1 <= i2)
}

/// `t` is the nearest position from `from` among those `mask` selects: selected, reachable,
/// and ranking no later than every other selected reachable position.
pub open spec fn is_nearest(v: &PositionView, from: int, mask: Seq<bool>, t: int) -> bool {
    &&& 0 <= t < v.size()
    &&& mask[t]
    &&& v.reach(from, t)
    &&& forall|j: int|
        0 <= j < v.size() && #[trigger] mask[j] && v.reach(from, j) ==> ranks_before(
            v.d(from, t)->0,
            t,
            v.d(from, j)->0,
            j,
        )
}

/// The nearest selected position from `from`, or `None` if no selected position is reachable.
pub open spec fn nearest_spec(v: &PositionView, from: int, mask: Seq<bool>) -> Option<usize> {
    if exists|t: int| is_nearest(v, from, mask, t) {
        Some((choose|t: int| is_nearest(v, from, mask, t)) as usize)
    } else {
        None
    }
}

/// Uncontested: not enemy-owned and no enemy ships present.
pub open spec fn uncontested(i: PositionInfo) -> bool {
    i.owner != PosOwner::Enemy && i.enemy_ships == 0
}

/// The selections the policy takes a "nearest" over.
#[derive(Debug, Clone, Copy, PartialEq, Eq, Structural)]
pub enum Select {
    /// Owned, not contested, other than the source.
    SafeOwned,
    /// Uncontested neutral, other than the source.
    Neutral,
    /// Uncontested friendly strictly thinner than `ships`, other than the source.
    ThinnerFriendly,
    /// Uncontested and either neutral or a friendly strictly thinner than `ships`.
    Expandable,
    /// Owned, other than the source.
    Owned,
}

/// Whether position `j` is selected by `sel` relative to source `from` holding `ships`.
pub open spec fn selected(v: &PositionView, sel: Select, from: int, ships: u32, j: int) -> bool {
    let i = v.info(j);
    match sel {
        Select::SafeOwned => j != from && i.owner == PosOwner::Me && !i.contested,
        Select::Neutral => j != from && i.owner == PosOwner::Neutral && uncontested(i),
        Select::ThinnerFriendly => j != from && i.owner == PosOwner::Me && uncontested(i)
            && i.my_ships < ships,
        Select::Expandable => j != from && uncontested(i) && (i.owner == PosOwner::Neutral
            || i.my_ships < ships),
        Select::Owned => j != from && i.owner == PosOwner::Me,
    }
}

/// The selection mask of `sel` over the whole board.
pub open spec fn mask_of(v: &PositionView, sel: Select, from: int, ships: u32) -> Seq<bool> {
    Seq::new(v.size(), |j: int| selected(v, sel, from, ships, j))
}

/// A globally meaningful expand target: a foe-free neutral, or a foe-free friendly position
/// some other owned position strictly out-stocks.
pub open spec fn expand_target(v: &PositionView, i: int) -> bool {
    let info = v.info(i);
    &&& info.owner != PosOwner::Enemy
    &&& info.enemy_ships == 0
    &&& (info.owner == PosOwner::Neutral || (info.owner == PosOwner::Me && exists|j: int|
        0 <= j < v.size() && j != i && (#[trigger] v.info(j)).owner == PosOwner::Me && v.info(
            j,
        ).my_ships > info.my_ships))
}

/// Some expand target exists anywhere on the board.
pub open spec fn any_expand_target(v: &PositionView) -> bool {
    exists|i: int| 0 <= i < v.size() && #[trigger] expand_target(v, i)
}

/// Number of positions among the first `k` owned by `o`.
pub open spec fn count_owned(v: &PositionView, o: PosOwner, k: int) -> nat
    decreases k,
{
    if k <= 0 {
        0
    } else {
        count_owned(v, o, k - 1) + if v.info(k - 1).owner == o {
            1nat
        } else {
            0nat
        }
    }
}

/// Production-superiority proxy: the seat owns strictly more positions than the enemy.
pub open spec fn superior(v: &PositionView) -> bool {
    count_owned(v, PosOwner::Me, v.size() as int) > count_owned(v, PosOwner::Enemy, v.size() as int)
}

/// An assault candidate: enemy presence (enemy-owned, or contested with enemy ships) reachable
/// from some other owned position.
pub open spec fn assault_candidate(v: &PositionView, t: int) -> bool {
    let info = v.info(t);
    &&& 0 <= t < v.size()
    &&& (info.owner == PosOwner::Enemy || (info.contested && info.enemy_ships > 0))
    &&& exists|o: int| 0 <= o < v.size() && o != t && (#[trigger] v.info(o)).owner == PosOwner::Me
        && v.reach(o, t)
}

/// `t` is the assault target: the candidate with the most enemy ships when superior, the
/// fewest otherwise, lowest id on ties.
pub open spec fn is_assault_target(v: &PositionView, sup: bool, t: int) -> bool {
    &&& assault_candidate(v, t)
    &&& forall|j: int| #[trigger] assault_candidate(v, j) ==> {
        let et = v.info(t).enemy_ships;
        let ej = v.info(j).enemy_ships;
        if sup {
            et > ej || (et == ej && t <= j)
        } else {
            et < ej || (et == ej && t <= j)
        }
    }
}

/// `s` is the lowest-id owned position.
pub open spec fn is_first_owned(v: &PositionView, s: int) -> bool {
    &&& 0 <= s < v.size()
    &&& v.info(s).owner == PosOwner::Me
    &&& forall|j: int| 0 <= j < s ==> (#[trigger] v.info(j)).owner != PosOwner::Me
}

/// The staging position for an assault on `target`: the owned position nearest the target, else
/// the lowest-id owned position.
pub open spec fn staging_spec(v: &PositionView, target: int) -> Option<usize> {
    match nearest_spec(v, target, mask_of(v, Select::Owned, target, 0)) {
        Some(s) => Some(s),
        None => if exists|s: int| is_first_owned(v, s) {
            Some((choose|s: int| is_first_owned(v, s)) as usize)
        } else {
            None
        },
    }
}

/// The assault plan `(target, staging)`, or `None` when there is no candidate target (or, in
/// that case only, no owned position at all).
pub open spec fn plan_spec(v: &PositionView) -> Option<(usize, usize)> {
    let sup = superior(v);
    if exists|t: int| is_assault_target(v, sup, t) {
        let t = choose|t: int| is_assault_target(v, sup, t);
        match staging_spec(v, t) {
            Some(s) => Some((t as usize, s)),
            None => None,
        }
    } else {
        None
    }
}

/// Surplus above the floor.
pub open spec fn surplus(ships: u32, floor: u32) -> u32 {
    if ships > floor {
        (ships - floor) as u32
    } else {
        0
    }
}

/// The rule-2 destination of source `from` holding `ships`.
pub open spec fn expand_dest(v: &PositionView, p: GreedyParams, from: int, ships: u32) -> Option<
    usize,
> {
    if p.prefer_neutral_expand {
        match nearest_spec(v, from, mask_of(v, Select::Neutral, from, ships)) {
            Some(t) => Some(t),
            None => nearest_spec(v, from, mask_of(v, Select::ThinnerFriendly, from, ships)),
        }
    } else {
        nearest_spec(v, from, mask_of(v, Select::Expandable, from, ships))
    }
}

/// The rule-3 destination of source `from` under assault plan `plan`.
pub open spec fn assault_dest(v: &PositionView, plan: Option<(usize, usize)>, from: int) -> Option<
    usize,
> {
    match plan {
        None => None,
        Some((target, staging)) => if from == staging {
            if v.info(from).my_ships >= v.info(target as int).enemy_ships && v.reach(
                from,
                target as int,
            ) {
                Some(target)
            } else {
                None
            }
        } else if v.reach(from, staging as int) {
            Some(staging)
        } else if v.reach(from, target as int) {
            Some(target)
        } else {
            None
        },
    }
}

/// The one action (if any) greedy takes from position `from`.
pub open spec fn greedy_choice(v: &PositionView, p: GreedyParams, from: int) -> Option<GreedyAction> {
    let me = v.info(from);
    let s = surplus(me.my_ships, p.garrison_floor);
    let any = any_expand_target(v);
    if me.owner != PosOwner::Me || !v.export_ok@[from] || s == 0 {
        None
    } else {
        let retreat = if me.contested && me.enemy_ships > me.my_ships {
            nearest_spec(v, from, mask_of(v, Select::SafeOwned, from, me.my_ships))
        } else {
            None
        };
        match retreat {
            Some(to) => Some(
                GreedyAction { from: from as usize, to, count: s, kind: GreedyKind::Retreat },
            ),
            None => {
                let expand = if any {
                    expand_dest(v, p, from, me.my_ships)
                } else {
                    None
                };
                match expand {
                    Some(to) => Some(
                        GreedyAction { from: from as usize, to, count: s, kind: GreedyKind::Expand },
                    ),
                    None => {
                        let plan = if any {
                            None
                        } else {
                            plan_spec(v)
                        };
                        match assault_dest(v, plan, from) {
                            Some(to) => Some(
                                GreedyAction {
                                    from: from as usize,
                                    to,
                                    count: s,
                                    kind: GreedyKind::Assault,
                                },
                            ),
                            None => None,
                        }
                    },
                }
            },
        }
    }
}

/// The actions greedy takes from the first `k` positions, in ascending source order.
pub open spec fn greedy_upto(v: &PositionView, p: GreedyParams, k: int) -> Seq<GreedyAction>
    decreases k,
{
    if k <= 0 {
        Seq::empty()
    } else {
        let prev = greedy_upto(v, p, k - 1);
        match greedy_choice(v, p, k - 1) {
            Some(a) => prev.push(a),
            None => prev,
        }
    }
}

// =====================================================================================
// Lemmas.
// =====================================================================================

/// At most one position is the nearest.
pub proof fn lemma_nearest_unique(v: &PositionView, from: int, mask: Seq<bool>, a: int, b: int)
    requires
        is_nearest(v, from, mask, a),
        is_nearest(v, from, mask, b),
    ensures
        a == b,
{
    assert(mask[b]);
    assert(mask[a]);
}

/// A witnessed nearest position is the one `nearest_spec` names.
pub proof fn lemma_nearest_is(v: &PositionView, from: int, mask: Seq<bool>, t: int)
    requires
        is_nearest(v, from, mask, t),
    ensures
        nearest_spec(v, from, mask) == Some(t as usize),
{
    let c = choose|c: int| is_nearest(v, from, mask, c);
    lemma_nearest_unique(v, from, mask, c, t);
}

/// `nearest_spec` names a nearest position when it names one.
pub proof fn lemma_nearest_spec_some(v: &PositionView, from: int, mask: Seq<bool>)
    requires
        v.wf(),
        nearest_spec(v, from, mask) is Some,
    ensures
        is_nearest(v, from, mask, nearest_spec(v, from, mask)->0 as int),
{
    let c = choose|c: int| is_nearest(v, from, mask, c);
    assert(is_nearest(v, from, mask, c));
    assert(0 <= c < v.size());
    assert((c as usize) as int == c);
}

/// The actions from the first `k` positions have strictly increasing sources below `k`, each an
/// owned exportable position shedding exactly its surplus.
pub proof fn lemma_greedy_upto_shape(v: &PositionView, p: GreedyParams, k: int)
    requires
        0 <= k <= usize::MAX,
    ensures
        forall|i: int|
            0 <= i < greedy_upto(v, p, k).len() ==> {
                let a = #[trigger] greedy_upto(v, p, k)[i];
                &&& a.from < k
                &&& greedy_choice(v, p, a.from as int) == Some(a)
            },
        forall|i: int, j: int|
            0 <= i < j < greedy_upto(v, p, k).len() ==> (#[trigger] greedy_upto(v, p, k)[i]).from
                < (#[trigger] greedy_upto(v, p, k)[j]).from,
    decreases k,
{
    if k > 0 {
        lemma_greedy_upto_shape(v, p, k - 1);
        let prev = greedy_upto(v, p, k - 1);
        match greedy_choice(v, p, k - 1) {
            Some(a) => {
                assert(greedy_upto(v, p, k) == prev.push(a));
                assert(a.from == k - 1);
            },
            None => {},
        }
    }
}

/// **Greedy moves each position's surplus at most once.** Every action of the greedy policy
/// leaves a distinct owned, exporting position (in ascending position order) and ships exactly
/// that position's ships above the garrison floor — a positive count, never the floor itself.
pub proof fn law_greedy_sheds_exactly_the_surplus(v: &PositionView, p: GreedyParams)
    requires
        v.wf(),
    ensures
        forall|i: int|
            0 <= i < greedy_upto(v, p, v.size() as int).len() ==> {
                let a = #[trigger] greedy_upto(v, p, v.size() as int)[i];
                &&& a.from < v.size()
                &&& v.info(a.from as int).owner == PosOwner::Me
                &&& v.export_ok@[a.from as int]
                &&& a.count == surplus(v.info(a.from as int).my_ships, p.garrison_floor)
                &&& a.count > 0
            },
        forall|i: int, j: int|
            0 <= i < j < greedy_upto(v, p, v.size() as int).len() ==> (#[trigger] greedy_upto(
                v,
                p,
                v.size() as int,
            )[i]).from < (#[trigger] greedy_upto(v, p, v.size() as int)[j]).from,
{
    lemma_greedy_upto_shape(v, p, v.size() as int);
}

/// The rule-2 destination is another, uncontested, reachable position: a neutral, or a
/// friendly holding strictly fewer of the seat's ships than `ships`.
proof fn lemma_expand_dest_sound(v: &PositionView, p: GreedyParams, from: int, ships: u32)
    requires
        v.wf(),
        expand_dest(v, p, from, ships) is Some,
    ensures
        ({
            let t = expand_dest(v, p, from, ships)->0 as int;
            let i = v.info(t);
            &&& 0 <= t < v.size()
            &&& t != from
            &&& v.reach(from, t)
            &&& i.owner != PosOwner::Enemy
            &&& i.enemy_ships == 0
            &&& (i.owner == PosOwner::Neutral || i.my_ships < ships)
        }),
{
    if p.prefer_neutral_expand {
        let mn = mask_of(v, Select::Neutral, from, ships);
        match nearest_spec(v, from, mn) {
            Some(t) => {
                lemma_nearest_spec_some(v, from, mn);
                assert(mn[t as int]);
            },
            None => {
                let mt = mask_of(v, Select::ThinnerFriendly, from, ships);
                lemma_nearest_spec_some(v, from, mt);
                assert(mt[nearest_spec(v, from, mt)->0 as int]);
            },
        }
    } else {
        let me = mask_of(v, Select::Expandable, from, ships);
        lemma_nearest_spec_some(v, from, me);
        assert(me[nearest_spec(v, from, me)->0 as int]);
    }
}

/// **Greedy expands only onto thinner ground.** Every expand action sends its surplus to
/// another position it reaches that is free of enemies (neither enemy-owned nor holding enemy
/// ships): a neutral position, or one of the seat's own positions holding strictly fewer of the
/// seat's ships than the source.
pub proof fn law_greedy_expands_only_onto_thinner_ground(v: &PositionView, p: GreedyParams)
    requires
        v.wf(),
    ensures
        forall|i: int|
            0 <= i < greedy_upto(v, p, v.size() as int).len() && (#[trigger] greedy_upto(v, p, v.size() as int)[i]).kind
                == GreedyKind::Expand ==> {
                let a = greedy_upto(v, p, v.size() as int)[i];
                let dst = v.info(a.to as int);
                &&& a.to < v.size()
                &&& a.to != a.from
                &&& v.reach(a.from as int, a.to as int)
                &&& dst.owner != PosOwner::Enemy
                &&& dst.enemy_ships == 0
                &&& (dst.owner == PosOwner::Me ==> dst.my_ships < v.info(a.from as int).my_ships)
                &&& (dst.owner != PosOwner::Me ==> dst.owner == PosOwner::Neutral)
            },
{
    lemma_greedy_upto_shape(v, p, v.size() as int);
    let all = greedy_upto(v, p, v.size() as int);
    assert forall|i: int| 0 <= i < all.len() && (#[trigger] all[i]).kind == GreedyKind::Expand implies {
        let a = all[i];
        let dst = v.info(a.to as int);
        &&& a.to < v.size()
        &&& a.to != a.from
        &&& v.reach(a.from as int, a.to as int)
        &&& dst.owner != PosOwner::Enemy
        &&& dst.enemy_ships == 0
        &&& (dst.owner == PosOwner::Me ==> dst.my_ships < v.info(a.from as int).my_ships)
        &&& (dst.owner != PosOwner::Me ==> dst.owner == PosOwner::Neutral)
    } by {
        let a = all[i];
        let from = a.from as int;
        let me = v.info(from);
        assert(greedy_choice(v, p, from) == Some(a));
        let retreat = if me.contested && me.enemy_ships > me.my_ships {
            nearest_spec(v, from, mask_of(v, Select::SafeOwned, from, me.my_ships))
        } else {
            None
        };
        assert(retreat is None);
        assert(any_expand_target(v));
        assert(expand_dest(v, p, from, me.my_ships) == Some(a.to));
        lemma_expand_dest_sound(v, p, from, me.my_ships);
        let dst = v.info(a.to as int);
        assert(dst.owner == PosOwner::Me || dst.owner == PosOwner::Neutral || dst.owner == PosOwner::Enemy);
    }
}

/// **Greedy retreats only from lost fights onto safe ground.** Every retreat action leaves a
/// contested position where the enemy out-masses the seat, and goes to another of the seat's
/// own positions it reaches that is not contested.
pub proof fn law_greedy_retreats_onto_safe_ground(v: &PositionView, p: GreedyParams)
    requires
        v.wf(),
    ensures
        forall|i: int|
            0 <= i < greedy_upto(v, p, v.size() as int).len() && (#[trigger] greedy_upto(v, p, v.size() as int)[i]).kind
                == GreedyKind::Retreat ==> {
                let a = greedy_upto(v, p, v.size() as int)[i];
                let src = v.info(a.from as int);
                let dst = v.info(a.to as int);
                &&& src.contested
                &&& src.enemy_ships > src.my_ships
                &&& a.to < v.size()
                &&& a.to != a.from
                &&& v.reach(a.from as int, a.to as int)
                &&& dst.owner == PosOwner::Me
                &&& !dst.contested
            },
{
    lemma_greedy_upto_shape(v, p, v.size() as int);
    let all = greedy_upto(v, p, v.size() as int);
    assert forall|i: int| 0 <= i < all.len() && (#[trigger] all[i]).kind == GreedyKind::Retreat implies {
        let a = all[i];
        let src = v.info(a.from as int);
        let dst = v.info(a.to as int);
        &&& src.contested
        &&& src.enemy_ships > src.my_ships
        &&& a.to < v.size()
        &&& a.to != a.from
        &&& v.reach(a.from as int, a.to as int)
        &&& dst.owner == PosOwner::Me
        &&& !dst.contested
    } by {
        let a = all[i];
        let from = a.from as int;
        let me = v.info(from);
        assert(greedy_choice(v, p, from) == Some(a));
        assert(me.contested && me.enemy_ships > me.my_ships);
        let m = mask_of(v, Select::SafeOwned, from, me.my_ships);
        assert(nearest_spec(v, from, m) == Some(a.to));
        lemma_nearest_spec_some(v, from, m);
        assert(m[a.to as int]);
    }
}

// =====================================================================================
// Implementation.
// =====================================================================================

/// The selection mask of `sel` over the board.
pub(crate) fn build_mask(view: &PositionView, sel: Select, from: usize, ships: u32) -> (m: Vec<bool>)
    requires
        view.wf(),
    ensures
        m@ == mask_of(view, sel, from as int, ships),
{
    let n = view.len();
    let mut m: Vec<bool> = Vec::new();
    let mut j: usize = 0;
    while j < n
        invariant
            view.wf(),
            n == view.size(),
            0 <= j <= n,
            m@.len() == j,
            forall|k: int| 0 <= k < j ==> m@[k] == selected(view, sel, from as int, ships, k),
        decreases n - j,
    {
        let i = view.infos[j];
        let unc = i.owner != PosOwner::Enemy && i.enemy_ships == 0;
        let b = match sel {
            Select::SafeOwned => j != from && i.owner == PosOwner::Me && !i.contested,
            Select::Neutral => j != from && i.owner == PosOwner::Neutral && unc,
            Select::ThinnerFriendly => j != from && i.owner == PosOwner::Me && unc && i.my_ships
                < ships,
            Select::Expandable => j != from && unc && (i.owner == PosOwner::Neutral || i.my_ships
                < ships),
            Select::Owned => j != from && i.owner == PosOwner::Me,
        };
        m.push(b);
        j = j + 1;
    }
    assert(m@ =~= mask_of(view, sel, from as int, ships));
    m
}

/// The reachable position from `from` (lowest id on ties) minimizing distance among those
/// `mask` selects; `None` if none is reachable.
pub fn nearest(view: &PositionView, from: usize, mask: &Vec<bool>) -> (r: Option<usize>)
    requires
        view.wf(),
        from < view.size(),
        mask@.len() == view.size(),
    ensures
        r == nearest_spec(view, from as int, mask@),
        r matches Some(t) ==> is_nearest(view, from as int, mask@, t as int),
        r is None ==> forall|j: int| 0 <= j < view.size() ==> !(mask@[j] && view.reach(from as int, j)),
{
    let n = view.len();
    let mut best: Option<(usize, u64)> = None;
    let mut to: usize = 0;
    while to < n
        invariant
            view.wf(),
            n == view.size(),
            from < n,
            mask@.len() == n,
            0 <= to <= n,
            best matches Some((b, bd)) ==> {
                &&& 0 <= b < to
                &&& mask@[b as int]
                &&& view.d(from as int, b as int) == Some(bd)
                &&& forall|j: int|
                    0 <= j < to && #[trigger] mask@[j] && view.reach(from as int, j) ==> ranks_before(
                        bd,
                        b as int,
                        view.d(from as int, j)->0,
                        j,
                    )
            },
            best is None ==> forall|j: int| 0 <= j < to ==> !(#[trigger] mask@[j] && view.reach(from as int, j)),
        decreases n - to,
    {
        if mask[to] {
            match view.dist[from][to] {
                None => {},
                Some(d) => {
                    match best {
                        Some((_, bd)) => {
                            if !(bd <= d) {
                                best = Some((to, d));
                            }
                        },
                        None => {
                            best = Some((to, d));
                        },
                    }
                },
            }
        }
        to = to + 1;
    }
    match best {
        Some((b, _)) => {
            proof {
                assert(is_nearest(view, from as int, mask@, b as int));
                lemma_nearest_is(view, from as int, mask@, b as int);
            }
            Some(b)
        },
        None => {
            assert(!exists|t: int| is_nearest(view, from as int, mask@, t));
            None
        },
    }
}

/// Uncontested: not enemy-owned and no enemy ships present.
pub fn is_uncontested(info: &PositionInfo) -> (r: bool)
    ensures
        r == uncontested(*info),
{
    info.owner != PosOwner::Enemy && info.enemy_ships == 0
}

/// Whether position `i` is a globally meaningful expand target.
fn is_expand_target_global(view: &PositionView, i: usize) -> (r: bool)
    requires
        view.wf(),
        i < view.size(),
    ensures
        r == expand_target(view, i as int),
{
    let info = view.infos[i];
    if info.owner == PosOwner::Enemy || info.enemy_ships > 0 {
        return false;
    }
    match info.owner {
        PosOwner::Neutral => true,
        PosOwner::Me => {
            let n = view.len();
            let mut j: usize = 0;
            while j < n
                invariant
                    view.wf(),
                    n == view.size(),
                    i < n,
                    info == view.info(i as int),
                    info.owner == PosOwner::Me,
                    info.enemy_ships == 0,
                    0 <= j <= n,
                    forall|k: int|
                        0 <= k < j ==> !(k != i && (#[trigger] view.info(k)).owner == PosOwner::Me
                            && view.info(k).my_ships > info.my_ships),
                decreases n - j,
            {
                let o = view.infos[j];
                if o.id != info.id && o.owner == PosOwner::Me && o.my_ships > info.my_ships {
                    assert(view.info(j as int).id == j);
                    assert(info.id == i);
                    assert(0 <= j < view.size() && j != i && view.info(j as int).owner == PosOwner::Me
                        && view.info(j as int).my_ships > info.my_ships);
                    assert(info.owner == PosOwner::Me);
                    assert(expand_target(view, i as int));
                    return true;
                }
                j = j + 1;
            }
            false
        },
        PosOwner::Enemy => false,
    }
}

/// Whether some expand target exists anywhere.
fn any_expand_target_exec(view: &PositionView) -> (r: bool)
    requires
        view.wf(),
    ensures
        r == any_expand_target(view),
{
    let n = view.len();
    let mut i: usize = 0;
    while i < n
        invariant
            view.wf(),
            n == view.size(),
            0 <= i <= n,
            forall|k: int| 0 <= k < i ==> !(#[trigger] expand_target(view, k)),
        decreases n - i,
    {
        if is_expand_target_global(view, i) {
            return true;
        }
        i = i + 1;
    }
    false
}

/// Number of positions owned by `o`.
fn count_owner(view: &PositionView, o: PosOwner) -> (r: usize)
    requires
        view.wf(),
    ensures
        r == count_owned(view, o, view.size() as int),
{
    let n = view.len();
    let mut c: usize = 0;
    let mut i: usize = 0;
    while i < n
        invariant
            view.wf(),
            n == view.size(),
            0 <= i <= n,
            c == count_owned(view, o, i as int),
            c <= i,
        decreases n - i,
    {
        if view.infos[i].owner == o {
            c = c + 1;
        }
        i = i + 1;
    }
    c
}

/// Whether some owned position other than `t` reaches `t`.
fn reachable_from_owned(view: &PositionView, t: usize) -> (r: bool)
    requires
        view.wf(),
        t < view.size(),
    ensures
        r == exists|o: int| 0 <= o < view.size() && o != t && (#[trigger] view.info(o)).owner
            == PosOwner::Me && view.reach(o, t as int),
{
    let n = view.len();
    let mut o: usize = 0;
    while o < n
        invariant
            view.wf(),
            n == view.size(),
            t < n,
            0 <= o <= n,
            forall|k: int|
                0 <= k < o ==> !(k != t && (#[trigger] view.info(k)).owner == PosOwner::Me
                    && view.reach(k, t as int)),
        decreases n - o,
    {
        if o != t && view.infos[o].owner == PosOwner::Me && view.dist[o][t].is_some() {
            assert(0 <= o < view.size() && o != t && view.info(o as int).owner == PosOwner::Me
                && view.reach(o as int, t as int));
            return true;
        }
        o = o + 1;
    }
    false
}

/// The assault plan `(target, staging)` rule 3 commits to.
fn plan_assault(view: &PositionView) -> (r: Option<(usize, usize)>)
    requires
        view.wf(),
    ensures
        r == plan_spec(view),
{
    let n = view.len();
    let mine = count_owner(view, PosOwner::Me);
    let theirs = count_owner(view, PosOwner::Enemy);
    let sup = mine > theirs;
    let ghost gsup = superior(view);
    assert(sup == gsup);
    let mut best: Option<(usize, u32)> = None;
    let mut t: usize = 0;
    while t < n
        invariant
            view.wf(),
            n == view.size(),
            sup == superior(view),
            0 <= t <= n,
            best matches Some((b, bk)) ==> {
                &&& 0 <= b < t
                &&& assault_candidate(view, b as int)
                &&& bk == view.info(b as int).enemy_ships
                &&& forall|j: int|
                    0 <= j < t && #[trigger] assault_candidate(view, j) ==> {
                        let ej = view.info(j).enemy_ships;
                        if sup {
                            bk > ej || (bk == ej && b <= j)
                        } else {
                            bk < ej || (bk == ej && b <= j)
                        }
                    }
            },
            best is None ==> forall|j: int| 0 <= j < t ==> !#[trigger] assault_candidate(view, j),
        decreases n - t,
    {
        let info = view.infos[t];
        let presence = info.owner == PosOwner::Enemy || (info.contested && info.enemy_ships > 0);
        if presence && reachable_from_owned(view, t) {
            assert(assault_candidate(view, t as int));
            let key = info.enemy_ships;
            match best {
                Some((_, bk)) => {
                    let take = if sup {
                        key > bk
                    } else {
                        key < bk
                    };
                    if take {
                        best = Some((t, key));
                    }
                },
                None => {
                    best = Some((t, key));
                },
            }
        } else {
            assert(!assault_candidate(view, t as int));
        }
        t = t + 1;
    }
    match best {
        None => {
            assert(!exists|x: int| is_assault_target(view, sup, x));
            None
        },
        Some((target, _)) => {
            proof {
                assert(is_assault_target(view, sup, target as int));
                let c = choose|c: int| is_assault_target(view, sup, c);
                assert(is_assault_target(view, sup, c));
                assert(assault_candidate(view, c));
                assert(assault_candidate(view, target as int));
                assert(c == target as int);
            }
            let mask = build_mask(view, Select::Owned, target, 0);
            match nearest(view, target, &mask) {
                Some(s) => Some((target, s)),
                None => match first_owned(view) {
                    Some(i) => {
                        proof {
                            let c = choose|c: int| is_first_owned(view, c);
                            assert(is_first_owned(view, c));
                            assert(c == i);
                            assert((c as usize) == i);
                        }
                        Some((target, i))
                    },
                    None => None,
                },
            }
        },
    }
}

/// The lowest-id owned position, if any.
fn first_owned(view: &PositionView) -> (r: Option<usize>)
    requires
        view.wf(),
    ensures
        r matches Some(i) ==> is_first_owned(view, i as int),
        r is None ==> !exists|s: int| is_first_owned(view, s),
{
    let n = view.len();
    let mut i: usize = 0;
    while i < n
        invariant
            view.wf(),
            n == view.size(),
            0 <= i <= n,
            forall|k: int| 0 <= k < i ==> (#[trigger] view.info(k)).owner != PosOwner::Me,
        decreases n - i,
    {
        if view.infos[i].owner == PosOwner::Me {
            return Some(i);
        }
        i = i + 1;
    }
    None
}

/// Decide the greedy policy's actions over `view` under `params`: one action per owned,
/// exportable position with surplus and a destination, in ascending source order.
pub fn decide_greedy(view: &PositionView, params: &GreedyParams) -> (actions: Vec<GreedyAction>)
    requires
        view.wf(),
    ensures
        actions@ == greedy_upto(view, *params, view.size() as int),
        forall|i: int|
            0 <= i < actions@.len() ==> {
                let a = #[trigger] actions@[i];
                &&& a.from < view.size()
                &&& view.info(a.from as int).owner == PosOwner::Me
                &&& view.export_ok@[a.from as int]
                &&& a.count > 0
                &&& a.count + params.garrison_floor == view.info(a.from as int).my_ships
            },
        forall|i: int, j: int|
            0 <= i < j < actions@.len() ==> (#[trigger] actions@[i]).from < (#[trigger] actions@[j]).from,
{
    let n = view.len();
    let mut actions: Vec<GreedyAction> = Vec::new();
    let any = any_expand_target_exec(view);
    let assault = if any {
        None
    } else {
        plan_assault(view)
    };
    let mut from: usize = 0;
    while from < n
        invariant
            view.wf(),
            n == view.size(),
            any == any_expand_target(view),
            assault == (if any {
                None
            } else {
                plan_spec(view)
            }),
            0 <= from <= n,
            actions@ == greedy_upto(view, *params, from as int),
        decreases n - from,
    {
        let ghost gchoice = greedy_choice(view, *params, from as int);
        let me = view.infos[from];
        let floor = params.garrison_floor;
        let surplus = me.my_ships.saturating_sub(floor);
        if me.owner != PosOwner::Me || !view.export_ok[from] || surplus == 0 {
            assert(gchoice is None);
            from = from + 1;
            continue;
        }
        let mut chosen: Option<GreedyAction> = None;
        if me.contested && me.enemy_ships > me.my_ships {
            let mask = build_mask(view, Select::SafeOwned, from, me.my_ships);
            if let Some(to) = nearest(view, from, &mask) {
                chosen = Some(GreedyAction { from, to, count: surplus, kind: GreedyKind::Retreat });
            }
        }
        if chosen.is_none() && any {
            let dest = if params.prefer_neutral_expand {
                let m1 = build_mask(view, Select::Neutral, from, me.my_ships);
                match nearest(view, from, &m1) {
                    Some(t) => Some(t),
                    None => {
                        let m2 = build_mask(view, Select::ThinnerFriendly, from, me.my_ships);
                        nearest(view, from, &m2)
                    },
                }
            } else {
                let m3 = build_mask(view, Select::Expandable, from, me.my_ships);
                nearest(view, from, &m3)
            };
            if let Some(to) = dest {
                chosen = Some(GreedyAction { from, to, count: surplus, kind: GreedyKind::Expand });
            }
        }
        if chosen.is_none() {
            if let Some((target, staging)) = assault {
                proof {
                    assert(!any);
                    lemma_plan_in_range(view);
                }
                if from == staging {
                    let target_enemy = view.infos[target].enemy_ships;
                    if me.my_ships >= target_enemy && view.dist[from][target].is_some() {
                        chosen = Some(GreedyAction { from, to: target, count: surplus, kind: GreedyKind::Assault });
                    }
                } else if view.dist[from][staging].is_some() {
                    chosen = Some(GreedyAction { from, to: staging, count: surplus, kind: GreedyKind::Assault });
                } else if view.dist[from][target].is_some() {
                    chosen = Some(GreedyAction { from, to: target, count: surplus, kind: GreedyKind::Assault });
                }
            }
        }
        assert(chosen == gchoice);
        if let Some(a) = chosen {
            actions.push(a);
        }
        from = from + 1;
    }
    proof {
        lemma_greedy_upto_shape(view, *params, n as int);
    }
    actions
}

/// The plan's target and staging positions are on the board.
proof fn lemma_plan_in_range(view: &PositionView)
    requires
        view.wf(),
        plan_spec(view) is Some,
    ensures
        plan_spec(view) matches Some((t, s)) && t < view.size() && s < view.size(),
{
    let sup = superior(view);
    let t = choose|t: int| is_assault_target(view, sup, t);
    assert(is_assault_target(view, sup, t));
    let mask = mask_of(view, Select::Owned, t, 0);
    match nearest_spec(view, t, mask) {
        Some(s) => {
            lemma_nearest_spec_some(view, t, mask);
        },
        None => {
            let s = choose|s: int| is_first_owned(view, s);
            assert(is_first_owned(view, s));
        },
    }
}

} // verus!
