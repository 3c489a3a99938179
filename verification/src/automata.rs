//! The four composable **automatons**, each a short program over the shared vocabulary
//! ([`crate::vocab`]): a resistance-sized nearest-first colonizer, a marginal-value colonizer,
//! a grind-and-hold siege, and a heal-and-hold turtle.
//!
//! Every mechanic number an automaton reads is a **signal** of the board ([`Signals`]): a
//! projection answer or a property accessor, already priced for the automaton being run (its
//! over-stack flags, soft-cap pressure, efficient force, heal bars and siege ranking are the
//! host's answers at that automaton's own dials). The programs themselves only compare, pick
//! and split integers.

use vstd::prelude::*;
use crate::position::{PosOwner, PositionView, Side};
use crate::greedy::{
    build_mask, count_owned, lemma_nearest_spec_some, mask_of, nearest, nearest_spec, superior,
    surplus, GreedyAction, GreedyKind, Select,
};
use crate::vocab::{
    deny, deny_spec, foe_present, foe_present_spec, has_surplus, outnumbered_here,
    production_superior, retreat, retreat_spec, surplus_of, surplus_of_spec, wave, wave_spec,
};
use crate::order::{first_id, lemma_sorted_ids_elems, next_id_exec, sort_ids, sorted_ids};

verus! {

/// The garrison floor every automaton keeps on an owned position by default.
pub const GARRISON_FLOOR: u32 = 2;

/// The per-position signals the automatons read, priced for the automaton being run.
pub struct Signals {
    /// Capture resistance remains at the position (it is greater than zero).
    pub resistance_left: Vec<bool>,
    /// The simple colonizer's resistance-sized force goal (ships per unit of resistance times
    /// the remaining resistance, rounded up).
    pub res_goal: Vec<u32>,
    /// Living ships of the seat present at the position.
    pub present_me: Vec<u32>,
    /// Living foe ships present at the position.
    pub present_foe: Vec<u32>,
    /// The tick at which the position's owner first changes, if it does within the horizon.
    pub capture_eta: Vec<Option<u64>>,
    /// The seat's in-flight ships arriving at the position within the horizon.
    pub incoming_mine: Vec<u32>,
    /// `transit[a][b]`: ticks for surplus leaving `a` to reach `b`, `None` if unreachable.
    pub transit: Vec<Vec<Option<u64>>>,
    /// `marginal[t][a]`: ticks saved on the capture of `t` by one more ship sent from `a`.
    pub marginal: Vec<Vec<u64>>,
    /// The least force that beats the defenders at the automaton's efficiency ratio (`None`
    /// when no force reaches it).
    pub force_needed: Vec<Option<u32>>,
    /// Parked ships have reached the automaton's soft-cap spend threshold.
    pub over_cap: Vec<bool>,
    /// More of the seat's ships would over-stack the position at the automaton's fraction.
    pub overstacked: Vec<bool>,
    /// The siege ranking of each position (lower is a better siege target).
    pub siege_cost: Vec<u64>,
    /// The smallest committed force that out-lasts the returning heal by the siege margin.
    pub heal_bar: Vec<u32>,
    /// The force a grind site keeps to out-heal the returning owner (before the hold floor).
    pub hold_keep: Vec<u32>,
}

impl Signals {
    /// One entry per position, and the pairwise tables are square.
    pub open spec fn wf(&self, n: nat) -> bool {
        &&& self.resistance_left@.len() == n
        &&& self.res_goal@.len() == n
        &&& self.present_me@.len() == n
        &&& self.present_foe@.len() == n
        &&& self.capture_eta@.len() == n
        &&& self.incoming_mine@.len() == n
        &&& self.transit@.len() == n
        &&& self.marginal@.len() == n
        &&& self.force_needed@.len() == n
        &&& self.over_cap@.len() == n
        &&& self.overstacked@.len() == n
        &&& self.siege_cost@.len() == n
        &&& self.heal_bar@.len() == n
        &&& self.hold_keep@.len() == n
        &&& forall|a: int| 0 <= a < n ==> (#[trigger] self.transit@[a])@.len() == n
        &&& forall|a: int| 0 <= a < n ==> (#[trigger] self.marginal@[a])@.len() == n
    }
}

// =====================================================================================
// Shared reads.
// =====================================================================================

/// Contested, and the enemy out-masses the seat here.
pub open spec fn outnumbered(v: &PositionView, id: int) -> bool {
    v.info(id).contested && v.info(id).enemy_ships > v.info(id).my_ships
}

/// An owned position holding more than `floor` ships.
pub open spec fn has_surplus_spec(v: &PositionView, id: int, floor: u32) -> bool {
    v.info(id).owner == PosOwner::Me && v.info(id).my_ships > floor
}

/// The projection already hands the position to the seat.
pub open spec fn settles_mine_spec(v: &PositionView, id: int) -> bool {
    v.next_owner@[id] == Some(Side::Me)
}

/// The projection hands the position to the foe first.
pub open spec fn foe_takes_first_spec(v: &PositionView, id: int) -> bool {
    v.next_owner@[id] == Some(Side::Foe)
}

/// A distance rank as a sort key (unreachable sorts last).
pub open spec fn dist_key(v: &PositionView, a: int, b: int) -> u64 {
    match v.d(a, b) {
        Some(d) => d,
        None => u64::MAX,
    }
}

// =====================================================================================
// 1. The simple colonizer — resistance-sized, nearest-first, no rear guard.
// =====================================================================================

/// Dials of the simple colonizer.
#[derive(Debug, Clone, Copy, PartialEq, Eq, Structural)]
pub struct SimpleColonizerParams {
    /// Ships kept home on every owned position.
    pub garrison_floor: u32,
    /// The smallest wave worth sending.
    pub min_wave: u32,
}

impl Default for SimpleColonizerParams {
    fn default() -> (r: SimpleColonizerParams)
        ensures
            r.garrison_floor == GARRISON_FLOOR,
            r.min_wave == 3,
    {
        SimpleColonizerParams { garrison_floor: GARRISON_FLOOR, min_wave: 3 }
    }
}

/// A position losing a local fight retreats (and its surplus is spent).
pub open spec fn sc_spent(v: &PositionView, floor: u32, from: int) -> bool {
    outnumbered(v, from) && retreat_spec(v, from as usize, floor) is Some
}

/// The retreats of the first `k` positions.
pub open spec fn retreats_upto(v: &PositionView, floor: u32, k: int) -> Seq<GreedyAction>
    decreases k,
{
    if k <= 0 {
        Seq::empty()
    } else {
        let prev = retreats_upto(v, floor, k - 1);
        if sc_spent(v, floor, k - 1) {
            prev.push(retreat_spec(v, (k - 1) as usize, floor)->0)
        } else {
            prev
        }
    }
}

/// Some other owned position holds strictly more ships than `t`.
pub open spec fn thin_friendly(v: &PositionView, t: int) -> bool {
    exists|j: int|
        0 <= j < v.size() && j != t && (#[trigger] v.info(j)).owner == PosOwner::Me && v.info(j).my_ships
            > v.info(t).my_ships
}

/// A simple-colonizer target: foe-free, capturable (a neutral or a thin friendly), not already
/// settling to the seat, with resistance left.
pub open spec fn sc_target(v: &PositionView, sig: &Signals, t: int) -> bool {
    &&& !foe_present_spec(v, t)
    &&& (v.info(t).owner == PosOwner::Neutral || (v.info(t).owner == PosOwner::Me && thin_friendly(
        v,
        t,
    )))
    &&& !settles_mine_spec(v, t)
    &&& sig.resistance_left@[t]
}

/// The targets among the first `k` positions, ascending.
pub open spec fn sc_targets(v: &PositionView, sig: &Signals, k: int) -> Seq<usize>
    decreases k,
{
    if k <= 0 {
        Seq::empty()
    } else {
        let prev = sc_targets(v, sig, k - 1);
        if sc_target(v, sig, k - 1) {
            prev.push((k - 1) as usize)
        } else {
            prev
        }
    }
}

/// The force goal toward `t`: its resistance goal, at least the minimum wave.
pub open spec fn sc_goal(sig: &Signals, p: SimpleColonizerParams, t: int) -> u32 {
    if sig.res_goal@[t] >= p.min_wave {
        sig.res_goal@[t]
    } else {
        p.min_wave
    }
}

/// The send threshold: the minimum wave, at least one.
pub open spec fn sc_threshold(p: SimpleColonizerParams) -> u32 {
    if p.min_wave >= 1 {
        p.min_wave
    } else {
        1
    }
}

/// The target slots `from` still serves: under goal and reachable.
pub open spec fn sc_elig(v: &PositionView, ids: Seq<usize>, goals: Seq<u32>, committed: Seq<u32>, from: int) -> Seq<bool> {
    Seq::new(ids.len(), |k: int| committed[k] < goals[k] && v.reach(from, ids[k] as int))
}

/// Nearest-first keys of the target slots from `from`.
pub open spec fn sc_keys(v: &PositionView, ids: Seq<usize>, from: int) -> Seq<(u64, u64)> {
    Seq::new(ids.len(), |k: int| (dist_key(v, from, ids[k] as int), 0u64))
}

/// Pour toward target slot `k`: top it up toward its goal from what `from` still has, when
/// the commitment reaches the send threshold.
pub open spec fn sc_pour_step(
    v: &PositionView,
    p: SimpleColonizerParams,
    from: usize,
    ids: Seq<usize>,
    goals: Seq<u32>,
    st: (Seq<u32>, u32, Seq<GreedyAction>),
    k: usize,
) -> (Seq<u32>, u32, Seq<GreedyAction>) {
    let (committed, avail, acts) = st;
    let remaining = surplus(goals[k as int], committed[k as int]);
    let want = if avail < remaining {
        avail
    } else {
        remaining
    };
    if avail == 0 || want == 0 || committed[k as int] + want < sc_threshold(p) {
        st
    } else {
        match wave_spec(v, from, ids[k as int], want, p.garrison_floor) {
            None => st,
            Some(a) => (
                committed.update(k as int, committed[k as int].saturating_add(a.count)),
                avail.saturating_sub(a.count),
                acts.push(a),
            ),
        }
    }
}

/// The first `i` pours of `order`.
pub open spec fn sc_pour(
    v: &PositionView,
    p: SimpleColonizerParams,
    from: usize,
    ids: Seq<usize>,
    goals: Seq<u32>,
    order: Seq<usize>,
    i: int,
    st0: (Seq<u32>, u32, Seq<GreedyAction>),
) -> (Seq<u32>, u32, Seq<GreedyAction>)
    decreases i,
{
    if i <= 0 {
        st0
    } else {
        sc_pour_step(v, p, from, ids, goals, sc_pour(v, p, from, ids, goals, order, i - 1, st0), order[i - 1])
    }
}

/// The fill of the first `k` sources, from commitments `c0`: each source with surplus that did
/// not retreat pours into its unfilled targets, nearest first.
pub open spec fn sc_fill(
    v: &PositionView,
    p: SimpleColonizerParams,
    ids: Seq<usize>,
    goals: Seq<u32>,
    c0: Seq<u32>,
    k: int,
) -> (Seq<u32>, Seq<GreedyAction>)
    decreases k,
{
    if k <= 0 {
        (c0, Seq::empty())
    } else {
        let (c, acts) = sc_fill(v, p, ids, goals, c0, k - 1);
        let from = k - 1;
        if sc_spent(v, p.garrison_floor, from) || !has_surplus_spec(v, from, p.garrison_floor) {
            (c, acts)
        } else {
            let avail = surplus(v.info(from).my_ships, p.garrison_floor);
            let order = sorted_ids(sc_elig(v, ids, goals, c, from), sc_keys(v, ids, from));
            let st = sc_pour(v, p, from as usize, ids, goals, order, order.len() as int, (c, avail, Seq::empty()));
            (st.0, acts + st.2)
        }
    }
}

/// **The simple colonizer's actions**: retreats of losing fights first, then the nearest-first
/// fill of every resistance-sized target.
pub open spec fn simple_colonize_spec(v: &PositionView, sig: &Signals, p: SimpleColonizerParams) -> Seq<GreedyAction> {
    let n = v.size() as int;
    let retreats = retreats_upto(v, p.garrison_floor, n);
    let ids = sc_targets(v, sig, n);
    if n == 0 || ids.len() == 0 {
        retreats
    } else {
        let goals = ids.map_values(|t: usize| sc_goal(sig, p, t as int));
        let c0 = ids.map_values(|t: usize| sig.incoming_mine@[t as int]);
        retreats + sc_fill(v, p, ids, goals, c0, n).1
    }
}

/// The targets are ascending positions.
proof fn lemma_sc_targets(v: &PositionView, sig: &Signals, k: int)
    requires
        v.wf(),
        0 <= k <= v.size(),
    ensures
        forall|i: int|
            0 <= i < sc_targets(v, sig, k).len() ==> {
                let t = #[trigger] sc_targets(v, sig, k)[i];
                &&& t < k
                &&& sc_target(v, sig, t as int)
            },
        sc_targets(v, sig, k).len() <= k,
    decreases k,
{
    if k > 0 {
        lemma_sc_targets(v, sig, k - 1);
    }
}

/// Whether `t` is a simple-colonizer target.
fn sc_is_target(view: &PositionView, sig: &Signals, t: usize) -> (r: bool)
    requires
        view.wf(),
        sig.wf(view.size()),
        t < view.size(),
    ensures
        r == sc_target(view, sig, t as int),
{
    let info = view.infos[t];
    let foe_free = !foe_present(view, t);
    let mut capturable = info.owner == PosOwner::Neutral;
    if !capturable && info.owner == PosOwner::Me {
        let n = view.len();
        let mut j: usize = 0;
        while j < n
            invariant
                view.wf(),
                n == view.size(),
                t < n,
                info == view.info(t as int),
                info.owner == PosOwner::Me,
                0 <= j <= n,
                capturable ==> thin_friendly(view, t as int),
                !capturable ==> forall|a: int|
                    0 <= a < j ==> !(a != t && (#[trigger] view.info(a)).owner == PosOwner::Me
                        && view.info(a).my_ships > info.my_ships),
            decreases n - j,
        {
            let o = view.infos[j];
            if j != t && o.owner == PosOwner::Me && o.my_ships > info.my_ships {
                assert(view.info(j as int) == o);
                capturable = true;
            }
            j = j + 1;
        }
    }
    foe_free && capturable && view.next_owner[t] != Some(Side::Me) && sig.resistance_left[t]
}

/// **The simple colonizer**: each losing fight retreats to the nearest safe owned position;
/// then every source that did not retreat pours its surplus into the foe-free targets with
/// resistance left, nearest first, topping each up toward its resistance-sized goal and
/// sending only when the commitment reaches the minimum wave.
pub fn simple_colonize(view: &PositionView, sig: &Signals, p: &SimpleColonizerParams) -> (actions: Vec<GreedyAction>)
    requires
        view.wf(),
        sig.wf(view.size()),
    ensures
        actions@ == simple_colonize_spec(view, sig, *p),
{
    let n = view.len();
    let mut actions: Vec<GreedyAction> = Vec::new();
    if n == 0 {
        return actions;
    }
    let floor = p.garrison_floor;
    // (0) The retreat reflex.
    let mut spent: Vec<bool> = Vec::new();
    let mut from: usize = 0;
    while from < n
        invariant
            view.wf(),
            n == view.size(),
            0 <= from <= n,
            actions@ == retreats_upto(view, floor, from as int),
            spent@.len() == from,
            forall|a: int| 0 <= a < from ==> spent@[a] == sc_spent(view, floor, a),
        decreases n - from,
    {
        let mut s = false;
        if outnumbered_here(view, from) {
            match retreat(view, from, floor) {
                Some(a) => {
                    actions.push(a);
                    s = true;
                },
                None => {},
            }
        }
        spent.push(s);
        from = from + 1;
    }
    // (1) The targets, their goals and what is already committed to them.
    let threshold: u32 = if p.min_wave >= 1 {
        p.min_wave
    } else {
        1
    };
    let mut ids: Vec<usize> = Vec::new();
    let mut goals: Vec<u32> = Vec::new();
    let mut committed: Vec<u32> = Vec::new();
    let mut t: usize = 0;
    while t < n
        invariant
            view.wf(),
            sig.wf(view.size()),
            n == view.size(),
            0 <= t <= n,
            ids@ == sc_targets(view, sig, t as int),
            goals@ == ids@.map_values(|x: usize| sc_goal(sig, *p, x as int)),
            committed@ == ids@.map_values(|x: usize| sig.incoming_mine@[x as int]),
        decreases n - t,
    {
        if sc_is_target(view, sig, t) {
            let g = sig.res_goal[t];
            let goal = if g >= p.min_wave {
                g
            } else {
                p.min_wave
            };
            ids.push(t);
            goals.push(goal);
            committed.push(sig.incoming_mine[t]);
        }
        proof {
            assert(goals@ =~= ids@.map_values(|x: usize| sc_goal(sig, *p, x as int)));
            assert(committed@ =~= ids@.map_values(|x: usize| sig.incoming_mine@[x as int]));
        }
        t = t + 1;
    }
    if ids.len() == 0 {
        return actions;
    }
    proof {
        lemma_sc_targets(view, sig, n as int);
    }
    // (2) Fill nearest-first.
    let ghost retreats = actions@;
    let ghost c0 = committed@;
    let m = ids.len();
    let mut from: usize = 0;
    while from < n
        invariant
            view.wf(),
            sig.wf(view.size()),
            n == view.size(),
            0 <= from <= n,
            m == ids@.len(),
            goals@.len() == m,
            committed@.len() == m,
            c0.len() == m,
            forall|i: int| 0 <= i < m ==> (#[trigger] ids@[i]) < n,
            forall|a: int| 0 <= a < n ==> spent@[a] == sc_spent(view, floor, a),
            spent@.len() == n,
            floor == p.garrison_floor,
            threshold == sc_threshold(*p),
            committed@ == sc_fill(view, *p, ids@, goals@, c0, from as int).0,
            actions@ == retreats + sc_fill(view, *p, ids@, goals@, c0, from as int).1,
        decreases n - from,
    {
        if spent[from] || !has_surplus(view, from, floor) {
            from = from + 1;
            continue;
        }
        let mut avail: u32 = match surplus_of(view, from, floor) {
            Some(s) => s,
            None => 0,
        };
        let mut elig: Vec<bool> = Vec::new();
        let mut keys: Vec<(u64, u64)> = Vec::new();
        let mut k: usize = 0;
        while k < m
            invariant
                view.wf(),
                n == view.size(),
                from < n,
                m == ids@.len(),
                goals@.len() == m,
                committed@.len() == m,
                forall|i: int| 0 <= i < m ==> (#[trigger] ids@[i]) < n,
                0 <= k <= m,
                elig@.len() == k,
                keys@.len() == k,
                forall|i: int|
                    0 <= i < k ==> #[trigger] elig@[i] == sc_elig(view, ids@, goals@, committed@, from as int)[i],
                forall|i: int| 0 <= i < k ==> #[trigger] keys@[i] == sc_keys(view, ids@, from as int)[i],
            decreases m - k,
        {
            let id = ids[k];
            elig.push(committed[k] < goals[k] && view.reachable(from, id));
            let dk: u64 = match view.distance(from, id) {
                Some(d) => d,
                None => u64::MAX,
            };
            keys.push((dk, 0u64));
            k = k + 1;
        }
        proof {
            assert(elig@ =~= sc_elig(view, ids@, goals@, committed@, from as int));
            assert(keys@ =~= sc_keys(view, ids@, from as int));
        }
        let order = sort_ids(&elig, &keys);
        proof {
            lemma_sorted_ids_elems(elig@, keys@);
        }
        let ghost st0 = (committed@, avail, Seq::<GreedyAction>::empty());
        let ghost a0 = actions@;
        let mut i: usize = 0;
        while i < order.len()
            invariant
                view.wf(),
                n == view.size(),
                from < n,
                m == ids@.len(),
                goals@.len() == m,
                floor == p.garrison_floor,
                threshold == sc_threshold(*p),
                forall|x: int| 0 <= x < m ==> (#[trigger] ids@[x]) < n,
                forall|x: int| 0 <= x < order@.len() ==> (#[trigger] order@[x]) < m,
                0 <= i <= order@.len(),
                committed@ == sc_pour(view, *p, from, ids@, goals@, order@, i as int, st0).0,
                avail == sc_pour(view, *p, from, ids@, goals@, order@, i as int, st0).1,
                actions@ == a0 + sc_pour(view, *p, from, ids@, goals@, order@, i as int, st0).2,
                committed@.len() == m,
            decreases order@.len() - i,
        {
            let k = order[i];
            if avail > 0 {
                let remaining = goals[k].saturating_sub(committed[k]);
                let want = if avail < remaining {
                    avail
                } else {
                    remaining
                };
                if want > 0 && committed[k] as u64 + want as u64 >= threshold as u64 {
                    match wave(view, from, ids[k], want, floor) {
                        Some(a) => {
                            let released = a.count;
                            actions.push(a);
                            let c = committed[k].saturating_add(released);
                            committed.set(k, c);
                            avail = avail.saturating_sub(released);
                            proof {
                                assert(actions@ =~= a0 + sc_pour(view, *p, from, ids@, goals@, order@, i + 1, st0).2);
                            }
                        },
                        None => {},
                    }
                }
            }
            i = i + 1;
        }
        proof {
            assert(actions@ =~= retreats + sc_fill(view, *p, ids@, goals@, c0, from + 1).1);
        }
        from = from + 1;
    }
    actions
}

// =====================================================================================
// 2. Colonize — send one more ship only while it pays its transit.
// =====================================================================================

/// Dials of the marginal-value colonizer.
#[derive(Debug, Clone, Copy, PartialEq, Eq, Structural)]
pub struct ColonizeParams {
    /// Ships kept home on every owned position.
    pub garrison_floor: u32,
    /// How many colony targets are fed at once.
    pub max_concurrent: usize,
    /// The most ships one source sends in one tick.
    pub wave_max: u32,
}

impl Default for ColonizeParams {
    fn default() -> (r: ColonizeParams)
        ensures
            r.garrison_floor == GARRISON_FLOOR,
            r.max_concurrent == 3,
            r.wave_max == 16,
    {
        ColonizeParams { garrison_floor: GARRISON_FLOOR, max_concurrent: 3, wave_max: 16 }
    }
}

/// A colony candidate: a foe-free neutral with resistance left that the projection neither
/// settles to the seat nor hands to the foe first.
pub open spec fn col_candidate(v: &PositionView, sig: &Signals, t: int) -> bool {
    &&& v.info(t).owner == PosOwner::Neutral
    &&& !foe_present_spec(v, t)
    &&& sig.resistance_left@[t]
    &&& !settles_mine_spec(v, t)
    &&& !foe_takes_first_spec(v, t)
}

/// The candidate mask.
pub open spec fn col_mask(v: &PositionView, sig: &Signals) -> Seq<bool> {
    Seq::new(v.size(), |t: int| col_candidate(v, sig, t))
}

/// A capture ETA as a sort key (no projected capture sorts last).
pub open spec fn eta_key(sig: &Signals, t: int) -> u64 {
    match sig.capture_eta@[t] {
        Some(e) => e,
        None => u64::MAX,
    }
}

/// Front-runner keys: soonest projected capture first.
pub open spec fn col_keys(v: &PositionView, sig: &Signals) -> Seq<(u64, u64)> {
    Seq::new(v.size(), |t: int| (eta_key(sig, t), 0u64))
}

/// The chosen fronts: the candidates by soonest capture, at most `max(max_concurrent, 1)`.
pub open spec fn col_chosen(v: &PositionView, sig: &Signals, p: ColonizeParams) -> Seq<usize> {
    let sorted = sorted_ids(col_mask(v, sig), col_keys(v, sig));
    let keep = if p.max_concurrent >= 1 {
        p.max_concurrent as int
    } else {
        1
    };
    if sorted.len() <= keep {
        sorted
    } else {
        sorted.take(keep)
    }
}

/// Membership in the chosen fronts, per position.
pub open spec fn chosen_mask(v: &PositionView, chosen: Seq<usize>) -> Seq<bool> {
    Seq::new(v.size(), |i: int| chosen.contains(i as usize))
}

/// Transit ticks as a cost (unreachable costs the most).
pub open spec fn transit_cost(sig: &Signals, a: int, b: int) -> u64 {
    match sig.transit@[a]@[b] {
        Some(t) => t,
        None => u64::MAX,
    }
}

/// The one ship more from `from` toward `t` saves at least its transit.
pub open spec fn pays(sig: &Signals, from: int, t: int) -> bool {
    sig.marginal@[t]@[from] >= transit_cost(sig, from, t)
}

/// What source `from` sends: toward its nearest chosen front while the marginal ship pays,
/// else toward the front-runner if that pays, never onto an over-stacked position.
pub open spec fn col_send(v: &PositionView, sig: &Signals, p: ColonizeParams, chosen: Seq<usize>, from: int) -> Option<GreedyAction> {
    let fr = chosen[0];
    let floor = p.garrison_floor;
    if !has_surplus_spec(v, from, floor) {
        None
    } else {
        let s = surplus(v.info(from).my_ships, floor);
        let size = if s < p.wave_max {
            s
        } else {
            p.wave_max
        };
        let tgt = match nearest_spec(v, from, chosen_mask(v, chosen)) {
            Some(t) => t,
            None => fr,
        };
        if !v.reach(from, tgt as int) {
            None
        } else if !pays(sig, from, tgt as int) {
            if tgt == fr || !pays(sig, from, fr as int) || !v.reach(from, fr as int)
                || sig.overstacked@[fr as int] {
                None
            } else {
                wave_spec(v, from as usize, fr, size, floor)
            }
        } else if sig.overstacked@[tgt as int] {
            None
        } else {
            wave_spec(v, from as usize, tgt, size, floor)
        }
    }
}

/// The sends of the first `k` sources.
pub open spec fn col_upto(v: &PositionView, sig: &Signals, p: ColonizeParams, chosen: Seq<usize>, k: int) -> Seq<GreedyAction>
    decreases k,
{
    if k <= 0 {
        Seq::empty()
    } else {
        let prev = col_upto(v, sig, p, chosen, k - 1);
        match col_send(v, sig, p, chosen, k - 1) {
            Some(a) => prev.push(a),
            None => prev,
        }
    }
}

/// **The marginal-value colonizer's actions.**
pub open spec fn colonize_spec(v: &PositionView, sig: &Signals, p: ColonizeParams) -> Seq<GreedyAction> {
    let chosen = col_chosen(v, sig, p);
    if v.size() == 0 || chosen.len() == 0 {
        Seq::empty()
    } else {
        col_upto(v, sig, p, chosen, v.size() as int)
    }
}

/// Whether `x` is among `ids`.
fn contains_id(ids: &Vec<usize>, x: usize) -> (r: bool)
    ensures
        r == ids@.contains(x),
{
    let mut i: usize = 0;
    while i < ids.len()
        invariant
            0 <= i <= ids@.len(),
            forall|a: int| 0 <= a < i ==> ids@[a] != x,
        decreases ids@.len() - i,
    {
        if ids[i] == x {
            assert(ids@[i as int] == x);
            return true;
        }
        i = i + 1;
    }
    false
}

/// Transit ticks from `a` to `b` as a cost.
fn transit_cost_exec(sig: &Signals, n: usize, a: usize, b: usize) -> (r: u64)
    requires
        sig.wf(n as nat),
        a < n,
        b < n,
    ensures
        r == transit_cost(sig, a as int, b as int),
{
    match sig.transit[a][b] {
        Some(t) => t,
        None => u64::MAX,
    }
}

/// The chosen fronts (see [`col_chosen`]).
fn col_choose(view: &PositionView, sig: &Signals, p: &ColonizeParams) -> (r: Vec<usize>)
    requires
        view.wf(),
        sig.wf(view.size()),
    ensures
        r@ == col_chosen(view, sig, *p),
        forall|i: int| 0 <= i < r@.len() ==> (#[trigger] r@[i]) < view.size(),
{
    let n = view.len();
    let mut mask: Vec<bool> = Vec::new();
    let mut keys: Vec<(u64, u64)> = Vec::new();
    let mut t: usize = 0;
    while t < n
        invariant
            view.wf(),
            sig.wf(view.size()),
            n == view.size(),
            0 <= t <= n,
            mask@.len() == t,
            keys@.len() == t,
            forall|i: int| 0 <= i < t ==> #[trigger] mask@[i] == col_candidate(view, sig, i),
            forall|i: int| 0 <= i < t ==> #[trigger] keys@[i] == (eta_key(sig, i), 0u64),
        decreases n - t,
    {
        let info = view.infos[t];
        let c = info.owner == PosOwner::Neutral && !foe_present(view, t) && sig.resistance_left[t]
            && view.next_owner[t] != Some(Side::Me) && view.next_owner[t] != Some(Side::Foe);
        mask.push(c);
        let e: u64 = match sig.capture_eta[t] {
            Some(e) => e,
            None => u64::MAX,
        };
        keys.push((e, 0u64));
        t = t + 1;
    }
    proof {
        assert(mask@ =~= col_mask(view, sig));
        assert(keys@ =~= col_keys(view, sig));
        lemma_sorted_ids_elems(mask@, keys@);
    }
    let sorted = sort_ids(&mask, &keys);
    let keep: usize = if p.max_concurrent >= 1 {
        p.max_concurrent
    } else {
        1
    };
    let mut chosen: Vec<usize> = Vec::new();
    let mut i: usize = 0;
    while i < sorted.len() && i < keep
        invariant
            0 <= i <= sorted@.len(),
            i <= keep,
            keep == (if p.max_concurrent >= 1 {
                p.max_concurrent
            } else {
                1
            }),
            sorted@ == sorted_ids(col_mask(view, sig), col_keys(view, sig)),
            forall|x: int| 0 <= x < sorted@.len() ==> (#[trigger] sorted@[x]) < view.size(),
            chosen@ == sorted@.take(i as int),
        decreases sorted@.len() - i,
    {
        chosen.push(sorted[i]);
        assert(chosen@ =~= sorted@.take(i + 1));
        i = i + 1;
    }
    assert(sorted@.len() <= keep ==> sorted@.take(sorted@.len() as int) =~= sorted@);
    chosen
}

/// **The marginal-value colonizer**: the candidate neutrals are ranked by soonest projected
/// capture and the first `max(max_concurrent, 1)` become the fronts; each source with surplus
/// sends up to `wave_max` ships toward its nearest front as long as one more ship saves at
/// least its transit time there, else toward the front-runner if the rule pays there, and
/// never onto a position the wave would over-stack.
pub fn colonize(view: &PositionView, sig: &Signals, p: &ColonizeParams) -> (actions: Vec<GreedyAction>)
    requires
        view.wf(),
        sig.wf(view.size()),
    ensures
        actions@ == colonize_spec(view, sig, *p),
{
    let n = view.len();
    let mut actions: Vec<GreedyAction> = Vec::new();
    if n == 0 {
        return actions;
    }
    let chosen = col_choose(view, sig, p);
    if chosen.len() == 0 {
        return actions;
    }
    let floor = p.garrison_floor;
    let fr = chosen[0];
    let mut cmask: Vec<bool> = Vec::new();
    let mut i: usize = 0;
    while i < n
        invariant
            n == view.size(),
            0 <= i <= n,
            cmask@.len() == i,
            forall|a: int| 0 <= a < i ==> #[trigger] cmask@[a] == chosen@.contains(a as usize),
        decreases n - i,
    {
        cmask.push(contains_id(&chosen, i));
        i = i + 1;
    }
    assert(cmask@ =~= chosen_mask(view, chosen@));
    let mut from: usize = 0;
    while from < n
        invariant
            view.wf(),
            sig.wf(view.size()),
            n == view.size(),
            chosen@ == col_chosen(view, sig, *p),
            chosen@.len() > 0,
            fr == chosen@[0],
            fr < n,
            floor == p.garrison_floor,
            cmask@ == chosen_mask(view, chosen@),
            0 <= from <= n,
            actions@ == col_upto(view, sig, *p, chosen@, from as int),
        decreases n - from,
    {
        let mut send: Option<GreedyAction> = None;
        if has_surplus(view, from, floor) {
            let s = match surplus_of(view, from, floor) {
                Some(s) => s,
                None => 0,
            };
            let size = if s < p.wave_max {
                s
            } else {
                p.wave_max
            };
            let tgt = match nearest(view, from, &cmask) {
                Some(t) => t,
                None => fr,
            };
            if view.reachable(from, tgt) {
                let pays_tgt = sig.marginal[tgt][from] >= transit_cost_exec(sig, n, from, tgt);
                if !pays_tgt {
                    if !(tgt == fr || !(sig.marginal[fr][from] >= transit_cost_exec(sig, n, from, fr))
                        || !view.reachable(from, fr) || sig.overstacked[fr]) {
                        send = wave(view, from, fr, size, floor);
                    }
                } else if !sig.overstacked[tgt] {
                    send = wave(view, from, tgt, size, floor);
                }
            }
        }
        assert(send == col_send(view, sig, *p, chosen@, from as int));
        match send {
            Some(a) => actions.push(a),
            None => {},
        }
        from = from + 1;
    }
    actions
}

// =====================================================================================
// 3. Attack — grind-and-hold siege (concentrate, deny, sustain).
// =====================================================================================

/// Dials of the siege.
#[derive(Debug, Clone, Copy, PartialEq, Eq, Structural)]
pub struct AttackParams {
    /// Ships kept home on every owned position.
    pub garrison_floor: u32,
    /// The fewest ships kept inside a grind site.
    pub grind_hold_floor: u32,
    /// The size of a denial detachment.
    pub denial_detach: u32,
}

impl Default for AttackParams {
    fn default() -> (r: AttackParams)
        ensures
            r.garrison_floor == GARRISON_FLOOR,
            r.grind_hold_floor == 4,
            r.denial_detach == 6,
    {
        AttackParams { garrison_floor: GARRISON_FLOOR, grind_hold_floor: 4, denial_detach: 6 }
    }
}

/// Keys that rank by id alone.
pub open spec fn zero_keys(n: nat) -> Seq<(u64, u64)> {
    Seq::new(n, |i: int| (0u64, 0u64))
}

/// The lowest selected id.
pub open spec fn lowest(mask: Seq<bool>) -> Option<usize> {
    first_id(mask, zero_keys(mask.len()))
}

/// A siege target: foe presence some other owned position reaches, not settling to the seat.
pub open spec fn siege_elig(v: &PositionView, t: int) -> bool {
    &&& foe_present_spec(v, t)
    &&& exists|o: int|
        0 <= o < v.size() && (#[trigger] v.info(o)).owner == PosOwner::Me && o != t && v.reach(o, t)
    &&& !settles_mine_spec(v, t)
}

/// The siege-target mask.
pub open spec fn siege_mask(v: &PositionView) -> Seq<bool> {
    Seq::new(v.size(), |t: int| siege_elig(v, t))
}

/// Siege keys: the host's siege ranking.
pub open spec fn siege_keys(v: &PositionView, sig: &Signals) -> Seq<(u64, u64)> {
    Seq::new(v.size(), |t: int| (sig.siege_cost@[t], 0u64))
}

/// The owned-position mask.
pub open spec fn owned_mask(v: &PositionView) -> Seq<bool> {
    Seq::new(v.size(), |i: int| v.info(i).owner == PosOwner::Me)
}

/// The siege plan `(target, staging)`: the best-ranked siege target (lowest id on ties) and the
/// owned position nearest it (else the lowest owned position); `None` before contact.
pub open spec fn siege_plan(v: &PositionView, sig: &Signals) -> Option<(usize, usize)> {
    match first_id(siege_mask(v), siege_keys(v, sig)) {
        None => None,
        Some(target) => match nearest_spec(v, target as int, mask_of(v, Select::Owned, target as int, 0)) {
            Some(st) => Some((target, st)),
            None => match lowest(owned_mask(v)) {
                Some(st) => Some((target, st)),
                None => None,
            },
        },
    }
}

/// The spearhead at `here` is ready to commit on `target`: the projection does not already
/// decide the target, `here` fields the efficient winning force and out-lasts the heal.
pub open spec fn ready(v: &PositionView, sig: &Signals, target: int, here: int) -> bool {
    &&& !settles_mine_spec(v, target)
    &&& !foe_takes_first_spec(v, target)
    &&& (match sig.force_needed@[target] {
        Some(need) => v.info(here).my_ships >= need,
        None => false,
    })
    &&& v.info(here).my_ships >= sig.heal_bar@[target]
}

/// An active grind site: the seat is present and a fight or a projected change is live here.
pub open spec fn grind_site(v: &PositionView, sig: &Signals, id: int) -> bool {
    v.info(id).my_ships > 0 && (v.info(id).contested || sig.capture_eta@[id] is Some)
}

/// The denial-target mask: foe presence other than the siege target, not settling to the seat.
pub open spec fn denial_mask(v: &PositionView, target: int) -> Seq<bool> {
    Seq::new(v.size(), |t: int| t != target && foe_present_spec(v, t) && !settles_mine_spec(v, t))
}

/// What owned exporting source `from` does under the siege plan `(target, staging)`.
pub open spec fn attack_send(
    v: &PositionView,
    sig: &Signals,
    p: AttackParams,
    target: usize,
    staging: usize,
    sup: bool,
    from: int,
) -> Option<GreedyAction> {
    let floor = p.garrison_floor;
    if v.info(from).owner != PosOwner::Me || !v.export_ok@[from] {
        None
    } else {
        match surplus_of_spec(v, from, floor) {
            None => None,
            Some(s) => if outnumbered(v, from) {
                retreat_spec(v, from as usize, floor)
            } else if from == staging {
                if ready(v, sig, target as int, from) || sig.over_cap@[from] {
                    wave_spec(v, from as usize, target, s, floor)
                } else {
                    None
                }
            } else if grind_site(v, sig, from) {
                let keep = if p.grind_hold_floor >= sig.hold_keep@[from] {
                    p.grind_hold_floor
                } else {
                    sig.hold_keep@[from]
                };
                let rel = surplus(v.info(from).my_ships, keep);
                if rel > 0 && sig.over_cap@[from] {
                    wave_spec(v, from as usize, staging, rel, floor)
                } else {
                    None
                }
            } else if sup && lowest(denial_mask(v, target as int)) is Some && s >= p.denial_detach
                && deny_spec(
                v,
                from as usize,
                lowest(denial_mask(v, target as int))->0,
                p.denial_detach,
                floor,
            ) is Some {
                deny_spec(v, from as usize, lowest(denial_mask(v, target as int))->0, p.denial_detach, floor)
            } else if v.reach(from, staging as int) {
                wave_spec(v, from as usize, staging, s, floor)
            } else if v.reach(from, target as int) {
                wave_spec(v, from as usize, target, s, floor)
            } else {
                None
            },
        }
    }
}

/// The sends of the first `k` sources under the plan.
pub open spec fn attack_upto(
    v: &PositionView,
    sig: &Signals,
    p: AttackParams,
    target: usize,
    staging: usize,
    sup: bool,
    k: int,
) -> Seq<GreedyAction>
    decreases k,
{
    if k <= 0 {
        Seq::empty()
    } else {
        let prev = attack_upto(v, sig, p, target, staging, sup, k - 1);
        match attack_send(v, sig, p, target, staging, sup, k - 1) {
            Some(a) => prev.push(a),
            None => prev,
        }
    }
}

/// **The siege's actions**: before contact, the colonizer's development (at the siege's
/// floor); after, every owned exporting source retreats, commits, sustains, denies or feeds.
pub open spec fn attack_spec(v: &PositionView, sig: &Signals, p: AttackParams) -> Seq<GreedyAction> {
    if v.size() == 0 {
        Seq::empty()
    } else {
        match siege_plan(v, sig) {
            None => colonize_spec(
                v,
                sig,
                ColonizeParams { garrison_floor: p.garrison_floor, max_concurrent: 3, wave_max: 16 },
            ),
            Some((target, staging)) => attack_upto(v, sig, p, target, staging, superior(v), v.size() as int),
        }
    }
}

/// Whether a foe is present at `t`, some other owned position reaches it, and it is not
/// settling to the seat.
fn siege_elig_exec(view: &PositionView, t: usize) -> (r: bool)
    requires
        view.wf(),
        t < view.size(),
    ensures
        r == siege_elig(view, t as int),
{
    if !foe_present(view, t) || view.next_owner[t] == Some(Side::Me) {
        return false;
    }
    let n = view.len();
    let mut o: usize = 0;
    while o < n
        invariant
            view.wf(),
            n == view.size(),
            t < n,
            foe_present_spec(view, t as int),
            !settles_mine_spec(view, t as int),
            0 <= o <= n,
            forall|a: int|
                0 <= a < o ==> !((#[trigger] view.info(a)).owner == PosOwner::Me && a != t && view.reach(
                    a,
                    t as int,
                )),
        decreases n - o,
    {
        if view.infos[o].owner == PosOwner::Me && o != t && view.reachable(o, t) {
            assert(view.info(o as int).owner == PosOwner::Me);
            return true;
        }
        o = o + 1;
    }
    false
}

/// The lowest id `mask` selects.
fn lowest_exec(mask: &Vec<bool>) -> (r: Option<usize>)
    ensures
        r == lowest(mask@),
        r matches Some(x) ==> x < mask@.len() && mask@[x as int],
{
    let mut keys: Vec<(u64, u64)> = Vec::new();
    let mut i: usize = 0;
    while i < mask.len()
        invariant
            0 <= i <= mask@.len(),
            keys@ == zero_keys(i as nat),
        decreases mask@.len() - i,
    {
        keys.push((0u64, 0u64));
        assert(keys@ =~= zero_keys((i + 1) as nat));
        i = i + 1;
    }
    next_id_exec(mask, &keys, None)
}

/// The siege plan (see [`siege_plan`]).
fn plan_siege(view: &PositionView, sig: &Signals) -> (r: Option<(usize, usize)>)
    requires
        view.wf(),
        sig.wf(view.size()),
    ensures
        r == siege_plan(view, sig),
        r matches Some((t, st)) ==> t < view.size() && st < view.size(),
{
    let n = view.len();
    let mut mask: Vec<bool> = Vec::new();
    let mut keys: Vec<(u64, u64)> = Vec::new();
    let mut owned: Vec<bool> = Vec::new();
    let mut t: usize = 0;
    while t < n
        invariant
            view.wf(),
            sig.wf(view.size()),
            n == view.size(),
            0 <= t <= n,
            mask@.len() == t,
            keys@.len() == t,
            owned@.len() == t,
            forall|i: int| 0 <= i < t ==> #[trigger] mask@[i] == siege_elig(view, i),
            forall|i: int| 0 <= i < t ==> #[trigger] keys@[i] == (sig.siege_cost@[i], 0u64),
            forall|i: int| 0 <= i < t ==> #[trigger] owned@[i] == (view.info(i).owner == PosOwner::Me),
        decreases n - t,
    {
        mask.push(siege_elig_exec(view, t));
        keys.push((sig.siege_cost[t], 0u64));
        owned.push(view.infos[t].owner == PosOwner::Me);
        t = t + 1;
    }
    assert(mask@ =~= siege_mask(view));
    assert(keys@ =~= siege_keys(view, sig));
    assert(owned@ =~= owned_mask(view));
    let target = match next_id_exec(&mask, &keys, None) {
        None => return None,
        Some(x) => x,
    };
    let omask = build_mask(view, Select::Owned, target, 0);
    match nearest(view, target, &omask) {
        Some(st) => Some((target, st)),
        None => match lowest_exec(&owned) {
            Some(st) => Some((target, st)),
            None => None,
        },
    }
}

/// What owned exporting source `from` does under the plan (see [`attack_send`]).
fn attack_send_exec(
    view: &PositionView,
    sig: &Signals,
    p: &AttackParams,
    target: usize,
    staging: usize,
    sup: bool,
    denial: Option<usize>,
    from: usize,
) -> (r: Option<GreedyAction>)
    requires
        view.wf(),
        sig.wf(view.size()),
        target < view.size(),
        staging < view.size(),
        from < view.size(),
        denial == lowest(denial_mask(view, target as int)),
    ensures
        r == attack_send(view, sig, *p, target, staging, sup, from as int),
{
    let floor = p.garrison_floor;
    if view.infos[from].owner != PosOwner::Me || !view.export_ok[from] {
        return None;
    }
    let s = match surplus_of(view, from, floor) {
        None => return None,
        Some(s) => s,
    };
    let here = view.infos[from].my_ships;
    if outnumbered_here(view, from) {
        return retreat(view, from, floor);
    }
    if from == staging {
        let need_ok = match sig.force_needed[target] {
            Some(need) => here >= need,
            None => false,
        };
        let is_ready = view.next_owner[target] != Some(Side::Me) && view.next_owner[target] != Some(
            Side::Foe,
        ) && need_ok && here >= sig.heal_bar[target];
        if is_ready || sig.over_cap[from] {
            return wave(view, from, target, s, floor);
        }
        return None;
    }
    if here > 0 && (view.infos[from].contested || sig.capture_eta[from].is_some()) {
        let keep = if p.grind_hold_floor >= sig.hold_keep[from] {
            p.grind_hold_floor
        } else {
            sig.hold_keep[from]
        };
        let rel = here.saturating_sub(keep);
        if rel > 0 && sig.over_cap[from] {
            return wave(view, from, staging, rel, floor);
        }
        return None;
    }
    if sup {
        match denial {
            Some(d) => {
                if s >= p.denial_detach {
                    match deny(view, from, d, p.denial_detach, floor) {
                        Some(a) => return Some(a),
                        None => {},
                    }
                }
            },
            None => {},
        }
    }
    if view.reachable(from, staging) {
        wave(view, from, staging, s, floor)
    } else if view.reachable(from, target) {
        wave(view, from, target, s, floor)
    } else {
        None
    }
}

/// **The siege**: with no reachable foe presence it develops like the colonizer; otherwise it
/// besieges the best-ranked foe position from the owned position nearest it. Every owned
/// exporting source with surplus retreats a losing fight; the staging position commits its
/// surplus only when ready (the efficient winning force, out-lasting the heal) or when the
/// soft cap forces a spend; a grind site keeps enough to out-heal the returning owner and
/// releases only over-cap overflow to the staging; when production-superior a source parks a
/// denial detachment on another foe position; every other source feeds the staging (else the
/// target).
pub fn attack(view: &PositionView, sig: &Signals, p: &AttackParams) -> (actions: Vec<GreedyAction>)
    requires
        view.wf(),
        sig.wf(view.size()),
    ensures
        actions@ == attack_spec(view, sig, *p),
{
    let n = view.len();
    if n == 0 {
        return Vec::new();
    }
    let (target, staging) = match plan_siege(view, sig) {
        None => {
            let cp = ColonizeParams { garrison_floor: p.garrison_floor, max_concurrent: 3, wave_max: 16 };
            return colonize(view, sig, &cp);
        },
        Some(plan) => plan,
    };
    let sup = production_superior(view);
    let mut dmask: Vec<bool> = Vec::new();
    let mut t: usize = 0;
    while t < n
        invariant
            view.wf(),
            n == view.size(),
            0 <= t <= n,
            dmask@.len() == t,
            forall|i: int|
                0 <= i < t ==> #[trigger] dmask@[i] == (i != target && foe_present_spec(view, i)
                    && !settles_mine_spec(view, i)),
        decreases n - t,
    {
        dmask.push(t != target && foe_present(view, t) && view.next_owner[t] != Some(Side::Me));
        t = t + 1;
    }
    assert(dmask@ =~= denial_mask(view, target as int));
    let denial = lowest_exec(&dmask);
    let mut actions: Vec<GreedyAction> = Vec::new();
    let mut from: usize = 0;
    while from < n
        invariant
            view.wf(),
            sig.wf(view.size()),
            n == view.size(),
            target < n,
            staging < n,
            sup == superior(view),
            denial == lowest(denial_mask(view, target as int)),
            0 <= from <= n,
            actions@ == attack_upto(view, sig, *p, target, staging, sup, from as int),
        decreases n - from,
    {
        match attack_send_exec(view, sig, p, target, staging, sup, denial, from) {
            Some(a) => actions.push(a),
            None => {},
        }
        from = from + 1;
    }
    actions
}

// =====================================================================================
// 4. Defend — heal-and-hold turtle (efficient defense, reinforce first-fall, colonize
//    the surplus).
// =====================================================================================

/// Dials of the turtle.
#[derive(Debug, Clone, Copy, PartialEq, Eq, Structural)]
pub struct DefendParams {
    /// Ships kept home on every owned position.
    pub garrison_floor: u32,
    /// The most ships one source commits per tick to a counter-punch.
    pub counter_punch_cap: u32,
}

impl Default for DefendParams {
    fn default() -> (r: DefendParams)
        ensures
            r.garrison_floor == GARRISON_FLOOR,
            r.counter_punch_cap == 30,
    {
        DefendParams { garrison_floor: GARRISON_FLOOR, counter_punch_cap: 30 }
    }
}

/// The seat holds at least as many positions as the foe.
pub open spec fn not_outexpanded(v: &PositionView) -> bool {
    count_owned(v, PosOwner::Me, v.size() as int) >= count_owned(v, PosOwner::Enemy, v.size() as int)
}

/// A position worth defending: owned ground the foe erodes or the projection loses within the
/// horizon, or a contested position where the seat holds the present majority.
pub open spec fn threatened(v: &PositionView, sig: &Signals, id: int) -> bool {
    ||| (v.info(id).owner == PosOwner::Me && ((foe_present_spec(v, id) && foe_takes_first_spec(v, id))
        || sig.capture_eta@[id] is Some))
    ||| (v.info(id).contested && v.info(id).my_ships >= v.info(id).enemy_ships && v.info(id).my_ships
        > 0)
}

/// The threatened mask.
pub open spec fn threat_mask(v: &PositionView, sig: &Signals) -> Seq<bool> {
    Seq::new(v.size(), |id: int| threatened(v, sig, id))
}

/// Urgency: contested now first, then the soonest projected capture.
pub open spec fn urgency_key(v: &PositionView, sig: &Signals, id: int) -> u64 {
    if v.info(id).contested {
        0
    } else {
        eta_key(sig, id)
    }
}

/// Urgency keys.
pub open spec fn urgency_keys(v: &PositionView, sig: &Signals) -> Seq<(u64, u64)> {
    Seq::new(v.size(), |id: int| (urgency_key(v, sig, id), 0u64))
}

/// The owned positions with surplus that reach `target`, other than it.
pub open spec fn reinforcer_mask(v: &PositionView, target: int, floor: u32) -> Seq<bool> {
    Seq::new(
        v.size(),
        |i: int|
            i != target && v.info(i).owner == PosOwner::Me && surplus_of_spec(v, i, floor) is Some
                && v.reach(i, target),
    )
}

/// The reinforcement the most urgent threatened position still needs: the efficient force
/// less what is present (the attacker out-massed by one when no force reaches the ratio), and
/// at least one while the foe out-numbers the seat there.
pub open spec fn defend_need(sig: &Signals, target: int) -> u32 {
    let present = sig.present_me@[target];
    let foe = sig.present_foe@[target];
    let need_total = match sig.force_needed@[target] {
        Some(x) => x,
        None => foe.saturating_add(1),
    };
    let base = surplus(need_total, present);
    let least: u32 = if foe > present {
        1
    } else {
        0
    };
    if base >= least {
        base
    } else {
        least
    }
}

/// The reinforcement wave toward the position that falls first, from the nearest owned
/// position with surplus that reaches it.
pub open spec fn reinforcement(v: &PositionView, sig: &Signals, p: DefendParams) -> Option<GreedyAction> {
    match first_id(threat_mask(v, sig), urgency_keys(v, sig)) {
        None => None,
        Some(target) => {
            let need = defend_need(sig, target as int);
            if need == 0 {
                None
            } else {
                match nearest_spec(v, target as int, reinforcer_mask(v, target as int, p.garrison_floor)) {
                    None => None,
                    Some(from) => wave_spec(v, from, target, need, p.garrison_floor),
                }
            }
        },
    }
}

/// The colony targets of `from`: reachable foe-free neutrals the foe does not take first.
pub open spec fn colony_mask(v: &PositionView, from: int) -> Seq<bool> {
    Seq::new(
        v.size(),
        |i: int|
            v.info(i).owner == PosOwner::Neutral && !foe_present_spec(v, i) && !foe_takes_first_spec(v, i)
                && v.reach(from, i),
    )
}

/// The counter-punch targets of `from`: reachable foe presence not settling to the seat.
pub open spec fn weak_mask(v: &PositionView, from: int) -> Seq<bool> {
    Seq::new(
        v.size(),
        |to: int| to != from && foe_present_spec(v, to) && !settles_mine_spec(v, to) && v.reach(from, to),
    )
}

/// Weakest first: fewest foe ships, then nearest.
pub open spec fn weak_keys(v: &PositionView, from: int) -> Seq<(u64, u64)> {
    Seq::new(v.size(), |to: int| (v.info(to).enemy_ships as u64, dist_key(v, from, to)))
}

/// What source `from` does once the reinforcement is out: an owned exporting position over
/// its soft-cap threshold colonizes the nearest colony target with its surplus (unless that
/// would over-stack it), else — when not out-expanded — counter-punches the weakest reachable
/// foe presence with at most `counter_punch_cap` ships.
pub open spec fn defend_send(
    v: &PositionView,
    sig: &Signals,
    p: DefendParams,
    reinforcer: Option<usize>,
    noe: bool,
    from: int,
) -> Option<GreedyAction> {
    let floor = p.garrison_floor;
    if reinforcer == Some(from as usize) || v.info(from).owner != PosOwner::Me || !v.export_ok@[from]
        || !sig.over_cap@[from] {
        None
    } else {
        match surplus_of_spec(v, from, floor) {
            None => None,
            Some(s) => match nearest_spec(v, from, colony_mask(v, from)) {
                Some(tgt) => if !sig.overstacked@[tgt as int] {
                    wave_spec(v, from as usize, tgt, s, floor)
                } else {
                    None
                },
                None => if !noe {
                    None
                } else {
                    match first_id(weak_mask(v, from), weak_keys(v, from)) {
                        Some(press) => wave_spec(
                            v,
                            from as usize,
                            press,
                            if s < p.counter_punch_cap {
                                s
                            } else {
                                p.counter_punch_cap
                            },
                            floor,
                        ),
                        None => None,
                    }
                },
            },
        }
    }
}

/// The sends of the first `k` sources.
pub open spec fn defend_upto(
    v: &PositionView,
    sig: &Signals,
    p: DefendParams,
    reinforcer: Option<usize>,
    noe: bool,
    k: int,
) -> Seq<GreedyAction>
    decreases k,
{
    if k <= 0 {
        Seq::empty()
    } else {
        let prev = defend_upto(v, sig, p, reinforcer, noe, k - 1);
        match defend_send(v, sig, p, reinforcer, noe, k - 1) {
            Some(a) => prev.push(a),
            None => prev,
        }
    }
}

/// **The turtle's actions**: the reinforcement first, then the productive sends.
pub open spec fn defend_spec(v: &PositionView, sig: &Signals, p: DefendParams) -> Seq<GreedyAction> {
    if v.size() == 0 {
        Seq::empty()
    } else {
        let r = reinforcement(v, sig, p);
        let first = match r {
            Some(a) => seq![a],
            None => Seq::empty(),
        };
        let reinforcer = match r {
            Some(a) => Some(a.from),
            None => None,
        };
        first + defend_upto(v, sig, p, reinforcer, not_outexpanded(v), v.size() as int)
    }
}

/// The reinforcement (see [`reinforcement`]).
fn reinforce(view: &PositionView, sig: &Signals, p: &DefendParams) -> (r: Option<GreedyAction>)
    requires
        view.wf(),
        sig.wf(view.size()),
    ensures
        r == reinforcement(view, sig, *p),
{
    let n = view.len();
    let floor = p.garrison_floor;
    let mut mask: Vec<bool> = Vec::new();
    let mut keys: Vec<(u64, u64)> = Vec::new();
    let mut id: usize = 0;
    while id < n
        invariant
            view.wf(),
            sig.wf(view.size()),
            n == view.size(),
            0 <= id <= n,
            mask@.len() == id,
            keys@.len() == id,
            forall|i: int| 0 <= i < id ==> #[trigger] mask@[i] == threatened(view, sig, i),
            forall|i: int| 0 <= i < id ==> #[trigger] keys@[i] == (urgency_key(view, sig, i), 0u64),
        decreases n - id,
    {
        let i = view.infos[id];
        let eroded = foe_present(view, id) && view.next_owner[id] == Some(Side::Foe);
        let th = (i.owner == PosOwner::Me && (eroded || sig.capture_eta[id].is_some())) || (i.contested
            && i.my_ships >= i.enemy_ships && i.my_ships > 0);
        mask.push(th);
        let key: u64 = if i.contested {
            0
        } else {
            match sig.capture_eta[id] {
                Some(e) => e,
                None => u64::MAX,
            }
        };
        keys.push((key, 0u64));
        id = id + 1;
    }
    assert(mask@ =~= threat_mask(view, sig));
    assert(keys@ =~= urgency_keys(view, sig));
    let target = match next_id_exec(&mask, &keys, None) {
        None => return None,
        Some(t) => t,
    };
    let present = sig.present_me[target];
    let foe = sig.present_foe[target];
    let need_total = match sig.force_needed[target] {
        Some(x) => x,
        None => foe.saturating_add(1),
    };
    let base = need_total.saturating_sub(present);
    let least: u32 = if foe > present {
        1
    } else {
        0
    };
    let need = if base >= least {
        base
    } else {
        least
    };
    if need == 0 {
        return None;
    }
    let mut rmask: Vec<bool> = Vec::new();
    let mut i: usize = 0;
    while i < n
        invariant
            view.wf(),
            n == view.size(),
            target < n,
            0 <= i <= n,
            rmask@.len() == i,
            forall|a: int|
                0 <= a < i ==> #[trigger] rmask@[a] == reinforcer_mask(view, target as int, floor)[a],
        decreases n - i,
    {
        let ok = i != target && view.infos[i].owner == PosOwner::Me && surplus_of(view, i, floor).is_some()
            && view.reachable(i, target);
        rmask.push(ok);
        i = i + 1;
    }
    assert(rmask@ =~= reinforcer_mask(view, target as int, floor));
    match nearest(view, target, &rmask) {
        None => None,
        Some(from) => wave(view, from, target, need, floor),
    }
}

/// What source `from` does once the reinforcement is out (see [`defend_send`]).
fn defend_send_exec(
    view: &PositionView,
    sig: &Signals,
    p: &DefendParams,
    reinforcer: Option<usize>,
    noe: bool,
    from: usize,
) -> (r: Option<GreedyAction>)
    requires
        view.wf(),
        sig.wf(view.size()),
        from < view.size(),
    ensures
        r == defend_send(view, sig, *p, reinforcer, noe, from as int),
{
    let n = view.len();
    let floor = p.garrison_floor;
    if reinforcer == Some(from) || view.infos[from].owner != PosOwner::Me || !view.export_ok[from]
        || !sig.over_cap[from] {
        return None;
    }
    let s = match surplus_of(view, from, floor) {
        None => return None,
        Some(s) => s,
    };
    let mut cmask: Vec<bool> = Vec::new();
    let mut i: usize = 0;
    while i < n
        invariant
            view.wf(),
            n == view.size(),
            from < n,
            0 <= i <= n,
            cmask@.len() == i,
            forall|a: int| 0 <= a < i ==> #[trigger] cmask@[a] == colony_mask(view, from as int)[a],
        decreases n - i,
    {
        let info = view.infos[i];
        cmask.push(info.owner == PosOwner::Neutral && !foe_present(view, i) && view.next_owner[i]
            != Some(Side::Foe) && view.reachable(from, i));
        i = i + 1;
    }
    assert(cmask@ =~= colony_mask(view, from as int));
    match nearest(view, from, &cmask) {
        Some(tgt) => {
            if !sig.overstacked[tgt] {
                return wave(view, from, tgt, s, floor);
            }
            return None;
        },
        None => {},
    }
    if !noe {
        return None;
    }
    let mut wmask: Vec<bool> = Vec::new();
    let mut wkeys: Vec<(u64, u64)> = Vec::new();
    let mut to: usize = 0;
    while to < n
        invariant
            view.wf(),
            n == view.size(),
            from < n,
            0 <= to <= n,
            wmask@.len() == to,
            wkeys@.len() == to,
            forall|a: int| 0 <= a < to ==> #[trigger] wmask@[a] == weak_mask(view, from as int)[a],
            forall|a: int| 0 <= a < to ==> #[trigger] wkeys@[a] == weak_keys(view, from as int)[a],
        decreases n - to,
    {
        wmask.push(to != from && foe_present(view, to) && view.next_owner[to] != Some(Side::Me)
            && view.reachable(from, to));
        let d: u64 = match view.distance(from, to) {
            Some(d) => d,
            None => u64::MAX,
        };
        wkeys.push((view.infos[to].enemy_ships as u64, d));
        to = to + 1;
    }
    assert(wmask@ =~= weak_mask(view, from as int));
    assert(wkeys@ =~= weak_keys(view, from as int));
    match next_id_exec(&wmask, &wkeys, None) {
        Some(press) => {
            let want = if s < p.counter_punch_cap {
                s
            } else {
                p.counter_punch_cap
            };
            wave(view, from, press, want, floor)
        },
        None => None,
    }
}

/// **The turtle**: it reinforces the threatened position that falls first (contested now,
/// else the soonest projected capture) with just the efficient defensive force it still needs,
/// from the nearest owned position with surplus; then every other owned exporting position
/// whose parked ships reach its soft-cap threshold colonizes the nearest safe neutral, or —
/// with no neutral left and not out-expanded — counter-punches the weakest reachable foe
/// presence with a capped trickle.
pub fn defend(view: &PositionView, sig: &Signals, p: &DefendParams) -> (actions: Vec<GreedyAction>)
    requires
        view.wf(),
        sig.wf(view.size()),
    ensures
        actions@ == defend_spec(view, sig, *p),
{
    let n = view.len();
    let mut actions: Vec<GreedyAction> = Vec::new();
    if n == 0 {
        return actions;
    }
    let mut mine: usize = 0;
    let mut foe: usize = 0;
    let mut i: usize = 0;
    while i < n
        invariant
            view.wf(),
            n == view.size(),
            0 <= i <= n,
            mine == count_owned(view, PosOwner::Me, i as int),
            foe == count_owned(view, PosOwner::Enemy, i as int),
            mine <= i,
            foe <= i,
        decreases n - i,
    {
        match view.infos[i].owner {
            PosOwner::Me => mine = mine + 1,
            PosOwner::Enemy => foe = foe + 1,
            PosOwner::Neutral => {},
        }
        i = i + 1;
    }
    let noe = mine >= foe;
    let r = reinforce(view, sig, p);
    let reinforcer = match r {
        Some(a) => {
            actions.push(a);
            Some(a.from)
        },
        None => None,
    };
    let ghost first = actions@;
    let mut from: usize = 0;
    while from < n
        invariant
            view.wf(),
            sig.wf(view.size()),
            n == view.size(),
            noe == not_outexpanded(view),
            0 <= from <= n,
            actions@ == first + defend_upto(view, sig, *p, reinforcer, noe, from as int),
        decreases n - from,
    {
        match defend_send_exec(view, sig, p, reinforcer, noe, from) {
            Some(a) => {
                actions.push(a);
            },
            None => {},
        }
        from = from + 1;
    }
    actions
}

// =====================================================================================
// The automaton handle.
// =====================================================================================

/// One of the four automatons with its dials.
#[derive(Debug, Clone, Copy, PartialEq, Eq, Structural)]
pub enum Automaton {
    /// Resistance-sized, nearest-first colonizer.
    SimpleColonizer(SimpleColonizerParams),
    /// Marginal-value colonizer.
    Colonize(ColonizeParams),
    /// Grind-and-hold siege.
    Attack(AttackParams),
    /// Heal-and-hold turtle.
    Defend(DefendParams),
}

/// The actions of automaton `a` on the board.
pub open spec fn decide_spec(a: Automaton, v: &PositionView, sig: &Signals) -> Seq<GreedyAction> {
    match a {
        Automaton::SimpleColonizer(p) => simple_colonize_spec(v, sig, p),
        Automaton::Colonize(p) => colonize_spec(v, sig, p),
        Automaton::Attack(p) => attack_spec(v, sig, p),
        Automaton::Defend(p) => defend_spec(v, sig, p),
    }
}

impl Automaton {
    /// Run this automaton's program over the board.
    pub fn decide(&self, view: &PositionView, sig: &Signals) -> (actions: Vec<GreedyAction>)
        requires
            view.wf(),
            sig.wf(view.size()),
        ensures
            actions@ == decide_spec(*self, view, sig),
    {
        match self {
            Automaton::SimpleColonizer(p) => simple_colonize(view, sig, p),
            Automaton::Colonize(p) => colonize(view, sig, p),
            Automaton::Attack(p) => attack(view, sig, p),
            Automaton::Defend(p) => defend(view, sig, p),
        }
    }

    /// A short human-readable name.
    pub fn name(&self) -> (r: &'static str)
        ensures
            r@ == match *self {
                Automaton::SimpleColonizer(_) => "SimpleColonizer"@,
                Automaton::Colonize(_) => "Colonize"@,
                Automaton::Attack(_) => "Attack"@,
                Automaton::Defend(_) => "Defend"@,
            },
    {
        match self {
            Automaton::SimpleColonizer(_) => "SimpleColonizer",
            Automaton::Colonize(_) => "Colonize",
            Automaton::Attack(_) => "Attack",
            Automaton::Defend(_) => "Defend",
        }
    }
}

// =====================================================================================
// Laws.
// =====================================================================================

/// Action `a` moves surplus of an owned position: a positive count, never below the floor.
pub open spec fn keeps_floor(v: &PositionView, floor: u32, a: GreedyAction) -> bool {
    &&& a.from < v.size()
    &&& v.info(a.from as int).owner == PosOwner::Me
    &&& 0 < a.count
    &&& a.count <= surplus(v.info(a.from as int).my_ships, floor)
}

/// Every action of `acts` keeps the floor.
pub open spec fn all_keep_floor(v: &PositionView, floor: u32, acts: Seq<GreedyAction>) -> bool {
    forall|i: int| 0 <= i < acts.len() ==> keeps_floor(v, floor, #[trigger] acts[i])
}

/// The garrison floor of automaton `a`.
pub open spec fn floor_of(a: Automaton) -> u32 {
    match a {
        Automaton::SimpleColonizer(p) => p.garrison_floor,
        Automaton::Colonize(p) => p.garrison_floor,
        Automaton::Attack(p) => p.garrison_floor,
        Automaton::Defend(p) => p.garrison_floor,
    }
}

/// The vocabulary's moves keep the floor.
proof fn lemma_words_keep_floor(v: &PositionView, floor: u32, from: usize, to: usize, n: u32)
    requires
        from < v.size(),
    ensures
        wave_spec(v, from, to, n, floor) matches Some(a) ==> keeps_floor(v, floor, a) && a.from == from
            && a.to == to && a.count <= n,
        retreat_spec(v, from, floor) matches Some(a) ==> keeps_floor(v, floor, a) && a.from == from,
        deny_spec(v, from, to, n, floor) matches Some(a) ==> keeps_floor(v, floor, a) && a.from == from,
{
}

/// Appending actions that keep the floor keeps the floor.
proof fn lemma_all_keep_floor_concat(v: &PositionView, floor: u32, a: Seq<GreedyAction>, b: Seq<GreedyAction>)
    requires
        all_keep_floor(v, floor, a),
        all_keep_floor(v, floor, b),
    ensures
        all_keep_floor(v, floor, a + b),
{
    assert forall|i: int| 0 <= i < (a + b).len() implies keeps_floor(v, floor, #[trigger] (a + b)[i]) by {
        if i < a.len() {
            assert((a + b)[i] == a[i]);
        } else {
            assert((a + b)[i] == b[i - a.len()]);
        }
    }
}

/// The retreats keep the floor.
proof fn lemma_retreats_keep_floor(v: &PositionView, floor: u32, k: int)
    requires
        0 <= k <= v.size(),
        v.size() <= usize::MAX,
    ensures
        all_keep_floor(v, floor, retreats_upto(v, floor, k)),
    decreases k,
{
    if k > 0 {
        lemma_retreats_keep_floor(v, floor, k - 1);
        lemma_words_keep_floor(v, floor, (k - 1) as usize, 0, 0);
    }
}

/// One source's pours keep the floor.
proof fn lemma_pour_keeps_floor(
    v: &PositionView,
    p: SimpleColonizerParams,
    from: usize,
    ids: Seq<usize>,
    goals: Seq<u32>,
    order: Seq<usize>,
    i: int,
    st0: (Seq<u32>, u32, Seq<GreedyAction>),
)
    requires
        from < v.size(),
        0 <= i <= order.len(),
        all_keep_floor(v, p.garrison_floor, st0.2),
    ensures
        all_keep_floor(v, p.garrison_floor, sc_pour(v, p, from, ids, goals, order, i, st0).2),
    decreases i,
{
    if i > 0 {
        lemma_pour_keeps_floor(v, p, from, ids, goals, order, i - 1, st0);
        let st = sc_pour(v, p, from, ids, goals, order, i - 1, st0);
        let k = order[i - 1];
        let remaining = surplus(goals[k as int], st.0[k as int]);
        let want = if st.1 < remaining {
            st.1
        } else {
            remaining
        };
        lemma_words_keep_floor(v, p.garrison_floor, from, ids[k as int], want);
    }
}

/// The fill keeps the floor.
proof fn lemma_fill_keeps_floor(
    v: &PositionView,
    p: SimpleColonizerParams,
    ids: Seq<usize>,
    goals: Seq<u32>,
    c0: Seq<u32>,
    k: int,
)
    requires
        0 <= k <= v.size(),
        v.size() <= usize::MAX,
    ensures
        all_keep_floor(v, p.garrison_floor, sc_fill(v, p, ids, goals, c0, k).1),
    decreases k,
{
    if k > 0 {
        lemma_fill_keeps_floor(v, p, ids, goals, c0, k - 1);
        let (c, acts) = sc_fill(v, p, ids, goals, c0, k - 1);
        let from = k - 1;
        if !(sc_spent(v, p.garrison_floor, from) || !has_surplus_spec(v, from, p.garrison_floor)) {
            let avail = surplus(v.info(from).my_ships, p.garrison_floor);
            let order = sorted_ids(sc_elig(v, ids, goals, c, from), sc_keys(v, ids, from));
            let st0 = (c, avail, Seq::<GreedyAction>::empty());
            lemma_pour_keeps_floor(v, p, from as usize, ids, goals, order, order.len() as int, st0);
            lemma_all_keep_floor_concat(
                v,
                p.garrison_floor,
                acts,
                sc_pour(v, p, from as usize, ids, goals, order, order.len() as int, st0).2,
            );
        }
    }
}

/// The colonizer's sends keep the floor.
proof fn lemma_col_keeps_floor(v: &PositionView, sig: &Signals, p: ColonizeParams, chosen: Seq<usize>, k: int)
    requires
        0 <= k <= v.size(),
        v.size() <= usize::MAX,
    ensures
        all_keep_floor(v, p.garrison_floor, col_upto(v, sig, p, chosen, k)),
    decreases k,
{
    if k > 0 {
        lemma_col_keeps_floor(v, sig, p, chosen, k - 1);
        let from = k - 1;
        let s = surplus(v.info(from).my_ships, p.garrison_floor);
        let size = if s < p.wave_max {
            s
        } else {
            p.wave_max
        };
        let tgt = match nearest_spec(v, from, chosen_mask(v, chosen)) {
            Some(t) => t,
            None => chosen[0],
        };
        lemma_words_keep_floor(v, p.garrison_floor, from as usize, tgt, size);
        lemma_words_keep_floor(v, p.garrison_floor, from as usize, chosen[0], size);
    }
}

/// The siege's sends keep the floor.
proof fn lemma_attack_keeps_floor(
    v: &PositionView,
    sig: &Signals,
    p: AttackParams,
    target: usize,
    staging: usize,
    sup: bool,
    k: int,
)
    requires
        0 <= k <= v.size(),
        v.size() <= usize::MAX,
    ensures
        all_keep_floor(v, p.garrison_floor, attack_upto(v, sig, p, target, staging, sup, k)),
    decreases k,
{
    if k > 0 {
        lemma_attack_keeps_floor(v, sig, p, target, staging, sup, k - 1);
        let from = (k - 1) as usize;
        let floor = p.garrison_floor;
        let s = surplus(v.info(from as int).my_ships, floor);
        let keep = if p.grind_hold_floor >= sig.hold_keep@[from as int] {
            p.grind_hold_floor
        } else {
            sig.hold_keep@[from as int]
        };
        let rel = surplus(v.info(from as int).my_ships, keep);
        lemma_words_keep_floor(v, floor, from, target, s);
        lemma_words_keep_floor(v, floor, from, staging, s);
        lemma_words_keep_floor(v, floor, from, staging, rel);
        lemma_words_keep_floor(v, floor, from, lowest(denial_mask(v, target as int))->0, p.denial_detach);
    }
}

/// The turtle's productive sends keep the floor.
proof fn lemma_defend_keeps_floor(
    v: &PositionView,
    sig: &Signals,
    p: DefendParams,
    reinforcer: Option<usize>,
    noe: bool,
    k: int,
)
    requires
        0 <= k <= v.size(),
        v.size() <= usize::MAX,
    ensures
        all_keep_floor(v, p.garrison_floor, defend_upto(v, sig, p, reinforcer, noe, k)),
    decreases k,
{
    if k > 0 {
        lemma_defend_keeps_floor(v, sig, p, reinforcer, noe, k - 1);
        let from = (k - 1) as usize;
        let floor = p.garrison_floor;
        let s = surplus(v.info(from as int).my_ships, floor);
        let capped = if s < p.counter_punch_cap {
            s
        } else {
            p.counter_punch_cap
        };
        match nearest_spec(v, from as int, colony_mask(v, from as int)) {
            Some(tgt) => lemma_words_keep_floor(v, floor, from, tgt, s),
            None => {},
        }
        match first_id(weak_mask(v, from as int), weak_keys(v, from as int)) {
            Some(press) => lemma_words_keep_floor(v, floor, from, press, capped),
            None => {},
        }
    }
}

/// **No automaton spends the garrison floor.** Every action any of the four automatons emits
/// moves a positive number of ships out of a position the seat owns, and never more than that
/// position's ships above the automaton's garrison floor.
pub proof fn law_automata_keep_the_floor(a: Automaton, v: &PositionView, sig: &Signals)
    requires
        v.wf(),
        sig.wf(v.size()),
    ensures
        all_keep_floor(v, floor_of(a), decide_spec(a, v, sig)),
{
    let n = v.size() as int;
    match a {
        Automaton::SimpleColonizer(p) => {
            lemma_retreats_keep_floor(v, p.garrison_floor, n);
            let ids = sc_targets(v, sig, n);
            let goals = ids.map_values(|t: usize| sc_goal(sig, p, t as int));
            let c0 = ids.map_values(|t: usize| sig.incoming_mine@[t as int]);
            lemma_fill_keeps_floor(v, p, ids, goals, c0, n);
            lemma_all_keep_floor_concat(
                v,
                p.garrison_floor,
                retreats_upto(v, p.garrison_floor, n),
                sc_fill(v, p, ids, goals, c0, n).1,
            );
        },
        Automaton::Colonize(p) => {
            lemma_col_keeps_floor(v, sig, p, col_chosen(v, sig, p), n);
        },
        Automaton::Attack(p) => {
            let cp = ColonizeParams { garrison_floor: p.garrison_floor, max_concurrent: 3, wave_max: 16 };
            lemma_col_keeps_floor(v, sig, cp, col_chosen(v, sig, cp), n);
            match siege_plan(v, sig) {
                Some((target, staging)) => lemma_attack_keeps_floor(
                    v,
                    sig,
                    p,
                    target,
                    staging,
                    superior(v),
                    n,
                ),
                None => {},
            }
        },
        Automaton::Defend(p) => {
            lemma_defend_keeps_floor(
                v,
                sig,
                p,
                match reinforcement(v, sig, p) {
                    Some(x) => Some(x.from),
                    None => None,
                },
                not_outexpanded(v),
                n,
            );
            match reinforcement(v, sig, p) {
                Some(r) => {
                    match first_id(threat_mask(v, sig), urgency_keys(v, sig)) {
                        Some(target) => match nearest_spec(
                            v,
                            target as int,
                            reinforcer_mask(v, target as int, p.garrison_floor),
                        ) {
                            Some(from) => {
                                lemma_words_keep_floor(
                                    v,
                                    p.garrison_floor,
                                    from,
                                    target,
                                    defend_need(sig, target as int),
                                );
                            },
                            None => {},
                        },
                        None => {},
                    }
                    lemma_all_keep_floor_concat(
                        v,
                        p.garrison_floor,
                        seq![r],
                        defend_upto(v, sig, p, Some(r.from), not_outexpanded(v), n),
                    );
                },
                None => {
                    assert(Seq::<GreedyAction>::empty() + defend_upto(v, sig, p, None, not_outexpanded(v), n)
                        =~= defend_upto(v, sig, p, None, not_outexpanded(v), n));
                },
            }
        },
    }
}

/// The ships `acts` sends to `t` in capture waves.
pub open spec fn waves_to(acts: Seq<GreedyAction>, t: usize) -> int
    decreases acts.len(),
{
    if acts.len() == 0 {
        0
    } else {
        waves_to(acts.drop_last(), t) + (if acts.last().kind == GreedyKind::Wave && acts.last().to == t {
            acts.last().count as int
        } else {
            0
        })
    }
}

proof fn lemma_waves_to_nonneg(acts: Seq<GreedyAction>, t: usize)
    ensures
        waves_to(acts, t) >= 0,
    decreases acts.len(),
{
    if acts.len() > 0 {
        lemma_waves_to_nonneg(acts.drop_last(), t);
    }
}

proof fn lemma_waves_to_concat(a: Seq<GreedyAction>, b: Seq<GreedyAction>, t: usize)
    ensures
        waves_to(a + b, t) == waves_to(a, t) + waves_to(b, t),
    decreases b.len(),
{
    if b.len() == 0 {
        assert(a + b =~= a);
    } else {
        lemma_waves_to_concat(a, b.drop_last(), t);
        assert((a + b).drop_last() =~= a + b.drop_last());
    }
}

proof fn lemma_retreats_no_waves(v: &PositionView, floor: u32, k: int, t: usize)
    ensures
        waves_to(retreats_upto(v, floor, k), t) == 0,
    decreases k,
{
    if k > 0 {
        lemma_retreats_no_waves(v, floor, k - 1, t);
        let prev = retreats_upto(v, floor, k - 1);
        if sc_spent(v, floor, k - 1) {
            assert(retreats_upto(v, floor, k).drop_last() =~= prev);
        }
    }
}

/// The targets are strictly ascending and list every target below `k`.
proof fn lemma_sc_targets_sorted(v: &PositionView, sig: &Signals, k: int)
    requires
        v.wf(),
        0 <= k <= v.size(),
    ensures
        forall|i: int, j: int|
            0 <= i < j < sc_targets(v, sig, k).len() ==> sc_targets(v, sig, k)[i] < sc_targets(v, sig, k)[j],
        forall|t: int| 0 <= t < k && sc_target(v, sig, t) ==> sc_targets(v, sig, k).contains(t as usize),
    decreases k,
{
    if k > 0 {
        lemma_sc_targets_sorted(v, sig, k - 1);
        lemma_sc_targets(v, sig, k - 1);
        let prev = sc_targets(v, sig, k - 1);
        if sc_target(v, sig, k - 1) {
            let cur = prev.push((k - 1) as usize);
            assert forall|t: int| 0 <= t < k && sc_target(v, sig, t) implies cur.contains(t as usize) by {
                if t < k - 1 {
                    let i = choose|i: int| 0 <= i < prev.len() && prev[i] == t as usize;
                    assert(cur[i] == t as usize);
                } else {
                    assert(cur[prev.len() as int] == t as usize);
                }
            }
        }
    }
}

/// The commitment `c` accounts for the waves `acts` sent on top of `c0`, none past a goal,
/// and no wave goes anywhere but a target slot.
pub open spec fn tracks(ids: Seq<usize>, goals: Seq<u32>, c0: Seq<u32>, c: Seq<u32>, acts: Seq<GreedyAction>) -> bool {
    &&& c.len() == ids.len()
    &&& forall|j: int|
        0 <= j < ids.len() ==> {
            &&& #[trigger] c[j] == c0[j] + waves_to(acts, ids[j])
            &&& (c[j] <= goals[j] || c[j] == c0[j])
        }
    &&& forall|x: usize| !ids.contains(x) ==> waves_to(acts, x) == 0
}

/// Pouring keeps the commitments accounted for.
proof fn lemma_pour_tracks(
    v: &PositionView,
    p: SimpleColonizerParams,
    from: usize,
    ids: Seq<usize>,
    goals: Seq<u32>,
    c0: Seq<u32>,
    order: Seq<usize>,
    i: int,
    st0: (Seq<u32>, u32, Seq<GreedyAction>),
    base: Seq<GreedyAction>,
)
    requires
        0 <= i <= order.len(),
        forall|x: int| 0 <= x < order.len() ==> (#[trigger] order[x]) < ids.len(),
        forall|a: int, b: int| 0 <= a < b < ids.len() ==> ids[a] != ids[b],
        goals.len() == ids.len(),
        c0.len() == ids.len(),
        st0.2 == Seq::<GreedyAction>::empty(),
        tracks(ids, goals, c0, st0.0, base),
    ensures
        tracks(
            ids,
            goals,
            c0,
            sc_pour(v, p, from, ids, goals, order, i, st0).0,
            base + sc_pour(v, p, from, ids, goals, order, i, st0).2,
        ),
    decreases i,
{
    if i == 0 {
        assert(base + st0.2 =~= base);
    } else {
        lemma_pour_tracks(v, p, from, ids, goals, c0, order, i - 1, st0, base);
        let st = sc_pour(v, p, from, ids, goals, order, i - 1, st0);
        let nx = sc_pour(v, p, from, ids, goals, order, i, st0);
        let k = order[i - 1];
        let (committed, avail, acts) = st;
        let remaining = surplus(goals[k as int], committed[k as int]);
        let want = if avail < remaining {
            avail
        } else {
            remaining
        };
        if !(avail == 0 || want == 0 || committed[k as int] + want < sc_threshold(p)) {
            match wave_spec(v, from, ids[k as int], want, p.garrison_floor) {
                None => {},
                Some(a) => {
                    assert(nx.2 == acts.push(a));
                    assert(base + nx.2 =~= (base + acts).push(a));
                    assert((base + acts).push(a).drop_last() =~= base + acts);
                    assert forall|j: int| 0 <= j < ids.len() implies {
                        &&& #[trigger] nx.0[j] == c0[j] + waves_to(base + nx.2, ids[j])
                        &&& (nx.0[j] <= goals[j] || nx.0[j] == c0[j])
                    } by {
                        if j != k {
                            assert(ids[j] != ids[k as int]);
                        }
                    }
                },
            }
        }
    }
}

/// The fill keeps the commitments accounted for.
proof fn lemma_fill_tracks(
    v: &PositionView,
    p: SimpleColonizerParams,
    ids: Seq<usize>,
    goals: Seq<u32>,
    c0: Seq<u32>,
    k: int,
)
    requires
        0 <= k,
        forall|a: int, b: int| 0 <= a < b < ids.len() ==> ids[a] != ids[b],
        goals.len() == ids.len(),
        c0.len() == ids.len(),
    ensures
        tracks(ids, goals, c0, sc_fill(v, p, ids, goals, c0, k).0, sc_fill(v, p, ids, goals, c0, k).1),
    decreases k,
{
    if k == 0 {
        assert(tracks(ids, goals, c0, c0, Seq::empty()));
    } else {
        lemma_fill_tracks(v, p, ids, goals, c0, k - 1);
        let (c, acts) = sc_fill(v, p, ids, goals, c0, k - 1);
        let from = k - 1;
        if !(sc_spent(v, p.garrison_floor, from) || !has_surplus_spec(v, from, p.garrison_floor)) {
            let avail = surplus(v.info(from).my_ships, p.garrison_floor);
            let elig = sc_elig(v, ids, goals, c, from);
            let order = sorted_ids(elig, sc_keys(v, ids, from));
            lemma_sorted_ids_elems(elig, sc_keys(v, ids, from));
            let st0 = (c, avail, Seq::<GreedyAction>::empty());
            lemma_pour_tracks(v, p, from as usize, ids, goals, c0, order, order.len() as int, st0, acts);
        }
    }
}

/// **The simple colonizer never over-sends.** Its capture waves go only to its targets, and
/// the ships it sends to a target, together with the seat's ships already inbound there, never
/// exceed the target's goal — a target whose inbound ships already meet the goal gets nothing.
pub proof fn law_simple_colonizer_never_oversends(
    v: &PositionView,
    sig: &Signals,
    p: SimpleColonizerParams,
    t: usize,
)
    requires
        v.wf(),
        sig.wf(v.size()),
        t < v.size(),
    ensures
        !sc_target(v, sig, t as int) ==> waves_to(simple_colonize_spec(v, sig, p), t) == 0,
        sc_target(v, sig, t as int) ==> sig.incoming_mine@[t as int] >= sc_goal(sig, p, t as int)
            ==> waves_to(simple_colonize_spec(v, sig, p), t) == 0,
        sc_target(v, sig, t as int) ==> sig.incoming_mine@[t as int] + waves_to(
            simple_colonize_spec(v, sig, p),
            t,
        ) <= (if sig.incoming_mine@[t as int] >= sc_goal(sig, p, t as int) {
            sig.incoming_mine@[t as int] as int
        } else {
            sc_goal(sig, p, t as int) as int
        }),
{
    let n = v.size() as int;
    let floor = p.garrison_floor;
    lemma_retreats_no_waves(v, floor, n, t);
    lemma_sc_targets(v, sig, n);
    lemma_sc_targets_sorted(v, sig, n);
    let ids = sc_targets(v, sig, n);
    if ids.len() > 0 {
        let goals = ids.map_values(|x: usize| sc_goal(sig, p, x as int));
        let c0 = ids.map_values(|x: usize| sig.incoming_mine@[x as int]);
        lemma_fill_tracks(v, p, ids, goals, c0, n);
        let (c, acts) = sc_fill(v, p, ids, goals, c0, n);
        lemma_waves_to_concat(retreats_upto(v, floor, n), acts, t);
        if sc_target(v, sig, t as int) {
            let j = choose|j: int| 0 <= j < ids.len() && ids[j] == t;
            assert(c[j] == c0[j] + waves_to(acts, ids[j]));
            lemma_waves_to_nonneg(acts, t);
        } else {
            if ids.contains(t) {
                let j = choose|j: int| 0 <= j < ids.len() && ids[j] == t;
                assert(sc_target(v, sig, ids[j] as int));
            }
        }
    } else {
        if sc_target(v, sig, t as int) {
            assert(ids.contains(t));
        }
    }
}

/// Actions with positive counts that send nothing in waves to `t` hold no wave toward `t`.
proof fn lemma_no_wave_to(acts: Seq<GreedyAction>, t: usize)
    requires
        waves_to(acts, t) == 0,
        forall|i: int| 0 <= i < acts.len() ==> (#[trigger] acts[i]).count > 0,
    ensures
        forall|i: int| 0 <= i < acts.len() ==> !((#[trigger] acts[i]).kind == GreedyKind::Wave && acts[i].to == t),
    decreases acts.len(),
{
    if acts.len() > 0 {
        let a0 = acts.drop_last();
        lemma_waves_to_nonneg(a0, t);
        assert(acts.last() == acts[acts.len() - 1]);
        assert forall|i: int| 0 <= i < a0.len() implies (#[trigger] a0[i]).count > 0 by {
            assert(a0[i] == acts[i]);
        }
        lemma_no_wave_to(a0, t);
        assert forall|i: int| 0 <= i < acts.len() implies !((#[trigger] acts[i]).kind == GreedyKind::Wave && acts[i].to == t) by {
            if i < a0.len() {
                assert(acts[i] == a0[i]);
            }
        }
    }
}

/// **The simple colonizer never pours onto settled or hostile ground.** No wave of the simple
/// colonizer goes to a position the projection already hands to the seat, to an enemy-owned
/// position or one holding enemy ships, to a position with no resistance left, or to one of
/// the seat's own positions that no other owned position out-stocks.
pub proof fn law_simple_colonizer_skips_settled_ground(v: &PositionView, sig: &Signals, p: SimpleColonizerParams, t: usize)
    requires
        v.wf(),
        sig.wf(v.size()),
        t < v.size(),
        ({
            ||| v.next_owner@[t as int] == Some(Side::Me)
            ||| v.info(t as int).owner == PosOwner::Enemy
            ||| v.info(t as int).enemy_ships > 0
            ||| !sig.resistance_left@[t as int]
            ||| (v.info(t as int).owner == PosOwner::Me && forall|j: int|
                0 <= j < v.size() && j != t && (#[trigger] v.info(j)).owner == PosOwner::Me ==> v.info(j).my_ships
                    <= v.info(t as int).my_ships)
        }),
    ensures
        forall|i: int|
            0 <= i < simple_colonize_spec(v, sig, p).len() ==> !((#[trigger] simple_colonize_spec(v, sig, p)[i]).kind
                == GreedyKind::Wave && simple_colonize_spec(v, sig, p)[i].to == t),
{
    assert(!sc_target(v, sig, t as int));
    law_simple_colonizer_never_oversends(v, sig, p, t);
    law_automata_keep_the_floor(Automaton::SimpleColonizer(p), v, sig);
    let acts = simple_colonize_spec(v, sig, p);
    assert forall|i: int| 0 <= i < acts.len() implies (#[trigger] acts[i]).count > 0 by {
        assert(keeps_floor(v, p.garrison_floor, acts[i]));
    }
    lemma_no_wave_to(acts, t);
}

/// Action `a` of the colonizer goes to a chosen front it reaches, where one more ship from
/// its source saves at least its transit, and which it does not over-stack.
pub open spec fn paying_send(v: &PositionView, sig: &Signals, chosen: Seq<usize>, a: GreedyAction) -> bool {
    &&& a.kind == GreedyKind::Wave
    &&& a.to < v.size()
    &&& chosen.contains(a.to)
    &&& v.reach(a.from as int, a.to as int)
    &&& pays(sig, a.from as int, a.to as int)
    &&& !sig.overstacked@[a.to as int]
}

proof fn lemma_col_upto_pays(v: &PositionView, sig: &Signals, p: ColonizeParams, chosen: Seq<usize>, k: int)
    requires
        v.wf(),
        0 <= k <= v.size(),
        chosen.len() > 0,
        chosen[0] < v.size(),
    ensures
        forall|i: int|
            0 <= i < col_upto(v, sig, p, chosen, k).len() ==> paying_send(
                v,
                sig,
                chosen,
                #[trigger] col_upto(v, sig, p, chosen, k)[i],
            ),
    decreases k,
{
    if k > 0 {
        lemma_col_upto_pays(v, sig, p, chosen, k - 1);
        let from = k - 1;
        let mask = chosen_mask(v, chosen);
        let fr = chosen[0];
        assert(chosen.contains(fr));
        let tgt = match nearest_spec(v, from, mask) {
            Some(t) => t,
            None => fr,
        };
        if nearest_spec(v, from, mask) is Some {
            lemma_nearest_spec_some(v, from, mask);
            assert(mask[tgt as int]);
            assert(chosen.contains(tgt));
        }
        assert(chosen.contains(tgt));
        let prev = col_upto(v, sig, p, chosen, k - 1);
        match col_send(v, sig, p, chosen, from) {
            Some(a) => {
                assert(a.from == from as usize);
                assert(a.to == tgt || a.to == fr);
                assert(paying_send(v, sig, chosen, a));
                assert(col_upto(v, sig, p, chosen, k) == prev.push(a));
            },
            None => {},
        }
    }
}

/// **The colonizer sends only where the marginal ship pays.** Every wave of the marginal-value
/// colonizer goes to one of its chosen fronts that the source reaches, where one more ship from
/// that source saves at least its transit time, and which the wave does not over-stack.
pub proof fn law_colonize_sends_only_where_it_pays(v: &PositionView, sig: &Signals, p: ColonizeParams)
    requires
        v.wf(),
        sig.wf(v.size()),
    ensures
        forall|i: int|
            0 <= i < colonize_spec(v, sig, p).len() ==> paying_send(
                v,
                sig,
                col_chosen(v, sig, p),
                #[trigger] colonize_spec(v, sig, p)[i],
            ),
{
    let chosen = col_chosen(v, sig, p);
    if v.size() > 0 && chosen.len() > 0 {
        let sorted = sorted_ids(col_mask(v, sig), col_keys(v, sig));
        lemma_sorted_ids_elems(col_mask(v, sig), col_keys(v, sig));
        assert(chosen[0] == sorted[0]);
        lemma_col_upto_pays(v, sig, p, chosen, v.size() as int);
    }
}

proof fn lemma_defend_upto_over_cap(
    v: &PositionView,
    sig: &Signals,
    p: DefendParams,
    reinforcer: Option<usize>,
    noe: bool,
    k: int,
)
    requires
        0 <= k <= v.size(),
        v.size() <= usize::MAX,
    ensures
        forall|i: int|
            0 <= i < defend_upto(v, sig, p, reinforcer, noe, k).len() ==> {
                let a = #[trigger] defend_upto(v, sig, p, reinforcer, noe, k)[i];
                &&& a.from < k
                &&& sig.over_cap@[a.from as int]
                &&& v.export_ok@[a.from as int]
                &&& reinforcer != Some(a.from)
            },
    decreases k,
{
    if k > 0 {
        lemma_defend_upto_over_cap(v, sig, p, reinforcer, noe, k - 1);
        let from = (k - 1) as usize;
        let floor = p.garrison_floor;
        let s = surplus(v.info(from as int).my_ships, floor);
        let capped = if s < p.counter_punch_cap {
            s
        } else {
            p.counter_punch_cap
        };
        match nearest_spec(v, from as int, colony_mask(v, from as int)) {
            Some(tgt) => lemma_words_keep_floor(v, floor, from, tgt, s),
            None => {},
        }
        match first_id(weak_mask(v, from as int), weak_keys(v, from as int)) {
            Some(press) => lemma_words_keep_floor(v, floor, from, press, capped),
            None => {},
        }
    }
}

/// **The turtle masses only what the first-falling position needs, and spends only genuine
/// cap surplus.** Its reinforcement goes to the threatened position that falls first and
/// carries at most the defensive force that position still needs; every other order it gives
/// comes from an exporting position whose parked ships reach its soft-cap threshold, and never
/// from the reinforcing position.
pub proof fn law_defend_masses_only_what_is_needed(v: &PositionView, sig: &Signals, p: DefendParams)
    requires
        v.wf(),
        sig.wf(v.size()),
        v.size() > 0,
    ensures
        reinforcement(v, sig, p) matches Some(r) ==> {
            &&& first_id(threat_mask(v, sig), urgency_keys(v, sig)) == Some(r.to)
            &&& threatened(v, sig, r.to as int)
            &&& r.count <= defend_need(sig, r.to as int)
            &&& defend_spec(v, sig, p)[0] == r
        },
        forall|i: int|
            0 <= i < defend_spec(v, sig, p).len() && (i > 0 || reinforcement(v, sig, p) is None) ==> {
                let a = #[trigger] defend_spec(v, sig, p)[i];
                &&& sig.over_cap@[a.from as int]
                &&& reinforcement(v, sig, p) matches Some(r) ==> a.from != r.from
            },
{
    let n = v.size() as int;
    let r = reinforcement(v, sig, p);
    let reinforcer = match r {
        Some(a) => Some(a.from),
        None => None,
    };
    lemma_defend_upto_over_cap(v, sig, p, reinforcer, not_outexpanded(v), n);
    let rest = defend_upto(v, sig, p, reinforcer, not_outexpanded(v), n);
    match first_id(threat_mask(v, sig), urgency_keys(v, sig)) {
        Some(target) => {
            crate::order::lemma_next_id_some(threat_mask(v, sig), urgency_keys(v, sig), None);
            match nearest_spec(v, target as int, reinforcer_mask(v, target as int, p.garrison_floor)) {
                Some(from) => {
                    lemma_words_keep_floor(v, p.garrison_floor, from, target, defend_need(sig, target as int));
                },
                None => {},
            }
        },
        None => {},
    }
    match r {
        Some(a) => {
            assert forall|i: int| 0 < i < (seq![a] + rest).len() implies (#[trigger] (seq![a] + rest)[i]) == rest[i - 1] by {}
        },
        None => {
            assert(Seq::<GreedyAction>::empty() + rest =~= rest);
        },
    }
}

} // verus!
