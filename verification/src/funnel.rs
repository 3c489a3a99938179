//! The Simple seat's inter-struct **funnel**: every struct that still needs ships (a *sink*)
//! is a source of a breadth-first search over the lane graph; every other struct holding the
//! seat's ships sends its staged storage one hop "downhill" toward its nearest sink (fewest
//! lanes; the lowest-id hop on ties). Distances strictly fall along each hop, so the orders
//! form a DAG.

use vstd::prelude::*;
use crate::position::PosOwner;
use crate::simple_step::SimpleBoard;

verus! {

/// Unassigned distance.
pub const UNREACHED: u32 = 0xffff_ffffu32;

/// `i` is adjacent (by a lane) to some struct of `frontier` and still unassigned.
pub open spec fn joins(dist: Seq<u32>, frontier: Seq<bool>, connected: Seq<Seq<bool>>, i: int) -> bool {
    dist[i] == UNREACHED && exists|f: int| 0 <= f < frontier.len() && #[trigger] frontier[f] && connected[i][f]
}

/// One breadth-first round: the unassigned structs adjacent to the frontier get distance `d`
/// and form the next frontier.
pub open spec fn round(dist: Seq<u32>, frontier: Seq<bool>, connected: Seq<Seq<bool>>, d: u32) -> (Seq<u32>, Seq<bool>) {
    (
        Seq::new(dist.len(), |i: int| if joins(dist, frontier, connected, i) { d } else { dist[i] }),
        Seq::new(dist.len(), |i: int| joins(dist, frontier, connected, i)),
    )
}

/// Number of unassigned structs among the first `k`.
pub open spec fn unassigned_count(dist: Seq<u32>, k: int) -> nat
    decreases k,
{
    if k <= 0 {
        0
    } else {
        unassigned_count(dist, k - 1) + (if dist[k - 1] == UNREACHED {
            1nat
        } else {
            0nat
        })
    }
}

/// Some struct is on the frontier.
pub open spec fn nonempty(frontier: Seq<bool>) -> bool {
    exists|f: int| 0 <= f < frontier.len() && #[trigger] frontier[f]
}

/// The distances once the search from `frontier` (at distance `d`) has run out.
pub open spec fn search(dist: Seq<u32>, frontier: Seq<bool>, connected: Seq<Seq<bool>>, d: u32) -> Seq<u32>
    decreases unassigned_count(dist, dist.len() as int), (if nonempty(frontier) { 1int } else { 0int }),
    via search_decreases
{
    if !nonempty(frontier) || frontier.len() != dist.len() || d >= UNREACHED - 1 {
        dist
    } else {
        let (nd, nf) = round(dist, frontier, connected, (d + 1) as u32);
        search(nd, nf, connected, (d + 1) as u32)
    }
}

/// A round assigns exactly the joining structs.
proof fn lemma_round_count(dist: Seq<u32>, frontier: Seq<bool>, connected: Seq<Seq<bool>>, d: u32, k: int)
    requires
        0 <= k <= dist.len(),
        d != UNREACHED,
    ensures
        unassigned_count(round(dist, frontier, connected, d).0, k) + (if exists|i: int| 0 <= i < k && joins(dist, frontier, connected, i) {
            1nat
        } else {
            0nat
        }) <= unassigned_count(dist, k),
    decreases k,
{
    if k > 0 {
        lemma_round_count(dist, frontier, connected, d, k - 1);
        if exists|i: int| 0 <= i < k && joins(dist, frontier, connected, i) {
            if !joins(dist, frontier, connected, k - 1) {
                let i = choose|i: int| 0 <= i < k && joins(dist, frontier, connected, i);
                assert(0 <= i < k - 1);
            }
        }
    }
}

/// A round either assigns some struct or leaves an empty frontier.
proof fn lemma_round_progress(dist: Seq<u32>, frontier: Seq<bool>, connected: Seq<Seq<bool>>, d: u32)
    requires
        d != UNREACHED,
    ensures
        ({
            let (nd, nf) = round(dist, frontier, connected, d);
            unassigned_count(nd, dist.len() as int) < unassigned_count(dist, dist.len() as int) || (
            unassigned_count(nd, dist.len() as int) == unassigned_count(dist, dist.len() as int)
                && !nonempty(nf))
        }),
{
    let (nd, nf) = round(dist, frontier, connected, d);
    lemma_round_count(dist, frontier, connected, d, dist.len() as int);
    if nonempty(nf) {
        let i = choose|i: int| 0 <= i < nf.len() && #[trigger] nf[i];
        assert(joins(dist, frontier, connected, i));
    }
}

#[via_fn]
proof fn search_decreases(dist: Seq<u32>, frontier: Seq<bool>, connected: Seq<Seq<bool>>, d: u32) {
    if nonempty(frontier) && frontier.len() == dist.len() && d < UNREACHED - 1 {
        lemma_round_progress(dist, frontier, connected, (d + 1) as u32);
    }
}

/// Each struct's lane distance to its nearest sink ([`UNREACHED`] if none).
pub open spec fn sink_dist(sinks: Seq<bool>, connected: Seq<Seq<bool>>) -> Seq<u32> {
    search(Seq::new(sinks.len(), |i: int| if sinks[i] { 0u32 } else { UNREACHED }), sinks, connected, 0)
}

/// `j` is a hop of `i`: one lane closer to a sink.
pub open spec fn hop_of(dist: Seq<u32>, connected: Seq<Seq<bool>>, i: int, j: int) -> bool {
    dist[j] != UNREACHED && dist[j] + 1 == dist[i] && connected[i][j]
}

/// The lowest-id hop of `i`, if any.
pub open spec fn first_hop(dist: Seq<u32>, connected: Seq<Seq<bool>>, i: int, k: int) -> Option<usize>
    decreases k,
{
    if k <= 0 {
        None
    } else {
        match first_hop(dist, connected, i, k - 1) {
            Some(j) => Some(j),
            None => if hop_of(dist, connected, i, k - 1) {
                Some((k - 1) as usize)
            } else {
                None
            },
        }
    }
}

/// The funnel orders `(from, to)` of the first `k` structs.
pub open spec fn funnel_upto(sinks: Seq<bool>, connected: Seq<Seq<bool>>, has_ships: Seq<bool>, k: int) -> Seq<(usize, usize)>
    decreases k,
{
    if k <= 0 {
        Seq::empty()
    } else {
        let prev = funnel_upto(sinks, connected, has_ships, k - 1);
        let dist = sink_dist(sinks, connected);
        let i = k - 1;
        if sinks[i] || dist[i] == UNREACHED || dist[i] == 0 || !has_ships[i] {
            prev
        } else {
            match first_hop(dist, connected, i, sinks.len() as int) {
                Some(j) => prev.push((i as usize, j)),
                None => prev,
            }
        }
    }
}

/// The lane graph is square over the structs.
pub open spec fn graph_wf(sinks: Seq<bool>, connected: Seq<Seq<bool>>, has_ships: Seq<bool>) -> bool {
    &&& sinks.len() < UNREACHED
    &&& connected.len() == sinks.len()
    &&& has_ships.len() == sinks.len()
    &&& forall|i: int| 0 <= i < sinks.len() ==> (#[trigger] connected[i]).len() == sinks.len()
}

/// A struct is a **sink** (it still needs ships) when some sub of it is not the seat's, or
/// some foe is present at or inbound to one of its subs.
pub open spec fn is_sink(b: &SimpleBoard) -> bool {
    exists|s: int|
        0 <= s < b.n() && (b.infos@[s].owner != PosOwner::Me || b.infos@[s].enemy_ships
            + b.enemy_incoming@[s] > 0)
}

/// Whether the struct described by `b` is a sink (see [`is_sink`]).
pub fn struct_is_sink(b: &SimpleBoard) -> (r: bool)
    requires
        b.enemy_incoming@.len() == b.n(),
    ensures
        r == is_sink(b),
{
    let mut s: usize = 0;
    while s < b.infos.len()
        invariant
            b.enemy_incoming@.len() == b.n(),
            0 <= s <= b.n(),
            forall|a: int|
                0 <= a < s ==> !((#[trigger] b.infos@[a]).owner != PosOwner::Me || b.infos@[a].enemy_ships
                    + b.enemy_incoming@[a] > 0),
        decreases b.n() - s,
    {
        let info = b.infos[s];
        assert(info == b.infos@[s as int]);
        if info.owner != PosOwner::Me || info.enemy_ships > 0 || b.enemy_incoming[s] > 0 {
            return true;
        }
        s = s + 1;
    }
    false
}


// =====================================================================================
// Implementation.
// =====================================================================================

/// One breadth-first round (see [`round`]).
fn round_exec(dist: &mut Vec<u32>, frontier: &Vec<bool>, connected: &Vec<Vec<bool>>, d: u32) -> (next: Vec<bool>)
    requires
        old(dist)@.len() == frontier@.len(),
        connected@.len() == frontier@.len(),
        forall|i: int| 0 <= i < frontier@.len() ==> (#[trigger] connected@[i])@.len() == frontier@.len(),
    ensures
        (final(dist)@, next@) == round(
            old(dist)@,
            frontier@,
            connected@.map_values(|r: Vec<bool>| r@),
            d,
        ),
{
    let n = frontier.len();
    let ghost cv = connected@.map_values(|r: Vec<bool>| r@);
    let ghost d0 = dist@;
    let mut next: Vec<bool> = Vec::new();
    let mut i: usize = 0;
    while i < n
        invariant
            n == frontier@.len(),
            d0.len() == n,
            dist@.len() == n,
            connected@.len() == n,
            cv == connected@.map_values(|r: Vec<bool>| r@),
            forall|a: int| 0 <= a < n ==> (#[trigger] connected@[a])@.len() == n,
            0 <= i <= n,
            next@.len() == i,
            forall|a: int| 0 <= a < i ==> next@[a] == joins(d0, frontier@, cv, a),
            forall|a: int| 0 <= a < i ==> dist@[a] == (if joins(d0, frontier@, cv, a) { d } else { d0[a] }),
            forall|a: int| i <= a < n ==> dist@[a] == d0[a],
        decreases n - i,
    {
        let mut hit = false;
        if dist[i] == UNREACHED {
            let mut f: usize = 0;
            while f < n
                invariant
                    n == frontier@.len(),
                    connected@.len() == n,
                    cv == connected@.map_values(|r: Vec<bool>| r@),
                    forall|a: int| 0 <= a < n ==> (#[trigger] connected@[a])@.len() == n,
                    0 <= i < n,
                    0 <= f <= n,
                    hit == exists|g: int| 0 <= g < f && #[trigger] frontier@[g] && cv[i as int][g],
                decreases n - f,
            {
                if frontier[f] && connected[i][f] {
                    assert(frontier@[f as int] && cv[i as int][f as int]);
                    hit = true;
                }
                f = f + 1;
            }
        }
        proof {
            assert(dist@[i as int] == d0[i as int]);
            assert(hit == joins(d0, frontier@, cv, i as int));
        }
        if hit {
            dist.set(i, d);
        }
        next.push(hit);
        i = i + 1;
    }
    assert(dist@ =~= round(d0, frontier@, cv, d).0);
    assert(next@ =~= round(d0, frontier@, cv, d).1);
    next
}

/// Whether some struct is on the frontier.
fn nonempty_exec(frontier: &Vec<bool>) -> (r: bool)
    ensures
        r == nonempty(frontier@),
{
    let mut i: usize = 0;
    while i < frontier.len()
        invariant
            0 <= i <= frontier@.len(),
            forall|a: int| 0 <= a < i ==> !#[trigger] frontier@[a],
        decreases frontier@.len() - i,
    {
        if frontier[i] {
            return true;
        }
        i = i + 1;
    }
    false
}

/// Each struct's lane distance to its nearest sink.
fn sink_dist_exec(sinks: &Vec<bool>, connected: &Vec<Vec<bool>>) -> (r: Vec<u32>)
    requires
        sinks@.len() < UNREACHED,
        connected@.len() == sinks@.len(),
        forall|i: int| 0 <= i < sinks@.len() ==> (#[trigger] connected@[i])@.len() == sinks@.len(),
    ensures
        r@ == sink_dist(sinks@, connected@.map_values(|r: Vec<bool>| r@)),
        r@.len() == sinks@.len(),
{
    let n = sinks.len();
    let ghost cv = connected@.map_values(|r: Vec<bool>| r@);
    let mut dist: Vec<u32> = Vec::new();
    let mut i: usize = 0;
    while i < n
        invariant
            n == sinks@.len(),
            0 <= i <= n,
            dist@.len() == i,
            forall|a: int| 0 <= a < i ==> dist@[a] == (if sinks@[a] { 0u32 } else { UNREACHED }),
        decreases n - i,
    {
        dist.push(if sinks[i] {
            0u32
        } else {
            UNREACHED
        });
        i = i + 1;
    }
    assert(dist@ =~= Seq::new(sinks@.len(), |i: int| if sinks@[i] { 0u32 } else { UNREACHED }));
    let mut frontier: Vec<bool> = Vec::new();
    let mut k: usize = 0;
    while k < n
        invariant
            n == sinks@.len(),
            0 <= k <= n,
            frontier@ == sinks@.take(k as int),
        decreases n - k,
    {
        proof {
            assert(sinks@.take(k + 1) =~= sinks@.take(k as int).push(sinks@[k as int]));
        }
        frontier.push(sinks[k]);
        k = k + 1;
    }
    assert(sinks@.take(n as int) =~= sinks@);
    let mut d: u32 = 0;
    loop
        invariant
            n == sinks@.len(),
            n < UNREACHED,
            connected@.len() == n,
            cv == connected@.map_values(|r: Vec<bool>| r@),
            forall|a: int| 0 <= a < n ==> (#[trigger] connected@[a])@.len() == n,
            dist@.len() == n,
            frontier@.len() == n,
            search(dist@, frontier@, cv, d) == sink_dist(sinks@, cv),
        decreases unassigned_count(dist@, dist@.len() as int), (if nonempty(frontier@) { 1int } else { 0int }),
    {
        if !nonempty_exec(&frontier) || d >= UNREACHED - 1 {
            return dist;
        }
        proof {
            lemma_round_progress(dist@, frontier@, cv, (d + 1) as u32);
        }
        let next = round_exec(&mut dist, &frontier, connected, d + 1);
        frontier = next;
        d = d + 1;
    }
}

/// The lowest-id hop of `i`.
fn first_hop_exec(dist: &Vec<u32>, connected: &Vec<Vec<bool>>, i: usize) -> (r: Option<usize>)
    requires
        dist@.len() == connected@.len(),
        i < dist@.len(),
        (connected@[i as int])@.len() == dist@.len(),
    ensures
        r == first_hop(dist@, connected@.map_values(|r: Vec<bool>| r@), i as int, dist@.len() as int),
{
    let ghost cv = connected@.map_values(|r: Vec<bool>| r@);
    let mut j: usize = 0;
    while j < dist.len()
        invariant
            dist@.len() == connected@.len(),
            i < dist@.len(),
            (connected@[i as int])@.len() == dist@.len(),
            cv == connected@.map_values(|r: Vec<bool>| r@),
            0 <= j <= dist@.len(),
            first_hop(dist@, cv, i as int, j as int) is None,
        decreases dist@.len() - j,
    {
        if dist[j] != UNREACHED && dist[j] + 1 == dist[i] && connected[i][j] {
            proof {
                assert(hop_of(dist@, cv, i as int, j as int));
                lemma_first_hop_stays(dist@, cv, i as int, j + 1, dist@.len() as int);
            }
            return Some(j);
        }
        j = j + 1;
    }
    None
}

/// Once a hop is found among the first `k` structs it stays the first hop.
proof fn lemma_first_hop_stays(dist: Seq<u32>, connected: Seq<Seq<bool>>, i: int, k: int, m: int)
    requires
        0 <= k <= m,
        first_hop(dist, connected, i, k) is Some,
    ensures
        first_hop(dist, connected, i, m) == first_hop(dist, connected, i, k),
    decreases m - k,
{
    if k < m {
        lemma_first_hop_stays(dist, connected, i, k, m - 1);
    }
}

/// **The funnel orders** `(from, to)`: every non-sink struct holding the seat's ships with a
/// sink reachable over the lanes sends its storage one hop toward its nearest sink.
pub fn funnel_orders(sinks: &Vec<bool>, connected: &Vec<Vec<bool>>, has_ships: &Vec<bool>) -> (r: Vec<(usize, usize)>)
    requires
        graph_wf(sinks@, connected@.map_values(|r: Vec<bool>| r@), has_ships@),
    ensures
        r@ == funnel_upto(
            sinks@,
            connected@.map_values(|r: Vec<bool>| r@),
            has_ships@,
            sinks@.len() as int,
        ),
{
    let ghost cv = connected@.map_values(|r: Vec<bool>| r@);
    let n = sinks.len();
    proof {
        assert forall|i: int| 0 <= i < n implies (#[trigger] connected@[i])@.len() == n by {
            assert(cv[i] == connected@[i]@);
        }
    }
    let dist = sink_dist_exec(sinks, connected);
    let mut orders: Vec<(usize, usize)> = Vec::new();
    let mut i: usize = 0;
    while i < n
        invariant
            n == sinks@.len(),
            graph_wf(sinks@, cv, has_ships@),
            cv == connected@.map_values(|r: Vec<bool>| r@),
            connected@.len() == n,
            forall|a: int| 0 <= a < n ==> (#[trigger] connected@[a])@.len() == n,
            dist@ == sink_dist(sinks@, cv),
            dist@.len() == n,
            0 <= i <= n,
            orders@ == funnel_upto(sinks@, cv, has_ships@, i as int),
        decreases n - i,
    {
        if !(sinks[i] || dist[i] == UNREACHED || dist[i] == 0 || !has_ships[i]) {
            match first_hop_exec(&dist, connected, i) {
                Some(j) => {
                    orders.push((i, j));
                },
                None => {},
            }
        }
        i = i + 1;
    }
    orders
}

/// A found hop is a hop, below `k`, with no hop of lower id.
proof fn lemma_first_hop_is_lowest(dist: Seq<u32>, connected: Seq<Seq<bool>>, i: int, k: int)
    requires
        k <= usize::MAX,
    ensures
        first_hop(dist, connected, i, k) matches Some(j) ==> {
            &&& 0 <= j < k
            &&& hop_of(dist, connected, i, j as int)
            &&& forall|l: int| 0 <= l < j ==> !#[trigger] hop_of(dist, connected, i, l)
        },
        first_hop(dist, connected, i, k) is None ==> forall|l: int| 0 <= l < k ==> !#[trigger] hop_of(dist, connected, i, l),
    decreases k,
{
    if k > 0 {
        lemma_first_hop_is_lowest(dist, connected, i, k - 1);
    }
}

/// The orders among the first `k` structs descend and come in ascending source order.
proof fn lemma_funnel_upto_descends(sinks: Seq<bool>, connected: Seq<Seq<bool>>, has_ships: Seq<bool>, k: int)
    requires
        0 <= k <= sinks.len(),
        sinks.len() < UNREACHED,
        has_ships.len() == sinks.len(),
    ensures
        ({
            let orders = funnel_upto(sinks, connected, has_ships, k);
            let dist = sink_dist(sinks, connected);
            &&& forall|a: int| 0 <= a < orders.len() ==> {
                let (i, j) = #[trigger] orders[a];
                &&& i < k
                &&& j < sinks.len()
                &&& !sinks[i as int]
                &&& has_ships[i as int]
                &&& hop_of(dist, connected, i as int, j as int)
                &&& forall|l: int| 0 <= l < j ==> !#[trigger] hop_of(dist, connected, i as int, l)
            }
            &&& forall|a: int, b: int| 0 <= a < b < orders.len() ==> (#[trigger] orders[a]).0 < (#[trigger] orders[b]).0
        }),
    decreases k,
{
    if k > 0 {
        lemma_funnel_upto_descends(sinks, connected, has_ships, k - 1);
        let dist = sink_dist(sinks, connected);
        lemma_first_hop_is_lowest(dist, connected, k - 1, sinks.len() as int);
        let prev = funnel_upto(sinks, connected, has_ships, k - 1);
        let orders = funnel_upto(sinks, connected, has_ships, k);
        if orders.len() != prev.len() {
            let j = first_hop(dist, connected, k - 1, sinks.len() as int)->0;
            assert(orders == prev.push(((k - 1) as usize, j)));
            assert forall|a: int, b: int| 0 <= a < b < orders.len() implies (#[trigger] orders[a]).0 < (#[trigger] orders[b]).0 by {
                if b < prev.len() {
                    assert(orders[a] == prev[a] && orders[b] == prev[b]);
                } else {
                    assert(orders[a] == prev[a]);
                }
            }
        }
    }
}

/// **The funnel is a DAG flowing toward the sinks.** Every order leaves a non-sink struct that
/// holds the seat's ships, follows a lane to a neighbour exactly one lane closer to the nearest
/// sink (the lowest-id such neighbour), and each struct sends at most one order, in ascending
/// struct order. Since the sink distance strictly falls along every order, no chain of orders
/// can return to where it started.
pub proof fn law_funnel_flows_downhill(sinks: Seq<bool>, connected: Seq<Seq<bool>>, has_ships: Seq<bool>)
    requires
        graph_wf(sinks, connected, has_ships),
    ensures
        ({
            let orders = funnel_upto(sinks, connected, has_ships, sinks.len() as int);
            let dist = sink_dist(sinks, connected);
            &&& forall|a: int| 0 <= a < orders.len() ==> {
                let (i, j) = #[trigger] orders[a];
                &&& i < sinks.len()
                &&& j < sinks.len()
                &&& !sinks[i as int]
                &&& has_ships[i as int]
                &&& connected[i as int][j as int]
                &&& dist[j as int] != UNREACHED
                &&& dist[j as int] + 1 == dist[i as int]
                &&& forall|l: int| 0 <= l < j ==> !#[trigger] hop_of(dist, connected, i as int, l)
            }
            &&& forall|a: int, b: int| 0 <= a < b < orders.len() ==> (#[trigger] orders[a]).0 < (#[trigger] orders[b]).0
        }),
{
    lemma_funnel_upto_descends(sinks, connected, has_ships, sinks.len() as int);
}

/// The structs that reach a sink within `k` lanes.
pub open spec fn reach_within(sinks: Seq<bool>, connected: Seq<Seq<bool>>, k: nat) -> Seq<bool>
    decreases k,
{
    if k == 0 {
        sinks
    } else {
        let prev = reach_within(sinks, connected, (k - 1) as nat);
        Seq::new(
            sinks.len(),
            |i: int| prev[i] || exists|j: int| 0 <= j < sinks.len() && connected[i][j] && #[trigger] prev[j],
        )
    }
}

/// `i` reaches a sink within `k` lanes.
pub open spec fn within(sinks: Seq<bool>, connected: Seq<Seq<bool>>, i: int, k: nat) -> bool {
    reach_within(sinks, connected, k)[i]
}

/// Every distance is the fewest lanes to a sink: a struct with a distance reaches a sink in
/// that many lanes and not in fewer, and a struct without one reaches no sink at all.
pub open spec fn nearest_ok(sinks: Seq<bool>, connected: Seq<Seq<bool>>, dist: Seq<u32>) -> bool {
    &&& dist.len() == sinks.len()
    &&& forall|i: int|
        0 <= i < sinks.len() ==> {
            &&& (#[trigger] dist[i] == UNREACHED ==> forall|k: nat| !#[trigger] within(sinks, connected, i, k))
            &&& (dist[i] != UNREACHED ==> within(sinks, connected, i, dist[i] as nat) && (dist[i] == 0
                || !within(sinks, connected, i, (dist[i] - 1) as nat)))
        }
}

proof fn lemma_reach_len(sinks: Seq<bool>, connected: Seq<Seq<bool>>, k: nat)
    ensures
        reach_within(sinks, connected, k).len() == sinks.len(),
    decreases k,
{
    if k > 0 {
        lemma_reach_len(sinks, connected, (k - 1) as nat);
    }
}

/// One more lane: `i` reached it already, or a neighbour reached a sink in one lane fewer.
proof fn lemma_within_unfold(sinks: Seq<bool>, connected: Seq<Seq<bool>>, i: int, k: nat)
    requires
        0 <= i < sinks.len(),
        k > 0,
    ensures
        within(sinks, connected, i, k) <==> (within(sinks, connected, i, (k - 1) as nat) || exists|j: int|
            0 <= j < sinks.len() && connected[i][j] && #[trigger] within(sinks, connected, j, (k - 1) as nat)),
{
    let k1: nat = (k - 1) as nat;
    lemma_reach_len(sinks, connected, k1);
    let prev = reach_within(sinks, connected, k1);
    assert(reach_within(sinks, connected, k)[i] == (prev[i] || exists|j: int|
        0 <= j < sinks.len() && connected[i][j] && #[trigger] prev[j]));
    if exists|j: int| 0 <= j < sinks.len() && connected[i][j] && #[trigger] prev[j] {
        let j = choose|j: int| 0 <= j < sinks.len() && connected[i][j] && #[trigger] prev[j];
        assert(within(sinks, connected, j, k1));
    }
    if exists|j: int| 0 <= j < sinks.len() && connected[i][j] && #[trigger] within(sinks, connected, j, k1) {
        let j = choose|j: int| 0 <= j < sinks.len() && connected[i][j] && #[trigger] within(sinks, connected, j, k1);
        assert(prev[j]);
    }
}

proof fn lemma_within_mono(sinks: Seq<bool>, connected: Seq<Seq<bool>>, i: int, a: nat, b: nat)
    requires
        0 <= i < sinks.len(),
        a <= b,
        within(sinks, connected, i, a),
    ensures
        within(sinks, connected, i, b),
    decreases b,
{
    if a < b {
        lemma_within_mono(sinks, connected, i, a, (b - 1) as nat);
        lemma_within_unfold(sinks, connected, i, b);
    }
}

/// The breadth-first invariant after the rounds up to distance `d`.
spec fn bfs_inv(sinks: Seq<bool>, connected: Seq<Seq<bool>>, dist: Seq<u32>, frontier: Seq<bool>, d: u32) -> bool {
    let n = sinks.len();
    &&& dist.len() == n
    &&& frontier.len() == n
    &&& d < UNREACHED
    &&& forall|i: int|
        0 <= i < n && #[trigger] dist[i] != UNREACHED ==> dist[i] <= d && within(
            sinks,
            connected,
            i,
            dist[i] as nat,
        ) && (dist[i] == 0 || !within(sinks, connected, i, (dist[i] - 1) as nat))
    &&& forall|i: int| 0 <= i < n && #[trigger] dist[i] == UNREACHED ==> !within(sinks, connected, i, d as nat)
    &&& forall|i: int| 0 <= i < n ==> (#[trigger] frontier[i] <==> (dist[i] != UNREACHED && dist[i] == d))
    &&& (nonempty(frontier) ==> n - unassigned_count(dist, n as int) >= d + 1)
}

proof fn lemma_unassigned_le(dist: Seq<u32>, k: int)
    requires
        0 <= k,
    ensures
        unassigned_count(dist, k) <= k,
    decreases k,
{
    if k > 0 {
        lemma_unassigned_le(dist, k - 1);
    }
}

proof fn lemma_unassigned_lt(dist: Seq<u32>, k: int, i: int)
    requires
        0 <= i < k,
        dist[i] != UNREACHED,
    ensures
        unassigned_count(dist, k) < k,
    decreases k,
{
    lemma_unassigned_le(dist, k - 1);
    if i < k - 1 {
        lemma_unassigned_lt(dist, k - 1, i);
    }
}

/// With the frontier exhausted, an unassigned struct reaches no sink in any number of lanes.
proof fn lemma_unreached_never(
    sinks: Seq<bool>,
    connected: Seq<Seq<bool>>,
    dist: Seq<u32>,
    frontier: Seq<bool>,
    d: u32,
    i: int,
    k: nat,
)
    requires
        bfs_inv(sinks, connected, dist, frontier, d),
        !nonempty(frontier),
        0 <= i < sinks.len(),
        dist[i] == UNREACHED,
    ensures
        !within(sinks, connected, i, k),
    decreases k,
{
    let dn: nat = d as nat;
    if within(sinks, connected, i, k) {
        if k <= dn {
            lemma_within_mono(sinks, connected, i, k, dn);
        } else {
            let k1: nat = (k - 1) as nat;
            lemma_within_unfold(sinks, connected, i, k);
            if within(sinks, connected, i, k1) {
                lemma_unreached_never(sinks, connected, dist, frontier, d, i, k1);
            } else {
                let j = choose|j: int|
                    0 <= j < sinks.len() && connected[i][j] && #[trigger] within(sinks, connected, j, k1);
                if dist[j] == UNREACHED {
                    lemma_unreached_never(sinks, connected, dist, frontier, d, j, k1);
                } else {
                    assert(!(0 <= j < frontier.len() && frontier[j]));
                    assert(dist[j] < d);
                    let dm: nat = (dn - 1) as nat;
                    lemma_within_mono(sinks, connected, j, dist[j] as nat, dm);
                    lemma_within_unfold(sinks, connected, i, dn);
                    assert(within(sinks, connected, i, dn));
                }
            }
        }
    }
}

/// A round extends the invariant by one lane.
proof fn lemma_round_inv(sinks: Seq<bool>, connected: Seq<Seq<bool>>, dist: Seq<u32>, frontier: Seq<bool>, d: u32)
    requires
        bfs_inv(sinks, connected, dist, frontier, d),
        nonempty(frontier),
        d < UNREACHED - 1,
    ensures
        bfs_inv(
            sinks,
            connected,
            round(dist, frontier, connected, (d + 1) as u32).0,
            round(dist, frontier, connected, (d + 1) as u32).1,
            (d + 1) as u32,
        ),
{
    let n = sinks.len();
    let d1 = (d + 1) as u32;
    let dn: nat = d as nat;
    let k: nat = d1 as nat;
    assert((k - 1) as nat == dn);
    let (nd, nf) = round(dist, frontier, connected, d1);
    assert forall|i: int| 0 <= i < n && #[trigger] nd[i] != UNREACHED implies nd[i] <= d1 && within(
        sinks,
        connected,
        i,
        nd[i] as nat,
    ) && (nd[i] == 0 || !within(sinks, connected, i, (nd[i] - 1) as nat)) by {
        if joins(dist, frontier, connected, i) {
            let f = choose|f: int| 0 <= f < frontier.len() && #[trigger] frontier[f] && connected[i][f];
            assert(dist[f] == d);
            assert(within(sinks, connected, f, dn));
            lemma_within_unfold(sinks, connected, i, k);
            assert(within(sinks, connected, i, k));
            assert(nd[i] == d1);
        }
    }
    assert forall|i: int| 0 <= i < n && #[trigger] nd[i] == UNREACHED implies !within(sinks, connected, i, d1 as nat) by {
        assert(!joins(dist, frontier, connected, i));
        assert(dist[i] == UNREACHED);
        lemma_within_unfold(sinks, connected, i, k);
        if within(sinks, connected, i, k) {
            if !within(sinks, connected, i, dn) {
                let j = choose|j: int| 0 <= j < sinks.len() && connected[i][j] && #[trigger] within(sinks, connected, j, dn);
                if dist[j] == UNREACHED {
                } else if dist[j] == d {
                    assert(frontier[j]);
                    assert(joins(dist, frontier, connected, i));
                } else {
                    assert(dist[j] < d);
                    let dm: nat = (dn - 1) as nat;
                    lemma_within_mono(sinks, connected, j, dist[j] as nat, dm);
                    lemma_within_unfold(sinks, connected, i, dn);
                    assert(within(sinks, connected, i, dn));
                }
            }
        }
    }
    assert forall|i: int| 0 <= i < n implies (#[trigger] nf[i] <==> (nd[i] != UNREACHED && nd[i] == d1)) by {}
    if nonempty(nf) {
        lemma_round_progress(dist, frontier, connected, d1);
        lemma_unassigned_le(nd, n as int);
    }
}

/// The search from a state satisfying the invariant ends with nearest-sink distances.
proof fn lemma_search_nearest(sinks: Seq<bool>, connected: Seq<Seq<bool>>, dist: Seq<u32>, frontier: Seq<bool>, d: u32)
    requires
        bfs_inv(sinks, connected, dist, frontier, d),
        sinks.len() < UNREACHED,
    ensures
        nearest_ok(sinks, connected, search(dist, frontier, connected, d)),
    decreases unassigned_count(dist, dist.len() as int), (if nonempty(frontier) { 1int } else { 0int }),
{
    if !nonempty(frontier) {
        assert forall|i: int| 0 <= i < sinks.len() && #[trigger] dist[i] == UNREACHED implies forall|k: nat|
            !#[trigger] within(sinks, connected, i, k) by {
            assert forall|k: nat| !#[trigger] within(sinks, connected, i, k) by {
                lemma_unreached_never(sinks, connected, dist, frontier, d, i, k);
            }
        }
    } else {
        lemma_unassigned_le(dist, dist.len() as int);
        assert(d < UNREACHED - 1);
        let (nd, nf) = round(dist, frontier, connected, (d + 1) as u32);
        lemma_round_inv(sinks, connected, dist, frontier, d);
        lemma_round_progress(dist, frontier, connected, (d + 1) as u32);
        lemma_search_nearest(sinks, connected, nd, nf, (d + 1) as u32);
    }
}

/// **The funnel measures the fewest lanes to a sink.** A struct's sink distance is the least
/// number of lanes over which it reaches a sink: it reaches one in that many lanes and in no
/// fewer; and a struct has no distance exactly when it reaches no sink over any number of
/// lanes. With [`law_funnel_flows_downhill`], every order moves storage one lane closer to the
/// nearest sink.
pub proof fn law_funnel_distance_is_nearest_sink(sinks: Seq<bool>, connected: Seq<Seq<bool>>)
    requires
        sinks.len() < UNREACHED,
    ensures
        nearest_ok(sinks, connected, sink_dist(sinks, connected)),
{
    let n = sinks.len();
    let dist0 = Seq::new(n, |i: int| if sinks[i] { 0u32 } else { UNREACHED });
    assert forall|i: int| 0 <= i < n implies (#[trigger] sinks[i] <==> (dist0[i] != UNREACHED && dist0[i] == 0)) by {}
    if nonempty(sinks) {
        let f = choose|f: int| 0 <= f < sinks.len() && #[trigger] sinks[f];
        lemma_unassigned_lt(dist0, n as int, f);
    }
    assert forall|i: int| 0 <= i < n && #[trigger] dist0[i] == UNREACHED implies !within(sinks, connected, i, 0nat) by {}
    assert forall|i: int| 0 <= i < n && #[trigger] dist0[i] != UNREACHED implies within(sinks, connected, i, 0nat) by {}
    assert(bfs_inv(sinks, connected, dist0, sinks, 0));
    lemma_search_nearest(sinks, connected, dist0, sinks, 0);
}

} // verus!
