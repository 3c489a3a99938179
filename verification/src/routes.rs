//! Teleporter routing inside a struct: a move may walk to an owned teleporter and hop out
//! from there, when that beats walking straight to the destination.

use vstd::prelude::*;

verus! {

/// Ticks of the route `from → g → to` (walk in, then hop out), if both legs exist.
pub open spec fn via_total(transit: Seq<Seq<Option<u64>>>, g: int, from: int, to: int) -> Option<u64> {
    match (transit[from][g], transit[g][to]) {
        (Some(t1), Some(t2)) => Some(t1.saturating_add(t2)),
        _ => None,
    }
}

/// The best teleporter route among the first `k` subs: an owned teleporter other than the
/// endpoints whose route beats `direct`, the fastest such (lowest id on ties).
pub open spec fn via_upto(
    transit: Seq<Seq<Option<u64>>>,
    gates: Seq<bool>,
    from: int,
    to: int,
    direct: u64,
    k: int,
) -> Option<(usize, u64)>
    decreases k,
{
    if k <= 0 {
        None
    } else {
        let best = via_upto(transit, gates, from, to, direct, k - 1);
        let g = k - 1;
        if g == from || g == to || !gates[g] {
            best
        } else {
            match via_total(transit, g, from, to) {
                None => best,
                Some(total) => if total < direct && (match best {
                    None => true,
                    Some((_, bt)) => total < bt,
                }) {
                    Some((g as usize, total))
                } else {
                    best
                },
            }
        }
    }
}

/// The teleporter route from `from` to `to` that beats walking straight there, if any.
pub open spec fn via_gate_spec(transit: Seq<Seq<Option<u64>>>, gates: Seq<bool>, from: int, to: int) -> Option<(usize, u64)> {
    match transit[from][to] {
        None => None,
        Some(direct) => via_upto(transit, gates, from, to, direct, gates.len() as int),
    }
}

/// The route names an owned teleporter other than the endpoints, beats the direct transit,
/// and no owned teleporter gives a faster route.
proof fn lemma_via_upto(transit: Seq<Seq<Option<u64>>>, gates: Seq<bool>, from: int, to: int, direct: u64, k: int)
    requires
        0 <= k <= gates.len(),
        gates.len() <= usize::MAX,
    ensures
        via_upto(transit, gates, from, to, direct, k) matches Some((g, total)) ==> {
            &&& g < k
            &&& g != from && g != to
            &&& gates[g as int]
            &&& via_total(transit, g as int, from, to) == Some(total)
            &&& total < direct
        },
        forall|h: int|
            0 <= h < k && h != from && h != to && #[trigger] gates[h] ==> match via_total(transit, h, from, to) {
                None => true,
                Some(th) => th >= direct || (via_upto(transit, gates, from, to, direct, k) matches Some((_, bt))
                    && bt <= th),
            },
    decreases k,
{
    if k > 0 {
        lemma_via_upto(transit, gates, from, to, direct, k - 1);
    }
}

/// **The teleporter route** from `from` to `to`: among the owned teleporters (`gates`) other
/// than the endpoints, the one whose walk-in plus hop-out ticks are fewest (lowest id on ties),
/// provided that total beats the direct transit; `None` when walking straight is as fast, or
/// `to` is unreachable. The result is the fastest route: no owned teleporter gives one faster.
pub fn via_gate(transit: &Vec<Vec<Option<u64>>>, gates: &Vec<bool>, from: usize, to: usize) -> (r: Option<(usize, u64)>)
    requires
        transit@.len() == gates@.len(),
        forall|a: int| 0 <= a < gates@.len() ==> (#[trigger] transit@[a])@.len() == gates@.len(),
        from < gates@.len(),
        to < gates@.len(),
    ensures
        r == via_gate_spec(transit@.map_values(|row: Vec<Option<u64>>| row@), gates@, from as int, to as int),
        r matches Some((g, total)) ==> {
            &&& g < gates@.len()
            &&& g != from && g != to
            &&& gates@[g as int]
            &&& total < transit@[from as int]@[to as int]->0
        },
        forall|h: int|
            0 <= h < gates@.len() && h != from && h != to && #[trigger] gates@[h] && transit@[from as int]@[to as int]
                is Some ==> match via_total(transit@.map_values(|row: Vec<Option<u64>>| row@), h, from as int, to as int) {
                None => true,
                Some(th) => th >= transit@[from as int]@[to as int]->0 || (r matches Some((_, bt)) && bt <= th),
            },
{
    let ghost tv = transit@.map_values(|row: Vec<Option<u64>>| row@);
    let n = gates.len();
    let direct = match transit[from][to] {
        None => return None,
        Some(d) => d,
    };
    proof {
        assert(tv[from as int][to as int] == Some(direct));
    }
    let mut best: Option<(usize, u64)> = None;
    let mut g: usize = 0;
    while g < n
        invariant
            n == gates@.len(),
            transit@.len() == n,
            forall|a: int| 0 <= a < n ==> (#[trigger] transit@[a])@.len() == n,
            tv == transit@.map_values(|row: Vec<Option<u64>>| row@),
            from < n,
            to < n,
            0 <= g <= n,
            best == via_upto(tv, gates@, from as int, to as int, direct, g as int),
        decreases n - g,
    {
        if g != from && g != to && gates[g] {
            let t1 = transit[from][g];
            let t2 = transit[g][to];
            proof {
                assert(tv[from as int][g as int] == t1);
                assert(tv[g as int][to as int] == t2);
            }
            match (t1, t2) {
                (Some(a), Some(b)) => {
                    let total = a.saturating_add(b);
                    let better = match best {
                        None => true,
                        Some((_, bt)) => total < bt,
                    };
                    if total < direct && better {
                        best = Some((g, total));
                    }
                },
                _ => {},
            }
        }
        g = g + 1;
    }
    proof {
        lemma_via_upto(tv, gates@, from as int, to as int, direct, n as int);
    }
    best
}

} // verus!
