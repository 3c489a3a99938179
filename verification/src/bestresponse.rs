//! The best-response agents: what an agent values, what it believes of its enemy, which class
//! of target it will ever pursue, and the small legible set of candidate force allocations it
//! weighs (hold, concentrate on one target, or spread to the nearest neutrals).

use vstd::prelude::*;

verus! {

/// What an agent values — a partition of the production value-to-go.
#[derive(Debug, Clone, Copy, PartialEq, Eq, Structural)]
pub enum Objective {
    /// Maximise own future production (Colonize).
    MaxOwn,
    /// Minimise enemy future production (Attack).
    MinEnemy,
    /// Maximise own minus enemy future production (Defend).
    Delta,
    /// Maximise own production with hurting the enemy weighted above growing (Attack).
    DenyLeaning,
}

/// The enemy belief used when scoring a plan.
#[derive(Debug, Clone, Copy, PartialEq, Eq, Structural)]
pub enum EnemyModel {
    /// The enemy does not react to this tick's orders.
    Optimistic,
    /// A competent adversary answers with its own best response first.
    Pessimistic,
}

/// Which class of target an identity will ever send force at.
#[derive(Debug, Clone, Copy, PartialEq, Eq, Structural)]
pub enum Lens {
    /// Grab neutral ground (and thicken own); never initiates on the enemy.
    Expand,
    /// Drive force at enemy ground; never spreads to colonise its own flank.
    Assault,
    /// Hold own ground and take only safe neutral expansion; never presses the enemy.
    Fortify,
}

/// Whether `lens` admits a planet that is the seat's own, neutral and foe-free, or enemy ground.
pub fn is_target(lens: Lens, own: bool, neutral: bool, enemy: bool) -> (r: bool)
    ensures
        r == match lens {
            Lens::Expand => neutral || own,
            Lens::Assault => enemy || own,
            Lens::Fortify => own || neutral || enemy,
        },
{
    match lens {
        Lens::Expand => neutral || own,
        Lens::Assault => enemy || own,
        Lens::Fortify => own || neutral || enemy,
    }
}

/// The planets as candidate generation sees them.
pub struct AllocBoard {
    /// The seat holds each planet securely (owned, fully owned, uncontested).
    pub secure: Vec<bool>,
    /// Each planet's exportable surplus above the keep floor.
    pub surplus: Vec<u32>,
    /// Each planet is in the identity's lens.
    pub lens_target: Vec<bool>,
    /// Each planet is neutral ground.
    pub neutral: Vec<bool>,
    /// `next_hop[s][t]`: the first lane hop from `s` toward `t`, if `t` is reachable.
    pub next_hop: Vec<Vec<Option<usize>>>,
    /// `path_rank[s][t]`: the rank of the shortest path length from `s` to `t`, if reachable.
    pub path_rank: Vec<Vec<Option<u64>>>,
}

/// The ids below `k` that `mask` selects, ascending.
pub open spec fn ids_upto(mask: Seq<bool>, k: int) -> Seq<usize>
    decreases k,
{
    if k <= 0 {
        Seq::empty()
    } else if mask[k - 1] {
        ids_upto(mask, k - 1).push((k - 1) as usize)
    } else {
        ids_upto(mask, k - 1)
    }
}

/// Every selected id lies below `k`.
proof fn lemma_ids_upto_below(mask: Seq<bool>, k: int)
    ensures
        forall|i: int| 0 <= i < ids_upto(mask, k).len() ==> #[trigger] ids_upto(mask, k)[i] < k,
    decreases k,
{
    if k > 0 {
        lemma_ids_upto_below(mask, k - 1);
        let prev = ids_upto(mask, k - 1);
        assert forall|i: int| 0 <= i < ids_upto(mask, k).len() implies #[trigger] ids_upto(mask, k)[i] < k by {
            if i < prev.len() {
                assert(ids_upto(mask, k)[i] == prev[i]);
            }
        }
    }
}

impl AllocBoard {
    /// Number of planets.
    pub open spec fn n(&self) -> int {
        self.secure@.len() as int
    }

    /// Every table has one entry per planet and the pairwise tables are square.
    pub open spec fn wf(&self) -> bool {
        &&& self.surplus@.len() == self.n()
        &&& self.lens_target@.len() == self.n()
        &&& self.neutral@.len() == self.n()
        &&& self.next_hop@.len() == self.n()
        &&& self.path_rank@.len() == self.n()
        &&& forall|a: int| 0 <= a < self.n() ==> (#[trigger] self.next_hop@[a])@.len() == self.n()
        &&& forall|a: int| 0 <= a < self.n() ==> (#[trigger] self.path_rank@[a])@.len() == self.n()
    }

    /// The sources: securely held planets with surplus to export, ascending.
    pub open spec fn sources(&self) -> Seq<usize> {
        ids_upto(Seq::new(self.n() as nat, |p: int| self.secure@[p] && self.surplus@[p] > 0), self.n())
    }

    /// Some source other than `t` has a hop toward `t`.
    pub open spec fn fed(&self, t: int) -> bool {
        exists|j: int|
            0 <= j < self.sources().len() && #[trigger] self.sources()[j] != t && self.next_hop@[self.sources()[j] as int]@[t] is Some
    }

    /// The targets: lens planets some source reaches, ascending.
    pub open spec fn targets(&self) -> Seq<usize> {
        ids_upto(Seq::new(self.n() as nat, |t: int| self.lens_target@[t] && self.fed(t)), self.n())
    }

    /// Concentrate on `t`: the first `k` sources each ship everything to their hop toward `t`.
    pub open spec fn concentrate(&self, t: int, k: int) -> Seq<(usize, usize)>
        decreases k,
    {
        if k <= 0 {
            Seq::empty()
        } else {
            let prev = self.concentrate(t, k - 1);
            let s = self.sources()[k - 1];
            match self.next_hop@[s as int]@[t] {
                Some(h) => prev.push((s, h)),
                None => prev,
            }
        }
    }

    /// The concentrate options of the first `k` targets (an empty one is dropped).
    pub open spec fn concentrate_options(&self, k: int) -> Seq<Seq<(usize, usize)>>
        decreases k,
    {
        if k <= 0 {
            Seq::empty()
        } else {
            let prev = self.concentrate_options(k - 1);
            let c = self.concentrate(self.targets()[k - 1] as int, self.sources().len() as int);
            if c.len() > 0 {
                prev.push(c)
            } else {
                prev
            }
        }
    }

    /// The nearest untaken neutral target of `s` among the first `j` targets, with its rank
    /// (the first of the nearest on ties).
    pub open spec fn nearest_free(&self, s: int, taken: Seq<bool>, j: int) -> Option<(usize, u64)>
        decreases j,
    {
        if j <= 0 {
            None
        } else {
            let prev = self.nearest_free(s, taken, j - 1);
            let t = self.targets()[j - 1];
            if !taken[t as int] && self.neutral@[t as int] {
                match self.path_rank@[s]@[t as int] {
                    Some(d) => match prev {
                        Some(b) => if d < b.1 {
                            Some((t, d))
                        } else {
                            prev
                        },
                        None => Some((t, d)),
                    },
                    None => prev,
                }
            } else {
                prev
            }
        }
    }

    /// The spread after the first `k` sources: `(orders, taken targets)`.
    pub open spec fn spread(&self, k: int) -> (Seq<(usize, usize)>, Seq<bool>)
        decreases k,
    {
        if k <= 0 {
            (Seq::empty(), Seq::new(self.n() as nat, |t: int| false))
        } else {
            let (o, taken) = self.spread(k - 1);
            let s = self.sources()[k - 1];
            match self.nearest_free(s as int, taken, self.targets().len() as int) {
                Some(b) => {
                    let t = b.0;
                    match self.next_hop@[s as int]@[t as int] {
                        Some(h) => (o.push((s, h)), taken.update(t as int, true)),
                        None => (o, taken.update(t as int, true)),
                    }
                },
                None => (o, taken),
            }
        }
    }
}

/// The candidate allocations, as `(source, hop)` orders that each ship everything: hold
/// (nothing), then one concentrate option per target, then the spread — unless there is no
/// source, when holding is the only candidate; an empty option is dropped.
pub open spec fn candidates_spec(b: &AllocBoard) -> Seq<Seq<(usize, usize)>> {
    let hold = seq![Seq::<(usize, usize)>::empty()];
    if b.sources().len() == 0 {
        hold
    } else {
        let conc = hold + b.concentrate_options(b.targets().len() as int);
        let sp = b.spread(b.sources().len() as int).0;
        if sp.len() > 0 {
            conc.push(sp)
        } else {
            conc
        }
    }
}

/// The candidate force allocations to weigh.
pub fn candidate_allocations(b: &AllocBoard) -> (r: Vec<Vec<(usize, usize)>>)
    requires
        b.wf(),
    ensures
        r@.len() == candidates_spec(b).len(),
        forall|i: int| 0 <= i < r@.len() ==> (#[trigger] r@[i])@ == candidates_spec(b)[i],
{
    let n = b.secure.len();
    let ghost smask = Seq::new(b.n() as nat, |p: int| b.secure@[p] && b.surplus@[p] > 0);
    // The sources.
    let mut srcs: Vec<usize> = Vec::new();
    let mut p: usize = 0;
    while p < n
        invariant
            b.wf(),
            n == b.n(),
            0 <= p <= n,
            smask == Seq::new(b.n() as nat, |q: int| b.secure@[q] && b.surplus@[q] > 0),
            srcs@ == ids_upto(smask, p as int),
        decreases n - p,
    {
        if b.secure[p] && b.surplus[p] > 0 {
            srcs.push(p);
        }
        p = p + 1;
    }
    proof {
        lemma_ids_upto_below(smask, b.n());
    }
    let mut cands: Vec<Vec<(usize, usize)>> = Vec::new();
    cands.push(Vec::new());
    if srcs.len() == 0 {
        proof {
            assert(cands@[0]@ =~= Seq::<(usize, usize)>::empty());
        }
        return cands;
    }
    // The targets.
    let ghost tmask = Seq::new(b.n() as nat, |t: int| b.lens_target@[t] && b.fed(t));
    let mut tgs: Vec<usize> = Vec::new();
    let mut t: usize = 0;
    while t < n
        invariant
            b.wf(),
            n == b.n(),
            0 <= t <= n,
            srcs@ == b.sources(),
            forall|i: int| 0 <= i < srcs@.len() ==> #[trigger] srcs@[i] < n,
            tmask == Seq::new(b.n() as nat, |x: int| b.lens_target@[x] && b.fed(x)),
            tgs@ == ids_upto(tmask, t as int),
        decreases n - t,
    {
        if b.lens_target[t] {
            let mut any = false;
            let mut j: usize = 0;
            while j < srcs.len()
                invariant
                    b.wf(),
                    n == b.n(),
                    t < n,
                    srcs@ == b.sources(),
                    forall|i: int| 0 <= i < srcs@.len() ==> #[trigger] srcs@[i] < n,
                    0 <= j <= srcs@.len(),
                    any == exists|i: int|
                        0 <= i < j && #[trigger] srcs@[i] != t && b.next_hop@[srcs@[i] as int]@[t as int] is Some,
                decreases srcs@.len() - j,
            {
                let s = srcs[j];
                if s != t && b.next_hop[s][t].is_some() {
                    any = true;
                }
                j = j + 1;
            }
            if any {
                tgs.push(t);
            }
        }
        t = t + 1;
    }
    proof {
        lemma_ids_upto_below(tmask, b.n());
    }
    let ghost ns = srcs@.len() as int;
    // Concentrate on each target.
    let mut k: usize = 0;
    while k < tgs.len()
        invariant
            b.wf(),
            n == b.n(),
            srcs@ == b.sources(),
            srcs@.len() > 0,
            forall|i: int| 0 <= i < srcs@.len() ==> #[trigger] srcs@[i] < n,
            tgs@ == b.targets(),
            forall|i: int| 0 <= i < tgs@.len() ==> #[trigger] tgs@[i] < n,
            0 <= k <= tgs@.len(),
            cands@.len() == 1 + b.concentrate_options(k as int).len(),
            cands@[0]@ == Seq::<(usize, usize)>::empty(),
            forall|i: int| 0 < i < cands@.len() ==> (#[trigger] cands@[i])@ == b.concentrate_options(k as int)[i - 1],
        decreases tgs@.len() - k,
    {
        let tt = tgs[k];
        let mut orders: Vec<(usize, usize)> = Vec::new();
        let mut j: usize = 0;
        while j < srcs.len()
            invariant
                b.wf(),
                n == b.n(),
                srcs@ == b.sources(),
                forall|i: int| 0 <= i < srcs@.len() ==> #[trigger] srcs@[i] < n,
                tt < n,
                0 <= j <= srcs@.len(),
                orders@ == b.concentrate(tt as int, j as int),
            decreases srcs@.len() - j,
        {
            let s = srcs[j];
            match b.next_hop[s][tt] {
                Some(h) => orders.push((s, h)),
                None => {},
            }
            j = j + 1;
        }
        let ghost before = cands@;
        if orders.len() > 0 {
            cands.push(orders);
        }
        proof {
            assert forall|i: int| 0 < i < cands@.len() implies (#[trigger] cands@[i])@ == b.concentrate_options(
                k + 1,
            )[i - 1] by {
                if i < before.len() {
                    assert(cands@[i] == before[i]);
                }
            }
        }
        k = k + 1;
    }
    // Spread over the nearest free neutrals.
    let mut spread: Vec<(usize, usize)> = Vec::new();
    let mut taken: Vec<bool> = Vec::new();
    let mut q: usize = 0;
    while q < n
        invariant
            0 <= q <= n,
            taken@ == Seq::new(q as nat, |x: int| false),
        decreases n - q,
    {
        taken.push(false);
        q = q + 1;
    }
    proof {
        assert(taken@ =~= b.spread(0).1);
    }
    let mut k: usize = 0;
    while k < srcs.len()
        invariant
            b.wf(),
            n == b.n(),
            srcs@ == b.sources(),
            forall|i: int| 0 <= i < srcs@.len() ==> #[trigger] srcs@[i] < n,
            tgs@ == b.targets(),
            forall|i: int| 0 <= i < tgs@.len() ==> #[trigger] tgs@[i] < n,
            0 <= k <= srcs@.len(),
            (spread@, taken@) == b.spread(k as int),
            taken@.len() == n,
        decreases srcs@.len() - k,
    {
        let s = srcs[k];
        let mut best: Option<(usize, u64)> = None;
        let mut j: usize = 0;
        while j < tgs.len()
            invariant
                b.wf(),
                n == b.n(),
                tgs@ == b.targets(),
                forall|i: int| 0 <= i < tgs@.len() ==> #[trigger] tgs@[i] < n,
                s < n,
                taken@.len() == n,
                0 <= j <= tgs@.len(),
                best == b.nearest_free(s as int, taken@, j as int),
                best matches Some(x) ==> x.0 < n,
            decreases tgs@.len() - j,
        {
            let tt = tgs[j];
            if !taken[tt] && b.neutral[tt] {
                match b.path_rank[s][tt] {
                    Some(d) => {
                        let better = match best {
                            Some(x) => d < x.1,
                            None => true,
                        };
                        if better {
                            best = Some((tt, d));
                        }
                    },
                    None => {},
                }
            }
            j = j + 1;
        }
        match best {
            Some(x) => {
                let tt = x.0;
                taken.set(tt, true);
                match b.next_hop[s][tt] {
                    Some(h) => spread.push((s, h)),
                    None => {},
                }
            },
            None => {},
        }
        k = k + 1;
    }
    if spread.len() > 0 {
        cands.push(spread);
    }
    proof {
        let spec = candidates_spec(b);
        assert forall|i: int| 0 <= i < cands@.len() implies (#[trigger] cands@[i])@ == spec[i] by {}
    }
    cands
}

} // verus!
