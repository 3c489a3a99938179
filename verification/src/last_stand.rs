//! The Simple seat's **last stand**: with no producing sub left anywhere, every idle stack of
//! the seat attacks overwhelmable targets instead of camping behind its floors.
//!
//! In a struct holding foes:
//!
//! 1. **Distinct first**: stacks (largest first) each take the nearest still-unclaimed target
//!    they can overwhelm alone.
//! 2. **Merge if needed**: stacks that can solo nothing pool up and jointly hit the biggest
//!    target the pool overwhelms (preferring an unclaimed one); if even the pool overwhelms
//!    nothing but solo attacks are under way, the pool reinforces the easiest claimed kill.
//! 3. **All-in if hopeless**: when no target is overwhelmable at all, everything charges one
//!    target picked by a pure hash of tick, seat and pool.
//!
//! Targets are foe-owned subs, or foe-staged subs when no foe ground remains; stacks already on
//! foe ground or sharing their sub with foes are in contact and left to their work.

use vstd::prelude::*;
use crate::faction::Faction;
use crate::cycler::seat_byte;
use crate::order::{
    first_id, lemma_next_id_some, lemma_sorted_ids_elems, lemma_sorted_ids_len, next_id_exec, sort_ids,
    sorted_ids,
};

verus! {

/// One struct as the last stand sees it.
pub struct StandBoard {
    /// The seat's idle ships homed at each sub.
    pub idle: Vec<usize>,
    /// Hostile ships present at, or inbound to, each sub.
    pub foe_at: Vec<usize>,
    /// Each sub is owned by a hostile faction.
    pub foe_owned: Vec<bool>,
    /// `dist[a][b]`: distance rank between subs `a` and `b`.
    pub dist: Vec<Vec<u64>>,
    /// The least force that overwhelms each sub's hostiles.
    pub bar: Vec<usize>,
}

impl StandBoard {
    /// Number of subs.
    pub open spec fn n(&self) -> int {
        self.idle@.len() as int
    }

    /// Every table has one entry per sub and the distance table is square.
    pub open spec fn wf(&self) -> bool {
        &&& self.n() <= usize::MAX
        &&& self.foe_at@.len() == self.n()
        &&& self.foe_owned@.len() == self.n()
        &&& self.bar@.len() == self.n()
        &&& self.dist@.len() == self.n()
        &&& forall|a: int| 0 <= a < self.n() ==> (#[trigger] self.dist@[a])@.len() == self.n()
    }

    /// Some sub is foe ground.
    pub open spec fn any_foe_ground(&self) -> bool {
        exists|t: int| 0 <= t < self.n() && #[trigger] self.foe_owned@[t]
    }

    /// `t` is a target: foe ground, or — with none left — a sub with foes at it.
    pub open spec fn target(&self, t: int) -> bool {
        if self.any_foe_ground() {
            self.foe_owned@[t]
        } else {
            self.foe_at@[t] > 0
        }
    }

    /// The targets.
    pub open spec fn target_mask(&self) -> Seq<bool> {
        Seq::new(self.n() as nat, |t: int| self.target(t))
    }

    /// The targets in id order.
    pub open spec fn targets(&self) -> Seq<usize> {
        sorted_ids(self.target_mask(), Seq::new(self.n() as nat, |t: int| (0u64, 0u64)))
    }

    /// `s` holds an idle stack out of contact.
    pub open spec fn stack(&self, s: int) -> bool {
        self.idle@[s] > 0 && !self.foe_owned@[s] && self.foe_at@[s] == 0
    }

    /// The stacks, largest first (lowest id on ties).
    pub open spec fn stacks(&self) -> Seq<usize> {
        sorted_ids(
            Seq::new(self.n() as nat, |s: int| self.stack(s)),
            Seq::new(self.n() as nat, |s: int| ((u64::MAX - self.idle@[s]) as u64, 0u64)),
        )
    }

    /// The unclaimed targets stack `s` overwhelms alone.
    pub open spec fn solo_mask(&self, taken: Seq<bool>, s: int) -> Seq<bool> {
        Seq::new(
            self.n() as nat,
            |t: int| self.target(t) && !taken[t] && t != s && self.idle@[s] >= self.bar@[t],
        )
    }

    /// Keys ranking targets by distance to `s`.
    pub open spec fn dist_keys(&self, s: int) -> Seq<(u64, u64)> {
        Seq::new(self.n() as nat, |t: int| (self.dist@[t]@[s], 0u64))
    }

    /// The solo phase after the first `k` stacks: `(orders, claimed targets, leftovers)`.
    pub open spec fn solo(&self, k: int) -> (Seq<(usize, usize)>, Seq<bool>, Seq<usize>)
        decreases k,
    {
        if k <= 0 {
            (Seq::empty(), Seq::new(self.n() as nat, |t: int| false), Seq::empty())
        } else {
            let (o, taken, left) = self.solo(k - 1);
            let s = self.stacks()[k - 1];
            match first_id(self.solo_mask(taken, s as int), self.dist_keys(s as int)) {
                Some(t) => (o.push((s, t)), taken.update(t as int, true), left),
                None => (o, taken, left.push(s)),
            }
        }
    }

    /// The idle ships of the leftover stacks.
    pub open spec fn pool(&self, left: Seq<usize>) -> int
        decreases left.len(),
    {
        if left.len() == 0 {
            0
        } else {
            self.pool(left.drop_last()) + self.idle@[left.last() as int]
        }
    }

    /// `t` is a target, claimed or not as asked, that the pool overwhelms.
    pub open spec fn joint_sel(&self, taken: Seq<bool>, claimed: bool, pool: int, t: int) -> bool {
        self.target(t) && taken[t] == claimed && pool >= self.bar@[t]
    }

    /// The biggest target (claimed or not, as asked) the pool overwhelms, lowest id on ties.
    pub open spec fn joint(&self, taken: Seq<bool>, claimed: bool, pool: int) -> Option<usize> {
        first_id(
            Seq::new(self.n() as nat, |t: int| self.joint_sel(taken, claimed, pool, t)),
            Seq::new(self.n() as nat, |t: int| ((u64::MAX - self.foe_at@[t]) as u64, 0u64)),
        )
    }

    /// The easiest claimed kill: fewest foes, lowest id on ties.
    pub open spec fn easiest(&self, taken: Seq<bool>) -> Option<usize> {
        first_id(
            Seq::new(self.n() as nat, |t: int| taken[t]),
            Seq::new(self.n() as nat, |t: int| (self.foe_at@[t] as u64, 0u64)),
        )
    }
}

/// The all-in target hash of `(tick, seat, pool)`.
pub open spec fn stand_hash(tick: u64, seat: Faction, pool: u64) -> u64 {
    let x0: u64 = tick ^ (seat_byte(seat) << 56u64) ^ (pool << 24u64);
    let x1: u64 = x0 ^ (x0 >> 33u64);
    let x2: u64 = x1.wrapping_mul(0xff51_afd7_ed55_8ccdu64);
    x2 ^ (x2 >> 33u64)
}

/// Send every leftover stack except the target's own onto `t`.
pub open spec fn send_all(left: Seq<usize>, t: usize) -> Seq<(usize, usize)>
    decreases left.len(),
{
    if left.len() == 0 {
        Seq::empty()
    } else {
        let prev = send_all(left.drop_last(), t);
        if left.last() != t {
            prev.push((left.last(), t))
        } else {
            prev
        }
    }
}

/// The last stand in one struct: `(source, target)` orders moving every idle ship of the
/// source.
pub open spec fn last_stand_spec(b: &StandBoard, tick: u64, seat: Faction) -> Seq<(usize, usize)> {
    let targets = b.targets();
    let stacks = b.stacks();
    if targets.len() == 0 || stacks.len() == 0 {
        Seq::empty()
    } else {
        let (o, taken, left) = b.solo(stacks.len() as int);
        if left.len() == 0 {
            o
        } else {
            let pool = b.pool(left);
            match b.joint(taken, false, pool) {
                Some(t) => o + send_all(left, t),
                None => match b.joint(taken, true, pool) {
                    Some(t) => o + send_all(left, t),
                    None => match b.easiest(taken) {
                        Some(t) => o + send_all(left, t),
                        None => {
                            let x = stand_hash(tick, seat, pool as u64);
                            o + send_all(left, targets[((x as usize) % (targets.len() as usize)) as int])
                        },
                    },
                },
            }
        }
    }
}

// =====================================================================================
// Implementation.
// =====================================================================================

/// Whether some sub is foe ground.
fn any_foe_ground_exec(b: &StandBoard) -> (r: bool)
    requires
        b.wf(),
    ensures
        r == b.any_foe_ground(),
{
    let n = b.idle.len();
    let mut t: usize = 0;
    while t < n
        invariant
            b.wf(),
            n == b.n(),
            0 <= t <= n,
            forall|i: int| 0 <= i < t ==> !#[trigger] b.foe_owned@[i],
        decreases n - t,
    {
        if b.foe_owned[t] {
            return true;
        }
        t = t + 1;
    }
    false
}

/// The targets, as a selection.
fn target_mask_exec(b: &StandBoard) -> (r: Vec<bool>)
    requires
        b.wf(),
    ensures
        r@ == b.target_mask(),
{
    let n = b.idle.len();
    let any = any_foe_ground_exec(b);
    let mut m: Vec<bool> = Vec::new();
    let mut t: usize = 0;
    while t < n
        invariant
            b.wf(),
            n == b.n(),
            any == b.any_foe_ground(),
            0 <= t <= n,
            m@.len() == t,
            forall|i: int| 0 <= i < t ==> m@[i] == b.target(i),
        decreases n - t,
    {
        m.push(if any {
            b.foe_owned[t]
        } else {
            b.foe_at[t] > 0
        });
        t = t + 1;
    }
    assert(m@ =~= b.target_mask());
    m
}

/// Keys that are all equal (ids rank in id order).
fn zero_keys(n: usize) -> (r: Vec<(u64, u64)>)
    ensures
        r@ == Seq::new(n as nat, |t: int| (0u64, 0u64)),
{
    let mut r: Vec<(u64, u64)> = Vec::new();
    let mut t: usize = 0;
    while t < n
        invariant
            0 <= t <= n,
            r@.len() == t,
            forall|i: int| 0 <= i < t ==> r@[i] == (0u64, 0u64),
        decreases n - t,
    {
        r.push((0u64, 0u64));
        t = t + 1;
    }
    assert(r@ =~= Seq::new(n as nat, |t: int| (0u64, 0u64)));
    r
}

/// The stacks, largest first.
fn stacks_exec(b: &StandBoard) -> (r: Vec<usize>)
    requires
        b.wf(),
    ensures
        r@ == b.stacks(),
        forall|i: int| 0 <= i < r@.len() ==> #[trigger] r@[i] < b.n(),
{
    let n = b.idle.len();
    let mut m: Vec<bool> = Vec::new();
    let mut k: Vec<(u64, u64)> = Vec::new();
    let mut s: usize = 0;
    while s < n
        invariant
            b.wf(),
            n == b.n(),
            0 <= s <= n,
            m@.len() == s,
            k@.len() == s,
            forall|i: int| 0 <= i < s ==> m@[i] == b.stack(i),
            forall|i: int| 0 <= i < s ==> k@[i] == ((u64::MAX - b.idle@[i]) as u64, 0u64),
        decreases n - s,
    {
        m.push(b.idle[s] > 0 && !b.foe_owned[s] && b.foe_at[s] == 0);
        k.push((u64::MAX - b.idle[s] as u64, 0u64));
        s = s + 1;
    }
    assert(m@ =~= Seq::new(b.n() as nat, |i: int| b.stack(i)));
    assert(k@ =~= Seq::new(b.n() as nat, |i: int| ((u64::MAX - b.idle@[i]) as u64, 0u64)));
    let r = sort_ids(&m, &k);
    proof {
        lemma_sorted_ids_elems(m@, k@);
    }
    r
}

/// One solo pick: the nearest unclaimed target stack `s` overwhelms alone.
fn solo_pick(b: &StandBoard, taken: &Vec<bool>, s: usize) -> (r: Option<usize>)
    requires
        b.wf(),
        s < b.n(),
        taken@.len() == b.n(),
    ensures
        r == first_id(b.solo_mask(taken@, s as int), b.dist_keys(s as int)),
        r matches Some(t) ==> t < b.n(),
{
    let n = b.idle.len();
    let tm = target_mask_exec(b);
    let mut m: Vec<bool> = Vec::new();
    let mut k: Vec<(u64, u64)> = Vec::new();
    let mut t: usize = 0;
    while t < n
        invariant
            b.wf(),
            n == b.n(),
            s < n,
            taken@.len() == n,
            tm@ == b.target_mask(),
            0 <= t <= n,
            m@.len() == t,
            k@.len() == t,
            forall|i: int| 0 <= i < t ==> m@[i] == b.solo_mask(taken@, s as int)[i],
            forall|i: int| 0 <= i < t ==> k@[i] == b.dist_keys(s as int)[i],
        decreases n - t,
    {
        m.push(tm[t] && !taken[t] && t != s && b.idle[s] >= b.bar[t]);
        k.push((b.dist[t][s], 0u64));
        t = t + 1;
    }
    assert(m@ =~= b.solo_mask(taken@, s as int));
    assert(k@ =~= b.dist_keys(s as int));
    next_id_exec(&m, &k, None)
}

/// The biggest target (claimed or not, as asked) the pool overwhelms.
fn joint_exec(b: &StandBoard, taken: &Vec<bool>, claimed: bool, pool: u128) -> (r: Option<usize>)
    requires
        b.wf(),
        taken@.len() == b.n(),
    ensures
        r == b.joint(taken@, claimed, pool as int),
{
    let n = b.idle.len();
    let tm = target_mask_exec(b);
    let mut m: Vec<bool> = Vec::new();
    let mut k: Vec<(u64, u64)> = Vec::new();
    let mut t: usize = 0;
    while t < n
        invariant
            b.wf(),
            n == b.n(),
            taken@.len() == n,
            tm@ == b.target_mask(),
            0 <= t <= n,
            m@.len() == t,
            k@.len() == t,
            forall|i: int| 0 <= i < t ==> m@[i] == b.joint_sel(taken@, claimed, pool as int, i),
            forall|i: int| 0 <= i < t ==> k@[i] == ((u64::MAX - b.foe_at@[i]) as u64, 0u64),
        decreases n - t,
    {
        m.push(tm[t] && taken[t] == claimed && pool >= b.bar[t] as u128);
        k.push((u64::MAX - b.foe_at[t] as u64, 0u64));
        t = t + 1;
    }
    assert(m@ =~= Seq::new(b.n() as nat, |i: int| b.joint_sel(taken@, claimed, pool as int, i)));
    assert(k@ =~= Seq::new(b.n() as nat, |i: int| ((u64::MAX - b.foe_at@[i]) as u64, 0u64)));
    next_id_exec(&m, &k, None)
}

/// The easiest claimed kill.
fn easiest_exec(b: &StandBoard, taken: &Vec<bool>) -> (r: Option<usize>)
    requires
        b.wf(),
        taken@.len() == b.n(),
    ensures
        r == b.easiest(taken@),
{
    let n = b.idle.len();
    let mut k: Vec<(u64, u64)> = Vec::new();
    let mut t: usize = 0;
    while t < n
        invariant
            b.wf(),
            n == b.n(),
            0 <= t <= n,
            k@.len() == t,
            forall|i: int| 0 <= i < t ==> k@[i] == (b.foe_at@[i] as u64, 0u64),
        decreases n - t,
    {
        k.push((b.foe_at[t] as u64, 0u64));
        t = t + 1;
    }
    assert(k@ =~= Seq::new(b.n() as nat, |i: int| (b.foe_at@[i] as u64, 0u64)));
    assert(taken@ =~= Seq::new(b.n() as nat, |i: int| taken@[i]));
    next_id_exec(taken, &k, None)
}

/// Send every leftover stack except the target's own onto `t`.
fn send_all_exec(orders: &mut Vec<(usize, usize)>, left: &Vec<usize>, t: usize)
    ensures
        final(orders)@ == old(orders)@ + send_all(left@, t),
{
    let ghost start = orders@;
    let mut i: usize = 0;
    while i < left.len()
        invariant
            0 <= i <= left@.len(),
            orders@ == start + send_all(left@.take(i as int), t),
        decreases left@.len() - i,
    {
        proof {
            assert(left@.take(i + 1).drop_last() =~= left@.take(i as int));
        }
        let s = left[i];
        if s != t {
            orders.push((s, t));
            proof {
                assert(start + send_all(left@.take(i + 1), t) =~= (start + send_all(left@.take(i as int), t)).push((s, t)));
            }
        }
        i = i + 1;
    }
    assert(left@.take(left@.len() as int) =~= left@);
}

/// **The last stand in one struct** (see the module doc): `(source, target)` orders, each
/// moving every idle ship of its source.
pub fn last_stand(b: &StandBoard, tick: u64, seat: Faction) -> (orders: Vec<(usize, usize)>)
    requires
        b.wf(),
    ensures
        orders@ == last_stand_spec(b, tick, seat),
{
    let n = b.idle.len();
    let tm = target_mask_exec(b);
    let zk = zero_keys(n);
    let targets = sort_ids(&tm, &zk);
    let stacks = stacks_exec(b);
    if targets.len() == 0 || stacks.len() == 0 {
        return Vec::new();
    }
    let mut orders: Vec<(usize, usize)> = Vec::new();
    let mut taken: Vec<bool> = Vec::new();
    let mut t: usize = 0;
    while t < n
        invariant
            0 <= t <= n,
            taken@.len() == t,
            forall|i: int| 0 <= i < t ==> !taken@[i],
        decreases n - t,
    {
        taken.push(false);
        t = t + 1;
    }
    assert(taken@ =~= Seq::new(b.n() as nat, |i: int| false));
    let mut left: Vec<usize> = Vec::new();
    let mut k: usize = 0;
    while k < stacks.len()
        invariant
            b.wf(),
            n == b.n(),
            stacks@ == b.stacks(),
            forall|i: int| 0 <= i < stacks@.len() ==> #[trigger] stacks@[i] < n,
            0 <= k <= stacks@.len(),
            taken@.len() == n,
            forall|j: int| 0 <= j < left@.len() ==> #[trigger] left@[j] < n,
            (orders@, taken@, left@) == b.solo(k as int),
        decreases stacks@.len() - k,
    {
        let s = stacks[k];
        match solo_pick(b, &taken, s) {
            Some(tt) => {
                orders.push((s, tt));
                taken.set(tt, true);
            },
            None => {
                left.push(s);
            },
        }
        k = k + 1;
    }
    if left.len() == 0 {
        return orders;
    }
    let mut pool: u128 = 0;
    let mut i: usize = 0;
    while i < left.len()
        invariant
            b.wf(),
            n == b.n(),
            forall|j: int| 0 <= j < stacks@.len() ==> #[trigger] stacks@[j] < n,
            forall|j: int| 0 <= j < left@.len() ==> #[trigger] left@[j] < n,
            0 <= i <= left@.len(),
            pool == b.pool(left@.take(i as int)),
            pool <= i * 0xffff_ffff_ffff_ffffu128,
        decreases left@.len() - i,
    {
        proof {
            assert(left@.take(i + 1).drop_last() =~= left@.take(i as int));
        }
        pool = pool + b.idle[left[i]] as u128;
        i = i + 1;
    }
    proof {
        assert(left@.take(left@.len() as int) =~= left@);
    }
    let target = match joint_exec(b, &taken, false, pool) {
        Some(x) => x,
        None => match joint_exec(b, &taken, true, pool) {
            Some(x) => x,
            None => match easiest_exec(b, &taken) {
                Some(x) => x,
                None => {
                    let sb: u64 = match seat {
                        Faction::Player => 1u64,
                        Faction::Ai(j) => 2 + j as u64,
                        Faction::Neutral => 0u64,
                    };
                    let p: u64 = pool as u64;
                    let x0: u64 = tick ^ (sb << 56u64) ^ (p << 24u64);
                    let x1: u64 = x0 ^ (x0 >> 33u64);
                    let x2: u64 = x1.wrapping_mul(0xff51_afd7_ed55_8ccdu64);
                    let x = x2 ^ (x2 >> 33u64);
                    targets[(x as usize) % targets.len()]
                },
            },
        },
    };
    send_all_exec(&mut orders, &left, target);
    orders
}

// =====================================================================================
// Laws.
// =====================================================================================

/// Order `(s, t)` sends an out-of-contact stack onto another sub that is a target.
pub open spec fn stand_order_ok(b: &StandBoard, o: (usize, usize)) -> bool {
    &&& o.0 < b.n()
    &&& o.1 < b.n()
    &&& b.stack(o.0 as int)
    &&& b.target(o.1 as int)
    &&& o.0 != o.1
}

/// The solo phase orders stacks that overwhelm their targets alone; claimed subs are targets;
/// leftovers are stacks.
proof fn lemma_solo_ok(b: &StandBoard, k: int)
    requires
        b.wf(),
        0 <= k <= b.stacks().len(),
    ensures
        ({
            let (o, taken, left) = b.solo(k);
            &&& taken.len() == b.n()
            &&& forall|i: int|
                0 <= i < o.len() ==> stand_order_ok(b, #[trigger] o[i]) && b.idle@[o[i].0 as int]
                    >= b.bar@[o[i].1 as int]
            &&& forall|t: int| 0 <= t < b.n() && #[trigger] taken[t] ==> b.target(t)
            &&& forall|i: int| 0 <= i < left.len() ==> (#[trigger] left[i]) < b.n() && b.stack(left[i] as int)
        }),
    decreases k,
{
    let smask = Seq::new(b.n() as nat, |s: int| b.stack(s));
    let skeys = Seq::new(b.n() as nat, |s: int| ((u64::MAX - b.idle@[s]) as u64, 0u64));
    lemma_sorted_ids_elems(smask, skeys);
    if k > 0 {
        lemma_solo_ok(b, k - 1);
        let (o, taken, left) = b.solo(k - 1);
        let s = b.stacks()[k - 1];
        assert(smask[s as int]);
        let mask = b.solo_mask(taken, s as int);
        match first_id(mask, b.dist_keys(s as int)) {
            Some(t) => {
                lemma_next_id_some(mask, b.dist_keys(s as int), None);
                assert(mask[t as int]);
                let o2 = o.push((s, t));
                assert forall|i: int| 0 <= i < o2.len() implies stand_order_ok(b, #[trigger] o2[i])
                    && b.idle@[o2[i].0 as int] >= b.bar@[o2[i].1 as int] by {
                    if i < o.len() {
                        assert(o2[i] == o[i]);
                    }
                }
            },
            None => {
                let l2 = left.push(s);
                assert forall|i: int| 0 <= i < l2.len() implies (#[trigger] l2[i]) < b.n() && b.stack(
                    l2[i] as int,
                ) by {
                    if i < left.len() {
                        assert(l2[i] == left[i]);
                    }
                }
            },
        }
    }
}

/// Sending leftover stacks onto a target orders only stacks onto it, never a stack onto itself.
proof fn lemma_send_all_ok(b: &StandBoard, left: Seq<usize>, t: usize)
    requires
        t < b.n(),
        b.target(t as int),
        forall|i: int| 0 <= i < left.len() ==> (#[trigger] left[i]) < b.n() && b.stack(left[i] as int),
    ensures
        forall|i: int| 0 <= i < send_all(left, t).len() ==> stand_order_ok(b, #[trigger] send_all(left, t)[i]),
    decreases left.len(),
{
    if left.len() > 0 {
        let l = left.drop_last();
        assert forall|i: int| 0 <= i < l.len() implies (#[trigger] l[i]) < b.n() && b.stack(l[i] as int) by {
            assert(l[i] == left[i]);
        }
        lemma_send_all_ok(b, l, t);
        assert(left.last() == left[left.len() - 1]);
        let prev = send_all(l, t);
        if left.last() != t {
            assert(send_all(left, t) == prev.push((left.last(), t)));
        } else {
            assert(send_all(left, t) == prev);
        }
    }
}

proof fn lemma_concat_ok(b: &StandBoard, o: Seq<(usize, usize)>, q: Seq<(usize, usize)>)
    requires
        forall|i: int| 0 <= i < o.len() ==> stand_order_ok(b, #[trigger] o[i]),
        forall|i: int| 0 <= i < q.len() ==> stand_order_ok(b, #[trigger] q[i]),
    ensures
        forall|i: int| 0 <= i < (o + q).len() ==> stand_order_ok(b, #[trigger] (o + q)[i]),
{
    assert forall|i: int| 0 <= i < (o + q).len() implies stand_order_ok(b, #[trigger] (o + q)[i]) by {
        if i < o.len() {
            assert((o + q)[i] == o[i]);
        } else {
            assert((o + q)[i] == q[i - o.len()]);
        }
    }
}

/// **The last stand only throws idle stacks at targets.** Every order of the last stand sends
/// a stack of the seat that is out of contact (idle ships, not on foe ground, no foes at its
/// sub) onto a different sub that is a target — foe ground, or, with none left, a sub with
/// foes at it; and every order of the solo phase (the orders before the pooled ones) sends a
/// stack that overwhelms its target alone.
pub proof fn law_last_stand_strikes_targets_from_stacks(b: &StandBoard, tick: u64, seat: Faction)
    requires
        b.wf(),
    ensures
        forall|i: int|
            0 <= i < last_stand_spec(b, tick, seat).len() ==> stand_order_ok(
                b,
                #[trigger] last_stand_spec(b, tick, seat)[i],
            ),
        forall|i: int|
            0 <= i < b.solo(b.stacks().len() as int).0.len() ==> #[trigger] b.idle@[b.solo(
                b.stacks().len() as int,
            ).0[i].0 as int] >= b.bar@[b.solo(b.stacks().len() as int).0[i].1 as int],
{
    let targets = b.targets();
    let stacks = b.stacks();
    lemma_solo_ok(b, stacks.len() as int);
    let (o, taken, left) = b.solo(stacks.len() as int);
    assert forall|i: int| 0 <= i < o.len() implies #[trigger] b.idle@[o[i].0 as int] >= b.bar@[o[i].1 as int] by {
        assert(stand_order_ok(b, o[i]));
    }
    if targets.len() > 0 && stacks.len() > 0 && left.len() > 0 {
        let pool = b.pool(left);
        let jmask_u = Seq::new(b.n() as nat, |t: int| b.joint_sel(taken, false, pool, t));
        let jmask_c = Seq::new(b.n() as nat, |t: int| b.joint_sel(taken, true, pool, t));
        let jkeys = Seq::new(b.n() as nat, |t: int| ((u64::MAX - b.foe_at@[t]) as u64, 0u64));
        let emask = Seq::new(b.n() as nat, |t: int| taken[t]);
        let ekeys = Seq::new(b.n() as nat, |t: int| (b.foe_at@[t] as u64, 0u64));
        match b.joint(taken, false, pool) {
            Some(t) => {
                lemma_next_id_some(jmask_u, jkeys, None);
                assert(jmask_u[t as int]);
                lemma_send_all_ok(b, left, t);
                lemma_concat_ok(b, o, send_all(left, t));
            },
            None => match b.joint(taken, true, pool) {
                Some(t) => {
                    lemma_next_id_some(jmask_c, jkeys, None);
                    assert(jmask_c[t as int]);
                    lemma_send_all_ok(b, left, t);
                    lemma_concat_ok(b, o, send_all(left, t));
                },
                None => match b.easiest(taken) {
                    Some(t) => {
                        lemma_next_id_some(emask, ekeys, None);
                        assert(emask[t as int]);
                        lemma_send_all_ok(b, left, t);
                        lemma_concat_ok(b, o, send_all(left, t));
                    },
                    None => {
                        let x = stand_hash(tick, seat, pool as u64);
                        let idx = ((x as usize) % (targets.len() as usize)) as int;
                        lemma_sorted_ids_elems(b.target_mask(), Seq::new(b.n() as nat, |t: int| (0u64, 0u64)));
                        lemma_sorted_ids_len(b.target_mask(), Seq::new(b.n() as nat, |t: int| (0u64, 0u64)));
                        assert(targets.len() <= usize::MAX);
                        assert((targets.len() as usize) as int == targets.len());
                        assert(0 <= idx < targets.len());
                        let t = targets[idx];
                        assert(b.target_mask()[t as int]);
                        lemma_send_all_ok(b, left, t);
                        lemma_concat_ok(b, o, send_all(left, t));
                    },
                },
            },
        }
    }
}

/// No two orders share a source.
pub open spec fn one_order_per_source(o: Seq<(usize, usize)>) -> bool {
    forall|i: int, j: int| 0 <= i < j < o.len() ==> (#[trigger] o[i]).0 != (#[trigger] o[j]).0
}

/// `x` is one of the first `k` entries of `s`.
pub open spec fn in_prefix(s: Seq<usize>, k: int, x: usize) -> bool {
    exists|q: int| 0 <= q < k && s[q] == x
}

/// The solo phase spends each of the first `k` stacks once: as the source of one order or
/// as one leftover.
proof fn lemma_solo_distinct(b: &StandBoard, k: int)
    requires
        b.wf(),
        0 <= k <= b.stacks().len(),
    ensures
        ({
            let (o, taken, left) = b.solo(k);
            &&& one_order_per_source(o)
            &&& forall|i: int| 0 <= i < o.len() ==> in_prefix(b.stacks(), k, (#[trigger] o[i]).0)
            &&& forall|i: int| 0 <= i < left.len() ==> in_prefix(b.stacks(), k, #[trigger] left[i])
            &&& forall|i: int, j: int| 0 <= i < j < left.len() ==> #[trigger] left[i] != #[trigger] left[j]
            &&& forall|i: int, j: int| 0 <= i < o.len() && 0 <= j < left.len() ==> (#[trigger] o[i]).0 != #[trigger] left[j]
        }),
    decreases k,
{
    if k > 0 {
        lemma_solo_distinct(b, k - 1);
        let smask = Seq::new(b.n() as nat, |s: int| b.stack(s));
        let skeys = Seq::new(b.n() as nat, |s: int| ((u64::MAX - b.idle@[s]) as u64, 0u64));
        crate::order::lemma_sorted_ids_distinct(smask, skeys);
        let st = b.stacks();
        let (o, taken, left) = b.solo(k - 1);
        let s = st[k - 1];
        assert forall|x: usize| #[trigger] in_prefix(st, k - 1, x) implies x != s by {
            let q = choose|q: int| 0 <= q < k - 1 && st[q] == x;
            assert(st[q] != st[k - 1]);
        }
        assert(in_prefix(st, k, s));
        assert forall|x: usize| #[trigger] in_prefix(st, k - 1, x) implies in_prefix(st, k, x) by {
            let q = choose|q: int| 0 <= q < k - 1 && st[q] == x;
        }
        match first_id(b.solo_mask(taken, s as int), b.dist_keys(s as int)) {
            Some(t) => {
                let o2 = o.push((s, t));
                assert forall|i: int| 0 <= i < o2.len() implies in_prefix(st, k, (#[trigger] o2[i]).0) by {
                    if i < o.len() {
                        assert(o2[i] == o[i]);
                        assert(in_prefix(st, k - 1, o[i].0));
                    }
                }
                assert forall|i: int, j: int| 0 <= i < j < o2.len() implies (#[trigger] o2[i]).0 != (
                #[trigger] o2[j]).0 by {
                    assert(o2[i] == o[i]);
                    assert(in_prefix(st, k - 1, o[i].0));
                    if j < o.len() {
                        assert(o2[j] == o[j]);
                    }
                }
                assert forall|i: int, j: int| 0 <= i < o2.len() && 0 <= j < left.len() implies (
                #[trigger] o2[i]).0 != #[trigger] left[j] by {
                    assert(in_prefix(st, k - 1, left[j]));
                    if i < o.len() {
                        assert(o2[i] == o[i]);
                    }
                }
                assert forall|i: int| 0 <= i < left.len() implies in_prefix(st, k, #[trigger] left[i]) by {
                    assert(in_prefix(st, k - 1, left[i]));
                }
            },
            None => {
                let l2 = left.push(s);
                assert forall|i: int| 0 <= i < l2.len() implies in_prefix(st, k, #[trigger] l2[i]) by {
                    if i < left.len() {
                        assert(l2[i] == left[i]);
                        assert(in_prefix(st, k - 1, left[i]));
                    }
                }
                assert forall|i: int, j: int| 0 <= i < j < l2.len() implies #[trigger] l2[i] != #[trigger] l2[j] by {
                    assert(l2[i] == left[i]);
                    assert(in_prefix(st, k - 1, left[i]));
                    if j < left.len() {
                        assert(l2[j] == left[j]);
                    }
                }
                assert forall|i: int, j: int| 0 <= i < o.len() && 0 <= j < l2.len() implies (
                #[trigger] o[i]).0 != #[trigger] l2[j] by {
                    assert(in_prefix(st, k - 1, o[i].0));
                    if j < left.len() {
                        assert(l2[j] == left[j]);
                    }
                }
                assert forall|i: int| 0 <= i < o.len() implies in_prefix(st, k, (#[trigger] o[i]).0) by {
                    assert(in_prefix(st, k - 1, o[i].0));
                }
            },
        }
    }
}

/// Sending the leftovers gives one order per distinct leftover, each from a leftover.
proof fn lemma_send_all_distinct(left: Seq<usize>, t: usize)
    requires
        forall|i: int, j: int| 0 <= i < j < left.len() ==> #[trigger] left[i] != #[trigger] left[j],
    ensures
        one_order_per_source(send_all(left, t)),
        forall|i: int| 0 <= i < send_all(left, t).len() ==> in_prefix(left, left.len() as int, (#[trigger] send_all(left, t)[i]).0),
    decreases left.len(),
{
    if left.len() > 0 {
        let l = left.drop_last();
        assert forall|i: int, j: int| 0 <= i < j < l.len() implies #[trigger] l[i] != #[trigger] l[j] by {
            assert(l[i] == left[i] && l[j] == left[j]);
        }
        lemma_send_all_distinct(l, t);
        let prev = send_all(l, t);
        let x = left.last();
        assert(x == left[left.len() - 1]);
        assert forall|i: int| 0 <= i < prev.len() implies in_prefix(left, left.len() as int, (#[trigger] prev[i]).0) && prev[i].0 != x by {
            assert(in_prefix(l, l.len() as int, prev[i].0));
            let q = choose|q: int| 0 <= q < l.len() && l[q] == prev[i].0;
            assert(left[q] == l[q]);
        }
        if x != t {
            let cur = prev.push((x, t));
            assert(send_all(left, t) == cur);
            assert forall|i: int| 0 <= i < cur.len() implies in_prefix(left, left.len() as int, (#[trigger] cur[i]).0) by {
                if i < prev.len() {
                    assert(cur[i] == prev[i]);
                } else {
                    assert(left[left.len() - 1] == x);
                }
            }
            assert forall|i: int, j: int| 0 <= i < j < cur.len() implies (#[trigger] cur[i]).0 != (#[trigger] cur[j]).0 by {
                assert(cur[i] == prev[i]);
                if j < prev.len() {
                    assert(cur[j] == prev[j]);
                }
            }
        } else {
            assert(send_all(left, t) == prev);
        }
    }
}

/// Solo orders followed by the leftovers' orders keep one order per source.
proof fn lemma_stand_concat_distinct(o: Seq<(usize, usize)>, left: Seq<usize>, t: usize)
    requires
        one_order_per_source(o),
        forall|i: int, j: int| 0 <= i < j < left.len() ==> #[trigger] left[i] != #[trigger] left[j],
        forall|i: int, j: int| 0 <= i < o.len() && 0 <= j < left.len() ==> (#[trigger] o[i]).0 != #[trigger] left[j],
    ensures
        one_order_per_source(o + send_all(left, t)),
{
    lemma_send_all_distinct(left, t);
    let q = send_all(left, t);
    let all = o + q;
    assert forall|i: int, j: int| 0 <= i < j < all.len() implies (#[trigger] all[i]).0 != (#[trigger] all[j]).0 by {
        if j < o.len() {
            assert(all[i] == o[i] && all[j] == o[j]);
        } else if i < o.len() {
            assert(all[i] == o[i] && all[j] == q[j - o.len()]);
            assert(in_prefix(left, left.len() as int, q[j - o.len()].0));
            let p = choose|p: int| 0 <= p < left.len() && left[p] == q[j - o.len()].0;
        } else {
            assert(all[i] == q[i - o.len()] && all[j] == q[j - o.len()]);
        }
    }
}

/// **The last stand gives each stack at most one order, and needs an enemy.** No two orders
/// of the last stand share a source; and in a struct with no foe ground and no foe ship, the
/// last stand issues nothing.
pub proof fn law_last_stand_one_order_per_stack(b: &StandBoard, tick: u64, seat: Faction)
    requires
        b.wf(),
    ensures
        one_order_per_source(last_stand_spec(b, tick, seat)),
        (forall|t: int| 0 <= t < b.n() ==> !#[trigger] b.foe_owned@[t] && b.foe_at@[t] == 0) ==> last_stand_spec(
            b,
            tick,
            seat,
        ).len() == 0,
{
    let targets = b.targets();
    let stacks = b.stacks();
    let zk = Seq::new(b.n() as nat, |t: int| (0u64, 0u64));
    if forall|t: int| 0 <= t < b.n() ==> !#[trigger] b.foe_owned@[t] && b.foe_at@[t] == 0 {
        crate::order::lemma_sorted_ids_first(b.target_mask(), zk);
        if targets.len() > 0 {
            lemma_next_id_some(b.target_mask(), zk, None);
            let t = first_id(b.target_mask(), zk)->0;
            assert(0 <= t < b.n());
            assert(b.target_mask()[t as int]);
            assert(!b.foe_owned@[t as int]);
            assert(!b.foe_owned@[t as int] && b.foe_at@[t as int] == 0);
            assert(!b.any_foe_ground());
        }
    }
    if targets.len() > 0 && stacks.len() > 0 {
        lemma_solo_distinct(b, stacks.len() as int);
        let (o, taken, left) = b.solo(stacks.len() as int);
        if left.len() > 0 {
            let pool = b.pool(left);
            match b.joint(taken, false, pool) {
                Some(t) => lemma_stand_concat_distinct(o, left, t),
                None => match b.joint(taken, true, pool) {
                    Some(t) => lemma_stand_concat_distinct(o, left, t),
                    None => match b.easiest(taken) {
                        Some(t) => lemma_stand_concat_distinct(o, left, t),
                        None => {
                            let x = stand_hash(tick, seat, pool as u64);
                            let t = targets[((x as usize) % (targets.len() as usize)) as int];
                            lemma_stand_concat_distinct(o, left, t);
                        },
                    },
                },
            }
        }
    }
}

/// The claimed targets after the solo phase are exactly the targets of its orders.
proof fn lemma_solo_claims(b: &StandBoard, k: int)
    requires
        b.wf(),
        0 <= k <= b.stacks().len(),
    ensures
        b.solo(k).1.len() == b.n(),
        forall|t: int|
            0 <= t < b.n() ==> (#[trigger] b.solo(k).1[t] <==> exists|j: int|
                0 <= j < b.solo(k).0.len() && b.solo(k).0[j].1 == t),
    decreases k,
{
    lemma_solo_ok(b, k);
    if k > 0 {
        lemma_solo_claims(b, k - 1);
        let (o, taken, left) = b.solo(k - 1);
        let s = b.stacks()[k - 1];
        let (o2, taken2, left2) = b.solo(k);
        match first_id(b.solo_mask(taken, s as int), b.dist_keys(s as int)) {
            Some(t0) => {
                lemma_next_id_some(b.solo_mask(taken, s as int), b.dist_keys(s as int), None);
                assert(o2 == o.push((s, t0)));
                assert forall|t: int| 0 <= t < b.n() implies (#[trigger] taken2[t] <==> exists|j: int|
                    0 <= j < o2.len() && o2[j].1 == t) by {
                    if taken2[t] {
                        if t == t0 {
                            assert(o2[o.len() as int].1 == t);
                        } else {
                            assert(taken[t]);
                            let j = choose|j: int| 0 <= j < o.len() && o[j].1 == t;
                            assert(o2[j] == o[j]);
                        }
                    }
                    if exists|j: int| 0 <= j < o2.len() && o2[j].1 == t {
                        let j = choose|j: int| 0 <= j < o2.len() && o2[j].1 == t;
                        if j < o.len() {
                            assert(o2[j] == o[j]);
                        }
                    }
                }
            },
            None => {},
        }
    }
}

/// Sending the leftovers onto `t` sends each leftover other than `t` there, so something
/// when a leftover is not `t`.
proof fn lemma_send_all_to(left: Seq<usize>, t: usize)
    ensures
        forall|i: int| 0 <= i < send_all(left, t).len() ==> (#[trigger] send_all(left, t)[i]).1 == t,
        (exists|k: int| 0 <= k < left.len() && left[k] != t) ==> send_all(left, t).len() > 0,
    decreases left.len(),
{
    if left.len() > 0 {
        let l = left.drop_last();
        lemma_send_all_to(l, t);
        let prev = send_all(l, t);
        let cur = send_all(left, t);
        assert forall|i: int| 0 <= i < cur.len() implies (#[trigger] cur[i]).1 == t by {
            if i < prev.len() {
                assert(cur[i] == prev[i]);
            }
        }
        if exists|k: int| 0 <= k < left.len() && left[k] != t {
            let k = choose|k: int| 0 <= k < left.len() && left[k] != t;
            if k < l.len() {
                assert(l[k] == left[k]);
            }
        }
    }
}

/// **A hopeless pool reinforces the easiest claimed kill.** When the solo phase has claimed
/// some target, stacks are left over, and their pooled ships overwhelm no target, the last
/// stand sends the leftovers after the solo orders, and every such order goes to a target
/// some solo order claimed that holds the fewest foes of all claimed targets (lowest id on
/// ties).
pub proof fn law_last_stand_pool_reinforces_easiest_kill(b: &StandBoard, tick: u64, seat: Faction)
    requires
        b.wf(),
        b.solo(b.stacks().len() as int).0.len() > 0,
        b.solo(b.stacks().len() as int).2.len() > 0,
        forall|t: int|
            0 <= t < b.n() && #[trigger] b.target(t) ==> b.pool(b.solo(b.stacks().len() as int).2) < b.bar@[t],
    ensures
        last_stand_spec(b, tick, seat).len() > b.solo(b.stacks().len() as int).0.len(),
        forall|i: int|
            b.solo(b.stacks().len() as int).0.len() <= i < last_stand_spec(b, tick, seat).len() ==> {
                let o = b.solo(b.stacks().len() as int).0;
                let t = (#[trigger] last_stand_spec(b, tick, seat)[i]).1 as int;
                &&& exists|j: int| 0 <= j < o.len() && o[j].1 == t
                &&& forall|j: int|
                    0 <= j < o.len() ==> b.foe_at@[t] < b.foe_at@[o[j].1 as int] || (b.foe_at@[t]
                        == b.foe_at@[o[j].1 as int] && t <= o[j].1)
            },
{
    let stacks = b.stacks();
    let k = stacks.len() as int;
    lemma_solo_ok(b, k);
    lemma_solo_claims(b, k);
    let (o, taken, left) = b.solo(k);
    assert(k > 0);
    let zk = Seq::new(b.n() as nat, |t: int| (0u64, 0u64));
    let t0 = o[0].1 as int;
    assert(stand_order_ok(b, o[0]));
    assert(b.target_mask()[t0]);
    crate::order::lemma_sorted_ids_complete(b.target_mask(), zk, t0);
    assert(b.targets().len() > 0);
    let pool = b.pool(left);
    let jkeys = Seq::new(b.n() as nat, |t: int| ((u64::MAX - b.foe_at@[t]) as u64, 0u64));
    let ju = Seq::new(b.n() as nat, |t: int| b.joint_sel(taken, false, pool, t));
    let jc = Seq::new(b.n() as nat, |t: int| b.joint_sel(taken, true, pool, t));
    if b.joint(taken, false, pool) is Some {
        lemma_next_id_some(ju, jkeys, None);
    }
    if b.joint(taken, true, pool) is Some {
        lemma_next_id_some(jc, jkeys, None);
    }
    let emask = Seq::new(b.n() as nat, |t: int| taken[t]);
    let ekeys = Seq::new(b.n() as nat, |t: int| (b.foe_at@[t] as u64, 0u64));
    assert(taken[t0]);
    assert(emask[t0]);
    crate::order::lemma_next_id_exists(emask, ekeys, None, t0);
    lemma_next_id_some(emask, ekeys, None);
    let m = b.easiest(taken)->0;
    assert(b.easiest(taken) == first_id(emask, ekeys));
    assert(taken[m as int]);
    lemma_send_all_to(left, m);
    assert(b.stack(left[0] as int));
    assert(b.target(m as int));
    assert(left[0] != m);
    let r = last_stand_spec(b, tick, seat);
    assert(r == o + send_all(left, m));
    let sa = send_all(left, m);
    assert forall|i: int| o.len() <= i < r.len() implies {
        let t = (#[trigger] r[i]).1 as int;
        &&& exists|j: int| 0 <= j < o.len() && o[j].1 == t
        &&& forall|j: int|
            0 <= j < o.len() ==> b.foe_at@[t] < b.foe_at@[o[j].1 as int] || (b.foe_at@[t] == b.foe_at@[o[j].1 as int]
                && t <= o[j].1)
    } by {
        assert(r[i] == sa[i - o.len()]);
        assert(r[i].1 == m);
        assert forall|j: int| 0 <= j < o.len() implies b.foe_at@[m as int] < b.foe_at@[o[j].1 as int] || (
        b.foe_at@[m as int] == b.foe_at@[o[j].1 as int] && m <= o[j].1) by {
            let tj = o[j].1 as int;
            assert(stand_order_ok(b, o[j]));
            assert(taken[tj]);
            assert(emask[tj]);
        }
    }
}

} // verus!
