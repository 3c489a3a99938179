//! The **Cycler** — the scripted drillmaster of the "Command and Control" mission: it drills,
//! it reacts, and it strikes only with crushing force, every behaviour visible on the board
//! before it matters.
//!
//! Per decision tick, per struct (it plays each struct's interior independently):
//!
//! 1. **Committed sieges.** Its units on ground it does not own compare their force there
//!    (present + inbound) against the enemy's: outnumbering (or tying) it they hold and are
//!    excluded from the pool; outnumbered, the landed units retreat to the nearest owned sub.
//! 2. **Defence** preempts strikes: the pool masses on the most-attacked owned sub.
//! 3. **Overwhelm strike**: in peace, when the pool `M` beats some foe sub's defenders `F`
//!    with `M ≥ max(3·F, F + 60)`, it gathers the pool at its biggest sub (the visible tell)
//!    and, once nine tenths of the pool stand there, launches everything at a qualifying
//!    target picked by a pure hash of tick, seat and pool. If nothing qualifies any more at
//!    launch time it stands down.
//! 4. **Cycling**: otherwise every owned sub's idle ships above its storage capacity shuttle to
//!    the next owned sub (cyclic by id).
//! 5. **The reserve blind spot**: foes in the ownerless storage node count neither as an attack
//!    nor as defenders; only once no foe-owned sub remains does it turn on the reserve.

use vstd::prelude::*;
use crate::faction::Faction;
use crate::position::PosOwner;
use crate::greedy::ranks_before;

verus! {

/// The Cycler's overwhelm threshold as a formula.
pub open spec fn overwhelms_spec(m: int, f: int) -> bool {
    m >= (if 3 * f >= f + 60 {
        3 * f
    } else {
        f + 60
    })
}

/// The Cycler's overwhelm threshold: strike only when `m ≥ max(3·F, F + 60)`.
pub fn overwhelms(m: usize, f: usize) -> (r: bool)
    requires
        3 * f <= usize::MAX,
    ensures
        r == overwhelms_spec(m as int, f as int),
{
    let a = 3 * f;
    let b = f + 60;
    let bar = if a >= b {
        a
    } else {
        b
    };
    m >= bar
}

/// The byte that identifies a seat in the strike hash.
pub open spec fn seat_byte(seat: Faction) -> u64 {
    match seat {
        Faction::Player => 1u64,
        Faction::Ai(i) => (2 + i) as u64,
        Faction::Neutral => 0u64,
    }
}

/// A splitmix64-style hash of `(tick, seat, count)` — the strike target's pick without any
/// random number generator.
pub open spec fn mix_spec(tick: u64, seat: Faction, count: usize) -> u64 {
    let x0: u64 = tick ^ (seat_byte(seat) << 56u64) ^ ((count as u64) << 24u64);
    let x1: u64 = x0 ^ (x0 >> 33u64);
    let x2: u64 = x1.wrapping_mul(0xff51_afd7_ed55_8ccdu64);
    let x3: u64 = x2 ^ (x2 >> 33u64);
    let x4: u64 = x3.wrapping_mul(0xc4ce_b9fe_1a85_ec53u64);
    x4 ^ (x4 >> 33u64)
}

/// The strike hash (see [`mix_spec`]).
pub fn mix(tick: u64, seat: Faction, count: usize) -> (r: u64)
    ensures
        r == mix_spec(tick, seat, count),
{
    let sb: u64 = match seat {
        Faction::Player => 1u64,
        Faction::Ai(i) => 2 + i as u64,
        Faction::Neutral => 0u64,
    };
    let c: u64 = count as u64;
    let x0: u64 = tick ^ (sb << 56u64) ^ (c << 24u64);
    let x1: u64 = x0 ^ (x0 >> 33u64);
    let x2: u64 = x1.wrapping_mul(0xff51_afd7_ed55_8ccdu64);
    let x3: u64 = x2 ^ (x2 >> 33u64);
    let x4: u64 = x3.wrapping_mul(0xc4ce_b9fe_1a85_ec53u64);
    x4 ^ (x4 >> 33u64)
}

/// How many ships an order moves.
#[derive(Debug, Clone, Copy, PartialEq, Eq, Structural)]
pub enum Amount {
    /// Every idle ship of the seat at the source.
    All,
    /// Exactly this many idle ships.
    Exactly(usize),
}

/// One intra-struct order: move `amount` of the seat's idle ships at `from` to `to`.
#[derive(Debug, Clone, Copy, PartialEq, Eq, Structural)]
pub struct SubOrder {
    /// Source sub.
    pub from: usize,
    /// Destination sub.
    pub to: usize,
    /// How many ships.
    pub amount: Amount,
}

/// One struct's tallies from the acting seat's point of view. A ship "at" a sub is either idle
/// homed there or in transit toward it.
pub struct CyclerBoard {
    /// Each sub's owner relative to the seat (`Enemy` = a faction hostile to the seat).
    pub owner: Vec<PosOwner>,
    /// The seat's idle ships homed at each sub.
    pub idle: Vec<usize>,
    /// The seat's ships in transit toward each sub.
    pub inbound: Vec<usize>,
    /// Hostile ships idle at, or in transit toward, each sub.
    pub foe_at: Vec<usize>,
    /// Each sub's storage capacity.
    pub cap: Vec<usize>,
    /// `dist[a][b]`: distance rank between subs `a` and `b` (order-preserving).
    pub dist: Vec<Vec<u64>>,
    /// The ownerless storage node, if the struct has one.
    pub storage: Option<usize>,
    /// All of the seat's living ships in the struct.
    pub my_total: usize,
}

/// The per-struct outcome of a turn: the orders to issue, and the new massing state.
pub struct CyclerTurn {
    /// Orders, in issue order.
    pub orders: Vec<SubOrder>,
    /// `Some(gather)` while a strike is being assembled at `gather`.
    pub massing: Option<usize>,
}

// =====================================================================================
// Specification.
// =====================================================================================

impl CyclerBoard {
    /// Number of subs.
    pub open spec fn n(&self) -> int {
        self.owner@.len() as int
    }

    /// `s` is owned by the seat.
    pub open spec fn mine(&self, s: int) -> bool {
        self.owner@[s] == PosOwner::Me
    }

    /// `s` is the storage node.
    pub open spec fn is_storage(&self, s: int) -> bool {
        self.storage == Some(s as usize)
    }

    /// `t` is foe-owned ground (the storage node never counts).
    pub open spec fn foe_sub(&self, t: int) -> bool {
        self.owner@[t] == PosOwner::Enemy && !self.is_storage(t)
    }

    /// Some foe-owned sub remains.
    pub open spec fn any_foe_sub(&self) -> bool {
        exists|t: int| 0 <= t < self.n() && #[trigger] self.foe_sub(t)
    }

    /// The seat owns some sub.
    pub open spec fn any_mine(&self) -> bool {
        exists|s: int| 0 <= s < self.n() && #[trigger] self.mine(s)
    }

    /// The seat's force at `t`: idle plus inbound.
    pub open spec fn here(&self, t: int) -> int {
        self.idle@[t] + self.inbound@[t]
    }

    /// `t` is a siege site: ground the seat does not own with seat force at it (the storage
    /// node only during the endgame, when no foe sub remains and foes hold it).
    pub open spec fn siege(&self, t: int) -> bool {
        &&& !self.mine(t)
        &&& !(self.is_storage(t) && !(!self.any_foe_sub() && self.foe_at@[t] > 0))
        &&& self.here(t) > 0
    }

    /// A committed siege: the seat outnumbers (or ties) the foe there.
    pub open spec fn committed(&self, t: int) -> bool {
        self.siege(t) && self.foe_at@[t] <= self.here(t)
    }

    /// A losing siege with landed units: they retreat.
    pub open spec fn retreating(&self, t: int) -> bool {
        self.siege(t) && self.foe_at@[t] > self.here(t) && self.idle@[t] > 0
    }

    /// Total force of the committed sieges among the first `k` subs.
    pub open spec fn committed_upto(&self, k: int) -> int
        decreases k,
    {
        if k <= 0 {
            0
        } else {
            self.committed_upto(k - 1) + (if self.committed(k - 1) {
                self.here(k - 1)
            } else {
                0
            })
        }
    }

    /// Total seat force tallied at the first `k` subs.
    pub open spec fn tally_upto(&self, k: int) -> int
        decreases k,
    {
        if k <= 0 {
            0
        } else {
            self.tally_upto(k - 1) + self.here(k - 1)
        }
    }

    /// The pool: every ship not committed to a siege.
    pub open spec fn pool(&self) -> int {
        let c = self.committed_upto(self.n());
        if self.my_total >= c {
            self.my_total - c
        } else {
            0
        }
    }

    /// The tallies describe one struct: every table has one entry per sub, the distance table
    /// is square, the storage node is a sub, no ship is tallied twice, and `3·F` is a machine
    /// integer for every sub's foe count.
    pub open spec fn wf(&self) -> bool {
        &&& self.n() <= usize::MAX
        &&& self.idle@.len() == self.n()
        &&& self.inbound@.len() == self.n()
        &&& self.foe_at@.len() == self.n()
        &&& self.cap@.len() == self.n()
        &&& self.dist@.len() == self.n()
        &&& forall|a: int| 0 <= a < self.n() ==> (#[trigger] self.dist@[a])@.len() == self.n()
        &&& self.storage matches Some(s) ==> s < self.n()
        &&& self.tally_upto(self.n()) <= self.my_total
        &&& forall|s: int| 0 <= s < self.n() ==> 3 * #[trigger] self.foe_at@[s] <= usize::MAX
    }

    /// `s` is the owned sub nearest `t` (lowest id on ties).
    pub open spec fn is_nearest_owned(&self, t: int, s: int) -> bool {
        &&& 0 <= s < self.n()
        &&& self.mine(s)
        &&& forall|j: int|
            0 <= j < self.n() && #[trigger] self.mine(j) ==> ranks_before(
                self.dist@[s]@[t],
                s,
                self.dist@[j]@[t],
                j,
            )
    }

    /// The owned sub nearest `t`.
    pub open spec fn nearest_owned(&self, t: int) -> usize {
        (choose|s: int| self.is_nearest_owned(t, s)) as usize
    }

    /// `s` is the most-attacked owned sub (most foes, lowest id on ties).
    pub open spec fn is_defend_target(&self, s: int) -> bool {
        &&& 0 <= s < self.n()
        &&& self.mine(s)
        &&& self.foe_at@[s] > 0
        &&& forall|j: int|
            0 <= j < self.n() && #[trigger] self.mine(j) && self.foe_at@[j] > 0 ==> (
            self.foe_at@[j] < self.foe_at@[s] || (self.foe_at@[j] == self.foe_at@[s] && s <= j))
    }

    /// The most-attacked owned sub, if any owned sub is attacked.
    pub open spec fn defend_target(&self) -> Option<usize> {
        if exists|s: int| self.is_defend_target(s) {
            Some((choose|s: int| self.is_defend_target(s)) as usize)
        } else {
            None
        }
    }

    /// `s` is the gather site: the owned sub holding the most idle ships (lowest id on ties).
    pub open spec fn is_gather_site(&self, s: int) -> bool {
        &&& 0 <= s < self.n()
        &&& self.mine(s)
        &&& forall|j: int|
            0 <= j < self.n() && #[trigger] self.mine(j) ==> (self.idle@[j] < self.idle@[s] || (
            self.idle@[j] == self.idle@[s] && s <= j))
    }

    /// The gather site.
    pub open spec fn gather_site(&self) -> usize {
        (choose|s: int| self.is_gather_site(s)) as usize
    }

    /// `t` is a strike target: a foe sub, or — once none remains — the foe-held, uncommitted
    /// storage node.
    pub open spec fn target(&self, t: int) -> bool {
        if self.any_foe_sub() {
            self.foe_sub(t)
        } else {
            self.is_storage(t) && self.foe_at@[t] > 0 && !self.committed(t)
        }
    }

    /// The targets among the first `k` subs the pool overwhelms, in id order.
    pub open spec fn qualifying_upto(&self, k: int) -> Seq<usize>
        decreases k,
    {
        if k <= 0 {
            Seq::empty()
        } else {
            let prev = self.qualifying_upto(k - 1);
            if self.target(k - 1) && overwhelms_spec(self.pool(), self.foe_at@[k - 1] as int) {
                prev.push((k - 1) as usize)
            } else {
                prev
            }
        }
    }

    /// Retreat orders of the losing sieges among the first `k` subs.
    pub open spec fn retreats_upto(&self, k: int) -> Seq<SubOrder>
        decreases k,
    {
        if k <= 0 {
            Seq::empty()
        } else {
            let prev = self.retreats_upto(k - 1);
            if self.retreating(k - 1) {
                prev.push(
                    SubOrder {
                        from: (k - 1) as usize,
                        to: self.nearest_owned(k - 1),
                        amount: Amount::All,
                    },
                )
            } else {
                prev
            }
        }
    }

    /// Orders sending the pool's idle ships at the first `k` subs (never a committed siege's,
    /// never the destination's own) onto `target`.
    pub open spec fn pool_orders_upto(&self, target: int, k: int) -> Seq<SubOrder>
        decreases k,
    {
        if k <= 0 {
            Seq::empty()
        } else {
            let prev = self.pool_orders_upto(target, k - 1);
            if k - 1 != target && self.idle@[k - 1] > 0 && !self.committed(k - 1) {
                prev.push(
                    SubOrder { from: (k - 1) as usize, to: target as usize, amount: Amount::All },
                )
            } else {
                prev
            }
        }
    }

    /// `j` is the owned sub after `s` in cyclic id order.
    pub open spec fn is_next_mine(&self, s: int, j: int) -> bool {
        &&& 0 <= j < self.n()
        &&& self.mine(j)
        &&& if j > s {
            forall|m: int| s < m < j ==> !#[trigger] self.mine(m)
        } else {
            &&& forall|m: int| s < m < self.n() ==> !#[trigger] self.mine(m)
            &&& forall|m: int| 0 <= m < j ==> !#[trigger] self.mine(m)
        }
    }

    /// The owned sub after `s` in cyclic id order.
    pub open spec fn next_mine(&self, s: int) -> usize {
        (choose|j: int| self.is_next_mine(s, j)) as usize
    }

    /// Cycling orders of the first `k` subs: each owned sub's idle ships above its capacity go
    /// to the next owned sub.
    pub open spec fn cycle_upto(&self, k: int) -> Seq<SubOrder>
        decreases k,
    {
        if k <= 0 {
            Seq::empty()
        } else {
            let prev = self.cycle_upto(k - 1);
            if self.mine(k - 1) && self.idle@[k - 1] > self.cap@[k - 1] {
                prev.push(
                    SubOrder {
                        from: (k - 1) as usize,
                        to: self.next_mine(k - 1),
                        amount: Amount::Exactly((self.idle@[k - 1] - self.cap@[k - 1]) as usize),
                    },
                )
            } else {
                prev
            }
        }
    }

    /// Number of owned subs among the first `k`.
    pub open spec fn mine_count_upto(&self, k: int) -> int
        decreases k,
    {
        if k <= 0 {
            0
        } else {
            self.mine_count_upto(k - 1) + (if self.mine(k - 1) {
                1int
            } else {
                0
            })
        }
    }
}

/// The whole turn of one struct: the orders and the new massing state.
pub open spec fn cycler_spec(b: &CyclerBoard, massing: Option<usize>, tick: u64, seat: Faction) -> (
    Seq<SubOrder>,
    Option<usize>,
) {
    let n = b.n();
    if !b.any_mine() || b.my_total == 0 {
        (Seq::empty(), None)
    } else {
        let r = b.retreats_upto(n);
        match b.defend_target() {
            Some(t) => (r + b.pool_orders_upto(t as int, n), None),
            None => {
                let q = b.qualifying_upto(n);
                match massing {
                    Some(g) => if !b.mine(g as int) {
                        (r, None)
                    } else if 10 * b.idle@[g as int] >= 9 * b.pool() {
                        if q.len() == 0 {
                            (r, None)
                        } else {
                            let pick = q[((mix_spec(tick, seat, b.pool() as usize) as usize) % (
                            q.len() as usize)) as int];
                            (r.push(SubOrder { from: g, to: pick, amount: Amount::All }), None)
                        }
                    } else {
                        (r + b.pool_orders_upto(g as int, n), Some(g))
                    },
                    None => if q.len() > 0 {
                        let g = b.gather_site();
                        (r + b.pool_orders_upto(g as int, n), Some(g))
                    } else if b.mine_count_upto(n) < 2 {
                        (r, None)
                    } else {
                        (r + b.cycle_upto(n), None)
                    },
                }
            },
        }
    }
}

// =====================================================================================
// Lemmas.
// =====================================================================================

/// The tallies of a prefix never exceed those of a longer prefix, and the committed force of
/// a prefix never exceeds its tallied force.
pub proof fn lemma_tally_bounds(b: &CyclerBoard, j: int, k: int)
    requires
        0 <= j <= k,
    ensures
        b.tally_upto(j) <= b.tally_upto(k),
        b.committed_upto(k) <= b.tally_upto(k),
        0 <= b.committed_upto(k),
        0 <= b.tally_upto(j),
    decreases k,
{
    if k > 0 {
        if j < k {
            lemma_tally_bounds(b, j, k - 1);
        } else {
            lemma_tally_bounds(b, j - 1, k - 1);
        }
    }
}

/// The nearest owned sub is unique.
proof fn lemma_nearest_owned_unique(b: &CyclerBoard, t: int, x: int, y: int)
    requires
        b.is_nearest_owned(t, x),
        b.is_nearest_owned(t, y),
    ensures
        x == y,
{
    assert(b.mine(x));
    assert(b.mine(y));
}

/// The most-attacked owned sub is unique.
proof fn lemma_defend_target_unique(b: &CyclerBoard, x: int, y: int)
    requires
        b.is_defend_target(x),
        b.is_defend_target(y),
    ensures
        x == y,
{
    assert(b.mine(x));
    assert(b.mine(y));
}

/// The gather site is unique.
proof fn lemma_gather_site_unique(b: &CyclerBoard, x: int, y: int)
    requires
        b.is_gather_site(x),
        b.is_gather_site(y),
    ensures
        x == y,
{
    assert(b.mine(x));
    assert(b.mine(y));
}

/// The next owned sub is unique.
proof fn lemma_next_mine_unique(b: &CyclerBoard, s: int, x: int, y: int)
    requires
        b.is_next_mine(s, x),
        b.is_next_mine(s, y),
    ensures
        x == y,
{
    assert(b.mine(x));
    assert(b.mine(y));
}

// =====================================================================================
// Implementation.
// =====================================================================================

/// Whether the seat owns some sub, and how many.
fn count_mine(b: &CyclerBoard) -> (r: usize)
    requires
        b.wf(),
    ensures
        r == b.mine_count_upto(b.n()),
        (r > 0) == b.any_mine(),
{
    let n = b.owner.len();
    let mut c: usize = 0;
    let mut s: usize = 0;
    while s < n
        invariant
            b.wf(),
            n == b.n(),
            0 <= s <= n,
            c == b.mine_count_upto(s as int),
            c <= s,
            (c > 0) == exists|m: int| 0 <= m < s && #[trigger] b.mine(m),
        decreases n - s,
    {
        if b.owner[s] == PosOwner::Me {
            c = c + 1;
        }
        s = s + 1;
    }
    c
}

/// Whether some foe-owned sub remains.
fn any_foe_sub_exec(b: &CyclerBoard) -> (r: bool)
    requires
        b.wf(),
    ensures
        r == b.any_foe_sub(),
{
    let n = b.owner.len();
    let mut t: usize = 0;
    while t < n
        invariant
            b.wf(),
            n == b.n(),
            0 <= t <= n,
            forall|m: int| 0 <= m < t ==> !#[trigger] b.foe_sub(m),
        decreases n - t,
    {
        if b.owner[t] == PosOwner::Enemy && b.storage != Some(t) {
            assert(b.foe_sub(t as int));
            return true;
        }
        t = t + 1;
    }
    false
}

/// The seat's force at `t`.
fn here_exec(b: &CyclerBoard, t: usize) -> (r: usize)
    requires
        b.wf(),
        t < b.n(),
    ensures
        r == b.here(t as int),
{
    proof {
        lemma_tally_bounds(b, t as int, b.n());
        lemma_tally_bounds(b, t + 1, b.n());
        assert(b.tally_upto(t + 1) == b.tally_upto(t as int) + b.here(t as int));
    }
    b.idle[t] + b.inbound[t]
}

/// Whether `t` is a siege site.
fn siege_exec(b: &CyclerBoard, t: usize, any_foe: bool) -> (r: bool)
    requires
        b.wf(),
        t < b.n(),
        any_foe == b.any_foe_sub(),
    ensures
        r == b.siege(t as int),
{
    if b.owner[t] == PosOwner::Me {
        return false;
    }
    let stg = b.storage == Some(t);
    if stg && !(!any_foe && b.foe_at[t] > 0) {
        return false;
    }
    here_exec(b, t) > 0
}

/// Whether `t` is a committed siege.
fn committed_exec(b: &CyclerBoard, t: usize, any_foe: bool) -> (r: bool)
    requires
        b.wf(),
        t < b.n(),
        any_foe == b.any_foe_sub(),
    ensures
        r == b.committed(t as int),
{
    siege_exec(b, t, any_foe) && b.foe_at[t] <= here_exec(b, t)
}

/// The owned sub nearest `t` (lowest id on ties).
fn nearest_owned_exec(b: &CyclerBoard, t: usize) -> (r: usize)
    requires
        b.wf(),
        t < b.n(),
        b.any_mine(),
    ensures
        r == b.nearest_owned(t as int),
        b.is_nearest_owned(t as int, r as int),
{
    let n = b.owner.len();
    let mut best: Option<(usize, u64)> = None;
    let mut s: usize = 0;
    while s < n
        invariant
            b.wf(),
            n == b.n(),
            t < n,
            0 <= s <= n,
            best matches Some((x, xd)) ==> {
                &&& 0 <= x < s
                &&& b.mine(x as int)
                &&& b.dist@[x as int]@[t as int] == xd
                &&& forall|j: int|
                    0 <= j < s && #[trigger] b.mine(j) ==> ranks_before(
                        xd,
                        x as int,
                        b.dist@[j]@[t as int],
                        j,
                    )
            },
            best is None ==> forall|j: int| 0 <= j < s ==> !#[trigger] b.mine(j),
        decreases n - s,
    {
        if b.owner[s] == PosOwner::Me {
            let d = b.dist[s][t];
            match best {
                Some((_, xd)) => {
                    if !(xd <= d) {
                        best = Some((s, d));
                    }
                },
                None => {
                    best = Some((s, d));
                },
            }
        }
        s = s + 1;
    }
    match best {
        Some((x, _)) => {
            proof {
                assert(b.is_nearest_owned(t as int, x as int));
                let c = choose|c: int| b.is_nearest_owned(t as int, c);
                lemma_nearest_owned_unique(b, t as int, c, x as int);
            }
            x
        },
        None => {
            proof {
                let m = choose|m: int| 0 <= m < b.n() && #[trigger] b.mine(m);
                assert(b.mine(m));
            }
            0
        },
    }
}

/// The most-attacked owned sub, if any owned sub is attacked.
fn defend_target_exec(b: &CyclerBoard) -> (r: Option<usize>)
    requires
        b.wf(),
    ensures
        r == b.defend_target(),
{
    let n = b.owner.len();
    let mut best: Option<usize> = None;
    let mut s: usize = 0;
    while s < n
        invariant
            b.wf(),
            n == b.n(),
            0 <= s <= n,
            best matches Some(x) ==> {
                &&& 0 <= x < s
                &&& b.mine(x as int)
                &&& b.foe_at@[x as int] > 0
                &&& forall|j: int|
                    0 <= j < s && #[trigger] b.mine(j) && b.foe_at@[j] > 0 ==> (b.foe_at@[j]
                        < b.foe_at@[x as int] || (b.foe_at@[j] == b.foe_at@[x as int] && x <= j))
            },
            best is None ==> forall|j: int| 0 <= j < s ==> !(#[trigger] b.mine(j) && b.foe_at@[j] > 0),
        decreases n - s,
    {
        if b.owner[s] == PosOwner::Me && b.foe_at[s] > 0 {
            match best {
                Some(x) => {
                    if b.foe_at[s] > b.foe_at[x] {
                        best = Some(s);
                    }
                },
                None => {
                    best = Some(s);
                },
            }
        }
        s = s + 1;
    }
    match best {
        Some(x) => {
            proof {
                assert(b.is_defend_target(x as int));
                let c = choose|c: int| b.is_defend_target(c);
                lemma_defend_target_unique(b, c, x as int);
            }
            Some(x)
        },
        None => {
            assert(!exists|x: int| b.is_defend_target(x));
            None
        },
    }
}

/// The owned sub holding the most idle ships (lowest id on ties).
fn gather_site_exec(b: &CyclerBoard) -> (r: usize)
    requires
        b.wf(),
        b.any_mine(),
    ensures
        r == b.gather_site(),
        b.is_gather_site(r as int),
{
    let n = b.owner.len();
    let mut best: Option<usize> = None;
    let mut s: usize = 0;
    while s < n
        invariant
            b.wf(),
            n == b.n(),
            0 <= s <= n,
            best matches Some(x) ==> {
                &&& 0 <= x < s
                &&& b.mine(x as int)
                &&& forall|j: int|
                    0 <= j < s && #[trigger] b.mine(j) ==> (b.idle@[j] < b.idle@[x as int] || (
                    b.idle@[j] == b.idle@[x as int] && x <= j))
            },
            best is None ==> forall|j: int| 0 <= j < s ==> !#[trigger] b.mine(j),
        decreases n - s,
    {
        if b.owner[s] == PosOwner::Me {
            match best {
                Some(x) => {
                    if b.idle[s] > b.idle[x] {
                        best = Some(s);
                    }
                },
                None => {
                    best = Some(s);
                },
            }
        }
        s = s + 1;
    }
    match best {
        Some(x) => {
            proof {
                assert(b.is_gather_site(x as int));
                let c = choose|c: int| b.is_gather_site(c);
                lemma_gather_site_unique(b, c, x as int);
            }
            x
        },
        None => {
            proof {
                let m = choose|m: int| 0 <= m < b.n() && #[trigger] b.mine(m);
                assert(b.mine(m));
            }
            0
        },
    }
}

/// The owned sub after `s` in cyclic id order.
fn next_mine_exec(b: &CyclerBoard, s: usize) -> (r: usize)
    requires
        b.wf(),
        s < b.n(),
        b.mine(s as int),
    ensures
        r == b.next_mine(s as int),
        b.is_next_mine(s as int, r as int),
{
    let n = b.owner.len();
    let mut j: usize = s + 1;
    while j < n
        invariant
            b.wf(),
            n == b.n(),
            s < n,
            s + 1 <= j <= n,
            forall|m: int| s < m < j ==> !#[trigger] b.mine(m),
        decreases n - j,
    {
        if b.owner[j] == PosOwner::Me {
            proof {
                assert(b.is_next_mine(s as int, j as int));
                let c = choose|c: int| b.is_next_mine(s as int, c);
                lemma_next_mine_unique(b, s as int, c, j as int);
            }
            return j;
        }
        j = j + 1;
    }
    let mut k: usize = 0;
    while k < n
        invariant
            b.wf(),
            n == b.n(),
            s < n,
            b.mine(s as int),
            0 <= k <= n,
            forall|m: int| s < m < n ==> !#[trigger] b.mine(m),
            forall|m: int| 0 <= m < k ==> !#[trigger] b.mine(m),
        decreases n - k,
    {
        if b.owner[k] == PosOwner::Me {
            proof {
                assert(b.is_next_mine(s as int, k as int));
                let c = choose|c: int| b.is_next_mine(s as int, c);
                lemma_next_mine_unique(b, s as int, c, k as int);
            }
            return k;
        }
        k = k + 1;
    }
    assert(b.mine(s as int));
    0
}

/// The retreat orders of the losing sieges, and the committed sieges' total force.
fn sieges(b: &CyclerBoard, any_foe: bool) -> (r: (Vec<SubOrder>, usize))
    requires
        b.wf(),
        b.any_mine(),
        any_foe == b.any_foe_sub(),
    ensures
        r.0@ == b.retreats_upto(b.n()),
        r.1 == b.committed_upto(b.n()),
{
    let n = b.owner.len();
    let mut orders: Vec<SubOrder> = Vec::new();
    let mut csum: usize = 0;
    let mut t: usize = 0;
    while t < n
        invariant
            b.wf(),
            b.any_mine(),
            any_foe == b.any_foe_sub(),
            n == b.n(),
            0 <= t <= n,
            orders@ == b.retreats_upto(t as int),
            csum == b.committed_upto(t as int),
        decreases n - t,
    {
        proof {
            lemma_tally_bounds(b, t + 1, b.n());
            lemma_tally_bounds(b, t + 1, t + 1);
        }
        if siege_exec(b, t, any_foe) {
            let h = here_exec(b, t);
            if b.foe_at[t] > h {
                if b.idle[t] > 0 {
                    let home = nearest_owned_exec(b, t);
                    orders.push(SubOrder { from: t, to: home, amount: Amount::All });
                }
            } else {
                csum = csum + h;
            }
        }
        t = t + 1;
    }
    (orders, csum)
}

/// Orders sending the pool's idle ships onto `target`.
fn pool_orders(b: &CyclerBoard, target: usize, any_foe: bool) -> (r: Vec<SubOrder>)
    requires
        b.wf(),
        any_foe == b.any_foe_sub(),
    ensures
        r@ == b.pool_orders_upto(target as int, b.n()),
{
    let n = b.owner.len();
    let mut orders: Vec<SubOrder> = Vec::new();
    let mut s: usize = 0;
    while s < n
        invariant
            b.wf(),
            any_foe == b.any_foe_sub(),
            n == b.n(),
            0 <= s <= n,
            orders@ == b.pool_orders_upto(target as int, s as int),
        decreases n - s,
    {
        if s != target && b.idle[s] > 0 && !committed_exec(b, s, any_foe) {
            orders.push(SubOrder { from: s, to: target, amount: Amount::All });
        }
        s = s + 1;
    }
    orders
}

/// The targets the pool overwhelms, in id order.
fn qualifying(b: &CyclerBoard, pool: usize, any_foe: bool) -> (r: Vec<usize>)
    requires
        b.wf(),
        any_foe == b.any_foe_sub(),
        pool == b.pool(),
    ensures
        r@ == b.qualifying_upto(b.n()),
{
    let n = b.owner.len();
    let mut q: Vec<usize> = Vec::new();
    let mut t: usize = 0;
    while t < n
        invariant
            b.wf(),
            any_foe == b.any_foe_sub(),
            pool == b.pool(),
            n == b.n(),
            0 <= t <= n,
            q@ == b.qualifying_upto(t as int),
        decreases n - t,
    {
        let is_target = if any_foe {
            b.owner[t] == PosOwner::Enemy && b.storage != Some(t)
        } else {
            b.storage == Some(t) && b.foe_at[t] > 0 && !committed_exec(b, t, any_foe)
        };
        if is_target && overwhelms(pool, b.foe_at[t]) {
            q.push(t);
        }
        t = t + 1;
    }
    q
}

/// The cycling orders.
fn cycle_orders(b: &CyclerBoard) -> (r: Vec<SubOrder>)
    requires
        b.wf(),
    ensures
        r@ == b.cycle_upto(b.n()),
{
    let n = b.owner.len();
    let mut orders: Vec<SubOrder> = Vec::new();
    let mut s: usize = 0;
    while s < n
        invariant
            b.wf(),
            n == b.n(),
            0 <= s <= n,
            orders@ == b.cycle_upto(s as int),
        decreases n - s,
    {
        if b.owner[s] == PosOwner::Me && b.idle[s] > b.cap[s] {
            let next = next_mine_exec(b, s);
            orders.push(
                SubOrder { from: s, to: next, amount: Amount::Exactly(b.idle[s] - b.cap[s]) },
            );
        }
        s = s + 1;
    }
    orders
}

/// Appends `tail` to `head`.
fn append_orders(head: Vec<SubOrder>, tail: Vec<SubOrder>) -> (r: Vec<SubOrder>)
    ensures
        r@ == head@ + tail@,
{
    let mut out = head;
    let mut i: usize = 0;
    while i < tail.len()
        invariant
            0 <= i <= tail@.len(),
            out@ == head@ + tail@.take(i as int),
        decreases tail@.len() - i,
    {
        proof {
            assert(tail@.take(i + 1) =~= tail@.take(i as int).push(tail@[i as int]));
        }
        out.push(tail[i]);
        i = i + 1;
    }
    assert(tail@.take(tail@.len() as int) =~= tail@);
    out
}

/// **One struct's turn** of the Cycler (see the module doc): the orders to issue, in issue
/// order, and the new massing state, given the struct's tallies, the massing state carried from
/// the previous decision, the tick and the seat.
pub fn cycler_turn(b: &CyclerBoard, massing: Option<usize>, tick: u64, seat: Faction) -> (r:
    CyclerTurn)
    requires
        b.wf(),
        massing matches Some(g) ==> g < b.n(),
    ensures
        (r.orders@, r.massing) == cycler_spec(b, massing, tick, seat),
{
    let n = b.owner.len();
    let mine_count = count_mine(b);
    if mine_count == 0 || b.my_total == 0 {
        return CyclerTurn { orders: Vec::new(), massing: None };
    }
    let any_foe = any_foe_sub_exec(b);
    let (retreats, committed_ships) = sieges(b, any_foe);
    proof {
        lemma_tally_bounds(b, b.n(), b.n());
    }
    let pool: usize = b.my_total - committed_ships;
    match defend_target_exec(b) {
        Some(target) => {
            let po = pool_orders(b, target, any_foe);
            return CyclerTurn { orders: append_orders(retreats, po), massing: None };
        },
        None => {},
    }
    let q = qualifying(b, pool, any_foe);
    match massing {
        Some(gather) => {
            if b.owner[gather] != PosOwner::Me {
                return CyclerTurn { orders: retreats, massing: None };
            }
            if (b.idle[gather] as u128) * 10 >= (pool as u128) * 9 {
                if q.len() == 0 {
                    return CyclerTurn { orders: retreats, massing: None };
                }
                let h = mix(tick, seat, pool);
                let pick = q[(h as usize) % q.len()];
                let mut orders = retreats;
                orders.push(SubOrder { from: gather, to: pick, amount: Amount::All });
                return CyclerTurn { orders, massing: None };
            }
            let po = pool_orders(b, gather, any_foe);
            CyclerTurn { orders: append_orders(retreats, po), massing: Some(gather) }
        },
        None => {
            if q.len() > 0 {
                let gather = gather_site_exec(b);
                let po = pool_orders(b, gather, any_foe);
                return CyclerTurn { orders: append_orders(retreats, po), massing: Some(gather) };
            }
            if mine_count < 2 {
                return CyclerTurn { orders: retreats, massing: None };
            }
            let co = cycle_orders(b);
            CyclerTurn { orders: append_orders(retreats, co), massing: None }
        },
    }
}

/// **It strikes only with crushing force**: every qualifying strike target is a foe sub (or,
/// once none remains, the foe-held reserve) whose defenders the pool overwhelms.
pub proof fn law_strikes_only_overwhelmed_targets(b: &CyclerBoard, k: int)
    requires
        b.wf(),
        0 <= k <= b.n(),
    ensures
        forall|i: int|
            0 <= i < b.qualifying_upto(k).len() ==> {
                let t = #[trigger] b.qualifying_upto(k)[i];
                &&& 0 <= t < k
                &&& b.target(t as int)
                &&& overwhelms_spec(b.pool(), b.foe_at@[t as int] as int)
            },
    decreases k,
{
    if k > 0 {
        law_strikes_only_overwhelmed_targets(b, k - 1);
        let prev = b.qualifying_upto(k - 1);
        if b.target(k - 1) && overwhelms_spec(b.pool(), b.foe_at@[k - 1] as int) {
            assert(b.qualifying_upto(k) == prev.push((k - 1) as usize));
        }
    }
}

/// **Committed sieges fight their own war**: every order that gathers the pool moves all
/// idle ships of a sub other than the destination, and never those of a committed siege.
pub proof fn law_pool_spares_sieges(b: &CyclerBoard, target: int, k: int)
    requires
        b.wf(),
        0 <= target < b.n(),
        0 <= k <= b.n(),
    ensures
        forall|i: int|
            0 <= i < b.pool_orders_upto(target, k).len() ==> {
                let o = #[trigger] b.pool_orders_upto(target, k)[i];
                &&& 0 <= o.from < k
                &&& o.from != target
                &&& o.to == target
                &&& o.amount == Amount::All
                &&& b.idle@[o.from as int] > 0
                &&& !b.committed(o.from as int)
            },
    decreases k,
{
    if k > 0 {
        law_pool_spares_sieges(b, target, k - 1);
        let prev = b.pool_orders_upto(target, k - 1);
        if k - 1 != target && b.idle@[k - 1] > 0 && !b.committed(k - 1) {
            assert(b.pool_orders_upto(target, k) == prev.push(
                SubOrder { from: (k - 1) as usize, to: target as usize, amount: Amount::All },
            ));
        }
    }
}

/// **Defence preempts strikes**: when an owned sub is attacked, the turn abandons any gather,
/// and after the retreats it only masses the pool on the most-attacked sub.
pub proof fn law_defence_preempts_strikes(b: &CyclerBoard, massing: Option<usize>, tick: u64, seat: Faction)
    requires
        b.any_mine(),
        b.my_total > 0,
        b.defend_target() is Some,
    ensures
        cycler_spec(b, massing, tick, seat).1 is None,
        cycler_spec(b, massing, tick, seat).0 == b.retreats_upto(b.n()) + b.pool_orders_upto(
            b.defend_target()->0 as int,
            b.n(),
        ),
{
}

/// `t` holds a siege the seat wins or ties: ground it does not own (not the reserve node)
/// where its idle plus inbound force is positive and at least the foes there.
pub open spec fn holding_siege(b: &CyclerBoard, t: int) -> bool {
    &&& b.owner@[t] != PosOwner::Me
    &&& b.storage != Some(t as usize)
    &&& b.idle@[t] + b.inbound@[t] > 0
    &&& b.foe_at@[t] <= b.idle@[t] + b.inbound@[t]
}

/// Cycling moves only owned subs' ships.
proof fn lemma_cycle_from_owned(b: &CyclerBoard, k: int)
    requires
        b.wf(),
        0 <= k <= b.n(),
    ensures
        forall|i: int| 0 <= i < b.cycle_upto(k).len() ==> b.mine((#[trigger] b.cycle_upto(k)[i]).from as int),
    decreases k,
{
    if k > 0 {
        lemma_cycle_from_owned(b, k - 1);
        let prev = b.cycle_upto(k - 1);
        let cur = b.cycle_upto(k);
        assert forall|i: int| 0 <= i < cur.len() implies b.mine((#[trigger] cur[i]).from as int) by {
            if i < prev.len() {
                assert(cur[i] == prev[i]);
            }
        }
    }
}

/// **Only lost sieges retreat, and every lost siege does.** Every retreat order moves all
/// landed ships of a sub the seat does not own, where it has idle ships and the foes there
/// outnumber its idle plus inbound force; and every such sub (other than the reserve node)
/// gets a retreat order.
pub proof fn law_retreats_only_lost_sieges(b: &CyclerBoard, k: int)
    requires
        b.wf(),
        0 <= k <= b.n(),
    ensures
        forall|i: int|
            0 <= i < b.retreats_upto(k).len() ==> {
                let o = #[trigger] b.retreats_upto(k)[i];
                &&& o.from < k
                &&& o.amount == Amount::All
                &&& b.owner@[o.from as int] != PosOwner::Me
                &&& b.idle@[o.from as int] > 0
                &&& b.foe_at@[o.from as int] > b.idle@[o.from as int] + b.inbound@[o.from as int]
            },
        forall|t: int|
            0 <= t < k && b.owner@[t] != PosOwner::Me && b.storage != Some(t as usize) && b.idle@[t] > 0
                && b.foe_at@[t] > b.idle@[t] + b.inbound@[t] ==> exists|i: int|
                0 <= i < b.retreats_upto(k).len() && (#[trigger] b.retreats_upto(k)[i]).from == t,
    decreases k,
{
    if k > 0 {
        law_retreats_only_lost_sieges(b, k - 1);
        let prev = b.retreats_upto(k - 1);
        let cur = b.retreats_upto(k);
        assert forall|i: int| 0 <= i < prev.len() implies #[trigger] cur[i] == prev[i] by {}
        assert forall|t: int|
            0 <= t < k && b.owner@[t] != PosOwner::Me && b.storage != Some(t as usize) && b.idle@[t] > 0
                && b.foe_at@[t] > b.idle@[t] + b.inbound@[t] implies exists|i: int|
                0 <= i < cur.len() && (#[trigger] cur[i]).from == t by {
            if t < k - 1 {
                let i = choose|i: int| 0 <= i < prev.len() && (#[trigger] prev[i]).from == t;
                assert(cur[i] == prev[i]);
            } else {
                assert(b.retreating(t));
                assert(cur[cur.len() - 1].from == t);
            }
        }
    }
}

/// Pool orders never pull a holding siege.
proof fn lemma_pool_orders_spare(b: &CyclerBoard, g: int, k: int)
    requires
        b.wf(),
        0 <= k <= b.n(),
    ensures
        forall|i: int| 0 <= i < b.pool_orders_upto(g, k).len() ==> !holding_siege(b, (#[trigger] b.pool_orders_upto(g, k)[i]).from as int),
    decreases k,
{
    if k > 0 {
        lemma_pool_orders_spare(b, g, k - 1);
        let prev = b.pool_orders_upto(g, k - 1);
        let cur = b.pool_orders_upto(g, k);
        assert forall|i: int| 0 <= i < cur.len() implies !holding_siege(b, (#[trigger] cur[i]).from as int) by {
            if i < prev.len() {
                assert(cur[i] == prev[i]);
            } else {
                assert(cur[i].from == k - 1);
                assert(!b.committed(k - 1));
            }
        }
    }
}

/// **A holding siege is never pulled off.** No order of a Cycler turn moves ships away from
/// a siege the seat wins or ties (force there, idle plus inbound, at least the foes there).
pub proof fn law_turn_spares_holding_sieges(b: &CyclerBoard, massing: Option<usize>, tick: u64, seat: Faction)
    requires
        b.wf(),
    ensures
        forall|i: int|
            0 <= i < cycler_spec(b, massing, tick, seat).0.len() ==> !holding_siege(
                b,
                (#[trigger] cycler_spec(b, massing, tick, seat).0[i]).from as int,
            ),
{
    let n = b.n();
    let orders = cycler_spec(b, massing, tick, seat).0;
    if b.any_mine() && b.my_total != 0 {
        let r = b.retreats_upto(n);
        law_retreats_only_lost_sieges(b, n);
        assert forall|i: int| 0 <= i < r.len() implies !holding_siege(b, (#[trigger] r[i]).from as int) by {}
        assert forall|t: int| 0 <= t < n && #[trigger] holding_siege(b, t) implies b.committed(t) by {}
        lemma_cycle_from_owned(b, n);
        assert forall|i: int| 0 <= i < orders.len() implies !holding_siege(b, (#[trigger] orders[i]).from as int) by {
            if i < r.len() {
                assert(orders[i] == r[i]);
            } else {
                match b.defend_target() {
                    Some(t) => {
                        assert(orders == r + b.pool_orders_upto(t as int, n));
                        lemma_pool_orders_spare(b, t as int, n);
                        assert(orders[i] == b.pool_orders_upto(t as int, n)[i - r.len()]);
                    },
                    None => {
                        let q = b.qualifying_upto(n);
                        match massing {
                            Some(g) => {
                                if b.mine(g as int) && 10 * b.idle@[g as int] >= 9 * b.pool() && q.len() > 0 {
                                    assert(orders[i].from == g);
                                } else {
                                    lemma_pool_orders_spare(b, g as int, n);
                                    assert(orders[i] == b.pool_orders_upto(g as int, n)[i - r.len()]);
                                }
                            },
                            None => {
                                if q.len() > 0 {
                                    let g = b.gather_site();
                                    lemma_pool_orders_spare(b, g as int, n);
                                    assert(orders[i] == b.pool_orders_upto(g as int, n)[i - r.len()]);
                                } else {
                                    assert(orders[i] == b.cycle_upto(n)[i - r.len()]);
                                }
                            },
                        }
                    },
                }
            }
        }
    }
}

/// The stateful Cycler driver: one per enemy seat; its only state is the strike being
/// assembled in each struct.
#[derive(Debug, Clone)]
pub struct CyclerController {
    /// The seat this controller plays.
    pub seat: Faction,
    /// Per-struct massing state: `Some(gather)` while a strike is being assembled there.
    pub massing: Vec<Option<usize>>,
}

impl CyclerController {
    /// A fresh controller for `seat`, assembling nothing.
    pub fn new(seat: Faction) -> (r: CyclerController)
        ensures
            r.seat == seat,
            r.massing@.len() == 0,
    {
        CyclerController { seat, massing: Vec::new() }
    }

    /// Track at least `n` structs: structs not seen before start with no strike assembling.
    pub fn track_structs(&mut self, n: usize)
        ensures
            final(self).seat == old(self).seat,
            final(self).massing@.len() == if old(self).massing@.len() < n {
                n as nat
            } else {
                old(self).massing@.len()
            },
            forall|p: int| 0 <= p < old(self).massing@.len() ==> #[trigger] final(self).massing@[p] == old(self).massing@[p],
            forall|p: int|
                old(self).massing@.len() <= p < final(self).massing@.len() ==> #[trigger] final(self).massing@[p] is None,
    {
        let ghost start = self.massing@;
        let ghost seat = self.seat;
        while self.massing.len() < n
            invariant
                self.seat == seat,
                start.len() <= self.massing@.len(),
                self.massing@.len() <= if start.len() < n {
                    n as nat
                } else {
                    start.len()
                },
                forall|p: int| 0 <= p < start.len() ==> #[trigger] self.massing@[p] == start[p],
                forall|p: int| start.len() <= p < self.massing@.len() ==> #[trigger] self.massing@[p] is None,
            decreases n - self.massing@.len(),
        {
            self.massing.push(None);
        }
    }

    /// Play struct `sid` for one decision tick (see [`cycler_turn`]): returns the orders to
    /// issue and records the struct's new massing state.
    pub fn play_struct(&mut self, sid: usize, b: &CyclerBoard, tick: u64) -> (orders: Vec<SubOrder>)
        requires
            sid < old(self).massing@.len(),
            b.wf(),
            old(self).massing@[sid as int] matches Some(g) ==> g < b.n(),
        ensures
            final(self).seat == old(self).seat,
            orders@ == cycler_spec(b, old(self).massing@[sid as int], tick, old(self).seat).0,
            final(self).massing@ == old(self).massing@.update(
                sid as int,
                cycler_spec(b, old(self).massing@[sid as int], tick, old(self).seat).1,
            ),
    {
        let turn = cycler_turn(b, self.massing[sid], tick, self.seat);
        self.massing.set(sid, turn.massing);
        turn.orders
    }
}

} // verus!
