//! **Simple** — the stateful campaign colonizer: its frozen brain versions and its persistent
//! **departure ledger**.
//!
//! A committed assault ([`Op`]) is a set of staggered [`Leg`]s timed to land together. A leg
//! that has not departed yet (`sent == false`) *reserves* its ships on its source and counts
//! toward the force already working on its destination.

use vstd::prelude::*;
use vstd::utf8::{encode_utf8, encode_utf8_decode_utf8, is_ascii_chars, is_ascii_chars_encode_utf8};
use vstd::string::StringSliceAdditionalSpecFns;

verus! {

// =====================================================================================
// Frozen brain versions.
// =====================================================================================

/// Which frozen snapshot of the Simple brain a seat fields. Declared per level and never
/// changed for a shipped mission.
#[derive(Debug, Clone, Copy, PartialEq, Eq, Structural)]
pub enum SimpleVersion {
    /// The first frozen brain snapshot.
    V1,
}

impl Default for SimpleVersion {
    fn default() -> (r: SimpleVersion)
        ensures
            r == SimpleVersion::V1,
    {
        SimpleVersion::V1
    }
}

/// The level-file token that names a version.
pub open spec fn version_token(v: SimpleVersion) -> Seq<char> {
    match v {
        SimpleVersion::V1 => seq!['v', '1'],
    }
}

/// The version a level-file token names, if any.
pub open spec fn token_version(s: Seq<char>) -> Option<SimpleVersion> {
    if s == version_token(SimpleVersion::V1) {
        Some(SimpleVersion::V1)
    } else {
        None
    }
}

/// The UTF-8 bytes of the `v1` token.
proof fn lemma_v1_bytes()
    ensures
        encode_utf8(seq!['v', '1']) == seq![118u8, 49u8],
{
    let c = seq!['v', '1'];
    assert(is_ascii_chars(c));
    is_ascii_chars_encode_utf8(c);
    assert(encode_utf8(c) =~= seq![118u8, 49u8]);
}

impl SimpleVersion {
    /// The level-file token / display name (`"v1"`).
    pub fn name(self) -> (r: &'static str)
        ensures
            r@ == version_token(self),
    {
        proof {
            reveal_strlit("v1");
        }
        match self {
            SimpleVersion::V1 => "v1",
        }
    }

    /// Parse a level-file version token; `None` if unknown.
    pub fn parse(s: &str) -> (r: Option<SimpleVersion>)
        ensures
            r == token_version(s@),
    {
        let b = s.as_bytes();
        proof {
            lemma_v1_bytes();
            encode_utf8_decode_utf8(s@);
            encode_utf8_decode_utf8(seq!['v', '1']);
        }
        if b.len() == 2 && b[0] == 118u8 && b[1] == 49u8 {
            assert(b@ =~= seq![118u8, 49u8]);
            Some(SimpleVersion::V1)
        } else {
            proof {
                if s@ == seq!['v', '1'] {
                    assert(b@ =~= seq![118u8, 49u8]);
                }
            }
            None
        }
    }
}

/// Naming a version and parsing the name back gives the version: every level-file token the
/// library writes, it reads.
pub proof fn lemma_version_name_round_trip(v: SimpleVersion)
    ensures
        token_version(version_token(v)) == Some(v),
{
}

// =====================================================================================
// The departure ledger.
// =====================================================================================

/// One leg of a synchronised taskforce: `count` ships from `src` to `tgt`, scheduled to
/// **depart** at `depart_at` so the whole op lands together. `sent` flips once the move has
/// been issued.
#[derive(Debug, Clone, Copy, PartialEq, Eq, Structural)]
pub struct Leg {
    /// The source position.
    pub src: usize,
    /// This leg's own destination (the op's target, or the owned teleporter of a routed pair).
    pub tgt: usize,
    /// Ships on the leg.
    pub count: u32,
    /// The tick the leg departs.
    pub depart_at: u64,
    /// Whether the leg has been dispatched.
    pub sent: bool,
}

/// A committed assault on `target`: staggered legs timed to all arrive by `land_at`.
#[derive(Debug, Clone, PartialEq, Eq)]
pub struct Op {
    /// The position under assault.
    pub target: usize,
    /// The tick every leg has landed by.
    pub land_at: u64,
    /// The legs, in commit order.
    pub legs: Vec<Leg>,
}

/// A concrete move to issue this tick. `count == u32::MAX` means "everything idle".
#[derive(Debug, Clone, Copy, PartialEq, Eq, Structural)]
pub struct Move {
    /// The source position.
    pub src: usize,
    /// The destination position.
    pub tgt: usize,
    /// Ships to move (`u32::MAX`: all idle ships).
    pub count: u32,
}

/// The ships of `l` that are still reserved on source `s` (`by_src`) or still owed to
/// destination `s` (otherwise): its count if it is unsent and has that end, else zero.
pub open spec fn pending(l: Leg, by_src: bool, s: usize) -> nat {
    if !l.sent && (if by_src {
        l.src == s
    } else {
        l.tgt == s
    }) {
        l.count as nat
    } else {
        0
    }
}

/// Sum of [`pending`] over a list of legs.
pub open spec fn legs_pending(legs: Seq<Leg>, by_src: bool, s: usize) -> nat
    decreases legs.len(),
{
    if legs.len() == 0 {
        0
    } else {
        legs_pending(legs.drop_last(), by_src, s) + pending(legs.last(), by_src, s)
    }
}

/// The value of an op as the ledger sees it: target, landing tick, legs.
pub open spec fn op_view(op: Op) -> (usize, u64, Seq<Leg>) {
    (op.target, op.land_at, op.legs@)
}

/// The ledger as a sequence of op values.
pub open spec fn ledger_view(ops: Seq<Op>) -> Seq<(usize, u64, Seq<Leg>)> {
    ops.map_values(|op: Op| op_view(op))
}

/// Sum of [`pending`] over every leg of every op.
pub open spec fn ops_pending(ops: Seq<(usize, u64, Seq<Leg>)>, by_src: bool, s: usize) -> nat
    decreases ops.len(),
{
    if ops.len() == 0 {
        0
    } else {
        ops_pending(ops.drop_last(), by_src, s) + legs_pending(ops.last().2, by_src, s)
    }
}

/// Ships reserved on `s` by unsent legs.
pub open spec fn committed_out_spec(ops: Seq<Op>, s: usize) -> nat {
    ops_pending(ledger_view(ops), true, s)
}

/// Ships still owed to `t` by unsent legs (by each leg's own destination).
pub open spec fn committed_in_spec(ops: Seq<Op>, t: usize) -> nat {
    ops_pending(ledger_view(ops), false, t)
}

/// A prefix of the legs has no more pending ships than the whole list.
pub proof fn lemma_legs_pending_prefix(legs: Seq<Leg>, by_src: bool, s: usize, j: int)
    requires
        0 <= j <= legs.len(),
    ensures
        legs_pending(legs.take(j), by_src, s) <= legs_pending(legs, by_src, s),
    decreases legs.len() - j,
{
    if j < legs.len() {
        lemma_legs_pending_prefix(legs, by_src, s, j + 1);
        assert(legs.take(j + 1).drop_last() =~= legs.take(j));
    } else {
        assert(legs.take(j) =~= legs);
    }
}

/// A prefix of the ops has no more pending ships than the whole ledger.
pub proof fn lemma_ops_pending_prefix(ops: Seq<(usize, u64, Seq<Leg>)>, by_src: bool, s: usize, i: int)
    requires
        0 <= i <= ops.len(),
    ensures
        ops_pending(ops.take(i), by_src, s) <= ops_pending(ops, by_src, s),
    decreases ops.len() - i,
{
    if i < ops.len() {
        lemma_ops_pending_prefix(ops, by_src, s, i + 1);
        assert(ops.take(i + 1).drop_last() =~= ops.take(i));
    } else {
        assert(ops.take(i) =~= ops);
    }
}

/// Sum of the pending ships of the ledger, by source or by destination.
pub(crate) fn sum_pending(ops: &Vec<Op>, by_src: bool, s: usize) -> (r: u32)
    requires
        ops_pending(ledger_view(ops@), by_src, s) <= u32::MAX,
    ensures
        r == ops_pending(ledger_view(ops@), by_src, s),
{
    let ghost lv = ledger_view(ops@);
    let mut total: u32 = 0;
    let mut i: usize = 0;
    while i < ops.len()
        invariant
            0 <= i <= ops@.len(),
            lv == ledger_view(ops@),
            ops_pending(lv, by_src, s) <= u32::MAX,
            total == ops_pending(lv.take(i as int), by_src, s),
        decreases ops@.len() - i,
    {
        let legs = &ops[i].legs;
        let ghost base = total as nat;
        proof {
            assert(lv.take(i + 1).drop_last() =~= lv.take(i as int));
            assert(lv.take(i + 1).last() == lv[i as int]);
            assert(lv[i as int].2 == legs@);
            lemma_ops_pending_prefix(lv, by_src, s, i + 1);
        }
        let mut j: usize = 0;
        while j < legs.len()
            invariant
                0 <= j <= legs@.len(),
                base + legs_pending(legs@, by_src, s) <= u32::MAX,
                total == base + legs_pending(legs@.take(j as int), by_src, s),
            decreases legs@.len() - j,
        {
            let l = legs[j];
            proof {
                assert(legs@.take(j + 1).drop_last() =~= legs@.take(j as int));
                assert(legs@.take(j + 1).last() == l);
                lemma_legs_pending_prefix(legs@, by_src, s, j + 1);
            }
            let hit = if by_src {
                l.src == s
            } else {
                l.tgt == s
            };
            if !l.sent && hit {
                total = total + l.count;
            }
            j = j + 1;
        }
        proof {
            assert(legs@.take(legs@.len() as int) =~= legs@);
        }
        i = i + 1;
    }
    proof {
        assert(lv.take(ops@.len() as int) =~= lv);
    }
    total
}

/// Ships from `s` reserved by **unsent** legs: they have not left yet but are spoken for.
pub fn committed_out(ops: &Vec<Op>, s: usize) -> (r: u32)
    requires
        committed_out_spec(ops@, s) <= u32::MAX,
    ensures
        r == committed_out_spec(ops@, s),
{
    sum_pending(ops, true, s)
}

/// Force already committed toward `t` by **unsent** legs, counted by each leg's own
/// destination (a routed pair contributes once, through its final hop).
pub fn committed_in(ops: &Vec<Op>, t: usize) -> (r: u32)
    requires
        committed_in_spec(ops@, t) <= u32::MAX,
    ensures
        r == committed_in_spec(ops@, t),
{
    sum_pending(ops, false, t)
}

} // verus!
