//! Opponent inference over an observation log: the strategic axes with their rock-paper-scissors
//! counters, and the integer tallies behind the strategic mix and the per-module tendencies.

use vstd::prelude::*;
use crate::observe::{FractionBand, FrontierBand, GarrisonBand, MoveKind, OwnershipBand, Sample, ThreatBand};
use crate::strategy::StrategicPolicy;

verus! {

/// The three axes a strategic mix can be dominated by.
#[derive(Debug, Clone, Copy, PartialEq, Eq, Structural)]
pub enum StrategicAxis {
    /// Expansion-dominant.
    Colonize,
    /// Defense-dominant.
    Defend,
    /// Aggression-dominant.
    Attack,
}

impl StrategicAxis {
    /// A short human-readable name.
    pub fn name(self) -> (r: &'static str)
        ensures
            r@ == match self {
                StrategicAxis::Colonize => "Colonize"@,
                StrategicAxis::Defend => "Defend"@,
                StrategicAxis::Attack => "Attack"@,
            },
    {
        match self {
            StrategicAxis::Colonize => "Colonize",
            StrategicAxis::Defend => "Defend",
            StrategicAxis::Attack => "Attack",
        }
    }

    /// The rock-paper-scissors counter to a seat dominated by this axis: Colonize is countered by
    /// Attack, Attack by Defend, Defend by Colonize.
    pub fn rps_counter(self) -> (r: StrategicPolicy)
        ensures
            r == match self {
                StrategicAxis::Colonize => StrategicPolicy::Attack,
                StrategicAxis::Attack => StrategicPolicy::Defend,
                StrategicAxis::Defend => StrategicPolicy::Colonize,
            },
    {
        match self {
            StrategicAxis::Colonize => StrategicPolicy::Attack,
            StrategicAxis::Attack => StrategicPolicy::Defend,
            StrategicAxis::Defend => StrategicPolicy::Colonize,
        }
    }
}

/// The sample tests the inference counts.
#[derive(Debug, Clone, Copy, PartialEq, Eq, Structural)]
pub enum SampleTest {
    /// A colonize choice.
    Colonize,
    /// A reinforce choice.
    Reinforce,
    /// A strike choice.
    Strike,
    /// A hold taken below the soft cap (a defensive hold).
    DefensiveHold,
    /// A rear-source decision, saturation holds excluded.
    RearSlice,
    /// ... that guards the rear (a reinforce or a hold).
    RearGuard,
    /// A strike decision.
    StrikeSlice,
    /// ... committed at the heavy band.
    HeavyStrike,
    /// A decision taken over the soft cap.
    OverCapSlice,
    /// ... that holds anyway.
    OverCapHold,
    /// An active decision from a front source.
    FrontActiveSlice,
    /// ... that colonizes.
    FrontColonize,
    /// A decision taken behind on territory while threatened.
    LosingSlice,
    /// ... that still strikes.
    LosingStrike,
}

/// Whether sample `s` passes test `t`.
pub open spec fn passes(t: SampleTest, s: Sample) -> bool {
    let b = s.bucket;
    let k = s.choice.kind;
    let rear = b.frontier == FrontierBand::Rear && !(k == MoveKind::Hold && b.garrison
        == GarrisonBand::Over);
    let front_active = b.frontier == FrontierBand::Front && k != MoveKind::Hold;
    let losing = b.ownership == OwnershipBand::Behind && b.threat == ThreatBand::Threatened;
    match t {
        SampleTest::Colonize => k == MoveKind::Colonize,
        SampleTest::Reinforce => k == MoveKind::Reinforce,
        SampleTest::Strike => k == MoveKind::Strike,
        SampleTest::DefensiveHold => k == MoveKind::Hold && b.garrison != GarrisonBand::Over,
        SampleTest::RearSlice => rear,
        SampleTest::RearGuard => rear && (k == MoveKind::Reinforce || k == MoveKind::Hold),
        SampleTest::StrikeSlice => k == MoveKind::Strike,
        SampleTest::HeavyStrike => k == MoveKind::Strike && s.choice.band == FractionBand::Heavy,
        SampleTest::OverCapSlice => b.garrison == GarrisonBand::Over,
        SampleTest::OverCapHold => b.garrison == GarrisonBand::Over && k == MoveKind::Hold,
        SampleTest::FrontActiveSlice => front_active,
        SampleTest::FrontColonize => front_active && k == MoveKind::Colonize,
        SampleTest::LosingSlice => losing,
        SampleTest::LosingStrike => losing && k == MoveKind::Strike,
    }
}

/// How many samples of `s` pass test `t`.
pub open spec fn count_passing(s: Seq<Sample>, t: SampleTest) -> nat
    decreases s.len(),
{
    if s.len() == 0 {
        0
    } else {
        count_passing(s.drop_last(), t) + if passes(t, s.last()) {
            1nat
        } else {
            0nat
        }
    }
}

/// A `(hits, n)` tally: `n` samples in a module's slice, `hits` of them showing the behaviour.
#[derive(Debug, Clone, Copy, PartialEq, Eq, Structural)]
pub struct Tally {
    /// Samples showing the behaviour.
    pub hits: u32,
    /// Samples in the slice.
    pub n: u32,
}

/// The tallies behind the five per-module tendencies.
#[derive(Debug, Clone, Copy, PartialEq, Eq, Structural)]
pub struct ModuleTallies {
    /// Rear decisions (saturation holds excluded) and those that guard the rear.
    pub guards_rear: Tally,
    /// Strikes and those committed heavy.
    pub over_commits_attacks: Tally,
    /// Over-cap decisions and those that hold anyway.
    pub hoards_past_cap: Tally,
    /// Active front decisions and those that colonize.
    pub nearest_first_expand: Tally,
    /// Behind-and-threatened decisions and those that strike.
    pub feeds_losing_grind: Tally,
}

/// The unweighted numerators of the strategic mix.
#[derive(Debug, Clone, Copy, PartialEq, Eq, Structural)]
pub struct KindCounts {
    /// Colonize choices.
    pub colonize: u32,
    /// Reinforce choices.
    pub reinforce: u32,
    /// Strike choices.
    pub strike: u32,
    /// Holds taken below the soft cap (folded into defend at a discount).
    pub defensive_holds: u32,
    /// Active (non-hold) choices.
    pub active: u32,
    /// All samples.
    pub total: u32,
}

/// The tally of `hit` within `slice` over `s`.
pub open spec fn tally_of(s: Seq<Sample>, hit: SampleTest, slice: SampleTest) -> Tally {
    Tally { hits: count_passing(s, hit) as u32, n: count_passing(s, slice) as u32 }
}

/// A sample passing a module's hit test also passes its slice test.
proof fn lemma_hit_in_slice(s: Seq<Sample>, hit: SampleTest, slice: SampleTest)
    requires
        forall|x: Sample| passes(hit, x) ==> passes(slice, x),
    ensures
        count_passing(s, hit) <= count_passing(s, slice),
    decreases s.len(),
{
    if s.len() > 0 {
        lemma_hit_in_slice(s.drop_last(), hit, slice);
    }
}

/// Counting over one more sample.
proof fn lemma_count_step(s: Seq<Sample>, i: int, t: SampleTest)
    requires
        0 <= i < s.len(),
    ensures
        count_passing(s.take(i + 1), t) == count_passing(s.take(i), t) + if passes(t, s[i]) {
            1nat
        } else {
            0nat
        },
        count_passing(s.take(i), t) <= i,
    decreases i,
{
    assert(s.take(i + 1).drop_last() =~= s.take(i));
    if i > 0 {
        lemma_count_step(s, i - 1, t);
    }
}

/// No more samples pass a test than there are samples.
proof fn lemma_count_le_len(s: Seq<Sample>, t: SampleTest)
    ensures
        count_passing(s, t) <= s.len(),
    decreases s.len(),
{
    if s.len() > 0 {
        lemma_count_le_len(s.drop_last(), t);
    }
}

/// One more sample adds one to a count when it passes the test.
proof fn lemma_count_push(s: Seq<Sample>, x: Sample, t: SampleTest)
    ensures
        count_passing(s.push(x), t) == count_passing(s, t) + if passes(t, x) {
            1nat
        } else {
            0nat
        },
{
    assert(s.push(x).drop_last() =~= s);
}

/// The count of one more sample as a bumped count.
pub open spec fn bumped(c: u32, b: bool) -> int {
    c + if b {
        1int
    } else {
        0int
    }
}

/// **The tallies count each observed sample exactly where it belongs.** An empty log tallies
/// nothing; observing one more sample `x` (situation `b`, choice kind `k`) adds one to:
/// - the rear slice when `b` is a rear frontier and `x` is not a hold over the soft cap, and to
///   its guards when it also reinforces or holds (below the cap);
/// - the strike slice when `k` strikes, and to its over-commits when the strike is heavy;
/// - the over-cap slice when `b` is over the soft cap, and to its hoards when `k` holds;
/// - the front slice when `b` is a front frontier and `k` is no hold, and to its nearest-first
///   expansions when `k` colonizes;
/// - the losing slice when `b` is behind on territory and threatened, and to its fed grinds
///   when `k` strikes;
/// and leaves every other tally as it was.
pub proof fn law_tallies_count_each_sample(s: Seq<Sample>, x: Sample)
    requires
        s.len() + 1 < u32::MAX,
    ensures
        tally_of(Seq::empty(), SampleTest::RearGuard, SampleTest::RearSlice) == (Tally { hits: 0, n: 0 }),
        tally_of(Seq::empty(), SampleTest::HeavyStrike, SampleTest::StrikeSlice) == (Tally { hits: 0, n: 0 }),
        tally_of(Seq::empty(), SampleTest::OverCapHold, SampleTest::OverCapSlice) == (Tally { hits: 0, n: 0 }),
        tally_of(Seq::empty(), SampleTest::FrontColonize, SampleTest::FrontActiveSlice) == (Tally { hits: 0, n: 0 }),
        tally_of(Seq::empty(), SampleTest::LosingStrike, SampleTest::LosingSlice) == (Tally { hits: 0, n: 0 }),
        tally_of(s.push(x), SampleTest::RearGuard, SampleTest::RearSlice).n == bumped(
            tally_of(s, SampleTest::RearGuard, SampleTest::RearSlice).n,
            x.bucket.frontier == FrontierBand::Rear && !(x.choice.kind == MoveKind::Hold && x.bucket.garrison
                == GarrisonBand::Over),
        ),
        tally_of(s.push(x), SampleTest::RearGuard, SampleTest::RearSlice).hits == bumped(
            tally_of(s, SampleTest::RearGuard, SampleTest::RearSlice).hits,
            x.bucket.frontier == FrontierBand::Rear && (x.choice.kind == MoveKind::Reinforce || (x.choice.kind
                == MoveKind::Hold && x.bucket.garrison != GarrisonBand::Over)),
        ),
        tally_of(s.push(x), SampleTest::HeavyStrike, SampleTest::StrikeSlice).n == bumped(
            tally_of(s, SampleTest::HeavyStrike, SampleTest::StrikeSlice).n,
            x.choice.kind == MoveKind::Strike,
        ),
        tally_of(s.push(x), SampleTest::HeavyStrike, SampleTest::StrikeSlice).hits == bumped(
            tally_of(s, SampleTest::HeavyStrike, SampleTest::StrikeSlice).hits,
            x.choice.kind == MoveKind::Strike && x.choice.band == FractionBand::Heavy,
        ),
        tally_of(s.push(x), SampleTest::OverCapHold, SampleTest::OverCapSlice).n == bumped(
            tally_of(s, SampleTest::OverCapHold, SampleTest::OverCapSlice).n,
            x.bucket.garrison == GarrisonBand::Over,
        ),
        tally_of(s.push(x), SampleTest::OverCapHold, SampleTest::OverCapSlice).hits == bumped(
            tally_of(s, SampleTest::OverCapHold, SampleTest::OverCapSlice).hits,
            x.bucket.garrison == GarrisonBand::Over && x.choice.kind == MoveKind::Hold,
        ),
        tally_of(s.push(x), SampleTest::FrontColonize, SampleTest::FrontActiveSlice).n == bumped(
            tally_of(s, SampleTest::FrontColonize, SampleTest::FrontActiveSlice).n,
            x.bucket.frontier == FrontierBand::Front && x.choice.kind != MoveKind::Hold,
        ),
        tally_of(s.push(x), SampleTest::FrontColonize, SampleTest::FrontActiveSlice).hits == bumped(
            tally_of(s, SampleTest::FrontColonize, SampleTest::FrontActiveSlice).hits,
            x.bucket.frontier == FrontierBand::Front && x.choice.kind == MoveKind::Colonize,
        ),
        tally_of(s.push(x), SampleTest::LosingStrike, SampleTest::LosingSlice).n == bumped(
            tally_of(s, SampleTest::LosingStrike, SampleTest::LosingSlice).n,
            x.bucket.ownership == OwnershipBand::Behind && x.bucket.threat == ThreatBand::Threatened,
        ),
        tally_of(s.push(x), SampleTest::LosingStrike, SampleTest::LosingSlice).hits == bumped(
            tally_of(s, SampleTest::LosingStrike, SampleTest::LosingSlice).hits,
            x.bucket.ownership == OwnershipBand::Behind && x.bucket.threat == ThreatBand::Threatened
                && x.choice.kind == MoveKind::Strike,
        ),
{
    let tests = seq![
        SampleTest::RearGuard,
        SampleTest::RearSlice,
        SampleTest::HeavyStrike,
        SampleTest::StrikeSlice,
        SampleTest::OverCapHold,
        SampleTest::OverCapSlice,
        SampleTest::FrontColonize,
        SampleTest::FrontActiveSlice,
        SampleTest::LosingStrike,
        SampleTest::LosingSlice,
    ];
    assert forall|i: int| 0 <= i < tests.len() implies count_passing(s.push(x), #[trigger] tests[i]) == count_passing(
        s,
        tests[i],
    ) + (if passes(tests[i], x) {
        1nat
    } else {
        0nat
    }) && count_passing(s, tests[i]) <= s.len() by {
        lemma_count_push(s, x, tests[i]);
        lemma_count_le_len(s, tests[i]);
    }
    assert(tests[0] == SampleTest::RearGuard);
    assert(tests[1] == SampleTest::RearSlice);
    assert(tests[2] == SampleTest::HeavyStrike);
    assert(tests[3] == SampleTest::StrikeSlice);
    assert(tests[4] == SampleTest::OverCapHold);
    assert(tests[5] == SampleTest::OverCapSlice);
    assert(tests[6] == SampleTest::FrontColonize);
    assert(tests[7] == SampleTest::FrontActiveSlice);
    assert(tests[8] == SampleTest::LosingStrike);
    assert(tests[9] == SampleTest::LosingSlice);
}

/// **The strategic-mix counts count each sample by its choice.** An empty log counts nothing;
/// one more sample adds one to the colonize, reinforce or strike count by its choice kind, and
/// to the defensive holds when it holds below the soft cap.
pub proof fn law_kind_counts_count_each_sample(s: Seq<Sample>, x: Sample)
    ensures
        count_passing(Seq::empty(), SampleTest::Colonize) == 0,
        count_passing(Seq::empty(), SampleTest::Reinforce) == 0,
        count_passing(Seq::empty(), SampleTest::Strike) == 0,
        count_passing(Seq::empty(), SampleTest::DefensiveHold) == 0,
        count_passing(s.push(x), SampleTest::Colonize) == count_passing(s, SampleTest::Colonize) + if x.choice.kind
            == MoveKind::Colonize {
            1int
        } else {
            0int
        },
        count_passing(s.push(x), SampleTest::Reinforce) == count_passing(s, SampleTest::Reinforce) + if x.choice.kind
            == MoveKind::Reinforce {
            1int
        } else {
            0int
        },
        count_passing(s.push(x), SampleTest::Strike) == count_passing(s, SampleTest::Strike) + if x.choice.kind
            == MoveKind::Strike {
            1int
        } else {
            0int
        },
        count_passing(s.push(x), SampleTest::DefensiveHold) == count_passing(s, SampleTest::DefensiveHold) + if x.choice.kind
            == MoveKind::Hold && x.bucket.garrison != GarrisonBand::Over {
            1int
        } else {
            0int
        },
{
    lemma_count_push(s, x, SampleTest::Colonize);
    lemma_count_push(s, x, SampleTest::Reinforce);
    lemma_count_push(s, x, SampleTest::Strike);
    lemma_count_push(s, x, SampleTest::DefensiveHold);
}

/// Increment a counter when `b`.
fn bump(c: u32, b: bool) -> (r: u32)
    requires
        c < u32::MAX,
    ensures
        r == c + if b {
            1int
        } else {
            0int
        },
{
    if b {
        c + 1
    } else {
        c
    }
}

/// The five per-module tallies over the observation stream.
pub fn module_tallies(samples: &Vec<Sample>) -> (r: ModuleTallies)
    requires
        samples@.len() < u32::MAX,
    ensures
        r.guards_rear == tally_of(samples@, SampleTest::RearGuard, SampleTest::RearSlice),
        r.over_commits_attacks == tally_of(samples@, SampleTest::HeavyStrike, SampleTest::StrikeSlice),
        r.hoards_past_cap == tally_of(samples@, SampleTest::OverCapHold, SampleTest::OverCapSlice),
        r.nearest_first_expand == tally_of(samples@, SampleTest::FrontColonize, SampleTest::FrontActiveSlice),
        r.feeds_losing_grind == tally_of(samples@, SampleTest::LosingStrike, SampleTest::LosingSlice),
        r.guards_rear.hits <= r.guards_rear.n,
        r.over_commits_attacks.hits <= r.over_commits_attacks.n,
        r.hoards_past_cap.hits <= r.hoards_past_cap.n,
        r.nearest_first_expand.hits <= r.nearest_first_expand.n,
        r.feeds_losing_grind.hits <= r.feeds_losing_grind.n,
{
    let ghost s = samples@;
    let mut gr_h: u32 = 0;
    let mut gr_n: u32 = 0;
    let mut oc_h: u32 = 0;
    let mut oc_n: u32 = 0;
    let mut hp_h: u32 = 0;
    let mut hp_n: u32 = 0;
    let mut nf_h: u32 = 0;
    let mut nf_n: u32 = 0;
    let mut fg_h: u32 = 0;
    let mut fg_n: u32 = 0;
    let mut i: usize = 0;
    assert(s.take(0) =~= Seq::<Sample>::empty());
    while i < samples.len()
        invariant
            s == samples@,
            s.len() < u32::MAX,
            0 <= i <= s.len(),
            gr_h == count_passing(s.take(i as int), SampleTest::RearGuard),
            gr_n == count_passing(s.take(i as int), SampleTest::RearSlice),
            oc_h == count_passing(s.take(i as int), SampleTest::HeavyStrike),
            oc_n == count_passing(s.take(i as int), SampleTest::StrikeSlice),
            hp_h == count_passing(s.take(i as int), SampleTest::OverCapHold),
            hp_n == count_passing(s.take(i as int), SampleTest::OverCapSlice),
            nf_h == count_passing(s.take(i as int), SampleTest::FrontColonize),
            nf_n == count_passing(s.take(i as int), SampleTest::FrontActiveSlice),
            fg_h == count_passing(s.take(i as int), SampleTest::LosingStrike),
            fg_n == count_passing(s.take(i as int), SampleTest::LosingSlice),
        decreases s.len() - i,
    {
        let x = samples[i];
        proof {
            lemma_count_step(s, i as int, SampleTest::RearGuard);
            lemma_count_step(s, i as int, SampleTest::RearSlice);
            lemma_count_step(s, i as int, SampleTest::HeavyStrike);
            lemma_count_step(s, i as int, SampleTest::StrikeSlice);
            lemma_count_step(s, i as int, SampleTest::OverCapHold);
            lemma_count_step(s, i as int, SampleTest::OverCapSlice);
            lemma_count_step(s, i as int, SampleTest::FrontColonize);
            lemma_count_step(s, i as int, SampleTest::FrontActiveSlice);
            lemma_count_step(s, i as int, SampleTest::LosingStrike);
            lemma_count_step(s, i as int, SampleTest::LosingSlice);
        }
        let b = x.bucket;
        let k = x.choice.kind;
        let rear = b.frontier == FrontierBand::Rear && !(k == MoveKind::Hold && b.garrison
            == GarrisonBand::Over);
        let front_active = b.frontier == FrontierBand::Front && k != MoveKind::Hold;
        let losing = b.ownership == OwnershipBand::Behind && b.threat == ThreatBand::Threatened;
        gr_n = bump(gr_n, rear);
        gr_h = bump(gr_h, rear && (k == MoveKind::Reinforce || k == MoveKind::Hold));
        oc_n = bump(oc_n, k == MoveKind::Strike);
        oc_h = bump(oc_h, k == MoveKind::Strike && x.choice.band == FractionBand::Heavy);
        hp_n = bump(hp_n, b.garrison == GarrisonBand::Over);
        hp_h = bump(hp_h, b.garrison == GarrisonBand::Over && k == MoveKind::Hold);
        nf_n = bump(nf_n, front_active);
        nf_h = bump(nf_h, front_active && k == MoveKind::Colonize);
        fg_n = bump(fg_n, losing);
        fg_h = bump(fg_h, losing && k == MoveKind::Strike);
        i = i + 1;
    }
    assert(s.take(s.len() as int) =~= s);
    proof {
        lemma_hit_in_slice(s, SampleTest::RearGuard, SampleTest::RearSlice);
        lemma_hit_in_slice(s, SampleTest::HeavyStrike, SampleTest::StrikeSlice);
        lemma_hit_in_slice(s, SampleTest::OverCapHold, SampleTest::OverCapSlice);
        lemma_hit_in_slice(s, SampleTest::FrontColonize, SampleTest::FrontActiveSlice);
        lemma_hit_in_slice(s, SampleTest::LosingStrike, SampleTest::LosingSlice);
    }
    ModuleTallies {
        guards_rear: Tally { hits: gr_h, n: gr_n },
        over_commits_attacks: Tally { hits: oc_h, n: oc_n },
        hoards_past_cap: Tally { hits: hp_h, n: hp_n },
        nearest_first_expand: Tally { hits: nf_h, n: nf_n },
        feeds_losing_grind: Tally { hits: fg_h, n: fg_n },
    }
}

/// The unweighted strategic-mix numerators over the observation stream.
pub fn kind_counts(samples: &Vec<Sample>) -> (r: KindCounts)
    requires
        samples@.len() < u32::MAX,
    ensures
        r.colonize == count_passing(samples@, SampleTest::Colonize),
        r.reinforce == count_passing(samples@, SampleTest::Reinforce),
        r.strike == count_passing(samples@, SampleTest::Strike),
        r.defensive_holds == count_passing(samples@, SampleTest::DefensiveHold),
        r.active == r.colonize + r.reinforce + r.strike,
        r.total == samples@.len(),
{
    let ghost s = samples@;
    let mut c: u32 = 0;
    let mut re: u32 = 0;
    let mut st: u32 = 0;
    let mut dh: u32 = 0;
    let mut i: usize = 0;
    assert(s.take(0) =~= Seq::<Sample>::empty());
    while i < samples.len()
        invariant
            s == samples@,
            s.len() < u32::MAX,
            0 <= i <= s.len(),
            c == count_passing(s.take(i as int), SampleTest::Colonize),
            re == count_passing(s.take(i as int), SampleTest::Reinforce),
            st == count_passing(s.take(i as int), SampleTest::Strike),
            dh == count_passing(s.take(i as int), SampleTest::DefensiveHold),
            c + re + st <= i,
        decreases s.len() - i,
    {
        let x = samples[i];
        proof {
            lemma_count_step(s, i as int, SampleTest::Colonize);
            lemma_count_step(s, i as int, SampleTest::Reinforce);
            lemma_count_step(s, i as int, SampleTest::Strike);
            lemma_count_step(s, i as int, SampleTest::DefensiveHold);
        }
        let k = x.choice.kind;
        c = bump(c, k == MoveKind::Colonize);
        re = bump(re, k == MoveKind::Reinforce);
        st = bump(st, k == MoveKind::Strike);
        dh = bump(dh, k == MoveKind::Hold && x.bucket.garrison != GarrisonBand::Over);
        i = i + 1;
    }
    assert(s.take(s.len() as int) =~= s);
    KindCounts {
        colonize: c,
        reinforce: re,
        strike: st,
        defensive_holds: dh,
        active: c + re + st,
        total: samples.len() as u32,
    }
}

} // verus!
