use lib::faction::Faction;
use lib::observe::{
    classify_destination, frontier_band, garrison_band, has_exportable_surplus, ownership_band,
    threat_band, Choice, FractionBand, FractionBucket, FrontierBand, GarrisonBand, MoveKind,
    ObservationLog, OwnershipBand, Sample, SituationBucket, ThreatBand,
};
use lib::position::{PosOwner, PositionInfo, PositionView, Side};
use lib::profile::{kind_counts, module_tallies, StrategicAxis, Tally};
use lib::strategy::StrategicPolicy;

fn board(owners: &[PosOwner]) -> PositionView {
    let n = owners.len();
    let infos = owners
        .iter()
        .enumerate()
        .map(|(i, &owner)| PositionInfo { id: i, owner, my_ships: 5, enemy_ships: 0, contested: false })
        .collect();
    let dist = (0..n).map(|a| (0..n).map(|b| Some((a as i64 - b as i64).unsigned_abs())).collect()).collect();
    PositionView::new(infos, dist).expect("a well-formed board")
}

fn bucket(o: OwnershipBand, g: GarrisonBand, t: ThreatBand, f: FrontierBand) -> SituationBucket {
    SituationBucket { ownership: o, garrison: g, threat: t, frontier: f }
}

fn sample(tick: u64, b: SituationBucket, kind: MoveKind, band: FractionBand) -> Sample {
    Sample { tick, bucket: b, choice: Choice { kind, band } }
}

#[test]
fn ownership_band_compares_owned_counts() {
    assert_eq!(ownership_band(&board(&[PosOwner::Me, PosOwner::Enemy, PosOwner::Enemy])), OwnershipBand::Behind);
    assert_eq!(ownership_band(&board(&[PosOwner::Me, PosOwner::Enemy, PosOwner::Neutral])), OwnershipBand::Even);
    assert_eq!(ownership_band(&board(&[PosOwner::Me, PosOwner::Me, PosOwner::Enemy])), OwnershipBand::Ahead);
}

#[test]
fn threat_band_reads_contest_and_projection() {
    let mut v = board(&[PosOwner::Me, PosOwner::Enemy]);
    assert_eq!(threat_band(&v), ThreatBand::Calm);
    v.set_next_owner(0, Some(Side::Foe));
    assert_eq!(threat_band(&v), ThreatBand::Threatened);
    let mut w = board(&[PosOwner::Me, PosOwner::Enemy]);
    w.infos[0].contested = true;
    assert_eq!(threat_band(&w), ThreatBand::Threatened);
}

#[test]
fn garrison_band_cuts_at_four_and_eight_tenths() {
    let mut v = board(&[PosOwner::Me]);
    for (ratio, band) in [
        (0.0f32, GarrisonBand::Low),
        (0.39, GarrisonBand::Low),
        (0.4, GarrisonBand::Mid),
        (0.79, GarrisonBand::Mid),
        (0.8, GarrisonBand::Over),
        (1.5, GarrisonBand::Over),
    ] {
        v.set_parked_ratio(0, ratio.to_bits() as u64);
        assert_eq!(garrison_band(&v, 0), band, "ratio {ratio}");
    }
}

#[test]
fn frontier_band_needs_an_adjacent_foe() {
    assert_eq!(frontier_band(&vec![true, false, true], &vec![false, true, false]), FrontierBand::Rear);
    assert_eq!(frontier_band(&vec![true, true, false], &vec![false, true, false]), FrontierBand::Front);
    assert_eq!(frontier_band(&vec![], &vec![]), FrontierBand::Rear);
}

#[test]
fn destinations_classify_by_prior_ownership() {
    assert_eq!(classify_destination(false, 3, 0, 0, false, false), MoveKind::Colonize);
    assert_eq!(classify_destination(true, 2, 0, 1, true, false), MoveKind::Strike);
    assert_eq!(classify_destination(true, 2, 1, 1, true, false), MoveKind::Reinforce);
    assert_eq!(classify_destination(true, 0, 0, 2, false, true), MoveKind::Reinforce);
    assert_eq!(classify_destination(true, 0, 2, 2, false, false), MoveKind::Colonize);
}

#[test]
fn exportable_surplus_needs_a_secure_source_above_the_floor() {
    assert!(has_exportable_surplus(true, &vec![1, 5, 2], 4));
    assert!(!has_exportable_surplus(true, &vec![1, 4, 2], 4));
    assert!(!has_exportable_surplus(false, &vec![9], 4));
}

#[test]
fn the_log_keeps_the_first_watched_seat() {
    let mut log = ObservationLog::new();
    assert!(log.is_empty());
    assert_eq!(log.watched(), None);
    let b = bucket(OwnershipBand::Even, GarrisonBand::Low, ThreatBand::Calm, FrontierBand::Front);
    log.push(Faction::Player, sample(1, b, MoveKind::Colonize, FractionBand::Half));
    log.push(Faction::Ai(0), sample(2, b, MoveKind::Hold, FractionBand::Nothing));
    assert_eq!(log.len(), 2);
    assert_eq!(log.watched(), Some(Faction::Player));
}

#[test]
fn bands_and_names() {
    assert_eq!(FractionBand::from_bucket(FractionBucket::Quarter), FractionBand::Light);
    assert_eq!(FractionBand::from_bucket(FractionBucket::Half), FractionBand::Half);
    assert_eq!(FractionBand::from_bucket(FractionBucket::ThreeQuarter), FractionBand::Heavy);
    assert_eq!(FractionBand::from_bucket(FractionBucket::All), FractionBand::Heavy);
    assert_eq!(MoveKind::Hold.name(), "Hold");
    assert_eq!(MoveKind::ACTIVE, [MoveKind::Colonize, MoveKind::Reinforce, MoveKind::Strike]);
    assert_eq!(StrategicAxis::Colonize.name(), "Colonize");
    assert_eq!(StrategicAxis::Colonize.rps_counter(), StrategicPolicy::Attack);
    assert_eq!(StrategicAxis::Attack.rps_counter(), StrategicPolicy::Defend);
    assert_eq!(StrategicAxis::Defend.rps_counter(), StrategicPolicy::Colonize);
}

#[test]
fn kind_counts_tally_the_mix() {
    let b = bucket(OwnershipBand::Even, GarrisonBand::Low, ThreatBand::Calm, FrontierBand::Front);
    let over = bucket(OwnershipBand::Even, GarrisonBand::Over, ThreatBand::Calm, FrontierBand::Rear);
    let mut s = Vec::new();
    for t in 0..6 {
        s.push(sample(t, b, MoveKind::Colonize, FractionBand::Half));
    }
    for t in 6..8 {
        s.push(sample(t, b, MoveKind::Strike, FractionBand::Heavy));
    }
    s.push(sample(8, b, MoveKind::Reinforce, FractionBand::Half));
    s.push(sample(9, b, MoveKind::Hold, FractionBand::Nothing));
    s.push(sample(10, over, MoveKind::Hold, FractionBand::Nothing));
    let k = kind_counts(&s);
    assert_eq!((k.colonize, k.reinforce, k.strike), (6, 1, 2));
    assert_eq!(k.defensive_holds, 1, "a hold over the cap is not a defensive hold");
    assert_eq!((k.active, k.total), (9, 11));
}

#[test]
fn module_tallies_slice_and_count() {
    let rear = bucket(OwnershipBand::Even, GarrisonBand::Low, ThreatBand::Calm, FrontierBand::Rear);
    let losing = bucket(OwnershipBand::Behind, GarrisonBand::Low, ThreatBand::Threatened, FrontierBand::Front);
    let over = bucket(OwnershipBand::Ahead, GarrisonBand::Over, ThreatBand::Calm, FrontierBand::Rear);
    let mut s = Vec::new();
    for t in 0..3 {
        s.push(sample(t, rear, MoveKind::Hold, FractionBand::Nothing));
    }
    s.push(sample(3, rear, MoveKind::Colonize, FractionBand::Heavy));
    s.push(sample(4, losing, MoveKind::Strike, FractionBand::Heavy));
    s.push(sample(5, losing, MoveKind::Strike, FractionBand::Light));
    s.push(sample(6, over, MoveKind::Hold, FractionBand::Nothing));
    let m = module_tallies(&s);
    assert_eq!(m.guards_rear, Tally { hits: 3, n: 4 }, "the over-cap hold is excluded from the rear slice");
    assert_eq!(m.over_commits_attacks, Tally { hits: 1, n: 2 });
    assert_eq!(m.hoards_past_cap, Tally { hits: 1, n: 1 });
    assert_eq!(m.nearest_first_expand, Tally { hits: 0, n: 2 });
    assert_eq!(m.feeds_losing_grind, Tally { hits: 2, n: 2 });
}
