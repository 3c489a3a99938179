use lib::adapters::bucket_for;
use lib::controller::{AiController, Roster};
use lib::faction::Faction;
use lib::observe::FractionBucket;
use lib::position::{PosOwner, PositionInfo, PositionView};
use lib::simple::SimpleVersion;
use lib::strategy::{StrategicPolicy, TacticalPolicy};

#[test]
fn roster_names_and_descriptions_present() {
    for r in Roster::all() {
        assert!(!r.name().is_empty());
        assert!(r.description().len() > 10);
    }
}

#[test]
fn roster_adjacent_entry_is_named_and_described() {
    let r = Roster::SimpleAdjacent { range: 90.0f32.to_bits() as u64, version: SimpleVersion::V1 };
    assert_eq!(r.name(), "Simple (adjacent)");
    assert!(r.description().contains("leashed"));
    assert_eq!(Roster::all()[2], Roster::SimpleColonize { version: SimpleVersion::V1 });
}

#[test]
fn bucket_for_picks_tightest_cover() {
    // 10 available: Quarter = 3 (rounded), Half = 5, ThreeQuarter = 8, All = 10.
    let (q, h, t) = (3, 5, 8);
    assert_eq!(bucket_for(0, 10, q, h, t), None);
    assert_eq!(bucket_for(5, 0, 0, 0, 0), None);
    assert_eq!(bucket_for(10, 10, q, h, t), Some(FractionBucket::All));
    assert_eq!(bucket_for(20, 10, q, h, t), Some(FractionBucket::All));
    assert_eq!(bucket_for(3, 10, q, h, t), Some(FractionBucket::Quarter));
    assert_eq!(bucket_for(4, 10, q, h, t), Some(FractionBucket::Half));
    assert_eq!(bucket_for(6, 10, q, h, t), Some(FractionBucket::ThreeQuarter));
    assert_eq!(bucket_for(9, 10, q, h, t), Some(FractionBucket::All));
}

#[test]
fn simple_version_round_trips_through_its_token() {
    assert_eq!(SimpleVersion::V1.name(), "v1");
    assert_eq!(SimpleVersion::parse("v1"), Some(SimpleVersion::V1));
    assert_eq!(SimpleVersion::parse(SimpleVersion::V1.name()), Some(SimpleVersion::V1));
    assert_eq!(SimpleVersion::parse("v2"), None);
    assert_eq!(SimpleVersion::parse("V1"), None);
    assert_eq!(SimpleVersion::parse(""), None);
    assert_eq!(SimpleVersion::parse("v1 "), None);
    assert_eq!(SimpleVersion::default(), SimpleVersion::V1);
}

#[test]
fn policy_names_are_stable() {
    assert_eq!(StrategicPolicy::ColonizeThenAttack.name(), "Colonize→Attack");
    assert_eq!(StrategicPolicy::Balanced.name(), "Balanced");
    assert!(!StrategicPolicy::Passive.needs_projection());
    assert!(!StrategicPolicy::GreedyLocal.needs_projection());
    assert!(StrategicPolicy::Attack.needs_projection());
    assert_eq!(TacticalPolicy::Greedy.name(), "Greedy(local)");
    assert_eq!(TacticalPolicy::Idle.name(), "None");
}

fn small_board() -> PositionView {
    let infos = vec![
        PositionInfo { id: 0, owner: PosOwner::Me, my_ships: 12, enemy_ships: 0, contested: false },
        PositionInfo { id: 1, owner: PosOwner::Neutral, my_ships: 0, enemy_ships: 0, contested: false },
    ];
    let d = 8.0f32.to_bits() as u64;
    PositionView::new(infos, vec![vec![Some(0), Some(d)], vec![Some(d), Some(0)]]).expect("board")
}

#[test]
fn greedy_controller_expands_toward_neutral() {
    let ctrl = AiController::from_roster(Faction::Player, Roster::GreedyLocal);
    let acts = ctrl.decide(&small_board(), true);
    assert!(!acts.is_empty(), "greedy should issue an internal order toward the neutral");
    assert_eq!((acts[0].from, acts[0].to, acts[0].count), (0, 1, 10));
}

#[test]
fn passive_controller_is_inert() {
    let ctrl = AiController::from_roster(Faction::Player, Roster::Passive);
    assert!(!ctrl.active);
    assert!(ctrl.decide(&small_board(), true).is_empty(), "passive issues nothing");
    let absent = AiController::from_roster(Faction::Ai(0), Roster::GreedyLocal);
    assert!(absent.decide(&small_board(), false).is_empty(), "no presence, nothing to command");
}
