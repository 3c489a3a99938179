use lib::faction::Faction;
use lib::funnel::{funnel_orders, struct_is_sink, UNREACHED};
use lib::last_stand::{last_stand, StandBoard};
use lib::position::{PosOwner, PositionInfo};
use lib::simple::{Leg, Op};
use lib::simple_step::{SimpleBoard, SimpleDials, SimpleLedger};
use lib::simple_turn::StructTurn;

/// A struct whose subs sit on a line (`dist = |a - b|`).
fn stand(idle: &[usize], foe_at: &[usize], foe_owned: &[bool], bar: &[usize]) -> StandBoard {
    let n = idle.len();
    StandBoard {
        idle: idle.to_vec(),
        foe_at: foe_at.to_vec(),
        foe_owned: foe_owned.to_vec(),
        dist: (0..n).map(|a| (0..n).map(|b| (a as i64 - b as i64).unsigned_abs()).collect()).collect(),
        bar: bar.to_vec(),
    }
}

#[test]
fn last_stand_sends_distinct_stacks_to_distinct_targets_first() {
    // The bigger stack (10 at sub 0) takes the nearest target it overwhelms (sub 2); the
    // other stack (6 at sub 1) takes the remaining one (sub 3).
    let b = stand(&[10, 6, 0, 0], &[0, 0, 3, 3], &[false, false, true, true], &[0, 0, 5, 5]);
    let orders = last_stand(&b, 7, Faction::Ai(1));
    assert_eq!(orders, vec![(0, 2), (1, 3)]);
}

#[test]
fn last_stand_merges_stacks_that_cannot_solo() {
    // Neither 4-stack overwhelms the bar of 7 alone; pooled (8) they do.
    let b = stand(&[4, 4, 0], &[0, 0, 7], &[false, false, true], &[0, 0, 7]);
    let orders = last_stand(&b, 7, Faction::Ai(1));
    assert_eq!(orders, vec![(0, 2), (1, 2)]);
}

#[test]
fn last_stand_goes_all_in_when_hopeless() {
    // Two ships against a bar of 10 with a single target: everything charges it.
    let b = stand(&[2, 0], &[0, 9], &[false, true], &[0, 10]);
    let orders = last_stand(&b, 3, Faction::Player);
    assert_eq!(orders, vec![(0, 1)]);
}

#[test]
fn last_stand_leaves_stacks_in_contact_alone() {
    // The only stack shares its sub with foes: nothing to order.
    let b = stand(&[9, 0], &[2, 3], &[false, true], &[0, 1]);
    assert!(last_stand(&b, 3, Faction::Player).is_empty());
}

#[test]
fn last_stand_targets_staged_foes_when_no_foe_ground_is_left() {
    // No foe-owned sub: the sub with foes at it (sub 1) is the target.
    let b = stand(&[12, 4, 0], &[0, 4, 0], &[false, false, false], &[0, 5, 0]);
    let orders = last_stand(&b, 1, Faction::Ai(1));
    assert_eq!(orders, vec![(0, 1)]);
}

fn line_graph(n: usize) -> Vec<Vec<bool>> {
    (0..n).map(|a| (0..n).map(|b| a + 1 == b || b + 1 == a).collect()).collect()
}

#[test]
fn funnel_flows_one_hop_downhill_toward_the_sink() {
    let orders = funnel_orders(&vec![false, false, false, true], &line_graph(4), &vec![true; 4]);
    assert_eq!(orders, vec![(0, 1), (1, 2), (2, 3)]);
}

#[test]
fn funnel_picks_the_nearest_sink_lowest_id_on_ties() {
    // Sinks at both ends: 1 drains to 0, 2 to 3.
    let orders = funnel_orders(&vec![true, false, false, true], &line_graph(4), &vec![true; 4]);
    assert_eq!(orders, vec![(1, 0), (2, 3)]);
    // A diamond 0-1, 0-2, 1-3, 2-3 with the sink at 3: 0 is two lanes away through 1 or 2
    // and takes the lower id.
    let g = vec![
        vec![false, true, true, false],
        vec![true, false, false, true],
        vec![true, false, false, true],
        vec![false, true, true, false],
    ];
    let orders = funnel_orders(&vec![false, false, false, true], &g, &vec![true; 4]);
    assert_eq!(orders, vec![(0, 1), (1, 3), (2, 3)]);
}

#[test]
fn funnel_skips_empty_and_cut_off_structs() {
    // Struct 0 holds none of the seat's ships; struct 4 has no lane to anything.
    let mut g = line_graph(4);
    for row in g.iter_mut() {
        row.push(false);
    }
    g.push(vec![false; 5]);
    let orders = funnel_orders(
        &vec![false, false, false, true, false],
        &g,
        &vec![false, true, true, true, true],
    );
    assert_eq!(orders, vec![(1, 2), (2, 3)]);
}

#[test]
fn funnel_without_a_sink_sends_nothing() {
    assert!(funnel_orders(&vec![false; 3], &line_graph(3), &vec![true; 3]).is_empty());
    assert!(UNREACHED > 0);
}

fn sub(id: usize, owner: PosOwner, my: u32, en: u32) -> PositionInfo {
    PositionInfo { id, owner, my_ships: my, enemy_ships: en, contested: my > 0 && en > 0 }
}

fn simple_board(infos: Vec<PositionInfo>, enemy_incoming: Vec<u32>) -> SimpleBoard {
    let n = infos.len();
    SimpleBoard {
        infos,
        enemy_incoming,
        incoming_mine: vec![0; n],
        friendly_eta: vec![None; n],
        fort_capacity: vec![None; n],
        capacity: vec![100; n],
        transit: vec![vec![Some(1); n]; n],
        via_gate: vec![vec![None; n]; n],
        reach: vec![vec![true; n]; n],
        dist: vec![vec![Some(1); n]; n],
        toll: vec![vec![0; n]; n],
        min_bar: vec![0; n],
        max_bar: vec![0; n],
        over_threat: vec![false; n],
        priority: vec![0; n],
    }
}

#[test]
fn a_fully_owned_quiet_struct_is_no_sink() {
    let b = simple_board(vec![sub(0, PosOwner::Me, 5, 0), sub(1, PosOwner::Me, 3, 0)], vec![0, 0]);
    assert!(!struct_is_sink(&b));
}

#[test]
fn ground_left_to_take_or_a_foe_makes_a_sink() {
    let neutral = simple_board(vec![sub(0, PosOwner::Me, 5, 0), sub(1, PosOwner::Neutral, 0, 0)], vec![0, 0]);
    assert!(struct_is_sink(&neutral));
    let present = simple_board(vec![sub(0, PosOwner::Me, 5, 2), sub(1, PosOwner::Me, 3, 0)], vec![0, 0]);
    assert!(struct_is_sink(&present));
    let inbound = simple_board(vec![sub(0, PosOwner::Me, 5, 0), sub(1, PosOwner::Me, 3, 0)], vec![0, 4]);
    assert!(struct_is_sink(&inbound));
}

fn turn_struct(board: SimpleBoard, stand: StandBoard, present: bool, has_ships: bool, producing: bool) -> StructTurn {
    StructTurn { board, stand, present, has_ships, producing }
}

#[test]
fn without_an_economy_every_struct_fights_its_last_stand() {
    let mut ledger = SimpleLedger::new();
    ledger.track_structs(1);
    ledger.operations[0].push(Op {
        target: 1,
        land_at: 50,
        legs: vec![Leg { src: 0, tgt: 1, count: 5, depart_at: 40, sent: false }],
    });
    let structs = vec![
        turn_struct(
            simple_board(vec![sub(0, PosOwner::Me, 10, 0), sub(1, PosOwner::Enemy, 0, 3)], vec![0, 0]),
            stand(&[10, 0], &[0, 3], &[false, true], &[0, 5]),
            true,
            true,
            false,
        ),
        turn_struct(
            simple_board(vec![sub(0, PosOwner::Neutral, 0, 0)], vec![0]),
            stand(&[0], &[0], &[false], &[0]),
            false,
            false,
            false,
        ),
    ];
    let connected = vec![vec![false, true], vec![true, false]];
    let t = ledger.turn(&structs, &connected, SimpleDials::default(), 9, Faction::Ai(1));
    assert_eq!(t.stand, vec![vec![(0, 1)], vec![]]);
    assert!(t.moves.iter().all(|m| m.is_empty()));
    assert!(t.fleets.is_empty());
    assert_eq!(ledger.operations.len(), 2);
    assert!(ledger.operations.iter().all(|o| o.is_empty()), "no economy, no ledger");
}

#[test]
fn with_an_economy_quiet_structs_funnel_toward_sinks() {
    let mut ledger = SimpleLedger::new();
    let structs = vec![
        // A quiet, fully owned struct holding the seat's ships: not a sink.
        turn_struct(
            simple_board(vec![sub(0, PosOwner::Me, 5, 0), sub(1, PosOwner::Me, 3, 0)], vec![0, 0]),
            stand(&[5, 3], &[0, 0], &[false, false], &[0, 0]),
            true,
            true,
            true,
        ),
        // A struct with ground left to take where the seat holds nothing: a sink.
        turn_struct(
            simple_board(vec![sub(0, PosOwner::Neutral, 0, 0)], vec![0]),
            stand(&[0], &[0], &[false], &[0]),
            false,
            false,
            false,
        ),
    ];
    let connected = vec![vec![false, true], vec![true, false]];
    let t = ledger.turn(&structs, &connected, SimpleDials::default(), 9, Faction::Ai(1));
    assert_eq!(t.fleets, vec![(0, 1)]);
    assert_eq!(t.stand, vec![vec![], vec![]]);
    assert_eq!(t.moves, vec![vec![], vec![]], "nothing to plan on a quiet struct under capacity");
    assert_eq!(ledger.operations.len(), 2);
}

#[test]
fn last_stand_gives_each_stack_one_order_and_needs_an_enemy() {
    // Three stacks, one soloing target and a pool for the other: no source twice.
    let b = stand(&[10, 3, 3, 0, 0], &[0, 0, 0, 4, 5], &[false, false, false, true, true], &[0, 0, 0, 5, 6]);
    let orders = last_stand(&b, 9, Faction::Ai(2));
    let mut srcs: Vec<usize> = orders.iter().map(|o| o.0).collect();
    srcs.sort();
    srcs.dedup();
    assert_eq!(srcs.len(), orders.len());
    assert_eq!(orders, vec![(0, 3), (1, 4), (2, 4)]);
    // No foe ground and no foe ship: nothing at all.
    let quiet = stand(&[10, 3, 0], &[0, 0, 0], &[false, false, false], &[0, 0, 0]);
    assert!(last_stand(&quiet, 9, Faction::Ai(2)).is_empty());
}
