use lib::cycler::{cycler_turn, mix, overwhelms, Amount, CyclerBoard, CyclerController, SubOrder};
use lib::faction::Faction;
use lib::position::PosOwner;

/// Subs on a line at x = 0, 1, 2, ... (distance rank = |dx|).
fn board(
    owner: Vec<PosOwner>,
    idle: Vec<usize>,
    inbound: Vec<usize>,
    foe_at: Vec<usize>,
    cap: Vec<usize>,
    storage: Option<usize>,
) -> CyclerBoard {
    let n = owner.len();
    let dist = (0..n)
        .map(|a| (0..n).map(|b| (a as i64 - b as i64).unsigned_abs()).collect())
        .collect();
    let my_total = idle.iter().sum::<usize>() + inbound.iter().sum::<usize>();
    CyclerBoard { owner, idle, inbound, foe_at, cap, dist, storage, my_total }
}

#[test]
fn overwhelm_threshold_is_max_of_triple_and_plus_sixty() {
    assert!(overwhelms(60, 0));
    assert!(!overwhelms(59, 0));
    assert!(overwhelms(70, 10), "max(30, 70)");
    assert!(!overwhelms(69, 10));
    assert!(overwhelms(90, 30), "max(90, 90)");
    assert!(!overwhelms(89, 30));
    assert!(overwhelms(300, 100), "max(300, 160)");
    assert!(!overwhelms(299, 100));
}

#[test]
fn mix_is_a_pure_function_of_its_inputs() {
    assert_eq!(mix(7, Faction::Ai(0), 42), mix(7, Faction::Ai(0), 42));
    assert_ne!(mix(7, Faction::Ai(0), 42), mix(8, Faction::Ai(0), 42));
    assert_ne!(mix(7, Faction::Ai(0), 42), mix(7, Faction::Player, 42));
}

#[test]
fn idle_drill_cycles_over_capacity_surplus_to_the_next_owned_sub() {
    let b = board(
        vec![PosOwner::Me, PosOwner::Neutral, PosOwner::Me, PosOwner::Me],
        vec![30, 0, 5, 12],
        vec![0, 0, 0, 0],
        vec![0, 0, 0, 0],
        vec![24, 24, 24, 10],
        None,
    );
    let t = cycler_turn(&b, None, 100, Faction::Ai(0));
    assert_eq!(t.massing, None);
    assert_eq!(
        t.orders,
        vec![
            SubOrder { from: 0, to: 2, amount: Amount::Exactly(6) },
            SubOrder { from: 3, to: 0, amount: Amount::Exactly(2) },
        ]
    );
}

#[test]
fn a_lone_sub_does_not_cycle() {
    let b = board(vec![PosOwner::Me, PosOwner::Neutral], vec![40, 0], vec![0, 0], vec![0, 0], vec![10, 10], None);
    let t = cycler_turn(&b, None, 1, Faction::Ai(0));
    assert!(t.orders.is_empty());
    assert_eq!(t.massing, None);
}

#[test]
fn defence_masses_the_pool_on_the_most_attacked_sub() {
    let b = board(
        vec![PosOwner::Me, PosOwner::Me, PosOwner::Me, PosOwner::Enemy],
        vec![10, 4, 6, 0],
        vec![0, 0, 0, 0],
        vec![0, 3, 3, 50],
        vec![100, 100, 100, 100],
        None,
    );
    let t = cycler_turn(&b, Some(0), 1, Faction::Ai(0));
    assert_eq!(t.massing, None, "defence aborts the gather");
    assert_eq!(
        t.orders,
        vec![
            SubOrder { from: 0, to: 1, amount: Amount::All },
            SubOrder { from: 2, to: 1, amount: Amount::All },
        ],
        "ties on the attack go to the lowest id"
    );
}

#[test]
fn overwhelming_pool_gathers_then_strikes() {
    // Pool 100 vs a foe sub with 10 defenders: 100 >= max(30, 70).
    let b = board(
        vec![PosOwner::Me, PosOwner::Me, PosOwner::Enemy],
        vec![30, 70, 0],
        vec![0, 0, 0],
        vec![0, 0, 10],
        vec![500, 500, 500],
        None,
    );
    let gather = cycler_turn(&b, None, 5, Faction::Ai(1));
    assert_eq!(gather.massing, Some(1), "muster at the biggest stack");
    assert_eq!(gather.orders, vec![SubOrder { from: 0, to: 1, amount: Amount::All }]);

    // 70 of 100 at the muster is below nine tenths: keep pulling.
    let wait = cycler_turn(&b, Some(1), 6, Faction::Ai(1));
    assert_eq!(wait.massing, Some(1));
    assert_eq!(wait.orders, vec![SubOrder { from: 0, to: 1, amount: Amount::All }]);

    // 90 of 100 gathered: launch everything at the only qualifying target.
    let ready = board(
        vec![PosOwner::Me, PosOwner::Me, PosOwner::Enemy],
        vec![10, 90, 0],
        vec![0, 0, 0],
        vec![0, 0, 10],
        vec![500, 500, 500],
        None,
    );
    let strike = cycler_turn(&ready, Some(1), 7, Faction::Ai(1));
    assert_eq!(strike.massing, None);
    assert_eq!(strike.orders, vec![SubOrder { from: 1, to: 2, amount: Amount::All }]);
}

#[test]
fn answered_tell_stands_down() {
    // Gathered, but the defenders grew past the overwhelm bar: no strike.
    let b = board(
        vec![PosOwner::Me, PosOwner::Me, PosOwner::Enemy],
        vec![10, 90, 0],
        vec![0, 0, 0],
        vec![0, 0, 40],
        vec![500, 500, 500],
        None,
    );
    let t = cycler_turn(&b, Some(1), 9, Faction::Ai(1));
    assert_eq!(t.massing, None);
    assert!(t.orders.is_empty());
}

#[test]
fn losing_siege_retreats_and_winning_siege_holds() {
    let b = board(
        vec![PosOwner::Me, PosOwner::Enemy, PosOwner::Me, PosOwner::Neutral],
        vec![0, 5, 0, 20],
        vec![0, 0, 0, 0],
        vec![0, 9, 0, 4],
        vec![100, 100, 100, 100],
        None,
    );
    let t = cycler_turn(&b, None, 3, Faction::Ai(0));
    // Sub 1: 5 of mine vs 9 foes -> retreat to the nearest owned sub (0 and 2 tie on distance:
    // lowest id). Sub 3: 20 vs 4 -> a committed siege, excluded from the pool and the drill.
    assert_eq!(t.orders[0], SubOrder { from: 1, to: 0, amount: Amount::All });
    assert!(t.orders.iter().all(|o| o.from != 3), "a committed siege is never re-gathered");
}

#[test]
fn reserve_blind_spot_ignores_foes_staged_in_storage() {
    // Foes in the storage node (sub 2) while a foe sub remains: no defence, no target.
    let b = board(
        vec![PosOwner::Me, PosOwner::Me, PosOwner::Neutral, PosOwner::Enemy],
        vec![40, 5, 0, 0],
        vec![0, 0, 0, 0],
        vec![0, 0, 200, 100],
        vec![20, 20, 1000, 20],
        Some(2),
    );
    let t = cycler_turn(&b, None, 3, Faction::Ai(0));
    assert_eq!(t.massing, None);
    assert_eq!(t.orders, vec![SubOrder { from: 0, to: 1, amount: Amount::Exactly(20) }]);
}

#[test]
fn no_ground_or_no_ships_means_no_orders() {
    let b = board(vec![PosOwner::Enemy, PosOwner::Neutral], vec![0, 5], vec![0, 0], vec![3, 0], vec![1, 1], None);
    let t = cycler_turn(&b, Some(1), 3, Faction::Ai(0));
    assert!(t.orders.is_empty());
    assert_eq!(t.massing, None);
}

#[test]
fn the_controller_remembers_the_muster_between_ticks() {
    let b = board(
        vec![PosOwner::Me, PosOwner::Me, PosOwner::Enemy],
        vec![30, 70, 0],
        vec![0, 0, 0],
        vec![0, 0, 10],
        vec![500, 500, 500],
        None,
    );
    let mut c = CyclerController::new(Faction::Ai(1));
    c.track_structs(2);
    assert_eq!(c.massing, vec![None, None]);
    let first = c.play_struct(1, &b, 5);
    assert_eq!(first, vec![SubOrder { from: 0, to: 1, amount: Amount::All }]);
    assert_eq!(c.massing, vec![None, Some(1)], "struct 1 is now mustering at sub 1");
    let ready = board(
        vec![PosOwner::Me, PosOwner::Me, PosOwner::Enemy],
        vec![10, 90, 0],
        vec![0, 0, 0],
        vec![0, 0, 10],
        vec![500, 500, 500],
        None,
    );
    let strike = c.play_struct(1, &ready, 7);
    assert_eq!(strike, vec![SubOrder { from: 1, to: 2, amount: Amount::All }]);
    assert_eq!(c.massing, vec![None, None], "the strike clears the muster");
    c.track_structs(1);
    assert_eq!(c.massing.len(), 2, "tracking never forgets structs");
}
