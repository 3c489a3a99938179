use lib::greedy::GreedyKind;
use lib::position::{PosOwner, PositionInfo, PositionView, Side};
use lib::vocab::{
    being_eroded, contested, deny, foe_present, foe_takes_first, has_surplus, hold, is_frontier,
    neutral, outnumbered_here, over_soft_cap, owned_by_foe, owned_by_me, production_superior,
    retreat, settles_mine, surplus_of, wave, NO_MECHANIC_CONSTANTS,
};

/// Order-preserving key of a non-negative ratio.
fn ratio(x: f32) -> u64 {
    x.to_bits() as u64
}

/// 0: my home (10 ships), 1: enemy-owned (3 enemy), 2: neutral, 3: my frontier (5 ships), on a
/// line at x = 0, 3, 1, 2; position 2 is projected to flip to me.
fn view() -> PositionView {
    let infos = vec![
        PositionInfo { id: 0, owner: PosOwner::Me, my_ships: 10, enemy_ships: 0, contested: false },
        PositionInfo { id: 1, owner: PosOwner::Enemy, my_ships: 0, enemy_ships: 3, contested: false },
        PositionInfo { id: 2, owner: PosOwner::Neutral, my_ships: 0, enemy_ships: 0, contested: false },
        PositionInfo { id: 3, owner: PosOwner::Me, my_ships: 5, enemy_ships: 0, contested: false },
    ];
    let xs: Vec<f32> = vec![0.0, 3.0, 1.0, 2.0];
    let dist: Vec<Vec<Option<u64>>> = xs
        .iter()
        .map(|a| xs.iter().map(|b| Some((a - b).abs().to_bits() as u64)).collect())
        .collect();
    let mut v = PositionView::new(infos, dist).expect("a well-formed board");
    v.set_next_owner(2, Some(Side::Me));
    for (i, r) in [0.2f32, 0.0, 0.0, 0.9].iter().enumerate() {
        v.set_parked_ratio(i, ratio(*r));
    }
    v
}

#[test]
fn predicates_read_the_signals() {
    let v = view();
    assert!(owned_by_me(&v, 0));
    assert!(owned_by_foe(&v, 1));
    assert!(neutral(&v, 2));
    assert!(foe_present(&v, 1));
    assert!(!foe_present(&v, 2));
    assert!(production_superior(&v));
    assert!(settles_mine(&v, 2));
    assert!(has_surplus(&v, 0, 2));
    assert!(has_surplus(&v, 3, 2));
    assert!(!has_surplus(&v, 1, 2));
    assert!(over_soft_cap(&v, 3, ratio(0.8)));
    assert!(!over_soft_cap(&v, 0, ratio(0.8)));
    assert!(is_frontier(&v, 0));
    assert!(!is_frontier(&v, 1));
}

#[test]
fn actions_emit_sized_moves() {
    let v = view();
    let w = wave(&v, 0, 2, 4, 2).expect("wave fires");
    assert_eq!((w.from, w.to, w.count, w.kind), (0, 2, 4, GreedyKind::Wave));
    let w2 = wave(&v, 0, 2, 99, 2).expect("wave clamps");
    assert_eq!(w2.count, 8);
    assert!(deny(&v, 0, 1, 6, 2).is_some());
    assert!(deny(&v, 3, 1, 6, 2).is_none(), "surplus 3 cannot field a 6-ship detach");
    assert!(hold().is_none());
}

#[test]
fn retreat_targets_nearest_safe_owned() {
    let mut v = view();
    v.infos[0] = PositionInfo { id: 0, owner: PosOwner::Me, my_ships: 4, enemy_ships: 9, contested: true };
    assert!(outnumbered_here(&v, 0));
    let r = retreat(&v, 0, 2).expect("retreat fires");
    assert_eq!((r.from, r.to, r.kind), (0, 3, GreedyKind::Retreat));
    assert_eq!(r.count, 2, "surplus = 4 - floor(2)");
}

#[test]
fn no_raw_mechanic_constants_in_ai() {
    assert!(NO_MECHANIC_CONSTANTS.contains("projection query"));
    assert!(NO_MECHANIC_CONSTANTS.contains("property accessor"));
    for forbidden in ["1800 (max resistance)", "18 (production period)", "sqrt(over) (soft cap)"] {
        assert!(!NO_MECHANIC_CONSTANTS.contains(forbidden));
    }
}

#[test]
fn surplus_and_waves_respect_ownership_and_size() {
    let v = view();
    assert_eq!(surplus_of(&v, 0, 2), Some(8));
    assert_eq!(surplus_of(&v, 0, 10), None);
    assert_eq!(surplus_of(&v, 1, 0), None, "an enemy position has no surplus of mine");
    assert!(wave(&v, 0, 2, 0, 2).is_none(), "a zero-size wave is no wave");
    assert!(wave(&v, 1, 2, 5, 0).is_none());
    assert!(deny(&v, 0, 1, 0, 2).is_none(), "a zero detachment is no detachment");
    assert_eq!(deny(&v, 0, 1, 8, 2).map(|a| a.count), Some(8));
}

#[test]
fn foe_takes_first_and_erosion_read_the_projection() {
    let mut v = view();
    assert!(!foe_takes_first(&v, 2));
    v.set_next_owner(2, Some(Side::Foe));
    assert!(foe_takes_first(&v, 2));
    assert!(!settles_mine(&v, 2));
    assert!(!being_eroded(&v, 0));
    v.set_next_owner(0, Some(Side::Foe));
    assert!(!being_eroded(&v, 0), "no foe present: the projection alone erodes nothing");
    v.infos[0] = PositionInfo { id: 0, owner: PosOwner::Me, my_ships: 10, enemy_ships: 2, contested: true };
    assert!(being_eroded(&v, 0));
}

#[test]
fn contested_and_outnumbered_are_distinct() {
    let mut v = view();
    v.infos[3] = PositionInfo { id: 3, owner: PosOwner::Me, my_ships: 9, enemy_ships: 4, contested: true };
    assert!(contested(&v, 3));
    assert!(!outnumbered_here(&v, 3), "winning the fight here");
    assert!(!production_superior(&lib::position::PositionView::new(
        vec![PositionInfo { id: 0, owner: PosOwner::Me, my_ships: 1, enemy_ships: 0, contested: false },
             PositionInfo { id: 1, owner: PosOwner::Enemy, my_ships: 0, enemy_ships: 1, contested: false }],
        vec![vec![Some(0), Some(1)], vec![Some(1), Some(0)]],
    ).expect("a well-formed board")), "one against one is no superiority");
}
