use lib::greedy::{decide_greedy, GreedyKind, GreedyParams};
use lib::position::{PosOwner, PositionInfo, PositionView};

/// Presence-based "contested": both sides present (a sub or a ship each).
fn presence(owner: PosOwner, my: u32, en: u32) -> bool {
    let mine = owner == PosOwner::Me || my > 0;
    let theirs = owner == PosOwner::Enemy || en > 0;
    mine && theirs
}

/// A board of positions on a line at the given x-coordinates; distance is |dx|, every
/// position reachable from every other.
fn line_view(rows: &[(PosOwner, u32, u32, f32)]) -> PositionView {
    let infos: Vec<PositionInfo> = rows
        .iter()
        .enumerate()
        .map(|(i, &(owner, my, en, _))| PositionInfo {
            id: i,
            owner,
            my_ships: my,
            enemy_ships: en,
            contested: presence(owner, my, en),
        })
        .collect();
    let xs: Vec<f32> = rows.iter().map(|&(_, _, _, x)| x).collect();
    let dist: Vec<Vec<Option<u64>>> = xs
        .iter()
        .map(|a| xs.iter().map(|b| Some((a - b).abs().to_bits() as u64)).collect())
        .collect();
    PositionView::new(infos, dist).expect("a well-formed board")
}

#[test]
fn floor_holds_no_surplus_no_action() {
    let v = line_view(&[(PosOwner::Me, 2, 0, 0.0), (PosOwner::Neutral, 0, 0, 1.0)]);
    let acts = decide_greedy(&v, &GreedyParams::default());
    assert!(acts.is_empty(), "at the garrison floor there is no surplus to move");
}

#[test]
fn expands_surplus_to_nearest_neutral() {
    let v = line_view(&[
        (PosOwner::Me, 6, 0, 0.0),
        (PosOwner::Neutral, 0, 0, 10.0),
        (PosOwner::Neutral, 0, 0, 2.0),
    ]);
    let acts = decide_greedy(&v, &GreedyParams::default());
    assert_eq!(acts.len(), 1);
    assert_eq!(acts[0].from, 0);
    assert_eq!(acts[0].to, 2, "nearest neutral wins");
    assert_eq!(acts[0].count, 4, "surplus = my_ships - floor");
    assert_eq!(acts[0].kind, GreedyKind::Expand);
}

#[test]
fn prefers_neutral_over_friendly_even_when_friendly_is_closer() {
    let v = line_view(&[
        (PosOwner::Me, 7, 0, 0.0),
        (PosOwner::Me, 0, 0, 1.0),
        (PosOwner::Neutral, 0, 0, 3.0),
    ]);
    let acts = decide_greedy(&v, &GreedyParams::default());
    assert_eq!(acts.len(), 1);
    assert_eq!(acts[0].to, 2, "neutral preferred over a nearer friendly");
    assert_eq!(acts[0].kind, GreedyKind::Expand);
}

#[test]
fn falls_back_to_friendly_when_no_neutral() {
    let v = line_view(&[
        (PosOwner::Me, 7, 0, 0.0),
        (PosOwner::Me, 0, 0, 5.0),
        (PosOwner::Me, 0, 0, 2.0),
    ]);
    let acts = decide_greedy(&v, &GreedyParams::default());
    assert_eq!(acts.len(), 1);
    assert_eq!(acts[0].to, 2, "nearest friendly uncontested when no neutral exists");
    assert_eq!(acts[0].kind, GreedyKind::Expand);
}

#[test]
fn retreats_when_contested_and_outnumbered() {
    let v = line_view(&[
        (PosOwner::Me, 5, 9, 0.0),
        (PosOwner::Me, 0, 0, 8.0),
        (PosOwner::Me, 0, 0, 2.0),
    ]);
    let acts = decide_greedy(&v, &GreedyParams::default());
    assert_eq!(acts.len(), 1);
    assert_eq!(acts[0].from, 0);
    assert_eq!(acts[0].to, 2, "nearest safe owned rear");
    assert_eq!(acts[0].kind, GreedyKind::Retreat);
    assert_eq!(acts[0].count, 3, "surplus = 5 - floor(2)");
}

#[test]
fn does_not_retreat_when_contested_but_winning() {
    let v = line_view(&[(PosOwner::Me, 9, 4, 0.0)]);
    let acts = decide_greedy(&v, &GreedyParams::default());
    assert!(acts.is_empty(), "winning a fight: no retreat, and nowhere else to go");
}

#[test]
fn assaults_weakest_enemy_when_not_production_superior() {
    let v = line_view(&[
        (PosOwner::Me, 8, 0, 0.0),
        (PosOwner::Enemy, 3, 8, 2.0),
        (PosOwner::Enemy, 1, 2, 5.0),
    ]);
    let acts = decide_greedy(&v, &GreedyParams::default());
    assert_eq!(acts.len(), 1);
    assert_eq!(acts[0].from, 0);
    assert_eq!(acts[0].to, 2, "not superior -> hit the WEAKEST enemy (2) over the heavy one (8)");
    assert_eq!(acts[0].kind, GreedyKind::Assault);
}

#[test]
fn assaults_strongest_enemy_when_production_superior() {
    let v = line_view(&[
        (PosOwner::Me, 10, 0, 0.0),
        (PosOwner::Me, 10, 0, 8.0),
        (PosOwner::Enemy, 1, 6, 12.0),
    ]);
    let acts = decide_greedy(&v, &GreedyParams::default());
    assert_eq!(acts.len(), 2, "both owned positions act: spearhead strikes, rear feeds it");
    let spear = acts.iter().find(|a| a.from == 1).expect("staging acts");
    assert_eq!(spear.to, 2, "the staging spearhead commits at the enemy target");
    assert_eq!(spear.kind, GreedyKind::Assault);
    let feeder = acts.iter().find(|a| a.from == 0).expect("rear feeds");
    assert_eq!(feeder.to, 1, "the rear amasses behind the staging position");
    assert_eq!(feeder.kind, GreedyKind::Assault);
}

#[test]
fn assault_staging_holds_until_local_superiority() {
    let v = line_view(&[
        (PosOwner::Me, 20, 0, 0.0),
        (PosOwner::Me, 20, 0, 8.0),
        (PosOwner::Enemy, 0, 30, 12.0),
    ]);
    let acts = decide_greedy(&v, &GreedyParams::default());
    assert_eq!(acts.len(), 1, "the thin spearhead holds; only the rear feeds it");
    assert_eq!(acts[0].from, 0);
    assert_eq!(acts[0].to, 1, "rear amasses behind the (still-thin) staging position");
    assert_eq!(acts[0].kind, GreedyKind::Assault);
}

#[test]
fn assaults_a_quiet_passive_enemy_with_nothing_to_colonize() {
    let v = line_view(&[(PosOwner::Me, 12, 0, 0.0), (PosOwner::Enemy, 0, 3, 5.0)]);
    let acts = decide_greedy(&v, &GreedyParams::default());
    assert_eq!(acts.len(), 1, "greedy assaults the quiet enemy rather than idling");
    assert_eq!(acts[0].from, 0);
    assert_eq!(acts[0].to, 1, "it strikes the enemy position");
    assert_eq!(acts[0].kind, GreedyKind::Assault);
}

#[test]
fn export_gate_blocks_a_source() {
    let mut v = line_view(&[(PosOwner::Me, 9, 0, 0.0), (PosOwner::Neutral, 0, 0, 1.0)]);
    v.set_export_ok(0, false);
    let acts = decide_greedy(&v, &GreedyParams::default());
    assert!(acts.is_empty(), "a non-exportable source is skipped");
}

#[test]
fn the_seam_no_rear_guard_above_the_floor() {
    let v = line_view(&[(PosOwner::Me, 20, 0, 0.0), (PosOwner::Neutral, 0, 0, 3.0)]);
    let acts = decide_greedy(&v, &GreedyParams::default());
    assert_eq!(acts.len(), 1);
    assert_eq!(acts[0].from, 0);
    assert_eq!(acts[0].count, 18, "the whole surplus ships forward; only the floor stays");
    assert_eq!(v.info_of(0).my_ships - acts[0].count, GreedyParams::default().garrison_floor);
}

#[test]
fn unreachable_positions_are_never_destinations() {
    let mut v = line_view(&[(PosOwner::Me, 9, 0, 0.0), (PosOwner::Neutral, 0, 0, 1.0)]);
    v.dist[0][1] = None;
    let acts = decide_greedy(&v, &GreedyParams::default());
    assert!(acts.iter().all(|a| a.to != 1));
}

#[test]
fn board_rejects_ragged_distance_tables() {
    let infos = vec![
        PositionInfo { id: 0, owner: PosOwner::Me, my_ships: 1, enemy_ships: 0, contested: false },
        PositionInfo { id: 1, owner: PosOwner::Neutral, my_ships: 0, enemy_ships: 0, contested: false },
    ];
    assert!(PositionView::new(infos.clone(), vec![vec![Some(0), Some(1)]]).is_none());
    assert!(PositionView::new(infos.clone(), vec![vec![Some(0)], vec![Some(1), Some(0)]]).is_none());
    let mut wrong_id = infos.clone();
    wrong_id[1].id = 5;
    assert!(PositionView::new(wrong_id, vec![vec![Some(0), Some(1)], vec![Some(1), Some(0)]]).is_none());
    assert!(PositionView::new(infos, vec![vec![Some(0), Some(1)], vec![Some(1), Some(0)]]).is_some());
}
