use lib::greedy::GreedyKind;
use lib::position::{PosOwner, PositionInfo, PositionView};
use lib::synthesize::{
    counterpunch, flank_rear, nearest_expandable, out_tempo, thinnest_reachable_foe, Exploit,
    GARRISON_FLOOR,
};

fn line_view(rows: &[(PosOwner, u32, u32, f32)]) -> PositionView {
    let infos: Vec<PositionInfo> = rows
        .iter()
        .enumerate()
        .map(|(i, &(owner, my, en, _))| PositionInfo {
            id: i,
            owner,
            my_ships: my,
            enemy_ships: en,
            contested: (owner == PosOwner::Me || my > 0) && (owner == PosOwner::Enemy || en > 0),
        })
        .collect();
    let xs: Vec<f32> = rows.iter().map(|&(_, _, _, x)| x).collect();
    let dist: Vec<Vec<Option<u64>>> = xs
        .iter()
        .map(|a| xs.iter().map(|b| Some((a - b).abs().to_bits() as u64)).collect())
        .collect();
    PositionView::new(infos, dist).expect("a well-formed board")
}

#[test]
fn exploit_names_are_present() {
    for e in [Exploit::FlankRear, Exploit::CounterPunch, Exploit::OutTempo] {
        assert!(!e.name().is_empty());
    }
    assert_eq!(Exploit::FlankRear.name(), "flank-undefended-rear");
    assert_eq!(Exploit::CounterPunch.name(), "counterpunch-emptied-rear");
    assert_eq!(Exploit::OutTempo.name(), "out-tempo-the-hoard");
}

#[test]
fn thinnest_foe_prefers_fewest_ships_then_nearest_then_lowest_id() {
    let v = line_view(&[
        (PosOwner::Me, 10, 0, 0.0),
        (PosOwner::Enemy, 0, 8, 1.0),
        (PosOwner::Enemy, 0, 3, 9.0),
        (PosOwner::Enemy, 0, 3, 5.0),
        (PosOwner::Neutral, 0, 0, 2.0),
    ]);
    assert_eq!(thinnest_reachable_foe(&v, 0), Some(3), "3 ships beat 8; the nearer of the two 3s");
    let tie = line_view(&[
        (PosOwner::Me, 10, 0, 0.0),
        (PosOwner::Enemy, 0, 3, 4.0),
        (PosOwner::Enemy, 0, 3, -4.0),
    ]);
    assert_eq!(thinnest_reachable_foe(&tie, 0), Some(1), "equal strength and distance: lowest id");
    let none = line_view(&[(PosOwner::Me, 10, 0, 0.0), (PosOwner::Neutral, 0, 0, 1.0)]);
    assert_eq!(thinnest_reachable_foe(&none, 0), None);
}

#[test]
fn nearest_expandable_takes_foe_free_neutral_or_thinner_friendly() {
    let v = line_view(&[
        (PosOwner::Me, 10, 0, 0.0),
        (PosOwner::Me, 12, 0, 1.0),
        (PosOwner::Neutral, 0, 1, 2.0),
        (PosOwner::Me, 4, 0, 3.0),
        (PosOwner::Neutral, 0, 0, 4.0),
    ]);
    assert_eq!(nearest_expandable(&v, 0), Some(3), "the nearest thinner friendly, foes skipped");
    assert_eq!(nearest_expandable(&v, 3), Some(4), "from a thin source only the neutral qualifies");
}

#[test]
fn flank_ships_each_surplus_onto_the_thinnest_foe() {
    let v = line_view(&[
        (PosOwner::Me, 10, 0, 0.0),
        (PosOwner::Enemy, 0, 6, 1.0),
        (PosOwner::Me, 2, 0, 2.0),
        (PosOwner::Enemy, 0, 1, 3.0),
        (PosOwner::Me, 7, 0, 4.0),
    ]);
    let acts = flank_rear(&v);
    assert_eq!(acts.len(), 2, "the source at the floor stays home");
    assert_eq!((acts[0].from, acts[0].to, acts[0].count), (0, 3, 10 - GARRISON_FLOOR));
    assert_eq!((acts[1].from, acts[1].to, acts[1].count), (4, 3, 5));
    assert!(acts.iter().all(|a| a.kind == GreedyKind::Wave));
    assert_eq!(counterpunch(&v), acts, "the counterpunch presses the same rear");
}

#[test]
fn out_tempo_keeps_surplus_moving_and_skips_gated_sources() {
    let mut v = line_view(&[
        (PosOwner::Me, 10, 0, 0.0),
        (PosOwner::Neutral, 0, 0, 1.0),
        (PosOwner::Me, 9, 0, 5.0),
    ]);
    let acts = out_tempo(&v);
    assert_eq!(acts.len(), 2);
    assert_eq!((acts[0].from, acts[0].to, acts[0].count), (0, 1, 8));
    assert_eq!((acts[1].from, acts[1].to, acts[1].count), (2, 1, 7));
    v.set_export_ok(0, false);
    let gated = out_tempo(&v);
    assert_eq!(gated.len(), 1);
    assert_eq!(gated[0].from, 2);
}
