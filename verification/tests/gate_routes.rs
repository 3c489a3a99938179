use lib::routes::via_gate;

/// Subs 0 and 3 are far apart (30 ticks); sub 1 is a teleporter 4 ticks from 0 whose hop-out
/// takes 2 ticks anywhere; sub 2 is a teleporter 3 ticks from 0 hopping out in 4.
fn table() -> Vec<Vec<Option<u64>>> {
    vec![
        vec![Some(0), Some(4), Some(3), Some(30)],
        vec![Some(4), Some(0), Some(2), Some(2)],
        vec![Some(3), Some(4), Some(0), Some(4)],
        vec![Some(30), Some(4), Some(3), Some(0)],
    ]
}

#[test]
fn the_fastest_owned_teleporter_route_wins() {
    // Via 1: 4 + 2 = 6; via 2: 3 + 4 = 7.
    assert_eq!(via_gate(&table(), &vec![false, true, true, false], 0, 3), Some((1, 6)));
}

#[test]
fn only_owned_teleporters_route() {
    assert_eq!(via_gate(&table(), &vec![false, false, true, false], 0, 3), Some((2, 7)));
    assert_eq!(via_gate(&table(), &vec![false; 4], 0, 3), None);
}

#[test]
fn a_route_must_beat_walking() {
    // From 1 to 2 directly is 2 ticks; nothing beats it.
    assert_eq!(via_gate(&table(), &vec![true, true, true, true], 1, 2), None);
    let mut t = table();
    t[0][3] = None;
    assert_eq!(via_gate(&t, &vec![false, true, true, false], 0, 3), None, "no direct leg, no route");
}

#[test]
fn ties_go_to_the_lower_teleporter() {
    let mut t = table();
    t[2][3] = Some(3); // via 2 is now 3 + 3 = 6, tied with via 1.
    assert_eq!(via_gate(&t, &vec![false, true, true, false], 0, 3), Some((1, 6)));
}
