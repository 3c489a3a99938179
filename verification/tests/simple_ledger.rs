use lib::simple::{committed_in, committed_out, Leg, Op};
use lib::simple_step::SimpleLedger;

fn leg(src: usize, tgt: usize, count: u32, depart_at: u64, sent: bool) -> Leg {
    Leg { src, tgt, count, depart_at, sent }
}

#[test]
fn unsent_legs_reserve_their_source() {
    let ops = vec![
        Op { target: 2, land_at: 10, legs: vec![leg(0, 2, 30, 8, false), leg(1, 2, 12, 9, false)] },
        Op { target: 3, land_at: 12, legs: vec![leg(0, 3, 5, 2, true), leg(0, 3, 7, 11, false)] },
    ];
    assert_eq!(committed_out(&ops, 0), 37, "30 + 7 unsent; the sent 5 has flown");
    assert_eq!(committed_out(&ops, 1), 12);
    assert_eq!(committed_out(&ops, 2), 0);
}

#[test]
fn routed_pairs_count_once_toward_the_target() {
    // A gate-routed pair: walk 0 -> gate 1, then hop 1 -> target 2. Only the hop owes the
    // target; the walk owes the teleporter.
    let ops = vec![Op {
        target: 2,
        land_at: 6,
        legs: vec![leg(0, 1, 20, 0, false), leg(1, 2, 20, 5, false)],
    }];
    assert_eq!(committed_in(&ops, 2), 20);
    assert_eq!(committed_in(&ops, 1), 20);
    assert_eq!(committed_in(&ops, 0), 0);
    assert_eq!(committed_out(&ops, 0) + committed_out(&ops, 1), 40);
}

#[test]
fn an_empty_ledger_reserves_nothing() {
    let ops: Vec<Op> = Vec::new();
    assert_eq!(committed_out(&ops, 0), 0);
    assert_eq!(committed_in(&ops, 0), 0);
}

#[test]
fn the_ledger_tracks_forgets_and_clears_per_struct() {
    let mut l = SimpleLedger::new();
    assert!(l.operations.is_empty());
    l.track_structs(3);
    assert_eq!(l.operations.len(), 3);
    l.operations[1].push(Op { target: 2, land_at: 10, legs: vec![leg(0, 2, 30, 8, false)] });
    l.operations[2].push(Op { target: 0, land_at: 4, legs: vec![leg(1, 0, 3, 1, false)] });
    l.track_structs(4);
    assert_eq!(l.operations.len(), 4);
    assert_eq!(l.operations[1].len(), 1, "growing keeps existing ledgers");
    l.forget(1);
    assert!(l.operations[1].is_empty());
    assert_eq!(l.operations[2].len(), 1);
    l.clear_all();
    assert!(l.operations.iter().all(|o| o.is_empty()));
    l.track_structs(2);
    assert_eq!(l.operations.len(), 2, "shrinking drops the structs beyond");
}
