use lib::position::{PosOwner, PositionInfo};
use lib::simple::{committed_out, Leg, Move, Op};
use lib::simple_step::{simple_layer1_step, spare, SimpleBoard, SimpleDials, SimpleLedger};

/// The float dials the host prices a board with (the defaults of the Simple brain).
#[derive(Clone, Copy)]
struct Pricing {
    fort_toll: f32,
    fort_prod_equiv_value: f32,
    gate_prod_equiv_value: f32,
    fort_tuning_constant: f32,
    gate_tuning_constant: f32,
    overwhelm_ratio: f32,
    overwhelm_add: u32,
    neutral_res_divisor: f32,
    non_neutral_foe_mult: f32,
    neutral_dist_weight: f32,
}

impl Pricing {
    fn default() -> Pricing {
        Pricing {
            fort_toll: 1.5,
            fort_prod_equiv_value: 5.0,
            gate_prod_equiv_value: 5.0,
            fort_tuning_constant: 2.0,
            gate_tuning_constant: 1.0,
            overwhelm_ratio: 1.2,
            overwhelm_add: 20,
            neutral_res_divisor: 60.0,
            non_neutral_foe_mult: 2.0,
            neutral_dist_weight: 20.0,
        }
    }

    /// `OVERWHELM(n) = max(ratio·n, n + add)`, rounded up with a small tolerance.
    fn overwhelm(&self, n: f32) -> u32 {
        const EPS: f32 = 1e-3;
        let a = (self.overwhelm_ratio * n - EPS).ceil();
        let b = (n + self.overwhelm_add as f32 - EPS).ceil();
        a.max(b).max(0.0) as u32
    }
}

/// Order-preserving key of a float.
fn key(x: f32) -> u64 {
    let bits = x.to_bits();
    (if bits >> 31 == 1 { !bits } else { bits | 0x8000_0000 }) as u64
}

/// Minimal line view: travel(a,b) = |xa - xb| (>= 1) ticks, settable resistance / incoming /
/// eta and special-sub signals.
struct TV {
    infos: Vec<PositionInfo>,
    xs: Vec<i64>,
    resist: Vec<f32>,
    inc_mine: Vec<u32>,
    inc_enemy: Vec<u32>,
    fr_eta: Vec<Option<u64>>,
    fort_caps: Vec<Option<u32>>,
    coverage: Vec<f32>,
    savings: Vec<f32>,
    reaches: Vec<f32>,
    tolls: Vec<Vec<u32>>,
    vias: Vec<((usize, usize), (usize, u64))>,
    transit_over: Vec<((usize, usize), u64)>,
}

impl TV {
    fn new(rows: &[(PosOwner, u32, u32)]) -> TV {
        let n = rows.len();
        let infos = rows
            .iter()
            .enumerate()
            .map(|(i, &(owner, my, en))| PositionInfo {
                id: i,
                owner,
                my_ships: my,
                enemy_ships: en,
                contested: my > 0 && en > 0,
            })
            .collect();
        TV {
            infos,
            xs: (0..n as i64).collect(),
            resist: vec![0.0; n],
            inc_mine: vec![0; n],
            inc_enemy: vec![0; n],
            fr_eta: vec![None; n],
            fort_caps: vec![None; n],
            coverage: vec![0.0; n],
            savings: vec![0.0; n],
            reaches: vec![0.0; n],
            tolls: vec![vec![0; n]; n],
            vias: Vec::new(),
            transit_over: Vec::new(),
        }
    }

    fn distance(&self, a: usize, b: usize) -> f32 {
        (self.xs[a] - self.xs[b]).abs() as f32
    }

    fn transit(&self, a: usize, b: usize) -> u64 {
        if let Some((_, t)) = self.transit_over.iter().find(|(k, _)| *k == (a, b)) {
            return *t;
        }
        (self.xs[a] - self.xs[b]).unsigned_abs().max(1)
    }

    /// The board the host hands the program, priced under `pr`.
    fn board(&self, pr: &Pricing) -> SimpleBoard {
        let n = self.infos.len();
        let foes: Vec<u32> = (0..n).map(|t| self.infos[t].enemy_ships + self.inc_enemy[t]).collect();
        let min_bar = (0..n).map(|t| pr.overwhelm(foes[t] as f32)).collect();
        let max_bar = (0..n)
            .map(|t| {
                if self.infos[t].owner == PosOwner::Neutral {
                    let grind = self.resist[t] / pr.neutral_res_divisor;
                    let camped = pr.non_neutral_foe_mult * foes[t] as f32;
                    pr.overwhelm(grind.max(camped))
                } else {
                    pr.overwhelm(pr.non_neutral_foe_mult * foes[t] as f32)
                }
            })
            .collect();
        let over_threat = (0..n).map(|s| foes[s] >= pr.overwhelm(self.infos[s].my_ships as f32)).collect();
        let priority = (0..n)
            .map(|t| {
                let dist = (0..n)
                    .filter(|&s| self.infos[s].owner == PosOwner::Me)
                    .map(|s| self.distance(s, t))
                    .fold(f32::MAX, f32::min);
                let p = if self.infos[t].owner == PosOwner::Neutral {
                    let worth = 1.0
                        + pr.fort_prod_equiv_value * self.coverage[t] * pr.fort_tuning_constant
                        + pr.gate_prod_equiv_value * self.savings[t] * pr.gate_tuning_constant;
                    (self.resist[t] + 1800.0) / worth.max(1e-3) + pr.neutral_dist_weight * dist
                } else {
                    dist - self.reaches[t]
                };
                key(p)
            })
            .collect();
        SimpleBoard {
            infos: self.infos.clone(),
            enemy_incoming: self.inc_enemy.clone(),
            incoming_mine: self.inc_mine.clone(),
            friendly_eta: self.fr_eta.clone(),
            fort_capacity: self.fort_caps.clone(),
            capacity: vec![60; n],
            transit: (0..n).map(|a| (0..n).map(|b| Some(self.transit(a, b))).collect()).collect(),
            via_gate: (0..n)
                .map(|a| {
                    (0..n)
                        .map(|b| self.vias.iter().find(|(k, _)| *k == (a, b)).map(|(_, v)| *v))
                        .collect()
                })
                .collect(),
            reach: vec![vec![true; n]; n],
            dist: (0..n).map(|a| (0..n).map(|b| Some(self.distance(a, b).to_bits() as u64)).collect()).collect(),
            toll: (0..n)
                .map(|a| (0..n).map(|b| (pr.fort_toll * self.tolls[a][b] as f32).ceil() as u32).collect())
                .collect(),
            min_bar,
            max_bar,
            over_threat,
            priority,
        }
    }
}

fn step(v: &TV, pr: &Pricing, d: SimpleDials, ops: &mut Vec<Op>, now: u64) -> Vec<Move> {
    simple_layer1_step(&v.board(pr), d, ops, now)
}

fn leg_for(op: &Op, src: usize) -> &Leg {
    op.legs.iter().find(|l| l.src == src).expect("a leg from that source")
}

#[test]
fn secures_minimum_then_caps_at_maximum() {
    let pr = Pricing::default();
    let mut v = TV::new(&[(PosOwner::Me, 100, 0), (PosOwner::Neutral, 0, 0)]);
    v.resist[1] = 600.0;
    let mut ops = Vec::new();
    let moves = step(&v, &pr, SimpleDials::default(), &mut ops, 0);
    assert_eq!(ops.len(), 1);
    assert_eq!(ops[0].target, 1);
    let total: u32 = ops[0].legs.iter().map(|l| l.count).sum();
    assert_eq!(total, 30, "secured min(20) then deepened to max(30), not more");
    assert_eq!(moves, vec![Move { src: 0, tgt: 1, count: 30 }]);
}

#[test]
fn does_not_oversend_when_already_covered() {
    let pr = Pricing::default();
    let mut v = TV::new(&[(PosOwner::Me, 100, 0), (PosOwner::Neutral, 0, 0)]);
    v.resist[1] = 600.0;
    v.inc_mine[1] = 40;
    let mut ops = Vec::new();
    let moves = step(&v, &pr, SimpleDials::default(), &mut ops, 0);
    assert!(ops.is_empty(), "covered target gets no new op");
    assert!(moves.is_empty());
}

#[test]
fn fronts_batching_secures_nearest_first_under_budget() {
    let pr = Pricing::default();
    let mut v = TV::new(&[
        (PosOwner::Me, 70, 0),
        (PosOwner::Neutral, 0, 0),
        (PosOwner::Neutral, 0, 0),
        (PosOwner::Neutral, 0, 0),
        (PosOwner::Neutral, 0, 0),
    ]);
    for t in 1..=4 {
        v.resist[t] = 1200.0;
    }
    let mut ops = Vec::new();
    let _ = step(&v, &pr, SimpleDials::default(), &mut ops, 0);
    let mut targets: Vec<usize> = ops.iter().map(|o| o.target).collect();
    targets.sort();
    assert_eq!(targets, vec![1, 2, 3], "3 nearest fronts secured, the 4th left for later");
}

#[test]
fn defend_evacuates_an_overwhelmed_sub() {
    let pr = Pricing::default();
    let v = TV::new(&[(PosOwner::Me, 10, 50), (PosOwner::Me, 20, 0)]);
    let mut ops = Vec::new();
    let moves = step(&v, &pr, SimpleDials::default(), &mut ops, 0);
    assert_eq!(moves, vec![Move { src: 0, tgt: 1, count: u32::MAX }]);
}

#[test]
fn being_captured_pins_the_garrison() {
    let pr = Pricing::default();
    let mut v = TV::new(&[(PosOwner::Me, 100, 5), (PosOwner::Neutral, 0, 0)]);
    v.resist[1] = 600.0;
    let mut ops = Vec::new();
    let moves = step(&v, &pr, SimpleDials::default(), &mut ops, 0);
    assert!(ops.is_empty(), "pinned sole source cannot fund a front");
    assert!(moves.is_empty());
}

#[test]
fn staggers_departures_to_land_together() {
    let pr = Pricing::default();
    let mut v = TV::new(&[(PosOwner::Me, 100, 0), (PosOwner::Me, 100, 0), (PosOwner::Neutral, 0, 0)]);
    v.resist[2] = 12000.0;
    let mut ops = Vec::new();
    let moves = step(&v, &pr, SimpleDials::default(), &mut ops, 0);
    assert_eq!(ops.len(), 1);
    let op = &ops[0];
    assert_eq!(op.target, 2);
    assert_eq!(op.land_at, 2, "land = now + farthest travel (x0->x2 = 2)");
    assert_eq!(leg_for(op, 0).depart_at, 0);
    assert_eq!(leg_for(op, 1).depart_at, 1);
    assert_eq!(moves, vec![Move { src: 0, tgt: 2, count: leg_for(op, 0).count }]);
}

#[test]
fn reservation_persists_and_prevents_double_spend() {
    let pr = Pricing::default();
    let mut v = TV::new(&[(PosOwner::Me, 100, 0), (PosOwner::Neutral, 0, 0)]);
    v.resist[1] = 600.0;
    v.fr_eta[1] = Some(10);
    let mut ops = Vec::new();
    let moves_a = step(&v, &pr, SimpleDials::default(), &mut ops, 0);
    assert!(moves_a.is_empty(), "leg departs in the future -> nothing issued yet");
    assert_eq!(committed_out(&ops, 0), 30, "the wave's ships are reserved on the source");
    assert_eq!(spare(&v.board(&pr), SimpleDials::default(), &ops, 0), 60, "spare = 100 - floor(10) - reserved(30)");
    let moves_b = step(&v, &pr, SimpleDials::default(), &mut ops, 0);
    assert_eq!(ops.len(), 1, "no double-commit");
    assert!(moves_b.is_empty());
}

#[test]
fn every_move_carries_ships_and_sent_legs_are_issued() {
    let pr = Pricing::default();
    let mut v = TV::new(&[(PosOwner::Me, 100, 0), (PosOwner::Me, 100, 0), (PosOwner::Neutral, 0, 0)]);
    v.resist[2] = 12000.0;
    let mut ops = Vec::new();
    let first = step(&v, &pr, SimpleDials::default(), &mut ops, 0);
    assert!(first.iter().all(|m| m.count > 0));
    let before = ops.clone();
    let second = step(&v, &pr, SimpleDials::default(), &mut ops, 1);
    assert!(second.iter().all(|m| m.count > 0));
    assert!(ops.len() >= before.len());
    for new in ops[before.len()..].iter() {
        for ln in new.legs.iter().filter(|l| l.sent) {
            assert!(second.contains(&Move { src: ln.src, tgt: ln.tgt, count: ln.count }));
        }
    }
    for (old, new) in before.iter().zip(ops.iter()) {
        assert_eq!((old.target, old.land_at, old.legs.len()), (new.target, new.land_at, new.legs.len()));
        for (lo, ln) in old.legs.iter().zip(new.legs.iter()) {
            assert!(!lo.sent || ln.sent, "a sent leg stays sent");
            if ln.sent && !lo.sent {
                assert!(second.contains(&Move { src: ln.src, tgt: ln.tgt, count: ln.count }));
            }
        }
    }
    // The second source's leg fires at tick 1.
    assert!(second.contains(&Move { src: 1, tgt: 2, count: leg_for(&ops[0], 1).count }));
}

#[test]
fn deterministic_same_input_same_output() {
    let pr = Pricing::default();
    let mut v = TV::new(&[
        (PosOwner::Me, 80, 0),
        (PosOwner::Neutral, 0, 0),
        (PosOwner::Enemy, 0, 12),
        (PosOwner::Me, 40, 0),
    ]);
    v.resist[1] = 900.0;
    v.resist[2] = 1800.0;
    let mut ops_a = Vec::new();
    let mut ops_b = Vec::new();
    let ma = step(&v, &pr, SimpleDials::default(), &mut ops_a, 7);
    let mb = step(&v, &pr, SimpleDials::default(), &mut ops_b, 7);
    assert_eq!(ops_a, ops_b);
    assert_eq!(ma, mb);
}

#[test]
fn manning_tops_up_the_fort_before_fronts() {
    let pr = Pricing::default();
    let mut v = TV::new(&[(PosOwner::Me, 100, 0), (PosOwner::Me, 10, 0), (PosOwner::Neutral, 0, 0)]);
    v.fort_caps[1] = Some(90);
    let mut ops = vec![Op {
        target: 2,
        land_at: 100,
        legs: vec![Leg { src: 0, tgt: 2, count: 5, depart_at: 60, sent: false }],
    }];
    let moves = step(&v, &pr, SimpleDials::default(), &mut ops, 0);
    assert!(
        moves.contains(&Move { src: 0, tgt: 1, count: 80 }),
        "the fort is topped up to capacity first, got {moves:?}"
    );
    assert_eq!(ops.len(), 1, "no new op on top of the seeded one: {ops:?}");
}

#[test]
fn fort_floor_is_capacity_only_surplus_leaves() {
    let pr = Pricing::default();
    let mut v = TV::new(&[(PosOwner::Me, 120, 0), (PosOwner::Neutral, 0, 0)]);
    v.fort_caps[0] = Some(90);
    assert_eq!(spare(&v.board(&pr), SimpleDials::default(), &Vec::new(), 0), 30, "spare = ships above CAPACITY, not above the floor");
    let mut v2 = TV::new(&[(PosOwner::Me, 90, 0), (PosOwner::Neutral, 0, 0)]);
    v2.fort_caps[0] = Some(90);
    assert_eq!(spare(&v2.board(&pr), SimpleDials::default(), &Vec::new(), 0), 0, "a fort at capacity is never milked");
}

#[test]
fn fort_never_flees_it_pins_and_holds() {
    let pr = Pricing::default();
    let mut v = TV::new(&[(PosOwner::Me, 50, 200), (PosOwner::Me, 40, 0)]);
    v.fort_caps[0] = Some(90);
    let mut ops = Vec::new();
    let moves = step(&v, &pr, SimpleDials::default(), &mut ops, 0);
    assert!(
        !moves.iter().any(|m| m.src == 0),
        "the fort garrison holds — no evacuation, no sourcing: {moves:?}"
    );
}

#[test]
fn consolidates_surplus_when_nothing_to_do() {
    let pr = Pricing::default();
    let v = TV::new(&[(PosOwner::Me, 85, 0), (PosOwner::Me, 40, 0)]);
    let mut ops = Vec::new();
    let moves = step(&v, &pr, SimpleDials::default(), &mut ops, 0);
    assert!(ops.is_empty(), "nothing to plan — no op: {ops:?}");
    assert_eq!(moves, vec![Move { src: 0, tgt: 1, count: 25 }], "surplus (my - cap) consolidates");
}

#[test]
fn stages_toward_an_unfundable_front() {
    let pr = Pricing::default();
    let v = TV::new(&[(PosOwner::Me, 85, 0), (PosOwner::Me, 40, 0), (PosOwner::Enemy, 0, 500)]);
    let mut ops = Vec::new();
    let moves = step(&v, &pr, SimpleDials::default(), &mut ops, 0);
    assert!(ops.is_empty(), "nothing fundable — no op: {ops:?}");
    assert_eq!(
        moves,
        vec![Move { src: 0, tgt: 1, count: 75 }],
        "surplus above the floor stages at the muster (sub 1, nearest the target)"
    );
}

#[test]
fn no_consolidation_while_a_front_is_fundable() {
    let pr = Pricing::default();
    let mut v = TV::new(&[(PosOwner::Me, 85, 0), (PosOwner::Me, 40, 0), (PosOwner::Neutral, 0, 0)]);
    v.resist[2] = 600.0;
    let mut ops = Vec::new();
    let moves = step(&v, &pr, SimpleDials::default(), &mut ops, 0);
    assert_eq!(ops.len(), 1, "the neutral front is the objective");
    assert!(
        !moves.iter().any(|m| m.tgt == 1),
        "no friendly consolidation while a front is live: {moves:?}"
    );
}

#[test]
fn no_manning_without_an_ongoing_op() {
    let pr = Pricing::default();
    let mut v = TV::new(&[(PosOwner::Me, 100, 0), (PosOwner::Me, 10, 0), (PosOwner::Neutral, 0, 0)]);
    v.fort_caps[1] = Some(90);
    let mut ops = Vec::new();
    let moves = step(&v, &pr, SimpleDials::default(), &mut ops, 0);
    assert!(
        !moves.iter().any(|m| m.tgt == 1),
        "no manning while the struct has no active op: {moves:?}"
    );
    assert_eq!(ops.len(), 1, "the neutral front is committed instead");
    assert_eq!(ops[0].target, 2);
}

#[test]
fn gauntlet_toll_inflates_the_wave_or_blocks_it() {
    let mut pr = Pricing::default();
    pr.fort_toll = 1.0;
    let mut d = SimpleDials::default();
    d.fronts = 1;
    let mut v = TV::new(&[(PosOwner::Me, 100, 0), (PosOwner::Neutral, 0, 0)]);
    v.tolls[0][1] = 10;
    let mut ops = Vec::new();
    step(&v, &pr, d, &mut ops, 0);
    assert_eq!(ops.len(), 1);
    let total: u32 = ops[0].legs.iter().map(|l| l.count).sum();
    assert_eq!(total, 30, "the wave is oversized by the gauntlet toll");

    let mut v2 = TV::new(&[(PosOwner::Me, 35, 0), (PosOwner::Neutral, 0, 0)]);
    v2.tolls[0][1] = 10;
    let mut ops2 = Vec::new();
    let moves2 = step(&v2, &pr, d, &mut ops2, 0);
    assert!(ops2.is_empty(), "can't cover base + toll => no half-priced assault");
    assert!(moves2.is_empty());
}

#[test]
fn gauntlet_toll_is_paid_once_when_the_deepen_pass_reuses_a_source() {
    let mut pr = Pricing::default();
    pr.fort_toll = 1.0;
    let mut d = SimpleDials::default();
    d.fronts = 1;
    let mut v = TV::new(&[(PosOwner::Me, 100, 0), (PosOwner::Neutral, 0, 0)]);
    v.resist[1] = 1200.0;
    v.tolls[0][1] = 5;
    let mut ops = Vec::new();
    let moves = step(&v, &pr, d, &mut ops, 0);
    assert_eq!(ops.len(), 1);
    let total: u32 = ops[0].legs.iter().map(|l| l.count).sum();
    assert_eq!(total, 45, "max(40) + one toll(5), the phase-A toll cancels out");
    assert_eq!(moves, vec![Move { src: 0, tgt: 1, count: 45 }]);
}

#[test]
fn gate_route_commits_two_chained_legs() {
    let pr = Pricing::default();
    let mut v = TV::new(&[(PosOwner::Me, 100, 0), (PosOwner::Me, 0, 0), (PosOwner::Neutral, 0, 0)]);
    v.xs = vec![0, 5, 10];
    v.transit_over.push(((1, 2), 1));
    v.vias.push(((0, 2), (1, 6)));
    let mut ops = Vec::new();
    let moves = step(&v, &pr, SimpleDials::default(), &mut ops, 0);
    assert_eq!(ops.len(), 1);
    let legs = &ops[0].legs;
    assert_eq!(legs.len(), 2, "a routed wave is TWO chained legs: {legs:?}");
    assert_eq!((legs[0].src, legs[0].tgt, legs[0].count), (0, 1, 20), "walk to the teleporter");
    assert_eq!((legs[1].src, legs[1].tgt, legs[1].count), (1, 2, 20), "the instant hop out");
    assert!(legs[0].depart_at <= legs[1].depart_at, "the walk departs first");
    assert_eq!(legs[1].depart_at, 5);
    assert!(moves.contains(&Move { src: 0, tgt: 1, count: 20 }), "the walk-leg fires now");
}

#[test]
fn special_value_bonus_reorders_candidates() {
    let pr = Pricing::default();
    let mut d = SimpleDials::default();
    d.fronts = 1;
    let mut v = TV::new(&[(PosOwner::Me, 100, 0), (PosOwner::Neutral, 0, 0), (PosOwner::Neutral, 0, 0)]);
    v.xs = vec![0, 1, 3];
    v.coverage[2] = 0.5;
    let mut ops = Vec::new();
    step(&v, &pr, d, &mut ops, 0);
    assert_eq!(ops[0].target, 2, "the commanding fort outranks the nearer plain neutral");
}

#[test]
fn enemy_fort_ranks_as_if_at_its_zone_edge() {
    let mut pr = Pricing::default();
    pr.fort_toll = 0.0;
    let mut d = SimpleDials::default();
    d.fronts = 1;
    let mut v = TV::new(&[(PosOwner::Me, 100, 0), (PosOwner::Enemy, 0, 0), (PosOwner::Enemy, 0, 0)]);
    v.xs = vec![0, 10, 25];
    v.reaches[2] = 20.0;
    let mut ops = Vec::new();
    step(&v, &pr, d, &mut ops, 0);
    assert_eq!(ops[0].target, 2, "distance − fort_reach ranks the fort first");
}

#[test]
fn routed_leg_pays_the_walk_to_gate_toll_only() {
    let mut pr = Pricing::default();
    pr.fort_toll = 1.0;
    let mut d = SimpleDials::default();
    d.fronts = 1;
    let mut v = TV::new(&[(PosOwner::Me, 100, 0), (PosOwner::Me, 0, 0), (PosOwner::Neutral, 0, 0)]);
    v.xs = vec![0, 5, 10];
    v.transit_over.push(((1, 2), 1));
    v.vias.push(((0, 2), (1, 6)));
    v.tolls[0][2] = 50;
    v.tolls[0][1] = 10;
    let mut ops = Vec::new();
    step(&v, &pr, d, &mut ops, 0);
    assert_eq!(ops.len(), 1);
    let total: u32 = ops[0].legs.iter().map(|l| l.count).sum();
    assert_eq!(ops[0].legs.len(), 2);
    assert_eq!(total, 60, "30 ships through both legs: base 20 + the walk's toll 10");
}

#[test]
fn landed_ops_expire_and_due_legs_fire_late() {
    let pr = Pricing::default();
    let v = TV::new(&[(PosOwner::Me, 12, 0), (PosOwner::Me, 12, 0)]);
    let mut ops = vec![
        Op { target: 1, land_at: 5, legs: vec![Leg { src: 0, tgt: 1, count: 2, depart_at: 3, sent: true }] },
        Op { target: 1, land_at: 5, legs: vec![Leg { src: 0, tgt: 1, count: 2, depart_at: 4, sent: false }] },
    ];
    let moves = step(&v, &pr, SimpleDials::default(), &mut ops, 9);
    assert_eq!(ops.len(), 1, "the landed, fully sent op is dropped");
    assert!(ops[0].legs[0].sent, "the overdue leg fired");
    assert_eq!(moves, vec![Move { src: 0, tgt: 1, count: 2 }]);
}

#[test]
fn an_empty_board_changes_nothing() {
    let v = TV::new(&[]);
    let mut ops = vec![Op { target: 0, land_at: 0, legs: Vec::new() }];
    let moves = step(&v, &Pricing::default(), SimpleDials::default(), &mut ops, 100);
    assert!(moves.is_empty());
    assert_eq!(ops.len(), 1);
}

#[test]
fn the_ledger_steps_one_struct_and_keeps_the_others() {
    let pr = Pricing::default();
    let mut v = TV::new(&[(PosOwner::Me, 100, 0), (PosOwner::Neutral, 0, 0)]);
    v.resist[1] = 600.0;
    let mut ledger = SimpleLedger::new();
    ledger.track_structs(2);
    let moves = ledger.step(1, &v.board(&pr), SimpleDials::default(), 0);
    assert_eq!(moves, vec![Move { src: 0, tgt: 1, count: 30 }]);
    assert!(ledger.operations[0].is_empty(), "the other struct's ledger is untouched");
    assert_eq!(ledger.operations[1].len(), 1);
    assert_eq!(ledger.operations[1][0].target, 1);
}
