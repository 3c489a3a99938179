use lib::automata::{
    attack, colonize, defend, simple_colonize, AttackParams, Automaton, ColonizeParams,
    DefendParams, Signals, SimpleColonizerParams,
};
use lib::greedy::GreedyKind;
use lib::position::{PosOwner, PositionInfo, PositionView, Side};

/// A line of positions with per-position property signals and synthetic projection answers.
/// Distance is `|dx|`.
#[derive(Clone)]
struct ProgView {
    infos: Vec<PositionInfo>,
    xs: Vec<f32>,
    resist: Vec<f32>,
    present_me: Vec<u32>,
    present_foe: Vec<u32>,
    idle_me: Vec<u32>,
    soft_cap: Vec<u32>,
    parked_ratio: Vec<f32>,
    next_owner: Vec<Option<Side>>,
    capture_eta: Vec<Option<u64>>,
    marginal: Vec<u64>,
    force_eff: Vec<Option<u32>>,
    incoming_me: Vec<u32>,
    returning: Vec<u32>,
    transit: u64,
}

/// The float dials of the automatons, as the host holds them.
const SHIPS_PER_RES: f32 = 0.02;
const OVERSTACK_FRAC: f32 = 0.8;
const HEAL_OUTLAST_MARGIN: f32 = 1.25;
const SOFTCAP_SPEND_TRIGGER: f32 = 0.8;
const SOFTCAP_SPEND_SLACK: u32 = 2;

impl ProgView {
    fn new(rows: &[(PosOwner, u32, u32)]) -> ProgView {
        let n = rows.len();
        let infos = rows
            .iter()
            .enumerate()
            .map(|(i, &(owner, my, en))| PositionInfo {
                id: i,
                owner,
                my_ships: my,
                enemy_ships: en,
                contested: (owner == PosOwner::Me || my > 0) && (owner == PosOwner::Enemy || en > 0),
            })
            .collect();
        ProgView {
            infos,
            xs: (0..n).map(|i| i as f32).collect(),
            resist: vec![0.0; n],
            present_me: rows.iter().map(|&(_, m, _)| m).collect(),
            present_foe: rows.iter().map(|&(_, _, e)| e).collect(),
            idle_me: rows.iter().map(|&(_, m, _)| m).collect(),
            soft_cap: vec![30; n],
            parked_ratio: vec![0.0; n],
            next_owner: vec![None; n],
            capture_eta: vec![None; n],
            marginal: vec![0; n],
            force_eff: vec![Some(0); n],
            incoming_me: vec![0; n],
            returning: vec![0; n],
            transit: 5,
        }
    }

    fn n(&self) -> usize {
        self.infos.len()
    }

    fn distance(&self, a: usize, b: usize) -> f32 {
        (self.xs[a] - self.xs[b]).abs()
    }

    fn board(&self) -> PositionView {
        let n = self.n();
        let dist = (0..n)
            .map(|a| (0..n).map(|b| Some(self.distance(a, b).to_bits() as u64)).collect())
            .collect();
        let mut v = PositionView::new(self.infos.clone(), dist).expect("a well-formed board");
        for (i, o) in self.next_owner.iter().enumerate() {
            v.set_next_owner(i, *o);
        }
        v
    }

    fn would_overstack(&self, id: usize) -> bool {
        let cap = self.soft_cap[id];
        if cap == 0 || cap == u32::MAX {
            return false;
        }
        self.idle_me[id] as f32 >= OVERSTACK_FRAC * cap as f32
    }

    fn soft_cap_spend_ratio(&self, id: usize) -> f32 {
        let cap = self.soft_cap[id];
        if cap == 0 || cap == u32::MAX {
            return 1.0;
        }
        cap.saturating_sub(SOFTCAP_SPEND_SLACK) as f32 / cap as f32
    }

    fn nearest_owned_dist(&self, t: usize) -> Option<f32> {
        let mut best: Option<f32> = None;
        for o in 0..self.n() {
            if self.infos[o].owner != PosOwner::Me || o == t {
                continue;
            }
            let d = self.distance(o, t);
            best = Some(best.map_or(d, |b| b.min(d)));
        }
        best
    }

    fn heal_bar(&self, id: usize) -> u32 {
        let x = HEAL_OUTLAST_MARGIN * (self.returning[id].max(1) as f32);
        let mut h = x.ceil() as u32;
        while h > 0 && ((h - 1) as f32) >= x {
            h -= 1;
        }
        h
    }

    /// The signals priced at the default dials; `defend` picks the turtle's soft-cap threshold.
    fn signals(&self, defend: bool) -> Signals {
        let n = self.n();
        Signals {
            resistance_left: self.resist.iter().map(|&r| r > 0.0).collect(),
            res_goal: self.resist.iter().map(|&r| (SHIPS_PER_RES * r).ceil() as u32).collect(),
            present_me: self.present_me.clone(),
            present_foe: self.present_foe.clone(),
            capture_eta: self.capture_eta.clone(),
            incoming_mine: self.incoming_me.clone(),
            transit: vec![vec![Some(self.transit); n]; n],
            marginal: (0..n).map(|t| vec![self.marginal[t]; n]).collect(),
            force_needed: self.force_eff.clone(),
            over_cap: (0..n)
                .map(|i| {
                    let threshold =
                        if defend { self.soft_cap_spend_ratio(i) } else { SOFTCAP_SPEND_TRIGGER };
                    self.parked_ratio[i] >= threshold
                })
                .collect(),
            overstacked: (0..n).map(|i| self.would_overstack(i)).collect(),
            siege_cost: (0..n)
                .map(|t| {
                    let foe = self.present_foe[t] as f32;
                    let dist = self.nearest_owned_dist(t).unwrap_or(0.0);
                    let cost = foe + 0.10 * dist + 0.02 * self.resist[t];
                    cost.to_bits() as u64
                })
                .collect(),
            heal_bar: (0..n).map(|i| self.heal_bar(i)).collect(),
            hold_keep: (0..n)
                .map(|i| (HEAL_OUTLAST_MARGIN * self.returning[i] as f32).ceil() as u32)
                .collect(),
        }
    }
}

#[test]
fn simple_colonizer_sizes_wave_to_resistance_and_fills_nearest_first() {
    let mut v = ProgView::new(&[
        (PosOwner::Me, 20, 0),
        (PosOwner::Neutral, 0, 0),
        (PosOwner::Neutral, 0, 0),
    ]);
    v.resist = vec![0.0, 50.0, 100.0];
    let p = SimpleColonizerParams::default();
    let acts = simple_colonize(&v.board(), &v.signals(false), &p);
    assert!(!acts.is_empty(), "simple colonizer should send a wave");
    let first = &acts[0];
    assert_eq!(first.from, 0);
    assert_eq!(first.to, 1, "nearest-first: the near target gets served first");
    assert_eq!(first.kind, GreedyKind::Wave);
    assert!(first.count <= 6 + 1, "wave sized ~to resistance goal, got {}", first.count);
}

#[test]
fn simple_colonizer_does_not_oversend_past_goal() {
    let mut v = ProgView::new(&[(PosOwner::Me, 20, 0), (PosOwner::Neutral, 0, 0)]);
    v.resist = vec![0.0, 50.0];
    v.incoming_me = vec![0, 6];
    let acts = simple_colonize(&v.board(), &v.signals(false), &SimpleColonizerParams::default());
    assert!(
        acts.iter().all(|a| a.to != 1),
        "no over-send: a target whose committed (in-flight) already meets the goal gets nothing"
    );
}

#[test]
fn simple_colonizer_keeps_the_retreat_reflex_and_no_rear_guard() {
    let mut v = ProgView::new(&[
        (PosOwner::Me, 4, 9),
        (PosOwner::Neutral, 0, 0),
        (PosOwner::Me, 3, 0),
    ]);
    v.resist = vec![0.0, 40.0, 0.0];
    let acts = simple_colonize(&v.board(), &v.signals(false), &SimpleColonizerParams::default());
    let r = acts.iter().find(|a| a.from == 0).expect("the losing position retreats");
    assert_eq!(r.kind, GreedyKind::Retreat);
    assert_eq!(r.to, 2, "retreat to the nearest safe owned rear");
}

#[test]
fn colonize_sends_only_while_the_marginal_ship_pays() {
    let mut v = ProgView::new(&[
        (PosOwner::Me, 20, 0),
        (PosOwner::Neutral, 0, 0),
        (PosOwner::Neutral, 0, 0),
    ]);
    v.resist = vec![0.0, 60.0, 60.0];
    v.marginal = vec![0, 20, 2];
    v.transit = 5;
    v.xs = vec![0.0, 5.0, 1.0];
    let acts = colonize(&v.board(), &v.signals(false), &ColonizeParams::default());
    assert!(acts.iter().any(|a| a.to == 1), "sends to the paying front, got {acts:?}");
    assert!(
        acts.iter().all(|a| a.to != 2),
        "never sends to a target where the marginal ship does not pay its transit, got {acts:?}"
    );
}

#[test]
fn colonize_skips_targets_the_enemy_takes_first() {
    let mut v = ProgView::new(&[(PosOwner::Me, 20, 0), (PosOwner::Neutral, 0, 0)]);
    v.resist = vec![0.0, 60.0];
    v.marginal = vec![0, 50];
    v.next_owner = vec![None, Some(Side::Foe)];
    let acts = colonize(&v.board(), &v.signals(false), &ColonizeParams::default());
    assert!(acts.is_empty(), "colonize abandons a neutral the enemy will take first");
}

#[test]
fn attack_pre_contact_develops_like_colonize() {
    let mut v = ProgView::new(&[(PosOwner::Me, 20, 0), (PosOwner::Neutral, 0, 0)]);
    v.resist = vec![0.0, 60.0];
    v.marginal = vec![0, 50];
    v.transit = 5;
    let acts = attack(&v.board(), &v.signals(false), &AttackParams::default());
    assert!(!acts.is_empty(), "pre-contact attack develops rather than idling");
    assert!(acts.iter().any(|a| a.to == 1));
}

#[test]
fn attack_spearhead_holds_until_it_can_win_efficiently_then_commits() {
    let mut v = ProgView::new(&[(PosOwner::Me, 10, 0), (PosOwner::Enemy, 0, 5)]);
    v.force_eff = vec![Some(0), Some(15)];
    v.returning = vec![0, 0];
    let acts = attack(&v.board(), &v.signals(false), &AttackParams::default());
    assert!(
        acts.iter().all(|a| a.to != 1),
        "thin spearhead HOLDS (does not feed the target piecemeal), got {acts:?}"
    );

    v.infos[0].my_ships = 20;
    v.present_me[0] = 20;
    v.idle_me[0] = 20;
    let acts2 = attack(&v.board(), &v.signals(false), &AttackParams::default());
    let spear = acts2.iter().find(|a| a.from == 0).expect("staging acts");
    assert_eq!(spear.to, 1, "ready spearhead commits at the target");
    assert_eq!(spear.kind, GreedyKind::Wave);
}

#[test]
fn attack_denies_a_productive_foe_sub_when_production_superior() {
    let mut v = ProgView::new(&[
        (PosOwner::Me, 20, 0),
        (PosOwner::Enemy, 0, 2),
        (PosOwner::Me, 20, 0),
        (PosOwner::Enemy, 0, 8),
        (PosOwner::Me, 5, 0),
    ]);
    v.force_eff = vec![Some(0), Some(4), Some(0), Some(40), Some(0)];
    v.returning = vec![0, 99, 0, 0, 0];
    let acts = attack(&v.board(), &v.signals(false), &AttackParams::default());
    assert!(
        acts.iter().any(|a| a.kind == GreedyKind::Deny && a.to == 3),
        "production-superior attack parks a denial detachment on a productive foe sub, got {acts:?}"
    );
}

#[test]
fn defend_masses_to_the_efficient_force_not_infinite() {
    let mut v = ProgView::new(&[(PosOwner::Me, 4, 3), (PosOwner::Me, 30, 0)]);
    v.present_me = vec![4, 30];
    v.force_eff = vec![Some(12), Some(0)];
    let acts = defend(&v.board(), &v.signals(true), &DefendParams::default());
    let reinf = acts.iter().find(|a| a.to == 0).expect("defend reinforces the threatened sub");
    assert_eq!(reinf.from, 1);
    assert_eq!(reinf.count, 8, "masses to the EFFICIENT deficit (12-4), not the whole rear stack");
}

#[test]
fn defend_reinforces_the_sub_that_falls_first() {
    let mut v = ProgView::new(&[
        (PosOwner::Me, 5, 0),
        (PosOwner::Me, 30, 0),
        (PosOwner::Me, 5, 0),
    ]);
    v.present_me = vec![5, 30, 5];
    v.capture_eta = vec![Some(40), None, Some(20)];
    v.next_owner = vec![Some(Side::Foe), None, Some(Side::Foe)];
    v.force_eff = vec![Some(10), Some(0), Some(10)];
    let acts = defend(&v.board(), &v.signals(true), &DefendParams::default());
    let reinf = acts.iter().find(|a| a.kind == GreedyKind::Wave).expect("a reinforcement fires");
    assert_eq!(reinf.to, 2, "reinforce the sub the projection says falls FIRST");
}

#[test]
fn defend_colonizes_only_the_genuine_cap_surplus() {
    let mut v = ProgView::new(&[
        (PosOwner::Me, 10, 0),
        (PosOwner::Neutral, 0, 0),
        (PosOwner::Me, 40, 0),
    ]);
    v.soft_cap = vec![30, 30, 30];
    v.parked_ratio = vec![0.3, 0.0, 1.2];
    v.resist = vec![0.0, 50.0, 0.0];
    let acts = defend(&v.board(), &v.signals(true), &DefendParams::default());
    assert!(
        acts.iter().any(|a| a.from == 2 && a.to == 1),
        "the over-cap planet colonizes its genuine surplus, got {acts:?}"
    );
    assert!(
        acts.iter().all(|a| a.from != 0),
        "the below-cap planet holds its healing reserve (does not colonize), got {acts:?}"
    );
}

#[test]
fn automaton_handle_dispatches_each_program() {
    let mut v = ProgView::new(&[(PosOwner::Me, 20, 0), (PosOwner::Neutral, 0, 0)]);
    v.resist = vec![0.0, 60.0];
    v.marginal = vec![0, 50];
    for auto in [
        Automaton::SimpleColonizer(SimpleColonizerParams::default()),
        Automaton::Colonize(ColonizeParams::default()),
        Automaton::Attack(AttackParams::default()),
        Automaton::Defend(DefendParams::default()),
    ] {
        let defend = matches!(auto, Automaton::Defend(_));
        let _ = auto.decide(&v.board(), &v.signals(defend));
        assert!(!auto.name().is_empty());
    }
}

// ---- Exact scenarios of the programs and their laws. ----

#[test]
fn simple_colonizer_fills_the_near_target_to_its_goal_then_the_far_one() {
    // Goals: ceil(0.02 * 300) = 6 toward the near target, ceil(0.02 * 400) = 8 toward the far
    // one; the home's 18 surplus covers both exactly: 6 then 8.
    let mut v = ProgView::new(&[
        (PosOwner::Me, 20, 0),
        (PosOwner::Neutral, 0, 0),
        (PosOwner::Neutral, 0, 0),
    ]);
    v.resist = vec![0.0, 300.0, 400.0];
    let acts = simple_colonize(&v.board(), &v.signals(false), &SimpleColonizerParams::default());
    assert_eq!(acts.len(), 2);
    assert_eq!((acts[0].from, acts[0].to, acts[0].count), (0, 1, 6));
    assert_eq!((acts[1].from, acts[1].to, acts[1].count), (0, 2, 8));
}

#[test]
fn simple_colonizer_tops_up_only_the_missing_ships() {
    // Goal 6 with 4 already inbound: exactly 2 more go.
    let mut v = ProgView::new(&[(PosOwner::Me, 20, 0), (PosOwner::Neutral, 0, 0)]);
    v.resist = vec![0.0, 300.0];
    v.incoming_me = vec![0, 4];
    let acts = simple_colonize(&v.board(), &v.signals(false), &SimpleColonizerParams::default());
    assert_eq!(acts.len(), 1);
    assert_eq!(acts[0].count, 2);
}

#[test]
fn colonize_caps_a_wave_at_wave_max() {
    let mut v = ProgView::new(&[(PosOwner::Me, 40, 0), (PosOwner::Neutral, 0, 0)]);
    v.resist = vec![0.0, 60.0];
    v.marginal = vec![0, 50];
    let acts = colonize(&v.board(), &v.signals(false), &ColonizeParams::default());
    assert_eq!(acts.len(), 1);
    assert_eq!((acts[0].from, acts[0].to, acts[0].count), (0, 1, 16));
}

#[test]
fn colonize_never_pours_onto_an_overstacked_front() {
    let mut v = ProgView::new(&[(PosOwner::Me, 40, 0), (PosOwner::Neutral, 0, 0)]);
    v.resist = vec![0.0, 60.0];
    v.marginal = vec![0, 50];
    v.idle_me = vec![40, 25]; // 25 >= 0.8 * 30
    let acts = colonize(&v.board(), &v.signals(false), &ColonizeParams::default());
    assert!(acts.is_empty(), "an over-stacked front receives nothing, got {acts:?}");
}

#[test]
fn attack_grind_site_releases_only_overflow_when_capped() {
    // Staging 0 besieges foe 1; position 2 is a contested grind site holding 20 with a
    // returning heal of 8 (keep = max(4, ceil(1.25 * 8)) = 10); over the soft cap it releases
    // the 10 above the keep to the staging.
    let mut v = ProgView::new(&[
        (PosOwner::Me, 3, 0),
        (PosOwner::Enemy, 0, 5),
        (PosOwner::Me, 20, 0),
    ]);
    v.xs = vec![1.0, 0.0, 2.0];
    v.force_eff = vec![Some(0), Some(50), Some(0)];
    v.capture_eta = vec![None, None, Some(30)];
    v.returning = vec![0, 0, 8];
    v.parked_ratio = vec![0.0, 0.0, 0.9];
    let acts = attack(&v.board(), &v.signals(false), &AttackParams::default());
    let rel = acts.iter().find(|a| a.from == 2).expect("the capped grind site releases");
    assert_eq!((rel.to, rel.count, rel.kind), (0, 10, GreedyKind::Wave));
}

#[test]
fn defend_counter_punches_the_weakest_foe_when_not_outexpanded() {
    // No threat, no neutral left, over the cap at 1: the turtle (2 owned vs 2 foe) presses the
    // weakest foe position (3 ships at 3, not 9 at 2) with at most 30 ships.
    let mut v = ProgView::new(&[
        (PosOwner::Me, 5, 0),
        (PosOwner::Me, 60, 0),
        (PosOwner::Enemy, 0, 9),
        (PosOwner::Enemy, 0, 3),
    ]);
    v.parked_ratio = vec![0.0, 2.0, 0.0, 0.0];
    let acts = defend(&v.board(), &v.signals(true), &DefendParams::default());
    assert_eq!(acts.len(), 1);
    assert_eq!((acts[0].from, acts[0].to, acts[0].count), (1, 3, 30));
}
