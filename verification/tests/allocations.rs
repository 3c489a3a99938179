use lib::bestresponse::{candidate_allocations, is_target, AllocBoard, Lens};

fn board(
    secure: Vec<bool>,
    surplus: Vec<u32>,
    lens_target: Vec<bool>,
    neutral: Vec<bool>,
    next_hop: Vec<Vec<Option<usize>>>,
    path_rank: Vec<Vec<Option<u64>>>,
) -> AllocBoard {
    AllocBoard { secure, surplus, lens_target, neutral, next_hop, path_rank }
}

fn two_sources_two_neutrals() -> AllocBoard {
    board(
        vec![true, true, false, false],
        vec![5, 3, 0, 0],
        vec![false, false, true, true],
        vec![false, false, true, true],
        vec![
            vec![None, Some(1), Some(2), Some(2)],
            vec![Some(0), None, Some(2), Some(3)],
            vec![Some(0), Some(1), None, Some(3)],
            vec![Some(2), Some(1), Some(2), None],
        ],
        vec![
            vec![Some(0), Some(1), Some(1), Some(2)],
            vec![Some(1), Some(0), Some(1), Some(1)],
            vec![Some(1), Some(1), Some(0), Some(1)],
            vec![Some(2), Some(1), Some(1), Some(0)],
        ],
    )
}

#[test]
fn hold_then_concentrate_per_target_then_spread() {
    let c = candidate_allocations(&two_sources_two_neutrals());
    assert_eq!(
        c,
        vec![
            vec![],
            vec![(0, 2), (1, 2)],
            vec![(0, 2), (1, 3)],
            vec![(0, 2), (1, 3)],
        ]
    );
}

#[test]
fn no_source_means_only_hold() {
    let mut b = two_sources_two_neutrals();
    b.surplus = vec![0, 0, 0, 0];
    assert_eq!(candidate_allocations(&b), vec![Vec::<(usize, usize)>::new()]);
    let mut b = two_sources_two_neutrals();
    b.secure = vec![false, false, false, false];
    assert_eq!(candidate_allocations(&b), vec![Vec::<(usize, usize)>::new()]);
}

#[test]
fn spread_takes_the_first_of_equally_near_neutrals_and_skips_taken_ones() {
    let mut b = two_sources_two_neutrals();
    b.path_rank[0][2] = Some(5);
    b.path_rank[0][3] = Some(5);
    let c = candidate_allocations(&b);
    // Source 0 takes target 2 (first on the tie), so source 1 spreads to 3.
    assert_eq!(c.last().unwrap(), &vec![(0, 2), (1, 3)]);
    // With target 3 nearer for source 0, source 1 falls back on 2.
    b.path_rank[0][3] = Some(1);
    let c = candidate_allocations(&b);
    assert_eq!(c.last().unwrap(), &vec![(0, 2), (1, 2)]);
}

#[test]
fn spread_ignores_non_neutral_targets_and_empty_options_are_dropped() {
    let mut b = two_sources_two_neutrals();
    b.neutral = vec![false, false, false, false];
    let c = candidate_allocations(&b);
    assert_eq!(c, vec![vec![], vec![(0, 2), (1, 2)], vec![(0, 2), (1, 3)]]);
}

#[test]
fn unreached_lens_planets_are_no_targets() {
    let mut b = two_sources_two_neutrals();
    b.next_hop[0][3] = None;
    b.next_hop[1][3] = None;
    let c = candidate_allocations(&b);
    assert_eq!(c, vec![vec![], vec![(0, 2), (1, 2)], vec![(0, 2)]]);
}

#[test]
fn lenses_admit_their_target_classes() {
    assert!(is_target(Lens::Expand, false, true, false));
    assert!(!is_target(Lens::Expand, false, false, true));
    assert!(is_target(Lens::Assault, false, false, true));
    assert!(!is_target(Lens::Assault, false, true, false));
    assert!(is_target(Lens::Fortify, false, false, true));
    assert!(is_target(Lens::Fortify, true, false, false));
    assert!(!is_target(Lens::Fortify, false, false, false));
}
