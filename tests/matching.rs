use crucible::matching::solve_matching_problem;

fn increasing(res: &[i32]) -> bool {
    let matched: Vec<i32> = res.iter().copied().filter(|&c| c != -1).collect();
    matched.windows(2).all(|w| w[0] < w[1])
}

#[test]
fn dp_unit_diagonal() {
    let w = vec![(0, 0, 2), (1, 1, 2), (2, 2, 2)];
    assert_eq!(solve_matching_problem((3, 3), w), vec![0, 1, 2]);
}

#[test]
fn dp_unit_strong_off_diagonal() {
    // the weight 100 at (0, 2) outweighs the whole diagonal (6), and a
    // monotone matching cannot keep both
    let w = vec![(0, 0, 2), (1, 1, 2), (2, 2, 2), (0, 2, 100)];
    assert_eq!(solve_matching_problem((3, 3), w), vec![2, -1, -1]);
}

#[test]
fn dp_empty_weights_match_nothing() {
    assert_eq!(solve_matching_problem((4, 7), vec![]), vec![-1, -1, -1, -1]);
}

#[test]
fn dp_sparse_coordinates_map_back() {
    let w = vec![(1, 3, 5), (4, 8, 5)];
    assert_eq!(solve_matching_problem((6, 10), w), vec![-1, 3, -1, -1, 8, -1]);
}

#[test]
fn dp_crossing_weights_keep_the_heavier() {
    // (0, 5) and (1, 2) cross; the heavier one wins
    let w = vec![(0, 5, 3), (1, 2, 7)];
    assert_eq!(solve_matching_problem((2, 6), w), vec![-1, 2]);
    let w = vec![(0, 5, 9), (1, 2, 7)];
    assert_eq!(solve_matching_problem((2, 6), w), vec![5, -1]);
}

#[test]
fn dp_tie_between_up_and_left_goes_up() {
    // crossing pair of equal weight: at the last cell up and left tie and
    // the diagonal has no evidence, so up is taken
    let w = vec![(0, 1, 4), (1, 0, 4)];
    let res = solve_matching_problem((2, 2), w);
    assert_eq!(res, vec![1, -1]);
}

#[test]
fn dp_result_is_strictly_increasing() {
    let mut w = vec![];
    for r in 0..12u32 {
        for c in 0..9u32 {
            w.push((r, c, ((r * 7 + c * 13) % 5) as u64));
        }
    }
    let res = solve_matching_problem((12, 9), w);
    assert_eq!(res.len(), 12);
    assert!(increasing(&res));
    assert!(res.iter().any(|&c| c != -1));
}

#[test]
fn dp_zero_weight_is_never_matched() {
    let w = vec![(0, 0, 0), (1, 1, 0)];
    assert_eq!(solve_matching_problem((2, 2), w), vec![-1, -1]);
}

#[test]
fn dp_later_entry_replaces_earlier() {
    let w = vec![(0, 0, 5), (0, 0, 0)];
    assert_eq!(solve_matching_problem((1, 1), w), vec![-1]);
}

#[test]
fn dp_diagonal_keeps_a_tie() {
    // at the last cell the diagonal (0 + 1) ties with left (1): the diagonal stays
    let w = vec![(0, 0, 1), (0, 1, 1)];
    assert_eq!(solve_matching_problem((1, 2), w), vec![1]);
}
