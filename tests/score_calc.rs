use crucible::score_calc::{cache_key, chunk_size, select_top_hits, split_top_hits};
use crucible::structures::SCORE_ONE;

#[test]
fn chunk_size_is_clamped_share() {
    assert_eq!(chunk_size(0, 4), 400);
    assert_eq!(chunk_size(10000, 4), 1000);
    assert_eq!(chunk_size(2000, 4), 500);
    assert_eq!(chunk_size(2001, 4), 501);
    assert_eq!(chunk_size(4000, 1), 1000);
}

#[test]
fn cache_key_is_big_endian_pair() {
    assert_eq!(
        cache_key(1, 258),
        vec![0, 0, 0, 0, 0, 0, 0, 1, 0, 0, 0, 0, 0, 0, 1, 2]
    );
    assert_eq!(cache_key(u64::MAX, 0)[..8], [255u8; 8]);
}

#[test]
fn single_hit_keeps_full_score() {
    assert_eq!(select_top_hits(vec![(0, SCORE_ONE)]), vec![(0, SCORE_ONE)]);
}

#[test]
fn top_hits_are_ranked_and_cut() {
    let cands: Vec<(u32, u64)> = (0..12u32).map(|h| (h, (h % 5) as u64)).collect();
    let top = select_top_hits(cands);
    assert_eq!(top.len(), 10);
    assert_eq!(
        top,
        vec![(4, 4), (9, 4), (3, 3), (8, 3), (2, 2), (7, 2), (1, 1), (6, 1), (11, 1), (0, 0)]
    );
}

#[test]
fn split_keeps_every_candidate() {
    let (chosen, rest) = split_top_hits(vec![(3, 1), (1, 1), (2, 5)], 2);
    assert_eq!(chosen, vec![(2, 5), (1, 1)]);
    assert_eq!(rest, vec![(3, 1)]);
}

#[test]
fn no_candidates_no_hits() {
    assert!(select_top_hits(vec![]).is_empty());
}
