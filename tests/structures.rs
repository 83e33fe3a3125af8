use crucible::structures::{transpose_lists, AdderPayload, CrucibleCtxt, HmmMeta, SCORE_ONE};

fn meta(lo: usize, hi: usize) -> HmmMeta {
    HmmMeta::new((lo, hi), vec![1, 2], vec![0, 3])
}

#[test]
fn hmm_meta_fields() {
    let m = meta(2, 7);
    assert_eq!(m.sequence_range, (2, 7));
    assert_eq!(m.chars_cnt, vec![1, 2]);
    assert_eq!(m.column_poitions, vec![0, 3]);
    assert_eq!(m.num_seqs(), 5);
}

#[test]
fn crucible_ctxt_counts() {
    let c = CrucibleCtxt::new(vec![meta(0, 4), meta(0, 2), meta(2, 4)]);
    assert_eq!(c.version, 0);
    assert_eq!(c.num_hmms(), 3);
    assert_eq!(c.num_consensus_columns(), 2);
}

#[test]
fn transpose_groups_by_hmm() {
    let c = CrucibleCtxt::new(vec![meta(0, 4), meta(0, 2), meta(2, 4)]);
    let p = AdderPayload {
        sequence_tophits: vec![vec![(1, 30), (0, 10)], vec![], vec![(0, 5), (2, 7)]],
    };
    let t = p.transpose(&c);
    assert_eq!(t, vec![vec![(0, 10), (2, 5)], vec![(0, 30)], vec![(2, 7)]]);
    let total: usize = t.iter().map(|l| l.len()).sum();
    assert_eq!(total, 4);
}

#[test]
fn transpose_twice_keeps_each_list() {
    let rows = vec![vec![(2, 9), (0, 4), (1, SCORE_ONE)], vec![(1, 3)], vec![], vec![(0, 1), (2, 2)]];
    let once = transpose_lists(&rows, 3);
    let twice = transpose_lists(&once, rows.len());
    assert_eq!(twice.len(), rows.len());
    for (a, b) in rows.iter().zip(twice.iter()) {
        let mut a = a.clone();
        let mut b = b.clone();
        a.sort();
        b.sort();
        assert_eq!(a, b);
    }
    assert_eq!(twice[0], vec![(0, 4), (1, SCORE_ONE), (2, 9)]);
}

#[test]
fn transpose_to_hmms_without_hits() {
    let t = transpose_lists(&vec![], 2);
    assert_eq!(t, vec![Vec::<(u32, u64)>::new(), vec![]]);
}
