use crucible::melt::{build_metadata, hierarchical_decomp, letter_prefix_counts, subset_meta, Tree};
use crucible::structures::CrucibleCtxt;

// ((A,B),(C,D))
fn four_leaves() -> Tree {
    Tree {
        taxa: vec![-1, -1, 0, 1, -1, 2, 3],
        parents: vec![-1, 0, 1, 1, 0, 4, 4],
        postorder: vec![2, 3, 1, 5, 6, 4, 0],
        ntaxa: 4,
    }
}

// (((A,B),(C,D)),((E,F),(G,H)))
fn eight_leaves() -> Tree {
    Tree {
        taxa: vec![-1, -1, -1, 0, 1, -1, 2, 3, -1, -1, 4, 5, -1, 6, 7],
        parents: vec![-1, 0, 1, 2, 2, 1, 5, 5, 0, 8, 9, 9, 8, 12, 12],
        postorder: vec![3, 4, 2, 6, 7, 5, 1, 10, 11, 9, 13, 14, 12, 8, 0],
        ntaxa: 8,
    }
}

// ((A,(B,C)),D)
fn skewed() -> Tree {
    Tree {
        taxa: vec![-1, -1, 0, -1, 1, 2, 3],
        parents: vec![-1, 0, 1, 1, 3, 3, 0],
        postorder: vec![2, 4, 5, 3, 1, 6, 0],
        ntaxa: 4,
    }
}

#[test]
fn trivial_identity_single_subset() {
    let h = hierarchical_decomp(&four_leaves(), 4);
    assert_eq!(h.decomposition_ranges, vec![(0, 4)]);
    assert_eq!(h.reordered_taxa, vec![0, 1, 2, 3]);
    assert_eq!(h.taxa_positions, vec![0, 1, 2, 3]);
}

#[test]
fn two_subsets_of_eight() {
    let h = hierarchical_decomp(&eight_leaves(), 4);
    assert_eq!(h.decomposition_ranges, vec![(0, 8), (0, 4), (4, 8)]);
    assert_eq!(h.reordered_taxa, (0..8).collect::<Vec<usize>>());
}

#[test]
fn decomposition_is_deterministic() {
    let a = hierarchical_decomp(&eight_leaves(), 2);
    let b = hierarchical_decomp(&eight_leaves(), 2);
    assert_eq!(a.reordered_taxa, b.reordered_taxa);
    assert_eq!(a.decomposition_ranges, b.decomposition_ranges);
    assert_eq!(
        a.decomposition_ranges,
        vec![(0, 8), (0, 4), (4, 8), (4, 6), (6, 8), (0, 2), (2, 4)]
    );
}

#[test]
fn skewed_tree_moves_cut_taxa_first() {
    let h = hierarchical_decomp(&skewed(), 2);
    assert_eq!(h.reordered_taxa, vec![1, 2, 0, 3]);
    assert_eq!(h.taxa_positions, vec![2, 0, 1, 3]);
    assert_eq!(h.decomposition_ranges, vec![(0, 4), (0, 2), (2, 4)]);
}

#[test]
fn small_subsets_are_not_cut() {
    let h = hierarchical_decomp(&eight_leaves(), 8);
    assert_eq!(h.decomposition_ranges, vec![(0, 8)]);
}

#[test]
fn prefix_counts_of_letters() {
    let seqs = vec![b"A-C".to_vec(), b"--G".to_vec(), b"T-A".to_vec()];
    let p = letter_prefix_counts(&seqs, 3);
    let expected = [vec![0, 0, 0], vec![1, 0, 1], vec![1, 0, 2], vec![2, 0, 3]];
    for i in 0..4 {
        let mut buf = vec![0u32; 3];
        CrucibleCtxt::retrieve_nchars_noalloc(&p, (0, i), &mut buf);
        assert_eq!(buf, expected[i]);
    }
    let mut buf = vec![0u32; 3];
    CrucibleCtxt::retrieve_nchars_noalloc(&p, (1, 3), &mut buf);
    assert_eq!(buf, vec![1, 0, 2]);
    let m = subset_meta(&p, (1, 2), 3);
    assert_eq!(m.chars_cnt, vec![1]);
    assert_eq!(m.column_poitions, vec![2]);
}

#[test]
fn metadata_keeps_occupied_columns() {
    let seqs = vec![b"A-C-".to_vec(), b"--G-".to_vec(), b"T-AA".to_vec(), b"T---".to_vec()];
    let c = build_metadata(&seqs, 4, &vec![(0, 4), (0, 2), (2, 4)]);
    assert_eq!(c.num_hmms(), 3);
    assert_eq!(c.metadata[0].sequence_range, (0, 4));
    assert_eq!(c.metadata[0].column_poitions, vec![0, 2, 3]);
    assert_eq!(c.metadata[0].chars_cnt, vec![3, 3, 1]);
    assert_eq!(c.metadata[1].column_poitions, vec![0, 2]);
    assert_eq!(c.metadata[1].chars_cnt, vec![1, 2]);
    assert_eq!(c.metadata[2].column_poitions, vec![0, 2, 3]);
    assert_eq!(c.metadata[2].chars_cnt, vec![2, 1, 1]);
}

// (((a,b),c),d)
fn caterpillar() -> Tree {
    Tree {
        taxa: vec![-1, -1, -1, 0, 1, 2, 3],
        parents: vec![-1, 0, 1, 2, 2, 1, 0],
        postorder: vec![3, 4, 2, 5, 1, 6, 0],
        ntaxa: 4,
    }
}

#[test]
fn caterpillar_records_both_halves_of_two() {
    let h = hierarchical_decomp(&caterpillar(), 3);
    assert_eq!(h.reordered_taxa, vec![0, 1, 2, 3]);
    assert_eq!(h.decomposition_ranges, vec![(0, 4), (0, 2), (2, 4)]);
}

#[test]
fn part_without_inner_node_is_skipped() {
    // (a,b,c): the root has no inner node to cut at
    let star = Tree {
        taxa: vec![-1, 0, 1, 2],
        parents: vec![-1, 0, 0, 0],
        postorder: vec![1, 2, 3, 0],
        ntaxa: 3,
    };
    let h = hierarchical_decomp(&star, 2);
    assert_eq!(h.decomposition_ranges, vec![(0, 3)]);
    assert_eq!(h.reordered_taxa, vec![0, 1, 2]);
}
