use crucible::adder::{
    accumulate_record, add_alignment_weights, scan_aligned, AlignError, BatchedWeightMatrix, QueryWeights,
};
use crucible::structures::HmmMeta;

fn meta() -> HmmMeta {
    HmmMeta::new((0, 3), vec![3, 1, 2], vec![0, 2, 5])
}

#[test]
fn scan_reads_the_four_kinds_of_bytes() {
    let r = scan_aligned(&b"A-c.G".to_vec());
    assert_eq!(r, Ok((vec![(0, 0), (2, 2)], 3)));
}

#[test]
fn scan_rejects_other_bytes() {
    assert_eq!(scan_aligned(&b"A-1G".to_vec()), Err(b'1'));
}

#[test]
fn record_adds_score_times_count() {
    let mut w = QueryWeights::new();
    assert_eq!(accumulate_record(&b"A-c.G".to_vec(), 10, &meta(), &mut w), Ok(()));
    assert_eq!(w.to_entries(), vec![(0, 0, 30), (2, 5, 20)]);
    assert_eq!(accumulate_record(&b"a-CG".to_vec(), 1, &meta(), &mut w), Ok(()));
    assert_eq!(w.to_entries(), vec![(0, 0, 30), (2, 5, 22), (1, 2, 1)]);
}

#[test]
fn record_with_bad_byte_fails() {
    let mut w = QueryWeights::new();
    let r = accumulate_record(&b"A-*G".to_vec(), 10, &meta(), &mut w);
    assert_eq!(r, Err(AlignError::UnexpectedCharacter(b'*')));
    assert!(w.to_entries().is_empty());
}

#[test]
fn record_with_wrong_column_count_fails() {
    let mut w = QueryWeights::new();
    let r = accumulate_record(&b"A-".to_vec(), 10, &meta(), &mut w);
    assert_eq!(r, Err(AlignError::ColumnCountMismatch));
}

#[test]
fn weights_saturate() {
    let mut w = QueryWeights::new();
    w.add(1, 1, u64::MAX - 1);
    w.add(1, 1, 5);
    assert_eq!(w.to_entries(), vec![(1, 1, u64::MAX)]);
}

#[test]
fn alignment_weights_go_to_their_queries() {
    let mut m = BatchedWeightMatrix::new(3);
    let hits = vec![(2, 4), (0, 1)];
    let records = vec![b"A-c.G".to_vec(), b"AAA".to_vec()];
    assert_eq!(add_alignment_weights(&meta(), &hits, &records, &mut m), Ok(()));
    assert_eq!(m.weights[2].to_entries(), vec![(0, 0, 12), (2, 5, 8)]);
    assert_eq!(m.weights[0].to_entries(), vec![(0, 0, 3), (1, 2, 1), (2, 5, 2)]);
    assert!(m.weights[1].to_entries().is_empty());
}

#[test]
fn more_records_than_queries_fails() {
    let mut m = BatchedWeightMatrix::new(1);
    let hits = vec![(0, 4)];
    let records = vec![b"AAA".to_vec(), b"AAA".to_vec()];
    assert_eq!(
        add_alignment_weights(&meta(), &hits, &records, &mut m),
        Err(AlignError::RecordCountMismatch)
    );
}

#[test]
fn merge_adds_query_by_query() {
    let mut a = BatchedWeightMatrix::new(2);
    let mut b = BatchedWeightMatrix::new(2);
    a.weights[0].add(0, 0, 5);
    b.weights[0].add(0, 0, 7);
    b.weights[0].add(1, 3, 2);
    b.weights[1].add(4, 4, 1);
    a.merge_in(b);
    assert_eq!(a.weights[0].to_entries(), vec![(0, 0, 12), (1, 3, 2)]);
    assert_eq!(a.weights[1].to_entries(), vec![(4, 4, 1)]);
}
