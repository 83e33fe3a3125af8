use crucible::compact_printer::{render_backbone_row, render_query_row, LettersWithColors};

fn formatted(k: usize, rows: Vec<Vec<i32>>) -> crucible::compact_printer::FormattedHomologies {
    let mut l = LettersWithColors::new(k, rows);
    l.append_backbone_column_colors();
    l.transl()
}

#[test]
fn append_backbone_row_is_identity() {
    let mut l = LettersWithColors::new(3, vec![vec![0, -1]]);
    l.append_backbone_column_colors();
    assert_eq!(l.letter_colors, vec![vec![0, -1], vec![0, 1, 2]]);
    assert_eq!(l.num_colors, 3);
}

#[test]
fn singleton_goes_left_of_next_match() {
    let f = formatted(4, vec![vec![0, -1, 2]]);
    assert_eq!(f.front_paddings, vec![0, 0, 1, 0, 0]);
    assert_eq!(f.shifted_columns, vec![0, 1, 3, 4]);
    assert_eq!(f.num_visual_columns, 5);
    assert_eq!(f.letter_positions[0], vec![0, 2, 3]);
    assert_eq!(f.letter_positions[1], vec![0, 1, 3, 4]);
    assert!(f.singleton_letters[0].contains(1));
    assert!(!f.singleton_letters[0].contains(0));
    assert!(!f.singleton_letters[0].contains(2));
    let row = render_query_row(&b"acg".to_vec(), &f.letter_positions[0], &f.singleton_letters[0], f.num_visual_columns);
    assert_eq!(row, b"A-cG-".to_vec());
}

#[test]
fn output_width_is_columns_plus_padding() {
    let f = formatted(3, vec![vec![-1, 0, -1, -1, 2, -1], vec![1, -1, -1, 2]]);
    let pad: u64 = f.front_paddings.iter().sum();
    assert_eq!(f.num_visual_columns, 3 + pad);
    // first row: one letter before its first match (front), two before column 2, one after
    // second row: two before column 2
    assert_eq!(f.front_paddings, vec![1, 0, 2, 1]);
    assert_eq!(f.shifted_columns, vec![1, 2, 5]);
    assert_eq!(f.num_visual_columns, 7);
}

#[test]
fn insert_columns_precede_each_column() {
    let f = formatted(3, vec![vec![-1, 0, -1, -1, 2, -1]]);
    for c in 1..3 {
        assert_eq!(f.shifted_columns[c], f.shifted_columns[c - 1] + f.front_paddings[c] + 1);
    }
    assert_eq!(f.shifted_columns[0], f.front_paddings[0]);
    // leading letter at the very front, the two inner ones right before column 2,
    // the trailing one at the tail
    assert_eq!(f.letter_positions[0], vec![0, 1, 3, 4, 5, 6]);
}

#[test]
fn leading_unmatched_go_to_front() {
    let f = formatted(2, vec![vec![-1, -1, 1]]);
    assert_eq!(f.front_paddings, vec![2, 0, 0]);
    assert_eq!(f.shifted_columns, vec![2, 3]);
    assert_eq!(f.letter_positions[0], vec![0, 1, 3]);
}

#[test]
fn trailing_unmatched_go_to_tail() {
    let f = formatted(2, vec![vec![0, -1, -1]]);
    assert_eq!(f.front_paddings, vec![0, 0, 2]);
    assert_eq!(f.num_visual_columns, 4);
    assert_eq!(f.letter_positions[0], vec![0, 2, 3]);
}

#[test]
fn unmatched_query_is_flushed_to_front() {
    let f = formatted(2, vec![vec![-1, -1]]);
    assert_eq!(f.letter_positions[0], vec![0, 1]);
    assert_eq!(f.num_visual_columns, 4);
    let row = render_query_row(&b"AC".to_vec(), &f.letter_positions[0], &f.singleton_letters[0], f.num_visual_columns);
    assert_eq!(row, b"ac--".to_vec());
}

#[test]
fn uppercase_letters_are_the_matched_residues_in_order() {
    let f = formatted(5, vec![vec![-1, 1, -1, 2, -1, -1, 4, -1]]);
    let seq = b"abcdefgh".to_vec();
    let row = render_query_row(&seq, &f.letter_positions[0], &f.singleton_letters[0], f.num_visual_columns);
    let upper: Vec<u8> = row.iter().copied().filter(|c| c.is_ascii_uppercase()).collect();
    assert_eq!(upper, b"BDG".to_vec());
    let lower: Vec<u8> = row.iter().copied().filter(|c| c.is_ascii_lowercase()).collect();
    assert_eq!(lower.len(), 5);
}

#[test]
fn backbone_row_sits_on_shifted_columns() {
    let f = formatted(4, vec![vec![0, -1, 2]]);
    let row = render_backbone_row(&b"AB-D".to_vec(), &f.shifted_columns, f.num_visual_columns);
    assert_eq!(row, b"AB--D".to_vec());
    let row = render_backbone_row(&b"ABCD".to_vec(), &f.shifted_columns, f.num_visual_columns);
    assert_eq!(row, b"AB-CD".to_vec());
}
