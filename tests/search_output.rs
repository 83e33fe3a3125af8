use crucible::search_output::hit_fields;

const OUTPUT: &str = "# hmmsearch :: search profile(s) against a sequence database
Query:       0  [M=120]
Scores for complete sequences (score includes all domains):
   --- full sequence ---   --- best 1 domain ---    -#dom-
    E-value  score  bias    E-value  score  bias    exp  N  Sequence Description
    ------- ------ -----    ------- ------ -----   ---- --  -------- -----------
    1.2e-30  101.5   0.1    1.4e-30  101.3   0.1    1.0  1  q1
      3e-05   18.2   2.0    3.1e-05   18.0   2.0    1.0  1  q7       some text
  ------ inclusion threshold ------
        0.1    4.0   0.0        0.2    3.1   0.0    1.0  1  q3
    too few fields here

Domain annotation for each sequence:
    9.9e-01   0.5   0.0    1.0e+00   0.4   0.0    1.0  1  q9
";

fn pairs(out: &str) -> Vec<(String, String)> {
    hit_fields(&out.as_bytes().to_vec())
        .into_iter()
        .map(|(n, s)| (String::from_utf8(n).unwrap(), String::from_utf8(s).unwrap()))
        .collect()
}

#[test]
fn hits_of_the_score_table() {
    assert_eq!(
        pairs(OUTPUT),
        vec![
            ("q1".to_string(), "101.5".to_string()),
            ("q7".to_string(), "18.2".to_string()),
            ("q3".to_string(), "4.0".to_string()),
        ]
    );
}

#[test]
fn no_header_no_hits() {
    assert!(pairs("1 2 3 4 5 6 7 8 q1\n").is_empty());
}

#[test]
fn table_ends_at_blank_line() {
    let out = "E-value score\n\t1 2 3 4 5 6 7 8 a\r\n   \n1 2 3 4 5 6 7 8 b\n";
    assert_eq!(pairs(out), vec![("a".to_string(), "2".to_string())]);
}
