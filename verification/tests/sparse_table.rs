use lib::ops::{OpMax, OpMin};
use lib::sparse_table::SparseTable;

fn sample(n: usize) -> Vec<u32> {
    (0..n as u32).map(|i| (i * 37 + 11) % 101).collect()
}

#[test]
fn sparse_table_min_matches_scan() {
    for n in [1usize, 2, 15, 16, 17, 31, 33, 48, 49, 64, 70, 100] {
        let values = sample(n);
        let table = SparseTable::<OpMin<u32>>::from_vec(values.clone());
        for l in 0..n {
            for r in l + 1..=n {
                let expected = *values[l..r].iter().min().unwrap();
                assert_eq!(table.range_query(l..r), Some(expected), "n={n} l={l} r={r}");
            }
        }
    }
}

#[test]
fn sparse_table_max_over_far_blocks() {
    let values: Vec<i64> = (0..200).map(|i| if i == 150 { 1000 } else { -(i as i64) }).collect();
    let table = SparseTable::<OpMax<i64>>::from_vec(values);
    assert_eq!(table.range_query(0..200), Some(1000));
    assert_eq!(table.range_query(0..150), Some(0));
    assert_eq!(table.range_query(151..200), Some(-151));
    assert_eq!(table.range_query(20..151), Some(1000));
}

#[test]
fn sparse_table_rejects_bad_ranges() {
    let table = SparseTable::<OpMin<u32>>::from_vec(vec![4, 1, 3]);
    assert_eq!(table.range_query(1..1), None);
    assert_eq!(table.range_query(2..1), None);
    assert_eq!(table.range_query(0..4), None);
    assert_eq!(table.range_query(3..3), None);
    assert_eq!(table.range_query(0..0), None);
    assert_eq!(table.range_query(0..3), Some(1));
    assert_eq!(table.range_query(2..3), Some(3));
}

#[test]
fn sparse_table_empty() {
    let table = SparseTable::<OpMin<u32>>::from_vec(Vec::new());
    assert_eq!(table.range_query(0..0), None);
    assert_eq!(table.range_query(0..1), None);
}

#[test]
fn sparse_table_min_of_chars() {
    let st = SparseTable::<OpMin<char>>::from_vec("segment".chars().collect());
    assert_eq!(st.range_query(0..7), Some('e'));
    assert_eq!(st.range_query(3..5), Some('e'));
    assert_eq!(st.range_query(4..7), Some('e'));
    assert_eq!(st.range_query(5..7), Some('n'));
    assert_eq!(st.range_query(2..2), None);
}
