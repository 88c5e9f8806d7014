use lib::ops::{OpAdd, OpAffine, OpMax, OpMin};
use lib::segtree::Segtree;
use lib::tree::tree_fits;

fn naive_sum(values: &[u64], l: usize, r: usize) -> u64 {
    values[l..r].iter().sum()
}

#[test]
fn segtree_new_holds_identities() {
    let st = Segtree::<OpAdd<u64>>::new(5);
    assert_eq!(st.as_slice(), &[0, 0, 0, 0, 0]);
    assert_eq!(st.range_query(0..5), 0);
    let empty = Segtree::<OpAdd<u64>>::new(0);
    assert_eq!(empty.as_slice(), &[] as &[u64]);
    assert_eq!(empty.range_query(0..0), 0);
}

#[test]
fn segtree_range_query_matches_sums() {
    for n in 1..=17usize {
        let values: Vec<u64> = (0..n as u64).map(|i| i * i + 1).collect();
        let st = Segtree::<OpAdd<u64>>::from_vec(values.clone());
        assert_eq!(st.as_slice(), &values[..]);
        for l in 0..=n {
            for r in l..=n {
                assert_eq!(st.range_query(l..r), naive_sum(&values, l, r), "n={n} l={l} r={r}");
            }
        }
    }
}

#[test]
fn segtree_empty_and_reversed_ranges_give_identity() {
    let st = Segtree::<OpAdd<u64>>::from_vec(vec![1, 2, 3, 4, 5]);
    assert_eq!(st.range_query(3..3), 0);
    assert_eq!(st.range_query(4..2), 0);
    assert_eq!(st.range_query(1..4), 9);
}

#[test]
fn segtree_point_update_and_query() {
    let mut st = Segtree::<OpAdd<u64>>::from_vec(vec![1, 2, 3, 4, 5]);
    st.point_update(2, |x| x * 10);
    assert_eq!(st.point_query(2), 30);
    assert_eq!(st.as_slice(), &[1, 2, 30, 4, 5]);
    assert_eq!(st.range_query(0..5), 42);
    assert_eq!(st.range_query(2..3), 30);
    st.point_update(4, |_| 0);
    assert_eq!(st.range_query(3..5), 4);
}

#[test]
fn segtree_composes_affine_maps_in_order() {
    // (a, b) is x -> a x + b; a range folds to the composition, left first.
    let mut st = Segtree::<OpAffine<u64>>::from_vec(vec![(2, 1), (3, 0), (1, 5), (4, 2)]);
    assert_eq!(st.range_query(0..2), (6, 3));
    assert_eq!(st.range_query(1..3), (3, 5));
    assert_eq!(st.range_query(0..4), (24, 34));
    st.point_update(1, |_| (1, 1));
    assert_eq!(st.range_query(0..3), (2, 7));
}

#[test]
fn segtree_right_partition_finds_first_rejected_end() {
    let st = Segtree::<OpAdd<u64>>::from_vec(vec![1, 2, 3, 4, 5]);
    assert_eq!(st.right_partition(0, |s| s <= 6), (10, 4));
    assert_eq!(st.right_partition(1, |s| s <= 6), (9, 4));
    assert_eq!(st.right_partition(0, |_| true), (15, 5));
    assert_eq!(st.right_partition(2, |_| false), (0, 2));
    assert_eq!(st.right_partition(4, |s| s <= 5), (5, 5));
    assert_eq!(st.right_partition(4, |s| s < 5), (5, 5));
    assert_eq!(st.right_partition(3, |s| s < 4), (4, 4));
    // the empty fold accepted, the first element rejected
    assert_eq!(st.right_partition(1, |s| s < 1), (2, 2));
}

#[test]
fn segtree_right_partition_min_example() {
    let st = Segtree::<OpMin<u32>>::from_vec(vec![5, 3, 8, 1]);
    assert_eq!(st.right_partition(0, |x| x >= 3), (1, 4));
}

#[test]
fn segtree_right_partition_matches_scan() {
    for n in 1..=13usize {
        let values: Vec<u64> = (0..n as u64).map(|i| (i * 7) % 5 + 1).collect();
        let st = Segtree::<OpAdd<u64>>::from_vec(values.clone());
        for l in 0..n {
            for bound in 0..30u64 {
                // the first end whose fold is rejected, or the end
                let mut p = l;
                while p <= n && naive_sum(&values, l, p) <= bound {
                    p += 1;
                }
                let p = p.min(n);
                let expected = (naive_sum(&values, l, p), p);
                assert_eq!(st.right_partition(l, |s| s <= bound), expected, "n={n} l={l} b={bound}");
            }
        }
    }
}

#[test]
fn segtree_left_partition_finds_suffix() {
    let st = Segtree::<OpAdd<u64>>::from_vec(vec![1, 2, 3, 4, 5]);
    assert_eq!(st.left_partition(5, |s| s <= 9), (9, 3));
    assert_eq!(st.left_partition(0, |_| true), (0, 0));
    assert_eq!(st.left_partition(3, |_| true), (6, 0));
    assert_eq!(st.left_partition(4, |_| false), (0, 4));
    assert_eq!(st.left_partition(5, |_| true), (15, 0));
}

#[test]
fn segtree_left_partition_matches_scan() {
    for n in 1..=13usize {
        let values: Vec<u64> = (0..n as u64).map(|i| (i * 3) % 4 + 1).collect();
        let st = Segtree::<OpAdd<u64>>::from_vec(values.clone());
        for r in 0..=n {
            for bound in 0..30u64 {
                let mut p = r;
                while p > 0 && naive_sum(&values, p - 1, r) <= bound {
                    p -= 1;
                }
                let expected = (naive_sum(&values, p, r), p);
                assert_eq!(st.left_partition(r, |s| s <= bound), expected, "n={n} r={r} b={bound}");
            }
        }
    }
}

#[test]
fn segtree_partition_over_max() {
    let st = Segtree::<OpMax<i32>>::from_vec(vec![1, 3, 2, 5, 1, 0]);
    assert_eq!(st.right_partition(0, |m| m < 4), (5, 4));
    assert_eq!(st.left_partition(6, |m| m < 4), (1, 4));
    assert_eq!(st.left_partition(3, |m| m < 3), (2, 2));
}

#[test]
fn tree_fits_bounds_the_length() {
    assert!(tree_fits(0));
    assert!(tree_fits(5));
    assert!(tree_fits(1 << 62));
    assert!(!tree_fits((1 << 63) + 1));
    assert!(!tree_fits(usize::MAX));
}
