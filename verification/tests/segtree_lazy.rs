use lib::ops::{OpAdd, OpAffine, OpPair};
use lib::segtree_lazy::LazySegtree;
use lib::traits::MonoidAction;

type Sum = OpPair<OpAdd<u64>, OpAdd<u64>>;

/// `x -> a x + b` applied to every element of a block with sum `s` and size `c`.
fn affine_on_sum(u: (u64, u64), x: (u64, u64)) -> (u64, u64) {
    <OpAffine<u64> as MonoidAction<Sum>>::act(u, x)
}

/// `x -> a x + b` applied to a single value.
fn affine_on_value(u: (u64, u64), x: u64) -> u64 {
    u.0.wrapping_mul(x).wrapping_add(u.1)
}

fn sums(values: &[u64]) -> Vec<(u64, u64)> {
    values.iter().map(|&v| (v, 1)).collect()
}

#[test]
fn lazy_new_holds_identities() {
    let mut st = LazySegtree::<OpAffine<u64>, Sum, _>::new(affine_on_sum, 5);
    assert_eq!(st.as_slice(), &[(0, 0); 5]);
    assert_eq!(st.range_query(0..5), (0, 0));
}

#[test]
fn lazy_range_update_then_query() {
    let mut st = LazySegtree::<OpAffine<u64>, Sum, _>::from_iter(affine_on_sum, sums(&[1, 2, 3, 4, 5]));
    assert_eq!(st.range_query(0..5), (15, 5));
    st.range_update(1..4, (2, 1));
    assert_eq!(st.point_query(2), (7, 1));
    assert_eq!(st.range_query(0..5), (27, 5));
    assert_eq!(st.range_query(1..4), (21, 3));
    st.range_update(0..2, (1, 10));
    assert_eq!(st.as_slice(), &[(11, 1), (15, 1), (7, 1), (9, 1), (5, 1)]);
    assert_eq!(st.range_query(2..2), (0, 0));
    assert_eq!(st.range_query(4..1), (0, 0));
}

#[test]
fn lazy_updates_compose_in_order() {
    let mut st = LazySegtree::<OpAffine<u64>, Sum, _>::from_iter(affine_on_sum, sums(&[1, 1, 1, 1, 1, 1, 1]));
    st.range_update(0..7, (2, 0));
    st.range_update(2..5, (1, 3));
    st.range_update(3..7, (3, 0));
    // 2, 2, 5, 15, 15, 6, 6
    assert_eq!(st.as_slice(), &[(2, 1), (2, 1), (5, 1), (15, 1), (15, 1), (6, 1), (6, 1)]);
    assert_eq!(st.range_query(1..6), (43, 5));
}

#[test]
fn lazy_point_update() {
    let mut st = LazySegtree::<OpAffine<u64>, Sum, _>::from_iter(affine_on_sum, sums(&[1, 2, 3]));
    st.range_update(0..3, (10, 0));
    st.point_update(1, |(s, c)| (s + 5, c));
    assert_eq!(st.as_slice(), &[(10, 1), (25, 1), (30, 1)]);
    assert_eq!(st.range_query(0..2), (35, 2));
}

#[test]
fn lazy_matches_naive_model() {
    let n = 11usize;
    let mut model: Vec<u64> = (0..n as u64).map(|i| i + 1).collect();
    let mut st = LazySegtree::<OpAffine<u64>, Sum, _>::from_iter(affine_on_sum, sums(&model));
    let updates = [(0usize, 11usize, (2u64, 1u64)), (3, 7, (1, 4)), (5, 6, (3, 0)), (8, 11, (0, 9))];
    for &(l, r, u) in updates.iter() {
        st.range_update(l..r, u);
        for v in model[l..r].iter_mut() {
            *v = affine_on_value(u, *v);
        }
        for a in 0..=n {
            for b in a..=n {
                let expected: u64 = model[a..b].iter().sum();
                assert_eq!(st.range_query(a..b), (expected, (b - a) as u64));
            }
        }
    }
}

#[test]
fn affine_action_on_block_sums() {
    // a block of 4 values summing to 10, under x -> 2 x + 3
    assert_eq!(affine_on_sum((2, 3), (10, 4)), (32, 4));
    assert_eq!(affine_on_sum((1, 0), (10, 4)), (10, 4));
    assert_eq!(affine_on_sum((0, 7), (10, 4)), (28, 4));
    // wrapping at the bounds of u64
    assert_eq!(affine_on_sum((2, 0), (u64::MAX, 1)), (u64::MAX - 1, 1));
}

#[test]
fn lazy_right_partition_over_pending_updates() {
    let mut st = LazySegtree::<OpAffine<u64>, Sum, _>::from_iter(affine_on_sum, sums(&[1, 2, 3, 4, 5]));
    st.range_update(0..5, (1, 1));
    // elements 2, 3, 4, 5, 6
    assert_eq!(st.right_partition(0, |(s, _)| s <= 9), ((14, 4), 4));
    assert_eq!(st.right_partition(1, |(s, _)| s <= 100), ((18, 4), 5));
    assert_eq!(st.right_partition(3, |(s, _)| s <= 11), ((11, 2), 5));
    assert_eq!(st.right_partition(4, |(s, _)| s <= 5), ((6, 1), 5));
    assert_eq!(st.right_partition(2, |(s, _)| s <= 3), ((4, 1), 3));
    assert_eq!(st.right_partition(2, |(_, c)| c > 100), ((0, 0), 2));
    assert_eq!(st.as_slice(), &[(2, 1), (3, 1), (4, 1), (5, 1), (6, 1)]);
}

#[test]
fn lazy_left_partition_over_pending_updates() {
    let mut st = LazySegtree::<OpAffine<u64>, Sum, _>::from_iter(affine_on_sum, sums(&[1, 2, 3, 4, 5]));
    st.range_update(0..5, (1, 1));
    // elements 2, 3, 4, 5, 6
    assert_eq!(st.left_partition(5, |(s, _)| s <= 11), ((11, 2), 3));
    assert_eq!(st.left_partition(5, |(s, _)| s <= 100), ((20, 5), 0));
    assert_eq!(st.left_partition(2, |(s, _)| s <= 3), ((3, 1), 1));
    assert_eq!(st.left_partition(0, |_| true), ((0, 0), 0));
}

#[test]
fn lazy_partitions_match_scan() {
    for n in 1..=12usize {
        let values: Vec<u64> = (0..n as u64).map(|i| (i * 5) % 3 + 1).collect();
        let mut model = values.clone();
        let mut st = LazySegtree::<OpAffine<u64>, Sum, _>::from_iter(affine_on_sum, sums(&values));
        let (l, r) = (n / 3, n - n / 4);
        st.range_update(l..r, (2, 0));
        for v in model[l..r].iter_mut() {
            *v *= 2;
        }
        let total = |a: usize, b: usize| -> u64 { model[a..b].iter().sum() };
        for bound in 0..40u64 {
            for a in 0..n {
                let mut p = a;
                while p <= n && total(a, p) <= bound {
                    p += 1;
                }
                let p = p.min(n);
                let got = st.right_partition(a, |(s, _)| s <= bound);
                assert_eq!(got, ((total(a, p), (p - a) as u64), p), "right n={n} a={a} b={bound}");
            }
            for b in 0..=n {
                let mut p = b;
                while p > 0 && total(p - 1, b) <= bound {
                    p -= 1;
                }
                let got = st.left_partition(b, |(s, _)| s <= bound);
                assert_eq!(got, ((total(p, b), (b - p) as u64), p), "left n={n} b={b} bound={bound}");
            }
        }
    }
}
