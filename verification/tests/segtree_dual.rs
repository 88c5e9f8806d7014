use lib::ops::{OpAdd, OpAffine};
use lib::segtree_dual::DualSegtree;

#[test]
fn dual_new_holds_identities() {
    let mut st = DualSegtree::<OpAffine<u64>>::new(4);
    assert_eq!(st.as_slice(), &[(1, 0); 4]);
    assert_eq!(st.point_query(3), (1, 0));
}

#[test]
fn dual_range_updates_compose() {
    let mut st = DualSegtree::<OpAffine<u64>>::new(5);
    st.range_update(1..4, (2, 3));
    assert_eq!(st.point_query(2), (2, 3));
    assert_eq!(st.point_query(0), (1, 0));
    st.range_update(2..5, (5, 7));
    assert_eq!(st.point_query(2), (10, 22));
    assert_eq!(st.point_query(4), (5, 7));
    st.point_update(0, (3, 0));
    assert_eq!(st.as_slice(), &[(3, 0), (2, 3), (10, 22), (10, 22), (5, 7)]);
    st.range_update(3..3, (9, 9));
    st.range_update(4..2, (9, 9));
    assert_eq!(st.point_query(3), (10, 22));
}

#[test]
fn dual_from_vec_and_add() {
    let mut st = DualSegtree::<OpAdd<u64>>::from_vec(vec![10, 20, 30, 40, 50, 60]);
    st.range_update(0..6, 1);
    st.range_update(2..5, 100);
    st.point_update(5, 1000);
    assert_eq!(st.as_slice(), &[11, 21, 131, 141, 151, 1061]);
}

#[test]
fn dual_matches_model() {
    let n = 9usize;
    let mut model = vec![0u64; n];
    let mut st = DualSegtree::<OpAdd<u64>>::new(n);
    for (l, r, u) in [(0usize, 9usize, 1u64), (2, 5, 10), (4, 9, 100), (7, 8, 1000), (0, 1, 5)] {
        st.range_update(l..r, u);
        for v in model[l..r].iter_mut() {
            *v += u;
        }
        for i in 0..n {
            assert_eq!(st.point_query(i), model[i]);
        }
    }
}
