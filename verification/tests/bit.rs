use lib::bit::BIT;
use lib::ops::OpAdd;

#[test]
fn bit_prefix_queries() {
    let b = BIT::<OpAdd<u64>>::from_vec(vec![1, 2, 3, 4, 5]);
    assert_eq!(b.prefix_query(0), 0);
    assert_eq!(b.prefix_query(1), 1);
    assert_eq!(b.prefix_query(3), 6);
    assert_eq!(b.prefix_query(5), 15);
}

#[test]
fn bit_new_is_all_identity() {
    let b = BIT::<OpAdd<u64>>::new(4);
    for n in 0..=4 {
        assert_eq!(b.prefix_query(n), 0);
    }
}

#[test]
fn bit_point_update_adds() {
    let mut b = BIT::<OpAdd<u64>>::from_vec(vec![1, 2, 3, 4, 5]);
    b.point_update(2, 10);
    assert_eq!(b.prefix_query(2), 3);
    assert_eq!(b.prefix_query(3), 16);
    assert_eq!(b.prefix_query(5), 25);
    // an index past the end changes nothing
    b.point_update(5, 100);
    b.point_update(usize::MAX, 100);
    assert_eq!(b.prefix_query(5), 25);
}

#[test]
fn bit_matches_scan() {
    for n in 0..=20usize {
        let mut values: Vec<u64> = (0..n as u64).map(|i| i * 3 + 1).collect();
        let mut b = BIT::<OpAdd<u64>>::from_vec(values.clone());
        for i in 0..n {
            b.point_update(i, i as u64);
            values[i] += i as u64;
            for m in 0..=n {
                assert_eq!(b.prefix_query(m), values[..m].iter().sum::<u64>());
            }
        }
    }
}

#[test]
fn bit_partition_point() {
    let b = BIT::<OpAdd<u64>>::from_vec(vec![1, 2, 3, 4, 5]);
    assert_eq!(b.partition_point(|s| s <= 6), (3, 6));
    assert_eq!(b.partition_point(|s| s <= 5), (2, 3));
    assert_eq!(b.partition_point(|_| true), (5, 15));
    assert_eq!(b.partition_point(|_| false), (0, 0));
    for bound in 0..20u64 {
        let values = [1u64, 2, 3, 4, 5];
        let mut n = 0;
        while n < 5 && values[..n + 1].iter().sum::<u64>() <= bound {
            n += 1;
        }
        assert_eq!(b.partition_point(|s| s <= bound), (n, values[..n].iter().sum::<u64>()));
    }
}

#[test]
fn bit_get_recovers_elements() {
    let values = vec![5i64, -3, 8, 0, 2, 7, -1];
    let mut b = BIT::<OpAdd<i64>>::from_vec(values.clone());
    for (i, v) in values.iter().enumerate() {
        assert_eq!(b.get(i), *v);
    }
    b.point_update(3, 4);
    assert_eq!(b.get(3), 4);
    assert_eq!(b.get(4), 2);
}

#[test]
fn bit_range_sum_from_prefix_difference() {
    let b = BIT::<OpAdd<i64>>::from_vec(vec![5, -3, 8, 0, 2, 7, -1]);
    assert_eq!(b.prefix_query(6) - b.prefix_query(2), 17);
    assert_eq!(b.prefix_query(3) - b.prefix_query(3), 0);
}

#[test]
fn bit_clone_is_independent() {
    let mut b = BIT::<OpAdd<u64>>::from_vec(vec![1, 2, 3]);
    let c = b.clone();
    b.point_update(0, 10);
    assert_eq!(b.prefix_query(3), 16);
    assert_eq!(c.prefix_query(3), 6);
}
