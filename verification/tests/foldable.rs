use lib::foldable_deque::FoldableDeque;
use lib::foldable_queue::FoldableQueue;
use lib::ops::{OpAdd, OpAffine};

#[test]
fn queue_is_first_in_first_out() {
    let mut q = FoldableQueue::<OpAffine<u64>>::with_capacity(4);
    assert!(q.is_empty());
    assert_eq!(q.fold(), (1, 0));
    q.push_back((2, 3));
    q.push_back((5, 7));
    assert_eq!(q.len(), 2);
    assert_eq!(q.fold(), (10, 22));
    assert_eq!(q.pop_front(), Some((2, 3)));
    assert_eq!(q.fold(), (5, 7));
    q.push_back((1, 1));
    assert_eq!(q.fold(), (5, 8));
    assert_eq!(q.pop_front(), Some((5, 7)));
    assert_eq!(q.pop_front(), Some((1, 1)));
    assert_eq!(q.pop_front(), None);
    assert!(q.is_empty());
    assert_eq!(q.fold(), (1, 0));
}

#[test]
fn queue_from_vec_clear_reserve() {
    let mut q = FoldableQueue::<OpAffine<u64>>::from_vec(vec![(2, 0), (1, 3), (3, 1)]);
    assert_eq!(q.len(), 3);
    assert_eq!(q.fold(), (6, 10));
    q.reserve(10);
    assert_eq!(q.fold(), (6, 10));
    assert_eq!(q.pop_front(), Some((2, 0)));
    assert_eq!(q.fold(), (3, 10));
    q.clear();
    assert_eq!(q.len(), 0);
    assert_eq!(q.pop_front(), None);
}

#[test]
fn queue_matches_model() {
    let mut q = FoldableQueue::<OpAdd<u64>>::with_capacity(0);
    let mut model = std::collections::VecDeque::new();
    for i in 0..50u64 {
        if i % 3 == 2 {
            assert_eq!(q.pop_front(), model.pop_front());
        } else {
            q.push_back(i);
            model.push_back(i);
        }
        assert_eq!(q.fold(), model.iter().sum::<u64>());
        assert_eq!(q.len(), model.len());
    }
}

#[test]
fn deque_both_ends() {
    let mut d = FoldableDeque::<OpAffine<u64>>::with_capacity(2);
    assert!(d.is_empty());
    d.push_back((2, 3));
    d.push_front((5, 7));
    d.push_back((1, 1));
    // (5, 7) then (2, 3) then (1, 1)
    assert_eq!(d.fold(), (10, 18));
    assert_eq!(d.len(), 3);
    assert_eq!(d.pop_back(), Some((1, 1)));
    assert_eq!(d.fold(), (10, 17));
    assert_eq!(d.pop_back(), Some((2, 3)));
    assert_eq!(d.pop_back(), Some((5, 7)));
    assert_eq!(d.pop_back(), None);
    assert_eq!(d.pop_front(), None);
    d.push_back((3, 0));
    d.push_back((4, 0));
    assert_eq!(d.pop_front(), Some((3, 0)));
    d.reserve(8);
    assert_eq!(d.fold(), (4, 0));
    d.clear();
    assert!(d.is_empty());
    assert_eq!(d.fold(), (1, 0));
}

#[test]
fn deque_matches_model() {
    let mut d = FoldableDeque::<OpAffine<u64>>::with_capacity(0);
    let mut model = std::collections::VecDeque::new();
    let compose = |m: &std::collections::VecDeque<(u64, u64)>| {
        m.iter().fold((1u64, 0u64), |(a, b), &(c, e)| (a.wrapping_mul(c), b.wrapping_mul(c).wrapping_add(e)))
    };
    for i in 0..80u64 {
        match i % 5 {
            0 | 3 => {
                d.push_back((i % 7 + 1, i));
                model.push_back((i % 7 + 1, i));
            }
            1 => {
                d.push_front((i % 4 + 1, i));
                model.push_front((i % 4 + 1, i));
            }
            2 => assert_eq!(d.pop_front(), model.pop_front()),
            _ => assert_eq!(d.pop_back(), model.pop_back()),
        }
        assert_eq!(d.fold(), compose(&model));
        assert_eq!(d.len(), model.len());
    }
}

#[test]
fn default_containers_are_empty() {
    let mut q: FoldableQueue<OpAdd<u64>> = Default::default();
    assert!(q.is_empty());
    assert_eq!(q.fold(), 0);
    q.push_back(4);
    assert_eq!(q.fold(), 4);
    let mut d: FoldableDeque<OpAdd<u64>> = Default::default();
    assert_eq!(d.len(), 0);
    d.push_front(9);
    assert_eq!(d.pop_back(), Some(9));
}
