//! What the partition searches promise when the folds are partitioned by the
//! predicate.
use vstd::prelude::*;
use crate::traits::{fold, Monoid};

verus! {

/// Once `f` fails on the fold of `l..i`, it fails on the fold of every longer
/// range `l..j`.
pub open spec fn partitioned_right<T: Monoid>(
    s: Seq<T::Set>,
    l: int,
    f: spec_fn(T::Set) -> bool,
) -> bool {
    forall|i: int, j: int|
        l <= i <= j <= s.len() && !f(#[trigger] fold::<T>(s.subrange(l, i))) ==> !f(
            #[trigger] fold::<T>(s.subrange(l, j)),
        )
}

/// Once `f` fails on the fold of `j..r`, it fails on the fold of every longer
/// range `i..r`.
pub open spec fn partitioned_left<T: Monoid>(
    s: Seq<T::Set>,
    r: int,
    f: spec_fn(T::Set) -> bool,
) -> bool {
    forall|i: int, j: int|
        0 <= i <= j <= r && !f(#[trigger] fold::<T>(s.subrange(j, r))) ==> !f(
            #[trigger] fold::<T>(s.subrange(i, r)),
        )
}

/// A search from the front (`BIT::partition_point`, with `l == 0`) that
/// returns the last accepted end `p` and its fold `v` finds the partition
/// point: when `pred` computes `f` and the folds of `l..j` are partitioned by
/// `f`, `f` holds on the fold of `l..j` exactly for `l < j <= p`.
pub proof fn lemma_prefix_partition_point<T: Monoid, P: Fn(T::Set) -> bool>(
    s: Seq<T::Set>,
    l: int,
    v: T::Set,
    p: int,
    pred: P,
    f: spec_fn(T::Set) -> bool,
)
    requires
        0 <= l <= p <= s.len(),
        v == fold::<T>(s.subrange(l, p)),
        p > l ==> pred.ensures((v,), true),
        p < s.len() ==> pred.ensures((fold::<T>(s.subrange(l, p + 1)),), false),
        forall|x: T::Set, b: bool| #[trigger] pred.ensures((x,), b) ==> b == f(x),
        partitioned_right::<T>(s, l, f),
    ensures
        forall|j: int| l < j <= p ==> f(#[trigger] fold::<T>(s.subrange(l, j))),
        forall|j: int| p < j <= s.len() ==> !f(#[trigger] fold::<T>(s.subrange(l, j))),
{
    assert forall|j: int| l < j <= p implies f(#[trigger] fold::<T>(s.subrange(l, j))) by {
        assert(f(fold::<T>(s.subrange(l, p))));
    }
    assert forall|j: int| p < j <= s.len() implies !f(#[trigger] fold::<T>(s.subrange(l, j))) by {
        assert(!f(fold::<T>(s.subrange(l, p + 1))));
    }
}

/// A search right from `l` (`Segtree::right_partition`,
/// `LazySegtree::right_partition`) that returns `(v, p)` finds the partition
/// point: when `pred` computes `f` and the folds of `l..j` are partitioned by
/// `f`, `f` holds on the fold of `l..j` for every `l <= j < p`, and fails on
/// it for every `j >= p` unless `p` is the end.
pub proof fn lemma_right_partition_point<T: Monoid, P: Fn(T::Set) -> bool>(
    s: Seq<T::Set>,
    l: int,
    v: T::Set,
    p: int,
    pred: P,
    f: spec_fn(T::Set) -> bool,
)
    requires
        0 <= l <= p <= s.len(),
        v == fold::<T>(s.subrange(l, p)),
        p < s.len() ==> pred.ensures((v,), false),
        p > l ==> pred.ensures((fold::<T>(s.subrange(l, p - 1)),), true) || (p == s.len()
            && pred.ensures((v,), true)),
        forall|x: T::Set, b: bool| #[trigger] pred.ensures((x,), b) ==> b == f(x),
        partitioned_right::<T>(s, l, f),
    ensures
        forall|j: int| l <= j < p ==> f(#[trigger] fold::<T>(s.subrange(l, j))),
        p < s.len() ==> forall|j: int| p <= j <= s.len() ==> !f(
            #[trigger] fold::<T>(s.subrange(l, j)),
        ),
{
    assert forall|j: int| l <= j < p implies f(#[trigger] fold::<T>(s.subrange(l, j))) by {
        if pred.ensures((fold::<T>(s.subrange(l, p - 1)),), true) {
            assert(f(fold::<T>(s.subrange(l, p - 1))));
        } else {
            assert(f(fold::<T>(s.subrange(l, p))));
        }
    }
    if p < s.len() {
        assert forall|j: int| p <= j <= s.len() implies !f(#[trigger] fold::<T>(s.subrange(l, j))) by {
            assert(!f(fold::<T>(s.subrange(l, p))));
        }
    }
}

/// A search left from `r` (`Segtree::left_partition`,
/// `LazySegtree::left_partition`) that returns `(v, p)` finds the partition
/// point: when `pred` computes `f` and the folds of `j..r` are partitioned by
/// `f`, `f` holds on the fold of `j..r` exactly for `p <= j < r`.
pub proof fn lemma_left_partition_point<T: Monoid, P: Fn(T::Set) -> bool>(
    s: Seq<T::Set>,
    r: int,
    v: T::Set,
    p: int,
    pred: P,
    f: spec_fn(T::Set) -> bool,
)
    requires
        0 <= p <= r <= s.len(),
        v == fold::<T>(s.subrange(p, r)),
        p < r ==> pred.ensures((v,), true),
        p > 0 ==> pred.ensures((fold::<T>(s.subrange(p - 1, r)),), false),
        forall|x: T::Set, b: bool| #[trigger] pred.ensures((x,), b) ==> b == f(x),
        partitioned_left::<T>(s, r, f),
    ensures
        forall|j: int| p <= j < r ==> f(#[trigger] fold::<T>(s.subrange(j, r))),
        forall|j: int| 0 <= j < p ==> !f(#[trigger] fold::<T>(s.subrange(j, r))),
{
    assert forall|j: int| p <= j < r implies f(#[trigger] fold::<T>(s.subrange(j, r))) by {
        assert(f(fold::<T>(s.subrange(p, r))));
    }
    assert forall|j: int| 0 <= j < p implies !f(#[trigger] fold::<T>(s.subrange(j, r))) by {
        assert(!f(fold::<T>(s.subrange(p - 1, r))));
    }
}

} // verus!
