//! The two-stack representation shared by the foldable queue and deque.
//!
//! The front part of the sequence is a stack `head` whose top is the first
//! element; the back part is a stack `tail` whose top is the last element.
//! Each entry keeps its value and the fold of its stack from the bottom up to
//! it, in sequence order.
use vstd::prelude::*;
use crate::traits::{fold, lemma_fold_concat, lemma_fold_single, Monoid};

verus! {

/// The values of a stack, bottom first.
pub open spec fn values<S>(st: Seq<(S, S)>) -> Seq<S> {
    st.map_values(|p: (S, S)| p.0)
}

/// The sequence held by a head stack and a tail stack.
pub open spec fn contents<S>(head: Seq<(S, S)>, tail: Seq<(S, S)>) -> Seq<S> {
    values(head).reverse() + values(tail)
}

/// Every entry of the head stack holds the fold of the entries from it down
/// to the bottom, in sequence order (top first).
pub open spec fn head_ok<T: Monoid>(head: Seq<(T::Set, T::Set)>) -> bool {
    forall|k: int|
        0 <= k < head.len() ==> #[trigger] head[k].1 == fold::<T>(
            values(head).subrange(0, k + 1).reverse(),
        )
}

/// Every entry of the tail stack holds the fold of the entries from the
/// bottom up to it.
pub open spec fn tail_ok<T: Monoid>(tail: Seq<(T::Set, T::Set)>) -> bool {
    forall|k: int|
        0 <= k < tail.len() ==> #[trigger] tail[k].1 == fold::<T>(values(tail).subrange(0, k + 1))
}

/// Pushing onto the head stack the value with the fold of the value and the
/// former top keeps the head stack right.
pub proof fn lemma_head_push<T: Monoid>(head: Seq<(T::Set, T::Set)>, v: T::Set, f: T::Set)
    requires
        head_ok::<T>(head),
        f == if head.len() > 0 {
            T::spec_op(v, head.last().1)
        } else {
            v
        },
    ensures
        head_ok::<T>(head.push((v, f))),
        values(head.push((v, f))) == values(head).push(v),
{
    let nh = head.push((v, f));
    assert(values(nh) =~= values(head).push(v));
    assert forall|k: int| 0 <= k < nh.len() implies #[trigger] nh[k].1 == fold::<T>(
        values(nh).subrange(0, k + 1).reverse(),
    ) by {
        if k == head.len() {
            let r = values(nh).subrange(0, k + 1).reverse();
            let rest = values(head).reverse();
            assert(r =~= seq![v] + rest);
            lemma_fold_concat::<T>(seq![v], rest);
            lemma_fold_single::<T>(v);
            if head.len() > 0 {
                assert(values(head).subrange(0, head.len() as int) =~= values(head));
                assert(head.last() == head[head.len() - 1]);
            } else {
                assert(rest =~= Seq::<T::Set>::empty());
                T::lemma_identity(v);
            }
        } else {
            assert(values(nh).subrange(0, k + 1) =~= values(head).subrange(0, k + 1));
        }
    }
}

/// Pushing onto the tail stack the value with the fold of the former top and
/// the value keeps the tail stack right.
pub proof fn lemma_tail_push<T: Monoid>(tail: Seq<(T::Set, T::Set)>, v: T::Set, f: T::Set)
    requires
        tail_ok::<T>(tail),
        f == if tail.len() > 0 {
            T::spec_op(tail.last().1, v)
        } else {
            v
        },
    ensures
        tail_ok::<T>(tail.push((v, f))),
        values(tail.push((v, f))) == values(tail).push(v),
{
    let nt = tail.push((v, f));
    assert(values(nt) =~= values(tail).push(v));
    assert forall|k: int| 0 <= k < nt.len() implies #[trigger] nt[k].1 == fold::<T>(
        values(nt).subrange(0, k + 1),
    ) by {
        if k == tail.len() {
            let r = values(nt).subrange(0, k + 1);
            assert(r =~= values(tail) + seq![v]);
            lemma_fold_concat::<T>(values(tail), seq![v]);
            lemma_fold_single::<T>(v);
            if tail.len() > 0 {
                assert(values(tail).subrange(0, tail.len() as int) =~= values(tail));
            } else {
                assert(values(tail) =~= Seq::<T::Set>::empty());
                T::lemma_identity(v);
            }
        } else {
            assert(values(nt).subrange(0, k + 1) =~= values(tail).subrange(0, k + 1));
        }
    }
}

/// Popping keeps a stack right.
pub proof fn lemma_pop<T: Monoid>(st: Seq<(T::Set, T::Set)>)
    requires
        st.len() > 0,
    ensures
        head_ok::<T>(st) ==> head_ok::<T>(st.drop_last()),
        tail_ok::<T>(st) ==> tail_ok::<T>(st.drop_last()),
        values(st.drop_last()) == values(st).drop_last(),
{
    assert(values(st.drop_last()) =~= values(st).drop_last());
    assert forall|k: int| 0 <= k < st.len() - 1 implies values(st.drop_last()).subrange(0, k + 1)
        == #[trigger] values(st).subrange(0, k + 1) by {
        assert(values(st.drop_last()).subrange(0, k + 1) =~= values(st).subrange(0, k + 1));
    }
}

/// The top entries of the two stacks fold the whole sequence.
pub proof fn lemma_fold_tops<T: Monoid>(head: Seq<(T::Set, T::Set)>, tail: Seq<(T::Set, T::Set)>)
    requires
        head_ok::<T>(head),
        tail_ok::<T>(tail),
    ensures
        T::spec_op(
            if head.len() > 0 {
                head.last().1
            } else {
                T::spec_id()
            },
            if tail.len() > 0 {
                tail.last().1
            } else {
                T::spec_id()
            },
        ) == fold::<T>(contents(head, tail)),
{
    lemma_fold_concat::<T>(values(head).reverse(), values(tail));
    if head.len() > 0 {
        assert(values(head).subrange(0, head.len() as int) =~= values(head));
    } else {
        assert(values(head).reverse() =~= Seq::<T::Set>::empty());
    }
    if tail.len() > 0 {
        assert(values(tail).subrange(0, tail.len() as int) =~= values(tail));
    } else {
        assert(values(tail) =~= Seq::<T::Set>::empty());
    }
}

} // verus!
