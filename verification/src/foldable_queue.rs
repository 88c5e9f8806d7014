//! A queue that folds all its elements in constant time.
use vstd::prelude::*;
use crate::foldable::{
    contents, head_ok, lemma_fold_tops, lemma_head_push, lemma_pop, lemma_tail_push, tail_ok,
    values,
};
use crate::traits::{fold, Monoid};

verus! {

/// A first-in first-out queue over the monoid `T` with a constant-time fold.
#[derive(Debug, Clone)]
pub struct FoldableQueue<T: Monoid> {
    head: Vec<(T::Set, T::Set)>,
    tail: Vec<(T::Set, T::Set)>,
}

impl<T: Monoid> View for FoldableQueue<T> {
    type V = Seq<T::Set>;

    closed spec fn view(&self) -> Seq<T::Set> {
        contents(self.head@, self.tail@)
    }
}

impl<T: Monoid> FoldableQueue<T> where T::Set: Copy {
    /// The internal invariant.
    pub closed spec fn well_formed(&self) -> bool {
        head_ok::<T>(self.head@) && tail_ok::<T>(self.tail@)
    }

    /// Creates an empty queue with space for at least `capacity` elements.
    pub fn with_capacity(capacity: usize) -> (res: Self)
        ensures
            res.well_formed(),
            res@ == Seq::<T::Set>::empty(),
    {
        let res = FoldableQueue { head: Vec::with_capacity(capacity), tail: Vec::with_capacity(capacity) };
        proof {
            assert(res@ =~= Seq::<T::Set>::empty());
        }
        res
    }

    /// Creates a queue holding `items`, the first of them in front.
    pub fn from_vec(items: Vec<T::Set>) -> (res: Self)
        ensures
            res.well_formed(),
            res@ == items@,
    {
        let mut head: Vec<(T::Set, T::Set)> = Vec::with_capacity(items.len());
        let mut folded = T::id();
        let mut i = items.len();
        while i > 0
            invariant
                i <= items@.len(),
                head_ok::<T>(head@),
                head@.len() > 0 ==> head@.last().1 == folded,
                head@.len() == 0 ==> folded == T::spec_id(),
                values(head@) == items@.subrange(i as int, items@.len() as int).reverse(),
            decreases i,
        {
            i = i - 1;
            let v = items[i];
            proof {
                if head@.len() == 0 {
                    T::lemma_identity(v);
                }
            }
            let f = T::op(v, folded);
            proof {
                lemma_head_push::<T>(head@, v, f);
            }
            head.push((v, f));
            folded = f;
            proof {
                assert(values(head@) =~= items@.subrange(i as int, items@.len() as int).reverse());
            }
        }
        let res = FoldableQueue { head, tail: Vec::new() };
        proof {
            assert(values(res.tail@) =~= Seq::<T::Set>::empty());
            assert(res@ =~= items@);
        }
        res
    }

    /// Reserves capacity for at least `additional` more elements.
    pub fn reserve(&mut self, additional: usize)
        requires
            old(self).well_formed(),
        ensures
            final(self).well_formed(),
            final(self)@ == old(self)@,
    {
        self.tail.reserve(additional);
    }

    /// Returns the number of elements in the queue.
    pub fn len(&self) -> (res: usize)
        requires
            self.well_formed(),
            self@.len() <= usize::MAX,
        ensures
            res == self@.len(),
    {
        self.head.len() + self.tail.len()
    }

    /// Returns `true` if the queue contains no elements.
    pub fn is_empty(&self) -> (res: bool)
        requires
            self.well_formed(),
        ensures
            res == (self@.len() == 0),
    {
        self.head.is_empty() && self.tail.is_empty()
    }

    /// Clears the queue.
    pub fn clear(&mut self)
        requires
            old(self).well_formed(),
        ensures
            final(self).well_formed(),
            final(self)@ == Seq::<T::Set>::empty(),
    {
        self.head.clear();
        self.tail.clear();
        proof {
            assert(self@ =~= Seq::<T::Set>::empty());
        }
    }

    /// Appends an element to the back of the queue.
    pub fn push_back(&mut self, value: T::Set)
        requires
            old(self).well_formed(),
        ensures
            final(self).well_formed(),
            final(self)@ == old(self)@.push(value),
    {
        let n = self.tail.len();
        let folded = if n > 0 {
            T::op(self.tail[n - 1].1, value)
        } else {
            value
        };
        proof {
            lemma_tail_push::<T>(self.tail@, value, folded);
        }
        self.tail.push((value, folded));
        proof {
            assert(self@ =~= old(self)@.push(value));
        }
    }

    /// Removes the first element and returns it, or `None` if the queue is
    /// empty.
    pub fn pop_front(&mut self) -> (res: Option<T::Set>)
        requires
            old(self).well_formed(),
        ensures
            final(self).well_formed(),
            old(self)@.len() == 0 ==> res == None::<T::Set> && final(self)@ == old(self)@,
            old(self)@.len() > 0 ==> res == Some(old(self)@[0]) && final(self)@
                == old(self)@.drop_first(),
    {
        if self.head.len() == 0 {
            // move the back part to the front, reversed
            let ghost tv = values(self.tail@);
            let mut folded = T::id();
            while self.tail.len() > 0
                invariant
                    head_ok::<T>(self.head@),
                    self.head@.len() > 0 ==> self.head@.last().1 == folded,
                    self.head@.len() == 0 ==> folded == T::spec_id(),
                    values(self.tail@) + values(self.head@).reverse() == tv,
                decreases self.tail@.len(),
            {
                let ghost before = self.tail@;
                let last = self.tail.pop().unwrap();
                proof {
                    lemma_pop::<T>(before);
                    assert(before.last() == last);
                    if self.head@.len() == 0 {
                        T::lemma_identity(last.0);
                    }
                }
                let f = T::op(last.0, folded);
                proof {
                    lemma_head_push::<T>(self.head@, last.0, f);
                }
                self.head.push((last.0, f));
                folded = f;
                proof {
                    assert(values(self.head@).reverse() =~= seq![last.0] + values(
                        self.head@,
                    ).drop_last().reverse());
                    assert(values(before) =~= values(self.tail@).push(last.0));
                    assert(values(self.tail@) + values(self.head@).reverse() =~= tv);
                }
            }
            proof {
                assert(values(self.tail@) =~= Seq::<T::Set>::empty());
                assert(values(self.tail@) + values(self.head@).reverse() =~= values(self.head@).reverse());
                assert(values(old(self).head@).reverse() =~= Seq::<T::Set>::empty());
                assert(self@ =~= old(self)@);
            }
        }
        let ghost before = self.head@;
        let ghost whole = self@;
        match self.head.pop() {
            Some(first) => {
                proof {
                    lemma_pop::<T>(before);
                    assert(self@ =~= whole.drop_first());
                }
                Some(first.0)
            },
            None => {
                proof {
                    assert(values(self.tail@) =~= Seq::<T::Set>::empty());
                }
                None
            },
        }
    }

    /// Folds every element into an accumulator using `T::op`.
    pub fn fold(&self) -> (res: T::Set)
        requires
            self.well_formed(),
        ensures
            res == fold::<T>(self@),
    {
        proof {
            lemma_fold_tops::<T>(self.head@, self.tail@);
        }
        let head = if self.head.len() > 0 {
            self.head[self.head.len() - 1].1
        } else {
            T::id()
        };
        let tail = if self.tail.len() > 0 {
            self.tail[self.tail.len() - 1].1
        } else {
            T::id()
        };
        T::op(head, tail)
    }
}

impl<T: Monoid> Default for FoldableQueue<T> where T::Set: Copy {
    /// An empty queue.
    fn default() -> (res: Self)
        ensures
            res.well_formed(),
            res@ == Seq::<T::Set>::empty(),
    {
        let res = FoldableQueue { head: Vec::new(), tail: Vec::new() };
        proof {
            assert(res@ =~= Seq::<T::Set>::empty());
        }
        res
    }
}

} // verus!
