//! A double-ended queue that folds all its elements in constant time.
use vstd::prelude::*;
use crate::foldable::{
    contents, head_ok, lemma_fold_tops, lemma_head_push, lemma_pop, lemma_tail_push, tail_ok,
    values,
};
use crate::traits::{fold, Monoid};

verus! {

/// A double-ended queue over the monoid `T` with a constant-time fold.
#[derive(Debug, Clone)]
pub struct FoldableDeque<T: Monoid> {
    head: Vec<(T::Set, T::Set)>,
    tail: Vec<(T::Set, T::Set)>,
}

impl<T: Monoid> View for FoldableDeque<T> {
    type V = Seq<T::Set>;

    closed spec fn view(&self) -> Seq<T::Set> {
        contents(self.head@, self.tail@)
    }
}

impl<T: Monoid> FoldableDeque<T> where T::Set: Copy {
    /// The internal invariant.
    pub closed spec fn well_formed(&self) -> bool {
        head_ok::<T>(self.head@) && tail_ok::<T>(self.tail@)
    }

    /// Creates an empty queue with space for at least `capacity` elements.
    pub fn with_capacity(capacity: usize) -> (res: Self)
        ensures
            res.well_formed(),
            res@ == Seq::<T::Set>::empty(),
    {
        let res = FoldableDeque { head: Vec::with_capacity(capacity), tail: Vec::with_capacity(capacity) };
        proof {
            assert(res@ =~= Seq::<T::Set>::empty());
        }
        res
    }

    /// Reserves capacity for at least `additional` more elements.
    pub fn reserve(&mut self, additional: usize)
        requires
            old(self).well_formed(),
        ensures
            final(self).well_formed(),
            final(self)@ == old(self)@,
    {
        self.head.reserve(additional);
        self.tail.reserve(additional);
    }

    /// Returns the number of elements in the deque.
    pub fn len(&self) -> (res: usize)
        requires
            self.well_formed(),
            self@.len() <= usize::MAX,
        ensures
            res == self@.len(),
    {
        self.head.len() + self.tail.len()
    }

    /// Returns `true` if the deque contains no elements.
    pub fn is_empty(&self) -> (res: bool)
        requires
            self.well_formed(),
        ensures
            res == (self@.len() == 0),
    {
        self.head.is_empty() && self.tail.is_empty()
    }

    /// Clears the deque.
    pub fn clear(&mut self)
        requires
            old(self).well_formed(),
        ensures
            final(self).well_formed(),
            final(self)@ == Seq::<T::Set>::empty(),
    {
        self.head.clear();
        self.tail.clear();
        proof {
            assert(self@ =~= Seq::<T::Set>::empty());
        }
    }

    /// Appends an element to the back of the deque.
    pub fn push_back(&mut self, value: T::Set)
        requires
            old(self).well_formed(),
        ensures
            final(self).well_formed(),
            final(self)@ == old(self)@.push(value),
    {
        let n = self.tail.len();
        let folded = if n > 0 {
            T::op(self.tail[n - 1].1, value)
        } else {
            value
        };
        proof {
            lemma_tail_push::<T>(self.tail@, value, folded);
        }
        self.tail.push((value, folded));
        proof {
            assert(self@ =~= old(self)@.push(value));
        }
    }

    /// Moves the front half of the back stack onto the empty front stack.
    fn refill_head(&mut self)
        requires
            old(self).well_formed(),
            old(self).head@.len() == 0,
        ensures
            final(self).well_formed(),
            final(self)@ == old(self)@,
            old(self).tail@.len() > 0 ==> final(self).head@.len() > 0,
    {
        let ghost tv = values(self.tail@);
        let n = self.tail.len();
        let h = n / 2 + n % 2;
        let mut new_head: Vec<(T::Set, T::Set)> = Vec::new();
        let mut folded = T::id();
        let mut k = h;
        proof {
            assert(values(new_head@) =~= tv.subrange(k as int, h as int).reverse());
        }
        while k > 0
            invariant
                n == self.tail@.len(),
                tv == values(self.tail@),
                h <= n,
                k <= h,
                head_ok::<T>(new_head@),
                new_head@.len() > 0 ==> new_head@.last().1 == folded,
                new_head@.len() == 0 ==> folded == T::spec_id(),
                values(new_head@) == tv.subrange(k as int, h as int).reverse(),
            decreases k,
        {
            k = k - 1;
            let v = self.tail[k].0;
            proof {
                if new_head@.len() == 0 {
                    T::lemma_identity(v);
                }
            }
            let f = T::op(v, folded);
            proof {
                lemma_head_push::<T>(new_head@, v, f);
            }
            new_head.push((v, f));
            folded = f;
            proof {
                assert(values(new_head@) =~= tv.subrange(k as int, h as int).reverse());
            }
        }
        let mut new_tail: Vec<(T::Set, T::Set)> = Vec::new();
        let mut folded = T::id();
        let mut k = h;
        proof {
            assert(values(new_tail@) =~= tv.subrange(h as int, k as int));
        }
        while k < n
            invariant
                n == self.tail@.len(),
                tv == values(self.tail@),
                h <= k <= n,
                tail_ok::<T>(new_tail@),
                new_tail@.len() > 0 ==> new_tail@.last().1 == folded,
                new_tail@.len() == 0 ==> folded == T::spec_id(),
                values(new_tail@) == tv.subrange(h as int, k as int),
            decreases n - k,
        {
            let v = self.tail[k].0;
            proof {
                if new_tail@.len() == 0 {
                    T::lemma_identity(v);
                }
            }
            let f = T::op(folded, v);
            proof {
                lemma_tail_push::<T>(new_tail@, v, f);
            }
            new_tail.push((v, f));
            folded = f;
            k = k + 1;
            proof {
                assert(values(new_tail@) =~= tv.subrange(h as int, k as int));
            }
        }
        self.head = new_head;
        self.tail = new_tail;
        proof {
            assert(values(old(self).head@) =~= Seq::<T::Set>::empty());
            assert(tv.subrange(0, h as int).reverse().reverse() =~= tv.subrange(0, h as int));
            assert(self@ =~= old(self)@);
        }
    }

    /// Moves the back half of the front stack onto the empty back stack.
    fn refill_tail(&mut self)
        requires
            old(self).well_formed(),
            old(self).tail@.len() == 0,
        ensures
            final(self).well_formed(),
            final(self)@ == old(self)@,
            old(self).head@.len() > 0 ==> final(self).tail@.len() > 0,
    {
        let ghost hv = values(self.head@);
        let m = self.head.len();
        let h = m / 2 + m % 2;
        let mut new_tail: Vec<(T::Set, T::Set)> = Vec::new();
        let mut folded = T::id();
        let mut k = h;
        proof {
            assert(values(new_tail@) =~= hv.subrange(k as int, h as int).reverse());
        }
        while k > 0
            invariant
                m == self.head@.len(),
                hv == values(self.head@),
                h <= m,
                k <= h,
                tail_ok::<T>(new_tail@),
                new_tail@.len() > 0 ==> new_tail@.last().1 == folded,
                new_tail@.len() == 0 ==> folded == T::spec_id(),
                values(new_tail@) == hv.subrange(k as int, h as int).reverse(),
            decreases k,
        {
            k = k - 1;
            let v = self.head[k].0;
            proof {
                if new_tail@.len() == 0 {
                    T::lemma_identity(v);
                }
            }
            let f = T::op(folded, v);
            proof {
                lemma_tail_push::<T>(new_tail@, v, f);
            }
            new_tail.push((v, f));
            folded = f;
            proof {
                assert(values(new_tail@) =~= hv.subrange(k as int, h as int).reverse());
            }
        }
        let mut new_head: Vec<(T::Set, T::Set)> = Vec::new();
        let mut folded = T::id();
        let mut k = h;
        proof {
            assert(values(new_head@) =~= hv.subrange(h as int, k as int));
        }
        while k < m
            invariant
                m == self.head@.len(),
                hv == values(self.head@),
                h <= k <= m,
                head_ok::<T>(new_head@),
                new_head@.len() > 0 ==> new_head@.last().1 == folded,
                new_head@.len() == 0 ==> folded == T::spec_id(),
                values(new_head@) == hv.subrange(h as int, k as int),
            decreases m - k,
        {
            let v = self.head[k].0;
            proof {
                if new_head@.len() == 0 {
                    T::lemma_identity(v);
                }
            }
            let f = T::op(v, folded);
            proof {
                lemma_head_push::<T>(new_head@, v, f);
            }
            new_head.push((v, f));
            folded = f;
            k = k + 1;
            proof {
                assert(values(new_head@) =~= hv.subrange(h as int, k as int));
            }
        }
        self.head = new_head;
        self.tail = new_tail;
        proof {
            assert(values(old(self).tail@) =~= Seq::<T::Set>::empty());
            assert(hv =~= hv.subrange(0, h as int) + hv.subrange(h as int, m as int));
            assert(hv.reverse() =~= hv.subrange(h as int, m as int).reverse() + hv.subrange(0, h as int).reverse());
            assert(self@ =~= old(self)@);
        }
    }

    /// Appends an element to the front of the deque.
    pub fn push_front(&mut self, value: T::Set)
        requires
            old(self).well_formed(),
        ensures
            final(self).well_formed(),
            final(self)@ == seq![value] + old(self)@,
    {
        let n = self.head.len();
        let folded = if n > 0 {
            T::op(value, self.head[n - 1].1)
        } else {
            value
        };
        proof {
            lemma_head_push::<T>(self.head@, value, folded);
        }
        self.head.push((value, folded));
        proof {
            assert(values(self.head@).reverse() =~= seq![value] + values(old(self).head@).reverse());
            assert(self@ =~= seq![value] + old(self)@);
        }
    }

    /// Removes the first element and returns it, or `None` if the deque is
    /// empty.
    pub fn pop_front(&mut self) -> (res: Option<T::Set>)
        requires
            old(self).well_formed(),
        ensures
            final(self).well_formed(),
            old(self)@.len() == 0 ==> res == None::<T::Set> && final(self)@ == old(self)@,
            old(self)@.len() > 0 ==> res == Some(old(self)@[0]) && final(self)@
                == old(self)@.drop_first(),
    {
        if self.head.len() == 0 {
            self.refill_head();
        }
        let ghost before = self.head@;
        let ghost whole = self@;
        match self.head.pop() {
            Some(first) => {
                proof {
                    lemma_pop::<T>(before);
                    assert(self@ =~= whole.drop_first());
                }
                Some(first.0)
            },
            None => {
                proof {
                    assert(values(self.tail@) =~= Seq::<T::Set>::empty());
                }
                None
            },
        }
    }

    /// Removes the last element and returns it, or `None` if the deque is
    /// empty.
    pub fn pop_back(&mut self) -> (res: Option<T::Set>)
        requires
            old(self).well_formed(),
        ensures
            final(self).well_formed(),
            old(self)@.len() == 0 ==> res == None::<T::Set> && final(self)@ == old(self)@,
            old(self)@.len() > 0 ==> res == Some(old(self)@.last()) && final(self)@
                == old(self)@.drop_last(),
    {
        if self.tail.len() == 0 {
            self.refill_tail();
        }
        let ghost before = self.tail@;
        let ghost whole = self@;
        match self.tail.pop() {
            Some(last) => {
                proof {
                    lemma_pop::<T>(before);
                    assert(self@ =~= whole.drop_last());
                }
                Some(last.0)
            },
            None => {
                proof {
                    assert(values(self.head@) =~= Seq::<T::Set>::empty());
                }
                None
            },
        }
    }

    /// Folds every element into an accumulator using `T::op`.
    pub fn fold(&self) -> (res: T::Set)
        requires
            self.well_formed(),
        ensures
            res == fold::<T>(self@),
    {
        proof {
            lemma_fold_tops::<T>(self.head@, self.tail@);
        }
        let head = if self.head.len() > 0 {
            self.head[self.head.len() - 1].1
        } else {
            T::id()
        };
        let tail = if self.tail.len() > 0 {
            self.tail[self.tail.len() - 1].1
        } else {
            T::id()
        };
        T::op(head, tail)
    }
}

impl<T: Monoid> Default for FoldableDeque<T> where T::Set: Copy {
    /// An empty deque.
    fn default() -> (res: Self)
        ensures
            res.well_formed(),
            res@ == Seq::<T::Set>::empty(),
    {
        let res = FoldableDeque { head: Vec::new(), tail: Vec::new() };
        proof {
            assert(res@ =~= Seq::<T::Set>::empty());
        }
        res
    }
}

} // verus!
