//! A binary indexed tree (Fenwick tree) over a commutative monoid.
use vstd::prelude::*;
use crate::traits::{fold, lemma_fold_single, lemma_fold_split, Commutative, Group, Monoid};

verus! {

/// The first index of the range that entry `i` of the tree covers: `i` with
/// its trailing ones cleared.
pub open spec fn low(i: usize) -> usize {
    i & ((i + 1) as usize)
}

proof fn lemma_low_le(i: usize)
    by (bit_vector)
    requires
        ((i + 1) as usize) > i,
    ensures
        i & ((i + 1) as usize) <= i,
{
}

proof fn lemma_clear_lowest(n: usize)
    by (bit_vector)
    requires
        n >= 1,
    ensures
        n & ((n - 1) as usize) == ((n - 1) as usize) & (((n - 1) as usize + 1) as usize),
        n & ((n - 1) as usize) < n,
{
}

proof fn lemma_next_above(cur: usize)
    by (bit_vector)
    requires
        ((cur + 1) as usize) > cur,
    ensures
        cur < cur | ((cur + 1) as usize),
{
}

proof fn lemma_skipped(cur: usize, j: usize)
    by (bit_vector)
    requires
        ((cur + 1) as usize) > cur,
        cur < j,
        j < cur | ((cur + 1) as usize),
    ensures
        j & ((j + 1) as usize) > cur,
{
}

proof fn lemma_next_low(cur: usize)
    by (bit_vector)
    requires
        ((cur + 1) as usize) > cur,
        (((cur | ((cur + 1) as usize)) + 1) as usize) > (cur | ((cur + 1) as usize)),
    ensures
        (cur | ((cur + 1) as usize)) & (((cur | ((cur + 1) as usize)) + 1) as usize) <= cur & ((cur + 1) as usize),
{
}

proof fn lemma_get_step(i: usize, w: usize)
    by (bit_vector)
    requires
        w & ((w - 1) as usize) == 0,
        w != 0,
        i & ((w - 1) as usize) == ((w - 1) as usize),
        i & w != 0,
        ((i + 1) as usize) > i,
    ensures
        i >= w,
        i ^ w == ((i - w) as usize),
        i + 1 >= 2 * w,
        ((i - w) as usize) & ((i - w + 1) as usize) == ((i + 1 - 2 * w) as usize),
        ((w * 2) as usize) == w * 2,
        ((w * 2) as usize) & (((w * 2) - 1) as usize) == 0,
        i & (((w * 2) - 1) as usize) == (((w * 2) - 1) as usize),
{
}

proof fn lemma_get_end(i: usize, w: usize)
    by (bit_vector)
    requires
        w & ((w - 1) as usize) == 0,
        w != 0,
        i & ((w - 1) as usize) == ((w - 1) as usize),
        i & w == 0,
        ((i + 1) as usize) > i,
    ensures
        i + 1 >= w,
        i & ((i + 1) as usize) == ((i + 1 - w) as usize),
{
}

proof fn lemma_pow2_double(w: usize)
    by (bit_vector)
    requires
        w & ((w - 1) as usize) == 0,
        w != 0,
        ((w * 2) as usize) == w * 2,
    ensures
        ((w * 2) as usize) & (((w * 2) - 1) as usize) == 0,
{
}

proof fn lemma_search_step(n: usize, w: usize)
    by (bit_vector)
    requires
        w & ((w - 1) as usize) == 0,
        w != 0,
        n & (w | ((w - 1) as usize)) == 0,
    ensures
        ((n + w) as usize) == n + w,
        ((n + w - 1) as usize) & ((n + w) as usize) == n,
        n & ((w - 1) as usize) == 0,
        ((n + w) as usize) & ((w - 1) as usize) == 0,
        w >= 2 ==> (w / 2) & (((w / 2) - 1) as usize) == 0,
        w >= 2 ==> w % 2 == 0,
        w >= 2 ==> ((w / 2) | (((w / 2) - 1) as usize)) == ((w - 1) as usize),
{
}

proof fn lemma_and_zero(i: usize)
    by (bit_vector)
    ensures
        i & 0 == 0,
        0usize & i == 0,
{
}

proof fn lemma_and_comm(a: usize, b: usize)
    by (bit_vector)
    ensures
        a & b == b & a,
{
}

/// The entry that covers entry `i` in the tree: `i` with its lowest zero bit
/// set.
pub open spec fn parent(i: usize) -> usize {
    i | ((i + 1) as usize)
}

/// A child lies below its parent, and inside the parent's range.
proof fn lemma_child_range(c: usize, p: usize)
    by (bit_vector)
    requires
        ((c + 1) as usize) > c,
        ((p + 1) as usize) > p,
        c | ((c + 1) as usize) == p,
    ensures
        c < p,
        p & ((p + 1) as usize) <= c,
{
}

/// The children of `p` below a child `i` end before the range of `i` starts.
proof fn lemma_earlier_child(c: usize, i: usize)
    by (bit_vector)
    requires
        ((c + 1) as usize) > c,
        ((i + 1) as usize) > i,
        c < i,
        c | ((c + 1) as usize) == i | ((i + 1) as usize),
    ensures
        c < i & ((i + 1) as usize),
{
}

/// The range of a child `i` of `p` starts where the range of `p` starts or
/// right after the previous child of `p`.
proof fn lemma_previous_child(i: usize, p: usize)
    by (bit_vector)
    requires
        ((i + 1) as usize) > i,
        ((p + 1) as usize) > p,
        p == i | ((i + 1) as usize),
    ensures
        i & ((i + 1) as usize) == p & ((p + 1) as usize) || (i & ((i + 1) as usize) >= 1
            && (((i & ((i + 1) as usize)) - 1) as usize) | (i & ((i + 1) as usize)) == p
            && (((i & ((i + 1) as usize)) - 1) as usize) < i),
{
}

/// An entry with children has `j - 1` among them; one without covers only
/// itself.
proof fn lemma_last_child(j: usize)
    by (bit_vector)
    requires
        ((j + 1) as usize) > j,
    ensures
        j & ((j + 1) as usize) == j || (j >= 1 && ((j - 1) as usize) | j == j),
{
}

/// A commutative fold is unchanged by appending `u` to one element, but for
/// `u` appended to the whole.
proof fn lemma_fold_update<T: Commutative + Monoid>(s: Seq<T::Set>, k: int, u: T::Set, a: int, b: int)
    requires
        0 <= a <= k < b <= s.len(),
    ensures
        fold::<T>(s.update(k, T::spec_op(s[k], u)).subrange(a, b)) == T::spec_op(
            fold::<T>(s.subrange(a, b)),
            u,
        ),
{
    let t = s.update(k, T::spec_op(s[k], u));
    lemma_fold_split::<T>(t, a, k, b);
    lemma_fold_split::<T>(t, k, k + 1, b);
    lemma_fold_split::<T>(s, a, k, b);
    lemma_fold_split::<T>(s, k, k + 1, b);
    assert(t.subrange(a, k) =~= s.subrange(a, k));
    assert(t.subrange(k + 1, b) =~= s.subrange(k + 1, b));
    assert(t.subrange(k, k + 1) =~= seq![T::spec_op(s[k], u)]);
    assert(s.subrange(k, k + 1) =~= seq![s[k]]);
    lemma_fold_single::<T>(T::spec_op(s[k], u));
    lemma_fold_single::<T>(s[k]);
    let fa = fold::<T>(s.subrange(a, k));
    let fc = fold::<T>(s.subrange(k + 1, b));
    T::lemma_associative(s[k], u, fc);
    T::lemma_commutative(u, fc);
    T::lemma_associative(s[k], fc, u);
    T::lemma_associative(fa, T::spec_op(s[k], fc), u);
}

/// Appending the fold of a range to the fold of the range right before it.
proof fn lemma_fold_prepend<T: Commutative + Monoid>(s: Seq<T::Set>, a: int, b: int, c: int)
    requires
        0 <= a <= b <= c <= s.len(),
    ensures
        T::spec_op(fold::<T>(s.subrange(b, c)), fold::<T>(s.subrange(a, b))) == fold::<T>(
            s.subrange(a, c),
        ),
{
    lemma_fold_split::<T>(s, a, b, c);
    T::lemma_commutative(fold::<T>(s.subrange(b, c)), fold::<T>(s.subrange(a, b)));
}

/// A binary indexed tree over the commutative monoid `T`.
#[derive(Clone)]
pub struct BIT<T: Commutative + Monoid> {
    data: Vec<T::Set>,
    elems: Ghost<Seq<T::Set>>,
}

impl<T: Commutative + Monoid> View for BIT<T> {
    type V = Seq<T::Set>;

    closed spec fn view(&self) -> Seq<T::Set> {
        self.elems@
    }
}

impl<T: Commutative + Monoid> BIT<T> where T::Set: Copy {
    /// The internal invariant: entry `i` holds the fold of the elements
    /// `low(i) ..= i`.
    pub closed spec fn well_formed(&self) -> bool {
        &&& self.data@.len() == self.elems@.len()
        &&& self.data@.len() <= usize::MAX
        &&& forall|i: int|
            0 <= i < self.data@.len() ==> #[trigger] self.data@[i] == fold::<T>(
                self.elems@.subrange(low(i as usize) as int, i + 1),
            )
    }

    /// Creates a tree of `n` identity elements.
    pub fn new(n: usize) -> (res: Self)
        ensures
            res.well_formed(),
            res@ == Seq::new(n as nat, |i: int| T::spec_id()),
    {
        let mut data: Vec<T::Set> = Vec::with_capacity(n);
        while data.len() < n
            invariant
                data.len() <= n,
                forall|i: int| 0 <= i < data.len() ==> data@[i] == T::spec_id(),
            decreases n - data.len(),
        {
            data.push(T::id());
        }
        let ghost elems = Seq::new(n as nat, |i: int| T::spec_id());
        let res = BIT { data, elems: Ghost(elems) };
        proof {
            assert forall|i: int| 0 <= i < n implies #[trigger] res.data@[i] == fold::<T>(
                elems.subrange(low(i as usize) as int, i + 1),
            ) by {
                lemma_low_le(i as usize);
                crate::traits::lemma_fold_all_id::<T>(elems.subrange(low(i as usize) as int, i + 1));
            }
        }
        res
    }

    /// Creates a tree holding `values`, in linear time: in index order, each
    /// entry, once complete, is added into the entry that covers it.
    pub fn from_vec(values: Vec<T::Set>) -> (res: Self)
        ensures
            res.well_formed(),
            res@ == values@,
    {
        let ghost s = values@;
        let mut data = values;
        let n = data.len();
        // entry `j` holds `s[j]` and the elements `low(j) .. cov[j]` of the
        // entries already added into it
        let ghost mut cov: Seq<int> = Seq::new(n as nat, |j: int| low(j as usize) as int);
        let mut i: usize = 0;
        proof {
            assert forall|j: int| 0 <= j < n implies #[trigger] data@[j] == T::spec_op(
                s[j],
                fold::<T>(s.subrange(low(j as usize) as int, cov[j])),
            ) by {
                assert(cov[j] == low(j as usize) as int);
                lemma_low_le(j as usize);
                assert(s.subrange(low(j as usize) as int, cov[j]) =~= Seq::<T::Set>::empty());
                T::lemma_identity(s[j]);
            }
            assert forall|j: int| 0 <= j < n implies low(j as usize) <= #[trigger] cov[j] <= j by {
                assert(cov[j] == low(j as usize) as int);
                lemma_low_le(j as usize);
            }
            assert forall|j: int| 0 <= j < n implies #[trigger] cov[j] == low(j as usize) by {
            }
        }
        while i < n
            invariant
                n == data@.len(),
                n == s.len(),
                i <= n,
                cov.len() == n,
                forall|j: int|
                    0 <= j < i ==> #[trigger] data@[j] == fold::<T>(
                        s.subrange(low(j as usize) as int, j + 1),
                    ),
                forall|j: int| i <= j < n ==> low(j as usize) <= #[trigger] cov[j] <= j,
                forall|j: int|
                    i <= j < n ==> #[trigger] data@[j] == T::spec_op(
                        s[j],
                        fold::<T>(s.subrange(low(j as usize) as int, cov[j])),
                    ),
                forall|j: int|
                    i <= j < n ==> #[trigger] cov[j] == low(j as usize) || (parent(
                        (cov[j] - 1) as usize,
                    ) == j && cov[j] - 1 < i),
                forall|j: int, c: int|
                    #![trigger parent(c as usize), cov[j]]
                    i <= j < n && 0 <= c < i && parent(c as usize) == j ==> c < cov[j],
            decreases n - i,
        {
            let ghost li = low(i) as int;
            proof {
                // every entry added into `i` came before it: `i` is complete
                lemma_last_child(i);
                if li != i {
                    assert(parent((i - 1) as usize) == i);
                    assert(i - 1 < cov[i as int]);
                }
                assert(cov[i as int] == i);
                lemma_fold_split::<T>(s, li, i as int, i + 1);
                assert(s.subrange(i as int, i + 1) =~= seq![s[i as int]]);
                lemma_fold_single::<T>(s[i as int]);
                T::lemma_commutative(s[i as int], fold::<T>(s.subrange(li, i as int)));
            }
            let p = i | (i + 1);
            if p < n {
                let ghost lp = low(p) as int;
                proof {
                    lemma_child_range(i, p);
                    lemma_previous_child(i, p);
                    // what `p` holds so far ends where the range of `i` starts
                    if li != lp {
                        let prev = li - 1;
                        lemma_child_range(prev as usize, p);
                        assert(parent(prev as usize) == p);
                        assert(prev < cov[p as int]);
                    }
                    if cov[p as int] != lp {
                        let last = cov[p as int] - 1;
                        assert(parent(last as usize) == p && last < i);
                        lemma_child_range(last as usize, p);
                        lemma_earlier_child(last as usize, i);
                    }
                    assert(cov[p as int] == li);
                    lemma_fold_split::<T>(s, lp, li, i + 1);
                    T::lemma_associative(
                        s[p as int],
                        fold::<T>(s.subrange(lp, li)),
                        fold::<T>(s.subrange(li, i + 1)),
                    );
                }
                let v = T::op(data[p], data[i]);
                data[p] = v;
                proof {
                    cov = cov.update(p as int, i + 1);
                }
            }
            proof {
                assert forall|j: int, c: int|
                    #![trigger parent(c as usize), cov[j]]
                    i + 1 <= j < n && 0 <= c < i + 1 && parent(c as usize) == j implies c < cov[j] by {
                    if c == i {
                        assert(j == p);
                    }
                }
            }
            i = i + 1;
        }
        assert(data@.len() <= usize::MAX) by {
            let m = data.len();
        }
        BIT { data, elems: Ghost(s) }
    }

    /// Folds the first `n` elements.
    pub fn prefix_query(&self, n: usize) -> (res: T::Set)
        requires
            self.well_formed(),
            n <= self@.len(),
        ensures
            res == fold::<T>(self@.subrange(0, n as int)),
    {
        let ghost n0 = n as int;
        let ghost s = self@;
        let mut n = n;
        let mut result = T::id();
        proof {
            assert(s.subrange(n0, n0) =~= Seq::<T::Set>::empty());
            T::lemma_identity(fold::<T>(s.subrange(0, n0)));
            lemma_fold_split::<T>(s, 0, n0, n0);
        }
        while n > 0
            invariant
                self.well_formed(),
                s == self@,
                n <= n0 <= s.len(),
                T::spec_op(fold::<T>(s.subrange(0, n as int)), result) == fold::<T>(
                    s.subrange(0, n0),
                ),
            decreases n,
        {
            proof {
                lemma_clear_lowest(n);
                lemma_low_le((n - 1) as usize);
            }
            let m = n & (n - 1);
            proof {
                let d = self.data@[n - 1];
                lemma_fold_split::<T>(s, 0, m as int, n as int);
                let fm = fold::<T>(s.subrange(0, m as int));
                T::lemma_associative(fm, d, result);
                T::lemma_commutative(result, d);
            }
            result = T::op(result, self.data[n - 1]);
            n = m;
        }
        proof {
            assert(s.subrange(0, 0) =~= Seq::<T::Set>::empty());
            T::lemma_identity(result);
        }
        result
    }

    /// Appends `update` with `T::op` to the `i`-th element; an index past the
    /// end changes nothing.
    pub fn point_update(&mut self, i: usize, update: T::Set)
        requires
            old(self).well_formed(),
        ensures
            final(self).well_formed(),
            final(self)@ == if i < old(self)@.len() {
                old(self)@.update(i as int, T::spec_op(old(self)@[i as int], update))
            } else {
                old(self)@
            },
    {
        let ghost s = self@;
        let ghost i0 = i as int;
        if i >= self.data.len() {
            return;
        }
        let ghost t = s.update(i0, T::spec_op(s[i0], update));
        let ghost old_data = self.data@;
        let mut i = i;
        let n = self.data.len();
        proof {
            lemma_low_le(i);
            assert forall|j: int| 0 <= j < n && j < i implies #[trigger] self.data@[j] == fold::<T>(
                t.subrange(low(j as usize) as int, j + 1),
            ) by {
                lemma_low_le(j as usize);
                assert(t.subrange(low(j as usize) as int, j + 1) =~= s.subrange(
                    low(j as usize) as int,
                    j + 1,
                ));
            }
        }
        while i < n
            invariant
                n == self.data@.len(),
                n == s.len(),
                n <= usize::MAX,
                self.elems@ == s,
                t == s.update(i0, T::spec_op(s[i0], update)),
                0 <= i0 < n,
                i0 <= i,
                i < n ==> low(i) <= i0,
                forall|j: int|
                    0 <= j < n && j < i ==> #[trigger] self.data@[j] == fold::<T>(
                        t.subrange(low(j as usize) as int, j + 1),
                    ),
                forall|j: int| i <= j < n ==> #[trigger] self.data@[j] == old_data[j],
                forall|j: int|
                    0 <= j < n ==> #[trigger] old_data[j] == fold::<T>(
                        s.subrange(low(j as usize) as int, j + 1),
                    ),
            decreases usize::MAX - i,
        {
            proof {
                lemma_fold_update::<T>(s, i0, update, low(i) as int, i + 1);
                lemma_next_above(i);
            }
            let v = T::op(self.data[i], update);
            self.data[i] = v;
            let next = i | (i + 1);
            proof {
                assert forall|j: int| 0 <= j < n && j < next implies #[trigger] self.data@[j]
                    == fold::<T>(t.subrange(low(j as usize) as int, j + 1)) by {
                    if j > i {
                        lemma_skipped(i, j as usize);
                        lemma_low_le(j as usize);
                        assert(t.subrange(low(j as usize) as int, j + 1) =~= s.subrange(
                            low(j as usize) as int,
                            j + 1,
                        ));
                    }
                }
                if next < n {
                    lemma_next_low(i);
                }
            }
            i = next;
        }
        proof {
            self.elems@ = t;
        }
    }
}

impl<T: Commutative + Monoid> BIT<T> where T::Set: Copy {
    /// Finds how many leading elements satisfy `pred` through their prefix
    /// fold, for a `pred` that holds on a run of prefixes and then fails:
    /// returns `(n, fold of the first n elements)`, where `pred` held on that
    /// fold (if `n > 0`) and failed on the fold of one more element (if any).
    pub fn partition_point<P: Fn(T::Set) -> bool>(&self, pred: P) -> (res: (usize, T::Set))
        requires
            self.well_formed(),
            forall|x: T::Set| #[trigger] pred.requires((x,)),
        ensures
            res.0 <= self@.len(),
            res.1 == fold::<T>(self@.subrange(0, res.0 as int)),
            res.0 > 0 ==> pred.ensures((res.1,), true),
            res.0 < self@.len() ==> pred.ensures(
                (fold::<T>(self@.subrange(0, res.0 + 1)),),
                false,
            ),
    {
        let ghost s = self@;
        let len = self.data.len();
        let mut n: usize = 0;
        let mut prefix = T::id();
        // the largest power of two not above the length
        let mut w: usize = 0;
        if len > 0 {
            w = 1;
            proof {
                lemma_and_zero(1);
            }
            while w <= len / 2
                invariant
                    1 <= w <= len,
                    w & ((w - 1) as usize) == 0,
                decreases len - w,
            {
                proof {
                    lemma_pow2_double(w);
                }
                w = w * 2;
            }
        }
        proof {
            assert(s.subrange(0, 0) =~= Seq::<T::Set>::empty());
            if w > 0 {
                lemma_and_zero(w | ((w - 1) as usize));
            }
        }
        while w > 0
            invariant
                self.well_formed(),
                s == self@,
                len == s.len(),
                n <= len,
                w <= len,
                w > 0 ==> w & ((w - 1) as usize) == 0,
                w > 0 ==> n & (w | ((w - 1) as usize)) == 0,
                prefix == fold::<T>(s.subrange(0, n as int)),
                n > 0 ==> pred.ensures((prefix,), true),
                ({
                    let hi = if w > 0 {
                        n + 2 * w
                    } else {
                        n + 1
                    };
                    hi > len || pred.ensures((fold::<T>(s.subrange(0, hi)),), false)
                }),
                forall|x: T::Set| #[trigger] pred.requires((x,)),
            decreases w,
        {
            proof {
                lemma_search_step(n, w);
            }
            let ghost hi_next = n + w;
            if n + w - 1 < len {
                proof {
                    lemma_fold_prepend::<T>(s, 0, n as int, n + w);
                }
                let v = T::op(self.data[n + w - 1], prefix);
                if pred(v) {
                    prefix = v;
                    n = n + w;
                }
            }
            w = w / 2;
        }
        (n, prefix)
    }
}

impl<T: Commutative + Group> BIT<T> where T::Set: Copy {
    /// Gets the `i`-th element.
    pub fn get(&self, i: usize) -> (res: T::Set)
        requires
            self.well_formed(),
            i < self@.len(),
        ensures
            res == self@[i as int],
    {
        let ghost s = self@;
        let acc_r = self.data[i];
        let mut acc_l = T::id();
        let mut w: usize = 1;
        proof {
            lemma_and_zero(i);
            assert(s.subrange(i as int, i as int) =~= Seq::<T::Set>::empty());
            assert(((1 - 1) as usize) == 0);
            lemma_and_zero(1);
        }
        while w & i > 0
            invariant
                self.well_formed(),
                s == self@,
                i < s.len(),
                w >= 1,
                w & ((w - 1) as usize) == 0,
                i & ((w - 1) as usize) == ((w - 1) as usize),
                i + 1 >= w,
                acc_l == fold::<T>(s.subrange(i + 1 - w, i as int)),
            decreases usize::MAX - w,
        {
            proof {
                lemma_and_comm(w, i);
                lemma_get_step(i, w);
                lemma_fold_prepend::<T>(s, i + 1 - 2 * w, i + 1 - w, i as int);
            }
            acc_l = T::op(acc_l, self.data[i ^ w]);
            w = w * 2;
        }
        proof {
            lemma_and_comm(w, i);
            lemma_get_end(i, w);
            lemma_fold_split::<T>(s, i + 1 - w, i as int, i + 1);
            assert(s.subrange(i as int, i + 1) =~= seq![s[i as int]]);
            lemma_fold_single::<T>(s[i as int]);
            T::lemma_commutative(acc_l, s[i as int]);
            T::lemma_associative(s[i as int], acc_l, T::spec_inv(acc_l));
            T::lemma_inverse(acc_l, s[i as int]);
        }
        T::op(acc_r, T::inv(acc_l))
    }
}

/// A range fold comes from two prefix folds: in a commutative group the fold
/// of `l..r` is the fold of `0..r` combined with the inverse of the fold of
/// `0..l` (what `prefix_query(r)` and `prefix_query(l)` return).
pub proof fn lemma_prefix_difference<T: Commutative + Group>(s: Seq<T::Set>, l: int, r: int)
    requires
        0 <= l <= r <= s.len(),
    ensures
        T::spec_op(
            fold::<T>(s.subrange(0, r)),
            T::spec_inv(fold::<T>(s.subrange(0, l))),
        ) == fold::<T>(s.subrange(l, r)),
{
    let a = fold::<T>(s.subrange(0, l));
    let b = fold::<T>(s.subrange(l, r));
    lemma_fold_split::<T>(s, 0, l, r);
    T::lemma_commutative(a, b);
    T::lemma_associative(b, a, T::spec_inv(a));
    T::lemma_inverse(a, b);
}

} // verus!
