//! A segment tree: point updates and range folds over a monoid.
use core::ops::Range;
use vstd::prelude::*;
use crate::traits::{fold, lemma_fold_all_id, lemma_fold_single, lemma_fold_split, Monoid};
use crate::tree::{
    compute_offset, exp2, is_node, lemma_exp2_add, lemma_exp2_le, lemma_exp2_lt, lemma_exp2_pos,
    lemma_exp2_split, lemma_height_bound, lemma_mul_assoc, lemma_mul_lt_cancel, lemma_mul_mono,
    lemma_node_end_bound, lemma_odd_unique, lemma_right_node, lemma_walk_end, lemma_walk_step,
    next_power_of_two, round_up_even, strip_trailing_zeros,
};

verus! {

/// The `offset` leaves of a tree stored in `data`: the first `len` are the
/// elements, the rest are padding identities.
pub open spec fn leaves<T: Monoid>(data: Seq<T::Set>, offset: nat, len: nat) -> Seq<T::Set> {
    Seq::new(offset, |i: int| if i < len { data[offset + i] } else { T::spec_id() })
}

/// `data` is a tree over `len` elements with `offset` leaves in which every
/// inner node holds the fold of its two children.
pub open spec fn heap_inv<T: Monoid>(data: Seq<T::Set>, offset: nat, len: nat) -> bool {
    &&& len <= offset
    &&& data.len() == offset + round_up_even(len)
    &&& forall|x: int|
        1 <= x < data.len() / 2 ==> #[trigger] data[x] == T::spec_op(data[2 * x], data[2 * x + 1])
    &&& forall|x: int| data.len() / 2 <= x < offset ==> #[trigger] data[x] == T::spec_id()
    &&& forall|x: int| offset + len <= x < data.len() ==> #[trigger] data[x] == T::spec_id()
}

/// A node of the tree holds the fold of the leaves below it.
pub proof fn lemma_heap_node<T: Monoid>(
    data: Seq<T::Set>,
    k: nat,
    len: nat,
    x: nat,
    h: nat,
)
    requires
        heap_inv::<T>(data, exp2(k), len),
        1 <= x < data.len(),
        exp2(k) <= x * exp2(h) < 2 * exp2(k),
    ensures
        (x + 1) * exp2(h) <= 2 * exp2(k),
        data[x as int] == fold::<T>(
            leaves::<T>(data, exp2(k), len).subrange(
                x * exp2(h) - exp2(k),
                (x + 1) * exp2(h) - exp2(k),
            ),
        ),
    decreases h,
{
    let off = exp2(k);
    let lv = leaves::<T>(data, off, len);
    lemma_node_end(k, x, h);
    lemma_exp2_pos(h);
    if h == 0 {
        assert(exp2(0) == 1);
        assert(x * exp2(h) == x && (x + 1) * exp2(h) == x + 1) by (nonlinear_arith)
            requires
                exp2(h) == 1,
        ;
        let i = x - off;
        assert(lv.subrange(i, i + 1) =~= seq![lv[i]]);
        lemma_fold_single::<T>(lv[i]);
    } else {
        let e = exp2(h);
        let e2 = exp2((h - 1) as nat);
        assert(e == 2 * e2);
        lemma_exp2_pos((h - 1) as nat);
        assert(x * e == (2 * x) * e2) by (nonlinear_arith)
            requires
                e == 2 * e2,
        ;
        assert((2 * x + 1) * e2 == x * e + e2) by (nonlinear_arith)
            requires
                e == 2 * e2,
        ;
        assert((x + 1) * e == x * e + e) by (nonlinear_arith);
        assert((2 * x + 1 + 1) * e2 == (x + 1) * e) by (nonlinear_arith)
            requires
                e == 2 * e2,
        ;
        lemma_mul_mono(2, e as int, x as int);
        if x < data.len() / 2 {
            lemma_heap_node::<T>(data, k, len, 2 * x, (h - 1) as nat);
            lemma_heap_node::<T>(data, k, len, 2 * x + 1, (h - 1) as nat);
            lemma_fold_split::<T>(lv, x * e - off, x * e + e2 - off, (x + 1) * e - off);
            assert(data[x as int] == T::spec_op(data[2 * x as int], data[2 * x + 1 as int]));
        } else {
            // Every leaf below this node is padding.
            if k == 0 {
                assert(false);
            }
            assert(off == 2 * exp2((k - 1) as nat));
            assert(data.len() % 2 == 0);
            assert(2 * x >= off + len);
            assert(x * e >= 2 * x) by (nonlinear_arith)
                requires
                    e == 2 * e2,
                    e2 >= 1,
            ;
            let s = lv.subrange(x * e - off, (x + 1) * e - off);
            assert forall|i: int| 0 <= i < s.len() implies s[i] == T::spec_id() by {
                assert(x * e - off + i >= len);
            }
            lemma_fold_all_id::<T>(s);
        }
    }
}

/// Folding past the last element adds only padding identities.
pub proof fn lemma_fold_padding<T: Monoid>(data: Seq<T::Set>, off: nat, len: nat, a: int, e: int)
    requires
        0 <= a <= len <= e <= off,
    ensures
        fold::<T>(leaves::<T>(data, off, len).subrange(a, e)) == fold::<T>(
            leaves::<T>(data, off, len).subrange(a, len as int),
        ),
{
    let lv = leaves::<T>(data, off, len);
    lemma_fold_split::<T>(lv, a, len as int, e);
    lemma_fold_all_id::<T>(lv.subrange(len as int, e));
    T::lemma_identity(fold::<T>(lv.subrange(a, len as int)));
}

/// A power of two between `exp2(k)` and `2 * exp2(k)` (exclusive) is `exp2(k)`.
pub proof fn lemma_exp2_between(k: nat, j: nat)
    requires
        exp2(k) <= exp2(j) < 2 * exp2(k),
    ensures
        j == k,
{
    if j < k {
        lemma_exp2_lt(j, k);
    } else if j > k {
        lemma_exp2_le(k + 1, j);
        assert(exp2(k + 1) == 2 * exp2(k));
    }
}

/// The block of a node ends inside the tree.
pub proof fn lemma_node_end(k: nat, x: nat, h: nat)
    requires
        1 <= x,
        exp2(k) <= x * exp2(h) < 2 * exp2(k),
    ensures
        (x + 1) * exp2(h) <= 2 * exp2(k),
        h <= k,
        x <= x * exp2(h),
{
    lemma_exp2_pos(h);
    lemma_mul_mono(1, exp2(h) as int, x as int);
    lemma_height_bound(k, x, h);
    assert(2 * exp2(k) == exp2(k + 1));
    lemma_exp2_split(h, k + 1);
    let d = exp2((k + 1 - h) as nat);
    lemma_mul_lt_cancel(x as int, d as int, exp2(h) as int);
    assert((x + 1) * exp2(h) == x * exp2(h) + exp2(h)) by (nonlinear_arith);
}

/// `x` is a proper ancestor of node `p`: one of `p / 2`, `p / 4`, ..., `1`.
pub open spec fn is_strict_ancestor(x: int, p: int) -> bool
    decreases p,
{
    if p <= 1 {
        false
    } else {
        x == p / 2 || is_strict_ancestor(x, p / 2)
    }
}

/// A segment tree over the monoid `T`.
pub struct Segtree<T: Monoid> {
    data: Vec<T::Set>,
    offset: usize,
    len: usize,
    height: Ghost<nat>,
}

impl<T: Monoid> View for Segtree<T> {
    type V = Seq<T::Set>;

    closed spec fn view(&self) -> Seq<T::Set> {
        self.data@.subrange(self.offset as int, self.offset + self.len)
    }
}

impl<T: Monoid> Segtree<T> where T::Set: Copy {
    /// The internal invariant.
    pub closed spec fn well_formed(&self) -> bool {
        &&& self.offset == exp2(self.height@)
        &&& self.offset == next_power_of_two(self.len as nat)
        &&& heap_inv::<T>(self.data@, self.offset as nat, self.len as nat)
        &&& self.data@.len() <= usize::MAX
    }

    proof fn lemma_view(&self)
        requires
            self.well_formed(),
        ensures
            self@.len() == self.len,
            forall|i: int|
                0 <= i < self.len ==> #[trigger] self@[i] == self.data@[self.offset + i],
            self@ =~= leaves::<T>(self.data@, self.offset as nat, self.len as nat).subrange(
                0,
                self.len as int,
            ),
    {
    }

    /// A well-formed tree fits in memory: its offset plus its elements,
    /// rounded up to an even count, do not overflow `usize`. This bounds the
    /// ranges that the range operations accept.
    pub proof fn lemma_size_bound(&self)
        requires
            self.well_formed(),
        ensures
            next_power_of_two(self@.len()) + round_up_even(self@.len()) <= usize::MAX,
            next_power_of_two(self@.len()) + self@.len() <= usize::MAX,
    {
        self.lemma_view();
    }

    /// Creates a tree of `len` identity elements. `tree_fits(len)` tells
    /// whether `len` is small enough.
    pub fn new(len: usize) -> (res: Self)
        requires
            next_power_of_two(len as nat) + round_up_even(len as nat) <= usize::MAX,
        ensures
            res.well_formed(),
            res@ == Seq::new(len as nat, |i: int| T::spec_id()),
    {
        let (offset, height) = compute_offset(len);
        let new_len = offset + (len + len % 2);
        let mut data: Vec<T::Set> = Vec::with_capacity(new_len);
        while data.len() < new_len
            invariant
                data.len() <= new_len,
                forall|i: int| 0 <= i < data.len() ==> data@[i] == T::spec_id(),
            decreases new_len - data.len(),
        {
            data.push(T::id());
        }
        proof {
            T::lemma_identity(T::spec_id());
        }
        assert(data@.len() <= usize::MAX) by {
            let n = data.len();
        }
        let res = Segtree { data, offset, len, height };
        assert(res@ =~= Seq::new(len as nat, |i: int| T::spec_id()));
        res
    }

    /// Creates a tree holding `values`. `tree_fits(values.len())` tells
    /// whether there are few enough of them.
    pub fn from_vec(values: Vec<T::Set>) -> (res: Self)
        requires
            next_power_of_two(values@.len()) + round_up_even(values@.len()) <= usize::MAX,
        ensures
            res.well_formed(),
            res@ == values@,
    {
        let len = values.len();
        let (offset, height) = compute_offset(len);
        let new_len = offset + (len + len % 2);
        let mut data: Vec<T::Set> = Vec::with_capacity(new_len);
        while data.len() < offset
            invariant
                data.len() <= offset,
                forall|i: int| 0 <= i < data.len() ==> data@[i] == T::spec_id(),
            decreases offset - data.len(),
        {
            data.push(T::id());
        }
        let mut j: usize = 0;
        while j < len
            invariant
                j <= len,
                len == values@.len(),
                data.len() == offset + j,
                forall|i: int| 0 <= i < offset ==> data@[i] == T::spec_id(),
                forall|i: int| 0 <= i < j ==> data@[offset + i] == values@[i],
            decreases len - j,
        {
            data.push(values[j]);
            j = j + 1;
        }
        if len % 2 == 1 {
            data.push(T::id());
        }
        let half = new_len / 2;
        let mut p = half;
        proof {
            let k = height@;
            if k > 0 {
                assert(exp2(k) == 2 * exp2((k - 1) as nat));
            }
            if new_len % 2 == 1 {
                assert(k == 0);
            }
            assert(half <= offset);
        }
        while p > 1
            invariant
                p <= half,
                half == new_len / 2,
                half <= offset,
                data@.len() == new_len,
                new_len == offset + round_up_even(len as nat),
                len == values@.len(),
                forall|i: int| half <= i < offset ==> #[trigger] data@[i] == T::spec_id(),
                forall|i: int| 0 <= i < len ==> data@[offset + i] == values@[i],
                forall|i: int| offset + len <= i < new_len ==> #[trigger] data@[i] == T::spec_id(),
                forall|x: int|
                    p <= x < half ==> #[trigger] data@[x] == T::spec_op(
                        data@[2 * x],
                        data@[2 * x + 1],
                    ),
            decreases p,
        {
            p = p - 1;
            let w = T::op(data[2 * p], data[2 * p + 1]);
            data[p] = w;
        }
        assert(data@.len() <= usize::MAX) by {
            let n = data.len();
        }
        let res = Segtree { data, offset, len, height };
        proof {
            res.lemma_view();
            assert(res@ =~= values@);
        }
        res
    }

    /// Returns a slice of the elements.
    pub fn as_slice(&self) -> (res: &[T::Set])
        requires
            self.well_formed(),
        ensures
            res@ == self@,
    {
        proof {
            self.lemma_view();
        }
        let data = self.data.as_slice();
        &data[self.offset..self.offset + self.len]
    }

    /// Gets the `i`-th element.
    pub fn point_query(&self, i: usize) -> (res: T::Set)
        requires
            self.well_formed(),
            i < self@.len(),
        ensures
            res == self@[i as int],
    {
        proof {
            self.lemma_view();
        }
        self.data[i + self.offset]
    }

    /// Replaces the `i`-th element `x` by `f(x)`.
    pub fn point_update<F: FnOnce(T::Set) -> T::Set>(&mut self, i: usize, f: F)
        requires
            old(self).well_formed(),
            i < old(self)@.len(),
            f.requires((old(self)@[i as int],)),
        ensures
            final(self).well_formed(),
            f.ensures((old(self)@[i as int],), final(self)@[i as int]),
            final(self)@ == old(self)@.update(i as int, final(self)@[i as int]),
    {
        proof {
            self.lemma_view();
        }
        let ghost old_data = self.data@;
        let mut p = i + self.offset;
        let v = f(self.data[p]);
        self.data[p] = v;
        let ghost leaf = p as int;
        let ghost half = self.data@.len() / 2;
        while p > 1
            invariant
                self.offset == old(self).offset,
                self.len == old(self).len,
                self.height == old(self).height,
                self.data@.len() == old_data.len(),
                old(self).well_formed(),
                old_data == old(self).data@,
                half == self.data@.len() / 2,
                leaf == i + self.offset,
                i < self.len,
                1 <= p <= leaf,
                p == leaf || p < half,
                self.data@[leaf] == v,
                forall|x: int|
                    0 <= x < self.data@.len() && x != leaf && !(1 <= x < half) ==> #[trigger] self.data@[x]
                        == old_data[x],
                forall|x: int|
                    1 <= x < half && !is_strict_ancestor(x, p as int) ==> #[trigger] self.data@[x]
                        == T::spec_op(self.data@[2 * x], self.data@[2 * x + 1]),
            decreases p,
        {
            let ghost q = p as int;
            p = p / 2;
            proof {
                let k = self.height@;
                if k > 0 {
                    assert(exp2(k) == 2 * exp2((k - 1) as nat));
                }
                if self.data@.len() % 2 == 1 {
                    assert(k == 0);
                    assert(self.offset == 1);
                }
                assert(half <= self.offset);
                assert(q < self.data@.len());
                assert(self.data@.len() % 2 == 0);
                assert(p == q / 2);
                assert(p < half);
            }
            let w = T::op(self.data[2 * p], self.data[2 * p + 1]);
            self.data[p] = w;
            proof {
                assert forall|x: int|
                    1 <= x < half && !is_strict_ancestor(x, p as int) implies #[trigger] self.data@[x]
                        == T::spec_op(self.data@[2 * x], self.data@[2 * x + 1]) by {
                    assert(is_strict_ancestor(x, q) == (x == q / 2 || is_strict_ancestor(x, q / 2)));
                }
            }
        }
        proof {
            assert forall|x: int|
                1 <= x < half implies #[trigger] self.data@[x] == T::spec_op(
                    self.data@[2 * x],
                    self.data@[2 * x + 1],
                ) by {
                assert(!is_strict_ancestor(x, p as int));
            }
            assert(self@ =~= old(self)@.update(i as int, v));
        }
    }

    /// Folds the elements in `range` with `T::op`; an empty or reversed range
    /// gives the identity.
    pub fn range_query(&self, range: Range<usize>) -> (res: T::Set)
        requires
            self.well_formed(),
            range.start + next_power_of_two(self@.len()) <= usize::MAX,
            range.end + next_power_of_two(self@.len()) <= usize::MAX,
            range.start < range.end ==> range.end <= self@.len(),
        ensures
            res == if range.start < range.end {
                fold::<T>(self@.subrange(range.start as int, range.end as int))
            } else {
                T::spec_id()
            },
    {
        proof {
            self.lemma_view();
        }
        let l0 = range.start + self.offset;
        let r0 = range.end + self.offset;
        if l0 >= r0 {
            return T::id();
        }
        let ghost k = self.height@;
        let ghost off = self.offset as nat;
        let ghost a = range.start as int;
        let ghost b = range.end as int;
        let ghost lv = leaves::<T>(self.data@, off, self.len as nat);
        let (mut l, gl) = strip_trailing_zeros(l0);
        let (mut r, gr) = strip_trailing_zeros(r0);
        let ghost mut sl: nat = gl@;
        let ghost mut sr: nat = gr@;
        let mut acc_l = T::id();
        let mut acc_r = T::id();
        proof {
            assert(lv.subrange(a, a) =~= Seq::<T::Set>::empty());
            assert(lv.subrange(b, b) =~= Seq::<T::Set>::empty());
        }
        loop
            invariant_except_break
                l * exp2(sl) < r * exp2(sr),
            invariant
                self.well_formed(),
                k == self.height@,
                off == self.offset,
                off == exp2(k),
                lv == leaves::<T>(self.data@, off, self.len as nat),
                a == range.start,
                b == range.end,
                0 <= a < b <= self.len,
                l >= 1,
                r >= 1,
                l % 2 == 1,
                r % 2 == 1,
                off + a <= l * exp2(sl),
                l * exp2(sl) <= r * exp2(sr),
                r * exp2(sr) <= off + b,
                acc_l == fold::<T>(lv.subrange(a, l * exp2(sl) - off)),
                acc_r == fold::<T>(lv.subrange(r * exp2(sr) - off, b)),
            ensures
                l * exp2(sl) == r * exp2(sr),
            decreases r * exp2(sr) - l * exp2(sl),
        {
            let ghost pl = l * exp2(sl);
            let ghost pr = r * exp2(sr);
            proof {
                lemma_exp2_pos(sl);
                lemma_exp2_pos(sr);
                lemma_walk_step(k, l as nat, sl, r as nat, sr);
            }
            if l >= r {
                proof {
                    lemma_node_end(k, l as nat, sl);
                    lemma_heap_node::<T>(self.data@, k, self.len as nat, l as nat, sl);
                    lemma_fold_split::<T>(lv, a, pl - off, pl + exp2(sl) - off);
                    assert((l + 1) * exp2(sl) == l * exp2(sl) + exp2(sl)) by (nonlinear_arith);
                }
                acc_l = T::op(acc_l, self.data[l]);
                l = l + 1;
                let (l2, g) = strip_trailing_zeros(l);
                proof {
                    lemma_exp2_add(g@, sl);
                    lemma_mul_assoc(l2 as int, exp2(g@) as int, exp2(sl) as int);
                    assert(l2 * exp2(g@ + sl) == pl + exp2(sl));
                    sl = g@ + sl;
                }
                l = l2;
            } else {
                proof {
                    assert(((r - 1) as nat) * exp2(sr) == r * exp2(sr) - exp2(sr))
                        by (nonlinear_arith)
                        requires
                            r >= 2,
                    ;
                    lemma_node_end(k, (r - 1) as nat, sr);
                    lemma_heap_node::<T>(self.data@, k, self.len as nat, (r - 1) as nat, sr);
                    lemma_fold_split::<T>(lv, pr - exp2(sr) - off, pr - off, b);
                }
                r = r - 1;
                acc_r = T::op(self.data[r], acc_r);
                let (r2, g) = strip_trailing_zeros(r);
                proof {
                    lemma_exp2_add(g@, sr);
                    lemma_mul_assoc(r2 as int, exp2(g@) as int, exp2(sr) as int);
                    assert(r2 * exp2(g@ + sr) == pr - exp2(sr));
                    sr = g@ + sr;
                }
                r = r2;
            }
            if l == r {
                proof {
                    lemma_walk_end(k, l as nat, sl, r as nat, sr);
                }
                break;
            }
            proof {
                if l * exp2(sl) == r * exp2(sr) {
                    lemma_odd_unique(l as nat, sl, r as nat, sr);
                }
            }
        }
        proof {
            lemma_fold_split::<T>(lv, a, l * exp2(sl) - off, b);
            assert(lv.subrange(a, b) =~= self@.subrange(a, b));
        }
        T::op(acc_l, acc_r)
    }

    /// Finds the first end `p` from `l` on whose fold `l..p` fails `pred`, in
    /// the manner of `slice::partition_point`, or the end of the elements.
    ///
    /// Returns `(v, p)` with `v` the fold of `l..p`; `pred` rejected `v` (when
    /// `p` is not the end) and accepted the fold of `l..p - 1` (when `p > l`;
    /// at the end, it may have accepted `v` instead).
    /// When the folds are partitioned by `pred`, `p` is the partition point.
    #[verifier::spinoff_prover]
    pub fn right_partition<P: Fn(T::Set) -> bool>(&self, l: usize, pred: P) -> (res: (
        T::Set,
        usize,
    ))
        requires
            self.well_formed(),
            l < self@.len(),
            forall|x: T::Set| #[trigger] pred.requires((x,)),
        ensures
            l <= res.1 <= self@.len(),
            res.0 == fold::<T>(self@.subrange(l as int, res.1 as int)),
            res.1 < self@.len() ==> pred.ensures((res.0,), false),
            res.1 > l ==> pred.ensures(
                (fold::<T>(self@.subrange(l as int, res.1 - 1)),),
                true,
            ) || (res.1 == self@.len() && pred.ensures((res.0,), true)),
    {
        proof {
            self.lemma_view();
        }
        let ghost k = self.height@;
        let ghost off = self.offset as int;
        let ghost a = l as int;
        let ghost len = self.len as int;
        let ghost lv = leaves::<T>(self.data@, self.offset as nat, self.len as nat);
        let (mut x, g) = strip_trailing_zeros(l + self.offset);
        let ghost mut h: nat = g@;
        let mut acc = T::id();
        proof {
            lemma_exp2_pos(h);
            lemma_mul_mono(1, exp2(h) as int, x as int);
            assert(lv.subrange(a, a) =~= Seq::<T::Set>::empty());
        }
        // step 1: go up while whole blocks are accepted
        loop
            invariant
                self.well_formed(),
                k == self.height@,
                off == self.offset,
                off == exp2(k),
                len == self.len,
                lv == leaves::<T>(self.data@, self.offset as nat, self.len as nat),
                0 <= a < len,
                a == l,
                forall|v: T::Set| #[trigger] pred.requires((v,)),
                x % 2 == 1,
                is_node(k, x as int, h),
                x < self.data@.len(),
                off + a <= x * exp2(h),
                acc == fold::<T>(lv.subrange(a, x * exp2(h) - off)),
                x * exp2(h) > off + a ==> pred.ensures((acc,), true),
            ensures
                is_node(k, x as int, h),
                x < self.data@.len(),
                off + a <= x * exp2(h),
                acc == fold::<T>(lv.subrange(a, x * exp2(h) - off)),
                x * exp2(h) > off + a ==> pred.ensures((acc,), true),
                pred.ensures((T::spec_op(acc, self.data@[x as int]),), false),
            decreases 2 * off - x * exp2(h),
        {
            let v = T::op(acc, self.data[x]);
            if !pred(v) {
                break;
            }
            let ghost pos = x * exp2(h);
            proof {
                lemma_exp2_pos(h);
                lemma_node_end_bound(k, x as int, h);
                lemma_heap_node::<T>(self.data@, k, self.len as nat, x as nat, h);
                assert((x + 1) * exp2(h) == pos + exp2(h)) by (nonlinear_arith)
                    requires
                        pos == x * exp2(h),
                ;
                lemma_fold_split::<T>(lv, a, pos - off, pos + exp2(h) - off);
            }
            acc = v;
            let (x2, g2) = strip_trailing_zeros(x + 1);
            let ghost h2: nat = g2@ + h;
            proof {
                lemma_exp2_add(g2@, h);
                lemma_mul_assoc(x2 as int, exp2(g2@) as int, exp2(h) as int);
                assert(x2 * exp2(h2) == pos + exp2(h));
            }
            if x2 == 1 {
                proof {
                    assert(exp2(h2) == pos + exp2(h));
                    if h2 <= k {
                        lemma_exp2_le(h2, k);
                    }
                    lemma_exp2_le(k + 1, h2);
                    assert(exp2(k + 1) == 2 * exp2(k));
                    lemma_fold_padding::<T>(self.data@, self.offset as nat, self.len as nat, a, off);
                    self.lemma_view();
                    assert(lv.subrange(a, len) =~= self@.subrange(a, len));
                }
                return (acc, self.len);
            }
            proof {
                // the next block starts inside the tree
                if x2 * exp2(h2) == 2 * off {
                    assert(exp2(k + 1) == 2 * exp2(k));
                    assert(1 * exp2(k + 1) == 2 * off);
                    lemma_odd_unique(x2 as nat, h2, 1, k + 1);
                }
                if g2@ == 0 {
                    assert(exp2(0) == 1);
                    assert(x2 * 1 == x + 1);
                }
                assert(h2 >= 1);
                assert(exp2(h2) == 2 * exp2((h2 - 1) as nat));
                lemma_exp2_pos((h2 - 1) as nat);
                lemma_mul_mono(1, exp2((h2 - 1) as nat) as int, x2 as int);
                assert(x2 * exp2(h2) == 2 * (x2 * exp2((h2 - 1) as nat))) by (nonlinear_arith)
                    requires
                        exp2(h2) == 2 * exp2((h2 - 1) as nat),
                ;
                h = h2;
            }
            x = x2;
        }
        // step 2: go down into the rejected block
        let half = self.data.len() / 2;
        proof {
            assert(half <= off) by {
                if k > 0 {
                    assert(exp2(k) == 2 * exp2((k - 1) as nat));
                }
            }
        }
        while x < half
            invariant
                self.well_formed(),
                k == self.height@,
                off == self.offset,
                off == exp2(k),
                len == self.len,
                lv == leaves::<T>(self.data@, self.offset as nat, self.len as nat),
                0 <= a < len,
                a == l,
                half == self.data@.len() / 2,
                half <= off,
                forall|v: T::Set| #[trigger] pred.requires((v,)),
                is_node(k, x as int, h),
                x < self.data@.len(),
                off + a <= x * exp2(h),
                acc == fold::<T>(lv.subrange(a, x * exp2(h) - off)),
                x * exp2(h) > off + a ==> pred.ensures((acc,), true),
                pred.ensures((T::spec_op(acc, self.data@[x as int]),), false),
            decreases self.data@.len() - x,
        {
            let ghost p = x as int;
            let ghost pos = x * exp2(h);
            let ghost h1: nat = (h - 1) as nat;
            proof {
                lemma_node_end_bound(k, p, h);
                if h == 0 {
                    assert(exp2(0) == 1);
                    assert(x * 1 == x);
                }
                assert(exp2(h) == 2 * exp2(h1));
                lemma_exp2_pos(h1);
                assert(pos == (2 * p) * exp2(h1)) by (nonlinear_arith)
                    requires
                        pos == p * exp2(h),
                        exp2(h) == 2 * exp2(h1),
                ;
                assert((2 * p + 1) * exp2(h1) == pos + exp2(h1)) by (nonlinear_arith)
                    requires
                        pos == (2 * p) * exp2(h1),
                ;
                assert((p + 1) * exp2(h) == pos + 2 * exp2(h1)) by (nonlinear_arith)
                    requires
                        pos == p * exp2(h),
                        exp2(h) == 2 * exp2(h1),
                ;
                assert(is_node(k, 2 * p, h1));
                assert(is_node(k, 2 * p + 1, h1));
                assert(self.data@[p] == T::spec_op(self.data@[2 * p], self.data@[2 * p + 1]));
            }
            x = 2 * x;
            let v = T::op(acc, self.data[x]);
            if pred(v) {
                proof {
                    lemma_heap_node::<T>(self.data@, k, self.len as nat, x as nat, h1);
                    lemma_fold_split::<T>(lv, a, pos - off, pos + exp2(h1) - off);
                    T::lemma_associative(acc, self.data@[2 * p], self.data@[2 * p + 1]);
                }
                acc = v;
                x = x + 1;
            }
            proof {
                h = h1;
            }
        }
        let ghost pos = x * exp2(h);
        proof {
            lemma_node_end_bound(k, x as int, h);
            lemma_exp2_pos(h);
        }
        let p = if x < self.offset {
            self.len
        } else if x - self.offset < self.len {
            x - self.offset
        } else {
            self.len
        };
        proof {
            if x < off {
                // a padding node: its block starts past the elements
                assert(k > 0);
                assert(exp2(k) == 2 * exp2((k - 1) as nat));
                if h == 0 {
                    assert(exp2(0) == 1);
                    assert(x * 1 == x);
                }
                assert(exp2(h) == 2 * exp2((h - 1) as nat));
                lemma_exp2_pos((h - 1) as nat);
                lemma_mul_mono(1, exp2((h - 1) as nat) as int, x as int);
                assert(pos == 2 * (x * exp2((h - 1) as nat))) by (nonlinear_arith)
                    requires
                        pos == x * exp2(h),
                        exp2(h) == 2 * exp2((h - 1) as nat),
                ;
                lemma_fold_padding::<T>(self.data@, self.offset as nat, self.len as nat, a, pos - off);
                assert(lv.subrange(a, len) =~= self@.subrange(a, len));
            } else {
                if h > 0 {
                    assert(exp2(h) == 2 * exp2((h - 1) as nat));
                    lemma_exp2_pos((h - 1) as nat);
                    assert(x * exp2(h) >= 2 * x) by (nonlinear_arith)
                        requires
                            exp2(h) == 2 * exp2((h - 1) as nat),
                            exp2((h - 1) as nat) >= 1,
                    ;
                }
                assert(h == 0);
                assert(exp2(0) == 1);
                assert(pos == x) by (nonlinear_arith)
                    requires
                        pos == x * exp2(h),
                        exp2(h) == 1,
                ;
                if x - off < len {
                    assert(lv.subrange(a, p as int) =~= self@.subrange(a, p as int));
                    let s1 = lv.subrange(a, p + 1);
                    assert(s1.drop_last() =~= lv.subrange(a, p as int));
                    assert(s1 =~= self@.subrange(a, p + 1));
                } else {
                    lemma_fold_padding::<T>(self.data@, self.offset as nat, self.len as nat, a, pos - off);
                    assert(lv.subrange(a, len) =~= self@.subrange(a, len));
                }
            }
        }
        if p == self.len {
            return (acc, p);
        }
        // the fold of `l..p + 1` was rejected
        let rejected = T::op(acc, self.data[x]);
        if p > l {
            (rejected, p + 1)
        } else if pred(T::id()) {
            proof {
                assert(self@.subrange(a, a) =~= Seq::<T::Set>::empty());
            }
            (rejected, p + 1)
        } else {
            proof {
                assert(self@.subrange(a, a) =~= Seq::<T::Set>::empty());
            }
            (T::id(), p)
        }
    }

    /// Walks left from `r` while the folds `p..r` satisfy `pred`, in the
    /// manner of `slice::partition_point`.
    ///
    /// Returns `(v, p)` with `v` the fold of `p..r`; `pred` accepted `v` (when
    /// `p < r`) and rejected the fold of `p - 1..r` (when `p > 0`).
    /// When the folds are partitioned by `pred`, `p` is the partition point.
    #[verifier::spinoff_prover]
    pub fn left_partition<P: Fn(T::Set) -> bool>(&self, r: usize, pred: P) -> (res: (
        T::Set,
        usize,
    ))
        requires
            self.well_formed(),
            r <= self@.len(),
            forall|x: T::Set| #[trigger] pred.requires((x,)),
        ensures
            res.1 <= r,
            res.0 == fold::<T>(self@.subrange(res.1 as int, r as int)),
            res.1 < r ==> pred.ensures((res.0,), true),
            res.1 > 0 ==> pred.ensures((fold::<T>(self@.subrange(res.1 - 1, r as int)),), false),
    {
        proof {
            self.lemma_view();
        }
        if r == 0 {
            proof {
                assert(self@.subrange(0, 0) =~= Seq::<T::Set>::empty());
            }
            return (T::id(), 0);
        }
        let ghost k = self.height@;
        let ghost off = self.offset as int;
        let ghost b = r as int;
        let ghost len = self.len as int;
        let ghost lv = leaves::<T>(self.data@, self.offset as nat, self.len as nat);
        let (q, g) = strip_trailing_zeros(r + self.offset);
        let ghost mut h: nat = g@;
        proof {
            lemma_exp2_pos(h);
            assert(off < off + b <= 2 * off);
        }
        let mut x: usize = if q == 1 {
            proof {
                assert(exp2(h) == off + b);
                if h <= k {
                    lemma_exp2_le(h, k);
                }
                lemma_exp2_le(k + 1, h);
                assert(exp2(k + 1) == 2 * exp2(k));
                h = k;
            }
            1
        } else {
            proof {
                lemma_right_node(k, q as int, h);
                lemma_mul_mono(1, exp2(h) as int, q - 1);
                assert((q - 1) * exp2(h) + exp2(h) == q * exp2(h)) by (nonlinear_arith);
            }
            q - 1
        };
        let mut acc = T::id();
        proof {
            assert((x + 1) * exp2(h) == off + b) by (nonlinear_arith)
                requires
                    q == 1 ==> x == 1 && exp2(h) * 2 == off + b,
                    q != 1 ==> x == q - 1 && q * exp2(h) == off + b,
            ;
            assert(is_node(k, x as int, h));
            assert(lv.subrange(b, b) =~= Seq::<T::Set>::empty());
        }
        // step 1: go up while whole blocks are accepted
        loop
            invariant
                self.well_formed(),
                k == self.height@,
                off == self.offset,
                off == exp2(k),
                len == self.len,
                lv == leaves::<T>(self.data@, self.offset as nat, self.len as nat),
                0 < b <= len,
                b == r,
                forall|v: T::Set| #[trigger] pred.requires((v,)),
                is_node(k, x as int, h),
                x < self.data@.len(),
                (x + 1) * exp2(h) <= off + b,
                acc == fold::<T>(lv.subrange((x + 1) * exp2(h) - off, b)),
                (x + 1) * exp2(h) < off + b ==> pred.ensures((acc,), true),
            ensures
                is_node(k, x as int, h),
                x < self.data@.len(),
                (x + 1) * exp2(h) <= off + b,
                acc == fold::<T>(lv.subrange((x + 1) * exp2(h) - off, b)),
                (x + 1) * exp2(h) < off + b ==> pred.ensures((acc,), true),
                pred.ensures((T::spec_op(self.data@[x as int], acc),), false),
            decreases (x + 1) * exp2(h),
        {
            let v = T::op(self.data[x], acc);
            if !pred(v) {
                break;
            }
            let ghost pos = x * exp2(h);
            proof {
                lemma_exp2_pos(h);
                lemma_node_end_bound(k, x as int, h);
                lemma_heap_node::<T>(self.data@, k, self.len as nat, x as nat, h);
                assert((x + 1) * exp2(h) == pos + exp2(h)) by (nonlinear_arith)
                    requires
                        pos == x * exp2(h),
                ;
                lemma_fold_split::<T>(lv, pos - off, pos + exp2(h) - off, b);
            }
            acc = v;
            let (q2, g2) = strip_trailing_zeros(x);
            let ghost h2: nat = g2@ + h;
            proof {
                lemma_exp2_add(g2@, h);
                lemma_mul_assoc(q2 as int, exp2(g2@) as int, exp2(h) as int);
                assert(q2 * exp2(h2) == pos);
            }
            if q2 == 1 {
                proof {
                    assert(exp2(h2) == pos);
                    lemma_exp2_between(k, h2);
                    self.lemma_view();
                    assert(lv.subrange(0, b) =~= self@.subrange(0, b));
                }
                return (acc, 0);
            }
            proof {
                if pos == off {
                    assert(1 * exp2(k) == off);
                    lemma_odd_unique(q2 as nat, h2, 1, k);
                }
                lemma_right_node(k, q2 as int, h2);
                lemma_exp2_pos(h2);
                lemma_mul_mono(1, exp2(h2) as int, q2 - 1);
                assert((q2 - 1) * exp2(h2) + exp2(h2) == q2 * exp2(h2)) by (nonlinear_arith);
                assert((q2 - 1 + 1) * exp2(h2) == pos);
                h = h2;
            }
            x = q2 - 1;
        }
        // step 2: go down into the rejected block
        let half = self.data.len() / 2;
        proof {
            assert(half <= off) by {
                if k > 0 {
                    assert(exp2(k) == 2 * exp2((k - 1) as nat));
                }
            }
        }
        while x < half
            invariant
                self.well_formed(),
                k == self.height@,
                off == self.offset,
                off == exp2(k),
                len == self.len,
                lv == leaves::<T>(self.data@, self.offset as nat, self.len as nat),
                0 < b <= len,
                b == r,
                half == self.data@.len() / 2,
                half <= off,
                forall|v: T::Set| #[trigger] pred.requires((v,)),
                is_node(k, x as int, h),
                x < self.data@.len(),
                (x + 1) * exp2(h) <= off + b,
                acc == fold::<T>(lv.subrange((x + 1) * exp2(h) - off, b)),
                (x + 1) * exp2(h) < off + b ==> pred.ensures((acc,), true),
                pred.ensures((T::spec_op(self.data@[x as int], acc),), false),
            decreases self.data@.len() - x,
        {
            let ghost p = x as int;
            let ghost pos = x * exp2(h);
            let ghost h1: nat = (h - 1) as nat;
            proof {
                lemma_node_end_bound(k, p, h);
                if h == 0 {
                    assert(exp2(0) == 1);
                    assert(x * 1 == x);
                }
                assert(exp2(h) == 2 * exp2(h1));
                lemma_exp2_pos(h1);
                assert(pos == (2 * p) * exp2(h1)) by (nonlinear_arith)
                    requires
                        pos == p * exp2(h),
                        exp2(h) == 2 * exp2(h1),
                ;
                assert((2 * p + 1) * exp2(h1) == pos + exp2(h1)) by (nonlinear_arith)
                    requires
                        pos == (2 * p) * exp2(h1),
                ;
                assert((p + 1) * exp2(h) == pos + 2 * exp2(h1)) by (nonlinear_arith)
                    requires
                        pos == p * exp2(h),
                        exp2(h) == 2 * exp2(h1),
                ;
                assert((2 * p + 1 + 1) * exp2(h1) == pos + 2 * exp2(h1)) by (nonlinear_arith)
                    requires
                        pos == (2 * p) * exp2(h1),
                ;
                assert(is_node(k, 2 * p, h1));
                assert(is_node(k, 2 * p + 1, h1));
                assert(self.data@[p] == T::spec_op(self.data@[2 * p], self.data@[2 * p + 1]));
            }
            x = 2 * x + 1;
            let v = T::op(self.data[x], acc);
            if pred(v) {
                proof {
                    lemma_heap_node::<T>(self.data@, k, self.len as nat, x as nat, h1);
                    lemma_fold_split::<T>(lv, pos + exp2(h1) - off, (p + 1) * exp2(h) - off, b);
                    T::lemma_associative(self.data@[2 * p], self.data@[2 * p + 1], acc);
                }
                acc = v;
                x = x - 1;
            }
            proof {
                h = h1;
            }
        }
        let ghost pos = x * exp2(h);
        proof {
            lemma_node_end_bound(k, x as int, h);
            lemma_exp2_pos(h);
            if x < off {
                // no padding node can end at or before `r`
                assert(k > 0);
                assert(exp2(k) == 2 * exp2((k - 1) as nat));
                if h == 0 {
                    assert(exp2(0) == 1);
                    assert(x * 1 == x);
                }
                assert(exp2(h) == 2 * exp2((h - 1) as nat));
                lemma_exp2_pos((h - 1) as nat);
                lemma_mul_mono(1, exp2((h - 1) as nat) as int, x as int);
                assert(pos == 2 * (x * exp2((h - 1) as nat))) by (nonlinear_arith)
                    requires
                        pos == x * exp2(h),
                        exp2(h) == 2 * exp2((h - 1) as nat),
                ;
                assert((x + 1) * exp2(h) == pos + exp2(h)) by (nonlinear_arith)
                    requires
                        pos == x * exp2(h),
                ;
                assert(false);
            }
            if h > 0 {
                assert(exp2(h) == 2 * exp2((h - 1) as nat));
                lemma_exp2_pos((h - 1) as nat);
                assert(x * exp2(h) >= 2 * x) by (nonlinear_arith)
                    requires
                        exp2(h) == 2 * exp2((h - 1) as nat),
                        exp2((h - 1) as nat) >= 1,
                ;
            }
            assert(h == 0);
            assert(exp2(0) == 1);
            assert((x + 1) * exp2(h) == x + 1) by (nonlinear_arith)
                requires
                    exp2(h) == 1,
            ;
        }
        let p = x + 1 - self.offset;
        proof {
            self.lemma_view();
            assert(lv.subrange(p as int, b) =~= self@.subrange(p as int, b));
            assert(lv.subrange(p - 1, b) =~= self@.subrange(p - 1, b));
            assert(lv.subrange(p - 1, p as int) =~= seq![self.data@[x as int]]);
            lemma_fold_single::<T>(self.data@[x as int]);
            lemma_fold_split::<T>(lv, p - 1, p as int, b);
        }
        (acc, p)
    }
}

} // verus!
