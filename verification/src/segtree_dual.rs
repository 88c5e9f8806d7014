//! A dual segment tree: range updates and point queries over a monoid of
//! updates, which need not be commutative.
use core::ops::Range;
use vstd::prelude::*;
use crate::traits::Monoid;
use crate::tree::{
    compute_offset, exp2, in_subtree, is_node, lemma_exp2_add, lemma_exp2_pos,
    lemma_in_subtree_block, lemma_in_subtree_ge, lemma_in_subtree_ge_neg, lemma_in_subtree_parent,
    lemma_left_ancestors,
    lemma_mul_assoc, lemma_node_end_bound, lemma_odd_unique, lemma_right_ancestors,
    lemma_right_node, lemma_subtree_contains, lemma_walk_end, lemma_walk_step,
    next_power_of_two, round_up_even, strip_trailing_zeros,
};

verus! {

/// The fold of the values on the path from node `x` up to the root, the
/// node's own value first.
pub open spec fn path<T: Monoid>(data: Seq<T::Set>, x: int) -> T::Set
    decreases x,
{
    if x <= 0 {
        T::spec_id()
    } else {
        T::spec_op(data[x], path::<T>(data, x / 2))
    }
}

/// Moves the value of node `q` down into its two children.
pub open spec fn push<T: Monoid>(data: Seq<T::Set>, q: int) -> Seq<T::Set> {
    data.update(2 * q, T::spec_op(data[2 * q], data[q])).update(
        2 * q + 1,
        T::spec_op(data[2 * q + 1], data[q]),
    ).update(q, T::spec_id())
}

/// Every proper ancestor of node `x` holds the identity.
pub open spec fn above_clear<T: Monoid>(data: Seq<T::Set>, x: int) -> bool {
    forall|q: int| q != x && #[trigger] in_subtree(q, x) ==> data[q] == T::spec_id()
}

/// Pushing a node down keeps the path of every other node.
pub proof fn lemma_push_path<T: Monoid>(data: Seq<T::Set>, q: int, x: int)
    requires
        1 <= q,
        2 * q + 1 < data.len(),
        0 <= x < data.len(),
        x != q,
    ensures
        path::<T>(push::<T>(data, q), x) == path::<T>(data, x),
    decreases x,
{
    let nd = push::<T>(data, q);
    if x > 0 {
        if x / 2 == q {
            lemma_push_path::<T>(data, q, q / 2);
            T::lemma_identity(path::<T>(data, q / 2));
            T::lemma_associative(data[x], data[q], path::<T>(data, q / 2));
            assert(nd[q] == T::spec_id());
            assert(nd[x] == T::spec_op(data[x], data[q]));
            assert(path::<T>(nd, q) == T::spec_op(nd[q], path::<T>(nd, q / 2)));
            assert(path::<T>(nd, x) == T::spec_op(nd[x], path::<T>(nd, q)));
            assert(path::<T>(data, q) == T::spec_op(data[q], path::<T>(data, q / 2)));
        } else {
            lemma_push_path::<T>(data, q, x / 2);
        }
    }
}

/// A node that holds the identity can be pushed without effect; otherwise it
/// is no proper ancestor of `x`, and neither are its children.
pub proof fn lemma_push_clear<T: Monoid>(data: Seq<T::Set>, q: int, x: int)
    requires
        1 <= q,
        2 * q + 1 < data.len(),
        0 <= x < data.len(),
        above_clear::<T>(data, x),
    ensures
        above_clear::<T>(push::<T>(data, q), x),
{
    let nd = push::<T>(data, q);
    assert forall|y: int| y != x && #[trigger] in_subtree(y, x) implies nd[y] == T::spec_id() by {
        lemma_in_subtree_ge(y, x);
        if y == 2 * q || y == 2 * q + 1 {
            lemma_in_subtree_parent(y, x);
            assert(y / 2 == q);
            if q == x {
                lemma_in_subtree_ge(y, x);
            }
            T::lemma_identity(data[y]);
        }
    }
}

/// Below a node whose proper ancestors all hold the identity, the path
/// starting at its parent folds to the identity.
pub proof fn lemma_path_clear<T: Monoid>(data: Seq<T::Set>, x: int, y: int)
    requires
        above_clear::<T>(data, x),
        y == 0 || (y != x && in_subtree(y, x)),
        y < data.len(),
    ensures
        path::<T>(data, y) == T::spec_id(),
    decreases y,
{
    if y > 0 {
        lemma_in_subtree_ge(y, x);
        if y >= 2 {
            lemma_in_subtree_parent(y, x);
        }
        lemma_path_clear::<T>(data, x, y / 2);
        T::lemma_identity(T::spec_id());
    }
}

/// The parent of `x` is `0` or a proper ancestor of `x`.
pub proof fn lemma_parent_in_subtree(x: int)
    requires
        x >= 1,
    ensures
        x / 2 == 0 || (x / 2 != x && in_subtree(x / 2, x)),
{
    if x >= 2 {
        assert(in_subtree(x / 2, x / 2));
    }
}

/// Appending `u` at a node whose ancestors fold to the identity appends `u`
/// to the path of every node below it, and changes no other path.
pub proof fn lemma_update_path<T: Monoid>(data: Seq<T::Set>, c: int, u: T::Set, x: int)
    requires
        1 <= c < data.len(),
        path::<T>(data, c / 2) == T::spec_id(),
        0 <= x < data.len(),
    ensures
        path::<T>(data.update(c, T::spec_op(data[c], u)), x) == if in_subtree(c, x) {
            T::spec_op(path::<T>(data, x), u)
        } else {
            path::<T>(data, x)
        },
    decreases x,
{
    let nd = data.update(c, T::spec_op(data[c], u));
    if x > 0 {
        if x == c {
            lemma_update_path::<T>(data, c, u, c / 2);
            if c / 2 > 0 {
                lemma_in_subtree_ge_neg(c, c / 2);
            }
            T::lemma_identity(T::spec_op(data[c], u));
            T::lemma_identity(data[c]);
        } else {
            lemma_update_path::<T>(data, c, u, x / 2);
            if in_subtree(c, x / 2) {
                T::lemma_associative(data[x], path::<T>(data, x / 2), u);
            }
        }
    }
}

/// A dual segment tree over the update monoid `T`.
#[derive(Clone)]
pub struct DualSegtree<T: Monoid> {
    data: Vec<T::Set>,
    offset: usize,
    len: usize,
    height: Ghost<nat>,
}

impl<T: Monoid> View for DualSegtree<T> {
    type V = Seq<T::Set>;

    closed spec fn view(&self) -> Seq<T::Set> {
        Seq::new(self.len as nat, |i: int| path::<T>(self.data@, self.offset + i))
    }
}

impl<T: Monoid> DualSegtree<T> where T::Set: Copy {
    /// The internal invariant.
    pub closed spec fn well_formed(&self) -> bool {
        &&& self.offset == exp2(self.height@)
        &&& self.offset == next_power_of_two(self.len as nat)
        &&& self.len <= self.offset
        &&& self.data@.len() == self.offset + round_up_even(self.len as nat)
        &&& self.data@.len() <= usize::MAX
    }

    proof fn lemma_shape(&self)
        requires
            self.well_formed(),
        ensures
            self@.len() == self.len,
            self.data@.len() % 2 == 0 || self.offset == 1,
            self.data@.len() / 2 <= self.offset,
            forall|i: int|
                0 <= i < self.len ==> #[trigger] self@[i] == path::<T>(self.data@, self.offset + i),
    {
        let k = self.height@;
        if k > 0 {
            assert(exp2(k) == 2 * exp2((k - 1) as nat));
        } else {
            assert(exp2(0) == 1);
        }
    }

    /// Every proper ancestor of a node at or left of the last element lies
    /// in the inner part of the tree, whose nodes have both children.
    proof fn lemma_inner_ancestor(&self, p: int, q: int)
        requires
            self.well_formed(),
            1 <= p < self.offset + self.len,
            q != p,
            in_subtree(q, p),
        ensures
            1 <= q,
            2 * q + 1 < self.data@.len(),
            q < self.offset,
    {
        self.lemma_shape();
        lemma_in_subtree_ge(q, p);
        lemma_in_subtree_ge(q, p / 2);
        lemma_strict_ancestor_le_half(q, p);
    }

    /// A well-formed tree fits in memory: its offset plus its elements,
    /// rounded up to an even count, do not overflow `usize`. This bounds the
    /// ranges that the range operations accept.
    pub proof fn lemma_size_bound(&self)
        requires
            self.well_formed(),
        ensures
            next_power_of_two(self@.len()) + round_up_even(self@.len()) <= usize::MAX,
            next_power_of_two(self@.len()) + self@.len() <= usize::MAX,
    {
        self.lemma_shape();
    }

    /// Creates a tree of `len` identity elements. `tree_fits(len)` tells
    /// whether `len` is small enough.
    pub fn new(len: usize) -> (res: Self)
        requires
            next_power_of_two(len as nat) + round_up_even(len as nat) <= usize::MAX,
        ensures
            res.well_formed(),
            res@ == Seq::new(len as nat, |i: int| T::spec_id()),
    {
        let (offset, height) = compute_offset(len);
        let new_len = offset + (len + len % 2);
        let mut data: Vec<T::Set> = Vec::with_capacity(new_len);
        while data.len() < new_len
            invariant
                data.len() <= new_len,
                forall|i: int| 0 <= i < data.len() ==> data@[i] == T::spec_id(),
            decreases new_len - data.len(),
        {
            data.push(T::id());
        }
        assert(data@.len() <= usize::MAX) by {
            let n = data.len();
        }
        let res = DualSegtree { data, offset, len, height };
        proof {
            assert forall|i: int| 0 <= i < len implies #[trigger] res@[i] == T::spec_id() by {
                lemma_path_all_id::<T>(res.data@, offset + i);
            }
            assert(res@ =~= Seq::new(len as nat, |i: int| T::spec_id()));
        }
        res
    }

    /// Creates a tree holding `values`. `tree_fits(values.len())` tells
    /// whether there are few enough of them.
    pub fn from_vec(values: Vec<T::Set>) -> (res: Self)
        requires
            next_power_of_two(values@.len()) + round_up_even(values@.len()) <= usize::MAX,
        ensures
            res.well_formed(),
            res@ == values@,
    {
        let len = values.len();
        let (offset, height) = compute_offset(len);
        let new_len = offset + (len + len % 2);
        let mut data: Vec<T::Set> = Vec::with_capacity(new_len);
        while data.len() < offset
            invariant
                data.len() <= offset,
                forall|i: int| 0 <= i < data.len() ==> data@[i] == T::spec_id(),
            decreases offset - data.len(),
        {
            data.push(T::id());
        }
        let mut j: usize = 0;
        while j < len
            invariant
                j <= len,
                len == values@.len(),
                data.len() == offset + j,
                forall|i: int| 0 <= i < offset ==> data@[i] == T::spec_id(),
                forall|i: int| 0 <= i < j ==> data@[offset + i] == values@[i],
            decreases len - j,
        {
            data.push(values[j]);
            j = j + 1;
        }
        if len % 2 == 1 {
            data.push(T::id());
        }
        assert(data@.len() <= usize::MAX) by {
            let n = data.len();
        }
        let res = DualSegtree { data, offset, len, height };
        proof {
            assert forall|i: int| 0 <= i < len implies #[trigger] res@[i] == values@[i] by {
                lemma_path_all_id::<T>(res.data@, (offset + i) / 2);
                T::lemma_identity(values@[i]);
            }
            assert(res@ =~= values@);
        }
        res
    }

    /// Returns a slice of the elements, pushing every pending update down to
    /// the leaves.
    pub fn as_slice(&mut self) -> (res: &[T::Set])
        requires
            old(self).well_formed(),
        ensures
            final(self).well_formed(),
            final(self)@ == old(self)@,
            res@ == old(self)@,
    {
        proof {
            self.lemma_shape();
        }
        let half = self.data.len() / 2;
        let mut p: usize = 1;
        while p < half
            invariant
                self.well_formed(),
                self.offset == old(self).offset,
                self.len == old(self).len,
                self.height == old(self).height,
                self@ == old(self)@,
                half == self.data@.len() / 2,
                half <= self.offset,
                1 <= p,
                forall|x: int| 1 <= x < p && x < half ==> #[trigger] self.data@[x] == T::spec_id(),
            decreases half - p,
        {
            let ghost mid = self.data@;
            self.push_at(p);
            proof {
                self.lemma_shape();
                assert forall|i: int| 0 <= i < self.len implies #[trigger] path::<T>(
                    self.data@,
                    self.offset + i,
                ) == path::<T>(mid, self.offset + i) by {
                    lemma_push_path::<T>(mid, p as int, self.offset + i);
                }
                assert(self@ =~= old(self)@);
            }
            p = p + 1;
        }
        proof {
            self.lemma_shape();
            assert forall|i: int| 0 <= i < self.len implies #[trigger] self@[i] == self.data@[self.offset + i] by {
                let x = self.offset + i;
                assert(above_clear::<T>(self.data@, x)) by {
                    assert forall|q: int| q != x && #[trigger] in_subtree(q, x) implies self.data@[q] == T::spec_id() by {
                        self.lemma_inner_ancestor(x, q);
                        lemma_strict_ancestor_le_half(q, x);
                    }
                }
                lemma_parent_in_subtree(x);
                lemma_path_clear::<T>(self.data@, x, x / 2);
                T::lemma_identity(self.data@[x]);
            }
        }
        let data = self.data.as_slice();
        let res = &data[self.offset..self.offset + self.len];
        proof {
            assert(res@ =~= old(self)@);
        }
        res
    }

    /// Gets the `i`-th element.
    pub fn point_query(&mut self, i: usize) -> (res: T::Set)
        requires
            old(self).well_formed(),
            i < old(self)@.len(),
        ensures
            *final(self) == *old(self),
            res == old(self)@[i as int],
    {
        proof {
            self.lemma_shape();
        }
        let mut p = i + self.offset;
        let ghost leaf = p as int;
        let mut acc = self.data[p];
        proof {
            T::lemma_associative(acc, T::spec_id(), path::<T>(self.data@, p as int / 2));
            T::lemma_identity(acc);
        }
        while p > 1
            invariant
                self.well_formed(),
                1 <= p < self.data@.len(),
                leaf < self.data@.len(),
                path::<T>(self.data@, leaf) == T::spec_op(acc, path::<T>(self.data@, p as int / 2)),
            decreases p,
        {
            p = p / 2;
            proof {
                T::lemma_associative(acc, self.data@[p as int], path::<T>(self.data@, p as int / 2));
            }
            acc = T::op(acc, self.data[p]);
        }
        proof {
            T::lemma_identity(acc);
        }
        acc
    }

    /// Appends `update` to the `i`-th element with `T::op`.
    pub fn point_update(&mut self, i: usize, update: T::Set)
        requires
            old(self).well_formed(),
            i < old(self)@.len(),
        ensures
            final(self).well_formed(),
            final(self)@ == old(self)@.update(i as int, T::spec_op(old(self)@[i as int], update)),
    {
        proof {
            self.lemma_shape();
        }
        let p = i + self.offset;
        self.propagate_above(p);
        let ghost mid = self.data@;
        let v = T::op(self.data[p], update);
        self.data[p] = v;
        proof {
            self.lemma_shape();
            lemma_parent_in_subtree(p as int);
            lemma_path_clear::<T>(mid, p as int, p as int / 2);
            assert(self.data@ == mid.update(p as int, T::spec_op(mid[p as int], update)));
            assert forall|j: int| 0 <= j < self.len implies #[trigger] self@[j] == old(self)@.update(
                i as int,
                T::spec_op(old(self)@[i as int], update),
            )[j] by {
                lemma_update_path::<T>(mid, p as int, update, self.offset + j);
                if j != i {
                    if self.offset + j > p {
                        lemma_in_subtree_ge_neg(p as int, (self.offset + j) / 2);
                    } else {
                        lemma_in_subtree_ge_neg(p as int, self.offset + j);
                    }
                } else {
                    assert(in_subtree(p as int, p as int));
                }
            }
            assert(self@ =~= old(self)@.update(i as int, T::spec_op(old(self)@[i as int], update)));
        }
    }

    /// Appends `update` with `T::op` to every element in `range`; an empty or
    /// reversed range changes nothing.
    pub fn range_update(&mut self, range: Range<usize>, update: T::Set)
        requires
            old(self).well_formed(),
            range.start + next_power_of_two(old(self)@.len()) <= usize::MAX,
            range.end + next_power_of_two(old(self)@.len()) <= usize::MAX,
            range.start < range.end ==> range.end <= old(self)@.len(),
        ensures
            final(self).well_formed(),
            final(self)@ == Seq::new(
                old(self)@.len(),
                |j: int|
                    if range.start <= j < range.end {
                        T::spec_op(old(self)@[j], update)
                    } else {
                        old(self)@[j]
                    },
            ),
    {
        proof {
            self.lemma_shape();
        }
        let ghost orig = old(self)@;
        let ghost expected = Seq::new(
            orig.len(),
            |j: int|
                if range.start <= j < range.end {
                    T::spec_op(orig[j], update)
                } else {
                    orig[j]
                },
        );
        let l0 = range.start + self.offset;
        let r0 = range.end + self.offset;
        if l0 >= r0 {
            proof {
                assert(self@ =~= expected);
            }
            return;
        }
        let ghost k = self.height@;
        let ghost off = self.offset as int;
        let ghost a = range.start as int;
        let ghost b = range.end as int;
        let (mut l, gl) = strip_trailing_zeros(l0);
        let (mut r, gr) = strip_trailing_zeros(r0);
        let ghost mut sl: nat = gl@;
        let ghost mut sr: nat = gr@;
        proof {
            lemma_exp2_pos(sl);
            lemma_exp2_pos(sr);
            assert(l <= l * exp2(sl)) by (nonlinear_arith)
                requires
                    exp2(sl) >= 1,
            ;
            assert(r <= r * exp2(sr)) by (nonlinear_arith)
                requires
                    exp2(sr) >= 1,
            ;
        }
        self.propagate_above(l);
        self.propagate_above(r - 1);
        proof {
            self.lemma_shape();
        }
        loop
            invariant_except_break
                l * exp2(sl) < r * exp2(sr),
                above_clear::<T>(self.data@, l as int),
                r >= 2 ==> above_clear::<T>(self.data@, r - 1),
            invariant
                self.well_formed(),
                self.height@ == k,
                self.offset == off,
                self.len == orig.len(),
                off == exp2(k),
                a == range.start,
                b == range.end,
                0 <= a < b <= self.len,
                l >= 1,
                r >= 1,
                l % 2 == 1,
                r % 2 == 1,
                off + a <= l * exp2(sl),
                l * exp2(sl) <= r * exp2(sr),
                r * exp2(sr) <= off + b,
                forall|j: int|
                    0 <= j < self.len ==> #[trigger] path::<T>(self.data@, off + j) == if (a <= j
                        && off + j < l * exp2(sl)) || (r * exp2(sr) <= off + j && j < b) {
                        T::spec_op(orig[j], update)
                    } else {
                        orig[j]
                    },
            ensures
                l * exp2(sl) == r * exp2(sr),
            decreases r * exp2(sr) - l * exp2(sl),
        {
            let ghost pl = l * exp2(sl);
            let ghost pr = r * exp2(sr);
            let ghost mid = self.data@;
            proof {
                lemma_exp2_pos(sl);
                lemma_exp2_pos(sr);
                lemma_walk_step(k, l as nat, sl, r as nat, sr);
                lemma_node_end_bound(k, l as int, sl);
                assert(r <= r * exp2(sr)) by (nonlinear_arith)
                    requires
                        exp2(sr) >= 1,
                ;
                if r >= 2 {
                    lemma_right_node(k, r as int, sr);
                }
            }
            if l >= r {
                let v = T::op(self.data[l], update);
                self.data[l] = v;
                l = l + 1;
                let (l2, g) = strip_trailing_zeros(l);
                let ghost sl2 = (g@ + sl) as nat;
                proof {
                    let lo = (l - 1) as int;
                    lemma_exp2_add(g@, sl);
                    lemma_mul_assoc(l2 as int, exp2(g@) as int, exp2(sl) as int);
                    assert((lo + 1) * exp2(sl) == pl + exp2(sl)) by (nonlinear_arith)
                        requires
                            pl == lo * exp2(sl),
                    ;
                    assert(l2 * exp2(g@) == lo + 1);
                    assert(exp2(sl2) == exp2(g@) * exp2(sl));
                    assert(l2 * exp2(sl2) == pl + exp2(sl));
                    lemma_parent_in_subtree(lo);
                    lemma_path_clear::<T>(mid, lo, lo / 2);
                    assert(self.data@ == mid.update(lo, T::spec_op(mid[lo], update)));
                    assert forall|j: int| 0 <= j < self.len implies #[trigger] path::<T>(self.data@, off + j)
                        == if (a <= j && off + j < l2 * exp2(sl2)) || (r * exp2(sr) <= off + j && j < b) {
                        T::spec_op(orig[j], update)
                    } else {
                        orig[j]
                    } by {
                        lemma_update_path::<T>(mid, lo, update, off + j);
                        assert(is_node(k, off + j, 0)) by {
                            assert(exp2(0) == 1);
                        }
                        lemma_in_subtree_block(k, lo, sl, off + j, 0);
                        assert(exp2(0) == 1);
                        assert((sl - 0) as nat == sl);
                    }
                    if l2 * exp2(sl2) < pr {
                        assert(is_node(k, l2 as int, sl2));
                        assert forall|q: int| q != l2 && #[trigger] in_subtree(q, l2 as int) implies self.data@[q]
                            == T::spec_id() by {
                            assert(is_node(k, lo, sl));
                            lemma_left_ancestors(k, lo, sl, l2 as int, sl2, q);
                            lemma_in_subtree_ge(q, lo);
                        }
                        if r >= 2 {
                            assert forall|q: int| q != r - 1 && #[trigger] in_subtree(q, r - 1) implies self.data@[q]
                                == T::spec_id() by {
                                lemma_in_subtree_ge(q, r - 1);
                                if q == lo {
                                    let hq = lemma_subtree_contains(k, lo, r - 1, sr);
                                    crate::tree::lemma_node_height_unique(k, lo, sl, hq);
                                    assert((r - 1 + 1) * exp2(sr) == pr);
                                }
                            }
                        }
                    }
                    sl = sl2;
                }
                l = l2;
            } else {
                let v = T::op(self.data[r - 1], update);
                self.data[r - 1] = v;
                r = r - 1;
                let (r2, g) = strip_trailing_zeros(r);
                let ghost sr2 = (g@ + sr) as nat;
                proof {
                    let c = r as int;
                    lemma_exp2_add(g@, sr);
                    lemma_mul_assoc(r2 as int, exp2(g@) as int, exp2(sr) as int);
                    assert(c * exp2(sr) == pr - exp2(sr)) by (nonlinear_arith)
                        requires
                            pr == (c + 1) * exp2(sr),
                    ;
                    assert(r2 * exp2(g@) == c);
                    assert(exp2(sr2) == exp2(g@) * exp2(sr));
                    assert(r2 * exp2(sr2) == pr - exp2(sr));
                    assert((c + 1) * exp2(sr) == pr);
                    lemma_parent_in_subtree(c);
                    lemma_path_clear::<T>(mid, c, c / 2);
                    assert(self.data@ == mid.update(c, T::spec_op(mid[c], update)));
                    assert forall|j: int| 0 <= j < self.len implies #[trigger] path::<T>(self.data@, off + j)
                        == if (a <= j && off + j < pl) || (r2 * exp2(sr2) <= off + j && j < b) {
                        T::spec_op(orig[j], update)
                    } else {
                        orig[j]
                    } by {
                        lemma_update_path::<T>(mid, c, update, off + j);
                        assert(is_node(k, off + j, 0)) by {
                            assert(exp2(0) == 1);
                        }
                        lemma_in_subtree_block(k, c, sr, off + j, 0);
                        assert(exp2(0) == 1);
                        assert((sr - 0) as nat == sr);
                    }
                    if pl < r2 * exp2(sr2) {
                        assert forall|q: int| q != l && #[trigger] in_subtree(q, l as int) implies self.data@[q]
                            == T::spec_id() by {
                            lemma_in_subtree_ge(q, l as int);
                            if q == c {
                                let hq = lemma_subtree_contains(k, c, l as int, sl);
                                crate::tree::lemma_node_height_unique(k, c, sr, hq);
                            }
                        }
                        if r2 >= 2 {
                            lemma_right_node(k, r2 as int, sr2);
                            assert forall|q: int| q != r2 - 1 && #[trigger] in_subtree(q, r2 - 1) implies self.data@[q]
                                == T::spec_id() by {
                                lemma_right_ancestors(k, c + 1, sr, r2 as int, sr2, q);
                                lemma_in_subtree_ge(q, c);
                            }
                        }
                    }
                    sr = sr2;
                }
                r = r2;
            }
            if l == r {
                proof {
                    lemma_walk_end(k, l as nat, sl, r as nat, sr);
                }
                break;
            }
            proof {
                if l * exp2(sl) == r * exp2(sr) {
                    lemma_odd_unique(l as nat, sl, r as nat, sr);
                }
            }
        }
        proof {
            assert(self@ =~= expected);
        }
    }

    /// Moves the value of node `q` down into its children.
    fn push_at(&mut self, q: usize)
        requires
            1 <= q,
            2 * q + 1 < old(self).data@.len(),
            old(self).data@.len() <= usize::MAX,
        ensures
            final(self).data@ == push::<T>(old(self).data@, q as int),
            final(self).offset == old(self).offset,
            final(self).len == old(self).len,
            final(self).height == old(self).height,
    {
        let v = self.data[q];
        let a = T::op(self.data[2 * q], v);
        self.data[2 * q] = a;
        let b = T::op(self.data[2 * q + 1], v);
        self.data[2 * q + 1] = b;
        self.data[q] = T::id();
        proof {
            assert(self.data@ =~= push::<T>(old(self).data@, q as int));
        }
    }

    /// Pushes the values of all proper ancestors of `p` down, from the root.
    fn propagate_above(&mut self, p: usize)
        requires
            old(self).well_formed(),
            p < old(self).offset + old(self).len,
        ensures
            final(self).well_formed(),
            final(self).offset == old(self).offset,
            final(self).len == old(self).len,
            final(self).height == old(self).height,
            final(self)@ == old(self)@,
            above_clear::<T>(final(self).data@, p as int),
            forall|x: int|
                0 <= x < old(self).data@.len() && above_clear::<T>(old(self).data@, x)
                    ==> #[trigger] above_clear::<T>(final(self).data@, x),
        decreases p,
    {
        if p > 1 {
            let q = p / 2;
            self.propagate_above(q);
            proof {
                lemma_parent_in_subtree(p as int);
                self.lemma_inner_ancestor(p as int, q as int);
            }
            let ghost mid = self.data@;
            self.push_at(q);
            proof {
                self.lemma_shape();
                assert forall|i: int| 0 <= i < self.len implies #[trigger] path::<T>(
                    self.data@,
                    self.offset + i,
                ) == path::<T>(mid, self.offset + i) by {
                    lemma_push_path::<T>(mid, q as int, self.offset + i);
                }
                assert(self@ =~= old(self)@);
                assert forall|x: int|
                    0 <= x < old(self).data@.len() && above_clear::<T>(old(self).data@, x)
                        implies #[trigger] above_clear::<T>(self.data@, x) by {
                    lemma_push_clear::<T>(mid, q as int, x);
                }
                lemma_push_clear::<T>(mid, q as int, q as int);
                assert forall|y: int| y != p && #[trigger] in_subtree(y, p as int) implies self.data@[y]
                    == T::spec_id() by {
                    if y != q {
                        assert(in_subtree(y, q as int));
                    }
                }
            }
        } else {
            proof {
                assert forall|y: int| y != p && #[trigger] in_subtree(y, p as int) implies self.data@[y]
                    == T::spec_id() by {
                    lemma_in_subtree_ge(y, p as int);
                    if p == 1 {
                        assert(!in_subtree(y, 0));
                    }
                }
            }
        }
    }
}

/// A proper ancestor of a node lies at most at half its index.
pub proof fn lemma_strict_ancestor_le_half(q: int, p: int)
    requires
        q != p,
        in_subtree(q, p),
    ensures
        q <= p / 2,
        in_subtree(q, p / 2),
{
    lemma_in_subtree_ge(q, p);
    if p / 2 != q {
        lemma_in_subtree_ge(q, p / 2);
    }
}

/// A tree whose values are all the identity has identity paths.
pub proof fn lemma_path_all_id<T: Monoid>(data: Seq<T::Set>, x: int)
    requires
        x < data.len(),
        forall|i: int| 0 <= i < x ==> data[i] == T::spec_id(),
    ensures
        path::<T>(data, x / 2) == T::spec_id(),
        data[x] == T::spec_id() ==> path::<T>(data, x) == T::spec_id(),
    decreases x,
{
    T::lemma_identity(T::spec_id());
    if x > 0 {
        lemma_path_all_id::<T>(data, x / 2);
    }
}

} // verus!
