//! A lazy segment tree: range updates and range folds, where a monoid of
//! updates acts on the monoid of values.
use core::ops::Range;
use vstd::prelude::*;
use crate::segtree_dual::{above_clear, lemma_parent_in_subtree, lemma_strict_ancestor_le_half};
use crate::traits::{fold, lemma_fold_concat, lemma_fold_single, Monoid, MonoidAction};
use crate::tree::{
    compute_offset, exp2, in_subtree, is_node, lemma_exp2_add, lemma_exp2_le, lemma_exp2_pos,
    lemma_in_subtree_block, lemma_in_subtree_ge, lemma_in_subtree_ge_neg, lemma_in_subtree_parent,
    lemma_left_ancestors,
    lemma_mul_assoc, lemma_mul_mono, lemma_node_end_bound, lemma_node_height_unique, lemma_odd_unique,
    lemma_parent_node, lemma_right_ancestors, lemma_right_node, lemma_subtree_contains,
    lemma_sibling_ancestors, lemma_walk_end, lemma_walk_step, next_power_of_two, round_up_even,
    split_pow2, strip_trailing_zeros,
};

verus! {

/// The closure `f` can be called on every update and value, and computes the
/// action of `U` on `Q`: what it returns for `u` and `x` is
/// `U::spec_act(u, x)`.
pub open spec fn implements_action<U: MonoidAction<Q>, Q: Monoid, A: Fn(U::Set, Q::Set) -> Q::Set>(
    f: A,
) -> bool {
    &&& forall|u: U::Set, x: Q::Set| #[trigger] call_requires(f, (u, x))
    &&& forall|u: U::Set, x: Q::Set, r: Q::Set|
        #[trigger] call_ensures(f, (u, x), r) ==> r == U::spec_act(u, x)
}

/// The laws of the action of `U` on `Q`, for all arguments.
pub open spec fn action_laws<U: MonoidAction<Q>, Q: Monoid>() -> bool {
    &&& forall|u: U::Set, a: Q::Set, b: Q::Set|
        #[trigger] U::spec_act(u, Q::spec_op(a, b)) == Q::spec_op(
            U::spec_act(u, a),
            U::spec_act(u, b),
        )
    &&& forall|x: Q::Set| #[trigger] U::spec_act(U::spec_id(), x) == x
    &&& forall|u: U::Set, v: U::Set, x: Q::Set|
        #[trigger] U::spec_act(U::spec_op(u, v), x) == U::spec_act(v, U::spec_act(u, x))
}

/// The laws of the action of `U` on `Q` hold for all arguments.
pub proof fn lemma_action_laws<U: MonoidAction<Q>, Q: Monoid>()
    ensures
        action_laws::<U, Q>(),
{
    assert forall|u: U::Set, a: Q::Set, b: Q::Set|
        #[trigger] U::spec_act(u, Q::spec_op(a, b)) == Q::spec_op(
            U::spec_act(u, a),
            U::spec_act(u, b),
        ) by {
        U::lemma_act_distributes(u, a, b);
    }
    assert forall|x: Q::Set| #[trigger] U::spec_act(U::spec_id(), x) == x by {
        U::lemma_act_identity(x);
    }
    assert forall|u: U::Set, v: U::Set, x: Q::Set|
        #[trigger] U::spec_act(U::spec_op(u, v), x) == U::spec_act(v, U::spec_act(u, x)) by {
        U::lemma_act_compose(u, v, x);
    }
}

/// The product of the pending updates of the proper ancestors of `x`,
/// nearest first.
pub open spec fn pending<U: Monoid>(z: Seq<U::Set>, x: int) -> U::Set
    decreases x,
{
    if x <= 1 {
        U::spec_id()
    } else {
        U::spec_op(z[x / 2], pending::<U>(z, x / 2))
    }
}

/// The product of the pending updates from the parent of `x` up to `c`.
pub open spec fn pending_upto<U: Monoid>(z: Seq<U::Set>, x: int, c: int) -> U::Set
    decreases x,
{
    if x <= c || x <= 0 {
        U::spec_id()
    } else {
        U::spec_op(z[x / 2], pending_upto::<U>(z, x / 2, c))
    }
}

/// The pending updates above `x` split at its ancestor `c`.
pub proof fn lemma_pending_split<U: Monoid>(z: Seq<U::Set>, x: int, c: int)
    requires
        in_subtree(c, x),
    ensures
        pending::<U>(z, x) == U::spec_op(pending_upto::<U>(z, x, c), pending::<U>(z, c)),
    decreases x,
{
    lemma_in_subtree_ge(c, x);
    if x == c {
        U::lemma_identity(pending::<U>(z, c));
    } else {
        lemma_pending_split::<U>(z, x / 2, c);
        U::lemma_associative(z[x / 2], pending_upto::<U>(z, x / 2, c), pending::<U>(z, c));
    }
}

/// The pending updates from `x` up to `c` end with the update of `c`.
pub proof fn lemma_pending_upto_split<U: Monoid>(z: Seq<U::Set>, x: int, c: int, ch: int)
    requires
        ch / 2 == c,
        c >= 1,
        in_subtree(ch, x),
    ensures
        pending_upto::<U>(z, x, c) == U::spec_op(pending_upto::<U>(z, x, ch), z[c]),
    decreases x,
{
    lemma_in_subtree_ge(ch, x);
    if x == ch {
        U::lemma_identity(z[c]);
        assert(pending_upto::<U>(z, c, c) == U::spec_id());
        assert(pending_upto::<U>(z, ch, c) == U::spec_op(z[c], pending_upto::<U>(z, c, c)));
        assert(pending_upto::<U>(z, ch, ch) == U::spec_id());
    } else {
        lemma_pending_upto_split::<U>(z, x / 2, c, ch);
        U::lemma_associative(z[x / 2], pending_upto::<U>(z, x / 2, ch), z[c]);
    }
}

/// Above a node whose proper ancestors hold no pending update, the product
/// of pending updates is the identity.
pub proof fn lemma_pending_clear<U: Monoid>(z: Seq<U::Set>, x: int, y: int)
    requires
        above_clear::<U>(z, x),
        y == x || (y != x && in_subtree(y, x)),
        x >= 1,
    ensures
        pending::<U>(z, y) == U::spec_id(),
    decreases y,
{
    lemma_in_subtree_ge(y, x);
    if y > 1 {
        lemma_parent_in_subtree(y);
        if y / 2 != 0 {
            if y != x {
                lemma_in_subtree_parent(y, x);
            }
            lemma_pending_clear::<U>(z, x, y / 2);
        }
        U::lemma_identity(U::spec_id());
        if y != x {
        } else {
            assert(in_subtree(y / 2, y / 2));
        }
    }
}

/// The action of an update on a nonempty fold is the fold of the actions.
pub proof fn lemma_act_fold<U: MonoidAction<Q>, Q: Monoid>(
    u: U::Set,
    s: Seq<Q::Set>,
)
    requires
        action_laws::<U, Q>(),
        s.len() >= 1,
    ensures
        U::spec_act(u, fold::<Q>(s)) == fold::<Q>(
            s.map_values(|x: Q::Set| U::spec_act(u, x)),
        ),
    decreases s.len(),
{
    let g = |x: Q::Set| U::spec_act(u, x);
    if s.len() == 1 {
        assert(s =~= seq![s[0]]);
        lemma_fold_single::<Q>(s[0]);
        assert(s.map_values(g) =~= seq![g(s[0])]);
        lemma_fold_single::<Q>(g(s[0]));
    } else {
        lemma_act_fold::<U, Q>(u, s.drop_last());
        assert(s.map_values(g).drop_last() =~= s.drop_last().map_values(g));
    }
}

/// Updating a nonempty range and then folding it gives the update applied to
/// the fold before: the elements that `range_update` leaves behind fold over
/// `a..b` to `U::spec_act(u, fold(s[a..b]))`.
pub proof fn lemma_range_update_fold<U: MonoidAction<Q>, Q: Monoid>(
    s: Seq<Q::Set>,
    u: U::Set,
    a: int,
    b: int,
)
    requires
        0 <= a < b <= s.len(),
    ensures
        fold::<Q>(
            Seq::new(
                s.len(),
                |j: int|
                    if a <= j < b {
                        U::spec_act(u, s[j])
                    } else {
                        s[j]
                    },
            ).subrange(a, b),
        ) == U::spec_act(u, fold::<Q>(s.subrange(a, b))),
{
    lemma_action_laws::<U, Q>();
    let t = Seq::new(
        s.len(),
        |j: int|
            if a <= j < b {
                U::spec_act(u, s[j])
            } else {
                s[j]
            },
    );
    lemma_act_fold::<U, Q>(u, s.subrange(a, b));
    assert(t.subrange(a, b) =~= s.subrange(a, b).map_values(|x: Q::Set| U::spec_act(u, x)));
}

/// Node `p` holds its pending update applied to the fold of its children.
pub open spec fn node_ok<U: MonoidAction<Q>, Q: Monoid>(
    d: Seq<Q::Set>,
    z: Seq<U::Set>,
    p: int,
) -> bool {
    d[p] == U::spec_act(z[p], Q::spec_op(d[2 * p], d[2 * p + 1]))
}

/// The values after pushing the pending update of `p` into its children.
pub open spec fn push_values<U: MonoidAction<Q>, Q: Monoid>(
    d: Seq<Q::Set>,
    z: Seq<U::Set>,
    p: int,
) -> Seq<Q::Set> {
    d.update(2 * p, U::spec_act(z[p], d[2 * p])).update(
        2 * p + 1,
        U::spec_act(z[p], d[2 * p + 1]),
    )
}

/// The pending updates after pushing the pending update of `p` into its
/// children (which keep pending updates only when they have any).
pub open spec fn push_pending<U: Monoid>(z: Seq<U::Set>, p: int) -> Seq<U::Set> {
    if 2 * p + 2 <= z.len() {
        z.update(2 * p, U::spec_op(z[2 * p], z[p])).update(
            2 * p + 1,
            U::spec_op(z[2 * p + 1], z[p]),
        ).update(p, U::spec_id())
    } else {
        z.update(p, U::spec_id())
    }
}

/// Pushing at `p` keeps the pending updates above every node outside the
/// proper subtree of `p`.
pub proof fn lemma_push_pending_outside<U: Monoid>(z: Seq<U::Set>, p: int, y: int)
    requires
        1 <= p < z.len(),
        !in_subtree(p, y) || y == p,
        y < 2 * z.len(),
    ensures
        pending::<U>(push_pending::<U>(z, p), y) == pending::<U>(z, y),
    decreases y,
{
    if y > 1 {
        if in_subtree(p, y / 2) {
            assert(in_subtree(p, y));
        }
        if y == p {
            lemma_in_subtree_ge_neg(p, y / 2);
        }
        lemma_push_pending_outside::<U>(z, p, y / 2);
        if y / 2 == 2 * p || y / 2 == 2 * p + 1 || y / 2 == p {
            if y == p {
            } else {
                assert(in_subtree(p, y / 2)) by {
                    if y / 2 != p {
                        assert(in_subtree(p, y / 2 / 2));
                        assert(in_subtree(p, p));
                    }
                }
            }
        }
    }
}

/// Pushing at `p` keeps the pending updates above every node strictly below
/// a child of `p`: the child's update absorbs the update of `p`.
pub proof fn lemma_push_pending_below<U: Monoid>(z: Seq<U::Set>, p: int, ch: int, y: int)
    requires
        1 <= p,
        2 * p + 2 <= z.len(),
        ch / 2 == p,
        in_subtree(ch, y),
        y != ch,
        y < 2 * z.len(),
    ensures
        pending::<U>(push_pending::<U>(z, p), y) == pending::<U>(z, y),
    decreases y,
{
    let nz = push_pending::<U>(z, p);
    lemma_in_subtree_ge(ch, y);
    lemma_in_subtree_ge(ch, y / 2);
    lemma_push_pending_outside::<U>(z, p, p);
    if y / 2 == ch {
        U::lemma_identity(pending::<U>(z, p));
        U::lemma_associative(z[ch], z[p], pending::<U>(z, p));
        assert(pending::<U>(nz, ch) == U::spec_op(nz[p], pending::<U>(nz, p)));
        assert(pending::<U>(z, ch) == U::spec_op(z[p], pending::<U>(z, p)));
        assert(nz[p] == U::spec_id());
        assert(nz[ch] == U::spec_op(z[ch], z[p]));
        assert(pending::<U>(nz, y) == U::spec_op(nz[ch], pending::<U>(nz, ch)));
        assert(pending::<U>(z, y) == U::spec_op(z[ch], pending::<U>(z, ch)));
    } else {
        lemma_strict_ancestor_le_half(ch, y / 2);
        lemma_push_pending_below::<U>(z, p, ch, y / 2);
        assert(push_pending::<U>(z, p)[y / 2] == z[y / 2]);
    }
}

/// Something strictly below `p` is below one of its two children.
pub proof fn lemma_below_child(p: int, y: int)
    requires
        in_subtree(p, y),
        y != p,
    ensures
        in_subtree(2 * p, y) || in_subtree(2 * p + 1, y),
    decreases y,
{
    lemma_in_subtree_ge(p, y);
    if y / 2 == p {
        assert(in_subtree(y, y));
    } else {
        lemma_below_child(p, y / 2);
        if in_subtree(2 * p, y / 2) {
            lemma_in_subtree_ge(2 * p, y / 2);
        } else {
            lemma_in_subtree_ge(2 * p + 1, y / 2);
        }
    }
}

/// The shape a pushed node must have: it has two children, it has a pending
/// update, and its children have pending updates unless they are childless.
pub open spec fn pushable(d_len: nat, z_len: nat, p: int) -> bool {
    &&& 1 <= p
    &&& 2 * p + 1 < d_len
    &&& p < z_len
    &&& (2 * p + 2 <= z_len || 4 * p >= d_len)
    &&& d_len <= 2 * z_len
}

/// Pushing at `p` keeps the value that every other node shows once the
/// pending updates above it are applied.
pub proof fn lemma_push_value<U: MonoidAction<Q>, Q: Monoid>(
    d: Seq<Q::Set>,
    z: Seq<U::Set>,
    p: int,
    y: int,
)
    requires
        action_laws::<U, Q>(),
        pushable(d.len(), z.len(), p),
        1 <= y < d.len(),
        y != p,
    ensures
        U::spec_act(
            pending::<U>(push_pending::<U>(z, p), y),
            push_values::<U, Q>(d, z, p)[y],
        ) == U::spec_act(pending::<U>(z, y), d[y]),
{
    let nd = push_values::<U, Q>(d, z, p);
    let nz = push_pending::<U>(z, p);
    if !in_subtree(p, y) {
        lemma_push_pending_outside::<U>(z, p, y);
        if y == 2 * p || y == 2 * p + 1 {
            assert(in_subtree(p, p));
        }
    } else {
        lemma_below_child(p, y);
        let ch = if in_subtree(2 * p, y) {
            2 * p
        } else {
            2 * p + 1
        };
        if y == ch {
            lemma_push_pending_outside::<U>(z, p, p);
            U::lemma_identity(pending::<U>(z, p));
            assert(pending::<U>(nz, ch) == U::spec_op(nz[p], pending::<U>(nz, p)));
            assert(pending::<U>(z, ch) == U::spec_op(z[p], pending::<U>(z, p)));
        } else {
            lemma_strict_ancestor_le_half(ch, y);
            lemma_in_subtree_ge(ch, y / 2);
            lemma_push_pending_below::<U>(z, p, ch, y);
        }
    }
}

/// Pushing at `p` keeps every node's invariant.
pub proof fn lemma_push_node_ok<U: MonoidAction<Q>, Q: Monoid>(
    d: Seq<Q::Set>,
    z: Seq<U::Set>,
    p: int,
    q: int,
)
    requires
        action_laws::<U, Q>(),
        pushable(d.len(), z.len(), p),
        node_ok::<U, Q>(d, z, p),
        node_ok::<U, Q>(d, z, q),
        1 <= q,
        2 * q + 1 < d.len(),
        q < z.len(),
        (q == 2 * p || q == 2 * p + 1) ==> 2 * p + 2 <= z.len(),
    ensures
        node_ok::<U, Q>(push_values::<U, Q>(d, z, p), push_pending::<U>(z, p), q),
{
    let nd = push_values::<U, Q>(d, z, p);
    let nz = push_pending::<U>(z, p);
    if q == p {
        assert(nz[p] == U::spec_id());
    } else if q == 2 * p || q == 2 * p + 1 {
        assert(nz[q] == U::spec_op(z[q], z[p]));
        assert(nd[2 * q] == d[2 * q]);
        assert(nd[2 * q + 1] == d[2 * q + 1]);
    } else {
        assert(nz[q] == z[q]);
        assert(nd[q] == d[q]);
        assert(nd[2 * q] == d[2 * q]);
        assert(nd[2 * q + 1] == d[2 * q + 1]);
    }
}

/// Pushing keeps every node whose proper ancestors hold no pending update so.
pub proof fn lemma_push_pending_clear<U: Monoid>(z: Seq<U::Set>, p: int, x: int)
    requires
        1 <= p < z.len(),
        0 <= x,
        x / 2 < z.len(),
        above_clear::<U>(z, x),
    ensures
        above_clear::<U>(push_pending::<U>(z, p), x),
{
    let nz = push_pending::<U>(z, p);
    assert forall|y: int| y != x && #[trigger] in_subtree(y, x) implies nz[y] == U::spec_id() by {
        lemma_in_subtree_ge(y, x);
        lemma_strict_ancestor_le_half(y, x);
        if y == 2 * p || y == 2 * p + 1 {
            lemma_in_subtree_parent(y, x);
            if p == x {
                lemma_in_subtree_ge(y, x);
            }
            U::lemma_identity(z[y]);
        }
    }
}

/// The inner invariant of a lazy tree with `exp2(k)` leaves over `len`
/// elements: every inner node holds its pending update applied to the fold of
/// its children.
pub open spec fn lazy_inv<U: MonoidAction<Q>, Q: Monoid>(
    d: Seq<Q::Set>,
    z: Seq<U::Set>,
    k: nat,
    len: nat,
) -> bool {
    &&& len <= exp2(k)
    &&& d.len() == exp2(k) + round_up_even(len)
    &&& z.len() == round_up_even(d.len() / 2)
    &&& action_laws::<U, Q>()
    &&& forall|p: int| 1 <= p < d.len() / 2 ==> #[trigger] node_ok::<U, Q>(d, z, p)
}

/// The values below node `c` with the pending updates up to `c` applied.
pub open spec fn block_values<U: MonoidAction<Q>, Q: Monoid>(
    d: Seq<Q::Set>,
    z: Seq<U::Set>,
    c: int,
    h: nat,
) -> Seq<Q::Set> {
    Seq::new(
        exp2(h),
        |t: int|
            U::spec_act(pending_upto::<U>(z, c * exp2(h) + t, c), d[c * exp2(h) + t]),
    )
}

/// The shape facts of a lazy tree.
pub proof fn lemma_lazy_shape(k: nat, len: nat, d_len: nat, z_len: nat)
    requires
        len <= exp2(k),
        d_len == exp2(k) + round_up_even(len),
        z_len == round_up_even(d_len / 2),
    ensures
        d_len % 2 == 0 || exp2(k) == 1,
        d_len / 2 <= exp2(k),
        d_len / 2 <= z_len,
        forall|p: int| 1 <= p < d_len / 2 ==> #[trigger] pushable(d_len, z_len, p),
{
    if k > 0 {
        assert(exp2(k) == 2 * exp2((k - 1) as nat));
    } else {
        assert(exp2(0) == 1);
    }
}

/// A node whose block holds only elements holds the fold of the values below
/// it, each with the pending updates up to the node applied.
pub proof fn lemma_lazy_node<U: MonoidAction<Q>, Q: Monoid>(
    d: Seq<Q::Set>,
    z: Seq<U::Set>,
    k: nat,
    len: nat,
    c: int,
    h: nat,
)
    requires
        lazy_inv::<U, Q>(d, z, k, len),
        is_node(k, c, h),
        (c + 1) * exp2(h) <= exp2(k) + len,
    ensures
        d[c] == fold::<Q>(block_values::<U, Q>(d, z, c, h)),
    decreases h,
{
    let off = exp2(k);
    lemma_exp2_pos(h);
    lemma_node_end_bound(k, c, h);
    lemma_lazy_shape(k, len, d.len(), z.len());
    let bv = block_values::<U, Q>(d, z, c, h);
    if h == 0 {
        assert(exp2(0) == 1);
        assert(c * exp2(h) == c) by (nonlinear_arith)
            requires
                exp2(h) == 1,
        ;
        assert(bv =~= seq![d[c]]);
        lemma_fold_single::<Q>(d[c]);
    } else {
        let e = exp2(h);
        let e2 = exp2((h - 1) as nat);
        assert(e == 2 * e2);
        lemma_exp2_pos((h - 1) as nat);
        assert(c * e == (2 * c) * e2) by (nonlinear_arith)
            requires
                e == 2 * e2,
        ;
        assert((2 * c + 1) * e2 == c * e + e2) by (nonlinear_arith)
            requires
                e == 2 * e2,
        ;
        assert((2 * c + 1 + 1) * e2 == (c + 1) * e) by (nonlinear_arith)
            requires
                e == 2 * e2,
        ;
        assert((c + 1) * e == c * e + e) by (nonlinear_arith);
        assert(2 * c + 2 <= (2 * c + 2) * e2) by (nonlinear_arith)
            requires
                e2 >= 1,
                c >= 1,
        ;
        assert(is_node(k, 2 * c, (h - 1) as nat));
        assert(is_node(k, 2 * c + 1, (h - 1) as nat));
        lemma_lazy_node::<U, Q>(d, z, k, len, 2 * c, (h - 1) as nat);
        lemma_lazy_node::<U, Q>(d, z, k, len, 2 * c + 1, (h - 1) as nat);
        let s1 = block_values::<U, Q>(d, z, 2 * c, (h - 1) as nat);
        let s2 = block_values::<U, Q>(d, z, 2 * c + 1, (h - 1) as nat);
        assert(c < d.len() / 2);
        assert(node_ok::<U, Q>(d, z, c));
        lemma_fold_concat::<Q>(s1, s2);
        lemma_act_fold::<U, Q>(z[c], s1 + s2);
        let g = |x: Q::Set| U::spec_act(z[c], x);
        assert((s1 + s2).map_values(g) =~= bv) by {
            assert forall|t: int| 0 <= t < e implies #[trigger] (s1 + s2).map_values(g)[t]
                == bv[t] by {
                let x = c * e + t;
                assert(is_node(k, x, 0)) by {
                    assert(exp2(0) == 1);
                }
                let ch = if t < e2 {
                    2 * c
                } else {
                    2 * c + 1
                };
                lemma_in_subtree_block(k, ch, (h - 1) as nat, x, 0);
                assert(exp2(0) == 1);
                assert(((h - 1) as nat - 0) as nat == (h - 1) as nat);
                lemma_pending_upto_split::<U>(z, x, c, ch);
                if t < e2 {
                    assert((s1 + s2)[t] == s1[t]);
                } else {
                    assert((s1 + s2)[t] == s2[t - e2]);
                }
            }
        }
    }
}

/// A lazy segment tree: `Update` acts on `Query` through `Action`.
pub struct LazySegtree<Update: MonoidAction<Query>, Query: Monoid, Action: Fn(Update::Set, Query::Set) -> Query::Set> {
    data: Vec<Query::Set>,
    lazy: Vec<Update::Set>,
    action: Action,
    offset: usize,
    len: usize,
    height: Ghost<nat>,
}

impl<U: MonoidAction<Q>, Q: Monoid, A: Fn(U::Set, Q::Set) -> Q::Set> View for LazySegtree<U, Q, A> {
    type V = Seq<Q::Set>;

    closed spec fn view(&self) -> Seq<Q::Set> {
        Seq::new(
            self.len as nat,
            |i: int|
                U::spec_act(
                    pending::<U>(self.lazy@, self.offset + i),
                    self.data@[self.offset + i],
                ),
        )
    }
}

impl<U: MonoidAction<Q>, Q: Monoid, A: Fn(U::Set, Q::Set) -> Q::Set> LazySegtree<U, Q, A> where
    U::Set: Copy,
    Q::Set: Copy,
 {
    /// The action the tree was created with.
    pub closed spec fn spec_action(&self) -> A {
        self.action
    }

    /// The internal invariant.
    pub closed spec fn well_formed(&self) -> bool {
        &&& self.offset == exp2(self.height@)
        &&& self.offset == next_power_of_two(self.len as nat)
        &&& implements_action::<U, Q, A>(self.action)
        &&& lazy_inv::<U, Q>(
            self.data@,
            self.lazy@,
            self.height@,
            self.len as nat,
        )
        &&& self.data@.len() <= usize::MAX
        &&& self.lazy@.len() <= usize::MAX
    }

    proof fn lemma_shape(&self)
        requires
            self.well_formed(),
        ensures
            self@.len() == self.len,
            self.len <= self.offset,
            self.offset + self.len <= self.data@.len(),
            self.data@.len() % 2 == 0 || self.offset == 1,
            self.data@.len() / 2 <= self.offset,
            self.data@.len() / 2 <= self.lazy@.len(),
            forall|p: int|
                1 <= p < self.data@.len() / 2 ==> #[trigger] pushable(
                    self.data@.len(),
                    self.lazy@.len(),
                    p,
                ),
            forall|i: int|
                0 <= i < self.len ==> #[trigger] self@[i] == U::spec_act(
                    pending::<U>(self.lazy@, self.offset + i),
                    self.data@[self.offset + i],
                ),
    {
        lemma_lazy_shape(
            self.height@,
            self.len as nat,
            self.data@.len(),
            self.lazy@.len(),
        );
    }

    /// Every proper ancestor of a node at or left of the last element lies in
    /// the inner part of the tree.
    proof fn lemma_inner_ancestor(&self, p: int, q: int)
        requires
            self.well_formed(),
            1 <= p < self.offset + self.len,
            q != p,
            in_subtree(q, p),
        ensures
            1 <= q < self.data@.len() / 2,
            q < self.lazy@.len(),
    {
        self.lemma_shape();
        lemma_in_subtree_ge(q, p);
        lemma_strict_ancestor_le_half(q, p);
    }

    /// A well-formed tree fits in memory: its offset plus its elements,
    /// rounded up to an even count, do not overflow `usize`. This bounds the
    /// ranges that the range operations accept.
    pub proof fn lemma_size_bound(&self)
        requires
            self.well_formed(),
        ensures
            next_power_of_two(self@.len()) + round_up_even(self@.len()) <= usize::MAX,
            next_power_of_two(self@.len()) + self@.len() <= usize::MAX,
    {
        self.lemma_shape();
    }

    /// Creates a tree of `len` identity elements. `tree_fits(len)` tells
    /// whether `len` is small enough.
    ///
    /// `action` must compute the action of `Update` on `Query`
    /// (`Update::spec_act`), which distributes over `Query::op`.
    pub fn new(action: A, len: usize) -> (res: Self)
        requires
            next_power_of_two(len as nat) + round_up_even(len as nat) <= usize::MAX,
            implements_action::<U, Q, A>(action),
        ensures
            res.well_formed(),
            res.spec_action() == action,
            res@ == Seq::new(len as nat, |i: int| Q::spec_id()),
    {
        proof {
            lemma_action_laws::<U, Q>();
        }
        let (offset, height) = compute_offset(len);
        let len_d = offset + (len + len % 2);
        let half = len_d / 2;
        let len_l = half + half % 2;
        let mut data: Vec<Q::Set> = Vec::with_capacity(len_d);
        while data.len() < len_d
            invariant
                data.len() <= len_d,
                forall|i: int| 0 <= i < data.len() ==> data@[i] == Q::spec_id(),
            decreases len_d - data.len(),
        {
            data.push(Q::id());
        }
        let mut lazy: Vec<U::Set> = Vec::with_capacity(len_l);
        while lazy.len() < len_l
            invariant
                lazy.len() <= len_l,
                forall|i: int| 0 <= i < lazy.len() ==> lazy@[i] == U::spec_id(),
            decreases len_l - lazy.len(),
        {
            lazy.push(U::id());
        }
        assert(data@.len() <= usize::MAX && lazy@.len() <= usize::MAX) by {
            let n = data.len();
            let m = lazy.len();
        }
        proof {
            Q::lemma_identity(Q::spec_id());
        }
        let res = LazySegtree { data, lazy, action, offset, len, height };
        proof {
            res.lemma_shape();
            assert forall|i: int| 0 <= i < len implies #[trigger] res@[i] == Q::spec_id() by {
                lemma_pending_all_id::<U>(res.lazy@, offset + i);
            }
            assert(res@ =~= Seq::new(len as nat, |i: int| Q::spec_id()));
        }
        res
    }

    /// Creates a tree holding `values`. `tree_fits(values.len())` tells
    /// whether there are few enough of them.
    ///
    /// `action` must compute the action of `Update` on `Query`
    /// (`Update::spec_act`), which distributes over `Query::op`.
    pub fn from_iter(action: A, values: Vec<Q::Set>) -> (res: Self)
        requires
            next_power_of_two(values@.len()) + round_up_even(values@.len()) <= usize::MAX,
            implements_action::<U, Q, A>(action),
        ensures
            res.well_formed(),
            res.spec_action() == action,
            res@ == values@,
    {
        proof {
            lemma_action_laws::<U, Q>();
        }
        let len = values.len();
        let (offset, height) = compute_offset(len);
        let len_d = offset + (len + len % 2);
        let half = len_d / 2;
        let len_l = half + half % 2;
        let mut data: Vec<Q::Set> = Vec::with_capacity(len_d);
        while data.len() < offset
            invariant
                data.len() <= offset,
                forall|i: int| 0 <= i < data.len() ==> data@[i] == Q::spec_id(),
            decreases offset - data.len(),
        {
            data.push(Q::id());
        }
        let mut j: usize = 0;
        while j < len
            invariant
                j <= len,
                len == values@.len(),
                data.len() == offset + j,
                forall|i: int| 0 <= i < j ==> data@[offset + i] == values@[i],
            decreases len - j,
        {
            data.push(values[j]);
            j = j + 1;
        }
        if len % 2 == 1 {
            data.push(Q::id());
        }
        let mut lazy: Vec<U::Set> = Vec::with_capacity(len_l);
        while lazy.len() < len_l
            invariant
                lazy.len() <= len_l,
                forall|i: int| 0 <= i < lazy.len() ==> lazy@[i] == U::spec_id(),
            decreases len_l - lazy.len(),
        {
            lazy.push(U::id());
        }
        let mut p = half;
        while p > 1
            invariant
                p <= half,
                half == len_d / 2,
                data@.len() == len_d,
                len == values@.len(),
                lazy@.len() == len_l,
                len_l == half + half % 2,
                forall|i: int| 0 <= i < lazy.len() ==> lazy@[i] == U::spec_id(),
                action_laws::<U, Q>(),
                forall|i: int| 0 <= i < len ==> data@[offset + i] == values@[i],
                offset + len <= len_d,
                half <= offset,
                forall|x: int|
                    p <= x < half ==> #[trigger] node_ok::<U, Q>(data@, lazy@, x),
            decreases p,
        {
            p = p - 1;
            let ghost od = data@;
            let w = Q::op(data[2 * p], data[2 * p + 1]);
            data[p] = w;
            proof {
                assert(lazy@[p as int] == U::spec_id());
                assert(U::spec_act(U::spec_id(), w) == w);
                assert forall|x: int| p <= x < half implies #[trigger] node_ok::<U, Q>(
                    data@,
                    lazy@,
                    x,
                ) by {
                    if x > p {
                        assert(node_ok::<U, Q>(od, lazy@, x));
                    }
                }
            }
        }
        assert(data@.len() <= usize::MAX && lazy@.len() <= usize::MAX) by {
            let n = data.len();
            let m = lazy.len();
        }
        let res = LazySegtree { data, lazy, action, offset, len, height };
        proof {
            res.lemma_shape();
            assert forall|i: int| 0 <= i < len implies #[trigger] res@[i] == values@[i] by {
                lemma_pending_all_id::<U>(res.lazy@, offset + i);
            }
            assert(res@ =~= values@);
        }
        res
    }

    /// Pushes the pending update of node `p` into its children.
    fn propagate_at(&mut self, p: usize)
        requires
            old(self).well_formed(),
            1 <= p < old(self).data@.len() / 2,
        ensures
            final(self).data@ == push_values::<U, Q>(
                old(self).data@,
                old(self).lazy@,
                p as int,
            ),
            final(self).lazy@ == push_pending::<U>(old(self).lazy@, p as int),
            final(self).action == old(self).action,
            final(self).offset == old(self).offset,
            final(self).len == old(self).len,
            final(self).height == old(self).height,
    {
        proof {
            self.lemma_shape();
        }
        let update = self.lazy[p];
        self.lazy[p] = U::id();
        let a = (self.action)(update, self.data[2 * p]);
        self.data[2 * p] = a;
        let b = (self.action)(update, self.data[2 * p + 1]);
        self.data[2 * p + 1] = b;
        if 2 * p + 2 <= self.lazy.len() {
            let c = U::op(self.lazy[2 * p], update);
            self.lazy[2 * p] = c;
            let e = U::op(self.lazy[2 * p + 1], update);
            self.lazy[2 * p + 1] = e;
        }
        proof {
            assert(self.data@ =~= push_values::<U, Q>(
                old(self).data@,
                old(self).lazy@,
                p as int,
            ));
            assert(self.lazy@ =~= push_pending::<U>(old(self).lazy@, p as int));
        }
    }

    /// Pushes the pending updates of all proper ancestors of `p` down, from
    /// the root.
    fn propagate_above(&mut self, p: usize)
        requires
            old(self).well_formed(),
            p < old(self).offset + old(self).len,
        ensures
            final(self).well_formed(),
            final(self).action == old(self).action,
            final(self).offset == old(self).offset,
            final(self).len == old(self).len,
            final(self).height == old(self).height,
            final(self)@ == old(self)@,
            final(self).lazy@.len() == old(self).lazy@.len(),
            above_clear::<U>(final(self).lazy@, p as int),
            forall|x: int|
                0 <= x && x / 2 < old(self).lazy@.len() && above_clear::<U>(old(self).lazy@, x)
                    ==> #[trigger] above_clear::<U>(final(self).lazy@, x),
        decreases p,
    {
        if p > 1 {
            let q = p / 2;
            self.propagate_above(q);
            proof {
                lemma_parent_in_subtree(p as int);
                self.lemma_inner_ancestor(p as int, q as int);
                self.lemma_shape();
            }
            let ghost md = self.data@;
            let ghost mz = self.lazy@;
            self.propagate_at(q);
            proof {
                assert forall|x: int| 1 <= x < self.data@.len() / 2 implies #[trigger] node_ok::<U, Q>(
                    self.data@,
                    self.lazy@,
                    x,
                ) by {
                    assert(node_ok::<U, Q>(md, mz, x));
                    assert(node_ok::<U, Q>(md, mz, q as int));
                    if x == 2 * q || x == 2 * q + 1 {
                        assert(!(4 * q >= md.len()));
                    }
                    lemma_push_node_ok::<U, Q>(md, mz, q as int, x);
                }
                assert forall|i: int| 0 <= i < self.len implies #[trigger] U::spec_act(
                    pending::<U>(self.lazy@, self.offset + i),
                    self.data@[self.offset + i],
                ) == U::spec_act(pending::<U>(mz, self.offset + i), md[self.offset + i]) by {
                    lemma_push_value::<U, Q>(md, mz, q as int, self.offset + i);
                }
                assert(self@ =~= old(self)@);
                assert forall|x: int|
                    0 <= x && x / 2 < old(self).lazy@.len() && above_clear::<U>(old(self).lazy@, x)
                        implies #[trigger] above_clear::<U>(self.lazy@, x) by {
                    lemma_push_pending_clear::<U>(mz, q as int, x);
                }
                lemma_push_pending_clear::<U>(mz, q as int, q as int);
                assert forall|y: int| y != p && #[trigger] in_subtree(y, p as int) implies self.lazy@[y]
                    == U::spec_id() by {
                    if y != q {
                        assert(in_subtree(y, q as int));
                    }
                }
            }
        } else {
            proof {
                assert forall|y: int| y != p && #[trigger] in_subtree(y, p as int) implies self.lazy@[y]
                    == U::spec_id() by {
                    lemma_in_subtree_ge(y, p as int);
                    if p == 1 {
                        assert(!in_subtree(y, 0));
                    }
                }
            }
        }
    }

    /// The value of a leaf with no pending update above it is what it stores.
    proof fn lemma_leaf_value(&self, i: int)
        requires
            self.well_formed(),
            0 <= i < self.len,
            above_clear::<U>(self.lazy@, self.offset + i),
        ensures
            self@[i] == self.data@[self.offset + i],
    {
        self.lemma_shape();
        lemma_pending_clear::<U>(self.lazy@, self.offset + i, self.offset + i);
    }

    /// Returns a slice of the elements, pushing every pending update down to
    /// the leaves.
    pub fn as_slice(&mut self) -> (res: &[Q::Set])
        requires
            old(self).well_formed(),
        ensures
            final(self).well_formed(),
            final(self).spec_action() == old(self).spec_action(),
            final(self)@ == old(self)@,
            res@ == old(self)@,
    {
        proof {
            self.lemma_shape();
        }
        let half = self.data.len() / 2;
        let mut p: usize = 1;
        while p < half
            invariant
                self.well_formed(),
                self.action == old(self).action,
                self.offset == old(self).offset,
                self.len == old(self).len,
                self.height == old(self).height,
                self@ == old(self)@,
                half == self.data@.len() / 2,
                half <= self.offset,
                half <= self.lazy@.len(),
                1 <= p,
                forall|x: int| 1 <= x < p && x < half ==> #[trigger] self.lazy@[x] == U::spec_id(),
            decreases half - p,
        {
            let ghost md = self.data@;
            let ghost mz = self.lazy@;
            proof {
                self.lemma_shape();
            }
            self.propagate_at(p);
            proof {
                assert forall|x: int| 1 <= x < self.data@.len() / 2 implies #[trigger] node_ok::<U, Q>(
                    self.data@,
                    self.lazy@,
                    x,
                ) by {
                    assert(node_ok::<U, Q>(md, mz, x));
                    assert(node_ok::<U, Q>(md, mz, p as int));
                    if x == 2 * p || x == 2 * p + 1 {
                        assert(!(4 * p >= md.len()));
                    }
                    lemma_push_node_ok::<U, Q>(md, mz, p as int, x);
                }
                assert forall|i: int| 0 <= i < self.len implies #[trigger] U::spec_act(
                    pending::<U>(self.lazy@, self.offset + i),
                    self.data@[self.offset + i],
                ) == U::spec_act(pending::<U>(mz, self.offset + i), md[self.offset + i]) by {
                    lemma_push_value::<U, Q>(md, mz, p as int, self.offset + i);
                }
                assert(self@ =~= old(self)@);
            }
            p = p + 1;
        }
        proof {
            self.lemma_shape();
            assert forall|i: int| 0 <= i < self.len implies #[trigger] self@[i] == self.data@[self.offset + i] by {
                let x = self.offset + i;
                assert forall|q: int| q != x && #[trigger] in_subtree(q, x) implies self.lazy@[q] == U::spec_id() by {
                    self.lemma_inner_ancestor(x, q);
                }
                self.lemma_leaf_value(i);
            }
        }
        let data = self.data.as_slice();
        let res = &data[self.offset..self.offset + self.len];
        proof {
            assert(res@ =~= old(self)@);
        }
        res
    }

    /// Gets the `i`-th element.
    pub fn point_query(&mut self, i: usize) -> (res: Q::Set)
        requires
            old(self).well_formed(),
            i < old(self)@.len(),
        ensures
            final(self).well_formed(),
            final(self).spec_action() == old(self).spec_action(),
            final(self)@ == old(self)@,
            res == old(self)@[i as int],
    {
        proof {
            self.lemma_shape();
        }
        let p = i + self.offset;
        self.propagate_above(p);
        proof {
            self.lemma_leaf_value(i as int);
        }
        self.data[p]
    }

    /// Replaces the `i`-th element `x` by `f(x)`.
    pub fn point_update<F: FnOnce(Q::Set) -> Q::Set>(&mut self, i: usize, f: F)
        requires
            old(self).well_formed(),
            i < old(self)@.len(),
            f.requires((old(self)@[i as int],)),
        ensures
            final(self).well_formed(),
            final(self).spec_action() == old(self).spec_action(),
            f.ensures((old(self)@[i as int],), final(self)@[i as int]),
            final(self)@ == old(self)@.update(i as int, final(self)@[i as int]),
    {
        proof {
            self.lemma_shape();
        }
        let leaf = i + self.offset;
        self.propagate_above(leaf);
        proof {
            self.lemma_leaf_value(i as int);
        }
        let ghost mid = *self;
        let v = f(self.data[leaf]);
        self.data[leaf] = v;
        let mut p = leaf;
        let ghost half = self.data@.len() / 2;
        proof {
            mid.lemma_shape();
            assert(in_subtree(leaf as int, leaf as int));
            assert forall|x: int|
                1 <= x < half && !(x != p && in_subtree(x, p as int)) implies #[trigger] node_ok::<U, Q>(self.data@, self.lazy@, x) by {
                assert(node_ok::<U, Q>(mid.data@, mid.lazy@, x));
                if x == leaf / 2 {
                    lemma_parent_in_subtree(leaf as int);
                }
            }
        }
        while p > 1
            invariant
                self.action == mid.action,
                self.offset == mid.offset,
                self.len == mid.len,
                self.height == mid.height,
                self.lazy@ == mid.lazy@,
                mid.well_formed(),
                self.data@.len() == mid.data@.len(),
                half == self.data@.len() / 2,
                above_clear::<U>(self.lazy@, leaf as int),
                leaf == i + self.offset,
                i < self.len,
                1 <= p <= leaf,
                p == leaf || p < half,
                in_subtree(p as int, leaf as int),
                self.data@[leaf as int] == v,
                forall|x: int|
                    0 <= x < self.data@.len() && x != leaf && !(1 <= x < half) ==> #[trigger] self.data@[x]
                        == mid.data@[x],
                forall|x: int|
                    1 <= x < half && !(x != p && in_subtree(x, p as int)) ==> #[trigger] node_ok::<U, Q>(self.data@, self.lazy@, x),
            decreases p,
        {
            let ghost q = p as int;
            let ghost od = self.data@;
            proof {
                mid.lemma_shape();
                lemma_parent_in_subtree(q);
                lemma_in_subtree_parent(q, leaf as int);
                mid.lemma_inner_ancestor(leaf as int, q / 2);
            }
            p = p / 2;
            let w = Q::op(self.data[2 * p], self.data[2 * p + 1]);
            self.data[p] = w;
            proof {
                assert(self.lazy@[p as int] == U::spec_id());
                assert(U::spec_act(U::spec_id(), w) == w);
                assert forall|x: int|
                    1 <= x < half && !(x != p && in_subtree(x, p as int)) implies #[trigger] node_ok::<U, Q>(self.data@, self.lazy@, x) by {
                    if x != p {
                        assert(node_ok::<U, Q>(od, self.lazy@, x));
                        if x == p / 2 && p >= 2 {
                            assert(in_subtree(x, p as int)) by {
                                assert(in_subtree(x, x));
                            }
                        }
                    }
                }
            }
        }
        proof {
            mid.lemma_shape();
            assert forall|x: int| 1 <= x < half implies #[trigger] node_ok::<U, Q>(
                self.data@,
                self.lazy@,
                x,
            ) by {
                if in_subtree(x, p as int) {
                    lemma_in_subtree_ge(x, p as int);
                }
            }
            assert(self.well_formed());
            assert forall|j: int| 0 <= j < self.len implies #[trigger] self@[j] == mid@.update(
                i as int,
                v,
            )[j] by {
                if j == i {
                    self.lemma_leaf_value(i as int);
                }
            }
            assert(self@ =~= mid@.update(i as int, v));
        }
    }

    /// Folds the elements in `range` with `Query::op`; an empty or reversed
    /// range gives the identity.
    #[verifier::spinoff_prover]
    pub fn range_query(&mut self, range: Range<usize>) -> (res: Q::Set)
        requires
            old(self).well_formed(),
            range.start + next_power_of_two(old(self)@.len()) <= usize::MAX,
            range.end + next_power_of_two(old(self)@.len()) <= usize::MAX,
            range.start < range.end ==> range.end <= old(self)@.len(),
        ensures
            final(self).well_formed(),
            final(self).spec_action() == old(self).spec_action(),
            final(self)@ == old(self)@,
            res == if range.start < range.end {
                fold::<Q>(old(self)@.subrange(range.start as int, range.end as int))
            } else {
                Q::spec_id()
            },
    {
        proof {
            self.lemma_shape();
        }
        let l0 = range.start + self.offset;
        let r0 = range.end + self.offset;
        if l0 >= r0 {
            return Q::id();
        }
        let ghost k = self.height@;
        let ghost off = self.offset as int;
        let ghost a = range.start as int;
        let ghost b = range.end as int;
        let (mut l, gl) = strip_trailing_zeros(l0);
        let (mut r, gr) = strip_trailing_zeros(r0);
        let ghost mut sl: nat = gl@;
        let ghost mut sr: nat = gr@;
        proof {
            lemma_exp2_pos(sl);
            lemma_exp2_pos(sr);
            assert(l <= l * exp2(sl)) by (nonlinear_arith)
                requires
                    exp2(sl) >= 1,
            ;
            assert(r <= r * exp2(sr)) by (nonlinear_arith)
                requires
                    exp2(sr) >= 1,
            ;
        }
        self.propagate_above(l);
        self.propagate_above(r - 1);
        let mut acc_l = Q::id();
        let mut acc_r = Q::id();
        proof {
            self.lemma_shape();
            assert(self@.subrange(a, a) =~= Seq::<Q::Set>::empty());
            assert(self@.subrange(b, b) =~= Seq::<Q::Set>::empty());
        }
        loop
            invariant_except_break
                l * exp2(sl) < r * exp2(sr),
            invariant
                self.well_formed(),
                self.action == old(self).action,
                self@ == old(self)@,
                self.height@ == k,
                self.offset == off,
                self.len == old(self).len,
                off == exp2(k),
                a == range.start,
                b == range.end,
                0 <= a < b <= self.len,
                l >= 1,
                r >= 1,
                l % 2 == 1,
                r % 2 == 1,
                off + a <= l * exp2(sl),
                l * exp2(sl) <= r * exp2(sr),
                r * exp2(sr) <= off + b,
                l * exp2(sl) < r * exp2(sr) ==> above_clear::<U>(self.lazy@, l as int),
                l * exp2(sl) < r * exp2(sr) && r >= 2 ==> above_clear::<U>(self.lazy@, r - 1),
                acc_l == fold::<Q>(self@.subrange(a, l * exp2(sl) - off)),
                acc_r == fold::<Q>(self@.subrange(r * exp2(sr) - off, b)),
            ensures
                l * exp2(sl) == r * exp2(sr),
            decreases r * exp2(sr) - l * exp2(sl),
        {
            let ghost pl = l * exp2(sl);
            let ghost pr = r * exp2(sr);
            proof {
                lemma_exp2_pos(sl);
                lemma_exp2_pos(sr);
                lemma_walk_step(k, l as nat, sl, r as nat, sr);
                lemma_node_end_bound(k, l as int, sl);
                assert(r <= r * exp2(sr)) by (nonlinear_arith)
                    requires
                        exp2(sr) >= 1,
                ;
                if r >= 2 {
                    lemma_right_node(k, r as int, sr);
                }
            }
            if l >= r {
                proof {
                    assert((l + 1) * exp2(sl) == pl + exp2(sl)) by (nonlinear_arith)
                        requires
                            pl == l * exp2(sl),
                    ;
                    self.lemma_node_fold(l as int, sl);
                    crate::traits::lemma_fold_split::<Q>(self@, a, pl - off, pl + exp2(sl) - off);
                }
                acc_l = Q::op(acc_l, self.data[l]);
                let lo = l;
                l = l + 1;
                let (l2, g) = strip_trailing_zeros(l);
                let ghost sl2 = (g@ + sl) as nat;
                proof {
                    lemma_exp2_add(g@, sl);
                    lemma_mul_assoc(l2 as int, exp2(g@) as int, exp2(sl) as int);
                    assert(l2 * exp2(g@) == lo + 1);
                    assert(exp2(sl2) == exp2(g@) * exp2(sl));
                    assert(l2 * exp2(sl2) == pl + exp2(sl));
                    if l2 * exp2(sl2) < pr {
                        assert(is_node(k, l2 as int, sl2));
                        assert forall|q: int| q != l2 && #[trigger] in_subtree(q, l2 as int) implies self.lazy@[q]
                            == U::spec_id() by {
                            lemma_left_ancestors(k, lo as int, sl, l2 as int, sl2, q);
                        }
                    }
                    sl = sl2;
                }
                l = l2;
            } else {
                proof {
                    assert(((r - 1) as int) * exp2(sr) == pr - exp2(sr)) by (nonlinear_arith)
                        requires
                            pr == r * exp2(sr),
                    ;
                    self.lemma_node_fold(r - 1, sr);
                    crate::traits::lemma_fold_split::<Q>(self@, pr - exp2(sr) - off, pr - off, b);
                }
                acc_r = Q::op(self.data[r - 1], acc_r);
                r = r - 1;
                let (r2, g) = strip_trailing_zeros(r);
                let ghost sr2 = (g@ + sr) as nat;
                proof {
                    let c = r as int;
                    lemma_exp2_add(g@, sr);
                    lemma_mul_assoc(r2 as int, exp2(g@) as int, exp2(sr) as int);
                    assert(r2 * exp2(g@) == c);
                    assert(exp2(sr2) == exp2(g@) * exp2(sr));
                    assert(r2 * exp2(sr2) == pr - exp2(sr));
                    if pl < r2 * exp2(sr2) && r2 >= 2 {
                        lemma_right_node(k, r2 as int, sr2);
                        assert forall|q: int| q != r2 - 1 && #[trigger] in_subtree(q, r2 - 1) implies self.lazy@[q]
                            == U::spec_id() by {
                            lemma_right_ancestors(k, c + 1, sr, r2 as int, sr2, q);
                        }
                    }
                    sr = sr2;
                }
                r = r2;
            }
            if l == r {
                proof {
                    lemma_walk_end(k, l as nat, sl, r as nat, sr);
                }
                break;
            }
            proof {
                if l * exp2(sl) == r * exp2(sr) {
                    lemma_odd_unique(l as nat, sl, r as nat, sr);
                }
            }
        }
        proof {
            crate::traits::lemma_fold_split::<Q>(self@, a, l * exp2(sl) - off, b);
        }
        Q::op(acc_l, acc_r)
    }

    /// Applies `update` to node `c` and, if it has one, to its pending update.
    fn apply_at(&mut self, c: usize, update: U::Set)
        requires
            implements_action::<U, Q, A>(old(self).action),
            action_laws::<U, Q>(),
            1 <= c < old(self).data@.len(),
        ensures
            final(self).data@ == old(self).data@.update(
                c as int,
                U::spec_act(update, old(self).data@[c as int]),
            ),
            final(self).lazy@ == apply_pending::<U>(old(self).lazy@, c as int, update),
            final(self).action == old(self).action,
            final(self).offset == old(self).offset,
            final(self).len == old(self).len,
            final(self).height == old(self).height,
    {
        let v = (self.action)(update, self.data[c]);
        self.data[c] = v;
        if c < self.lazy.len() {
            let w = U::op(self.lazy[c], update);
            self.lazy[c] = w;
        }
    }

    /// Recomputes node `p` from its children.
    fn recalculate_at(&mut self, p: usize)
        requires
            1 <= p,
            2 * p + 1 < old(self).data@.len(),
            old(self).data@.len() <= usize::MAX,
        ensures
            final(self).data@ == old(self).data@.update(
                p as int,
                Q::spec_op(old(self).data@[2 * p], old(self).data@[2 * p + 1]),
            ),
            final(self).lazy@ == old(self).lazy@,
            final(self).action == old(self).action,
            final(self).offset == old(self).offset,
            final(self).len == old(self).len,
            final(self).height == old(self).height,
    {
        let v = Q::op(self.data[2 * p], self.data[2 * p + 1]);
        self.data[p] = v;
    }

    /// Applies `update` through the action to every element in `range`; an
    /// empty or reversed range changes nothing.
    #[verifier::spinoff_prover]
    pub fn range_update(&mut self, range: Range<usize>, update: U::Set)
        requires
            old(self).well_formed(),
            range.start + next_power_of_two(old(self)@.len()) <= usize::MAX,
            range.end + next_power_of_two(old(self)@.len()) <= usize::MAX,
            range.start < range.end ==> range.end <= old(self)@.len(),
        ensures
            final(self).well_formed(),
            final(self).spec_action() == old(self).spec_action(),
            final(self)@ == Seq::new(
                old(self)@.len(),
                |j: int|
                    if range.start <= j < range.end {
                        U::spec_act(update, old(self)@[j])
                    } else {
                        old(self)@[j]
                    },
            ),
    {
        proof {
            self.lemma_shape();
        }
        let ghost f = self.action;
        let ghost orig = old(self)@;
        let ghost expected = Seq::new(
            orig.len(),
            |j: int|
                if range.start <= j < range.end {
                    U::spec_act(update, orig[j])
                } else {
                    orig[j]
                },
        );
        let l0 = range.start + self.offset;
        let r0 = range.end + self.offset;
        if l0 >= r0 {
            proof {
                assert(self@ =~= expected);
            }
            return;
        }
        let ghost k = self.height@;
        let ghost off = self.offset as int;
        let ghost a = range.start as int;
        let ghost b = range.end as int;
        let ghost half = self.data@.len() / 2;
        let (lf, gl) = strip_trailing_zeros(l0);
        let (rf, gr) = strip_trailing_zeros(r0);
        let ghost sl0: nat = gl@;
        let ghost sr0: nat = gr@;
        proof {
            lemma_exp2_pos(sl0);
            lemma_exp2_pos(sr0);
            assert(lf <= lf * exp2(sl0)) by (nonlinear_arith)
                requires
                    exp2(sl0) >= 1,
            ;
            assert(rf <= rf * exp2(sr0)) by (nonlinear_arith)
                requires
                    exp2(sr0) >= 1,
            ;
        }
        // step 1: push the pending updates above both ends down
        self.propagate_above(lf);
        self.propagate_above(rf - 1);
        proof {
            self.lemma_shape();
        }
        // step 2: apply the update to the blocks covering the range
        let mut l = lf;
        let mut r = rf;
        let ghost mut sl: nat = sl0;
        let ghost mut sr: nat = sr0;
        loop
            invariant_except_break
                l * exp2(sl) < r * exp2(sr),
                above_clear::<U>(self.lazy@, l as int),
                r >= 2 ==> above_clear::<U>(self.lazy@, r - 1),
                forall|q: int|
                    q != l && #[trigger] in_subtree(q, l as int) ==> q != lf && in_subtree(
                        q,
                        lf as int,
                    ),
                r >= 2 ==> forall|q: int|
                    q != r - 1 && #[trigger] in_subtree(q, r - 1) ==> rf >= 2 && q != rf - 1
                        && in_subtree(q, rf - 1),
            invariant
                self.action == f,
                self.height@ == k,
                self.offset == off,
                self.len == orig.len(),
                old(self).well_formed(),
                old(self).offset == off,
                old(self).len == self.len,
                self.data@.len() == old(self).data@.len(),
                self.lazy@.len() == old(self).lazy@.len(),
                off == exp2(k),
                self.offset == next_power_of_two(self.len as nat),
                self.data@.len() == off + round_up_even(self.len as nat),
                self.lazy@.len() == round_up_even(self.data@.len() / 2),
                self.data@.len() <= usize::MAX,
                self.lazy@.len() <= usize::MAX,
                half == self.data@.len() / 2,
                half <= off,
                half <= self.lazy@.len(),
                self.len <= off,
                implements_action::<U, Q, A>(f),
                action_laws::<U, Q>(),
                a == range.start,
                b == range.end,
                0 <= a < b <= self.len,
                lf * exp2(sl0) == off + a,
                rf * exp2(sr0) == off + b,
                lf <= off + a,
                rf <= off + b,
                lf % 2 == 1,
                rf % 2 == 1,
                lf >= 1,
                rf >= 1,
                l >= 1,
                r >= 1,
                l % 2 == 1,
                r % 2 == 1,
                off + a <= l * exp2(sl),
                l * exp2(sl) <= r * exp2(sr),
                r * exp2(sr) <= off + b,
                above_clear::<U>(self.lazy@, lf as int),
                rf >= 2 ==> above_clear::<U>(self.lazy@, rf - 1),
                forall|x: int|
                    1 <= x < half && !(x != lf && in_subtree(x, lf as int)) && !(rf >= 2 && x != rf
                        - 1 && in_subtree(x, rf - 1)) ==> #[trigger] node_ok::<U, Q>(
                        self.data@,
                        self.lazy@,
                        x,
                    ),
                forall|j: int|
                    0 <= j < self.len ==> #[trigger] U::spec_act(
                        pending::<U>(self.lazy@, off + j),
                        self.data@[off + j],
                    ) == if (a <= j && off + j < l * exp2(sl)) || (r * exp2(sr) <= off + j && j
                        < b) {
                        U::spec_act(update, orig[j])
                    } else {
                        orig[j]
                    },
            ensures
                l * exp2(sl) == r * exp2(sr),
            decreases r * exp2(sr) - l * exp2(sl),
        {
            let ghost pl = l * exp2(sl);
            let ghost pr = r * exp2(sr);
            let ghost md = self.data@;
            let ghost mz = self.lazy@;
            proof {
                lemma_exp2_pos(sl);
                lemma_exp2_pos(sr);
                lemma_walk_step(k, l as nat, sl, r as nat, sr);
                lemma_node_end_bound(k, l as int, sl);
                assert(r <= r * exp2(sr)) by (nonlinear_arith)
                    requires
                        exp2(sr) >= 1,
                ;
                if r >= 2 {
                    lemma_right_node(k, r as int, sr);
                }
                lemma_lazy_shape(k, self.len as nat, self.data@.len(), self.lazy@.len());
            }
            let c: usize = if l >= r {
                l
            } else {
                r - 1
            };
            let ghost hc: nat = if l >= r {
                sl
            } else {
                sr
            };
            proof {
                // the block of `c` lies inside the range, so `c` is no proper
                // ancestor of either end
                if l < r {
                    assert(((r - 1) as int) * exp2(sr) == pr - exp2(sr)) by (nonlinear_arith)
                        requires
                            pr == r * exp2(sr),
                    ;
                } else {
                    assert((l + 1) * exp2(sl) == pl + exp2(sl)) by (nonlinear_arith)
                        requires
                            pl == l * exp2(sl),
                    ;
                }
                assert(is_node(k, c as int, hc));
                assert(above_clear::<U>(mz, c as int));
                lemma_node_end_bound(k, c as int, hc);
                assert(!(c != lf && in_subtree(c as int, lf as int))) by {
                    if c != lf && in_subtree(c as int, lf as int) {
                        lemma_node_end_bound(k, lf as int, sl0);
                        let h2 = lemma_subtree_contains(k, c as int, lf as int, sl0);
                        lemma_node_height_unique(k, c as int, hc, h2);
                        lemma_odd_unique(l as nat, sl, lf as nat, sl0);
                    }
                }
                assert(!(rf >= 2 && c != rf - 1 && in_subtree(c as int, rf - 1))) by {
                    if rf >= 2 && c != rf - 1 && in_subtree(c as int, rf - 1) {
                        lemma_right_node(k, rf as int, sr0);
                        let h2 = lemma_subtree_contains(k, c as int, rf - 1, sr0);
                        lemma_node_height_unique(k, c as int, hc, h2);
                        assert(((rf - 1) as int) * exp2(sr0) == rf * exp2(sr0) - exp2(sr0))
                            by (nonlinear_arith);
                        lemma_odd_unique(r as nat, sr, rf as nat, sr0);
                    }
                }
                if c < half {
                    assert(node_ok::<U, Q>(md, mz, c as int));
                }
            }
            self.apply_at(c, update);
            proof {
                // the invariant of every clean node survives
                assert forall|x: int|
                    1 <= x < half && !(x != lf && in_subtree(x, lf as int)) && !(rf >= 2 && x != rf
                        - 1 && in_subtree(x, rf - 1)) implies #[trigger] node_ok::<U, Q>(
                    self.data@,
                    self.lazy@,
                    x,
                ) by {
                    assert(node_ok::<U, Q>(md, mz, x));
                    if x == c {
                        lemma_apply_node_ok::<U, Q>(md, mz, c as int, update);
                    } else if 2 * x == c || 2 * x + 1 == c {
                        lemma_parent_in_subtree(c as int);
                        if l >= r {
                            assert(x != l && in_subtree(x, l as int));
                        } else {
                            assert(x != r - 1 && in_subtree(x, r - 1));
                        }
                    }
                }
                // the values below `c` get the update
                assert forall|j: int| 0 <= j < self.len implies #[trigger] U::spec_act(
                    pending::<U>(self.lazy@, off + j),
                    self.data@[off + j],
                ) == if in_subtree(c as int, off + j) {
                    U::spec_act(update, U::spec_act(pending::<U>(mz, off + j), md[off + j]))
                } else {
                    U::spec_act(pending::<U>(mz, off + j), md[off + j])
                } by {
                    if in_subtree(c as int, off + j) && off + j != c {
                        lemma_in_subtree_ge(c as int, off + j);
                        lemma_strict_ancestor_le_half(c as int, off + j);
                    }
                    lemma_apply_value::<U, Q>(md, mz, c as int, update, off + j);
                }
                assert forall|j: int| 0 <= j < self.len implies #[trigger] in_subtree(c as int, off + j)
                    == (c * exp2(hc) <= off + j < (c + 1) * exp2(hc)) by {
                    assert(is_node(k, off + j, 0)) by {
                        assert(exp2(0) == 1);
                    }
                    lemma_in_subtree_block(k, c as int, hc, off + j, 0);
                    assert(exp2(0) == 1);
                    assert((hc - 0) as nat == hc);
                }
                // the ends keep nothing pending above them
                assert forall|q: int| q != lf && #[trigger] in_subtree(q, lf as int) implies self.lazy@[q]
                    == U::spec_id() by {
                    lemma_in_subtree_ge(q, lf as int);
                    old(self).lemma_inner_ancestor(lf as int, q);
                    assert(mz[q] == U::spec_id());
                }
                if rf >= 2 {
                    assert forall|q: int| q != rf - 1 && #[trigger] in_subtree(q, rf - 1) implies self.lazy@[q]
                        == U::spec_id() by {
                        lemma_in_subtree_ge(q, rf - 1);
                        old(self).lemma_inner_ancestor(rf - 1, q);
                        assert(mz[q] == U::spec_id());
                    }
                }
            }
            if l >= r {
                let lo = l;
                l = l + 1;
                let (l2, g) = strip_trailing_zeros(l);
                let ghost sl2 = (g@ + sl) as nat;
                proof {
                    lemma_exp2_add(g@, sl);
                    lemma_mul_assoc(l2 as int, exp2(g@) as int, exp2(sl) as int);
                    assert(l2 * exp2(g@) == lo + 1);
                    assert(exp2(sl2) == exp2(g@) * exp2(sl));
                    assert(l2 * exp2(sl2) == pl + exp2(sl));
                    if l2 * exp2(sl2) < pr {
                        assert(is_node(k, l2 as int, sl2));
                        assert forall|q: int| q != l2 && #[trigger] in_subtree(q, l2 as int) implies self.lazy@[q]
                            == U::spec_id() && q != lf && in_subtree(q, lf as int) by {
                            lemma_left_ancestors(k, lo as int, sl, l2 as int, sl2, q);
                            lemma_in_subtree_ge(q, lo as int);
                        }
                        if r >= 2 {
                            assert forall|q: int| q != r - 1 && #[trigger] in_subtree(q, r - 1) implies self.lazy@[q]
                                == U::spec_id() by {
                                lemma_in_subtree_ge(q, r - 1);
                                if q == lo {
                                    let hq = lemma_subtree_contains(k, lo as int, r - 1, sr);
                                    lemma_node_height_unique(k, lo as int, sl, hq);
                                    assert((r - 1 + 1) * exp2(sr) == pr);
                                }
                            }
                        }
                    }
                    sl = sl2;
                }
                l = l2;
            } else {
                r = r - 1;
                let (r2, g) = strip_trailing_zeros(r);
                let ghost sr2 = (g@ + sr) as nat;
                proof {
                    let cc = r as int;
                    lemma_exp2_add(g@, sr);
                    lemma_mul_assoc(r2 as int, exp2(g@) as int, exp2(sr) as int);
                    assert(r2 * exp2(g@) == cc);
                    assert(exp2(sr2) == exp2(g@) * exp2(sr));
                    assert(r2 * exp2(sr2) == pr - exp2(sr));
                    if pl < r2 * exp2(sr2) {
                        assert forall|q: int| q != l && #[trigger] in_subtree(q, l as int) implies self.lazy@[q]
                            == U::spec_id() by {
                            lemma_in_subtree_ge(q, l as int);
                            if q == cc {
                                let hq = lemma_subtree_contains(k, cc, l as int, sl);
                                lemma_node_height_unique(k, cc, sr, hq);
                            }
                        }
                        if r2 >= 2 {
                            lemma_right_node(k, r2 as int, sr2);
                            assert forall|q: int| q != r2 - 1 && #[trigger] in_subtree(q, r2 - 1) implies self.lazy@[q]
                                == U::spec_id() && rf >= 2 && q != rf - 1 && in_subtree(q, rf - 1) by {
                                lemma_right_ancestors(k, cc + 1, sr, r2 as int, sr2, q);
                                lemma_in_subtree_ge(q, cc);
                            }
                        }
                    }
                    sr = sr2;
                }
                r = r2;
            }
            if l == r {
                proof {
                    lemma_walk_end(k, l as nat, sl, r as nat, sr);
                }
                break;
            }
            proof {
                if l * exp2(sl) == r * exp2(sr) {
                    lemma_odd_unique(l as nat, sl, r as nat, sr);
                }
            }
        }
        // step 3: recompute the ancestors of both ends
        let mut p = lf;
        proof {
            assert(in_subtree(lf as int, lf as int));
        }
        while p > 1
            invariant
                self.action == f,
                self.height@ == k,
                self.offset == off,
                self.len == orig.len(),
                self.data@.len() == old(self).data@.len(),
                self.lazy@.len() == old(self).lazy@.len(),
                old(self).well_formed(),
                old(self).offset == off,
                old(self).len == self.len,
                off == exp2(k),
                self.offset == next_power_of_two(self.len as nat),
                self.data@.len() == off + round_up_even(self.len as nat),
                self.lazy@.len() == round_up_even(self.data@.len() / 2),
                self.data@.len() <= usize::MAX,
                self.lazy@.len() <= usize::MAX,
                half == self.data@.len() / 2,
                half <= off,
                self.len <= off,
                action_laws::<U, Q>(),
                1 <= lf < off + self.len,
                rf - 1 < off + self.len,
                above_clear::<U>(self.lazy@, lf as int),
                rf >= 2 ==> above_clear::<U>(self.lazy@, rf - 1),
                1 <= p <= lf,
                in_subtree(p as int, lf as int),
                forall|x: int|
                    1 <= x < half && !(x != p && in_subtree(x, p as int)) && !(rf >= 2 && x != rf
                        - 1 && in_subtree(x, rf - 1)) ==> #[trigger] node_ok::<U, Q>(
                        self.data@,
                        self.lazy@,
                        x,
                    ),
                forall|j: int|
                    0 <= j < self.len ==> #[trigger] U::spec_act(
                        pending::<U>(self.lazy@, off + j),
                        self.data@[off + j],
                    ) == expected[j],
            decreases p,
        {
            let ghost q = p as int;
            let ghost od = self.data@;
            proof {
                lemma_parent_in_subtree(q);
                lemma_in_subtree_parent(q, lf as int);
                old(self).lemma_inner_ancestor(lf as int, q / 2);
            }
            p = p / 2;
            self.recalculate_at(p);
            proof {
                assert(self.lazy@[p as int] == U::spec_id());
                let w = self.data@[p as int];
                assert(U::spec_act(U::spec_id(), w) == w);
                assert forall|x: int|
                    1 <= x < half && !(x != p && in_subtree(x, p as int)) && !(rf >= 2 && x != rf
                        - 1 && in_subtree(x, rf - 1)) implies #[trigger] node_ok::<U, Q>(
                    self.data@,
                    self.lazy@,
                    x,
                ) by {
                    if x != p {
                        assert(node_ok::<U, Q>(od, self.lazy@, x));
                        if x == p / 2 && p >= 2 {
                            assert(in_subtree(x, p as int)) by {
                                assert(in_subtree(x, x));
                            }
                        }
                    }
                }
                assert forall|j: int| 0 <= j < self.len implies #[trigger] U::spec_act(
                    pending::<U>(self.lazy@, off + j),
                    self.data@[off + j],
                ) == expected[j] by {
                    assert(U::spec_act(pending::<U>(self.lazy@, off + j), od[off + j])
                        == expected[j]);
                }
            }
        }
        let mut p = rf - 1;
        proof {
            if rf >= 2 {
                assert(in_subtree(rf - 1, rf - 1));
            }
            assert forall|x: int|
                1 <= x < half && !(rf >= 2 && x != p && in_subtree(x, p as int)) implies #[trigger] node_ok::<U, Q>(self.data@, self.lazy@, x) by {
                if in_subtree(x, 1) {
                    lemma_in_subtree_ge(x, 1);
                }
            }
        }
        while p > 1
            invariant
                self.action == f,
                self.height@ == k,
                self.offset == off,
                self.len == orig.len(),
                self.data@.len() == old(self).data@.len(),
                self.lazy@.len() == old(self).lazy@.len(),
                old(self).well_formed(),
                old(self).offset == off,
                old(self).len == self.len,
                off == exp2(k),
                self.offset == next_power_of_two(self.len as nat),
                self.data@.len() == off + round_up_even(self.len as nat),
                self.lazy@.len() == round_up_even(self.data@.len() / 2),
                self.data@.len() <= usize::MAX,
                self.lazy@.len() <= usize::MAX,
                half == self.data@.len() / 2,
                half <= off,
                self.len <= off,
                action_laws::<U, Q>(),
                rf - 1 < off + self.len,
                rf >= 2 ==> above_clear::<U>(self.lazy@, rf - 1),
                p <= rf - 1,
                p > 1 ==> rf >= 2 && in_subtree(p as int, rf - 1),
                forall|x: int|
                    1 <= x < half && !(p > 1 && x != p && in_subtree(x, p as int))
                        ==> #[trigger] node_ok::<U, Q>(self.data@, self.lazy@, x),
                forall|j: int|
                    0 <= j < self.len ==> #[trigger] U::spec_act(
                        pending::<U>(self.lazy@, off + j),
                        self.data@[off + j],
                    ) == expected[j],
            decreases p,
        {
            let ghost q = p as int;
            let ghost od = self.data@;
            proof {
                lemma_parent_in_subtree(q);
                lemma_in_subtree_parent(q, rf - 1);
                old(self).lemma_inner_ancestor(rf - 1, q / 2);
            }
            p = p / 2;
            self.recalculate_at(p);
            proof {
                assert(self.lazy@[p as int] == U::spec_id());
                let w = self.data@[p as int];
                assert(U::spec_act(U::spec_id(), w) == w);
                assert forall|x: int|
                    1 <= x < half && !(p > 1 && x != p && in_subtree(x, p as int)) implies #[trigger] node_ok::<U, Q>(self.data@, self.lazy@, x) by {
                    if x != p {
                        if in_subtree(x, q) && x != q {
                            assert(in_subtree(x, p as int));
                            lemma_in_subtree_ge(x, p as int);
                        }
                        assert(node_ok::<U, Q>(od, self.lazy@, x));
                        if x == p / 2 && p >= 2 {
                            assert(in_subtree(x, p as int)) by {
                                assert(in_subtree(x, x));
                            }
                        }
                    }
                }
                if p > 1 {
                    lemma_in_subtree_parent(q, rf - 1);
                }
                assert forall|j: int| 0 <= j < self.len implies #[trigger] U::spec_act(
                    pending::<U>(self.lazy@, off + j),
                    self.data@[off + j],
                ) == expected[j] by {
                    assert(U::spec_act(pending::<U>(self.lazy@, off + j), od[off + j])
                        == expected[j]);
                }
            }
        }
        proof {
            assert(self.well_formed());
            assert forall|j: int| 0 <= j < self.len implies #[trigger] self@[j] == expected[j] by {
                assert(U::spec_act(pending::<U>(self.lazy@, off + j), self.data@[off + j])
                    == expected[j]);
            }
            assert(self@ =~= expected);
        }
    }

    /// Pushing at `p` keeps the invariant and every element, clears the
    /// pending update of `p`, and changes no value but those of its children.
    proof fn lemma_pushed(&self, pre: &Self, p: int)
        requires
            pre.well_formed(),
            1 <= p < pre.data@.len() / 2,
            self.data@ == push_values::<U, Q>(pre.data@, pre.lazy@, p),
            self.lazy@ == push_pending::<U>(pre.lazy@, p),
            self.action == pre.action,
            self.offset == pre.offset,
            self.len == pre.len,
            self.height == pre.height,
        ensures
            self.well_formed(),
            self@ == pre@,
            self.lazy@[p] == U::spec_id(),
            forall|x: int|
                0 <= x && x / 2 < pre.lazy@.len() && above_clear::<U>(pre.lazy@, x)
                    ==> #[trigger] above_clear::<U>(self.lazy@, x),
            forall|y: int|
                0 <= y < self.data@.len() && y != 2 * p && y != 2 * p + 1 ==> #[trigger] self.data@[y]
                    == pre.data@[y],
    {
        pre.lemma_shape();
        let md = pre.data@;
        let mz = pre.lazy@;
        assert forall|x: int| 1 <= x < self.data@.len() / 2 implies #[trigger] node_ok::<U, Q>(
            self.data@,
            self.lazy@,
            x,
        ) by {
            assert(node_ok::<U, Q>(md, mz, x));
            assert(node_ok::<U, Q>(md, mz, p));
            if x == 2 * p || x == 2 * p + 1 {
                assert(!(4 * p >= md.len()));
            }
            lemma_push_node_ok::<U, Q>(md, mz, p, x);
        }
        assert forall|i: int| 0 <= i < self.len implies #[trigger] U::spec_act(
            pending::<U>(self.lazy@, self.offset + i),
            self.data@[self.offset + i],
        ) == U::spec_act(pending::<U>(mz, self.offset + i), md[self.offset + i]) by {
            lemma_push_value::<U, Q>(md, mz, p, self.offset + i);
        }
        assert(self@ =~= pre@);
        assert forall|x: int|
            0 <= x && x / 2 < pre.lazy@.len() && above_clear::<U>(pre.lazy@, x) implies #[trigger] above_clear::<
            U,
        >(self.lazy@, x) by {
            lemma_push_pending_clear::<U>(mz, p, x);
        }
    }

    /// Finds the first end `p` from `l` on whose fold `l..p` fails `pred`, in
    /// the manner of `slice::partition_point`, or the end of the elements.
    ///
    /// Returns `(v, p)` with `v` the fold of `l..p`; `pred` rejected `v` (when
    /// `p` is not the end) and accepted the fold of `l..p - 1` (when `p > l`;
    /// at the end, it may have accepted `v` instead).
    /// When the folds are partitioned by `pred`, `p` is the partition point.
    /// Only blocks of elements are folded: a block that reaches past the last
    /// element is split first.
    #[verifier::spinoff_prover]
    pub fn right_partition<P: Fn(Q::Set) -> bool>(&mut self, l: usize, pred: P) -> (res: (
        Q::Set,
        usize,
    ))
        requires
            old(self).well_formed(),
            l < old(self)@.len(),
            forall|x: Q::Set| #[trigger] pred.requires((x,)),
        ensures
            final(self).well_formed(),
            final(self).spec_action() == old(self).spec_action(),
            final(self)@ == old(self)@,
            l <= res.1 <= old(self)@.len(),
            res.0 == fold::<Q>(old(self)@.subrange(l as int, res.1 as int)),
            res.1 < old(self)@.len() ==> pred.ensures((res.0,), false),
            res.1 > l ==> pred.ensures(
                (fold::<Q>(old(self)@.subrange(l as int, res.1 - 1)),),
                true,
            ) || (res.1 == old(self)@.len() && pred.ensures((res.0,), true)),
    {
        proof {
            self.lemma_shape();
        }
        let ghost k = self.height@;
        let ghost off = self.offset as int;
        let ghost a = l as int;
        let ghost s = old(self)@;
        let end = self.offset + self.len;
        let (mut x, mut w, g) = split_pow2(l + self.offset);
        let ghost mut h: nat = g@;
        proof {
            lemma_exp2_pos(h);
            lemma_mul_mono(1, w as int, x as int);
            assert(x * exp2(h) == off + a);
            assert(is_node(k, x as int, h));
        }
        self.propagate_above(x);
        let mut acc = Q::id();
        proof {
            self.lemma_shape();
            assert(s.subrange(a, a) =~= Seq::<Q::Set>::empty());
        }
        // step 1: go up while whole blocks of elements are accepted
        loop
            invariant
                self.well_formed(),
                self.action == old(self).action,
                self@ == s,
                s == old(self)@,
                k == self.height@,
                off == self.offset,
                off == exp2(k),
                self.len == s.len(),
                end == off + s.len(),
                0 <= a < s.len(),
                a == l,
                forall|v: Q::Set| #[trigger] pred.requires((v,)),
                is_node(k, x as int, h),
                w == exp2(h),
                x < self.data@.len(),
                off + a <= x * w < end,
                above_clear::<U>(self.lazy@, x as int),
                acc == fold::<Q>(s.subrange(a, x * w - off)),
                x * w > off + a ==> pred.ensures((acc,), true),
            ensures
                is_node(k, x as int, h),
                x < self.data@.len(),
                off + a <= x * exp2(h),
                (x + 1) * exp2(h) <= end,
                above_clear::<U>(self.lazy@, x as int),
                acc == fold::<Q>(s.subrange(a, x * exp2(h) - off)),
                x * exp2(h) > off + a ==> pred.ensures((acc,), true),
                pred.ensures((Q::spec_op(acc, self.data@[x as int]),), false),
            decreases 2 * off - x * w, h,
        {
            let ghost pos = x * w;
            proof {
                lemma_exp2_pos(h);
                lemma_node_end_bound(k, x as int, h);
                assert((x + 1) * w == pos + w) by (nonlinear_arith)
                    requires
                        pos == x * w,
                ;
            }
            let start = x * w;
            if w > end - start {
                // the block reaches past the last element: split it
                let ghost pre = *self;
                let ghost h1: nat = (h - 1) as nat;
                proof {
                    if h == 0 {
                        assert(exp2(0) == 1);
                    }
                    assert(exp2(h) == 2 * exp2(h1));
                    lemma_exp2_pos(h1);
                    assert(pos == 2 * (x * exp2(h1))) by (nonlinear_arith)
                        requires
                            pos == x * w,
                            w == 2 * exp2(h1),
                    ;
                    lemma_mul_mono(1, exp2(h1) as int, x as int);
                    assert(pos == (2 * x) * exp2(h1)) by (nonlinear_arith)
                        requires
                            pos == 2 * (x * exp2(h1)),
                    ;
                    self.lemma_shape();
                    assert(2 * x <= end - 1) by (nonlinear_arith)
                        requires
                            pos == 2 * (x * exp2(h1)),
                            exp2(h1) >= 1,
                            pos < end,
                    ;
                    assert(k > 0) by {
                        if k == 0 {
                            assert(exp2(0) == 1);
                            lemma_mul_mono(1, exp2(h) as int, x as int);
                        }
                    }
                    assert(exp2(k) == 2 * exp2((k - 1) as nat));
                    assert(self.data@.len() % 2 == 0);
                    assert(x < self.data@.len() / 2);
                    assert(is_node(k, 2 * x, h1));
                }
                self.propagate_at(x);
                proof {
                    self.lemma_pushed(&pre, x as int);
                    pre.lemma_shape();
                    assert(above_clear::<U>(self.lazy@, x as int));
                    lemma_child_clear::<U>(self.lazy@, x as int, 2 * x);
                    h = h1;
                }
                x = 2 * x;
                w = w / 2;
            } else {
                proof {
                    self.lemma_node_fold(x as int, h);
                    crate::traits::lemma_fold_split::<Q>(s, a, pos - off, pos + w - off);
                }
                let v = Q::op(acc, self.data[x]);
                if !pred(v) {
                    break;
                }
                acc = v;
                if w == end - start {
                    return (acc, self.len);
                }
                let (x2, pw, g2) = split_pow2(x + 1);
                let ghost h2: nat = g2@ + h;
                proof {
                    lemma_exp2_add(g2@, h);
                    lemma_mul_assoc(x2 as int, pw as int, w as int);
                    assert(x2 * exp2(h2) == pos + w);
                    lemma_exp2_pos(h2);
                    lemma_mul_mono(1, exp2(h2) as int, x2 as int);
                    lemma_mul_mono(1, x2 as int, exp2(h2) as int);
                    assert(pw * w == exp2(h2));
                    assert(pos + w <= end);
                    assert(exp2(h2) <= end);
                    assert(pw * w <= usize::MAX);
                    self.lemma_shape();
                    assert(start == pos);
                    assert(pos + w < end);
                    assert(x2 <= x2 * exp2(h2));
                    assert(end <= self.data@.len());
                    assert(x2 < self.data@.len());
                    assert(is_node(k, x2 as int, h2));
                    assert forall|q: int| q != x2 && #[trigger] in_subtree(q, x2 as int) implies self.lazy@[q]
                        == U::spec_id() by {
                        if x % 2 == 1 {
                            lemma_left_ancestors(k, x as int, h, x2 as int, h2, q);
                        } else {
                            if g2@ > 0 {
                                assert(exp2(g2@) == 2 * exp2((g2@ - 1) as nat));
                                let m = x2 * exp2((g2@ - 1) as nat);
                                assert(x + 1 == 2 * m) by (nonlinear_arith)
                                    requires
                                        x2 * pw == x + 1,
                                        pw == 2 * exp2((g2@ - 1) as nat),
                                        m == x2 * exp2((g2@ - 1) as nat),
                                ;
                                assert(false);
                            }
                            assert(exp2(0) == 1);
                            assert(x2 * 1 == x2);
                            assert(x2 == x + 1);
                            lemma_sibling_ancestors(x as int, q);
                        }
                    }
                    h = h2;
                }
                x = x2;
                w = pw * w;
            }
        }
        // step 2: go down into the rejected block, pushing pending updates
        let half = self.data.len() / 2;
        proof {
            self.lemma_shape();
        }
        while x < half
            invariant
                self.well_formed(),
                self.action == old(self).action,
                self@ == s,
                s == old(self)@,
                k == self.height@,
                off == self.offset,
                off == exp2(k),
                self.len == s.len(),
                end == off + s.len(),
                0 <= a < s.len(),
                a == l,
                half == self.data@.len() / 2,
                half <= off,
                forall|v: Q::Set| #[trigger] pred.requires((v,)),
                is_node(k, x as int, h),
                x < self.data@.len(),
                off + a <= x * exp2(h),
                (x + 1) * exp2(h) <= end,
                above_clear::<U>(self.lazy@, x as int),
                acc == fold::<Q>(s.subrange(a, x * exp2(h) - off)),
                x * exp2(h) > off + a ==> pred.ensures((acc,), true),
                pred.ensures((Q::spec_op(acc, self.data@[x as int]),), false),
            decreases self.data@.len() - x,
        {
            let ghost p = x as int;
            let ghost pos = x * exp2(h);
            let ghost h1: nat = (h - 1) as nat;
            let ghost pre = *self;
            proof {
                lemma_node_end_bound(k, p, h);
                if h == 0 {
                    assert(exp2(0) == 1);
                    assert(x * 1 == x);
                }
                assert(exp2(h) == 2 * exp2(h1));
                lemma_exp2_pos(h1);
                assert(pos == (2 * p) * exp2(h1)) by (nonlinear_arith)
                    requires
                        pos == p * exp2(h),
                        exp2(h) == 2 * exp2(h1),
                ;
                assert((2 * p + 1) * exp2(h1) == pos + exp2(h1)) by (nonlinear_arith)
                    requires
                        pos == (2 * p) * exp2(h1),
                ;
                assert((p + 1) * exp2(h) == pos + 2 * exp2(h1)) by (nonlinear_arith)
                    requires
                        pos == p * exp2(h),
                        exp2(h) == 2 * exp2(h1),
                ;
                assert((2 * p + 1 + 1) * exp2(h1) == pos + 2 * exp2(h1)) by (nonlinear_arith)
                    requires
                        pos == (2 * p) * exp2(h1),
                ;
                assert(is_node(k, 2 * p, h1));
                assert(is_node(k, 2 * p + 1, h1));
            }
            self.propagate_at(x);
            proof {
                self.lemma_pushed(&pre, p);
                assert(self.data@[p] == pre.data@[p]);
                pre.lemma_shape();
                assert(above_clear::<U>(self.lazy@, p));
                assert(node_ok::<U, Q>(self.data@, self.lazy@, p));
                assert(self.data@[p] == Q::spec_op(self.data@[2 * p], self.data@[2 * p + 1]));
                lemma_child_clear::<U>(self.lazy@, p, 2 * p);
                lemma_child_clear::<U>(self.lazy@, p, 2 * p + 1);
                self.lemma_node_fold(2 * p, h1);
                crate::traits::lemma_fold_split::<Q>(s, a, pos - off, pos + exp2(h1) - off);
            }
            x = 2 * x;
            let v = Q::op(acc, self.data[x]);
            if pred(v) {
                proof {
                    Q::lemma_associative(acc, self.data@[2 * p], self.data@[2 * p + 1]);
                }
                acc = v;
                x = x + 1;
            }
            proof {
                h = h1;
            }
        }
        let ghost pos = x * exp2(h);
        proof {
            self.lemma_shape();
            lemma_node_end_bound(k, x as int, h);
            lemma_exp2_pos(h);
            if x < off {
                // no padding node lies inside the elements
                assert(k > 0);
                assert(exp2(k) == 2 * exp2((k - 1) as nat));
                if h == 0 {
                    assert(exp2(0) == 1);
                    assert(x * 1 == x);
                }
                assert(exp2(h) == 2 * exp2((h - 1) as nat));
                lemma_exp2_pos((h - 1) as nat);
                lemma_mul_mono(1, exp2((h - 1) as nat) as int, x as int);
                assert(pos == 2 * (x * exp2((h - 1) as nat))) by (nonlinear_arith)
                    requires
                        pos == x * exp2(h),
                        exp2(h) == 2 * exp2((h - 1) as nat),
                ;
                assert((x + 1) * exp2(h) == pos + exp2(h)) by (nonlinear_arith)
                    requires
                        pos == x * exp2(h),
                ;
                assert(x * exp2((h - 1) as nat) >= x) by (nonlinear_arith)
                    requires
                        exp2((h - 1) as nat) >= 1,
                        x >= 0,
                ;
                assert(pos >= 2 * x);
                assert(2 * half >= self.data@.len());
                assert(pos + exp2(h) > end);
                assert(false);
            }
            if h > 0 {
                assert(exp2(h) == 2 * exp2((h - 1) as nat));
                lemma_exp2_pos((h - 1) as nat);
                assert(x * exp2(h) >= 2 * x) by (nonlinear_arith)
                    requires
                        exp2(h) == 2 * exp2((h - 1) as nat),
                        exp2((h - 1) as nat) >= 1,
                ;
            }
            assert(h == 0);
            assert(exp2(0) == 1);
            assert((x + 1) * exp2(h) == x + 1) by (nonlinear_arith)
                requires
                    exp2(h) == 1,
            ;
            assert(x * exp2(h) == x) by (nonlinear_arith)
                requires
                    exp2(h) == 1,
            ;
            self.lemma_node_fold(x as int, h);
        }
        let p = x - self.offset;
        proof {
            crate::traits::lemma_fold_split::<Q>(s, a, p as int, p + 1);
        }
        // the fold of `l..p + 1` was rejected
        let rejected = Q::op(acc, self.data[x]);
        if p > l {
            (rejected, p + 1)
        } else if pred(Q::id()) {
            proof {
                assert(s.subrange(a, a) =~= Seq::<Q::Set>::empty());
            }
            (rejected, p + 1)
        } else {
            proof {
                assert(s.subrange(a, a) =~= Seq::<Q::Set>::empty());
            }
            (Q::id(), p)
        }
    }

    /// Walks left from `r` while the folds `p..r` satisfy `pred`, in the
    /// manner of `slice::partition_point`.
    ///
    /// Returns `(v, p)` with `v` the fold of `p..r`; `pred` accepted `v` (when
    /// `p < r`) and rejected the fold of `p - 1..r` (when `p > 0`).
    /// When the folds are partitioned by `pred`, `p` is the partition point.
    #[verifier::spinoff_prover]
    pub fn left_partition<P: Fn(Q::Set) -> bool>(&mut self, r: usize, pred: P) -> (res: (
        Q::Set,
        usize,
    ))
        requires
            old(self).well_formed(),
            r <= old(self)@.len(),
            forall|x: Q::Set| #[trigger] pred.requires((x,)),
        ensures
            final(self).well_formed(),
            final(self).spec_action() == old(self).spec_action(),
            final(self)@ == old(self)@,
            res.1 <= r,
            res.0 == fold::<Q>(old(self)@.subrange(res.1 as int, r as int)),
            res.1 < r ==> pred.ensures((res.0,), true),
            res.1 > 0 ==> pred.ensures(
                (fold::<Q>(old(self)@.subrange(res.1 - 1, r as int)),),
                false,
            ),
    {
        proof {
            self.lemma_shape();
        }
        if r == 0 {
            proof {
                assert(self@.subrange(0, 0) =~= Seq::<Q::Set>::empty());
            }
            return (Q::id(), 0);
        }
        let ghost k = self.height@;
        let ghost off = self.offset as int;
        let ghost b = r as int;
        let ghost s = old(self)@;
        let (q, g) = strip_trailing_zeros(r + self.offset);
        let ghost mut h: nat = g@;
        proof {
            lemma_exp2_pos(h);
            assert(off < off + b <= 2 * off);
        }
        let mut x: usize = if q == 1 {
            proof {
                assert(exp2(h) == off + b);
                if h <= k {
                    lemma_exp2_le(h, k);
                }
                lemma_exp2_le(k + 1, h);
                assert(exp2(k + 1) == 2 * exp2(k));
                h = k;
            }
            1
        } else {
            proof {
                lemma_right_node(k, q as int, h);
                lemma_mul_mono(1, exp2(h) as int, q - 1);
                assert((q - 1) * exp2(h) + exp2(h) == q * exp2(h)) by (nonlinear_arith);
            }
            q - 1
        };
        proof {
            assert((x + 1) * exp2(h) == off + b) by (nonlinear_arith)
                requires
                    q == 1 ==> x == 1 && exp2(h) * 2 == off + b,
                    q != 1 ==> x == q - 1 && q * exp2(h) == off + b,
            ;
            assert(is_node(k, x as int, h));
            assert(x < off + self.len);
        }
        self.propagate_above(x);
        let mut acc = Q::id();
        proof {
            self.lemma_shape();
            assert(s.subrange(b, b) =~= Seq::<Q::Set>::empty());
        }
        // step 1: go up while whole blocks are accepted
        loop
            invariant
                self.well_formed(),
                self.action == old(self).action,
                self@ == s,
                s == old(self)@,
                k == self.height@,
                off == self.offset,
                off == exp2(k),
                self.len == s.len(),
                0 < b <= s.len(),
                b == r,
                forall|v: Q::Set| #[trigger] pred.requires((v,)),
                is_node(k, x as int, h),
                x % 2 == 0 || x == 1,
                x < self.data@.len(),
                (x + 1) * exp2(h) <= off + b,
                above_clear::<U>(self.lazy@, x as int),
                acc == fold::<Q>(s.subrange((x + 1) * exp2(h) - off, b)),
                (x + 1) * exp2(h) < off + b ==> pred.ensures((acc,), true),
            ensures
                is_node(k, x as int, h),
                x < self.data@.len(),
                (x + 1) * exp2(h) <= off + b,
                above_clear::<U>(self.lazy@, x as int),
                acc == fold::<Q>(s.subrange((x + 1) * exp2(h) - off, b)),
                (x + 1) * exp2(h) < off + b ==> pred.ensures((acc,), true),
                pred.ensures((Q::spec_op(self.data@[x as int], acc),), false),
            decreases (x + 1) * exp2(h),
        {
            let ghost pos = x * exp2(h);
            proof {
                lemma_exp2_pos(h);
                lemma_node_end_bound(k, x as int, h);
                self.lemma_node_fold(x as int, h);
                assert((x + 1) * exp2(h) == pos + exp2(h)) by (nonlinear_arith)
                    requires
                        pos == x * exp2(h),
                ;
                crate::traits::lemma_fold_split::<Q>(s, pos - off, pos + exp2(h) - off, b);
            }
            let v = Q::op(self.data[x], acc);
            if !pred(v) {
                break;
            }
            acc = v;
            let (q2, g2) = strip_trailing_zeros(x);
            let ghost h2: nat = g2@ + h;
            proof {
                lemma_exp2_add(g2@, h);
                lemma_mul_assoc(q2 as int, exp2(g2@) as int, exp2(h) as int);
                assert(q2 * exp2(h2) == pos);
            }
            if q2 == 1 {
                proof {
                    assert(exp2(h2) == pos);
                    crate::segtree::lemma_exp2_between(k, h2);
                }
                return (acc, 0);
            }
            proof {
                if pos == off {
                    assert(1 * exp2(k) == off);
                    lemma_odd_unique(q2 as nat, h2, 1, k);
                }
                lemma_right_node(k, q2 as int, h2);
                lemma_exp2_pos(h2);
                lemma_mul_mono(1, exp2(h2) as int, q2 - 1);
                assert((q2 - 1) * exp2(h2) + exp2(h2) == q2 * exp2(h2)) by (nonlinear_arith);
                assert((q2 - 1 + 1) * exp2(h2) == pos);
                assert(x != 1);
                assert forall|y: int| y != q2 - 1 && #[trigger] in_subtree(y, q2 - 1) implies self.lazy@[y]
                    == U::spec_id() by {
                    lemma_right_ancestors(k, x + 1, h, q2 as int, h2, y);
                }
                h = h2;
            }
            x = q2 - 1;
        }
        // step 2: go down into the rejected block, pushing pending updates
        let half = self.data.len() / 2;
        proof {
            self.lemma_shape();
        }
        while x < half
            invariant
                self.well_formed(),
                self.action == old(self).action,
                self@ == s,
                s == old(self)@,
                k == self.height@,
                off == self.offset,
                off == exp2(k),
                self.len == s.len(),
                0 < b <= s.len(),
                b == r,
                half == self.data@.len() / 2,
                half <= off,
                forall|v: Q::Set| #[trigger] pred.requires((v,)),
                is_node(k, x as int, h),
                x < self.data@.len(),
                (x + 1) * exp2(h) <= off + b,
                above_clear::<U>(self.lazy@, x as int),
                acc == fold::<Q>(s.subrange((x + 1) * exp2(h) - off, b)),
                (x + 1) * exp2(h) < off + b ==> pred.ensures((acc,), true),
                pred.ensures((Q::spec_op(self.data@[x as int], acc),), false),
            decreases self.data@.len() - x,
        {
            let ghost p = x as int;
            let ghost pos = x * exp2(h);
            let ghost h1: nat = (h - 1) as nat;
            let ghost pre = *self;
            proof {
                lemma_node_end_bound(k, p, h);
                if h == 0 {
                    assert(exp2(0) == 1);
                    assert(x * 1 == x);
                }
                assert(exp2(h) == 2 * exp2(h1));
                lemma_exp2_pos(h1);
                assert(pos == (2 * p) * exp2(h1)) by (nonlinear_arith)
                    requires
                        pos == p * exp2(h),
                        exp2(h) == 2 * exp2(h1),
                ;
                assert((2 * p + 1) * exp2(h1) == pos + exp2(h1)) by (nonlinear_arith)
                    requires
                        pos == (2 * p) * exp2(h1),
                ;
                assert((p + 1) * exp2(h) == pos + 2 * exp2(h1)) by (nonlinear_arith)
                    requires
                        pos == p * exp2(h),
                        exp2(h) == 2 * exp2(h1),
                ;
                assert((2 * p + 1 + 1) * exp2(h1) == pos + 2 * exp2(h1)) by (nonlinear_arith)
                    requires
                        pos == (2 * p) * exp2(h1),
                ;
                assert(is_node(k, 2 * p, h1));
                assert(is_node(k, 2 * p + 1, h1));
            }
            self.propagate_at(x);
            proof {
                self.lemma_pushed(&pre, p);
                assert(self.data@[p] == pre.data@[p]);
                pre.lemma_shape();
                assert(above_clear::<U>(self.lazy@, p));
                assert(node_ok::<U, Q>(self.data@, self.lazy@, p));
                assert(self.data@[p] == Q::spec_op(self.data@[2 * p], self.data@[2 * p + 1]));
                lemma_child_clear::<U>(self.lazy@, p, 2 * p);
                lemma_child_clear::<U>(self.lazy@, p, 2 * p + 1);
                self.lemma_node_fold(2 * p + 1, h1);
                crate::traits::lemma_fold_split::<Q>(s, pos + exp2(h1) - off, (p + 1) * exp2(h) - off, b);
            }
            x = 2 * x + 1;
            let v = Q::op(self.data[x], acc);
            if pred(v) {
                proof {
                    Q::lemma_associative(self.data@[2 * p], self.data@[2 * p + 1], acc);
                }
                acc = v;
                x = x - 1;
            }
            proof {
                h = h1;
            }
        }
        let ghost pos = x * exp2(h);
        proof {
            self.lemma_shape();
            lemma_node_end_bound(k, x as int, h);
            lemma_exp2_pos(h);
            if x < off {
                // no padding node can end at or before `r`
                assert(k > 0);
                assert(exp2(k) == 2 * exp2((k - 1) as nat));
                if h == 0 {
                    assert(exp2(0) == 1);
                    assert(x * 1 == x);
                }
                assert(exp2(h) == 2 * exp2((h - 1) as nat));
                lemma_exp2_pos((h - 1) as nat);
                lemma_mul_mono(1, exp2((h - 1) as nat) as int, x as int);
                assert(pos == 2 * (x * exp2((h - 1) as nat))) by (nonlinear_arith)
                    requires
                        pos == x * exp2(h),
                        exp2(h) == 2 * exp2((h - 1) as nat),
                ;
                assert((x + 1) * exp2(h) == pos + exp2(h)) by (nonlinear_arith)
                    requires
                        pos == x * exp2(h),
                ;
                assert(false);
            }
            if h > 0 {
                assert(exp2(h) == 2 * exp2((h - 1) as nat));
                lemma_exp2_pos((h - 1) as nat);
                assert(x * exp2(h) >= 2 * x) by (nonlinear_arith)
                    requires
                        exp2(h) == 2 * exp2((h - 1) as nat),
                        exp2((h - 1) as nat) >= 1,
                ;
            }
            assert(h == 0);
            assert(exp2(0) == 1);
            assert((x + 1) * exp2(h) == x + 1) by (nonlinear_arith)
                requires
                    exp2(h) == 1,
            ;
            assert(x * exp2(h) == x) by (nonlinear_arith)
                requires
                    exp2(h) == 1,
            ;
            self.lemma_node_fold(x as int, h);
        }
        let p = x + 1 - self.offset;
        proof {
            crate::traits::lemma_fold_split::<Q>(s, p - 1, p as int, b);
        }
        (acc, p)
    }

    /// A node over elements only, with no pending update above it, holds the
    /// fold of its elements.
    proof fn lemma_node_fold(&self, c: int, h: nat)
        requires
            self.well_formed(),
            is_node(self.height@, c, h),
            (c + 1) * exp2(h) <= self.offset + self.len,
            above_clear::<U>(self.lazy@, c),
        ensures
            self.data@[c] == fold::<Q>(
                self@.subrange(c * exp2(h) - self.offset, (c + 1) * exp2(h) - self.offset),
            ),
    {
        self.lemma_shape();
        let k = self.height@;
        lemma_lazy_node::<U, Q>(self.data@, self.lazy@, k, self.len as nat, c, h);
        lemma_node_end_bound(k, c, h);
        lemma_pending_clear::<U>(self.lazy@, c, c);
        let bv = block_values::<U, Q>(self.data@, self.lazy@, c, h);
        let sub = self@.subrange(c * exp2(h) - self.offset, (c + 1) * exp2(h) - self.offset);
        assert((c + 1) * exp2(h) == c * exp2(h) + exp2(h)) by (nonlinear_arith);
        assert(bv =~= sub) by {
            assert forall|t: int| 0 <= t < exp2(h) implies #[trigger] bv[t] == sub[t] by {
                let x = c * exp2(h) + t;
                assert(is_node(k, x, 0)) by {
                    assert(exp2(0) == 1);
                }
                lemma_in_subtree_block(k, c, h, x, 0);
                assert(exp2(0) == 1);
                assert((h - 0) as nat == h);
                lemma_pending_split::<U>(self.lazy@, x, c);
                U::lemma_identity(pending_upto::<U>(self.lazy@, x, c));
            }
        }
    }
}

/// A child of a node with no pending update on or above it has no pending
/// update above it.
pub proof fn lemma_child_clear<U: Monoid>(z: Seq<U::Set>, x: int, c: int)
    requires
        above_clear::<U>(z, x),
        z[x] == U::spec_id(),
        c / 2 == x,
        x >= 1,
    ensures
        above_clear::<U>(z, c),
{
    assert forall|y: int| y != c && #[trigger] in_subtree(y, c) implies z[y] == U::spec_id() by {
        assert(in_subtree(y, c) == (c == y || (c > y && in_subtree(y, c / 2))));
        if y != x {
            assert(in_subtree(y, x));
        }
    }
}

/// The pending updates after composing `u` into the pending update of `c`.
pub open spec fn apply_pending<U: Monoid>(z: Seq<U::Set>, c: int, u: U::Set) -> Seq<U::Set> {
    if c < z.len() {
        z.update(c, U::spec_op(z[c], u))
    } else {
        z
    }
}

/// Composing `u` into the pending update of `c` appends `u` to the pending
/// updates from below `c` up to `c`.
pub proof fn lemma_apply_pending_upto<U: Monoid>(z: Seq<U::Set>, c: int, u: U::Set, x: int)
    requires
        1 <= c < z.len(),
        in_subtree(c, x),
        x != c,
        x / 2 < z.len(),
    ensures
        pending_upto::<U>(z.update(c, U::spec_op(z[c], u)), x, c) == U::spec_op(
            pending_upto::<U>(z, x, c),
            u,
        ),
    decreases x,
{
    let nz = z.update(c, U::spec_op(z[c], u));
    lemma_in_subtree_ge(c, x);
    if x / 2 == c {
        assert(pending_upto::<U>(nz, c, c) == U::spec_id());
        assert(pending_upto::<U>(z, c, c) == U::spec_id());
        U::lemma_identity(U::spec_op(z[c], u));
        U::lemma_identity(z[c]);
    } else {
        lemma_strict_ancestor_le_half(c, x);
        lemma_in_subtree_ge(c, x / 2);
        lemma_apply_pending_upto::<U>(z, c, u, x / 2);
        U::lemma_associative(z[x / 2], pending_upto::<U>(z, x / 2, c), u);
    }
}

/// Composing into the pending update of `c` changes nothing pending above a
/// node that is not strictly below `c`.
pub proof fn lemma_apply_pending_outside<U: Monoid>(z: Seq<U::Set>, c: int, u: U::Set, y: int)
    requires
        !(in_subtree(c, y) && y != c),
        y / 2 < z.len(),
        c >= 1,
    ensures
        pending::<U>(apply_pending::<U>(z, c, u), y) == pending::<U>(z, y),
    decreases y,
{
    if y > 1 {
        if in_subtree(c, y / 2) {
            lemma_in_subtree_ge(c, y / 2);
            assert(in_subtree(c, y));
        }
        assert(in_subtree(c, c));
        lemma_apply_pending_outside::<U>(z, c, u, y / 2);
    }
}

/// Applying `u` at a node `c` with nothing pending above it applies `u` to
/// every value below `c` and to no other value.
pub proof fn lemma_apply_value<U: MonoidAction<Q>, Q: Monoid>(
    d: Seq<Q::Set>,
    z: Seq<U::Set>,
    c: int,
    u: U::Set,
    x: int,
)
    requires
        action_laws::<U, Q>(),
        1 <= c < d.len(),
        0 <= x < d.len(),
        x / 2 < z.len(),
        above_clear::<U>(z, c),
        in_subtree(c, x) && x != c ==> c < z.len(),
    ensures
        U::spec_act(
            pending::<U>(apply_pending::<U>(z, c, u), x),
            d.update(c, U::spec_act(u, d[c]))[x],
        ) == if in_subtree(c, x) {
            U::spec_act(u, U::spec_act(pending::<U>(z, x), d[x]))
        } else {
            U::spec_act(pending::<U>(z, x), d[x])
        },
{
    let nz = apply_pending::<U>(z, c, u);
    if in_subtree(c, x) && x != c {
        lemma_strict_ancestor_le_half(c, x);
        lemma_apply_pending_upto::<U>(z, c, u, x);
        lemma_pending_split::<U>(nz, x, c);
        lemma_pending_split::<U>(z, x, c);
        lemma_apply_pending_outside::<U>(z, c, u, c);
        lemma_pending_clear::<U>(z, c, c);
        U::lemma_identity(pending_upto::<U>(z, x, c));
        U::lemma_identity(U::spec_op(pending_upto::<U>(z, x, c), u));
        lemma_in_subtree_ge(c, x);
    } else {
        lemma_apply_pending_outside::<U>(z, c, u, x);
        if x == c {
            lemma_pending_clear::<U>(z, c, c);
        }
    }
}

/// Applying `u` at a node keeps its invariant.
pub proof fn lemma_apply_node_ok<U: MonoidAction<Q>, Q: Monoid>(
    d: Seq<Q::Set>,
    z: Seq<U::Set>,
    c: int,
    u: U::Set,
)
    requires
        action_laws::<U, Q>(),
        1 <= c < z.len(),
        2 * c + 1 < d.len(),
        node_ok::<U, Q>(d, z, c),
    ensures
        node_ok::<U, Q>(
            d.update(c, U::spec_act(u, d[c])),
            apply_pending::<U>(z, c, u),
            c,
        ),
{
}

/// With no pending updates at all, nothing is pending above any node.
pub proof fn lemma_pending_all_id<U: Monoid>(z: Seq<U::Set>, x: int)
    requires
        forall|i: int| 0 <= i < z.len() ==> z[i] == U::spec_id(),
        x / 2 < z.len(),
    ensures
        pending::<U>(z, x) == U::spec_id(),
    decreases x,
{
    if x > 1 {
        lemma_pending_all_id::<U>(z, x / 2);
        U::lemma_identity(U::spec_id());
    }
}

} // verus!
