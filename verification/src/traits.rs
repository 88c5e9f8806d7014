//! Algebraic structures over which the data structures of this crate fold.
use vstd::prelude::*;

verus! {

/// A set with an associative binary operation.
pub trait SemiGroup {
    type Set;

    /// The operation, as a mathematical function.
    spec fn spec_op(lhs: Self::Set, rhs: Self::Set) -> Self::Set;

    /// The operation is associative.
    proof fn lemma_associative(a: Self::Set, b: Self::Set, c: Self::Set)
        ensures
            Self::spec_op(Self::spec_op(a, b), c) == Self::spec_op(a, Self::spec_op(b, c)),
    ;

    /// Performs associative binary operation.
    fn op(lhs: Self::Set, rhs: Self::Set) -> (res: Self::Set)
        ensures
            res == Self::spec_op(lhs, rhs),
    ;
}

/// A semigroup with a two-sided identity element.
pub trait Identity: SemiGroup {
    spec fn spec_id() -> Self::Set;

    /// The identity element is neutral on both sides.
    proof fn lemma_identity(a: Self::Set)
        ensures
            Self::spec_op(Self::spec_id(), a) == a,
            Self::spec_op(a, Self::spec_id()) == a,
    ;

    fn id() -> (res: Self::Set)
        ensures
            res == Self::spec_id(),
    ;
}

/// A semigroup whose elements have two-sided inverses: `op(x, inv(x))` and
/// `op(inv(x), x)` are neutral on both sides of every element.
pub trait Inverse: SemiGroup {
    spec fn spec_inv(x: Self::Set) -> Self::Set;

    /// `x` and `inv(x)` cancel, in either order, next to any `y`.
    proof fn lemma_inverse(x: Self::Set, y: Self::Set)
        ensures
            Self::spec_op(Self::spec_op(x, Self::spec_inv(x)), y) == y,
            Self::spec_op(y, Self::spec_op(x, Self::spec_inv(x))) == y,
            Self::spec_op(Self::spec_op(Self::spec_inv(x), x), y) == y,
            Self::spec_op(y, Self::spec_op(Self::spec_inv(x), x)) == y,
    ;

    fn inv(x: Self::Set) -> (res: Self::Set)
        ensures
            res == Self::spec_inv(x),
    ;
}

/// In a group, `x` and `inv(x)` combine to the identity.
pub proof fn lemma_group_inverse<T: Group>(x: T::Set)
    ensures
        T::spec_op(x, T::spec_inv(x)) == T::spec_id(),
        T::spec_op(T::spec_inv(x), x) == T::spec_id(),
{
    T::lemma_inverse(x, T::spec_id());
    T::lemma_identity(T::spec_op(x, T::spec_inv(x)));
    T::lemma_identity(T::spec_op(T::spec_inv(x), x));
}

/// A semigroup with identity.
pub trait Monoid: Identity {}

impl<T: Identity> Monoid for T {}

/// A monoid with inverses.
pub trait Group: Monoid + Inverse {}

impl<T: Monoid + Inverse> Group for T {}

/// A semigroup whose operation is idempotent: `op(a, a) == a`.
pub trait Idempotent: SemiGroup {
    proof fn lemma_idempotent(a: Self::Set)
        ensures
            Self::spec_op(a, a) == a,
    ;
}

/// A semigroup whose operation is commutative.
pub trait Commutative: SemiGroup {
    proof fn lemma_commutative(a: Self::Set, b: Self::Set)
        ensures
            Self::spec_op(a, b) == Self::spec_op(b, a),
    ;
}

/// A monoid of updates acting on the monoid `Q` of values: the action
/// distributes over `Q::op`, the identity update leaves every value alone,
/// and applying `op(u, v)` is applying `u` and then `v`.
pub trait MonoidAction<Q: Monoid>: Monoid {
    /// The action of the update `u` on the value `x`.
    spec fn spec_act(u: Self::Set, x: Q::Set) -> Q::Set;

    /// An update distributes over the operation on values.
    proof fn lemma_act_distributes(u: Self::Set, a: Q::Set, b: Q::Set)
        ensures
            Self::spec_act(u, Q::spec_op(a, b)) == Q::spec_op(
                Self::spec_act(u, a),
                Self::spec_act(u, b),
            ),
    ;

    /// The identity update leaves a value unchanged.
    proof fn lemma_act_identity(x: Q::Set)
        ensures
            Self::spec_act(Self::spec_id(), x) == x,
    ;

    /// Applying `op(u, v)` is applying `u` and then `v`.
    proof fn lemma_act_compose(u: Self::Set, v: Self::Set, x: Q::Set)
        ensures
            Self::spec_act(Self::spec_op(u, v), x) == Self::spec_act(v, Self::spec_act(u, x)),
    ;

    /// Applies the update `u` to the value `x`.
    fn act(u: Self::Set, x: Q::Set) -> (res: Q::Set)
        ensures
            res == Self::spec_act(u, x),
    ;
}

/// Folds `s` from the left, starting from the identity element.
pub open spec fn fold<T: Monoid>(s: Seq<T::Set>) -> T::Set
    decreases s.len(),
{
    if s.len() == 0 {
        T::spec_id()
    } else {
        T::spec_op(fold::<T>(s.drop_last()), s.last())
    }
}

/// The fold of a single element is that element.
pub proof fn lemma_fold_single<T: Monoid>(x: T::Set)
    ensures
        fold::<T>(seq![x]) == x,
{
    let s = seq![x];
    assert(s.drop_last() =~= Seq::<T::Set>::empty());
    assert(fold::<T>(s.drop_last()) == T::spec_id());
    assert(s.last() == x);
    T::lemma_identity(x);
}

/// Folding a concatenation combines the folds of the parts.
pub proof fn lemma_fold_concat<T: Monoid>(a: Seq<T::Set>, b: Seq<T::Set>)
    ensures
        fold::<T>(a + b) == T::spec_op(fold::<T>(a), fold::<T>(b)),
    decreases b.len(),
{
    if b.len() == 0 {
        assert(a + b =~= a);
        T::lemma_identity(fold::<T>(a));
    } else {
        lemma_fold_concat::<T>(a, b.drop_last());
        assert((a + b).drop_last() =~= a + b.drop_last());
        assert((a + b).last() == b.last());
        T::lemma_associative(fold::<T>(a), fold::<T>(b.drop_last()), b.last());
    }
}

/// Splitting a range at `m` splits its fold.
pub proof fn lemma_fold_split<T: Monoid>(s: Seq<T::Set>, i: int, m: int, j: int)
    requires
        0 <= i <= m <= j <= s.len(),
    ensures
        fold::<T>(s.subrange(i, j)) == T::spec_op(
            fold::<T>(s.subrange(i, m)),
            fold::<T>(s.subrange(m, j)),
        ),
{
    assert(s.subrange(i, j) =~= s.subrange(i, m) + s.subrange(m, j));
    lemma_fold_concat::<T>(s.subrange(i, m), s.subrange(m, j));
}

/// Folds a nonempty `s` from the left; no identity element is needed.
pub open spec fn fold1<T: SemiGroup>(s: Seq<T::Set>) -> T::Set
    decreases s.len(),
{
    if s.len() <= 1 {
        s[0]
    } else {
        T::spec_op(fold1::<T>(s.drop_last()), s.last())
    }
}

/// Folding a concatenation of nonempty parts combines their folds.
pub proof fn lemma_fold1_concat<T: SemiGroup>(a: Seq<T::Set>, b: Seq<T::Set>)
    requires
        a.len() >= 1,
        b.len() >= 1,
    ensures
        fold1::<T>(a + b) == T::spec_op(fold1::<T>(a), fold1::<T>(b)),
    decreases b.len(),
{
    if b.len() == 1 {
        assert((a + b).drop_last() =~= a);
        assert((a + b).last() == b[0]);
    } else {
        lemma_fold1_concat::<T>(a, b.drop_last());
        assert((a + b).drop_last() =~= a + b.drop_last());
        T::lemma_associative(fold1::<T>(a), fold1::<T>(b.drop_last()), b.last());
    }
}

/// Splitting a nonempty range at an inner point splits its fold.
pub proof fn lemma_fold1_split<T: SemiGroup>(s: Seq<T::Set>, i: int, m: int, j: int)
    requires
        0 <= i < m < j <= s.len(),
    ensures
        fold1::<T>(s.subrange(i, j)) == T::spec_op(
            fold1::<T>(s.subrange(i, m)),
            fold1::<T>(s.subrange(m, j)),
        ),
{
    assert(s.subrange(i, j) =~= s.subrange(i, m) + s.subrange(m, j));
    lemma_fold1_concat::<T>(s.subrange(i, m), s.subrange(m, j));
}

/// For an idempotent operation, the folds of two overlapping ranges combine
/// into the fold of their union.
pub proof fn lemma_fold1_overlap<T: Idempotent>(s: Seq<T::Set>, a: int, b: int, c: int, d: int)
    requires
        0 <= a <= b < c <= d <= s.len(),
    ensures
        T::spec_op(fold1::<T>(s.subrange(a, c)), fold1::<T>(s.subrange(b, d)))
            == fold1::<T>(s.subrange(a, d)),
{
    let fb = fold1::<T>(s.subrange(b, c));
    T::lemma_idempotent(fb);
    if a < b {
        lemma_fold1_split::<T>(s, a, b, c);
        let fa = fold1::<T>(s.subrange(a, b));
        if c < d {
            lemma_fold1_split::<T>(s, b, c, d);
            lemma_fold1_split::<T>(s, a, b, d);
            let fc = fold1::<T>(s.subrange(c, d));
            T::lemma_associative(fa, fb, T::spec_op(fb, fc));
            T::lemma_associative(fb, fb, fc);
        } else {
            T::lemma_associative(fa, fb, fb);
        }
    } else {
        if c < d {
            lemma_fold1_split::<T>(s, b, c, d);
            let fc = fold1::<T>(s.subrange(c, d));
            T::lemma_associative(fb, fb, fc);
        }
    }
}

/// A sequence of identity elements folds to the identity.
pub proof fn lemma_fold_all_id<T: Monoid>(s: Seq<T::Set>)
    requires
        forall|i: int| 0 <= i < s.len() ==> s[i] == T::spec_id(),
    ensures
        fold::<T>(s) == T::spec_id(),
    decreases s.len(),
{
    if s.len() > 0 {
        lemma_fold_all_id::<T>(s.drop_last());
        T::lemma_identity(T::spec_id());
    }
}

} // verus!
