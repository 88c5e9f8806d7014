//! Products of two, three and four semigroups.
use core::marker::PhantomData;
use vstd::prelude::*;
use crate::traits::{Commutative, Idempotent, Identity, Inverse, SemiGroup};

verus! {

/// The product of two semigroups, operating componentwise on pairs.
pub struct OpPair<T0, T1>(PhantomData<(T0, T1)>);

impl<T0: SemiGroup, T1: SemiGroup> SemiGroup for OpPair<T0, T1> {
    type Set = (T0::Set, T1::Set);

    open spec fn spec_op(lhs: Self::Set, rhs: Self::Set) -> Self::Set {
        (T0::spec_op(lhs.0, rhs.0), T1::spec_op(lhs.1, rhs.1))
    }

    proof fn lemma_associative(a: Self::Set, b: Self::Set, c: Self::Set) {
        T0::lemma_associative(a.0, b.0, c.0);
        T1::lemma_associative(a.1, b.1, c.1);
    }

    fn op(lhs: Self::Set, rhs: Self::Set) -> (res: Self::Set) {
        (T0::op(lhs.0, rhs.0), T1::op(lhs.1, rhs.1))
    }
}

impl<T0: Identity, T1: Identity> Identity for OpPair<T0, T1> {
    open spec fn spec_id() -> Self::Set {
        (T0::spec_id(), T1::spec_id())
    }

    proof fn lemma_identity(a: Self::Set) {
        T0::lemma_identity(a.0);
        T1::lemma_identity(a.1);
    }

    fn id() -> (res: Self::Set) {
        (T0::id(), T1::id())
    }
}

impl<T0: Inverse, T1: Inverse> Inverse for OpPair<T0, T1> {
    open spec fn spec_inv(x: Self::Set) -> Self::Set {
        (T0::spec_inv(x.0), T1::spec_inv(x.1))
    }

    proof fn lemma_inverse(x: Self::Set, y: Self::Set) {
        T0::lemma_inverse(x.0, y.0);
        T1::lemma_inverse(x.1, y.1);
    }

    fn inv(x: Self::Set) -> (res: Self::Set) {
        (T0::inv(x.0), T1::inv(x.1))
    }
}

impl<T0: Commutative, T1: Commutative> Commutative for OpPair<T0, T1> {
    proof fn lemma_commutative(a: Self::Set, b: Self::Set) {
        T0::lemma_commutative(a.0, b.0);
        T1::lemma_commutative(a.1, b.1);
    }
}

impl<T0: Idempotent, T1: Idempotent> Idempotent for OpPair<T0, T1> {
    proof fn lemma_idempotent(a: Self::Set) {
        T0::lemma_idempotent(a.0);
        T1::lemma_idempotent(a.1);
    }
}

/// The product of three semigroups, operating componentwise on triples.
pub struct OpTriple<T0, T1, T2>(PhantomData<(T0, T1, T2)>);

impl<T0: SemiGroup, T1: SemiGroup, T2: SemiGroup> SemiGroup for OpTriple<T0, T1, T2> {
    type Set = (T0::Set, T1::Set, T2::Set);

    open spec fn spec_op(lhs: Self::Set, rhs: Self::Set) -> Self::Set {
        (T0::spec_op(lhs.0, rhs.0), T1::spec_op(lhs.1, rhs.1), T2::spec_op(lhs.2, rhs.2))
    }

    proof fn lemma_associative(a: Self::Set, b: Self::Set, c: Self::Set) {
        T0::lemma_associative(a.0, b.0, c.0);
        T1::lemma_associative(a.1, b.1, c.1);
        T2::lemma_associative(a.2, b.2, c.2);
    }

    fn op(lhs: Self::Set, rhs: Self::Set) -> (res: Self::Set) {
        (T0::op(lhs.0, rhs.0), T1::op(lhs.1, rhs.1), T2::op(lhs.2, rhs.2))
    }
}

impl<T0: Identity, T1: Identity, T2: Identity> Identity for OpTriple<T0, T1, T2> {
    open spec fn spec_id() -> Self::Set {
        (T0::spec_id(), T1::spec_id(), T2::spec_id())
    }

    proof fn lemma_identity(a: Self::Set) {
        T0::lemma_identity(a.0);
        T1::lemma_identity(a.1);
        T2::lemma_identity(a.2);
    }

    fn id() -> (res: Self::Set) {
        (T0::id(), T1::id(), T2::id())
    }
}

impl<T0: Inverse, T1: Inverse, T2: Inverse> Inverse for OpTriple<T0, T1, T2> {
    open spec fn spec_inv(x: Self::Set) -> Self::Set {
        (T0::spec_inv(x.0), T1::spec_inv(x.1), T2::spec_inv(x.2))
    }

    proof fn lemma_inverse(x: Self::Set, y: Self::Set) {
        T0::lemma_inverse(x.0, y.0);
        T1::lemma_inverse(x.1, y.1);
        T2::lemma_inverse(x.2, y.2);
    }

    fn inv(x: Self::Set) -> (res: Self::Set) {
        (T0::inv(x.0), T1::inv(x.1), T2::inv(x.2))
    }
}

impl<T0: Commutative, T1: Commutative, T2: Commutative> Commutative for OpTriple<T0, T1, T2> {
    proof fn lemma_commutative(a: Self::Set, b: Self::Set) {
        T0::lemma_commutative(a.0, b.0);
        T1::lemma_commutative(a.1, b.1);
        T2::lemma_commutative(a.2, b.2);
    }
}

impl<T0: Idempotent, T1: Idempotent, T2: Idempotent> Idempotent for OpTriple<T0, T1, T2> {
    proof fn lemma_idempotent(a: Self::Set) {
        T0::lemma_idempotent(a.0);
        T1::lemma_idempotent(a.1);
        T2::lemma_idempotent(a.2);
    }
}

/// The product of four semigroups, operating componentwise on quadruples.
pub struct OpQuad<T0, T1, T2, T3>(PhantomData<(T0, T1, T2, T3)>);

impl<T0: SemiGroup, T1: SemiGroup, T2: SemiGroup, T3: SemiGroup> SemiGroup for OpQuad<T0, T1, T2, T3> {
    type Set = (T0::Set, T1::Set, T2::Set, T3::Set);

    open spec fn spec_op(lhs: Self::Set, rhs: Self::Set) -> Self::Set {
        (T0::spec_op(lhs.0, rhs.0), T1::spec_op(lhs.1, rhs.1), T2::spec_op(lhs.2, rhs.2), T3::spec_op(lhs.3, rhs.3))
    }

    proof fn lemma_associative(a: Self::Set, b: Self::Set, c: Self::Set) {
        T0::lemma_associative(a.0, b.0, c.0);
        T1::lemma_associative(a.1, b.1, c.1);
        T2::lemma_associative(a.2, b.2, c.2);
        T3::lemma_associative(a.3, b.3, c.3);
    }

    fn op(lhs: Self::Set, rhs: Self::Set) -> (res: Self::Set) {
        (T0::op(lhs.0, rhs.0), T1::op(lhs.1, rhs.1), T2::op(lhs.2, rhs.2), T3::op(lhs.3, rhs.3))
    }
}

impl<T0: Identity, T1: Identity, T2: Identity, T3: Identity> Identity for OpQuad<T0, T1, T2, T3> {
    open spec fn spec_id() -> Self::Set {
        (T0::spec_id(), T1::spec_id(), T2::spec_id(), T3::spec_id())
    }

    proof fn lemma_identity(a: Self::Set) {
        T0::lemma_identity(a.0);
        T1::lemma_identity(a.1);
        T2::lemma_identity(a.2);
        T3::lemma_identity(a.3);
    }

    fn id() -> (res: Self::Set) {
        (T0::id(), T1::id(), T2::id(), T3::id())
    }
}

impl<T0: Inverse, T1: Inverse, T2: Inverse, T3: Inverse> Inverse for OpQuad<T0, T1, T2, T3> {
    open spec fn spec_inv(x: Self::Set) -> Self::Set {
        (T0::spec_inv(x.0), T1::spec_inv(x.1), T2::spec_inv(x.2), T3::spec_inv(x.3))
    }

    proof fn lemma_inverse(x: Self::Set, y: Self::Set) {
        T0::lemma_inverse(x.0, y.0);
        T1::lemma_inverse(x.1, y.1);
        T2::lemma_inverse(x.2, y.2);
        T3::lemma_inverse(x.3, y.3);
    }

    fn inv(x: Self::Set) -> (res: Self::Set) {
        (T0::inv(x.0), T1::inv(x.1), T2::inv(x.2), T3::inv(x.3))
    }
}

impl<T0: Commutative, T1: Commutative, T2: Commutative, T3: Commutative> Commutative for OpQuad<T0, T1, T2, T3> {
    proof fn lemma_commutative(a: Self::Set, b: Self::Set) {
        T0::lemma_commutative(a.0, b.0);
        T1::lemma_commutative(a.1, b.1);
        T2::lemma_commutative(a.2, b.2);
        T3::lemma_commutative(a.3, b.3);
    }
}

impl<T0: Idempotent, T1: Idempotent, T2: Idempotent, T3: Idempotent> Idempotent for OpQuad<T0, T1, T2, T3> {
    proof fn lemma_idempotent(a: Self::Set) {
        T0::lemma_idempotent(a.0);
        T1::lemma_idempotent(a.1);
        T2::lemma_idempotent(a.2);
        T3::lemma_idempotent(a.3);
    }
}

/// The product of two semigroups combines pairs component by component.
pub proof fn lemma_op_pair<T0: SemiGroup, T1: SemiGroup>(x: (T0::Set, T1::Set), y: (T0::Set, T1::Set))
    ensures
        OpPair::<T0, T1>::spec_op(x, y).0 == T0::spec_op(x.0, y.0),
        OpPair::<T0, T1>::spec_op(x, y).1 == T1::spec_op(x.1, y.1),
{
}

/// The product of three semigroups combines triples component by component.
pub proof fn lemma_op_triple<T0: SemiGroup, T1: SemiGroup, T2: SemiGroup>(
    x: (T0::Set, T1::Set, T2::Set),
    y: (T0::Set, T1::Set, T2::Set),
)
    ensures
        OpTriple::<T0, T1, T2>::spec_op(x, y).0 == T0::spec_op(x.0, y.0),
        OpTriple::<T0, T1, T2>::spec_op(x, y).1 == T1::spec_op(x.1, y.1),
        OpTriple::<T0, T1, T2>::spec_op(x, y).2 == T2::spec_op(x.2, y.2),
{
}

/// The product of four semigroups combines quadruples component by
/// component.
pub proof fn lemma_op_quad<T0: SemiGroup, T1: SemiGroup, T2: SemiGroup, T3: SemiGroup>(
    x: (T0::Set, T1::Set, T2::Set, T3::Set),
    y: (T0::Set, T1::Set, T2::Set, T3::Set),
)
    ensures
        OpQuad::<T0, T1, T2, T3>::spec_op(x, y).0 == T0::spec_op(x.0, y.0),
        OpQuad::<T0, T1, T2, T3>::spec_op(x, y).1 == T1::spec_op(x.1, y.1),
        OpQuad::<T0, T1, T2, T3>::spec_op(x, y).2 == T2::spec_op(x.2, y.2),
        OpQuad::<T0, T1, T2, T3>::spec_op(x, y).3 == T3::spec_op(x.3, y.3),
{
}

} // verus!
