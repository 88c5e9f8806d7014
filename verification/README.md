# Verified monoid range structures

Range-query data structures over user-supplied algebraic structures, with
their behaviour stated in contracts and proved with Verus.

- `traits`: the algebra (`SemiGroup`, `Identity`, `Inverse`, `Monoid`,
  `Group`, `Idempotent`, `Commutative`, and `MonoidAction`, a monoid of
  updates acting on a monoid of values), each law a proof obligation of the
  implementor, and the folds `fold` / `fold1` the contracts speak in.
- `ops`: addition, min, max, bitwise and/or/xor and affine composition over
  every primitive integer type (wrapping where the type overflows), and the
  componentwise products `OpPair`, `OpTriple` and `OpQuad`; affine maps on
  `u64` act on pairs of (sum, count).
- `segtree`: point updates, range folds and partition searches.
- `segtree_dual`: range updates, point reads.
- `segtree_lazy`: range updates acting on range folds; the tree's closure
  must compute the `MonoidAction` of its update type.
- `sparse_table`: constant-time range folds over an idempotent semigroup.
- `bit`: a Fenwick tree over a commutative monoid.
- `foldable_queue`, `foldable_deque`: two-stack queues with a constant-time
  fold of their contents.
- `tree`, `foldable`, `partition`: the index arithmetic of array-embedded
  trees (with `tree_fits`, which tells whether a tree of a given length
  fits in memory), the two-stack invariant, and what the partition
  searches promise.

Each structure is viewed as the sequence of its elements (`@`); every public
operation states its result and its effect on that sequence.
