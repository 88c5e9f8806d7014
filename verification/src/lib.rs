//! Verified monoid-based range data structures.
pub mod traits;
pub mod partition;
pub mod bit;
pub mod foldable;
pub mod foldable_queue;
pub mod foldable_deque;
pub mod ops;
pub mod tree;
pub mod segtree;
pub mod segtree_dual;
pub mod segtree_lazy;
pub mod sparse_table;
