//! Common monoids over the primitive integers, and products of semigroups.
pub mod add;
pub mod affine;
pub mod bits;
pub mod extrema;
pub mod pair;

pub use add::OpAdd;
pub use affine::OpAffine;
pub use bits::{OpBitAnd, OpBitOr, OpBitXor};
pub use extrema::{OpMax, OpMin};
pub use pair::{OpPair, OpQuad, OpTriple};
