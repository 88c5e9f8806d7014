use lib::ops::{OpAdd, OpAffine, OpBitAnd, OpBitOr, OpBitXor, OpMax, OpMin, OpPair, OpQuad, OpTriple};
use lib::traits::{Identity, Inverse, SemiGroup};

#[test]
fn add_folds_and_wraps() {
    assert_eq!(OpAdd::<u64>::op(3, 4), 7);
    assert_eq!(OpAdd::<u64>::id(), 0);
    assert_eq!(OpAdd::<u64>::op(u64::MAX, 2), 1);
    assert_eq!(OpAdd::<u32>::op(u32::MAX, 1), 0);
    assert_eq!(OpAdd::<usize>::op(40, 2), 42);
    assert_eq!(OpAdd::<i32>::op(-5, 3), -2);
}

#[test]
fn add_inverse_cancels() {
    assert_eq!(OpAdd::<i64>::inv(5), -5);
    assert_eq!(OpAdd::<i64>::op(17, OpAdd::<i64>::inv(17)), OpAdd::<i64>::id());
    assert_eq!(OpAdd::<i32>::inv(i32::MIN), i32::MIN);
    assert_eq!(OpAdd::<i32>::op(i32::MIN, OpAdd::<i32>::inv(i32::MIN)), 0);
}

#[test]
fn max_and_min_identities() {
    assert_eq!(OpMax::<i32>::op(-3, 2), 2);
    assert_eq!(OpMax::<i32>::id(), i32::MIN);
    assert_eq!(OpMax::<i32>::op(OpMax::<i32>::id(), -7), -7);
    assert_eq!(OpMin::<u64>::op(9, 4), 4);
    assert_eq!(OpMin::<u64>::id(), u64::MAX);
    assert_eq!(OpMin::<i64>::op(OpMin::<i64>::id(), -1), -1);
    assert_eq!(OpMax::<usize>::op(5, 5), 5);
}

#[test]
fn bit_operations() {
    assert_eq!(OpBitAnd::<u32>::op(0b1100, 0b1010), 0b1000);
    assert_eq!(OpBitAnd::<u32>::id(), u32::MAX);
    assert_eq!(OpBitOr::<u64>::op(0b1100, 0b1010), 0b1110);
    assert_eq!(OpBitOr::<u64>::id(), 0);
    assert_eq!(OpBitXor::<u32>::op(0b1100, 0b1010), 0b0110);
    assert_eq!(OpBitXor::<u64>::inv(0xdead), 0xdead);
    assert_eq!(OpBitXor::<u64>::op(0xdead, OpBitXor::<u64>::inv(0xdead)), 0);
}

#[test]
fn affine_composes_left_then_right() {
    // x -> 2x + 3, then y -> 5y + 7, is x -> 10x + 22
    assert_eq!(OpAffine::<u64>::op((2, 3), (5, 7)), (10, 22));
    assert_eq!(OpAffine::<u64>::op((5, 7), (2, 3)), (10, 17));
    assert_eq!(OpAffine::<u64>::id(), (1, 0));
    assert_eq!(OpAffine::<u64>::op(OpAffine::<u64>::id(), (4, 9)), (4, 9));
    assert_eq!(OpAffine::<u64>::op((u64::MAX, 0), (2, 0)), (u64::MAX - 1, 0));
}

#[test]
fn affine_is_associative_on_samples() {
    let a = (3u64, 1u64);
    let b = (7u64, 2u64);
    let c = (u64::MAX, 5u64);
    let left = OpAffine::<u64>::op(OpAffine::<u64>::op(a, b), c);
    let right = OpAffine::<u64>::op(a, OpAffine::<u64>::op(b, c));
    assert_eq!(left, right);
}

#[test]
fn pair_operates_componentwise() {
    type P = OpPair<OpAdd<i64>, OpMax<u32>>;
    assert_eq!(P::op((3, 4), (5, 2)), (8, 4));
    assert_eq!(P::id(), (0, u32::MIN));
    type G = OpPair<OpAdd<i64>, OpBitXor<u32>>;
    assert_eq!(G::inv((6, 9)), (-6, 9));
    assert_eq!(G::op((6, 9), G::inv((6, 9))), G::id());
}

#[test]
fn narrow_and_wide_integers() {
    assert_eq!(OpAdd::<u8>::op(255, 1), 0);
    assert_eq!(OpAdd::<i8>::inv(-128), -128);
    assert_eq!(OpAdd::<i16>::op(-300, 299), -1);
    assert_eq!(OpAdd::<u128>::op(u128::MAX, 1), 0);
    assert_eq!(OpAdd::<isize>::inv(7), -7);
    assert_eq!(OpMax::<i128>::op(-5, i128::MIN), -5);
    assert_eq!(OpMin::<u16>::id(), u16::MAX);
    assert_eq!(OpBitAnd::<i8>::id(), -1);
    assert_eq!(OpBitOr::<usize>::op(1, 2), 3);
    assert_eq!(OpBitXor::<i64>::op(-1, 0), -1);
}

#[test]
fn affine_over_other_integers() {
    assert_eq!(OpAffine::<i32>::op((2, -3), (5, 7)), (10, -8));
    assert_eq!(OpAffine::<u8>::op((16, 1), (16, 0)), (0, 16));
    assert_eq!(OpAffine::<i64>::id(), (1, 0));
    assert_eq!(OpAffine::<usize>::op((3, 4), OpAffine::<usize>::id()), (3, 4));
    assert_eq!(OpAffine::<i128>::op((-1, 5), (-1, 5)), (1, 0));
}

#[test]
fn triples_and_quadruples_operate_componentwise() {
    type T3 = OpTriple<OpAdd<u32>, OpMin<i8>, OpBitOr<u16>>;
    assert_eq!(T3::op((1, 5, 0b01), (2, -3, 0b10)), (3, -3, 0b11));
    assert_eq!(T3::id(), (0, i8::MAX, 0));
    type T4 = OpQuad<OpAdd<i16>, OpAdd<i64>, OpBitXor<u8>, OpAdd<isize>>;
    assert_eq!(T4::op((1, 2, 3, 4), (10, 20, 30, 40)), (11, 22, 29, 44));
    assert_eq!(T4::inv((1, -2, 7, 4)), (-1, 2, 7, -4));
    assert_eq!(T4::op((1, -2, 7, 4), T4::inv((1, -2, 7, 4))), T4::id());
}

#[test]
fn min_and_bitand_on_bool_and_char() {
    assert!(!OpMin::<bool>::op(true, false));
    assert!(OpMin::<bool>::op(true, true));
    assert!(!OpBitAnd::<bool>::op(false, true));
    assert!(OpBitAnd::<bool>::op(true, true));
    assert_eq!(OpMin::<char>::op('q', 'c'), 'c');
    assert_eq!(OpMin::<char>::op('a', 'z'), 'a');
}
