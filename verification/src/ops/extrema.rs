//! The larger and the smaller of two values: integers, and for the smaller
//! also `bool` and `char`.
use core::marker::PhantomData;
use vstd::prelude::*;
use crate::traits::{Commutative, Idempotent, Identity, SemiGroup};

verus! {

/// The larger of two values.
pub struct OpMax<T>(PhantomData<T>);

/// The smaller of two values.
pub struct OpMin<T>(PhantomData<T>);

impl SemiGroup for OpMax<u8> {
    type Set = u8;

    open spec fn spec_op(lhs: u8, rhs: u8) -> u8 {
        if lhs >= rhs {
            lhs
        } else {
            rhs
        }
    }

    proof fn lemma_associative(a: u8, b: u8, c: u8) {
    }

    fn op(lhs: u8, rhs: u8) -> (res: u8) {
        if lhs >= rhs {
            lhs
        } else {
            rhs
        }
    }
}

impl Identity for OpMax<u8> {
    open spec fn spec_id() -> u8 {
        u8::MIN
    }

    proof fn lemma_identity(a: u8) {
    }

    fn id() -> (res: u8) {
        u8::MIN
    }
}

impl Idempotent for OpMax<u8> {
    proof fn lemma_idempotent(a: u8) {
    }
}

impl Commutative for OpMax<u8> {
    proof fn lemma_commutative(a: u8, b: u8) {
    }
}

impl SemiGroup for OpMin<u8> {
    type Set = u8;

    open spec fn spec_op(lhs: u8, rhs: u8) -> u8 {
        if lhs <= rhs {
            lhs
        } else {
            rhs
        }
    }

    proof fn lemma_associative(a: u8, b: u8, c: u8) {
    }

    fn op(lhs: u8, rhs: u8) -> (res: u8) {
        if lhs <= rhs {
            lhs
        } else {
            rhs
        }
    }
}

impl Identity for OpMin<u8> {
    open spec fn spec_id() -> u8 {
        u8::MAX
    }

    proof fn lemma_identity(a: u8) {
    }

    fn id() -> (res: u8) {
        u8::MAX
    }
}

impl Idempotent for OpMin<u8> {
    proof fn lemma_idempotent(a: u8) {
    }
}

impl Commutative for OpMin<u8> {
    proof fn lemma_commutative(a: u8, b: u8) {
    }
}

impl SemiGroup for OpMax<i8> {
    type Set = i8;

    open spec fn spec_op(lhs: i8, rhs: i8) -> i8 {
        if lhs >= rhs {
            lhs
        } else {
            rhs
        }
    }

    proof fn lemma_associative(a: i8, b: i8, c: i8) {
    }

    fn op(lhs: i8, rhs: i8) -> (res: i8) {
        if lhs >= rhs {
            lhs
        } else {
            rhs
        }
    }
}

impl Identity for OpMax<i8> {
    open spec fn spec_id() -> i8 {
        i8::MIN
    }

    proof fn lemma_identity(a: i8) {
    }

    fn id() -> (res: i8) {
        i8::MIN
    }
}

impl Idempotent for OpMax<i8> {
    proof fn lemma_idempotent(a: i8) {
    }
}

impl Commutative for OpMax<i8> {
    proof fn lemma_commutative(a: i8, b: i8) {
    }
}

impl SemiGroup for OpMin<i8> {
    type Set = i8;

    open spec fn spec_op(lhs: i8, rhs: i8) -> i8 {
        if lhs <= rhs {
            lhs
        } else {
            rhs
        }
    }

    proof fn lemma_associative(a: i8, b: i8, c: i8) {
    }

    fn op(lhs: i8, rhs: i8) -> (res: i8) {
        if lhs <= rhs {
            lhs
        } else {
            rhs
        }
    }
}

impl Identity for OpMin<i8> {
    open spec fn spec_id() -> i8 {
        i8::MAX
    }

    proof fn lemma_identity(a: i8) {
    }

    fn id() -> (res: i8) {
        i8::MAX
    }
}

impl Idempotent for OpMin<i8> {
    proof fn lemma_idempotent(a: i8) {
    }
}

impl Commutative for OpMin<i8> {
    proof fn lemma_commutative(a: i8, b: i8) {
    }
}

impl SemiGroup for OpMax<u16> {
    type Set = u16;

    open spec fn spec_op(lhs: u16, rhs: u16) -> u16 {
        if lhs >= rhs {
            lhs
        } else {
            rhs
        }
    }

    proof fn lemma_associative(a: u16, b: u16, c: u16) {
    }

    fn op(lhs: u16, rhs: u16) -> (res: u16) {
        if lhs >= rhs {
            lhs
        } else {
            rhs
        }
    }
}

impl Identity for OpMax<u16> {
    open spec fn spec_id() -> u16 {
        u16::MIN
    }

    proof fn lemma_identity(a: u16) {
    }

    fn id() -> (res: u16) {
        u16::MIN
    }
}

impl Idempotent for OpMax<u16> {
    proof fn lemma_idempotent(a: u16) {
    }
}

impl Commutative for OpMax<u16> {
    proof fn lemma_commutative(a: u16, b: u16) {
    }
}

impl SemiGroup for OpMin<u16> {
    type Set = u16;

    open spec fn spec_op(lhs: u16, rhs: u16) -> u16 {
        if lhs <= rhs {
            lhs
        } else {
            rhs
        }
    }

    proof fn lemma_associative(a: u16, b: u16, c: u16) {
    }

    fn op(lhs: u16, rhs: u16) -> (res: u16) {
        if lhs <= rhs {
            lhs
        } else {
            rhs
        }
    }
}

impl Identity for OpMin<u16> {
    open spec fn spec_id() -> u16 {
        u16::MAX
    }

    proof fn lemma_identity(a: u16) {
    }

    fn id() -> (res: u16) {
        u16::MAX
    }
}

impl Idempotent for OpMin<u16> {
    proof fn lemma_idempotent(a: u16) {
    }
}

impl Commutative for OpMin<u16> {
    proof fn lemma_commutative(a: u16, b: u16) {
    }
}

impl SemiGroup for OpMax<i16> {
    type Set = i16;

    open spec fn spec_op(lhs: i16, rhs: i16) -> i16 {
        if lhs >= rhs {
            lhs
        } else {
            rhs
        }
    }

    proof fn lemma_associative(a: i16, b: i16, c: i16) {
    }

    fn op(lhs: i16, rhs: i16) -> (res: i16) {
        if lhs >= rhs {
            lhs
        } else {
            rhs
        }
    }
}

impl Identity for OpMax<i16> {
    open spec fn spec_id() -> i16 {
        i16::MIN
    }

    proof fn lemma_identity(a: i16) {
    }

    fn id() -> (res: i16) {
        i16::MIN
    }
}

impl Idempotent for OpMax<i16> {
    proof fn lemma_idempotent(a: i16) {
    }
}

impl Commutative for OpMax<i16> {
    proof fn lemma_commutative(a: i16, b: i16) {
    }
}

impl SemiGroup for OpMin<i16> {
    type Set = i16;

    open spec fn spec_op(lhs: i16, rhs: i16) -> i16 {
        if lhs <= rhs {
            lhs
        } else {
            rhs
        }
    }

    proof fn lemma_associative(a: i16, b: i16, c: i16) {
    }

    fn op(lhs: i16, rhs: i16) -> (res: i16) {
        if lhs <= rhs {
            lhs
        } else {
            rhs
        }
    }
}

impl Identity for OpMin<i16> {
    open spec fn spec_id() -> i16 {
        i16::MAX
    }

    proof fn lemma_identity(a: i16) {
    }

    fn id() -> (res: i16) {
        i16::MAX
    }
}

impl Idempotent for OpMin<i16> {
    proof fn lemma_idempotent(a: i16) {
    }
}

impl Commutative for OpMin<i16> {
    proof fn lemma_commutative(a: i16, b: i16) {
    }
}

impl SemiGroup for OpMax<u32> {
    type Set = u32;

    open spec fn spec_op(lhs: u32, rhs: u32) -> u32 {
        if lhs >= rhs {
            lhs
        } else {
            rhs
        }
    }

    proof fn lemma_associative(a: u32, b: u32, c: u32) {
    }

    fn op(lhs: u32, rhs: u32) -> (res: u32) {
        if lhs >= rhs {
            lhs
        } else {
            rhs
        }
    }
}

impl Identity for OpMax<u32> {
    open spec fn spec_id() -> u32 {
        u32::MIN
    }

    proof fn lemma_identity(a: u32) {
    }

    fn id() -> (res: u32) {
        u32::MIN
    }
}

impl Idempotent for OpMax<u32> {
    proof fn lemma_idempotent(a: u32) {
    }
}

impl Commutative for OpMax<u32> {
    proof fn lemma_commutative(a: u32, b: u32) {
    }
}

impl SemiGroup for OpMin<u32> {
    type Set = u32;

    open spec fn spec_op(lhs: u32, rhs: u32) -> u32 {
        if lhs <= rhs {
            lhs
        } else {
            rhs
        }
    }

    proof fn lemma_associative(a: u32, b: u32, c: u32) {
    }

    fn op(lhs: u32, rhs: u32) -> (res: u32) {
        if lhs <= rhs {
            lhs
        } else {
            rhs
        }
    }
}

impl Identity for OpMin<u32> {
    open spec fn spec_id() -> u32 {
        u32::MAX
    }

    proof fn lemma_identity(a: u32) {
    }

    fn id() -> (res: u32) {
        u32::MAX
    }
}

impl Idempotent for OpMin<u32> {
    proof fn lemma_idempotent(a: u32) {
    }
}

impl Commutative for OpMin<u32> {
    proof fn lemma_commutative(a: u32, b: u32) {
    }
}

impl SemiGroup for OpMax<i32> {
    type Set = i32;

    open spec fn spec_op(lhs: i32, rhs: i32) -> i32 {
        if lhs >= rhs {
            lhs
        } else {
            rhs
        }
    }

    proof fn lemma_associative(a: i32, b: i32, c: i32) {
    }

    fn op(lhs: i32, rhs: i32) -> (res: i32) {
        if lhs >= rhs {
            lhs
        } else {
            rhs
        }
    }
}

impl Identity for OpMax<i32> {
    open spec fn spec_id() -> i32 {
        i32::MIN
    }

    proof fn lemma_identity(a: i32) {
    }

    fn id() -> (res: i32) {
        i32::MIN
    }
}

impl Idempotent for OpMax<i32> {
    proof fn lemma_idempotent(a: i32) {
    }
}

impl Commutative for OpMax<i32> {
    proof fn lemma_commutative(a: i32, b: i32) {
    }
}

impl SemiGroup for OpMin<i32> {
    type Set = i32;

    open spec fn spec_op(lhs: i32, rhs: i32) -> i32 {
        if lhs <= rhs {
            lhs
        } else {
            rhs
        }
    }

    proof fn lemma_associative(a: i32, b: i32, c: i32) {
    }

    fn op(lhs: i32, rhs: i32) -> (res: i32) {
        if lhs <= rhs {
            lhs
        } else {
            rhs
        }
    }
}

impl Identity for OpMin<i32> {
    open spec fn spec_id() -> i32 {
        i32::MAX
    }

    proof fn lemma_identity(a: i32) {
    }

    fn id() -> (res: i32) {
        i32::MAX
    }
}

impl Idempotent for OpMin<i32> {
    proof fn lemma_idempotent(a: i32) {
    }
}

impl Commutative for OpMin<i32> {
    proof fn lemma_commutative(a: i32, b: i32) {
    }
}

impl SemiGroup for OpMax<u64> {
    type Set = u64;

    open spec fn spec_op(lhs: u64, rhs: u64) -> u64 {
        if lhs >= rhs {
            lhs
        } else {
            rhs
        }
    }

    proof fn lemma_associative(a: u64, b: u64, c: u64) {
    }

    fn op(lhs: u64, rhs: u64) -> (res: u64) {
        if lhs >= rhs {
            lhs
        } else {
            rhs
        }
    }
}

impl Identity for OpMax<u64> {
    open spec fn spec_id() -> u64 {
        u64::MIN
    }

    proof fn lemma_identity(a: u64) {
    }

    fn id() -> (res: u64) {
        u64::MIN
    }
}

impl Idempotent for OpMax<u64> {
    proof fn lemma_idempotent(a: u64) {
    }
}

impl Commutative for OpMax<u64> {
    proof fn lemma_commutative(a: u64, b: u64) {
    }
}

impl SemiGroup for OpMin<u64> {
    type Set = u64;

    open spec fn spec_op(lhs: u64, rhs: u64) -> u64 {
        if lhs <= rhs {
            lhs
        } else {
            rhs
        }
    }

    proof fn lemma_associative(a: u64, b: u64, c: u64) {
    }

    fn op(lhs: u64, rhs: u64) -> (res: u64) {
        if lhs <= rhs {
            lhs
        } else {
            rhs
        }
    }
}

impl Identity for OpMin<u64> {
    open spec fn spec_id() -> u64 {
        u64::MAX
    }

    proof fn lemma_identity(a: u64) {
    }

    fn id() -> (res: u64) {
        u64::MAX
    }
}

impl Idempotent for OpMin<u64> {
    proof fn lemma_idempotent(a: u64) {
    }
}

impl Commutative for OpMin<u64> {
    proof fn lemma_commutative(a: u64, b: u64) {
    }
}

impl SemiGroup for OpMax<i64> {
    type Set = i64;

    open spec fn spec_op(lhs: i64, rhs: i64) -> i64 {
        if lhs >= rhs {
            lhs
        } else {
            rhs
        }
    }

    proof fn lemma_associative(a: i64, b: i64, c: i64) {
    }

    fn op(lhs: i64, rhs: i64) -> (res: i64) {
        if lhs >= rhs {
            lhs
        } else {
            rhs
        }
    }
}

impl Identity for OpMax<i64> {
    open spec fn spec_id() -> i64 {
        i64::MIN
    }

    proof fn lemma_identity(a: i64) {
    }

    fn id() -> (res: i64) {
        i64::MIN
    }
}

impl Idempotent for OpMax<i64> {
    proof fn lemma_idempotent(a: i64) {
    }
}

impl Commutative for OpMax<i64> {
    proof fn lemma_commutative(a: i64, b: i64) {
    }
}

impl SemiGroup for OpMin<i64> {
    type Set = i64;

    open spec fn spec_op(lhs: i64, rhs: i64) -> i64 {
        if lhs <= rhs {
            lhs
        } else {
            rhs
        }
    }

    proof fn lemma_associative(a: i64, b: i64, c: i64) {
    }

    fn op(lhs: i64, rhs: i64) -> (res: i64) {
        if lhs <= rhs {
            lhs
        } else {
            rhs
        }
    }
}

impl Identity for OpMin<i64> {
    open spec fn spec_id() -> i64 {
        i64::MAX
    }

    proof fn lemma_identity(a: i64) {
    }

    fn id() -> (res: i64) {
        i64::MAX
    }
}

impl Idempotent for OpMin<i64> {
    proof fn lemma_idempotent(a: i64) {
    }
}

impl Commutative for OpMin<i64> {
    proof fn lemma_commutative(a: i64, b: i64) {
    }
}

impl SemiGroup for OpMax<u128> {
    type Set = u128;

    open spec fn spec_op(lhs: u128, rhs: u128) -> u128 {
        if lhs >= rhs {
            lhs
        } else {
            rhs
        }
    }

    proof fn lemma_associative(a: u128, b: u128, c: u128) {
    }

    fn op(lhs: u128, rhs: u128) -> (res: u128) {
        if lhs >= rhs {
            lhs
        } else {
            rhs
        }
    }
}

impl Identity for OpMax<u128> {
    open spec fn spec_id() -> u128 {
        u128::MIN
    }

    proof fn lemma_identity(a: u128) {
    }

    fn id() -> (res: u128) {
        u128::MIN
    }
}

impl Idempotent for OpMax<u128> {
    proof fn lemma_idempotent(a: u128) {
    }
}

impl Commutative for OpMax<u128> {
    proof fn lemma_commutative(a: u128, b: u128) {
    }
}

impl SemiGroup for OpMin<u128> {
    type Set = u128;

    open spec fn spec_op(lhs: u128, rhs: u128) -> u128 {
        if lhs <= rhs {
            lhs
        } else {
            rhs
        }
    }

    proof fn lemma_associative(a: u128, b: u128, c: u128) {
    }

    fn op(lhs: u128, rhs: u128) -> (res: u128) {
        if lhs <= rhs {
            lhs
        } else {
            rhs
        }
    }
}

impl Identity for OpMin<u128> {
    open spec fn spec_id() -> u128 {
        u128::MAX
    }

    proof fn lemma_identity(a: u128) {
    }

    fn id() -> (res: u128) {
        u128::MAX
    }
}

impl Idempotent for OpMin<u128> {
    proof fn lemma_idempotent(a: u128) {
    }
}

impl Commutative for OpMin<u128> {
    proof fn lemma_commutative(a: u128, b: u128) {
    }
}

impl SemiGroup for OpMax<i128> {
    type Set = i128;

    open spec fn spec_op(lhs: i128, rhs: i128) -> i128 {
        if lhs >= rhs {
            lhs
        } else {
            rhs
        }
    }

    proof fn lemma_associative(a: i128, b: i128, c: i128) {
    }

    fn op(lhs: i128, rhs: i128) -> (res: i128) {
        if lhs >= rhs {
            lhs
        } else {
            rhs
        }
    }
}

impl Identity for OpMax<i128> {
    open spec fn spec_id() -> i128 {
        i128::MIN
    }

    proof fn lemma_identity(a: i128) {
    }

    fn id() -> (res: i128) {
        i128::MIN
    }
}

impl Idempotent for OpMax<i128> {
    proof fn lemma_idempotent(a: i128) {
    }
}

impl Commutative for OpMax<i128> {
    proof fn lemma_commutative(a: i128, b: i128) {
    }
}

impl SemiGroup for OpMin<i128> {
    type Set = i128;

    open spec fn spec_op(lhs: i128, rhs: i128) -> i128 {
        if lhs <= rhs {
            lhs
        } else {
            rhs
        }
    }

    proof fn lemma_associative(a: i128, b: i128, c: i128) {
    }

    fn op(lhs: i128, rhs: i128) -> (res: i128) {
        if lhs <= rhs {
            lhs
        } else {
            rhs
        }
    }
}

impl Identity for OpMin<i128> {
    open spec fn spec_id() -> i128 {
        i128::MAX
    }

    proof fn lemma_identity(a: i128) {
    }

    fn id() -> (res: i128) {
        i128::MAX
    }
}

impl Idempotent for OpMin<i128> {
    proof fn lemma_idempotent(a: i128) {
    }
}

impl Commutative for OpMin<i128> {
    proof fn lemma_commutative(a: i128, b: i128) {
    }
}

impl SemiGroup for OpMax<usize> {
    type Set = usize;

    open spec fn spec_op(lhs: usize, rhs: usize) -> usize {
        if lhs >= rhs {
            lhs
        } else {
            rhs
        }
    }

    proof fn lemma_associative(a: usize, b: usize, c: usize) {
    }

    fn op(lhs: usize, rhs: usize) -> (res: usize) {
        if lhs >= rhs {
            lhs
        } else {
            rhs
        }
    }
}

impl Identity for OpMax<usize> {
    open spec fn spec_id() -> usize {
        usize::MIN
    }

    proof fn lemma_identity(a: usize) {
    }

    fn id() -> (res: usize) {
        usize::MIN
    }
}

impl Idempotent for OpMax<usize> {
    proof fn lemma_idempotent(a: usize) {
    }
}

impl Commutative for OpMax<usize> {
    proof fn lemma_commutative(a: usize, b: usize) {
    }
}

impl SemiGroup for OpMin<usize> {
    type Set = usize;

    open spec fn spec_op(lhs: usize, rhs: usize) -> usize {
        if lhs <= rhs {
            lhs
        } else {
            rhs
        }
    }

    proof fn lemma_associative(a: usize, b: usize, c: usize) {
    }

    fn op(lhs: usize, rhs: usize) -> (res: usize) {
        if lhs <= rhs {
            lhs
        } else {
            rhs
        }
    }
}

impl Identity for OpMin<usize> {
    open spec fn spec_id() -> usize {
        usize::MAX
    }

    proof fn lemma_identity(a: usize) {
    }

    fn id() -> (res: usize) {
        usize::MAX
    }
}

impl Idempotent for OpMin<usize> {
    proof fn lemma_idempotent(a: usize) {
    }
}

impl Commutative for OpMin<usize> {
    proof fn lemma_commutative(a: usize, b: usize) {
    }
}

impl SemiGroup for OpMax<isize> {
    type Set = isize;

    open spec fn spec_op(lhs: isize, rhs: isize) -> isize {
        if lhs >= rhs {
            lhs
        } else {
            rhs
        }
    }

    proof fn lemma_associative(a: isize, b: isize, c: isize) {
    }

    fn op(lhs: isize, rhs: isize) -> (res: isize) {
        if lhs >= rhs {
            lhs
        } else {
            rhs
        }
    }
}

impl Identity for OpMax<isize> {
    open spec fn spec_id() -> isize {
        isize::MIN
    }

    proof fn lemma_identity(a: isize) {
    }

    fn id() -> (res: isize) {
        isize::MIN
    }
}

impl Idempotent for OpMax<isize> {
    proof fn lemma_idempotent(a: isize) {
    }
}

impl Commutative for OpMax<isize> {
    proof fn lemma_commutative(a: isize, b: isize) {
    }
}

impl SemiGroup for OpMin<isize> {
    type Set = isize;

    open spec fn spec_op(lhs: isize, rhs: isize) -> isize {
        if lhs <= rhs {
            lhs
        } else {
            rhs
        }
    }

    proof fn lemma_associative(a: isize, b: isize, c: isize) {
    }

    fn op(lhs: isize, rhs: isize) -> (res: isize) {
        if lhs <= rhs {
            lhs
        } else {
            rhs
        }
    }
}

impl Identity for OpMin<isize> {
    open spec fn spec_id() -> isize {
        isize::MAX
    }

    proof fn lemma_identity(a: isize) {
    }

    fn id() -> (res: isize) {
        isize::MAX
    }
}

impl Idempotent for OpMin<isize> {
    proof fn lemma_idempotent(a: isize) {
    }
}

impl Commutative for OpMin<isize> {
    proof fn lemma_commutative(a: isize, b: isize) {
    }
}

/// On `bool`, where `false < true`, the smaller value is the conjunction.
/// There is no identity element here, as in every ordered type without a
/// largest value given to it.
impl SemiGroup for OpMin<bool> {
    type Set = bool;

    open spec fn spec_op(lhs: bool, rhs: bool) -> bool {
        lhs && rhs
    }

    proof fn lemma_associative(a: bool, b: bool, c: bool) {
    }

    fn op(lhs: bool, rhs: bool) -> (res: bool) {
        lhs && rhs
    }
}

impl Idempotent for OpMin<bool> {
    proof fn lemma_idempotent(a: bool) {
    }
}

impl Commutative for OpMin<bool> {
    proof fn lemma_commutative(a: bool, b: bool) {
    }
}

/// Characters are ordered by their code points.
impl SemiGroup for OpMin<char> {
    type Set = char;

    open spec fn spec_op(lhs: char, rhs: char) -> char {
        if (lhs as u32) <= (rhs as u32) {
            lhs
        } else {
            rhs
        }
    }

    proof fn lemma_associative(a: char, b: char, c: char) {
    }

    fn op(lhs: char, rhs: char) -> (res: char) {
        if (lhs as u32) <= (rhs as u32) {
            lhs
        } else {
            rhs
        }
    }
}

impl Idempotent for OpMin<char> {
    proof fn lemma_idempotent(a: char) {
    }
}

/// `OpMax<u8>` gives the larger of its arguments.
pub proof fn lemma_op_max_u8(a: u8, b: u8)
    ensures
        OpMax::<u8>::spec_op(a, b) >= a,
        OpMax::<u8>::spec_op(a, b) >= b,
        OpMax::<u8>::spec_op(a, b) == a || OpMax::<u8>::spec_op(a, b) == b,
{
}

/// `OpMin<u8>` gives the smaller of its arguments.
pub proof fn lemma_op_min_u8(a: u8, b: u8)
    ensures
        OpMin::<u8>::spec_op(a, b) <= a,
        OpMin::<u8>::spec_op(a, b) <= b,
        OpMin::<u8>::spec_op(a, b) == a || OpMin::<u8>::spec_op(a, b) == b,
{
}

/// `OpMax<i8>` gives the larger of its arguments.
pub proof fn lemma_op_max_i8(a: i8, b: i8)
    ensures
        OpMax::<i8>::spec_op(a, b) >= a,
        OpMax::<i8>::spec_op(a, b) >= b,
        OpMax::<i8>::spec_op(a, b) == a || OpMax::<i8>::spec_op(a, b) == b,
{
}

/// `OpMin<i8>` gives the smaller of its arguments.
pub proof fn lemma_op_min_i8(a: i8, b: i8)
    ensures
        OpMin::<i8>::spec_op(a, b) <= a,
        OpMin::<i8>::spec_op(a, b) <= b,
        OpMin::<i8>::spec_op(a, b) == a || OpMin::<i8>::spec_op(a, b) == b,
{
}

/// `OpMax<u16>` gives the larger of its arguments.
pub proof fn lemma_op_max_u16(a: u16, b: u16)
    ensures
        OpMax::<u16>::spec_op(a, b) >= a,
        OpMax::<u16>::spec_op(a, b) >= b,
        OpMax::<u16>::spec_op(a, b) == a || OpMax::<u16>::spec_op(a, b) == b,
{
}

/// `OpMin<u16>` gives the smaller of its arguments.
pub proof fn lemma_op_min_u16(a: u16, b: u16)
    ensures
        OpMin::<u16>::spec_op(a, b) <= a,
        OpMin::<u16>::spec_op(a, b) <= b,
        OpMin::<u16>::spec_op(a, b) == a || OpMin::<u16>::spec_op(a, b) == b,
{
}

/// `OpMax<i16>` gives the larger of its arguments.
pub proof fn lemma_op_max_i16(a: i16, b: i16)
    ensures
        OpMax::<i16>::spec_op(a, b) >= a,
        OpMax::<i16>::spec_op(a, b) >= b,
        OpMax::<i16>::spec_op(a, b) == a || OpMax::<i16>::spec_op(a, b) == b,
{
}

/// `OpMin<i16>` gives the smaller of its arguments.
pub proof fn lemma_op_min_i16(a: i16, b: i16)
    ensures
        OpMin::<i16>::spec_op(a, b) <= a,
        OpMin::<i16>::spec_op(a, b) <= b,
        OpMin::<i16>::spec_op(a, b) == a || OpMin::<i16>::spec_op(a, b) == b,
{
}

/// `OpMax<u32>` gives the larger of its arguments.
pub proof fn lemma_op_max_u32(a: u32, b: u32)
    ensures
        OpMax::<u32>::spec_op(a, b) >= a,
        OpMax::<u32>::spec_op(a, b) >= b,
        OpMax::<u32>::spec_op(a, b) == a || OpMax::<u32>::spec_op(a, b) == b,
{
}

/// `OpMin<u32>` gives the smaller of its arguments.
pub proof fn lemma_op_min_u32(a: u32, b: u32)
    ensures
        OpMin::<u32>::spec_op(a, b) <= a,
        OpMin::<u32>::spec_op(a, b) <= b,
        OpMin::<u32>::spec_op(a, b) == a || OpMin::<u32>::spec_op(a, b) == b,
{
}

/// `OpMax<i32>` gives the larger of its arguments.
pub proof fn lemma_op_max_i32(a: i32, b: i32)
    ensures
        OpMax::<i32>::spec_op(a, b) >= a,
        OpMax::<i32>::spec_op(a, b) >= b,
        OpMax::<i32>::spec_op(a, b) == a || OpMax::<i32>::spec_op(a, b) == b,
{
}

/// `OpMin<i32>` gives the smaller of its arguments.
pub proof fn lemma_op_min_i32(a: i32, b: i32)
    ensures
        OpMin::<i32>::spec_op(a, b) <= a,
        OpMin::<i32>::spec_op(a, b) <= b,
        OpMin::<i32>::spec_op(a, b) == a || OpMin::<i32>::spec_op(a, b) == b,
{
}

/// `OpMax<u64>` gives the larger of its arguments.
pub proof fn lemma_op_max_u64(a: u64, b: u64)
    ensures
        OpMax::<u64>::spec_op(a, b) >= a,
        OpMax::<u64>::spec_op(a, b) >= b,
        OpMax::<u64>::spec_op(a, b) == a || OpMax::<u64>::spec_op(a, b) == b,
{
}

/// `OpMin<u64>` gives the smaller of its arguments.
pub proof fn lemma_op_min_u64(a: u64, b: u64)
    ensures
        OpMin::<u64>::spec_op(a, b) <= a,
        OpMin::<u64>::spec_op(a, b) <= b,
        OpMin::<u64>::spec_op(a, b) == a || OpMin::<u64>::spec_op(a, b) == b,
{
}

/// `OpMax<i64>` gives the larger of its arguments.
pub proof fn lemma_op_max_i64(a: i64, b: i64)
    ensures
        OpMax::<i64>::spec_op(a, b) >= a,
        OpMax::<i64>::spec_op(a, b) >= b,
        OpMax::<i64>::spec_op(a, b) == a || OpMax::<i64>::spec_op(a, b) == b,
{
}

/// `OpMin<i64>` gives the smaller of its arguments.
pub proof fn lemma_op_min_i64(a: i64, b: i64)
    ensures
        OpMin::<i64>::spec_op(a, b) <= a,
        OpMin::<i64>::spec_op(a, b) <= b,
        OpMin::<i64>::spec_op(a, b) == a || OpMin::<i64>::spec_op(a, b) == b,
{
}

/// `OpMax<u128>` gives the larger of its arguments.
pub proof fn lemma_op_max_u128(a: u128, b: u128)
    ensures
        OpMax::<u128>::spec_op(a, b) >= a,
        OpMax::<u128>::spec_op(a, b) >= b,
        OpMax::<u128>::spec_op(a, b) == a || OpMax::<u128>::spec_op(a, b) == b,
{
}

/// `OpMin<u128>` gives the smaller of its arguments.
pub proof fn lemma_op_min_u128(a: u128, b: u128)
    ensures
        OpMin::<u128>::spec_op(a, b) <= a,
        OpMin::<u128>::spec_op(a, b) <= b,
        OpMin::<u128>::spec_op(a, b) == a || OpMin::<u128>::spec_op(a, b) == b,
{
}

/// `OpMax<i128>` gives the larger of its arguments.
pub proof fn lemma_op_max_i128(a: i128, b: i128)
    ensures
        OpMax::<i128>::spec_op(a, b) >= a,
        OpMax::<i128>::spec_op(a, b) >= b,
        OpMax::<i128>::spec_op(a, b) == a || OpMax::<i128>::spec_op(a, b) == b,
{
}

/// `OpMin<i128>` gives the smaller of its arguments.
pub proof fn lemma_op_min_i128(a: i128, b: i128)
    ensures
        OpMin::<i128>::spec_op(a, b) <= a,
        OpMin::<i128>::spec_op(a, b) <= b,
        OpMin::<i128>::spec_op(a, b) == a || OpMin::<i128>::spec_op(a, b) == b,
{
}

/// `OpMax<usize>` gives the larger of its arguments.
pub proof fn lemma_op_max_usize(a: usize, b: usize)
    ensures
        OpMax::<usize>::spec_op(a, b) >= a,
        OpMax::<usize>::spec_op(a, b) >= b,
        OpMax::<usize>::spec_op(a, b) == a || OpMax::<usize>::spec_op(a, b) == b,
{
}

/// `OpMin<usize>` gives the smaller of its arguments.
pub proof fn lemma_op_min_usize(a: usize, b: usize)
    ensures
        OpMin::<usize>::spec_op(a, b) <= a,
        OpMin::<usize>::spec_op(a, b) <= b,
        OpMin::<usize>::spec_op(a, b) == a || OpMin::<usize>::spec_op(a, b) == b,
{
}

/// `OpMax<isize>` gives the larger of its arguments.
pub proof fn lemma_op_max_isize(a: isize, b: isize)
    ensures
        OpMax::<isize>::spec_op(a, b) >= a,
        OpMax::<isize>::spec_op(a, b) >= b,
        OpMax::<isize>::spec_op(a, b) == a || OpMax::<isize>::spec_op(a, b) == b,
{
}

/// `OpMin<isize>` gives the smaller of its arguments.
pub proof fn lemma_op_min_isize(a: isize, b: isize)
    ensures
        OpMin::<isize>::spec_op(a, b) <= a,
        OpMin::<isize>::spec_op(a, b) <= b,
        OpMin::<isize>::spec_op(a, b) == a || OpMin::<isize>::spec_op(a, b) == b,
{
}

/// `OpMin<bool>` gives the smaller of its arguments, with `false < true`:
/// the result is true only if both are, and it is one of them.
pub proof fn lemma_op_min_bool(a: bool, b: bool)
    ensures
        OpMin::<bool>::spec_op(a, b) ==> a,
        OpMin::<bool>::spec_op(a, b) ==> b,
        OpMin::<bool>::spec_op(a, b) == a || OpMin::<bool>::spec_op(a, b) == b,
{
}

/// `OpMin<char>` gives the smaller of its arguments by code point.
pub proof fn lemma_op_min_char(a: char, b: char)
    ensures
        OpMin::<char>::spec_op(a, b) as u32 <= a as u32,
        OpMin::<char>::spec_op(a, b) as u32 <= b as u32,
        OpMin::<char>::spec_op(a, b) == a || OpMin::<char>::spec_op(a, b) == b,
{
}

} // verus!
