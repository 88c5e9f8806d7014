//! Addition of integers, wrapping at the bounds of the type.
use core::marker::PhantomData;
use vstd::prelude::*;
use crate::traits::{Commutative, Identity, Inverse, SemiGroup};
use crate::ops::affine::{lemma_wrap_u8, lemma_wrap_i8, lemma_wrap_u16, lemma_wrap_i16, lemma_wrap_u32, lemma_wrap_i32, lemma_wrap_u64, lemma_wrap_i64, lemma_wrap_u128, lemma_wrap_i128, lemma_wrap_usize, lemma_wrap_isize};

verus! {

/// Addition, wrapping at the bounds of the integer type.
#[derive(Debug)]
pub struct OpAdd<T>(PhantomData<T>);

impl<T> Clone for OpAdd<T> {
    fn clone(&self) -> (res: Self)
        ensures
            res == *self,
    {
        *self
    }
}

impl<T> Copy for OpAdd<T> {
}

impl SemiGroup for OpAdd<u8> {
    type Set = u8;

    open spec fn spec_op(lhs: u8, rhs: u8) -> u8 {
        vstd::wrapping::u8_specs::wrapping_add(lhs, rhs)
    }

    proof fn lemma_associative(a: u8, b: u8, c: u8) {
    }

    fn op(lhs: u8, rhs: u8) -> (res: u8) {
        lhs.wrapping_add(rhs)
    }
}

impl Identity for OpAdd<u8> {
    open spec fn spec_id() -> u8 {
        0
    }

    proof fn lemma_identity(a: u8) {
    }

    fn id() -> (res: u8) {
        0
    }
}

impl Commutative for OpAdd<u8> {
    proof fn lemma_commutative(a: u8, b: u8) {
    }
}

impl SemiGroup for OpAdd<i8> {
    type Set = i8;

    open spec fn spec_op(lhs: i8, rhs: i8) -> i8 {
        vstd::wrapping::i8_specs::wrapping_add(lhs, rhs)
    }

    proof fn lemma_associative(a: i8, b: i8, c: i8) {
    }

    fn op(lhs: i8, rhs: i8) -> (res: i8) {
        lhs.wrapping_add(rhs)
    }
}

impl Identity for OpAdd<i8> {
    open spec fn spec_id() -> i8 {
        0
    }

    proof fn lemma_identity(a: i8) {
    }

    fn id() -> (res: i8) {
        0
    }
}

impl Commutative for OpAdd<i8> {
    proof fn lemma_commutative(a: i8, b: i8) {
    }
}

impl Inverse for OpAdd<i8> {
    open spec fn spec_inv(x: i8) -> i8 {
        vstd::wrapping::i8_specs::wrapping_sub(0, x)
    }

    proof fn lemma_inverse(x: i8, y: i8) {
    }

    fn inv(x: i8) -> (res: i8) {
        0i8.wrapping_sub(x)
    }
}

impl SemiGroup for OpAdd<u16> {
    type Set = u16;

    open spec fn spec_op(lhs: u16, rhs: u16) -> u16 {
        vstd::wrapping::u16_specs::wrapping_add(lhs, rhs)
    }

    proof fn lemma_associative(a: u16, b: u16, c: u16) {
    }

    fn op(lhs: u16, rhs: u16) -> (res: u16) {
        lhs.wrapping_add(rhs)
    }
}

impl Identity for OpAdd<u16> {
    open spec fn spec_id() -> u16 {
        0
    }

    proof fn lemma_identity(a: u16) {
    }

    fn id() -> (res: u16) {
        0
    }
}

impl Commutative for OpAdd<u16> {
    proof fn lemma_commutative(a: u16, b: u16) {
    }
}

impl SemiGroup for OpAdd<i16> {
    type Set = i16;

    open spec fn spec_op(lhs: i16, rhs: i16) -> i16 {
        vstd::wrapping::i16_specs::wrapping_add(lhs, rhs)
    }

    proof fn lemma_associative(a: i16, b: i16, c: i16) {
    }

    fn op(lhs: i16, rhs: i16) -> (res: i16) {
        lhs.wrapping_add(rhs)
    }
}

impl Identity for OpAdd<i16> {
    open spec fn spec_id() -> i16 {
        0
    }

    proof fn lemma_identity(a: i16) {
    }

    fn id() -> (res: i16) {
        0
    }
}

impl Commutative for OpAdd<i16> {
    proof fn lemma_commutative(a: i16, b: i16) {
    }
}

impl Inverse for OpAdd<i16> {
    open spec fn spec_inv(x: i16) -> i16 {
        vstd::wrapping::i16_specs::wrapping_sub(0, x)
    }

    proof fn lemma_inverse(x: i16, y: i16) {
    }

    fn inv(x: i16) -> (res: i16) {
        0i16.wrapping_sub(x)
    }
}

impl SemiGroup for OpAdd<u32> {
    type Set = u32;

    open spec fn spec_op(lhs: u32, rhs: u32) -> u32 {
        vstd::wrapping::u32_specs::wrapping_add(lhs, rhs)
    }

    proof fn lemma_associative(a: u32, b: u32, c: u32) {
    }

    fn op(lhs: u32, rhs: u32) -> (res: u32) {
        lhs.wrapping_add(rhs)
    }
}

impl Identity for OpAdd<u32> {
    open spec fn spec_id() -> u32 {
        0
    }

    proof fn lemma_identity(a: u32) {
    }

    fn id() -> (res: u32) {
        0
    }
}

impl Commutative for OpAdd<u32> {
    proof fn lemma_commutative(a: u32, b: u32) {
    }
}

impl SemiGroup for OpAdd<i32> {
    type Set = i32;

    open spec fn spec_op(lhs: i32, rhs: i32) -> i32 {
        vstd::wrapping::i32_specs::wrapping_add(lhs, rhs)
    }

    proof fn lemma_associative(a: i32, b: i32, c: i32) {
    }

    fn op(lhs: i32, rhs: i32) -> (res: i32) {
        lhs.wrapping_add(rhs)
    }
}

impl Identity for OpAdd<i32> {
    open spec fn spec_id() -> i32 {
        0
    }

    proof fn lemma_identity(a: i32) {
    }

    fn id() -> (res: i32) {
        0
    }
}

impl Commutative for OpAdd<i32> {
    proof fn lemma_commutative(a: i32, b: i32) {
    }
}

impl Inverse for OpAdd<i32> {
    open spec fn spec_inv(x: i32) -> i32 {
        vstd::wrapping::i32_specs::wrapping_sub(0, x)
    }

    proof fn lemma_inverse(x: i32, y: i32) {
    }

    fn inv(x: i32) -> (res: i32) {
        0i32.wrapping_sub(x)
    }
}

impl SemiGroup for OpAdd<u64> {
    type Set = u64;

    open spec fn spec_op(lhs: u64, rhs: u64) -> u64 {
        vstd::wrapping::u64_specs::wrapping_add(lhs, rhs)
    }

    proof fn lemma_associative(a: u64, b: u64, c: u64) {
    }

    fn op(lhs: u64, rhs: u64) -> (res: u64) {
        lhs.wrapping_add(rhs)
    }
}

impl Identity for OpAdd<u64> {
    open spec fn spec_id() -> u64 {
        0
    }

    proof fn lemma_identity(a: u64) {
    }

    fn id() -> (res: u64) {
        0
    }
}

impl Commutative for OpAdd<u64> {
    proof fn lemma_commutative(a: u64, b: u64) {
    }
}

impl SemiGroup for OpAdd<i64> {
    type Set = i64;

    open spec fn spec_op(lhs: i64, rhs: i64) -> i64 {
        vstd::wrapping::i64_specs::wrapping_add(lhs, rhs)
    }

    proof fn lemma_associative(a: i64, b: i64, c: i64) {
    }

    fn op(lhs: i64, rhs: i64) -> (res: i64) {
        lhs.wrapping_add(rhs)
    }
}

impl Identity for OpAdd<i64> {
    open spec fn spec_id() -> i64 {
        0
    }

    proof fn lemma_identity(a: i64) {
    }

    fn id() -> (res: i64) {
        0
    }
}

impl Commutative for OpAdd<i64> {
    proof fn lemma_commutative(a: i64, b: i64) {
    }
}

impl Inverse for OpAdd<i64> {
    open spec fn spec_inv(x: i64) -> i64 {
        vstd::wrapping::i64_specs::wrapping_sub(0, x)
    }

    proof fn lemma_inverse(x: i64, y: i64) {
    }

    fn inv(x: i64) -> (res: i64) {
        0i64.wrapping_sub(x)
    }
}

impl SemiGroup for OpAdd<u128> {
    type Set = u128;

    open spec fn spec_op(lhs: u128, rhs: u128) -> u128 {
        vstd::wrapping::u128_specs::wrapping_add(lhs, rhs)
    }

    proof fn lemma_associative(a: u128, b: u128, c: u128) {
    }

    fn op(lhs: u128, rhs: u128) -> (res: u128) {
        lhs.wrapping_add(rhs)
    }
}

impl Identity for OpAdd<u128> {
    open spec fn spec_id() -> u128 {
        0
    }

    proof fn lemma_identity(a: u128) {
    }

    fn id() -> (res: u128) {
        0
    }
}

impl Commutative for OpAdd<u128> {
    proof fn lemma_commutative(a: u128, b: u128) {
    }
}

impl SemiGroup for OpAdd<i128> {
    type Set = i128;

    open spec fn spec_op(lhs: i128, rhs: i128) -> i128 {
        vstd::wrapping::i128_specs::wrapping_add(lhs, rhs)
    }

    proof fn lemma_associative(a: i128, b: i128, c: i128) {
    }

    fn op(lhs: i128, rhs: i128) -> (res: i128) {
        lhs.wrapping_add(rhs)
    }
}

impl Identity for OpAdd<i128> {
    open spec fn spec_id() -> i128 {
        0
    }

    proof fn lemma_identity(a: i128) {
    }

    fn id() -> (res: i128) {
        0
    }
}

impl Commutative for OpAdd<i128> {
    proof fn lemma_commutative(a: i128, b: i128) {
    }
}

impl Inverse for OpAdd<i128> {
    open spec fn spec_inv(x: i128) -> i128 {
        vstd::wrapping::i128_specs::wrapping_sub(0, x)
    }

    proof fn lemma_inverse(x: i128, y: i128) {
    }

    fn inv(x: i128) -> (res: i128) {
        0i128.wrapping_sub(x)
    }
}

impl SemiGroup for OpAdd<usize> {
    type Set = usize;

    open spec fn spec_op(lhs: usize, rhs: usize) -> usize {
        vstd::wrapping::usize_specs::wrapping_add(lhs, rhs)
    }

    proof fn lemma_associative(a: usize, b: usize, c: usize) {
    }

    fn op(lhs: usize, rhs: usize) -> (res: usize) {
        lhs.wrapping_add(rhs)
    }
}

impl Identity for OpAdd<usize> {
    open spec fn spec_id() -> usize {
        0
    }

    proof fn lemma_identity(a: usize) {
    }

    fn id() -> (res: usize) {
        0
    }
}

impl Commutative for OpAdd<usize> {
    proof fn lemma_commutative(a: usize, b: usize) {
    }
}

impl SemiGroup for OpAdd<isize> {
    type Set = isize;

    open spec fn spec_op(lhs: isize, rhs: isize) -> isize {
        vstd::wrapping::isize_specs::wrapping_add(lhs, rhs)
    }

    proof fn lemma_associative(a: isize, b: isize, c: isize) {
    }

    fn op(lhs: isize, rhs: isize) -> (res: isize) {
        lhs.wrapping_add(rhs)
    }
}

impl Identity for OpAdd<isize> {
    open spec fn spec_id() -> isize {
        0
    }

    proof fn lemma_identity(a: isize) {
    }

    fn id() -> (res: isize) {
        0
    }
}

impl Commutative for OpAdd<isize> {
    proof fn lemma_commutative(a: isize, b: isize) {
    }
}

impl Inverse for OpAdd<isize> {
    open spec fn spec_inv(x: isize) -> isize {
        vstd::wrapping::isize_specs::wrapping_sub(0, x)
    }

    proof fn lemma_inverse(x: isize, y: isize) {
    }

    fn inv(x: isize) -> (res: isize) {
        0isize.wrapping_sub(x)
    }
}

/// `OpAdd<u8>` adds with wrap-around: the result is the integer sum
/// reduced modulo 2^8.
pub proof fn lemma_op_add_u8(a: u8, b: u8)
    ensures
        OpAdd::<u8>::spec_op(a, b) as int == (a + b) % 0x100,
{
    lemma_wrap_u8(a, b);
    vstd::arithmetic::div_mod::lemma_small_mod(OpAdd::<u8>::spec_op(a, b) as nat, 0x100 as nat);
}

/// `OpAdd<i8>` adds with wrap-around: the result is congruent to the
/// integer sum modulo 2^8, which fixes it among the values of `i8`.
pub proof fn lemma_op_add_i8(a: i8, b: i8)
    ensures
        OpAdd::<i8>::spec_op(a, b) as int % 0x100 == (a + b) % 0x100,
{
    lemma_wrap_i8(a, b);
}

/// `OpAdd<u16>` adds with wrap-around: the result is the integer sum
/// reduced modulo 2^16.
pub proof fn lemma_op_add_u16(a: u16, b: u16)
    ensures
        OpAdd::<u16>::spec_op(a, b) as int == (a + b) % 0x1_0000,
{
    lemma_wrap_u16(a, b);
    vstd::arithmetic::div_mod::lemma_small_mod(OpAdd::<u16>::spec_op(a, b) as nat, 0x1_0000 as nat);
}

/// `OpAdd<i16>` adds with wrap-around: the result is congruent to the
/// integer sum modulo 2^16, which fixes it among the values of `i16`.
pub proof fn lemma_op_add_i16(a: i16, b: i16)
    ensures
        OpAdd::<i16>::spec_op(a, b) as int % 0x1_0000 == (a + b) % 0x1_0000,
{
    lemma_wrap_i16(a, b);
}

/// `OpAdd<u32>` adds with wrap-around: the result is the integer sum
/// reduced modulo 2^32.
pub proof fn lemma_op_add_u32(a: u32, b: u32)
    ensures
        OpAdd::<u32>::spec_op(a, b) as int == (a + b) % 0x1_0000_0000,
{
    lemma_wrap_u32(a, b);
    vstd::arithmetic::div_mod::lemma_small_mod(OpAdd::<u32>::spec_op(a, b) as nat, 0x1_0000_0000 as nat);
}

/// `OpAdd<i32>` adds with wrap-around: the result is congruent to the
/// integer sum modulo 2^32, which fixes it among the values of `i32`.
pub proof fn lemma_op_add_i32(a: i32, b: i32)
    ensures
        OpAdd::<i32>::spec_op(a, b) as int % 0x1_0000_0000 == (a + b) % 0x1_0000_0000,
{
    lemma_wrap_i32(a, b);
}

/// `OpAdd<u64>` adds with wrap-around: the result is the integer sum
/// reduced modulo 2^64.
pub proof fn lemma_op_add_u64(a: u64, b: u64)
    ensures
        OpAdd::<u64>::spec_op(a, b) as int == (a + b) % 0x1_0000_0000_0000_0000,
{
    lemma_wrap_u64(a, b);
    vstd::arithmetic::div_mod::lemma_small_mod(OpAdd::<u64>::spec_op(a, b) as nat, 0x1_0000_0000_0000_0000 as nat);
}

/// `OpAdd<i64>` adds with wrap-around: the result is congruent to the
/// integer sum modulo 2^64, which fixes it among the values of `i64`.
pub proof fn lemma_op_add_i64(a: i64, b: i64)
    ensures
        OpAdd::<i64>::spec_op(a, b) as int % 0x1_0000_0000_0000_0000 == (a + b) % 0x1_0000_0000_0000_0000,
{
    lemma_wrap_i64(a, b);
}

/// `OpAdd<u128>` adds with wrap-around: the result is the integer sum
/// reduced modulo 2^128.
pub proof fn lemma_op_add_u128(a: u128, b: u128)
    ensures
        OpAdd::<u128>::spec_op(a, b) as int == (a + b) % 0x1_0000_0000_0000_0000_0000_0000_0000_0000int,
{
    lemma_wrap_u128(a, b);
    vstd::arithmetic::div_mod::lemma_small_mod(OpAdd::<u128>::spec_op(a, b) as nat, 0x1_0000_0000_0000_0000_0000_0000_0000_0000int as nat);
}

/// `OpAdd<i128>` adds with wrap-around: the result is congruent to the
/// integer sum modulo 2^128, which fixes it among the values of `i128`.
pub proof fn lemma_op_add_i128(a: i128, b: i128)
    ensures
        OpAdd::<i128>::spec_op(a, b) as int % 0x1_0000_0000_0000_0000_0000_0000_0000_0000int == (a + b) % 0x1_0000_0000_0000_0000_0000_0000_0000_0000int,
{
    lemma_wrap_i128(a, b);
}

/// `OpAdd<usize>` adds with wrap-around: the result is the integer sum
/// reduced modulo 2^usize::BITS.
pub proof fn lemma_op_add_usize(a: usize, b: usize)
    ensures
        OpAdd::<usize>::spec_op(a, b) as int == (a + b) % (usize::MAX - usize::MIN + 1),
{
    lemma_wrap_usize(a, b);
    vstd::arithmetic::div_mod::lemma_small_mod(OpAdd::<usize>::spec_op(a, b) as nat, (usize::MAX - usize::MIN + 1) as nat);
}

/// `OpAdd<isize>` adds with wrap-around: the result is congruent to the
/// integer sum modulo 2^usize::BITS, which fixes it among the values of `isize`.
pub proof fn lemma_op_add_isize(a: isize, b: isize)
    ensures
        OpAdd::<isize>::spec_op(a, b) as int % (usize::MAX - usize::MIN + 1) == (a + b) % (usize::MAX - usize::MIN + 1),
{
    lemma_wrap_isize(a, b);
}

} // verus!
