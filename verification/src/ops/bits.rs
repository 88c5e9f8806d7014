//! Bitwise and, or and exclusive or of integers.
use core::marker::PhantomData;
use vstd::prelude::*;
use crate::traits::{Commutative, Idempotent, Identity, Inverse, SemiGroup};

verus! {

/// Bitwise and.
pub struct OpBitAnd<T>(PhantomData<T>);

/// Bitwise or.
pub struct OpBitOr<T>(PhantomData<T>);

/// Bitwise exclusive or.
pub struct OpBitXor<T>(PhantomData<T>);

/// The laws of the bitwise operations on `u8`.
proof fn lemma_bits_u8(a: u8, b: u8, c: u8)
    by (bit_vector)
    ensures
        (a & b) & c == a & (b & c),
        a & b == b & a,
        a & a == a,
        !0u8 & a == a,
        a & !0u8 == a,
        (a | b) | c == a | (b | c),
        a | b == b | a,
        a | a == a,
        0u8 | a == a,
        a | 0u8 == a,
        (a ^ b) ^ c == a ^ (b ^ c),
        a ^ b == b ^ a,
        0u8 ^ a == a,
        a ^ 0u8 == a,
        a ^ a == 0u8,
{
}

impl SemiGroup for OpBitAnd<u8> {
    type Set = u8;

    open spec fn spec_op(lhs: u8, rhs: u8) -> u8 {
        lhs & rhs
    }

    proof fn lemma_associative(a: u8, b: u8, c: u8) {
        lemma_bits_u8(a, b, c);
    }

    fn op(lhs: u8, rhs: u8) -> (res: u8) {
        lhs & rhs
    }
}

impl Identity for OpBitAnd<u8> {
    open spec fn spec_id() -> u8 {
        !0u8
    }

    proof fn lemma_identity(a: u8) {
        lemma_bits_u8(a, a, a);
    }

    fn id() -> (res: u8) {
        !0
    }
}

impl Idempotent for OpBitAnd<u8> {
    proof fn lemma_idempotent(a: u8) {
        lemma_bits_u8(a, a, a);
    }
}

impl Commutative for OpBitAnd<u8> {
    proof fn lemma_commutative(a: u8, b: u8) {
        lemma_bits_u8(a, b, b);
    }
}

impl SemiGroup for OpBitOr<u8> {
    type Set = u8;

    open spec fn spec_op(lhs: u8, rhs: u8) -> u8 {
        lhs | rhs
    }

    proof fn lemma_associative(a: u8, b: u8, c: u8) {
        lemma_bits_u8(a, b, c);
    }

    fn op(lhs: u8, rhs: u8) -> (res: u8) {
        lhs | rhs
    }
}

impl Identity for OpBitOr<u8> {
    open spec fn spec_id() -> u8 {
        0
    }

    proof fn lemma_identity(a: u8) {
        lemma_bits_u8(a, a, a);
    }

    fn id() -> (res: u8) {
        0
    }
}

impl Idempotent for OpBitOr<u8> {
    proof fn lemma_idempotent(a: u8) {
        lemma_bits_u8(a, a, a);
    }
}

impl Commutative for OpBitOr<u8> {
    proof fn lemma_commutative(a: u8, b: u8) {
        lemma_bits_u8(a, b, b);
    }
}

impl SemiGroup for OpBitXor<u8> {
    type Set = u8;

    open spec fn spec_op(lhs: u8, rhs: u8) -> u8 {
        lhs ^ rhs
    }

    proof fn lemma_associative(a: u8, b: u8, c: u8) {
        lemma_bits_u8(a, b, c);
    }

    fn op(lhs: u8, rhs: u8) -> (res: u8) {
        lhs ^ rhs
    }
}

impl Identity for OpBitXor<u8> {
    open spec fn spec_id() -> u8 {
        0
    }

    proof fn lemma_identity(a: u8) {
        lemma_bits_u8(a, a, a);
    }

    fn id() -> (res: u8) {
        0
    }
}

impl Inverse for OpBitXor<u8> {
    open spec fn spec_inv(x: u8) -> u8 {
        x
    }

    proof fn lemma_inverse(x: u8, y: u8) {
        lemma_bits_u8(x, x, x);
        lemma_bits_u8(y, y, y);
    }

    fn inv(x: u8) -> (res: u8) {
        x
    }
}

impl Commutative for OpBitXor<u8> {
    proof fn lemma_commutative(a: u8, b: u8) {
        lemma_bits_u8(a, b, b);
    }
}

/// The laws of the bitwise operations on `i8`.
proof fn lemma_bits_i8(a: i8, b: i8, c: i8)
    by (bit_vector)
    ensures
        (a & b) & c == a & (b & c),
        a & b == b & a,
        a & a == a,
        !0i8 & a == a,
        a & !0i8 == a,
        (a | b) | c == a | (b | c),
        a | b == b | a,
        a | a == a,
        0i8 | a == a,
        a | 0i8 == a,
        (a ^ b) ^ c == a ^ (b ^ c),
        a ^ b == b ^ a,
        0i8 ^ a == a,
        a ^ 0i8 == a,
        a ^ a == 0i8,
{
}

impl SemiGroup for OpBitAnd<i8> {
    type Set = i8;

    open spec fn spec_op(lhs: i8, rhs: i8) -> i8 {
        lhs & rhs
    }

    proof fn lemma_associative(a: i8, b: i8, c: i8) {
        lemma_bits_i8(a, b, c);
    }

    fn op(lhs: i8, rhs: i8) -> (res: i8) {
        lhs & rhs
    }
}

impl Identity for OpBitAnd<i8> {
    open spec fn spec_id() -> i8 {
        !0i8
    }

    proof fn lemma_identity(a: i8) {
        lemma_bits_i8(a, a, a);
    }

    fn id() -> (res: i8) {
        !0
    }
}

impl Idempotent for OpBitAnd<i8> {
    proof fn lemma_idempotent(a: i8) {
        lemma_bits_i8(a, a, a);
    }
}

impl Commutative for OpBitAnd<i8> {
    proof fn lemma_commutative(a: i8, b: i8) {
        lemma_bits_i8(a, b, b);
    }
}

impl SemiGroup for OpBitOr<i8> {
    type Set = i8;

    open spec fn spec_op(lhs: i8, rhs: i8) -> i8 {
        lhs | rhs
    }

    proof fn lemma_associative(a: i8, b: i8, c: i8) {
        lemma_bits_i8(a, b, c);
    }

    fn op(lhs: i8, rhs: i8) -> (res: i8) {
        lhs | rhs
    }
}

impl Identity for OpBitOr<i8> {
    open spec fn spec_id() -> i8 {
        0
    }

    proof fn lemma_identity(a: i8) {
        lemma_bits_i8(a, a, a);
    }

    fn id() -> (res: i8) {
        0
    }
}

impl Idempotent for OpBitOr<i8> {
    proof fn lemma_idempotent(a: i8) {
        lemma_bits_i8(a, a, a);
    }
}

impl Commutative for OpBitOr<i8> {
    proof fn lemma_commutative(a: i8, b: i8) {
        lemma_bits_i8(a, b, b);
    }
}

impl SemiGroup for OpBitXor<i8> {
    type Set = i8;

    open spec fn spec_op(lhs: i8, rhs: i8) -> i8 {
        lhs ^ rhs
    }

    proof fn lemma_associative(a: i8, b: i8, c: i8) {
        lemma_bits_i8(a, b, c);
    }

    fn op(lhs: i8, rhs: i8) -> (res: i8) {
        lhs ^ rhs
    }
}

impl Identity for OpBitXor<i8> {
    open spec fn spec_id() -> i8 {
        0
    }

    proof fn lemma_identity(a: i8) {
        lemma_bits_i8(a, a, a);
    }

    fn id() -> (res: i8) {
        0
    }
}

impl Inverse for OpBitXor<i8> {
    open spec fn spec_inv(x: i8) -> i8 {
        x
    }

    proof fn lemma_inverse(x: i8, y: i8) {
        lemma_bits_i8(x, x, x);
        lemma_bits_i8(y, y, y);
    }

    fn inv(x: i8) -> (res: i8) {
        x
    }
}

impl Commutative for OpBitXor<i8> {
    proof fn lemma_commutative(a: i8, b: i8) {
        lemma_bits_i8(a, b, b);
    }
}

/// The laws of the bitwise operations on `u16`.
proof fn lemma_bits_u16(a: u16, b: u16, c: u16)
    by (bit_vector)
    ensures
        (a & b) & c == a & (b & c),
        a & b == b & a,
        a & a == a,
        !0u16 & a == a,
        a & !0u16 == a,
        (a | b) | c == a | (b | c),
        a | b == b | a,
        a | a == a,
        0u16 | a == a,
        a | 0u16 == a,
        (a ^ b) ^ c == a ^ (b ^ c),
        a ^ b == b ^ a,
        0u16 ^ a == a,
        a ^ 0u16 == a,
        a ^ a == 0u16,
{
}

impl SemiGroup for OpBitAnd<u16> {
    type Set = u16;

    open spec fn spec_op(lhs: u16, rhs: u16) -> u16 {
        lhs & rhs
    }

    proof fn lemma_associative(a: u16, b: u16, c: u16) {
        lemma_bits_u16(a, b, c);
    }

    fn op(lhs: u16, rhs: u16) -> (res: u16) {
        lhs & rhs
    }
}

impl Identity for OpBitAnd<u16> {
    open spec fn spec_id() -> u16 {
        !0u16
    }

    proof fn lemma_identity(a: u16) {
        lemma_bits_u16(a, a, a);
    }

    fn id() -> (res: u16) {
        !0
    }
}

impl Idempotent for OpBitAnd<u16> {
    proof fn lemma_idempotent(a: u16) {
        lemma_bits_u16(a, a, a);
    }
}

impl Commutative for OpBitAnd<u16> {
    proof fn lemma_commutative(a: u16, b: u16) {
        lemma_bits_u16(a, b, b);
    }
}

impl SemiGroup for OpBitOr<u16> {
    type Set = u16;

    open spec fn spec_op(lhs: u16, rhs: u16) -> u16 {
        lhs | rhs
    }

    proof fn lemma_associative(a: u16, b: u16, c: u16) {
        lemma_bits_u16(a, b, c);
    }

    fn op(lhs: u16, rhs: u16) -> (res: u16) {
        lhs | rhs
    }
}

impl Identity for OpBitOr<u16> {
    open spec fn spec_id() -> u16 {
        0
    }

    proof fn lemma_identity(a: u16) {
        lemma_bits_u16(a, a, a);
    }

    fn id() -> (res: u16) {
        0
    }
}

impl Idempotent for OpBitOr<u16> {
    proof fn lemma_idempotent(a: u16) {
        lemma_bits_u16(a, a, a);
    }
}

impl Commutative for OpBitOr<u16> {
    proof fn lemma_commutative(a: u16, b: u16) {
        lemma_bits_u16(a, b, b);
    }
}

impl SemiGroup for OpBitXor<u16> {
    type Set = u16;

    open spec fn spec_op(lhs: u16, rhs: u16) -> u16 {
        lhs ^ rhs
    }

    proof fn lemma_associative(a: u16, b: u16, c: u16) {
        lemma_bits_u16(a, b, c);
    }

    fn op(lhs: u16, rhs: u16) -> (res: u16) {
        lhs ^ rhs
    }
}

impl Identity for OpBitXor<u16> {
    open spec fn spec_id() -> u16 {
        0
    }

    proof fn lemma_identity(a: u16) {
        lemma_bits_u16(a, a, a);
    }

    fn id() -> (res: u16) {
        0
    }
}

impl Inverse for OpBitXor<u16> {
    open spec fn spec_inv(x: u16) -> u16 {
        x
    }

    proof fn lemma_inverse(x: u16, y: u16) {
        lemma_bits_u16(x, x, x);
        lemma_bits_u16(y, y, y);
    }

    fn inv(x: u16) -> (res: u16) {
        x
    }
}

impl Commutative for OpBitXor<u16> {
    proof fn lemma_commutative(a: u16, b: u16) {
        lemma_bits_u16(a, b, b);
    }
}

/// The laws of the bitwise operations on `i16`.
proof fn lemma_bits_i16(a: i16, b: i16, c: i16)
    by (bit_vector)
    ensures
        (a & b) & c == a & (b & c),
        a & b == b & a,
        a & a == a,
        !0i16 & a == a,
        a & !0i16 == a,
        (a | b) | c == a | (b | c),
        a | b == b | a,
        a | a == a,
        0i16 | a == a,
        a | 0i16 == a,
        (a ^ b) ^ c == a ^ (b ^ c),
        a ^ b == b ^ a,
        0i16 ^ a == a,
        a ^ 0i16 == a,
        a ^ a == 0i16,
{
}

impl SemiGroup for OpBitAnd<i16> {
    type Set = i16;

    open spec fn spec_op(lhs: i16, rhs: i16) -> i16 {
        lhs & rhs
    }

    proof fn lemma_associative(a: i16, b: i16, c: i16) {
        lemma_bits_i16(a, b, c);
    }

    fn op(lhs: i16, rhs: i16) -> (res: i16) {
        lhs & rhs
    }
}

impl Identity for OpBitAnd<i16> {
    open spec fn spec_id() -> i16 {
        !0i16
    }

    proof fn lemma_identity(a: i16) {
        lemma_bits_i16(a, a, a);
    }

    fn id() -> (res: i16) {
        !0
    }
}

impl Idempotent for OpBitAnd<i16> {
    proof fn lemma_idempotent(a: i16) {
        lemma_bits_i16(a, a, a);
    }
}

impl Commutative for OpBitAnd<i16> {
    proof fn lemma_commutative(a: i16, b: i16) {
        lemma_bits_i16(a, b, b);
    }
}

impl SemiGroup for OpBitOr<i16> {
    type Set = i16;

    open spec fn spec_op(lhs: i16, rhs: i16) -> i16 {
        lhs | rhs
    }

    proof fn lemma_associative(a: i16, b: i16, c: i16) {
        lemma_bits_i16(a, b, c);
    }

    fn op(lhs: i16, rhs: i16) -> (res: i16) {
        lhs | rhs
    }
}

impl Identity for OpBitOr<i16> {
    open spec fn spec_id() -> i16 {
        0
    }

    proof fn lemma_identity(a: i16) {
        lemma_bits_i16(a, a, a);
    }

    fn id() -> (res: i16) {
        0
    }
}

impl Idempotent for OpBitOr<i16> {
    proof fn lemma_idempotent(a: i16) {
        lemma_bits_i16(a, a, a);
    }
}

impl Commutative for OpBitOr<i16> {
    proof fn lemma_commutative(a: i16, b: i16) {
        lemma_bits_i16(a, b, b);
    }
}

impl SemiGroup for OpBitXor<i16> {
    type Set = i16;

    open spec fn spec_op(lhs: i16, rhs: i16) -> i16 {
        lhs ^ rhs
    }

    proof fn lemma_associative(a: i16, b: i16, c: i16) {
        lemma_bits_i16(a, b, c);
    }

    fn op(lhs: i16, rhs: i16) -> (res: i16) {
        lhs ^ rhs
    }
}

impl Identity for OpBitXor<i16> {
    open spec fn spec_id() -> i16 {
        0
    }

    proof fn lemma_identity(a: i16) {
        lemma_bits_i16(a, a, a);
    }

    fn id() -> (res: i16) {
        0
    }
}

impl Inverse for OpBitXor<i16> {
    open spec fn spec_inv(x: i16) -> i16 {
        x
    }

    proof fn lemma_inverse(x: i16, y: i16) {
        lemma_bits_i16(x, x, x);
        lemma_bits_i16(y, y, y);
    }

    fn inv(x: i16) -> (res: i16) {
        x
    }
}

impl Commutative for OpBitXor<i16> {
    proof fn lemma_commutative(a: i16, b: i16) {
        lemma_bits_i16(a, b, b);
    }
}

/// The laws of the bitwise operations on `u32`.
proof fn lemma_bits_u32(a: u32, b: u32, c: u32)
    by (bit_vector)
    ensures
        (a & b) & c == a & (b & c),
        a & b == b & a,
        a & a == a,
        !0u32 & a == a,
        a & !0u32 == a,
        (a | b) | c == a | (b | c),
        a | b == b | a,
        a | a == a,
        0u32 | a == a,
        a | 0u32 == a,
        (a ^ b) ^ c == a ^ (b ^ c),
        a ^ b == b ^ a,
        0u32 ^ a == a,
        a ^ 0u32 == a,
        a ^ a == 0u32,
{
}

impl SemiGroup for OpBitAnd<u32> {
    type Set = u32;

    open spec fn spec_op(lhs: u32, rhs: u32) -> u32 {
        lhs & rhs
    }

    proof fn lemma_associative(a: u32, b: u32, c: u32) {
        lemma_bits_u32(a, b, c);
    }

    fn op(lhs: u32, rhs: u32) -> (res: u32) {
        lhs & rhs
    }
}

impl Identity for OpBitAnd<u32> {
    open spec fn spec_id() -> u32 {
        !0u32
    }

    proof fn lemma_identity(a: u32) {
        lemma_bits_u32(a, a, a);
    }

    fn id() -> (res: u32) {
        !0
    }
}

impl Idempotent for OpBitAnd<u32> {
    proof fn lemma_idempotent(a: u32) {
        lemma_bits_u32(a, a, a);
    }
}

impl Commutative for OpBitAnd<u32> {
    proof fn lemma_commutative(a: u32, b: u32) {
        lemma_bits_u32(a, b, b);
    }
}

impl SemiGroup for OpBitOr<u32> {
    type Set = u32;

    open spec fn spec_op(lhs: u32, rhs: u32) -> u32 {
        lhs | rhs
    }

    proof fn lemma_associative(a: u32, b: u32, c: u32) {
        lemma_bits_u32(a, b, c);
    }

    fn op(lhs: u32, rhs: u32) -> (res: u32) {
        lhs | rhs
    }
}

impl Identity for OpBitOr<u32> {
    open spec fn spec_id() -> u32 {
        0
    }

    proof fn lemma_identity(a: u32) {
        lemma_bits_u32(a, a, a);
    }

    fn id() -> (res: u32) {
        0
    }
}

impl Idempotent for OpBitOr<u32> {
    proof fn lemma_idempotent(a: u32) {
        lemma_bits_u32(a, a, a);
    }
}

impl Commutative for OpBitOr<u32> {
    proof fn lemma_commutative(a: u32, b: u32) {
        lemma_bits_u32(a, b, b);
    }
}

impl SemiGroup for OpBitXor<u32> {
    type Set = u32;

    open spec fn spec_op(lhs: u32, rhs: u32) -> u32 {
        lhs ^ rhs
    }

    proof fn lemma_associative(a: u32, b: u32, c: u32) {
        lemma_bits_u32(a, b, c);
    }

    fn op(lhs: u32, rhs: u32) -> (res: u32) {
        lhs ^ rhs
    }
}

impl Identity for OpBitXor<u32> {
    open spec fn spec_id() -> u32 {
        0
    }

    proof fn lemma_identity(a: u32) {
        lemma_bits_u32(a, a, a);
    }

    fn id() -> (res: u32) {
        0
    }
}

impl Inverse for OpBitXor<u32> {
    open spec fn spec_inv(x: u32) -> u32 {
        x
    }

    proof fn lemma_inverse(x: u32, y: u32) {
        lemma_bits_u32(x, x, x);
        lemma_bits_u32(y, y, y);
    }

    fn inv(x: u32) -> (res: u32) {
        x
    }
}

impl Commutative for OpBitXor<u32> {
    proof fn lemma_commutative(a: u32, b: u32) {
        lemma_bits_u32(a, b, b);
    }
}

/// The laws of the bitwise operations on `i32`.
proof fn lemma_bits_i32(a: i32, b: i32, c: i32)
    by (bit_vector)
    ensures
        (a & b) & c == a & (b & c),
        a & b == b & a,
        a & a == a,
        !0i32 & a == a,
        a & !0i32 == a,
        (a | b) | c == a | (b | c),
        a | b == b | a,
        a | a == a,
        0i32 | a == a,
        a | 0i32 == a,
        (a ^ b) ^ c == a ^ (b ^ c),
        a ^ b == b ^ a,
        0i32 ^ a == a,
        a ^ 0i32 == a,
        a ^ a == 0i32,
{
}

impl SemiGroup for OpBitAnd<i32> {
    type Set = i32;

    open spec fn spec_op(lhs: i32, rhs: i32) -> i32 {
        lhs & rhs
    }

    proof fn lemma_associative(a: i32, b: i32, c: i32) {
        lemma_bits_i32(a, b, c);
    }

    fn op(lhs: i32, rhs: i32) -> (res: i32) {
        lhs & rhs
    }
}

impl Identity for OpBitAnd<i32> {
    open spec fn spec_id() -> i32 {
        !0i32
    }

    proof fn lemma_identity(a: i32) {
        lemma_bits_i32(a, a, a);
    }

    fn id() -> (res: i32) {
        !0
    }
}

impl Idempotent for OpBitAnd<i32> {
    proof fn lemma_idempotent(a: i32) {
        lemma_bits_i32(a, a, a);
    }
}

impl Commutative for OpBitAnd<i32> {
    proof fn lemma_commutative(a: i32, b: i32) {
        lemma_bits_i32(a, b, b);
    }
}

impl SemiGroup for OpBitOr<i32> {
    type Set = i32;

    open spec fn spec_op(lhs: i32, rhs: i32) -> i32 {
        lhs | rhs
    }

    proof fn lemma_associative(a: i32, b: i32, c: i32) {
        lemma_bits_i32(a, b, c);
    }

    fn op(lhs: i32, rhs: i32) -> (res: i32) {
        lhs | rhs
    }
}

impl Identity for OpBitOr<i32> {
    open spec fn spec_id() -> i32 {
        0
    }

    proof fn lemma_identity(a: i32) {
        lemma_bits_i32(a, a, a);
    }

    fn id() -> (res: i32) {
        0
    }
}

impl Idempotent for OpBitOr<i32> {
    proof fn lemma_idempotent(a: i32) {
        lemma_bits_i32(a, a, a);
    }
}

impl Commutative for OpBitOr<i32> {
    proof fn lemma_commutative(a: i32, b: i32) {
        lemma_bits_i32(a, b, b);
    }
}

impl SemiGroup for OpBitXor<i32> {
    type Set = i32;

    open spec fn spec_op(lhs: i32, rhs: i32) -> i32 {
        lhs ^ rhs
    }

    proof fn lemma_associative(a: i32, b: i32, c: i32) {
        lemma_bits_i32(a, b, c);
    }

    fn op(lhs: i32, rhs: i32) -> (res: i32) {
        lhs ^ rhs
    }
}

impl Identity for OpBitXor<i32> {
    open spec fn spec_id() -> i32 {
        0
    }

    proof fn lemma_identity(a: i32) {
        lemma_bits_i32(a, a, a);
    }

    fn id() -> (res: i32) {
        0
    }
}

impl Inverse for OpBitXor<i32> {
    open spec fn spec_inv(x: i32) -> i32 {
        x
    }

    proof fn lemma_inverse(x: i32, y: i32) {
        lemma_bits_i32(x, x, x);
        lemma_bits_i32(y, y, y);
    }

    fn inv(x: i32) -> (res: i32) {
        x
    }
}

impl Commutative for OpBitXor<i32> {
    proof fn lemma_commutative(a: i32, b: i32) {
        lemma_bits_i32(a, b, b);
    }
}

/// The laws of the bitwise operations on `u64`.
proof fn lemma_bits_u64(a: u64, b: u64, c: u64)
    by (bit_vector)
    ensures
        (a & b) & c == a & (b & c),
        a & b == b & a,
        a & a == a,
        !0u64 & a == a,
        a & !0u64 == a,
        (a | b) | c == a | (b | c),
        a | b == b | a,
        a | a == a,
        0u64 | a == a,
        a | 0u64 == a,
        (a ^ b) ^ c == a ^ (b ^ c),
        a ^ b == b ^ a,
        0u64 ^ a == a,
        a ^ 0u64 == a,
        a ^ a == 0u64,
{
}

impl SemiGroup for OpBitAnd<u64> {
    type Set = u64;

    open spec fn spec_op(lhs: u64, rhs: u64) -> u64 {
        lhs & rhs
    }

    proof fn lemma_associative(a: u64, b: u64, c: u64) {
        lemma_bits_u64(a, b, c);
    }

    fn op(lhs: u64, rhs: u64) -> (res: u64) {
        lhs & rhs
    }
}

impl Identity for OpBitAnd<u64> {
    open spec fn spec_id() -> u64 {
        !0u64
    }

    proof fn lemma_identity(a: u64) {
        lemma_bits_u64(a, a, a);
    }

    fn id() -> (res: u64) {
        !0
    }
}

impl Idempotent for OpBitAnd<u64> {
    proof fn lemma_idempotent(a: u64) {
        lemma_bits_u64(a, a, a);
    }
}

impl Commutative for OpBitAnd<u64> {
    proof fn lemma_commutative(a: u64, b: u64) {
        lemma_bits_u64(a, b, b);
    }
}

impl SemiGroup for OpBitOr<u64> {
    type Set = u64;

    open spec fn spec_op(lhs: u64, rhs: u64) -> u64 {
        lhs | rhs
    }

    proof fn lemma_associative(a: u64, b: u64, c: u64) {
        lemma_bits_u64(a, b, c);
    }

    fn op(lhs: u64, rhs: u64) -> (res: u64) {
        lhs | rhs
    }
}

impl Identity for OpBitOr<u64> {
    open spec fn spec_id() -> u64 {
        0
    }

    proof fn lemma_identity(a: u64) {
        lemma_bits_u64(a, a, a);
    }

    fn id() -> (res: u64) {
        0
    }
}

impl Idempotent for OpBitOr<u64> {
    proof fn lemma_idempotent(a: u64) {
        lemma_bits_u64(a, a, a);
    }
}

impl Commutative for OpBitOr<u64> {
    proof fn lemma_commutative(a: u64, b: u64) {
        lemma_bits_u64(a, b, b);
    }
}

impl SemiGroup for OpBitXor<u64> {
    type Set = u64;

    open spec fn spec_op(lhs: u64, rhs: u64) -> u64 {
        lhs ^ rhs
    }

    proof fn lemma_associative(a: u64, b: u64, c: u64) {
        lemma_bits_u64(a, b, c);
    }

    fn op(lhs: u64, rhs: u64) -> (res: u64) {
        lhs ^ rhs
    }
}

impl Identity for OpBitXor<u64> {
    open spec fn spec_id() -> u64 {
        0
    }

    proof fn lemma_identity(a: u64) {
        lemma_bits_u64(a, a, a);
    }

    fn id() -> (res: u64) {
        0
    }
}

impl Inverse for OpBitXor<u64> {
    open spec fn spec_inv(x: u64) -> u64 {
        x
    }

    proof fn lemma_inverse(x: u64, y: u64) {
        lemma_bits_u64(x, x, x);
        lemma_bits_u64(y, y, y);
    }

    fn inv(x: u64) -> (res: u64) {
        x
    }
}

impl Commutative for OpBitXor<u64> {
    proof fn lemma_commutative(a: u64, b: u64) {
        lemma_bits_u64(a, b, b);
    }
}

/// The laws of the bitwise operations on `i64`.
proof fn lemma_bits_i64(a: i64, b: i64, c: i64)
    by (bit_vector)
    ensures
        (a & b) & c == a & (b & c),
        a & b == b & a,
        a & a == a,
        !0i64 & a == a,
        a & !0i64 == a,
        (a | b) | c == a | (b | c),
        a | b == b | a,
        a | a == a,
        0i64 | a == a,
        a | 0i64 == a,
        (a ^ b) ^ c == a ^ (b ^ c),
        a ^ b == b ^ a,
        0i64 ^ a == a,
        a ^ 0i64 == a,
        a ^ a == 0i64,
{
}

impl SemiGroup for OpBitAnd<i64> {
    type Set = i64;

    open spec fn spec_op(lhs: i64, rhs: i64) -> i64 {
        lhs & rhs
    }

    proof fn lemma_associative(a: i64, b: i64, c: i64) {
        lemma_bits_i64(a, b, c);
    }

    fn op(lhs: i64, rhs: i64) -> (res: i64) {
        lhs & rhs
    }
}

impl Identity for OpBitAnd<i64> {
    open spec fn spec_id() -> i64 {
        !0i64
    }

    proof fn lemma_identity(a: i64) {
        lemma_bits_i64(a, a, a);
    }

    fn id() -> (res: i64) {
        !0
    }
}

impl Idempotent for OpBitAnd<i64> {
    proof fn lemma_idempotent(a: i64) {
        lemma_bits_i64(a, a, a);
    }
}

impl Commutative for OpBitAnd<i64> {
    proof fn lemma_commutative(a: i64, b: i64) {
        lemma_bits_i64(a, b, b);
    }
}

impl SemiGroup for OpBitOr<i64> {
    type Set = i64;

    open spec fn spec_op(lhs: i64, rhs: i64) -> i64 {
        lhs | rhs
    }

    proof fn lemma_associative(a: i64, b: i64, c: i64) {
        lemma_bits_i64(a, b, c);
    }

    fn op(lhs: i64, rhs: i64) -> (res: i64) {
        lhs | rhs
    }
}

impl Identity for OpBitOr<i64> {
    open spec fn spec_id() -> i64 {
        0
    }

    proof fn lemma_identity(a: i64) {
        lemma_bits_i64(a, a, a);
    }

    fn id() -> (res: i64) {
        0
    }
}

impl Idempotent for OpBitOr<i64> {
    proof fn lemma_idempotent(a: i64) {
        lemma_bits_i64(a, a, a);
    }
}

impl Commutative for OpBitOr<i64> {
    proof fn lemma_commutative(a: i64, b: i64) {
        lemma_bits_i64(a, b, b);
    }
}

impl SemiGroup for OpBitXor<i64> {
    type Set = i64;

    open spec fn spec_op(lhs: i64, rhs: i64) -> i64 {
        lhs ^ rhs
    }

    proof fn lemma_associative(a: i64, b: i64, c: i64) {
        lemma_bits_i64(a, b, c);
    }

    fn op(lhs: i64, rhs: i64) -> (res: i64) {
        lhs ^ rhs
    }
}

impl Identity for OpBitXor<i64> {
    open spec fn spec_id() -> i64 {
        0
    }

    proof fn lemma_identity(a: i64) {
        lemma_bits_i64(a, a, a);
    }

    fn id() -> (res: i64) {
        0
    }
}

impl Inverse for OpBitXor<i64> {
    open spec fn spec_inv(x: i64) -> i64 {
        x
    }

    proof fn lemma_inverse(x: i64, y: i64) {
        lemma_bits_i64(x, x, x);
        lemma_bits_i64(y, y, y);
    }

    fn inv(x: i64) -> (res: i64) {
        x
    }
}

impl Commutative for OpBitXor<i64> {
    proof fn lemma_commutative(a: i64, b: i64) {
        lemma_bits_i64(a, b, b);
    }
}

/// The laws of the bitwise operations on `u128`.
proof fn lemma_bits_u128(a: u128, b: u128, c: u128)
    by (bit_vector)
    ensures
        (a & b) & c == a & (b & c),
        a & b == b & a,
        a & a == a,
        !0u128 & a == a,
        a & !0u128 == a,
        (a | b) | c == a | (b | c),
        a | b == b | a,
        a | a == a,
        0u128 | a == a,
        a | 0u128 == a,
        (a ^ b) ^ c == a ^ (b ^ c),
        a ^ b == b ^ a,
        0u128 ^ a == a,
        a ^ 0u128 == a,
        a ^ a == 0u128,
{
}

impl SemiGroup for OpBitAnd<u128> {
    type Set = u128;

    open spec fn spec_op(lhs: u128, rhs: u128) -> u128 {
        lhs & rhs
    }

    proof fn lemma_associative(a: u128, b: u128, c: u128) {
        lemma_bits_u128(a, b, c);
    }

    fn op(lhs: u128, rhs: u128) -> (res: u128) {
        lhs & rhs
    }
}

impl Identity for OpBitAnd<u128> {
    open spec fn spec_id() -> u128 {
        !0u128
    }

    proof fn lemma_identity(a: u128) {
        lemma_bits_u128(a, a, a);
    }

    fn id() -> (res: u128) {
        !0
    }
}

impl Idempotent for OpBitAnd<u128> {
    proof fn lemma_idempotent(a: u128) {
        lemma_bits_u128(a, a, a);
    }
}

impl Commutative for OpBitAnd<u128> {
    proof fn lemma_commutative(a: u128, b: u128) {
        lemma_bits_u128(a, b, b);
    }
}

impl SemiGroup for OpBitOr<u128> {
    type Set = u128;

    open spec fn spec_op(lhs: u128, rhs: u128) -> u128 {
        lhs | rhs
    }

    proof fn lemma_associative(a: u128, b: u128, c: u128) {
        lemma_bits_u128(a, b, c);
    }

    fn op(lhs: u128, rhs: u128) -> (res: u128) {
        lhs | rhs
    }
}

impl Identity for OpBitOr<u128> {
    open spec fn spec_id() -> u128 {
        0
    }

    proof fn lemma_identity(a: u128) {
        lemma_bits_u128(a, a, a);
    }

    fn id() -> (res: u128) {
        0
    }
}

impl Idempotent for OpBitOr<u128> {
    proof fn lemma_idempotent(a: u128) {
        lemma_bits_u128(a, a, a);
    }
}

impl Commutative for OpBitOr<u128> {
    proof fn lemma_commutative(a: u128, b: u128) {
        lemma_bits_u128(a, b, b);
    }
}

impl SemiGroup for OpBitXor<u128> {
    type Set = u128;

    open spec fn spec_op(lhs: u128, rhs: u128) -> u128 {
        lhs ^ rhs
    }

    proof fn lemma_associative(a: u128, b: u128, c: u128) {
        lemma_bits_u128(a, b, c);
    }

    fn op(lhs: u128, rhs: u128) -> (res: u128) {
        lhs ^ rhs
    }
}

impl Identity for OpBitXor<u128> {
    open spec fn spec_id() -> u128 {
        0
    }

    proof fn lemma_identity(a: u128) {
        lemma_bits_u128(a, a, a);
    }

    fn id() -> (res: u128) {
        0
    }
}

impl Inverse for OpBitXor<u128> {
    open spec fn spec_inv(x: u128) -> u128 {
        x
    }

    proof fn lemma_inverse(x: u128, y: u128) {
        lemma_bits_u128(x, x, x);
        lemma_bits_u128(y, y, y);
    }

    fn inv(x: u128) -> (res: u128) {
        x
    }
}

impl Commutative for OpBitXor<u128> {
    proof fn lemma_commutative(a: u128, b: u128) {
        lemma_bits_u128(a, b, b);
    }
}

/// The laws of the bitwise operations on `i128`.
proof fn lemma_bits_i128(a: i128, b: i128, c: i128)
    by (bit_vector)
    ensures
        (a & b) & c == a & (b & c),
        a & b == b & a,
        a & a == a,
        !0i128 & a == a,
        a & !0i128 == a,
        (a | b) | c == a | (b | c),
        a | b == b | a,
        a | a == a,
        0i128 | a == a,
        a | 0i128 == a,
        (a ^ b) ^ c == a ^ (b ^ c),
        a ^ b == b ^ a,
        0i128 ^ a == a,
        a ^ 0i128 == a,
        a ^ a == 0i128,
{
}

impl SemiGroup for OpBitAnd<i128> {
    type Set = i128;

    open spec fn spec_op(lhs: i128, rhs: i128) -> i128 {
        lhs & rhs
    }

    proof fn lemma_associative(a: i128, b: i128, c: i128) {
        lemma_bits_i128(a, b, c);
    }

    fn op(lhs: i128, rhs: i128) -> (res: i128) {
        lhs & rhs
    }
}

impl Identity for OpBitAnd<i128> {
    open spec fn spec_id() -> i128 {
        !0i128
    }

    proof fn lemma_identity(a: i128) {
        lemma_bits_i128(a, a, a);
    }

    fn id() -> (res: i128) {
        !0
    }
}

impl Idempotent for OpBitAnd<i128> {
    proof fn lemma_idempotent(a: i128) {
        lemma_bits_i128(a, a, a);
    }
}

impl Commutative for OpBitAnd<i128> {
    proof fn lemma_commutative(a: i128, b: i128) {
        lemma_bits_i128(a, b, b);
    }
}

impl SemiGroup for OpBitOr<i128> {
    type Set = i128;

    open spec fn spec_op(lhs: i128, rhs: i128) -> i128 {
        lhs | rhs
    }

    proof fn lemma_associative(a: i128, b: i128, c: i128) {
        lemma_bits_i128(a, b, c);
    }

    fn op(lhs: i128, rhs: i128) -> (res: i128) {
        lhs | rhs
    }
}

impl Identity for OpBitOr<i128> {
    open spec fn spec_id() -> i128 {
        0
    }

    proof fn lemma_identity(a: i128) {
        lemma_bits_i128(a, a, a);
    }

    fn id() -> (res: i128) {
        0
    }
}

impl Idempotent for OpBitOr<i128> {
    proof fn lemma_idempotent(a: i128) {
        lemma_bits_i128(a, a, a);
    }
}

impl Commutative for OpBitOr<i128> {
    proof fn lemma_commutative(a: i128, b: i128) {
        lemma_bits_i128(a, b, b);
    }
}

impl SemiGroup for OpBitXor<i128> {
    type Set = i128;

    open spec fn spec_op(lhs: i128, rhs: i128) -> i128 {
        lhs ^ rhs
    }

    proof fn lemma_associative(a: i128, b: i128, c: i128) {
        lemma_bits_i128(a, b, c);
    }

    fn op(lhs: i128, rhs: i128) -> (res: i128) {
        lhs ^ rhs
    }
}

impl Identity for OpBitXor<i128> {
    open spec fn spec_id() -> i128 {
        0
    }

    proof fn lemma_identity(a: i128) {
        lemma_bits_i128(a, a, a);
    }

    fn id() -> (res: i128) {
        0
    }
}

impl Inverse for OpBitXor<i128> {
    open spec fn spec_inv(x: i128) -> i128 {
        x
    }

    proof fn lemma_inverse(x: i128, y: i128) {
        lemma_bits_i128(x, x, x);
        lemma_bits_i128(y, y, y);
    }

    fn inv(x: i128) -> (res: i128) {
        x
    }
}

impl Commutative for OpBitXor<i128> {
    proof fn lemma_commutative(a: i128, b: i128) {
        lemma_bits_i128(a, b, b);
    }
}

/// The laws of the bitwise operations on `usize`.
proof fn lemma_bits_usize(a: usize, b: usize, c: usize)
    by (bit_vector)
    ensures
        (a & b) & c == a & (b & c),
        a & b == b & a,
        a & a == a,
        !0usize & a == a,
        a & !0usize == a,
        (a | b) | c == a | (b | c),
        a | b == b | a,
        a | a == a,
        0usize | a == a,
        a | 0usize == a,
        (a ^ b) ^ c == a ^ (b ^ c),
        a ^ b == b ^ a,
        0usize ^ a == a,
        a ^ 0usize == a,
        a ^ a == 0usize,
{
}

impl SemiGroup for OpBitAnd<usize> {
    type Set = usize;

    open spec fn spec_op(lhs: usize, rhs: usize) -> usize {
        lhs & rhs
    }

    proof fn lemma_associative(a: usize, b: usize, c: usize) {
        lemma_bits_usize(a, b, c);
    }

    fn op(lhs: usize, rhs: usize) -> (res: usize) {
        lhs & rhs
    }
}

impl Identity for OpBitAnd<usize> {
    open spec fn spec_id() -> usize {
        !0usize
    }

    proof fn lemma_identity(a: usize) {
        lemma_bits_usize(a, a, a);
    }

    fn id() -> (res: usize) {
        !0
    }
}

impl Idempotent for OpBitAnd<usize> {
    proof fn lemma_idempotent(a: usize) {
        lemma_bits_usize(a, a, a);
    }
}

impl Commutative for OpBitAnd<usize> {
    proof fn lemma_commutative(a: usize, b: usize) {
        lemma_bits_usize(a, b, b);
    }
}

impl SemiGroup for OpBitOr<usize> {
    type Set = usize;

    open spec fn spec_op(lhs: usize, rhs: usize) -> usize {
        lhs | rhs
    }

    proof fn lemma_associative(a: usize, b: usize, c: usize) {
        lemma_bits_usize(a, b, c);
    }

    fn op(lhs: usize, rhs: usize) -> (res: usize) {
        lhs | rhs
    }
}

impl Identity for OpBitOr<usize> {
    open spec fn spec_id() -> usize {
        0
    }

    proof fn lemma_identity(a: usize) {
        lemma_bits_usize(a, a, a);
    }

    fn id() -> (res: usize) {
        0
    }
}

impl Idempotent for OpBitOr<usize> {
    proof fn lemma_idempotent(a: usize) {
        lemma_bits_usize(a, a, a);
    }
}

impl Commutative for OpBitOr<usize> {
    proof fn lemma_commutative(a: usize, b: usize) {
        lemma_bits_usize(a, b, b);
    }
}

impl SemiGroup for OpBitXor<usize> {
    type Set = usize;

    open spec fn spec_op(lhs: usize, rhs: usize) -> usize {
        lhs ^ rhs
    }

    proof fn lemma_associative(a: usize, b: usize, c: usize) {
        lemma_bits_usize(a, b, c);
    }

    fn op(lhs: usize, rhs: usize) -> (res: usize) {
        lhs ^ rhs
    }
}

impl Identity for OpBitXor<usize> {
    open spec fn spec_id() -> usize {
        0
    }

    proof fn lemma_identity(a: usize) {
        lemma_bits_usize(a, a, a);
    }

    fn id() -> (res: usize) {
        0
    }
}

impl Inverse for OpBitXor<usize> {
    open spec fn spec_inv(x: usize) -> usize {
        x
    }

    proof fn lemma_inverse(x: usize, y: usize) {
        lemma_bits_usize(x, x, x);
        lemma_bits_usize(y, y, y);
    }

    fn inv(x: usize) -> (res: usize) {
        x
    }
}

impl Commutative for OpBitXor<usize> {
    proof fn lemma_commutative(a: usize, b: usize) {
        lemma_bits_usize(a, b, b);
    }
}

/// The laws of the bitwise operations on `isize`.
proof fn lemma_bits_isize(a: isize, b: isize, c: isize)
    by (bit_vector)
    ensures
        (a & b) & c == a & (b & c),
        a & b == b & a,
        a & a == a,
        !0isize & a == a,
        a & !0isize == a,
        (a | b) | c == a | (b | c),
        a | b == b | a,
        a | a == a,
        0isize | a == a,
        a | 0isize == a,
        (a ^ b) ^ c == a ^ (b ^ c),
        a ^ b == b ^ a,
        0isize ^ a == a,
        a ^ 0isize == a,
        a ^ a == 0isize,
{
}

impl SemiGroup for OpBitAnd<isize> {
    type Set = isize;

    open spec fn spec_op(lhs: isize, rhs: isize) -> isize {
        lhs & rhs
    }

    proof fn lemma_associative(a: isize, b: isize, c: isize) {
        lemma_bits_isize(a, b, c);
    }

    fn op(lhs: isize, rhs: isize) -> (res: isize) {
        lhs & rhs
    }
}

impl Identity for OpBitAnd<isize> {
    open spec fn spec_id() -> isize {
        !0isize
    }

    proof fn lemma_identity(a: isize) {
        lemma_bits_isize(a, a, a);
    }

    fn id() -> (res: isize) {
        !0
    }
}

impl Idempotent for OpBitAnd<isize> {
    proof fn lemma_idempotent(a: isize) {
        lemma_bits_isize(a, a, a);
    }
}

impl Commutative for OpBitAnd<isize> {
    proof fn lemma_commutative(a: isize, b: isize) {
        lemma_bits_isize(a, b, b);
    }
}

impl SemiGroup for OpBitOr<isize> {
    type Set = isize;

    open spec fn spec_op(lhs: isize, rhs: isize) -> isize {
        lhs | rhs
    }

    proof fn lemma_associative(a: isize, b: isize, c: isize) {
        lemma_bits_isize(a, b, c);
    }

    fn op(lhs: isize, rhs: isize) -> (res: isize) {
        lhs | rhs
    }
}

impl Identity for OpBitOr<isize> {
    open spec fn spec_id() -> isize {
        0
    }

    proof fn lemma_identity(a: isize) {
        lemma_bits_isize(a, a, a);
    }

    fn id() -> (res: isize) {
        0
    }
}

impl Idempotent for OpBitOr<isize> {
    proof fn lemma_idempotent(a: isize) {
        lemma_bits_isize(a, a, a);
    }
}

impl Commutative for OpBitOr<isize> {
    proof fn lemma_commutative(a: isize, b: isize) {
        lemma_bits_isize(a, b, b);
    }
}

impl SemiGroup for OpBitXor<isize> {
    type Set = isize;

    open spec fn spec_op(lhs: isize, rhs: isize) -> isize {
        lhs ^ rhs
    }

    proof fn lemma_associative(a: isize, b: isize, c: isize) {
        lemma_bits_isize(a, b, c);
    }

    fn op(lhs: isize, rhs: isize) -> (res: isize) {
        lhs ^ rhs
    }
}

impl Identity for OpBitXor<isize> {
    open spec fn spec_id() -> isize {
        0
    }

    proof fn lemma_identity(a: isize) {
        lemma_bits_isize(a, a, a);
    }

    fn id() -> (res: isize) {
        0
    }
}

impl Inverse for OpBitXor<isize> {
    open spec fn spec_inv(x: isize) -> isize {
        x
    }

    proof fn lemma_inverse(x: isize, y: isize) {
        lemma_bits_isize(x, x, x);
        lemma_bits_isize(y, y, y);
    }

    fn inv(x: isize) -> (res: isize) {
        x
    }
}

impl Commutative for OpBitXor<isize> {
    proof fn lemma_commutative(a: isize, b: isize) {
        lemma_bits_isize(a, b, b);
    }
}

/// On `bool`, bitwise and is the conjunction. As for every type without an
/// all-ones value given to it, there is no identity element here.
impl SemiGroup for OpBitAnd<bool> {
    type Set = bool;

    open spec fn spec_op(lhs: bool, rhs: bool) -> bool {
        lhs && rhs
    }

    proof fn lemma_associative(a: bool, b: bool, c: bool) {
    }

    fn op(lhs: bool, rhs: bool) -> (res: bool) {
        lhs && rhs
    }
}

impl Idempotent for OpBitAnd<bool> {
    proof fn lemma_idempotent(a: bool) {
    }
}

impl Commutative for OpBitAnd<bool> {
    proof fn lemma_commutative(a: bool, b: bool) {
    }
}

/// The bitwise operations on `u8` are `&`, `|` and `^`: bit `k` of the
/// result is set when it is set in both arguments, in either, or in exactly
/// one of them.
pub proof fn lemma_op_bits_u8(a: u8, b: u8)
    ensures
        OpBitAnd::<u8>::spec_op(a, b) == a & b,
        OpBitOr::<u8>::spec_op(a, b) == a | b,
        OpBitXor::<u8>::spec_op(a, b) == a ^ b,
        forall|k: u32|
            #![trigger (OpBitAnd::<u8>::spec_op(a, b) >> k)]
            k < 8 ==> ((OpBitAnd::<u8>::spec_op(a, b) >> k) & 1u8 == 1u8 <==> ((a >> k) & 1u8
                == 1u8 && (b >> k) & 1u8 == 1u8)),
        forall|k: u32|
            #![trigger (OpBitOr::<u8>::spec_op(a, b) >> k)]
            k < 8 ==> ((OpBitOr::<u8>::spec_op(a, b) >> k) & 1u8 == 1u8 <==> ((a >> k) & 1u8
                == 1u8 || (b >> k) & 1u8 == 1u8)),
        forall|k: u32|
            #![trigger (OpBitXor::<u8>::spec_op(a, b) >> k)]
            k < 8 ==> ((OpBitXor::<u8>::spec_op(a, b) >> k) & 1u8 == 1u8 <==> (((a >> k) & 1u8
                == 1u8) != ((b >> k) & 1u8 == 1u8))),
{
    assert(forall|k: u32|
        #![trigger ((a & b) >> k)]
        #![trigger ((a | b) >> k)]
        #![trigger ((a ^ b) >> k)]
        k < 8 ==> ((((a & b) >> k) & 1u8 == 1u8 <==> ((a >> k) & 1u8 == 1u8 && (b >> k) & 1u8 == 1u8))
            && (((a | b) >> k) & 1u8 == 1u8 <==> ((a >> k) & 1u8 == 1u8 || (b >> k) & 1u8 == 1u8))
            && (((a ^ b) >> k) & 1u8 == 1u8 <==> (((a >> k) & 1u8 == 1u8) != ((b >> k) & 1u8
            == 1u8))))) by (bit_vector);
}

/// The bitwise operations on `i8` are `&`, `|` and `^`: bit `k` of the
/// result is set when it is set in both arguments, in either, or in exactly
/// one of them.
pub proof fn lemma_op_bits_i8(a: i8, b: i8)
    ensures
        OpBitAnd::<i8>::spec_op(a, b) == a & b,
        OpBitOr::<i8>::spec_op(a, b) == a | b,
        OpBitXor::<i8>::spec_op(a, b) == a ^ b,
        forall|k: u32|
            #![trigger (OpBitAnd::<i8>::spec_op(a, b) >> k)]
            k < 8 ==> ((OpBitAnd::<i8>::spec_op(a, b) >> k) & 1i8 == 1i8 <==> ((a >> k) & 1i8
                == 1i8 && (b >> k) & 1i8 == 1i8)),
        forall|k: u32|
            #![trigger (OpBitOr::<i8>::spec_op(a, b) >> k)]
            k < 8 ==> ((OpBitOr::<i8>::spec_op(a, b) >> k) & 1i8 == 1i8 <==> ((a >> k) & 1i8
                == 1i8 || (b >> k) & 1i8 == 1i8)),
        forall|k: u32|
            #![trigger (OpBitXor::<i8>::spec_op(a, b) >> k)]
            k < 8 ==> ((OpBitXor::<i8>::spec_op(a, b) >> k) & 1i8 == 1i8 <==> (((a >> k) & 1i8
                == 1i8) != ((b >> k) & 1i8 == 1i8))),
{
    assert(forall|k: u32|
        #![trigger ((a & b) >> k)]
        #![trigger ((a | b) >> k)]
        #![trigger ((a ^ b) >> k)]
        k < 8 ==> ((((a & b) >> k) & 1i8 == 1i8 <==> ((a >> k) & 1i8 == 1i8 && (b >> k) & 1i8 == 1i8))
            && (((a | b) >> k) & 1i8 == 1i8 <==> ((a >> k) & 1i8 == 1i8 || (b >> k) & 1i8 == 1i8))
            && (((a ^ b) >> k) & 1i8 == 1i8 <==> (((a >> k) & 1i8 == 1i8) != ((b >> k) & 1i8
            == 1i8))))) by (bit_vector);
}

/// The bitwise operations on `u16` are `&`, `|` and `^`: bit `k` of the
/// result is set when it is set in both arguments, in either, or in exactly
/// one of them.
pub proof fn lemma_op_bits_u16(a: u16, b: u16)
    ensures
        OpBitAnd::<u16>::spec_op(a, b) == a & b,
        OpBitOr::<u16>::spec_op(a, b) == a | b,
        OpBitXor::<u16>::spec_op(a, b) == a ^ b,
        forall|k: u32|
            #![trigger (OpBitAnd::<u16>::spec_op(a, b) >> k)]
            k < 16 ==> ((OpBitAnd::<u16>::spec_op(a, b) >> k) & 1u16 == 1u16 <==> ((a >> k) & 1u16
                == 1u16 && (b >> k) & 1u16 == 1u16)),
        forall|k: u32|
            #![trigger (OpBitOr::<u16>::spec_op(a, b) >> k)]
            k < 16 ==> ((OpBitOr::<u16>::spec_op(a, b) >> k) & 1u16 == 1u16 <==> ((a >> k) & 1u16
                == 1u16 || (b >> k) & 1u16 == 1u16)),
        forall|k: u32|
            #![trigger (OpBitXor::<u16>::spec_op(a, b) >> k)]
            k < 16 ==> ((OpBitXor::<u16>::spec_op(a, b) >> k) & 1u16 == 1u16 <==> (((a >> k) & 1u16
                == 1u16) != ((b >> k) & 1u16 == 1u16))),
{
    assert(forall|k: u32|
        #![trigger ((a & b) >> k)]
        #![trigger ((a | b) >> k)]
        #![trigger ((a ^ b) >> k)]
        k < 16 ==> ((((a & b) >> k) & 1u16 == 1u16 <==> ((a >> k) & 1u16 == 1u16 && (b >> k) & 1u16 == 1u16))
            && (((a | b) >> k) & 1u16 == 1u16 <==> ((a >> k) & 1u16 == 1u16 || (b >> k) & 1u16 == 1u16))
            && (((a ^ b) >> k) & 1u16 == 1u16 <==> (((a >> k) & 1u16 == 1u16) != ((b >> k) & 1u16
            == 1u16))))) by (bit_vector);
}

/// The bitwise operations on `i16` are `&`, `|` and `^`: bit `k` of the
/// result is set when it is set in both arguments, in either, or in exactly
/// one of them.
pub proof fn lemma_op_bits_i16(a: i16, b: i16)
    ensures
        OpBitAnd::<i16>::spec_op(a, b) == a & b,
        OpBitOr::<i16>::spec_op(a, b) == a | b,
        OpBitXor::<i16>::spec_op(a, b) == a ^ b,
        forall|k: u32|
            #![trigger (OpBitAnd::<i16>::spec_op(a, b) >> k)]
            k < 16 ==> ((OpBitAnd::<i16>::spec_op(a, b) >> k) & 1i16 == 1i16 <==> ((a >> k) & 1i16
                == 1i16 && (b >> k) & 1i16 == 1i16)),
        forall|k: u32|
            #![trigger (OpBitOr::<i16>::spec_op(a, b) >> k)]
            k < 16 ==> ((OpBitOr::<i16>::spec_op(a, b) >> k) & 1i16 == 1i16 <==> ((a >> k) & 1i16
                == 1i16 || (b >> k) & 1i16 == 1i16)),
        forall|k: u32|
            #![trigger (OpBitXor::<i16>::spec_op(a, b) >> k)]
            k < 16 ==> ((OpBitXor::<i16>::spec_op(a, b) >> k) & 1i16 == 1i16 <==> (((a >> k) & 1i16
                == 1i16) != ((b >> k) & 1i16 == 1i16))),
{
    assert(forall|k: u32|
        #![trigger ((a & b) >> k)]
        #![trigger ((a | b) >> k)]
        #![trigger ((a ^ b) >> k)]
        k < 16 ==> ((((a & b) >> k) & 1i16 == 1i16 <==> ((a >> k) & 1i16 == 1i16 && (b >> k) & 1i16 == 1i16))
            && (((a | b) >> k) & 1i16 == 1i16 <==> ((a >> k) & 1i16 == 1i16 || (b >> k) & 1i16 == 1i16))
            && (((a ^ b) >> k) & 1i16 == 1i16 <==> (((a >> k) & 1i16 == 1i16) != ((b >> k) & 1i16
            == 1i16))))) by (bit_vector);
}

/// The bitwise operations on `u32` are `&`, `|` and `^`: bit `k` of the
/// result is set when it is set in both arguments, in either, or in exactly
/// one of them.
pub proof fn lemma_op_bits_u32(a: u32, b: u32)
    ensures
        OpBitAnd::<u32>::spec_op(a, b) == a & b,
        OpBitOr::<u32>::spec_op(a, b) == a | b,
        OpBitXor::<u32>::spec_op(a, b) == a ^ b,
        forall|k: u32|
            #![trigger (OpBitAnd::<u32>::spec_op(a, b) >> k)]
            k < 32 ==> ((OpBitAnd::<u32>::spec_op(a, b) >> k) & 1u32 == 1u32 <==> ((a >> k) & 1u32
                == 1u32 && (b >> k) & 1u32 == 1u32)),
        forall|k: u32|
            #![trigger (OpBitOr::<u32>::spec_op(a, b) >> k)]
            k < 32 ==> ((OpBitOr::<u32>::spec_op(a, b) >> k) & 1u32 == 1u32 <==> ((a >> k) & 1u32
                == 1u32 || (b >> k) & 1u32 == 1u32)),
        forall|k: u32|
            #![trigger (OpBitXor::<u32>::spec_op(a, b) >> k)]
            k < 32 ==> ((OpBitXor::<u32>::spec_op(a, b) >> k) & 1u32 == 1u32 <==> (((a >> k) & 1u32
                == 1u32) != ((b >> k) & 1u32 == 1u32))),
{
    assert(forall|k: u32|
        #![trigger ((a & b) >> k)]
        #![trigger ((a | b) >> k)]
        #![trigger ((a ^ b) >> k)]
        k < 32 ==> ((((a & b) >> k) & 1u32 == 1u32 <==> ((a >> k) & 1u32 == 1u32 && (b >> k) & 1u32 == 1u32))
            && (((a | b) >> k) & 1u32 == 1u32 <==> ((a >> k) & 1u32 == 1u32 || (b >> k) & 1u32 == 1u32))
            && (((a ^ b) >> k) & 1u32 == 1u32 <==> (((a >> k) & 1u32 == 1u32) != ((b >> k) & 1u32
            == 1u32))))) by (bit_vector);
}

/// The bitwise operations on `i32` are `&`, `|` and `^`: bit `k` of the
/// result is set when it is set in both arguments, in either, or in exactly
/// one of them.
pub proof fn lemma_op_bits_i32(a: i32, b: i32)
    ensures
        OpBitAnd::<i32>::spec_op(a, b) == a & b,
        OpBitOr::<i32>::spec_op(a, b) == a | b,
        OpBitXor::<i32>::spec_op(a, b) == a ^ b,
        forall|k: u32|
            #![trigger (OpBitAnd::<i32>::spec_op(a, b) >> k)]
            k < 32 ==> ((OpBitAnd::<i32>::spec_op(a, b) >> k) & 1i32 == 1i32 <==> ((a >> k) & 1i32
                == 1i32 && (b >> k) & 1i32 == 1i32)),
        forall|k: u32|
            #![trigger (OpBitOr::<i32>::spec_op(a, b) >> k)]
            k < 32 ==> ((OpBitOr::<i32>::spec_op(a, b) >> k) & 1i32 == 1i32 <==> ((a >> k) & 1i32
                == 1i32 || (b >> k) & 1i32 == 1i32)),
        forall|k: u32|
            #![trigger (OpBitXor::<i32>::spec_op(a, b) >> k)]
            k < 32 ==> ((OpBitXor::<i32>::spec_op(a, b) >> k) & 1i32 == 1i32 <==> (((a >> k) & 1i32
                == 1i32) != ((b >> k) & 1i32 == 1i32))),
{
    assert(forall|k: u32|
        #![trigger ((a & b) >> k)]
        #![trigger ((a | b) >> k)]
        #![trigger ((a ^ b) >> k)]
        k < 32 ==> ((((a & b) >> k) & 1i32 == 1i32 <==> ((a >> k) & 1i32 == 1i32 && (b >> k) & 1i32 == 1i32))
            && (((a | b) >> k) & 1i32 == 1i32 <==> ((a >> k) & 1i32 == 1i32 || (b >> k) & 1i32 == 1i32))
            && (((a ^ b) >> k) & 1i32 == 1i32 <==> (((a >> k) & 1i32 == 1i32) != ((b >> k) & 1i32
            == 1i32))))) by (bit_vector);
}

/// The bitwise operations on `u64` are `&`, `|` and `^`: bit `k` of the
/// result is set when it is set in both arguments, in either, or in exactly
/// one of them.
pub proof fn lemma_op_bits_u64(a: u64, b: u64)
    ensures
        OpBitAnd::<u64>::spec_op(a, b) == a & b,
        OpBitOr::<u64>::spec_op(a, b) == a | b,
        OpBitXor::<u64>::spec_op(a, b) == a ^ b,
        forall|k: u32|
            #![trigger (OpBitAnd::<u64>::spec_op(a, b) >> k)]
            k < 64 ==> ((OpBitAnd::<u64>::spec_op(a, b) >> k) & 1u64 == 1u64 <==> ((a >> k) & 1u64
                == 1u64 && (b >> k) & 1u64 == 1u64)),
        forall|k: u32|
            #![trigger (OpBitOr::<u64>::spec_op(a, b) >> k)]
            k < 64 ==> ((OpBitOr::<u64>::spec_op(a, b) >> k) & 1u64 == 1u64 <==> ((a >> k) & 1u64
                == 1u64 || (b >> k) & 1u64 == 1u64)),
        forall|k: u32|
            #![trigger (OpBitXor::<u64>::spec_op(a, b) >> k)]
            k < 64 ==> ((OpBitXor::<u64>::spec_op(a, b) >> k) & 1u64 == 1u64 <==> (((a >> k) & 1u64
                == 1u64) != ((b >> k) & 1u64 == 1u64))),
{
    assert(forall|k: u32|
        #![trigger ((a & b) >> k)]
        #![trigger ((a | b) >> k)]
        #![trigger ((a ^ b) >> k)]
        k < 64 ==> ((((a & b) >> k) & 1u64 == 1u64 <==> ((a >> k) & 1u64 == 1u64 && (b >> k) & 1u64 == 1u64))
            && (((a | b) >> k) & 1u64 == 1u64 <==> ((a >> k) & 1u64 == 1u64 || (b >> k) & 1u64 == 1u64))
            && (((a ^ b) >> k) & 1u64 == 1u64 <==> (((a >> k) & 1u64 == 1u64) != ((b >> k) & 1u64
            == 1u64))))) by (bit_vector);
}

/// The bitwise operations on `i64` are `&`, `|` and `^`: bit `k` of the
/// result is set when it is set in both arguments, in either, or in exactly
/// one of them.
pub proof fn lemma_op_bits_i64(a: i64, b: i64)
    ensures
        OpBitAnd::<i64>::spec_op(a, b) == a & b,
        OpBitOr::<i64>::spec_op(a, b) == a | b,
        OpBitXor::<i64>::spec_op(a, b) == a ^ b,
        forall|k: u32|
            #![trigger (OpBitAnd::<i64>::spec_op(a, b) >> k)]
            k < 64 ==> ((OpBitAnd::<i64>::spec_op(a, b) >> k) & 1i64 == 1i64 <==> ((a >> k) & 1i64
                == 1i64 && (b >> k) & 1i64 == 1i64)),
        forall|k: u32|
            #![trigger (OpBitOr::<i64>::spec_op(a, b) >> k)]
            k < 64 ==> ((OpBitOr::<i64>::spec_op(a, b) >> k) & 1i64 == 1i64 <==> ((a >> k) & 1i64
                == 1i64 || (b >> k) & 1i64 == 1i64)),
        forall|k: u32|
            #![trigger (OpBitXor::<i64>::spec_op(a, b) >> k)]
            k < 64 ==> ((OpBitXor::<i64>::spec_op(a, b) >> k) & 1i64 == 1i64 <==> (((a >> k) & 1i64
                == 1i64) != ((b >> k) & 1i64 == 1i64))),
{
    assert(forall|k: u32|
        #![trigger ((a & b) >> k)]
        #![trigger ((a | b) >> k)]
        #![trigger ((a ^ b) >> k)]
        k < 64 ==> ((((a & b) >> k) & 1i64 == 1i64 <==> ((a >> k) & 1i64 == 1i64 && (b >> k) & 1i64 == 1i64))
            && (((a | b) >> k) & 1i64 == 1i64 <==> ((a >> k) & 1i64 == 1i64 || (b >> k) & 1i64 == 1i64))
            && (((a ^ b) >> k) & 1i64 == 1i64 <==> (((a >> k) & 1i64 == 1i64) != ((b >> k) & 1i64
            == 1i64))))) by (bit_vector);
}

/// The bitwise operations on `u128` are `&`, `|` and `^`: bit `k` of the
/// result is set when it is set in both arguments, in either, or in exactly
/// one of them.
pub proof fn lemma_op_bits_u128(a: u128, b: u128)
    ensures
        OpBitAnd::<u128>::spec_op(a, b) == a & b,
        OpBitOr::<u128>::spec_op(a, b) == a | b,
        OpBitXor::<u128>::spec_op(a, b) == a ^ b,
        forall|k: u32|
            #![trigger (OpBitAnd::<u128>::spec_op(a, b) >> k)]
            k < 128 ==> ((OpBitAnd::<u128>::spec_op(a, b) >> k) & 1u128 == 1u128 <==> ((a >> k) & 1u128
                == 1u128 && (b >> k) & 1u128 == 1u128)),
        forall|k: u32|
            #![trigger (OpBitOr::<u128>::spec_op(a, b) >> k)]
            k < 128 ==> ((OpBitOr::<u128>::spec_op(a, b) >> k) & 1u128 == 1u128 <==> ((a >> k) & 1u128
                == 1u128 || (b >> k) & 1u128 == 1u128)),
        forall|k: u32|
            #![trigger (OpBitXor::<u128>::spec_op(a, b) >> k)]
            k < 128 ==> ((OpBitXor::<u128>::spec_op(a, b) >> k) & 1u128 == 1u128 <==> (((a >> k) & 1u128
                == 1u128) != ((b >> k) & 1u128 == 1u128))),
{
    assert(forall|k: u32|
        #![trigger ((a & b) >> k)]
        #![trigger ((a | b) >> k)]
        #![trigger ((a ^ b) >> k)]
        k < 128 ==> ((((a & b) >> k) & 1u128 == 1u128 <==> ((a >> k) & 1u128 == 1u128 && (b >> k) & 1u128 == 1u128))
            && (((a | b) >> k) & 1u128 == 1u128 <==> ((a >> k) & 1u128 == 1u128 || (b >> k) & 1u128 == 1u128))
            && (((a ^ b) >> k) & 1u128 == 1u128 <==> (((a >> k) & 1u128 == 1u128) != ((b >> k) & 1u128
            == 1u128))))) by (bit_vector);
}

/// The bitwise operations on `i128` are `&`, `|` and `^`: bit `k` of the
/// result is set when it is set in both arguments, in either, or in exactly
/// one of them.
pub proof fn lemma_op_bits_i128(a: i128, b: i128)
    ensures
        OpBitAnd::<i128>::spec_op(a, b) == a & b,
        OpBitOr::<i128>::spec_op(a, b) == a | b,
        OpBitXor::<i128>::spec_op(a, b) == a ^ b,
        forall|k: u32|
            #![trigger (OpBitAnd::<i128>::spec_op(a, b) >> k)]
            k < 128 ==> ((OpBitAnd::<i128>::spec_op(a, b) >> k) & 1i128 == 1i128 <==> ((a >> k) & 1i128
                == 1i128 && (b >> k) & 1i128 == 1i128)),
        forall|k: u32|
            #![trigger (OpBitOr::<i128>::spec_op(a, b) >> k)]
            k < 128 ==> ((OpBitOr::<i128>::spec_op(a, b) >> k) & 1i128 == 1i128 <==> ((a >> k) & 1i128
                == 1i128 || (b >> k) & 1i128 == 1i128)),
        forall|k: u32|
            #![trigger (OpBitXor::<i128>::spec_op(a, b) >> k)]
            k < 128 ==> ((OpBitXor::<i128>::spec_op(a, b) >> k) & 1i128 == 1i128 <==> (((a >> k) & 1i128
                == 1i128) != ((b >> k) & 1i128 == 1i128))),
{
    assert(forall|k: u32|
        #![trigger ((a & b) >> k)]
        #![trigger ((a | b) >> k)]
        #![trigger ((a ^ b) >> k)]
        k < 128 ==> ((((a & b) >> k) & 1i128 == 1i128 <==> ((a >> k) & 1i128 == 1i128 && (b >> k) & 1i128 == 1i128))
            && (((a | b) >> k) & 1i128 == 1i128 <==> ((a >> k) & 1i128 == 1i128 || (b >> k) & 1i128 == 1i128))
            && (((a ^ b) >> k) & 1i128 == 1i128 <==> (((a >> k) & 1i128 == 1i128) != ((b >> k) & 1i128
            == 1i128))))) by (bit_vector);
}

/// The bitwise operations on `usize` are `&`, `|` and `^`: bit `k` of the
/// result is set when it is set in both arguments, in either, or in exactly
/// one of them.
pub proof fn lemma_op_bits_usize(a: usize, b: usize)
    ensures
        OpBitAnd::<usize>::spec_op(a, b) == a & b,
        OpBitOr::<usize>::spec_op(a, b) == a | b,
        OpBitXor::<usize>::spec_op(a, b) == a ^ b,
        forall|k: u32|
            #![trigger (OpBitAnd::<usize>::spec_op(a, b) >> k)]
            k < usize::BITS ==> ((OpBitAnd::<usize>::spec_op(a, b) >> k) & 1usize == 1usize <==> ((a >> k) & 1usize
                == 1usize && (b >> k) & 1usize == 1usize)),
        forall|k: u32|
            #![trigger (OpBitOr::<usize>::spec_op(a, b) >> k)]
            k < usize::BITS ==> ((OpBitOr::<usize>::spec_op(a, b) >> k) & 1usize == 1usize <==> ((a >> k) & 1usize
                == 1usize || (b >> k) & 1usize == 1usize)),
        forall|k: u32|
            #![trigger (OpBitXor::<usize>::spec_op(a, b) >> k)]
            k < usize::BITS ==> ((OpBitXor::<usize>::spec_op(a, b) >> k) & 1usize == 1usize <==> (((a >> k) & 1usize
                == 1usize) != ((b >> k) & 1usize == 1usize))),
{
    assert(forall|k: u32|
        #![trigger ((a & b) >> k)]
        #![trigger ((a | b) >> k)]
        #![trigger ((a ^ b) >> k)]
        k < usize::BITS ==> ((((a & b) >> k) & 1usize == 1usize <==> ((a >> k) & 1usize == 1usize && (b >> k) & 1usize == 1usize))
            && (((a | b) >> k) & 1usize == 1usize <==> ((a >> k) & 1usize == 1usize || (b >> k) & 1usize == 1usize))
            && (((a ^ b) >> k) & 1usize == 1usize <==> (((a >> k) & 1usize == 1usize) != ((b >> k) & 1usize
            == 1usize))))) by (bit_vector);
}

/// The bitwise operations on `isize` are `&`, `|` and `^`: bit `k` of the
/// result is set when it is set in both arguments, in either, or in exactly
/// one of them.
pub proof fn lemma_op_bits_isize(a: isize, b: isize)
    ensures
        OpBitAnd::<isize>::spec_op(a, b) == a & b,
        OpBitOr::<isize>::spec_op(a, b) == a | b,
        OpBitXor::<isize>::spec_op(a, b) == a ^ b,
        forall|k: u32|
            #![trigger (OpBitAnd::<isize>::spec_op(a, b) >> k)]
            k < isize::BITS ==> ((OpBitAnd::<isize>::spec_op(a, b) >> k) & 1isize == 1isize <==> ((a >> k) & 1isize
                == 1isize && (b >> k) & 1isize == 1isize)),
        forall|k: u32|
            #![trigger (OpBitOr::<isize>::spec_op(a, b) >> k)]
            k < isize::BITS ==> ((OpBitOr::<isize>::spec_op(a, b) >> k) & 1isize == 1isize <==> ((a >> k) & 1isize
                == 1isize || (b >> k) & 1isize == 1isize)),
        forall|k: u32|
            #![trigger (OpBitXor::<isize>::spec_op(a, b) >> k)]
            k < isize::BITS ==> ((OpBitXor::<isize>::spec_op(a, b) >> k) & 1isize == 1isize <==> (((a >> k) & 1isize
                == 1isize) != ((b >> k) & 1isize == 1isize))),
{
    assert(forall|k: u32|
        #![trigger ((a & b) >> k)]
        #![trigger ((a | b) >> k)]
        #![trigger ((a ^ b) >> k)]
        k < isize::BITS ==> ((((a & b) >> k) & 1isize == 1isize <==> ((a >> k) & 1isize == 1isize && (b >> k) & 1isize == 1isize))
            && (((a | b) >> k) & 1isize == 1isize <==> ((a >> k) & 1isize == 1isize || (b >> k) & 1isize == 1isize))
            && (((a ^ b) >> k) & 1isize == 1isize <==> (((a >> k) & 1isize == 1isize) != ((b >> k) & 1isize
            == 1isize))))) by (bit_vector);
}

/// `OpBitAnd<bool>` is true exactly when both arguments are.
pub proof fn lemma_op_bitand_bool(a: bool, b: bool)
    ensures
        OpBitAnd::<bool>::spec_op(a, b) <==> (a && b),
{
}

} // verus!
