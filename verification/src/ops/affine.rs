//! Composition of affine maps over the integers, and their action on sums.
use core::marker::PhantomData;
use vstd::prelude::*;
use crate::ops::{OpAdd, OpPair};
use crate::traits::{Identity, MonoidAction, SemiGroup};
use vstd::arithmetic::div_mod::{
    lemma_add_mod_noop, lemma_fundamental_div_mod, lemma_mod_twice, lemma_mul_mod_noop_left,
    lemma_mul_mod_noop_right,
};
use vstd::arithmetic::mul::{lemma_mul_is_associative, lemma_mul_is_distributive_add_other_way};

verus! {

/// Composition of affine maps `x -> a * x + b`: `op((a, b), (c, d))` is
/// `x -> c * (a * x + b) + d`, wrapping at the bounds of the integer type.
#[derive(Debug)]
pub struct OpAffine<T>(PhantomData<T>);

impl<T> Clone for OpAffine<T> {
    fn clone(&self) -> (res: Self)
        ensures
            res == *self,
    {
        *self
    }
}

impl<T> Copy for OpAffine<T> {
}

/// Two values of a type with `m` values that agree modulo `m` are equal.
proof fn lemma_same_residue(p: int, q: int, lo: int, m: int)
    requires
        m > 0,
        lo <= p < lo + m,
        lo <= q < lo + m,
        p % m == q % m,
    ensures
        p == q,
{
    lemma_fundamental_div_mod(p, m);
    lemma_fundamental_div_mod(q, m);
    let k = p / m - q / m;
    assert(p - q == m * k) by (nonlinear_arith)
        requires
            p == m * (p / m) + p % m,
            q == m * (q / m) + q % m,
            p % m == q % m,
            k == p / m - q / m,
    ;
    if k > 0 {
        assert(m * k >= m) by (nonlinear_arith)
            requires
                k >= 1,
                m > 0,
        ;
    } else if k < 0 {
        assert(m * k <= -m) by (nonlinear_arith)
            requires
                k <= -1,
                m > 0,
        ;
    }
}

/// Congruence modulo `m` is kept by multiplying on either side.
proof fn lemma_cong_mul(x: int, y: int, e: int, m: int)
    requires
        m > 0,
        x % m == y % m,
    ensures
        (x * e) % m == (y * e) % m,
        (e * x) % m == (e * y) % m,
{
    lemma_mul_mod_noop_left(x, e, m);
    lemma_mul_mod_noop_left(y, e, m);
    lemma_mul_mod_noop_right(e, x, m);
    lemma_mul_mod_noop_right(e, y, m);
}

/// Congruence modulo `m` is kept by adding on either side.
proof fn lemma_cong_add(x: int, y: int, f: int, m: int)
    requires
        m > 0,
        x % m == y % m,
    ensures
        (x + f) % m == (y + f) % m,
        (f + x) % m == (f + y) % m,
{
    lemma_add_mod_noop(x, f, m);
    lemma_add_mod_noop(y, f, m);
    lemma_add_mod_noop(f, x, m);
    lemma_add_mod_noop(f, y, m);
}

/// The two ways of composing three affine maps agree modulo `m`, whatever
/// representatives the intermediate products and sums take.
proof fn lemma_affine_assoc_mod(
    m: int,
    a: int,
    b: int,
    c: int,
    d: int,
    e: int,
    f: int,
    ac: int,
    ce: int,
    bc: int,
    bcd: int,
    de: int,
    def: int,
    bcde: int,
    bce: int,
    p0: int,
    q0: int,
    p1: int,
    q1: int,
)
    requires
        m > 0,
        ac % m == (a * c) % m,
        ce % m == (c * e) % m,
        bc % m == (b * c) % m,
        bcd % m == (bc + d) % m,
        de % m == (d * e) % m,
        def % m == (de + f) % m,
        bcde % m == (bcd * e) % m,
        bce % m == (b * ce) % m,
        p0 % m == (ac * e) % m,
        q0 % m == (a * ce) % m,
        p1 % m == (bcde + f) % m,
        q1 % m == (bce + def) % m,
    ensures
        p0 % m == q0 % m,
        p1 % m == q1 % m,
{
    // the linear parts: both are a * c * e
    lemma_cong_mul(ac, a * c, e, m);
    lemma_cong_mul(ce, c * e, a, m);
    lemma_mul_is_associative(a, c, e);
    // the constant parts: both are b * c * e + d * e + f
    lemma_cong_add(bcde, bcd * e, f, m);
    lemma_cong_mul(bcd, bc + d, e, m);
    lemma_cong_add(bcd * e, (bc + d) * e, f, m);
    lemma_cong_add(bc, b * c, d, m);
    lemma_cong_mul(bc + d, b * c + d, e, m);
    lemma_cong_add((bc + d) * e, (b * c + d) * e, f, m);
    lemma_mul_is_distributive_add_other_way(e, b * c, d);
    lemma_cong_add(bce, b * ce, def, m);
    lemma_cong_add(def, de + f, b * ce, m);
    lemma_cong_add(de, d * e, f + b * ce, m);
    lemma_cong_mul(ce, c * e, b, m);
    lemma_cong_add(b * ce, b * (c * e), d * e + f, m);
    lemma_mul_is_associative(b, c, e);
    assert(b * ce + (de + f) == de + (f + b * ce));
    assert(d * e + (f + b * ce) == b * ce + (d * e + f));
    assert(b * (c * e) + (d * e + f) == (b * c + d) * e + f);
}

/// Wrapping addition and multiplication of `u8` agree with those of the
/// integers modulo the number of values of `u8`.
pub(crate) proof fn lemma_wrap_u8(x: u8, y: u8)
    ensures
        vstd::wrapping::u8_specs::wrapping_add(x, y) as int % 0x100 == (x + y) % 0x100,
        vstd::wrapping::u8_specs::wrapping_mul(x, y) as int % 0x100 == (x * y) % 0x100,
{
    let v = x + y;
    if v > u8::MAX {
        vstd::arithmetic::div_mod::lemma_mod_sub_multiples_vanish(v, 0x100);
    }
    lemma_mod_twice(x * y, 0x100);
}

impl SemiGroup for OpAffine<u8> {
    type Set = (u8, u8);

    open spec fn spec_op(lhs: (u8, u8), rhs: (u8, u8)) -> (u8, u8) {
        (
            vstd::wrapping::u8_specs::wrapping_mul(lhs.0, rhs.0),
            vstd::wrapping::u8_specs::wrapping_add(vstd::wrapping::u8_specs::wrapping_mul(lhs.1, rhs.0), rhs.1),
        )
    }

    proof fn lemma_associative(x: (u8, u8), y: (u8, u8), z: (u8, u8)) {
        let m: int = 0x100;
        let (a, b) = x;
        let (c, d) = y;
        let (e, f) = z;
        let ac = vstd::wrapping::u8_specs::wrapping_mul(a, c);
        let ce = vstd::wrapping::u8_specs::wrapping_mul(c, e);
        let bc = vstd::wrapping::u8_specs::wrapping_mul(b, c);
        let bcd = vstd::wrapping::u8_specs::wrapping_add(bc, d);
        let de = vstd::wrapping::u8_specs::wrapping_mul(d, e);
        let def = vstd::wrapping::u8_specs::wrapping_add(de, f);
        let bcde = vstd::wrapping::u8_specs::wrapping_mul(bcd, e);
        let bce = vstd::wrapping::u8_specs::wrapping_mul(b, ce);
        let p0 = vstd::wrapping::u8_specs::wrapping_mul(ac, e);
        let q0 = vstd::wrapping::u8_specs::wrapping_mul(a, ce);
        let p1 = vstd::wrapping::u8_specs::wrapping_add(bcde, f);
        let q1 = vstd::wrapping::u8_specs::wrapping_add(bce, def);
        lemma_wrap_u8(a, c);
        lemma_wrap_u8(c, e);
        lemma_wrap_u8(b, c);
        lemma_wrap_u8(bc, d);
        lemma_wrap_u8(d, e);
        lemma_wrap_u8(de, f);
        lemma_wrap_u8(bcd, e);
        lemma_wrap_u8(b, ce);
        lemma_wrap_u8(ac, e);
        lemma_wrap_u8(a, ce);
        lemma_wrap_u8(bcde, f);
        lemma_wrap_u8(bce, def);
        lemma_affine_assoc_mod(
            m,
            a as int,
            b as int,
            c as int,
            d as int,
            e as int,
            f as int,
            ac as int,
            ce as int,
            bc as int,
            bcd as int,
            de as int,
            def as int,
            bcde as int,
            bce as int,
            p0 as int,
            q0 as int,
            p1 as int,
            q1 as int,
        );
        lemma_same_residue(p0 as int, q0 as int, u8::MIN as int, m);
        lemma_same_residue(p1 as int, q1 as int, u8::MIN as int, m);
    }

    fn op(lhs: (u8, u8), rhs: (u8, u8)) -> (res: (u8, u8)) {
        (lhs.0.wrapping_mul(rhs.0), lhs.1.wrapping_mul(rhs.0).wrapping_add(rhs.1))
    }
}

impl Identity for OpAffine<u8> {
    open spec fn spec_id() -> (u8, u8) {
        (1, 0)
    }

    proof fn lemma_identity(x: (u8, u8)) {
        let m: int = 0x100;
        let (a, b) = x;
        lemma_wrap_u8(1, a);
        lemma_wrap_u8(a, 1);
        lemma_wrap_u8(0, a);
        lemma_wrap_u8(b, 1);
        let z = vstd::wrapping::u8_specs::wrapping_mul(0, a);
        let b1 = vstd::wrapping::u8_specs::wrapping_mul(b, 1);
        lemma_wrap_u8(z, b);
        lemma_wrap_u8(b1, 0);
        lemma_same_residue(vstd::wrapping::u8_specs::wrapping_mul(1, a) as int, a as int, u8::MIN as int, m);
        lemma_same_residue(vstd::wrapping::u8_specs::wrapping_mul(a, 1) as int, a as int, u8::MIN as int, m);
        lemma_same_residue(z as int, 0, u8::MIN as int, m);
        lemma_same_residue(b1 as int, b as int, u8::MIN as int, m);
        lemma_same_residue(vstd::wrapping::u8_specs::wrapping_add(z, b) as int, b as int, u8::MIN as int, m);
        lemma_same_residue(vstd::wrapping::u8_specs::wrapping_add(b1, 0) as int, b as int, u8::MIN as int, m);
    }

    fn id() -> (res: (u8, u8)) {
        (1, 0)
    }
}

/// Wrapping addition and multiplication of `i8` agree with those of the
/// integers modulo the number of values of `i8`.
pub(crate) proof fn lemma_wrap_i8(x: i8, y: i8)
    ensures
        vstd::wrapping::i8_specs::wrapping_add(x, y) as int % 0x100 == (x + y) % 0x100,
        vstd::wrapping::i8_specs::wrapping_mul(x, y) as int % 0x100 == (x * y) % 0x100,
{
    let v = x + y;
    if v > i8::MAX {
        vstd::arithmetic::div_mod::lemma_mod_sub_multiples_vanish(v, 0x100);
    } else if v < i8::MIN {
        vstd::arithmetic::div_mod::lemma_mod_add_multiples_vanish(v, 0x100);
    }
    let r = (x * y) % 0x100;
    lemma_mod_twice(x * y, 0x100);
    if r > i8::MAX {
        vstd::arithmetic::div_mod::lemma_mod_sub_multiples_vanish(r, 0x100);
    }
}

impl SemiGroup for OpAffine<i8> {
    type Set = (i8, i8);

    open spec fn spec_op(lhs: (i8, i8), rhs: (i8, i8)) -> (i8, i8) {
        (
            vstd::wrapping::i8_specs::wrapping_mul(lhs.0, rhs.0),
            vstd::wrapping::i8_specs::wrapping_add(vstd::wrapping::i8_specs::wrapping_mul(lhs.1, rhs.0), rhs.1),
        )
    }

    proof fn lemma_associative(x: (i8, i8), y: (i8, i8), z: (i8, i8)) {
        let m: int = 0x100;
        let (a, b) = x;
        let (c, d) = y;
        let (e, f) = z;
        let ac = vstd::wrapping::i8_specs::wrapping_mul(a, c);
        let ce = vstd::wrapping::i8_specs::wrapping_mul(c, e);
        let bc = vstd::wrapping::i8_specs::wrapping_mul(b, c);
        let bcd = vstd::wrapping::i8_specs::wrapping_add(bc, d);
        let de = vstd::wrapping::i8_specs::wrapping_mul(d, e);
        let def = vstd::wrapping::i8_specs::wrapping_add(de, f);
        let bcde = vstd::wrapping::i8_specs::wrapping_mul(bcd, e);
        let bce = vstd::wrapping::i8_specs::wrapping_mul(b, ce);
        let p0 = vstd::wrapping::i8_specs::wrapping_mul(ac, e);
        let q0 = vstd::wrapping::i8_specs::wrapping_mul(a, ce);
        let p1 = vstd::wrapping::i8_specs::wrapping_add(bcde, f);
        let q1 = vstd::wrapping::i8_specs::wrapping_add(bce, def);
        lemma_wrap_i8(a, c);
        lemma_wrap_i8(c, e);
        lemma_wrap_i8(b, c);
        lemma_wrap_i8(bc, d);
        lemma_wrap_i8(d, e);
        lemma_wrap_i8(de, f);
        lemma_wrap_i8(bcd, e);
        lemma_wrap_i8(b, ce);
        lemma_wrap_i8(ac, e);
        lemma_wrap_i8(a, ce);
        lemma_wrap_i8(bcde, f);
        lemma_wrap_i8(bce, def);
        lemma_affine_assoc_mod(
            m,
            a as int,
            b as int,
            c as int,
            d as int,
            e as int,
            f as int,
            ac as int,
            ce as int,
            bc as int,
            bcd as int,
            de as int,
            def as int,
            bcde as int,
            bce as int,
            p0 as int,
            q0 as int,
            p1 as int,
            q1 as int,
        );
        lemma_same_residue(p0 as int, q0 as int, i8::MIN as int, m);
        lemma_same_residue(p1 as int, q1 as int, i8::MIN as int, m);
    }

    fn op(lhs: (i8, i8), rhs: (i8, i8)) -> (res: (i8, i8)) {
        (lhs.0.wrapping_mul(rhs.0), lhs.1.wrapping_mul(rhs.0).wrapping_add(rhs.1))
    }
}

impl Identity for OpAffine<i8> {
    open spec fn spec_id() -> (i8, i8) {
        (1, 0)
    }

    proof fn lemma_identity(x: (i8, i8)) {
        let m: int = 0x100;
        let (a, b) = x;
        lemma_wrap_i8(1, a);
        lemma_wrap_i8(a, 1);
        lemma_wrap_i8(0, a);
        lemma_wrap_i8(b, 1);
        let z = vstd::wrapping::i8_specs::wrapping_mul(0, a);
        let b1 = vstd::wrapping::i8_specs::wrapping_mul(b, 1);
        lemma_wrap_i8(z, b);
        lemma_wrap_i8(b1, 0);
        lemma_same_residue(vstd::wrapping::i8_specs::wrapping_mul(1, a) as int, a as int, i8::MIN as int, m);
        lemma_same_residue(vstd::wrapping::i8_specs::wrapping_mul(a, 1) as int, a as int, i8::MIN as int, m);
        lemma_same_residue(z as int, 0, i8::MIN as int, m);
        lemma_same_residue(b1 as int, b as int, i8::MIN as int, m);
        lemma_same_residue(vstd::wrapping::i8_specs::wrapping_add(z, b) as int, b as int, i8::MIN as int, m);
        lemma_same_residue(vstd::wrapping::i8_specs::wrapping_add(b1, 0) as int, b as int, i8::MIN as int, m);
    }

    fn id() -> (res: (i8, i8)) {
        (1, 0)
    }
}

/// Wrapping addition and multiplication of `u16` agree with those of the
/// integers modulo the number of values of `u16`.
pub(crate) proof fn lemma_wrap_u16(x: u16, y: u16)
    ensures
        vstd::wrapping::u16_specs::wrapping_add(x, y) as int % 0x1_0000 == (x + y) % 0x1_0000,
        vstd::wrapping::u16_specs::wrapping_mul(x, y) as int % 0x1_0000 == (x * y) % 0x1_0000,
{
    let v = x + y;
    if v > u16::MAX {
        vstd::arithmetic::div_mod::lemma_mod_sub_multiples_vanish(v, 0x1_0000);
    }
    lemma_mod_twice(x * y, 0x1_0000);
}

impl SemiGroup for OpAffine<u16> {
    type Set = (u16, u16);

    open spec fn spec_op(lhs: (u16, u16), rhs: (u16, u16)) -> (u16, u16) {
        (
            vstd::wrapping::u16_specs::wrapping_mul(lhs.0, rhs.0),
            vstd::wrapping::u16_specs::wrapping_add(vstd::wrapping::u16_specs::wrapping_mul(lhs.1, rhs.0), rhs.1),
        )
    }

    proof fn lemma_associative(x: (u16, u16), y: (u16, u16), z: (u16, u16)) {
        let m: int = 0x1_0000;
        let (a, b) = x;
        let (c, d) = y;
        let (e, f) = z;
        let ac = vstd::wrapping::u16_specs::wrapping_mul(a, c);
        let ce = vstd::wrapping::u16_specs::wrapping_mul(c, e);
        let bc = vstd::wrapping::u16_specs::wrapping_mul(b, c);
        let bcd = vstd::wrapping::u16_specs::wrapping_add(bc, d);
        let de = vstd::wrapping::u16_specs::wrapping_mul(d, e);
        let def = vstd::wrapping::u16_specs::wrapping_add(de, f);
        let bcde = vstd::wrapping::u16_specs::wrapping_mul(bcd, e);
        let bce = vstd::wrapping::u16_specs::wrapping_mul(b, ce);
        let p0 = vstd::wrapping::u16_specs::wrapping_mul(ac, e);
        let q0 = vstd::wrapping::u16_specs::wrapping_mul(a, ce);
        let p1 = vstd::wrapping::u16_specs::wrapping_add(bcde, f);
        let q1 = vstd::wrapping::u16_specs::wrapping_add(bce, def);
        lemma_wrap_u16(a, c);
        lemma_wrap_u16(c, e);
        lemma_wrap_u16(b, c);
        lemma_wrap_u16(bc, d);
        lemma_wrap_u16(d, e);
        lemma_wrap_u16(de, f);
        lemma_wrap_u16(bcd, e);
        lemma_wrap_u16(b, ce);
        lemma_wrap_u16(ac, e);
        lemma_wrap_u16(a, ce);
        lemma_wrap_u16(bcde, f);
        lemma_wrap_u16(bce, def);
        lemma_affine_assoc_mod(
            m,
            a as int,
            b as int,
            c as int,
            d as int,
            e as int,
            f as int,
            ac as int,
            ce as int,
            bc as int,
            bcd as int,
            de as int,
            def as int,
            bcde as int,
            bce as int,
            p0 as int,
            q0 as int,
            p1 as int,
            q1 as int,
        );
        lemma_same_residue(p0 as int, q0 as int, u16::MIN as int, m);
        lemma_same_residue(p1 as int, q1 as int, u16::MIN as int, m);
    }

    fn op(lhs: (u16, u16), rhs: (u16, u16)) -> (res: (u16, u16)) {
        (lhs.0.wrapping_mul(rhs.0), lhs.1.wrapping_mul(rhs.0).wrapping_add(rhs.1))
    }
}

impl Identity for OpAffine<u16> {
    open spec fn spec_id() -> (u16, u16) {
        (1, 0)
    }

    proof fn lemma_identity(x: (u16, u16)) {
        let m: int = 0x1_0000;
        let (a, b) = x;
        lemma_wrap_u16(1, a);
        lemma_wrap_u16(a, 1);
        lemma_wrap_u16(0, a);
        lemma_wrap_u16(b, 1);
        let z = vstd::wrapping::u16_specs::wrapping_mul(0, a);
        let b1 = vstd::wrapping::u16_specs::wrapping_mul(b, 1);
        lemma_wrap_u16(z, b);
        lemma_wrap_u16(b1, 0);
        lemma_same_residue(vstd::wrapping::u16_specs::wrapping_mul(1, a) as int, a as int, u16::MIN as int, m);
        lemma_same_residue(vstd::wrapping::u16_specs::wrapping_mul(a, 1) as int, a as int, u16::MIN as int, m);
        lemma_same_residue(z as int, 0, u16::MIN as int, m);
        lemma_same_residue(b1 as int, b as int, u16::MIN as int, m);
        lemma_same_residue(vstd::wrapping::u16_specs::wrapping_add(z, b) as int, b as int, u16::MIN as int, m);
        lemma_same_residue(vstd::wrapping::u16_specs::wrapping_add(b1, 0) as int, b as int, u16::MIN as int, m);
    }

    fn id() -> (res: (u16, u16)) {
        (1, 0)
    }
}

/// Wrapping addition and multiplication of `i16` agree with those of the
/// integers modulo the number of values of `i16`.
pub(crate) proof fn lemma_wrap_i16(x: i16, y: i16)
    ensures
        vstd::wrapping::i16_specs::wrapping_add(x, y) as int % 0x1_0000 == (x + y) % 0x1_0000,
        vstd::wrapping::i16_specs::wrapping_mul(x, y) as int % 0x1_0000 == (x * y) % 0x1_0000,
{
    let v = x + y;
    if v > i16::MAX {
        vstd::arithmetic::div_mod::lemma_mod_sub_multiples_vanish(v, 0x1_0000);
    } else if v < i16::MIN {
        vstd::arithmetic::div_mod::lemma_mod_add_multiples_vanish(v, 0x1_0000);
    }
    let r = (x * y) % 0x1_0000;
    lemma_mod_twice(x * y, 0x1_0000);
    if r > i16::MAX {
        vstd::arithmetic::div_mod::lemma_mod_sub_multiples_vanish(r, 0x1_0000);
    }
}

impl SemiGroup for OpAffine<i16> {
    type Set = (i16, i16);

    open spec fn spec_op(lhs: (i16, i16), rhs: (i16, i16)) -> (i16, i16) {
        (
            vstd::wrapping::i16_specs::wrapping_mul(lhs.0, rhs.0),
            vstd::wrapping::i16_specs::wrapping_add(vstd::wrapping::i16_specs::wrapping_mul(lhs.1, rhs.0), rhs.1),
        )
    }

    proof fn lemma_associative(x: (i16, i16), y: (i16, i16), z: (i16, i16)) {
        let m: int = 0x1_0000;
        let (a, b) = x;
        let (c, d) = y;
        let (e, f) = z;
        let ac = vstd::wrapping::i16_specs::wrapping_mul(a, c);
        let ce = vstd::wrapping::i16_specs::wrapping_mul(c, e);
        let bc = vstd::wrapping::i16_specs::wrapping_mul(b, c);
        let bcd = vstd::wrapping::i16_specs::wrapping_add(bc, d);
        let de = vstd::wrapping::i16_specs::wrapping_mul(d, e);
        let def = vstd::wrapping::i16_specs::wrapping_add(de, f);
        let bcde = vstd::wrapping::i16_specs::wrapping_mul(bcd, e);
        let bce = vstd::wrapping::i16_specs::wrapping_mul(b, ce);
        let p0 = vstd::wrapping::i16_specs::wrapping_mul(ac, e);
        let q0 = vstd::wrapping::i16_specs::wrapping_mul(a, ce);
        let p1 = vstd::wrapping::i16_specs::wrapping_add(bcde, f);
        let q1 = vstd::wrapping::i16_specs::wrapping_add(bce, def);
        lemma_wrap_i16(a, c);
        lemma_wrap_i16(c, e);
        lemma_wrap_i16(b, c);
        lemma_wrap_i16(bc, d);
        lemma_wrap_i16(d, e);
        lemma_wrap_i16(de, f);
        lemma_wrap_i16(bcd, e);
        lemma_wrap_i16(b, ce);
        lemma_wrap_i16(ac, e);
        lemma_wrap_i16(a, ce);
        lemma_wrap_i16(bcde, f);
        lemma_wrap_i16(bce, def);
        lemma_affine_assoc_mod(
            m,
            a as int,
            b as int,
            c as int,
            d as int,
            e as int,
            f as int,
            ac as int,
            ce as int,
            bc as int,
            bcd as int,
            de as int,
            def as int,
            bcde as int,
            bce as int,
            p0 as int,
            q0 as int,
            p1 as int,
            q1 as int,
        );
        lemma_same_residue(p0 as int, q0 as int, i16::MIN as int, m);
        lemma_same_residue(p1 as int, q1 as int, i16::MIN as int, m);
    }

    fn op(lhs: (i16, i16), rhs: (i16, i16)) -> (res: (i16, i16)) {
        (lhs.0.wrapping_mul(rhs.0), lhs.1.wrapping_mul(rhs.0).wrapping_add(rhs.1))
    }
}

impl Identity for OpAffine<i16> {
    open spec fn spec_id() -> (i16, i16) {
        (1, 0)
    }

    proof fn lemma_identity(x: (i16, i16)) {
        let m: int = 0x1_0000;
        let (a, b) = x;
        lemma_wrap_i16(1, a);
        lemma_wrap_i16(a, 1);
        lemma_wrap_i16(0, a);
        lemma_wrap_i16(b, 1);
        let z = vstd::wrapping::i16_specs::wrapping_mul(0, a);
        let b1 = vstd::wrapping::i16_specs::wrapping_mul(b, 1);
        lemma_wrap_i16(z, b);
        lemma_wrap_i16(b1, 0);
        lemma_same_residue(vstd::wrapping::i16_specs::wrapping_mul(1, a) as int, a as int, i16::MIN as int, m);
        lemma_same_residue(vstd::wrapping::i16_specs::wrapping_mul(a, 1) as int, a as int, i16::MIN as int, m);
        lemma_same_residue(z as int, 0, i16::MIN as int, m);
        lemma_same_residue(b1 as int, b as int, i16::MIN as int, m);
        lemma_same_residue(vstd::wrapping::i16_specs::wrapping_add(z, b) as int, b as int, i16::MIN as int, m);
        lemma_same_residue(vstd::wrapping::i16_specs::wrapping_add(b1, 0) as int, b as int, i16::MIN as int, m);
    }

    fn id() -> (res: (i16, i16)) {
        (1, 0)
    }
}

/// Wrapping addition and multiplication of `u32` agree with those of the
/// integers modulo the number of values of `u32`.
pub(crate) proof fn lemma_wrap_u32(x: u32, y: u32)
    ensures
        vstd::wrapping::u32_specs::wrapping_add(x, y) as int % 0x1_0000_0000 == (x + y) % 0x1_0000_0000,
        vstd::wrapping::u32_specs::wrapping_mul(x, y) as int % 0x1_0000_0000 == (x * y) % 0x1_0000_0000,
{
    let v = x + y;
    if v > u32::MAX {
        vstd::arithmetic::div_mod::lemma_mod_sub_multiples_vanish(v, 0x1_0000_0000);
    }
    lemma_mod_twice(x * y, 0x1_0000_0000);
}

impl SemiGroup for OpAffine<u32> {
    type Set = (u32, u32);

    open spec fn spec_op(lhs: (u32, u32), rhs: (u32, u32)) -> (u32, u32) {
        (
            vstd::wrapping::u32_specs::wrapping_mul(lhs.0, rhs.0),
            vstd::wrapping::u32_specs::wrapping_add(vstd::wrapping::u32_specs::wrapping_mul(lhs.1, rhs.0), rhs.1),
        )
    }

    proof fn lemma_associative(x: (u32, u32), y: (u32, u32), z: (u32, u32)) {
        let m: int = 0x1_0000_0000;
        let (a, b) = x;
        let (c, d) = y;
        let (e, f) = z;
        let ac = vstd::wrapping::u32_specs::wrapping_mul(a, c);
        let ce = vstd::wrapping::u32_specs::wrapping_mul(c, e);
        let bc = vstd::wrapping::u32_specs::wrapping_mul(b, c);
        let bcd = vstd::wrapping::u32_specs::wrapping_add(bc, d);
        let de = vstd::wrapping::u32_specs::wrapping_mul(d, e);
        let def = vstd::wrapping::u32_specs::wrapping_add(de, f);
        let bcde = vstd::wrapping::u32_specs::wrapping_mul(bcd, e);
        let bce = vstd::wrapping::u32_specs::wrapping_mul(b, ce);
        let p0 = vstd::wrapping::u32_specs::wrapping_mul(ac, e);
        let q0 = vstd::wrapping::u32_specs::wrapping_mul(a, ce);
        let p1 = vstd::wrapping::u32_specs::wrapping_add(bcde, f);
        let q1 = vstd::wrapping::u32_specs::wrapping_add(bce, def);
        lemma_wrap_u32(a, c);
        lemma_wrap_u32(c, e);
        lemma_wrap_u32(b, c);
        lemma_wrap_u32(bc, d);
        lemma_wrap_u32(d, e);
        lemma_wrap_u32(de, f);
        lemma_wrap_u32(bcd, e);
        lemma_wrap_u32(b, ce);
        lemma_wrap_u32(ac, e);
        lemma_wrap_u32(a, ce);
        lemma_wrap_u32(bcde, f);
        lemma_wrap_u32(bce, def);
        lemma_affine_assoc_mod(
            m,
            a as int,
            b as int,
            c as int,
            d as int,
            e as int,
            f as int,
            ac as int,
            ce as int,
            bc as int,
            bcd as int,
            de as int,
            def as int,
            bcde as int,
            bce as int,
            p0 as int,
            q0 as int,
            p1 as int,
            q1 as int,
        );
        lemma_same_residue(p0 as int, q0 as int, u32::MIN as int, m);
        lemma_same_residue(p1 as int, q1 as int, u32::MIN as int, m);
    }

    fn op(lhs: (u32, u32), rhs: (u32, u32)) -> (res: (u32, u32)) {
        (lhs.0.wrapping_mul(rhs.0), lhs.1.wrapping_mul(rhs.0).wrapping_add(rhs.1))
    }
}

impl Identity for OpAffine<u32> {
    open spec fn spec_id() -> (u32, u32) {
        (1, 0)
    }

    proof fn lemma_identity(x: (u32, u32)) {
        let m: int = 0x1_0000_0000;
        let (a, b) = x;
        lemma_wrap_u32(1, a);
        lemma_wrap_u32(a, 1);
        lemma_wrap_u32(0, a);
        lemma_wrap_u32(b, 1);
        let z = vstd::wrapping::u32_specs::wrapping_mul(0, a);
        let b1 = vstd::wrapping::u32_specs::wrapping_mul(b, 1);
        lemma_wrap_u32(z, b);
        lemma_wrap_u32(b1, 0);
        lemma_same_residue(vstd::wrapping::u32_specs::wrapping_mul(1, a) as int, a as int, u32::MIN as int, m);
        lemma_same_residue(vstd::wrapping::u32_specs::wrapping_mul(a, 1) as int, a as int, u32::MIN as int, m);
        lemma_same_residue(z as int, 0, u32::MIN as int, m);
        lemma_same_residue(b1 as int, b as int, u32::MIN as int, m);
        lemma_same_residue(vstd::wrapping::u32_specs::wrapping_add(z, b) as int, b as int, u32::MIN as int, m);
        lemma_same_residue(vstd::wrapping::u32_specs::wrapping_add(b1, 0) as int, b as int, u32::MIN as int, m);
    }

    fn id() -> (res: (u32, u32)) {
        (1, 0)
    }
}

/// Wrapping addition and multiplication of `i32` agree with those of the
/// integers modulo the number of values of `i32`.
pub(crate) proof fn lemma_wrap_i32(x: i32, y: i32)
    ensures
        vstd::wrapping::i32_specs::wrapping_add(x, y) as int % 0x1_0000_0000 == (x + y) % 0x1_0000_0000,
        vstd::wrapping::i32_specs::wrapping_mul(x, y) as int % 0x1_0000_0000 == (x * y) % 0x1_0000_0000,
{
    let v = x + y;
    if v > i32::MAX {
        vstd::arithmetic::div_mod::lemma_mod_sub_multiples_vanish(v, 0x1_0000_0000);
    } else if v < i32::MIN {
        vstd::arithmetic::div_mod::lemma_mod_add_multiples_vanish(v, 0x1_0000_0000);
    }
    let r = (x * y) % 0x1_0000_0000;
    lemma_mod_twice(x * y, 0x1_0000_0000);
    if r > i32::MAX {
        vstd::arithmetic::div_mod::lemma_mod_sub_multiples_vanish(r, 0x1_0000_0000);
    }
}

impl SemiGroup for OpAffine<i32> {
    type Set = (i32, i32);

    open spec fn spec_op(lhs: (i32, i32), rhs: (i32, i32)) -> (i32, i32) {
        (
            vstd::wrapping::i32_specs::wrapping_mul(lhs.0, rhs.0),
            vstd::wrapping::i32_specs::wrapping_add(vstd::wrapping::i32_specs::wrapping_mul(lhs.1, rhs.0), rhs.1),
        )
    }

    proof fn lemma_associative(x: (i32, i32), y: (i32, i32), z: (i32, i32)) {
        let m: int = 0x1_0000_0000;
        let (a, b) = x;
        let (c, d) = y;
        let (e, f) = z;
        let ac = vstd::wrapping::i32_specs::wrapping_mul(a, c);
        let ce = vstd::wrapping::i32_specs::wrapping_mul(c, e);
        let bc = vstd::wrapping::i32_specs::wrapping_mul(b, c);
        let bcd = vstd::wrapping::i32_specs::wrapping_add(bc, d);
        let de = vstd::wrapping::i32_specs::wrapping_mul(d, e);
        let def = vstd::wrapping::i32_specs::wrapping_add(de, f);
        let bcde = vstd::wrapping::i32_specs::wrapping_mul(bcd, e);
        let bce = vstd::wrapping::i32_specs::wrapping_mul(b, ce);
        let p0 = vstd::wrapping::i32_specs::wrapping_mul(ac, e);
        let q0 = vstd::wrapping::i32_specs::wrapping_mul(a, ce);
        let p1 = vstd::wrapping::i32_specs::wrapping_add(bcde, f);
        let q1 = vstd::wrapping::i32_specs::wrapping_add(bce, def);
        lemma_wrap_i32(a, c);
        lemma_wrap_i32(c, e);
        lemma_wrap_i32(b, c);
        lemma_wrap_i32(bc, d);
        lemma_wrap_i32(d, e);
        lemma_wrap_i32(de, f);
        lemma_wrap_i32(bcd, e);
        lemma_wrap_i32(b, ce);
        lemma_wrap_i32(ac, e);
        lemma_wrap_i32(a, ce);
        lemma_wrap_i32(bcde, f);
        lemma_wrap_i32(bce, def);
        lemma_affine_assoc_mod(
            m,
            a as int,
            b as int,
            c as int,
            d as int,
            e as int,
            f as int,
            ac as int,
            ce as int,
            bc as int,
            bcd as int,
            de as int,
            def as int,
            bcde as int,
            bce as int,
            p0 as int,
            q0 as int,
            p1 as int,
            q1 as int,
        );
        lemma_same_residue(p0 as int, q0 as int, i32::MIN as int, m);
        lemma_same_residue(p1 as int, q1 as int, i32::MIN as int, m);
    }

    fn op(lhs: (i32, i32), rhs: (i32, i32)) -> (res: (i32, i32)) {
        (lhs.0.wrapping_mul(rhs.0), lhs.1.wrapping_mul(rhs.0).wrapping_add(rhs.1))
    }
}

impl Identity for OpAffine<i32> {
    open spec fn spec_id() -> (i32, i32) {
        (1, 0)
    }

    proof fn lemma_identity(x: (i32, i32)) {
        let m: int = 0x1_0000_0000;
        let (a, b) = x;
        lemma_wrap_i32(1, a);
        lemma_wrap_i32(a, 1);
        lemma_wrap_i32(0, a);
        lemma_wrap_i32(b, 1);
        let z = vstd::wrapping::i32_specs::wrapping_mul(0, a);
        let b1 = vstd::wrapping::i32_specs::wrapping_mul(b, 1);
        lemma_wrap_i32(z, b);
        lemma_wrap_i32(b1, 0);
        lemma_same_residue(vstd::wrapping::i32_specs::wrapping_mul(1, a) as int, a as int, i32::MIN as int, m);
        lemma_same_residue(vstd::wrapping::i32_specs::wrapping_mul(a, 1) as int, a as int, i32::MIN as int, m);
        lemma_same_residue(z as int, 0, i32::MIN as int, m);
        lemma_same_residue(b1 as int, b as int, i32::MIN as int, m);
        lemma_same_residue(vstd::wrapping::i32_specs::wrapping_add(z, b) as int, b as int, i32::MIN as int, m);
        lemma_same_residue(vstd::wrapping::i32_specs::wrapping_add(b1, 0) as int, b as int, i32::MIN as int, m);
    }

    fn id() -> (res: (i32, i32)) {
        (1, 0)
    }
}

/// Wrapping addition and multiplication of `u64` agree with those of the
/// integers modulo the number of values of `u64`.
pub(crate) proof fn lemma_wrap_u64(x: u64, y: u64)
    ensures
        vstd::wrapping::u64_specs::wrapping_add(x, y) as int % 0x1_0000_0000_0000_0000 == (x + y) % 0x1_0000_0000_0000_0000,
        vstd::wrapping::u64_specs::wrapping_mul(x, y) as int % 0x1_0000_0000_0000_0000 == (x * y) % 0x1_0000_0000_0000_0000,
{
    let v = x + y;
    if v > u64::MAX {
        vstd::arithmetic::div_mod::lemma_mod_sub_multiples_vanish(v, 0x1_0000_0000_0000_0000);
    }
    lemma_mod_twice(x * y, 0x1_0000_0000_0000_0000);
}

impl SemiGroup for OpAffine<u64> {
    type Set = (u64, u64);

    open spec fn spec_op(lhs: (u64, u64), rhs: (u64, u64)) -> (u64, u64) {
        (
            vstd::wrapping::u64_specs::wrapping_mul(lhs.0, rhs.0),
            vstd::wrapping::u64_specs::wrapping_add(vstd::wrapping::u64_specs::wrapping_mul(lhs.1, rhs.0), rhs.1),
        )
    }

    proof fn lemma_associative(x: (u64, u64), y: (u64, u64), z: (u64, u64)) {
        let m: int = 0x1_0000_0000_0000_0000;
        let (a, b) = x;
        let (c, d) = y;
        let (e, f) = z;
        let ac = vstd::wrapping::u64_specs::wrapping_mul(a, c);
        let ce = vstd::wrapping::u64_specs::wrapping_mul(c, e);
        let bc = vstd::wrapping::u64_specs::wrapping_mul(b, c);
        let bcd = vstd::wrapping::u64_specs::wrapping_add(bc, d);
        let de = vstd::wrapping::u64_specs::wrapping_mul(d, e);
        let def = vstd::wrapping::u64_specs::wrapping_add(de, f);
        let bcde = vstd::wrapping::u64_specs::wrapping_mul(bcd, e);
        let bce = vstd::wrapping::u64_specs::wrapping_mul(b, ce);
        let p0 = vstd::wrapping::u64_specs::wrapping_mul(ac, e);
        let q0 = vstd::wrapping::u64_specs::wrapping_mul(a, ce);
        let p1 = vstd::wrapping::u64_specs::wrapping_add(bcde, f);
        let q1 = vstd::wrapping::u64_specs::wrapping_add(bce, def);
        lemma_wrap_u64(a, c);
        lemma_wrap_u64(c, e);
        lemma_wrap_u64(b, c);
        lemma_wrap_u64(bc, d);
        lemma_wrap_u64(d, e);
        lemma_wrap_u64(de, f);
        lemma_wrap_u64(bcd, e);
        lemma_wrap_u64(b, ce);
        lemma_wrap_u64(ac, e);
        lemma_wrap_u64(a, ce);
        lemma_wrap_u64(bcde, f);
        lemma_wrap_u64(bce, def);
        lemma_affine_assoc_mod(
            m,
            a as int,
            b as int,
            c as int,
            d as int,
            e as int,
            f as int,
            ac as int,
            ce as int,
            bc as int,
            bcd as int,
            de as int,
            def as int,
            bcde as int,
            bce as int,
            p0 as int,
            q0 as int,
            p1 as int,
            q1 as int,
        );
        lemma_same_residue(p0 as int, q0 as int, u64::MIN as int, m);
        lemma_same_residue(p1 as int, q1 as int, u64::MIN as int, m);
    }

    fn op(lhs: (u64, u64), rhs: (u64, u64)) -> (res: (u64, u64)) {
        (lhs.0.wrapping_mul(rhs.0), lhs.1.wrapping_mul(rhs.0).wrapping_add(rhs.1))
    }
}

impl Identity for OpAffine<u64> {
    open spec fn spec_id() -> (u64, u64) {
        (1, 0)
    }

    proof fn lemma_identity(x: (u64, u64)) {
        let m: int = 0x1_0000_0000_0000_0000;
        let (a, b) = x;
        lemma_wrap_u64(1, a);
        lemma_wrap_u64(a, 1);
        lemma_wrap_u64(0, a);
        lemma_wrap_u64(b, 1);
        let z = vstd::wrapping::u64_specs::wrapping_mul(0, a);
        let b1 = vstd::wrapping::u64_specs::wrapping_mul(b, 1);
        lemma_wrap_u64(z, b);
        lemma_wrap_u64(b1, 0);
        lemma_same_residue(vstd::wrapping::u64_specs::wrapping_mul(1, a) as int, a as int, u64::MIN as int, m);
        lemma_same_residue(vstd::wrapping::u64_specs::wrapping_mul(a, 1) as int, a as int, u64::MIN as int, m);
        lemma_same_residue(z as int, 0, u64::MIN as int, m);
        lemma_same_residue(b1 as int, b as int, u64::MIN as int, m);
        lemma_same_residue(vstd::wrapping::u64_specs::wrapping_add(z, b) as int, b as int, u64::MIN as int, m);
        lemma_same_residue(vstd::wrapping::u64_specs::wrapping_add(b1, 0) as int, b as int, u64::MIN as int, m);
    }

    fn id() -> (res: (u64, u64)) {
        (1, 0)
    }
}

/// Congruence modulo `m` is kept by products.
proof fn lemma_cong_mul2(x: int, x2: int, y: int, y2: int, m: int)
    requires
        m > 0,
        x % m == x2 % m,
        y % m == y2 % m,
    ensures
        (x * y) % m == (x2 * y2) % m,
{
    lemma_cong_mul(x, x2, y, m);
    lemma_cong_mul(y, y2, x2, m);
}

/// Congruence modulo `m` is kept by sums.
proof fn lemma_cong_add2(x: int, x2: int, y: int, y2: int, m: int)
    requires
        m > 0,
        x % m == x2 % m,
        y % m == y2 % m,
    ensures
        (x + y) % m == (x2 + y2) % m,
{
    lemma_cong_add(x, x2, y, m);
    lemma_cong_add(y, y2, x2, m);
}

/// `a * s + b * c` in wrapping `u64` arithmetic.
pub open spec fn affine_sum_u64(a: u64, b: u64, s: u64, c: u64) -> u64 {
    vstd::wrapping::u64_specs::wrapping_add(
        vstd::wrapping::u64_specs::wrapping_mul(a, s),
        vstd::wrapping::u64_specs::wrapping_mul(b, c),
    )
}

/// `affine_sum_u64(a, b, s, c)` is `a * s + b * c` modulo `2^64`, also
/// when its arguments are given by representatives.
proof fn lemma_affine_sum_u64(a: u64, b: u64, s: u64, c: u64, ai: int, bi: int, si: int, ci: int)
    requires
        a as int % 0x1_0000_0000_0000_0000 == ai % 0x1_0000_0000_0000_0000,
        b as int % 0x1_0000_0000_0000_0000 == bi % 0x1_0000_0000_0000_0000,
        s as int % 0x1_0000_0000_0000_0000 == si % 0x1_0000_0000_0000_0000,
        c as int % 0x1_0000_0000_0000_0000 == ci % 0x1_0000_0000_0000_0000,
    ensures
        affine_sum_u64(a, b, s, c) as int % 0x1_0000_0000_0000_0000 == (ai * si + bi * ci)
            % 0x1_0000_0000_0000_0000,
{
    let m: int = 0x1_0000_0000_0000_0000;
    let x = vstd::wrapping::u64_specs::wrapping_mul(a, s);
    let y = vstd::wrapping::u64_specs::wrapping_mul(b, c);
    lemma_wrap_u64(a, s);
    lemma_wrap_u64(b, c);
    lemma_wrap_u64(x, y);
    lemma_cong_mul2(a as int, ai, s as int, si, m);
    lemma_cong_mul2(b as int, bi, c as int, ci, m);
    lemma_cong_add2(x as int, ai * si, y as int, bi * ci, m);
}

/// An affine map `x -> a * x + b` acts on a block of values through its sum
/// `s` and its size `c`: the block's sum becomes `a * s + b * c`, wrapping
/// at the bounds of `u64`.
impl MonoidAction<OpPair<OpAdd<u64>, OpAdd<u64>>> for OpAffine<u64> {
    open spec fn spec_act(u: (u64, u64), x: (u64, u64)) -> (u64, u64) {
        (affine_sum_u64(u.0, u.1, x.0, x.1), x.1)
    }

    proof fn lemma_act_distributes(u: (u64, u64), p: (u64, u64), q: (u64, u64)) {
        let m: int = 0x1_0000_0000_0000_0000;
        let (a, b) = u;
        let s = vstd::wrapping::u64_specs::wrapping_add(p.0, q.0);
        let c = vstd::wrapping::u64_specs::wrapping_add(p.1, q.1);
        lemma_wrap_u64(p.0, q.0);
        lemma_wrap_u64(p.1, q.1);
        let l = affine_sum_u64(a, b, s, c);
        lemma_affine_sum_u64(a, b, s, c, a as int, b as int, p.0 + q.0, p.1 + q.1);
        let l1 = affine_sum_u64(a, b, p.0, p.1);
        let l2 = affine_sum_u64(a, b, q.0, q.1);
        lemma_affine_sum_u64(a, b, p.0, p.1, a as int, b as int, p.0 as int, p.1 as int);
        lemma_affine_sum_u64(a, b, q.0, q.1, a as int, b as int, q.0 as int, q.1 as int);
        let r = vstd::wrapping::u64_specs::wrapping_add(l1, l2);
        lemma_wrap_u64(l1, l2);
        lemma_cong_add2(l1 as int, a * p.0 + b * p.1, l2 as int, a * q.0 + b * q.1, m);
        assert(a * (p.0 + q.0) + b * (p.1 + q.1) == (a * p.0 + b * p.1) + (a * q.0 + b * q.1))
            by (nonlinear_arith);
        lemma_same_residue(l as int, r as int, 0, m);
    }

    proof fn lemma_act_identity(x: (u64, u64)) {
        let m: int = 0x1_0000_0000_0000_0000;
        lemma_affine_sum_u64(1, 0, x.0, x.1, 1, 0, x.0 as int, x.1 as int);
        assert(1 * x.0 + 0 * x.1 == x.0) by (nonlinear_arith);
        lemma_same_residue(affine_sum_u64(1, 0, x.0, x.1) as int, x.0 as int, 0, m);
    }

    proof fn lemma_act_compose(u: (u64, u64), v: (u64, u64), x: (u64, u64)) {
        let m: int = 0x1_0000_0000_0000_0000;
        let (a, b) = u;
        let (c, d) = v;
        let (s, k) = x;
        let ac = vstd::wrapping::u64_specs::wrapping_mul(a, c);
        let bc = vstd::wrapping::u64_specs::wrapping_mul(b, c);
        let bcd = vstd::wrapping::u64_specs::wrapping_add(bc, d);
        lemma_wrap_u64(a, c);
        lemma_wrap_u64(b, c);
        lemma_wrap_u64(bc, d);
        lemma_cong_add2(bc as int, b * c, d as int, d as int, m);
        let l = affine_sum_u64(ac, bcd, s, k);
        lemma_affine_sum_u64(ac, bcd, s, k, a * c, b * c + d, s as int, k as int);
        let t = affine_sum_u64(a, b, s, k);
        lemma_affine_sum_u64(a, b, s, k, a as int, b as int, s as int, k as int);
        let r = affine_sum_u64(c, d, t, k);
        lemma_affine_sum_u64(c, d, t, k, c as int, d as int, a * s + b * k, k as int);
        assert((a * c) * s + (b * c + d) * k == c * (a * s + b * k) + d * k) by (nonlinear_arith);
        lemma_same_residue(l as int, r as int, 0, m);
    }

    fn act(u: (u64, u64), x: (u64, u64)) -> (res: (u64, u64)) {
        (u.0.wrapping_mul(x.0).wrapping_add(u.1.wrapping_mul(x.1)), x.1)
    }
}

/// Wrapping addition and multiplication of `i64` agree with those of the
/// integers modulo the number of values of `i64`.
pub(crate) proof fn lemma_wrap_i64(x: i64, y: i64)
    ensures
        vstd::wrapping::i64_specs::wrapping_add(x, y) as int % 0x1_0000_0000_0000_0000 == (x + y) % 0x1_0000_0000_0000_0000,
        vstd::wrapping::i64_specs::wrapping_mul(x, y) as int % 0x1_0000_0000_0000_0000 == (x * y) % 0x1_0000_0000_0000_0000,
{
    let v = x + y;
    if v > i64::MAX {
        vstd::arithmetic::div_mod::lemma_mod_sub_multiples_vanish(v, 0x1_0000_0000_0000_0000);
    } else if v < i64::MIN {
        vstd::arithmetic::div_mod::lemma_mod_add_multiples_vanish(v, 0x1_0000_0000_0000_0000);
    }
    let r = (x * y) % 0x1_0000_0000_0000_0000;
    lemma_mod_twice(x * y, 0x1_0000_0000_0000_0000);
    if r > i64::MAX {
        vstd::arithmetic::div_mod::lemma_mod_sub_multiples_vanish(r, 0x1_0000_0000_0000_0000);
    }
}

impl SemiGroup for OpAffine<i64> {
    type Set = (i64, i64);

    open spec fn spec_op(lhs: (i64, i64), rhs: (i64, i64)) -> (i64, i64) {
        (
            vstd::wrapping::i64_specs::wrapping_mul(lhs.0, rhs.0),
            vstd::wrapping::i64_specs::wrapping_add(vstd::wrapping::i64_specs::wrapping_mul(lhs.1, rhs.0), rhs.1),
        )
    }

    proof fn lemma_associative(x: (i64, i64), y: (i64, i64), z: (i64, i64)) {
        let m: int = 0x1_0000_0000_0000_0000;
        let (a, b) = x;
        let (c, d) = y;
        let (e, f) = z;
        let ac = vstd::wrapping::i64_specs::wrapping_mul(a, c);
        let ce = vstd::wrapping::i64_specs::wrapping_mul(c, e);
        let bc = vstd::wrapping::i64_specs::wrapping_mul(b, c);
        let bcd = vstd::wrapping::i64_specs::wrapping_add(bc, d);
        let de = vstd::wrapping::i64_specs::wrapping_mul(d, e);
        let def = vstd::wrapping::i64_specs::wrapping_add(de, f);
        let bcde = vstd::wrapping::i64_specs::wrapping_mul(bcd, e);
        let bce = vstd::wrapping::i64_specs::wrapping_mul(b, ce);
        let p0 = vstd::wrapping::i64_specs::wrapping_mul(ac, e);
        let q0 = vstd::wrapping::i64_specs::wrapping_mul(a, ce);
        let p1 = vstd::wrapping::i64_specs::wrapping_add(bcde, f);
        let q1 = vstd::wrapping::i64_specs::wrapping_add(bce, def);
        lemma_wrap_i64(a, c);
        lemma_wrap_i64(c, e);
        lemma_wrap_i64(b, c);
        lemma_wrap_i64(bc, d);
        lemma_wrap_i64(d, e);
        lemma_wrap_i64(de, f);
        lemma_wrap_i64(bcd, e);
        lemma_wrap_i64(b, ce);
        lemma_wrap_i64(ac, e);
        lemma_wrap_i64(a, ce);
        lemma_wrap_i64(bcde, f);
        lemma_wrap_i64(bce, def);
        lemma_affine_assoc_mod(
            m,
            a as int,
            b as int,
            c as int,
            d as int,
            e as int,
            f as int,
            ac as int,
            ce as int,
            bc as int,
            bcd as int,
            de as int,
            def as int,
            bcde as int,
            bce as int,
            p0 as int,
            q0 as int,
            p1 as int,
            q1 as int,
        );
        lemma_same_residue(p0 as int, q0 as int, i64::MIN as int, m);
        lemma_same_residue(p1 as int, q1 as int, i64::MIN as int, m);
    }

    fn op(lhs: (i64, i64), rhs: (i64, i64)) -> (res: (i64, i64)) {
        (lhs.0.wrapping_mul(rhs.0), lhs.1.wrapping_mul(rhs.0).wrapping_add(rhs.1))
    }
}

impl Identity for OpAffine<i64> {
    open spec fn spec_id() -> (i64, i64) {
        (1, 0)
    }

    proof fn lemma_identity(x: (i64, i64)) {
        let m: int = 0x1_0000_0000_0000_0000;
        let (a, b) = x;
        lemma_wrap_i64(1, a);
        lemma_wrap_i64(a, 1);
        lemma_wrap_i64(0, a);
        lemma_wrap_i64(b, 1);
        let z = vstd::wrapping::i64_specs::wrapping_mul(0, a);
        let b1 = vstd::wrapping::i64_specs::wrapping_mul(b, 1);
        lemma_wrap_i64(z, b);
        lemma_wrap_i64(b1, 0);
        lemma_same_residue(vstd::wrapping::i64_specs::wrapping_mul(1, a) as int, a as int, i64::MIN as int, m);
        lemma_same_residue(vstd::wrapping::i64_specs::wrapping_mul(a, 1) as int, a as int, i64::MIN as int, m);
        lemma_same_residue(z as int, 0, i64::MIN as int, m);
        lemma_same_residue(b1 as int, b as int, i64::MIN as int, m);
        lemma_same_residue(vstd::wrapping::i64_specs::wrapping_add(z, b) as int, b as int, i64::MIN as int, m);
        lemma_same_residue(vstd::wrapping::i64_specs::wrapping_add(b1, 0) as int, b as int, i64::MIN as int, m);
    }

    fn id() -> (res: (i64, i64)) {
        (1, 0)
    }
}

/// Wrapping addition and multiplication of `u128` agree with those of the
/// integers modulo the number of values of `u128`.
pub(crate) proof fn lemma_wrap_u128(x: u128, y: u128)
    ensures
        vstd::wrapping::u128_specs::wrapping_add(x, y) as int % 0x1_0000_0000_0000_0000_0000_0000_0000_0000int == (x + y) % 0x1_0000_0000_0000_0000_0000_0000_0000_0000int,
        vstd::wrapping::u128_specs::wrapping_mul(x, y) as int % 0x1_0000_0000_0000_0000_0000_0000_0000_0000int == (x * y) % 0x1_0000_0000_0000_0000_0000_0000_0000_0000int,
{
    let v = x + y;
    if v > u128::MAX {
        vstd::arithmetic::div_mod::lemma_mod_sub_multiples_vanish(v, 0x1_0000_0000_0000_0000_0000_0000_0000_0000int);
    }
    lemma_mod_twice(x * y, 0x1_0000_0000_0000_0000_0000_0000_0000_0000int);
}

impl SemiGroup for OpAffine<u128> {
    type Set = (u128, u128);

    open spec fn spec_op(lhs: (u128, u128), rhs: (u128, u128)) -> (u128, u128) {
        (
            vstd::wrapping::u128_specs::wrapping_mul(lhs.0, rhs.0),
            vstd::wrapping::u128_specs::wrapping_add(vstd::wrapping::u128_specs::wrapping_mul(lhs.1, rhs.0), rhs.1),
        )
    }

    proof fn lemma_associative(x: (u128, u128), y: (u128, u128), z: (u128, u128)) {
        let m: int = 0x1_0000_0000_0000_0000_0000_0000_0000_0000int;
        let (a, b) = x;
        let (c, d) = y;
        let (e, f) = z;
        let ac = vstd::wrapping::u128_specs::wrapping_mul(a, c);
        let ce = vstd::wrapping::u128_specs::wrapping_mul(c, e);
        let bc = vstd::wrapping::u128_specs::wrapping_mul(b, c);
        let bcd = vstd::wrapping::u128_specs::wrapping_add(bc, d);
        let de = vstd::wrapping::u128_specs::wrapping_mul(d, e);
        let def = vstd::wrapping::u128_specs::wrapping_add(de, f);
        let bcde = vstd::wrapping::u128_specs::wrapping_mul(bcd, e);
        let bce = vstd::wrapping::u128_specs::wrapping_mul(b, ce);
        let p0 = vstd::wrapping::u128_specs::wrapping_mul(ac, e);
        let q0 = vstd::wrapping::u128_specs::wrapping_mul(a, ce);
        let p1 = vstd::wrapping::u128_specs::wrapping_add(bcde, f);
        let q1 = vstd::wrapping::u128_specs::wrapping_add(bce, def);
        lemma_wrap_u128(a, c);
        lemma_wrap_u128(c, e);
        lemma_wrap_u128(b, c);
        lemma_wrap_u128(bc, d);
        lemma_wrap_u128(d, e);
        lemma_wrap_u128(de, f);
        lemma_wrap_u128(bcd, e);
        lemma_wrap_u128(b, ce);
        lemma_wrap_u128(ac, e);
        lemma_wrap_u128(a, ce);
        lemma_wrap_u128(bcde, f);
        lemma_wrap_u128(bce, def);
        lemma_affine_assoc_mod(
            m,
            a as int,
            b as int,
            c as int,
            d as int,
            e as int,
            f as int,
            ac as int,
            ce as int,
            bc as int,
            bcd as int,
            de as int,
            def as int,
            bcde as int,
            bce as int,
            p0 as int,
            q0 as int,
            p1 as int,
            q1 as int,
        );
        lemma_same_residue(p0 as int, q0 as int, u128::MIN as int, m);
        lemma_same_residue(p1 as int, q1 as int, u128::MIN as int, m);
    }

    fn op(lhs: (u128, u128), rhs: (u128, u128)) -> (res: (u128, u128)) {
        (lhs.0.wrapping_mul(rhs.0), lhs.1.wrapping_mul(rhs.0).wrapping_add(rhs.1))
    }
}

impl Identity for OpAffine<u128> {
    open spec fn spec_id() -> (u128, u128) {
        (1, 0)
    }

    proof fn lemma_identity(x: (u128, u128)) {
        let m: int = 0x1_0000_0000_0000_0000_0000_0000_0000_0000int;
        let (a, b) = x;
        lemma_wrap_u128(1, a);
        lemma_wrap_u128(a, 1);
        lemma_wrap_u128(0, a);
        lemma_wrap_u128(b, 1);
        let z = vstd::wrapping::u128_specs::wrapping_mul(0, a);
        let b1 = vstd::wrapping::u128_specs::wrapping_mul(b, 1);
        lemma_wrap_u128(z, b);
        lemma_wrap_u128(b1, 0);
        lemma_same_residue(vstd::wrapping::u128_specs::wrapping_mul(1, a) as int, a as int, u128::MIN as int, m);
        lemma_same_residue(vstd::wrapping::u128_specs::wrapping_mul(a, 1) as int, a as int, u128::MIN as int, m);
        lemma_same_residue(z as int, 0, u128::MIN as int, m);
        lemma_same_residue(b1 as int, b as int, u128::MIN as int, m);
        lemma_same_residue(vstd::wrapping::u128_specs::wrapping_add(z, b) as int, b as int, u128::MIN as int, m);
        lemma_same_residue(vstd::wrapping::u128_specs::wrapping_add(b1, 0) as int, b as int, u128::MIN as int, m);
    }

    fn id() -> (res: (u128, u128)) {
        (1, 0)
    }
}

/// Wrapping addition and multiplication of `i128` agree with those of the
/// integers modulo the number of values of `i128`.
pub(crate) proof fn lemma_wrap_i128(x: i128, y: i128)
    ensures
        vstd::wrapping::i128_specs::wrapping_add(x, y) as int % 0x1_0000_0000_0000_0000_0000_0000_0000_0000int == (x + y) % 0x1_0000_0000_0000_0000_0000_0000_0000_0000int,
        vstd::wrapping::i128_specs::wrapping_mul(x, y) as int % 0x1_0000_0000_0000_0000_0000_0000_0000_0000int == (x * y) % 0x1_0000_0000_0000_0000_0000_0000_0000_0000int,
{
    let v = x + y;
    if v > i128::MAX {
        vstd::arithmetic::div_mod::lemma_mod_sub_multiples_vanish(v, 0x1_0000_0000_0000_0000_0000_0000_0000_0000int);
    } else if v < i128::MIN {
        vstd::arithmetic::div_mod::lemma_mod_add_multiples_vanish(v, 0x1_0000_0000_0000_0000_0000_0000_0000_0000int);
    }
    let r = (x * y) % 0x1_0000_0000_0000_0000_0000_0000_0000_0000int;
    lemma_mod_twice(x * y, 0x1_0000_0000_0000_0000_0000_0000_0000_0000int);
    if r > i128::MAX {
        vstd::arithmetic::div_mod::lemma_mod_sub_multiples_vanish(r, 0x1_0000_0000_0000_0000_0000_0000_0000_0000int);
    }
}

impl SemiGroup for OpAffine<i128> {
    type Set = (i128, i128);

    open spec fn spec_op(lhs: (i128, i128), rhs: (i128, i128)) -> (i128, i128) {
        (
            vstd::wrapping::i128_specs::wrapping_mul(lhs.0, rhs.0),
            vstd::wrapping::i128_specs::wrapping_add(vstd::wrapping::i128_specs::wrapping_mul(lhs.1, rhs.0), rhs.1),
        )
    }

    proof fn lemma_associative(x: (i128, i128), y: (i128, i128), z: (i128, i128)) {
        let m: int = 0x1_0000_0000_0000_0000_0000_0000_0000_0000int;
        let (a, b) = x;
        let (c, d) = y;
        let (e, f) = z;
        let ac = vstd::wrapping::i128_specs::wrapping_mul(a, c);
        let ce = vstd::wrapping::i128_specs::wrapping_mul(c, e);
        let bc = vstd::wrapping::i128_specs::wrapping_mul(b, c);
        let bcd = vstd::wrapping::i128_specs::wrapping_add(bc, d);
        let de = vstd::wrapping::i128_specs::wrapping_mul(d, e);
        let def = vstd::wrapping::i128_specs::wrapping_add(de, f);
        let bcde = vstd::wrapping::i128_specs::wrapping_mul(bcd, e);
        let bce = vstd::wrapping::i128_specs::wrapping_mul(b, ce);
        let p0 = vstd::wrapping::i128_specs::wrapping_mul(ac, e);
        let q0 = vstd::wrapping::i128_specs::wrapping_mul(a, ce);
        let p1 = vstd::wrapping::i128_specs::wrapping_add(bcde, f);
        let q1 = vstd::wrapping::i128_specs::wrapping_add(bce, def);
        lemma_wrap_i128(a, c);
        lemma_wrap_i128(c, e);
        lemma_wrap_i128(b, c);
        lemma_wrap_i128(bc, d);
        lemma_wrap_i128(d, e);
        lemma_wrap_i128(de, f);
        lemma_wrap_i128(bcd, e);
        lemma_wrap_i128(b, ce);
        lemma_wrap_i128(ac, e);
        lemma_wrap_i128(a, ce);
        lemma_wrap_i128(bcde, f);
        lemma_wrap_i128(bce, def);
        lemma_affine_assoc_mod(
            m,
            a as int,
            b as int,
            c as int,
            d as int,
            e as int,
            f as int,
            ac as int,
            ce as int,
            bc as int,
            bcd as int,
            de as int,
            def as int,
            bcde as int,
            bce as int,
            p0 as int,
            q0 as int,
            p1 as int,
            q1 as int,
        );
        lemma_same_residue(p0 as int, q0 as int, i128::MIN as int, m);
        lemma_same_residue(p1 as int, q1 as int, i128::MIN as int, m);
    }

    fn op(lhs: (i128, i128), rhs: (i128, i128)) -> (res: (i128, i128)) {
        (lhs.0.wrapping_mul(rhs.0), lhs.1.wrapping_mul(rhs.0).wrapping_add(rhs.1))
    }
}

impl Identity for OpAffine<i128> {
    open spec fn spec_id() -> (i128, i128) {
        (1, 0)
    }

    proof fn lemma_identity(x: (i128, i128)) {
        let m: int = 0x1_0000_0000_0000_0000_0000_0000_0000_0000int;
        let (a, b) = x;
        lemma_wrap_i128(1, a);
        lemma_wrap_i128(a, 1);
        lemma_wrap_i128(0, a);
        lemma_wrap_i128(b, 1);
        let z = vstd::wrapping::i128_specs::wrapping_mul(0, a);
        let b1 = vstd::wrapping::i128_specs::wrapping_mul(b, 1);
        lemma_wrap_i128(z, b);
        lemma_wrap_i128(b1, 0);
        lemma_same_residue(vstd::wrapping::i128_specs::wrapping_mul(1, a) as int, a as int, i128::MIN as int, m);
        lemma_same_residue(vstd::wrapping::i128_specs::wrapping_mul(a, 1) as int, a as int, i128::MIN as int, m);
        lemma_same_residue(z as int, 0, i128::MIN as int, m);
        lemma_same_residue(b1 as int, b as int, i128::MIN as int, m);
        lemma_same_residue(vstd::wrapping::i128_specs::wrapping_add(z, b) as int, b as int, i128::MIN as int, m);
        lemma_same_residue(vstd::wrapping::i128_specs::wrapping_add(b1, 0) as int, b as int, i128::MIN as int, m);
    }

    fn id() -> (res: (i128, i128)) {
        (1, 0)
    }
}

/// Wrapping addition and multiplication of `usize` agree with those of the
/// integers modulo the number of values of `usize`.
pub(crate) proof fn lemma_wrap_usize(x: usize, y: usize)
    ensures
        vstd::wrapping::usize_specs::wrapping_add(x, y) as int % (usize::MAX - usize::MIN + 1) == (x + y) % (usize::MAX - usize::MIN + 1),
        vstd::wrapping::usize_specs::wrapping_mul(x, y) as int % (usize::MAX - usize::MIN + 1) == (x * y) % (usize::MAX - usize::MIN + 1),
{
    let v = x + y;
    if v > usize::MAX {
        vstd::arithmetic::div_mod::lemma_mod_sub_multiples_vanish(v, (usize::MAX - usize::MIN + 1));
    }
    lemma_mod_twice(x * y, (usize::MAX - usize::MIN + 1));
}

impl SemiGroup for OpAffine<usize> {
    type Set = (usize, usize);

    open spec fn spec_op(lhs: (usize, usize), rhs: (usize, usize)) -> (usize, usize) {
        (
            vstd::wrapping::usize_specs::wrapping_mul(lhs.0, rhs.0),
            vstd::wrapping::usize_specs::wrapping_add(vstd::wrapping::usize_specs::wrapping_mul(lhs.1, rhs.0), rhs.1),
        )
    }

    proof fn lemma_associative(x: (usize, usize), y: (usize, usize), z: (usize, usize)) {
        let m: int = (usize::MAX - usize::MIN + 1);
        let (a, b) = x;
        let (c, d) = y;
        let (e, f) = z;
        let ac = vstd::wrapping::usize_specs::wrapping_mul(a, c);
        let ce = vstd::wrapping::usize_specs::wrapping_mul(c, e);
        let bc = vstd::wrapping::usize_specs::wrapping_mul(b, c);
        let bcd = vstd::wrapping::usize_specs::wrapping_add(bc, d);
        let de = vstd::wrapping::usize_specs::wrapping_mul(d, e);
        let def = vstd::wrapping::usize_specs::wrapping_add(de, f);
        let bcde = vstd::wrapping::usize_specs::wrapping_mul(bcd, e);
        let bce = vstd::wrapping::usize_specs::wrapping_mul(b, ce);
        let p0 = vstd::wrapping::usize_specs::wrapping_mul(ac, e);
        let q0 = vstd::wrapping::usize_specs::wrapping_mul(a, ce);
        let p1 = vstd::wrapping::usize_specs::wrapping_add(bcde, f);
        let q1 = vstd::wrapping::usize_specs::wrapping_add(bce, def);
        lemma_wrap_usize(a, c);
        lemma_wrap_usize(c, e);
        lemma_wrap_usize(b, c);
        lemma_wrap_usize(bc, d);
        lemma_wrap_usize(d, e);
        lemma_wrap_usize(de, f);
        lemma_wrap_usize(bcd, e);
        lemma_wrap_usize(b, ce);
        lemma_wrap_usize(ac, e);
        lemma_wrap_usize(a, ce);
        lemma_wrap_usize(bcde, f);
        lemma_wrap_usize(bce, def);
        lemma_affine_assoc_mod(
            m,
            a as int,
            b as int,
            c as int,
            d as int,
            e as int,
            f as int,
            ac as int,
            ce as int,
            bc as int,
            bcd as int,
            de as int,
            def as int,
            bcde as int,
            bce as int,
            p0 as int,
            q0 as int,
            p1 as int,
            q1 as int,
        );
        lemma_same_residue(p0 as int, q0 as int, usize::MIN as int, m);
        lemma_same_residue(p1 as int, q1 as int, usize::MIN as int, m);
    }

    fn op(lhs: (usize, usize), rhs: (usize, usize)) -> (res: (usize, usize)) {
        (lhs.0.wrapping_mul(rhs.0), lhs.1.wrapping_mul(rhs.0).wrapping_add(rhs.1))
    }
}

impl Identity for OpAffine<usize> {
    open spec fn spec_id() -> (usize, usize) {
        (1, 0)
    }

    proof fn lemma_identity(x: (usize, usize)) {
        let m: int = (usize::MAX - usize::MIN + 1);
        let (a, b) = x;
        lemma_wrap_usize(1, a);
        lemma_wrap_usize(a, 1);
        lemma_wrap_usize(0, a);
        lemma_wrap_usize(b, 1);
        let z = vstd::wrapping::usize_specs::wrapping_mul(0, a);
        let b1 = vstd::wrapping::usize_specs::wrapping_mul(b, 1);
        lemma_wrap_usize(z, b);
        lemma_wrap_usize(b1, 0);
        lemma_same_residue(vstd::wrapping::usize_specs::wrapping_mul(1, a) as int, a as int, usize::MIN as int, m);
        lemma_same_residue(vstd::wrapping::usize_specs::wrapping_mul(a, 1) as int, a as int, usize::MIN as int, m);
        lemma_same_residue(z as int, 0, usize::MIN as int, m);
        lemma_same_residue(b1 as int, b as int, usize::MIN as int, m);
        lemma_same_residue(vstd::wrapping::usize_specs::wrapping_add(z, b) as int, b as int, usize::MIN as int, m);
        lemma_same_residue(vstd::wrapping::usize_specs::wrapping_add(b1, 0) as int, b as int, usize::MIN as int, m);
    }

    fn id() -> (res: (usize, usize)) {
        (1, 0)
    }
}

/// Wrapping addition and multiplication of `isize` agree with those of the
/// integers modulo the number of values of `isize`.
pub(crate) proof fn lemma_wrap_isize(x: isize, y: isize)
    ensures
        vstd::wrapping::isize_specs::wrapping_add(x, y) as int % (usize::MAX - usize::MIN + 1) == (x + y) % (usize::MAX - usize::MIN + 1),
        vstd::wrapping::isize_specs::wrapping_mul(x, y) as int % (usize::MAX - usize::MIN + 1) == (x * y) % (usize::MAX - usize::MIN + 1),
{
    let v = x + y;
    if v > isize::MAX {
        vstd::arithmetic::div_mod::lemma_mod_sub_multiples_vanish(v, (usize::MAX - usize::MIN + 1));
    } else if v < isize::MIN {
        vstd::arithmetic::div_mod::lemma_mod_add_multiples_vanish(v, (usize::MAX - usize::MIN + 1));
    }
    let r = (x * y) % (usize::MAX - usize::MIN + 1);
    lemma_mod_twice(x * y, (usize::MAX - usize::MIN + 1));
    if r > isize::MAX {
        vstd::arithmetic::div_mod::lemma_mod_sub_multiples_vanish(r, (usize::MAX - usize::MIN + 1));
    }
}

impl SemiGroup for OpAffine<isize> {
    type Set = (isize, isize);

    open spec fn spec_op(lhs: (isize, isize), rhs: (isize, isize)) -> (isize, isize) {
        (
            vstd::wrapping::isize_specs::wrapping_mul(lhs.0, rhs.0),
            vstd::wrapping::isize_specs::wrapping_add(vstd::wrapping::isize_specs::wrapping_mul(lhs.1, rhs.0), rhs.1),
        )
    }

    proof fn lemma_associative(x: (isize, isize), y: (isize, isize), z: (isize, isize)) {
        let m: int = (usize::MAX - usize::MIN + 1);
        let (a, b) = x;
        let (c, d) = y;
        let (e, f) = z;
        let ac = vstd::wrapping::isize_specs::wrapping_mul(a, c);
        let ce = vstd::wrapping::isize_specs::wrapping_mul(c, e);
        let bc = vstd::wrapping::isize_specs::wrapping_mul(b, c);
        let bcd = vstd::wrapping::isize_specs::wrapping_add(bc, d);
        let de = vstd::wrapping::isize_specs::wrapping_mul(d, e);
        let def = vstd::wrapping::isize_specs::wrapping_add(de, f);
        let bcde = vstd::wrapping::isize_specs::wrapping_mul(bcd, e);
        let bce = vstd::wrapping::isize_specs::wrapping_mul(b, ce);
        let p0 = vstd::wrapping::isize_specs::wrapping_mul(ac, e);
        let q0 = vstd::wrapping::isize_specs::wrapping_mul(a, ce);
        let p1 = vstd::wrapping::isize_specs::wrapping_add(bcde, f);
        let q1 = vstd::wrapping::isize_specs::wrapping_add(bce, def);
        lemma_wrap_isize(a, c);
        lemma_wrap_isize(c, e);
        lemma_wrap_isize(b, c);
        lemma_wrap_isize(bc, d);
        lemma_wrap_isize(d, e);
        lemma_wrap_isize(de, f);
        lemma_wrap_isize(bcd, e);
        lemma_wrap_isize(b, ce);
        lemma_wrap_isize(ac, e);
        lemma_wrap_isize(a, ce);
        lemma_wrap_isize(bcde, f);
        lemma_wrap_isize(bce, def);
        lemma_affine_assoc_mod(
            m,
            a as int,
            b as int,
            c as int,
            d as int,
            e as int,
            f as int,
            ac as int,
            ce as int,
            bc as int,
            bcd as int,
            de as int,
            def as int,
            bcde as int,
            bce as int,
            p0 as int,
            q0 as int,
            p1 as int,
            q1 as int,
        );
        lemma_same_residue(p0 as int, q0 as int, isize::MIN as int, m);
        lemma_same_residue(p1 as int, q1 as int, isize::MIN as int, m);
    }

    fn op(lhs: (isize, isize), rhs: (isize, isize)) -> (res: (isize, isize)) {
        (lhs.0.wrapping_mul(rhs.0), lhs.1.wrapping_mul(rhs.0).wrapping_add(rhs.1))
    }
}

impl Identity for OpAffine<isize> {
    open spec fn spec_id() -> (isize, isize) {
        (1, 0)
    }

    proof fn lemma_identity(x: (isize, isize)) {
        let m: int = (usize::MAX - usize::MIN + 1);
        let (a, b) = x;
        lemma_wrap_isize(1, a);
        lemma_wrap_isize(a, 1);
        lemma_wrap_isize(0, a);
        lemma_wrap_isize(b, 1);
        let z = vstd::wrapping::isize_specs::wrapping_mul(0, a);
        let b1 = vstd::wrapping::isize_specs::wrapping_mul(b, 1);
        lemma_wrap_isize(z, b);
        lemma_wrap_isize(b1, 0);
        lemma_same_residue(vstd::wrapping::isize_specs::wrapping_mul(1, a) as int, a as int, isize::MIN as int, m);
        lemma_same_residue(vstd::wrapping::isize_specs::wrapping_mul(a, 1) as int, a as int, isize::MIN as int, m);
        lemma_same_residue(z as int, 0, isize::MIN as int, m);
        lemma_same_residue(b1 as int, b as int, isize::MIN as int, m);
        lemma_same_residue(vstd::wrapping::isize_specs::wrapping_add(z, b) as int, b as int, isize::MIN as int, m);
        lemma_same_residue(vstd::wrapping::isize_specs::wrapping_add(b1, 0) as int, b as int, isize::MIN as int, m);
    }

    fn id() -> (res: (isize, isize)) {
        (1, 0)
    }
}

/// Applying a map whose coefficients agree, modulo `m`, with those of the
/// composition `x -> c * (a * x + b) + d` gives, modulo `m`, what that
/// composition gives.
proof fn lemma_affine_apply_mod(m: int, a: int, b: int, c: int, d: int, x: int, r0: int, r1: int)
    requires
        m > 0,
        r0 % m == (a * c) % m,
        r1 % m == (b * c + d) % m,
    ensures
        (r0 * x + r1) % m == (c * (a * x + b) + d) % m,
{
    lemma_cong_mul(r0, a * c, x, m);
    lemma_cong_add2(r0 * x, (a * c) * x, r1, b * c + d, m);
    assert((a * c) * x + (b * c + d) == c * (a * x + b) + d) by (nonlinear_arith);
}

/// `op(f, g)` on `OpAffine<u8>` is the map "`f`, then `g`": for every
/// integer `x`, applying it to `x` gives `g(f(x))`, modulo 2^8. (With `x`
/// equal to 0 and to 1 this fixes both coefficients of the result.)
pub proof fn lemma_op_affine_u8(f: (u8, u8), g: (u8, u8), x: int)
    ensures
        ({
            let r = OpAffine::<u8>::spec_op(f, g);
            (r.0 * x + r.1) % 0x100 == (g.0 * (f.0 * x + f.1) + g.1) % 0x100
        }),
{
    let m: int = 0x100;
    let bc = vstd::wrapping::u8_specs::wrapping_mul(f.1, g.0);
    lemma_wrap_u8(f.0, g.0);
    lemma_wrap_u8(f.1, g.0);
    lemma_wrap_u8(bc, g.1);
    lemma_cong_add2(bc as int, f.1 * g.0, g.1 as int, g.1 as int, m);
    let r = OpAffine::<u8>::spec_op(f, g);
    lemma_affine_apply_mod(m, f.0 as int, f.1 as int, g.0 as int, g.1 as int, x, r.0 as int, r.1 as int);
}

/// `op(f, g)` on `OpAffine<i8>` is the map "`f`, then `g`": for every
/// integer `x`, applying it to `x` gives `g(f(x))`, modulo 2^8. (With `x`
/// equal to 0 and to 1 this fixes both coefficients of the result.)
pub proof fn lemma_op_affine_i8(f: (i8, i8), g: (i8, i8), x: int)
    ensures
        ({
            let r = OpAffine::<i8>::spec_op(f, g);
            (r.0 * x + r.1) % 0x100 == (g.0 * (f.0 * x + f.1) + g.1) % 0x100
        }),
{
    let m: int = 0x100;
    let bc = vstd::wrapping::i8_specs::wrapping_mul(f.1, g.0);
    lemma_wrap_i8(f.0, g.0);
    lemma_wrap_i8(f.1, g.0);
    lemma_wrap_i8(bc, g.1);
    lemma_cong_add2(bc as int, f.1 * g.0, g.1 as int, g.1 as int, m);
    let r = OpAffine::<i8>::spec_op(f, g);
    lemma_affine_apply_mod(m, f.0 as int, f.1 as int, g.0 as int, g.1 as int, x, r.0 as int, r.1 as int);
}

/// `op(f, g)` on `OpAffine<u16>` is the map "`f`, then `g`": for every
/// integer `x`, applying it to `x` gives `g(f(x))`, modulo 2^16. (With `x`
/// equal to 0 and to 1 this fixes both coefficients of the result.)
pub proof fn lemma_op_affine_u16(f: (u16, u16), g: (u16, u16), x: int)
    ensures
        ({
            let r = OpAffine::<u16>::spec_op(f, g);
            (r.0 * x + r.1) % 0x1_0000 == (g.0 * (f.0 * x + f.1) + g.1) % 0x1_0000
        }),
{
    let m: int = 0x1_0000;
    let bc = vstd::wrapping::u16_specs::wrapping_mul(f.1, g.0);
    lemma_wrap_u16(f.0, g.0);
    lemma_wrap_u16(f.1, g.0);
    lemma_wrap_u16(bc, g.1);
    lemma_cong_add2(bc as int, f.1 * g.0, g.1 as int, g.1 as int, m);
    let r = OpAffine::<u16>::spec_op(f, g);
    lemma_affine_apply_mod(m, f.0 as int, f.1 as int, g.0 as int, g.1 as int, x, r.0 as int, r.1 as int);
}

/// `op(f, g)` on `OpAffine<i16>` is the map "`f`, then `g`": for every
/// integer `x`, applying it to `x` gives `g(f(x))`, modulo 2^16. (With `x`
/// equal to 0 and to 1 this fixes both coefficients of the result.)
pub proof fn lemma_op_affine_i16(f: (i16, i16), g: (i16, i16), x: int)
    ensures
        ({
            let r = OpAffine::<i16>::spec_op(f, g);
            (r.0 * x + r.1) % 0x1_0000 == (g.0 * (f.0 * x + f.1) + g.1) % 0x1_0000
        }),
{
    let m: int = 0x1_0000;
    let bc = vstd::wrapping::i16_specs::wrapping_mul(f.1, g.0);
    lemma_wrap_i16(f.0, g.0);
    lemma_wrap_i16(f.1, g.0);
    lemma_wrap_i16(bc, g.1);
    lemma_cong_add2(bc as int, f.1 * g.0, g.1 as int, g.1 as int, m);
    let r = OpAffine::<i16>::spec_op(f, g);
    lemma_affine_apply_mod(m, f.0 as int, f.1 as int, g.0 as int, g.1 as int, x, r.0 as int, r.1 as int);
}

/// `op(f, g)` on `OpAffine<u32>` is the map "`f`, then `g`": for every
/// integer `x`, applying it to `x` gives `g(f(x))`, modulo 2^32. (With `x`
/// equal to 0 and to 1 this fixes both coefficients of the result.)
pub proof fn lemma_op_affine_u32(f: (u32, u32), g: (u32, u32), x: int)
    ensures
        ({
            let r = OpAffine::<u32>::spec_op(f, g);
            (r.0 * x + r.1) % 0x1_0000_0000 == (g.0 * (f.0 * x + f.1) + g.1) % 0x1_0000_0000
        }),
{
    let m: int = 0x1_0000_0000;
    let bc = vstd::wrapping::u32_specs::wrapping_mul(f.1, g.0);
    lemma_wrap_u32(f.0, g.0);
    lemma_wrap_u32(f.1, g.0);
    lemma_wrap_u32(bc, g.1);
    lemma_cong_add2(bc as int, f.1 * g.0, g.1 as int, g.1 as int, m);
    let r = OpAffine::<u32>::spec_op(f, g);
    lemma_affine_apply_mod(m, f.0 as int, f.1 as int, g.0 as int, g.1 as int, x, r.0 as int, r.1 as int);
}

/// `op(f, g)` on `OpAffine<i32>` is the map "`f`, then `g`": for every
/// integer `x`, applying it to `x` gives `g(f(x))`, modulo 2^32. (With `x`
/// equal to 0 and to 1 this fixes both coefficients of the result.)
pub proof fn lemma_op_affine_i32(f: (i32, i32), g: (i32, i32), x: int)
    ensures
        ({
            let r = OpAffine::<i32>::spec_op(f, g);
            (r.0 * x + r.1) % 0x1_0000_0000 == (g.0 * (f.0 * x + f.1) + g.1) % 0x1_0000_0000
        }),
{
    let m: int = 0x1_0000_0000;
    let bc = vstd::wrapping::i32_specs::wrapping_mul(f.1, g.0);
    lemma_wrap_i32(f.0, g.0);
    lemma_wrap_i32(f.1, g.0);
    lemma_wrap_i32(bc, g.1);
    lemma_cong_add2(bc as int, f.1 * g.0, g.1 as int, g.1 as int, m);
    let r = OpAffine::<i32>::spec_op(f, g);
    lemma_affine_apply_mod(m, f.0 as int, f.1 as int, g.0 as int, g.1 as int, x, r.0 as int, r.1 as int);
}

/// `op(f, g)` on `OpAffine<u64>` is the map "`f`, then `g`": for every
/// integer `x`, applying it to `x` gives `g(f(x))`, modulo 2^64. (With `x`
/// equal to 0 and to 1 this fixes both coefficients of the result.)
pub proof fn lemma_op_affine_u64(f: (u64, u64), g: (u64, u64), x: int)
    ensures
        ({
            let r = OpAffine::<u64>::spec_op(f, g);
            (r.0 * x + r.1) % 0x1_0000_0000_0000_0000 == (g.0 * (f.0 * x + f.1) + g.1) % 0x1_0000_0000_0000_0000
        }),
{
    let m: int = 0x1_0000_0000_0000_0000;
    let bc = vstd::wrapping::u64_specs::wrapping_mul(f.1, g.0);
    lemma_wrap_u64(f.0, g.0);
    lemma_wrap_u64(f.1, g.0);
    lemma_wrap_u64(bc, g.1);
    lemma_cong_add2(bc as int, f.1 * g.0, g.1 as int, g.1 as int, m);
    let r = OpAffine::<u64>::spec_op(f, g);
    lemma_affine_apply_mod(m, f.0 as int, f.1 as int, g.0 as int, g.1 as int, x, r.0 as int, r.1 as int);
}

/// `op(f, g)` on `OpAffine<i64>` is the map "`f`, then `g`": for every
/// integer `x`, applying it to `x` gives `g(f(x))`, modulo 2^64. (With `x`
/// equal to 0 and to 1 this fixes both coefficients of the result.)
pub proof fn lemma_op_affine_i64(f: (i64, i64), g: (i64, i64), x: int)
    ensures
        ({
            let r = OpAffine::<i64>::spec_op(f, g);
            (r.0 * x + r.1) % 0x1_0000_0000_0000_0000 == (g.0 * (f.0 * x + f.1) + g.1) % 0x1_0000_0000_0000_0000
        }),
{
    let m: int = 0x1_0000_0000_0000_0000;
    let bc = vstd::wrapping::i64_specs::wrapping_mul(f.1, g.0);
    lemma_wrap_i64(f.0, g.0);
    lemma_wrap_i64(f.1, g.0);
    lemma_wrap_i64(bc, g.1);
    lemma_cong_add2(bc as int, f.1 * g.0, g.1 as int, g.1 as int, m);
    let r = OpAffine::<i64>::spec_op(f, g);
    lemma_affine_apply_mod(m, f.0 as int, f.1 as int, g.0 as int, g.1 as int, x, r.0 as int, r.1 as int);
}

/// `op(f, g)` on `OpAffine<u128>` is the map "`f`, then `g`": for every
/// integer `x`, applying it to `x` gives `g(f(x))`, modulo 2^128. (With `x`
/// equal to 0 and to 1 this fixes both coefficients of the result.)
pub proof fn lemma_op_affine_u128(f: (u128, u128), g: (u128, u128), x: int)
    ensures
        ({
            let r = OpAffine::<u128>::spec_op(f, g);
            (r.0 * x + r.1) % 0x1_0000_0000_0000_0000_0000_0000_0000_0000int == (g.0 * (f.0 * x + f.1) + g.1) % 0x1_0000_0000_0000_0000_0000_0000_0000_0000int
        }),
{
    let m: int = 0x1_0000_0000_0000_0000_0000_0000_0000_0000int;
    let bc = vstd::wrapping::u128_specs::wrapping_mul(f.1, g.0);
    lemma_wrap_u128(f.0, g.0);
    lemma_wrap_u128(f.1, g.0);
    lemma_wrap_u128(bc, g.1);
    lemma_cong_add2(bc as int, f.1 * g.0, g.1 as int, g.1 as int, m);
    let r = OpAffine::<u128>::spec_op(f, g);
    lemma_affine_apply_mod(m, f.0 as int, f.1 as int, g.0 as int, g.1 as int, x, r.0 as int, r.1 as int);
}

/// `op(f, g)` on `OpAffine<i128>` is the map "`f`, then `g`": for every
/// integer `x`, applying it to `x` gives `g(f(x))`, modulo 2^128. (With `x`
/// equal to 0 and to 1 this fixes both coefficients of the result.)
pub proof fn lemma_op_affine_i128(f: (i128, i128), g: (i128, i128), x: int)
    ensures
        ({
            let r = OpAffine::<i128>::spec_op(f, g);
            (r.0 * x + r.1) % 0x1_0000_0000_0000_0000_0000_0000_0000_0000int == (g.0 * (f.0 * x + f.1) + g.1) % 0x1_0000_0000_0000_0000_0000_0000_0000_0000int
        }),
{
    let m: int = 0x1_0000_0000_0000_0000_0000_0000_0000_0000int;
    let bc = vstd::wrapping::i128_specs::wrapping_mul(f.1, g.0);
    lemma_wrap_i128(f.0, g.0);
    lemma_wrap_i128(f.1, g.0);
    lemma_wrap_i128(bc, g.1);
    lemma_cong_add2(bc as int, f.1 * g.0, g.1 as int, g.1 as int, m);
    let r = OpAffine::<i128>::spec_op(f, g);
    lemma_affine_apply_mod(m, f.0 as int, f.1 as int, g.0 as int, g.1 as int, x, r.0 as int, r.1 as int);
}

/// `op(f, g)` on `OpAffine<usize>` is the map "`f`, then `g`": for every
/// integer `x`, applying it to `x` gives `g(f(x))`, modulo 2^usize::BITS. (With `x`
/// equal to 0 and to 1 this fixes both coefficients of the result.)
pub proof fn lemma_op_affine_usize(f: (usize, usize), g: (usize, usize), x: int)
    ensures
        ({
            let r = OpAffine::<usize>::spec_op(f, g);
            (r.0 * x + r.1) % (usize::MAX - usize::MIN + 1) == (g.0 * (f.0 * x + f.1) + g.1) % (usize::MAX - usize::MIN + 1)
        }),
{
    let m: int = (usize::MAX - usize::MIN + 1);
    let bc = vstd::wrapping::usize_specs::wrapping_mul(f.1, g.0);
    lemma_wrap_usize(f.0, g.0);
    lemma_wrap_usize(f.1, g.0);
    lemma_wrap_usize(bc, g.1);
    lemma_cong_add2(bc as int, f.1 * g.0, g.1 as int, g.1 as int, m);
    let r = OpAffine::<usize>::spec_op(f, g);
    lemma_affine_apply_mod(m, f.0 as int, f.1 as int, g.0 as int, g.1 as int, x, r.0 as int, r.1 as int);
}

/// `op(f, g)` on `OpAffine<isize>` is the map "`f`, then `g`": for every
/// integer `x`, applying it to `x` gives `g(f(x))`, modulo 2^usize::BITS. (With `x`
/// equal to 0 and to 1 this fixes both coefficients of the result.)
pub proof fn lemma_op_affine_isize(f: (isize, isize), g: (isize, isize), x: int)
    ensures
        ({
            let r = OpAffine::<isize>::spec_op(f, g);
            (r.0 * x + r.1) % (usize::MAX - usize::MIN + 1) == (g.0 * (f.0 * x + f.1) + g.1) % (usize::MAX - usize::MIN + 1)
        }),
{
    let m: int = (usize::MAX - usize::MIN + 1);
    let bc = vstd::wrapping::isize_specs::wrapping_mul(f.1, g.0);
    lemma_wrap_isize(f.0, g.0);
    lemma_wrap_isize(f.1, g.0);
    lemma_wrap_isize(bc, g.1);
    lemma_cong_add2(bc as int, f.1 * g.0, g.1 as int, g.1 as int, m);
    let r = OpAffine::<isize>::spec_op(f, g);
    lemma_affine_apply_mod(m, f.0 as int, f.1 as int, g.0 as int, g.1 as int, x, r.0 as int, r.1 as int);
}

/// The action of an affine map `(a, b)` on a block of `c` values summing to
/// `s`: the sum becomes `a * s + b * c`, modulo 2^64, and the size stays.
pub proof fn lemma_act_affine_u64(u: (u64, u64), x: (u64, u64))
    ensures
        <OpAffine<u64> as MonoidAction<OpPair<OpAdd<u64>, OpAdd<u64>>>>::spec_act(u, x).0 as int
            == (u.0 * x.0 + u.1 * x.1) % 0x1_0000_0000_0000_0000,
        <OpAffine<u64> as MonoidAction<OpPair<OpAdd<u64>, OpAdd<u64>>>>::spec_act(u, x).1 == x.1,
{
    let r = affine_sum_u64(u.0, u.1, x.0, x.1);
    lemma_affine_sum_u64(u.0, u.1, x.0, x.1, u.0 as int, u.1 as int, x.0 as int, x.1 as int);
    vstd::arithmetic::div_mod::lemma_small_mod(r as nat, 0x1_0000_0000_0000_0000);
}

} // verus!
