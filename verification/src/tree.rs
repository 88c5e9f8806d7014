//! Index arithmetic shared by the array-embedded binary trees.
//!
//! A tree with `offset == exp2(k)` leaves stores node `x` at index `x`; its
//! children are `2x` and `2x + 1`, and leaf `i` is node `offset + i`.  A node
//! `x` at height `h` (with `offset <= x * exp2(h) < 2 * offset`) covers the
//! leaves `x * exp2(h) - offset .. (x + 1) * exp2(h) - offset`.
use vstd::prelude::*;

verus! {

/// `2` to the power `k`.
pub open spec fn exp2(k: nat) -> nat
    decreases k,
{
    if k == 0 {
        1
    } else {
        2 * exp2((k - 1) as nat)
    }
}

/// The smallest power of two that is at least `n`.
pub open spec fn next_power_of_two(n: nat) -> nat
    decreases n,
{
    if n <= 1 {
        1
    } else {
        2 * next_power_of_two(((n + 1) / 2) as nat)
    }
}

/// `n` rounded up to an even number.
pub open spec fn round_up_even(n: nat) -> nat {
    n + n % 2
}

pub proof fn lemma_exp2_pos(k: nat)
    ensures
        exp2(k) >= 1,
    decreases k,
{
    if k > 0 {
        lemma_exp2_pos((k - 1) as nat);
    }
}

pub proof fn lemma_exp2_add(a: nat, b: nat)
    ensures
        exp2(a + b) == exp2(a) * exp2(b),
    decreases a,
{
    if a == 0 {
        assert(exp2(0) == 1);
        assert(a + b == b);
    } else {
        lemma_exp2_add((a - 1) as nat, b);
        assert(exp2(a + b) == 2 * exp2((a - 1 + b) as nat));
        assert(2 * (exp2((a - 1) as nat) * exp2(b)) == (2 * exp2((a - 1) as nat)) * exp2(b))
            by (nonlinear_arith);
    }
}

/// `exp2` is strictly increasing.
pub proof fn lemma_exp2_lt(a: nat, b: nat)
    requires
        a < b,
    ensures
        exp2(a) < exp2(b),
    decreases b,
{
    lemma_exp2_pos(a);
    if a + 1 < b {
        lemma_exp2_lt(a, (b - 1) as nat);
    }
    lemma_exp2_pos((b - 1) as nat);
}

pub proof fn lemma_exp2_le(a: nat, b: nat)
    requires
        a <= b,
    ensures
        exp2(a) <= exp2(b),
{
    if a < b {
        lemma_exp2_lt(a, b);
    }
}

/// A power of two times something: rewriting `exp2(b)` with `a <= b`.
pub proof fn lemma_exp2_split(a: nat, b: nat)
    requires
        a <= b,
    ensures
        exp2(b) == exp2((b - a) as nat) * exp2(a),
{
    lemma_exp2_add((b - a) as nat, a);
}

pub proof fn lemma_mul_lt_cancel(p: int, q: int, e: int)
    requires
        e > 0,
        p * e < q * e,
    ensures
        p < q,
        p * e + e <= q * e,
{
    assert(p < q) by (nonlinear_arith)
        requires
            e > 0,
            p * e < q * e,
    ;
    assert(p * e + e <= q * e) by (nonlinear_arith)
        requires
            e > 0,
            p + 1 <= q,
    ;
}

/// A multiple of an even number is even.
pub proof fn lemma_mul_even(a: int, m: int)
    ensures
        (a * (2 * m)) % 2 == 0,
        ((2 * m) * a) % 2 == 0,
{
    assert(a * (2 * m) == 2 * (a * m)) by (nonlinear_arith);
    assert((2 * m) * a == 2 * (a * m)) by (nonlinear_arith);
}

pub proof fn lemma_mul_le_cancel(p: int, q: int, e: int)
    requires
        e > 0,
        p * e <= q * e,
    ensures
        p <= q,
{
    assert(p <= q) by (nonlinear_arith)
        requires
            e > 0,
            p * e <= q * e,
    ;
}

pub proof fn lemma_mul_assoc(a: int, b: int, c: int)
    ensures
        (a * b) * c == a * (b * c),
{
    assert((a * b) * c == a * (b * c)) by (nonlinear_arith);
}

pub proof fn lemma_mul_mono(a: int, b: int, c: int)
    requires
        0 <= a <= b,
        c >= 0,
    ensures
        a * c <= b * c,
{
    assert(a * c <= b * c) by (nonlinear_arith)
        requires
            0 <= a <= b,
            c >= 0,
    ;
}

/// The boundary `x * exp2(s)` of a walk lies below `2 * offset`, so its
/// block size is at most the number of leaves.
pub proof fn lemma_height_bound(k: nat, x: nat, s: nat)
    requires
        x >= 1,
        x * exp2(s) < 2 * exp2(k),
    ensures
        s <= k,
{
    lemma_mul_mono(1, x as int, exp2(s) as int);
    if s > k {
        lemma_exp2_le(k + 1, s);
    }
}

/// Decides which side of the walk `l * exp2(sl) .. r * exp2(sr)` is consumed
/// next: the larger index names a block that fits inside the range.
pub proof fn lemma_walk_step(k: nat, l: nat, sl: nat, r: nat, sr: nat)
    requires
        l >= 1,
        r >= 1,
        exp2(k) <= l * exp2(sl),
        l * exp2(sl) < r * exp2(sr),
        r * exp2(sr) <= 2 * exp2(k),
    ensures
        sl <= k,
        l >= r ==> sl < sr && l * exp2(sl) + exp2(sl) <= r * exp2(sr),
        l < r ==> sr <= sl && l * exp2(sl) <= r * exp2(sr) - exp2(sr) && r >= 2,
{
    let el = exp2(sl);
    let er = exp2(sr);
    lemma_exp2_pos(sl);
    lemma_exp2_pos(sr);
    lemma_height_bound(k, l, sl);
    if l >= r {
        if sr <= sl {
            lemma_exp2_split(sr, sl);
            let d = exp2((sl - sr) as nat);
            lemma_exp2_pos((sl - sr) as nat);
            lemma_mul_assoc(l as int, d as int, er as int);
            lemma_mul_mono(1, d as int, l as int);
            lemma_mul_mono(r as int, (l * d) as int, er as int);
            assert(false);
        }
        lemma_exp2_split(sl, sr);
        let d = exp2((sr - sl) as nat);
        lemma_mul_assoc(r as int, d as int, el as int);
        lemma_mul_lt_cancel(l as int, (r * d) as int, el as int);
    } else {
        if sl < sr {
            // l * el >= 2^k and r * er <= 2^(k+1) force r <= l.
            lemma_exp2_split(sl, k);
            let a = exp2((k - sl) as nat);
            lemma_mul_le_cancel(a as int, l as int, el as int);
            lemma_exp2_split(sl + 1, sr);
            let d = exp2((sr - (sl + 1)) as nat);
            lemma_exp2_pos((sr - (sl + 1)) as nat);
            assert(exp2(sl + 1) == 2 * el);
            assert(2 * exp2(k) == a * (2 * el)) by {
                lemma_mul_assoc(a as int, 2, el as int);
                assert(a * 2 == 2 * a);
                lemma_mul_assoc(2, a as int, el as int);
            }
            lemma_mul_assoc(r as int, d as int, (2 * el) as int);
            lemma_mul_le_cancel((r * d) as int, a as int, (2 * el) as int);
            lemma_mul_mono(1, d as int, r as int);
            assert(false);
        }
        lemma_exp2_split(sr, sl);
        let d = exp2((sl - sr) as nat);
        lemma_mul_assoc(l as int, d as int, er as int);
        lemma_mul_lt_cancel((l * d) as int, r as int, er as int);
        lemma_exp2_pos(k);
        assert((r - 1) * er == r * er - er) by (nonlinear_arith);
        if r < 2 {
            assert(r == 1);
            assert(l * d >= 1) by (nonlinear_arith)
                requires
                    l >= 1,
                    d >= 1,
            ;
        }
    }
}

/// When both ends of a walk name the same index, the walk is finished,
/// unless it is still at its very start and covers the whole tree.
pub proof fn lemma_walk_end(k: nat, l: nat, sl: nat, r: nat, sr: nat)
    requires
        l >= 1,
        l == r,
        exp2(k) <= l * exp2(sl),
        l * exp2(sl) <= r * exp2(sr),
        r * exp2(sr) <= 2 * exp2(k),
        exp2(k) < l * exp2(sl) || r * exp2(sr) < 2 * exp2(k),
    ensures
        l * exp2(sl) == r * exp2(sr),
{
    lemma_exp2_pos(sl);
    lemma_exp2_pos(sr);
    if sl < sr {
        lemma_exp2_split(sl + 1, sr);
        let d = exp2((sr - (sl + 1)) as nat);
        lemma_exp2_pos((sr - (sl + 1)) as nat);
        assert(exp2(sl + 1) == 2 * exp2(sl));
        lemma_mul_assoc(l as int, d as int, (2 * exp2(sl)) as int);
        lemma_mul_mono(1, d as int, l as int);
        lemma_mul_mono(l as int, (l * d) as int, (2 * exp2(sl)) as int);
        assert(l * (2 * exp2(sl)) == 2 * (l * exp2(sl))) by (nonlinear_arith);
    } else if sl > sr {
        lemma_exp2_split(sr + 1, sl);
        let d = exp2((sl - (sr + 1)) as nat);
        lemma_exp2_pos((sl - (sr + 1)) as nat);
        assert(exp2(sr + 1) == 2 * exp2(sr));
        lemma_mul_assoc(l as int, d as int, (2 * exp2(sr)) as int);
        lemma_mul_mono(1, d as int, l as int);
        lemma_mul_mono(l as int, (l * d) as int, (2 * exp2(sr)) as int);
        assert(l * (2 * exp2(sr)) == 2 * (l * exp2(sr))) by (nonlinear_arith);
        assert(l * exp2(sr) >= 1) by (nonlinear_arith)
            requires
                l >= 1,
                exp2(sr) >= 1,
        ;
    }
}

/// `next_power_of_two(n)` is the power of two `exp2(k)` with
/// `exp2(k - 1) < n <= exp2(k)`.
pub proof fn lemma_next_power_of_two(n: nat) -> (k: nat)
    ensures
        next_power_of_two(n) == exp2(k),
        n <= exp2(k),
        k == 0 || exp2((k - 1) as nat) < n,
    decreases n,
{
    if n <= 1 {
        assert(exp2(0) == 1);
        0
    } else {
        let m = ((n + 1) / 2) as nat;
        let j = lemma_next_power_of_two(m);
        assert(exp2(j + 1) == 2 * exp2(j));
        if j > 0 {
            assert(exp2(j) == 2 * exp2((j - 1) as nat));
        }
        j + 1
    }
}

/// A power of two with `exp2(k - 1) < n <= exp2(k)` is `next_power_of_two(n)`.
pub proof fn lemma_next_power_of_two_unique(n: nat, k: nat)
    requires
        n <= exp2(k),
        k == 0 || exp2((k - 1) as nat) < n,
    ensures
        next_power_of_two(n) == exp2(k),
{
    let j = lemma_next_power_of_two(n);
    if j < k {
        lemma_exp2_le(j, (k - 1) as nat);
    } else if k < j {
        lemma_exp2_le(k, (j - 1) as nat);
    }
}

/// The odd part of a positive number is unique.
pub proof fn lemma_odd_unique(l: nat, sl: nat, r: nat, sr: nat)
    requires
        l % 2 == 1,
        r % 2 == 1,
        l * exp2(sl) == r * exp2(sr),
    ensures
        l == r,
        sl == sr,
    decreases sl,
{
    if sl > 0 && sr > 0 {
        assert(exp2(sl) == 2 * exp2((sl - 1) as nat));
        assert(exp2(sr) == 2 * exp2((sr - 1) as nat));
        assert(l * exp2((sl - 1) as nat) == r * exp2((sr - 1) as nat)) by (nonlinear_arith)
            requires
                l * exp2(sl) == r * exp2(sr),
                exp2(sl) == 2 * exp2((sl - 1) as nat),
                exp2(sr) == 2 * exp2((sr - 1) as nat),
        ;
        lemma_odd_unique(l, (sl - 1) as nat, r, (sr - 1) as nat);
    } else if sl > 0 {
        assert(exp2(sr) == 1);
        assert(exp2(sl) == 2 * exp2((sl - 1) as nat));
        assert(r == 2 * (l * exp2((sl - 1) as nat))) by (nonlinear_arith)
            requires
                l * exp2(sl) == r * 1,
                exp2(sl) == 2 * exp2((sl - 1) as nat),
        ;
    } else if sr > 0 {
        assert(exp2(sl) == 1);
        assert(exp2(sr) == 2 * exp2((sr - 1) as nat));
        assert(l == 2 * (r * exp2((sr - 1) as nat))) by (nonlinear_arith)
            requires
                l * 1 == r * exp2(sr),
                exp2(sr) == 2 * exp2((sr - 1) as nat),
        ;
    } else {
        assert(exp2(sl) == 1 && exp2(sr) == 1);
        assert(l * 1 == l && r * 1 == r);
    }
}

/// Computes `next_power_of_two(n)` together with its exponent.
pub(crate) fn compute_offset(n: usize) -> (res: (usize, Ghost<nat>))
    requires
        next_power_of_two(n as nat) <= usize::MAX,
    ensures
        res.0 == next_power_of_two(n as nat),
        res.0 == exp2(res.1@),
        n <= res.0,
{
    let mut offset: usize = 1;
    let ghost mut k: nat = 0;
    assert(exp2(0) == 1);
    let ghost kn = lemma_next_power_of_two(n as nat);
    while offset < n
        invariant
            offset == exp2(k),
            offset >= 1,
            k == 0 || exp2((k - 1) as nat) < n,
            next_power_of_two(n as nat) == exp2(kn),
            n <= exp2(kn),
            kn == 0 || exp2((kn - 1) as nat) < n,
            next_power_of_two(n as nat) <= usize::MAX,
        decreases 2 * n - offset,
    {
        proof {
            if kn <= k {
                lemma_exp2_le(kn, k);
            }
            lemma_exp2_le(k + 1, kn);
            assert(exp2(k + 1) == 2 * exp2(k));
        }
        offset = offset * 2;
        proof {
            k = k + 1;
        }
    }
    proof {
        lemma_next_power_of_two_unique(n as nat, k);
    }
    (offset, Ghost(k))
}

/// Whether a tree over `len` elements fits in memory: its leaves, rounded up
/// to a power of two, plus the elements rounded up to an even count, do not
/// overflow `usize`. This is what the tree constructors require.
pub fn tree_fits(len: usize) -> (res: bool)
    ensures
        res == (next_power_of_two(len as nat) + round_up_even(len as nat) <= usize::MAX),
{
    let ghost kn = lemma_next_power_of_two(len as nat);
    if len == usize::MAX {
        proof {
            lemma_exp2_pos(kn);
        }
        return false;
    }
    let even = len + len % 2;
    let mut offset: usize = 1;
    let ghost mut k: nat = 0;
    assert(exp2(0) == 1);
    while offset < len
        invariant
            offset == exp2(k),
            offset >= 1,
            k == 0 || exp2((k - 1) as nat) < len,
            next_power_of_two(len as nat) == exp2(kn),
            len <= exp2(kn),
            kn == 0 || exp2((kn - 1) as nat) < len,
        decreases 2 * len - offset,
    {
        proof {
            if kn <= k {
                lemma_exp2_le(kn, k);
            }
            lemma_exp2_le(k + 1, kn);
            assert(exp2(k + 1) == 2 * exp2(k));
        }
        if offset > usize::MAX / 2 {
            return false;
        }
        offset = offset * 2;
        proof {
            k = k + 1;
        }
    }
    proof {
        lemma_next_power_of_two_unique(len as nat, k);
    }
    offset <= usize::MAX - even
}

/// `y` is a node at height `h` of the tree with `exp2(k)` leaves.
pub open spec fn is_node(k: nat, y: int, h: nat) -> bool {
    1 <= y && exp2(k) <= y * exp2(h) < 2 * exp2(k)
}

/// `x` is `c` or lies below `c` in the tree.
pub open spec fn in_subtree(c: int, x: int) -> bool
    decreases x,
{
    if x <= 0 {
        false
    } else {
        x == c || (x > c && in_subtree(c, x / 2))
    }
}

/// The parent of a node is a node one level up.
pub proof fn lemma_parent_node(k: nat, c: int, h: nat)
    requires
        is_node(k, c, h),
        c >= 2,
    ensures
        is_node(k, c / 2, h + 1),
        (c / 2) * exp2(h + 1) <= c * exp2(h),
        (c + 1) * exp2(h) <= (c / 2 + 1) * exp2(h + 1),
{
    let e = exp2(h);
    lemma_exp2_pos(h);
    assert(exp2(h + 1) == 2 * e);
    lemma_height_bound(k, c as nat, h);
    let q = c / 2;
    assert(q * exp2(h + 1) == (c - c % 2) * e) by (nonlinear_arith)
        requires
            exp2(h + 1) == 2 * e,
            q == c / 2,
    ;
    assert((q + 1) * exp2(h + 1) == (c - c % 2 + 2) * e) by (nonlinear_arith)
        requires
            exp2(h + 1) == 2 * e,
            q == c / 2,
    ;
    assert((c - c % 2) * e <= c * e) by (nonlinear_arith)
        requires
            e >= 1,
            c >= 2,
    ;
    assert((c + 1) * e <= (c - c % 2 + 2) * e) by (nonlinear_arith)
        requires
            e >= 1,
            c >= 2,
    ;
    if c % 2 == 1 {
        // an odd node is a right child, so it does not start the tree
        if h == k {
            lemma_mul_mono(2, c, e as int);
        } else {
            lemma_exp2_split(h, k);
            let d = exp2((k - h) as nat);
            lemma_exp2_split(h + 1, k);
            assert(d == 2 * exp2((k - h - 1) as nat)) by {
                assert(exp2(k) == exp2((k - h - 1) as nat) * exp2(h + 1));
                lemma_mul_assoc(exp2((k - h - 1) as nat) as int, 2, e as int);
                assert(exp2(k) == (exp2((k - h - 1) as nat) * 2) * e);
                lemma_mul_le_cancel(d as int, (exp2((k - h - 1) as nat) * 2) as int, e as int);
                lemma_mul_le_cancel((exp2((k - h - 1) as nat) * 2) as int, d as int, e as int);
            }
            lemma_mul_le_cancel(d as int, c, e as int);
            assert(c - 1 >= d);
            lemma_mul_mono(d as int, c - 1, e as int);
        }
    }
    assert((c - c % 2 + 2) * e <= (c + 2) * e) by (nonlinear_arith)
        requires
            e >= 1,
    ;
    lemma_node_end_bound(k, c, h);
    if c % 2 == 0 {
        // an even node is a left child: its sibling ends inside the tree too
        assert((c + 2) * e <= 2 * exp2(k)) by {
            lemma_exp2_split(h, k + 1);
            let d = exp2((k + 1 - h) as nat);
            assert(exp2(k + 1) == 2 * exp2(k));
            lemma_mul_lt_cancel(c, d as int, e as int);
            if h <= k {
                lemma_exp2_split(1, (k + 1 - h) as nat);
                assert(exp2(0) == 1);
                assert(exp2(1) == 2);
                assert(d % 2 == 0) by (nonlinear_arith)
                    requires
                        d == exp2((k + 1 - h - 1) as nat) * 2,
                ;
            }
            assert(c + 2 <= d);
            lemma_mul_mono(c + 2, d as int, e as int);
        }
    }
}

/// The block of a node ends inside the tree.
pub proof fn lemma_node_end_bound(k: nat, x: int, h: nat)
    requires
        is_node(k, x, h),
    ensures
        (x + 1) * exp2(h) <= 2 * exp2(k),
        h <= k,
        x <= x * exp2(h),
{
    lemma_exp2_pos(h);
    lemma_mul_mono(1, exp2(h) as int, x);
    lemma_height_bound(k, x as nat, h);
    assert(2 * exp2(k) == exp2(k + 1));
    lemma_exp2_split(h, k + 1);
    let d = exp2((k + 1 - h) as nat);
    lemma_mul_lt_cancel(x, d as int, exp2(h) as int);
    assert((x + 1) * exp2(h) == x * exp2(h) + exp2(h)) by (nonlinear_arith);
}

/// Below a node `c` at height `hc` lie exactly the nodes of a lower height
/// whose blocks fall inside the block of `c`.
pub proof fn lemma_in_subtree_block(k: nat, c: int, hc: nat, x: int, hx: nat)
    requires
        is_node(k, c, hc),
        is_node(k, x, hx),
        hx <= hc,
    ensures
        in_subtree(c, x) <==> (c * exp2((hc - hx) as nat) <= x < (c + 1) * exp2(
            (hc - hx) as nat,
        )),
    decreases hc - hx,
{
    lemma_exp2_pos(hx);
    lemma_exp2_pos(hc);
    if hx == hc {
        assert(exp2(0) == 1);
        assert(c * exp2(0) == c && (c + 1) * exp2(0) == c + 1);
        if x > c {
            lemma_parent_node(k, x, hx);
            assert(exp2(hx + 1) == 2 * exp2(hx));
            assert((x / 2) * exp2(hx + 1) < c * exp2(hx + 1)) by (nonlinear_arith)
                requires
                    (x / 2) * exp2(hx + 1) <= x * exp2(hx),
                    x * exp2(hx) < 2 * exp2(k),
                    exp2(k) <= c * exp2(hx),
                    exp2(hx + 1) == 2 * exp2(hx),
            ;
            lemma_mul_lt_cancel(x / 2, c, exp2(hx + 1) as int);
            assert(!in_subtree(c, x / 2));
        }
    } else {
        let e = exp2(hx);
        assert(exp2(hx + 1) == 2 * e);
        lemma_exp2_le(hx + 1, hc);
        lemma_exp2_split(hx + 1, hc);
        let dd = exp2((hc - (hx + 1)) as nat);
        lemma_exp2_pos((hc - (hx + 1)) as nat);
        assert(c * exp2(hc) == (c * dd) * (2 * e)) by {
            lemma_mul_assoc(c, dd as int, (2 * e) as int);
        }
        assert(x > c) by {
            assert(c * exp2(hc) >= c * (2 * e)) by (nonlinear_arith)
                requires
                    exp2(hc) >= 2 * e,
                    c >= 1,
            ;
            assert(x * e > c * e) by (nonlinear_arith)
                requires
                    x * e >= exp2(k),
                    c * exp2(hc) < 2 * exp2(k),
                    c * exp2(hc) >= c * (2 * e),
            ;
            lemma_mul_lt_cancel(c, x, e as int);
        }
        lemma_parent_node(k, x, hx);
        lemma_in_subtree_block(k, c, hc, x / 2, hx + 1);
        assert(exp2((hc - hx) as nat) == 2 * dd) by {
            assert((hc - hx) as nat == ((hc - (hx + 1)) as nat) + 1);
        }
        assert(c * exp2((hc - hx) as nat) == 2 * (c * dd)) by (nonlinear_arith)
            requires
                exp2((hc - hx) as nat) == 2 * dd,
        ;
        assert((c + 1) * exp2((hc - hx) as nat) == 2 * ((c + 1) * dd)) by (nonlinear_arith)
            requires
                exp2((hc - hx) as nat) == 2 * dd,
        ;
    }
}

/// A node has a single height.
pub proof fn lemma_node_height_unique(k: nat, x: int, h1: nat, h2: nat)
    requires
        is_node(k, x, h1),
        is_node(k, x, h2),
    ensures
        h1 == h2,
{
    if h1 < h2 {
        lemma_exp2_le(h1 + 1, h2);
        assert(exp2(h1 + 1) == 2 * exp2(h1));
        lemma_mul_mono(exp2(h1 + 1) as int, exp2(h2) as int, x);
        assert(exp2(h1 + 1) * x == 2 * (x * exp2(h1))) by (nonlinear_arith)
            requires
                exp2(h1 + 1) == 2 * exp2(h1),
        ;
        assert(exp2(h2) * x == x * exp2(h2)) by (nonlinear_arith);
    } else if h2 < h1 {
        lemma_exp2_le(h2 + 1, h1);
        assert(exp2(h2 + 1) == 2 * exp2(h2));
        lemma_mul_mono(exp2(h2 + 1) as int, exp2(h1) as int, x);
        assert(exp2(h2 + 1) * x == 2 * (x * exp2(h2))) by (nonlinear_arith)
            requires
                exp2(h2 + 1) == 2 * exp2(h2),
        ;
        assert(exp2(h1) * x == x * exp2(h1)) by (nonlinear_arith);
    }
}

/// Anything below a child is below its parent.
pub proof fn lemma_in_subtree_parent(c: int, x: int)
    requires
        in_subtree(c, x),
        c >= 2,
    ensures
        in_subtree(c / 2, x),
    decreases x,
{
    if x != c {
        lemma_in_subtree_parent(c, x / 2);
    } else {
        assert(in_subtree(c / 2, c / 2));
    }
}

/// Nothing above `c` (with a smaller index) lies below it.
pub proof fn lemma_in_subtree_ge(c: int, x: int)
    requires
        in_subtree(c, x),
    ensures
        c <= x,
        c >= 1,
    decreases x,
{
    if x != c {
        lemma_in_subtree_ge(c, x / 2);
    }
}

/// A node above `c` (with a smaller index) is not below `c`.
pub proof fn lemma_in_subtree_ge_neg(c: int, y: int)
    requires
        y < c,
    ensures
        !in_subtree(c, y),
{
    if in_subtree(c, y) {
        lemma_in_subtree_ge(c, y);
    }
}

/// An ancestor of a node is a node, higher up unless it is the node itself.
pub proof fn lemma_subtree_height(k: nat, q: int, x: int, hx: nat) -> (hq: nat)
    requires
        is_node(k, x, hx),
        in_subtree(q, x),
    ensures
        is_node(k, q, hq),
        hx <= hq,
        q != x ==> hx < hq,
    decreases x,
{
    if x == q {
        hx
    } else {
        lemma_in_subtree_ge(q, x / 2);
        lemma_parent_node(k, x, hx);
        lemma_subtree_height(k, q, x / 2, hx + 1)
    }
}

/// Moving the left end of a walk past the block of `l` (odd, height `sl`) to
/// the block of `l2` (odd, height `sl2`) only leaves ancestors of `l` above.
pub proof fn lemma_left_ancestors(k: nat, l: int, sl: nat, l2: int, sl2: nat, q: int)
    requires
        is_node(k, l, sl),
        is_node(k, l2, sl2),
        l % 2 == 1,
        l2 % 2 == 1,
        l2 * exp2(sl2) == (l + 1) * exp2(sl),
        in_subtree(q, l2),
        q != l2,
    ensures
        in_subtree(q, l),
        q != l,
{
    let hq = lemma_subtree_height(k, q, l2, sl2);
    lemma_in_subtree_block(k, q, hq, l2, sl2);
    lemma_exp2_pos(sl);
    lemma_exp2_pos(sl2);
    // l2's block starts at an odd multiple of exp2(sl2), so q's block starts strictly before it
    lemma_exp2_split(sl2, hq);
    let d2 = exp2((hq - sl2) as nat);
    assert(d2 == 2 * exp2((hq - sl2 - 1) as nat));
    assert(q * d2 < l2) by {
        lemma_mul_even(q, exp2((hq - sl2 - 1) as nat) as int);
    }
    // and l2's block starts strictly after l's block starts: sl < sl2
    assert(sl < sl2) by {
        if sl2 <= sl {
            lemma_exp2_split(sl2, sl);
            let d = exp2((sl - sl2) as nat);
            lemma_mul_assoc(l + 1, d as int, exp2(sl2) as int);
            lemma_mul_le_cancel(l2, (l + 1) * d, exp2(sl2) as int);
            lemma_mul_le_cancel((l + 1) * d, l2, exp2(sl2) as int);
            lemma_mul_even(d as int, (l + 1) / 2);
        }
    }
    lemma_exp2_split(sl, sl2);
    let d = exp2((sl2 - sl) as nat);
    lemma_exp2_pos((sl2 - sl) as nat);
    lemma_exp2_split(sl, hq);
    let dq = exp2((hq - sl) as nat);
    // positions in units of exp2(sl)
    lemma_mul_assoc(l2, d as int, exp2(sl) as int);
    lemma_mul_le_cancel(l2 * d, l + 1, exp2(sl) as int);
    lemma_mul_le_cancel(l + 1, l2 * d, exp2(sl) as int);
    assert(dq == d2 * d) by {
        lemma_exp2_add((hq - sl2) as nat, (sl2 - sl) as nat);
        assert((hq - sl2) as nat + (sl2 - sl) as nat == (hq - sl) as nat);
    }
    assert(q * dq + d <= l2 * d) by (nonlinear_arith)
        requires
            q * d2 < l2,
            dq == d2 * d,
            d >= 1,
    ;
    assert(l2 * d < (q + 1) * dq) by (nonlinear_arith)
        requires
            l2 < (q + 1) * d2,
            dq == d2 * d,
            d >= 1,
    ;
    assert(d >= 2) by {
        lemma_exp2_lt(0, (sl2 - sl) as nat);
        assert(exp2(0) == 1);
    }
    lemma_in_subtree_block(k, q, hq, l, sl);
    assert(hq > sl);
    if q == l {
        lemma_node_height_unique(k, l, sl, hq);
    }
    assert(exp2((hq - sl) as nat) == dq);
}

/// Moving the right end of a walk past the block of `r - 1` (`r` odd, height
/// `sr`) to the block of `r2 - 1` (`r2` odd, height `sr2`) only leaves
/// ancestors of `r - 1` above.
pub proof fn lemma_right_ancestors(k: nat, r: int, sr: nat, r2: int, sr2: nat, q: int)
    requires
        is_node(k, r - 1, sr),
        is_node(k, r2 - 1, sr2),
        r % 2 == 1,
        r2 % 2 == 1,
        r2 * exp2(sr2) == (r - 1) * exp2(sr),
        in_subtree(q, r2 - 1),
        q != r2 - 1,
    ensures
        in_subtree(q, r - 1),
        q != r - 1,
{
    let hq = lemma_subtree_height(k, q, r2 - 1, sr2);
    lemma_in_subtree_block(k, q, hq, r2 - 1, sr2);
    lemma_exp2_pos(sr);
    lemma_exp2_pos(sr2);
    lemma_exp2_split(sr2, hq);
    let d2 = exp2((hq - sr2) as nat);
    assert(d2 == 2 * exp2((hq - sr2 - 1) as nat));
    // r2's position is an odd multiple of exp2(sr2), so q's block ends strictly after it
    assert(r2 < (q + 1) * d2) by {
        lemma_mul_even(q + 1, exp2((hq - sr2 - 1) as nat) as int);
    }
    assert(sr < sr2) by {
        if sr2 <= sr {
            lemma_exp2_split(sr2, sr);
            let d = exp2((sr - sr2) as nat);
            lemma_mul_assoc(r - 1, d as int, exp2(sr2) as int);
            lemma_mul_le_cancel(r2, (r - 1) * d, exp2(sr2) as int);
            lemma_mul_le_cancel((r - 1) * d, r2, exp2(sr2) as int);
            lemma_mul_even(d as int, (r - 1) / 2);
        }
    }
    lemma_exp2_split(sr, sr2);
    let d = exp2((sr2 - sr) as nat);
    lemma_exp2_pos((sr2 - sr) as nat);
    lemma_exp2_split(sr, hq);
    let dq = exp2((hq - sr) as nat);
    lemma_mul_assoc(r2, d as int, exp2(sr) as int);
    lemma_mul_le_cancel(r2 * d, r - 1, exp2(sr) as int);
    lemma_mul_le_cancel(r - 1, r2 * d, exp2(sr) as int);
    assert(dq == d2 * d) by {
        lemma_exp2_add((hq - sr2) as nat, (sr2 - sr) as nat);
        assert((hq - sr2) as nat + (sr2 - sr) as nat == (hq - sr) as nat);
    }
    assert(q * dq <= (r2 - 1) * d) by (nonlinear_arith)
        requires
            q * d2 <= r2 - 1,
            dq == d2 * d,
            d >= 1,
    ;
    assert(r2 * d + d <= (q + 1) * dq) by (nonlinear_arith)
        requires
            r2 + 1 <= (q + 1) * d2,
            dq == d2 * d,
            d >= 1,
    ;
    assert(d >= 2) by {
        lemma_exp2_lt(0, (sr2 - sr) as nat);
        assert(exp2(0) == 1);
    }
    assert((r2 - 1) * d == r2 * d - d) by (nonlinear_arith);
    lemma_in_subtree_block(k, q, hq, r - 1, sr);
    assert(exp2((hq - sr) as nat) == dq);
    if q == r - 1 {
        lemma_node_height_unique(k, r - 1, sr, hq);
    }
}

/// The block of an ancestor contains the block of its descendant.
pub proof fn lemma_subtree_contains(k: nat, q: int, x: int, hx: nat) -> (hq: nat)
    requires
        is_node(k, x, hx),
        in_subtree(q, x),
    ensures
        is_node(k, q, hq),
        hx <= hq,
        q != x ==> hx < hq,
        q * exp2(hq) <= x * exp2(hx),
        (x + 1) * exp2(hx) <= (q + 1) * exp2(hq),
{
    let hq = lemma_subtree_height(k, q, x, hx);
    lemma_in_subtree_block(k, q, hq, x, hx);
    lemma_exp2_split(hx, hq);
    let d = exp2((hq - hx) as nat);
    let e = exp2(hx);
    lemma_exp2_pos(hx);
    lemma_mul_assoc(q, d as int, e as int);
    lemma_mul_assoc(q + 1, d as int, e as int);
    lemma_mul_mono(q * d, x, e as int);
    lemma_mul_mono(x + 1, (q + 1) * d, e as int);
    hq
}

/// The node `r - 1` left of a right boundary `r * exp2(sr)` inside the tree.
pub proof fn lemma_right_node(k: nat, r: int, sr: nat)
    requires
        r >= 2,
        r % 2 == 1,
        exp2(k) < r * exp2(sr) <= 2 * exp2(k),
    ensures
        is_node(k, r - 1, sr),
{
    lemma_exp2_pos(sr);
    assert(sr <= k) by {
        if sr > k {
            lemma_exp2_le(k + 1, sr);
            assert(exp2(k + 1) == 2 * exp2(k));
            lemma_mul_mono(2, r, exp2(sr) as int);
            assert(r * exp2(sr) >= 2 * exp2(sr)) by (nonlinear_arith)
                requires
                    r >= 2,
                    exp2(sr) >= 1,
            ;
        }
    }
    lemma_exp2_split(sr, k);
    let d = exp2((k - sr) as nat);
    lemma_mul_lt_cancel(d as int, r, exp2(sr) as int);
    lemma_mul_mono(d as int, r - 1, exp2(sr) as int);
    assert((r - 1) * exp2(sr) < r * exp2(sr)) by (nonlinear_arith)
        requires
            exp2(sr) >= 1,
    ;
}

/// Removes the factors of two from a positive `x`: `x == res.0 * exp2(res.1)`
/// with `res.0` odd.
pub(crate) fn strip_trailing_zeros(x: usize) -> (res: (usize, Ghost<nat>))
    requires
        x > 0,
    ensures
        res.0 * exp2(res.1@) == x,
        res.0 % 2 == 1,
        res.0 >= 1,
{
    let mut y = x;
    let ghost mut t: nat = 0;
    assert(exp2(0) == 1);
    while y % 2 == 0
        invariant
            y > 0,
            y * exp2(t) == x,
        decreases y,
    {
        proof {
            assert((y / 2) * (2 * exp2(t)) == y * exp2(t)) by (nonlinear_arith)
                requires
                    y % 2 == 0,
            ;
        }
        y = y / 2;
        proof {
            t = t + 1;
        }
    }
    (y, Ghost(t))
}

/// Splits a positive `x` into its odd part and the largest power of two that
/// divides it: `x == res.0 * res.1` with `res.1 == exp2(res.2@)`.
pub(crate) fn split_pow2(x: usize) -> (res: (usize, usize, Ghost<nat>))
    requires
        x > 0,
    ensures
        res.0 * res.1 == x,
        res.1 == exp2(res.2@),
        res.0 % 2 == 1,
        res.0 >= 1,
{
    let mut y = x;
    let mut w: usize = 1;
    let ghost mut t: nat = 0;
    assert(exp2(0) == 1);
    while y % 2 == 0
        invariant
            y > 0,
            y * w == x,
            w == exp2(t),
        decreases y,
    {
        proof {
            assert(2 * w <= x && (y / 2) * (2 * w) == x) by (nonlinear_arith)
                requires
                    y % 2 == 0,
                    y > 0,
                    y * w == x,
            ;
        }
        y = y / 2;
        w = w * 2;
        proof {
            t = t + 1;
        }
    }
    (y, w, Ghost(t))
}

/// The proper ancestors of the right sibling of a left child `x` are those
/// of `x`.
pub proof fn lemma_sibling_ancestors(x: int, q: int)
    requires
        x >= 2,
        x % 2 == 0,
        in_subtree(q, x + 1),
        q != x + 1,
    ensures
        in_subtree(q, x),
        q != x,
{
    assert(in_subtree(q, x + 1) == (x + 1 == q || (x + 1 > q && in_subtree(q, (x + 1) / 2))));
    assert((x + 1) / 2 == x / 2);
    lemma_in_subtree_ge(q, x / 2);
    assert(in_subtree(q, x) == (x == q || (x > q && in_subtree(q, x / 2))));
}

} // verus!
