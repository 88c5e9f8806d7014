//! A sparse table: constant-time folds of ranges over an idempotent
//! semigroup, built over blocks of `B` elements.
use core::ops::Range;
use vstd::prelude::*;
use crate::traits::{fold1, lemma_fold1_overlap, lemma_fold1_split, Idempotent, SemiGroup};
use crate::tree::{exp2, lemma_exp2_le, lemma_exp2_pos};

verus! {

/// The number of elements per block.
pub const B: usize = 16;

/// The floor of the binary logarithm of `m`; `0` for `m <= 1`.
pub open spec fn log2(m: nat) -> nat
    decreases m,
{
    if m <= 1 {
        0
    } else {
        1 + log2(m / 2)
    }
}

/// The number of blocks of `B` elements that `n` elements fill.
pub open spec fn num_blocks(n: nat) -> nat {
    n / (B as nat) + if n % (B as nat) != 0 {
        1nat
    } else {
        0nat
    }
}

/// The first index of the block of `i`.
pub open spec fn block_start(i: int) -> int {
    (i / (B as int)) * (B as int)
}

/// One past the last index of the block of `i`, among `n` elements.
pub open spec fn block_end(i: int, n: int) -> int {
    if block_start(i) + B < n {
        block_start(i) + B
    } else {
        n
    }
}

/// One past the last index covered by the blocks `j .. j + exp2(w)`, among
/// `n` elements.
pub open spec fn span_end(j: int, w: nat, n: int) -> int {
    if (j + exp2(w)) * (B as int) < n {
        (j + exp2(w)) * (B as int)
    } else {
        n
    }
}

pub proof fn lemma_log2(m: nat)
    requires
        m >= 1,
    ensures
        exp2(log2(m)) <= m < exp2(log2(m) + 1),
    decreases m,
{
    if m <= 1 {
        assert(exp2(0) == 1);
        assert(exp2(1) == 2);
    } else {
        lemma_log2(m / 2);
        assert(exp2(log2(m)) == 2 * exp2(log2(m / 2)));
        assert(exp2(log2(m) + 1) == 2 * exp2(log2(m / 2) + 1));
    }
}

/// Computes `log2(x)` and `exp2(log2(x))`.
pub(crate) fn floor_log2(x: usize) -> (res: (usize, usize))
    requires
        x >= 1,
    ensures
        res.0 == log2(x as nat),
        res.1 == exp2(res.0 as nat),
        res.1 <= x,
{
    let mut y = x;
    let mut w: usize = 0;
    let mut p: usize = 1;
    assert(exp2(0) == 1);
    proof {
        lemma_log2(x as nat);
    }
    while y > 1
        invariant
            1 <= y <= x,
            w + log2(y as nat) == log2(x as nat),
            p == exp2(w as nat),
            p * y <= x,
            exp2(log2(x as nat)) <= x,
        decreases y,
    {
        proof {
            assert(log2(y as nat) == 1 + log2((y / 2) as nat));
            assert(exp2((w + 1) as nat) == 2 * exp2(w as nat));
            assert(p * 2 * (y / 2) <= p * y) by (nonlinear_arith)
                requires
                    p >= 0,
                    y >= 2,
            ;
            crate::tree::lemma_exp2_le((w + 1) as nat, log2(x as nat));
            lemma_exp2_gt(w as nat);
        }
        y = y / 2;
        w = w + 1;
        p = p * 2;
    }
    proof {
        assert(log2(1) == 0);
    }
    (w, p)
}

/// A power of two exceeds its exponent.
pub proof fn lemma_exp2_gt(w: nat)
    ensures
        w < exp2(w),
    decreases w,
{
    if w > 0 {
        lemma_exp2_gt((w - 1) as nat);
        lemma_exp2_pos((w - 1) as nat);
    }
}

/// Where layer `j` starts in the summary of `nb` blocks: layer `i` holds
/// `nb + 1 - exp2(i)` entries.
pub open spec fn layer_offset(nb: nat, j: nat) -> int
    decreases j,
{
    if j == 0 {
        0
    } else {
        layer_offset(nb, (j - 1) as nat) + nb + 1 - exp2((j - 1) as nat)
    }
}

/// The fold of the blocks `t .. t + exp2(j)` of `values`.
pub open spec fn layer_fold<T: SemiGroup>(values: Seq<T::Set>, j: nat, t: int) -> T::Set {
    fold1::<T>(values.subrange(t * (B as int), span_end(t, j, values.len() as int)))
}

/// The prefix of the block of `i` up to `i`, folded.
pub open spec fn prefix_fold<T: SemiGroup>(values: Seq<T::Set>, i: int) -> T::Set {
    fold1::<T>(values.subrange(block_start(i), i + 1))
}

/// The suffix of the block of `i` from `i`, folded.
pub open spec fn suffix_fold<T: SemiGroup>(values: Seq<T::Set>, i: int) -> T::Set {
    fold1::<T>(values.subrange(i, block_end(i, values.len() as int)))
}

/// The layers below `j2` end before layer `j2` starts.
pub proof fn lemma_layer_offset_mono(nb: nat, j: nat, j2: nat)
    requires
        j <= j2,
        j2 <= log2(nb) + 1,
        nb >= 1,
    ensures
        layer_offset(nb, j) <= layer_offset(nb, j2),
        j < j2 ==> layer_offset(nb, j) + nb + 1 - exp2(j) <= layer_offset(nb, j2),
    decreases j2 - j,
{
    if j < j2 {
        lemma_layer_offset_mono(nb, j, (j2 - 1) as nat);
        lemma_log2(nb);
        lemma_exp2_le((j2 - 1) as nat, log2(nb));
        assert(layer_offset(nb, j2) == layer_offset(nb, (j2 - 1) as nat) + nb + 1 - exp2(
            (j2 - 1) as nat,
        ));
    }
}

/// The exponent of a power of two below `nb` is at most `log2(nb)`.
pub proof fn lemma_log2_bound(nb: nat, w: nat)
    requires
        1 <= exp2(w) <= nb,
    ensures
        w <= log2(nb),
{
    lemma_log2(nb);
    if w > log2(nb) {
        lemma_exp2_le(log2(nb) + 1, w);
    }
}

/// Layers `0..=top` of `summary` hold the folds of the runs of blocks.
pub open spec fn layers_ok<T: SemiGroup>(
    summary: Seq<T::Set>,
    values: Seq<T::Set>,
    nb: nat,
    top: int,
) -> bool {
    forall|j: int, t: int|
        0 <= j <= top && 0 <= t <= nb - exp2(j as nat) ==> summary[layer_offset(nb, j as nat) + t]
            == #[trigger] layer_fold::<T>(values, j as nat, t)
}

/// Appending to the summary keeps the layers already complete.
pub proof fn lemma_layers_push<T: SemiGroup>(
    summary: Seq<T::Set>,
    values: Seq<T::Set>,
    nb: nat,
    top: int,
    x: T::Set,
)
    requires
        nb >= 1,
        0 <= top <= log2(nb),
        layers_ok::<T>(summary, values, nb, top),
        layer_offset(nb, (top + 1) as nat) <= summary.len(),
    ensures
        layers_ok::<T>(summary.push(x), values, nb, top),
{
    assert forall|j: int, t: int|
        0 <= j <= top && 0 <= t <= nb - exp2(j as nat) implies summary.push(x)[layer_offset(
        nb,
        j as nat,
    ) + t] == #[trigger] layer_fold::<T>(values, j as nat, t) by {
        lemma_layer_offset_mono(nb, j as nat, (top + 1) as nat);
        lemma_layer_offset_mono(nb, 0, j as nat);
        lemma_exp2_pos(j as nat);
    }
}

/// A table answering range folds over an idempotent semigroup.
#[derive(Debug, Clone)]
pub struct SparseTable<T: Idempotent> {
    summary: Vec<T::Set>,
    partition: Vec<usize>,
    values: Vec<T::Set>,
    prefix: Vec<T::Set>,
    suffix: Vec<T::Set>,
}

impl<T: Idempotent> View for SparseTable<T> {
    type V = Seq<T::Set>;

    closed spec fn view(&self) -> Seq<T::Set> {
        self.values@
    }
}

impl<T: Idempotent> SparseTable<T> where T::Set: Copy {
    /// The internal invariant: block prefixes and suffixes, and for each
    /// layer `j` the folds of every run of `exp2(j)` blocks.
    pub closed spec fn well_formed(&self) -> bool {
        let v = self.values@;
        let n = v.len();
        let nb = num_blocks(n);
        let height = log2(nb);
        &&& self.prefix@.len() == n
        &&& self.suffix@.len() == n
        &&& forall|i: int| 0 <= i < n ==> #[trigger] self.prefix@[i] == prefix_fold::<T>(v, i)
        &&& forall|i: int| 0 <= i < n ==> #[trigger] self.suffix@[i] == suffix_fold::<T>(v, i)
        &&& n > 0 ==> {
            &&& self.partition@.len() == height + 2
            &&& forall|j: int|
                0 <= j <= height + 1 ==> #[trigger] self.partition@[j] == layer_offset(
                    nb,
                    j as nat,
                )
            &&& self.summary@.len() == layer_offset(nb, height + 1)
            &&& layers_ok::<T>(self.summary@, v, nb, height as int)
        }
    }

    /// Folds the elements in `range` with `T::op`; `None` when the range is
    /// empty, reversed or reaches past the end.
    pub fn range_query(&self, range: Range<usize>) -> (res: Option<T::Set>)
        requires
            self.well_formed(),
        ensures
            res.is_some() <==> range.start < range.end <= self@.len(),
            res.is_some() ==> res.unwrap() == fold1::<T>(
                self@.subrange(range.start as int, range.end as int),
            ),
    {
        let ghost v = self.values@;
        let l = range.start;
        if range.end == 0 {
            return None;
        }
        let r = range.end - 1;
        let n = self.values.len();
        if l > r || r >= n {
            return None;
        }
        let ghost nb = num_blocks(n as nat);
        let bl = l / B;
        let br = r / B;
        proof {
            assert(br < nb);
            assert(bl * 16 <= l < bl * 16 + 16);
            assert(br * 16 <= r < br * 16 + 16);
            assert(block_start(l as int) == bl * 16);
            assert(block_start(r as int) == br * 16);
        }
        if br - bl > 1 {
            let (w, pw) = floor_log2(br - bl - 1);
            let ghost height = log2(nb);
            proof {
                lemma_log2((br - bl - 1) as nat);
                assert(exp2((w + 1) as nat) == 2 * exp2(w as nat));
                lemma_exp2_pos(w as nat);
                lemma_log2_bound(nb, w as nat);
                lemma_layer_offset_mono(nb, w as nat, height + 1);
                lemma_layer_offset_mono(nb, (w + 1) as nat, height + 1);
                assert(self.partition@[w as int] == layer_offset(nb, w as nat));
            }
            let base = self.partition[w];
            let ghost t1 = bl + 1;
            let ghost t2 = br - pw;
            proof {
                assert(self.summary@.len() <= usize::MAX) by {
                    let m = self.summary.len();
                }
                assert(layer_fold::<T>(v, w as nat, t1 as int) == self.summary@[base + t1]);
                assert(layer_fold::<T>(v, w as nat, t2 as int) == self.summary@[base + t2]);
                assert(span_end(t1 as int, w as nat, n as int) == (bl + 1 + pw) * 16);
                assert(span_end(t2 as int, w as nat, n as int) == br * 16);
                assert(block_end(l as int, n as int) == (bl + 1) * 16);
                assert(self.suffix@[l as int] == suffix_fold::<T>(v, l as int));
                assert(self.prefix@[r as int] == prefix_fold::<T>(v, r as int));
                let sa = fold1::<T>(v.subrange(l as int, (bl + 1) * 16));
                let sb = fold1::<T>(v.subrange((bl + 1) * 16, (bl + 1 + pw) * 16));
                let sc = fold1::<T>(v.subrange((br - pw) * 16, br * 16));
                let sd = fold1::<T>(v.subrange(br * 16, r + 1));
                lemma_fold1_overlap::<T>(
                    v,
                    (bl + 1) * 16,
                    (br - pw) * 16,
                    (bl + 1 + pw) * 16,
                    br * 16,
                );
                T::lemma_associative(sa, sb, T::spec_op(sc, sd));
                T::lemma_associative(sb, sc, sd);
                lemma_fold1_split::<T>(v, (bl + 1) * 16, br * 16, r + 1);
                lemma_fold1_split::<T>(v, l as int, (bl + 1) * 16, r + 1);
            }
            let a = T::op(self.suffix[l], self.summary[base + (bl + 1)]);
            let b = T::op(self.summary[base + (br - pw)], self.prefix[r]);
            Some(T::op(a, b))
        } else if br - bl == 1 {
            proof {
                assert(block_end(l as int, n as int) == br * 16);
                assert(self.suffix@[l as int] == suffix_fold::<T>(v, l as int));
                assert(self.prefix@[r as int] == prefix_fold::<T>(v, r as int));
                lemma_fold1_split::<T>(v, l as int, br * 16, r + 1);
            }
            Some(T::op(self.suffix[l], self.prefix[r]))
        } else {
            let mut result = self.values[l];
            let mut i = l + 1;
            proof {
                assert(v.subrange(l as int, l + 1) =~= seq![v[l as int]]);
            }
            while i <= r
                invariant
                    v == self.values@,
                    l < i <= r + 1,
                    r < v.len(),
                    v.len() == n,
                    result == fold1::<T>(v.subrange(l as int, i as int)),
                decreases r + 1 - i,
            {
                proof {
                    let sub = v.subrange(l as int, i + 1);
                    assert(sub.drop_last() =~= v.subrange(l as int, i as int));
                    assert(sub.last() == v[i as int]);
                }
                result = T::op(result, self.values[i]);
                i = i + 1;
            }
            Some(result)
        }
    }

    /// The fold of each element's block up to the element.
    fn block_prefixes(values: &Vec<T::Set>) -> (res: Vec<T::Set>)
        ensures
            res@.len() == values@.len(),
            forall|i: int| 0 <= i < values@.len() ==> #[trigger] res@[i] == prefix_fold::<T>(values@, i),
    {
        let n = values.len();
        let mut pre: Vec<T::Set> = Vec::with_capacity(n);
        let mut i: usize = 0;
        while i < n
            invariant
                n == values@.len(),
                i <= n,
                pre@.len() == i,
                forall|m: int| 0 <= m < i ==> #[trigger] pre@[m] == prefix_fold::<T>(values@, m),
            decreases n - i,
        {
            if i % B == 0 {
                proof {
                    assert(block_start(i as int) == i);
                    assert(values@.subrange(i as int, i + 1) =~= seq![values@[i as int]]);
                }
                pre.push(values[i]);
            } else {
                proof {
                    assert(block_start(i as int) == block_start(i - 1));
                    let sub = values@.subrange(block_start(i as int), i + 1);
                    assert(sub.drop_last() =~= values@.subrange(block_start(i as int), i as int));
                    assert(sub.last() == values@[i as int]);
                    assert(pre@[i - 1] == prefix_fold::<T>(values@, i - 1));
                }
                let x = T::op(pre[i - 1], values[i]);
                pre.push(x);
            }
            i = i + 1;
        }
        pre
    }

    /// The fold of each element's block from the element on.
    fn block_suffixes(values: &Vec<T::Set>) -> (res: Vec<T::Set>)
        ensures
            res@.len() == values@.len(),
            forall|i: int| 0 <= i < values@.len() ==> #[trigger] res@[i] == suffix_fold::<T>(values@, i),
    {
        let n = values.len();
        let mut suf: Vec<T::Set> = Vec::with_capacity(n);
        let mut i: usize = 0;
        while i < n
            invariant
                n == values@.len(),
                i <= n,
                suf@ == values@.subrange(0, i as int),
            decreases n - i,
        {
            suf.push(values[i]);
            i = i + 1;
        }
        while i > 0
            invariant
                n == values@.len(),
                i <= n,
                suf@.len() == n,
                forall|m: int| 0 <= m < i ==> #[trigger] suf@[m] == values@[m],
                forall|m: int| i <= m < n ==> #[trigger] suf@[m] == suffix_fold::<T>(values@, m),
            decreases i,
        {
            i = i - 1;
            if i + 1 < n && (i + 1) % B != 0 {
                proof {
                    let e = block_end(i as int, n as int);
                    assert(block_start(i + 1) == block_start(i as int));
                    assert(e == block_end(i + 1, n as int));
                    assert(i + 1 < e);
                    assert(suf@[i + 1] == suffix_fold::<T>(values@, i + 1));
                    lemma_fold1_split::<T>(values@, i as int, i + 1, e);
                    assert(values@.subrange(i as int, i + 1) =~= seq![values@[i as int]]);
                }
                let x = T::op(values[i], suf[i + 1]);
                suf.set(i, x);
            } else {
                proof {
                    assert(block_end(i as int, n as int) == i + 1);
                    assert(values@.subrange(i as int, i + 1) =~= seq![values@[i as int]]);
                }
            }
        }
        suf
    }

    /// Builds the layers of run folds from the block suffixes, and where each
    /// layer starts.
    fn build_summary(values: &Vec<T::Set>, suffix: &Vec<T::Set>) -> (res: (Vec<T::Set>, Vec<usize>))
        requires
            values@.len() > 0,
            suffix@.len() == values@.len(),
            forall|i: int| 0 <= i < values@.len() ==> #[trigger] suffix@[i] == suffix_fold::<T>(values@, i),
        ensures
            ({
                let nb = num_blocks(values@.len());
                let height = log2(nb);
                &&& res.1@.len() == height + 2
                &&& forall|j: int| 0 <= j <= height + 1 ==> #[trigger] res.1@[j] == layer_offset(nb, j as nat)
                &&& res.0@.len() == layer_offset(nb, height + 1)
                &&& layers_ok::<T>(res.0@, values@, nb, height as int)
            }),
    {
        let ghost v = values@;
        let n = values.len();
        let nb = n / B + if n % B != 0 {
            1
        } else {
            0
        };
        let (height, _) = floor_log2(nb);
        proof {
            assert(nb == num_blocks(n as nat));
            assert(16 * (nb - 1) < n);
            lemma_log2(nb as nat);
            lemma_exp2_gt(height as nat);
        }
        // layer 0: the fold of each block
        let mut summary: Vec<T::Set> = Vec::with_capacity(nb);
        let mut t: usize = 0;
        while t < nb
            invariant
                v == values@,
                n == v.len(),
                nb == num_blocks(n as nat),
                16 * (nb - 1) < n,
                suffix@.len() == n,
                forall|i: int| 0 <= i < n ==> #[trigger] suffix@[i] == suffix_fold::<T>(v, i),
                t <= nb,
                summary@.len() == t,
                forall|u: int| 0 <= u < t ==> #[trigger] summary@[u] == layer_fold::<T>(v, 0, u),
            decreases nb - t,
        {
            proof {
                assert(exp2(0) == 1);
                assert(block_start(t * 16) == t * 16);
                assert(span_end(t as int, 0, n as int) == block_end(t * 16, n as int));
                assert(suffix@[t * 16] == suffix_fold::<T>(v, t * 16));
            }
            summary.push(suffix[t * B]);
            t = t + 1;
        }
        let mut partition: Vec<usize> = Vec::with_capacity(height + 2);
        partition.push(0);
        partition.push(summary.len());
        proof {
            assert(exp2(0) == 1);
            assert(layer_offset(nb as nat, 0) == 0);
            assert(layer_offset(nb as nat, 1) == layer_offset(nb as nat, 0) + nb + 1 - exp2(0));
            assert(layer_offset(nb as nat, 1) == nb);
            assert forall|j: int, t: int|
                0 <= j <= 0 && 0 <= t <= nb - exp2(j as nat) implies summary@[layer_offset(
                nb as nat,
                j as nat,
            ) + t] == #[trigger] layer_fold::<T>(v, j as nat, t) by {
                assert(j == 0);
                assert(summary@[t] == layer_fold::<T>(v, 0, t));
            }
        }
        // layer i + 1: the folds of two overlapping-free neighbours in layer i
        let mut i: usize = 0;
        let mut w: usize = 1;
        while i < height
            invariant
                v == values@,
                n == v.len(),
                nb == num_blocks(n as nat),
                nb >= 1,
                16 * (nb - 1) < n,
                height == log2(nb as nat),
                exp2(height as nat) <= nb,
                i <= height,
                w == exp2(i as nat),
                partition@.len() == i + 2,
                forall|j: int| 0 <= j <= i + 1 ==> #[trigger] partition@[j] == layer_offset(nb as nat, j as nat),
                summary@.len() == layer_offset(nb as nat, (i + 1) as nat),
                layers_ok::<T>(summary@, v, nb as nat, i as int),
            decreases height - i,
        {
            proof {
                lemma_exp2_le((i + 1) as nat, height as nat);
                assert(exp2((i + 1) as nat) == 2 * w);
                assert(layer_offset(nb as nat, (i + 1) as nat) == layer_offset(nb as nat, i as nat) + nb + 1 - w);
                lemma_layer_offset_mono(nb as nat, 0, i as nat);
                assert(summary@.len() <= usize::MAX) by {
                    let m = summary.len();
                }
            }
            let base = partition[i];
            let start = base + w;
            let stop = partition[i + 1];
            let mut j = start;
            while j < stop
                invariant
                    v == values@,
                    n == v.len(),
                    nb == num_blocks(n as nat),
                    nb >= 1,
                    16 * (nb - 1) < n,
                    height == log2(nb as nat),
                    i < height,
                    w == exp2(i as nat),
                    2 * w <= nb,
                    base == layer_offset(nb as nat, i as nat),
                    stop == layer_offset(nb as nat, (i + 1) as nat),
                    stop == base + nb + 1 - w,
                    start == base + w,
                    start <= j <= stop,
                    summary@.len() == stop + (j - start),
                    layers_ok::<T>(summary@, v, nb as nat, i as int),
                    forall|u: int|
                        0 <= u < j - start ==> #[trigger] summary@[stop + u] == layer_fold::<T>(
                            v,
                            (i + 1) as nat,
                            u,
                        ),
                decreases stop - j,
            {
                let ghost t = j - base;
                let ghost u = t - w;
                proof {
                    assert(summary@[base + u] == layer_fold::<T>(v, i as nat, u));
                    assert(summary@[base + t] == layer_fold::<T>(v, i as nat, t));
                    assert(exp2((i + 1) as nat) == 2 * w);
                    assert(u + exp2(i as nat) == t);
                    lemma_exp2_pos(i as nat);
                    assert(t <= nb - 1);
                    assert(t * 16 < n);
                    assert(span_end(u, i as nat, n as int) == t * 16);
                    assert(span_end(u, (i + 1) as nat, n as int) == span_end(t, i as nat, n as int));
                    lemma_fold1_split::<T>(v, u * 16, t * 16, span_end(t, i as nat, n as int));
                    lemma_layers_push::<T>(summary@, v, nb as nat, i as int, T::spec_op(
                        summary@[base + u],
                        summary@[base + t],
                    ));
                    lemma_layer_offset_mono(nb as nat, i as nat, (i + 1) as nat);
                }
                let x = T::op(summary[j - w], summary[j]);
                summary.push(x);
                j = j + 1;
            }
            proof {
                assert(layer_offset(nb as nat, (i + 2) as nat) == layer_offset(nb as nat, (i + 1) as nat) + nb + 1 - 2 * w);
                assert forall|jj: int, tt: int|
                    0 <= jj <= i + 1 && 0 <= tt <= nb - exp2(jj as nat) implies summary@[layer_offset(
                    nb as nat,
                    jj as nat,
                ) + tt] == #[trigger] layer_fold::<T>(v, jj as nat, tt) by {
                    if jj == i + 1 {
                        assert(summary@[stop + tt] == layer_fold::<T>(v, (i + 1) as nat, tt));
                    }
                }
            }
            partition.push(summary.len());
            i = i + 1;
            w = w * 2;
        }
        (summary, partition)
    }

    /// Builds the table over `values`.
    pub fn from_vec(values: Vec<T::Set>) -> (res: Self)
        ensures
            res.well_formed(),
            res@ == values@,
    {
        let n = values.len();
        if n == 0 {
            return SparseTable {
                summary: Vec::new(),
                partition: Vec::new(),
                values,
                prefix: Vec::new(),
                suffix: Vec::new(),
            };
        }
        let prefix = Self::block_prefixes(&values);
        let suffix = Self::block_suffixes(&values);
        let (summary, partition) = Self::build_summary(&values, &suffix);
        SparseTable { summary, partition, values, prefix, suffix }
    }
}

} // verus!
