//! Evaluation of an attention mask.
use vstd::prelude::*;
use vstd::arithmetic::div_mod::*;
use crate::attention_mask::{AttentionMask, AttentionSpan};
use crate::error::Error;
use crate::shape::{in_bounds, lemma_flat, lemma_unflat, lemma_unflat_len, numel, padded, unflat};
use crate::tensor::{can_pad, Tensor};

verus! {

/// The last two dimensions can hold a mask: they are equal, or there is a single
/// row for the last token.
pub open spec fn maskable(d: Seq<usize>) -> bool {
    &&& d.len() >= 2
    &&& d[d.len() - 2] == d[d.len() - 1] || d[d.len() - 2] == 1
}

/// There is a single row, for the last of several tokens.
pub open spec fn is_cached_row(d: Seq<usize>) -> bool {
    d[d.len() - 2] == 1 && d[d.len() - 1] > 1
}

/// Whether the mask replaces the value at `idx`.
pub open spec fn masked(span: AttentionSpan, d: Seq<usize>, idx: Seq<int>) -> bool {
    let r = d.len();
    if is_cached_row(d) {
        !span.keeps_cached(d[r - 1] as int, idx[r - 1])
    } else {
        !span.keeps(idx[r - 2], idx[r - 1])
    }
}

/// The mask for the single row of the last of `seq_len` tokens; `true` stands
/// where a value is replaced.
pub fn caching_case_mask(span: AttentionSpan, seq_len: usize) -> (r: Vec<bool>)
    ensures
        r@.len() == seq_len,
        forall|j: int| 0 <= j < seq_len ==> #[trigger] r@[j] == !span.keeps_cached(
            seq_len as int,
            j,
        ),
{
    let mut r: Vec<bool> = Vec::new();
    for j in 0..seq_len
        invariant
            r@.len() == j,
            forall|k: int| 0 <= k < j ==> #[trigger] r@[k] == !span.keeps_cached(
                seq_len as int,
                k,
            ),
    {
        r.push(!span.sees_cached(seq_len, j));
    }
    r
}

/// The mask for the square matrix of `seq_len` tokens, row by row; `true` stands
/// where a value is replaced.
pub fn non_caching_case_mask(span: AttentionSpan, seq_len: usize) -> (r: Vec<bool>)
    requires
        seq_len * seq_len <= usize::MAX,
    ensures
        r@.len() == seq_len * seq_len,
        forall|i: int, j: int|
            0 <= i < seq_len && 0 <= j < seq_len ==> #[trigger] r@[i * seq_len + j] == !span.keeps(
                i,
                j,
            ),
{
    let mut r: Vec<bool> = Vec::new();
    let ghost n = seq_len as int;
    assert(0 * n == 0);
    for i in 0..seq_len
        invariant
            n == seq_len,
            n * n <= usize::MAX,
            r@.len() == i * n,
            forall|k: int, j: int|
                0 <= k < i && 0 <= j < n ==> #[trigger] r@[k * n + j] == !span.keeps(k, j),
    {
        for j in 0..seq_len
            invariant
                n == seq_len,
                0 <= i < n,
                n * n <= usize::MAX,
                r@.len() == i * n + j,
                forall|k: int, l: int|
                    0 <= k < i && 0 <= l < n ==> #[trigger] r@[k * n + l] == !span.keeps(k, l),
                forall|l: int| 0 <= l < j ==> #[trigger] r@[i * n + l] == !span.keeps(i as int, l),
        {
            proof {
                assert forall|k: int, l: int| 0 <= k < i && 0 <= l < n implies 0 <= #[trigger] (k * n
                    + l) < i * n by {
                    assert(0 <= k * n + l < i * n) by (nonlinear_arith)
                        requires
                            0 <= k < i,
                            0 <= l < n,
                    ;
                }
                assert(0 <= i * n) by (nonlinear_arith)
                    requires
                        0 <= i,
                        0 <= n,
                ;
            }
            let ghost before = r@;
            r.push(!span.sees(i, j));
            proof {
                assert forall|k: int, l: int| 0 <= k < i && 0 <= l < n implies #[trigger] r@[k * n
                    + l] == !span.keeps(k, l) by {
                    assert(0 <= k * n + l < i * n);
                    assert(before[k * n + l] == !span.keeps(k, l));
                }
            }
        }
        proof {
            assert((i + 1) * n == i * n + n) by (nonlinear_arith);
            assert forall|k: int, l: int| 0 <= k < i + 1 && 0 <= l < n implies #[trigger] r@[k * n
                + l] == !span.keeps(k, l) by {
                if k == i {
                    assert(r@[i * n + l] == !span.keeps(i as int, l));
                }
            }
        }
    }
    r
}

/// The last two places of a position are the remainder of where it is stored by
/// the last dimension, and that of the quotient by the dimension before.
proof fn lemma_last_two(d: Seq<usize>, p: int)
    requires
        d.len() >= 2,
    ensures
        unflat(d, p)[d.len() - 1] == p % d[d.len() - 1] as int,
        unflat(d, p)[d.len() - 2] == (p / d[d.len() - 1] as int) % d[d.len() - 2] as int,
        unflat(d, p).len() == d.len(),
{
    let d1 = d.drop_last();
    assert(unflat(d1, p / d.last() as int).last() == (p / d.last() as int) % d1.last() as int);
    lemma_unflat_len(d, p);
    lemma_unflat_len(d1, p / d.last() as int);
}

impl<N: Copy> AttentionMask<N> {
    /// Applies the mask to a tensor whose last two dimensions are equal, or whose
    /// second to last dimension is one; then the single row is that of the last
    /// token. Padding is left out of it, and stands as `padding` in the result.
    pub fn evaluate_internal(&self, input: &Tensor<N>, padding: N) -> (r: Result<Tensor<N>, Error>)
        requires
            input.wf(),
            input.spec_is_padded() ==> can_pad(input.unpadded_shape@),
        ensures
            r is Ok <==> maskable(input.unpadded_shape@),
            match r {
                Ok(t) => self.masks(*input, padding, t),
                Err(e) => e == Error::InvalidShape,
            },
    {
        let is_padded = input.is_padded();
        let mut unpadded = input.reduce_to_unpadded_shape();
        let ghost source = unpadded;
        let ghost d = input.unpadded_shape@;
        let rank = unpadded.shape.rank();
        if rank < 2 {
            return Err(Error::InvalidShape);
        }
        let seq_len: usize = unpadded.shape.dims[rank - 1];
        let q_len: usize = unpadded.shape.dims[rank - 2];
        if q_len != seq_len && q_len != 1 {
            return Err(Error::InvalidShape);
        }
        let caching_case = q_len == 1 && seq_len > 1;
        let count = unpadded.data.len();
        let mask = if count == 0 {
            Vec::new()
        } else if caching_case {
            caching_case_mask(self.span, seq_len)
        } else {
            proof {
                let a = numel(d.drop_last().drop_last());
                let s = seq_len as nat;
                let d1 = d.drop_last();
                if s == 0 {
                    assert(numel(d1) * 0 == 0);
                }
                assert(d1.last() == s && d.last() == s);
                assert(numel(d1) == a * s);
                assert(numel(d) == numel(d1) * s);
                assert(s * s <= a * s * s) by (nonlinear_arith)
                    requires
                        a * s * s > 0,
                ;
            }
            non_caching_case_mask(self.span, seq_len)
        };
        for p in 0..count
            invariant
                source.wf(),
                source.shape@ == d,
                source.unpadded_shape@ == d,
                maskable(d),
                rank == d.len(),
                seq_len == d[rank - 1],
                q_len == d[rank - 2],
                caching_case == (q_len == 1 && seq_len > 1),
                count > 0 && caching_case ==> mask@.len() == seq_len && (forall|j: int|
                    0 <= j < seq_len ==> #[trigger] mask@[j] == !self.span.keeps_cached(
                        seq_len as int,
                        j,
                    )),
                count > 0 && !caching_case ==> mask@.len() == seq_len * seq_len && (forall|i: int, j: int|
                    0 <= i < seq_len && 0 <= j < seq_len ==> #[trigger] mask@[i * seq_len + j]
                        == !self.span.keeps(i, j)),
                count == source.data@.len(),
                unpadded.shape@ == d,
                unpadded.unpadded_shape@ == d,
                unpadded.data@.len() == count,
                forall|k: int|
                    0 <= k < count ==> #[trigger] unpadded.data@[k] == if k < p && masked(
                        self.span,
                        d,
                        unflat(d, k),
                    ) {
                        self.negative_infinity
                    } else {
                        source.data@[k]
                    },
        {
            proof {
                lemma_unflat(d, p as int);
                lemma_last_two(d, p as int);
                let u = unflat(d, p as int);
                assert(0 <= u[rank - 1] < d[rank - 1]);
                assert(0 <= u[rank - 2] < d[rank - 2]);
            }
            let col: usize = p % seq_len;
            let row: usize = (p / seq_len) % q_len;
            let hidden = if caching_case {
                mask[col]
            } else {
                proof {
                    let r = row as int;
                    let s = seq_len as int;
                    let c = col as int;
                    assert(0 <= r * s + c < s * s) by (nonlinear_arith)
                        requires
                            0 <= r < s,
                            0 <= c < s,
                    ;
                    assert(0 <= r * s <= s * s) by (nonlinear_arith)
                        requires
                            0 <= r < s,
                    ;
                    assert(mask.len() <= usize::MAX);
                }
                mask[row * seq_len + col]
            };
            if hidden {
                unpadded.data.set(p, self.negative_infinity);
            }
        }
        proof {
            assert forall|idx: Seq<int>| in_bounds(d, idx) implies #[trigger] unpadded.at(idx) == if masked(
                self.span,
                d,
                idx,
            ) {
                self.negative_infinity
            } else {
                input.at(idx)
            } by {
                lemma_flat(d, idx);
                assert(source.at(idx) == input.at(idx));
            }
        }
        if is_padded {
            let r = unpadded.pad_next_power_of_two(padding);
            Ok(r)
        } else {
            Ok(unpadded)
        }
    }

    /// Applies the mask to each of several tensors.
    pub fn evaluate(&self, inputs: &Vec<Tensor<N>>, padding: N) -> (r: Result<Vec<Tensor<N>>, Error>)
        requires
            forall|k: int|
                0 <= k < inputs@.len() ==> {
                    &&& (#[trigger] inputs@[k]).wf()
                    &&& inputs@[k].spec_is_padded() ==> can_pad(inputs@[k].unpadded_shape@)
                },
        ensures
            r is Ok <==> forall|k: int|
                0 <= k < inputs@.len() ==> maskable((#[trigger] inputs@[k]).unpadded_shape@),
            match r {
                Ok(v) => {
                    &&& v@.len() == inputs@.len()
                    &&& forall|k: int|
                        0 <= k < v@.len() ==> self.masks(inputs@[k], padding, #[trigger] v@[k])
                },
                Err(e) => e == Error::InvalidShape,
            },
    {
        let mut r: Vec<Tensor<N>> = Vec::new();
        for k in 0..inputs.len()
            invariant
                forall|k: int|
                    0 <= k < inputs@.len() ==> {
                        &&& (#[trigger] inputs@[k]).wf()
                        &&& inputs@[k].spec_is_padded() ==> can_pad(inputs@[k].unpadded_shape@)
                    },
                r@.len() == k,
                forall|j: int|
                    0 <= j < k ==> maskable((#[trigger] inputs@[j]).unpadded_shape@),
                forall|j: int|
                    0 <= j < k ==> self.masks(inputs@[j], padding, #[trigger] r@[j]),
        {
            match self.evaluate_internal(&inputs[k], padding) {
                Ok(t) => {
                    r.push(t);
                },
                Err(e) => {
                    return Err(e);
                },
            }
        }
        Ok(r)
    }
}

impl<N> AttentionMask<N> {
    /// The tensor `t` is `input` with the mask applied.
    pub open spec fn masks(&self, input: Tensor<N>, padding: N, t: Tensor<N>) -> bool {
        &&& t.wf()
        &&& t.shape@ == if input.spec_is_padded() {
            padded(input.unpadded_shape@)
        } else {
            input.unpadded_shape@
        }
        &&& t.unpadded_shape@ == input.unpadded_shape@
        &&& forall|idx: Seq<int>|
            in_bounds(t.shape@, idx) ==> #[trigger] t.at(idx) == if !in_bounds(
                input.unpadded_shape@,
                idx,
            ) {
                padding
            } else if masked(self.span, input.unpadded_shape@, idx) {
                self.negative_infinity
            } else {
                input.at(idx)
            }
    }
}

/// The span whose square mask has, as its last row, the row of the last token under `span`:
/// such a row counts the token itself among the `n` that it keeps.
pub open spec fn square_span(span: AttentionSpan) -> AttentionSpan {
    match span {
        AttentionSpan::Full => AttentionSpan::Full,
        AttentionSpan::Local(n) => AttentionSpan::Local((n - 1) as usize),
    }
}

/// Masking the row of the last token alone gives the last row of masking the whole matrix:
/// with the same span where the span is full, and with a window that is one shorter where
/// the span is local.
pub proof fn law_cached_row<N>(
    mask: AttentionMask<N>,
    square: AttentionMask<N>,
    padding: N,
    full: Tensor<N>,
    full_out: Tensor<N>,
    row: Tensor<N>,
    row_out: Tensor<N>,
    idx: Seq<int>,
)
    requires
        full.wf(),
        row.wf(),
        maskable(full.unpadded_shape@),
        full.unpadded_shape@.last() == full.unpadded_shape@[full.unpadded_shape@.len() - 2],
        full.unpadded_shape@.last() > 1,
        row.unpadded_shape@ == full.unpadded_shape@.update(full.unpadded_shape@.len() - 2, 1),
        mask.span matches AttentionSpan::Local(n) ==> n >= 1,
        square.span == square_span(mask.span),
        square.negative_infinity == mask.negative_infinity,
        square.masks(full, padding, full_out),
        mask.masks(row, padding, row_out),
        in_bounds(row.unpadded_shape@, idx),
        in_bounds(row_out.shape@, idx),
        in_bounds(full_out.shape@, idx.update(idx.len() - 2, full.unpadded_shape@.last() - 1)),
        row.at(idx) == full.at(idx.update(idx.len() - 2, full.unpadded_shape@.last() - 1)),
    ensures
        row_out.at(idx) == full_out.at(idx.update(idx.len() - 2, full.unpadded_shape@.last() - 1)),
{
    let d = full.unpadded_shape@;
    let e = row.unpadded_shape@;
    let r = d.len();
    let s = d.last() as int;
    let jdx = idx.update(idx.len() - 2, s - 1);
    assert(0 <= idx[r - 1] < e[r - 1]);
    assert(0 <= idx[r - 2] < e[r - 2]);
    assert forall|k: int| 0 <= k < r implies 0 <= #[trigger] jdx[k] < d[k] by {
        assert(0 <= idx[k] < e[k]);
    }
}

} // verus!
