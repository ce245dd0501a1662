//! Attention masks that are proved for one claim, or for a claim for each matrix.
//!
//! A mask works on matrices. On a tensor of higher rank it works on the last two
//! dimensions of its matrices. A matrix with a single row holds the last token, whose
//! predecessors were cached; a square matrix holds all tokens.
use vstd::prelude::*;
use vstd::arithmetic::div_mod::*;
use vstd::arithmetic::power2::{lemma_pow2_pos, pow2};
use crate::attention_mask::prove::{input_claim, weighted};
use crate::claim::{part, Claim, SubClaim};
use crate::error::Error;
use crate::expression::Expression;
use crate::field::{all_stand_for, residues, stands_for, Lifted, PrimeField};
use crate::logits::verify::shorter;
use crate::mle::{beta, betas, compute_betas_eval, identity, identity_eval, lemma_mle_grid, mle};
use crate::shape::{ceil_log2, copy_shapes, log2_ceil, next_pow2, next_power_of_two, num_vars, numel, same_shapes, Shape};
use crate::sum::{lemma_sum_same, sum};
use crate::tensor::{copied, count_values, lemma_numel_zero, Element, Tensor};
use crate::triangular::{eval_zeroifier_mle, lower_triangular, matrix_mle};

verus! {

/// Which entries a mask keeps.
#[derive(Clone, Copy, Debug, PartialEq, Eq, Structural)]
pub enum AttentionSpan {
    /// A token sees itself and every token before it.
    Full,
    /// A token sees itself and the last `n` tokens before it.
    Local(usize),
}

impl Default for AttentionSpan {
    fn default() -> (r: Self)
        ensures
            r == AttentionSpan::Full,
    {
        AttentionSpan::Full
    }
}

impl AttentionSpan {
    /// Whether the token `i` sees the token `j`.
    pub open spec fn keeps(self, i: int, j: int) -> bool {
        match self {
            AttentionSpan::Full => j <= i,
            AttentionSpan::Local(n) => i - n <= j && j <= i,
        }
    }

    /// Whether the token `i` sees the token `j`.
    pub fn sees(self, i: usize, j: usize) -> (r: bool)
        ensures
            r == self.keeps(i as int, j as int),
    {
        match self {
            AttentionSpan::Full => j <= i,
            AttentionSpan::Local(n) => j <= i && i - j <= n,
        }
    }
}

/// A mask that replaces what a token does not see by a value that stands for minus
/// infinity.
#[derive(Debug)]
pub struct AttentionMask<N> {
    /// The number of rows and of columns of the mask.
    pub dim_size: usize,
    pub span: AttentionSpan,
    /// The value for minus infinity.
    pub negative_infinity: N,
}

/// The proof that a mask was applied. The sumcheck is carried as it comes.
#[derive(Debug)]
pub struct AttentionMaskProof<F, P> {
    pub sumcheck_proof: P,
    /// What the matrices of the input take at the end of the sumcheck.
    pub evaluations: Vec<F>,
}

/// What the verifier of a mask knows of it.
#[derive(Debug)]
pub struct AttentionMaskCtx<F> {
    pub op: AttentionMask<Element>,
    pub sumcheck_expression: Vec<Expression<F>>,
    pub node_id: usize,
}

/// What the prover of a mask works on: the matrices of the input that are not padding,
/// and the factors by which they are batched.
#[derive(Debug)]
pub struct MaskProvingData<F> {
    pub batching_challenges: Vec<F>,
    /// The point whose factors the challenges are.
    pub batching_point: Vec<F>,
    /// The factors of the point of a matrix.
    pub eq_evals: Vec<F>,
    pub input_polys: Vec<Vec<F>>,
}

/// What the verifier of a mask works on.
#[derive(Debug)]
pub struct MaskVerifyingData<F> {
    pub batching_challenges: Vec<F>,
    /// The point whose factors the challenges are.
    pub batching_point: Vec<F>,
    /// The point of a matrix.
    pub eq_point: Vec<F>,
}

impl Default for AttentionMask<Element> {
    fn default() -> (r: Self)
        ensures
            r.dim_size == 0,
            r.span == AttentionSpan::Full,
            r.negative_infinity == Element::MIN,
    {
        AttentionMask { dim_size: 0, span: AttentionSpan::Full, negative_infinity: Element::MIN }
    }
}

impl<N> AttentionMask<N> {
    /// A mask for matrices of side `dim_size` that keeps the full span.
    pub fn new(dim_size: usize, negative_inf: N) -> (r: AttentionMask<N>)
        ensures
            r.dim_size == dim_size,
            r.span == AttentionSpan::Full,
            r.negative_infinity == negative_inf,
    {
        AttentionMask { dim_size, span: AttentionSpan::Full, negative_infinity: negative_inf }
    }

    /// The mask with another span. A local span that is not smaller than the matrix is
    /// refused.
    pub fn with_span(self, span: AttentionSpan) -> (r: Result<AttentionMask<N>, Error>)
        ensures
            r is Ok <==> (span matches AttentionSpan::Local(n) ==> n < self.dim_size),
            match r {
                Ok(m) => {
                    &&& m.dim_size == self.dim_size
                    &&& m.span == span
                    &&& m.negative_infinity == self.negative_infinity
                },
                Err(e) => e == Error::SpanTooLarge,
            },
    {
        if let AttentionSpan::Local(n) = span {
            if n >= self.dim_size {
                return Err(Error::SpanTooLarge);
            }
        }
        Ok(
            AttentionMask {
                dim_size: self.dim_size,
                span,
                negative_infinity: self.negative_infinity,
            },
        )
    }

    /// Raises the side of the mask to a power of two.
    pub fn pad(&mut self)
        requires
            next_pow2(old(self).dim_size as nat) <= usize::MAX,
        ensures
            final(self).dim_size == next_pow2(old(self).dim_size as nat),
            final(self).span == old(self).span,
            final(self).negative_infinity == old(self).negative_infinity,
    {
        self.dim_size = next_power_of_two(self.dim_size);
    }

    /// Sets the value for minus infinity.
    pub fn set_negative_infinity(&mut self, negative_infinity: N)
        ensures
            final(self).dim_size == old(self).dim_size,
            final(self).span == old(self).span,
            final(self).negative_infinity == negative_infinity,
    {
        self.negative_infinity = negative_infinity;
    }

    /// The mask for quantised inputs whose domains have the given minima. Where there is
    /// no input, the minima differ or the span is too large, there is none.
    pub fn quantize_op(self, domain_minima: &[Element]) -> (r: Result<AttentionMask<Element>, Error>)
        ensures
            ({
                let same = forall|k: int|
                    0 <= k < domain_minima@.len() ==> #[trigger] domain_minima@[k]
                        == domain_minima@[0];
                let scaled = domain_minima@.len() > 0 && same;
                let small = self.span matches AttentionSpan::Local(n) ==> n < self.dim_size;
                match r {
                    Ok(m) => {
                        &&& scaled && small
                        &&& m.dim_size == self.dim_size
                        &&& m.span == self.span
                        &&& m.negative_infinity == domain_minima@[0]
                    },
                    Err(e) => if !scaled {
                        e == Error::InvalidScaling
                    } else {
                        e == Error::SpanTooLarge && !small
                    },
                }
            }),
    {
        if domain_minima.len() == 0 {
            return Err(Error::InvalidScaling);
        }
        for k in 0..domain_minima.len()
            invariant
                domain_minima@.len() > 0,
                forall|j: int| 0 <= j < k ==> #[trigger] domain_minima@[j] == domain_minima@[0],
        {
            if domain_minima[k] != domain_minima[0] {
                assert(domain_minima@[k as int] != domain_minima@[0]);
                return Err(Error::InvalidScaling);
            }
        }
        AttentionMask::new(self.dim_size, domain_minima[0]).with_span(self.span)
    }

    /// The mask leaves shapes as they are.
    pub fn output_shapes(&self, input_shapes: &Vec<Shape>) -> (r: Vec<Shape>)
        ensures
            same_shapes(r@, input_shapes@),
    {
        copy_shapes(input_shapes)
    }
}

/// The number of matrices that are masked: those of the unpadded tensor.
pub open spec fn masked_count(u: Seq<usize>) -> nat {
    numel(u.take(u.len() - 2))
}

/// Whether the mask hides the place `p` of a tensor of shape `d`, whose unpadded shape
/// is `u`.
pub open spec fn hides(span: AttentionSpan, d: Seq<usize>, u: Seq<usize>, p: int) -> bool {
    let rows = d[d.len() - 2] as int;
    let cols = d[d.len() - 1] as int;
    let matrix = p / (rows * cols);
    let token = (p / cols) % rows;
    let seen_from = if rows == 1 {
        u[u.len() - 1] - 1
    } else {
        token
    };
    matrix < masked_count(u) && !span.keeps(seen_from, p % cols)
}

impl<N: Copy> AttentionMask<N> {
    /// The mask can be applied: the tensors have the same rank, and there is a token.
    pub open spec fn can_apply(&self, input: Tensor<N>, u: Seq<usize>) -> bool {
        2 <= u.len() <= 4 ==> {
            &&& input.wf()
            &&& input.shape@.len() == u.len()
            &&& u[u.len() - 1] > 0
            &&& masked_count(u) <= usize::MAX
        }
    }

    /// The tensor `out` is the input with what the mask hides replaced.
    pub open spec fn masks(&self, input: Tensor<N>, u: Seq<usize>, out: Tensor<N>) -> bool {
        &&& out.wf()
        &&& out.shape@ == input.shape@
        &&& out.unpadded_shape@ == input.shape@
        &&& out.data@.len() == input.data@.len()
        &&& forall|p: int|
            0 <= p < input.data@.len() ==> #[trigger] out.data@[p] == if hides(
                self.span,
                input.shape@,
                u,
                p,
            ) {
                self.negative_infinity
            } else {
                input.data@[p]
            }
    }

    /// The input with what the mask hides replaced by minus infinity. An input that has
    /// not two to four dimensions is refused.
    pub fn apply(&self, input: &Tensor<N>, unpadded_input_shape: &Shape) -> (r: Result<Tensor<N>, Error>)
        requires
            self.can_apply(*input, unpadded_input_shape@),
        ensures
            match r {
                Ok(out) => {
                    &&& 2 <= unpadded_input_shape@.len() <= 4
                    &&& self.masks(*input, unpadded_input_shape@, out)
                },
                Err(e) => e == Error::InvalidShape && !(2 <= unpadded_input_shape@.len() <= 4),
            },
    {
        let rank: usize = unpadded_input_shape.rank();
        if rank < 2 || rank > 4 {
            return Err(Error::InvalidShape);
        }
        let rows: usize = input.shape.dims[rank - 2];
        let cols: usize = input.shape.dims[rank - 1];
        let seq_len: usize = unpadded_input_shape.dims[rank - 1];
        let ghost d = input.shape@;
        let ghost u = unpadded_input_shape@;
        let mut leading: Vec<usize> = Vec::new();
        let n: usize = rank - 2;
        for k in 0..n
            invariant
                n + 2 == unpadded_input_shape@.len(),
                leading@ == unpadded_input_shape@.take(k as int),
        {
            leading.push(unpadded_input_shape.dims[k]);
            assert(unpadded_input_shape@.take(k + 1) =~= unpadded_input_shape@.take(k as int).push(
                unpadded_input_shape@[k as int],
            ));
        }
        let leading = Shape::new(leading);
        let count = count_values(&leading, Ghost(leading@));
        let mut data: Vec<N> = Vec::new();
        for p in 0..input.data.len()
            invariant
                input.wf(),
                rank >= 2,
                d == input.shape@,
                u == unpadded_input_shape@,
                d.len() == rank,
                u.len() == rank,
                rows == d[rank - 2],
                cols == d[rank - 1],
                seq_len == u[rank - 1],
                seq_len > 0,
                count == masked_count(u),
                data@.len() == p,
                forall|q: int|
                    0 <= q < p ==> #[trigger] data@[q] == if hides(self.span, d, u, q) {
                        self.negative_infinity
                    } else {
                        input.data@[q]
                    },
        {
            proof {
                if rows == 0 {
                    lemma_numel_zero(d, rank - 2);
                }
                if cols == 0 {
                    lemma_numel_zero(d, rank - 1);
                }
                let e = d.drop_last();
                assert(e.last() == rows);
                let a = numel(e.drop_last());
                assert(numel(e) == a * rows);
                assert(numel(d) == (a * rows) * cols);
                assert((a * rows) * cols == a * (rows * cols)) by (nonlinear_arith);
                if a == 0 {
                    assert(a * (rows * cols) == 0) by (nonlinear_arith)
                        requires
                            a == 0,
                    ;
                }
                let rc = rows * cols;
                assert(rc <= a * rc) by (nonlinear_arith)
                    requires
                        a >= 1,
                        rc >= 0,
                ;
                assert(rc > 0) by (nonlinear_arith)
                    requires
                        rows > 0,
                        cols > 0,
                        rc == rows * cols,
                ;
                assert(input.data.len() <= usize::MAX);
            }
            let size: usize = rows * cols;
            let matrix: usize = p / size;
            let token: usize = (p / cols) % rows;
            let col: usize = p % cols;
            let seen_from: usize = if rows == 1 {
                seq_len - 1
            } else {
                token
            };
            if matrix < count && !self.span.sees(seen_from, col) {
                data.push(self.negative_infinity);
            } else {
                data.push(input.data[p]);
            }
        }
        Ok(Tensor { data, shape: input.shape.clone(), unpadded_shape: input.shape.clone() })
    }
}

impl AttentionMask<Element> {
    /// Why the first inputs are refused, if one is: its last dimension is larger than the
    /// mask, or its rank does not fit.
    pub open spec fn refusal(&self, input: Tensor<Element>, u: Seq<usize>) -> Option<Error> {
        if self.dim_size < input.shape@.last() {
            Some(Error::DimensionOutOfBounds)
        } else if !(2 <= u.len() <= 4) {
            Some(Error::InvalidShape)
        } else {
            None
        }
    }

    /// The input is not refused, and `out` is the input once masked.
    pub open spec fn accepts(
        &self,
        input: Tensor<Element>,
        u: Seq<usize>,
        out: Tensor<Element>,
    ) -> bool {
        &&& self.refusal(input, u) is None
        &&& self.masks(input, u, out)
    }

    /// The inputs with what the mask hides replaced by minus infinity, as many as there are
    /// both inputs and shapes.
    pub fn evaluate(&self, inputs: &Vec<Tensor<Element>>, unpadded_input_shapes: &Vec<Shape>) -> (r: Result<
        Vec<Tensor<Element>>,
        Error,
    >)
        requires
            forall|i: int|
                0 <= i < inputs@.len() && i < unpadded_input_shapes@.len() ==> (
                #[trigger] inputs@[i]).shape@.len() >= 1 && self.can_apply(
                    inputs@[i],
                    unpadded_input_shapes@[i]@,
                ),
        ensures
            ({
                let n = shorter(inputs@.len(), unpadded_input_shapes@.len()) as int;
                match r {
                    Ok(outs) => {
                        &&& outs@.len() == n
                        &&& forall|i: int|
                            0 <= i < n ==> self.accepts(
                                inputs@[i],
                                unpadded_input_shapes@[i]@,
                                #[trigger] outs@[i],
                            )
                    },
                    Err(e) => exists|i: int|
                        0 <= i < n && self.refusal(
                            #[trigger] inputs@[i],
                            unpadded_input_shapes@[i]@,
                        ) == Some(e) && forall|k: int|
                            0 <= k < i ==> self.refusal(
                                #[trigger] inputs@[k],
                                unpadded_input_shapes@[k]@,
                            ) is None,
                }
            }),
    {
        let n: usize = if inputs.len() <= unpadded_input_shapes.len() {
            inputs.len()
        } else {
            unpadded_input_shapes.len()
        };
        let mut outs: Vec<Tensor<Element>> = Vec::new();
        for i in 0..n
            invariant
                n == shorter(inputs@.len(), unpadded_input_shapes@.len()),
                forall|i: int|
                    0 <= i < inputs@.len() && i < unpadded_input_shapes@.len() ==> (
                    #[trigger] inputs@[i]).shape@.len() >= 1 && self.can_apply(
                        inputs@[i],
                        unpadded_input_shapes@[i]@,
                    ),
                outs@.len() == i,
                forall|k: int|
                    0 <= k < i ==> self.accepts(
                        inputs@[k],
                        unpadded_input_shapes@[k]@,
                        #[trigger] outs@[k],
                    ),
        {
            let input = &inputs[i];
            assert(self.can_apply(inputs@[i as int], unpadded_input_shapes@[i as int]@));
            assert forall|k: int| 0 <= k < i implies self.refusal(
                #[trigger] inputs@[k],
                unpadded_input_shapes@[k]@,
            ) is None by {
                assert(self.accepts(inputs@[k], unpadded_input_shapes@[k]@, outs@[k]));
            }
            if self.dim_size < input.shape.dims[input.shape.rank() - 1] {
                return Err(Error::DimensionOutOfBounds);
            }
            match self.apply(input, &unpadded_input_shapes[i]) {
                Ok(out) => {
                    outs.push(out);
                },
                Err(e) => {
                    return Err(e);
                },
            }
        }
        Ok(outs)
    }

    /// The mask with its side raised to a power of two.
    pub fn pad_node(self) -> (r: Self)
        requires
            next_pow2(self.dim_size as nat) <= usize::MAX,
        ensures
            r.dim_size == next_pow2(self.dim_size as nat),
            r.span == self.span,
            r.negative_infinity == self.negative_infinity,
    {
        let mut r = self;
        r.pad();
        r
    }

    /// The table of the mask: one where a token sees another, zero elsewhere.
    pub fn make_lt_poly<F: PrimeField>(&self, seq_len: usize) -> (r: Vec<F>)
        requires
            seq_len * seq_len <= usize::MAX,
        ensures
            r@.len() == seq_len * seq_len,
            all_stand_for(r@, lt_table(self.span, seq_len as nat)),
    {
        let n: usize = seq_len * seq_len;
        let mut r: Vec<F> = Vec::new();
        for p in 0..n
            invariant
                n == seq_len * seq_len,
                r@.len() == p,
                forall|q: int|
                    0 <= q < p ==> stands_for(
                        #[trigger] r@[q],
                        lt_table(self.span, seq_len as nat)[q],
                    ),
        {
            proof {
                if seq_len == 0 {
                    assert(seq_len * seq_len == 0) by (nonlinear_arith)
                        requires
                            seq_len == 0,
                    ;
                }
            }
            if self.span.sees(p / seq_len, p % seq_len) {
                r.push(Lifted::<F>::one().get());
            } else {
                r.push(Lifted::<F>::zero().get());
            }
        }
        r
    }
}

/// The table of a mask: one where a token sees another, zero elsewhere.
pub open spec fn lt_table(span: AttentionSpan, n: nat) -> Seq<int> {
    Seq::new(
        n * n,
        |p: int|
            if span.keeps(p / n as int, p % n as int) {
                1
            } else {
                0
            },
    )
}

/// The row of a cached token is the last row of the matrix of all tokens.
pub proof fn law_cached_token(span: AttentionSpan, d: Seq<usize>, full: Seq<usize>, u: Seq<usize>, k: int, j: int)
    requires
        d.len() >= 2,
        full.len() == d.len(),
        u.len() == d.len(),
        d[d.len() - 2] == 1,
        full[d.len() - 2] > 1,
        full[d.len() - 1] == d[d.len() - 1],
        0 < u[d.len() - 1] <= full[d.len() - 2],
        0 <= k,
        0 <= j < d[d.len() - 1],
    ensures
        ({
            let cols = d[d.len() - 1] as int;
            let rows = full[d.len() - 2] as int;
            let last = u[d.len() - 1] - 1;
            hides(span, d, u, k * cols + j) == hides(span, full, u, (k * rows + last) * cols + j)
        }),
{
    let cols = d[d.len() - 1] as int;
    let rows = full[d.len() - 2] as int;
    let last = u[d.len() - 1] - 1;
    let p = k * cols + j;
    let q = (k * rows + last) * cols + j;
    lemma_fundamental_div_mod_converse(p, cols, k, j);
    assert(1 * cols == cols);
    lemma_fundamental_div_mod_converse(q, cols, k * rows + last, j);
    lemma_fundamental_div_mod_converse(k * rows + last, rows, k, last);
    assert(q == k * (rows * cols) + (last * cols + j)) by (nonlinear_arith)
        requires
            q == (k * rows + last) * cols + j,
    ;
    assert(0 <= last * cols + j < rows * cols) by (nonlinear_arith)
        requires
            0 <= last < rows,
            0 <= j < cols,
    ;
    lemma_fundamental_div_mod_converse(q, rows * cols, k, last * cols + j);
}

/// What a mask sumcheck sums for matrix `k`, where the tables take the values `w`.
pub open spec fn summand(w: Seq<int>, challenges: Seq<int>, batched: bool, neg: int, k: int) -> int {
    let value = w[1] * w[2 + k] + neg * (1 - w[1]);
    if batched {
        w[0] * challenges[k] * value
    } else {
        w[0] * value
    }
}

/// The expressions of a mask sumcheck: one for each matrix of the input, batched by a
/// challenge of its own where the input is not a single matrix.
pub fn build_sumcheck_expression<F: PrimeField>(input_shape: &Shape, negative_inf: Element) -> (r: Vec<
    Expression<F>,
>)
    requires
        input_shape@.len() > 2 ==> masked_count(input_shape@) + 2 <= 0x1_0000,
    ensures
        r@.len() == if input_shape@.len() > 2 {
            masked_count(input_shape@) as int
        } else {
            1
        },
        forall|k: int, w: Seq<int>, c: Seq<int>|
            0 <= k < r@.len() ==> #[trigger] r@[k].value(w, c) == summand(
                w,
                c,
                input_shape@.len() > 2,
                negative_inf as int % F::modulus(),
                k,
            ),
{
    let rank: usize = input_shape.rank();
    let batched = rank > 2;
    let count: usize = if batched {
        let mut leading: Vec<usize> = Vec::new();
        let n: usize = rank - 2;
        for k in 0..n
            invariant
                n + 2 == input_shape@.len(),
                leading@ == input_shape@.take(k as int),
        {
            leading.push(input_shape.dims[k]);
            assert(input_shape@.take(k + 1) =~= input_shape@.take(k as int).push(
                input_shape@[k as int],
            ));
        }
        let leading = Shape::new(leading);
        count_values(&leading, Ghost(leading@))
    } else {
        1
    };
    let ghost neg = negative_inf as int % F::modulus();
    let mut r: Vec<Expression<F>> = Vec::new();
    for j in 0..count
        invariant
            count + 2 <= 0x1_0000,
            neg == negative_inf as int % F::modulus(),
            r@.len() == j,
            forall|k: int, w: Seq<int>, c: Seq<int>|
                0 <= k < j ==> #[trigger] r@[k].value(w, c) == summand(w, c, batched, neg, k),
    {
        let kept = Expression::<F>::table(1).times(Expression::<F>::table(j + 2));
        let other = Expression::Constant(F::one()).minus(Expression::<F>::table(1));
        let value = kept.plus(Expression::Constant(F::from_i64(negative_inf)).times(other));
        let e = if batched {
            Expression::<F>::table(0).times(Expression::Challenge(j)).times(value)
        } else {
            Expression::<F>::table(0).times(value)
        };
        proof {
            reveal_with_fuel(Expression::value, 6);
            assert forall|w: Seq<int>, c: Seq<int>| #[trigger] e.value(w, c) == summand(
                w,
                c,
                batched,
                neg,
                j as int,
            ) by {
                assert(value.value(w, c) == w[1] * w[2 + j] + neg * (1 - w[1]));
            }
        }
        r.push(e);
    }
    r
}

impl<F: PrimeField> AttentionMaskCtx<F> {
    pub fn new(op: AttentionMask<Element>, sumcheck_expression: Vec<Expression<F>>, node_id: usize) -> (r:
        Self)
        ensures
            r.op == op,
            r.sumcheck_expression == sumcheck_expression,
            r.node_id == node_id,
    {
        AttentionMaskCtx { op, sumcheck_expression, node_id }
    }

    /// The side of the mask.
    pub fn dim_size(&self) -> (r: usize)
        ensures
            r == self.op.dim_size,
    {
        self.op.dim_size
    }
}

/// The points of two claims are the same.
pub open spec fn same_point<F: PrimeField>(a: Claim<F>, b: Claim<F>) -> bool {
    residues(a.point@) == residues(b.point@)
}

/// Whether two points are the same.
fn points_equal<F: PrimeField>(a: &Claim<F>, b: &Claim<F>) -> (r: bool)
    ensures
        r == same_point(*a, *b),
{
    let ghost (x, y) = (residues(a.point@), residues(b.point@));
    if a.point.len() != b.point.len() {
        assert(x.len() != y.len());
        return false;
    }
    for i in 0..a.point.len()
        invariant
            a.point@.len() == b.point@.len(),
            x == residues(a.point@),
            y == residues(b.point@),
            forall|k: int| 0 <= k < i ==> #[trigger] x[k] == y[k],
    {
        if !a.point[i].is_same(b.point[i]) {
            assert(x[i as int] != y[i as int]);
            return false;
        }
    }
    assert(x =~= y);
    true
}

/// Why claims and output shapes do not fit together, if they do not.
pub open spec fn preamble_refusal<F: PrimeField>(
    claims: Seq<Claim<F>>,
    unpadded_output_shapes: Seq<Shape>,
) -> Option<Error> {
    let u = unpadded_output_shapes[0]@;
    if exists|k: int| 0 <= k < claims.len() && !same_point(#[trigger] claims[k], claims[0]) {
        Some(Error::DifferentPoints)
    } else if claims.len() == unpadded_output_shapes.len() {
        None
    } else if claims.len() == 1 || unpadded_output_shapes.len() != 1 || claims.len()
        != masked_count(u) {
        Some(Error::WrongNumberOfClaims)
    } else {
        None
    }
}

/// Checks that the claims are at one point, and that there is one for each output or for
/// each matrix of the single output.
pub fn mask_preamble<F: PrimeField>(claims: &Vec<Claim<F>>, unpadded_output_shapes: &Vec<Shape>) -> (r: Result<
    (),
    Error,
>)
    requires
        unpadded_output_shapes@.len() == 1 ==> unpadded_output_shapes@[0]@.len() >= 2
            && masked_count(unpadded_output_shapes@[0]@) <= usize::MAX,
    ensures
        match r {
            Ok(_) => preamble_refusal(claims@, unpadded_output_shapes@) is None,
            Err(e) => preamble_refusal(claims@, unpadded_output_shapes@) == Some(e),
        },
{
    for k in 0..claims.len()
        invariant
            forall|j: int| 0 <= j < k ==> same_point(#[trigger] claims@[j], claims@[0]),
    {
        if !points_equal(&claims[k], &claims[0]) {
            assert(!same_point(claims@[k as int], claims@[0]));
            return Err(Error::DifferentPoints);
        }
    }
    if claims.len() == unpadded_output_shapes.len() {
        return Ok(());
    }
    if claims.len() == 1 || unpadded_output_shapes.len() != 1 {
        return Err(Error::WrongNumberOfClaims);
    }
    let shape = &unpadded_output_shapes[0];
    let mut leading: Vec<usize> = Vec::new();
    let n: usize = shape.rank() - 2;
    for k in 0..n
        invariant
            n + 2 == shape@.len(),
            leading@ == shape@.take(k as int),
    {
        leading.push(shape.dims[k]);
        assert(shape@.take(k + 1) =~= shape@.take(k as int).push(shape@[k as int]));
    }
    let leading = Shape::new(leading);
    if claims.len() != count_values(&leading, Ghost(leading@)) {
        return Err(Error::WrongNumberOfClaims);
    }
    Ok(())
}

/// The places `i * width + j` of the first `count` rows, with `j` below `used`, that lie
/// below `len`.
pub open spec fn row_places(i: int, width: int, used: nat, len: int) -> Seq<int>
    decreases used,
{
    if used == 0 {
        Seq::empty()
    } else {
        let p = i * width + used - 1;
        let rest = row_places(i, width, (used - 1) as nat, len);
        if p < len {
            rest.push(p)
        } else {
            rest
        }
    }
}

/// The places of the first `rows` rows.
pub open spec fn places(rows: nat, width: int, used: nat, len: int) -> Seq<int>
    decreases rows,
{
    if rows == 0 {
        Seq::empty()
    } else {
        places((rows - 1) as nat, width, used, len) + row_places(rows - 1, width, used, len)
    }
}

/// The places of the first `rows` rows.
fn kept_places(rows: usize, width: usize, used: usize, len: usize) -> (r: Vec<usize>)
    requires
        used <= width,
        rows * width <= usize::MAX,
    ensures
        r@.len() == places(rows as nat, width as int, used as nat, len as int).len(),
        forall|k: int|
            0 <= k < r@.len() ==> #[trigger] r@[k] == places(
                rows as nat,
                width as int,
                used as nat,
                len as int,
            )[k] && r@[k] < len,
{
    let mut r: Vec<usize> = Vec::new();
    for i in 0..rows
        invariant
            used <= width,
            rows * width <= usize::MAX,
            r@.len() == places(i as nat, width as int, used as nat, len as int).len(),
            forall|k: int|
                0 <= k < r@.len() ==> #[trigger] r@[k] == places(
                    i as nat,
                    width as int,
                    used as nat,
                    len as int,
                )[k] && r@[k] < len,
    {
        let ghost before = places(i as nat, width as int, used as nat, len as int);
        proof {
            assert(before + row_places(i as int, width as int, 0, len as int) =~= before);
            assert(i * width + width <= rows * width) by (nonlinear_arith)
                requires
                    i < rows,
            ;
        }
        for j in 0..used
            invariant
                used <= width,
                i * width + width <= usize::MAX,
                ({
                    let now = before + row_places(i as int, width as int, j as nat, len as int);
                    &&& r@.len() == now.len()
                    &&& forall|k: int|
                        0 <= k < r@.len() ==> #[trigger] r@[k] == now[k] && r@[k] < len
                }),
        {
            let p: usize = i * width + j;
            let ghost row = row_places(i as int, width as int, j as nat, len as int);
            if p < len {
                r.push(p);
                assert(before + row_places(i as int, width as int, (j + 1) as nat, len as int)
                    =~= (before + row).push(p as int));
            }
        }
    }
    r
}

/// The variables of a matrix of the last two dimensions.
pub open spec fn two_vars(d: Seq<usize>) -> nat {
    log2_ceil(d[d.len() - 1] as nat) + log2_ceil(d[d.len() - 2] as nat)
}

/// How the matrices of a tensor of rank two to four are batched: the rows and the width of
/// the table of their factors, and how many of a row are used.
pub open spec fn batch_rows(d: Seq<usize>, u: Seq<usize>) -> nat {
    if d.len() >= 3 {
        u[0] as nat
    } else {
        1
    }
}

/// The width of the table of the factors of the matrices.
pub open spec fn batch_width(d: Seq<usize>) -> int {
    if d.len() == 4 {
        d[1] as int
    } else {
        1
    }
}

/// How many matrices of a row of the table are used.
pub open spec fn batch_used(d: Seq<usize>, u: Seq<usize>) -> nat {
    if d.len() == 4 {
        u[1] as nat
    } else {
        1
    }
}

/// Why claims on a tensor of rank two to four are refused, if they are.
pub open spec fn batch_refusal<F: PrimeField>(claims: Seq<Claim<F>>, d: Seq<usize>, u: Seq<usize>) -> Option<
    Error,
> {
    if !(2 <= d.len() <= 4) {
        Some(Error::InvalidShape)
    } else if d.len() == 2 && claims.len() != 1 {
        Some(Error::WrongNumberOfClaims)
    } else if d.len() > 2 && claims.len() == 1 && claims[0].point@.len() != num_vars(d) {
        Some(Error::WrongPointLength)
    } else if d.len() > 2 && claims.len() != 1 && claims.len() != batch_rows(d, u) * batch_used(d, u) {
        Some(Error::WrongNumberOfClaims)
    } else {
        None
    }
}

/// There is a claim, or a matrix that lacks one.
pub open spec fn has_claims<F>(claims: Seq<Claim<F>>, d: Seq<usize>, u: Seq<usize>) -> bool {
    claims.len() >= 1 || batch_rows(d, u) * batch_used(d, u) != 0
}

/// The point of a matrix and the point that batches the matrices: those of the single
/// claim, split, or the point of the claims and a point that was drawn.
pub open spec fn split_points<F>(claims: Seq<Claim<F>>, d: Seq<usize>, drawn: Seq<F>) -> (Seq<F>, Seq<F>) {
    let v = two_vars(d) as int;
    if d.len() == 2 {
        (claims[0].point@, Seq::empty())
    } else if claims.len() == 1 {
        (claims[0].point@.take(v), claims[0].point@.skip(v))
    } else {
        (claims[0].point@, drawn)
    }
}

/// How many coordinates are drawn to batch the matrices: enough to tell the matrices apart,
/// where there is a claim for each.
pub open spec fn drawn_count(num_claims: int, d: Seq<usize>, u: Seq<usize>) -> nat {
    if d.len() <= 2 || num_claims == 1 {
        0
    } else {
        log2_ceil(batch_rows(d, u) * batch_used(d, u))
    }
}

/// How many coordinates are drawn to batch the matrices.
pub fn num_drawn(num_claims: usize, shape: &Shape, unpadded: &Shape) -> (r: usize)
    requires
        2 <= shape@.len() <= 4,
        unpadded@.len() == shape@.len(),
        shape@.len() == 4 ==> unpadded@[0] * unpadded@[1] <= usize::MAX,
    ensures
        r == drawn_count(num_claims as int, shape@, unpadded@),
{
    let rank: usize = shape.rank();
    if rank == 2 || num_claims == 1 {
        return 0;
    }
    let second: usize = if rank == 4 {
        unpadded.dims[1]
    } else {
        1
    };
    assert(unpadded@[0] * 1 == unpadded@[0]);
    ceil_log2(unpadded.dims[0] * second)
}

/// The point of a matrix and the point that batches the matrices.
fn points_of<F: PrimeField>(
    claims: &Vec<Claim<F>>,
    shape: &Shape,
    unpadded: &Shape,
    drawn: &Vec<F>,
) -> (r: Result<(Vec<F>, Vec<F>), Error>)
    requires
        2 <= shape@.len() <= 4 ==> unpadded@.len() == shape@.len(),
        shape@.len() == 4 ==> unpadded@[0] * unpadded@[1] <= usize::MAX,
        shape@.len() == 3 || shape@.len() == 4 ==> has_claims(claims@, shape@, unpadded@),
    ensures
        match r {
            Ok((eq, batch)) => {
                &&& batch_refusal(claims@, shape@, unpadded@) is None
                &&& (eq@, batch@) == split_points(claims@, shape@, drawn@)
            },
            Err(e) => batch_refusal(claims@, shape@, unpadded@) == Some(e),
        },
{
    let rank: usize = shape.rank();
    if rank < 2 || rank > 4 {
        return Err(Error::InvalidShape);
    }
    if rank == 2 {
        if claims.len() != 1 {
            return Err(Error::WrongNumberOfClaims);
        }
        let none: Vec<F> = Vec::new();
        assert(none@ =~= Seq::<F>::empty());
        return Ok((copied(&claims[0].point), none));
    }
    if claims.len() == 1 {
        match shape.split_point(claims[0].point.as_slice()) {
            Ok(_) => {},
            Err(e) => {
                return Err(e);
            },
        }
        let v: usize = ceil_log2(shape.dims[rank - 1]) + ceil_log2(shape.dims[rank - 2]);
        proof {
            lemma_two_vars(shape@);
        }
        let eq = part(claims[0].point.as_slice(), 0, v);
        let batch = part(claims[0].point.as_slice(), v, claims[0].point.len());
        assert(eq@ =~= claims@[0].point@.take(v as int));
        assert(batch@ =~= claims@[0].point@.skip(v as int));
        return Ok((eq, batch));
    }
    let first: usize = unpadded.dims[0];
    let second: usize = if rank == 4 {
        unpadded.dims[1]
    } else {
        1
    };
    assert(first * 1 == first);
    if claims.len() != first * second {
        return Err(Error::WrongNumberOfClaims);
    }
    Ok((copied(&claims[0].point), copied(drawn)))
}

/// The variables of the last two dimensions are among those of the shape.
proof fn lemma_two_vars(d: Seq<usize>)
    requires
        d.len() >= 2,
    ensures
        two_vars(d) <= num_vars(d),
{
    assert(num_vars(d) == num_vars(d.drop_last()) + log2_ceil(d.last() as nat));
    let e = d.drop_last();
    assert(num_vars(e) == num_vars(e.drop_last()) + log2_ceil(e.last() as nat));
    assert(e.last() == d[d.len() - 2]);
}

impl<F: PrimeField> MaskProvingData<F> {
    pub fn new(
        batching_challenges: Vec<F>,
        batching_point: Vec<F>,
        eq_evals: Vec<F>,
        input_polys: Vec<Vec<F>>,
    ) -> (r: Self)
        ensures
            r.batching_challenges == batching_challenges,
            r.batching_point == batching_point,
            r.eq_evals == eq_evals,
            r.input_polys == input_polys,
    {
        MaskProvingData { batching_challenges, batching_point, eq_evals, input_polys }
    }

    /// The data belong to the claims and the input: the matrices that are not padding, each
    /// with the factor of its place.
    pub open spec fn belongs_to(
        &self,
        claims: Seq<Claim<F>>,
        input: Tensor<F>,
        u: Seq<usize>,
        drawn: Seq<F>,
    ) -> bool {
        let d = input.shape@;
        let (eq, batch) = split_points(claims, d, drawn);
        let size = (d[d.len() - 2] * d[d.len() - 1]) as int;
        &&& self.batching_point@ == batch
        &&& all_stand_for(self.eq_evals@, betas(residues(eq)))
        &&& if d.len() == 2 {
            &&& self.batching_challenges@.len() == 1
            &&& stands_for(self.batching_challenges@[0], 1)
            &&& self.input_polys@.len() == 1
            &&& self.input_polys@[0]@ == input.data@
        } else {
            let at = places(
                batch_rows(d, u),
                batch_width(d),
                batch_used(d, u),
                pow2(batch.len()) as int,
            );
            &&& self.batching_challenges@.len() == at.len()
            &&& self.input_polys@.len() == at.len()
            &&& forall|k: int|
                0 <= k < at.len() ==> stands_for(
                    #[trigger] self.batching_challenges@[k],
                    beta(residues(batch), at[k]),
                )
            &&& forall|k: int|
                0 <= k < at.len() ==> (#[trigger] self.input_polys@[k])@ == input.data@.subrange(
                    at[k] * size,
                    at[k] * size + size,
                )
        }
    }

    /// The proving data for claims on the output of the mask and its input. `drawn` batches
    /// the matrices where there is a claim for each.
    pub fn from_claims_and_input(
        claims: &Vec<Claim<F>>,
        input: &Tensor<F>,
        unpadded_input_shape: &Shape,
        unpadded_output_shapes: &Vec<Shape>,
        drawn: &Vec<F>,
    ) -> (r: Result<Self, Error>)
        requires
            unpadded_output_shapes@.len() == 1 ==> unpadded_output_shapes@[0]@.len() >= 2
                && masked_count(unpadded_output_shapes@[0]@) <= usize::MAX,
            can_batch(claims@, *input, unpadded_input_shape@, drawn@),
        ensures
            match r {
                Ok(data) => {
                    &&& preamble_refusal(claims@, unpadded_output_shapes@) is None
                    &&& batch_refusal(claims@, input.shape@, unpadded_input_shape@) is None
                    &&& data.belongs_to(claims@, *input, unpadded_input_shape@, drawn@)
                },
                Err(e) => match preamble_refusal(claims@, unpadded_output_shapes@) {
                    Some(x) => e == x,
                    None => batch_refusal(claims@, input.shape@, unpadded_input_shape@) == Some(e),
                },
            },
    {
        match mask_preamble(claims, unpadded_output_shapes) {
            Ok(_) => {},
            Err(e) => {
                return Err(e);
            },
        }
        let (eq_point, batch_point) = match points_of(
            claims,
            &input.shape,
            unpadded_input_shape,
            drawn,
        ) {
            Ok(p) => p,
            Err(e) => {
                return Err(e);
            },
        };
        let rank: usize = input.shape.rank();
        let eq_evals = compute_betas_eval(eq_point.as_slice());
        if rank == 2 {
            let mut challenges: Vec<F> = Vec::new();
            challenges.push(Lifted::<F>::one().get());
            let mut polys: Vec<Vec<F>> = Vec::new();
            polys.push(copied(&input.data));
            return Ok(MaskProvingData::new(challenges, batch_point, eq_evals, polys));
        }
        let ghost d = input.shape@;
        let ghost u = unpadded_input_shape@;
        let first: usize = unpadded_input_shape.dims[0];
        let (width, used): (usize, usize) = if rank == 4 {
            (input.shape.dims[1], unpadded_input_shape.dims[1])
        } else {
            (1, 1)
        };
        let rows: usize = input.shape.dims[rank - 2];
        let cols: usize = input.shape.dims[rank - 1];
        proof {
            lemma_leading(d, u);
        }
        let size: usize = rows * cols;
        let batch_evals = compute_betas_eval(batch_point.as_slice());
        let at = kept_places(first, width, used, batch_evals.len());
        let ghost want = places(
            first as nat,
            width as int,
            used as nat,
            pow2(batch_point@.len()) as int,
        );
        let ghost bp = residues(batch_point@);
        let mut challenges: Vec<F> = Vec::new();
        let mut polys: Vec<Vec<F>> = Vec::new();
        for k in 0..at.len()
            invariant
                at@.len() == want.len(),
                forall|k: int|
                    0 <= k < at@.len() ==> #[trigger] at@[k] == want[k] && at@[k]
                        < batch_evals@.len(),
                want == places(
                    first as nat,
                    width as int,
                    used as nat,
                    batch_evals@.len() as int,
                ),
                bp == residues(batch_point@),
                all_stand_for(batch_evals@, betas(bp)),
                used <= width,
                first * width * size <= input.data@.len(),
                challenges@.len() == k,
                polys@.len() == k,
                forall|i: int|
                    0 <= i < k ==> stands_for(#[trigger] challenges@[i], beta(bp, want[i])),
                forall|i: int|
                    0 <= i < k ==> (#[trigger] polys@[i])@ == input.data@.subrange(
                        want[i] * size as int,
                        want[i] * size as int + size as int,
                    ),
        {
            let p: usize = at[k];
            proof {
                assert(at@[k as int] == want[k as int]);
                lemma_places(first as nat, width as int, used as nat, batch_evals@.len() as int, k as int);
                let (a, w, s) = (first as int, width as int, size as int);
                assert(0 <= p * s && p * s + s <= (a * w) * s) by (nonlinear_arith)
                    requires
                        0 <= p < a * w,
                        s >= 0,
                ;
                assert(a * w * s == (a * w) * s) by (nonlinear_arith);
                assert(input.data.len() <= usize::MAX);
                assert(betas(bp)[p as int] == beta(bp, p as int));
            }
            challenges.push(batch_evals[p]);
            polys.push(part(input.data.as_slice(), p * size, p * size + size));
        }
        Ok(MaskProvingData::new(challenges, batch_point, eq_evals, polys))
    }
}

/// The sizes fit: the points have factors, and the unpadded matrices lie in the input.
pub open spec fn can_batch<F: PrimeField>(
    claims: Seq<Claim<F>>,
    input: Tensor<F>,
    u: Seq<usize>,
    drawn: Seq<F>,
) -> bool {
    let d = input.shape@;
    2 <= d.len() <= 4 ==> {
        let (eq, batch) = split_points(claims, d, drawn);
        &&& input.wf()
        &&& u.len() == d.len()
        &&& has_claims(claims, d, u)
        &&& drawn.len() == drawn_count(claims.len() as int, d, u)
        &&& forall|k: int| 0 <= k < d.len() ==> #[trigger] u[k] <= d[k]
        &&& d.len() == 4 ==> u[0] * u[1] <= usize::MAX && u[0] * d[1] <= usize::MAX
        &&& d[d.len() - 2] > 0
        &&& d[d.len() - 1] > 0
        &&& d[d.len() - 2] * d[d.len() - 1] <= usize::MAX
        &&& pow2(eq.len()) <= usize::MAX
        &&& pow2(batch.len()) <= usize::MAX
    }
}

/// The matrices of the unpadded tensor lie in the input.
proof fn lemma_leading(d: Seq<usize>, u: Seq<usize>)
    requires
        3 <= d.len() <= 4,
        u.len() == d.len(),
        forall|k: int| 0 <= k < d.len() ==> #[trigger] u[k] <= d[k],
    ensures
        ({
            let w = if d.len() == 4 {
                d[1] as int
            } else {
                1
            };
            let size = (d[d.len() - 2] * d[d.len() - 1]) as int;
            u[0] * w * size <= numel(d)
        }),
{
    let n = d.len() as int;
    let e1 = d.drop_last();
    let e2 = e1.drop_last();
    assert(e1.last() == d[n - 2]);
    let (r, c) = (d[n - 2] as nat, d[n - 1] as nat);
    assert(numel(e1) == numel(e2) * r);
    assert(numel(d) == (numel(e2) * r) * c);
    let a = numel(e2);
    assert((a * r) * c == a * (r * c)) by (nonlinear_arith);
    let size = (r * c) as int;
    assert(u[0] <= d[0]);
    let w = if n == 4 {
        d[1] as int
    } else {
        1
    };
    if n == 4 {
        let e3 = e2.drop_last();
        assert(e2.last() == d[1]);
        assert(e3.drop_last().len() == 0);
        assert(e3.last() == d[0]);
        assert(numel(e3.drop_last()) == 1);
        assert(numel(e3) == 1 * d[0] as nat);
        assert(a == d[0] as nat * d[1] as nat);
    } else {
        assert(e2.drop_last().len() == 0);
        assert(numel(e2.drop_last()) == 1);
        assert(e2.last() == d[0]);
        assert(a == 1 * d[0] as nat);
        assert(d[0] * 1 == d[0]);
    }
    let (x, y) = (u[0] as int, d[0] as int);
    assert(x * w <= y * w) by (nonlinear_arith)
        requires
            x <= y,
            w >= 0,
    ;
    let xw = x * w;
    assert(xw * size <= a * size) by (nonlinear_arith)
        requires
            xw <= a,
            size >= 0,
    ;
}

/// The places lie in the table.
proof fn lemma_places(rows: nat, width: int, used: nat, len: int, k: int)
    requires
        used <= width,
        0 <= k < places(rows, width, used, len).len(),
    ensures
        0 <= places(rows, width, used, len)[k] < rows * width,
    decreases rows,
{
    if rows > 0 {
        let r = (rows - 1) as nat;
        let before = places(r, width, used, len);
        assert(rows * width == r * width + width) by (nonlinear_arith)
            requires
                rows == r + 1,
        ;
        if k < before.len() {
            lemma_places(r, width, used, len, k);
        } else {
            assert(0 <= r * width) by (nonlinear_arith)
                requires
                    width >= 0,
            ;
            lemma_row_places(r as int, width, used, len, k - before.len());
        }
    }
}

/// The places of a row lie in the row.
proof fn lemma_row_places(i: int, width: int, used: nat, len: int, k: int)
    requires
        0 <= k < row_places(i, width, used, len).len(),
    ensures
        i * width <= row_places(i, width, used, len)[k] < i * width + used,
    decreases used,
{
    if used > 0 {
        let rest = row_places(i, width, (used - 1) as nat, len);
        if k < rest.len() {
            lemma_row_places(i, width, (used - 1) as nat, len, k);
        }
    }
}

impl<F: PrimeField> MaskVerifyingData<F> {
    pub fn new(batching_challenges: Vec<F>, batching_point: Vec<F>, eq_point: Vec<F>) -> (r: Self)
        ensures
            r.batching_challenges == batching_challenges,
            r.batching_point == batching_point,
            r.eq_point == eq_point,
    {
        MaskVerifyingData { batching_challenges, batching_point, eq_point }
    }

    /// The data belong to the claims and the shapes. The challenge of a single matrix is
    /// one.
    pub open spec fn belongs_to(
        &self,
        claims: Seq<Claim<F>>,
        d: Seq<usize>,
        u: Seq<usize>,
        drawn: Seq<F>,
    ) -> bool {
        let (eq, batch) = split_points(claims, d, drawn);
        &&& self.batching_point@ == batch
        &&& self.eq_point@ == eq
        &&& if d.len() == 2 {
            &&& self.batching_challenges@.len() == 1
            &&& stands_for(self.batching_challenges@[0], 1)
        } else {
            let at = places(
                batch_rows(d, u),
                batch_width(d),
                batch_used(d, u),
                pow2(batch.len()) as int,
            );
            &&& self.batching_challenges@.len() == at.len()
            &&& forall|k: int|
                0 <= k < at.len() ==> stands_for(
                    #[trigger] self.batching_challenges@[k],
                    beta(residues(batch), at[k]),
                )
        }
    }

    /// The verifying data for claims on the output of the mask. `drawn` batches the matrices
    /// where there is a claim for each.
    pub fn new_from_claims_and_shape_data(
        claims: &Vec<Claim<F>>,
        input_shape: &Shape,
        unpadded_input_shape: &Shape,
        unpadded_output_shapes: &Vec<Shape>,
        drawn: &Vec<F>,
    ) -> (r: Result<Self, Error>)
        requires
            unpadded_output_shapes@.len() == 1 ==> unpadded_output_shapes@[0]@.len() >= 2
                && masked_count(unpadded_output_shapes@[0]@) <= usize::MAX,
            can_batch_shapes(claims@, input_shape@, unpadded_input_shape@, drawn@),
        ensures
            match r {
                Ok(data) => {
                    &&& preamble_refusal(claims@, unpadded_output_shapes@) is None
                    &&& batch_refusal(claims@, input_shape@, unpadded_input_shape@) is None
                    &&& data.belongs_to(claims@, input_shape@, unpadded_input_shape@, drawn@)
                },
                Err(e) => match preamble_refusal(claims@, unpadded_output_shapes@) {
                    Some(x) => e == x,
                    None => batch_refusal(claims@, input_shape@, unpadded_input_shape@) == Some(e),
                },
            },
    {
        match mask_preamble(claims, unpadded_output_shapes) {
            Ok(_) => {},
            Err(e) => {
                return Err(e);
            },
        }
        let (eq_point, batch_point) = match points_of(
            claims,
            input_shape,
            unpadded_input_shape,
            drawn,
        ) {
            Ok(p) => p,
            Err(e) => {
                return Err(e);
            },
        };
        let rank: usize = input_shape.rank();
        let mut challenges: Vec<F> = Vec::new();
        if rank == 2 {
            challenges.push(Lifted::<F>::one().get());
            return Ok(MaskVerifyingData::new(challenges, batch_point, eq_point));
        }
        let first: usize = unpadded_input_shape.dims[0];
        let (width, used): (usize, usize) = if rank == 4 {
            (input_shape.dims[1], unpadded_input_shape.dims[1])
        } else {
            (1, 1)
        };
        let batch_evals = compute_betas_eval(batch_point.as_slice());
        let at = kept_places(first, width, used, batch_evals.len());
        let ghost want = places(
            first as nat,
            width as int,
            used as nat,
            pow2(batch_point@.len()) as int,
        );
        let ghost bp = residues(batch_point@);
        for k in 0..at.len()
            invariant
                at@.len() == want.len(),
                forall|k: int|
                    0 <= k < at@.len() ==> #[trigger] at@[k] == want[k] && at@[k]
                        < batch_evals@.len(),
                bp == residues(batch_point@),
                all_stand_for(batch_evals@, betas(bp)),
                challenges@.len() == k,
                forall|i: int|
                    0 <= i < k ==> stands_for(#[trigger] challenges@[i], beta(bp, want[i])),
        {
            let p: usize = at[k];
            proof {
                assert(at@[k as int] == want[k as int]);
                assert(betas(bp)[p as int] == beta(bp, p as int));
            }
            challenges.push(batch_evals[p]);
        }
        Ok(MaskVerifyingData::new(challenges, batch_point, eq_point))
    }
}

/// The sizes fit: the points have factors.
pub open spec fn can_batch_shapes<F: PrimeField>(
    claims: Seq<Claim<F>>,
    d: Seq<usize>,
    u: Seq<usize>,
    drawn: Seq<F>,
) -> bool {
    2 <= d.len() <= 4 ==> {
        let (eq, batch) = split_points(claims, d, drawn);
        &&& u.len() == d.len()
        &&& has_claims(claims, d, u)
        &&& drawn.len() == drawn_count(claims.len() as int, d, u)
        &&& d.len() == 4 ==> u[1] <= d[1] && u[0] * u[1] <= usize::MAX && u[0] * d[1] <= usize::MAX
        &&& pow2(batch.len()) <= usize::MAX
    }
}

/// The claims on the input that the sumcheck leaves: one where there was one claim on the
/// output, and one for each matrix elsewhere.
pub open spec fn is_input_claims<F: PrimeField>(
    num_claims: int,
    challenges: Seq<F>,
    batching_point: Seq<F>,
    point: Seq<F>,
    evaluations: Seq<F>,
    r: Seq<Claim<F>>,
) -> bool {
    if num_claims == 1 {
        &&& r.len() == 1
        &&& r[0].point@ == point + batching_point
        &&& stands_for(r[0].eval, weighted(residues(challenges), residues(evaluations)))
    } else {
        &&& r.len() == evaluations.len()
        &&& forall|k: int|
            0 <= k < r.len() ==> (#[trigger] r[k]).point@ == point && r[k].eval == evaluations[k]
    }
}

/// The claims on the input that the sumcheck leaves.
pub fn claims_after_sumcheck<F: PrimeField>(
    num_claims: usize,
    challenges: &Vec<F>,
    batching_point: &Vec<F>,
    point: &Vec<F>,
    evaluations: &Vec<F>,
) -> (r: Vec<Claim<F>>)
    ensures
        is_input_claims(
            num_claims as int,
            challenges@,
            batching_point@,
            point@,
            evaluations@,
            r@,
        ),
{
    let mut r: Vec<Claim<F>> = Vec::new();
    if num_claims == 1 {
        r.push(
            input_claim(
                challenges.as_slice(),
                batching_point.as_slice(),
                point.as_slice(),
                evaluations.as_slice(),
            ),
        );
    } else {
        for k in 0..evaluations.len()
            invariant
                r@.len() == k,
                forall|i: int|
                    0 <= i < k ==> (#[trigger] r@[i]).point@ == point@ && r@[i].eval
                        == evaluations@[i],
        {
            r.push(Claim::new(copied(point), evaluations[k]));
        }
    }
    r
}

impl AttentionMask<Element> {
    /// What a matrix takes at the end of the sumcheck once it is masked.
    pub open spec fn masked_evals(lt: int, neg: int, evaluations: Seq<int>) -> Seq<int> {
        Seq::new(evaluations.len(), |k: int| lt * evaluations[k] + neg * (1 - lt))
    }

    /// The value of the mask at a point, and what the sumcheck has to end on.
    pub open spec fn computed<F: PrimeField>(
        &self,
        data: MaskVerifyingData<F>,
        evaluations: Seq<F>,
        end: Seq<F>,
    ) -> int {
        let k = data.eq_point@.len() as int / 2;
        let s = residues(end);
        let lt = matrix_mle(
            |i: int, j: int| lower_triangular(i, j),
            s.skip(k),
            s.take(k),
        );
        identity(s, residues(data.eq_point@)) * weighted(
            residues(data.batching_challenges@),
            Self::masked_evals(lt, self.negative_infinity as int, residues(evaluations)),
        )
    }

    /// The sum that the sumcheck has to start from: the claim, or the batched claims.
    pub fn initial_claim<F: PrimeField>(claims: &Vec<Claim<F>>, challenges: &Vec<F>) -> (r: F)
        requires
            claims@.len() >= 1,
        ensures
            claims@.len() == 1 ==> r == claims@[0].eval,
            claims@.len() != 1 ==> stands_for(
                r,
                weighted(
                    Seq::new(claims@.len(), |k: int| claims@[k].eval.residue()),
                    residues(challenges@),
                ),
            ),
    {
        if claims.len() == 1 {
            return claims[0].eval;
        }
        let ghost e = Seq::new(claims@.len(), |k: int| claims@[k].eval.residue());
        let ghost c = residues(challenges@);
        let n: usize = if claims.len() <= challenges.len() {
            claims.len()
        } else {
            challenges.len()
        };
        let ghost f = |k: int| e[k] * c[k];
        let mut acc = Lifted::<F>::zero();
        for k in 0..n
            invariant
                n <= claims@.len(),
                n <= challenges@.len(),
                e == Seq::new(claims@.len(), |k: int| claims@[k].eval.residue()),
                c == residues(challenges@),
                f == |k: int| e[k] * c[k],
                acc@ == sum(k as nat, f),
        {
            acc = acc.plus(Lifted::of(claims[k].eval).times(Lifted::of(challenges[k])));
        }
        acc.get()
    }

    /// Decides on the end of the sumcheck, for the mask that keeps the full span. Where it
    /// is accepted, the claims on the input are returned.
    pub fn verify_internal<F: PrimeField, P>(
        &self,
        proof: &AttentionMaskProof<F, P>,
        num_claims: usize,
        data: &MaskVerifyingData<F>,
        subclaim: &SubClaim<F>,
    ) -> (r: Result<Vec<Claim<F>>, Error>)
        requires
            subclaim.point@.len() == data.eq_point@.len(),
            data.eq_point@.len() % 2 == 0,
        ensures
            ({
                let ends = stands_for(
                    subclaim.expected_evaluation,
                    self.computed(*data, proof.evaluations@, subclaim.point@),
                );
                match r {
                    Ok(claims) => {
                        &&& ends
                        &&& is_input_claims(
                            num_claims as int,
                            data.batching_challenges@,
                            data.batching_point@,
                            subclaim.point@,
                            proof.evaluations@,
                            claims@,
                        )
                    },
                    Err(e) => e == Error::EvaluationMismatch && !ends,
                }
            }),
    {
        let k: usize = data.eq_point.len() / 2;
        let ghost s = residues(subclaim.point@);
        let col = part(subclaim.point.as_slice(), 0, k);
        let row = part(subclaim.point.as_slice(), k, subclaim.point.len());
        assert(residues(col@) =~= s.take(k as int));
        assert(residues(row@) =~= s.skip(k as int));
        let ghost lt = matrix_mle(
            |i: int, j: int| lower_triangular(i, j),
            s.skip(k as int),
            s.take(k as int),
        );
        let lt_elem = eval_zeroifier_mle(col.as_slice(), row.as_slice());
        let eq = Lifted::known(
            identity_eval(subclaim.point.as_slice(), data.eq_point.as_slice()),
            Ghost(identity(s, residues(data.eq_point@))),
        );
        let n: usize = if data.batching_challenges.len() <= proof.evaluations.len() {
            data.batching_challenges.len()
        } else {
            proof.evaluations.len()
        };
        let ghost c = residues(data.batching_challenges@);
        let ghost e = Self::masked_evals(
            lt,
            self.negative_infinity as int,
            residues(proof.evaluations@),
        );
        let ghost f = |i: int| c[i] * e[i];
        let mut acc = Lifted::<F>::zero();
        for i in 0..n
            invariant
                n <= data.batching_challenges@.len(),
                n <= proof.evaluations@.len(),
                c == residues(data.batching_challenges@),
                e == Self::masked_evals(
                    lt,
                    self.negative_infinity as int,
                    residues(proof.evaluations@),
                ),
                stands_for(lt_elem, lt),
                f == |i: int| c[i] * e[i],
                acc@ == sum(i as nat, f),
        {
            let kept = Lifted::known(lt_elem, Ghost(lt)).times(Lifted::of(proof.evaluations[i]));
            let other = Lifted::<F>::one().minus(Lifted::known(lt_elem, Ghost(lt)));
            let value = kept.plus(Lifted::<F>::of_i64(self.negative_infinity).times(other));
            acc = acc.plus(Lifted::of(data.batching_challenges[i]).times(value));
        }
        let value = eq.times(acc);
        if !value.get().is_same(subclaim.expected_evaluation) {
            return Err(Error::EvaluationMismatch);
        }
        Ok(
            claims_after_sumcheck(
                num_claims,
                &data.batching_challenges,
                &data.batching_point,
                &subclaim.point,
                &proof.evaluations,
            ),
        )
    }

    /// The proof and the claims on the input, once the sumcheck has been run: its first two
    /// evaluations are those of the factors and of the mask.
    pub fn finish_proof<F: PrimeField, P>(
        num_claims: usize,
        data: &MaskProvingData<F>,
        sumcheck_proof: P,
        sumcheck_point: &Vec<F>,
        final_evaluations: &Vec<F>,
    ) -> (r: (AttentionMaskProof<F, P>, Vec<Claim<F>>))
        requires
            final_evaluations@.len() >= 2,
        ensures
            r.0.sumcheck_proof == sumcheck_proof,
            r.0.evaluations@ == final_evaluations@.skip(2),
            is_input_claims(
                num_claims as int,
                data.batching_challenges@,
                data.batching_point@,
                sumcheck_point@,
                r.0.evaluations@,
                r.1@,
            ),
    {
        let evaluations = part(final_evaluations.as_slice(), 2, final_evaluations.len());
        assert(evaluations@ =~= final_evaluations@.skip(2));
        let claims = claims_after_sumcheck(
            num_claims,
            &data.batching_challenges,
            &data.batching_point,
            sumcheck_point,
            &evaluations,
        );
        (AttentionMaskProof { sumcheck_proof, evaluations }, claims)
    }
}

/// The verifier's value of a full mask is the extension of the table that the prover uses.
pub proof fn law_full_mask(row: Seq<int>, col: Seq<int>)
    requires
        row.len() == col.len(),
    ensures
        mle(lt_table(AttentionSpan::Full, pow2(row.len())), col + row) == matrix_mle(
            |i: int, j: int| lower_triangular(i, j),
            row,
            col,
        ),
{
    let n = pow2(row.len());
    lemma_pow2_pos(row.len());
    let t = lt_table(AttentionSpan::Full, n);
    lemma_mle_grid(t, col, row);
    let f = |i: int, j: int| lower_triangular(i, j);
    let a = |i: int| sum(n, |j: int| t[i * n + j] * beta(col, j)) * beta(row, i);
    let b = |i: int| sum(n, |j: int| f(i, j) * beta(col, j)) * beta(row, i);
    assert forall|i: int| 0 <= i < n implies #[trigger] a(i) == b(i) by {
        let g = |j: int| t[i * n + j] * beta(col, j);
        let h = |j: int| f(i, j) * beta(col, j);
        assert forall|j: int| 0 <= j < n implies #[trigger] g(j) == h(j) by {
            let p = i * n + j;
            lemma_fundamental_div_mod_converse(p, n as int, i, j);
            assert(0 <= p < n * n) by (nonlinear_arith)
                requires
                    p == i * n + j,
                    0 <= i < n,
                    0 <= j < n,
            ;
        }
        lemma_sum_same(n, g, h);
    }
    lemma_sum_same(n, a, b);
}

} // verus!
