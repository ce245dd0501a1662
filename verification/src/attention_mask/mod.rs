//! Attention masks, by which a token sees only some of the tokens.
//!
//! A mask works on matrices. On a tensor of higher rank it works on the last two
//! dimensions of each of its matrices.
use vstd::prelude::*;
use crate::error::Error;
use crate::expression::Expression;
use crate::field::PrimeField;
use crate::shape::{copy_shapes, numel, same_shapes, Shape};
use crate::tensor::Element;

pub mod claimed;
pub mod evaluate;
pub mod laws;
pub mod prove;
pub mod verify;

verus! {

/// Which entries a mask keeps.
#[derive(Clone, Copy, Debug, PartialEq, Eq, Structural)]
pub enum AttentionSpan {
    /// A token sees itself and every token before it.
    Full,
    /// A token sees itself and the last `n` tokens before it.
    Local(usize),
}

impl Default for AttentionSpan {
    fn default() -> (r: Self)
        ensures
            r == AttentionSpan::Full,
    {
        AttentionSpan::Full
    }
}

impl AttentionSpan {
    /// Whether the token `i` sees the token `j`.
    pub open spec fn keeps(self, i: int, j: int) -> bool {
        match self {
            AttentionSpan::Full => j <= i,
            AttentionSpan::Local(n) => j <= i && i <= j + n,
        }
    }

    /// Whether the token `i` sees the token `j`.
    pub fn sees(self, i: usize, j: usize) -> (r: bool)
        ensures
            r == self.keeps(i as int, j as int),
    {
        match self {
            AttentionSpan::Full => j <= i,
            AttentionSpan::Local(n) => j <= i && i - j <= n,
        }
    }

    /// Whether a single row for the last of `seq_len` tokens keeps the token `j`: all of
    /// them, or the last `n`.
    pub open spec fn keeps_cached(self, seq_len: int, j: int) -> bool {
        match self {
            AttentionSpan::Full => true,
            AttentionSpan::Local(n) => seq_len - n <= j,
        }
    }

    /// Whether a single row for the last of `seq_len` tokens keeps the token `j`.
    pub fn sees_cached(self, seq_len: usize, j: usize) -> (r: bool)
        ensures
            r == self.keeps_cached(seq_len as int, j as int),
    {
        match self {
            AttentionSpan::Full => true,
            AttentionSpan::Local(n) => seq_len <= j || seq_len - j <= n,
        }
    }
}

/// A mask that replaces what a token does not see by a value that stands for
/// minus infinity.
#[derive(Debug, PartialEq, Eq)]
pub struct AttentionMask<N> {
    /// The number of rows and of columns of the mask.
    pub dim_size: usize,
    pub span: AttentionSpan,
    /// The value for minus infinity.
    pub negative_infinity: N,
}

/// The proof that a mask was applied. `P` is a proof of a sumcheck.
#[derive(Debug)]
pub struct AttentionMaskProof<F, P> {
    /// The sumcheck that the mask was applied.
    pub sumcheck_proof: P,
    /// What the tables of the sumcheck take at its end: the second matrix of the
    /// mask, where there is one, and the matrices of the input.
    pub evaluations: Vec<F>,
    /// The sumcheck on the second matrix of a local mask.
    pub local_mask_proof: Option<P>,
}

impl Default for AttentionMask<Element> {
    fn default() -> (r: Self)
        ensures
            r.dim_size == 0,
            r.span == AttentionSpan::Full,
            r.negative_infinity == Element::MIN,
    {
        AttentionMask { dim_size: 0, span: AttentionSpan::Full, negative_infinity: Element::MIN }
    }
}

impl<N> AttentionMask<N> {
    /// A mask for matrices of side `dim_size` that keeps the full span.
    pub fn new(dim_size: usize, negative_inf: N) -> (r: AttentionMask<N>)
        ensures
            r.dim_size == dim_size,
            r.span == AttentionSpan::Full,
            r.negative_infinity == negative_inf,
    {
        AttentionMask { dim_size, span: AttentionSpan::Full, negative_infinity: negative_inf }
    }

    /// The mask with another span. A local span that is not smaller than the
    /// matrix is refused.
    pub fn with_span(self, span: AttentionSpan) -> (r: Result<AttentionMask<N>, Error>)
        ensures
            r is Ok <==> (span matches AttentionSpan::Local(n) ==> n < self.dim_size),
            match r {
                Ok(m) => {
                    &&& m.dim_size == self.dim_size
                    &&& m.span == span
                    &&& m.negative_infinity == self.negative_infinity
                },
                Err(e) => e == Error::SpanTooLarge,
            },
    {
        if let AttentionSpan::Local(n) = span {
            if n >= self.dim_size {
                return Err(Error::SpanTooLarge);
            }
        }
        Ok(
            AttentionMask {
                dim_size: self.dim_size,
                span,
                negative_infinity: self.negative_infinity,
            },
        )
    }

    /// Sets the value for minus infinity.
    pub fn set_negative_infinity(&mut self, negative_infinity: N)
        ensures
            final(self).negative_infinity == negative_infinity,
            final(self).dim_size == old(self).dim_size,
            final(self).span == old(self).span,
    {
        self.negative_infinity = negative_infinity;
    }

    /// The mask for quantised inputs whose domains have the given minima. Where
    /// there is no input, the minima differ or the span is too large, there is
    /// none.
    pub fn quantize_op(self, domain_minima: &[Element]) -> (r: Result<AttentionMask<Element>, Error>)
        ensures
            match r {
                Ok(m) => {
                    &&& domain_minima@.len() > 0
                    &&& forall|k: int|
                        0 <= k < domain_minima@.len() ==> #[trigger] domain_minima@[k]
                            == domain_minima@[0]
                    &&& m.dim_size == self.dim_size
                    &&& m.span == self.span
                    &&& m.negative_infinity == domain_minima@[0]
                    &&& (self.span matches AttentionSpan::Local(n) ==> n < self.dim_size)
                },
                Err(Error::SpanTooLarge) => {
                    &&& domain_minima@.len() > 0
                    &&& forall|k: int|
                        0 <= k < domain_minima@.len() ==> #[trigger] domain_minima@[k]
                            == domain_minima@[0]
                    &&& self.span is Local
                    &&& self.span->Local_0 >= self.dim_size
                },
                Err(e) => {
                    &&& e == Error::InvalidScaling
                    &&& domain_minima@.len() == 0 || exists|k: int|
                        0 <= k < domain_minima@.len() && #[trigger] domain_minima@[k]
                            != domain_minima@[0]
                },
            },
    {
        if domain_minima.len() == 0 {
            return Err(Error::InvalidScaling);
        }
        for k in 0..domain_minima.len()
            invariant
                domain_minima@.len() > 0,
                forall|j: int|
                    0 <= j < k ==> #[trigger] domain_minima@[j] == domain_minima@[0],
        {
            if domain_minima[k] != domain_minima[0] {
                assert(domain_minima@[k as int] != domain_minima@[0]);
                return Err(Error::InvalidScaling);
            }
        }
        AttentionMask::new(self.dim_size, domain_minima[0]).with_span(self.span)
    }

    /// The mask leaves shapes as they are.
    pub fn output_shapes(&self, input_shapes: &Vec<Shape>) -> (r: Vec<Shape>)
        ensures
            same_shapes(r@, input_shapes@),
    {
        copy_shapes(input_shapes)
    }
}

/// Where the tables of the inputs start among the tables of a mask sumcheck: after
/// the equality table, the mask, the two bounds and, where the mask is
/// decomposed, its second matrix.
pub open spec fn input_offset(decomposed: bool) -> int {
    if decomposed {
        5
    } else {
        4
    }
}

/// The value of the mask, where its tables take the values `w`.
pub open spec fn mask_value(w: Seq<int>, decomposed: bool) -> int {
    if decomposed {
        w[1] * w[4]
    } else {
        w[1]
    }
}

/// What the mask makes of an input: the input where the mask is one, and the
/// value for minus infinity where it is zero.
pub open spec fn masked_value(mask: int, input: int, neg: int) -> int {
    mask * input + neg * (1 - mask)
}

/// The `k`-th summand of a mask sumcheck, where the tables take the values `w`.
pub open spec fn mask_summand(
    w: Seq<int>,
    challenges: Seq<int>,
    decomposed: bool,
    batched: bool,
    neg: int,
    k: int,
) -> int {
    let value = masked_value(mask_value(w, decomposed), w[input_offset(decomposed) + k], neg);
    if batched {
        ((w[0] * (w[2] * w[3])) * challenges[k]) * value
    } else {
        (w[0] * (w[2] * w[3])) * value
    }
}

/// The expressions of a mask sumcheck: one for each matrix of the input, batched
/// by a challenge of its own where the input is not a single matrix.
pub fn build_sumcheck_expression<F: PrimeField>(
    input_shape: &Shape,
    negative_inf: Element,
    decomposed: bool,
) -> (r: Vec<Expression<F>>)
    requires
        input_shape@.len() >= 2,
        forall|k: int|
            0 <= k <= input_shape@.len() - 2 ==> #[trigger] numel(input_shape@.take(k)) + 5
                <= 0x1_0000,
    ensures
        r@.len() == if input_shape@.len() > 2 {
            numel(input_shape@.take(input_shape@.len() - 2)) as int
        } else {
            1
        },
        forall|k: int, w: Seq<int>, c: Seq<int>|
            0 <= k < r@.len() ==> #[trigger] r@[k].value(w, c) == mask_summand(
                w,
                c,
                decomposed,
                input_shape@.len() > 2,
                negative_inf as int % F::modulus(),
                k,
            ),
        forall|k: int|
            0 <= k < r@.len() ==> (#[trigger] r@[k]).degree() == if decomposed {
                6int
            } else {
                5int
            },
{
    let rank = input_shape.rank();
    let batched = rank > 2;
    let mut count: usize = 1;
    if batched {
        for k in 0..rank - 2
            invariant
                rank == input_shape@.len(),
                rank > 2,
                forall|k: int|
                    0 <= k <= input_shape@.len() - 2 ==> #[trigger] numel(input_shape@.take(k)) + 5
                        <= 0x1_0000,
                count == numel(input_shape@.take(k as int)),
        {
            assert(input_shape@.take(k + 1).drop_last() =~= input_shape@.take(k as int));
            assert(numel(input_shape@.take(k + 1)) + 5 <= 0x1_0000);
            count = count * input_shape.dims[k];
        }
    }
    let offset: usize = if decomposed {
        5
    } else {
        4
    };
    let ghost neg = negative_inf as int % F::modulus();
    let mut r: Vec<Expression<F>> = Vec::new();
    for j in 0..count
        invariant
            count + 5 <= 0x1_0000,
            offset == input_offset(decomposed),
            neg == negative_inf as int % F::modulus(),
            r@.len() == j,
            forall|k: int, w: Seq<int>, c: Seq<int>|
                0 <= k < j ==> #[trigger] r@[k].value(w, c) == mask_summand(
                    w,
                    c,
                    decomposed,
                    batched,
                    neg,
                    k,
                ),
            forall|k: int|
                0 <= k < j ==> (#[trigger] r@[k]).degree() == if decomposed {
                    6int
                } else {
                    5int
                },
    {
        let eq = Expression::table(0);
        let lt = Expression::table(2).times(Expression::table(3));
        let mask = mask_expression::<F>(decomposed);
        let other = Expression::Constant(F::one()).minus(mask_expression::<F>(decomposed));
        let value = mask.times(Expression::table(j + offset)).plus(
            Expression::Constant(F::from_i64(negative_inf)).times(other),
        );
        let head = eq.times(lt);
        let e = if batched {
            head.times(Expression::Challenge(j)).times(value)
        } else {
            head.times(value)
        };
        proof {
            reveal_with_fuel(Expression::value, 7);
            reveal_with_fuel(Expression::degree, 7);
            assert forall|w: Seq<int>, c: Seq<int>| #[trigger] e.value(w, c) == mask_summand(
                w,
                c,
                decomposed,
                batched,
                neg,
                j as int,
            ) by {
                assert(value.value(w, c) == masked_value(
                    mask_value(w, decomposed),
                    w[input_offset(decomposed) + j],
                    neg,
                ));
            }
        }
        r.push(e);
    }
    r
}

/// The mask as an expression in its tables.
fn mask_expression<F: PrimeField>(decomposed: bool) -> (r: Expression<F>)
    ensures
        decomposed ==> r == Expression::<F>::Product(
            Box::new(Expression::WitIn(1)),
            Box::new(Expression::WitIn(4)),
        ),
        !decomposed ==> r == Expression::<F>::WitIn(1),
{
    if decomposed {
        Expression::table(1).times(Expression::table(4))
    } else {
        Expression::table(1)
    }
}

/// What the verifier of a mask knows of it.
#[derive(Debug)]
pub struct AttentionMaskCtx<F> {
    pub op: AttentionMask<Element>,
    pub sumcheck_expression: Vec<Expression<F>>,
    pub node_id: usize,
}

impl<F> AttentionMaskCtx<F> {
    pub fn new(
        op: AttentionMask<Element>,
        sumcheck_expression: Vec<Expression<F>>,
        node_id: usize,
    ) -> (r: Self)
        ensures
            r.op == op,
            r.sumcheck_expression@ == sumcheck_expression@,
            r.node_id == node_id,
    {
        AttentionMaskCtx { op, sumcheck_expression, node_id }
    }

    /// The number of rows and of columns of the mask.
    pub fn dim_size(&self) -> (r: usize)
        ensures
            r == self.op.dim_size,
    {
        self.op.dim_size
    }
}

impl AttentionMask<Element> {
    /// The context for inputs of the given shapes. A mask takes a single input.
    pub fn step_info<F: PrimeField>(self, id: usize, shapes: &Vec<Shape>) -> (r: Result<
        AttentionMaskCtx<F>,
        Error,
    >)
        requires
            shapes@.len() == 1 ==> {
                &&& shapes@[0]@.len() >= 2
                &&& forall|k: int|
                    0 <= k <= shapes@[0]@.len() - 2 ==> #[trigger] numel(shapes@[0]@.take(k)) + 5
                        <= 0x1_0000
            },
        ensures
            r is Ok <==> shapes@.len() == 1,
            match r {
                Ok(ctx) => {
                    &&& ctx.op == self
                    &&& ctx.node_id == id
                    &&& ctx.sumcheck_expression@.len() == if shapes@[0]@.len() > 2 {
                        numel(shapes@[0]@.take(shapes@[0]@.len() - 2)) as int
                    } else {
                        1
                    }
                    &&& forall|k: int, w: Seq<int>, c: Seq<int>|
                        0 <= k < ctx.sumcheck_expression@.len()
                            ==> #[trigger] ctx.sumcheck_expression@[k].value(w, c) == mask_summand(
                            w,
                            c,
                            false,
                            shapes@[0]@.len() > 2,
                            self.negative_infinity as int % F::modulus(),
                            k,
                        )
                },
                Err(e) => e == Error::WrongNumberOfInputs,
            },
    {
        if shapes.len() != 1 {
            return Err(Error::WrongNumberOfInputs);
        }
        let expression = build_sumcheck_expression::<F>(&shapes[0], self.negative_infinity, false);
        Ok(AttentionMaskCtx::new(self, expression, id))
    }
}

} // verus!
