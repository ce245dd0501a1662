//! A layer that adds a vector to each token by its position.
use vstd::prelude::*;
use vstd::arithmetic::div_mod::lemma_small_mod;
use vstd::arithmetic::power2::pow2;
use crate::claim::{joined, part, Claim, SubClaim};
use crate::congruence::{cong, lemma_cong_times, lemma_end_cong, lemma_residue_cong};
use crate::error::Error;
use crate::expression::Expression;
use crate::field::{all_stand_for, inverts, residues, stands_for, Lifted, PrimeField};
use crate::linear::is_matrix;
use crate::logits::verify::{invertible, lemma_divide};
use crate::logits::witness::element_ints;
use crate::mle::{beta, betas, compute_betas_eval, identity, identity_eval, lemma_mle_betas, lemma_mle_grid, mle};
use crate::positional::binding::{bind_sub_claim_to_positional_matrix, build_positional_matrix_claim, is_matrix_claim, is_part_evals, matrix_num_vars};
use crate::positional::rope::is_padded_from;
use crate::positional::PositionalCache;
use crate::shape::{ceil_log2, lemma_numel_matrix, log2_ceil, padded, Shape};
use crate::sum::{lemma_sum_same, lemma_sum_split, lemma_sum_zero, sum};
use crate::tensor::{can_pad, resized, Element, KeyedTensor, Tensor};
use crate::triangular::{eval_bounded, lemma_bounded_table, upto};

verus! {

/// The proof of the layer. The sumcheck and the proof of the addition are carried as
/// they come.
#[derive(Debug)]
pub struct AbsoluteProof<F, P, A> {
    /// The sumcheck that the first rows of the matrix were added.
    pub sumcheck_proof: P,
    /// The evaluations of the further parts of the matrix.
    pub sub_matrix_evals: Vec<F>,
    /// The proof of the addition.
    pub add_proof: A,
}

/// What the verifier knows of the layer.
#[derive(Debug)]
pub struct AbsoluteCtx {
    pub unpadded_shape: Shape,
    pub num_vars_positional_matrix: usize,
    pub node_id: usize,
    pub positional_key: String,
}

/// A layer that adds the rows of a matrix, one to each token.
#[derive(Debug)]
pub struct Absolute<N> {
    pub positional: KeyedTensor<N>,
    /// The shape of the matrix before padding.
    pub unpadded_shape: Shape,
}

/// The tables of the sumcheck, in the order in which it takes them.
#[derive(Debug)]
pub struct AbsoluteSumcheck<F> {
    /// The first rows of the matrix with their columns fixed.
    pub fixed_positional: Vec<F>,
    /// One in the rows of the tokens and zero after them.
    pub lt: Vec<F>,
    /// The factors of the coordinates of the rows.
    pub column_eq: Vec<F>,
}

impl<N> Absolute<N> {
    /// The quantised layer, for its quantised matrix. It takes the scale and the shape of
    /// one output.
    pub fn quantize<M>(
        self,
        num_output_scalings: usize,
        num_output_shapes: usize,
        positional: KeyedTensor<M>,
    ) -> (r: Result<Absolute<M>, Error>)
        ensures
            match r {
                Ok(a) => {
                    &&& num_output_scalings == 1
                    &&& num_output_shapes == 1
                    &&& a.positional == positional
                    &&& a.unpadded_shape == self.unpadded_shape
                },
                Err(e) => if num_output_scalings != 1 {
                    e == Error::InvalidScaling
                } else {
                    e == Error::WrongNumberOfOutputs && num_output_shapes != 1
                },
            },
    {
        if num_output_scalings != 1 {
            return Err(Error::InvalidScaling);
        }
        if num_output_shapes != 1 {
            return Err(Error::WrongNumberOfOutputs);
        }
        Ok(Absolute { positional, unpadded_shape: self.unpadded_shape })
    }

    /// A layer that adds the rows of the matrix.
    pub fn new(matrix: KeyedTensor<N>) -> (r: Self)
        ensures
            r.positional == matrix,
            r.unpadded_shape@ == matrix.tensor.shape@,
    {
        let unpadded_shape = matrix.tensor.shape.clone();
        Absolute { positional: matrix, unpadded_shape }
    }

    /// The variables of the matrix.
    pub fn num_vars(&self) -> (r: usize)
        requires
            self.positional.tensor.shape@.len() == 2,
        ensures
            r == matrix_num_vars(self.positional.tensor.shape@),
    {
        ceil_log2(self.positional.tensor.shape.dims[0]) + ceil_log2(
            self.positional.tensor.shape.dims[1],
        )
    }
}

/// The rows from `from` up to `to` of a matrix of `cols` columns.
pub open spec fn rows_of<N>(data: Seq<N>, cols: int, from: int, to: int) -> Seq<N> {
    data.subrange(from * cols, to * cols)
}

/// The rows from `from` up to `to` of a matrix.
pub(crate) fn slice_rows(t: &Tensor<Element>, from: usize, to: usize) -> (r: Tensor<Element>)
    requires
        is_matrix(*t),
        from <= to <= t.shape@[0],
    ensures
        r.wf(),
        r.shape@ == seq![(to - from) as usize, t.shape@[1]],
        r.unpadded_shape@ == r.shape@,
        r.data@ == rows_of(t.data@, t.shape@[1] as int, from as int, to as int),
{
    let rows: usize = t.shape.dims[0];
    let cols: usize = t.shape.dims[1];
    proof {
        assert(t.shape@ =~= seq![rows, cols]);
        lemma_numel_matrix(rows, cols);
        lemma_numel_matrix((to - from) as usize, cols);
        assert(0 <= from * cols <= to * cols <= rows * cols) by (nonlinear_arith)
            requires
                0 <= from <= to <= rows,
        ;
        assert((to - from) * cols == to * cols - from * cols) by (nonlinear_arith);
        assert(t.data.len() <= usize::MAX);
    }
    let data = part(t.data.as_slice(), from * cols, to * cols);
    let mut dims: Vec<usize> = Vec::new();
    dims.push(to - from);
    dims.push(cols);
    assert(dims@ =~= seq![(to - from) as usize, cols]);
    let shape = Shape::new(dims);
    Tensor { data, unpadded_shape: shape.clone(), shape }
}

impl Absolute<Element> {
    /// There is a row for each token of the input.
    pub open spec fn can_add(&self, input: Tensor<Element>, seen: PositionalCache) -> bool {
        &&& is_matrix(self.positional.tensor)
        &&& input.wf()
        &&& input.unpadded_shape@.len() >= 1
        &&& seen.seq_len < usize::MAX
        &&& seen.seq_len + input.unpadded_shape@[0] <= self.positional.tensor.shape@[0]
        &&& input.spec_is_padded() ==> can_pad(
            seq![input.unpadded_shape@[0], self.positional.tensor.shape@[1]],
        )
    }

    /// What comes of an input: the tokens seen become `seen_after`, and `r` is returned.
    pub open spec fn adds(
        &self,
        seen: PositionalCache,
        seen_after: PositionalCache,
        input: Tensor<Element>,
        r: Result<Tensor<Element>, Error>,
    ) -> bool {
        let past = seen.seq_len as int;
        let n = input.unpadded_shape@[0];
        let cols = self.positional.tensor.shape@[1];
        let rows = rows_of(self.positional.tensor.data@, cols as int, past, past + n);
        let d = seq![n, cols];
        match r {
            Ok(t) => {
                &&& seen.takes(past + n)
                &&& seen_after.initialized
                &&& seen_after.seq_len == past + n
                &&& t.wf()
                &&& t.unpadded_shape@ == d
                &&& if input.spec_is_padded() {
                    t.shape@ == padded(d) && t.data@ == resized(rows, d, padded(d), 0)
                } else {
                    t.shape@ == d && t.data@ == rows
                }
            },
            Err(e) => {
                &&& e == Error::WrongSequenceLength
                &&& !seen.takes(past + n)
                &&& seen_after == seen
            },
        }
    }

    /// The matrix that is added to the input: the rows for the positions of its tokens,
    /// padded where the input is padded. The positions go on from those of the tokens
    /// so far.
    pub fn added_rows(&self, input: &Tensor<Element>, positional_cache: &mut PositionalCache) -> (r:
        Result<Tensor<Element>, Error>)
        requires
            self.can_add(*input, *old(positional_cache)),
        ensures
            self.adds(*old(positional_cache), *final(positional_cache), *input, r),
    {
        let past: usize = positional_cache.seq_len;
        let n: usize = input.unpadded_shape.dims[0];
        let rows = slice_rows(&self.positional.tensor, past, past + n);
        match positional_cache.set_seq_len(past + n) {
            Ok(_) => {},
            Err(e) => {
                return Err(e);
            },
        }
        if input.is_padded() {
            Ok(rows.pad_next_power_of_two(0))
        } else {
            Ok(rows)
        }
    }

    /// The layer with its matrix padded.
    pub fn pad_node(self) -> (r: Self)
        requires
            self.positional.tensor.wf(),
            can_pad(self.positional.tensor.shape@),
        ensures
            is_padded_from(self.positional, r.positional),
            r.unpadded_shape == self.unpadded_shape,
    {
        let tensor = self.positional.tensor.pad_next_power_of_two(0);
        Absolute {
            positional: KeyedTensor { key: self.positional.key, tensor },
            unpadded_shape: self.unpadded_shape,
        }
    }

    /// The context of the layer and the padded matrix that it commits to.
    pub fn step_info(&self, node_id: usize) -> (r: (AbsoluteCtx, (String, Vec<Element>)))
        requires
            is_matrix(self.positional.tensor),
            can_pad(self.positional.tensor.shape@),
        ensures
            r.0.unpadded_shape@ == self.unpadded_shape@,
            r.0.num_vars_positional_matrix == matrix_num_vars(self.positional.tensor.shape@),
            r.0.node_id == node_id,
            r.0.positional_key@ == self.positional.key@,
            (r.1).0@ == self.positional.key@,
            (r.1).1@ == resized(
                self.positional.tensor.data@,
                self.positional.tensor.shape@,
                padded(self.positional.tensor.shape@),
                0,
            ),
    {
        let ctx = AbsoluteCtx {
            unpadded_shape: self.unpadded_shape.clone(),
            num_vars_positional_matrix: self.num_vars(),
            node_id,
            positional_key: self.positional.key.clone(),
        };
        let values = self.positional.tensor.pad_next_power_of_two(0).data;
        (ctx, (self.positional.key.clone(), values))
    }

    /// The matrix that the prover of the addition takes: the first rows, one for each
    /// token, padded.
    pub fn masked_rows(&self, input: &Tensor<Element>) -> (r: Tensor<Element>)
        requires
            is_matrix(self.positional.tensor),
            input.unpadded_shape@.len() >= 1,
            input.unpadded_shape@[0] <= self.positional.tensor.shape@[0],
            can_pad(seq![input.unpadded_shape@[0], self.positional.tensor.shape@[1]]),
        ensures
            ({
                let n = input.unpadded_shape@[0];
                let cols = self.positional.tensor.shape@[1];
                let d = seq![n, cols];
                &&& r.wf()
                &&& r.shape@ == padded(d)
                &&& r.unpadded_shape@ == d
                &&& r.data@ == resized(
                    rows_of(self.positional.tensor.data@, cols as int, 0, n as int),
                    d,
                    padded(d),
                    0,
                )
            }),
    {
        slice_rows(&self.positional.tensor, 0, input.unpadded_shape.dims[0]).pad_next_power_of_two(0)
    }
}

/// The first `used` values of row `i`, weighted by the factors of a point.
pub open spec fn row_sum(data: Seq<int>, cols: int, used: nat, row: Seq<int>, i: int) -> int {
    sum(used, |j: int| data[i * cols + j] * beta(row, j))
}

/// The tables are those of the sumcheck on the rows that were added.
pub open spec fn is_absolute_sumcheck<F: PrimeField>(
    data: Seq<Element>,
    d: Seq<usize>,
    u: Seq<usize>,
    row: Seq<int>,
    col: Seq<int>,
    s: AbsoluteSumcheck<F>,
) -> bool {
    let rows = d[0] as int;
    &&& s.fixed_positional@.len() == rows
    &&& forall|i: int|
        0 <= i < rows ==> stands_for(
            #[trigger] s.fixed_positional@[i],
            row_sum(element_ints(data), d[1] as int, u[1] as nat, row, i),
        )
    &&& s.lt@.len() == rows
    &&& forall|i: int|
        0 <= i < rows ==> stands_for(
            #[trigger] s.lt@[i],
            if i < u[0] {
                1
            } else {
                0
            },
        )
    &&& all_stand_for(s.column_eq@, betas(col))
}

/// The polynomial that the sumcheck sums.
pub fn absolute_expression<F: PrimeField>() -> (r: Expression<F>)
    ensures
        forall|w: Seq<int>, c: Seq<int>| #[trigger] r.value(w, c) == w[0] * w[1] * w[2],
        r.degree() == 3,
{
    let r = Expression::<F>::table(0).times(Expression::<F>::table(1)).times(
        Expression::<F>::table(2),
    );
    proof {
        reveal_with_fuel(Expression::value, 4);
        reveal_with_fuel(Expression::degree, 4);
    }
    r
}

impl Absolute<Element> {
    /// What the prover hands to the sumcheck, for the claims that the addition left: one
    /// on the input and one on the rows that were added.
    pub fn prove_step<F: PrimeField>(&self, add_claims: &Vec<Claim<F>>, input: &Tensor<Element>) -> (r:
        Result<AbsoluteSumcheck<F>, Error>)
        requires
            is_matrix(self.positional.tensor),
            is_matrix(*input),
            self.positional.tensor.shape@[1] == input.shape@[1],
            input.shape@[0] <= self.positional.tensor.shape@[0],
            add_claims@.len() == 2 ==> {
                let v = log2_ceil(input.shape@[1] as nat);
                &&& v <= add_claims@[1].point@.len()
                &&& pow2(v) <= usize::MAX
                &&& input.unpadded_shape@[1] <= pow2(v)
                &&& pow2((add_claims@[1].point@.len() - v) as nat) <= usize::MAX
            },
        ensures
            match r {
                Ok(s) => {
                    let v = log2_ceil(input.shape@[1] as nat) as int;
                    let point = residues(add_claims@[1].point@);
                    &&& add_claims@.len() == 2
                    &&& is_absolute_sumcheck(
                        self.positional.tensor.data@,
                        input.shape@,
                        input.unpadded_shape@,
                        point.take(v),
                        point.skip(v),
                        s,
                    )
                },
                Err(e) => e == Error::WrongNumberOfClaims && add_claims@.len() != 2,
            },
    {
        if add_claims.len() != 2 {
            return Err(Error::WrongNumberOfClaims);
        }
        let claim = &add_claims[1];
        let rows: usize = input.shape.dims[0];
        let cols: usize = input.shape.dims[1];
        let used: usize = input.unpadded_shape.dims[1];
        let bound: usize = input.unpadded_shape.dims[0];
        let total: usize = self.positional.tensor.shape.dims[0];
        let v = ceil_log2(cols);
        let low = part(claim.point.as_slice(), 0, v);
        let high = part(claim.point.as_slice(), v, claim.point.len());
        let ghost point = residues(claim.point@);
        let ghost row = point.take(v as int);
        let ghost data = element_ints(self.positional.tensor.data@);
        proof {
            assert(residues(low@) =~= row);
            assert(residues(high@) =~= point.skip(v as int));
            assert(self.positional.tensor.shape@ =~= seq![total, cols]);
            lemma_numel_matrix(total, cols);
            assert(input.unpadded_shape@[1] <= input.shape@[1]);
        }
        let row_evals = compute_betas_eval(low.as_slice());
        let column_eq = compute_betas_eval(high.as_slice());
        let mut fixed_positional: Vec<F> = Vec::new();
        let mut lt: Vec<F> = Vec::new();
        for i in 0..rows
            invariant
                rows <= total,
                used <= cols,
                used <= row_evals@.len(),
                data == element_ints(self.positional.tensor.data@),
                self.positional.tensor.data@.len() == total * cols,
                all_stand_for(row_evals@, betas(row)),
                fixed_positional@.len() == i,
                lt@.len() == i,
                forall|k: int|
                    0 <= k < i ==> stands_for(
                        #[trigger] fixed_positional@[k],
                        row_sum(data, cols as int, used as nat, row, k),
                    ),
                forall|k: int|
                    0 <= k < i ==> stands_for(
                        #[trigger] lt@[k],
                        if k < bound {
                            1
                        } else {
                            0
                        },
                    ),
        {
            let ghost f = |j: int| data[i * cols as int + j] * beta(row, j);
            proof {
                assert(0 <= i * cols && i * cols + cols <= total * cols) by (nonlinear_arith)
                    requires
                        0 <= i < rows <= total,
                ;
                assert(self.positional.tensor.data.len() <= usize::MAX);
            }
            let start: usize = i * cols;
            let mut acc = Lifted::<F>::zero();
            for j in 0..used
                invariant
                    used <= cols,
                    used <= row_evals@.len(),
                    start == i * cols,
                    start + cols <= self.positional.tensor.data@.len(),
                    data == element_ints(self.positional.tensor.data@),
                    all_stand_for(row_evals@, betas(row)),
                    f == |j: int| data[i * cols as int + j] * beta(row, j),
                    acc@ == sum(j as nat, f),
            {
                assert(self.positional.tensor.data.len() <= usize::MAX);
                assert(betas(row)[j as int] == beta(row, j as int));
                let x = Lifted::<F>::of_i64(self.positional.tensor.data[start + j]);
                let b = Lifted::known(row_evals[j], Ghost(beta(row, j as int)));
                acc = acc.plus(x.times(b));
            }
            proof {
                lemma_sum_same(
                    used as nat,
                    f,
                    |j: int| data[i as int * cols as int + j] * beta(row, j),
                );
            }
            fixed_positional.push(acc.get());
            if i < bound {
                lt.push(Lifted::<F>::one().get());
            } else {
                lt.push(Lifted::<F>::zero().get());
            }
        }
        Ok(AbsoluteSumcheck { fixed_positional, lt, column_eq })
    }

    /// The proof and the claim on the matrix, once the sumcheck has been run.
    pub fn finish_proof<F: PrimeField, P, A>(
        &self,
        sub_pos_claim: &Claim<F>,
        input_shape: &Shape,
        add_proof: A,
        sumcheck_proof: P,
        sumcheck_point: &[F],
        final_evaluations: &Vec<F>,
        extra_coordinates: &[F],
    ) -> (r: Result<(AbsoluteProof<F, P, A>, Claim<F>), Error>)
        requires
            is_matrix(self.positional.tensor),
            input_shape@.len() == 2,
            final_evaluations@.len() >= 1,
            ({
                let d = self.positional.tensor.shape@;
                let v = log2_ceil(input_shape@[1] as nat);
                &&& v <= sub_pos_claim.point@.len()
                &&& v + sumcheck_point@.len() + extra_coordinates@.len() == matrix_num_vars(d)
                &&& input_shape@[0] * pow2(extra_coordinates@.len()) <= d[0]
                &&& input_shape@[0] * d[1] == pow2(v + sumcheck_point@.len())
            }),
        ensures
            match r {
                Ok((proof, claim)) => {
                    let v = log2_ceil(input_shape@[1] as nat) as int;
                    let point = sub_pos_claim.point@.take(v) + sumcheck_point@;
                    &&& input_shape@[0] * pow2(extra_coordinates@.len())
                        == self.positional.tensor.shape@[0]
                    &&& proof.sumcheck_proof == sumcheck_proof
                    &&& proof.add_proof == add_proof
                    &&& proof.sub_matrix_evals@.len() == extra_coordinates@.len()
                    &&& is_part_evals(
                        self.positional.tensor,
                        point + extra_coordinates@,
                        point.len(),
                        proof.sub_matrix_evals@,
                    )
                    &&& follows_from(
                        point,
                        final_evaluations@[0],
                        extra_coordinates@,
                        proof.sub_matrix_evals@,
                        claim,
                    )
                },
                Err(e) => e == Error::InvalidShape && input_shape@[0] * pow2(
                    extra_coordinates@.len(),
                ) != self.positional.tensor.shape@[0],
            },
    {
        let v = ceil_log2(input_shape.dims[1]);
        let low = part(sub_pos_claim.point.as_slice(), 0, v);
        assert(low@ =~= sub_pos_claim.point@.take(v as int));
        let sub = Claim::new(joined(low.as_slice(), sumcheck_point), final_evaluations[0]);
        match bind_sub_claim_to_positional_matrix(
            &sub,
            extra_coordinates,
            &self.positional.tensor,
            input_shape.dims[0],
        ) {
            Ok((sub_matrix_evals, claim)) => {
                assert(is_matrix_claim(sub, extra_coordinates@, sub_matrix_evals@, claim));
                Ok((AbsoluteProof { sumcheck_proof, sub_matrix_evals, add_proof }, claim))
            },
            Err(e) => Err(e),
        }
    }
}

/// The claim `r` on a matrix follows from an evaluation of its first rows.
pub open spec fn follows_from<F: PrimeField>(
    point: Seq<F>,
    eval: F,
    extra: Seq<F>,
    sub_evals: Seq<F>,
    r: Claim<F>,
) -> bool {
    exists|sub: Claim<F>|
        sub.point@ == point && sub.eval == eval && #[trigger] is_matrix_claim(
            sub,
            extra,
            sub_evals,
            r,
        )
}

/// The element `eval` is `rest`, divided by `factor`.
pub open spec fn is_quotient<F: PrimeField>(eval: F, rest: int, factor: int) -> bool {
    forall|x: int| #[trigger] stands_for(eval, x) == cong(x * factor, rest, F::modulus())
}

/// The claim `r` on a matrix follows from an evaluation of its first rows that is
/// `rest`, divided by `factor`.
pub open spec fn follows_from_quotient<F: PrimeField>(
    point: Seq<F>,
    rest: int,
    factor: int,
    extra: Seq<F>,
    sub_evals: Seq<F>,
    r: Claim<F>,
) -> bool {
    exists|eval: F|
        is_quotient(eval, rest, factor) && #[trigger] follows_from(
            point,
            eval,
            extra,
            sub_evals,
            r,
        )
}

impl AbsoluteCtx {
    /// What the evaluation of the rows is multiplied by at the end of the sumcheck.
    pub open spec fn multiplier<F: PrimeField>(
        claim_point: Seq<F>,
        point: Seq<F>,
        row_vars: int,
        seq_len: int,
    ) -> int {
        let s = residues(point);
        upto(s, seq_len - 1) * identity(residues(claim_point.skip(row_vars)), s)
    }

    /// What the verifier decides: the claim on the input and the claim on the matrix, where
    /// the end of the sumcheck gives an evaluation of the rows.
    pub open spec fn decides<F: PrimeField, P, A>(
        proof: AbsoluteProof<F, P, A>,
        add_claims: Seq<Claim<F>>,
        subclaim: SubClaim<F>,
        d: Seq<usize>,
        u: Seq<usize>,
        extra_coordinates: Seq<F>,
        r: Result<(Claim<F>, Claim<F>), Error>,
    ) -> bool {
        let v = log2_ceil(d[1] as nat) as int;
        let m = F::modulus();
        let factor = Self::multiplier(add_claims[1].point@, subclaim.point@, v, u[0] as int);
        match r {
            Ok((input, positional)) => {
                &&& add_claims.len() == 2
                &&& invertible(factor % m, m)
                &&& input == add_claims[0]
                &&& follows_from_quotient(
                    add_claims[1].point@.take(v) + subclaim.point@,
                    subclaim.expected_evaluation.residue(),
                    factor,
                    extra_coordinates,
                    proof.sub_matrix_evals@,
                    positional,
                )
            },
            Err(e) => if add_claims.len() != 2 {
                e == Error::WrongNumberOfClaims
            } else {
                e == Error::ZeroDenominator && !invertible(factor % m, m)
            },
        }
    }

    /// The claim on the input and the claim on the matrix, for the claims that the
    /// addition left and the end of the sumcheck. The evaluation of the rows is what the
    /// end of the sumcheck gives for them; where it gives none, the proof is refused.
    pub fn verify<F: PrimeField, P, A>(
        &self,
        proof: &AbsoluteProof<F, P, A>,
        add_claims: Vec<Claim<F>>,
        subclaim: &SubClaim<F>,
        padded_input_shape: &Shape,
        unpadded_input_shape: &Shape,
        extra_coordinates: &[F],
    ) -> (r: Result<(Claim<F>, Claim<F>), Error>)
        requires
            padded_input_shape@.len() == 2,
            unpadded_input_shape@.len() >= 1,
            0 < unpadded_input_shape@[0] <= pow2(subclaim.point@.len()),
            add_claims@.len() == 2 ==> {
                let v = log2_ceil(padded_input_shape@[1] as nat);
                &&& add_claims@[1].point@.len() == v + subclaim.point@.len()
                &&& add_claims@[1].point@.len() + extra_coordinates@.len()
                    == self.num_vars_positional_matrix
                &&& proof.sub_matrix_evals@.len() <= v + subclaim.point@.len()
                    + extra_coordinates@.len()
            },
        ensures
            Self::decides(
                *proof,
                add_claims@,
                *subclaim,
                padded_input_shape@,
                unpadded_input_shape@,
                extra_coordinates@,
                r,
            ),
    {
        if add_claims.len() != 2 {
            return Err(Error::WrongNumberOfClaims);
        }
        let mut claims = add_claims;
        let sub_pos = claims.pop().unwrap();
        let input = claims.pop().unwrap();
        let v = ceil_log2(padded_input_shape.dims[1]);
        let low = part(sub_pos.point.as_slice(), 0, v);
        let high = part(sub_pos.point.as_slice(), v, sub_pos.point.len());
        assert(low@ =~= sub_pos.point@.take(v as int));
        assert(high@ =~= sub_pos.point@.skip(v as int));
        let ghost s = residues(subclaim.point@);
        let ghost m = F::modulus();
        let column_eq = Lifted::known(
            identity_eval(high.as_slice(), subclaim.point.as_slice()),
            Ghost(identity(residues(high@), s)),
        );
        let seq_len: usize = unpadded_input_shape.dims[0];
        let lt = Lifted::known(
            eval_bounded(subclaim.point.as_slice(), seq_len),
            Ghost(upto(s, seq_len - 1)),
        );
        let factor = lt.times(column_eq);
        let ghost fv = factor@;
        let factor_elem = factor.get();
        let inverse = match factor_elem.inverse() {
            Some(x) => x,
            None => {
                assert(!invertible(fv % m, m));
                return Err(Error::ZeroDenominator);
            },
        };
        let expected = Lifted::of(subclaim.expected_evaluation);
        let eval = expected.times(Lifted::of(inverse)).get();
        proof {
            subclaim.expected_evaluation.residue_bounds();
            assert(inverts(inverse.residue(), fv % m, m));
            assert forall|x: int| #[trigger] stands_for(eval, x) == cong(
                x * fv,
                subclaim.expected_evaluation.residue(),
                m,
            ) by {
                lemma_divide(
                    x,
                    fv,
                    inverse.residue(),
                    subclaim.expected_evaluation.residue(),
                    m,
                );
                assert(stands_for(
                    eval,
                    subclaim.expected_evaluation.residue() * inverse.residue(),
                ));
            }
        }
        let sub = Claim::new(joined(low.as_slice(), subclaim.point.as_slice()), eval);
        let positional = build_positional_matrix_claim(
            &sub,
            extra_coordinates,
            proof.sub_matrix_evals.as_slice(),
        );
        assert(is_matrix_claim(sub, extra_coordinates@, proof.sub_matrix_evals@, positional));
        assert(is_quotient(eval, subclaim.expected_evaluation.residue(), fv));
        assert(follows_from(
            add_claims@[1].point@.take(v as int) + subclaim.point@,
            eval,
            extra_coordinates@,
            proof.sub_matrix_evals@,
            positional,
        ));
        assert(follows_from_quotient(
            add_claims@[1].point@.take(v as int) + subclaim.point@,
            subclaim.expected_evaluation.residue(),
            fv,
            extra_coordinates@,
            proof.sub_matrix_evals@,
            positional,
        ));
        Ok((input, positional))
    }
}

/// What the sumcheck sums is the extension of the rows that were added: the first `n`
/// rows of the matrix, with zeros in the rows after them and in the columns from
/// `used` on.
pub proof fn law_added_rows(
    t: Seq<int>,
    masked: Seq<int>,
    used: nat,
    n: int,
    row: Seq<int>,
    col: Seq<int>,
)
    requires
        used <= pow2(row.len()),
        forall|i: int, j: int|
            0 <= i < pow2(col.len()) && 0 <= j < pow2(row.len()) ==> #[trigger] masked[i * pow2(
                row.len(),
            ) + j] == if i < n && j < used {
                t[i * pow2(row.len()) + j]
            } else {
                0
            },
    ensures
        sum(
            pow2(col.len()),
            |i: int|
                row_sum(t, pow2(row.len()) as int, used, row, i) * (if i < n {
                    1int
                } else {
                    0
                }) * beta(col, i),
        ) == mle(masked, row + col),
{
    let w = pow2(row.len());
    let m = pow2(col.len());
    lemma_mle_grid(masked, row, col);
    let f = |i: int|
        row_sum(t, w as int, used, row, i) * (if i < n {
            1int
        } else {
            0
        }) * beta(col, i);
    let g = |i: int| sum(w, |j: int| masked[i * w + j] * beta(row, j)) * beta(col, i);
    assert forall|i: int| 0 <= i < m implies #[trigger] f(i) == g(i) by {
        let h = |j: int| masked[i * w + j] * beta(row, j);
        let k = |j: int| t[i * w as int + j] * beta(row, j);
        let rest = (w - used) as nat;
        assert forall|j: int| 0 <= j < w implies #[trigger] h(j) == if i < n && j < used {
            k(j)
        } else {
            0
        } by {
            assert(masked[i * pow2(row.len()) + j] == masked[i * w + j]);
        }
        lemma_sum_split(used, rest, h);
        let tail = |j: int| h(used + j);
        lemma_sum_zero(rest, tail);
        if i < n {
            lemma_sum_same(used, h, k);
            let x = row_sum(t, w as int, used, row, i);
            assert(x * 1 == x);
        } else {
            lemma_sum_zero(used, h);
            let x = row_sum(t, w as int, used, row, i);
            assert(x * 0 == 0);
        }
    }
    lemma_sum_same(m, f, g);
}

/// Where the sumcheck of an honest prover ends, the verifier finds the evaluation of the
/// rows that the prover has: the claims of both on the matrix are the same.
pub proof fn law_honest_rows_found<F: PrimeField>(
    s: AbsoluteSumcheck<F>,
    claim_point: Seq<F>,
    row_vars: int,
    n: int,
    point: Seq<F>,
    ends: Seq<F>,
    expected: F,
    found: F,
)
    requires
        0 <= row_vars <= claim_point.len(),
        point.len() == claim_point.len() - row_vars,
        0 < n <= pow2(point.len()),
        s.lt@.len() == pow2(point.len()),
        forall|i: int|
            0 <= i < s.lt@.len() ==> stands_for(
                #[trigger] s.lt@[i],
                if i < n {
                    1
                } else {
                    0
                },
            ),
        all_stand_for(s.column_eq@, betas(residues(claim_point.skip(row_vars)))),
        ends.len() == 3,
        stands_for(ends[1], mle(residues(s.lt@), residues(point))),
        stands_for(ends[2], mle(residues(s.column_eq@), residues(point))),
        stands_for(expected, ends[0].residue() * ends[1].residue() * ends[2].residue()),
        is_quotient(
            found,
            expected.residue(),
            AbsoluteCtx::multiplier(claim_point, point, row_vars, n),
        ),
    ensures
        found.residue() == ends[0].residue(),
{
    let m = F::modulus();
    let t = residues(point);
    let e = residues(claim_point.skip(row_vars));
    let bound = Seq::new(
        pow2(point.len()),
        |i: int|
            if i < n {
                1int
            } else {
                0
            },
    );
    lemma_bounded_table(bound, t, n);
    lemma_end_cong(ends[1], s.lt@, bound, t);
    lemma_end_cong(ends[2], s.column_eq@, betas(e), t);
    lemma_mle_betas(e, t);
    let (x, a, b) = (ends[0].residue(), ends[1].residue(), ends[2].residue());
    let (up, id) = (upto(t, n - 1), identity(e, t));
    lemma_cong_times(x, x, a, up, m);
    lemma_cong_times(x * a, x * up, b, id, m);
    lemma_residue_cong(expected, x * a * b);
    assert(x * up * id == x * (up * id)) by (nonlinear_arith);
    assert(cong(x * (up * id), expected.residue(), m));
    assert(stands_for(found, x));
    ends[0].residue_bounds();
    found.residue_bounds();
    lemma_small_mod(x as nat, m as nat);
}

} // verus!
