//! The decisions of the verifier of an attention mask.
use vstd::prelude::*;
use vstd::arithmetic::power2::pow2;
use crate::attention_mask::prove::{batch_dims, can_split, input_claim, matrix_vars, split_claim, weighted, window};
use crate::attention_mask::{masked_value, AttentionMask, AttentionMaskCtx, AttentionMaskProof, AttentionSpan};
use crate::batching::{dim_points, factors};
use crate::claim::{part, Claim, SubClaim};
use crate::error::Error;
use crate::field::{all_stand_for, residues, stands_for, Lifted, PrimeField};
use crate::mle::{beta, betas, bits, compute_betas_eval, identity, identity_eval, lemma_bit_residues, to_bit_sequence_le};
use crate::shape::{ceil_log2, lemma_next_pow2, lemma_num_vars_skip, lemma_num_vars_split, log2_ceil, num_vars, numel, power_of_two, unflat, Shape};
use crate::sum::sum;
use crate::tensor::Element;
use crate::triangular::{eval_zeroifier_mle, lemma_identity_bits, lemma_shift_sum, lemma_zeroifier_bits, matrix_mle, shift_matrix, shift_sum, upto, zeroifier};

verus! {

/// The extension of the shift matrix, which is one where the row is the column
/// moved by `shift`.
pub fn eval_shift_matrix<F: PrimeField>(row_point: &[F], column_point: &[F], shift: usize) -> (r: F)
    requires
        row_point@.len() == column_point@.len(),
        pow2(row_point@.len()) <= usize::MAX,
    ensures
        stands_for(r, shift_sum(residues(row_point@), residues(column_point@), shift as int)),
        stands_for(
            r,
            matrix_mle(
                |i: int, j: int| shift_matrix(shift as int, i, j),
                residues(row_point@),
                residues(column_point@),
            ),
        ),
{
    let ghost row = residues(row_point@);
    let ghost col = residues(column_point@);
    let ghost s = shift as int;
    let ghost f = |i: int|
        if i < s {
            0
        } else {
            beta(row, i) * beta(col, i - s)
        };
    let b1 = compute_betas_eval(row_point);
    let mut acc = Lifted::<F>::zero();
    for i in 0..b1.len()
        invariant
            row == residues(row_point@),
            col == residues(column_point@),
            row.len() == col.len(),
            row_point@.len() == column_point@.len(),
            s == shift,
            f == |i: int|
                if i < s {
                    0
                } else {
                    beta(row, i) * beta(col, i - s)
                },
            all_stand_for(b1@, betas(row)),
            acc@ == sum(i as nat, f),
    {
        if i >= shift {
            let c: usize = i - shift;
            let c_bits = to_bit_sequence_le::<F>(c, column_point.len());
            let id = identity_eval(column_point, c_bits.as_slice());
            proof {
                assert(betas(row)[i as int] == beta(row, i as int));
                lemma_identity_of_bits(col, c as int, c_bits@);
            }
            let b = Lifted::known(b1[i], Ghost(beta(row, i as int)));
            let e = Lifted::known(id, Ghost(beta(col, c as int)));
            acc = acc.plus(b.times(e));
        }
    }
    proof {
        lemma_shift_sum(row, col, s);
    }
    acc.get()
}

/// The equality polynomial at the bits of an index, held as field elements, is
/// the factor of the index.
proof fn lemma_identity_of_bits<F: PrimeField>(p: Seq<int>, n: int, b: Seq<F>)
    requires
        0 <= n < pow2(p.len()),
        all_stand_for(b, bits(n, p.len())),
    ensures
        identity(p, residues(b)) == beta(p, n),
{
    lemma_bit_residues(n, p.len(), b);
    lemma_identity_bits(p, n);
}

/// What the verifier of a mask needs besides the mask and the proof.
#[derive(Debug)]
pub struct MaskVerifyingData<F> {
    /// The factors of the matrices that are not padding.
    pub batching_challenges: Vec<F>,
    /// The coordinates that the factors come from.
    pub batching_point: Vec<F>,
    /// The coordinates of the places of a matrix.
    pub eq_point: Vec<F>,
}

impl<F: PrimeField> MaskVerifyingData<F> {
    /// The data is that of a claim at `point` on a tensor of the given shapes.
    pub open spec fn belongs_to(&self, point: Seq<F>, shape: Seq<usize>, unpadded: Seq<usize>) -> bool {
        &&& self.eq_point@ == point.take(matrix_vars(shape) as int)
        &&& self.batching_point@ == point.skip(matrix_vars(shape) as int)
        &&& self.batching_challenges@.len() == numel(batch_dims(unpadded))
        &&& forall|k: int|
            0 <= k < self.batching_challenges@.len() ==> stands_for(
                #[trigger] self.batching_challenges@[k],
                factors(dim_points(shape, residues(point)), unflat(batch_dims(unpadded), k)),
            )
    }

    pub fn new(batching_challenges: Vec<F>, batching_point: Vec<F>, eq_point: Vec<F>) -> (r: Self)
        ensures
            r.batching_challenges@ == batching_challenges@,
            r.batching_point@ == batching_point@,
            r.eq_point@ == eq_point@,
    {
        MaskVerifyingData { batching_challenges, batching_point, eq_point }
    }

    /// The verifying data for a claim on the output of the mask and the shapes of
    /// its input. The claim is refused where its point does not fit the shape.
    pub fn new_from_claim_and_shape_data(
        claim: &Claim<F>,
        input_shape: &Shape,
        unpadded_input_shape: &Shape,
    ) -> (r: Result<Self, Error>)
        requires
            can_split(input_shape@, unpadded_input_shape@),
        ensures
            r is Ok <==> claim.point@.len() == num_vars(input_shape@),
            match r {
                Ok(d) => d.belongs_to(claim.point@, input_shape@, unpadded_input_shape@),
                Err(e) => e == Error::WrongPointLength,
            },
    {
        match split_claim(claim, input_shape, unpadded_input_shape) {
            Ok((challenges, batching_point, eq_point)) => Ok(
                MaskVerifyingData::new(challenges, batching_point, eq_point),
            ),
            Err(e) => Err(e),
        }
    }
}

/// The number of indices below `n`, weighted by the factors of a point.
pub open spec fn bounded(p: Seq<int>, n: int) -> int {
    upto(p, n - 1)
}

/// What the added columns of the second matrix of a local mask contribute.
pub open spec fn padding_columns(span: AttentionSpan, col: Seq<int>) -> int {
    1 - upto(col, pow2(col.len()) - window(span) - 1)
}

/// The products at the end of the sumcheck on the second matrix of a local mask.
pub open spec fn local_product(
    span: AttentionSpan,
    row: Seq<int>,
    col: Seq<int>,
    end: Seq<int>,
) -> int {
    zeroifier(row, end) * shift_sum(end, col, window(span))
}

/// What the summed polynomial of a mask sumcheck takes at its end, where the mask
/// takes the value `mask` and the inputs the values `inputs`.
pub open spec fn mask_evaluation(
    eq: int,
    lt: int,
    challenges: Seq<int>,
    inputs: Seq<int>,
    mask: int,
    neg: int,
) -> int {
    (eq * lt) * sum(
        if challenges.len() <= inputs.len() {
            challenges.len()
        } else {
            inputs.len()
        },
        |k: int| challenges[k] * masked_value(mask, inputs[k], neg),
    )
}

/// The first half of a point: the coordinates of the column.
pub open spec fn column_part<F: PrimeField>(point: Seq<F>) -> Seq<int> {
    residues(point.take(point.len() as int / 2))
}

/// The second half of a point: the coordinates of the row.
pub open spec fn row_part<F: PrimeField>(point: Seq<F>) -> Seq<int> {
    residues(point.skip(point.len() as int / 2))
}

impl AttentionMask<Element> {
    /// What the mask takes at the end of the sumcheck: the lower triangular matrix
    /// and, where the proof holds one, the evaluation of the second matrix.
    pub open spec fn mask_at<F: PrimeField, P>(
        &self,
        proof: AttentionMaskProof<F, P>,
        point: Seq<F>,
    ) -> int {
        let lower = zeroifier(column_part(point), row_part(point));
        if proof.local_mask_proof is Some {
            lower * proof.evaluations@[0].residue()
        } else {
            lower
        }
    }

    /// The evaluations of the inputs in a proof.
    pub open spec fn input_evals<F: PrimeField, P>(proof: AttentionMaskProof<F, P>) -> Seq<F> {
        if proof.local_mask_proof is Some {
            proof.evaluations@.skip(1)
        } else {
            proof.evaluations@
        }
    }

    /// What the verifier computes for the end of the sumcheck.
    pub open spec fn computed<F: PrimeField, P>(
        &self,
        proof: AttentionMaskProof<F, P>,
        data: MaskVerifyingData<F>,
        unpadded_seq_len: int,
        point: Seq<F>,
    ) -> int {
        mask_evaluation(
            identity(residues(point), residues(data.eq_point@)),
            bounded(row_part(point), unpadded_seq_len) * bounded(
                column_part(point),
                unpadded_seq_len,
            ),
            residues(data.batching_challenges@),
            residues(Self::input_evals(proof)),
            self.mask_at(proof, point),
            self.negative_infinity as int,
        )
    }

    /// Whether the second sumcheck of a local mask ends as it should.
    pub open spec fn local_accepted<F: PrimeField>(
        &self,
        point: Seq<F>,
        subclaim: SubClaim<F>,
    ) -> bool {
        stands_for(
            subclaim.expected_evaluation,
            local_product(
                self.span,
                row_part(point),
                column_part(point),
                residues(subclaim.point@),
            ),
        )
    }

    /// What the verifier decides on a proof. The claim on the input is returned
    /// where the proof has the parts that the mask calls for and the sumchecks end
    /// as they should; otherwise the first error, in the order of the checks.
    pub open spec fn decides<F: PrimeField, P>(
        &self,
        proof: AttentionMaskProof<F, P>,
        data: MaskVerifyingData<F>,
        unpadded_seq_len: nat,
        subclaim: SubClaim<F>,
        local_subclaim: Option<SubClaim<F>>,
        r: Result<Vec<Claim<F>>, Error>,
    ) -> bool {
        let point = subclaim.point@;
        let half = point.len() / 2;
        let local = proof.local_mask_proof is Some;
        let fits = half == log2_ceil(unpadded_seq_len);
        let ends = stands_for(
            subclaim.expected_evaluation,
            self.computed(proof, data, unpadded_seq_len as int, point),
        );
        let local_ends = local ==> self.local_accepted(point, local_subclaim->Some_0);
        let small = local ==> window(self.span) < pow2(half);
        match r {
            Ok(claims) => {
                &&& local ==> self.span is Local
                &&& small && local_ends && fits && ends
                &&& claims@.len() == 1
                &&& claims@[0].point@ == point + data.batching_point@
                &&& stands_for(
                    claims@[0].eval,
                    weighted(
                        residues(data.batching_challenges@),
                        residues(Self::input_evals(proof)),
                    ),
                )
            },
            Err(e) => if local && self.span is Full {
                e == Error::UnexpectedProof
            } else if !small {
                e == Error::SpanTooLarge
            } else if !local_ends {
                e == Error::EvaluationMismatch
            } else if !fits {
                e == Error::WrongPointLength
            } else {
                e == Error::EvaluationMismatch && !ends
            },
        }
    }

    /// The degree of the sumcheck that the verifier runs. A proof on the second
    /// matrix of a mask that has none is refused.
    pub fn sumcheck_degree<F: PrimeField, P>(&self, proof: &AttentionMaskProof<F, P>) -> (r: Result<
        usize,
        Error,
    >)
        ensures
            r is Ok <==> !(proof.local_mask_proof is Some && self.span is Full),
            match r {
                Ok(d) => d == if proof.local_mask_proof is Some {
                    6int
                } else {
                    5int
                },
                Err(e) => e == Error::UnexpectedProof,
            },
    {
        if proof.local_mask_proof.is_some() {
            match self.span {
                AttentionSpan::Full => Err(Error::UnexpectedProof),
                AttentionSpan::Local(_) => Ok(6),
            }
        } else {
            Ok(5)
        }
    }

    /// The bounds of the rows and of the columns at a point. They are refused
    /// where the point does not fit the padded sequence.
    pub fn evaluate_row_column_lt_polys<F: PrimeField>(
        &self,
        row_point: &[F],
        column_point: &[F],
        unpadded_seq_len: usize,
    ) -> (r: Result<(F, F), Error>)
        requires
            unpadded_seq_len >= 1,
        ensures
            r is Ok <==> row_point@.len() == log2_ceil(unpadded_seq_len as nat)
                && column_point@.len() == log2_ceil(unpadded_seq_len as nat),
            match r {
                Ok((row, col)) => {
                    &&& stands_for(row, bounded(residues(row_point@), unpadded_seq_len as int))
                    &&& stands_for(col, bounded(residues(column_point@), unpadded_seq_len as int))
                },
                Err(e) => e == Error::WrongPointLength,
            },
    {
        let bit_len = ceil_log2(unpadded_seq_len);
        if row_point.len() != bit_len || column_point.len() != bit_len {
            return Err(Error::WrongPointLength);
        }
        let seq_bits = to_bit_sequence_le::<F>(unpadded_seq_len - 1, bit_len);
        proof {
            lemma_next_pow2(unpadded_seq_len as nat);
            lemma_bit_residues(unpadded_seq_len - 1, bit_len as nat, seq_bits@);
            lemma_zeroifier_bits(residues(row_point@), unpadded_seq_len - 1);
            lemma_zeroifier_bits(residues(column_point@), unpadded_seq_len - 1);
        }
        let row = eval_zeroifier_mle(row_point, seq_bits.as_slice());
        let col = eval_zeroifier_mle(column_point, seq_bits.as_slice());
        Ok((row, col))
    }

    /// The claim that the sumcheck on the second matrix starts from: the
    /// evaluation of the matrix, less that of its added columns. It is refused for
    /// a full mask, and for a window that is not smaller than the matrix.
    pub fn additional_mask_claim<F: PrimeField>(
        &self,
        row_point: &[F],
        column_point: &[F],
        eval: F,
    ) -> (r: Result<F, Error>)
        requires
            row_point@.len() == column_point@.len(),
            pow2(row_point@.len()) <= usize::MAX,
        ensures
            match r {
                Ok(c) => {
                    &&& self.span is Local
                    &&& window(self.span) < pow2(row_point@.len())
                    &&& stands_for(
                        c,
                        eval.residue() - padding_columns(self.span, residues(column_point@)),
                    )
                },
                Err(Error::UnexpectedProof) => self.span is Full,
                Err(e) => {
                    &&& e == Error::SpanTooLarge
                    &&& self.span is Local
                    &&& window(self.span) >= pow2(row_point@.len())
                },
            },
    {
        let n: usize = match self.span {
            AttentionSpan::Full => {
                return Err(Error::UnexpectedProof);
            },
            AttentionSpan::Local(n) => n,
        };
        let seq_len = power_of_two(row_point.len());
        if n >= seq_len {
            return Err(Error::SpanTooLarge);
        }
        let pad_bits = to_bit_sequence_le::<F>(seq_len - n - 1, column_point.len());
        proof {
            lemma_bit_residues(seq_len - n - 1, column_point@.len(), pad_bits@);
            lemma_zeroifier_bits(residues(column_point@), seq_len - n - 1);
        }
        let z = eval_zeroifier_mle(column_point, pad_bits.as_slice());
        let z = Lifted::known(z, Ghost(upto(residues(column_point@), seq_len - n - 1)));
        let padded_eval = Lifted::one().minus(z);
        Ok(Lifted::of(eval).minus(padded_eval).get())
    }

    /// Checks the end of the sumcheck on the second matrix.
    pub fn verify_additional_mask_poly_eval<F: PrimeField>(
        &self,
        row_point: &[F],
        column_point: &[F],
        subclaim: &SubClaim<F>,
    ) -> (r: Result<(), Error>)
        requires
            row_point@.len() == column_point@.len(),
            subclaim.point@.len() == row_point@.len(),
            pow2(row_point@.len()) <= usize::MAX,
        ensures
            match r {
                Ok(_) => {
                    &&& self.span is Local
                    &&& window(self.span) < pow2(row_point@.len())
                    &&& stands_for(
                        subclaim.expected_evaluation,
                        local_product(
                            self.span,
                            residues(row_point@),
                            residues(column_point@),
                            residues(subclaim.point@),
                        ),
                    )
                },
                Err(Error::UnexpectedProof) => self.span is Full,
                Err(Error::SpanTooLarge) => {
                    &&& self.span is Local
                    &&& window(self.span) >= pow2(row_point@.len())
                },
                Err(e) => {
                    &&& e == Error::EvaluationMismatch
                    &&& self.span is Local
                    &&& window(self.span) < pow2(row_point@.len())
                    &&& !stands_for(
                        subclaim.expected_evaluation,
                        local_product(
                            self.span,
                            residues(row_point@),
                            residues(column_point@),
                            residues(subclaim.point@),
                        ),
                    )
                },
            },
    {
        let n: usize = match self.span {
            AttentionSpan::Full => {
                return Err(Error::UnexpectedProof);
            },
            AttentionSpan::Local(n) => n,
        };
        let seq_len = power_of_two(row_point.len());
        if n >= seq_len {
            return Err(Error::SpanTooLarge);
        }
        let ghost row = residues(row_point@);
        let ghost col = residues(column_point@);
        let ghost end = residues(subclaim.point@);
        let upper = eval_zeroifier_mle(row_point, subclaim.point.as_slice());
        let shift = eval_shift_matrix(subclaim.point.as_slice(), column_point, n);
        let u = Lifted::known(upper, Ghost(zeroifier(row, end)));
        let s = Lifted::known(shift, Ghost(shift_sum(end, col, n as int)));
        let calc = u.times(s).get();
        if calc.is_same(subclaim.expected_evaluation) {
            Ok(())
        } else {
            Err(Error::EvaluationMismatch)
        }
    }

    /// Decides on a proof, once the verifier has run the sumchecks: the one on the
    /// mask left `subclaim`, and the one on the second matrix, where the proof has
    /// one, left `local_subclaim`. Where the proof is accepted, the claim on the
    /// input is returned.
    pub fn verify_internal<F: PrimeField, P>(
        &self,
        proof: &AttentionMaskProof<F, P>,
        data: &MaskVerifyingData<F>,
        unpadded_seq_len: usize,
        subclaim: &SubClaim<F>,
        local_subclaim: &Option<SubClaim<F>>,
    ) -> (r: Result<Vec<Claim<F>>, Error>)
        requires
            unpadded_seq_len >= 1,
            subclaim.point@.len() == data.eq_point@.len(),
            subclaim.point@.len() % 2 == 0,
            pow2(subclaim.point@.len() / 2) <= usize::MAX,
            proof.local_mask_proof is Some ==> {
                &&& proof.evaluations@.len() > 0
                &&& local_subclaim is Some
                &&& local_subclaim->Some_0.point@.len() == subclaim.point@.len() / 2
            },
        ensures
            self.decides(
                *proof,
                *data,
                unpadded_seq_len as nat,
                *subclaim,
                *local_subclaim,
                r,
            ),
    {
        match self.sumcheck_degree(proof) {
            Ok(_) => {},
            Err(e) => {
                return Err(e);
            },
        }
        let local = proof.local_mask_proof.is_some();
        let half: usize = subclaim.point.len() / 2;
        let column_point = part(subclaim.point.as_slice(), 0, half);
        let row_point = part(subclaim.point.as_slice(), half, subclaim.point.len());
        assert(column_point@ =~= subclaim.point@.take(half as int));
        assert(row_point@ =~= subclaim.point@.skip(half as int));
        let ghost row = residues(row_point@);
        let ghost col = residues(column_point@);
        let eq = identity_eval(subclaim.point.as_slice(), data.eq_point.as_slice());
        let eq = Lifted::known(
            eq,
            Ghost(identity(residues(subclaim.point@), residues(data.eq_point@))),
        );
        let lower = eval_zeroifier_mle(column_point.as_slice(), row_point.as_slice());
        let mut mask = Lifted::known(lower, Ghost(zeroifier(col, row)));
        let mut offset: usize = 0;
        if local {
            mask = mask.times(Lifted::of(proof.evaluations[0]));
            offset = 1;
            match local_subclaim {
                Some(s) => {
                    match self.verify_additional_mask_poly_eval(
                        row_point.as_slice(),
                        column_point.as_slice(),
                        s,
                    ) {
                        Ok(_) => {},
                        Err(e) => {
                            return Err(e);
                        },
                    }
                },
                None => {},
            }
        }
        let inputs = part(proof.evaluations.as_slice(), offset, proof.evaluations.len());
        assert(inputs@ =~= Self::input_evals(*proof));
        let (row_lt, column_lt) = match self.evaluate_row_column_lt_polys(
            row_point.as_slice(),
            column_point.as_slice(),
            unpadded_seq_len,
        ) {
            Ok(v) => v,
            Err(e) => {
                return Err(e);
            },
        };
        let row_lt = Lifted::known(row_lt, Ghost(bounded(row, unpadded_seq_len as int)));
        let column_lt = Lifted::known(column_lt, Ghost(bounded(col, unpadded_seq_len as int)));
        let lt = row_lt.times(column_lt);
        let neg = Lifted::<F>::of_i64(self.negative_infinity);
        let one = Lifted::<F>::one();
        let ghost c = residues(data.batching_challenges@);
        let ghost e = residues(inputs@);
        let ghost f = |k: int| c[k] * masked_value(mask@, e[k], neg@);
        let n: usize = if data.batching_challenges.len() <= inputs.len() {
            data.batching_challenges.len()
        } else {
            inputs.len()
        };
        let mut acc = Lifted::<F>::zero();
        for k in 0..n
            invariant
                n <= data.batching_challenges@.len(),
                n <= inputs@.len(),
                c == residues(data.batching_challenges@),
                e == residues(inputs@),
                one@ == 1,
                f == |k: int| c[k] * masked_value(mask@, e[k], neg@),
                acc@ == sum(k as nat, f),
        {
            let value = mask.times(Lifted::of(inputs[k])).plus(neg.times(one.minus(mask)));
            acc = acc.plus(Lifted::of(data.batching_challenges[k]).times(value));
        }
        let calc = eq.times(lt).times(acc).get();
        if !calc.is_same(subclaim.expected_evaluation) {
            return Err(Error::EvaluationMismatch);
        }
        let claim = input_claim(
            data.batching_challenges.as_slice(),
            data.batching_point.as_slice(),
            subclaim.point.as_slice(),
            inputs.as_slice(),
        );
        let mut claims: Vec<Claim<F>> = Vec::new();
        claims.push(claim);
        Ok(claims)
    }
}

impl<F: PrimeField> AttentionMaskCtx<F> {
    /// Decides on the proof of a mask, given the shapes of its input and the claim
    /// on its output.
    pub fn verify<P>(
        &self,
        proof: &AttentionMaskProof<F, P>,
        last_claims: &Vec<Claim<F>>,
        padded_input_shapes: &Vec<Shape>,
        unpadded_input_shapes: &Vec<Shape>,
        subclaim: &SubClaim<F>,
        local_subclaim: &Option<SubClaim<F>>,
    ) -> (r: Result<Vec<Claim<F>>, Error>)
        requires
            padded_input_shapes@.len() == 1 && padded_input_shapes@[0]@.len() >= 2 ==> {
                let shape = padded_input_shapes@[0]@;
                let unpadded = unpadded_input_shapes@[0]@;
                &&& unpadded_input_shapes@.len() > 0
                &&& can_split(shape, unpadded)
                &&& unpadded.last() > 0
                &&& matrix_vars(shape) % 2 == 0
                &&& subclaim.point@.len() == matrix_vars(shape)
                &&& pow2(matrix_vars(shape) / 2) <= usize::MAX
            },
            proof.local_mask_proof is Some ==> {
                &&& proof.evaluations@.len() > 0
                &&& local_subclaim is Some
                &&& local_subclaim->Some_0.point@.len() == subclaim.point@.len() / 2
            },
        ensures
            if padded_input_shapes@.len() != 1 {
                r == Err::<Vec<Claim<F>>, Error>(Error::WrongNumberOfInputs)
            } else if padded_input_shapes@[0]@.len() < 2 {
                r == Err::<Vec<Claim<F>>, Error>(Error::InvalidShape)
            } else if last_claims@.len() != 1 {
                r == Err::<Vec<Claim<F>>, Error>(Error::WrongNumberOfClaims)
            } else if last_claims@[0].point@.len() != num_vars(padded_input_shapes@[0]@) {
                r == Err::<Vec<Claim<F>>, Error>(Error::WrongPointLength)
            } else {
                exists|data: MaskVerifyingData<F>|
                    #[trigger] data.belongs_to(
                        last_claims@[0].point@,
                        padded_input_shapes@[0]@,
                        unpadded_input_shapes@[0]@,
                    ) && self.op.decides(
                        *proof,
                        data,
                        unpadded_input_shapes@[0]@.last() as nat,
                        *subclaim,
                        *local_subclaim,
                        r,
                    )
            },
    {
        if padded_input_shapes.len() != 1 {
            return Err(Error::WrongNumberOfInputs);
        }
        if padded_input_shapes[0].rank() < 2 {
            return Err(Error::InvalidShape);
        }
        if last_claims.len() != 1 {
            return Err(Error::WrongNumberOfClaims);
        }
        let shape = &padded_input_shapes[0];
        let unpadded = &unpadded_input_shapes[0];
        let data = match MaskVerifyingData::new_from_claim_and_shape_data(
            &last_claims[0],
            shape,
            unpadded,
        ) {
            Ok(d) => d,
            Err(e) => {
                return Err(e);
            },
        };
        proof {
            lemma_num_vars_split(shape@, shape@.len() - 2);
            lemma_num_vars_skip(shape@, shape@.len() - 2);
            lemma_num_vars_skip(shape@, shape@.len() - 1);
            assert(shape@.skip(shape@.len() as int).len() == 0);
        }
        let unpadded_seq_len: usize = unpadded.dims[unpadded.rank() - 1];
        self.op.verify_internal(proof, &data, unpadded_seq_len, subclaim, local_subclaim)
    }
}

} // verus!
