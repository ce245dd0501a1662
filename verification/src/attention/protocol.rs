//! The steps by which a mask is proved and verified.
use vstd::prelude::*;
use vstd::arithmetic::power2::{lemma_pow2_adds, lemma_pow2_pos, lemma_pow2_strictly_increases, pow2};
use crate::attention::attention_mask::{batch_refusal, build_sumcheck_expression, can_batch, can_batch_shapes, is_input_claims, lt_table, masked_count, preamble_refusal, split_points, summand, AttentionMask, AttentionMaskCtx, AttentionMaskProof, MaskProvingData, MaskVerifyingData};
use crate::claim::{Claim, SubClaim};
use crate::error::Error;
use crate::field::{all_stand_for, stands_for, PrimeField};
use crate::shape::{ceil_log2, lemma_log2_pow2, log2_ceil, power_of_two, Shape};
use crate::tensor::{copied, Element, Tensor};

verus! {

/// The tables of the sumcheck: the factors of the point, the mask and the matrices.
pub open spec fn is_mask_tables<F: PrimeField>(
    mask: AttentionMask<Element>,
    data: MaskProvingData<F>,
    tables: Seq<Vec<F>>,
) -> bool {
    let side = pow2(log2_ceil(data.eq_evals@.len()) / 2);
    &&& tables.len() == 2 + data.input_polys@.len()
    &&& tables[0]@ == data.eq_evals@
    &&& tables[1]@.len() == side * side
    &&& all_stand_for(tables[1]@, lt_table(mask.span, side))
    &&& forall|k: int|
        0 <= k < data.input_polys@.len() ==> (#[trigger] tables[2 + k])@ == data.input_polys@[k]@
}

impl AttentionMask<Element> {
    /// The tables of the sumcheck. As many expressions are used as there are matrices.
    pub fn prove_internal<F: PrimeField>(&self, data: &MaskProvingData<F>) -> (r: Vec<Vec<F>>)
        requires
            pow2(log2_ceil(data.eq_evals@.len()) / 2) * pow2(log2_ceil(data.eq_evals@.len()) / 2)
                <= usize::MAX,
        ensures
            is_mask_tables(*self, *data, r@),
    {
        let num_vars = ceil_log2(data.eq_evals.len());
        let ghost side = pow2((num_vars / 2) as nat);
        proof {
            lemma_pow2_pos((num_vars / 2) as nat);
            assert(side <= side * side) by (nonlinear_arith)
                requires
                    side >= 1,
            ;
        }
        let lt = self.make_lt_poly::<F>(power_of_two(num_vars / 2));
        let mut r: Vec<Vec<F>> = Vec::new();
        r.push(copied(&data.eq_evals));
        r.push(lt);
        for k in 0..data.input_polys.len()
            invariant
                r@.len() == 2 + k,
                r@[0]@ == data.eq_evals@,
                r@[1] == lt,
                forall|i: int|
                    0 <= i < k ==> (#[trigger] r@[2 + i])@ == data.input_polys@[i]@,
        {
            let t = copied(&data.input_polys[k]);
            let ghost before = r@;
            r.push(t);
            assert forall|i: int| 0 <= i < k + 1 implies (#[trigger] r@[2 + i])@
                == data.input_polys@[i]@ by {
                if i < k {
                    assert(r@[2 + i] == before[2 + i]);
                }
            }
        }
        r
    }

    /// The data and the tables of the sumcheck, for claims on the output of the mask and
    /// its single input.
    pub fn prove<F: PrimeField>(
        &self,
        last_claims: &Vec<Claim<F>>,
        inputs: &Vec<Tensor<F>>,
        unpadded_input_shape: &Shape,
        unpadded_output_shapes: &Vec<Shape>,
        drawn: &Vec<F>,
    ) -> (r: Result<(MaskProvingData<F>, Vec<Vec<F>>), Error>)
        requires
            unpadded_output_shapes@.len() == 1 ==> unpadded_output_shapes@[0]@.len() >= 2
                && masked_count(unpadded_output_shapes@[0]@) <= usize::MAX,
            inputs@.len() == 1 ==> can_batch(
                last_claims@,
                inputs@[0],
                unpadded_input_shape@,
                drawn@,
            ),
        ensures
            match r {
                Ok((data, tables)) => {
                    &&& inputs@.len() == 1
                    &&& preamble_refusal(last_claims@, unpadded_output_shapes@) is None
                    &&& batch_refusal(last_claims@, inputs@[0].shape@, unpadded_input_shape@) is None
                    &&& data.belongs_to(last_claims@, inputs@[0], unpadded_input_shape@, drawn@)
                    &&& is_mask_tables(*self, data, tables@)
                },
                Err(e) => if inputs@.len() != 1 {
                    e == Error::WrongNumberOfInputs
                } else {
                    match preamble_refusal(last_claims@, unpadded_output_shapes@) {
                        Some(x) => e == x,
                        None => batch_refusal(
                            last_claims@,
                            inputs@[0].shape@,
                            unpadded_input_shape@,
                        ) == Some(e),
                    }
                },
            },
    {
        if inputs.len() != 1 {
            return Err(Error::WrongNumberOfInputs);
        }
        let data = match MaskProvingData::from_claims_and_input(
            last_claims,
            &inputs[0],
            unpadded_input_shape,
            unpadded_output_shapes,
            drawn,
        ) {
            Ok(d) => d,
            Err(e) => {
                return Err(e);
            },
        };
        proof {
            let (eq, batch) = split_points(last_claims@, inputs@[0].shape@, drawn@);
            lemma_side(eq.len());
        }
        let tables = self.prove_internal(&data);
        Ok((data, tables))
    }

    /// What the verifier has to know of the mask, for its single input shape.
    pub fn step_info<F: PrimeField>(&self, id: usize, last_output_shape: &Vec<Shape>) -> (r: Result<
        AttentionMaskCtx<F>,
        Error,
    >)
        requires
            last_output_shape@.len() == 1 && last_output_shape@[0]@.len() > 2 ==> masked_count(
                last_output_shape@[0]@,
            ) + 2 <= 0x1_0000,
        ensures
            match r {
                Ok(ctx) => {
                    &&& last_output_shape@.len() == 1
                    &&& ctx.op == *self
                    &&& ctx.node_id == id
                    &&& ctx.sumcheck_expression@.len() == if last_output_shape@[0]@.len() > 2 {
                        masked_count(last_output_shape@[0]@) as int
                    } else {
                        1
                    }
                    &&& forall|k: int, w: Seq<int>, c: Seq<int>|
                        0 <= k < ctx.sumcheck_expression@.len()
                            ==> #[trigger] ctx.sumcheck_expression@[k].value(w, c) == summand(
                            w,
                            c,
                            last_output_shape@[0]@.len() > 2,
                            self.negative_infinity as int % F::modulus(),
                            k,
                        )
                },
                Err(e) => e == Error::WrongNumberOfInputs && last_output_shape@.len() != 1,
            },
    {
        if last_output_shape.len() != 1 {
            return Err(Error::WrongNumberOfInputs);
        }
        let expression = build_sumcheck_expression::<F>(
            &last_output_shape[0],
            self.negative_infinity,
        );
        let op = AttentionMask {
            dim_size: self.dim_size,
            span: self.span,
            negative_infinity: self.negative_infinity,
        };
        Ok(AttentionMaskCtx::new(op, expression, id))
    }
}

/// The side of a matrix of the factors of a point, squared, is at most their number.
proof fn lemma_side(v: nat)
    ensures
        pow2(log2_ceil(pow2(v)) / 2) * pow2(log2_ceil(pow2(v)) / 2) <= pow2(v),
        log2_ceil(pow2(v)) == v,
{
    lemma_log2_pow2(v);
    lemma_pow2_adds(v / 2, v / 2);
    if v / 2 + v / 2 < v {
        lemma_pow2_strictly_increases(v / 2 + v / 2, v);
    }
}

impl<F: PrimeField> AttentionMaskCtx<F> {
    /// Why the shapes or the claims are refused, if they are.
    pub open spec fn refusal(
        claims: Seq<Claim<F>>,
        input_shapes: Seq<Shape>,
        unpadded_input_shape: Seq<usize>,
        unpadded_output_shapes: Seq<Shape>,
    ) -> Option<Error> {
        if input_shapes.len() != 1 {
            Some(Error::WrongNumberOfInputs)
        } else if input_shapes[0]@.len() < 2 {
            Some(Error::InvalidShape)
        } else if preamble_refusal(claims, unpadded_output_shapes) is Some {
            preamble_refusal(claims, unpadded_output_shapes)
        } else {
            batch_refusal(claims, input_shapes[0]@, unpadded_input_shape)
        }
    }

    /// Decides on a proof, for the claims on the output and the end of the sumcheck.
    /// `data` is what the claims and the shapes fix. Where the proof is accepted, the claims
    /// on the input are returned.
    pub fn verify<P>(
        &self,
        proof: &AttentionMaskProof<F, P>,
        last_claims: &Vec<Claim<F>>,
        subclaim: &SubClaim<F>,
        input_shapes: &Vec<Shape>,
        unpadded_input_shape: &Shape,
        unpadded_output_shapes: &Vec<Shape>,
        drawn: &Vec<F>,
    ) -> (r: Result<(MaskVerifyingData<F>, Vec<Claim<F>>), Error>)
        requires
            unpadded_output_shapes@.len() == 1 ==> unpadded_output_shapes@[0]@.len() >= 2
                && masked_count(unpadded_output_shapes@[0]@) <= usize::MAX,
            input_shapes@.len() == 1 ==> can_batch_shapes(
                last_claims@,
                input_shapes@[0]@,
                unpadded_input_shape@,
                drawn@,
            ),
            Self::refusal(
                last_claims@,
                input_shapes@,
                unpadded_input_shape@,
                unpadded_output_shapes@,
            ) is None ==> {
                let eq = split_points(last_claims@, input_shapes@[0]@, drawn@).0;
                subclaim.point@.len() == eq.len() && eq.len() % 2 == 0
            },
        ensures
            ({
                let refused = Self::refusal(
                    last_claims@,
                    input_shapes@,
                    unpadded_input_shape@,
                    unpadded_output_shapes@,
                );
                match r {
                    Ok((data, claims)) => {
                        &&& refused is None
                        &&& data.belongs_to(
                            last_claims@,
                            input_shapes@[0]@,
                            unpadded_input_shape@,
                            drawn@,
                        )
                        &&& stands_for(
                            subclaim.expected_evaluation,
                            self.op.computed(data, proof.evaluations@, subclaim.point@),
                        )
                        &&& is_input_claims(
                            last_claims@.len() as int,
                            data.batching_challenges@,
                            data.batching_point@,
                            subclaim.point@,
                            proof.evaluations@,
                            claims@,
                        )
                    },
                    Err(e) => match refused {
                        Some(x) => e == x,
                        None => e == Error::EvaluationMismatch && self.fails(
                            *proof,
                            last_claims@,
                            *subclaim,
                            input_shapes@[0]@,
                            unpadded_input_shape@,
                            drawn@,
                        ),
                    },
                }
            }),
    {
        if input_shapes.len() != 1 {
            return Err(Error::WrongNumberOfInputs);
        }
        if input_shapes[0].rank() < 2 {
            return Err(Error::InvalidShape);
        }
        let data = match MaskVerifyingData::new_from_claims_and_shape_data(
            last_claims,
            &input_shapes[0],
            unpadded_input_shape,
            unpadded_output_shapes,
            drawn,
        ) {
            Ok(d) => d,
            Err(e) => {
                return Err(e);
            },
        };
        match self.op.verify_internal(proof, last_claims.len(), &data, subclaim) {
            Ok(claims) => Ok((data, claims)),
            Err(e) => {
                assert(self.ends_elsewhere(data, *proof, *subclaim));
                Err(e)
            },
        }
    }

    /// The sumcheck does not end on what the verifier computes.
    pub open spec fn ends_elsewhere<P>(
        &self,
        data: MaskVerifyingData<F>,
        proof: AttentionMaskProof<F, P>,
        subclaim: SubClaim<F>,
    ) -> bool {
        !stands_for(
            subclaim.expected_evaluation,
            self.op.computed(data, proof.evaluations@, subclaim.point@),
        )
    }

    /// For the data that the claims and the shapes fix, the sumcheck does not end on what
    /// the verifier computes.
    pub open spec fn fails<P>(
        &self,
        proof: AttentionMaskProof<F, P>,
        claims: Seq<Claim<F>>,
        subclaim: SubClaim<F>,
        d: Seq<usize>,
        u: Seq<usize>,
        drawn: Seq<F>,
    ) -> bool {
        exists|data: MaskVerifyingData<F>|
            data.belongs_to(claims, d, u, drawn) && #[trigger] self.ends_elsewhere(
                data,
                proof,
                subclaim,
            )
    }
}

} // verus!
