//! The claims that the sumcheck of the layer leaves, and the decision on it.
use vstd::prelude::*;
use crate::claim::{Claim, SubClaim};
use crate::error::Error;
use crate::field::{stands_for, Lifted, PrimeField};
use crate::qkv::prove::{build_points, split_claim_point, virtual_claim, QKVProof};
use crate::qkv::{QKVCtx, QKV};
use crate::shape::{ilog2, log2_floor, Shape};
use crate::sum::sum;
use crate::tensor::Element;

verus! {

/// A claim on a committed polynomial: its name, the point and the value.
pub open spec fn named<F>(c: (String, Claim<F>)) -> (Seq<char>, Seq<F>, F) {
    (c.0@, c.1.point@, c.1.eval)
}

/// Claims on committed polynomials.
pub open spec fn all_named<F>(v: Seq<(String, Claim<F>)>) -> Seq<(Seq<char>, Seq<F>, F)> {
    Seq::new(v.len(), |i: int| named(v[i]))
}

/// The claim on a bias, where there is a claim and a name.
pub open spec fn bias_entry<F>(key: Option<String>, claims: Seq<Option<Claim<F>>>, i: int) -> Seq<
    (Seq<char>, Seq<F>, F),
> {
    if i < claims.len() {
        match (key, claims[i]) {
            (Some(k), Some(c)) => seq![(k@, c.point@, c.eval)],
            _ => seq![],
        }
    } else {
        seq![]
    }
}

impl QKVCtx {
    /// The claims on the matrices and biases that are committed to.
    pub open spec fn common_claims<F>(
        &self,
        last_claims: Seq<Claim<F>>,
        cols: int,
        point: Seq<F>,
        pairs: Seq<(F, F)>,
        bias_claims: Seq<Option<Claim<F>>>,
    ) -> Seq<(Seq<char>, Seq<F>, F)> {
        seq![
            (self.q_weight_key@, last_claims[0].point@.take(cols) + point, pairs[0].1),
            (self.k_weight_key@, last_claims[1].point@.take(cols) + point, pairs[1].1),
            (self.v_weight_key@, last_claims[2].point@.take(cols) + point, pairs[2].1),
        ] + bias_entry(self.q_bias_key, bias_claims, 0) + bias_entry(
            self.k_bias_key,
            bias_claims,
            1,
        ) + bias_entry(self.v_bias_key, bias_claims, 2)
    }

    /// The name of the bias of an output.
    pub open spec fn bias_key(&self, i: int) -> Option<String> {
        if i == 0 {
            self.q_bias_key
        } else if i == 1 {
            self.k_bias_key
        } else {
            self.v_bias_key
        }
    }

    /// The claims on the input, and those on the matrices and biases, that are left
    /// once the sumcheck has been run to `point` with the evaluations `pairs`.
    pub fn claims_after_sumcheck<F: PrimeField>(
        &self,
        last_claims: &Vec<Claim<F>>,
        output_num_vars: (usize, usize),
        point: &[F],
        pairs: &[(F, F); 3],
        bias_claims: Vec<Option<Claim<F>>>,
    ) -> (r: Result<(Vec<Claim<F>>, Vec<(String, Claim<F>)>), Error>)
        requires
            last_claims@.len() == 3,
            output_num_vars.0 + output_num_vars.1 <= usize::MAX,
            bias_claims@.len() <= 3,
        ensures
            ({
                let vars = output_num_vars.0 + output_num_vars.1;
                let fits = forall|i: int|
                    0 <= i < 3 ==> (#[trigger] last_claims@[i]).point@.len() == vars;
                match r {
                    Ok((input_claims, common)) => {
                        &&& fits
                        &&& is_input_claims(
                            input_claims@,
                            last_claims@,
                            output_num_vars.1 as int,
                            point@,
                            pairs@,
                        )
                        &&& all_named(common@) == self.common_claims(
                            last_claims@,
                            output_num_vars.1 as int,
                            point@,
                            pairs@,
                            bias_claims@,
                        )
                    },
                    Err(e) => e == Error::WrongPointLength && !fits,
                }
            }),
    {
        let mut input_claims: Vec<Claim<F>> = Vec::new();
        let mut common: Vec<(String, Claim<F>)> = Vec::new();
        let (i0, w0) = match build_points(last_claims[0].point.as_slice(), point, output_num_vars) {
            Ok(p) => p,
            Err(e) => {
                return Err(e);
            },
        };
        let (i1, w1) = match build_points(last_claims[1].point.as_slice(), point, output_num_vars) {
            Ok(p) => p,
            Err(e) => {
                return Err(e);
            },
        };
        let (i2, w2) = match build_points(last_claims[2].point.as_slice(), point, output_num_vars) {
            Ok(p) => p,
            Err(e) => {
                return Err(e);
            },
        };
        input_claims.push(Claim::new(i0, pairs[0].0));
        input_claims.push(Claim::new(i1, pairs[1].0));
        input_claims.push(Claim::new(i2, pairs[2].0));
        common.push((self.q_weight_key.clone(), Claim::new(w0, pairs[0].1)));
        common.push((self.k_weight_key.clone(), Claim::new(w1, pairs[1].1)));
        common.push((self.v_weight_key.clone(), Claim::new(w2, pairs[2].1)));
        let ghost all = bias_claims@;
        let ghost cols = output_num_vars.1 as int;
        let ghost start = self.common_claims(last_claims@, cols, point@, pairs@, seq![]);
        assert(all_named(common@) =~= start);
        let mut rest = bias_claims;
        let n: usize = rest.len();
        let third = if n == 3 {
            rest.pop().unwrap()
        } else {
            None
        };
        let second = if n >= 2 {
            rest.pop().unwrap()
        } else {
            None
        };
        let first = if n >= 1 {
            rest.pop().unwrap()
        } else {
            None
        };
        push_entry(&mut common, &self.q_bias_key, first, Ghost(all), Ghost(0));
        push_entry(&mut common, &self.k_bias_key, second, Ghost(all), Ghost(1));
        push_entry(&mut common, &self.v_bias_key, third, Ghost(all), Ghost(2));
        assert(all_named(common@) =~= self.common_claims(last_claims@, cols, point@, pairs@, all));
        Ok((input_claims, common))
    }
}

/// Adds the claim on a bias, where there is a claim and a name.
fn push_entry<F>(
    common: &mut Vec<(String, Claim<F>)>,
    key: &Option<String>,
    claim: Option<Claim<F>>,
    Ghost(all): Ghost<Seq<Option<Claim<F>>>>,
    Ghost(i): Ghost<int>,
)
    requires
        0 <= i,
        claim == if i < all.len() {
            all[i]
        } else {
            None
        },
    ensures
        all_named(final(common)@) == all_named(old(common)@) + bias_entry(*key, all, i),
{
    let ghost before = common@;
    match (key, claim) {
        (Some(k), Some(c)) => {
            common.push((k.clone(), c));
        },
        _ => {},
    }
    assert(all_named(common@) =~= all_named(before) + bias_entry(*key, all, i));
}

/// The claims on the input that the sumcheck leaves.
pub open spec fn is_input_claims<F>(
    claims: Seq<Claim<F>>,
    last_claims: Seq<Claim<F>>,
    cols: int,
    point: Seq<F>,
    pairs: Seq<(F, F)>,
) -> bool {
    &&& claims.len() == 3
    &&& forall|i: int|
        0 <= i < 3 ==> (#[trigger] claims[i]).point@ == point + last_claims[i].point@.skip(cols)
    &&& forall|i: int| 0 <= i < 3 ==> (#[trigger] claims[i]).eval == pairs[i].0
}

impl QKV<Element> {
    /// The proof, once the sumcheck has been run and the claims on the input have
    /// been aggregated.
    pub fn finish_proof<F: PrimeField, P, A>(
        sumcheck: P,
        aggregation_proof: A,
        pre_bias_evals: Vec<F>,
        individual_claims: [(F, F); 3],
    ) -> (r: QKVProof<F, P, A>)
        ensures
            r.sumcheck == sumcheck,
            r.aggregation_proof == aggregation_proof,
            r.pre_bias_evals == pre_bias_evals,
            r.individual_claims == individual_claims,
    {
        QKVProof { sumcheck, aggregation_proof, pre_bias_evals, individual_claims }
    }

    /// The final evaluations of the tables, in pairs of input and matrix.
    pub fn evaluation_pairs<F: PrimeField>(final_evaluations: &Vec<F>) -> (r: [(F, F); 3])
        requires
            final_evaluations@.len() == 6,
        ensures
            forall|i: int|
                0 <= i < 3 ==> #[trigger] r@[i] == (
                    final_evaluations@[2 * i],
                    final_evaluations@[2 * i + 1],
                ),
    {
        [
            (final_evaluations[0], final_evaluations[1]),
            (final_evaluations[2], final_evaluations[3]),
            (final_evaluations[4], final_evaluations[5]),
        ]
    }
}

/// The claim on a bias that the verifier derives from a claim on an output and its
/// value without the bias.
pub open spec fn derives_bias<F: PrimeField>(
    key: Option<String>,
    claim: Claim<F>,
    pre_bias: F,
    cols: int,
    r: Option<Claim<F>>,
) -> bool {
    match (key, r) {
        (Some(_), Some(c)) => {
            &&& c.point@ == claim.point@.take(cols)
            &&& stands_for(c.eval, claim.eval.residue() - pre_bias.residue())
        },
        (None, None) => true,
        _ => false,
    }
}

/// The smaller of a length and three.
pub open spec fn upto_three(n: nat) -> nat {
    if n < 3 {
        n
    } else {
        3
    }
}

/// The claim on the bias of an output, where there is a bias.
fn derive_bias<F: PrimeField>(
    key: &Option<String>,
    claim: &Claim<F>,
    pre_bias: F,
    vars: (usize, usize),
) -> (r: Result<Option<Claim<F>>, Error>)
    requires
        vars.0 + vars.1 <= usize::MAX,
    ensures
        match r {
            Ok(c) => derives_bias(*key, *claim, pre_bias, vars.1 as int, c),
            Err(e) => e == Error::WrongPointLength && claim.point@.len() != vars.0 + vars.1,
        },
{
    if key.is_some() {
        let eval = Lifted::of(claim.eval).minus(Lifted::of(pre_bias)).get();
        match split_claim_point(claim.point.as_slice(), vars) {
            Ok((_row, col)) => Ok(Some(Claim::new(col, eval))),
            Err(e) => Err(e),
        }
    } else {
        Ok(None)
    }
}

impl QKVCtx {
    /// The sum that the sumcheck has to start from.
    pub fn batched_evaluation<F: PrimeField>(&self, pre_bias_evals: &Vec<F>, challenges: &[F]) -> (r:
        F)
        requires
            challenges@.len() == 3,
        ensures
            stands_for(
                r,
                sum(
                    upto_three(pre_bias_evals@.len()),
                    |i: int| pre_bias_evals@[i].residue() * challenges@[i].residue(),
                ),
            ),
    {
        let n: usize = if pre_bias_evals.len() < 3 {
            pre_bias_evals.len()
        } else {
            3
        };
        let ghost f = |i: int| pre_bias_evals@[i].residue() * challenges@[i].residue();
        let mut acc = Lifted::<F>::zero();
        for i in 0..n
            invariant
                n <= pre_bias_evals@.len(),
                n <= challenges@.len(),
                f == |i: int| pre_bias_evals@[i].residue() * challenges@[i].residue(),
                acc@ == sum(i as nat, f),
        {
            acc = acc.plus(Lifted::of(pre_bias_evals[i]).times(Lifted::of(challenges[i])));
        }
        acc.get()
    }

    /// Why a proof is refused, if it is.
    pub open spec fn refusal<F: PrimeField, P, A>(
        &self,
        proof: QKVProof<F, P, A>,
        last_claims: Seq<Claim<F>>,
        padded_input_shapes: Seq<Shape>,
        padded_output_shapes: Seq<Shape>,
        challenges: Seq<F>,
        subclaim: SubClaim<F>,
    ) -> Option<Error> {
        let vars = log2_floor(padded_output_shapes[0]@[0] as nat) + log2_floor(
            padded_output_shapes[0]@[1] as nat,
        );
        if padded_input_shapes.len() != 1 {
            Some(Error::WrongNumberOfInputs)
        } else if padded_output_shapes.len() != 3 {
            Some(Error::WrongNumberOfOutputs)
        } else if last_claims.len() != 3 {
            Some(Error::WrongNumberOfClaims)
        } else if exists|i: int|
            0 <= i < 3 && (#[trigger] last_claims[i]).point@.len() != vars {
            Some(Error::WrongPointLength)
        } else if !stands_for(
            subclaim.expected_evaluation,
            virtual_claim(proof.individual_claims@, challenges),
        ) {
            Some(Error::EvaluationMismatch)
        } else {
            None
        }
    }

    /// Decides on the end of the sumcheck. Where it is accepted, the claims on the
    /// input and those on the matrices and biases are returned.
    pub fn verify<F: PrimeField, P, A>(
        &self,
        proof: &QKVProof<F, P, A>,
        last_claims: &Vec<Claim<F>>,
        padded_input_shapes: &Vec<Shape>,
        padded_output_shapes: &Vec<Shape>,
        challenges: &[F],
        subclaim: &SubClaim<F>,
    ) -> (r: Result<(Vec<Claim<F>>, Vec<(String, Claim<F>)>), Error>)
        requires
            padded_output_shapes@.len() == 3 ==> {
                let d = padded_output_shapes@[0]@;
                d.len() >= 2 && d[0] > 0 && d[1] > 0
            },
        ensures
            ({
                let refusal = self.refusal(
                    *proof,
                    last_claims@,
                    padded_input_shapes@,
                    padded_output_shapes@,
                    challenges@,
                    *subclaim,
                );
                let cols = log2_floor(padded_output_shapes@[0]@[1] as nat) as int;
                match r {
                    Ok((input_claims, common)) => {
                        &&& refusal is None
                        &&& is_input_claims(
                            input_claims@,
                            last_claims@,
                            cols,
                            subclaim.point@,
                            proof.individual_claims@,
                        )
                        &&& exists|bias_claims: Seq<Option<Claim<F>>>|
                            {
                                &&& #[trigger] self.derived(
                                    last_claims@,
                                    proof.pre_bias_evals@,
                                    cols,
                                    bias_claims,
                                )
                                &&& all_named(common@) == self.common_claims(
                                    last_claims@,
                                    cols,
                                    subclaim.point@,
                                    proof.individual_claims@,
                                    bias_claims,
                                )
                            }
                    },
                    Err(e) => refusal == Some(e),
                }
            }),
    {
        if padded_input_shapes.len() != 1 {
            return Err(Error::WrongNumberOfInputs);
        }
        if padded_output_shapes.len() != 3 {
            return Err(Error::WrongNumberOfOutputs);
        }
        if last_claims.len() != 3 {
            return Err(Error::WrongNumberOfClaims);
        }
        let output_shape = &padded_output_shapes[0];
        let vars: (usize, usize) = (ilog2(output_shape.dims[0]), ilog2(output_shape.dims[1]));
        let n: usize = proof.pre_bias_evals.len();
        let mut bias_claims: Vec<Option<Claim<F>>> = Vec::new();
        if n >= 1 {
            match derive_bias(&self.q_bias_key, &last_claims[0], proof.pre_bias_evals[0], vars) {
                Ok(c) => {
                    bias_claims.push(c);
                },
                Err(e) => {
                    return Err(e);
                },
            }
        }
        if n >= 2 {
            match derive_bias(&self.k_bias_key, &last_claims[1], proof.pre_bias_evals[1], vars) {
                Ok(c) => {
                    bias_claims.push(c);
                },
                Err(e) => {
                    return Err(e);
                },
            }
        }
        if n >= 3 {
            match derive_bias(&self.v_bias_key, &last_claims[2], proof.pre_bias_evals[2], vars) {
                Ok(c) => {
                    bias_claims.push(c);
                },
                Err(e) => {
                    return Err(e);
                },
            }
        }
        assert(self.derived(last_claims@, proof.pre_bias_evals@, vars.1 as int, bias_claims@));
        let claims = match self.claims_after_sumcheck(
            last_claims,
            vars,
            subclaim.point.as_slice(),
            &proof.individual_claims,
            bias_claims,
        ) {
            Ok(c) => c,
            Err(e) => {
                return Err(e);
            },
        };
        if !proof.individual_to_virtual_claim(challenges).is_same(subclaim.expected_evaluation) {
            return Err(Error::EvaluationMismatch);
        }
        Ok(claims)
    }

    /// The claims on the biases that the verifier derives.
    pub open spec fn derived<F: PrimeField>(
        &self,
        last_claims: Seq<Claim<F>>,
        pre_bias_evals: Seq<F>,
        cols: int,
        bias_claims: Seq<Option<Claim<F>>>,
    ) -> bool {
        &&& bias_claims.len() == upto_three(pre_bias_evals.len())
        &&& forall|i: int|
            0 <= i < bias_claims.len() ==> derives_bias(
                self.bias_key(i),
                last_claims[i],
                pre_bias_evals[i],
                cols,
                #[trigger] bias_claims[i],
            )
    }
}

} // verus!
