//! What the prover of the layer hands to its sumcheck, and the claims that are left.
use vstd::prelude::*;
use vstd::arithmetic::power2::{lemma_pow2_pos, pow2};
use crate::claim::{joined, part, Claim};
use crate::congruence::{lemma_fixed_high_cong, lemma_fixed_low_cong, lemma_mle_cong, lemma_stands_cong};
use crate::error::Error;
use crate::expression::Expression;
use crate::field::{all_stand_for, residues, stands_for, Lifted, PrimeField};
use crate::linear::is_matrix;
use crate::logits::witness::{element_ints, to_field};
use crate::mle::{fix_high_variables, fix_low_variables, fixed_high, fixed_low, lemma_pow2_unfold_zero, mle, mle_evaluate};
use crate::qkv::QKV;
use crate::shape::{ceil_log2, ilog2, lemma_log2_floor_pow2, lemma_numel_matrix, log2_ceil, log2_floor, Shape};
use crate::sum::sum;
use crate::tensor::{Element, KeyedTensor, Tensor};

verus! {

/// The proof of the layer. The sumcheck and the aggregation of the claims on the
/// input are carried as they come.
#[derive(Debug)]
pub struct QKVProof<F, P, A> {
    /// The sumcheck of the three products of matrices.
    pub sumcheck: P,
    /// The aggregation of the claims on the input to a single one.
    pub aggregation_proof: A,
    /// The claims on the outputs without their biases.
    pub pre_bias_evals: Vec<F>,
    /// For each output the evaluation of the input and that of the matrix.
    pub individual_claims: [(F, F); 3],
}

/// What the prover hands to the sumcheck, output by output.
#[derive(Debug)]
pub struct QKVSumcheck<F> {
    pub bias_claims: Vec<Option<Claim<F>>>,
    pub pre_bias_evals: Vec<F>,
    /// The input with its rows fixed.
    pub input_tables: Vec<Vec<F>>,
    /// The matrices with their columns fixed.
    pub weight_tables: Vec<Vec<F>>,
}

/// The sum of the products of the evaluations and their challenges.
pub open spec fn virtual_claim<F: PrimeField>(claims: Seq<(F, F)>, challenges: Seq<F>) -> int {
    let n = if challenges.len() < 3 {
        challenges.len()
    } else {
        3
    };
    sum(
        n,
        |i: int| claims[i].0.residue() * claims[i].1.residue() * challenges[i].residue(),
    )
}

impl<F: PrimeField, P, A> QKVProof<F, P, A> {
    /// The value of the summed polynomial that the individual claims give.
    pub fn individual_to_virtual_claim(&self, batching_challenges: &[F]) -> (r: F)
        ensures
            stands_for(r, virtual_claim(self.individual_claims@, batching_challenges@)),
    {
        let n: usize = if batching_challenges.len() < 3 {
            batching_challenges.len()
        } else {
            3
        };
        let ghost f = |i: int|
            self.individual_claims@[i].0.residue() * self.individual_claims@[i].1.residue()
                * batching_challenges@[i].residue();
        let mut acc = Lifted::<F>::zero();
        for i in 0..n
            invariant
                n <= 3,
                n <= batching_challenges@.len(),
                f == |i: int|
                    self.individual_claims@[i].0.residue() * self.individual_claims@[i].1.residue()
                        * batching_challenges@[i].residue(),
                acc@ == sum(i as nat, f),
        {
            let pair: (F, F) = self.individual_claims[i];
            let product = Lifted::of(pair.0).times(Lifted::of(pair.1));
            acc = acc.plus(product.times(Lifted::of(batching_challenges[i])));
        }
        acc.get()
    }
}

/// The coordinates of a point that stand for the rows and for the columns of an
/// output. A point with another number of coordinates is refused.
pub fn split_claim_point<F: Copy>(claim_point: &[F], output_num_vars: (usize, usize)) -> (r: Result<
    (Vec<F>, Vec<F>),
    Error,
>)
    requires
        output_num_vars.0 + output_num_vars.1 <= usize::MAX,
    ensures
        match r {
            Ok((row, col)) => {
                &&& claim_point@.len() == output_num_vars.0 + output_num_vars.1
                &&& row@ == claim_point@.skip(output_num_vars.1 as int)
                &&& col@ == claim_point@.take(output_num_vars.1 as int)
            },
            Err(e) => e == Error::WrongPointLength && claim_point@.len() != output_num_vars.0
                + output_num_vars.1,
        },
{
    if claim_point.len() != output_num_vars.0 + output_num_vars.1 {
        return Err(Error::WrongPointLength);
    }
    let row = part(claim_point, output_num_vars.1, claim_point.len());
    let col = part(claim_point, 0, output_num_vars.1);
    assert(row@ =~= claim_point@.skip(output_num_vars.1 as int));
    assert(col@ =~= claim_point@.take(output_num_vars.1 as int));
    Ok((row, col))
}

/// The points of the claims on the input and on a matrix, for the point of the claim
/// on an output and the point of the sumcheck.
pub fn build_points<F: Copy>(
    claim_point: &[F],
    proof_point: &[F],
    output_num_vars: (usize, usize),
) -> (r: Result<(Vec<F>, Vec<F>), Error>)
    requires
        output_num_vars.0 + output_num_vars.1 <= usize::MAX,
    ensures
        match r {
            Ok((input, weight)) => {
                &&& claim_point@.len() == output_num_vars.0 + output_num_vars.1
                &&& input@ == proof_point@ + claim_point@.skip(output_num_vars.1 as int)
                &&& weight@ == claim_point@.take(output_num_vars.1 as int) + proof_point@
            },
            Err(e) => e == Error::WrongPointLength && claim_point@.len() != output_num_vars.0
                + output_num_vars.1,
        },
{
    let (row, col) = match split_claim_point(claim_point, output_num_vars) {
        Ok(p) => p,
        Err(e) => {
            return Err(e);
        },
    };
    let input = joined(proof_point, row.as_slice());
    let weight = joined(col.as_slice(), proof_point);
    Ok((input, weight))
}

/// The challenges that batch the three products: one, and two that were drawn.
pub fn batching_coefficients<F: PrimeField>(drawn: (F, F)) -> (r: Vec<F>)
    ensures
        r@.len() == 3,
        stands_for(r@[0], 1),
        r@[1] == drawn.0,
        r@[2] == drawn.1,
{
    let mut r: Vec<F> = Vec::new();
    r.push(Lifted::<F>::one().get());
    r.push(drawn.0);
    r.push(drawn.1);
    r
}

/// The polynomial that the sumcheck sums, over the tables of the inputs and of the
/// matrices in turn.
pub fn batched_expression<F: PrimeField>(challenges: &Vec<F>) -> (r: Expression<F>)
    requires
        challenges@.len() == 3,
    ensures
        forall|w: Seq<int>, c: Seq<int>| #[trigger]
            r.value(w, c) == w[0] * w[1] * challenges@[0].residue() + w[2] * w[3]
                * challenges@[1].residue() + w[4] * w[5] * challenges@[2].residue(),
        r.degree() == 2,
{
    let a = Expression::<F>::table(0).times(Expression::<F>::table(1)).times(
        Expression::Constant(challenges[0]),
    );
    let b = Expression::<F>::table(2).times(Expression::<F>::table(3)).times(
        Expression::Constant(challenges[1]),
    );
    let c = Expression::<F>::table(4).times(Expression::<F>::table(5)).times(
        Expression::Constant(challenges[2]),
    );
    let r = a.plus(b).plus(c);
    proof {
        reveal_with_fuel(Expression::value, 6);
        reveal_with_fuel(Expression::degree, 6);
    }
    r
}

/// The variables of the rows and of the columns of the outputs.
pub open spec fn output_vars(rows: nat, cols: nat) -> (nat, nat) {
    (log2_ceil(rows), log2_ceil(cols))
}

/// The length of a bias does not match the columns.
pub open spec fn bias_refused(bias: Option<KeyedTensor<Element>>, cols: nat) -> bool {
    bias matches Some(t) && cols != log2_floor(t.tensor.data@.len())
}

/// What is left of a claim on an output once its bias is taken off.
pub open spec fn is_bias_step<F: PrimeField>(
    bias: Option<KeyedTensor<Element>>,
    claim: Claim<F>,
    cols: int,
    bias_claim: Option<Claim<F>>,
    pre_bias: F,
) -> bool {
    match (bias, bias_claim) {
        (Some(t), Some(c)) => {
            let eval = mle(element_ints(t.tensor.data@), residues(claim.point@.take(cols)));
            &&& c.point@ == claim.point@.take(cols)
            &&& stands_for(c.eval, eval)
            &&& stands_for(pre_bias, claim.eval.residue() - eval)
        },
        (None, None) => pre_bias == claim.eval,
        _ => false,
    }
}

/// Takes the bias off a claim on an output.
fn take_bias_off<F: PrimeField>(
    bias: &Option<KeyedTensor<Element>>,
    claim: &Claim<F>,
    vars: (usize, usize),
) -> (r: Result<(Option<Claim<F>>, F), Error>)
    requires
        vars.0 + vars.1 <= usize::MAX,
        claim.point@.len() == vars.0 + vars.1,
        bias matches Some(t) ==> t.tensor.data@.len() == pow2(log2_ceil(t.tensor.data@.len())),
    ensures
        match r {
            Ok((c, pre)) => {
                &&& !bias_refused(*bias, vars.1 as nat)
                &&& is_bias_step(*bias, *claim, vars.1 as int, c, pre)
            },
            Err(e) => e == Error::InvalidBias && bias_refused(*bias, vars.1 as nat),
        },
{
    let (_row, col) = match split_claim_point(claim.point.as_slice(), vars) {
        Ok(p) => p,
        Err(e) => {
            return Err(e);
        },
    };
    match bias {
        Some(t) => {
            let ghost n = t.tensor.data@.len();
            proof {
                lemma_log2_floor_pow2(log2_ceil(n));
                lemma_pow2_unfold_zero();
                lemma_pow2_pos(log2_ceil(n));
            }
            if col.len() != ilog2(t.tensor.data.len()) {
                return Err(Error::InvalidBias);
            }
            let values = to_field::<F>(&t.tensor.data);
            assert(t.tensor.data.len() <= usize::MAX);
            let eval = mle_evaluate(values.as_slice(), col.as_slice());
            let ghost e = mle(element_ints(t.tensor.data@), residues(col@));
            proof {
                eval.residue_bounds();
                lemma_mle_cong(values@, element_ints(t.tensor.data@), residues(col@), F::modulus());
                lemma_stands_cong(eval, mle(residues(values@), residues(col@)), e);
            }
            let pre = Lifted::of(claim.eval).minus(Lifted::known(eval, Ghost(e))).get();
            Ok((Some(Claim::new(col, eval)), pre))
        },
        None => Ok((None, claim.eval)),
    }
}

/// The tables of one output.
pub open spec fn is_tables_of<F: PrimeField>(
    input: Tensor<Element>,
    w: Tensor<Element>,
    point: Seq<F>,
    cols: int,
    input_table: Seq<F>,
    weight_table: Seq<F>,
) -> bool {
    let inner = input.shape@[1] as int;
    let row = residues(point.skip(cols));
    let col = residues(point.take(cols));
    &&& input_table.len() == inner
    &&& weight_table.len() == inner
    &&& forall|x: int|
        0 <= x < inner ==> stands_for(
            #[trigger] input_table[x],
            fixed_high(element_ints(input.data@), inner, row, x),
        )
    &&& forall|x: int|
        0 <= x < inner ==> stands_for(
            #[trigger] weight_table[x],
            fixed_low(element_ints(w.data@), col, x),
        )
}

/// The tables of one output.
fn tables_of<F: PrimeField>(
    input: &Tensor<Element>,
    input_values: &Vec<F>,
    w: &Tensor<Element>,
    point: &[F],
    vars: (usize, usize),
) -> (r: Result<(Vec<F>, Vec<F>), Error>)
    requires
        is_matrix(*input),
        is_matrix(*w),
        w.shape@[0] == input.shape@[1],
        all_stand_for(input_values@, element_ints(input.data@)),
        input.shape@[0] == pow2(vars.0 as nat),
        w.shape@[1] == pow2(vars.1 as nat),
        vars.0 + vars.1 <= usize::MAX,
        point@.len() == vars.0 + vars.1,
    ensures
        r matches Ok((a, b)) && is_tables_of(*input, *w, point@, vars.1 as int, a@, b@),
{
    let (row, col) = match split_claim_point(point, vars) {
        Ok(p) => p,
        Err(e) => {
            return Err(e);
        },
    };
    let inner: usize = input.shape.dims[1];
    proof {
        assert(input.shape@ =~= seq![input.shape@[0], inner]);
        assert(w.shape@ =~= seq![inner, w.shape@[1]]);
        lemma_numel_matrix(input.shape@[0], inner);
        lemma_numel_matrix(inner, w.shape@[1]);
    }
    let input_table = fix_high_variables(input_values.as_slice(), row.as_slice(), inner);
    let weight_values = to_field::<F>(&w.data);
    let weight_table = fix_low_variables(weight_values.as_slice(), col.as_slice(), inner);
    proof {
        let rp = residues(point@.skip(vars.1 as int));
        let cp = residues(point@.take(vars.1 as int));
        assert(residues(row@) =~= rp);
        assert(residues(col@) =~= cp);
        assert forall|x: int| 0 <= x < inner implies stands_for(
            #[trigger] input_table@[x],
            fixed_high(element_ints(input.data@), inner as int, rp, x),
        ) by {
            input_table@[x].residue_bounds();
            lemma_fixed_high_cong(input_values@, element_ints(input.data@), inner as int, rp, x);
        }
        assert forall|x: int| 0 <= x < inner implies stands_for(
            #[trigger] weight_table@[x],
            fixed_low(element_ints(w.data@), cp, x),
        ) by {
            weight_table@[x].residue_bounds();
            lemma_fixed_low_cong(weight_values@, element_ints(w.data@), cp, x, inner as int);
        }
    }
    Ok((input_table, weight_table))
}

impl QKV<Element> {
    /// The matrix of an output.
    pub open spec fn weight(&self, i: int) -> Tensor<Element> {
        if i == 0 {
            self.q.tensor
        } else if i == 1 {
            self.k.tensor
        } else {
            self.v.tensor
        }
    }

    /// The bias of an output.
    pub open spec fn bias(&self, i: int) -> Option<KeyedTensor<Element>> {
        if i == 0 {
            self.q_bias
        } else if i == 1 {
            self.k_bias
        } else {
            self.v_bias
        }
    }

    /// Why there is nothing to prove, if there is not.
    pub open spec fn prove_refusal<F>(
        &self,
        last_claims: Seq<Claim<F>>,
        inputs: Seq<Tensor<Element>>,
        output_shapes: Seq<Shape>,
    ) -> Option<Error> {
        let rows = inputs[0].shape@[0];
        let cols = self.q.tensor.shape@[1];
        let vars = output_vars(rows as nat, cols as nat);
        if last_claims.len() != 3 {
            Some(Error::WrongNumberOfClaims)
        } else if inputs.len() != 1 {
            Some(Error::WrongNumberOfInputs)
        } else if inputs[0].shape@.len() != 2 || inputs[0].shape@[1] != self.q.tensor.shape@[0] {
            Some(Error::InvalidShape)
        } else if output_shapes.len() != 3 {
            Some(Error::WrongNumberOfOutputs)
        } else if exists|i: int|
            0 <= i < 3 && (#[trigger] output_shapes[i])@ != seq![rows, cols] {
            Some(Error::InvalidShape)
        } else if exists|i: int|
            0 <= i < 3 && (#[trigger] last_claims[i]).point@.len() != vars.0 + vars.1 {
            Some(Error::WrongPointLength)
        } else if bias_refused(self.q_bias, vars.1) || bias_refused(self.k_bias, vars.1)
            || bias_refused(self.v_bias, vars.1) {
            Some(Error::InvalidBias)
        } else {
            None
        }
    }

    /// What the prover hands to the sumcheck of the three products, for the claims on
    /// the outputs and the single input.
    #[verifier::loop_isolation(false)]
    pub fn prove<F: PrimeField>(
        &self,
        last_claims: &Vec<Claim<F>>,
        inputs: &Vec<Tensor<Element>>,
        output_shapes: &Vec<Shape>,
    ) -> (r: Result<QKVSumcheck<F>, Error>)
        requires
            is_matrix(self.q.tensor),
            is_matrix(self.k.tensor),
            is_matrix(self.v.tensor),
            self.k.tensor.shape@ == self.q.tensor.shape@,
            self.v.tensor.shape@ == self.q.tensor.shape@,
            self.q.tensor.shape@[1] == pow2(log2_ceil(self.q.tensor.shape@[1] as nat)),
            forall|i: int|
                0 <= i < 3 ==> (#[trigger] self.bias(i) matches Some(t) ==> t.tensor.data@.len()
                    == pow2(log2_ceil(t.tensor.data@.len()))),
            inputs@.len() == 1 ==> inputs@[0].wf() && (inputs@[0].shape@.len() == 2 ==> inputs@[0].shape@[0]
                == pow2(log2_ceil(inputs@[0].shape@[0] as nat))),
        ensures
            match r {
                Ok(s) => {
                    let cols = log2_ceil(self.q.tensor.shape@[1] as nat) as int;
                    &&& self.prove_refusal(last_claims@, inputs@, output_shapes@) is None
                    &&& s.bias_claims@.len() == 3
                    &&& s.pre_bias_evals@.len() == 3
                    &&& s.input_tables@.len() == 3
                    &&& s.weight_tables@.len() == 3
                    &&& forall|i: int|
                        0 <= i < 3 ==> is_bias_step(
                            self.bias(i),
                            last_claims@[i],
                            cols,
                            #[trigger] s.bias_claims@[i],
                            s.pre_bias_evals@[i],
                        )
                    &&& forall|i: int|
                        0 <= i < 3 ==> is_tables_of(
                            inputs@[0],
                            self.weight(i),
                            last_claims@[i].point@,
                            cols,
                            (#[trigger] s.input_tables@[i])@,
                            s.weight_tables@[i]@,
                        )
                },
                Err(e) => self.prove_refusal(last_claims@, inputs@, output_shapes@) == Some(e),
            },
    {
        if last_claims.len() != 3 {
            return Err(Error::WrongNumberOfClaims);
        }
        if inputs.len() != 1 {
            return Err(Error::WrongNumberOfInputs);
        }
        let input = &inputs[0];
        if input.shape.rank() != 2 {
            return Err(Error::InvalidShape);
        }
        if input.shape.dims[1] != self.q.tensor.shape.dims[0] {
            return Err(Error::InvalidShape);
        }
        if output_shapes.len() != 3 {
            return Err(Error::WrongNumberOfOutputs);
        }
        let rows: usize = input.shape.dims[0];
        let cols: usize = self.q.tensor.shape.dims[1];
        for i in 0..3usize
            invariant
                forall|k: int| 0 <= k < i ==> (#[trigger] output_shapes@[k])@ == seq![rows, cols],
        {
            let s = &output_shapes[i];
            if s.rank() != 2 || s.dims[0] != rows || s.dims[1] != cols {
                assert(output_shapes@[i as int]@ != seq![rows, cols]);
                return Err(Error::InvalidShape);
            }
            assert(output_shapes@[i as int]@ =~= seq![rows, cols]);
        }
        let vars: (usize, usize) = (ceil_log2(rows), ceil_log2(cols));
        for i in 0..3usize
            invariant
                forall|k: int|
                    0 <= k < i ==> (#[trigger] last_claims@[k]).point@.len() == vars.0 + vars.1,
        {
            if last_claims[i].point.len() != vars.0 + vars.1 {
                return Err(Error::WrongPointLength);
            }
        }
        assert(self.bias(0) == self.q_bias);
        assert(self.bias(1) == self.k_bias);
        assert(self.bias(2) == self.v_bias);
        let (b0, p0) = match take_bias_off(&self.q_bias, &last_claims[0], vars) {
            Ok(x) => x,
            Err(e) => {
                return Err(e);
            },
        };
        let (b1, p1) = match take_bias_off(&self.k_bias, &last_claims[1], vars) {
            Ok(x) => x,
            Err(e) => {
                return Err(e);
            },
        };
        let (b2, p2) = match take_bias_off(&self.v_bias, &last_claims[2], vars) {
            Ok(x) => x,
            Err(e) => {
                return Err(e);
            },
        };
        let input_values = to_field::<F>(&input.data);
        let (i0, w0) = match tables_of(
            input,
            &input_values,
            &self.q.tensor,
            last_claims[0].point.as_slice(),
            vars,
        ) {
            Ok(x) => x,
            Err(e) => {
                return Err(e);
            },
        };
        let (i1, w1) = match tables_of(
            input,
            &input_values,
            &self.k.tensor,
            last_claims[1].point.as_slice(),
            vars,
        ) {
            Ok(x) => x,
            Err(e) => {
                return Err(e);
            },
        };
        let (i2, w2) = match tables_of(
            input,
            &input_values,
            &self.v.tensor,
            last_claims[2].point.as_slice(),
            vars,
        ) {
            Ok(x) => x,
            Err(e) => {
                return Err(e);
            },
        };
        let mut bias_claims: Vec<Option<Claim<F>>> = Vec::new();
        bias_claims.push(b0);
        bias_claims.push(b1);
        bias_claims.push(b2);
        let mut pre_bias_evals: Vec<F> = Vec::new();
        pre_bias_evals.push(p0);
        pre_bias_evals.push(p1);
        pre_bias_evals.push(p2);
        let mut input_tables: Vec<Vec<F>> = Vec::new();
        input_tables.push(i0);
        input_tables.push(i1);
        input_tables.push(i2);
        let mut weight_tables: Vec<Vec<F>> = Vec::new();
        weight_tables.push(w0);
        weight_tables.push(w1);
        weight_tables.push(w2);
        Ok(QKVSumcheck { bias_claims, pre_bias_evals, input_tables, weight_tables })
    }
}

} // verus!
