//! The decisions of the verifier of a logits layer.
use vstd::prelude::*;
use vstd::arithmetic::div_mod::*;
use vstd::arithmetic::power2::{lemma2_to64, lemma2_to64_rest, lemma_pow2_pos, lemma_pow2_strictly_increases, pow2};
use crate::attention_mask::verify::bounded;
use crate::batching::all_pow2;
use crate::claim::{part, Claim, SubClaim};
use crate::congruence::{cong, lemma_cong_times};
use crate::error::Error;
use crate::field::{all_stand_for, inverts, residues, stands_for, Lifted, PrimeField};
use crate::logits::prove::{averaging, averaging_point, witness_claims, LogitsProof};
use crate::logits::{Logits, LogitsCtx};
use crate::mle::{beta, betas, compute_betas_eval, identity, identity_eval, lemma_bit_residues, to_bit_sequence_le};
use crate::shape::{ceil_log2, is_pow2, lemma_next_pow2, lemma_num_vars_split, log2_ceil, num_vars, numel, power_of_two, Shape};
use crate::sum::sum;
use crate::tensor::{copied, Element, Tensor};
use crate::triangular::{eval_zeroifier_mle, lemma_zeroifier_bits};

verus! {

/// The sum of two fractions, each a numerator and a denominator.
pub open spec fn add_fraction(a: (int, int), b: (int, int)) -> (int, int) {
    (b.0 * a.1 + a.0 * b.1, a.1 * b.1)
}

/// A fraction, with the first `k` of some others added to it.
pub open spec fn add_fractions(
    start: (int, int),
    numerators: Seq<int>,
    denominators: Seq<int>,
    k: nat,
) -> (int, int)
    decreases k,
{
    if k == 0 {
        start
    } else {
        add_fraction(
            add_fractions(start, numerators, denominators, (k - 1) as nat),
            (numerators[k - 1], denominators[k - 1]),
        )
    }
}

/// The smaller of two lengths.
pub open spec fn shorter(a: nat, b: nat) -> nat {
    if a <= b {
        a
    } else {
        b
    }
}

/// Adds the fractional outputs of a lookup to what a table has collected so far. A
/// denominator that is zero is refused.
pub fn accumulate_fractions<F: PrimeField>(
    numerators: &Vec<F>,
    denominators: &Vec<F>,
    collected: (F, F),
) -> (r: Result<(F, F), Error>)
    ensures
        ({
            let n = shorter(numerators@.len(), denominators@.len());
            match r {
                Ok(f) => {
                    let goal = add_fractions(
                        (collected.0.residue(), collected.1.residue()),
                        residues(numerators@),
                        residues(denominators@),
                        n,
                    );
                    &&& forall|i: int|
                        0 <= i < n ==> (#[trigger] denominators@[i]).residue() != 0
                    &&& stands_for(f.0, goal.0)
                    &&& stands_for(f.1, goal.1)
                },
                Err(e) => {
                    &&& e == Error::ZeroDenominator
                    &&& exists|i: int|
                        0 <= i < n && (#[trigger] denominators@[i]).residue() == 0
                },
            }
        }),
{
    let ghost start = (collected.0.residue(), collected.1.residue());
    let ghost ns = residues(numerators@);
    let ghost ds = residues(denominators@);
    let n: usize = if numerators.len() <= denominators.len() {
        numerators.len()
    } else {
        denominators.len()
    };
    let zero = F::zero();
    let mut num = Lifted::of(collected.0);
    let mut denom = Lifted::of(collected.1);
    for i in 0..n
        invariant
            n <= numerators@.len(),
            n <= denominators@.len(),
            ns == residues(numerators@),
            ds == residues(denominators@),
            zero.residue() == 0,
            (num@, denom@) == add_fractions(start, ns, ds, i as nat),
            forall|j: int| 0 <= j < i ==> (#[trigger] denominators@[j]).residue() != 0,
    {
        if denominators[i].is_same(zero) {
            assert(denominators@[i as int].residue() == 0);
            return Err(Error::ZeroDenominator);
        }
        let a = Lifted::of(numerators[i]);
        let b = Lifted::of(denominators[i]);
        num = a.times(denom).plus(num.times(b));
        denom = denom.times(b);
    }
    Ok((num.get(), denom.get()))
}

/// The chosen tokens, each weighted by the factor of its row and of itself.
pub open spec fn token_sum(tokens: Seq<Element>, row: Seq<int>, col: Seq<int>) -> int {
    sum(
        shorter(tokens.len(), pow2(row.len())),
        |i: int| beta(row, i) * beta(col, tokens[i] as int),
    )
}

/// Every chosen token lies inside the vocabulary.
pub open spec fn tokens_valid(tokens: Seq<Element>, rows: nat, vocabulary: int) -> bool {
    forall|i: int|
        0 <= i < shorter(tokens.len(), rows) ==> 0 <= #[trigger] tokens[i] && tokens[i] < vocabulary
}

/// Every dimension is a power of two.
pub fn is_power_of_two(shape: &Shape) -> (r: bool)
    ensures
        r == all_pow2(shape@),
{
    for k in 0..shape.dims.len()
        invariant
            forall|j: int|
                0 <= j < k ==> #[trigger] shape@[j] == pow2(log2_ceil(shape@[j] as nat)),
    {
        if !is_pow2(shape.dims[k]) {
            assert(shape@[k as int] != pow2(log2_ceil(shape@[k as int] as nat)));
            return false;
        }
    }
    true
}

/// The output that belongs to a chunk: a part of a split output, or the output.
pub open spec fn output_of(
    outputs: Seq<Tensor<Element>>,
    split_outputs: Option<Vec<Tensor<Element>>>,
    chunk_number: int,
) -> Tensor<Element> {
    match split_outputs {
        Some(v) => v@[chunk_number],
        None => outputs[0],
    }
}

impl LogitsCtx {
    /// How many lookups the verifier checks, and in how many variables. The layer
    /// has a single input.
    pub fn lookup_instances(&self, padded_input_shapes: &Vec<Shape>) -> (r: Result<
        (usize, usize),
        Error,
    >)
        requires
            padded_input_shapes@.len() == 1 ==> {
                &&& forall|k: int|
                    0 <= k <= padded_input_shapes@[0]@.len() ==> #[trigger] numel(
                        padded_input_shapes@[0]@.take(k),
                    ) <= usize::MAX
                &&& numel(padded_input_shapes@[0]@) > 1
            },
        ensures
            match r {
                Ok((count, vars)) => {
                    &&& padded_input_shapes@.len() == 1
                    &&& count == self.range_check_chunks
                    &&& vars == log2_ceil(numel(padded_input_shapes@[0]@)) - 1
                },
                Err(e) => e == Error::WrongNumberOfInputs && padded_input_shapes@.len() != 1,
            },
    {
        if padded_input_shapes.len() != 1 {
            return Err(Error::WrongNumberOfInputs);
        }
        let full_vars = ceil_log2(padded_input_shapes[0].numel());
        proof {
            lemma_next_pow2(numel(padded_input_shapes@[0]@));
        }
        Ok((self.range_check_chunks, full_vars - 1))
    }

    /// What the verifier does before it checks the lookup: it adds the fractional outputs
    /// of the lookup to what the table has collected so far, and tells how many lookups
    /// there are, and in how many variables. The layer has a single input, and a
    /// denominator that is zero is refused.
    pub fn start_chunk<F: PrimeField>(
        &self,
        padded_input_shapes: &Vec<Shape>,
        numerators: &Vec<F>,
        denominators: &Vec<F>,
        collected: (F, F),
    ) -> (r: Result<((usize, usize), (F, F)), Error>)
        requires
            padded_input_shapes@.len() == 1 ==> {
                &&& forall|k: int|
                    0 <= k <= padded_input_shapes@[0]@.len() ==> #[trigger] numel(
                        padded_input_shapes@[0]@.take(k),
                    ) <= usize::MAX
                &&& numel(padded_input_shapes@[0]@) > 1
            },
        ensures
            ({
                let n = shorter(numerators@.len(), denominators@.len());
                let zero = exists|i: int|
                    0 <= i < n && (#[trigger] denominators@[i]).residue() == 0;
                match r {
                    Ok(((count, vars), f)) => {
                        let goal = add_fractions(
                            (collected.0.residue(), collected.1.residue()),
                            residues(numerators@),
                            residues(denominators@),
                            n,
                        );
                        &&& padded_input_shapes@.len() == 1
                        &&& !zero
                        &&& count == self.range_check_chunks
                        &&& vars == log2_ceil(numel(padded_input_shapes@[0]@)) - 1
                        &&& stands_for(f.0, goal.0)
                        &&& stands_for(f.1, goal.1)
                    },
                    Err(e) => if padded_input_shapes@.len() != 1 {
                        e == Error::WrongNumberOfInputs
                    } else {
                        e == Error::ZeroDenominator && zero
                    },
                }
            }),
    {
        let instances = match self.lookup_instances(padded_input_shapes) {
            Ok(i) => i,
            Err(e) => {
                return Err(e);
            },
        };
        match accumulate_fractions(numerators, denominators, collected) {
            Ok(f) => Ok((instances, f)),
            Err(e) => Err(e),
        }
    }

    /// The claims on the chunks that the lookup left: one for each chunk.
    pub fn range_check_claims<F: PrimeField>(&self, point: &Vec<F>, poly_evals: &Vec<F>) -> (r: Result<
        Vec<Claim<F>>,
        Error,
    >)
        ensures
            r is Ok <==> poly_evals@.len() == self.range_check_chunks,
            match r {
                Ok(claims) => {
                    &&& claims@.len() == poly_evals@.len()
                    &&& forall|i: int|
                        0 <= i < claims@.len() ==> (#[trigger] claims@[i]).point@ == point@
                            && claims@[i].eval == poly_evals@[i]
                },
                Err(e) => e == Error::WrongNumberOfClaims,
            },
    {
        let mut claims: Vec<Claim<F>> = Vec::new();
        for i in 0..poly_evals.len()
            invariant
                claims@.len() == i,
                forall|j: int|
                    0 <= j < i ==> (#[trigger] claims@[j]).point@ == point@ && claims@[j].eval
                        == poly_evals@[j],
        {
            claims.push(Claim::new(copied(point), poly_evals[i]));
        }
        if claims.len() != self.range_check_chunks {
            return Err(Error::WrongNumberOfClaims);
        }
        Ok(claims)
    }

    /// The claim that the sumcheck starts from: the claim on the distances, times
    /// the challenge that batches it.
    pub fn hadamard_claim<F: PrimeField>(challenge: F, input_claim: &Claim<F>) -> (r: F)
        ensures
            stands_for(r, challenge.residue() * input_claim.eval.residue()),
    {
        Lifted::of(challenge).times(Lifted::of(input_claim.eval)).get()
    }

    /// Checks a claim on the chosen tokens against the output of the model.
    #[verifier::loop_isolation(false)]
    pub fn verify_output_evaluation<F: PrimeField>(
        outputs: &Vec<Tensor<Element>>,
        split_outputs: &Option<Vec<Tensor<Element>>>,
        output_claim: &Claim<F>,
        unpadded_dim_size: usize,
        chunk_number: usize,
    ) -> (r: Result<(), Error>)
        requires
            outputs@.len() == 1 ==> {
                let out = output_of(outputs@, *split_outputs, chunk_number as int);
                let rows = log2_ceil(out.shape@[0] as nat);
                &&& split_outputs matches Some(v) ==> chunk_number < v@.len()
                &&& all_pow2(out.shape@) ==> {
                    &&& out.shape@.len() >= 1
                    &&& rows <= output_claim.point@.len()
                    &&& pow2(output_claim.point@.len()) <= usize::MAX
                    &&& unpadded_dim_size <= pow2((output_claim.point@.len() - rows) as nat)
                }
            },
        ensures
            ({
                let out = output_of(outputs@, *split_outputs, chunk_number as int);
                let split = output_claim.point@.len() - log2_ceil(out.shape@[0] as nat);
                let row = residues(output_claim.point@.skip(split));
                let col = residues(output_claim.point@.take(split));
                match r {
                    Ok(_) => {
                        &&& outputs@.len() == 1
                        &&& all_pow2(out.shape@)
                        &&& tokens_valid(out.data@, pow2(row.len()), unpadded_dim_size as int)
                        &&& stands_for(output_claim.eval, token_sum(out.data@, row, col))
                    },
                    Err(e) => if outputs@.len() != 1 {
                        e == Error::WrongNumberOfInputs
                    } else if !all_pow2(out.shape@) {
                        e == Error::InvalidShape
                    } else if !tokens_valid(out.data@, pow2(row.len()), unpadded_dim_size as int) {
                        e == Error::TokenOutOfRange
                    } else {
                        e == Error::EvaluationMismatch && !stands_for(
                            output_claim.eval,
                            token_sum(out.data@, row, col),
                        )
                    },
                }
            }),
    {
        if outputs.len() != 1 {
            return Err(Error::WrongNumberOfInputs);
        }
        let output = match split_outputs {
            Some(v) => &v[chunk_number],
            None => &outputs[0],
        };
        if !is_power_of_two(&output.shape) {
            return Err(Error::InvalidShape);
        }
        let num_row_vars = ceil_log2(output.shape.dims[0]);
        let (column_point, row_point) = Logits::split_claim_point(
            output_claim.point.as_slice(),
            num_row_vars,
        );
        proof {
            let n = output_claim.point@.len();
            if row_point@.len() < n {
                lemma_pow2_strictly_increases(row_point@.len(), n);
            }
            if column_point@.len() < n {
                lemma_pow2_strictly_increases(column_point@.len(), n);
            }
        }
        let row_beta = compute_betas_eval(row_point.as_slice());
        let column_beta = compute_betas_eval(column_point.as_slice());
        let ghost row = residues(row_point@);
        let ghost col = residues(column_point@);
        let ghost tokens = output.data@;
        let ghost f = |i: int| beta(row, i) * beta(col, tokens[i] as int);
        let n: usize = if output.data.len() <= row_beta.len() {
            output.data.len()
        } else {
            row_beta.len()
        };
        let mut acc = Lifted::<F>::zero();
        for i in 0..n
            invariant
                n <= output.data@.len(),
                n <= row_beta@.len(),
                n == shorter(output.data@.len(), pow2(row.len())),
                tokens == output.data@,
                all_stand_for(row_beta@, betas(row)),
                all_stand_for(column_beta@, betas(col)),
                unpadded_dim_size <= column_beta@.len(),
                f == |i: int| beta(row, i) * beta(col, tokens[i] as int),
                acc@ == sum(i as nat, f),
                forall|j: int|
                    0 <= j < i ==> 0 <= #[trigger] tokens[j] && tokens[j] < unpadded_dim_size,
        {
            let token: Element = output.data[i];
            if token < 0 || token as i128 >= unpadded_dim_size as i128 {
                assert(!(0 <= tokens[i as int] && tokens[i as int] < unpadded_dim_size));
                return Err(Error::TokenOutOfRange);
            }
            proof {
                assert(betas(row)[i as int] == beta(row, i as int));
                assert(betas(col)[token as int] == beta(col, token as int));
            }
            let b = Lifted::known(row_beta[i], Ghost(beta(row, i as int)));
            let c = Lifted::known(column_beta[token as usize], Ghost(beta(col, token as int)));
            acc = acc.plus(b.times(c));
        }
        if acc.get().is_same(output_claim.eval) {
            Ok(())
        } else {
            Err(Error::EvaluationMismatch)
        }
    }
}

/// `x` has an inverse modulo `m`.
pub open spec fn invertible(x: int, m: int) -> bool {
    exists|y: int| inverts(y, x, m)
}

/// What the end of the sumcheck leaves for the chosen tokens: the expected value,
/// less the part of the lookup and less the maxima.
pub open spec fn rest_value(
    expected: int,
    challenge: int,
    lt: int,
    lookup_eq: int,
    average: int,
    input: int,
    max: int,
) -> int {
    expected - ((challenge * lt) * lookup_eq) * (max - input) - average * max
}

/// What the chosen tokens are multiplied by at the end of the sumcheck.
pub open spec fn token_factor(num_cols: int, average: int, input: int) -> int {
    ((0 - num_cols) * average) * input
}

/// Whether the sumcheck ends as it should: the chosen tokens, times their factor,
/// are what is left for them. Where the factor has no inverse nothing may be left,
/// and the tokens all have to be the first.
pub open spec fn end_accepted(tokens: int, first_token: int, rest: int, factor: int, m: int) -> bool {
    if invertible(factor % m, m) {
        cong(tokens * factor, rest, m)
    } else {
        cong(rest, 0, m) && cong(tokens, first_token, m)
    }
}

/// Where a factor has an inverse, what is left times the inverse is the value that
/// the factor multiplies to what is left.
pub proof fn lemma_divide(value: int, factor: int, inverse: int, rest: int, m: int)
    requires
        m > 1,
        inverts(inverse, factor % m, m),
    ensures
        cong(value, rest * inverse, m) == cong(value * factor, rest, m),
{
    lemma_mul_mod_noop_right(inverse, factor, m);
    lemma_small_mod(1, m as nat);
    assert(cong(inverse * factor, 1, m));
    if cong(value, rest * inverse, m) {
        lemma_cong_times(value, rest * inverse, factor, factor, m);
        lemma_cong_times(rest, rest, inverse * factor, 1, m);
        assert((rest * inverse) * factor == rest * (inverse * factor)) by (nonlinear_arith);
        assert(rest * 1 == rest);
    }
    if cong(value * factor, rest, m) {
        lemma_cong_times(value * factor, rest, inverse, inverse, m);
        lemma_cong_times(value, value, inverse * factor, 1, m);
        assert((value * factor) * inverse == value * (inverse * factor)) by (nonlinear_arith);
        assert(value * 1 == value);
    }
}

/// The factor of the first index: one minus every coordinate.
proof fn lemma_beta_first(p: Seq<int>, k: int)
    requires
        0 <= k < p.len(),
    ensures
        beta(p.take(k + 1), 0) == beta(p.take(k), 0) * (1 - p[k]),
{
    assert(p.take(k + 1).drop_last() =~= p.take(k));
    lemma_pow2_pos(k as nat);
}

/// The parts of the end of a logits sumcheck that the verifier computes.
pub open spec fn average_at(half: int, cols: nat, lookup: Seq<int>, end: Seq<int>) -> int {
    identity(averaging_point(half, cols, lookup.skip(cols as int)), end)
}

/// The coordinates of the columns of an output, and those of its rows.
pub open spec fn output_columns(out: Tensor<Element>, end: Seq<int>) -> Seq<int> {
    end.take(end.len() - log2_ceil(out.shape@[0] as nat))
}

pub open spec fn output_rows(out: Tensor<Element>, end: Seq<int>) -> Seq<int> {
    end.skip(end.len() - log2_ceil(out.shape@[0] as nat))
}

/// What is known of a logits proof besides the proof: the shapes of the input,
/// what the lookup left, the challenge that batches it, what the sumcheck left and
/// the output of the model.
#[derive(Debug)]
pub struct LogitsChunk<F> {
    pub padded_input_shapes: Vec<Shape>,
    pub unpadded_input_shapes: Vec<Shape>,
    pub lookup_point: Vec<F>,
    pub lookup_evals: Vec<F>,
    pub challenge: F,
    pub subclaim: SubClaim<F>,
    pub outputs: Vec<Tensor<Element>>,
    pub split_outputs: Option<Vec<Tensor<Element>>>,
    pub chunk_number: usize,
}

impl<F: PrimeField> LogitsChunk<F> {
    /// The number of column variables.
    pub open spec fn col_vars(&self) -> nat {
        log2_ceil(self.padded_input_shapes@[0]@.last() as nat)
    }

    /// The number of columns that are not padding.
    pub open spec fn width(&self) -> int {
        self.unpadded_input_shapes@[0]@.last() as int
    }

    /// The output that belongs to the chunk.
    pub open spec fn output(&self) -> Tensor<Element> {
        output_of(self.outputs@, self.split_outputs, self.chunk_number as int)
    }

    pub open spec fn end(&self) -> Seq<int> {
        residues(self.subclaim.point@)
    }

    pub open spec fn average(&self, half: int) -> int {
        average_at(half, self.col_vars(), residues(self.lookup_point@), self.end())
    }

    /// What the end of the sumcheck leaves for the chosen tokens.
    pub open spec fn rest(&self, half: int, input: int, max: int) -> int {
        rest_value(
            self.subclaim.expected_evaluation.residue(),
            self.challenge.residue(),
            bounded(self.end().take(self.col_vars() as int), self.width()),
            identity(residues(self.lookup_point@), self.end()),
            self.average(half),
            input,
            max,
        )
    }

    /// What the chosen tokens are multiplied by.
    pub open spec fn factor(&self, half: int, input: int) -> int {
        token_factor(pow2(self.col_vars()) as int, self.average(half), input)
    }

    /// The output that belongs to the chunk can be compared with the end of the sumcheck: it
    /// has no more rows than the input, and columns for the vocabulary.
    pub open spec fn output_fits(&self) -> bool {
        &&& self.split_outputs matches Some(v) ==> self.chunk_number < v@.len()
        &&& all_pow2(self.output().shape@) ==> {
            &&& self.output().shape@.len() >= 1
            &&& log2_ceil(self.output().shape@[0] as nat) <= self.subclaim.point@.len()
            &&& self.width() <= pow2(output_columns(self.output(), self.end()).len())
        }
    }

    /// There is an output whose rows tell the coordinates of the first token.
    pub open spec fn first_token_fits(&self) -> bool {
        &&& self.outputs@.len() >= 1
        &&& all_pow2(self.outputs@[0].shape@) ==> {
            &&& self.outputs@[0].shape@.len() >= 1
            &&& log2_ceil(self.outputs@[0].shape@[0] as nat) <= self.subclaim.point@.len()
        }
    }

    /// The points have as many coordinates as the input has variables, the sizes fit into
    /// memory, and so does a single output. Where the input takes the value `input` at the
    /// end of the sumcheck and the chosen tokens have a factor without an inverse, there is
    /// an output.
    pub open spec fn fits(&self, input: int) -> bool {
        let shape = self.padded_input_shapes@[0]@;
        let vars = num_vars(shape);
        let m = F::modulus();
        self.padded_input_shapes@.len() == 1 ==> {
            &&& shape.len() >= 1
            &&& all_pow2(shape)
            &&& self.col_vars() < 63
            &&& self.lookup_point@.len() == vars
            &&& self.subclaim.point@.len() == vars
            &&& pow2(self.subclaim.point@.len()) <= usize::MAX
            &&& self.unpadded_input_shapes@.len() >= 1
            &&& self.unpadded_input_shapes@[0]@.len() >= 1
            &&& 1 <= self.width() <= shape.last()
            &&& self.outputs@.len() == 1 ==> self.output_fits()
            &&& forall|half: int|
                0 <= half < m && #[trigger] inverts(2, half, m) && !invertible(
                    self.factor(half, input) % m,
                    m,
                ) ==> self.first_token_fits()
        }
    }

    /// What the verifier decides, where one half is the residue `half`.
    pub open spec fn decides<L, C, P>(
        &self,
        ctx: LogitsCtx,
        proof: LogitsProof<F, L, C, P>,
        half: int,
        r: Result<(Vec<Claim<F>>, Claim<F>), Error>,
    ) -> bool {
        let m = F::modulus();
        let input = proof.sumcheck_evals@[0].residue();
        let max = proof.sumcheck_evals@[1].residue();
        let out = self.output();
        let rest = self.rest(half, input, max);
        let factor = self.factor(half, input);
        let divides = invertible(factor % m, m);
        let tokens = token_sum(
            out.data@,
            output_rows(out, self.end()),
            output_columns(out, self.end()),
        );
        let first = beta(output_columns(self.outputs@[0], self.end()), 0);
        let valid = tokens_valid(
            out.data@,
            pow2(output_rows(out, self.end()).len()),
            self.width(),
        );
        let commitments = if ctx.range_check_chunks == 1 {
            1
        } else {
            ctx.range_check_chunks + 1
        };
        match r {
            Ok((claims, input_claim)) => {
                &&& self.padded_input_shapes@.len() == 1
                &&& self.lookup_evals@.len() == ctx.range_check_chunks
                &&& ctx.range_check_chunks > 0
                &&& self.outputs@.len() == 1
                &&& all_pow2(out.shape@)
                &&& divides || all_pow2(self.outputs@[0].shape@)
                &&& valid
                &&& end_accepted(tokens, first, rest, factor, m)
                &&& proof.commitments@.len() == commitments
                &&& claims@.len() == commitments
                &&& claims@[0].point@ == self.subclaim.point@.skip(self.col_vars() as int)
                &&& claims@[0].eval == proof.sumcheck_evals@[1]
                &&& forall|i: int|
                    0 <= i < claims@.len() - 1 ==> (#[trigger] claims@[i + 1]).point@
                        == self.lookup_point@ && claims@[i + 1].eval == self.lookup_evals@[i]
                &&& input_claim.point@ == self.subclaim.point@
                &&& input_claim.eval == proof.sumcheck_evals@[0]
            },
            Err(e) => if self.padded_input_shapes@.len() != 1 {
                e == Error::WrongNumberOfInputs
            } else if self.lookup_evals@.len() != ctx.range_check_chunks || ctx.range_check_chunks
                == 0 {
                e == Error::WrongNumberOfClaims
            } else if !divides && !all_pow2(self.outputs@[0].shape@) {
                e == Error::InvalidShape
            } else if !divides && !cong(rest, 0, m) {
                e == Error::EvaluationMismatch
            } else if self.outputs@.len() != 1 {
                e == Error::WrongNumberOfInputs
            } else if !all_pow2(out.shape@) {
                e == Error::InvalidShape
            } else if !valid {
                e == Error::TokenOutOfRange
            } else if !end_accepted(tokens, first, rest, factor, m) {
                e == Error::EvaluationMismatch
            } else {
                e == Error::WrongNumberOfCommitments && proof.commitments@.len() != commitments
            },
        }
    }
}

impl LogitsCtx {
    /// Decides on the proof of a logits layer, once the verifier has checked the
    /// lookup and run the sumcheck. Where the proof is accepted, the claims on what
    /// the layer committed to and the claim on its input are returned.
    pub fn verify_chunk<F: PrimeField, L, C, P>(
        &self,
        proof: &LogitsProof<F, L, C, P>,
        chunk: &LogitsChunk<F>,
    ) -> (r: Result<(Vec<Claim<F>>, Claim<F>), Error>)
        requires
            proof.sumcheck_evals@.len() >= 2,
            chunk.fits(proof.sumcheck_evals@[0].residue()),
            self.range_check_chunks < usize::MAX,
        ensures
            exists|half: int|
                0 <= half < F::modulus() && #[trigger] inverts(2, half, F::modulus())
                    && chunk.decides(*self, *proof, half, r),
    {
        let half = F::half();
        let ghost h = half.residue();
        proof {
            half.residue_bounds();
        }
        assert(inverts(2, h, F::modulus()));
        let r = self.verify_chunk_with(proof, chunk, half);
        assert(chunk.decides(*self, *proof, h, r));
        r
    }

    /// Decides on the proof of a logits layer, given one half.
    fn verify_chunk_with<F: PrimeField, L, C, P>(
        &self,
        proof: &LogitsProof<F, L, C, P>,
        chunk: &LogitsChunk<F>,
        half: F,
    ) -> (r: Result<(Vec<Claim<F>>, Claim<F>), Error>)
        requires
            proof.sumcheck_evals@.len() >= 2,
            chunk.fits(proof.sumcheck_evals@[0].residue()),
            self.range_check_chunks < usize::MAX,
            inverts(2, half.residue(), F::modulus()),
        ensures
            chunk.decides(*self, *proof, half.residue(), r),
    {
        if chunk.padded_input_shapes.len() != 1 {
            return Err(Error::WrongNumberOfInputs);
        }
        let poly_claims = match self.range_check_claims(&chunk.lookup_point, &chunk.lookup_evals) {
            Ok(c) => c,
            Err(e) => {
                return Err(e);
            },
        };
        if poly_claims.len() == 0 {
            return Err(Error::WrongNumberOfClaims);
        }
        let shape = &chunk.padded_input_shapes[0];
        let num_col_vars = ceil_log2(shape.dims[shape.rank() - 1]);
        let unpadded = &chunk.unpadded_input_shapes[0];
        let unpadded_dim_size: usize = unpadded.dims[unpadded.rank() - 1];
        let expected_output = match expected_output_eval(proof, chunk, half, num_col_vars) {
            Ok(e) => e,
            Err(e) => {
                return Err(e);
            },
        };
        let output_claim = Claim::new(copied(&chunk.subclaim.point), expected_output);
        let ghost m = F::modulus();
        let ghost input = proof.sumcheck_evals@[0].residue();
        let ghost max = proof.sumcheck_evals@[1].residue();
        let ghost rest = chunk.rest(half.residue(), input, max);
        let ghost factor = chunk.factor(half.residue(), input);
        let ghost out = chunk.output();
        let ghost end = chunk.end();
        let ghost tokens = token_sum(out.data@, output_rows(out, end), output_columns(out, end));
        let ghost first = beta(output_columns(chunk.outputs@[0], end), 0);
        proof {
            if chunk.outputs@.len() == 1 && all_pow2(out.shape@) {
                let split = output_claim.point@.len() - log2_ceil(out.shape@[0] as nat);
                assert(residues(output_claim.point@.skip(split)) =~= output_rows(out, end));
                assert(residues(output_claim.point@.take(split)) =~= output_columns(out, end));
            }
            assert(stands_for(expected_output, tokens) == end_accepted(
                tokens,
                first,
                rest,
                factor,
                m,
            )) by {
                expected_output.residue_bounds();
            }
        }
        match Self::verify_output_evaluation(
            &chunk.outputs,
            &chunk.split_outputs,
            &output_claim,
            unpadded_dim_size,
            chunk.chunk_number,
        ) {
            Ok(_) => {},
            Err(e) => {
                return Err(e);
            },
        }
        let many = self.range_check_chunks != 1;
        let expected_commitments: usize = if many {
            self.range_check_chunks + 1
        } else {
            1
        };
        if proof.commitments.len() != expected_commitments {
            return Err(Error::WrongNumberOfCommitments);
        }
        proof {
            lemma_num_vars_split(shape@, shape@.len() - 1);
            assert(shape@.skip(shape@.len() - 1) =~= seq![shape@.last()]);
            assert(shape@.skip(shape@.len() - 1).drop_last() =~= Seq::<usize>::empty());
            assert(num_vars(Seq::<usize>::empty()) == 0);
        }
        let row_part = part(
            chunk.subclaim.point.as_slice(),
            num_col_vars,
            chunk.subclaim.point.len(),
        );
        assert(row_part@ =~= chunk.subclaim.point@.skip(num_col_vars as int));
        let claims = witness_claims(row_part, proof.sumcheck_evals[1], many, &poly_claims);
        let input_claim = Claim::new(copied(&chunk.subclaim.point), proof.sumcheck_evals[0]);
        Ok((claims, input_claim))
    }
}

/// The value that the chosen tokens should have at the end of the sumcheck.
fn expected_output_eval<F: PrimeField, L, C, P>(
    proof: &LogitsProof<F, L, C, P>,
    chunk: &LogitsChunk<F>,
    half: F,
    num_col_vars: usize,
) -> (r: Result<F, Error>)
    requires
        proof.sumcheck_evals@.len() >= 2,
        chunk.fits(proof.sumcheck_evals@[0].residue()),
        chunk.padded_input_shapes@.len() == 1,
        num_col_vars == chunk.col_vars(),
        inverts(2, half.residue(), F::modulus()),
    ensures
        ({
            let m = F::modulus();
            let input = proof.sumcheck_evals@[0].residue();
            let max = proof.sumcheck_evals@[1].residue();
            let rest = chunk.rest(half.residue(), input, max);
            let factor = chunk.factor(half.residue(), input);
            let divides = invertible(factor % m, m);
            match r {
                Ok(e) => if divides {
                    forall|v: int| #[trigger] stands_for(e, v) == cong(v * factor, rest, m)
                } else {
                    &&& all_pow2(chunk.outputs@[0].shape@)
                    &&& cong(rest, 0, m)
                    &&& stands_for(e, beta(output_columns(chunk.outputs@[0], chunk.end()), 0))
                },
                Err(e) => {
                    &&& !divides
                    &&& if !all_pow2(chunk.outputs@[0].shape@) {
                        e == Error::InvalidShape
                    } else {
                        e == Error::EvaluationMismatch && !cong(rest, 0, m)
                    }
                },
            }
        }),
{
    let ghost m = F::modulus();
    let ghost end = chunk.end();
    let ghost lookup = residues(chunk.lookup_point@);
    let ghost shape = chunk.padded_input_shapes@[0]@;
    let unpadded = &chunk.unpadded_input_shapes[0];
    let width: usize = unpadded.dims[unpadded.rank() - 1];
    proof {
        half.residue_bounds();
        lemma_num_vars_split(shape, shape.len() - 1);
        assert(shape.skip(shape.len() - 1) =~= seq![shape.last()]);
        assert(shape.skip(shape.len() - 1).drop_last() =~= Seq::<usize>::empty());
        assert(num_vars(Seq::<usize>::empty()) == 0);
        assert(shape[shape.len() - 1] == pow2(log2_ceil(shape[shape.len() - 1] as nat)));
    }
    let row_point = part(chunk.lookup_point.as_slice(), num_col_vars, chunk.lookup_point.len());
    let sum_eq_point = averaging(num_col_vars, row_point.as_slice(), half);
    assert(residues(row_point@) =~= lookup.skip(num_col_vars as int));
    let average = identity_eval(sum_eq_point.as_slice(), chunk.subclaim.point.as_slice());
    let lookup_eq = identity_eval(
        chunk.lookup_point.as_slice(),
        chunk.subclaim.point.as_slice(),
    );
    let col_part = part(chunk.subclaim.point.as_slice(), 0, num_col_vars);
    assert(residues(col_part@) =~= end.take(num_col_vars as int));
    let width_bits = to_bit_sequence_le::<F>(width - 1, num_col_vars);
    proof {
        lemma_bit_residues(width - 1, num_col_vars as nat, width_bits@);
        lemma_zeroifier_bits(residues(col_part@), width - 1);
    }
    let lt = eval_zeroifier_mle(col_part.as_slice(), width_bits.as_slice());
    let average = Lifted::known(average, Ghost(chunk.average(half.residue())));
    let lookup_eq = Lifted::known(lookup_eq, Ghost(identity(lookup, end)));
    let lt = Lifted::known(lt, Ghost(bounded(end.take(num_col_vars as int), width as int)));
    let input = Lifted::of(proof.sumcheck_evals[0]);
    let max = Lifted::of(proof.sumcheck_evals[1]);
    let challenge = Lifted::of(chunk.challenge);
    let expected = Lifted::of(chunk.subclaim.expected_evaluation);
    proof {
        lemma2_to64();
        lemma2_to64_rest();
        if num_col_vars < 62 {
            lemma_pow2_strictly_increases(num_col_vars as nat, 62);
        }
        if num_col_vars < chunk.subclaim.point@.len() {
            lemma_pow2_strictly_increases(num_col_vars as nat, chunk.subclaim.point@.len());
        }
    }
    let num_cols = Lifted::<F>::of_u64(power_of_two(num_col_vars) as u64);
    let zero = Lifted::<F>::zero();
    let factor = zero.minus(num_cols).times(average).times(input);
    let rest = expected.minus(
        challenge.times(lt).times(lookup_eq).times(max.minus(input)),
    ).minus(average.times(max));
    let factor_elem = factor.get();
    assert(factor@ == chunk.factor(half.residue(), input@));
    assert(rest@ == chunk.rest(half.residue(), input@, max@));
    match factor_elem.inverse() {
        Some(inv) => {
            let value = rest.times(Lifted::of(inv)).get();
            proof {
                assert(inverts(inv.residue(), factor@ % m, m));
                assert forall|v: int| #[trigger]
                    stands_for(value, v) == cong(v * factor@, rest@, m) by {
                    lemma_divide(v, factor@, inv.residue(), rest@, m);
                    assert(stands_for(value, rest@ * inv.residue()));
                }
            }
            Ok(value)
        },
        None => {
            assert(!invertible(factor@ % m, m));
            let output = &chunk.outputs[0];
            if !is_power_of_two(&output.shape) {
                return Err(Error::InvalidShape);
            }
            let rest_elem = rest.get();
            proof {
                lemma_small_mod(0, m as nat);
            }
            if !rest_elem.is_same(F::zero()) {
                return Err(Error::EvaluationMismatch);
            }
            let num_row_vars = ceil_log2(output.shape.dims[0]);
            let (column_point, _) = Logits::split_claim_point(
                chunk.subclaim.point.as_slice(),
                num_row_vars,
            );
            let ghost col = output_columns(*output, end);
            assert(residues(column_point@) =~= col);
            let one = Lifted::<F>::one();
            let mut acc = Lifted::<F>::one();
            for i in 0..column_point.len()
                invariant
                    col == residues(column_point@),
                    one@ == 1,
                    acc@ == beta(col.take(i as int), 0),
            {
                proof {
                    lemma_beta_first(col, i as int);
                }
                acc = acc.times(one.minus(Lifted::of(column_point[i])));
            }
            assert(col.take(col.len() as int) =~= col);
            Ok(acc.get())
        },
    }
}

} // verus!
