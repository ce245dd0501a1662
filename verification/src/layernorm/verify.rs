//! The decisions of the verifier of the layer.
use vstd::prelude::*;
use vstd::arithmetic::power2::pow2;
use crate::claim::{joined, part, Claim, SubClaim};
use crate::congruence::cong;
use crate::error::Error;
use crate::expression::lemma_within_more;
use crate::field::{inverts, lemma_residue_stands, residues, stands_for, Lifted, PrimeField};
use crate::layernorm::prove::{left_claims, LayerNormClaims, LayerNormCtx, LayerNormProof};
use crate::logits::prove::{averaging, averaging_point};
use crate::logits::verify::{invertible, lemma_divide};
use crate::mle::{identity, identity_eval};
use crate::positional::absolute::is_quotient;
use crate::shape::power_of_two;
use crate::sum::{lemma_sum_same, sum};
use crate::tensor::copied;

verus! {

/// A base, multiplied by a factor `n` times.
pub open spec fn scaled_by(base: int, factor: int, n: nat) -> int
    decreases n,
{
    if n == 0 {
        base
    } else {
        scaled_by(base, factor, (n - 1) as nat) * factor
    }
}

/// Multiplies an element by a factor `n` times.
fn scale_by<F: PrimeField>(base: F, factor: F, n: usize, Ghost(b): Ghost<int>, Ghost(f): Ghost<int>) -> (r:
    F)
    requires
        stands_for(base, b),
        stands_for(factor, f),
    ensures
        stands_for(r, scaled_by(b, f, n as nat)),
{
    let mut acc = Lifted::known(base, Ghost(b));
    for i in 0..n
        invariant
            stands_for(factor, f),
            acc@ == scaled_by(b, f, i as nat),
    {
        acc = acc.times(Lifted::known(factor, Ghost(f)));
    }
    acc.get()
}

/// The value whose inverse root was looked up, put together from the evaluations of the
/// range checked chunks and of what was looked up. `half` undoes the scale of the
/// highest chunk.
pub open spec fn recombined_evals(
    range: Seq<int>,
    input: int,
    bits: nat,
    top: nat,
    chunk: int,
    half: int,
) -> int {
    let n = (range.len() - 1) as nat;
    input * pow2(bits) + sum(n, |j: int| range[j] * scaled_by(1, chunk, j as nat)) + scaled_by(
        range.last(),
        half,
        top,
    ) * scaled_by(1, chunk, n)
}

/// What the second sumcheck starts from: the evaluations of the input and of the sums of
/// the rows, batched.
pub open spec fn mean_sum(evals: Seq<int>, alpha: int) -> int {
    evals[0] + alpha * evals[1]
}

impl<F: PrimeField> LayerNormCtx<F> {
    /// What the first sumcheck starts from: the value whose inverse root was looked up, the
    /// root and the output, batched.
    pub open spec fn first_sum(
        &self,
        evals: Seq<int>,
        alpha: int,
        last: int,
        bit_len: nat,
        half: int,
    ) -> int {
        let n = evals.len() - 2;
        recombined_evals(
            evals.take(n),
            evals[n],
            self.range_check_bits as nat,
            self.top_chunk_scalar_log as nat,
            pow2(bit_len) as int,
            half,
        ) + alpha * (evals[n + 1] + alpha * last)
    }

    /// The sum that the first sumcheck has to start from, for the evaluations that the
    /// lookup left: those of the range checked chunks, of what was looked up and of the
    /// inverse roots.
    pub fn claimed_sum(
        &self,
        poly_evals: &Vec<F>,
        alpha: F,
        last_claim: &Claim<F>,
        bit_len: usize,
    ) -> (r: F)
        requires
            poly_evals@.len() >= 3,
            pow2(self.range_check_bits as nat) <= usize::MAX,
            pow2(bit_len as nat) <= usize::MAX,
        ensures
            exists|half: F| #[trigger]
                inverts(2, half.residue(), F::modulus()) && stands_for(
                    r,
                    self.first_sum(
                        residues(poly_evals@),
                        alpha.residue(),
                        last_claim.eval.residue(),
                        bit_len as nat,
                        half.residue(),
                    ),
                ),
    {
        let n: usize = poly_evals.len() - 2;
        let half = F::half();
        let ghost e = residues(poly_evals@);
        let ghost range = e.take(n as int);
        let ghost chunk = pow2(bit_len as nat) as int;
        let chunk_elem = Lifted::<F>::of_u64(power_of_two(bit_len) as u64).get();
        let shift = Lifted::<F>::of_u64(power_of_two(self.range_check_bits) as u64);
        let mut acc = Lifted::of(poly_evals[n]).times(shift);
        let ghost start = acc@;
        let mut power = Lifted::<F>::one();
        let ghost f = |j: int| range[j] * scaled_by(1, chunk, j as nat);
        let last: usize = n - 1;
        for j in 0..last
            invariant
                last < n,
                n + 2 == poly_evals@.len(),
                e == residues(poly_evals@),
                range == e.take(n as int),
                stands_for(chunk_elem, chunk),
                power@ == scaled_by(1, chunk, j as nat),
                f == |j: int| range[j] * scaled_by(1, chunk, j as nat),
                acc@ == start + sum(j as nat, f),
        {
            let p = power.get();
            let ghost pv = scaled_by(1, chunk, j as nat);
            acc = acc.plus(Lifted::of(poly_evals[j]).times(Lifted::known(p, Ghost(pv))));
            power = Lifted::known(p, Ghost(pv)).times(Lifted::known(chunk_elem, Ghost(chunk)));
        }
        let ghost top_value = scaled_by(range.last(), half.residue(), self.top_chunk_scalar_log as nat);
        proof {
            lemma_residue_stands(poly_evals@[last as int]);
            lemma_residue_stands(half);
            assert(range.last() == poly_evals@[last as int].residue());
        }
        let top = scale_by(
            poly_evals[last],
            half,
            self.top_chunk_scalar_log,
            Ghost(range.last()),
            Ghost(half.residue()),
        );
        let value = acc.plus(Lifted::known(top, Ghost(top_value)).times(power));
        let a = Lifted::of(alpha);
        let rest = Lifted::of(poly_evals[n + 1]).plus(
            Lifted::of(alpha).times(Lifted::of(last_claim.eval)),
        );
        proof {
            lemma_sum_same(last as nat, f, |j: int| range[j] * scaled_by(1, chunk, j as nat));
        }
        value.plus(a.times(rest)).get()
    }

    /// The sum that the second sumcheck has to start from.
    pub fn claimed_mean_sum(io_evaluations: &Vec<F>, alpha: F) -> (r: F)
        requires
            io_evaluations@.len() >= 2,
        ensures
            stands_for(r, mean_sum(residues(io_evaluations@), alpha.residue())),
    {
        let product = Lifted::of(alpha).times(Lifted::of(io_evaluations[1]));
        Lifted::of(io_evaluations[0]).plus(product).get()
    }

    /// What the first sumcheck has to end on: the value of its expression at the
    /// evaluations of the proof, with those of the two tables of factors behind them.
    pub open spec fn computed(
        &self,
        evals: Seq<F>,
        alpha: int,
        lookup: Seq<int>,
        last: Seq<int>,
        end: Seq<int>,
        half: int,
    ) -> int {
        let cols = (end.len() - lookup.len()) as nat;
        let w = residues(evals) + seq![
            identity(averaging_point(half, cols, lookup), end) % F::modulus(),
            identity(last, end) % F::modulus(),
        ];
        self.first_sumcheck_expression.value(w, seq![alpha])
    }

    /// What the evaluation of the input is multiplied by at the end of the second
    /// sumcheck.
    pub open spec fn mean_factor(
        alpha: int,
        io: Seq<int>,
        cols: nat,
        end: Seq<int>,
        half: int,
    ) -> int {
        identity(io, end) + (pow2(cols) * alpha) * identity(
            averaging_point(half, cols, io.skip(cols as int)),
            end,
        )
    }

    /// Decides on the end of the first sumcheck, given one half.
    fn verify_io(
        &self,
        io_evaluations: &Vec<F>,
        last_claim: &Claim<F>,
        lookup_point: &Vec<F>,
        alpha: F,
        io_subclaim: &SubClaim<F>,
        half: F,
    ) -> (r: Result<(), Error>)
        requires
            self.first_sumcheck_expression.within(io_evaluations@.len() + 2, 1),
            lookup_point@.len() <= io_subclaim.point@.len(),
            last_claim.point@.len() == io_subclaim.point@.len(),
        ensures
            match r {
                Ok(_) => io_ends(
                    *self,
                    io_evaluations@,
                    alpha,
                    lookup_point@,
                    last_claim.point@,
                    *io_subclaim,
                    half,
                ),
                Err(e) => e == Error::EvaluationMismatch && !io_ends(
                    *self,
                    io_evaluations@,
                    alpha,
                    lookup_point@,
                    last_claim.point@,
                    *io_subclaim,
                    half,
                ),
            },
    {
        let diff: usize = io_subclaim.point.len() - lookup_point.len();
        let full_point = averaging(diff, lookup_point.as_slice(), half);
        let ghost end = residues(io_subclaim.point@);
        let ghost lookup = residues(lookup_point@);
        let ghost last = residues(last_claim.point@);
        let input_eq = identity_eval(full_point.as_slice(), io_subclaim.point.as_slice());
        let last_eq = identity_eval(last_claim.point.as_slice(), io_subclaim.point.as_slice());
        let witnesses = joined(io_evaluations.as_slice(), &[input_eq, last_eq]);
        let challenges = [alpha];
        let value = self.first_sumcheck_expression.evaluate(witnesses.as_slice(), &challenges);
        proof {
            let m = F::modulus();
            assert(residues(witnesses@) =~= residues(io_evaluations@) + seq![
                identity(averaging_point(half.residue(), diff as nat, lookup), end) % m,
                identity(last, end) % m,
            ]);
            assert(residues(challenges@) =~= seq![alpha.residue()]);
        }
        if value.is_same(io_subclaim.expected_evaluation) {
            Ok(())
        } else {
            Err(Error::EvaluationMismatch)
        }
    }

    /// The evaluation of the input that the end of the second sumcheck gives, given one
    /// half. Where it gives none, the proof is refused.
    fn verify_mean(
        io_point: &Vec<F>,
        cols: usize,
        alpha: F,
        mean_subclaim: &SubClaim<F>,
        half: F,
    ) -> (r: Result<F, Error>)
        requires
            cols <= io_point@.len(),
            pow2(cols as nat) <= usize::MAX,
            mean_subclaim.point@.len() == io_point@.len(),
        ensures
            ({
                let factor = Self::mean_factor(
                    alpha.residue(),
                    residues(io_point@),
                    cols as nat,
                    residues(mean_subclaim.point@),
                    half.residue(),
                );
                let divides = invertible(factor % F::modulus(), F::modulus());
                match r {
                    Ok(eval) => divides && is_quotient(
                        eval,
                        mean_subclaim.expected_evaluation.residue(),
                        factor,
                    ),
                    Err(e) => e == Error::ZeroDenominator && !divides,
                }
            }),
    {
        let ghost m = F::modulus();
        let ghost end = residues(mean_subclaim.point@);
        let ghost io = residues(io_point@);
        let input_eq = Lifted::known(
            identity_eval(io_point.as_slice(), mean_subclaim.point.as_slice()),
            Ghost(identity(io, end)),
        );
        let row = part(io_point.as_slice(), cols, io_point.len());
        assert(residues(row@) =~= io.skip(cols as int));
        let sum_point = averaging(cols, row.as_slice(), half);
        let sum_eq = Lifted::known(
            identity_eval(sum_point.as_slice(), mean_subclaim.point.as_slice()),
            Ghost(
                identity(
                    averaging_point(half.residue(), cols as nat, io.skip(cols as int)),
                    end,
                ),
            ),
        );
        let scaled = Lifted::<F>::of_u64(power_of_two(cols) as u64).times(Lifted::of(alpha));
        let factor = input_eq.plus(scaled.times(sum_eq));
        let ghost fv = factor@;
        assert(fv == Self::mean_factor(alpha.residue(), io, cols as nat, end, half.residue()));
        let factor_elem = factor.get();
        match factor_elem.inverse() {
            Some(inverse) => {
                let expected = Lifted::of(mean_subclaim.expected_evaluation);
                let eval = expected.times(Lifted::of(inverse)).get();
                proof {
                    let rest = mean_subclaim.expected_evaluation.residue();
                    mean_subclaim.expected_evaluation.residue_bounds();
                    assert(inverts(inverse.residue(), fv % m, m));
                    assert forall|x: int| #[trigger] stands_for(eval, x) == cong(x * fv, rest, m) by {
                        lemma_divide(x, fv, inverse.residue(), rest, m);
                        assert(stands_for(eval, rest * inverse.residue()));
                    }
                    assert(is_quotient(eval, rest, fv));
                }
                Ok(eval)
            },
            None => {
                assert(!invertible(fv % m, m));
                Err(Error::ZeroDenominator)
            },
        }
    }
}

/// The first sumcheck ended on the value that was computed, with `half` the inverse of two.
pub open spec fn io_ends<F: PrimeField>(
    ctx: LayerNormCtx<F>,
    evals: Seq<F>,
    alpha: F,
    lookup: Seq<F>,
    last: Seq<F>,
    end: SubClaim<F>,
    half: F,
) -> bool {
    stands_for(
        end.expected_evaluation,
        ctx.computed(
            evals,
            alpha.residue(),
            residues(lookup),
            residues(last),
            residues(end.point@),
            half.residue(),
        ),
    )
}

/// What a verifier of the layer gets beside the proof: the claim on the output, the
/// claims that the lookup left, the challenges and the ends of both sumchecks.
#[derive(Debug)]
pub struct LayerNormEnds<F> {
    pub last_claims: Vec<Claim<F>>,
    pub poly_evals: Vec<F>,
    pub lookup_point: Vec<F>,
    pub alpha: F,
    pub io_subclaim: SubClaim<F>,
    pub mean_alpha: F,
    pub mean_subclaim: SubClaim<F>,
}

impl<F: PrimeField> LayerNormEnds<F> {
    /// The points fit together, the sizes fit into memory, and the first sumcheck has seven
    /// tables and one challenge.
    pub open spec fn fits(&self, ctx: LayerNormCtx<F>) -> bool {
        &&& self.poly_evals@.len() >= 1
        &&& ctx.first_sumcheck_expression.within(7, 1)
        &&& self.lookup_point@.len() <= self.io_subclaim.point@.len()
        &&& pow2(self.cols()) <= usize::MAX
        &&& self.mean_subclaim.point@.len() == self.io_subclaim.point@.len()
        &&& self.last_claims@.len() == 1 ==> self.last_claims@[0].point@.len()
            == self.io_subclaim.point@.len()
    }

    /// The number of column variables.
    pub open spec fn cols(&self) -> nat {
        (self.io_subclaim.point@.len() - self.lookup_point@.len()) as nat
    }

    /// The first sumcheck ended on what the evaluations of the proof give.
    pub open spec fn io_accepted(&self, ctx: LayerNormCtx<F>, evals: Seq<F>, half: F) -> bool {
        io_ends(
            ctx,
            evals,
            self.alpha,
            self.lookup_point@,
            self.last_claims@[0].point@,
            self.io_subclaim,
            half,
        )
    }

    /// What the evaluation of the input is multiplied by at the end of the second
    /// sumcheck.
    pub open spec fn factor(&self, half: F) -> int {
        LayerNormCtx::<F>::mean_factor(
            self.mean_alpha.residue(),
            residues(self.io_subclaim.point@),
            self.cols(),
            residues(self.mean_subclaim.point@),
            half.residue(),
        )
    }

    /// What the verifier decides, where `half` inverts two.
    pub open spec fn decides(
        &self,
        ctx: LayerNormCtx<F>,
        evals: Seq<F>,
        half: F,
        r: Result<LayerNormClaims<F>, Error>,
    ) -> bool {
        let m = F::modulus();
        let divides = invertible(self.factor(half) % m, m);
        match r {
            Ok(c) => {
                &&& self.last_claims@.len() == 1
                &&& evals.len() >= 5
                &&& self.io_accepted(ctx, evals, half)
                &&& divides
                &&& is_quotient(
                    c.input.eval,
                    self.mean_subclaim.expected_evaluation.residue(),
                    self.factor(half),
                )
                &&& c.input.point@ == self.mean_subclaim.point@
                &&& c.are_left(
                    ctx.gamma_key@,
                    ctx.beta_key@,
                    evals,
                    self.poly_evals@,
                    self.lookup_point@,
                    self.io_subclaim.point@,
                )
            },
            Err(e) => if self.last_claims@.len() != 1 {
                e == Error::WrongNumberOfClaims
            } else if evals.len() < 5 {
                e == Error::UnexpectedProof
            } else if !self.io_accepted(ctx, evals, half) {
                e == Error::EvaluationMismatch
            } else {
                e == Error::ZeroDenominator && !divides
            },
        }
    }
}

impl<F: PrimeField> LayerNormCtx<F> {
    /// Decides on the ends of both sumchecks. Where they are accepted, the claims that are
    /// left are returned. A proof with fewer than five evaluations is refused.
    pub fn verify<L, C, P>(&self, proof: &LayerNormProof<F, L, C, P>, ends: &LayerNormEnds<F>) -> (r:
        Result<LayerNormClaims<F>, Error>)
        requires
            ends.fits(*self),
        ensures
            exists|half: F| #[trigger]
                inverts(2, half.residue(), F::modulus()) && ends.decides(
                    *self,
                    proof.io_evaluations@,
                    half,
                    r,
                ),
    {
        let half = F::half();
        assert(inverts(2, half.residue(), F::modulus()));
        let r = self.verify_with(&proof.io_evaluations, ends, half);
        assert(ends.decides(*self, proof.io_evaluations@, half, r));
        r
    }

    /// Decides on the ends of both sumchecks, given one half.
    fn verify_with(&self, io_evaluations: &Vec<F>, ends: &LayerNormEnds<F>, half: F) -> (r: Result<
        LayerNormClaims<F>,
        Error,
    >)
        requires
            ends.fits(*self),
        ensures
            ends.decides(*self, io_evaluations@, half, r),
    {
        if ends.last_claims.len() != 1 {
            return Err(Error::WrongNumberOfClaims);
        }
        if io_evaluations.len() < 5 {
            return Err(Error::UnexpectedProof);
        }
        proof {
            lemma_within_more(
                self.first_sumcheck_expression,
                7,
                io_evaluations@.len() + 2,
                1,
            );
        }
        match self.verify_io(
            io_evaluations,
            &ends.last_claims[0],
            &ends.lookup_point,
            ends.alpha,
            &ends.io_subclaim,
            half,
        ) {
            Ok(_) => {},
            Err(e) => {
                return Err(e);
            },
        }
        let cols: usize = ends.io_subclaim.point.len() - ends.lookup_point.len();
        match Self::verify_mean(
            &ends.io_subclaim.point,
            cols,
            ends.mean_alpha,
            &ends.mean_subclaim,
            half,
        ) {
            Ok(input_eval) => Ok(
                left_claims(
                    &self.gamma_key,
                    &self.beta_key,
                    io_evaluations,
                    &ends.poly_evals,
                    &ends.lookup_point,
                    &ends.io_subclaim.point,
                    Claim::new(copied(&ends.mean_subclaim.point), input_eval),
                ),
            ),
            Err(e) => Err(e),
        }
    }
}

} // verus!
