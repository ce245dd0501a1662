//! What the prover of a logits layer hands to its lookup and its sumcheck, and
//! what it makes of their outcome.
use vstd::prelude::*;
use vstd::arithmetic::div_mod::*;
use vstd::arithmetic::power2::{lemma2_to64, lemma2_to64_rest, lemma_pow2_adds, lemma_pow2_pos, lemma_pow2_strictly_increases, pow2};
use crate::claim::{joined, part, Claim};
use crate::error::Error;
use crate::expression::Expression;
use crate::field::{all_stand_for, inverts, residues, stands_for, Lifted, PrimeField};
use crate::logits::witness::{chunk_shift, element_ints, recombined, to_field};
use crate::logits::{chunk_count, Logits};
use crate::mle::{betas, compute_betas_eval, lemma_pow2_unfold_zero};
use crate::shape::{ceil_log2, log2_ceil, power_of_two};
use crate::sum::sum;
use crate::tensor::{copied, Element, Tensor};

verus! {

/// Two points have the same residues.
pub open spec fn same_residues<F: PrimeField>(a: Seq<F>, b: Seq<F>) -> bool {
    residues(a) == residues(b)
}

/// Whether two points are the same.
pub fn same_point<F: PrimeField>(a: &Vec<F>, b: &Vec<F>) -> (r: bool)
    ensures
        r == same_residues(a@, b@),
{
    if a.len() != b.len() {
        assert(residues(a@).len() != residues(b@).len());
        return false;
    }
    for i in 0..a.len()
        invariant
            a@.len() == b@.len(),
            forall|j: int| 0 <= j < i ==> a@[j].residue() == (#[trigger] b@[j]).residue(),
    {
        if !a[i].is_same(b[i]) {
            assert(residues(a@)[i as int] != residues(b@)[i as int]);
            return false;
        }
    }
    assert(residues(a@) =~= residues(b@));
    true
}

/// A copy of a claim.
pub fn copy_claim<F: Copy>(c: &Claim<F>) -> (r: Claim<F>)
    ensures
        r.point@ == c.point@,
        r.eval == c.eval,
{
    Claim::new(copied(&c.point), c.eval)
}

/// All claims are at the point of the first.
pub open spec fn at_one_point<F: PrimeField>(claims: Seq<Claim<F>>) -> bool {
    forall|i: int|
        0 <= i < claims.len() ==> same_residues((#[trigger] claims[i]).point@, claims[0].point@)
}

/// The tables of the sumcheck of a logits layer.
#[derive(Debug)]
pub struct HadamardSumcheck<F> {
    /// In this order: the input, the maxima, the chosen tokens, the factors that
    /// average over the columns, the factors of the looked up claim and the bound
    /// of the columns.
    pub tables: Vec<Vec<F>>,
    pub expression: Expression<F>,
    /// The claim on the distances that the lookup left.
    pub diff_claim: Claim<F>,
}

/// What is summed, where the tables take the values `w`: on average over the
/// columns the maximum is the chosen input, and inside the columns the distance
/// to the maximum is what was looked up.
pub open spec fn hadamard_value(w: Seq<int>, num_cols: int, challenge: int) -> int {
    w[3] * (w[1] - (num_cols * w[2]) * w[0]) + challenge * ((w[4] * w[5]) * (w[1] - w[0]))
}

/// One where the column is the chosen token of its row.
pub open spec fn one_hot(tokens: Seq<Element>, cols: int, p: int) -> int {
    if p / cols < tokens.len() && p % cols == tokens[p / cols] {
        1
    } else {
        0
    }
}

/// One inside the first `width` columns.
pub open spec fn inside_columns(width: int, cols: int, p: int) -> int {
    if p % cols < width {
        1
    } else {
        0
    }
}

/// A point whose column coordinates are all one half.
pub open spec fn averaging_point(half: int, cols: nat, row: Seq<int>) -> Seq<int> {
    Seq::new(cols, |i: int| half) + row
}

/// The tables, the expression and the claim are those of the sumcheck by which a
/// logits layer is proved.
pub open spec fn is_hadamard_sumcheck<F: PrimeField>(
    input: Tensor<Element>,
    maxima: Seq<F>,
    tokens: Seq<Element>,
    claims: Seq<Claim<F>>,
    col_vars: nat,
    half: int,
    s: HadamardSumcheck<F>,
) -> bool {
    let point = claims[0].point@;
    let cols = pow2(col_vars) as int;
    let row = residues(point.skip(col_vars as int));
    &&& s.diff_claim.point@ == point
    &&& stands_for(
        s.diff_claim.eval,
        recombined(|i: int| claims[i].eval.residue(), claims.len()),
    )
    &&& s.tables@.len() == 6
    &&& all_stand_for(s.tables@[0]@, element_ints(input.data@))
    &&& s.tables@[1]@ == Seq::new(input.data@.len(), |p: int| maxima[p / cols])
    &&& all_stand_for(
        s.tables@[2]@,
        Seq::new(input.data@.len(), |p: int| one_hot(tokens, cols, p)),
    )
    &&& all_stand_for(s.tables@[3]@, betas(averaging_point(half, col_vars, row)))
    &&& all_stand_for(s.tables@[4]@, betas(residues(point)))
    &&& all_stand_for(
        s.tables@[5]@,
        Seq::new(
            input.data@.len(),
            |p: int| inside_columns(input.unpadded_shape@.last() as int, cols, p),
        ),
    )
    &&& forall|w: Seq<int>, c: Seq<int>|
        #[trigger] s.expression.value(w, c) == hadamard_value(
            w,
            pow2(col_vars) as int % F::modulus(),
            c[0],
        )
}

/// The proof of a logits layer. `L` is a proof of a lookup, `C` a commitment and
/// `P` a proof of a sumcheck.
#[derive(Debug)]
pub struct LogitsProof<F, L, C, P> {
    pub logup_proof: L,
    /// The commitments to the maxima and to the chunks.
    pub commitments: Vec<C>,
    pub hadamard_proof: P,
    /// What the input and the maxima take at the end of the sumcheck.
    pub sumcheck_evals: Vec<F>,
}

/// What is looked up for a layer: the committed chunks of the distances; where there is a
/// single chunk it is not committed to, and the distances are those of the input from the
/// committed maxima, inside the columns that are not padding.
pub open spec fn is_lookup_input<F: PrimeField>(
    committed: Seq<Vec<F>>,
    input: Tensor<F>,
    width: int,
    r: Seq<Vec<F>>,
) -> bool {
    if committed.len() > 1 {
        &&& r.len() == committed.len() - 1
        &&& forall|k: int| 0 <= k < r.len() ==> (#[trigger] r[k])@ == committed[k + 1]@
    } else {
        let cols = input.shape@.last() as int;
        let maxima = committed[0]@;
        &&& r.len() == 1
        &&& r[0]@.len() == if maxima.len() * cols <= input.data@.len() {
            maxima.len() * cols
        } else {
            input.data@.len() as int
        }
        &&& forall|p: int|
            0 <= p < r[0]@.len() ==> stands_for(
                #[trigger] r[0]@[p],
                if p % cols < width {
                    maxima[p / cols].residue() - input.data@[p].residue()
                } else {
                    0
                },
            )
    }
}

impl Logits {
    /// The claim on the distances that follows from the claims on their chunks.
    /// There is none of no claims, and the claims have to be at one point.
    pub fn recombine_range_check_claims<F: PrimeField>(logup_claims: &Vec<Claim<F>>) -> (r: Result<
        Claim<F>,
        Error,
    >)
        ensures
            match r {
                Ok(c) => {
                    &&& logup_claims@.len() > 0
                    &&& at_one_point(logup_claims@)
                    &&& c.point@ == logup_claims@[0].point@
                    &&& stands_for(
                        c.eval,
                        recombined(
                            |i: int| logup_claims@[i].eval.residue(),
                            logup_claims@.len(),
                        ),
                    )
                },
                Err(Error::WrongNumberOfClaims) => logup_claims@.len() == 0,
                Err(e) => e == Error::DifferentPoints && !at_one_point(logup_claims@),
            },
    {
        if logup_claims.len() == 0 {
            return Err(Error::WrongNumberOfClaims);
        }
        let point = copied(&logup_claims[0].point);
        let ghost evals = |i: int| logup_claims@[i].eval.residue();
        let ghost f = |i: int| evals(i) * pow2(chunk_shift(i));
        let multiplier = Lifted::<F>::of_u64(0x1_0000);
        let mut factor = Lifted::<F>::one();
        let mut eval = Lifted::<F>::zero();
        proof {
            lemma_pow2_unfold_zero();
        }
        for i in 0..logup_claims.len()
            invariant
                logup_claims@.len() > 0,
                point@ == logup_claims@[0].point@,
                evals == |i: int| logup_claims@[i].eval.residue(),
                f == |i: int| evals(i) * pow2(chunk_shift(i)),
                multiplier@ == 0x1_0000,
                factor@ == pow2(chunk_shift(i as int)),
                eval@ == sum(i as nat, f),
                forall|j: int|
                    0 <= j < i ==> same_residues(
                        (#[trigger] logup_claims@[j]).point@,
                        logup_claims@[0].point@,
                    ),
        {
            if !same_point(&logup_claims[i].point, &point) {
                assert(!same_residues(logup_claims@[i as int].point@, logup_claims@[0].point@));
                return Err(Error::DifferentPoints);
            }
            eval = eval.plus(factor.times(Lifted::of(logup_claims[i].eval)));
            proof {
                let x = pow2(chunk_shift(i as int)) as int;
                let y = evals(i as int);
                assert(x * y == y * x) by (nonlinear_arith);
                lemma_pow2_adds(chunk_shift(i as int), 16);
                lemma2_to64();
            }
            factor = factor.times(multiplier);
        }
        Ok(Claim::new(point, eval.get()))
    }

    /// The columns that the layer looks up: the distances to the maxima where they
    /// take a single chunk, and the committed chunks otherwise.
    pub fn build_lookup_input<F: PrimeField>(
        committed_polys: &Vec<Vec<F>>,
        input: &Tensor<F>,
        unpadded_dim_size: usize,
    ) -> (r: Vec<Vec<F>>)
        requires
            committed_polys@.len() >= 1,
            input.wf(),
            input.shape@.len() >= 1,
            input.shape@.last() > 0,
        ensures
            is_lookup_input(committed_polys@, *input, unpadded_dim_size as int, r@),
    {
        let mut r: Vec<Vec<F>> = Vec::new();
        if committed_polys.len() > 1 {
            for k in 1..committed_polys.len()
                invariant
                    committed_polys@.len() >= 1,
                    r@.len() == k - 1,
                    forall|j: int|
                        0 <= j < r@.len() ==> (#[trigger] r@[j])@ == committed_polys@[j + 1]@,
            {
                r.push(copied(&committed_polys[k]));
            }
            return r;
        }
        let rank = input.shape.rank();
        let cols: usize = input.shape.dims[rank - 1];
        let maxima = &committed_polys[0];
        let zero = Lifted::<F>::zero();
        let mut column: Vec<F> = Vec::new();
        let n: usize = input.data.len();
        let mut p: usize = 0;
        while p < n && p / cols < maxima.len()
            invariant
                cols == input.shape@.last(),
                cols > 0,
                n == input.data@.len(),
                p <= n,
                p as int <= maxima@.len() * cols,
                zero@ == 0,
                column@.len() == p,
                forall|q: int|
                    0 <= q < p ==> stands_for(
                        #[trigger] column@[q],
                        if (q % cols as int) < unpadded_dim_size {
                            maxima@[q / cols as int].residue() - input.data@[q].residue()
                        } else {
                            0
                        },
                    ),
            decreases n - p,
        {
            proof {
                let m = maxima@.len() as int;
                let c = cols as int;
                let q = p as int / c;
                lemma_fundamental_div_mod(p as int, c);
                assert(p + 1 <= m * c) by (nonlinear_arith)
                    requires
                        q < m,
                        c > 0,
                        p as int == c * q + p as int % c,
                        0 <= p as int % c < c,
                ;
            }
            if p % cols < unpadded_dim_size {
                let d = Lifted::of(maxima[p / cols]).minus(Lifted::of(input.data[p]));
                column.push(d.get());
            } else {
                column.push(zero.get());
            }
            p += 1;
        }
        proof {
            if p < n {
                let m = maxima@.len() as int;
                let c = cols as int;
                let q = p as int / c;
                lemma_fundamental_div_mod(p as int, c);
                assert(p as int >= m * c) by (nonlinear_arith)
                    requires
                        q >= m,
                        c > 0,
                        p as int == c * q + p as int % c,
                        0 <= p as int % c,
                ;
            }
        }
        r.push(column);
        r
    }
}

/// A point whose first `n` coordinates are one half.
pub fn averaging<F: PrimeField>(n: usize, row_point: &[F], half: F) -> (r: Vec<F>)
    ensures
        r@.len() == n + row_point@.len(),
        residues(r@) == averaging_point(half.residue(), n as nat, residues(row_point@)),
{
    let mut head: Vec<F> = Vec::new();
    for i in 0..n
        invariant
            head@.len() == i,
            forall|j: int| 0 <= j < i ==> #[trigger] head@[j] == half,
    {
        head.push(half);
    }
    let r = joined(head.as_slice(), row_point);
    assert(residues(r@) =~= averaging_point(half.residue(), n as nat, residues(row_point@)));
    r
}

/// The input fits the claim of the lookup: a power of two of columns, and as many
/// maxima as rows.
pub open spec fn fits_claim<F: PrimeField>(
    input: Tensor<Element>,
    maxima: Seq<F>,
    tokens: Seq<Element>,
    point: Seq<F>,
) -> bool {
    let rows = log2_ceil(maxima.len());
    let cols = pow2((point.len() - rows) as nat) as int;
    &&& input.wf()
    &&& input.shape@.len() >= 1
    &&& input.shape@.last() == cols
    &&& maxima.len() == pow2(rows)
    &&& rows <= point.len()
    &&& point.len() - rows < 63
    &&& input.data@.len() == pow2(point.len())
    &&& tokens.len() <= maxima.len()
    &&& forall|i: int| 0 <= i < tokens.len() ==> 0 <= #[trigger] tokens[i] && tokens[i] < cols
}

impl Logits {
    /// The sumcheck by which the prover shows that the chosen tokens have the
    /// largest logits. It takes a single input with a single output, and a claim
    /// of the lookup for each chunk.
    pub fn prove<F: PrimeField>(
        &self,
        inputs: &Vec<Tensor<Element>>,
        outputs: &Vec<Tensor<Element>>,
        maxima: &Vec<F>,
        logup_claims: &Vec<Claim<F>>,
    ) -> (r: Result<HadamardSumcheck<F>, Error>)
        requires
            self->Argmax_0 is Some,
            self->Argmax_0->Some_0.input_bit_size < usize::MAX,
            inputs@.len() == 1 && outputs@.len() == 1 && logup_claims@.len() > 0 ==> fits_claim(
                inputs@[0],
                maxima@,
                outputs@[0].data@,
                logup_claims@[0].point@,
            ),
        ensures
            match r {
                Ok(s) => {
                    let col_vars = (logup_claims@[0].point@.len() - log2_ceil(maxima@.len())) as nat;
                    &&& inputs@.len() == 1
                    &&& outputs@.len() == 1
                    &&& logup_claims@.len() == chunk_count(
                        self->Argmax_0->Some_0.input_bit_size as int,
                    )
                    &&& at_one_point(logup_claims@)
                    &&& exists|half: int|
                        0 <= half < F::modulus() && #[trigger] inverts(2, half, F::modulus())
                            && is_hadamard_sumcheck(
                            inputs@[0],
                            maxima@,
                            outputs@[0].data@,
                            logup_claims@,
                            col_vars,
                            half,
                            s,
                        )
                },
                Err(e) => if inputs@.len() != 1 || outputs@.len() != 1 {
                    e == Error::WrongNumberOfInputs
                } else if logup_claims@.len() != chunk_count(
                    self->Argmax_0->Some_0.input_bit_size as int,
                ) {
                    e == Error::WrongNumberOfClaims
                } else {
                    e == Error::DifferentPoints && !at_one_point(logup_claims@)
                },
            },
    {
        if inputs.len() != 1 {
            return Err(Error::WrongNumberOfInputs);
        }
        if outputs.len() != 1 {
            return Err(Error::WrongNumberOfInputs);
        }
        if logup_claims.len() != self.range_check_chunks() {
            return Err(Error::WrongNumberOfClaims);
        }
        let diff_claim = match Self::recombine_range_check_claims(logup_claims) {
            Ok(c) => c,
            Err(e) => {
                return Err(e);
            },
        };
        let input = &inputs[0];
        let tokens = &outputs[0].data;
        let ghost point = logup_claims@[0].point@;
        let num_row_vars = ceil_log2(maxima.len());
        let num_col_vars: usize = diff_claim.point.len() - num_row_vars;
        let width: usize = input.unpadded_shape.dims[input.shape.rank() - 1];
        let count: usize = input.data.len();
        let ghost c = pow2(num_col_vars as nat) as int;
        proof {
            lemma_pow2_pos(num_col_vars as nat);
            lemma_pow2_adds(num_col_vars as nat, num_row_vars as nat);
            assert(count == c * maxima@.len());
            if num_row_vars > 0 {
                lemma_pow2_strictly_increases(num_col_vars as nat, point.len());
            }
            lemma2_to64();
            lemma2_to64_rest();
            if num_col_vars < 62 {
                lemma_pow2_strictly_increases(num_col_vars as nat, 62);
            }
        }
        let cols = power_of_two(num_col_vars);
        let (_, row_point) = Self::split_claim_point(diff_claim.point.as_slice(), num_row_vars);
        let half = F::half();
        proof {
            half.residue_bounds();
        }
        let sum_eq_point = averaging(num_col_vars, row_point.as_slice(), half);
        let sum_eq = compute_betas_eval(sum_eq_point.as_slice());
        let input_eq = compute_betas_eval(diff_claim.point.as_slice());
        let one = Lifted::<F>::one();
        let zero = Lifted::<F>::zero();
        let ghost lt_goal = Seq::new(
            input.data@.len(),
            |p: int| inside_columns(input.unpadded_shape@.last() as int, c, p),
        );
        let ghost hot_goal = Seq::new(input.data@.len(), |p: int| one_hot(tokens@, c, p));
        let ghost max_goal = Seq::new(input.data@.len(), |p: int| maxima@[p / c]);
        let mut lt: Vec<F> = Vec::new();
        let mut padded_max: Vec<F> = Vec::new();
        let mut hot: Vec<F> = Vec::new();
        for p in 0..count
            invariant
                count == input.data@.len(),
                cols == c,
                c > 0,
                count == c * maxima@.len(),
                width == input.unpadded_shape@.last(),
                one@ == 1,
                zero@ == 0,
                tokens@.len() <= maxima@.len(),
                forall|i: int|
                    0 <= i < tokens@.len() ==> 0 <= #[trigger] tokens@[i] && tokens@[i] < c,
                lt_goal == Seq::new(
                    input.data@.len(),
                    |p: int| inside_columns(input.unpadded_shape@.last() as int, c, p),
                ),
                hot_goal == Seq::new(input.data@.len(), |p: int| one_hot(tokens@, c, p)),
                max_goal == Seq::new(input.data@.len(), |p: int| maxima@[p / c]),
                lt@.len() == p,
                hot@.len() == p,
                padded_max@ == max_goal.take(p as int),
                forall|q: int| 0 <= q < p ==> stands_for(#[trigger] lt@[q], lt_goal[q]),
                forall|q: int| 0 <= q < p ==> stands_for(#[trigger] hot@[q], hot_goal[q]),
        {
            let r: usize = p / cols;
            let j: usize = p % cols;
            proof {
                let m = maxima@.len() as int;
                lemma_fundamental_div_mod(p as int, c);
                let q = p as int / c;
                assert(q < m) by (nonlinear_arith)
                    requires
                        p as int == c * q + p as int % c,
                        0 <= p as int % c,
                        (p as int) < c * m,
                        c > 0,
                ;
                assert(max_goal.take(p + 1) =~= max_goal.take(p as int).push(max_goal[p as int]));
            }
            if j < width {
                lt.push(one.get());
            } else {
                lt.push(zero.get());
            }
            padded_max.push(maxima[r]);
            if r < tokens.len() && j as i128 == tokens[r] as i128 {
                hot.push(one.get());
            } else {
                hot.push(zero.get());
            }
        }
        assert(max_goal.take(count as int) =~= max_goal);
        let mut tables: Vec<Vec<F>> = Vec::new();
        tables.push(to_field(&input.data));
        tables.push(padded_max);
        tables.push(hot);
        tables.push(sum_eq);
        tables.push(input_eq);
        tables.push(lt);
        let num_cols = F::from_u64(cols as u64);
        let first = Expression::table(3).times(
            Expression::table(1).minus(
                Expression::Constant(num_cols).times(Expression::table(2)).times(
                    Expression::table(0),
                ),
            ),
        );
        let second = Expression::table(4).times(Expression::table(5)).times(
            Expression::table(1).minus(Expression::table(0)),
        );
        let expression = first.plus(Expression::Challenge(0).times(second));
        let s = HadamardSumcheck { tables, expression, diff_claim };
        proof {
            reveal_with_fuel(Expression::value, 7);
            assert(row_point@ =~= point.skip(num_col_vars as int));
            assert forall|w: Seq<int>, ch: Seq<int>|
                #[trigger] s.expression.value(w, ch) == hadamard_value(
                    w,
                    c % F::modulus(),
                    ch[0],
                ) by {
                assert(first.value(w, ch) == w[3] * (w[1] - ((c % F::modulus()) * w[2]) * w[0]));
                assert(second.value(w, ch) == (w[4] * w[5]) * (w[1] - w[0]));
            }
            assert(inverts(2, half.residue(), F::modulus()));
            assert(is_hadamard_sumcheck(
                *input,
                maxima@,
                tokens@,
                logup_claims@,
                num_col_vars as nat,
                half.residue(),
                s,
            ));
        }
        Ok(s)
    }

    /// The proof, the claims on the committed tables and the claim on the input,
    /// once the sumcheck has been run: it ended at `point`, where its tables take
    /// the values `final_evaluations`.
    pub fn finish_proof<F: PrimeField, L, C, P>(
        &self,
        logup_proof: L,
        commitments: Vec<C>,
        hadamard_proof: P,
        logup_claims: &Vec<Claim<F>>,
        num_col_vars: usize,
        point: &[F],
        final_evaluations: &[F],
    ) -> (r: (LogitsProof<F, L, C, P>, Vec<Claim<F>>, Claim<F>))
        requires
            self->Argmax_0 is Some,
            self->Argmax_0->Some_0.input_bit_size < usize::MAX,
            num_col_vars <= point@.len(),
            final_evaluations@.len() >= 2,
        ensures
            r.0.logup_proof == logup_proof,
            r.0.commitments == commitments,
            r.0.hadamard_proof == hadamard_proof,
            r.0.sumcheck_evals@ == final_evaluations@.take(2),
            is_witness_claims(
                r.1@,
                point@.skip(num_col_vars as int),
                final_evaluations@[1],
                chunk_count(self->Argmax_0->Some_0.input_bit_size as int) > 1,
                logup_claims@,
            ),
            r.2.point@ == point@,
            r.2.eval == final_evaluations@[0],
    {
        let sumcheck_evals = part(final_evaluations, 0, 2);
        assert(sumcheck_evals@ =~= final_evaluations@.take(2));
        let many = self.range_check_chunks() != 1;
        let row_part = part(point, num_col_vars, point.len());
        assert(row_part@ =~= point@.skip(num_col_vars as int));
        let claims = witness_claims(row_part, sumcheck_evals[1], many, logup_claims);
        let full = part(point, 0, point.len());
        assert(full@ =~= point@);
        let input_claim = Claim::new(full, sumcheck_evals[0]);
        (LogitsProof { logup_proof, commitments, hadamard_proof, sumcheck_evals }, claims, input_claim)
    }
}

/// The claims on what a logits layer committed to: the maxima and, where there are
/// several, the chunks.
pub open spec fn is_witness_claims<F>(
    claims: Seq<Claim<F>>,
    row_point: Seq<F>,
    max_eval: F,
    many: bool,
    logup_claims: Seq<Claim<F>>,
) -> bool {
    &&& claims.len() == if many {
        1 + logup_claims.len()
    } else {
        1
    }
    &&& claims[0].point@ == row_point
    &&& claims[0].eval == max_eval
    &&& forall|i: int|
        0 <= i < claims.len() - 1 ==> (#[trigger] claims[i + 1]).point@ == logup_claims[i].point@
            && claims[i + 1].eval == logup_claims[i].eval
}

/// The claims on what a logits layer committed to.
pub(crate) fn witness_claims<F: PrimeField>(
    row_point: Vec<F>,
    max_eval: F,
    many: bool,
    logup_claims: &Vec<Claim<F>>,
) -> (r: Vec<Claim<F>>)
    ensures
        is_witness_claims(r@, row_point@, max_eval, many, logup_claims@),
{
    let mut r: Vec<Claim<F>> = Vec::new();
    r.push(Claim::new(row_point, max_eval));
    let ghost first = r@[0];
    if many {
        for i in 0..logup_claims.len()
            invariant
                r@.len() == i + 1,
                r@[0] == first,
                forall|j: int|
                    0 <= j < i ==> (#[trigger] r@[j + 1]).point@ == logup_claims@[j].point@
                        && r@[j + 1].eval == logup_claims@[j].eval,
        {
            r.push(copy_claim(&logup_claims[i]));
        }
    }
    r
}

} // verus!
