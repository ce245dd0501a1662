//! The proof of a rotation, and the decision on it.
use vstd::prelude::*;
use vstd::arithmetic::div_mod::*;
use vstd::arithmetic::power2::{lemma_pow2_adds, lemma_pow2_pos, pow2};
use crate::attention_mask::prove::matrix_vars;
use crate::batching::{all_pow2, lemma_numel_pow2};
use crate::claim::{joined, part, Claim, SubClaim};
use crate::congruence::lemma_fixed_high_cong;
use crate::error::Error;
use crate::expression::Expression;
use crate::field::{all_stand_for, residues, stands_for, Lifted, PrimeField};
use crate::logits::witness::{element_ints, to_field};
use crate::mle::{betas, compute_betas_eval, fix_high_variables, fixed_high, identity, identity_eval, lemma_halves};
use crate::positional::binding::{bind_sub_claim_to_positional_matrix, build_positional_matrix_claim, is_matrix_claim, is_part_evals, matrix_num_vars};
use crate::positional::rope::layout::{counter_rotated, lemma_counter_rotated_stands, permuted_identity, RopeLayout};
use crate::positional::rope::{Rope, RopeCtx};
use crate::shape::{ceil_log2, lemma_num_vars_skip, lemma_num_vars_split, lemma_numel_matrix, log2_ceil, num_vars, Shape};
use crate::tensor::{copied, Element, Tensor};
use crate::triangular::{eval_bounded, upto};

verus! {

/// The proof of a rotation. The sumcheck is carried as it comes.
#[derive(Debug)]
pub struct RopeProof<F, P> {
    /// The evaluations of the further parts of the cosine matrix.
    pub sub_cosine_evals: Vec<F>,
    /// The evaluations of the further parts of the sine matrix.
    pub sub_sine_evals: Vec<F>,
    /// The sumcheck that links the output with the input.
    pub sumcheck_proof: P,
    /// The evaluations of the input, the cosines and the sines at its end.
    pub sumcheck_evals: Vec<F>,
}

/// The tables of the sumcheck, in the order in which it takes them.
#[derive(Debug)]
pub struct RopeSumcheck<F> {
    /// The input with all but its last two dimensions fixed.
    pub input: Vec<F>,
    pub cosine: Vec<F>,
    pub sine: Vec<F>,
    /// The factors of the point.
    pub eq: Vec<F>,
    /// The factors of the point, permuted.
    pub permuted_eq: Vec<F>,
    /// One in the rows of the tokens and zero after them.
    pub lt: Vec<F>,
}

/// One in the first `n` rows of `w` values and zero after them.
pub open spec fn row_bound(w: int, n: int, p: int) -> int {
    if p / w < n {
        1
    } else {
        0
    }
}

/// The coordinates of a point that belong to the last two dimensions.
pub open spec fn matrix_point<F: PrimeField>(d: Seq<usize>, point: Seq<F>) -> Seq<int> {
    residues(point.take(matrix_vars(d) as int))
}

/// The values that a committed matrix keeps: one of each pair.
pub open spec fn kept_half(layout: RopeLayout, data: Seq<Element>, w: int) -> Seq<Element> {
    match layout {
        RopeLayout::Adjacent => Seq::new(
            ((data.len() + 1) / 2) as nat,
            |i: int| data[2 * i],
        ),
        RopeLayout::RotateHalf => Seq::new(
            (data.len() as int / w * (w / 2)) as nat,
            |i: int| data[i / (w / 2) * w + i % (w / 2)],
        ),
    }
}

/// The values that a committed matrix keeps.
fn keep_half(layout: RopeLayout, data: &Vec<Element>, w: usize) -> (r: Vec<Element>)
    requires
        w > 0,
        data@.len() as int % w as int == 0,
    ensures
        r@ == kept_half(layout, data@, w as int),
{
    let ghost goal = kept_half(layout, data@, w as int);
    let mut r: Vec<Element> = Vec::new();
    match layout {
        RopeLayout::Adjacent => {
            let n: usize = data.len() / 2 + data.len() % 2;
            for i in 0..n
                invariant
                    n == data@.len() / 2 + data@.len() % 2,
                    goal.len() == n,
                    goal == kept_half(RopeLayout::Adjacent, data@, w as int),
                    r@ == goal.take(i as int),
            {
                assert(data.len() <= usize::MAX);
                r.push(data[2 * i]);
                assert(goal.take(i + 1) =~= goal.take(i as int).push(goal[i as int]));
            }
            assert(goal.take(n as int) =~= goal);
        },
        RopeLayout::RotateHalf => {
            let half: usize = w / 2;
            let rows: usize = data.len() / w;
            proof {
                lemma_fundamental_div_mod(data@.len() as int, w as int);
                let (a, b, c) = (rows as int, half as int, w as int);
                assert(0 <= a * b && a * b <= c * a) by (nonlinear_arith)
                    requires
                        0 <= a,
                        0 <= b <= c,
                ;
            }
            let n: usize = rows * half;
            for i in 0..n
                invariant
                    n == rows * half,
                    half == w / 2,
                    data@.len() == w * rows,
                    goal.len() == n,
                    goal == kept_half(RopeLayout::RotateHalf, data@, w as int),
                    r@ == goal.take(i as int),
            {
                proof {
                    if half == 0 {
                        assert(rows * half == 0) by (nonlinear_arith)
                            requires
                                half == 0,
                        ;
                    }
                    let (a, b) = (i as int / half as int, i as int % half as int);
                    let (h, m, c) = (half as int, rows as int, w as int);
                    lemma_fundamental_div_mod(i as int, h);
                    lemma_mod_bound(i as int, h);
                    assert(0 <= a < m) by (nonlinear_arith)
                        requires
                            i == h * a + b,
                            0 <= i < m * h,
                            0 <= b < h,
                    ;
                    assert(0 <= a * c && a * c + c <= c * m) by (nonlinear_arith)
                        requires
                            0 <= a < m,
                            0 < c,
                    ;
                    assert(data.len() <= usize::MAX);
                }
                r.push(data[i / half * w + i % half]);
                assert(goal.take(i + 1) =~= goal.take(i as int).push(goal[i as int]));
            }
            assert(goal.take(n as int) =~= goal);
        },
    }
    r
}

/// The claim `r` is the claim `c` without the coordinate that tells the two values of
/// a pair apart.
pub open spec fn is_half_claim<F>(layout: RopeLayout, row_vars: int, c: Claim<F>, r: Claim<F>) -> bool {
    &&& r.point@ == c.point@.remove(layout.block_vars(row_vars) - 1)
    &&& r.eval == c.eval
}

/// Drops the coordinate that tells the two values of a pair apart.
pub fn claim_for_committed_matrix<F>(layout: RopeLayout, row_vars: usize, claim: Claim<F>) -> (r:
    Claim<F>)
    requires
        1 <= layout.block_vars(row_vars as int) <= claim.point@.len(),
    ensures
        is_half_claim(layout, row_vars as int, claim, r),
{
    let k: usize = match layout {
        RopeLayout::Adjacent => 0,
        RopeLayout::RotateHalf => row_vars - 1,
    };
    let mut point = claim.point;
    let _dropped = point.remove(k);
    Claim::new(point, claim.eval)
}

/// The polynomial that the sumcheck sums.
pub fn rope_expression<F: PrimeField>() -> (r: Expression<F>)
    ensures
        forall|w: Seq<int>, c: Seq<int>| #[trigger]
            r.value(w, c) == w[0] * w[5] * (w[3] * w[1] + w[4] * w[2]),
        r.degree() == 4,
{
    let a = Expression::<F>::table(3).times(Expression::<F>::table(1));
    let b = Expression::<F>::table(4).times(Expression::<F>::table(2));
    let r = Expression::<F>::table(0).times(Expression::<F>::table(5)).times(a.plus(b));
    proof {
        reveal_with_fuel(Expression::value, 6);
        reveal_with_fuel(Expression::degree, 6);
    }
    r
}

impl Rope<Element> {
    /// The tables are those of the sumcheck for the claim at `point`.
    pub open spec fn is_rope_sumcheck<F: PrimeField>(
        &self,
        input: Tensor<Element>,
        point: Seq<F>,
        s: RopeSumcheck<F>,
    ) -> bool {
        let d = input.shape@;
        let n = pow2(matrix_vars(d)) as int;
        let w = d.last() as int;
        let rest = residues(point.skip(matrix_vars(d) as int));
        let low = matrix_point(d, point);
        &&& s.input@.len() == n
        &&& forall|p: int|
            0 <= p < n ==> stands_for(
                #[trigger] s.input@[p],
                fixed_high(element_ints(input.data@), n, rest, p),
            )
        &&& all_stand_for(s.cosine@, element_ints(self.cosine_matrix.tensor.data@).take(n))
        &&& all_stand_for(s.sine@, element_ints(self.sine_matrix.tensor.data@).take(n))
        &&& all_stand_for(s.eq@, betas(low))
        &&& all_stand_for(s.permuted_eq@, counter_rotated(betas(low), self.layout.block(w)))
        &&& s.lt@.len() == n
        &&& forall|p: int|
            0 <= p < n ==> stands_for(
                #[trigger] s.lt@[p],
                row_bound(w, input.unpadded_shape@[d.len() - 2] as int, p),
            )
    }

    /// What the prover hands to the sumcheck, for the claim on the output. A claim at a
    /// point with another number of coordinates than the input has variables is
    /// refused.
    pub fn prove_step<F: PrimeField>(&self, output_claim: &Claim<F>, input: &Tensor<Element>) -> (r:
        Result<RopeSumcheck<F>, Error>)
        requires
            self.wf(),
            input.wf(),
            input.shape@.len() >= 2,
            all_pow2(input.shape@),
            self.cosine_matrix.tensor.shape@[1] == input.shape@.last(),
            input.shape@[input.shape@.len() - 2] <= self.cosine_matrix.tensor.shape@[0],
            self.layout == RopeLayout::Adjacent ==> matrix_vars(input.shape@) >= 1,
        ensures
            match r {
                Ok(s) => {
                    &&& output_claim.point@.len() == num_vars(input.shape@)
                    &&& self.is_rope_sumcheck(*input, output_claim.point@, s)
                },
                Err(e) => e == Error::WrongPointLength && output_claim.point@.len() != num_vars(
                    input.shape@,
                ),
            },
    {
        match input.shape.split_point(output_claim.point.as_slice()) {
            Ok(_) => {},
            Err(e) => {
                return Err(e);
            },
        }
        let rank: usize = input.shape.rank();
        let w: usize = input.shape.dims[rank - 1];
        let rows: usize = input.shape.dims[rank - 2];
        let ghost d = input.shape@;
        let ghost v = matrix_vars(d);
        proof {
            lemma_numel_pow2(d);
            let k = d.len() - 2;
            assert(d.skip(k + 2).len() == 0);
            lemma_num_vars_skip(d, k);
            lemma_num_vars_skip(d, k + 1);
            lemma_num_vars_split(d, k);
            lemma_pow2_adds(v, (num_vars(d) - v) as nat);
            lemma_pow2_adds(log2_ceil(rows as nat), log2_ceil(w as nat));
            lemma_pow2_pos((num_vars(d) - v) as nat);
            assert(d[d.len() - 1] == w && d[d.len() - 2] == rows);
            assert(pow2(v) == rows * w);
            let rest = pow2((num_vars(d) - v) as nat);
            let x = pow2(v);
            assert(x <= x * rest) by (nonlinear_arith)
                requires
                    rest >= 1,
            ;
            assert(rest * x == x * rest) by (nonlinear_arith);
            assert(input.data.len() <= usize::MAX);
        }
        let vars: usize = ceil_log2(w) + ceil_log2(rows);
        let n: usize = rows * w;
        let low = part(output_claim.point.as_slice(), 0, vars);
        let high = part(output_claim.point.as_slice(), vars, output_claim.point.len());
        assert(low@ =~= output_claim.point@.take(vars as int));
        assert(high@ =~= output_claim.point@.skip(vars as int));
        let eq = compute_betas_eval(low.as_slice());
        let values = to_field::<F>(&input.data);
        proof {
            lemma_pow2_adds(v, high@.len());
            lemma_pow2_pos(v);
            let total = self.cosine_matrix.tensor.shape@[0];
            assert(self.cosine_matrix.tensor.shape@ =~= seq![total, w]);
            lemma_numel_matrix(total, w);
            assert(rows * w <= total * w) by (nonlinear_arith)
                requires
                    rows <= total,
            ;
            let a = pow2(high@.len());
            assert(a <= input.data@.len()) by (nonlinear_arith)
                requires
                    input.data@.len() == n * a,
                    n >= 1,
            ;
        }
        let fixed = fix_high_variables(values.as_slice(), high.as_slice(), n);
        let ghost block = self.layout.block(w as int);
        proof {
            if self.layout == RopeLayout::Adjacent {
                lemma_halves(v);
            } else {
                lemma_mod_multiples_basic(rows as int, w as int);
            }
        }
        let permuted_eq = self.layout.permuted_eq_poly(&eq, w);
        let cosine = first_values::<F>(&self.cosine_matrix.tensor, n);
        let sine = first_values::<F>(&self.sine_matrix.tensor, n);
        let lt = row_bounds::<F>(w, n, input.unpadded_shape.dims[rank - 2]);
        proof {
            assert forall|p: int| 0 <= p < n implies stands_for(
                #[trigger] fixed@[p],
                fixed_high(element_ints(input.data@), n as int, residues(high@), p),
            ) by {
                fixed@[p].residue_bounds();
                lemma_fixed_high_cong(values@, element_ints(input.data@), n as int, residues(high@), p);
            }
            eq@[0].residue_bounds();
            lemma_counter_rotated_stands(eq@, betas(residues(low@)), permuted_eq@, block);
        }
        Ok(RopeSumcheck { input: fixed, cosine, sine, eq, permuted_eq, lt })
    }

    /// The proof, the claim on the input and those on the two matrices, once the
    /// sumcheck has been run.
    pub fn finish_proof<F: PrimeField, P>(
        &self,
        output_claim: &Claim<F>,
        input_shape: &Shape,
        sumcheck_proof: P,
        sumcheck_point: &Vec<F>,
        final_evaluations: &Vec<F>,
        cosine_coordinates: &[F],
        sine_coordinates: &[F],
    ) -> (r: Result<(RopeProof<F, P>, Claim<F>, Claim<F>, Claim<F>), Error>)
        requires
            self.wf(),
            input_shape@.len() >= 2,
            output_claim.point@.len() >= matrix_vars(input_shape@),
            final_evaluations@.len() >= 3,
            cosine_coordinates@.len() == sine_coordinates@.len(),
            ({
                let d = self.cosine_matrix.tensor.shape@;
                &&& sumcheck_point@.len() + cosine_coordinates@.len() == matrix_num_vars(d)
                &&& input_shape@[input_shape@.len() - 2] * pow2(cosine_coordinates@.len()) <= d[0]
                &&& input_shape@[input_shape@.len() - 2] * d[1] == pow2(sumcheck_point@.len())
                &&& 1 <= self.layout.block_vars(log2_ceil(d[1] as nat) as int)
                    <= sumcheck_point@.len() + cosine_coordinates@.len()
            }),
        ensures
            match r {
                Ok((proof, input, cosine, sine)) => {
                    let d = self.cosine_matrix.tensor.shape@;
                    let v = matrix_vars(input_shape@) as int;
                    let evals = final_evaluations@.take(3);
                    &&& input_shape@[input_shape@.len() - 2] * pow2(cosine_coordinates@.len()) == d[0]
                    &&& proof.sumcheck_proof == sumcheck_proof
                    &&& proof.sumcheck_evals@ == evals
                    &&& is_part_evals(
                        self.cosine_matrix.tensor,
                        sumcheck_point@ + cosine_coordinates@,
                        sumcheck_point@.len(),
                        proof.sub_cosine_evals@,
                    )
                    &&& is_part_evals(
                        self.sine_matrix.tensor,
                        sumcheck_point@ + sine_coordinates@,
                        sumcheck_point@.len(),
                        proof.sub_sine_evals@,
                    )
                    &&& proof.sub_cosine_evals@.len() == cosine_coordinates@.len()
                    &&& proof.sub_sine_evals@.len() == sine_coordinates@.len()
                    &&& input.point@ == sumcheck_point@ + output_claim.point@.skip(v)
                    &&& input.eval == evals[0]
                    &&& is_committed_claim(
                        self.layout,
                        log2_ceil(d[1] as nat) as int,
                        sumcheck_point@,
                        evals[1],
                        cosine_coordinates@,
                        proof.sub_cosine_evals@,
                        cosine,
                    )
                    &&& is_committed_claim(
                        self.layout,
                        log2_ceil(d[1] as nat) as int,
                        sumcheck_point@,
                        evals[2],
                        sine_coordinates@,
                        proof.sub_sine_evals@,
                        sine,
                    )
                },
                Err(e) => e == Error::InvalidShape && input_shape@[input_shape@.len() - 2] * pow2(
                    cosine_coordinates@.len(),
                ) != self.cosine_matrix.tensor.shape@[0],
            },
    {
        let rank: usize = input_shape.rank();
        let v: usize = ceil_log2(input_shape.dims[rank - 1]) + ceil_log2(input_shape.dims[rank - 2]);
        let high = part(output_claim.point.as_slice(), v, output_claim.point.len());
        assert(high@ =~= output_claim.point@.skip(v as int));
        let input_claim = Claim::new(
            joined(sumcheck_point.as_slice(), high.as_slice()),
            final_evaluations[0],
        );
        let sub_cosine = Claim::new(copied(sumcheck_point), final_evaluations[1]);
        let sub_sine = Claim::new(copied(sumcheck_point), final_evaluations[2]);
        let rows: usize = input_shape.dims[rank - 2];
        let (sub_cosine_evals, cosine_claim) = match bind_sub_claim_to_positional_matrix(
            &sub_cosine,
            cosine_coordinates,
            &self.cosine_matrix.tensor,
            rows,
        ) {
            Ok(x) => x,
            Err(e) => {
                return Err(e);
            },
        };
        let (sub_sine_evals, sine_claim) = match bind_sub_claim_to_positional_matrix(
            &sub_sine,
            sine_coordinates,
            &self.sine_matrix.tensor,
            rows,
        ) {
            Ok(x) => x,
            Err(e) => {
                return Err(e);
            },
        };
        let row_vars = ceil_log2(self.cosine_matrix.tensor.shape.dims[1]);
        assert(is_matrix_claim(sub_cosine, cosine_coordinates@, sub_cosine_evals@, cosine_claim));
        assert(is_matrix_claim(sub_sine, sine_coordinates@, sub_sine_evals@, sine_claim));
        let cosine = claim_for_committed_matrix(self.layout, row_vars, cosine_claim);
        let sine = claim_for_committed_matrix(self.layout, row_vars, sine_claim);
        let mut sumcheck_evals: Vec<F> = Vec::new();
        sumcheck_evals.push(final_evaluations[0]);
        sumcheck_evals.push(final_evaluations[1]);
        sumcheck_evals.push(final_evaluations[2]);
        assert(sumcheck_evals@ =~= final_evaluations@.take(3));
        let proof = RopeProof { sub_cosine_evals, sub_sine_evals, sumcheck_proof, sumcheck_evals };
        Ok((proof, input_claim, cosine, sine))
    }

    /// The context of the layer and what it commits to: of each matrix one value of
    /// each pair.
    pub fn step_info(&self, node_id: usize) -> (r: (RopeCtx, Vec<(String, Vec<Element>)>))
        requires
            self.wf(),
            self.cosine_matrix.tensor.shape@[1] > 0,
        ensures
            ({
                let d = self.cosine_matrix.tensor.shape@;
                let (ctx, polys) = r;
                &&& ctx.node_id == node_id
                &&& ctx.unpadded_shape@ == self.unpadded_shape@
                &&& ctx.num_vars_positional_matrix == matrix_num_vars(d)
                &&& ctx.cosine_key@ == self.cosine_matrix.key@
                &&& ctx.sine_key@ == self.sine_matrix.key@
                &&& ctx.layout == self.layout
                &&& polys@.len() == 2
                &&& polys@[0].0@ == self.cosine_matrix.key@
                &&& polys@[0].1@ == kept_half(
                    self.layout,
                    self.cosine_matrix.tensor.data@,
                    d[1] as int,
                )
                &&& polys@[1].0@ == self.sine_matrix.key@
                &&& polys@[1].1@ == kept_half(
                    self.layout,
                    self.sine_matrix.tensor.data@,
                    d[1] as int,
                )
            }),
    {
        let rows: usize = self.cosine_matrix.tensor.shape.dims[0];
        let w: usize = self.cosine_matrix.tensor.shape.dims[1];
        proof {
            assert(self.cosine_matrix.tensor.shape@ =~= seq![rows, w]);
            lemma_numel_matrix(rows, w);
            lemma_mod_multiples_basic(rows as int, w as int);
        }
        let mut polys: Vec<(String, Vec<Element>)> = Vec::new();
        polys.push(
            (
                self.cosine_matrix.key.clone(),
                keep_half(self.layout, &self.cosine_matrix.tensor.data, w),
            ),
        );
        polys.push(
            (self.sine_matrix.key.clone(), keep_half(self.layout, &self.sine_matrix.tensor.data, w)),
        );
        let ctx = RopeCtx {
            node_id,
            unpadded_shape: self.unpadded_shape.clone(),
            num_vars_positional_matrix: ceil_log2(rows) + ceil_log2(w),
            cosine_key: self.cosine_matrix.key.clone(),
            sine_key: self.sine_matrix.key.clone(),
            layout: self.layout,
        };
        (ctx, polys)
    }
}

/// The claim `r` on a committed matrix follows from an evaluation of its first rows.
pub open spec fn is_committed_claim<F: PrimeField>(
    layout: RopeLayout,
    row_vars: int,
    point: Seq<F>,
    eval: F,
    extra: Seq<F>,
    sub_evals: Seq<F>,
    r: Claim<F>,
) -> bool {
    exists|sub: Claim<F>, whole: Claim<F>|
        {
            &&& sub.point@ == point
            &&& sub.eval == eval
            &&& #[trigger] is_matrix_claim(sub, extra, sub_evals, whole)
            &&& is_half_claim(layout, row_vars, whole, r)
        }
}

/// The first values of a tensor, as elements of a field.
fn first_values<F: PrimeField>(t: &Tensor<Element>, n: usize) -> (r: Vec<F>)
    requires
        n <= t.data@.len(),
    ensures
        all_stand_for(r@, element_ints(t.data@).take(n as int)),
{
    let mut r: Vec<F> = Vec::new();
    for p in 0..n
        invariant
            n <= t.data@.len(),
            r@.len() == p,
            forall|q: int|
                0 <= q < p ==> stands_for(#[trigger] r@[q], element_ints(t.data@).take(n as int)[q]),
    {
        r.push(Lifted::<F>::of_i64(t.data[p]).get());
    }
    r
}

/// One in the first rows and zero after them.
fn row_bounds<F: PrimeField>(w: usize, n: usize, bound: usize) -> (r: Vec<F>)
    requires
        w > 0,
    ensures
        r@.len() == n,
        forall|p: int|
            0 <= p < n ==> stands_for(#[trigger] r@[p], row_bound(w as int, bound as int, p)),
{
    let mut r: Vec<F> = Vec::new();
    for p in 0..n
        invariant
            w > 0,
            r@.len() == p,
            forall|q: int|
                0 <= q < p ==> stands_for(#[trigger] r@[q], row_bound(w as int, bound as int, q)),
    {
        if p / w < bound {
            r.push(Lifted::<F>::one().get());
        } else {
            r.push(Lifted::<F>::zero().get());
        }
    }
    r
}

impl RopeCtx {
    /// What the sumcheck has to end on.
    pub open spec fn computed<F: PrimeField>(
        &self,
        evals: Seq<F>,
        claim_point: Seq<F>,
        point: Seq<F>,
        d: Seq<usize>,
        seq_len: int,
    ) -> int {
        let v = matrix_vars(d) as int;
        let e = residues(claim_point.take(v));
        let s = residues(point);
        let row_vars = log2_ceil(d.last() as nat) as int;
        let bound = upto(s.skip(row_vars), seq_len - 1);
        evals[0].residue() * bound * (identity(e, s) * evals[1].residue() + permuted_identity(
            e,
            s,
            self.layout.block_vars(row_vars),
        ) * evals[2].residue())
    }

    /// What the verifier decides: the claim on the input and those on the two matrices, where
    /// the sumcheck ends as it should.
    pub open spec fn decides<F: PrimeField, P>(
        &self,
        proof: RopeProof<F, P>,
        last_claim: Claim<F>,
        subclaim: SubClaim<F>,
        d: Seq<usize>,
        u: Seq<usize>,
        cosine_coordinates: Seq<F>,
        sine_coordinates: Seq<F>,
        r: Result<(Claim<F>, Claim<F>, Claim<F>), Error>,
    ) -> bool {
        let v = matrix_vars(d) as int;
        let ends = stands_for(
            subclaim.expected_evaluation,
            self.computed(
                proof.sumcheck_evals@,
                last_claim.point@,
                subclaim.point@,
                d,
                u[d.len() - 2] as int,
            ),
        );
        let row_vars = log2_ceil(self.unpadded_shape@.last() as nat) as int;
        match r {
            Ok((input, cosine, sine)) => {
                &&& proof.sumcheck_evals@.len() == 3
                &&& ends
                &&& input.point@ == subclaim.point@ + last_claim.point@.skip(v)
                &&& input.eval == proof.sumcheck_evals@[0]
                &&& is_committed_claim(
                    self.layout,
                    row_vars,
                    subclaim.point@,
                    proof.sumcheck_evals@[1],
                    cosine_coordinates,
                    proof.sub_cosine_evals@,
                    cosine,
                )
                &&& is_committed_claim(
                    self.layout,
                    row_vars,
                    subclaim.point@,
                    proof.sumcheck_evals@[2],
                    sine_coordinates,
                    proof.sub_sine_evals@,
                    sine,
                )
            },
            Err(e) => if proof.sumcheck_evals@.len() != 3 {
                e == Error::UnexpectedProof
            } else {
                e == Error::EvaluationMismatch && !ends
            },
        }
    }

    /// Decides on the end of the sumcheck. Where it is accepted, the claim on the input
    /// and those on the two matrices are returned.
    pub fn verify<F: PrimeField, P>(
        &self,
        proof: &RopeProof<F, P>,
        last_claim: &Claim<F>,
        subclaim: &SubClaim<F>,
        padded_input_shape: &Shape,
        unpadded_input_shape: &Shape,
        cosine_coordinates: &[F],
        sine_coordinates: &[F],
    ) -> (r: Result<(Claim<F>, Claim<F>, Claim<F>), Error>)
        requires
            padded_input_shape@.len() >= 2,
            unpadded_input_shape@.len() == padded_input_shape@.len(),
            self.unpadded_shape@.len() >= 1,
            cosine_coordinates@.len() == sine_coordinates@.len(),
            subclaim.point@.len() == matrix_vars(padded_input_shape@),
            last_claim.point@.len() >= matrix_vars(padded_input_shape@),
            subclaim.point@.len() + cosine_coordinates@.len() == self.num_vars_positional_matrix,
            proof.sub_cosine_evals@.len() <= subclaim.point@.len() + cosine_coordinates@.len(),
            proof.sub_sine_evals@.len() <= subclaim.point@.len() + sine_coordinates@.len(),
            1 <= self.layout.block_vars(log2_ceil(padded_input_shape@.last() as nat) as int)
                <= subclaim.point@.len(),
            1 <= self.layout.block_vars(log2_ceil(self.unpadded_shape@.last() as nat) as int)
                <= subclaim.point@.len() + cosine_coordinates@.len(),
            ({
                let k = padded_input_shape@.len() - 2;
                0 < unpadded_input_shape@[k] <= pow2(log2_ceil(padded_input_shape@[k] as nat))
            }),
        ensures
            self.decides(
                *proof,
                *last_claim,
                *subclaim,
                padded_input_shape@,
                unpadded_input_shape@,
                cosine_coordinates@,
                sine_coordinates@,
                r,
            ),
    {
        let rank: usize = padded_input_shape.rank();
        let row_num_vars = ceil_log2(padded_input_shape.dims[rank - 1]);
        let col_num_vars = ceil_log2(padded_input_shape.dims[rank - 2]);
        let v: usize = row_num_vars + col_num_vars;
        let low = part(last_claim.point.as_slice(), 0, v);
        let high = part(last_claim.point.as_slice(), v, last_claim.point.len());
        assert(low@ =~= last_claim.point@.take(v as int));
        assert(high@ =~= last_claim.point@.skip(v as int));
        let ghost e = residues(low@);
        let ghost s = residues(subclaim.point@);
        let beta_eval = identity_eval(low.as_slice(), subclaim.point.as_slice());
        let permuted_eval = self.layout.evaluate_permuted_eq_poly(
            low.as_slice(),
            subclaim.point.as_slice(),
            row_num_vars,
        );
        let seq_len: usize = unpadded_input_shape.dims[rank - 2];
        let rows = part(subclaim.point.as_slice(), row_num_vars, subclaim.point.len());
        assert(residues(rows@) =~= s.skip(row_num_vars as int));
        let lt_eval = eval_bounded(rows.as_slice(), seq_len);
        if proof.sumcheck_evals.len() != 3 {
            return Err(Error::UnexpectedProof);
        }
        let beta = Lifted::known(beta_eval, Ghost(identity(e, s)));
        let permuted = Lifted::known(
            permuted_eval,
            Ghost(permuted_identity(e, s, self.layout.block_vars(row_num_vars as int))),
        );
        let lt = Lifted::known(lt_eval, Ghost(upto(s.skip(row_num_vars as int), seq_len - 1)));
        let input_eval = Lifted::of(proof.sumcheck_evals[0]);
        let cosine_eval = Lifted::of(proof.sumcheck_evals[1]);
        let sine_eval = Lifted::of(proof.sumcheck_evals[2]);
        let turned = beta.times(cosine_eval).plus(permuted.times(sine_eval));
        let computed = input_eval.times(lt).times(turned).get();
        if !computed.is_same(subclaim.expected_evaluation) {
            return Err(Error::EvaluationMismatch);
        }
        let input_claim = Claim::new(
            joined(subclaim.point.as_slice(), high.as_slice()),
            proof.sumcheck_evals[0],
        );
        let sub_cosine = Claim::new(
            copied(&subclaim.point),
            proof.sumcheck_evals[1],
        );
        let sub_sine = Claim::new(copied(&subclaim.point), proof.sumcheck_evals[2]);
        let whole_cosine = build_positional_matrix_claim(
            &sub_cosine,
            cosine_coordinates,
            proof.sub_cosine_evals.as_slice(),
        );
        let whole_sine = build_positional_matrix_claim(
            &sub_sine,
            sine_coordinates,
            proof.sub_sine_evals.as_slice(),
        );
        let row_vars = ceil_log2(self.unpadded_shape.dims[self.unpadded_shape.rank() - 1]);
        assert(is_matrix_claim(
            sub_cosine,
            cosine_coordinates@,
            proof.sub_cosine_evals@,
            whole_cosine,
        ));
        assert(is_matrix_claim(sub_sine, sine_coordinates@, proof.sub_sine_evals@, whole_sine));
        let cosine = claim_for_committed_matrix(self.layout, row_vars, whole_cosine);
        let sine = claim_for_committed_matrix(self.layout, row_vars, whole_sine);
        Ok((input_claim, cosine, sine))
    }
}

} // verus!
