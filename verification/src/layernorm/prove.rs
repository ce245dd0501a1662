//! What the prover of the layer hands to its two sumchecks.
use vstd::prelude::*;
use vstd::arithmetic::div_mod::*;
use vstd::arithmetic::power2::{lemma_pow2_adds, lemma_pow2_pos, pow2};
use crate::claim::{part, Claim};
use crate::error::Error;
use crate::expression::Expression;
use crate::field::{all_stand_for, inverts, residues, stands_for, Lifted, PrimeField};
use crate::layernorm::witness::num_range_checks;
use crate::layernorm::{LayerNorm, QuantisedLayerNormData};
use crate::logits::prove::{averaging, averaging_point};
use crate::logits::witness::{element_ints, to_field};
use crate::mle::{betas, compute_betas_eval};
use crate::normalisation::rmsnorm::{longest, longest_padded};
use crate::normalisation::row_total;
use crate::shape::{ceil_log2, log2_ceil, padded, power_of_two, Shape};
use crate::sum::sum;
use crate::tensor::{can_pad, copied, resized, Element, Tensor};

verus! {

/// The proof of the layer. The lookup, the commitment and the sumchecks are carried as
/// they come.
#[derive(Debug)]
pub struct LayerNormProof<F, L, C, P> {
    pub logup_proof: L,
    pub commitment: C,
    /// The sumcheck that links the output and what is looked up to the input.
    pub io_proof: P,
    /// The sumcheck on the sums of the rows.
    pub mean_proof: P,
    /// What the input, the sums, the inverse roots, the factors and the biases take at
    /// the end of the first sumcheck.
    pub io_evaluations: Vec<F>,
}

/// What the verifier knows of the layer.
#[derive(Debug)]
pub struct LayerNormCtx<F> {
    pub node_id: usize,
    pub range_check_bits: usize,
    /// The unpadded size of a row.
    pub dim_size: usize,
    pub multiplier: Element,
    pub top_chunk_scalar_log: usize,
    /// How many values of a row are range checked.
    pub num_range_checks: usize,
    pub first_sumcheck_expression: Expression<F>,
    pub mean_sumcheck_expression: Expression<F>,
    pub gamma_key: String,
    pub beta_key: String,
}

/// The tables of the first sumcheck, in the order in which it takes them.
#[derive(Debug)]
pub struct LayerNormSumcheck<F> {
    pub input: Vec<F>,
    /// The sum of its row, at every place.
    pub mean: Vec<F>,
    /// The inverse root of its row, at every place.
    pub inv_sqrt: Vec<F>,
    pub gamma: Vec<F>,
    pub beta: Vec<F>,
    pub input_eq: Vec<F>,
    pub last_claim_eq: Vec<F>,
}

/// What the first sumcheck sums at a place where its tables take the values `w`. Rows
/// have the unpadded size `n`, and `n_cols` is that size times the padded one.
pub open spec fn first_value(w: Seq<int>, c: int, multiplier: int, n: int, n_cols: int) -> int {
    w[5] * (multiplier * (n_cols * w[0] * w[0] - w[1] * w[1]) + c * w[2]) + c * c * w[6] * (w[3]
        * w[2] * (n * w[0] - w[1]) + w[4])
}

/// The expression is that of the first sumcheck: its constants are taken to the field.
pub open spec fn is_first_expression<F: PrimeField>(
    e: Expression<F>,
    multiplier: int,
    dim_size: int,
) -> bool {
    let m = F::modulus();
    let n_cols = dim_size * pow2(log2_ceil(dim_size as nat));
    &&& e.within(7, 1)
    &&& forall|w: Seq<int>, ch: Seq<int>| #[trigger]
        e.value(w, ch) == first_value(w, ch[0], multiplier % m, dim_size % m, n_cols % m)
}

/// The expression is that of the second sumcheck.
pub open spec fn is_mean_expression<F: PrimeField>(e: Expression<F>, dim_size: int) -> bool {
    let cols = pow2(log2_ceil(dim_size as nat)) as int;
    &&& e.within(3, 1)
    &&& forall|w: Seq<int>, ch: Seq<int>| #[trigger]
        e.value(w, ch) == mean_value(w, ch[0], cols % F::modulus())
}

/// What the second sumcheck sums at a place where its tables take the values `w`.
pub open spec fn mean_value(w: Seq<int>, c: int, cols: int) -> int {
    w[0] * (w[1] + (c * cols) * w[2])
}

/// The polynomials of the two sumchecks. The first links what is looked up and the
/// output to the input; the second shows that a table holds the sums of the rows.
pub fn build_sumcheck_expressions<F: PrimeField>(multiplier: Element, dim_size: usize) -> (r: (
    Expression<F>,
    Expression<F>,
))
    requires
        dim_size <= Element::MAX,
        pow2(log2_ceil(dim_size as nat)) <= usize::MAX,
    ensures
        is_first_expression(r.0, multiplier as int, dim_size as int),
        is_mean_expression(r.1, dim_size as int),
{
    let cols = power_of_two(ceil_log2(dim_size));
    let mult = Lifted::<F>::of_i64(multiplier).get();
    let n = Lifted::<F>::of_i64(dim_size as Element);
    let two = Lifted::<F>::of_u64(cols as u64);
    let n_elem = Lifted::<F>::of_i64(dim_size as Element).get();
    let n_cols = n.times(Lifted::<F>::of_u64(cols as u64)).get();
    let two_elem = two.get();
    let variance = Expression::Constant(n_cols).times(Expression::<F>::table(0)).times(
        Expression::<F>::table(0),
    ).minus(Expression::<F>::table(1).times(Expression::<F>::table(1)));
    let looked_up = Expression::Constant(mult).times(variance).plus(
        Expression::<F>::Challenge(0).times(Expression::<F>::table(2)),
    );
    let centred = Expression::Constant(n_elem).times(Expression::<F>::table(0)).minus(
        Expression::<F>::table(1),
    );
    let output = Expression::<F>::table(3).times(Expression::<F>::table(2)).times(centred).plus(
        Expression::<F>::table(4),
    );
    let squared = Expression::<F>::Challenge(0).times(Expression::<F>::Challenge(0));
    let first = Expression::<F>::table(5).times(looked_up).plus(
        squared.times(Expression::<F>::table(6)).times(output),
    );
    let scaled = Expression::<F>::Challenge(0).times(Expression::Constant(two_elem));
    let second = Expression::<F>::table(0).times(
        Expression::<F>::table(1).plus(scaled.times(Expression::<F>::table(2))),
    );
    proof {
        reveal_with_fuel(Expression::value, 8);
        reveal_with_fuel(Expression::within, 8);
    }
    (first, second)
}

/// The tables are those of the first sumcheck, for an input of rows of `2^k` values.
pub open spec fn is_layernorm_sumcheck<F: PrimeField>(
    x: Seq<Element>,
    k: nat,
    inv: Seq<Element>,
    gamma: Seq<Element>,
    beta_values: Seq<Element>,
    lookup: Seq<int>,
    last: Seq<int>,
    half: int,
    s: LayerNormSumcheck<F>,
) -> bool {
    let n = x.len() as int;
    let w = pow2(k) as int;
    &&& all_stand_for(s.input@, element_ints(x))
    &&& s.mean@.len() == n
    &&& forall|p: int|
        0 <= p < n ==> stands_for(#[trigger] s.mean@[p], row_total(x, w, p / w, w as nat))
    &&& s.inv_sqrt@.len() == n
    &&& forall|p: int| 0 <= p < n ==> stands_for(#[trigger] s.inv_sqrt@[p], inv[p / w] as int)
    &&& s.gamma@.len() == n
    &&& forall|p: int| 0 <= p < n ==> stands_for(#[trigger] s.gamma@[p], gamma[p % w] as int)
    &&& s.beta@.len() == n
    &&& forall|p: int| 0 <= p < n ==> stands_for(#[trigger] s.beta@[p], beta_values[p % w] as int)
    &&& all_stand_for(s.input_eq@, betas(averaging_point(half, k, lookup)))
    &&& all_stand_for(s.last_claim_eq@, betas(last))
}

/// A value for each row, at every place of the row.
fn by_row<F: PrimeField>(values: &Vec<Element>, w: usize, n: usize) -> (r: Vec<F>)
    requires
        w > 0,
        n <= values@.len() * w,
    ensures
        r@.len() == n,
        forall|p: int| 0 <= p < n ==> stands_for(#[trigger] r@[p], values@[p / w as int] as int),
{
    let mut r: Vec<F> = Vec::new();
    for p in 0..n
        invariant
            w > 0,
            n <= values@.len() * w,
            r@.len() == p,
            forall|q: int|
                0 <= q < p ==> stands_for(#[trigger] r@[q], values@[q / w as int] as int),
    {
        proof {
            let i = p as int / w as int;
            lemma_fundamental_div_mod(p as int, w as int);
            lemma_mod_bound(p as int, w as int);
            lemma_div_pos_is_pos(p as int, w as int);
            let len = values@.len() as int;
            assert(i < len) by (nonlinear_arith)
                requires
                    p == w * i + p as int % w as int,
                    0 <= p as int % w as int,
                    p < len * w,
                    w > 0,
            ;
        }
        r.push(Lifted::<F>::of_i64(values[p / w]).get());
    }
    r
}

/// A value for each column, at every place of the column.
fn by_column<F: PrimeField>(values: &Vec<Element>, w: usize, n: usize) -> (r: Vec<F>)
    requires
        w > 0,
        values@.len() == w,
    ensures
        r@.len() == n,
        forall|p: int| 0 <= p < n ==> stands_for(#[trigger] r@[p], values@[p % w as int] as int),
{
    let mut r: Vec<F> = Vec::new();
    for p in 0..n
        invariant
            w > 0,
            values@.len() == w,
            r@.len() == p,
            forall|q: int|
                0 <= q < p ==> stands_for(#[trigger] r@[q], values@[q % w as int] as int),
    {
        r.push(Lifted::<F>::of_i64(values[p % w]).get());
    }
    r
}

/// The sums of the rows, at every place of the row.
fn mean_table<F: PrimeField>(x: &Vec<Element>, w: usize) -> (r: Vec<F>)
    requires
        w > 0,
        x@.len() as int % w as int == 0,
    ensures
        r@.len() == x@.len(),
        forall|p: int|
            0 <= p < x@.len() ==> stands_for(
                #[trigger] r@[p],
                row_total(x@, w as int, p / w as int, w as nat),
            ),
{
    let mut r: Vec<F> = Vec::new();
    for p in 0..x.len()
        invariant
            w > 0,
            x@.len() as int % w as int == 0,
            r@.len() == p,
            forall|q: int|
                0 <= q < p ==> stands_for(
                    #[trigger] r@[q],
                    row_total(x@, w as int, q / w as int, w as nat),
                ),
    {
        let i: usize = p / w;
        proof {
            let (len, c) = (x@.len() as int, w as int);
            lemma_fundamental_div_mod(p as int, c);
            lemma_mod_bound(p as int, c);
            lemma_fundamental_div_mod(len, c);
            let k = len / c;
            assert(i * c + c <= len) by (nonlinear_arith)
                requires
                    len == c * k,
                    p == c * i + p as int % c,
                    0 <= p as int % c,
                    p < len,
                    c > 0,
            ;
            assert(0 <= i * c) by (nonlinear_arith)
                requires
                    i >= 0,
                    c > 0,
            ;
            assert(x.len() <= usize::MAX);
        }
        let start: usize = i * w;
        let ghost f = |j: int| x@[i as int * w as int + j] as int;
        let mut acc = Lifted::<F>::zero();
        for j in 0..w
            invariant
                start == i * w,
                start + w <= x@.len(),
                f == |j: int| x@[i as int * w as int + j] as int,
                acc@ == sum(j as nat, f),
        {
            assert(x.len() <= usize::MAX);
            acc = acc.plus(Lifted::<F>::of_i64(x[start + j]));
        }
        r.push(acc.get());
    }
    r
}

impl LayerNorm<Element> {
    /// The tables of the first sumcheck, for the claim on the output and the point at
    /// which the lookup ended. There has to be one claim and one input.
    pub fn prove<F: PrimeField>(
        &self,
        last_claims: &Vec<Claim<F>>,
        inputs: &Vec<Tensor<Element>>,
        inv_sqrt: &Vec<Element>,
        lookup_point: &Vec<F>,
    ) -> (r: Result<LayerNormSumcheck<F>, Error>)
        requires
            inputs@.len() == 1 && last_claims@.len() == 1 ==> {
                let input = inputs@[0];
                let k = log2_ceil(input.shape@.last() as nat);
                &&& input.wf()
                &&& input.shape@.len() >= 1
                &&& input.shape@.last() == pow2(k)
                &&& input.data@.len() == pow2(k + lookup_point@.len())
                &&& inv_sqrt@.len() == pow2(lookup_point@.len())
                &&& self.gamma.tensor.data@.len() == pow2(k)
                &&& self.beta.tensor.data@.len() == pow2(k)
                &&& pow2(last_claims@[0].point@.len()) <= usize::MAX
            },
        ensures
            match r {
                Ok(s) => {
                    &&& inputs@.len() == 1
                    &&& last_claims@.len() == 1
                    &&& exists|half: F| #[trigger]
                        inverts(2, half.residue(), F::modulus())
                            && is_layernorm_sumcheck(
                            inputs@[0].data@,
                            log2_ceil(inputs@[0].shape@.last() as nat),
                            inv_sqrt@,
                            self.gamma.tensor.data@,
                            self.beta.tensor.data@,
                            residues(lookup_point@),
                            residues(last_claims@[0].point@),
                            half.residue(),
                            s,
                        )
                },
                Err(e) => if inputs@.len() != 1 {
                    e == Error::WrongNumberOfInputs
                } else {
                    e == Error::WrongNumberOfClaims && last_claims@.len() != 1
                },
            },
    {
        if inputs.len() != 1 {
            return Err(Error::WrongNumberOfInputs);
        }
        if last_claims.len() != 1 {
            return Err(Error::WrongNumberOfClaims);
        }
        let input = &inputs[0];
        let w: usize = input.shape.dims[input.shape.rank() - 1];
        let k = ceil_log2(w);
        let n: usize = input.data.len();
        let half = F::half();
        let ghost rows = pow2(lookup_point@.len()) as int;
        proof {
            lemma_pow2_adds(k as nat, lookup_point@.len());
            lemma_pow2_pos(k as nat);
            lemma_pow2_pos(lookup_point@.len());
            assert(n == rows * w) by (nonlinear_arith)
                requires
                    n == w * rows,
            ;
            lemma_mod_multiples_basic(rows, w as int);
            assert(input.data.len() <= usize::MAX);
        }
        let full_point = averaging(k, lookup_point.as_slice(), half);
        let input_eq = compute_betas_eval(full_point.as_slice());
        let last_claim_eq = compute_betas_eval(last_claims[0].point.as_slice());
        Ok(
            LayerNormSumcheck {
                input: to_field(&input.data),
                mean: mean_table(&input.data, w),
                inv_sqrt: by_row(inv_sqrt, w, n),
                gamma: by_column(&self.gamma.tensor.data, w, n),
                beta: by_column(&self.beta.tensor.data, w, n),
                input_eq,
                last_claim_eq,
            },
        )
    }

    /// The two tables of factors of the second sumcheck, for the point at which the first
    /// ended: those of the point, and those of the point averaged over the columns.
    pub fn mean_tables<F: PrimeField>(io_point: &Vec<F>, k: usize) -> (r: (Vec<F>, Vec<F>))
        requires
            k <= io_point@.len(),
            pow2(io_point@.len()) <= usize::MAX,
        ensures
            all_stand_for(r.0@, betas(residues(io_point@))),
            exists|half: F| #[trigger]
                inverts(2, half.residue(), F::modulus()) && all_stand_for(
                    r.1@,
                    betas(
                        averaging_point(
                            half.residue(),
                            k as nat,
                            residues(io_point@).skip(k as int),
                        ),
                    ),
                ),
    {
        let half = F::half();
        let row = part(io_point.as_slice(), k, io_point.len());
        assert(residues(row@) =~= residues(io_point@).skip(k as int));
        let mean_point = averaging(k, row.as_slice(), half);
        (compute_betas_eval(io_point.as_slice()), compute_betas_eval(mean_point.as_slice()))
    }

    /// The context of the layer, the padded factors and biases to commit to and the largest
    /// number of values of a polynomial. A layer that has not been quantised is refused.
    pub fn step_info<F: PrimeField>(
        &self,
        node_id: usize,
        last_output_shapes: &Vec<Shape>,
        max_poly_len: usize,
        bit_len: usize,
    ) -> (r: Result<(LayerNormCtx<F>, Vec<(String, Vec<Element>)>, usize), Error>)
        requires
            bit_len >= 1,
            self.quant_info matches Some(q) ==> {
                &&& q.range_check_bits >= 1
                &&& q.range_check_bits < usize::MAX
                &&& q.dim_size <= Element::MAX
                &&& pow2(log2_ceil(q.dim_size as nat)) <= usize::MAX
            },
            self.gamma.tensor.wf() && can_pad(self.gamma.tensor.shape@),
            self.beta.tensor.wf() && can_pad(self.beta.tensor.shape@),
            forall|i: int|
                0 <= i < last_output_shapes@.len() ==> can_pad(
                    (#[trigger] last_output_shapes@[i])@,
                ),
        ensures
            match r {
                Ok((ctx, polys, len)) => self.quant_info matches Some(q) && {
                    let (g, b) = (self.gamma.tensor, self.beta.tensor);
                    &&& ctx.node_id == node_id
                    &&& ctx.range_check_bits == q.range_check_bits
                    &&& ctx.dim_size == q.dim_size
                    &&& ctx.multiplier == q.multiplier
                    &&& ctx.top_chunk_scalar_log == q.top_chunk_scalar_log
                    &&& ctx.num_range_checks == num_range_checks(
                        q.range_check_bits as int,
                        bit_len as int,
                    )
                    &&& ctx.is_for(q)
                    &&& ctx.gamma_key@ == self.gamma.key@
                    &&& ctx.beta_key@ == self.beta.key@
                    &&& len == longest(last_output_shapes@, max_poly_len as nat)
                    &&& polys@.len() == 2
                    &&& polys@[0].0@ == self.gamma.key@
                    &&& polys@[0].1@ == resized(g.data@, g.shape@, padded(g.shape@), 0)
                    &&& polys@[1].0@ == self.beta.key@
                    &&& polys@[1].1@ == resized(b.data@, b.shape@, padded(b.shape@), 0)
                },
                Err(e) => e == Error::NotQuantised && self.quant_info is None,
            },
    {
        let info = match self.quant_info {
            Some(q) => q,
            None => {
                return Err(Error::NotQuantised);
            },
        };
        let mut polys: Vec<(String, Vec<Element>)> = Vec::new();
        polys.push((self.gamma.key.clone(), self.gamma.tensor.pad_next_power_of_two(0).data));
        polys.push((self.beta.key.clone(), self.beta.tensor.pad_next_power_of_two(0).data));
        let len = longest_padded(last_output_shapes, max_poly_len);
        let (first, second) = build_sumcheck_expressions(info.multiplier, info.dim_size);
        proof {
            let (a, b) = (info.range_check_bits - 1, bit_len as int);
            lemma_div_is_ordered_by_denominator(a, 1, b);
        }
        let ctx = LayerNormCtx {
            node_id,
            range_check_bits: info.range_check_bits,
            dim_size: info.dim_size,
            multiplier: info.multiplier,
            top_chunk_scalar_log: info.top_chunk_scalar_log,
            num_range_checks: (info.range_check_bits - 1) / bit_len + 1,
            first_sumcheck_expression: first,
            mean_sumcheck_expression: second,
            gamma_key: self.gamma.key.clone(),
            beta_key: self.beta.key.clone(),
        };
        Ok((ctx, polys, len))
    }
}

impl<F: PrimeField> LayerNormCtx<F> {
    /// The polynomials are those of the quantised layer.
    pub open spec fn is_for(&self, q: QuantisedLayerNormData) -> bool {
        &&& is_first_expression(
            self.first_sumcheck_expression,
            q.multiplier as int,
            q.dim_size as int,
        )
        &&& is_mean_expression(self.mean_sumcheck_expression, q.dim_size as int)
    }
}

/// The claims that the layer leaves.
#[derive(Debug)]
pub struct LayerNormClaims<F> {
    pub input: Claim<F>,
    /// What was committed to, at the point of the lookup.
    pub lookup: (Vec<F>, Vec<F>),
    /// The inverse roots.
    pub inv_sqrt: Claim<F>,
    pub gamma: (String, Claim<F>),
    pub beta: (String, Claim<F>),
}

impl<F: PrimeField> LayerNormClaims<F> {
    /// The claims are those that the lookup and the end of the first sumcheck leave,
    /// beside the claim on the input: what was looked up is not committed to by itself,
    /// the inverse roots are taken at the rows of the end, and the factors and biases at
    /// its columns.
    pub open spec fn are_left(
        &self,
        gamma_key: Seq<char>,
        beta_key: Seq<char>,
        io_evaluations: Seq<F>,
        poly_evals: Seq<F>,
        lookup_point: Seq<F>,
        io_point: Seq<F>,
    ) -> bool {
        let cols = io_point.len() - lookup_point.len();
        &&& self.lookup.0@ == lookup_point
        &&& self.lookup.1@ == poly_evals.drop_last()
        &&& self.inv_sqrt.point@ == io_point.skip(cols)
        &&& self.inv_sqrt.eval == io_evaluations[2]
        &&& self.gamma.0@ == gamma_key
        &&& self.gamma.1.point@ == io_point.take(cols)
        &&& self.gamma.1.eval == io_evaluations[3]
        &&& self.beta.0@ == beta_key
        &&& self.beta.1.point@ == io_point.take(cols)
        &&& self.beta.1.eval == io_evaluations[4]
    }
}

/// The claims that are left once both sumchecks have ended.
pub(crate) fn left_claims<F: PrimeField>(
    gamma_key: &String,
    beta_key: &String,
    io_evaluations: &Vec<F>,
    poly_evals: &Vec<F>,
    lookup_point: &Vec<F>,
    io_point: &Vec<F>,
    input: Claim<F>,
) -> (r: LayerNormClaims<F>)
    requires
        io_evaluations@.len() >= 5,
        poly_evals@.len() >= 1,
        lookup_point@.len() <= io_point@.len(),
    ensures
        r.input == input,
        r.are_left(
            gamma_key@,
            beta_key@,
            io_evaluations@,
            poly_evals@,
            lookup_point@,
            io_point@,
        ),
{
    let cols: usize = io_point.len() - lookup_point.len();
    let low = part(io_point.as_slice(), 0, cols);
    let low2 = part(io_point.as_slice(), 0, cols);
    let high = part(io_point.as_slice(), cols, io_point.len());
    assert(low@ =~= io_point@.take(cols as int));
    assert(low2@ =~= io_point@.take(cols as int));
    assert(high@ =~= io_point@.skip(cols as int));
    let evals = part(poly_evals.as_slice(), 0, poly_evals.len() - 1);
    assert(evals@ =~= poly_evals@.drop_last());
    LayerNormClaims {
        input,
        lookup: (copied(lookup_point), evals),
        inv_sqrt: Claim::new(high, io_evaluations[2]),
        gamma: (gamma_key.clone(), Claim::new(low, io_evaluations[3])),
        beta: (beta_key.clone(), Claim::new(low2, io_evaluations[4])),
    }
}

impl LayerNorm<Element> {
    /// The proof and the claims that are left once both sumchecks have been run. The proof
    /// holds the first five evaluations at the end of the first sumcheck: those of the
    /// factors of the points, which follow them, the verifier computes. The claim on the
    /// input is where the second sumcheck ended.
    pub fn finish_proof<F: PrimeField, L, C, P>(
        &self,
        logup_proof: L,
        lookup_claims: &Vec<Claim<F>>,
        commitment: C,
        io_proof: P,
        io_point: &Vec<F>,
        io_ends: &Vec<F>,
        mean_proof: P,
        mean_point: Vec<F>,
        mean_ends: &Vec<F>,
    ) -> (r: (LayerNormClaims<F>, LayerNormProof<F, L, C, P>))
        requires
            lookup_claims@.len() >= 1,
            lookup_claims@[0].point@.len() <= io_point@.len(),
            io_ends@.len() >= 5,
            mean_ends@.len() >= 1,
        ensures
            r.0.input.point@ == mean_point@,
            r.0.input.eval == mean_ends@[0],
            r.0.are_left(
                self.gamma.key@,
                self.beta.key@,
                io_ends@.take(5),
                lookup_claims@.map_values(|c: Claim<F>| c.eval),
                lookup_claims@[0].point@,
                io_point@,
            ),
            r.1.logup_proof == logup_proof,
            r.1.commitment == commitment,
            r.1.io_proof == io_proof,
            r.1.mean_proof == mean_proof,
            r.1.io_evaluations@ == io_ends@.take(5),
    {
        let io_evaluations = part(io_ends.as_slice(), 0, 5);
        assert(io_evaluations@ =~= io_ends@.take(5));
        let ghost evals = lookup_claims@.map_values(|c: Claim<F>| c.eval);
        let mut poly_evals: Vec<F> = Vec::new();
        for i in 0..lookup_claims.len()
            invariant
                evals == lookup_claims@.map_values(|c: Claim<F>| c.eval),
                poly_evals@ == evals.take(i as int),
        {
            poly_evals.push(lookup_claims[i].eval);
            assert(evals.take(i + 1) =~= evals.take(i as int).push(evals[i as int]));
        }
        assert(evals.take(evals.len() as int) =~= evals);
        let claims = left_claims(
            &self.gamma.key,
            &self.beta.key,
            &io_evaluations,
            &poly_evals,
            &lookup_claims[0].point,
            io_point,
            Claim::new(mean_point, mean_ends[0]),
        );
        (claims, LayerNormProof { logup_proof, commitment, io_proof, mean_proof, io_evaluations })
    }
}

} // verus!
