//! The sumcheck of a mask proves the output of the mask.
use vstd::prelude::*;
use vstd::arithmetic::div_mod::*;
use vstd::arithmetic::power2::{lemma_pow2_adds, lemma_pow2_pos, pow2};
use crate::attention_mask::laws::{at_place, law_evaluation_is_proved, law_mask_sum, masked_table};
use crate::attention_mask::prove::{batch_dims, column_bound, decomposed, is_mask_sumcheck, lemma_padded_dim, matrix_entry, matrix_vars, provable, weighted, window, MaskProvingData, MaskSumcheck};
use crate::attention_mask::{input_offset, mask_summand, mask_value, masked_value, AttentionMask};
use crate::attention_mask::verify::MaskVerifyingData;
use crate::batching::{dim_points, factors, law_batched_claim, part_of};
use crate::claim::Claim;
use crate::congruence::{cong, lemma_cong_minus, lemma_cong_plus, lemma_cong_sum, lemma_cong_times, lemma_residue_cong};
use crate::field::{all_stand_for, residues, stands_for, PrimeField};
use crate::logits::witness::element_ints;
use crate::mle::{beta, betas, mle};
use crate::shape::{flat, in_bounds, lemma_flat, lemma_num_vars_skip, lemma_num_vars_split, lemma_unflat, log2_ceil, next_pow2, num_vars, numel, padded, unflat};
use crate::sum::{lemma_sum_same, sum};
use crate::tensor::{can_pad, Element, Tensor};
use crate::triangular::{lower_triangular, matrix_table, offset_matrix};

verus! {

/// What is summed at a place depends on residues alone.
proof fn lemma_summand_cong(
    v: Seq<int>,
    w: Seq<int>,
    c: Seq<int>,
    dec: bool,
    batched: bool,
    neg: (int, int),
    k: int,
    m: int,
)
    requires
        m > 1,
        v.len() == w.len(),
        0 <= k,
        input_offset(dec) + k < v.len(),
        forall|i: int| 0 <= i < v.len() ==> cong(#[trigger] v[i], w[i], m),
        cong(neg.0, neg.1, m),
        !batched ==> c[k] == 1,
    ensures
        cong(
            mask_summand(v, c, dec, batched, neg.0, k),
            mask_summand(w, c, dec, true, neg.1, k),
            m,
        ),
{
    let o = input_offset(dec) + k;
    assert(cong(v[0], w[0], m) && cong(v[1], w[1], m) && cong(v[2], w[2], m) && cong(v[3], w[3], m));
    assert(cong(v[o], w[o], m));
    let (a, b) = (mask_value(v, dec), mask_value(w, dec));
    if dec {
        assert(cong(v[4], w[4], m));
        lemma_cong_times(v[1], w[1], v[4], w[4], m);
    }
    assert(cong(a, b, m));
    lemma_cong_times(a, b, v[o], w[o], m);
    lemma_cong_minus(1, 1, a, b, m);
    lemma_cong_times(neg.0, neg.1, 1 - a, 1 - b, m);
    lemma_cong_plus(a * v[o], b * w[o], neg.0 * (1 - a), neg.1 * (1 - b), m);
    let (x, y) = (masked_value(a, v[o], neg.0), masked_value(b, w[o], neg.1));
    lemma_cong_times(v[2], w[2], v[3], w[3], m);
    lemma_cong_times(v[0], w[0], v[2] * v[3], w[2] * w[3], m);
    let (p, q) = (v[0] * (v[2] * v[3]), w[0] * (w[2] * w[3]));
    lemma_cong_times(p, q, c[k], c[k], m);
    lemma_cong_times(p * c[k], q * c[k], x, y, m);
    lemma_cong_times(p, q, x, y, m);
    if !batched {
        assert(q * c[k] == q) by (nonlinear_arith)
            requires
                c[k] == 1,
        ;
    }
}

/// The place of a value of a matrix of a tensor.
proof fn lemma_place(d: Seq<usize>, batch: Seq<int>, i: int, j: int, side: int)
    requires
        d.len() >= 2,
        batch.len() == d.len() - 2,
        d[d.len() - 2] == side,
        d.last() == side,
    ensures
        flat(d, batch.push(i).push(j)) == flat(batch_dims(d), batch) * (side * side) + (i * side + j),
{
    let idx = batch.push(i).push(j);
    let d1 = d.drop_last();
    assert(idx.drop_last() =~= batch.push(i));
    assert(batch.push(i).drop_last() =~= batch);
    assert(d1.drop_last() =~= batch_dims(d));
    assert(d1.last() == side);
    let f = flat(batch_dims(d), batch);
    assert(flat(d1, batch.push(i)) == f * side + i);
    assert((f * side + i) * side + j == f * (side * side) + (i * side + j)) by (nonlinear_arith);
}

/// The matrix `k` of an input, with zeros outside the unpadded matrix.
pub open spec fn matrix_ints(x: Tensor<Element>, batch: Seq<int>, side: nat) -> Seq<int> {
    let u = x.unpadded_shape@;
    Seq::new(
        side * side,
        |p: int|
            if (p / side as int) < u.last() && (p % side as int) < u.last() {
                x.at(batch.push(p / side as int).push(p % side as int)) as int
            } else {
                0
            },
    )
}

/// The tables of the sumcheck, as integers.
pub open spec fn int_tables(
    mask: AttentionMask<Element>,
    x: Tensor<Element>,
    eq: Seq<int>,
    side: nat,
    count: nat,
) -> Seq<Seq<int>> {
    let n = x.unpadded_shape@.last() as int;
    let dec = decomposed(mask.span, side as int);
    Seq::new(
        (input_offset(dec) + count) as nat,
        |t: int|
            if t == 0 {
                betas(eq)
            } else if t == 1 {
                matrix_table(|i: int, j: int| lower_triangular(i, j), side)
            } else if t == 2 {
                matrix_table(|i: int, j: int| column_bound(n, j), side)
            } else if t == 3 {
                matrix_table(|i: int, j: int| column_bound(n, i), side)
            } else if dec && t == 4 {
                matrix_table(|i: int, j: int| offset_matrix(window(mask.span), i, j), side)
            } else {
                matrix_ints(x, unflat(batch_dims(x.unpadded_shape@), t - input_offset(dec)), side)
            },
    )
}

/// The prover's tables stand for the integer tables.
proof fn lemma_tables<F: PrimeField>(
    mask: AttentionMask<Element>,
    x: Tensor<Element>,
    input: Tensor<F>,
    claim_point: Seq<F>,
    data: MaskProvingData<F>,
    s: MaskSumcheck<F>,
    h: nat,
    t: int,
    p: int,
)
    requires
        provable(input),
        x.wf(),
        x.shape@ == input.shape@,
        x.unpadded_shape@ == input.unpadded_shape@,
        all_stand_for(input.data@, element_ints(x.data@)),
        data.belongs_to(claim_point, input),
        h == log2_ceil(input.unpadded_shape@.last() as nat),
        matrix_vars(input.shape@) == 2 * h,
        is_mask_sumcheck(mask, data, input.unpadded_shape@.last() as nat, pow2(h), s),
        0 <= t < s.tables@.len(),
        0 <= p < pow2(h) * pow2(h),
        claim_point.len() >= 2 * h,
    ensures
        s.tables@.len() == input_offset(decomposed(mask.span, pow2(h) as int)) + numel(
            batch_dims(input.unpadded_shape@),
        ),
        s.tables@[t]@.len() == pow2(h) * pow2(h),
        stands_for(
            s.tables@[t]@[p],
            int_tables(
                mask,
                x,
                residues(claim_point.take((2 * h) as int)),
                pow2(h),
                numel(batch_dims(input.unpadded_shape@)),
            )[t][p],
        ),
{
    let side = pow2(h);
    let u = input.unpadded_shape@;
    let n = u.last() as nat;
    let dec = decomposed(mask.span, side as int);
    let off = input_offset(dec);
    let eq = residues(claim_point.take((2 * h) as int));
    let count = numel(batch_dims(u));
    let tables = int_tables(mask, x, eq, side, count);
    lemma_pow2_adds(h, h);
    assert(side == next_pow2(n));
    if t >= off {
        let k = t - off;
        let batch = unflat(batch_dims(u), k);
        lemma_unflat(batch_dims(u), k);
        let poly = data.input_polys@[k]@;
        assert(s.tables@[off + k]@ == poly);
        lemma_pow2_pos(h);
        let w = side as int;
        let (i, j) = (p / w, p % w);
        lemma_fundamental_div_mod(p, w);
        lemma_mod_bound(p, w);
        lemma_div_pos_is_pos(p, w);
        assert(poly[p].residue() == matrix_entry(input, k, p));
        let f = poly[p];
        f.residue_bounds();
        lemma_small_mod(f.residue() as nat, F::modulus() as nat);
        if i < n && j < n {
            let idx = batch.push(i).push(j);
            assert forall|l: int| 0 <= l < u.len() implies 0 <= #[trigger] idx[l] < input.shape@[l] by {
                lemma_padded_dim(u, l);
                if l < u.len() - 2 {
                    assert(0 <= batch[l] < batch_dims(u)[l]);
                }
            }
            lemma_flat(input.shape@, idx);
            let q = flat(input.shape@, idx);
            let g = input.data@[q];
            assert(stands_for(g, element_ints(x.data@)[q]));
            assert(f.residue() == g.residue());
            assert(tables[t][p] == x.at(idx));
        } else {
            lemma_small_mod(0, F::modulus() as nat);
        }
    } else if t == 0 {
        assert(betas(eq)[p] == beta(eq, p));
    }
}

/// What the sumcheck of a mask sums, over the prover's tables, is the claim on the output:
/// the extension of what evaluation gives, at the point of the claim.
pub proof fn law_output_is_proved<F: PrimeField>(
    mask: AttentionMask<Element>,
    x: Tensor<Element>,
    out: Tensor<Element>,
    input: Tensor<F>,
    claim_point: Seq<F>,
    data: MaskProvingData<F>,
    s: MaskSumcheck<F>,
)
    requires
        F::modulus() > 1,
        provable(input),
        x.wf(),
        x.shape@ == input.shape@,
        x.unpadded_shape@ == input.unpadded_shape@,
        all_stand_for(input.data@, element_ints(x.data@)),
        mask.masks(x, 0, out),
        claim_point.len() == num_vars(input.shape@),
        data.belongs_to(claim_point, input),
        is_mask_sumcheck(
            mask,
            data,
            input.unpadded_shape@.last() as nat,
            pow2(matrix_vars(input.shape@) / 2),
            s,
        ),
    ensures
        cong(
            sum(
                pow2(matrix_vars(input.shape@)),
                |p: int|
                    sum(
                        s.expressions@.len(),
                        |k: int|
                            s.expressions@[k].value(
                                Seq::new(s.tables@.len(), |t: int| s.tables@[t]@[p].residue()),
                                residues(s.challenges@),
                            ),
                    ),
            ),
            mle(element_ints(out.data@), residues(claim_point)),
            F::modulus(),
        ),
{
    let m = F::modulus();
    let u = input.unpadded_shape@;
    let d = input.shape@;
    let r = u.len() - 2;
    let n = u.last() as nat;
    let h = log2_ceil(n);
    let side = pow2(h);
    let (bu, bd) = (batch_dims(u), batch_dims(d));
    let count = numel(bu);
    assert(u[u.len() - 1] > 0);
    lemma_padded_dim(u, u.len() - 1);
    lemma_padded_dim(u, u.len() - 2);
    assert(matrix_vars(d) == 2 * h);
    lemma_num_vars_split(d, r);
    lemma_num_vars_skip(d, r);
    lemma_num_vars_skip(d, r + 1);
    assert(num_vars(d.skip(u.len() as int)) == 0);
    let v = 2 * h;
    assert(num_vars(d.skip(r)) == v);
    lemma_pow2_adds(h, h);
    lemma_pow2_pos(h);
    let size = pow2(v);
    let p = residues(claim_point);
    let eq = residues(claim_point.take(v as int));
    assert(eq =~= p.take(v as int));
    let dec = decomposed(mask.span, side as int);
    let off = input_offset(dec);
    let neg = mask.negative_infinity as int;
    let c = residues(s.challenges@);
    let tables = int_tables(mask, x, eq, side, count);
    assert forall|k: int| 0 <= k < d.len() implies #[trigger] d[k] == pow2(log2_ceil(d[k] as nat))
        && u[k] <= d[k] by {
        lemma_padded_dim(u, k);
    }
    assert forall|k: int| 0 <= k < r implies bu[k] <= #[trigger] d[k] by {
        lemma_padded_dim(u, k);
    }
    // Place by place, the tables stand for integers.
    let batched = data.input_shape@.len() > 2;
    assert(!batched ==> c[0] == 1) by {
        if !batched {
            assert(bu.len() == 0);
            assert(numel(bu) == 1);
            let f = data.batching_challenges@[0];
            assert(stands_for(f, factors(dim_points(d, p), unflat(bu, 0))));
            assert(factors(dim_points(d, p), Seq::<int>::empty()) == 1);
            lemma_small_mod(1, m as nat);
        }
    }
    let given = |q: int|
        sum(
            s.expressions@.len(),
            |k: int|
                s.expressions@[k].value(
                    Seq::new(s.tables@.len(), |t: int| s.tables@[t]@[q].residue()),
                    residues(s.challenges@),
                ),
        );
    let plain = |q: int|
        sum(c.len(), |k: int| mask_summand(at_place(tables, q), c, dec, true, neg, k));
    assert(s.tables@.len() == off + count);
    lemma_mod_twice(neg, m);
    assert forall|q: int| 0 <= q < size implies cong(#[trigger] given(q), plain(q), m) by {
        let vs = Seq::new(s.tables@.len(), |t: int| s.tables@[t]@[q].residue());
        let ws = at_place(tables, q);
        assert forall|t: int| 0 <= t < vs.len() implies cong(#[trigger] vs[t], ws[t], m) by {
            lemma_tables(mask, x, input, claim_point, data, s, h, t, q);
            lemma_residue_cong(s.tables@[t]@[q], tables[t][q]);
        }
        let a = |k: int| s.expressions@[k].value(vs, c);
        let b = |k: int| mask_summand(ws, c, dec, true, neg, k);
        assert forall|k: int| 0 <= k < count implies cong(#[trigger] a(k), b(k), m) by {
            lemma_summand_cong(vs, ws, c, dec, batched, (neg % m, neg), k, m);
        }
        lemma_cong_sum(count, a, b, m);
        lemma_sum_same(
            count,
            a,
            |k: int|
                s.expressions@[k].value(
                    Seq::new(s.tables@.len(), |t: int| s.tables@[t]@[q].residue()),
                    residues(s.challenges@),
                ),
        );
        lemma_sum_same(
            count,
            b,
            |k: int| mask_summand(at_place(tables, q), c, dec, true, neg, k),
        );
    }
    lemma_cong_sum(size, given, plain, m);
    law_mask_sum(tables, eq, c, dec, neg);
    lemma_sum_same(
        size,
        plain,
        |q: int| sum(c.len(), |k: int| mask_summand(at_place(tables, q), c, dec, true, neg, k)),
    );
    // The output is its matrices.
    let o = element_ints(out.data@);
    assert(out.shape@ =~= d);
    assert forall|g: int, q: int|
        0 <= g < numel(d.take(r)) && 0 <= q < pow2(num_vars(d.skip(r))) && !in_bounds(
            bu,
            unflat(d.take(r), g),
        ) implies #[trigger] o[g * pow2(num_vars(d.skip(r))) + q] == 0 by {
        let batch = unflat(bd, g);
        lemma_unflat(bd, g);
        let (i, j) = (q / side as int, q % side as int);
        lemma_fundamental_div_mod(q, side as int);
        lemma_mod_bound(q, side as int);
        lemma_div_pos_is_pos(q, side as int);
        let w = side as int;
        assert(i < w) by (nonlinear_arith)
            requires
                q == w * i + j,
                0 <= j,
                q < w * w,
                w > 0,
        ;
        assert(w * i == i * w) by (nonlinear_arith);
        let idx = batch.push(i).push(j);
        lemma_place(d, batch, i, j, w);
        assert forall|l: int| 0 <= l < d.len() implies 0 <= #[trigger] idx[l] < d[l] by {
            if l < r {
                assert(0 <= batch[l] < bd[l]);
            }
        }
        lemma_flat(d, idx);
        assert(!in_bounds(u, idx)) by {
            if in_bounds(u, idx) {
                assert forall|l: int| 0 <= l < r implies 0 <= #[trigger] batch[l] < bu[l] by {
                    assert(0 <= idx[l] < u[l]);
                }
            }
        }
        assert(out.at(idx) == 0);
    }
    law_batched_claim(d, bu, r, o, p);
    let left = |k: int| c[k] * mle(masked_table(tables, dec, neg, k, pow2(eq.len())), eq);
    let right = |k: int|
        factors(dim_points(d, p), unflat(bu, k)) * mle(
            part_of(o, pow2(num_vars(d.skip(r))), flat(d.take(r), unflat(bu, k))),
            p.take(num_vars(d.skip(r)) as int),
        );
    assert forall|k: int| 0 <= k < count implies cong(#[trigger] left(k), right(k), m) by {
        let batch = unflat(bu, k);
        lemma_unflat(bu, k);
        let g = flat(bd, batch);
        assert forall|l: int| 0 <= l < r implies 0 <= #[trigger] batch[l] < bd[l] by {
            assert(0 <= batch[l] < bu[l]);
            lemma_padded_dim(u, l);
        }
        lemma_flat(bd, batch);
        let mt = masked_table(tables, dec, neg, k, size);
        let part = part_of(o, size, g);
        assert forall|q: int| 0 <= q < size implies mt[q] == part[q] by {
            let w = side as int;
            let (i, j) = (q / w, q % w);
            lemma_fundamental_div_mod(q, w);
            lemma_mod_bound(q, w);
            lemma_div_pos_is_pos(q, w);
            assert(i < w) by (nonlinear_arith)
                requires
                    q == w * i + j,
                    0 <= j,
                    q < w * w,
                    w > 0,
            ;
            assert(w * i == i * w) by (nonlinear_arith);
            let idx = batch.push(i).push(j);
            lemma_place(d, batch, i, j, w);
            assert forall|l: int| 0 <= l < d.len() implies 0 <= #[trigger] idx[l] < d[l] by {
                if l < r {
                    assert(0 <= batch[l] < bd[l]);
                }
            }
            lemma_flat(d, idx);
            if i < n && j < n {
                assert forall|l: int| 0 <= l < u.len() implies 0 <= #[trigger] idx[l] < u[l] by {
                    if l < r {
                        assert(0 <= batch[l] < bu[l]);
                    }
                }
                assert(tables[off + k] == matrix_ints(x, batch, side));
            } else {
                assert(!in_bounds(u, idx)) by {
                    if in_bounds(u, idx) {
                        assert(0 <= idx[u.len() - 2] < u[u.len() - 2]);
                        assert(0 <= idx[u.len() - 1] < u[u.len() - 1]);
                    }
                }
                assert(out.at(idx) == 0);
            }
            law_evaluation_is_proved(mask, x, 0, out, side, tables, batch, k, i, j);
        }
        assert(mt =~= part);
        assert(size == pow2(eq.len()));
        let f = data.batching_challenges@[k];
        let fv = factors(dim_points(d, p), unflat(bu, k));
        assert(stands_for(f, fv));
        lemma_residue_cong(f, fv);
        lemma_cong_times(c[k], fv, mle(mt, eq), mle(mt, eq), m);
    }
    lemma_cong_sum(count, left, right, m);
    lemma_sum_same(
        count,
        left,
        |k: int| c[k] * mle(masked_table(tables, dec, neg, k, pow2(eq.len())), eq),
    );
    lemma_sum_same(
        count,
        right,
        |k: int|
            factors(dim_points(d, p), unflat(bu, k)) * mle(
                part_of(o, pow2(num_vars(d.skip(r))), flat(d.take(r), unflat(bu, k))),
                p.take(num_vars(d.skip(r)) as int),
            ),
    );
}

/// Factors depend on the points of their indices alone.
proof fn lemma_factors_same(a: Seq<Seq<int>>, b: Seq<Seq<int>>, idx: Seq<int>)
    requires
        forall|k: int| 0 <= k < idx.len() ==> #[trigger] a[k] == b[k],
    ensures
        factors(a, idx) == factors(b, idx),
    decreases idx.len(),
{
    if idx.len() > 0 {
        lemma_factors_same(a, b, idx.drop_last());
        assert(a[idx.len() - 1] == b[idx.len() - 1]);
    }
}

/// The points of the first dimensions do not depend on the coordinates of the last two.
proof fn lemma_batch_points(d: Seq<usize>, p: Seq<int>, q: Seq<int>, v: nat, k: int)
    requires
        d.len() >= 2,
        v == num_vars(d.skip(d.len() - 2)),
        p.len() == num_vars(d),
        q.len() == p.len(),
        p.skip(v as int) == q.skip(v as int),
        0 <= k < d.len() - 2,
    ensures
        dim_points(d, p)[k] == dim_points(d, q)[k],
{
    let r = d.len() - 2;
    let e = d.skip(k + 1);
    lemma_num_vars_split(d, k + 1);
    lemma_num_vars_split(d, k);
    lemma_num_vars_skip(d, k);
    lemma_num_vars_split(e, r - k - 1);
    assert(e.skip(r - k - 1) =~= d.skip(r));
    let from = num_vars(e) as int;
    let to = from + log2_ceil(d[k] as nat);
    assert(from >= v);
    assert(to <= p.len());
    assert forall|i: int| from <= i < to implies p[i] == q[i] by {
        assert(p.skip(v as int)[i - v] == q.skip(v as int)[i - v]);
    }
    assert(p.subrange(from, to) =~= q.subrange(from, to));
}

/// The claim that is left on the input of a mask holds of it, where the evaluations are
/// those of its matrices and its padding is zero.
pub proof fn law_input_claim_holds<F: PrimeField>(
    x: Tensor<Element>,
    claim_point: Seq<F>,
    data: MaskVerifyingData<F>,
    point: Seq<F>,
    evaluations: Seq<F>,
    claim: Claim<F>,
)
    requires
        F::modulus() > 1,
        x.wf(),
        can_pad(x.unpadded_shape@),
        x.shape@ == padded(x.unpadded_shape@),
        x.shape@.len() >= 2,
        x.unpadded_shape@[x.shape@.len() - 2] == x.unpadded_shape@.last(),
        forall|k: int| 0 <= k < x.shape@.len() ==> #[trigger] x.unpadded_shape@[k] > 0,
        forall|idx: Seq<int>|
            in_bounds(x.shape@, idx) && !in_bounds(x.unpadded_shape@, idx) ==> #[trigger] x.at(idx)
                == 0,
        claim_point.len() == num_vars(x.shape@),
        data.belongs_to(claim_point, x.shape@, x.unpadded_shape@),
        point.len() == matrix_vars(x.shape@),
        evaluations.len() == numel(batch_dims(x.unpadded_shape@)),
        forall|k: int|
            0 <= k < evaluations.len() ==> stands_for(
                #[trigger] evaluations[k],
                mle(
                    matrix_ints(
                        x,
                        unflat(batch_dims(x.unpadded_shape@), k),
                        next_pow2(x.unpadded_shape@.last() as nat),
                    ),
                    residues(point),
                ),
            ),
        claim.point@ == point + data.batching_point@,
        stands_for(
            claim.eval,
            weighted(residues(data.batching_challenges@), residues(evaluations)),
        ),
    ensures
        stands_for(claim.eval, mle(element_ints(x.data@), residues(claim.point@))),
{
    let m = F::modulus();
    let u = x.unpadded_shape@;
    let d = x.shape@;
    let r = u.len() - 2;
    let n = u.last() as nat;
    let h = log2_ceil(n);
    let side = pow2(h);
    let (bu, bd) = (batch_dims(u), batch_dims(d));
    let count = numel(bu);
    assert(u[u.len() - 1] > 0);
    lemma_padded_dim(u, u.len() - 1);
    lemma_padded_dim(u, u.len() - 2);
    assert(matrix_vars(d) == 2 * h);
    lemma_num_vars_split(d, r);
    lemma_num_vars_skip(d, r);
    lemma_num_vars_skip(d, r + 1);
    assert(num_vars(d.skip(u.len() as int)) == 0);
    let v = 2 * h;
    assert(num_vars(d.skip(r)) == v);
    lemma_pow2_adds(h, h);
    lemma_pow2_pos(h);
    let size = pow2(v);
    let (p, low) = (residues(claim_point), residues(point));
    let q = residues(claim.point@);
    assert(q =~= low + p.skip(v as int));
    assert(q.skip(v as int) =~= p.skip(v as int));
    assert(q.take(v as int) =~= low);
    assert forall|k: int| 0 <= k < d.len() implies #[trigger] d[k] == pow2(log2_ceil(d[k] as nat))
        && u[k] <= d[k] by {
        lemma_padded_dim(u, k);
    }
    assert forall|k: int| 0 <= k < r implies bu[k] <= #[trigger] d[k] by {
        lemma_padded_dim(u, k);
    }
    let o = element_ints(x.data@);
    let w = side as int;
    assert forall|g: int, y: int|
        0 <= g < numel(d.take(r)) && 0 <= y < pow2(num_vars(d.skip(r))) && !in_bounds(
            bu,
            unflat(d.take(r), g),
        ) implies #[trigger] o[g * pow2(num_vars(d.skip(r))) + y] == 0 by {
        let batch = unflat(bd, g);
        lemma_unflat(bd, g);
        lemma_inside(d, batch, side, y);
        let idx = batch.push(y / w).push(y % w);
        assert(!in_bounds(u, idx)) by {
            if in_bounds(u, idx) {
                assert forall|l: int| 0 <= l < r implies 0 <= #[trigger] batch[l] < bu[l] by {
                    assert(0 <= idx[l] < u[l]);
                }
            }
        }
        assert(x.at(idx) == 0);
    }
    law_batched_claim(d, bu, r, o, q);
    let (c, e) = (residues(data.batching_challenges@), residues(evaluations));
    let left = |k: int| c[k] * e[k];
    let right = |k: int|
        factors(dim_points(d, q), unflat(bu, k)) * mle(
            part_of(o, pow2(num_vars(d.skip(r))), flat(d.take(r), unflat(bu, k))),
            q.take(num_vars(d.skip(r)) as int),
        );
    assert forall|k: int| 0 <= k < count implies cong(#[trigger] left(k), right(k), m) by {
        let batch = unflat(bu, k);
        lemma_unflat(bu, k);
        let g = flat(bd, batch);
        assert forall|l: int| 0 <= l < r implies 0 <= #[trigger] batch[l] < bd[l] by {
            assert(0 <= batch[l] < bu[l]);
            lemma_padded_dim(u, l);
        }
        lemma_flat(bd, batch);
        let mt = matrix_ints(x, batch, side);
        let part = part_of(o, size, g);
        assert forall|y: int| 0 <= y < size implies mt[y] == part[y] by {
            lemma_inside(d, batch, side, y);
            let (i, j) = (y / w, y % w);
            let idx = batch.push(i).push(j);
            if !(i < n && j < n) {
                assert(!in_bounds(u, idx)) by {
                    if in_bounds(u, idx) {
                        assert(0 <= idx[u.len() - 2] < u[u.len() - 2]);
                        assert(0 <= idx[u.len() - 1] < u[u.len() - 1]);
                    }
                }
                assert(x.at(idx) == 0);
            }
        }
        assert(mt =~= part);
        let f = data.batching_challenges@[k];
        let (fp, fq) = (factors(dim_points(d, p), batch), factors(dim_points(d, q), batch));
        assert forall|l: int| 0 <= l < batch.len() implies #[trigger] dim_points(d, p)[l]
            == dim_points(d, q)[l] by {
            lemma_batch_points(d, p, q, v, l);
        }
        lemma_factors_same(dim_points(d, p), dim_points(d, q), batch);
        assert(stands_for(f, fp));
        lemma_residue_cong(f, fp);
        assert(stands_for(evaluations[k], mle(mt, low)));
        lemma_residue_cong(evaluations[k], mle(mt, low));
        lemma_cong_times(c[k], fq, e[k], mle(mt, low), m);
    }
    lemma_cong_sum(count, left, right, m);
    lemma_sum_same(count, left, |k: int| c[k] * e[k]);
    lemma_sum_same(
        count,
        right,
        |k: int|
            factors(dim_points(d, q), unflat(bu, k)) * mle(
                part_of(o, pow2(num_vars(d.skip(r))), flat(d.take(r), unflat(bu, k))),
                q.take(num_vars(d.skip(r)) as int),
            ),
    );
}

/// A place of a matrix of a tensor lies inside the tensor.
proof fn lemma_inside(d: Seq<usize>, batch: Seq<int>, side: nat, y: int)
    requires
        d.len() >= 2,
        d[d.len() - 2] == side,
        d.last() == side,
        side > 0,
        in_bounds(batch_dims(d), batch),
        0 <= y < side * side,
    ensures
        in_bounds(d, batch.push(y / side as int).push(y % side as int)),
        flat(d, batch.push(y / side as int).push(y % side as int)) == flat(batch_dims(d), batch) * (
        side * side) + y,
        0 <= flat(d, batch.push(y / side as int).push(y % side as int)) < numel(d),
{
    let w = side as int;
    let (i, j) = (y / w, y % w);
    lemma_fundamental_div_mod(y, w);
    lemma_mod_bound(y, w);
    lemma_div_pos_is_pos(y, w);
    assert(i < w) by (nonlinear_arith)
        requires
            y == w * i + j,
            0 <= j,
            y < w * w,
            w > 0,
    ;
    assert(w * i == i * w) by (nonlinear_arith);
    let idx = batch.push(i).push(j);
    lemma_place(d, batch, i, j, w);
    assert forall|l: int| 0 <= l < d.len() implies 0 <= #[trigger] idx[l] < d[l] by {
        if l < d.len() - 2 {
            assert(0 <= batch[l] < batch_dims(d)[l]);
        }
    }
    lemma_flat(d, idx);
}

} // verus!
