//! What holds of positions as a whole.
use vstd::prelude::*;
use vstd::arithmetic::power2::{lemma_pow2_adds, pow2};
use crate::claim::{Claim, SubClaim};
use crate::congruence::{cong, lemma_cong_plus, lemma_cong_sum, lemma_cong_times, lemma_residue_cong};
use crate::embeddings::cell;
use crate::error::Error;
use crate::field::{all_stand_for, residues, stands_for, PrimeField};
use crate::linear::is_matrix;
use crate::logits::verify::invertible;
use crate::logits::witness::element_ints;
use crate::mle::{beta, betas, mle};
use crate::positional::absolute::{follows_from, follows_from_quotient, is_absolute_sumcheck, is_quotient, law_added_rows, law_honest_rows_found, row_sum, rows_of, Absolute, AbsoluteCtx, AbsoluteProof, AbsoluteSumcheck};
use crate::positional::binding::{doubling, folded, is_matrix_claim, is_part_evals, law_folded, matrix_num_vars};
use crate::positional::learned::{is_learned_step, LearnedStep};
use crate::positional::rope::laws::{law_committed_half, law_turned_in_pairs, leads, paired, partner};
use crate::positional::rope::layout::RopeLayout;
use crate::positional::rope::{is_padded_from, leaves_layer};
use crate::positional::rope::prove::{is_committed_claim, is_half_claim, kept_half};
use crate::positional::{Positional, PositionalCache, PositionalVariant, Positioned};
use crate::shape::{in_bounds, lemma_flat, lemma_matrix_place, log2_ceil, next_pow2, num_vars};
use crate::sum::{lemma_sum_same, sum};
use crate::tensor::{Element, KeyedTensor, Tensor};

verus! {

/// The tokens that a layer has seen, where it counts them.
pub open spec fn tokens_seen(cache: Option<PositionalCache>) -> int {
    match cache {
        Some(c) => c.seq_len as int,
        None => 0,
    }
}

/// Rows of a matrix are its rows, in their order.
pub proof fn law_rows<N>(data: Seq<N>, cols: int, from: int, to: int, i: int, j: int)
    requires
        0 <= from <= to,
        0 <= cols,
        to * cols <= data.len(),
        0 <= i < to - from,
        0 <= j < cols,
    ensures
        rows_of(data, cols, from, to).len() == (to - from) * cols,
        rows_of(data, cols, from, to)[i * cols + j] == data[(from + i) * cols + j],
{
    assert(0 <= from * cols <= to * cols && to * cols - from * cols == (to - from) * cols)
        by (nonlinear_arith)
        requires
            0 <= from <= to,
            0 <= cols,
    ;
    assert(0 <= i * cols + j < (to - from) * cols) by (nonlinear_arith)
        requires
            0 <= i < to - from,
            0 <= j < cols,
    ;
    assert((from + i) * cols + j == from * cols + (i * cols + j)) by (nonlinear_arith);
}

/// The row that is added to a token is the row of its position: positions go on from the
/// tokens that were seen before. Padding gets zeros.
pub proof fn law_row_of_position(
    layer: Absolute<Element>,
    seen: PositionalCache,
    seen_after: PositionalCache,
    input: Tensor<Element>,
    t: Tensor<Element>,
    i: int,
    j: int,
)
    requires
        is_matrix(layer.positional.tensor),
        input.unpadded_shape@.len() >= 1,
        seen.seq_len + input.unpadded_shape@[0] <= layer.positional.tensor.shape@[0],
        layer.adds(seen, seen_after, input, Ok(t)),
        in_bounds(t.shape@, seq![i, j]),
        t.shape@.len() == 2,
    ensures
        seen_after.seq_len == seen.seq_len + input.unpadded_shape@[0],
        seen_after.initialized,
        cell(t, i, j) == if i < input.unpadded_shape@[0] && j
            < layer.positional.tensor.shape@[1] {
            cell(layer.positional.tensor, seen.seq_len + i, j)
        } else {
            0
        },
{
    let past = seen.seq_len as int;
    let n = input.unpadded_shape@[0];
    let m = layer.positional.tensor.shape@;
    let cols = m[1];
    let d = seq![n, cols];
    let rows = rows_of(layer.positional.tensor.data@, cols as int, past, past + n);
    let idx = seq![i, j];
    assert(m =~= seq![m[0], cols]);
    assert(0 <= idx[0] < t.shape@[0] && 0 <= idx[1] < t.shape@[1]);
    lemma_flat(t.shape@, idx);
    if i < n && j < cols {
        lemma_matrix_place(n, cols, i, j);
        lemma_matrix_place(m[0], cols, past + i, j);
        let (a, b) = ((past + n) * cols, m[0] * cols);
        assert(a <= b) by (nonlinear_arith)
            requires
                past + n <= m[0],
                a == (past + n) * cols,
                b == m[0] * cols,
                cols >= 0,
        ;
        law_rows(layer.positional.tensor.data@, cols as int, past, past + n, i, j);
    } else {
        assert(!in_bounds(d, idx)) by {
            if in_bounds(d, idx) {
                assert(0 <= idx[0] < d[0] && 0 <= idx[1] < d[1]);
            }
        }
    }
}

/// A layer that adds rows gives each token the row of its position, and counts its tokens.
pub proof fn law_positional_adds(
    layer: Positional<Element>,
    after: Positional<Element>,
    input: Tensor<Element>,
    t: Tensor<Element>,
    i: int,
    j: int,
)
    requires
        layer.variant matches PositionalVariant::Absolute(a) && is_matrix(a.positional.tensor)
            && tokens_seen(layer.cache) + input.unpadded_shape@[0] <= a.positional.tensor.shape@[0],
        input.unpadded_shape@.len() >= 1,
        layer.evaluates(after, input, Ok(Positioned::ToAdd(t))),
        t.shape@.len() == 2,
        in_bounds(t.shape@, seq![i, j]),
    ensures
        ({
            let m = layer.variant->Absolute_0.positional.tensor;
            &&& after.variant == layer.variant
            &&& layer.cache is Some ==> tokens_seen(after.cache) == tokens_seen(layer.cache)
                + input.unpadded_shape@[0]
            &&& cell(t, i, j) == if i < input.unpadded_shape@[0] && j < m.shape@[1] {
                cell(m, tokens_seen(layer.cache) + i, j)
            } else {
                0
            }
        }),
{
    let seen_after = choose|seen_after: PositionalCache|
        {
            &&& after.cache == match layer.cache {
                Some(_) => Some(seen_after),
                None => None,
            }
            &&& #[trigger] layer.evaluates_to(after, seen_after, input, Ok(Positioned::ToAdd(t)))
        };
    law_row_of_position(
        layer.variant->Absolute_0,
        layer.seen(),
        seen_after,
        input,
        t,
        i,
        j,
    );
}

/// A layer that rotates turns each token by the angles of its position, and counts its
/// tokens. What leaves it without a cache is padded with zeros where the input is padded;
/// with a cache, the turned tokens are added to it.
pub proof fn law_positional_rotates(
    layer: Positional<Element>,
    after: Positional<Element>,
    input: Tensor<Element>,
    out: Tensor<Element>,
    idx: Seq<int>,
)
    requires
        layer.variant is Rope,
        layer.evaluates(after, input, Ok(Positioned::Output(out))),
        input.wf(),
        input.unpadded_shape@.len() >= 2,
        input.unpadded_shape@.last() % 2 == 0,
        ({
            let rope = layer.variant->Rope_0;
            let d = input.unpadded_shape@;
            &&& rope.wf()
            &&& rope.concatenation_cache is None
            &&& d.last() <= rope.cosine_matrix.tensor.shape@[1]
            &&& tokens_seen(layer.cache) + d[d.len() - 2] <= rope.cosine_matrix.tensor.shape@[0]
        }),
        in_bounds(out.shape@, idx),
    ensures
        ({
            let rope = layer.variant->Rope_0;
            let d = input.unpadded_shape@;
            let r = d.len();
            let w = d.last() as int;
            let (i, j) = (tokens_seen(layer.cache) + idx[r - 2], idx[r - 1]);
            let other = idx.update(r - 1, partner(rope.layout, w, j));
            let (c, s) = (
                cell(rope.cosine_matrix.tensor, i, j) as int,
                cell(rope.sine_matrix.tensor, i, j) as int,
            );
            &&& layer.cache is Some ==> tokens_seen(after.cache) == tokens_seen(layer.cache) + d[r
                - 2]
            &&& out.unpadded_shape@ == d
            &&& !in_bounds(d, idx) ==> out.at(idx) == 0
            &&& in_bounds(d, idx) ==> out.at(idx) == if leads(rope.layout, w, j) {
                input.at(idx) * c - input.at(other) * s
            } else {
                input.at(idx) * c + input.at(other) * s
            }
        }),
{
    let rope = layer.variant->Rope_0;
    let r: Result<Positioned, Error> = Ok(Positioned::Output(out));
    let seen_after = choose|seen_after: PositionalCache|
        {
            &&& after.cache == match layer.cache {
                Some(_) => Some(seen_after),
                None => None,
            }
            &&& #[trigger] layer.evaluates_to(after, seen_after, input, r)
        };
    let later = after.variant->Rope_0;
    let past = layer.seen().seq_len as int;
    let o = choose|o: Tensor<Element>| #[trigger]
        rope.rotates(input, past, o) && leaves_layer(
            rope.concatenation_cache,
            later.concatenation_cache,
            o,
            input.spec_is_padded(),
            Ok(out),
        );
    let d = input.unpadded_shape@;
    lemma_flat(out.shape@, idx);
    if in_bounds(d, idx) {
        lemma_flat(d, idx);
        law_turned_in_pairs(rope, input, past, o, idx);
    }
}

/// Once tokens have been seen, a layer takes one token at a time.
pub proof fn law_one_token_at_a_time(
    layer: Absolute<Element>,
    seen: PositionalCache,
    seen_after: PositionalCache,
    input: Tensor<Element>,
    r: Result<Tensor<Element>, Error>,
)
    requires
        layer.adds(seen, seen_after, input, r),
    ensures
        seen.initialized && input.unpadded_shape@[0] != 1 ==> r
            == Err::<Tensor<Element>, Error>(Error::WrongSequenceLength) && seen_after == seen,
        !seen.initialized || input.unpadded_shape@[0] == 1 ==> r is Ok,
{
}

/// Evaluations are joined as their residues are.
proof fn lemma_folded_cong(a: int, b: int, u: Seq<int>, v: Seq<int>, coords: Seq<int>, m: int)
    requires
        m > 1,
        cong(a, b, m),
        u.len() == v.len(),
        forall|i: int| 0 <= i < u.len() ==> cong(#[trigger] u[i], v[i], m),
    ensures
        cong(folded(a, u, coords), folded(b, v, coords), m),
    decreases u.len(),
{
    if u.len() > 0 {
        let (x, y) = (u.drop_last(), v.drop_last());
        let c = coords[u.len() - 1];
        lemma_folded_cong(a, b, x, y, coords, m);
        let (s, t) = (folded(a, x, coords), folded(b, y, coords));
        lemma_cong_times(s, t, 1 - c, 1 - c, m);
        assert(cong(u[u.len() - 1], v[u.len() - 1], m));
        lemma_cong_times(u.last(), v.last(), c, c, m);
        lemma_cong_plus(s * (1 - c), t * (1 - c), u.last() * c, v.last() * c, m);
    }
}

/// A claim that holds of the first part of a positional matrix is bound to a claim that
/// holds of the matrix.
pub proof fn law_bound_claim_holds<F: PrimeField>(
    matrix: Tensor<Element>,
    sub: Claim<F>,
    extra: Seq<F>,
    evals: Seq<F>,
    r: Claim<F>,
)
    requires
        matrix.data@.len() == pow2(sub.point@.len() + extra.len()),
        stands_for(
            sub.eval,
            mle(
                element_ints(matrix.data@).take(pow2(sub.point@.len()) as int),
                residues(sub.point@),
            ),
        ),
        evals.len() == extra.len(),
        is_part_evals(matrix, sub.point@ + extra, sub.point@.len(), evals),
        is_matrix_claim(sub, extra, evals, r),
    ensures
        r.point@ == sub.point@ + extra,
        stands_for(r.eval, mle(element_ints(matrix.data@), residues(r.point@))),
{
    let m = F::modulus();
    let t = element_ints(matrix.data@);
    let (s, x) = (residues(sub.point@), residues(extra));
    let point = sub.point@ + extra;
    assert(residues(point) =~= s + x);
    assert(point.skip(point.len() - evals.len()) =~= extra);
    let v = Seq::new(
        evals.len(),
        |i: int| mle(doubling(t, (s.len() + i) as nat), (s + x).take(s.len() + i)),
    );
    assert forall|i: int| 0 <= i < evals.len() implies cong(#[trigger] residues(evals)[i], v[i], m) by {
        assert(residues(point.take(s.len() + i)) =~= (s + x).take(s.len() + i));
        assert(stands_for(evals[i], v[i]));
        lemma_residue_cong(evals[i], v[i]);
    }
    law_folded(t, s, x, v);
    let first = mle(t.take(pow2(s.len()) as int), s);
    lemma_residue_cong(sub.eval, first);
    lemma_folded_cong(sub.eval.residue(), first, residues(evals), v, x, m);
}

/// The claim on what is committed to of a matrix of angles holds of it, where the
/// evaluation of its first rows and those of its further parts do.
pub proof fn law_committed_claim_holds<F: PrimeField>(
    layout: RopeLayout,
    matrix: Tensor<Element>,
    row_vars: nat,
    point: Seq<F>,
    eval: F,
    extra: Seq<F>,
    sub_evals: Seq<F>,
    r: Claim<F>,
)
    requires
        matrix.data@.len() == pow2(point.len() + extra.len()),
        stands_for(
            eval,
            mle(element_ints(matrix.data@).take(pow2(point.len()) as int), residues(point)),
        ),
        sub_evals.len() == extra.len(),
        is_part_evals(matrix, point + extra, point.len(), sub_evals),
        is_committed_claim(layout, row_vars as int, point, eval, extra, sub_evals, r),
        1 <= row_vars <= point.len() + extra.len(),
        ({
            let k = layout.block_vars(row_vars as int) as nat;
            paired(
                element_ints(matrix.data@),
                pow2((point.len() + extra.len() - k) as nat),
                pow2((k - 1) as nat),
            )
        }),
    ensures
        stands_for(
            r.eval,
            mle(
                element_ints(kept_half(layout, matrix.data@, pow2(row_vars) as int)),
                residues(r.point@),
            ),
        ),
{
    let (sub, whole) = choose|sub: Claim<F>, whole: Claim<F>|
        {
            &&& sub.point@ == point
            &&& sub.eval == eval
            &&& #[trigger] is_matrix_claim(sub, extra, sub_evals, whole)
            &&& is_half_claim(layout, row_vars as int, whole, r)
        };
    law_bound_claim_holds(matrix, sub, extra, sub_evals, whole);
    let p = residues(whole.point@);
    law_committed_half(layout, matrix.data@, row_vars, p);
    assert(residues(r.point@) =~= p.remove(layout.block_vars(row_vars as int) - 1));
}

/// The sumcheck on added rows sums to the extension of the rows that are added: over its
/// tables, to those of the matrix, with zeros in place of the padding.
pub proof fn law_added_sum<F: PrimeField>(
    data: Seq<Element>,
    d: Seq<usize>,
    u: Seq<usize>,
    row: Seq<int>,
    col: Seq<int>,
    s: AbsoluteSumcheck<F>,
    masked: Seq<int>,
)
    requires
        F::modulus() > 1,
        is_absolute_sumcheck(data, d, u, row, col, s),
        d.len() == 2,
        d[0] == pow2(col.len()),
        d[1] == pow2(row.len()),
        u.len() == 2,
        u[1] <= d[1],
        forall|i: int, j: int|
            0 <= i < pow2(col.len()) && 0 <= j < pow2(row.len()) ==> #[trigger] masked[i * pow2(
                row.len(),
            ) + j] == if i < u[0] && j < u[1] {
                element_ints(data)[i * pow2(row.len()) + j]
            } else {
                0
            },
    ensures
        cong(
            sum(
                d[0] as nat,
                |i: int|
                    s.fixed_positional@[i].residue() * s.lt@[i].residue()
                        * s.column_eq@[i].residue(),
            ),
            mle(masked, row + col),
            F::modulus(),
        ),
{
    let m = F::modulus();
    let t = element_ints(data);
    let n = u[0] as int;
    let used = u[1] as nat;
    let given = |i: int|
        s.fixed_positional@[i].residue() * s.lt@[i].residue() * s.column_eq@[i].residue();
    let goal = |i: int|
        row_sum(t, pow2(row.len()) as int, used, row, i) * (if i < n {
            1int
        } else {
            0
        }) * beta(col, i);
    assert forall|i: int| 0 <= i < d[0] implies cong(#[trigger] given(i), goal(i), m) by {
        let (a, b, c) = (s.fixed_positional@[i], s.lt@[i], s.column_eq@[i]);
        let x = row_sum(t, d[1] as int, used, row, i);
        let y = if i < n {
            1int
        } else {
            0
        };
        lemma_residue_cong(a, x);
        lemma_residue_cong(b, y);
        assert(betas(col)[i] == beta(col, i));
        lemma_residue_cong(c, beta(col, i));
        lemma_cong_times(a.residue(), x, b.residue(), y, m);
        lemma_cong_times(a.residue() * b.residue(), x * y, c.residue(), beta(col, i), m);
    }
    lemma_cong_sum(d[0] as nat, given, goal, m);
    law_added_rows(t, masked, used, n, row, col);
    lemma_sum_same(
        d[0] as nat,
        goal,
        |i: int|
            row_sum(t, pow2(row.len()) as int, used, row, i) * (if i < n {
                1int
            } else {
                0
            }) * beta(col, i),
    );
}

/// The claim on the matrix that the verifier of added rows derives holds of the matrix,
/// where the sumcheck ended on the prover's tables, and the first of them evaluates to the
/// first rows of the matrix.
pub proof fn law_rows_claim_holds<F: PrimeField>(
    matrix: Tensor<Element>,
    s: AbsoluteSumcheck<F>,
    claim_point: Seq<F>,
    row_vars: int,
    n: int,
    point: Seq<F>,
    ends: Seq<F>,
    expected: F,
    extra: Seq<F>,
    sub_evals: Seq<F>,
    r: Claim<F>,
)
    requires
        0 <= row_vars <= claim_point.len(),
        point.len() == claim_point.len() - row_vars,
        0 < n <= pow2(point.len()),
        matrix.data@.len() == pow2(claim_point.len() + extra.len()),
        s.lt@.len() == pow2(point.len()),
        forall|i: int|
            0 <= i < s.lt@.len() ==> stands_for(
                #[trigger] s.lt@[i],
                if i < n {
                    1
                } else {
                    0
                },
            ),
        all_stand_for(s.column_eq@, betas(residues(claim_point.skip(row_vars)))),
        ends.len() == 3,
        stands_for(
            ends[0],
            mle(
                element_ints(matrix.data@).take(pow2(claim_point.len()) as int),
                residues(claim_point.take(row_vars) + point),
            ),
        ),
        stands_for(ends[1], mle(residues(s.lt@), residues(point))),
        stands_for(ends[2], mle(residues(s.column_eq@), residues(point))),
        stands_for(expected, ends[0].residue() * ends[1].residue() * ends[2].residue()),
        sub_evals.len() == extra.len(),
        is_part_evals(
            matrix,
            claim_point.take(row_vars) + point + extra,
            claim_point.len(),
            sub_evals,
        ),
        follows_from_quotient(
            claim_point.take(row_vars) + point,
            expected.residue(),
            AbsoluteCtx::multiplier(claim_point, point, row_vars, n),
            extra,
            sub_evals,
            r,
        ),
    ensures
        r.point@ == claim_point.take(row_vars) + point + extra,
        stands_for(r.eval, mle(element_ints(matrix.data@), residues(r.point@))),
{
    let first = claim_point.take(row_vars) + point;
    let factor = AbsoluteCtx::multiplier(claim_point, point, row_vars, n);
    let eval = choose|eval: F|
        is_quotient(eval, expected.residue(), factor) && #[trigger] follows_from(
            first,
            eval,
            extra,
            sub_evals,
            r,
        );
    let sub = choose|sub: Claim<F>|
        sub.point@ == first && sub.eval == eval && #[trigger] is_matrix_claim(
            sub,
            extra,
            sub_evals,
            r,
        );
    law_honest_rows_found(s, claim_point, row_vars, n, point, ends, expected, eval);
    law_bound_claim_holds(matrix, sub, extra, sub_evals, r);
}

/// The claim on a learned matrix that a step leaves holds of the matrix, where the claim
/// that the addition left holds of its first rows; the claim on the input is the one that
/// the addition left.
pub proof fn law_learned_claim_holds<F: PrimeField>(
    matrix: Tensor<Element>,
    rows: usize,
    add_claims: Seq<Claim<F>>,
    extra: Seq<F>,
    s: LearnedStep<F>,
)
    requires
        is_learned_step(matrix, rows, add_claims, extra, s),
        matrix.data@.len() == pow2(add_claims[1].point@.len() + extra.len()),
        stands_for(
            add_claims[1].eval,
            mle(
                element_ints(matrix.data@).take(pow2(add_claims[1].point@.len()) as int),
                residues(add_claims[1].point@),
            ),
        ),
    ensures
        add_claims.len() == 2,
        rows * pow2(extra.len()) == matrix.shape@[0],
        s.input_claim.point@ == add_claims[0].point@,
        s.input_claim.eval == add_claims[0].eval,
        s.positional_claim.point@ == add_claims[1].point@ + extra,
        stands_for(
            s.positional_claim.eval,
            mle(element_ints(matrix.data@), residues(s.positional_claim.point@)),
        ),
{
    law_bound_claim_holds(
        matrix,
        add_claims[1],
        extra,
        s.sub_matrix_evals@,
        s.positional_claim,
    );
}

/// The verifier of added rows accepts what an honest prover shows, where the factor of the
/// rows has an inverse, and is left with a claim on the matrix that holds of it and with
/// the claim on the input that the addition left.
pub proof fn law_honest_absolute_verified<F: PrimeField, P, A>(
    matrix: Tensor<Element>,
    s: AbsoluteSumcheck<F>,
    proof: AbsoluteProof<F, P, A>,
    add_claims: Seq<Claim<F>>,
    subclaim: SubClaim<F>,
    d: Seq<usize>,
    u: Seq<usize>,
    ends: Seq<F>,
    extra: Seq<F>,
    r: Result<(Claim<F>, Claim<F>), Error>,
)
    requires
        add_claims.len() == 2,
        ({
            let v = log2_ceil(d[1] as nat) as int;
            let claim_point = add_claims[1].point@;
            let point = subclaim.point@;
            let n = u[0] as int;
            let factor = AbsoluteCtx::multiplier(claim_point, point, v, n);
            &&& v <= claim_point.len()
            &&& point.len() == claim_point.len() - v
            &&& 0 < n <= pow2(point.len())
            &&& matrix.data@.len() == pow2(claim_point.len() + extra.len())
            &&& s.lt@.len() == pow2(point.len())
            &&& forall|i: int|
                0 <= i < s.lt@.len() ==> stands_for(
                    #[trigger] s.lt@[i],
                    if i < n {
                        1
                    } else {
                        0
                    },
                )
            &&& all_stand_for(s.column_eq@, betas(residues(claim_point.skip(v))))
            &&& ends.len() == 3
            &&& stands_for(
                ends[0],
                mle(
                    element_ints(matrix.data@).take(pow2(claim_point.len()) as int),
                    residues(claim_point.take(v) + point),
                ),
            )
            &&& stands_for(ends[1], mle(residues(s.lt@), residues(point)))
            &&& stands_for(ends[2], mle(residues(s.column_eq@), residues(point)))
            &&& stands_for(
                subclaim.expected_evaluation,
                ends[0].residue() * ends[1].residue() * ends[2].residue(),
            )
            &&& proof.sub_matrix_evals@.len() == extra.len()
            &&& is_part_evals(
                matrix,
                claim_point.take(v) + point + extra,
                claim_point.len(),
                proof.sub_matrix_evals@,
            )
            &&& invertible(factor % F::modulus(), F::modulus())
        }),
        AbsoluteCtx::decides(proof, add_claims, subclaim, d, u, extra, r),
    ensures
        match r {
            Ok((input, positional)) => {
                &&& input == add_claims[0]
                &&& stands_for(
                    positional.eval,
                    mle(element_ints(matrix.data@), residues(positional.point@)),
                )
            },
            Err(_) => false,
        },
{
    let v = log2_ceil(d[1] as nat) as int;
    if let Ok((input, positional)) = r {
        law_rows_claim_holds(
            matrix,
            s,
            add_claims[1].point@,
            v,
            u[0] as int,
            subclaim.point@,
            ends,
            subclaim.expected_evaluation,
            extra,
            proof.sub_matrix_evals@,
            positional,
        );
    }
}

/// A padded matrix holds the values of the matrix in their rows and columns, and zeros
/// beside them.
pub proof fn law_padded_values(t: KeyedTensor<Element>, r: KeyedTensor<Element>, idx: Seq<int>)
    requires
        is_padded_from(t, r),
        in_bounds(r.tensor.shape@, idx),
    ensures
        r.key == t.key,
        r.tensor.at(idx) == if in_bounds(t.tensor.shape@, idx) {
            t.tensor.at(idx)
        } else {
            0
        },
{
    lemma_flat(r.tensor.shape@, idx);
}

/// A padded matrix has as many values as its variables tell apart.
pub proof fn law_matrix_vars(d: Seq<usize>)
    requires
        d.len() == 2,
    ensures
        matrix_num_vars(d) == num_vars(d),
        pow2(matrix_num_vars(d)) == next_pow2(d[0] as nat) * next_pow2(d[1] as nat),
{
    assert(d.drop_last() =~= seq![d[0]]);
    assert(d.drop_last().drop_last() =~= Seq::<usize>::empty());
    assert(num_vars(Seq::<usize>::empty()) == 0);
    assert(num_vars(d.drop_last()) == num_vars(d.drop_last().drop_last()) + log2_ceil(
        d.drop_last().last() as nat,
    ));
    lemma_pow2_adds(log2_ceil(d[0] as nat), log2_ceil(d[1] as nat));
}

} // verus!
