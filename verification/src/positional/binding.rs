//! Claims on part of a positional matrix, bound to the matrix as a whole.
use vstd::prelude::*;
use vstd::arithmetic::power2::{lemma_pow2_adds, lemma_pow2_strictly_increases, pow2};
use crate::claim::{joined, part, Claim};
use crate::congruence::{lemma_mle_cong, lemma_stands_cong};
use crate::error::Error;
use crate::field::{all_stand_for, residues, stands_for, Lifted, PrimeField};
use crate::linear::is_matrix;
use crate::logits::witness::{element_ints, to_field};
use crate::mle::{lemma_halves, lemma_mle_high, lemma_pow2_unfold_zero, mle, mle_evaluate};
use crate::shape::{lemma_numel_matrix, log2_ceil};
use crate::tensor::{Element, Tensor};

verus! {

/// An evaluation, joined with the evaluations of further parts, coordinate by
/// coordinate.
pub open spec fn folded(start: int, evals: Seq<int>, coords: Seq<int>) -> int
    decreases evals.len(),
{
    if evals.len() == 0 {
        start
    } else {
        let c = coords[evals.len() - 1];
        folded(start, evals.drop_last(), coords) * (1 - c) + evals.last() * c
    }
}

/// The claim on a positional matrix at a point, for the evaluation of its first part
/// and those of the further parts. The last coordinates of the point join the parts.
pub fn compute_positional_matrix_claim<F: PrimeField>(
    evaluation_point: Vec<F>,
    sub_pos_eval: F,
    sub_matrix_evals: &[F],
) -> (r: Claim<F>)
    requires
        sub_matrix_evals@.len() <= evaluation_point@.len(),
    ensures
        r.point@ == evaluation_point@,
        stands_for(
            r.eval,
            folded(
                sub_pos_eval.residue(),
                residues(sub_matrix_evals@),
                residues(evaluation_point@.skip(evaluation_point@.len() - sub_matrix_evals@.len())),
            ),
        ),
{
    let start: usize = evaluation_point.len() - sub_matrix_evals.len();
    let ghost coords = residues(evaluation_point@.skip(start as int));
    let ghost evals = residues(sub_matrix_evals@);
    let mut acc = Lifted::of(sub_pos_eval);
    assert(evals.take(0) =~= Seq::<int>::empty());
    for i in 0..sub_matrix_evals.len()
        invariant
            start + sub_matrix_evals@.len() == evaluation_point@.len(),
            coords == residues(evaluation_point@.skip(start as int)),
            evals == residues(sub_matrix_evals@),
            acc@ == folded(sub_pos_eval.residue(), evals.take(i as int), coords),
    {
        assert(evaluation_point.len() <= usize::MAX);
        let c = evaluation_point[start + i];
        let e = sub_matrix_evals[i];
        let kept = acc.times(Lifted::<F>::one().minus(Lifted::of(c)));
        acc = kept.plus(Lifted::of(e).times(Lifted::of(c)));
        proof {
            assert(evals.take(i + 1).drop_last() =~= evals.take(i as int));
            assert(evals.take(i + 1).last() == e.residue());
            assert(coords[i as int] == c.residue());
        }
    }
    assert(evals.take(evals.len() as int) =~= evals);
    Claim::new(evaluation_point, acc.get())
}

/// How many coordinates have to be drawn to fill a claim on the first part of a
/// positional matrix up to the variables of the matrix. A part with more variables than
/// the matrix is refused.
pub fn missing_coordinates(num_vars_full_matrix: usize, sub_pos_vars: usize) -> (r: Result<
    usize,
    Error,
>)
    ensures
        match r {
            Ok(n) => sub_pos_vars + n == num_vars_full_matrix,
            Err(e) => e == Error::InvalidShape && sub_pos_vars > num_vars_full_matrix,
        },
{
    if sub_pos_vars > num_vars_full_matrix {
        return Err(Error::InvalidShape);
    }
    Ok(num_vars_full_matrix - sub_pos_vars)
}

/// The claim on a positional matrix that a claim on its first part gives, with the
/// coordinates that were drawn and the evaluations of the further parts.
pub fn build_positional_matrix_claim<F: PrimeField>(
    sub_claim: &Claim<F>,
    extra_coordinates: &[F],
    sub_matrix_evals: &[F],
) -> (r: Claim<F>)
    requires
        sub_matrix_evals@.len() <= sub_claim.point@.len() + extra_coordinates@.len(),
    ensures
        is_matrix_claim(*sub_claim, extra_coordinates@, sub_matrix_evals@, r),
{
    let evaluation_point = joined(sub_claim.point.as_slice(), extra_coordinates);
    compute_positional_matrix_claim(evaluation_point, sub_claim.eval, sub_matrix_evals)
}

/// The claim `r` on a positional matrix follows from a claim on its first part.
pub open spec fn is_matrix_claim<F: PrimeField>(
    sub_claim: Claim<F>,
    extra: Seq<F>,
    sub_matrix_evals: Seq<F>,
    r: Claim<F>,
) -> bool {
    let point = sub_claim.point@ + extra;
    &&& r.point@ == point
    &&& stands_for(
        r.eval,
        folded(
            sub_claim.eval.residue(),
            residues(sub_matrix_evals),
            residues(point.skip(point.len() - sub_matrix_evals.len())),
        ),
    )
}

/// The part of a table from `2^k` up to `2^(k + 1)`.
pub open spec fn doubling(t: Seq<int>, k: nat) -> Seq<int> {
    t.subrange(pow2(k) as int, pow2(k + 1) as int)
}

/// The evaluations of the further parts of a positional matrix, each as large as all
/// before it, at the joined point.
pub open spec fn is_part_evals<F: PrimeField>(
    matrix: Tensor<Element>,
    point: Seq<F>,
    sub_vars: nat,
    evals: Seq<F>,
) -> bool {
    forall|i: int|
        0 <= i < evals.len() ==> stands_for(
            #[trigger] evals[i],
            mle(
                doubling(element_ints(matrix.data@), (sub_vars + i) as nat),
                residues(point.take(sub_vars + i)),
            ),
        )
}

/// The variables of a matrix.
pub open spec fn matrix_num_vars(d: Seq<usize>) -> nat {
    log2_ceil(d[0] as nat) + log2_ceil(d[1] as nat)
}

/// Binds a claim on the first rows of a positional matrix to the matrix: the
/// evaluations of its further parts and the claim on it. Rows that do not double up
/// to the rows of the matrix are refused.
pub fn bind_sub_claim_to_positional_matrix<F: PrimeField>(
    sub_matrix_claim: &Claim<F>,
    extra_coordinates: &[F],
    matrix: &Tensor<Element>,
    input_num_rows: usize,
) -> (r: Result<(Vec<F>, Claim<F>), Error>)
    requires
        is_matrix(*matrix),
        sub_matrix_claim.point@.len() + extra_coordinates@.len() == matrix_num_vars(matrix.shape@),
        input_num_rows * pow2(extra_coordinates@.len()) <= matrix.shape@[0],
        input_num_rows * matrix.shape@[1] == pow2(sub_matrix_claim.point@.len()),
    ensures
        match r {
            Ok((evals, claim)) => {
                let point = sub_matrix_claim.point@ + extra_coordinates@;
                &&& input_num_rows * pow2(extra_coordinates@.len()) == matrix.shape@[0]
                &&& evals@.len() == extra_coordinates@.len()
                &&& is_part_evals(*matrix, point, sub_matrix_claim.point@.len(), evals@)
                &&& is_matrix_claim(*sub_matrix_claim, extra_coordinates@, evals@, claim)
            },
            Err(e) => e == Error::InvalidShape && input_num_rows * pow2(extra_coordinates@.len())
                != matrix.shape@[0],
        },
{
    let diff_vars: usize = extra_coordinates.len();
    let sub_pos_vars: usize = sub_matrix_claim.point.len();
    let rows: usize = matrix.shape.dims[0];
    let cols: usize = matrix.shape.dims[1];
    let ghost n = sub_pos_vars as nat;
    let ghost t = element_ints(matrix.data@);
    proof {
        assert(matrix.shape@ =~= seq![rows, cols]);
        lemma_numel_matrix(rows, cols);
        lemma_pow2_unfold_zero();
        assert(input_num_rows * 1 == input_num_rows);
    }
    let point = joined(sub_matrix_claim.point.as_slice(), extra_coordinates);
    let values = to_field::<F>(&matrix.data);
    let mut slice_start: usize = input_num_rows;
    let mut evals: Vec<F> = Vec::new();
    for i in 0..diff_vars
        invariant
            rows == matrix.shape@[0],
            diff_vars == extra_coordinates@.len(),
            n == sub_pos_vars,
            n == sub_matrix_claim.point@.len(),
            t == element_ints(matrix.data@),
            matrix.data@.len() == rows * cols,
            all_stand_for(values@, t),
            point@ == sub_matrix_claim.point@ + extra_coordinates@,
            input_num_rows * pow2(diff_vars as nat) <= rows,
            input_num_rows * cols == pow2(n),
            slice_start == input_num_rows * pow2(i as nat),
            evals@.len() == i,
            is_part_evals(*matrix, point@, n, evals@),
    {
        let ghost k = (n + i) as nat;
        proof {
            let (a, c, p, q) = (
                input_num_rows as int,
                cols as int,
                pow2(i as nat) as int,
                pow2((i + 1) as nat) as int,
            );
            lemma_halves((i + 1) as nat);
            assert(a * q == 2 * (a * p)) by (nonlinear_arith)
                requires
                    q == 2 * p,
            ;
            if i + 1 < diff_vars {
                lemma_pow2_strictly_increases(
                    (i + 1) as nat,
                    diff_vars as nat,
                );
            }
            let all = pow2(diff_vars as nat) as int;
            assert(a * q <= a * all) by (nonlinear_arith)
                requires
                    q <= all,
                    0 <= a,
            ;
            assert((a * q) * c <= rows * c) by (nonlinear_arith)
                requires
                    a * q <= rows,
                    0 <= c,
            ;
            lemma_pow2_adds(n, i as nat);
            lemma_pow2_adds(n, (i + 1) as nat);
            assert((a * p) * c == (a * c) * p) by (nonlinear_arith);
            assert((a * q) * c == (a * c) * q) by (nonlinear_arith);
            assert((2 * (a * p)) * c == 2 * ((a * p) * c)) by (nonlinear_arith);
            assert(matrix.data.len() <= usize::MAX);
        }
        let from: usize = slice_start * cols;
        assert(from == pow2(k));
        let to: usize = (slice_start * 2) * cols;
        assert(to == pow2(k + 1));
        let slice = part(values.as_slice(), from, to);
        assert(point.len() <= usize::MAX);
        let sub_point = part(point.as_slice(), 0, sub_pos_vars + i);
        assert(sub_point@ =~= point@.take(n + i));
        proof {
            lemma_halves(k + 1);
        }
        let eval = mle_evaluate(slice.as_slice(), sub_point.as_slice());
        proof {
            let v = doubling(t, k);
            eval.residue_bounds();
            assert forall|j: int| 0 <= j < slice@.len() implies stands_for(
                #[trigger] slice@[j],
                v[j],
            ) by {
                assert(stands_for(values@[from + j], t[from + j]));
            }
            lemma_mle_cong(slice@, v, residues(sub_point@), F::modulus());
            lemma_stands_cong(
                eval,
                mle(residues(slice@), residues(sub_point@)),
                mle(v, residues(sub_point@)),
            );
        }
        evals.push(eval);
        slice_start = slice_start * 2;
    }
    if slice_start != rows {
        return Err(Error::InvalidShape);
    }
    let claim = compute_positional_matrix_claim(point, sub_matrix_claim.eval, evals.as_slice());
    Ok((evals, claim))
}

/// The evaluations of the parts of a table, joined coordinate by coordinate, give the
/// evaluation of the table: the claim on the matrix follows from the claim on its
/// first rows.
pub proof fn law_folded(t: Seq<int>, sub: Seq<int>, extra: Seq<int>, evals: Seq<int>)
    requires
        t.len() == pow2(sub.len() + extra.len()),
        evals.len() == extra.len(),
        forall|i: int|
            0 <= i < evals.len() ==> #[trigger] evals[i] == mle(
                doubling(t, (sub.len() + i) as nat),
                (sub + extra).take(sub.len() + i),
            ),
    ensures
        folded(mle(t.take(pow2(sub.len()) as int), sub), evals, extra) == mle(t, sub + extra),
    decreases extra.len(),
{
    let k = extra.len();
    let whole = sub + extra;
    if k == 0 {
        assert(whole =~= sub);
        assert(t.take(pow2(sub.len()) as int) =~= t);
    } else {
        let n = (sub.len() + k - 1) as nat;
        lemma_halves(n + 1);
        lemma_mle_high(t, whole);
        let half = t.take(pow2(n) as int);
        let shorter = extra.drop_last();
        let rest = evals.drop_last();
        assert(whole.drop_last() =~= sub + shorter);
        if sub.len() < n {
            lemma_pow2_strictly_increases(sub.len(), n);
        }
        assert(half.take(pow2(sub.len()) as int) =~= t.take(pow2(sub.len()) as int));
        assert forall|i: int| 0 <= i < rest.len() implies #[trigger] rest[i] == mle(
            doubling(half, (sub.len() + i) as nat),
            (sub + shorter).take(sub.len() + i),
        ) by {
            assert(evals[i] == rest[i]);
            let m = (sub.len() + i) as nat;
            lemma_halves(m + 1);
            if m + 1 < n {
                lemma_pow2_strictly_increases(m + 1, n);
            }
            assert(doubling(half, m) =~= doubling(t, m));
            assert((sub + shorter).take(sub.len() + i) =~= whole.take(sub.len() + i));
        }
        law_folded(half, sub, shorter, rest);
        lemma_folded_coords(mle(t.take(pow2(sub.len()) as int), sub), rest, shorter, extra);
        assert(evals[k - 1] == mle(doubling(t, n), whole.take(n as int)));
        assert(t.skip(pow2(n) as int) =~= doubling(t, n));
        assert(whole.take(n as int) =~= whole.drop_last());
        let c = extra[k - 1];
        assert(whole.last() == c);
        let (x, y) = (mle(half, whole.drop_last()), evals.last());
        assert(x * (1 - c) + y * c == (1 - c) * x + c * y) by (nonlinear_arith);
    }
}

/// Only the first coordinates, one for each evaluation, matter.
proof fn lemma_folded_coords(start: int, evals: Seq<int>, a: Seq<int>, b: Seq<int>)
    requires
        evals.len() <= a.len(),
        evals.len() <= b.len(),
        forall|i: int| 0 <= i < evals.len() ==> a[i] == b[i],
    ensures
        folded(start, evals, a) == folded(start, evals, b),
    decreases evals.len(),
{
    if evals.len() > 0 {
        lemma_folded_coords(start, evals.drop_last(), a, b);
    }
}

} // verus!
