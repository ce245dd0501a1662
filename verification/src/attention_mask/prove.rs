//! What the prover of an attention mask hands to its sumchecks, and what it makes
//! of their outcome.
use vstd::prelude::*;
use vstd::arithmetic::power2::{lemma_pow2_adds, lemma_pow2_pos, lemma_pow2_strictly_increases, pow2};
use vstd::arithmetic::div_mod::*;
use crate::attention_mask::{build_sumcheck_expression, input_offset, mask_summand, AttentionMask, AttentionMaskProof, AttentionSpan};
use crate::batching::{batching_challenges, dim_points, factors, point_residues};
use crate::claim::{joined, part, Claim};
use crate::error::Error;
use crate::expression::Expression;
use crate::field::{all_stand_for, residues, stands_for, Lifted, PrimeField};
use crate::mle::{beta, betas, compute_betas_eval, lemma_halves, lemma_pow2_unfold_zero};
use crate::shape::{ceil_log2, dim_point, flat, in_bounds, lemma_flat, lemma_log2_pow2, lemma_next_pow2, lemma_num_vars_skip, lemma_num_vars_split, lemma_numel_mono, lemma_unflat, log2_ceil, next_pow2, next_power_of_two, num_vars, numel, padded, power_of_two, unflat, Shape};
use crate::sum::sum;
use crate::tensor::{can_pad, copied, lemma_numel_prefix, Element, Tensor};
use crate::triangular::{lemma_onward_high, lemma_upto_high, lower_triangular, matrix_table, offset_matrix, onward, shift_column, upto};

verus! {

/// The lower triangular matrix with its rows (`fix_row`) or its columns fixed at
/// a point, as a function of the other index.
pub open spec fn fixed(fix_row: bool, p: Seq<int>, i: int) -> int {
    if fix_row {
        onward(p, i)
    } else {
        upto(p, i)
    }
}

/// Fixing one more coordinate, for the bit `b` of the index.
proof fn lemma_fixed_step(fix_row: bool, p: Seq<int>, k: int, i: int, b: int)
    requires
        0 <= k < p.len(),
        0 <= i < pow2(k as nat),
        b == 0 || b == 1,
    ensures
        fixed(fix_row, p.take(k + 1), i + b * pow2(k as nat)) == if fix_row {
            fixed(fix_row, p.take(k), i) * (1 - b - p[k] + 2 * b * p[k]) + (1 - b) * p[k]
        } else {
            fixed(fix_row, p.take(k), i) * (1 - p[k] - b + 2 * p[k] * b) + (1 - p[k]) * b
        },
        0 <= i + b * pow2(k as nat) < pow2((k + 1) as nat),
{
    let q = p.take(k + 1);
    let c = p[k];
    assert(q.drop_last() =~= p.take(k));
    lemma_halves((k + 1) as nat);
    let s = fixed(fix_row, p.take(k), i);
    if b == 0 {
        assert(0 * pow2(k as nat) == 0);
        lemma_upto_high(q, i);
        lemma_onward_high(q, i);
        assert(s * (1 - 0 - c + 2 * 0 * c) + (1 - 0) * c == s * (1 - c) + c) by (nonlinear_arith);
        assert(s * (1 - c - 0 + 2 * c * 0) + (1 - c) * 0 == s * (1 - c)) by (nonlinear_arith);
    } else {
        assert(1 * pow2(k as nat) == pow2(k as nat));
        lemma_upto_high(q, i + pow2(k as nat));
        lemma_onward_high(q, i + pow2(k as nat));
        assert(s * (1 - 1 - c + 2 * 1 * c) + (1 - 1) * c == s * c) by (nonlinear_arith);
        assert(s * (1 - c - 1 + 2 * c * 1) + (1 - c) * 1 == s * c + (1 - c)) by (nonlinear_arith);
    }
}

/// Fills in the entries whose lowest `num_bits` bits are those of `eval_index`.
fn fix_mle_rec<F: PrimeField, const FIX_ROW: bool>(
    evals: &mut Vec<F>,
    point: &[F],
    acc: Lifted<F>,
    eval_index: usize,
    num_bits: usize,
)
    requires
        num_bits <= point@.len(),
        old(evals)@.len() == pow2(point@.len()),
        eval_index < pow2(num_bits as nat),
        acc@ == fixed(FIX_ROW, residues(point@).take(num_bits as int), eval_index as int),
    ensures
        final(evals)@.len() == old(evals)@.len(),
        forall|i: int|
            0 <= i < final(evals)@.len() ==> if i % pow2(num_bits as nat) as int == eval_index {
                stands_for(#[trigger] final(evals)@[i], fixed(FIX_ROW, residues(point@), i))
            } else {
                final(evals)@[i] == old(evals)@[i]
            },
    decreases point@.len() - num_bits,
{
    let ghost p = residues(point@);
    if num_bits == point.len() {
        proof {
            assert(p.take(num_bits as int) =~= p);
        }
        let ghost before = evals@;
        evals.set(eval_index, acc.get());
        proof {
            assert forall|i: int| 0 <= i < evals@.len() implies if i % pow2(num_bits as nat) as int
                == eval_index {
                stands_for(#[trigger] evals@[i], fixed(FIX_ROW, p, i))
            } else {
                evals@[i] == before[i]
            } by {
                lemma_small_mod(i as nat, pow2(num_bits as nat));
            }
        }
        return;
    }
    let one = Lifted::<F>::one();
    let two = Lifted::<F>::of_u64(2);
    let c = Lifted::of(point[num_bits]);
    let ghost k = num_bits as int;
    proof {
        lemma_fixed_step(FIX_ROW, p, k, eval_index as int, 0);
        lemma_fixed_step(FIX_ROW, p, k, eval_index as int, 1);
        lemma_halves((num_bits + 1) as nat);
        if num_bits + 1 < point@.len() {
            lemma_pow2_strictly_increases((num_bits + 1) as nat, point@.len());
        }
        assert(evals.len() <= usize::MAX);
        assert(0 * pow2(num_bits as nat) == 0);
        assert(1 * pow2(num_bits as nat) == pow2(num_bits as nat));
    }
    let half = power_of_two(num_bits);
    let zero = Lifted::<F>::zero();
    let low = if FIX_ROW {
        acc.times(one.minus(zero).minus(c).plus(two.times(zero).times(c))).plus(
            one.minus(zero).times(c),
        )
    } else {
        acc.times(one.minus(c).minus(zero).plus(two.times(c).times(zero))).plus(
            one.minus(c).times(zero),
        )
    };
    let high = if FIX_ROW {
        acc.times(one.minus(one).minus(c).plus(two.times(one).times(c))).plus(
            one.minus(one).times(c),
        )
    } else {
        acc.times(one.minus(c).minus(one).plus(two.times(c).times(one))).plus(
            one.minus(c).times(one),
        )
    };
    let ghost before = evals@;
    fix_mle_rec::<F, FIX_ROW>(evals, point, low, eval_index, num_bits + 1);
    let ghost middle = evals@;
    fix_mle_rec::<F, FIX_ROW>(evals, point, high, eval_index + half, num_bits + 1);
    proof {
        let h = pow2(num_bits as nat) as int;
        let h2 = pow2((num_bits + 1) as nat) as int;
        let e = eval_index as int;
        assert forall|i: int| 0 <= i < evals@.len() implies if i % h == e {
            stands_for(#[trigger] evals@[i], fixed(FIX_ROW, p, i))
        } else {
            evals@[i] == before[i]
        } by {
            let m = i % h2;
            lemma_mod_mod(i, h, 2);
            assert(h * 2 == h2);
            assert(m % h == i % h);
            if m < h {
                lemma_small_mod(m as nat, h as nat);
            } else {
                lemma_fundamental_div_mod_converse(m, h, 1, m - h);
            }
            assert(stands_for(middle[i], fixed(FIX_ROW, p, i)) || m != e);
        }
    }
}

/// The lower triangular matrix with its rows fixed at a point, by column.
pub fn fix_lower_mle_rows<F: PrimeField>(row_point: &[F]) -> (r: Vec<F>)
    requires
        pow2(row_point@.len()) <= usize::MAX,
    ensures
        r@.len() == pow2(row_point@.len()),
        forall|i: int|
            0 <= i < r@.len() ==> stands_for(#[trigger] r@[i], onward(residues(row_point@), i)),
{
    let mut evals = zeros::<F>(row_point.len());
    proof {
        lemma_pow2_unfold_zero();
        lemma_fixed_start(residues(row_point@));
    }
    fix_mle_rec::<F, true>(&mut evals, row_point, Lifted::one(), 0, 0);
    proof {
        assert forall|i: int| 0 <= i < evals@.len() implies stands_for(
            #[trigger] evals@[i],
            onward(residues(row_point@), i),
        ) by {
            assert(i % 1 == 0);
        }
    }
    evals
}

/// The lower triangular matrix with its columns fixed at a point, by row.
pub fn fix_lower_mle_columns<F: PrimeField>(column_point: &[F]) -> (r: Vec<F>)
    requires
        pow2(column_point@.len()) <= usize::MAX,
    ensures
        r@.len() == pow2(column_point@.len()),
        forall|i: int|
            0 <= i < r@.len() ==> stands_for(#[trigger] r@[i], upto(residues(column_point@), i)),
{
    let mut evals = zeros::<F>(column_point.len());
    proof {
        lemma_pow2_unfold_zero();
        lemma_fixed_start(residues(column_point@));
    }
    fix_mle_rec::<F, false>(&mut evals, column_point, Lifted::one(), 0, 0);
    proof {
        assert forall|i: int| 0 <= i < evals@.len() implies stands_for(
            #[trigger] evals@[i],
            upto(residues(column_point@), i),
        ) by {
            assert(i % 1 == 0);
        }
    }
    evals
}

proof fn lemma_fixed_start(p: Seq<int>)
    ensures
        fixed(true, p.take(0), 0) == 1,
        fixed(false, p.take(0), 0) == 1,
{
    lemma_pow2_unfold_zero();
    reveal_with_fuel(sum, 2);
    let q = p.take(0);
    assert(beta(q, 0) == 1);
    let f = |j: int| beta(q, j);
    assert(sum(1, f) == f(0));
    let g = |j: int| beta(q, 0 + j);
    assert(sum(1, g) == g(0));
}

/// A table of zeros in `n` variables.
pub fn zeros<F: PrimeField>(n: usize) -> (r: Vec<F>)
    requires
        pow2(n as nat) <= usize::MAX,
    ensures
        r@.len() == pow2(n as nat),
        forall|i: int| 0 <= i < r@.len() ==> (#[trigger] r@[i]).residue() == 0,
{
    let size = power_of_two(n);
    let mut r: Vec<F> = Vec::new();
    for i in 0..size
        invariant
            r@.len() == i,
            forall|j: int| 0 <= j < i ==> (#[trigger] r@[j]).residue() == 0,
    {
        r.push(F::zero());
    }
    r
}

/// Whether a mask needs a second matrix besides the lower triangular one.
pub open spec fn decomposed(span: AttentionSpan, seq_len: int) -> bool {
    span matches AttentionSpan::Local(n) && n < seq_len
}

/// The window of a local span.
pub open spec fn window(span: AttentionSpan) -> int {
    match span {
        AttentionSpan::Full => 0,
        AttentionSpan::Local(n) => n as int,
    }
}

/// The lower triangular matrix of side `n`.
fn lower_table<F: PrimeField>(n: usize) -> (r: Vec<F>)
    requires
        n * n <= usize::MAX,
    ensures
        all_stand_for(r@, matrix_table(|i: int, j: int| lower_triangular(i, j), n as nat)),
{
    let ghost t = matrix_table(|i: int, j: int| lower_triangular(i, j), n as nat);
    let mut r: Vec<F> = Vec::new();
    for p in 0..n * n
        invariant
            n * n <= usize::MAX,
            t == matrix_table(|i: int, j: int| lower_triangular(i, j), n as nat),
            r@.len() == p,
            forall|k: int| 0 <= k < p ==> stands_for(#[trigger] r@[k], t[k]),
    {
        proof {
            assert(n > 0) by (nonlinear_arith)
                requires
                    0 <= p < n * n,
            ;
        }
        let x = if p % n <= p / n {
            Lifted::<F>::one()
        } else {
            Lifted::<F>::zero()
        };
        r.push(x.get());
    }
    r
}

/// The matrix of side `n` that is one where the row is at most `width` above the
/// column.
fn offset_table<F: PrimeField>(width: usize, n: usize) -> (r: Vec<F>)
    requires
        n * n <= usize::MAX,
    ensures
        all_stand_for(
            r@,
            matrix_table(|i: int, j: int| offset_matrix(width as int, i, j), n as nat),
        ),
{
    let ghost t = matrix_table(|i: int, j: int| offset_matrix(width as int, i, j), n as nat);
    let mut r: Vec<F> = Vec::new();
    for p in 0..n * n
        invariant
            n * n <= usize::MAX,
            t == matrix_table(|i: int, j: int| offset_matrix(width as int, i, j), n as nat),
            r@.len() == p,
            forall|k: int| 0 <= k < p ==> stands_for(#[trigger] r@[k], t[k]),
    {
        proof {
            assert(n > 0) by (nonlinear_arith)
                requires
                    0 <= p < n * n,
            ;
        }
        let row: usize = p / n;
        let col: usize = p % n;
        let x = if row < col || row - col <= width {
            Lifted::<F>::one()
        } else {
            Lifted::<F>::zero()
        };
        r.push(x.get());
    }
    r
}

/// The matrix of side `p` that is one in the first `n` columns.
pub open spec fn column_bound(n: int, j: int) -> int {
    if j < n {
        1
    } else {
        0
    }
}

/// The tables of a mask sumcheck, the expressions in them and the challenges
/// that batch the expressions.
#[derive(Debug)]
pub struct MaskSumcheck<F> {
    pub num_vars: usize,
    pub tables: Vec<Vec<F>>,
    pub expressions: Vec<Expression<F>>,
    pub challenges: Vec<F>,
}

impl<N> AttentionMask<N> {
    /// Whether the mask of matrices of the given side is the product of two tables.
    pub fn is_decomposed(&self, seq_len: usize) -> (r: bool)
        ensures
            r == decomposed(self.span, seq_len as int),
    {
        match self.span {
            AttentionSpan::Full => false,
            AttentionSpan::Local(n) => n < seq_len,
        }
    }

    /// The tables of the mask. The entries that the mask keeps are those where
    /// all tables are one: the lower triangular matrix and, for a local span that
    /// is smaller than the matrix, the matrix of the entries inside its window.
    pub fn make_mask_polys<F: PrimeField>(&self, seq_len: usize) -> (r: Vec<Vec<F>>)
        requires
            seq_len * seq_len <= usize::MAX,
        ensures
            r@.len() == if decomposed(self.span, seq_len as int) {
                2int
            } else {
                1int
            },
            all_stand_for(
                r@[0]@,
                matrix_table(|i: int, j: int| lower_triangular(i, j), seq_len as nat),
            ),
            decomposed(self.span, seq_len as int) ==> all_stand_for(
                r@[1]@,
                matrix_table(
                    |i: int, j: int| offset_matrix(window(self.span), i, j),
                    seq_len as nat,
                ),
            ),
    {
        let mut r: Vec<Vec<F>> = Vec::new();
        r.push(lower_table(seq_len));
        if let AttentionSpan::Local(n) = self.span {
            if n < seq_len {
                r.push(offset_table(n, seq_len));
            }
        }
        r
    }

    /// The tables that are one inside the first `unpadded_seq_len` columns, and
    /// inside the first `unpadded_seq_len` rows, of the padded matrix.
    pub fn make_row_column_lt_polys<F: PrimeField>(&self, unpadded_seq_len: usize) -> (r: (
        Vec<F>,
        Vec<F>,
    ))
        requires
            next_pow2(unpadded_seq_len as nat) * next_pow2(unpadded_seq_len as nat) <= usize::MAX,
        ensures
            all_stand_for(
                r.0@,
                matrix_table(
                    |i: int, j: int| column_bound(unpadded_seq_len as int, j),
                    next_pow2(unpadded_seq_len as nat),
                ),
            ),
            all_stand_for(
                r.1@,
                matrix_table(
                    |i: int, j: int| column_bound(unpadded_seq_len as int, i),
                    next_pow2(unpadded_seq_len as nat),
                ),
            ),
    {
        let ghost side = next_pow2(unpadded_seq_len as nat);
        proof {
            lemma_pow2_pos(log2_ceil(unpadded_seq_len as nat));
            assert(side <= side * side) by (nonlinear_arith)
                requires
                    side >= 1,
            ;
        }
        let n = next_power_of_two(unpadded_seq_len);
        let ghost rt = matrix_table(
            |i: int, j: int| column_bound(unpadded_seq_len as int, j),
            n as nat,
        );
        let ghost ct = matrix_table(
            |i: int, j: int| column_bound(unpadded_seq_len as int, i),
            n as nat,
        );
        let mut rows: Vec<F> = Vec::new();
        let mut columns: Vec<F> = Vec::new();
        for p in 0..n * n
            invariant
                n * n <= usize::MAX,
                rt == matrix_table(
                    |i: int, j: int| column_bound(unpadded_seq_len as int, j),
                    n as nat,
                ),
                ct == matrix_table(
                    |i: int, j: int| column_bound(unpadded_seq_len as int, i),
                    n as nat,
                ),
                rows@.len() == p,
                columns@.len() == p,
                forall|k: int| 0 <= k < p ==> stands_for(#[trigger] rows@[k], rt[k]),
                forall|k: int| 0 <= k < p ==> stands_for(#[trigger] columns@[k], ct[k]),
        {
            proof {
                assert(n > 0) by (nonlinear_arith)
                    requires
                        0 <= p < n * n,
                ;
            }
            let x = if p % n < unpadded_seq_len {
                Lifted::<F>::one()
            } else {
                Lifted::<F>::zero()
            };
            rows.push(x.get());
            let y = if p / n < unpadded_seq_len {
                Lifted::<F>::one()
            } else {
                Lifted::<F>::zero()
            };
            columns.push(y.get());
        }
        (rows, columns)
    }
}

/// What the prover of a mask needs besides the mask: the matrices of the input,
/// without those that are padding, and the factors that batch them.
#[derive(Debug)]
pub struct MaskProvingData<F> {
    /// The factors of the matrices that are not padding.
    pub batching_challenges: Vec<F>,
    /// The coordinates that the factors come from.
    pub batching_point: Vec<F>,
    /// The factors of the places of a matrix.
    pub eq_evals: Vec<F>,
    /// The matrices of the input that are not padding, each padded.
    pub input_polys: Vec<Vec<F>>,
    pub input_shape: Shape,
}

/// The number of variables of the last two dimensions.
pub open spec fn matrix_vars(d: Seq<usize>) -> nat {
    log2_ceil(d[d.len() - 1] as nat) + log2_ceil(d[d.len() - 2] as nat)
}

/// The dimensions before the last two.
pub open spec fn batch_dims(d: Seq<usize>) -> Seq<usize> {
    d.take(d.len() - 2)
}

/// The place `p` of the `k`-th matrix of a tensor, padded with zeros.
pub open spec fn matrix_entry<F: PrimeField>(input: Tensor<F>, k: int, p: int) -> int {
    let u = input.unpadded_shape@;
    let width = next_pow2(u.last() as nat) as int;
    let i = p / width;
    let j = p % width;
    if i < u[u.len() - 2] && j < u.last() {
        input.at(unflat(batch_dims(u), k).push(i).push(j)).residue()
    } else {
        0
    }
}

/// The dimensions of a tensor before its last two are padded far enough to hold the
/// unpadded ones, and the sizes fit into memory.
pub open spec fn can_split(d: Seq<usize>, u: Seq<usize>) -> bool {
    &&& d.len() >= 2
    &&& u.len() == d.len()
    &&& forall|k: int|
        0 <= k < d.len() - 2 ==> #[trigger] u[k] <= pow2(log2_ceil(d[k] as nat)) && pow2(
            log2_ceil(d[k] as nat),
        ) <= usize::MAX
    &&& forall|k: int|
        0 <= k <= d.len() - 2 ==> #[trigger] numel(batch_dims(u).take(k)) <= usize::MAX
}

/// The dimensions of a padded tensor can be split.
pub proof fn lemma_can_split(u: Seq<usize>)
    requires
        u.len() >= 2,
        can_pad(u),
        forall|k: int| 0 <= k < u.len() ==> #[trigger] u[k] > 0,
    ensures
        can_split(padded(u), u),
{
    let d = padded(u);
    assert forall|k: int| 0 <= k < d.len() - 2 implies #[trigger] u[k] <= pow2(
        log2_ceil(d[k] as nat),
    ) && pow2(log2_ceil(d[k] as nat)) <= usize::MAX by {
        lemma_padded_dim(u, k);
    }
    assert forall|k: int| 0 <= k <= d.len() - 2 implies #[trigger] numel(batch_dims(u).take(k))
        <= usize::MAX by {
        assert(batch_dims(u).take(k) =~= u.take(k));
        lemma_numel_prefix(u, k);
        lemma_padded_larger(u);
        lemma_numel_mono(u, padded(u));
    }
}

/// A claim on the output of a mask, split into the factors of the matrices that
/// are not padding, the coordinates that these come from and the coordinates of
/// the places of a matrix.
pub(crate) fn split_claim<F: PrimeField>(
    claim: &Claim<F>,
    input_shape: &Shape,
    unpadded_input_shape: &Shape,
) -> (r: Result<(Vec<F>, Vec<F>, Vec<F>), Error>)
    requires
        can_split(input_shape@, unpadded_input_shape@),
    ensures
        r is Ok <==> claim.point@.len() == num_vars(input_shape@),
        match r {
            Ok((challenges, batching_point, eq_point)) => {
                &&& eq_point@ == claim.point@.take(matrix_vars(input_shape@) as int)
                &&& eq_point@.len() == matrix_vars(input_shape@)
                &&& batching_point@ == claim.point@.skip(matrix_vars(input_shape@) as int)
                &&& challenges@.len() == numel(batch_dims(unpadded_input_shape@))
                &&& forall|k: int|
                    0 <= k < challenges@.len() ==> stands_for(
                        #[trigger] challenges@[k],
                        factors(
                            dim_points(input_shape@, residues(claim.point@)),
                            unflat(batch_dims(unpadded_input_shape@), k),
                        ),
                    )
            },
            Err(e) => e == Error::WrongPointLength,
        },
{
    let rank = input_shape.rank();
    let ghost sh = input_shape@;
    let ghost un = unpadded_input_shape@;
    let points = match input_shape.split_point(claim.point.as_slice()) {
        Ok(v) => v,
        Err(e) => {
            return Err(e);
        },
    };
    proof {
        lemma_matrix_vars(sh);
        assert(points@[rank - 1]@ == dim_point(sh, claim.point@, rank - 1));
        assert(points@[rank - 2]@ == dim_point(sh, claim.point@, rank - 2));
        assert(claim.point.len() <= usize::MAX);
    }
    let matrix_coords: usize = points[rank - 1].len() + points[rank - 2].len();
    let eq_point = part(claim.point.as_slice(), 0, matrix_coords);
    let batching_point = part(claim.point.as_slice(), matrix_coords, claim.point.len());
    proof {
        assert(eq_point@ =~= claim.point@.take(matrix_coords as int));
        assert(batching_point@ =~= claim.point@.skip(matrix_coords as int));
    }
    let higher = leading_dims(unpadded_input_shape, rank - 2);
    proof {
        assert(higher@ == batch_dims(un));
        assert forall|k: int| 0 <= k < higher@.len() implies #[trigger] higher@[k] <= pow2(
            points@[k]@.len(),
        ) && pow2(points@[k]@.len()) <= usize::MAX by {
            assert(un[k] <= pow2(log2_ceil(sh[k] as nat)));
            lemma_num_vars_skip(sh, k);
            lemma_num_vars_split(sh, k);
            assert(points@[k]@ == dim_point(sh, claim.point@, k));
        }
        assert forall|k: int| 0 <= k <= higher@.len() implies #[trigger] numel(higher@.take(k))
            <= usize::MAX by {
            assert(numel(batch_dims(un).take(k)) <= usize::MAX);
        }
    }
    let challenges = batching_challenges(&points, &higher);
    proof {
        let ps = point_residues(points@);
        let qs = dim_points(sh, residues(claim.point@));
        assert forall|k: int| 0 <= k < sh.len() implies ps[k] == qs[k] by {
            assert(points@[k]@ == dim_point(sh, claim.point@, k));
            lemma_num_vars_skip(sh, k);
            lemma_num_vars_split(sh, k);
            assert(ps[k] =~= qs[k]);
        }
        assert(ps =~= qs);
    }
    Ok((challenges, batching_point, eq_point))
}

impl<F: PrimeField> MaskProvingData<F> {
    /// The data is that of a claim at `point` on the output of a mask that was
    /// applied to `input`.
    pub open spec fn belongs_to(&self, point: Seq<F>, input: Tensor<F>) -> bool {
        &&& self.batching_point@ == point.skip(matrix_vars(input.shape@) as int)
        &&& all_stand_for(
            self.eq_evals@,
            betas(residues(point.take(matrix_vars(input.shape@) as int))),
        )
        &&& self.batching_challenges@.len() == numel(batch_dims(input.unpadded_shape@))
        &&& forall|k: int|
            0 <= k < self.batching_challenges@.len() ==> stands_for(
                #[trigger] self.batching_challenges@[k],
                factors(
                    dim_points(input.shape@, residues(point)),
                    unflat(batch_dims(input.unpadded_shape@), k),
                ),
            )
        &&& self.input_polys@.len() == numel(batch_dims(input.unpadded_shape@))
        &&& forall|k: int|
            0 <= k < self.input_polys@.len() ==> holds_matrix(
                input,
                k,
                (#[trigger] self.input_polys@[k])@,
            )
        &&& self.input_shape@ == input.shape@
    }

    pub fn new(
        batching_challenges: Vec<F>,
        batching_point: Vec<F>,
        eq_evals: Vec<F>,
        input_polys: Vec<Vec<F>>,
        input_shape: Shape,
    ) -> (r: Self)
        ensures
            r.batching_challenges@ == batching_challenges@,
            r.batching_point@ == batching_point@,
            r.eq_evals@ == eq_evals@,
            r.input_polys@ == input_polys@,
            r.input_shape@ == input_shape@,
    {
        MaskProvingData { batching_challenges, batching_point, eq_evals, input_polys, input_shape }
    }

    /// The proving data for a claim on the output of the mask and its input. The
    /// claim is refused where its point does not fit the shape of the input.
    pub fn from_claims_and_input(claim: &Claim<F>, input: &Tensor<F>) -> (r: Result<Self, Error>)
        requires
            input.wf(),
            input.shape@ == padded(input.unpadded_shape@),
            can_pad(input.unpadded_shape@),
            input.shape@.len() >= 2,
            forall|k: int| 0 <= k < input.unpadded_shape@.len() ==> #[trigger] input.unpadded_shape@[k] > 0,
        ensures
            r is Ok <==> claim.point@.len() == num_vars(input.shape@),
            match r {
                Ok(d) => d.belongs_to(claim.point@, *input),
                Err(e) => e == Error::WrongPointLength,
            },
    {
        proof {
            lemma_can_split(input.unpadded_shape@);
        }
        let (challenges, batching_point, eq_point) = match split_claim(
            claim,
            &input.shape,
            &input.unpadded_shape,
        ) {
            Ok(v) => v,
            Err(e) => {
                return Err(e);
            },
        };
        proof {
            lemma_matrix_points(input.unpadded_shape@, matrix_vars(input.shape@));
        }
        let eq_evals = compute_betas_eval(eq_point.as_slice());
        let count: usize = challenges.len();
        let unpadded = input.reduce_to_unpadded_shape();
        let input_polys = matrices(&unpadded, count);
        proof {
            assert forall|k: int| 0 <= k < input_polys@.len() implies holds_matrix(
                *input,
                k,
                (#[trigger] input_polys@[k])@,
            ) by {
                lemma_same_matrix(*input, unpadded, k, input_polys@[k]@);
            }
        }
        Ok(
            MaskProvingData::new(
                challenges,
                batching_point,
                eq_evals,
                input_polys,
                input.shape.clone(),
            ),
        )
    }
}

/// The table `t` holds the `k`-th matrix of a tensor, padded with zeros.
pub open spec fn holds_matrix<F: PrimeField>(input: Tensor<F>, k: int, t: Seq<F>) -> bool {
    let u = input.unpadded_shape@;
    &&& t.len() == next_pow2(u[u.len() - 2] as nat) * next_pow2(u.last() as nat)
    &&& forall|p: int| 0 <= p < t.len() ==> (#[trigger] t[p]).residue() == matrix_entry(input, k, p)
}

/// The first `n` dimensions of a shape.
fn leading_dims(shape: &Shape, n: usize) -> (r: Vec<usize>)
    requires
        n <= shape@.len(),
    ensures
        r@ == shape@.take(n as int),
{
    let mut r: Vec<usize> = Vec::new();
    for k in 0..n
        invariant
            n <= shape@.len(),
            r@ == shape@.take(k as int),
    {
        r.push(shape.dims[k]);
        assert(shape@.take(k + 1) =~= shape@.take(k as int).push(shape@[k as int]));
    }
    r
}

/// A padded dimension is a power of two, with as many bits as it takes to count
/// the dimension.
pub proof fn lemma_padded_dim(d: Seq<usize>, k: int)
    requires
        can_pad(d),
        0 <= k < d.len(),
    ensures
        padded(d)[k] == next_pow2(d[k] as nat),
        padded(d)[k] == pow2(log2_ceil(padded(d)[k] as nat)),
        log2_ceil(padded(d)[k] as nat) == log2_ceil(d[k] as nat),
        d[k] <= padded(d)[k],
{
    assert(next_pow2(d[k] as nat) <= usize::MAX);
    lemma_log2_pow2(log2_ceil(d[k] as nat));
    lemma_next_pow2(d[k] as nat);
}

pub proof fn lemma_padded_larger(d: Seq<usize>)
    requires
        can_pad(d),
    ensures
        forall|k: int| 0 <= k < d.len() ==> d[k] <= #[trigger] padded(d)[k],
{
    assert forall|k: int| 0 <= k < d.len() implies d[k] <= #[trigger] padded(d)[k] by {
        lemma_padded_dim(d, k);
    }
}

/// The last two dimensions have the first coordinates of a point.
proof fn lemma_matrix_vars(d: Seq<usize>)
    requires
        d.len() >= 2,
    ensures
        num_vars(d) >= matrix_vars(d),
        forall|p: Seq<int>| #[trigger]
            dim_point(d, p, d.len() - 1) == p.subrange(0, log2_ceil(d[d.len() - 1] as nat) as int),
        num_vars(d.skip(d.len() - 1)) == log2_ceil(d[d.len() - 1] as nat),
        num_vars(d.skip(d.len() as int)) == 0,
{
    let n = d.len() as int;
    assert(d.skip(n).len() == 0);
    lemma_num_vars_skip(d, n - 1);
    lemma_num_vars_skip(d, n - 2);
    lemma_num_vars_split(d, n - 2);
}

/// The padded matrix of a padded tensor fits into memory.
proof fn lemma_matrix_points(u: Seq<usize>, coords: nat)
    requires
        can_pad(u),
        u.len() >= 2,
        forall|k: int| 0 <= k < u.len() ==> #[trigger] u[k] > 0,
        coords == matrix_vars(padded(u)),
    ensures
        pow2(coords) <= usize::MAX,
        pow2(coords) == next_pow2(u[u.len() - 2] as nat) * next_pow2(u.last() as nat),
{
    let d = padded(u);
    let n = u.len() as int;
    lemma_padded_dim(u, n - 1);
    lemma_padded_dim(u, n - 2);
    lemma_pow2_adds(log2_ceil(d[n - 2] as nat), log2_ceil(d[n - 1] as nat));
    assert forall|k: int| 0 <= k < d.len() implies #[trigger] d[k] > 0 by {
        lemma_padded_dim(u, k);
        assert(u[k] > 0);
    }
    let d1 = d.drop_last();
    let d2 = d1.drop_last();
    lemma_numel_prefix(d, n - 2);
    assert(d.take(n - 2) =~= d2);
    assert(numel(d) == numel(d1) * d[n - 1]);
    assert(numel(d1) == numel(d2) * d[n - 2]);
    let a = numel(d2);
    let x = d[n - 2] as nat;
    let y = d[n - 1] as nat;
    assert(x * y <= (a * x) * y) by (nonlinear_arith)
        requires
            a >= 1,
    ;
}

/// Where a position of a matrix is stored.
proof fn lemma_matrix_place(u: Seq<usize>, k: int, i: int, j: int)
    requires
        u.len() >= 2,
        0 <= k < numel(batch_dims(u)),
        0 <= i < u[u.len() - 2],
        0 <= j < u.last(),
    ensures
        in_bounds(u, unflat(batch_dims(u), k).push(i).push(j)),
        flat(u, unflat(batch_dims(u), k).push(i).push(j)) == (k * u[u.len() - 2] + i) * u.last() + j,
        (k * u[u.len() - 2] + i) * u.last() + j < numel(u),
{
    let b = batch_dims(u);
    let idx = unflat(b, k);
    lemma_unflat(b, k);
    let full = idx.push(i).push(j);
    let u1 = u.drop_last();
    assert(u1.drop_last() =~= b);
    assert(full.drop_last() =~= idx.push(i));
    assert(idx.push(i).drop_last() =~= idx);
    assert forall|l: int| 0 <= l < u.len() implies 0 <= #[trigger] full[l] < u[l] by {
        if l < b.len() {
            assert(0 <= idx[l] < b[l]);
        }
    }
    lemma_flat(u, full);
    assert(flat(u1, idx.push(i)) == flat(b, idx) * u1.last() + i);
}

/// The matrices of a tensor without padding, each padded with zeros.
fn matrices<F: PrimeField>(input: &Tensor<F>, count: usize) -> (r: Vec<Vec<F>>)
    requires
        input.wf(),
        input.shape@ == input.unpadded_shape@,
        input.shape@.len() >= 2,
        can_pad(input.shape@),
        forall|k: int| 0 <= k < input.shape@.len() ==> #[trigger] input.shape@[k] > 0,
        count == numel(batch_dims(input.shape@)),
    ensures
        r@.len() == count,
        forall|k: int| 0 <= k < r@.len() ==> holds_matrix(*input, k, (#[trigger] r@[k])@),
{
    let rank = input.shape.rank();
    let ghost u = input.shape@;
    let rows: usize = input.shape.dims[rank - 2];
    let cols: usize = input.shape.dims[rank - 1];
    proof {
        lemma_padded_dim(u, rank - 1);
        lemma_padded_dim(u, rank - 2);
        lemma_matrix_points(u, matrix_vars(padded(u)));
    }
    let height = next_power_of_two(rows);
    let width = next_power_of_two(cols);
    let mut r: Vec<Vec<F>> = Vec::new();
    for k in 0..count
        invariant
            input.wf(),
            u == input.shape@,
            u == input.unpadded_shape@,
            rank == u.len(),
            rank >= 2,
            rows == u[rank - 2],
            cols == u[rank - 1],
            height == next_pow2(rows as nat),
            width == next_pow2(cols as nat),
            height * width <= usize::MAX,
            width > 0,
            count == numel(batch_dims(u)),
            r@.len() == k,
            forall|l: int| 0 <= l < k ==> holds_matrix(*input, l, (#[trigger] r@[l])@),
    {
        let mut t: Vec<F> = Vec::new();
        for p in 0..height * width
            invariant
                input.wf(),
                u == input.shape@,
                u == input.unpadded_shape@,
                rank == u.len(),
                rank >= 2,
                rows == u[rank - 2],
                cols == u[rank - 1],
                width == next_pow2(cols as nat),
                height * width <= usize::MAX,
                width > 0,
                0 <= k < count,
                count == numel(batch_dims(u)),
                t@.len() == p,
                forall|q: int|
                    0 <= q < p ==> (#[trigger] t@[q]).residue() == matrix_entry(*input, k as int, q),
        {
            let i: usize = p / width;
            let j: usize = p % width;
            if i < rows && j < cols {
                proof {
                    lemma_matrix_place(u, k as int, i as int, j as int);
                    assert(input.data.len() <= usize::MAX);
                    let x = k * rows;
                    let y = k * rows + i;
                    assert(0 <= x) by (nonlinear_arith)
                        requires
                            0 <= k,
                            0 <= rows,
                            x == k * rows,
                    ;
                    let c = cols as int;
                    assert(y <= y * c) by (nonlinear_arith)
                        requires
                            y >= 0,
                            c >= 1,
                    ;
                }
                t.push(input.data[(k * rows + i) * cols + j]);
            } else {
                t.push(F::zero());
            }
        }
        r.push(t);
    }
    r
}

/// A tensor and its unpadded part have the same matrices.
proof fn lemma_same_matrix<F: PrimeField>(input: Tensor<F>, part: Tensor<F>, k: int, t: Seq<F>)
    requires
        input.unpadded_shape@.len() >= 2,
        part.shape@ == input.unpadded_shape@,
        part.unpadded_shape@ == input.unpadded_shape@,
        0 <= k < numel(batch_dims(input.unpadded_shape@)),
        forall|idx: Seq<int>|
            in_bounds(input.unpadded_shape@, idx) ==> #[trigger] part.at(idx) == input.at(idx),
        holds_matrix(part, k, t),
        next_pow2(input.unpadded_shape@.last() as nat) > 0,
    ensures
        holds_matrix(input, k, t),
{
    let u = input.unpadded_shape@;
    let width = next_pow2(u.last() as nat) as int;
    assert forall|p: int| 0 <= p < t.len() implies (#[trigger] t[p]).residue() == matrix_entry(
        input,
        k,
        p,
    ) by {
        let i = p / width;
        let j = p % width;
        if i < u[u.len() - 2] && j < u.last() {
            lemma_div_pos_is_pos(p, width);
            lemma_matrix_place(u, k, i, j);
        }
    }
}

/// The sum of the products of factors and values, over as many as there are of
/// both.
pub open spec fn weighted(factors: Seq<int>, values: Seq<int>) -> int {
    sum(
        if factors.len() <= values.len() {
            factors.len()
        } else {
            values.len()
        },
        |k: int| factors[k] * values[k],
    )
}

/// The claim on the whole input that follows from the evaluations of its matrices.
pub fn input_claim<F: PrimeField>(
    challenges: &[F],
    batching_point: &[F],
    sumcheck_point: &[F],
    evaluations: &[F],
) -> (r: Claim<F>)
    ensures
        r.point@ == sumcheck_point@ + batching_point@,
        stands_for(r.eval, weighted(residues(challenges@), residues(evaluations@))),
{
    let ghost c = residues(challenges@);
    let ghost e = residues(evaluations@);
    let n: usize = if challenges.len() <= evaluations.len() {
        challenges.len()
    } else {
        evaluations.len()
    };
    let ghost f = |k: int| c[k] * e[k];
    let mut acc = Lifted::<F>::zero();
    for k in 0..n
        invariant
            n <= challenges@.len(),
            n <= evaluations@.len(),
            c == residues(challenges@),
            e == residues(evaluations@),
            f == |k: int| c[k] * e[k],
            acc@ == sum(k as nat, f),
    {
        acc = acc.plus(Lifted::of(challenges[k]).times(Lifted::of(evaluations[k])));
    }
    Claim::new(joined(sumcheck_point, batching_point), acc.get())
}

/// The tables, expressions and challenges are those of the sumcheck by which a
/// mask is proved.
pub open spec fn is_mask_sumcheck<F: PrimeField>(
    mask: AttentionMask<Element>,
    data: MaskProvingData<F>,
    unpadded_seq_len: nat,
    side: nat,
    s: MaskSumcheck<F>,
) -> bool {
    let dec = decomposed(mask.span, side as int);
    let bound = next_pow2(unpadded_seq_len);
    &&& s.challenges@ == data.batching_challenges@
    &&& s.tables@.len() == input_offset(dec) + data.input_polys@.len()
    &&& s.tables@[0]@ == data.eq_evals@
    &&& all_stand_for(s.tables@[1]@, matrix_table(|i: int, j: int| lower_triangular(i, j), side))
    &&& all_stand_for(
        s.tables@[2]@,
        matrix_table(|i: int, j: int| column_bound(unpadded_seq_len as int, j), bound),
    )
    &&& all_stand_for(
        s.tables@[3]@,
        matrix_table(|i: int, j: int| column_bound(unpadded_seq_len as int, i), bound),
    )
    &&& dec ==> all_stand_for(
        s.tables@[4]@,
        matrix_table(|i: int, j: int| offset_matrix(window(mask.span), i, j), side),
    )
    &&& forall|k: int|
        0 <= k < data.input_polys@.len() ==> (#[trigger] s.tables@[input_offset(dec) + k])@
            == data.input_polys@[k]@
    &&& s.expressions@.len() == data.input_polys@.len()
    &&& forall|k: int, w: Seq<int>, c: Seq<int>|
        0 <= k < s.expressions@.len() ==> #[trigger] s.expressions@[k].value(w, c) == mask_summand(
            w,
            c,
            dec,
            data.input_shape@.len() > 2,
            mask.negative_infinity as int % F::modulus(),
            k,
        )
}

impl AttentionMask<Element> {
    /// The sumcheck by which the prover shows that the mask was applied.
    pub fn prove_internal<F: PrimeField>(
        &self,
        data: &MaskProvingData<F>,
        unpadded_seq_len: usize,
    ) -> (r: MaskSumcheck<F>)
        requires
            data.input_shape@.len() >= 2,
            forall|k: int|
                0 <= k <= data.input_shape@.len() - 2 ==> #[trigger] numel(data.input_shape@.take(k))
                    + 5 <= 0x1_0000,
            data.input_polys@.len() <= if data.input_shape@.len() > 2 {
                numel(batch_dims(data.input_shape@)) as int
            } else {
                1
            },
            pow2(log2_ceil(data.eq_evals@.len()) / 2) * pow2(log2_ceil(data.eq_evals@.len()) / 2)
                <= usize::MAX,
            next_pow2(unpadded_seq_len as nat) * next_pow2(unpadded_seq_len as nat) <= usize::MAX,
        ensures
            r.num_vars == log2_ceil(data.eq_evals@.len()),
            is_mask_sumcheck(
                *self,
                *data,
                unpadded_seq_len as nat,
                pow2(log2_ceil(data.eq_evals@.len()) / 2),
                r,
            ),
    {
        let num_vars = ceil_log2(data.eq_evals.len());
        let ghost half = pow2((num_vars / 2) as nat);
        proof {
            lemma_pow2_pos((num_vars / 2) as nat);
            assert(half <= half * half) by (nonlinear_arith)
                requires
                    half >= 1,
            ;
        }
        let side = power_of_two(num_vars / 2);
        let mut mask_polys = self.make_mask_polys::<F>(side);
        let (row_lt, column_lt) = self.make_row_column_lt_polys::<F>(unpadded_seq_len);
        let dec = mask_polys.len() == 2;
        let mut tables: Vec<Vec<F>> = Vec::new();
        tables.push(copied(&data.eq_evals));
        tables.push(mask_polys.remove(0));
        tables.push(row_lt);
        tables.push(column_lt);
        if dec {
            tables.push(mask_polys.remove(0));
        }
        let ghost head = tables@;
        let count: usize = data.input_polys.len();
        for k in 0..count
            invariant
                count == data.input_polys@.len(),
                head.len() == input_offset(dec),
                tables@.len() == head.len() + k,
                forall|j: int| 0 <= j < head.len() ==> (#[trigger] tables@[j])@ == head[j]@,
                forall|j: int|
                    0 <= j < k ==> (#[trigger] tables@[input_offset(dec) + j])@
                        == data.input_polys@[j]@,
        {
            tables.push(copied(&data.input_polys[k]));
        }
        proof {
            assert(tables@[0]@ == head[0]@);
            assert(tables@[1]@ == head[1]@);
            assert(tables@[2]@ == head[2]@);
            assert(tables@[3]@ == head[3]@);
            if dec {
                assert(tables@[4]@ == head[4]@);
            }
        }
        let mut expressions = build_sumcheck_expression::<F>(
            &data.input_shape,
            self.negative_infinity,
            dec,
        );
        let ghost all = expressions@;
        expressions.truncate(count);
        proof {
            assert forall|k: int, w: Seq<int>, c: Seq<int>|
                0 <= k < expressions@.len() implies #[trigger] expressions@[k].value(w, c)
                == mask_summand(
                w,
                c,
                dec,
                data.input_shape@.len() > 2,
                self.negative_infinity as int % F::modulus(),
                k,
            ) by {
                assert(expressions@[k] == all[k]);
                assert(all[k].value(w, c) == mask_summand(
                    w,
                    c,
                    dec,
                    data.input_shape@.len() > 2,
                    self.negative_infinity as int % F::modulus(),
                    k,
                ));
            }
        }
        MaskSumcheck { num_vars, tables, expressions, challenges: copied(&data.batching_challenges) }
    }

    /// The tables whose products sum to what is left of the second matrix of a
    /// local mask: the upper triangular matrix with its rows fixed, and the shift
    /// matrix with its columns fixed. There are none for a full mask.
    pub fn local_mask_tables<F: PrimeField>(&self, sumcheck_point: &[F]) -> (r: Result<
        (Vec<F>, Vec<F>),
        Error,
    >)
        requires
            sumcheck_point@.len() % 2 == 0,
            pow2(sumcheck_point@.len() / 2) <= usize::MAX,
        ensures
            r is Ok <==> self.span is Local,
            match r {
                Ok((upper, shift)) => {
                    let half = sumcheck_point@.len() / 2;
                    let col = residues(sumcheck_point@.take(half as int));
                    let row = residues(sumcheck_point@.skip(half as int));
                    &&& upper@.len() == pow2(half)
                    &&& shift@.len() == pow2(half)
                    &&& forall|k: int|
                        0 <= k < pow2(half) ==> stands_for(#[trigger] upper@[k], upto(row, k))
                    &&& forall|k: int|
                        0 <= k < pow2(half) ==> stands_for(
                            #[trigger] shift@[k],
                            shift_column(col, window(self.span), k),
                        )
                },
                Err(e) => e == Error::UnexpectedProof,
            },
    {
        let n: usize = match self.span {
            AttentionSpan::Full => {
                return Err(Error::UnexpectedProof);
            },
            AttentionSpan::Local(n) => n,
        };
        let half: usize = sumcheck_point.len() / 2;
        let column_point = part(sumcheck_point, 0, half);
        let row_point = part(sumcheck_point, half, sumcheck_point.len());
        assert(column_point@ =~= sumcheck_point@.take(half as int));
        assert(row_point@ =~= sumcheck_point@.skip(half as int));
        let ghost col = residues(column_point@);
        let upper = fix_lower_mle_columns(row_point.as_slice());
        let beta_vec = compute_betas_eval(column_point.as_slice());
        let seq_len: usize = upper.len();
        let mut shift: Vec<F> = Vec::new();
        for row in 0..seq_len
            invariant
                seq_len == beta_vec@.len(),
                all_stand_for(beta_vec@, betas(col)),
                shift@.len() == row,
                forall|k: int|
                    0 <= k < row ==> stands_for(#[trigger] shift@[k], shift_column(col, n as int, k)),
        {
            if row < n {
                shift.push(Lifted::<F>::zero().get());
            } else {
                let c: usize = row - n;
                assert(betas(col)[c as int] == beta(col, c as int));
                shift.push(beta_vec[c]);
            }
        }
        Ok((upper, shift))
    }

    /// The proof and the claim on the input, once the sumcheck has been run: it
    /// ended at `sumcheck_point`, where its tables take the values
    /// `final_evaluations`.
    pub fn finish_proof<F: PrimeField, P>(
        &self,
        data: &MaskProvingData<F>,
        dec: bool,
        sumcheck_proof: P,
        local_mask_proof: Option<P>,
        sumcheck_point: &[F],
        final_evaluations: &[F],
    ) -> (r: (AttentionMaskProof<F, P>, Vec<Claim<F>>))
        requires
            final_evaluations@.len() >= input_offset(dec),
        ensures
            r.0.sumcheck_proof == sumcheck_proof,
            r.0.local_mask_proof == local_mask_proof,
            r.0.evaluations@ == final_evaluations@.skip(4),
            r.1@.len() == 1,
            r.1@[0].point@ == sumcheck_point@ + data.batching_point@,
            stands_for(
                r.1@[0].eval,
                weighted(
                    residues(data.batching_challenges@),
                    residues(final_evaluations@.skip(input_offset(dec))),
                ),
            ),
    {
        let evaluations = part(final_evaluations, 4, final_evaluations.len());
        assert(evaluations@ =~= final_evaluations@.skip(4));
        let offset: usize = if dec {
            5
        } else {
            4
        };
        let inputs = part(final_evaluations, offset, final_evaluations.len());
        assert(inputs@ =~= final_evaluations@.skip(offset as int));
        let claim = input_claim(
            data.batching_challenges.as_slice(),
            data.batching_point.as_slice(),
            sumcheck_point,
            inputs.as_slice(),
        );
        let mut claims: Vec<Claim<F>> = Vec::new();
        claims.push(claim);
        (AttentionMaskProof { sumcheck_proof, evaluations, local_mask_proof }, claims)
    }
}

impl AttentionMask<Element> {
    /// The proving data of a mask and the sumcheck to run, for the claim on its
    /// output and its input. A mask has a single input and a single claim.
    pub fn prove<F: PrimeField>(&self, last_claims: &Vec<Claim<F>>, inputs: &Vec<Tensor<F>>) -> (r:
        Result<(MaskProvingData<F>, MaskSumcheck<F>), Error>)
        requires
            inputs@.len() == 1 ==> provable(inputs@[0]),
        ensures
            match r {
                Ok((data, s)) => {
                    &&& inputs@.len() == 1
                    &&& last_claims@.len() == 1
                    &&& last_claims@[0].point@.len() == num_vars(inputs@[0].shape@)
                    &&& data.belongs_to(last_claims@[0].point@, inputs@[0])
                    &&& is_mask_sumcheck(
                        *self,
                        data,
                        inputs@[0].unpadded_shape@.last() as nat,
                        pow2(matrix_vars(inputs@[0].shape@) / 2),
                        s,
                    )
                },
                Err(e) => if inputs@.len() != 1 {
                    e == Error::WrongNumberOfInputs
                } else if last_claims@.len() != 1 {
                    e == Error::WrongNumberOfClaims
                } else {
                    e == Error::WrongPointLength && last_claims@[0].point@.len() != num_vars(
                        inputs@[0].shape@,
                    )
                },
            },
    {
        if inputs.len() != 1 {
            return Err(Error::WrongNumberOfInputs);
        }
        if last_claims.len() != 1 {
            return Err(Error::WrongNumberOfClaims);
        }
        let input = &inputs[0];
        let data = match MaskProvingData::from_claims_and_input(&last_claims[0], input) {
            Ok(d) => d,
            Err(e) => {
                return Err(e);
            },
        };
        let ghost u = input.unpadded_shape@;
        proof {
            let v = matrix_vars(input.shape@);
            lemma_matrix_vars(input.shape@);
            lemma_matrix_points(u, v);
            lemma_log2_pow2(v);
            lemma_pow2_adds(v / 2, v / 2);
            assert(v / 2 + v / 2 == v);
            lemma_padded_dim(u, u.len() - 1);
            lemma_padded_dim(u, u.len() - 2);
            let side = next_pow2(u.last() as nat);
            lemma_padded_batch(u);
            if input.shape@.len() == 2 {
                assert(numel(batch_dims(u)) == 1);
            }
        }
        let seq_len: usize = input.unpadded_shape.dims[input.unpadded_shape.rank() - 1];
        let s = self.prove_internal(&data, seq_len);
        Ok((data, s))
    }
}

/// An input of which the application of a mask can be proved: square matrices,
/// padded.
pub open spec fn provable<F: PrimeField>(input: Tensor<F>) -> bool {
    let u = input.unpadded_shape@;
    &&& input.wf()
    &&& input.shape@ == padded(u)
    &&& can_pad(u)
    &&& u.len() >= 2
    &&& u[u.len() - 2] == u.last()
    &&& forall|k: int| 0 <= k < u.len() ==> #[trigger] u[k] > 0
    &&& forall|k: int|
        0 <= k <= u.len() - 2 ==> #[trigger] numel(input.shape@.take(k)) + 5 <= 0x1_0000
}

/// There are no more unpadded matrices than padded ones.
proof fn lemma_padded_batch(u: Seq<usize>)
    requires
        can_pad(u),
        u.len() >= 2,
    ensures
        numel(batch_dims(u)) <= numel(batch_dims(padded(u))),
{
    let b = batch_dims(u);
    let c = batch_dims(padded(u));
    assert forall|k: int| 0 <= k < b.len() implies b[k] <= #[trigger] c[k] by {
        lemma_padded_dim(u, k);
    }
    lemma_numel_mono(b, c);
}

} // verus!
