//! How the values of a row are paired by a rotation.
use vstd::prelude::*;
use vstd::arithmetic::div_mod::*;
use crate::claim::part;
use crate::congruence::{lemma_cong_minus, lemma_residue_cong};
use crate::field::{all_stand_for, residues, stands_for, Lifted, PrimeField};
use crate::logits::witness::element_ints;
use crate::mle::{identity, identity_eval};
use crate::shape::numel;
use crate::tensor::{Element, Tensor};

verus! {

/// How the values of a row are paired.
#[derive(Clone, Copy, Debug, PartialEq, Eq, Structural)]
pub enum RopeLayout {
    /// Each value is paired with its neighbour: of `[x_1, x_2, x_3, x_4, ..]` the
    /// permuted row is `[-x_2, x_1, -x_4, x_3, ..]`.
    Adjacent,
    /// Each value is paired with the one half a row further: of `[x_1, .., x_n]` the
    /// permuted row is `[-x_(n/2+1), .., -x_n, x_1, .., x_(n/2)]`.
    RotateHalf,
}

/// The place in a block of `w` whose value the permuted block has at place `j`.
pub open spec fn source(w: int, j: int) -> int {
    let h = (w + 1) / 2;
    if j < w - h {
        h + j
    } else {
        j - (w - h)
    }
}

/// A table with each block of `w` values permuted: the second half, negated, comes
/// before the first.
pub open spec fn rotated(t: Seq<int>, w: int) -> Seq<int> {
    Seq::new(
        t.len(),
        |p: int|
            {
                let j = p % w;
                let x = t[p - j + source(w, j)];
                if j < w - (w + 1) / 2 {
                    -x
                } else {
                    x
                }
            },
    )
}

/// The factors of a table whose permuted blocks are weighted by `eq`: the second half
/// comes before the first, which is negated.
pub open spec fn counter_rotated(eq: Seq<int>, w: int) -> Seq<int> {
    Seq::new(
        eq.len(),
        |p: int|
            {
                let j = p % w;
                if j < w - w / 2 {
                    eq[p - j + w / 2 + j]
                } else {
                    -eq[p - j + (j - (w - w / 2))]
                }
            },
    )
}

/// The extension of the permuted factors of a point `e`, in closed form, where a
/// block has `r` variables.
pub open spec fn permuted_identity(e: Seq<int>, s: Seq<int>, r: int) -> int {
    identity(e.take(r - 1), s.take(r - 1)) * (e[r - 1] - s[r - 1]) * identity(e.skip(r), s.skip(r))
}

impl RopeLayout {
    /// The size of the blocks that are permuted in a row of `w` values.
    pub open spec fn block(self, w: int) -> int {
        match self {
            RopeLayout::Adjacent => 2,
            RopeLayout::RotateHalf => w,
        }
    }

    /// The variables of the blocks that are permuted in a row of `r` variables.
    pub open spec fn block_vars(self, r: int) -> int {
        match self {
            RopeLayout::Adjacent => 1,
            RopeLayout::RotateHalf => r,
        }
    }

    /// A row of `w` values can be permuted.
    pub open spec fn fits(self, w: int) -> bool {
        match self {
            RopeLayout::Adjacent => w > 0 && w % 2 == 0,
            RopeLayout::RotateHalf => w >= 2,
        }
    }

    /// The size of the blocks that are permuted in a row of `w` values.
    pub fn block_size(self, w: usize) -> (r: usize)
        ensures
            r == self.block(w as int),
    {
        match self {
            RopeLayout::Adjacent => 2,
            RopeLayout::RotateHalf => w,
        }
    }

    /// The tensor with its rows permuted.
    pub fn split_input(self, input: &Tensor<Element>) -> (r: Tensor<Element>)
        requires
            input.wf(),
            input.shape@.len() >= 1,
            self.fits(input.shape@.last() as int),
            forall|p: int| 0 <= p < input.data@.len() ==> #[trigger] input.data@[p] > Element::MIN,
        ensures
            r.wf(),
            r.shape@ == input.shape@,
            r.unpadded_shape@ == input.unpadded_shape@,
            element_ints(r.data@) == rotated(
                element_ints(input.data@),
                self.block(input.shape@.last() as int),
            ),
    {
        let row: usize = input.shape.dims[input.shape.rank() - 1];
        let w: usize = self.block_size(row);
        let h: usize = w - w / 2;
        let ghost t = element_ints(input.data@);
        let mut data: Vec<Element> = Vec::new();
        proof {
            let d = input.shape@;
            let a = numel(d.drop_last()) as int;
            assert(t.len() == a * row);
            if self == RopeLayout::Adjacent {
                let k = row as int / 2;
                lemma_fundamental_div_mod(row as int, 2);
                assert(a * row == (a * k) * 2) by (nonlinear_arith)
                    requires
                        row == 2 * k,
                ;
                lemma_mod_multiples_basic(a * k, 2);
            } else {
                lemma_mod_multiples_basic(a, row as int);
            }
        }
        for p in 0..input.data.len()
            invariant
                w >= 2,
                h == w - w / 2,
                t == element_ints(input.data@),
                t.len() % w as nat == 0,
                data@.len() == p,
                forall|p: int|
                    0 <= p < input.data@.len() ==> #[trigger] input.data@[p] > Element::MIN,
                forall|q: int| 0 <= q < p ==> #[trigger] data@[q] == rotated(t, w as int)[q],
        {
            let j: usize = p % w;
            proof {
                lemma_in_block(p as int, w as int, t.len() as int);
            }
            let start: usize = p - j;
            let x: Element = if j < w - h {
                -input.data[start + (h + j)]
            } else {
                input.data[start + (j - (w - h))]
            };
            assert(x == rotated(t, w as int)[p as int]);
            data.push(x);
        }
        let r = Tensor {
            data,
            shape: input.shape.clone(),
            unpadded_shape: input.unpadded_shape.clone(),
        };
        assert(element_ints(r.data@) =~= rotated(t, w as int));
        r
    }

    /// The factors of a table whose permuted rows are weighted by `eq_evals`.
    pub fn permuted_eq_poly<F: PrimeField>(self, eq_evals: &Vec<F>, row_size: usize) -> (r: Vec<F>)
        requires
            self.block(row_size as int) >= 1,
            eq_evals@.len() as int % self.block(row_size as int) == 0,
        ensures
            all_stand_for(
                r@,
                counter_rotated(residues(eq_evals@), self.block(row_size as int)),
            ),
    {
        let w: usize = self.block_size(row_size);
        let half: usize = w / 2;
        let ghost eq = residues(eq_evals@);
        let mut r: Vec<F> = Vec::new();
        for p in 0..eq_evals.len()
            invariant
                w >= 1,
                half == w / 2,
                eq == residues(eq_evals@),
                eq_evals@.len() as int % w as int == 0,
                r@.len() == p,
                forall|q: int|
                    0 <= q < p ==> stands_for(
                        #[trigger] r@[q],
                        counter_rotated(eq, w as int)[q],
                    ),
        {
            let j: usize = p % w;
            proof {
                lemma_in_block(p as int, w as int, eq.len() as int);
            }
            let start: usize = p - j;
            let x: F = if j < w - half {
                Lifted::of(eq_evals[start + half + j]).get()
            } else {
                let v = Lifted::of(eq_evals[start + (j - (w - half))]);
                Lifted::<F>::zero().minus(v).get()
            };
            r.push(x);
        }
        r
    }

    /// The extension of the permuted factors of `eq_point`, at `sumcheck_point`.
    pub fn evaluate_permuted_eq_poly<F: PrimeField>(
        self,
        eq_point: &[F],
        sumcheck_point: &[F],
        row_num_vars: usize,
    ) -> (r: F)
        requires
            eq_point@.len() == sumcheck_point@.len(),
            1 <= self.block_vars(row_num_vars as int) <= eq_point@.len(),
        ensures
            stands_for(
                r,
                permuted_identity(
                    residues(eq_point@),
                    residues(sumcheck_point@),
                    self.block_vars(row_num_vars as int),
                ),
            ),
    {
        let k: usize = match self {
            RopeLayout::Adjacent => 1,
            RopeLayout::RotateHalf => row_num_vars,
        };
        let n: usize = eq_point.len();
        let e_low = part(eq_point, 0, k - 1);
        let s_low = part(sumcheck_point, 0, k - 1);
        let e_high = part(eq_point, k, n);
        let s_high = part(sumcheck_point, k, n);
        let ghost e = residues(eq_point@);
        let ghost s = residues(sumcheck_point@);
        proof {
            assert(residues(e_low@) =~= e.take(k - 1));
            assert(residues(s_low@) =~= s.take(k - 1));
            assert(residues(e_high@) =~= e.skip(k as int));
            assert(residues(s_high@) =~= s.skip(k as int));
        }
        let low = Lifted::known(
            identity_eval(e_low.as_slice(), s_low.as_slice()),
            Ghost(identity(e.take(k - 1), s.take(k - 1))),
        );
        let high = Lifted::known(
            identity_eval(e_high.as_slice(), s_high.as_slice()),
            Ghost(identity(e.skip(k as int), s.skip(k as int))),
        );
        let turn = Lifted::of(eq_point[k - 1]).minus(Lifted::of(sumcheck_point[k - 1]));
        low.times(turn).times(high).get()
    }
}

/// A block lies inside the table.
proof fn lemma_in_block(p: int, w: int, len: int)
    requires
        0 <= p < len,
        w > 0,
        len % w == 0,
    ensures
        0 <= p % w < w,
        0 <= p - p % w,
        p - p % w + w <= len,
{
    lemma_fundamental_div_mod(p, w);
    lemma_fundamental_div_mod(len, w);
    lemma_mod_bound(p, w);
    let a = p / w;
    let b = len / w;
    lemma_div_pos_is_pos(p, w);
    assert(w * a >= 0) by (nonlinear_arith)
        requires
            w > 0,
            a >= 0,
    ;
    assert(w * a + w <= w * b) by (nonlinear_arith)
        requires
            w > 0,
            w * a <= p,
            p < w * b,
    ;
}

/// The permuted factors stand for the permuted integers that the factors stand for.
pub proof fn lemma_counter_rotated_stands<F: PrimeField>(
    elems: Seq<F>,
    eq: Seq<int>,
    r: Seq<F>,
    w: int,
)
    requires
        all_stand_for(elems, eq),
        w > 0,
        eq.len() as int % w == 0,
        F::modulus() > 1,
        all_stand_for(r, counter_rotated(residues(elems), w)),
    ensures
        all_stand_for(r, counter_rotated(eq, w)),
{
    assert forall|p: int| 0 <= p < r.len() implies stands_for(
        #[trigger] r[p],
        counter_rotated(eq, w)[p],
    ) by {
        lemma_in_block(p, w, eq.len() as int);
        let j = p % w;
        let at = if j < w - w / 2 {
            p - j + w / 2 + j
        } else {
            p - j + (j - (w - w / 2))
        };
        assert(stands_for(elems[at], eq[at]));
        lemma_residue_cong(elems[at], eq[at]);
        let x = elems[at].residue();
        lemma_cong_minus(0, 0, x, eq[at], F::modulus());
        assert(stands_for(r[p], counter_rotated(residues(elems), w)[p]));
    }
}

} // verus!
