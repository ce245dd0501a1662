//! What the layers that normalise rows look up.
use std::collections::HashMap;
use vstd::prelude::*;
use vstd::arithmetic::div_mod::*;
use crate::counting::{counted, entry_total, lemma_entry_total, merge_counts};
use crate::error::Error;
use crate::linear::fits;
use crate::lookup::Table;
use crate::normalisation::layernorm::{LayerNorm, LayerNormProvingData};
use crate::normalisation::rmsnorm::{tokens_of, RMSNorm, RMSNormProvingData};
use crate::normalisation::{can_rescale, column_count, is_normalised, mean_of, normalisation_domain, optional_values, padded_columns, rounding_of, row_count, row_of};
use crate::shape::{next_pow2, numel, Shape};
use crate::tensor::{count_values, lemma_numel_zero, Element, Tensor};

verus! {

/// What a layer looks up and commits to.
#[derive(Debug)]
pub struct LookupParts {
    /// The input before it is rounded and shifted.
    pub scaled_input: Tensor<Element>,
    /// The normalised rows.
    pub output: Tensor<Element>,
    /// The matrices of the input.
    pub number_of_chunks: usize,
    /// The multipliers of the rows, and their means where they are taken off.
    pub columns: Vec<Vec<Element>>,
    pub tables: Vec<Table>,
}

/// The matrices of a tensor.
pub open spec fn matrix_count(d: Seq<usize>) -> nat {
    if d.len() >= 2 {
        numel(d.take(d.len() - 2))
    } else {
        1
    }
}

/// The matrices of a tensor.
fn count_matrices(shape: &Shape) -> (r: usize)
    requires
        matrix_count(shape@) <= usize::MAX,
    ensures
        r == matrix_count(shape@),
{
    let rank: usize = shape.rank();
    if rank < 2 {
        return 1;
    }
    let mut dims: Vec<usize> = Vec::new();
    let n: usize = rank - 2;
    for k in 0..n
        invariant
            n + 2 == shape@.len(),
            dims@ == shape@.take(k as int),
    {
        dims.push(shape.dims[k]);
        assert(shape@.take(k + 1) =~= shape@.take(k as int).push(shape@[k as int]));
    }
    let leading = Shape::new(dims);
    count_values(&leading, Ghost(leading@))
}

/// The tensor `r` holds the values multiplied, less the mean of their row.
pub open spec fn is_scaled(
    input: Tensor<Element>,
    mult: Seq<Element>,
    mean: Option<Seq<Element>>,
    r: Tensor<Element>,
) -> bool {
    let w = input.shape@.last() as int;
    &&& r.wf()
    &&& r.shape@ == input.shape@
    &&& r.unpadded_shape@ == input.unpadded_shape@
    &&& r.data@.len() == input.data@.len()
    &&& forall|p: int|
        0 <= p < input.data@.len() ==> #[trigger] r.data@[p] == input.data@[p] * mult[row_of(w, p)]
            - mean_of(mean, row_of(w, p))
}

/// The values multiplied, less the mean of their row.
fn scale_rows(input: &Tensor<Element>, mult: &Vec<Element>, mean: Option<&Vec<Element>>, Ghost(rounding): Ghost<int>) -> (r:
    Tensor<Element>)
    requires
        input.wf(),
        input.shape@.len() >= 1,
        mult@.len() == row_count(input.shape@),
        mean matches Some(m) ==> m@.len() == row_count(input.shape@),
        can_rescale(
            input.data@,
            input.shape@.last() as int,
            mult@,
            optional_values(mean),
            rounding,
        ),
    ensures
        is_scaled(*input, mult@, optional_values(mean), r),
{
    let w: usize = input.shape.dims[input.shape.rank() - 1];
    let ghost mv = optional_values(mean);
    let ghost rows = row_count(input.shape@);
    let mut data: Vec<Element> = Vec::new();
    for p in 0..input.data.len()
        invariant
            input.wf(),
            input.shape@.len() >= 1,
            w == input.shape@.last(),
            rows == row_count(input.shape@),
            mult@.len() == rows,
            mean matches Some(m) ==> m@.len() == rows,
            mv == optional_values(mean),
            can_rescale(input.data@, w as int, mult@, mv, rounding),
            data@.len() == p,
            forall|q: int|
                0 <= q < p ==> #[trigger] data@[q] == input.data@[q] * mult@[row_of(w as int, q)]
                    - mean_of(mv, row_of(w as int, q)),
    {
        proof {
            let d = input.shape@;
            if w == 0 {
                lemma_numel_zero(d, d.len() - 1);
            }
            let i = p as int / w as int;
            lemma_fundamental_div_mod(p as int, w as int);
            lemma_mod_bound(p as int, w as int);
            assert(0 <= i < rows) by (nonlinear_arith)
                requires
                    p == w * i + p as int % w as int,
                    0 <= p < rows * w,
                    0 <= p as int % w as int,
                    (p as int % w as int) < w,
            ;
            assert(fits(input.data@[p as int] * mult@[row_of(w as int, p as int)]));
        }
        let i: usize = p / w;
        let y: Element = input.data[p] * mult[i];
        let z: Element = match mean {
            Some(m) => y - m[i],
            None => y,
        };
        data.push(z);
    }
    Tensor { data, shape: input.shape.clone(), unpadded_shape: input.unpadded_shape.clone() }
}

/// The tables that the values are looked up in.
pub open spec fn tables_for(bit_size: usize) -> Seq<Table> {
    seq![
        Table::ShiftCheck,
        Table::Normalisation((bit_size + 1) as usize),
        Table::ZeroCheck,
        Table::SignedZeroCheck,
    ]
}

/// The tables that the values are looked up in.
fn lookup_tables_for(bit_size: usize) -> (r: Vec<Table>)
    requires
        bit_size < usize::MAX,
    ensures
        r@ == tables_for(bit_size),
{
    let mut r: Vec<Table> = Vec::new();
    r.push(Table::new_shift_check());
    r.push(Table::new_normalisation(bit_size + 1));
    r.push(Table::new_zero_check());
    r.push(Table::new_signed_zero_check());
    r
}

impl RMSNorm<Element> {
    /// What the layer looks up and commits to, for the data to be proved. A layer that has
    /// not been quantised is refused.
    pub fn lookup_witness(
        &self,
        data: &RMSNormProvingData,
        input: &Tensor<Element>,
    ) -> (r: Result<LookupParts, Error>)
        requires
            input.wf(),
            input.shape@.len() >= 1,
            matrix_count(input.shape@) <= usize::MAX,
            data.normalisation.data@.len() == row_count(input.shape@),
            1 <= data.lookup_verifier.right_shift <= 62,
            self.normalisation_scaling_factor matches Some(s) ==> s.bit_size <= 62,
            tokens_of(input.shape@) > 0,
            next_pow2(tokens_of(input.shape@) as nat) <= usize::MAX,
            can_rescale(
                input.data@,
                input.shape@.last() as int,
                data.normalisation.data@,
                None,
                rounding_of(data.lookup_verifier.right_shift as int),
            ),
        ensures
            match r {
                Ok(parts) => {
                    let n = tokens_of(input.shape@) as int;
                    let m = data.normalisation.data@;
                    &&& self.input_scaling_factor is Some
                    &&& self.normalisation_scaling_factor is Some
                    &&& is_scaled(*input, m, None, parts.scaled_input)
                    &&& is_normalised(
                        *input,
                        m,
                        None,
                        rounding_of(data.lookup_verifier.right_shift as int),
                        data.lookup_verifier.right_shift as nat,
                        self.domain(),
                        parts.output,
                    )
                    &&& parts.number_of_chunks == matrix_count(input.shape@)
                    &&& parts.columns@.len() == column_count(m.len() as int, n)
                    &&& forall|k: int|
                        0 <= k < parts.columns@.len() ==> (#[trigger] parts.columns@[k])@
                            == padded_columns(m, n, k)
                    &&& parts.tables@ == tables_for(
                        self.normalisation_scaling_factor->Some_0.bit_size,
                    )
                },
                Err(e) => {
                    &&& e == Error::NotQuantised
                    &&& self.input_scaling_factor is None || self.normalisation_scaling_factor is None
                },
            },
    {
        let (_input_scaling, normalisation_scaling) = match self.get_quantisation_scaling_factors() {
            Some(s) => s,
            None => {
                return Err(Error::NotQuantised);
            },
        };
        let domain = normalisation_domain(normalisation_scaling.bit_size + 1);
        let output = data.apply(input, domain);
        let scaled_input = scale_rows(
            input,
            &data.normalisation.data,
            None,
            Ghost(rounding_of(data.lookup_verifier.right_shift as int)),
        );
        let columns = RMSNorm::multiplier_columns(data, &input.shape);
        Ok(
            LookupParts {
                scaled_input,
                output,
                number_of_chunks: count_matrices(&input.shape),
                columns,
                tables: lookup_tables_for(normalisation_scaling.bit_size),
            },
        )
    }
}

impl LayerNorm<Element> {
    /// What the layer looks up and commits to, for the data to be proved: the columns are
    /// those of the multipliers and, after them, those of the means. A layer that has not
    /// been quantised is refused.
    pub fn lookup_witness(
        &self,
        data: &LayerNormProvingData,
        input: &Tensor<Element>,
    ) -> (r: Result<LookupParts, Error>)
        requires
            input.wf(),
            input.shape@.len() >= 1,
            matrix_count(input.shape@) <= usize::MAX,
            data.std_dev.data@.len() == row_count(input.shape@),
            data.mean.data@.len() == row_count(input.shape@),
            1 <= data.lookup_verifier.right_shift <= 62,
            self.normalisation_scaling_factor matches Some(s) ==> s.bit_size <= 62,
            tokens_of(input.shape@) > 0,
            next_pow2(tokens_of(input.shape@) as nat) <= usize::MAX,
            can_rescale(
                input.data@,
                input.shape@.last() as int,
                data.std_dev.data@,
                Some(data.mean.data@),
                rounding_of(data.lookup_verifier.right_shift as int),
            ),
        ensures
            match r {
                Ok(parts) => {
                    let n = tokens_of(input.shape@) as int;
                    let (m, c) = (data.std_dev.data@, data.mean.data@);
                    let k = column_count(m.len() as int, n);
                    &&& self.mean_scaling_factor is Some
                    &&& self.normalisation_scaling_factor is Some
                    &&& is_scaled(*input, m, Some(c), parts.scaled_input)
                    &&& is_normalised(
                        *input,
                        m,
                        Some(c),
                        rounding_of(data.lookup_verifier.right_shift as int),
                        data.lookup_verifier.right_shift as nat,
                        self.domain(),
                        parts.output,
                    )
                    &&& parts.number_of_chunks == matrix_count(input.shape@)
                    &&& parts.columns@.len() == k + k
                    &&& forall|i: int|
                        0 <= i < parts.columns@.len() ==> (#[trigger] parts.columns@[i])@ == if i
                            < k {
                            padded_columns(m, n, i)
                        } else {
                            padded_columns(c, n, i - k)
                        }
                    &&& parts.tables@ == tables_for(
                        self.normalisation_scaling_factor->Some_0.bit_size,
                    )
                },
                Err(e) => {
                    &&& e == Error::NotQuantised
                    &&& self.mean_scaling_factor is None || self.normalisation_scaling_factor is None
                },
            },
    {
        let (_mean_scaling, normalisation_scaling) = match self.get_quantisation_scaling_factors() {
            Some(s) => s,
            None => {
                return Err(Error::NotQuantised);
            },
        };
        let domain = normalisation_domain(normalisation_scaling.bit_size + 1);
        let output = data.apply(input, domain);
        let scaled_input = scale_rows(
            input,
            &data.std_dev.data,
            Some(&data.mean.data),
            Ghost(rounding_of(data.lookup_verifier.right_shift as int)),
        );
        let (multipliers, means) = data.columns(&input.shape);
        let mut columns = multipliers;
        let mut means = means;
        columns.append(&mut means);
        Ok(
            LookupParts {
                scaled_input,
                output,
                number_of_chunks: count_matrices(&input.shape),
                columns,
                tables: lookup_tables_for(normalisation_scaling.bit_size),
            },
        )
    }
}

impl<N> RMSNorm<N> {
    /// Adds the counts of the check on the squares of the rows, which come first, to the
    /// counts of the first table.
    pub fn merge_normalisation_counts(
        element_counts: &mut HashMap<Element, u64>,
        norm_counts: &Vec<Vec<(Element, u64)>>,
    )
        requires
            norm_counts@.len() > 0,
            forall|v: Element|
                #[trigger] counted(old(element_counts)@, v) + entry_total(norm_counts@[0]@, v)
                    <= u64::MAX,
        ensures
            forall|v: Element|
                #[trigger] counted(final(element_counts)@, v) == counted(old(element_counts)@, v)
                    + entry_total(norm_counts@[0]@, v),
    {
        merge_counts(element_counts, &norm_counts[0]);
    }
}

impl<N> LayerNorm<N> {
    /// Adds the counts of the checks on the squares and on the sums of the rows to the
    /// counts of the first table.
    pub fn merge_normalisation_counts(
        element_counts: &mut HashMap<Element, u64>,
        norm_counts: &Vec<Vec<(Element, u64)>>,
    )
        requires
            forall|v: Element|
                #[trigger] counted(old(element_counts)@, v) + all_entries(norm_counts@, v)
                    <= u64::MAX,
        ensures
            forall|v: Element|
                #[trigger] counted(final(element_counts)@, v) == counted(old(element_counts)@, v)
                    + all_entries(norm_counts@, v),
    {
        merge_all_counts(element_counts, norm_counts);
    }
}

/// Adds lists of counts to the counts of a table.
fn merge_all_counts(
    element_counts: &mut HashMap<Element, u64>,
    norm_counts: &Vec<Vec<(Element, u64)>>,
)
    requires
        forall|v: Element|
            #[trigger] counted(old(element_counts)@, v) + all_entries(norm_counts@, v) <= u64::MAX,
    ensures
        forall|v: Element|
            #[trigger] counted(final(element_counts)@, v) == counted(old(element_counts)@, v)
                + all_entries(norm_counts@, v),
{
    let ghost start = element_counts@;
    assert(norm_counts@.take(0) =~= Seq::<Vec<(Element, u64)>>::empty());
    for i in 0..norm_counts.len()
        invariant
            start == old(element_counts)@,
            forall|v: Element|
                #[trigger] counted(start, v) + all_entries(norm_counts@, v) <= u64::MAX,
            forall|v: Element|
                #[trigger] counted(element_counts@, v) == counted(start, v) + all_entries(
                    norm_counts@.take(i as int),
                    v,
                ),
    {
        proof {
            let next = norm_counts@.take(i + 1);
            assert(next.drop_last() =~= norm_counts@.take(i as int));
            assert(next.last() == norm_counts@[i as int]);
            assert forall|v: Element|
                #[trigger] counted(element_counts@, v) + entry_total(norm_counts@[i as int]@, v)
                    <= u64::MAX by {
                lemma_all_entries(norm_counts@, i + 1, v);
                assert(counted(start, v) + all_entries(norm_counts@, v) <= u64::MAX);
            }
        }
        let ghost before = element_counts@;
        merge_counts(element_counts, &norm_counts[i]);
        proof {
            assert forall|v: Element| #[trigger] counted(element_counts@, v) == counted(start, v)
                + all_entries(norm_counts@.take(i + 1), v) by {
                assert(counted(before, v) == counted(start, v) + all_entries(
                    norm_counts@.take(i as int),
                    v,
                ));
            }
        }
    }
    assert(norm_counts@.take(norm_counts@.len() as int) =~= norm_counts@);
}

/// How often lists of entries count `v`.
pub open spec fn all_entries(lists: Seq<Vec<(Element, u64)>>, v: Element) -> int
    decreases lists.len(),
{
    if lists.len() == 0 {
        0
    } else {
        all_entries(lists.drop_last(), v) + entry_total(lists.last()@, v)
    }
}

/// Lists never count less than their first ones.
proof fn lemma_all_entries(lists: Seq<Vec<(Element, u64)>>, k: int, v: Element)
    requires
        0 <= k <= lists.len(),
    ensures
        all_entries(lists.take(k), v) <= all_entries(lists, v),
    decreases lists.len(),
{
    if k == lists.len() {
        assert(lists.take(k) =~= lists);
    } else {
        lemma_all_entries(lists.drop_last(), k, v);
        assert(lists.drop_last().take(k) =~= lists.take(k));
        lemma_entry_total(lists.last()@, 0, v);
    }
}

} // verus!
