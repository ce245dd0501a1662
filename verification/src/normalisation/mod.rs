//! Layers that normalise the rows of a tensor.
use vstd::prelude::*;
use vstd::arithmetic::div_mod::*;
use vstd::arithmetic::power2::{lemma2_to64, lemma2_to64_rest, lemma_pow2_pos, lemma_pow2_strictly_increases, pow2};
use crate::linear::fits;
use crate::mle::{lemma_halves, lemma_pow2_unfold_zero};
use crate::shape::{next_pow2, next_power_of_two, numel, Shape};
use crate::sum::sum;
use crate::tensor::{lemma_numel_zero, Element, Tensor};

pub mod laws;
pub mod layernorm;
pub mod lookup;
pub mod rmsnorm;

verus! {

/// The quantised values that a tensor takes, and how many bits they have.
#[derive(Clone, Copy, Debug, PartialEq, Eq, Structural)]
pub struct Scaling {
    pub min: Element,
    pub max: Element,
    pub bit_size: usize,
}

/// The largest shift that was seen since the last reset, so that a sequence that is
/// taken token by token is shifted as one that is taken whole.
#[derive(Clone, Copy, Debug, PartialEq, Eq, Structural)]
pub struct NormalisationCache {
    pub max_shift: Element,
    pub initialized: bool,
}

impl NormalisationCache {
    /// The cache once it has seen the shifts, one after the other.
    pub open spec fn after(self, shifts: Seq<Element>) -> NormalisationCache
        decreases shifts.len(),
    {
        if shifts.len() == 0 {
            self
        } else {
            let c = self.after(shifts.drop_last());
            let s = shifts.last();
            if !c.initialized || s > c.max_shift {
                NormalisationCache { max_shift: s, initialized: true }
            } else {
                c
            }
        }
    }

    pub fn new() -> (r: Self)
        ensures
            r == (NormalisationCache { max_shift: 0, initialized: false }),
    {
        NormalisationCache { max_shift: 0, initialized: false }
    }

    /// Takes a shift into account.
    pub fn update(&mut self, shift: Element)
        ensures
            *final(self) == old(self).after(seq![shift]),
    {
        proof {
            reveal_with_fuel(NormalisationCache::after, 2);
            assert(seq![shift].drop_last() =~= Seq::<Element>::empty());
        }
        if !self.initialized || shift > self.max_shift {
            self.max_shift = shift;
            self.initialized = true;
        }
    }

    /// The largest shift.
    pub fn get_shift(&self) -> (r: Element)
        ensures
            r == self.max_shift,
    {
        self.max_shift
    }

    /// Forgets the shifts.
    pub fn reset(&mut self)
        ensures
            *final(self) == (NormalisationCache { max_shift: 0, initialized: false }),
    {
        self.max_shift = 0;
        self.initialized = false;
    }
}

/// The cache holds the largest shift: no shift since the last reset is larger, and it
/// is one of them.
pub proof fn law_largest_shift(shifts: Seq<Element>)
    requires
        shifts.len() > 0,
    ensures
        ({
            let c = NormalisationCache { max_shift: 0, initialized: false }.after(shifts);
            &&& c.initialized
            &&& shifts.contains(c.max_shift)
            &&& forall|i: int| 0 <= i < shifts.len() ==> #[trigger] shifts[i] <= c.max_shift
        }),
    decreases shifts.len(),
{
    let start = NormalisationCache { max_shift: 0, initialized: false };
    let rest = shifts.drop_last();
    let c = start.after(shifts);
    assert(shifts[shifts.len() - 1] == shifts.last());
    if rest.len() == 0 {
        assert(start.after(rest) == start);
        assert(c.max_shift == shifts[0]);
    } else {
        law_largest_shift(rest);
        let d = start.after(rest);
        let k = choose|k: int| 0 <= k < rest.len() && rest[k] == d.max_shift;
        assert(shifts[k] == rest[k]);
        assert forall|i: int| 0 <= i < shifts.len() implies #[trigger] shifts[i] <= c.max_shift by {
            if i < rest.len() {
                assert(rest[i] == shifts[i]);
            }
        }
    }
}

/// To see shifts one batch after the other is to see them all at once: the largest
/// shift of a sequence does not depend on how its tokens come.
pub proof fn law_shifts_in_batches(c: NormalisationCache, a: Seq<Element>, b: Seq<Element>)
    ensures
        c.after(a).after(b) == c.after(a + b),
    decreases b.len(),
{
    if b.len() == 0 {
        assert(a + b =~= a);
    } else {
        law_shifts_in_batches(c, a, b.drop_last());
        assert((a + b).drop_last() =~= a + b.drop_last());
        assert((a + b).last() == b.last());
    }
}

/// The least and the largest value of the given number of bits.
pub open spec fn domain_of(bits: int) -> (Element, Element) {
    let half = pow2((bits - 1) as nat) as int;
    ((-half) as Element, (half - 1) as Element)
}

/// The least and the largest value of the given number of bits.
pub fn normalisation_domain(bits: usize) -> (r: (Element, Element))
    requires
        1 <= bits <= 63,
    ensures
        r.0 == -pow2((bits - 1) as nat),
        r.1 == pow2((bits - 1) as nat) - 1,
        r == domain_of(bits as int),
{
    let half = small_power((bits - 1) as usize);
    (-half, half - 1)
}

/// A power of two that fits into an element.
pub(crate) fn small_power(k: usize) -> (r: Element)
    requires
        k <= 62,
    ensures
        r == pow2(k as nat),
        r > 0,
{
    let mut r: Element = 1;
    proof {
        lemma_pow2_unfold_zero();
    }
    for i in 0..k
        invariant
            k <= 62,
            r == pow2(i as nat),
            r > 0,
    {
        proof {
            lemma_halves((i + 1) as nat);
            lemma2_to64();
            lemma2_to64_rest();
            if i + 1 < 62 {
                lemma_pow2_strictly_increases((i + 1) as nat, 62);
            }
        }
        r = r * 2;
    }
    r
}

/// What is added before a shift, so that values are rounded: half of what the shift
/// divides by.
pub open spec fn rounding_of(shift: int) -> int {
    pow2((shift - 1) as nat) as int
}

/// What is added before a shift, so that values are rounded.
pub(crate) fn rounding_for(shift: Element) -> (r: Element)
    requires
        1 <= shift <= 62,
    ensures
        r == rounding_of(shift as int),
{
    small_power((shift - 1) as usize)
}

/// The largest integer whose product with a power of two does not exceed `x`.
pub(crate) fn floor_shift(x: Element, s: usize) -> (r: Element)
    requires
        s <= 62,
    ensures
        r == x as int / pow2(s as nat) as int,
{
    let d = small_power(s) as u64;
    let ghost m = pow2(s as nat) as int;
    if x >= 0 {
        let q: u64 = x as u64 / d;
        proof {
            lemma_div_is_ordered_by_denominator(x as int, 1, m);
        }
        q as Element
    } else {
        let y: u64 = (-(x + 1)) as u64;
        let q: u64 = y / d;
        proof {
            let (yy, qq) = (y as int, q as int);
            lemma_div_is_ordered_by_denominator(yy, 1, m);
            lemma_fundamental_div_mod(yy, m);
            lemma_mod_bound(yy, m);
            let rem = m - 1 - yy % m;
            assert(x as int == (-qq - 1) * m + rem) by (nonlinear_arith)
                requires
                    x == -yy - 1,
                    yy == m * qq + yy % m,
                    rem == m - 1 - yy % m,
            ;
            lemma_fundamental_div_mod_converse(x as int, m, -qq - 1, rem);
        }
        -(q as Element) - 1
    }
}

/// The row of a tensor that place `p` lies in.
pub open spec fn row_of(w: int, p: int) -> int {
    p / w
}

/// The sum of the values of row `i`.
pub open spec fn row_total(x: Seq<Element>, w: int, i: int, n: nat) -> int {
    sum(n, |j: int| x[i * w + j] as int)
}

/// The sum of the squares of the values of row `i`.
pub open spec fn row_squares(x: Seq<Element>, w: int, i: int, n: nat) -> int {
    sum(n, |j: int| x[i * w + j] * x[i * w + j])
}

/// The number of rows of a tensor.
pub open spec fn row_count(d: Seq<usize>) -> int {
    numel(d.drop_last()) as int
}

/// The number of rows of a tensor.
pub fn count_rows(shape: &Shape, len: usize) -> (r: usize)
    requires
        shape@.len() >= 1,
        shape@.last() > 0,
        len == numel(shape@),
    ensures
        r == row_count(shape@),
        r * shape@.last() == len,
{
    let w: usize = shape.dims[shape.rank() - 1];
    proof {
        let a = numel(shape@.drop_last()) as int;
        lemma_fundamental_div_mod_converse(len as int, w as int, a, 0);
    }
    len / w
}

/// The sums of the values of the rows.
pub fn row_sums(input: &Tensor<Element>) -> (r: Vec<Element>)
    requires
        input.wf(),
        input.shape@.len() >= 1,
        input.shape@.last() > 0,
        forall|i: int, n: nat|
            0 <= i < row_count(input.shape@) && n <= input.shape@.last() ==> fits(
                #[trigger] row_total(input.data@, input.shape@.last() as int, i, n),
            ),
    ensures
        r@.len() == row_count(input.shape@),
        forall|i: int|
            0 <= i < r@.len() ==> #[trigger] r@[i] == row_total(
                input.data@,
                input.shape@.last() as int,
                i,
                input.shape@.last() as nat,
            ),
{
    let w: usize = input.shape.dims[input.shape.rank() - 1];
    let rows = count_rows(&input.shape, input.data.len());
    let ghost x = input.data@;
    let mut r: Vec<Element> = Vec::new();
    for i in 0..rows
        invariant
            x == input.data@,
            x.len() == rows * w,
            forall|i: int, n: nat|
                0 <= i < rows && n <= w ==> fits(#[trigger] row_total(x, w as int, i, n)),
            r@.len() == i,
            forall|k: int| 0 <= k < i ==> #[trigger] r@[k] == row_total(x, w as int, k, w as nat),
    {
        let mut acc: Element = 0;
        let ghost f = |j: int| x[i * w as int + j] as int;
        for j in 0..w
            invariant
                x == input.data@,
                x.len() == rows * w,
                0 <= i < rows,
                forall|i: int, n: nat|
                    0 <= i < rows && n <= w ==> fits(#[trigger] row_total(x, w as int, i, n)),
                acc == row_total(x, w as int, i as int, j as nat),
        {
            proof {
                assert(0 <= i * w && i * w + w <= rows * w) by (nonlinear_arith)
                    requires
                        0 <= i < rows,
                ;
                assert(input.data.len() <= usize::MAX);
                let g = |q: int| x[i as int * w as int + q] as int;
                assert(sum((j + 1) as nat, g) == sum(j as nat, g) + g(j as int));
                assert(fits(row_total(x, w as int, i as int, (j + 1) as nat)));
            }
            acc = acc + input.data[i * w + j];
        }
        r.push(acc);
    }
    r
}

/// The sums of the squares of the values of the rows.
pub fn row_square_sums(input: &Tensor<Element>) -> (r: Vec<Element>)
    requires
        input.wf(),
        input.shape@.len() >= 1,
        input.shape@.last() > 0,
        forall|p: int| 0 <= p < input.data@.len() ==> fits(#[trigger] input.data@[p] * input.data@[p]),
        forall|i: int, n: nat|
            0 <= i < row_count(input.shape@) && n <= input.shape@.last() ==> fits(
                #[trigger] row_squares(input.data@, input.shape@.last() as int, i, n),
            ),
    ensures
        r@.len() == row_count(input.shape@),
        forall|i: int|
            0 <= i < r@.len() ==> #[trigger] r@[i] == row_squares(
                input.data@,
                input.shape@.last() as int,
                i,
                input.shape@.last() as nat,
            ),
{
    let w: usize = input.shape.dims[input.shape.rank() - 1];
    let rows = count_rows(&input.shape, input.data.len());
    let ghost x = input.data@;
    let mut r: Vec<Element> = Vec::new();
    for i in 0..rows
        invariant
            x == input.data@,
            x.len() == rows * w,
            forall|p: int| 0 <= p < x.len() ==> fits(#[trigger] x[p] * x[p]),
            forall|i: int, n: nat|
                0 <= i < rows && n <= w ==> fits(#[trigger] row_squares(x, w as int, i, n)),
            r@.len() == i,
            forall|k: int| 0 <= k < i ==> #[trigger] r@[k] == row_squares(x, w as int, k, w as nat),
    {
        let mut acc: Element = 0;
        for j in 0..w
            invariant
                x == input.data@,
                x.len() == rows * w,
                0 <= i < rows,
                forall|p: int| 0 <= p < x.len() ==> fits(#[trigger] x[p] * x[p]),
                forall|i: int, n: nat|
                    0 <= i < rows && n <= w ==> fits(#[trigger] row_squares(x, w as int, i, n)),
                acc == row_squares(x, w as int, i as int, j as nat),
        {
            proof {
                assert(0 <= i * w && i * w + w <= rows * w) by (nonlinear_arith)
                    requires
                        0 <= i < rows,
                ;
                assert(input.data.len() <= usize::MAX);
                let g = |q: int| x[i as int * w as int + q] * x[i as int * w as int + q];
                assert(sum((j + 1) as nat, g) == sum(j as nat, g) + g(j as int));
                assert(fits(row_squares(x, w as int, i as int, (j + 1) as nat)));
                assert(fits(x[i as int * w as int + j] * x[i as int * w as int + j]));
            }
            let v: Element = input.data[i * w + j];
            acc = acc + v * v;
        }
        r.push(acc);
    }
    r
}

/// How a row is rescaled: by a multiplier and a shift to the right.
#[derive(Clone, Copy, Debug, PartialEq, Eq, Structural)]
pub struct RowScale {
    pub multiplier: Element,
    pub shift: Element,
}

/// The shifts of the rows.
pub open spec fn shifts_of(scales: Seq<RowScale>) -> Seq<Element> {
    Seq::new(scales.len(), |i: int| scales[i].shift)
}

/// The multipliers fit once they are brought to one shift.
pub open spec fn can_align(scales: Seq<RowScale>, shift: Element) -> bool {
    forall|i: int|
        0 <= i < scales.len() ==> {
            let s = #[trigger] scales[i];
            &&& 0 <= shift - s.shift <= 62
            &&& fits(s.multiplier * pow2((shift - s.shift) as nat))
        }
}

/// The multipliers, brought to one shift.
pub open spec fn aligned(scales: Seq<RowScale>, shift: Element) -> Seq<int> {
    Seq::new(
        scales.len(),
        |i: int| scales[i].multiplier * pow2((shift - scales[i].shift) as nat),
    )
}

/// Brings the rows to the largest shift that was seen, the rows among them.
pub fn align(cache: &mut NormalisationCache, scales: &Vec<RowScale>) -> (r: (Vec<Element>, Element))
    requires
        can_align(scales@, old(cache).after(shifts_of(scales@)).max_shift),
    ensures
        *final(cache) == old(cache).after(shifts_of(scales@)),
        r.1 == final(cache).max_shift,
        r.0@.len() == scales@.len(),
        forall|i: int| 0 <= i < scales@.len() ==> #[trigger] r.0@[i] == aligned(scales@, r.1)[i],
{
    let ghost all = shifts_of(scales@);
    assert(all.take(0) =~= Seq::<Element>::empty());
    for i in 0..scales.len()
        invariant
            all == shifts_of(scales@),
            *cache == old(cache).after(all.take(i as int)),
    {
        let ghost before = *cache;
        cache.update(scales[i].shift);
        proof {
            law_shifts_in_batches(*old(cache), all.take(i as int), seq![scales@[i as int].shift]);
            assert(all.take(i as int) + seq![scales@[i as int].shift] =~= all.take(i + 1));
        }
    }
    assert(all.take(all.len() as int) =~= all);
    let shift = cache.get_shift();
    let mut r: Vec<Element> = Vec::new();
    for i in 0..scales.len()
        invariant
            can_align(scales@, shift),
            r@.len() == i,
            forall|k: int| 0 <= k < i ==> #[trigger] r@[k] == aligned(scales@, shift)[k],
    {
        let s = scales[i];
        assert(scales@[i as int] == s);
        let factor = small_power((shift - s.shift) as usize);
        r.push(s.multiplier * factor);
    }
    (r, shift)
}

/// A value, rescaled: multiplied, less the mean, rounded and shifted to the right.
pub open spec fn rescaled(x: int, m: int, mean: int, rounding: int, shift: nat) -> int {
    (x * m - mean + rounding) / pow2(shift) as int
}

/// The value of the domain that is nearest to `v`.
pub open spec fn clamped(v: int, lo: int, hi: int) -> int {
    if v < lo {
        lo
    } else if v > hi {
        hi
    } else {
        v
    }
}

/// The mean of a row, where means are taken off.
pub open spec fn mean_of(mean: Option<Seq<Element>>, i: int) -> int {
    match mean {
        Some(m) => m[i] as int,
        None => 0,
    }
}

/// The rows can be rescaled without overflow.
pub open spec fn can_rescale(
    x: Seq<Element>,
    w: int,
    mult: Seq<Element>,
    mean: Option<Seq<Element>>,
    rounding: int,
) -> bool {
    forall|p: int|
        0 <= p < x.len() ==> {
            let i = row_of(w, p);
            let y = #[trigger] x[p] * mult[i];
            &&& fits(y)
            &&& fits(y - mean_of(mean, i))
            &&& fits(y - mean_of(mean, i) + rounding)
        }
}

/// The tensor `r` holds the rescaled values, clamped to the domain.
pub open spec fn is_normalised(
    input: Tensor<Element>,
    mult: Seq<Element>,
    mean: Option<Seq<Element>>,
    rounding: int,
    shift: nat,
    domain: (Element, Element),
    r: Tensor<Element>,
) -> bool {
    let w = input.shape@.last() as int;
    &&& r.wf()
    &&& r.shape@ == input.shape@
    &&& r.unpadded_shape@ == input.unpadded_shape@
    &&& r.data@.len() == input.data@.len()
    &&& forall|p: int|
        0 <= p < input.data@.len() ==> #[trigger] r.data@[p] == clamped(
            rescaled(
                input.data@[p] as int,
                mult[row_of(w, p)] as int,
                mean_of(mean, row_of(w, p)),
                rounding,
                shift,
            ),
            domain.0 as int,
            domain.1 as int,
        )
}

/// The values of an optional vector.
pub open spec fn optional_values(v: Option<&Vec<Element>>) -> Option<Seq<Element>> {
    match v {
        Some(x) => Some(x@),
        None => None,
    }
}

/// Rescales the rows of a tensor and clamps their values to the domain.
pub fn normalise_rows(
    input: &Tensor<Element>,
    mult: &Vec<Element>,
    mean: Option<&Vec<Element>>,
    rounding: Element,
    shift: usize,
    domain: (Element, Element),
) -> (r: Tensor<Element>)
    requires
        input.wf(),
        input.shape@.len() >= 1,
        mult@.len() == row_count(input.shape@),
        mean matches Some(m) ==> m@.len() == row_count(input.shape@),
        shift <= 62,
        can_rescale(
            input.data@,
            input.shape@.last() as int,
            mult@,
            optional_values(mean),
            rounding as int,
        ),
    ensures
        is_normalised(
            *input,
            mult@,
            optional_values(mean),
            rounding as int,
            shift as nat,
            domain,
            r,
        ),
{
    let w: usize = input.shape.dims[input.shape.rank() - 1];
    let ghost mv = optional_values(mean);
    let ghost rows = row_count(input.shape@);
    let mut data: Vec<Element> = Vec::new();
    for p in 0..input.data.len()
        invariant
            input.wf(),
            input.shape@.len() >= 1,
            w == input.shape@.last(),
            rows == row_count(input.shape@),
            mult@.len() == rows,
            mean matches Some(m) ==> m@.len() == rows,
            mv == optional_values(mean),
            shift <= 62,
            can_rescale(input.data@, w as int, mult@, mv, rounding as int),
            data@.len() == p,
            forall|q: int|
                0 <= q < p ==> #[trigger] data@[q] == clamped(
                    rescaled(
                        input.data@[q] as int,
                        mult@[row_of(w as int, q)] as int,
                        mean_of(mv, row_of(w as int, q)),
                        rounding as int,
                        shift as nat,
                    ),
                    domain.0 as int,
                    domain.1 as int,
                ),
    {
        proof {
            let d = input.shape@;
            if w == 0 {
                lemma_numel_zero(d, d.len() - 1);
            }
            let i = p as int / w as int;
            lemma_fundamental_div_mod(p as int, w as int);
            lemma_mod_bound(p as int, w as int);
            assert(0 <= i < rows) by (nonlinear_arith)
                requires
                    p == w * i + p as int % w as int,
                    0 <= p < rows * w,
                    0 <= p as int % w as int,
                    (p as int % w as int) < w,
            ;
            assert(fits(input.data@[p as int] * mult@[row_of(w as int, p as int)]));
        }
        let i: usize = p / w;
        let y: Element = input.data[p] * mult[i];
        let z: Element = match mean {
            Some(m) => y - m[i],
            None => y,
        };
        let v = floor_shift(z + rounding, shift);
        let c: Element = if v < domain.0 {
            domain.0
        } else if v > domain.1 {
            domain.1
        } else {
            v
        };
        data.push(c);
    }
    Tensor { data, shape: input.shape.clone(), unpadded_shape: input.unpadded_shape.clone() }
}

/// The tensor `r` holds the values of `t`, each multiplied by the factor of its column,
/// with the bias of its column added.
pub open spec fn is_affine_rows(
    t: Tensor<Element>,
    gamma: Seq<Element>,
    beta: Option<Seq<Element>>,
    r: Tensor<Element>,
) -> bool {
    let w = t.shape@.last() as int;
    &&& r.wf()
    &&& r.shape@ == t.shape@
    &&& r.unpadded_shape@ == t.unpadded_shape@
    &&& r.data@.len() == t.data@.len()
    &&& forall|p: int|
        0 <= p < t.data@.len() ==> #[trigger] r.data@[p] == t.data@[p] * gamma[p % w] + mean_of(
            beta,
            p % w,
        )
}

/// The columns can be multiplied without overflow.
pub open spec fn can_scale_columns(
    t: Seq<Element>,
    w: int,
    gamma: Seq<Element>,
    beta: Option<Seq<Element>>,
) -> bool {
    forall|p: int|
        0 <= p < t.len() ==> {
            let y = #[trigger] t[p] * gamma[p % w];
            fits(y) && fits(y + mean_of(beta, p % w))
        }
}

/// Multiplies each column by its factor and adds its bias.
pub fn scale_columns(t: &Tensor<Element>, gamma: &Vec<Element>, beta: Option<&Vec<Element>>) -> (r:
    Tensor<Element>)
    requires
        t.wf(),
        t.shape@.len() >= 1,
        gamma@.len() == t.shape@.last(),
        beta matches Some(b) ==> b@.len() == t.shape@.last(),
        can_scale_columns(t.data@, t.shape@.last() as int, gamma@, optional_values(beta)),
    ensures
        is_affine_rows(*t, gamma@, optional_values(beta), r),
{
    let w: usize = t.shape.dims[t.shape.rank() - 1];
    let ghost bv = optional_values(beta);
    let mut data: Vec<Element> = Vec::new();
    for p in 0..t.data.len()
        invariant
            t.wf(),
            t.shape@.len() >= 1,
            w == t.shape@.last(),
            gamma@.len() == w,
            beta matches Some(b) ==> b@.len() == w,
            bv == optional_values(beta),
            can_scale_columns(t.data@, w as int, gamma@, bv),
            data@.len() == p,
            forall|q: int|
                0 <= q < p ==> #[trigger] data@[q] == t.data@[q] * gamma@[q % w as int] + mean_of(
                    bv,
                    q % w as int,
                ),
    {
        proof {
            let d = t.shape@;
            if w == 0 {
                lemma_numel_zero(d, d.len() - 1);
            }
            lemma_mod_bound(p as int, w as int);
            assert(fits(t.data@[p as int] * gamma@[p as int % w as int]));
        }
        let j: usize = p % w;
        let y: Element = t.data[p] * gamma[j];
        let z: Element = match beta {
            Some(b) => y + b[j],
            None => y,
        };
        data.push(z);
    }
    Tensor { data, shape: t.shape.clone(), unpadded_shape: t.unpadded_shape.clone() }
}

/// The values `v`, in columns of `n` values, each padded with zeros.
pub open spec fn padded_columns(v: Seq<Element>, n: int, k: int) -> Seq<Element> {
    Seq::new(
        next_pow2(n as nat),
        |i: int|
            if i < n && k * n + i < v.len() {
                v[k * n + i]
            } else {
                0
            },
    )
}

/// The number of columns of `n` values that `len` values fill, the last perhaps not
/// wholly.
pub open spec fn column_count(len: int, n: int) -> int {
    if len % n == 0 {
        len / n
    } else {
        len / n + 1
    }
}

/// The values in columns of `n` values, each padded with zeros to a power of two.
pub fn to_columns(v: &Vec<Element>, n: usize) -> (r: Vec<Vec<Element>>)
    requires
        n > 0,
        next_pow2(n as nat) <= usize::MAX,
    ensures
        r@.len() == column_count(v@.len() as int, n as int),
        forall|k: int|
            0 <= k < r@.len() ==> (#[trigger] r@[k])@ == padded_columns(v@, n as int, k),
{
    let size = next_power_of_two(n);
    let len: usize = v.len();
    proof {
        lemma_fundamental_div_mod(len as int, n as int);
        let (q, m) = (len as int / n as int, n as int);
        lemma_mod_bound(len as int, m);
        lemma_div_pos_is_pos(len as int, m);
        assert(q <= m * q) by (nonlinear_arith)
            requires
                m >= 1,
                q >= 0,
        ;
        assert(0 * n == 0);
    }
    let count: usize = if len % n == 0 {
        len / n
    } else {
        len / n + 1
    };
    let mut r: Vec<Vec<Element>> = Vec::new();
    let mut start: usize = 0;
    for k in 0..count
        invariant
            n > 0,
            len == v@.len(),
            size == next_pow2(n as nat),
            count == column_count(len as int, n as int),
            start == k * n || k == count,
            r@.len() == k,
            forall|q: int|
                0 <= q < k ==> (#[trigger] r@[q])@ == padded_columns(v@, n as int, q),
    {
        let mut column: Vec<Element> = Vec::new();
        let ghost goal = padded_columns(v@, n as int, k as int);
        proof {
            lemma_fundamental_div_mod(len as int, n as int);
            lemma_mod_bound(len as int, n as int);
            let (q, m) = (len as int / n as int, n as int);
            assert(k * n <= len) by (nonlinear_arith)
                requires
                    len == m * q + len as int % m,
                    0 <= len as int % m,
                    k <= q,
                    m == n,
                    n > 0,
            ;
        }
        for i in 0..size
            invariant
                len == v@.len(),
                start == k * n,
                start <= len,
                size == next_pow2(n as nat),
                goal == padded_columns(v@, n as int, k as int),
                column@ == goal.take(i as int),
        {
            let x: Element = if i < n && i < len - start {
                v[start + i]
            } else {
                0
            };
            column.push(x);
            assert(goal.take(i + 1) =~= goal.take(i as int).push(goal[i as int]));
        }
        assert(goal.take(size as int) =~= goal);
        r.push(column);
        if k + 1 < count {
            proof {
                let (q, m) = (len as int / n as int, n as int);
                lemma_fundamental_div_mod(len as int, n as int);
                assert((k + 1) * n <= len) by (nonlinear_arith)
                    requires
                        len == m * q + len as int % m,
                        0 <= len as int % m,
                        k + 1 <= q,
                        m == n,
                        n > 0,
                ;
                assert((k + 1) * n == k * n + n) by (nonlinear_arith);
            }
            start = start + n;
        }
    }
    r
}

/// A sequence that is taken token by token is rescaled, at its last tokens, as one
/// that is taken whole.
pub proof fn law_token_by_token(c: NormalisationCache, a: Seq<RowScale>, b: Seq<RowScale>)
    ensures
        ({
            let whole = c.after(shifts_of(a + b)).max_shift;
            let last = c.after(shifts_of(a)).after(shifts_of(b)).max_shift;
            &&& last == whole
            &&& aligned(a + b, whole).skip(a.len() as int) == aligned(b, last)
        }),
{
    law_shifts_in_batches(c, shifts_of(a), shifts_of(b));
    assert(shifts_of(a) + shifts_of(b) =~= shifts_of(a + b));
    let whole = c.after(shifts_of(a + b)).max_shift;
    assert(aligned(a + b, whole).skip(a.len() as int) =~= aligned(b, whole));
}

/// A row of zeros stays a row of zeros, where the rounding is less than one.
pub proof fn law_zero_row(m: int, rounding: int, shift: nat, lo: int, hi: int)
    requires
        0 <= rounding < pow2(shift),
        lo <= 0 <= hi,
    ensures
        clamped(rescaled(0, m, 0, rounding, shift), lo, hi) == 0,
{
    assert(0 * m == 0) by (nonlinear_arith);
    lemma_basic_div(rounding, pow2(shift) as int);
}

/// A rescaled value is the quotient, rounded to the nearest integer, where the rounding
/// is half of what is divided by.
pub proof fn law_rounded(x: int, m: int, mean: int, shift: nat)
    requires
        shift > 0,
    ensures
        ({
            let d = pow2(shift) as int;
            let r = rescaled(x, m, mean, pow2((shift - 1) as nat) as int, shift);
            -d <= 2 * (x * m - mean - r * d) && 2 * (x * m - mean - r * d) < d
        }),
{
    let d = pow2(shift) as int;
    let h = pow2((shift - 1) as nat) as int;
    lemma_halves(shift);
    lemma_pow2_pos(shift);
    let y = x * m - mean + h;
    lemma_fundamental_div_mod(y, d);
    lemma_mod_bound(y, d);
    let r = y / d;
    assert(d * r == r * d) by (nonlinear_arith);
}

} // verus!
