//! Shapes of tensors and positions in them.
use vstd::prelude::*;
use vstd::arithmetic::power2::{lemma2_to64, lemma2_to64_rest, lemma_pow2_pos, lemma_pow2_strictly_increases, pow2};
use vstd::arithmetic::div_mod::*;
use crate::claim::part;
use crate::error::Error;
use crate::mle::{lemma_halves, lemma_pow2_unfold_zero};

verus! {

/// How many bits it takes to count `n` values.
pub open spec fn log2_ceil(n: nat) -> nat
    decreases n,
{
    if n <= 1 {
        0
    } else {
        1 + log2_ceil(((n + 1) / 2) as nat)
    }
}

/// The least power of two that is not below `n`.
pub open spec fn next_pow2(n: nat) -> nat {
    pow2(log2_ceil(n))
}

/// `next_pow2` bounds its argument from above, and is less than twice it.
pub proof fn lemma_next_pow2(n: nat)
    ensures
        n <= next_pow2(n),
        n > 0 ==> next_pow2(n) < 2 * n,
        n > 1 ==> log2_ceil(n) > 0 && pow2((log2_ceil(n) - 1) as nat) < n,
    decreases n,
{
    lemma_pow2_unfold_zero();
    if n > 1 {
        let m = ((n + 1) / 2) as nat;
        lemma_next_pow2(m);
        lemma_halves(log2_ceil(n));
        assert(m >= 1);
        if m > 1 {
            assert(pow2((log2_ceil(m) - 1) as nat) < m);
            lemma_halves(log2_ceil(m));
        }
    }
}

/// No power of two between `n` and `next_pow2(n)` is passed over.
pub proof fn lemma_next_pow2_least(n: nat, k: nat)
    requires
        n <= pow2(k),
    ensures
        log2_ceil(n) <= k,
        next_pow2(n) <= pow2(k),
{
    lemma_next_pow2(n);
    if log2_ceil(n) > k {
        assert(n > 1);
        if log2_ceil(n) - 1 > k {
            lemma_pow2_strictly_increases(k, (log2_ceil(n) - 1) as nat);
        }
    } else if log2_ceil(n) < k {
        lemma_pow2_strictly_increases(log2_ceil(n), k);
    }
}

/// The bits that it takes to count a power of two.
pub proof fn lemma_log2_pow2(k: nat)
    ensures
        log2_ceil(pow2(k)) == k,
        next_pow2(pow2(k)) == pow2(k),
{
    lemma_next_pow2(pow2(k));
    lemma_next_pow2_least(pow2(k), k);
    if log2_ceil(pow2(k)) < k {
        lemma_pow2_strictly_increases(log2_ceil(pow2(k)), k);
    }
}

/// How many bits it takes to count `n` values.
pub fn ceil_log2(n: usize) -> (r: usize)
    ensures
        r == log2_ceil(n as nat),
        r <= 64,
{
    ceil_log2_u64(n as u64)
}

/// How many bits it takes to count `n` values.
pub fn ceil_log2_u64(n: u64) -> (r: usize)
    ensures
        r == log2_ceil(n as nat),
        r <= 64,
{
    let mut r: usize = 0;
    let mut m: u64 = n;
    proof {
        lemma2_to64();
        lemma2_to64_rest();
        lemma_next_pow2_least(n as nat, 64);
    }
    while m > 1
        invariant
            log2_ceil(n as nat) == r + log2_ceil(m as nat),
            log2_ceil(n as nat) <= 64,
        decreases m,
    {
        m = m / 2 + m % 2;
        r += 1;
    }
    r
}

/// The least power of two that is not below `n`.
pub fn next_power_of_two(n: usize) -> (r: usize)
    requires
        next_pow2(n as nat) <= usize::MAX,
    ensures
        r == next_pow2(n as nat),
{
    power_of_two(ceil_log2(n))
}

/// Two to the power of `n`.
pub fn power_of_two(n: usize) -> (r: usize)
    requires
        pow2(n as nat) <= usize::MAX,
    ensures
        r == pow2(n as nat),
{
    let mut r: usize = 1;
    proof {
        lemma_pow2_unfold_zero();
    }
    for i in 0..n
        invariant
            pow2(n as nat) <= usize::MAX,
            r == pow2(i as nat),
    {
        proof {
            lemma_halves((i + 1) as nat);
            if i + 1 < n {
                lemma_pow2_strictly_increases((i + 1) as nat, n as nat);
            }
        }
        r = r * 2;
    }
    r
}

/// The largest exponent of two whose power does not exceed `n`.
pub open spec fn log2_floor(n: nat) -> nat
    decreases n,
{
    if n <= 1 {
        0
    } else {
        1 + log2_floor(n / 2)
    }
}

/// The largest exponent of two whose power does not exceed `n`.
pub fn ilog2(n: usize) -> (r: usize)
    requires
        n > 0,
    ensures
        r == log2_floor(n as nat),
        r < 64,
{
    let mut m: usize = n;
    let mut r: usize = 0;
    let mut limit: u64 = u64::MAX;
    assert(u64::MAX >> 0u64 == u64::MAX) by (bit_vector);
    while m > 1
        invariant
            m <= limit,
            r + log2_floor(m as nat) == log2_floor(n as nat),
            limit == u64::MAX >> (r as u64),
            r < 64,
        decreases m,
    {
        limit = limit / 2;
        proof {
            let s = r as u64;
            assert((u64::MAX >> s) / 2 == u64::MAX >> ((s + 1) as u64)) by (bit_vector)
                requires
                    s < 64,
            ;
            if s == 63 {
                assert(u64::MAX >> 63u64 == 1) by (bit_vector);
            }
        }
        m = m / 2;
        r = r + 1;
    }
    r
}

/// The two logarithms of a power of two are the same.
pub proof fn lemma_log2_floor_pow2(k: nat)
    ensures
        log2_floor(pow2(k)) == k,
    decreases k,
{
    lemma_pow2_unfold_zero();
    if k > 0 {
        lemma_halves(k);
        lemma_log2_floor_pow2((k - 1) as nat);
        lemma_pow2_pos((k - 1) as nat);
        assert(pow2(k) / 2 == pow2((k - 1) as nat));
    }
}

/// Whether `n` is a power of two.
pub fn is_pow2(n: usize) -> (r: bool)
    ensures
        r == (n == pow2(log2_ceil(n as nat))),
{
    proof {
        lemma_pow2_unfold_zero();
    }
    if n == 0 {
        return false;
    }
    let mut m: usize = n;
    while m % 2 == 0
        invariant
            m >= 1,
            (n == pow2(log2_ceil(n as nat))) == (m == pow2(log2_ceil(m as nat))),
        decreases m,
    {
        proof {
            lemma_halves(log2_ceil(m as nat));
        }
        m = m / 2;
    }
    proof {
        if m > 1 {
            lemma_halves(log2_ceil(m as nat));
        }
    }
    m == 1
}

/// The number of values in a tensor of the given dimensions.
pub open spec fn numel(d: Seq<usize>) -> nat
    decreases d.len(),
{
    if d.len() == 0 {
        1
    } else {
        numel(d.drop_last()) * d.last() as nat
    }
}

/// The number of values of a matrix.
pub proof fn lemma_numel_matrix(rows: usize, cols: usize)
    ensures
        numel(seq![rows, cols]) == rows * cols,
        numel(seq![rows]) == rows,
{
    let d = seq![rows, cols];
    let d1 = seq![rows];
    assert(d.drop_last() =~= d1);
    assert(d1.drop_last() =~= Seq::<usize>::empty());
    assert(numel(Seq::<usize>::empty()) == 1);
    assert(numel(d1) == 1 * rows as nat);
    assert(numel(d) == numel(d1) * cols as nat);
}

/// The position `idx` lies inside the dimensions `d`.
pub open spec fn in_bounds(d: Seq<usize>, idx: Seq<int>) -> bool {
    &&& d.len() == idx.len()
    &&& forall|k: int| 0 <= k < d.len() ==> 0 <= #[trigger] idx[k] < d[k]
}

/// Where the position `idx` is stored; the last dimension varies fastest.
pub open spec fn flat(d: Seq<usize>, idx: Seq<int>) -> int
    decreases d.len(),
{
    if d.len() == 0 {
        0
    } else {
        flat(d.drop_last(), idx.drop_last()) * d.last() + idx.last()
    }
}

/// The position that is stored at `p`.
pub open spec fn unflat(d: Seq<usize>, p: int) -> Seq<int>
    decreases d.len(),
{
    if d.len() == 0 {
        Seq::empty()
    } else {
        unflat(d.drop_last(), p / d.last() as int).push(p % d.last() as int)
    }
}

pub proof fn lemma_flat(d: Seq<usize>, idx: Seq<int>)
    requires
        in_bounds(d, idx),
    ensures
        0 <= flat(d, idx) < numel(d),
        unflat(d, flat(d, idx)) == idx,
    decreases d.len(),
{
    if d.len() > 0 {
        let d1 = d.drop_last();
        let i1 = idx.drop_last();
        assert forall|k: int| 0 <= k < d1.len() implies 0 <= #[trigger] i1[k] < d1[k] by {
            assert(0 <= idx[k] < d[k]);
        }
        lemma_flat(d1, i1);
        let l = d.last() as int;
        let x = idx.last();
        assert(0 <= idx[d.len() - 1] < d[d.len() - 1]);
        let f = flat(d1, i1);
        let n = numel(d1) as int;
        assert(0 <= f * l + x < n * l) by (nonlinear_arith)
            requires
                0 <= f < n,
                0 <= x < l,
        ;
        lemma_fundamental_div_mod_converse(f * l + x, l, f, x);
        assert(unflat(d, flat(d, idx)) =~= idx);
    } else {
        assert(unflat(d, flat(d, idx)) =~= idx);
    }
}

/// Where the place of a matrix is stored.
pub proof fn lemma_matrix_place(rows: usize, cols: usize, i: int, j: int)
    requires
        0 <= i < rows,
        0 <= j < cols,
    ensures
        in_bounds(seq![rows, cols], seq![i, j]),
        flat(seq![rows, cols], seq![i, j]) == i * cols + j,
        unflat(seq![rows, cols], i * cols + j) == seq![i, j],
        0 <= i * cols + j < rows * cols,
        numel(seq![rows, cols]) == rows * cols,
{
    let d = seq![rows, cols];
    let idx = seq![i, j];
    let (d1, i1) = (d.drop_last(), idx.drop_last());
    assert(d1.drop_last().len() == 0);
    assert(flat(d1.drop_last(), i1.drop_last()) == 0);
    assert(flat(d1, i1) == 0 * d1.last() + i1.last());
    assert(flat(d1, i1) == i);
    lemma_flat(d, idx);
    lemma_numel_matrix(rows, cols);
}

pub proof fn lemma_unflat_len(d: Seq<usize>, p: int)
    ensures
        unflat(d, p).len() == d.len(),
    decreases d.len(),
{
    if d.len() > 0 {
        lemma_unflat_len(d.drop_last(), p / d.last() as int);
    }
}

pub proof fn lemma_unflat(d: Seq<usize>, p: int)
    requires
        0 <= p < numel(d),
    ensures
        in_bounds(d, unflat(d, p)),
        flat(d, unflat(d, p)) == p,
    decreases d.len(),
{
    if d.len() > 0 {
        let d1 = d.drop_last();
        let l = d.last() as int;
        let n = numel(d1) as int;
        assert(l > 0) by (nonlinear_arith)
            requires
                0 <= p < n * l,
                l >= 0,
        ;
        lemma_fundamental_div_mod(p, l);
        assert(0 <= p / l < n) by (nonlinear_arith)
            requires
                0 <= p < n * l,
                l > 0,
                p == l * (p / l) + p % l,
                0 <= p % l < l,
        ;
        lemma_unflat(d1, p / l);
        let u = unflat(d, p);
        assert(u.drop_last() =~= unflat(d1, p / l));
        assert forall|k: int| 0 <= k < d.len() implies 0 <= #[trigger] u[k] < d[k] by {
            if k < d.len() - 1 {
                assert(u[k] == unflat(d1, p / l)[k]);
                assert(d1[k] == d[k]);
            }
        }
        let q = p / l;
        assert(q * l == l * q) by (nonlinear_arith);
    }
}

/// The number of values does not grow where a dimension is left off, nor where
/// every dimension shrinks.
pub proof fn lemma_numel_mono(d: Seq<usize>, e: Seq<usize>)
    requires
        d.len() == e.len(),
        forall|k: int| 0 <= k < d.len() ==> d[k] <= #[trigger] e[k],
    ensures
        numel(d) <= numel(e),
    decreases d.len(),
{
    if d.len() > 0 {
        let d1 = d.drop_last();
        let e1 = e.drop_last();
        assert forall|k: int| 0 <= k < d1.len() implies d1[k] <= #[trigger] e1[k] by {
            assert(d[k] <= e[k]);
        }
        lemma_numel_mono(d1, e1);
        assert(d[d.len() - 1] <= e[d.len() - 1]);
        let a = numel(d1);
        let b = numel(e1);
        let x = d.last() as nat;
        let y = e.last() as nat;
        assert(a * x <= b * y) by (nonlinear_arith)
            requires
                a <= b,
                x <= y,
        ;
    }
}

/// The dimensions, each raised to the next power of two.
pub open spec fn padded(d: Seq<usize>) -> Seq<usize> {
    Seq::new(d.len(), |k: int| next_pow2(d[k] as nat) as usize)
}

/// The dimensions of a tensor.
#[derive(Debug, PartialEq, Eq)]
pub struct Shape {
    pub dims: Vec<usize>,
}

impl View for Shape {
    type V = Seq<usize>;

    open spec fn view(&self) -> Seq<usize> {
        self.dims@
    }
}

impl Clone for Shape {
    fn clone(&self) -> (r: Self)
        ensures
            r@ == self@,
    {
        let mut dims: Vec<usize> = Vec::new();
        for k in 0..self.dims.len()
            invariant
                dims@ == self.dims@.take(k as int),
        {
            dims.push(self.dims[k]);
            assert(self.dims@.take(k + 1) =~= self.dims@.take(k as int).push(self.dims@[k as int]));
        }
        assert(self.dims@.take(self.dims@.len() as int) =~= self.dims@);
        Shape { dims }
    }
}

impl Shape {
    pub fn new(dims: Vec<usize>) -> (r: Self)
        ensures
            r@ == dims@,
    {
        Shape { dims }
    }

    /// The number of dimensions.
    pub fn rank(&self) -> (r: usize)
        ensures
            r == self@.len(),
    {
        self.dims.len()
    }

    /// Whether two shapes have the same dimensions.
    pub fn same(&self, other: &Shape) -> (r: bool)
        ensures
            r == (self@ == other@),
    {
        if self.dims.len() != other.dims.len() {
            return false;
        }
        for k in 0..self.dims.len()
            invariant
                self.dims.len() == other.dims.len(),
                forall|j: int| 0 <= j < k ==> self.dims@[j] == other.dims@[j],
        {
            if self.dims[k] != other.dims[k] {
                return false;
            }
        }
        assert(self@ =~= other@);
        true
    }

    /// The number of values in a tensor of this shape.
    pub fn numel(&self) -> (r: usize)
        requires
            forall|k: int| 0 <= k <= self@.len() ==> #[trigger] numel(self@.take(k)) <= usize::MAX,
        ensures
            r == numel(self@),
    {
        let mut r: usize = 1;
        for k in 0..self.dims.len()
            invariant
                forall|k: int|
                    0 <= k <= self@.len() ==> #[trigger] numel(self@.take(k)) <= usize::MAX,
                r == numel(self@.take(k as int)),
        {
            assert(self@.take(k + 1).drop_last() =~= self@.take(k as int));
            assert(numel(self@.take(k + 1)) <= usize::MAX);
            r = r * self.dims[k];
        }
        assert(self@.take(self@.len() as int) =~= self@);
        r
    }

    /// The shape with each dimension raised to the next power of two.
    pub fn next_power_of_two(&self) -> (r: Shape)
        requires
            forall|k: int| 0 <= k < self@.len() ==> next_pow2(#[trigger] self@[k] as nat) <= usize::MAX,
        ensures
            r@ == padded(self@),
    {
        let mut dims: Vec<usize> = Vec::new();
        for k in 0..self.dims.len()
            invariant
                forall|k: int|
                    0 <= k < self@.len() ==> next_pow2(#[trigger] self@[k] as nat) <= usize::MAX,
                dims@ == padded(self@).take(k as int),
        {
            assert(next_pow2(self@[k as int] as nat) <= usize::MAX);
            dims.push(next_power_of_two(self.dims[k]));
            assert(padded(self@).take(k + 1) =~= padded(self@).take(k as int).push(
                padded(self@)[k as int],
            ));
        }
        assert(padded(self@).take(self@.len() as int) =~= padded(self@));
        Shape { dims }
    }
}

/// The number of variables of a tensor with the given dimensions, each rounded
/// up to a power of two.
pub open spec fn num_vars(d: Seq<usize>) -> nat
    decreases d.len(),
{
    if d.len() == 0 {
        0
    } else {
        num_vars(d.drop_last()) + log2_ceil(d.last() as nat)
    }
}

/// The coordinates of a point that belong to the dimension `k`. The last
/// dimension has the first coordinates.
pub open spec fn dim_point<F>(d: Seq<usize>, point: Seq<F>, k: int) -> Seq<F> {
    let from = num_vars(d.skip(k + 1));
    point.subrange(from as int, (from + log2_ceil(d[k] as nat)) as int)
}

/// The variables of the dimensions from `k` on are those of dimension `k` and
/// those of the dimensions after it.
pub proof fn lemma_num_vars_skip(d: Seq<usize>, k: int)
    requires
        0 <= k < d.len(),
    ensures
        num_vars(d.skip(k)) == log2_ceil(d[k] as nat) + num_vars(d.skip(k + 1)),
    decreases d.len(),
{
    let s = d.skip(k);
    let t = d.skip(k + 1);
    if t.len() == 0 {
        assert(s.drop_last().len() == 0);
        assert(num_vars(s.drop_last()) == 0);
        assert(s.last() == d[k]);
    } else {
        let d1 = d.drop_last();
        lemma_num_vars_skip(d1, k);
        assert(s.drop_last() =~= d1.skip(k));
        assert(t.drop_last() =~= d1.skip(k + 1));
    }
}

/// The dimensions from `k` on have no more variables than all of them.
pub proof fn lemma_num_vars_split(d: Seq<usize>, k: int)
    requires
        0 <= k <= d.len(),
    ensures
        num_vars(d) == num_vars(d.take(k)) + num_vars(d.skip(k)),
    decreases d.len() - k,
{
    if k == d.len() {
        assert(d.take(k) =~= d);
        assert(num_vars(d.skip(k)) == 0);
    } else {
        lemma_num_vars_split(d, k + 1);
        lemma_num_vars_skip(d, k);
        assert(d.take(k + 1).drop_last() =~= d.take(k));
    }
}

impl Shape {
    /// The number of variables of a tensor of this shape, for each dimension.
    pub fn num_vars(&self) -> (r: Vec<usize>)
        ensures
            r@.len() == self@.len(),
            forall|k: int| 0 <= k < r@.len() ==> #[trigger] r@[k] == log2_ceil(self@[k] as nat),
    {
        let mut r: Vec<usize> = Vec::new();
        for k in 0..self.dims.len()
            invariant
                r@.len() == k,
                forall|j: int| 0 <= j < k ==> #[trigger] r@[j] == log2_ceil(self@[j] as nat),
        {
            r.push(ceil_log2(self.dims[k]));
        }
        r
    }

    /// The coordinates of a point, split by dimension. A point with another
    /// number of coordinates than the shape has variables is refused.
    pub fn split_point<F: Copy>(&self, point: &[F]) -> (r: Result<Vec<Vec<F>>, Error>)
        ensures
            r is Ok <==> point@.len() == num_vars(self@),
            match r {
                Ok(v) => {
                    &&& v@.len() == self@.len()
                    &&& forall|k: int|
                        0 <= k < v@.len() ==> (#[trigger] v@[k])@ == dim_point(self@, point@, k)
                },
                Err(e) => e == Error::WrongPointLength,
            },
    {
        let n: usize = self.dims.len();
        let mut rev: Vec<Vec<F>> = Vec::new();
        let mut from: usize = 0;
        let mut k: usize = n;
        assert(num_vars(self@.skip(n as int)) == 0);
        while k > 0
            invariant
                n == self@.len(),
                k <= n,
                rev@.len() == n - k,
                from == num_vars(self@.skip(k as int)),
                from <= point@.len(),
                forall|j: int|
                    0 <= j < rev@.len() ==> (#[trigger] rev@[j])@ == dim_point(
                        self@,
                        point@,
                        n - 1 - j,
                    ),
            decreases k,
        {
            k -= 1;
            let v = ceil_log2(self.dims[k]);
            proof {
                lemma_num_vars_skip(self@, k as int);
                lemma_num_vars_split(self@, k as int);
            }
            if v > point.len() - from {
                return Err(Error::WrongPointLength);
            }
            rev.push(part(point, from, from + v));
            from += v;
        }
        assert(self@.skip(0) =~= self@);
        if from != point.len() {
            return Err(Error::WrongPointLength);
        }
        let mut r: Vec<Vec<F>> = Vec::new();
        while rev.len() > 0
            invariant
                n == self@.len(),
                rev@.len() + r@.len() == n,
                forall|j: int|
                    0 <= j < rev@.len() ==> (#[trigger] rev@[j])@ == dim_point(
                        self@,
                        point@,
                        n - 1 - j,
                    ),
                forall|j: int|
                    0 <= j < r@.len() ==> (#[trigger] r@[j])@ == dim_point(self@, point@, j),
            decreases rev.len(),
        {
            match rev.pop() {
                Some(p) => {
                    r.push(p);
                },
                None => {},
            }
        }
        Ok(r)
    }
}

/// Where a position is stored.
pub fn ravel(dims: &Vec<usize>, idx: &Vec<usize>) -> (r: usize)
    requires
        in_bounds(dims@, idx@.map_values(|x: usize| x as int)),
        numel(dims@) <= usize::MAX,
    ensures
        r == flat(dims@, idx@.map_values(|x: usize| x as int)),
{
    let ghost i = idx@.map_values(|x: usize| x as int);
    let mut r: usize = 0;
    for k in 0..dims.len()
        invariant
            i == idx@.map_values(|x: usize| x as int),
            in_bounds(dims@, i),
            numel(dims@) <= usize::MAX,
            r == flat(dims@.take(k as int), i.take(k as int)),
    {
        proof {
            let d1 = dims@.take(k + 1);
            let i1 = i.take(k + 1);
            assert(d1.drop_last() =~= dims@.take(k as int));
            assert(i1.drop_last() =~= i.take(k as int));
            lemma_in_bounds_take(dims@, i, k + 1);
            lemma_flat(d1, i1);
            lemma_numel_take(dims@, i, k + 1);
            let a = flat(dims@.take(k as int), i.take(k as int));
            assert(i[k as int] >= 0);
        }
        r = r * dims[k] + idx[k];
    }
    assert(dims@.take(dims@.len() as int) =~= dims@);
    assert(i.take(dims@.len() as int) =~= i);
    r
}

proof fn lemma_in_bounds_take(d: Seq<usize>, idx: Seq<int>, k: int)
    requires
        in_bounds(d, idx),
        0 <= k <= d.len(),
    ensures
        in_bounds(d.take(k), idx.take(k)),
{
    assert forall|j: int| 0 <= j < k implies 0 <= #[trigger] idx.take(k)[j] < d.take(k)[j] by {
        assert(0 <= idx[j] < d[j]);
    }
}

/// Where some position lies inside the dimensions, no product of the first few
/// of them exceeds the product of all.
proof fn lemma_numel_take(d: Seq<usize>, idx: Seq<int>, k: int)
    requires
        in_bounds(d, idx),
        0 <= k <= d.len(),
    ensures
        numel(d.take(k)) <= numel(d),
    decreases d.len() - k,
{
    if k < d.len() {
        lemma_numel_take(d, idx, k + 1);
        assert(d.take(k + 1).drop_last() =~= d.take(k));
        assert(0 <= idx[k] < d[k]);
        let a = numel(d.take(k));
        let x = d[k] as nat;
        assert(a <= a * x) by (nonlinear_arith)
            requires
                x >= 1,
        ;
    } else {
        assert(d.take(k) =~= d);
    }
}

/// The position that is stored at `p`.
pub fn unravel(dims: &Vec<usize>, p: usize) -> (r: Vec<usize>)
    requires
        p < numel(dims@),
    ensures
        r@.map_values(|x: usize| x as int) == unflat(dims@, p as int),
        in_bounds(dims@, r@.map_values(|x: usize| x as int)),
{
    let mut rev: Vec<usize> = Vec::new();
    let mut q: usize = p;
    let mut k: usize = dims.len();
    proof {
        lemma_unflat(dims@, p as int);
        assert(dims@.take(k as int) =~= dims@);
        assert(unflat(dims@, p as int) =~= unflat(dims@, p as int) + Seq::<int>::empty());
    }
    let ghost goal = unflat(dims@, p as int);
    while k > 0
        invariant
            k <= dims.len(),
            rev.len() == dims.len() - k,
            q < numel(dims@.take(k as int)),
            goal.len() == dims.len(),
            goal.take(k as int) == unflat(dims@.take(k as int), q as int),
            forall|j: int| 0 <= j < rev.len() ==> rev@[j] == #[trigger] goal[dims.len() - 1 - j],
        decreases k,
    {
        let ghost d = dims@.take(k as int);
        proof {
            lemma_unflat(d, q as int);
            assert(d.drop_last() =~= dims@.take(k - 1));
            let l = d.last() as int;
            assert(0 <= unflat(d, q as int)[k - 1] < d[k - 1]);
            lemma_unflat_step(d, q as int);
            assert(goal.take(k - 1) =~= goal.take(k as int).drop_last());
            assert(goal[k - 1] == goal.take(k as int)[k - 1]);
        }
        k -= 1;
        rev.push(q % dims[k]);
        q = q / dims[k];
    }
    let mut r: Vec<usize> = Vec::new();
    let n: usize = rev.len();
    for j in 0..n
        invariant
            n == rev.len(),
            n == dims.len(),
            goal.len() == n,
            r.len() == j,
            forall|j: int| 0 <= j < rev.len() ==> rev@[j] == #[trigger] goal[dims.len() - 1 - j],
            forall|i: int| 0 <= i < j ==> r@[i] == #[trigger] goal[i],
    {
        assert(rev@[n - 1 - j] == goal[dims.len() - 1 - (n - 1 - j)]);
        r.push(rev[n - 1 - j]);
    }
    assert(r@.map_values(|x: usize| x as int) =~= goal);
    r
}

/// The quotient of a stored position by the last dimension is a stored position
/// of the dimensions before it.
proof fn lemma_unflat_step(d: Seq<usize>, p: int)
    requires
        d.len() > 0,
        0 <= p < numel(d),
        d.last() > 0,
    ensures
        0 <= p / d.last() as int,
        p / (d.last() as int) < numel(d.drop_last()),
        unflat(d, p).drop_last() == unflat(d.drop_last(), p / d.last() as int),
{
    let l = d.last() as int;
    let n = numel(d.drop_last()) as int;
    lemma_fundamental_div_mod(p, l);
    assert(0 <= p / l < n) by (nonlinear_arith)
        requires
            0 <= p < n * l,
            l > 0,
            p == l * (p / l) + p % l,
            0 <= p % l < l,
    ;
    assert(unflat(d, p).drop_last() =~= unflat(d.drop_last(), p / l));
}

/// Two lists hold the same shapes.
pub open spec fn same_shapes(a: Seq<Shape>, b: Seq<Shape>) -> bool {
    &&& a.len() == b.len()
    &&& forall|k: int| 0 <= k < a.len() ==> (#[trigger] a[k])@ == b[k]@
}

/// A copy of a list of shapes.
pub fn copy_shapes(shapes: &Vec<Shape>) -> (r: Vec<Shape>)
    ensures
        same_shapes(r@, shapes@),
{
    let mut r: Vec<Shape> = Vec::new();
    for k in 0..shapes.len()
        invariant
            r@.len() == k,
            forall|j: int| 0 <= j < k ==> (#[trigger] r@[j])@ == shapes@[j]@,
    {
        r.push(shapes[k].clone());
    }
    r
}

} // verus!
