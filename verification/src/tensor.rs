//! Tensors of any rank, stored row by row.
use vstd::prelude::*;
use crate::error::Error;
use crate::shape::{flat, in_bounds, lemma_flat, lemma_next_pow2, lemma_numel_mono, lemma_unflat, next_pow2, numel, padded, ravel, unflat, unravel, Shape};

verus! {

/// A quantised value.
pub type Element = i64;

/// A position as a sequence of integers.
pub open spec fn ints(s: Seq<usize>) -> Seq<int> {
    s.map_values(|x: usize| x as int)
}

/// A tensor. Where it is padded, `unpadded_shape` tells which part of it holds
/// values.
#[derive(Debug, PartialEq, Eq)]
pub struct Tensor<N> {
    pub data: Vec<N>,
    pub shape: Shape,
    pub unpadded_shape: Shape,
}

/// The values of a tensor of dimensions `from`, laid out in the dimensions `to`:
/// values outside `to` are dropped, and places outside `from` take `fill`.
pub open spec fn resized<N>(data: Seq<N>, from: Seq<usize>, to: Seq<usize>, fill: N) -> Seq<N> {
    Seq::new(
        numel(to),
        |p: int|
            if in_bounds(from, unflat(to, p)) {
                data[flat(from, unflat(to, p))]
            } else {
                fill
            },
    )
}

/// Every dimension has a next power of two, and a tensor with these dimensions
/// fits into memory.
pub open spec fn can_pad(d: Seq<usize>) -> bool {
    &&& forall|k: int| 0 <= k < d.len() ==> next_pow2(#[trigger] d[k] as nat) <= usize::MAX
    &&& numel(padded(d)) <= usize::MAX
}

/// The dimensions `d` with `n` in place of dimension `k`.
pub open spec fn with_dim(d: Seq<usize>, k: int, n: int) -> Seq<usize> {
    d.update(k, n as usize)
}

/// The dimensions agree everywhere but in dimension `k`.
pub open spec fn agree_but(a: Seq<usize>, b: Seq<usize>, k: int) -> bool {
    &&& a.len() == b.len()
    &&& 0 <= k < a.len()
    &&& forall|j: int| 0 <= j < a.len() && j != k ==> #[trigger] a[j] == b[j]
}

/// The values of two tensors, one after the other along dimension `k`.
pub open spec fn concatenated<N>(
    x: Seq<N>,
    a: Seq<usize>,
    y: Seq<N>,
    b: Seq<usize>,
    k: int,
) -> Seq<N> {
    let to = with_dim(a, k, a[k] + b[k]);
    Seq::new(
        numel(to),
        |p: int|
            {
                let idx = unflat(to, p);
                if idx[k] < a[k] {
                    x[flat(a, idx)]
                } else {
                    y[flat(b, idx.update(k, idx[k] - a[k]))]
                }
            },
    )
}

/// Whether a position lies inside the dimensions.
fn inside(dims: &Vec<usize>, idx: &Vec<usize>) -> (r: bool)
    requires
        dims.len() == idx.len(),
    ensures
        r == in_bounds(dims@, ints(idx@)),
{
    let ghost i = ints(idx@);
    for k in 0..dims.len()
        invariant
            dims.len() == idx.len(),
            i == ints(idx@),
            forall|j: int| 0 <= j < k ==> 0 <= #[trigger] i[j] < dims@[j],
    {
        if idx[k] >= dims[k] {
            assert(!(0 <= i[k as int] < dims@[k as int]));
            return false;
        }
    }
    true
}

/// A copy of a vector.
pub fn copied<N: Copy>(v: &Vec<N>) -> (r: Vec<N>)
    ensures
        r@ == v@,
{
    let mut r: Vec<N> = Vec::new();
    for i in 0..v.len()
        invariant
            r@ == v@.take(i as int),
    {
        r.push(v[i]);
        assert(v@.take(i + 1) =~= v@.take(i as int).push(v@[i as int]));
    }
    assert(v@.take(v@.len() as int) =~= v@);
    r
}

/// The values of a tensor, laid out in other dimensions of the same rank.
pub fn resize<N: Copy>(data: &Vec<N>, from: &Shape, to: &Shape, fill: N, count: usize) -> (r: Vec<N>)
    requires
        data@.len() == numel(from@),
        from@.len() == to@.len(),
        count == numel(to@),
    ensures
        r@ == resized(data@, from@, to@, fill),
{
    let mut r: Vec<N> = Vec::new();
    for p in 0..count
        invariant
            data@.len() == numel(from@),
            from@.len() == to@.len(),
            count == numel(to@),
            r@ == resized(data@, from@, to@, fill).take(p as int),
    {
        let idx = unravel(&to.dims, p);
        if inside(&from.dims, &idx) {
            proof {
                lemma_flat(from@, ints(idx@));
                assert(data.len() <= usize::MAX);
            }
            let q = ravel(&from.dims, &idx);
            r.push(data[q]);
        } else {
            r.push(fill);
        }
        let ghost all = resized(data@, from@, to@, fill);
        assert(all.take(p + 1) =~= all.take(p as int).push(all[p as int]));
    }
    assert(resized(data@, from@, to@, fill).take(count as int) =~= resized(
        data@,
        from@,
        to@,
        fill,
    ));
    r
}

/// The product of the dimensions, where the product of larger dimensions fits.
pub(crate) fn count_values(shape: &Shape, Ghost(bound): Ghost<Seq<usize>>) -> (r: usize)
    requires
        bound.len() == shape@.len(),
        forall|k: int| 0 <= k < bound.len() ==> shape@[k] <= #[trigger] bound[k],
        numel(bound) <= usize::MAX,
    ensures
        r == numel(shape@),
{
    proof {
        lemma_numel_mono(shape@, bound);
    }
    for k in 0..shape.dims.len()
        invariant
            forall|j: int| 0 <= j < k ==> #[trigger] shape@[j] > 0,
    {
        if shape.dims[k] == 0 {
            proof {
                lemma_numel_zero(shape@, k as int);
            }
            return 0;
        }
    }
    proof {
        assert forall|k: int| 0 <= k <= shape@.len() implies #[trigger] numel(shape@.take(k))
            <= usize::MAX by {
            lemma_numel_prefix(shape@, k);
        }
    }
    shape.numel()
}

/// A tensor with an empty dimension holds nothing.
pub proof fn lemma_numel_zero(d: Seq<usize>, k: int)
    requires
        0 <= k < d.len(),
        d[k] == 0,
    ensures
        numel(d) == 0,
    decreases d.len(),
{
    let a = numel(d.drop_last());
    if k < d.len() - 1 {
        lemma_numel_zero(d.drop_last(), k);
        assert(0 * d.last() as nat == 0);
    } else {
        assert(a * 0 == 0);
    }
}

pub proof fn lemma_numel_prefix(d: Seq<usize>, k: int)
    requires
        0 <= k <= d.len(),
        forall|j: int| 0 <= j < d.len() ==> #[trigger] d[j] > 0,
    ensures
        0 < numel(d.take(k)) <= numel(d),
    decreases d.len(),
{
    if k < d.len() {
        assert(d.drop_last().take(k) =~= d.take(k));
        lemma_numel_prefix(d.drop_last(), k);
        assert(d[d.len() - 1] > 0);
        let a = numel(d.drop_last());
        let x = d.last() as nat;
        assert(a <= a * x) by (nonlinear_arith)
            requires
                x >= 1,
        ;
    } else {
        assert(d.take(k) =~= d);
        if d.len() > 0 {
            assert(d.drop_last().take(d.len() - 1) =~= d.drop_last());
            lemma_numel_prefix(d.drop_last(), d.len() - 1);
            assert(d[d.len() - 1] > 0);
            let a = numel(d.drop_last());
            let x = d.last() as nat;
            assert(a * x > 0) by (nonlinear_arith)
                requires
                    a > 0,
                    x > 0,
            ;
        }
    }
}

impl<N> Tensor<N> {
    /// The values fill the shape, and the unpadded part lies inside it.
    pub open spec fn wf(&self) -> bool {
        &&& self.data@.len() == numel(self.shape@)
        &&& self.unpadded_shape@.len() == self.shape@.len()
        &&& forall|k: int|
            0 <= k < self.shape@.len() ==> #[trigger] self.unpadded_shape@[k] <= self.shape@[k]
    }

    /// The value at a position.
    pub open spec fn at(&self, idx: Seq<int>) -> N {
        self.data@[flat(self.shape@, idx)]
    }

    /// The tensor has the same values, shape and unpadded shape as another.
    pub open spec fn equals(&self, other: &Tensor<N>) -> bool {
        &&& self.data@ == other.data@
        &&& self.shape@ == other.shape@
        &&& self.unpadded_shape@ == other.unpadded_shape@
    }

    /// The values that are not padding, in the order in which they are stored
    /// without padding.
    pub open spec fn unpadded_data(&self) -> Seq<N> {
        Seq::new(
            numel(self.unpadded_shape@),
            |p: int| self.at(unflat(self.unpadded_shape@, p)),
        )
    }

    /// Whether part of the tensor is padding.
    pub open spec fn spec_is_padded(&self) -> bool {
        self.shape@ != self.unpadded_shape@
    }

    /// Whether part of the tensor is padding.
    pub fn is_padded(&self) -> (r: bool)
        ensures
            r == self.spec_is_padded(),
    {
        !self.shape.same(&self.unpadded_shape)
    }
}

impl<N: Copy> Tensor<N> {
    /// A tensor without padding.
    pub fn new(shape: Shape, data: Vec<N>) -> (r: Result<Self, Error>)
        ensures
            match r {
                Ok(t) => {
                    &&& data@.len() == numel(shape@)
                    &&& t.wf()
                    &&& t.data@ == data@
                    &&& t.shape@ == shape@
                    &&& t.unpadded_shape@ == shape@
                },
                Err(e) => data@.len() != numel(shape@) && e == Error::WrongNumberOfValues,
            },
    {
        let mut empty = false;
        for k in 0..shape.dims.len()
            invariant
                empty == exists|j: int| 0 <= j < k && #[trigger] shape@[j] == 0,
        {
            if shape.dims[k] == 0 {
                empty = true;
                assert(shape@[k as int] == 0);
            }
        }
        if empty {
            proof {
                let j = choose|j: int| 0 <= j < shape@.len() && #[trigger] shape@[j] == 0;
                lemma_numel_zero(shape@, j);
            }
            if data.len() != 0 {
                return Err(Error::WrongNumberOfValues);
            }
        } else {
            let mut count: usize = 1;
            assert(shape@.take(0).len() == 0);
            for k in 0..shape.dims.len()
                invariant
                    forall|j: int| 0 <= j < shape@.len() ==> #[trigger] shape@[j] > 0,
                    count == numel(shape@.take(k as int)),
            {
                assert(shape@.take(k + 1).drop_last() =~= shape@.take(k as int));
                proof {
                    lemma_numel_prefix(shape@, k + 1);
                }
                match count.checked_mul(shape.dims[k]) {
                    Some(c) => {
                        count = c;
                    },
                    None => {
                        assert(data.len() <= usize::MAX);
                        return Err(Error::WrongNumberOfValues);
                    },
                }
            }
            assert(shape@.take(shape@.len() as int) =~= shape@);
            if data.len() != count {
                return Err(Error::WrongNumberOfValues);
            }
        }
        let unpadded_shape = shape.clone();
        Ok(Tensor { data, shape, unpadded_shape })
    }

    /// A copy of the tensor.
    pub fn duplicate(&self) -> (r: Self)
        ensures
            r.equals(self),
            self.wf() ==> r.wf(),
    {
        Tensor {
            data: copied(&self.data),
            shape: self.shape.clone(),
            unpadded_shape: self.unpadded_shape.clone(),
        }
    }

    /// The part of the tensor that is not padding.
    pub fn reduce_to_unpadded_shape(&self) -> (r: Self)
        requires
            self.wf(),
        ensures
            r.wf(),
            r.shape@ == self.unpadded_shape@,
            r.unpadded_shape@ == self.unpadded_shape@,
            r.data@ == self.unpadded_data(),
            forall|idx: Seq<int>|
                in_bounds(self.unpadded_shape@, idx) ==> #[trigger] r.at(idx) == self.at(idx),
            self.shape@ == self.unpadded_shape@ ==> r.data@ == self.data@,
    {
        if self.data.len() == 0 {
            proof {
                assert forall|k: int| 0 <= k < self.shape@.len() implies self.unpadded_shape@[k]
                    <= #[trigger] self.shape@[k] by {
                    assert(self.unpadded_shape@[k] <= self.shape@[k]);
                }
                lemma_numel_mono(self.unpadded_shape@, self.shape@);
                assert forall|idx: Seq<int>| in_bounds(self.unpadded_shape@, idx) implies false by {
                    lemma_flat(self.unpadded_shape@, idx);
                }
            }
            assert(self.unpadded_data() =~= Seq::<N>::empty());
            return Tensor {
                data: Vec::new(),
                shape: self.unpadded_shape.clone(),
                unpadded_shape: self.unpadded_shape.clone(),
            };
        }
        let fill = self.data[0];
        proof {
            assert forall|k: int| 0 <= k < self.shape@.len() implies self.unpadded_shape@[k]
                <= #[trigger] self.shape@[k] by {
                assert(self.unpadded_shape@[k] <= self.shape@[k]);
            }
        }
        let count = count_values(&self.unpadded_shape, Ghost(self.shape@));
        let data = resize(&self.data, &self.shape, &self.unpadded_shape, fill, count);
        let r = Tensor {
            data,
            shape: self.unpadded_shape.clone(),
            unpadded_shape: self.unpadded_shape.clone(),
        };
        proof {
            assert forall|idx: Seq<int>| in_bounds(self.unpadded_shape@, idx) implies #[trigger] r.at(
                idx,
            ) == self.at(idx) by {
                lemma_flat(self.unpadded_shape@, idx);
                lemma_in_larger(self.unpadded_shape@, self.shape@, idx);
            }
            assert forall|p: int| 0 <= p < count implies r.data@[p] == #[trigger] self.unpadded_data()[p] by {
                lemma_unflat(self.unpadded_shape@, p);
                assert(r.at(unflat(self.unpadded_shape@, p)) == self.at(
                    unflat(self.unpadded_shape@, p),
                ));
            }
            assert(r.data@ =~= self.unpadded_data());
            if self.shape@ == self.unpadded_shape@ {
                assert forall|p: int| 0 <= p < count implies r.data@[p] == self.data@[p] by {
                    lemma_unflat(self.shape@, p);
                }
                assert(r.data@ =~= self.data@);
            }
        }
        r
    }

    /// The tensor with every dimension raised to the next power of two; `fill`
    /// stands in the new places.
    pub fn pad_next_power_of_two(&self, fill: N) -> (r: Self)
        requires
            self.wf(),
            can_pad(self.shape@),
        ensures
            r.wf(),
            r.shape@ == padded(self.shape@),
            r.unpadded_shape@ == self.unpadded_shape@,
            r.data@ == resized(self.data@, self.shape@, padded(self.shape@), fill),
            forall|idx: Seq<int>|
                in_bounds(r.shape@, idx) ==> #[trigger] r.at(idx) == if in_bounds(
                    self.shape@,
                    idx,
                ) {
                    self.at(idx)
                } else {
                    fill
                },
    {
        let shape = self.shape.next_power_of_two();
        let count = count_values(&shape, Ghost(shape@));
        let data = resize(&self.data, &self.shape, &shape, fill, count);
        let r = Tensor { data, shape, unpadded_shape: self.unpadded_shape.clone() };
        proof {
            assert forall|k: int| 0 <= k < r.shape@.len() implies #[trigger] r.unpadded_shape@[k]
                <= r.shape@[k] by {
                assert(self.unpadded_shape@[k] <= self.shape@[k]);
                lemma_next_pow2(self.shape@[k] as nat);
                assert(next_pow2(self.shape@[k] as nat) <= usize::MAX);
            }
            assert forall|idx: Seq<int>| in_bounds(r.shape@, idx) implies #[trigger] r.at(idx)
                == if in_bounds(self.shape@, idx) {
                self.at(idx)
            } else {
                fill
            } by {
                lemma_flat(r.shape@, idx);
            }
        }
        r
    }

    /// Two tensors without padding, one after the other along dimension `dim`.
    /// They are refused where their dimensions differ elsewhere.
    pub fn cat(&self, other: &Self, dim: usize) -> (r: Result<Self, Error>)
        requires
            self.wf(),
            other.wf(),
            agree_but(self.shape@, other.shape@, dim as int) ==> {
                &&& self.shape@[dim as int] + other.shape@[dim as int] <= usize::MAX
                &&& numel(
                    with_dim(
                        self.shape@,
                        dim as int,
                        self.shape@[dim as int] + other.shape@[dim as int],
                    ),
                ) <= usize::MAX
            },
        ensures
            r is Ok <==> agree_but(self.shape@, other.shape@, dim as int),
            match r {
                Ok(t) => {
                    &&& t.wf()
                    &&& t.shape@ == with_dim(
                        self.shape@,
                        dim as int,
                        self.shape@[dim as int] + other.shape@[dim as int],
                    )
                    &&& t.unpadded_shape@ == t.shape@
                    &&& t.data@ == concatenated(
                        self.data@,
                        self.shape@,
                        other.data@,
                        other.shape@,
                        dim as int,
                    )
                },
                Err(e) => e == Error::InvalidShape,
            },
    {
        let rank = self.shape.dims.len();
        if rank != other.shape.dims.len() || dim >= rank {
            return Err(Error::InvalidShape);
        }
        for k in 0..rank
            invariant
                rank == self.shape@.len(),
                rank == other.shape@.len(),
                dim < rank,
                forall|j: int| 0 <= j < k && j != dim ==> #[trigger] self.shape@[j] == other.shape@[j],
        {
            if k != dim && self.shape.dims[k] != other.shape.dims[k] {
                return Err(Error::InvalidShape);
            }
        }
        let mut shape = self.shape.clone();
        let total: usize = self.shape.dims[dim] + other.shape.dims[dim];
        shape.dims.set(dim, total);
        let ghost a = self.shape@;
        let ghost b = other.shape@;
        let ghost all = concatenated(self.data@, a, other.data@, b, dim as int);
        assert(shape@ =~= with_dim(a, dim as int, a[dim as int] + b[dim as int]));
        let count = count_values(&shape, Ghost(shape@));
        let mut data: Vec<N> = Vec::new();
        for p in 0..count
            invariant
                self.wf(),
                other.wf(),
                a == self.shape@,
                b == other.shape@,
                agree_but(a, b, dim as int),
                shape@ == with_dim(a, dim as int, a[dim as int] + b[dim as int]),
                a[dim as int] + b[dim as int] <= usize::MAX,
                count == numel(shape@),
                all == concatenated(self.data@, a, other.data@, b, dim as int),
                data@ == all.take(p as int),
        {
            let mut idx = unravel(&shape.dims, p);
            let ghost i = ints(idx@);
            proof {
                assert forall|k: int| 0 <= k < a.len() && k != dim implies 0 <= i[k] < #[trigger] a[k]
                    && a[k] == b[k] by {
                    assert(0 <= i[k] < shape@[k]);
                    assert(a[k] == b[k]);
                }
                assert(0 <= i[dim as int] < shape@[dim as int]);
            }
            if idx[dim] < self.shape.dims[dim] {
                proof {
                    assert forall|k: int| 0 <= k < a.len() implies 0 <= #[trigger] i[k] < a[k] by {
                        if k != dim {
                            assert(0 <= i[k] < a[k]);
                        }
                    }
                    lemma_flat(a, i);
                    assert(self.data.len() <= usize::MAX);
                }
                let q = ravel(&self.shape.dims, &idx);
                data.push(self.data[q]);
            } else {
                let moved: usize = idx[dim] - self.shape.dims[dim];
                idx.set(dim, moved);
                proof {
                    let j = i.update(dim as int, i[dim as int] - a[dim as int]);
                    assert(ints(idx@) =~= j);
                    assert forall|k: int| 0 <= k < b.len() implies 0 <= #[trigger] j[k] < b[k] by {
                        if k != dim {
                            assert(0 <= i[k] < a[k] && a[k] == b[k]);
                        }
                    }
                    lemma_flat(b, j);
                    assert(other.data.len() <= usize::MAX);
                }
                let q = ravel(&other.shape.dims, &idx);
                data.push(other.data[q]);
            }
            assert(all.take(p + 1) =~= all.take(p as int).push(all[p as int]));
        }
        assert(all.take(count as int) =~= all);
        let unpadded_shape = shape.clone();
        Ok(Tensor { data, shape, unpadded_shape })
    }
}

/// A position inside some dimensions is inside larger ones.
pub proof fn lemma_in_larger(d: Seq<usize>, e: Seq<usize>, idx: Seq<int>)
    requires
        in_bounds(d, idx),
        d.len() == e.len(),
        forall|k: int| 0 <= k < d.len() ==> #[trigger] d[k] <= e[k],
    ensures
        in_bounds(e, idx),
{
    assert forall|k: int| 0 <= k < e.len() implies 0 <= #[trigger] idx[k] < e[k] by {
        assert(d[k] <= e[k]);
    }
}

/// What stands at a position of two tensors that were put one after the other.
pub proof fn lemma_concatenated_at<N>(
    x: Seq<N>,
    a: Seq<usize>,
    y: Seq<N>,
    b: Seq<usize>,
    k: int,
    idx: Seq<int>,
)
    requires
        agree_but(a, b, k),
        a[k] + b[k] <= usize::MAX,
        in_bounds(with_dim(a, k, a[k] + b[k]), idx),
    ensures
        concatenated(x, a, y, b, k)[flat(with_dim(a, k, a[k] + b[k]), idx)] == if idx[k] < a[k] {
            x[flat(a, idx)]
        } else {
            y[flat(b, idx.update(k, idx[k] - a[k]))]
        },
{
    lemma_flat(with_dim(a, k, a[k] + b[k]), idx);
}

/// It does not matter in which order three tensors are put one after the other.
pub proof fn law_concatenation_associative<N>(
    x: Seq<N>,
    a: Seq<usize>,
    y: Seq<N>,
    b: Seq<usize>,
    z: Seq<N>,
    c: Seq<usize>,
    k: int,
)
    requires
        agree_but(a, b, k),
        agree_but(b, c, k),
        a[k] + b[k] + c[k] <= usize::MAX,
    ensures
        concatenated(concatenated(x, a, y, b, k), with_dim(a, k, a[k] + b[k]), z, c, k)
            == concatenated(x, a, concatenated(y, b, z, c, k), with_dim(b, k, b[k] + c[k]), k),
{
    let ab = with_dim(a, k, a[k] + b[k]);
    let bc = with_dim(b, k, b[k] + c[k]);
    let to = with_dim(a, k, a[k] + b[k] + c[k]);
    assert(with_dim(ab, k, ab[k] + c[k]) =~= to);
    assert(with_dim(a, k, a[k] + bc[k]) =~= to);
    let left = concatenated(concatenated(x, a, y, b, k), ab, z, c, k);
    let right = concatenated(x, a, concatenated(y, b, z, c, k), bc, k);
    assert forall|p: int| 0 <= p < numel(to) implies left[p] == right[p] by {
        let idx = unflat(to, p);
        lemma_unflat(to, p);
        assert(0 <= idx[k] < to[k]);
        assert forall|j: int| 0 <= j < a.len() && j != k implies 0 <= #[trigger] idx[j] < a[j]
            && a[j] == b[j] && b[j] == c[j] by {
            assert(0 <= idx[j] < to[j]);
            assert(a[j] == b[j]);
            assert(b[j] == c[j]);
        }
        if idx[k] < ab[k] {
            assert forall|j: int| 0 <= j < ab.len() implies 0 <= #[trigger] idx[j] < ab[j] by {
                if j != k {
                    assert(0 <= idx[j] < a[j]);
                }
            }
            lemma_concatenated_at(x, a, y, b, k, idx);
        }
        if idx[k] >= a[k] {
            let jdx = idx.update(k, idx[k] - a[k]);
            assert forall|j: int| 0 <= j < bc.len() implies 0 <= #[trigger] jdx[j] < bc[j] by {
                if j != k {
                    assert(0 <= idx[j] < a[j]);
                    assert(a[j] == b[j]);
                }
            }
            lemma_concatenated_at(y, b, z, c, k, jdx);
            if idx[k] >= ab[k] {
                assert(jdx.update(k, jdx[k] - b[k]) =~= idx.update(k, idx[k] - ab[k]));
            }
        }
    }
    assert(left =~= right);
}

/// Padding a tensor and leaving the padding out again gives the tensor back.
pub proof fn law_unpad_pad<N>(t: Tensor<N>, fill: N, padded_tensor: Tensor<N>)
    requires
        t.wf(),
        t.unpadded_shape@ == t.shape@,
        can_pad(t.shape@),
        padded_tensor.shape@ == padded(t.shape@),
        padded_tensor.unpadded_shape@ == t.unpadded_shape@,
        padded_tensor.data@ == resized(t.data@, t.shape@, padded(t.shape@), fill),
    ensures
        padded_tensor.unpadded_data() == t.data@,
{
    let d = t.shape@;
    let e = padded(d);
    assert forall|p: int| 0 <= p < numel(d) implies padded_tensor.unpadded_data()[p] == t.data@[p] by {
        let idx = unflat(d, p);
        lemma_unflat(d, p);
        assert forall|k: int| 0 <= k < d.len() implies #[trigger] d[k] <= e[k] by {
            lemma_next_pow2(d[k] as nat);
            assert(next_pow2(d[k] as nat) <= usize::MAX);
        }
        lemma_in_larger(d, e, idx);
        lemma_flat(e, idx);
    }
    assert(padded_tensor.unpadded_data() =~= t.data@);
}

/// A tensor with the name under which it is committed to.
#[derive(Debug)]
pub struct KeyedTensor<N> {
    pub key: String,
    pub tensor: Tensor<N>,
}

impl<N> KeyedTensor<N> {
    pub fn new(key: String, tensor: Tensor<N>) -> (r: Self)
        ensures
            r.key == key,
            r.tensor == tensor,
    {
        KeyedTensor { key, tensor }
    }
}

} // verus!
