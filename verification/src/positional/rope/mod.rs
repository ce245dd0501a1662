//! Rotations of the rows of a tensor by the position of each token.
use vstd::prelude::*;
use vstd::arithmetic::div_mod::*;
use crate::cache::{cached_shape, leaves, CachingInfo, ConcatenationCache};
use crate::error::Error;
use crate::linear::{fits, is_matrix};
use crate::logits::witness::element_ints;
use crate::padding::PaddingMode;
use crate::positional::rope::layout::{rotated, RopeLayout};
use crate::positional::PositionalCache;
use crate::shape::{copy_shapes, is_pow2, lemma_numel_matrix, next_pow2, numel, padded, same_shapes, Shape};
use crate::tensor::{agree_but, can_pad, lemma_numel_zero, resized, with_dim, Element, KeyedTensor, Tensor};

pub mod laws;
pub mod layout;
pub mod prove;

verus! {

/// A layer that rotates the values of each token by angles that grow with its
/// position.
#[derive(Debug)]
pub struct Rope<N> {
    pub cosine_matrix: KeyedTensor<N>,
    pub sine_matrix: KeyedTensor<N>,
    /// The shape of the matrices before padding.
    pub unpadded_shape: Shape,
    pub layout: RopeLayout,
    pub concatenation_cache: Option<ConcatenationCache<N>>,
}

/// What the verifier knows of the layer.
#[derive(Debug)]
pub struct RopeCtx {
    pub node_id: usize,
    pub unpadded_shape: Shape,
    pub num_vars_positional_matrix: usize,
    pub cosine_key: String,
    pub sine_key: String,
    pub layout: RopeLayout,
}

impl<N> Rope<N> {
    /// A layer without a cache, made of its matrices. Matrices of different shapes are
    /// refused, and so are rows that cannot be halved where halves are rotated.
    pub fn new(cosine_matrix: KeyedTensor<N>, sine_matrix: KeyedTensor<N>, layout: RopeLayout) -> (r:
        Result<Self, Error>)
        requires
            layout == RopeLayout::RotateHalf ==> cosine_matrix.tensor.shape@.len() >= 1,
        ensures
            ({
                let d = cosine_matrix.tensor.shape@;
                let ok = d == sine_matrix.tensor.shape@ && (layout == RopeLayout::RotateHalf
                    ==> d.last() == next_pow2(d.last() as nat));
                match r {
                    Ok(l) => {
                        &&& ok
                        &&& l.cosine_matrix == cosine_matrix
                        &&& l.sine_matrix == sine_matrix
                        &&& l.unpadded_shape@ == d
                        &&& l.layout == layout
                        &&& l.concatenation_cache is None
                    },
                    Err(e) => e == Error::InvalidShape && !ok,
                }
            }),
    {
        if !cosine_matrix.tensor.shape.same(&sine_matrix.tensor.shape) {
            return Err(Error::InvalidShape);
        }
        let unpadded_shape = cosine_matrix.tensor.shape.clone();
        match layout {
            RopeLayout::RotateHalf => {
                if !is_pow2(unpadded_shape.dims[unpadded_shape.rank() - 1]) {
                    return Err(Error::InvalidShape);
                }
            },
            RopeLayout::Adjacent => {},
        }
        Ok(Rope { cosine_matrix, sine_matrix, unpadded_shape, layout, concatenation_cache: None })
    }

    /// Empties the cache, where there is one.
    pub fn reset_cache(&mut self)
        ensures
            match (old(self).concatenation_cache, final(self).concatenation_cache) {
                (Some(a), Some(b)) => b.cached_tensor is None && b.caching_info == a.caching_info
                    && b.padding_mode == a.padding_mode,
                (None, None) => true,
                _ => false,
            },
            final(self).cosine_matrix == old(self).cosine_matrix,
            final(self).sine_matrix == old(self).sine_matrix,
            final(self).unpadded_shape == old(self).unpadded_shape,
            final(self).layout == old(self).layout,
    {
        match self.concatenation_cache.take() {
            Some(cache) => {
                let mut c = cache;
                c.reset();
                self.concatenation_cache = Some(c);
            },
            None => {},
        }
    }

    /// The quantised layer, for its quantised matrices, with its cache emptied, and the
    /// number of bits of its output. It takes the scale of one output.
    pub fn quantize<M>(
        self,
        num_output_scalings: usize,
        cosine_matrix: KeyedTensor<M>,
        sine_matrix: KeyedTensor<M>,
        bit_len: usize,
    ) -> (r: Result<(Rope<M>, usize), Error>)
        requires
            2 * bit_len < usize::MAX,
        ensures
            match r {
                Ok((l, bits)) => {
                    &&& num_output_scalings == 1
                    &&& l.cosine_matrix == cosine_matrix
                    &&& l.sine_matrix == sine_matrix
                    &&& l.unpadded_shape == self.unpadded_shape
                    &&& l.layout == self.layout
                    &&& match (self.concatenation_cache, l.concatenation_cache) {
                        (Some(a), Some(b)) => b.cached_tensor is None && b.caching_info
                            == a.caching_info && b.padding_mode == a.padding_mode,
                        (None, None) => true,
                        _ => false,
                    }
                    &&& bits == 2 * bit_len + 1
                },
                Err(e) => e == Error::InvalidScaling && num_output_scalings != 1,
            },
    {
        if num_output_scalings != 1 {
            return Err(Error::InvalidScaling);
        }
        let concatenation_cache = match self.concatenation_cache {
            Some(cache) => Some(
                ConcatenationCache {
                    cached_tensor: None,
                    caching_info: cache.caching_info,
                    padding_mode: cache.padding_mode,
                },
            ),
            None => None,
        };
        let l = Rope {
            cosine_matrix,
            sine_matrix,
            unpadded_shape: self.unpadded_shape,
            layout: self.layout,
            concatenation_cache,
        };
        Ok((l, 2 * bit_len + 1))
    }

    /// The layer with an empty cache that puts its outputs one after the other. A
    /// dimension outside the rank is refused.
    pub fn with_concatenation_cache(self, input_rank: usize, concatenation_dim: usize) -> (r: Result<
        Self,
        Error,
    >)
        ensures
            match r {
                Ok(l) => {
                    &&& concatenation_dim < input_rank
                    &&& l.concatenation_cache matches Some(c) && c.cached_tensor is None
                        && c.caching_info == (CachingInfo::Static {
                        rank: input_rank,
                        concatenation_dim,
                    }) && c.padding_mode == PaddingMode::NoPadding
                    &&& l.cosine_matrix == self.cosine_matrix
                    &&& l.sine_matrix == self.sine_matrix
                    &&& l.unpadded_shape == self.unpadded_shape
                    &&& l.layout == self.layout
                },
                Err(e) => e == Error::DimensionOutOfBounds && concatenation_dim >= input_rank,
            },
    {
        if concatenation_dim >= input_rank {
            return Err(Error::DimensionOutOfBounds);
        }
        let cache = ConcatenationCache::new(input_rank, concatenation_dim, PaddingMode::NoPadding);
        Ok(
            Rope {
                cosine_matrix: self.cosine_matrix,
                sine_matrix: self.sine_matrix,
                unpadded_shape: self.unpadded_shape,
                layout: self.layout,
                concatenation_cache: Some(cache),
            },
        )
    }

    /// The layer without a cache.
    pub fn with_no_cache(self) -> (r: Self)
        ensures
            r.concatenation_cache is None,
            r.cosine_matrix == self.cosine_matrix,
            r.sine_matrix == self.sine_matrix,
            r.unpadded_shape == self.unpadded_shape,
            r.layout == self.layout,
    {
        Rope {
            cosine_matrix: self.cosine_matrix,
            sine_matrix: self.sine_matrix,
            unpadded_shape: self.unpadded_shape,
            layout: self.layout,
            concatenation_cache: None,
        }
    }
}

/// A row of a matrix made of the values of the angles: each value stands twice, next
/// to itself or half a row further.
pub open spec fn spread_place(layout: RopeLayout, angles: int, j: int) -> int {
    match layout {
        RopeLayout::Adjacent => j / 2,
        RopeLayout::RotateHalf => if j < angles {
            j
        } else {
            j - angles
        },
    }
}

/// The matrix made of the values of the angles, one row for each position.
pub open spec fn spread<N>(values: Seq<N>, layout: RopeLayout, rows: int, angles: int) -> Seq<N> {
    Seq::new(
        (rows * (2 * angles)) as nat,
        |p: int|
            values[p / (2 * angles) * angles + spread_place(layout, angles, p % (2 * angles))],
    )
}

/// The matrix made of the values of the angles.
fn spread_values<N: Copy>(values: &Vec<N>, layout: RopeLayout, rows: usize, angles: usize) -> (r: Vec<N>)
    requires
        values@.len() == rows * angles,
        rows * (2 * angles) <= usize::MAX,
        2 * angles <= usize::MAX,
    ensures
        r@ == spread(values@, layout, rows as int, angles as int),
{
    let ghost goal = spread(values@, layout, rows as int, angles as int);
    let w: usize = 2 * angles;
    let n: usize = rows * w;
    let mut r: Vec<N> = Vec::new();
    for p in 0..n
        invariant
            values@.len() == rows * angles,
            w == 2 * angles,
            n == rows * w,
            goal == spread(values@, layout, rows as int, angles as int),
            goal.len() == n,
            r@ == goal.take(p as int),
    {
        proof {
            if w == 0 {
                assert(rows * w == 0) by (nonlinear_arith)
                    requires
                        w == 0,
                ;
            }
            let (i, j) = (p as int / w as int, p as int % w as int);
            let (m, a) = (rows as int, angles as int);
            lemma_fundamental_div_mod(p as int, w as int);
            lemma_mod_bound(p as int, w as int);
            assert(0 <= i < m) by (nonlinear_arith)
                requires
                    p == w * i + j,
                    0 <= p < m * w,
                    0 <= j < w,
            ;
            assert(0 <= i * a && i * a + a <= m * a) by (nonlinear_arith)
                requires
                    0 <= i < m,
                    0 <= a,
            ;
            assert(values.len() <= usize::MAX);
        }
        let row: usize = p / w;
        let j: usize = p % w;
        let at: usize = match layout {
            RopeLayout::Adjacent => j / 2,
            RopeLayout::RotateHalf => if j < angles {
                j
            } else {
                j - angles
            },
        };
        r.push(values[row * angles + at]);
        assert(goal.take(p + 1) =~= goal.take(p as int).push(goal[p as int]));
    }
    assert(goal.take(n as int) =~= goal);
    r
}

/// The number of angles of a head. A head that cannot be halved is refused where
/// halves are rotated.
pub fn num_angles(head_size: usize, layout: RopeLayout) -> (r: Result<usize, Error>)
    ensures
        ({
            let ok = layout == RopeLayout::RotateHalf ==> head_size == next_pow2(head_size as nat);
            match r {
                Ok(n) => ok && n == head_size / 2,
                Err(e) => e == Error::InvalidShape && !ok,
            }
        }),
{
    match layout {
        RopeLayout::RotateHalf => {
            if !is_pow2(head_size) {
                return Err(Error::InvalidShape);
            }
        },
        RopeLayout::Adjacent => {},
    }
    Ok(head_size / 2)
}

impl<N: Copy> Rope<N> {
    /// A layer without a cache, made of the cosines and sines of the angles at each
    /// position.
    pub fn build_from_values(
        cosines: &Vec<N>,
        sines: &Vec<N>,
        cosine_key: String,
        sine_key: String,
        angles: usize,
        max_content_length: usize,
        layout: RopeLayout,
    ) -> (r: Self)
        requires
            cosines@.len() == max_content_length * angles,
            sines@.len() == max_content_length * angles,
            2 * angles <= usize::MAX,
            max_content_length * (2 * angles) <= usize::MAX,
        ensures
            ({
                let d = seq![max_content_length, (2 * angles) as usize];
                let (rows, n) = (max_content_length as int, angles as int);
                &&& r.cosine_matrix.key == cosine_key
                &&& r.cosine_matrix.tensor.wf()
                &&& r.cosine_matrix.tensor.shape@ == d
                &&& r.cosine_matrix.tensor.unpadded_shape@ == d
                &&& r.cosine_matrix.tensor.data@ == spread(cosines@, layout, rows, n)
                &&& r.sine_matrix.key == sine_key
                &&& r.sine_matrix.tensor.wf()
                &&& r.sine_matrix.tensor.shape@ == d
                &&& r.sine_matrix.tensor.unpadded_shape@ == d
                &&& r.sine_matrix.tensor.data@ == spread(sines@, layout, rows, n)
                &&& r.unpadded_shape@ == d
                &&& r.layout == layout
                &&& r.concatenation_cache is None
            }),
    {
        let mut dims: Vec<usize> = Vec::new();
        dims.push(max_content_length);
        dims.push(2 * angles);
        proof {
            assert(dims@ =~= seq![max_content_length, (2 * angles) as usize]);
            lemma_numel_matrix(max_content_length, (2 * angles) as usize);
        }
        let shape = Shape::new(dims);
        let cosine = Tensor {
            data: spread_values(cosines, layout, max_content_length, angles),
            shape: shape.clone(),
            unpadded_shape: shape.clone(),
        };
        let sine = Tensor {
            data: spread_values(sines, layout, max_content_length, angles),
            shape: shape.clone(),
            unpadded_shape: shape.clone(),
        };
        Rope {
            cosine_matrix: KeyedTensor { key: cosine_key, tensor: cosine },
            sine_matrix: KeyedTensor { key: sine_key, tensor: sine },
            unpadded_shape: shape,
            layout,
            concatenation_cache: None,
        }
    }
}

/// The shape that follows what is cached can be formed.
pub open spec fn can_follow<N>(
    cache: ConcatenationCache<N>,
    d: Seq<usize>,
    padding_mode: PaddingMode,
) -> bool {
    &&& d.len() <= isize::MAX
    &&& cache.caching_info.dim_for(d.len() as int) matches Some(k) ==> {
        &&& k < d.len()
        &&& d[k] + cache.seq_len() <= usize::MAX
        &&& padding_mode == PaddingMode::Padding ==> forall|i: int|
            0 <= i < d.len() ==> next_pow2(
                #[trigger] with_dim(d, k, d[k] + cache.seq_len())[i] as nat,
            ) <= usize::MAX
    }
}

/// The shape `r` follows what is cached.
pub open spec fn follows<N>(
    cache: ConcatenationCache<N>,
    d: Seq<usize>,
    padding_mode: PaddingMode,
    r: Seq<usize>,
) -> bool {
    cache.caching_info.dim_for(d.len() as int) matches Some(k) && {
        let next = with_dim(d, k, d[k] + cache.seq_len());
        r == match padding_mode {
            PaddingMode::NoPadding => next,
            PaddingMode::Padding => padded(next),
        }
    }
}

impl<N> Rope<N> {
    /// The shapes of the outputs for those of the inputs. Where there is a cache, each
    /// follows what was cached before the inputs came.
    pub fn output_shapes(&self, input_shapes: &Vec<Shape>, padding_mode: PaddingMode) -> (r: Result<
        Vec<Shape>,
        Error,
    >)
        requires
            self.concatenation_cache matches Some(c) ==> c.has_dim() && forall|i: int|
                0 <= i < input_shapes@.len() ==> can_follow(
                    c,
                    (#[trigger] input_shapes@[i])@,
                    padding_mode,
                ),
        ensures
            match self.concatenation_cache {
                None => r matches Ok(v) && same_shapes(v@, input_shapes@),
                Some(c) => match r {
                    Ok(v) => {
                        &&& v@.len() == input_shapes@.len()
                        &&& forall|i: int|
                            0 <= i < v@.len() ==> follows(
                                c,
                                input_shapes@[i]@,
                                padding_mode,
                                (#[trigger] v@[i])@,
                            )
                    },
                    Err(e) => {
                        &&& e == Error::DimensionOutOfBounds
                        &&& exists|i: int|
                            0 <= i < input_shapes@.len() && c.caching_info.dim_for(
                                (#[trigger] input_shapes@[i])@.len() as int,
                            ) is None
                    },
                },
            },
    {
        match &self.concatenation_cache {
            None => Ok(copy_shapes(input_shapes)),
            Some(c) => {
                let mut v: Vec<Shape> = Vec::new();
                for i in 0..input_shapes.len()
                    invariant
                        self.concatenation_cache == Some(*c),
                        c.has_dim(),
                        forall|i: int|
                            0 <= i < input_shapes@.len() ==> can_follow(
                                *c,
                                (#[trigger] input_shapes@[i])@,
                                padding_mode,
                            ),
                        v@.len() == i,
                        forall|k: int|
                            0 <= k < i ==> follows(
                                *c,
                                input_shapes@[k]@,
                                padding_mode,
                                (#[trigger] v@[k])@,
                            ),
                {
                    assert(can_follow(*c, input_shapes@[i as int]@, padding_mode));
                    match c.next_shape(input_shapes[i].clone(), padding_mode) {
                        Ok(s) => {
                            v.push(s);
                        },
                        Err(e) => {
                            return Err(e);
                        },
                    }
                }
                Ok(v)
            },
        }
    }
}

/// The place in a matrix of the value by which place `p` of a tensor is multiplied.
pub open spec fn angle_place(d: Seq<usize>, cols: int, past: int, p: int) -> int {
    let w = d.last() as int;
    let rows = d[d.len() - 2] as int;
    (past + (p / w) % rows) * cols + p % w
}

impl Rope<Element> {
    /// The value of the output at place `p`.
    pub open spec fn rotation(&self, x: Seq<int>, d: Seq<usize>, past: int, p: int) -> int {
        let cols = self.cosine_matrix.tensor.shape@[1] as int;
        let at = angle_place(d, cols, past, p);
        let turned = rotated(x, self.layout.block(d.last() as int));
        x[p] * self.cosine_matrix.tensor.data@[at] + turned[p] * self.sine_matrix.tensor.data@[at]
    }

    /// No value on the way to the output overflows.
    pub open spec fn rotation_fits(&self, x: Seq<Element>, d: Seq<usize>, past: int) -> bool {
        let v = element_ints(x);
        let cols = self.cosine_matrix.tensor.shape@[1] as int;
        let turned = rotated(v, self.layout.block(d.last() as int));
        &&& forall|p: int| 0 <= p < x.len() ==> #[trigger] x[p] > Element::MIN
        &&& forall|p: int|
            0 <= p < x.len() ==> {
                let at = angle_place(d, cols, past, p);
                &&& fits(v[p] * self.cosine_matrix.tensor.data@[at])
                &&& fits(turned[p] * self.sine_matrix.tensor.data@[at])
                &&& fits(#[trigger] self.rotation(v, d, past, p))
            }
    }

    /// The matrices have the same shape.
    pub open spec fn wf(&self) -> bool {
        &&& is_matrix(self.cosine_matrix.tensor)
        &&& is_matrix(self.sine_matrix.tensor)
        &&& self.cosine_matrix.tensor.shape@ == self.sine_matrix.tensor.shape@
    }

    /// The tensor `o` is the input, without its padding, rotated from position `past`.
    pub open spec fn rotates(&self, input: Tensor<Element>, past: int, o: Tensor<Element>) -> bool {
        let d = input.unpadded_shape@;
        let x = element_ints(input.unpadded_data());
        &&& o.wf()
        &&& o.shape@ == d
        &&& o.unpadded_shape@ == d
        &&& o.data@.len() == x.len()
        &&& forall|p: int|
            0 <= p < x.len() ==> #[trigger] o.data@[p] == self.rotation(x, d, past, p)
    }

    /// The input, rotated from position `past`.
    pub fn rotate(&self, input: &Tensor<Element>, past: usize) -> (r: Tensor<Element>)
        requires
            self.wf(),
            input.wf(),
            input.unpadded_shape@.len() >= 2,
            self.layout.fits(input.unpadded_shape@.last() as int),
            input.unpadded_shape@.last() <= self.cosine_matrix.tensor.shape@[1],
            past + input.unpadded_shape@[input.unpadded_shape@.len() - 2]
                <= self.cosine_matrix.tensor.shape@[0],
            self.rotation_fits(input.unpadded_data(), input.unpadded_shape@, past as int),
        ensures
            self.rotates(*input, past as int, r),
    {
        let x = input.reduce_to_unpadded_shape();
        let turned = self.layout.split_input(&x);
        let rank: usize = x.shape.rank();
        let w: usize = x.shape.dims[rank - 1];
        let rows: usize = x.shape.dims[rank - 2];
        let cols: usize = self.cosine_matrix.tensor.shape.dims[1];
        let total: usize = self.cosine_matrix.tensor.shape.dims[0];
        let ghost d = x.shape@;
        let ghost v = element_ints(x.data@);
        let ghost tv = rotated(v, self.layout.block(w as int));
        proof {
            assert(self.cosine_matrix.tensor.shape@ =~= seq![total, cols]);
            lemma_numel_matrix(total, cols);
        }
        let mut data: Vec<Element> = Vec::new();
        for p in 0..x.data.len()
            invariant
                self.wf(),
                self.rotation_fits(x.data@, d, past as int),
                d.len() >= 2,
                w == d.last(),
                w > 0,
                rows == d[d.len() - 2],
                x.wf(),
                d == x.shape@,
                past + rows <= total,
                w <= cols,
                cols == self.cosine_matrix.tensor.shape@[1],
                self.cosine_matrix.tensor.data@.len() == total * cols,
                self.sine_matrix.tensor.data@.len() == total * cols,
                v == element_ints(x.data@),
                tv == rotated(v, self.layout.block(w as int)),
                element_ints(turned.data@) == tv,
                turned.data@.len() == x.data@.len(),
                data@.len() == p,
                forall|q: int|
                    0 <= q < p ==> #[trigger] data@[q] == self.rotation(v, d, past as int, q),
        {
            proof {
                if rows == 0 {
                    lemma_numel_zero(d, d.len() - 2);
                }
            }
            let row: usize = (p / w) % rows;
            let j: usize = p % w;
            let ghost at = angle_place(d, cols as int, past as int, p as int);
            proof {
                let i = past + row;
                let c = cols as int;
                assert(0 <= i * c && i * c + c <= total * c) by (nonlinear_arith)
                    requires
                        0 <= i < total,
                        0 <= c,
                ;
                assert(at == i * c + j);
                assert(self.cosine_matrix.tensor.data.len() <= usize::MAX);
                assert(fits(self.rotation(v, d, past as int, p as int)));
                assert(v[p as int] == x.data@[p as int]);
                assert(element_ints(turned.data@)[p as int] == turned.data@[p as int]);
            }
            let place: usize = (past + row) * cols + j;
            let a: Element = x.data[p] * self.cosine_matrix.tensor.data[place];
            let b: Element = turned.data[p] * self.sine_matrix.tensor.data[place];
            data.push(a + b);
        }
        Tensor { data, shape: x.shape.clone(), unpadded_shape: x.unpadded_shape }
    }
}

/// A tensor of shape `d` can leave the layer through its cache.
pub open spec fn can_leave(
    cache: Option<ConcatenationCache<Element>>,
    d: Seq<usize>,
    is_padded: bool,
) -> bool {
    match cache {
        None => is_padded ==> can_pad(d),
        Some(c) => {
            let dim = c.caching_info.dim_for(d.len() as int);
            &&& c.wf()
            &&& (dim matches Some(k) && c.cached_tensor matches Some(t) && agree_but(t.shape@, d, k))
                ==> {
                let t = c.cached_tensor->Some_0;
                let k = dim->Some_0;
                let total = with_dim(t.shape@, k, t.shape@[k] + d[k]);
                &&& t.shape@[k] + d[k] <= usize::MAX
                &&& numel(total) <= usize::MAX
                &&& c.padding_mode == PaddingMode::Padding ==> can_pad(total)
            }
            &&& c.padding_mode == PaddingMode::Padding && c.cached_tensor is None ==> can_pad(d)
        },
    }
}

/// The tensor `o` leaves the layer as `r`: padded where the input was padded, or with
/// all that the cache holds.
pub open spec fn leaves_layer(
    before: Option<ConcatenationCache<Element>>,
    after: Option<ConcatenationCache<Element>>,
    o: Tensor<Element>,
    is_padded: bool,
    r: Result<Tensor<Element>, Error>,
) -> bool {
    match (before, after) {
        (None, None) => r matches Ok(out) && out.wf() && out.unpadded_shape@ == o.shape@ && if is_padded {
            &&& out.shape@ == padded(o.shape@)
            &&& out.data@ == resized(o.data@, o.shape@, padded(o.shape@), 0)
        } else {
            &&& out.shape@ == o.shape@
            &&& out.data@ == o.data@
        },
        (Some(a), Some(b)) => {
            let dim = a.caching_info.dim_for(o.shape@.len() as int);
            &&& b.caching_info == a.caching_info
            &&& b.padding_mode == a.padding_mode
            &&& match r {
                Ok(out) => {
                    &&& dim is Some
                    &&& a.cached_tensor matches Some(t) ==> agree_but(t.shape@, o.shape@, dim->Some_0)
                    &&& b.cached_tensor matches Some(c) && a.extended(o, c) && leaves(
                        c,
                        a.padding_mode,
                        0,
                        out,
                    )
                },
                Err(Error::DimensionOutOfBounds) => dim is None && b.cached_tensor
                    == a.cached_tensor,
                Err(e) => {
                    &&& e == Error::InvalidShape
                    &&& dim is Some
                    &&& a.cached_tensor matches Some(t) && !agree_but(t.shape@, o.shape@, dim->Some_0)
                    &&& b.cached_tensor is None
                },
            }
        },
        _ => false,
    }
}

impl Rope<Element> {
    /// The layer can take the input without overflow.
    pub open spec fn can_evaluate(&self, input: Tensor<Element>, seen: PositionalCache) -> bool {
        let d = input.unpadded_shape@;
        let past = seen.seq_len as int;
        &&& self.wf()
        &&& input.wf()
        &&& d.len() >= 2 ==> {
            &&& past + d[d.len() - 2] <= usize::MAX
            &&& past < usize::MAX
            &&& d.len() <= 4 && seen.takes(past + d[d.len() - 2]) ==> {
                &&& self.layout.fits(d.last() as int)
                &&& d.last() <= self.cosine_matrix.tensor.shape@[1]
                &&& past + d[d.len() - 2] <= self.cosine_matrix.tensor.shape@[0]
                &&& self.rotation_fits(input.unpadded_data(), d, past)
                &&& can_leave(self.concatenation_cache, d, input.spec_is_padded())
            }
        }
    }

    /// Only the cache of the layer may differ.
    pub open spec fn same_but_cache(&self, other: Self) -> bool {
        &&& self.cosine_matrix == other.cosine_matrix
        &&& self.sine_matrix == other.sine_matrix
        &&& self.unpadded_shape == other.unpadded_shape
        &&& self.layout == other.layout
    }

    /// What comes of an input: the layer becomes `after`, the tokens seen become
    /// `seen_after`, and `r` is returned.
    pub open spec fn evaluates(
        &self,
        after: Self,
        seen: PositionalCache,
        seen_after: PositionalCache,
        input: Tensor<Element>,
        r: Result<Tensor<Element>, Error>,
    ) -> bool {
        let d = input.unpadded_shape@;
        let past = seen.seq_len as int;
        let total = past + d[d.len() - 2];
        &&& self.same_but_cache(after)
        &&& if d.len() < 2 {
            &&& r == Err::<Tensor<Element>, Error>(Error::InvalidShape)
            &&& seen_after == seen
            &&& after.concatenation_cache == self.concatenation_cache
        } else if !seen.takes(total) {
            &&& r == Err::<Tensor<Element>, Error>(Error::WrongSequenceLength)
            &&& seen_after == seen
            &&& after.concatenation_cache == self.concatenation_cache
        } else {
            &&& seen_after.initialized
            &&& seen_after.seq_len == total
            &&& d.len() > 4 ==> {
                &&& r == Err::<Tensor<Element>, Error>(Error::InvalidShape)
                &&& after.concatenation_cache == self.concatenation_cache
            }
            &&& d.len() <= 4 ==> exists|o: Tensor<Element>| #[trigger]
                self.rotates(input, past, o) && leaves_layer(
                    self.concatenation_cache,
                    after.concatenation_cache,
                    o,
                    input.spec_is_padded(),
                    r,
                )
        }
    }

    /// The rotated input, with all that is cached before it where there is a cache. The
    /// positions go on from those of the tokens so far.
    pub fn evaluate(&mut self, input: &Tensor<Element>, positional_cache: &mut PositionalCache) -> (r:
        Result<Tensor<Element>, Error>)
        requires
            old(self).can_evaluate(*input, *old(positional_cache)),
        ensures
            old(self).evaluates(
                *final(self),
                *old(positional_cache),
                *final(positional_cache),
                *input,
                r,
            ),
    {
        let rank: usize = input.unpadded_shape.rank();
        if rank < 2 {
            return Err(Error::InvalidShape);
        }
        let past: usize = positional_cache.seq_len;
        let current: usize = input.unpadded_shape.dims[rank - 2];
        match positional_cache.set_seq_len(past + current) {
            Ok(_) => {},
            Err(e) => {
                return Err(e);
            },
        }
        if rank > 4 {
            return Err(Error::InvalidShape);
        }
        let output = self.rotate(input, past);
        match self.concatenation_cache.take() {
            Some(cache) => {
                let mut c = cache;
                let r = c.concatenate(&output, 0);
                self.concatenation_cache = Some(c);
                proof {
                    assert(old(self).rotates(*input, past as int, output));
                    lemma_unpadded(output);
                }
                r
            },
            None => {
                assert(old(self).rotates(*input, past as int, output));
                if input.is_padded() {
                    Ok(output.pad_next_power_of_two(0))
                } else {
                    Ok(output)
                }
            },
        }
    }
}

/// What is cached of a tensor without padding has the shape of the tensor.
proof fn lemma_unpadded<N>(t: Tensor<N>)
    requires
        t.shape@ == t.unpadded_shape@,
    ensures
        cached_shape(t, PaddingMode::NoPadding) == t.shape@,
        cached_shape(t, PaddingMode::Padding) == t.shape@,
{
}

impl Rope<Element> {
    /// The layer with its matrices padded and its cache, where there is one, emptied
    /// and set to pad.
    pub fn pad_node(self) -> (r: Self)
        requires
            self.wf(),
            can_pad(self.cosine_matrix.tensor.shape@),
        ensures
            r.wf(),
            is_padded_from(self.cosine_matrix, r.cosine_matrix),
            is_padded_from(self.sine_matrix, r.sine_matrix),
            r.unpadded_shape == self.unpadded_shape,
            r.layout == self.layout,
            match (self.concatenation_cache, r.concatenation_cache) {
                (Some(a), Some(b)) => b.cached_tensor is None && b.caching_info == a.caching_info
                    && b.padding_mode == PaddingMode::Padding,
                (None, None) => true,
                _ => false,
            },
    {
        let cosine = self.cosine_matrix.tensor.pad_next_power_of_two(0);
        let sine = self.sine_matrix.tensor.pad_next_power_of_two(0);
        let concatenation_cache = match self.concatenation_cache {
            Some(cache) => {
                let mut c = cache;
                c.set_padding_mode(PaddingMode::Padding);
                Some(c)
            },
            None => None,
        };
        Rope {
            cosine_matrix: KeyedTensor { key: self.cosine_matrix.key, tensor: cosine },
            sine_matrix: KeyedTensor { key: self.sine_matrix.key, tensor: sine },
            unpadded_shape: self.unpadded_shape,
            layout: self.layout,
            concatenation_cache,
        }
    }
}

/// The tensor `r` is `t`, padded under the same name.
pub open spec fn is_padded_from(t: KeyedTensor<Element>, r: KeyedTensor<Element>) -> bool {
    &&& r.key == t.key
    &&& r.tensor.wf()
    &&& r.tensor.shape@ == padded(t.tensor.shape@)
    &&& r.tensor.unpadded_shape@ == t.tensor.unpadded_shape@
    &&& r.tensor.data@ == resized(t.tensor.data@, t.tensor.shape@, padded(t.tensor.shape@), 0)
}

} // verus!
