//! The layer with its matrices padded head by head.
use vstd::prelude::*;
use vstd::arithmetic::div_mod::*;
use vstd::arithmetic::power2::lemma_pow2_pos;
use crate::error::Error;
use crate::linear::is_matrix;
use crate::padding::PaddingMode;
use crate::qkv::{QKVCtx, QKV};
use crate::shape::{lemma_next_pow2, lemma_numel_matrix, log2_ceil, next_pow2, next_power_of_two, padded, Shape};
use crate::tensor::{can_pad, resized, Element, KeyedTensor, Tensor};

verus! {

/// The column `j` of a padded matrix holds a column of the matrix.
pub open spec fn holds_column(j: int, heads: int, hd: int, phd: int) -> bool {
    j % phd < hd && j / phd < heads
}

/// The column of the matrix that the column `j` of the padded matrix holds.
pub open spec fn column_of(j: int, hd: int, phd: int) -> int {
    (j / phd) * hd + j % phd
}

/// A matrix with `heads` times `hd` columns, padded to `prows` rows and to heads of
/// `phd` columns, `pcols` in all.
pub open spec fn heads_padded(
    w: Seq<Element>,
    rows: int,
    heads: int,
    hd: int,
    prows: int,
    phd: int,
    pcols: int,
) -> Seq<Element> {
    Seq::new(
        (prows * pcols) as nat,
        |p: int|
            if p / pcols < rows && holds_column(p % pcols, heads, hd, phd) {
                w[(p / pcols) * (heads * hd) + column_of(p % pcols, hd, phd)]
            } else {
                0
            },
    )
}

/// The columns of a matrix with padded heads.
pub open spec fn padded_cols(heads: int, hd: int) -> int {
    (next_pow2(hd as nat) * next_pow2(heads as nat)) as int
}

/// Pads the heads of a matrix.
fn pad_heads(data: &Vec<Element>, rows: usize, heads: usize, hd: usize, prows: usize) -> (r: Vec<
    Element,
>)
    requires
        hd > 0,
        data@.len() == rows * (heads * hd),
        next_pow2(hd as nat) <= usize::MAX,
        next_pow2(heads as nat) <= usize::MAX,
        padded_cols(heads as int, hd as int) <= usize::MAX,
        prows * padded_cols(heads as int, hd as int) <= usize::MAX,
    ensures
        r@ == heads_padded(
            data@,
            rows as int,
            heads as int,
            hd as int,
            prows as int,
            next_pow2(hd as nat) as int,
            padded_cols(heads as int, hd as int),
        ),
{
    let phd = next_power_of_two(hd);
    let pheads = next_power_of_two(heads);
    let pcols: usize = phd * pheads;
    let ghost goal = heads_padded(
        data@,
        rows as int,
        heads as int,
        hd as int,
        prows as int,
        phd as int,
        pcols as int,
    );
    proof {
        lemma_next_pow2(hd as nat);
        lemma_pow2_pos(log2_ceil(hd as nat));
        lemma_pow2_pos(log2_ceil(heads as nat));
        assert(pcols > 0) by (nonlinear_arith)
            requires
                pcols == phd * pheads,
                phd > 0,
                pheads > 0,
        ;
    }
    let count: usize = prows * pcols;
    let mut r: Vec<Element> = Vec::new();
    for p in 0..count
        invariant
            hd > 0,
            phd > 0,
            pcols > 0,
            count == prows * pcols,
            data@.len() == rows * (heads * hd),
            goal == heads_padded(
                data@,
                rows as int,
                heads as int,
                hd as int,
                prows as int,
                phd as int,
                pcols as int,
            ),
            r@ == goal.take(p as int),
    {
        let i: usize = p / pcols;
        let j: usize = p % pcols;
        let h: usize = j / phd;
        let c: usize = j % phd;
        let x: Element = if i < rows && c < hd && h < heads {
            proof {
                let (i, h, c, hd, heads, rows) = (
                    i as int,
                    h as int,
                    c as int,
                    hd as int,
                    heads as int,
                    rows as int,
                );
                let width = heads * hd;
                assert(0 <= h * hd && h * hd + hd <= width) by (nonlinear_arith)
                    requires
                        width == heads * hd,
                        0 <= h < heads,
                        0 < hd,
                ;
                assert(0 <= i * width && i * width + width <= rows * width) by (nonlinear_arith)
                    requires
                        0 <= i < rows,
                        0 <= width,
                ;
                assert(width <= rows * width) by (nonlinear_arith)
                    requires
                        0 <= i < rows,
                        0 <= width,
                ;
                assert(data.len() <= usize::MAX);
            }
            data[i * (heads * hd) + (h * hd + c)]
        } else {
            0
        };
        r.push(x);
        assert(goal.take(p + 1) =~= goal.take(p as int).push(goal[p as int]));
    }
    assert(goal.take(count as int) =~= goal);
    r
}

/// A matrix can be padded head by head.
pub open spec fn can_pad_heads(w: Tensor<Element>, hd: int) -> bool {
    let heads = w.shape@[1] as int / hd;
    let prows = next_pow2(w.shape@[0] as nat);
    &&& is_matrix(w)
    &&& w.shape@[1] as int % hd == 0
    &&& prows <= usize::MAX
    &&& next_pow2(heads as nat) <= usize::MAX
    &&& padded_cols(heads, hd) <= usize::MAX
    &&& prows * padded_cols(heads, hd) <= usize::MAX
}

/// The tensor `r` is the matrix `w`, padded head by head.
pub open spec fn is_padded_weight(w: Tensor<Element>, hd: int, r: Tensor<Element>) -> bool {
    let heads = w.shape@[1] as int / hd;
    let prows = next_pow2(w.shape@[0] as nat) as int;
    &&& r.wf()
    &&& r.shape@ == seq![prows as usize, padded_cols(heads, hd) as usize]
    &&& r.unpadded_shape@ == r.shape@
    &&& r.data@ == heads_padded(
        w.data@,
        w.shape@[0] as int,
        heads,
        hd,
        prows,
        next_pow2(hd as nat) as int,
        padded_cols(heads, hd),
    )
}

/// The tensor `r` is the bias `b`, padded head by head.
pub open spec fn is_padded_bias(b: Tensor<Element>, hd: int, r: Tensor<Element>) -> bool {
    let heads = b.shape@[0] as int / hd;
    &&& r.wf()
    &&& r.shape@ == seq![padded_cols(heads, hd) as usize]
    &&& r.unpadded_shape@ == r.shape@
    &&& r.data@ == heads_padded(
        b.data@,
        1,
        heads,
        hd,
        1,
        next_pow2(hd as nat) as int,
        padded_cols(heads, hd),
    )
}

/// A matrix, padded head by head.
fn pad_weight(w: &Tensor<Element>, hd: usize) -> (r: Tensor<Element>)
    requires
        hd > 0,
        next_pow2(hd as nat) <= usize::MAX,
        can_pad_heads(*w, hd as int),
    ensures
        is_padded_weight(*w, hd as int, r),
{
    let rows: usize = w.shape.dims[0];
    let cols: usize = w.shape.dims[1];
    let heads: usize = cols / hd;
    proof {
        assert(w.shape@ =~= seq![rows, cols]);
        lemma_numel_matrix(rows, cols);
        lemma_fundamental_div_mod(cols as int, hd as int);
        assert(heads * hd == hd * heads) by (nonlinear_arith);
    }
    let prows = next_power_of_two(rows);
    let data = pad_heads(&w.data, rows, heads, hd, prows);
    let mut dims: Vec<usize> = Vec::new();
    dims.push(prows);
    dims.push(next_power_of_two(hd) * next_power_of_two(heads));
    proof {
        assert(dims@ =~= seq![prows, padded_cols(heads as int, hd as int) as usize]);
        lemma_numel_matrix(prows, padded_cols(heads as int, hd as int) as usize);
    }
    let shape = Shape::new(dims);
    Tensor { data, unpadded_shape: shape.clone(), shape }
}

/// A bias can be padded head by head.
pub open spec fn can_pad_bias(b: Option<KeyedTensor<Element>>, hd: int) -> bool {
    b matches Some(t) ==> {
        let heads = t.tensor.shape@[0] as int / hd;
        &&& t.tensor.wf()
        &&& t.tensor.shape@.len() == 1
        &&& t.tensor.shape@[0] as int % hd == 0
        &&& next_pow2(heads as nat) <= usize::MAX
        &&& padded_cols(heads, hd) <= usize::MAX
    }
}

/// A bias, padded head by head.
fn pad_bias(b: &Tensor<Element>, hd: usize) -> (r: Tensor<Element>)
    requires
        hd > 0,
        next_pow2(hd as nat) <= usize::MAX,
        b.wf(),
        b.shape@.len() == 1,
        b.shape@[0] as int % hd as int == 0,
        next_pow2((b.shape@[0] as int / hd as int) as nat) <= usize::MAX,
        padded_cols(b.shape@[0] as int / hd as int, hd as int) <= usize::MAX,
    ensures
        is_padded_bias(*b, hd as int, r),
{
    let cols: usize = b.shape.dims[0];
    let heads: usize = cols / hd;
    proof {
        assert(b.shape@ =~= seq![cols]);
        lemma_numel_matrix(cols, 1);
        lemma_fundamental_div_mod(cols as int, hd as int);
        assert(1 * (heads * hd) == hd * heads) by (nonlinear_arith);
        assert(1 * padded_cols(heads as int, hd as int) == padded_cols(heads as int, hd as int));
    }
    let data = pad_heads(&b.data, 1, heads, hd, 1);
    let mut dims: Vec<usize> = Vec::new();
    dims.push(next_power_of_two(hd) * next_power_of_two(heads));
    proof {
        let pc = padded_cols(heads as int, hd as int) as usize;
        assert(dims@ =~= seq![pc]);
        lemma_numel_matrix(pc, 1);
    }
    let shape = Shape::new(dims);
    Tensor { data, unpadded_shape: shape.clone(), shape }
}

/// An optional bias, padded head by head.
fn pad_optional_bias(b: Option<KeyedTensor<Element>>, hd: usize) -> (r: Option<KeyedTensor<Element>>)
    requires
        hd > 0,
        next_pow2(hd as nat) <= usize::MAX,
        can_pad_bias(b, hd as int),
    ensures
        bias_is_padded(b, hd as int, r),
{
    match b {
        Some(t) => {
            let tensor = pad_bias(&t.tensor, hd);
            Some(KeyedTensor { key: t.key, tensor })
        },
        None => None,
    }
}

/// An optional bias is that of the layer, padded under the same name.
pub open spec fn bias_is_padded(
    b: Option<KeyedTensor<Element>>,
    hd: int,
    r: Option<KeyedTensor<Element>>,
) -> bool {
    match (b, r) {
        (Some(x), Some(y)) => x.key == y.key && is_padded_bias(x.tensor, hd, y.tensor),
        (None, None) => true,
        _ => false,
    }
}

impl QKV<Element> {
    /// The layer with its matrices and biases padded head by head, and with an empty
    /// cache that pads; with it the shapes of its outputs, without and with padding.
    pub fn pad_node(self, input_shapes: &Vec<Shape>) -> (r: (Self, Vec<Shape>, Vec<Shape>))
        requires
            self.head_dim > 0,
            next_pow2(self.head_dim as nat) <= usize::MAX,
            can_pad_heads(self.q.tensor, self.head_dim as int),
            can_pad_heads(self.k.tensor, self.head_dim as int),
            can_pad_heads(self.v.tensor, self.head_dim as int),
            can_pad_bias(self.q_bias, self.head_dim as int),
            can_pad_bias(self.k_bias, self.head_dim as int),
            can_pad_bias(self.v_bias, self.head_dim as int),
            input_shapes@.len() == 1,
            input_shapes@[0]@.len() >= 1,
            next_pow2(input_shapes@[0]@[0] as nat) <= usize::MAX,
            self.weights_unpadded_shape@.len() >= 2,
            next_pow2(self.weights_unpadded_shape@[0] as nat) <= usize::MAX,
            next_pow2(self.num_heads as nat) <= usize::MAX,
            padded_cols(self.num_heads as int, self.head_dim as int) <= usize::MAX,
        ensures
            ({
                let l = r.0;
                let hd = self.head_dim as int;
                let rows = input_shapes@[0]@[0];
                &&& l.q.key == self.q.key && is_padded_weight(self.q.tensor, hd, l.q.tensor)
                &&& l.k.key == self.k.key && is_padded_weight(self.k.tensor, hd, l.k.tensor)
                &&& l.v.key == self.v.key && is_padded_weight(self.v.tensor, hd, l.v.tensor)
                &&& bias_is_padded(self.q_bias, hd, l.q_bias)
                &&& bias_is_padded(self.k_bias, hd, l.k_bias)
                &&& bias_is_padded(self.v_bias, hd, l.v_bias)
                &&& l.weights_unpadded_shape == self.weights_unpadded_shape
                &&& l.num_heads == self.num_heads
                &&& l.num_groups == self.num_groups
                &&& l.head_dim == self.head_dim
                &&& l.cache.wf()
                &&& !l.cache.initialized
                &&& l.cache.padding_mode == PaddingMode::Padding
                &&& r.1@.len() == 3
                &&& r.2@.len() == 3
                &&& forall|k: int|
                    0 <= k < 3 ==> (#[trigger] r.1@[k])@ == seq![
                        rows,
                        self.weights_unpadded_shape@[1],
                    ]
                &&& forall|k: int|
                    0 <= k < 3 ==> (#[trigger] r.2@[k])@ == seq![
                        next_pow2(rows as nat) as usize,
                        padded_cols(self.num_heads as int, hd) as usize,
                    ]
            }),
    {
        let hd = self.head_dim;
        let q = KeyedTensor { key: self.q.key, tensor: pad_weight(&self.q.tensor, hd) };
        let k = KeyedTensor { key: self.k.key, tensor: pad_weight(&self.k.tensor, hd) };
        let v = KeyedTensor { key: self.v.key, tensor: pad_weight(&self.v.tensor, hd) };
        let q_bias = pad_optional_bias(self.q_bias, hd);
        let k_bias = pad_optional_bias(self.k_bias, hd);
        let v_bias = pad_optional_bias(self.v_bias, hd);
        let mut cache = self.cache;
        cache.reset();
        cache.padding_mode = PaddingMode::Padding;
        let layer = QKV {
            q,
            q_bias,
            k,
            k_bias,
            v,
            v_bias,
            weights_unpadded_shape: self.weights_unpadded_shape,
            cache,
            num_heads: self.num_heads,
            head_dim: hd,
            num_groups: self.num_groups,
        };
        let unpadded = layer.output_shapes(input_shapes, PaddingMode::NoPadding);
        let padded_shapes = layer.output_shapes(input_shapes, PaddingMode::Padding);
        (layer, unpadded, padded_shapes)
    }

    /// The context of the layer, the padded matrices and biases to commit to, and the
    /// shapes of the output, for the shape of the input. The cache is emptied.
    pub fn step_info(&mut self, node_id: usize, last_output_shapes: &Vec<Shape>) -> (r: Result<
        (QKVCtx, Vec<(String, Vec<Element>)>, Vec<Shape>),
        Error,
    >)
        requires
            old(self).q.tensor.shape@.len() >= 1,
            last_output_shapes@.len() == 1 ==> {
                &&& last_output_shapes@[0]@.len() >= 2
                &&& next_pow2(last_output_shapes@[0]@[0] as nat) <= usize::MAX
            },
            old(self).weights_unpadded_shape@.len() >= 2,
            next_pow2(old(self).weights_unpadded_shape@[0] as nat) <= usize::MAX,
            next_pow2(old(self).num_heads as nat) <= usize::MAX,
            next_pow2(old(self).head_dim as nat) <= usize::MAX,
            padded_cols(old(self).num_heads as int, old(self).head_dim as int) <= usize::MAX,
            forall|i: int|
                0 <= i < old(self).committed().len() ==> {
                    let t = (#[trigger] old(self).committed()[i]).tensor;
                    t.wf() && can_pad(t.shape@)
                },
        ensures
            match r {
                Ok((ctx, polys, shapes)) => {
                    let rows = last_output_shapes@[0]@[0];
                    let l = *old(self);
                    &&& last_output_shapes@.len() == 1
                    &&& last_output_shapes@[0]@[1] == l.q.tensor.shape@[0]
                    &&& ctx.node_id == node_id
                    &&& ctx.unpadded_shape@ == l.weights_unpadded_shape@
                    &&& ctx.num_heads == l.num_heads
                    &&& ctx.head_dim == l.head_dim
                    &&& ctx.q_weight_key@ == l.q.key@
                    &&& ctx.k_weight_key@ == l.k.key@
                    &&& ctx.v_weight_key@ == l.v.key@
                    &&& same_key(ctx.q_bias_key, l.q_bias)
                    &&& same_key(ctx.k_bias_key, l.k_bias)
                    &&& same_key(ctx.v_bias_key, l.v_bias)
                    &&& polys@.len() == l.committed().len()
                    &&& forall|i: int| 0 <= i < polys@.len() ==> is_poly_of(
                        l.committed()[i],
                        #[trigger] polys@[i],
                    )
                    &&& shapes@.len() == 3
                    &&& forall|k: int|
                        0 <= k < 3 ==> (#[trigger] shapes@[k])@ == seq![
                            next_pow2(rows as nat) as usize,
                            padded_cols(l.num_heads as int, l.head_dim as int) as usize,
                        ]
                    &&& final(self).cache.is_new()
                },
                Err(e) => {
                    &&& final(self).cache == old(self).cache
                    &&& if last_output_shapes@.len() != 1 {
                        e == Error::WrongNumberOfInputs
                    } else {
                        &&& e == Error::InvalidShape
                        &&& last_output_shapes@[0]@[1] != old(self).q.tensor.shape@[0]
                    }
                },
            },
            final(self).committed() == old(self).committed(),
            final(self).weights_unpadded_shape == old(self).weights_unpadded_shape,
            final(self).num_heads == old(self).num_heads,
            final(self).head_dim == old(self).head_dim,
            final(self).num_groups == old(self).num_groups,
    {
        if last_output_shapes.len() != 1 {
            return Err(Error::WrongNumberOfInputs);
        }
        if last_output_shapes[0].dims[1] != self.q.tensor.shape.dims[0] {
            return Err(Error::InvalidShape);
        }
        self.reset_cache();
        let shapes = self.output_shapes(last_output_shapes, PaddingMode::Padding);
        let ghost all = self.committed();
        assert(all == old(self).committed());
        let mut polys: Vec<(String, Vec<Element>)> = Vec::new();
        assert(all[0] == self.q && all[1] == self.k && all[2] == self.v);
        polys.push(poly_of(&self.q));
        polys.push(poly_of(&self.k));
        polys.push(poly_of(&self.v));
        if let Some(b) = &self.q_bias {
            assert(all[3] == *b);
            polys.push(poly_of(b));
        }
        if let Some(b) = &self.k_bias {
            assert(all[polys@.len() as int] == *b);
            polys.push(poly_of(b));
        }
        if let Some(b) = &self.v_bias {
            assert(all[polys@.len() as int] == *b);
            polys.push(poly_of(b));
        }
        let ctx = QKVCtx {
            node_id,
            unpadded_shape: self.weights_unpadded_shape.clone(),
            num_heads: self.num_heads,
            head_dim: self.head_dim,
            q_weight_key: self.q.key.clone(),
            k_weight_key: self.k.key.clone(),
            v_weight_key: self.v.key.clone(),
            q_bias_key: key_of(&self.q_bias),
            k_bias_key: key_of(&self.k_bias),
            v_bias_key: key_of(&self.v_bias),
        };
        Ok((ctx, polys, shapes))
    }

    /// The matrices and biases that are committed to, in order.
    pub open spec fn committed(&self) -> Seq<KeyedTensor<Element>> {
        seq![self.q, self.k, self.v] + listed(self.q_bias) + listed(self.k_bias) + listed(
            self.v_bias,
        )
    }
}

/// What is there of an optional tensor.
pub open spec fn listed<N>(b: Option<KeyedTensor<N>>) -> Seq<KeyedTensor<N>> {
    match b {
        Some(t) => seq![t],
        None => seq![],
    }
}

/// A name is that of a bias, where there is one.
pub open spec fn same_key<N>(key: Option<String>, b: Option<KeyedTensor<N>>) -> bool {
    match (key, b) {
        (Some(k), Some(t)) => k@ == t.key@,
        (None, None) => true,
        _ => false,
    }
}

/// The name of a bias, where there is one.
fn key_of<N>(b: &Option<KeyedTensor<N>>) -> (r: Option<String>)
    ensures
        same_key(r, *b),
{
    match b {
        Some(t) => Some(t.key.clone()),
        None => None,
    }
}

/// The name and the padded values of a tensor.
pub open spec fn is_poly_of(t: KeyedTensor<Element>, p: (String, Vec<Element>)) -> bool {
    &&& p.0@ == t.key@
    &&& p.1@ == resized(t.tensor.data@, t.tensor.shape@, padded(t.tensor.shape@), 0)
}

/// The name and the padded values of a tensor.
fn poly_of(t: &KeyedTensor<Element>) -> (r: (String, Vec<Element>))
    requires
        t.tensor.wf(),
        can_pad(t.tensor.shape@),
    ensures
        is_poly_of(*t, r),
{
    (t.key.clone(), t.tensor.pad_next_power_of_two(0).data)
}

} // verus!
