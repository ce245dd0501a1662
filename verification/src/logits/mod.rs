//! The last layer of a language model: the token with the largest logit.
use vstd::prelude::*;
use vstd::arithmetic::div_mod::*;
use crate::claim::part;
use crate::error::Error;
use crate::lookup::{Table, SHIFT_CHECK_TABLE_BIT_SIZE};
use crate::padding::ShapeData;
use crate::shape::{ceil_log2_u64, lemma_numel_matrix, log2_ceil, numel, Shape};
use crate::tensor::{Element, KeyedTensor, Tensor};

pub mod claimed;
pub mod laws;
pub mod prove;
pub mod verify;
pub mod witness;

verus! {

/// The maximum of each row of each input.
#[derive(Debug)]
pub struct ArgmaxData {
    pub max_values: Vec<Tensor<Element>>,
}

/// The rows that a chunk has at least, where nothing else is asked for.
pub const DEFAULT_MIN_CHUNK_SIZE: usize = 128;

/// The maxima, under the names by which they are stored.
#[derive(Debug)]
pub struct ArgmaxHandle {
    pub max_values: Vec<KeyedTensor<Element>>,
}

/// What quantised evaluation knows of its input.
#[derive(Clone, Copy, Debug, PartialEq, Eq, Structural)]
pub struct QuantizedArgMaxData {
    /// The number of bits of the absolute values of the input.
    pub input_bit_size: usize,
}

/// How a token is chosen from the logits.
#[derive(Clone, Copy, Debug, PartialEq, Eq, Structural)]
pub enum Logits {
    /// The token with the largest logit.
    Argmax(Option<QuantizedArgMaxData>),
}

/// What the verifier knows of a logits layer.
#[derive(Clone, Copy, Debug, PartialEq, Eq, Structural)]
pub struct LogitsCtx {
    /// How many table lookups range-check one value.
    pub range_check_chunks: usize,
}

/// The number of rows of a tensor, all dimensions but the last taken together.
pub open spec fn rows_of(d: Seq<usize>) -> nat {
    numel(d.drop_last())
}

/// `m` is the maximum of the first `width` values of a row, and `i` the first
/// place where it stands.
pub open spec fn is_argmax(row: Seq<Element>, width: int, i: int, m: Element) -> bool {
    &&& 0 <= i < width
    &&& row[i] == m
    &&& forall|j: int| 0 <= j < width ==> #[trigger] row[j] <= m
    &&& forall|j: int| 0 <= j < i ==> #[trigger] row[j] < m
}

/// The `r`-th row of a tensor, including its padding.
pub open spec fn row_of<N>(t: Tensor<N>, r: int) -> Seq<N> {
    let l = t.shape@.last() as int;
    t.data@.subrange(r * l, (r + 1) * l)
}

/// The rows of the tensor `t`, up to its padding, have their maxima at `indices`,
/// and these are `maxima`.
pub open spec fn is_argmax_of(t: Tensor<Element>, indices: Tensor<Element>, maxima: Tensor<Element>) -> bool {
    let rows = rows_of(t.shape@);
    &&& indices.wf()
    &&& maxima.wf()
    &&& indices.shape@ == seq![rows as usize, 1usize]
    &&& maxima.shape@ == seq![rows as usize, 1usize]
    &&& indices.data@.len() == rows
    &&& maxima.data@.len() == rows
    &&& forall|r: int|
        0 <= r < rows ==> is_argmax(
            row_of(t, r),
            t.unpadded_shape@.last() as int,
            #[trigger] indices.data@[r] as int,
            maxima.data@[r],
        )
}

/// How many chunks of the width of the lookup table hold one bit more than
/// `input_bit_size`.
pub open spec fn chunk_count(input_bit_size: int) -> int {
    let bits = if input_bit_size + 1 < SHIFT_CHECK_TABLE_BIT_SIZE {
        SHIFT_CHECK_TABLE_BIT_SIZE as int
    } else {
        input_bit_size + 1
    };
    (bits + SHIFT_CHECK_TABLE_BIT_SIZE - 1) / SHIFT_CHECK_TABLE_BIT_SIZE as int
}

impl ArgmaxHandle {
    /// The maxima, each under its name.
    pub fn new(keys: Vec<String>, argmax_data: ArgmaxData) -> (r: Self)
        requires
            keys@.len() == argmax_data.max_values@.len(),
        ensures
            r.max_values@.len() == keys@.len(),
            forall|i: int|
                0 <= i < r.max_values@.len() ==> (#[trigger] r.max_values@[i]).key == keys@[i]
                    && r.max_values@[i].tensor == argmax_data.max_values@[i],
    {
        let mut keys = keys;
        let mut tensors = argmax_data.max_values;
        let ghost all_keys = keys@;
        let ghost all = tensors@;
        let mut max_values: Vec<KeyedTensor<Element>> = Vec::new();
        while keys.len() > 0
            invariant
                all.len() == all_keys.len(),
                max_values@.len() <= all.len(),
                keys@ == all_keys.skip(max_values@.len() as int),
                tensors@ == all.skip(max_values@.len() as int),
                forall|i: int|
                    0 <= i < max_values@.len() ==> (#[trigger] max_values@[i]).key == all_keys[i]
                        && max_values@[i].tensor == all[i],
            decreases keys.len(),
        {
            let ghost n = max_values@.len() as int;
            let key = keys.remove(0);
            let tensor = tensors.remove(0);
            proof {
                assert(keys@ =~= all_keys.skip(n + 1));
                assert(tensors@ =~= all.skip(n + 1));
            }
            max_values.push(KeyedTensor { key, tensor });
        }
        ArgmaxHandle { max_values }
    }

    /// The maxima of each of `num_chunks` chunks, for the parts into which the tensors were
    /// split: those of the first tensor come first.
    pub fn split_tensors(parts: Vec<KeyedTensor<Element>>, num_chunks: usize, num_handles: usize) -> (r:
        Vec<ArgmaxHandle>)
        requires
            parts@.len() == num_handles * num_chunks,
        ensures
            r@.len() == num_chunks,
            forall|c: int|
                0 <= c < r@.len() ==> is_chunk_of(
                    parts@,
                    num_chunks as int,
                    num_handles as int,
                    c,
                    #[trigger] r@[c],
                ),
    {
        let ghost all = parts@;
        let mut parts = parts;
        let mut r: Vec<ArgmaxHandle> = Vec::new();
        for c in 0..num_chunks
            invariant
                r@.len() == c,
                forall|k: int|
                    0 <= k < c ==> is_chunk_of(all, num_chunks as int, 0, k, #[trigger] r@[k]),
        {
            r.push(ArgmaxHandle { max_values: Vec::new() });
        }
        assert(all.skip(0) =~= all);
        assert(0 * num_chunks == 0);
        for h in 0..num_handles
            invariant
                all.len() == num_handles * num_chunks,
                parts@ == all.skip(h * num_chunks),
                r@.len() == num_chunks,
                forall|k: int|
                    0 <= k < num_chunks ==> is_chunk_of(
                        all,
                        num_chunks as int,
                        h as int,
                        k,
                        #[trigger] r@[k],
                    ),
        {
            proof {
                assert((h + 1) * num_chunks == h * num_chunks + num_chunks
                    && (h + 1) * num_chunks <= num_handles * num_chunks) by (nonlinear_arith)
                    requires
                        h < num_handles,
                ;
            }
            let mut next: Vec<ArgmaxHandle> = Vec::new();
            let ghost before = r@;
            for c in 0..num_chunks
                invariant
                    all.len() == num_handles * num_chunks,
                    0 <= h < num_handles,
                    0 <= h * num_chunks,
                    h * num_chunks + num_chunks <= all.len(),
                    parts@ == all.skip(h * num_chunks + c),
                    before.len() == num_chunks,
                    r@ == before.skip(c as int),
                    next@.len() == c,
                    forall|k: int|
                        0 <= k < num_chunks ==> is_chunk_of(
                            all,
                            num_chunks as int,
                            h as int,
                            k,
                            #[trigger] before[k],
                        ),
                    forall|k: int|
                        0 <= k < c ==> is_chunk_of(
                            all,
                            num_chunks as int,
                            h + 1,
                            k,
                            #[trigger] next@[k],
                        ),
            {
                let part = parts.remove(0);
                let mut handle = r.remove(0);
                proof {
                    assert(part == all[h * num_chunks + c]);
                    assert(handle == before[c as int]);
                    assert(parts@ =~= all.skip(h * num_chunks + c + 1));
                    assert(r@ =~= before.skip(c + 1));
                }
                handle.max_values.push(part);
                next.push(handle);
            }
            r = next;
        }
        r
    }
}

/// The chunk `c` of the first `num_handles` tensors, each split into `num_chunks` parts.
pub open spec fn is_chunk_of(
    parts: Seq<KeyedTensor<Element>>,
    num_chunks: int,
    num_handles: int,
    c: int,
    r: ArgmaxHandle,
) -> bool {
    &&& r.max_values@.len() == num_handles
    &&& forall|h: int|
        0 <= h < num_handles ==> #[trigger] r.max_values@[h] == parts[h * num_chunks + c]
}

impl LogitsCtx {
    /// The tables that the layer looks values up in.
    pub fn lookup_tables(&self) -> (r: Vec<Table>)
        ensures
            r@ == seq![Table::ShiftCheck],
    {
        let mut r: Vec<Table> = Vec::new();
        r.push(Table::new_shift_check());
        assert(r@ =~= seq![Table::ShiftCheck]);
        r
    }

    /// How many chunks the rows of a single input of rank two are best split into,
    /// where a chunk has at least `min_chunk_size` rows, or those of the default. Several
    /// inputs are not split.
    pub fn ideal_num_chunks(&self, input_shapes: &Vec<Shape>, min_chunk_size: Option<usize>) -> (r:
        Option<usize>)
        requires
            min_chunk_size matches Some(m) ==> m > 0,
            input_shapes@.len() == 1 ==> input_shapes@[0]@.len() == 2,
        ensures
            r is Some <==> input_shapes@.len() == 1,
            r matches Some(n) ==> {
                let m = match min_chunk_size {
                    Some(m) => m,
                    None => DEFAULT_MIN_CHUNK_SIZE,
                };
                &&& n * m >= input_shapes@[0]@[0]
                &&& (n - 1) * m < input_shapes@[0]@[0] || n == 0
            },
    {
        if input_shapes.len() != 1 {
            return None;
        }
        let min_chunk_size: usize = match min_chunk_size {
            Some(m) => m,
            None => DEFAULT_MIN_CHUNK_SIZE,
        };
        let seq_len: usize = input_shapes[0].dims[0];
        let q: usize = seq_len / min_chunk_size;
        let rest: usize = seq_len % min_chunk_size;
        proof {
            lemma_fundamental_div_mod(seq_len as int, min_chunk_size as int);
            let m = min_chunk_size as int;
            let p = q as int;
            assert(p * m == m * p) by (nonlinear_arith);
            assert((p + 1) * m == p * m + m) by (nonlinear_arith);
            assert((p - 1) * m == p * m - m) by (nonlinear_arith);
            assert(rest > 0 ==> q < usize::MAX) by {
                if rest > 0 && q == usize::MAX {
                    assert(p * m >= p) by (nonlinear_arith)
                        requires
                            m >= 1,
                            p >= 0,
                    ;
                }
            }
        }
        if rest == 0 {
            Some(q)
        } else {
            Some(q + 1)
        }
    }
}

impl Logits {
    pub fn new_argmax() -> (r: Self)
        ensures
            r == Logits::Argmax(None),
    {
        Logits::Argmax(None)
    }

    /// The shapes of the chosen tokens: one for each row.
    pub fn output_shapes(input_shapes: &Vec<Shape>) -> (r: Vec<Shape>)
        requires
            forall|k: int|
                0 <= k < input_shapes@.len() ==> (#[trigger] input_shapes@[k])@.len() >= 1
                    && rows_fit(input_shapes@[k]@),
        ensures
            r@.len() == input_shapes@.len(),
            forall|k: int|
                0 <= k < r@.len() ==> (#[trigger] r@[k])@ == seq![
                    rows_of(input_shapes@[k]@) as usize,
                    1usize,
                ],
    {
        let mut r: Vec<Shape> = Vec::new();
        for k in 0..input_shapes.len()
            invariant
                forall|k: int|
                    0 <= k < input_shapes@.len() ==> (#[trigger] input_shapes@[k])@.len() >= 1
                        && rows_fit(input_shapes@[k]@),
                r@.len() == k,
                forall|j: int|
                    0 <= j < k ==> (#[trigger] r@[j])@ == seq![
                        rows_of(input_shapes@[j]@) as usize,
                        1usize,
                    ],
        {
            r.push(column_shape(count_rows(&input_shapes[k])));
        }
        r
    }

    /// The coordinates of a point, split into those of the columns and the last
    /// `num_row_vars`, those of the rows.
    pub fn split_claim_point<F: Copy>(point: &[F], num_row_vars: usize) -> (r: (Vec<F>, Vec<F>))
        requires
            num_row_vars <= point@.len(),
        ensures
            r.0@ == point@.take(point@.len() - num_row_vars),
            r.1@ == point@.skip(point@.len() - num_row_vars),
    {
        let split: usize = point.len() - num_row_vars;
        let columns = part(point, 0, split);
        let rows = part(point, split, point.len());
        assert(columns@ =~= point@.take(split as int));
        assert(rows@ =~= point@.skip(split as int));
        (columns, rows)
    }

    /// How many table lookups it takes to range-check the distance of a value to
    /// the maximum.
    pub fn range_check_chunks(&self) -> (r: usize)
        requires
            self->Argmax_0 is Some,
            self->Argmax_0->Some_0.input_bit_size < usize::MAX,
        ensures
            r == chunk_count(self->Argmax_0->Some_0.input_bit_size as int),
            r >= 1,
    {
        match self {
            Logits::Argmax(Some(data)) => {
                let bit_size: usize = data.input_bit_size + 1;
                let bit_size: usize = if bit_size < SHIFT_CHECK_TABLE_BIT_SIZE {
                    SHIFT_CHECK_TABLE_BIT_SIZE
                } else {
                    bit_size
                };
                let q: usize = bit_size / SHIFT_CHECK_TABLE_BIT_SIZE;
                if bit_size % SHIFT_CHECK_TABLE_BIT_SIZE == 0 {
                    q
                } else {
                    q + 1
                }
            },
            Logits::Argmax(None) => 0,
        }
    }

    /// The layer for an input whose quantised values lie between `min` and `max`.
    /// It takes a single scaling factor.
    pub fn quantize_op(self, domains: &Vec<(Element, Element)>) -> (r: Result<Logits, Error>)
        requires
            domains@.len() == 1 ==> domains@[0].0 > Element::MIN && domains@[0].1 > Element::MIN,
        ensures
            r is Ok <==> domains@.len() == 1,
            match r {
                Ok(l) => l == Logits::Argmax(
                    Some(
                        QuantizedArgMaxData {
                            input_bit_size: log2_ceil(
                                larger_magnitude(domains@[0].0 as int, domains@[0].1 as int) as nat,
                            ) as usize,
                        },
                    ),
                ),
                Err(e) => e == Error::InvalidScaling,
            },
    {
        if domains.len() != 1 {
            return Err(Error::InvalidScaling);
        }
        let (min, max) = domains[0];
        let a: u64 = if min < 0 {
            (-min) as u64
        } else {
            min as u64
        };
        let b: u64 = if max < 0 {
            (-max) as u64
        } else {
            max as u64
        };
        let m: u64 = if a >= b {
            a
        } else {
            b
        };
        let input_bit_size = ceil_log2_u64(m);
        Ok(Logits::Argmax(Some(QuantizedArgMaxData { input_bit_size })))
    }

    /// For every input the place of the maximum of each row, and the maxima
    /// themselves. Inputs of a rank below two are refused.
    pub fn evaluate(&self, inputs: &Vec<Tensor<Element>>) -> (r: Result<
        (Vec<Tensor<Element>>, ArgmaxData),
        Error,
    >)
        requires
            forall|k: int|
                0 <= k < inputs@.len() ==> {
                    &&& (#[trigger] inputs@[k]).wf()
                    &&& inputs@[k].shape@.len() >= 2 ==> inputs@[k].unpadded_shape@.last() > 0
                        && inputs@[k].shape@.last() <= Element::MAX
                },
        ensures
            r is Ok <==> forall|k: int|
                0 <= k < inputs@.len() ==> (#[trigger] inputs@[k]).shape@.len() >= 2,
            match r {
                Ok((out, data)) => {
                    &&& out@.len() == inputs@.len()
                    &&& data.max_values@.len() == inputs@.len()
                    &&& forall|k: int|
                        0 <= k < out@.len() ==> is_argmax_of(
                            inputs@[k],
                            #[trigger] out@[k],
                            data.max_values@[k],
                        )
                },
                Err(e) => e == Error::InvalidShape,
            },
    {
        for k in 0..inputs.len()
            invariant
                forall|j: int| 0 <= j < k ==> (#[trigger] inputs@[j]).shape@.len() >= 2,
        {
            if inputs[k].shape.rank() < 2 {
                assert(inputs@[k as int].shape@.len() < 2);
                return Err(Error::InvalidShape);
            }
        }
        let mut out: Vec<Tensor<Element>> = Vec::new();
        let mut max_values: Vec<Tensor<Element>> = Vec::new();
        for k in 0..inputs.len()
            invariant
                forall|k: int|
                    0 <= k < inputs@.len() ==> {
                        &&& (#[trigger] inputs@[k]).wf()
                        &&& inputs@[k].shape@.len() >= 2
                        &&& inputs@[k].unpadded_shape@.last() > 0
                        &&& inputs@[k].shape@.last() <= Element::MAX
                    },
                out@.len() == k,
                max_values@.len() == k,
                forall|j: int|
                    0 <= j < k ==> is_argmax_of(inputs@[j], #[trigger] out@[j], max_values@[j]),
        {
            let (indices, maxima) = argmax_rows(&inputs[k]);
            out.push(indices);
            max_values.push(maxima);
        }
        Ok((out, ArgmaxData { max_values }))
    }
}

impl Logits {
    /// The context of the layer, the size of the largest table that it commits to
    /// and the shapes of its output. The layer has a single input.
    pub fn step_info(&self, last_output_shapes: &Vec<Shape>) -> (r: Result<
        (LogitsCtx, usize, Vec<Shape>),
        Error,
    >)
        requires
            self->Argmax_0 is Some,
            self->Argmax_0->Some_0.input_bit_size < usize::MAX,
            last_output_shapes@.len() == 1 ==> {
                &&& last_output_shapes@[0]@.len() >= 1
                &&& forall|k: int|
                    0 <= k <= last_output_shapes@[0]@.len() ==> #[trigger] numel(
                        last_output_shapes@[0]@.take(k),
                    ) <= usize::MAX
            },
        ensures
            r is Ok <==> last_output_shapes@.len() == 1,
            match r {
                Ok((ctx, max_poly_len, shapes)) => {
                    let shape = last_output_shapes@[0]@;
                    &&& ctx.range_check_chunks == chunk_count(
                        self->Argmax_0->Some_0.input_bit_size as int,
                    )
                    &&& max_poly_len == if ctx.range_check_chunks == 1 {
                        rows_of(shape)
                    } else {
                        numel(shape)
                    }
                    &&& shapes@.len() == 1
                    &&& shapes@[0]@ == seq![rows_of(shape) as usize, 1usize]
                },
                Err(e) => e == Error::WrongNumberOfInputs,
            },
    {
        if last_output_shapes.len() != 1 {
            return Err(Error::WrongNumberOfInputs);
        }
        let range_check_chunks = self.range_check_chunks();
        let max_poly_len: usize = if range_check_chunks == 1 {
            count_rows(&last_output_shapes[0])
        } else {
            last_output_shapes[0].numel()
        };
        let shapes = Self::output_shapes(last_output_shapes);
        Ok((LogitsCtx { range_check_chunks }, max_poly_len, shapes))
    }

    /// The shapes that leave the layer for those that enter it. Padding that is to
    /// be ignored is refused.
    pub fn pad_node(&self, shapes: &Vec<ShapeData>) -> (r: Result<Vec<ShapeData>, Error>)
        requires
            forall|k: int|
                0 <= k < shapes@.len() ==> {
                    &&& (#[trigger] shapes@[k]).input_shape_og@.len() >= 1
                    &&& shapes@[k].input_shape_padded@.len() >= 1
                    &&& rows_fit(shapes@[k].input_shape_og@)
                    &&& rows_fit(shapes@[k].input_shape_padded@)
                },
        ensures
            r is Ok <==> forall|k: int|
                0 <= k < shapes@.len() ==> !(#[trigger] shapes@[k]).ignore_garbage_pad,
            match r {
                Ok(v) => {
                    &&& v@.len() == shapes@.len()
                    &&& forall|k: int|
                        0 <= k < v@.len() ==> {
                            &&& (#[trigger] v@[k]).input_shape_og@ == seq![
                                rows_of(shapes@[k].input_shape_og@) as usize,
                                1usize,
                            ]
                            &&& v@[k].input_shape_padded@ == seq![
                                rows_of(shapes@[k].input_shape_padded@) as usize,
                                1usize,
                            ]
                            &&& !v@[k].ignore_garbage_pad
                        }
                },
                Err(e) => e == Error::InvalidShape,
            },
    {
        let mut r: Vec<ShapeData> = Vec::new();
        for k in 0..shapes.len()
            invariant
                forall|k: int|
                    0 <= k < shapes@.len() ==> {
                        &&& (#[trigger] shapes@[k]).input_shape_og@.len() >= 1
                        &&& shapes@[k].input_shape_padded@.len() >= 1
                        &&& rows_fit(shapes@[k].input_shape_og@)
                        &&& rows_fit(shapes@[k].input_shape_padded@)
                    },
                r@.len() == k,
                forall|j: int| 0 <= j < k ==> !(#[trigger] shapes@[j]).ignore_garbage_pad,
                forall|j: int|
                    0 <= j < k ==> {
                        &&& (#[trigger] r@[j]).input_shape_og@ == seq![
                            rows_of(shapes@[j].input_shape_og@) as usize,
                            1usize,
                        ]
                        &&& r@[j].input_shape_padded@ == seq![
                            rows_of(shapes@[j].input_shape_padded@) as usize,
                            1usize,
                        ]
                        &&& !r@[j].ignore_garbage_pad
                    },
        {
            if shapes[k].ignore_garbage_pad {
                assert(shapes@[k as int].ignore_garbage_pad);
                return Err(Error::InvalidShape);
            }
            let input_shape_og = column_shape(count_rows(&shapes[k].input_shape_og));
            let input_shape_padded = column_shape(count_rows(&shapes[k].input_shape_padded));
            r.push(ShapeData { input_shape_padded, ignore_garbage_pad: false, input_shape_og });
        }
        Ok(r)
    }
}

/// The shape of a column with the given number of rows.
fn column_shape(rows: usize) -> (r: Shape)
    ensures
        r@ == seq![rows, 1usize],
{
    let mut dims: Vec<usize> = Vec::new();
    dims.push(rows);
    dims.push(1);
    assert(dims@ =~= seq![rows, 1usize]);
    Shape::new(dims)
}

/// The larger of two absolute values.
pub open spec fn larger_magnitude(a: int, b: int) -> int {
    let x = if a < 0 {
        -a
    } else {
        a
    };
    let y = if b < 0 {
        -b
    } else {
        b
    };
    if x >= y {
        x
    } else {
        y
    }
}

/// The number of rows, and every product on the way to it, fits into memory.
pub open spec fn rows_fit(d: Seq<usize>) -> bool {
    forall|k: int| 0 <= k < d.len() ==> #[trigger] numel(d.take(k)) <= usize::MAX
}

/// The number of rows of a shape.
pub(crate) fn count_rows(shape: &Shape) -> (r: usize)
    requires
        shape@.len() >= 1,
        rows_fit(shape@),
    ensures
        r == rows_of(shape@),
{
    let n: usize = shape.rank() - 1;
    let mut r: usize = 1;
    for k in 0..n
        invariant
            n == shape@.len() - 1,
            rows_fit(shape@),
            r == numel(shape@.take(k as int)),
    {
        assert(shape@.take(k + 1).drop_last() =~= shape@.take(k as int));
        assert(numel(shape@.take(k + 1)) <= usize::MAX);
        r = r * shape.dims[k];
    }
    assert(shape@.take(n as int) =~= shape@.drop_last());
    r
}

/// The place of the maximum of each row of a tensor, up to its padding, and the
/// maxima.
fn argmax_rows(input: &Tensor<Element>) -> (r: (Tensor<Element>, Tensor<Element>))
    requires
        input.wf(),
        input.shape@.len() >= 2,
        input.unpadded_shape@.last() > 0,
        input.shape@.last() <= Element::MAX,
    ensures
        is_argmax_of(*input, r.0, r.1),
{
    let rank = input.shape.rank();
    let last: usize = input.shape.dims[rank - 1];
    let width: usize = input.unpadded_shape.dims[rank - 1];
    let ghost d = input.shape@;
    let ghost rows = rows_of(d);
    proof {
        assert(input.unpadded_shape@[rank - 1] <= d[rank - 1]);
        assert(numel(d) == rows * last);
        assert(rows <= rows * last) by (nonlinear_arith)
            requires
                last >= 1,
        ;
        lemma_div_multiples_vanish(rows as int, last as int);
        assert(last * rows == rows * last) by (nonlinear_arith);
        assert(input.data.len() <= usize::MAX);
    }
    let count: usize = input.data.len() / last;
    let mut indices: Vec<Element> = Vec::new();
    let mut maxima: Vec<Element> = Vec::new();
    for r in 0..count
        invariant
            input.wf(),
            d == input.shape@,
            rank == d.len(),
            rank >= 2,
            last == d.last(),
            width == input.unpadded_shape@.last(),
            0 < width <= last,
            last <= Element::MAX,
            rows == rows_of(d),
            rows == count,
            input.data@.len() == rows * last,
            indices@.len() == r,
            maxima@.len() == r,
            forall|q: int|
                0 <= q < r ==> is_argmax(
                    row_of(*input, q),
                    width as int,
                    #[trigger] indices@[q] as int,
                    maxima@[q],
                ),
    {
        let ghost row = row_of(*input, r as int);
        proof {
            assert(0 <= r * last && (r + 1) * last <= rows * last && (r + 1) * last == r * last + last)
                by (nonlinear_arith)
                requires
                    0 <= r < rows,
                    last >= 1,
            ;
            assert(input.data.len() <= usize::MAX);
        }
        let start: usize = r * last;
        assert(input.data@[start as int] == row[0]);
        let mut best: usize = 0;
        let mut max: Element = input.data[start];
        for j in 1..width
            invariant
                input.wf(),
                d == input.shape@,
                last == d.last(),
                0 < width <= last,
                start == r * last,
                start + last <= input.data@.len(),
                (r + 1) * last == r * last + last,
                row == row_of(*input, r as int),
                0 <= best < j,
                row[best as int] == max,
                forall|i: int| 0 <= i < j ==> #[trigger] row[i] <= max,
                forall|i: int| 0 <= i < best ==> #[trigger] row[i] < max,
        {
            assert(input.data@[start + j] == row[j as int]);
            assert(input.data.len() <= usize::MAX);
            let v: Element = input.data[start + j];
            if v > max {
                max = v;
                best = j;
            }
        }
        indices.push(best as Element);
        maxima.push(max);
    }
    let mut dims: Vec<usize> = Vec::new();
    dims.push(count);
    dims.push(1);
    let shape = Shape::new(dims);
    let ghost e = shape@;
    assert(e =~= seq![rows as usize, 1usize]);
    proof {
        lemma_numel_matrix(rows as usize, 1);
    }
    let a = Tensor { data: indices, shape: shape.clone(), unpadded_shape: shape.clone() };
    let b = Tensor { data: maxima, shape: shape.clone(), unpadded_shape: shape };
    (a, b)
}

} // verus!
