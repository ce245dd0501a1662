//! The first layer of a language model: a vector for each token.
use vstd::prelude::*;
use vstd::arithmetic::div_mod::*;
use vstd::arithmetic::power2::{lemma2_to64, lemma2_to64_rest, lemma_pow2_adds, lemma_pow2_pos, lemma_pow2_strictly_increases, pow2};
use crate::claim::{joined, part, Claim, SubClaim};
use crate::congruence::{cong, lemma_cong_sum, lemma_cong_times, lemma_end_cong, lemma_fixed_low_cong, lemma_residue_cong};
use crate::error::Error;
use crate::field::{all_stand_for, residues, stands_for, Lifted, PrimeField};
use crate::logits::witness::{element_ints, to_field};
use crate::mle::{beta, betas, bits, compute_betas_eval, fix_low_variables, fixed_low, identity, identity_eval, lemma_bit_residues, lemma_fixed_low, lemma_halves, lemma_mle_grid, lemma_pow2_unfold_zero, mle};
use crate::padding::{PaddingMode, ShapeData};
use crate::shape::{ceil_log2, in_bounds, lemma_matrix_place, lemma_next_pow2, lemma_numel_matrix, log2_ceil, next_pow2, next_power_of_two, padded, Shape};
use crate::sum::{lemma_sum_same, lemma_sum_scale, lemma_sum_single, lemma_sum_split, lemma_sum_swap, lemma_sum_zero, sum};
use crate::tensor::{can_pad, resized, Element, Tensor};
use crate::triangular::lemma_identity_bits;

verus! {

/// The table of the vectors of the tokens, one in each row.
#[derive(Debug)]
pub struct Embeddings<N> {
    pub mat: Tensor<N>,
    pub emb_size: usize,
    pub vocab_size: usize,
}

/// What the verifier knows of an embeddings layer.
#[derive(Debug)]
pub struct EmbeddingsCtx {
    pub vocab_size: usize,
    pub emb_size: usize,
    /// The name of the commitment to the table.
    pub embedding_key: String,
}

/// The proof of an embeddings layer. `P` is a proof of a sumcheck.
#[derive(Debug)]
pub struct EmbeddingsProof<F, P> {
    pub sumcheck: P,
    /// What the chosen rows and the table take at the end of the sumcheck.
    pub individual_claims: Vec<F>,
}

/// The tables whose products the sumcheck of an embeddings layer sums.
#[derive(Debug)]
pub struct EmbeddingsSumcheck<F> {
    /// For each token the factors of the places where it stands.
    pub reduced_one_hot: Vec<F>,
    /// For each token its vector, with the coordinates of the columns fixed.
    pub fixed_matrix: Vec<F>,
}

/// The shape of the vectors of `seq_len` tokens.
pub open spec fn embedded_shape(seq_len: usize, emb_size: usize, mode: PaddingMode) -> Seq<usize> {
    match mode {
        PaddingMode::NoPadding => seq![seq_len, emb_size],
        PaddingMode::Padding => padded(seq![seq_len, emb_size]),
    }
}

/// The shape of the vectors of a single list of tokens.
fn embedding_shapes(seq_len: usize, emb_size: usize, padding_mode: PaddingMode) -> (r: Vec<Shape>)
    requires
        padding_mode == PaddingMode::Padding ==> next_pow2(seq_len as nat) <= usize::MAX
            && next_pow2(emb_size as nat) <= usize::MAX,
    ensures
        r@.len() == 1,
        r@[0]@ == embedded_shape(seq_len, emb_size, padding_mode),
{
    let mut dims: Vec<usize> = Vec::new();
    dims.push(seq_len);
    dims.push(emb_size);
    assert(dims@ =~= seq![seq_len, emb_size]);
    let shape = Shape::new(dims);
    let mut r: Vec<Shape> = Vec::new();
    match padding_mode {
        PaddingMode::NoPadding => r.push(shape),
        PaddingMode::Padding => r.push(shape.next_power_of_two()),
    }
    r
}

impl EmbeddingsCtx {
    /// The shape of the output for the shape of the single input.
    pub fn output_shapes(&self, input_shapes: &Vec<Shape>, padding_mode: PaddingMode) -> (r: Vec<
        Shape,
    >)
        requires
            input_shapes@.len() == 1,
            input_shapes@[0]@.len() == 1,
            padding_mode == PaddingMode::Padding ==> next_pow2(input_shapes@[0]@[0] as nat)
                <= usize::MAX && next_pow2(self.emb_size as nat) <= usize::MAX,
        ensures
            r@.len() == 1,
            r@[0]@ == embedded_shape(input_shapes@[0]@[0], self.emb_size, padding_mode),
    {
        embedding_shapes(input_shapes[0].dims[0], self.emb_size, padding_mode)
    }
}

/// The vectors `out` are those of the tokens, row by row.
pub open spec fn selects<N>(mat: Tensor<N>, tokens: Seq<Element>, out: Tensor<N>) -> bool {
    let e = mat.shape@[1] as int;
    &&& out.wf()
    &&& out.shape@ == seq![tokens.len() as usize, mat.shape@[1]]
    &&& out.unpadded_shape@ == out.shape@
    &&& out.data@.len() == tokens.len() * e
    &&& forall|p: int|
        0 <= p < out.data@.len() ==> #[trigger] out.data@[p] == mat.data@[tokens[p / e] * e + p % e]
}

/// The name of the table in files that name it as the layer does.
pub fn embedding_key() -> (r: &'static str)
    ensures
        r@ == "token_embd.weight"@,
{
    "token_embd.weight"
}

/// The names of the table in the files of several models, in the order in which they are
/// asked for.
pub fn safetensors_keys() -> (r: [&'static str; 4])
    ensures
        r@[0]@ == "model.embed_tokens.weight"@,
        r@[1]@ == "token_embd.weight"@,
        r@[2]@ == "tok_embeddings.weight"@,
        r@[3]@ == "wte.weight"@,
{
    [
        "model.embed_tokens.weight",
        "token_embd.weight",
        "tok_embeddings.weight",
        "wte.weight",
    ]
}

impl<N: Copy> Embeddings<N> {
    /// The table is a matrix with a row for each token.
    pub open spec fn wf(&self) -> bool {
        &&& self.mat.wf()
        &&& self.mat.shape@.len() == 2
        &&& self.mat.shape@ == self.mat.unpadded_shape@
        &&& self.emb_size == self.mat.shape@[1]
        &&& self.vocab_size == self.mat.shape@[0]
    }

    /// The layer for a table with a row for each token.
    pub fn new(emb: Tensor<N>) -> (r: Result<Self, Error>)
        requires
            emb.shape@.len() >= 2,
        ensures
            r matches Ok(e) && {
                &&& e.mat == emb
                &&& e.emb_size == emb.shape@[1]
                &&& e.vocab_size == emb.shape@[0]
            },
    {
        let emb_size: usize = emb.shape.dims[1];
        let vocab_size: usize = emb.shape.dims[0];
        Ok(Embeddings { mat: emb, emb_size, vocab_size })
    }

    /// The quantised layer, for its quantised table.
    pub fn quantize_op<M>(self, mat: Tensor<M>) -> (r: Embeddings<M>)
        ensures
            r.mat == mat,
            r.emb_size == self.emb_size,
            r.vocab_size == self.vocab_size,
    {
        Embeddings { mat, emb_size: self.emb_size, vocab_size: self.vocab_size }
    }

    /// The layer for the table that a file holds, where it holds one.
    pub fn from_json(loaded: Option<Tensor<N>>) -> (r: Result<Self, Error>)
        requires
            loaded matches Some(t) ==> t.shape@.len() >= 2,
        ensures
            r is Ok <==> loaded is Some,
            match r {
                Ok(e) => {
                    let t = loaded->Some_0;
                    e.mat == t && e.emb_size == t.shape@[1] && e.vocab_size == t.shape@[0]
                },
                Err(e) => e == Error::MissingTensor,
            },
    {
        match loaded {
            Some(t) => Embeddings::new(t),
            None => Err(Error::MissingTensor),
        }
    }

    /// The layer for the table that a file holds, where it holds one.
    pub fn from_loader(loaded: Option<Tensor<N>>) -> (r: Result<Self, Error>)
        requires
            loaded matches Some(t) ==> t.shape@.len() >= 2,
        ensures
            r is Ok <==> loaded is Some,
            match r {
                Ok(e) => {
                    let t = loaded->Some_0;
                    e.mat == t && e.emb_size == t.shape@[1] && e.vocab_size == t.shape@[0]
                },
                Err(e) => e == Error::MissingTensor,
            },
    {
        Embeddings::from_json(loaded)
    }

    /// The layer for the first table that a file holds under one of the names that models
    /// use. `loaded` is what came of asking for these names, in their order; where none of
    /// them was found, the last refusal is returned.
    pub fn from_safetensors_loader<E>(loaded: Vec<Result<Tensor<N>, E>>) -> (r: Result<Self, E>)
        requires
            loaded@.len() > 0,
            forall|k: int|
                0 <= k < loaded@.len() ==> (#[trigger] loaded@[k] matches Ok(t) ==> t.shape@.len()
                    >= 2),
        ensures
            match r {
                Ok(e) => exists|k: int|
                    {
                        &&& 0 <= k < loaded@.len()
                        &&& #[trigger] loaded@[k] is Ok
                        &&& forall|j: int| 0 <= j < k ==> #[trigger] loaded@[j] is Err
                        &&& e.mat == loaded@[k]->Ok_0
                        &&& e.emb_size == loaded@[k]->Ok_0.shape@[1]
                        &&& e.vocab_size == loaded@[k]->Ok_0.shape@[0]
                    },
                Err(e) => {
                    &&& loaded@.last() == Err::<Tensor<N>, E>(e)
                    &&& forall|j: int| 0 <= j < loaded@.len() ==> #[trigger] loaded@[j] is Err
                },
            },
    {
        let mut rest = loaded;
        let mut found = rest.remove(0);
        let ghost mut k: int = 0;
        assert(rest@ =~= loaded@.skip(1));
        while found.is_err() && rest.len() > 0
            invariant
                0 <= k < loaded@.len(),
                found == loaded@[k],
                rest@ == loaded@.skip(k + 1),
                forall|j: int| 0 <= j < k ==> #[trigger] loaded@[j] is Err,
            decreases rest.len(),
        {
            assert(rest@[0] == loaded@[k + 1]);
            found = rest.remove(0);
            proof {
                assert(rest@ =~= loaded@.skip(k + 2));
                k = k + 1;
            }
        }
        match found {
            Ok(mat) => {
                assert(loaded@[k] is Ok);
                let emb_size: usize = mat.shape.dims[1];
                let vocab_size: usize = mat.shape.dims[0];
                Ok(Embeddings { mat, emb_size, vocab_size })
            },
            Err(e) => Err(e),
        }
    }

    /// The coordinates of a claim on the output: those of the rows, and those of
    /// the columns, which come first.
    pub fn split_output_point<F: Copy>(last_claim: &Claim<F>, emb_size: usize) -> (r: (Vec<F>, Vec<F>))
        requires
            log2_ceil(emb_size as nat) <= last_claim.point@.len(),
        ensures
            r.0@ == last_claim.point@.skip(log2_ceil(emb_size as nat) as int),
            r.1@ == last_claim.point@.take(log2_ceil(emb_size as nat) as int),
    {
        let num_vars = ceil_log2(emb_size);
        let columns = part(last_claim.point.as_slice(), 0, num_vars);
        let rows = part(last_claim.point.as_slice(), num_vars, last_claim.point.len());
        assert(columns@ =~= last_claim.point@.take(num_vars as int));
        assert(rows@ =~= last_claim.point@.skip(num_vars as int));
        (rows, columns)
    }

    /// The points of the claims that the sumcheck leaves: that on the chosen rows,
    /// and that on the table.
    pub fn build_points_for_claims<F: Copy>(
        last_claim: &Claim<F>,
        emb_size: usize,
        sumcheck_point: &[F],
    ) -> (r: (Vec<F>, Vec<F>))
        requires
            log2_ceil(emb_size as nat) <= last_claim.point@.len(),
        ensures
            r.0@ == sumcheck_point@ + last_claim.point@.skip(log2_ceil(emb_size as nat) as int),
            r.1@ == last_claim.point@.take(log2_ceil(emb_size as nat) as int) + sumcheck_point@,
    {
        let (rows, columns) = Self::split_output_point(last_claim, emb_size);
        (joined(sumcheck_point, rows.as_slice()), joined(columns.as_slice(), sumcheck_point))
    }

    /// The shape of the output. The layer has a single input, a list of tokens.
    pub fn output_shapes(&self, input_shapes: &Vec<Shape>, padding_mode: PaddingMode) -> (r: Result<
        Vec<Shape>,
        Error,
    >)
        requires
            padding_mode == PaddingMode::Padding && input_shapes@.len() == 1
                && input_shapes@[0]@.len() == 1 ==> next_pow2(input_shapes@[0]@[0] as nat)
                <= usize::MAX && next_pow2(self.emb_size as nat) <= usize::MAX,
        ensures
            match r {
                Ok(v) => {
                    &&& input_shapes@.len() == 1
                    &&& input_shapes@[0]@.len() == 1
                    &&& v@.len() == 1
                    &&& v@[0]@ == embedded_shape(input_shapes@[0]@[0], self.emb_size, padding_mode)
                },
                Err(e) => if input_shapes@.len() != 1 {
                    e == Error::WrongNumberOfInputs
                } else {
                    e == Error::InvalidShape && input_shapes@[0]@.len() != 1
                },
            },
    {
        if input_shapes.len() != 1 {
            return Err(Error::WrongNumberOfInputs);
        }
        if input_shapes[0].rank() != 1 {
            return Err(Error::InvalidShape);
        }
        Ok(embedding_shapes(input_shapes[0].dims[0], self.emb_size, padding_mode))
    }

    /// The vectors of the tokens of the single input.
    pub fn evaluate(&self, inputs: &Vec<Tensor<Element>>) -> (r: Result<Tensor<N>, Error>)
        requires
            self.wf(),
            inputs@.len() == 1 && inputs@[0].shape@.len() == 1 ==> {
                &&& inputs@[0].wf()
                &&& inputs@[0].data@.len() * self.emb_size <= usize::MAX
                &&& forall|i: int|
                    0 <= i < inputs@[0].data@.len() ==> 0 <= #[trigger] inputs@[0].data@[i]
                        && inputs@[0].data@[i] < self.vocab_size
            },
        ensures
            match r {
                Ok(out) => {
                    &&& inputs@.len() == 1
                    &&& inputs@[0].shape@.len() == 1
                    &&& selects(self.mat, inputs@[0].data@, out)
                },
                Err(Error::InvalidShape) => exists|k: int|
                    0 <= k < inputs@.len() && (#[trigger] inputs@[k]).shape@.len() != 1,
                Err(e) => {
                    &&& e == Error::WrongNumberOfInputs
                    &&& inputs@.len() != 1
                    &&& forall|k: int|
                        0 <= k < inputs@.len() ==> (#[trigger] inputs@[k]).shape@.len() == 1
                },
            },
    {
        for k in 0..inputs.len()
            invariant
                forall|j: int| 0 <= j < k ==> (#[trigger] inputs@[j]).shape@.len() == 1,
        {
            if inputs[k].shape.rank() != 1 {
                assert(inputs@[k as int].shape@.len() != 1);
                return Err(Error::InvalidShape);
            }
        }
        if inputs.len() != 1 {
            return Err(Error::WrongNumberOfInputs);
        }
        assert(inputs@[0].shape@.len() == 1);
        let tokens = &inputs[0].data;
        let e: usize = self.emb_size;
        let n: usize = tokens.len();
        let ghost w = e as int;
        let ghost v = self.vocab_size as int;
        proof {
            let d = self.mat.shape@;
            assert(d =~= seq![d[0], d[1]]);
            lemma_numel_matrix(d[0], d[1]);
        }
        let mut data: Vec<N> = Vec::new();
        for p in 0..n * e
            invariant
                self.wf(),
                n == tokens@.len(),
                e == w,
                w == self.mat.shape@[1],
                v == self.mat.shape@[0],
                self.mat.data@.len() == v * w,
                n * w <= usize::MAX,
                forall|i: int|
                    0 <= i < tokens@.len() ==> 0 <= #[trigger] tokens@[i] && tokens@[i] < v,
                data@.len() == p,
                forall|q: int|
                    0 <= q < p ==> #[trigger] data@[q] == self.mat.data@[tokens@[q / w] * w + q % w],
        {
            proof {
                assert(w > 0) by (nonlinear_arith)
                    requires
                        0 <= p < n * w,
                        w >= 0,
                ;
                lemma_fundamental_div_mod(p as int, w);
                let i = p as int / w;
                assert(0 <= i < n) by (nonlinear_arith)
                    requires
                        0 <= p < n * w,
                        w > 0,
                        p as int == w * i + p as int % w,
                        0 <= p as int % w < w,
                ;
                let t = tokens@[i] as int;
                assert(0 <= t * w && t * w + w <= v * w) by (nonlinear_arith)
                    requires
                        0 <= t < v,
                        w > 0,
                ;
                assert(self.mat.data.len() <= usize::MAX);
                assert(t <= t * w) by (nonlinear_arith)
                    requires
                        0 <= t,
                        w >= 1,
                ;
            }
            let t: usize = tokens[p / e] as usize;
            data.push(self.mat.data[t * e + p % e]);
        }
        let mut dims: Vec<usize> = Vec::new();
        dims.push(n);
        dims.push(e);
        assert(dims@ =~= seq![n, e]);
        proof {
            lemma_numel_matrix(n, e);
        }
        let shape = Shape::new(dims);
        Ok(Tensor { data, unpadded_shape: shape.clone(), shape })
    }

    /// The shapes that leave the layer for those that enter it.
    pub fn pad_node(&self, shapes: &Vec<ShapeData>) -> (r: Result<Vec<ShapeData>, Error>)
        requires
            self.mat.unpadded_shape@.len() >= 1,
            shapes@.len() == 1 && shapes@[0].input_shape_og@.len() == 1 ==> next_pow2(
                shapes@[0].input_shape_og@[0] as nat,
            ) <= usize::MAX && next_pow2(self.mat.unpadded_shape@.last() as nat) <= usize::MAX,
        ensures
            match r {
                Ok(v) => {
                    let out = seq![shapes@[0].input_shape_og@[0], self.mat.unpadded_shape@.last()];
                    &&& shapes@.len() == 1
                    &&& shapes@[0].input_shape_og@.len() == 1
                    &&& v@.len() == 1
                    &&& v@[0].input_shape_og@ == out
                    &&& v@[0].input_shape_padded@ == padded(out)
                    &&& !v@[0].ignore_garbage_pad
                },
                Err(e) => if shapes@.len() != 1 {
                    e == Error::WrongNumberOfInputs
                } else {
                    e == Error::InvalidShape && shapes@[0].input_shape_og@.len() != 1
                },
            },
    {
        if shapes.len() != 1 {
            return Err(Error::WrongNumberOfInputs);
        }
        if shapes[0].input_shape_og.rank() != 1 {
            return Err(Error::InvalidShape);
        }
        let emb_size: usize = self.mat.unpadded_shape.dims[self.mat.unpadded_shape.rank() - 1];
        let mut dims: Vec<usize> = Vec::new();
        dims.push(shapes[0].input_shape_og.dims[0]);
        dims.push(emb_size);
        assert(dims@ =~= seq![shapes@[0].input_shape_og@[0], self.mat.unpadded_shape@.last()]);
        let og = Shape::new(dims);
        let mut r: Vec<ShapeData> = Vec::new();
        let input_shape_padded = og.next_power_of_two();
        r.push(ShapeData { input_shape_padded, ignore_garbage_pad: false, input_shape_og: og });
        Ok(r)
    }
}

/// The factors of the places, among the first `n`, where the token `v` stands.
pub open spec fn places_of(tokens: Seq<Element>, n: nat, row: Seq<int>, v: int) -> int {
    sum(
        n,
        |i: int|
            if tokens[i] == v {
                beta(row, i)
            } else {
                0
            },
    )
}

/// The table, padded.
pub open spec fn padded_table(mat: Tensor<Element>) -> Seq<int> {
    element_ints(resized(mat.data@, mat.shape@, padded(mat.shape@), 0))
}

/// The tables are those whose products the sumcheck of an embeddings layer sums.
pub open spec fn is_embeddings_sumcheck<F: PrimeField>(
    mat: Tensor<Element>,
    tokens: Seq<Element>,
    n: nat,
    row: Seq<int>,
    col: Seq<int>,
    s: EmbeddingsSumcheck<F>,
) -> bool {
    let vocab = next_pow2(mat.shape@[0] as nat);
    &&& s.reduced_one_hot@.len() == vocab
    &&& s.fixed_matrix@.len() == vocab
    &&& forall|v: int|
        0 <= v < vocab ==> stands_for(
            #[trigger] s.reduced_one_hot@[v],
            places_of(tokens, n, row, v),
        )
    &&& forall|v: int|
        0 <= v < vocab ==> stands_for(
            #[trigger] s.fixed_matrix@[v],
            fixed_low(padded_table(mat), col, v),
        )
}

/// For each of `vocab` tokens the factors of the places where it stands.
fn reduce_one_hot<F: PrimeField>(tokens: &Vec<Element>, n: usize, weights: &Vec<F>, vocab: usize, Ghost(row): Ghost<Seq<int>>) -> (r:
    Vec<F>)
    requires
        n <= tokens@.len(),
        n <= weights@.len(),
        all_stand_for(weights@, betas(row)),
        forall|i: int| 0 <= i < n ==> 0 <= #[trigger] tokens@[i] && tokens@[i] < vocab,
    ensures
        r@.len() == vocab,
        forall|v: int|
            0 <= v < vocab ==> stands_for(
                #[trigger] r@[v],
                places_of(tokens@, n as nat, row, v),
            ),
{
    let mut r: Vec<F> = Vec::new();
    for v in 0..vocab
        invariant
            r@.len() == v,
            forall|k: int|
                0 <= k < v ==> stands_for(#[trigger] r@[k], places_of(tokens@, 0, row, k)),
    {
        r.push(Lifted::<F>::zero().get());
    }
    for i in 0..n
        invariant
            n <= tokens@.len(),
            n <= weights@.len(),
            all_stand_for(weights@, betas(row)),
            forall|i: int| 0 <= i < n ==> 0 <= #[trigger] tokens@[i] && tokens@[i] < vocab,
            r@.len() == vocab,
            forall|v: int|
                0 <= v < vocab ==> stands_for(
                    #[trigger] r@[v],
                    places_of(tokens@, i as nat, row, v),
                ),
    {
        let ghost before = r@;
        let t: Element = tokens[i];
        let x: usize = t as usize;
        assert(betas(row)[i as int] == beta(row, i as int));
        let old_value = Lifted::known(r[x], Ghost(places_of(tokens@, i as nat, row, t as int)));
        let w = Lifted::known(weights[i], Ghost(beta(row, i as int)));
        let new_value = old_value.plus(w).get();
        r.set(x, new_value);
        proof {
            assert forall|v: int| 0 <= v < vocab implies stands_for(
                #[trigger] r@[v],
                places_of(tokens@, (i + 1) as nat, row, v),
            ) by {
                let f = |k: int|
                    if tokens@[k] == v {
                        beta(row, k)
                    } else {
                        0
                    };
                assert(sum((i + 1) as nat, f) == sum(i as nat, f) + f(i as int));
                assert(stands_for(before[v], places_of(tokens@, i as nat, row, v)));
            }
        }
    }
    r
}

impl Embeddings<Element> {
    /// What the prover hands to the sumcheck, for the claim on the output and the
    /// single input. The size of the table has to be that of the layer.
    pub fn prove<F: PrimeField>(&self, last_claims: &Vec<Claim<F>>, inputs: &Vec<Tensor<Element>>) -> (r:
        Result<EmbeddingsSumcheck<F>, Error>)
        requires
            self.mat.wf(),
            self.mat.shape@.len() == 2,
            can_pad(self.mat.shape@),
            next_pow2(self.vocab_size as nat) <= usize::MAX,
            next_pow2(self.emb_size as nat) <= usize::MAX,
            last_claims@.len() == 1 && inputs@.len() == 1 ==> {
                let input = inputs@[0];
                let cols = log2_ceil(self.emb_size as nat);
                let rows = last_claims@[0].point@.len() - cols;
                &&& input.wf()
                &&& input.shape@.len() == 1
                &&& cols <= last_claims@[0].point@.len()
                &&& pow2(rows as nat) <= usize::MAX
                &&& input.unpadded_shape@[0] <= pow2(rows as nat)
                &&& forall|i: int|
                    0 <= i < input.unpadded_shape@[0] ==> 0 <= #[trigger] input.data@[i]
                        && input.data@[i] < next_pow2(self.vocab_size as nat)
            },
        ensures
            match r {
                Ok(s) => {
                    let cols = log2_ceil(self.emb_size as nat) as int;
                    let point = residues(last_claims@[0].point@);
                    &&& inputs@.len() == 1
                    &&& last_claims@.len() == 1
                    &&& next_pow2(self.vocab_size as nat) == next_pow2(self.mat.shape@[0] as nat)
                    &&& next_pow2(self.emb_size as nat) == next_pow2(self.mat.shape@[1] as nat)
                    &&& is_embeddings_sumcheck(
                        self.mat,
                        inputs@[0].data@,
                        inputs@[0].unpadded_shape@[0] as nat,
                        point.skip(cols),
                        point.take(cols),
                        s,
                    )
                },
                Err(e) => if inputs@.len() != 1 {
                    e == Error::WrongNumberOfInputs
                } else if last_claims@.len() != 1 {
                    e == Error::WrongNumberOfClaims
                } else {
                    &&& e == Error::InvalidShape
                    &&& next_pow2(self.vocab_size as nat) != next_pow2(self.mat.shape@[0] as nat)
                        || next_pow2(self.emb_size as nat) != next_pow2(self.mat.shape@[1] as nat)
                },
            },
    {
        if inputs.len() != 1 {
            return Err(Error::WrongNumberOfInputs);
        }
        if last_claims.len() != 1 {
            return Err(Error::WrongNumberOfClaims);
        }
        let input = &inputs[0];
        let n: usize = input.unpadded_shape.dims[0];
        let (row_point, column_point) = Self::split_output_point(&last_claims[0], self.emb_size);
        let ghost point = residues(last_claims@[0].point@);
        let ghost row = residues(row_point@);
        let ghost col = residues(column_point@);
        let ghost d = self.mat.shape@;
        proof {
            let cols = log2_ceil(self.emb_size as nat) as int;
            assert(row =~= point.skip(cols));
            assert(col =~= point.take(cols));
            assert(next_pow2(d[0] as nat) <= usize::MAX);
            assert(next_pow2(d[1] as nat) <= usize::MAX);
            assert(padded(d) =~= seq![padded(d)[0], padded(d)[1]]);
            lemma_numel_matrix(padded(d)[0], padded(d)[1]);
            assert(input.unpadded_shape@[0] <= input.shape@[0]);
            assert(input.shape@ =~= seq![input.shape@[0]]);
            lemma_numel_matrix(input.shape@[0], 1);
        }
        let beta_vec = compute_betas_eval(row_point.as_slice());
        let vocab = next_power_of_two(self.vocab_size);
        let emb = next_power_of_two(self.emb_size);
        let reduced_one_hot = reduce_one_hot(&input.data, n, &beta_vec, vocab, Ghost(row));
        let matrix = self.mat.pad_next_power_of_two(0);
        if vocab != matrix.shape.dims[0] {
            return Err(Error::InvalidShape);
        }
        if emb != matrix.shape.dims[1] {
            return Err(Error::InvalidShape);
        }
        let table = to_field::<F>(&matrix.data);
        proof {
            assert(emb == pow2(column_point@.len()));
        }
        let fixed_matrix = fix_low_variables(table.as_slice(), column_point.as_slice(), vocab);
        proof {
            assert forall|v: int| 0 <= v < vocab implies stands_for(
                #[trigger] fixed_matrix@[v],
                fixed_low(padded_table(self.mat), col, v),
            ) by {
                fixed_matrix@[v].residue_bounds();
                lemma_fixed_low_cong(table@, padded_table(self.mat), col, v, vocab as int);
            }
        }
        Ok(EmbeddingsSumcheck { reduced_one_hot, fixed_matrix })
    }

    /// The proof, the claim on the chosen rows and the claim on the table, once the
    /// sumcheck has been run.
    pub fn finish_proof<F: PrimeField, P>(
        &self,
        last_claim: &Claim<F>,
        sumcheck: P,
        sumcheck_point: &[F],
        final_evaluations: Vec<F>,
    ) -> (r: (EmbeddingsProof<F, P>, Claim<F>, Claim<F>))
        requires
            log2_ceil(self.emb_size as nat) <= last_claim.point@.len(),
            final_evaluations@.len() >= 2,
        ensures
            r.0.sumcheck == sumcheck,
            r.0.individual_claims@ == final_evaluations@,
            claims_of(last_claim.point@, self.emb_size, sumcheck_point@, final_evaluations@, r.1, r.2),
    {
        let (one_hot_point, matrix_point) = Self::build_points_for_claims(
            last_claim,
            self.emb_size,
            sumcheck_point,
        );
        let one_hot = Claim::new(one_hot_point, final_evaluations[0]);
        let table = Claim::new(matrix_point, final_evaluations[1]);
        (EmbeddingsProof { sumcheck, individual_claims: final_evaluations }, one_hot, table)
    }
}

/// The claims on the chosen rows and on the table that the sumcheck leaves.
pub open spec fn claims_of<F>(
    point: Seq<F>,
    emb_size: usize,
    sumcheck_point: Seq<F>,
    evaluations: Seq<F>,
    one_hot: Claim<F>,
    table: Claim<F>,
) -> bool {
    let cols = log2_ceil(emb_size as nat) as int;
    &&& one_hot.point@ == sumcheck_point + point.skip(cols)
    &&& one_hot.eval == evaluations[0]
    &&& table.point@ == point.take(cols) + sumcheck_point
    &&& table.eval == evaluations[1]
}

/// The tokens among the first `n`, each weighted by the factor of its place and by
/// the equality of a point with its bits.
pub open spec fn one_hot_sum(tokens: Seq<Element>, n: nat, vocab: Seq<int>, row: Seq<int>) -> int {
    sum(n, |i: int| beta(row, i) * identity(vocab, bits(tokens[i] as int, vocab.len())))
}

/// The bits of a value that is taken modulo `2^64`.
proof fn lemma_bits_wrap(v: int, k: nat)
    requires
        k <= 64,
    ensures
        bits(v + 0x1_0000_0000_0000_0000, k) == bits(v, k),
{
    let w = 0x1_0000_0000_0000_0000int;
    assert forall|j: int| 0 <= j < k implies #[trigger] bits(v + w, k)[j] == bits(v, k)[j] by {
        let a = pow2(j as nat) as int;
        let b = pow2((63 - j) as nat) as int;
        lemma_pow2_pos(j as nat);
        lemma_pow2_adds(j as nat, (63 - j) as nat);
        lemma_halves(64);
        lemma2_to64();
        lemma2_to64_rest();
        assert(w == a * (2 * b)) by (nonlinear_arith)
            requires
                w == 2 * (a * b),
        ;
        lemma_hoist_over_denominator(v, 2 * b, a as nat);
        assert((2 * b) * a == a * (2 * b)) by (nonlinear_arith);
        lemma_mod_multiples_vanish(b, v / a, 2);
        assert(2 * b + v / a == v / a + 2 * b);
    }
    assert(bits(v + w, k) =~= bits(v, k));
}

/// The `k` lowest bits of a value, lowest first.
pub fn element_bits<F: PrimeField>(v: Element, k: usize) -> (r: Vec<F>)
    requires
        k <= 64,
    ensures
        all_stand_for(r@, bits(v as int, k as nat)),
{
    let word: u64 = if v >= 0 {
        v as u64
    } else {
        u64::MAX - (-(v + 1)) as u64
    };
    proof {
        if v < 0 {
            lemma_bits_wrap(v as int, k as nat);
        }
        lemma_pow2_unfold_zero();
    }
    let mut r: Vec<F> = Vec::new();
    let mut m: u64 = word;
    for j in 0..k
        invariant
            r@.len() == j,
            m == word as int / pow2(j as nat) as int,
            all_stand_for(r@, bits(word as int, j as nat)),
    {
        proof {
            lemma_halves((j + 1) as nat);
            lemma_div_denominator(word as int, pow2(j as nat) as int, 2);
        }
        r.push(Lifted::of_u64(m % 2).get());
        m = m / 2;
    }
    r
}

impl EmbeddingsCtx {
    /// What the verifier decides on the end of the sumcheck, for the two evaluations of the
    /// proof.
    pub open spec fn decides<F: PrimeField>(
        &self,
        evaluations: Seq<F>,
        last_claims: Seq<Claim<F>>,
        subclaim: SubClaim<F>,
        r: Result<(Claim<F>, Claim<F>), Error>,
    ) -> bool {
        let ends = stands_for(
            subclaim.expected_evaluation,
            evaluations[0].residue() * evaluations[1].residue(),
        );
        match r {
            Ok((one_hot, table)) => {
                &&& last_claims.len() == 1
                &&& ends
                &&& claims_of(
                    last_claims[0].point@,
                    self.emb_size,
                    subclaim.point@,
                    evaluations,
                    one_hot,
                    table,
                )
            },
            Err(e) => if last_claims.len() != 1 {
                e == Error::WrongNumberOfClaims
            } else {
                e == Error::EvaluationMismatch && !ends
            },
        }
    }

    /// What the verifier decides on the claim on the chosen rows.
    pub open spec fn decides_input<F: PrimeField>(
        &self,
        inputs: Seq<Tensor<Element>>,
        claims: Seq<Claim<F>>,
        r: Result<(), Error>,
    ) -> bool {
        let nv = log2_ceil(self.vocab_size as nat);
        let rows = log2_ceil(inputs[0].shape@[0] as nat);
        let fits = claims[0].point@.len() == nv + rows;
        let sums = stands_for(
            claims[0].eval,
            one_hot_sum(
                inputs[0].data@,
                inputs[0].unpadded_shape@[0] as nat,
                residues(claims[0].point@.take(nv as int)),
                residues(claims[0].point@.skip(nv as int)),
            ),
        );
        match r {
            Ok(_) => inputs.len() == 1 && claims.len() == 1 && fits && sums,
            Err(e) => if inputs.len() != 1 {
                e == Error::WrongNumberOfInputs
            } else if claims.len() != 1 {
                e == Error::WrongNumberOfClaims
            } else if !fits {
                e == Error::WrongPointLength
            } else {
                e == Error::EvaluationMismatch && !sums
            },
        }
    }

    /// Decides on the end of the sumcheck. Where it is accepted, the claim on the
    /// chosen rows and the claim on the table are returned.
    pub fn verify<F: PrimeField, P>(
        &self,
        proof: &EmbeddingsProof<F, P>,
        last_claims: &Vec<Claim<F>>,
        subclaim: &SubClaim<F>,
    ) -> (r: Result<(Claim<F>, Claim<F>), Error>)
        requires
            proof.individual_claims@.len() >= 2,
            last_claims@.len() == 1 ==> log2_ceil(self.emb_size as nat)
                <= last_claims@[0].point@.len(),
        ensures
            self.decides(proof.individual_claims@, last_claims@, *subclaim, r),
    {
        if last_claims.len() != 1 {
            return Err(Error::WrongNumberOfClaims);
        }
        let (one_hot_point, matrix_point) = Embeddings::<Element>::build_points_for_claims(
            &last_claims[0],
            self.emb_size,
            subclaim.point.as_slice(),
        );
        let one_hot_eval = proof.individual_claims[0];
        let matrix_eval = proof.individual_claims[1];
        let product = Lifted::of(one_hot_eval).times(Lifted::of(matrix_eval)).get();
        if !product.is_same(subclaim.expected_evaluation) {
            return Err(Error::EvaluationMismatch);
        }
        Ok((Claim::new(one_hot_point, one_hot_eval), Claim::new(matrix_point, matrix_eval)))
    }

    /// Checks the claim on the chosen rows against the tokens of the input.
    #[verifier::loop_isolation(false)]
    pub fn verify_input_claim<F: PrimeField>(
        &self,
        inputs: &Vec<Tensor<Element>>,
        claims: &Vec<Claim<F>>,
    ) -> (r: Result<(), Error>)
        requires
            inputs@.len() == 1 ==> {
                &&& inputs@[0].wf()
                &&& inputs@[0].shape@.len() == 1
            },
            inputs@.len() == 1 && claims@.len() == 1 ==> pow2(
                log2_ceil(inputs@[0].shape@[0] as nat),
            ) <= usize::MAX,
        ensures
            self.decides_input(inputs@, claims@, r),
    {
        if inputs.len() != 1 {
            return Err(Error::WrongNumberOfInputs);
        }
        if claims.len() != 1 {
            return Err(Error::WrongNumberOfClaims);
        }
        let input = &inputs[0];
        let n: usize = input.unpadded_shape.dims[0];
        let claim = &claims[0];
        let vocab_nv = ceil_log2(self.vocab_size);
        let seq_len_nv = ceil_log2(input.shape.dims[0]);
        if vocab_nv + seq_len_nv != claim.point.len() {
            return Err(Error::WrongPointLength);
        }
        let r1 = part(claim.point.as_slice(), 0, vocab_nv);
        let r2 = part(claim.point.as_slice(), vocab_nv, claim.point.len());
        assert(r1@ =~= claim.point@.take(vocab_nv as int));
        assert(r2@ =~= claim.point@.skip(vocab_nv as int));
        let ghost vocab = residues(r1@);
        let ghost row = residues(r2@);
        let ghost tokens = input.data@;
        let b1 = compute_betas_eval(r2.as_slice());
        let ghost f = |i: int| beta(row, i) * identity(vocab, bits(tokens[i] as int, vocab.len()));
        proof {
            lemma_next_pow2(input.shape@[0] as nat);
            assert(input.unpadded_shape@[0] <= input.shape@[0]);
            assert(input.shape@ =~= seq![input.shape@[0]]);
            lemma_numel_matrix(input.shape@[0], 1);
        }
        let mut acc = Lifted::<F>::zero();
        for i in 0..n
            invariant
                n <= tokens.len(),
                n <= b1@.len(),
                acc@ == sum(i as nat, f),
        {
            let token_bits = element_bits::<F>(input.data[i], vocab_nv);
            let id = identity_eval(r1.as_slice(), token_bits.as_slice());
            proof {
                assert(betas(row)[i as int] == beta(row, i as int));
                lemma_bit_residues(
                    tokens[i as int] as int,
                    vocab.len(),
                    token_bits@,
                );
            }
            let b = Lifted::known(b1[i], Ghost(beta(row, i as int)));
            let e = Lifted::known(
                id,
                Ghost(identity(vocab, bits(tokens[i as int] as int, vocab.len()))),
            );
            acc = acc.plus(b.times(e));
        }
        if acc.get().is_same(claim.eval) {
            Ok(())
        } else {
            Err(Error::EvaluationMismatch)
        }
    }
}

/// The largest multiple of `bit_len` that does not exceed 24, or `bit_len` itself.
pub open spec fn domain_bits(bit_len: int) -> int {
    if 24int / bit_len >= 1 {
        (24int / bit_len) * bit_len
    } else {
        bit_len
    }
}

impl Embeddings<Element> {
    /// The least and the largest value of a quantised table, where values have
    /// `bit_len` bits: as many bits as a multiple of that allows.
    pub fn quantised_domain(bit_len: usize) -> (r: (Element, Element))
        requires
            1 <= bit_len <= 63,
        ensures
            r.0 == -pow2((domain_bits(bit_len as int) - 1) as nat),
            r.1 == pow2((domain_bits(bit_len as int) - 1) as nat) - 1,
    {
        let mut multiple: usize = 1;
        let ghost b = bit_len as int;
        while (multiple + 1) * bit_len <= 24
            invariant
                b == bit_len,
                1 <= b <= 63,
                multiple >= 1,
                multiple == 1 || multiple * b <= 24,
                multiple <= 24,
                (multiple + 1) * b <= 0x1000,
            decreases 24 - multiple,
        {
            proof {
                let m = multiple as int;
                assert(m + 1 <= (m + 1) * b && (m + 2) * b == (m + 1) * b + b) by (nonlinear_arith)
                    requires
                        m >= 1,
                        b >= 1,
                ;
            }
            multiple += 1;
        }
        proof {
            let m = multiple as int;
            lemma_fundamental_div_mod(24, b);
            let q = 24int / b;
            assert(q * b == b * q) by (nonlinear_arith);
            if m == 1 && b > 24 {
                assert(q == 0) by (nonlinear_arith)
                    requires
                        24 == b * q + 24int % b,
                        0 <= 24int % b < b,
                        b > 24,
                ;
                assert(1 * b == b);
            } else {
                assert(q == m) by (nonlinear_arith)
                    requires
                        24 == b * q + 24int % b,
                        0 <= 24int % b < b,
                        m * b <= 24,
                        (m + 1) * b > 24,
                        b >= 1,
                ;
            }
            assert(m * b == domain_bits(b));
            assert(1 <= m * b <= 63) by (nonlinear_arith)
                requires
                    m >= 1,
                    1 <= b <= 63,
                    m == 1 || m * b <= 24,
            ;
        }
        let shift: usize = multiple * bit_len - 1;
        proof {
            lemma2_to64();
            lemma2_to64_rest();
            if shift < 62 {
                lemma_pow2_strictly_increases(shift as nat, 62);
            }
        }
        let mut half: i64 = 1;
        proof {
            lemma_pow2_unfold_zero();
        }
        for i in 0..shift
            invariant
                shift <= 62,
                half == pow2(i as nat),
        {
            proof {
                lemma_halves((i + 1) as nat);
                lemma2_to64();
                lemma2_to64_rest();
                if i + 1 < 62 {
                    lemma_pow2_strictly_increases((i + 1) as nat, 62);
                }
            }
            half = half * 2;
        }
        (-half, half - 1)
    }

    /// The context of the layer, the padded table to commit to and the shape of the
    /// output, for the shape of the input.
    pub fn step_info(&self, embedding_key: String, last_output_shapes: &Vec<Shape>) -> (r: Result<
        (EmbeddingsCtx, Vec<Element>, Vec<Shape>),
        Error,
    >)
        requires
            self.mat.wf(),
            can_pad(self.mat.shape@),
            last_output_shapes@.len() == 1 && last_output_shapes@[0]@.len() == 1 ==> next_pow2(
                last_output_shapes@[0]@[0] as nat,
            ) <= usize::MAX && next_pow2(self.emb_size as nat) <= usize::MAX,
        ensures
            match r {
                Ok((ctx, table, shapes)) => {
                    &&& last_output_shapes@.len() == 1
                    &&& last_output_shapes@[0]@.len() == 1
                    &&& ctx.vocab_size == self.vocab_size
                    &&& ctx.emb_size == self.emb_size
                    &&& ctx.embedding_key == embedding_key
                    &&& table@ == resized(
                        self.mat.data@,
                        self.mat.shape@,
                        padded(self.mat.shape@),
                        0,
                    )
                    &&& shapes@.len() == 1
                    &&& shapes@[0]@ == embedded_shape(
                        last_output_shapes@[0]@[0],
                        self.emb_size,
                        PaddingMode::Padding,
                    )
                },
                Err(e) => if last_output_shapes@.len() != 1 {
                    e == Error::WrongNumberOfInputs
                } else {
                    e == Error::InvalidShape && last_output_shapes@[0]@.len() != 1
                },
            },
    {
        let shapes = match self.output_shapes(last_output_shapes, PaddingMode::Padding) {
            Ok(s) => s,
            Err(e) => {
                return Err(e);
            },
        };
        let table = self.mat.pad_next_power_of_two(0).data;
        let ctx = EmbeddingsCtx {
            vocab_size: self.vocab_size,
            emb_size: self.emb_size,
            embedding_key,
        };
        Ok((ctx, table, shapes))
    }
}

/// The output of the layer, padded: the vector of the token of each row, and zeros
/// after the last token.
pub open spec fn embedded_table(
    mat: Seq<int>,
    width: int,
    tokens: Seq<Element>,
    n: int,
    count: nat,
) -> Seq<int> {
    Seq::new(
        count,
        |p: int|
            if p / width < n {
                mat[tokens[p / width] * width + p % width]
            } else {
                0
            },
    )
}

/// Choosing the row of a token is a product with the matrix that is one where the
/// column is the token.
pub proof fn law_one_hot_product(mat: Seq<int>, width: int, vocab: nat, token: Element, j: int)
    requires
        0 <= token < vocab,
    ensures
        sum(
            vocab,
            |v: int|
                (if token == v {
                    1int
                } else {
                    0int
                }) * mat[v * width + j],
        ) == mat[token * width + j],
{
    let f = |v: int|
        (if token == v {
            1int
        } else {
            0int
        }) * mat[v * width + j];
    assert forall|v: int| 0 <= v < vocab && v != token implies #[trigger] f(v) == 0 by {
        assert(0 * mat[v * width + j] == 0);
    }
    lemma_sum_single(vocab, token as int, f);
    assert(1 * mat[token * width + j] == mat[token * width + j]);
}

/// The sumcheck of an embeddings layer sums to the claim that it starts from: the
/// extension of the output at the claimed point.
pub proof fn law_embeddings_sum(
    mat: Seq<int>,
    vocab: nat,
    tokens: Seq<Element>,
    n: nat,
    row: Seq<int>,
    col: Seq<int>,
)
    requires
        n <= tokens.len(),
        n <= pow2(row.len()),
        forall|i: int| 0 <= i < n ==> 0 <= #[trigger] tokens[i] && tokens[i] < vocab,
    ensures
        sum(vocab, |v: int| places_of(tokens, n, row, v) * fixed_low(mat, col, v)) == mle(
            embedded_table(
                mat,
                pow2(col.len()) as int,
                tokens,
                n as int,
                pow2(col.len() + row.len()),
            ),
            col + row,
        ),
{
    let w = pow2(col.len());
    let m = pow2(row.len());
    lemma_pow2_pos(col.len());
    lemma_pow2_adds(col.len(), row.len());
    // The sum over the tokens of the vocabulary, place by place.
    let cell = |v: int, i: int|
        (if tokens[i] == v {
            beta(row, i)
        } else {
            0
        }) * fixed_low(mat, col, v);
    let by_token = |v: int| places_of(tokens, n, row, v) * fixed_low(mat, col, v);
    let cells = |v: int| sum(n, |i: int| cell(v, i));
    assert forall|v: int| 0 <= v < vocab implies #[trigger] by_token(v) == cells(v) by {
        let c = fixed_low(mat, col, v);
        let g = |i: int|
            if tokens[i] == v {
                beta(row, i)
            } else {
                0
            };
        lemma_sum_scale(n, c, g);
        let r = |i: int| cell(v, i);
        assert forall|i: int| 0 <= i < n implies #[trigger] r(i) == c * g(i) by {
            let x = g(i);
            assert(x * c == c * x) by (nonlinear_arith);
        }
        lemma_sum_same(n, r, |i: int| c * g(i));
        let x = sum(n, g);
        assert(x * c == c * x) by (nonlinear_arith);
    }
    lemma_sum_same(vocab, by_token, cells);
    lemma_sum_swap(vocab, n, cell);
    let by_place = |i: int| sum(vocab, |v: int| cell(v, i));
    let goal = |i: int| beta(row, i) * fixed_low(mat, col, tokens[i] as int);
    assert forall|i: int| 0 <= i < n implies #[trigger] by_place(i) == goal(i) by {
        let r = |v: int| cell(v, i);
        assert(0 <= tokens[i] && tokens[i] < vocab);
        assert forall|v: int| 0 <= v < vocab && v != tokens[i] implies #[trigger] r(v) == 0 by {
            assert(0 * fixed_low(mat, col, v) == 0);
        }
        lemma_sum_single(vocab, tokens[i] as int, r);
    }
    lemma_sum_same(n, by_place, goal);
    // The extension of the output, row by row.
    let out = embedded_table(mat, w as int, tokens, n as int, pow2(col.len() + row.len()));
    lemma_mle_grid(out, col, row);
    let rows = |i: int| sum(w, |j: int| out[i * w + j] * beta(col, j)) * beta(row, i);
    let padded_goal = |i: int|
        if i < n {
            goal(i)
        } else {
            0
        };
    assert forall|i: int| 0 <= i < m implies #[trigger] rows(i) == padded_goal(i) by {
        let a = |j: int| out[i * w + j] * beta(col, j);
        assert forall|j: int| 0 <= j < w implies #[trigger] out[i * w + j] == if i < n {
            mat[tokens[i] * w + j]
        } else {
            0
        } by {
            lemma_fundamental_div_mod_converse(i * w + j, w as int, i, j);
            assert(0 <= i * w + j < w * m) by (nonlinear_arith)
                requires
                    0 <= i < m,
                    0 <= j < w,
            ;
        }
        if i < n {
            let t = tokens[i] as int;
            let b = |j: int| mat[t * w + j] * beta(col, j);
            lemma_sum_same(w, a, b);
            let x = fixed_low(mat, col, t);
            let y = beta(row, i);
            assert(x * y == y * x) by (nonlinear_arith);
        } else {
            assert forall|j: int| 0 <= j < w implies #[trigger] a(j) == 0 by {
                assert(0 * beta(col, j) == 0);
            }
            lemma_sum_zero(w, a);
            assert(0 * beta(row, i) == 0);
        }
    }
    lemma_sum_same(m, rows, padded_goal);
    lemma_sum_split(n, (m - n) as nat, padded_goal);
    let tail = |i: int| padded_goal(n + i);
    assert forall|i: int| 0 <= i < m - n implies #[trigger] tail(i) == 0 by {}
    lemma_sum_zero((m - n) as nat, tail);
    lemma_sum_same(n, padded_goal, goal);
}

/// The extension of the prover's table of chosen rows is what the verifier computes
/// from the tokens.
pub proof fn law_one_hot_claim(tokens: Seq<Element>, n: nat, row: Seq<int>, vocab: Seq<int>)
    requires
        n <= tokens.len(),
        forall|i: int| 0 <= i < n ==> 0 <= #[trigger] tokens[i] && tokens[i] < pow2(vocab.len()),
    ensures
        mle(
            Seq::new(pow2(vocab.len()), |v: int| places_of(tokens, n, row, v)),
            vocab,
        ) == one_hot_sum(tokens, n, vocab, row),
{
    let size = pow2(vocab.len());
    let t = Seq::new(size, |v: int| places_of(tokens, n, row, v));
    let cell = |v: int, i: int|
        (if tokens[i] == v {
            beta(row, i)
        } else {
            0
        }) * beta(vocab, v);
    let by_token = |v: int| t[v] * beta(vocab, v);
    let cells = |v: int| sum(n, |i: int| cell(v, i));
    assert forall|v: int| 0 <= v < size implies #[trigger] by_token(v) == cells(v) by {
        let c = beta(vocab, v);
        let g = |i: int|
            if tokens[i] == v {
                beta(row, i)
            } else {
                0
            };
        lemma_sum_scale(n, c, g);
        let r = |i: int| cell(v, i);
        assert forall|i: int| 0 <= i < n implies #[trigger] r(i) == c * g(i) by {
            let x = g(i);
            assert(x * c == c * x) by (nonlinear_arith);
        }
        lemma_sum_same(n, r, |i: int| c * g(i));
        let x = sum(n, g);
        assert(x * c == c * x) by (nonlinear_arith);
    }
    lemma_sum_same(size, by_token, cells);
    lemma_sum_swap(size, n, cell);
    let by_place = |i: int| sum(size, |v: int| cell(v, i));
    let goal = |i: int| beta(row, i) * identity(vocab, bits(tokens[i] as int, vocab.len()));
    assert forall|i: int| 0 <= i < n implies #[trigger] by_place(i) == goal(i) by {
        let r = |v: int| cell(v, i);
        assert(0 <= tokens[i] && tokens[i] < size);
        assert forall|v: int| 0 <= v < size && v != tokens[i] implies #[trigger] r(v) == 0 by {
            assert(0 * beta(vocab, v) == 0);
        }
        lemma_sum_single(size, tokens[i] as int, r);
        lemma_identity_bits(vocab, tokens[i] as int);
    }
    lemma_sum_same(n, by_place, goal);
}

/// The vector of a token is the row of the table that the token numbers, whatever the
/// token: every value of the output is that of its token and its column.
pub proof fn law_row_of_token<N>(mat: Tensor<N>, tokens: Seq<Element>, out: Tensor<N>, i: int, j: int)
    requires
        mat.wf(),
        mat.shape@.len() == 2,
        tokens.len() <= usize::MAX,
        selects(mat, tokens, out),
        0 <= i < tokens.len(),
        0 <= j < mat.shape@[1],
        0 <= tokens[i] < mat.shape@[0],
    ensures
        in_bounds(out.shape@, seq![i, j]),
        out.at(seq![i, j]) == mat.at(seq![tokens[i] as int, j]),
{
    let e = mat.shape@[1] as int;
    let n = tokens.len() as usize;
    lemma_matrix_place(n, mat.shape@[1], i, j);
    lemma_matrix_place(mat.shape@[0], mat.shape@[1], tokens[i] as int, j);
    assert(mat.shape@ =~= seq![mat.shape@[0], mat.shape@[1]]);
    lemma_fundamental_div_mod_converse(i * e + j, e, i, j);
}

/// The value of a matrix in row `i` and column `j`.
pub open spec fn cell<N>(t: Tensor<N>, i: int, j: int) -> N {
    t.at(seq![i, j])
}

/// Tokens may be numbered in any way: where two tables hold the same rows under other
/// numbers, the tokens under the other numbers have the same vectors.
pub proof fn law_renumbered<N>(
    mat: Tensor<N>,
    other: Tensor<N>,
    number: spec_fn(int) -> int,
    tokens: Seq<Element>,
    other_tokens: Seq<Element>,
    out: Tensor<N>,
    other_out: Tensor<N>,
)
    requires
        mat.wf(),
        mat.shape@.len() == 2,
        other.wf(),
        other.shape@ == mat.shape@,
        tokens.len() <= usize::MAX,
        other_tokens.len() == tokens.len(),
        forall|v: int, j: int|
            0 <= v < mat.shape@[0] && 0 <= j < mat.shape@[1] ==> 0 <= #[trigger] number(v)
                < mat.shape@[0] && cell(other, number(v), j) == #[trigger] cell(mat, v, j),
        forall|i: int|
            0 <= i < tokens.len() ==> 0 <= #[trigger] tokens[i] < mat.shape@[0] && other_tokens[i]
                == number(tokens[i] as int),
        selects(mat, tokens, out),
        selects(other, other_tokens, other_out),
    ensures
        other_out.data@ == out.data@,
{
    let e = mat.shape@[1] as int;
    let n = tokens.len() as int;
    assert forall|p: int| 0 <= p < n * e implies #[trigger] out.data@[p] == other_out.data@[p] by {
        let (i, j) = (p / e, p % e);
        if e == 0 {
            assert(n * e == 0) by (nonlinear_arith)
                requires
                    e == 0,
            ;
        }
        lemma_fundamental_div_mod(p, e);
        lemma_mod_bound(p, e);
        assert(0 <= i < n) by (nonlinear_arith)
            requires
                p == e * i + j,
                0 <= p < n * e,
                0 <= j < e,
        ;
        assert(i * e + j == p) by (nonlinear_arith)
            requires
                p == e * i + j,
        ;
        let v = tokens[i] as int;
        assert(cell(mat, v, j) == cell(other, number(v), j));
        law_row_of_token(mat, tokens, out, i, j);
        law_row_of_token(other, other_tokens, other_out, i, j);
        lemma_matrix_place(n as usize, mat.shape@[1], i, j);
    }
    assert(out.data@ =~= other_out.data@);
}

/// What evaluation gives, padded, is the table whose extension the sumcheck sums to.
pub proof fn law_evaluation_is_proved(
    mat: Tensor<Element>,
    tokens: Seq<Element>,
    given: Seq<Element>,
    out: Tensor<Element>,
    row: Seq<int>,
    col: Seq<int>,
)
    requires
        mat.wf(),
        mat.shape@.len() == 2,
        can_pad(mat.shape@),
        tokens.len() <= usize::MAX,
        can_pad(seq![tokens.len() as usize, mat.shape@[1]]),
        forall|i: int|
            0 <= i < tokens.len() ==> 0 <= #[trigger] tokens[i] && tokens[i] < mat.shape@[0],
        tokens.len() <= given.len(),
        given.take(tokens.len() as int) == tokens,
        selects(mat, tokens, out),
        next_pow2(tokens.len()) == pow2(row.len()),
        next_pow2(mat.shape@[1] as nat) == pow2(col.len()),
    ensures
        ({
            let d = seq![tokens.len() as usize, mat.shape@[1]];
            let vocab = next_pow2(mat.shape@[0] as nat);
            let table = element_ints(resized(out.data@, d, padded(d), 0));
            &&& table == embedded_table(
                padded_table(mat),
                pow2(col.len()) as int,
                given,
                tokens.len() as int,
                pow2(col.len() + row.len()),
            )
            &&& mle(table, col + row) == sum(
                vocab,
                |v: int|
                    places_of(given, tokens.len(), row, v) * fixed_low(padded_table(mat), col, v),
            )
        }),
{
    let e = mat.shape@[1];
    let n = tokens.len() as usize;
    let d = seq![n, e];
    let dp = padded(d);
    let md = mat.shape@;
    let mp = padded(md);
    let vocab = next_pow2(md[0] as nat);
    let (w, m) = (pow2(col.len()), pow2(row.len()));
    lemma_next_pow2(md[0] as nat);
    lemma_next_pow2(e as nat);
    lemma_next_pow2(n as nat);
    lemma_pow2_adds(col.len(), row.len());
    assert(next_pow2(d[0] as nat) <= usize::MAX && next_pow2(d[1] as nat) <= usize::MAX);
    assert(next_pow2(md[0] as nat) <= usize::MAX);
    assert(dp =~= seq![m as usize, w as usize]);
    assert(mp =~= seq![vocab as usize, w as usize]);
    assert(md =~= seq![md[0], e]);
    lemma_numel_matrix(m as usize, w as usize);
    lemma_numel_matrix(vocab as usize, w as usize);
    let table = element_ints(resized(out.data@, d, dp, 0));
    let pt = padded_table(mat);
    let goal = embedded_table(pt, w as int, given, n as int, pow2(col.len() + row.len()));
    assert(m * w == w * m) by (nonlinear_arith);
    assert forall|p: int| 0 <= p < w * m implies #[trigger] table[p] == goal[p] by {
        let (i, j) = (p / w as int, p % w as int);
        lemma_pow2_pos(col.len());
        lemma_fundamental_div_mod(p, w as int);
        lemma_mod_bound(p, w as int);
        assert(0 <= i < m) by (nonlinear_arith)
            requires
                p == w * i + j,
                0 <= p < w * m,
                0 <= j < w,
        ;
        assert(i * w + j == p) by (nonlinear_arith)
            requires
                p == w * i + j,
        ;
        lemma_matrix_place(m as usize, w as usize, i, j);
        let idx = seq![i, j];
        assert(idx[0] == i && idx[1] == j);
        if i < n {
            let t = tokens[i] as int;
            assert(given.take(n as int)[i] == given[i]);
            lemma_matrix_place(vocab as usize, w as usize, t, j);
            let at = seq![t, j];
            assert(at[0] == t && at[1] == j);
            if j < e {
                lemma_matrix_place(n, e, i, j);
                lemma_matrix_place(md[0], e, t, j);
                law_row_of_token(mat, tokens, out, i, j);
            } else {
                assert(!in_bounds(d, idx));
                assert(!in_bounds(md, at));
            }
        } else {
            assert(!in_bounds(d, idx));
        }
    }
    assert(table =~= goal);
    assert forall|i: int| 0 <= i < n implies 0 <= #[trigger] given[i] && given[i] < vocab by {
        assert(given.take(n as int)[i] == given[i]);
        assert(tokens[i] == given[i]);
    }
    law_embeddings_sum(pt, vocab, given, n as nat, row, col);
}

/// The prover's tables sum to the claim that the sumcheck starts from.
pub proof fn law_proved_sum<F: PrimeField>(
    mat: Tensor<Element>,
    tokens: Seq<Element>,
    n: nat,
    row: Seq<int>,
    col: Seq<int>,
    s: EmbeddingsSumcheck<F>,
)
    requires
        F::modulus() > 1,
        is_embeddings_sumcheck(mat, tokens, n, row, col, s),
        n <= tokens.len(),
        n <= pow2(row.len()),
        forall|i: int|
            0 <= i < n ==> 0 <= #[trigger] tokens[i] && tokens[i] < next_pow2(
                mat.shape@[0] as nat,
            ),
    ensures
        cong(
            sum(
                next_pow2(mat.shape@[0] as nat),
                |v: int| s.reduced_one_hot@[v].residue() * s.fixed_matrix@[v].residue(),
            ),
            mle(
                embedded_table(
                    padded_table(mat),
                    pow2(col.len()) as int,
                    tokens,
                    n as int,
                    pow2(col.len() + row.len()),
                ),
                col + row,
            ),
            F::modulus(),
        ),
{
    let m = F::modulus();
    let t = padded_table(mat);
    let vocab = next_pow2(mat.shape@[0] as nat);
    let given = |v: int| s.reduced_one_hot@[v].residue() * s.fixed_matrix@[v].residue();
    let goal = |v: int| places_of(tokens, n, row, v) * fixed_low(t, col, v);
    assert forall|v: int| 0 <= v < vocab implies cong(#[trigger] given(v), goal(v), m) by {
        let (a, b) = (s.reduced_one_hot@[v], s.fixed_matrix@[v]);
        let (x, y) = (places_of(tokens, n, row, v), fixed_low(t, col, v));
        lemma_residue_cong(a, x);
        lemma_residue_cong(b, y);
        lemma_cong_times(a.residue(), x, b.residue(), y, m);
    }
    lemma_cong_sum(vocab, given, goal, m);
    law_embeddings_sum(t, vocab, tokens, n, row, col);
}

/// The claims that are left hold, where the sumcheck ended on the evaluations of the
/// prover's tables: the claim on the table holds of it, padded, and the claim on the chosen
/// rows is the one that the tokens of the input give.
pub proof fn law_claims_hold<F: PrimeField>(
    mat: Tensor<Element>,
    tokens: Seq<Element>,
    n: nat,
    last: Seq<F>,
    emb_size: usize,
    s: EmbeddingsSumcheck<F>,
    point: Seq<F>,
    ends: Seq<F>,
    one_hot: Claim<F>,
    table: Claim<F>,
)
    requires
        F::modulus() > 1,
        log2_ceil(emb_size as nat) <= last.len(),
        is_embeddings_sumcheck(
            mat,
            tokens,
            n,
            residues(last.skip(log2_ceil(emb_size as nat) as int)),
            residues(last.take(log2_ceil(emb_size as nat) as int)),
            s,
        ),
        point.len() == log2_ceil(mat.shape@[0] as nat),
        n <= tokens.len(),
        forall|i: int| 0 <= i < n ==> 0 <= #[trigger] tokens[i] && tokens[i] < pow2(point.len()),
        ends.len() >= 2,
        stands_for(ends[0], mle(residues(s.reduced_one_hot@), residues(point))),
        stands_for(ends[1], mle(residues(s.fixed_matrix@), residues(point))),
        claims_of(last, emb_size, point, ends, one_hot, table),
    ensures
        stands_for(table.eval, mle(padded_table(mat), residues(table.point@))),
        ({
            let nv = log2_ceil(mat.shape@[0] as nat) as int;
            stands_for(
                one_hot.eval,
                one_hot_sum(
                    tokens,
                    n,
                    residues(one_hot.point@.take(nv)),
                    residues(one_hot.point@.skip(nv)),
                ),
            )
        }),
{
    let cols = log2_ceil(emb_size as nat) as int;
    let nv = point.len() as int;
    let (row, col, p) = (residues(last.skip(cols)), residues(last.take(cols)), residues(point));
    let t = padded_table(mat);
    assert(residues(table.point@) =~= col + p);
    assert(one_hot.point@.take(nv) =~= point);
    assert(one_hot.point@.skip(nv) =~= last.skip(cols));
    let fixed = Seq::new(pow2(p.len()), |v: int| fixed_low(t, col, v));
    lemma_fixed_low(t, col, p);
    lemma_end_cong(ends[1], s.fixed_matrix@, fixed, p);
    let chosen = Seq::new(pow2(p.len()), |v: int| places_of(tokens, n, row, v));
    law_one_hot_claim(tokens, n, row, p);
    lemma_end_cong(ends[0], s.reduced_one_hot@, chosen, p);
    let (a, b) = (ends[0], ends[1]);
    a.residue_bounds();
    b.residue_bounds();
    lemma_small_mod(a.residue() as nat, F::modulus() as nat);
    lemma_small_mod(b.residue() as nat, F::modulus() as nat);
}

/// The domain of quantised embeddings has a whole number of chunks of bits, the most that
/// stay within 24 bits, and at least one.
pub proof fn law_domain_bits(bit_len: int)
    requires
        bit_len >= 1,
    ensures
        domain_bits(bit_len) % bit_len == 0,
        domain_bits(bit_len) >= bit_len,
        bit_len <= 24 ==> domain_bits(bit_len) <= 24 < domain_bits(bit_len) + bit_len,
        bit_len > 24 ==> domain_bits(bit_len) == bit_len,
{
    let q = 24int / bit_len;
    lemma_fundamental_div_mod(24, bit_len);
    lemma_mod_bound(24, bit_len);
    assert(q * bit_len == bit_len * q) by (nonlinear_arith);
    if bit_len <= 24 {
        assert(q >= 1) by (nonlinear_arith)
            requires
                24 == bit_len * q + 24int % bit_len,
                24int % bit_len < bit_len,
                1 <= bit_len <= 24,
        ;
        assert(q * bit_len >= bit_len) by (nonlinear_arith)
            requires
                q >= 1,
                bit_len >= 1,
        ;
        lemma_fundamental_div_mod_converse(q * bit_len, bit_len, q, 0);
    } else {
        assert(q < 1) by (nonlinear_arith)
            requires
                24 == bit_len * q + 24int % bit_len,
                0 <= 24int % bit_len,
                bit_len > 24,
        ;
        lemma_fundamental_div_mod_converse(bit_len, bit_len, 1, 0);
    }
}

/// The shape that the layer announces for a number of tokens is that of what it gives for
/// them, padded where padding is asked for.
pub proof fn law_announced_shape<N>(mat: Tensor<N>, tokens: Seq<Element>, out: Tensor<N>)
    requires
        selects(mat, tokens, out),
    ensures
        out.shape@ == embedded_shape(
            tokens.len() as usize,
            mat.shape@[1],
            PaddingMode::NoPadding,
        ),
        padded(out.shape@) == embedded_shape(
            tokens.len() as usize,
            mat.shape@[1],
            PaddingMode::Padding,
        ),
{
}

/// What an honest prover shows is accepted: the sumcheck ends on the product of the
/// evaluations of the prover's tables; the claim on the table that is left holds of it,
/// and the tokens of the input are accepted for the claim on the chosen rows.
pub proof fn law_honest_embeddings_verified<F: PrimeField>(
    ctx: EmbeddingsCtx,
    mat: Tensor<Element>,
    input: Tensor<Element>,
    last: Claim<F>,
    s: EmbeddingsSumcheck<F>,
    ends: Seq<F>,
    subclaim: SubClaim<F>,
    r: Result<(Claim<F>, Claim<F>), Error>,
    checked: Result<(), Error>,
)
    requires
        F::modulus() > 1,
        ctx.vocab_size == mat.shape@[0],
        input.wf(),
        input.shape@.len() == 1,
        last.point@.len() == log2_ceil(ctx.emb_size as nat) + log2_ceil(input.shape@[0] as nat),
        is_embeddings_sumcheck(
            mat,
            input.data@,
            input.unpadded_shape@[0] as nat,
            residues(last.point@.skip(log2_ceil(ctx.emb_size as nat) as int)),
            residues(last.point@.take(log2_ceil(ctx.emb_size as nat) as int)),
            s,
        ),
        subclaim.point@.len() == log2_ceil(mat.shape@[0] as nat),
        input.unpadded_shape@[0] <= input.data@.len(),
        forall|i: int|
            0 <= i < input.unpadded_shape@[0] ==> 0 <= #[trigger] input.data@[i] && input.data@[i]
                < mat.shape@[0],
        ends.len() == 2,
        stands_for(ends[0], mle(residues(s.reduced_one_hot@), residues(subclaim.point@))),
        stands_for(ends[1], mle(residues(s.fixed_matrix@), residues(subclaim.point@))),
        stands_for(subclaim.expected_evaluation, ends[0].residue() * ends[1].residue()),
        ctx.decides(ends, seq![last], subclaim, r),
        r matches Ok((one_hot, table)) ==> ctx.decides_input(seq![input], seq![one_hot], checked),
    ensures
        match r {
            Ok((one_hot, table)) => {
                &&& checked is Ok
                &&& stands_for(table.eval, mle(padded_table(mat), residues(table.point@)))
            },
            Err(_) => false,
        },
{
    lemma_next_pow2(mat.shape@[0] as nat);
    if let Ok((one_hot, table)) = r {
        assert(input.shape@.len() == 1);
        law_claims_hold(
            mat,
            input.data@,
            input.unpadded_shape@[0] as nat,
            last.point@,
            ctx.emb_size,
            s,
            subclaim.point@,
            ends,
            one_hot,
            table,
        );
    }
}

/// For given evaluations, an end of the sumcheck is accepted at one value only.
pub proof fn law_one_end<F: PrimeField>(
    ctx: EmbeddingsCtx,
    evaluations: Seq<F>,
    last_claims: Seq<Claim<F>>,
    s: SubClaim<F>,
    t: SubClaim<F>,
    a: Result<(Claim<F>, Claim<F>), Error>,
    b: Result<(Claim<F>, Claim<F>), Error>,
)
    requires
        ctx.decides(evaluations, last_claims, s, a),
        ctx.decides(evaluations, last_claims, t, b),
        a is Ok && b is Ok,
    ensures
        s.expected_evaluation.residue() == t.expected_evaluation.residue(),
{
}

/// For given tokens, a claim on the chosen rows is accepted at one value only.
pub proof fn law_one_input_claim<F: PrimeField>(
    ctx: EmbeddingsCtx,
    inputs: Seq<Tensor<Element>>,
    c: Claim<F>,
    d: Claim<F>,
    a: Result<(), Error>,
    b: Result<(), Error>,
)
    requires
        ctx.decides_input(inputs, seq![c], a),
        ctx.decides_input(inputs, seq![d], b),
        a is Ok && b is Ok,
        residues(c.point@) == residues(d.point@),
    ensures
        c.eval.residue() == d.eval.residue(),
{
    let nv = log2_ceil(ctx.vocab_size as nat) as int;
    let (p, q) = (residues(c.point@), residues(d.point@));
    assert(c.point@.len() == p.len() && d.point@.len() == q.len());
    assert(residues(c.point@.take(nv)) =~= p.take(nv));
    assert(residues(d.point@.take(nv)) =~= q.take(nv));
    assert(residues(c.point@.skip(nv)) =~= p.skip(nv));
    assert(residues(d.point@.skip(nv)) =~= q.skip(nv));
}

} // verus!
