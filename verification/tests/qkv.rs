//! Queries, keys and values: evaluation with a cache, padding, proving and verifying.
use zkml::claim::{Claim, SubClaim};
use zkml::error::Error;
use zkml::expression::Expression;
use zkml::field::PrimeField;
use zkml::goldilocks::Goldilocks;
use zkml::mle::mle_evaluate;
use zkml::padding::PaddingMode;
use zkml::qkv::cache::CacheQKV;
use zkml::qkv::prove::{batched_expression, batching_coefficients, build_points, split_claim_point};
use zkml::qkv::QKV;
use zkml::shape::Shape;
use zkml::tensor::{Element, KeyedTensor, Tensor};

type F = Goldilocks;

struct Random(u64);

impl Random {
    fn next(&mut self) -> u64 {
        self.0 = self.0.wrapping_add(0x9E37_79B9_7F4A_7C15);
        let mut z = self.0;
        z = (z ^ (z >> 30)).wrapping_mul(0xBF58_476D_1CE4_E5B9);
        z = (z ^ (z >> 27)).wrapping_mul(0x94D0_49BB_1331_11EB);
        z ^ (z >> 31)
    }

    fn element(&mut self) -> Element {
        (self.next() % 255) as Element - 127
    }

    fn elements(&mut self, n: usize) -> Vec<Element> {
        (0..n).map(|_| self.element()).collect()
    }

    fn field(&mut self) -> F {
        F::new(self.next())
    }

    fn point(&mut self, n: usize) -> Vec<F> {
        (0..n).map(|_| self.field()).collect()
    }
}

fn shape(dims: &[usize]) -> Shape {
    Shape::new(dims.to_vec())
}

fn to_field(t: &Tensor<Element>) -> Tensor<F> {
    Tensor {
        data: t.data.iter().map(|x| F::from_i64(*x)).collect(),
        shape: t.shape.clone(),
        unpadded_shape: t.unpadded_shape.clone(),
    }
}

fn value(e: &Expression<F>, w: &[F], c: &[F]) -> F {
    match e {
        Expression::WitIn(i) => w[*i],
        Expression::Challenge(i) => c[*i],
        Expression::Constant(k) => *k,
        Expression::Sum(a, b) => value(a, w, c).plus(value(b, w, c)),
        Expression::Difference(a, b) => value(a, w, c).minus(value(b, w, c)),
        Expression::Product(a, b) => value(a, w, c).times(value(b, w, c)),
    }
}

fn keyed(key: &str, dims: &[usize], rng: &mut Random) -> KeyedTensor<Element> {
    let n: usize = dims.iter().product();
    KeyedTensor::new(key.to_string(), Tensor::new(shape(dims), rng.elements(n)).unwrap())
}

fn random_layer(num_heads: usize, emb: usize, hidden: usize, bias: bool, rng: &mut Random) -> QKV<Element> {
    let q = keyed("weight_q", &[emb, hidden], rng);
    let k = keyed("weight_k", &[emb, hidden], rng);
    let v = keyed("weight_v", &[emb, hidden], rng);
    let (bq, bk, bv) = if bias {
        (
            Some(keyed("bias_q", &[hidden], rng)),
            Some(keyed("bias_k", &[hidden], rng)),
            Some(keyed("bias_v", &[hidden], rng)),
        )
    } else {
        (None, None, None)
    };
    QKV::new(q, bq, k, bk, v, bv, num_heads, num_heads).unwrap()
}

fn copy_keyed(t: &KeyedTensor<Element>) -> KeyedTensor<Element> {
    KeyedTensor::new(t.key.clone(), t.tensor.duplicate())
}

fn copy_layer(l: &QKV<Element>) -> QKV<Element> {
    QKV::new(
        copy_keyed(&l.q),
        l.q_bias.as_ref().map(copy_keyed),
        copy_keyed(&l.k),
        l.k_bias.as_ref().map(copy_keyed),
        copy_keyed(&l.v),
        l.v_bias.as_ref().map(copy_keyed),
        l.num_heads,
        l.num_groups,
    )
    .unwrap()
}

fn affine(a: &Tensor<Element>, w: &KeyedTensor<Element>, b: &Option<KeyedTensor<Element>>) -> Vec<Element> {
    let (n, m, p) = (a.shape.dims[0], a.shape.dims[1], w.tensor.shape.dims[1]);
    let mut r = Vec::new();
    for i in 0..n {
        for j in 0..p {
            let mut acc = match b {
                Some(t) => t.tensor.data[j],
                None => 0,
            };
            for k in 0..m {
                acc += a.data[i * m + k] * w.tensor.data[k * p + j];
            }
            r.push(acc);
        }
    }
    r
}

#[test]
fn test_qkv_cache() {
    let mut rng = Random(1);
    let (emb_size, hidden_size, num_heads) = (2usize, 4usize, 2usize);
    let mut qkv = random_layer(num_heads, emb_size, hidden_size, true, &mut rng);
    let input = Tensor::new(shape(&[1, emb_size]), rng.elements(emb_size)).unwrap();
    let mut out_k = affine(&input, &qkv.k, &qkv.k_bias);
    let mut out_v = affine(&input, &qkv.v, &qkv.v_bias);
    let output = qkv.evaluate(&vec![input]).unwrap();
    assert_eq!(output.len(), 3);
    assert_eq!(output[0].shape.dims, vec![1, hidden_size]);
    assert_eq!(output[1].shape.dims, vec![1, hidden_size]);
    assert_eq!(output[1].data, out_k);
    assert_eq!(output[2].shape.dims, vec![1, hidden_size]);
    assert_eq!(output[2].data, out_v);
    // second token
    let seq_len = 2;
    let token = Tensor::new(shape(&[1, emb_size]), rng.elements(emb_size)).unwrap();
    let out_q = affine(&token, &qkv.q, &qkv.q_bias);
    out_k.extend(affine(&token, &qkv.k, &qkv.k_bias));
    out_v.extend(affine(&token, &qkv.v, &qkv.v_bias));
    let output = qkv.evaluate(&vec![token]).unwrap();
    assert_eq!(output.len(), 3);
    assert_eq!(output[0].shape.dims, vec![1, hidden_size]);
    assert_eq!(output[1].shape.dims, vec![seq_len, hidden_size]);
    assert_eq!(output[2].shape.dims, vec![seq_len, hidden_size]);
    assert_eq!(output[0].data, out_q);
    assert_eq!(output[1].data, out_k);
    assert_eq!(output[2].data, out_v);
    qkv.cache.reset();
    assert_eq!(qkv.cache.full_seq_len(), 0);
}

#[test]
fn test_qkv_padding() {
    let mut rng = Random(2);
    let (num_inputs, embedding_size, hidden_size, num_heads) = (57usize, 77usize, 35usize, 7usize);
    let unpadded_input_shape = shape(&[num_inputs, embedding_size]);
    let weight_shape = shape(&[embedding_size, hidden_size]);
    let bias_shape = shape(&[hidden_size]);
    let mut layer = random_layer(num_heads, embedding_size, hidden_size, true, &mut rng);
    let inputs = vec![unpadded_input_shape.clone()];
    let (mut padded_layer, unpadded_shapes, padded_shapes) = copy_layer(&layer).pad_node(&inputs);
    assert_eq!(padded_layer.cache.full_seq_len(), 0);
    let padded_weight_shape = weight_shape.next_power_of_two();
    let padded_bias_shape = bias_shape.next_power_of_two();
    assert_eq!(layer.output_shapes(&inputs, PaddingMode::NoPadding), unpadded_shapes);
    assert_eq!(padded_layer.output_shapes(&inputs, PaddingMode::NoPadding), unpadded_shapes);
    let padded_inputs = vec![unpadded_input_shape.next_power_of_two()];
    assert_eq!(padded_layer.output_shapes(&padded_inputs, PaddingMode::Padding), padded_shapes);
    assert!(matches!(padded_layer.cache.padding_mode, PaddingMode::Padding));
    assert_eq!(padded_layer.cache.full_seq_len(), 0);
    for w in [&padded_layer.q, &padded_layer.k, &padded_layer.v] {
        assert_eq!(w.tensor.shape, padded_weight_shape);
    }
    for b in [&padded_layer.q_bias, &padded_layer.k_bias, &padded_layer.v_bias] {
        assert_eq!(b.as_ref().unwrap().tensor.shape, padded_bias_shape);
    }
    let head_dim = layer.head_dim;
    assert_eq!(head_dim, hidden_size / num_heads);
    let padded_head_dim = head_dim.next_power_of_two();
    for (w, p) in [
        (&layer.q, &padded_layer.q),
        (&layer.k, &padded_layer.k),
        (&layer.v, &padded_layer.v),
    ] {
        let (rows, cols) = (p.tensor.shape.dims[0], p.tensor.shape.dims[1]);
        for i in 0..rows {
            for j in 0..cols {
                let value = p.tensor.data[i * cols + j];
                if i < embedding_size
                    && j % padded_head_dim < head_dim
                    && j / padded_head_dim < num_heads
                {
                    let original = j / padded_head_dim * head_dim + j % padded_head_dim;
                    assert_eq!(w.tensor.data[i * hidden_size + original], value);
                } else {
                    assert_eq!(0, value);
                }
            }
        }
    }
    let input = Tensor::new(
        unpadded_input_shape.clone(),
        rng.elements(num_inputs * embedding_size),
    )
    .unwrap();
    let padded_input = input.pad_next_power_of_two(0);
    let output = layer.evaluate(&vec![input]).unwrap();
    for (o, s) in output.iter().zip(unpadded_shapes.iter()) {
        assert_eq!(o.shape, *s);
    }
    let padded_output = padded_layer.evaluate(&vec![padded_input]).unwrap();
    for (o, s) in padded_output.iter().zip(padded_shapes.iter()) {
        assert_eq!(o.shape, *s);
    }
    let biases = [&padded_layer.q_bias, &padded_layer.k_bias, &padded_layer.v_bias];
    for t in 0..3 {
        let (rows, cols) = (padded_output[t].shape.dims[0], padded_output[t].shape.dims[1]);
        for i in 0..rows {
            for j in 0..cols {
                let value = padded_output[t].data[i * cols + j];
                if i < num_inputs {
                    if j % padded_head_dim < head_dim && j / padded_head_dim < num_heads {
                        let original = j / padded_head_dim * head_dim + j % padded_head_dim;
                        assert_eq!(output[t].data[i * hidden_size + original], value);
                    } else {
                        assert_eq!(0, value);
                    }
                } else {
                    assert_eq!(biases[t].as_ref().unwrap().tensor.data[j], value);
                }
            }
        }
    }
}

#[test]
fn test_qkv_already_padded() {
    let mut rng = Random(3);
    let (num_inputs, embedding_size, hidden_size, num_heads) = (64usize, 128usize, 32usize, 8usize);
    let inputs = vec![shape(&[num_inputs, embedding_size])];
    let weight_shape = shape(&[embedding_size, hidden_size]);
    let bias_shape = shape(&[hidden_size]);
    let layer = random_layer(num_heads, embedding_size, hidden_size, true, &mut rng);
    let (padded_layer, unpadded_shapes, padded_shapes) = copy_layer(&layer).pad_node(&inputs);
    assert_eq!(layer.output_shapes(&inputs, PaddingMode::NoPadding), unpadded_shapes);
    assert_eq!(padded_layer.output_shapes(&inputs, PaddingMode::NoPadding), unpadded_shapes);
    assert_eq!(padded_layer.output_shapes(&inputs, PaddingMode::Padding), padded_shapes);
    for w in [&padded_layer.q, &padded_layer.k, &padded_layer.v] {
        assert_eq!(w.tensor.shape, weight_shape);
    }
    for b in [&padded_layer.q_bias, &padded_layer.k_bias, &padded_layer.v_bias] {
        assert_eq!(b.as_ref().unwrap().tensor.shape, bias_shape);
    }
    for (w, p) in [
        (&layer.q, &padded_layer.q),
        (&layer.k, &padded_layer.k),
        (&layer.v, &padded_layer.v),
    ] {
        assert_eq!(w.tensor.data, p.tensor.data);
    }
}

#[test]
fn test_proven_qkv_layer() {
    let mut rng = Random(4);
    for with_bias in [true, false] {
        let (num_inputs, embedding_size, hidden_size, num_heads) = (49usize, 78usize, 120usize, 10usize);
        let input_shapes = vec![shape(&[num_inputs, embedding_size])];
        let layer = random_layer(num_heads, embedding_size, hidden_size, with_bias, &mut rng);
        let (mut layer, _, padded_shapes) = layer.pad_node(&input_shapes);
        let input = Tensor::new(
            shape(&[num_inputs, embedding_size]),
            rng.elements(num_inputs * embedding_size),
        )
        .unwrap()
        .pad_next_power_of_two(0);
        let padded_input_shapes = vec![input.shape.clone()];
        let (context, polys, shapes) = layer.step_info(9, &padded_input_shapes).unwrap();
        assert_eq!(polys.len(), if with_bias { 6 } else { 3 });
        assert_eq!(shapes, padded_shapes);
        let inputs = vec![input];
        let outputs = layer.evaluate(&inputs).unwrap();
        let vars = (
            padded_shapes[0].dims[0].trailing_zeros() as usize,
            padded_shapes[0].dims[1].trailing_zeros() as usize,
        );
        let claims: Vec<Claim<F>> = outputs
            .iter()
            .map(|o| {
                let point = rng.point(vars.0 + vars.1);
                let eval = mle_evaluate(&to_field(o).data, &point);
                Claim::new(point, eval)
            })
            .collect();
        let sumcheck = layer.prove(&claims, &inputs, &padded_shapes).unwrap();
        let challenges = batching_coefficients((rng.field(), rng.field()));
        let expression = batched_expression(&challenges);
        // The sum over the cube is the batched claim.
        let size = sumcheck.input_tables[0].len();
        let mut all = F::zero();
        for x in 0..size {
            let mut w = Vec::new();
            for i in 0..3 {
                w.push(sumcheck.input_tables[i][x]);
                w.push(sumcheck.weight_tables[i][x]);
            }
            all = all.plus(value(&expression, &w, &challenges));
        }
        assert_eq!(all, context.batched_evaluation(&sumcheck.pre_bias_evals, &challenges));
        let end = rng.point(size.trailing_zeros() as usize);
        let mut ends = Vec::new();
        for i in 0..3 {
            ends.push(mle_evaluate(&sumcheck.input_tables[i], &end));
            ends.push(mle_evaluate(&sumcheck.weight_tables[i], &end));
        }
        let expected = value(&expression, &ends, &challenges);
        let pairs = QKV::evaluation_pairs(&ends);
        let proof = QKV::finish_proof((), (), sumcheck.pre_bias_evals, pairs);
        assert_eq!(proof.individual_to_virtual_claim(&challenges), expected);
        let subclaim = SubClaim { point: end, expected_evaluation: expected };
        let (input_claims, common) = context
            .verify(&proof, &claims, &padded_input_shapes, &padded_shapes, &challenges, &subclaim)
            .unwrap();
        let field_input = to_field(&inputs[0]);
        for c in &input_claims {
            assert_eq!(c.eval, mle_evaluate(&field_input.data, &c.point));
        }
        assert_eq!(common.len(), polys.len());
        for (key, c) in &common {
            let (_, data) = polys.iter().find(|(k, _)| k == key).unwrap();
            let table: Vec<F> = data.iter().map(|x| F::from_i64(*x)).collect();
            assert_eq!(c.eval, mle_evaluate(&table, &c.point), "{key}");
        }
        let wrong = SubClaim {
            point: subclaim.point.clone(),
            expected_evaluation: expected.plus(F::one()),
        };
        let refused =
            context.verify(&proof, &claims, &padded_input_shapes, &padded_shapes, &challenges, &wrong);
        assert_eq!(refused.err(), Some(Error::EvaluationMismatch));
        let refused = context.verify(
            &proof,
            &vec![],
            &padded_input_shapes,
            &padded_shapes,
            &challenges,
            &subclaim,
        );
        assert_eq!(refused.err(), Some(Error::WrongNumberOfClaims));
        let refused =
            context.verify(&proof, &claims, &vec![], &padded_shapes, &challenges, &subclaim);
        assert_eq!(refused.err(), Some(Error::WrongNumberOfInputs));
        let refused =
            context.verify(&proof, &claims, &padded_input_shapes, &vec![], &challenges, &subclaim);
        assert_eq!(refused.err(), Some(Error::WrongNumberOfOutputs));
    }
}

#[test]
fn layers_that_do_not_fit_are_refused() {
    let mut rng = Random(5);
    let refuse = |b: [Option<usize>; 3], cols: [usize; 3], heads: usize, groups: usize, rng: &mut Random| {
        let q = keyed("q", &[2, cols[0]], rng);
        let k = keyed("k", &[2, cols[1]], rng);
        let v = keyed("v", &[2, cols[2]], rng);
        let mut biases = b.iter().map(|n| n.map(|n| keyed("b", &[n], rng))).collect::<Vec<_>>();
        let bv = biases.pop().unwrap();
        let bk = biases.pop().unwrap();
        let bq = biases.pop().unwrap();
        QKV::new(q, bq, k, bk, v, bv, heads, groups).err()
    };
    let none = [None, None, None];
    assert_eq!(refuse(none, [4, 4, 4], 2, 2, &mut rng), None);
    assert_eq!(refuse([Some(4), None, Some(4)], [4, 4, 4], 2, 2, &mut rng), Some(Error::InvalidBias));
    assert_eq!(refuse([Some(4), Some(4), Some(2)], [4, 4, 4], 2, 2, &mut rng), Some(Error::InvalidBias));
    assert_eq!(refuse(none, [4, 4, 4], 3, 3, &mut rng), Some(Error::InvalidHeads));
    assert_eq!(refuse(none, [4, 2, 4], 2, 1, &mut rng), Some(Error::InvalidShape));
    assert_eq!(refuse(none, [4, 3, 3], 2, 1, &mut rng), Some(Error::InvalidShape));
    assert_eq!(refuse(none, [4, 2, 2], 2, 1, &mut rng), None);
    // No heads divide no columns only.
    assert_eq!(refuse(none, [4, 4, 4], 0, 0, &mut rng), Some(Error::InvalidHeads));
    // Biases that do not agree are refused whatever their sizes.
    assert_eq!(refuse([Some(3), None, None], [4, 4, 4], 2, 2, &mut rng), Some(Error::InvalidBias));
}

#[test]
fn inputs_that_do_not_fit_are_refused() {
    let mut rng = Random(6);
    let mut layer = random_layer(2, 2, 4, false, &mut rng);
    assert_eq!(layer.evaluate(&vec![]).err(), Some(Error::WrongNumberOfInputs));
    let wide = Tensor::new(shape(&[1, 3]), vec![1, 2, 3]).unwrap();
    assert_eq!(layer.evaluate(&vec![wide]).err(), Some(Error::InvalidShape));
    let token = Tensor::new(shape(&[1, 2]), vec![1, 2]).unwrap();
    layer.evaluate(&vec![token]).unwrap();
    assert!(layer.cache.is_initialized());
    let two = Tensor::new(shape(&[2, 2]), vec![1, 2, 3, 4]).unwrap();
    assert_eq!(layer.evaluate(&vec![two]).err(), Some(Error::WrongSequenceLength));
    assert_eq!(layer.cache.k_shape().dims, vec![1, 4]);
    assert_eq!(layer.cache.v_shape().dims, vec![1, 4]);
    assert_eq!(layer.cache.k().data.len(), 4);
    layer.reset_cache();
    assert!(!layer.cache.is_initialized());
    assert_eq!(layer.step_info(1, &vec![]).err(), Some(Error::WrongNumberOfInputs));
    assert_eq!(layer.step_info(1, &vec![shape(&[1, 3])]).err(), Some(Error::InvalidShape));
    assert_eq!(layer.prove::<F>(&vec![], &vec![], &vec![]).err(), Some(Error::WrongNumberOfClaims));
}

#[test]
fn a_padded_cache_keeps_its_rows() {
    let mut rng = Random(7);
    let layer = random_layer(2, 2, 4, true, &mut rng);
    let mut plain = copy_layer(&layer);
    let (mut padded, _, _) = layer.pad_node(&vec![shape(&[1, 2])]);
    let mut last = (Vec::new(), Vec::new());
    for _ in 0..3 {
        let token = rng.elements(2);
        let a = plain.evaluate(&vec![Tensor::new(shape(&[1, 2]), token.clone()).unwrap()]).unwrap();
        let b = padded.evaluate(&vec![Tensor::new(shape(&[1, 2]), token).unwrap()]).unwrap();
        last = (a[1].data.clone(), b[1].data.clone());
    }
    assert_eq!(last.0.len(), 12);
    assert_eq!(last.1.len(), 16);
    assert_eq!(last.1[..12], last.0[..]);
    assert_eq!(last.1[12..], [0, 0, 0, 0]);
}

#[test]
fn a_cache_that_is_emptied_does_not_pad() {
    let mut rng = Random(8);
    let (mut layer, _, _) = random_layer(2, 2, 4, true, &mut rng).pad_node(&vec![shape(&[1, 2])]);
    assert_eq!(layer.cache.padding_mode, PaddingMode::Padding);
    let token = || Tensor::new(shape(&[1, 2]), vec![1, 2]).unwrap();
    for n in 1..4 {
        layer.evaluate(&vec![token()]).unwrap();
        assert_eq!(layer.cache.full_seq_len(), n);
        assert_eq!(layer.cache.k_shape(), layer.cache.v_shape());
        assert_eq!(layer.cache.k_shape().dims[0], n.next_power_of_two());
    }
    layer.reset_cache();
    assert!(!layer.cache.is_initialized());
    assert_eq!(layer.cache.padding_mode, PaddingMode::NoPadding);
    assert_eq!(layer.cache.full_seq_len(), 0);
    assert_eq!(layer.cache.k_shape().dims, vec![0]);
    assert_eq!(layer.cache.v_shape().dims, vec![0]);
    assert_eq!(layer.cache.k().data, Vec::<Element>::new());
    for n in 1..4 {
        layer.evaluate(&vec![token()]).unwrap();
        assert_eq!(layer.cache.k_shape().dims[0], n);
    }
}

#[test]
fn points_are_split_by_columns_and_rows() {
    let point: Vec<F> = (1..=5).map(F::new).collect();
    let (row, col) = split_claim_point(&point, (2, 3)).unwrap();
    assert_eq!(row, point[3..].to_vec());
    assert_eq!(col, point[..3].to_vec());
    assert_eq!(split_claim_point(&point, (2, 2)).err(), Some(Error::WrongPointLength));
    let end: Vec<F> = vec![F::new(8)];
    let (input, weight) = build_points(&point, &end, (2, 3)).unwrap();
    assert_eq!(input, vec![F::new(8), F::new(4), F::new(5)]);
    assert_eq!(weight, vec![F::new(1), F::new(2), F::new(3), F::new(8)]);
}

#[test]
fn a_layer_is_quantised_by_its_scales() {
    let mut rng = Random(8);
    let layer = random_layer(2, 2, 4, false, &mut rng);
    let parts = |rng: &mut Random| {
        (
            (keyed("q", &[2, 4], rng), None),
            (keyed("k", &[2, 4], rng), None),
            (keyed("v", &[2, 4], rng), None),
        )
    };
    let (q, k, v) = parts(&mut rng);
    let quantised = layer.quantize_from_scalings(1, 3, q, k, v).unwrap();
    assert_eq!(quantised.head_dim, 2);
    assert_eq!(quantised.k.key, "k");
    let (q, k, v) = parts(&mut rng);
    assert_eq!(quantised.quantize_from_scalings(2, 3, q, k, v).err(), Some(Error::InvalidScaling));
    let layer = random_layer(2, 2, 4, false, &mut rng);
    let (q, k, v) = parts(&mut rng);
    assert_eq!(layer.quantize_from_scalings(1, 1, q, k, v).err(), Some(Error::InvalidScaling));
    let cache: CacheQKV<Element> = CacheQKV::default();
    assert!(!cache.is_initialized());
}
