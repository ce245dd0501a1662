//! Embeddings: evaluation, proving and verifying.
use zkml::claim::{Claim, SubClaim};
use zkml::embeddings::{element_bits, embedding_key, safetensors_keys, Embeddings, EmbeddingsCtx};
use zkml::error::Error;
use zkml::field::PrimeField;
use zkml::goldilocks::Goldilocks;
use zkml::mle::mle_evaluate;
use zkml::padding::{PaddingMode, ShapeData};
use zkml::shape::Shape;
use zkml::tensor::{Element, Tensor};

type F = Goldilocks;

struct Random(u64);

impl Random {
    fn next(&mut self) -> u64 {
        self.0 = self.0.wrapping_add(0x9E37_79B9_7F4A_7C15);
        let mut z = self.0;
        z = (z ^ (z >> 30)).wrapping_mul(0xBF58_476D_1CE4_E5B9);
        z = (z ^ (z >> 27)).wrapping_mul(0x94D0_49BB_1331_11EB);
        z ^ (z >> 31)
    }

    fn range(&mut self, low: usize, high: usize) -> usize {
        low + (self.next() % (high - low) as u64) as usize
    }

    fn element(&mut self) -> Element {
        (self.next() % 255) as Element - 127
    }

    fn elements(&mut self, n: usize) -> Vec<Element> {
        (0..n).map(|_| self.element()).collect()
    }

    fn field(&mut self) -> F {
        F::new(self.next())
    }

    fn point(&mut self, n: usize) -> Vec<F> {
        (0..n).map(|_| self.field()).collect()
    }
}

fn shape(dims: &[usize]) -> Shape {
    Shape::new(dims.to_vec())
}

fn to_field(t: &Tensor<Element>) -> Tensor<F> {
    Tensor {
        data: t.data.iter().map(|x| F::from_i64(*x)).collect(),
        shape: t.shape.clone(),
        unpadded_shape: t.unpadded_shape.clone(),
    }
}

fn one_hot_encoding(indices: &[Element], vocab_size: usize) -> Vec<F> {
    let mut data = vec![F::zero(); indices.len() * vocab_size];
    for (i, idx) in indices.iter().enumerate() {
        data[i * vocab_size + *idx as usize] = F::one();
    }
    data
}

#[test]
fn test_one_hot_encoding_inference() {
    let mut rng = Random(1);
    let (seq_len, vocab_size, emb_size) = (5usize, 6usize, 10usize);
    let indices: Vec<Element> = (0..seq_len as Element).collect();
    let one_hot = one_hot_encoding(&indices, vocab_size);
    let bits: Vec<u64> = one_hot.iter().map(|x| x.value()).collect();
    assert_eq!(
        bits,
        vec![
            1, 0, 0, 0, 0, 0, 0, 1, 0, 0, 0, 0, 0, 0, 1, 0, 0, 0, 0, 0, 0, 1, 0, 0, 0, 0, 0, 0, 1, 0
        ]
    );
    let emb = rng.elements(vocab_size * emb_size);
    let table = Tensor::new(shape(&[vocab_size, emb_size]), emb.clone()).unwrap();
    let embeddings = Embeddings::new(table).unwrap();
    let input = Tensor::new(shape(&[seq_len]), indices).unwrap();
    let out = embeddings.evaluate(&vec![input]).unwrap();
    assert_eq!(out.shape.dims, vec![seq_len, emb_size]);
    for i in 0..seq_len {
        for j in 0..emb_size {
            let mut acc = F::zero();
            for k in 0..vocab_size {
                let e = F::from_i64(emb[k * emb_size + j]);
                acc = acc.plus(one_hot[i * vocab_size + k].times(e));
            }
            assert_eq!(acc, F::from_i64(out.data[i * emb_size + j]));
        }
    }
}

#[test]
fn test_embeddings() {
    let mut rng = Random(2);
    let (seq_len, vocab_size, emb_size) = (10usize, 100usize, 20usize);
    let emb_vector = |idx: usize| -> Vec<Element> {
        (0..emb_size).map(|j| (10000 * idx + j) as Element).collect()
    };
    let table: Vec<Element> = (0..vocab_size).flat_map(emb_vector).collect();
    let embeddings = Embeddings::new(Tensor::new(shape(&[vocab_size, emb_size]), table).unwrap()).unwrap();
    let mut input_data: Vec<Element> = Vec::new();
    while input_data.len() < seq_len {
        let x = rng.range(0, vocab_size) as Element;
        if !input_data.contains(&x) {
            input_data.push(x);
        }
    }
    let x = Tensor::new(shape(&[seq_len]), input_data.clone()).unwrap();
    let out = embeddings.evaluate(&vec![x]).unwrap();
    assert_eq!(out.shape.dims, vec![seq_len, emb_size]);
    for (idx, table_idx) in input_data.iter().enumerate() {
        let out_emb = out.data[idx * emb_size..(idx + 1) * emb_size].to_vec();
        assert_eq!(emb_vector(*table_idx as usize), out_emb);
    }
}

#[test]
fn embeddings_hold_values_of_any_type() {
    let table = Tensor::new(shape(&[3, 2]), vec![0.5f32, 1.5, 2.5, 3.5, 4.5, 5.5]).unwrap();
    let embeddings = Embeddings::new(table).unwrap();
    let input = Tensor::new(shape(&[3]), vec![2, 0, 2]).unwrap();
    let out = embeddings.evaluate(&vec![input]).unwrap();
    assert_eq!(out.data, vec![4.5, 5.5, 0.5, 1.5, 4.5, 5.5]);
}

#[test]
fn test_one_hot_encoding_proving() {
    let mut rng = Random(3);
    let (seq_len, vocab_size, emb_size) = (5usize, 200usize, 10usize);
    let indices: Vec<Element> = (0..seq_len).map(|_| rng.range(0, vocab_size) as Element).collect();
    let table = Tensor::new(shape(&[vocab_size, emb_size]), rng.elements(vocab_size * emb_size)).unwrap();
    let layer = Embeddings::new(table).unwrap();
    let input = Tensor::new(shape(&[seq_len]), indices).unwrap();
    let input_shapes = vec![input.shape.clone()];
    let inputs = vec![input];
    let output = layer.evaluate(&inputs).unwrap().pad_next_power_of_two(0);
    let padded_inputs = vec![inputs[0].pad_next_power_of_two(0)];
    let (context, committed, shapes) = layer.step_info("table".to_string(), &input_shapes).unwrap();
    assert_eq!(shapes[0].dims, vec![8, 16]);
    assert_eq!(output.shape.dims, vec![8, 16]);
    let committed: Vec<F> = committed.iter().map(|x| F::from_i64(*x)).collect();
    let point = rng.point(3 + 4);
    let claim = Claim::new(point.clone(), mle_evaluate(&to_field(&output).data, &point));
    let start = claim.eval;
    let claims = vec![claim];
    let sumcheck = layer.prove(&claims, &padded_inputs).unwrap();
    let all = sumcheck
        .reduced_one_hot
        .iter()
        .zip(sumcheck.fixed_matrix.iter())
        .fold(F::zero(), |acc, (a, b)| acc.plus(a.times(*b)));
    assert_eq!(all, start);
    let end = rng.point(8);
    let ends = vec![
        mle_evaluate(&sumcheck.reduced_one_hot, &end),
        mle_evaluate(&sumcheck.fixed_matrix, &end),
    ];
    let expected = ends[0].times(ends[1]);
    let (proof, one_hot, table_claim) = layer.finish_proof(&claims[0], (), &end, ends);
    assert_eq!(table_claim.eval, mle_evaluate(&committed, &table_claim.point));
    let subclaim = SubClaim { point: end.clone(), expected_evaluation: expected };
    let (a, b) = context.verify(&proof, &claims, &subclaim).unwrap();
    assert_eq!((a.point.clone(), a.eval), (one_hot.point, one_hot.eval));
    assert_eq!((b.point, b.eval), (table_claim.point, table_claim.eval));
    let off = Claim::new(a.point.clone(), a.eval.plus(F::one()));
    assert_eq!(context.verify_input_claim(&padded_inputs, &vec![a]), Ok(()));
    assert_eq!(
        context.verify_input_claim(&padded_inputs, &vec![off]),
        Err(Error::EvaluationMismatch)
    );
    let wrong = SubClaim { point: end, expected_evaluation: expected.plus(F::one()) };
    assert_eq!(context.verify(&proof, &claims, &wrong).err(), Some(Error::EvaluationMismatch));
    assert_eq!(context.verify(&proof, &vec![], &wrong).err(), Some(Error::WrongNumberOfClaims));
}

#[test]
fn tokens_that_do_not_fit_are_refused() {
    let layer = Embeddings::new(Tensor::new(shape(&[2, 2]), vec![1, 2, 3, 4]).unwrap()).unwrap();
    assert_eq!(layer.evaluate(&vec![]).err(), Some(Error::WrongNumberOfInputs));
    let square = Tensor::new(shape(&[1, 1]), vec![0]).unwrap();
    assert_eq!(layer.evaluate(&vec![square]).err(), Some(Error::InvalidShape));
    let none: Vec<Claim<F>> = Vec::new();
    assert_eq!(layer.prove(&none, &vec![]).err(), Some(Error::WrongNumberOfInputs));
    let token = vec![Tensor::new(shape(&[1]), vec![1]).unwrap()];
    assert_eq!(layer.prove(&none, &token).err(), Some(Error::WrongNumberOfClaims));
    assert_eq!(layer.step_info("t".to_string(), &vec![]).err(), Some(Error::WrongNumberOfInputs));
    let context = EmbeddingsCtx { vocab_size: 2, emb_size: 2, embedding_key: "t".to_string() };
    assert_eq!(
        context.verify_input_claim::<F>(&vec![], &vec![]),
        Err(Error::WrongNumberOfInputs)
    );
    assert_eq!(context.verify_input_claim(&token, &none), Err(Error::WrongNumberOfClaims));
    let long = vec![Claim::new(vec![F::new(1); 5], F::new(1))];
    assert_eq!(context.verify_input_claim(&token, &long), Err(Error::WrongPointLength));
}

#[test]
fn shapes_of_embeddings() {
    let layer = Embeddings::new(Tensor::new(shape(&[2, 3]), vec![0; 6]).unwrap()).unwrap();
    let input = vec![shape(&[5])];
    let plain = layer.output_shapes(&input, PaddingMode::NoPadding).unwrap();
    assert_eq!(plain[0].dims, vec![5, 3]);
    let padded = layer.output_shapes(&input, PaddingMode::Padding).unwrap();
    assert_eq!(padded[0].dims, vec![8, 4]);
    assert_eq!(layer.output_shapes(&vec![], PaddingMode::Padding).err(), Some(Error::WrongNumberOfInputs));
    let matrix = vec![shape(&[5, 1])];
    assert_eq!(layer.output_shapes(&matrix, PaddingMode::Padding).err(), Some(Error::InvalidShape));
    let context = EmbeddingsCtx { vocab_size: 2, emb_size: 3, embedding_key: "t".to_string() };
    assert_eq!(context.output_shapes(&input, PaddingMode::NoPadding)[0].dims, vec![5, 3]);
    let data = ShapeData {
        input_shape_og: shape(&[5]),
        input_shape_padded: shape(&[8]),
        ignore_garbage_pad: true,
    };
    let out = layer.pad_node(&vec![data]).unwrap();
    assert_eq!(out[0].input_shape_og.dims, vec![5, 3]);
    assert_eq!(out[0].input_shape_padded.dims, vec![8, 4]);
    assert!(!out[0].ignore_garbage_pad);
    assert_eq!(layer.pad_node(&vec![]).err(), Some(Error::WrongNumberOfInputs));
}

#[test]
fn tables_are_loaded_by_name() {
    let none: Option<Tensor<Element>> = None;
    assert_eq!(Embeddings::from_json(none).err(), Some(Error::MissingTensor));
    let none: Option<Tensor<Element>> = None;
    assert_eq!(Embeddings::from_loader(none).err(), Some(Error::MissingTensor));
    let table = |x: Element| Tensor::new(shape(&[1, 2]), vec![x, x]).unwrap();
    assert_eq!(embedding_key(), "token_embd.weight");
    assert_eq!(Embeddings::from_json(Some(table(4))).unwrap().emb_size, 2);
    assert_eq!(
        safetensors_keys(),
        ["model.embed_tokens.weight", "token_embd.weight", "tok_embeddings.weight", "wte.weight"]
    );
    // A file that names its tables as some models do.
    let load = |held: &[(&str, Element)]| {
        let loaded = safetensors_keys()
            .iter()
            .map(|key| match held.iter().find(|(name, _)| name == key) {
                Some((_, x)) => Ok(table(*x)),
                None => Err(format!("{key} was not found")),
            })
            .collect();
        Embeddings::from_safetensors_loader(loaded)
    };
    let found = load(&[("wte.weight", 8), ("tok_embeddings.weight", 7)]).unwrap();
    assert_eq!(found.mat.data, vec![7, 7]);
    assert_eq!((found.vocab_size, found.emb_size), (1, 2));
    assert_eq!(load(&[("model.embed_tokens.weight", 3), ("wte.weight", 4)]).unwrap().mat.data, vec![3, 3]);
    assert_eq!(load(&[("other", 1)]).err(), Some("wte.weight was not found".to_string()));
}

#[test]
fn the_domain_of_a_table_is_a_multiple_of_the_bits() {
    assert_eq!(Embeddings::quantised_domain(8), (-(1 << 23), (1 << 23) - 1));
    assert_eq!(Embeddings::quantised_domain(7), (-(1 << 20), (1 << 20) - 1));
    assert_eq!(Embeddings::quantised_domain(30), (-(1 << 29), (1 << 29) - 1));
    let bits: Vec<u64> = element_bits::<F>(6, 4).iter().map(|x| x.value()).collect();
    assert_eq!(bits, vec![0, 1, 1, 0]);
    let bits: Vec<u64> = element_bits::<F>(-2, 4).iter().map(|x| x.value()).collect();
    assert_eq!(bits, vec![0, 1, 1, 1]);
}

#[test]
fn a_table_is_quantised_with_its_sizes() {
    let layer = Embeddings::new(Tensor::new(shape(&[2, 3]), vec![0.5f32; 6]).unwrap()).unwrap();
    let quantised = layer.quantize_op(Tensor::new(shape(&[2, 3]), vec![1, 2, 3, 4, 5, 6]).unwrap());
    assert_eq!((quantised.vocab_size, quantised.emb_size), (2, 3));
    let input = Tensor::new(shape(&[1]), vec![1]).unwrap();
    assert_eq!(quantised.evaluate(&vec![input]).unwrap().data, vec![4, 5, 6]);
}
