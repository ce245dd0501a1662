//! Positions of tokens: added rows and rotations, proved and verified.
use zkml::claim::{Claim, SubClaim};
use zkml::error::Error;
use zkml::expression::Expression;
use zkml::field::PrimeField;
use zkml::goldilocks::Goldilocks;
use zkml::mle::{compute_betas_eval, mle_evaluate};
use zkml::padding::PaddingMode;
use zkml::positional::absolute::{absolute_expression, Absolute, AbsoluteProof};
use zkml::positional::binding::{bind_sub_claim_to_positional_matrix, build_positional_matrix_claim, missing_coordinates};
use zkml::positional::learned::Positional as LearnedPositional;
use zkml::positional::learned::PositionalProof as LearnedProof;
use zkml::positional::learned::SinglePositionalProof;
use zkml::positional::rope::layout::RopeLayout;
use zkml::positional::rope::prove::{rope_expression, RopeProof};
use zkml::positional::rope::{num_angles, Rope};
use zkml::positional::{LoadedPositional, Positional, PositionalCache, PositionalCtx, PositionalProof, PositionalVariant, Positioned};
use zkml::shape::Shape;
use zkml::tensor::{Element, KeyedTensor, Tensor};

type F = Goldilocks;

struct Random(u64);

impl Random {
    fn next(&mut self) -> u64 {
        self.0 = self.0.wrapping_add(0x9E37_79B9_7F4A_7C15);
        let mut z = self.0;
        z = (z ^ (z >> 30)).wrapping_mul(0xBF58_476D_1CE4_E5B9);
        z = (z ^ (z >> 27)).wrapping_mul(0x94D0_49BB_1331_11EB);
        z ^ (z >> 31)
    }

    fn element(&mut self) -> Element {
        (self.next() % 255) as Element - 127
    }

    fn elements(&mut self, n: usize) -> Vec<Element> {
        (0..n).map(|_| self.element()).collect()
    }

    fn field(&mut self) -> F {
        F::new(self.next())
    }

    fn point(&mut self, n: usize) -> Vec<F> {
        (0..n).map(|_| self.field()).collect()
    }
}

fn shape(dims: &[usize]) -> Shape {
    Shape::new(dims.to_vec())
}

fn to_field(t: &Tensor<Element>) -> Tensor<F> {
    Tensor {
        data: t.data.iter().map(|x| F::from_i64(*x)).collect(),
        shape: t.shape.clone(),
        unpadded_shape: t.unpadded_shape.clone(),
    }
}

fn value(e: &Expression<F>, w: &[F], c: &[F]) -> F {
    match e {
        Expression::WitIn(i) => w[*i],
        Expression::Challenge(i) => c[*i],
        Expression::Constant(k) => *k,
        Expression::Sum(a, b) => value(a, w, c).plus(value(b, w, c)),
        Expression::Difference(a, b) => value(a, w, c).minus(value(b, w, c)),
        Expression::Product(a, b) => value(a, w, c).times(value(b, w, c)),
    }
}

fn keyed(key: &str, dims: &[usize], rng: &mut Random) -> KeyedTensor<Element> {
    let n: usize = dims.iter().product();
    KeyedTensor::new(key.to_string(), Tensor::new(shape(dims), rng.elements(n)).unwrap())
}

fn field_of(data: &[Element]) -> Vec<F> {
    data.iter().map(|x| F::from_i64(*x)).collect()
}

fn vars_of(dims: &[usize]) -> usize {
    dims.iter().map(|d| d.next_power_of_two().trailing_zeros() as usize).sum()
}

fn check_padded(padded: &Tensor<Element>, original: &Tensor<Element>) {
    let (rows, cols) = (padded.shape.dims[0], padded.shape.dims[1]);
    let (r, c) = (original.shape.dims[0], original.shape.dims[1]);
    assert_eq!(padded.shape, original.shape.next_power_of_two());
    for i in 0..rows {
        for j in 0..cols {
            let expected = if i < r && j < c { original.data[i * c + j] } else { 0 };
            assert_eq!(padded.data[i * cols + j], expected);
        }
    }
}

#[test]
fn positional_test_positional_padding() {
    let mut rng = Random(1);
    let (context_length, embedding_size) = (17usize, 45usize);
    let matrix = keyed("m", &[context_length, embedding_size], &mut rng).tensor;
    let pos = LearnedPositional::new_learned(matrix.duplicate());
    let LearnedPositional::Learned(padded) = pos.pad_node() else { unreachable!() };
    assert_eq!(padded.unpadded_shape, matrix.shape);
    check_padded(&padded.positional, &matrix);
}

#[test]
fn mod_test_positional_padding() {
    let mut rng = Random(2);
    let (context_length, embedding_size) = (17usize, 45usize);
    let matrix = keyed("absolute_positional_mat", &[context_length, embedding_size], &mut rng);
    let original = matrix.tensor.duplicate();
    let pos = Positional::new_absolute(matrix);
    let PositionalVariant::Absolute(padded) = pos.pad_node().variant else { unreachable!() };
    assert_eq!(padded.unpadded_shape, original.shape);
    assert_eq!(padded.positional.key, "absolute_positional_mat");
    check_padded(&padded.positional.tensor, &original);
}

#[test]
fn test_proven_positional_layer() {
    let mut rng = Random(3);
    for (seq_len, embedding_size, context_length) in [(14usize, 17usize, 31usize), (31, 17, 31)] {
        let matrix = keyed("m", &[context_length, embedding_size], &mut rng).tensor;
        let mut layer = LearnedPositional::new_learned(matrix).pad_node();
        let (context, committed) = layer.step_info(5);
        let committed = field_of(&committed);
        let input = Tensor::new(shape(&[seq_len, embedding_size]), rng.elements(seq_len * embedding_size))
            .unwrap()
            .pad_next_power_of_two(0);
        let rows = input.shape.dims[0];
        let inputs = vec![input];
        let added = layer.evaluate(&inputs, seq_len).unwrap();
        assert_eq!(added.shape, inputs[0].shape);
        // The addition leaves a claim on the input and one on the rows.
        let point = rng.point(vars_of(&inputs[0].shape.dims));
        let on_input = Claim::new(point.clone(), mle_evaluate(&to_field(&inputs[0]).data, &point));
        let on_rows = Claim::new(point.clone(), mle_evaluate(&to_field(&added).data, &point));
        let missing = missing_coordinates(context.num_vars_positional_matrix, point.len()).unwrap();
        let extra = rng.point(missing);
        let LearnedPositional::Learned(learned) = &layer else { unreachable!() };
        let add_claims = vec![vec![on_input, on_rows]];
        let drawn = vec![extra];
        let mut steps = learned.prove(1, &vec![rows], &add_claims, &drawn).unwrap();
        let step = steps.remove(0);
        assert_eq!(step.positional_claim.eval, mle_evaluate(&committed, &step.positional_claim.point));
        let proof = LearnedProof {
            proofs: vec![SinglePositionalProof { sub_matrix_evals: step.sub_matrix_evals, add_proof: () }],
        };
        let (on_inputs, on_matrix) =
            context.verify(&proof, 1, (1, 1), (1, 1), &add_claims, &drawn).unwrap();
        assert_eq!(on_inputs[0].eval, step.input_claim.eval);
        assert_eq!(on_matrix[0].point, step.positional_claim.point);
        assert_eq!(on_matrix[0].eval, step.positional_claim.eval);
        let refused = context.verify(&proof, 1, (2, 1), (1, 1), &add_claims, &drawn);
        assert_eq!(refused.err(), Some(Error::WrongNumberOfOutputs));
        let refused = context.verify(&proof, 1, (1, 1), (1, 0), &add_claims, &drawn);
        assert_eq!(refused.err(), Some(Error::WrongNumberOfInputs));
        let refused = learned.prove(2, &vec![rows], &add_claims, &drawn);
        assert_eq!(refused.err(), Some(Error::WrongNumberOfClaims));
        let short = vec![vec![Claim::new(point.clone(), F::one())]];
        let refused = learned.prove(1, &vec![rows], &short, &drawn);
        assert_eq!(refused.err(), Some(Error::WrongNumberOfClaims));
    }
}

#[test]
fn test_proven_absolute_positional_layer() {
    let mut rng = Random(4);
    for (seq_len, embedding_size, context_length) in [(14usize, 17usize, 31usize), (31, 17, 31)] {
        let layer = Absolute::new(keyed("m", &[context_length, embedding_size], &mut rng)).pad_node();
        let (context, (key, committed)) = layer.step_info(6);
        assert_eq!(key, "m");
        let committed = field_of(&committed);
        let input = Tensor::new(shape(&[seq_len, embedding_size]), rng.elements(seq_len * embedding_size))
            .unwrap();
        let unpadded = input.shape.clone();
        let input = input.pad_next_power_of_two(0);
        let mut seen = PositionalCache::new();
        let added = layer.added_rows(&input, &mut seen).unwrap();
        assert_eq!(seen.seq_len, seq_len);
        assert_eq!(added.shape, input.shape);
        assert_eq!(layer.masked_rows(&input).data, added.data);
        let row_vars = vars_of(&[embedding_size]);
        let point = rng.point(vars_of(&input.shape.dims));
        let on_input = Claim::new(point.clone(), mle_evaluate(&to_field(&input).data, &point));
        let on_rows = Claim::new(point.clone(), mle_evaluate(&to_field(&added).data, &point));
        let start = on_rows.eval;
        let claims = vec![on_input, on_rows];
        let sumcheck = layer.prove_step(&claims, &input).unwrap();
        let tables = [&sumcheck.fixed_positional, &sumcheck.lt, &sumcheck.column_eq];
        let expression = absolute_expression::<F>();
        let mut all = F::zero();
        for x in 0..tables[0].len() {
            let w: Vec<F> = tables.iter().map(|t| t[x]).collect();
            all = all.plus(value(&expression, &w, &[]));
        }
        assert_eq!(all, start);
        let end = rng.point(point.len() - row_vars);
        let ends: Vec<F> = tables.iter().map(|t| mle_evaluate(t, &end)).collect();
        let expected = value(&expression, &ends, &[]);
        let extra = rng.point(layer.num_vars() - point.len());
        let (proof, on_matrix) = layer
            .finish_proof(&claims[1], &input.shape, (), (), &end, &ends, &extra)
            .unwrap();
        assert_eq!(on_matrix.eval, mle_evaluate(&committed, &on_matrix.point));
        let subclaim = SubClaim { point: end, expected_evaluation: expected };
        let input_eval = claims[0].eval;
        let (a, b) = context
            .verify(&proof, claims, &subclaim, &input.shape, &unpadded, &extra)
            .unwrap();
        assert_eq!(a.eval, input_eval);
        assert_eq!(b.point, on_matrix.point);
        assert_eq!(b.eval, on_matrix.eval);
        let none: Vec<Claim<F>> = Vec::new();
        let refused = context.verify(&proof, none, &subclaim, &input.shape, &unpadded, &extra);
        assert_eq!(refused.err(), Some(Error::WrongNumberOfClaims));
        let none: Vec<Claim<F>> = Vec::new();
        assert_eq!(layer.prove_step(&none, &input).err(), Some(Error::WrongNumberOfClaims));
    }
}

fn random_rope(rng: &mut Random, angles: usize, length: usize, layout: RopeLayout) -> Rope<Element> {
    let cosines = rng.elements(length * angles);
    let sines = rng.elements(length * angles);
    Rope::build_from_values(
        &cosines,
        &sines,
        "rope_cosine".to_string(),
        "rope_sine".to_string(),
        angles,
        length,
        layout,
    )
}

#[test]
fn test_rope_quantized() {
    let mut rng = Random(5);
    for layout in [RopeLayout::Adjacent, RopeLayout::RotateHalf] {
        let (seq_len, size, length) = (5usize, 8usize, 9usize);
        let angles = size / 2;
        let cosines = rng.elements(length * angles);
        let sines = rng.elements(length * angles);
        let mut rope = Rope::build_from_values(
            &cosines,
            &sines,
            "c".to_string(),
            "s".to_string(),
            angles,
            length,
            layout,
        );
        let data = rng.elements(seq_len * size);
        let input = Tensor::new(shape(&[seq_len, size]), data.clone()).unwrap();
        let mut seen = PositionalCache::new();
        let out = rope.evaluate(&input, &mut seen).unwrap();
        assert_eq!(out.shape.dims, vec![seq_len, size]);
        for row in 0..seq_len {
            for k in 0..angles {
                let (cos, sin) = (cosines[row * angles + k], sines[row * angles + k]);
                let (p1, p2) = match layout {
                    RopeLayout::Adjacent => (2 * k, 2 * k + 1),
                    RopeLayout::RotateHalf => (k, size / 2 + k),
                };
                let (x1, x2) = (data[row * size + p1], data[row * size + p2]);
                assert_eq!(out.data[row * size + p1], x1 * cos - x2 * sin);
                assert_eq!(out.data[row * size + p2], x2 * cos + x1 * sin);
            }
        }
    }
}

#[test]
fn test_padded_evaluation_consistency() {
    let mut rng = Random(6);
    for (layout, hidden_size) in [(RopeLayout::Adjacent, 18usize), (RopeLayout::RotateHalf, 32)] {
        let (seq_len, num_heads, length) = (12usize, 14usize, 27usize);
        let cosines = rng.elements(length * hidden_size / 2);
        let sines = rng.elements(length * hidden_size / 2);
        let build = || {
            let rope = Rope::build_from_values(
                &cosines,
                &sines,
                "c".to_string(),
                "s".to_string(),
                hidden_size / 2,
                length,
                layout,
            );
            Positional::new_from_variant(PositionalVariant::Rope(rope))
        };
        let input_shape = shape(&[num_heads, seq_len, hidden_size]);
        let input = Tensor::new(
            input_shape.clone(),
            rng.elements(num_heads * seq_len * hidden_size),
        )
        .unwrap();
        let padded_input = input.pad_next_power_of_two(0);
        let mut layer = build();
        let shapes = layer.output_shapes(&vec![input_shape.clone()], PaddingMode::NoPadding);
        let Positioned::Output(output) = layer.evaluate(&vec![input]).unwrap() else { unreachable!() };
        assert_eq!(output.shape, shapes[0]);
        let mut padded_layer = build().pad_node();
        let Positioned::Output(padded) = padded_layer.evaluate(&vec![padded_input]).unwrap() else {
            unreachable!()
        };
        assert_eq!(padded.shape, input_shape.next_power_of_two());
        let (d, p) = (&output.shape.dims, &padded.shape.dims);
        for i in 0..d[0] {
            for j in 0..d[1] {
                for k in 0..d[2] {
                    assert_eq!(
                        output.data[(i * d[1] + j) * d[2] + k],
                        padded.data[(i * p[1] + j) * p[2] + k]
                    );
                }
            }
        }
    }
}

#[test]
fn test_proven_rope_positional_layer() {
    let mut rng = Random(7);
    for (heads, seq_len, size, length, layout) in [
        (0usize, 14usize, 16usize, 31usize, RopeLayout::Adjacent),
        (0, 14, 16, 31, RopeLayout::RotateHalf),
        (0, 31, 16, 31, RopeLayout::Adjacent),
        (0, 31, 16, 31, RopeLayout::RotateHalf),
        (3, 14, 16, 31, RopeLayout::Adjacent),
        (3, 14, 16, 31, RopeLayout::RotateHalf),
    ] {
        let mut rope = random_rope(&mut rng, size / 2, length, layout).pad_node();
        let (context, polys) = rope.step_info(8);
        let dims = if heads == 0 { vec![seq_len, size] } else { vec![heads, seq_len, size] };
        let count: usize = dims.iter().product();
        let input = Tensor::new(shape(&dims), rng.elements(count)).unwrap();
        let unpadded = input.shape.clone();
        let input = input.pad_next_power_of_two(0);
        let output = rope.evaluate(&input, &mut PositionalCache::new()).unwrap();
        assert_eq!(output.shape, input.shape);
        let point = rng.point(vars_of(&input.shape.dims));
        let claim = Claim::new(point.clone(), mle_evaluate(&to_field(&output).data, &point));
        let sumcheck = rope.prove_step(&claim, &input).unwrap();
        let tables = [
            &sumcheck.input,
            &sumcheck.cosine,
            &sumcheck.sine,
            &sumcheck.eq,
            &sumcheck.permuted_eq,
            &sumcheck.lt,
        ];
        let expression = rope_expression::<F>();
        let mut all = F::zero();
        for x in 0..tables[0].len() {
            let w: Vec<F> = tables.iter().map(|t| t[x]).collect();
            all = all.plus(value(&expression, &w, &[]));
        }
        assert_eq!(all, claim.eval);
        let matrix_vars = vars_of(&[seq_len, size]);
        let end = rng.point(matrix_vars);
        let ends: Vec<F> = tables.iter().map(|t| mle_evaluate(t, &end)).collect();
        let expected = value(&expression, &ends, &[]);
        let more = vars_of(&[length, size]) - matrix_vars;
        let (extra_cosine, extra_sine) = (rng.point(more), rng.point(more));
        let (proof, on_input, on_cosine, on_sine) = rope
            .finish_proof(&claim, &input.shape, (), &end, &ends, &extra_cosine, &extra_sine)
            .unwrap();
        assert_eq!(on_input.eval, mle_evaluate(&to_field(&input).data, &on_input.point));
        assert_eq!(on_cosine.eval, mle_evaluate(&field_of(&polys[0].1), &on_cosine.point));
        assert_eq!(on_sine.eval, mle_evaluate(&field_of(&polys[1].1), &on_sine.point));
        let mut subclaim = SubClaim { point: end, expected_evaluation: expected };
        let (a, b, c) = context
            .verify(&proof, &claim, &subclaim, &input.shape, &unpadded, &extra_cosine, &extra_sine)
            .unwrap();
        assert_eq!((a.point, a.eval), (on_input.point, on_input.eval));
        assert_eq!((b.point, b.eval), (on_cosine.point, on_cosine.eval));
        assert_eq!((c.point, c.eval), (on_sine.point, on_sine.eval));
        subclaim.expected_evaluation = expected.plus(F::one());
        let refused = context.verify(
            &proof,
            &claim,
            &subclaim,
            &input.shape,
            &unpadded,
            &extra_cosine,
            &extra_sine,
        );
        assert_eq!(refused.err(), Some(Error::EvaluationMismatch));
        let short = Claim::new(vec![F::one()], F::one());
        assert_eq!(rope.prove_step(&short, &input).err(), Some(Error::WrongPointLength));
    }
}

#[test]
fn positions_go_on_from_the_tokens_seen() {
    let mut rng = Random(8);
    let matrix = keyed("m", &[6, 3], &mut rng);
    let rows = matrix.tensor.data.clone();
    let mut layer = Positional::new_absolute(matrix);
    let first = Tensor::new(shape(&[2, 3]), rng.elements(6)).unwrap();
    let Positioned::ToAdd(t) = layer.evaluate(&vec![first]).unwrap() else { unreachable!() };
    assert_eq!(t.data, rows[..6]);
    let token = Tensor::new(shape(&[1, 3]), rng.elements(3)).unwrap();
    let Positioned::ToAdd(t) = layer.evaluate(&vec![token]).unwrap() else { unreachable!() };
    assert_eq!(t.data, rows[6..9]);
    let two = Tensor::new(shape(&[2, 3]), rng.elements(6)).unwrap();
    assert_eq!(layer.evaluate(&vec![two]).err(), Some(Error::WrongSequenceLength));
    layer.reset_cache();
    let two = Tensor::new(shape(&[2, 3]), rng.elements(6)).unwrap();
    assert!(layer.evaluate(&vec![two]).is_ok());
    assert_eq!(layer.evaluate(&vec![]).err(), Some(Error::WrongNumberOfInputs));
    let cube = Tensor::new(shape(&[1, 1, 3]), rng.elements(3)).unwrap();
    assert_eq!(layer.evaluate(&vec![cube]).err(), Some(Error::InvalidShape));
    let mut free = layer.with_no_cache();
    for _ in 0..2 {
        let two = Tensor::new(shape(&[2, 3]), rng.elements(6)).unwrap();
        let Positioned::ToAdd(t) = free.evaluate(&vec![two]).unwrap() else { unreachable!() };
        assert_eq!(t.data, rows[..6]);
    }
}

#[test]
fn rotations_are_concatenated() {
    let mut rng = Random(9);
    let rope = random_rope(&mut rng, 2, 4, RopeLayout::Adjacent);
    let mut plain = random_rope(&mut Random(9), 2, 4, RopeLayout::Adjacent);
    let mut cached = rope.with_concatenation_cache(2, 0).unwrap();
    let (mut seen, mut also_seen) = (PositionalCache::new(), PositionalCache::new());
    let mut expected = Vec::new();
    for n in [2usize, 1] {
        let data = rng.elements(n * 4);
        let input = Tensor::new(shape(&[n, 4]), data).unwrap();
        let shapes = cached.output_shapes(&vec![input.shape.clone()], PaddingMode::NoPadding).unwrap();
        expected.extend(plain.evaluate(&input, &mut also_seen).unwrap().data);
        let out = cached.evaluate(&input, &mut seen).unwrap();
        assert_eq!(out.data, expected);
        assert_eq!(out.shape, shapes[0]);
    }
    assert_eq!(seen.seq_len, 3);
    cached.reset_cache();
    let mut free = cached.with_no_cache();
    let input = Tensor::new(shape(&[1, 4]), rng.elements(4)).unwrap();
    assert_eq!(free.evaluate(&input, &mut PositionalCache::new()).unwrap().data.len(), 4);
    let line = Tensor::new(shape(&[4]), rng.elements(4)).unwrap();
    assert_eq!(
        free.evaluate(&line, &mut PositionalCache::new()).err(),
        Some(Error::InvalidShape)
    );
}

#[test]
fn matrices_that_do_not_fit_are_refused() {
    let mut rng = Random(10);
    let refused = Positional::new_rope_from_matrices(
        keyed("c", &[3, 4], &mut rng),
        keyed("s", &[3, 2], &mut rng),
        RopeLayout::Adjacent,
    );
    assert_eq!(refused.err(), Some(Error::InvalidShape));
    let refused = Positional::new_rope_from_matrices(
        keyed("c", &[3, 6], &mut rng),
        keyed("s", &[3, 6], &mut rng),
        RopeLayout::RotateHalf,
    );
    assert_eq!(refused.err(), Some(Error::InvalidShape));
    let rope = Positional::new_rope_from_matrices(
        keyed("c", &[3, 6], &mut rng),
        keyed("s", &[3, 6], &mut rng),
        RopeLayout::Adjacent,
    )
    .unwrap();
    assert_eq!(rope.shape().dims, vec![3, 6]);
    assert_eq!(num_angles(6, RopeLayout::Adjacent), Ok(3));
    assert_eq!(num_angles(6, RopeLayout::RotateHalf), Err(Error::InvalidShape));
    assert_eq!(num_angles(8, RopeLayout::RotateHalf), Ok(4));
    let none: Option<KeyedTensor<Element>> = None;
    assert_eq!(Positional::from_json(none, 3, 4).err(), Some(Error::MissingTensor));
    let matrix = Some(keyed("m", &[3, 4], &mut rng));
    assert_eq!(Positional::from_json(matrix, 4, 3).err(), Some(Error::InvalidShape));
    let matrix = Some(keyed("m", &[3, 4], &mut rng));
    assert_eq!(Positional::from_json(matrix, 3, 4).unwrap().shape().dims, vec![3, 4]);
}

#[test]
fn layers_are_made_of_what_a_file_holds() {
    let mut rng = Random(12);
    let matrix = |rng: &mut Random| LoadedPositional::Absolute(Some(keyed("m", &[3, 4], rng)));
    let layer = Positional::from_loader(matrix(&mut rng), 3, 4).unwrap();
    assert_eq!(layer.shape().dims, vec![3, 4]);
    assert_eq!(Positional::from_loader(matrix(&mut rng), 4, 4).err(), Some(Error::InvalidShape));
    assert_eq!(Positional::from_loader(matrix(&mut rng), 3, 3).err(), Some(Error::InvalidShape));
    let none: LoadedPositional<Element> = LoadedPositional::Absolute(None);
    assert_eq!(Positional::from_loader(none, 3, 4).err(), Some(Error::MissingTensor));
    // The rotation of a head of four values, for two heads.
    let rope = random_rope(&mut rng, 2, 3, RopeLayout::Adjacent);
    assert_eq!(rope.unpadded_shape.dims, vec![3, 4]);
    let wide = keyed("w", &[3, 8], &mut rng).tensor;
    let loaded = LoadedPositional::Rope {
        rope: Some(rope),
        cosine: wide.duplicate(),
        sine: wide.duplicate(),
        num_heads: 2,
    };
    let layer = Positional::from_loader(loaded, 3, 8).unwrap();
    match layer.variant {
        PositionalVariant::Rope(rope) => {
            assert_eq!(rope.unpadded_shape.dims, vec![3, 8]);
            assert_eq!(rope.cosine_matrix.key, "rope_cosine");
            assert_eq!(rope.cosine_matrix.tensor, wide);
            assert_eq!(rope.sine_matrix.tensor, wide);
        }
        PositionalVariant::Absolute(_) => panic!("the layer does not rotate"),
    }
    let lost = LoadedPositional::Rope {
        rope: None,
        cosine: wide.duplicate(),
        sine: wide.duplicate(),
        num_heads: 2,
    };
    assert_eq!(Positional::<Element>::from_loader(lost, 3, 8).err(), Some(Error::MissingTensor));
    assert_eq!(missing_coordinates(7, 5), Ok(2));
    assert_eq!(missing_coordinates(4, 5), Err(Error::InvalidShape));
}

#[test]
fn parts_of_a_matrix_are_joined() {
    // The evaluation of a matrix of four parts, from those of its parts.
    let mut rng = Random(11);
    let matrix = keyed("m", &[8, 2], &mut rng).tensor;
    let table = field_of(&matrix.data);
    let point = rng.point(2);
    let extra = rng.point(2);
    let first = Claim::new(point.clone(), mle_evaluate(&table[..4], &point));
    let (evals, claim) = bind_sub_claim_to_positional_matrix(&first, &extra, &matrix, 2).unwrap();
    assert_eq!(evals.len(), 2);
    let mut full = point.clone();
    full.extend(extra.iter().copied());
    assert_eq!(claim.point, full);
    assert_eq!(claim.eval, mle_evaluate(&table, &full));
    assert_eq!(evals[0], mle_evaluate(&table[4..8], &point));
    let again = build_positional_matrix_claim(&first, &extra, &evals);
    assert_eq!(again.eval, claim.eval);
}

#[test]
fn rows_are_turned_in_pairs() {
    let input = Tensor::new(shape(&[1, 4]), vec![1, 2, 3, 4]).unwrap();
    assert_eq!(RopeLayout::Adjacent.split_input(&input).data, vec![-2, 1, -4, 3]);
    assert_eq!(RopeLayout::RotateHalf.split_input(&input).data, vec![-3, -4, 1, 2]);
    let mut rng = Random(12);
    for layout in [RopeLayout::Adjacent, RopeLayout::RotateHalf] {
        let (point, end) = (rng.point(4), rng.point(4));
        let eq = compute_betas_eval(&point);
        let permuted = layout.permuted_eq_poly(&eq, 4);
        assert_eq!(
            layout.evaluate_permuted_eq_poly(&point, &end, 2),
            mle_evaluate(&permuted, &end)
        );
    }
}

#[test]
fn a_step_has_one_claim() {
    let mut rng = Random(13);
    let layer = Absolute::new(keyed("m", &[4, 4], &mut rng));
    let (context, _) = layer.step_info(3);
    let context = PositionalCtx::Absolute(context);
    assert_eq!(context.unpadded_shape().dims, vec![4, 4]);
    let one = || vec![shape(&[4, 4])];
    let proof: PositionalProof<F, (), ()> = PositionalProof::Absolute(AbsoluteProof {
        sub_matrix_evals: vec![],
        add_proof: (),
        sumcheck_proof: (),
    });
    assert_eq!(context.check_step(&proof, 1, &one(), &one(), &one(), &one()), Ok(()));
    assert_eq!(
        context.check_step(&proof, 1, &vec![], &one(), &one(), &one()),
        Err(Error::WrongNumberOfOutputs)
    );
    assert_eq!(
        context.check_step(&proof, 1, &one(), &one(), &one(), &vec![]),
        Err(Error::WrongNumberOfInputs)
    );
    assert_eq!(
        context.check_step(&proof, 0, &vec![], &vec![], &vec![], &vec![]),
        Err(Error::WrongNumberOfClaims)
    );
    let proof: PositionalProof<F, (), ()> = PositionalProof::Rope(RopeProof {
        sub_cosine_evals: vec![],
        sub_sine_evals: vec![],
        sumcheck_proof: (),
        sumcheck_evals: vec![],
    });
    assert_eq!(
        context.check_step(&proof, 1, &one(), &one(), &one(), &one()),
        Err(Error::UnexpectedProof)
    );
}

#[test]
fn layers_are_quantised_by_their_scales() {
    let mut rng = Random(14);
    let rope = random_rope(&mut rng, 2, 4, RopeLayout::Adjacent);
    let (c, s) = (keyed("c", &[4, 4], &mut rng), keyed("s", &[4, 4], &mut rng));
    let (rope, bits) = rope.quantize(1, c, s, 8).unwrap();
    assert_eq!(bits, 17);
    assert_eq!(rope.cosine_matrix.key, "c");
    let (c, s) = (keyed("c", &[4, 4], &mut rng), keyed("s", &[4, 4], &mut rng));
    assert_eq!(rope.quantize(2, c, s, 8).err(), Some(Error::InvalidScaling));
    let absolute = Absolute::new(keyed("m", &[4, 4], &mut rng));
    let quantised = absolute.quantize(1, 1, keyed("m", &[4, 4], &mut rng)).unwrap();
    assert_eq!(quantised.unpadded_shape.dims, vec![4, 4]);
    let matrix = keyed("m", &[4, 4], &mut rng);
    assert_eq!(quantised.quantize(1, 2, matrix).err(), Some(Error::WrongNumberOfOutputs));
    let layer = Positional::new_absolute(keyed("m", &[4, 4], &mut rng));
    let variant = PositionalVariant::Absolute(Absolute::new(keyed("q", &[4, 4], &mut rng)));
    let layer = layer.quantize_op(1, variant).unwrap();
    assert_eq!(layer.cache, Some(PositionalCache::new()));
    let variant = PositionalVariant::Absolute(Absolute::new(keyed("q", &[4, 4], &mut rng)));
    assert_eq!(layer.quantize_op(0, variant).err(), Some(Error::InvalidScaling));
    let learned = LearnedPositional::new_learned(keyed("m", &[4, 4], &mut rng).tensor);
    let matrix = keyed("m", &[4, 4], &mut rng).tensor;
    assert!(learned.quantize_op(1, matrix).is_ok());
    let none: Option<Tensor<Element>> = None;
    assert_eq!(LearnedPositional::from_json(none, 4, 4).err(), Some(Error::MissingTensor));
    let matrix = keyed("m", &[4, 4], &mut rng).tensor;
    let refused = LearnedPositional::from_loader(false, Some(matrix), 4, 4);
    assert_eq!(refused.err(), Some(Error::NotSupported));
}
