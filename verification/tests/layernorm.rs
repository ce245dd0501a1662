//! Rows normalised by looked up inverse roots: evaluation, proving and verifying.
use zkml::claim::{Claim, SubClaim};
use zkml::error::Error;
use zkml::expression::Expression;
use zkml::field::PrimeField;
use zkml::goldilocks::Goldilocks;
use zkml::layernorm::prove::{LayerNormCtx, LayerNormProof};
use zkml::layernorm::verify::LayerNormEnds;
use zkml::layernorm::{looked_up_bound, new_shift, range_checked_bits, LayerNorm, LayerNormData, LAYERNORM_OUTPUT_SCALE_FACTOR, LAYERNORM_SCALE_FACTOR, LOG_LAYERNORM_SCALE_FACTOR};
use zkml::mle::mle_evaluate;
use zkml::shape::Shape;
use zkml::tensor::{Element, KeyedTensor, Tensor};

type F = Goldilocks;

struct Random(u64);

impl Random {
    fn next(&mut self) -> u64 {
        self.0 = self.0.wrapping_add(0x9E37_79B9_7F4A_7C15);
        let mut z = self.0;
        z = (z ^ (z >> 30)).wrapping_mul(0xBF58_476D_1CE4_E5B9);
        z = (z ^ (z >> 27)).wrapping_mul(0x94D0_49BB_1331_11EB);
        z ^ (z >> 31)
    }

    fn element(&mut self) -> Element {
        (self.next() % 255) as Element - 127
    }

    fn elements(&mut self, n: usize) -> Vec<Element> {
        (0..n).map(|_| self.element()).collect()
    }

    fn field(&mut self) -> F {
        F::new(self.next())
    }

    fn point(&mut self, n: usize) -> Vec<F> {
        (0..n).map(|_| self.field()).collect()
    }
}

fn shape(dims: &[usize]) -> Shape {
    Shape::new(dims.to_vec())
}

fn to_field(t: &Tensor<Element>) -> Tensor<F> {
    Tensor {
        data: t.data.iter().map(|x| F::from_i64(*x)).collect(),
        shape: t.shape.clone(),
        unpadded_shape: t.unpadded_shape.clone(),
    }
}

fn value(e: &Expression<F>, w: &[F], c: &[F]) -> F {
    match e {
        Expression::WitIn(i) => w[*i],
        Expression::Challenge(i) => c[*i],
        Expression::Constant(k) => *k,
        Expression::Sum(a, b) => value(a, w, c).plus(value(b, w, c)),
        Expression::Difference(a, b) => value(a, w, c).minus(value(b, w, c)),
        Expression::Product(a, b) => value(a, w, c).times(value(b, w, c)),
    }
}

const BIT_LEN: usize = 8;

fn vector(key: &str, data: Vec<Element>) -> KeyedTensor<Element> {
    let n = data.len();
    KeyedTensor::new(key.to_string(), Tensor::new(shape(&[n]), data).unwrap())
}

fn quantised_layer(gamma: Vec<Element>, beta: Vec<Element>, multiplier: Element) -> LayerNorm<Element> {
    let bias_max = beta.iter().copied().max().unwrap();
    let plain = LayerNorm::new(vector("gamma", gamma.clone()), vector("beta", beta.clone()));
    let (layer, _) = plain
        .quantise(
            multiplier,
            vector("gamma", gamma),
            vector("beta", beta),
            LAYERNORM_OUTPUT_SCALE_FACTOR,
            bias_max,
            BIT_LEN,
        )
        .unwrap();
    layer
}

/// The inverse root of a looked up value.
fn inverse_root(x: Element, bits: usize) -> Element {
    let y = (x << bits) as f64 / LAYERNORM_SCALE_FACTOR as f64 + 1e-5;
    (1024.0 / y.sqrt()).round() as Element
}

fn expected_rows(input: &Tensor<Element>, layer: &LayerNorm<Element>) -> (Vec<Element>, Vec<Element>, Vec<Element>) {
    let info = layer.quant_info.unwrap();
    let dim = *input.shape.dims.last().unwrap();
    let mut roots = Vec::new();
    let mut full_values = Vec::new();
    let mut output = Vec::new();
    for row in input.data.chunks(dim) {
        let squares: Element = row.iter().map(|x| x * x).sum();
        let sum: Element = row.iter().sum();
        let full = info.dim_size as Element * info.multiplier * squares - info.multiplier * sum * sum;
        let root = inverse_root(full >> info.range_check_bits, info.range_check_bits);
        for j in 0..dim {
            let centred = info.dim_size as Element * row[j] - sum;
            output.push(layer.gamma.tensor.data[j] * centred * root + layer.beta.tensor.data[j]);
        }
        roots.push(root);
        full_values.push(full);
    }
    (roots, full_values, output)
}

fn check_layer(input: Tensor<Element>, layer: &LayerNorm<Element>) {
    let info = layer.quant_info.unwrap();
    let (roots, full_values, output) = expected_rows(&input, layer);
    let inputs = vec![input];
    let found: Vec<Element> = info
        .full_values(&inputs[0])
        .iter()
        .map(|v| inverse_root(info.cleared(*v) >> info.range_check_bits, info.range_check_bits))
        .collect();
    assert_eq!(found, roots);
    let (out, data) = layer.evaluate(&inputs, found).unwrap();
    assert_eq!(out.data, output);
    assert_eq!(data.full_value, full_values);
    assert_eq!(data.lookup_output, roots);
}

#[test]
fn rows_of_zeros_stay_zero() {
    let layer = quantised_layer(vec![1; 1024], vec![0; 1024], 1);
    let input = Tensor::new(shape(&[1, 1024]), vec![0; 1024]).unwrap();
    let (out, _) = layer.evaluate(&vec![input], vec![1024]).unwrap();
    assert_eq!(out.shape.dims, vec![1, 1024]);
    assert_eq!(out.data, vec![0; 1024]);
}

#[test]
fn test_layernorm_simple() {
    let mut rng = Random(1);
    let (rows, dim) = (2usize, 5usize);
    let layer = quantised_layer(rng.elements(dim), rng.elements(dim), 3);
    let input = Tensor::new(shape(&[rows, dim]), rng.elements(rows * dim)).unwrap();
    check_layer(input, &layer);
}

#[test]
fn test_regression_layernorm_rounding() {
    let (rows, dim) = (2usize, 25usize);
    let input = Tensor::new(
        shape(&[rows, dim]),
        vec![
            0, 0, 0, 0, 0, 0, 0, 0, 0, 0, 0, 0, 0, 0, 0, 0, 0, 0, 0, 0, 0, 0, 0, 0, 0, 10, 69, -126,
            -128, 105, -111, -47, 89, -113, 9, -64, 42, -111, 54, 104, 62, 127, 12, 84, 7, -54, -80,
            0, -122, -41,
        ],
    )
    .unwrap();
    let layer = quantised_layer(vec![0; dim], vec![0; dim], 3);
    check_layer(input, &layer);
}

#[test]
fn test_quantise_layernorm() {
    // The quantised layer is close to the layer on floats.
    let mut rng = Random(2);
    let (rows, dim) = (2usize, 100usize);
    let scale = 1.0f64 / 127.0;
    let q = rng.elements(rows * dim);
    let gamma = rng.elements(dim);
    let beta = vec![0; dim];
    // (x - mean) / std = (n x - sum) / sqrt(n squares - sum^2), at the scale of the values.
    let multiplier = 64;
    let layer = quantised_layer(gamma.clone(), beta, multiplier);
    let info = layer.quant_info.unwrap();
    let input = Tensor::new(shape(&[rows, dim]), q.clone()).unwrap();
    let roots: Vec<f64> = info
        .full_values(&input)
        .iter()
        .map(|v| 1.0 / (info.cleared(*v) as f64 / multiplier as f64).sqrt())
        .collect();
    let fixed: Vec<Element> = roots.iter().map(|r| (r * (1u64 << 24) as f64).round() as Element).collect();
    let (out, _) = layer.evaluate(&vec![input], fixed).unwrap();
    for i in 0..rows {
        let row: Vec<f64> = q[i * dim..(i + 1) * dim].iter().map(|x| *x as f64 * scale).collect();
        let mean = row.iter().sum::<f64>() / dim as f64;
        let variance = row.iter().map(|x| (x - mean) * (x - mean)).sum::<f64>() / dim as f64;
        for j in 0..dim {
            let expected = (row[j] - mean) / (variance + 1e-5).sqrt() * gamma[j] as f64 * scale;
            let found = out.data[i * dim + j] as f64 / (1u64 << 24) as f64 * scale;
            assert!((expected - found).abs() <= 5e-2 + 1e-1 * expected.abs());
        }
    }
}

#[test]
fn layernorm_test_layernorm_proving() {
    let mut rng = Random(3);
    let (rows, dim, multiplier) = (15usize, 100usize, 3);
    let layer = quantised_layer(rng.elements(dim), rng.elements(dim), multiplier).pad_node();
    let input = Tensor::new(shape(&[rows, dim]), rng.elements(rows * dim))
        .unwrap()
        .pad_next_power_of_two(0);
    let (context, polys, _) = layer.step_info::<F>(7, &vec![input.shape.clone()], 0, BIT_LEN).unwrap();
    let info = layer.quant_info.unwrap();
    assert_eq!(info.range_check_bits, 17);
    assert_eq!(range_checked_bits(dim, multiplier, BIT_LEN), 17);
    assert_eq!(looked_up_bound(BIT_LEN), 1 << (2 * (BIT_LEN - 1)));
    assert_eq!(info.top_chunk_scalar_log, 7);
    let roots: Vec<Element> = info
        .full_values(&input)
        .iter()
        .map(|v| inverse_root(v >> info.range_check_bits, info.range_check_bits))
        .collect();
    let inputs = vec![input];
    let (output, data) = layer.evaluate(&inputs, roots).unwrap();
    // What is looked up and range checked.
    let witness = layer.lookup_witness(&data, BIT_LEN, 1 << 32).unwrap();
    assert_eq!(witness.range_checks.len(), context.num_range_checks);
    let mut count = std::collections::HashMap::new();
    for column in &witness.range_checks {
        for x in column {
            assert!(*x >= 0 && *x < 1 << BIT_LEN);
            *count.entry(*x).or_insert(0u64) += 1;
        }
    }
    assert_eq!(count, witness.range_elements_count);
    let field = |v: &[Element]| -> Vec<F> { v.iter().map(|x| F::from_i64(*x)).collect() };
    let mut columns: Vec<Vec<F>> = witness.range_checks.iter().map(|c| field(c)).collect();
    columns.push(field(&witness.lookup_input));
    columns.push(field(&data.lookup_output));
    let (row_vars, col_vars) = (4usize, 7usize);
    let lookup_point = rng.point(row_vars);
    let poly_evals: Vec<F> = columns.iter().map(|c| mle_evaluate(c, &lookup_point)).collect();
    let out_point = rng.point(row_vars + col_vars);
    let claim = Claim::new(out_point.clone(), mle_evaluate(&to_field(&output).data, &out_point));
    let alpha = rng.field();
    let start = context.claimed_sum(&poly_evals, alpha, &claim, BIT_LEN);
    let claims = vec![claim];
    let s = layer.prove(&claims, &inputs, &data.lookup_output, &lookup_point).unwrap();
    let tables = [&s.input, &s.mean, &s.inv_sqrt, &s.gamma, &s.beta, &s.input_eq, &s.last_claim_eq];
    let mut all = F::zero();
    for x in 0..tables[0].len() {
        let w: Vec<F> = tables.iter().map(|t| t[x]).collect();
        all = all.plus(value(&context.first_sumcheck_expression, &w, &[alpha]));
    }
    assert_eq!(all, start);
    let io_end = rng.point(row_vars + col_vars);
    let ends: Vec<F> = tables.iter().map(|t| mle_evaluate(t, &io_end)).collect();
    let io_expected = value(&context.first_sumcheck_expression, &ends, &[alpha]);
    assert!(context.first_sumcheck_expression.is_within(7, 1));
    assert!(!context.first_sumcheck_expression.is_within(6, 1));
    assert_eq!(context.first_sumcheck_expression.evaluate(&ends, &[alpha]), io_expected);
    let io_ends = ends.clone();
    let io_evaluations = ends[..5].to_vec();
    // The second sumcheck shows the sums of the rows.
    let mean_alpha = rng.field();
    let mean_start = LayerNormCtx::claimed_mean_sum(&io_evaluations, mean_alpha);
    let (input_eq, mean_eq) = LayerNorm::<Element>::mean_tables(&io_end, col_vars);
    let tables = [&s.input, &input_eq, &mean_eq];
    let mut all = F::zero();
    for x in 0..tables[0].len() {
        let w: Vec<F> = tables.iter().map(|t| t[x]).collect();
        all = all.plus(value(&context.mean_sumcheck_expression, &w, &[mean_alpha]));
    }
    assert_eq!(all, mean_start);
    let mean_end = rng.point(row_vars + col_vars);
    let ends: Vec<F> = tables.iter().map(|t| mle_evaluate(t, &mean_end)).collect();
    let mean_expected = value(&context.mean_sumcheck_expression, &ends, &[mean_alpha]);
    let lookup_claims: Vec<Claim<F>> =
        poly_evals.iter().map(|e| Claim::new(lookup_point.clone(), *e)).collect();
    let (proved, proof) = layer.finish_proof(
        (),
        &lookup_claims,
        (),
        (),
        &io_end,
        &io_ends,
        (),
        mean_end.clone(),
        &ends,
    );
    assert_eq!(proof.io_evaluations, io_evaluations);
    let mut outcome = LayerNormEnds {
        last_claims: claims,
        poly_evals: poly_evals.clone(),
        lookup_point,
        alpha,
        io_subclaim: SubClaim { point: io_end, expected_evaluation: io_expected },
        mean_alpha,
        mean_subclaim: SubClaim { point: mean_end, expected_evaluation: mean_expected },
    };
    let left = context.verify(&proof, &outcome).unwrap();
    let same = |a: &Claim<F>, b: &Claim<F>| a.point == b.point && a.eval == b.eval;
    assert!(same(&left.input, &proved.input));
    assert!(same(&left.inv_sqrt, &proved.inv_sqrt));
    assert!(same(&left.gamma.1, &proved.gamma.1));
    assert!(same(&left.beta.1, &proved.beta.1));
    assert_eq!(left.lookup, proved.lookup);
    assert_eq!((&left.gamma.0, &left.beta.0), (&proved.gamma.0, &proved.beta.0));
    assert_eq!(left.input.eval, mle_evaluate(&to_field(&inputs[0]).data, &left.input.point));
    let roots = field(&data.lookup_output);
    assert_eq!(left.inv_sqrt.eval, mle_evaluate(&roots, &left.inv_sqrt.point));
    assert_eq!(left.gamma.0, polys[0].0);
    assert_eq!(left.gamma.1.eval, mle_evaluate(&field(&polys[0].1), &left.gamma.1.point));
    assert_eq!(left.beta.1.eval, mle_evaluate(&field(&polys[1].1), &left.beta.1.point));
    assert_eq!(left.lookup.1, poly_evals[..poly_evals.len() - 1].to_vec());
    // Evaluations behind the fifth stand in the place of the factors of the points.
    let with = |io_evaluations: Vec<F>| LayerNormProof {
        logup_proof: (),
        commitment: (),
        io_proof: (),
        mean_proof: (),
        io_evaluations,
    };
    let again = context.verify(&with(io_ends.clone()), &outcome).unwrap();
    assert!(same(&again.input, &left.input) && same(&again.inv_sqrt, &left.inv_sqrt));
    let mut shifted = io_evaluations.clone();
    shifted.push(F::new(3));
    let refused = context.verify(&with(shifted), &outcome);
    assert_eq!(refused.err(), Some(Error::EvaluationMismatch));
    let short = with(io_evaluations[..4].to_vec());
    assert_eq!(context.verify(&short, &outcome).err(), Some(Error::UnexpectedProof));
    outcome.io_subclaim.expected_evaluation = io_expected.plus(F::one());
    assert_eq!(context.verify(&proof, &outcome).err(), Some(Error::EvaluationMismatch));
    outcome.last_claims = vec![];
    assert_eq!(context.verify(&proof, &outcome).err(), Some(Error::WrongNumberOfClaims));
}

#[test]
fn factors_that_do_not_fit_are_refused() {
    let plain = || LayerNorm::new(vector("g", vec![1, 2]), vector("b", vec![3, 4]));
    let refused = plain().quantise(1, vector("g", vec![1, 2]), vector("b", vec![1]), 4, 1, BIT_LEN);
    assert_eq!(refused.err(), Some(Error::InvalidShape));
    let layer = plain();
    assert_eq!(layer.normalisation_dim_size(), 2);
    assert_eq!(layer.quant_info(), None);
    assert_eq!(layer.evaluate(&vec![], vec![]).err(), Some(Error::NotQuantised));
    assert_eq!(layer.step_info::<F>(1, &vec![], 0, BIT_LEN).err(), Some(Error::NotQuantised));
    let data = LayerNormData { lookup_output: vec![], full_value: vec![] };
    assert_eq!(layer.lookup_witness(&data, BIT_LEN, 1).err(), Some(Error::NotQuantised));
    let layer = quantised_layer(vec![1, 2], vec![3, 4], 1);
    assert_eq!(layer.evaluate(&vec![], vec![]).err(), Some(Error::WrongNumberOfInputs));
    let none: Vec<Claim<F>> = Vec::new();
    assert_eq!(
        layer.prove(&none, &vec![], &vec![], &vec![]).err(),
        Some(Error::WrongNumberOfInputs)
    );
    let input = vec![Tensor::new(shape(&[1, 2]), vec![1, 2]).unwrap()];
    assert_eq!(
        layer.prove(&none, &input, &vec![1], &vec![]).err(),
        Some(Error::WrongNumberOfClaims)
    );
}

#[test]
fn shifts_are_brought_to_whole_chunks() {
    assert_eq!(new_shift(16, 30, 8), Ok((0, 1)));
    assert_eq!(new_shift(17, 30, 8), Ok((7, 128)));
    assert!(new_shift(17, 60, 8).is_err());
    let layer = quantised_layer(vec![1; 4], vec![0; 4], 1);
    let info = layer.quant_info.unwrap();
    assert_eq!(info.range_check_bits, 5);
    assert_eq!(info.cleared(100), 96);
    assert_eq!(info.cleared(-1), -32);
    assert_eq!(LAYERNORM_SCALE_FACTOR, 1 << LOG_LAYERNORM_SCALE_FACTOR);
}
