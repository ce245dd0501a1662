//! Normalised rows: evaluation, what is looked up, and the claims on factors and biases.
use zkml::claim::Claim;
use zkml::error::Error;
use zkml::field::PrimeField;
use zkml::goldilocks::Goldilocks;
use zkml::lookup::Table;
use zkml::mle::mle_evaluate;
use zkml::normalisation::layernorm::{beta_bit_sizes, LayerNorm, LayerNormProvingData};
use zkml::normalisation::rmsnorm::{RMSNorm, RMSNormCtx, RMSNormHandle, RMSNormProvingData};
use zkml::normalisation::{align, normalisation_domain, normalise_rows, row_square_sums, row_sums, scale_columns, to_columns, NormalisationCache, RowScale, Scaling};
use zkml::shape::Shape;
use zkml::tensor::{Element, KeyedTensor, Tensor};

type F = Goldilocks;

struct Random(u64);

impl Random {
    fn next(&mut self) -> u64 {
        self.0 = self.0.wrapping_add(0x9E37_79B9_7F4A_7C15);
        let mut z = self.0;
        z = (z ^ (z >> 30)).wrapping_mul(0xBF58_476D_1CE4_E5B9);
        z = (z ^ (z >> 27)).wrapping_mul(0x94D0_49BB_1331_11EB);
        z ^ (z >> 31)
    }

    fn range(&mut self, low: usize, high: usize) -> usize {
        low + (self.next() % (high - low) as u64) as usize
    }

    fn element(&mut self) -> Element {
        (self.next() % 255) as Element - 127
    }

    fn elements(&mut self, n: usize) -> Vec<Element> {
        (0..n).map(|_| self.element()).collect()
    }

    fn floats(&mut self, n: usize, bound: f32) -> Vec<f32> {
        (0..n).map(|_| ((self.next() >> 40) as f32 / (1u64 << 23) as f32 - 1.0) * bound).collect()
    }

    fn field(&mut self) -> F {
        F::new(self.next())
    }

    fn point(&mut self, n: usize) -> Vec<F> {
        (0..n).map(|_| self.field()).collect()
    }
}

fn shape(dims: &[usize]) -> Shape {
    Shape::new(dims.to_vec())
}

fn to_field(t: &Tensor<Element>) -> Tensor<F> {
    Tensor {
        data: t.data.iter().map(|x| F::from_i64(*x)).collect(),
        shape: t.shape.clone(),
        unpadded_shape: t.unpadded_shape.clone(),
    }
}

const FIXED_POINT_SCALE: usize = 25;
const BIT_LEN: usize = 8;
const TABLE_BITS: usize = 16;

/// The scale of a tensor and its quantised values.
fn quantised(data: &[f32]) -> (f32, Vec<Element>) {
    let max = data.iter().fold(0.0f32, |m, x| m.max(x.abs()));
    let scale = 2.0 * max / ((1u64 << BIT_LEN) - 1) as f32;
    let q = data.iter().map(|x| ((x / scale).round_ties_even() as Element).clamp(-128, 127)).collect();
    (scale, q)
}

/// The scale of normalised rows and its number of bits.
fn normalised_scale(dim: usize) -> (f32, usize) {
    let least = 2.0 / ((1u64 << (TABLE_BITS - 1)) as f32 / dim as f32 - 1.0);
    let max = (dim as f32).sqrt();
    let mut bits = BIT_LEN;
    let mut scale = 2.0 * max / (1u64 << bits) as f32;
    while scale < least && bits > 1 {
        bits -= 1;
        scale = 2.0 * max / (1u64 << bits) as f32;
    }
    (scale, bits)
}

fn row_scale(x: f32) -> RowScale {
    let log = x.log2();
    let multiplier =
        (2.0f32.powf(log.fract()) * (1u64 << FIXED_POINT_SCALE) as f32).round_ties_even() as Element;
    RowScale { multiplier, shift: log.trunc() as Element - FIXED_POINT_SCALE as Element }
}

fn sums(dim: usize, scale: f32) -> (Element, Element) {
    let sumsq = (dim as f32 / (scale * scale)).round_ties_even() as Element;
    let bound = (dim as f32 * (2.0 / scale + 1.0)).round_ties_even() as Element;
    (sumsq, bound)
}

fn scaling(bits: usize) -> Scaling {
    let (min, max) = normalisation_domain(bits);
    Scaling { min, max, bit_size: bits }
}

/// Evaluates a layer without factors on quantised rows.
fn rms_rows(input: &Tensor<Element>, dim: usize) -> (Vec<Element>, Element, Element) {
    let (scale, bits) = normalised_scale(dim);
    let (sumsq, bound) = sums(dim, scale);
    let layer = RMSNorm::<f32>::new(None, Some(dim)).unwrap();
    let (mut layer, requant, out) = layer.quantise(None, scaling(BIT_LEN), scaling(bits), scaling(BIT_LEN));
    assert_eq!(requant, None);
    assert_eq!(out, scaling(bits));
    let squares = row_square_sums(input);
    let scales: Vec<RowScale> = squares
        .iter()
        .map(|s| {
            if *s == 0 {
                RowScale { multiplier: 0, shift: -1 }
            } else {
                row_scale((sumsq as f32 / *s as f32).sqrt())
            }
        })
        .collect();
    let (multipliers, shift) = layer.multipliers(&squares, &scales, FIXED_POINT_SCALE);
    let rows = squares.len();
    let multipliers = Tensor::new(shape(&[rows, 1]), multipliers).unwrap();
    let inputs = vec![input.duplicate()];
    let (output, data) = layer
        .evaluate_quantised_internal(
            &inputs,
            multipliers,
            shift,
            sumsq,
            bound,
        )
        .unwrap();
    assert_eq!(data.lookup_verifier.normalisation_sum_sq, sumsq);
    assert_eq!(data.lookup_verifier.error_bound, bound);
    assert_eq!(data.lookup_verifier.right_shift(), shift as usize);
    (output.data, sumsq, bound)
}

fn check_rows(output: &[Element], dim: usize, sumsq: Element, bound: Element) {
    for row in output.chunks(dim) {
        let square_sum: Element = row.iter().map(|x| x * x).sum();
        assert!((sumsq - square_sum).abs() <= bound || square_sum == 0);
    }
}

#[test]
fn test_quantised() {
    let mut rng = Random(1);
    let (rows, dim) = (60usize, 640usize);
    let (_, q) = quantised(&rng.floats(rows * dim, 1.0));
    let input = Tensor::new(shape(&[rows, dim]), q).unwrap();
    let (output, sumsq, bound) = rms_rows(&input, dim);
    check_rows(&output, dim, sumsq, bound);
}

#[test]
fn test_quantised_heterogeneous_magnitudes() {
    let (rows, dim) = (5usize, 640usize);
    let mut data = Vec::new();
    for row in 0..rows {
        let scale = if row == 0 { 0.01 } else { 1.0 };
        for j in 0..dim {
            data.push(((row * dim + j) as f32 * 0.618034 % 2.0 - 1.0) * scale);
        }
    }
    let (_, q) = quantised(&data);
    let input = Tensor::new(shape(&[rows, dim]), q).unwrap();
    let (output, sumsq, bound) = rms_rows(&input, dim);
    check_rows(&output, dim, sumsq, bound);
}

#[test]
fn test_rmsnorm_proving() {
    let mut rng = Random(2);
    for i in 0..25 {
        let rank = rng.range(2, 5);
        let mut dims: Vec<usize> = (0..rank - 1).map(|_| rng.range(3, 8)).collect();
        let dim = rng.range(8, 25);
        dims.push(dim);
        let n: usize = dims.iter().product();
        let (_, q) = quantised(&rng.floats(n, 10.0));
        let input = Tensor::new(shape(&dims), q).unwrap();
        if i % 2 == 0 {
            let (output, sumsq, bound) = rms_rows(&input, dim);
            check_rows(&output, dim, sumsq, bound);
        } else {
            let (normalised, _, _) = rms_rows(&input, dim);
            let alpha = rng.elements(dim);
            let columns = scale_columns(
                &Tensor::new(shape(&dims), normalised.clone()).unwrap(),
                &alpha,
                None,
            );
            for p in 0..n {
                assert_eq!(columns.data[p], normalised[p] * alpha[p % dim]);
            }
        }
    }
    // The claim on the factors comes with a layer that has factors, and with no other.
    let context = |key: Option<String>| RMSNormCtx {
        node_id: 1,
        normalisation_dim_size: 4,
        alpha_key: key,
        input_scaling: scaling(8),
        normalisation_scaling: scaling(7),
    };
    let with = context(Some("alpha".to_string()));
    let (key, claim) = with.verify_alpha(Some(F::new(5)), Some(vec![F::new(6)])).unwrap().unwrap();
    assert_eq!(key, "alpha");
    assert_eq!((claim.point, claim.eval), (vec![F::new(6)], F::new(5)));
    assert_eq!(with.verify_alpha::<F>(None, None).err(), Some(Error::UnexpectedProof));
    let alpha = KeyedTensor::new("alpha".to_string(), Tensor::new(shape(&[1]), vec![2]).unwrap());
    let layer = RMSNorm::<Element>::new(Some(alpha), None).unwrap();
    let (key, claim) = layer.prove_alpha(Some(F::new(5)), Some(vec![F::new(6)])).unwrap().unwrap();
    assert_eq!((key.as_str(), claim.eval), ("alpha", F::new(5)));
    assert_eq!(layer.prove_alpha(Some(F::new(5)), None).err(), Some(Error::UnexpectedProof));
    let without = context(None);
    assert!(without.verify_alpha::<F>(None, None).unwrap().is_none());
    let refused = without.verify_alpha(Some(F::new(5)), None);
    assert_eq!(refused.err(), Some(Error::UnexpectedProof));
    assert_eq!(
        with.lookup_tables(),
        vec![
            Table::new_shift_check(),
            Table::new_normalisation(8),
            Table::new_signed_zero_check(),
        ]
    );
}

/// Evaluates a layer on quantised rows; gives the multipliers, the means and the shift with
/// the output.
fn layer_rows(
    layer: &mut LayerNorm<Element>,
    input: &Tensor<Element>,
    input_scale: f32,
    scale: f32,
) -> (Tensor<Element>, LayerNormProvingData) {
    let dim = layer.normalisation_dim_size();
    let plain = input.reduce_to_unpadded_shape();
    let totals = row_sums(&plain);
    let rescaling = input_scale / scale;
    let mut factors = Vec::new();
    for (i, row) in plain.data.chunks(dim).enumerate() {
        let variance: f32 = row
            .iter()
            .map(|x| {
                let centred = (*x * dim as Element - totals[i]) as f32 * (input_scale / dim as f32);
                centred * centred
            })
            .sum::<f32>()
            / dim as f32;
        factors.push((variance + 1e-5).sqrt().recip());
    }
    let scales: Vec<RowScale> = factors.iter().map(|f| row_scale(f * rescaling)).collect();
    let (multipliers, shift) = layer.multipliers(&scales);
    let means: Vec<Element> = totals
        .iter()
        .zip(factors.iter())
        .map(|(t, f)| {
            let mean = *t as f32 * (rescaling / dim as f32) * f;
            (mean * (1u64 << shift) as f32).round() as Element
        })
        .collect();
    let rows = totals.len();
    let (sumsq, bound) = sums(dim, scale);
    let inputs = vec![input.duplicate()];
    layer
        .evaluate_quantised_internal(
            &inputs,
            Tensor::new(shape(&[rows, 1]), multipliers).unwrap(),
            Tensor::new(shape(&[rows, 1]), means).unwrap(),
            shift,
            sumsq,
            bound,
        )
        .unwrap()
}

fn quantised_layer(gamma: Vec<Element>, beta: Vec<Element>, bits: usize) -> LayerNorm<Element> {
    let dim = gamma.len();
    let keyed = |k: &str, v: Vec<Element>| KeyedTensor::new(k.to_string(), Tensor::new(shape(&[dim]), v).unwrap());
    let floats = |k: &str| KeyedTensor::new(k.to_string(), Tensor::new(shape(&[dim]), vec![1.0f32; dim]).unwrap());
    LayerNorm::new(floats("LNRM_GAMMA"), floats("LNRM_BETA")).unwrap().quantise(
        keyed("LNRM_GAMMA", gamma),
        keyed("LNRM_BETA", beta),
        scaling(BIT_LEN),
        scaling(bits),
    )
}

#[test]
fn test_layernorm_evaluate_quant() {
    let mut rng = Random(3);
    let rows = 5usize;
    for _ in 0..10 {
        let dim = rng.range(400, 1000);
        let (scale_in, _) = quantised(&rng.floats(rows * dim, 10.0));
        let (_, q) = quantised(&rng.floats(rows * dim, 10.0));
        let input = Tensor::new(shape(&[rows, dim]), q.clone()).unwrap();
        let (scale, bits) = normalised_scale(dim);
        let mut layer = quantised_layer(vec![1; dim], vec![0; dim], bits);
        let (output, data) = layer_rows(&mut layer, &input, scale_in, scale);
        let shift = data.lookup_verifier.right_shift();
        for (i, row) in q.chunks(dim).enumerate() {
            let rescaled: Vec<Element> = row
                .iter()
                .map(|x| (x * data.std_dev.data[i] - data.mean.data[i] + (1 << (shift - 1))) >> shift)
                .collect();
            let sum: Element = rescaled.iter().sum();
            assert!(sum.unsigned_abs() as usize <= dim);
            assert_eq!(rescaled, output.data[i * dim..(i + 1) * dim].to_vec());
        }
    }
}

#[test]
fn mod_test_layernorm_proving() {
    let mut rng = Random(4);
    for _ in 0..25 {
        let rank = rng.range(2, 5);
        let mut dims: Vec<usize> = (0..rank - 1).map(|_| rng.range(3, 8)).collect();
        let dim = rng.range(8, 25);
        dims.push(dim);
        let n: usize = dims.iter().product();
        let (scale_in, q) = quantised(&rng.floats(n, 10.0));
        let input = Tensor::new(shape(&dims), q).unwrap();
        let unpadded = input.shape.clone();
        let input = input.pad_next_power_of_two(0);
        let (scale, bits) = normalised_scale(dim);
        let (gamma, beta) = (rng.elements(dim), rng.elements(dim));
        let mut layer = quantised_layer(gamma.clone(), beta, bits);
        let (output, data) = layer_rows(&mut layer, &input, scale_in, scale);
        assert_eq!(output.shape, input.shape);
        // What the lookup is about: the normalised rows times their factors.
        let plain = input.reduce_to_unpadded_shape();
        let shift = data.lookup_verifier.right_shift();
        assert_eq!(data.rounding_constant(), 1 << (shift - 1));
        let normalised = data.apply(&plain, normalisation_domain(bits + 1));
        let scaled = scale_columns(&normalised, &gamma, None).pad_next_power_of_two(0);
        let vars: usize = output.shape.dims.iter().map(|d| d.trailing_zeros() as usize).sum();
        let point = rng.point(vars);
        let claim = Claim::new(point.clone(), mle_evaluate(&to_field(&output).data, &point));
        let (free, beta_point, beta_eval) = layer.prove_bias(&claim, &input.shape, &unpadded).unwrap();
        assert_eq!(free.point, point);
        assert_eq!(free.eval, mle_evaluate(&to_field(&scaled).data, &point));
        let (context, polys, _) = layer.step_info(&vec![unpadded.clone()], 0).unwrap();
        let committed: Vec<F> = polys[1].1.iter().map(|x| F::from_i64(*x)).collect();
        assert_eq!(beta_eval, mle_evaluate(&committed, &beta_point));
        let gamma_point = vec![F::new(3)];
        let (proof, claims) = layer
            .finish_proof(
                (),
                (),
                (),
                vec![],
                shift,
                Some(F::new(2)),
                Some(vec![]),
                Some(gamma_point.clone()),
                beta_point.clone(),
                beta_eval,
            )
            .unwrap();
        let (again, point_again) = context.verify_bias(&proof, &claim, &input.shape, &unpadded).unwrap();
        assert_eq!(again.eval, free.eval);
        assert_eq!(point_again, beta_point);
        let weights = context.verify_weights(&proof, Some(gamma_point), point_again).unwrap();
        assert_eq!(weights.len(), claims.len());
        for (a, b) in weights.iter().zip(claims.iter()) {
            assert_eq!(a.0, b.0);
            assert_eq!((&a.1.point, a.1.eval), (&b.1.point, b.1.eval));
        }
        let refused = context.verify_weights(&proof, None, beta_point);
        assert_eq!(refused.err(), Some(Error::UnexpectedProof));
        let short = Claim::new(vec![], F::one());
        assert_eq!(
            layer.prove_bias(&short, &input.shape, &unpadded).err(),
            Some(Error::WrongPointLength)
        );
    }
}

#[test]
fn the_largest_shift_is_kept() {
    let mut cache = NormalisationCache::new();
    for shift in [3, 7, 5] {
        cache.update(shift);
    }
    assert_eq!(cache.get_shift(), 7);
    cache.reset();
    assert_eq!(cache, NormalisationCache::new());
    cache.update(-2);
    assert_eq!(cache.get_shift(), -2);
    let scales = vec![
        RowScale { multiplier: 3, shift: 1 },
        RowScale { multiplier: 5, shift: 4 },
    ];
    let mut cache = NormalisationCache::new();
    assert_eq!(align(&mut cache, &scales), (vec![24, 5], 4));
    // A token that comes later is brought to the shift so far.
    let later = vec![RowScale { multiplier: 1, shift: 2 }];
    assert_eq!(align(&mut cache, &later), (vec![4], 4));
}

#[test]
fn rows_are_rounded_and_clamped() {
    let input = Tensor::new(shape(&[2, 2]), vec![3, -3, 100, -100]).unwrap();
    // (x * m + 2) >> 2, clamped to the values of four bits.
    let out = normalise_rows(&input, &vec![1, 2], None, 2, 2, normalisation_domain(4));
    assert_eq!(out.data, vec![1, -1, 7, -8]);
    let out = normalise_rows(&input, &vec![1, 1], Some(&vec![1, 2]), 2, 2, normalisation_domain(8));
    assert_eq!(out.data, vec![1, -1, 25, -25]);
    assert_eq!(row_sums(&input), vec![0, 0]);
    assert_eq!(row_square_sums(&input), vec![18, 20000]);
    let out = scale_columns(&input, &vec![2, 3], Some(&vec![1, 1]));
    assert_eq!(out.data, vec![7, -8, 201, -299]);
    assert_eq!(to_columns(&vec![1, 2, 3, 4, 5], 3), vec![vec![1, 2, 3, 0], vec![4, 5, 0, 0]]);
    assert_eq!(normalisation_domain(8), (-128, 127));
    assert_eq!(beta_bit_sizes(8, 7), (16, 17));
}

#[test]
fn a_row_of_zeros_stays_zero() {
    let input = Tensor::new(shape(&[2, 4]), vec![0, 0, 0, 0, 1, 2, 3, 4]).unwrap();
    let (output, sumsq, bound) = rms_rows(&input, 4);
    assert_eq!(output[..4], [0, 0, 0, 0]);
    check_rows(&output, 4, sumsq, bound);
}

#[test]
fn layers_that_are_not_quantised_are_refused() {
    let none: Option<KeyedTensor<f32>> = None;
    assert!(RMSNorm::new(none, None).is_err());
    let plain = |n: usize| KeyedTensor::new("w".to_string(), Tensor::new(shape(&[n]), vec![1; n]).unwrap());
    let layer = RMSNorm::<Element>::new(Some(plain(3)), None).unwrap();
    assert_eq!(layer.normalisation_dim_size(), 3);
    assert_eq!(layer.get_quantisation_scaling_factors(), None);
    assert_eq!(layer.step_info(1, &vec![], 0).err(), Some(Error::NotQuantised));
    let input = || vec![Tensor::new(shape(&[1, 3]), vec![1, 2, 3]).unwrap()];
    let one = || Tensor::new(shape(&[1, 1]), vec![1]).unwrap();
    let refused = layer.evaluate_quantised_internal(&input(), one(), 1, 1, 1);
    assert_eq!(refused.err(), Some(Error::NotQuantised));
    let refused = layer.evaluate_quantised_internal(&vec![], one(), 1, 1, 1);
    assert_eq!(refused.err(), Some(Error::WrongNumberOfInputs));
    let layer = LayerNorm::<Element>::new(plain(3), plain(3)).unwrap();
    assert_eq!(layer.step_info(&vec![], 0).err(), Some(Error::NotQuantised));
    let refused = layer.evaluate_quantised_internal(&input(), one(), one(), 1, 1, 1);
    assert_eq!(refused.err(), Some(Error::NotQuantised));
    assert!(LayerNorm::<Element>::new(plain(3), plain(2)).is_err());
    let data = RMSNormProvingData::new(one(), 1, 1, 1, 9, false);
    let layer = RMSNorm::<Element>::new(None, Some(3)).unwrap();
    let x = Tensor::new(shape(&[1, 3]), vec![1, 2, 3]).unwrap();
    assert_eq!(layer.lookup_witness(&data, &x).err(), Some(Error::NotQuantised));
    let handle = RMSNormHandle::new("row".to_string(), data);
    assert_eq!(handle.to_proving_data().normalisation.data, vec![1]);
}

#[test]
fn a_lookup_has_its_parts() {
    let (layer, _, _) = RMSNorm::<f32>::new(None, Some(2)).unwrap().quantise(
        None,
        scaling(8),
        scaling(4),
        scaling(8),
    );
    let input = Tensor::new(shape(&[3, 2]), vec![1, 2, 3, 4, 5, 6]).unwrap();
    let data = RMSNormProvingData::new(
        Tensor::new(shape(&[3, 1]), vec![2, 4, 8]).unwrap(),
        1,
        1,
        1,
        9,
        false,
    );
    let parts = layer.lookup_witness(&data, &input).unwrap();
    assert_eq!(parts.scaled_input.data, vec![2, 4, 12, 16, 40, 48]);
    assert_eq!(parts.output.data, vec![1, 2, 6, 8, 15, 15]);
    assert_eq!(parts.columns, vec![vec![2, 4, 8, 0]]);
    assert_eq!(parts.number_of_chunks, 1);
    assert_eq!(parts.tables.len(), 4);
    // Rows that are only scaled have one check; centred rows have two.
    let checks = vec![vec![(1, 3), (5, 1)], vec![(5, 2)]];
    let mut counts = std::collections::HashMap::from([(1, 2u64), (2, 1)]);
    RMSNorm::<Element>::merge_normalisation_counts(&mut counts, &checks);
    assert_eq!(counts, std::collections::HashMap::from([(1, 5u64), (2, 1), (5, 1)]));
    let mut counts = std::collections::HashMap::from([(1, 2u64), (2, 1)]);
    LayerNorm::<Element>::merge_normalisation_counts(&mut counts, &checks);
    assert_eq!(counts, std::collections::HashMap::from([(1, 5u64), (2, 1), (5, 3)]));
}

#[test]
fn factors_are_loaded_by_name() {
    let vector = |n: usize| Some(KeyedTensor::new("w".to_string(), Tensor::new(shape(&[n]), vec![1; n]).unwrap()));
    let trivial = RMSNorm::<Element>::from_json(vector(4), true).unwrap();
    assert!(trivial.alpha.is_none());
    assert_eq!(trivial.normalisation_dim_size(), 4);
    assert!(RMSNorm::<Element>::from_gguf(vector(4), false).unwrap().alpha.is_some());
    let none: Option<KeyedTensor<Element>> = None;
    assert_eq!(RMSNorm::from_safetensors(none, false).err(), Some(Error::MissingTensor));
    assert!(LayerNorm::<Element>::from_json(vector(4), vector(4)).is_ok());
    assert_eq!(
        LayerNorm::<Element>::from_json(vector(4), vector(3)).err(),
        Some(Error::InvalidShape)
    );
    assert!(LayerNorm::<Element>::from_gguf(vector(4), vector(4), 4).is_ok());
    assert_eq!(
        LayerNorm::<Element>::from_safetensors(vector(4), vector(4), 5).err(),
        Some(Error::InvalidShape)
    );
    assert_eq!(
        LayerNorm::<Element>::from_safetensors(vector(4), None, 4).err(),
        Some(Error::MissingTensor)
    );
}
