//! Masks whose window counts the tokens before the token itself.
use zkml::attention::attention_mask::{mask_preamble, num_drawn, AttentionMask, AttentionMaskCtx, AttentionMaskProof, AttentionSpan, MaskProvingData, MaskVerifyingData};
use zkml::claim::{Claim, SubClaim};
use zkml::error::Error;
use zkml::expression::Expression;
use zkml::field::PrimeField;
use zkml::goldilocks::Goldilocks;
use zkml::mle::mle_evaluate;
use zkml::shape::Shape;
use zkml::tensor::{Element, Tensor};

type F = Goldilocks;

struct Random(u64);

impl Random {
    fn next(&mut self) -> u64 {
        self.0 = self.0.wrapping_add(0x9E37_79B9_7F4A_7C15);
        let mut z = self.0;
        z = (z ^ (z >> 30)).wrapping_mul(0xBF58_476D_1CE4_E5B9);
        z = (z ^ (z >> 27)).wrapping_mul(0x94D0_49BB_1331_11EB);
        z ^ (z >> 31)
    }

    fn range(&mut self, low: usize, high: usize) -> usize {
        low + (self.next() % (high - low) as u64) as usize
    }

    fn element(&mut self) -> Element {
        (self.next() % 255) as Element - 127
    }

    fn elements(&mut self, n: usize) -> Vec<Element> {
        (0..n).map(|_| self.element()).collect()
    }

    fn field(&mut self) -> F {
        F::new(self.next())
    }

    fn point(&mut self, n: usize) -> Vec<F> {
        (0..n).map(|_| self.field()).collect()
    }
}

fn shape(dims: &[usize]) -> Shape {
    Shape::new(dims.to_vec())
}

fn to_field(t: &Tensor<Element>) -> Tensor<F> {
    Tensor {
        data: t.data.iter().map(|x| F::from_i64(*x)).collect(),
        shape: t.shape.clone(),
        unpadded_shape: t.unpadded_shape.clone(),
    }
}

fn value(e: &Expression<F>, w: &[F], c: &[F]) -> F {
    match e {
        Expression::WitIn(i) => w[*i],
        Expression::Challenge(i) => c[*i],
        Expression::Constant(k) => *k,
        Expression::Sum(a, b) => value(a, w, c).plus(value(b, w, c)),
        Expression::Difference(a, b) => value(a, w, c).minus(value(b, w, c)),
        Expression::Product(a, b) => value(a, w, c).times(value(b, w, c)),
    }
}

fn total(expressions: &[Expression<F>], w: &[F], c: &[F]) -> F {
    expressions.iter().fold(F::zero(), |acc, e| acc.plus(value(e, w, c)))
}

#[test]
fn test_attention_equivalence_cached_vs_full() {
    let mut rng = Random(1);
    let (seq_len, q_len, num_heads) = (3usize, 1usize, 2usize);
    let padded_seq_len = seq_len.next_power_of_two();
    let mut cached_mask =
        AttentionMask::new(seq_len, f32::NEG_INFINITY).with_span(AttentionSpan::Full).unwrap();
    let mut full_mask =
        AttentionMask::new(seq_len, f32::NEG_INFINITY).with_span(AttentionSpan::Full).unwrap();
    cached_mask.pad();
    full_mask.pad();
    assert_eq!(cached_mask.dim_size, 4);
    assert_eq!(full_mask.dim_size, 4);
    let cached_shape = shape(&[num_heads, q_len, seq_len]);
    let full_shape = shape(&[num_heads, seq_len, seq_len]);
    let cached = Tensor::new(cached_shape.clone(), rng.elements(num_heads * q_len * seq_len)).unwrap();
    let full = Tensor::new(full_shape.clone(), rng.elements(num_heads * seq_len * seq_len)).unwrap();
    let padded_cached = cached.pad_next_power_of_two(0);
    let mut padded_full = full.pad_next_power_of_two(0);
    let head = padded_seq_len * padded_seq_len;
    for h in 0..num_heads {
        for j in 0..padded_seq_len {
            padded_full.data[h * head + (seq_len - 1) * padded_seq_len + j] =
                padded_cached.data[h * padded_seq_len + j];
        }
    }
    let mask = AttentionMask::new(seq_len, Element::MIN).with_span(AttentionSpan::Full).unwrap();
    let cached_output = mask.apply(&padded_cached, &cached_shape).unwrap();
    let full_output = mask.apply(&padded_full, &full_shape).unwrap();
    for h in 0..num_heads {
        let cached_row = &cached_output.data[h * padded_seq_len..(h + 1) * padded_seq_len];
        let from = h * head + (seq_len - 1) * padded_seq_len;
        assert_eq!(cached_row, &full_output.data[from..from + padded_seq_len]);
    }
}

#[test]
fn test_attention_mask_inference() {
    let mut rng = Random(2);
    for (seq_len, q_len, num_heads, span) in [
        (3usize, 3usize, 2usize, AttentionSpan::Local(2)),
        (3, 1, 2, AttentionSpan::Local(2)),
        (3, 1, 2, AttentionSpan::Full),
        (3, 3, 2, AttentionSpan::Full),
    ] {
        let padded_seq_len = seq_len.next_power_of_two();
        let padded_q_len = q_len.next_power_of_two();
        let minus_infinity = Element::MIN;
        let mask = AttentionMask::new(seq_len, minus_infinity).with_span(span).unwrap().pad_node();
        let input_shape = shape(&[num_heads, q_len, seq_len]);
        let input = Tensor::new(input_shape.clone(), rng.elements(num_heads * q_len * seq_len)).unwrap();
        let padded = input.pad_next_power_of_two(0);
        let padded_shape = padded.shape.clone();
        let padded_data = padded.data.clone();
        let output = mask.evaluate(&vec![padded], &vec![input_shape]).unwrap().remove(0);
        assert_eq!(output.shape, padded_shape);
        assert_eq!(output.shape.dims[1..], [padded_q_len, padded_seq_len]);
        let head_size = padded_q_len * padded_seq_len;
        for h in 0..output.shape.dims[0] {
            for token in 0..padded_q_len {
                let q_token = if q_len == 1 { seq_len - 1 } else { token };
                let min_clear = match span {
                    AttentionSpan::Full => 0,
                    AttentionSpan::Local(n) => q_token.saturating_sub(n),
                };
                for col in 0..padded_seq_len {
                    let p = h * head_size + token * padded_seq_len + col;
                    if h >= num_heads {
                        assert_eq!(output.data[p], 0);
                    } else if (min_clear..=q_token).contains(&col) {
                        assert_eq!(output.data[p], padded_data[p]);
                    } else {
                        assert_eq!(output.data[p], minus_infinity);
                    }
                }
            }
        }
    }
}

/// Proves and verifies a mask with an honest sumcheck. With `split` there is a claim for
/// each matrix.
fn prove_and_verify(dims: &[usize], span: AttentionSpan, seed: u64, split: bool) -> Result<(), Error> {
    let mut rng = Random(seed);
    let n: usize = dims.iter().product();
    let unpadded = shape(dims);
    let input = Tensor::new(unpadded.clone(), rng.elements(n)).unwrap().pad_next_power_of_two(0);
    let side = dims[dims.len() - 1];
    let mask = AttentionMask::<Element>::new(side, -4096).with_span(span).unwrap().pad_node();
    let output = mask.apply(&input, &unpadded).unwrap();
    let size = input.shape.dims[dims.len() - 1] * input.shape.dims[dims.len() - 2];
    let input = to_field(&input);
    let output = to_field(&output);
    let vars: usize = input.shape.dims.iter().map(|d| d.trailing_zeros() as usize).sum();
    let two_vars = size.trailing_zeros() as usize;
    let count: usize = dims[..dims.len() - 2].iter().product();
    let mut claims = Vec::new();
    let mut drawn: Vec<F> = Vec::new();
    if split {
        let point = rng.point(two_vars);
        for k in 0..count {
            let eval = mle_evaluate(&output.data[k * size..(k + 1) * size], &point);
            claims.push(Claim::new(point.clone(), eval));
        }
        drawn = rng.point(num_drawn(count, &input.shape, &unpadded));
    } else {
        let point = rng.point(vars);
        claims.push(Claim::new(point.clone(), mle_evaluate(&output.data, &point)));
    }
    let padded_shape = input.shape.clone();
    let inputs = vec![input];
    let output_shapes = vec![unpadded.clone()];
    let (data, tables) = mask.prove(&claims, &inputs, &unpadded, &output_shapes, &drawn)?;
    let context: AttentionMaskCtx<F> = mask.step_info(4, &vec![padded_shape.clone()]).unwrap();
    let expressions = &context.sumcheck_expression[..data.input_polys.len()];
    let mut all = F::zero();
    for x in 0..size {
        let w: Vec<F> = tables.iter().map(|t| t[x]).collect();
        all = all.plus(total(expressions, &w, &data.batching_challenges));
    }
    assert_eq!(all, AttentionMask::initial_claim(&claims, &data.batching_challenges));
    let end = rng.point(two_vars);
    let ends: Vec<F> = tables.iter().map(|t| mle_evaluate(t, &end)).collect();
    let expected = total(expressions, &ends, &data.batching_challenges);
    let (proof, input_claims) = AttentionMask::finish_proof(claims.len(), &data, (), &end, &ends);
    if split {
        assert_eq!(input_claims.len(), count);
        for k in 0..count {
            let eval = mle_evaluate(&inputs[0].data[k * size..(k + 1) * size], &end);
            assert_eq!(input_claims[k].eval, eval);
        }
    } else {
        assert_eq!(input_claims[0].eval, mle_evaluate(&inputs[0].data, &input_claims[0].point));
    }
    let subclaim = SubClaim { point: end, expected_evaluation: expected };
    let (_, accepted) = context.verify(
        &proof,
        &claims,
        &subclaim,
        &vec![padded_shape],
        &unpadded,
        &output_shapes,
        &drawn,
    )?;
    assert_eq!(accepted.len(), input_claims.len());
    for (a, b) in accepted.iter().zip(input_claims.iter()) {
        assert_eq!(a.point, b.point);
        assert_eq!(a.eval, b.eval);
    }
    Ok(())
}

#[test]
fn attention_mask_test_attention_mask_proving() {
    let mut rng = Random(3);
    let dim = rng.range(3, 10);
    let heads = rng.range(3, 8);
    assert_eq!(prove_and_verify(&[heads, dim, dim], AttentionSpan::Full, 5, false), Ok(()));
    assert_eq!(prove_and_verify(&[heads, dim, dim], AttentionSpan::Full, 6, true), Ok(()));
}

#[test]
fn matrices_in_a_grid_are_proved() {
    assert_eq!(prove_and_verify(&[2, 4, 4, 4], AttentionSpan::Full, 7, false), Ok(()));
    assert_eq!(prove_and_verify(&[3, 4, 5, 5], AttentionSpan::Full, 8, false), Ok(()));
    // A claim for each matrix takes the matrices in a row.
    assert_eq!(prove_and_verify(&[2, 4, 4, 4], AttentionSpan::Full, 9, true), Ok(()));
}

#[test]
fn a_single_matrix_is_proved() {
    assert_eq!(prove_and_verify(&[4, 4], AttentionSpan::Full, 10, false), Ok(()));
    assert_eq!(prove_and_verify(&[5, 5], AttentionSpan::Full, 11, false), Ok(()));
}

#[test]
fn the_verifier_computes_the_full_mask() {
    assert_eq!(
        prove_and_verify(&[3, 4, 4], AttentionSpan::Local(1), 9, false),
        Err(Error::EvaluationMismatch)
    );
}

#[test]
fn a_window_counts_the_tokens_before() {
    let mask = AttentionMask::<Element>::new(3, -9).with_span(AttentionSpan::Local(1)).unwrap();
    let square = shape(&[3, 3]);
    let input = Tensor::new(square.clone(), vec![1, 2, 3, 4, 5, 6, 7, 8, 9]).unwrap();
    assert_eq!(mask.apply(&input, &square).unwrap().data, vec![1, -9, -9, 4, 5, -9, -9, 8, 9]);
    let table: Vec<u64> = mask.make_lt_poly::<F>(3).iter().map(|x| x.value()).collect();
    assert_eq!(table, vec![1, 0, 0, 1, 1, 0, 0, 1, 1]);
    assert_eq!(mask.with_span(AttentionSpan::Local(3)).err(), Some(Error::SpanTooLarge));
}

#[test]
fn inputs_of_other_shapes_are_refused() {
    let mask = AttentionMask::<Element>::new(2, -9);
    let line = shape(&[2]);
    let input = Tensor::new(line.clone(), vec![1, 2]).unwrap();
    assert_eq!(mask.apply(&input, &line).err(), Some(Error::InvalidShape));
    let wide = shape(&[3, 3]);
    let input = Tensor::new(wide.clone(), vec![0; 9]).unwrap();
    assert_eq!(
        mask.evaluate(&vec![input], &vec![wide]).err(),
        Some(Error::DimensionOutOfBounds)
    );
    let line = shape(&[2]);
    let input = Tensor::new(line.clone(), vec![1, 2]).unwrap();
    assert_eq!(mask.evaluate(&vec![input], &vec![line]).err(), Some(Error::InvalidShape));
}

#[test]
fn claims_fit_the_outputs() {
    let claim = |x: u64| Claim::new(vec![F::new(x)], F::new(1));
    let outputs = vec![shape(&[3, 2, 2])];
    assert_eq!(mask_preamble(&vec![claim(1)], &outputs), Ok(()));
    assert_eq!(mask_preamble(&vec![claim(1), claim(1), claim(1)], &outputs), Ok(()));
    assert_eq!(
        mask_preamble(&vec![claim(1), claim(2), claim(1)], &outputs),
        Err(Error::DifferentPoints)
    );
    assert_eq!(
        mask_preamble(&vec![claim(1), claim(1)], &outputs),
        Err(Error::WrongNumberOfClaims)
    );
    assert_eq!(
        mask_preamble(&vec![claim(1)], &vec![shape(&[2, 2]), shape(&[2, 2])]),
        Err(Error::WrongNumberOfClaims)
    );
    let square = shape(&[2, 2]);
    let input = to_field(&Tensor::new(square.clone(), vec![1, 2, 3, 4]).unwrap());
    let two = vec![claim(1), claim(1)];
    let both = vec![square.clone(), square.clone()];
    assert_eq!(
        MaskProvingData::from_claims_and_input(&two, &input, &square, &both, &vec![]).err(),
        Some(Error::WrongNumberOfClaims)
    );
    let cube = shape(&[2, 2, 2]);
    assert_eq!(
        MaskVerifyingData::new_from_claims_and_shape_data(
            &vec![claim(1)],
            &cube,
            &cube,
            &vec![cube.clone()],
            &vec![]
        )
        .err(),
        Some(Error::WrongPointLength)
    );
    let long = shape(&[1, 1, 1, 1, 1]);
    assert_eq!(
        MaskVerifyingData::new_from_claims_and_shape_data(
            &vec![claim(1)],
            &long,
            &long,
            &vec![long.clone()],
            &vec![]
        )
        .err(),
        Some(Error::InvalidShape)
    );
}

#[test]
fn the_context_takes_one_input_of_rank_two_or_more() {
    let mask = AttentionMask::<Element>::new(2, -9);
    assert_eq!(mask.step_info::<F>(1, &vec![]).err(), Some(Error::WrongNumberOfInputs));
    let context = mask.step_info::<F>(1, &vec![shape(&[2, 2])]).unwrap();
    assert_eq!(context.dim_size(), 2);
    let proof = AttentionMaskProof { sumcheck_proof: (), evaluations: vec![] };
    let subclaim = SubClaim { point: vec![], expected_evaluation: F::zero() };
    let one = vec![Claim::new(vec![], F::one())];
    let line = shape(&[2]);
    let refused = context.verify(&proof, &one, &subclaim, &vec![], &line, &vec![], &vec![]);
    assert_eq!(refused.err(), Some(Error::WrongNumberOfInputs));
    let lines = vec![line.clone()];
    let refused = context.verify(&proof, &one, &subclaim, &lines, &line, &vec![], &vec![]);
    assert_eq!(refused.err(), Some(Error::InvalidShape));
    let mut other = AttentionMask::<Element>::default();
    other.set_negative_infinity(-3);
    assert_eq!(other.negative_infinity, -3);
    assert_eq!(other.dim_size, 0);
    assert_eq!(AttentionSpan::default(), AttentionSpan::Full);
    let scaled = AttentionMask::new(4, 0.5f32).quantize_op(&[-7, -7]).unwrap();
    assert_eq!(scaled.negative_infinity, -7);
    assert_eq!(AttentionMask::new(4, 0.5f32).quantize_op(&[]).err(), Some(Error::InvalidScaling));
}
