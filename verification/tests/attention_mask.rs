//! Attention masks: evaluation, the tables of the prover and the verifier.
use zkml::attention_mask::evaluate::{caching_case_mask, non_caching_case_mask};
use zkml::attention_mask::prove::{fix_lower_mle_columns, fix_lower_mle_rows, MaskProvingData};
use zkml::attention_mask::verify::{eval_shift_matrix, MaskVerifyingData};
use zkml::attention_mask::{AttentionMask, AttentionMaskProof, AttentionSpan};
use zkml::claim::{Claim, SubClaim};
use zkml::error::Error;
use zkml::expression::Expression;
use zkml::field::PrimeField;
use zkml::goldilocks::Goldilocks;
use zkml::mle::mle_evaluate;
use zkml::shape::Shape;
use zkml::tensor::{Element, Tensor};
use zkml::triangular::eval_zeroifier_mle;

type F = Goldilocks;

struct Random(u64);

impl Random {
    fn next(&mut self) -> u64 {
        self.0 = self.0.wrapping_add(0x9E37_79B9_7F4A_7C15);
        let mut z = self.0;
        z = (z ^ (z >> 30)).wrapping_mul(0xBF58_476D_1CE4_E5B9);
        z = (z ^ (z >> 27)).wrapping_mul(0x94D0_49BB_1331_11EB);
        z ^ (z >> 31)
    }

    fn range(&mut self, low: usize, high: usize) -> usize {
        low + (self.next() % (high - low) as u64) as usize
    }

    fn element(&mut self) -> Element {
        (self.next() % 255) as Element - 127
    }

    fn elements(&mut self, n: usize) -> Vec<Element> {
        (0..n).map(|_| self.element()).collect()
    }

    fn field(&mut self) -> F {
        F::new(self.next())
    }

    fn point(&mut self, n: usize) -> Vec<F> {
        (0..n).map(|_| self.field()).collect()
    }
}

fn shape(dims: &[usize]) -> Shape {
    Shape::new(dims.to_vec())
}

fn to_field(t: &Tensor<Element>) -> Tensor<F> {
    Tensor {
        data: t.data.iter().map(|x| F::from_i64(*x)).collect(),
        shape: t.shape.clone(),
        unpadded_shape: t.unpadded_shape.clone(),
    }
}

fn value(e: &Expression<F>, w: &[F], c: &[F]) -> F {
    match e {
        Expression::WitIn(i) => w[*i],
        Expression::Challenge(i) => c[*i],
        Expression::Constant(k) => *k,
        Expression::Sum(a, b) => value(a, w, c).plus(value(b, w, c)),
        Expression::Difference(a, b) => value(a, w, c).minus(value(b, w, c)),
        Expression::Product(a, b) => value(a, w, c).times(value(b, w, c)),
    }
}

fn total(expressions: &[Expression<F>], w: &[F], c: &[F]) -> F {
    expressions.iter().fold(F::zero(), |acc, e| acc.plus(value(e, w, c)))
}

#[derive(Clone, Copy, Debug)]
struct MaskTestCase {
    seq_len: usize,
    q_len: usize,
    num_heads: usize,
    span: AttentionSpan,
}

fn check_mask<N: Copy + PartialEq>(case: MaskTestCase, min: N, zero: N, data: Vec<N>) {
    let dims = [case.num_heads, case.q_len, case.seq_len];
    let expected_mask = if case.q_len == 1 {
        caching_case_mask(case.span, case.seq_len)
    } else {
        non_caching_case_mask(case.span, case.seq_len)
    };
    let input = Tensor::new(shape(&dims), data).unwrap();
    let mask = AttentionMask::new(case.seq_len, min).with_span(case.span).unwrap();
    let output = mask.evaluate_internal(&input, zero).unwrap();
    assert_eq!(output.shape.dims, dims.to_vec());
    let masked_portion: Vec<bool> = output.data.iter().map(|x| *x == min).collect();
    let mut expected: Vec<bool> = Vec::new();
    for _ in 0..case.num_heads {
        expected.extend(expected_mask.iter().copied());
    }
    assert_eq!(masked_portion, expected, "{case:?}");
}

#[test]
fn test_mask_evaluation() {
    let mut rng = Random(1);
    let cases = vec![
        MaskTestCase { seq_len: 3, q_len: 3, num_heads: 2, span: AttentionSpan::Local(2) },
        MaskTestCase { seq_len: 3, q_len: 1, num_heads: 2, span: AttentionSpan::Local(2) },
        MaskTestCase { seq_len: 3, q_len: 1, num_heads: 2, span: AttentionSpan::Full },
        MaskTestCase { seq_len: 3, q_len: 3, num_heads: 2, span: AttentionSpan::Full },
    ];
    for case in cases {
        let n = case.num_heads * case.q_len * case.seq_len;
        let data = rng.elements(n);
        let floats: Vec<f32> = data.iter().map(|x| *x as f32).collect();
        check_mask::<f32>(case, f32::MIN, 0.0, floats);
        check_mask::<Element>(case, Element::MIN, 0, data);
    }
}

#[test]
fn test_mask_polys_vs_mask() {
    for seq_len in [32usize, 64, 128, 256, 512, 1024] {
        let span = AttentionSpan::Local(seq_len / 2);
        let mask = AttentionMask::<Element>::new(seq_len, Element::MIN).with_span(span).unwrap();
        let bool_mask = non_caching_case_mask(span, seq_len);
        let polys = mask.make_mask_polys::<F>(seq_len);
        assert_eq!(polys.len(), 2);
        for p in 0..seq_len * seq_len {
            let product = polys[0][p].times(polys[1][p]).value();
            let expected = if bool_mask[p] { 0 } else { 1 };
            assert_eq!(product, expected);
        }
    }
}

#[test]
fn test_fix_lower_mle() {
    let mut rng = Random(2);
    let vars = 6;
    let n = 1usize << vars;
    let mut lower: Vec<F> = Vec::new();
    let mut upper: Vec<F> = Vec::new();
    for row in 0..n {
        for col in 0..n {
            lower.push(if row >= col { F::one() } else { F::zero() });
            upper.push(if row <= col { F::one() } else { F::zero() });
        }
    }
    let row_point = rng.point(vars);
    let column_point = rng.point(vars);
    let fix_rows = |t: &Vec<F>, point: &Vec<F>| -> Vec<F> {
        (0..n)
            .map(|col| {
                let column: Vec<F> = (0..n).map(|row| t[row * n + col]).collect();
                mle_evaluate(&column, point)
            })
            .collect()
    };
    let fix_columns = |t: &Vec<F>, point: &Vec<F>| -> Vec<F> {
        (0..n).map(|row| mle_evaluate(&t[row * n..(row + 1) * n], point)).collect()
    };
    assert_eq!(fix_rows(&lower, &row_point), fix_lower_mle_rows(&row_point));
    assert_eq!(fix_columns(&lower, &column_point), fix_lower_mle_columns(&column_point));
    assert_eq!(fix_rows(&upper, &row_point), fix_lower_mle_columns(&row_point));
    assert_eq!(fix_columns(&upper, &column_point), fix_lower_mle_rows(&column_point));
}

/// Proves and verifies a mask with an honest sumcheck, and returns whether each step held.
fn prove_and_verify(dims: &[usize], span: AttentionSpan, seed: u64, tamper: bool) -> Result<(), Error> {
    let mut rng = Random(seed);
    let n: usize = dims.iter().product();
    let input = Tensor::new(shape(dims), rng.elements(n)).unwrap().pad_next_power_of_two(0);
    let side = dims[dims.len() - 1];
    let mask = AttentionMask::<Element>::new(side, -4096).with_span(span).unwrap();
    let output = to_field(&mask.evaluate_internal(&input, 0).unwrap());
    let input = to_field(&input);
    let vars: usize = input.shape.dims.iter().map(|d| d.trailing_zeros() as usize).sum();
    let point = rng.point(vars);
    let mut claim = Claim::new(point.clone(), mle_evaluate(&output.data, &point));
    if tamper {
        claim.eval = claim.eval.plus(F::one());
    }
    let padded_shape = input.shape.clone();
    let unpadded_shape = input.unpadded_shape.clone();
    let start = claim.eval;
    let claims = vec![claim];
    let inputs = vec![input];
    let (data, sumcheck) = mask.prove(&claims, &inputs).unwrap();
    let input = &inputs[0];
    // The sum over the cube is the claim.
    let size = 1usize << sumcheck.num_vars;
    let mut all = F::zero();
    for x in 0..size {
        let w: Vec<F> = sumcheck.tables.iter().map(|t| t[x]).collect();
        all = all.plus(total(&sumcheck.expressions, &w, &sumcheck.challenges));
    }
    if all != start {
        return Err(Error::EvaluationMismatch);
    }
    let end = rng.point(sumcheck.num_vars);
    let ends: Vec<F> = sumcheck.tables.iter().map(|t| mle_evaluate(t, &end)).collect();
    let expected = total(&sumcheck.expressions, &ends, &sumcheck.challenges);
    let dec = sumcheck.tables.len() == 5 + data.input_polys.len();
    let mut local_subclaim = None;
    let mut local_proof: Option<()> = None;
    if dec {
        let (upper, shift) = mask.local_mask_tables(&end).unwrap();
        let local_end = rng.point(sumcheck.num_vars / 2);
        let product = mle_evaluate(&upper, &local_end).times(mle_evaluate(&shift, &local_end));
        local_subclaim = Some(SubClaim { point: local_end, expected_evaluation: product });
        local_proof = Some(());
        // The sum of the products is what the verifier starts from.
        let sum = upper
            .iter()
            .zip(shift.iter())
            .fold(F::zero(), |acc, (a, b)| acc.plus(a.times(*b)));
        let half = end.len() / 2;
        let claimed = mask.additional_mask_claim(&end[half..], &end[..half], ends[4]).unwrap();
        assert_eq!(claimed, sum);
    }
    let (proof, input_claims) = mask.finish_proof(&data, dec, (), local_proof, &end, &ends);
    assert_eq!(input_claims[0].eval, mle_evaluate(&input.data, &input_claims[0].point));
    let context = mask.step_info::<F>(3, &vec![padded_shape.clone()]).unwrap();
    let accepted = context.verify(
        &proof,
        &claims,
        &vec![padded_shape.clone()],
        &vec![unpadded_shape.clone()],
        &SubClaim { point: end.clone(), expected_evaluation: expected },
        &local_subclaim,
    )?;
    assert_eq!(accepted[0].point, input_claims[0].point);
    assert_eq!(accepted[0].eval, input_claims[0].eval);
    let refused = context.verify(
        &proof,
        &claims,
        &vec![padded_shape],
        &vec![unpadded_shape],
        &SubClaim { point: end, expected_evaluation: expected.plus(F::one()) },
        &local_subclaim,
    );
    assert_eq!(refused.err(), Some(Error::EvaluationMismatch));
    Ok(())
}

#[test]
fn mod_test_attention_mask_proving() {
    let mut rng = Random(7);
    let dim = rng.range(3, 10);
    let heads = rng.range(3, 8);
    assert_eq!(prove_and_verify(&[heads, dim, dim], AttentionSpan::Full, 11, false), Ok(()));
}

#[test]
fn local_and_other_ranks_are_proved() {
    assert_eq!(prove_and_verify(&[5, 5], AttentionSpan::Full, 12, false), Ok(()));
    assert_eq!(prove_and_verify(&[3, 7, 7], AttentionSpan::Local(3), 13, false), Ok(()));
    assert_eq!(prove_and_verify(&[2, 3, 6, 6], AttentionSpan::Local(2), 14, false), Ok(()));
    assert_eq!(prove_and_verify(&[2, 3, 4, 4], AttentionSpan::Full, 15, false), Ok(()));
    // A claim that is off by one is not what the sumcheck sums to.
    assert_eq!(
        prove_and_verify(&[3, 4, 4], AttentionSpan::Full, 16, true),
        Err(Error::EvaluationMismatch)
    );
}

#[test]
fn a_span_is_smaller_than_the_mask() {
    let mask = AttentionMask::<Element>::new(4, -1);
    assert_eq!(mask.with_span(AttentionSpan::Local(4)).err(), Some(Error::SpanTooLarge));
    let mask = AttentionMask::<Element>::new(4, -1).with_span(AttentionSpan::Local(3)).unwrap();
    assert_eq!(mask.dim_size, 4);
    assert_eq!(mask.span, AttentionSpan::Local(3));
    let default = AttentionMask::<Element>::default();
    assert_eq!(default.negative_infinity, Element::MIN);
    assert_eq!(default.dim_size, 0);
    assert_eq!(default.span, AttentionSpan::default());
    assert_eq!(AttentionSpan::default(), AttentionSpan::Full);
}

#[test]
fn a_mask_is_quantised_by_a_common_minimum() {
    let mut mask = AttentionMask::new(4, f32::NEG_INFINITY);
    mask.set_negative_infinity(-1.5);
    assert_eq!(mask.negative_infinity, -1.5);
    assert_eq!(mask.quantize_op(&[-128, -128]).unwrap().negative_infinity, -128);
    let mask = AttentionMask::new(4, f32::NEG_INFINITY);
    assert_eq!(mask.quantize_op(&[-128, -127]).err(), Some(Error::InvalidScaling));
    let mask = AttentionMask::new(4, f32::NEG_INFINITY);
    assert_eq!(mask.quantize_op(&[]).err(), Some(Error::InvalidScaling));
}

#[test]
fn matrices_that_are_not_square_are_refused() {
    let mask = AttentionMask::<Element>::new(4, -1);
    let input = Tensor::new(shape(&[2, 3]), vec![1, 2, 3, 4, 5, 6]).unwrap();
    assert_eq!(mask.evaluate_internal(&input, 0).err(), Some(Error::InvalidShape));
    let input = Tensor::new(shape(&[3]), vec![1, 2, 3]).unwrap();
    assert_eq!(mask.evaluate_internal(&input, 0).err(), Some(Error::InvalidShape));
}

#[test]
fn a_window_is_kept_exactly() {
    // A token sees itself and the last token before it.
    let mask = AttentionMask::<Element>::new(3, -9).with_span(AttentionSpan::Local(1)).unwrap();
    let input = Tensor::new(shape(&[3, 3]), vec![1, 2, 3, 4, 5, 6, 7, 8, 9]).unwrap();
    let output = mask.evaluate_internal(&input, 0).unwrap();
    assert_eq!(output.data, vec![1, -9, -9, 4, 5, -9, -9, 8, 9]);
    let padded = input.pad_next_power_of_two(0);
    let output = mask.evaluate_internal(&padded, 5).unwrap();
    assert_eq!(
        output.data,
        vec![1, -9, -9, 5, 4, 5, -9, 5, -9, 8, 9, 5, 5, 5, 5, 5]
    );
    // A single row of a cache keeps the last tokens, of which its own is one.
    let mask = AttentionMask::<Element>::new(3, -9).with_span(AttentionSpan::Local(2)).unwrap();
    assert_eq!(
        mask.evaluate_internal(&input, 0).unwrap().data,
        vec![1, -9, -9, 4, 5, -9, 7, 8, 9]
    );
    let last = Tensor::new(shape(&[1, 3]), vec![7, 8, 9]).unwrap();
    assert_eq!(mask.evaluate_internal(&last, 0).unwrap().data, vec![-9, 8, 9]);
}

#[test]
fn a_window_reaches_back_from_each_token() {
    let n = 8usize;
    let mask = AttentionMask::<Element>::new(n, 0).with_span(AttentionSpan::Local(2)).unwrap();
    let input = Tensor::new(shape(&[n, n]), vec![1; n * n]).unwrap();
    let output = mask.evaluate_internal(&input, 0).unwrap();
    for i in 0..n {
        for j in 0..n {
            let kept = j <= i && i <= j + 2;
            assert_eq!(output.data[i * n + j], if kept { 1 } else { 0 });
        }
    }
    // The tables of the prover multiply to the mask.
    let tables = mask.make_mask_polys::<F>(n);
    assert_eq!(tables.len(), 2);
    for p in 0..n * n {
        assert_eq!(tables[0][p].times(tables[1][p]), F::from_i64(output.data[p]));
    }
}

#[test]
fn a_mask_takes_one_input_and_one_claim() {
    let mask = AttentionMask::<Element>::new(2, -1);
    assert_eq!(mask.prove::<F>(&vec![], &vec![]).err(), Some(Error::WrongNumberOfInputs));
    let input = to_field(&Tensor::new(shape(&[2, 2]), vec![1, 2, 3, 4]).unwrap());
    let inputs = vec![input];
    assert_eq!(mask.prove::<F>(&vec![], &inputs).err(), Some(Error::WrongNumberOfClaims));
    let claims = vec![Claim::new(vec![F::new(5)], F::new(6))];
    assert_eq!(mask.prove(&claims, &inputs).err(), Some(Error::WrongPointLength));
    let claim = Claim::new(vec![F::new(5)], F::new(6));
    assert_eq!(
        MaskProvingData::from_claims_and_input(&claim, &inputs[0]).err(),
        Some(Error::WrongPointLength)
    );
    assert_eq!(
        MaskVerifyingData::new_from_claim_and_shape_data(&claim, &shape(&[2, 2]), &shape(&[2, 2])).err(),
        Some(Error::WrongPointLength)
    );
    assert_eq!(mask.step_info::<F>(0, &vec![]).err(), Some(Error::WrongNumberOfInputs));
}

#[test]
fn a_full_mask_has_no_second_sumcheck() {
    let mask = AttentionMask::<Element>::new(2, -1);
    let point = vec![F::new(3), F::new(4)];
    assert_eq!(mask.local_mask_tables(&point).err(), Some(Error::UnexpectedProof));
    let proof = AttentionMaskProof {
        sumcheck_proof: (),
        evaluations: vec![F::one()],
        local_mask_proof: Some(()),
    };
    assert_eq!(mask.sumcheck_degree(&proof).err(), Some(Error::UnexpectedProof));
}

#[test]
fn the_shift_matrix_is_extended() {
    let mut rng = Random(21);
    let (row, col) = (rng.point(3), rng.point(3));
    for shift in 0..9usize {
        let table: Vec<F> = (0..64)
            .map(|p| if p / 8 == p % 8 + shift { F::one() } else { F::zero() })
            .collect();
        let mut point = col.clone();
        point.extend(row.iter().copied());
        assert_eq!(eval_shift_matrix(&row, &col, shift), mle_evaluate(&table, &point));
    }
    let lower: Vec<F> = (0..64).map(|p| if p % 8 <= p / 8 { F::one() } else { F::zero() }).collect();
    let mut point = col.clone();
    point.extend(row.iter().copied());
    assert_eq!(eval_zeroifier_mle(&col, &row), mle_evaluate(&lower, &point));
}
