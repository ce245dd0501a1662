//! The choice of tokens: evaluation, the looked up distances, proving and verifying.
use zkml::claim::{Claim, SubClaim};
use zkml::error::Error;
use zkml::expression::Expression;
use zkml::field::PrimeField;
use zkml::goldilocks::Goldilocks;
use zkml::logits::verify::{accumulate_fractions, LogitsChunk};
use zkml::logits::witness::chunk_of;
use zkml::logits::{ArgmaxData, ArgmaxHandle, Logits, LogitsCtx, QuantizedArgMaxData};
use zkml::lookup::Table;
use zkml::mle::mle_evaluate;
use zkml::padding::ShapeData;
use zkml::shape::Shape;
use zkml::tensor::{Element, KeyedTensor, Tensor};

type F = Goldilocks;

struct Random(u64);

impl Random {
    fn next(&mut self) -> u64 {
        self.0 = self.0.wrapping_add(0x9E37_79B9_7F4A_7C15);
        let mut z = self.0;
        z = (z ^ (z >> 30)).wrapping_mul(0xBF58_476D_1CE4_E5B9);
        z = (z ^ (z >> 27)).wrapping_mul(0x94D0_49BB_1331_11EB);
        z ^ (z >> 31)
    }

    fn range(&mut self, low: usize, high: usize) -> usize {
        low + (self.next() % (high - low) as u64) as usize
    }

    fn element(&mut self) -> Element {
        (self.next() % 255) as Element - 127
    }

    fn elements(&mut self, n: usize) -> Vec<Element> {
        (0..n).map(|_| self.element()).collect()
    }

    fn field(&mut self) -> F {
        F::new(self.next())
    }

    fn point(&mut self, n: usize) -> Vec<F> {
        (0..n).map(|_| self.field()).collect()
    }
}

fn shape(dims: &[usize]) -> Shape {
    Shape::new(dims.to_vec())
}

fn to_field(t: &Tensor<Element>) -> Tensor<F> {
    Tensor {
        data: t.data.iter().map(|x| F::from_i64(*x)).collect(),
        shape: t.shape.clone(),
        unpadded_shape: t.unpadded_shape.clone(),
    }
}

fn value(e: &Expression<F>, w: &[F], c: &[F]) -> F {
    match e {
        Expression::WitIn(i) => w[*i],
        Expression::Challenge(i) => c[*i],
        Expression::Constant(k) => *k,
        Expression::Sum(a, b) => value(a, w, c).plus(value(b, w, c)),
        Expression::Difference(a, b) => value(a, w, c).minus(value(b, w, c)),
        Expression::Product(a, b) => value(a, w, c).times(value(b, w, c)),
    }
}

#[test]
fn test_logits_argmax() {
    let input = Tensor::new(shape(&[3, 2]), vec![0, 1, 3, 2, 4, 5]).unwrap();
    let logits = Logits::Argmax(None);
    let (out, data) = logits.evaluate(&vec![input]).unwrap();
    assert_eq!(out[0].data, vec![1, 0, 1]);
    assert_eq!(out[0].shape.dims, vec![3, 1]);
    assert_eq!(data.max_values[0].data, vec![1, 3, 5]);
}

#[test]
fn test_logits_argmax_higher_rank() {
    let mut data = Vec::new();
    for r in 0..6 {
        for c in 0..4 {
            data.push(if c == r % 4 { 10 } else { c as Element });
        }
    }
    let input = Tensor::new(shape(&[2, 3, 4]), data).unwrap();
    let (out, _) = Logits::Argmax(None).evaluate(&vec![input]).unwrap();
    assert_eq!(out[0].data.len(), 6);
    for (r, idx) in out[0].data.iter().enumerate() {
        assert_eq!(*idx as usize, r % 4);
    }
}

#[test]
fn prop_logits_argmax_element() {
    let mut rng = Random(1);
    for _ in 0..200 {
        let (d1, d2, last) = (rng.range(1, 4), rng.range(1, 4), rng.range(2, 9));
        let dims = if rng.next() % 2 == 0 { vec![d1, d2, last] } else { vec![d1, last] };
        let rows: usize = dims[..dims.len() - 1].iter().product();
        let mut data: Vec<Element> = (0..rows * last).map(|_| rng.range(0, 10) as Element).collect();
        let mut expected = Vec::new();
        for r in 0..rows {
            let at = rng.range(0, last);
            data[r * last + at] += 1000;
            expected.push(at as Element);
        }
        let input = Tensor::new(Shape::new(dims), data).unwrap();
        let (out, _) = Logits::Argmax(None).evaluate(&vec![input]).unwrap();
        assert_eq!(out[0].data, expected);
    }
}

#[test]
fn the_first_of_equal_maxima_is_chosen() {
    let input = Tensor::new(shape(&[2, 3]), vec![4, 4, 1, -5, -7, -5]).unwrap();
    let (out, data) = Logits::new_argmax().evaluate(&vec![input]).unwrap();
    assert_eq!(out[0].data, vec![0, 0]);
    assert_eq!(data.max_values[0].data, vec![4, -5]);
    // Padding of the last dimension is never chosen.
    let input = Tensor::new(shape(&[1, 3]), vec![-3, -2, -9]).unwrap().pad_next_power_of_two(0);
    let (out, data) = Logits::new_argmax().evaluate(&vec![input]).unwrap();
    assert_eq!(out[0].data, vec![1]);
    assert_eq!(data.max_values[0].data, vec![-2]);
}

/// Proves and verifies the rows of an input with an honest lookup and an honest sumcheck.
fn prove_and_verify(
    input: Tensor<Element>,
    domain: (Element, Element),
    chunk: Option<(usize, usize)>,
    wrong_token: bool,
    rng: &mut Random,
) -> Result<(), Error> {
    prove_and_verify_at(input, domain, chunk, wrong_token, false, rng)
}

/// As `prove_and_verify`; with `vanish` the sumcheck ends where the tokens have the factor
/// zero.
fn prove_and_verify_at(
    input: Tensor<Element>,
    domain: (Element, Element),
    chunk: Option<(usize, usize)>,
    wrong_token: bool,
    vanish: bool,
    rng: &mut Random,
) -> Result<(), Error> {
    let layer = Logits::Argmax(None).quantize_op(&vec![domain]).unwrap();
    let plain = vec![input];
    let (out, data) = layer.evaluate(&plain).unwrap();
    let padded = plain[0].pad_next_power_of_two(0);
    let mut tokens = out[0].pad_next_power_of_two(0);
    if wrong_token {
        tokens.data[0] = (tokens.data[0] + 1) % plain[0].shape.dims[1] as Element;
    }
    let (context, _, _) = layer.step_info(&vec![padded.shape.clone()]).unwrap();
    assert_eq!(context.lookup_tables(), vec![Table::new_shift_check()]);
    let width = plain[0].shape.dims[1];
    let padded_shape = padded.shape.clone();
    let unpadded_shape = plain[0].shape.clone();
    let padded_inputs = vec![padded];
    let witness = layer.gen_lookup_witness::<F>(&padded_inputs, &data).unwrap();
    let maxima = &witness.polys[0];
    let field_input = to_field(&padded_inputs[0]);
    let columns = Logits::build_lookup_input(&witness.polys, &field_input, width);
    assert_eq!(columns.len(), context.range_check_chunks);
    // Every column holds values of the table, as often as they are counted.
    let mut looked_up = std::collections::HashMap::new();
    for column in &columns {
        for x in column {
            assert!(x.value() < 1 << 16);
            *looked_up.entry(x.value() as Element).or_insert(0u64) += 1;
        }
    }
    assert_eq!(looked_up, witness.element_count);
    let (count, vars) = context.lookup_instances(&vec![padded_shape.clone()]).unwrap();
    assert_eq!(count, columns.len());
    assert_eq!(1usize << (vars + 1), field_input.data.len());
    let lookup_point = rng.point(vars + 1);
    let lookup_evals: Vec<F> = columns.iter().map(|c| mle_evaluate(c, &lookup_point)).collect();
    let logup_claims: Vec<Claim<F>> =
        lookup_evals.iter().map(|e| Claim::new(lookup_point.clone(), *e)).collect();
    let outputs = vec![tokens];
    let sumcheck = layer.prove(&padded_inputs, &outputs, maxima, &logup_claims).unwrap();
    let challenge = rng.field();
    let size = field_input.data.len();
    let mut all = F::zero();
    for x in 0..size {
        let w: Vec<F> = sumcheck.tables.iter().map(|t| t[x]).collect();
        all = all.plus(value(&sumcheck.expression, &w, &[challenge]));
    }
    let start = LogitsCtx::hadamard_claim(challenge, &sumcheck.diff_claim);
    if all != start {
        return Err(Error::EvaluationMismatch);
    }
    let mut end = rng.point(vars + 1);
    if vanish {
        // r x + (1 - r) (1 - x) = 0
        let r = lookup_point[vars];
        let slope = r.plus(r).minus(F::one()).inverse().unwrap();
        end[vars] = r.minus(F::one()).times(slope);
    }
    let ends: Vec<F> = sumcheck.tables.iter().map(|t| mle_evaluate(t, &end)).collect();
    let expected = value(&sumcheck.expression, &ends, &[challenge]);
    let commitments = vec![(); witness.polys.len()];
    let col_vars = padded_shape.dims[1].trailing_zeros() as usize;
    let (proof, witness_claims, input_claim) =
        layer.finish_proof((), commitments, (), &logup_claims, col_vars, &end, &ends);
    assert_eq!(input_claim.eval, mle_evaluate(&field_input.data, &input_claim.point));
    for (c, t) in witness_claims.iter().zip(witness.polys.iter()) {
        assert_eq!(c.eval, mle_evaluate(t, &c.point));
    }
    let mut whole = outputs;
    let (split_outputs, chunk_number) = match chunk {
        Some((number, total)) => {
            let part = whole.remove(0);
            let mut parts: Vec<Tensor<Element>> =
                (0..total).map(|_| Tensor::new(shape(&[1, 1]), vec![0]).unwrap()).collect();
            let rows = part.shape.dims[0];
            parts[number] = part;
            whole.push(Tensor::new(shape(&[rows, 1]), vec![0; rows]).unwrap());
            (Some(parts), number)
        }
        None => (None, 0),
    };
    let instance = LogitsChunk {
        padded_input_shapes: vec![padded_shape],
        unpadded_input_shapes: vec![unpadded_shape],
        lookup_point,
        lookup_evals,
        challenge,
        subclaim: SubClaim { point: end, expected_evaluation: expected },
        outputs: whole,
        split_outputs,
        chunk_number,
    };
    let (claims, accepted) = context.verify_chunk(&proof, &instance)?;
    assert_eq!(claims.len(), witness_claims.len());
    for (a, b) in claims.iter().zip(witness_claims.iter()) {
        assert_eq!(a.point, b.point);
        assert_eq!(a.eval, b.eval);
    }
    assert_eq!(accepted.point, input_claim.point);
    assert_eq!(accepted.eval, input_claim.eval);
    let mut instance = instance;
    if !vanish && input_claim.eval != F::zero() {
        let outputs = std::mem::take(&mut instance.outputs);
        let refused = context.verify_chunk(&proof, &instance);
        assert_eq!(refused.err(), Some(Error::WrongNumberOfInputs));
        instance.outputs = outputs;
    }
    let mut short = proof;
    short.commitments.pop();
    let refused = context.verify_chunk(&short, &instance);
    assert_eq!(refused.err(), Some(Error::WrongNumberOfCommitments));
    Ok(())
}

#[test]
fn test_proven_logits_argmax() {
    let mut rng = Random(2);
    let (seq_len, vocab_size) = (13usize, 17usize);
    let data = rng.elements(seq_len * vocab_size);
    let input = Tensor::new(shape(&[seq_len, vocab_size]), data).unwrap();
    assert_eq!(prove_and_verify(input, (-128, 127), None, false, &mut rng), Ok(()));
}

#[test]
fn test_proven_null_logits_argmax() {
    let mut rng = Random(3);
    let (seq_len, vocab_size) = (13usize, 17usize);
    let input = Tensor::new(shape(&[seq_len, vocab_size]), vec![0; seq_len * vocab_size]).unwrap();
    assert_eq!(prove_and_verify(input, (-128, 127), None, false, &mut rng), Ok(()));
}

#[test]
fn a_factor_that_vanishes_leaves_the_first_token() {
    let mut rng = Random(4);
    // The first token has the largest logit in every row.
    let data = (0..8 * 4).map(|p| if p % 4 == 0 { 100 } else { p as Element }).collect();
    let input = Tensor::new(shape(&[8, 4]), data).unwrap();
    assert_eq!(prove_and_verify_at(input, (-128, 127), None, false, true, &mut rng), Ok(()));
    let data = (0..8 * 4).map(|p| if p % 4 == 1 { 100 } else { p as Element }).collect();
    let input = Tensor::new(shape(&[8, 4]), data).unwrap();
    assert_eq!(
        prove_and_verify_at(input, (-128, 127), None, false, true, &mut rng),
        Err(Error::EvaluationMismatch)
    );
}

fn product(seq_len: usize, vocab_size: usize, hidden_size: usize, rng: &mut Random) -> Tensor<Element> {
    let a = rng.elements(seq_len * hidden_size);
    let b = rng.elements(hidden_size * vocab_size);
    let mut data = Vec::new();
    for i in 0..seq_len {
        for j in 0..vocab_size {
            data.push((0..hidden_size).map(|k| a[i * hidden_size + k] * b[k * vocab_size + j]).sum());
        }
    }
    Tensor::new(shape(&[seq_len, vocab_size]), data).unwrap()
}

#[test]
fn test_proven_argmax_after_einsum() {
    let mut rng = Random(4);
    let input = product(13, 17, 23, &mut rng);
    let bound = 23 * 128 * 128;
    assert_eq!(prove_and_verify(input, (-bound, bound), None, false, &mut rng), Ok(()));
}

#[test]
fn test_chunked_argmax() {
    let mut rng = Random(5);
    let seq_len = rng.range(17, 95);
    let (vocab_size, hidden_size, min_rows) = (17usize, 23usize, 4usize);
    let input = product(seq_len, vocab_size, hidden_size, &mut rng);
    let bound = 23 * 128 * 128;
    let context = LogitsCtx { range_check_chunks: 2 };
    let chunks = context.ideal_num_chunks(&vec![input.shape.clone()], Some(min_rows)).unwrap();
    assert_eq!(chunks, (seq_len + min_rows - 1) / min_rows);
    let total = 6usize;
    let rows = (seq_len + total - 1) / total;
    let mut number = 0;
    for data in input.data.chunks(rows * vocab_size) {
        let part = Tensor::new(shape(&[data.len() / vocab_size, vocab_size]), data.to_vec()).unwrap();
        let chunk = Some((number, total));
        assert_eq!(prove_and_verify(part, (-bound, bound), chunk, false, &mut rng), Ok(()));
        number += 1;
    }
}

#[test]
fn a_token_that_is_not_the_maximum_does_not_sum_to_the_claim() {
    let mut rng = Random(6);
    let data = rng.elements(4 * 5);
    let input = Tensor::new(shape(&[4, 5]), data).unwrap();
    assert_eq!(
        prove_and_verify(input, (-128, 127), None, true, &mut rng),
        Err(Error::EvaluationMismatch)
    );
}

#[test]
fn output_claims_are_checked_against_the_tokens() {
    let tokens = Tensor::new(shape(&[2, 1]), vec![2, 1]).unwrap();
    let mut rng = Random(7);
    let point = rng.point(3);
    let table: Vec<F> = [0, 0, 1, 0, 0, 1, 0, 0].iter().map(|x| F::new(*x)).collect();
    let right = Claim::new(point.clone(), mle_evaluate(&table, &point));
    let outputs = vec![tokens];
    assert_eq!(LogitsCtx::verify_output_evaluation(&outputs, &None, &right, 3, 0), Ok(()));
    let wrong = Claim::new(point.clone(), right.eval.plus(F::one()));
    assert_eq!(
        LogitsCtx::verify_output_evaluation(&outputs, &None, &wrong, 3, 0),
        Err(Error::EvaluationMismatch)
    );
    assert_eq!(
        LogitsCtx::verify_output_evaluation(&outputs, &None, &right, 2, 0),
        Err(Error::TokenOutOfRange)
    );
    let odd = vec![Tensor::new(shape(&[3, 1]), vec![0, 0, 0]).unwrap()];
    assert_eq!(
        LogitsCtx::verify_output_evaluation(&odd, &None, &right, 2, 0),
        Err(Error::InvalidShape)
    );
    assert_eq!(
        LogitsCtx::verify_output_evaluation(&vec![], &None, &right, 2, 0),
        Err(Error::WrongNumberOfInputs)
    );
}

#[test]
fn chunk_claims_are_recombined() {
    let point = vec![F::new(9)];
    let claims = vec![Claim::new(point.clone(), F::new(3)), Claim::new(point.clone(), F::new(2))];
    let whole = Logits::recombine_range_check_claims(&claims).unwrap();
    assert_eq!(whole.eval, F::new(3 + 2 * 65536));
    assert_eq!(whole.point, point);
    let none: Vec<Claim<F>> = Vec::new();
    assert_eq!(
        Logits::recombine_range_check_claims(&none).err(),
        Some(Error::WrongNumberOfClaims)
    );
    let apart = vec![Claim::new(point, F::new(3)), Claim::new(vec![F::new(8)], F::new(2))];
    assert_eq!(
        Logits::recombine_range_check_claims(&apart).err(),
        Some(Error::DifferentPoints)
    );
    assert_eq!(chunk_of(0x1_2345, 0), 0x2345);
    assert_eq!(chunk_of(0x1_2345, 1), 1);
}

#[test]
fn fractions_are_added_up() {
    // 1/2 + 1/3 + 1/4 = 26/24
    let n = vec![F::new(1), F::new(1)];
    let d = vec![F::new(3), F::new(4)];
    let (a, b) = accumulate_fractions(&n, &d, (F::new(1), F::new(2))).unwrap();
    assert_eq!(a.times(F::new(24)), b.times(F::new(26)));
    let zero = vec![F::new(3), F::zero()];
    assert_eq!(
        accumulate_fractions(&n, &zero, (F::new(1), F::new(2))).err(),
        Some(Error::ZeroDenominator)
    );
}

#[test]
fn a_chunk_starts_with_its_fractions() {
    let layer = Logits::Argmax(None).quantize_op(&vec![(-128, 127)]).unwrap();
    let (context, _, _) = layer.step_info(&vec![shape(&[4, 8])]).unwrap();
    let shapes = vec![shape(&[4, 8])];
    let n = vec![F::new(1)];
    let start = (F::zero(), F::one());
    let ((count, vars), sum) = context.start_chunk(&shapes, &n, &vec![F::new(3)], start).unwrap();
    assert_eq!((count, vars), (context.range_check_chunks, 4));
    assert_eq!(sum, (F::new(1), F::new(3)));
    assert_eq!(
        context.start_chunk(&shapes, &n, &vec![F::zero()], start).err(),
        Some(Error::ZeroDenominator)
    );
    assert_eq!(
        context.start_chunk(&vec![], &n, &vec![F::zero()], start).err(),
        Some(Error::WrongNumberOfInputs)
    );
}

#[test]
fn layers_are_quantised_and_padded() {
    let layer = Logits::new_argmax().quantize_op(&vec![(-128, 127)]).unwrap();
    assert_eq!(layer, Logits::Argmax(Some(QuantizedArgMaxData { input_bit_size: 7 })));
    assert_eq!(layer.range_check_chunks(), 1);
    let wide = Logits::Argmax(Some(QuantizedArgMaxData { input_bit_size: 16 }));
    assert_eq!(wide.range_check_chunks(), 2);
    assert_eq!(Logits::new_argmax().quantize_op(&vec![]).err(), Some(Error::InvalidScaling));
    let shapes = Logits::output_shapes(&vec![shape(&[2, 3, 4])]);
    assert_eq!(shapes[0].dims, vec![6, 1]);
    let data = |ignore| ShapeData {
        input_shape_og: shape(&[3, 5]),
        input_shape_padded: shape(&[4, 8]),
        ignore_garbage_pad: ignore,
    };
    let padded = layer.pad_node(&vec![data(false)]).unwrap();
    assert_eq!(padded[0].input_shape_og.dims, vec![3, 1]);
    assert_eq!(padded[0].input_shape_padded.dims, vec![4, 1]);
    assert_eq!(layer.pad_node(&vec![data(true)]).err(), Some(Error::InvalidShape));
    assert_eq!(layer.step_info(&vec![]).err(), Some(Error::WrongNumberOfInputs));
    let (_, largest, _) = wide.step_info(&vec![shape(&[4, 8])]).unwrap();
    assert_eq!(largest, 32);
    let (_, largest, _) = layer.step_info(&vec![shape(&[4, 8])]).unwrap();
    assert_eq!(largest, 4);
    let context = LogitsCtx { range_check_chunks: 1 };
    let two = vec![shape(&[4, 8]), shape(&[4, 8])];
    assert_eq!(context.ideal_num_chunks(&two, Some(4)), None);
    assert_eq!(context.ideal_num_chunks(&vec![shape(&[300, 8])], None), Some(3));
}

#[test]
fn only_matrices_have_a_token() {
    let line = Tensor::new(shape(&[3]), vec![1, 2, 3]).unwrap();
    assert_eq!(Logits::new_argmax().evaluate(&vec![line]).err(), Some(Error::InvalidShape));
    let layer = Logits::Argmax(Some(QuantizedArgMaxData { input_bit_size: 7 }));
    let none: Vec<Claim<F>> = Vec::new();
    assert_eq!(
        layer.prove(&vec![], &vec![], &vec![], &none).err(),
        Some(Error::WrongNumberOfInputs)
    );
    let input = Tensor::new(shape(&[2, 2]), vec![1, 2, 3, 4]).unwrap();
    let inputs = vec![input];
    let (_, data) = layer.evaluate(&inputs).unwrap();
    let refused = Logits::new_argmax().gen_lookup_witness::<F>(&inputs, &data);
    assert_eq!(refused.err(), Some(Error::NotQuantised));
}

#[test]
fn maxima_are_grouped_by_chunk() {
    let one = |x: Element| Tensor::new(shape(&[1, 1]), vec![x]).unwrap();
    let data = ArgmaxData { max_values: vec![one(1), one(2)] };
    let handle = ArgmaxHandle::new(vec!["a".to_string(), "b".to_string()], data);
    assert_eq!(handle.max_values[1].key, "b");
    assert_eq!(handle.max_values[1].tensor.data, vec![2]);
    let part = |key: &str, x: Element| KeyedTensor::new(key.to_string(), one(x));
    let parts = vec![
        part("a-0", 10),
        part("a-1", 11),
        part("a-2", 12),
        part("b-0", 20),
        part("b-1", 21),
        part("b-2", 22),
    ];
    let chunks = ArgmaxHandle::split_tensors(parts, 3, 2);
    assert_eq!(chunks.len(), 3);
    let keys: Vec<&str> = chunks[1].max_values.iter().map(|t| t.key.as_str()).collect();
    assert_eq!(keys, vec!["a-1", "b-1"]);
    assert_eq!(chunks[2].max_values[0].tensor.data, vec![12]);
}
