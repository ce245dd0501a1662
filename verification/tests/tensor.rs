//! Tensors, caches, shapes, field elements and extensions.
use zkml::batching::batching_challenges;
use zkml::cache::{CachingInfo, ConcatenationCache};
use zkml::error::Error;
use zkml::field::PrimeField;
use zkml::goldilocks::Goldilocks;
use zkml::linear::matmul_bias;
use zkml::mle::{compute_betas_eval, fix_high_variables, fix_low_variables, identity_eval, mle_evaluate, to_bit_sequence_le};
use zkml::padding::PaddingMode;
use zkml::positional::rope::layout::RopeLayout;
use zkml::positional::rope::Rope;
use zkml::shape::{ceil_log2, ilog2, is_pow2, next_power_of_two, ravel, unravel, Shape};
use zkml::tensor::{Element, Tensor};
use zkml::triangular::eval_bounded;

type F = Goldilocks;

struct Random(u64);

impl Random {
    fn next(&mut self) -> u64 {
        self.0 = self.0.wrapping_add(0x9E37_79B9_7F4A_7C15);
        let mut z = self.0;
        z = (z ^ (z >> 30)).wrapping_mul(0xBF58_476D_1CE4_E5B9);
        z = (z ^ (z >> 27)).wrapping_mul(0x94D0_49BB_1331_11EB);
        z ^ (z >> 31)
    }

    fn range(&mut self, low: usize, high: usize) -> usize {
        low + (self.next() % (high - low) as u64) as usize
    }

    fn field(&mut self) -> F {
        F::new(self.next())
    }

    fn point(&mut self, n: usize) -> Vec<F> {
        (0..n).map(|_| self.field()).collect()
    }
}

fn shape(dims: &[usize]) -> Shape {
    Shape::new(dims.to_vec())
}

#[test]
fn test_cosine_and_sine_bounds() {
    let mut rng = Random(1);
    for _ in 0..20 {
        let num_angles = rng.range(16, 768);
        let angles: Vec<f32> = (0..num_angles)
            .map(|_| (rng.next() >> 40) as f32 / (1u64 << 24) as f32 * 2.0 * std::f32::consts::PI)
            .collect();
        let length = rng.range(2, 1024);
        let mut cosines = Vec::new();
        let mut sines = Vec::new();
        for i in 0..length {
            for angle in &angles {
                cosines.push((angle * i as f32).cos());
                sines.push((angle * i as f32).sin());
            }
        }
        let rope = Rope::<f32>::build_from_values(
            &cosines,
            &sines,
            "rope_angles_cosine".to_string(),
            "rope_angles_sine".to_string(),
            num_angles,
            length,
            RopeLayout::Adjacent,
        );
        assert_eq!(rope.unpadded_shape.dims, vec![length, 2 * num_angles]);
        for (c, s) in rope.cosine_matrix.tensor.data.iter().zip(rope.sine_matrix.tensor.data.iter()) {
            assert!(c.abs() <= 1.0 && s.abs() <= 1.0);
        }
    }
}

#[test]
fn tensors_hold_as_many_values_as_their_shape() {
    assert_eq!(Tensor::new(shape(&[2, 2]), vec![1, 2, 3]).err(), Some(Error::WrongNumberOfValues));
    let t = Tensor::new(shape(&[2, 3]), vec![1, 2, 3, 4, 5, 6]).unwrap();
    assert!(!t.is_padded());
    let padded = t.pad_next_power_of_two(9);
    assert_eq!(padded.shape.dims, vec![2, 4]);
    assert_eq!(padded.data, vec![1, 2, 3, 9, 4, 5, 6, 9]);
    assert!(padded.is_padded());
    assert_eq!(padded.reduce_to_unpadded_shape().data, t.data);
    let rows = t.cat(&Tensor::new(shape(&[1, 3]), vec![7, 8, 9]).unwrap(), 0).unwrap();
    assert_eq!(rows.data, vec![1, 2, 3, 4, 5, 6, 7, 8, 9]);
    let cols = t.cat(&Tensor::new(shape(&[2, 1]), vec![7, 8]).unwrap(), 1).unwrap();
    assert_eq!(cols.data, vec![1, 2, 3, 7, 4, 5, 6, 8]);
    let other = Tensor::new(shape(&[2, 1]), vec![7, 8]).unwrap();
    assert_eq!(t.cat(&other, 0).err(), Some(Error::InvalidShape));
}

#[test]
fn a_cache_appends_along_its_dimension() {
    let mut cache = ConcatenationCache::new(2, 0, PaddingMode::NoPadding);
    assert!(!cache.is_initialized());
    assert_eq!(cache.cache_info(), (2, 0));
    assert_eq!(cache.get_cached(0).err(), Some(Error::NotInitialized));
    let first = Tensor::new(shape(&[2, 2]), vec![1, 2, 3, 4]).unwrap();
    assert_eq!(cache.concatenate(&first, 0).unwrap().data, vec![1, 2, 3, 4]);
    assert_eq!(cache.current_sequence_length(), 2);
    let next = Tensor::new(shape(&[1, 2]), vec![5, 6]).unwrap();
    let announced = cache.next_shape(next.shape.clone(), PaddingMode::NoPadding).unwrap();
    let all = cache.concatenate(&next, 0).unwrap();
    assert_eq!(all.data, vec![1, 2, 3, 4, 5, 6]);
    assert_eq!(all.shape, announced);
    assert_eq!(cache.get_cached(0).unwrap().data, all.data);
    let padded = cache.next_shape(shape(&[2, 3]), PaddingMode::Padding).unwrap();
    assert_eq!(padded.dims, vec![8, 4]);
    // A tensor that does not fit leaves the cache empty.
    let wide = Tensor::new(shape(&[1, 3]), vec![5, 6, 7]).unwrap();
    assert_eq!(cache.concatenate(&wide, 0).err(), Some(Error::InvalidShape));
    assert!(!cache.is_initialized());
    assert_eq!(cache.current_sequence_length(), 0);
}

#[test]
fn a_cache_pads_what_leaves_it() {
    let mut cache = ConcatenationCache::new_dynamic(-2, PaddingMode::NoPadding);
    let line = Tensor::new(shape(&[1]), vec![5]).unwrap();
    assert_eq!(cache.concatenate(&line, 0).err(), Some(Error::DimensionOutOfBounds));
    cache.set_padding_mode(PaddingMode::Padding);
    let row = |x: Element| Tensor::new(shape(&[1, 3]), vec![x, x, x]).unwrap();
    cache.concatenate(&row(1).pad_next_power_of_two(0), 0).unwrap();
    cache.concatenate(&row(2), 0).unwrap();
    let all = cache.concatenate(&row(3), 0).unwrap();
    assert_eq!(all.shape.dims, vec![4, 4]);
    assert_eq!(all.data, vec![1, 1, 1, 0, 2, 2, 2, 0, 3, 3, 3, 0, 0, 0, 0, 0]);
    assert_eq!(all.unpadded_shape.dims, vec![3, 3]);
    cache.reset();
    assert!(!cache.is_initialized());
    assert_eq!(CachingInfo::new_dynamic(1).get_concatenation_dim(3), Ok(1));
    assert_eq!(CachingInfo::new_dynamic(3).get_concatenation_dim(3), Err(Error::DimensionOutOfBounds));
    assert_eq!(CachingInfo::new_static(3, 1).get_concatenation_dim(7), Ok(1));
}

#[test]
fn tensors_are_joined_one_after_the_other() {
    for (dim, mode) in [
        (0isize, PaddingMode::NoPadding),
        (1, PaddingMode::NoPadding),
        (-1, PaddingMode::Padding),
        (-3, PaddingMode::Padding),
    ] {
        let mut cache = ConcatenationCache::new_dynamic(dim, mode);
        let axis = if dim < 0 { (3 + dim) as usize } else { dim as usize };
        let mut at = 0usize;
        let mut parts: Vec<Tensor<Element>> = Vec::new();
        for (n, size) in [2usize, 1, 3].into_iter().enumerate() {
            let mut dims = vec![2, 3, 2];
            dims[axis] = size;
            let count: usize = dims.iter().product();
            let data = (0..count as Element).map(|x| 100 * (n as Element + 1) + x).collect();
            let part = Tensor::new(shape(&dims), data).unwrap();
            // In padding mode a tensor may come padded; its padding is not cached.
            let given = if mode == PaddingMode::Padding && n == 1 {
                part.pad_next_power_of_two(7)
            } else {
                part.duplicate()
            };
            let announced = cache.next_shape(part.shape.clone(), mode).unwrap();
            let all = cache.concatenate(&given, 0).unwrap();
            assert_eq!(all.shape, announced);
            assert_eq!(cache.get_cached(0).unwrap(), all);
            at += size;
            assert_eq!(cache.current_sequence_length(), at);
            parts.push(part);
            let all = all.reduce_to_unpadded_shape();
            let mut joined = vec![2, 3, 2];
            joined[axis] = at;
            assert_eq!(all.shape.dims, joined);
            // The values of each part stand behind those of the parts before it.
            let mut before = 0usize;
            for part in &parts {
                let d = &part.shape.dims;
                for p in 0..part.data.len() {
                    let mut idx = [p / (d[1] * d[2]), p / d[2] % d[1], p % d[2]];
                    idx[axis] += before;
                    let place = (idx[0] * joined[1] + idx[1]) * joined[2] + idx[2];
                    assert_eq!(all.data[place], part.data[p]);
                }
                before += d[axis];
            }
        }
        assert!(cache.is_initialized());
    }
}

#[test]
fn the_first_tensor_comes_back_as_it_is() {
    let padded = Tensor::new(shape(&[3, 3]), vec![1; 9]).unwrap().pad_next_power_of_two(0);
    let mut cache = ConcatenationCache::new(2, 0, PaddingMode::NoPadding);
    assert_eq!(cache.concatenate(&padded, 0).unwrap(), padded);
    cache.set_padding_mode(PaddingMode::Padding);
    assert!(!cache.is_initialized());
    assert_eq!(cache.concatenate(&padded, 0).unwrap(), padded);
    assert_eq!(cache.current_sequence_length(), 3);
}

#[test]
fn shapes_are_ravelled_and_split() {
    let s = shape(&[3, 5]);
    assert_eq!(s.numel(), 15);
    assert_eq!(s.next_power_of_two().dims, vec![4, 8]);
    assert_eq!(ravel(&s.dims, &vec![2, 4]), 14);
    assert_eq!(unravel(&s.dims, 7), vec![1, 2]);
    let point: Vec<u8> = vec![1, 2, 3, 4, 5];
    let parts = s.next_power_of_two().split_point(&point).unwrap();
    assert_eq!(parts, vec![vec![4, 5], vec![1, 2, 3]]);
    assert_eq!(s.split_point(&point[..4]).err(), Some(Error::WrongPointLength));
    assert_eq!((ceil_log2(1), ceil_log2(5), ceil_log2(8)), (0, 3, 3));
    assert_eq!((ilog2(1), ilog2(5), ilog2(8)), (0, 2, 3));
    assert_eq!((next_power_of_two(5), next_power_of_two(8)), (8, 8));
    assert!(is_pow2(8) && !is_pow2(6));
}

#[test]
fn field_elements_are_residues() {
    let p = 0xFFFF_FFFF_0000_0001u64;
    assert_eq!(F::new(p), F::zero());
    assert_eq!(F::new(p - 1).plus(F::new(2)), F::one());
    assert_eq!(F::zero().minus(F::one()), F::new(p - 1));
    assert_eq!(F::from_i64(-1), F::new(p - 1));
    assert_eq!(F::from_i64(i64::MIN).plus(F::from_u64(1 << 63)), F::zero());
    assert_eq!(F::new(p - 1).times(F::new(p - 1)), F::one());
    assert_eq!(F::half().plus(F::half()), F::one());
    let x = F::new(0x1234_5678_9ABC_DEF0);
    assert_eq!(x.times(x.inverse().unwrap()), F::one());
    assert_eq!(F::zero().inverse(), None);
    assert!(F::new(5).is_same(F::new(5)) && !F::new(5).is_same(F::new(6)));
}

#[test]
fn extensions_take_the_values_of_their_tables() {
    let mut rng = Random(2);
    let table = rng.point(8);
    for n in 0..8usize {
        assert_eq!(mle_evaluate(&table, &to_bit_sequence_le::<F>(n, 3)), table[n]);
    }
    let point = rng.point(3);
    let betas = compute_betas_eval(&point);
    let sum = betas.iter().zip(table.iter()).fold(F::zero(), |acc, (b, t)| acc.plus(b.times(*t)));
    assert_eq!(sum, mle_evaluate(&table, &point));
    let other = rng.point(3);
    assert_eq!(identity_eval(&point, &other), mle_evaluate(&betas, &other));
    let low = fix_low_variables(&table, &point[..1], 4);
    assert_eq!(mle_evaluate(&low, &point[1..]), sum);
    let high = fix_high_variables(&table, &point[1..], 2);
    assert_eq!(mle_evaluate(&high, &point[..1]), sum);
    // The first bits of an index, bounded.
    let bound: Vec<F> = (0..8).map(|i| if i < 5 { F::one() } else { F::zero() }).collect();
    assert_eq!(eval_bounded(&point, 5), mle_evaluate(&bound, &point));
}

#[test]
fn matrices_are_multiplied() {
    let a = Tensor::new(shape(&[2, 2]), vec![1, 2, 3, 4]).unwrap();
    let b = Tensor::new(shape(&[2, 3]), vec![1, 0, -1, 2, 1, 0]).unwrap();
    assert_eq!(matmul_bias(&a, &b, None).data, vec![5, 2, -1, 11, 4, -3]);
    assert_eq!(matmul_bias(&a, &b, Some(&vec![1, 1, 1])).data, vec![6, 3, 0, 12, 5, -2]);
}

#[test]
fn factors_of_the_unpadded_places_are_listed() {
    let mut rng = Random(3);
    // The factors of a batch of three by two, padded to four by two.
    let points = vec![rng.point(2), rng.point(1)];
    let factors = batching_challenges(&points, &vec![3, 2]);
    let (a, b) = (compute_betas_eval(&points[0]), compute_betas_eval(&points[1]));
    assert_eq!(factors.len(), 6);
    for i in 0..3 {
        for j in 0..2 {
            assert_eq!(factors[i * 2 + j], a[i].times(b[j]));
        }
    }
}
