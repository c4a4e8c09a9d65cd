use wbte::curve::{
    Element, Fr, G1Point, G2Point, GtElement, Recorded, ScalarGenerator, ScalarRng, SystemRng, G1, G2,
};
use wbte::fft::Radix2Domain;
use wbte::naf::{mul_gt, width_five_naf};
use wbte::points::{batch_normalize_g1, batch_normalize_g2};
use wbte::sampling::{draw, draw_nonzero, sample_nonzero};
use wbte::small::{mul_group_signed_small, mul_gt_signed_small};

#[test]
fn g1_batch_normalization_matches_individual_conversion() {
    let projective = (0..32)
        .map(|index| {
            if index % 11 == 0 {
                G1::zero()
            } else {
                G1::generator().times(Fr::from_u64((index + 1) as u64))
            }
        })
        .collect::<Vec<_>>();
    let expected = projective.iter().map(|point| point.to_affine()).collect::<Vec<_>>();
    assert_eq!(batch_normalize_g1(&projective), expected);
}

#[test]
fn g2_batch_normalization_matches_individual_conversion() {
    let projective = (0..32)
        .map(|index| {
            if index % 11 == 0 {
                G2::zero()
            } else {
                G2::generator().times(Fr::from_u64((index + 1) as u64))
            }
        })
        .collect::<Vec<_>>();
    let expected = projective.iter().map(|point| point.to_affine()).collect::<Vec<_>>();
    assert_eq!(batch_normalize_g2(&projective), expected);
}

#[test]
fn scalar_round_trip() {
    let domain = Radix2Domain::new(16).unwrap();
    let before = (0..16).map(|value| Fr::from_u64(value + 1)).collect::<Vec<_>>();
    let mut transformed = before.clone();
    domain.fft(&mut transformed);
    domain.ifft(&mut transformed);
    assert_eq!(transformed, before);
}

#[test]
fn source_group_round_trip() {
    let domain = Radix2Domain::new(8).unwrap();
    let before =
        (0..8).map(|value| G1::generator().times(Fr::from_u64(value + 1))).collect::<Vec<_>>();
    let mut transformed = before.clone();
    domain.fft(&mut transformed);
    domain.ifft(&mut transformed);
    assert_eq!(transformed, before);
}

#[test]
fn target_group_round_trip() {
    let domain = Radix2Domain::new(8).unwrap();
    let before = (0..8)
        .map(|value| GtElement::generator().times(Fr::from_u64(value + 1)))
        .collect::<Vec<_>>();
    let mut transformed = before.clone();
    domain.fft(&mut transformed);
    domain.ifft(&mut transformed);
    assert_eq!(transformed, before);
}

#[test]
fn source_groups_round_trip() {
    let domain = Radix2Domain::new(8).unwrap();
    let g1 = (0..8).map(|value| G1::generator().times(Fr::from_u64(value + 1))).collect::<Vec<_>>();
    let g2 = (0..8).map(|value| G2::generator().times(Fr::from_u64(value + 1))).collect::<Vec<_>>();

    let mut transformed = g1.clone();
    domain.fft(&mut transformed);
    domain.ifft(&mut transformed);
    assert_eq!(transformed, g1);

    let mut transformed = g2.clone();
    domain.fft(&mut transformed);
    domain.ifft(&mut transformed);
    assert_eq!(transformed, g2);
}

#[test]
fn optimized_target_group_round_trip() {
    let domain = Radix2Domain::new(8).unwrap();
    let before = (0..8)
        .map(|value| GtElement::generator().times(Fr::from_u64(value + 1)))
        .collect::<Vec<_>>();
    let mut transformed = before.clone();
    domain.fft_gt(&mut transformed);
    domain.ifft_gt_unscaled(&mut transformed);
    for value in transformed.iter_mut() {
        *value = mul_gt(*value, domain.size_inverse());
    }
    assert_eq!(transformed, before);
}

#[test]
fn optimized_gt_multiplication_matches_blstrs() {
    let values = [
        Fr::zero(),
        Fr::one(),
        Fr::zero().minus(Fr::one()),
        Fr::from_u64(17),
        Fr::root_of_unity(),
    ];
    let base = GtElement::generator().times(Fr::from_u64(29));
    for scalar in values {
        assert_eq!(mul_gt(base, scalar), base.times(scalar));
    }
    for coefficient in [-17i64, -1, 0, 1, 2, 19] {
        let scalar = if coefficient < 0 {
            Fr::zero().minus(Fr::from_u64(coefficient.unsigned_abs()))
        } else {
            Fr::from_u64(coefficient as u64)
        };
        assert_eq!(mul_gt_signed_small(base, coefficient), base.times(scalar));
    }
}

#[test]
fn small_multiples_cover_the_whole_range_of_coefficients() {
    let point = G1::generator().times(Fr::from_u64(3));
    for coefficient in [i64::MIN, i64::MIN + 1, -5, 0, 6, i64::MAX] {
        let scalar = if coefficient < 0 {
            Fr::zero().minus(Fr::from_u64(coefficient.unsigned_abs()))
        } else {
            Fr::from_u64(coefficient as u64)
        };
        assert_eq!(mul_group_signed_small(point, coefficient), point.times(scalar));
    }
}

#[test]
fn transforms_evaluate_the_polynomial() {
    // 1 + 2 x at the roots one and minus one
    let domain = Radix2Domain::new(2).unwrap();
    let mut values = vec![Fr::from_u64(1), Fr::from_u64(2)];
    domain.fft(&mut values);
    assert_eq!(values, vec![Fr::from_u64(3), Fr::zero().minus(Fr::one())]);
    assert_eq!(domain.size(), 2);
    assert!(Radix2Domain::new(0).is_none());
    assert!(Radix2Domain::new(12).is_none());
    assert!(Radix2Domain::new(1usize << 33).is_none());
}

#[test]
fn domain_generators_have_the_order_of_the_domain() {
    let domain = Radix2Domain::new(8).unwrap();
    let mut power = Fr::one();
    for step in 0..8 {
        assert!(step == 0 || power != Fr::one());
        power = power.times(domain.generator());
    }
    assert_eq!(power, Fr::one());
    assert_eq!(domain.generator().times(domain.generator_inverse()), Fr::one());
    assert_eq!(domain.size_inverse().times(Fr::from_u64(8)), Fr::one());
}

#[test]
fn naf_digits_are_odd_and_far_apart() {
    let scalar = SystemRng::new().random_scalar();
    let digits = width_five_naf(scalar);
    let mut last: Option<usize> = None;
    for (place, digit) in digits.iter().enumerate() {
        if *digit != 0 {
            assert!(*digit % 2 != 0 && -15 <= *digit && *digit <= 15);
            if let Some(before) = last {
                assert!(place - before >= 5);
            }
            last = Some(place);
        }
    }
}

/// A source that yields the given scalars, then zeros.
struct Listed {
    scalars: Vec<u64>,
    next: usize,
}

impl ScalarGenerator for Listed {
    fn next_scalar(&mut self) -> Fr {
        let scalar = self.scalars.get(self.next).copied().unwrap_or(0);
        self.next += 1;
        Fr::from_u64(scalar)
    }
}

fn listed(scalars: &[u64]) -> Recorded<Listed> {
    Recorded::new(Listed { scalars: scalars.to_vec(), next: 0 })
}

#[test]
fn zeros_are_passed_over_in_sampling() {
    let mut rng = listed(&[0, 0, 5, 6]);
    assert_eq!(sample_nonzero(&mut rng), Some(Fr::from_u64(5)));
    assert_eq!(rng.random_scalar(), Fr::from_u64(6));
}

#[test]
fn all_draws_are_taken_in_order() {
    let mut rng = listed(&[0, 4, 0, 5]);
    assert_eq!(draw(&mut rng, 3), vec![Fr::zero(), Fr::from_u64(4), Fr::zero()]);
    assert_eq!(rng.random_scalar(), Fr::from_u64(5));
}

#[test]
fn nonzero_draws_are_kept_in_order_and_no_more_are_made() {
    let mut rng = listed(&[3, 0, 0, 4, 0, 5, 6]);
    let expected = vec![Fr::from_u64(3), Fr::from_u64(4), Fr::from_u64(5)];
    assert_eq!(draw_nonzero(&mut rng, 3), Some(expected));
    assert_eq!(draw_nonzero(&mut rng, 0), Some(vec![]));
    assert_eq!(rng.random_scalar(), Fr::from_u64(6));
}

#[test]
fn naf_ends_with_a_positive_digit_and_zero_has_none() {
    assert!(width_five_naf(Fr::zero()).is_empty());
    assert_eq!(width_five_naf(Fr::one()), vec![1]);
    assert_eq!(width_five_naf(Fr::from_u64(31)), vec![-1, 0, 0, 0, 0, 1]);
    let largest = Fr::zero().minus(Fr::one());
    let digits = width_five_naf(largest);
    assert!(digits.len() <= 256);
    assert!(*digits.last().unwrap() > 0);
}

#[test]
fn transforms_undo_each_other_in_both_orders() {
    let domain = Radix2Domain::new(8).unwrap();
    let values = (0..8).map(|i| Fr::from_u64(3 * i * i + 1)).collect::<Vec<_>>();
    let mut there = values.clone();
    domain.fft(&mut there);
    domain.ifft(&mut there);
    assert_eq!(there, values);
    let mut back = values.clone();
    domain.ifft(&mut back);
    assert_ne!(back, values);
    domain.fft(&mut back);
    assert_eq!(back, values);
}

#[test]
fn compressed_encodings_are_read_back() {
    for value in [0u64, 1, 2, 77] {
        let scalar = Fr::from_u64(value);
        let first = G1::generator().times(scalar).to_affine();
        assert_eq!(G1Point::from_compressed(&first.to_compressed()), Some(first));
        let second = G2::generator().times(scalar).to_affine();
        assert_eq!(G2Point::from_compressed(&second.to_compressed()), Some(second));
        if value != 0 {
            let third = GtElement::generator().times(scalar);
            let bytes: [u8; 288] = third.to_compressed().try_into().unwrap();
            assert_eq!(GtElement::from_compressed(&bytes), Some(third));
        }
    }
    assert_eq!(G1Point::from_compressed(&[0u8; 48]), None);
    assert_eq!(G2Point::from_compressed(&[0xffu8; 96]), None);
    assert_eq!(GtElement::from_compressed(&[0xffu8; 288]), None);
    assert_eq!(GtElement::from_compressed(&[3u8; 288]), None);
}
