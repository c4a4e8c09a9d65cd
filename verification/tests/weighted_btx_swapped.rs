use std::collections::HashSet;

use wbte::curve::{pair, Element, Fr, G2Point, GtElement, ScalarRng, SystemRng, G1, G2};
use wbte::interpolation::lagrange_at_zero;
use wbte::points::{
    batch_normalize_g1, batch_normalize_g2, g1_multi_exp_affine, g1_multi_exp_affine_indexed,
    g2_multi_exp_affine,
};
use wbte::weighted_btx_swapped::decryption::accept_with_challenges;
use wbte::weighted_btx_swapped::encryption::encrypt_with_scalars;
use wbte::weighted_btx_swapped::schnorr::SchnorrProof;
use wbte::weighted_btx_swapped::setup::keygen_with_scalars;
use wbte::weighted_btx_swapped::{
    accept_decryption_shares, decrypt, encrypt, keygen, open_batch, partial_decrypt,
    precompute_batch, prepare_decryption, validate_batch, verify_decryption_share,
    AcceptedDecryptionShares, Ciphertext, DecryptionPrecomputation, DecryptionShare, Error,
    KeyMaterial, KeygenConfig, PublicDecryptionKey, ValidatedBatch,
};

const WEIGHTS: &[usize] = &[1, 3, 2, 4, 1];
const THRESHOLD: usize = 5;

fn scalar(value: usize) -> Fr {
    Fr::from_u64(value as u64)
}

fn some(messages: Vec<GtElement>) -> Vec<Option<GtElement>> {
    messages.into_iter().map(Some).collect()
}

fn shares_of(material: &KeyMaterial, batch: &ValidatedBatch, parties: &[usize]) -> Vec<DecryptionShare> {
    parties
        .iter()
        .map(|index| partial_decrypt(&material.party_keys[*index], batch).unwrap())
        .collect()
}

fn fixture(
    max_batch_size: usize,
    batch_size: usize,
    party_indices: &[usize],
) -> (
    KeyMaterial,
    Vec<GtElement>,
    Vec<Ciphertext>,
    ValidatedBatch,
    AcceptedDecryptionShares,
    DecryptionPrecomputation,
) {
    let material = keygen(max_batch_size, WEIGHTS, THRESHOLD).unwrap();
    let messages = (0..batch_size)
        .map(|index| GtElement::generator().times(scalar(index + 17)))
        .collect::<Vec<_>>();
    let ciphertexts = messages
        .iter()
        .map(|message| encrypt(&material.encryption_key, *message).unwrap())
        .collect::<Vec<_>>();
    let batch = validate_batch(&material.decryption_key, &ciphertexts).unwrap();
    let shares = shares_of(&material, &batch, party_indices);
    let accepted = accept_decryption_shares(&material.decryption_key, &batch, &shares).unwrap();
    let fixed = prepare_decryption(&material.decryption_key, &accepted).unwrap();
    (material, messages, ciphertexts, batch, accepted, fixed)
}

fn naive_beta(
    decryption_key: &PublicDecryptionKey,
    batch: &ValidatedBatch,
    accepted: &AcceptedDecryptionShares,
) -> Vec<GtElement> {
    let mut selected = Vec::new();
    for party in accepted.party_indices() {
        let (start, end) = decryption_key.party_range(party).unwrap();
        selected.extend(start..end);
    }
    let coefficients = lagrange_at_zero(decryption_key.domain_points(), &selected).unwrap();

    (0..batch.batch_size)
        .map(|output_slot| {
            let mut sum = GtElement::zero();
            for input_slot in 0..batch.batch_size {
                if input_slot == output_slot || !batch.valid[input_slot] {
                    continue;
                }
                let offset = input_slot as isize - output_slot as isize;
                let power = if offset < 0 {
                    decryption_key.negative_power((-offset) as usize).unwrap()
                } else {
                    decryption_key.positive_power(offset as usize).unwrap()
                };
                let bases = selected
                    .iter()
                    .map(|index| G1::from_affine(power[*index]))
                    .collect::<Vec<_>>();
                let aggregate = G1::multi_exp(&bases, &coefficients);
                sum = sum.plus(pair(
                    aggregate.to_affine(),
                    batch.first_projective[input_slot].to_affine(),
                ));
            }
            sum
        })
        .collect()
}

#[test]
fn weighted_threshold_end_to_end_with_shuffled_real_parties() {
    let (_, messages, ciphertexts, batch, accepted, fixed) = fixture(8, 7, &[3, 1]);
    assert_eq!(accepted.accepted_weight(), 7);
    assert_eq!(accepted.party_indices(), vec![1, 3]);
    let cross_terms = precompute_batch(&fixed, &batch).unwrap();
    let opened = open_batch(&fixed, &accepted, &batch, &ciphertexts, &cross_terms).unwrap();
    assert_eq!(opened, some(messages));
}

#[test]
fn fft_middle_product_matches_literal_weighted_formula() {
    for batch_size in [1, 2, 3, 7, 8] {
        let (material, _, _, batch, accepted, fixed) = fixture(8, batch_size, &[1, 2, 3]);
        let fast = precompute_batch(&fixed, &batch).unwrap();
        let slow = naive_beta(&material.decryption_key, &batch, &accepted);
        assert_eq!(fast.beta, slow, "batch size {batch_size}");
    }
}

#[test]
fn fewer_heavy_parties_can_outweigh_more_light_parties() {
    let material = keygen(4, WEIGHTS, THRESHOLD).unwrap();
    let ciphertext = encrypt(&material.encryption_key, GtElement::generator()).unwrap();
    let batch = validate_batch(&material.decryption_key, &[ciphertext]).unwrap();

    let heavy = shares_of(&material, &batch, &[1, 3]);
    assert!(accept_decryption_shares(&material.decryption_key, &batch, &heavy).is_ok());

    let light = shares_of(&material, &batch, &[0, 2, 4]);
    assert!(matches!(
        accept_decryption_shares(&material.decryption_key, &batch, &light),
        Err(Error::InsufficientWeight { .. })
    ));
}

#[test]
fn malformed_share_is_blamed_and_honest_authorized_remainder_opens() {
    let (material, messages, ciphertexts, batch, _, _) = fixture(8, 4, &[1, 2, 3]);
    let mut shares = shares_of(&material, &batch, &[1, 2, 3]);
    shares[1].sigma = shares[1].sigma.plus(G2::generator());

    let accepted = accept_decryption_shares(&material.decryption_key, &batch, &shares).unwrap();
    assert_eq!(accepted.rejected_parties(), &vec![2]);
    assert_eq!(accepted.accepted_weight(), 7);
    let fixed = prepare_decryption(&material.decryption_key, &accepted).unwrap();
    let cross_terms = precompute_batch(&fixed, &batch).unwrap();
    let opened = open_batch(&fixed, &accepted, &batch, &ciphertexts, &cross_terms).unwrap();
    assert_eq!(opened, some(messages));
}

#[test]
fn malformed_share_can_drop_set_below_weight_threshold() {
    let material = keygen(4, WEIGHTS, THRESHOLD).unwrap();
    let ciphertext = encrypt(&material.encryption_key, GtElement::generator()).unwrap();
    let batch = validate_batch(&material.decryption_key, &[ciphertext]).unwrap();
    let mut shares = shares_of(&material, &batch, &[1, 2, 4]);
    shares[0].sigma = shares[0].sigma.plus(G2::generator());
    match accept_decryption_shares(&material.decryption_key, &batch, &shares) {
        Err(Error::InsufficientWeight { rejected_parties, .. }) => {
            assert_eq!(rejected_parties, vec![1])
        }
        other => panic!("expected insufficient weight with blame, got {other:?}"),
    }
}

#[test]
fn invalid_client_proof_preserves_slot_and_returns_bottom() {
    let (material, messages, mut ciphertexts, _, _, _) = fixture(8, 4, &[1, 3]);
    ciphertexts[2].proof.response = ciphertexts[2].proof.response.plus(Fr::one());
    let batch = validate_batch(&material.decryption_key, &ciphertexts).unwrap();
    assert_eq!(batch.valid_mask(), &vec![true, true, false, true]);
    let shares = shares_of(&material, &batch, &[1, 3]);
    let accepted = accept_decryption_shares(&material.decryption_key, &batch, &shares).unwrap();
    let fixed = prepare_decryption(&material.decryption_key, &accepted).unwrap();
    let cross_terms = precompute_batch(&fixed, &batch).unwrap();
    let opened = open_batch(&fixed, &accepted, &batch, &ciphertexts, &cross_terms).unwrap();
    for slot in 0..4 {
        assert_eq!(opened[slot], (slot != 2).then_some(messages[slot]));
    }
}

#[test]
fn entirely_invalid_batch_accepts_identity_shares_and_returns_only_bottom() {
    let (material, _, mut ciphertexts, _, _, _) = fixture(4, 3, &[1, 3]);
    for ciphertext in &mut ciphertexts {
        ciphertext.proof.response = ciphertext.proof.response.plus(Fr::one());
    }
    let batch = validate_batch(&material.decryption_key, &ciphertexts).unwrap();
    assert_eq!(batch.valid_count(), 0);
    let shares = shares_of(&material, &batch, &[1, 3]);
    assert!(shares.iter().all(|share| share.sigma == G2::zero()));
    let accepted = accept_decryption_shares(&material.decryption_key, &batch, &shares).unwrap();
    let fixed = prepare_decryption(&material.decryption_key, &accepted).unwrap();
    let cross_terms = precompute_batch(&fixed, &batch).unwrap();
    assert_eq!(
        open_batch(&fixed, &accepted, &batch, &ciphertexts, &cross_terms).unwrap(),
        vec![None; 3]
    );
}

#[test]
fn one_party_one_weight_one_ciphertext_boundary_opens() {
    let material = keygen(1, &[1], 0).unwrap();
    let message = GtElement::generator().times(Fr::from_u64(99));
    let ciphertexts = vec![encrypt(&material.encryption_key, message).unwrap()];
    let batch = validate_batch(&material.decryption_key, &ciphertexts).unwrap();
    let shares = shares_of(&material, &batch, &[0]);
    assert!(verify_decryption_share(&material.decryption_key, &batch, &shares[0]).unwrap());
    let accepted = accept_decryption_shares(&material.decryption_key, &batch, &shares).unwrap();
    let fixed = prepare_decryption(&material.decryption_key, &accepted).unwrap();
    assert_eq!(fixed.transform_size(), 2);
    let cross_terms = precompute_batch(&fixed, &batch).unwrap();
    assert_eq!(
        open_batch(&fixed, &accepted, &batch, &ciphertexts, &cross_terms).unwrap(),
        vec![Some(message)]
    );
}

#[test]
fn opening_rejects_ciphertexts_changed_after_validation() {
    let (_, _, mut ciphertexts, batch, accepted, fixed) = fixture(4, 3, &[1, 3]);
    let cross_terms = precompute_batch(&fixed, &batch).unwrap();
    ciphertexts[0].second = ciphertexts[0].second.plus(GtElement::generator());

    assert!(matches!(
        open_batch(&fixed, &accepted, &batch, &ciphertexts, &cross_terms),
        Err(Error::MismatchedBatchDigest)
    ));
}

#[test]
fn phased_objects_are_bound_to_setup_and_accepted_committee() {
    let (material, _, ciphertexts, batch, accepted_a, fixed_a) = fixture(4, 3, &[1, 3]);
    let cross_terms_a = precompute_batch(&fixed_a, &batch).unwrap();

    let shares_b = shares_of(&material, &batch, &[0, 2, 3]);
    let accepted_b = accept_decryption_shares(&material.decryption_key, &batch, &shares_b).unwrap();
    let fixed_b = prepare_decryption(&material.decryption_key, &accepted_b).unwrap();
    assert!(matches!(
        open_batch(&fixed_b, &accepted_b, &batch, &ciphertexts, &cross_terms_a),
        Err(Error::MismatchedCommittee)
    ));

    let other_material = keygen(4, WEIGHTS, THRESHOLD).unwrap();
    assert_ne!(
        material.decryption_key.setup_id(),
        other_material.decryption_key.setup_id()
    );
    assert!(matches!(
        prepare_decryption(&other_material.decryption_key, &accepted_a),
        Err(Error::MismatchedSetup)
    ));
}

#[test]
fn ciphertext_proofs_and_phased_batches_are_setup_bound() {
    let material_a = keygen(2, WEIGHTS, THRESHOLD).unwrap();
    let material_b = keygen(2, WEIGHTS, THRESHOLD).unwrap();
    let ciphertexts = vec![encrypt(&material_a.encryption_key, GtElement::generator()).unwrap()];

    let batch_a = validate_batch(&material_a.decryption_key, &ciphertexts).unwrap();
    assert_eq!(batch_a.valid_mask(), &vec![true]);
    assert!(matches!(
        partial_decrypt(&material_b.party_keys[1], &batch_a),
        Err(Error::MismatchedSetup)
    ));

    let batch_b = validate_batch(&material_b.decryption_key, &ciphertexts).unwrap();
    assert_eq!(batch_b.valid_mask(), &vec![false]);
    let shares_b = shares_of(&material_b, &batch_b, &[1, 3]);
    let opened = decrypt(&material_b.decryption_key, &ciphertexts, &shares_b).unwrap();
    assert_eq!(opened, vec![None]);
}

#[test]
fn oversized_batch_and_share_list_are_rejected_at_the_boundary() {
    let material = keygen(1, WEIGHTS, THRESHOLD).unwrap();
    let ciphertexts = vec![
        encrypt(&material.encryption_key, GtElement::generator()).unwrap(),
        encrypt(&material.encryption_key, GtElement::generator()).unwrap(),
    ];
    assert!(matches!(
        validate_batch(&material.decryption_key, &ciphertexts),
        Err(Error::BatchTooLarge { .. })
    ));

    let ciphertexts = vec![encrypt(&material.encryption_key, GtElement::generator()).unwrap()];
    let batch = validate_batch(&material.decryption_key, &ciphertexts).unwrap();
    let share = partial_decrypt(&material.party_keys[0], &batch).unwrap();
    let shares = vec![share; material.decryption_key.party_count() + 1];
    assert!(matches!(
        accept_decryption_shares(&material.decryption_key, &batch, &shares),
        Err(Error::TooManyShares { .. })
    ));
}

#[test]
fn duplicate_and_wrong_batch_shares_are_not_counted_twice() {
    let (material, _, mut ciphertexts, batch, _, _) = fixture(4, 2, &[1, 3]);
    let share = partial_decrypt(&material.party_keys[1], &batch).unwrap();
    assert!(matches!(
        accept_decryption_shares(&material.decryption_key, &batch, &[share, share]),
        Err(Error::DuplicatePartyIndex(1))
    ));

    ciphertexts.swap(0, 1);
    let reordered = validate_batch(&material.decryption_key, &ciphertexts).unwrap();
    assert!(matches!(
        accept_decryption_shares(&material.decryption_key, &reordered, &[share]),
        Err(Error::InsufficientWeight { .. })
    ));
}

fn reference(domain: &[Fr], selected: &[usize]) -> Vec<Fr> {
    let points = selected.iter().map(|&index| domain[index]).collect::<Vec<_>>();
    points
        .iter()
        .enumerate()
        .map(|(point_index, point)| {
            let mut numerator = Fr::one();
            let mut denominator = Fr::one();
            for (other_index, other) in points.iter().enumerate() {
                if point_index != other_index {
                    numerator = numerator.times(Fr::zero().minus(*other));
                    denominator = denominator.times(point.minus(*other));
                }
            }
            numerator.times(denominator.invert().unwrap())
        })
        .collect()
}

fn evaluate(coefficients: &[Fr], point: Fr) -> Fr {
    coefficients
        .iter()
        .rev()
        .fold(Fr::zero(), |value, coefficient| value.times(point).plus(*coefficient))
}

fn setup_domain(weight: usize) -> Vec<Fr> {
    // the points of a committee whose only party has the whole weight
    let material = keygen(1, &[weight], 0).unwrap();
    material.decryption_key.domain_points().clone()
}

#[test]
fn rejects_empty_duplicate_and_out_of_range_selections() {
    let domain = setup_domain(7);
    assert!(lagrange_at_zero(&vec![], &vec![0]).is_none());
    assert!(lagrange_at_zero(&domain, &vec![]).is_none());
    assert!(lagrange_at_zero(&domain, &vec![1, 1]).is_none());
    assert!(lagrange_at_zero(&domain, &vec![domain.len()]).is_none());
}

#[test]
fn exhaustive_irregular_small_domain_matches_reference_in_both_orders() {
    let domain = setup_domain(7);
    for mask in 1usize..(1 << domain.len()) {
        let selected = (0..domain.len())
            .filter(|index| mask & (1 << index) != 0)
            .collect::<Vec<_>>();
        let mut reversed = selected.clone();
        reversed.reverse();
        for order in [&selected, &reversed] {
            assert_eq!(
                lagrange_at_zero(&domain, order).unwrap(),
                reference(&domain, order),
                "mask {mask:#x}, order {order:?}"
            );
        }
    }
}

#[test]
fn fft_path_matches_reference_for_irregular_domains_and_orders() {
    const DIRECT_INTERPOLATION_CUTOFF: usize = 64;
    for weight in [65usize, 73, 95, 127, 129, 191] {
        let domain = setup_domain(weight);
        let mut selections = vec![
            (0..weight).collect::<Vec<_>>(),
            (0..weight).filter(|index| index % 3 != 1).collect(),
            (0..weight).filter(|index| index % 4 != 2).collect(),
        ];
        for selected in &mut selections {
            if selected.len() <= DIRECT_INTERPOLATION_CUTOFF {
                let needed = DIRECT_INTERPOLATION_CUTOFF + 1 - selected.len();
                let additions = (0..weight)
                    .filter(|index| !selected.contains(index))
                    .take(needed)
                    .collect::<Vec<_>>();
                selected.extend(additions);
            }
            let rotation = weight % selected.len();
            selected.rotate_left(rotation);
            selected.reverse();
            assert_eq!(
                lagrange_at_zero(&domain, selected).unwrap(),
                reference(&domain, selected),
                "weight {weight}, selected {}",
                selected.len()
            );
        }
    }
}

#[test]
fn complete_root_domain_has_uniform_coefficients_in_any_order() {
    for size in [1usize, 2, 64, 128, 256] {
        let domain = setup_domain(size);
        let mut selected = (0..size).collect::<Vec<_>>();
        selected.rotate_left(size / 3);
        selected.reverse();
        let expected = scalar(size).invert().unwrap();
        assert_eq!(lagrange_at_zero(&domain, &selected).unwrap(), vec![expected; size]);
    }
}

#[test]
fn coefficients_reconstruct_random_low_degree_polynomials() {
    let mut rng = SystemRng::new();
    for (weight, selected_count) in [(17usize, 11usize), (97, 65), (151, 103)] {
        let domain = setup_domain(weight);
        let mut selected = (0..weight)
            .filter(|index| (index * 5 + 3) % 7 != 0)
            .take(selected_count)
            .collect::<Vec<_>>();
        assert_eq!(selected.len(), selected_count);
        selected.rotate_left(selected_count / 4);
        selected.reverse();
        let coefficients = lagrange_at_zero(&domain, &selected).unwrap();

        for degree_bound in [1usize, selected_count / 2, selected_count] {
            let polynomial = (0..degree_bound).map(|_| rng.random_scalar()).collect::<Vec<_>>();
            let reconstructed = selected
                .iter()
                .zip(coefficients.iter())
                .map(|(&index, coefficient)| evaluate(&polynomial, domain[index]).times(*coefficient))
                .fold(Fr::zero(), |sum, value| sum.plus(value));
            assert_eq!(reconstructed, polynomial[0]);
        }
    }
}

#[test]
fn heterogeneous_key_material_has_expected_shapes_and_layout() {
    let material = keygen(4, &[2, 1, 3], 3).unwrap();
    let dk = &material.decryption_key;

    assert_eq!(material.encryption_key.max_batch_size(), 4);
    assert_eq!(dk.max_batch_size(), 4);
    assert_eq!(dk.party_count(), 3);
    assert_eq!(dk.total_weight(), 6);
    assert_eq!(dk.threshold_weight(), 3);
    assert_eq!(dk.required_weight(), 4);
    assert_eq!(dk.party_weights(), &vec![2, 1, 3]);
    assert_eq!(dk.domain_size(), 8);
    assert_eq!(dk.verification_keys.len(), 12);
    assert_eq!(dk.negative_material.len(), 24);
    assert_eq!(dk.positive_material.len(), 18);
    assert_eq!(material.party_keys.len(), 3);
    assert_eq!(dk.party_range(0).unwrap(), (0, 2));
    assert_eq!(dk.party_range(1).unwrap(), (2, 3));
    assert_eq!(dk.party_range(2).unwrap(), (3, 6));
    let (start, end) = dk.party_range(2).unwrap();
    assert_eq!(&dk.domain_points()[start..end], &dk.domain_points()[3..6]);

    for party_key in &material.party_keys {
        assert!(party_key.secret_scalar() != Fr::zero());
        let mut power = party_key.secret_scalar();
        for exponent in 1..=4 {
            assert_eq!(
                dk.verification_key(party_key.party_index, exponent).unwrap(),
                G1::generator().times(power).to_affine()
            );
            assert_eq!(
                dk.verification_power(exponent).unwrap()[party_key.party_index],
                G1::generator().times(power).to_affine()
            );
            power = power.times(party_key.secret_scalar());
        }
    }
}

#[test]
fn evaluation_points_are_distinct_nonzero_roots() {
    let material = keygen(2, &[2, 3, 1], 2).unwrap();
    let domain = material.decryption_key.domain_points();
    assert_eq!(domain.len(), 6);
    assert_eq!(domain[0], Fr::one());
    assert!(domain.iter().all(|point| *point != Fr::zero()));

    let encodings = domain.iter().map(|point| point.to_bytes_le()).collect::<HashSet<_>>();
    assert_eq!(encodings.len(), domain.len());

    let singleton = keygen(1, &[1], 0).unwrap();
    assert_eq!(singleton.decryption_key.domain_points(), &vec![Fr::one()]);
    assert!(singleton.decryption_key.positive_material.is_empty());
}

#[test]
fn negative_and_positive_material_use_the_owning_party_power() {
    let material = keygen(3, &[2, 1], 1).unwrap();
    let dk = &material.decryption_key;

    for party_key in &material.party_keys {
        let q = party_key.secret_scalar();
        let (start, end) = dk.party_range(party_key.party_index).unwrap();
        let baseline = dk.negative_power(1).unwrap()[start..end]
            .iter()
            .map(|point| G1::from_affine(*point).times(q))
            .collect::<Vec<_>>();

        let mut q_power = q;
        for power in 1..=3 {
            let recovered = dk.negative_power(power).unwrap()[start..end]
                .iter()
                .map(|point| G1::from_affine(*point).times(q_power))
                .collect::<Vec<_>>();
            assert_eq!(recovered, baseline);
            q_power = q_power.times(q);
        }

        let q_inverse = q.invert().unwrap();
        let mut inverse_power = q_inverse;
        for power in 1..=2 {
            let recovered = dk.positive_power(power).unwrap()[start..end]
                .iter()
                .map(|point| G1::from_affine(*point).times(inverse_power))
                .collect::<Vec<_>>();
            assert_eq!(recovered, baseline);
            inverse_power = inverse_power.times(q_inverse);
        }
    }
}

#[test]
fn public_virtual_shares_reconstruct_the_encryption_secret() {
    let material = keygen(2, &[2, 1, 3], 2).unwrap();
    let dk = &material.decryption_key;
    let selected = [0usize, 2, 5];
    let coefficients = reference(dk.domain_points(), &selected);

    let bases = selected
        .iter()
        .map(|virtual_index| {
            let party_index = material
                .party_keys
                .iter()
                .position(|key| {
                    let (start, end) = dk.party_range(key.party_index).unwrap();
                    (start..end).contains(virtual_index)
                })
                .unwrap();
            G1::from_affine(dk.negative_power(1).unwrap()[*virtual_index])
                .times(material.party_keys[party_index].secret_scalar())
        })
        .collect::<Vec<_>>();
    let reconstructed = G1::multi_exp(&bases, &coefficients).to_affine();

    assert_eq!(
        pair(reconstructed, G2Point::generator()),
        material.encryption_key.element()
    );
}

#[test]
fn accessors_reject_invalid_party_and_power() {
    let material = keygen(3, &[1, 2], 1).unwrap();
    let dk = &material.decryption_key;
    assert!(matches!(dk.party_range(2), Err(Error::InvalidPartyIndex(2))));
    assert!(matches!(dk.party_weight(2), Err(Error::InvalidPartyIndex(2))));
    assert!(matches!(dk.verification_key(0, 0), Err(Error::InvalidPower { .. })));
    assert!(matches!(dk.negative_power(4), Err(Error::InvalidPower { .. })));
    assert!(matches!(dk.positive_power(3), Err(Error::InvalidPower { .. })));
    assert!(matches!(
        dk.verification_power(4),
        Err(Error::InvalidPower { power: 4, max_power: 3 })
    ));
}

#[test]
fn rejects_invalid_weighted_configurations() {
    assert!(matches!(keygen(0, &[1], 0), Err(Error::BatchIsEmpty)));
    assert!(matches!(keygen(1, &[], 0), Err(Error::EmptyCommittee)));
    assert!(matches!(
        keygen(1, &[1, 0], 0),
        Err(Error::InvalidPartyWeight { party_index: 1, weight: 0 })
    ));
    assert!(matches!(keygen(1, &[2, 1], 3), Err(Error::InvalidCommittee { .. })));
    assert!(matches!(keygen(1, &[usize::MAX, 1], 0), Err(Error::TotalWeightOverflow)));
}

#[test]
fn blst_utils_g1_batch_normalization_matches_individual_conversion() {
    let projective = (0..32)
        .map(|index| {
            if index % 11 == 0 {
                G1::zero()
            } else {
                G1::generator().times(scalar(index + 1))
            }
        })
        .collect::<Vec<_>>();
    let expected = projective.iter().map(|point| point.to_affine()).collect::<Vec<_>>();
    assert_eq!(batch_normalize_g1(&projective), expected);
}

#[test]
fn blst_utils_g2_batch_normalization_matches_individual_conversion() {
    let projective = (0..32)
        .map(|index| {
            if index % 11 == 0 {
                G2::zero()
            } else {
                G2::generator().times(scalar(index + 1))
            }
        })
        .collect::<Vec<_>>();
    let expected = projective.iter().map(|point| point.to_affine()).collect::<Vec<_>>();
    assert_eq!(batch_normalize_g2(&projective), expected);
}

#[test]
fn swapped_protocol_opens_messages_of_all_small_sizes() {
    for batch_size in [1usize, 2, 3, 4, 7, 16] {
        for invalidate_slot in [false, true] {
            let keys = keygen(16, WEIGHTS, THRESHOLD).unwrap();
            let messages: Vec<_> = (0..batch_size)
                .map(|slot| GtElement::generator().times(scalar(slot + 1)))
                .collect();
            let mut ciphertexts: Vec<_> = messages
                .iter()
                .map(|message| encrypt(&keys.encryption_key, *message).unwrap())
                .collect();
            if invalidate_slot {
                let proof = &mut ciphertexts[batch_size / 2].proof;
                proof.response = proof.response.plus(Fr::one());
            }
            let batch = validate_batch(&keys.decryption_key, &ciphertexts).unwrap();
            let mask: Vec<_> = (0..batch_size)
                .map(|slot| !invalidate_slot || slot != batch_size / 2)
                .collect();
            assert_eq!(batch.valid_mask(), &mask[..]);
            let mut shares = shares_of(&keys, &batch, &[3, 2, 1]);
            // parties 1 and 3 still have enough weight once 2 is rejected
            shares[1].sigma = shares[1].sigma.plus(G2::generator());
            let accepted =
                accept_decryption_shares(&keys.decryption_key, &batch, &shares).unwrap();
            assert_eq!(accepted.rejected_parties(), &[2]);
            let fixed = prepare_decryption(&keys.decryption_key, &accepted).unwrap();
            let cross = precompute_batch(&fixed, &batch).unwrap();
            let phased = open_batch(&fixed, &accepted, &batch, &ciphertexts, &cross).unwrap();
            let opened = decrypt(&keys.decryption_key, &ciphertexts, &shares).unwrap();
            assert_eq!(opened, phased);
            for (slot, message) in opened.iter().enumerate() {
                assert_eq!(
                    *message,
                    (!invalidate_slot || slot != batch_size / 2).then_some(messages[slot])
                );
            }
        }
    }
}

#[test]
fn swapped_keys_follow_their_scalars() {
    // the polynomial 5 + 3 x over the points one and minus one; secrets 2 and 7
    let config = KeygenConfig::new(2, &[1, 1], 1);
    let coefficients = vec![Fr::from_u64(5), Fr::from_u64(3)];
    let qs = vec![Fr::from_u64(2), Fr::from_u64(7)];
    let material = keygen_with_scalars(config, &coefficients, &qs).unwrap();
    assert_eq!(
        material.encryption_key.element(),
        GtElement::generator().times(Fr::from_u64(5))
    );
    let dk = &material.decryption_key;
    // at one the share is 8, at minus one it is 2
    let half = Fr::from_u64(2).invert().unwrap();
    assert_eq!(
        dk.negative_power(1).unwrap()[0],
        G1::generator().times(Fr::from_u64(8).times(half)).to_affine()
    );
    assert_eq!(
        dk.positive_power(1).unwrap()[1],
        G1::generator().times(Fr::from_u64(14)).to_affine()
    );
    assert_eq!(dk.party_weight(1).unwrap(), 1);
    assert_eq!(material.party_keys[1].max_batch_size(), 2);
    assert_eq!(material.party_keys[0].setup_id(), dk.setup_id());
    assert_eq!(material.encryption_key.setup_id(), dk.setup_id());
}

#[test]
fn swapped_encryption_follows_its_scalars() {
    let material = keygen(2, &[1], 0).unwrap();
    let message = GtElement::generator().times(Fr::from_u64(4));
    let r = Fr::from_u64(6);
    let ciphertext =
        encrypt_with_scalars(&material.encryption_key, message, r, Fr::from_u64(9)).unwrap();
    assert_eq!(ciphertext.first, G2::generator().times(r).to_affine());
    assert_eq!(
        ciphertext.second,
        message.plus(material.encryption_key.element().times(r))
    );
}

#[test]
fn swapped_proofs_are_bound_to_their_statement() {
    let mut rng = SystemRng::new();
    let randomness = rng.random_scalar();
    let ct1 = G2::generator().times(randomness);
    let ct2 = GtElement::zero();
    let setup_id = [3u8; 32];
    let proof = SchnorrProof::create(randomness, ct1, &ct2, setup_id, &mut rng).unwrap();
    assert!(proof.verify(ct1, &ct2, setup_id));
    assert!(!proof.verify(ct1.plus(G2::generator()), &ct2, setup_id));
    assert!(!proof.verify(ct1, &GtElement::generator(), setup_id));
    assert!(!proof.verify(ct1, &ct2, [4u8; 32]));
}

#[test]
fn swapped_acceptance_weighs_shares_with_its_challenges() {
    // two bad shares whose errors cancel pass together under equal challenges
    let material = keygen(2, &[3, 3], 5).unwrap();
    let ciphertexts = vec![encrypt(&material.encryption_key, GtElement::generator()).unwrap()];
    let batch = validate_batch(&material.decryption_key, &ciphertexts).unwrap();
    let mut shares = shares_of(&material, &batch, &[0, 1]);
    shares[0].sigma = shares[0].sigma.plus(G2::generator());
    shares[1].sigma = shares[1].sigma.minus(G2::generator());
    let equal = vec![Fr::from_u64(2), Fr::from_u64(2)];
    let unequal = vec![Fr::from_u64(2), Fr::from_u64(3)];
    assert!(accept_with_challenges(&material.decryption_key, &batch, &shares, &equal).is_ok());
    match accept_with_challenges(&material.decryption_key, &batch, &shares, &unequal) {
        Err(Error::InsufficientWeight { accepted, required, rejected_parties }) => {
            assert_eq!((accepted, required), (0, 6));
            assert_eq!(rejected_parties, vec![0, 1]);
        }
        other => panic!("expected insufficient weight, got {other:?}"),
    }
}

#[test]
fn weighted_errors_have_messages() {
    assert_eq!(
        Error::InvalidPartyWeight { party_index: 1, weight: 0 }.message(),
        "party 1 has invalid weight 0; every party must have positive weight"
    );
    assert_eq!(
        Error::InvalidCommittee { party_count: 2, total_weight: 3, threshold_weight: 3 }.message(),
        "invalid weighted committee of 2 parties: threshold weight 3 must be smaller than total weight 3"
    );
    assert_eq!(
        Error::InsufficientWeight { accepted: 1, required: 2, rejected_parties: vec![3, 4] }
            .message(),
        "insufficient decryption weight: accepted 1, require 2; rejected parties [3, 4]"
    );
    assert_eq!(
        Error::InsufficientWeight { accepted: 1, required: 2, rejected_parties: vec![] }.message(),
        "insufficient decryption weight: accepted 1, require 2"
    );
    assert_eq!(
        Error::InvalidPower { power: 4, max_power: 3 }.message(),
        "invalid key power 4; the supported positive magnitude is 1 through 3"
    );
    assert_eq!(
        Error::TooManyShares { supplied: 3, party_count: 2 }.message(),
        "too many decryption shares: supplied 3 for 2 parties"
    );
    assert_eq!(
        Error::MismatchedSetup.message(),
        "cryptographic material belongs to a different setup"
    );
}

fn mixed_points(count: usize) -> Vec<Fr> {
    (0..count)
        .map(|index| if index % 17 == 0 { Fr::zero() } else { scalar(3 * index + 1) })
        .collect()
}

#[test]
fn affine_g1_msm_matches_blstrs_pippenger() {
    let projective =
        mixed_points(64).iter().map(|log| G1::generator().times(*log)).collect::<Vec<_>>();
    let affine = projective.iter().map(|point| point.to_affine()).collect::<Vec<_>>();
    let scalars = (0..projective.len()).map(|index| scalar(5 * index + 2)).collect::<Vec<_>>();

    let expected = G1::multi_exp(&projective, &scalars);
    assert_eq!(g1_multi_exp_affine(&affine, &scalars), expected);
    assert_eq!(g1_multi_exp_affine(&[], &[]), G1::zero());
    let sum = projective
        .iter()
        .zip(&scalars)
        .fold(G1::zero(), |sum, (point, scalar)| sum.plus(point.times(*scalar)));
    assert_eq!(sum, expected);
}

#[test]
fn affine_g2_msm_matches_blstrs_pippenger() {
    let projective =
        mixed_points(64).iter().map(|log| G2::generator().times(*log)).collect::<Vec<_>>();
    let affine = projective.iter().map(|point| point.to_affine()).collect::<Vec<_>>();
    let scalars = (0..projective.len()).map(|index| scalar(5 * index + 2)).collect::<Vec<_>>();

    let expected = G2::multi_exp(&projective, &scalars);
    assert_eq!(g2_multi_exp_affine(&affine, &scalars), expected);
    assert_eq!(g2_multi_exp_affine(&[], &[]), G2::zero());
    let sum = projective
        .iter()
        .zip(&scalars)
        .fold(G2::zero(), |sum, (point, scalar)| sum.plus(point.times(*scalar)));
    assert_eq!(sum, expected);
}

#[test]
fn indexed_affine_g1_msm_matches_selected_points() {
    let points = (0..80)
        .map(|index| G1::generator().times(scalar(3 * index + 1)).to_affine())
        .collect::<Vec<_>>();
    let indices = (0usize..80).filter(|index| index % 3 != 1).collect::<Vec<_>>();
    let scalars = indices
        .iter()
        .enumerate()
        .map(|(position, _)| scalar(5 * position + 2))
        .collect::<Vec<_>>();
    let selected_projective =
        indices.iter().map(|index| G1::from_affine(points[*index])).collect::<Vec<_>>();
    let expected = G1::multi_exp(&selected_projective, &scalars);

    assert_eq!(g1_multi_exp_affine_indexed(&points, &indices, &scalars), expected);
    assert_eq!(g1_multi_exp_affine_indexed(&points, &[], &[]), G1::zero());
}

#[test]
fn swapped_errors_name_what_does_not_fit() {
    assert!(matches!(
        keygen(1, &[1usize << 33], 0),
        Err(Error::InvalidEvaluationDomain { total_weight: 0x2_0000_0000 })
    ));
    assert!(matches!(
        keygen(usize::MAX / 2, &[3], 0),
        Err(Error::ParameterSizeOverflow)
    ));
    let (material, _, ciphertexts, batch, accepted, fixed) = fixture(4, 3, &[1, 3]);
    let key = &material.decryption_key;
    let shorter = validate_batch(key, &ciphertexts[..2]).unwrap();
    assert!(matches!(
        precompute_batch(&fixed, &shorter),
        Err(Error::MismatchedBatchSize { expected: 3, actual: 2 })
    ));
    let cross = precompute_batch(&fixed, &batch).unwrap();
    assert!(matches!(
        open_batch(&fixed, &accepted, &batch, &ciphertexts[..2], &cross),
        Err(Error::MismatchedBatchSize { expected: 3, actual: 2 })
    ));
    let mut share = partial_decrypt(&material.party_keys[0], &batch).unwrap();
    share.party_index = 5;
    assert!(matches!(
        accept_decryption_shares(key, &batch, &[share]),
        Err(Error::InvalidPartyIndex(5))
    ));
    assert!(matches!(
        verify_decryption_share(key, &batch, &share),
        Err(Error::InvalidPartyIndex(5))
    ));
    assert!(matches!(validate_batch(key, &[]), Err(Error::BatchIsEmpty)));
    let other = keygen(1, WEIGHTS, THRESHOLD).unwrap();
    assert!(matches!(
        verify_decryption_share(&other.decryption_key, &batch, &share),
        Err(Error::BatchTooLarge { batch_size: 3, max_batch_size: 1 })
    ));
    let mut light = accepted.clone();
    light.accepted_weight = 5;
    match prepare_decryption(key, &light) {
        Err(Error::InsufficientWeight { accepted, required, rejected_parties }) => {
            assert_eq!((accepted, required), (5, 6));
            assert!(rejected_parties.is_empty());
        }
        other => panic!("expected insufficient weight, got {other:?}"),
    }
    let mut doubled = accepted.clone();
    let first = doubled.shares[0];
    doubled.shares.push(first);
    assert!(matches!(
        prepare_decryption(key, &doubled),
        Err(Error::InvalidInterpolationSet)
    ));
}

#[test]
fn swapped_acceptance_ignores_the_order_of_shares() {
    let (material, _, _, batch, _, _) = fixture(4, 3, &[1, 3]);
    let key = &material.decryption_key;
    let mut shares = shares_of(&material, &batch, &[0, 1, 2, 3]);
    shares[2].sigma = shares[2].sigma.plus(G2::generator());
    let expected = accept_decryption_shares(key, &batch, &shares).unwrap();
    assert_eq!(expected.party_indices(), vec![0, 1, 3]);
    assert_eq!(expected.rejected_parties, vec![2]);
    for order in [[3, 2, 1, 0], [2, 0, 3, 1], [1, 3, 0, 2]] {
        let reordered = order.iter().map(|k| shares[*k]).collect::<Vec<_>>();
        let accepted = accept_decryption_shares(key, &batch, &reordered).unwrap();
        assert_eq!(accepted.party_indices(), expected.party_indices());
        assert_eq!(accepted.rejected_parties, expected.rejected_parties);
        assert_eq!(accepted.accepted_weight, expected.accepted_weight);
    }
}

#[test]
fn swapped_one_bad_share_is_found_with_any_nonzero_challenges() {
    let (material, _, _, batch, _, _) = fixture(4, 2, &[1, 3]);
    let mut shares = shares_of(&material, &batch, &[1, 2, 3]);
    shares[0].sigma = shares[0].sigma.plus(G2::generator());
    for challenge in 1..4 {
        let challenges = vec![scalar(challenge); 3];
        match accept_with_challenges(&material.decryption_key, &batch, &shares, &challenges) {
            Ok(accepted) => assert_eq!(accepted.rejected_parties, vec![1]),
            Err(Error::InsufficientWeight { rejected_parties, .. }) => {
                assert_eq!(rejected_parties, vec![1])
            }
            other => panic!("unexpected outcome {other:?}"),
        }
    }
}

#[test]
fn interpolation_weights_reconstruct_and_follow_the_selection() {
    let total = 100;
    let domain = wbte::fft::Radix2Domain::new(128).unwrap();
    let mut points = vec![Fr::one()];
    while points.len() < total {
        let next = points.last().unwrap().times(domain.generator());
        points.push(next);
    }
    for count in [3usize, 64, 65, 90] {
        let selected = (0..count).map(|k| (7 * k + 5) % total).collect::<Vec<_>>();
        let weights = lagrange_at_zero(&points, &selected).unwrap();
        // 4 + 9 x + x^2 at the points
        let mut sum = Fr::zero();
        for (k, index) in selected.iter().enumerate() {
            let x = points[*index];
            let value = scalar(4).plus(scalar(9).times(x)).plus(x.times(x));
            sum = sum.plus(weights[k].times(value));
        }
        assert_eq!(sum, scalar(4));
        let reversed = selected.iter().rev().copied().collect::<Vec<_>>();
        let mut expected = weights.clone();
        expected.reverse();
        assert_eq!(lagrange_at_zero(&points, &reversed).unwrap(), expected);
    }
}
