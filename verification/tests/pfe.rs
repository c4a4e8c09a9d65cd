use wbte::curve::{
    multi_pairing, pair, Element, Fr, G1Point, G2Point, GtElement, Recorded, ScalarGenerator,
    ScalarRng, SystemRng, G1, G2,
};
use wbte::fft::{scalar_pow, Radix2Domain};
use wbte::pfe::decryption::{
    combine_shares, combine_shares_checked, open_batch, partial_decrypt, precompute_batch,
    validate_batch, verify_combined_share, verify_decryption_share, weighted_convolution_group,
    weighted_convolution_gt, DecryptionShare, PartialFractionKernel, ValidatedBatch,
};
use wbte::pfe::dleq::{verify_batch, verify_batch_with_weights, DleqProof};
use wbte::pfe::encryption::{encrypt, encrypt_with_scalars, Ciphertext};
use wbte::pfe::error::Error;
use wbte::pfe::setup::{
    extra_index_data, index_points, keygen, keygen_with_rng, keygen_with_scalars, KeyMaterial,
    KeygenConfig,
};

fn scalar(value: usize) -> Fr {
    Fr::from_u64(value as u64)
}

fn sample_batch(
    batch_size: usize,
    server_count: usize,
    threshold: usize,
) -> (KeyMaterial, Vec<GtElement>, Vec<Ciphertext>, ValidatedBatch, PartialFractionKernel) {
    let material = keygen(batch_size, server_count, threshold).unwrap();
    let messages = (0..batch_size)
        .map(|index| GtElement::generator().times(scalar(index + 11)))
        .collect::<Vec<_>>();
    let ciphertexts = messages
        .iter()
        .map(|message| encrypt(&material.encryption_key, *message).unwrap())
        .collect::<Vec<_>>();
    let batch = validate_batch(&material.encryption_key, &ciphertexts).unwrap();
    let kernel = PartialFractionKernel::new(&material.decryption_key).unwrap();
    (material, messages, ciphertexts, batch, kernel)
}

fn shares_of(material: &KeyMaterial, batch: &ValidatedBatch, servers: &[usize]) -> Vec<DecryptionShare> {
    servers
        .iter()
        .map(|index| partial_decrypt(&material.server_keys[*index], batch).unwrap())
        .collect()
}

fn shifted(point: G1Point) -> G1Point {
    G1::from_affine(point).plus(G1::generator()).to_affine()
}

#[test]
fn optimized_convolution_matches_literal_denominators() {
    for batch_size in [1usize, 2, 4, 8, 16] {
        let domain = Radix2Domain::new(batch_size).unwrap();
        let (gamma, gamma_inverse_small_u64) = extra_index_data(batch_size).unwrap();
        let gamma_inverse_small = gamma_inverse_small_u64 as i64;
        let coefficients = (0..batch_size)
            .map(|index| batch_size as i64 - 1 - 2 * index as i64)
            .collect::<Vec<_>>();
        let points = index_points(batch_size).unwrap();
        let values = (0..batch_size)
            .map(|index| G1::generator().times(scalar(index + 3)))
            .collect::<Vec<_>>();
        let actual = weighted_convolution_group(
            &domain,
            &coefficients,
            gamma_inverse_small,
            values.clone(),
        );
        let two_b = scalar(2 * batch_size);

        for output in 0..batch_size {
            let mut raw = G1::zero();
            for (input, value) in values.iter().enumerate() {
                if output == input {
                    continue;
                }
                let power = scalar_pow(
                    domain.generator_inverse(),
                    ((output + batch_size - input) % batch_size) as u64,
                );
                let denominator_inverse = Fr::one().minus(power).invert().unwrap();
                raw = raw.plus(value.times(denominator_inverse));
            }
            let q = points[output].times(Fr::from_u64(gamma_inverse_small_u64)).minus(Fr::one());
            assert_eq!(actual[output], raw.times(two_b.times(q)));
            assert_eq!(
                q,
                points[output].minus(gamma).times(Fr::from_u64(gamma_inverse_small_u64))
            );
        }
    }
}

#[test]
fn threshold_protocol_round_trip() {
    let (material, messages, ciphertexts, batch, kernel) = sample_batch(8, 5, 2);
    let precomputation = precompute_batch(&kernel, &batch).unwrap();
    let shares = shares_of(&material, &batch, &[0, 1, 2]);
    let combined = combine_shares(&material.decryption_key, &batch, &shares).unwrap();
    assert!(verify_combined_share(&material.decryption_key, &batch, combined).unwrap());
    let opened = open_batch(&kernel, &batch, &ciphertexts, &precomputation, combined).unwrap();
    assert_eq!(opened, messages);
}

#[test]
fn round_trips_all_small_power_of_two_sizes_and_identity_messages() {
    for batch_size in [1usize, 2, 4, 8, 16] {
        let material = keygen(batch_size, 3, 1).unwrap();
        let messages = (0..batch_size)
            .map(|index| {
                if index % 2 == 0 {
                    GtElement::zero()
                } else {
                    GtElement::generator().times(scalar(index + 1))
                }
            })
            .collect::<Vec<_>>();
        let ciphertexts = messages
            .iter()
            .map(|message| encrypt(&material.encryption_key, *message).unwrap())
            .collect::<Vec<_>>();
        let batch = validate_batch(&material.encryption_key, &ciphertexts).unwrap();
        let kernel = PartialFractionKernel::new(&material.decryption_key).unwrap();
        let precomputation = precompute_batch(&kernel, &batch).unwrap();
        let shares = shares_of(&material, &batch, &[0, 1]);
        let combined = combine_shares(&material.decryption_key, &batch, &shares).unwrap();
        let opened = open_batch(&kernel, &batch, &ciphertexts, &precomputation, combined).unwrap();
        assert_eq!(opened, messages, "round trip failed for B={batch_size}");
    }
}

#[test]
fn fused_opening_matches_literal_construction_one() {
    let (material, _, ciphertexts, batch, kernel) = sample_batch(4, 5, 2);
    let precomputation = precompute_batch(&kernel, &batch).unwrap();
    let shares = shares_of(&material, &batch, &[0, 2, 4]);
    let combined = combine_shares(&material.decryption_key, &batch, &shares).unwrap();
    let optimized = open_batch(&kernel, &batch, &ciphertexts, &precomputation, combined).unwrap();

    let points = index_points(batch.batch_size).unwrap();
    let (gamma, gamma_inverse_small) = extra_index_data(batch.batch_size).unwrap();
    let gamma_inverse = Fr::from_u64(gamma_inverse_small);
    let half = Fr::from_u64(2).invert().unwrap();
    let half_b_plus_one = scalar(batch.batch_size + 1).times(half);
    let key_sum = material.decryption_key.fraction_key_sum();
    let keys = material.decryption_key.fraction_keys();

    let tm = (0..batch.batch_size)
        .map(|slot| pair(batch.first_affine[slot], keys[slot]))
        .collect::<Vec<_>>();

    let literal = (0..batch.batch_size)
        .map(|output| {
            let mut first_sum = G1::zero();
            let mut key_sum_weighted = G2::zero();
            let mut target_sum = GtElement::zero();
            for input in 0..batch.batch_size {
                if input == output {
                    continue;
                }
                let inverse_difference = points[output].minus(points[input]).invert().unwrap();
                first_sum = first_sum.plus(batch.first_projective[input].times(inverse_difference));
                key_sum_weighted =
                    key_sum_weighted.plus(G2::from_affine(keys[input]).times(inverse_difference));
                target_sum = target_sum.plus(tm[input].times(inverse_difference));
            }

            let point_inverse = points[output].invert().unwrap();
            let gamma_difference_inverse = points[output].minus(gamma).invert().unwrap();
            let coefficient = point_inverse.times(half_b_plus_one).plus(gamma_difference_inverse);
            let u = batch.second_projective[output]
                .minus(combined)
                .plus(batch.first_projective[output].times(coefficient))
                .minus(first_sum);
            let negative_first = G1::zero().minus(batch.first_projective[output]).to_affine();
            let l1 = multi_pairing(
                &[u.to_affine(), negative_first],
                &[keys[output], key_sum_weighted.to_affine()],
            )
            .plus(target_sum);
            let l2 = multi_pairing(
                &[batch.second_projective[output].to_affine(), negative_first],
                &[G2Point::generator(), key_sum],
            );

            let s2 = points[output].times(gamma_inverse);
            let s1 = s2.times(points[output].minus(gamma));
            let mask = l2.times(s2).minus(l1.times(s1));
            ciphertexts[output].third.minus(mask)
        })
        .collect::<Vec<_>>();

    assert_eq!(optimized, literal);
}

#[test]
fn arbitrary_eight_of_sixteen_subset_reconstructs() {
    let (material, messages, ciphertexts, batch, kernel) = sample_batch(8, 16, 7);
    let selected = [15usize, 1, 13, 3, 11, 5, 9, 7];
    let shares = shares_of(&material, &batch, &selected);
    let combined = combine_shares(&material.decryption_key, &batch, &shares).unwrap();
    let precomputation = precompute_batch(&kernel, &batch).unwrap();
    let opened = open_batch(&kernel, &batch, &ciphertexts, &precomputation, combined).unwrap();
    assert_eq!(opened, messages);
}

#[test]
fn checked_combine_discards_a_bad_share() {
    let (material, messages, ciphertexts, batch, kernel) = sample_batch(4, 5, 2);
    let precomputation = precompute_batch(&kernel, &batch).unwrap();
    let mut shares = shares_of(&material, &batch, &[0, 1, 2, 3]);
    shares[1].pre_decryption_key = shares[1].pre_decryption_key.plus(G1::generator());

    let combined = combine_shares_checked(&material.decryption_key, &batch, &shares).unwrap();
    let opened = open_batch(&kernel, &batch, &ciphertexts, &precomputation, combined).unwrap();
    assert_eq!(opened, messages);
}

#[test]
fn rejects_invalid_proof_and_share_sets() {
    let (material, _, mut ciphertexts, batch, _) = sample_batch(4, 4, 2);
    ciphertexts[0].proof.response = ciphertexts[0].proof.response.plus(Fr::one());
    assert!(matches!(
        validate_batch(&material.encryption_key, &ciphertexts),
        Err(Error::InvalidProof)
    ));

    let share = partial_decrypt(&material.server_keys[0], &batch).unwrap();
    assert!(matches!(
        combine_shares(&material.decryption_key, &batch, &[share, share]),
        Err(Error::InsufficientShares { .. })
    ));

    let share_zero = partial_decrypt(&material.server_keys[0], &batch).unwrap();
    let share_one = partial_decrypt(&material.server_keys[1], &batch).unwrap();
    assert!(matches!(
        combine_shares(
            &material.decryption_key,
            &batch,
            &[share_zero, share_zero, share_one]
        ),
        Err(Error::DuplicateServerIndex(0))
    ));
}

#[test]
fn encryption_encryption_proof_verifies() {
    let material = keygen(8, 3, 1).unwrap();
    let message = GtElement::generator().times(Fr::from_u64(42));
    let ciphertext = encrypt(&material.encryption_key, message).unwrap();
    assert!(ciphertext.verify(&material.encryption_key));
}

#[test]
fn masked_component_is_not_part_of_the_paper_proof_statement() {
    let material = keygen(4, 3, 1).unwrap();
    let mut ciphertext = encrypt(&material.encryption_key, GtElement::zero()).unwrap();
    ciphertext.third = ciphertext.third.plus(GtElement::generator());
    // The proof is about the two points alone, so it still holds.
    assert!(ciphertext.verify(&material.encryption_key));
}

#[test]
fn proof_verifies_and_statement_tampering_fails() {
    let mut rng = SystemRng::new();
    let base = G1::generator().times(rng.random_scalar()).to_affine();
    let witness = rng.random_scalar();
    let first = G1::generator().times(witness).to_affine();
    let second = G1::from_affine(base).times(witness).to_affine();
    let proof = DleqProof::create(base, witness, first, second, &mut rng).unwrap();

    assert!(proof.verify(base, first, second));
    assert!(!proof.verify(base, shifted(first), second));
    assert!(!proof.verify(base, first, shifted(second)));

    let mut first_commitment_tampered = proof;
    first_commitment_tampered.first_commitment =
        shifted(first_commitment_tampered.first_commitment);
    assert!(!first_commitment_tampered.verify(base, first, second));

    let mut second_commitment_tampered = proof;
    second_commitment_tampered.second_commitment =
        shifted(second_commitment_tampered.second_commitment);
    assert!(!second_commitment_tampered.verify(base, first, second));
}

#[test]
fn randomized_batch_verification_detects_tampering() {
    let mut rng = SystemRng::new();
    let base = G1::generator().times(rng.random_scalar()).to_affine();
    let witnesses = (0..8).map(|_| rng.random_scalar()).collect::<Vec<_>>();
    let first = witnesses
        .iter()
        .map(|witness| G1::generator().times(*witness))
        .collect::<Vec<_>>();
    let second = witnesses
        .iter()
        .map(|witness| G1::from_affine(base).times(*witness))
        .collect::<Vec<_>>();
    let mut proofs = witnesses
        .iter()
        .zip(first.iter())
        .zip(second.iter())
        .map(|((witness, first), second)| {
            DleqProof::create(base, *witness, first.to_affine(), second.to_affine(), &mut rng)
                .unwrap()
        })
        .collect::<Vec<_>>();

    assert!(verify_batch(base, &first, &second, &proofs, &mut rng).unwrap());
    proofs[3].response = proofs[3].response.plus(Fr::one());
    assert!(!verify_batch(base, &first, &second, &proofs, &mut rng).unwrap());
}

#[test]
fn setup_key_material_has_expected_shapes() {
    let material = keygen(16, 5, 2).unwrap();
    assert_eq!(material.encryption_key.batch_size, 16);
    assert_eq!(material.decryption_key.fraction_keys.len(), 16);
    assert_eq!(material.server_keys.len(), 5);
    assert_eq!(material.server_keys[0].fraction_shares.len(), 16);
    assert_eq!(material.decryption_key.required_shares(), 3);
    assert!(material.decryption_key.has_share_commitments());
}

#[test]
fn roots_and_extra_index_are_distinct() {
    for size in [1usize, 2, 4, 8, 16] {
        let roots = index_points(size).unwrap();
        let gamma = extra_index_data(size).unwrap().0;
        assert!(roots.iter().all(|root| *root != Fr::zero()));
        assert!(roots.iter().all(|root| *root != gamma));
    }
}

#[test]
fn rejects_invalid_parameters() {
    assert!(matches!(keygen(8, 3, 3), Err(Error::InvalidCommittee { .. })));
    assert!(matches!(keygen(3, 3, 1), Err(Error::InvalidBatchSize(3))));
}

#[test]
fn pfe_keys_follow_the_secret_and_the_tails() {
    // one slot, whose label is one; the secret 2 gives fractions 1/2, 2/5 and 1/3
    let config = KeygenConfig::new(1, 2, 1);
    let material = keygen_with_scalars(config, Fr::from_u64(2), &vec![vec![Fr::from_u64(5)]]).unwrap();
    let half = Fr::from_u64(2).invert().unwrap();
    let third = Fr::from_u64(3).invert().unwrap();
    let fifth = Fr::from_u64(5).invert().unwrap();
    let sum = half.plus(Fr::from_u64(2).times(fifth)).plus(third);
    assert_eq!(
        material.encryption_key.relation_base,
        G1::generator().times(sum).to_affine()
    );
    assert_eq!(
        material.encryption_key.masking_base,
        GtElement::generator().times(half)
    );
    assert_eq!(material.server_keys[1].fraction_shares, vec![third.plus(Fr::from_u64(10))]);
    assert_eq!(material.server_keys[0].batch_size(), 1);
    let key = &material.decryption_key;
    assert_eq!(key.fraction_key_sum(), key.fraction_keys()[0]);
    assert!(matches!(key.share_commitment(2, 0), Err(Error::InvalidServerIndex(2))));
    assert!(matches!(key.share_commitment(0, 1), Err(Error::InvalidBatchSize(2))));
    assert!(key.share_commitment(1, 0).is_ok());
}

#[test]
fn pfe_weighted_batch_check_adds_the_equations_up() {
    // two bad responses whose errors cancel under equal weights, and not under others
    let mut rng = SystemRng::new();
    let base = G1::generator().times(rng.random_scalar()).to_affine();
    let witness = rng.random_scalar();
    let first = G1::generator().times(witness);
    let second = G1::from_affine(base).times(witness);
    let make = || {
        DleqProof::create(base, witness, first.to_affine(), second.to_affine(), &mut SystemRng::new())
            .unwrap()
    };
    let (mut left, mut right) = (make(), make());
    left.response = left.response.plus(Fr::one());
    right.response = right.response.minus(Fr::one());
    let (firsts, seconds, proofs) =
        (vec![first, first], vec![second, second], vec![left, right]);
    let equal = vec![Fr::from_u64(3), Fr::from_u64(3)];
    let unequal = vec![Fr::from_u64(3), Fr::from_u64(4)];
    assert!(verify_batch_with_weights(base, &firsts, &seconds, &proofs, &equal));
    assert!(!verify_batch_with_weights(base, &firsts, &seconds, &proofs, &unequal));
    assert!(!verify_batch_with_weights(base, &vec![first], &seconds, &proofs, &equal));
}

#[test]
fn pfe_batches_and_openings_refuse_what_does_not_fit() {
    let (material, _, ciphertexts, batch, kernel) = sample_batch(4, 3, 1);
    assert!(matches!(validate_batch(&material.encryption_key, &[]), Err(Error::BatchIsEmpty)));
    assert!(matches!(
        validate_batch(&material.encryption_key, &ciphertexts[..2]),
        Err(Error::MismatchedBatchSize { expected: 4, actual: 2 })
    ));
    let other = sample_batch(2, 3, 1);
    assert!(matches!(
        partial_decrypt(&other.0.server_keys[0], &batch),
        Err(Error::MismatchedBatchSize { expected: 2, actual: 4 })
    ));
    assert!(matches!(
        precompute_batch(&other.4, &batch),
        Err(Error::MismatchedBatchSize { expected: 2, actual: 4 })
    ));
    assert!(matches!(
        verify_combined_share(&other.0.decryption_key, &batch, G1::zero()),
        Err(Error::MismatchedBatchSize { expected: 2, actual: 4 })
    ));
    let precomputation = precompute_batch(&kernel, &batch).unwrap();
    assert!(matches!(
        open_batch(&kernel, &batch, &ciphertexts[..3], &precomputation, G1::zero()),
        Err(Error::MismatchedBatchSize { expected: 4, actual: 3 })
    ));
    let mut moved = ciphertexts.clone();
    moved.swap(1, 2);
    let moved_batch = ValidatedBatch::proofs_preverified(&material.encryption_key, &moved).unwrap();
    assert!(matches!(
        open_batch(&kernel, &moved_batch, &moved, &precomputation, G1::zero()),
        Err(Error::InvalidShare)
    ));
    let share = partial_decrypt(&material.server_keys[2], &batch).unwrap();
    assert!(verify_decryption_share(&material.decryption_key, &batch, &share).unwrap());
    let mut bad = share;
    bad.pre_decryption_key = bad.pre_decryption_key.plus(G1::generator());
    assert!(!verify_decryption_share(&material.decryption_key, &batch, &bad).unwrap());
    bad.server_index = 3;
    assert!(matches!(
        verify_decryption_share(&material.decryption_key, &batch, &bad),
        Err(Error::InvalidServerIndex(3))
    ));
    assert!(!verify_decryption_share(&material.decryption_key, &moved_batch, &share).unwrap());
}

#[test]
fn pfe_shares_without_commitments_cannot_be_checked_one_by_one() {
    let mut config = KeygenConfig::new(2, 2, 0);
    config.publish_share_commitments = false;
    let material = keygen_with_rng(config, &mut SystemRng::new()).unwrap();
    let message = GtElement::generator();
    let ciphertexts = (0..2)
        .map(|index| {
            encrypt_with_scalars(
                &material.encryption_key,
                message,
                scalar(index + 5),
                scalar(index + 9),
            )
            .unwrap()
        })
        .collect::<Vec<_>>();
    let batch = ValidatedBatch::verify(&material.encryption_key, &ciphertexts).unwrap();
    let mut shares = shares_of(&material, &batch, &[1]);
    assert!(matches!(
        verify_decryption_share(&material.decryption_key, &batch, &shares[0]),
        Err(Error::InvalidShare)
    ));
    assert!(combine_shares_checked(&material.decryption_key, &batch, &shares).is_ok());
    shares[0].pre_decryption_key = G1::zero();
    assert!(matches!(
        combine_shares_checked(&material.decryption_key, &batch, &shares),
        Err(Error::InvalidShare)
    ));
}

#[test]
fn pfe_target_convolution_agrees_with_the_source_groups() {
    let domain = Radix2Domain::new(4).unwrap();
    let coefficients = vec![3i64, 1, -1, -3];
    let logs = [7usize, 1, 0, 12];
    let left = weighted_convolution_group(
        &domain,
        &coefficients,
        2,
        logs.iter().map(|log| G1::generator().times(scalar(*log))).collect(),
    );
    let right = weighted_convolution_gt(
        &domain,
        &coefficients,
        2,
        logs.iter().map(|log| GtElement::generator().times(scalar(*log))).collect(),
    );
    for slot in 0..4 {
        assert_eq!(pair(left[slot].to_affine(), G2Point::generator()), right[slot]);
    }
}

#[test]
fn pfe_errors_have_messages() {
    assert_eq!(
        Error::InvalidBatchSize(3).message(),
        "PFE batch size 3 must be a supported power of two"
    );
    assert_eq!(
        Error::InvalidCommittee { server_count: 3, threshold: 4 }.message(),
        "invalid committee: corruption threshold 4 must be smaller than server count 3"
    );
    assert_eq!(Error::InvalidProof.message(), "a ciphertext proof is invalid");
    assert_eq!(Error::BatchIsEmpty.message(), "the ciphertext batch is empty");
    assert_eq!(
        Error::InsufficientShares { supplied: 2, required: 3 }.message(),
        "insufficient decryption shares: supplied 2, require 3"
    );
}

#[test]
fn pfe_validation_with_given_weights_is_exact() {
    let (material, _, mut ciphertexts, batch, _) = sample_batch(2, 2, 1);
    let equal = vec![Fr::from_u64(5), Fr::from_u64(5)];
    let unequal = vec![Fr::from_u64(5), Fr::from_u64(6)];
    let key = &material.encryption_key;
    let again = ValidatedBatch::verify_with_weights(key, &ciphertexts, &unequal).unwrap();
    assert_eq!(again.digest(), batch.digest());
    assert_eq!(again.batch_size(), 2);
    ciphertexts[0].proof.response = ciphertexts[0].proof.response.plus(Fr::one());
    ciphertexts[1].proof.response = ciphertexts[1].proof.response.minus(Fr::one());
    assert!(ValidatedBatch::verify_with_weights(key, &ciphertexts, &equal).is_ok());
    assert!(matches!(
        ValidatedBatch::verify_with_weights(key, &ciphertexts, &unequal),
        Err(Error::InvalidProof)
    ));
}

/// A source that always yields the same scalar.
struct Constant(u64);

impl ScalarGenerator for Constant {
    fn next_scalar(&mut self) -> Fr {
        Fr::from_u64(self.0)
    }
}

#[test]
fn pfe_proofs_are_those_of_the_drawn_nonce() {
    let (base, witness) = (G1::generator().times(Fr::from_u64(3)).to_affine(), Fr::from_u64(5));
    let first = G1::generator().times(witness).to_affine();
    let second = G1::from_affine(base).times(witness).to_affine();
    let mut rng = Recorded::new(Constant(7));
    let drawn = DleqProof::create(base, witness, first, second, &mut rng).unwrap();
    let made =
        DleqProof::create_with_nonce(base, witness, first, second, Fr::from_u64(7)).unwrap();
    assert_eq!(drawn.response, made.response);
    assert_eq!(drawn.first_commitment, G1::generator().times(Fr::from_u64(7)).to_affine());
    assert_eq!(drawn.second_commitment, G1::generator().times(Fr::from_u64(21)).to_affine());
}

#[test]
fn pfe_batches_of_different_counts_do_not_hold_and_empty_ones_do() {
    let base = G1::generator().to_affine();
    let point = vec![G1::generator()];
    let mut rng = SystemRng::new();
    assert_eq!(verify_batch(base, &vec![], &vec![], &vec![], &mut rng), Some(true));
    assert_eq!(verify_batch(base, &point, &vec![], &vec![], &mut rng), Some(false));
    assert_eq!(verify_batch(base, &point, &point, &vec![], &mut rng), Some(false));
}

#[test]
fn pfe_one_bad_proof_is_refused_with_any_nonzero_weights() {
    let base = G1::generator().times(Fr::from_u64(3)).to_affine();
    let mut rng = SystemRng::new();
    let (mut firsts, mut seconds, mut proofs) = (vec![], vec![], vec![]);
    for witness in 1..5 {
        let witness = Fr::from_u64(witness);
        let first = G1::generator().times(witness);
        let second = G1::from_affine(base).times(witness);
        proofs.push(
            DleqProof::create(base, witness, first.to_affine(), second.to_affine(), &mut rng)
                .unwrap(),
        );
        firsts.push(first);
        seconds.push(second);
    }
    let weights = (1..5).map(|w| Fr::from_u64(w * w)).collect::<Vec<_>>();
    assert!(verify_batch_with_weights(base, &firsts, &seconds, &proofs, &weights));
    for bad in 0..4 {
        let mut tampered = proofs.clone();
        tampered[bad].response = tampered[bad].response.plus(Fr::one());
        assert!(!verify_batch_with_weights(base, &firsts, &seconds, &tampered, &weights));
    }
    // a weight of zero would let it pass
    let mut tampered = proofs.clone();
    tampered[2].response = tampered[2].response.plus(Fr::one());
    let mut blind = weights.clone();
    blind[2] = Fr::zero();
    assert!(verify_batch_with_weights(base, &firsts, &seconds, &tampered, &blind));
}
