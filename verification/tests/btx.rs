use wbte::btx::decryption::{
    combine_shares, combine_shares_checked, open_batch, partial_decrypt, precompute_batch,
    validate_batch, verify_combined_share, verify_decryption_share, DecryptionShare,
    MiddleProductKernel, ValidatedBatch,
};
use wbte::btx::encryption::{encrypt, encrypt_with_rng, encrypt_with_scalars, Ciphertext};
use wbte::btx::error::Error;
use wbte::btx::schnorr::SchnorrProof;
use wbte::btx::setup::{
    keygen, keygen_with_rng, keygen_with_scalars, KeyMaterial, KeygenConfig, PublicDecryptionKey,
};
use wbte::curve::{
    pair, Element, Fr, GtElement, Recorded, ScalarGenerator, ScalarRng, SystemRng, G1,
};

fn naive_beta(decryption_key: &PublicDecryptionKey, batch: &ValidatedBatch) -> Vec<GtElement> {
    (0..batch.batch_size)
        .map(|output_slot| {
            let mut sum = GtElement::zero();
            for input_slot in 0..batch.batch_size {
                if input_slot != output_slot && batch.valid[input_slot] {
                    let offset = input_slot as isize - output_slot as isize;
                    let right = decryption_key.centered_power(offset).unwrap();
                    sum = sum.plus(pair(batch.first_projective[input_slot].to_affine(), right));
                }
            }
            sum
        })
        .collect()
}

fn fixture(
    max_batch_size: usize,
    batch_size: usize,
) -> (KeyMaterial, Vec<GtElement>, Vec<Ciphertext>, ValidatedBatch, MiddleProductKernel) {
    let material = keygen(max_batch_size, 5, 2).unwrap();
    let messages = (0..batch_size)
        .map(|index| GtElement::generator().times(Fr::from_u64((index + 17) as u64)))
        .collect::<Vec<_>>();
    let ciphertexts = messages
        .iter()
        .map(|message| encrypt(&material.encryption_key, *message).unwrap())
        .collect::<Vec<_>>();
    let batch = ValidatedBatch::verify(&ciphertexts).unwrap();
    let kernel = MiddleProductKernel::new(&material.decryption_key, batch_size).unwrap();
    (material, messages, ciphertexts, batch, kernel)
}

fn shares_of(material: &KeyMaterial, batch: &ValidatedBatch, servers: &[usize]) -> Vec<DecryptionShare> {
    servers
        .iter()
        .map(|index| partial_decrypt(&material.server_keys[*index], batch).unwrap())
        .collect()
}

fn some(messages: Vec<GtElement>) -> Vec<Option<GtElement>> {
    messages.into_iter().map(Some).collect()
}

#[test]
fn fft_middle_product_matches_quadratic_formula() {
    for batch_size in [1, 2, 3, 7, 8, 15] {
        let (material, _, _, batch, kernel) = fixture(16, batch_size);
        let fast = precompute_batch(&kernel, &batch).unwrap();
        let slow = naive_beta(&material.decryption_key, &batch);
        assert_eq!(fast.beta, slow, "batch size {batch_size}");
    }
}

#[test]
fn threshold_end_to_end() {
    let (material, messages, ciphertexts, batch, kernel) = fixture(16, 8);
    let precomputation = precompute_batch(&kernel, &batch).unwrap();
    let shares = shares_of(&material, &batch, &[0, 1, 2]);

    for share in &shares {
        assert!(verify_decryption_share(&material.decryption_key, &batch, share).unwrap());
    }

    let sigma = combine_shares(&material.decryption_key, &batch, &shares).unwrap();
    assert!(verify_combined_share(&material.decryption_key, &batch, sigma).unwrap());

    let decrypted = open_batch(&kernel, &batch, &ciphertexts, &precomputation, sigma).unwrap();
    assert_eq!(decrypted, some(messages));
}

#[test]
fn invalid_proof_preserves_slot_and_returns_bottom() {
    let (material, messages, mut ciphertexts, _, kernel) = fixture(16, 8);
    ciphertexts[3].proof.response = ciphertexts[3].proof.response.plus(Fr::one());
    let batch = ValidatedBatch::verify(&ciphertexts).unwrap();
    assert!(!batch.valid[3]);

    let precomputation = precompute_batch(&kernel, &batch).unwrap();
    let shares = shares_of(&material, &batch, &[0, 1, 2]);
    let sigma = combine_shares(&material.decryption_key, &batch, &shares).unwrap();
    let decrypted = open_batch(&kernel, &batch, &ciphertexts, &precomputation, sigma).unwrap();

    for slot in 0..8 {
        if slot == 3 {
            assert_eq!(decrypted[slot], None);
        } else {
            assert_eq!(decrypted[slot], Some(messages[slot]));
        }
    }
}

#[test]
fn entirely_invalid_batch_returns_only_bottom() {
    let (material, _, mut ciphertexts, _, kernel) = fixture(8, 4);
    for ciphertext in &mut ciphertexts {
        ciphertext.proof.response = ciphertext.proof.response.plus(Fr::one());
    }
    let batch = ValidatedBatch::verify(&ciphertexts).unwrap();
    assert_eq!(batch.valid_count(), 0);
    let precomputation = precompute_batch(&kernel, &batch).unwrap();
    let shares = shares_of(&material, &batch, &[0, 1, 2]);
    let sigma = combine_shares(&material.decryption_key, &batch, &shares).unwrap();
    assert!(sigma == G1::zero());
    assert!(verify_combined_share(&material.decryption_key, &batch, sigma).unwrap());
    assert_eq!(
        open_batch(&kernel, &batch, &ciphertexts, &precomputation, sigma).unwrap(),
        vec![None; 4]
    );
}

#[test]
fn shuffled_server_subset_reconstructs() {
    let (material, messages, ciphertexts, batch, kernel) = fixture(8, 4);
    let precomputation = precompute_batch(&kernel, &batch).unwrap();
    let shares = shares_of(&material, &batch, &[4, 1, 3]);
    let sigma = combine_shares(&material.decryption_key, &batch, &shares).unwrap();
    let decrypted = open_batch(&kernel, &batch, &ciphertexts, &precomputation, sigma).unwrap();
    assert_eq!(decrypted, some(messages));
}

#[test]
fn corrupted_share_fails_verification() {
    let (material, _, _, batch, _) = fixture(8, 4);
    let mut share = partial_decrypt(&material.server_keys[0], &batch).unwrap();
    share.sigma = share.sigma.plus(G1::generator());
    assert!(!verify_decryption_share(&material.decryption_key, &batch, &share).unwrap());
}

#[test]
fn checked_combine_excludes_a_corrupted_share() {
    let (material, messages, ciphertexts, batch, kernel) = fixture(8, 4);
    let precomputation = precompute_batch(&kernel, &batch).unwrap();
    let mut shares = shares_of(&material, &batch, &[0, 1, 2, 3]);
    shares[0].sigma = shares[0].sigma.plus(G1::generator());

    let sigma = combine_shares_checked(&material.decryption_key, &batch, &shares).unwrap();
    let decrypted = open_batch(&kernel, &batch, &ciphertexts, &precomputation, sigma).unwrap();
    assert_eq!(decrypted, some(messages));
}

#[test]
fn rejects_duplicate_and_insufficient_shares() {
    let (material, _, _, batch, _) = fixture(8, 4);
    let share = partial_decrypt(&material.server_keys[0], &batch).unwrap();
    assert!(matches!(
        combine_shares(&material.decryption_key, &batch, std::slice::from_ref(&share)),
        Err(Error::InsufficientShares { .. })
    ));
    assert!(matches!(
        combine_shares(&material.decryption_key, &batch, &[share, share, share]),
        Err(Error::DuplicateServerIndex(0))
    ));
}

#[test]
fn encryption_proof_verifies() {
    let material = keygen(8, 3, 1).unwrap();
    let message = GtElement::generator().times(Fr::from_u64(42));
    let ciphertext = encrypt(&material.encryption_key, message).unwrap();
    assert!(ciphertext.verify());
}

#[test]
fn valid_proof_verifies_and_tampering_fails() {
    let mut rng = SystemRng::new();
    let randomness = rng.random_scalar();
    let ct1 = G1::generator().times(randomness);
    let ct2 = GtElement::generator().times(rng.random_scalar());
    let proof = SchnorrProof::create(randomness, ct1, &ct2, &mut rng).unwrap();

    assert!(proof.verify(ct1, &ct2));
    assert!(!proof.verify(ct1.plus(G1::generator()), &ct2));
    assert!(!proof.verify(ct1, &ct2.plus(GtElement::generator())));
}

#[test]
fn identity_target_element_is_transcript_safe() {
    let mut rng = SystemRng::new();
    let randomness = rng.random_scalar();
    let ct1 = G1::generator().times(randomness);
    let ct2 = GtElement::zero();
    let proof = SchnorrProof::create(randomness, ct1, &ct2, &mut rng).unwrap();
    assert!(proof.verify(ct1, &ct2));
}

#[test]
fn key_material_has_expected_shapes() {
    let material = keygen(16, 5, 2).unwrap();
    assert_eq!(material.encryption_key.max_batch_size, 16);
    assert_eq!(material.decryption_key.low_powers.len(), 16);
    assert_eq!(material.decryption_key.high_powers.len(), 15);
    assert_eq!(material.server_keys.len(), 5);
    assert_eq!(material.server_keys[0].shares.len(), 16);
    assert!(material.decryption_key.has_share_commitments());
    assert!(material.decryption_key.power(17).is_err());
}

#[test]
fn rejects_invalid_committee() {
    assert!(matches!(keygen(8, 3, 3), Err(Error::InvalidCommittee { .. })));
}

#[test]
fn minimum_batch_size_has_no_high_powers() {
    let material = keygen(1, 1, 0).unwrap();
    assert_eq!(material.decryption_key.low_powers.len(), 1);
    assert!(material.decryption_key.high_powers.is_empty());
    assert_eq!(material.server_keys[0].shares.len(), 1);
}

/// A source that always yields the same scalar.
struct ConstantRng {
    value: u64,
}

impl ScalarGenerator for ConstantRng {
    fn next_scalar(&mut self) -> Fr {
        Fr::from_u64(self.value)
    }
}

#[test]
fn btx_keys_follow_the_secret_and_the_tails() {
    // secret 3, one tail coefficient 5 for the first slot and 7 for the second
    let config = KeygenConfig::new(2, 2, 1);
    let tails = vec![vec![Fr::from_u64(5)], vec![Fr::from_u64(7)]];
    let material = keygen_with_scalars(config, Fr::from_u64(3), &tails).unwrap();
    assert_eq!(
        material.encryption_key.element,
        GtElement::generator().times(Fr::from_u64(27))
    );
    // shares: 3 + 5 x and 9 + 7 x at x = 1 and x = 2
    assert_eq!(material.server_keys[0].shares, vec![Fr::from_u64(8), Fr::from_u64(16)]);
    assert_eq!(material.server_keys[1].shares, vec![Fr::from_u64(13), Fr::from_u64(23)]);
    assert_eq!(material.server_keys[1].domain_point, Fr::from_u64(2));
    let key = &material.decryption_key;
    assert_eq!(key.required_shares(), 2);
    assert_eq!(key.threshold(), 1);
    assert_eq!(key.server_count(), 2);
    assert_eq!(key.server_domain().len(), 2);
    assert_eq!(key.max_batch_size(), 2);
    assert!(matches!(key.power(0), Err(Error::InvalidBatchSize(0))));
    assert!(matches!(key.power(3), Err(Error::InvalidBatchSize(3))));
    assert!(key.power(4).is_ok());
    assert!(matches!(key.centered_power(0), Err(Error::InvalidBatchSize(3))));
    assert!(matches!(key.centered_power(-3), Err(Error::InvalidBatchSize(0))));
    assert!(key.share_commitment(1, 1).is_ok());
    assert!(matches!(key.share_commitment(2, 0), Err(Error::InvalidServerIndex(2))));
    assert!(matches!(
        key.share_commitment(0, 2),
        Err(Error::BatchTooLarge { batch_size: 3, max_batch_size: 2 })
    ));
}

#[test]
fn btx_encryption_is_determined_by_its_scalars() {
    let material = keygen(4, 2, 1).unwrap();
    let message = GtElement::generator().times(Fr::from_u64(9));
    let (r, n) = (Fr::from_u64(21), Fr::from_u64(22));
    let ciphertext = encrypt_with_scalars(&material.encryption_key, message, r, n).unwrap();
    assert_eq!(ciphertext.first, G1::generator().times(r).to_affine());
    assert_eq!(ciphertext.second, message.plus(material.encryption_key.element.times(r)));
    assert!(ciphertext.verify());
    let mut constant = Recorded::new(ConstantRng { value: 21 });
    let other = encrypt_with_rng(&material.encryption_key, message, &mut constant).unwrap();
    assert_eq!(other.first, ciphertext.first);
}

#[test]
fn btx_sampling_and_batch_limits_are_errors() {
    let mut config = KeygenConfig::new(2, 3, 1);
    config.publish_share_commitments = false;
    let mut rng = SystemRng::new();
    let material = keygen_with_rng(config, &mut rng).unwrap();
    assert!(!material.decryption_key.has_share_commitments());
    assert!(matches!(
        material.decryption_key.share_commitment(0, 0),
        Err(Error::InvalidShare)
    ));
    assert!(matches!(keygen(0, 3, 1), Err(Error::BatchIsEmpty)));
    assert!(matches!(validate_batch(&[]), Err(Error::BatchIsEmpty)));
    let ciphertexts = (0..3)
        .map(|_| encrypt(&material.encryption_key, GtElement::generator()).unwrap())
        .collect::<Vec<_>>();
    let batch = ValidatedBatch::proofs_preverified(&ciphertexts).unwrap();
    assert_eq!(batch.batch_size(), 3);
    assert_eq!(batch.valid_mask(), &vec![true; 3]);
    assert!(matches!(
        partial_decrypt(&material.server_keys[0], &batch),
        Err(Error::BatchTooLarge { batch_size: 3, max_batch_size: 2 })
    ));
    assert!(matches!(
        MiddleProductKernel::new(&material.decryption_key, 3),
        Err(Error::BatchTooLarge { .. })
    ));
    assert!(matches!(
        MiddleProductKernel::new(&material.decryption_key, 0),
        Err(Error::BatchIsEmpty)
    ));
}

#[test]
fn btx_bad_share_without_commitments_is_refused() {
    let mut config = KeygenConfig::new(2, 3, 1);
    config.publish_share_commitments = false;
    let material = keygen_with_rng(config, &mut SystemRng::new()).unwrap();
    let ciphertexts = vec![encrypt(&material.encryption_key, GtElement::generator()).unwrap()];
    let batch = validate_batch(&ciphertexts).unwrap();
    let mut shares = shares_of(&material, &batch, &[0, 2]);
    assert!(combine_shares_checked(&material.decryption_key, &batch, &shares).is_ok());
    shares[1].sigma = shares[1].sigma.plus(G1::generator());
    assert!(matches!(
        combine_shares_checked(&material.decryption_key, &batch, &shares),
        Err(Error::InvalidShare)
    ));
    shares[1].server_index = 3;
    assert!(matches!(
        combine_shares(&material.decryption_key, &batch, &shares),
        Err(Error::InvalidServerIndex(3))
    ));
    shares[0].batch_digest[0] ^= 1;
    assert!(matches!(
        combine_shares(&material.decryption_key, &batch, &shares),
        Err(Error::InvalidShare)
    ));
    assert!(!verify_decryption_share(&material.decryption_key, &batch, &shares[0]).unwrap());
}

#[test]
fn btx_opening_refuses_what_does_not_fit() {
    let (material, _, ciphertexts, batch, kernel) = fixture(8, 4);
    let precomputation = precompute_batch(&kernel, &batch).unwrap();
    assert_eq!(precomputation.digest, batch.digest());
    let sigma = G1::generator();
    assert!(matches!(
        open_batch(&kernel, &batch, &ciphertexts[..3], &precomputation, sigma),
        Err(Error::MismatchedBatchSize { expected: 4, actual: 3 })
    ));
    let mut moved = ciphertexts.clone();
    moved.swap(0, 1);
    let other = validate_batch(&moved).unwrap();
    assert!(other.digest() != batch.digest());
    assert!(matches!(
        open_batch(&kernel, &other, &moved, &precomputation, sigma),
        Err(Error::InvalidShare)
    ));
    let small = MiddleProductKernel::new(&material.decryption_key, 2).unwrap();
    assert!(matches!(
        precompute_batch(&small, &batch),
        Err(Error::MismatchedBatchSize { expected: 2, actual: 4 })
    ));
}

#[test]
fn btx_errors_have_messages() {
    assert_eq!(Error::BatchIsEmpty.message(), "the ciphertext batch is empty");
    assert_eq!(
        Error::BatchTooLarge { batch_size: 3, max_batch_size: 2 }.message(),
        "batch size 3 exceeds the configured maximum 2"
    );
    assert_eq!(
        Error::InvalidCommittee { server_count: 3, threshold: 3 }.message(),
        "invalid committee: threshold 3 must be smaller than server count 3"
    );
    assert_eq!(Error::InvalidServerIndex(12).message(), "invalid server index 12");
    assert_eq!(Error::DuplicateServerIndex(10).message(), "duplicate server index 10");
    assert_eq!(Error::InvalidShare.message(), "decryption share verification failed");
    assert_eq!(
        Error::InsufficientShares { supplied: 1, required: 100 }.message(),
        "insufficient decryption shares: supplied 1, require 100"
    );
    assert_eq!(
        Error::MismatchedBatchSize { expected: 4, actual: 0 }.message(),
        "mismatched batch size: expected 4, got 0"
    );
}
