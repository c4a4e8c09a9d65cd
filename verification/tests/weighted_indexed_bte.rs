use wbte::curve::{pair, Element, Fr, G1Point, GtElement, SystemRng, G1, G2};
use wbte::interpolation::lagrange_at_zero;
use wbte::weighted_indexed_bte::decryption::partial_decrypt_with_nonce;
use wbte::weighted_indexed_bte::dleq::{DleqProof, Pairs, ProofPurpose};
use wbte::weighted_indexed_bte::encryption::{
    client_proof_context, encrypt_with_scalars, signed_difference, xor_with_mask,
};
use wbte::weighted_indexed_bte::setup::{keygen_with_scalars, setup_with_scalar};
use wbte::weighted_indexed_bte::{
    accept_decryption_shares, decrypt, encrypt, keygen, open_batch, partial_decrypt,
    precompute_batch, prepare_decryption, setup, validate_batch, verify_decryption_share,
    AcceptedDecryptionShares, Ciphertext, DecryptionPrecomputation, DecryptionShare, Error,
    IndexedMiddleProductKernel, KeyMaterial, KeygenConfig, PublicParameters, ValidatedBatch,
};

const WEIGHTS: &[usize] = &[1, 3, 2, 4, 1];
const THRESHOLD: usize = 5;

struct Fixture {
    parameters: PublicParameters,
    material: KeyMaterial,
    messages: Vec<Vec<u8>>,
    ciphertexts: Vec<Ciphertext>,
    batch: ValidatedBatch,
    accepted: AcceptedDecryptionShares,
    fixed: IndexedMiddleProductKernel,
    committee: DecryptionPrecomputation,
}

fn shares_of(material: &KeyMaterial, batch: &ValidatedBatch, parties: &[usize]) -> Vec<DecryptionShare> {
    parties
        .iter()
        .map(|party| partial_decrypt(&material.party_keys[*party], batch).unwrap())
        .collect()
}

fn fixture(index_space: usize, indices: &[usize], parties: &[usize]) -> Fixture {
    let parameters = setup(index_space).unwrap();
    let material = keygen(&parameters, WEIGHTS, THRESHOLD).unwrap();
    let messages = indices
        .iter()
        .enumerate()
        .map(|(slot, index)| {
            format!("indexed message at slot {slot}, domain index {index}").into_bytes()
        })
        .collect::<Vec<_>>();
    let ciphertexts = messages
        .iter()
        .zip(indices)
        .map(|(message, index)| encrypt(&parameters, &material.public_key, message, *index).unwrap())
        .collect::<Vec<_>>();
    let batch = validate_batch(&material.public_key, &ciphertexts).unwrap();
    let shares = shares_of(&material, &batch, parties);
    let accepted = accept_decryption_shares(&material.public_key, &batch, &shares).unwrap();
    let fixed = IndexedMiddleProductKernel::new(&parameters).unwrap();
    let committee = prepare_decryption(&material.public_key, &accepted).unwrap();
    Fixture { parameters, material, messages, ciphertexts, batch, accepted, fixed, committee }
}

fn open_fixture(fixture: &Fixture) -> Vec<Option<Vec<u8>>> {
    let cross = precompute_batch(&fixture.fixed, &fixture.batch).unwrap();
    open_batch(
        &fixture.committee,
        &fixture.accepted,
        &fixture.batch,
        &fixture.ciphertexts,
        &cross,
    )
    .unwrap()
}

fn direct_beta(
    parameters: &PublicParameters,
    batch: &ValidatedBatch,
    ciphertexts: &[Ciphertext],
) -> Vec<GtElement> {
    batch
        .valid_index_by_slot
        .iter()
        .map(|output_index| {
            let mut sum = GtElement::zero();
            let Some(output_index) = *output_index else {
                return sum;
            };
            for (ciphertext, input_index) in ciphertexts.iter().zip(&batch.valid_index_by_slot) {
                let Some(input_index) = *input_index else {
                    continue;
                };
                if input_index == output_index {
                    continue;
                }
                let offset = output_index as isize - input_index as isize;
                sum = sum.plus(pair(
                    ciphertext.punctured,
                    parameters.centered_power(offset).unwrap(),
                ));
            }
            sum
        })
        .collect()
}

#[test]
fn weighted_threshold_and_sparse_distinct_indices_open() {
    let fixture = fixture(8, &[7, 1, 4, 2], &[3, 1]);
    assert_eq!(fixture.batch.used_indices(), &vec![1, 2, 4, 7]);
    assert_eq!(fixture.accepted.accepted_weight(), 7);
    assert_eq!(fixture.accepted.party_indices(), vec![1, 3]);
    assert_eq!(
        open_fixture(&fixture),
        fixture.messages.iter().cloned().map(Some).collect::<Vec<_>>()
    );

    let all_shares = shares_of(&fixture.material, &fixture.batch, &[0, 1, 2, 3, 4]);
    let selected =
        accept_decryption_shares(&fixture.material.public_key, &fixture.batch, &all_shares).unwrap();
    assert_eq!(selected.party_indices(), vec![1, 3]);
    assert_eq!(selected.accepted_weight(), 7);

    let light_shares = shares_of(&fixture.material, &fixture.batch, &[0, 2, 4]);
    assert!(matches!(
        accept_decryption_shares(&fixture.material.public_key, &fixture.batch, &light_shares),
        Err(Error::InsufficientWeight { .. })
    ));
}

#[test]
fn duplicate_valid_indices_are_rejected_and_out_of_range_indices_are_filtered() {
    let parameters = setup(4).unwrap();
    let material = keygen(&parameters, WEIGHTS, THRESHOLD).unwrap();
    let duplicate = vec![
        encrypt(&parameters, &material.public_key, b"first", 2).unwrap(),
        encrypt(&parameters, &material.public_key, b"second", 2).unwrap(),
    ];
    assert!(matches!(
        validate_batch(&material.public_key, &duplicate),
        Err(Error::DuplicateCiphertextIndex(2))
    ));

    let mut out_of_range = vec![
        encrypt(&parameters, &material.public_key, b"honest", 1).unwrap(),
        encrypt(&parameters, &material.public_key, b"malformed", 3).unwrap(),
    ];
    out_of_range[1].index = 4;
    let batch = validate_batch(&material.public_key, &out_of_range).unwrap();
    assert_eq!(batch.valid_mask(), &vec![true, false]);
    assert_eq!(batch.used_indices(), &vec![1]);
}

#[test]
fn invalid_client_proofs_preserve_positions_and_do_not_claim_indices() {
    let mut fixture = fixture(8, &[0, 3, 6, 7], &[1, 3]);
    let response = fixture.ciphertexts[1].proof.response;
    fixture.ciphertexts[1].proof.response = response.plus(Fr::one());
    // The invalid ciphertext may collide with a valid one without making the valid index
    // set ambiguous.
    fixture.ciphertexts[1].index = 0;

    let batch = validate_batch(&fixture.material.public_key, &fixture.ciphertexts).unwrap();
    assert_eq!(batch.valid_mask(), &vec![true, false, true, true]);
    assert_eq!(batch.used_indices(), &vec![0, 6, 7]);
    let shares = shares_of(&fixture.material, &batch, &[1, 3]);
    let accepted = accept_decryption_shares(&fixture.material.public_key, &batch, &shares).unwrap();
    let committee = prepare_decryption(&fixture.material.public_key, &accepted).unwrap();
    let cross = precompute_batch(&fixture.fixed, &batch).unwrap();
    let opened = open_batch(&committee, &accepted, &batch, &fixture.ciphertexts, &cross).unwrap();
    assert_eq!(opened[0].as_ref(), Some(&fixture.messages[0]));
    assert!(opened[1].is_none());
    assert_eq!(opened[2].as_ref(), Some(&fixture.messages[2]));
    assert_eq!(opened[3].as_ref(), Some(&fixture.messages[3]));
}

#[test]
fn malformed_and_replayed_server_shares_are_blamed() {
    let fixture = fixture(8, &[0, 2, 5], &[1, 2, 3]);
    let mut shares = shares_of(&fixture.material, &fixture.batch, &[1, 2, 3]);
    shares[1].proof.response = shares[1].proof.response.plus(Fr::one());
    let accepted =
        accept_decryption_shares(&fixture.material.public_key, &fixture.batch, &shares).unwrap();
    assert_eq!(accepted.rejected_parties(), &vec![2]);
    assert_eq!(accepted.accepted_weight(), 7);

    let other_ciphertexts = vec![encrypt(
        &fixture.parameters,
        &fixture.material.public_key,
        b"different batch",
        1,
    )
    .unwrap()];
    let other_batch = validate_batch(&fixture.material.public_key, &other_ciphertexts).unwrap();
    assert!(matches!(
        accept_decryption_shares(
            &fixture.material.public_key,
            &other_batch,
            &[shares[0], shares[2]],
        ),
        Err(Error::InsufficientWeight { .. })
    ));
}

#[test]
fn adaptive_cross_term_paths_match_direct_formula() {
    for index_space in [2usize, 4, 8] {
        let indices = (0..index_space).collect::<Vec<_>>();
        let fixture = fixture(index_space, &indices, &[1, 3]);
        let fast = precompute_batch(&fixture.fixed, &fixture.batch).unwrap();
        let slow = direct_beta(&fixture.parameters, &fixture.batch, &fixture.ciphertexts);
        assert_eq!(fast.beta, slow, "index space {index_space}");
    }

    // This shape takes the direct path rather than the transforms.
    let sparse = fixture(16, &[0, 7, 15], &[1, 3]);
    let fast = precompute_batch(&sparse.fixed, &sparse.batch).unwrap();
    let slow = direct_beta(&sparse.parameters, &sparse.batch, &sparse.ciphertexts);
    assert_eq!(fast.beta, slow);
}

#[test]
fn phased_objects_reject_cross_setup_batch_and_committee_reuse() {
    let fixture = fixture(8, &[0, 3, 6], &[1, 3]);
    let rotated_material = keygen(&fixture.parameters, WEIGHTS, THRESHOLD).unwrap();
    let rotated_ciphertexts = vec![encrypt(
        &fixture.parameters,
        &rotated_material.public_key,
        b"same CRS, rotated committee key",
        1,
    )
    .unwrap()];
    let rotated_batch = validate_batch(&rotated_material.public_key, &rotated_ciphertexts).unwrap();
    assert!(precompute_batch(&fixture.fixed, &rotated_batch).is_ok());

    let other_parameters = setup(8).unwrap();
    let other_material = keygen(&other_parameters, WEIGHTS, THRESHOLD).unwrap();
    let other_ciphertexts =
        vec![encrypt(&other_parameters, &other_material.public_key, b"other", 0).unwrap()];
    let other_batch = validate_batch(&other_material.public_key, &other_ciphertexts).unwrap();
    assert!(matches!(
        precompute_batch(&fixture.fixed, &other_batch),
        Err(Error::MismatchedSetup)
    ));

    let cross = precompute_batch(&fixture.fixed, &fixture.batch).unwrap();
    let reordered = vec![
        fixture.ciphertexts[2].clone(),
        fixture.ciphertexts[1].clone(),
        fixture.ciphertexts[0].clone(),
    ];
    let reordered_batch = validate_batch(&fixture.material.public_key, &reordered).unwrap();
    let reordered_shares = shares_of(&fixture.material, &reordered_batch, &[1, 3]);
    let reordered_accepted = accept_decryption_shares(
        &fixture.material.public_key,
        &reordered_batch,
        &reordered_shares,
    )
    .unwrap();
    // The committee's precomputation can be used again, since the parties and the used
    // indices are the same, but the old cross terms belong to the other batch.
    assert!(matches!(
        open_batch(
            &fixture.committee,
            &reordered_accepted,
            &reordered_batch,
            &reordered,
            &cross,
        ),
        Err(Error::MismatchedBatchDigest)
    ));

    let alternate_shares = shares_of(&fixture.material, &fixture.batch, &[0, 2, 3]);
    let alternate = accept_decryption_shares(
        &fixture.material.public_key,
        &fixture.batch,
        &alternate_shares,
    )
    .unwrap();
    assert!(matches!(
        open_batch(
            &fixture.committee,
            &alternate,
            &fixture.batch,
            &fixture.ciphertexts,
            &cross,
        ),
        Err(Error::MismatchedCommittee)
    ));
}

#[test]
fn encryption_proof_and_mask_round_trip() {
    let public_parameters = setup(8).unwrap();
    let material = keygen(&public_parameters, &[1, 3, 2], 3).unwrap();
    let message = b"an indexed weighted-BTE message";
    let ciphertext = encrypt(&public_parameters, &material.public_key, message, 5).unwrap();

    assert!(ciphertext.verify(&material.public_key));
    assert_eq!(ciphertext.serialized_size(), 2 * 48 + 2 * 8 + message.len() + 2 * 32);
    let mut encoding = Vec::new();
    ciphertext.append_canonical(&mut encoding);
    assert_eq!(encoding.len(), ciphertext.serialized_size());

    // Masking undoes itself for messages of any length, a last block that is not full
    // among them.
    let mask = GtElement::generator().times(Fr::from_u64(91));
    let setup_id = material.public_key.setup_id();
    let masked = xor_with_mask(&mask, setup_id, ciphertext.index, message);
    let plaintext = xor_with_mask(&mask, setup_id, ciphertext.index, &masked);
    assert_eq!(plaintext, message.to_vec());
}

#[test]
fn payload_index_and_setup_tampering_fail() {
    let public_parameters = setup(8).unwrap();
    let material = keygen(&public_parameters, &[1, 3, 2], 3).unwrap();
    let ciphertext = encrypt(
        &public_parameters,
        &material.public_key,
        b"bind every ciphertext component",
        2,
    )
    .unwrap();

    let mut changed_payload = ciphertext.clone();
    changed_payload.masked_message[0] ^= 1;
    assert!(!changed_payload.verify(&material.public_key));

    let mut changed_index = ciphertext.clone();
    changed_index.index = 3;
    assert!(!changed_index.verify(&material.public_key));

    let other_parameters = setup(8).unwrap();
    let other_material = keygen(&other_parameters, &[1, 3, 2], 3).unwrap();
    assert!(!ciphertext.verify(&other_material.public_key));
    assert!(matches!(
        encrypt(&other_parameters, &material.public_key, b"wrong setup", 2),
        Err(Error::MismatchedSetup)
    ));
}

#[test]
fn rejects_out_of_range_index() {
    let public_parameters = setup(4).unwrap();
    let material = keygen(&public_parameters, &[1, 1], 1).unwrap();
    assert!(matches!(
        encrypt(&public_parameters, &material.public_key, b"message", 4),
        Err(Error::InvalidCiphertextIndex(4))
    ));
}

fn statement(witness: Fr) -> Pairs {
    let first_base = G1Point::generator();
    let second_base = G1::generator().times(Fr::from_u64(19)).to_affine();
    Pairs {
        first_base,
        first_target: G1::from_affine(first_base).times(witness).to_affine(),
        second_base,
        second_target: G1::from_affine(second_base).times(witness).to_affine(),
    }
}

#[test]
fn valid_compact_proof_verifies() {
    let witness = Fr::from_u64(7);
    let pairs = statement(witness);
    let proof = DleqProof::create(
        ProofPurpose::Client,
        [3u8; 32],
        b"associated context",
        pairs,
        witness,
        &mut SystemRng::new(),
    )
    .unwrap();

    assert!(proof.verify(ProofPurpose::Client, [3u8; 32], b"associated context", pairs));
    assert_eq!(DleqProof::SERIALIZED_SIZE, 64);
}

#[test]
fn statement_context_and_proof_tampering_fail() {
    let witness = Fr::from_u64(11);
    let pairs = statement(witness);
    let setup_id = [5u8; 32];
    let context = b"batch digest";
    let proof = DleqProof::create(
        ProofPurpose::Server,
        setup_id,
        context,
        pairs,
        witness,
        &mut SystemRng::new(),
    )
    .unwrap();
    assert!(proof.verify(ProofPurpose::Server, setup_id, context, pairs));

    assert!(!proof.verify(ProofPurpose::Server, [6u8; 32], context, pairs));
    assert!(!proof.verify(ProofPurpose::Server, setup_id, b"another batch", pairs));
    let mut moved = pairs;
    moved.first_target =
        G1::from_affine(pairs.first_target).plus(G1::generator()).to_affine();
    assert!(!proof.verify(ProofPurpose::Server, setup_id, context, moved));

    let mut bad_challenge = proof;
    bad_challenge.challenge = bad_challenge.challenge.plus(Fr::one());
    assert!(!bad_challenge.verify(ProofPurpose::Server, setup_id, context, pairs));

    let mut bad_response = proof;
    bad_response.response = bad_response.response.plus(Fr::one());
    assert!(!bad_response.verify(ProofPurpose::Server, setup_id, context, pairs));
}

#[test]
fn proof_purposes_are_not_interchangeable() {
    let witness = Fr::from_u64(13);
    let pairs = statement(witness);
    let proof = DleqProof::create(
        ProofPurpose::Client,
        [9u8; 32],
        b"same bytes",
        pairs,
        witness,
        &mut SystemRng::new(),
    )
    .unwrap();
    assert!(!proof.verify(ProofPurpose::Server, [9u8; 32], b"same bytes", pairs));
    assert!(ProofPurpose::Client.tag() != ProofPurpose::Server.tag());
}

#[test]
fn crs_has_exact_paper_layout_and_serialized_size() {
    let parameters = setup(8).unwrap();
    assert_eq!(parameters.index_space_size(), 8);
    assert_eq!(parameters.g1_point_count(), 8);
    assert_eq!(parameters.g2_point_count(), 16);
    assert_eq!(parameters.g1_serialized_size(), 8 * 48);
    assert_eq!(parameters.g2_serialized_size(), 16 * 96);
    assert_eq!(parameters.serialized_size(), 8 * 48 + 16 * 96);

    for exponent in 1..=8 {
        assert!(parameters.g_power(exponent).is_ok());
    }
    for exponent in 1..=17 {
        assert_eq!(parameters.h_power(exponent).is_ok(), exponent != 9);
    }
    for offset in -8isize..=8 {
        assert_eq!(parameters.centered_power(offset).is_ok(), offset != 0);
    }

    // both arrays use the same secret
    assert_eq!(
        pair(parameters.g_power(2).unwrap(), parameters.h_power(1).unwrap()),
        pair(parameters.g_power(1).unwrap(), parameters.h_power(2).unwrap())
    );
}

#[test]
fn setup_rejects_invalid_or_overflowing_index_spaces() {
    assert!(matches!(setup(0), Err(Error::InvalidIndexSpace(0))));
    assert!(matches!(setup(1), Err(Error::InvalidIndexSpace(1))));
    assert!(matches!(setup(usize::MAX), Err(Error::ParameterSizeOverflow)));
}

#[test]
fn weighted_key_material_has_expected_shapes_layout_and_sizes() {
    let parameters = setup(4).unwrap();
    let material = keygen(&parameters, &[2, 1, 3], 3).unwrap();
    let public_key = &material.public_key;

    assert_eq!(public_key.crs_id(), parameters.crs_id());
    assert_eq!(public_key.index_space_size(), 4);
    assert_eq!(public_key.threshold_weight(), 3);
    assert_eq!(public_key.required_weight(), 4);
    assert_eq!(public_key.total_weight(), 6);
    assert_eq!(public_key.party_count(), 3);
    assert_eq!(public_key.party_weights(), &vec![2, 1, 3]);
    assert_eq!(public_key.party_range(0).unwrap(), (0, 2));
    assert_eq!(public_key.party_range(1).unwrap(), (2, 3));
    assert_eq!(public_key.party_range(2).unwrap(), (3, 6));
    assert_eq!(public_key.domain_points().len(), 6);
    assert_eq!(public_key.domain_size(), 8);
    assert_eq!(public_key.g1_point_count(), 4 + 3);
    assert_eq!(public_key.g2_point_count(), 4 * 6);
    assert_eq!(public_key.g1_serialized_size(), 7 * 48);
    assert_eq!(public_key.g2_serialized_size(), 24 * 96);
    assert_eq!(public_key.serialized_size(), 7 * 48 + 24 * 96);
    assert_eq!(material.party_keys.len(), 3);

    for index in 0..4 {
        assert_eq!(public_key.gamma_block(index).unwrap().len(), 6);
    }
    assert!(public_key.gamma_block(4).is_err());
    assert!(public_key.delta(4).is_err());
    assert!(public_key.inverse_key(3).is_err());
    assert!(public_key.party_range(3).is_err());

    for party in &material.party_keys {
        assert_eq!(party.setup_id(), public_key.setup_id());
        assert!(party.inverse_scalar() != Fr::zero());
        assert_eq!(
            party.public_inverse(),
            public_key.inverse_key(party.party_index).unwrap()
        );
        assert_eq!(
            party.public_inverse(),
            G1::generator().times(party.inverse_scalar()).to_affine()
        );
    }
}

#[test]
fn gamma_interpolation_recovers_the_indexed_mask() {
    let parameters = setup(4).unwrap();
    let material = keygen(&parameters, &[2, 1, 3], 3).unwrap();
    let public_key = &material.public_key;

    // Parties 0 and 2 contribute weight five, which exceeds the threshold three.
    let parties = [0usize, 2];
    let mut selected = Vec::new();
    for party in parties {
        let (start, end) = public_key.party_range(party).unwrap();
        selected.extend(start..end);
    }
    let coefficients = lagrange_at_zero(public_key.domain_points(), &selected).unwrap();

    for index in 0..public_key.index_space_size() {
        let mut alpha = GtElement::zero();
        let mut coefficient_offset = 0usize;
        for party in parties {
            let (start, end) = public_key.party_range(party).unwrap();
            let block = public_key.gamma_block(index).unwrap();
            let mut opening_key = G2::zero();
            for position in start..end {
                opening_key = opening_key.plus(
                    G2::from_affine(block[position])
                        .times(coefficients[coefficient_offset + position - start]),
                );
            }
            alpha = alpha.plus(pair(
                public_key.inverse_key(party).unwrap(),
                opening_key.to_affine(),
            ));
            coefficient_offset += end - start;
        }

        let auxiliary_index = if index == 0 { 1 } else { 0 };
        let offset = index as isize - auxiliary_index as isize;
        let expected = pair(
            public_key.delta(auxiliary_index).unwrap(),
            parameters.centered_power(offset).unwrap(),
        );
        assert_eq!(alpha, expected, "index {index}");
    }
}

#[test]
fn keygen_rejects_invalid_weighted_committees() {
    let parameters = setup(4).unwrap();
    assert!(matches!(keygen(&parameters, &[], 0), Err(Error::EmptyCommittee)));
    assert!(matches!(
        keygen(&parameters, &[2, 0, 1], 1),
        Err(Error::InvalidPartyWeight { party_index: 1, weight: 0 })
    ));
    assert!(matches!(
        keygen(&parameters, &[2, 1], 3),
        Err(Error::InvalidCommittee { .. })
    ));
    assert!(matches!(
        keygen(&parameters, &[usize::MAX, 1], 0),
        Err(Error::TotalWeightOverflow)
    ));
}

#[test]
fn one_virtual_share_uses_the_nonzero_singleton_domain() {
    let parameters = setup(2).unwrap();
    let material = keygen(&parameters, &[1], 0).unwrap();

    assert_eq!(material.public_key.domain_size(), 1);
    assert_eq!(material.public_key.domain_points(), &vec![Fr::one()]);
    assert_eq!(material.public_key.required_weight(), 1);
    assert_eq!(material.public_key.gamma_block(0).unwrap().len(), 1);
}

#[test]
fn indexed_identifiers_tell_setups_apart() {
    let first = setup(4).unwrap();
    let second = setup(4).unwrap();
    assert_ne!(first.crs_id(), second.crs_id());
    let one = keygen(&first, &[2, 1, 3], 3).unwrap();
    let other = keygen(&first, &[2, 1, 3], 3).unwrap();
    assert_eq!(one.public_key.crs_id(), other.public_key.crs_id());
    assert_ne!(one.public_key.setup_id(), other.public_key.setup_id());
}

#[test]
fn indexed_parameters_follow_the_secret() {
    let parameters = setup_with_scalar(2, Fr::from_u64(3)).unwrap();
    assert_eq!(
        parameters.g_power(2).unwrap(),
        G1::generator().times(Fr::from_u64(9)).to_affine()
    );
    assert_eq!(
        parameters.h_power(5).unwrap(),
        G2::generator().times(Fr::from_u64(243)).to_affine()
    );
    assert_eq!(parameters.serialized_size_bytes(), parameters.serialized_size());
    // the same secret gives the same parameters
    assert_eq!(
        setup_with_scalar(2, Fr::from_u64(3)).unwrap().crs_id(),
        parameters.crs_id()
    );
    let material = keygen_with_scalars(
        &parameters,
        KeygenConfig::new(&[1], 0),
        &vec![Fr::from_u64(5)],
        &vec![Fr::from_u64(4)],
    )
    .unwrap();
    assert_eq!(
        material.party_keys[0].inverse_scalar(),
        Fr::from_u64(4).invert().unwrap()
    );
}

#[test]
fn indexed_decryption_in_one_go() {
    let fixture = fixture(8, &[5, 0], &[1, 3]);
    let shares = shares_of(&fixture.material, &fixture.batch, &[1, 3]);
    assert!(verify_decryption_share(&fixture.material.public_key, &fixture.batch, &shares[0]).unwrap());
    let opened = decrypt(
        &fixture.parameters,
        &fixture.material.public_key,
        &fixture.ciphertexts,
        &shares,
    )
    .unwrap();
    assert_eq!(opened, fixture.messages.iter().cloned().map(Some).collect::<Vec<_>>());
    let fixed_nonce =
        partial_decrypt_with_nonce(&fixture.material.party_keys[1], &fixture.batch, Fr::from_u64(8))
            .unwrap();
    assert_eq!(fixed_nonce.sigma, shares[0].sigma);
    let mut bad = shares[0];
    bad.sigma = G1::from_affine(bad.sigma).plus(G1::generator()).to_affine();
    assert!(!verify_decryption_share(&fixture.material.public_key, &fixture.batch, &bad).unwrap());
    assert!(matches!(
        accept_decryption_shares(
            &fixture.material.public_key,
            &fixture.batch,
            &[shares[0], shares[0]]
        ),
        Err(Error::DuplicatePartyIndex(1))
    ));
    assert!(matches!(
        validate_batch(&fixture.material.public_key, &[]),
        Err(Error::BatchIsEmpty)
    ));
}

#[test]
fn indexed_encryption_follows_its_scalars() {
    let parameters = setup(4).unwrap();
    let material = keygen(&parameters, &[1, 1], 1).unwrap();
    let r = Fr::from_u64(6);
    let ciphertext = encrypt_with_scalars(
        &parameters,
        &material.public_key,
        b"payload",
        3,
        r,
        Fr::from_u64(7),
    )
    .unwrap();
    assert_eq!(ciphertext.first, G1::generator().times(r).to_affine());
    assert_eq!(ciphertext.masked_message.len(), 7);
    assert_eq!(ciphertext.index, 3);
    assert!(ciphertext.verify(&material.public_key));
}

#[test]
fn differences_and_contexts_are_exact() {
    assert_eq!(signed_difference(3, 5).unwrap(), -2);
    assert_eq!(signed_difference(5, 3).unwrap(), 2);
    assert!(signed_difference(usize::MAX, 0).is_err());
    let context = client_proof_context(2, b"ab");
    let domain = b"WEIGHTED-INDEXED-BTE-CLIENT-CONTEXT-v1";
    assert_eq!(&context[..38], domain);
    assert_eq!(&context[38..46], &2u64.to_le_bytes());
    assert_eq!(&context[46..54], &2u64.to_le_bytes());
    assert_eq!(&context[54..], b"ab");
}

#[test]
fn indexed_errors_have_messages() {
    assert_eq!(
        Error::InvalidIndexSpace(1).message(),
        "index space size 1 is invalid; the construction requires at least two indices"
    );
    assert_eq!(
        Error::InvalidCiphertextIndex(4).message(),
        "ciphertext index 4 is outside the configured index space"
    );
    assert_eq!(
        Error::DuplicateCiphertextIndex(2).message(),
        "ciphertext index 2 occurs more than once in the valid batch"
    );
    assert_eq!(
        Error::MismatchedMessageLength.message(),
        "ciphertext payload lengths do not match the requested operation"
    );
    assert_eq!(
        Error::ParameterSizeOverflow.message(),
        "the configured public-parameter dimensions overflow addressable memory"
    );
}

#[test]
fn indexed_errors_name_what_does_not_fit() {
    let fixture = fixture(4, &[0, 2], &[1, 3]);
    let key = &fixture.material.public_key;
    let mut share = partial_decrypt(&fixture.material.party_keys[0], &fixture.batch).unwrap();
    share.party_index = 5;
    assert!(matches!(
        accept_decryption_shares(key, &fixture.batch, &[share]),
        Err(Error::InvalidPartyIndex(5))
    ));
    assert!(matches!(
        accept_decryption_shares(key, &fixture.batch, &[share; 6]),
        Err(Error::TooManyShares { supplied: 6, party_count: 5 })
    ));
    let many = vec![fixture.ciphertexts[0].clone(); 5];
    assert!(matches!(
        validate_batch(key, &many),
        Err(Error::BatchTooLarge { batch_size: 5, max_batch_size: 4 })
    ));
    let cross = precompute_batch(&fixture.fixed, &fixture.batch).unwrap();
    assert!(matches!(
        open_batch(
            &fixture.committee,
            &fixture.accepted,
            &fixture.batch,
            &fixture.ciphertexts[..1],
            &cross,
        ),
        Err(Error::MismatchedBatchSize { expected: 2, actual: 1 })
    ));
    let other = setup(4).unwrap();
    assert!(matches!(
        decrypt(&other, key, &fixture.ciphertexts, &shares_of(&fixture.material, &fixture.batch, &[1, 3])),
        Err(Error::MismatchedSetup)
    ));
    let mut doubled = fixture.accepted.clone();
    let first = doubled.shares[0];
    doubled.shares.push(first);
    assert!(matches!(
        prepare_decryption(key, &doubled),
        Err(Error::InvalidInterpolationSet)
    ));
    let mut outside = fixture.accepted.clone();
    outside.used_indices.push(4);
    assert!(matches!(
        prepare_decryption(key, &outside),
        Err(Error::InvalidCiphertextIndex(4))
    ));
    assert!(matches!(
        keygen(&fixture.parameters, &[1usize << 33], 0),
        Err(Error::InvalidEvaluationDomain { total_weight: 0x2_0000_0000 })
    ));
}

#[test]
fn indexed_acceptance_ignores_the_order_of_shares() {
    let fixture = fixture(4, &[0, 2], &[1, 3]);
    let key = &fixture.material.public_key;
    let shares = shares_of(&fixture.material, &fixture.batch, &[0, 1, 2, 3]);
    let expected = accept_decryption_shares(key, &fixture.batch, &shares).unwrap();
    for order in [[3, 2, 1, 0], [2, 0, 3, 1], [1, 3, 0, 2]] {
        let reordered = order.iter().map(|k| shares[*k]).collect::<Vec<_>>();
        let accepted = accept_decryption_shares(key, &fixture.batch, &reordered).unwrap();
        assert_eq!(accepted.party_indices(), expected.party_indices());
        assert_eq!(accepted.rejected_parties, expected.rejected_parties);
        assert_eq!(accepted.accepted_weight, expected.accepted_weight);
    }
}

#[test]
fn differences_at_the_edge_of_the_range_are_exact() {
    let edge = isize::MAX as usize;
    assert!(matches!(signed_difference(edge, 0), Ok(isize::MAX)));
    assert!(matches!(signed_difference(0, edge), Ok(d) if d == -isize::MAX));
    assert!(matches!(signed_difference(0, edge + 1), Err(Error::ParameterSizeOverflow)));
    assert!(matches!(signed_difference(edge + 1, 0), Err(Error::ParameterSizeOverflow)));
    assert!(matches!(signed_difference(usize::MAX, edge), Err(Error::ParameterSizeOverflow)));
}
