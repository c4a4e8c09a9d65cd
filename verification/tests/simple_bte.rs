use wbte::curve::{Recorded, SystemRng};
use wbte::simple_bte::ark::{
    ark_pair, ark_pair_all, ArkDomain, ArkG1, ArkG2, ArkGt, ArkScalar, KeyGenerator,
    RandomSource,
};
use wbte::simple_bte::crs::{eval_poly, setup, setup_with_scalars};
use wbte::simple_bte::decryption::{
    combine, decrypt, decrypt_fft, decrypt_preverified, finalize_decrypt, partial_decrypt,
    partial_decrypt_preverified, predecrypt_fft, verify, verify_ciphertext_batch,
    verify_ciphertext_batch_with_weights,
};
use wbte::simple_bte::encryption::{encrypt, encrypt_with_scalars};
use wbte::simple_bte::fo;
use wbte::simple_bte::keys::{Ciphertext, DecryptionKey, EncryptionKey, PartialDecryption, SecretKey};
use wbte::simple_bte::msm::{ln_without_floats, msm_small};

fn random_messages(count: usize) -> Vec<ArkGt> {
    let mut rng = SystemRng::new();
    (0..count).map(|_| ArkGt::generator().times(rng.random_ark_scalar())).collect()
}

fn encrypt_all(ek: &EncryptionKey, messages: &[ArkGt]) -> Vec<Ciphertext> {
    let mut rng = SystemRng::new();
    messages.iter().map(|m| encrypt(ek, m, &mut rng)).collect()
}

fn shares_of(sks: &[SecretKey], cts: &[Ciphertext]) -> Vec<PartialDecryption> {
    let mut rng = SystemRng::new();
    sks.iter()
        .map(|sk| partial_decrypt(sk, cts, &mut rng).expect("valid ciphertext proofs"))
        .collect()
}

#[test]
fn test_bte_roundtrip() {
    let mut rng = SystemRng::new();
    let batch_size = 8;
    let num_parties = 8;
    let threshold = 5;

    let (ek, dk, sks) = setup(batch_size, num_parties, threshold, &mut rng);
    let messages = random_messages(batch_size);
    let cts = encrypt_all(&ek, &messages);
    assert!(verify_ciphertext_batch(&cts, &mut rng));

    let pds = shares_of(&sks[..threshold], &cts);
    for pd in &pds {
        assert!(verify(&dk, pd, &cts), "verify failed for party {}", pd.party_index);
    }

    let pd = combine(&pds);

    let recovered = decrypt(&dk, &pd, &cts, &mut rng).unwrap();
    for i in 0..batch_size {
        assert_eq!(recovered[i], messages[i], "naive decrypt mismatch at {i}");
    }

    let recovered_fft = decrypt_fft(&dk, &pd, &cts, &mut rng).unwrap();
    for i in 0..batch_size {
        assert_eq!(recovered_fft[i], messages[i], "FFT decrypt mismatch at {i}");
    }

    let cross = predecrypt_fft(&dk, &cts);
    let recovered_pipelined = finalize_decrypt(&dk, &pd, &cts, &cross);
    for i in 0..batch_size {
        assert_eq!(recovered_pipelined[i], messages[i], "pipelined decrypt mismatch at {i}");
    }
}

#[test]
fn test_fft_matches_naive() {
    let mut rng = SystemRng::new();
    let batch_size = 16;
    let num_parties = 10;
    let threshold = 7;

    let (ek, dk, sks) = setup(batch_size, num_parties, threshold, &mut rng);
    let messages = random_messages(batch_size);
    let cts = encrypt_all(&ek, &messages);
    assert!(verify_ciphertext_batch(&cts, &mut rng));

    let pds = shares_of(&sks[..threshold], &cts);
    let pd = combine(&pds);

    let naive = decrypt(&dk, &pd, &cts, &mut rng).unwrap();
    let fft = decrypt_fft(&dk, &pd, &cts, &mut rng).unwrap();
    for i in 0..batch_size {
        assert_eq!(naive[i], fft[i], "naive vs FFT mismatch at {i}");
    }
}

#[test]
fn test_verify_rejects_bad_share() {
    let mut rng = SystemRng::new();
    let batch_size = 4;
    let (ek, dk, sks) = setup(batch_size, 4, 3, &mut rng);
    let messages = random_messages(batch_size);
    let cts = encrypt_all(&ek, &messages);
    assert!(verify_ciphertext_batch(&cts, &mut rng));

    let mut bad_pd = partial_decrypt(&sks[0], &cts, &mut rng).expect("valid ciphertext proofs");
    bad_pd.value = bad_pd.value.plus(ArkG1::generator());
    assert!(!verify(&dk, &bad_pd, &cts));
}

#[test]
fn test_verify_rejects_bad_proof() {
    let mut rng = SystemRng::new();
    let batch_size = 4;
    let (ek, dk, sks) = setup(batch_size, 4, 3, &mut rng);
    let messages = random_messages(batch_size);
    let mut cts = encrypt_all(&ek, &messages);
    cts[0].proof.response = cts[0].proof.response.plus(ArkScalar::one());

    assert!(!verify_ciphertext_batch(&cts, &mut rng));
    assert!(partial_decrypt(&sks[0], &cts, &mut rng).is_none());
    assert!(decrypt(&dk, &ArkG1::generator(), &cts, &mut rng).is_none());
    assert!(decrypt_fft(&dk, &ArkG1::generator(), &cts, &mut rng).is_none());
}

fn fo_batch(
    batch_size: usize,
    num_parties: usize,
    threshold: usize,
    messages: &[Vec<u8>],
) -> (EncryptionKey, DecryptionKey, Vec<SecretKey>, Vec<fo::FoCiphertext>) {
    let mut rng = SystemRng::new();
    let (ek, dk, sks) = setup(batch_size, num_parties, threshold, &mut rng);
    let cts = messages.iter().map(|m| fo::encrypt(&ek, m, &mut rng)).collect();
    (ek, dk, sks, cts)
}

fn fo_point(sks: &[SecretKey], cts: &[fo::FoCiphertext]) -> ArkG1 {
    let pds = sks.iter().map(|sk| fo::partial_decrypt(sk, cts)).collect::<Vec<_>>();
    fo::combine(&pds)
}

#[test]
fn fo_roundtrip() {
    let mut rng = SystemRng::new();
    let batch_size = 8;
    let threshold = 5;
    let messages: Vec<Vec<u8>> =
        (0..batch_size).map(|i| format!("message number {i}").into_bytes()).collect();
    let (ek, dk, sks, cts) = fo_batch(batch_size, 8, threshold, &messages);

    let pds: Vec<_> = sks[..threshold].iter().map(|sk| fo::partial_decrypt(sk, &cts)).collect();
    for pd in &pds {
        assert!(
            fo::verify_partial_decryption(&dk, pd, &cts),
            "share verification failed for party {}",
            pd.party_index,
        );
    }
    let pd = fo::combine(&pds);

    let (helper_msgs, hints) = fo::helper_decrypt(&dk, &pd, &cts);
    assert_eq!(helper_msgs, messages);
    let verified_msgs = fo::batch_verify(&ek, &cts, &hints, &mut rng)
        .expect("batch verification should succeed");
    assert_eq!(verified_msgs, messages);

    let (helper_msgs_bw, hints_bw) = fo::helper_decrypt_bandwidth_optimized(&dk, &pd, &cts);
    assert_eq!(helper_msgs_bw, messages);
    let verified_msgs_bw = fo::batch_verify_bandwidth_optimized(&ek, &cts, &hints_bw, &mut rng)
        .expect("bandwidth-optimized batch verification should succeed");
    assert_eq!(verified_msgs_bw, messages);
}

#[test]
fn fo_roundtrip_pipelined() {
    let mut rng = SystemRng::new();
    let batch_size = 16;
    let threshold = 7;
    let messages: Vec<Vec<u8>> = (0..batch_size).map(|i| vec![i as u8; 100]).collect();
    let (ek, dk, sks, cts) = fo_batch(batch_size, 10, threshold, &messages);
    let pd = fo_point(&sks[..threshold], &cts);

    let cross = fo::predecrypt_fft(&dk, &cts);
    let (helper_msgs, hints) = fo::helper_finalize(&dk, &pd, &cts, &cross);
    assert_eq!(helper_msgs, messages);
    let verified_msgs = fo::batch_verify(&ek, &cts, &hints, &mut rng)
        .expect("batch verification should succeed");
    assert_eq!(verified_msgs, messages);

    let (helper_msgs_bw, hints_bw) =
        fo::helper_finalize_bandwidth_optimized(&dk, &pd, &cts, &cross);
    assert_eq!(helper_msgs_bw, messages);
    let verified_msgs_bw = fo::batch_verify_bandwidth_optimized(&ek, &cts, &hints_bw, &mut rng)
        .expect("bandwidth-optimized batch verification should succeed");
    assert_eq!(verified_msgs_bw, messages);
}

fn short_messages(batch_size: usize) -> Vec<Vec<u8>> {
    (0..batch_size).map(|i| format!("msg {i}").into_bytes()).collect()
}

#[test]
fn fo_rejects_bad_key_hint() {
    let mut rng = SystemRng::new();
    let (ek, dk, sks, cts) = fo_batch(4, 4, 3, &short_messages(4));
    let pd = fo_point(&sks[..3], &cts);
    let (_, mut hints) = fo::helper_decrypt(&dk, &pd, &cts);
    hints.keys[0][0] ^= 0xff;
    assert!(
        fo::batch_verify(&ek, &cts, &hints, &mut rng).is_none(),
        "should reject corrupted K hint"
    );
}

#[test]
fn fo_rejects_bad_pairing_hint() {
    let mut rng = SystemRng::new();
    let (ek, dk, sks, cts) = fo_batch(4, 4, 3, &short_messages(4));
    let pd = fo_point(&sks[..3], &cts);
    let (_, mut hints) = fo::helper_decrypt(&dk, &pd, &cts);
    hints.pairing_values[1] = hints.pairing_values[1].plus(ArkGt::generator());
    assert!(
        fo::batch_verify(&ek, &cts, &hints, &mut rng).is_none(),
        "should reject corrupted P hint"
    );
}

#[test]
fn fo_rejects_bad_bandwidth_hint() {
    let mut rng = SystemRng::new();
    let (ek, dk, sks, cts) = fo_batch(4, 4, 3, &short_messages(4));
    let pd = fo_point(&sks[..3], &cts);
    let (_, mut hints) = fo::helper_decrypt_bandwidth_optimized(&dk, &pd, &cts);
    hints.randomness[0] = hints.randomness[0].plus(ArkScalar::from_u64(1));
    assert!(
        fo::batch_verify_bandwidth_optimized(&ek, &cts, &hints, &mut rng).is_none(),
        "should reject corrupted bandwidth-optimized hint"
    );
}

#[test]
fn fo_rejects_bad_partial_decryption() {
    let (_, dk, sks, cts) = fo_batch(4, 4, 3, &short_messages(4));
    let mut bad_pd = fo::partial_decrypt(&sks[0], &cts);
    bad_pd.value = bad_pd.value.plus(ArkG1::generator());
    assert!(
        !fo::verify_partial_decryption(&dk, &bad_pd, &cts),
        "should reject corrupted partial decryption"
    );
}

#[test]
fn fo_empty_messages() {
    let mut rng = SystemRng::new();
    let messages: Vec<Vec<u8>> = vec![vec![]; 4];
    let (ek, dk, sks, cts) = fo_batch(4, 4, 3, &messages);
    let pd = fo_point(&sks[..3], &cts);
    let (_, hints) = fo::helper_decrypt(&dk, &pd, &cts);
    let verified = fo::batch_verify(&ek, &cts, &hints, &mut rng).expect("empty messages should verify");
    for i in 0..4 {
        assert!(verified[i].is_empty());
    }
}

#[test]
fn fo_variable_length_messages() {
    let mut rng = SystemRng::new();
    let messages: Vec<Vec<u8>> = (0..8).map(|i| vec![0xab; i * 50]).collect();
    let (ek, dk, sks, cts) = fo_batch(8, 8, 5, &messages);
    let pd = fo_point(&sks[..5], &cts);
    let (_, hints) = fo::helper_decrypt(&dk, &pd, &cts);
    let verified = fo::batch_verify(&ek, &cts, &hints, &mut rng)
        .expect("variable-length messages should verify");
    for i in 0..8 {
        assert_eq!(verified[i], messages[i]);
    }
}

#[test]
fn fo_verifiers_agree_on_messages() {
    let mut rng = SystemRng::new();
    let messages: Vec<Vec<u8>> = (0..8).map(|i| format!("message number {i}").into_bytes()).collect();
    let (ek, dk, sks, cts) = fo_batch(8, 8, 5, &messages);
    let pd = fo_point(&sks[..5], &cts);
    let (_, full_hints) = fo::helper_decrypt(&dk, &pd, &cts);
    let (_, bw_hints) = fo::helper_decrypt_bandwidth_optimized(&dk, &pd, &cts);
    let full_msgs = fo::batch_verify(&ek, &cts, &full_hints, &mut rng)
        .expect("verification-optimized hints should verify");
    let bw_msgs = fo::batch_verify_bandwidth_optimized(&ek, &cts, &bw_hints, &mut rng)
        .expect("bandwidth-optimized hints should verify");
    assert_eq!(full_msgs, bw_msgs);
}

#[test]
fn fo_bandwidth_hint_matches_helper_randomness() {
    let messages = short_messages(4);
    let (ek, dk, sks, cts) = fo_batch(4, 4, 3, &messages);
    let pd = fo_point(&sks[..3], &cts);
    let (_, full_hints) = fo::helper_decrypt(&dk, &pd, &cts);
    let (_, bw_hints) = fo::helper_decrypt_bandwidth_optimized(&dk, &pd, &cts);
    for i in 0..4 {
        let expected = fo::h_r(&full_hints.keys[i], &messages[i]);
        assert_eq!(bw_hints.randomness[i], expected);
        let reconstructed = ek.e.times(bw_hints.randomness[i]);
        assert_eq!(reconstructed, full_hints.pairing_values[i]);
        assert_eq!(ArkG1::generator().times(bw_hints.randomness[i]), cts[i].ct0);
    }
}

#[test]
fn bit_lengths_give_about_the_logarithm() {
    assert_eq!(ln_without_floats(0), 0);
    assert_eq!(ln_without_floats(1), 0);
    assert_eq!(ln_without_floats(2), 1);
    assert_eq!(ln_without_floats(1000), 6);
    assert_eq!(ln_without_floats(usize::MAX), 44);
}

#[test]
fn keys_are_combined_bit_by_bit() {
    let a = [0xf0u8; 16];
    let mut b = [0x0fu8; 16];
    b[3] = 0xf1;
    let both = fo::xor_16(&a, &b);
    assert_eq!(both[0], 0xff);
    assert_eq!(both[3], 0x01);
    assert_eq!(fo::xor_16(&both, &b), a);
}

#[test]
fn keystreams_undo_themselves() {
    let key = [7u8; 16];
    let input: Vec<u8> = (0..100).collect();
    let hidden = fo::h_m_xor(&key, &input);
    assert!(hidden != input);
    assert_eq!(fo::h_m_xor(&key, &hidden), input);
    // the first block does not depend on how much follows
    assert_eq!(fo::h_m_xor(&key, &input[..32])[..], hidden[..32]);
}

#[test]
fn bucket_sums_match_direct_sums() {
    for size in [0usize, 1, 5, 33, 40] {
        let bases: Vec<ArkG1> =
            (0..size).map(|i| ArkG1::generator().times(ArkScalar::from_u64(i as u64 + 2))).collect();
        let scalars: Vec<ArkScalar> = (0..size)
            .map(|i| ArkScalar::from_le_bytes_mod_order(&[(i * 37 % 251) as u8; 16]))
            .collect();
        let limbs: Vec<[u64; 4]> = scalars.iter().map(|s| s.into_bigint()).collect();
        assert_eq!(msm_small(&bases, &limbs, 128), ArkG1::msm(&bases, &scalars), "size {size}");
        assert_eq!(msm_small(&bases, &limbs, 0), ArkG1::zero());
    }
}

#[test]
fn bucket_sums_look_at_whole_windows() {
    // with few products a window has three bits, so four bits are covered by six
    let bases = vec![ArkG1::generator()];
    let limbs = vec![[0b111_1111u64, 0, 0, 0]];
    assert_eq!(
        msm_small(&bases, &limbs, 4),
        ArkG1::generator().times(ArkScalar::from_u64(0b11_1111))
    );
}

#[test]
fn limbs_are_little_endian() {
    let mut bytes = [0u8; 32];
    bytes[0] = 9;
    bytes[8] = 1;
    bytes[17] = 2;
    let scalar = ArkScalar::from_le_bytes_mod_order(&bytes);
    assert_eq!(scalar.into_bigint(), [9, 1, 0x200, 0]);
}

#[test]
fn polynomials_are_evaluated_from_the_constant_on() {
    let coeffs = vec![ArkScalar::from_u64(4), ArkScalar::from_u64(3), ArkScalar::from_u64(2)];
    assert_eq!(eval_poly(&coeffs, ArkScalar::from_u64(10)), ArkScalar::from_u64(234));
    assert_eq!(eval_poly(&vec![], ArkScalar::from_u64(10)), ArkScalar::zero());
}

#[test]
fn setup_follows_the_secret_and_the_tails() {
    // secret 3; the shares of 3 and 9 with tails 5 and 7
    let tails = vec![vec![ArkScalar::from_u64(5)], vec![ArkScalar::from_u64(7)]];
    let (ek, dk, sks) = setup_with_scalars(2, 3, 2, ArkScalar::from_u64(3), &tails);
    assert_eq!(ek.e, ArkGt::generator().times(ArkScalar::from_u64(27)));
    assert_eq!(sks[0].shares, vec![ArkScalar::from_u64(8), ArkScalar::from_u64(16)]);
    assert_eq!(sks[2].shares, vec![ArkScalar::from_u64(18), ArkScalar::from_u64(30)]);
    assert_eq!(sks[2].party_index, 3);
    let powers = [1u64, 3, 9, 0, 81];
    for (j, power) in powers.iter().enumerate() {
        assert!(
            dk.powers_of_h_affine[j] == ArkG2::generator().times(ArkScalar::from_u64(*power))
        );
    }
    assert_eq!(dk.fft_size, 4);
    assert!(dk.verification_keys[1][0] == ArkG2::generator().times(ArkScalar::from_u64(13)));
}

#[test]
fn combining_interpolates_at_zero() {
    // the line 5 + 2 x, at one and three
    let share = |x: u64, value: u64| PartialDecryption {
        value: ArkG1::generator().times(ArkScalar::from_u64(value)),
        party_index: x as usize,
    };
    assert_eq!(
        combine(&[share(3, 11), share(1, 7)]),
        ArkG1::generator().times(ArkScalar::from_u64(5))
    );
    // a party that is there twice counts for nothing
    assert_eq!(combine(&[share(3, 11), share(3, 11)]), ArkG1::zero());
    assert_eq!(combine(&[share(4, 6)]), ArkG1::generator().times(ArkScalar::from_u64(6)));
}

#[test]
fn weighted_batch_check_adds_the_equations_up() {
    let mut rng = SystemRng::new();
    let (ek, _, _) = setup(2, 2, 1, &mut rng);
    let mut cts = encrypt_all(&ek, &random_messages(2));
    cts[0].proof.response = cts[0].proof.response.plus(ArkScalar::one());
    cts[1].proof.response = cts[1].proof.response.minus(ArkScalar::one());
    let equal = vec![ArkScalar::from_u64(3), ArkScalar::from_u64(3)];
    let unequal = vec![ArkScalar::from_u64(3), ArkScalar::from_u64(4)];
    assert!(verify_ciphertext_batch_with_weights(&cts, &equal));
    assert!(!verify_ciphertext_batch_with_weights(&cts, &unequal));
    assert!(verify_ciphertext_batch(&[], &mut rng));
}

#[test]
fn encryption_follows_its_scalars() {
    let mut rng = SystemRng::new();
    let (ek, dk, sks) = setup(1, 1, 1, &mut rng);
    let message = ArkGt::generator().times(ArkScalar::from_u64(8));
    let (k, r) = (ArkScalar::from_u64(5), ArkScalar::from_u64(6));
    let ct = encrypt_with_scalars(&ek, &message, k, r);
    assert_eq!(ct.ct1, ArkG1::generator().times(k));
    assert_eq!(ct.ct2, message.plus(ek.e.times(k)));
    assert_eq!(ct.proof.commitment, ArkG1::generator().times(r));
    let pd = partial_decrypt_preverified(&sks[0], &[ct]);
    let point = combine(&[pd]);
    assert_eq!(decrypt_preverified(&dk, &point, &[ct]), vec![message]);
}

#[test]
fn pairings_multiply_the_logarithms() {
    let (x, y) = (ArkScalar::from_u64(6), ArkScalar::from_u64(7));
    let (p, q) = (ArkG1::generator().times(x), ArkG2::generator().times(y));
    let expected = ArkGt::generator().times(ArkScalar::from_u64(42));
    assert_eq!(ark_pair(p, q), expected);
    let twice = ark_pair_all(&vec![p, p], &vec![q, q]);
    assert_eq!(twice, expected.plus(expected));
    assert_eq!(ark_pair_all(&vec![], &vec![]), ArkGt::zero());
    assert_eq!(p.serialize_compressed().len(), 48);
    assert_eq!(expected.serialize_compressed().len(), 576);
    assert!(p.serialize_compressed() != ArkG1::generator().serialize_compressed());
}

#[test]
fn transforms_of_points_are_undone_in_the_target_group() {
    let domain = ArkDomain::new(4);
    let logs = [3u64, 1, 4, 1];
    let points: Vec<ArkG1> =
        logs.iter().map(|l| ArkG1::generator().times(ArkScalar::from_u64(*l))).collect();
    let transformed = domain.fft_g1(&points);
    let paired: Vec<ArkGt> =
        transformed.iter().map(|p| ark_pair(*p, ArkG2::generator())).collect();
    let back = domain.ifft_gt(&paired);
    for i in 0..4 {
        assert_eq!(back[i], ArkGt::generator().times(ArkScalar::from_u64(logs[i])));
    }
    let others: Vec<ArkG2> =
        logs.iter().map(|l| ArkG2::generator().times(ArkScalar::from_u64(*l))).collect();
    let other_transformed = domain.fft_g2(&others);
    for i in 0..4 {
        assert_eq!(ark_pair(ArkG1::generator(), other_transformed[i]), paired[i]);
    }
}

#[test]
fn scalars_are_residues() {
    let inverse = ArkScalar::batch_inversion(&vec![ArkScalar::from_u64(5), ArkScalar::zero()]);
    assert_eq!(inverse[0].times(ArkScalar::from_u64(5)), ArkScalar::one());
    assert_eq!(inverse[1], ArkScalar::zero());
    let minus_one = ArkScalar::zero().minus(ArkScalar::one());
    assert_eq!(minus_one.plus(ArkScalar::one()), ArkScalar::zero());
    assert_eq!(minus_one.times(minus_one), ArkScalar::one());
}

#[test]
fn fo_challenges_bind_the_hints() {
    // a hint whose point does not match its randomness passes only under the zero challenge
    let (ek, dk, sks, mut cts) = fo_batch(2, 2, 1, &short_messages(2));
    cts[1].ct0 = cts[1].ct0.plus(ArkG1::generator());
    let pd = fo_point(&sks[..1], &cts);
    let (_, hints) = fo::helper_decrypt(&dk, &pd, &cts);
    let zero = vec![[1u8; 16], [0u8; 16]];
    let nonzero = vec![[1u8; 16], [2u8; 16]];
    assert!(fo::batch_verify_with_challenges(&ek, &cts, &hints, &zero).is_some());
    assert!(fo::batch_verify_with_challenges(&ek, &cts, &hints, &nonzero).is_none());
}

#[test]
fn fo_encryption_follows_its_key() {
    let mut rng = SystemRng::new();
    let (ek, _, _) = setup(1, 1, 1, &mut rng);
    let key = [9u8; 16];
    let message = b"a message of more than thirty-two bytes, in two blocks";
    let ct = fo::encrypt_with_key(&ek, message, key);
    let k = fo::h_r(&key, message);
    assert_eq!(ct.ct0, ArkG1::generator().times(k));
    assert_eq!(ct.ct1, fo::xor_16(&fo::h_k(&ek.e.times(k)), &key));
    assert_eq!(fo::h_m_xor(&key, &ct.ct2), message.to_vec());
    assert!(fo::h_r(&key, b"another message") != k);
}

/// A source that counts up.
struct Counter {
    next: u64,
}

impl KeyGenerator for Counter {
    fn next_ark_scalar(&mut self) -> ArkScalar {
        self.next += 1;
        ArkScalar::from_u64(self.next)
    }

    fn next_key(&mut self) -> [u8; 16] {
        self.next += 1;
        [self.next as u8; 16]
    }
}

#[test]
fn setup_takes_the_secret_and_the_tails_in_the_order_of_the_draws() {
    let mut rng = Recorded::new(Counter { next: 2 });
    let (ek, dk, sks) = setup(2, 3, 2, &mut rng);
    let tails = vec![vec![ArkScalar::from_u64(4)], vec![ArkScalar::from_u64(5)]];
    let (ek2, dk2, sks2) = setup_with_scalars(2, 3, 2, ArkScalar::from_u64(3), &tails);
    assert_eq!(ek.e, ek2.e);
    assert_eq!(dk.powers_of_h_affine, dk2.powers_of_h_affine);
    for (a, b) in sks.iter().zip(&sks2) {
        assert_eq!(a.shares, b.shares);
    }
    assert_eq!(rng.random_ark_scalar(), ArkScalar::from_u64(6));
    let key = rng.random_key();
    assert_eq!(key, [7u8; 16]);
    let drawn = fo::encrypt(&ek, b"payload", &mut rng);
    let made = fo::encrypt_with_key(&ek, b"payload", [8u8; 16]);
    assert_eq!(drawn.ct1, made.ct1);
    assert_eq!(drawn.ct2, made.ct2);
}

#[test]
fn one_bad_ciphertext_proof_is_refused_with_any_nonzero_weights() {
    let mut rng = SystemRng::new();
    let (ek, _, _) = setup(3, 3, 2, &mut rng);
    let cts = encrypt_all(&ek, &random_messages(3));
    let weights = vec![ArkScalar::from_u64(5), ArkScalar::from_u64(2), ArkScalar::from_u64(9)];
    assert!(verify_ciphertext_batch_with_weights(&cts, &weights));
    for bad in 0..3 {
        let mut tampered = cts.clone();
        let response = tampered[bad].proof.response;
        tampered[bad].proof.response = response.plus(ArkScalar::from_u64(1));
        assert!(!verify_ciphertext_batch_with_weights(&tampered, &weights));
    }
}

#[test]
fn fo_challenges_are_drawn_only_once_the_hints_fit() {
    let mut rng = SystemRng::new();
    let (ek, dk, sks) = setup(2, 3, 2, &mut rng);
    let cts: Vec<_> = [&b"one"[..], &b"two"[..]]
        .iter()
        .map(|message| fo::encrypt(&ek, message, &mut rng))
        .collect();
    let shares: Vec<_> = sks[..2].iter().map(|sk| fo::partial_decrypt(sk, &cts)).collect();
    let pd = combine(&shares);
    let (messages, hints) = fo::helper_decrypt(&dk, &pd, &cts);
    let (_, smaller) = fo::helper_decrypt_bandwidth_optimized(&dk, &pd, &cts);

    let mut counter = Recorded::new(Counter { next: 0 });
    let mut bad = hints.clone();
    bad.keys[1][0] ^= 1;
    assert_eq!(fo::batch_verify(&ek, &cts, &bad, &mut counter), None);
    let mut bad = smaller.clone();
    bad.randomness[1] = bad.randomness[1].plus(ArkScalar::from_u64(1));
    assert_eq!(fo::batch_verify_bandwidth_optimized(&ek, &cts, &bad, &mut counter), None);
    assert_eq!(counter.random_key(), [1u8; 16]);

    assert_eq!(fo::batch_verify(&ek, &cts, &hints, &mut counter), Some(messages.clone()));
    assert_eq!(counter.random_key(), [4u8; 16]);
    assert_eq!(
        fo::batch_verify_bandwidth_optimized(&ek, &cts, &smaller, &mut counter),
        Some(messages)
    );
    assert_eq!(counter.random_key(), [7u8; 16]);
}
