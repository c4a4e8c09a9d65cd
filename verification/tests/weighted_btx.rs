use wbte::curve::{Element, Fr, GtElement, ScalarRng, SystemRng, G1};
use wbte::weighted_btx::error::Error;
use wbte::weighted_btx::schnorr::SchnorrProof;

#[test]
fn proof_valid_proof_verifies_and_tampering_fails() {
    let mut rng = SystemRng::new();
    let randomness = Fr::from_u64(7);
    let ct1 = G1::generator().times(randomness);
    let ct2 = GtElement::generator().times(rng.random_scalar());
    let setup_id = [11u8; 32];
    let proof = SchnorrProof::create(randomness, ct1, &ct2, setup_id, &mut rng).unwrap();

    assert!(proof.verify(ct1, &ct2, setup_id));
    assert!(!proof.verify(ct1.plus(G1::generator()), &ct2, setup_id));
    assert!(!proof.verify(ct1, &ct2.plus(GtElement::generator()), setup_id));
    assert!(!proof.verify(ct1, &ct2, [12u8; 32]));
}

#[test]
fn proof_identity_target_element_is_transcript_safe() {
    let mut rng = SystemRng::new();
    let randomness = rng.random_scalar();
    let ct1 = G1::generator().times(randomness);
    let ct2 = GtElement::zero();
    let setup_id = [13u8; 32];
    let proof = SchnorrProof::create(randomness, ct1, &ct2, setup_id, &mut rng).unwrap();
    assert!(proof.verify(ct1, &ct2, setup_id));
}
