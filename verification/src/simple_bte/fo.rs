//! Encryption of byte strings whose decryption can be checked without pairings.
//!
//! The randomness of a ciphertext is the hash of a key and the message. A helper decrypts a
//! batch and gives hints, with which anyone can check the messages by sums of products and
//! hashes.
use vstd::arithmetic::power2::{lemma2_to64, lemma2_to64_rest, lemma_pow2_adds, pow2};
use vstd::prelude::*;
use vstd::string::StringSliceAdditionalSpecFns;

use crate::algebra::residue::{
    cong, lemma_cong_add, lemma_cong_mul, lemma_reduce, lemma_reduced, order,
};
use crate::algebra::sums::{dot, products, sum};
use crate::bytes::{
    append, append_le, append_u64, bytes_equal, le_bytes, le_value, lemma_le_digits,
    lemma_le_value_bound, lemma_same_parts,
};
use crate::curve::views;
use crate::hash::{digest, sha256};
use crate::middle::cross_term;
use crate::simple_bte::ark::{ark_gt_bytes, ArkG1, ArkGt, ArkScalar, RandomSource};
use crate::simple_bte::decryption::{
    cross_terms_of_points, kernel_of, pad_of_slot, share_holds, share_of_points, verify_points,
    CrossTerms,
};
use crate::simple_bte::keys::{DecryptionKey, EncryptionKey, PartialDecryption, SecretKey};
use crate::simple_bte::msm::{lemma_small_scalars, msm_small, scalar_at};

pub use crate::simple_bte::decryption::combine;

verus! {

/// How many bits the challenges of a batch verification have.
pub const CHALLENGE_BITS: usize = 128;

/// The key that a target-group element hides another key behind.
pub open spec fn element_key(log: int) -> Seq<u8> {
    sha256("simple-bte-fo-hk".spec_bytes() + ark_gt_bytes(log)).take(16)
}

/// What the randomness of a ciphertext is the hash of.
pub open spec fn randomness_prefix(key: Seq<u8>, message: Seq<u8>) -> Seq<u8> {
    "simple-bte-fo-hr".spec_bytes() + key + le_bytes(message.len() as int, 8) + message
}

/// The randomness of a ciphertext: two digests, read as one number.
pub open spec fn randomness_of(key: Seq<u8>, message: Seq<u8>) -> int {
    let prefix = randomness_prefix(key, message);
    le_value(sha256(prefix.push(0)) + sha256(prefix.push(1))) % order()
}

/// Block `counter` of the keystream of a key.
pub open spec fn keystream_block(key: Seq<u8>, counter: int) -> Seq<u8> {
    sha256("simple-bte-fo-hm".spec_bytes() + key + le_bytes(counter, 4))
}

/// A byte string combined with the keystream of a key.
pub open spec fn keystream_xor(key: Seq<u8>, input: Seq<u8>) -> Seq<u8> {
    Seq::new(input.len(), |i: int| input[i] ^ keystream_block(key, i / 32)[i % 32])
}

/// Two keys, combined bit by bit.
pub open spec fn xored(a: Seq<u8>, b: Seq<u8>) -> Seq<u8> {
    Seq::new(a.len(), |i: int| a[i] ^ b[i])
}

/// Whether the keystream is long enough for a byte string.
pub open spec fn is_short(input: Seq<u8>) -> bool {
    input.len() <= 32 * 0xffff_ffff
}

/// The key that a target-group element hides another key behind.
pub fn h_k(p: &ArkGt) -> (key: [u8; 16])
    ensures
        key@ == element_key(p@),
{
    let mut data: Vec<u8> = Vec::new();
    append(&mut data, "simple-bte-fo-hk".as_bytes());
    let encoded = p.serialize_compressed();
    append(&mut data, encoded.as_slice());
    assert(data@ =~= "simple-bte-fo-hk".spec_bytes() + ark_gt_bytes(p@));
    let hash = digest(data.as_slice());
    let mut key: [u8; 16] = [0u8; 16];
    let mut index: usize = 0;
    while index < 16
        invariant
            index <= 16,
            forall|i: int| 0 <= i < index ==> #[trigger] key@[i] == hash@[i],
        decreases 16 - index,
    {
        key[index] = hash[index];
        index = index + 1;
    }
    assert(key@ =~= hash@.take(16));
    key
}

/// The randomness of a ciphertext.
pub fn h_r(key: &[u8; 16], msg: &[u8]) -> (scalar: ArkScalar)
    ensures
        scalar@ == randomness_of(key@, msg@),
{
    let mut base: Vec<u8> = Vec::new();
    append(&mut base, "simple-bte-fo-hr".as_bytes());
    append(&mut base, key.as_slice());
    append_u64(&mut base, msg.len() as u64);
    append(&mut base, msg);
    let ghost prefix = randomness_prefix(key@, msg@);
    assert(base@ =~= prefix);
    base.push(0);
    let first = digest(base.as_slice());
    let _ = base.pop();
    assert(base@ =~= prefix);
    base.push(1);
    let second = digest(base.as_slice());
    let mut bytes: Vec<u8> = Vec::new();
    append(&mut bytes, first.as_slice());
    append(&mut bytes, second.as_slice());
    assert(bytes@ =~= sha256(prefix.push(0)) + sha256(prefix.push(1)));
    ArkScalar::from_le_bytes_mod_order(bytes.as_slice())
}

/// A byte string combined with the keystream of a key.
pub fn h_m_xor(key: &[u8; 16], input: &[u8]) -> (output: Vec<u8>)
    requires
        is_short(input@),
    ensures
        output@ == keystream_xor(key@, input@),
{
    let ghost target = keystream_xor(key@, input@);
    let mut prefix: Vec<u8> = Vec::new();
    append(&mut prefix, "simple-bte-fo-hm".as_bytes());
    append(&mut prefix, key.as_slice());
    let ghost base = "simple-bte-fo-hm".spec_bytes() + key@;
    assert(prefix@ =~= base);
    let mut output: Vec<u8> = Vec::new();
    let mut counter: u64 = 0;
    while output.len() < input.len()
        invariant
            is_short(input@),
            prefix@ == base,
            base == "simple-bte-fo-hm".spec_bytes() + key@,
            target == keystream_xor(key@, input@),
            output@.len() == 32 * counter || output@.len() == input@.len(),
            output@.len() <= 32 * counter,
            output@.len() <= input@.len(),
            forall|i: int| 0 <= i < output@.len() ==> #[trigger] output@[i] == target[i],
        decreases input@.len() - output@.len(),
    {
        let mut data: Vec<u8> = Vec::new();
        append(&mut data, prefix.as_slice());
        append_le(&mut data, counter, 4);
        assert(data@ =~= base + le_bytes(counter as int, 4));
        let block = digest(data.as_slice());
        let mut place: usize = 0;
        while place < 32 && output.len() < input.len()
            invariant
                place <= 32,
                output@.len() == 32 * counter + place,
                output@.len() <= input@.len(),
                target == keystream_xor(key@, input@),
                block@ == keystream_block(key@, counter as int),
                forall|i: int| 0 <= i < output@.len() ==> #[trigger] output@[i] == target[i],
            decreases 32 - place,
        {
            let at = output.len();
            assert(at as int / 32 == counter && at as int % 32 == place);
            output.push(input[at] ^ block[place]);
            place = place + 1;
        }
        counter = counter + 1;
    }
    assert(output@ =~= target);
    output
}

/// Two keys, combined bit by bit.
pub fn xor_16(a: &[u8; 16], b: &[u8; 16]) -> (result: [u8; 16])
    ensures
        result@ == xored(a@, b@),
{
    let mut result: [u8; 16] = [0u8; 16];
    let mut index: usize = 0;
    while index < 16
        invariant
            index <= 16,
            forall|i: int| 0 <= i < index ==> #[trigger] result@[i] == a@[i] ^ b@[i],
        decreases 16 - index,
    {
        result[index] = a[index] ^ b[index];
        index = index + 1;
    }
    assert(result@ =~= xored(a@, b@));
    result
}

/// Combining a key twice with another one gives it back.
pub proof fn law_xor_is_involutive(a: Seq<u8>, b: Seq<u8>)
    requires
        a.len() == b.len(),
    ensures
        xored(xored(a, b), b) == a,
        xored(b, xored(b, a)) == a,
        xored(a, b) == xored(b, a),
{
    assert forall|i: int| 0 <= i < a.len() implies (a[i] ^ b[i]) ^ b[i] == a[i] && b[i] ^ (b[i]
        ^ a[i]) == a[i] && #[trigger] a[i] ^ b[i] == b[i] ^ a[i] by {
        let (x, y) = (a[i], b[i]);
        assert((x ^ y) ^ y == x && y ^ (y ^ x) == x && x ^ y == y ^ x) by (bit_vector);
    }
    assert(xored(xored(a, b), b) =~= a);
    assert(xored(b, xored(b, a)) =~= a);
    assert(xored(a, b) =~= xored(b, a));
}

/// Combining a byte string twice with the keystream of a key gives it back.
pub proof fn law_keystream_is_involutive(key: Seq<u8>, input: Seq<u8>)
    ensures
        keystream_xor(key, keystream_xor(key, input)) == input,
{
    let twice = keystream_xor(key, keystream_xor(key, input));
    assert forall|i: int| 0 <= i < input.len() implies #[trigger] twice[i] == input[i] by {
        let (x, y) = (input[i], keystream_block(key, i / 32)[i % 32]);
        assert((x ^ y) ^ y == x) by (bit_vector);
    }
    assert(twice =~= input);
}

/// What the randomness of a ciphertext is the hash of determines the key and the message.
pub proof fn law_randomness_prefix_tells_apart(
    key_a: Seq<u8>,
    message_a: Seq<u8>,
    key_b: Seq<u8>,
    message_b: Seq<u8>,
)
    requires
        key_a.len() == key_b.len() == 16,
        message_a.len() < 0x1_0000_0000_0000_0000,
        message_b.len() < 0x1_0000_0000_0000_0000,
        randomness_prefix(key_a, message_a) == randomness_prefix(key_b, message_b),
    ensures
        key_a == key_b,
        message_a == message_b,
{
    let tag = "simple-bte-fo-hr".spec_bytes();
    let (na, nb) = (message_a.len() as int, message_b.len() as int);
    lemma_le_digits(na, 8);
    lemma_le_digits(nb, 8);
    lemma_same_parts(
        tag + key_a + le_bytes(na, 8),
        message_a,
        tag + key_b + le_bytes(nb, 8),
        message_b,
    );
    lemma_same_parts(tag + key_a, le_bytes(na, 8), tag + key_b, le_bytes(nb, 8));
    lemma_same_parts(tag, key_a, tag, key_b);
}

/// The randomness of a ciphertext is read off two digests of some string, and that string
/// determines the key and the message: two ciphertexts have theirs from the same string only
/// where both are the same.
pub proof fn law_randomness_is_bound(
    key_a: Seq<u8>,
    message_a: Seq<u8>,
    key_b: Seq<u8>,
    message_b: Seq<u8>,
)
    requires
        key_a.len() == key_b.len() == 16,
        message_a.len() < 0x1_0000_0000_0000_0000,
        message_b.len() < 0x1_0000_0000_0000_0000,
    ensures
        exists|s: Seq<u8>, t: Seq<u8>|
            {
                &&& randomness_of(key_a, message_a) == le_value(
                    #[trigger] sha256(s.push(0)) + sha256(s.push(1)),
                ) % order()
                &&& randomness_of(key_b, message_b) == le_value(
                    #[trigger] sha256(t.push(0)) + sha256(t.push(1)),
                ) % order()
                &&& s == "simple-bte-fo-hr".spec_bytes() + key_a + le_bytes(
                    message_a.len() as int,
                    8,
                ) + message_a
                &&& s == t ==> key_a == key_b && message_a == message_b
            },
{
    let s = randomness_prefix(key_a, message_a);
    let t = randomness_prefix(key_b, message_b);
    if s == t {
        law_randomness_prefix_tells_apart(key_a, message_a, key_b, message_b);
    }
    assert(randomness_of(key_a, message_a) == le_value(
        sha256(s.push(0)) + sha256(s.push(1)),
    ) % order());
    assert(randomness_of(key_b, message_b) == le_value(
        sha256(t.push(0)) + sha256(t.push(1)),
    ) % order());
}

/// The key that an element hides another behind is the first half of the digest of some
/// string, and that string determines the element's encoding.
pub proof fn law_element_key_is_bound(a: int, b: int)
    ensures
        exists|s: Seq<u8>, t: Seq<u8>|
            {
                &&& element_key(a) == #[trigger] sha256(s).take(16)
                &&& element_key(b) == #[trigger] sha256(t).take(16)
                &&& s == "simple-bte-fo-hk".spec_bytes() + ark_gt_bytes(a)
                &&& s == t ==> ark_gt_bytes(a) == ark_gt_bytes(b)
            },
{
    let tag = "simple-bte-fo-hk".spec_bytes();
    let (s, t) = (tag + ark_gt_bytes(a), tag + ark_gt_bytes(b));
    if s == t {
        lemma_same_parts(tag, ark_gt_bytes(a), tag, ark_gt_bytes(b));
    }
    assert(element_key(a) == sha256(s).take(16));
    assert(element_key(b) == sha256(t).take(16));
}

/// Every byte of a payload is combined with a byte of the digest of some string, and that
/// string determines the key and the block.
pub proof fn law_keystream_is_bound(
    key_a: Seq<u8>,
    input_a: Seq<u8>,
    place_a: int,
    key_b: Seq<u8>,
    input_b: Seq<u8>,
    place_b: int,
)
    requires
        key_a.len() == key_b.len() == 16,
        is_short(input_a),
        is_short(input_b),
        0 <= place_a < input_a.len(),
        0 <= place_b < input_b.len(),
    ensures
        exists|s: Seq<u8>, t: Seq<u8>|
            {
                &&& keystream_xor(key_a, input_a)[place_a] == input_a[place_a]
                    ^ #[trigger] sha256(s)[place_a % 32]
                &&& keystream_xor(key_b, input_b)[place_b] == input_b[place_b]
                    ^ #[trigger] sha256(t)[place_b % 32]
                &&& s == "simple-bte-fo-hm".spec_bytes() + key_a + le_bytes(place_a / 32, 4)
                &&& s == t ==> key_a == key_b && place_a / 32 == place_b / 32
            },
{
    let tag = "simple-bte-fo-hm".spec_bytes();
    let (ca, cb) = (place_a / 32, place_b / 32);
    let s = tag + key_a + le_bytes(ca, 4);
    let t = tag + key_b + le_bytes(cb, 4);
    lemma2_to64();
    lemma_le_digits(ca, 4);
    lemma_le_digits(cb, 4);
    if s == t {
        lemma_same_parts(tag + key_a, le_bytes(ca, 4), tag + key_b, le_bytes(cb, 4));
        lemma_same_parts(tag, key_a, tag, key_b);
    }
    assert(keystream_xor(key_a, input_a)[place_a] == input_a[place_a] ^ sha256(s)[place_a % 32]);
    assert(keystream_xor(key_b, input_b)[place_b] == input_b[place_b] ^ sha256(t)[place_b % 32]);
}

/// A ciphertext of a byte string.
#[derive(Clone, Debug)]
pub struct FoCiphertext {
    pub ct0: ArkG1,
    /// The key of the payload, hidden.
    pub ct1: [u8; 16],
    /// The payload, hidden.
    pub ct2: Vec<u8>,
}

/// What a helper gives after decrypting a batch.
#[derive(Clone, Debug)]
pub struct DecryptionHints {
    /// The keys of the payloads.
    pub keys: Vec<[u8; 16]>,
    /// The elements that the keys are hidden behind.
    pub pairing_values: Vec<ArkGt>,
}

/// Smaller hints: the randomness of every ciphertext. They take more work to check.
#[derive(Clone, Debug)]
pub struct BandwidthDecryptionHints {
    pub randomness: Vec<ArkScalar>,
}

impl FoCiphertext {
    /// Whether this is the encryption of a message with a key.
    pub open spec fn is_encryption_of(&self, ek: EncryptionKey, key: Seq<u8>, message: Seq<u8>) -> bool {
        let k = randomness_of(key, message);
        &&& self.ct0@ == k
        &&& self.ct1@ == xored(element_key((ek.e@ * k) % order()), key)
        &&& self.ct2@ == keystream_xor(key, message)
    }
}

/// Whether the payloads of all ciphertexts are short enough for their keystreams.
pub open spec fn are_short(cts: Seq<FoCiphertext>) -> bool {
    forall|i: int| 0 <= i < cts.len() ==> is_short((#[trigger] cts[i]).ct2@)
}

/// The points of ciphertexts.
pub open spec fn point_logs(cts: Seq<FoCiphertext>) -> Seq<int> {
    Seq::new(cts.len(), |i: int| cts[i].ct0@)
}

/// The encryption of a message with the given key.
pub fn encrypt_with_key(ek: &EncryptionKey, msg: &[u8], key: [u8; 16]) -> (ct: FoCiphertext)
    requires
        is_short(msg@),
    ensures
        ct.is_encryption_of(*ek, key@, msg@),
        is_short(ct.ct2@),
{
    let k = h_r(&key, msg);
    let ct0 = ArkG1::generator().times(k);
    let p = ek.e.times(k);
    let ct1 = xor_16(&h_k(&p), &key);
    let ct2 = h_m_xor(&key, msg);
    proof {
        k.lemma_range();
        lemma_reduced(k@);
        assert(1 * k@ == k@);
    }
    FoCiphertext { ct0, ct1, ct2 }
}

/// The encryption of a message with a key drawn from `rng`.
pub fn encrypt<R: RandomSource>(ek: &EncryptionKey, msg: &[u8], rng: &mut R) -> (ct: FoCiphertext)
    requires
        is_short(msg@),
    ensures
        ({
            let key = final(rng).drawn_keys().last();
            &&& final(rng).drawn_keys() == old(rng).drawn_keys().push(key)
            &&& key.len() == 16
            &&& ct.is_encryption_of(*ek, key, msg@)
        }),
        final(rng).drawn_scalars() == old(rng).drawn_scalars(),
        is_short(ct.ct2@),
{
    let key = rng.random_key();
    assert(key@.len() == 16);
    encrypt_with_key(ek, msg, key)
}

/// The points of a batch.
fn batch_points(cts: &[FoCiphertext]) -> (points: Vec<ArkG1>)
    ensures
        points@.len() == cts@.len(),
        views(points@) == point_logs(cts@),
{
    let mut points: Vec<ArkG1> = Vec::new();
    while points.len() < cts.len()
        invariant
            points@.len() <= cts@.len(),
            forall|i: int| 0 <= i < points@.len() ==> (#[trigger] points@[i])@ == cts@[i].ct0@,
        decreases cts@.len() - points@.len(),
    {
        points.push(cts[points.len()].ct0);
    }
    assert(views(points@) =~= point_logs(cts@));
    points
}

/// The share of a party for a batch. There is no proof to check: a bad ciphertext shows
/// when the hints are checked.
pub fn partial_decrypt(sk: &SecretKey, cts: &[FoCiphertext]) -> (pd: PartialDecryption)
    requires
        cts@.len() == sk.shares@.len(),
    ensures
        pd.is_share_of(sk, point_logs(cts@)),
{
    share_of_points(sk, &batch_points(cts))
}

/// Checks a share for a batch against the verification keys of its party.
pub fn verify_partial_decryption(dk: &DecryptionKey, pd: &PartialDecryption, cts: &[FoCiphertext]) -> (valid:
    bool)
    requires
        dk.wf(),
        cts@.len() == dk.batch_size,
        1 <= pd.party_index <= dk.num_parties,
    ensures
        valid == share_holds(dk, *pd, point_logs(cts@)),
{
    verify_points(dk, pd, &batch_points(cts))
}

/// The cross terms of a batch, by transforms.
pub fn predecrypt_fft(dk: &DecryptionKey, cts: &[FoCiphertext]) -> (cross: CrossTerms)
    requires
        dk.wf(),
        cts@.len() == dk.batch_size,
    ensures
        cross.values@.len() == dk.fft_size,
        forall|i: int|
            0 <= i < dk.fft_size ==> (#[trigger] cross.values@[i])@ == cross_term(
                point_logs(cts@),
                kernel_of(dk),
                i,
            ) % order(),
{
    cross_terms_of_points(dk, &batch_points(cts))
}

/// The element that the key of slot `i` is hidden behind.
pub open spec fn pairing_key(dk: &DecryptionKey, pd: int, cross: CrossTerms, i: int) -> int {
    (pd * dk.powers_of_h_affine@[dk.batch_size - i]@ - cross.values@[i]@) % order()
}

/// The elements that the keys of all slots are hidden behind.
pub fn recover_pairing_keys(
    dk: &DecryptionKey,
    pd: &ArkG1,
    cross: &CrossTerms,
) -> (values: Vec<ArkGt>)
    requires
        dk.wf(),
        cross.values@.len() >= dk.batch_size,
    ensures
        values@.len() == dk.batch_size,
        forall|i: int|
            0 <= i < dk.batch_size ==> (#[trigger] values@[i])@ == pairing_key(dk, pd@, *cross, i),
{
    let mut values: Vec<ArkGt> = Vec::new();
    while values.len() < dk.batch_size
        invariant
            dk.wf(),
            cross.values@.len() >= dk.batch_size,
            values@.len() <= dk.batch_size,
            forall|i: int|
                0 <= i < values@.len() ==> (#[trigger] values@[i])@ == pairing_key(
                    dk,
                    pd@,
                    *cross,
                    i,
                ),
        decreases dk.batch_size - values@.len(),
    {
        let i = values.len();
        values.push(pad_of_slot(dk, pd, cross.values[i], i));
    }
    values
}

/// The key of a ciphertext, from the element that it is hidden behind.
pub open spec fn opened_key(ct: FoCiphertext, element: int) -> Seq<u8> {
    xored(element_key(element), ct.ct1@)
}

/// The message of a ciphertext, from the element that its key is hidden behind.
pub open spec fn opened_message(ct: FoCiphertext, element: int) -> Seq<u8> {
    keystream_xor(opened_key(ct, element), ct.ct2@)
}

/// The messages and the hints of a batch, with the combined point and the cross terms.
pub fn helper_finalize(
    dk: &DecryptionKey,
    pd: &ArkG1,
    cts: &[FoCiphertext],
    cross: &CrossTerms,
) -> (result: (Vec<Vec<u8>>, DecryptionHints))
    requires
        dk.wf(),
        cts@.len() == dk.batch_size,
        are_short(cts@),
        cross.values@.len() >= dk.batch_size,
    ensures
        result.0@.len() == dk.batch_size,
        result.1.keys@.len() == dk.batch_size,
        result.1.pairing_values@.len() == dk.batch_size,
        forall|i: int|
            0 <= i < dk.batch_size ==> (#[trigger] result.1.pairing_values@[i])@ == pairing_key(
                dk,
                pd@,
                *cross,
                i,
            ),
        forall|i: int|
            0 <= i < dk.batch_size ==> (#[trigger] result.1.keys@[i])@ == opened_key(
                cts@[i],
                pairing_key(dk, pd@, *cross, i),
            ),
        forall|i: int|
            0 <= i < dk.batch_size ==> (#[trigger] result.0@[i])@ == opened_message(
                cts@[i],
                pairing_key(dk, pd@, *cross, i),
            ),
{
    let pairing_values = recover_pairing_keys(dk, pd, cross);
    let mut keys: Vec<[u8; 16]> = Vec::new();
    let mut messages: Vec<Vec<u8>> = Vec::new();
    while keys.len() < cts.len()
        invariant
            cts@.len() == dk.batch_size == pairing_values@.len(),
            are_short(cts@),
            forall|i: int|
                0 <= i < dk.batch_size ==> (#[trigger] pairing_values@[i])@ == pairing_key(
                    dk,
                    pd@,
                    *cross,
                    i,
                ),
            keys@.len() == messages@.len() <= cts@.len(),
            forall|i: int|
                0 <= i < keys@.len() ==> (#[trigger] keys@[i])@ == opened_key(
                    cts@[i],
                    pairing_key(dk, pd@, *cross, i),
                ),
            forall|i: int|
                0 <= i < keys@.len() ==> (#[trigger] messages@[i])@ == opened_message(
                    cts@[i],
                    pairing_key(dk, pd@, *cross, i),
                ),
        decreases cts@.len() - keys@.len(),
    {
        let i = keys.len();
        let key = xor_16(&h_k(&pairing_values[i]), &cts[i].ct1);
        let msg = h_m_xor(&key, cts[i].ct2.as_slice());
        keys.push(key);
        messages.push(msg);
    }
    (messages, DecryptionHints { keys, pairing_values })
}

/// The messages and the smaller hints of a batch, with the combined point and the cross terms.
pub fn helper_finalize_bandwidth_optimized(
    dk: &DecryptionKey,
    pd: &ArkG1,
    cts: &[FoCiphertext],
    cross: &CrossTerms,
) -> (result: (Vec<Vec<u8>>, BandwidthDecryptionHints))
    requires
        dk.wf(),
        cts@.len() == dk.batch_size,
        are_short(cts@),
        cross.values@.len() >= dk.batch_size,
    ensures
        result.0@.len() == dk.batch_size,
        result.1.randomness@.len() == dk.batch_size,
        forall|i: int|
            0 <= i < dk.batch_size ==> (#[trigger] result.0@[i])@ == opened_message(
                cts@[i],
                pairing_key(dk, pd@, *cross, i),
            ),
        forall|i: int|
            0 <= i < dk.batch_size ==> (#[trigger] result.1.randomness@[i])@ == randomness_of(
                opened_key(cts@[i], pairing_key(dk, pd@, *cross, i)),
                opened_message(cts@[i], pairing_key(dk, pd@, *cross, i)),
            ),
{
    let (messages, hints) = helper_finalize(dk, pd, cts, cross);
    let mut randomness: Vec<ArkScalar> = Vec::new();
    while randomness.len() < messages.len()
        invariant
            messages@.len() == dk.batch_size == hints.keys@.len(),
            forall|i: int|
                0 <= i < dk.batch_size ==> (#[trigger] hints.keys@[i])@ == opened_key(
                    cts@[i],
                    pairing_key(dk, pd@, *cross, i),
                ),
            forall|i: int|
                0 <= i < dk.batch_size ==> (#[trigger] messages@[i])@ == opened_message(
                    cts@[i],
                    pairing_key(dk, pd@, *cross, i),
                ),
            randomness@.len() <= messages@.len(),
            forall|i: int|
                0 <= i < randomness@.len() ==> (#[trigger] randomness@[i])@ == randomness_of(
                    opened_key(cts@[i], pairing_key(dk, pd@, *cross, i)),
                    opened_message(cts@[i], pairing_key(dk, pd@, *cross, i)),
                ),
        decreases messages@.len() - randomness@.len(),
    {
        let i = randomness.len();
        randomness.push(h_r(&hints.keys[i], messages[i].as_slice()));
    }
    (messages, BandwidthDecryptionHints { randomness })
}

/// What slot `i` of a batch is opened with: the cross term by transforms.
pub open spec fn slot_key(dk: &DecryptionKey, pd: int, cts: Seq<FoCiphertext>, i: int) -> int {
    (pd * dk.powers_of_h_affine@[dk.batch_size - i]@ - cross_term(
        point_logs(cts),
        kernel_of(dk),
        i,
    ) % order()) % order()
}

/// Decrypts a batch by transforms, and gives hints.
pub fn helper_decrypt(dk: &DecryptionKey, pd: &ArkG1, cts: &[FoCiphertext]) -> (result: (
    Vec<Vec<u8>>,
    DecryptionHints,
))
    requires
        dk.wf(),
        cts@.len() == dk.batch_size,
        are_short(cts@),
    ensures
        result.0@.len() == dk.batch_size,
        result.1.keys@.len() == dk.batch_size,
        result.1.pairing_values@.len() == dk.batch_size,
        forall|i: int|
            0 <= i < dk.batch_size ==> (#[trigger] result.1.pairing_values@[i])@ == slot_key(
                dk,
                pd@,
                cts@,
                i,
            ),
        forall|i: int|
            0 <= i < dk.batch_size ==> (#[trigger] result.1.keys@[i])@ == opened_key(
                cts@[i],
                slot_key(dk, pd@, cts@, i),
            ),
        forall|i: int|
            0 <= i < dk.batch_size ==> (#[trigger] result.0@[i])@ == opened_message(
                cts@[i],
                slot_key(dk, pd@, cts@, i),
            ),
{
    let cross = predecrypt_fft(dk, cts);
    assert forall|i: int| 0 <= i < dk.batch_size implies #[trigger] pairing_key(dk, pd@, cross, i)
        == slot_key(dk, pd@, cts@, i) by {
        assert(cross.values@[i]@ == cross_term(point_logs(cts@), kernel_of(dk), i) % order());
    }
    helper_finalize(dk, pd, cts, &cross)
}

/// Decrypts a batch by transforms, and gives the smaller hints.
pub fn helper_decrypt_bandwidth_optimized(dk: &DecryptionKey, pd: &ArkG1, cts: &[FoCiphertext]) -> (result:
    (Vec<Vec<u8>>, BandwidthDecryptionHints))
    requires
        dk.wf(),
        cts@.len() == dk.batch_size,
        are_short(cts@),
    ensures
        result.0@.len() == dk.batch_size,
        result.1.randomness@.len() == dk.batch_size,
        forall|i: int|
            0 <= i < dk.batch_size ==> (#[trigger] result.0@[i])@ == opened_message(
                cts@[i],
                slot_key(dk, pd@, cts@, i),
            ),
        forall|i: int|
            0 <= i < dk.batch_size ==> (#[trigger] result.1.randomness@[i])@ == randomness_of(
                opened_key(cts@[i], slot_key(dk, pd@, cts@, i)),
                opened_message(cts@[i], slot_key(dk, pd@, cts@, i)),
            ),
{
    let cross = predecrypt_fft(dk, cts);
    assert forall|i: int| 0 <= i < dk.batch_size implies #[trigger] pairing_key(dk, pd@, cross, i)
        == slot_key(dk, pd@, cts@, i) by {
        assert(cross.values@[i]@ == cross_term(point_logs(cts@), kernel_of(dk), i) % order());
    }
    helper_finalize_bandwidth_optimized(dk, pd, cts, &cross)
}

/// The numbers that challenges stand for.
pub open spec fn challenge_values(challenges: Seq<[u8; 16]>) -> Seq<int> {
    Seq::new(challenges.len(), |i: int| le_value(challenges[i]@))
}

/// The message that a key opens a ciphertext to.
pub open spec fn message_with(key: Seq<u8>, ct: FoCiphertext) -> Seq<u8> {
    keystream_xor(key, ct.ct2@)
}

/// The randomness that the keys of the hints give for the ciphertexts.
pub open spec fn hinted_randomness(cts: Seq<FoCiphertext>, keys: Seq<[u8; 16]>) -> Seq<int> {
    Seq::new(cts.len(), |i: int| randomness_of(keys[i]@, message_with(keys[i]@, cts[i])))
}

/// Whether a key of the hints and the element that it is hidden behind fit a ciphertext.
pub open spec fn hint_fits(ct: FoCiphertext, key: Seq<u8>, element: int) -> bool {
    ct.ct1@ == xored(element_key(element), key)
}

/// Whether every key of the hints fits its ciphertext.
pub open spec fn all_hints_fit(cts: Seq<FoCiphertext>, hints: DecryptionHints) -> bool {
    forall|i: int|
        0 <= i < cts.len() ==> hint_fits(
            #[trigger] cts[i],
            hints.keys@[i]@,
            hints.pairing_values@[i]@,
        )
}

/// Whether the hints of a batch are accepted with the given challenges: every key fits its
/// ciphertext, and the points and the elements, each added up with the challenges, are the
/// generator and the key's element times the randomness, added up likewise.
pub open spec fn hints_accepted(
    ek: EncryptionKey,
    cts: Seq<FoCiphertext>,
    hints: DecryptionHints,
    challenges: Seq<int>,
) -> bool {
    let total = dot(hinted_randomness(cts, hints.keys@), challenges);
    &&& all_hints_fit(cts, hints)
    &&& cong(dot(point_logs(cts), challenges), total)
    &&& cong(dot(views(hints.pairing_values@), challenges), ek.e@ * total)
}

/// The message of a ciphertext with hinted randomness.
pub open spec fn bandwidth_message(ek: EncryptionKey, ct: FoCiphertext, k: int) -> Seq<u8> {
    opened_message(ct, (ek.e@ * k) % order())
}

/// Whether hinted randomness is what the ciphertext that it opens was made with.
pub open spec fn randomness_fits(ek: EncryptionKey, ct: FoCiphertext, k: int) -> bool {
    randomness_of(
        opened_key(ct, (ek.e@ * k) % order()),
        bandwidth_message(ek, ct, k),
    ) == k
}

/// Whether all hinted randomness is what the ciphertexts were made with.
pub open spec fn all_randomness_fits(
    ek: EncryptionKey,
    cts: Seq<FoCiphertext>,
    hints: BandwidthDecryptionHints,
) -> bool {
    forall|i: int|
        0 <= i < cts.len() ==> randomness_fits(ek, #[trigger] cts[i], hints.randomness@[i]@)
}

/// Whether the smaller hints of a batch are accepted with the given challenges.
pub open spec fn bandwidth_hints_accepted(
    ek: EncryptionKey,
    cts: Seq<FoCiphertext>,
    hints: BandwidthDecryptionHints,
    challenges: Seq<int>,
) -> bool {
    &&& all_randomness_fits(ek, cts, hints)
    &&& cong(dot(point_logs(cts), challenges), dot(views(hints.randomness@), challenges))
}

/// A challenge is a residue below `2^128`.
pub proof fn lemma_challenge(bytes: Seq<u8>)
    requires
        bytes.len() == 16,
    ensures
        0 <= le_value(bytes) < pow2(128),
        le_value(bytes) % order() == le_value(bytes),
{
    lemma_le_value_bound(bytes);
    assert(pow2(128) < order()) by {
        lemma2_to64_rest();
        lemma_pow2_adds(64, 64);
        reveal(order);
    }
    lemma_reduced(le_value(bytes));
}

/// The challenges in limbs, and the scalars added up with them.
#[verifier::spinoff_prover]
fn combine_with_challenges(scalars: &Vec<ArkScalar>, challenges: &Vec<[u8; 16]>) -> (result: (
    Vec<[u64; 4]>,
    ArkScalar,
))
    requires
        scalars@.len() == challenges@.len(),
    ensures
        result.0@.len() == challenges@.len(),
        forall|i: int|
            0 <= i < challenges@.len() ==> #[trigger] scalar_at(result.0@, i)
                == challenge_values(challenges@)[i] && challenge_values(challenges@)[i] < pow2(
                128,
            ),
        cong(result.1@, dot(views(scalars@), challenge_values(challenges@))),
{
    let ghost (ks, rs) = (views(scalars@), challenge_values(challenges@));
    let mut r_bigints: Vec<[u64; 4]> = Vec::new();
    let mut rk_sum = ArkScalar::zero();
    while r_bigints.len() < scalars.len()
        invariant
            scalars@.len() == challenges@.len(),
            ks == views(scalars@),
            rs == challenge_values(challenges@),
            r_bigints@.len() <= scalars@.len(),
            forall|i: int|
                0 <= i < r_bigints@.len() ==> #[trigger] scalar_at(r_bigints@, i) == rs[i] && rs[i]
                    < pow2(128),
            cong(rk_sum@, sum(products(ks, rs), 0, r_bigints@.len() as int)),
        decreases scalars@.len() - r_bigints@.len(),
    {
        let index = r_bigints.len();
        let r = ArkScalar::from_le_bytes_mod_order(challenges[index].as_slice());
        let term = r.times(scalars[index]);
        proof {
            let i = index as int;
            lemma_challenge(challenges@[i]@);
            let (x, y) = (r@, scalars@[i]@);
            lemma_reduce(x * y);
            assert(x * y == y * x) by (nonlinear_arith);
            let f = products(ks, rs);
            lemma_cong_add(rk_sum@, sum(f, 0, i), term@, f(i));
            lemma_reduce(rk_sum@ + term@);
        }
        rk_sum = rk_sum.plus(term);
        let ghost before = r_bigints@;
        let limbs = r.into_bigint();
        r_bigints.push(limbs);
        proof {
            assert forall|i: int| 0 <= i < r_bigints@.len() implies #[trigger] scalar_at(
                r_bigints@,
                i,
            ) == rs[i] && rs[i] < pow2(128) by {
                if i < index {
                    assert(scalar_at(before, i) == rs[i]);
                    assert(before[i] == r_bigints@[i]);
                }
            }
        }
    }
    proof {
        assert(ks.len() == scalars@.len());
        assert(r_bigints@.len() == challenges@.len());
        assert forall|i: int| 0 <= i < challenges@.len() implies #[trigger] scalar_at(
            r_bigints@,
            i,
        ) == challenge_values(challenges@)[i] && challenge_values(challenges@)[i] < pow2(128) by {
            assert(scalar_at(r_bigints@, i) == rs[i]);
            assert(rs[i] < pow2(128));
        }
    }
    (r_bigints, rk_sum)
}

/// Whether the points, added up with the challenges, are the generator times a scalar.
fn points_match(cts: &[FoCiphertext], r_bigints: &Vec<[u64; 4]>, rk_sum: ArkScalar, Ghost(rs): Ghost<
    Seq<int>,
>) -> (matches: bool)
    requires
        cts@.len() == r_bigints@.len() == rs.len(),
        forall|i: int|
            0 <= i < rs.len() ==> #[trigger] scalar_at(r_bigints@, i) == rs[i] && rs[i] < pow2(
                128,
            ),
    ensures
        matches == cong(dot(point_logs(cts@), rs), rk_sum@),
{
    let bases = batch_points(cts);
    let lhs = msm_small(&bases, r_bigints, CHALLENGE_BITS);
    let rhs = ArkG1::generator().times(rk_sum);
    proof {
        assert(views(bases@).len() == bases@.len());
        lemma_small_scalars(views(bases@), r_bigints@, rs, 128);
        assert(1 * rk_sum@ == rk_sum@);
    }
    lhs == rhs
}

/// The messages of a batch and the randomness of its ciphertexts, from the keys of the hints;
/// nothing where a key does not fit.
fn open_with_hints(cts: &[FoCiphertext], hints: &DecryptionHints) -> (result: Option<
    (Vec<Vec<u8>>, Vec<ArkScalar>),
>)
    requires
        are_short(cts@),
        hints.keys@.len() == cts@.len(),
        hints.pairing_values@.len() == cts@.len(),
    ensures
        result is Some <==> all_hints_fit(cts@, *hints),
        result matches Some((messages, scalars)) ==> {
            &&& views(scalars@) == hinted_randomness(cts@, hints.keys@)
            &&& scalars@.len() == messages@.len() == cts@.len()
            &&& forall|i: int|
                0 <= i < cts@.len() ==> (#[trigger] messages@[i])@ == message_with(
                    hints.keys@[i]@,
                    cts@[i],
                )
        },
{
    let b = cts.len();
    let mut index: usize = 0;
    while index < b
        invariant
            b == cts@.len() == hints.keys@.len() == hints.pairing_values@.len(),
            index <= b,
            forall|i: int|
                0 <= i < index ==> hint_fits(
                    #[trigger] cts@[i],
                    hints.keys@[i]@,
                    hints.pairing_values@[i]@,
                ),
        decreases b - index,
    {
        let expected = xor_16(&h_k(&hints.pairing_values[index]), &hints.keys[index]);
        if !bytes_equal(cts[index].ct1.as_slice(), expected.as_slice()) {
            assert(!hint_fits(
                cts@[index as int],
                hints.keys@[index as int]@,
                hints.pairing_values@[index as int]@,
            ));
            return None;
        }
        index = index + 1;
    }
    let mut messages: Vec<Vec<u8>> = Vec::new();
    let mut scalars: Vec<ArkScalar> = Vec::new();
    while messages.len() < b
        invariant
            b == cts@.len() == hints.keys@.len(),
            are_short(cts@),
            messages@.len() == scalars@.len() <= b,
            forall|i: int|
                0 <= i < messages@.len() ==> (#[trigger] messages@[i])@ == message_with(
                    hints.keys@[i]@,
                    cts@[i],
                ),
            forall|i: int|
                0 <= i < messages@.len() ==> (#[trigger] scalars@[i])@ == hinted_randomness(
                    cts@,
                    hints.keys@,
                )[i],
        decreases b - messages@.len(),
    {
        let i = messages.len();
        let msg = h_m_xor(&hints.keys[i], cts[i].ct2.as_slice());
        scalars.push(h_r(&hints.keys[i], msg.as_slice()));
        messages.push(msg);
    }
    assert(views(scalars@) =~= hinted_randomness(cts@, hints.keys@));
    Some((messages, scalars))
}

/// Whether the points and the elements of a batch, each added up with the challenges, are the
/// generator and the key's element times the randomness, added up likewise.
fn sums_match(
    ek: &EncryptionKey,
    cts: &[FoCiphertext],
    hints: &DecryptionHints,
    scalars: &Vec<ArkScalar>,
    challenges: &Vec<[u8; 16]>,
) -> (matches: bool)
    requires
        hints.pairing_values@.len() == cts@.len(),
        challenges@.len() == cts@.len(),
        scalars@.len() == cts@.len(),
    ensures
        ({
            let rs = challenge_values(challenges@);
            let total = dot(views(scalars@), rs);
            matches == (cong(dot(point_logs(cts@), rs), total) && cong(
                dot(views(hints.pairing_values@), rs),
                ek.e@ * total,
            ))
        }),
{
    let ghost rs = challenge_values(challenges@);
    let (r_bigints, rk_sum) = combine_with_challenges(scalars, challenges);
    assert forall|i: int| 0 <= i < rs.len() implies #[trigger] scalar_at(r_bigints@, i) == rs[i]
        && rs[i] < pow2(128) by {}
    let ghost total = dot(views(scalars@), rs);
    if !points_match(cts, &r_bigints, rk_sum, Ghost(rs)) {
        return false;
    }
    let gt_lhs = msm_small(&hints.pairing_values, &r_bigints, CHALLENGE_BITS);
    let gt_rhs = ek.e.times(rk_sum);
    proof {
        assert(views(hints.pairing_values@).len() == hints.pairing_values@.len());
        lemma_small_scalars(views(hints.pairing_values@), r_bigints@, rs, 128);
        lemma_cong_mul(ek.e@, ek.e@, rk_sum@, total);
    }
    gt_lhs == gt_rhs
}

/// Checks the hints of a batch with the given challenges, and recovers the messages; nothing
/// where a check fails.
pub fn batch_verify_with_challenges(
    ek: &EncryptionKey,
    cts: &[FoCiphertext],
    hints: &DecryptionHints,
    challenges: &Vec<[u8; 16]>,
) -> (result: Option<Vec<Vec<u8>>>)
    requires
        are_short(cts@),
        hints.keys@.len() == cts@.len(),
        hints.pairing_values@.len() == cts@.len(),
        challenges@.len() == cts@.len(),
    ensures
        match result {
            Some(messages) => {
                &&& hints_accepted(*ek, cts@, *hints, challenge_values(challenges@))
                &&& messages@.len() == cts@.len()
                &&& forall|i: int|
                    0 <= i < cts@.len() ==> (#[trigger] messages@[i])@ == message_with(
                        hints.keys@[i]@,
                        cts@[i],
                    )
            },
            None => !hints_accepted(*ek, cts@, *hints, challenge_values(challenges@)),
        },
{
    let (messages, scalars) = open_with_hints(cts, hints)?;
    if sums_match(ek, cts, hints, &scalars, challenges) {
        Some(messages)
    } else {
        None
    }
}

/// The bytes of keys.
pub open spec fn key_bytes(keys: Seq<[u8; 16]>) -> Seq<Seq<u8>> {
    Seq::new(keys.len(), |i: int| keys[i]@)
}

/// `count` challenges drawn from `rng`.
fn draw_challenges<R: RandomSource>(rng: &mut R, count: usize) -> (challenges: Vec<[u8; 16]>)
    ensures
        challenges@.len() == count,
        final(rng).drawn_keys() == old(rng).drawn_keys() + key_bytes(challenges@),
        final(rng).drawn_scalars() == old(rng).drawn_scalars(),
{
    let ghost start = rng.drawn_keys();
    let ghost scalars = rng.drawn_scalars();
    let mut challenges: Vec<[u8; 16]> = Vec::new();
    assert(rng.drawn_keys() =~= start + key_bytes(challenges@));
    while challenges.len() < count
        invariant
            challenges@.len() <= count,
            rng.drawn_keys() == start + key_bytes(challenges@),
            rng.drawn_scalars() == scalars,
        decreases count - challenges@.len(),
    {
        challenges.push(rng.random_key());
        assert(rng.drawn_keys() =~= start + key_bytes(challenges@));
    }
    challenges
}

/// Whether numbers are challenges for a batch.
pub open spec fn are_challenges(challenges: Seq<int>, count: int) -> bool {
    &&& challenges.len() == count
    &&& forall|i: int| 0 <= i < count ==> 0 <= #[trigger] challenges[i] < pow2(128)
}

proof fn lemma_are_challenges(challenges: Seq<[u8; 16]>)
    ensures
        are_challenges(challenge_values(challenges), challenges.len() as int),
{
    let values = challenge_values(challenges);
    assert forall|i: int| 0 <= i < challenges.len() implies 0 <= #[trigger] values[i] < pow2(
        128,
    ) by {
        lemma_challenge(challenges[i]@);
    }
}

/// The numbers that keys drawn as challenges stand for, between two states of a source's
/// record.
pub open spec fn challenges_since(before: Seq<Seq<u8>>, after: Seq<Seq<u8>>) -> Seq<int> {
    Seq::new((after.len() - before.len()) as nat, |i: int| le_value(after[before.len() + i]))
}

/// Checks the hints of a batch with random challenges, and recovers the messages; nothing
/// where a check fails. No challenge is drawn where a key does not fit its ciphertext.
pub fn batch_verify<R: RandomSource>(
    ek: &EncryptionKey,
    cts: &[FoCiphertext],
    hints: &DecryptionHints,
    rng: &mut R,
) -> (result: Option<Vec<Vec<u8>>>)
    requires
        are_short(cts@),
        hints.keys@.len() == cts@.len(),
        hints.pairing_values@.len() == cts@.len(),
    ensures
        old(rng).drawn_keys().is_prefix_of(final(rng).drawn_keys()),
        final(rng).drawn_scalars() == old(rng).drawn_scalars(),
        !all_hints_fit(cts@, *hints) ==> result is None && final(rng).drawn_keys() == old(
            rng,
        ).drawn_keys(),
        all_hints_fit(cts@, *hints) ==> are_challenges(
            challenges_since(old(rng).drawn_keys(), final(rng).drawn_keys()),
            cts@.len() as int,
        ),
        result is Some <==> hints_accepted(
            *ek,
            cts@,
            *hints,
            challenges_since(old(rng).drawn_keys(), final(rng).drawn_keys()),
        ),
        result matches Some(messages) ==> messages@.len() == cts@.len() && forall|i: int|
            0 <= i < cts@.len() ==> (#[trigger] messages@[i])@ == message_with(
                hints.keys@[i]@,
                cts@[i],
            ),
{
    let ghost start = rng.drawn_keys();
    let (messages, scalars) = open_with_hints(cts, hints)?;
    let challenges = draw_challenges(rng, cts.len());
    proof {
        assert(challenges_since(start, rng.drawn_keys()) =~= challenge_values(challenges@));
        lemma_are_challenges(challenges@);
    }
    if sums_match(ek, cts, hints, &scalars, &challenges) {
        Some(messages)
    } else {
        None
    }
}

/// The messages of a batch, from hinted randomness; nothing where it is not what the
/// ciphertexts were made with.
fn open_with_randomness(
    ek: &EncryptionKey,
    cts: &[FoCiphertext],
    hints: &BandwidthDecryptionHints,
) -> (result: Option<Vec<Vec<u8>>>)
    requires
        are_short(cts@),
        hints.randomness@.len() == cts@.len(),
    ensures
        result is Some <==> all_randomness_fits(*ek, cts@, *hints),
        result matches Some(messages) ==> messages@.len() == cts@.len() && forall|i: int|
            0 <= i < cts@.len() ==> (#[trigger] messages@[i])@ == bandwidth_message(
                *ek,
                cts@[i],
                hints.randomness@[i]@,
            ),
{
    let b = cts.len();
    let mut messages: Vec<Vec<u8>> = Vec::new();
    while messages.len() < b
        invariant
            b == cts@.len() == hints.randomness@.len(),
            are_short(cts@),
            messages@.len() <= b,
            forall|i: int|
                0 <= i < messages@.len() ==> (#[trigger] messages@[i])@ == bandwidth_message(
                    *ek,
                    cts@[i],
                    hints.randomness@[i]@,
                ),
            forall|i: int|
                0 <= i < messages@.len() ==> randomness_fits(
                    *ek,
                    #[trigger] cts@[i],
                    hints.randomness@[i]@,
                ),
        decreases b - messages@.len(),
    {
        let i = messages.len();
        let pairing_value = ek.e.times(hints.randomness[i]);
        let key = xor_16(&h_k(&pairing_value), &cts[i].ct1);
        let msg = h_m_xor(&key, cts[i].ct2.as_slice());
        if h_r(&key, msg.as_slice()) != hints.randomness[i] {
            assert(!randomness_fits(*ek, cts@[i as int], hints.randomness@[i as int]@));
            return None;
        }
        messages.push(msg);
    }
    Some(messages)
}

/// Whether the points of a batch, added up with the challenges, are the generator times the
/// scalars, added up likewise.
fn point_sums_match(
    cts: &[FoCiphertext],
    scalars: &Vec<ArkScalar>,
    challenges: &Vec<[u8; 16]>,
) -> (matches: bool)
    requires
        challenges@.len() == cts@.len(),
        scalars@.len() == cts@.len(),
    ensures
        ({
            let rs = challenge_values(challenges@);
            matches == cong(dot(point_logs(cts@), rs), dot(views(scalars@), rs))
        }),
{
    let ghost rs = challenge_values(challenges@);
    let (r_bigints, rk_sum) = combine_with_challenges(scalars, challenges);
    assert forall|i: int| 0 <= i < rs.len() implies #[trigger] scalar_at(r_bigints@, i) == rs[i]
        && rs[i] < pow2(128) by {}
    points_match(cts, &r_bigints, rk_sum, Ghost(rs))
}

/// Checks the smaller hints of a batch with the given challenges, and recovers the messages;
/// nothing where a check fails.
pub fn batch_verify_bandwidth_optimized_with_challenges(
    ek: &EncryptionKey,
    cts: &[FoCiphertext],
    hints: &BandwidthDecryptionHints,
    challenges: &Vec<[u8; 16]>,
) -> (result: Option<Vec<Vec<u8>>>)
    requires
        are_short(cts@),
        hints.randomness@.len() == cts@.len(),
        challenges@.len() == cts@.len(),
    ensures
        match result {
            Some(messages) => {
                &&& bandwidth_hints_accepted(*ek, cts@, *hints, challenge_values(challenges@))
                &&& messages@.len() == cts@.len()
                &&& forall|i: int|
                    0 <= i < cts@.len() ==> (#[trigger] messages@[i])@ == bandwidth_message(
                        *ek,
                        cts@[i],
                        hints.randomness@[i]@,
                    )
            },
            None => !bandwidth_hints_accepted(*ek, cts@, *hints, challenge_values(challenges@)),
        },
{
    let messages = open_with_randomness(ek, cts, hints)?;
    if point_sums_match(cts, &hints.randomness, challenges) {
        Some(messages)
    } else {
        None
    }
}

/// Checks the smaller hints of a batch with random challenges, and recovers the messages;
/// nothing where a check fails. No challenge is drawn where hinted randomness is not what its
/// ciphertext was made with.
pub fn batch_verify_bandwidth_optimized<R: RandomSource>(
    ek: &EncryptionKey,
    cts: &[FoCiphertext],
    hints: &BandwidthDecryptionHints,
    rng: &mut R,
) -> (result: Option<Vec<Vec<u8>>>)
    requires
        are_short(cts@),
        hints.randomness@.len() == cts@.len(),
    ensures
        old(rng).drawn_keys().is_prefix_of(final(rng).drawn_keys()),
        final(rng).drawn_scalars() == old(rng).drawn_scalars(),
        !all_randomness_fits(*ek, cts@, *hints) ==> result is None && final(rng).drawn_keys()
            == old(rng).drawn_keys(),
        all_randomness_fits(*ek, cts@, *hints) ==> are_challenges(
            challenges_since(old(rng).drawn_keys(), final(rng).drawn_keys()),
            cts@.len() as int,
        ),
        result is Some <==> bandwidth_hints_accepted(
            *ek,
            cts@,
            *hints,
            challenges_since(old(rng).drawn_keys(), final(rng).drawn_keys()),
        ),
        result matches Some(messages) ==> messages@.len() == cts@.len() && forall|i: int|
            0 <= i < cts@.len() ==> (#[trigger] messages@[i])@ == bandwidth_message(
                *ek,
                cts@[i],
                hints.randomness@[i]@,
            ),
{
    let ghost start = rng.drawn_keys();
    let messages = open_with_randomness(ek, cts, hints)?;
    let challenges = draw_challenges(rng, cts.len());
    proof {
        assert(challenges_since(start, rng.drawn_keys()) =~= challenge_values(challenges@));
        lemma_are_challenges(challenges@);
    }
    if point_sums_match(cts, &hints.randomness, &challenges) {
        Some(messages)
    } else {
        None
    }
}

/// A ciphertext of a byte string hides it: every byte is combined with one of the digests of its
/// key and the block, the key with the digest of the element that the randomness gives, and the
/// point is the randomness, which the key and the string give.
pub proof fn law_ciphertext_hides_its_message(
    ct: FoCiphertext,
    ek: EncryptionKey,
    key: Seq<u8>,
    message: Seq<u8>,
)
    requires
        ct.is_encryption_of(ek, key, message),
        key.len() == 16,
    ensures
        ({
            let s = "simple-bte-fo-hr".spec_bytes() + key + le_bytes(message.len() as int, 8)
                + message;
            ct.ct0@ == le_value(sha256(s.push(0)) + sha256(s.push(1))) % order()
        }),
        forall|i: int|
            0 <= i < 16 ==> #[trigger] ct.ct1@[i] == sha256(
                "simple-bte-fo-hk".spec_bytes() + ark_gt_bytes((ek.e@ * ct.ct0@) % order()),
            ).take(16)[i] ^ key[i],
        ct.ct2@.len() == message.len(),
        forall|i: int|
            0 <= i < message.len() ==> #[trigger] ct.ct2@[i] == message[i] ^ sha256(
                "simple-bte-fo-hm".spec_bytes() + key + le_bytes(i / 32, 4),
            )[i % 32],
{
    assert(ct.ct1@.len() == 16);
}

} // verus!
