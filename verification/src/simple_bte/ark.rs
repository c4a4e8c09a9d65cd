//! BLS12-381 scalars, points and target-group elements, with the arithmetic of the
//! arkworks crates.
//!
//! Each type holds the canonical encoding of its value: a scalar as 32 bytes, the
//! least significant one first, a group element as the bytes that
//! `CanonicalSerialize::serialize_uncompressed` writes. In contracts a scalar is the
//! residue modulo [`order`] that its bytes stand for, and a group element is its
//! discrete logarithm to the base of the group's fixed generator. The generator of
//! the target group is the pairing of the two other generators, so the pairing of
//! `x` and `y` is `x * y`. Every element comes from a generator or an identity by
//! group operations, so it lies in the subgroup of prime order, where the logarithm
//! is defined and tells elements apart.
use ark_bls12_381::{Bls12_381, G1Affine, G1Projective, G2Affine, G2Projective};
use ark_ec::{CurveGroup, PrimeGroup, ScalarMul, VariableBaseMSM};
use ark_ec::pairing::{Pairing, PairingOutput};
use ark_ff::{BigInteger, PrimeField, Zero};
use ark_poly::EvaluationDomain;
use ark_serialize::{CanonicalDeserialize, CanonicalSerialize};
use ark_std::UniformRand;
use rand_core::RngCore;
use vstd::prelude::*;

use crate::algebra::dft::dft;
use crate::algebra::residue::{inv, lemma_one, lemma_reduce, order};
use crate::algebra::sums::dot;
use crate::bytes::le_value;
use crate::curve::{views, Recorded};
use crate::fft::{is_domain_size, size_root};
use crate::numbers::limbs_value;

verus! {

/// The discrete logarithm of the point of the first source group with an encoding; bytes
/// that encode none stand for the identity.
pub uninterp spec fn ark_g1_log(bytes: Seq<u8>) -> int;

/// The discrete logarithm of the point of the second source group with an encoding; bytes
/// that encode none stand for the identity.
pub uninterp spec fn ark_g2_log(bytes: Seq<u8>) -> int;

/// The discrete logarithm of the element of the target group with an encoding; bytes
/// that encode none stand for the identity.
pub uninterp spec fn ark_gt_log(bytes: Seq<u8>) -> int;

/// The bytes that `CanonicalSerialize::serialize_compressed` writes for the point of
/// the first source group with a logarithm.
pub uninterp spec fn ark_g1_bytes(log: int) -> Seq<u8>;

/// The bytes that `CanonicalSerialize::serialize_compressed` writes for the element of
/// the target group with a logarithm.
pub uninterp spec fn ark_gt_bytes(log: int) -> Seq<u8>;

/// A scalar of the field of prime order.
#[derive(Clone, Copy, Debug)]
pub struct ArkScalar {
    bytes: [u8; 32],
}

impl View for ArkScalar {
    type V = int;

    closed spec fn view(&self) -> int {
        le_value(self.bytes@) % order()
    }
}

impl PartialEq for ArkScalar {
    fn eq(&self, other: &Self) -> (equal: bool) {
        ark_scalar_eq(self, other)
    }
}

impl Eq for ArkScalar {

}

impl vstd::std_specs::cmp::PartialEqSpecImpl for ArkScalar {
    open spec fn obeys_eq_spec() -> bool {
        true
    }

    open spec fn eq_spec(&self, other: &Self) -> bool {
        self@ == other@
    }
}

/// A point of the first source group.
#[derive(Clone, Copy, Debug)]
pub struct ArkG1 {
    bytes: [u8; 96],
}

impl View for ArkG1 {
    type V = int;

    closed spec fn view(&self) -> int {
        ark_g1_log(self.bytes@) % order()
    }
}

impl PartialEq for ArkG1 {
    fn eq(&self, other: &Self) -> (equal: bool) {
        ark_g1_eq(self, other)
    }
}

impl Eq for ArkG1 {

}

impl vstd::std_specs::cmp::PartialEqSpecImpl for ArkG1 {
    open spec fn obeys_eq_spec() -> bool {
        true
    }

    open spec fn eq_spec(&self, other: &Self) -> bool {
        self@ == other@
    }
}

/// A point of the second source group.
#[derive(Clone, Copy, Debug)]
pub struct ArkG2 {
    bytes: [u8; 192],
}

impl View for ArkG2 {
    type V = int;

    closed spec fn view(&self) -> int {
        ark_g2_log(self.bytes@) % order()
    }
}

impl PartialEq for ArkG2 {
    fn eq(&self, other: &Self) -> (equal: bool) {
        ark_g2_eq(self, other)
    }
}

impl Eq for ArkG2 {

}

impl vstd::std_specs::cmp::PartialEqSpecImpl for ArkG2 {
    open spec fn obeys_eq_spec() -> bool {
        true
    }

    open spec fn eq_spec(&self, other: &Self) -> bool {
        self@ == other@
    }
}

/// An element of the target group, written additively.
#[derive(Clone, Copy, Debug)]
pub struct ArkGt {
    bytes: [u8; 576],
}

impl View for ArkGt {
    type V = int;

    closed spec fn view(&self) -> int {
        ark_gt_log(self.bytes@) % order()
    }
}

impl PartialEq for ArkGt {
    fn eq(&self, other: &Self) -> (equal: bool) {
        ark_gt_eq(self, other)
    }
}

impl Eq for ArkGt {

}

impl vstd::std_specs::cmp::PartialEqSpecImpl for ArkGt {
    open spec fn obeys_eq_spec() -> bool {
        true
    }

    open spec fn eq_spec(&self, other: &Self) -> bool {
        self@ == other@
    }
}

/// `==` of `ark_bls12_381::Fr`: equal exactly where the residues are.
#[verifier::external_body]
fn ark_scalar_eq(left: &ArkScalar, right: &ArkScalar) -> (equal: bool)
    ensures
        equal == (left@ == right@),
{
    ark_bls12_381::Fr::from_le_bytes_mod_order(&left.bytes)
        == ark_bls12_381::Fr::from_le_bytes_mod_order(&right.bytes)
}

/// `From<u64>` of `ark_bls12_381::Fr`: the integer as a residue.
#[verifier::external_body]
fn ark_scalar_from_u64(value: u64) -> (result: ArkScalar)
    ensures
        result@ == value as int % order(),
{
    let bytes = ark_bls12_381::Fr::from(value).into_bigint().to_bytes_le().try_into().unwrap();
    ArkScalar { bytes }
}

/// `+` of `ark_bls12_381::Fr`: the sum as a residue.
#[verifier::external_body]
fn ark_scalar_plus(left: &ArkScalar, right: &ArkScalar) -> (result: ArkScalar)
    ensures
        result@ == (left@ + right@) % order(),
{
    let a = ark_bls12_381::Fr::from_le_bytes_mod_order(&left.bytes);
    let b = ark_bls12_381::Fr::from_le_bytes_mod_order(&right.bytes);
    let bytes = (a + b).into_bigint().to_bytes_le().try_into().unwrap();
    ArkScalar { bytes }
}

/// `-` of `ark_bls12_381::Fr`: the difference as a residue.
#[verifier::external_body]
fn ark_scalar_minus(left: &ArkScalar, right: &ArkScalar) -> (result: ArkScalar)
    ensures
        result@ == (left@ - right@) % order(),
{
    let a = ark_bls12_381::Fr::from_le_bytes_mod_order(&left.bytes);
    let b = ark_bls12_381::Fr::from_le_bytes_mod_order(&right.bytes);
    let bytes = (a - b).into_bigint().to_bytes_le().try_into().unwrap();
    ArkScalar { bytes }
}

/// `*` of `ark_bls12_381::Fr`: the product as a residue.
#[verifier::external_body]
fn ark_scalar_times(left: &ArkScalar, right: &ArkScalar) -> (result: ArkScalar)
    ensures
        result@ == (left@ * right@) % order(),
{
    let a = ark_bls12_381::Fr::from_le_bytes_mod_order(&left.bytes);
    let b = ark_bls12_381::Fr::from_le_bytes_mod_order(&right.bytes);
    let bytes = (a * b).into_bigint().to_bytes_le().try_into().unwrap();
    ArkScalar { bytes }
}

/// `ark_ff::batch_inversion` of `ark_bls12_381::Fr`: every scalar that is not zero is
/// replaced by its inverse, and the zeros stay.
#[verifier::external_body]
fn ark_scalar_batch_inversion(scalars: &[ArkScalar]) -> (inverses: Vec<ArkScalar>)
    ensures
        inverses@.len() == scalars@.len(),
        forall|i: int|
            0 <= i < scalars@.len() ==> if scalars@[i]@ == 0 {
                (#[trigger] inverses@[i])@ == 0
            } else {
                (scalars@[i]@ * inverses@[i]@) % order() == 1
            },
{
    let mut values: Vec<_> = scalars
        .iter()
        .map(|s| ark_bls12_381::Fr::from_le_bytes_mod_order(&s.bytes))
        .collect();
    ark_ff::batch_inversion(&mut values);
    let encode = |v: ark_bls12_381::Fr| v.into_bigint().to_bytes_le().try_into().unwrap();
    values.into_iter().map(|v| ArkScalar { bytes: encode(v) }).collect()
}

/// `PrimeField::from_le_bytes_mod_order` of `ark_bls12_381::Fr`: the integer that the
/// bytes stand for, the least significant one first, as a residue.
#[verifier::external_body]
fn ark_scalar_from_bytes(bytes: &[u8]) -> (result: ArkScalar)
    ensures
        result@ == le_value(bytes@) % order(),
{
    let bytes = ark_bls12_381::Fr::from_le_bytes_mod_order(bytes)
        .into_bigint()
        .to_bytes_le()
        .try_into()
        .unwrap();
    ArkScalar { bytes }
}

/// `PrimeField::into_bigint` of `ark_bls12_381::Fr`: the residue in four limbs, the least
/// significant one first.
#[verifier::external_body]
fn ark_scalar_limbs(scalar: &ArkScalar) -> (limbs: [u64; 4])
    ensures
        limbs_value(limbs@) == scalar@,
{
    ark_bls12_381::Fr::from_le_bytes_mod_order(&scalar.bytes).into_bigint().0
}

/// `UniformRand::rand` of `ark_bls12_381::Fr` with the system's randomness. Nothing can
/// be promised of the result.
#[verifier::external_body]
pub(crate) fn ark_system_scalar() -> (result: ArkScalar) {
    let bytes = ark_bls12_381::Fr::rand(&mut rand_core::OsRng)
        .into_bigint()
        .to_bytes_le()
        .try_into()
        .unwrap();
    ArkScalar { bytes }
}

/// `RngCore::fill_bytes` of `rand_core::OsRng`. Nothing can be promised of the result.
#[verifier::external_body]
pub(crate) fn system_bytes() -> (result: [u8; 16]) {
    let mut bytes = [0u8; 16];
    rand_core::OsRng.fill_bytes(&mut bytes);
    bytes
}

/// `==` of `ark_bls12_381::G1Projective`: equal exactly where the logarithms are.
#[verifier::external_body]
fn ark_g1_eq(left: &ArkG1, right: &ArkG1) -> (equal: bool)
    ensures
        equal == (left@ == right@),
{
    let a = G1Affine::deserialize_uncompressed_unchecked(&left.bytes[..])
        .unwrap_or_default();
    let b = G1Affine::deserialize_uncompressed_unchecked(&right.bytes[..])
        .unwrap_or_default();
    a == b
}

/// `PrimeGroup::generator` of `ark_bls12_381::G1Projective`.
#[verifier::external_body]
fn ark_g1_generator() -> (result: ArkG1)
    ensures
        ark_g1_log(result.bytes@) % order() == 1,
{
    let mut bytes = [0u8; 96];
    G1Projective::generator().into_affine().serialize_uncompressed(&mut bytes[..]).unwrap();
    ArkG1 { bytes }
}

/// `Zero::zero` of `ark_bls12_381::G1Projective`: the identity.
#[verifier::external_body]
fn ark_g1_zero() -> (result: ArkG1)
    ensures
        result@ == 0,
{
    let mut bytes = [0u8; 96];
    G1Projective::zero().into_affine().serialize_uncompressed(&mut bytes[..]).unwrap();
    ArkG1 { bytes }
}

/// `+` of `ark_bls12_381::G1Projective`: the logarithms are added.
#[verifier::external_body]
fn ark_g1_plus(left: &ArkG1, right: &ArkG1) -> (result: ArkG1)
    ensures
        result@ == (left@ + right@) % order(),
{
    let a = G1Affine::deserialize_uncompressed_unchecked(&left.bytes[..])
        .unwrap_or_default();
    let b = G1Affine::deserialize_uncompressed_unchecked(&right.bytes[..])
        .unwrap_or_default();
    let mut bytes = [0u8; 96];
    (a + b).into_affine().serialize_uncompressed(&mut bytes[..]).unwrap();
    ArkG1 { bytes }
}

/// `*` of `ark_bls12_381::G1Projective` and a scalar: the logarithm is multiplied.
#[verifier::external_body]
fn ark_g1_times(element: &ArkG1, scalar: &ArkScalar) -> (result: ArkG1)
    ensures
        result@ == (element@ * scalar@) % order(),
{
    let a = G1Affine::deserialize_uncompressed_unchecked(&element.bytes[..])
        .unwrap_or_default();
    let b = ark_bls12_381::Fr::from_le_bytes_mod_order(&scalar.bytes);
    let mut bytes = [0u8; 96];
    (a * b).into_affine().serialize_uncompressed(&mut bytes[..]).unwrap();
    ArkG1 { bytes }
}

/// `==` of `ark_bls12_381::G2Projective`: equal exactly where the logarithms are.
#[verifier::external_body]
fn ark_g2_eq(left: &ArkG2, right: &ArkG2) -> (equal: bool)
    ensures
        equal == (left@ == right@),
{
    let a = G2Affine::deserialize_uncompressed_unchecked(&left.bytes[..])
        .unwrap_or_default();
    let b = G2Affine::deserialize_uncompressed_unchecked(&right.bytes[..])
        .unwrap_or_default();
    a == b
}

/// `PrimeGroup::generator` of `ark_bls12_381::G2Projective`.
#[verifier::external_body]
fn ark_g2_generator() -> (result: ArkG2)
    ensures
        ark_g2_log(result.bytes@) % order() == 1,
{
    let mut bytes = [0u8; 192];
    G2Projective::generator().into_affine().serialize_uncompressed(&mut bytes[..]).unwrap();
    ArkG2 { bytes }
}

/// `Zero::zero` of `ark_bls12_381::G2Projective`: the identity.
#[verifier::external_body]
fn ark_g2_zero() -> (result: ArkG2)
    ensures
        result@ == 0,
{
    let mut bytes = [0u8; 192];
    G2Projective::zero().into_affine().serialize_uncompressed(&mut bytes[..]).unwrap();
    ArkG2 { bytes }
}

/// `*` of `ark_bls12_381::G2Projective` and a scalar: the logarithm is multiplied.
#[verifier::external_body]
fn ark_g2_times(element: &ArkG2, scalar: &ArkScalar) -> (result: ArkG2)
    ensures
        result@ == (element@ * scalar@) % order(),
{
    let a = G2Affine::deserialize_uncompressed_unchecked(&element.bytes[..])
        .unwrap_or_default();
    let b = ark_bls12_381::Fr::from_le_bytes_mod_order(&scalar.bytes);
    let mut bytes = [0u8; 192];
    (a * b).into_affine().serialize_uncompressed(&mut bytes[..]).unwrap();
    ArkG2 { bytes }
}

/// `==` of `ark_ec::pairing::PairingOutput`: equal exactly where the logarithms are.
#[verifier::external_body]
fn ark_gt_eq(left: &ArkGt, right: &ArkGt) -> (equal: bool)
    ensures
        equal == (left@ == right@),
{
    let a = PairingOutput::<Bls12_381>::deserialize_uncompressed_unchecked(&left.bytes[..])
        .unwrap_or_default();
    let b = PairingOutput::<Bls12_381>::deserialize_uncompressed_unchecked(&right.bytes[..])
        .unwrap_or_default();
    a == b
}

/// `PrimeGroup::generator` of `ark_ec::pairing::PairingOutput`. It is the pairing of the
/// generators of the source groups.
#[verifier::external_body]
fn ark_gt_generator() -> (result: ArkGt)
    ensures
        ark_gt_log(result.bytes@) % order() == 1,
{
    let mut bytes = [0u8; 576];
    PairingOutput::<Bls12_381>::generator().serialize_uncompressed(&mut bytes[..]).unwrap();
    ArkGt { bytes }
}

/// `Zero::zero` of `ark_ec::pairing::PairingOutput`: the identity.
#[verifier::external_body]
fn ark_gt_zero() -> (result: ArkGt)
    ensures
        result@ == 0,
{
    let mut bytes = [0u8; 576];
    PairingOutput::<Bls12_381>::zero().serialize_uncompressed(&mut bytes[..]).unwrap();
    ArkGt { bytes }
}

/// `+` of `ark_ec::pairing::PairingOutput`: the logarithms are added.
#[verifier::external_body]
fn ark_gt_plus(left: &ArkGt, right: &ArkGt) -> (result: ArkGt)
    ensures
        result@ == (left@ + right@) % order(),
{
    let a = PairingOutput::<Bls12_381>::deserialize_uncompressed_unchecked(&left.bytes[..])
        .unwrap_or_default();
    let b = PairingOutput::<Bls12_381>::deserialize_uncompressed_unchecked(&right.bytes[..])
        .unwrap_or_default();
    let mut bytes = [0u8; 576];
    (a + b).serialize_uncompressed(&mut bytes[..]).unwrap();
    ArkGt { bytes }
}

/// `-` of `ark_ec::pairing::PairingOutput`: the logarithms are subtracted.
#[verifier::external_body]
fn ark_gt_minus(left: &ArkGt, right: &ArkGt) -> (result: ArkGt)
    ensures
        result@ == (left@ - right@) % order(),
{
    let a = PairingOutput::<Bls12_381>::deserialize_uncompressed_unchecked(&left.bytes[..])
        .unwrap_or_default();
    let b = PairingOutput::<Bls12_381>::deserialize_uncompressed_unchecked(&right.bytes[..])
        .unwrap_or_default();
    let mut bytes = [0u8; 576];
    (a - b).serialize_uncompressed(&mut bytes[..]).unwrap();
    ArkGt { bytes }
}

/// `*` of `ark_ec::pairing::PairingOutput` and a scalar: the logarithm is multiplied.
#[verifier::external_body]
fn ark_gt_times(element: &ArkGt, scalar: &ArkScalar) -> (result: ArkGt)
    ensures
        result@ == (element@ * scalar@) % order(),
{
    let a = PairingOutput::<Bls12_381>::deserialize_uncompressed_unchecked(&element.bytes[..])
        .unwrap_or_default();
    let b = ark_bls12_381::Fr::from_le_bytes_mod_order(&scalar.bytes);
    let mut bytes = [0u8; 576];
    (a * b).serialize_uncompressed(&mut bytes[..]).unwrap();
    ArkGt { bytes }
}

/// `ScalarMul::batch_mul` of `ark_bls12_381::G1Projective`, for the generator: it times each of
/// the scalars.
#[verifier::external_body]
fn ark_g1_batch_mul(scalars: &[ArkScalar]) -> (result: Vec<ArkG1>)
    ensures
        result@.len() == scalars@.len(),
        forall|i: int|
            0 <= i < scalars@.len() ==> (#[trigger] result@[i])@ == scalars@[i]@,
{
    let values: Vec<_> = scalars
        .iter()
        .map(|s| ark_bls12_381::Fr::from_le_bytes_mod_order(&s.bytes))
        .collect();
    let points = G1Projective::generator().batch_mul(&values);
    let encode = |p: G1Affine| {
        let mut bytes = [0u8; 96];
        p.serialize_uncompressed(&mut bytes[..]).unwrap();
        ArkG1 { bytes }
    };
    points.into_iter().map(encode).collect()
}

/// `ScalarMul::batch_mul` of `ark_bls12_381::G2Projective`, for the generator: it times each of
/// the scalars.
#[verifier::external_body]
fn ark_g2_batch_mul(scalars: &[ArkScalar]) -> (result: Vec<ArkG2>)
    ensures
        result@.len() == scalars@.len(),
        forall|i: int|
            0 <= i < scalars@.len() ==> (#[trigger] result@[i])@ == scalars@[i]@,
{
    let values: Vec<_> = scalars
        .iter()
        .map(|s| ark_bls12_381::Fr::from_le_bytes_mod_order(&s.bytes))
        .collect();
    let points = G2Projective::generator().batch_mul(&values);
    let encode = |p: G2Affine| {
        let mut bytes = [0u8; 192];
        p.serialize_uncompressed(&mut bytes[..]).unwrap();
        ArkG2 { bytes }
    };
    points.into_iter().map(encode).collect()
}

/// `VariableBaseMSM::msm` of `ark_bls12_381::G1Projective`: the sum of the points, each
/// times its scalar. The call is an error only where the lengths differ.
#[verifier::external_body]
fn ark_g1_msm(points: &[ArkG1], scalars: &[ArkScalar]) -> (result: ArkG1)
    requires
        points@.len() == scalars@.len(),
    ensures
        result@ == dot(views(points@), views(scalars@)) % order(),
{
    let bases: Vec<_> = points
        .iter()
        .map(|p| G1Affine::deserialize_uncompressed_unchecked(&p.bytes[..]).unwrap_or_default())
        .collect();
    let values: Vec<_> = scalars
        .iter()
        .map(|s| ark_bls12_381::Fr::from_le_bytes_mod_order(&s.bytes))
        .collect();
    let total = G1Projective::msm(&bases, &values).unwrap();
    let mut bytes = [0u8; 96];
    total.into_affine().serialize_uncompressed(&mut bytes[..]).unwrap();
    ArkG1 { bytes }
}

/// `Pairing::pairing` of `ark_bls12_381::Bls12_381`: the logarithms are multiplied.
#[verifier::external_body]
fn ark_pairing(left: &ArkG1, right: &ArkG2) -> (result: ArkGt)
    ensures
        ark_gt_log(result.bytes@) % order() == (ark_g1_log(left.bytes@) % order() * (ark_g2_log(
            right.bytes@,
        ) % order())) % order(),
{
    let a = G1Affine::deserialize_uncompressed_unchecked(&left.bytes[..])
        .unwrap_or_default();
    let b = G2Affine::deserialize_uncompressed_unchecked(&right.bytes[..])
        .unwrap_or_default();
    let mut bytes = [0u8; 576];
    Bls12_381::pairing(a, b).serialize_uncompressed(&mut bytes[..]).unwrap();
    ArkGt { bytes }
}

/// `Pairing::multi_pairing` of `ark_bls12_381::Bls12_381`: the sum of the pairings of the
/// points at the same places.
#[verifier::external_body]
fn ark_multi_pairing(left: &[ArkG1], right: &[ArkG2]) -> (result: ArkGt)
    requires
        left@.len() == right@.len(),
    ensures
        result@ == dot(views(left@), views(right@)) % order(),
{
    let a: Vec<_> = left
        .iter()
        .map(|p| G1Affine::deserialize_uncompressed_unchecked(&p.bytes[..]).unwrap_or_default())
        .collect();
    let b: Vec<_> = right
        .iter()
        .map(|p| G2Affine::deserialize_uncompressed_unchecked(&p.bytes[..]).unwrap_or_default())
        .collect();
    let mut bytes = [0u8; 576];
    Bls12_381::multi_pairing(a, b).serialize_uncompressed(&mut bytes[..]).unwrap();
    ArkGt { bytes }
}

/// `CanonicalSerialize::serialize_compressed` of `ark_bls12_381::G1Affine`, into a vector.
/// The bytes, 48 of them, depend on the point alone.
#[verifier::external_body]
fn ark_g1_serialize(point: &ArkG1) -> (bytes: Vec<u8>)
    ensures
        bytes@ == ark_g1_bytes(point@),
        bytes@.len() == 48,
{
    let a = G1Affine::deserialize_uncompressed_unchecked(&point.bytes[..])
        .unwrap_or_default();
    let mut bytes = Vec::new();
    a.serialize_compressed(&mut bytes).unwrap();
    bytes
}

/// `CanonicalSerialize::serialize_compressed` of `ark_ec::pairing::PairingOutput`, into a
/// vector. The bytes, 576 of them, depend on the element alone.
#[verifier::external_body]
fn ark_gt_serialize(element: &ArkGt) -> (bytes: Vec<u8>)
    ensures
        bytes@ == ark_gt_bytes(element@),
        bytes@.len() == 576,
{
    let a = PairingOutput::<Bls12_381>::deserialize_uncompressed_unchecked(&element.bytes[..])
        .unwrap_or_default();
    let mut bytes = Vec::new();
    a.serialize_compressed(&mut bytes).unwrap();
    bytes
}

/// A domain of roots of unity, for transforms of points and elements.
#[derive(Clone, Copy, Debug)]
pub struct ArkDomain {
    size: usize,
}

impl ArkDomain {
    /// How many points the domain has.
    pub closed spec fn spec_size(&self) -> int {
        self.size as int
    }
}

/// `EvaluationDomain::fft_in_place` of the `ark_poly::Radix2EvaluationDomain` of a size
/// that is a power of two up to `2^32`, on as many points of the first source
/// group: the polynomial with the given coefficients at all powers of the domain's root
/// of unity, which is `7` to the power `(order() - 1) / size`.
#[verifier::external_body]
fn ark_g1_fft(size: usize, values: &[ArkG1]) -> (result: Vec<ArkG1>)
    requires
        values@.len() == size,
        is_domain_size(size as int),
    ensures
        result@.len() == values@.len(),
        forall|k: int|
            0 <= k < values@.len() ==> (#[trigger] result@[k])@ == dft(
                views(values@),
                size_root(size as int),
                k,
            ) % order(),
{
    let domain = ark_poly::Radix2EvaluationDomain::<ark_bls12_381::Fr>::new(size).unwrap();
    let decode = |v: &ArkG1| G1Affine::deserialize_uncompressed_unchecked(&v.bytes[..]);
    let mut points: Vec<G1Projective> =
        values.iter().map(|v| decode(v).unwrap_or_default().into()).collect();
    domain.fft_in_place(&mut points);
    let encode = |p: G1Projective| {
        let mut bytes = [0u8; 96];
        p.into_affine().serialize_uncompressed(&mut bytes[..]).unwrap();
        ArkG1 { bytes }
    };
    points.into_iter().map(encode).collect()
}

/// `EvaluationDomain::fft_in_place` of the `ark_poly::Radix2EvaluationDomain` of a size
/// that is a power of two up to `2^32`, on as many points of the second source
/// group: the polynomial with the given coefficients at all powers of the domain's root
/// of unity, which is `7` to the power `(order() - 1) / size`.
#[verifier::external_body]
fn ark_g2_fft(size: usize, values: &[ArkG2]) -> (result: Vec<ArkG2>)
    requires
        values@.len() == size,
        is_domain_size(size as int),
    ensures
        result@.len() == values@.len(),
        forall|k: int|
            0 <= k < values@.len() ==> (#[trigger] result@[k])@ == dft(
                views(values@),
                size_root(size as int),
                k,
            ) % order(),
{
    let domain = ark_poly::Radix2EvaluationDomain::<ark_bls12_381::Fr>::new(size).unwrap();
    let decode = |v: &ArkG2| G2Affine::deserialize_uncompressed_unchecked(&v.bytes[..]);
    let mut points: Vec<G2Projective> =
        values.iter().map(|v| decode(v).unwrap_or_default().into()).collect();
    domain.fft_in_place(&mut points);
    let encode = |p: G2Projective| {
        let mut bytes = [0u8; 192];
        p.into_affine().serialize_uncompressed(&mut bytes[..]).unwrap();
        ArkG2 { bytes }
    };
    points.into_iter().map(encode).collect()
}

/// `EvaluationDomain::ifft_in_place` of the `ark_poly::Radix2EvaluationDomain` of a size
/// that is a power of two up to `2^32`, on as many elements of the target group: the
/// transform with the inverse of the domain's root of unity, divided by the size.
#[verifier::external_body]
fn ark_gt_ifft(size: usize, values: &[ArkGt]) -> (result: Vec<ArkGt>)
    requires
        values@.len() == size,
        is_domain_size(size as int),
    ensures
        result@.len() == values@.len(),
        forall|k: int|
            0 <= k < values@.len() ==> (#[trigger] result@[k])@ == (dft(
                views(values@),
                inv(size_root(size as int)),
                k,
            ) * inv(size as int)) % order(),
{
    let domain = ark_poly::Radix2EvaluationDomain::<ark_bls12_381::Fr>::new(size).unwrap();
    let mut elements: Vec<_> = values
        .iter()
        .map(|v| {
            PairingOutput::<Bls12_381>::deserialize_uncompressed_unchecked(&v.bytes[..])
                .unwrap_or_default()
        })
        .collect();
    domain.ifft_in_place(&mut elements);
    let encode = |p: PairingOutput<Bls12_381>| {
        let mut bytes = [0u8; 576];
        p.serialize_uncompressed(&mut bytes[..]).unwrap();
        ArkGt { bytes }
    };
    elements.into_iter().map(encode).collect()
}

impl ArkScalar {
    /// A view is a residue.
    pub proof fn lemma_range(&self)
        ensures
            0 <= self@ < order(),
    {
        lemma_reduce(le_value(self.bytes@));
    }

    pub fn from_u64(value: u64) -> (result: Self)
        ensures
            result@ == value as int % order(),
    {
        ark_scalar_from_u64(value)
    }

    pub fn zero() -> (result: Self)
        ensures
            result@ == 0,
    {
        proof {
            lemma_one();
        }
        ark_scalar_from_u64(0)
    }

    pub fn one() -> (result: Self)
        ensures
            result@ == 1,
    {
        proof {
            lemma_one();
        }
        ark_scalar_from_u64(1)
    }

    pub fn plus(self, other: Self) -> (result: Self)
        ensures
            result@ == (self@ + other@) % order(),
    {
        ark_scalar_plus(&self, &other)
    }

    pub fn minus(self, other: Self) -> (result: Self)
        ensures
            result@ == (self@ - other@) % order(),
    {
        ark_scalar_minus(&self, &other)
    }

    pub fn times(self, other: Self) -> (result: Self)
        ensures
            result@ == (self@ * other@) % order(),
    {
        ark_scalar_times(&self, &other)
    }

    /// The inverses of the scalars that are not zero, with the zeros left.
    pub fn batch_inversion(scalars: &Vec<Self>) -> (inverses: Vec<Self>)
        ensures
            inverses@.len() == scalars@.len(),
            forall|i: int|
                0 <= i < scalars@.len() ==> if scalars@[i]@ == 0 {
                    (#[trigger] inverses@[i])@ == 0
                } else {
                    (scalars@[i]@ * inverses@[i]@) % order() == 1
                },
    {
        ark_scalar_batch_inversion(scalars.as_slice())
    }

    /// The scalar that bytes stand for, the least significant one first.
    pub fn from_le_bytes_mod_order(bytes: &[u8]) -> (result: Self)
        ensures
            result@ == le_value(bytes@) % order(),
    {
        ark_scalar_from_bytes(bytes)
    }

    /// The scalar in four limbs, the least significant one first.
    pub fn into_bigint(self) -> (limbs: [u64; 4])
        ensures
            limbs_value(limbs@) == self@,
    {
        ark_scalar_limbs(&self)
    }
}

impl ArkG1 {
    /// A view is a residue.
    pub proof fn lemma_range(&self)
        ensures
            0 <= self@ < order(),
    {
        lemma_reduce(ark_g1_log(self.bytes@));
    }

    pub fn generator() -> (result: Self)
        ensures
            result@ == 1,
    {
        ark_g1_generator()
    }

    pub fn zero() -> (result: Self)
        ensures
            result@ == 0,
    {
        ark_g1_zero()
    }

    pub fn times(self, scalar: ArkScalar) -> (result: Self)
        ensures
            result@ == (self@ * scalar@) % order(),
    {
        ark_g1_times(&self, &scalar)
    }

    /// The generator times each of the scalars.
    pub fn batch_mul(scalars: &Vec<ArkScalar>) -> (result: Vec<Self>)
        ensures
            result@.len() == scalars@.len(),
            views(result@) == views(scalars@),
    {
        let result = ark_g1_batch_mul(scalars.as_slice());
        assert(views(result@) =~= views(scalars@));
        result
    }

    pub fn plus(self, other: Self) -> (result: Self)
        ensures
            result@ == (self@ + other@) % order(),
    {
        ark_g1_plus(&self, &other)
    }

    /// The sum of the points, each times its scalar.
    pub fn msm(points: &Vec<Self>, scalars: &Vec<ArkScalar>) -> (result: Self)
        requires
            points@.len() == scalars@.len(),
        ensures
            result@ == dot(views(points@), views(scalars@)) % order(),
    {
        ark_g1_msm(points.as_slice(), scalars.as_slice())
    }

    /// The compressed encoding.
    pub fn serialize_compressed(&self) -> (bytes: Vec<u8>)
        ensures
            bytes@ == ark_g1_bytes(self@),
            bytes@.len() == 48,
    {
        ark_g1_serialize(self)
    }
}

impl ArkG2 {
    /// A view is a residue.
    pub proof fn lemma_range(&self)
        ensures
            0 <= self@ < order(),
    {
        lemma_reduce(ark_g2_log(self.bytes@));
    }

    pub fn generator() -> (result: Self)
        ensures
            result@ == 1,
    {
        ark_g2_generator()
    }

    pub fn zero() -> (result: Self)
        ensures
            result@ == 0,
    {
        ark_g2_zero()
    }

    pub fn times(self, scalar: ArkScalar) -> (result: Self)
        ensures
            result@ == (self@ * scalar@) % order(),
    {
        ark_g2_times(&self, &scalar)
    }

    /// The generator times each of the scalars.
    pub fn batch_mul(scalars: &Vec<ArkScalar>) -> (result: Vec<Self>)
        ensures
            result@.len() == scalars@.len(),
            views(result@) == views(scalars@),
    {
        let result = ark_g2_batch_mul(scalars.as_slice());
        assert(views(result@) =~= views(scalars@));
        result
    }
}

impl ArkGt {
    /// A view is a residue.
    pub proof fn lemma_range(&self)
        ensures
            0 <= self@ < order(),
    {
        lemma_reduce(ark_gt_log(self.bytes@));
    }

    pub fn generator() -> (result: Self)
        ensures
            result@ == 1,
    {
        ark_gt_generator()
    }

    pub fn zero() -> (result: Self)
        ensures
            result@ == 0,
    {
        ark_gt_zero()
    }

    pub fn plus(self, other: Self) -> (result: Self)
        ensures
            result@ == (self@ + other@) % order(),
    {
        ark_gt_plus(&self, &other)
    }

    pub fn minus(self, other: Self) -> (result: Self)
        ensures
            result@ == (self@ - other@) % order(),
    {
        ark_gt_minus(&self, &other)
    }

    pub fn times(self, scalar: ArkScalar) -> (result: Self)
        ensures
            result@ == (self@ * scalar@) % order(),
    {
        ark_gt_times(&self, &scalar)
    }

    /// The compressed encoding.
    pub fn serialize_compressed(&self) -> (bytes: Vec<u8>)
        ensures
            bytes@ == ark_gt_bytes(self@),
            bytes@.len() == 576,
    {
        ark_gt_serialize(self)
    }
}

impl ArkDomain {
    /// The domain of a size.
    pub fn new(size: usize) -> (result: Self)
        requires
            is_domain_size(size as int),
        ensures
            result.spec_size() == size,
    {
        ArkDomain { size }
    }

    /// How many points the domain has.
    pub fn size(&self) -> (result: usize)
        ensures
            result == self.spec_size(),
    {
        self.size
    }

    /// Evaluates the polynomial with the given coefficients at all powers of the root.
    pub fn fft_g1(&self, values: &Vec<ArkG1>) -> (result: Vec<ArkG1>)
        requires
            values@.len() == self.spec_size(),
            is_domain_size(self.spec_size()),
        ensures
            result@.len() == values@.len(),
            forall|k: int|
                0 <= k < values@.len() ==> (#[trigger] result@[k])@ == dft(
                    views(values@),
                    size_root(self.spec_size()),
                    k,
                ) % order(),
    {
        ark_g1_fft(self.size, values.as_slice())
    }

    /// Evaluates the polynomial with the given coefficients at all powers of the root.
    pub fn fft_g2(&self, values: &Vec<ArkG2>) -> (result: Vec<ArkG2>)
        requires
            values@.len() == self.spec_size(),
            is_domain_size(self.spec_size()),
        ensures
            result@.len() == values@.len(),
            forall|k: int|
                0 <= k < values@.len() ==> (#[trigger] result@[k])@ == dft(
                    views(values@),
                    size_root(self.spec_size()),
                    k,
                ) % order(),
    {
        ark_g2_fft(self.size, values.as_slice())
    }

    /// The inverse transform.
    pub fn ifft_gt(&self, values: &Vec<ArkGt>) -> (result: Vec<ArkGt>)
        requires
            values@.len() == self.spec_size(),
            is_domain_size(self.spec_size()),
        ensures
            result@.len() == values@.len(),
            forall|k: int|
                0 <= k < values@.len() ==> (#[trigger] result@[k])@ == (dft(
                    views(values@),
                    inv(size_root(self.spec_size())),
                    k,
                ) * inv(self.spec_size())) % order(),
    {
        ark_gt_ifft(self.size, values.as_slice())
    }
}

/// The pairing of two points.
pub fn ark_pair(left: ArkG1, right: ArkG2) -> (result: ArkGt)
    ensures
        result@ == (left@ * right@) % order(),
{
    ark_pairing(&left, &right)
}

/// The sum of the pairings of the points at the same places.
pub fn ark_pair_all(left: &Vec<ArkG1>, right: &Vec<ArkG2>) -> (result: ArkGt)
    requires
        left@.len() == right@.len(),
    ensures
        result@ == dot(views(left@), views(right@)) % order(),
{
    ark_multi_pairing(left.as_slice(), right.as_slice())
}

/// What adding up needs of an element.
pub trait Summand: Copy + View<V = int> {
    /// A view is a residue.
    proof fn lemma_summand(&self)
        ensures
            0 <= self@ < order(),
    ;

    fn neutral() -> (result: Self)
        ensures
            result@ == 0,
    ;

    fn joined(self, other: Self) -> (result: Self)
        ensures
            result@ == (self@ + other@) % order(),
    ;
}

impl Summand for ArkG1 {
    proof fn lemma_summand(&self) {
        self.lemma_range();
    }

    fn neutral() -> (result: Self) {
        ArkG1::zero()
    }

    fn joined(self, other: Self) -> (result: Self) {
        self.plus(other)
    }
}

impl Summand for ArkGt {
    proof fn lemma_summand(&self) {
        self.lemma_range();
    }

    fn neutral() -> (result: Self) {
        ArkGt::zero()
    }

    fn joined(self, other: Self) -> (result: Self) {
        self.plus(other)
    }
}

/// What yields scalars and keys, one after another. Nothing is known of them.
pub trait KeyGenerator {
    fn next_ark_scalar(&mut self) -> ArkScalar;

    fn next_key(&mut self) -> [u8; 16];
}

/// A source of random scalars and keys, with a record of them: each draw may be any.
pub trait RandomSource {
    /// The scalars drawn so far, the latest one last.
    spec fn drawn_scalars(&self) -> Seq<int>;

    /// The keys drawn so far, the latest one last.
    spec fn drawn_keys(&self) -> Seq<Seq<u8>>;

    fn random_ark_scalar(&mut self) -> (scalar: ArkScalar)
        ensures
            final(self).drawn_scalars() == old(self).drawn_scalars().push(scalar@),
            final(self).drawn_keys() == old(self).drawn_keys(),
    ;

    fn random_key(&mut self) -> (key: [u8; 16])
        ensures
            final(self).drawn_keys() == old(self).drawn_keys().push(key@),
            final(self).drawn_scalars() == old(self).drawn_scalars(),
    ;
}

impl<G: KeyGenerator> RandomSource for Recorded<G> {
    open spec fn drawn_scalars(&self) -> Seq<int> {
        self.scalar_record()
    }

    open spec fn drawn_keys(&self) -> Seq<Seq<u8>> {
        self.key_record()
    }

    fn random_ark_scalar(&mut self) -> (scalar: ArkScalar) {
        let scalar = self.generator.next_ark_scalar();
        self.record_scalar(Ghost(scalar@));
        scalar
    }

    fn random_key(&mut self) -> (key: [u8; 16]) {
        let key = self.generator.next_key();
        self.record_key(Ghost(key@));
        key
    }
}

/// `count` scalars drawn from `rng`.
pub fn draw_ark_scalars<R: RandomSource>(rng: &mut R, count: usize) -> (scalars: Vec<ArkScalar>)
    ensures
        scalars@.len() == count,
        final(rng).drawn_scalars() == old(rng).drawn_scalars() + views(scalars@),
        final(rng).drawn_keys() == old(rng).drawn_keys(),
{
    let ghost start = rng.drawn_scalars();
    let ghost keys = rng.drawn_keys();
    let mut scalars: Vec<ArkScalar> = Vec::new();
    assert(rng.drawn_scalars() =~= start + views(scalars@));
    while scalars.len() < count
        invariant
            scalars@.len() <= count,
            rng.drawn_scalars() == start + views(scalars@),
            rng.drawn_keys() == keys,
        decreases count - scalars@.len(),
    {
        scalars.push(rng.random_ark_scalar());
        assert(rng.drawn_scalars() =~= start + views(scalars@));
    }
    scalars
}

} // verus!
