//! BLS12-381 scalars, points and target-group elements.
//!
//! Each type holds a value of `blstrs` in a private field and is read, in
//! contracts, as a residue modulo [`order`]: a scalar as itself, a group element
//! as its discrete logarithm to the base of the group's fixed generator. The
//! generator of the target group is the pairing of the two other generators, so
//! the pairing of `x` and `y` is `x * y`. Every element comes from a generator
//! or an identity by group operations, so it lies in the subgroup of prime order,
//! where the logarithm is defined and tells elements apart.
use blstrs::Compress;
use ff::{BatchInvert, Field, PrimeField};
use group::{Curve, Group};
use pairing::{MillerLoopResult, MultiMillerLoop};
use vstd::prelude::*;

use crate::algebra::residue::{lemma_one, lemma_reduce, order};
use crate::algebra::sums::dot;
use crate::bytes::{le_bytes, le_value, lemma_le_bytes};
use crate::naf::mul_gt;
use crate::simple_bte::ark::{ark_system_scalar, system_bytes, ArkScalar, RandomSource};

verus! {

/// `blstrs::Scalar`, carried as an opaque value.
#[verifier::external_type_specification]
#[verifier::external_body]
pub struct ExScalar(blstrs::Scalar);

/// `blstrs::G1Affine`, carried as an opaque value.
#[verifier::external_type_specification]
#[verifier::external_body]
pub struct ExG1Affine(blstrs::G1Affine);

/// `blstrs::G1Projective`, carried as an opaque value.
#[verifier::external_type_specification]
#[verifier::external_body]
pub struct ExG1Projective(blstrs::G1Projective);

/// `blstrs::G2Affine`, carried as an opaque value.
#[verifier::external_type_specification]
#[verifier::external_body]
pub struct ExG2Affine(blstrs::G2Affine);

/// `blstrs::G2Projective`, carried as an opaque value.
#[verifier::external_type_specification]
#[verifier::external_body]
pub struct ExG2Projective(blstrs::G2Projective);

/// `blstrs::Gt`, carried as an opaque value.
#[verifier::external_type_specification]
#[verifier::external_body]
pub struct ExGt(blstrs::Gt);

/// The residue that a scalar stands for.
pub uninterp spec fn scalar_value(value: blstrs::Scalar) -> int;

/// The discrete logarithm of an element to the base of its group's generator.
pub uninterp spec fn g1_affine_log(value: blstrs::G1Affine) -> int;

/// The discrete logarithm of an element to the base of its group's generator.
pub uninterp spec fn g1_log(value: blstrs::G1Projective) -> int;

/// The discrete logarithm of an element to the base of its group's generator.
pub uninterp spec fn g2_affine_log(value: blstrs::G2Affine) -> int;

/// The discrete logarithm of an element to the base of its group's generator.
pub uninterp spec fn g2_log(value: blstrs::G2Projective) -> int;

/// The discrete logarithm of an element to the base of its group's generator.
pub uninterp spec fn gt_log(value: blstrs::Gt) -> int;

/// A scalar of the field of prime order.
#[derive(Clone, Copy, Debug)]
pub struct Fr {
    inner: blstrs::Scalar,
}

impl View for Fr {
    type V = int;

    closed spec fn view(&self) -> int {
        scalar_value(self.inner) % order()
    }
}

impl PartialEq for Fr {
    fn eq(&self, other: &Self) -> (equal: bool) {
        scalar_value_eq(*self, *other)
    }
}

impl Eq for Fr {

}

impl vstd::std_specs::cmp::PartialEqSpecImpl for Fr {
    open spec fn obeys_eq_spec() -> bool {
        true
    }

    open spec fn eq_spec(&self, other: &Self) -> bool {
        self@ == other@
    }
}

/// `==` of `blstrs::Scalar`: equal exactly where the residues are.
#[verifier::external_body]
fn scalar_value_eq(left: Fr, right: Fr) -> (equal: bool)
    ensures
        equal == (scalar_value(left.inner) % order() == scalar_value(right.inner) % order()),
{
    left.inner == right.inner
}

/// A point of the first source group, normalized.
#[derive(Clone, Copy, Debug)]
pub struct G1Point {
    inner: blstrs::G1Affine,
}

impl View for G1Point {
    type V = int;

    closed spec fn view(&self) -> int {
        g1_affine_log(self.inner) % order()
    }
}

impl PartialEq for G1Point {
    fn eq(&self, other: &Self) -> (equal: bool) {
        g1_affine_log_eq(*self, *other)
    }
}

impl Eq for G1Point {

}

impl vstd::std_specs::cmp::PartialEqSpecImpl for G1Point {
    open spec fn obeys_eq_spec() -> bool {
        true
    }

    open spec fn eq_spec(&self, other: &Self) -> bool {
        self@ == other@
    }
}

/// `==` of `blstrs::G1Affine`: equal exactly where the logarithms are.
#[verifier::external_body]
fn g1_affine_log_eq(left: G1Point, right: G1Point) -> (equal: bool)
    ensures
        equal == (g1_affine_log(left.inner) % order() == g1_affine_log(right.inner) % order()),
{
    left.inner == right.inner
}

/// A point of the first source group.
#[derive(Clone, Copy, Debug)]
pub struct G1 {
    inner: blstrs::G1Projective,
}

impl View for G1 {
    type V = int;

    closed spec fn view(&self) -> int {
        g1_log(self.inner) % order()
    }
}

impl PartialEq for G1 {
    fn eq(&self, other: &Self) -> (equal: bool) {
        g1_log_eq(*self, *other)
    }
}

impl Eq for G1 {

}

impl vstd::std_specs::cmp::PartialEqSpecImpl for G1 {
    open spec fn obeys_eq_spec() -> bool {
        true
    }

    open spec fn eq_spec(&self, other: &Self) -> bool {
        self@ == other@
    }
}

/// `==` of `blstrs::G1Projective`: equal exactly where the logarithms are.
#[verifier::external_body]
fn g1_log_eq(left: G1, right: G1) -> (equal: bool)
    ensures
        equal == (g1_log(left.inner) % order() == g1_log(right.inner) % order()),
{
    left.inner == right.inner
}

/// A point of the second source group, normalized.
#[derive(Clone, Copy, Debug)]
pub struct G2Point {
    inner: blstrs::G2Affine,
}

impl View for G2Point {
    type V = int;

    closed spec fn view(&self) -> int {
        g2_affine_log(self.inner) % order()
    }
}

impl PartialEq for G2Point {
    fn eq(&self, other: &Self) -> (equal: bool) {
        g2_affine_log_eq(*self, *other)
    }
}

impl Eq for G2Point {

}

impl vstd::std_specs::cmp::PartialEqSpecImpl for G2Point {
    open spec fn obeys_eq_spec() -> bool {
        true
    }

    open spec fn eq_spec(&self, other: &Self) -> bool {
        self@ == other@
    }
}

/// `==` of `blstrs::G2Affine`: equal exactly where the logarithms are.
#[verifier::external_body]
fn g2_affine_log_eq(left: G2Point, right: G2Point) -> (equal: bool)
    ensures
        equal == (g2_affine_log(left.inner) % order() == g2_affine_log(right.inner) % order()),
{
    left.inner == right.inner
}

/// A point of the second source group.
#[derive(Clone, Copy, Debug)]
pub struct G2 {
    inner: blstrs::G2Projective,
}

impl View for G2 {
    type V = int;

    closed spec fn view(&self) -> int {
        g2_log(self.inner) % order()
    }
}

impl PartialEq for G2 {
    fn eq(&self, other: &Self) -> (equal: bool) {
        g2_log_eq(*self, *other)
    }
}

impl Eq for G2 {

}

impl vstd::std_specs::cmp::PartialEqSpecImpl for G2 {
    open spec fn obeys_eq_spec() -> bool {
        true
    }

    open spec fn eq_spec(&self, other: &Self) -> bool {
        self@ == other@
    }
}

/// `==` of `blstrs::G2Projective`: equal exactly where the logarithms are.
#[verifier::external_body]
fn g2_log_eq(left: G2, right: G2) -> (equal: bool)
    ensures
        equal == (g2_log(left.inner) % order() == g2_log(right.inner) % order()),
{
    left.inner == right.inner
}

/// An element of the target group, written additively.
#[derive(Clone, Copy, Debug)]
pub struct GtElement {
    inner: blstrs::Gt,
}

impl View for GtElement {
    type V = int;

    closed spec fn view(&self) -> int {
        gt_log(self.inner) % order()
    }
}

impl PartialEq for GtElement {
    fn eq(&self, other: &Self) -> (equal: bool) {
        gt_log_eq(*self, *other)
    }
}

impl Eq for GtElement {

}

impl vstd::std_specs::cmp::PartialEqSpecImpl for GtElement {
    open spec fn obeys_eq_spec() -> bool {
        true
    }

    open spec fn eq_spec(&self, other: &Self) -> bool {
        self@ == other@
    }
}

/// `==` of `blstrs::Gt`: equal exactly where the logarithms are.
#[verifier::external_body]
fn gt_log_eq(left: GtElement, right: GtElement) -> (equal: bool)
    ensures
        equal == (gt_log(left.inner) % order() == gt_log(right.inner) % order()),
{
    left.inner == right.inner
}

/// The residues of a sequence of scalars or elements.
pub open spec fn views<T: View<V = int>>(items: Seq<T>) -> Seq<int> {
    Seq::new(items.len(), |i: int| items[i]@)
}

/// What the scalars and the elements of the three groups have in common: they
/// can be added, subtracted and multiplied by a scalar.
pub trait Element: Copy + View<V = int> {
    proof fn lemma_range(&self)
        ensures
            0 <= self@ < order(),
    ;

    /// The neutral element of addition.
    fn zero() -> (result: Self)
        ensures
            result@ == 0,
    ;

    fn plus(self, other: Self) -> (result: Self)
        ensures
            result@ == (self@ + other@) % order(),
    ;

    fn minus(self, other: Self) -> (result: Self)
        ensures
            result@ == (self@ - other@) % order(),
    ;

    fn times(self, scalar: Fr) -> (result: Self)
        ensures
            result@ == (self@ * scalar@) % order(),
    ;

    /// The product with a scalar, computed in the way that suits a transform.
    fn twiddled(self, scalar: Fr) -> (result: Self)
        ensures
            result@ == (self@ * scalar@) % order(),
    ;
}

/// `+` of `blstrs::Scalar`.
#[verifier::external_body]
fn scalar_plus(left: Fr, right: Fr) -> (result: Fr)
    ensures
        result@ == (left@ + right@) % order(),
{
    Fr { inner: left.inner + right.inner }
}

/// `-` of `blstrs::Scalar`.
#[verifier::external_body]
fn scalar_minus(left: Fr, right: Fr) -> (result: Fr)
    ensures
        result@ == (left@ - right@) % order(),
{
    Fr { inner: left.inner - right.inner }
}

/// `*` of two `blstrs::Scalar`, elements of a field: a product is zero only where a factor is.
#[verifier::external_body]
fn scalar_times(left: Fr, right: Fr) -> (result: Fr)
    ensures
        result@ == (left@ * right@) % order(),
        result@ == 0 ==> left@ == 0 || right@ == 0,
{
    Fr { inner: left.inner * right.inner }
}

/// `Field::ZERO` of `blstrs::Scalar`.
#[verifier::external_body]
fn scalar_zero() -> (result: Fr)
    ensures
        result@ == 0,
{
    Fr { inner: blstrs::Scalar::ZERO }
}

impl Element for Fr {
    proof fn lemma_range(&self) {
        lemma_reduce(scalar_value(self.inner));
    }

    fn zero() -> (result: Self) {
        scalar_zero()
    }

    fn plus(self, other: Self) -> (result: Self) {
        scalar_plus(self, other)
    }

    fn minus(self, other: Self) -> (result: Self) {
        scalar_minus(self, other)
    }

    fn times(self, scalar: Fr) -> (result: Self) {
        scalar_times(self, scalar)
    }

    fn twiddled(self, scalar: Fr) -> (result: Self) {
        scalar_times(self, scalar)
    }
}

/// `+` of `blstrs::G1Projective`.
#[verifier::external_body]
fn g1_plus(left: G1, right: G1) -> (result: G1)
    ensures
        result@ == (left@ + right@) % order(),
{
    G1 { inner: left.inner + right.inner }
}

/// `-` of `blstrs::G1Projective`.
#[verifier::external_body]
fn g1_minus(left: G1, right: G1) -> (result: G1)
    ensures
        result@ == (left@ - right@) % order(),
{
    G1 { inner: left.inner - right.inner }
}

/// `*` of `blstrs::G1Projective` and `blstrs::Scalar`.
#[verifier::external_body]
fn g1_times(left: G1, right: Fr) -> (result: G1)
    ensures
        result@ == (left@ * right@) % order(),
{
    G1 { inner: left.inner * right.inner }
}

/// `Group::identity` of `blstrs::G1Projective`.
#[verifier::external_body]
fn g1_zero() -> (result: G1)
    ensures
        result@ == 0,
{
    G1 { inner: blstrs::G1Projective::identity() }
}

impl Element for G1 {
    proof fn lemma_range(&self) {
        lemma_reduce(g1_log(self.inner));
    }

    fn zero() -> (result: Self) {
        g1_zero()
    }

    fn plus(self, other: Self) -> (result: Self) {
        g1_plus(self, other)
    }

    fn minus(self, other: Self) -> (result: Self) {
        g1_minus(self, other)
    }

    fn times(self, scalar: Fr) -> (result: Self) {
        g1_times(self, scalar)
    }

    fn twiddled(self, scalar: Fr) -> (result: Self) {
        g1_times(self, scalar)
    }
}

/// `+` of `blstrs::G2Projective`.
#[verifier::external_body]
fn g2_plus(left: G2, right: G2) -> (result: G2)
    ensures
        result@ == (left@ + right@) % order(),
{
    G2 { inner: left.inner + right.inner }
}

/// `-` of `blstrs::G2Projective`.
#[verifier::external_body]
fn g2_minus(left: G2, right: G2) -> (result: G2)
    ensures
        result@ == (left@ - right@) % order(),
{
    G2 { inner: left.inner - right.inner }
}

/// `*` of `blstrs::G2Projective` and `blstrs::Scalar`.
#[verifier::external_body]
fn g2_times(left: G2, right: Fr) -> (result: G2)
    ensures
        result@ == (left@ * right@) % order(),
{
    G2 { inner: left.inner * right.inner }
}

/// `Group::identity` of `blstrs::G2Projective`.
#[verifier::external_body]
fn g2_zero() -> (result: G2)
    ensures
        result@ == 0,
{
    G2 { inner: blstrs::G2Projective::identity() }
}

impl Element for G2 {
    proof fn lemma_range(&self) {
        lemma_reduce(g2_log(self.inner));
    }

    fn zero() -> (result: Self) {
        g2_zero()
    }

    fn plus(self, other: Self) -> (result: Self) {
        g2_plus(self, other)
    }

    fn minus(self, other: Self) -> (result: Self) {
        g2_minus(self, other)
    }

    fn times(self, scalar: Fr) -> (result: Self) {
        g2_times(self, scalar)
    }

    fn twiddled(self, scalar: Fr) -> (result: Self) {
        g2_times(self, scalar)
    }
}

/// `+` of `blstrs::Gt`.
#[verifier::external_body]
fn gt_plus(left: GtElement, right: GtElement) -> (result: GtElement)
    ensures
        result@ == (left@ + right@) % order(),
{
    GtElement { inner: left.inner + right.inner }
}

/// `-` of `blstrs::Gt`.
#[verifier::external_body]
fn gt_minus(left: GtElement, right: GtElement) -> (result: GtElement)
    ensures
        result@ == (left@ - right@) % order(),
{
    GtElement { inner: left.inner - right.inner }
}

/// `*` of `blstrs::Gt` and `blstrs::Scalar`.
#[verifier::external_body]
fn gt_times(left: GtElement, right: Fr) -> (result: GtElement)
    ensures
        result@ == (left@ * right@) % order(),
{
    GtElement { inner: left.inner * right.inner }
}

/// `Group::identity` of `blstrs::Gt`.
#[verifier::external_body]
fn gt_zero() -> (result: GtElement)
    ensures
        result@ == 0,
{
    GtElement { inner: blstrs::Gt::identity() }
}

impl Element for GtElement {
    proof fn lemma_range(&self) {
        lemma_reduce(gt_log(self.inner));
    }

    fn zero() -> (result: Self) {
        gt_zero()
    }

    fn plus(self, other: Self) -> (result: Self) {
        gt_plus(self, other)
    }

    fn minus(self, other: Self) -> (result: Self) {
        gt_minus(self, other)
    }

    fn times(self, scalar: Fr) -> (result: Self) {
        gt_times(self, scalar)
    }

    fn twiddled(self, scalar: Fr) -> (result: Self) {
        mul_gt(self, scalar)
    }
}

/// `Field::ONE` of `blstrs::Scalar`.
#[verifier::external_body]
fn scalar_one() -> (result: Fr)
    ensures
        result@ == 1,
{
    Fr { inner: blstrs::Scalar::ONE }
}

/// `From<u64>` of `blstrs::Scalar`: the residue of the integer.
#[verifier::external_body]
fn scalar_from_u64(value: u64) -> (result: Fr)
    ensures
        result@ == value as int % order(),
{
    Fr { inner: blstrs::Scalar::from(value) }
}

/// `Field::invert` of `blstrs::Scalar`: a zero has no inverse, everything else has.
#[verifier::external_body]
fn scalar_invert(scalar: Fr) -> (result: Option<Fr>)
    ensures
        result is None <==> scalar@ == 0,
        result matches Some(inverse) ==> (scalar@ * inverse@) % order() == 1,
{
    Option::<blstrs::Scalar>::from(scalar.inner.invert()).map(|inner| Fr { inner })
}

/// `ff::BatchInvert::batch_invert` on `blstrs::Scalar`: the inverse of every scalar
/// that is not zero; the zeros stay.
#[verifier::external_body]
fn scalar_batch_invert(scalars: &[Fr]) -> (result: Vec<Fr>)
    ensures
        result@.len() == scalars@.len(),
        forall|i: int|
            0 <= i < scalars@.len() ==> if scalars@[i]@ == 0 {
                (#[trigger] result@[i])@ == 0
            } else {
                (scalars@[i]@ * result@[i]@) % order() == 1
            },
{
    let mut inner: Vec<blstrs::Scalar> = scalars.iter().map(|scalar| scalar.inner).collect();
    inner.iter_mut().batch_invert();
    inner.into_iter().map(|inner| Fr { inner }).collect()
}

/// `blstrs::Scalar::to_bytes_le`: the residue in `0..order()`, in base 256, the
/// least significant digit first.
#[verifier::external_body]
fn scalar_to_bytes_le(scalar: Fr) -> (result: [u8; 32])
    ensures
        le_value(result@) == scalar@,
{
    scalar.inner.to_bytes_le()
}

/// `blstrs::Scalar::from_bytes_le`: refuses what is not below the order.
#[verifier::external_body]
fn scalar_from_bytes_le(bytes: &[u8; 32]) -> (result: Option<Fr>)
    ensures
        result is Some <==> le_value(bytes@) < order(),
        result matches Some(scalar) ==> scalar@ == le_value(bytes@),
{
    Option::<blstrs::Scalar>::from(blstrs::Scalar::from_bytes_le(bytes)).map(|inner| Fr { inner })
}

/// The value of `PrimeField::ROOT_OF_UNITY` for `blstrs::Scalar`.
pub open spec fn root_of_unity() -> int {
    0x16a2a19edfe81f20d09b681922c813b4int * 0x10000000000000000 * 0x10000000000000000
        + 0xb63683508c2280b93829971f439f0d2b
}

/// `PrimeField::ROOT_OF_UNITY` of `blstrs::Scalar`.
#[verifier::external_body]
fn scalar_root_of_unity() -> (result: Fr)
    ensures
        result@ == root_of_unity(),
{
    Fr { inner: blstrs::Scalar::ROOT_OF_UNITY }
}

impl Fr {
    pub fn one() -> (result: Self)
        ensures
            result@ == 1,
    {
        scalar_one()
    }

    pub fn from_u64(value: u64) -> (result: Self)
        ensures
            result@ == value as int % order(),
    {
        scalar_from_u64(value)
    }

    /// The multiplicative inverse, where there is one.
    pub fn invert(self) -> (result: Option<Self>)
        ensures
            result is None <==> self@ == 0,
            result matches Some(inverse) ==> (self@ * inverse@) % order() == 1,
    {
        scalar_invert(self)
    }

    /// The product of two scalars, which is zero only where one of them is.
    pub fn product(self, other: Self) -> (result: Self)
        ensures
            result@ == (self@ * other@) % order(),
            result@ == 0 ==> self@ == 0 || other@ == 0,
    {
        scalar_times(self, other)
    }

    /// Inverts every scalar that is not zero, and leaves the zeros.
    pub fn batch_invert(scalars: &mut Vec<Self>)
        ensures
            final(scalars)@.len() == old(scalars)@.len(),
            forall|i: int|
                0 <= i < old(scalars)@.len() ==> if old(scalars)@[i]@ == 0 {
                    (#[trigger] final(scalars)@[i])@ == 0
                } else {
                    (old(scalars)@[i]@ * final(scalars)@[i]@) % order() == 1
                },
    {
        let inverted = scalar_batch_invert(scalars.as_slice());
        *scalars = inverted;
    }

    pub fn is_zero(self) -> (result: bool)
        ensures
            result == (self@ == 0),
    {
        self == Self::zero()
    }

    /// The canonical encoding: 32 bytes, the least significant one first.
    pub fn to_bytes_le(self) -> (result: [u8; 32])
        ensures
            le_value(result@) == self@,
            result@ == le_bytes(self@, 32),
    {
        let result = scalar_to_bytes_le(self);
        proof {
            lemma_le_bytes(result@);
        }
        result
    }

    /// Decodes 32 bytes, the least significant one first; refuses what is not canonical.
    pub fn from_bytes_le(bytes: &[u8; 32]) -> (result: Option<Self>)
        ensures
            result is Some <==> le_value(bytes@) < order(),
            result matches Some(scalar) ==> scalar@ == le_value(bytes@),
    {
        scalar_from_bytes_le(bytes)
    }

    /// A root of unity of order `2^32`.
    pub fn root_of_unity() -> (result: Self)
        ensures
            result@ == root_of_unity(),
    {
        scalar_root_of_unity()
    }
}

/// `Group::generator` of `blstrs::G1Projective`.
#[verifier::external_body]
fn g1_generator() -> (result: G1)
    ensures
        result@ == 1,
{
    G1 { inner: blstrs::G1Projective::generator() }
}

/// `From<blstrs::G1Affine>` of `blstrs::G1Projective`: the same point.
#[verifier::external_body]
fn g1_from_affine(point: G1Point) -> (result: G1)
    ensures
        result@ == point@,
{
    G1 { inner: blstrs::G1Projective::from(point.inner) }
}

/// `Curve::to_affine` of `blstrs::G1Projective`: the same point.
#[verifier::external_body]
fn g1_to_affine(point: G1) -> (result: G1Point)
    ensures
        result@ == point@,
{
    G1Point { inner: point.inner.to_affine() }
}

/// `blstrs::G1Projective::multi_exp`: the sum of the points, each times its scalar. It
/// panics on no points, and on fewer scalars than points.
#[verifier::external_body]
fn g1_multi_exp(points: &[G1], scalars: &[Fr]) -> (result: G1)
    requires
        0 < points@.len() == scalars@.len(),
    ensures
        result@ == dot(views(points@), views(scalars@)) % order(),
{
    let points: Vec<blstrs::G1Projective> = points.iter().map(|point| point.inner).collect();
    let scalars: Vec<blstrs::Scalar> = scalars.iter().map(|scalar| scalar.inner).collect();
    G1 { inner: blstrs::G1Projective::multi_exp(&points, &scalars) }
}

/// The compressed encoding of the point with the given logarithm.
pub uninterp spec fn g1_compressed(log: int) -> Seq<u8>;

/// `blstrs::G1Affine::to_compressed`: 48 bytes that the point determines.
#[verifier::external_body]
fn g1_to_compressed(point: G1Point) -> (result: [u8; 48])
    ensures
        result@ == g1_compressed(point@),
{
    point.inner.to_compressed()
}

/// `blstrs::G1Affine::from_compressed`: the point of the prime-order group that the bytes are
/// the compressed encoding of, and nothing where they are that of none. An encoding is
/// that of one point only.
#[verifier::external_body]
fn g1_from_compressed(bytes: &[u8; 48]) -> (result: Option<G1Point>)
    ensures
        match result {
            Some(point) => forall|log: int|
                0 <= log < order() ==> (#[trigger] g1_compressed(log) == bytes@ <==> log
                    == point@),
            None => forall|log: int| 0 <= log < order() ==> #[trigger] g1_compressed(log) != bytes@,
        },
{
    Option::from(blstrs::G1Affine::from_compressed(bytes)).map(|inner| G1Point { inner })
}

impl G1 {
    pub fn generator() -> (result: Self)
        ensures
            result@ == 1,
    {
        g1_generator()
    }

    pub fn from_affine(point: G1Point) -> (result: Self)
        ensures
            result@ == point@,
    {
        g1_from_affine(point)
    }

    pub fn to_affine(self) -> (result: G1Point)
        ensures
            result@ == self@,
    {
        g1_to_affine(self)
    }

    /// The sum of the points, each times the scalar at its place.
    pub fn multi_exp(points: &[Self], scalars: &[Fr]) -> (result: Self)
        requires
            points@.len() == scalars@.len(),
        ensures
            result@ == dot(views(points@), views(scalars@)) % order(),
    {
        if points.len() == 0 {
            proof {
                lemma_one();
            }
            return Self::zero();
        }
        g1_multi_exp(points, scalars)
    }
}

impl G1Point {
    pub proof fn lemma_range(&self)
        ensures
            0 <= self@ < order(),
    {
        lemma_reduce(g1_affine_log(self.inner));
    }

    pub fn identity() -> (result: Self)
        ensures
            result@ == 0,
    {
        G1::zero().to_affine()
    }

    pub fn generator() -> (result: Self)
        ensures
            result@ == 1,
    {
        G1::generator().to_affine()
    }

    /// The 48 bytes of the compressed encoding.
    pub fn to_compressed(self) -> (result: [u8; 48])
        ensures
            result@ == g1_compressed(self@),
    {
        g1_to_compressed(self)
    }

    /// The point with a compressed encoding, if there is one.
    pub fn from_compressed(bytes: &[u8; 48]) -> (result: Option<Self>)
        ensures
            match result {
                Some(point) => g1_compressed(point@) == bytes@ && forall|log: int|
                    0 <= log < order() && #[trigger] g1_compressed(log) == bytes@ ==> log
                        == point@,
                None => forall|log: int|
                    0 <= log < order() ==> #[trigger] g1_compressed(log) != bytes@,
            },
    {
        let result = g1_from_compressed(bytes);
        proof {
            if result is Some {
                result->0.lemma_range();
            }
        }
        result
    }
}

/// `Group::generator` of `blstrs::G2Projective`.
#[verifier::external_body]
fn g2_generator() -> (result: G2)
    ensures
        result@ == 1,
{
    G2 { inner: blstrs::G2Projective::generator() }
}

/// `From<blstrs::G2Affine>` of `blstrs::G2Projective`: the same point.
#[verifier::external_body]
fn g2_from_affine(point: G2Point) -> (result: G2)
    ensures
        result@ == point@,
{
    G2 { inner: blstrs::G2Projective::from(point.inner) }
}

/// `Curve::to_affine` of `blstrs::G2Projective`: the same point.
#[verifier::external_body]
fn g2_to_affine(point: G2) -> (result: G2Point)
    ensures
        result@ == point@,
{
    G2Point { inner: point.inner.to_affine() }
}

/// `blstrs::G2Projective::multi_exp`: the sum of the points, each times its scalar. It
/// panics on no points, and on fewer scalars than points.
#[verifier::external_body]
fn g2_multi_exp(points: &[G2], scalars: &[Fr]) -> (result: G2)
    requires
        0 < points@.len() == scalars@.len(),
    ensures
        result@ == dot(views(points@), views(scalars@)) % order(),
{
    let points: Vec<blstrs::G2Projective> = points.iter().map(|point| point.inner).collect();
    let scalars: Vec<blstrs::Scalar> = scalars.iter().map(|scalar| scalar.inner).collect();
    G2 { inner: blstrs::G2Projective::multi_exp(&points, &scalars) }
}

/// The compressed encoding of the point with the given logarithm.
pub uninterp spec fn g2_compressed(log: int) -> Seq<u8>;

/// `blstrs::G2Affine::to_compressed`: 96 bytes that the point determines.
#[verifier::external_body]
fn g2_to_compressed(point: G2Point) -> (result: [u8; 96])
    ensures
        result@ == g2_compressed(point@),
{
    point.inner.to_compressed()
}

/// `blstrs::G2Affine::from_compressed`: the point of the prime-order group that the bytes are
/// the compressed encoding of, and nothing where they are that of none. An encoding is
/// that of one point only.
#[verifier::external_body]
fn g2_from_compressed(bytes: &[u8; 96]) -> (result: Option<G2Point>)
    ensures
        match result {
            Some(point) => forall|log: int|
                0 <= log < order() ==> (#[trigger] g2_compressed(log) == bytes@ <==> log
                    == point@),
            None => forall|log: int| 0 <= log < order() ==> #[trigger] g2_compressed(log) != bytes@,
        },
{
    Option::from(blstrs::G2Affine::from_compressed(bytes)).map(|inner| G2Point { inner })
}

impl G2 {
    pub fn generator() -> (result: Self)
        ensures
            result@ == 1,
    {
        g2_generator()
    }

    pub fn from_affine(point: G2Point) -> (result: Self)
        ensures
            result@ == point@,
    {
        g2_from_affine(point)
    }

    pub fn to_affine(self) -> (result: G2Point)
        ensures
            result@ == self@,
    {
        g2_to_affine(self)
    }

    /// The sum of the points, each times the scalar at its place.
    pub fn multi_exp(points: &[Self], scalars: &[Fr]) -> (result: Self)
        requires
            points@.len() == scalars@.len(),
        ensures
            result@ == dot(views(points@), views(scalars@)) % order(),
    {
        if points.len() == 0 {
            proof {
                lemma_one();
            }
            return Self::zero();
        }
        g2_multi_exp(points, scalars)
    }
}

impl G2Point {
    pub proof fn lemma_range(&self)
        ensures
            0 <= self@ < order(),
    {
        lemma_reduce(g2_affine_log(self.inner));
    }

    pub fn identity() -> (result: Self)
        ensures
            result@ == 0,
    {
        G2::zero().to_affine()
    }

    pub fn generator() -> (result: Self)
        ensures
            result@ == 1,
    {
        G2::generator().to_affine()
    }

    /// The 96 bytes of the compressed encoding.
    pub fn to_compressed(self) -> (result: [u8; 96])
        ensures
            result@ == g2_compressed(self@),
    {
        g2_to_compressed(self)
    }

    /// The point with a compressed encoding, if there is one.
    pub fn from_compressed(bytes: &[u8; 96]) -> (result: Option<Self>)
        ensures
            match result {
                Some(point) => g2_compressed(point@) == bytes@ && forall|log: int|
                    0 <= log < order() && #[trigger] g2_compressed(log) == bytes@ ==> log
                        == point@,
                None => forall|log: int|
                    0 <= log < order() ==> #[trigger] g2_compressed(log) != bytes@,
            },
    {
        let result = g2_from_compressed(bytes);
        proof {
            if result is Some {
                result->0.lemma_range();
            }
        }
        result
    }
}

/// `Group::generator` of `blstrs::Gt`, which is the pairing of the generators.
#[verifier::external_body]
fn gt_generator() -> (result: GtElement)
    ensures
        result@ == 1,
{
    GtElement { inner: blstrs::Gt::generator() }
}

/// `-` of one `blstrs::Gt`.
#[verifier::external_body]
fn gt_negate(element: GtElement) -> (result: GtElement)
    ensures
        result@ == (-element@) % order(),
{
    GtElement { inner: -element.inner }
}

/// `Group::double` of `blstrs::Gt`.
#[verifier::external_body]
fn gt_double(element: GtElement) -> (result: GtElement)
    ensures
        result@ == (2 * element@) % order(),
{
    GtElement { inner: element.inner.double() }
}

/// The compressed encoding of the element with the given logarithm.
pub uninterp spec fn gt_compressed(log: int) -> Seq<u8>;

/// `Compress::write_compressed` of `blstrs::Gt`, into a vector of bytes. It panics
/// on the identity. What the element's encoding is, the element determines.
#[verifier::external_body]
fn gt_to_compressed(element: GtElement) -> (result: Vec<u8>)
    requires
        element@ != 0,
    ensures
        result@ == gt_compressed(element@),
{
    let mut encoding: Vec<u8> = Vec::new();
    element.inner.write_compressed(&mut encoding).expect("writing to a vector succeeds");
    encoding
}

/// `Compress::read_compressed` of `blstrs::Gt`, from as many bytes as it reads: the element
/// of the prime-order group that the bytes are the compressed encoding of, and nothing where
/// they are that of none. The identity has no such encoding, and an encoding is that of
/// one element only.
#[verifier::external_body]
fn gt_from_compressed(bytes: &[u8; 288]) -> (result: Option<GtElement>)
    ensures
        match result {
            Some(element) => element@ != 0 && forall|log: int|
                0 < log < order() ==> (#[trigger] gt_compressed(log) == bytes@ <==> log
                    == element@),
            None => forall|log: int| 0 < log < order() ==> #[trigger] gt_compressed(log) != bytes@,
        },
{
    blstrs::Gt::read_compressed(&bytes[..]).ok().map(|inner| GtElement { inner })
}

/// `blstrs::pairing`: bilinear, and the generators give the generator.
#[verifier::external_body]
fn gt_pairing(left: G1Point, right: G2Point) -> (result: GtElement)
    ensures
        result@ == (left@ * right@) % order(),
{
    GtElement { inner: blstrs::pairing(&left.inner, &right.inner) }
}

/// `MultiMillerLoop::multi_miller_loop` of `blstrs::Bls12` followed by
/// `final_exponentiation`: the sum of the pairings. No terms give no element of
/// the group.
#[verifier::external_body]
fn gt_multi_pairing(left: &[G1Point], right: &[G2Point]) -> (result: GtElement)
    requires
        0 < left@.len() == right@.len(),
    ensures
        result@ == dot(views(left@), views(right@)) % order(),
{
    let prepared: Vec<blstrs::G2Prepared> =
        right.iter().map(|q| blstrs::G2Prepared::from(q.inner)).collect();
    let terms: Vec<(&blstrs::G1Affine, &blstrs::G2Prepared)> =
        left.iter().map(|p| &p.inner).zip(prepared.iter()).collect();
    GtElement { inner: blstrs::Bls12::multi_miller_loop(&terms).final_exponentiation() }
}

impl GtElement {
    pub fn generator() -> (result: Self)
        ensures
            result@ == 1,
    {
        gt_generator()
    }

    pub fn negate(self) -> (result: Self)
        ensures
            result@ == (-self@) % order(),
    {
        gt_negate(self)
    }

    pub fn double(self) -> (result: Self)
        ensures
            result@ == (2 * self@) % order(),
    {
        gt_double(self)
    }

    /// The compressed encoding of an element that is not the identity.
    pub fn to_compressed(self) -> (result: Vec<u8>)
        requires
            self@ != 0,
        ensures
            result@ == gt_compressed(self@),
    {
        gt_to_compressed(self)
    }

    /// The element with a compressed encoding, if there is one. The identity has none.
    pub fn from_compressed(bytes: &[u8; 288]) -> (result: Option<Self>)
        ensures
            match result {
                Some(element) => element@ != 0 && gt_compressed(element@) == bytes@ && forall|
                    log: int,
                |
                    0 < log < order() && #[trigger] gt_compressed(log) == bytes@ ==> log
                        == element@,
                None => forall|log: int|
                    0 < log < order() ==> #[trigger] gt_compressed(log) != bytes@,
            },
    {
        let result = gt_from_compressed(bytes);
        proof {
            if result is Some {
                result->0.lemma_range();
            }
        }
        result
    }
}

/// The pairing of two points.
pub fn pair(left: G1Point, right: G2Point) -> (result: GtElement)
    ensures
        result@ == (left@ * right@) % order(),
{
    gt_pairing(left, right)
}

/// The sum of the pairings of the points at the same places.
pub fn multi_pairing(left: &[G1Point], right: &[G2Point]) -> (result: GtElement)
    requires
        left@.len() == right@.len(),
    ensures
        result@ == dot(views(left@), views(right@)) % order(),
{
    if left.len() == 0 {
        proof {
            lemma_one();
        }
        return GtElement::zero();
    }
    gt_multi_pairing(left, right)
}

/// What yields scalars, one after another. Nothing is known of them.
pub trait ScalarGenerator {
    fn next_scalar(&mut self) -> Fr;
}

/// The source of the scalars that a function draws, with a record of them: each draw
/// may be any scalar.
pub trait ScalarRng {
    /// The scalars drawn so far, the latest one last.
    spec fn drawn(&self) -> Seq<int>;

    fn random_scalar(&mut self) -> (scalar: Fr)
        ensures
            final(self).drawn() == old(self).drawn().push(scalar@),
    ;
}

/// A generator with a record of what it has yielded.
pub struct Recorded<G> {
    pub(crate) generator: G,
    pub(crate) scalars: Ghost<Seq<int>>,
    pub(crate) keys: Ghost<Seq<Seq<u8>>>,
}

impl<G> Recorded<G> {
    /// The scalars that it has yielded.
    pub open(crate) spec fn scalar_record(&self) -> Seq<int> {
        self.scalars@
    }

    /// The keys that it has yielded.
    pub open(crate) spec fn key_record(&self) -> Seq<Seq<u8>> {
        self.keys@
    }

    /// The generator with an empty record.
    pub fn new(generator: G) -> (rng: Self)
        ensures
            rng.scalar_record() == Seq::<int>::empty(),
            rng.key_record() == Seq::<Seq<u8>>::empty(),
    {
        Recorded { generator, scalars: Ghost(Seq::empty()), keys: Ghost(Seq::empty()) }
    }

    /// A scalar is recorded.
    pub(crate) fn record_scalar(&mut self, scalar: Ghost<int>)
        ensures
            final(self).scalar_record() == old(self).scalar_record().push(scalar@),
            final(self).key_record() == old(self).key_record(),
    {
        self.scalars = Ghost(self.scalars@.push(scalar@));
    }

    /// A key is recorded.
    pub(crate) fn record_key(&mut self, key: Ghost<Seq<u8>>)
        ensures
            final(self).key_record() == old(self).key_record().push(key@),
            final(self).scalar_record() == old(self).scalar_record(),
    {
        self.keys = Ghost(self.keys@.push(key@));
    }
}

impl<G: ScalarGenerator> ScalarRng for Recorded<G> {
    open spec fn drawn(&self) -> Seq<int> {
        self.scalar_record()
    }

    fn random_scalar(&mut self) -> (scalar: Fr) {
        let scalar = self.generator.next_scalar();
        self.record_scalar(Ghost(scalar@));
        scalar
    }
}

/// The system's source of randomness, with a record of what it has yielded. Nothing but a
/// draw adds to the record, so a contract that speaks of a source with a given record says
/// that the draws in it were made.
#[derive(Clone, Copy)]
pub struct SystemRng {
    scalars: Ghost<Seq<int>>,
    keys: Ghost<Seq<Seq<u8>>>,
}

impl SystemRng {
    /// The scalars that it has yielded, the latest one last.
    pub closed spec fn scalar_record(&self) -> Seq<int> {
        self.scalars@
    }

    /// The keys that it has yielded, the latest one last.
    pub closed spec fn key_record(&self) -> Seq<Seq<u8>> {
        self.keys@
    }

    /// The source before its first draw.
    pub fn new() -> (rng: Self)
        ensures
            rng.scalar_record() == Seq::<int>::empty(),
            rng.key_record() == Seq::<Seq<u8>>::empty(),
    {
        SystemRng { scalars: Ghost(Seq::empty()), keys: Ghost(Seq::empty()) }
    }

    /// A scalar that was drawn is recorded.
    fn record_scalar(&mut self, scalar: Ghost<int>)
        ensures
            final(self).scalar_record() == old(self).scalar_record().push(scalar@),
            final(self).key_record() == old(self).key_record(),
    {
        self.scalars = Ghost(self.scalars@.push(scalar@));
    }

    /// A key that was drawn is recorded.
    fn record_key(&mut self, key: Ghost<Seq<u8>>)
        ensures
            final(self).key_record() == old(self).key_record().push(key@),
            final(self).scalar_record() == old(self).scalar_record(),
    {
        self.keys = Ghost(self.keys@.push(key@));
    }
}

/// `Field::random` of `blstrs::Scalar` on `rand_core::OsRng`: any scalar.
#[verifier::external_body]
fn os_random_scalar() -> (result: Fr) {
    Fr { inner: blstrs::Scalar::random(rand_core::OsRng) }
}

impl ScalarRng for SystemRng {
    open spec fn drawn(&self) -> Seq<int> {
        self.scalar_record()
    }

    fn random_scalar(&mut self) -> (scalar: Fr) {
        let scalar = os_random_scalar();
        self.record_scalar(Ghost(scalar@));
        scalar
    }
}

impl RandomSource for SystemRng {
    open spec fn drawn_scalars(&self) -> Seq<int> {
        self.scalar_record()
    }

    open spec fn drawn_keys(&self) -> Seq<Seq<u8>> {
        self.key_record()
    }

    fn random_ark_scalar(&mut self) -> (scalar: ArkScalar) {
        let scalar = ark_system_scalar();
        self.record_scalar(Ghost(scalar@));
        scalar
    }

    fn random_key(&mut self) -> (key: [u8; 16]) {
        let key = system_bytes();
        self.record_key(Ghost(key@));
        key
    }
}

} // verus!
