//! The scheme over the group of the curve secp256k1, by k256.
//!
//! Scalars are held as their canonical big-endian bytes. Group elements are
//! held as k256's own points, which contracts know by their compressed
//! encoding. The arithmetic on both is the outside crate's.
use crate::bytes::{
    all_zero, be_value, lemma_be_value_injective, lemma_be_value_low, lemma_be_value_zero,
    random_bytes, same_bytes,
};
use crate::engine;
use crate::engine::{
    recover_outcome, scalar_values, valid_config, verify_all_outcome, verify_outcome,
};
use crate::error::VssError;
use crate::group::{FieldScalar, GroupElement};
use crate::polynomial::poly_eval;
use k256::elliptic_curve::group::GroupEncoding;
use k256::elliptic_curve::ops::Reduce;
use vstd::arithmetic::div_mod::lemma_small_mod;
use vstd::prelude::*;

verus! {

/// The order of the group of secp256k1: the prime
/// `0xFFFFFFFF FFFFFFFF FFFFFFFF FFFFFFFE BAAEDCE6 AF48A03B BFD25E8C D0364141`.
#[verifier::opaque]
pub open spec fn secp256k1_order() -> int {
    115792089237316195423570985008687907852837564279074904382605163141518161494337int
}

/// An element of the group as k256 holds it, in projective coordinates.
#[verifier::external_type_specification]
#[verifier::external_body]
pub struct ExProjectivePoint(k256::ProjectivePoint);

/// The compressed encoding of an element: what `ProjectivePoint::to_affine`
/// and `AffinePoint::to_bytes` give for it.
pub uninterp spec fn secp256k1_encoding(p: k256::ProjectivePoint) -> Seq<u8>;

/// The encoding of `k` times the generator, for `k` below the order.
pub uninterp spec fn secp256k1_base_mul(k: int) -> Seq<u8>;

/// The encoding of the sum of the elements encoded by `p` and `r`.
pub uninterp spec fn secp256k1_add(p: Seq<u8>, r: Seq<u8>) -> Seq<u8>;

/// The encoding of `k` times the element encoded by `p`.
pub uninterp spec fn secp256k1_mul(p: Seq<u8>, k: int) -> Seq<u8>;

/// The bytes reduced modulo the order.
///
/// Calls `Scalar::reduce_bytes`, which reads the bytes as a big-endian
/// integer and reduces it, and `Scalar::to_bytes`, which gives the
/// big-endian bytes of the reduced value.
#[verifier::external_body]
fn scalar_reduce(bytes: &[u8; 32]) -> (r: [u8; 32])
    ensures
        be_value(r@) == be_value(bytes@) % secp256k1_order(),
{
    <k256::Scalar as Reduce<k256::U256>>::reduce_bytes(&k256::FieldBytes::from(*bytes)).to_bytes().into()
}

/// The sum of two scalars.
///
/// Calls `+` of `Scalar`, which adds modulo the order.
#[verifier::external_body]
fn scalar_add(a: &[u8; 32], b: &[u8; 32]) -> (r: [u8; 32])
    ensures
        be_value(r@) == (be_value(a@) + be_value(b@)) % secp256k1_order(),
{
    let x = <k256::Scalar as Reduce<k256::U256>>::reduce_bytes(&k256::FieldBytes::from(*a));
    let y = <k256::Scalar as Reduce<k256::U256>>::reduce_bytes(&k256::FieldBytes::from(*b));
    (x + y).to_bytes().into()
}

/// The difference of two scalars.
///
/// Calls `-` of `Scalar`, which subtracts modulo the order.
#[verifier::external_body]
fn scalar_sub(a: &[u8; 32], b: &[u8; 32]) -> (r: [u8; 32])
    ensures
        be_value(r@) == (be_value(a@) - be_value(b@)) % secp256k1_order(),
{
    let x = <k256::Scalar as Reduce<k256::U256>>::reduce_bytes(&k256::FieldBytes::from(*a));
    let y = <k256::Scalar as Reduce<k256::U256>>::reduce_bytes(&k256::FieldBytes::from(*b));
    (x - y).to_bytes().into()
}

/// The product of two scalars.
///
/// Calls `*` of `Scalar`, which multiplies modulo the order. The crate
/// documents the scalars as a prime field, so that a product of two scalars
/// that are not zero is not zero: the second clause.
#[verifier::external_body]
fn scalar_mul(a: &[u8; 32], b: &[u8; 32]) -> (r: [u8; 32])
    ensures
        be_value(r@) == (be_value(a@) * be_value(b@)) % secp256k1_order(),
        be_value(a@) % secp256k1_order() != 0 && be_value(b@) % secp256k1_order() != 0
            ==> be_value(r@) != 0,
{
    let x = <k256::Scalar as Reduce<k256::U256>>::reduce_bytes(&k256::FieldBytes::from(*a));
    let y = <k256::Scalar as Reduce<k256::U256>>::reduce_bytes(&k256::FieldBytes::from(*b));
    (x * y).to_bytes().into()
}

/// The inverse of a scalar that is not zero.
///
/// Calls `Scalar::invert`, which gives the multiplicative inverse modulo the
/// order of every scalar but zero.
#[verifier::external_body]
fn scalar_invert(a: &[u8; 32]) -> (r: [u8; 32])
    requires
        be_value(a@) % secp256k1_order() != 0,
    ensures
        0 <= be_value(r@) < secp256k1_order(),
        (be_value(a@) * be_value(r@)) % secp256k1_order() == 1,
{
    let x = <k256::Scalar as Reduce<k256::U256>>::reduce_bytes(&k256::FieldBytes::from(*a));
    x.invert().unwrap().to_bytes().into()
}

/// The scalar times the generator.
///
/// Calls `*` of `ProjectivePoint::GENERATOR` with a `Scalar`. The generator
/// has the order of the group, so that no other scalar below the order gives
/// the same element: the last clause.
#[verifier::external_body]
fn point_base_mul(k: &[u8; 32]) -> (r: k256::ProjectivePoint)
    ensures
        secp256k1_encoding(r) == secp256k1_base_mul(be_value(k@) % secp256k1_order()),
        forall|j: int|
            0 <= j < secp256k1_order() && #[trigger] secp256k1_base_mul(j) == secp256k1_encoding(r)
                ==> j == be_value(k@) % secp256k1_order(),
{
    k256::ProjectivePoint::GENERATOR * <k256::Scalar as Reduce<k256::U256>>::reduce_bytes(
        &k256::FieldBytes::from(*k),
    )
}

/// The scalar times an element.
///
/// Calls `*` of `ProjectivePoint` with a `Scalar`. Scalar multiplication is
/// the group's: `k` times `a` times the generator is `a * k` times the
/// generator, the product taken modulo the order.
#[verifier::external_body]
fn point_mul(p: &k256::ProjectivePoint, k: &[u8; 32]) -> (r: k256::ProjectivePoint)
    ensures
        secp256k1_encoding(r) == secp256k1_mul(
            secp256k1_encoding(*p),
            be_value(k@) % secp256k1_order(),
        ),
        forall|a: int|
            0 <= a < secp256k1_order() && secp256k1_encoding(*p) == #[trigger] secp256k1_base_mul(a)
                ==> secp256k1_encoding(r) == secp256k1_base_mul(
                (a * (be_value(k@) % secp256k1_order())) % secp256k1_order(),
            ),
{
    *p * <k256::Scalar as Reduce<k256::U256>>::reduce_bytes(&k256::FieldBytes::from(*k))
}

/// The sum of two elements.
///
/// Calls `+` of `ProjectivePoint`. Addition is the group's: `a` times the
/// generator plus `b` times the generator is `a + b` times the generator, the
/// sum taken modulo the order.
#[verifier::external_body]
fn point_add(p: &k256::ProjectivePoint, s: &k256::ProjectivePoint) -> (r: k256::ProjectivePoint)
    ensures
        secp256k1_encoding(r) == secp256k1_add(secp256k1_encoding(*p), secp256k1_encoding(*s)),
        forall|a: int, b: int|
            0 <= a < secp256k1_order() && 0 <= b < secp256k1_order() && secp256k1_encoding(*p)
                == #[trigger] secp256k1_base_mul(a) && secp256k1_encoding(*s)
                == #[trigger] secp256k1_base_mul(b) ==> secp256k1_encoding(r)
                == secp256k1_base_mul((a + b) % secp256k1_order()),
{
    p + s
}

/// Whether two elements are the same.
///
/// Calls `==` of `ProjectivePoint`, which holds of two elements exactly when
/// they are one point of the curve, and so have one encoding.
#[verifier::external_body]
fn point_eq(p: &k256::ProjectivePoint, s: &k256::ProjectivePoint) -> (r: bool)
    ensures
        r == (secp256k1_encoding(*p) == secp256k1_encoding(*s)),
{
    p == s
}

/// The compressed encoding of an element.
///
/// Calls `ProjectivePoint::to_affine` and `AffinePoint::to_bytes`.
#[verifier::external_body]
fn point_encode(p: &k256::ProjectivePoint) -> (r: [u8; 33])
    ensures
        r@ == secp256k1_encoding(*p),
{
    let mut r = [0u8; 33];
    r.copy_from_slice(&p.to_affine().to_bytes());
    r
}

/// A scalar of the secp256k1 group: an integer modulo the group's order.
#[derive(Clone, Copy, Debug, PartialEq, Eq)]
pub struct Secp256k1Scalar {
    bytes: [u8; 32],
}

/// An element of the secp256k1 group.
#[derive(Clone, Copy, Debug, PartialEq, Eq)]
pub struct Secp256k1Point {
    point: k256::ProjectivePoint,
}

/// The order is positive and exceeds every index.
pub proof fn lemma_secp256k1_order()
    ensures
        secp256k1_order() > usize::MAX,
        secp256k1_order() > 0xffff_ffff_ffff_ffff,
{
    reveal(secp256k1_order);
}

/// A canonical value is its own residue.
proof fn lemma_canonical(bytes: Seq<u8>)
    requires
        be_value(bytes) < secp256k1_order(),
    ensures
        0 <= be_value(bytes),
        be_value(bytes) % secp256k1_order() == be_value(bytes),
{
    lemma_be_value_zero(bytes);
    lemma_small_mod(be_value(bytes) as nat, secp256k1_order() as nat);
}

impl Secp256k1Scalar {
    #[verifier::type_invariant]
    spec fn canonical(self) -> bool {
        be_value(self.bytes@) < secp256k1_order()
    }

    /// The scalar that thirty-two big-endian bytes reduce to.
    pub fn from_bytes(bytes: [u8; 32]) -> (r: Self)
        ensures
            r.value() == be_value(bytes@) % secp256k1_order(),
    {
        let reduced = scalar_reduce(&bytes);
        proof {
            lemma_secp256k1_order();
            lemma_canonical(reduced@);
        }
        Secp256k1Scalar { bytes: reduced }
    }

    /// The canonical big-endian bytes of the scalar.
    pub fn to_bytes(&self) -> (r: [u8; 32])
        ensures
            be_value(r@) == self.value(),
    {
        proof {
            use_type_invariant(self);
            lemma_canonical(self.bytes@);
        }
        self.bytes
    }

    /// Whether two scalars are the same.
    pub fn equals(&self, other: &Self) -> (r: bool)
        ensures
            r == (self.value() == other.value()),
    {
        proof {
            use_type_invariant(self);
            use_type_invariant(other);
            lemma_canonical(self.bytes@);
            lemma_canonical(other.bytes@);
            if be_value(self.bytes@) == be_value(other.bytes@) {
                lemma_be_value_injective(self.bytes@, other.bytes@);
            }
        }
        same_bytes(self.bytes.as_slice(), other.bytes.as_slice())
    }
}

impl FieldScalar for Secp256k1Scalar {
    open spec fn order() -> int {
        secp256k1_order()
    }

    closed spec fn value(&self) -> int {
        be_value(self.bytes@) % secp256k1_order()
    }

    proof fn lemma_order() {
        lemma_secp256k1_order();
    }

    proof fn lemma_value(&self) {
        lemma_secp256k1_order();
    }

    fn zero() -> (r: Self) {
        let bytes = [0u8; 32];
        proof {
            lemma_secp256k1_order();
            lemma_be_value_zero(bytes@);
            lemma_canonical(bytes@);
        }
        Secp256k1Scalar { bytes }
    }

    fn one() -> (r: Self) {
        Self::from_byte(1)
    }

    fn from_byte(byte: u8) -> (r: Self) {
        let mut bytes = [0u8; 32];
        bytes[31] = byte;
        proof {
            lemma_secp256k1_order();
            lemma_be_value_low(bytes@);
            lemma_canonical(bytes@);
        }
        Secp256k1Scalar { bytes }
    }

    fn random() -> (r: Result<Self, VssError>) {
        match random_bytes() {
            Ok(bytes) => Ok(Self::from_bytes(bytes)),
            Err(_) => Err(VssError::RandomSource),
        }
    }

    fn plus(&self, rhs: &Self) -> (r: Self) {
        let bytes = scalar_add(&self.bytes, &rhs.bytes);
        proof {
            use_type_invariant(self);
            use_type_invariant(rhs);
            lemma_canonical(self.bytes@);
            lemma_canonical(rhs.bytes@);
            lemma_canonical(bytes@);
        }
        Secp256k1Scalar { bytes }
    }

    fn minus(&self, rhs: &Self) -> (r: Self) {
        let bytes = scalar_sub(&self.bytes, &rhs.bytes);
        proof {
            use_type_invariant(self);
            use_type_invariant(rhs);
            lemma_canonical(self.bytes@);
            lemma_canonical(rhs.bytes@);
            lemma_canonical(bytes@);
        }
        Secp256k1Scalar { bytes }
    }

    fn times(&self, rhs: &Self) -> (r: Self) {
        let bytes = scalar_mul(&self.bytes, &rhs.bytes);
        proof {
            use_type_invariant(self);
            use_type_invariant(rhs);
            lemma_canonical(self.bytes@);
            lemma_canonical(rhs.bytes@);
            lemma_canonical(bytes@);
        }
        Secp256k1Scalar { bytes }
    }

    fn invert(&self) -> (r: Self) {
        proof {
            use_type_invariant(self);
            lemma_canonical(self.bytes@);
        }
        let bytes = scalar_invert(&self.bytes);
        proof {
            lemma_canonical(bytes@);
        }
        Secp256k1Scalar { bytes }
    }

    fn is_zero(&self) -> (r: bool) {
        proof {
            use_type_invariant(self);
            lemma_canonical(self.bytes@);
            lemma_be_value_zero(self.bytes@);
        }
        all_zero(self.bytes.as_slice())
    }
}

impl Secp256k1Point {
    /// The compressed encoding of the element.
    pub fn to_bytes(&self) -> (r: [u8; 33])
        ensures
            r@ == self.encoding(),
    {
        point_encode(&self.point)
    }
}

impl GroupElement<Secp256k1Scalar> for Secp256k1Point {
    closed spec fn encoding(&self) -> Seq<u8> {
        secp256k1_encoding(self.point)
    }

    open spec fn generated(k: int) -> Seq<u8> {
        secp256k1_base_mul(k)
    }

    open spec fn scaled(p: Seq<u8>, k: int) -> Seq<u8> {
        secp256k1_mul(p, k)
    }

    open spec fn summed(p: Seq<u8>, r: Seq<u8>) -> Seq<u8> {
        secp256k1_add(p, r)
    }

    fn commit(k: &Secp256k1Scalar) -> (r: Self) {
        Secp256k1Point { point: point_base_mul(&k.bytes) }
    }

    fn scale(&self, k: &Secp256k1Scalar) -> (r: Self) {
        Secp256k1Point { point: point_mul(&self.point, &k.bytes) }
    }

    fn join(&self, other: &Self) -> (r: Self) {
        Secp256k1Point { point: point_add(&self.point, &other.point) }
    }

    fn same(&self, other: &Self) -> (r: bool) {
        point_eq(&self.point, &other.point)
    }
}

impl Secp256k1Scalar {
    /// The scalar that the magnitude of a big integer, given by its
    /// big-endian bytes, reduces to.
    pub fn from_bigint(magnitude: &[u8]) -> (r: Self)
        ensures
            r.value() == be_value(magnitude@) % secp256k1_order(),
    {
        engine::reduce_be_bytes(magnitude)
    }

    /// A scalar from thirty-two bytes of the operating system's random source,
    /// reduced modulo the order. Only the random source can make it fail.
    pub fn new_random() -> (r: Result<Self, VssError>)
        ensures
            r matches Err(e) ==> e == VssError::RandomSource,
    {
        Self::random()
    }
}

/// Feldman's verifiable secret sharing over the secp256k1 group: any
/// `threshold` of the `share_amount` shares recover the secret.
#[derive(Clone, Copy, Debug)]
pub struct VerifiableSecretSharing {
    /// The number of shares that recover the secret.
    pub threshold: usize,
    /// The number of shares that are dealt.
    pub share_amount: usize,
}

impl VerifiableSecretSharing {
    /// A scheme with the given threshold and number of shares, where the
    /// threshold is at least one and at most the number of shares.
    pub fn new(threshold: usize, share_amount: usize) -> (r: Result<Self, VssError>)
        ensures
            match r {
                Ok(vss) => valid_config(threshold, share_amount) && vss.threshold == threshold
                    && vss.share_amount == share_amount,
                Err(e) => e == VssError::Configuration && !valid_config(threshold, share_amount),
            },
    {
        if threshold < 1 || threshold > share_amount {
            return Err(VssError::Configuration);
        }
        Ok(VerifiableSecretSharing { threshold, share_amount })
    }

    /// Splits the secret into `share_amount` shares and commits to the
    /// polynomial that shares it.
    pub fn split(&self, secret: &Secp256k1Scalar) -> (r: Result<
        (Vec<(usize, Secp256k1Scalar)>, Vec<Secp256k1Point>),
        VssError,
    >)
        ensures
            engine::split_outcome(self.threshold, self.share_amount, *secret, r),
    {
        engine::split(self.threshold, self.share_amount, secret)
    }

    /// The dealing from a given polynomial, constant term first.
    pub fn deal(&self, polynomial: &[Secp256k1Scalar]) -> (r: Result<
        (Vec<(usize, Secp256k1Scalar)>, Vec<Secp256k1Point>),
        VssError,
    >)
        ensures
            engine::deal_outcome(self.threshold, self.share_amount, polynomial@, r),
    {
        engine::deal(self.threshold, self.share_amount, polynomial)
    }

    /// Recovers the secret from exactly `threshold` shares.
    pub fn recover(&self, shares: &[(usize, Secp256k1Scalar)]) -> (r: Result<
        Secp256k1Scalar,
        VssError,
    >)
        ensures
            recover_outcome(self.threshold, self.share_amount, shares@, r),
            engine::recovers_constant_term(self.threshold, shares@, r),
    {
        engine::recover(self.threshold, self.share_amount, shares)
    }

    /// Whether the share matches the commitments.
    pub fn verify(&self, share: (usize, Secp256k1Scalar), commitments: &[Secp256k1Point]) -> (r:
        Result<bool, VssError>)
        ensures
            verify_outcome(self.threshold, self.share_amount, share, commitments@, r),
            engine::decides_share(share, commitments@, r),
    {
        engine::verify(self.threshold, self.share_amount, share, commitments)
    }

    /// Whether every share matches the commitments.
    pub fn verify_all(
        &self,
        shares: &[(usize, Secp256k1Scalar)],
        commitments: &[Secp256k1Point],
    ) -> (r: Result<bool, VssError>)
        ensures
            verify_all_outcome(self.threshold, self.share_amount, shares@, commitments@, r),
            engine::decides_shares(shares@, commitments@, r),
    {
        engine::verify_all(self.threshold, self.share_amount, shares, commitments)
    }

    /// One commitment per coefficient: the coefficient times the generator,
    /// which commits to that coefficient alone.
    pub fn generate_commitments(polynomial: &[Secp256k1Scalar]) -> (commitments: Vec<
        Secp256k1Point,
    >)
        ensures
            commitments.len() == polynomial.len(),
            forall|i: int|
                0 <= i < polynomial.len() ==> (#[trigger] commitments[i]).encoding()
                    == secp256k1_base_mul(polynomial[i].value()),
            forall|i: int|
                0 <= i < polynomial.len() ==> engine::binds_to::<Secp256k1Scalar, Secp256k1Point>(
                    #[trigger] commitments[i],
                    polynomial[i].value(),
                ),
    {
        engine::generate_commitments(polynomial)
    }

    /// The secret followed by `threshold - 1` random coefficients.
    pub fn sample_polynomial(&self, secret: &Secp256k1Scalar) -> (r: Result<
        Vec<Secp256k1Scalar>,
        VssError,
    >)
        ensures
            engine::sample_outcome(self.threshold, *secret, r),
    {
        engine::sample_polynomial(self.threshold, secret)
    }

    /// The polynomial's values at the indices `1..=share_amount`.
    pub fn evaluate_polynomial(&self, polynomial: &[Secp256k1Scalar]) -> (shares: Vec<
        (usize, Secp256k1Scalar),
    >)
        ensures
            shares.len() == self.share_amount,
            forall|i: int|
                0 <= i < self.share_amount ==> (#[trigger] shares[i]).0 == i + 1
                    && shares[i].1.value() == poly_eval(scalar_values(polynomial@), i + 1)
                    % secp256k1_order(),
    {
        engine::evaluate_polynomial(self.share_amount, polynomial)
    }

    /// The polynomial's value at the index `x`.
    pub fn mod_evaluate_at(&self, polynomial: &[Secp256k1Scalar], x: usize) -> (r:
        Secp256k1Scalar)
        ensures
            r.value() == poly_eval(scalar_values(polynomial@), x as int) % secp256k1_order(),
    {
        engine::mod_evaluate_at(polynomial, x)
    }

    /// The value at `x` of the interpolant through the points
    /// `(xs[j], ys[j])`.
    pub fn lagrange_interpolation(
        &self,
        x: Secp256k1Scalar,
        xs: &[usize],
        ys: &[Secp256k1Scalar],
    ) -> (r: Result<Secp256k1Scalar, VssError>)
        requires
            xs.len() == ys.len(),
        ensures
            engine::interpolation_outcome(x, xs@, ys@, r),
            engine::interpolates_polynomials(x, xs@, ys@, r),
    {
        engine::lagrange_interpolation(x, xs, ys)
    }
}

} // verus!
