//! The scheme over the Ristretto group of curve25519-dalek.
//!
//! Scalars are held as their canonical little-endian bytes. Group elements
//! are held as curve25519-dalek's own points, which contracts know by their
//! compressed encoding. The arithmetic on both is the outside crate's.
use crate::bytes::{
    all_zero, be_value, le_value, lemma_le_value_injective, lemma_le_value_low,
    lemma_le_value_zero, random_bytes, same_bytes,
};
use crate::engine;
use crate::engine::{
    recover_outcome, scalar_values, valid_config, verify_all_outcome, verify_outcome,
};
use crate::error::VssError;
use crate::group::{FieldScalar, GroupElement};
use crate::polynomial::poly_eval;
use vstd::arithmetic::div_mod::lemma_small_mod;
use vstd::prelude::*;

verus! {

/// The order of the Ristretto group: the prime
/// `2^252 + 27742317777372353535851937790883648493`.
#[verifier::opaque]
pub open spec fn ristretto_order() -> int {
    7237005577332262213973186563042994240857116359379907606001950938285454250989int
}

/// An element of the group as curve25519-dalek holds it.
#[verifier::external_type_specification]
#[verifier::external_body]
pub struct ExRistrettoPoint(curve25519_dalek::ristretto::RistrettoPoint);

/// The compressed encoding of an element: what `RistrettoPoint::compress`
/// gives for it.
pub uninterp spec fn ristretto_encoding(p: curve25519_dalek::ristretto::RistrettoPoint) -> Seq<u8>;

/// The encoding of `k` times the Ristretto basepoint, for `k` below the order.
pub uninterp spec fn ristretto_base_mul(k: int) -> Seq<u8>;

/// The encoding of `k` times the element encoded by `p`.
pub uninterp spec fn ristretto_mul(p: Seq<u8>, k: int) -> Seq<u8>;

/// The encoding of the sum of the elements encoded by `p` and `r`.
pub uninterp spec fn ristretto_add(p: Seq<u8>, r: Seq<u8>) -> Seq<u8>;

/// The bytes reduced modulo the order.
///
/// Calls `Scalar::from_bytes_mod_order`, which reads the bytes as a
/// little-endian integer and reduces it, and `Scalar::to_bytes`, which gives
/// the canonical little-endian bytes back.
#[verifier::external_body]
fn scalar_reduce(bytes: &[u8; 32]) -> (r: [u8; 32])
    ensures
        le_value(r@) == le_value(bytes@) % ristretto_order(),
{
    curve25519_dalek::scalar::Scalar::from_bytes_mod_order(*bytes).to_bytes()
}

/// The sum of two scalars.
///
/// Calls `+` of `Scalar`, which adds modulo the order.
#[verifier::external_body]
fn scalar_add(a: &[u8; 32], b: &[u8; 32]) -> (r: [u8; 32])
    ensures
        le_value(r@) == (le_value(a@) + le_value(b@)) % ristretto_order(),
{
    let x = curve25519_dalek::scalar::Scalar::from_bytes_mod_order(*a);
    let y = curve25519_dalek::scalar::Scalar::from_bytes_mod_order(*b);
    (x + y).to_bytes()
}

/// The difference of two scalars.
///
/// Calls `-` of `Scalar`, which subtracts modulo the order.
#[verifier::external_body]
fn scalar_sub(a: &[u8; 32], b: &[u8; 32]) -> (r: [u8; 32])
    ensures
        le_value(r@) == (le_value(a@) - le_value(b@)) % ristretto_order(),
{
    let x = curve25519_dalek::scalar::Scalar::from_bytes_mod_order(*a);
    let y = curve25519_dalek::scalar::Scalar::from_bytes_mod_order(*b);
    (x - y).to_bytes()
}

/// The product of two scalars.
///
/// Calls `*` of `Scalar`, which multiplies modulo the order. The crate
/// documents the order as prime, so that a product of two scalars that are
/// not zero is not zero: the second clause.
#[verifier::external_body]
fn scalar_mul(a: &[u8; 32], b: &[u8; 32]) -> (r: [u8; 32])
    ensures
        le_value(r@) == (le_value(a@) * le_value(b@)) % ristretto_order(),
        le_value(a@) % ristretto_order() != 0 && le_value(b@) % ristretto_order() != 0
            ==> le_value(r@) != 0,
{
    let x = curve25519_dalek::scalar::Scalar::from_bytes_mod_order(*a);
    let y = curve25519_dalek::scalar::Scalar::from_bytes_mod_order(*b);
    (x * y).to_bytes()
}

/// The inverse of a scalar that is not zero.
///
/// Calls `Scalar::invert`, which gives the multiplicative inverse modulo the
/// order and asks for a scalar other than zero.
#[verifier::external_body]
fn scalar_invert(a: &[u8; 32]) -> (r: [u8; 32])
    requires
        le_value(a@) % ristretto_order() != 0,
    ensures
        0 <= le_value(r@) < ristretto_order(),
        (le_value(a@) * le_value(r@)) % ristretto_order() == 1,
{
    curve25519_dalek::scalar::Scalar::from_bytes_mod_order(*a).invert().to_bytes()
}

/// The scalar times the basepoint.
///
/// Calls `*` of `RISTRETTO_BASEPOINT_POINT` with a `Scalar`. The basepoint
/// has the order of the group, so that no other scalar below the order gives
/// the same element: the last clause.
#[verifier::external_body]
fn point_base_mul(k: &[u8; 32]) -> (r: curve25519_dalek::ristretto::RistrettoPoint)
    ensures
        ristretto_encoding(r) == ristretto_base_mul(le_value(k@) % ristretto_order()),
        forall|j: int|
            0 <= j < ristretto_order() && #[trigger] ristretto_base_mul(j) == ristretto_encoding(r)
                ==> j == le_value(k@) % ristretto_order(),
{
    curve25519_dalek::constants::RISTRETTO_BASEPOINT_POINT
        * curve25519_dalek::scalar::Scalar::from_bytes_mod_order(*k)
}

/// The scalar times an element.
///
/// Calls `*` of `RistrettoPoint` with a `Scalar`. Scalar multiplication is
/// the group's: `k` times `a` times the basepoint is `a * k` times the
/// basepoint, the product taken modulo the order.
#[verifier::external_body]
fn point_mul(p: &curve25519_dalek::ristretto::RistrettoPoint, k: &[u8; 32]) -> (r:
    curve25519_dalek::ristretto::RistrettoPoint)
    ensures
        ristretto_encoding(r) == ristretto_mul(
            ristretto_encoding(*p),
            le_value(k@) % ristretto_order(),
        ),
        forall|a: int|
            0 <= a < ristretto_order() && ristretto_encoding(*p) == #[trigger] ristretto_base_mul(a)
                ==> ristretto_encoding(r) == ristretto_base_mul(
                (a * (le_value(k@) % ristretto_order())) % ristretto_order(),
            ),
{
    p * curve25519_dalek::scalar::Scalar::from_bytes_mod_order(*k)
}

/// The sum of two elements.
///
/// Calls `+` of `RistrettoPoint`. Addition is the group's: `a` times the
/// basepoint plus `b` times the basepoint is `a + b` times the basepoint,
/// the sum taken modulo the order.
#[verifier::external_body]
fn point_add(
    p: &curve25519_dalek::ristretto::RistrettoPoint,
    s: &curve25519_dalek::ristretto::RistrettoPoint,
) -> (r: curve25519_dalek::ristretto::RistrettoPoint)
    ensures
        ristretto_encoding(r) == ristretto_add(ristretto_encoding(*p), ristretto_encoding(*s)),
        forall|a: int, b: int|
            0 <= a < ristretto_order() && 0 <= b < ristretto_order() && ristretto_encoding(*p)
                == #[trigger] ristretto_base_mul(a) && ristretto_encoding(*s)
                == #[trigger] ristretto_base_mul(b) ==> ristretto_encoding(r)
                == ristretto_base_mul((a + b) % ristretto_order()),
{
    p + s
}

/// Whether two elements are the same.
///
/// Calls `==` of `RistrettoPoint`, which holds of two elements exactly when
/// their compressed encodings are the same.
#[verifier::external_body]
fn point_eq(
    p: &curve25519_dalek::ristretto::RistrettoPoint,
    s: &curve25519_dalek::ristretto::RistrettoPoint,
) -> (r: bool)
    ensures
        r == (ristretto_encoding(*p) == ristretto_encoding(*s)),
{
    p == s
}

/// The compressed encoding of an element.
///
/// Calls `RistrettoPoint::compress` and `CompressedRistretto::to_bytes`.
#[verifier::external_body]
fn point_encode(p: &curve25519_dalek::ristretto::RistrettoPoint) -> (r: [u8; 32])
    ensures
        r@ == ristretto_encoding(*p),
{
    p.compress().to_bytes()
}

/// A scalar of the Ristretto group: an integer modulo the group's order.
#[derive(Clone, Copy, Debug, PartialEq, Eq)]
pub struct RistrettoScalar {
    bytes: [u8; 32],
}

/// An element of the Ristretto group.
#[derive(Clone, Copy, Debug, PartialEq, Eq)]
pub struct RistrettoElement {
    point: curve25519_dalek::ristretto::RistrettoPoint,
}

/// The order is positive and exceeds every index.
pub proof fn lemma_ristretto_order()
    ensures
        ristretto_order() > usize::MAX,
        ristretto_order() > 0xffff_ffff_ffff_ffff,
{
    reveal(ristretto_order);
}

/// A canonical value is its own residue.
proof fn lemma_canonical(bytes: Seq<u8>)
    requires
        le_value(bytes) < ristretto_order(),
    ensures
        0 <= le_value(bytes),
        le_value(bytes) % ristretto_order() == le_value(bytes),
{
    lemma_le_value_zero(bytes);
    lemma_small_mod(le_value(bytes) as nat, ristretto_order() as nat);
}

impl RistrettoScalar {
    #[verifier::type_invariant]
    spec fn canonical(self) -> bool {
        le_value(self.bytes@) < ristretto_order()
    }

    /// The scalar that thirty-two little-endian bytes reduce to.
    pub fn from_bytes(bytes: [u8; 32]) -> (r: Self)
        ensures
            r.value() == le_value(bytes@) % ristretto_order(),
    {
        let reduced = scalar_reduce(&bytes);
        proof {
            lemma_ristretto_order();
            lemma_canonical(reduced@);
        }
        RistrettoScalar { bytes: reduced }
    }

    /// The canonical little-endian bytes of the scalar.
    pub fn to_bytes(&self) -> (r: [u8; 32])
        ensures
            le_value(r@) == self.value(),
    {
        proof {
            use_type_invariant(self);
            lemma_canonical(self.bytes@);
        }
        self.bytes
    }

    /// Whether two scalars are the same.
    pub fn equals(&self, other: &Self) -> (r: bool)
        ensures
            r == (self.value() == other.value()),
    {
        proof {
            use_type_invariant(self);
            use_type_invariant(other);
            lemma_canonical(self.bytes@);
            lemma_canonical(other.bytes@);
            if le_value(self.bytes@) == le_value(other.bytes@) {
                lemma_le_value_injective(self.bytes@, other.bytes@);
            }
        }
        same_bytes(self.bytes.as_slice(), other.bytes.as_slice())
    }
}

impl FieldScalar for RistrettoScalar {
    open spec fn order() -> int {
        ristretto_order()
    }

    closed spec fn value(&self) -> int {
        le_value(self.bytes@) % ristretto_order()
    }

    proof fn lemma_order() {
        lemma_ristretto_order();
    }

    proof fn lemma_value(&self) {
        lemma_ristretto_order();
    }

    fn zero() -> (r: Self) {
        let bytes = [0u8; 32];
        proof {
            lemma_ristretto_order();
            lemma_le_value_zero(bytes@);
            lemma_canonical(bytes@);
        }
        RistrettoScalar { bytes }
    }

    fn one() -> (r: Self) {
        Self::from_byte(1)
    }

    fn from_byte(byte: u8) -> (r: Self) {
        let mut bytes = [0u8; 32];
        bytes[0] = byte;
        proof {
            lemma_ristretto_order();
            lemma_le_value_low(bytes@);
            lemma_canonical(bytes@);
        }
        RistrettoScalar { bytes }
    }

    fn random() -> (r: Result<Self, VssError>) {
        match random_bytes() {
            Ok(bytes) => Ok(Self::from_bytes(bytes)),
            Err(_) => Err(VssError::RandomSource),
        }
    }

    fn plus(&self, rhs: &Self) -> (r: Self) {
        let bytes = scalar_add(&self.bytes, &rhs.bytes);
        proof {
            use_type_invariant(self);
            use_type_invariant(rhs);
            lemma_canonical(self.bytes@);
            lemma_canonical(rhs.bytes@);
            lemma_canonical(bytes@);
        }
        RistrettoScalar { bytes }
    }

    fn minus(&self, rhs: &Self) -> (r: Self) {
        let bytes = scalar_sub(&self.bytes, &rhs.bytes);
        proof {
            use_type_invariant(self);
            use_type_invariant(rhs);
            lemma_canonical(self.bytes@);
            lemma_canonical(rhs.bytes@);
            lemma_canonical(bytes@);
        }
        RistrettoScalar { bytes }
    }

    fn times(&self, rhs: &Self) -> (r: Self) {
        let bytes = scalar_mul(&self.bytes, &rhs.bytes);
        proof {
            use_type_invariant(self);
            use_type_invariant(rhs);
            lemma_canonical(self.bytes@);
            lemma_canonical(rhs.bytes@);
            lemma_canonical(bytes@);
        }
        RistrettoScalar { bytes }
    }

    fn invert(&self) -> (r: Self) {
        proof {
            use_type_invariant(self);
            lemma_canonical(self.bytes@);
        }
        let bytes = scalar_invert(&self.bytes);
        proof {
            lemma_canonical(bytes@);
        }
        RistrettoScalar { bytes }
    }

    fn is_zero(&self) -> (r: bool) {
        proof {
            use_type_invariant(self);
            lemma_canonical(self.bytes@);
            lemma_le_value_zero(self.bytes@);
        }
        all_zero(self.bytes.as_slice())
    }
}

impl RistrettoElement {
    /// The compressed encoding of the element.
    pub fn to_bytes(&self) -> (r: [u8; 32])
        ensures
            r@ == self.encoding(),
    {
        point_encode(&self.point)
    }
}

impl GroupElement<RistrettoScalar> for RistrettoElement {
    closed spec fn encoding(&self) -> Seq<u8> {
        ristretto_encoding(self.point)
    }

    open spec fn generated(k: int) -> Seq<u8> {
        ristretto_base_mul(k)
    }

    open spec fn scaled(p: Seq<u8>, k: int) -> Seq<u8> {
        ristretto_mul(p, k)
    }

    open spec fn summed(p: Seq<u8>, r: Seq<u8>) -> Seq<u8> {
        ristretto_add(p, r)
    }

    fn commit(k: &RistrettoScalar) -> (r: Self) {
        RistrettoElement { point: point_base_mul(&k.bytes) }
    }

    fn scale(&self, k: &RistrettoScalar) -> (r: Self) {
        RistrettoElement { point: point_mul(&self.point, &k.bytes) }
    }

    fn join(&self, other: &Self) -> (r: Self) {
        RistrettoElement { point: point_add(&self.point, &other.point) }
    }

    fn same(&self, other: &Self) -> (r: bool) {
        point_eq(&self.point, &other.point)
    }
}

/// The scalar that the magnitude of a big integer, given by its big-endian
/// bytes, reduces to.
pub fn from_bigint(magnitude: &[u8]) -> (r: RistrettoScalar)
    ensures
        r.value() == be_value(magnitude@) % ristretto_order(),
{
    engine::reduce_be_bytes(magnitude)
}

/// A scalar from thirty-two bytes of the operating system's random source,
/// reduced modulo the order. Only the random source can make it fail.
pub fn new_random() -> (r: Result<RistrettoScalar, VssError>)
    ensures
        r matches Err(e) ==> e == VssError::RandomSource,
{
    RistrettoScalar::random()
}

/// Feldman's verifiable secret sharing over the Ristretto group: any
/// `threshold` of the `share_amount` shares recover the secret.
#[derive(Clone, Copy, Debug)]
pub struct VerifiableSecretSharingRistretto {
    /// The number of shares that recover the secret.
    pub threshold: usize,
    /// The number of shares that are dealt.
    pub share_amount: usize,
}

impl VerifiableSecretSharingRistretto {
    /// A scheme with the given threshold and number of shares, where the
    /// threshold is at least one and at most the number of shares.
    pub fn new(threshold: usize, share_amount: usize) -> (r: Result<Self, VssError>)
        ensures
            match r {
                Ok(vss) => valid_config(threshold, share_amount) && vss.threshold == threshold
                    && vss.share_amount == share_amount,
                Err(e) => e == VssError::Configuration && !valid_config(threshold, share_amount),
            },
    {
        if threshold < 1 || threshold > share_amount {
            return Err(VssError::Configuration);
        }
        Ok(VerifiableSecretSharingRistretto { threshold, share_amount })
    }

    /// Splits the secret into `share_amount` shares and commits to the
    /// polynomial that shares it.
    pub fn split(&self, secret: &RistrettoScalar) -> (r: Result<
        (Vec<(usize, RistrettoScalar)>, Vec<RistrettoElement>),
        VssError,
    >)
        ensures
            engine::split_outcome(self.threshold, self.share_amount, *secret, r),
    {
        engine::split(self.threshold, self.share_amount, secret)
    }

    /// The dealing from a given polynomial, constant term first.
    pub fn deal(&self, polynomial: &[RistrettoScalar]) -> (r: Result<
        (Vec<(usize, RistrettoScalar)>, Vec<RistrettoElement>),
        VssError,
    >)
        ensures
            engine::deal_outcome(self.threshold, self.share_amount, polynomial@, r),
    {
        engine::deal(self.threshold, self.share_amount, polynomial)
    }

    /// Recovers the secret from exactly `threshold` shares.
    pub fn recover(&self, shares: &[(usize, RistrettoScalar)]) -> (r: Result<
        RistrettoScalar,
        VssError,
    >)
        ensures
            recover_outcome(self.threshold, self.share_amount, shares@, r),
            engine::recovers_constant_term(self.threshold, shares@, r),
    {
        engine::recover(self.threshold, self.share_amount, shares)
    }

    /// Whether the share matches the commitments.
    pub fn verify(&self, share: (usize, RistrettoScalar), commitments: &[RistrettoElement]) -> (r:
        Result<bool, VssError>)
        ensures
            verify_outcome(self.threshold, self.share_amount, share, commitments@, r),
            engine::decides_share(share, commitments@, r),
    {
        engine::verify(self.threshold, self.share_amount, share, commitments)
    }

    /// Whether every share matches the commitments.
    pub fn verify_all(
        &self,
        shares: &[(usize, RistrettoScalar)],
        commitments: &[RistrettoElement],
    ) -> (r: Result<bool, VssError>)
        ensures
            verify_all_outcome(self.threshold, self.share_amount, shares@, commitments@, r),
            engine::decides_shares(shares@, commitments@, r),
    {
        engine::verify_all(self.threshold, self.share_amount, shares, commitments)
    }

    /// One commitment per coefficient: the coefficient times the basepoint,
    /// which commits to that coefficient alone.
    pub fn generate_commitments(polynomial: &[RistrettoScalar]) -> (commitments: Vec<
        RistrettoElement,
    >)
        ensures
            commitments.len() == polynomial.len(),
            forall|i: int|
                0 <= i < polynomial.len() ==> (#[trigger] commitments[i]).encoding()
                    == ristretto_base_mul(polynomial[i].value()),
            forall|i: int|
                0 <= i < polynomial.len() ==> engine::binds_to::<RistrettoScalar, RistrettoElement>(
                    #[trigger] commitments[i],
                    polynomial[i].value(),
                ),
    {
        engine::generate_commitments(polynomial)
    }

    /// The secret followed by `threshold - 1` random coefficients.
    pub fn sample_polynomial(&self, secret: &RistrettoScalar) -> (r: Result<
        Vec<RistrettoScalar>,
        VssError,
    >)
        ensures
            engine::sample_outcome(self.threshold, *secret, r),
    {
        engine::sample_polynomial(self.threshold, secret)
    }

    /// The polynomial's values at the indices `1..=share_amount`.
    pub fn evaluate_polynomial(&self, polynomial: &[RistrettoScalar]) -> (shares: Vec<
        (usize, RistrettoScalar),
    >)
        ensures
            shares.len() == self.share_amount,
            forall|i: int|
                0 <= i < self.share_amount ==> (#[trigger] shares[i]).0 == i + 1
                    && shares[i].1.value() == poly_eval(scalar_values(polynomial@), i + 1)
                    % ristretto_order(),
    {
        engine::evaluate_polynomial(self.share_amount, polynomial)
    }

    /// The polynomial's value at the index `x`.
    pub fn mod_evaluate_at(&self, polynomial: &[RistrettoScalar], x: usize) -> (r:
        RistrettoScalar)
        ensures
            r.value() == poly_eval(scalar_values(polynomial@), x as int) % ristretto_order(),
    {
        engine::mod_evaluate_at(polynomial, x)
    }

    /// The value at `x` of the interpolant through the points
    /// `(xs[j], ys[j])`.
    pub fn lagrange_interpolation(
        &self,
        x: RistrettoScalar,
        xs: &[usize],
        ys: &[RistrettoScalar],
    ) -> (r: Result<RistrettoScalar, VssError>)
        requires
            xs.len() == ys.len(),
        ensures
            engine::interpolation_outcome(x, xs@, ys@, r),
            engine::interpolates_polynomials(x, xs@, ys@, r),
    {
        engine::lagrange_interpolation(x, xs, ys)
    }
}

} // verus!
