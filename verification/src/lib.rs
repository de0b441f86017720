//! Feldman verifiable secret sharing over groups of prime order.
//!
//! A dealer splits a secret scalar into `share_amount` shares of which any
//! `threshold` recover it, and publishes one commitment per coefficient of the
//! sharing polynomial, against which every holder can check a share.
//!
//! - [`engine`] holds the scheme, written once over the traits of [`group`];
//!   [`laws`] states what its contracts give together, and [`batch`] how a
//!   batch is checked in runs.
//! - [`ristretto`] and [`secp256k1`] are the two groups: the Ristretto group
//!   of curve25519-dalek and the group of secp256k1 of k256.
//! - [`polynomial`], [`lagrange`] and [`algebra`] hold the mathematics that
//!   the contracts speak of: polynomials over the integers, interpolation
//!   modulo `q`, and units modulo `q`; [`bytes`] reads byte strings as
//!   integers.
pub mod algebra;
pub mod batch;
pub mod bytes;
pub mod engine;
pub mod error;
pub mod group;
pub mod lagrange;
pub mod laws;
pub mod polynomial;
pub mod ristretto;
pub mod secp256k1;

pub use error::VssError;
pub use group::{FieldScalar, GroupElement};
pub use ristretto::{
    from_bigint, new_random, RistrettoElement, RistrettoScalar, VerifiableSecretSharingRistretto,
};
pub use secp256k1::{Secp256k1Point, Secp256k1Scalar, VerifiableSecretSharing};
