//! What the scheme asks of a group of prime order: a scalar field and
//! elements generated by one fixed generator.
use crate::algebra::is_inverse;
use crate::error::VssError;
use vstd::prelude::*;

verus! {

/// An element of the field of integers modulo the group's order.
pub trait FieldScalar: Sized + Copy {
    /// The order of the group, a prime.
    spec fn order() -> int;

    /// The scalar as an integer.
    spec fn value(&self) -> int;

    /// The order exceeds every index that a share can carry.
    proof fn lemma_order()
        ensures
            Self::order() > usize::MAX,
    ;

    /// A scalar's value is reduced.
    proof fn lemma_value(&self)
        ensures
            0 <= self.value() < Self::order(),
    ;

    /// The scalar zero.
    fn zero() -> (r: Self)
        ensures
            r.value() == 0,
    ;

    /// The scalar one.
    fn one() -> (r: Self)
        ensures
            r.value() == 1,
    ;

    /// The scalar of a number below 256.
    fn from_byte(byte: u8) -> (r: Self)
        ensures
            r.value() == byte as int,
    ;

    /// A scalar drawn from the random source of the operating system. Only the
    /// source can make it fail.
    fn random() -> (r: Result<Self, VssError>)
        ensures
            r matches Err(e) ==> e == VssError::RandomSource,
    ;

    /// The sum, modulo the order.
    fn plus(&self, rhs: &Self) -> (r: Self)
        ensures
            r.value() == (self.value() + rhs.value()) % Self::order(),
    ;

    /// The difference, modulo the order.
    fn minus(&self, rhs: &Self) -> (r: Self)
        ensures
            r.value() == (self.value() - rhs.value()) % Self::order(),
    ;

    /// The product, modulo the order. The order being prime, it is zero only
    /// where a factor is.
    fn times(&self, rhs: &Self) -> (r: Self)
        ensures
            r.value() == (self.value() * rhs.value()) % Self::order(),
            self.value() != 0 && rhs.value() != 0 ==> r.value() != 0,
    ;

    /// The inverse of a scalar other than zero.
    fn invert(&self) -> (r: Self)
        requires
            self.value() != 0,
        ensures
            is_inverse(self.value(), r.value(), Self::order()),
    ;

    /// Whether the scalar is zero.
    fn is_zero(&self) -> (r: bool)
        ensures
            r == (self.value() == 0),
    ;
}

/// An element of the group, known to contracts by its canonical encoding.
///
/// What the group's operations return is named, not computed: `generated(k)`
/// is the encoding of `k` times the generator, `scaled(p, k)` that of `k`
/// times the element encoded by `p`, `summed(p, r)` that of the sum of two
/// elements.
pub trait GroupElement<S: FieldScalar>: Sized + Copy {
    /// The canonical encoding of the element.
    spec fn encoding(&self) -> Seq<u8>;

    /// The encoding of `k` times the generator.
    spec fn generated(k: int) -> Seq<u8>;

    /// The encoding of `k` times the element encoded by `p`.
    spec fn scaled(p: Seq<u8>, k: int) -> Seq<u8>;

    /// The encoding of the sum of the elements encoded by `p` and `r`.
    spec fn summed(p: Seq<u8>, r: Seq<u8>) -> Seq<u8>;

    /// `k` times the generator. No other scalar gives the same element.
    fn commit(k: &S) -> (r: Self)
        ensures
            r.encoding() == Self::generated(k.value()),
            forall|j: int|
                0 <= j < S::order() && #[trigger] Self::generated(j) == r.encoding() ==> j
                    == k.value(),
    ;

    /// `k` times this element. Of a multiple of the generator it is the
    /// multiple by the product.
    fn scale(&self, k: &S) -> (r: Self)
        ensures
            r.encoding() == Self::scaled(self.encoding(), k.value()),
            forall|a: int|
                0 <= a < S::order() && self.encoding() == #[trigger] Self::generated(a)
                    ==> r.encoding() == Self::generated((a * k.value()) % S::order()),
    ;

    /// The sum of two elements. Of two multiples of the generator it is the
    /// multiple by the sum.
    fn join(&self, other: &Self) -> (r: Self)
        ensures
            r.encoding() == Self::summed(self.encoding(), other.encoding()),
            forall|a: int, b: int|
                0 <= a < S::order() && 0 <= b < S::order() && self.encoding()
                    == #[trigger] Self::generated(a) && other.encoding()
                    == #[trigger] Self::generated(b) ==> r.encoding() == Self::generated(
                    (a + b) % S::order(),
                ),
    ;

    /// Whether two elements are the same: whether their encodings are.
    fn same(&self, other: &Self) -> (r: bool)
        ensures
            r == (self.encoding() == other.encoding()),
    ;
}

} // verus!
