//! Byte strings as integers, in both byte orders.
use vstd::prelude::*;

verus! {

/// The error of the random source.
#[verifier::external_type_specification]
#[verifier::external_body]
pub struct ExRandError(rand::Error);

/// The integer that the bytes encode, least significant byte first.
pub open spec fn le_value(bytes: Seq<u8>) -> int
    decreases bytes.len(),
{
    if bytes.len() == 0 {
        0
    } else {
        bytes[0] as int + 256 * le_value(bytes.skip(1))
    }
}

/// The integer that the bytes encode, most significant byte first.
pub open spec fn be_value(bytes: Seq<u8>) -> int
    decreases bytes.len(),
{
    if bytes.len() == 0 {
        0
    } else {
        256 * be_value(bytes.drop_last()) + bytes.last() as int
    }
}

/// Every byte is zero.
pub open spec fn zero_bytes(bytes: Seq<u8>) -> bool {
    forall|i: int| 0 <= i < bytes.len() ==> bytes[i] == 0
}

/// A little-endian value is no less than its lowest byte, and is zero only
/// for zero bytes.
pub proof fn lemma_le_value_zero(bytes: Seq<u8>)
    ensures
        le_value(bytes) >= 0,
        bytes.len() > 0 ==> le_value(bytes) >= bytes[0],
        le_value(bytes) == 0 <==> zero_bytes(bytes),
    decreases bytes.len(),
{
    if bytes.len() > 0 {
        let rest = bytes.skip(1);
        lemma_le_value_zero(rest);
        if zero_bytes(bytes) {
            assert forall|i: int| 0 <= i < rest.len() implies rest[i] == 0 by {
                assert(rest[i] == bytes[i + 1]);
            }
        }
        if le_value(bytes) == 0 {
            assert forall|i: int| 0 <= i < bytes.len() implies bytes[i] == 0 by {
                if i > 0 {
                    assert(rest[i - 1] == bytes[i]);
                }
            }
        }
    }
}

/// A big-endian value is no less than its last byte, and is zero only for
/// zero bytes.
pub proof fn lemma_be_value_zero(bytes: Seq<u8>)
    ensures
        be_value(bytes) >= 0,
        bytes.len() > 0 ==> be_value(bytes) >= bytes.last(),
        be_value(bytes) == 0 <==> zero_bytes(bytes),
    decreases bytes.len(),
{
    if bytes.len() > 0 {
        let rest = bytes.drop_last();
        lemma_be_value_zero(rest);
        if zero_bytes(bytes) {
            assert forall|i: int| 0 <= i < rest.len() implies rest[i] == 0 by {
                assert(rest[i] == bytes[i]);
            }
        }
        if be_value(bytes) == 0 {
            assert forall|i: int| 0 <= i < bytes.len() implies bytes[i] == 0 by {
                if i < rest.len() {
                    assert(rest[i] == bytes[i]);
                }
            }
        }
    }
}

/// Byte strings of one length with one little-endian value are the same.
pub proof fn lemma_le_value_injective(a: Seq<u8>, b: Seq<u8>)
    requires
        a.len() == b.len(),
        le_value(a) == le_value(b),
    ensures
        a == b,
    decreases a.len(),
{
    if a.len() > 0 {
        lemma_le_value_injective(a.skip(1), b.skip(1));
        assert(a =~= seq![a[0]] + a.skip(1));
        assert(b =~= seq![b[0]] + b.skip(1));
    }
}

/// Byte strings of one length with one big-endian value are the same.
pub proof fn lemma_be_value_injective(a: Seq<u8>, b: Seq<u8>)
    requires
        a.len() == b.len(),
        be_value(a) == be_value(b),
    ensures
        a == b,
    decreases a.len(),
{
    if a.len() > 0 {
        lemma_be_value_injective(a.drop_last(), b.drop_last());
        assert(a =~= a.drop_last().push(a.last()));
        assert(b =~= b.drop_last().push(b.last()));
    }
}

/// Where only the two lowest bytes may be set, they are the value.
pub proof fn lemma_le_value_low(bytes: Seq<u8>)
    requires
        bytes.len() >= 2,
        zero_bytes(bytes.skip(2)),
    ensures
        le_value(bytes) == bytes[0] + 256 * bytes[1],
{
    let rest = bytes.skip(1);
    assert(rest.skip(1) =~= bytes.skip(2));
    lemma_le_value_zero(bytes.skip(2));
    assert(le_value(rest) == rest[0] + 256 * le_value(rest.skip(1)));
}

/// Where only the two last bytes may be set, they are the value.
pub proof fn lemma_be_value_low(bytes: Seq<u8>)
    requires
        bytes.len() >= 2,
        zero_bytes(bytes.take(bytes.len() - 2)),
    ensures
        be_value(bytes) == bytes[bytes.len() - 1] + 256 * bytes[bytes.len() - 2],
{
    let rest = bytes.drop_last();
    assert(rest.drop_last() =~= bytes.take(bytes.len() - 2));
    lemma_be_value_zero(bytes.take(bytes.len() - 2));
    assert(be_value(rest) == 256 * be_value(rest.drop_last()) + rest.last());
}

/// The index in big-endian bytes.
///
/// Calls `BigInt::from` and `BigInt::to_bytes_be` of num-bigint-dig and keeps
/// the bytes: they are the big-endian representation of the magnitude, which
/// for an unsigned index is the index.
#[verifier::external_body]
pub(crate) fn index_be_bytes(index: usize) -> (bytes: Vec<u8>)
    ensures
        be_value(bytes@) == index as int,
{
    num_bigint_dig::BigInt::from(index).to_bytes_be().1
}

/// Thirty-two bytes from the random source of the operating system, or
/// its error.
///
/// Calls `RngCore::try_fill_bytes` of `rand::rngs::OsRng`, which hands the
/// source's failure back as an error. Nothing is claimed of the bytes.
#[verifier::external_body]
pub(crate) fn random_bytes() -> (r: Result<[u8; 32], rand::Error>) {
    let mut bytes = [0u8; 32];
    match rand::RngCore::try_fill_bytes(&mut rand::rngs::OsRng, &mut bytes) {
        Ok(()) => Ok(bytes),
        Err(e) => Err(e),
    }
}

/// Whether every byte is zero.
pub fn all_zero(bytes: &[u8]) -> (r: bool)
    ensures
        r == zero_bytes(bytes@),
{
    let mut i: usize = 0;
    while i < bytes.len()
        invariant
            i <= bytes.len(),
            forall|k: int| 0 <= k < i ==> bytes[k] == 0,
        decreases bytes.len() - i,
    {
        if bytes[i] != 0 {
            return false;
        }
        i += 1;
    }
    true
}

/// Whether two byte strings are the same.
pub fn same_bytes(a: &[u8], b: &[u8]) -> (r: bool)
    ensures
        r == (a@ == b@),
{
    if a.len() != b.len() {
        return false;
    }
    let mut i: usize = 0;
    while i < a.len()
        invariant
            i <= a.len(),
            a.len() == b.len(),
            forall|k: int| 0 <= k < i ==> a[k] == b[k],
        decreases a.len() - i,
    {
        if a[i] != b[i] {
            return false;
        }
        i += 1;
    }
    assert(a@ =~= b@);
    true
}

} // verus!
