//! The CRC-32 that ends every snapshot file and seals every header slot.

use vstd::prelude::*;

verus! {

/// The CRC-32 (IEEE) that the `crc32fast` crate computes over a byte sequence.
pub uninterp spec fn crc32_of(bytes: Seq<u8>) -> u32;

/// Two byte sequences of one length that differ in exactly one byte.
pub open spec fn one_byte_apart(a: Seq<u8>, b: Seq<u8>) -> bool {
    &&& a.len() == b.len()
    &&& exists|i: int| #[trigger] apart_at(a, b, i)
}

/// Byte `i` differs, and no other does.
pub open spec fn apart_at(a: Seq<u8>, b: Seq<u8>, i: int) -> bool {
    &&& 0 <= i < a.len()
    &&& a[i] != b[i]
    &&& forall|k: int| 0 <= k < a.len() && k != i ==> a[k] == b[k]
}

/// `crc32fast::hash`: the checksum is a function of the bytes alone, and no other
/// sequence that is one byte apart has the same.
///
/// The second holds of every CRC-32. The state after a byte is
/// `table[(state ^ byte) & 0xff] ^ (state >> 8)`, and no two of the 256 table entries
/// share their top byte. So two states that differ, or two bytes that differ, lead to
/// states that differ, and once they differ, equal bytes keep them so.
#[verifier::external_body]
pub(crate) fn crc32(bytes: &[u8]) -> (crc: u32)
    ensures
        crc == crc32_of(bytes@),
        forall|other: Seq<u8>|
            one_byte_apart(bytes@, other) ==> #[trigger] crc32_of(other) != crc,
{
    crc32fast::hash(bytes)
}

} // verus!
