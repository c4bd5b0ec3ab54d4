//! How numbers and texts stand in bytes.

use vstd::prelude::*;

verus! {

/// A number of two bytes, the lowest byte first.
#[verifier::inline]
pub open spec fn le16(x: u16) -> Seq<u8> {
    vstd::bytes::spec_u16_to_le_bytes(x)
}

/// A number of four bytes, the lowest byte first.
#[verifier::inline]
pub open spec fn le32(x: u32) -> Seq<u8> {
    vstd::bytes::spec_u32_to_le_bytes(x)
}

/// A number of eight bytes, the lowest byte first.
#[verifier::inline]
pub open spec fn le64(x: u64) -> Seq<u8> {
    vstd::bytes::spec_u64_to_le_bytes(x)
}

/// A text in UTF-8.
#[verifier::inline]
pub open spec fn utf8(text: Seq<char>) -> Seq<u8> {
    vstd::utf8::encode_utf8(text)
}

/// The bytes of a number tell the number.
pub proof fn lemma_le16_tells(x: u16, y: u16)
    ensures
        le16(x) == le16(y) ==> x == y,
        le16(x).len() == 2,
{
    vstd::bytes::lemma_auto_spec_u16_to_from_le_bytes();
    assert(le16(x).len() == 2 && le16(y).len() == 2);
}

/// The bytes of a number tell the number.
pub proof fn lemma_le64_tells(x: u64, y: u64)
    ensures
        le64(x) == le64(y) ==> x == y,
        le64(x).len() == 8,
{
    vstd::bytes::lemma_auto_spec_u64_to_from_le_bytes();
    assert(le64(x).len() == 8 && le64(y).len() == 8);
}

} // verus!
