//! SHA-1, as the `sha1` crate computes it, and digests in hexadecimal, as
//! the `hex` crate writes them.

use sha1::Digest;
use vstd::prelude::*;

verus! {

/// The SHA-1 digest of `data`: 20 bytes that depend on `data` alone.
pub uninterp spec fn sha1_digest(data: Seq<u8>) -> Seq<u8>;

/// Hashes `data` with `sha1::Sha1::digest`.
///
/// Trusted: the result is taken to be the SHA-1 digest of the bytes, which is
/// all that [`sha1_digest`] stands for.
#[verifier::external_body]
pub(crate) fn sha1_of(data: &[u8]) -> (digest: [u8; 20])
    ensures
        digest@ == sha1_digest(data@),
{
    sha1::Sha1::digest(data).into()
}

/// The hexadecimal digit, in lower case, of a number below 16.
pub open spec fn hex_lower(n: int) -> char {
    if n < 10 {
        (48 + n) as u8 as char
    } else {
        (87 + n) as u8 as char
    }
}

/// `bytes` in hexadecimal: two lower-case digits for each byte, the high
/// half first.
pub open spec fn hex_text(bytes: Seq<u8>) -> Seq<char>
    decreases bytes.len(),
{
    if bytes.len() == 0 {
        Seq::empty()
    } else {
        hex_text(bytes.drop_last()) + seq![
            hex_lower(bytes.last() as int / 16),
            hex_lower(bytes.last() as int % 16),
        ]
    }
}

/// Writes `data` in hexadecimal with `hex::encode`.
///
/// Trusted: the text has two lower-case digits for each byte, in the order
/// of the bytes, the high half of a byte before its low half.
#[verifier::external_body]
pub(crate) fn hex_encode(data: &[u8]) -> (text: String)
    ensures
        text@ == hex_text(data@),
{
    hex::encode(data)
}

/// `data` in hexadecimal.
pub fn to_hex(data: &[u8]) -> (text: String)
    ensures
        text@ == hex_text(data@),
        text@.len() == 2 * data@.len(),
{
    proof {
        lemma_hex_text_len(data@);
    }
    hex_encode(data)
}

/// Hexadecimal takes two characters for each byte.
pub proof fn lemma_hex_text_len(bytes: Seq<u8>)
    ensures
        hex_text(bytes).len() == 2 * bytes.len(),
    decreases bytes.len(),
{
    if bytes.len() > 0 {
        lemma_hex_text_len(bytes.drop_last());
    }
}

} // verus!
