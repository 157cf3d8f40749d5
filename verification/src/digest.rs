//! The SHA-1 digest of data, as hexadecimal text.

use vstd::prelude::*;
use sha1::{Digest, Sha1};

verus! {

/// The SHA-1 digest of `data`, as the `sha1` crate computes it.
pub uninterp spec fn sha1_of(data: Seq<u8>) -> Seq<u8>;

/// The digit for `n`, which is below 16: `0` to `9`, then `a` to `f`.
pub open spec fn hex_digit(n: int) -> char {
    if n < 10 {
        ('0' as int + n) as char
    } else {
        ('a' as int + n - 10) as char
    }
}

/// The bytes as hexadecimal text: two digits for each byte, the high half
/// first, letters small.
pub open spec fn hex_text(bytes: Seq<u8>) -> Seq<char>
    decreases bytes.len(),
{
    if bytes.len() == 0 {
        Seq::empty()
    } else {
        hex_text(bytes.drop_last()) + seq![
            hex_digit(bytes.last() as int / 16),
            hex_digit(bytes.last() as int % 16),
        ]
    }
}

/// `Sha1::digest` of the `sha1` crate, which hashes the data in one go.
/// Trusted: the result is the digest of these bytes, the same for the same
/// bytes wherever it is computed.
#[verifier::external_body]
fn sha1_digest(data: &[u8]) -> (digest: Vec<u8>)
    ensures
        digest@ == sha1_of(data@),
{
    Sha1::digest(data).to_vec()
}

/// `hex::encode` of the `hex` crate. Trusted: the result holds two
/// hexadecimal digits for each byte, in the order of the bytes, the high half
/// of a byte first, with small letters.
#[verifier::external_body]
fn hex_encode(bytes: &[u8]) -> (text: String)
    ensures
        text@ == hex_text(bytes@),
{
    hex::encode(bytes)
}

/// A digest as hexadecimal text.
pub fn digest_text(digest: &[u8]) -> (text: String)
    ensures
        text@ == hex_text(digest@),
{
    hex_encode(digest)
}

/// The SHA-1 digest of `data` as hexadecimal text.
pub fn sha1_hex(data: &[u8]) -> (text: String)
    ensures
        text@ == hex_text(sha1_of(data@)),
{
    let digest = sha1_digest(data);
    digest_text(digest.as_slice())
}

/// Hexadecimal text is twice as long as the bytes.
pub proof fn lemma_hex_text_len(bytes: Seq<u8>)
    ensures
        hex_text(bytes).len() == 2 * bytes.len(),
    decreases bytes.len(),
{
    if bytes.len() > 0 {
        lemma_hex_text_len(bytes.drop_last());
    }
}

} // verus!
