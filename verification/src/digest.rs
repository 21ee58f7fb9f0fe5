//! SHA-256 digests and their hexadecimal spelling.
use sha2::Digest;
use vstd::prelude::*;

verus! {

/// The SHA-256 digest of `data`.
pub uninterp spec fn sha256(data: Seq<u8>) -> [u8; 32];

/// The lower-case hexadecimal digit for a value below sixteen.
pub open spec fn hex_digit(value: int) -> char {
    if value < 10 {
        (value + '0' as int) as char
    } else {
        (value - 10 + 'a' as int) as char
    }
}

/// Two lower-case hexadecimal digits for each byte, high half first.
pub open spec fn hex_text(data: Seq<u8>) -> Seq<char> {
    Seq::new(
        2 * data.len(),
        |i: int|
            if i % 2 == 0 {
                hex_digit(data[i / 2] as int / 16)
            } else {
                hex_digit(data[i / 2] as int % 16)
            },
    )
}

/// The digest of `data` as it is written in manifests and references.
pub open spec fn sha256_text(data: Seq<u8>) -> Seq<char> {
    hex_text(sha256(data)@)
}

/// Calls `sha2::Sha256::digest`. Claimed of it: the result is a function of the
/// bytes alone, named `sha256` here. Nothing else is claimed of the algorithm.
#[verifier::external_body]
pub(crate) fn sha256_bytes(bytes: &[u8]) -> (digest: [u8; 32])
    ensures
        digest == sha256(bytes@),
{
    sha2::Sha256::digest(bytes).into()
}

/// Calls `hex::encode`. Claimed of it: each byte becomes two lower-case
/// hexadecimal digits, the high half first, in the order of the bytes.
#[verifier::external_body]
fn hex_encode(bytes: &[u8]) -> (text: String)
    ensures
        text@ == hex_text(bytes@),
{
    hex::encode(bytes)
}

/// The SHA-256 digest of `bytes`, in lower-case hexadecimal.
pub fn sha256_hex(bytes: &[u8]) -> (text: String)
    ensures
        text@ == sha256_text(bytes@),
{
    let digest = sha256_bytes(bytes);
    hex_encode(digest.as_slice())
}

} // verus!
