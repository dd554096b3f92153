//! SHA-256 digests of artifacts.

use sha2::{Digest, Sha256};
use vstd::prelude::*;

verus! {

/// The SHA-256 digest of some bytes, written in hexadecimal.
pub uninterp spec fn sha256_text(bytes: Seq<u8>) -> Seq<char>;

/// Whether a character is a hexadecimal digit in lower case.
pub open spec fn is_hex_digit(character: char) -> bool {
    ('0' <= character && character <= '9') || ('a' <= character && character <= 'f')
}

/// Calls `sha2::Sha256::digest` and writes its 32 bytes with `{:x}`, two digits
/// in lower case for each. The digest is a function of the bytes alone; what
/// that function is stays unsaid.
#[verifier::external_body]
pub(crate) fn sha256_hex(bytes: &[u8]) -> (text: String)
    ensures
        text@ == sha256_text(bytes@),
        text@.len() == 64,
        forall|i: int| 0 <= i < text@.len() ==> is_hex_digit(#[trigger] text@[i]),
{
    format!("{:x}", Sha256::digest(bytes))
}

/// Computes the digest of some bytes.
pub fn digest_text(bytes: &[u8]) -> (text: String)
    ensures
        text@ == sha256_text(bytes@),
        text@.len() == 64,
        forall|i: int| 0 <= i < text@.len() ==> is_hex_digit(#[trigger] text@[i]),
{
    sha256_hex(bytes)
}

} // verus!
