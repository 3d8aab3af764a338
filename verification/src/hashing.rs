//! Content hashing for the object store.
//!
//! Every object is addressed by the lowercase hexadecimal digest of a
//! collision-resistant 256-bit hash of its raw bytes.

use sha2::Digest;
use vstd::prelude::*;

verus! {

/// The hex digest that the content hash assigns to a byte sequence.
///
/// The digest is a pure function of the bytes alone; its value is not
/// axiomatized beyond what `hash_bytes` states.
pub uninterp spec fn sha256_hex_of(bytes: Seq<u8>) -> Seq<char>;

/// True for the sixteen lowercase hexadecimal digit characters.
pub open spec fn is_hex_digit(c: char) -> bool {
    ('0' <= c && c <= '9') || ('a' <= c && c <= 'f')
}

/// Relies on sha2::Sha256 and its `LowerHex` rendering: the digest of a byte
/// sequence is 32 bytes, shown as 64 lowercase hexadecimal digits, and
/// depends on the input bytes alone.
#[verifier::external_body]
pub(crate) fn hash_bytes(content: &[u8]) -> (r: String)
    ensures
        r@ == sha256_hex_of(content@),
        r@.len() == 64,
        forall|i: int| 0 <= i < r@.len() ==> is_hex_digit(#[trigger] r@[i]),
{
    let mut hasher = sha2::Sha256::new();
    hasher.update(content);
    format!("{:x}", hasher.finalize())
}

} // verus!
