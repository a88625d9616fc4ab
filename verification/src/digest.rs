//! The SHA-256 digest of an artifact.
use crate::text::{hex, hex_text, lemma_hex_len};
use sha2::{Digest, Sha256};
use vstd::prelude::*;

verus! {

/// What `sha2::Sha256::digest` makes of bytes: their SHA-256 digest.
pub uninterp spec fn sha256(bytes: Seq<u8>) -> Seq<u8>;

/// `sha2::Sha256::digest` depends on the bytes alone and gives 32 bytes; which
/// bytes these are is left to its name.
#[verifier::external_body]
fn sha256_digest(bytes: &[u8]) -> (digest: Vec<u8>)
    ensures
        digest@ == sha256(bytes@),
        digest@.len() == 32,
{
    Sha256::digest(bytes).to_vec()
}

/// The digest of an artifact, as descriptors write it.
pub open spec fn fingerprint(bytes: Seq<u8>) -> Seq<char> {
    hex(sha256(bytes))
}

/// Computes the digest of an artifact, in hexadecimal.
pub fn sha256_hex(bytes: &[u8]) -> (text: String)
    ensures
        text@ == fingerprint(bytes@),
        text@.len() == 64,
{
    let digest: Vec<u8> = sha256_digest(bytes);
    proof {
        lemma_hex_len(digest@);
    }
    hex_text(digest.as_slice())
}

} // verus!
