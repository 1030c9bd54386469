use sha2::{Digest, Sha256};
use vstd::prelude::*;

verus! {

/// The SHA-256 digest of `data`, as `sha2::Sha256` computes it.
pub uninterp spec fn sha256_digest(data: Seq<u8>) -> Seq<u8>;

/// `sha2::Sha256::digest`: one SHA-256 pass over `data`. Trusted to be a function of
/// the bytes of `data` alone; nothing else is claimed of the digest.
#[verifier::external_body]
fn sha256(data: &[u8]) -> (digest: [u8; 32])
    ensures
        digest@ == sha256_digest(data@),
{
    Sha256::digest(data).into()
}

/// Double SHA-256 of `data`, as Bitcoin hashes headers.
pub open spec fn double_sha256_spec(data: Seq<u8>) -> Seq<u8> {
    sha256_digest(sha256_digest(data))
}

/// Computes the double SHA-256 hash of the input data.
/// This is the standard hashing algorithm used in Bitcoin (dSHA256).
/// Returns a 32-byte array.
pub fn double_sha256(data: &[u8]) -> (hash: [u8; 32])
    ensures
        hash@ == double_sha256_spec(data@),
{
    let first = sha256(data);
    sha256(first.as_slice())
}

} // verus!
