//! Content hashes of sampler configurations: the SHA-256 digest of the
//! configuration's JSON serialization.

use sha2::{Digest, Sha256};
use vstd::prelude::*;

verus! {

/// The SHA-256 digest of a byte string.
pub uninterp spec fn sha256(bytes: Seq<u8>) -> Seq<u8>;

/// Feeds `bytes` to a fresh `sha2::Sha256` and finalizes it. The digest
/// is a function of the bytes alone.
#[verifier::external_body]
fn sha256_of(bytes: &[u8]) -> (digest: [u8; 32])
    ensures
        digest@ == sha256(bytes@),
{
    let mut hasher = Sha256::new();
    hasher.update(bytes);
    hasher.finalize().into()
}

/// The hash that identifies a sampler configuration, from the JSON bytes
/// of that configuration.
pub fn config_hash(config_json: &[u8]) -> (hash: [u8; 32])
    ensures
        hash@ == sha256(config_json@),
{
    sha256_of(config_json)
}

} // verus!
