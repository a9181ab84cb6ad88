use vstd::prelude::*;
use sha1::Digest;
use crate::model::ShaHash;

verus! {

/// The SHA-1 digest of a byte string (FIPS 180-4), as computed by the
/// `sha1` crate.
pub uninterp spec fn sha1_digest(data: Seq<u8>) -> Seq<u8>;

/// Calls `sha1::Sha1` (`new`, `update`, `finalize`) on `data`.
/// Claimed: the twenty bytes returned are the SHA-1 digest of `data`,
/// a function of the bytes alone.
#[verifier::external_body]
fn sha1_of(data: &[u8]) -> (digest: [u8; 20])
    ensures
        digest@ == sha1_digest(data@),
{
    let mut hasher = sha1::Sha1::new();
    hasher.update(data);
    hasher.finalize().into()
}

/// Whether `data` hashes to the digest `expected`.
pub fn check_hash(data: &Vec<u8>, expected: &ShaHash) -> (ok: bool)
    ensures
        ok == (sha1_digest(data@) == expected@),
{
    let digest = ShaHash::new(sha1_of(data.as_slice()));
    digest.same_as(expected)
}

} // verus!
