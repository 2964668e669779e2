//! The content digest of a payload.

use crate::ident::PayloadHash;
use vstd::prelude::*;

verus! {

/// The Blake2b digest of 256 bits of a byte string.
pub uninterp spec fn blake2_256_digest(data: Seq<u8>) -> Seq<u8>;

/// Calls `sp_runtime::traits::BlakeTwo256::hash`. Trusted: the 32 bytes that
/// come back are the Blake2b-256 digest of `data`, and depend on nothing else.
#[verifier::external_body]
fn blake_two_256(data: &Vec<u8>) -> (digest: [u8; 32])
    ensures
        digest@ == blake2_256_digest(data@),
{
    <sp_runtime::traits::BlakeTwo256 as sp_runtime::traits::Hash>::hash(data.as_slice()).0
}

/// The hash under which `bytes` are stored.
pub open spec fn payload_hash(bytes: Seq<u8>, h: PayloadHash) -> bool {
    h.raw@ == blake2_256_digest(bytes)
}

/// The content hash of `bytes`.
pub open spec fn digest_of(bytes: Seq<u8>) -> PayloadHash {
    choose|h: PayloadHash| payload_hash(bytes, h)
}

/// Computes the content hash of a payload.
pub fn hash_payload(bytes: &Vec<u8>) -> (h: PayloadHash)
    ensures
        payload_hash(bytes@, h),
        h == digest_of(bytes@),
{
    let h = PayloadHash { raw: blake_two_256(bytes) };
    proof {
        lemma_payload_hash_functional(bytes@, h, digest_of(bytes@));
    }
    h
}

/// Equal byte strings have equal hashes.
pub proof fn lemma_payload_hash_functional(bytes: Seq<u8>, h1: PayloadHash, h2: PayloadHash)
    requires
        payload_hash(bytes, h1),
        payload_hash(bytes, h2),
    ensures
        h1 == h2,
{
    assert(h1.raw =~= h2.raw);
}

} // verus!
