//! Content hashing: the BLAKE2b-256 digest and the content-identifier
//! framing built on it.
//!
//! Content identifiers are CIDv1 byte strings: version 1, the DAG-CBOR
//! codec, and a BLAKE2b-256 multihash over the CBOR encoding of the
//! addressed value.

use vstd::prelude::*;

verus! {

/// The 32-byte BLAKE2b-256 digest of a byte string. The digest is a
/// function of the input bytes alone; its value is not modelled.
pub uninterp spec fn blake2b256_of(data: Seq<u8>) -> Seq<u8>;

/// Relies on blake2b_simd::Params::hash with a 32-byte output length:
/// the BLAKE2b-256 digest, a deterministic function of the input bytes.
#[verifier::external_body]
pub(crate) fn blake2b256(data: &Vec<u8>) -> (r: Vec<u8>)
    ensures
        r@ == blake2b256_of(data@),
        r@.len() == 32,
{
    blake2b_simd::Params::new().hash_length(32).hash(data.as_slice()).as_bytes().to_vec()
}

/// The six-byte prefix of a CIDv1 with the DAG-CBOR codec and a
/// BLAKE2b-256 multihash: version 1, codec 0x71, hash code 0xb220 as a
/// varint, digest length 32.
pub open spec fn cid_prefix() -> Seq<u8> {
    seq![0x01u8, 0x71u8, 0xa0u8, 0xe4u8, 0x02u8, 0x20u8]
}

/// A CIDv1 (DAG-CBOR, BLAKE2b-256) over the given encoded value.
pub open spec fn cid_of(encoded: Seq<u8>) -> Seq<u8> {
    cid_prefix() + blake2b256_of(encoded)
}

/// Computes the content identifier of an encoded value.
pub fn compute_cid(encoded: &Vec<u8>) -> (r: Vec<u8>)
    ensures
        r@ == cid_of(encoded@),
        r@.len() == 38,
{
    let mut r: Vec<u8> = Vec::new();
    r.push(0x01);
    r.push(0x71);
    r.push(0xa0);
    r.push(0xe4);
    r.push(0x02);
    r.push(0x20);
    let digest = blake2b256(encoded);
    let ghost pre = r@;
    r.extend_from_slice(digest.as_slice());
    proof {
        assert(pre =~= cid_prefix());
        assert(r@ =~= cid_of(encoded@));
    }
    r
}

} // verus!
