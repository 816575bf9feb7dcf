//! The outside hash functions that the library calls, each behind one
//! wrapper whose contract names its result.
use vstd::prelude::*;

verus! {

/// What BLAKE3 with its default 32-byte output gives for `data`.
pub uninterp spec fn spec_blake3(data: Seq<u8>) -> Seq<u8>;

/// The first 64 bytes of the BLAKE3 extendable output for `data`.
pub uninterp spec fn spec_blake3_xof64(data: Seq<u8>) -> Seq<u8>;

/// What SHA3-256 gives for `data`.
pub uninterp spec fn spec_sha3_256(data: Seq<u8>) -> Seq<u8>;

/// What SHA-512 gives for `data`.
pub uninterp spec fn spec_sha512(data: Seq<u8>) -> Seq<u8>;

/// Calls `blake3::hash`. Claimed: the 32 bytes returned are BLAKE3 of `data`,
/// a function of `data` alone.
#[verifier::external_body]
pub(crate) fn blake3_bytes(data: &[u8]) -> (r: [u8; 32])
    ensures
        r@ == spec_blake3(data@),
{
    *blake3::hash(data).as_bytes()
}

/// Feeds `data` to a fresh `blake3::Hasher` and fills 64 bytes from its
/// `finalize_xof` reader. Claimed: the 64 bytes are a function of `data` alone.
#[verifier::external_body]
pub(crate) fn blake3_xof64(data: &[u8]) -> (r: [u8; 64])
    ensures
        r@ == spec_blake3_xof64(data@),
{
    let mut out = [0u8; 64];
    let mut hasher = blake3::Hasher::new();
    hasher.update(data);
    hasher.finalize_xof().fill(&mut out);
    out
}

/// Calls `<sha3::Sha3_256 as Digest>::digest`. Claimed: the 32 bytes are
/// SHA3-256 of `data`, a function of `data` alone.
#[verifier::external_body]
pub(crate) fn sha3_256(data: &[u8]) -> (r: [u8; 32])
    ensures
        r@ == spec_sha3_256(data@),
{
    <sha3::Sha3_256 as sha3::Digest>::digest(data).into()
}

/// Calls `<sha2::Sha512 as Digest>::digest`. Claimed: the 64 bytes are
/// SHA-512 of `data`, a function of `data` alone.
#[verifier::external_body]
pub(crate) fn sha512(data: &[u8]) -> (r: [u8; 64])
    ensures
        r@ == spec_sha512(data@),
{
    <sha2::Sha512 as sha2::Digest>::digest(data).into()
}

} // verus!
