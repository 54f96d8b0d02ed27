//! The hash functions that addresses and message checksums are built from.
use vstd::prelude::*;

verus! {

/// The SHA-256 digest of `data`.
pub uninterp spec fn sha256(data: Seq<u8>) -> Seq<u8>;

/// The RIPEMD-160 digest of `data`.
pub uninterp spec fn ripemd160(data: Seq<u8>) -> Seq<u8>;

/// Calls `sha2::Sha256::digest`. The contract names the result `sha256` of
/// the input and states that a digest is 32 bytes long (its output type is an
/// array of 32 bytes).
#[verifier::external_body]
pub(crate) fn sha256_digest(data: &[u8]) -> (out: Vec<u8>)
    ensures
        out@ == sha256(data@),
        out@.len() == 32,
{
    <sha2::Sha256 as sha2::Digest>::digest(data).to_vec()
}

/// Calls `ripemd::Ripemd160::digest`. The contract names the result
/// `ripemd160` of the input and states that a digest is 20 bytes long (its
/// output type is an array of 20 bytes).
#[verifier::external_body]
pub(crate) fn ripemd160_digest(data: &[u8]) -> (out: Vec<u8>)
    ensures
        out@ == ripemd160(data@),
        out@.len() == 20,
{
    <ripemd::Ripemd160 as ripemd::Digest>::digest(data).to_vec()
}

/// SHA-256 applied twice, the checksum hash of Bitcoin.
pub open spec fn double_sha256_of(data: Seq<u8>) -> Seq<u8> {
    sha256(sha256(data))
}

/// The SHA-256 digest of the SHA-256 digest of `data`.
pub fn double_sha256(data: &[u8]) -> (out: Vec<u8>)
    ensures
        out@ == double_sha256_of(data@),
        out@.len() == 32,
{
    let first_hash = sha256_digest(data);
    sha256_digest(first_hash.as_slice())
}

/// The first four bytes of the double SHA-256 digest of `data`.
pub open spec fn checksum_of(data: Seq<u8>) -> Seq<u8> {
    double_sha256_of(data).subrange(0, 4)
}

} // verus!
