//! Content digests: BLAKE3 for artifacts and ledger nodes, SHA-256 for OCI blobs.
use vstd::prelude::*;
use crate::hexfmt::{append_hex, hex_text, lower_hex};
use sha2::Digest;

verus! {

/// The 32-byte BLAKE3 hash of `data`, as `blake3::hash` computes it.
pub uninterp spec fn blake3_digest(data: Seq<u8>) -> Seq<u8>;

/// The 32-byte SHA-256 hash of `data`, as `sha2::Sha256::digest` computes it.
pub uninterp spec fn sha256_digest(data: Seq<u8>) -> Seq<u8>;

/// The lower-case hexadecimal BLAKE3 hash of `data`: what `blake3::hash(data).to_hex()` prints.
pub open spec fn blake3_text(data: Seq<u8>) -> Seq<char> {
    hex_text(blake3_digest(data), false)
}

/// An OCI content digest: `sha256:` followed by the lower-case hexadecimal SHA-256 hash.
pub open spec fn sha256_text(data: Seq<u8>) -> Seq<char> {
    "sha256:"@ + hex_text(sha256_digest(data), false)
}

/// Calls `blake3::hash` and hands back the 32 bytes of the hash.
/// Claimed of the crate: the bytes are a function of `data` alone, and there are 32 of them.
#[verifier::external_body]
fn blake3_bytes(data: &[u8]) -> (res: Vec<u8>)
    ensures
        res@ == blake3_digest(data@),
        res@.len() == 32,
{
    blake3::hash(data).as_bytes().to_vec()
}

/// Calls `sha2::Sha256::digest` and hands back the 32 bytes of the hash.
/// Claimed of the crate: the bytes are a function of `data` alone, and there are 32 of them.
#[verifier::external_body]
fn sha256_bytes(data: &[u8]) -> (res: Vec<u8>)
    ensures
        res@ == sha256_digest(data@),
        res@.len() == 32,
{
    sha2::Sha256::digest(data).to_vec()
}

/// The lower-case hexadecimal BLAKE3 hash of `data`.
pub fn blake3_hex(data: &[u8]) -> (res: String)
    ensures
        res@ == blake3_text(data@),
{
    let digest = blake3_bytes(data);
    lower_hex(digest.as_slice())
}

/// The OCI digest `sha256:<hex>` of `data`.
pub fn sha256_hex(data: &[u8]) -> (res: String)
    ensures
        res@ == sha256_text(data@),
{
    let digest = sha256_bytes(data);
    let prefix = "sha256:".to_owned();
    append_hex(prefix, digest.as_slice(), false)
}

/// Where an image layout keeps the blob `data`: `blobs/sha256/` and the
/// lower-case hexadecimal SHA-256 hash.
pub open spec fn blob_path(data: Seq<u8>) -> Seq<char> {
    "blobs/sha256/"@ + hex_text(sha256_digest(data), false)
}

/// The path of the blob `data` within an image layout.
pub fn blob_path_of(data: &[u8]) -> (res: String)
    ensures
        res@ == blob_path(data@),
{
    let digest = sha256_bytes(data);
    append_hex("blobs/sha256/".to_owned(), digest.as_slice(), false)
}

} // verus!
