//! Fingerprints: the digest of a variant's metadata and the shard of a term.

use sha2::Digest;
use sha2::Sha256;
use vstd::prelude::*;
use vstd::string::StringSliceAdditionalSpecFns;

use crate::bytes::{be_bytes_u64, be_u32, push_be_u64, push_bytes, read_be_u32};

verus! {

/// The SHA-256 digest of a byte string.
pub uninterp spec fn sha256(data: Seq<u8>) -> Seq<u8>;

/// Calls `Sha256::digest` of the `sha2` crate: the result is the SHA-256
/// digest of `data`, a function of the bytes alone.
#[verifier::external_body]
pub(crate) fn sha256_digest(data: &[u8]) -> (digest: [u8; 32])
    ensures
        digest@ == sha256(data@),
{
    Sha256::digest(data).into()
}

/// The bytes that are hashed for a variant: each field behind its byte length
/// as a big-endian 64-bit number, so that no two splits of the same text agree.
pub open spec fn metadata_preimage(title: Seq<u8>, description: Seq<u8>, snippet: Seq<u8>) -> Seq<
    u8,
> {
    be_bytes_u64(title.len() as u64) + title + be_bytes_u64(description.len() as u64) + description
        + be_bytes_u64(snippet.len() as u64) + snippet
}

/// The digest that identifies the variant with these three texts.
pub open spec fn metadata_digest(title: Seq<u8>, description: Seq<u8>, snippet: Seq<u8>) -> Seq<u8> {
    sha256(metadata_preimage(title, description, snippet))
}

/// The shard, out of `shard_count`, that a digest assigns: its first four
/// bytes, read big-endian, modulo the number of shards.
pub open spec fn shard_of_digest(digest: Seq<u8>, shard_count: u8) -> u8
    recommends
        shard_count > 0,
        digest.len() >= 4,
{
    (be_u32(digest) % (shard_count as u32)) as u8
}

/// The shard, out of `shard_count`, that the term with these bytes belongs to.
pub open spec fn shard_of(word: Seq<u8>, shard_count: u8) -> u8
    recommends
        shard_count > 0,
{
    shard_of_digest(sha256(word), shard_count)
}

/// Computes the metadata hash of a variant: SHA-256 over the three
/// length-prefixed fields.
pub fn metadata_hash(title: &str, description: &str, snippet: &str) -> (hash: [u8; 32])
    ensures
        hash@ == metadata_digest(
            title.spec_bytes(),
            description.spec_bytes(),
            snippet.spec_bytes(),
        ),
{
    let title = title.as_bytes();
    let description = description.as_bytes();
    let snippet = snippet.as_bytes();
    let mut buf: Vec<u8> = Vec::new();
    push_be_u64(&mut buf, title.len() as u64);
    push_bytes(&mut buf, title);
    push_be_u64(&mut buf, description.len() as u64);
    push_bytes(&mut buf, description);
    push_be_u64(&mut buf, snippet.len() as u64);
    push_bytes(&mut buf, snippet);
    assert(buf@ =~= metadata_preimage(title@, description@, snippet@));
    sha256_digest(buf.as_slice())
}

/// Determines the shard that a digest assigns.
pub fn shard_from_digest(digest: &[u8; 32], shard_count: u8) -> (shard: u8)
    requires
        shard_count > 0,
    ensures
        shard == shard_of_digest(digest@, shard_count),
        shard < shard_count,
{
    let val: u32 = read_be_u32(digest.as_slice(), 0);
    assert(digest@.subrange(0, 4).len() == 4);
    assert(be_u32(digest@.subrange(0, 4)) == be_u32(digest@));
    (val % (shard_count as u32)) as u8
}

/// Determines which of `shard_count` shards a word belongs to.
pub fn shard_for_word(word: &str, shard_count: u8) -> (shard: u8)
    requires
        shard_count > 0,
    ensures
        shard == shard_of(word.spec_bytes(), shard_count),
        shard < shard_count,
{
    let digest = sha256_digest(word.as_bytes());
    shard_from_digest(&digest, shard_count)
}

} // verus!
