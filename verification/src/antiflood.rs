//! Proof of work: the token that makes an update costly to produce.
//!
//! A token holds a nonce whose SHA-256 digest starts with as many zero bits
//! as its difficulty asks for.

use vstd::prelude::*;

use crate::hashing::{sha256, sha256_digest};
use crate::scoring::{bit_length, bits_of, lemma_bit_length_bound};
use crate::types::AntifloodToken;

verus! {

/// The number of zero bits before the first one bit of a byte: 8 for 0.
pub open spec fn byte_leading_zeros(b: u8) -> nat {
    (8 - bit_length(b as nat)) as nat
}

/// The number of zero bits that a byte string starts with.
pub open spec fn leading_zero_bits(bytes: Seq<u8>) -> nat
    decreases bytes.len(),
{
    if bytes.len() == 0 {
        0
    } else if bytes[0] == 0 {
        8 + leading_zero_bits(bytes.drop_first())
    } else {
        byte_leading_zeros(bytes[0])
    }
}

/// The eight bytes of a number, least significant first.
pub open spec fn le_bytes_u64(v: u64) -> Seq<u8> {
    seq![
        (v % 256) as u8,
        ((v / 256) % 256) as u8,
        ((v / 65536) % 256) as u8,
        ((v / 16777216) % 256) as u8,
        ((v / 4294967296) % 256) as u8,
        ((v / 1099511627776) % 256) as u8,
        ((v / 281474976710656) % 256) as u8,
        ((v / 72057594037927936) % 256) as u8,
    ]
}

/// Whether a nonce is proof of the work that a difficulty asks for.
pub open spec fn proves_work(nonce: Seq<u8>, difficulty: u8) -> bool {
    leading_zero_bits(sha256(nonce)) >= difficulty
}

/// Counts the zero bits that a digest starts with.
pub fn count_leading_zero_bits(hash: &[u8; 32]) -> (count: u16)
    ensures
        count == leading_zero_bits(hash@),
        count <= 256,
{
    let mut count: u16 = 0;
    let mut i: usize = 0;
    assert(hash@.skip(0) =~= hash@);
    while i < 32
        invariant
            i <= 32,
            count == 8 * i,
            leading_zero_bits(hash@) == count + leading_zero_bits(hash@.skip(i as int)),
        decreases 32 - i,
    {
        let byte: u8 = hash[i];
        proof {
            let rest = hash@.skip(i as int);
            assert(rest[0] == byte);
            assert(rest.drop_first() =~= hash@.skip(i + 1));
        }
        if byte == 0 {
            count += 8;
        } else {
            let bits: u64 = bits_of(byte as u64);
            proof {
                vstd::arithmetic::power2::lemma2_to64();
                lemma_bit_length_bound(byte as nat, 8);
            }
            return count + (8 - bits as u16);
        }
        i += 1;
    }
    assert(hash@.skip(32) =~= Seq::<u8>::empty());
    count
}

fn nonce_bytes(nonce: u64) -> (bytes: Vec<u8>)
    ensures
        bytes@ == le_bytes_u64(nonce),
{
    let mut bytes: Vec<u8> = Vec::new();
    bytes.push((nonce % 256) as u8);
    bytes.push(((nonce / 256) % 256) as u8);
    bytes.push(((nonce / 65536) % 256) as u8);
    bytes.push(((nonce / 16777216) % 256) as u8);
    bytes.push(((nonce / 4294967296) % 256) as u8);
    bytes.push(((nonce / 1099511627776) % 256) as u8);
    bytes.push(((nonce / 281474976710656) % 256) as u8);
    bytes.push(((nonce / 72057594037927936) % 256) as u8);
    assert(bytes@ =~= le_bytes_u64(nonce));
    bytes
}

/// Checks whether a nonce is proof of the work that a difficulty asks for.
pub fn is_proof_of_work(nonce: &[u8], difficulty: u8) -> (proved: bool)
    ensures
        proved == proves_work(nonce@, difficulty),
{
    let digest = sha256_digest(nonce);
    count_leading_zero_bits(&digest) >= difficulty as u16
}

/// Searches for a token of the given difficulty: tries the numbers from 0
/// upwards as nonces of eight bytes and returns the first that is proof of
/// the work. There is no token where no number below the largest is.
pub fn generate_antiflood_token(difficulty: u8) -> (token: Option<AntifloodToken>)
    ensures
        token is Some ==> token->0.difficulty == difficulty && proves_work(
            token->0.nonce@,
            difficulty,
        ) && exists|n: u64| #[trigger]
            le_bytes_u64(n) == token->0.nonce@ && forall|m: u64|
                m < n ==> !proves_work(#[trigger] le_bytes_u64(m), difficulty),
        token is None ==> forall|m: u64|
            m < u64::MAX ==> !proves_work(#[trigger] le_bytes_u64(m), difficulty),
{
    let mut nonce: u64 = 0;
    while nonce < u64::MAX
        invariant
            forall|m: u64| m < nonce ==> !proves_work(#[trigger] le_bytes_u64(m), difficulty),
        decreases u64::MAX - nonce,
    {
        let bytes = nonce_bytes(nonce);
        if is_proof_of_work(bytes.as_slice(), difficulty) {
            assert(le_bytes_u64(nonce) == bytes@);
            return Some(AntifloodToken { nonce: bytes, difficulty });
        }
        nonce += 1;
    }
    None
}

} // verus!
