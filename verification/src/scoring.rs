//! Scores in integer arithmetic, scaled by 10000.

use vstd::arithmetic::power2::{lemma2_to64, lemma_pow2_unfold, pow2};
use vstd::prelude::*;

use crate::types::Status;

verus! {

/// The number of binary digits of a number: 0 for 0.
pub open spec fn bit_length(x: nat) -> nat
    decreases x,
{
    if x == 0 {
        0
    } else {
        1 + bit_length(x / 2)
    }
}

/// A number below the `k`-th power of two has at most `k` binary digits.
pub proof fn lemma_bit_length_bound(x: nat, k: nat)
    requires
        x < pow2(k),
    ensures
        bit_length(x) <= k,
    decreases k,
{
    if x > 0 {
        if k == 0 {
            lemma2_to64();
        } else {
            lemma_pow2_unfold(k);
            lemma_bit_length_bound(x / 2, (k - 1) as nat);
        }
    }
}

/// Counts the binary digits of a number.
pub fn bits_of(x: u64) -> (bits: u64)
    ensures
        bits == bit_length(x as nat),
        bits <= 64,
{
    proof {
        lemma2_to64();
        lemma_bit_length_bound(x as nat, 64);
    }
    let mut rest: u64 = x;
    let mut bits: u64 = 0;
    while rest > 0
        invariant
            bits + bit_length(rest as nat) == bit_length(x as nat),
            bit_length(x as nat) <= 64,
        decreases rest,
    {
        rest = rest / 2;
        bits += 1;
    }
    bits
}

/// The whole part of the binary logarithm of a number, and 0 for 0.
pub open spec fn floor_log2(q: nat) -> nat {
    if q == 0 {
        0
    } else {
        (bit_length(q) - 1) as nat
    }
}

/// Computes the whole part of the binary logarithm of a number.
pub fn integer_log2(q: u64) -> (log: u64)
    ensures
        log == floor_log2(q as nat),
        log <= 63,
{
    if q == 0 {
        0
    } else {
        bits_of(q) - 1
    }
}

/// The TF-IDF score of a term. The term frequency is the count per 10000
/// terms of the document; the inverse document frequency is 10000 for each
/// doubling of the documents per document with the term, that is for the
/// whole part of the binary logarithm of their quotient, and 10000 more. A
/// document without terms, or a term in no document, scores 0.
pub open spec fn tf_idf(term_count: u32, total_terms: u32, total_docs: u32, docs_with_term: u32) -> nat {
    if total_terms == 0 || docs_with_term == 0 {
        0
    } else {
        let tf = (term_count * 10000) / (total_terms as int);
        let idf = floor_log2((total_docs / docs_with_term) as nat) * 10000 + 10000;
        ((tf * idf) / 10000) as nat
    }
}

/// Computes the TF-IDF score of a term. A score that does not fit in 32 bits
/// keeps its low 32 bits.
pub fn integer_tf_idf(term_count: u32, total_terms: u32, total_docs: u32, docs_with_term: u32) -> (score:
    u32)
    ensures
        score == #[verifier::truncate]
        (tf_idf(term_count, total_terms, total_docs, docs_with_term) as u32),
        tf_idf(term_count, total_terms, total_docs, docs_with_term) <= u32::MAX ==> score
            == tf_idf(term_count, total_terms, total_docs, docs_with_term),
{
    if total_terms == 0 || docs_with_term == 0 {
        return 0;
    }
    let tf: u64 = (term_count as u64 * 10000) / (total_terms as u64);
    let idf: u64 = integer_log2((total_docs / docs_with_term) as u64) * 10000 + 10000;
    assert(tf * idf <= 0xFFFF_FFFF_FFFF_FFFF * 640000) by (nonlinear_arith)
        requires
            tf <= 0xFFFF_FFFF_FFFF_FFFF,
            idf <= 640000,
    ;
    let product: u128 = tf as u128 * idf as u128;
    let scaled: u128 = product / 10000;
    assert(scaled == tf_idf(term_count, total_terms, total_docs, docs_with_term));
    #[verifier::truncate]
    (scaled as u32)
}

/// The magnitude of a number: 500 for each of its binary digits.
pub open spec fn log_scale_of(x: u64) -> nat {
    bit_length(x as nat) * 500
}

fn log_scale(x: u64) -> (r: u64)
    ensures
        r == log_scale_of(x),
        r <= 32000,
{
    if x == 0 {
        return 0;
    }
    bits_of(x) * 500
}

/// What a status adds to the rank of an entry.
pub open spec fn status_bonus(status: Status) -> int {
    match status {
        Status::Confirmed => 3000,
        Status::Pending => 0,
        Status::Disputed => -2000,
        Status::Expired => -1000,
    }
}

/// The rank of an entry: four parts of the magnitude of its weighted
/// attestations and three parts each of those of its version and its
/// subscribers, out of ten, with the bonus of its status, and no less than 0.
pub open spec fn rank_of(weighted_attestations: u32, version: u64, subscribers: u32, status: Status) -> int {
    let base = (log_scale_of(weighted_attestations as u64) * 4000 + log_scale_of(version) * 3000
        + log_scale_of(subscribers as u64) * 3000) / 10000;
    let ranked = base + status_bonus(status);
    if ranked < 0 {
        0
    } else {
        ranked
    }
}

/// Computes the rank of an entry from its attestations, version, subscribers
/// and status.
pub fn rank_score(weighted_attestations: u32, version: u64, subscribers: u32, status: &Status) -> (rank:
    u32)
    ensures
        rank == rank_of(weighted_attestations, version, subscribers, *status),
{
    let att_score: u64 = log_scale(weighted_attestations as u64);
    let ver_score: u64 = log_scale(version);
    let sub_score: u64 = log_scale(subscribers as u64);
    let base: u64 = (att_score * 4000 + ver_score * 3000 + sub_score * 3000) / 10000;
    match status {
        Status::Confirmed => (base + 3000) as u32,
        Status::Pending => base as u32,
        Status::Disputed => if base >= 2000 {
            (base - 2000) as u32
        } else {
            0
        },
        Status::Expired => if base >= 1000 {
            (base - 1000) as u32
        } else {
            0
        },
    }
}

/// Seven parts relevance and three parts rank, out of ten.
pub open spec fn combined_of(relevance: u32, rank: u32) -> int {
    (relevance * 7000 + rank * 3000) / 10000
}

/// Blends relevance and rank into the final score.
pub fn combined_score(relevance: u32, rank: u32) -> (score: u32)
    ensures
        score == combined_of(relevance, rank),
{
    let r: u64 = relevance as u64;
    let k: u64 = rank as u64;
    ((r * 7000 + k * 3000) / 10000) as u32
}

} // verus!
