//! Anti-entropy for the catalog: a Bloom summary of the entries that a replica
//! holds, and the deltas that a peer's summary shows it to lack.
//!
//! An entry is summarised by a fingerprint of its key and its heaviest
//! variant. A filter may report an entry that was never added; such an entry
//! is held back until a later round.

use vstd::prelude::*;

use crate::bloom::{
    bloom_contains, bloom_insert, lemma_contains_monotone, lemma_no_false_negative, BloomFilter,
};
use crate::bytes::{be_bytes_u32, push_be_u32, push_bytes};
use crate::catalog::{heaviest_variant, last_max_index, variant_weights};
use crate::hashing::{metadata_digest, metadata_hash};
use crate::ordered_map::ByteKey;
use crate::types::{
    clone_attestation, deltas_view, AttestationView, CatalogDelta, CatalogEntry, CatalogState,
    ContractError, DeltaView, EntryView, HashVariant, VariantView,
};

verus! {

/// The width of the summaries that replicas exchange, in bits.
pub const SUMMARY_BITS: usize = 8192;

/// The fingerprint of an entry: its key, the hash of its heaviest variant
/// (of several equally heavy, the one with the greatest hash) and that
/// variant's total weight as four big-endian bytes. An entry without variants
/// has 32 zero bytes and weight 0 in their place.
pub open spec fn catalog_fingerprint(e: EntryView) -> Seq<u8> {
    let at = last_max_index(variant_weights(e.hash_variants));
    if at < 0 {
        e.contract_key + Seq::new(32, |i: int| 0u8) + be_bytes_u32(0)
    } else {
        e.contract_key + e.hash_variants[at].0 + be_bytes_u32(e.hash_variants[at].1.total_weight)
    }
}

/// The bits of the summary of a list of entries.
pub open spec fn catalog_summary(entries: Seq<(Seq<u8>, EntryView)>) -> Set<nat>
    decreases entries.len(),
{
    if entries.len() == 0 {
        Set::empty()
    } else {
        bloom_insert(
            catalog_summary(entries.drop_last()),
            catalog_fingerprint(entries.last().1),
            SUMMARY_BITS,
            SUMMARY_BITS as nat,
        )
    }
}

/// The delta that carries attestation `a` of variant `v` of entry `e`. Its
/// hash is computed from the variant's texts, and the variant's mini snippet
/// travels in both snippet fields.
pub open spec fn delta_for(e: EntryView, v: VariantView, a: AttestationView) -> DeltaView {
    DeltaView {
        contract_key: e.contract_key,
        title: v.title,
        description: v.description,
        mini_snippet: v.mini_snippet,
        snippet: v.mini_snippet,
        size_bytes: e.size_bytes,
        version: e.version,
        metadata_hash: metadata_digest(v.title, v.description, v.mini_snippet),
        attestation: a,
    }
}

/// One delta for each attestation of a variant, in their order.
pub open spec fn variant_deltas(e: EntryView, v: VariantView) -> Seq<DeltaView> {
    v.attestations.map_values(|a: AttestationView| delta_for(e, v, a))
}

/// The deltas of the given variants of an entry, variant after variant.
pub open spec fn entry_deltas(e: EntryView, variants: Seq<(Seq<u8>, VariantView)>) -> Seq<DeltaView>
    decreases variants.len(),
{
    if variants.len() == 0 {
        Seq::empty()
    } else {
        entry_deltas(e, variants.drop_last()) + variant_deltas(e, variants.last().1)
    }
}

/// The deltas of every entry whose fingerprint a filter with the bits `bits`
/// and the width `width` does not report, entry after entry.
pub open spec fn missing_deltas(entries: Seq<(Seq<u8>, EntryView)>, bits: Set<nat>, width: usize) -> Seq<
    DeltaView,
>
    decreases entries.len(),
{
    if entries.len() == 0 {
        Seq::empty()
    } else {
        let e = entries.last().1;
        let rest = missing_deltas(entries.drop_last(), bits, width);
        if bloom_contains(bits, catalog_fingerprint(e), width) {
            rest
        } else {
            rest + entry_deltas(e, e.hash_variants)
        }
    }
}

/// Computes the fingerprint under which an entry is summarised.
pub fn bloom_key(entry: &CatalogEntry) -> (key: Vec<u8>)
    requires
        entry.wf(),
    ensures
        key@ == catalog_fingerprint(entry@),
{
    let mut key: Vec<u8> = Vec::new();
    push_bytes(&mut key, entry.contract_key.as_str().as_bytes());
    match heaviest_variant(entry) {
        Some(at) => {
            push_bytes(&mut key, entry.hash_variants.key_at(at).borrow_bytes());
            push_be_u32(&mut key, entry.hash_variants.value_at(at).total_weight);
        },
        None => {
            let zero: [u8; 32] = [0u8; 32];
            push_bytes(&mut key, zero.as_slice());
            push_be_u32(&mut key, 0);
            assert(zero@ =~= Seq::new(32, |i: int| 0u8));
        },
    }
    key
}

/// Summarises the catalog: a fresh filter of `SUMMARY_BITS` bits that holds the
/// fingerprint of every entry.
pub fn summarize_state(state: &CatalogState) -> (filter: BloomFilter)
    requires
        state.wf(),
    ensures
        filter@ == catalog_summary(state@.entries),
        filter.width() == SUMMARY_BITS,
        filter.capacity() == SUMMARY_BITS,
{
    let mut filter = BloomFilter::new(SUMMARY_BITS);
    let n: usize = state.entries.len();
    let mut i: usize = 0;
    assert(state@.entries.subrange(0, 0) =~= Seq::empty());
    while i < n
        invariant
            i <= n,
            state.wf(),
            n == state.entries.entries().len(),
            filter.width() == SUMMARY_BITS,
            filter.capacity() == SUMMARY_BITS,
            filter@ == catalog_summary(state@.entries.subrange(0, i as int)),
        decreases n - i,
    {
        let entry = state.entries.value_at(i);
        let key = bloom_key(entry);
        proof {
            let next = state@.entries.subrange(0, i + 1);
            assert(next.drop_last() =~= state@.entries.subrange(0, i as int));
            assert(next.last().1 == entry@);
        }
        filter.insert(key.as_slice());
        i += 1;
    }
    assert(state@.entries.subrange(0, n as int) =~= state@.entries);
    filter
}

fn push_variant_deltas(out: &mut Vec<CatalogDelta>, entry: &CatalogEntry, variant: &HashVariant)
    ensures
        deltas_view(final(out)@) == deltas_view(old(out)@) + variant_deltas(entry@, variant@),
{
    let ghost base = deltas_view(out@);
    let ghost all = variant_deltas(entry@, variant@);
    let n: usize = variant.attestations.len();
    let mut k: usize = 0;
    assert(base + all.subrange(0, 0) =~= base);
    while k < n
        invariant
            k <= n,
            n == variant.attestations@.len(),
            all == variant_deltas(entry@, variant@),
            all.len() == n,
            deltas_view(out@) == base + all.subrange(0, k as int),
        decreases n - k,
    {
        let hash = metadata_hash(
            variant.title.as_str(),
            variant.description.as_str(),
            variant.mini_snippet.as_str(),
        );
        let delta = CatalogDelta {
            contract_key: entry.contract_key.clone(),
            title: variant.title.clone(),
            description: variant.description.clone(),
            mini_snippet: variant.mini_snippet.clone(),
            snippet: variant.mini_snippet.clone(),
            size_bytes: entry.size_bytes,
            version: entry.version,
            metadata_hash: hash,
            attestation: clone_attestation(&variant.attestations[k]),
        };
        let ghost before = deltas_view(out@);
        proof {
            assert(variant@.attestations[k as int] == variant.attestations@[k as int]@);
            assert(delta@ == all[k as int]);
        }
        out.push(delta);
        proof {
            assert(deltas_view(out@) =~= before.push(delta@));
            assert(base + all.subrange(0, k + 1) =~= (base + all.subrange(0, k as int)).push(
                all[k as int],
            ));
        }
        k += 1;
    }
    assert(all.subrange(0, n as int) =~= all);
}

fn push_entry_deltas(out: &mut Vec<CatalogDelta>, entry: &CatalogEntry)
    requires
        entry.wf(),
    ensures
        deltas_view(final(out)@) == deltas_view(old(out)@) + entry_deltas(
            entry@,
            entry@.hash_variants,
        ),
{
    let ghost base = deltas_view(out@);
    let ghost variants = entry@.hash_variants;
    let n: usize = entry.hash_variants.len();
    let mut j: usize = 0;
    assert(variants.subrange(0, 0) =~= Seq::empty());
    assert(base + Seq::<DeltaView>::empty() =~= base);
    while j < n
        invariant
            j <= n,
            entry.wf(),
            n == entry.hash_variants.entries().len(),
            variants == entry@.hash_variants,
            deltas_view(out@) == base + entry_deltas(entry@, variants.subrange(0, j as int)),
        decreases n - j,
    {
        let variant = entry.hash_variants.value_at(j);
        proof {
            let next = variants.subrange(0, j + 1);
            assert(next.drop_last() =~= variants.subrange(0, j as int));
            assert(next.last().1 == variant@);
            assert(base + (entry_deltas(entry@, variants.subrange(0, j as int)) + variant_deltas(
                entry@,
                variant@,
            )) =~= (base + entry_deltas(entry@, variants.subrange(0, j as int)))
                + variant_deltas(entry@, variant@));
        }
        push_variant_deltas(out, entry, variant);
        j += 1;
    }
    assert(variants.subrange(0, n as int) =~= variants);
}

/// Lists what a peer with the given summary lacks: for every entry whose
/// fingerprint the summary does not report, one delta per attestation. A
/// summary of width 0 reports nothing and is refused.
pub fn get_state_delta(state: &CatalogState, summary: &BloomFilter) -> (result: Result<
    Vec<CatalogDelta>,
    ContractError,
>)
    requires
        state.wf(),
    ensures
        result is Ok <==> summary.width() > 0,
        result is Ok ==> deltas_view(result->Ok_0@) == missing_deltas(
            state@.entries,
            summary@,
            summary.width(),
        ),
        result is Err ==> result->Err_0 == ContractError::InvalidState,
{
    if summary.num_bits() == 0 {
        return Err(ContractError::InvalidState);
    }
    let mut out: Vec<CatalogDelta> = Vec::new();
    let ghost entries = state@.entries;
    let n: usize = state.entries.len();
    let mut i: usize = 0;
    assert(entries.subrange(0, 0) =~= Seq::empty());
    assert(deltas_view(out@) =~= Seq::<DeltaView>::empty());
    while i < n
        invariant
            i <= n,
            state.wf(),
            summary.width() > 0,
            n == state.entries.entries().len(),
            entries == state@.entries,
            deltas_view(out@) == missing_deltas(
                entries.subrange(0, i as int),
                summary@,
                summary.width(),
            ),
        decreases n - i,
    {
        let entry = state.entries.value_at(i);
        let key = bloom_key(entry);
        proof {
            let next = entries.subrange(0, i + 1);
            assert(next.drop_last() =~= entries.subrange(0, i as int));
            assert(next.last().1 == entry@);
        }
        if !summary.contains(key.as_slice()) {
            push_entry_deltas(&mut out, entry);
        }
        i += 1;
    }
    assert(entries.subrange(0, n as int) =~= entries);
    Ok(out)
}

/// The summary of a list of entries reports every one of them.
pub proof fn lemma_summary_reports_entries(entries: Seq<(Seq<u8>, EntryView)>, i: int)
    requires
        0 <= i < entries.len(),
    ensures
        bloom_contains(catalog_summary(entries), catalog_fingerprint(entries[i].1), SUMMARY_BITS),
    decreases entries.len(),
{
    let front = entries.drop_last();
    let item = catalog_fingerprint(entries.last().1);
    lemma_no_false_negative(catalog_summary(front), item, SUMMARY_BITS, SUMMARY_BITS as nat);
    if i < entries.len() - 1 {
        lemma_summary_reports_entries(front, i);
        assert(front[i] == entries[i]);
        lemma_contains_monotone(
            catalog_summary(front),
            catalog_summary(entries),
            catalog_fingerprint(entries[i].1),
            SUMMARY_BITS,
        );
    }
}

/// A replica lacks nothing of what its own summary was made from: the deltas
/// against the summary of the same entries are none.
pub proof fn lemma_no_delta_against_own_summary(entries: Seq<(Seq<u8>, EntryView)>)
    ensures
        missing_deltas(entries, catalog_summary(entries), SUMMARY_BITS) == Seq::<DeltaView>::empty(),
{
    lemma_no_delta_in_prefix(entries, entries.len() as int);
    assert(entries.subrange(0, entries.len() as int) =~= entries);
}

proof fn lemma_no_delta_in_prefix(entries: Seq<(Seq<u8>, EntryView)>, n: int)
    requires
        0 <= n <= entries.len(),
    ensures
        missing_deltas(entries.subrange(0, n), catalog_summary(entries), SUMMARY_BITS) == Seq::<
            DeltaView,
        >::empty(),
    decreases n,
{
    if n > 0 {
        let prefix = entries.subrange(0, n);
        assert(prefix.drop_last() =~= entries.subrange(0, n - 1));
        assert(prefix.last() == entries[n - 1]);
        lemma_no_delta_in_prefix(entries, n - 1);
        lemma_summary_reports_entries(entries, n - 1);
    }
}

} // verus!
