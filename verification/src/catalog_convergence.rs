//! Convergence: after one exchange of summaries and deltas two replicas hold
//! the same contracts.
//!
//! A Bloom filter may report an entry that its replica does not hold; such an
//! entry is not sent in this round. The law speaks of exchanges in which no
//! filter does so, and of catalogs in which every entry is attested to, since
//! an entry travels as the deltas of its attestations.

use vstd::prelude::*;

use crate::bloom::bloom_contains;
use crate::catalog::{apply_delta_spec, apply_to_entry, fresh_entry, trust_of, weight_for};
use crate::catalog_contract::apply_deltas;
use crate::catalog_finalize::is_finalization;
use crate::catalog_sync::{
    catalog_fingerprint, catalog_summary, delta_for, entry_deltas, missing_deltas, variant_deltas,
    SUMMARY_BITS,
};
use crate::ordered_map::{assoc_get, has_key, index_of_key, keys_increasing, lemma_put};
use crate::types::{CatalogView, DeltaView, EntryView, VariantView};

verus! {

/// Whether one of the deltas is for the contract `key`.
pub open spec fn speaks_of(deltas: Seq<DeltaView>, key: Seq<u8>) -> bool {
    exists|i: int| 0 <= i < deltas.len() && (#[trigger] deltas[i]).contract_key == key
}

/// Whether one of the variants holds an attestation.
pub open spec fn attested(variants: Seq<(Seq<u8>, VariantView)>) -> bool {
    exists|j: int| 0 <= j < variants.len() && (#[trigger] variants[j]).1.attestations.len() > 0
}

/// Whether a filter lacks an entry: it does not report its fingerprint.
pub open spec fn lacks(bits: Set<nat>, width: usize, e: EntryView) -> bool {
    !bloom_contains(bits, catalog_fingerprint(e), width)
}

/// Whether an entry of the list is sent for the contract `key`: it names the
/// contract, the filter lacks it, and it is attested to.
pub open spec fn sent_for(
    entries: Seq<(Seq<u8>, EntryView)>,
    bits: Set<nat>,
    width: usize,
    key: Seq<u8>,
) -> bool {
    exists|j: int|
        0 <= j < entries.len() && (#[trigger] entries[j]).1.contract_key == key && lacks(
            bits,
            width,
            entries[j].1,
        ) && attested(entries[j].1.hash_variants)
}

proof fn lemma_speaks_of_concat(a: Seq<DeltaView>, b: Seq<DeltaView>, key: Seq<u8>)
    ensures
        speaks_of(a + b, key) <==> speaks_of(a, key) || speaks_of(b, key),
{
    let all = a + b;
    if speaks_of(all, key) {
        let i = choose|i: int| 0 <= i < all.len() && (#[trigger] all[i]).contract_key == key;
        if i < a.len() {
            assert(a[i] == all[i]);
        } else {
            assert(b[i - a.len()] == all[i]);
        }
    }
    if speaks_of(a, key) {
        let i = choose|i: int| 0 <= i < a.len() && (#[trigger] a[i]).contract_key == key;
        assert(all[i] == a[i]);
    }
    if speaks_of(b, key) {
        let i = choose|i: int| 0 <= i < b.len() && (#[trigger] b[i]).contract_key == key;
        assert(all[a.len() + i] == b[i]);
    }
}

/// The deltas of an entry are for its contract, and there are some exactly
/// where one of the variants holds an attestation.
proof fn lemma_entry_deltas_speak(e: EntryView, variants: Seq<(Seq<u8>, VariantView)>, key: Seq<u8>)
    ensures
        speaks_of(entry_deltas(e, variants), key) <==> e.contract_key == key && attested(variants),
    decreases variants.len(),
{
    if variants.len() > 0 {
        let front = variants.drop_last();
        let v = variants.last().1;
        let own = variant_deltas(e, v);
        lemma_entry_deltas_speak(e, front, key);
        lemma_speaks_of_concat(entry_deltas(e, front), own, key);
        if speaks_of(own, key) {
            let i = choose|i: int| 0 <= i < own.len() && (#[trigger] own[i]).contract_key == key;
            assert(own[i] == delta_for(e, v, v.attestations[i]));
            assert(variants[variants.len() - 1].1.attestations.len() > 0);
        }
        if attested(front) {
            let j = choose|j: int|
                0 <= j < front.len() && (#[trigger] front[j]).1.attestations.len() > 0;
            assert(variants[j] == front[j]);
        }
        if attested(variants) {
            let j = choose|j: int|
                0 <= j < variants.len() && (#[trigger] variants[j]).1.attestations.len() > 0;
            if j < front.len() {
                assert(front[j] == variants[j]);
            } else if e.contract_key == key {
                assert(own[0] == delta_for(e, v, v.attestations[0]));
                assert(own[0].contract_key == key);
            }
        }
    }
}

/// The deltas against a summary speak of the contracts of the entries that
/// are sent.
pub proof fn lemma_missing_deltas_speak(
    entries: Seq<(Seq<u8>, EntryView)>,
    bits: Set<nat>,
    width: usize,
    key: Seq<u8>,
)
    ensures
        speaks_of(missing_deltas(entries, bits, width), key) <==> sent_for(
            entries,
            bits,
            width,
            key,
        ),
    decreases entries.len(),
{
    if entries.len() > 0 {
        let front = entries.drop_last();
        let e = entries.last().1;
        let rest = missing_deltas(front, bits, width);
        lemma_missing_deltas_speak(front, bits, width, key);
        lemma_entry_deltas_speak(e, e.hash_variants, key);
        lemma_speaks_of_concat(rest, entry_deltas(e, e.hash_variants), key);
        if sent_for(front, bits, width, key) {
            let j = choose|j: int|
                0 <= j < front.len() && (#[trigger] front[j]).1.contract_key == key && lacks(
                    bits,
                    width,
                    front[j].1,
                ) && attested(front[j].1.hash_variants);
            assert(entries[j] == front[j]);
        }
        if sent_for(entries, bits, width, key) {
            let j = choose|j: int|
                0 <= j < entries.len() && (#[trigger] entries[j]).1.contract_key == key && lacks(
                    bits,
                    width,
                    entries[j].1,
                ) && attested(entries[j].1.hash_variants);
            if j < front.len() {
                assert(front[j] == entries[j]);
            }
        }
        if e.contract_key == key && lacks(bits, width, e) && attested(e.hash_variants) {
            assert(entries[entries.len() - 1].1 == e);
        }
    }
}

/// After deltas are applied a catalog holds the contracts that it held and
/// those that the deltas speak of.
pub proof fn lemma_apply_deltas_keys(s: CatalogView, deltas: Seq<DeltaView>, key: Seq<u8>)
    requires
        keys_increasing(s.entries),
    ensures
        keys_increasing(apply_deltas(s, deltas).entries),
        has_key(apply_deltas(s, deltas).entries, key) <==> has_key(s.entries, key) || speaks_of(
            deltas,
            key,
        ),
    decreases deltas.len(),
{
    if deltas.len() > 0 {
        let front = deltas.drop_last();
        let d = deltas.last();
        let before = apply_deltas(s, front);
        lemma_apply_deltas_keys(s, front, key);
        let after = apply_delta_spec(before, d);
        let e = match assoc_get(before.entries, d.contract_key) {
            Some(e) => e,
            None => fresh_entry(d.contract_key),
        };
        let w = weight_for(
            trust_of(before.contributors, d.attestation.contributor_pubkey),
        );
        lemma_put(before.entries, d.contract_key, apply_to_entry(e, d, w));
        assert(has_key(after.entries, key) == (key == d.contract_key || has_key(
            before.entries,
            key,
        )));
        if speaks_of(front, key) {
            let i = choose|i: int|
                0 <= i < front.len() && (#[trigger] front[i]).contract_key == key;
            assert(deltas[i] == front[i]);
        }
        if speaks_of(deltas, key) {
            let i = choose|i: int|
                0 <= i < deltas.len() && (#[trigger] deltas[i]).contract_key == key;
            if i < front.len() {
                assert(front[i] == deltas[i]);
            }
        }
        if key == d.contract_key {
            assert(deltas[deltas.len() - 1].contract_key == key);
        }
    }
}

/// Whether a replica can send all it holds: every entry stands under its
/// contract key and is attested to.
pub open spec fn sendable(s: CatalogView) -> bool {
    forall|j: int|
        0 <= j < s.entries.len() ==> (#[trigger] s.entries[j]).1.contract_key == s.entries[j].0
            && attested(s.entries[j].1.hash_variants)
}

/// Whether the summary of `to` reports no entry of `from` whose contract
/// `to` does not hold.
pub open spec fn no_false_report(from: CatalogView, to: CatalogView) -> bool {
    forall|j: int|
        0 <= j < from.entries.len() && !has_key(to.entries, (#[trigger] from.entries[j]).0)
            ==> lacks(catalog_summary(to.entries), SUMMARY_BITS, from.entries[j].1)
}

/// The catalog of `to` after it has taken in what `from` sends against its summary.
pub open spec fn after_exchange(from: CatalogView, to: CatalogView) -> CatalogView {
    apply_deltas(
        to,
        missing_deltas(from.entries, catalog_summary(to.entries), SUMMARY_BITS),
    )
}

/// After it has taken in what the peer sends, a replica holds the contracts
/// of both.
pub proof fn lemma_exchange_keys(from: CatalogView, to: CatalogView, key: Seq<u8>)
    requires
        keys_increasing(to.entries),
        sendable(from),
        no_false_report(from, to),
    ensures
        has_key(after_exchange(from, to).entries, key) <==> has_key(from.entries, key) || has_key(
            to.entries,
            key,
        ),
{
    let bits = catalog_summary(to.entries);
    let deltas = missing_deltas(from.entries, bits, SUMMARY_BITS);
    lemma_apply_deltas_keys(to, deltas, key);
    lemma_missing_deltas_speak(from.entries, bits, SUMMARY_BITS, key);
    if sent_for(from.entries, bits, SUMMARY_BITS, key) {
        let j = choose|j: int|
            0 <= j < from.entries.len() && (#[trigger] from.entries[j]).1.contract_key == key
                && lacks(bits, SUMMARY_BITS, from.entries[j].1) && attested(
                from.entries[j].1.hash_variants,
            );
        assert(from.entries[j].0 == key);
    }
    if has_key(from.entries, key) && !has_key(to.entries, key) {
        let j = index_of_key(from.entries, key);
        assert(from.entries[j].1.contract_key == key);
        assert(lacks(bits, SUMMARY_BITS, from.entries[j].1));
    }
}

/// Convergence after one exchange: where no filter reports what its replica
/// does not hold, two replicas hold the same contracts after each has taken
/// in what the other sends and has finalized.
pub proof fn lemma_one_exchange_converges(
    a: CatalogView,
    b: CatalogView,
    threshold: u32,
    a_after: CatalogView,
    b_after: CatalogView,
    key: Seq<u8>,
)
    requires
        keys_increasing(a.entries),
        keys_increasing(b.entries),
        sendable(a),
        sendable(b),
        no_false_report(a, b),
        no_false_report(b, a),
        is_finalization(after_exchange(b, a), threshold, a_after),
        is_finalization(after_exchange(a, b), threshold, b_after),
    ensures
        has_key(a_after.entries, key) == has_key(b_after.entries, key),
        has_key(a_after.entries, key) == (has_key(a.entries, key) || has_key(b.entries, key)),
{
    lemma_exchange_keys(b, a, key);
    lemma_exchange_keys(a, b, key);
    lemma_finalization_keys(after_exchange(b, a), threshold, a_after, key);
    lemma_finalization_keys(after_exchange(a, b), threshold, b_after, key);
}

/// Finalization keeps the contracts of a catalog.
pub proof fn lemma_finalization_keys(
    before: CatalogView,
    threshold: u32,
    after: CatalogView,
    key: Seq<u8>,
)
    requires
        is_finalization(before, threshold, after),
    ensures
        has_key(after.entries, key) == has_key(before.entries, key),
{
    if has_key(before.entries, key) {
        let i = index_of_key(before.entries, key);
        assert(after.entries[i].0 == key);
    }
    if has_key(after.entries, key) {
        let i = index_of_key(after.entries, key);
        assert(before.entries[i].0 == key);
    }
}

} // verus!
