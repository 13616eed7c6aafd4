//! Laws of the catalog: what holds of every state and every delta.
//!
//! The laws are stated over the values of states and deltas. A catalog whose
//! maps are in key order is called well laid out; every catalog that the
//! library builds is.

use vstd::prelude::*;

use crate::catalog::{
    apply_delta_spec, apply_to_entry, apply_to_variant, attest, by_pubkey, delta_acceptable,
    fresh_entry, has_pubkey, trust_of, weight_for,
};
use crate::catalog_contract::{
    apply_deltas, apply_update, apply_updates, delta_step, deltas_acceptable,
    distinct_contributors, entry_valid, state_valid, update_acceptable,
    updates_acceptable, variant_valid, UpdateView,
};
use crate::catalog_finalize::{
    finalize_attestations, finalize_entry, is_finalization, lemma_finalization_unique,
};
use crate::catalog_merge::{
    adopted_variant, append_missing, entry_join, merge_entry, merge_spec, score_join,
    variant_join,
};
use crate::catalog_merge_laws::lemma_append_missing_distinct;
use crate::folding::{lemma_fold_permutation, pairwise};
use crate::ordered_map::{
    all_pairs, assoc_get, has_key, index_of_key, joins_well, keys_increasing,
    lemma_merge_assoc_keeps, lemma_put, lemma_put_commute, lemma_put_elements, lemma_put_put,
    lemma_same_keys,
};
use crate::sorting::{
    insert_by, lemma_distinct_push, lemma_has_key_push, lemma_insert_commute, lemma_insert_ordered,
    lemma_sort_distinct, lemma_sort_has_key, lemma_sort_of_ordered, lemma_sort_ordered, ordered_by,
    sort_by,
};
use crate::types::{
    AttestationView, CatalogState, CatalogView, ContributorView, DeltaView, EntryView,
    VariantView,
};

verus! {

/// Whether the attestations stand in the order of their contributors.
pub open spec fn ordered_by_pubkey(s: Seq<AttestationView>) -> bool {
    ordered_by(s, by_pubkey())
}

/// Offering an attestation a second time changes nothing.
pub proof fn lemma_attest_twice(s: Seq<AttestationView>, a: AttestationView)
    ensures
        attest(attest(s, a), a) == attest(s, a),
{
    let key = by_pubkey();
    if !has_pubkey(s, a.contributor_pubkey) {
        lemma_has_key_push(s, a, a.contributor_pubkey, key);
        lemma_sort_has_key(s.push(a), a.contributor_pubkey, key);
    }
}

/// Two attestations may be offered in either order, as long as two by one
/// contributor are the same attestation.
pub proof fn lemma_attest_commute(s: Seq<AttestationView>, a: AttestationView, b: AttestationView)
    requires
        a.contributor_pubkey == b.contributor_pubkey ==> a == b,
    ensures
        attest(attest(s, a), b) == attest(attest(s, b), a),
{
    let key = by_pubkey();
    let ka = a.contributor_pubkey;
    let kb = b.contributor_pubkey;
    if ka == kb {
        lemma_attest_twice(s, a);
    } else {
        lemma_has_key_push(s, a, ka, key);
        lemma_has_key_push(s, a, kb, key);
        lemma_has_key_push(s, b, ka, key);
        lemma_has_key_push(s, b, kb, key);
        lemma_sort_has_key(s.push(a), ka, key);
        lemma_sort_has_key(s.push(a), kb, key);
        lemma_sort_has_key(s.push(b), ka, key);
        lemma_sort_has_key(s.push(b), kb, key);
        if !has_pubkey(s, ka) && !has_pubkey(s, kb) {
            let sorted = sort_by(s, key);
            let with_a = insert_by(sorted, a, key);
            let with_b = insert_by(sorted, b, key);
            assert(s.push(a).drop_last() =~= s);
            assert(s.push(b).drop_last() =~= s);
            assert(sort_by(s.push(a), key) == with_a);
            assert(sort_by(s.push(b), key) == with_b);
            lemma_sort_ordered(s, key);
            lemma_insert_ordered(sorted, a, key);
            lemma_insert_ordered(sorted, b, key);
            lemma_sort_of_ordered(with_a, key);
            lemma_sort_of_ordered(with_b, key);
            assert(with_a.push(b).drop_last() =~= with_a);
            assert(with_b.push(a).drop_last() =~= with_b);
            lemma_insert_commute(sorted, a, b, key);
        }
    }
}

/// Whether the variants of an entry are in key order.
pub open spec fn entry_laid_out(e: EntryView) -> bool {
    keys_increasing(e.hash_variants)
}

/// Whether a catalog is well laid out: its entries, its contributors and the
/// variants of every entry are in key order.
pub open spec fn laid_out(s: CatalogView) -> bool {
    &&& keys_increasing(s.entries)
    &&& keys_increasing(s.contributors)
    &&& forall|i: int| 0 <= i < s.entries.len() ==> entry_laid_out((#[trigger] s.entries[i]).1)
}

/// The value of a catalog whose maps are in order is well laid out.
pub proof fn lemma_state_laid_out(state: CatalogState)
    requires
        state.wf(),
    ensures
        laid_out(state@),
{
    let none = Seq::<u8>::empty();
    state.entries.lemma_wf();
    state.contributors.lemma_wf();
    lemma_same_keys(state.entries.entries(), state@.entries, none);
    lemma_same_keys(state.contributors.entries(), state@.contributors, none);
    assert forall|i: int| 0 <= i < state@.entries.len() implies entry_laid_out(
        (#[trigger] state@.entries[i]).1,
    ) by {
        let entry = state.entries.entries()[i].1;
        assert(entry.wf());
        entry.hash_variants.lemma_wf();
        lemma_same_keys(entry.hash_variants.entries(), entry@.hash_variants, none);
    }
}

/// The entry that a delta is applied to: the one under its key, or a fresh one.
pub open spec fn entry_before(s: CatalogView, d: DeltaView) -> EntryView {
    match assoc_get(s.entries, d.contract_key) {
        Some(e) => e,
        None => fresh_entry(d.contract_key),
    }
}

/// The weight that a delta's attestation gets in a catalog.
pub open spec fn delta_weight(s: CatalogView, d: DeltaView) -> u32 {
    weight_for(trust_of(s.contributors, d.attestation.contributor_pubkey))
}

proof fn lemma_entry_before_laid_out(s: CatalogView, d: DeltaView)
    requires
        laid_out(s),
    ensures
        entry_laid_out(entry_before(s, d)),
{
    if has_key(s.entries, d.contract_key) {
        let i = index_of_key(s.entries, d.contract_key);
        assert(entry_laid_out(s.entries[i].1));
    }
}

/// Applying a delta keeps an entry well laid out.
pub proof fn lemma_apply_entry_laid_out(e: EntryView, d: DeltaView, weight: u32)
    requires
        entry_laid_out(e),
    ensures
        entry_laid_out(apply_to_entry(e, d, weight)),
{
    let prior = match assoc_get(e.hash_variants, d.metadata_hash) {
        Some(v) => v.attestations,
        None => Seq::empty(),
    };
    lemma_put(e.hash_variants, d.metadata_hash, apply_to_variant(prior, d, weight));
}

/// Applying a delta keeps a catalog well laid out.
pub proof fn lemma_apply_laid_out(s: CatalogView, d: DeltaView)
    requires
        laid_out(s),
    ensures
        laid_out(apply_delta_spec(s, d)),
{
    let e = entry_before(s, d);
    let changed = apply_to_entry(e, d, delta_weight(s, d));
    let after = apply_delta_spec(s, d);
    lemma_entry_before_laid_out(s, d);
    lemma_apply_entry_laid_out(e, d, delta_weight(s, d));
    lemma_put(s.entries, d.contract_key, changed);
    assert forall|j: int| 0 <= j < after.entries.len() implies entry_laid_out(
        (#[trigger] after.entries[j]).1,
    ) by {
        lemma_put_elements(s.entries, d.contract_key, changed, j);
        if after.entries[j] != (d.contract_key, changed) {
            let i = choose|i: int|
                0 <= i < s.entries.len() && #[trigger] s.entries[i] == after.entries[j];
            assert(entry_laid_out(s.entries[i].1));
        }
    }
}

/// Applying deltas keeps a catalog well laid out.
pub proof fn lemma_apply_deltas_laid_out(s: CatalogView, deltas: Seq<DeltaView>)
    requires
        laid_out(s),
    ensures
        laid_out(apply_deltas(s, deltas)),
    decreases deltas.len(),
{
    if deltas.len() > 0 {
        lemma_apply_deltas_laid_out(s, deltas.drop_last());
        lemma_apply_laid_out(apply_deltas(s, deltas.drop_last()), deltas.last());
    }
}

/// Applying a delta to an entry a second time changes nothing.
pub proof fn lemma_apply_entry_twice(e: EntryView, d: DeltaView, weight: u32)
    requires
        entry_laid_out(e),
    ensures
        apply_to_entry(apply_to_entry(e, d, weight), d, weight) == apply_to_entry(e, d, weight),
{
    let h = d.metadata_hash;
    let prior = match assoc_get(e.hash_variants, h) {
        Some(v) => v.attestations,
        None => Seq::empty(),
    };
    let a = AttestationView { weight, ..d.attestation };
    let v1 = apply_to_variant(prior, d, weight);
    let once = apply_to_entry(e, d, weight);
    lemma_put(e.hash_variants, h, v1);
    assert(assoc_get(once.hash_variants, h) == Some(v1));
    lemma_attest_twice(prior, a);
    assert(apply_to_variant(v1.attestations, d, weight) == v1);
    lemma_put_put(e.hash_variants, h, v1, v1);
}

/// Idempotence: applying a delta a second time changes nothing.
pub proof fn lemma_apply_twice(s: CatalogView, d: DeltaView)
    requires
        laid_out(s),
    ensures
        apply_delta_spec(apply_delta_spec(s, d), d) == apply_delta_spec(s, d),
{
    let k = d.contract_key;
    let w = delta_weight(s, d);
    let e = entry_before(s, d);
    let e1 = apply_to_entry(e, d, w);
    let once = apply_delta_spec(s, d);
    lemma_entry_before_laid_out(s, d);
    lemma_put(s.entries, k, e1);
    assert(assoc_get(once.entries, k) == Some(e1));
    lemma_apply_entry_twice(e, d, w);
    lemma_put_put(s.entries, k, e1, e1);
}

/// Whether two deltas can be applied in either order: where they speak of the
/// same variant of the same contract they carry the same texts, and where
/// they are moreover by the same contributor they carry the same token and
/// time.
pub open spec fn deltas_compatible(d1: DeltaView, d2: DeltaView) -> bool {
    d1.contract_key == d2.contract_key && d1.metadata_hash == d2.metadata_hash ==> {
        &&& d1.title == d2.title
        &&& d1.description == d2.description
        &&& d1.mini_snippet == d2.mini_snippet
        &&& d1.attestation.contributor_pubkey == d2.attestation.contributor_pubkey ==> {
            &&& d1.attestation.antiflood_token == d2.attestation.antiflood_token
            &&& d1.attestation.token_created_at == d2.attestation.token_created_at
        }
    }
}

proof fn lemma_apply_entry_commute(e: EntryView, d1: DeltaView, w1: u32, d2: DeltaView, w2: u32)
    requires
        entry_laid_out(e),
        d1.metadata_hash == d2.metadata_hash ==> {
            &&& d1.title == d2.title
            &&& d1.description == d2.description
            &&& d1.mini_snippet == d2.mini_snippet
            &&& d1.attestation.contributor_pubkey == d2.attestation.contributor_pubkey ==> {
                &&& d1.attestation.antiflood_token == d2.attestation.antiflood_token
                &&& d1.attestation.token_created_at == d2.attestation.token_created_at
                &&& w1 == w2
            }
        },
    ensures
        apply_to_entry(apply_to_entry(e, d1, w1), d2, w2) == apply_to_entry(
            apply_to_entry(e, d2, w2),
            d1,
            w1,
        ),
{
    let h1 = d1.metadata_hash;
    let h2 = d2.metadata_hash;
    let vs = e.hash_variants;
    let p1 = match assoc_get(vs, h1) {
        Some(v) => v.attestations,
        None => Seq::empty(),
    };
    let p2 = match assoc_get(vs, h2) {
        Some(v) => v.attestations,
        None => Seq::empty(),
    };
    let a1 = AttestationView { weight: w1, ..d1.attestation };
    let a2 = AttestationView { weight: w2, ..d2.attestation };
    let v1 = apply_to_variant(p1, d1, w1);
    let v2 = apply_to_variant(p2, d2, w2);
    let e1 = apply_to_entry(e, d1, w1);
    let e2 = apply_to_entry(e, d2, w2);
    lemma_put(vs, h1, v1);
    lemma_put(vs, h2, v2);
    assert(assoc_get(e1.hash_variants, h2) == (if h2 == h1 {
        Some(v1)
    } else {
        assoc_get(vs, h2)
    }));
    assert(assoc_get(e2.hash_variants, h1) == (if h1 == h2 {
        Some(v2)
    } else {
        assoc_get(vs, h1)
    }));
    if h1 == h2 {
        lemma_attest_commute(p1, a1, a2);
        let v12 = apply_to_variant(v1.attestations, d2, w2);
        let v21 = apply_to_variant(v2.attestations, d1, w1);
        assert(v12 == v21);
        lemma_put_put(vs, h1, v1, v12);
        lemma_put_put(vs, h1, v2, v21);
    } else {
        lemma_put_commute(vs, h1, v1, h2, v2);
    }
}

/// Two compatible deltas may be applied in either order.
pub proof fn lemma_apply_commute(s: CatalogView, d1: DeltaView, d2: DeltaView)
    requires
        laid_out(s),
        deltas_compatible(d1, d2),
    ensures
        apply_delta_spec(apply_delta_spec(s, d1), d2) == apply_delta_spec(
            apply_delta_spec(s, d2),
            d1,
        ),
{
    let k1 = d1.contract_key;
    let k2 = d2.contract_key;
    let w1 = delta_weight(s, d1);
    let w2 = delta_weight(s, d2);
    let b1 = entry_before(s, d1);
    let b2 = entry_before(s, d2);
    let e1 = apply_to_entry(b1, d1, w1);
    let e2 = apply_to_entry(b2, d2, w2);
    let s1 = apply_delta_spec(s, d1);
    let s2 = apply_delta_spec(s, d2);
    lemma_entry_before_laid_out(s, d1);
    lemma_entry_before_laid_out(s, d2);
    lemma_put(s.entries, k1, e1);
    lemma_put(s.entries, k2, e2);
    assert(assoc_get(s1.entries, k2) == (if k2 == k1 {
        Some(e1)
    } else {
        assoc_get(s.entries, k2)
    }));
    assert(assoc_get(s2.entries, k1) == (if k1 == k2 {
        Some(e2)
    } else {
        assoc_get(s.entries, k1)
    }));
    if k1 == k2 {
        lemma_apply_entry_commute(b1, d1, w1, d2, w2);
        let e12 = apply_to_entry(e1, d2, w2);
        let e21 = apply_to_entry(e2, d1, w1);
        lemma_put_put(s.entries, k1, e1, e12);
        lemma_put_put(s.entries, k1, e2, e21);
    } else {
        lemma_put_commute(s.entries, k1, e1, k2, e2);
    }
}

/// Compatibility of deltas, as a relation.
pub open spec fn compatibility() -> spec_fn(DeltaView, DeltaView) -> bool {
    |d1: DeltaView, d2: DeltaView| deltas_compatible(d1, d2)
}

/// Being well laid out, as a property.
pub open spec fn layout() -> spec_fn(CatalogView) -> bool {
    |s: CatalogView| laid_out(s)
}

/// Every two deltas of the list are compatible.
pub open spec fn pairwise_compatible(deltas: Seq<DeltaView>) -> bool {
    pairwise(deltas, compatibility())
}

/// Commutativity: compatible deltas lead to the same catalog in whatever
/// order they are applied.
pub proof fn lemma_apply_deltas_permutation(s: CatalogView, a: Seq<DeltaView>, b: Seq<DeltaView>)
    requires
        laid_out(s),
        pairwise_compatible(a),
        a.to_multiset() == b.to_multiset(),
    ensures
        apply_deltas(s, a) == apply_deltas(s, b),
{
    let step = delta_step();
    let good = layout();
    let rel = compatibility();
    assert forall|t: CatalogView, d: DeltaView| good(t) implies good(#[trigger] step(t, d)) by {
        lemma_apply_laid_out(t, d);
    }
    assert forall|t: CatalogView, d1: DeltaView, d2: DeltaView|
        good(t) && rel(d1, d2) implies #[trigger] step(step(t, d1), d2) == step(
        step(t, d2),
        d1,
    ) by {
        lemma_apply_commute(t, d1, d2);
    }
    lemma_fold_permutation(s, a, b, step, good, rel);
}

/// The result of an update does not depend on the order of compatible deltas:
/// the finalizations of the catalogs that two orders lead to are the same.
pub proof fn lemma_update_order_irrelevant(
    s: CatalogView,
    a: Seq<DeltaView>,
    b: Seq<DeltaView>,
    threshold: u32,
    after_a: CatalogView,
    after_b: CatalogView,
)
    requires
        laid_out(s),
        pairwise_compatible(a),
        a.to_multiset() == b.to_multiset(),
        is_finalization(apply_deltas(s, a), threshold, after_a),
        is_finalization(apply_deltas(s, b), threshold, after_b),
    ensures
        after_a == after_b,
{
    lemma_apply_deltas_permutation(s, a, b);
    lemma_finalization_unique(apply_deltas(s, a), threshold, after_a, after_b);
}

/// Offering an attestation keeps the contributors distinct.
pub proof fn lemma_attest_distinct(s: Seq<AttestationView>, a: AttestationView)
    requires
        distinct_contributors(s),
    ensures
        distinct_contributors(attest(s, a)),
{
    if !has_pubkey(s, a.contributor_pubkey) {
        lemma_distinct_push(s, a, by_pubkey());
        lemma_sort_distinct(s.push(a), by_pubkey());
    }
}

/// Applying an acceptable delta keeps an entry valid.
pub proof fn lemma_apply_entry_valid(e: EntryView, d: DeltaView, weight: u32)
    requires
        entry_laid_out(e),
        entry_valid(e),
        delta_acceptable(d),
    ensures
        entry_valid(apply_to_entry(e, d, weight)),
{
    let h = d.metadata_hash;
    let vs = e.hash_variants;
    let prior = match assoc_get(vs, h) {
        Some(v) => v.attestations,
        None => Seq::empty(),
    };
    if has_key(vs, h) {
        let i = index_of_key(vs, h);
        assert(variant_valid(vs[i].0, vs[i].1));
    }
    let a = AttestationView { weight, ..d.attestation };
    lemma_attest_distinct(prior, a);
    let changed = apply_to_variant(prior, d, weight);
    let after = apply_to_entry(e, d, weight);
    assert forall|j: int| 0 <= j < after.hash_variants.len() implies variant_valid(
        (#[trigger] after.hash_variants[j]).0,
        after.hash_variants[j].1,
    ) by {
        lemma_put_elements(vs, h, changed, j);
        if after.hash_variants[j] != (h, changed) {
            let i = choose|i: int| 0 <= i < vs.len() && #[trigger] vs[i] == after.hash_variants[j];
            assert(variant_valid(vs[i].0, vs[i].1));
        }
    }
}

/// Applying an acceptable delta keeps a catalog valid.
pub proof fn lemma_apply_valid(s: CatalogView, d: DeltaView)
    requires
        laid_out(s),
        state_valid(s),
        delta_acceptable(d),
    ensures
        state_valid(apply_delta_spec(s, d)),
{
    let e = entry_before(s, d);
    let w = delta_weight(s, d);
    let changed = apply_to_entry(e, d, w);
    let after = apply_delta_spec(s, d);
    lemma_entry_before_laid_out(s, d);
    if has_key(s.entries, d.contract_key) {
        let i = index_of_key(s.entries, d.contract_key);
        assert(entry_valid(s.entries[i].1));
    }
    lemma_apply_entry_valid(e, d, w);
    assert forall|j: int| 0 <= j < after.entries.len() implies entry_valid(
        (#[trigger] after.entries[j]).1,
    ) by {
        lemma_put_elements(s.entries, d.contract_key, changed, j);
        if after.entries[j] != (d.contract_key, changed) {
            let i = choose|i: int|
                0 <= i < s.entries.len() && #[trigger] s.entries[i] == after.entries[j];
            assert(entry_valid(s.entries[i].1));
        }
    }
}

/// Applying acceptable deltas keeps a catalog valid.
pub proof fn lemma_apply_deltas_valid(s: CatalogView, deltas: Seq<DeltaView>)
    requires
        laid_out(s),
        state_valid(s),
        deltas_acceptable(deltas),
    ensures
        state_valid(apply_deltas(s, deltas)),
    decreases deltas.len(),
{
    if deltas.len() > 0 {
        let front = deltas.drop_last();
        assert(deltas_acceptable(front)) by {
            assert forall|i: int| 0 <= i < front.len() implies delta_acceptable(
                #[trigger] front[i],
            ) by {
                assert(front[i] == deltas[i]);
            }
        }
        lemma_apply_deltas_valid(s, front);
        lemma_apply_deltas_laid_out(s, front);
        assert(delta_acceptable(deltas[deltas.len() - 1]));
        lemma_apply_valid(apply_deltas(s, front), deltas.last());
    }
}

/// Finalization keeps a catalog valid.
pub proof fn lemma_finalization_valid(before: CatalogView, threshold: u32, after: CatalogView)
    requires
        state_valid(before),
        is_finalization(before, threshold, after),
    ensures
        state_valid(after),
{
    let table = after.contributors;
    assert forall|i: int| 0 <= i < after.entries.len() implies entry_valid(
        (#[trigger] after.entries[i]).1,
    ) by {
        let e = before.entries[i].1;
        let f = after.entries[i].1;
        assert(entry_valid(e));
        assert(f == finalize_entry(e, table, threshold));
        assert forall|j: int| 0 <= j < f.hash_variants.len() implies variant_valid(
            (#[trigger] f.hash_variants[j]).0,
            f.hash_variants[j].1,
        ) by {
            let v = e.hash_variants[j].1;
            assert(variant_valid(e.hash_variants[j].0, v));
            let atts = finalize_attestations(v.attestations, table);
            assert forall|x: int, y: int| 0 <= x < y < atts.len() implies (
            #[trigger] atts[x]).contributor_pubkey != (#[trigger] atts[y]).contributor_pubkey by {
                assert(atts[x].contributor_pubkey == v.attestations[x].contributor_pubkey);
                assert(atts[y].contributor_pubkey == v.attestations[y].contributor_pubkey);
            }
        }
    }
}

/// An update by acceptable deltas keeps a valid catalog valid.
pub proof fn lemma_update_keeps_validity(
    s: CatalogView,
    deltas: Seq<DeltaView>,
    threshold: u32,
    after: CatalogView,
)
    requires
        laid_out(s),
        state_valid(s),
        deltas_acceptable(deltas),
        is_finalization(apply_deltas(s, deltas), threshold, after),
    ensures
        state_valid(after),
{
    lemma_apply_deltas_valid(s, deltas);
    lemma_finalization_valid(apply_deltas(s, deltas), threshold, after);
}

/// Validity of a variant under its hash, as a property of a pair.
pub open spec fn valid_variant() -> spec_fn(Seq<u8>, VariantView) -> bool {
    |hash: Seq<u8>, v: VariantView| variant_valid(hash, v)
}

/// Validity and layout of an entry, as a property of a pair.
pub open spec fn sound_entry() -> spec_fn(Seq<u8>, EntryView) -> bool {
    |key: Seq<u8>, e: EntryView| entry_valid(e) && entry_laid_out(e)
}

/// Merging a valid variant of a peer into a valid variant under the same
/// hash, or into nothing, leaves a valid variant.
pub proof fn lemma_merge_variant_valid(hash: Seq<u8>, mine: Option<VariantView>, theirs: VariantView)
    requires
        variant_valid(hash, theirs),
        mine is Some ==> variant_valid(hash, mine->0),
    ensures
        variant_valid(hash, variant_join()(hash, mine, theirs)),
{
    let a = match mine {
        Some(v) => v,
        None => adopted_variant(theirs),
    };
    assert(distinct_contributors(a.attestations));
    lemma_append_missing_distinct(a.attestations, theirs.attestations);
    lemma_sort_distinct(append_missing(a.attestations, theirs.attestations), by_pubkey());
}

/// Merging a valid entry of a peer into a valid entry keeps it valid and well
/// laid out.
pub proof fn lemma_merge_entry_valid(e: EntryView, theirs: EntryView)
    requires
        entry_valid(e),
        entry_laid_out(e),
        entry_valid(theirs),
    ensures
        entry_valid(merge_entry(e, theirs)),
        entry_laid_out(merge_entry(e, theirs)),
{
    let good = valid_variant();
    let b = theirs.hash_variants;
    assert(all_pairs(e.hash_variants, good)) by {
        assert forall|i: int| 0 <= i < e.hash_variants.len() implies good(
            (#[trigger] e.hash_variants[i]).0,
            e.hash_variants[i].1,
        ) by {
            assert(variant_valid(e.hash_variants[i].0, e.hash_variants[i].1));
        }
    }
    assert(joins_well(b, variant_join(), good)) by {
        assert forall|i: int, mine: Option<VariantView>|
            0 <= i < b.len() && (mine is Some ==> good(b[i].0, mine->0)) implies good(
            b[i].0,
            #[trigger] variant_join()(b[i].0, mine, b[i].1),
        ) by {
            assert(variant_valid(b[i].0, b[i].1));
            lemma_merge_variant_valid(b[i].0, mine, b[i].1);
        }
    }
    lemma_merge_assoc_keeps(e.hash_variants, b, variant_join(), good);
    let merged = merge_entry(e, theirs).hash_variants;
    assert forall|j: int| 0 <= j < merged.len() implies variant_valid(
        (#[trigger] merged[j]).0,
        merged[j].1,
    ) by {
        assert(good(merged[j].0, merged[j].1));
    }
}

/// Merging the valid state of a peer into a valid catalog leaves a valid
/// catalog, well laid out.
pub proof fn lemma_merge_valid(a: CatalogView, b: CatalogView)
    requires
        laid_out(a),
        state_valid(a),
        state_valid(b),
    ensures
        laid_out(merge_spec(a, b)),
        state_valid(merge_spec(a, b)),
{
    let good = sound_entry();
    assert(all_pairs(a.entries, good)) by {
        assert forall|i: int| 0 <= i < a.entries.len() implies good(
            (#[trigger] a.entries[i]).0,
            a.entries[i].1,
        ) by {
            assert(entry_valid(a.entries[i].1));
            assert(entry_laid_out(a.entries[i].1));
        }
    }
    assert(joins_well(b.entries, entry_join(), good)) by {
        assert forall|i: int, mine: Option<EntryView>|
            0 <= i < b.entries.len() && (mine is Some ==> good(b.entries[i].0, mine->0)) implies good(
            b.entries[i].0,
            #[trigger] entry_join()(b.entries[i].0, mine, b.entries[i].1),
        ) by {
            assert(entry_valid(b.entries[i].1));
            let e = match mine {
                Some(e) => e,
                None => fresh_entry(b.entries[i].1.contract_key),
            };
            lemma_merge_entry_valid(e, b.entries[i].1);
        }
    }
    lemma_merge_assoc_keeps(a.entries, b.entries, entry_join(), good);
    let any = |key: Seq<u8>, c: ContributorView| true;
    assert(all_pairs(a.contributors, any));
    assert(joins_well(b.contributors, score_join(), any));
    lemma_merge_assoc_keeps(a.contributors, b.contributors, score_join(), any);
    let after = merge_spec(a, b);
    assert forall|j: int| 0 <= j < after.entries.len() implies entry_valid(
        (#[trigger] after.entries[j]).1,
    ) && entry_laid_out(after.entries[j].1) by {
        assert(good(after.entries[j].0, after.entries[j].1));
    }
}

/// One acceptable update keeps a valid catalog valid and well laid out.
pub proof fn lemma_apply_update_valid(s: CatalogView, u: UpdateView)
    requires
        laid_out(s),
        state_valid(s),
        update_acceptable(u),
    ensures
        laid_out(apply_update(s, u)),
        state_valid(apply_update(s, u)),
{
    match u {
        UpdateView::Delta(d) => {
            lemma_apply_laid_out(s, d);
            lemma_apply_valid(s, d);
        },
        UpdateView::DeltaBatch(ds) => {
            lemma_apply_deltas_laid_out(s, ds);
            lemma_apply_deltas_valid(s, ds);
        },
        UpdateView::State(b) => {
            lemma_merge_valid(s, b);
        },
        UpdateView::Malformed => {},
        UpdateView::Unrelated => {},
    }
}

/// Acceptable updates keep a valid catalog valid and well laid out.
pub proof fn lemma_apply_updates_valid(s: CatalogView, updates: Seq<UpdateView>)
    requires
        laid_out(s),
        state_valid(s),
        updates_acceptable(updates),
    ensures
        laid_out(apply_updates(s, updates)),
        state_valid(apply_updates(s, updates)),
    decreases updates.len(),
{
    if updates.len() > 0 {
        let front = updates.drop_last();
        assert(updates_acceptable(front)) by {
            assert forall|i: int| 0 <= i < front.len() implies update_acceptable(
                #[trigger] front[i],
            ) by {
                assert(front[i] == updates[i]);
            }
        }
        lemma_apply_updates_valid(s, front);
        assert(update_acceptable(updates[updates.len() - 1]));
        lemma_apply_update_valid(apply_updates(s, front), updates.last());
    }
}

/// An update keeps a valid catalog valid, whatever it is made of: deltas,
/// batches and the states of peers.
pub proof fn lemma_update_stays_valid(
    s: CatalogView,
    updates: Seq<UpdateView>,
    threshold: u32,
    after: CatalogView,
)
    requires
        laid_out(s),
        state_valid(s),
        updates_acceptable(updates),
        is_finalization(apply_updates(s, updates), threshold, after),
    ensures
        state_valid(after),
{
    lemma_apply_updates_valid(s, updates);
    lemma_finalization_valid(apply_updates(s, updates), threshold, after);
}

} // verus!
