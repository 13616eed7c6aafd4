//! Laws of the merge of catalogs.
//!
//! A catalog is settled when its derived values are in place: the
//! attestations of every variant stand in the order of their contributors and
//! the total of every variant is that of its weights. Deltas keep the
//! attestations in order, and finalization settles a catalog whose
//! attestations are in order.

use vstd::prelude::*;

use crate::bytes::lex_less;
use crate::catalog::{
    apply_delta_spec, apply_to_entry, apply_to_variant, by_pubkey, fresh_entry, has_pubkey,
    sort_by_pubkey, weight_sum,
};
use crate::catalog_contract::distinct_contributors;
use crate::catalog_finalize::{finalize_attestations, finalize_entry, is_finalization};
use crate::catalog_laws::{delta_weight, entry_before, entry_laid_out, laid_out, ordered_by_pubkey};
use crate::catalog_merge::{
    adopted_variant, append_missing, entry_join, merge_contributors, merge_entries, merge_entry,
    merge_score, merge_spec, merge_variant, merge_variants, score_join, variant_join,
};
use crate::ordered_map::{
    assoc_get, has_key, index_of_key, keys_increasing, lemma_get_at, lemma_merge_assoc_regroup,
    lemma_put_elements, lemma_put_same, regroups_at,
};
use crate::sorting::{
    find_by, lemma_distinct_push, lemma_find_has_key, lemma_find_push, lemma_find_sort,
    lemma_sort_distinct, lemma_sort_of_ordered, lemma_sort_ordered, lemma_sorted_canonical,
};
use crate::types::{
    AttestationView, CatalogView, ContributorView, DeltaView, EntryView, VariantView,
};

verus! {

/// Whether the derived values of a variant are in place.
pub open spec fn variant_settled(v: VariantView) -> bool {
    ordered_by_pubkey(v.attestations) && v.total_weight == weight_sum(v.attestations)
}

/// Whether the derived values of every variant of an entry are in place.
pub open spec fn entry_settled(e: EntryView) -> bool {
    forall|j: int|
        0 <= j < e.hash_variants.len() ==> variant_settled((#[trigger] e.hash_variants[j]).1)
}

/// Whether a catalog is settled.
pub open spec fn settled(s: CatalogView) -> bool {
    forall|i: int| 0 <= i < s.entries.len() ==> entry_settled((#[trigger] s.entries[i]).1)
}

/// Attestations whose contributors are all known add nothing.
pub proof fn lemma_append_known(a: Seq<AttestationView>, b: Seq<AttestationView>)
    requires
        forall|i: int| 0 <= i < b.len() ==> has_pubkey(a, (#[trigger] b[i]).contributor_pubkey),
    ensures
        append_missing(a, b) == a,
    decreases b.len(),
{
    if b.len() > 0 {
        let front = b.drop_last();
        assert forall|i: int| 0 <= i < front.len() implies has_pubkey(
            a,
            (#[trigger] front[i]).contributor_pubkey,
        ) by {
            assert(front[i] == b[i]);
        }
        lemma_append_known(a, front);
        assert(has_pubkey(a, b[b.len() - 1].contributor_pubkey));
    }
}

/// Merging a settled variant into itself changes nothing.
pub proof fn lemma_merge_variant_same(v: VariantView)
    requires
        variant_settled(v),
    ensures
        merge_variant(v, v) == v,
{
    let atts = v.attestations;
    assert forall|i: int| 0 <= i < atts.len() implies has_pubkey(
        atts,
        (#[trigger] atts[i]).contributor_pubkey,
    ) by {
        assert(by_pubkey()(atts[i]) == atts[i].contributor_pubkey);
    }
    lemma_append_known(atts, atts);
    lemma_sort_of_ordered(atts, by_pubkey());
}

proof fn lemma_merge_variants_prefix(a: Seq<(Seq<u8>, VariantView)>, n: int)
    requires
        keys_increasing(a),
        0 <= n <= a.len(),
        forall|j: int| 0 <= j < a.len() ==> variant_settled((#[trigger] a[j]).1),
    ensures
        merge_variants(a, a.subrange(0, n)) == a,
    decreases n,
{
    if n > 0 {
        let prefix = a.subrange(0, n);
        assert(prefix.drop_last() =~= a.subrange(0, n - 1));
        assert(prefix.last() == a[n - 1]);
        lemma_merge_variants_prefix(a, n - 1);
        lemma_get_at(a, n - 1);
        assert(variant_settled(a[n - 1].1));
        lemma_merge_variant_same(a[n - 1].1);
        lemma_put_same(a, n - 1);
    }
}

/// Merging a settled entry into itself changes nothing.
pub proof fn lemma_merge_entry_same(e: EntryView)
    requires
        entry_laid_out(e),
        entry_settled(e),
    ensures
        merge_entry(e, e) == e,
{
    lemma_merge_variants_prefix(e.hash_variants, e.hash_variants.len() as int);
    assert(e.hash_variants.subrange(0, e.hash_variants.len() as int) =~= e.hash_variants);
}

proof fn lemma_merge_entries_prefix(a: Seq<(Seq<u8>, EntryView)>, n: int)
    requires
        keys_increasing(a),
        0 <= n <= a.len(),
        forall|i: int| 0 <= i < a.len() ==> entry_laid_out((#[trigger] a[i]).1),
        forall|i: int| 0 <= i < a.len() ==> entry_settled((#[trigger] a[i]).1),
    ensures
        merge_entries(a, a.subrange(0, n)) == a,
    decreases n,
{
    if n > 0 {
        let prefix = a.subrange(0, n);
        assert(prefix.drop_last() =~= a.subrange(0, n - 1));
        assert(prefix.last() == a[n - 1]);
        lemma_merge_entries_prefix(a, n - 1);
        lemma_get_at(a, n - 1);
        assert(entry_laid_out(a[n - 1].1));
        assert(entry_settled(a[n - 1].1));
        lemma_merge_entry_same(a[n - 1].1);
        lemma_put_same(a, n - 1);
    }
}

proof fn lemma_merge_contributors_prefix(a: Seq<(Seq<u8>, ContributorView)>, n: int)
    requires
        keys_increasing(a),
        0 <= n <= a.len(),
    ensures
        merge_contributors(a, a.subrange(0, n)) == a,
    decreases n,
{
    if n > 0 {
        let prefix = a.subrange(0, n);
        assert(prefix.drop_last() =~= a.subrange(0, n - 1));
        assert(prefix.last() == a[n - 1]);
        lemma_merge_contributors_prefix(a, n - 1);
        lemma_get_at(a, n - 1);
        assert(merge_score(a[n - 1].1, a[n - 1].1) == a[n - 1].1);
        lemma_put_same(a, n - 1);
    }
}

/// Idempotence of the merge: merging a settled catalog into itself changes
/// nothing.
pub proof fn lemma_merge_same(s: CatalogView)
    requires
        laid_out(s),
        settled(s),
    ensures
        merge_spec(s, s) == s,
{
    lemma_merge_entries_prefix(s.entries, s.entries.len() as int);
    lemma_merge_contributors_prefix(s.contributors, s.contributors.len() as int);
    assert(s.entries.subrange(0, s.entries.len() as int) =~= s.entries);
    assert(s.contributors.subrange(0, s.contributors.len() as int) =~= s.contributors);
}

/// Whether the attestations of every variant of an entry are in order.
pub open spec fn entry_in_order(e: EntryView) -> bool {
    forall|j: int|
        0 <= j < e.hash_variants.len() ==> ordered_by_pubkey(
            (#[trigger] e.hash_variants[j]).1.attestations,
        )
}

/// Whether the attestations of every variant of a catalog are in order.
pub open spec fn in_order(s: CatalogView) -> bool {
    forall|i: int| 0 <= i < s.entries.len() ==> entry_in_order((#[trigger] s.entries[i]).1)
}

/// A delta keeps the attestations of an entry in order.
pub proof fn lemma_apply_entry_in_order(e: EntryView, d: DeltaView, weight: u32)
    requires
        entry_laid_out(e),
        entry_in_order(e),
    ensures
        entry_in_order(apply_to_entry(e, d, weight)),
{
    let h = d.metadata_hash;
    let vs = e.hash_variants;
    let prior = match assoc_get(vs, h) {
        Some(v) => v.attestations,
        None => Seq::empty(),
    };
    if has_key(vs, h) {
        let i = index_of_key(vs, h);
        assert(ordered_by_pubkey(vs[i].1.attestations));
    }
    let a = AttestationView { weight, ..d.attestation };
    lemma_sort_ordered(prior.push(a), by_pubkey());
    let changed = apply_to_variant(prior, d, weight);
    let after = apply_to_entry(e, d, weight);
    assert forall|j: int| 0 <= j < after.hash_variants.len() implies ordered_by_pubkey(
        (#[trigger] after.hash_variants[j]).1.attestations,
    ) by {
        lemma_put_elements(vs, h, changed, j);
        if after.hash_variants[j] != (h, changed) {
            let i = choose|i: int| 0 <= i < vs.len() && #[trigger] vs[i] == after.hash_variants[j];
            assert(ordered_by_pubkey(vs[i].1.attestations));
        }
    }
}

/// A delta keeps the attestations of a catalog in order.
pub proof fn lemma_apply_in_order(s: CatalogView, d: DeltaView)
    requires
        laid_out(s),
        in_order(s),
    ensures
        in_order(apply_delta_spec(s, d)),
{
    let e = entry_before(s, d);
    let w = delta_weight(s, d);
    let changed = apply_to_entry(e, d, w);
    let after = apply_delta_spec(s, d);
    if has_key(s.entries, d.contract_key) {
        let i = index_of_key(s.entries, d.contract_key);
        assert(entry_in_order(s.entries[i].1));
        assert(entry_laid_out(s.entries[i].1));
    }
    lemma_apply_entry_in_order(e, d, w);
    assert forall|j: int| 0 <= j < after.entries.len() implies entry_in_order(
        (#[trigger] after.entries[j]).1,
    ) by {
        lemma_put_elements(s.entries, d.contract_key, changed, j);
        if after.entries[j] != (d.contract_key, changed) {
            let i = choose|i: int|
                0 <= i < s.entries.len() && #[trigger] s.entries[i] == after.entries[j];
            assert(entry_in_order(s.entries[i].1));
        }
    }
}

/// Finalization settles a catalog whose attestations are in order.
pub proof fn lemma_finalization_settles(before: CatalogView, threshold: u32, after: CatalogView)
    requires
        in_order(before),
        is_finalization(before, threshold, after),
    ensures
        settled(after),
{
    let table = after.contributors;
    let key = by_pubkey();
    assert forall|i: int| 0 <= i < after.entries.len() implies entry_settled(
        (#[trigger] after.entries[i]).1,
    ) by {
        let e = before.entries[i].1;
        let f = after.entries[i].1;
        assert(entry_in_order(e));
        assert(f == finalize_entry(e, table, threshold));
        assert forall|j: int| 0 <= j < f.hash_variants.len() implies variant_settled(
            (#[trigger] f.hash_variants[j]).1,
        ) by {
            let v = e.hash_variants[j].1;
            assert(ordered_by_pubkey(v.attestations));
            let atts = finalize_attestations(v.attestations, table);
            assert forall|x: int, y: int| 0 <= x < y < atts.len() implies !lex_less(
                key(#[trigger] atts[y]),
                key(#[trigger] atts[x]),
            ) by {
                assert(key(atts[x]) == key(v.attestations[x]));
                assert(key(atts[y]) == key(v.attestations[y]));
            }
        }
    }
}

/// The attestation of a contributor in a list, where there is one.
pub open spec fn attestation_of(s: Seq<AttestationView>, pubkey: Seq<u8>) -> Option<
    AttestationView,
> {
    find_by(s, pubkey, by_pubkey())
}

/// The first of two options that holds a value.
pub open spec fn or_else(first: Option<AttestationView>, second: Option<AttestationView>) -> Option<
    AttestationView,
> {
    match first {
        Some(x) => Some(x),
        None => second,
    }
}

/// After attestations are added, a contributor has the attestation that it
/// had, or else the first that was offered.
pub proof fn lemma_append_missing_find(a: Seq<AttestationView>, b: Seq<AttestationView>, q: Seq<u8>)
    ensures
        attestation_of(append_missing(a, b), q) == or_else(
            attestation_of(a, q),
            attestation_of(b, q),
        ),
    decreases b.len(),
{
    let key = by_pubkey();
    if b.len() > 0 {
        let front = b.drop_last();
        let last = b.last();
        let r = append_missing(a, front);
        lemma_append_missing_find(a, front, q);
        lemma_find_has_key(r, q, key);
        lemma_find_has_key(r, last.contributor_pubkey, key);
        lemma_find_push(r, last, q, key);
        assert(key(last) == last.contributor_pubkey);
    }
}

/// Adding attestations keeps the contributors distinct.
pub proof fn lemma_append_missing_distinct(a: Seq<AttestationView>, b: Seq<AttestationView>)
    requires
        distinct_contributors(a),
    ensures
        distinct_contributors(append_missing(a, b)),
    decreases b.len(),
{
    if b.len() > 0 {
        let front = b.drop_last();
        lemma_append_missing_distinct(a, front);
        let r = append_missing(a, front);
        assert(by_pubkey()(b.last()) == b.last().contributor_pubkey);
        lemma_distinct_push(r, b.last(), by_pubkey());
    }
}

/// The attestations of two sides united: those of this side, then those of
/// the peer whose contributor is new, all in the order of the contributors.
pub open spec fn united(a: Seq<AttestationView>, b: Seq<AttestationView>) -> Seq<AttestationView> {
    sort_by_pubkey(append_missing(a, b))
}

/// United attestations are in order, hold each contributor once, and give a
/// contributor the attestation of this side or else that of the peer.
pub proof fn lemma_united(a: Seq<AttestationView>, b: Seq<AttestationView>)
    requires
        distinct_contributors(a),
    ensures
        ordered_by_pubkey(united(a, b)),
        distinct_contributors(united(a, b)),
        forall|q: Seq<u8>| #[trigger]
            attestation_of(united(a, b), q) == or_else(attestation_of(a, q), attestation_of(b, q)),
{
    let key = by_pubkey();
    let all = append_missing(a, b);
    lemma_append_missing_distinct(a, b);
    lemma_sort_ordered(all, key);
    lemma_sort_distinct(all, key);
    assert forall|q: Seq<u8>| #[trigger]
        attestation_of(united(a, b), q) == or_else(
            attestation_of(a, q),
            attestation_of(b, q),
        ) by {
        lemma_find_sort(all, q, key);
        lemma_append_missing_find(a, b, q);
    }
}

/// Uniting the attestations of three sides is the same in either grouping.
pub proof fn lemma_united_associative(
    a: Seq<AttestationView>,
    b: Seq<AttestationView>,
    c: Seq<AttestationView>,
)
    requires
        distinct_contributors(a),
        distinct_contributors(b),
    ensures
        united(united(a, b), c) == united(a, united(b, c)),
{
    lemma_united(a, b);
    lemma_united(b, c);
    lemma_united(united(a, b), c);
    lemma_united(a, united(b, c));
    let left = united(united(a, b), c);
    let right = united(a, united(b, c));
    assert forall|q: Seq<u8>| find_by(left, q, by_pubkey()) == find_by(right, q, by_pubkey()) by {
        assert(attestation_of(left, q) == or_else(
            attestation_of(united(a, b), q),
            attestation_of(c, q),
        ));
        assert(attestation_of(united(a, b), q) == or_else(
            attestation_of(a, q),
            attestation_of(b, q),
        ));
        assert(attestation_of(right, q) == or_else(
            attestation_of(a, q),
            attestation_of(united(b, c), q),
        ));
        assert(attestation_of(united(b, c), q) == or_else(
            attestation_of(b, q),
            attestation_of(c, q),
        ));
    }
    lemma_sorted_canonical(left, right, by_pubkey());
}

/// What is united with this side depends on the peer's attestations only
/// through the attestation that each contributor has.
pub proof fn lemma_united_by_lookup(
    a: Seq<AttestationView>,
    b: Seq<AttestationView>,
    c: Seq<AttestationView>,
)
    requires
        distinct_contributors(a),
        forall|q: Seq<u8>| attestation_of(b, q) == attestation_of(c, q),
    ensures
        united(a, b) == united(a, c),
{
    lemma_united(a, b);
    lemma_united(a, c);
    assert forall|q: Seq<u8>|
        find_by(united(a, b), q, by_pubkey()) == find_by(united(a, c), q, by_pubkey()) by {
        assert(attestation_of(united(a, b), q) == or_else(
            attestation_of(a, q),
            attestation_of(b, q),
        ));
        assert(attestation_of(united(a, c), q) == or_else(
            attestation_of(a, q),
            attestation_of(c, q),
        ));
        assert(attestation_of(b, q) == attestation_of(c, q));
    }
    lemma_sorted_canonical(united(a, b), united(a, c), by_pubkey());
}

/// Whether every variant of an entry holds each contributor once.
pub open spec fn entry_distinct(e: EntryView) -> bool {
    forall|j: int|
        0 <= j < e.hash_variants.len() ==> distinct_contributors(
            (#[trigger] e.hash_variants[j]).1.attestations,
        )
}

/// Whether every variant of a catalog holds each contributor once.
pub open spec fn contributors_distinct(s: CatalogView) -> bool {
    forall|i: int| 0 <= i < s.entries.len() ==> entry_distinct((#[trigger] s.entries[i]).1)
}

/// Merging variants one after the other is merging their merge.
pub proof fn lemma_merge_variant_regroup(v: VariantView, w: VariantView, u: VariantView)
    requires
        distinct_contributors(v.attestations),
        distinct_contributors(w.attestations),
    ensures
        merge_variant(merge_variant(v, w), u) == merge_variant(v, merge_variant(w, u)),
{
    lemma_united_associative(v.attestations, w.attestations, u.attestations);
}

proof fn lemma_variant_join_regroup(
    x: Seq<(Seq<u8>, VariantView)>,
    y: Seq<(Seq<u8>, VariantView)>,
    z: Seq<(Seq<u8>, VariantView)>,
    h: Seq<u8>,
)
    requires
        keys_increasing(x),
        keys_increasing(y),
        forall|j: int| 0 <= j < x.len() ==> distinct_contributors((#[trigger] x[j]).1.attestations),
        forall|j: int| 0 <= j < y.len() ==> distinct_contributors((#[trigger] y[j]).1.attestations),
    ensures
        regroups_at(x, y, z, variant_join(), h),
{
    let join = variant_join();
    let mine = assoc_get(x, h);
    if has_key(x, h) {
        let i = index_of_key(x, h);
        assert(distinct_contributors(x[i].1.attestations));
    }
    if has_key(y, h) {
        let i = index_of_key(y, h);
        assert(distinct_contributors(y[i].1.attestations));
    }
    match (assoc_get(y, h), assoc_get(z, h)) {
        (Some(second), Some(third)) => {
            let base = match mine {
                Some(v) => v,
                None => adopted_variant(second),
            };
            lemma_merge_variant_regroup(base, second, third);
            assert(adopted_variant(merge_variant(second, third)) == adopted_variant(second));
        },
        (None, Some(third)) => {
            let base = match mine {
                Some(v) => v,
                None => adopted_variant(third),
            };
            let empty = Seq::<AttestationView>::empty();
            let plain = merge_variant(adopted_variant(third), third);
            lemma_united(empty, third.attestations);
            assert forall|q: Seq<u8>|
                attestation_of(third.attestations, q) == attestation_of(
                    plain.attestations,
                    q,
                ) by {
                assert(attestation_of(united(empty, third.attestations), q) == or_else(
                    attestation_of(empty, q),
                    attestation_of(third.attestations, q),
                ));
            }
            lemma_united_by_lookup(base.attestations, third.attestations, plain.attestations);
            assert(adopted_variant(plain) == adopted_variant(third));
        },
        _ => {},
    }
}

/// Merging the variants of three entries is the same in either grouping.
pub proof fn lemma_merge_variants_regroup(
    x: Seq<(Seq<u8>, VariantView)>,
    y: Seq<(Seq<u8>, VariantView)>,
    z: Seq<(Seq<u8>, VariantView)>,
)
    requires
        keys_increasing(x),
        keys_increasing(y),
        keys_increasing(z),
        forall|j: int| 0 <= j < x.len() ==> distinct_contributors((#[trigger] x[j]).1.attestations),
        forall|j: int| 0 <= j < y.len() ==> distinct_contributors((#[trigger] y[j]).1.attestations),
    ensures
        merge_variants(merge_variants(x, y), z) == merge_variants(x, merge_variants(y, z)),
{
    assert forall|h: Seq<u8>| regroups_at(x, y, z, variant_join(), h) by {
        lemma_variant_join_regroup(x, y, z, h);
    }
    lemma_merge_assoc_regroup(x, y, z, variant_join());
}

/// Merging entries one after the other is merging their merge.
pub proof fn lemma_merge_entry_regroup(x: EntryView, y: EntryView, z: EntryView)
    requires
        entry_laid_out(x),
        entry_laid_out(y),
        entry_laid_out(z),
        entry_distinct(x),
        entry_distinct(y),
    ensures
        merge_entry(merge_entry(x, y), z) == merge_entry(x, merge_entry(y, z)),
{
    lemma_merge_variants_regroup(x.hash_variants, y.hash_variants, z.hash_variants);
}

proof fn lemma_entry_join_regroup(a: CatalogView, b: CatalogView, c: CatalogView, k: Seq<u8>)
    requires
        laid_out(a),
        laid_out(b),
        laid_out(c),
        contributors_distinct(a),
        contributors_distinct(b),
    ensures
        regroups_at(a.entries, b.entries, c.entries, entry_join(), k),
{
    let mine = assoc_get(a.entries, k);
    if has_key(a.entries, k) {
        let i = index_of_key(a.entries, k);
        assert(entry_laid_out(a.entries[i].1) && entry_distinct(a.entries[i].1));
    }
    if has_key(b.entries, k) {
        let i = index_of_key(b.entries, k);
        assert(entry_laid_out(b.entries[i].1) && entry_distinct(b.entries[i].1));
    }
    if has_key(c.entries, k) {
        let i = index_of_key(c.entries, k);
        assert(entry_laid_out(c.entries[i].1));
    }
    let base = match mine {
        Some(e) => e,
        None => fresh_entry(k),
    };
    match (assoc_get(b.entries, k), assoc_get(c.entries, k)) {
        (Some(second), Some(third)) => {
            lemma_merge_entry_regroup(base, second, third);
        },
        (None, Some(third)) => {
            let none = Seq::<(Seq<u8>, VariantView)>::empty();
            lemma_merge_variants_regroup(base.hash_variants, none, third.hash_variants);
        },
        _ => {},
    }
}

proof fn lemma_score_join_regroup(
    x: Seq<(Seq<u8>, ContributorView)>,
    y: Seq<(Seq<u8>, ContributorView)>,
    z: Seq<(Seq<u8>, ContributorView)>,
    k: Seq<u8>,
)
    ensures
        regroups_at(x, y, z, score_join(), k),
{
}

/// Associativity of the merge: merging three catalogs is the same in either
/// grouping, as long as the first two hold each contributor once in every
/// variant.
pub proof fn lemma_merge_regroup(a: CatalogView, b: CatalogView, c: CatalogView)
    requires
        laid_out(a),
        laid_out(b),
        laid_out(c),
        contributors_distinct(a),
        contributors_distinct(b),
    ensures
        merge_spec(merge_spec(a, b), c) == merge_spec(a, merge_spec(b, c)),
{
    assert forall|k: Seq<u8>| regroups_at(a.entries, b.entries, c.entries, entry_join(), k) by {
        lemma_entry_join_regroup(a, b, c, k);
    }
    lemma_merge_assoc_regroup(a.entries, b.entries, c.entries, entry_join());
    assert forall|k: Seq<u8>|
        regroups_at(a.contributors, b.contributors, c.contributors, score_join(), k) by {
        lemma_score_join_regroup(a.contributors, b.contributors, c.contributors, k);
    }
    lemma_merge_assoc_regroup(a.contributors, b.contributors, c.contributors, score_join());
}

} // verus!
