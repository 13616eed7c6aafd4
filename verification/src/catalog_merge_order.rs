//! The order of merges: two catalogs that agree may be merged in either
//! order, up to the values that finalization derives anew.
//!
//! A merge keeps what this side holds: the weight of an attestation, the
//! status of an entry, the total of a variant. These are derived values, and
//! finalization recomputes them. The bare catalog is the catalog without
//! them; the merges of two catalogs in either order have the same bare
//! catalog, and so the same finalization.

use vstd::prelude::*;

use crate::bytes::lex_less;
use crate::catalog::{
    apply_delta_spec, apply_to_entry, apply_to_variant, attestation_counts, by_pubkey, fresh_entry,
    has_pubkey, last_max_index, lemma_last_max_index_bounds, status_of,
};
use crate::catalog_contract::distinct_contributors;
use crate::catalog_finalize::{
    credits, earned_trust, finalize_attestations, finalize_entries, finalize_entry, finalized_score,
    is_finalization, lemma_finalization_unique,
};
use crate::catalog_laws::{
    delta_weight, entry_before, entry_laid_out, laid_out, lemma_apply_laid_out,
    lemma_attest_distinct, ordered_by_pubkey,
};
use crate::catalog_merge::{
    adopted_variant, append_missing, entry_join, merge_contributors, merge_entries, merge_entry,
    merge_spec, merge_variant, merge_variants, score_join, variant_join,
};
use crate::catalog_merge_laws::{
    attestation_of, contributors_distinct, entry_distinct, entry_in_order, in_order,
    lemma_apply_in_order, lemma_united, or_else, united,
};
use crate::ordered_map::{
    assoc_get, has_key, index_of_key, keys_increasing, lemma_canonical, lemma_get_at,
    lemma_merge_assoc, lemma_put_elements, lemma_values_mapped, merged_value,
};
use crate::sorting::{
    find_by, lemma_distinct_push, lemma_mapped, lemma_sort_of_ordered, lemma_sorted_canonical,
    map_option,
};
use crate::types::{AttestationView, CatalogView, DeltaView, EntryView, Status, VariantView};

verus! {

/// An attestation without its weight.
pub open spec fn bare_attestation(a: AttestationView) -> AttestationView {
    AttestationView { weight: 0, ..a }
}

/// Attestations without their weights.
pub open spec fn bare_attestations(s: Seq<AttestationView>) -> Seq<AttestationView> {
    s.map_values(|a: AttestationView| bare_attestation(a))
}

/// A variant without its weights and its total.
pub open spec fn bare_variant(v: VariantView) -> VariantView {
    VariantView {
        title: v.title,
        description: v.description,
        mini_snippet: v.mini_snippet,
        attestations: bare_attestations(v.attestations),
        total_weight: 0,
    }
}

/// Variants without their weights and their totals.
pub open spec fn bare_variants(s: Seq<(Seq<u8>, VariantView)>) -> Seq<(Seq<u8>, VariantView)> {
    s.map_values(|p: (Seq<u8>, VariantView)| (p.0, bare_variant(p.1)))
}

/// An entry without its status and without the weights and totals of its variants.
pub open spec fn bare_entry(e: EntryView) -> EntryView {
    EntryView {
        contract_key: e.contract_key,
        hash_variants: bare_variants(e.hash_variants),
        size_bytes: e.size_bytes,
        version: e.version,
        status: Status::Pending,
        first_seen: e.first_seen,
        last_seen: e.last_seen,
    }
}

/// Entries without their derived values.
pub open spec fn bare_entries(s: Seq<(Seq<u8>, EntryView)>) -> Seq<(Seq<u8>, EntryView)> {
    s.map_values(|p: (Seq<u8>, EntryView)| (p.0, bare_entry(p.1)))
}

/// The bare catalog: the catalog without the values that finalization derives.
pub open spec fn bare(s: CatalogView) -> CatalogView {
    CatalogView { entries: bare_entries(s.entries), contributors: s.contributors }
}

/// Whether every entry stands under its contract key and every score under
/// the key of its contributor.
pub open spec fn filed(s: CatalogView) -> bool {
    &&& forall|i: int|
        0 <= i < s.entries.len() ==> (#[trigger] s.entries[i]).1.contract_key == s.entries[i].0
    &&& forall|i: int|
        0 <= i < s.contributors.len() ==> (#[trigger] s.contributors[i]).1.pubkey
            == s.contributors[i].0
}

/// Whether a catalog is tidy: well laid out and filed, with the attestations
/// of every variant in order and by distinct contributors. Every catalog
/// that is built from the empty catalog by deltas is tidy.
pub open spec fn tidy(s: CatalogView) -> bool {
    laid_out(s) && filed(s) && in_order(s) && contributors_distinct(s)
}

/// Whether two lists of attestations agree: what both hold of a contributor
/// is the same attestation, apart from its weight.
pub open spec fn attestations_agree(a: Seq<AttestationView>, b: Seq<AttestationView>) -> bool {
    forall|q: Seq<u8>|
        #![trigger attestation_of(a, q)]
        #![trigger attestation_of(b, q)]
        attestation_of(a, q) is Some && attestation_of(b, q) is Some ==> bare_attestation(
            attestation_of(a, q)->0,
        ) == bare_attestation(attestation_of(b, q)->0)
}

/// Whether two variants agree: they carry the same texts and their
/// attestations agree.
pub open spec fn variants_agree(v: VariantView, w: VariantView) -> bool {
    &&& v.title == w.title
    &&& v.description == w.description
    &&& v.mini_snippet == w.mini_snippet
    &&& attestations_agree(v.attestations, w.attestations)
}

/// Whether two entries agree: the variants that both hold under a hash agree.
pub open spec fn entries_agree(x: EntryView, y: EntryView) -> bool {
    forall|h: Seq<u8>|
        #![trigger assoc_get(x.hash_variants, h)]
        #![trigger assoc_get(y.hash_variants, h)]
        assoc_get(x.hash_variants, h) is Some && assoc_get(y.hash_variants, h) is Some
            ==> variants_agree(
            assoc_get(x.hash_variants, h)->0,
            assoc_get(y.hash_variants, h)->0,
        )
}

/// Whether two catalogs agree: the entries that both hold under a key agree.
pub open spec fn agree(a: CatalogView, b: CatalogView) -> bool {
    forall|k: Seq<u8>|
        #![trigger assoc_get(a.entries, k)]
        #![trigger assoc_get(b.entries, k)]
        assoc_get(a.entries, k) is Some && assoc_get(b.entries, k) is Some ==> entries_agree(
            assoc_get(a.entries, k)->0,
            assoc_get(b.entries, k)->0,
        )
}

/// Attestations by distinct contributors are all added to the empty list.
pub proof fn lemma_append_missing_fresh(s: Seq<AttestationView>)
    requires
        distinct_contributors(s),
    ensures
        append_missing(Seq::empty(), s) == s,
    decreases s.len(),
{
    if s.len() > 0 {
        let front = s.drop_last();
        assert(front.push(s.last()) =~= s);
        assert(by_pubkey()(s.last()) == s.last().contributor_pubkey);
        lemma_distinct_push(front, s.last(), by_pubkey());
        lemma_append_missing_fresh(front);
    } else {
        assert(append_missing(Seq::empty(), s) =~= s);
    }
}

/// A variant that is adopted and merged into itself is bare what it was.
pub proof fn lemma_adopt_variant(v: VariantView)
    requires
        ordered_by_pubkey(v.attestations),
        distinct_contributors(v.attestations),
    ensures
        bare_variant(merge_variant(adopted_variant(v), v)) == bare_variant(v),
{
    lemma_append_missing_fresh(v.attestations);
    lemma_sort_of_ordered(v.attestations, by_pubkey());
}

/// United attestations that agree are bare the same in either order.
pub proof fn lemma_united_commutes(a: Seq<AttestationView>, b: Seq<AttestationView>)
    requires
        distinct_contributors(a),
        distinct_contributors(b),
        attestations_agree(a, b),
    ensures
        bare_attestations(united(a, b)) == bare_attestations(united(b, a)),
{
    let key = by_pubkey();
    let f = |x: AttestationView| bare_attestation(x);
    let ab = united(a, b);
    let ba = united(b, a);
    let left = bare_attestations(ab);
    let right = bare_attestations(ba);
    lemma_united(a, b);
    lemma_united(b, a);
    assert forall|x: AttestationView| #[trigger] key(f(x)) == key(x) by {}
    lemma_mapped(ab, left, f, key, key);
    lemma_mapped(ba, right, f, key, key);
    assert forall|q: Seq<u8>|
        find_by(left, q, key) == find_by(right, q, key) by {
        assert(find_by(left, q, key) == map_option(attestation_of(ab, q), f));
        assert(find_by(right, q, key) == map_option(attestation_of(ba, q), f));
        assert(attestation_of(ab, q) == or_else(attestation_of(a, q), attestation_of(b, q)));
        assert(attestation_of(ba, q) == or_else(attestation_of(b, q), attestation_of(a, q)));
    }
    lemma_sorted_canonical(left, right, key);
}

/// Variants that agree are bare the same merged in either order.
pub proof fn lemma_merge_variant_commutes(v: VariantView, w: VariantView)
    requires
        distinct_contributors(v.attestations),
        distinct_contributors(w.attestations),
        variants_agree(v, w),
    ensures
        bare_variant(merge_variant(v, w)) == bare_variant(merge_variant(w, v)),
{
    lemma_united_commutes(v.attestations, w.attestations);
}

/// Whether every variant of a list holds its attestations in order and by
/// distinct contributors.
pub open spec fn variants_tidy(s: Seq<(Seq<u8>, VariantView)>) -> bool {
    forall|j: int|
        0 <= j < s.len() ==> ordered_by_pubkey((#[trigger] s[j]).1.attestations)
            && distinct_contributors(s[j].1.attestations)
}

proof fn lemma_variant_at(s: Seq<(Seq<u8>, VariantView)>, h: Seq<u8>)
    requires
        variants_tidy(s),
        assoc_get(s, h) is Some,
    ensures
        ordered_by_pubkey(assoc_get(s, h)->0.attestations),
        distinct_contributors(assoc_get(s, h)->0.attestations),
{
    let i = index_of_key(s, h);
    assert(ordered_by_pubkey(s[i].1.attestations));
}

/// The variants of two entries that agree are bare the same merged in either
/// order.
pub proof fn lemma_merge_variants_commute(
    x: Seq<(Seq<u8>, VariantView)>,
    y: Seq<(Seq<u8>, VariantView)>,
)
    requires
        keys_increasing(x),
        keys_increasing(y),
        variants_tidy(x),
        variants_tidy(y),
        forall|h: Seq<u8>|
            #![trigger assoc_get(x, h)]
            #![trigger assoc_get(y, h)]
            assoc_get(x, h) is Some && assoc_get(y, h) is Some ==> variants_agree(
                assoc_get(x, h)->0,
                assoc_get(y, h)->0,
            ),
    ensures
        bare_variants(merge_variants(x, y)) == bare_variants(merge_variants(y, x)),
{
    let join = variant_join();
    let f = |v: VariantView| bare_variant(v);
    let xy = merge_variants(x, y);
    let yx = merge_variants(y, x);
    let left = bare_variants(xy);
    let right = bare_variants(yx);
    lemma_merge_assoc(x, y, join);
    lemma_merge_assoc(y, x, join);
    assert forall|h: Seq<u8>| assoc_get(left, h) == assoc_get(right, h) by {
        lemma_values_mapped(xy, left, f, h);
        lemma_values_mapped(yx, right, f, h);
        assert(assoc_get(xy, h) == merged_value(assoc_get(x, h), assoc_get(y, h), h, join));
        assert(assoc_get(yx, h) == merged_value(assoc_get(y, h), assoc_get(x, h), h, join));
        match (assoc_get(x, h), assoc_get(y, h)) {
            (Some(v), Some(w)) => {
                lemma_variant_at(x, h);
                lemma_variant_at(y, h);
                lemma_merge_variant_commutes(v, w);
            },
            (Some(v), None) => {
                lemma_variant_at(x, h);
                lemma_adopt_variant(v);
            },
            (None, Some(w)) => {
                lemma_variant_at(y, h);
                lemma_adopt_variant(w);
            },
            (None, None) => {},
        }
    }
    let none = Seq::<u8>::empty();
    lemma_values_mapped(xy, left, f, none);
    lemma_values_mapped(yx, right, f, none);
    lemma_canonical(left, right);
}

/// An entry that is merged into the fresh entry of its key is bare what it was.
pub proof fn lemma_adopt_entry(x: EntryView)
    requires
        entry_laid_out(x),
        variants_tidy(x.hash_variants),
    ensures
        bare_entry(merge_entry(fresh_entry(x.contract_key), x)) == bare_entry(x),
{
    let none = Seq::<(Seq<u8>, VariantView)>::empty();
    assert(variants_tidy(none));
    lemma_merge_variants_commute(none, x.hash_variants);
    assert(merge_variants(x.hash_variants, none) == x.hash_variants);
}

/// Entries of one contract that agree are bare the same merged in either order.
pub proof fn lemma_merge_entry_commutes(x: EntryView, y: EntryView)
    requires
        x.contract_key == y.contract_key,
        entry_laid_out(x),
        entry_laid_out(y),
        variants_tidy(x.hash_variants),
        variants_tidy(y.hash_variants),
        entries_agree(x, y),
    ensures
        bare_entry(merge_entry(x, y)) == bare_entry(merge_entry(y, x)),
{
    lemma_merge_variants_commute(x.hash_variants, y.hash_variants);
}

proof fn lemma_entry_at(s: CatalogView, k: Seq<u8>)
    requires
        tidy(s),
        assoc_get(s.entries, k) is Some,
    ensures
        assoc_get(s.entries, k)->0.contract_key == k,
        entry_laid_out(assoc_get(s.entries, k)->0),
        variants_tidy(assoc_get(s.entries, k)->0.hash_variants),
{
    let i = index_of_key(s.entries, k);
    let e = s.entries[i].1;
    assert(e.contract_key == s.entries[i].0);
    assert(entry_laid_out(e));
    assert(entry_in_order(e));
    assert(entry_distinct(e));
    assert forall|j: int| 0 <= j < e.hash_variants.len() implies ordered_by_pubkey(
        (#[trigger] e.hash_variants[j]).1.attestations,
    ) && distinct_contributors(e.hash_variants[j].1.attestations) by {}
}

/// Scores that are filed under their contributors merge the same in either order.
pub proof fn lemma_merge_contributors_commute(a: CatalogView, b: CatalogView)
    requires
        tidy(a),
        tidy(b),
    ensures
        merge_contributors(a.contributors, b.contributors) == merge_contributors(
            b.contributors,
            a.contributors,
        ),
{
    let join = score_join();
    let x = a.contributors;
    let y = b.contributors;
    let left = merge_contributors(x, y);
    let right = merge_contributors(y, x);
    lemma_merge_assoc(x, y, join);
    lemma_merge_assoc(y, x, join);
    assert forall|k: Seq<u8>| assoc_get(left, k) == assoc_get(right, k) by {
        assert(assoc_get(left, k) == merged_value(assoc_get(x, k), assoc_get(y, k), k, join));
        assert(assoc_get(right, k) == merged_value(assoc_get(y, k), assoc_get(x, k), k, join));
        if has_key(x, k) {
            let i = index_of_key(x, k);
            assert(x[i].1.pubkey == x[i].0);
        }
        if has_key(y, k) {
            let i = index_of_key(y, k);
            assert(y[i].1.pubkey == y[i].0);
        }
    }
    lemma_canonical(left, right);
}

/// Commutativity of the merge: two tidy catalogs that agree have the same
/// bare merge in either order.
pub proof fn lemma_merge_commutes(a: CatalogView, b: CatalogView)
    requires
        tidy(a),
        tidy(b),
        agree(a, b),
    ensures
        bare(merge_spec(a, b)) == bare(merge_spec(b, a)),
{
    let join = entry_join();
    let f = |e: EntryView| bare_entry(e);
    let x = a.entries;
    let y = b.entries;
    let xy = merge_entries(x, y);
    let yx = merge_entries(y, x);
    let left = bare_entries(xy);
    let right = bare_entries(yx);
    lemma_merge_assoc(x, y, join);
    lemma_merge_assoc(y, x, join);
    assert forall|k: Seq<u8>| assoc_get(left, k) == assoc_get(right, k) by {
        lemma_values_mapped(xy, left, f, k);
        lemma_values_mapped(yx, right, f, k);
        assert(assoc_get(xy, k) == merged_value(assoc_get(x, k), assoc_get(y, k), k, join));
        assert(assoc_get(yx, k) == merged_value(assoc_get(y, k), assoc_get(x, k), k, join));
        match (assoc_get(x, k), assoc_get(y, k)) {
            (Some(e), Some(g)) => {
                lemma_entry_at(a, k);
                lemma_entry_at(b, k);
                lemma_merge_entry_commutes(e, g);
            },
            (Some(e), None) => {
                lemma_entry_at(a, k);
                lemma_adopt_entry(e);
            },
            (None, Some(g)) => {
                lemma_entry_at(b, k);
                lemma_adopt_entry(g);
            },
            (None, None) => {},
        }
    }
    let none = Seq::<u8>::empty();
    lemma_values_mapped(xy, left, f, none);
    lemma_values_mapped(yx, right, f, none);
    lemma_canonical(left, right);
    lemma_merge_contributors_commute(a, b);
}

/// Attestations without their weights are by the same contributors.
proof fn lemma_bare_has_pubkey(s: Seq<AttestationView>, q: Seq<u8>)
    ensures
        has_pubkey(bare_attestations(s), q) == has_pubkey(s, q),
{
    let key = by_pubkey();
    let t = bare_attestations(s);
    if has_pubkey(s, q) {
        let i = choose|i: int| 0 <= i < s.len() && key(#[trigger] s[i]) == q;
        assert(key(t[i]) == q);
    }
    if has_pubkey(t, q) {
        let i = choose|i: int| 0 <= i < t.len() && key(#[trigger] t[i]) == q;
        assert(key(s[i]) == q);
    }
}

/// A bare entry earns the same trust as the entry.
proof fn lemma_bare_credits(e: EntryView, threshold: u32, q: Seq<u8>)
    ensures
        status_of(bare_entry(e).hash_variants, threshold) == status_of(e.hash_variants, threshold),
        credits(bare_entry(e), threshold, q) == credits(e, threshold, q),
{
    let vs = e.hash_variants;
    let bs = bare_entry(e).hash_variants;
    assert(attestation_counts(bs) =~= attestation_counts(vs));
    let winner = last_max_index(attestation_counts(vs));
    lemma_last_max_index_bounds(attestation_counts(vs));
    if winner >= 0 {
        lemma_bare_has_pubkey(vs[winner].1.attestations, q);
    }
}

/// Bare entries earn the same trust as the entries.
proof fn lemma_bare_earned_trust(entries: Seq<(Seq<u8>, EntryView)>, threshold: u32, q: Seq<u8>)
    ensures
        earned_trust(bare_entries(entries), threshold, q) == earned_trust(entries, threshold, q),
    decreases entries.len(),
{
    if entries.len() > 0 {
        let front = entries.drop_last();
        assert(bare_entries(entries).drop_last() =~= bare_entries(front));
        lemma_bare_earned_trust(front, threshold, q);
        lemma_bare_credits(entries.last().1, threshold, q);
    }
}

/// The finalization of a catalog is that of its bare catalog.
pub proof fn lemma_finalization_of_bare(s: CatalogView, threshold: u32, after: CatalogView)
    requires
        is_finalization(s, threshold, after),
    ensures
        is_finalization(bare(s), threshold, after),
{
    let table = after.contributors;
    assert forall|q: Seq<u8>| #[trigger]
        assoc_get(after.contributors, q) == finalized_score(
            bare(s),
            threshold,
            q,
        ) by {
        lemma_bare_earned_trust(s.entries, threshold, q);
    }
    let wanted = finalize_entries(bare(s).entries, table, threshold);
    assert(after.entries.len() == wanted.len());
    assert forall|i: int| 0 <= i < wanted.len() implies after.entries[i] == wanted[i] by {
        let e = s.entries[i].1;
        lemma_bare_credits(e, threshold, Seq::empty());
        let f = finalize_entry(e, table, threshold);
        let g = finalize_entry(bare_entry(e), table, threshold);
        assert(f.hash_variants.len() == g.hash_variants.len());
        assert forall|j: int| 0 <= j < f.hash_variants.len() implies f.hash_variants[j]
            == g.hash_variants[j] by {
            let v = e.hash_variants[j].1;
            assert(finalize_attestations(v.attestations, table) =~= finalize_attestations(
                bare_attestations(v.attestations),
                table,
            ));
        }
        assert(f.hash_variants =~= g.hash_variants);
    }
    assert(after.entries =~= wanted);
}

/// The result of merging does not depend on which side merges: two tidy
/// catalogs that agree come to the same finalization in either order.
pub proof fn lemma_merge_order_irrelevant(
    a: CatalogView,
    b: CatalogView,
    threshold: u32,
    after_ab: CatalogView,
    after_ba: CatalogView,
)
    requires
        tidy(a),
        tidy(b),
        agree(a, b),
        is_finalization(merge_spec(a, b), threshold, after_ab),
        is_finalization(merge_spec(b, a), threshold, after_ba),
    ensures
        after_ab == after_ba,
{
    lemma_merge_commutes(a, b);
    lemma_finalization_of_bare(merge_spec(a, b), threshold, after_ab);
    lemma_finalization_of_bare(merge_spec(b, a), threshold, after_ba);
    lemma_finalization_unique(bare(merge_spec(a, b)), threshold, after_ab, after_ba);
}

/// The catalog without entries and contributors is tidy.
pub proof fn lemma_empty_tidy()
    ensures
        tidy(CatalogView { entries: Seq::empty(), contributors: Seq::empty() }),
{
}

/// A delta keeps a catalog tidy.
pub proof fn lemma_apply_tidy(s: CatalogView, d: DeltaView)
    requires
        tidy(s),
    ensures
        tidy(apply_delta_spec(s, d)),
{
    let e = entry_before(s, d);
    let w = delta_weight(s, d);
    let changed = apply_to_entry(e, d, w);
    let after = apply_delta_spec(s, d);
    lemma_apply_laid_out(s, d);
    lemma_apply_in_order(s, d);
    if has_key(s.entries, d.contract_key) {
        let i = index_of_key(s.entries, d.contract_key);
        assert(entry_distinct(s.entries[i].1));
        assert(entry_laid_out(s.entries[i].1));
        assert(s.entries[i].1.contract_key == s.entries[i].0);
    }
    let h = d.metadata_hash;
    let vs = e.hash_variants;
    let prior = match assoc_get(vs, h) {
        Some(v) => v.attestations,
        None => Seq::empty(),
    };
    if has_key(vs, h) {
        let i = index_of_key(vs, h);
        assert(distinct_contributors(vs[i].1.attestations));
    }
    lemma_attest_distinct(prior, AttestationView { weight: w, ..d.attestation });
    let variant = apply_to_variant(prior, d, w);
    assert forall|j: int| 0 <= j < changed.hash_variants.len() implies distinct_contributors(
        (#[trigger] changed.hash_variants[j]).1.attestations,
    ) by {
        lemma_put_elements(vs, h, variant, j);
        if changed.hash_variants[j] != (h, variant) {
            let i = choose|i: int| 0 <= i < vs.len() && #[trigger] vs[i] == changed.hash_variants[j];
            assert(distinct_contributors(vs[i].1.attestations));
        }
    }
    assert forall|j: int| 0 <= j < after.entries.len() implies entry_distinct(
        (#[trigger] after.entries[j]).1,
    ) && after.entries[j].1.contract_key == after.entries[j].0 by {
        lemma_put_elements(s.entries, d.contract_key, changed, j);
        if after.entries[j] != (d.contract_key, changed) {
            let i = choose|i: int|
                0 <= i < s.entries.len() && #[trigger] s.entries[i] == after.entries[j];
            assert(entry_distinct(s.entries[i].1));
            assert(s.entries[i].1.contract_key == s.entries[i].0);
        }
    }
}

/// Finalization keeps a catalog tidy.
pub proof fn lemma_finalization_tidy(before: CatalogView, threshold: u32, after: CatalogView)
    requires
        tidy(before),
        is_finalization(before, threshold, after),
    ensures
        tidy(after),
{
    let table = after.contributors;
    let key = by_pubkey();
    assert(after.entries.len() == before.entries.len());
    assert forall|i: int, j: int| 0 <= i < j < after.entries.len() implies lex_less(
        #[trigger] after.entries[i].0,
        #[trigger] after.entries[j].0,
    ) by {
        assert(after.entries[i].0 == before.entries[i].0);
        assert(after.entries[j].0 == before.entries[j].0);
    }
    assert forall|i: int| 0 <= i < after.entries.len() implies entry_laid_out(
        (#[trigger] after.entries[i]).1,
    ) && entry_in_order(after.entries[i].1) && entry_distinct(after.entries[i].1)
        && after.entries[i].1.contract_key == after.entries[i].0 by {
        let e = before.entries[i].1;
        let f = after.entries[i].1;
        assert(f == finalize_entry(e, table, threshold));
        assert(entry_laid_out(e) && entry_in_order(e) && entry_distinct(e));
        assert(e.contract_key == before.entries[i].0);
        assert forall|x: int, y: int| 0 <= x < y < f.hash_variants.len() implies
            lex_less(#[trigger] f.hash_variants[x].0, #[trigger] f.hash_variants[y].0) by {
            assert(f.hash_variants[x].0 == e.hash_variants[x].0);
            assert(f.hash_variants[y].0 == e.hash_variants[y].0);
        }
        assert forall|j: int| 0 <= j < f.hash_variants.len() implies ordered_by_pubkey(
            (#[trigger] f.hash_variants[j]).1.attestations,
        ) && distinct_contributors(f.hash_variants[j].1.attestations) by {
            let v = e.hash_variants[j].1;
            assert(ordered_by_pubkey(v.attestations));
            assert(distinct_contributors(v.attestations));
            let atts = finalize_attestations(v.attestations, table);
            assert forall|x: int, y: int| 0 <= x < y < atts.len() implies !lex_less(
                key(#[trigger] atts[y]),
                key(#[trigger] atts[x]),
            ) && key(atts[x]) != key(atts[y]) by {
                assert(key(atts[x]) == key(v.attestations[x]));
                assert(key(atts[y]) == key(v.attestations[y]));
            }
        }
    }
    assert forall|i: int| 0 <= i < table.len() implies (#[trigger] table[i]).1.pubkey
        == table[i].0 by {
        let q = table[i].0;
        lemma_get_at(table, i);
        assert(assoc_get(table, q) == finalized_score(
            before,
            threshold,
            q,
        ));
        if has_key(before.contributors, q) {
            let j = index_of_key(before.contributors, q);
            assert(before.contributors[j].1.pubkey == before.contributors[j].0);
        }
    }
}

} // verus!
