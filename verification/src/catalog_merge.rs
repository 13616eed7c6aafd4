//! Merging a peer's catalog into one's own.
//!
//! Entries, variants, attestations and contributors are united; what both
//! sides hold keeps this side's texts and attestations, and the scalars move
//! by maximum and minimum.

use vstd::prelude::*;

use crate::catalog::{
    attested_by, fresh_entry, has_pubkey, max_u64, max_version, merge_version, min_u64,
    sort_attestations, sort_by_pubkey, total_weight_of, weight_sum,
};
use crate::ordered_map::{
    assoc_get, assoc_put, has_key, lemma_same_keys, merge_assoc, ByteKey, OrderedMap,
};
use crate::types::{
    attestations_view, clone_attestation, contributors_view, entries_view, variants_view,
    Attestation, AttestationView, CatalogEntry, CatalogState, CatalogView, ContributorScore,
    ContributorView, EntryView, HashVariant, Status, VariantView,
};

verus! {

/// The list `a` followed by those attestations of `b`, in their order, whose
/// contributor has not occurred before.
pub open spec fn append_missing(a: Seq<AttestationView>, b: Seq<AttestationView>) -> Seq<
    AttestationView,
>
    decreases b.len(),
{
    if b.len() == 0 {
        a
    } else {
        let r = append_missing(a, b.drop_last());
        if has_pubkey(r, b.last().contributor_pubkey) {
            r
        } else {
            r.push(b.last())
        }
    }
}

/// The variant that stands for `b` on a side that has not seen it: the texts
/// of `b` and no attestation.
pub open spec fn adopted_variant(b: VariantView) -> VariantView {
    VariantView {
        title: b.title,
        description: b.description,
        mini_snippet: b.mini_snippet,
        attestations: Seq::empty(),
        total_weight: 0,
    }
}

/// The variant after the peer's variant `b` is merged into `a`: the texts stay,
/// the attestations are united, ordered and totalled.
pub open spec fn merge_variant(a: VariantView, b: VariantView) -> VariantView {
    let attestations = sort_by_pubkey(append_missing(a.attestations, b.attestations));
    VariantView {
        title: a.title,
        description: a.description,
        mini_snippet: a.mini_snippet,
        attestations,
        total_weight: weight_sum(attestations),
    }
}

/// What the merge makes of a variant of the peer: it is merged into the
/// variant of this side, or into its own texts without attestations where
/// this side has not seen it.
pub open spec fn variant_join() -> spec_fn(Seq<u8>, Option<VariantView>, VariantView) -> VariantView {
    |hash: Seq<u8>, mine: Option<VariantView>, theirs: VariantView|
        merge_variant(
            match mine {
                Some(v) => v,
                None => adopted_variant(theirs),
            },
            theirs,
        )
}

/// The variants of an entry after each of the peer's variants `b` is merged in.
pub open spec fn merge_variants(a: Seq<(Seq<u8>, VariantView)>, b: Seq<(Seq<u8>, VariantView)>) -> Seq<
    (Seq<u8>, VariantView),
> {
    merge_assoc(a, b, variant_join())
}

/// The entry after the peer's entry `b` is merged into `a`.
pub open spec fn merge_entry(a: EntryView, b: EntryView) -> EntryView {
    EntryView {
        contract_key: a.contract_key,
        hash_variants: merge_variants(a.hash_variants, b.hash_variants),
        size_bytes: max_u64(a.size_bytes, b.size_bytes),
        version: max_version(a.version, b.version),
        status: a.status,
        first_seen: min_u64(a.first_seen, b.first_seen),
        last_seen: max_u64(a.last_seen, b.last_seen),
    }
}

/// What the merge makes of an entry of the peer: it is merged into the entry
/// of this side, or into the fresh entry of its contract where this side
/// lacks it.
pub open spec fn entry_join() -> spec_fn(Seq<u8>, Option<EntryView>, EntryView) -> EntryView {
    |key: Seq<u8>, mine: Option<EntryView>, theirs: EntryView|
        merge_entry(
            match mine {
                Some(e) => e,
                None => fresh_entry(theirs.contract_key),
            },
            theirs,
        )
}

/// The entries after each of the peer's entries `b` is merged in.
pub open spec fn merge_entries(a: Seq<(Seq<u8>, EntryView)>, b: Seq<(Seq<u8>, EntryView)>) -> Seq<
    (Seq<u8>, EntryView),
> {
    merge_assoc(a, b, entry_join())
}

/// The larger of two scores.
pub open spec fn max_u32(a: u32, b: u32) -> u32 {
    if a >= b {
        a
    } else {
        b
    }
}

/// The score after the peer's score `b` is merged into `a`.
pub open spec fn merge_score(a: ContributorView, b: ContributorView) -> ContributorView {
    ContributorView {
        pubkey: a.pubkey,
        trust_score: max_u32(a.trust_score, b.trust_score),
        total_contributions: max_u32(a.total_contributions, b.total_contributions),
    }
}

/// The score of a contributor of whom nothing is known.
pub open spec fn unknown_contributor(pubkey: Seq<u8>) -> ContributorView {
    ContributorView { pubkey, trust_score: 0, total_contributions: 0 }
}

/// What the merge makes of a score of the peer: it is merged into the score
/// of this side, or into that of an unknown contributor.
pub open spec fn score_join() -> spec_fn(
    Seq<u8>,
    Option<ContributorView>,
    ContributorView,
) -> ContributorView {
    |key: Seq<u8>, mine: Option<ContributorView>, theirs: ContributorView|
        merge_score(
            match mine {
                Some(c) => c,
                None => unknown_contributor(key),
            },
            theirs,
        )
}

/// The contributors after each of the peer's scores `b` is merged in.
pub open spec fn merge_contributors(
    a: Seq<(Seq<u8>, ContributorView)>,
    b: Seq<(Seq<u8>, ContributorView)>,
) -> Seq<(Seq<u8>, ContributorView)> {
    merge_assoc(a, b, score_join())
}

/// The catalog after the peer's catalog `b` is merged into `a`.
pub open spec fn merge_spec(a: CatalogView, b: CatalogView) -> CatalogView {
    CatalogView {
        entries: merge_entries(a.entries, b.entries),
        contributors: merge_contributors(a.contributors, b.contributors),
    }
}

fn merge_attestations(mine: &mut Vec<Attestation>, theirs: &Vec<Attestation>)
    ensures
        attestations_view(final(mine)@) == sort_by_pubkey(
            append_missing(attestations_view(old(mine)@), attestations_view(theirs@)),
        ),
{
    let ghost a0 = attestations_view(mine@);
    let ghost b = attestations_view(theirs@);
    let n: usize = theirs.len();
    let mut i: usize = 0;
    assert(b.subrange(0, 0) =~= Seq::empty());
    while i < n
        invariant
            i <= n,
            n == theirs@.len(),
            b == attestations_view(theirs@),
            attestations_view(mine@) == append_missing(a0, b.subrange(0, i as int)),
        decreases n - i,
    {
        proof {
            let next = b.subrange(0, i + 1);
            assert(next.drop_last() =~= b.subrange(0, i as int));
            assert(next.last() == theirs@[i as int]@);
        }
        if !attested_by(mine, &theirs[i].contributor_pubkey) {
            let ghost before = attestations_view(mine@);
            mine.push(clone_attestation(&theirs[i]));
            assert(attestations_view(mine@) =~= before.push(theirs@[i as int]@));
        }
        i += 1;
    }
    assert(b.subrange(0, n as int) =~= b);
    sort_attestations(mine);
}

fn merge_variant_into(
    variants: &mut OrderedMap<[u8; 32], HashVariant>,
    hash: &[u8; 32],
    theirs: &HashVariant,
)
    requires
        old(variants).wf(),
    ensures
        final(variants).wf(),
        variants_view(final(variants).entries()) == assoc_put(
            variants_view(old(variants).entries()),
            hash@,
            merge_variant(
                match assoc_get(variants_view(old(variants).entries()), hash@) {
                    Some(v) => v,
                    None => adopted_variant(theirs@),
                },
                theirs@,
            ),
        ),
{
    let ghost s0 = variants.entries();
    let ghost v0 = variants_view(s0);
    proof {
        variants.lemma_wf();
        lemma_same_keys(s0, v0, hash@);
    }
    let at: usize = match variants.position(hash) {
        Some(at) => at,
        None => variants.insert(
            *hash,
            HashVariant {
                title: theirs.title.clone(),
                description: theirs.description.clone(),
                mini_snippet: theirs.mini_snippet.clone(),
                attestations: Vec::new(),
                total_weight: 0,
            },
        ),
    };
    let ghost s1 = variants.entries();
    let ghost mine = s1[at as int].1@;
    proof {
        if !has_key(s0, hash@) {
            assert(mine.attestations =~= Seq::<AttestationView>::empty());
            assert(mine == adopted_variant(theirs@));
        }
    }
    let variant = variants.value_at_mut(at);
    merge_attestations(&mut variant.attestations, &theirs.attestations);
    variant.total_weight = total_weight_of(&variant.attestations);
    proof {
        let s2 = variants.entries();
        assert(variants_view(s2) =~= assoc_put(v0, hash@, merge_variant(mine, theirs@)));
    }
}

fn merge_entry_into(mine: &mut CatalogEntry, theirs: &CatalogEntry)
    requires
        old(mine).wf(),
        theirs.wf(),
    ensures
        final(mine).wf(),
        final(mine)@ == merge_entry(old(mine)@, theirs@),
{
    let ghost a0 = mine@.hash_variants;
    let ghost b = theirs@.hash_variants;
    let n: usize = theirs.hash_variants.len();
    let mut j: usize = 0;
    assert(b.subrange(0, 0) =~= Seq::empty());
    while j < n
        invariant
            j <= n,
            mine.wf(),
            theirs.wf(),
            n == theirs.hash_variants.entries().len(),
            b == theirs@.hash_variants,
            mine@.hash_variants == merge_variants(a0, b.subrange(0, j as int)),
            mine.contract_key == old(mine).contract_key,
            mine.size_bytes == old(mine).size_bytes,
            mine.version == old(mine).version,
            mine.status == old(mine).status,
            mine.first_seen == old(mine).first_seen,
            mine.last_seen == old(mine).last_seen,
        decreases n - j,
    {
        let hash = theirs.hash_variants.key_at(j);
        let variant = theirs.hash_variants.value_at(j);
        proof {
            let next = b.subrange(0, j + 1);
            assert(next.drop_last() =~= b.subrange(0, j as int));
            assert(next.last() == (hash@, variant@));
        }
        merge_variant_into(&mut mine.hash_variants, hash, variant);
        j += 1;
    }
    assert(b.subrange(0, n as int) =~= b);
    if theirs.size_bytes > mine.size_bytes {
        mine.size_bytes = theirs.size_bytes;
    }
    mine.version = merge_version(mine.version, theirs.version);
    if theirs.first_seen < mine.first_seen {
        mine.first_seen = theirs.first_seen;
    }
    if theirs.last_seen > mine.last_seen {
        mine.last_seen = theirs.last_seen;
    }
}

fn merge_entry_under(entries: &mut OrderedMap<String, CatalogEntry>, key: &String, theirs: &CatalogEntry)
    requires
        old(entries).wf(),
        forall|i: int|
            0 <= i < old(entries).entries().len() ==> (#[trigger] old(entries).entries()[i]).1.wf(),
        theirs.wf(),
    ensures
        final(entries).wf(),
        forall|i: int|
            0 <= i < final(entries).entries().len() ==> (#[trigger] final(entries).entries()[i]).1
                .wf(),
        entries_view(final(entries).entries()) == assoc_put(
            entries_view(old(entries).entries()),
            key.key_bytes(),
            merge_entry(
                match assoc_get(entries_view(old(entries).entries()), key.key_bytes()) {
                    Some(e) => e,
                    None => fresh_entry(theirs@.contract_key),
                },
                theirs@,
            ),
        ),
{
    let ghost s0 = entries.entries();
    let ghost v0 = entries_view(s0);
    let ghost kb = key.key_bytes();
    proof {
        entries.lemma_wf();
        lemma_same_keys(s0, v0, kb);
    }
    let at: usize = match entries.position(key) {
        Some(at) => at,
        None => entries.insert(
            key.clone(),
            CatalogEntry {
                contract_key: theirs.contract_key.clone(),
                hash_variants: OrderedMap::new(),
                size_bytes: 0,
                version: None,
                status: Status::Pending,
                first_seen: u64::MAX,
                last_seen: 0,
            },
        ),
    };
    let ghost s1 = entries.entries();
    let ghost mine = s1[at as int].1@;
    proof {
        if !has_key(s0, kb) {
            assert(mine.hash_variants =~= Seq::<(Seq<u8>, VariantView)>::empty());
            assert(mine == fresh_entry(theirs@.contract_key));
        }
        assert forall|i: int| 0 <= i < s1.len() implies (#[trigger] s1[i]).1.wf() by {
            if has_key(s0, kb) {
            } else if i < at {
                assert(s1[i] == s0[i]);
            } else if i > at {
                assert(s1[i] == s0[i - 1]);
            }
        }
    }
    let entry = entries.value_at_mut(at);
    merge_entry_into(entry, theirs);
    proof {
        let s2 = entries.entries();
        assert(entries_view(s2) =~= assoc_put(v0, kb, merge_entry(mine, theirs@)));
        assert forall|i: int| 0 <= i < s2.len() implies (#[trigger] s2[i]).1.wf() by {
            if i != at {
                assert(s2[i] == s1[i]);
            }
        }
    }
}

fn merge_score_under(
    contributors: &mut OrderedMap<[u8; 32], ContributorScore>,
    key: &[u8; 32],
    theirs: &ContributorScore,
)
    requires
        old(contributors).wf(),
    ensures
        final(contributors).wf(),
        contributors_view(final(contributors).entries()) == assoc_put(
            contributors_view(old(contributors).entries()),
            key@,
            merge_score(
                match assoc_get(contributors_view(old(contributors).entries()), key@) {
                    Some(c) => c,
                    None => unknown_contributor(key@),
                },
                theirs@,
            ),
        ),
{
    let ghost s0 = contributors.entries();
    let ghost v0 = contributors_view(s0);
    proof {
        contributors.lemma_wf();
        lemma_same_keys(s0, v0, key@);
    }
    let at: usize = match contributors.position(key) {
        Some(at) => at,
        None => contributors.insert(
            *key,
            ContributorScore { pubkey: *key, trust_score: 0, total_contributions: 0 },
        ),
    };
    let ghost s1 = contributors.entries();
    let ghost mine = s1[at as int].1@;
    let score = contributors.value_at_mut(at);
    if theirs.trust_score > score.trust_score {
        score.trust_score = theirs.trust_score;
    }
    if theirs.total_contributions > score.total_contributions {
        score.total_contributions = theirs.total_contributions;
    }
    proof {
        let s2 = contributors.entries();
        assert(contributors_view(s2) =~= assoc_put(v0, key@, merge_score(mine, theirs@)));
    }
}

/// Merges the catalog `b` of a peer into `a`.
pub fn merge_catalog_states(a: &mut CatalogState, b: &CatalogState)
    requires
        old(a).wf(),
        b.wf(),
    ensures
        final(a).wf(),
        final(a)@ == merge_spec(old(a)@, b@),
{
    let ghost a0 = a@;
    let ghost theirs = b@.entries;
    let n: usize = b.entries.len();
    let mut i: usize = 0;
    assert(theirs.subrange(0, 0) =~= Seq::empty());
    while i < n
        invariant
            i <= n,
            a.wf(),
            b.wf(),
            n == b.entries.entries().len(),
            theirs == b@.entries,
            a@.entries == merge_entries(a0.entries, theirs.subrange(0, i as int)),
            a@.contributors == a0.contributors,
        decreases n - i,
    {
        let key = b.entries.key_at(i);
        let entry = b.entries.value_at(i);
        proof {
            let next = theirs.subrange(0, i + 1);
            assert(next.drop_last() =~= theirs.subrange(0, i as int));
            assert(next.last() == (key.key_bytes(), entry@));
        }
        merge_entry_under(&mut a.entries, key, entry);
        i += 1;
    }
    assert(theirs.subrange(0, n as int) =~= theirs);
    let ghost scores = b@.contributors;
    let m: usize = b.contributors.len();
    let mut j: usize = 0;
    assert(scores.subrange(0, 0) =~= Seq::empty());
    while j < m
        invariant
            j <= m,
            a.wf(),
            b.wf(),
            m == b.contributors.entries().len(),
            scores == b@.contributors,
            a@.entries == merge_entries(a0.entries, theirs),
            a@.contributors == merge_contributors(a0.contributors, scores.subrange(0, j as int)),
        decreases m - j,
    {
        let key = b.contributors.key_at(j);
        let score = b.contributors.value_at(j);
        proof {
            let next = scores.subrange(0, j + 1);
            assert(next.drop_last() =~= scores.subrange(0, j as int));
            assert(next.last() == (key@, score@));
        }
        merge_score_under(&mut a.contributors, key, score);
        j += 1;
    }
    assert(scores.subrange(0, m as int) =~= scores);
}

} // verus!
