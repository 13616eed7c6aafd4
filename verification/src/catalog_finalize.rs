//! Finalization: the derived values of a catalog, recomputed from its primary
//! data after every update.
//!
//! A contributor earns one point of trust for each confirmed or disputed
//! entry whose winning variant it attests to. Scores only rise. Weights and
//! totals follow the scores, statuses follow the attestation counts.

use vstd::prelude::*;

use crate::bytes::bytes_equal;
use crate::catalog::{
    add_weight, attestation_counts, derive_status, has_pubkey, last_max_index, saturating_weight,
    status_of, total_weight_of, trust_of, trust_score_of, weight_for, weight_sum, winning_variant,
};
use crate::catalog_merge::{max_u32, unknown_contributor};
use crate::ordered_map::{
    assoc_get, assoc_put, has_key, index_of_key, keys_increasing, lemma_canonical, lemma_get_at,
    lemma_key_index_unique, lemma_put, lemma_same_keys, ByteKey, OrderedMap,
};
use crate::types::{
    attestations_view, contributors_view, entries_view, Attestation, AttestationView, CatalogEntry,
    CatalogState, CatalogView, ContributorScore, ContributorView, EntryView, HashVariant, Status,
    VariantView,
};

verus! {

/// Whether an entry earns the contributor a point of trust: its status at the
/// threshold is confirmed or disputed, and the variant with the most
/// attestations (of several, the one with the greatest hash) holds one of the
/// contributor.
pub open spec fn credits(e: EntryView, threshold: u32, pubkey: Seq<u8>) -> bool {
    let status = status_of(e.hash_variants, threshold);
    let winner = last_max_index(attestation_counts(e.hash_variants));
    &&& status == Status::Confirmed || status == Status::Disputed
    &&& winner >= 0
    &&& has_pubkey(e.hash_variants[winner].1.attestations, pubkey)
}

/// The number of entries that earn the contributor a point of trust.
pub open spec fn earned_trust(entries: Seq<(Seq<u8>, EntryView)>, threshold: u32, pubkey: Seq<u8>) -> nat
    decreases entries.len(),
{
    if entries.len() == 0 {
        0
    } else {
        earned_trust(entries.drop_last(), threshold, pubkey) + if credits(
            entries.last().1,
            threshold,
            pubkey,
        ) {
            1nat
        } else {
            0nat
        }
    }
}

/// A count as a score: held at the largest score where it would pass it.
pub open spec fn clamp_u32(n: nat) -> u32 {
    if n > u32::MAX {
        u32::MAX
    } else {
        n as u32
    }
}

/// A count as it stands in a tally: absent where it is 0.
pub open spec fn tally(n: nat) -> Option<u32> {
    if n > 0 {
        Some(clamp_u32(n))
    } else {
        None
    }
}

/// A score raised to the trust that was earned.
pub open spec fn raise_score(c: ContributorView, earned: u32) -> ContributorView {
    ContributorView {
        pubkey: c.pubkey,
        trust_score: max_u32(c.trust_score, earned),
        total_contributions: max_u32(c.total_contributions, earned),
    }
}

/// What the table holds for a contributor after finalization, given what it
/// held before and what the contributor earned: a known contributor keeps its
/// place, an unknown one enters with its first point.
pub open spec fn raised_score(known: Option<ContributorView>, earned: Option<u32>, pubkey: Seq<u8>) -> Option<
    ContributorView,
> {
    match earned {
        None => known,
        Some(t) => Some(
            raise_score(
                match known {
                    Some(c) => c,
                    None => unknown_contributor(pubkey),
                },
                t,
            ),
        ),
    }
}

/// What the table of the catalog `s` holds for a contributor after finalization.
pub open spec fn finalized_score(s: CatalogView, threshold: u32, pubkey: Seq<u8>) -> Option<
    ContributorView,
> {
    raised_score(
        assoc_get(s.contributors, pubkey),
        tally(earned_trust(s.entries, threshold, pubkey)),
        pubkey,
    )
}

/// The attestations with the weight that each contributor's score gives.
pub open spec fn finalize_attestations(
    attestations: Seq<AttestationView>,
    contributors: Seq<(Seq<u8>, ContributorView)>,
) -> Seq<AttestationView> {
    attestations.map_values(
        |a: AttestationView|
            AttestationView {
                weight: weight_for(trust_of(contributors, a.contributor_pubkey)),
                ..a
            },
    )
}

/// The variant with its weights and its total recomputed.
pub open spec fn finalize_variant(v: VariantView, contributors: Seq<(Seq<u8>, ContributorView)>) -> VariantView {
    let attestations = finalize_attestations(v.attestations, contributors);
    VariantView {
        title: v.title,
        description: v.description,
        mini_snippet: v.mini_snippet,
        attestations,
        total_weight: weight_sum(attestations),
    }
}

/// The variants of an entry, each recomputed.
pub open spec fn finalize_variants(
    variants: Seq<(Seq<u8>, VariantView)>,
    contributors: Seq<(Seq<u8>, ContributorView)>,
) -> Seq<(Seq<u8>, VariantView)> {
    variants.map_values(|p: (Seq<u8>, VariantView)| (p.0, finalize_variant(p.1, contributors)))
}

/// The entry with its variants recomputed and its status derived.
pub open spec fn finalize_entry(
    e: EntryView,
    contributors: Seq<(Seq<u8>, ContributorView)>,
    threshold: u32,
) -> EntryView {
    EntryView {
        contract_key: e.contract_key,
        hash_variants: finalize_variants(e.hash_variants, contributors),
        size_bytes: e.size_bytes,
        version: e.version,
        status: status_of(e.hash_variants, threshold),
        first_seen: e.first_seen,
        last_seen: e.last_seen,
    }
}

/// The entries of a catalog, each finalized against the given scores.
pub open spec fn finalize_entries(
    entries: Seq<(Seq<u8>, EntryView)>,
    contributors: Seq<(Seq<u8>, ContributorView)>,
    threshold: u32,
) -> Seq<(Seq<u8>, EntryView)> {
    entries.map_values(
        |p: (Seq<u8>, EntryView)| (p.0, finalize_entry(p.1, contributors, threshold)),
    )
}

/// Whether `after` is the finalization of `before` at a threshold: the table
/// of contributors is in order and holds for each contributor its raised
/// score, and every entry is finalized against that table.
pub open spec fn is_finalization(before: CatalogView, threshold: u32, after: CatalogView) -> bool {
    &&& keys_increasing(after.contributors)
    &&& forall|pubkey: Seq<u8>| #[trigger]
        assoc_get(after.contributors, pubkey) == finalized_score(before, threshold, pubkey)
    &&& after.entries == finalize_entries(before.entries, after.contributors, threshold)
}

/// A catalog has one finalization.
pub proof fn lemma_finalization_unique(
    before: CatalogView,
    threshold: u32,
    a: CatalogView,
    b: CatalogView,
)
    requires
        is_finalization(before, threshold, a),
        is_finalization(before, threshold, b),
    ensures
        a == b,
{
    assert forall|q: Seq<u8>| assoc_get(a.contributors, q) == assoc_get(b.contributors, q) by {
        assert(assoc_get(a.contributors, q) == finalized_score(before, threshold, q));
        assert(assoc_get(b.contributors, q) == finalized_score(before, threshold, q));
    }
    lemma_canonical(a.contributors, b.contributors);
}

/// What a tally holds for a contributor after the attestors of one more winning
/// variant are counted.
pub open spec fn tally_add(count: Option<u32>, hit: bool) -> Option<u32> {
    if hit {
        Some(
            add_weight(
                match count {
                    Some(c) => c,
                    None => 0,
                },
                1,
            ),
        )
    } else {
        count
    }
}

fn seen_before(attestations: &Vec<Attestation>, k: usize) -> (seen: bool)
    requires
        k < attestations@.len(),
    ensures
        seen == has_pubkey(
            attestations_view(attestations@).subrange(0, k as int),
            attestations@[k as int]@.contributor_pubkey,
        ),
{
    let ghost view = attestations_view(attestations@);
    let ghost head = view.subrange(0, k as int);
    let ghost pubkey = attestations@[k as int]@.contributor_pubkey;
    let mut i: usize = 0;
    while i < k
        invariant
            i <= k,
            k < attestations@.len(),
            view == attestations_view(attestations@),
            head == view.subrange(0, k as int),
            pubkey == attestations@[k as int]@.contributor_pubkey,
            forall|j: int| 0 <= j < i ==> (#[trigger] head[j]).contributor_pubkey != pubkey,
        decreases k - i,
    {
        if bytes_equal(
            attestations[i].contributor_pubkey.as_slice(),
            attestations[k].contributor_pubkey.as_slice(),
        ) {
            assert(head[i as int].contributor_pubkey == pubkey);
            return true;
        }
        i += 1;
    }
    false
}

fn bump(trust: &mut OrderedMap<[u8; 32], u32>, pubkey: &[u8; 32])
    requires
        old(trust).wf(),
    ensures
        final(trust).wf(),
        forall|q: Seq<u8>| #[trigger]
            assoc_get(final(trust).entries(), q) == tally_add(
                assoc_get(old(trust).entries(), q),
                q == pubkey@,
            ),
{
    let count: u32 = match trust.get(pubkey) {
        Some(c) => *c,
        None => 0,
    };
    let next: u32 = saturating_weight(count, 1);
    proof {
        trust.lemma_wf();
        lemma_put(trust.entries(), pubkey@, next);
    }
    trust.insert(*pubkey, next);
}

fn credit_attestors(trust: &mut OrderedMap<[u8; 32], u32>, attestations: &Vec<Attestation>)
    requires
        old(trust).wf(),
    ensures
        final(trust).wf(),
        forall|q: Seq<u8>| #[trigger]
            assoc_get(final(trust).entries(), q) == tally_add(
                assoc_get(old(trust).entries(), q),
                has_pubkey(attestations_view(attestations@), q),
            ),
{
    let ghost view = attestations_view(attestations@);
    let ghost t0 = trust.entries();
    let n: usize = attestations.len();
    let mut k: usize = 0;
    while k < n
        invariant
            k <= n,
            n == attestations@.len(),
            view == attestations_view(attestations@),
            trust.wf(),
            forall|q: Seq<u8>| #[trigger]
                assoc_get(trust.entries(), q) == tally_add(
                    assoc_get(t0, q),
                    has_pubkey(view.subrange(0, k as int), q),
                ),
        decreases n - k,
    {
        let ghost head = view.subrange(0, k as int);
        let ghost next = view.subrange(0, k + 1);
        let ghost pubkey = view[k as int].contributor_pubkey;
        let ghost t1 = trust.entries();
        proof {
            assert forall|q: Seq<u8>| has_pubkey(next, q) == (has_pubkey(head, q) || q
                == pubkey) by {
                if has_pubkey(next, q) {
                    let i = choose|i: int|
                        0 <= i < next.len() && (#[trigger] next[i]).contributor_pubkey == q;
                    if i < k {
                        assert(head[i] == next[i]);
                    }
                }
                if has_pubkey(head, q) {
                    let i = choose|i: int|
                        0 <= i < head.len() && (#[trigger] head[i]).contributor_pubkey == q;
                    assert(next[i] == head[i]);
                }
                if q == pubkey {
                    assert(next[k as int].contributor_pubkey == q);
                }
            }
        }
        if !seen_before(attestations, k) {
            bump(trust, &attestations[k].contributor_pubkey);
        }
        proof {
            assert forall|q: Seq<u8>| #[trigger]
                assoc_get(trust.entries(), q) == tally_add(
                    assoc_get(t0, q),
                    has_pubkey(next, q),
                ) by {
                assert(assoc_get(t1, q) == tally_add(assoc_get(t0, q), has_pubkey(head, q)));
                assert(has_pubkey(next, q) == (has_pubkey(head, q) || q == pubkey));
            }
        }
        k += 1;
    }
    assert(view.subrange(0, n as int) =~= view);
}

/// What a tally holds once one more entry is counted.
proof fn lemma_tally_step(n: nat, hit: bool)
    ensures
        tally_add(tally(n), hit) == tally(
            n + if hit {
                1nat
            } else {
                0nat
            },
        ),
{
}

/// Counts for each contributor the entries that earn it a point of trust.
pub fn compute_trust_from_entries(state: &CatalogState, threshold: u32) -> (trust: OrderedMap<
    [u8; 32],
    u32,
>)
    requires
        state.wf(),
    ensures
        trust.wf(),
        forall|q: Seq<u8>| #[trigger]
            assoc_get(trust.entries(), q) == tally(earned_trust(state@.entries, threshold, q)),
{
    let mut trust: OrderedMap<[u8; 32], u32> = OrderedMap::new();
    let ghost entries = state@.entries;
    let n: usize = state.entries.len();
    let mut i: usize = 0;
    assert(entries.subrange(0, 0) =~= Seq::empty());
    while i < n
        invariant
            i <= n,
            state.wf(),
            trust.wf(),
            n == state.entries.entries().len(),
            entries == state@.entries,
            forall|q: Seq<u8>| #[trigger]
                assoc_get(trust.entries(), q) == tally(
                    earned_trust(entries.subrange(0, i as int), threshold, q),
                ),
        decreases n - i,
    {
        let entry = state.entries.value_at(i);
        let ghost t1 = trust.entries();
        let ghost head = entries.subrange(0, i as int);
        let ghost next = entries.subrange(0, i + 1);
        proof {
            assert(next.drop_last() =~= head);
            assert(next.last().1 == entry@);
        }
        let status = derive_status(entry, threshold);
        let mut counted: bool = false;
        if status == Status::Confirmed || status == Status::Disputed {
            match winning_variant(entry) {
                Some(at) => {
                    let winner = entry.hash_variants.value_at(at);
                    assert(entry@.hash_variants[at as int].1 == winner@);
                    credit_attestors(&mut trust, &winner.attestations);
                    counted = true;
                },
                None => {},
            }
        }
        proof {
            assert forall|q: Seq<u8>| #[trigger]
                assoc_get(trust.entries(), q) == tally(earned_trust(next, threshold, q)) by {
                assert(assoc_get(t1, q) == tally(earned_trust(head, threshold, q)));
                lemma_tally_step(earned_trust(head, threshold, q), credits(entry@, threshold, q));
            }
        }
        i += 1;
    }
    assert(entries.subrange(0, n as int) =~= entries);
    trust
}

fn raise_under(
    contributors: &mut OrderedMap<[u8; 32], ContributorScore>,
    key: &[u8; 32],
    earned: u32,
)
    requires
        old(contributors).wf(),
    ensures
        final(contributors).wf(),
        contributors_view(final(contributors).entries()) == assoc_put(
            contributors_view(old(contributors).entries()),
            key@,
            raise_score(
                match assoc_get(contributors_view(old(contributors).entries()), key@) {
                    Some(c) => c,
                    None => unknown_contributor(key@),
                },
                earned,
            ),
        ),
{
    let ghost s0 = contributors.entries();
    let ghost v0 = contributors_view(s0);
    proof {
        contributors.lemma_wf();
        lemma_same_keys(s0, v0, key@);
    }
    let at: usize = match contributors.position(key) {
        Some(at) => at,
        None => contributors.insert(
            *key,
            ContributorScore { pubkey: *key, trust_score: 0, total_contributions: 0 },
        ),
    };
    let ghost s1 = contributors.entries();
    let ghost mine = s1[at as int].1@;
    let score = contributors.value_at_mut(at);
    if earned > score.trust_score {
        score.trust_score = earned;
    }
    if earned > score.total_contributions {
        score.total_contributions = earned;
    }
    proof {
        let s2 = contributors.entries();
        assert(contributors_view(s2) =~= assoc_put(v0, key@, raise_score(mine, earned)));
    }
}

fn apply_trust(
    contributors: &mut OrderedMap<[u8; 32], ContributorScore>,
    trust: &OrderedMap<[u8; 32], u32>,
)
    requires
        old(contributors).wf(),
        trust.wf(),
    ensures
        final(contributors).wf(),
        forall|q: Seq<u8>| #[trigger]
            assoc_get(contributors_view(final(contributors).entries()), q) == raised_score(
                assoc_get(contributors_view(old(contributors).entries()), q),
                assoc_get(trust.entries(), q),
                q,
            ),
{
    let ghost c0 = contributors_view(contributors.entries());
    let ghost t = trust.entries();
    let n: usize = trust.len();
    let mut j: usize = 0;
    proof {
        trust.lemma_wf();
    }
    while j < n
        invariant
            j <= n,
            contributors.wf(),
            trust.wf(),
            t == trust.entries(),
            keys_increasing(t),
            n == t.len(),
            forall|q: Seq<u8>| #[trigger]
                assoc_get(contributors_view(contributors.entries()), q) == (if has_key(
                    t.subrange(0, j as int),
                    q,
                ) {
                    raised_score(assoc_get(c0, q), assoc_get(t, q), q)
                } else {
                    assoc_get(c0, q)
                }),
        decreases n - j,
    {
        let key = trust.key_at(j);
        let earned: u32 = *trust.value_at(j);
        let ghost c1 = contributors_view(contributors.entries());
        let ghost head = t.subrange(0, j as int);
        let ghost next = t.subrange(0, j + 1);
        proof {
            contributors.lemma_wf();
            lemma_same_keys(contributors.entries(), c1, key@);
            lemma_get_at(t, j as int);
            if has_key(head, key@) {
                let i = index_of_key(head, key@);
                assert(head[i] == t[i]);
                lemma_key_index_unique(t, i, j as int);
            }
            assert(assoc_get(c1, key@) == assoc_get(c0, key@));
            let mine = match assoc_get(c1, key@) {
                Some(c) => c,
                None => unknown_contributor(key@),
            };
            lemma_put(c1, key@, raise_score(mine, earned));
            assert forall|q: Seq<u8>| has_key(next, q) == (has_key(head, q) || q == key@) by {
                if has_key(next, q) {
                    let i = index_of_key(next, q);
                    if i < j {
                        assert(head[i] == next[i]);
                    }
                }
                if has_key(head, q) {
                    let i = index_of_key(head, q);
                    assert(next[i] == head[i]);
                }
                if q == key@ {
                    assert(next[j as int].0 == q);
                }
            }
        }
        raise_under(contributors, key, earned);
        proof {
            let c2 = contributors_view(contributors.entries());
            assert forall|q: Seq<u8>| #[trigger]
                assoc_get(c2, q) == (if has_key(next, q) {
                    raised_score(assoc_get(c0, q), assoc_get(t, q), q)
                } else {
                    assoc_get(c0, q)
                }) by {
                assert(assoc_get(c1, q) == (if has_key(head, q) {
                    raised_score(assoc_get(c0, q), assoc_get(t, q), q)
                } else {
                    assoc_get(c0, q)
                }));
                assert(has_key(next, q) == (has_key(head, q) || q == key@));
            }
        }
        j += 1;
    }
    proof {
        assert(t.subrange(0, n as int) =~= t);
    }
}

fn reweigh_attestations(
    attestations: &mut Vec<Attestation>,
    contributors: &OrderedMap<[u8; 32], ContributorScore>,
)
    requires
        contributors.wf(),
    ensures
        attestations_view(final(attestations)@) == finalize_attestations(
            attestations_view(old(attestations)@),
            contributors_view(contributors.entries()),
        ),
{
    let ghost v0 = attestations_view(attestations@);
    let ghost table = contributors_view(contributors.entries());
    let ghost wanted = finalize_attestations(v0, table);
    let n: usize = attestations.len();
    let mut k: usize = 0;
    while k < n
        invariant
            k <= n,
            contributors.wf(),
            n == attestations@.len(),
            v0.len() == n,
            table == contributors_view(contributors.entries()),
            wanted == finalize_attestations(v0, table),
            forall|i: int| 0 <= i < k ==> (#[trigger] attestations@[i])@ == wanted[i],
            forall|i: int| k <= i < n ==> (#[trigger] attestations@[i])@ == v0[i],
        decreases n - k,
    {
        let trust: u32 = trust_score_of(contributors, &attestations[k].contributor_pubkey);
        let weight: u32 = saturating_weight(1, trust);
        attestations[k].weight = weight;
        k += 1;
    }
    assert(attestations_view(attestations@) =~= wanted);
}

fn finalize_variant_in_place(
    variant: &mut HashVariant,
    contributors: &OrderedMap<[u8; 32], ContributorScore>,
)
    requires
        contributors.wf(),
    ensures
        final(variant)@ == finalize_variant(
            old(variant)@,
            contributors_view(contributors.entries()),
        ),
{
    reweigh_attestations(&mut variant.attestations, contributors);
    variant.total_weight = total_weight_of(&variant.attestations);
}

fn finalize_entry_in_place(
    entry: &mut CatalogEntry,
    contributors: &OrderedMap<[u8; 32], ContributorScore>,
    threshold: u32,
)
    requires
        old(entry).wf(),
        contributors.wf(),
    ensures
        final(entry).wf(),
        final(entry)@ == finalize_entry(
            old(entry)@,
            contributors_view(contributors.entries()),
            threshold,
        ),
{
    let status = derive_status(entry, threshold);
    let ghost v0 = entry@.hash_variants;
    let ghost table = contributors_view(contributors.entries());
    let ghost wanted = finalize_variants(v0, table);
    let n: usize = entry.hash_variants.len();
    let mut j: usize = 0;
    while j < n
        invariant
            j <= n,
            entry.wf(),
            contributors.wf(),
            n == entry.hash_variants.entries().len(),
            v0.len() == n,
            table == contributors_view(contributors.entries()),
            wanted == finalize_variants(v0, table),
            forall|i: int| 0 <= i < j ==> (#[trigger] entry@.hash_variants[i]) == wanted[i],
            forall|i: int| j <= i < n ==> (#[trigger] entry@.hash_variants[i]) == v0[i],
            entry.contract_key == old(entry).contract_key,
            entry.size_bytes == old(entry).size_bytes,
            entry.version == old(entry).version,
            entry.first_seen == old(entry).first_seen,
            entry.last_seen == old(entry).last_seen,
        decreases n - j,
    {
        let ghost before = entry@.hash_variants;
        let ghost stored = entry.hash_variants.entries();
        let variant = entry.hash_variants.value_at_mut(j);
        finalize_variant_in_place(variant, contributors);
        proof {
            let now = entry@.hash_variants;
            let kept = entry.hash_variants.entries();
            assert forall|i: int| 0 <= i < j + 1 implies (#[trigger] now[i]) == wanted[i] by {
                if i < j {
                    assert(kept[i] == stored[i]);
                    assert(now[i] == before[i]);
                } else {
                    assert(before[i] == v0[i]);
                    assert(before[i] == (stored[i].0, stored[i].1@));
                    assert(kept[i].1@ == finalize_variant(stored[i].1@, table));
                    assert(now[i] == (kept[i].0, kept[i].1@));
                }
            }
            assert forall|i: int| j + 1 <= i < n implies (#[trigger] now[i]) == v0[i] by {
                assert(kept[i] == stored[i]);
                assert(now[i] == before[i]);
            }
        }
        j += 1;
    }
    assert(entry@.hash_variants =~= wanted);
    entry.status = status;
}

fn finalize_entries_in_place(
    entries: &mut OrderedMap<String, CatalogEntry>,
    contributors: &OrderedMap<[u8; 32], ContributorScore>,
    threshold: u32,
)
    requires
        old(entries).wf(),
        forall|i: int|
            0 <= i < old(entries).entries().len() ==> (#[trigger] old(entries).entries()[i]).1.wf(),
        contributors.wf(),
    ensures
        final(entries).wf(),
        forall|i: int|
            0 <= i < final(entries).entries().len() ==> (#[trigger] final(entries).entries()[i]).1
                .wf(),
        entries_view(final(entries).entries()) == finalize_entries(
            entries_view(old(entries).entries()),
            contributors_view(contributors.entries()),
            threshold,
        ),
{
    let ghost e0 = entries_view(entries.entries());
    let ghost table = contributors_view(contributors.entries());
    let ghost wanted = finalize_entries(e0, table, threshold);
    let n: usize = entries.len();
    let mut i: usize = 0;
    while i < n
        invariant
            i <= n,
            entries.wf(),
            contributors.wf(),
            n == entries.entries().len(),
            e0.len() == n,
            table == contributors_view(contributors.entries()),
            wanted == finalize_entries(e0, table, threshold),
            forall|k: int| 0 <= k < n ==> (#[trigger] entries.entries()[k]).1.wf(),
            forall|k: int|
                0 <= k < i ==> (#[trigger] entries_view(entries.entries())[k]) == wanted[k],
            forall|k: int|
                i <= k < n ==> (#[trigger] entries_view(entries.entries())[k]) == e0[k],
        decreases n - i,
    {
        let ghost before = entries.entries();
        let entry = entries.value_at_mut(i);
        finalize_entry_in_place(entry, contributors, threshold);
        proof {
            let now = entries.entries();
            assert forall|k: int| 0 <= k < n implies (#[trigger] now[k]).1.wf() by {
                if k != i {
                    assert(now[k] == before[k]);
                }
            }
            assert forall|k: int| 0 <= k < i + 1 implies (#[trigger] entries_view(now)[k])
                == wanted[k] by {
                if k < i {
                    assert(now[k] == before[k]);
                    assert(entries_view(before)[k] == wanted[k]);
                } else {
                    assert(entries_view(before)[k] == e0[k]);
                }
            }
            assert forall|k: int| i + 1 <= k < n implies (#[trigger] entries_view(now)[k])
                == e0[k] by {
                assert(now[k] == before[k]);
                assert(entries_view(before)[k] == e0[k]);
            }
        }
        i += 1;
    }
    assert(entries_view(entries.entries()) =~= wanted);
}

/// Finalizes the catalog: raises each contributor's score to the trust it has
/// earned, gives every attestation the weight of its contributor's score,
/// totals the weights of every variant and derives the status of every entry.
pub fn finalize_state(state: &mut CatalogState, threshold: u32)
    requires
        old(state).wf(),
    ensures
        final(state).wf(),
        is_finalization(old(state)@, threshold, final(state)@),
{
    let trust = compute_trust_from_entries(state, threshold);
    apply_trust(&mut state.contributors, &trust);
    proof {
        state.contributors.lemma_wf();
        lemma_same_keys(
            state.contributors.entries(),
            contributors_view(state.contributors.entries()),
            Seq::empty(),
        );
    }
    finalize_entries_in_place(&mut state.entries, &state.contributors, threshold);
}

} // verus!
