//! The catalog: a grow-only record of contracts, their competing descriptions
//! and the contributors who attest to them.
//!
//! A delta adds one attestation; a merge adopts what a peer holds. Sizes and
//! versions grow by maximum, first sightings by minimum, attestations as a set
//! keyed by contributor. After every update the derived values (status, trust,
//! weights) are recomputed from the primary data alone.

use vstd::prelude::*;

use crate::bytes::bytes_equal;
use crate::hashing::{metadata_digest, metadata_hash};
use crate::ordered_map::{assoc_get, assoc_put, has_key, lemma_same_keys, ByteKey, OrderedMap};
use crate::sorting::{has_key_by, key_fn, sort_by, sort_by_key};
use crate::types::{
    attestations_view, clone_attestation, contributors_view, entries_view, variants_view,
    Attestation, AttestationView, CatalogDelta, CatalogEntry, CatalogState, CatalogView,
    ContractError, ContributorScore, ContributorView, DeltaView, EntryView, HashVariant, Status,
    VariantView,
};

verus! {

/// The longest title that a delta may carry, in bytes.
pub const MAX_TITLE_BYTES: usize = 256;

/// The longest description that a delta may carry, in bytes.
pub const MAX_DESCRIPTION_BYTES: usize = 1024;

/// Whether every byte is zero.
pub open spec fn all_zero(s: Seq<u8>) -> bool {
    forall|i: int| 0 <= i < s.len() ==> s[i] == 0
}

/// Whether the fields of a delta are in order: a key, bounded texts, a token
/// with a nonce and a difficulty, a contributor that is not all zero, and a
/// time that is not 0.
pub open spec fn delta_well_formed(d: DeltaView) -> bool {
    &&& d.contract_key.len() > 0
    &&& d.title.len() <= MAX_TITLE_BYTES
    &&& d.description.len() <= MAX_DESCRIPTION_BYTES
    &&& d.attestation.antiflood_token.nonce.len() > 0
    &&& d.attestation.antiflood_token.difficulty >= 1
    &&& !all_zero(d.attestation.contributor_pubkey)
    &&& d.attestation.token_created_at != 0
}

/// Whether a delta passes validation: its fields are in order and it carries
/// the hash of its title, its description and its mini snippet.
pub open spec fn delta_acceptable(d: DeltaView) -> bool {
    &&& delta_well_formed(d)
    &&& d.metadata_hash == metadata_digest(d.title, d.description, d.mini_snippet)
}

/// Whether every byte of `data` is zero.
pub fn is_all_zero(data: &[u8]) -> (zero: bool)
    ensures
        zero == all_zero(data@),
{
    let mut i: usize = 0;
    while i < data.len()
        invariant
            i <= data@.len(),
            forall|j: int| 0 <= j < i ==> data@[j] == 0,
        decreases data@.len() - i,
    {
        if data[i] != 0 {
            return false;
        }
        i += 1;
    }
    true
}

/// Checks a delta against the hash that its texts have.
pub fn check_delta(delta: &CatalogDelta, expected_hash: &[u8; 32]) -> (result: Result<
    (),
    ContractError,
>)
    ensures
        result is Ok <==> delta_well_formed(delta@) && delta@.metadata_hash == expected_hash@,
        result is Err ==> result == Err::<(), ContractError>(ContractError::InvalidUpdate),
{
    if delta.contract_key.as_str().as_bytes().len() == 0 {
        return Err(ContractError::InvalidUpdate);
    }
    if delta.title.as_str().as_bytes().len() > MAX_TITLE_BYTES {
        return Err(ContractError::InvalidUpdate);
    }
    if delta.description.as_str().as_bytes().len() > MAX_DESCRIPTION_BYTES {
        return Err(ContractError::InvalidUpdate);
    }
    if delta.attestation.antiflood_token.nonce.len() == 0
        || delta.attestation.antiflood_token.difficulty == 0 {
        return Err(ContractError::InvalidUpdate);
    }
    if is_all_zero(delta.attestation.contributor_pubkey.as_slice()) {
        return Err(ContractError::InvalidUpdate);
    }
    if delta.attestation.token_created_at == 0 {
        return Err(ContractError::InvalidUpdate);
    }
    if !bytes_equal(delta.metadata_hash.as_slice(), expected_hash.as_slice()) {
        return Err(ContractError::InvalidUpdate);
    }
    Ok(())
}

/// Checks a delta before it is applied.
pub fn validate_delta(delta: &CatalogDelta) -> (result: Result<(), ContractError>)
    ensures
        result is Ok <==> delta_acceptable(delta@),
        result is Err ==> result == Err::<(), ContractError>(ContractError::InvalidUpdate),
{
    let expected = metadata_hash(
        delta.title.as_str(),
        delta.description.as_str(),
        delta.mini_snippet.as_str(),
    );
    check_delta(delta, &expected)
}

/// The sum of two weights, held at the largest value where it would pass it.
pub open spec fn add_weight(a: u32, b: u32) -> u32 {
    if a + b > u32::MAX {
        u32::MAX
    } else {
        (a + b) as u32
    }
}

/// The weight of an attestation by a contributor with this trust score.
pub open spec fn weight_for(trust: u32) -> u32 {
    add_weight(1, trust)
}

/// The trust score that the table holds for a contributor: 0 for one it does not know.
pub open spec fn trust_of(contributors: Seq<(Seq<u8>, ContributorView)>, pubkey: Seq<u8>) -> u32 {
    match assoc_get(contributors, pubkey) {
        Some(c) => c.trust_score,
        None => 0,
    }
}

/// The total of the weights of a list of attestations.
pub open spec fn weight_sum(attestations: Seq<AttestationView>) -> u32
    decreases attestations.len(),
{
    if attestations.len() == 0 {
        0
    } else {
        add_weight(weight_sum(attestations.drop_last()), attestations.last().weight)
    }
}

/// The contributor of an attestation, as the key by which attestations are
/// ordered and found.
pub open spec fn by_pubkey() -> spec_fn(AttestationView) -> Seq<u8> {
    key_fn::<Attestation>()
}

/// Whether one of the attestations is by this contributor.
pub open spec fn has_pubkey(attestations: Seq<AttestationView>, pubkey: Seq<u8>) -> bool {
    has_key_by(attestations, pubkey, by_pubkey())
}

/// The attestations in the order of their contributors; those of one
/// contributor stay in the order in which they came.
pub open spec fn sort_by_pubkey(s: Seq<AttestationView>) -> Seq<AttestationView> {
    sort_by(s, by_pubkey())
}

/// Adds two weights without passing the largest value.
pub fn saturating_weight(a: u32, b: u32) -> (sum: u32)
    ensures
        sum == add_weight(a, b),
{
    if a > u32::MAX - b {
        u32::MAX
    } else {
        a + b
    }
}

/// Totals the weights of the attestations.
pub fn total_weight_of(attestations: &Vec<Attestation>) -> (total: u32)
    ensures
        total == weight_sum(attestations_view(attestations@)),
{
    let ghost view = attestations_view(attestations@);
    let mut total: u32 = 0;
    let mut i: usize = 0;
    while i < attestations.len()
        invariant
            i <= attestations@.len(),
            view == attestations_view(attestations@),
            total == weight_sum(view.subrange(0, i as int)),
        decreases attestations@.len() - i,
    {
        proof {
            let next = view.subrange(0, i + 1);
            assert(next.drop_last() =~= view.subrange(0, i as int));
            assert(next.last().weight == attestations@[i as int].weight);
        }
        total = saturating_weight(total, attestations[i].weight);
        i += 1;
    }
    assert(view.subrange(0, i as int) =~= view);
    total
}

/// Whether one of the attestations is by the contributor `pubkey`.
pub fn attested_by(attestations: &Vec<Attestation>, pubkey: &[u8; 32]) -> (found: bool)
    ensures
        found == has_pubkey(attestations_view(attestations@), pubkey@),
{
    let ghost view = attestations_view(attestations@);
    let mut i: usize = 0;
    while i < attestations.len()
        invariant
            i <= attestations@.len(),
            view == attestations_view(attestations@),
            forall|j: int| 0 <= j < i ==> (#[trigger] view[j]).contributor_pubkey != pubkey@,
        decreases attestations@.len() - i,
    {
        if bytes_equal(
            attestations[i].contributor_pubkey.as_slice(),
            pubkey.as_slice(),
        ) {
            assert(view[i as int].contributor_pubkey == pubkey@);
            return true;
        }
        i += 1;
    }
    false
}

/// Puts the attestations in the order of their contributors, keeping the
/// order of those that share one.
pub fn sort_attestations(attestations: &mut Vec<Attestation>)
    ensures
        attestations_view(final(attestations)@) == sort_by_pubkey(
            attestations_view(old(attestations)@),
        ),
{
    sort_by_key(attestations);
}

/// The entry that stands for a contract before anything is known of it.
pub open spec fn fresh_entry(contract_key: Seq<u8>) -> EntryView {
    EntryView {
        contract_key,
        hash_variants: Seq::empty(),
        size_bytes: 0,
        version: None,
        status: Status::Pending,
        first_seen: u64::MAX,
        last_seen: 0,
    }
}

/// The larger of two versions, where no version is smaller than any.
pub open spec fn max_version(a: Option<u64>, b: Option<u64>) -> Option<u64> {
    match (a, b) {
        (Some(x), Some(y)) => Some(if x >= y { x } else { y }),
        (Some(x), None) => Some(x),
        (None, Some(y)) => Some(y),
        (None, None) => None,
    }
}

/// The larger of two numbers.
pub open spec fn max_u64(a: u64, b: u64) -> u64 {
    if a >= b {
        a
    } else {
        b
    }
}

/// The smaller of two numbers.
pub open spec fn min_u64(a: u64, b: u64) -> u64 {
    if a <= b {
        a
    } else {
        b
    }
}

/// The attestations after `a` is offered: unchanged where its contributor has
/// attested already, else with `a` added and the list put in order.
pub open spec fn attest(attestations: Seq<AttestationView>, a: AttestationView) -> Seq<
    AttestationView,
> {
    if has_pubkey(attestations, a.contributor_pubkey) {
        attestations
    } else {
        sort_by_pubkey(attestations.push(a))
    }
}

/// The variant that a delta leaves where the attestations `prior` stood: the
/// delta's texts, its attestation at the given weight, the total recomputed.
pub open spec fn apply_to_variant(prior: Seq<AttestationView>, d: DeltaView, weight: u32) -> VariantView {
    let attestations = attest(prior, AttestationView { weight, ..d.attestation });
    VariantView {
        title: d.title,
        description: d.description,
        mini_snippet: d.mini_snippet,
        attestations,
        total_weight: weight_sum(attestations),
    }
}

/// The entry after a delta: the variant of the delta's hash is created or
/// updated, the scalars move by maximum and minimum.
pub open spec fn apply_to_entry(e: EntryView, d: DeltaView, weight: u32) -> EntryView {
    let prior = match assoc_get(e.hash_variants, d.metadata_hash) {
        Some(v) => v.attestations,
        None => Seq::empty(),
    };
    EntryView {
        contract_key: e.contract_key,
        hash_variants: assoc_put(
            e.hash_variants,
            d.metadata_hash,
            apply_to_variant(prior, d, weight),
        ),
        size_bytes: max_u64(e.size_bytes, d.size_bytes),
        version: max_version(e.version, d.version),
        status: e.status,
        first_seen: min_u64(e.first_seen, d.attestation.token_created_at),
        last_seen: max_u64(e.last_seen, d.attestation.token_created_at),
    }
}

/// The catalog after one delta is applied. The attestation weighs one more
/// than the trust score that the contributor has before the delta.
pub open spec fn apply_delta_spec(s: CatalogView, d: DeltaView) -> CatalogView {
    let weight = weight_for(trust_of(s.contributors, d.attestation.contributor_pubkey));
    let e = match assoc_get(s.entries, d.contract_key) {
        Some(e) => e,
        None => fresh_entry(d.contract_key),
    };
    CatalogView {
        entries: assoc_put(s.entries, d.contract_key, apply_to_entry(e, d, weight)),
        contributors: s.contributors,
    }
}

/// Looks up the trust score of a contributor.
pub fn trust_score_of(
    contributors: &OrderedMap<[u8; 32], ContributorScore>,
    pubkey: &[u8; 32],
) -> (trust: u32)
    requires
        contributors.wf(),
    ensures
        trust == trust_of(contributors_view(contributors.entries()), pubkey@),
{
    proof {
        contributors.lemma_wf();
        lemma_same_keys(
            contributors.entries(),
            contributors_view(contributors.entries()),
            pubkey@,
        );
    }
    match contributors.get(pubkey) {
        Some(c) => c.trust_score,
        None => 0,
    }
}

/// Computes the larger of two versions.
pub fn merge_version(a: Option<u64>, b: Option<u64>) -> (v: Option<u64>)
    ensures
        v == max_version(a, b),
{
    match (a, b) {
        (Some(x), Some(y)) => Some(if x >= y { x } else { y }),
        (Some(x), None) => Some(x),
        (None, Some(y)) => Some(y),
        (None, None) => None,
    }
}

fn apply_delta_to_variant(variant: &mut HashVariant, delta: &CatalogDelta, weight: u32)
    ensures
        final(variant)@ == apply_to_variant(old(variant)@.attestations, delta@, weight),
{
    variant.title = delta.title.clone();
    variant.description = delta.description.clone();
    variant.mini_snippet = delta.mini_snippet.clone();
    if !attested_by(&variant.attestations, &delta.attestation.contributor_pubkey) {
        let mut attestation = clone_attestation(&delta.attestation);
        attestation.weight = weight;
        let ghost prior = attestations_view(variant.attestations@);
        variant.attestations.push(attestation);
        proof {
            assert(attestations_view(variant.attestations@) =~= prior.push(
                AttestationView { weight, ..delta@.attestation },
            ));
        }
        sort_attestations(&mut variant.attestations);
    }
    variant.total_weight = total_weight_of(&variant.attestations);
}

fn apply_delta_to_entry(entry: &mut CatalogEntry, delta: &CatalogDelta, weight: u32)
    requires
        old(entry).wf(),
    ensures
        final(entry).wf(),
        final(entry)@ == apply_to_entry(old(entry)@, delta@, weight),
{
    let ghost s0 = entry.hash_variants.entries();
    let ghost v0 = variants_view(s0);
    let ghost hash = delta.metadata_hash@;
    proof {
        entry.hash_variants.lemma_wf();
        lemma_same_keys(s0, v0, hash);
    }
    let at: usize = match entry.hash_variants.position(&delta.metadata_hash) {
        Some(at) => at,
        None => entry.hash_variants.insert(
            delta.metadata_hash,
            HashVariant {
                title: String::new(),
                description: String::new(),
                mini_snippet: String::new(),
                attestations: Vec::new(),
                total_weight: 0,
            },
        ),
    };
    let ghost s1 = entry.hash_variants.entries();
    let ghost prior = s1[at as int].1@.attestations;
    proof {
        if !has_key(s0, hash) {
            assert(prior =~= Seq::<AttestationView>::empty());
        }
    }
    let variant = entry.hash_variants.value_at_mut(at);
    apply_delta_to_variant(variant, delta, weight);
    proof {
        let s2 = entry.hash_variants.entries();
        let changed = apply_to_variant(prior, delta@, weight);
        assert(variants_view(s2) =~= assoc_put(v0, hash, changed));
    }
    entry.size_bytes = if entry.size_bytes >= delta.size_bytes {
        entry.size_bytes
    } else {
        delta.size_bytes
    };
    entry.version = merge_version(entry.version, delta.version);
    let seen: u64 = delta.attestation.token_created_at;
    if seen < entry.first_seen {
        entry.first_seen = seen;
    }
    if seen > entry.last_seen {
        entry.last_seen = seen;
    }
}

/// Applies one delta to the catalog: ensures the entry and the variant, adds
/// the attestation unless its contributor is known to the variant, and moves
/// the entry's scalars.
pub fn apply_delta_to_state(state: &mut CatalogState, delta: &CatalogDelta)
    requires
        old(state).wf(),
    ensures
        final(state).wf(),
        final(state)@ == apply_delta_spec(old(state)@, delta@),
{
    let trust: u32 = trust_score_of(&state.contributors, &delta.attestation.contributor_pubkey);
    let weight: u32 = saturating_weight(1, trust);
    let ghost s0 = state.entries.entries();
    let ghost v0 = entries_view(s0);
    let ghost key = delta@.contract_key;
    proof {
        state.entries.lemma_wf();
        lemma_same_keys(s0, v0, key);
    }
    let at: usize = match state.entries.position(&delta.contract_key) {
        Some(at) => at,
        None => state.entries.insert(
            delta.contract_key.clone(),
            CatalogEntry {
                contract_key: delta.contract_key.clone(),
                hash_variants: OrderedMap::new(),
                size_bytes: 0,
                version: None,
                status: Status::Pending,
                first_seen: u64::MAX,
                last_seen: 0,
            },
        ),
    };
    let ghost s1 = state.entries.entries();
    let ghost e1 = s1[at as int].1@;
    proof {
        if !has_key(s0, key) {
            assert(e1.hash_variants =~= Seq::<(Seq<u8>, VariantView)>::empty());
            assert(e1 == fresh_entry(key));
        }
        assert forall|i: int| 0 <= i < s1.len() implies (#[trigger] s1[i]).1.wf() by {
            if has_key(s0, key) {
            } else if i < at {
                assert(s1[i] == s0[i]);
            } else if i > at {
                assert(s1[i] == s0[i - 1]);
            }
        }
    }
    let entry = state.entries.value_at_mut(at);
    apply_delta_to_entry(entry, delta, weight);
    proof {
        let s2 = state.entries.entries();
        let changed = apply_to_entry(e1, delta@, weight);
        assert(entries_view(s2) =~= assoc_put(v0, key, changed));
        assert forall|i: int| 0 <= i < s2.len() implies (#[trigger] s2[i]).1.wf() by {
            if i != at {
                assert(s2[i] == s1[i]);
            }
        }
    }
}

/// The two largest of a list of counts, the largest first; 0 stands for a
/// count that is not there.
pub open spec fn top_two(counts: Seq<nat>) -> (nat, nat)
    decreases counts.len(),
{
    if counts.len() == 0 {
        (0, 0)
    } else {
        let (best, second) = top_two(counts.drop_last());
        let c = counts.last();
        if c >= best {
            (c, best)
        } else if c > second {
            (best, c)
        } else {
            (best, second)
        }
    }
}

/// The number of attestations of each variant.
pub open spec fn attestation_counts(variants: Seq<(Seq<u8>, VariantView)>) -> Seq<nat> {
    variants.map_values(|p: (Seq<u8>, VariantView)| p.1.attestations.len())
}

/// The total weight of each variant.
pub open spec fn variant_weights(variants: Seq<(Seq<u8>, VariantView)>) -> Seq<nat> {
    variants.map_values(|p: (Seq<u8>, VariantView)| p.1.total_weight as nat)
}

/// The status that the counts `best` and `second` give under a threshold.
pub open spec fn status_from_counts(best: nat, second: nat, threshold: u32) -> Status {
    if best >= threshold {
        if second * 100 > best * 30 {
            Status::Disputed
        } else {
            Status::Confirmed
        }
    } else {
        Status::Pending
    }
}

/// The status of an entry with these variants. It goes by the number of
/// attestations of each variant, not by their weights: the variant with the
/// most must reach the threshold, and the entry is disputed where the next
/// has more than 30% of that.
pub open spec fn status_of(variants: Seq<(Seq<u8>, VariantView)>, threshold: u32) -> Status {
    let (best, second) = top_two(attestation_counts(variants));
    status_from_counts(best, second, threshold)
}

/// The place of the largest score; of several that are largest, the last.
/// It is -1 where there is no score.
pub open spec fn last_max_index(scores: Seq<nat>) -> int
    decreases scores.len(),
{
    if scores.len() == 0 {
        -1
    } else {
        let before = last_max_index(scores.drop_last());
        if before < 0 || scores.last() >= scores[before] {
            scores.len() - 1
        } else {
            before
        }
    }
}

/// The place found by `last_max_index` is a place of the list.
pub proof fn lemma_last_max_index_bounds(scores: Seq<nat>)
    ensures
        -1 <= last_max_index(scores) < scores.len(),
        scores.len() > 0 ==> last_max_index(scores) >= 0,
    decreases scores.len(),
{
    if scores.len() > 0 {
        lemma_last_max_index_bounds(scores.drop_last());
    }
}

/// Derives the status of an entry from the attestation counts of its variants.
pub fn derive_status(entry: &CatalogEntry, threshold: u32) -> (status: Status)
    requires
        entry.wf(),
    ensures
        status == status_of(entry@.hash_variants, threshold),
{
    let ghost counts = attestation_counts(entry@.hash_variants);
    let n: usize = entry.hash_variants.len();
    let mut best: usize = 0;
    let mut second: usize = 0;
    let mut i: usize = 0;
    while i < n
        invariant
            i <= n,
            entry.wf(),
            n == entry.hash_variants.entries().len(),
            counts == attestation_counts(entry@.hash_variants),
            counts.len() == n,
            top_two(counts.subrange(0, i as int)) == (best as nat, second as nat),
        decreases n - i,
    {
        let c: usize = entry.hash_variants.value_at(i).attestations.len();
        proof {
            let next = counts.subrange(0, i + 1);
            assert(next.drop_last() =~= counts.subrange(0, i as int));
            assert(next.last() == c as nat);
        }
        if c >= best {
            second = best;
            best = c;
        } else if c > second {
            second = c;
        }
        i += 1;
    }
    proof {
        assert(counts.subrange(0, n as int) =~= counts);
    }
    if best as u128 >= threshold as u128 {
        if (second as u128) * 100 > (best as u128) * 30 {
            Status::Disputed
        } else {
            Status::Confirmed
        }
    } else {
        Status::Pending
    }
}

/// The place of the variant with the most attestations, the last of several.
pub(crate) fn winning_variant(entry: &CatalogEntry) -> (at: Option<usize>)
    requires
        entry.wf(),
    ensures
        at is None <==> last_max_index(attestation_counts(entry@.hash_variants)) < 0,
        at is Some ==> at->0 == last_max_index(attestation_counts(entry@.hash_variants)) && at->0
            < entry.hash_variants.entries().len(),
{
    let ghost counts = attestation_counts(entry@.hash_variants);
    let n: usize = entry.hash_variants.len();
    let mut at: Option<usize> = None;
    let mut best: usize = 0;
    let mut i: usize = 0;
    while i < n
        invariant
            i <= n,
            entry.wf(),
            n == entry.hash_variants.entries().len(),
            counts == attestation_counts(entry@.hash_variants),
            counts.len() == n,
            at is None <==> last_max_index(counts.subrange(0, i as int)) < 0,
            at is Some ==> at->0 == last_max_index(counts.subrange(0, i as int)) && at->0 < i
                && best as nat == counts[at->0 as int],
        decreases n - i,
    {
        let c: usize = entry.hash_variants.value_at(i).attestations.len();
        proof {
            let next = counts.subrange(0, i + 1);
            assert(next.drop_last() =~= counts.subrange(0, i as int));
            assert(next.last() == c as nat);
            if at is Some {
                assert(next[at->0 as int] == counts[at->0 as int]);
            }
        }
        if at.is_none() || c >= best {
            at = Some(i);
            best = c;
        }
        i += 1;
    }
    proof {
        assert(counts.subrange(0, n as int) =~= counts);
    }
    at
}

/// The place of the variant with the largest total weight, the last of several.
pub(crate) fn heaviest_variant(entry: &CatalogEntry) -> (at: Option<usize>)
    requires
        entry.wf(),
    ensures
        at is None <==> last_max_index(variant_weights(entry@.hash_variants)) < 0,
        at is Some ==> at->0 == last_max_index(variant_weights(entry@.hash_variants)) && at->0
            < entry.hash_variants.entries().len(),
{
    let ghost weights = variant_weights(entry@.hash_variants);
    let n: usize = entry.hash_variants.len();
    let mut at: Option<usize> = None;
    let mut best: u32 = 0;
    let mut i: usize = 0;
    while i < n
        invariant
            i <= n,
            entry.wf(),
            n == entry.hash_variants.entries().len(),
            weights == variant_weights(entry@.hash_variants),
            weights.len() == n,
            at is None <==> last_max_index(weights.subrange(0, i as int)) < 0,
            at is Some ==> at->0 == last_max_index(weights.subrange(0, i as int)) && at->0 < i
                && best as nat == weights[at->0 as int],
        decreases n - i,
    {
        let w: u32 = entry.hash_variants.value_at(i).total_weight;
        proof {
            let next = weights.subrange(0, i + 1);
            assert(next.drop_last() =~= weights.subrange(0, i as int));
            assert(next.last() == w as nat);
            if at is Some {
                assert(next[at->0 as int] == weights[at->0 as int]);
            }
        }
        if at.is_none() || w >= best {
            at = Some(i);
            best = w;
        }
        i += 1;
    }
    proof {
        assert(weights.subrange(0, n as int) =~= weights);
    }
    at
}

} // verus!
