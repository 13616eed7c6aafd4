//! Searching: the terms of a query, the documents that the shards hold under
//! them, and the results in the order of their scores.

use vstd::prelude::*;
use vstd::utf8::{decode_utf8, encode_utf8};

use crate::catalog::{
    add_weight, heaviest_variant, last_max_index, total_weight_of, variant_weights, weight_sum,
};
use crate::folding::fold_steps;
use crate::hashing::{shard_for_word, shard_of};
use crate::ordered_map::{
    assoc_get, assoc_put, keys_increasing, lemma_get_at, lemma_put, lemma_same_keys, ByteKey,
    OrderedMap,
};
use crate::presentation::{highlight_snippet, highlighted};
use crate::scoring::{combined_of, combined_score, rank_of, rank_score};
use crate::shard::SHARD_COUNT;
use crate::sorting::views;
use crate::tokenization::{texts, tokenize, tokens_of};
use crate::types::{
    terms_view, CatalogEntry, CatalogState, CatalogView, EntryView, ShardState, ShardView, Status,
    TermEntry, TermView, VariantView,
};

verus! {

/// The number of results that a search returns at most.
pub const MAX_RESULTS: usize = 50;

/// A query: its terms, and for each term the shard that indexes it.
#[derive(Clone, Debug, PartialEq, Eq)]
pub struct SearchQuery {
    pub terms: Vec<String>,
    pub term_to_shard: OrderedMap<String, u8>,
}

/// The value of a [`SearchQuery`].
pub struct QueryView {
    pub terms: Seq<Seq<char>>,
    pub term_to_shard: Seq<(Seq<u8>, u8)>,
}

impl View for SearchQuery {
    type V = QueryView;

    open spec fn view(&self) -> QueryView {
        QueryView { terms: texts(self.terms@), term_to_shard: self.term_to_shard.entries() }
    }
}

impl SearchQuery {
    /// The table of the shards is in order.
    pub open spec fn wf(&self) -> bool {
        self.term_to_shard.wf()
    }
}

/// The values of the shards.
pub open spec fn shards_view(shards: Seq<ShardState>) -> Seq<ShardView> {
    views(shards)
}

/// The value of a catalog that may not be there.
pub open spec fn option_view(catalog: Option<&CatalogState>) -> Option<CatalogView> {
    match catalog {
        Some(c) => Some(c@),
        None => None,
    }
}

/// The table that gives each of the terms its shard.
pub open spec fn shard_table(terms: Seq<Seq<char>>) -> Seq<(Seq<u8>, u8)>
    decreases terms.len(),
{
    if terms.len() == 0 {
        Seq::empty()
    } else {
        let word = encode_utf8(terms.last());
        assoc_put(shard_table(terms.drop_last()), word, shard_of(word, SHARD_COUNT))
    }
}

/// Splits a query into its terms and finds the shard of each.
pub fn parse_query(raw: &str) -> (query: SearchQuery)
    ensures
        query.wf(),
        query@.terms == tokens_of(raw@),
        query@.term_to_shard == shard_table(tokens_of(raw@)),
{
    let terms = tokenize(raw);
    let ghost all = texts(terms@);
    let mut term_to_shard: OrderedMap<String, u8> = OrderedMap::new();
    let n: usize = terms.len();
    let mut i: usize = 0;
    assert(all.subrange(0, 0) =~= Seq::empty());
    while i < n
        invariant
            i <= n,
            n == terms@.len(),
            all == texts(terms@),
            term_to_shard.wf(),
            term_to_shard.entries() == shard_table(all.subrange(0, i as int)),
        decreases n - i,
    {
        proof {
            let next = all.subrange(0, i + 1);
            assert(next.drop_last() =~= all.subrange(0, i as int));
            assert(next.last() == terms@[i as int]@);
        }
        let shard = shard_for_word(terms[i].as_str(), SHARD_COUNT);
        term_to_shard.insert(terms[i].clone(), shard);
        i += 1;
    }
    assert(all.subrange(0, n as int) =~= all);
    SearchQuery { terms, term_to_shard }
}

/// What a search has found of one document: the total of the scores under
/// the terms of the query, and the first snippet that was not empty.
pub struct Hit {
    pub score: u32,
    pub snippet: String,
}

/// The value of a [`Hit`].
pub struct HitView {
    pub score: u32,
    pub snippet: Seq<u8>,
}

impl View for Hit {
    type V = HitView;

    open spec fn view(&self) -> HitView {
        HitView { score: self.score, snippet: encode_utf8(self.snippet@) }
    }
}

/// The values of the hits of a search, in the order of their contract keys.
pub open spec fn hits_view(s: Seq<(Seq<u8>, Hit)>) -> Seq<(Seq<u8>, HitView)> {
    s.map_values(|p: (Seq<u8>, Hit)| (p.0, p.1@))
}

/// What is known of a document before any term has found it.
pub open spec fn no_hit() -> HitView {
    HitView { score: 0, snippet: Seq::empty() }
}

/// A hit after one more term has found the document: the score is added,
/// held at the largest value, and the snippet is taken where none was there.
pub open spec fn raised_hit(hit: HitView, entry: TermView) -> HitView {
    HitView {
        score: add_weight(hit.score, entry.tf_idf_score),
        snippet: if hit.snippet.len() == 0 {
            entry.snippet
        } else {
            hit.snippet
        },
    }
}

/// The hits after a document was found under a term.
pub open spec fn count_entry(hits: Seq<(Seq<u8>, HitView)>, entry: TermView) -> Seq<(Seq<u8>, HitView)> {
    let before = match assoc_get(hits, entry.contract_key) {
        Some(hit) => hit,
        None => no_hit(),
    };
    assoc_put(hits, entry.contract_key, raised_hit(before, entry))
}

/// Counting one document, as a step.
pub open spec fn entry_counter() -> spec_fn(Seq<(Seq<u8>, HitView)>, TermView) -> Seq<(Seq<u8>, HitView)> {
    |hits: Seq<(Seq<u8>, HitView)>, entry: TermView| count_entry(hits, entry)
}

/// The hits after all the documents under one term were counted.
pub open spec fn count_entries(hits: Seq<(Seq<u8>, HitView)>, entries: Seq<TermView>) -> Seq<(Seq<u8>, HitView)> {
    fold_steps(hits, entries, entry_counter())
}

/// The place of the first shard with this id, or -1.
pub open spec fn shard_place(shards: Seq<ShardView>, id: u8) -> int
    decreases shards.len(),
{
    if shards.len() == 0 {
        -1
    } else {
        let before = shard_place(shards.drop_last(), id);
        if before >= 0 {
            before
        } else if shards.last().shard_id == id {
            shards.len() - 1
        } else {
            -1
        }
    }
}

/// The documents that the shards hold under a term: those that the first
/// shard with the id that the table gives for the term holds under it.
pub open spec fn documents_under(
    term: Seq<u8>,
    table: Seq<(Seq<u8>, u8)>,
    shards: Seq<ShardView>,
) -> Seq<TermView> {
    match assoc_get(table, term) {
        None => Seq::empty(),
        Some(id) => {
            let at = shard_place(shards, id);
            if at < 0 {
                Seq::empty()
            } else {
                match assoc_get(shards[at].index, term) {
                    Some(entries) => entries,
                    None => Seq::empty(),
                }
            }
        },
    }
}

/// The hits after the documents under each of the terms were counted, term
/// after term.
pub open spec fn count_terms(
    terms: Seq<Seq<char>>,
    table: Seq<(Seq<u8>, u8)>,
    shards: Seq<ShardView>,
) -> Seq<(Seq<u8>, HitView)>
    decreases terms.len(),
{
    if terms.len() == 0 {
        Seq::empty()
    } else {
        count_entries(
            count_terms(terms.drop_last(), table, shards),
            documents_under(encode_utf8(terms.last()), table, shards),
        )
    }
}

fn hit_slot(hits: &mut OrderedMap<String, Hit>, key: &String) -> (at: usize)
    requires
        old(hits).wf(),
    ensures
        final(hits).wf(),
        at < final(hits).entries().len(),
        final(hits).entries()[at as int].0 == key.key_bytes(),
        final(hits).entries()[at as int].1@ == (match assoc_get(
            hits_view(old(hits).entries()),
            key.key_bytes(),
        ) {
            Some(hit) => hit,
            None => no_hit(),
        }),
        forall|hit: HitView|
            assoc_put(hits_view(old(hits).entries()), key.key_bytes(), hit) == hits_view(
                final(hits).entries(),
            ).update(at as int, (key.key_bytes(), hit)),
{
    let ghost s0 = hits.entries();
    let ghost v0 = hits_view(s0);
    let ghost kb = key.key_bytes();
    proof {
        hits.lemma_wf();
        lemma_same_keys(s0, v0, kb);
    }
    let at: usize = match hits.position(key) {
        Some(at) => at,
        None => {
            let fresh = Hit { score: 0, snippet: String::new() };
            assert(fresh@.snippet =~= Seq::<u8>::empty()) by {
                assert(fresh.snippet@ =~= Seq::<char>::empty());
                assert(encode_utf8(Seq::<char>::empty()) =~= Seq::<u8>::empty());
            }
            hits.insert(key.clone(), fresh)
        },
    };
    proof {
        let s1 = hits.entries();
        let v1 = hits_view(s1);
        assert forall|hit: HitView| assoc_put(v0, kb, hit) == v1.update(at as int, (kb, hit)) by {
            assert(assoc_put(v0, kb, hit) =~= v1.update(at as int, (kb, hit)));
        }
    }
    at
}

fn saturating_score(a: u32, b: u32) -> (sum: u32)
    ensures
        sum == add_weight(a, b),
{
    if a > u32::MAX - b {
        u32::MAX
    } else {
        a + b
    }
}

fn count_under(hits: &mut OrderedMap<String, Hit>, entries: &Vec<TermEntry>)
    requires
        old(hits).wf(),
    ensures
        final(hits).wf(),
        hits_view(final(hits).entries()) == count_entries(
            hits_view(old(hits).entries()),
            terms_view(entries@),
        ),
{
    let ghost h0 = hits_view(hits.entries());
    let ghost all = terms_view(entries@);
    let n: usize = entries.len();
    let mut i: usize = 0;
    assert(all.subrange(0, 0) =~= Seq::empty());
    while i < n
        invariant
            i <= n,
            n == entries@.len(),
            all == terms_view(entries@),
            hits.wf(),
            hits_view(hits.entries()) == count_entries(h0, all.subrange(0, i as int)),
        decreases n - i,
    {
        let entry = &entries[i];
        let ghost before = hits_view(hits.entries());
        proof {
            let next = all.subrange(0, i + 1);
            assert(next.drop_last() =~= all.subrange(0, i as int));
            assert(next.last() == entry@);
        }
        let at = hit_slot(hits, &entry.contract_key);
        let hit = hits.value_at_mut(at);
        let ghost prior = hit@;
        hit.score = saturating_score(hit.score, entry.tf_idf_score);
        if hit.snippet.as_str().as_bytes().len() == 0 {
            hit.snippet = entry.snippet.clone();
        }
        proof {
            assert(hit@ == raised_hit(prior, entry@));
            assert(hits_view(hits.entries()) =~= assoc_put(
                before,
                entry@.contract_key,
                raised_hit(prior, entry@),
            ));
        }
        i += 1;
    }
    assert(all.subrange(0, n as int) =~= all);
}

fn find_shard(shards: &Vec<ShardState>, id: u8) -> (at: Option<usize>)
    ensures
        at is None <==> shard_place(shards_view(shards@), id) < 0,
        at is Some ==> at->0 == shard_place(shards_view(shards@), id) && at->0 < shards@.len(),
{
    let ghost all = shards_view(shards@);
    let n: usize = shards.len();
    let mut i: usize = 0;
    assert(all.subrange(0, 0) =~= Seq::empty());
    while i < n
        invariant
            i <= n,
            n == shards@.len(),
            all == shards_view(shards@),
            shard_place(all.subrange(0, i as int), id) < 0,
        decreases n - i,
    {
        proof {
            let next = all.subrange(0, i + 1);
            assert(next.drop_last() =~= all.subrange(0, i as int));
            assert(next.last() == shards@[i as int]@);
        }
        if shards[i].shard_id == id {
            proof {
                lemma_shard_place_kept(all, i + 1, id);
            }
            return Some(i);
        }
        i += 1;
    }
    assert(all.subrange(0, n as int) =~= all);
    None
}

proof fn lemma_shard_place_kept(shards: Seq<ShardView>, n: int, id: u8)
    requires
        0 <= n <= shards.len(),
        shard_place(shards.subrange(0, n), id) >= 0,
    ensures
        shard_place(shards, id) == shard_place(shards.subrange(0, n), id),
    decreases shards.len() - n,
{
    if n < shards.len() {
        let next = shards.subrange(0, n + 1);
        assert(next.drop_last() =~= shards.subrange(0, n));
        lemma_shard_place_kept(shards, n + 1, id);
    } else {
        assert(shards.subrange(0, n) =~= shards);
    }
}

fn count_all(query: &SearchQuery, shards: &Vec<ShardState>) -> (hits: OrderedMap<String, Hit>)
    requires
        query.wf(),
        forall|i: int| 0 <= i < shards@.len() ==> (#[trigger] shards@[i]).wf(),
    ensures
        hits.wf(),
        hits_view(hits.entries()) == count_terms(
            query@.terms,
            query@.term_to_shard,
            shards_view(shards@),
        ),
{
    let ghost terms = query@.terms;
    let ghost table = query@.term_to_shard;
    let ghost all = shards_view(shards@);
    let mut hits: OrderedMap<String, Hit> = OrderedMap::new();
    let n: usize = query.terms.len();
    let mut i: usize = 0;
    proof {
        assert(terms.subrange(0, 0) =~= Seq::empty());
        assert(hits_view(hits.entries()) =~= Seq::empty());
    }
    while i < n
        invariant
            i <= n,
            n == query.terms@.len(),
            terms == query@.terms,
            table == query@.term_to_shard,
            all == shards_view(shards@),
            query.wf(),
            forall|j: int| 0 <= j < shards@.len() ==> (#[trigger] shards@[j]).wf(),
            hits.wf(),
            hits_view(hits.entries()) == count_terms(terms.subrange(0, i as int), table, all),
        decreases n - i,
    {
        let term = &query.terms[i];
        proof {
            let next = terms.subrange(0, i + 1);
            assert(next.drop_last() =~= terms.subrange(0, i as int));
            assert(next.last() == term@);
        }
        let ghost found = documents_under(encode_utf8(term@), table, all);
        let ghost before = hits_view(hits.entries());
        let mut counted = false;
        if let Some(id) = query.term_to_shard.get(term) {
            if let Some(at) = find_shard(shards, *id) {
                let shard = &shards[at];
                proof {
                    shard.index.lemma_wf();
                    lemma_same_keys(shard.index.entries(), shard@.index, term.key_bytes());
                }
                if let Some(entries) = shard.index.get(term) {
                    assert(found == terms_view(entries@));
                    count_under(&mut hits, entries);
                    counted = true;
                }
            }
        }
        proof {
            if !counted {
                assert(found =~= Seq::<TermView>::empty());
                assert(count_entries(before, found) == before);
            }
        }
        i += 1;
    }
    assert(terms.subrange(0, n as int) =~= terms);
    hits
}

/// One result of a search, as it is shown.
#[derive(Clone, Debug, PartialEq, Eq)]
pub struct SearchResult {
    pub contract_key: String,
    pub title: String,
    pub description: String,
    pub highlighted_snippet: String,
    pub combined_score: u32,
    pub status: Status,
    pub attestation_count: u32,
}

/// The value of a [`SearchResult`].
pub struct ResultView {
    pub contract_key: Seq<u8>,
    pub title: Seq<u8>,
    pub description: Seq<u8>,
    pub highlighted_snippet: Seq<u8>,
    pub combined_score: u32,
    pub status: Status,
    pub attestation_count: u32,
}

impl View for SearchResult {
    type V = ResultView;

    open spec fn view(&self) -> ResultView {
        ResultView {
            contract_key: encode_utf8(self.contract_key@),
            title: encode_utf8(self.title@),
            description: encode_utf8(self.description@),
            highlighted_snippet: encode_utf8(self.highlighted_snippet@),
            combined_score: self.combined_score,
            status: self.status,
            attestation_count: self.attestation_count,
        }
    }
}

/// The values of a list of results.
pub open spec fn results_view(s: Seq<SearchResult>) -> Seq<ResultView> {
    views(s)
}

/// A count as a 32-bit number, held at the largest value.
pub open spec fn clamp_count(n: nat) -> u32 {
    if n > u32::MAX {
        u32::MAX
    } else {
        n as u32
    }
}

/// The number of attestations of all the variants of an entry, held at the
/// largest value.
pub open spec fn attestation_total(variants: Seq<(Seq<u8>, VariantView)>) -> u32
    decreases variants.len(),
{
    if variants.len() == 0 {
        0
    } else {
        add_weight(
            attestation_total(variants.drop_last()),
            clamp_count(variants.last().1.attestations.len()),
        )
    }
}

/// The weights of the attestations of all the variants of an entry together,
/// held at the largest value.
pub open spec fn weight_total(variants: Seq<(Seq<u8>, VariantView)>) -> u32
    decreases variants.len(),
{
    if variants.len() == 0 {
        0
    } else {
        add_weight(weight_total(variants.drop_last()), weight_sum(variants.last().1.attestations))
    }
}

/// What the catalog tells of a document: the title and the description under
/// which it is shown, its status, the number of its attestations and its rank.
pub struct Standing {
    pub title: Seq<u8>,
    pub description: Seq<u8>,
    pub status: Status,
    pub attestation_count: u32,
    pub rank: u32,
}

/// The standing of a document that the catalog does not hold: it is shown
/// under its key, pending and without attestations.
pub open spec fn unlisted(key: Seq<u8>) -> Standing {
    Standing {
        title: key,
        description: Seq::empty(),
        status: Status::Pending,
        attestation_count: 0,
        rank: rank_of(0, 0, 0, Status::Pending) as u32,
    }
}

/// The standing of a document with this entry in the catalog. It is shown as
/// the variant with the largest total weight describes it, the last of
/// several, and under its key where the entry has no variant. Its rank goes by
/// the weights of all its attestations, its version and its status.
pub open spec fn listed(key: Seq<u8>, entry: EntryView) -> Standing {
    let at = last_max_index(variant_weights(entry.hash_variants));
    let version = match entry.version {
        Some(v) => v,
        None => 0,
    };
    Standing {
        title: if at < 0 {
            key
        } else {
            entry.hash_variants[at].1.title
        },
        description: if at < 0 {
            Seq::empty()
        } else {
            entry.hash_variants[at].1.description
        },
        status: entry.status,
        attestation_count: attestation_total(entry.hash_variants),
        rank: rank_of(weight_total(entry.hash_variants), version, 0, entry.status) as u32,
    }
}

/// The standing of a document in a catalog, if there is one.
pub open spec fn standing_of(key: Seq<u8>, catalog: Option<CatalogView>) -> Standing {
    match catalog {
        Some(c) => match assoc_get(c.entries, key) {
            Some(entry) => listed(key, entry),
            None => unlisted(key),
        },
        None => unlisted(key),
    }
}

/// The result for a document that the search has found.
pub open spec fn result_of(
    key: Seq<u8>,
    hit: HitView,
    catalog: Option<CatalogView>,
    terms: Seq<Seq<char>>,
) -> ResultView {
    let standing = standing_of(key, catalog);
    ResultView {
        contract_key: key,
        title: standing.title,
        description: standing.description,
        highlighted_snippet: encode_utf8(highlighted(decode_utf8(hit.snippet), terms)),
        combined_score: combined_of(hit.score, standing.rank) as u32,
        status: standing.status,
        attestation_count: standing.attestation_count,
    }
}

/// The results for the documents that the search has found, in the order of
/// their keys.
pub open spec fn results_of(
    hits: Seq<(Seq<u8>, HitView)>,
    catalog: Option<CatalogView>,
    terms: Seq<Seq<char>>,
) -> Seq<ResultView> {
    hits.map_values(|p: (Seq<u8>, HitView)| result_of(p.0, p.1, catalog, terms))
}

fn count_of(n: usize) -> (count: u32)
    ensures
        count == clamp_count(n as nat),
{
    if n > 0xffff_ffff {
        u32::MAX
    } else {
        n as u32
    }
}

pub(crate) fn totals_of(entry: &CatalogEntry) -> (totals: (u32, u32))
    requires
        entry.wf(),
    ensures
        totals.0 == attestation_total(entry@.hash_variants),
        totals.1 == weight_total(entry@.hash_variants),
{
    let ghost all = entry@.hash_variants;
    let n: usize = entry.hash_variants.len();
    let mut count: u32 = 0;
    let mut weight: u32 = 0;
    let mut i: usize = 0;
    assert(all.subrange(0, 0) =~= Seq::empty());
    while i < n
        invariant
            i <= n,
            entry.wf(),
            n == entry.hash_variants.entries().len(),
            all == entry@.hash_variants,
            count == attestation_total(all.subrange(0, i as int)),
            weight == weight_total(all.subrange(0, i as int)),
        decreases n - i,
    {
        let variant = entry.hash_variants.value_at(i);
        proof {
            let next = all.subrange(0, i + 1);
            assert(next.drop_last() =~= all.subrange(0, i as int));
            assert(next.last().1 == variant@);
        }
        count = saturating_score(count, count_of(variant.attestations.len()));
        weight = saturating_score(weight, total_weight_of(&variant.attestations));
        i += 1;
    }
    assert(all.subrange(0, n as int) =~= all);
    (count, weight)
}

fn result_for(
    key: &String,
    hit: &Hit,
    catalog: Option<&CatalogState>,
    terms: &Vec<String>,
) -> (result: SearchResult)
    requires
        catalog is Some ==> catalog->0.wf(),
    ensures
        result@ == result_of(key.key_bytes(), hit@, option_view(catalog), texts(terms@)),
{
    let ghost standing = standing_of(key.key_bytes(), option_view(catalog));
    let mut title = key.clone();
    let mut description = String::new();
    let mut status = Status::Pending;
    let mut attestation_count: u32 = 0;
    let mut weight: u32 = 0;
    let mut version: u64 = 0;
    proof {
        assert(description@ =~= Seq::<char>::empty());
        assert(encode_utf8(Seq::<char>::empty()) =~= Seq::<u8>::empty());
    }
    if let Some(state) = catalog {
        proof {
            state.entries.lemma_wf();
            lemma_same_keys(state.entries.entries(), state@.entries, key.key_bytes());
        }
        if let Some(at) = state.entries.position(key) {
            let entry = state.entries.value_at(at);
            proof {
                assert(state@.entries[at as int].1 == entry@);
                lemma_get_at(state@.entries, at as int);
                assert(standing == listed(key.key_bytes(), entry@));
            }
            if let Some(best) = heaviest_variant(entry) {
                let variant = entry.hash_variants.value_at(best);
                assert(entry@.hash_variants[best as int].1 == variant@);
                title = variant.title.clone();
                description = variant.description.clone();
            }
            let totals = totals_of(entry);
            attestation_count = totals.0;
            weight = totals.1;
            version =
            match entry.version {
                Some(v) => v,
                None => 0,
            };
            status = entry.status;
        }
    }
    let rank = rank_score(weight, version, 0, &status);
    proof {
        assert(rank == standing.rank);
        vstd::utf8::encode_utf8_decode_utf8(hit.snippet@);
    }
    SearchResult {
        contract_key: key.clone(),
        title,
        description,
        highlighted_snippet: highlight_snippet(hit.snippet.as_str(), terms.as_slice()),
        combined_score: combined_score(hit.score, rank),
        status,
        attestation_count,
    }
}

/// The results with one more put at its place: behind those that score as
/// much or more, before those that score less.
pub open spec fn place_result(s: Seq<ResultView>, r: ResultView) -> Seq<ResultView>
    decreases s.len(),
{
    if s.len() == 0 || s.last().combined_score >= r.combined_score {
        s.push(r)
    } else {
        place_result(s.drop_last(), r).push(s.last())
    }
}

/// The results in the order of their scores, the largest first; those with
/// one score stay in the order in which they came.
pub open spec fn ranked(s: Seq<ResultView>) -> Seq<ResultView>
    decreases s.len(),
{
    if s.len() == 0 {
        Seq::empty()
    } else {
        place_result(ranked(s.drop_last()), s.last())
    }
}

/// Whether no result stands before one that scores more.
pub open spec fn descending(s: Seq<ResultView>) -> bool {
    forall|i: int, j: int|
        0 <= i < j < s.len() ==> (#[trigger] s[i]).combined_score >= (#[trigger] s[j]).combined_score
}

/// Where `place_result` puts a result.
proof fn lemma_place(s: Seq<ResultView>, r: ResultView) -> (p: int)
    ensures
        0 <= p <= s.len(),
        place_result(s, r) == s.insert(p, r),
        forall|i: int| p <= i < s.len() ==> (#[trigger] s[i]).combined_score < r.combined_score,
        p > 0 ==> s[p - 1].combined_score >= r.combined_score,
    decreases s.len(),
{
    if s.len() == 0 || s.last().combined_score >= r.combined_score {
        assert(s.push(r) =~= s.insert(s.len() as int, r));
        s.len() as int
    } else {
        let front = s.drop_last();
        let p = lemma_place(front, r);
        assert(front.insert(p, r).push(s.last()) =~= s.insert(p, r));
        assert forall|i: int| p <= i < s.len() implies (#[trigger] s[i]).combined_score
            < r.combined_score by {
            if i < front.len() {
                assert(s[i] == front[i]);
            }
        }
        if p > 0 {
            assert(s[p - 1] == front[p - 1]);
        }
        p
    }
}

/// Ranked results are in descending order of their scores.
pub proof fn lemma_ranked_descending(s: Seq<ResultView>)
    ensures
        descending(ranked(s)),
    decreases s.len(),
{
    if s.len() > 0 {
        let before = ranked(s.drop_last());
        lemma_ranked_descending(s.drop_last());
        let r = s.last();
        let p = lemma_place(before, r);
        let after = before.insert(p, r);
        assert forall|i: int, j: int| 0 <= i < j < after.len() implies (#[trigger] after[i]).combined_score
            >= (#[trigger] after[j]).combined_score by {
            if j < p {
                assert(after[i] == before[i] && after[j] == before[j]);
            } else if j == p {
                assert(after[i] == before[i]);
                if i < p - 1 {
                    assert(before[i].combined_score >= before[p - 1].combined_score);
                }
            } else if i < p {
                assert(after[i] == before[i] && after[j] == before[j - 1]);
                if i < j - 1 {
                    assert(before[i].combined_score >= before[j - 1].combined_score);
                }
            } else if i == p {
                assert(after[j] == before[j - 1]);
            } else {
                assert(after[i] == before[i - 1] && after[j] == before[j - 1]);
            }
        }
    }
}

/// Ranking drops no result and adds none.
pub proof fn lemma_ranked_permutes(s: Seq<ResultView>)
    ensures
        ranked(s).to_multiset() == s.to_multiset(),
    decreases s.len(),
{
    if s.len() > 0 {
        let front = s.drop_last();
        let before = ranked(front);
        lemma_ranked_permutes(front);
        let p = lemma_place(before, s.last());
        vstd::seq_lib::to_multiset_insert(before, p, s.last());
        assert(front.push(s.last()) =~= s);
        vstd::seq_lib::to_multiset_build(front, s.last());
    } else {
        assert(s =~= Seq::empty());
    }
}

/// Sorts the results by their scores, the largest first.
pub fn rank_results(results: &mut Vec<SearchResult>)
    ensures
        results_view(final(results)@) == ranked(results_view(old(results)@)),
{
    let ghost input = results_view(results@);
    let n: usize = results.len();
    let mut i: usize = 0;
    assert(results_view(results@).subrange(0, 0) =~= ranked(input.subrange(0, 0)));
    while i < n
        invariant
            i <= n,
            n == results@.len(),
            input.len() == n,
            results_view(results@).subrange(0, i as int) == ranked(input.subrange(0, i as int)),
            results_view(results@).subrange(i as int, n as int) == input.subrange(
                i as int,
                n as int,
            ),
        decreases n - i,
    {
        let ghost before = results_view(results@);
        let ghost sorted = before.subrange(0, i as int);
        let moved = results.remove(i);
        let ghost a = moved@;
        proof {
            assert(a == before[i as int]);
            assert(before[i as int] == before.subrange(i as int, n as int)[0]);
            assert(a == input[i as int]);
            assert(results_view(results@) =~= before.remove(i as int));
        }
        let mut j: usize = i;
        proof {
            assert(sorted.subrange(0, i as int) =~= sorted);
            assert(place_result(sorted, a) + sorted.subrange(i as int, i as int) =~= place_result(
                sorted,
                a,
            ));
        }
        while j > 0 && results[j - 1].combined_score < moved.combined_score
            invariant
                j <= i,
                i < n,
                before.len() == n,
                sorted.len() == i,
                results@.len() == n - 1,
                a == moved@,
                results_view(results@) == before.remove(i as int),
                sorted == before.subrange(0, i as int),
                place_result(sorted, a) == place_result(sorted.subrange(0, j as int), a)
                    + sorted.subrange(j as int, i as int),
            decreases j,
        {
            proof {
                let head = sorted.subrange(0, j as int);
                assert(head.last() == results_view(results@)[j - 1]);
                assert(head.drop_last() =~= sorted.subrange(0, j - 1));
                assert(place_result(head, a) == place_result(head.drop_last(), a).push(
                    head.last(),
                ));
                assert(place_result(sorted.subrange(0, j - 1), a).push(head.last())
                    + sorted.subrange(j as int, i as int) =~= place_result(
                    sorted.subrange(0, j - 1),
                    a,
                ) + sorted.subrange(j - 1, i as int));
            }
            j -= 1;
        }
        proof {
            let head = sorted.subrange(0, j as int);
            if j > 0 {
                assert(head.last() == results_view(results@)[j - 1]);
            }
            assert(place_result(head, a) == head.push(a));
        }
        results.insert(j, moved);
        proof {
            let now = results_view(results@);
            assert(now =~= before.remove(i as int).insert(j as int, a));
            assert(now.subrange(0, i + 1) =~= sorted.subrange(0, j as int).push(a)
                + sorted.subrange(j as int, i as int));
            let prefix = input.subrange(0, i + 1);
            assert(prefix.drop_last() =~= input.subrange(0, i as int));
            assert(prefix.last() == a);
            let tail = now.subrange(i + 1, n as int);
            let wanted = input.subrange(i + 1, n as int);
            assert forall|k: int| 0 <= k < tail.len() implies #[trigger] tail[k] == wanted[k] by {
                assert(now[i + 1 + k] == before[i + 1 + k]);
                assert(before[i + 1 + k] == before.subrange(i as int, n as int)[k + 1]);
            }
            assert(tail =~= wanted);
        }
        i += 1;
    }
    proof {
        assert(results_view(results@).subrange(0, n as int) =~= results_view(results@));
        assert(input.subrange(0, n as int) =~= input);
    }
}

/// The first `n` of the results, or all of them where they are fewer.
pub open spec fn first_results(s: Seq<ResultView>, n: int) -> Seq<ResultView> {
    if s.len() <= n {
        s
    } else {
        s.subrange(0, n)
    }
}

/// A result for each document that the shards hold under a term of the
/// query, in the order of the contract keys.
pub open spec fn found_results(
    query: QueryView,
    shards: Seq<ShardView>,
    catalog: Option<CatalogView>,
) -> Seq<ResultView> {
    results_of(count_terms(query.terms, query.term_to_shard, shards), catalog, query.terms)
}

/// What a search returns: the results that were found, in the order of the
/// scores, cut to the first `MAX_RESULTS`.
pub open spec fn search_results(
    query: QueryView,
    shards: Seq<ShardView>,
    catalog: Option<CatalogView>,
) -> Seq<ResultView> {
    first_results(ranked(found_results(query, shards, catalog)), MAX_RESULTS as int)
}

/// Searches the shards for the terms of a query and describes what was
/// found with the catalog, where there is one.
pub fn execute_search(
    query: &SearchQuery,
    shards: &Vec<ShardState>,
    catalog: Option<&CatalogState>,
) -> (results: Vec<SearchResult>)
    requires
        query.wf(),
        forall|i: int| 0 <= i < shards@.len() ==> (#[trigger] shards@[i]).wf(),
        catalog is Some ==> catalog->0.wf(),
    ensures
        results_view(results@) == search_results(
            query@,
            shards_view(shards@),
            option_view(catalog),
        ),
        results@.len() <= MAX_RESULTS,
{
    let hits = count_all(query, shards);
    let ghost found = hits_view(hits.entries());
    let ghost wanted = results_of(found, option_view(catalog), query@.terms);
    let mut results: Vec<SearchResult> = Vec::new();
    let n: usize = hits.len();
    let mut i: usize = 0;
    while i < n
        invariant
            i <= n,
            hits.wf(),
            n == hits.entries().len(),
            found == hits_view(hits.entries()),
            wanted == results_of(found, option_view(catalog), query@.terms),
            catalog is Some ==> catalog->0.wf(),
            results@.len() == i,
            forall|j: int| 0 <= j < i ==> (#[trigger] results@[j])@ == wanted[j],
        decreases n - i,
    {
        let key = hits.key_at(i);
        let hit = hits.value_at(i);
        results.push(result_for(key, hit, catalog, &query.terms));
        i += 1;
    }
    assert(results_view(results@) =~= wanted);
    rank_results(&mut results);
    results.truncate(MAX_RESULTS);
    proof {
        let all = ranked(wanted);
        assert(results_view(results@) =~= first_results(all, MAX_RESULTS as int));
    }
    results
}

/// The results of a search are in descending order of their scores.
pub proof fn lemma_search_descending(
    query: QueryView,
    shards: Seq<ShardView>,
    catalog: Option<CatalogView>,
)
    ensures
        descending(search_results(query, shards, catalog)),
{
    let all = ranked(found_results(query, shards, catalog));
    let shown = first_results(all, MAX_RESULTS as int);
    lemma_ranked_descending(found_results(query, shards, catalog));
    assert forall|i: int, j: int| 0 <= i < j < shown.len() implies (#[trigger] shown[i]).combined_score
        >= (#[trigger] shown[j]).combined_score by {
        assert(shown[i] == all[i] && shown[j] == all[j]);
    }
}

/// The table of a query is in order and gives every term of the query its
/// shard.
pub proof fn lemma_shard_table(terms: Seq<Seq<char>>, i: int)
    requires
        0 <= i < terms.len(),
    ensures
        keys_increasing(shard_table(terms)),
        assoc_get(shard_table(terms), encode_utf8(terms[i])) == Some(
            shard_of(encode_utf8(terms[i]), SHARD_COUNT),
        ),
    decreases terms.len(),
{
    let front = terms.drop_last();
    let word = encode_utf8(terms.last());
    lemma_shard_table_ordered(front);
    lemma_put(shard_table(front), word, shard_of(word, SHARD_COUNT));
    if i < front.len() {
        lemma_shard_table(front, i);
        assert(front[i] == terms[i]);
    }
}

proof fn lemma_shard_table_ordered(terms: Seq<Seq<char>>)
    ensures
        keys_increasing(shard_table(terms)),
    decreases terms.len(),
{
    if terms.len() > 0 {
        let word = encode_utf8(terms.last());
        lemma_shard_table_ordered(terms.drop_last());
        lemma_put(shard_table(terms.drop_last()), word, shard_of(word, SHARD_COUNT));
    }
}

} // verus!
