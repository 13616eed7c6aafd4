//! A full-text shard: the part of the inverted index whose terms hash to one
//! shard id.
//!
//! Under each term stand the documents that hold it, one entry per contract,
//! with a score that grows by maximum; the snippet follows the score that
//! wins.

use vstd::prelude::*;
use vstd::utf8::encode_utf8;

use crate::bytes::bytes_equal;
use crate::folding::fold_steps;
use crate::hashing::{shard_for_word, shard_of};
use crate::ordered_map::{
    assoc_get, assoc_put, has_key, lemma_same_keys, merge_assoc, ByteKey, OrderedMap,
};
use crate::sorting::{key_fn, sort_by, sort_by_key};
use crate::types::{
    index_view, terms_view, ContractError, ShardDelta, ShardDeltaEntryView, ShardDeltaView,
    ShardState, ShardView, TermEntry, TermView, TokenView,
};

verus! {

/// The number of shards of the index.
pub const SHARD_COUNT: u8 = 16;

/// A token with a nonce and a difficulty of at least 1.
pub open spec fn token_acceptable(t: TokenView) -> bool {
    t.nonce.len() > 0 && t.difficulty >= 1
}

/// An entry of a delta names a term, and the term belongs to the shard.
pub open spec fn shard_entry_acceptable(shard_id: u8, e: ShardDeltaEntryView) -> bool {
    e.word.len() > 0 && shard_of(e.word, SHARD_COUNT) == shard_id
}

/// Whether the shard `shard_id` takes a delta: the token is acceptable and
/// every entry names a term of this shard.
pub open spec fn shard_delta_acceptable(shard_id: u8, d: ShardDeltaView) -> bool {
    &&& token_acceptable(d.antiflood_token)
    &&& forall|i: int|
        0 <= i < d.entries.len() ==> shard_entry_acceptable(shard_id, #[trigger] d.entries[i])
}

/// Checks a delta against the shard that is to take it.
pub fn validate_shard_delta(state: &ShardState, delta: &ShardDelta) -> (result: Result<
    (),
    ContractError,
>)
    ensures
        result is Ok <==> shard_delta_acceptable(state@.shard_id, delta@),
        result is Err ==> result->Err_0 == ContractError::InvalidUpdate,
{
    if delta.antiflood_token.nonce.len() == 0 || delta.antiflood_token.difficulty == 0 {
        return Err(ContractError::InvalidUpdate);
    }
    let ghost entries = delta@.entries;
    let n: usize = delta.entries.len();
    let mut i: usize = 0;
    while i < n
        invariant
            i <= n,
            n == delta.entries@.len(),
            entries == delta@.entries,
            forall|k: int|
                0 <= k < i ==> shard_entry_acceptable(state@.shard_id, #[trigger] entries[k]),
        decreases n - i,
    {
        let word = delta.entries[i].word.as_str();
        if word.as_bytes().len() == 0 {
            assert(!shard_entry_acceptable(state@.shard_id, entries[i as int]));
            return Err(ContractError::InvalidUpdate);
        }
        if shard_for_word(word, SHARD_COUNT) != state.shard_id {
            assert(!shard_entry_acceptable(state@.shard_id, entries[i as int]));
            return Err(ContractError::InvalidUpdate);
        }
        i += 1;
    }
    Ok(())
}

/// The place of the first entry for the contract `key`; -1 where there is none.
pub open spec fn first_contract(terms: Seq<TermView>, key: Seq<u8>) -> int
    decreases terms.len(),
{
    if terms.len() == 0 {
        -1
    } else {
        let before = first_contract(terms.drop_last(), key);
        if before >= 0 {
            before
        } else if terms.last().contract_key == key {
            terms.len() - 1
        } else {
            -1
        }
    }
}

/// The place that `first_contract` gives holds the contract, and no earlier
/// place does.
pub proof fn lemma_first_contract(terms: Seq<TermView>, key: Seq<u8>)
    ensures
        -1 <= first_contract(terms, key) < terms.len(),
        first_contract(terms, key) >= 0 ==> terms[first_contract(terms, key)].contract_key == key,
        forall|i: int|
            0 <= i < terms.len() && (first_contract(terms, key) < 0 || i < first_contract(
                terms,
                key,
            )) ==> (#[trigger] terms[i]).contract_key != key,
    decreases terms.len(),
{
    if terms.len() > 0 {
        let front = terms.drop_last();
        lemma_first_contract(front, key);
        assert forall|i: int|
            0 <= i < terms.len() && (first_contract(terms, key) < 0 || i < first_contract(
                terms,
                key,
            )) implies (#[trigger] terms[i]).contract_key != key by {
            if i < front.len() {
                assert(front[i] == terms[i]);
            }
        }
    }
}

/// The entries under a term after `offered` is taken in: where the contract
/// has an entry already, the larger score stays and the snippet of a strictly
/// larger score replaces the old; else the offer is added at the end.
pub open spec fn offer_term(terms: Seq<TermView>, offered: TermView) -> Seq<TermView> {
    let at = first_contract(terms, offered.contract_key);
    if at < 0 {
        terms.push(offered)
    } else if offered.tf_idf_score > terms[at].tf_idf_score {
        terms.update(
            at,
            TermView {
                contract_key: terms[at].contract_key,
                snippet: offered.snippet,
                tf_idf_score: offered.tf_idf_score,
            },
        )
    } else {
        terms
    }
}

/// The contract of a document under a term, as the key by which the
/// documents are ordered and found.
pub open spec fn by_contract() -> spec_fn(TermView) -> Seq<u8> {
    key_fn::<TermEntry>()
}

/// The entries in the order of their contracts; those of one contract stay in
/// the order in which they came.
pub open spec fn sort_by_contract(s: Seq<TermView>) -> Seq<TermView> {
    sort_by(s, by_contract())
}

/// The term entry that an entry of a delta offers.
pub open spec fn offered_term(e: ShardDeltaEntryView) -> TermView {
    TermView { contract_key: e.contract_key, snippet: e.snippet, tf_idf_score: e.tf_idf_score }
}

/// The index after one entry of a delta: the offer is taken in under its
/// term, and the entries under that term are put in order.
pub open spec fn apply_shard_entry(index: Seq<(Seq<u8>, Seq<TermView>)>, e: ShardDeltaEntryView) -> Seq<
    (Seq<u8>, Seq<TermView>),
> {
    let terms = match assoc_get(index, e.word) {
        Some(t) => t,
        None => Seq::empty(),
    };
    assoc_put(index, e.word, sort_by_contract(offer_term(terms, offered_term(e))))
}

/// Taking one entry of a delta into an index, as a step.
pub open spec fn entry_step() -> spec_fn(
    Seq<(Seq<u8>, Seq<TermView>)>,
    ShardDeltaEntryView,
) -> Seq<(Seq<u8>, Seq<TermView>)> {
    |index: Seq<(Seq<u8>, Seq<TermView>)>, e: ShardDeltaEntryView| apply_shard_entry(index, e)
}

/// The index after the entries of a delta, in their order.
pub open spec fn apply_shard_entries(
    index: Seq<(Seq<u8>, Seq<TermView>)>,
    entries: Seq<ShardDeltaEntryView>,
) -> Seq<(Seq<u8>, Seq<TermView>)> {
    fold_steps(index, entries, entry_step())
}

/// The shard after a delta.
pub open spec fn apply_shard_delta_spec(s: ShardView, d: ShardDeltaView) -> ShardView {
    ShardView { shard_id: s.shard_id, index: apply_shard_entries(s.index, d.entries) }
}

/// The entries under a term after each of the peer's entries is taken in.
pub open spec fn offer_terms(terms: Seq<TermView>, theirs: Seq<TermView>) -> Seq<TermView>
    decreases theirs.len(),
{
    if theirs.len() == 0 {
        terms
    } else {
        offer_term(offer_terms(terms, theirs.drop_last()), theirs.last())
    }
}

/// What the merge makes of the entries that the peer holds under a term:
/// each is taken in under what this side holds, and the entries are put in
/// order.
pub open spec fn term_join() -> spec_fn(Seq<u8>, Option<Seq<TermView>>, Seq<TermView>) -> Seq<
    TermView,
> {
    |word: Seq<u8>, mine: Option<Seq<TermView>>, theirs: Seq<TermView>|
        sort_by_contract(
            offer_terms(
                match mine {
                    Some(t) => t,
                    None => Seq::empty(),
                },
                theirs,
            ),
        )
}

/// The index after each term of the peer's index `b` is merged in.
pub open spec fn merge_index(a: Seq<(Seq<u8>, Seq<TermView>)>, b: Seq<(Seq<u8>, Seq<TermView>)>) -> Seq<
    (Seq<u8>, Seq<TermView>),
> {
    merge_assoc(a, b, term_join())
}

/// The shard after the peer's shard `b` is merged into `a`.
pub open spec fn merge_shard_spec(a: ShardView, b: ShardView) -> ShardView {
    ShardView { shard_id: a.shard_id, index: merge_index(a.index, b.index) }
}

fn find_contract(terms: &Vec<TermEntry>, key: &String) -> (at: Option<usize>)
    ensures
        at is None <==> first_contract(terms_view(terms@), key.key_bytes()) < 0,
        at is Some ==> at->0 == first_contract(terms_view(terms@), key.key_bytes()) && at->0
            < terms@.len(),
{
    let ghost view = terms_view(terms@);
    let ghost kb = key.key_bytes();
    let n: usize = terms.len();
    let mut i: usize = 0;
    assert(view.subrange(0, 0) =~= Seq::empty());
    while i < n
        invariant
            i <= n,
            n == terms@.len(),
            view == terms_view(terms@),
            kb == key.key_bytes(),
            first_contract(view.subrange(0, i as int), kb) < 0,
        decreases n - i,
    {
        proof {
            let next = view.subrange(0, i + 1);
            assert(next.drop_last() =~= view.subrange(0, i as int));
            assert(next.last() == terms@[i as int]@);
        }
        if bytes_equal(terms[i].contract_key.as_str().as_bytes(), key.as_str().as_bytes()) {
            proof {
                lemma_first_at(view, i as int, n as int, kb);
                assert(view.subrange(0, n as int) =~= view);
            }
            return Some(i);
        }
        i += 1;
    }
    assert(view.subrange(0, n as int) =~= view);
    None
}

/// Once a prefix holds the contract at place `at` first, every longer prefix does.
proof fn lemma_first_at(terms: Seq<TermView>, at: int, upto: int, key: Seq<u8>)
    requires
        0 <= at < upto <= terms.len(),
        first_contract(terms.subrange(0, at + 1), key) == at,
    ensures
        first_contract(terms.subrange(0, upto), key) == at,
    decreases upto - at,
{
    if upto > at + 1 {
        lemma_first_at(terms, at, upto - 1, key);
        assert(terms.subrange(0, upto).drop_last() =~= terms.subrange(0, upto - 1));
    }
}

/// Puts the entries in the order of their contracts, keeping the order of
/// those that share one.
pub fn sort_terms(terms: &mut Vec<TermEntry>)
    ensures
        terms_view(final(terms)@) == sort_by_contract(terms_view(old(terms)@)),
{
    sort_by_key(terms);
}

fn offer(terms: &mut Vec<TermEntry>, contract_key: &String, snippet: &String, score: u32)
    ensures
        terms_view(final(terms)@) == offer_term(
            terms_view(old(terms)@),
            TermView {
                contract_key: contract_key.key_bytes(),
                snippet: encode_utf8(snippet@),
                tf_idf_score: score,
            },
        ),
{
    let ghost before = terms_view(terms@);
    match find_contract(terms, contract_key) {
        Some(at) => {
            if score > terms[at].tf_idf_score {
                terms[at].tf_idf_score = score;
                terms[at].snippet = snippet.clone();
                assert(terms_view(terms@) =~= before.update(
                    at as int,
                    TermView {
                        contract_key: before[at as int].contract_key,
                        snippet: encode_utf8(snippet@),
                        tf_idf_score: score,
                    },
                ));
            }
        },
        None => {
            terms.push(
                TermEntry {
                    contract_key: contract_key.clone(),
                    snippet: snippet.clone(),
                    tf_idf_score: score,
                },
            );
            assert(terms_view(terms@) =~= before.push(
                TermView {
                    contract_key: contract_key.key_bytes(),
                    snippet: encode_utf8(snippet@),
                    tf_idf_score: score,
                },
            ));
        },
    }
}

fn terms_slot(index: &mut OrderedMap<String, Vec<TermEntry>>, word: &String) -> (at: usize)
    requires
        old(index).wf(),
    ensures
        final(index).wf(),
        at < final(index).entries().len(),
        final(index).entries()[at as int].0 == word.key_bytes(),
        terms_view(final(index).entries()[at as int].1@) == (match assoc_get(
            index_view(old(index).entries()),
            word.key_bytes(),
        ) {
            Some(t) => t,
            None => Seq::empty(),
        }),
        forall|terms: Seq<TermView>|
            assoc_put(index_view(old(index).entries()), word.key_bytes(), terms) == index_view(
                final(index).entries(),
            ).update(at as int, (word.key_bytes(), terms)),
{
    let ghost s0 = index.entries();
    let ghost v0 = index_view(s0);
    let ghost kb = word.key_bytes();
    proof {
        index.lemma_wf();
        lemma_same_keys(s0, v0, kb);
    }
    let at: usize = match index.position(word) {
        Some(at) => at,
        None => index.insert(word.clone(), Vec::new()),
    };
    proof {
        let s1 = index.entries();
        let v1 = index_view(s1);
        if !has_key(s0, kb) {
            assert(terms_view(s1[at as int].1@) =~= Seq::<TermView>::empty());
        }
        assert forall|terms: Seq<TermView>| assoc_put(v0, kb, terms) == v1.update(
            at as int,
            (kb, terms),
        ) by {
            assert(assoc_put(v0, kb, terms) =~= v1.update(at as int, (kb, terms)));
        }
    }
    at
}

/// Applies a delta to the shard, entry after entry.
pub fn apply_shard_delta(state: &mut ShardState, delta: &ShardDelta)
    requires
        old(state).wf(),
    ensures
        final(state).wf(),
        final(state)@ == apply_shard_delta_spec(old(state)@, delta@),
{
    let ghost i0 = state@.index;
    let ghost all = delta@.entries;
    let n: usize = delta.entries.len();
    let mut i: usize = 0;
    assert(all.subrange(0, 0) =~= Seq::empty());
    while i < n
        invariant
            i <= n,
            state.wf(),
            n == delta.entries@.len(),
            all == delta@.entries,
            state.shard_id == old(state).shard_id,
            state@.index == apply_shard_entries(i0, all.subrange(0, i as int)),
        decreases n - i,
    {
        let entry = &delta.entries[i];
        let ghost before = state@.index;
        proof {
            let next = all.subrange(0, i + 1);
            assert(next.drop_last() =~= all.subrange(0, i as int));
            assert(next.last() == entry@);
        }
        let at = terms_slot(&mut state.index, &entry.word);
        let terms = state.index.value_at_mut(at);
        offer(terms, &entry.contract_key, &entry.snippet, entry.tf_idf_score);
        sort_terms(terms);
        proof {
            let prior = match assoc_get(before, entry@.word) {
                Some(t) => t,
                None => Seq::empty(),
            };
            let changed = sort_by_contract(offer_term(prior, offered_term(entry@)));
            assert(state@.index =~= assoc_put(before, entry@.word, changed));
        }
        i += 1;
    }
    assert(all.subrange(0, n as int) =~= all);
}

fn offer_all(terms: &mut Vec<TermEntry>, theirs: &Vec<TermEntry>)
    ensures
        terms_view(final(terms)@) == offer_terms(terms_view(old(terms)@), terms_view(theirs@)),
{
    let ghost t0 = terms_view(terms@);
    let ghost b = terms_view(theirs@);
    let n: usize = theirs.len();
    let mut k: usize = 0;
    assert(b.subrange(0, 0) =~= Seq::empty());
    while k < n
        invariant
            k <= n,
            n == theirs@.len(),
            b == terms_view(theirs@),
            terms_view(terms@) == offer_terms(t0, b.subrange(0, k as int)),
        decreases n - k,
    {
        proof {
            let next = b.subrange(0, k + 1);
            assert(next.drop_last() =~= b.subrange(0, k as int));
            assert(next.last() == theirs@[k as int]@);
        }
        offer(terms, &theirs[k].contract_key, &theirs[k].snippet, theirs[k].tf_idf_score);
        k += 1;
    }
    assert(b.subrange(0, n as int) =~= b);
}

/// Merges the shard `b` of a peer into `a`.
pub fn merge_shard_states(a: &mut ShardState, b: &ShardState)
    requires
        old(a).wf(),
        b.wf(),
    ensures
        final(a).wf(),
        final(a)@ == merge_shard_spec(old(a)@, b@),
{
    let ghost i0 = a@.index;
    let ghost theirs = b@.index;
    let n: usize = b.index.len();
    let mut i: usize = 0;
    assert(theirs.subrange(0, 0) =~= Seq::empty());
    while i < n
        invariant
            i <= n,
            a.wf(),
            b.wf(),
            n == b.index.entries().len(),
            theirs == b@.index,
            a.shard_id == old(a).shard_id,
            a@.index == merge_index(i0, theirs.subrange(0, i as int)),
        decreases n - i,
    {
        let word = b.index.key_at(i);
        let their_terms = b.index.value_at(i);
        let ghost before = a@.index;
        proof {
            let next = theirs.subrange(0, i + 1);
            assert(next.drop_last() =~= theirs.subrange(0, i as int));
            assert(next.last() == (word.key_bytes(), terms_view(their_terms@)));
        }
        let at = terms_slot(&mut a.index, word);
        let terms = a.index.value_at_mut(at);
        offer_all(terms, their_terms);
        sort_terms(terms);
        proof {
            let prior = match assoc_get(before, word.key_bytes()) {
                Some(t) => t,
                None => Seq::empty(),
            };
            let changed = sort_by_contract(offer_terms(prior, terms_view(their_terms@)));
            assert(a@.index =~= assoc_put(before, word.key_bytes(), changed));
        }
        i += 1;
    }
    assert(theirs.subrange(0, n as int) =~= theirs);
}

} // verus!
