//! The operations of a shard contract on decoded values: validation, update,
//! summary and the delta against a peer's summary.

use vstd::prelude::*;
use vstd::utf8::encode_utf8;

use crate::bloom::{
    bloom_contains, bloom_insert, lemma_contains_monotone, lemma_no_false_negative, BloomFilter,
};
use crate::bytes::{bytes_equal, lex_less, push_bytes};
use crate::catalog_sync::SUMMARY_BITS;
use crate::folding::fold_steps;
use crate::hashing::{shard_for_word, shard_of};
use crate::ordered_map::{keys_increasing, ByteKey};
use crate::shard::{
    apply_shard_delta, apply_shard_delta_spec, by_contract, merge_shard_spec, merge_shard_states,
    shard_delta_acceptable, validate_shard_delta, SHARD_COUNT,
};
use crate::shard_laws::lemma_shard_update_stays_valid;
use crate::sorting::distinct_by;
use crate::types::{
    shard_entries_view, terms_view, AntifloodToken, ContractError, ShardDelta, ShardDeltaEntry,
    ShardDeltaEntryView, ShardDeltaView, ShardState, ShardView, TermEntry, TermView, TokenView,
};

verus! {

/// No two entries are for the same contract.
pub open spec fn distinct_contracts(terms: Seq<TermView>) -> bool {
    distinct_by(terms, by_contract())
}

/// A term belongs to the shard and holds each contract once.
pub open spec fn term_valid(shard_id: u8, word: Seq<u8>, terms: Seq<TermView>) -> bool {
    shard_of(word, SHARD_COUNT) == shard_id && distinct_contracts(terms)
}

/// Every term of the shard is valid.
pub open spec fn shard_valid(s: ShardView) -> bool {
    forall|i: int|
        0 <= i < s.index.len() ==> term_valid(s.shard_id, (#[trigger] s.index[i]).0, s.index[i].1)
}

/// Whether each contract occurs once among the entries.
pub fn has_distinct_contracts(terms: &Vec<TermEntry>) -> (distinct: bool)
    ensures
        distinct == distinct_contracts(terms_view(terms@)),
{
    let ghost view = terms_view(terms@);
    let n: usize = terms.len();
    let mut j: usize = 0;
    while j < n
        invariant
            j <= n,
            n == terms@.len(),
            view == terms_view(terms@),
            forall|a: int, b: int|
                0 <= a < b < j ==> (#[trigger] view[a]).contract_key != (
                #[trigger] view[b]).contract_key,
        decreases n - j,
    {
        let mut i: usize = 0;
        while i < j
            invariant
                i <= j,
                j < n,
                n == terms@.len(),
                view == terms_view(terms@),
                forall|a: int|
                    0 <= a < i ==> (#[trigger] view[a]).contract_key != view[j as int].contract_key,
            decreases j - i,
        {
            if bytes_equal(
                terms[i].contract_key.as_str().as_bytes(),
                terms[j].contract_key.as_str().as_bytes(),
            ) {
                assert(view[i as int].contract_key == view[j as int].contract_key);
                return false;
            }
            i += 1;
        }
        j += 1;
    }
    true
}

/// Validates a shard: every term hashes to the shard's id and holds each
/// contract once.
pub fn validate_state(state: &ShardState) -> (result: Result<(), ContractError>)
    requires
        state.wf(),
    ensures
        result is Ok <==> shard_valid(state@),
        result is Err ==> result->Err_0 == ContractError::InvalidState,
{
    let ghost index = state@.index;
    let n: usize = state.index.len();
    let mut i: usize = 0;
    while i < n
        invariant
            i <= n,
            state.wf(),
            n == state.index.entries().len(),
            index == state@.index,
            forall|k: int|
                0 <= k < i ==> term_valid(state@.shard_id, (#[trigger] index[k]).0, index[k].1),
        decreases n - i,
    {
        let word = state.index.key_at(i);
        let terms = state.index.value_at(i);
        if shard_for_word(word.as_str(), SHARD_COUNT) != state.shard_id {
            assert(!term_valid(state@.shard_id, index[i as int].0, index[i as int].1));
            return Err(ContractError::InvalidState);
        }
        if !has_distinct_contracts(terms) {
            assert(!term_valid(state@.shard_id, index[i as int].0, index[i as int].1));
            return Err(ContractError::InvalidState);
        }
        i += 1;
    }
    Ok(())
}

/// One update as it reaches a shard, decoded.
#[derive(Clone, Debug, PartialEq, Eq)]
pub enum ShardUpdate {
    /// A single delta.
    Delta(ShardDelta),
    /// Several deltas in one payload.
    DeltaBatch(Vec<ShardDelta>),
    /// The whole state of a peer, to be merged.
    State(ShardState),
    /// A payload that is neither a delta, a batch nor a state.
    Malformed,
    /// An update of a kind that the shard does not take part in.
    Unrelated,
}

/// The value of a [`ShardUpdate`].
pub enum ShardUpdateView {
    Delta(ShardDeltaView),
    DeltaBatch(Seq<ShardDeltaView>),
    State(ShardView),
    Malformed,
    Unrelated,
}

/// The values of a list of shard deltas.
pub open spec fn shard_deltas_view(s: Seq<ShardDelta>) -> Seq<ShardDeltaView> {
    s.map_values(|d: ShardDelta| d@)
}

impl View for ShardUpdate {
    type V = ShardUpdateView;

    open spec fn view(&self) -> ShardUpdateView {
        match self {
            ShardUpdate::Delta(d) => ShardUpdateView::Delta(d@),
            ShardUpdate::DeltaBatch(ds) => ShardUpdateView::DeltaBatch(shard_deltas_view(ds@)),
            ShardUpdate::State(s) => ShardUpdateView::State(s@),
            ShardUpdate::Malformed => ShardUpdateView::Malformed,
            ShardUpdate::Unrelated => ShardUpdateView::Unrelated,
        }
    }
}

impl ShardUpdate {
    /// A state that comes with the update has its index in order.
    pub open spec fn wf(&self) -> bool {
        match self {
            ShardUpdate::State(s) => s.wf(),
            _ => true,
        }
    }
}

/// The values of a list of updates.
pub open spec fn shard_updates_view(s: Seq<ShardUpdate>) -> Seq<ShardUpdateView> {
    s.map_values(|u: ShardUpdate| u@)
}

/// Every delta of the list is taken by the shard.
pub open spec fn shard_deltas_acceptable(shard_id: u8, deltas: Seq<ShardDeltaView>) -> bool {
    forall|i: int| 0 <= i < deltas.len() ==> shard_delta_acceptable(shard_id, #[trigger] deltas[i])
}

/// Whether the state of a peer may be merged into the shard `shard_id`: it
/// is a valid shard of the same id.
pub open spec fn shard_mergeable(shard_id: u8, b: ShardView) -> bool {
    b.shard_id == shard_id && shard_valid(b)
}

/// Whether the shard takes an update.
pub open spec fn shard_update_acceptable(shard_id: u8, u: ShardUpdateView) -> bool {
    match u {
        ShardUpdateView::Delta(d) => shard_delta_acceptable(shard_id, d),
        ShardUpdateView::DeltaBatch(ds) => shard_deltas_acceptable(shard_id, ds),
        ShardUpdateView::State(b) => shard_mergeable(shard_id, b),
        ShardUpdateView::Malformed => false,
        ShardUpdateView::Unrelated => true,
    }
}

/// The shard takes every update of the list.
pub open spec fn shard_updates_acceptable(shard_id: u8, updates: Seq<ShardUpdateView>) -> bool {
    forall|i: int|
        0 <= i < updates.len() ==> shard_update_acceptable(shard_id, #[trigger] updates[i])
}

/// Applying one delta to a shard, as a step.
pub open spec fn shard_delta_step() -> spec_fn(ShardView, ShardDeltaView) -> ShardView {
    |s: ShardView, d: ShardDeltaView| apply_shard_delta_spec(s, d)
}

/// The shard after the deltas are applied in their order.
pub open spec fn apply_shard_deltas(s: ShardView, deltas: Seq<ShardDeltaView>) -> ShardView {
    fold_steps(s, deltas, shard_delta_step())
}

/// The shard after one update.
pub open spec fn apply_shard_update(s: ShardView, u: ShardUpdateView) -> ShardView {
    match u {
        ShardUpdateView::Delta(d) => apply_shard_delta_spec(s, d),
        ShardUpdateView::DeltaBatch(ds) => apply_shard_deltas(s, ds),
        ShardUpdateView::State(b) => merge_shard_spec(s, b),
        ShardUpdateView::Malformed => s,
        ShardUpdateView::Unrelated => s,
    }
}

/// Applying one update to a shard, as a step.
pub open spec fn shard_update_step() -> spec_fn(ShardView, ShardUpdateView) -> ShardView {
    |s: ShardView, u: ShardUpdateView| apply_shard_update(s, u)
}

/// The shard after the updates are applied in their order.
pub open spec fn apply_shard_updates(s: ShardView, updates: Seq<ShardUpdateView>) -> ShardView {
    fold_steps(s, updates, shard_update_step())
}

/// No update changes the id of a shard.
pub proof fn lemma_updates_keep_shard_id(s: ShardView, updates: Seq<ShardUpdateView>)
    ensures
        apply_shard_updates(s, updates).shard_id == s.shard_id,
    decreases updates.len(),
{
    if updates.len() > 0 {
        lemma_updates_keep_shard_id(s, updates.drop_last());
        let before = apply_shard_updates(s, updates.drop_last());
        match updates.last() {
            ShardUpdateView::DeltaBatch(ds) => {
                lemma_deltas_keep_shard_id(before, ds);
            },
            _ => {},
        }
    }
}

/// No delta changes the id of a shard.
pub proof fn lemma_deltas_keep_shard_id(s: ShardView, deltas: Seq<ShardDeltaView>)
    ensures
        apply_shard_deltas(s, deltas).shard_id == s.shard_id,
    decreases deltas.len(),
{
    if deltas.len() > 0 {
        lemma_deltas_keep_shard_id(s, deltas.drop_last());
    }
}

fn apply_shard_batch(state: &mut ShardState, deltas: &Vec<ShardDelta>) -> (taken: bool)
    requires
        old(state).wf(),
    ensures
        final(state).wf(),
        final(state)@.shard_id == old(state)@.shard_id,
        taken == shard_deltas_acceptable(old(state)@.shard_id, shard_deltas_view(deltas@)),
        taken ==> final(state)@ == apply_shard_deltas(old(state)@, shard_deltas_view(deltas@)),
{
    let ghost s0 = state@;
    let ghost all = shard_deltas_view(deltas@);
    let n: usize = deltas.len();
    let mut i: usize = 0;
    assert(all.subrange(0, 0) =~= Seq::empty());
    while i < n
        invariant
            i <= n,
            state.wf(),
            n == deltas@.len(),
            all == shard_deltas_view(deltas@),
            s0 == old(state)@,
            state@.shard_id == s0.shard_id,
            forall|k: int| 0 <= k < i ==> shard_delta_acceptable(s0.shard_id, #[trigger] all[k]),
            state@ == apply_shard_deltas(s0, all.subrange(0, i as int)),
        decreases n - i,
    {
        if validate_shard_delta(state, &deltas[i]).is_err() {
            assert(!shard_delta_acceptable(s0.shard_id, all[i as int]));
            return false;
        }
        proof {
            let next = all.subrange(0, i + 1);
            assert(next.drop_last() =~= all.subrange(0, i as int));
            assert(next.last() == deltas@[i as int]@);
        }
        apply_shard_delta(state, &deltas[i]);
        i += 1;
    }
    assert(all.subrange(0, n as int) =~= all);
    true
}

/// Updates the shard: applies the updates in their order. One delta that
/// fails validation, one state of a peer that may not be merged, or one
/// payload that was not understood, refuses the whole call.
pub fn update_state(state: ShardState, updates: &Vec<ShardUpdate>) -> (result: Result<
    ShardState,
    ContractError,
>)
    requires
        state.wf(),
        forall|i: int| 0 <= i < updates@.len() ==> (#[trigger] updates@[i]).wf(),
    ensures
        result is Ok <==> shard_updates_acceptable(state@.shard_id, shard_updates_view(updates@)),
        result is Ok ==> result->Ok_0.wf() && result->Ok_0@ == apply_shard_updates(
            state@,
            shard_updates_view(updates@),
        ),
        result is Ok && shard_valid(state@) ==> shard_valid(result->Ok_0@),
        result is Err ==> result->Err_0 == ContractError::InvalidUpdate,
{
    let ghost s0 = state@;
    proof {
        state.index.lemma_wf();
        assert(keys_increasing(s0.index)) by {
            assert forall|a: int, b: int| 0 <= a < b < s0.index.len() implies lex_less(
                (#[trigger] s0.index[a]).0,
                (#[trigger] s0.index[b]).0,
            ) by {
                assert(s0.index[a].0 == state.index.entries()[a].0);
                assert(s0.index[b].0 == state.index.entries()[b].0);
            }
        }
    }
    let mut current = state;
    let ghost all = shard_updates_view(updates@);
    let n: usize = updates.len();
    let mut i: usize = 0;
    assert(all.subrange(0, 0) =~= Seq::empty());
    while i < n
        invariant
            i <= n,
            current.wf(),
            s0 == state@,
            n == updates@.len(),
            all == shard_updates_view(updates@),
            current@.shard_id == s0.shard_id,
            forall|k: int| 0 <= k < updates@.len() ==> (#[trigger] updates@[k]).wf(),
            forall|k: int| 0 <= k < i ==> shard_update_acceptable(s0.shard_id, #[trigger] all[k]),
            current@ == apply_shard_updates(s0, all.subrange(0, i as int)),
        decreases n - i,
    {
        proof {
            let next = all.subrange(0, i + 1);
            assert(next.drop_last() =~= all.subrange(0, i as int));
            assert(next.last() == updates@[i as int]@);
            assert(updates@[i as int].wf());
        }
        match &updates[i] {
            ShardUpdate::Delta(delta) => {
                if validate_shard_delta(&current, delta).is_err() {
                    assert(!shard_update_acceptable(s0.shard_id, all[i as int]));
                    return Err(ContractError::InvalidUpdate);
                }
                apply_shard_delta(&mut current, delta);
            },
            ShardUpdate::DeltaBatch(deltas) => {
                if !apply_shard_batch(&mut current, deltas) {
                    assert(!shard_update_acceptable(s0.shard_id, all[i as int]));
                    return Err(ContractError::InvalidUpdate);
                }
            },
            ShardUpdate::State(other) => {
                if other.shard_id != current.shard_id || validate_state(other).is_err() {
                    assert(!shard_update_acceptable(s0.shard_id, all[i as int]));
                    return Err(ContractError::InvalidUpdate);
                }
                merge_shard_states(&mut current, other);
            },
            ShardUpdate::Malformed => {
                assert(!shard_update_acceptable(s0.shard_id, all[i as int]));
                return Err(ContractError::InvalidUpdate);
            },
            ShardUpdate::Unrelated => {},
        }
        i += 1;
    }
    assert(all.subrange(0, n as int) =~= all);
    proof {
        if shard_valid(s0) {
            lemma_shard_update_stays_valid(s0, all);
        }
    }
    Ok(current)
}

/// The fingerprint of a document under a term: the term, a byte 0xFF, the
/// contract key.
pub open spec fn shard_fingerprint(word: Seq<u8>, contract_key: Seq<u8>) -> Seq<u8> {
    word + seq![0xFFu8] + contract_key
}

/// The bits `bits` with the fingerprints of the entries under one term added.
pub open spec fn term_summary(bits: Set<nat>, word: Seq<u8>, terms: Seq<TermView>) -> Set<nat>
    decreases terms.len(),
{
    if terms.len() == 0 {
        bits
    } else {
        bloom_insert(
            term_summary(bits, word, terms.drop_last()),
            shard_fingerprint(word, terms.last().contract_key),
            SUMMARY_BITS,
            SUMMARY_BITS as nat,
        )
    }
}

/// The bits of the summary of an index.
pub open spec fn shard_summary(index: Seq<(Seq<u8>, Seq<TermView>)>) -> Set<nat>
    decreases index.len(),
{
    if index.len() == 0 {
        Set::empty()
    } else {
        term_summary(shard_summary(index.drop_last()), index.last().0, index.last().1)
    }
}

/// The entry of a delta that carries a document under a term.
pub open spec fn carried_term(word: Seq<u8>, t: TermView) -> ShardDeltaEntryView {
    ShardDeltaEntryView {
        word,
        contract_key: t.contract_key,
        snippet: t.snippet,
        tf_idf_score: t.tf_idf_score,
    }
}

/// The entries under one term whose fingerprint a filter does not report.
pub open spec fn missing_under(word: Seq<u8>, terms: Seq<TermView>, bits: Set<nat>, width: usize) -> Seq<
    ShardDeltaEntryView,
>
    decreases terms.len(),
{
    if terms.len() == 0 {
        Seq::empty()
    } else {
        let rest = missing_under(word, terms.drop_last(), bits, width);
        if bloom_contains(bits, shard_fingerprint(word, terms.last().contract_key), width) {
            rest
        } else {
            rest.push(carried_term(word, terms.last()))
        }
    }
}

/// The entries of an index whose fingerprint a filter does not report, term
/// after term.
pub open spec fn missing_terms(index: Seq<(Seq<u8>, Seq<TermView>)>, bits: Set<nat>, width: usize) -> Seq<
    ShardDeltaEntryView,
>
    decreases index.len(),
{
    if index.len() == 0 {
        Seq::empty()
    } else {
        missing_terms(index.drop_last(), bits, width) + missing_under(
            index.last().0,
            index.last().1,
            bits,
            width,
        )
    }
}

/// The token of a delta that a replica makes for a peer.
pub open spec fn sync_token() -> TokenView {
    TokenView { nonce: Seq::new(8, |i: int| 0u8), difficulty: 1 }
}

/// Computes the fingerprint of a document under a term.
pub fn bloom_key(word: &str, contract_key: &str) -> (key: Vec<u8>)
    ensures
        key@ == shard_fingerprint(encode_utf8(word@), encode_utf8(contract_key@)),
{
    let mut key: Vec<u8> = Vec::new();
    push_bytes(&mut key, word.as_bytes());
    key.push(0xFFu8);
    push_bytes(&mut key, contract_key.as_bytes());
    assert(key@ =~= shard_fingerprint(encode_utf8(word@), encode_utf8(contract_key@)));
    key
}

/// Summarises the shard: a fresh filter of `SUMMARY_BITS` bits that holds the
/// fingerprint of every document under every term.
pub fn summarize_state(state: &ShardState) -> (filter: BloomFilter)
    requires
        state.wf(),
    ensures
        filter@ == shard_summary(state@.index),
        filter.width() == SUMMARY_BITS,
        filter.capacity() == SUMMARY_BITS,
{
    let mut filter = BloomFilter::new(SUMMARY_BITS);
    let ghost index = state@.index;
    let n: usize = state.index.len();
    let mut i: usize = 0;
    assert(index.subrange(0, 0) =~= Seq::empty());
    while i < n
        invariant
            i <= n,
            state.wf(),
            n == state.index.entries().len(),
            index == state@.index,
            filter.width() == SUMMARY_BITS,
            filter.capacity() == SUMMARY_BITS,
            filter@ == shard_summary(index.subrange(0, i as int)),
        decreases n - i,
    {
        let word = state.index.key_at(i);
        let terms = state.index.value_at(i);
        let ghost view = terms_view(terms@);
        let ghost base = filter@;
        proof {
            let next = index.subrange(0, i + 1);
            assert(next.drop_last() =~= index.subrange(0, i as int));
            assert(next.last() == (word.key_bytes(), view));
            assert(view.subrange(0, 0) =~= Seq::empty());
        }
        let m: usize = terms.len();
        let mut k: usize = 0;
        while k < m
            invariant
                k <= m,
                m == terms@.len(),
                view == terms_view(terms@),
                filter.width() == SUMMARY_BITS,
                filter.capacity() == SUMMARY_BITS,
                filter@ == term_summary(base, word.key_bytes(), view.subrange(0, k as int)),
            decreases m - k,
        {
            let key = bloom_key(word.as_str(), terms[k].contract_key.as_str());
            proof {
                let next = view.subrange(0, k + 1);
                assert(next.drop_last() =~= view.subrange(0, k as int));
                assert(next.last() == terms@[k as int]@);
            }
            filter.insert(key.as_slice());
            k += 1;
        }
        assert(view.subrange(0, m as int) =~= view);
        i += 1;
    }
    assert(index.subrange(0, n as int) =~= index);
    filter
}

/// Lists what a peer with the given summary lacks: one delta that bundles
/// every document under every term whose fingerprint the summary does not
/// report, or none where nothing is missing. A summary of width 0 reports
/// nothing and is refused.
pub fn get_state_delta(state: &ShardState, summary: &BloomFilter) -> (result: Result<
    Option<ShardDelta>,
    ContractError,
>)
    requires
        state.wf(),
    ensures
        result is Ok <==> summary.width() > 0,
        result is Ok ==> (result->Ok_0 is Some <==> missing_terms(
            state@.index,
            summary@,
            summary.width(),
        ).len() > 0),
        result is Ok && result->Ok_0 is Some ==> result->Ok_0->0@ == (ShardDeltaView {
            entries: missing_terms(state@.index, summary@, summary.width()),
            antiflood_token: sync_token(),
        }),
        result is Err ==> result->Err_0 == ContractError::InvalidState,
{
    if summary.num_bits() == 0 {
        return Err(ContractError::InvalidState);
    }
    let mut missing: Vec<ShardDeltaEntry> = Vec::new();
    let ghost index = state@.index;
    let n: usize = state.index.len();
    let mut i: usize = 0;
    assert(index.subrange(0, 0) =~= Seq::empty());
    assert(shard_entries_view(missing@) =~= Seq::<ShardDeltaEntryView>::empty());
    while i < n
        invariant
            i <= n,
            state.wf(),
            summary.width() > 0,
            n == state.index.entries().len(),
            index == state@.index,
            shard_entries_view(missing@) == missing_terms(
                index.subrange(0, i as int),
                summary@,
                summary.width(),
            ),
        decreases n - i,
    {
        let word = state.index.key_at(i);
        let terms = state.index.value_at(i);
        let ghost view = terms_view(terms@);
        let ghost base = shard_entries_view(missing@);
        proof {
            let next = index.subrange(0, i + 1);
            assert(next.drop_last() =~= index.subrange(0, i as int));
            assert(next.last() == (word.key_bytes(), view));
            assert(view.subrange(0, 0) =~= Seq::empty());
            assert(base + Seq::<ShardDeltaEntryView>::empty() =~= base);
        }
        let m: usize = terms.len();
        let mut k: usize = 0;
        while k < m
            invariant
                k <= m,
                m == terms@.len(),
                view == terms_view(terms@),
                summary.width() > 0,
                shard_entries_view(missing@) == base + missing_under(
                    word.key_bytes(),
                    view.subrange(0, k as int),
                    summary@,
                    summary.width(),
                ),
            decreases m - k,
        {
            let key = bloom_key(word.as_str(), terms[k].contract_key.as_str());
            let ghost rest = missing_under(
                word.key_bytes(),
                view.subrange(0, k as int),
                summary@,
                summary.width(),
            );
            proof {
                let next = view.subrange(0, k + 1);
                assert(next.drop_last() =~= view.subrange(0, k as int));
                assert(next.last() == terms@[k as int]@);
            }
            if !summary.contains(key.as_slice()) {
                let entry = ShardDeltaEntry {
                    word: word.clone(),
                    contract_key: terms[k].contract_key.clone(),
                    snippet: terms[k].snippet.clone(),
                    tf_idf_score: terms[k].tf_idf_score,
                };
                let ghost before = shard_entries_view(missing@);
                missing.push(entry);
                proof {
                    assert(shard_entries_view(missing@) =~= before.push(entry@));
                    assert(base + rest.push(entry@) =~= (base + rest).push(entry@));
                }
            }
            k += 1;
        }
        assert(view.subrange(0, m as int) =~= view);
        i += 1;
    }
    assert(index.subrange(0, n as int) =~= index);
    if missing.len() == 0 {
        Ok(None)
    } else {
        let nonce: Vec<u8> = vec![0u8; 8];
        assert(nonce@ =~= Seq::new(8, |i: int| 0u8));
        Ok(Some(ShardDelta { entries: missing, antiflood_token: AntifloodToken { nonce, difficulty: 1 } }))
    }
}

/// Adding the entries under a term keeps the bits that were set and reports
/// each of the entries.
pub proof fn lemma_term_summary(bits: Set<nat>, word: Seq<u8>, terms: Seq<TermView>)
    ensures
        bits.subset_of(term_summary(bits, word, terms)),
        forall|k: int|
            0 <= k < terms.len() ==> bloom_contains(
                term_summary(bits, word, terms),
                shard_fingerprint(word, (#[trigger] terms[k]).contract_key),
                SUMMARY_BITS,
            ),
    decreases terms.len(),
{
    if terms.len() > 0 {
        let front = terms.drop_last();
        let mid = term_summary(bits, word, front);
        let all = term_summary(bits, word, terms);
        let item = shard_fingerprint(word, terms.last().contract_key);
        lemma_term_summary(bits, word, front);
        lemma_no_false_negative(mid, item, SUMMARY_BITS, SUMMARY_BITS as nat);
        assert forall|k: int| 0 <= k < terms.len() implies bloom_contains(
            all,
            shard_fingerprint(word, (#[trigger] terms[k]).contract_key),
            SUMMARY_BITS,
        ) by {
            if k < front.len() {
                assert(front[k] == terms[k]);
                lemma_contains_monotone(
                    mid,
                    all,
                    shard_fingerprint(word, terms[k].contract_key),
                    SUMMARY_BITS,
                );
            }
        }
    }
}

/// The summary of an index reports every document under every term.
pub proof fn lemma_summary_reports_terms(index: Seq<(Seq<u8>, Seq<TermView>)>, i: int, k: int)
    requires
        0 <= i < index.len(),
        0 <= k < index[i].1.len(),
    ensures
        bloom_contains(
            shard_summary(index),
            shard_fingerprint(index[i].0, index[i].1[k].contract_key),
            SUMMARY_BITS,
        ),
    decreases index.len(),
{
    let front = index.drop_last();
    lemma_term_summary(shard_summary(front), index.last().0, index.last().1);
    if i < index.len() - 1 {
        lemma_summary_reports_terms(front, i, k);
        assert(front[i] == index[i]);
        lemma_contains_monotone(
            shard_summary(front),
            shard_summary(index),
            shard_fingerprint(index[i].0, index[i].1[k].contract_key),
            SUMMARY_BITS,
        );
    }
}

proof fn lemma_none_missing_under(word: Seq<u8>, terms: Seq<TermView>, bits: Set<nat>, n: int)
    requires
        0 <= n <= terms.len(),
        forall|k: int|
            0 <= k < terms.len() ==> bloom_contains(
                bits,
                shard_fingerprint(word, (#[trigger] terms[k]).contract_key),
                SUMMARY_BITS,
            ),
    ensures
        missing_under(word, terms.subrange(0, n), bits, SUMMARY_BITS) == Seq::<
            ShardDeltaEntryView,
        >::empty(),
    decreases n,
{
    if n > 0 {
        let prefix = terms.subrange(0, n);
        assert(prefix.drop_last() =~= terms.subrange(0, n - 1));
        assert(prefix.last() == terms[n - 1]);
        lemma_none_missing_under(word, terms, bits, n - 1);
    }
}

proof fn lemma_none_missing_in_prefix(index: Seq<(Seq<u8>, Seq<TermView>)>, n: int)
    requires
        0 <= n <= index.len(),
    ensures
        missing_terms(index.subrange(0, n), shard_summary(index), SUMMARY_BITS) == Seq::<
            ShardDeltaEntryView,
        >::empty(),
    decreases n,
{
    if n > 0 {
        let prefix = index.subrange(0, n);
        assert(prefix.drop_last() =~= index.subrange(0, n - 1));
        assert(prefix.last() == index[n - 1]);
        lemma_none_missing_in_prefix(index, n - 1);
        let word = index[n - 1].0;
        let terms = index[n - 1].1;
        assert forall|k: int| 0 <= k < terms.len() implies bloom_contains(
            shard_summary(index),
            shard_fingerprint(word, (#[trigger] terms[k]).contract_key),
            SUMMARY_BITS,
        ) by {
            lemma_summary_reports_terms(index, n - 1, k);
        }
        lemma_none_missing_under(word, terms, shard_summary(index), terms.len() as int);
        assert(terms.subrange(0, terms.len() as int) =~= terms);
    }
}

/// A shard lacks nothing of what its own summary was made from.
pub proof fn lemma_no_delta_against_own_summary(index: Seq<(Seq<u8>, Seq<TermView>)>)
    ensures
        missing_terms(index, shard_summary(index), SUMMARY_BITS) == Seq::<
            ShardDeltaEntryView,
        >::empty(),
{
    lemma_none_missing_in_prefix(index, index.len() as int);
    assert(index.subrange(0, index.len() as int) =~= index);
}

} // verus!
