//! Convergence of shards: after one exchange of summaries and deltas two
//! replicas of a shard hold the same documents under the same terms.
//!
//! A Bloom filter may report a document that its replica does not hold; such
//! a document is not sent in this round. The law speaks of exchanges in which
//! no filter does so.

use vstd::prelude::*;

use crate::bloom::bloom_contains;
use crate::catalog_sync::SUMMARY_BITS;
use crate::ordered_map::{assoc_get, has_key, index_of_key, keys_increasing, lemma_get_at, lemma_put};
use crate::shard::{apply_shard_entries, apply_shard_entry, by_contract, offered_term};
use crate::shard_contract::{
    carried_term, missing_terms, missing_under, shard_fingerprint, shard_summary,
};
use crate::shard_laws::{
    index_distinct, lemma_apply_entry_distinct, lemma_taken, taken, term_of, terms_distinct,
    terms_under,
};
use crate::sorting::{has_key_by, lemma_find_has_key, lemma_has_key_push};
use crate::types::{ShardDeltaEntryView, TermView};

verus! {

/// Whether an index holds a document of the contract under the term.
pub open spec fn holds(index: Seq<(Seq<u8>, Seq<TermView>)>, word: Seq<u8>, contract: Seq<u8>) -> bool {
    exists|i: int|
        0 <= i < index.len() && (#[trigger] index[i]).0 == word && has_key_by(
            index[i].1,
            contract,
            by_contract(),
        )
}

/// Whether one of the entries carries a document of the contract under the
/// term.
pub open spec fn carries(entries: Seq<ShardDeltaEntryView>, word: Seq<u8>, contract: Seq<u8>) -> bool {
    exists|i: int|
        0 <= i < entries.len() && (#[trigger] entries[i]).word == word && entries[i].contract_key
            == contract
}

/// An index in key order holds a document where it has the term and the
/// documents under the term include one of the contract.
pub proof fn lemma_holds(index: Seq<(Seq<u8>, Seq<TermView>)>, word: Seq<u8>, contract: Seq<u8>)
    requires
        keys_increasing(index),
    ensures
        holds(index, word, contract) <==> has_key_by(
            terms_under(index, word),
            contract,
            by_contract(),
        ),
{
    if holds(index, word, contract) {
        let i = choose|i: int|
            0 <= i < index.len() && (#[trigger] index[i]).0 == word && has_key_by(
                index[i].1,
                contract,
                by_contract(),
            );
        lemma_get_at(index, i);
    }
    if has_key_by(terms_under(index, word), contract, by_contract()) {
        if has_key(index, word) {
            let i = index_of_key(index, word);
            assert(index[i].0 == word);
        } else {
            let none = Seq::<TermView>::empty();
            assert(!has_key_by(none, contract, by_contract()));
        }
    }
}

proof fn lemma_carries_concat(
    a: Seq<ShardDeltaEntryView>,
    b: Seq<ShardDeltaEntryView>,
    word: Seq<u8>,
    contract: Seq<u8>,
)
    ensures
        carries(a + b, word, contract) <==> carries(a, word, contract) || carries(
            b,
            word,
            contract,
        ),
{
    let all = a + b;
    if carries(all, word, contract) {
        let i = choose|i: int|
            0 <= i < all.len() && (#[trigger] all[i]).word == word && all[i].contract_key
                == contract;
        if i < a.len() {
            assert(a[i] == all[i]);
        } else {
            assert(b[i - a.len()] == all[i]);
        }
    }
    if carries(a, word, contract) {
        let i = choose|i: int|
            0 <= i < a.len() && (#[trigger] a[i]).word == word && a[i].contract_key == contract;
        assert(all[i] == a[i]);
    }
    if carries(b, word, contract) {
        let i = choose|i: int|
            0 <= i < b.len() && (#[trigger] b[i]).word == word && b[i].contract_key == contract;
        assert(all[a.len() + i] == b[i]);
    }
}

/// What is sent of the documents under one term: those that the filter does
/// not report.
proof fn lemma_missing_under_carries(
    term: Seq<u8>,
    terms: Seq<TermView>,
    bits: Set<nat>,
    width: usize,
    word: Seq<u8>,
    contract: Seq<u8>,
)
    ensures
        carries(missing_under(term, terms, bits, width), word, contract) <==> term == word
            && has_key_by(terms, contract, by_contract()) && !bloom_contains(
            bits,
            shard_fingerprint(word, contract),
            width,
        ),
    decreases terms.len(),
{
    let key = by_contract();
    if terms.len() > 0 {
        let front = terms.drop_last();
        let rest = missing_under(term, front, bits, width);
        lemma_missing_under_carries(term, front, bits, width, word, contract);
        lemma_has_key_push(front, terms.last(), contract, key);
        assert(front.push(terms.last()) =~= terms);
        assert(key(terms.last()) == terms.last().contract_key);
        let own = seq![carried_term(term, terms.last())];
        assert(rest.push(carried_term(term, terms.last())) =~= rest + own);
        lemma_carries_concat(rest, own, word, contract);
        if carries(own, word, contract) {
            let i = choose|i: int|
                0 <= i < own.len() && (#[trigger] own[i]).word == word && own[i].contract_key
                    == contract;
            assert(own[i] == carried_term(term, terms.last()));
        }
        if term == word && terms.last().contract_key == contract {
            assert(own[0].word == word && own[0].contract_key == contract);
        }
    } else {
        assert(!has_key_by(terms, contract, key));
    }
}

/// What is sent of an index against a summary: the documents that the index
/// holds and the filter does not report.
pub proof fn lemma_missing_terms_carry(
    index: Seq<(Seq<u8>, Seq<TermView>)>,
    bits: Set<nat>,
    width: usize,
    word: Seq<u8>,
    contract: Seq<u8>,
)
    ensures
        carries(missing_terms(index, bits, width), word, contract) <==> holds(
            index,
            word,
            contract,
        ) && !bloom_contains(bits, shard_fingerprint(word, contract), width),
    decreases index.len(),
{
    if index.len() > 0 {
        let front = index.drop_last();
        let last = index.last();
        lemma_missing_terms_carry(front, bits, width, word, contract);
        lemma_missing_under_carries(last.0, last.1, bits, width, word, contract);
        lemma_carries_concat(
            missing_terms(front, bits, width),
            missing_under(last.0, last.1, bits, width),
            word,
            contract,
        );
        if holds(front, word, contract) {
            let i = choose|i: int|
                0 <= i < front.len() && (#[trigger] front[i]).0 == word && has_key_by(
                    front[i].1,
                    contract,
                    by_contract(),
                );
            assert(index[i] == front[i]);
        }
        if holds(index, word, contract) {
            let i = choose|i: int|
                0 <= i < index.len() && (#[trigger] index[i]).0 == word && has_key_by(
                    index[i].1,
                    contract,
                    by_contract(),
                );
            if i < front.len() {
                assert(front[i] == index[i]);
            }
        }
        if last.0 == word && has_key_by(last.1, contract, by_contract()) {
            assert(index[index.len() - 1] == last);
        }
    }
}

/// After an entry is taken in, an index holds what it held and the document
/// of the entry.
pub proof fn lemma_apply_entry_holds(
    index: Seq<(Seq<u8>, Seq<TermView>)>,
    e: ShardDeltaEntryView,
    word: Seq<u8>,
    contract: Seq<u8>,
)
    requires
        index_distinct(index),
    ensures
        index_distinct(apply_shard_entry(index, e)),
        holds(apply_shard_entry(index, e), word, contract) <==> holds(index, word, contract) || (
        e.word == word && e.contract_key == contract),
{
    let key = by_contract();
    let terms = terms_under(index, e.word);
    let changed = taken(terms, offered_term(e));
    let after = apply_shard_entry(index, e);
    lemma_apply_entry_distinct(index, e);
    lemma_holds(index, word, contract);
    lemma_holds(after, word, contract);
    lemma_put(index, e.word, changed);
    assert(assoc_get(after, word) == (if word == e.word {
        Some(changed)
    } else {
        assoc_get(index, word)
    }));
    if word == e.word {
        assert(terms_distinct(terms)) by {
            if has_key(index, e.word) {
                let i = index_of_key(index, e.word);
                assert(terms_distinct(index[i].1));
            }
        }
        lemma_taken(terms, offered_term(e));
        assert(term_of(changed, contract) == (if contract == e.contract_key {
            Some(crate::shard_laws::better(term_of(terms, contract), offered_term(e)))
        } else {
            term_of(terms, contract)
        }));
        lemma_find_has_key(changed, contract, key);
        lemma_find_has_key(terms, contract, key);
    }
}

/// After entries are taken in, an index holds what it held and the documents
/// that the entries carry.
pub proof fn lemma_apply_entries_hold(
    index: Seq<(Seq<u8>, Seq<TermView>)>,
    entries: Seq<ShardDeltaEntryView>,
    word: Seq<u8>,
    contract: Seq<u8>,
)
    requires
        index_distinct(index),
    ensures
        index_distinct(apply_shard_entries(index, entries)),
        holds(apply_shard_entries(index, entries), word, contract) <==> holds(
            index,
            word,
            contract,
        ) || carries(entries, word, contract),
    decreases entries.len(),
{
    if entries.len() > 0 {
        let front = entries.drop_last();
        let e = entries.last();
        lemma_apply_entries_hold(index, front, word, contract);
        lemma_apply_entry_holds(apply_shard_entries(index, front), e, word, contract);
        if carries(front, word, contract) {
            let i = choose|i: int|
                0 <= i < front.len() && (#[trigger] front[i]).word == word
                    && front[i].contract_key == contract;
            assert(entries[i] == front[i]);
        }
        if carries(entries, word, contract) {
            let i = choose|i: int|
                0 <= i < entries.len() && (#[trigger] entries[i]).word == word
                    && entries[i].contract_key == contract;
            if i < front.len() {
                assert(front[i] == entries[i]);
            }
        }
        if e.word == word && e.contract_key == contract {
            assert(entries[entries.len() - 1] == e);
        }
    }
}

/// Whether the summary of `to` reports no document of `from` that `to` does
/// not hold.
pub open spec fn no_false_report(
    from: Seq<(Seq<u8>, Seq<TermView>)>,
    to: Seq<(Seq<u8>, Seq<TermView>)>,
) -> bool {
    forall|word: Seq<u8>, contract: Seq<u8>|
        holds(from, word, contract) && !holds(to, word, contract) ==> !bloom_contains(
            shard_summary(to),
            #[trigger] shard_fingerprint(word, contract),
            SUMMARY_BITS,
        )
}

/// The index of `to` after it has taken in what `from` sends against its
/// summary.
pub open spec fn after_exchange(
    from: Seq<(Seq<u8>, Seq<TermView>)>,
    to: Seq<(Seq<u8>, Seq<TermView>)>,
) -> Seq<(Seq<u8>, Seq<TermView>)> {
    apply_shard_entries(to, missing_terms(from, shard_summary(to), SUMMARY_BITS))
}

/// After it has taken in what the peer sends, a replica holds the documents
/// of both.
pub proof fn lemma_exchange_holds(
    from: Seq<(Seq<u8>, Seq<TermView>)>,
    to: Seq<(Seq<u8>, Seq<TermView>)>,
    word: Seq<u8>,
    contract: Seq<u8>,
)
    requires
        index_distinct(to),
        no_false_report(from, to),
    ensures
        holds(after_exchange(from, to), word, contract) <==> holds(from, word, contract) || holds(
            to,
            word,
            contract,
        ),
{
    let bits = shard_summary(to);
    let sent = missing_terms(from, bits, SUMMARY_BITS);
    lemma_apply_entries_hold(to, sent, word, contract);
    lemma_missing_terms_carry(from, bits, SUMMARY_BITS, word, contract);
    if holds(from, word, contract) && !holds(to, word, contract) {
        assert(!bloom_contains(bits, shard_fingerprint(word, contract), SUMMARY_BITS));
    }
}

/// Convergence after one exchange: where no filter reports what its replica
/// does not hold, two replicas of a shard hold the same documents under the
/// same terms after each has taken in what the other sends, namely those that
/// either held before.
pub proof fn lemma_one_exchange_converges(
    a: Seq<(Seq<u8>, Seq<TermView>)>,
    b: Seq<(Seq<u8>, Seq<TermView>)>,
    word: Seq<u8>,
    contract: Seq<u8>,
)
    requires
        index_distinct(a),
        index_distinct(b),
        no_false_report(a, b),
        no_false_report(b, a),
    ensures
        holds(after_exchange(b, a), word, contract) == holds(after_exchange(a, b), word, contract),
        holds(after_exchange(b, a), word, contract) == (holds(a, word, contract) || holds(
            b,
            word,
            contract,
        )),
{
    lemma_exchange_holds(b, a, word, contract);
    lemma_exchange_holds(a, b, word, contract);
}

} // verus!
