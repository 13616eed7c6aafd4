//! Laws of a shard: the order of entries, of deltas and of merges.
//!
//! A shard is tidy when its index is in key order and the documents under
//! every term stand in the order of their contracts, each contract once.
//! Every shard that is built from an empty shard by deltas is tidy.

use vstd::prelude::*;

use crate::folding::{lemma_fold_concat, lemma_fold_permutation, pairwise};
use crate::ordered_map::{
    all_pairs, assoc_get, has_key, index_of_key, joins_well, keys_increasing, lemma_canonical,
    lemma_merge_assoc, lemma_merge_assoc_keeps, lemma_merge_assoc_regroup, lemma_put,
    lemma_put_commute, lemma_put_elements, lemma_put_put, merged_value, regroups_at,
};
use crate::shard::{
    apply_shard_delta_spec, apply_shard_entries, apply_shard_entry, by_contract, entry_step,
    first_contract, merge_index, merge_shard_spec, offer_term, offer_terms, offered_term,
    shard_delta_acceptable, shard_entry_acceptable, sort_by_contract, term_join,
};
use crate::shard_contract::{
    apply_shard_deltas, apply_shard_update, apply_shard_updates, shard_deltas_acceptable,
    shard_mergeable, shard_update_acceptable, shard_updates_acceptable, shard_valid, term_valid,
    ShardUpdateView,
};
use crate::sorting::{
    distinct_by, find_by, lemma_distinct_push, lemma_find_has_key, lemma_find_push, lemma_find_sort,
    lemma_sort_distinct, lemma_sort_ordered, lemma_sorted_canonical, lemma_update_same_key,
    ordered_by,
};
use crate::types::{ShardDeltaEntryView, ShardDeltaView, ShardView, TermView};

verus! {

/// The document of a contract under a term, where there is one.
pub open spec fn term_of(terms: Seq<TermView>, contract: Seq<u8>) -> Option<TermView> {
    find_by(terms, contract, by_contract())
}

/// Whether the documents under a term stand in the order of their contracts,
/// each contract once.
pub open spec fn terms_tidy(terms: Seq<TermView>) -> bool {
    ordered_by(terms, by_contract()) && distinct_by(terms, by_contract())
}

/// Whether each contract stands once under a term.
pub open spec fn terms_distinct(terms: Seq<TermView>) -> bool {
    distinct_by(terms, by_contract())
}

/// What is held of a contract after an offer: the offer where nothing was
/// held, the score and the snippet of the offer where its score is strictly
/// larger, else what was held.
pub open spec fn better(held: Option<TermView>, offered: TermView) -> TermView {
    match held {
        None => offered,
        Some(t) => if offered.tf_idf_score > t.tf_idf_score {
            TermView {
                contract_key: t.contract_key,
                snippet: offered.snippet,
                tf_idf_score: offered.tf_idf_score,
            }
        } else {
            t
        },
    }
}

/// What is held of a contract after the peer's document is merged in.
pub open spec fn combined(held: Option<TermView>, theirs: Option<TermView>) -> Option<TermView> {
    match theirs {
        None => held,
        Some(u) => Some(better(held, u)),
    }
}

/// The first place of a contract holds what is found under it.
pub proof fn lemma_first_contract_find(terms: Seq<TermView>, contract: Seq<u8>)
    ensures
        first_contract(terms, contract) < 0 <==> term_of(terms, contract) is None,
        first_contract(terms, contract) >= 0 ==> 0 <= first_contract(terms, contract)
            < terms.len() && term_of(terms, contract) == Some(
            terms[first_contract(terms, contract)],
        ) && terms[first_contract(terms, contract)].contract_key == contract,
    decreases terms.len(),
{
    if terms.len() > 0 {
        let front = terms.drop_last();
        lemma_first_contract_find(front, contract);
        let at = first_contract(front, contract);
        if at >= 0 {
            assert(front[at] == terms[at]);
        }
        assert(by_contract()(terms.last()) == terms.last().contract_key);
    }
}

/// After an offer each contract is held once, and what is held is the better
/// of what was held and the offer.
pub proof fn lemma_offer_term(terms: Seq<TermView>, offered: TermView)
    requires
        terms_distinct(terms),
    ensures
        terms_distinct(offer_term(terms, offered)),
        forall|c: Seq<u8>| #[trigger]
            term_of(offer_term(terms, offered), c) == (if c == offered.contract_key {
                Some(better(term_of(terms, c), offered))
            } else {
                term_of(terms, c)
            }),
{
    let key = by_contract();
    let k = offered.contract_key;
    let at = first_contract(terms, k);
    lemma_first_contract_find(terms, k);
    lemma_find_has_key(terms, k, key);
    assert(key(offered) == k);
    if at < 0 {
        lemma_distinct_push(terms, offered, key);
        assert forall|c: Seq<u8>| #[trigger]
            term_of(offer_term(terms, offered), c) == (if c == k {
                Some(better(term_of(terms, c), offered))
            } else {
                term_of(terms, c)
            }) by {
            lemma_find_push(terms, offered, c, key);
        }
    } else if offered.tf_idf_score > terms[at].tf_idf_score {
        let changed = better(Some(terms[at]), offered);
        assert(key(changed) == key(terms[at]));
        lemma_update_same_key(terms, at, changed, key);
    } else {
        assert forall|c: Seq<u8>| #[trigger]
            term_of(offer_term(terms, offered), c) == (if c == k {
                Some(better(term_of(terms, c), offered))
            } else {
                term_of(terms, c)
            }) by {}
    }
}

/// The documents under a term after an offer is taken in and they are put in order.
pub open spec fn taken(terms: Seq<TermView>, offered: TermView) -> Seq<TermView> {
    sort_by_contract(offer_term(terms, offered))
}

/// After an offer is taken in the documents are tidy, and what is held of a
/// contract is the better of what was held and the offer.
pub proof fn lemma_taken(terms: Seq<TermView>, offered: TermView)
    requires
        terms_distinct(terms),
    ensures
        terms_tidy(taken(terms, offered)),
        forall|c: Seq<u8>| #[trigger]
            term_of(taken(terms, offered), c) == (if c == offered.contract_key {
                Some(better(term_of(terms, c), offered))
            } else {
                term_of(terms, c)
            }),
{
    let key = by_contract();
    let after = offer_term(terms, offered);
    lemma_offer_term(terms, offered);
    lemma_sort_ordered(after, key);
    lemma_sort_distinct(after, key);
    assert forall|c: Seq<u8>| #[trigger]
        term_of(taken(terms, offered), c) == (if c == offered.contract_key {
            Some(better(term_of(terms, c), offered))
        } else {
            term_of(terms, c)
        }) by {
        lemma_find_sort(after, c, key);
        assert(term_of(after, c) == (if c == offered.contract_key {
            Some(better(term_of(terms, c), offered))
        } else {
            term_of(terms, c)
        }));
    }
}

/// Taking an offer in a second time changes nothing.
pub proof fn lemma_taken_twice(terms: Seq<TermView>, offered: TermView)
    requires
        terms_distinct(terms),
    ensures
        taken(taken(terms, offered), offered) == taken(terms, offered),
{
    let once = taken(terms, offered);
    lemma_taken(terms, offered);
    lemma_taken(once, offered);
    let twice = taken(once, offered);
    assert forall|c: Seq<u8>| find_by(twice, c, by_contract()) == find_by(
        once,
        c,
        by_contract(),
    ) by {
        assert(term_of(twice, c) == (if c == offered.contract_key {
            Some(better(term_of(once, c), offered))
        } else {
            term_of(once, c)
        }));
        assert(term_of(once, c) == (if c == offered.contract_key {
            Some(better(term_of(terms, c), offered))
        } else {
            term_of(terms, c)
        }));
    }
    lemma_sorted_canonical(twice, once, by_contract());
}

/// Whether two offers may be taken in either order: where they are for the
/// same contract with the same score, they carry the same snippet.
pub open spec fn offers_compatible(x: TermView, y: TermView) -> bool {
    x.contract_key == y.contract_key && x.tf_idf_score == y.tf_idf_score ==> x.snippet
        == y.snippet
}

/// Two compatible offers may be taken in either order.
pub proof fn lemma_taken_commute(terms: Seq<TermView>, x: TermView, y: TermView)
    requires
        terms_distinct(terms),
        offers_compatible(x, y),
    ensures
        taken(taken(terms, x), y) == taken(taken(terms, y), x),
{
    let tx = taken(terms, x);
    let ty = taken(terms, y);
    lemma_taken(terms, x);
    lemma_taken(terms, y);
    lemma_taken(tx, y);
    lemma_taken(ty, x);
    let left = taken(tx, y);
    let right = taken(ty, x);
    lemma_find_has_key(terms, x.contract_key, by_contract());
    assert forall|c: Seq<u8>| find_by(left, c, by_contract()) == find_by(
        right,
        c,
        by_contract(),
    ) by {
        assert(term_of(left, c) == (if c == y.contract_key {
            Some(better(term_of(tx, c), y))
        } else {
            term_of(tx, c)
        }));
        assert(term_of(tx, c) == (if c == x.contract_key {
            Some(better(term_of(terms, c), x))
        } else {
            term_of(terms, c)
        }));
        assert(term_of(right, c) == (if c == x.contract_key {
            Some(better(term_of(ty, c), x))
        } else {
            term_of(ty, c)
        }));
        assert(term_of(ty, c) == (if c == y.contract_key {
            Some(better(term_of(terms, c), y))
        } else {
            term_of(terms, c)
        }));
        lemma_find_has_key(terms, c, by_contract());
        if term_of(terms, c) is Some {
            assert(by_contract()(term_of(terms, c)->0) == c);
        }
    }
    lemma_sorted_canonical(left, right, by_contract());
}

/// Whether an index is in key order with each contract once under every term.
pub open spec fn index_distinct(index: Seq<(Seq<u8>, Seq<TermView>)>) -> bool {
    &&& keys_increasing(index)
    &&& forall|i: int| 0 <= i < index.len() ==> terms_distinct((#[trigger] index[i]).1)
}

/// Whether an index is tidy: in key order, with the documents under every
/// term in the order of their contracts, each contract once.
pub open spec fn index_tidy(index: Seq<(Seq<u8>, Seq<TermView>)>) -> bool {
    &&& keys_increasing(index)
    &&& forall|i: int| 0 <= i < index.len() ==> terms_tidy((#[trigger] index[i]).1)
}

/// The documents that an index holds under a term.
pub open spec fn terms_under(index: Seq<(Seq<u8>, Seq<TermView>)>, word: Seq<u8>) -> Seq<TermView> {
    match assoc_get(index, word) {
        Some(t) => t,
        None => Seq::empty(),
    }
}

proof fn lemma_terms_under(index: Seq<(Seq<u8>, Seq<TermView>)>, word: Seq<u8>)
    requires
        index_distinct(index),
    ensures
        terms_distinct(terms_under(index, word)),
        index_tidy(index) ==> terms_tidy(terms_under(index, word)),
{
    if has_key(index, word) {
        let i = index_of_key(index, word);
        assert(terms_distinct(index[i].1));
        if index_tidy(index) {
            assert(terms_tidy(index[i].1));
        }
    }
}

/// An entry of a delta leaves each contract once under every term, and the
/// documents under its own term tidy.
pub proof fn lemma_apply_entry_distinct(index: Seq<(Seq<u8>, Seq<TermView>)>, e: ShardDeltaEntryView)
    requires
        index_distinct(index),
    ensures
        index_distinct(apply_shard_entry(index, e)),
        index_tidy(index) ==> index_tidy(apply_shard_entry(index, e)),
{
    let terms = terms_under(index, e.word);
    let changed = taken(terms, offered_term(e));
    let after = apply_shard_entry(index, e);
    lemma_terms_under(index, e.word);
    lemma_taken(terms, offered_term(e));
    lemma_put(index, e.word, changed);
    assert forall|j: int| 0 <= j < after.len() implies terms_distinct((#[trigger] after[j]).1)
        && (index_tidy(index) ==> terms_tidy(after[j].1)) by {
        lemma_put_elements(index, e.word, changed, j);
        if after[j] != (e.word, changed) {
            let i = choose|i: int| 0 <= i < index.len() && #[trigger] index[i] == after[j];
            assert(terms_distinct(index[i].1));
            if index_tidy(index) {
                assert(terms_tidy(index[i].1));
            }
        }
    }
}

/// Idempotence: taking an entry of a delta in a second time changes nothing.
pub proof fn lemma_apply_entry_twice(index: Seq<(Seq<u8>, Seq<TermView>)>, e: ShardDeltaEntryView)
    requires
        index_distinct(index),
    ensures
        apply_shard_entry(apply_shard_entry(index, e), e) == apply_shard_entry(index, e),
{
    let terms = terms_under(index, e.word);
    let once = taken(terms, offered_term(e));
    lemma_terms_under(index, e.word);
    lemma_put(index, e.word, once);
    assert(assoc_get(apply_shard_entry(index, e), e.word) == Some(once));
    lemma_taken_twice(terms, offered_term(e));
    lemma_put_put(index, e.word, once, once);
}

/// Whether two entries of deltas may be taken in either order: where they are
/// for the same contract under the same term with the same score, they carry
/// the same snippet.
pub open spec fn entries_compatible(e1: ShardDeltaEntryView, e2: ShardDeltaEntryView) -> bool {
    e1.word == e2.word ==> offers_compatible(offered_term(e1), offered_term(e2))
}

/// Two compatible entries of deltas may be taken in either order.
pub proof fn lemma_apply_entry_commute(
    index: Seq<(Seq<u8>, Seq<TermView>)>,
    e1: ShardDeltaEntryView,
    e2: ShardDeltaEntryView,
)
    requires
        index_distinct(index),
        entries_compatible(e1, e2),
    ensures
        apply_shard_entry(apply_shard_entry(index, e1), e2) == apply_shard_entry(
            apply_shard_entry(index, e2),
            e1,
        ),
{
    let t1 = terms_under(index, e1.word);
    let t2 = terms_under(index, e2.word);
    let n1 = taken(t1, offered_term(e1));
    let n2 = taken(t2, offered_term(e2));
    let i1 = apply_shard_entry(index, e1);
    let i2 = apply_shard_entry(index, e2);
    lemma_terms_under(index, e1.word);
    lemma_terms_under(index, e2.word);
    lemma_put(index, e1.word, n1);
    lemma_put(index, e2.word, n2);
    assert(assoc_get(i1, e2.word) == (if e2.word == e1.word {
        Some(n1)
    } else {
        assoc_get(index, e2.word)
    }));
    assert(assoc_get(i2, e1.word) == (if e1.word == e2.word {
        Some(n2)
    } else {
        assoc_get(index, e1.word)
    }));
    if e1.word == e2.word {
        lemma_taken_commute(t1, offered_term(e1), offered_term(e2));
        lemma_put_put(index, e1.word, n1, taken(n1, offered_term(e2)));
        lemma_put_put(index, e1.word, n2, taken(n2, offered_term(e1)));
    } else {
        lemma_put_commute(index, e1.word, n1, e2.word, n2);
    }
}

/// Compatibility of entries, as a relation.
pub open spec fn entry_compatibility() -> spec_fn(ShardDeltaEntryView, ShardDeltaEntryView) -> bool {
    |e1: ShardDeltaEntryView, e2: ShardDeltaEntryView| entries_compatible(e1, e2)
}

/// Holding each contract once under every term, as a property.
pub open spec fn distinctness() -> spec_fn(Seq<(Seq<u8>, Seq<TermView>)>) -> bool {
    |index: Seq<(Seq<u8>, Seq<TermView>)>| index_distinct(index)
}

/// Commutativity: compatible entries lead to the same index in whatever
/// order they are taken in.
pub proof fn lemma_apply_entries_permutation(
    index: Seq<(Seq<u8>, Seq<TermView>)>,
    a: Seq<ShardDeltaEntryView>,
    b: Seq<ShardDeltaEntryView>,
)
    requires
        index_distinct(index),
        pairwise(a, entry_compatibility()),
        a.to_multiset() == b.to_multiset(),
    ensures
        apply_shard_entries(index, a) == apply_shard_entries(index, b),
{
    let step = entry_step();
    let good = distinctness();
    let rel = entry_compatibility();
    assert forall|t: Seq<(Seq<u8>, Seq<TermView>)>, e: ShardDeltaEntryView| good(t) implies good(
        #[trigger] step(t, e),
    ) by {
        lemma_apply_entry_distinct(t, e);
    }
    assert forall|t: Seq<(Seq<u8>, Seq<TermView>)>, e1: ShardDeltaEntryView, e2: ShardDeltaEntryView|

        good(t) && rel(e1, e2) implies #[trigger] step(step(t, e1), e2) == step(
        step(t, e2),
        e1,
    ) by {
        lemma_apply_entry_commute(t, e1, e2);
    }
    lemma_fold_permutation(index, a, b, step, good, rel);
}

/// Two deltas whose entries are all compatible may be applied in either order.
pub proof fn lemma_apply_deltas_commute(s: ShardView, d1: ShardDeltaView, d2: ShardDeltaView)
    requires
        index_distinct(s.index),
        pairwise(d1.entries + d2.entries, entry_compatibility()),
    ensures
        apply_shard_delta_spec(apply_shard_delta_spec(s, d1), d2) == apply_shard_delta_spec(
            apply_shard_delta_spec(s, d2),
            d1,
        ),
{
    let step = entry_step();
    let both = d1.entries + d2.entries;
    let other = d2.entries + d1.entries;
    lemma_fold_concat(s.index, d1.entries, d2.entries, step);
    lemma_fold_concat(s.index, d2.entries, d1.entries, step);
    vstd::seq_lib::lemma_seq_union_to_multiset_commutative(d1.entries, d2.entries);
    lemma_apply_entries_permutation(s.index, both, other);
}

/// After the peer's documents are taken in, each contract is held once, and
/// what is held of a contract is what was held combined with the peer's.
pub proof fn lemma_offer_terms(terms: Seq<TermView>, theirs: Seq<TermView>)
    requires
        terms_distinct(terms),
        terms_distinct(theirs),
    ensures
        terms_distinct(offer_terms(terms, theirs)),
        forall|c: Seq<u8>| #[trigger]
            term_of(offer_terms(terms, theirs), c) == combined(
                term_of(terms, c),
                term_of(theirs, c),
            ),
    decreases theirs.len(),
{
    let key = by_contract();
    if theirs.len() > 0 {
        let front = theirs.drop_last();
        let last = theirs.last();
        assert(front.push(last) =~= theirs);
        lemma_distinct_push(front, last, key);
        lemma_offer_terms(terms, front);
        let before = offer_terms(terms, front);
        lemma_offer_term(before, last);
        assert(key(last) == last.contract_key);
        assert forall|c: Seq<u8>| #[trigger]
            term_of(offer_terms(terms, theirs), c) == combined(
                term_of(terms, c),
                term_of(theirs, c),
            ) by {
            lemma_find_push(front, last, c, key);
            lemma_find_has_key(front, c, key);
            assert(term_of(before, c) == combined(term_of(terms, c), term_of(front, c)));
            assert(term_of(offer_term(before, last), c) == (if c == last.contract_key {
                Some(better(term_of(before, c), last))
            } else {
                term_of(before, c)
            }));
        }
    } else {
        assert forall|c: Seq<u8>| #[trigger]
            term_of(offer_terms(terms, theirs), c) == combined(
                term_of(terms, c),
                term_of(theirs, c),
            ) by {}
    }
}

/// The documents of two sides under a term, merged and put in order.
pub open spec fn merged_terms(terms: Seq<TermView>, theirs: Seq<TermView>) -> Seq<TermView> {
    sort_by_contract(offer_terms(terms, theirs))
}

/// Merged documents are tidy, and what is held of a contract is what was
/// held combined with the peer's.
pub proof fn lemma_merged_terms(terms: Seq<TermView>, theirs: Seq<TermView>)
    requires
        terms_distinct(terms),
        terms_distinct(theirs),
    ensures
        terms_tidy(merged_terms(terms, theirs)),
        forall|c: Seq<u8>| #[trigger]
            term_of(merged_terms(terms, theirs), c) == combined(
                term_of(terms, c),
                term_of(theirs, c),
            ),
{
    let key = by_contract();
    let all = offer_terms(terms, theirs);
    lemma_offer_terms(terms, theirs);
    lemma_sort_ordered(all, key);
    lemma_sort_distinct(all, key);
    assert forall|c: Seq<u8>| #[trigger]
        term_of(merged_terms(terms, theirs), c) == combined(
            term_of(terms, c),
            term_of(theirs, c),
        ) by {
        lemma_find_sort(all, c, key);
        assert(term_of(all, c) == combined(term_of(terms, c), term_of(theirs, c)));
    }
}

/// Tidy documents merged into themselves, or into nothing, are what they were.
pub proof fn lemma_merged_same(terms: Seq<TermView>)
    requires
        terms_tidy(terms),
    ensures
        merged_terms(terms, terms) == terms,
        merged_terms(Seq::empty(), terms) == terms,
{
    let key = by_contract();
    let none = Seq::<TermView>::empty();
    lemma_merged_terms(terms, terms);
    lemma_merged_terms(none, terms);
    assert forall|c: Seq<u8>| find_by(merged_terms(terms, terms), c, key) == find_by(
        terms,
        c,
        key,
    ) && find_by(merged_terms(none, terms), c, key) == find_by(terms, c, key) by {
        assert(term_of(merged_terms(terms, terms), c) == combined(
            term_of(terms, c),
            term_of(terms, c),
        ));
        assert(term_of(merged_terms(none, terms), c) == combined(
            term_of(none, c),
            term_of(terms, c),
        ));
    }
    lemma_sorted_canonical(merged_terms(terms, terms), terms, key);
    lemma_sorted_canonical(merged_terms(none, terms), terms, key);
}

/// What is merged with this side depends on the peer's documents only through
/// the document that each contract has.
pub proof fn lemma_merged_by_lookup(terms: Seq<TermView>, b: Seq<TermView>, c: Seq<TermView>)
    requires
        terms_distinct(terms),
        terms_distinct(b),
        terms_distinct(c),
        forall|k: Seq<u8>| term_of(b, k) == term_of(c, k),
    ensures
        merged_terms(terms, b) == merged_terms(terms, c),
{
    let key = by_contract();
    lemma_merged_terms(terms, b);
    lemma_merged_terms(terms, c);
    assert forall|k: Seq<u8>| find_by(merged_terms(terms, b), k, key) == find_by(
        merged_terms(terms, c),
        k,
        key,
    ) by {
        assert(term_of(merged_terms(terms, b), k) == combined(term_of(terms, k), term_of(b, k)));
        assert(term_of(merged_terms(terms, c), k) == combined(term_of(terms, k), term_of(c, k)));
        assert(term_of(b, k) == term_of(c, k));
    }
    lemma_sorted_canonical(merged_terms(terms, b), merged_terms(terms, c), key);
}

/// Merging the documents of three sides is the same in either grouping.
pub proof fn lemma_merged_regroup(t: Seq<TermView>, u: Seq<TermView>, v: Seq<TermView>)
    requires
        terms_distinct(t),
        terms_distinct(u),
        terms_distinct(v),
    ensures
        merged_terms(merged_terms(t, u), v) == merged_terms(t, merged_terms(u, v)),
{
    let key = by_contract();
    lemma_merged_terms(t, u);
    lemma_merged_terms(u, v);
    lemma_merged_terms(merged_terms(t, u), v);
    lemma_merged_terms(t, merged_terms(u, v));
    let left = merged_terms(merged_terms(t, u), v);
    let right = merged_terms(t, merged_terms(u, v));
    assert forall|c: Seq<u8>| find_by(left, c, key) == find_by(right, c, key) by {
        assert(term_of(left, c) == combined(term_of(merged_terms(t, u), c), term_of(v, c)));
        assert(term_of(merged_terms(t, u), c) == combined(term_of(t, c), term_of(u, c)));
        assert(term_of(right, c) == combined(term_of(t, c), term_of(merged_terms(u, v), c)));
        assert(term_of(merged_terms(u, v), c) == combined(term_of(u, c), term_of(v, c)));
        lemma_find_has_key(t, c, key);
        lemma_find_has_key(u, c, key);
        lemma_find_has_key(v, c, key);
        if term_of(t, c) is Some {
            assert(key(term_of(t, c)->0) == c);
        }
        if term_of(u, c) is Some {
            assert(key(term_of(u, c)->0) == c);
        }
    }
    lemma_sorted_canonical(left, right, key);
}

/// Whether the documents of two sides agree: where both hold a contract with
/// the same score, they hold the same snippet.
pub open spec fn terms_agree(t: Seq<TermView>, u: Seq<TermView>) -> bool {
    forall|c: Seq<u8>|
        #![trigger term_of(t, c)]
        #![trigger term_of(u, c)]
        term_of(t, c) is Some && term_of(u, c) is Some && term_of(t, c)->0.tf_idf_score
            == term_of(u, c)->0.tf_idf_score ==> term_of(t, c)->0.snippet == term_of(
            u,
            c,
        )->0.snippet
}

/// Documents that agree merge the same in either order.
pub proof fn lemma_merged_commutes(t: Seq<TermView>, u: Seq<TermView>)
    requires
        terms_distinct(t),
        terms_distinct(u),
        terms_agree(t, u),
    ensures
        merged_terms(t, u) == merged_terms(u, t),
{
    let key = by_contract();
    lemma_merged_terms(t, u);
    lemma_merged_terms(u, t);
    assert forall|c: Seq<u8>| find_by(merged_terms(t, u), c, key) == find_by(
        merged_terms(u, t),
        c,
        key,
    ) by {
        assert(term_of(merged_terms(t, u), c) == combined(term_of(t, c), term_of(u, c)));
        assert(term_of(merged_terms(u, t), c) == combined(term_of(u, c), term_of(t, c)));
        lemma_find_has_key(t, c, key);
        lemma_find_has_key(u, c, key);
        if term_of(t, c) is Some {
            assert(key(term_of(t, c)->0) == c);
        }
        if term_of(u, c) is Some {
            assert(key(term_of(u, c)->0) == c);
        }
    }
    lemma_sorted_canonical(merged_terms(t, u), merged_terms(u, t), key);
}

/// Whether a shard is tidy.
pub open spec fn shard_tidy(s: ShardView) -> bool {
    index_tidy(s.index)
}

/// Whether two shards agree: they have the same id, and the documents that
/// both hold under a term agree.
pub open spec fn shards_agree(a: ShardView, b: ShardView) -> bool {
    &&& a.shard_id == b.shard_id
    &&& forall|w: Seq<u8>|
        #![trigger assoc_get(a.index, w)]
        #![trigger assoc_get(b.index, w)]
        assoc_get(a.index, w) is Some && assoc_get(b.index, w) is Some ==> terms_agree(
            assoc_get(a.index, w)->0,
            assoc_get(b.index, w)->0,
        )
}

proof fn lemma_terms_at(index: Seq<(Seq<u8>, Seq<TermView>)>, word: Seq<u8>)
    requires
        index_tidy(index),
        assoc_get(index, word) is Some,
    ensures
        terms_tidy(assoc_get(index, word)->0),
{
    let i = index_of_key(index, word);
    assert(terms_tidy(index[i].1));
}

/// Idempotence of the merge: merging a tidy shard into itself changes nothing.
pub proof fn lemma_merge_shard_same(s: ShardView)
    requires
        shard_tidy(s),
    ensures
        merge_shard_spec(s, s) == s,
{
    let join = term_join();
    let merged = merge_index(s.index, s.index);
    lemma_merge_assoc(s.index, s.index, join);
    assert forall|w: Seq<u8>| assoc_get(merged, w) == assoc_get(s.index, w) by {
        assert(assoc_get(merged, w) == merged_value(
            assoc_get(s.index, w),
            assoc_get(s.index, w),
            w,
            join,
        ));
        if assoc_get(s.index, w) is Some {
            lemma_terms_at(s.index, w);
            lemma_merged_same(assoc_get(s.index, w)->0);
        }
    }
    lemma_canonical(merged, s.index);
}

/// Commutativity of the merge: two tidy shards that agree merge the same in
/// either order.
pub proof fn lemma_merge_shard_commutes(a: ShardView, b: ShardView)
    requires
        shard_tidy(a),
        shard_tidy(b),
        shards_agree(a, b),
    ensures
        merge_shard_spec(a, b) == merge_shard_spec(b, a),
{
    let join = term_join();
    let left = merge_index(a.index, b.index);
    let right = merge_index(b.index, a.index);
    lemma_merge_assoc(a.index, b.index, join);
    lemma_merge_assoc(b.index, a.index, join);
    assert forall|w: Seq<u8>| assoc_get(left, w) == assoc_get(right, w) by {
        assert(assoc_get(left, w) == merged_value(
            assoc_get(a.index, w),
            assoc_get(b.index, w),
            w,
            join,
        ));
        assert(assoc_get(right, w) == merged_value(
            assoc_get(b.index, w),
            assoc_get(a.index, w),
            w,
            join,
        ));
        match (assoc_get(a.index, w), assoc_get(b.index, w)) {
            (Some(t), Some(u)) => {
                lemma_terms_at(a.index, w);
                lemma_terms_at(b.index, w);
                lemma_merged_commutes(t, u);
            },
            (Some(t), None) => {
                lemma_terms_at(a.index, w);
                lemma_merged_same(t);
            },
            (None, Some(u)) => {
                lemma_terms_at(b.index, w);
                lemma_merged_same(u);
            },
            (None, None) => {},
        }
    }
    lemma_canonical(left, right);
}

proof fn lemma_term_join_regroup(
    x: Seq<(Seq<u8>, Seq<TermView>)>,
    y: Seq<(Seq<u8>, Seq<TermView>)>,
    z: Seq<(Seq<u8>, Seq<TermView>)>,
    w: Seq<u8>,
)
    requires
        index_distinct(x),
        index_distinct(y),
        index_distinct(z),
    ensures
        regroups_at(x, y, z, term_join(), w),
{
    let mine = terms_under(x, w);
    let none = Seq::<TermView>::empty();
    lemma_terms_under(x, w);
    lemma_terms_under(y, w);
    lemma_terms_under(z, w);
    match (assoc_get(y, w), assoc_get(z, w)) {
        (Some(second), Some(third)) => {
            lemma_merged_regroup(mine, second, third);
        },
        (None, Some(third)) => {
            lemma_merged_terms(none, third);
            assert forall|k: Seq<u8>| term_of(third, k) == term_of(
                merged_terms(none, third),
                k,
            ) by {
                assert(term_of(merged_terms(none, third), k) == combined(
                    term_of(none, k),
                    term_of(third, k),
                ));
            }
            lemma_merged_by_lookup(mine, third, merged_terms(none, third));
        },
        _ => {},
    }
}

/// Associativity of the merge: merging three shards is the same in either
/// grouping, as long as each holds every contract once under every term.
pub proof fn lemma_merge_shard_regroup(a: ShardView, b: ShardView, c: ShardView)
    requires
        index_distinct(a.index),
        index_distinct(b.index),
        index_distinct(c.index),
    ensures
        merge_shard_spec(merge_shard_spec(a, b), c) == merge_shard_spec(
            a,
            merge_shard_spec(b, c),
        ),
{
    assert forall|w: Seq<u8>| regroups_at(a.index, b.index, c.index, term_join(), w) by {
        lemma_term_join_regroup(a.index, b.index, c.index, w);
    }
    lemma_merge_assoc_regroup(a.index, b.index, c.index, term_join());
}

/// Validity of the documents under a term of the shard `shard_id`, as a
/// property of a pair.
pub open spec fn valid_term(shard_id: u8) -> spec_fn(Seq<u8>, Seq<TermView>) -> bool {
    |word: Seq<u8>, terms: Seq<TermView>| term_valid(shard_id, word, terms)
}

/// Whether an index is in key order and every term of it is valid in the
/// shard `shard_id`.
pub open spec fn index_valid(shard_id: u8, index: Seq<(Seq<u8>, Seq<TermView>)>) -> bool {
    keys_increasing(index) && all_pairs(index, valid_term(shard_id))
}

/// An entry that the shard takes keeps its index valid.
pub proof fn lemma_apply_entry_valid(
    shard_id: u8,
    index: Seq<(Seq<u8>, Seq<TermView>)>,
    e: ShardDeltaEntryView,
)
    requires
        index_valid(shard_id, index),
        shard_entry_acceptable(shard_id, e),
    ensures
        index_valid(shard_id, apply_shard_entry(index, e)),
{
    let good = valid_term(shard_id);
    let terms = terms_under(index, e.word);
    if has_key(index, e.word) {
        let i = index_of_key(index, e.word);
        assert(good(index[i].0, index[i].1));
    }
    lemma_offer_term(terms, offered_term(e));
    lemma_sort_distinct(offer_term(terms, offered_term(e)), by_contract());
    let changed = sort_by_contract(offer_term(terms, offered_term(e)));
    lemma_put(index, e.word, changed);
    let after = apply_shard_entry(index, e);
    assert forall|j: int| 0 <= j < after.len() implies good((#[trigger] after[j]).0, after[j].1) by {
        lemma_put_elements(index, e.word, changed, j);
        if after[j] != (e.word, changed) {
            let i = choose|i: int| 0 <= i < index.len() && #[trigger] index[i] == after[j];
            assert(good(index[i].0, index[i].1));
        }
    }
}

/// Entries that the shard takes keep its index valid.
pub proof fn lemma_apply_entries_valid(
    shard_id: u8,
    index: Seq<(Seq<u8>, Seq<TermView>)>,
    entries: Seq<ShardDeltaEntryView>,
)
    requires
        index_valid(shard_id, index),
        forall|i: int|
            0 <= i < entries.len() ==> shard_entry_acceptable(shard_id, #[trigger] entries[i]),
    ensures
        index_valid(shard_id, apply_shard_entries(index, entries)),
    decreases entries.len(),
{
    if entries.len() > 0 {
        let front = entries.drop_last();
        assert forall|i: int| 0 <= i < front.len() implies shard_entry_acceptable(
            shard_id,
            #[trigger] front[i],
        ) by {
            assert(front[i] == entries[i]);
        }
        lemma_apply_entries_valid(shard_id, index, front);
        assert(shard_entry_acceptable(shard_id, entries[entries.len() - 1]));
        lemma_apply_entry_valid(shard_id, apply_shard_entries(index, front), entries.last());
    }
}

/// Deltas that the shard takes keep its index valid.
pub proof fn lemma_apply_deltas_valid(s: ShardView, deltas: Seq<ShardDeltaView>)
    requires
        index_valid(s.shard_id, s.index),
        shard_deltas_acceptable(s.shard_id, deltas),
    ensures
        apply_shard_deltas(s, deltas).shard_id == s.shard_id,
        index_valid(s.shard_id, apply_shard_deltas(s, deltas).index),
    decreases deltas.len(),
{
    if deltas.len() > 0 {
        let front = deltas.drop_last();
        assert forall|i: int| 0 <= i < front.len() implies shard_delta_acceptable(
            s.shard_id,
            #[trigger] front[i],
        ) by {
            assert(front[i] == deltas[i]);
        }
        lemma_apply_deltas_valid(s, front);
        assert(shard_delta_acceptable(s.shard_id, deltas[deltas.len() - 1]));
        lemma_apply_entries_valid(
            s.shard_id,
            apply_shard_deltas(s, front).index,
            deltas.last().entries,
        );
    }
}

/// Merging a valid shard of the same id keeps the index valid.
pub proof fn lemma_merge_shard_valid(a: ShardView, b: ShardView)
    requires
        index_valid(a.shard_id, a.index),
        shard_mergeable(a.shard_id, b),
    ensures
        index_valid(a.shard_id, merge_shard_spec(a, b).index),
{
    let good = valid_term(a.shard_id);
    assert(joins_well(b.index, term_join(), good)) by {
        assert forall|i: int, mine: Option<Seq<TermView>>|
            0 <= i < b.index.len() && (mine is Some ==> good(b.index[i].0, mine->0)) implies good(
            b.index[i].0,
            #[trigger] term_join()(b.index[i].0, mine, b.index[i].1),
        ) by {
            assert(term_valid(b.shard_id, b.index[i].0, b.index[i].1));
            let held = match mine {
                Some(t) => t,
                None => Seq::empty(),
            };
            lemma_offer_terms(held, b.index[i].1);
            lemma_sort_distinct(offer_terms(held, b.index[i].1), by_contract());
        }
    }
    lemma_merge_assoc_keeps(a.index, b.index, term_join(), good);
}

/// One update that the shard takes keeps its index valid.
pub proof fn lemma_apply_update_valid(s: ShardView, u: ShardUpdateView)
    requires
        index_valid(s.shard_id, s.index),
        shard_update_acceptable(s.shard_id, u),
    ensures
        apply_shard_update(s, u).shard_id == s.shard_id,
        index_valid(s.shard_id, apply_shard_update(s, u).index),
{
    match u {
        ShardUpdateView::Delta(d) => {
            lemma_apply_entries_valid(s.shard_id, s.index, d.entries);
        },
        ShardUpdateView::DeltaBatch(ds) => {
            lemma_apply_deltas_valid(s, ds);
        },
        ShardUpdateView::State(b) => {
            lemma_merge_shard_valid(s, b);
        },
        ShardUpdateView::Malformed => {},
        ShardUpdateView::Unrelated => {},
    }
}

/// An update keeps a valid shard valid, whatever it is made of: deltas,
/// batches and the states of peers.
pub proof fn lemma_shard_update_stays_valid(s: ShardView, updates: Seq<ShardUpdateView>)
    requires
        keys_increasing(s.index),
        shard_valid(s),
        shard_updates_acceptable(s.shard_id, updates),
    ensures
        apply_shard_updates(s, updates).shard_id == s.shard_id,
        keys_increasing(apply_shard_updates(s, updates).index),
        shard_valid(apply_shard_updates(s, updates)),
    decreases updates.len(),
{
    let good = valid_term(s.shard_id);
    assert(all_pairs(s.index, good)) by {
        assert forall|i: int| 0 <= i < s.index.len() implies good(
            (#[trigger] s.index[i]).0,
            s.index[i].1,
        ) by {
            assert(term_valid(s.shard_id, s.index[i].0, s.index[i].1));
        }
    }
    if updates.len() > 0 {
        let front = updates.drop_last();
        assert forall|i: int| 0 <= i < front.len() implies shard_update_acceptable(
            s.shard_id,
            #[trigger] front[i],
        ) by {
            assert(front[i] == updates[i]);
        }
        lemma_shard_update_stays_valid(s, front);
        let before = apply_shard_updates(s, front);
        assert(all_pairs(before.index, good)) by {
            assert forall|i: int| 0 <= i < before.index.len() implies good(
                (#[trigger] before.index[i]).0,
                before.index[i].1,
            ) by {
                assert(term_valid(before.shard_id, before.index[i].0, before.index[i].1));
            }
        }
        assert(shard_update_acceptable(s.shard_id, updates[updates.len() - 1]));
        lemma_apply_update_valid(before, updates.last());
    }
    let after = apply_shard_updates(s, updates);
    assert forall|i: int| 0 <= i < after.index.len() implies term_valid(
        after.shard_id,
        (#[trigger] after.index[i]).0,
        after.index[i].1,
    ) by {
        assert(good(after.index[i].0, after.index[i].1));
    }
}

} // verus!
