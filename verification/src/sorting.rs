//! Lists kept in the order of a byte-string key.
//!
//! Sorting is stable: values with the same key stay in the order in which
//! they came. A list that is ordered and holds each key once is the only such
//! list of its values.

use vstd::prelude::*;

use crate::bytes::{compare_bytes, lemma_lex_total, lemma_lex_transitive, lex_less, Order};
use crate::ordered_map::{
    assoc_get, has_key, index_of_key, keys_increasing, lemma_canonical, lemma_get_at,
};

verus! {

/// A value that is ordered and found by a byte-string key of its view.
pub trait Keyed: View + Sized {
    /// The key of a value.
    spec fn key_of(value: Self::V) -> Seq<u8>;

    /// Borrows the key of the value.
    fn key_bytes(&self) -> (bytes: &[u8])
        ensures
            bytes@ == Self::key_of(self@),
    ;
}

/// The views of a list of values.
pub open spec fn views<T: View>(s: Seq<T>) -> Seq<T::V> {
    s.map_values(|t: T| t@)
}

/// The key of the views of `T`, as a function.
pub open spec fn key_fn<T: Keyed>() -> spec_fn(T::V) -> Seq<u8> {
    |v: T::V| T::key_of(v)
}

/// Whether one of the values has the key `k`.
pub open spec fn has_key_by<A>(s: Seq<A>, k: Seq<u8>, key: spec_fn(A) -> Seq<u8>) -> bool {
    exists|i: int| 0 <= i < s.len() && key(#[trigger] s[i]) == k
}

/// The list with `x` put behind the last value whose key is not greater than
/// that of `x`.
pub open spec fn insert_by<A>(s: Seq<A>, x: A, key: spec_fn(A) -> Seq<u8>) -> Seq<A>
    decreases s.len(),
{
    if s.len() > 0 && lex_less(key(x), key(s.last())) {
        insert_by(s.drop_last(), x, key).push(s.last())
    } else {
        s.push(x)
    }
}

/// The values in the order of their keys; those with one key stay in the
/// order in which they came.
pub open spec fn sort_by<A>(s: Seq<A>, key: spec_fn(A) -> Seq<u8>) -> Seq<A>
    decreases s.len(),
{
    if s.len() == 0 {
        s
    } else {
        insert_by(sort_by(s.drop_last(), key), s.last(), key)
    }
}

/// Whether the values stand in the order of their keys.
pub open spec fn ordered_by<A>(s: Seq<A>, key: spec_fn(A) -> Seq<u8>) -> bool {
    forall|i: int, j: int|
        0 <= i < j < s.len() ==> !lex_less(key(#[trigger] s[j]), key(#[trigger] s[i]))
}

/// Whether no two values have the same key.
pub open spec fn distinct_by<A>(s: Seq<A>, key: spec_fn(A) -> Seq<u8>) -> bool {
    forall|i: int, j: int| 0 <= i < j < s.len() ==> key(#[trigger] s[i]) != key(#[trigger] s[j])
}

/// One more value has the key exactly where it is the new one's or one of
/// the old ones has it.
pub proof fn lemma_has_key_push<A>(s: Seq<A>, z: A, q: Seq<u8>, key: spec_fn(A) -> Seq<u8>)
    ensures
        has_key_by(s.push(z), q, key) <==> has_key_by(s, q, key) || key(z) == q,
{
    let t = s.push(z);
    if has_key_by(t, q, key) {
        let i = choose|i: int| 0 <= i < t.len() && key(#[trigger] t[i]) == q;
        if i < s.len() {
            assert(s[i] == t[i]);
        }
    }
    if has_key_by(s, q, key) {
        let i = choose|i: int| 0 <= i < s.len() && key(#[trigger] s[i]) == q;
        assert(t[i] == s[i]);
    }
    if key(z) == q {
        assert(t[s.len() as int] == z);
    }
}

/// Putting a value at its place adds its key and no other.
pub proof fn lemma_insert_has_key<A>(s: Seq<A>, a: A, q: Seq<u8>, key: spec_fn(A) -> Seq<u8>)
    ensures
        has_key_by(insert_by(s, a, key), q, key) <==> has_key_by(s, q, key) || key(a) == q,
    decreases s.len(),
{
    if s.len() > 0 && lex_less(key(a), key(s.last())) {
        let front = s.drop_last();
        lemma_insert_has_key(front, a, q, key);
        lemma_has_key_push(insert_by(front, a, key), s.last(), q, key);
        lemma_has_key_push(front, s.last(), q, key);
        assert(front.push(s.last()) =~= s);
    } else {
        lemma_has_key_push(s, a, q, key);
    }
}

/// Sorting keeps the keys.
pub proof fn lemma_sort_has_key<A>(s: Seq<A>, q: Seq<u8>, key: spec_fn(A) -> Seq<u8>)
    ensures
        has_key_by(sort_by(s, key), q, key) <==> has_key_by(s, q, key),
    decreases s.len(),
{
    if s.len() > 0 {
        let front = s.drop_last();
        lemma_sort_has_key(front, q, key);
        lemma_insert_has_key(sort_by(front, key), s.last(), q, key);
        lemma_has_key_push(front, s.last(), q, key);
        assert(front.push(s.last()) =~= s);
    }
}

/// Whether `p` is the place at which `a` is put into `s`: the value before it
/// is not greater, and all from it on are greater.
pub open spec fn is_place<A>(s: Seq<A>, a: A, key: spec_fn(A) -> Seq<u8>, p: int) -> bool {
    &&& 0 <= p <= s.len()
    &&& p > 0 ==> !lex_less(key(a), key(s[p - 1]))
    &&& forall|j: int| p <= j < s.len() ==> lex_less(key(a), key(#[trigger] s[j]))
}

/// Putting a value at its place inserts it at one place of the list.
pub proof fn lemma_insert_place<A>(s: Seq<A>, a: A, key: spec_fn(A) -> Seq<u8>) -> (p: int)
    ensures
        is_place(s, a, key, p),
        insert_by(s, a, key) == s.insert(p, a),
    decreases s.len(),
{
    if s.len() > 0 && lex_less(key(a), key(s.last())) {
        let front = s.drop_last();
        let p = lemma_insert_place(front, a, key);
        assert(front.insert(p, a).push(s.last()) =~= s.insert(p, a));
        assert forall|j: int| p <= j < s.len() implies lex_less(key(a), key(#[trigger] s[j])) by {
            if j < front.len() {
                assert(front[j] == s[j]);
            }
        }
        if p > 0 {
            assert(front[p - 1] == s[p - 1]);
        }
        p
    } else {
        let p = s.len() as int;
        assert(s.push(a) =~= s.insert(p, a));
        p
    }
}

/// Putting a value at its place keeps an ordered list ordered.
pub proof fn lemma_insert_ordered<A>(s: Seq<A>, a: A, key: spec_fn(A) -> Seq<u8>)
    requires
        ordered_by(s, key),
    ensures
        ordered_by(insert_by(s, a, key), key),
{
    let p = lemma_insert_place(s, a, key);
    let t = s.insert(p, a);
    assert forall|i: int, j: int| 0 <= i < j < t.len() implies !lex_less(
        key(#[trigger] t[j]),
        key(#[trigger] t[i]),
    ) by {
        if j < p {
            assert(t[i] == s[i] && t[j] == s[j]);
        } else if j == p {
            assert(t[i] == s[i]);
            if i < p - 1 {
                assert(!lex_less(key(s[p - 1]), key(s[i])));
            }
            if lex_less(key(a), key(s[i])) {
                lemma_lex_total(key(s[p - 1]), key(a));
                lemma_lex_total(key(s[p - 1]), key(s[i]));
                if key(s[p - 1]) != key(a) && key(s[p - 1]) != key(s[i]) {
                    lemma_lex_transitive(key(s[p - 1]), key(a), key(s[i]));
                }
            }
        } else if i < p {
            assert(t[i] == s[i] && t[j] == s[j - 1]);
        } else if i == p {
            assert(t[j] == s[j - 1]);
            lemma_lex_total(key(a), key(s[j - 1]));
        } else {
            assert(t[i] == s[i - 1] && t[j] == s[j - 1]);
        }
    }
}

/// The sorted list is ordered.
pub proof fn lemma_sort_ordered<A>(s: Seq<A>, key: spec_fn(A) -> Seq<u8>)
    ensures
        ordered_by(sort_by(s, key), key),
    decreases s.len(),
{
    if s.len() > 0 {
        lemma_sort_ordered(s.drop_last(), key);
        lemma_insert_ordered(sort_by(s.drop_last(), key), s.last(), key);
    }
}

/// Sorting a list that is ordered changes nothing.
pub proof fn lemma_sort_of_ordered<A>(s: Seq<A>, key: spec_fn(A) -> Seq<u8>)
    requires
        ordered_by(s, key),
    ensures
        sort_by(s, key) == s,
    decreases s.len(),
{
    if s.len() > 0 {
        let front = s.drop_last();
        assert(ordered_by(front, key)) by {
            assert forall|i: int, j: int| 0 <= i < j < front.len() implies !lex_less(
                key(#[trigger] front[j]),
                key(#[trigger] front[i]),
            ) by {
                assert(front[i] == s[i] && front[j] == s[j]);
            }
        }
        lemma_sort_of_ordered(front, key);
        if front.len() > 0 {
            assert(front.last() == s[s.len() - 2]);
            assert(!lex_less(key(s[s.len() - 1]), key(s[s.len() - 2])));
        }
        assert(front.push(s.last()) =~= s);
    }
}

/// Sorting rearranges: the sorted list holds the same values as often.
pub proof fn lemma_sort_permutes<A>(s: Seq<A>, key: spec_fn(A) -> Seq<u8>)
    ensures
        sort_by(s, key).to_multiset() == s.to_multiset(),
    decreases s.len(),
{
    if s.len() > 0 {
        let front = s.drop_last();
        let sorted = sort_by(front, key);
        lemma_sort_permutes(front, key);
        let p = lemma_insert_place(sorted, s.last(), key);
        vstd::seq_lib::to_multiset_insert(sorted, p, s.last());
        assert(front.push(s.last()) =~= s);
        vstd::seq_lib::to_multiset_build(front, s.last());
    }
}

/// Sorting twice is sorting once.
pub proof fn lemma_sort_twice<A>(s: Seq<A>, key: spec_fn(A) -> Seq<u8>)
    ensures
        sort_by(sort_by(s, key), key) == sort_by(s, key),
{
    lemma_sort_ordered(s, key);
    lemma_sort_of_ordered(sort_by(s, key), key);
}

/// Values with different keys may be put at their places in either order.
pub proof fn lemma_insert_commute<A>(s: Seq<A>, a: A, b: A, key: spec_fn(A) -> Seq<u8>)
    requires
        key(a) != key(b),
    ensures
        insert_by(insert_by(s, a, key), b, key) == insert_by(insert_by(s, b, key), a, key),
    decreases s.len(),
{
    let ka = key(a);
    let kb = key(b);
    lemma_lex_total(ka, kb);
    if s.len() == 0 {
        assert(s.push(a).drop_last() =~= s);
        assert(s.push(b).drop_last() =~= s);
    } else {
        let z = s.last();
        let kz = key(z);
        let front = s.drop_last();
        let a_low = lex_less(ka, kz);
        let b_low = lex_less(kb, kz);
        if a_low && b_low {
            lemma_insert_commute(front, a, b, key);
            let ia = insert_by(front, a, key);
            let ib = insert_by(front, b, key);
            assert(ia.push(z).drop_last() =~= ia);
            assert(ib.push(z).drop_last() =~= ib);
        } else if a_low && !b_low {
            let ia = insert_by(front, a, key);
            assert(ia.push(z).drop_last() =~= ia);
            assert(s.push(b).drop_last() =~= s);
            lemma_lex_total(kb, kz);
            if kb != kz {
                lemma_lex_transitive(ka, kz, kb);
            }
        } else if !a_low && b_low {
            let ib = insert_by(front, b, key);
            assert(ib.push(z).drop_last() =~= ib);
            assert(s.push(a).drop_last() =~= s);
            lemma_lex_total(ka, kz);
            if ka != kz {
                lemma_lex_transitive(kb, kz, ka);
            }
        } else {
            assert(s.push(a).drop_last() =~= s);
            assert(s.push(b).drop_last() =~= s);
        }
    }
}

/// One more value keeps the keys distinct exactly where its key is new.
pub proof fn lemma_distinct_push<A>(s: Seq<A>, z: A, key: spec_fn(A) -> Seq<u8>)
    ensures
        distinct_by(s.push(z), key) <==> distinct_by(s, key) && !has_key_by(s, key(z), key),
{
    let t = s.push(z);
    if distinct_by(t, key) {
        assert forall|i: int, j: int| 0 <= i < j < s.len() implies key(#[trigger] s[i]) != key(
            #[trigger] s[j],
        ) by {
            assert(t[i] == s[i] && t[j] == s[j]);
        }
        if has_key_by(s, key(z), key) {
            let i = choose|i: int| 0 <= i < s.len() && key(#[trigger] s[i]) == key(z);
            assert(t[i] == s[i]);
            assert(t[s.len() as int] == z);
        }
    }
    if distinct_by(s, key) && !has_key_by(s, key(z), key) {
        assert forall|i: int, j: int| 0 <= i < j < t.len() implies key(#[trigger] t[i]) != key(
            #[trigger] t[j],
        ) by {
            assert(t[i] == s[i]);
            if j < s.len() {
                assert(t[j] == s[j]);
            }
        }
    }
}

/// Putting a value with a new key at its place keeps the keys distinct.
pub proof fn lemma_insert_distinct<A>(s: Seq<A>, a: A, key: spec_fn(A) -> Seq<u8>)
    requires
        distinct_by(s, key),
        !has_key_by(s, key(a), key),
    ensures
        distinct_by(insert_by(s, a, key), key),
    decreases s.len(),
{
    if s.len() > 0 && lex_less(key(a), key(s.last())) {
        let front = s.drop_last();
        let z = s.last();
        assert(front.push(z) =~= s);
        lemma_distinct_push(front, z, key);
        lemma_has_key_push(front, z, key(a), key);
        lemma_insert_distinct(front, a, key);
        lemma_insert_has_key(front, a, key(z), key);
        lemma_distinct_push(insert_by(front, a, key), z, key);
    } else {
        lemma_distinct_push(s, a, key);
    }
}

/// Sorting keeps the keys distinct.
pub proof fn lemma_sort_distinct<A>(s: Seq<A>, key: spec_fn(A) -> Seq<u8>)
    requires
        distinct_by(s, key),
    ensures
        distinct_by(sort_by(s, key), key),
    decreases s.len(),
{
    if s.len() > 0 {
        let front = s.drop_last();
        assert(front.push(s.last()) =~= s);
        lemma_distinct_push(front, s.last(), key);
        lemma_sort_distinct(front, key);
        lemma_sort_has_key(front, key(s.last()), key);
        lemma_insert_distinct(sort_by(front, key), s.last(), key);
    }
}

/// The first value with the key `k`, where there is one.
pub open spec fn find_by<A>(s: Seq<A>, k: Seq<u8>, key: spec_fn(A) -> Seq<u8>) -> Option<A>
    decreases s.len(),
{
    if s.len() == 0 {
        None
    } else {
        match find_by(s.drop_last(), k, key) {
            Some(x) => Some(x),
            None => if key(s.last()) == k {
                Some(s.last())
            } else {
                None
            },
        }
    }
}

/// A value is found exactly where one has the key, and what is found has it.
pub proof fn lemma_find_has_key<A>(s: Seq<A>, k: Seq<u8>, key: spec_fn(A) -> Seq<u8>)
    ensures
        find_by(s, k, key) is Some <==> has_key_by(s, k, key),
        find_by(s, k, key) is Some ==> key(find_by(s, k, key)->0) == k,
    decreases s.len(),
{
    if s.len() > 0 {
        let front = s.drop_last();
        lemma_find_has_key(front, k, key);
        lemma_has_key_push(front, s.last(), k, key);
        assert(front.push(s.last()) =~= s);
    }
}

/// What is found in a list with one more value.
pub proof fn lemma_find_push<A>(s: Seq<A>, z: A, k: Seq<u8>, key: spec_fn(A) -> Seq<u8>)
    ensures
        find_by(s.push(z), k, key) == (match find_by(s, k, key) {
            Some(x) => Some(x),
            None => if key(z) == k {
                Some(z)
            } else {
                None
            },
        }),
{
    assert(s.push(z).drop_last() =~= s);
}

/// In a list of distinct keys every value is found by its key.
pub proof fn lemma_find_at<A>(s: Seq<A>, i: int, key: spec_fn(A) -> Seq<u8>)
    requires
        distinct_by(s, key),
        0 <= i < s.len(),
    ensures
        find_by(s, key(s[i]), key) == Some(s[i]),
    decreases s.len(),
{
    let front = s.drop_last();
    assert(front.push(s.last()) =~= s);
    lemma_distinct_push(front, s.last(), key);
    if i < s.len() - 1 {
        assert(front[i] == s[i]);
        lemma_find_at(front, i, key);
    } else {
        lemma_find_has_key(front, key(s[i]), key);
    }
}

/// What is found after a value with a new key is put at its place.
pub proof fn lemma_find_insert<A>(s: Seq<A>, a: A, k: Seq<u8>, key: spec_fn(A) -> Seq<u8>)
    requires
        !has_key_by(s, key(a), key),
    ensures
        find_by(insert_by(s, a, key), k, key) == (if key(a) == k {
            Some(a)
        } else {
            find_by(s, k, key)
        }),
    decreases s.len(),
{
    lemma_find_has_key(s, k, key);
    if s.len() > 0 && lex_less(key(a), key(s.last())) {
        let front = s.drop_last();
        let z = s.last();
        assert(front.push(z) =~= s);
        lemma_has_key_push(front, z, key(a), key);
        lemma_find_insert(front, a, k, key);
        lemma_find_push(insert_by(front, a, key), z, k, key);
        lemma_find_push(front, z, k, key);
    } else {
        lemma_find_push(s, a, k, key);
    }
}

/// Sorting a list of distinct keys changes nothing of what is found.
pub proof fn lemma_find_sort<A>(s: Seq<A>, k: Seq<u8>, key: spec_fn(A) -> Seq<u8>)
    requires
        distinct_by(s, key),
    ensures
        find_by(sort_by(s, key), k, key) == find_by(s, k, key),
    decreases s.len(),
{
    if s.len() > 0 {
        let front = s.drop_last();
        let z = s.last();
        assert(front.push(z) =~= s);
        lemma_distinct_push(front, z, key);
        lemma_find_sort(front, k, key);
        lemma_sort_has_key(front, key(z), key);
        lemma_find_insert(sort_by(front, key), z, k, key);
        lemma_find_push(front, z, k, key);
        lemma_find_has_key(front, k, key);
    }
}

/// The list as an association list: every value behind its key.
pub open spec fn keyed_pairs<A>(s: Seq<A>, key: spec_fn(A) -> Seq<u8>) -> Seq<(Seq<u8>, A)> {
    s.map_values(|x: A| (key(x), x))
}

/// An ordered list of distinct keys is an association list in key order, and
/// gives for every key what is found under it.
pub proof fn lemma_keyed_pairs<A>(s: Seq<A>, key: spec_fn(A) -> Seq<u8>)
    requires
        ordered_by(s, key),
        distinct_by(s, key),
    ensures
        keys_increasing(keyed_pairs(s, key)),
        forall|k: Seq<u8>| #[trigger] assoc_get(keyed_pairs(s, key), k) == find_by(s, k, key),
{
    let pairs = keyed_pairs(s, key);
    assert forall|i: int, j: int| 0 <= i < j < pairs.len() implies lex_less(
        #[trigger] pairs[i].0,
        #[trigger] pairs[j].0,
    ) by {
        assert(!lex_less(key(s[j]), key(s[i])));
        assert(key(s[i]) != key(s[j]));
        lemma_lex_total(key(s[i]), key(s[j]));
    }
    assert forall|k: Seq<u8>| #[trigger] assoc_get(pairs, k) == find_by(s, k, key) by {
        lemma_find_has_key(s, k, key);
        if has_key(pairs, k) {
            let i = index_of_key(pairs, k);
            assert(key(s[i]) == k);
            lemma_get_at(pairs, i);
            lemma_find_at(s, i, key);
        } else if has_key_by(s, k, key) {
            let i = choose|i: int| 0 <= i < s.len() && key(#[trigger] s[i]) == k;
            assert(pairs[i].0 == k);
        }
    }
}

/// Two ordered lists of distinct keys in which the same is found under every
/// key are the same list.
pub proof fn lemma_sorted_canonical<A>(a: Seq<A>, b: Seq<A>, key: spec_fn(A) -> Seq<u8>)
    requires
        ordered_by(a, key),
        distinct_by(a, key),
        ordered_by(b, key),
        distinct_by(b, key),
        forall|k: Seq<u8>| find_by(a, k, key) == find_by(b, k, key),
    ensures
        a == b,
{
    let pa = keyed_pairs(a, key);
    let pb = keyed_pairs(b, key);
    lemma_keyed_pairs(a, key);
    lemma_keyed_pairs(b, key);
    assert forall|k: Seq<u8>| assoc_get(pa, k) == assoc_get(pb, k) by {
        assert(find_by(a, k, key) == find_by(b, k, key));
    }
    lemma_canonical(pa, pb);
    assert(a.len() == pa.len() && b.len() == pb.len());
    assert forall|i: int| 0 <= i < a.len() implies a[i] == b[i] by {
        assert(pa[i].1 == a[i] && pb[i].1 == b[i]);
    }
    assert(a =~= b);
}

/// Whether `t` is `s` with every value replaced by what `f` makes of it.
pub open spec fn is_mapped<A, B>(s: Seq<A>, t: Seq<B>, f: spec_fn(A) -> B) -> bool {
    s.len() == t.len() && forall|i: int| 0 <= i < s.len() ==> #[trigger] t[i] == f(s[i])
}

/// What `f` makes of an option.
pub open spec fn map_option<A, B>(o: Option<A>, f: spec_fn(A) -> B) -> Option<B> {
    match o {
        Some(x) => Some(f(x)),
        None => None,
    }
}

/// A list whose values are replaced by values of the same keys keeps its
/// order and its distinctness, and under every key is found what was made of
/// the value that was found.
pub proof fn lemma_mapped<A, B>(
    s: Seq<A>,
    t: Seq<B>,
    f: spec_fn(A) -> B,
    key: spec_fn(A) -> Seq<u8>,
    new_key: spec_fn(B) -> Seq<u8>,
)
    requires
        is_mapped(s, t, f),
        forall|x: A| #[trigger] new_key(f(x)) == key(x),
    ensures
        ordered_by(s, key) ==> ordered_by(t, new_key),
        distinct_by(s, key) ==> distinct_by(t, new_key),
        forall|k: Seq<u8>| #[trigger] find_by(t, k, new_key) == map_option(find_by(s, k, key), f),
    decreases s.len(),
{
    if ordered_by(s, key) {
        assert forall|i: int, j: int| 0 <= i < j < t.len() implies !lex_less(
            new_key(#[trigger] t[j]),
            new_key(#[trigger] t[i]),
        ) by {
            assert(t[i] == f(s[i]) && t[j] == f(s[j]));
            assert(!lex_less(key(s[j]), key(s[i])));
        }
    }
    if distinct_by(s, key) {
        assert forall|i: int, j: int| 0 <= i < j < t.len() implies new_key(#[trigger] t[i])
            != new_key(#[trigger] t[j]) by {
            assert(t[i] == f(s[i]) && t[j] == f(s[j]));
            assert(key(s[i]) != key(s[j]));
        }
    }
    if s.len() > 0 {
        let fs = s.drop_last();
        let ft = t.drop_last();
        assert(is_mapped(fs, ft, f)) by {
            assert forall|i: int| 0 <= i < fs.len() implies #[trigger] ft[i] == f(fs[i]) by {
                assert(ft[i] == t[i] && fs[i] == s[i]);
            }
        }
        lemma_mapped(fs, ft, f, key, new_key);
        assert(t.last() == f(s.last())) by {
            assert(t[t.len() - 1] == f(s[s.len() - 1]));
        }
        assert forall|k: Seq<u8>| #[trigger]
            find_by(t, k, new_key) == map_option(find_by(s, k, key), f) by {
            assert(find_by(ft, k, new_key) == map_option(find_by(fs, k, key), f));
        }
    } else {
        assert forall|k: Seq<u8>| #[trigger]
            find_by(t, k, new_key) == map_option(find_by(s, k, key), f) by {}
    }
}

/// Replacing a value by one of the same key keeps the order and the
/// distinctness of the list, and changes what is found under that key only.
pub proof fn lemma_update_same_key<A>(s: Seq<A>, i: int, v: A, key: spec_fn(A) -> Seq<u8>)
    requires
        0 <= i < s.len(),
        key(v) == key(s[i]),
    ensures
        ordered_by(s, key) ==> ordered_by(s.update(i, v), key),
        distinct_by(s, key) ==> distinct_by(s.update(i, v), key),
        distinct_by(s, key) ==> forall|k: Seq<u8>| #[trigger]
            find_by(s.update(i, v), k, key) == (if k == key(v) {
                Some(v)
            } else {
                find_by(s, k, key)
            }),
{
    let t = s.update(i, v);
    assert forall|x: int| 0 <= x < s.len() implies key(#[trigger] t[x]) == key(s[x]) by {}
    if ordered_by(s, key) {
        assert forall|x: int, y: int| 0 <= x < y < t.len() implies !lex_less(
            key(#[trigger] t[y]),
            key(#[trigger] t[x]),
        ) by {
            assert(!lex_less(key(s[y]), key(s[x])));
        }
    }
    if distinct_by(s, key) {
        assert forall|x: int, y: int| 0 <= x < y < t.len() implies key(#[trigger] t[x]) != key(
            #[trigger] t[y],
        ) by {
            assert(key(s[x]) != key(s[y]));
        }
        assert forall|k: Seq<u8>| #[trigger]
            find_by(t, k, key) == (if k == key(v) {
                Some(v)
            } else {
                find_by(s, k, key)
            }) by {
            lemma_find_has_key(t, k, key);
            lemma_find_has_key(s, k, key);
            if has_key_by(t, k, key) {
                let x = choose|x: int| 0 <= x < t.len() && key(#[trigger] t[x]) == k;
                lemma_find_at(t, x, key);
                assert(key(s[x]) == k);
                lemma_find_at(s, x, key);
                if x != i {
                    assert(key(s[x]) != key(s[i]));
                }
            } else if has_key_by(s, k, key) {
                let x = choose|x: int| 0 <= x < s.len() && key(#[trigger] s[x]) == k;
                assert(key(t[x]) == k);
            }
        }
    }
}

fn key_before<T: Keyed>(a: &T, b: &T) -> (before: bool)
    ensures
        before == lex_less(T::key_of(a@), T::key_of(b@)),
{
    proof {
        lemma_lex_total(T::key_of(a@), T::key_of(b@));
    }
    match compare_bytes(a.key_bytes(), b.key_bytes()) {
        Order::Before => true,
        _ => false,
    }
}

/// Sorts the values by their keys, keeping the order of those that share one.
pub fn sort_by_key<T: Keyed>(values: &mut Vec<T>)
    ensures
        views(final(values)@) == sort_by(views(old(values)@), key_fn::<T>()),
{
    let ghost key = key_fn::<T>();
    let ghost input = views(values@);
    let n: usize = values.len();
    let mut i: usize = 0;
    assert(views(values@).subrange(0, 0) =~= sort_by(input.subrange(0, 0), key));
    while i < n
        invariant
            i <= n,
            n == values@.len(),
            input.len() == n,
            key == key_fn::<T>(),
            views(values@).subrange(0, i as int) == sort_by(input.subrange(0, i as int), key),
            views(values@).subrange(i as int, n as int) == input.subrange(i as int, n as int),
        decreases n - i,
    {
        let ghost before = views(values@);
        let ghost sorted = before.subrange(0, i as int);
        let moved = values.remove(i);
        let ghost a = moved@;
        proof {
            assert(a == before[i as int]);
            assert(before[i as int] == before.subrange(i as int, n as int)[0]);
            assert(a == input[i as int]);
            assert(views(values@) =~= before.remove(i as int));
        }
        let mut j: usize = i;
        proof {
            assert(sorted.subrange(0, i as int) =~= sorted);
            assert(insert_by(sorted, a, key) + sorted.subrange(i as int, i as int) =~= insert_by(
                sorted,
                a,
                key,
            ));
        }
        while j > 0 && key_before(&moved, &values[j - 1])
            invariant
                j <= i,
                i < n,
                before.len() == n,
                sorted.len() == i,
                values@.len() == n - 1,
                a == moved@,
                key == key_fn::<T>(),
                views(values@) == before.remove(i as int),
                sorted == before.subrange(0, i as int),
                insert_by(sorted, a, key) == insert_by(sorted.subrange(0, j as int), a, key)
                    + sorted.subrange(j as int, i as int),
            decreases j,
        {
            proof {
                let head = sorted.subrange(0, j as int);
                assert(head.last() == views(values@)[j - 1]);
                assert(head.drop_last() =~= sorted.subrange(0, j - 1));
                assert(insert_by(head, a, key) == insert_by(head.drop_last(), a, key).push(
                    head.last(),
                ));
                assert(insert_by(sorted.subrange(0, j - 1), a, key).push(head.last())
                    + sorted.subrange(j as int, i as int) =~= insert_by(
                    sorted.subrange(0, j - 1),
                    a,
                    key,
                ) + sorted.subrange(j - 1, i as int));
            }
            j -= 1;
        }
        proof {
            let head = sorted.subrange(0, j as int);
            if j > 0 {
                assert(head.last() == views(values@)[j - 1]);
            }
            assert(insert_by(head, a, key) == head.push(a));
        }
        values.insert(j, moved);
        proof {
            let now = views(values@);
            assert(now =~= before.remove(i as int).insert(j as int, a));
            assert(now.subrange(0, i + 1) =~= sorted.subrange(0, j as int).push(a)
                + sorted.subrange(j as int, i as int));
            let prefix = input.subrange(0, i + 1);
            assert(prefix.drop_last() =~= input.subrange(0, i as int));
            assert(prefix.last() == a);
            let tail = now.subrange(i + 1, n as int);
            let wanted = input.subrange(i + 1, n as int);
            assert forall|k: int| 0 <= k < tail.len() implies #[trigger] tail[k] == wanted[k] by {
                assert(now[i + 1 + k] == before[i + 1 + k]);
                assert(before[i + 1 + k] == before.subrange(i as int, n as int)[k + 1]);
            }
            assert(tail =~= wanted);
        }
        i += 1;
    }
    proof {
        assert(views(values@).subrange(0, n as int) =~= views(values@));
        assert(input.subrange(0, n as int) =~= input);
    }
}

} // verus!
