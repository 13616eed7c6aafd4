//! A map from byte-string keys to values, kept in key order.
//!
//! Iteration order is the lexicographic order of the keys' bytes, the same on
//! every replica, so that two equal maps are laid out identically.

use vstd::prelude::*;

use crate::bytes::{compare_bytes, lemma_lex_total, lemma_lex_transitive, lex_less, Order};

verus! {

/// A key that is ordered and told apart by a byte string.
pub trait ByteKey: Sized {
    /// The bytes that stand for the key.
    spec fn key_bytes(&self) -> Seq<u8>;

    /// Borrows the bytes of the key.
    fn borrow_bytes(&self) -> (bytes: &[u8])
        ensures
            bytes@ == self.key_bytes(),
    ;

    /// Makes a copy of the key.
    fn copy_key(&self) -> (key: Self)
        ensures
            key == *self,
    ;
}

impl ByteKey for String {
    open spec fn key_bytes(&self) -> Seq<u8> {
        vstd::utf8::encode_utf8(self@)
    }

    fn borrow_bytes(&self) -> (bytes: &[u8]) {
        self.as_str().as_bytes()
    }

    fn copy_key(&self) -> (key: Self) {
        self.clone()
    }
}

impl ByteKey for [u8; 32] {
    open spec fn key_bytes(&self) -> Seq<u8> {
        self@
    }

    fn borrow_bytes(&self) -> (bytes: &[u8]) {
        self.as_slice()
    }

    fn copy_key(&self) -> (key: Self) {
        *self
    }
}

/// Whether the keys of an association list are strictly increasing.
pub open spec fn keys_increasing<V>(s: Seq<(Seq<u8>, V)>) -> bool {
    forall|i: int, j: int| 0 <= i < j < s.len() ==> lex_less(#[trigger] s[i].0, #[trigger] s[j].0)
}

/// Whether `key` occurs in the association list.
pub open spec fn has_key<V>(s: Seq<(Seq<u8>, V)>, key: Seq<u8>) -> bool {
    exists|i: int| 0 <= i < s.len() && #[trigger] s[i].0 == key
}

/// An index at which `key` occurs, where it does.
pub open spec fn index_of_key<V>(s: Seq<(Seq<u8>, V)>, key: Seq<u8>) -> int {
    choose|i: int| 0 <= i < s.len() && #[trigger] s[i].0 == key
}

/// The map that an association list stands for.
pub open spec fn assoc_map<V>(s: Seq<(Seq<u8>, V)>) -> Map<Seq<u8>, V> {
    Map::new(|k: Seq<u8>| has_key(s, k), |k: Seq<u8>| s[index_of_key(s, k)].1)
}

/// In an increasing list a key occurs at one index only.
pub proof fn lemma_key_index_unique<V>(s: Seq<(Seq<u8>, V)>, i: int, j: int)
    requires
        keys_increasing(s),
        0 <= i < s.len(),
        0 <= j < s.len(),
        s[i].0 == s[j].0,
    ensures
        i == j,
{
    lemma_lex_total(s[i].0, s[j].0);
}

/// The map of an increasing list holds each of its pairs.
pub proof fn lemma_assoc_map_at<V>(s: Seq<(Seq<u8>, V)>, i: int)
    requires
        keys_increasing(s),
        0 <= i < s.len(),
    ensures
        assoc_map(s).dom().contains(s[i].0),
        assoc_map(s)[s[i].0] == s[i].1,
{
    assert(has_key(s, s[i].0));
    lemma_key_index_unique(s, i, index_of_key(s, s[i].0));
}

/// Whether `r` is the place of `key` among the keys: those before it are
/// smaller, those from it on are not.
pub open spec fn is_rank<V>(s: Seq<(Seq<u8>, V)>, key: Seq<u8>, r: int) -> bool {
    &&& 0 <= r <= s.len()
    &&& forall|j: int| 0 <= j < r ==> lex_less(#[trigger] s[j].0, key)
    &&& forall|j: int| r <= j < s.len() ==> !lex_less(#[trigger] s[j].0, key)
}

/// The number of keys of an increasing list that are smaller than `key`.
pub open spec fn key_rank<V>(s: Seq<(Seq<u8>, V)>, key: Seq<u8>) -> int {
    choose|r: int| is_rank(s, key, r)
}

/// The value under `key` in an association list, if there is one.
pub open spec fn assoc_get<V>(s: Seq<(Seq<u8>, V)>, key: Seq<u8>) -> Option<V> {
    if has_key(s, key) {
        Some(s[index_of_key(s, key)].1)
    } else {
        None
    }
}

/// The list with `value` under `key`: in place of the value that was there,
/// or as a new pair at the place that keeps the keys increasing.
pub open spec fn assoc_put<V>(s: Seq<(Seq<u8>, V)>, key: Seq<u8>, value: V) -> Seq<(Seq<u8>, V)> {
    if has_key(s, key) {
        s.update(index_of_key(s, key), (key, value))
    } else {
        s.insert(key_rank(s, key), (key, value))
    }
}

/// A key has one place only.
pub proof fn lemma_rank_unique<V>(s: Seq<(Seq<u8>, V)>, key: Seq<u8>, r1: int, r2: int)
    requires
        is_rank(s, key, r1),
        is_rank(s, key, r2),
    ensures
        r1 == r2,
{
    if r1 < r2 {
        assert(lex_less(s[r1].0, key));
    } else if r2 < r1 {
        assert(lex_less(s[r2].0, key));
    }
}

/// Every key has a place in an increasing list.
pub proof fn lemma_rank_exists<V>(s: Seq<(Seq<u8>, V)>, key: Seq<u8>)
    requires
        keys_increasing(s),
    ensures
        is_rank(s, key, key_rank(s, key)),
    decreases s.len(),
{
    if s.len() == 0 {
        assert(is_rank(s, key, 0));
    } else {
        let front = s.drop_last();
        assert(keys_increasing(front)) by {
            assert forall|i: int, j: int| 0 <= i < j < front.len() implies lex_less(
                #[trigger] front[i].0,
                #[trigger] front[j].0,
            ) by {
                assert(front[i] == s[i] && front[j] == s[j]);
            }
        }
        lemma_rank_exists(front, key);
        let r = key_rank(front, key);
        let last = s.len() - 1;
        if lex_less(s[last].0, key) {
            assert forall|j: int| 0 <= j < s.len() implies lex_less(#[trigger] s[j].0, key) by {
                if j < last {
                    lemma_lex_transitive(s[j].0, s[last].0, key);
                }
            }
            assert(is_rank(s, key, s.len() as int));
        } else {
            assert forall|j: int| 0 <= j < r implies lex_less(#[trigger] s[j].0, key) by {
                assert(front[j] == s[j]);
            }
            assert forall|j: int| r <= j < s.len() implies !lex_less(#[trigger] s[j].0, key) by {
                if j < last {
                    assert(front[j] == s[j]);
                }
            }
            assert(is_rank(s, key, r));
        }
    }
}

/// Whether two association lists hold the same keys at the same places.
pub open spec fn same_keys<A, B>(s: Seq<(Seq<u8>, A)>, t: Seq<(Seq<u8>, B)>) -> bool {
    &&& s.len() == t.len()
    &&& forall|i: int| 0 <= i < s.len() ==> (#[trigger] s[i]).0 == (#[trigger] t[i]).0
}

/// Lists with the same keys agree on where a key is and where it would go.
pub proof fn lemma_same_keys<A, B>(s: Seq<(Seq<u8>, A)>, t: Seq<(Seq<u8>, B)>, key: Seq<u8>)
    requires
        keys_increasing(s),
        same_keys(s, t),
    ensures
        keys_increasing(t),
        has_key(s, key) == has_key(t, key),
        has_key(s, key) ==> index_of_key(s, key) == index_of_key(t, key),
        key_rank(s, key) == key_rank(t, key),
        is_rank(s, key, key_rank(s, key)),
{
    assert forall|i: int, j: int| 0 <= i < j < t.len() implies lex_less(
        #[trigger] t[i].0,
        #[trigger] t[j].0,
    ) by {
        assert(s[i].0 == t[i].0 && s[j].0 == t[j].0);
        assert(lex_less(s[i].0, s[j].0));
    }
    if has_key(s, key) {
        let i = index_of_key(s, key);
        assert(t[i].0 == key);
        lemma_key_index_unique(t, i, index_of_key(t, key));
    }
    if has_key(t, key) {
        let i = index_of_key(t, key);
        assert(s[i].0 == key);
    }
    lemma_rank_exists(s, key);
    lemma_rank_exists(t, key);
    let r = key_rank(s, key);
    assert(is_rank(t, key, r)) by {
        assert forall|j: int| 0 <= j < r implies lex_less(#[trigger] t[j].0, key) by {
            assert(s[j].0 == t[j].0);
        }
        assert forall|j: int| r <= j < t.len() implies !lex_less(#[trigger] t[j].0, key) by {
            assert(s[j].0 == t[j].0);
        }
    }
    lemma_rank_unique(t, key, r, key_rank(t, key));
}

/// An increasing list gives each of its pairs back.
pub proof fn lemma_get_at<V>(s: Seq<(Seq<u8>, V)>, i: int)
    requires
        keys_increasing(s),
        0 <= i < s.len(),
    ensures
        has_key(s, s[i].0),
        index_of_key(s, s[i].0) == i,
        assoc_get(s, s[i].0) == Some(s[i].1),
{
    assert(has_key(s, s[i].0));
    lemma_key_index_unique(s, i, index_of_key(s, s[i].0));
}

/// Putting a value under a key keeps the list increasing, makes the key give
/// that value, and leaves every other key as it was.
pub proof fn lemma_put<V>(s: Seq<(Seq<u8>, V)>, key: Seq<u8>, value: V)
    requires
        keys_increasing(s),
    ensures
        keys_increasing(assoc_put(s, key, value)),
        forall|q: Seq<u8>| #[trigger]
            assoc_get(assoc_put(s, key, value), q) == (if q == key {
                Some(value)
            } else {
                assoc_get(s, q)
            }),
        forall|q: Seq<u8>| #[trigger]
            has_key(assoc_put(s, key, value), q) == (q == key || has_key(s, q)),
{
    let t = assoc_put(s, key, value);
    if has_key(s, key) {
        let i = index_of_key(s, key);
        assert(same_keys(s, t));
        assert forall|q: Seq<u8>| #[trigger]
            assoc_get(t, q) == (if q == key {
                Some(value)
            } else {
                assoc_get(s, q)
            }) && has_key(t, q) == (q == key || has_key(s, q)) by {
            lemma_same_keys(s, t, q);
            if has_key(s, q) {
                let j = index_of_key(s, q);
                if j == i {
                    assert(q == key);
                } else {
                    assert(t[j] == s[j]);
                    assert(q != key);
                }
            }
        }
        lemma_same_keys(s, t, key);
    } else {
        lemma_rank_exists(s, key);
        let r = key_rank(s, key);
        assert forall|j: int| r <= j < s.len() implies lex_less(key, #[trigger] s[j].0) by {
            lemma_lex_total(s[j].0, key);
            assert(s[j].0 != key);
        }
        assert forall|i: int, j: int| 0 <= i < j < t.len() implies lex_less(
            #[trigger] t[i].0,
            #[trigger] t[j].0,
        ) by {
            if j < r {
                assert(t[i] == s[i] && t[j] == s[j]);
            } else if j == r {
                assert(t[i] == s[i]);
            } else if i < r {
                assert(t[i] == s[i] && t[j] == s[j - 1]);
            } else if i == r {
                assert(t[j] == s[j - 1]);
            } else {
                assert(t[i] == s[i - 1] && t[j] == s[j - 1]);
            }
        }
        assert forall|q: Seq<u8>| #[trigger]
            assoc_get(t, q) == (if q == key {
                Some(value)
            } else {
                assoc_get(s, q)
            }) && has_key(t, q) == (q == key || has_key(s, q)) by {
            assert(t[r] == (key, value));
            if q == key {
                lemma_get_at(t, r);
            } else {
                if has_key(s, q) {
                    let j = index_of_key(s, q);
                    if j < r {
                        assert(t[j] == s[j]);
                        lemma_get_at(t, j);
                    } else {
                        assert(t[j + 1] == s[j]);
                        lemma_get_at(t, j + 1);
                    }
                }
                if has_key(t, q) {
                    let j = index_of_key(t, q);
                    if j < r {
                        assert(t[j] == s[j]);
                        assert(has_key(s, q));
                    } else {
                        assert(j != r);
                        assert(t[j] == s[j - 1]);
                        assert(has_key(s, q));
                    }
                }
            }
        }
    }
    assert forall|q: Seq<u8>| #[trigger] has_key(t, q) == (q == key || has_key(s, q)) by {
        assert(assoc_get(t, q) is Some == has_key(t, q));
        assert(assoc_get(s, q) is Some == has_key(s, q));
    }
}

/// An increasing list without its last pair is increasing, and gives what the
/// whole list gave for every key but the last.
pub proof fn lemma_drop_last<V>(s: Seq<(Seq<u8>, V)>)
    requires
        keys_increasing(s),
        s.len() > 0,
    ensures
        keys_increasing(s.drop_last()),
        forall|q: Seq<u8>| #[trigger]
            assoc_get(s.drop_last(), q) == (if q == s.last().0 {
                None
            } else {
                assoc_get(s, q)
            }),
{
    let front = s.drop_last();
    let last = s.len() - 1;
    assert forall|x: int, y: int| 0 <= x < y < front.len() implies lex_less(
        #[trigger] front[x].0,
        #[trigger] front[y].0,
    ) by {
        assert(front[x] == s[x] && front[y] == s[y]);
    }
    assert forall|q: Seq<u8>| #[trigger]
        assoc_get(front, q) == (if q == s.last().0 {
            None
        } else {
            assoc_get(s, q)
        }) by {
        if has_key(front, q) {
            let k = index_of_key(front, q);
            assert(front[k] == s[k]);
            lemma_get_at(s, k);
            lemma_get_at(front, k);
            if q == s.last().0 {
                lemma_key_index_unique(s, k, last);
            }
        } else if has_key(s, q) {
            let k = index_of_key(s, q);
            if k < last {
                assert(front[k] == s[k]);
            }
        }
    }
}

/// Two increasing lists that give the same value for every key are equal:
/// a map has one layout.
pub proof fn lemma_canonical<V>(a: Seq<(Seq<u8>, V)>, b: Seq<(Seq<u8>, V)>)
    requires
        keys_increasing(a),
        keys_increasing(b),
        forall|q: Seq<u8>| assoc_get(a, q) == assoc_get(b, q),
    ensures
        a == b,
    decreases a.len(),
{
    if a.len() == 0 {
        if b.len() > 0 {
            lemma_get_at(b, 0);
            assert(assoc_get(a, b[0].0) == assoc_get(b, b[0].0));
        }
        assert(a =~= b);
    } else if b.len() == 0 {
        lemma_get_at(a, 0);
        assert(assoc_get(a, a[0].0) == assoc_get(b, a[0].0));
    } else {
        let la = a.len() - 1;
        let lb = b.len() - 1;
        let ka = a[la].0;
        let kb = b[lb].0;
        lemma_get_at(a, la);
        lemma_get_at(b, lb);
        assert(assoc_get(a, ka) == assoc_get(b, ka));
        assert(assoc_get(a, kb) == assoc_get(b, kb));
        let j = index_of_key(b, ka);
        let i = index_of_key(a, kb);
        if j < lb {
            assert(lex_less(b[j].0, b[lb].0));
            lemma_lex_total(ka, kb);
            if i < la {
                assert(lex_less(a[i].0, a[la].0));
            }
        }
        assert(a[la] == b[lb]);
        lemma_drop_last(a);
        lemma_drop_last(b);
        assert forall|q: Seq<u8>| assoc_get(a.drop_last(), q) == assoc_get(b.drop_last(), q) by {
            assert(assoc_get(a, q) == assoc_get(b, q));
        }
        lemma_canonical(a.drop_last(), b.drop_last());
        assert(a =~= a.drop_last().push(a[la]));
        assert(b =~= b.drop_last().push(b[lb]));
    }
}

/// Putting twice under one key leaves what the second put alone leaves.
pub proof fn lemma_put_put<V>(s: Seq<(Seq<u8>, V)>, key: Seq<u8>, first: V, second: V)
    requires
        keys_increasing(s),
    ensures
        assoc_put(assoc_put(s, key, first), key, second) == assoc_put(s, key, second),
{
    let once = assoc_put(s, key, first);
    lemma_put(s, key, first);
    lemma_put(once, key, second);
    lemma_put(s, key, second);
    assert forall|q: Seq<u8>|
        assoc_get(assoc_put(once, key, second), q) == assoc_get(assoc_put(s, key, second), q) by {
        assert(assoc_get(once, q) == (if q == key {
            Some(first)
        } else {
            assoc_get(s, q)
        }));
    }
    lemma_canonical(assoc_put(once, key, second), assoc_put(s, key, second));
}

/// Puts under different keys may be made in either order.
pub proof fn lemma_put_commute<V>(s: Seq<(Seq<u8>, V)>, k1: Seq<u8>, v1: V, k2: Seq<u8>, v2: V)
    requires
        keys_increasing(s),
        k1 != k2,
    ensures
        assoc_put(assoc_put(s, k1, v1), k2, v2) == assoc_put(assoc_put(s, k2, v2), k1, v1),
{
    let a = assoc_put(s, k1, v1);
    let b = assoc_put(s, k2, v2);
    lemma_put(s, k1, v1);
    lemma_put(s, k2, v2);
    lemma_put(a, k2, v2);
    lemma_put(b, k1, v1);
    assert forall|q: Seq<u8>|
        assoc_get(assoc_put(a, k2, v2), q) == assoc_get(assoc_put(b, k1, v1), q) by {
        assert(assoc_get(a, q) == (if q == k1 {
            Some(v1)
        } else {
            assoc_get(s, q)
        }));
        assert(assoc_get(b, q) == (if q == k2 {
            Some(v2)
        } else {
            assoc_get(s, q)
        }));
    }
    lemma_canonical(assoc_put(a, k2, v2), assoc_put(b, k1, v1));
}

/// After a put every pair is the pair that was put or a pair that was there.
pub proof fn lemma_put_elements<V>(s: Seq<(Seq<u8>, V)>, key: Seq<u8>, value: V, j: int)
    requires
        keys_increasing(s),
        0 <= j < assoc_put(s, key, value).len(),
    ensures
        assoc_put(s, key, value)[j] == (key, value) || exists|i: int|
            0 <= i < s.len() && #[trigger] s[i] == assoc_put(s, key, value)[j],
{
    let t = assoc_put(s, key, value);
    lemma_put(s, key, value);
    lemma_get_at(t, j);
    let q = t[j].0;
    assert(assoc_get(t, q) == (if q == key {
        Some(value)
    } else {
        assoc_get(s, q)
    }));
    if q != key {
        let i = index_of_key(s, q);
        assert(s[i] == t[j]);
    }
}

/// Putting under a key the value that is there changes nothing.
pub proof fn lemma_put_same<V>(s: Seq<(Seq<u8>, V)>, i: int)
    requires
        keys_increasing(s),
        0 <= i < s.len(),
    ensures
        assoc_put(s, s[i].0, s[i].1) == s,
{
    lemma_get_at(s, i);
    assert(s.update(i, (s[i].0, s[i].1)) =~= s);
}

/// The list `a` after every pair of `b` is merged in, in the order of `b`:
/// under each key of `b` stands what `join` makes of the key, of what stood
/// there before and of the value of `b`.
pub open spec fn merge_assoc<V>(
    a: Seq<(Seq<u8>, V)>,
    b: Seq<(Seq<u8>, V)>,
    join: spec_fn(Seq<u8>, Option<V>, V) -> V,
) -> Seq<(Seq<u8>, V)>
    decreases b.len(),
{
    if b.len() == 0 {
        a
    } else {
        let m = merge_assoc(a, b.drop_last(), join);
        let key = b.last().0;
        assoc_put(m, key, join(key, assoc_get(m, key), b.last().1))
    }
}

/// What a merge gives for a key: what `a` gave where `b` has no value, else
/// the join of what `a` gave with the value of `b`.
pub open spec fn merged_value<V>(
    mine: Option<V>,
    theirs: Option<V>,
    key: Seq<u8>,
    join: spec_fn(Seq<u8>, Option<V>, V) -> V,
) -> Option<V> {
    match theirs {
        None => mine,
        Some(v) => Some(join(key, mine, v)),
    }
}

/// A merge of lists in key order is in key order and is made key by key.
pub proof fn lemma_merge_assoc<V>(
    a: Seq<(Seq<u8>, V)>,
    b: Seq<(Seq<u8>, V)>,
    join: spec_fn(Seq<u8>, Option<V>, V) -> V,
)
    requires
        keys_increasing(a),
        keys_increasing(b),
    ensures
        keys_increasing(merge_assoc(a, b, join)),
        forall|k: Seq<u8>| #[trigger]
            assoc_get(merge_assoc(a, b, join), k) == merged_value(
                assoc_get(a, k),
                assoc_get(b, k),
                k,
                join,
            ),
    decreases b.len(),
{
    if b.len() > 0 {
        let front = b.drop_last();
        let key = b.last().0;
        let m = merge_assoc(a, front, join);
        lemma_drop_last(b);
        lemma_merge_assoc(a, front, join);
        lemma_get_at(b, b.len() - 1);
        let value = join(key, assoc_get(m, key), b.last().1);
        lemma_put(m, key, value);
        assert forall|k: Seq<u8>| #[trigger]
            assoc_get(merge_assoc(a, b, join), k) == merged_value(
                assoc_get(a, k),
                assoc_get(b, k),
                k,
                join,
            ) by {
            assert(assoc_get(m, k) == merged_value(assoc_get(a, k), assoc_get(front, k), k, join));
            assert(assoc_get(front, k) == (if k == key {
                None
            } else {
                assoc_get(b, k)
            }));
        }
    }
}

/// Whether `good` holds of every pair of a list.
pub open spec fn all_pairs<V>(s: Seq<(Seq<u8>, V)>, good: spec_fn(Seq<u8>, V) -> bool) -> bool {
    forall|i: int| 0 <= i < s.len() ==> good((#[trigger] s[i]).0, s[i].1)
}

/// Whether `join` makes a good value of every value of `b`, with nothing and
/// with whatever good value stands under its key.
pub open spec fn joins_well<V>(
    b: Seq<(Seq<u8>, V)>,
    join: spec_fn(Seq<u8>, Option<V>, V) -> V,
    good: spec_fn(Seq<u8>, V) -> bool,
) -> bool {
    forall|i: int, mine: Option<V>|
        0 <= i < b.len() && (mine is Some ==> good(b[i].0, mine->0)) ==> good(
            b[i].0,
            #[trigger] join(b[i].0, mine, b[i].1),
        )
}

/// A merge into a list in key order whose pairs are all good leaves such a
/// list, where the join makes good values.
pub proof fn lemma_merge_assoc_keeps<V>(
    a: Seq<(Seq<u8>, V)>,
    b: Seq<(Seq<u8>, V)>,
    join: spec_fn(Seq<u8>, Option<V>, V) -> V,
    good: spec_fn(Seq<u8>, V) -> bool,
)
    requires
        keys_increasing(a),
        all_pairs(a, good),
        joins_well(b, join, good),
    ensures
        keys_increasing(merge_assoc(a, b, join)),
        all_pairs(merge_assoc(a, b, join), good),
    decreases b.len(),
{
    if b.len() > 0 {
        let front = b.drop_last();
        let key = b.last().0;
        let m = merge_assoc(a, front, join);
        assert(joins_well(front, join, good)) by {
            assert forall|i: int, mine: Option<V>|
                0 <= i < front.len() && (mine is Some ==> good(front[i].0, mine->0)) implies good(
                front[i].0,
                #[trigger] join(front[i].0, mine, front[i].1),
            ) by {
                assert(front[i] == b[i]);
            }
        }
        lemma_merge_assoc_keeps(a, front, join, good);
        let mine = assoc_get(m, key);
        if mine is Some {
            let at = index_of_key(m, key);
            assert(good(m[at].0, m[at].1));
        }
        let value = join(key, mine, b.last().1);
        assert(b[b.len() - 1] == b.last());
        assert(good(key, value));
        lemma_put(m, key, value);
        let after = assoc_put(m, key, value);
        assert forall|j: int| 0 <= j < after.len() implies good((#[trigger] after[j]).0, after[j].1) by {
            lemma_put_elements(m, key, value, j);
            if after[j] != (key, value) {
                let i = choose|i: int| 0 <= i < m.len() && #[trigger] m[i] == after[j];
                assert(good(m[i].0, m[i].1));
            }
        }
    }
}

/// Whether `join` may be regrouped under the key `k` of three lists: merging
/// the second value and then the third gives what merging the third into the
/// second and then the result does, and a third value that meets no second is
/// merged as it is after it has been joined with nothing.
pub open spec fn regroups_at<V>(
    x: Seq<(Seq<u8>, V)>,
    y: Seq<(Seq<u8>, V)>,
    z: Seq<(Seq<u8>, V)>,
    join: spec_fn(Seq<u8>, Option<V>, V) -> V,
    k: Seq<u8>,
) -> bool {
    let mine = assoc_get(x, k);
    match (assoc_get(y, k), assoc_get(z, k)) {
        (Some(second), Some(third)) => join(k, Some(join(k, mine, second)), third) == join(
            k,
            mine,
            join(k, Some(second), third),
        ),
        (None, Some(third)) => join(k, mine, third) == join(k, mine, join(k, None, third)),
        _ => true,
    }
}

/// Merges of three lists may be regrouped where the join may be under every key.
pub proof fn lemma_merge_assoc_regroup<V>(
    x: Seq<(Seq<u8>, V)>,
    y: Seq<(Seq<u8>, V)>,
    z: Seq<(Seq<u8>, V)>,
    join: spec_fn(Seq<u8>, Option<V>, V) -> V,
)
    requires
        keys_increasing(x),
        keys_increasing(y),
        keys_increasing(z),
        forall|k: Seq<u8>| regroups_at(x, y, z, join, k),
    ensures
        merge_assoc(merge_assoc(x, y, join), z, join) == merge_assoc(
            x,
            merge_assoc(y, z, join),
            join,
        ),
{
    let xy = merge_assoc(x, y, join);
    let yz = merge_assoc(y, z, join);
    let left = merge_assoc(xy, z, join);
    let right = merge_assoc(x, yz, join);
    lemma_merge_assoc(x, y, join);
    lemma_merge_assoc(y, z, join);
    lemma_merge_assoc(xy, z, join);
    lemma_merge_assoc(x, yz, join);
    assert forall|k: Seq<u8>| assoc_get(left, k) == assoc_get(right, k) by {
        assert(regroups_at(x, y, z, join, k));
        assert(assoc_get(left, k) == merged_value(assoc_get(xy, k), assoc_get(z, k), k, join));
        assert(assoc_get(xy, k) == merged_value(assoc_get(x, k), assoc_get(y, k), k, join));
        assert(assoc_get(right, k) == merged_value(assoc_get(x, k), assoc_get(yz, k), k, join));
        assert(assoc_get(yz, k) == merged_value(assoc_get(y, k), assoc_get(z, k), k, join));
    }
    lemma_canonical(left, right);
}

/// Whether `t` is `s` with every value replaced by what `f` makes of it.
pub open spec fn values_mapped<A, B>(s: Seq<(Seq<u8>, A)>, t: Seq<(Seq<u8>, B)>, f: spec_fn(A) -> B) -> bool {
    s.len() == t.len() && forall|i: int|
        0 <= i < s.len() ==> #[trigger] t[i] == (s[i].0, f(s[i].1))
}

/// A list whose values are replaced keeps its key order, and gives under
/// every key what was made of the value that it gave.
pub proof fn lemma_values_mapped<A, B>(
    s: Seq<(Seq<u8>, A)>,
    t: Seq<(Seq<u8>, B)>,
    f: spec_fn(A) -> B,
    key: Seq<u8>,
)
    requires
        keys_increasing(s),
        values_mapped(s, t, f),
    ensures
        keys_increasing(t),
        assoc_get(t, key) == (match assoc_get(s, key) {
            Some(v) => Some(f(v)),
            None => None,
        }),
{
    assert(same_keys(s, t)) by {
        assert forall|i: int| 0 <= i < s.len() implies (#[trigger] s[i]).0 == (
        #[trigger] t[i]).0 by {
            assert(t[i] == (s[i].0, f(s[i].1)));
        }
    }
    lemma_same_keys(s, t, key);
    if has_key(s, key) {
        let i = index_of_key(s, key);
        assert(t[i] == (s[i].0, f(s[i].1)));
    }
}

/// A map with keys of type `K`, held in the order of the keys' bytes.
#[derive(Clone, Debug, PartialEq, Eq)]
pub struct OrderedMap<K: ByteKey, V> {
    keys: Vec<K>,
    values: Vec<V>,
}

impl<K: ByteKey, V> View for OrderedMap<K, V> {
    type V = Map<Seq<u8>, V>;

    closed spec fn view(&self) -> Map<Seq<u8>, V> {
        assoc_map(self.entries())
    }
}

impl<K: ByteKey, V> OrderedMap<K, V> {
    /// The keys are as many as the values and strictly increasing.
    pub closed spec fn wf(&self) -> bool {
        &&& self.keys@.len() == self.values@.len()
        &&& keys_increasing(self.entries())
    }

    /// The pairs of the map in key order.
    pub closed spec fn entries(&self) -> Seq<(Seq<u8>, V)> {
        Seq::new(self.keys@.len(), |i: int| (self.keys@[i].key_bytes(), self.values@[i]))
    }

    /// The keys of the map in key order, as they are stored.
    pub closed spec fn stored_keys(&self) -> Seq<K> {
        self.keys@
    }

    /// What the well-formedness of a map says of its pairs.
    pub proof fn lemma_wf(&self)
        requires
            self.wf(),
        ensures
            keys_increasing(self.entries()),
            self@ == assoc_map(self.entries()),
            self.stored_keys().len() == self.entries().len(),
            forall|i: int|
                0 <= i < self.entries().len() ==> (#[trigger] self.stored_keys()[i]).key_bytes()
                    == self.entries()[i].0,
    {
    }

    /// Creates an empty map.
    pub fn new() -> (map: Self)
        ensures
            map.wf(),
            map.entries() == Seq::<(Seq<u8>, V)>::empty(),
            map@ == Map::<Seq<u8>, V>::empty(),
    {
        let map = OrderedMap { keys: Vec::new(), values: Vec::new() };
        proof {
            assert(map.entries() =~= Seq::<(Seq<u8>, V)>::empty());
            assert(map@ =~= Map::<Seq<u8>, V>::empty());
        }
        map
    }

    /// The number of pairs.
    pub fn len(&self) -> (n: usize)
        ensures
            n == self.entries().len(),
    {
        self.keys.len()
    }

    /// Whether the map holds no pair.
    pub fn is_empty(&self) -> (empty: bool)
        ensures
            empty == (self.entries().len() == 0),
    {
        self.keys.len() == 0
    }

    /// The key at place `i` of the key order.
    pub fn key_at(&self, i: usize) -> (key: &K)
        requires
            i < self.entries().len(),
        ensures
            key.key_bytes() == self.entries()[i as int].0,
            *key == self.stored_keys()[i as int],
    {
        &self.keys[i]
    }

    /// The value at place `i` of the key order.
    pub fn value_at(&self, i: usize) -> (value: &V)
        requires
            self.wf(),
            i < self.entries().len(),
        ensures
            *value == self.entries()[i as int].1,
    {
        &self.values[i]
    }

    /// Finds the place of `key`: where it is, or where it would be inserted.
    fn locate(&self, key: &[u8]) -> (found: (bool, usize))
        requires
            self.wf(),
        ensures
            found.1 <= self.entries().len(),
            found.0 ==> found.1 < self.entries().len() && self.entries()[found.1 as int].0 == key@,
            found.0 == has_key(self.entries(), key@),
            forall|j: int| 0 <= j < found.1 ==> lex_less(#[trigger] self.entries()[j].0, key@),
            forall|j: int|
                found.1 <= j < self.entries().len() && !(found.0 && j == found.1) ==> lex_less(
                    key@,
                    #[trigger] self.entries()[j].0,
                ),
    {
        let ghost s = self.entries();
        let mut lo: usize = 0;
        let mut hi: usize = self.keys.len();
        while lo < hi
            invariant
                self.wf(),
                s == self.entries(),
                lo <= hi <= s.len(),
                forall|j: int| 0 <= j < lo ==> lex_less(#[trigger] s[j].0, key@),
                forall|j: int| hi <= j < s.len() ==> lex_less(key@, #[trigger] s[j].0),
            decreases hi - lo,
        {
            let mid: usize = lo + (hi - lo) / 2;
            match compare_bytes(self.keys[mid].borrow_bytes(), key) {
                Order::Same => {
                    proof {
                        assert(s[mid as int].0 == key@);
                        assert forall|j: int| 0 <= j < mid implies lex_less(
                            #[trigger] s[j].0,
                            key@,
                        ) by {}
                        assert forall|j: int| mid < j < s.len() implies lex_less(
                            key@,
                            #[trigger] s[j].0,
                        ) by {}
                    }
                    return (true, mid);
                },
                Order::Before => {
                    proof {
                        assert forall|j: int| 0 <= j < mid + 1 implies lex_less(
                            #[trigger] s[j].0,
                            key@,
                        ) by {
                            if j < mid {
                                lemma_lex_transitive(s[j].0, s[mid as int].0, key@);
                            }
                        }
                    }
                    lo = mid + 1;
                },
                Order::After => {
                    proof {
                        lemma_lex_total(s[mid as int].0, key@);
                        assert forall|j: int| mid <= j < s.len() implies lex_less(
                            key@,
                            #[trigger] s[j].0,
                        ) by {
                            if j > mid {
                                lemma_lex_transitive(key@, s[mid as int].0, s[j].0);
                            }
                        }
                    }
                    hi = mid;
                },
            }
        }
        proof {
            if has_key(s, key@) {
                let i = index_of_key(s, key@);
                lemma_lex_total(s[i].0, key@);
            }
        }
        (false, lo)
    }

    /// Whether the map holds `key`.
    pub fn contains_key(&self, key: &K) -> (present: bool)
        requires
            self.wf(),
        ensures
            present == self@.dom().contains(key.key_bytes()),
    {
        let found = self.locate(key.borrow_bytes());
        found.0
    }

    /// The value under `key`, if the map holds it.
    pub fn get(&self, key: &K) -> (value: Option<&V>)
        requires
            self.wf(),
        ensures
            value is Some == self@.dom().contains(key.key_bytes()),
            value is Some ==> *value->0 == self@[key.key_bytes()],
            value is Some == has_key(self.entries(), key.key_bytes()),
            value is Some ==> assoc_get(self.entries(), key.key_bytes()) == Some(*value->0),
    {
        let found = self.locate(key.borrow_bytes());
        if found.0 {
            proof {
                lemma_assoc_map_at(self.entries(), found.1 as int);
                lemma_key_index_unique(
                    self.entries(),
                    found.1 as int,
                    index_of_key(self.entries(), key.key_bytes()),
                );
            }
            Some(&self.values[found.1])
        } else {
            None
        }
    }

    /// The value at place `i`, to be changed in place. The keys stay as they are.
    pub fn value_at_mut(&mut self, i: usize) -> (value: &mut V)
        requires
            old(self).wf(),
            i < old(self).entries().len(),
        ensures
            final(self).wf(),
            *value == old(self).entries()[i as int].1,
            final(self).entries() == old(self).entries().update(
                i as int,
                (old(self).entries()[i as int].0, *final(value)),
            ),
            final(self).stored_keys() == old(self).stored_keys(),
    {
        let ghost before = self.entries();
        let ghost keys = self.keys@;
        let ghost values = self.values@;
        let value = &mut self.values[i];
        proof {
            let changed = values.update(i as int, *final(value));
            let after = Seq::new(keys.len(), |j: int| (keys[j].key_bytes(), changed[j]));
            assert(after =~= before.update(i as int, (before[i as int].0, *final(value))));
            assert(keys_increasing(after));
        }
        value
    }

    /// Puts `value` under `key`: replaces the value that was there, or adds
    /// the pair at its place in the key order. Returns the place of the pair.
    pub fn insert(&mut self, key: K, value: V) -> (at: usize)
        requires
            old(self).wf(),
        ensures
            final(self).wf(),
            final(self).entries() == assoc_put(old(self).entries(), key.key_bytes(), value),
            final(self)@ == old(self)@.insert(key.key_bytes(), value),
            at < final(self).entries().len(),
            final(self).entries()[at as int] == (key.key_bytes(), value),
            has_key(old(self).entries(), key.key_bytes()) ==> at == index_of_key(
                old(self).entries(),
                key.key_bytes(),
            ),
            !has_key(old(self).entries(), key.key_bytes()) ==> at == key_rank(
                old(self).entries(),
                key.key_bytes(),
            ) && final(self).entries() == old(self).entries().insert(
                at as int,
                (key.key_bytes(), value),
            ),
    {
        let ghost before = self.entries();
        let ghost kb = key.key_bytes();
        let found = self.locate(key.borrow_bytes());
        let at: usize = found.1;
        if found.0 {
            proof {
                lemma_key_index_unique(before, at as int, index_of_key(before, kb));
            }
            self.values[at] = value;
            proof {
                assert(self.entries() =~= before.update(at as int, (kb, value)));
            }
        } else {
            proof {
                assert forall|j: int| at <= j < before.len() implies !lex_less(
                    #[trigger] before[j].0,
                    kb,
                ) by {
                    lemma_lex_total(before[j].0, kb);
                }
                assert(is_rank(before, kb, at as int));
                lemma_rank_exists(before, kb);
                lemma_rank_unique(before, kb, at as int, key_rank(before, kb));
            }
            self.keys.insert(at, key);
            self.values.insert(at, value);
            proof {
                assert(self.entries() =~= before.insert(at as int, (kb, value)));
            }
        }
        proof {
            let after = self.entries();
            assert(keys_increasing(after));
            assert forall|k: Seq<u8>| has_key(after, k) <==> (k == kb || has_key(before, k)) by {
                if has_key(after, k) {
                    let i = index_of_key(after, k);
                    if found.0 {
                        assert(before[i].0 == k);
                    } else if i < at {
                        assert(before[i].0 == k);
                    } else if i > at {
                        assert(before[i - 1].0 == k);
                    }
                }
                if has_key(before, k) {
                    let i = index_of_key(before, k);
                    if found.0 {
                        assert(after[i].0 == k);
                    } else if i < at {
                        assert(after[i].0 == k);
                    } else {
                        assert(after[i + 1].0 == k);
                    }
                }
                if k == kb {
                    assert(after[at as int].0 == k);
                }
            }
            assert forall|k: Seq<u8>| has_key(after, k) implies assoc_map(after)[k] == assoc_map(
                before,
            ).insert(kb, value)[k] by {
                let i = index_of_key(after, k);
                lemma_assoc_map_at(after, i);
                if k == kb {
                    lemma_key_index_unique(after, i, at as int);
                } else {
                    let j = index_of_key(before, k);
                    lemma_assoc_map_at(before, j);
                    if found.0 {
                        lemma_key_index_unique(after, i, j);
                    } else if j < at {
                        lemma_key_index_unique(after, i, j);
                    } else {
                        lemma_key_index_unique(after, i, j + 1);
                    }
                }
            }
            assert(self@ =~= old(self)@.insert(kb, value));
        }
        at
    }

    /// The place of `key` in the key order, if the map holds it.
    pub fn position(&self, key: &K) -> (at: Option<usize>)
        requires
            self.wf(),
        ensures
            at is Some == has_key(self.entries(), key.key_bytes()),
            at is Some ==> at->0 < self.entries().len() && at->0 == index_of_key(
                self.entries(),
                key.key_bytes(),
            ) && self.entries()[at->0 as int].0 == key.key_bytes(),
    {
        let found = self.locate(key.borrow_bytes());
        if found.0 {
            proof {
                lemma_key_index_unique(
                    self.entries(),
                    found.1 as int,
                    index_of_key(self.entries(), key.key_bytes()),
                );
            }
            Some(found.1)
        } else {
            None
        }
    }
}

} // verus!
