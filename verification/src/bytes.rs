//! Byte strings: big-endian integers and the lexicographic order.

use vstd::prelude::*;

verus! {

/// The value of the first four bytes of `s`, read big-endian.
pub open spec fn be_u32(s: Seq<u8>) -> u32
    recommends
        s.len() >= 4,
{
    (s[0] as int * 16777216 + s[1] as int * 65536 + s[2] as int * 256 + s[3] as int) as u32
}

/// The value of the first eight bytes of `s`, read big-endian.
pub open spec fn be_u64(s: Seq<u8>) -> u64
    recommends
        s.len() >= 8,
{
    (be_u32(s) as int * 4294967296 + be_u32(s.subrange(4, 8)) as int) as u64
}

/// The four bytes of `v`, most significant first.
pub open spec fn be_bytes_u32(v: u32) -> Seq<u8> {
    seq![
        (v / 16777216) as u8,
        ((v / 65536) % 256) as u8,
        ((v / 256) % 256) as u8,
        (v % 256) as u8,
    ]
}

/// The eight bytes of `v`, most significant first.
pub open spec fn be_bytes_u64(v: u64) -> Seq<u8> {
    be_bytes_u32((v / 4294967296) as u32) + be_bytes_u32((v % 4294967296) as u32)
}

/// Reads a big-endian `u32` at offset `at`.
pub fn read_be_u32(data: &[u8], at: usize) -> (v: u32)
    requires
        at + 4 <= data@.len(),
    ensures
        v == be_u32(data@.subrange(at as int, at + 4)),
{
    let len: usize = data.len();
    assert(at + 4 <= len);
    let b0: u32 = data[at] as u32;
    let b1: u32 = data[at + 1] as u32;
    let b2: u32 = data[at + 2] as u32;
    let b3: u32 = data[at + 3] as u32;
    b0 * 16777216 + b1 * 65536 + b2 * 256 + b3
}

/// Reads a big-endian `u64` at offset `at`.
pub fn read_be_u64(data: &[u8], at: usize) -> (v: u64)
    requires
        at + 8 <= data@.len(),
    ensures
        v == be_u64(data@.subrange(at as int, at + 8)),
{
    let len: usize = data.len();
    assert(at + 8 <= len);
    let hi: u32 = read_be_u32(data, at);
    let lo: u32 = read_be_u32(data, at + 4);
    proof {
        let s = data@.subrange(at as int, at + 8);
        assert(s.subrange(4, 8) =~= data@.subrange(at + 4, at + 8));
        assert(be_u32(s) == be_u32(data@.subrange(at as int, at + 4)));
    }
    (hi as u64) * 4294967296 + (lo as u64)
}

/// Appends the four big-endian bytes of `v` to `out`.
pub fn push_be_u32(out: &mut Vec<u8>, v: u32)
    ensures
        final(out)@ == old(out)@ + be_bytes_u32(v),
{
    out.push((v / 16777216) as u8);
    out.push(((v / 65536) % 256) as u8);
    out.push(((v / 256) % 256) as u8);
    out.push((v % 256) as u8);
    assert(out@ =~= old(out)@ + be_bytes_u32(v));
}

/// Appends the eight big-endian bytes of `v` to `out`.
pub fn push_be_u64(out: &mut Vec<u8>, v: u64)
    ensures
        final(out)@ == old(out)@ + be_bytes_u64(v),
{
    push_be_u32(out, (v / 4294967296) as u32);
    push_be_u32(out, (v % 4294967296) as u32);
    assert(out@ =~= old(out)@ + be_bytes_u64(v));
}

/// Appends a copy of `data` to `out`.
pub fn push_bytes(out: &mut Vec<u8>, data: &[u8])
    ensures
        final(out)@ == old(out)@ + data@,
{
    let mut i: usize = 0;
    while i < data.len()
        invariant
            i <= data@.len(),
            out@ == old(out)@ + data@.subrange(0, i as int),
        decreases data@.len() - i,
    {
        out.push(data[i]);
        i += 1;
        assert(out@ =~= old(out)@ + data@.subrange(0, i as int));
    }
    assert(data@.subrange(0, i as int) =~= data@);
}

/// Whether the two byte strings are equal.
pub fn bytes_equal(a: &[u8], b: &[u8]) -> (r: bool)
    ensures
        r == (a@ == b@),
{
    if a.len() != b.len() {
        return false;
    }
    let mut i: usize = 0;
    while i < a.len()
        invariant
            i <= a@.len(),
            a@.len() == b@.len(),
            a@.subrange(0, i as int) == b@.subrange(0, i as int),
        decreases a@.len() - i,
    {
        if a[i] != b[i] {
            return false;
        }
        i += 1;
        assert(a@.subrange(0, i as int) =~= a@.subrange(0, i - 1).push(a@[i - 1]));
        assert(b@.subrange(0, i as int) =~= b@.subrange(0, i - 1).push(b@[i - 1]));
    }
    assert(a@ =~= a@.subrange(0, i as int));
    assert(b@ =~= b@.subrange(0, i as int));
    true
}

/// The lexicographic order on byte strings: `a` comes strictly before `b`.
pub open spec fn lex_less(a: Seq<u8>, b: Seq<u8>) -> bool
    decreases a.len(),
{
    if b.len() == 0 {
        false
    } else if a.len() == 0 {
        true
    } else if a[0] != b[0] {
        a[0] < b[0]
    } else {
        lex_less(a.drop_first(), b.drop_first())
    }
}

/// How one byte string stands to another in the lexicographic order.
#[derive(Clone, Copy, Debug, PartialEq, Eq, Structural)]
pub enum Order {
    Before,
    Same,
    After,
}

/// The place of `a` relative to `b`.
pub open spec fn lex_order(a: Seq<u8>, b: Seq<u8>) -> Order {
    if a == b {
        Order::Same
    } else if lex_less(a, b) {
        Order::Before
    } else {
        Order::After
    }
}

/// No byte string comes before itself.
pub proof fn lemma_lex_irreflexive(a: Seq<u8>)
    ensures
        !lex_less(a, a),
    decreases a.len(),
{
    if a.len() > 0 {
        lemma_lex_irreflexive(a.drop_first());
    }
}

/// Of two different byte strings exactly one comes before the other.
pub proof fn lemma_lex_total(a: Seq<u8>, b: Seq<u8>)
    ensures
        a != b ==> (lex_less(a, b) <==> !lex_less(b, a)),
        a == b ==> !lex_less(a, b),
    decreases a.len(),
{
    if a == b {
        lemma_lex_irreflexive(a);
    } else if a.len() > 0 && b.len() > 0 {
        if a[0] == b[0] {
            lemma_lex_total(a.drop_first(), b.drop_first());
            if a.drop_first() == b.drop_first() {
                assert(a =~= seq![a[0]] + a.drop_first());
                assert(b =~= seq![b[0]] + b.drop_first());
            }
        }
    } else if a.len() == 0 && b.len() == 0 {
        assert(a =~= b);
    }
}

/// The order is transitive.
pub proof fn lemma_lex_transitive(a: Seq<u8>, b: Seq<u8>, c: Seq<u8>)
    requires
        lex_less(a, b),
        lex_less(b, c),
    ensures
        lex_less(a, c),
    decreases a.len(),
{
    if a.len() > 0 && a[0] == b[0] && b[0] == c[0] {
        lemma_lex_transitive(a.drop_first(), b.drop_first(), c.drop_first());
    }
}

/// Compares two byte strings lexicographically.
pub fn compare_bytes(a: &[u8], b: &[u8]) -> (r: Order)
    ensures
        r == lex_order(a@, b@),
{
    let mut i: usize = 0;
    assert(a@.skip(0) =~= a@);
    assert(b@.skip(0) =~= b@);
    while i < a.len() && i < b.len()
        invariant
            i <= a@.len(),
            i <= b@.len(),
            a@.subrange(0, i as int) == b@.subrange(0, i as int),
            lex_less(a@, b@) == lex_less(a@.skip(i as int), b@.skip(i as int)),
            lex_less(b@, a@) == lex_less(b@.skip(i as int), a@.skip(i as int)),
        decreases a@.len() - i,
    {
        let ghost ra = a@.skip(i as int);
        let ghost rb = b@.skip(i as int);
        if a[i] < b[i] {
            assert(ra[0] < rb[0]);
            assert(a@ != b@) by {
                assert(a@[i as int] != b@[i as int]);
            }
            return Order::Before;
        }
        if a[i] > b[i] {
            assert(ra[0] > rb[0]);
            assert(a@ != b@) by {
                assert(a@[i as int] != b@[i as int]);
            }
            return Order::After;
        }
        assert(ra[0] == rb[0]);
        assert(ra.drop_first() =~= a@.skip(i + 1));
        assert(rb.drop_first() =~= b@.skip(i + 1));
        i += 1;
        assert(a@.subrange(0, i as int) =~= a@.subrange(0, i - 1).push(a@[i - 1]));
        assert(b@.subrange(0, i as int) =~= b@.subrange(0, i - 1).push(b@[i - 1]));
    }
    if i < b.len() {
        assert(a@.skip(i as int).len() == 0);
        assert(a@ != b@);
        Order::Before
    } else if i < a.len() {
        assert(b@.skip(i as int).len() == 0);
        assert(a@ != b@);
        Order::After
    } else {
        assert(a@ =~= a@.subrange(0, i as int));
        assert(b@ =~= b@.subrange(0, i as int));
        Order::Same
    }
}

/// Whether `needle` stands in `hay` at place `at`.
pub open spec fn occurs_at(hay: Seq<u8>, needle: Seq<u8>, at: int) -> bool {
    0 <= at && at + needle.len() <= hay.len() && hay.subrange(at, at + needle.len()) == needle
}

/// The first place at or behind `from` where `needle` stands in `hay`.
pub open spec fn find_from(hay: Seq<u8>, needle: Seq<u8>, from: int) -> Option<int>
    decreases
        (if from <= hay.len() {
            hay.len() - from
        } else {
            0
        }),
{
    if from < 0 || from + needle.len() > hay.len() {
        None
    } else if needle.len() == 0 || occurs_at(hay, needle, from) {
        Some(from)
    } else {
        find_from(hay, needle, from + 1)
    }
}

/// The last place before `end` where the byte `b` stands in `hay`.
pub open spec fn rfind_byte(hay: Seq<u8>, b: u8, end: int) -> Option<int>
    decreases end,
{
    if end <= 0 || end > hay.len() {
        None
    } else if hay[end - 1] == b {
        Some(end - 1)
    } else {
        rfind_byte(hay, b, end - 1)
    }
}

/// Whether `needle` stands in `hay` at place `at`.
pub fn matches_at(hay: &[u8], needle: &[u8], at: usize) -> (found: bool)
    requires
        at + needle@.len() <= hay@.len(),
    ensures
        found == occurs_at(hay@, needle@, at as int),
{
    let n: usize = needle.len();
    let total: usize = hay.len();
    let mut k: usize = 0;
    while k < n
        invariant
            k <= n,
            n == needle@.len(),
            total == hay@.len(),
            at + n <= hay@.len(),
            forall|j: int| 0 <= j < k ==> hay@[at + j] == needle@[j],
        decreases n - k,
    {
        if hay[at + k] != needle[k] {
            assert(hay@.subrange(at as int, at + n)[k as int] != needle@[k as int]);
            return false;
        }
        k += 1;
    }
    assert(hay@.subrange(at as int, at + n) =~= needle@);
    true
}

/// Finds the first place at or behind `from` where `needle` stands in `hay`.
pub fn find_bytes(hay: &[u8], needle: &[u8], from: usize) -> (at: Option<usize>)
    ensures
        at is Some <==> find_from(hay@, needle@, from as int) is Some,
        at is Some ==> at->0 == find_from(hay@, needle@, from as int)->0 && from <= at->0
            && at->0 + needle@.len() <= hay@.len() <= usize::MAX,
{
    let total: usize = hay.len();
    let n: usize = needle.len();
    if n > total || from > total - n {
        return None;
    }
    let last: usize = total - n;
    let mut i: usize = from;
    while i < last
        invariant
            n == needle@.len(),
            total == hay@.len(),
            last == total - n,
            from <= i <= last,
            find_from(hay@, needle@, from as int) == find_from(hay@, needle@, i as int),
        decreases last - i,
    {
        if matches_at(hay, needle, i) {
            return Some(i);
        }
        assert(n > 0) by {
            if n == 0 {
                assert(hay@.subrange(i as int, i as int) =~= needle@);
            }
        }
        i += 1;
    }
    if matches_at(hay, needle, i) {
        Some(i)
    } else {
        assert(n > 0) by {
            if n == 0 {
                assert(hay@.subrange(i as int, i as int) =~= needle@);
            }
        }
        assert(find_from(hay@, needle@, i + 1) is None);
        None
    }
}

/// Finds the last place before `end` where the byte `b` stands in `hay`.
pub fn rfind(hay: &[u8], b: u8, end: usize) -> (at: Option<usize>)
    requires
        end <= hay@.len(),
    ensures
        at is Some <==> rfind_byte(hay@, b, end as int) is Some,
        at is Some ==> at->0 == rfind_byte(hay@, b, end as int)->0 && at->0 < end,
{
    let mut i: usize = end;
    while i > 0
        invariant
            i <= end <= hay@.len(),
            rfind_byte(hay@, b, end as int) == rfind_byte(hay@, b, i as int),
        decreases i,
    {
        if hay[i - 1] == b {
            return Some(i - 1);
        }
        i -= 1;
    }
    None
}

} // verus!
