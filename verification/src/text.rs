//! Text as sequences of characters: conversion from and to strings, and the
//! properties of characters that Unicode defines.

use unicode_normalization::UnicodeNormalization;
use vstd::prelude::*;
use vstd::slice::{slice_subrange, slice_to_vec};
use vstd::std_specs::iter::IteratorSpec;
use vstd::string::StringExecFns;
use vstd::utf8::encode_utf8;

use crate::bytes::bytes_equal;

verus! {

/// Whether Unicode gives the character the property White_Space.
pub uninterp spec fn unicode_whitespace(c: char) -> bool;

/// Whether Unicode counts the character as alphabetic or numeric.
pub uninterp spec fn unicode_alphanumeric(c: char) -> bool;

/// The lowercase of a text by the Unicode case mappings.
pub uninterp spec fn unicode_lowercase(text: Seq<char>) -> Seq<char>;

/// The text in Unicode Normalization Form C.
pub uninterp spec fn unicode_nfc(text: Seq<char>) -> Seq<char>;

/// The text in Unicode Normalization Form D.
pub uninterp spec fn unicode_nfd(text: Seq<char>) -> Seq<char>;

/// Calls `nfc` of the `unicode-normalization` crate: canonical decomposition
/// followed by canonical composition.
#[verifier::external_body]
pub(crate) fn nfc(text: &str) -> (normal: String)
    ensures
        normal@ == unicode_nfc(text@),
{
    text.nfc().collect()
}

/// Calls `nfd` of the `unicode-normalization` crate: canonical decomposition.
#[verifier::external_body]
pub(crate) fn nfd(text: &str) -> (normal: String)
    ensures
        normal@ == unicode_nfd(text@),
{
    text.nfd().collect()
}

/// Calls `char::is_whitespace` of the standard library.
#[verifier::external_body]
pub(crate) fn is_whitespace(c: char) -> (white: bool)
    ensures
        white == unicode_whitespace(c),
{
    c.is_whitespace()
}

/// Calls `char::is_alphanumeric` of the standard library.
#[verifier::external_body]
pub(crate) fn is_alphanumeric(c: char) -> (alnum: bool)
    ensures
        alnum == unicode_alphanumeric(c),
{
    c.is_alphanumeric()
}

/// Calls `str::to_lowercase` of the standard library, which maps the text by
/// the Unicode case mappings, the same in every locale.
#[verifier::external_body]
pub(crate) fn to_lowercase(text: &str) -> (lower: String)
    ensures
        lower@ == unicode_lowercase(text@),
{
    text.to_lowercase()
}

/// Calls `String::push` of the standard library, which appends the character.
#[verifier::external_body]
pub(crate) fn push_char(text: &mut String, c: char)
    ensures
        final(text)@ == old(text)@.push(c),
{
    text.push(c)
}

/// Calls `std::str::from_utf8`, which accepts exactly the byte strings that
/// are UTF-8 and reads them as the text that they encode.
#[verifier::external_body]
pub(crate) fn utf8_to_string(bytes: &[u8]) -> (text: Option<String>)
    ensures
        text is Some <==> vstd::utf8::valid_utf8(bytes@),
        text is Some ==> vstd::utf8::encode_utf8(text->0@) == bytes@,
{
    std::str::from_utf8(bytes).ok().map(|s| s.to_string())
}

/// The characters of a string.
pub fn chars_of(text: &str) -> (chars: Vec<char>)
    ensures
        chars@ == text@,
{
    let mut chars: Vec<char> = Vec::new();
    for c in it: text.chars()
        invariant
            it.seq() == text@,
            chars@ == it.seq().subrange(0, it.index()),
    {
        chars.push(c);
        assert(chars@ =~= it.seq().subrange(0, it.index() + 1));
    }
    assert(chars@ =~= text@);
    chars
}

/// The string of a sequence of characters.
pub fn string_of(chars: &[char]) -> (text: String)
    ensures
        text@ == chars@,
{
    let mut text = String::new();
    let mut i: usize = 0;
    while i < chars.len()
        invariant
            i <= chars@.len(),
            text@ == chars@.subrange(0, i as int),
        decreases chars@.len() - i,
    {
        push_char(&mut text, chars[i]);
        i += 1;
        assert(text@ =~= chars@.subrange(0, i as int));
    }
    assert(text@ =~= chars@);
    text
}

/// Whether two strings hold the same text.
pub fn str_equal(a: &str, b: &str) -> (equal: bool)
    ensures
        equal == (a@ == b@),
{
    proof {
        vstd::utf8::encode_utf8_decode_utf8(a@);
        vstd::utf8::encode_utf8_decode_utf8(b@);
    }
    bytes_equal(a.as_bytes(), b.as_bytes())
}

/// The text without the whitespace at its start.
pub open spec fn trim_ws_start(s: Seq<char>) -> Seq<char>
    decreases s.len(),
{
    if s.len() > 0 && unicode_whitespace(s[0]) {
        trim_ws_start(s.drop_first())
    } else {
        s
    }
}

/// The text without the whitespace at its end.
pub open spec fn trim_ws_end(s: Seq<char>) -> Seq<char>
    decreases s.len(),
{
    if s.len() > 0 && unicode_whitespace(s.last()) {
        trim_ws_end(s.drop_last())
    } else {
        s
    }
}

/// The text without the whitespace at its start and at its end.
pub open spec fn trim_ws(s: Seq<char>) -> Seq<char> {
    trim_ws_end(trim_ws_start(s))
}

/// Where the text starts that is left when whitespace is taken from the start.
pub fn trim_start_index(chars: &[char]) -> (start: usize)
    ensures
        start <= chars@.len(),
        chars@.skip(start as int) == trim_ws_start(chars@),
{
    let len: usize = chars.len();
    let mut start: usize = 0;
    assert(chars@.skip(0) =~= chars@);
    while start < len && is_whitespace(chars[start])
        invariant
            start <= len,
            len == chars@.len(),
            trim_ws_start(chars@) == trim_ws_start(chars@.skip(start as int)),
        decreases len - start,
    {
        proof {
            let rest = chars@.skip(start as int);
            assert(rest.drop_first() =~= chars@.skip(start + 1));
        }
        start += 1;
    }
    start
}

/// Where the text lies that is left when whitespace is taken from both ends.
pub fn trim_range(chars: &[char]) -> (range: (usize, usize))
    ensures
        range.0 <= range.1 <= chars@.len(),
        chars@.subrange(range.0 as int, range.1 as int) == trim_ws(chars@),
{
    let len: usize = chars.len();
    let start: usize = trim_start_index(chars);
    let mut end: usize = len;
    assert(chars@.skip(start as int) =~= chars@.subrange(start as int, end as int));
    while end > start && is_whitespace(chars[end - 1])
        invariant
            start <= end <= len,
            len == chars@.len(),
            trim_ws_end(chars@.skip(start as int)) == trim_ws_end(
                chars@.subrange(start as int, end as int),
            ),
        decreases end - start,
    {
        proof {
            let part = chars@.subrange(start as int, end as int);
            assert(part.drop_last() =~= chars@.subrange(start as int, end - 1));
        }
        end -= 1;
    }
    (start, end)
}

/// The text without the whitespace at its start and at its end.
pub fn trimmed(chars: &[char]) -> (kept: Vec<char>)
    ensures
        kept@ == trim_ws(chars@),
{
    let (start, end) = trim_range(chars);
    slice_to_vec(slice_subrange(chars, start, end))
}

/// The text with every run of whitespace replaced by one space.
pub open spec fn collapse_ws(s: Seq<char>) -> Seq<char>
    decreases s.len(),
{
    if s.len() == 0 {
        s
    } else {
        let before = collapse_ws(s.drop_last());
        if !unicode_whitespace(s.last()) {
            before.push(s.last())
        } else if s.len() >= 2 && unicode_whitespace(s[s.len() - 2]) {
            before
        } else {
            before.push(' ')
        }
    }
}

/// Replaces every run of whitespace by one space.
pub fn collapse_whitespace(chars: &[char]) -> (out: Vec<char>)
    ensures
        out@ == collapse_ws(chars@),
{
    let mut out: Vec<char> = Vec::new();
    let mut prev_space: bool = false;
    let mut i: usize = 0;
    assert(chars@.subrange(0, 0) =~= Seq::<char>::empty());
    while i < chars.len()
        invariant
            i <= chars@.len(),
            out@ == collapse_ws(chars@.subrange(0, i as int)),
            prev_space == (i > 0 && unicode_whitespace(chars@[i - 1])),
        decreases chars@.len() - i,
    {
        let c: char = chars[i];
        proof {
            let next = chars@.subrange(0, i + 1);
            assert(next.drop_last() =~= chars@.subrange(0, i as int));
            assert(next.last() == c);
            if i > 0 {
                assert(next[next.len() - 2] == chars@[i - 1]);
            }
        }
        if is_whitespace(c) {
            if !prev_space {
                out.push(' ');
                prev_space = true;
            }
        } else {
            out.push(c);
            prev_space = false;
        }
        i += 1;
    }
    assert(chars@.subrange(0, chars@.len() as int) =~= chars@);
    out
}

/// Where the text ends that is left when whitespace is taken from the end.
pub fn trim_end_index(chars: &[char]) -> (end: usize)
    ensures
        end <= chars@.len(),
        chars@.subrange(0, end as int) == trim_ws_end(chars@),
{
    let mut end: usize = chars.len();
    assert(chars@.subrange(0, end as int) =~= chars@);
    while end > 0 && is_whitespace(chars[end - 1])
        invariant
            end <= chars@.len(),
            trim_ws_end(chars@) == trim_ws_end(chars@.subrange(0, end as int)),
        decreases end,
    {
        proof {
            let part = chars@.subrange(0, end as int);
            assert(part.drop_last() =~= chars@.subrange(0, end - 1));
        }
        end -= 1;
    }
    end
}

/// The decimal digit for a number below ten.
pub open spec fn digit_char(d: nat) -> char {
    if d == 0 {
        '0'
    } else if d == 1 {
        '1'
    } else if d == 2 {
        '2'
    } else if d == 3 {
        '3'
    } else if d == 4 {
        '4'
    } else if d == 5 {
        '5'
    } else if d == 6 {
        '6'
    } else if d == 7 {
        '7'
    } else if d == 8 {
        '8'
    } else {
        '9'
    }
}

/// A number in decimal notation.
pub open spec fn decimal_digits(n: nat) -> Seq<char>
    decreases n,
{
    if n < 10 {
        seq![digit_char(n)]
    } else {
        decimal_digits(n / 10).push(digit_char(n % 10))
    }
}

fn digit_str(d: u64) -> (s: &'static str)
    requires
        d < 10,
    ensures
        s@ == seq![digit_char(d as nat)],
{
    proof {
        reveal_strlit("0");
        reveal_strlit("1");
        reveal_strlit("2");
        reveal_strlit("3");
        reveal_strlit("4");
        reveal_strlit("5");
        reveal_strlit("6");
        reveal_strlit("7");
        reveal_strlit("8");
        reveal_strlit("9");
    }
    let s = if d == 0 {
        "0"
    } else if d == 1 {
        "1"
    } else if d == 2 {
        "2"
    } else if d == 3 {
        "3"
    } else if d == 4 {
        "4"
    } else if d == 5 {
        "5"
    } else if d == 6 {
        "6"
    } else if d == 7 {
        "7"
    } else if d == 8 {
        "8"
    } else {
        "9"
    };
    assert(s@ =~= seq![digit_char(d as nat)]);
    s
}

/// Writes a number in decimal notation.
pub fn decimal(n: u64) -> (s: String)
    ensures
        s@ == decimal_digits(n as nat),
    decreases n,
{
    if n < 10 {
        String::from_str(digit_str(n))
    } else {
        let mut s = decimal(n / 10);
        s.append(digit_str(n % 10));
        assert(s@ =~= decimal_digits(n as nat));
        s
    }
}
} // verus!
