//! Canonical texts: what a title, a description or a snippet is stored as.

use vstd::prelude::*;
use vstd::slice::{slice_subrange, slice_to_vec};

use crate::text::{
    chars_of, collapse_whitespace, collapse_ws, nfc, string_of, trim_ws, trimmed, unicode_nfc,
};

verus! {

/// The byte order mark.
pub const BYTE_ORDER_MARK: char = '\u{FEFF}';

/// The text without byte order marks.
pub open spec fn without_bom(s: Seq<char>) -> Seq<char> {
    s.filter(|c: char| c != BYTE_ORDER_MARK)
}

/// The normal form of a text: byte order marks removed, composed (NFC),
/// every run of whitespace replaced by one space, and no whitespace at either
/// end.
pub open spec fn normalized_text(s: Seq<char>) -> Seq<char> {
    trim_ws(collapse_ws(unicode_nfc(without_bom(s))))
}

/// The first `max_chars` characters of a text, or all of a shorter one.
pub open spec fn first_chars(s: Seq<char>, max_chars: usize) -> Seq<char> {
    if s.len() <= max_chars {
        s
    } else {
        s.subrange(0, max_chars as int)
    }
}

fn remove_bom(chars: &[char]) -> (kept: Vec<char>)
    ensures
        kept@ == without_bom(chars@),
{
    let mut kept: Vec<char> = Vec::new();
    let mut i: usize = 0;
    assert(chars@.subrange(0, 0) =~= Seq::<char>::empty());
    while i < chars.len()
        invariant
            i <= chars@.len(),
            kept@ == without_bom(chars@.subrange(0, i as int)),
        decreases chars@.len() - i,
    {
        proof {
            let next = chars@.subrange(0, i + 1);
            assert(next.drop_last() =~= chars@.subrange(0, i as int));
            reveal(Seq::filter);
        }
        if chars[i] != BYTE_ORDER_MARK {
            kept.push(chars[i]);
        }
        i += 1;
    }
    assert(chars@.subrange(0, chars@.len() as int) =~= chars@);
    kept
}

fn normalize_chars(text: &str) -> (normal: Vec<char>)
    ensures
        normal@ == normalized_text(text@),
{
    let no_bom = string_of(remove_bom(chars_of(text).as_slice()).as_slice());
    let composed = nfc(no_bom.as_str());
    let collapsed = collapse_whitespace(chars_of(composed.as_str()).as_slice());
    trimmed(collapsed.as_slice())
}

/// Normalizes a text: removes byte order marks, composes, collapses
/// whitespace to single spaces and trims.
pub fn normalize_text(text: &str) -> (normal: String)
    ensures
        normal@ == normalized_text(text@),
{
    string_of(normalize_chars(text).as_slice())
}

fn truncate_to_chars(chars: &[char], max_chars: usize) -> (kept: Vec<char>)
    ensures
        kept@ == first_chars(chars@, max_chars),
{
    if chars.len() <= max_chars {
        assert(chars@.subrange(0, chars@.len() as int) =~= chars@);
        slice_to_vec(chars)
    } else {
        slice_to_vec(slice_subrange(chars, 0, max_chars))
    }
}

/// The canonical title: normalized, and at most 256 characters.
pub fn canonical_title(title: &str) -> (canonical: String)
    ensures
        canonical@ == first_chars(normalized_text(title@), 256),
{
    string_of(truncate_to_chars(normalize_chars(title).as_slice(), 256).as_slice())
}

/// The canonical description: normalized, and at most 1024 characters.
pub fn canonical_description(description: &str) -> (canonical: String)
    ensures
        canonical@ == first_chars(normalized_text(description@), 1024),
{
    string_of(truncate_to_chars(normalize_chars(description).as_slice(), 1024).as_slice())
}

/// The canonical snippet: normalized, and at most `max_chars` characters.
pub fn canonical_snippet(snippet: &str, max_chars: usize) -> (canonical: String)
    ensures
        canonical@ == first_chars(normalized_text(snippet@), max_chars),
{
    string_of(truncate_to_chars(normalize_chars(snippet).as_slice(), max_chars).as_slice())
}

} // verus!
