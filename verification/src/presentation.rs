//! What a result looks like to a reader: the snippet with the matching words
//! marked, and a contract key shortened in its middle.

use vstd::prelude::*;
use vstd::string::StringExecFns;
use vstd::string::StringSliceAdditionalSpecFns;
use vstd::utf8::{decode_utf8, encode_utf8, is_char_boundary};

use crate::extraction::{floor_boundary, slice_str, text_between};
use crate::text::{
    chars_of, decimal, decimal_digits, is_alphanumeric, str_equal, string_of,
    unicode_alphanumeric,
};
use crate::tokenization::{normalize_token, normalized_token, texts};

verus! {

/// The most bytes of a marked snippet that are shown.
pub const SNIPPET_WINDOW: usize = 300;

/// Whether a word is marked: normalized, it is one of the terms.
pub open spec fn is_match(word: Seq<char>, terms: Seq<Seq<char>>) -> bool {
    terms.contains(normalized_token(word))
}

/// A word as it is shown: between `<mark>` and `</mark>` where it matches.
/// The empty word is not shown.
pub open spec fn marked_word(word: Seq<char>, terms: Seq<Seq<char>>) -> Seq<char> {
    if word.len() == 0 {
        word
    } else if is_match(word, terms) {
        "<mark>"@ + word + "</mark>"@
    } else {
        word
    }
}

/// The text `s` with every matching word marked, where `word` is the
/// unfinished word that stands before `s`. A word is a longest run of
/// alphanumeric characters.
pub open spec fn marked_from(s: Seq<char>, word: Seq<char>, terms: Seq<Seq<char>>) -> Seq<char>
    decreases s.len(),
{
    if s.len() == 0 {
        marked_word(word, terms)
    } else if unicode_alphanumeric(s[0]) {
        marked_from(s.drop_first(), word.push(s[0]), terms)
    } else {
        marked_word(word, terms) + seq![s[0]] + marked_from(s.drop_first(), Seq::empty(), terms)
    }
}

/// A text with every matching word marked.
pub open spec fn marked_text(s: Seq<char>, terms: Seq<Seq<char>>) -> Seq<char> {
    marked_from(s, Seq::empty(), terms)
}

/// What stands in the marked text before its first mark, where there is one;
/// `word` is the unfinished word that stands before `s`.
pub open spec fn first_mark_from(s: Seq<char>, word: Seq<char>, terms: Seq<Seq<char>>) -> Option<
    Seq<char>,
>
    decreases s.len(),
{
    if s.len() == 0 {
        if word.len() > 0 && is_match(word, terms) {
            Some(Seq::empty())
        } else {
            None
        }
    } else if unicode_alphanumeric(s[0]) {
        first_mark_from(s.drop_first(), word.push(s[0]), terms)
    } else if word.len() > 0 && is_match(word, terms) {
        Some(Seq::empty())
    } else {
        match first_mark_from(s.drop_first(), Seq::empty(), terms) {
            Some(p) => Some(word + seq![s[0]] + p),
            None => None,
        }
    }
}

/// What stands in the marked text before its first mark, where there is one.
pub open spec fn before_first_mark(s: Seq<char>, terms: Seq<Seq<char>>) -> Option<Seq<char>> {
    first_mark_from(s, Seq::empty(), terms)
}

/// The smallest place at or behind `pos` that is a character boundary.
pub open spec fn ceil_boundary(bytes: Seq<u8>, pos: int) -> int
    decreases bytes.len() - pos,
{
    if pos >= bytes.len() {
        bytes.len() as int
    } else if is_char_boundary(bytes, pos) {
        pos
    } else {
        ceil_boundary(bytes, pos + 1)
    }
}

/// The window of a text of `len` bytes that is shown around a match at byte
/// `match_byte`: `max_len` bytes from the start where the match is in the
/// first half of that, the last `max_len` bytes where it is in the last half,
/// else half of `max_len` to either side of the match.
pub open spec fn window(len: int, match_byte: int, max_len: int) -> (int, int) {
    let half = max_len / 2;
    if match_byte <= half {
        (0, if max_len < len {
            max_len
        } else {
            len
        })
    } else if match_byte + half >= len {
        (if len > max_len {
            len - max_len
        } else {
            0
        }, len)
    } else {
        (match_byte - half, if match_byte + half < len {
            match_byte + half
        } else {
            len
        })
    }
}

/// The excerpt of a text around a match: the whole text where it has no more
/// than `max_len` bytes, else its window, moved inwards to character
/// boundaries, with `...` wherever text was left out.
pub open spec fn excerpt(text: Seq<char>, match_byte: int, max_len: int) -> Seq<char> {
    let bytes = encode_utf8(text);
    let len = bytes.len() as int;
    if len <= max_len {
        text
    } else {
        let (from, to) = window(len, match_byte, max_len);
        let start = ceil_boundary(bytes, from);
        let end = if to >= len {
            len
        } else {
            floor_boundary(bytes, to)
        };
        let shown = match text_between(bytes, start, end) {
            Some(t) => t,
            None => Seq::empty(),
        };
        (if start > 0 {
            "..."@
        } else {
            Seq::empty()
        }) + shown + (if end < len {
            "..."@
        } else {
            Seq::empty()
        })
    }
}

/// The snippet as it is shown for a query: unchanged where it is empty or no
/// terms are given; else with its matching words marked, and cut to an
/// excerpt around the first mark where that is longer than the window.
pub open spec fn highlighted(snippet: Seq<char>, terms: Seq<Seq<char>>) -> Seq<char> {
    if snippet.len() == 0 || terms.len() == 0 {
        snippet
    } else {
        let marked = marked_text(snippet, terms);
        let at = match before_first_mark(snippet, terms) {
            Some(p) => encode_utf8(p).len() as int,
            None => 0,
        };
        excerpt(marked, at, SNIPPET_WINDOW as int)
    }
}

fn snap_to_char_boundary(s: &str, pos: usize, forward: bool) -> (at: usize)
    ensures
        at <= s.spec_bytes().len(),
        forward ==> at == ceil_boundary(s.spec_bytes(), pos as int),
        !forward ==> at == (if pos >= s.spec_bytes().len() {
            s.spec_bytes().len() as int
        } else {
            floor_boundary(s.spec_bytes(), pos as int)
        }),
{
    let len: usize = s.as_bytes().len();
    if pos >= len {
        return len;
    }
    if s.is_char_boundary(pos) {
        return pos;
    }
    let ghost bytes = s.spec_bytes();
    if forward {
        let mut p: usize = pos;
        while p < len && !s.is_char_boundary(p)
            invariant
                pos <= p <= len,
                len == bytes.len(),
                bytes == s.spec_bytes(),
                ceil_boundary(bytes, pos as int) == ceil_boundary(bytes, p as int),
            decreases len - p,
        {
            p += 1;
        }
        p
    } else {
        let mut p: usize = pos;
        while p > 0 && !s.is_char_boundary(p)
            invariant
                p <= pos < len,
                len == bytes.len(),
                bytes == s.spec_bytes(),
                floor_boundary(bytes, pos as int) == floor_boundary(bytes, p as int),
            decreases p,
        {
            p -= 1;
        }
        p
    }
}

fn truncate_around_match(text: &str, match_byte: usize, max_len: usize) -> (shown: String)
    ensures
        shown@ == excerpt(text@, match_byte as int, max_len as int),
{
    let text_len: usize = text.as_bytes().len();
    if text_len <= max_len {
        return String::from_str(text);
    }
    let half: usize = max_len / 2;
    let (from, to) = if match_byte <= half {
        (0, max_len)
    } else if match_byte >= text_len - half {
        (text_len - max_len, text_len)
    } else {
        (match_byte - half, match_byte + half)
    };
    let start = snap_to_char_boundary(text, from, true);
    let end = snap_to_char_boundary(text, to, false);
    let mut shown = String::new();
    proof {
        reveal_strlit("...");
    }
    if start > 0 {
        shown.append("...");
    }
    match slice_str(text, start, end) {
        Some(part) => {
            shown.append(part);
        },
        None => {},
    }
    if end < text_len {
        shown.append("...");
    }
    proof {
        let bytes = text.spec_bytes();
        let picked = match text_between(bytes, start as int, end as int) {
            Some(t) => t,
            None => Seq::empty(),
        };
        assert(shown@ =~= (if start > 0 {
            "..."@
        } else {
            Seq::empty()
        }) + picked + (if end < text_len {
            "..."@
        } else {
            Seq::empty()
        }));
    }
    shown
}

fn is_term(token: &str, terms: &[String]) -> (found: bool)
    ensures
        found == texts(terms@).contains(token@),
{
    let ghost all = texts(terms@);
    let mut k: usize = 0;
    while k < terms.len()
        invariant
            k <= terms@.len(),
            all == texts(terms@),
            forall|j: int| 0 <= j < k ==> all[j] != token@,
        decreases terms@.len() - k,
    {
        if str_equal(terms[k].as_str(), token) {
            assert(all[k as int] == token@);
            return true;
        }
        k += 1;
    }
    false
}

fn push_all(out: &mut Vec<char>, chars: &[char])
    ensures
        final(out)@ == old(out)@ + chars@,
{
    let mut i: usize = 0;
    while i < chars.len()
        invariant
            i <= chars@.len(),
            out@ == old(out)@ + chars@.subrange(0, i as int),
        decreases chars@.len() - i,
    {
        out.push(chars[i]);
        i += 1;
        assert(out@ =~= old(out)@ + chars@.subrange(0, i as int));
    }
    assert(chars@.subrange(0, chars@.len() as int) =~= chars@);
}

fn flush_word(
    out: &mut Vec<char>,
    word: &Vec<char>,
    terms: &[String],
    first_match: &mut Option<usize>,
) -> (matched: bool)
    requires
        word@.len() > 0,
    ensures
        matched == is_match(word@, texts(terms@)),
        final(out)@ == old(out)@ + marked_word(word@, texts(terms@)),
        matched && *old(first_match) is None ==> *final(first_match) is Some
            && (*final(first_match))->0 == encode_utf8(old(out)@).len(),
        !(matched && *old(first_match) is None) ==> *final(first_match) == *old(first_match),
{
    let raw = string_of(word.as_slice());
    let token = normalize_token(raw.as_str());
    let matched: bool = is_term(token.as_str(), terms);
    if matched {
        if first_match.is_none() {
            let so_far = string_of(out.as_slice());
            *first_match = Some(so_far.as_str().as_bytes().len());
        }
        proof {
            reveal_strlit("<mark>");
            reveal_strlit("</mark>");
        }
        let open = chars_of("<mark>");
        let close = chars_of("</mark>");
        let ghost before = out@;
        push_all(out, open.as_slice());
        push_all(out, word.as_slice());
        push_all(out, close.as_slice());
        assert(out@ =~= before + ("<mark>"@ + word@ + "</mark>"@));
    } else {
        push_all(out, word.as_slice());
    }
    matched
}

/// Marks the words of a snippet that match one of the terms and cuts the
/// result to an excerpt around the first match.
pub fn highlight_snippet(snippet: &str, terms: &[String]) -> (shown: String)
    ensures
        shown@ == highlighted(snippet@, texts(terms@)),
{
    proof {
        vstd::utf8::encode_utf8_decode_utf8(snippet@);
        if snippet@.len() == 0 {
            assert(encode_utf8(snippet@) =~= Seq::<u8>::empty());
        } else if encode_utf8(snippet@).len() == 0 {
            assert(encode_utf8(snippet@) =~= Seq::<u8>::empty());
            assert(decode_utf8(Seq::<u8>::empty()) =~= Seq::<char>::empty());
        }
    }
    if snippet.as_bytes().len() == 0 || terms.len() == 0 {
        return String::from_str(snippet);
    }
    let chars = chars_of(snippet);
    let ghost s = chars@;
    let ghost wanted = texts(terms@);
    let n: usize = chars.len();
    let mut out: Vec<char> = Vec::new();
    let mut word: Vec<char> = Vec::new();
    let mut first_match: Option<usize> = None;
    let ghost mut prefix: Option<Seq<char>> = None;
    let mut i: usize = 0;
    proof {
        assert(s.skip(0) =~= s);
        assert(Seq::<char>::empty() + marked_text(s, wanted) =~= marked_text(s, wanted));
        match before_first_mark(s, wanted) {
            Some(p) => {
                assert(Seq::<char>::empty() + p =~= p);
            },
            None => {},
        }
    }
    while i < n
        invariant
            i <= n,
            n == s.len(),
            s == chars@,
            wanted == texts(terms@),
            marked_text(s, wanted) == out@ + marked_from(s.skip(i as int), word@, wanted),
            first_match is Some <==> prefix is Some,
            first_match is Some ==> first_match->0 == encode_utf8(prefix->0).len()
                && before_first_mark(s, wanted) == prefix,
            first_match is None ==> before_first_mark(s, wanted) == (match first_mark_from(
                s.skip(i as int),
                word@,
                wanted,
            ) {
                Some(p) => Some(out@ + p),
                None => None,
            }),
        decreases n - i,
    {
        let c: char = chars[i];
        let ghost rest = s.skip(i as int);
        let ghost before = out@;
        let ghost pending = word@;
        proof {
            assert(rest[0] == c);
            assert(rest.drop_first() =~= s.skip(i + 1));
        }
        if is_alphanumeric(c) {
            word.push(c);
            proof {
                assert(marked_from(rest, pending, wanted) == marked_from(
                    s.skip(i + 1),
                    pending.push(c),
                    wanted,
                ));
                assert(first_mark_from(rest, pending, wanted) == first_mark_from(
                    s.skip(i + 1),
                    pending.push(c),
                    wanted,
                ));
            }
        } else {
            let ghost had_match = first_match is Some;
            if word.len() > 0 {
                let matched = flush_word(&mut out, &word, terms, &mut first_match);
                proof {
                    if matched && !had_match {
                        prefix = Some(before);
                        assert(before + Seq::<char>::empty() =~= before);
                    }
                }
                word = Vec::new();
            }
            out.push(c);
            proof {
                assert(word@ =~= Seq::<char>::empty());
                let tail = marked_from(s.skip(i + 1), Seq::empty(), wanted);
                assert(marked_from(rest, pending, wanted) == marked_word(pending, wanted)
                    + seq![c] + tail);
                assert(out@ =~= before + marked_word(pending, wanted) + seq![c]);
                assert(before + (marked_word(pending, wanted) + seq![c] + tail) =~= out@ + tail);
                if first_match is None {
                    match first_mark_from(s.skip(i + 1), Seq::empty(), wanted) {
                        Some(p) => {
                            assert(before + (pending + seq![c] + p) =~= out@ + p);
                        },
                        None => {},
                    }
                }
            }
        }
        i += 1;
    }
    proof {
        assert(s.skip(n as int) =~= Seq::<char>::empty());
    }
    let ghost before = out@;
    let ghost had_match = first_match is Some;
    if word.len() > 0 {
        let matched = flush_word(&mut out, &word, terms, &mut first_match);
        proof {
            if matched && !had_match {
                prefix = Some(before);
                assert(before + Seq::<char>::empty() =~= before);
            }
        }
    } else {
        assert(before + Seq::<char>::empty() =~= before);
    }
    let marked = string_of(out.as_slice());
    let at: usize = match first_match {
        Some(at) => at,
        None => 0,
    };
    if marked.as_str().as_bytes().len() > SNIPPET_WINDOW {
        truncate_around_match(marked.as_str(), at, SNIPPET_WINDOW)
    } else {
        marked
    }
}

/// A key shortened to about `max` bytes: the whole key where it has no more,
/// else its start up to the first character boundary at or behind half of
/// `max`, then `...`, then its end from the first character boundary at or
/// behind half of `max` before the end.
pub open spec fn shortened_key(key: Seq<char>, max: usize) -> Seq<char> {
    let bytes = encode_utf8(key);
    let len = bytes.len() as int;
    let half = (max / 2) as int;
    if len <= max {
        key
    } else {
        let head = match text_between(bytes, 0, ceil_boundary(bytes, half)) {
            Some(t) => t,
            None => Seq::empty(),
        };
        let tail = match text_between(bytes, ceil_boundary(bytes, len - half), len) {
            Some(t) => t,
            None => Seq::empty(),
        };
        head + "..."@ + tail
    }
}

/// Shortens a contract key in its middle.
pub fn truncate_key(key: &str, max: usize) -> (short: String)
    ensures
        short@ == shortened_key(key@, max),
{
    let len: usize = key.as_bytes().len();
    if len <= max {
        return String::from_str(key);
    }
    let half: usize = max / 2;
    let start_end = snap_to_char_boundary(key, half, true);
    let tail_start = snap_to_char_boundary(key, len - half, true);
    let mut short = String::new();
    match slice_str(key, 0, start_end) {
        Some(head) => {
            short.append(head);
        },
        None => {},
    }
    proof {
        reveal_strlit("...");
    }
    short.append("...");
    match slice_str(key, tail_start, len) {
        Some(tail) => {
            short.append(tail);
        },
        None => {},
    }
    proof {
        let bytes = key.spec_bytes();
        let head = match text_between(bytes, 0, start_end as int) {
            Some(t) => t,
            None => Seq::empty(),
        };
        let tail = match text_between(bytes, tail_start as int, len as int) {
            Some(t) => t,
            None => Seq::empty(),
        };
        assert(short@ =~= head + "..."@ + tail);
    }
    short
}

/// How long ago a moment was, with the largest unit that fits: `42s ago`,
/// `5m ago`, `3h ago`, `2d ago`. A moment that is still to come was 0 seconds
/// ago. Both moments are given in milliseconds.
pub open spec fn time_ago(now_ms: u64, timestamp_ms: u64) -> Seq<char> {
    let passed = if now_ms >= timestamp_ms {
        (now_ms - timestamp_ms) / 1000
    } else {
        0
    };
    if passed < 60 {
        decimal_digits(passed as nat) + "s ago"@
    } else if passed < 3600 {
        decimal_digits((passed / 60) as nat) + "m ago"@
    } else if passed < 86400 {
        decimal_digits((passed / 3600) as nat) + "h ago"@
    } else {
        decimal_digits((passed / 86400) as nat) + "d ago"@
    }
}

/// Says how long before `now_ms` the moment `timestamp_ms` was.
pub fn relative_time(now_ms: u64, timestamp_ms: u64) -> (shown: String)
    ensures
        shown@ == time_ago(now_ms, timestamp_ms),
{
    let diff_s: u64 = if now_ms >= timestamp_ms {
        (now_ms - timestamp_ms) / 1000
    } else {
        0
    };
    let (count, unit) = if diff_s < 60 {
        (diff_s, "s ago")
    } else if diff_s < 3600 {
        (diff_s / 60, "m ago")
    } else if diff_s < 86400 {
        (diff_s / 3600, "h ago")
    } else {
        (diff_s / 86400, "d ago")
    };
    let mut shown = decimal(count);
    shown.append(unit);
    shown
}

/// The ending of a noun for a count: none for one, `s` for any other.
pub open spec fn plural_ending(n: usize) -> Seq<char> {
    if n == 1 {
        ""@
    } else {
        "s"@
    }
}

/// Gives the ending of a noun for a count.
pub fn plural(n: usize) -> (ending: &'static str)
    ensures
        ending@ == plural_ending(n),
{
    if n == 1 {
        ""
    } else {
        "s"
    }
}

/// The number of subscribers in words: `1 subscriber`, `5 subscribers`.
pub open spec fn subscribers_text(n: u32) -> Seq<char> {
    if n == 1 {
        "1 subscriber"@
    } else {
        decimal_digits(n as nat) + " subscribers"@
    }
}

/// Writes the number of subscribers in words.
pub fn format_subscribers(n: u32) -> (shown: String)
    ensures
        shown@ == subscribers_text(n),
{
    if n == 1 {
        String::from_str("1 subscriber")
    } else {
        let mut shown = decimal(n as u64);
        shown.append(" subscribers");
        shown
    }
}

} // verus!
