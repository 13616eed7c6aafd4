//! Extraction of metadata from HTML and from the state of a web container.
//!
//! Tags and attributes are looked for in the lowercase of the page, and what
//! is found is taken from the page itself wherever the places found are
//! character boundaries of the page; where they are not, from the lowercase.

use vstd::prelude::*;
use vstd::slice::slice_subrange;
use vstd::string::StringExecFns;
use vstd::string::StringSliceAdditionalSpecFns;
use vstd::utf8::{decode_utf8, encode_utf8, is_char_boundary};

use crate::bytes::{
    be_u32, be_u64, find_bytes, find_from, push_bytes, read_be_u32, read_be_u64, rfind, rfind_byte,
};
use crate::publication::announced_metadata_size;
use crate::text::{
    chars_of, collapse_whitespace, collapse_ws, string_of, to_lowercase, trim_ws, trimmed,
    unicode_lowercase,
};
use crate::web_container::{
    decompress_web_container, decompressed_archive, find_file_in_tar, tar_file_text,
};

verus! {

/// The most bytes of a page that are searched for title and description.
pub const HTML_SNIPPET_LIMIT: usize = 10240;

/// The text that lies between two places of a byte string, where both are
/// character boundaries.
pub open spec fn text_between(bytes: Seq<u8>, from: int, to: int) -> Option<Seq<char>> {
    if from <= to && is_char_boundary(bytes, from) && is_char_boundary(bytes, to) {
        Some(decode_utf8(bytes.subrange(from, to)))
    } else {
        None
    }
}

/// The text between two places, taken from the page where it can be, else
/// from its lowercase.
pub open spec fn source_between(page: Seq<u8>, lower: Seq<u8>, from: int, to: int) -> Option<
    Seq<char>,
> {
    match text_between(page, from, to) {
        Some(t) => Some(t),
        None => text_between(lower, from, to),
    }
}

/// Cuts the text between two byte offsets out of a string, where both are
/// character boundaries.
pub fn slice_str<'a>(s: &'a str, from: usize, to: usize) -> (part: Option<&'a str>)
    ensures
        part is Some <==> text_between(s.spec_bytes(), from as int, to as int) is Some,
        part is Some ==> part->0@ == text_between(s.spec_bytes(), from as int, to as int)->0
            && part->0.spec_bytes() == s.spec_bytes().subrange(from as int, to as int),
{
    if from > to || !s.is_char_boundary(from) || !s.is_char_boundary(to) {
        return None;
    }
    let ghost bytes = s.spec_bytes();
    proof {
        vstd::utf8::encode_utf8_valid_utf8(s@);
        vstd::utf8::valid_utf8_split(bytes, to as int);
    }
    let (head, _) = s.split_at(to);
    proof {
        let hb = bytes.subrange(0, to as int);
        assert(head.spec_bytes() == hb);
        if from == to {
            vstd::utf8::is_char_boundary_start_end_of_seq(hb);
        } else if from > 0 {
            vstd::utf8::is_char_boundary_iff_not_is_continuation_byte(bytes, from as int);
            vstd::utf8::is_char_boundary_iff_not_is_continuation_byte(hb, from as int);
        }
    }
    let (_, part) = head.split_at(from);
    proof {
        assert(part.spec_bytes() =~= bytes.subrange(from as int, to as int));
        vstd::utf8::encode_utf8_decode_utf8(part@);
    }
    Some(part)
}

/// Whether the text stands, after the given characters, inside a tag: behind
/// a `<` that no `>` has closed.
pub open spec fn inside_tag(s: Seq<char>) -> bool
    decreases s.len(),
{
    if s.len() == 0 {
        false
    } else if s.last() == '<' {
        true
    } else if s.last() == '>' {
        false
    } else {
        inside_tag(s.drop_last())
    }
}

/// The text without its tags: without every `<`, every `>` and what stands
/// between a `<` and the next `>`.
pub open spec fn strip_tags(s: Seq<char>) -> Seq<char>
    decreases s.len(),
{
    if s.len() == 0 {
        s
    } else {
        let before = strip_tags(s.drop_last());
        let c = s.last();
        if c == '<' || c == '>' || inside_tag(s.drop_last()) {
            before
        } else {
            before.push(c)
        }
    }
}

/// Removes the tags from a text.
pub fn strip_html_tags(chars: &[char]) -> (out: Vec<char>)
    ensures
        out@ == strip_tags(chars@),
{
    let mut out: Vec<char> = Vec::new();
    let mut in_tag: bool = false;
    let mut i: usize = 0;
    assert(chars@.subrange(0, 0) =~= Seq::<char>::empty());
    while i < chars.len()
        invariant
            i <= chars@.len(),
            out@ == strip_tags(chars@.subrange(0, i as int)),
            in_tag == inside_tag(chars@.subrange(0, i as int)),
        decreases chars@.len() - i,
    {
        let c: char = chars[i];
        proof {
            let next = chars@.subrange(0, i + 1);
            assert(next.drop_last() =~= chars@.subrange(0, i as int));
            assert(next.last() == c);
        }
        if c == '<' {
            in_tag = true;
        } else if c == '>' {
            in_tag = false;
        } else if !in_tag {
            out.push(c);
        }
        i += 1;
    }
    assert(chars@.subrange(0, chars@.len() as int) =~= chars@);
    out
}

/// The opening of a tag: `<` and the tag's name.
pub open spec fn open_tag(tag: Seq<u8>) -> Seq<u8> {
    seq![0x3Cu8] + tag
}

/// The closing tag: `</`, the tag's name and `>`.
pub open spec fn close_tag(tag: Seq<u8>) -> Seq<u8> {
    seq![0x3Cu8, 0x2Fu8] + tag + seq![0x3Eu8]
}

/// Where the content of the first element with the given tag lies in a
/// lowercase page: behind the `>` that follows the first opening of the tag,
/// up to the first closing tag behind that.
pub open spec fn tag_span(lower: Seq<u8>, tag: Seq<u8>) -> Option<(int, int)> {
    match find_from(lower, open_tag(tag), 0) {
        None => None,
        Some(start) => match find_from(lower, seq![0x3Eu8], start) {
            None => None,
            Some(gt) => match find_from(lower, close_tag(tag), gt + 1) {
                None => None,
                Some(end) => Some((gt + 1, end)),
            },
        },
    }
}

/// What is kept of the content of an element: the content trimmed, its tags
/// removed and trimmed again, unless nothing is left at either step.
pub open spec fn clean_content(content: Seq<char>) -> Option<Seq<char>> {
    let outer = trim_ws(content);
    let inner = trim_ws(strip_tags(outer));
    if outer.len() == 0 || inner.len() == 0 {
        None
    } else {
        Some(inner)
    }
}

/// The text of the first element of a page with the given tag.
pub open spec fn tag_content(page: Seq<char>, tag: Seq<char>) -> Option<Seq<char>> {
    let lower = encode_utf8(unicode_lowercase(page));
    match tag_span(lower, encode_utf8(tag)) {
        None => None,
        Some((from, to)) => match source_between(encode_utf8(page), lower, from, to) {
            None => None,
            Some(content) => clean_content(content),
        },
    }
}

/// Finds the content of the first element with the given tag in a lowercase page.
pub fn find_tag_span(lower: &[u8], tag: &[u8]) -> (span: Option<(usize, usize)>)
    ensures
        span is Some <==> tag_span(lower@, tag@) is Some,
        span is Some ==> ({
            let (from, to) = span->0;
            tag_span(lower@, tag@) == Some((from as int, to as int))
        }),
{
    let mut open: Vec<u8> = Vec::new();
    open.push(0x3Cu8);
    push_bytes(&mut open, tag);
    assert(open@ =~= open_tag(tag@));
    let mut close: Vec<u8> = Vec::new();
    close.push(0x3Cu8);
    close.push(0x2Fu8);
    push_bytes(&mut close, tag);
    close.push(0x3Eu8);
    assert(close@ =~= close_tag(tag@));
    let mut gt: Vec<u8> = Vec::new();
    gt.push(0x3Eu8);
    assert(gt@ =~= seq![0x3Eu8]);
    let start = match find_bytes(lower, open.as_slice(), 0) {
        Some(start) => start,
        None => {
            return None;
        },
    };
    let after = match find_bytes(lower, gt.as_slice(), start) {
        Some(at) => at + 1,
        None => {
            return None;
        },
    };
    match find_bytes(lower, close.as_slice(), after) {
        Some(end) => Some((after, end)),
        None => None,
    }
}

/// Takes the text between two places from the page, else from its lowercase.
pub fn source_text(page: &str, lower: &str, from: usize, to: usize) -> (text: Option<Vec<char>>)
    ensures
        text is Some <==> source_between(
            page.spec_bytes(),
            lower.spec_bytes(),
            from as int,
            to as int,
        ) is Some,
        text is Some ==> text->0@ == source_between(
            page.spec_bytes(),
            lower.spec_bytes(),
            from as int,
            to as int,
        )->0,
{
    match slice_str(page, from, to) {
        Some(part) => Some(chars_of(part)),
        None => match slice_str(lower, from, to) {
            Some(part) => Some(chars_of(part)),
            None => None,
        },
    }
}

/// Extracts the text of the first element with the given tag.
pub fn extract_tag(html: &str, tag: &str) -> (text: Option<String>)
    ensures
        text is Some <==> tag_content(html@, tag@) is Some,
        text is Some ==> text->0@ == tag_content(html@, tag@)->0,
{
    let lower = to_lowercase(html);
    let (from, to) = match find_tag_span(lower.as_str().as_bytes(), tag.as_bytes()) {
        Some(span) => span,
        None => {
            return None;
        },
    };
    let content = match source_text(html, lower.as_str(), from, to) {
        Some(content) => content,
        None => {
            return None;
        },
    };
    let outer = trimmed(content.as_slice());
    if outer.len() == 0 {
        return None;
    }
    let inner = trimmed(strip_html_tags(outer.as_slice()).as_slice());
    if inner.len() == 0 {
        return None;
    }
    Some(string_of(inner.as_slice()))
}

/// An attribute with its value in double quotes: `attribute="value"`.
pub open spec fn quoted_attribute(attribute: Seq<u8>, value: Seq<u8>) -> Seq<u8> {
    attribute + seq![0x3Du8, 0x22u8] + value + seq![0x22u8]
}

/// The bytes of `content="`.
pub open spec fn content_marker() -> Seq<u8> {
    seq![0x63u8, 0x6Fu8, 0x6Eu8, 0x74u8, 0x65u8, 0x6Eu8, 0x74u8, 0x3Du8, 0x22u8]
}

/// Where the value of the `content` attribute lies in a lowercase page, for
/// the first tag that holds `needle`: the tag reaches from the last `<` before
/// the needle to the first `>` behind its start, and the value from behind
/// the first `content="` of the tag to the next `"` of the tag.
pub open spec fn meta_span(lower: Seq<u8>, needle: Seq<u8>) -> Option<(int, int)> {
    match find_from(lower, needle, 0) {
        None => None,
        Some(at) => match rfind_byte(lower, 0x3Cu8, at) {
            None => None,
            Some(tag_start) => match find_from(lower, seq![0x3Eu8], at) {
                None => None,
                Some(tag_end) => {
                    let tag = lower.subrange(tag_start, tag_end + 1);
                    match find_from(tag, content_marker(), 0) {
                        None => None,
                        Some(marker) => match find_from(tag, seq![0x22u8], marker + 9) {
                            None => None,
                            Some(quote) => Some((tag_start + marker + 9, tag_start + quote)),
                        },
                    }
                },
            },
        },
    }
}

/// The value of the `content` attribute of the first `meta` tag of a page
/// whose attribute `attribute` has the value `name`; nothing where the value
/// is empty.
pub open spec fn meta_value(page: Seq<char>, attribute: Seq<char>, name: Seq<char>) -> Option<
    Seq<char>,
> {
    let lower = encode_utf8(unicode_lowercase(page));
    match meta_span(lower, quoted_attribute(encode_utf8(attribute), encode_utf8(name))) {
        None => None,
        Some((from, to)) => match source_between(encode_utf8(page), lower, from, to) {
            None => None,
            Some(value) => if value.len() == 0 {
                None
            } else {
                Some(value)
            },
        },
    }
}

/// Finds the value of the `content` attribute of the first tag that holds `needle`.
pub fn find_meta_span(lower: &[u8], needle: &[u8]) -> (span: Option<(usize, usize)>)
    ensures
        span is Some <==> meta_span(lower@, needle@) is Some,
        span is Some ==> ({
            let (from, to) = span->0;
            meta_span(lower@, needle@) == Some((from as int, to as int))
        }),
{
    let mut gt: Vec<u8> = Vec::new();
    gt.push(0x3Eu8);
    assert(gt@ =~= seq![0x3Eu8]);
    let mut quote: Vec<u8> = Vec::new();
    quote.push(0x22u8);
    assert(quote@ =~= seq![0x22u8]);
    let mut marker: Vec<u8> = Vec::new();
    marker.push(0x63u8);
    marker.push(0x6Fu8);
    marker.push(0x6Eu8);
    marker.push(0x74u8);
    marker.push(0x65u8);
    marker.push(0x6Eu8);
    marker.push(0x74u8);
    marker.push(0x3Du8);
    marker.push(0x22u8);
    assert(marker@ =~= content_marker());
    let at = match find_bytes(lower, needle, 0) {
        Some(at) => at,
        None => {
            return None;
        },
    };
    let tag_start = match rfind(lower, 0x3Cu8, at) {
        Some(start) => start,
        None => {
            return None;
        },
    };
    let tag_end = match find_bytes(lower, gt.as_slice(), at) {
        Some(end) => end,
        None => {
            return None;
        },
    };
    let tag = slice_subrange(lower, tag_start, tag_end + 1);
    let found = match find_bytes(tag, marker.as_slice(), 0) {
        Some(found) => found,
        None => {
            return None;
        },
    };
    match find_bytes(tag, quote.as_slice(), found + 9) {
        Some(end) => Some((tag_start + found + 9, tag_start + end)),
        None => None,
    }
}

fn extract_meta(html: &str, attribute: &str, name: &str) -> (value: Option<String>)
    ensures
        value is Some <==> meta_value(html@, attribute@, name@) is Some,
        value is Some ==> value->0@ == meta_value(html@, attribute@, name@)->0,
{
    let lower = to_lowercase(html);
    let mut needle: Vec<u8> = Vec::new();
    push_bytes(&mut needle, attribute.as_bytes());
    needle.push(0x3Du8);
    needle.push(0x22u8);
    push_bytes(&mut needle, name.as_bytes());
    needle.push(0x22u8);
    assert(needle@ =~= quoted_attribute(encode_utf8(attribute@), encode_utf8(name@)));
    let (from, to) = match find_meta_span(lower.as_str().as_bytes(), needle.as_slice()) {
        Some(span) => span,
        None => {
            return None;
        },
    };
    match source_text(html, lower.as_str(), from, to) {
        Some(value) => {
            if value.len() == 0 {
                None
            } else {
                Some(string_of(value.as_slice()))
            }
        },
        None => None,
    }
}

/// Extracts the content of `<meta name="NAME" content="...">`.
pub fn extract_meta_content(html: &str, name: &str) -> (value: Option<String>)
    ensures
        value is Some <==> meta_value(html@, "name"@, name@) is Some,
        value is Some ==> value->0@ == meta_value(html@, "name"@, name@)->0,
{
    extract_meta(html, "name", name)
}

/// Extracts the content of `<meta property="PROPERTY" content="...">`.
pub fn extract_meta_property(html: &str, property: &str) -> (value: Option<String>)
    ensures
        value is Some <==> meta_value(html@, "property"@, property@) is Some,
        value is Some ==> value->0@ == meta_value(html@, "property"@, property@)->0,
{
    extract_meta(html, "property", property)
}

/// The first of the options that holds a value.
pub open spec fn first_of(options: Seq<Option<Seq<char>>>) -> Option<Seq<char>>
    decreases options.len(),
{
    if options.len() == 0 {
        None
    } else if options[0] is Some {
        options[0]
    } else {
        first_of(options.drop_first())
    }
}

/// The title of a page: the `title` element, else the `og:title` property,
/// else the `application-name` meta tag, else the first `h1` element.
pub open spec fn title_of(page: Seq<char>) -> Option<Seq<char>> {
    match tag_content(page, "title"@) {
        Some(t) => Some(t),
        None => match meta_value(page, "property"@, "og:title"@) {
            Some(t) => Some(t),
            None => match meta_value(page, "name"@, "application-name"@) {
                Some(t) => Some(t),
                None => tag_content(page, "h1"@),
            },
        },
    }
}

/// The description of a page: the `description` meta tag, else the
/// `og:description` property.
pub open spec fn description_of(page: Seq<char>) -> Option<Seq<char>> {
    match meta_value(page, "name"@, "description"@) {
        Some(d) => Some(d),
        None => meta_value(page, "property"@, "og:description"@),
    }
}

/// Extracts the title of a page.
pub fn extract_title_from_html(html: &str) -> (title: Option<String>)
    ensures
        title is Some <==> title_of(html@) is Some,
        title is Some ==> title->0@ == title_of(html@)->0,
{
    match extract_tag(html, "title") {
        Some(t) => {
            return Some(t);
        },
        None => {},
    }
    match extract_meta_property(html, "og:title") {
        Some(t) => {
            return Some(t);
        },
        None => {},
    }
    match extract_meta_content(html, "application-name") {
        Some(t) => {
            return Some(t);
        },
        None => {},
    }
    extract_tag(html, "h1")
}

/// Extracts the description of a page.
pub fn extract_description_from_html(html: &str) -> (description: Option<String>)
    ensures
        description is Some <==> description_of(html@) is Some,
        description is Some ==> description->0@ == description_of(html@)->0,
{
    match extract_meta_content(html, "description") {
        Some(d) => {
            return Some(d);
        },
        None => {},
    }
    extract_meta_property(html, "og:description")
}

/// The text without the first block that opens with `open` and ends with the
/// first `close` behind it, both looked for in the lowercase of the text.
/// There is no such text where no block is found, or where the block does
/// not lie between character boundaries of the text.
pub open spec fn cut_block(text: Seq<char>, open: Seq<u8>, close: Seq<u8>) -> Option<Seq<char>> {
    let bytes = encode_utf8(text);
    let lower = encode_utf8(unicode_lowercase(text));
    match find_from(lower, open, 0) {
        None => None,
        Some(start) => match find_from(lower, close, start) {
            None => None,
            Some(at) => match (
                text_between(bytes, 0, start),
                text_between(bytes, at + close.len(), bytes.len() as int),
            ) {
                (Some(head), Some(tail)) => Some(head + tail),
                _ => None,
            },
        },
    }
}

/// The text after blocks are cut out of it one by one, at most `rounds` of them.
pub open spec fn without_blocks(text: Seq<char>, open: Seq<u8>, close: Seq<u8>, rounds: nat) -> Seq<
    char,
>
    decreases rounds,
{
    if rounds == 0 {
        text
    } else {
        match cut_block(text, open, close) {
            None => text,
            Some(next) => without_blocks(next, open, close, (rounds - 1) as nat),
        }
    }
}

fn cut_one(text: &str, open: &[u8], close: &[u8]) -> (next: Option<String>)
    ensures
        next is Some <==> cut_block(text@, open@, close@) is Some,
        next is Some ==> next->0@ == cut_block(text@, open@, close@)->0,
{
    let lower = to_lowercase(text);
    let lower_bytes = lower.as_str().as_bytes();
    let start = match find_bytes(lower_bytes, open, 0) {
        Some(start) => start,
        None => {
            return None;
        },
    };
    let at = match find_bytes(lower_bytes, close, start) {
        Some(at) => at,
        None => {
            return None;
        },
    };
    let len: usize = text.as_bytes().len();
    let end: usize = at + close.len();
    if end > len {
        proof {
            vstd::utf8::encode_utf8_valid_utf8(text@);
        }
        return None;
    }
    let head = match slice_str(text, 0, start) {
        Some(head) => head,
        None => {
            return None;
        },
    };
    let tail = match slice_str(text, end, len) {
        Some(tail) => tail,
        None => {
            return None;
        },
    };
    let mut next = String::from_str(head);
    next.append(tail);
    Some(next)
}

fn remove_blocks(text: String, open: &[u8], close: &[u8]) -> (out: String)
    ensures
        out@ == without_blocks(text@, open@, close@, encode_utf8(text@).len()),
{
    let mut rounds: usize = text.as_str().as_bytes().len();
    let mut current: String = text;
    let ghost total = rounds as nat;
    while rounds > 0
        invariant
            total == encode_utf8(text@).len(),
            without_blocks(text@, open@, close@, total) == without_blocks(
                current@,
                open@,
                close@,
                rounds as nat,
            ),
        decreases rounds,
    {
        match cut_one(current.as_str(), open, close) {
            Some(next) => {
                current = next;
                rounds -= 1;
            },
            None => {
                assert(without_blocks(current@, open@, close@, rounds as nat) == current@);
                return current;
            },
        }
    }
    current
}

/// The largest place at or before `limit` that is a character boundary.
pub open spec fn floor_boundary(bytes: Seq<u8>, limit: int) -> int
    decreases limit,
{
    if limit <= 0 {
        0
    } else if is_char_boundary(bytes, limit) {
        limit
    } else {
        floor_boundary(bytes, limit - 1)
    }
}

/// The start of a text that fits in `limit` bytes: the whole text where it
/// fits, else what stands before the last character boundary within the limit.
pub open spec fn truncated_text(text: Seq<char>, limit: usize) -> Seq<char> {
    let bytes = encode_utf8(text);
    if bytes.len() <= limit {
        text
    } else {
        decode_utf8(bytes.subrange(0, floor_boundary(bytes, limit as int)))
    }
}

/// Truncates a string to a number of bytes without splitting a character.
pub fn truncate_at_char_boundary<'a>(s: &'a str, limit: usize) -> (kept: &'a str)
    ensures
        kept@ == truncated_text(s@, limit),
{
    let len: usize = s.as_bytes().len();
    if len <= limit {
        return s;
    }
    let ghost bytes = s.spec_bytes();
    let mut end: usize = limit;
    while end > 0 && !s.is_char_boundary(end)
        invariant
            end <= limit < len,
            bytes == s.spec_bytes(),
            floor_boundary(bytes, limit as int) == floor_boundary(bytes, end as int),
        decreases end,
    {
        end -= 1;
    }
    proof {
        vstd::utf8::encode_utf8_valid_utf8(s@);
        vstd::utf8::is_char_boundary_start_end_of_seq(bytes);
    }
    match slice_str(s, 0, end) {
        Some(kept) => kept,
        None => s,
    }
}

/// The bytes of `<script`.
pub open spec fn script_open() -> Seq<u8> {
    seq![0x3Cu8, 0x73u8, 0x63u8, 0x72u8, 0x69u8, 0x70u8, 0x74u8]
}

/// The bytes of `</script>`.
pub open spec fn script_close() -> Seq<u8> {
    seq![0x3Cu8, 0x2Fu8, 0x73u8, 0x63u8, 0x72u8, 0x69u8, 0x70u8, 0x74u8, 0x3Eu8]
}

/// The bytes of `<style`.
pub open spec fn style_open() -> Seq<u8> {
    seq![0x3Cu8, 0x73u8, 0x74u8, 0x79u8, 0x6Cu8, 0x65u8]
}

/// The bytes of `</style>`.
pub open spec fn style_close() -> Seq<u8> {
    seq![0x3Cu8, 0x2Fu8, 0x73u8, 0x74u8, 0x79u8, 0x6Cu8, 0x65u8, 0x3Eu8]
}

/// The page without its scripts and its style sheets. Of each kind at most as
/// many blocks are cut out as the text has bytes, which is all of them.
pub open spec fn without_code(page: Seq<char>) -> Seq<char> {
    let no_script = without_blocks(
        page,
        script_open(),
        script_close(),
        encode_utf8(page).len(),
    );
    without_blocks(no_script, style_open(), style_close(), encode_utf8(no_script).len())
}

/// The visible text of a page: without scripts, style sheets and tags, every
/// run of whitespace replaced by one space, and no whitespace at either end.
pub open spec fn visible_text(page: Seq<char>) -> Seq<char> {
    trim_ws(collapse_ws(strip_tags(without_code(page))))
}

/// The snippet of a page: its visible text, cut to `max_chars` bytes at a
/// character boundary.
pub open spec fn snippet_of(page: Seq<char>, max_chars: usize) -> Seq<char> {
    truncated_text(visible_text(page), max_chars)
}

/// Removes the scripts and the style sheets from a page.
pub fn remove_code(html: &str) -> (cleaned: String)
    ensures
        cleaned@ == without_code(html@),
{
    let script_open_bytes: [u8; 7] = [0x3Cu8, 0x73u8, 0x63u8, 0x72u8, 0x69u8, 0x70u8, 0x74u8];
    let script_close_bytes: [u8; 9] = [
        0x3Cu8,
        0x2Fu8,
        0x73u8,
        0x63u8,
        0x72u8,
        0x69u8,
        0x70u8,
        0x74u8,
        0x3Eu8,
    ];
    let style_open_bytes: [u8; 6] = [0x3Cu8, 0x73u8, 0x74u8, 0x79u8, 0x6Cu8, 0x65u8];
    let style_close_bytes: [u8; 8] = [
        0x3Cu8,
        0x2Fu8,
        0x73u8,
        0x74u8,
        0x79u8,
        0x6Cu8,
        0x65u8,
        0x3Eu8,
    ];
    proof {
        assert(script_open_bytes@ =~= script_open());
        assert(script_close_bytes@ =~= script_close());
        assert(style_open_bytes@ =~= style_open());
        assert(style_close_bytes@ =~= style_close());
    }
    let page = String::from_str(html);
    let no_script = remove_blocks(
        page,
        script_open_bytes.as_slice(),
        script_close_bytes.as_slice(),
    );
    remove_blocks(no_script, style_open_bytes.as_slice(), style_close_bytes.as_slice())
}

/// Extracts the visible text of a page as a snippet of at most `max_chars` bytes.
pub fn extract_snippet(html: &str, max_chars: usize) -> (snippet: String)
    ensures
        snippet@ == snippet_of(html@, max_chars),
{
    let cleaned = remove_code(html);
    let stripped = strip_html_tags(chars_of(cleaned.as_str()).as_slice());
    let collapsed = collapse_whitespace(stripped.as_slice());
    let visible = string_of(trimmed(collapsed.as_slice()).as_slice());
    let kept = truncate_at_char_boundary(visible.as_str(), max_chars);
    String::from_str(kept)
}

/// Extracts a short snippet for display in a catalog.
pub fn extract_mini_snippet(html: &str, max_chars: usize) -> (snippet: String)
    ensures
        snippet@ == snippet_of(html@, max_chars),
{
    extract_snippet(html, max_chars)
}

/// The page of a web container: the text of the first file of its archive
/// whose name ends with `index.html`.
pub open spec fn index_page(state: Seq<u8>) -> Option<Seq<char>> {
    match decompressed_archive(state) {
        None => None,
        Some(tar) => match tar_file_text(tar, encode_utf8("index.html"@)) {
            None => None,
            Some(bytes) => Some(decode_utf8(bytes)),
        },
    }
}

/// The part of the page of a web container that is searched.
pub open spec fn searched_page(state: Seq<u8>) -> Option<Seq<char>> {
    match index_page(state) {
        None => None,
        Some(page) => Some(truncated_text(page, HTML_SNIPPET_LIMIT)),
    }
}

/// Extracts title and description from the state of a web container: from
/// the first `HTML_SNIPPET_LIMIT` bytes of its `index.html`.
pub fn extract_title_from_state(state: &[u8]) -> (found: (Option<String>, Option<String>))
    ensures
        match searched_page(state@) {
            None => found.0 is None && found.1 is None,
            Some(page) => {
                &&& found.0 is Some <==> title_of(page) is Some
                &&& found.0 is Some ==> found.0->0@ == title_of(page)->0
                &&& found.1 is Some <==> description_of(page) is Some
                &&& found.1 is Some ==> found.1->0@ == description_of(page)->0
            },
        },
{
    let tar = match decompress_web_container(state) {
        Some(tar) => tar,
        None => {
            return (None, None);
        },
    };
    let html = match find_file_in_tar(tar.as_slice(), "index.html") {
        Some(html) => html,
        None => {
            return (None, None);
        },
    };
    proof {
        vstd::utf8::encode_utf8_decode_utf8(html@);
    }
    let page = truncate_at_char_boundary(html.as_str(), HTML_SNIPPET_LIMIT);
    let title = extract_title_from_html(page);
    let description = extract_description_from_html(page);
    (title, description)
}

/// The unsigned number that CBOR encodes at the start of the bytes: a single
/// byte up to 23, or a byte from 24 to 27 followed by the number in one, two,
/// four or eight bytes, most significant first.
pub open spec fn cbor_uint(data: Seq<u8>) -> Option<u64> {
    if data.len() == 0 {
        None
    } else if data[0] <= 0x17 {
        Some(data[0] as u64)
    } else if data[0] == 0x18 && data.len() >= 2 {
        Some(data[1] as u64)
    } else if data[0] == 0x19 && data.len() >= 3 {
        Some((data[1] as u64 * 256 + data[2] as u64) as u64)
    } else if data[0] == 0x1a && data.len() >= 5 {
        Some(be_u32(data.subrange(1, 5)) as u64)
    } else if data[0] == 0x1b && data.len() >= 9 {
        Some(be_u64(data.subrange(1, 9)))
    } else {
        None
    }
}

/// The bytes of the key `version` as CBOR encodes it: a text of seven bytes.
pub open spec fn version_marker() -> Seq<u8> {
    seq![0x67u8, 0x76u8, 0x65u8, 0x72u8, 0x73u8, 0x69u8, 0x6Fu8, 0x6Eu8]
}

/// The version that metadata hold: the number behind the first occurrence of
/// the key `version`.
pub open spec fn cbor_version(metadata: Seq<u8>) -> Option<u64> {
    match find_from(metadata, version_marker(), 0) {
        None => None,
        Some(at) => if at + 8 >= metadata.len() {
            None
        } else {
            cbor_uint(metadata.subrange(at + 8, metadata.len() as int))
        },
    }
}

/// The version of a web container, read from its metadata section of 1 to
/// 1024 bytes.
pub open spec fn state_version(state: Seq<u8>) -> Option<u64> {
    let size = announced_metadata_size(state);
    if state.len() < 16 || size == 0 || size > 1024 || state.len() < 8 + size {
        None
    } else {
        cbor_version(state.subrange(8, 8 + size))
    }
}

fn parse_cbor_uint(data: &[u8]) -> (value: Option<u64>)
    ensures
        value == cbor_uint(data@),
{
    let len: usize = data.len();
    if len == 0 {
        return None;
    }
    let first: u8 = data[0];
    if first <= 0x17 {
        Some(first as u64)
    } else if first == 0x18 && len >= 2 {
        Some(data[1] as u64)
    } else if first == 0x19 && len >= 3 {
        Some(data[1] as u64 * 256 + data[2] as u64)
    } else if first == 0x1a && len >= 5 {
        Some(read_be_u32(data, 1) as u64)
    } else if first == 0x1b && len >= 9 {
        Some(read_be_u64(data, 1))
    } else {
        None
    }
}

fn extract_cbor_version(metadata: &[u8]) -> (version: Option<u64>)
    ensures
        version == cbor_version(metadata@),
{
    let marker: [u8; 8] = [0x67u8, 0x76u8, 0x65u8, 0x72u8, 0x73u8, 0x69u8, 0x6Fu8, 0x6Eu8];
    assert(marker@ =~= version_marker());
    let at = match find_bytes(metadata, marker.as_slice(), 0) {
        Some(at) => at,
        None => {
            return None;
        },
    };
    let start: usize = at + 8;
    if start >= metadata.len() {
        return None;
    }
    parse_cbor_uint(slice_subrange(metadata, start, metadata.len()))
}

/// Extracts the version from the metadata of a web container.
pub fn extract_version_from_state(state: &[u8]) -> (version: Option<u64>)
    ensures
        version == state_version(state@),
{
    let len: usize = state.len();
    if len < 16 {
        return None;
    }
    let size: u64 = read_be_u64(state, 0);
    if size == 0 || size > 1024 {
        return None;
    }
    let end: usize = 8 + size as usize;
    if len < end {
        return None;
    }
    extract_cbor_version(slice_subrange(state, 8, end))
}

} // verus!
