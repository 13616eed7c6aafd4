//! Discovery of web applications: the metadata that a replica derives from
//! the state of a web container before it contributes to the index.

use vstd::prelude::*;
use vstd::slice::slice_subrange;
use vstd::utf8::{decode_utf8, encode_utf8};

use crate::bytes::{find_bytes, find_from};
use crate::extraction::{
    description_of, extract_description_from_html as page_description, extract_meta_content,
    extract_meta_property, extract_mini_snippet, extract_snippet,
    extract_title_from_html as page_title, find_tag_span, index_page, meta_value, remove_code,
    searched_page, slice_str, snippet_of, source_between, source_text, strip_html_tags, strip_tags,
    tag_span, text_between, title_of, truncate_at_char_boundary, truncated_text, without_code,
    HTML_SNIPPET_LIMIT,
};
use crate::hashing::{metadata_digest, metadata_hash};
use crate::normalization::{
    canonical_description, canonical_snippet, canonical_title, first_chars, normalized_text,
};
use crate::text::{
    chars_of, collapse_whitespace, collapse_ws, string_of, to_lowercase, trim_end_index,
    trim_start_index, trim_ws, trim_ws_end, trim_ws_start, trimmed, unicode_lowercase,
};
use crate::web_container::{decompress_web_container, find_file_in_tar};

verus! {

/// The most characters of a snippet that is indexed.
pub const SNIPPET_CHARS: usize = 2000;

/// The most characters of a snippet that is shown in the catalog.
pub const MINI_SNIPPET_CHARS: usize = 300;

/// The most bytes of the text of a page that stand in for a description.
pub const BODY_DESCRIPTION_BYTES: usize = 200;

/// The metadata that are extracted from the state of a web container.
#[derive(Clone, Debug, PartialEq, Eq)]
pub struct ExtractedMetadata {
    pub title: Option<String>,
    pub description: Option<String>,
    pub snippet: String,
    pub mini_snippet: String,
    pub metadata_hash: [u8; 32],
}

/// A text, or the empty text where there is none.
pub open spec fn text_or_empty(text: Option<Seq<char>>) -> Seq<char> {
    match text {
        Some(t) => t,
        None => Seq::empty(),
    }
}

/// The canonical title of a page, where it has a title.
pub open spec fn page_canonical_title(page: Seq<char>) -> Option<Seq<char>> {
    match title_of(page) {
        Some(t) => Some(first_chars(normalized_text(t), 256)),
        None => None,
    }
}

/// The canonical description of a page, where it has a description.
pub open spec fn page_canonical_description(page: Seq<char>) -> Option<Seq<char>> {
    match description_of(page) {
        Some(d) => Some(first_chars(normalized_text(d), 1024)),
        None => None,
    }
}

/// The canonical snippet of a page of at most `max` characters.
pub open spec fn page_canonical_snippet(page: Seq<char>, max: usize) -> Seq<char> {
    first_chars(normalized_text(snippet_of(page, max)), max)
}

/// The hash under which the metadata of a page are attested: that of its
/// canonical title and description, empty where it has none, and its
/// canonical mini snippet.
pub open spec fn page_hash(page: Seq<char>) -> Seq<u8> {
    metadata_digest(
        encode_utf8(text_or_empty(page_canonical_title(page))),
        encode_utf8(text_or_empty(page_canonical_description(page))),
        encode_utf8(page_canonical_snippet(page, MINI_SNIPPET_CHARS)),
    )
}

/// Whether `metadata` are the metadata of a page.
pub open spec fn is_metadata_of(page: Seq<char>, metadata: ExtractedMetadata) -> bool {
    &&& metadata.title is Some <==> page_canonical_title(page) is Some
    &&& metadata.title is Some ==> metadata.title->0@ == page_canonical_title(page)->0
    &&& metadata.description is Some <==> page_canonical_description(page) is Some
    &&& metadata.description is Some ==> metadata.description->0@ == page_canonical_description(
        page,
    )->0
    &&& metadata.snippet@ == page_canonical_snippet(page, SNIPPET_CHARS)
    &&& metadata.mini_snippet@ == page_canonical_snippet(page, MINI_SNIPPET_CHARS)
    &&& metadata.metadata_hash@ == page_hash(page)
}

/// Derives the metadata of a page.
pub fn metadata_of_page(html: &str) -> (metadata: ExtractedMetadata)
    ensures
        is_metadata_of(html@, metadata),
{
    let title = match page_title(html) {
        Some(t) => Some(canonical_title(t.as_str())),
        None => None,
    };
    let description = match page_description(html) {
        Some(d) => Some(canonical_description(d.as_str())),
        None => None,
    };
    let snippet = canonical_snippet(extract_snippet(html, SNIPPET_CHARS).as_str(), SNIPPET_CHARS);
    let mini_snippet = canonical_snippet(
        extract_mini_snippet(html, MINI_SNIPPET_CHARS).as_str(),
        MINI_SNIPPET_CHARS,
    );
    let empty = String::new();
    let hash = metadata_hash(
        match &title {
            Some(t) => t.as_str(),
            None => empty.as_str(),
        },
        match &description {
            Some(d) => d.as_str(),
            None => empty.as_str(),
        },
        mini_snippet.as_str(),
    );
    ExtractedMetadata { title, description, snippet, mini_snippet, metadata_hash: hash }
}

/// The whole extraction: decompresses the web container, finds `index.html`
/// and derives title, description, snippets and metadata hash. There are no
/// metadata where the container holds no readable page.
pub fn extract_metadata(state: &[u8]) -> (metadata: Option<ExtractedMetadata>)
    ensures
        metadata is Some <==> index_page(state@) is Some,
        metadata is Some ==> is_metadata_of(index_page(state@)->0, metadata->0),
{
    let tar = match decompress_web_container(state) {
        Some(tar) => tar,
        None => {
            return None;
        },
    };
    let html = match find_file_in_tar(tar.as_slice(), "index.html") {
        Some(html) => html,
        None => {
            return None;
        },
    };
    proof {
        vstd::utf8::encode_utf8_decode_utf8(html@);
    }
    Some(metadata_of_page(html.as_str()))
}

/// The text of the first element of a page with the given tag, trimmed; the
/// tags within it stay.
pub open spec fn plain_tag_content(page: Seq<char>, tag: Seq<char>) -> Option<Seq<char>> {
    let lower = encode_utf8(unicode_lowercase(page));
    match tag_span(lower, encode_utf8(tag)) {
        None => None,
        Some((from, to)) => match source_between(encode_utf8(page), lower, from, to) {
            None => None,
            Some(content) => if trim_ws(content).len() == 0 {
                None
            } else {
                Some(trim_ws(content))
            },
        },
    }
}

/// Extracts the content between `<tag>` and `</tag>`, trimmed.
pub fn extract_tag(html: &str, tag: &str) -> (text: Option<String>)
    ensures
        text is Some <==> plain_tag_content(html@, tag@) is Some,
        text is Some ==> text->0@ == plain_tag_content(html@, tag@)->0,
{
    let lower = to_lowercase(html);
    let (from, to) = match find_tag_span(lower.as_str().as_bytes(), tag.as_bytes()) {
        Some(span) => span,
        None => {
            return None;
        },
    };
    let content = match source_text(html, lower.as_str(), from, to) {
        Some(content) => content,
        None => {
            return None;
        },
    };
    let kept = trimmed(content.as_slice());
    if kept.len() == 0 {
        None
    } else {
        Some(string_of(kept.as_slice()))
    }
}

/// The title that a page shows: the `title` element as it stands, else the
/// `og:title` property, else the `application-name` meta tag, else the first
/// `h1` element as it stands.
pub open spec fn shown_title(page: Seq<char>) -> Option<Seq<char>> {
    match plain_tag_content(page, "title"@) {
        Some(t) => Some(t),
        None => match meta_value(page, "property"@, "og:title"@) {
            Some(t) => Some(t),
            None => match meta_value(page, "name"@, "application-name"@) {
                Some(t) => Some(t),
                None => plain_tag_content(page, "h1"@),
            },
        },
    }
}

/// Extracts the title that a page shows.
pub fn extract_title_from_html(html: &str) -> (title: Option<String>)
    ensures
        title is Some <==> shown_title(html@) is Some,
        title is Some ==> title->0@ == shown_title(html@)->0,
{
    match extract_tag(html, "title") {
        Some(t) => {
            return Some(t);
        },
        None => {},
    }
    match extract_meta_property(html, "og:title") {
        Some(t) => {
            return Some(t);
        },
        None => {},
    }
    match extract_meta_content(html, "application-name") {
        Some(t) => {
            return Some(t);
        },
        None => {},
    }
    extract_tag(html, "h1")
}

/// The bytes of `<body`.
pub open spec fn body_open() -> Seq<u8> {
    seq![0x3Cu8, 0x62u8, 0x6Fu8, 0x64u8, 0x79u8]
}

/// The bytes of `</body>`.
pub open spec fn body_close() -> Seq<u8> {
    seq![0x3Cu8, 0x2Fu8, 0x62u8, 0x6Fu8, 0x64u8, 0x79u8, 0x3Eu8]
}

/// The body of a page: what stands between the `>` that ends the first
/// `<body` and the next `</body>`, or the end of the page; the whole page
/// where it has no `<body`. There is none where `<body` is never closed by a
/// `>`, or where the body does not lie between character boundaries.
pub open spec fn body_of(text: Seq<char>) -> Option<Seq<char>> {
    let bytes = encode_utf8(text);
    let lower = encode_utf8(unicode_lowercase(text));
    match find_from(lower, body_open(), 0) {
        None => Some(text),
        Some(start) => match find_from(lower, seq![0x3Eu8], start) {
            None => None,
            Some(gt) => {
                let end = match find_from(lower, body_close(), gt + 1) {
                    Some(end) => end,
                    None => bytes.len() as int,
                };
                text_between(bytes, gt + 1, end)
            },
        },
    }
}

/// The text of a body as it is read: tags removed, whitespace at the start
/// dropped, runs of whitespace replaced by one space, whitespace at the end
/// dropped.
pub open spec fn readable_text(body: Seq<char>) -> Seq<char> {
    trim_ws(collapse_ws(trim_ws_start(strip_tags(body))))
}

/// The start of the readable text of a page that stands in for a missing
/// description: the whole text where it has at most `max_chars` bytes, else
/// what fits before a character boundary, without whitespace at its end.
/// There is none where the page has no body or no text.
pub open spec fn body_snippet(page: Seq<char>, max_chars: usize) -> Option<Seq<char>> {
    match body_of(without_code(page)) {
        None => None,
        Some(body) => {
            let text = readable_text(body);
            let bytes = encode_utf8(text);
            if text.len() == 0 {
                None
            } else if bytes.len() <= max_chars {
                Some(text)
            } else {
                Some(trim_ws_end(truncated_text(text, max_chars)))
            }
        },
    }
}

fn body_text(text: &str) -> (body: Option<Vec<char>>)
    ensures
        body is Some <==> body_of(text@) is Some,
        body is Some ==> body->0@ == body_of(text@)->0,
{
    let lower = to_lowercase(text);
    let lower_bytes = lower.as_str().as_bytes();
    let open: [u8; 5] = [0x3Cu8, 0x62u8, 0x6Fu8, 0x64u8, 0x79u8];
    let close: [u8; 7] = [0x3Cu8, 0x2Fu8, 0x62u8, 0x6Fu8, 0x64u8, 0x79u8, 0x3Eu8];
    let gt: [u8; 1] = [0x3Eu8];
    proof {
        assert(open@ =~= body_open());
        assert(close@ =~= body_close());
        assert(gt@ =~= seq![0x3Eu8]);
    }
    let start = match find_bytes(lower_bytes, open.as_slice(), 0) {
        Some(start) => start,
        None => {
            return Some(chars_of(text));
        },
    };
    let content_start = match find_bytes(lower_bytes, gt.as_slice(), start) {
        Some(at) => at + 1,
        None => {
            return None;
        },
    };
    let end = match find_bytes(lower_bytes, close.as_slice(), content_start) {
        Some(end) => end,
        None => text.as_bytes().len(),
    };
    match slice_str(text, content_start, end) {
        Some(part) => Some(chars_of(part)),
        None => None,
    }
}

fn extract_body_text_snippet(html: &str, max_chars: usize) -> (snippet: Option<String>)
    ensures
        snippet is Some <==> body_snippet(html@, max_chars) is Some,
        snippet is Some ==> snippet->0@ == body_snippet(html@, max_chars)->0,
{
    let cleaned = remove_code(html);
    let body = match body_text(cleaned.as_str()) {
        Some(body) => body,
        None => {
            return None;
        },
    };
    let stripped = strip_html_tags(body.as_slice());
    let start = trim_start_index(stripped.as_slice());
    let rest = slice_subrange(stripped.as_slice(), start, stripped.len());
    assert(rest@ =~= stripped@.skip(start as int));
    let collapsed = collapse_whitespace(rest);
    let text = string_of(trimmed(collapsed.as_slice()).as_slice());
    proof {
        vstd::utf8::encode_utf8_decode_utf8(text@);
        if text@.len() == 0 {
            assert(encode_utf8(text@) =~= Seq::<u8>::empty());
        } else if encode_utf8(text@).len() == 0 {
            assert(encode_utf8(text@) =~= Seq::<u8>::empty());
            assert(decode_utf8(Seq::<u8>::empty()) =~= Seq::<char>::empty());
        }
    }
    let len: usize = text.as_str().as_bytes().len();
    if len == 0 {
        return None;
    }
    if len <= max_chars {
        return Some(text);
    }
    let cut = chars_of(truncate_at_char_boundary(text.as_str(), max_chars));
    let end = trim_end_index(cut.as_slice());
    Some(string_of(slice_subrange(cut.as_slice(), 0, end)))
}

/// The description that a page shows: the `description` meta tag, else the
/// `og:description` property, else the start of its readable text.
pub open spec fn shown_description(page: Seq<char>) -> Option<Seq<char>> {
    match description_of(page) {
        Some(d) => Some(d),
        None => body_snippet(page, BODY_DESCRIPTION_BYTES),
    }
}

/// Extracts the description that a page shows.
pub fn extract_description_from_html(html: &str) -> (description: Option<String>)
    ensures
        description is Some <==> shown_description(html@) is Some,
        description is Some ==> description->0@ == shown_description(html@)->0,
{
    match page_description(html) {
        Some(d) => {
            return Some(d);
        },
        None => {},
    }
    extract_body_text_snippet(html, BODY_DESCRIPTION_BYTES)
}

/// Extracts the title and the description that the page of a web container
/// shows, from the first `HTML_SNIPPET_LIMIT` bytes of its `index.html`.
pub fn extract_title_from_state(state: &[u8]) -> (found: (Option<String>, Option<String>))
    ensures
        match searched_page(state@) {
            None => found.0 is None && found.1 is None,
            Some(page) => {
                &&& found.0 is Some <==> shown_title(page) is Some
                &&& found.0 is Some ==> found.0->0@ == shown_title(page)->0
                &&& found.1 is Some <==> shown_description(page) is Some
                &&& found.1 is Some ==> found.1->0@ == shown_description(page)->0
            },
        },
{
    let tar = match decompress_web_container(state) {
        Some(tar) => tar,
        None => {
            return (None, None);
        },
    };
    let html = match find_file_in_tar(tar.as_slice(), "index.html") {
        Some(html) => html,
        None => {
            return (None, None);
        },
    };
    proof {
        vstd::utf8::encode_utf8_decode_utf8(html@);
    }
    let page = truncate_at_char_boundary(html.as_str(), HTML_SNIPPET_LIMIT);
    let title = extract_title_from_html(page);
    let description = extract_description_from_html(page);
    (title, description)
}

} // verus!
