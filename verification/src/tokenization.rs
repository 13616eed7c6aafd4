//! Tokens: the terms under which a text is indexed and searched.

use vstd::prelude::*;

use crate::text::{
    chars_of, is_alphanumeric, nfd, str_equal, string_of, to_lowercase, unicode_alphanumeric,
    unicode_lowercase, unicode_nfd,
};

verus! {

/// Whether a word is one of the English stop words, which are not indexed.
pub open spec fn stop_word(w: Seq<char>) -> bool {
    ||| w == "a"@
    ||| w == "an"@
    ||| w == "and"@
    ||| w == "are"@
    ||| w == "as"@
    ||| w == "at"@
    ||| w == "be"@
    ||| w == "but"@
    ||| w == "by"@
    ||| w == "for"@
    ||| w == "if"@
    ||| w == "in"@
    ||| w == "into"@
    ||| w == "is"@
    ||| w == "it"@
    ||| w == "no"@
    ||| w == "not"@
    ||| w == "of"@
    ||| w == "on"@
    ||| w == "or"@
    ||| w == "such"@
    ||| w == "that"@
    ||| w == "the"@
    ||| w == "their"@
    ||| w == "then"@
    ||| w == "there"@
    ||| w == "these"@
    ||| w == "they"@
    ||| w == "this"@
    ||| w == "to"@
    ||| w == "was"@
    ||| w == "will"@
    ||| w == "with"@
}

/// Checks whether a word is a stop word.
pub fn is_stop_word(word: &str) -> (stop: bool)
    ensures
        stop == stop_word(word@),
{
    str_equal(word, "a") || str_equal(word, "an") || str_equal(word, "and") || str_equal(
        word,
        "are",
    ) || str_equal(word, "as") || str_equal(word, "at") || str_equal(word, "be") || str_equal(
        word,
        "but",
    ) || str_equal(word, "by") || str_equal(word, "for") || str_equal(word, "if") || str_equal(
        word,
        "in",
    ) || str_equal(word, "into") || str_equal(word, "is") || str_equal(word, "it") || str_equal(
        word,
        "no",
    ) || str_equal(word, "not") || str_equal(word, "of") || str_equal(word, "on") || str_equal(
        word,
        "or",
    ) || str_equal(word, "such") || str_equal(word, "that") || str_equal(word, "the")
        || str_equal(word, "their") || str_equal(word, "then") || str_equal(word, "there")
        || str_equal(word, "these") || str_equal(word, "they") || str_equal(word, "this")
        || str_equal(word, "to") || str_equal(word, "was") || str_equal(word, "will")
        || str_equal(word, "with")
}

/// Whether a character is a combining mark of the scripts that the index
/// strips of accents: Latin, Cyrillic, Hebrew, Arabic, Syriac, Thaana and
/// Samaritan, and the combining half marks.
pub open spec fn combining_mark(c: char) -> bool {
    let u = c as u32;
    ||| 0x0300 <= u <= 0x036F
    ||| 0x0483 <= u <= 0x0489
    ||| 0x0591 <= u <= 0x05BD
    ||| u == 0x05BF
    ||| 0x05C1 <= u <= 0x05C2
    ||| 0x05C4 <= u <= 0x05C5
    ||| u == 0x05C7
    ||| 0x0610 <= u <= 0x061A
    ||| 0x064B <= u <= 0x065F
    ||| u == 0x0670
    ||| 0x06D6 <= u <= 0x06DC
    ||| 0x06DF <= u <= 0x06E4
    ||| 0x06E7 <= u <= 0x06E8
    ||| 0x06EA <= u <= 0x06ED
    ||| u == 0x0711
    ||| 0x0730 <= u <= 0x074A
    ||| 0x07A6 <= u <= 0x07B0
    ||| 0x0816 <= u <= 0x0819
    ||| 0x081B <= u <= 0x0823
    ||| 0x0825 <= u <= 0x0827
    ||| 0x0829 <= u <= 0x082D
    ||| 0xFE20 <= u <= 0xFE2F
}

fn is_combining_mark(c: char) -> (mark: bool)
    ensures
        mark == combining_mark(c),
{
    let u: u32 = c as u32;
    (0x0300 <= u && u <= 0x036F) || (0x0483 <= u && u <= 0x0489) || (0x0591 <= u && u <= 0x05BD)
        || u == 0x05BF || (0x05C1 <= u && u <= 0x05C2) || (0x05C4 <= u && u <= 0x05C5) || u
        == 0x05C7 || (0x0610 <= u && u <= 0x061A) || (0x064B <= u && u <= 0x065F) || u == 0x0670
        || (0x06D6 <= u && u <= 0x06DC) || (0x06DF <= u && u <= 0x06E4) || (0x06E7 <= u && u
        <= 0x06E8) || (0x06EA <= u && u <= 0x06ED) || u == 0x0711 || (0x0730 <= u && u <= 0x074A)
        || (0x07A6 <= u && u <= 0x07B0) || (0x0816 <= u && u <= 0x0819) || (0x081B <= u && u
        <= 0x0823) || (0x0825 <= u && u <= 0x0827) || (0x0829 <= u && u <= 0x082D) || (0xFE20
        <= u && u <= 0xFE2F)
}

/// The text without its combining marks.
pub open spec fn without_marks(s: Seq<char>) -> Seq<char> {
    s.filter(|c: char| !combining_mark(c))
}

/// The text without its accents: decomposed, and the combining marks dropped.
pub open spec fn unaccented(s: Seq<char>) -> Seq<char> {
    without_marks(unicode_nfd(s))
}

/// The token that a word is indexed under: lowercase and without accents.
pub open spec fn normalized_token(word: Seq<char>) -> Seq<char> {
    unaccented(unicode_lowercase(word))
}

/// Drops the combining marks from a text.
pub fn strip_marks(chars: &[char]) -> (kept: Vec<char>)
    ensures
        kept@ == without_marks(chars@),
{
    let mut kept: Vec<char> = Vec::new();
    let mut i: usize = 0;
    assert(chars@.subrange(0, 0) =~= Seq::<char>::empty());
    while i < chars.len()
        invariant
            i <= chars@.len(),
            kept@ == without_marks(chars@.subrange(0, i as int)),
        decreases chars@.len() - i,
    {
        proof {
            let next = chars@.subrange(0, i + 1);
            assert(next.drop_last() =~= chars@.subrange(0, i as int));
            reveal(Seq::filter);
        }
        if !is_combining_mark(chars[i]) {
            kept.push(chars[i]);
        }
        i += 1;
    }
    assert(chars@.subrange(0, chars@.len() as int) =~= chars@);
    kept
}

fn strip_accents(s: &str) -> (plain: String)
    ensures
        plain@ == unaccented(s@),
{
    let decomposed = nfd(s);
    let kept = strip_marks(chars_of(decomposed.as_str()).as_slice());
    string_of(kept.as_slice())
}

/// Normalizes a single token: lowercase, accents stripped.
pub fn normalize_token(token: &str) -> (normal: String)
    ensures
        normal@ == normalized_token(token@),
{
    let lower = to_lowercase(token);
    strip_accents(lower.as_str())
}

/// The words of a text: its longest runs of alphanumeric characters, in
/// their order.
pub open spec fn words_of(s: Seq<char>) -> Seq<Seq<char>>
    decreases s.len(),
{
    if s.len() == 0 {
        Seq::empty()
    } else {
        let before = words_of(s.drop_last());
        if !unicode_alphanumeric(s.last()) {
            before
        } else if s.len() >= 2 && unicode_alphanumeric(s[s.len() - 2]) && before.len() > 0 {
            before.update(before.len() - 1, before.last().push(s.last()))
        } else {
            before.push(seq![s.last()])
        }
    }
}

/// The tokens that are kept of a list of words: each word normalized, without
/// those that come out empty or as a stop word.
pub open spec fn kept_tokens(words: Seq<Seq<char>>) -> Seq<Seq<char>>
    decreases words.len(),
{
    if words.len() == 0 {
        Seq::empty()
    } else {
        let before = kept_tokens(words.drop_last());
        let token = normalized_token(words.last());
        if token.len() == 0 || stop_word(token) {
            before
        } else {
            before.push(token)
        }
    }
}

/// The tokens of a text.
pub open spec fn tokens_of(text: Seq<char>) -> Seq<Seq<char>> {
    kept_tokens(words_of(text))
}

/// The texts of a list of strings.
pub open spec fn texts(strings: Seq<String>) -> Seq<Seq<char>> {
    strings.map_values(|s: String| s@)
}

/// The words before the run of alphanumeric characters that a text ends
/// with, and that run.
spec fn split_at_last_word(s: Seq<char>) -> (Seq<Seq<char>>, Seq<char>) {
    let words = words_of(s);
    if s.len() > 0 && unicode_alphanumeric(s.last()) && words.len() > 0 {
        (words.drop_last(), words.last())
    } else {
        (words, Seq::empty())
    }
}

proof fn lemma_words_nonempty(s: Seq<char>)
    ensures
        s.len() > 0 && unicode_alphanumeric(s.last()) ==> words_of(s).len() > 0 && words_of(
            s,
        ).last().len() > 0,
    decreases s.len(),
{
    if s.len() > 0 {
        lemma_words_nonempty(s.drop_last());
    }
}

fn take_token(out: &mut Vec<String>, word: &Vec<char>, Ghost(done): Ghost<Seq<Seq<char>>>)
    requires
        texts(old(out)@) == kept_tokens(done),
    ensures
        texts(final(out)@) == kept_tokens(done.push(word@)),
{
    let raw = string_of(word.as_slice());
    let token = normalize_token(raw.as_str());
    proof {
        assert(done.push(word@).drop_last() =~= done);
    }
    if token.as_str().as_bytes().len() > 0 && !is_stop_word(token.as_str()) {
        let ghost before = texts(out@);
        proof {
            lemma_text_empty(token@);
        }
        out.push(token);
        assert(texts(out@) =~= before.push(token@));
    } else {
        proof {
            lemma_text_empty(token@);
        }
    }
}

/// A text has no bytes exactly where it has no characters.
pub proof fn lemma_text_empty(s: Seq<char>)
    ensures
        vstd::utf8::encode_utf8(s).len() == 0 <==> s.len() == 0,
{
    vstd::utf8::encode_utf8_decode_utf8(s);
    if s.len() == 0 {
        assert(vstd::utf8::encode_utf8(s) =~= Seq::<u8>::empty());
    } else if vstd::utf8::encode_utf8(s).len() == 0 {
        assert(vstd::utf8::decode_utf8(Seq::<u8>::empty()) =~= Seq::<char>::empty());
        assert(vstd::utf8::encode_utf8(s) =~= Seq::<u8>::empty());
    }
}

/// Tokenizes a text: splits it at every character that is not alphanumeric,
/// normalizes each word and drops the stop words.
pub fn tokenize(text: &str) -> (tokens: Vec<String>)
    ensures
        texts(tokens@) == tokens_of(text@),
{
    let chars = chars_of(text);
    let mut out: Vec<String> = Vec::new();
    let mut current: Vec<char> = Vec::new();
    let ghost mut done: Seq<Seq<char>> = Seq::empty();
    let mut i: usize = 0;
    proof {
        assert(chars@.subrange(0, 0) =~= Seq::<char>::empty());
        assert(texts(out@) =~= Seq::<Seq<char>>::empty());
    }
    while i < chars.len()
        invariant
            i <= chars@.len(),
            split_at_last_word(chars@.subrange(0, i as int)) == (done, current@),
            texts(out@) == kept_tokens(done),
        decreases chars@.len() - i,
    {
        let c: char = chars[i];
        let ghost head = chars@.subrange(0, i as int);
        let ghost next = chars@.subrange(0, i + 1);
        proof {
            assert(next.drop_last() =~= head);
            assert(next.last() == c);
            if i > 0 {
                assert(next[next.len() - 2] == head.last());
            }
            lemma_words_nonempty(head);
            lemma_words_nonempty(next);
        }
        if is_alphanumeric(c) {
            current.push(c);
            proof {
                let words = words_of(head);
                if head.len() > 0 && unicode_alphanumeric(head.last()) {
                    assert(words_of(next) == words.update(
                        words.len() - 1,
                        words.last().push(c),
                    ));
                    assert(words_of(next).drop_last() =~= words.drop_last());
                } else {
                    assert(words_of(next) == words.push(seq![c]));
                    assert(words_of(next).drop_last() =~= words);
                    assert(current@ =~= seq![c]);
                }
            }
        } else {
            if current.len() > 0 {
                proof {
                    assert(done.push(current@) =~= words_of(head));
                }
                take_token(&mut out, &current, Ghost(done));
                proof {
                    done = done.push(current@);
                }
                current = Vec::new();
            }
            proof {
                assert(current@ =~= Seq::<char>::empty());
            }
        }
        i += 1;
    }
    proof {
        assert(chars@.subrange(0, chars@.len() as int) =~= chars@);
        lemma_words_nonempty(chars@);
    }
    if current.len() > 0 {
        proof {
            assert(done.push(current@) =~= words_of(chars@));
        }
        take_token(&mut out, &current, Ghost(done));
    }
    out
}

/// No token is empty and no token is a stop word.
pub proof fn lemma_tokens_kept(words: Seq<Seq<char>>)
    ensures
        forall|i: int|
            0 <= i < kept_tokens(words).len() ==> (#[trigger] kept_tokens(words)[i]).len() > 0
                && !stop_word(kept_tokens(words)[i]),
    decreases words.len(),
{
    if words.len() > 0 {
        lemma_tokens_kept(words.drop_last());
        let before = kept_tokens(words.drop_last());
        let after = kept_tokens(words);
        assert forall|i: int| 0 <= i < after.len() implies (#[trigger] after[i]).len() > 0
            && !stop_word(after[i]) by {
            if i < before.len() {
                assert(after[i] == before[i]);
            }
        }
    }
}

} // verus!
