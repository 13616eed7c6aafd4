use freenet_search::bloom::{position_from_digest, BloomFilter};
use freenet_search::bytes::{
    bytes_equal, compare_bytes, find_bytes, push_be_u32, push_be_u64, read_be_u32, read_be_u64,
    rfind, Order,
};
use freenet_search::extraction::{
    extract_meta_content, extract_meta_property, extract_mini_snippet, extract_snippet,
    extract_tag, extract_version_from_state, find_meta_span, find_tag_span, remove_code,
    slice_str, strip_html_tags, truncate_at_char_boundary,
};
use freenet_search::hashing::{metadata_hash, shard_for_word, shard_from_digest};
use freenet_search::normalization::{canonical_snippet, normalize_text};
use freenet_search::ordered_map::OrderedMap;
use freenet_search::publication::signing_message;
use freenet_search::text::decimal;
use freenet_search::scoring::{
    bits_of, combined_score, integer_log2, integer_tf_idf, rank_score,
};
use freenet_search::text::{
    chars_of, collapse_whitespace, str_equal, string_of, trim_range, trimmed,
};
use freenet_search::tokenization::{normalize_token, strip_marks, tokenize};
use freenet_search::types::Status;
use freenet_search::web_container::{
    archive_section, detect_web_container, find_file_in_tar, keep_archive, parse_octal_field,
};
use sha2::{Digest, Sha256};

#[test]
fn big_endian_numbers() {
    let mut out = vec![9u8];
    push_be_u32(&mut out, 0x0102_0304);
    push_be_u64(&mut out, 0x1122_3344_5566_7788);
    assert_eq!(
        out,
        vec![9, 1, 2, 3, 4, 0x11, 0x22, 0x33, 0x44, 0x55, 0x66, 0x77, 0x88]
    );
    assert_eq!(read_be_u32(&out, 1), 0x0102_0304);
    assert_eq!(read_be_u64(&out, 5), 0x1122_3344_5566_7788);
    assert_eq!(read_be_u64(&[0xFF; 8], 0), u64::MAX);
}

#[test]
fn bytes_are_ordered_lexicographically() {
    assert_eq!(compare_bytes(b"abc", b"abd"), Order::Before);
    assert_eq!(compare_bytes(b"abd", b"abc"), Order::After);
    assert_eq!(compare_bytes(b"ab", b"abc"), Order::Before);
    assert_eq!(compare_bytes(b"abc", b"ab"), Order::After);
    assert_eq!(compare_bytes(b"", b""), Order::Same);
    assert_eq!(compare_bytes(b"abc", b"abc"), Order::Same);
    assert_eq!(compare_bytes(&[0xFF], &[0x00, 0x01]), Order::After);
    assert!(bytes_equal(b"abc", b"abc"));
    assert!(!bytes_equal(b"abc", b"abd"));
    assert!(!bytes_equal(b"abc", b"ab"));
}

#[test]
fn needles_are_found_first_and_last() {
    assert_eq!(find_bytes(b"abcabc", b"bc", 0), Some(1));
    assert_eq!(find_bytes(b"abcabc", b"bc", 2), Some(4));
    assert_eq!(find_bytes(b"abcabc", b"bc", 5), None);
    assert_eq!(find_bytes(b"abcabc", b"x", 0), None);
    assert_eq!(find_bytes(b"abc", b"", 1), Some(1));
    assert_eq!(find_bytes(b"abc", b"", 3), Some(3));
    assert_eq!(find_bytes(b"abc", b"", 4), None);
    assert_eq!(find_bytes(b"ab", b"abc", 0), None);
    assert_eq!(rfind(b"a<b<c", b'<', 5), Some(3));
    assert_eq!(rfind(b"a<b<c", b'<', 3), Some(1));
    assert_eq!(rfind(b"a<b<c", b'<', 1), None);
}

#[test]
fn ordered_map_keeps_key_order() {
    let mut map: OrderedMap<String, u32> = OrderedMap::new();
    assert!(map.is_empty());
    assert_eq!(map.insert("pear".to_string(), 1), 0);
    assert_eq!(map.insert("apple".to_string(), 2), 0);
    assert_eq!(map.insert("zebra".to_string(), 3), 2);
    assert_eq!(map.insert("banana".to_string(), 4), 1);
    assert_eq!(map.insert("pear".to_string(), 5), 2);
    assert_eq!(map.len(), 4);
    let keys: Vec<String> = (0..map.len()).map(|i| map.key_at(i).clone()).collect();
    assert_eq!(keys, vec!["apple", "banana", "pear", "zebra"]);
    let values: Vec<u32> = (0..map.len()).map(|i| *map.value_at(i)).collect();
    assert_eq!(values, vec![2, 4, 5, 3]);
    assert_eq!(map.get(&"pear".to_string()), Some(&5));
    assert_eq!(map.get(&"plum".to_string()), None);
    assert!(map.contains_key(&"apple".to_string()));
    assert_eq!(map.position(&"zebra".to_string()), Some(3));
    assert_eq!(map.position(&"aardvark".to_string()), None);
    *map.value_at_mut(0) += 10;
    assert_eq!(map.get(&"apple".to_string()), Some(&12));
    let mut by_bytes: OrderedMap<[u8; 32], u8> = OrderedMap::new();
    by_bytes.insert([2u8; 32], 2);
    by_bytes.insert([1u8; 32], 1);
    assert_eq!(*by_bytes.key_at(0), [1u8; 32]);
}

#[test]
fn metadata_hash_is_sha256_of_the_length_prefixed_fields() {
    let mut preimage = Vec::new();
    for field in ["ti", "d\u{00E9}", ""] {
        preimage.extend_from_slice(&(field.len() as u64).to_be_bytes());
        preimage.extend_from_slice(field.as_bytes());
    }
    let expected: [u8; 32] = Sha256::digest(&preimage).into();
    assert_eq!(metadata_hash("ti", "d\u{00E9}", ""), expected);
}

#[test]
fn shard_is_the_digest_modulo_the_count() {
    let digest: [u8; 32] = Sha256::digest(b"hello").into();
    let value = u32::from_be_bytes([digest[0], digest[1], digest[2], digest[3]]);
    assert_eq!(shard_for_word("hello", 16), (value % 16) as u8);
    assert_eq!(shard_for_word("hello", 1), 0);
    let mut made_up = [0u8; 32];
    made_up[3] = 17;
    assert_eq!(shard_from_digest(&made_up, 16), 1);
    made_up[0] = 1;
    // 0x01000011 = 16777233 = 7 * 2396747 + 4.
    assert_eq!(shard_from_digest(&made_up, 7), 4);
}

#[test]
fn bloom_position_is_the_digest_modulo_the_width() {
    let mut digest = [0u8; 32];
    digest[7] = 100;
    assert_eq!(position_from_digest(&digest, 64), 36);
    digest[0] = 0x80;
    assert_eq!(position_from_digest(&digest, 1 << 20), 100);
    assert_eq!(position_from_digest(&[0xFF; 32], 10), 5);
}

#[test]
fn bloom_sets_the_bits_of_its_seven_hashes() {
    let mut filter = BloomFilter::new(8192);
    assert_eq!(filter.bits().len(), 1024);
    assert_eq!(filter.num_bits(), 8192);
    filter.insert(b"item");
    let mut expected = vec![0u8; 1024];
    for prefix in 0..7u8 {
        let mut hasher = Sha256::new();
        hasher.update([prefix]);
        hasher.update(b"item");
        let digest: [u8; 32] = hasher.finalize().into();
        let mut first = [0u8; 8];
        first.copy_from_slice(&digest[..8]);
        let pos = (u64::from_be_bytes(first) % 8192) as usize;
        expected[pos / 8] |= 1 << (pos % 8);
    }
    assert_eq!(filter.bits(), &expected);
    assert_eq!(BloomFilter::new(9).bits().len(), 2);
    assert_eq!(BloomFilter::new(0).bits().len(), 0);
}

#[test]
fn bloom_drops_bits_beyond_its_bytes() {
    // A width of 8192 over one stored byte: most positions are not stored.
    let mut short = BloomFilter::from_parts(vec![0u8], 8192);
    short.insert(b"item");
    assert_eq!(short.bits().len(), 1);
    assert!(!short.contains(b"item"));
}

#[test]
fn scores_have_their_exact_values() {
    assert_eq!(bits_of(0), 0);
    assert_eq!(bits_of(1), 1);
    assert_eq!(bits_of(50000), 16);
    assert_eq!(bits_of(u64::MAX), 64);
    assert_eq!(integer_log2(0), 0);
    assert_eq!(integer_log2(1), 0);
    assert_eq!(integer_log2(5), 2);
    assert_eq!(integer_log2(8), 3);
    // tf = 500, five documents per document with the term, idf = 2 * 10000 + 10000.
    assert_eq!(integer_tf_idf(5, 100, 10, 2), 1500);
    assert_eq!(integer_tf_idf(1, 1, 1, 1), 10000);
    assert_eq!(integer_tf_idf(1, 10, 10, 0), 0);
    assert_eq!(integer_tf_idf(1, 0, 10, 1), 0);
    // One document in two, or in three: the logarithm of the quotient is 1.
    assert_eq!(integer_tf_idf(1, 1, 2, 1), 20000);
    assert_eq!(integer_tf_idf(1, 1, 3, 1), 20000);
    assert_eq!(integer_tf_idf(1, 1, 4, 1), 30000);
    // Fewer than two documents per document with the term.
    assert_eq!(integer_tf_idf(1, 1, 19, 10), 10000);
    assert_eq!(integer_tf_idf(1, 1, 1, 2), 10000);
    assert_eq!(integer_tf_idf(3, 7, u32::MAX, 1), 137120);
    // (3500 * 4000 + 1500 * 3000 + 2000 * 3000) / 10000 = 2450.
    assert_eq!(rank_score(100, 5, 10, &Status::Pending), 2450);
    assert_eq!(rank_score(100, 5, 10, &Status::Confirmed), 5450);
    assert_eq!(rank_score(100, 5, 10, &Status::Disputed), 450);
    assert_eq!(rank_score(100, 5, 10, &Status::Expired), 1450);
    assert_eq!(rank_score(0, 0, 0, &Status::Disputed), 0);
    assert_eq!(rank_score(0, 0, 0, &Status::Expired), 0);
    assert_eq!(rank_score(u32::MAX, u64::MAX, u32::MAX, &Status::Confirmed), 23800);
    assert_eq!(combined_score(10000, 0), 7000);
    assert_eq!(combined_score(0, 10000), 3000);
    assert_eq!(combined_score(u32::MAX, u32::MAX), u32::MAX);
    assert_eq!(combined_score(3, 3), 3);
}

#[test]
fn octal_fields_are_read_like_numbers() {
    assert_eq!(parse_octal_field(b"00000000017\0"), 15);
    assert_eq!(parse_octal_field(b"  17 \0"), 15);
    assert_eq!(parse_octal_field(b"+17"), 15);
    assert_eq!(parse_octal_field(b"+"), 0);
    assert_eq!(parse_octal_field(b""), 0);
    assert_eq!(parse_octal_field(b"\0\0\0"), 0);
    assert_eq!(parse_octal_field(b"18"), 0);
    assert_eq!(parse_octal_field(b"1 7"), 0);
    assert_eq!(parse_octal_field(b"-7"), 0);
    assert_eq!(parse_octal_field(b"7\xC3\xA9"), 0);
    assert_eq!(
        parse_octal_field(b"7777777777777777777777777"),
        0
    );
    assert_eq!(parse_octal_field(b"1777777777777777777777"), usize::MAX);
}

fn tar_entry(name: &[u8], flag: u8, data: &[u8]) -> Vec<u8> {
    let mut header = vec![0u8; 512];
    header[..name.len()].copy_from_slice(name);
    let size = format!("{:011o}\0", data.len());
    header[124..136].copy_from_slice(size.as_bytes());
    header[156] = flag;
    let mut out = header;
    out.extend_from_slice(data);
    out.extend(std::iter::repeat_n(0u8, (512 - data.len() % 512) % 512));
    out
}

#[test]
fn tar_walk_follows_the_entry_types() {
    let mut tar = Vec::new();
    tar.extend(tar_entry(b"dir/", b'5', b""));
    tar.extend(tar_entry(b"pax", b'x', b"12 path=other\n"));
    tar.extend(tar_entry(b"a/other.txt", b'0', b"other"));
    tar.extend(tar_entry(b"././@LongLink", b'L', b"deep/path/index.html\0"));
    tar.extend(tar_entry(b"deep/path/index.ht", b'0', b"<p>long</p>"));
    tar.extend(tar_entry(b"index.html", b'0', b"<p>short</p>"));
    tar.extend(vec![0u8; 1024]);
    assert_eq!(
        find_file_in_tar(&tar, "index.html"),
        Some("<p>long</p>".to_string())
    );
    assert_eq!(
        find_file_in_tar(&tar, "other.txt"),
        Some("other".to_string())
    );
    assert_eq!(find_file_in_tar(&tar, "missing"), None);
    // The empty suffix matches the first file.
    assert_eq!(find_file_in_tar(&tar, ""), Some("other".to_string()));
}

#[test]
fn tar_walk_stops_at_the_zero_block_and_at_broken_data() {
    let mut tar = Vec::new();
    tar.extend(vec![0u8; 512]);
    tar.extend(tar_entry(b"index.html", b'0', b"late"));
    assert_eq!(find_file_in_tar(&tar, "index.html"), None);

    let binary = tar_entry(b"index.html", b'0', &[0xFF, 0xFE]);
    assert_eq!(find_file_in_tar(&binary, "index.html"), None);

    let mut cut = tar_entry(b"index.html", b'0', &[b'x'; 600]);
    cut.truncate(512 + 100);
    assert_eq!(find_file_in_tar(&cut, "index.html"), None);

    // A long name that is no text names nothing.
    let mut tar = Vec::new();
    tar.extend(tar_entry(b"././@LongLink", b'L', &[0xFF, 0xFF]));
    tar.extend(tar_entry(b"index.html", b'0', b"plain"));
    assert_eq!(
        find_file_in_tar(&tar, "index.html"),
        Some("plain".to_string())
    );
    assert_eq!(find_file_in_tar(&[], "index.html"), None);
}

#[test]
fn containers_are_framed() {
    let mut state = Vec::new();
    state.extend_from_slice(&2u64.to_be_bytes());
    state.extend_from_slice(&[0xA0, 0xA0]);
    state.extend_from_slice(&14u64.to_be_bytes());
    state.extend_from_slice(&[7u8; 14]);
    assert!(detect_web_container(&state));
    assert_eq!(archive_section(&state), Some((18, 32)));
    state.push(0);
    assert!(!detect_web_container(&state));
    assert_eq!(archive_section(&state), Some((18, 32)));
    state.truncate(31);
    assert!(!detect_web_container(&state));
    assert_eq!(archive_section(&state), None);
    assert_eq!(keep_archive(Some(vec![1])), Some(vec![1]));
    assert_eq!(keep_archive(Some(Vec::new())), None);
    assert_eq!(keep_archive(None), None);
}

#[test]
fn versions_are_read_from_cbor() {
    let with = |value: &[u8]| {
        let mut metadata = vec![0xA1, 0x67];
        metadata.extend_from_slice(b"version");
        metadata.extend_from_slice(value);
        let mut state = Vec::new();
        state.extend_from_slice(&(metadata.len() as u64).to_be_bytes());
        state.extend_from_slice(&metadata);
        state.extend_from_slice(&[0u8; 8]);
        state
    };
    assert_eq!(extract_version_from_state(&with(&[0x17])), Some(23));
    assert_eq!(extract_version_from_state(&with(&[0x18, 0x2A])), Some(42));
    assert_eq!(extract_version_from_state(&with(&[0x19, 0x01, 0x02])), Some(258));
    assert_eq!(
        extract_version_from_state(&with(&[0x1A, 0, 1, 0, 0])),
        Some(65536)
    );
    assert_eq!(
        extract_version_from_state(&with(&[0x1B, 0, 0, 0, 1, 0, 0, 0, 0])),
        Some(1 << 32)
    );
    assert_eq!(extract_version_from_state(&with(&[0x19, 0x01])), None);
    assert_eq!(extract_version_from_state(&with(&[0x61, 0x31])), None);
    assert_eq!(extract_version_from_state(&with(&[])), None);
    assert_eq!(extract_version_from_state(&[0u8; 15]), None);
    assert_eq!(extract_version_from_state(&[0u8; 16]), None);
}

#[test]
fn text_goes_to_characters_and_back() {
    let text = "a\u{00E9}\u{4F60}!";
    let chars = chars_of(text);
    assert_eq!(chars, vec!['a', '\u{00E9}', '\u{4F60}', '!']);
    assert_eq!(string_of(&chars), text);
    assert!(str_equal("abc", "abc"));
    assert!(!str_equal("abc", "abd"));
    let padded: Vec<char> = " \t x y \n".chars().collect();
    assert_eq!(trim_range(&padded), (3, 6));
    assert_eq!(trimmed(&padded), vec!['x', ' ', 'y']);
    let blank: Vec<char> = " \n ".chars().collect();
    assert_eq!(trimmed(&blank), Vec::<char>::new());
    let runs: Vec<char> = "\ta \n b\u{00A0}".chars().collect();
    assert_eq!(
        string_of(&collapse_whitespace(&runs)),
        " a b "
    );
}

#[test]
fn tokens_are_lowercase_without_accents() {
    assert_eq!(normalize_token("\u{00C9}t\u{00E9}"), "ete");
    assert_eq!(normalize_token("STRASSE"), "strasse");
    let decomposed: Vec<char> = "e\u{0301}a\u{05BF}".chars().collect();
    assert_eq!(strip_marks(&decomposed), vec!['e', 'a']);
    assert_eq!(
        tokenize("The caf\u{00E9}-bar: 2 for 1, AND more_fun"),
        vec!["cafe", "bar", "2", "1", "more", "fun"]
    );
    assert_eq!(tokenize("...!"), Vec::<String>::new());
}

#[test]
fn normal_form_composes_collapses_and_trims() {
    assert_eq!(normalize_text("\u{FEFF} a\u{0301} \t b\u{FEFF}c "), "\u{00E1} bc");
    assert_eq!(normalize_text(" \n"), "");
    assert_eq!(canonical_snippet("  hello   world  ", 7), "hello w");
    assert_eq!(canonical_snippet("hello", 0), "");
}

#[test]
fn slices_respect_character_boundaries() {
    let text = "a\u{00E9}b";
    assert_eq!(slice_str(text, 1, 3), Some("\u{00E9}"));
    assert_eq!(slice_str(text, 0, 4), Some(text));
    assert_eq!(slice_str(text, 2, 3), None);
    assert_eq!(slice_str(text, 1, 2), None);
    assert_eq!(slice_str(text, 3, 1), None);
    assert_eq!(slice_str(text, 4, 5), None);
    assert_eq!(slice_str(text, 4, 4), Some(""));
    assert_eq!(truncate_at_char_boundary(text, 2), "a");
    assert_eq!(truncate_at_char_boundary(text, 3), "a\u{00E9}");
    assert_eq!(truncate_at_char_boundary(text, 0), "");
    assert_eq!(truncate_at_char_boundary("\u{00E9}", 1), "");
    assert_eq!(truncate_at_char_boundary(text, 9), text);
}

#[test]
fn tags_and_meta_values_are_located() {
    let lower = b"<p><title lang=x>hi</title>";
    assert_eq!(find_tag_span(lower, b"title"), Some((17, 19)));
    assert_eq!(find_tag_span(lower, b"h1"), None);
    assert_eq!(find_tag_span(b"<title>open", b"title"), None);
    assert_eq!(find_tag_span(b"<title", b"title"), None);
    let meta = b"<meta name=\"d\" content=\"v w\">";
    assert_eq!(find_meta_span(meta, b"name=\"d\""), Some((24, 27)));
    assert_eq!(find_meta_span(b"name=\"d\" content=\"v\">", b"name=\"d\""), None);
    assert_eq!(find_meta_span(b"<meta name=\"d\">", b"name=\"d\""), None);
    assert_eq!(find_meta_span(b"<meta name=\"d\" content=\"v", b"name=\"d\""), None);
}

#[test]
fn extraction_keeps_the_case_of_the_page() {
    let html = "<TITLE>Mixed Case</TITLE><META NAME=\"description\" CONTENT=\"Kept As Is\">";
    assert_eq!(extract_tag(html, "title"), Some("Mixed Case".to_string()));
    assert_eq!(
        extract_meta_content(html, "description"),
        Some("Kept As Is".to_string())
    );
    assert_eq!(extract_meta_property(html, "og:title"), None);
    assert_eq!(
        extract_meta_content("<meta name=\"x\" content=\"\">", "x"),
        None
    );
    assert_eq!(extract_tag("<title> <b> </b> </title>", "title"), None);
}

#[test]
fn code_and_tags_are_removed() {
    assert_eq!(
        remove_code("a<SCRIPT x>1</script>b<style>2</STYLE>c<script>3</script>d"),
        "abcd"
    );
    assert_eq!(remove_code("a<script>never closed"), "a<script>never closed");
    let chars: Vec<char> = "x<b>y</b>z>w<".chars().collect();
    assert_eq!(string_of(&strip_html_tags(&chars)), "xyzw");
    // Seven bytes end inside the first character of the second word.
    assert_eq!(
        extract_snippet("<p>Hello</p>\n<p>\u{00E9}t\u{00E9}</p>", 7),
        "Hello "
    );
    assert_eq!(
        extract_snippet("<p>Hello</p>\n<p>\u{00E9}t\u{00E9}</p>", 8),
        "Hello \u{00E9}"
    );
    assert_eq!(extract_mini_snippet("<i>a</i>  b", 100), "a b");
}

#[test]
fn numbers_are_written_in_decimal() {
    assert_eq!(decimal(0), "0");
    assert_eq!(decimal(7), "7");
    assert_eq!(decimal(10), "10");
    assert_eq!(decimal(4294967295), "4294967295");
    assert_eq!(decimal(u64::MAX), "18446744073709551615");
    assert_eq!(signing_message(0x0102_0304, b"web"), vec![1, 2, 3, 4, b'w', b'e', b'b']);
}
