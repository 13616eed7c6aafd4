use std::collections::BTreeMap;
use std::io::Cursor;

use freenet_search::discovery::{
    extract_description_from_html, extract_metadata, extract_tag, extract_title_from_html,
    extract_title_from_state, metadata_of_page,
};
use freenet_search::extraction::extract_title_from_state as extract_plain_title_from_state;
use freenet_search::hashing::metadata_hash;

fn make_tar(filename: &str, content: &[u8]) -> Vec<u8> {
    let mut tar = Vec::new();
    let mut header = [0u8; 512];
    let name_bytes = filename.as_bytes();
    header[..name_bytes.len()].copy_from_slice(name_bytes);
    header[100..108].copy_from_slice(b"0000644\0");
    header[108..116].copy_from_slice(b"0000000\0");
    header[116..124].copy_from_slice(b"0000000\0");
    let size_str = format!("{:011o}\0", content.len());
    header[124..136].copy_from_slice(size_str.as_bytes());
    header[136..148].copy_from_slice(b"00000000000\0");
    header[156] = b'0';
    header[257..263].copy_from_slice(b"ustar\0");
    header[263..265].copy_from_slice(b"00");
    tar.extend_from_slice(&header);
    tar.extend_from_slice(content);
    let padding = (512 - (content.len() % 512)) % 512;
    tar.extend(std::iter::repeat_n(0u8, padding));
    tar.extend(std::iter::repeat_n(0u8, 1024));
    tar
}

fn make_web_container(html: &str) -> Vec<u8> {
    let tar_data = make_tar("index.html", html.as_bytes());
    let mut compressed = Vec::new();
    lzma_rs::xz_compress(&mut Cursor::new(&tar_data), &mut compressed).unwrap();
    let metadata_map: BTreeMap<String, u64> = [("version".to_string(), 1)].into_iter().collect();
    let mut metadata = Vec::new();
    ciborium::ser::into_writer(&metadata_map, &mut metadata).unwrap();
    let mut result = Vec::new();
    result.extend_from_slice(&(metadata.len() as u64).to_be_bytes());
    result.extend_from_slice(&metadata);
    result.extend_from_slice(&(compressed.len() as u64).to_be_bytes());
    result.extend_from_slice(&compressed);
    result
}

const PAGE: &str = "<html><head><title>  My   App </title>\
<meta name=\"description\" content=\"A  small app\"></head>\
<body><script>var x = 1;</script><p>Hello   world</p></body></html>";

#[test]
fn metadata_are_canonical() {
    let metadata = metadata_of_page(PAGE);
    assert_eq!(metadata.title, Some("My App".to_string()));
    assert_eq!(metadata.description, Some("A small app".to_string()));
    assert_eq!(metadata.snippet, "My App Hello world");
    assert_eq!(metadata.mini_snippet, "My App Hello world");
    assert_eq!(
        metadata.metadata_hash,
        metadata_hash("My App", "A small app", "My App Hello world")
    );
}

#[test]
fn metadata_without_title_hash_the_empty_text() {
    let metadata = metadata_of_page("<p>Only text</p>");
    assert_eq!(metadata.title, None);
    assert_eq!(metadata.description, None);
    assert_eq!(metadata.snippet, "Only text");
    assert_eq!(metadata.metadata_hash, metadata_hash("", "", "Only text"));
}

#[test]
fn metadata_come_from_the_container() {
    let container = make_web_container(PAGE);
    let metadata = extract_metadata(&container).unwrap();
    assert_eq!(metadata, metadata_of_page(PAGE));
}

#[test]
fn no_metadata_without_a_page() {
    assert_eq!(extract_metadata(b"not a container"), None);
    assert_eq!(extract_metadata(&[]), None);
}

#[test]
fn shown_tag_keeps_inner_tags() {
    let html = "<html><head><title>Hello <b>World</b></title></head></html>";
    assert_eq!(
        extract_tag(html, "title"),
        Some("Hello <b>World</b>".to_string())
    );
    assert_eq!(
        extract_title_from_html(html),
        Some("Hello <b>World</b>".to_string())
    );
    assert_eq!(extract_tag(html, "h1"), None);
    assert_eq!(extract_tag("<title>   </title>", "title"), None);
}

#[test]
fn shown_title_falls_back_in_order() {
    let og = r#"<meta property="og:title" content="OG Title"><h1>Heading</h1>"#;
    assert_eq!(extract_title_from_html(og), Some("OG Title".to_string()));
    let app = r#"<meta name="application-name" content="My App"><h1>Heading</h1>"#;
    assert_eq!(extract_title_from_html(app), Some("My App".to_string()));
    assert_eq!(
        extract_title_from_html("<h1> Heading </h1>"),
        Some("Heading".to_string())
    );
    assert_eq!(extract_title_from_html("<p>none</p>"), None);
}

#[test]
fn shown_description_prefers_meta_tags() {
    let html = r#"<meta name="description" content="From meta"><body>Body text</body>"#;
    assert_eq!(
        extract_description_from_html(html),
        Some("From meta".to_string())
    );
    let og = r#"<meta property="og:description" content="From og"><body>Body text</body>"#;
    assert_eq!(
        extract_description_from_html(og),
        Some("From og".to_string())
    );
}

#[test]
fn shown_description_falls_back_to_the_body() {
    let html = "<html><head><style>p { color: red; }</style></head>\
<body class=\"x\">  <p>Hello</p>\n\n<script>alert(1)</script><p>world</p> </body></html>";
    assert_eq!(
        extract_description_from_html(html),
        Some("Hello world".to_string())
    );
    assert_eq!(
        extract_description_from_html("plain   text"),
        Some("plain text".to_string())
    );
    assert_eq!(extract_description_from_html("<body   "), None);
    assert_eq!(extract_description_from_html("<body>  </body>"), None);
}

#[test]
fn body_description_is_cut_at_two_hundred_bytes() {
    let html = format!("<body>{}</body>", "word ".repeat(100));
    // 200 bytes end with a space, which is dropped.
    let expected = format!("{}word", "word ".repeat(39));
    assert_eq!(extract_description_from_html(&html), Some(expected));
}

#[test]
fn titles_come_from_the_container() {
    let container = make_web_container(PAGE);
    assert_eq!(
        extract_title_from_state(&container),
        (Some("My   App".to_string()), Some("A  small app".to_string()))
    );
    assert_eq!(
        extract_plain_title_from_state(&container),
        (Some("My   App".to_string()), Some("A  small app".to_string()))
    );
    assert_eq!(extract_title_from_state(b"junk"), (None, None));
    assert_eq!(extract_plain_title_from_state(b"junk"), (None, None));
}

#[test]
fn hash_is_of_the_mini_snippet() {
    let words: Vec<String> = (0..120).map(|i| format!("word{}", i)).collect();
    let page = format!(
        "<html><head><title>Long</title></head> <body><p>{}</p></body></html>",
        words.join(" ")
    );
    let metadata = metadata_of_page(&page);
    assert!(metadata.snippet.chars().count() > 300);
    assert!(metadata.mini_snippet.chars().count() <= 300);
    assert_ne!(metadata.snippet, metadata.mini_snippet);
    assert!(metadata.snippet.starts_with(&metadata.mini_snippet));
    assert_eq!(
        metadata.metadata_hash,
        metadata_hash("Long", "", &metadata.mini_snippet)
    );
}
