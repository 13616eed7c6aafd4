use std::collections::BTreeMap;
use std::io::Cursor;

use freenet_search::extraction::{extract_description_from_html, extract_snippet, extract_title_from_html, extract_version_from_state};

// ============================================================================
// Title extraction tests
// ============================================================================

#[test]
fn title_from_title_tag() {
    let html = "<html><head><title>My Page Title</title></head><body></body></html>";
    let result = extract_title_from_html(html);
    assert_eq!(result, Some("My Page Title".to_string()));
}

#[test]
fn title_from_og_title() {
    let html =
        r#"<html><head><meta property="og:title" content="OG Title"></head><body></body></html>"#;
    let result = extract_title_from_html(html);
    assert_eq!(result, Some("OG Title".to_string()));
}

#[test]
fn title_from_application_name() {
    let html =
        r#"<html><head><meta name="application-name" content="My App"></head><body></body></html>"#;
    let result = extract_title_from_html(html);
    assert_eq!(result, Some("My App".to_string()));
}

#[test]
fn title_from_h1() {
    let html = "<html><body><h1>Heading Title</h1></body></html>";
    let result = extract_title_from_html(html);
    assert_eq!(result, Some("Heading Title".to_string()));
}

#[test]
fn title_priority_title_over_og() {
    let html = r#"<html><head><title>Title Tag</title><meta property="og:title" content="OG Title"></head></html>"#;
    let result = extract_title_from_html(html);
    assert_eq!(result, Some("Title Tag".to_string()));
}

#[test]
fn title_priority_og_over_h1() {
    let html = r#"<html><head><meta property="og:title" content="OG Title"></head><body><h1>H1 Title</h1></body></html>"#;
    let result = extract_title_from_html(html);
    assert_eq!(result, Some("OG Title".to_string()));
}

#[test]
fn title_none_when_empty() {
    let html = "<html><head></head><body><p>No title here</p></body></html>";
    let result = extract_title_from_html(html);
    assert_eq!(result, None);
}

#[test]
fn title_strips_whitespace() {
    let html = "<html><head><title>  Spaced Title  </title></head></html>";
    let result = extract_title_from_html(html);
    assert_eq!(result, Some("Spaced Title".to_string()));
}

#[test]
fn title_handles_nested_tags() {
    let html = "<html><head><title>Hello <b>World</b></title></head></html>";
    let result = extract_title_from_html(html);
    // Should extract just the text content
    assert_eq!(result, Some("Hello World".to_string()));
}

// ============================================================================
// Description extraction tests
// ============================================================================

#[test]
fn description_from_meta() {
    let html =
        r#"<html><head><meta name="description" content="A test description"></head></html>"#;
    let result = extract_description_from_html(html);
    assert_eq!(result, Some("A test description".to_string()));
}

#[test]
fn description_from_og() {
    let html =
        r#"<html><head><meta property="og:description" content="OG Description"></head></html>"#;
    let result = extract_description_from_html(html);
    assert_eq!(result, Some("OG Description".to_string()));
}

#[test]
fn description_priority() {
    let html = r#"<html><head>
        <meta name="description" content="Meta Description">
        <meta property="og:description" content="OG Description">
    </head></html>"#;
    let result = extract_description_from_html(html);
    assert_eq!(result, Some("Meta Description".to_string()));
}

#[test]
fn description_none_when_empty() {
    let html = "<html><head></head><body></body></html>";
    let result = extract_description_from_html(html);
    assert_eq!(result, None);
}

// ============================================================================
// Snippet extraction tests
// ============================================================================

#[test]
fn snippet_strips_scripts() {
    let html = "<html><body><p>Hello</p><script>alert('xss')</script><p>World</p></body></html>";
    let result = extract_snippet(html, 1000);
    assert!(!result.contains("alert"));
    assert!(result.contains("Hello"));
    assert!(result.contains("World"));
}

#[test]
fn snippet_strips_styles() {
    let html =
        "<html><head><style>body { color: red; }</style></head><body><p>Visible</p></body></html>";
    let result = extract_snippet(html, 1000);
    assert!(!result.contains("color"));
    assert!(result.contains("Visible"));
}

#[test]
fn snippet_strips_tags() {
    let html = "<html><body><p>Hello <b>bold</b> <a href='#'>link</a></p></body></html>";
    let result = extract_snippet(html, 1000);
    assert!(!result.contains('<'));
    assert!(!result.contains('>'));
    assert!(result.contains("Hello"));
    assert!(result.contains("bold"));
    assert!(result.contains("link"));
}

#[test]
fn snippet_respects_max_chars() {
    let html = "<html><body><p>This is a long paragraph that should be truncated at the limit</p></body></html>";
    let result = extract_snippet(html, 20);
    assert!(result.len() <= 20);
}

#[test]
fn snippet_collapses_whitespace() {
    let html = "<html><body><p>Hello    \n\t   World</p></body></html>";
    let result = extract_snippet(html, 1000);
    // Should collapse multiple whitespace into single space
    assert!(result.contains("Hello World") || result.contains("Hello world"));
    assert!(!result.contains("    "));
}

// ============================================================================
// Version extraction from state
// ============================================================================

#[test]
fn version_from_valid_state() {
    let container =
        make_web_container_with_metadata("<html><body>test</body></html>", 42);
    let version = extract_version_from_state(&container);
    assert_eq!(version, Some(42));
}


// Builds a tar archive that holds a single file.
fn make_tar(filename: &str, content: &[u8]) -> Vec<u8> {
    let mut tar = Vec::new();
    // 512-byte header
    let mut header = [0u8; 512];
    // name field (0..100)
    let name_bytes = filename.as_bytes();
    header[..name_bytes.len()].copy_from_slice(name_bytes);
    // mode (100..108) = "0000644\0"
    header[100..108].copy_from_slice(b"0000644\0");
    // uid (108..116) = "0000000\0"
    header[108..116].copy_from_slice(b"0000000\0");
    // gid (116..124) = "0000000\0"
    header[116..124].copy_from_slice(b"0000000\0");
    // size (124..136) = octal string
    let size_str = format!("{:011o}\0", content.len());
    header[124..136].copy_from_slice(size_str.as_bytes());
    // mtime (136..148) = "00000000000\0"
    header[136..148].copy_from_slice(b"00000000000\0");
    // type flag (156) = '0' (regular file)
    header[156] = b'0';
    // magic (257..263) = "ustar\0"
    header[257..263].copy_from_slice(b"ustar\0");
    // version (263..265) = "00"
    header[263..265].copy_from_slice(b"00");
    // checksum (148..156) - compute
    // First fill with spaces for checksum calculation
    header[148..156].copy_from_slice(b"        ");
    let cksum: u32 = header.iter().map(|&b| b as u32).sum();
    let cksum_str = format!("{:06o}\0 ", cksum);
    header[148..156].copy_from_slice(cksum_str.as_bytes());

    tar.extend_from_slice(&header);
    tar.extend_from_slice(content);
    // Pad to 512-byte boundary
    let padding = (512 - (content.len() % 512)) % 512;
    tar.extend(std::iter::repeat_n(0u8, padding));
    // End-of-archive marker (two 512-byte blocks of zeros)
    tar.extend(std::iter::repeat_n(0u8, 1024));
    tar
}

// Builds a web container around the given page.
fn make_web_container(html: &str) -> Vec<u8> {
    make_web_container_with_metadata(html, 1)
}

// Builds a web container with the given version in its metadata.
fn make_web_container_with_metadata(html: &str, version: u64) -> Vec<u8> {
    let tar_data = make_tar("index.html", html.as_bytes());

    // XZ compress
    let mut compressed = Vec::new();
    lzma_rs::xz_compress(&mut Cursor::new(&tar_data), &mut compressed).unwrap();

    // CBOR metadata with version key
    let metadata_map: BTreeMap<String, u64> =
        [("version".to_string(), version)].into_iter().collect();
    let mut metadata = Vec::new();
    ciborium::ser::into_writer(&metadata_map, &mut metadata).unwrap();

    let mut result = Vec::new();
    result.extend_from_slice(&(metadata.len() as u64).to_be_bytes());
    result.extend_from_slice(&metadata);
    result.extend_from_slice(&(compressed.len() as u64).to_be_bytes());
    result.extend_from_slice(&compressed);
    result
}
