use std::collections::BTreeMap;
use std::io::Cursor;

use freenet_search::web_container::{
    decompress_web_container, detect_web_container, find_file_in_tar, find_saturated_word,
};

#[test]
fn detect_valid_container() {
    let container = make_web_container("<html><body>Hello</body></html>");
    assert!(detect_web_container(&container));
}

#[test]
fn detect_too_short() {
    assert!(!detect_web_container(&[0u8; 10]));
}

#[test]
fn detect_bad_metadata_size() {
    // metadata_size = 0 means no metadata, should be invalid
    let mut data = Vec::new();
    data.extend_from_slice(&0u64.to_be_bytes()); // metadata_size = 0
    data.extend_from_slice(&0u64.to_be_bytes()); // web_size = 0
    assert!(!detect_web_container(&data));
}

#[test]
fn detect_huge_metadata() {
    // metadata_size too large (>1024 bytes seems unreasonable for metadata)
    let mut data = Vec::new();
    data.extend_from_slice(&2000u64.to_be_bytes());
    // Not enough actual data to back this size
    data.extend(std::iter::repeat_n(0u8, 100));
    assert!(!detect_web_container(&data));
}

#[test]
fn detect_size_mismatch() {
    // Create a valid container then truncate it
    let container = make_web_container("<html>Test</html>");
    let truncated = &container[..container.len() / 2];
    assert!(!detect_web_container(truncated));
}

#[test]
fn decompress_valid() {
    let html = "<html><body>Test Content</body></html>";
    let container = make_web_container(html);
    let tar_data = decompress_web_container(&container);
    assert!(tar_data.is_some());
}

#[test]
fn decompress_invalid() {
    assert!(decompress_web_container(b"not a valid container at all").is_none());
}

#[test]
fn find_file_in_tar_found() {
    let html = "<html><body>Found Me</body></html>";
    let container = make_web_container(html);
    let tar_data = decompress_web_container(&container).unwrap();
    let content = find_file_in_tar(&tar_data, "index.html");
    assert_eq!(content, Some(html.to_string()));
}

#[test]
fn find_file_in_tar_missing() {
    let html = "<html><body>Test</body></html>";
    let container = make_web_container(html);
    let tar_data = decompress_web_container(&container).unwrap();
    let content = find_file_in_tar(&tar_data, "nonexistent.html");
    assert_eq!(content, None);
}

#[test]
fn find_file_handles_long_names() {
    // Create a tar with a filename at the max length for the standard header
    let long_name = format!("{}/index.html", "a".repeat(80));
    let html = "<html><body>Long path</body></html>";
    let tar_data = make_tar(&long_name, html.as_bytes());

    // XZ compress it
    let mut compressed = Vec::new();
    lzma_rs::xz_compress(&mut std::io::Cursor::new(&tar_data), &mut compressed).unwrap();

    // Build web container manually
    let metadata_map: std::collections::BTreeMap<String, u64> =
        [("version".to_string(), 1)].into_iter().collect();
    let mut metadata = Vec::new();
    ciborium::ser::into_writer(&metadata_map, &mut metadata).unwrap();

    let mut container = Vec::new();
    container.extend_from_slice(&(metadata.len() as u64).to_be_bytes());
    container.extend_from_slice(&metadata);
    container.extend_from_slice(&(compressed.len() as u64).to_be_bytes());
    container.extend_from_slice(&compressed);

    let decompressed = decompress_web_container(&container).unwrap();
    let content = find_file_in_tar(&decompressed, "index.html");
    assert_eq!(content, Some(html.to_string()));
}


// Builds a tar archive that holds a single file.
fn make_tar(filename: &str, content: &[u8]) -> Vec<u8> {
    let mut tar = Vec::new();
    // 512-byte header
    let mut header = [0u8; 512];
    // name field (0..100)
    let name_bytes = filename.as_bytes();
    header[..name_bytes.len()].copy_from_slice(name_bytes);
    // mode (100..108) = "0000644\0"
    header[100..108].copy_from_slice(b"0000644\0");
    // uid (108..116) = "0000000\0"
    header[108..116].copy_from_slice(b"0000000\0");
    // gid (116..124) = "0000000\0"
    header[116..124].copy_from_slice(b"0000000\0");
    // size (124..136) = octal string
    let size_str = format!("{:011o}\0", content.len());
    header[124..136].copy_from_slice(size_str.as_bytes());
    // mtime (136..148) = "00000000000\0"
    header[136..148].copy_from_slice(b"00000000000\0");
    // type flag (156) = '0' (regular file)
    header[156] = b'0';
    // magic (257..263) = "ustar\0"
    header[257..263].copy_from_slice(b"ustar\0");
    // version (263..265) = "00"
    header[263..265].copy_from_slice(b"00");
    // checksum (148..156) - compute
    // First fill with spaces for checksum calculation
    header[148..156].copy_from_slice(b"        ");
    let cksum: u32 = header.iter().map(|&b| b as u32).sum();
    let cksum_str = format!("{:06o}\0 ", cksum);
    header[148..156].copy_from_slice(cksum_str.as_bytes());

    tar.extend_from_slice(&header);
    tar.extend_from_slice(content);
    // Pad to 512-byte boundary
    let padding = (512 - (content.len() % 512)) % 512;
    tar.extend(std::iter::repeat_n(0u8, padding));
    // End-of-archive marker (two 512-byte blocks of zeros)
    tar.extend(std::iter::repeat_n(0u8, 1024));
    tar
}

// Builds a web container around the given page.
fn make_web_container(html: &str) -> Vec<u8> {
    make_web_container_with_metadata(html, 1)
}

// Builds a web container with the given version in its metadata.
fn make_web_container_with_metadata(html: &str, version: u64) -> Vec<u8> {
    let tar_data = make_tar("index.html", html.as_bytes());

    // XZ compress
    let mut compressed = Vec::new();
    lzma_rs::xz_compress(&mut Cursor::new(&tar_data), &mut compressed).unwrap();

    // CBOR metadata with version key
    let metadata_map: BTreeMap<String, u64> =
        [("version".to_string(), version)].into_iter().collect();
    let mut metadata = Vec::new();
    ciborium::ser::into_writer(&metadata_map, &mut metadata).unwrap();

    let mut result = Vec::new();
    result.extend_from_slice(&(metadata.len() as u64).to_be_bytes());
    result.extend_from_slice(&metadata);
    result.extend_from_slice(&(compressed.len() as u64).to_be_bytes());
    result.extend_from_slice(&compressed);
    result
}

#[test]
fn decompress_stops_at_thirty_mebibytes() {
    let container_of = |size: usize| {
        let mut compressed = Vec::new();
        lzma_rs::xz_compress(&mut Cursor::new(vec![b'a'; size]), &mut compressed).unwrap();
        let mut container = Vec::new();
        container.extend_from_slice(&1u64.to_be_bytes());
        container.push(0xA0);
        container.extend_from_slice(&(compressed.len() as u64).to_be_bytes());
        container.extend_from_slice(&compressed);
        container
    };
    let limit = 30 * 1024 * 1024;
    let small = decompress_web_container(&container_of(4096)).unwrap();
    assert_eq!(small, vec![b'a'; 4096]);
    assert_eq!(decompress_web_container(&container_of(limit + 1)), None);
}

#[test]
fn decompress_refuses_an_empty_archive() {
    let mut compressed = Vec::new();
    lzma_rs::xz_compress(&mut Cursor::new(Vec::<u8>::new()), &mut compressed).unwrap();
    let mut container = Vec::new();
    container.extend_from_slice(&1u64.to_be_bytes());
    container.push(0xA0);
    container.extend_from_slice(&(compressed.len() as u64).to_be_bytes());
    container.extend_from_slice(&compressed);
    assert_eq!(decompress_web_container(&container), None);
}

fn crc32(data: &[u8]) -> u32 {
    let mut crc = 0xFFFF_FFFFu32;
    for byte in data {
        crc ^= *byte as u32;
        for _ in 0..8 {
            crc = if crc & 1 != 0 {
                (crc >> 1) ^ 0xEDB8_8320
            } else {
                crc >> 1
            };
        }
    }
    !crc
}

fn container_around(archive: &[u8]) -> Vec<u8> {
    let mut container = Vec::new();
    container.extend_from_slice(&1u64.to_be_bytes());
    container.push(0xA0);
    container.extend_from_slice(&(archive.len() as u64).to_be_bytes());
    container.extend_from_slice(archive);
    container
}

#[test]
fn saturated_words_are_found() {
    assert!(!find_saturated_word(&[]));
    assert!(!find_saturated_word(&[0xFF, 0xFF, 0xFF]));
    assert!(find_saturated_word(&[0xFF, 0xFF, 0xFF, 0xFF]));
    assert!(!find_saturated_word(&[0xFF, 0xFF, 0xFF, 0xFE, 0xFF, 0xFF, 0xFF]));
    assert!(find_saturated_word(&[0, 0xFF, 0xFF, 0xFF, 0xFF]));
    assert!(find_saturated_word(&[1, 2, 3, 0xFF, 0xFF, 0xFF, 0xFF, 4]));
}

#[test]
fn footer_with_the_largest_backward_size_gives_nothing() {
    // A stream header, an index without records and a footer that announces
    // an index of the largest size.
    let mut stream = vec![0xFD, b'7', b'z', b'X', b'Z', 0x00];
    let flags = [0x00, 0x01];
    stream.extend_from_slice(&flags);
    stream.extend_from_slice(&crc32(&flags).to_le_bytes());
    let index = [0x00, 0x00, 0x00, 0x00];
    stream.extend_from_slice(&index);
    stream.extend_from_slice(&crc32(&index).to_le_bytes());
    let mut tail = vec![0xFF, 0xFF, 0xFF, 0xFF];
    tail.extend_from_slice(&flags);
    stream.extend_from_slice(&crc32(&tail).to_le_bytes());
    stream.extend_from_slice(&tail);
    stream.extend_from_slice(b"YZ");
    assert_eq!(stream.len(), 32);
    let container = container_around(&stream);
    assert!(detect_web_container(&container));
    assert_eq!(decompress_web_container(&container), None);
}

#[test]
fn archive_with_a_saturated_word_gives_nothing() {
    let mut compressed = Vec::new();
    lzma_rs::xz_compress(&mut Cursor::new(vec![0xFEu8; 64]), &mut compressed).unwrap();
    assert_eq!(
        decompress_web_container(&container_around(&compressed)),
        Some(vec![0xFEu8; 64])
    );
    let mut compressed = Vec::new();
    lzma_rs::xz_compress(&mut Cursor::new(vec![0xFFu8; 64]), &mut compressed).unwrap();
    assert_eq!(decompress_web_container(&container_around(&compressed)), None);
}
