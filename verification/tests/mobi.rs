use boko::export::mobi::{
    find_utf8_boundary, language_code, language_code_lower, paths_match, AssetSource, BookContent, MobiConfig,
    MobiExporter,
};
use boko::export::mobi_links::{resolve_internal_links, ChapterSource, PositionMap};
use boko::export::mobi_records::{
    build_eof_marker, build_fcis_record, build_flis_record, build_palmdb_header, sanitize_title,
    MobiEncoding,
};
use boko::export::mobi_toc::{encode_trailing_data, find_element_position, flatten_toc_for_mobi};
use boko::mobi::palmdoc::{compress, decompress};
use boko::model::{ChapterId, Metadata};

#[test]
fn test_mobi_exporter_new() {
    let exporter = MobiExporter::new();
    // Should create successfully
    assert_eq!(exporter.config().max_image_size, (2048, 2048));
}

#[test]
fn test_mobi_config_default() {
    let config = MobiConfig::default();
    assert_eq!(config.max_image_size, (2048, 2048));
    assert_eq!(config.max_image_file_size, 10 * 1024 * 1024);
    assert!(matches!(config.encoding, MobiEncoding::Utf8));
}

#[test]
fn test_builder_creation() {
    // Verify the struct compiles and config works
    let config = MobiConfig::default();
    assert_eq!(config.max_image_size, (2048, 2048));
}

#[test]
fn test_mobi_exporter_creation() {
    // Test that MobiExporter can be created
    let exporter = MobiExporter::new();
    assert!(matches!(exporter.config().encoding, MobiEncoding::Utf8));
}

#[test]
fn language_codes_follow_the_primary_subtag() {
    assert_eq!(language_code("en"), 0x09);
    assert_eq!(language_code("en-US"), 0x09);
    assert_eq!(language_code("DE"), 0x07);
    assert_eq!(language_code("fr-CA"), 0x0C);
    assert_eq!(language_code("ja"), 0x11);
    assert_eq!(language_code("pl"), 0x15);
    assert_eq!(language_code("it-IT"), 0x10);
    assert_eq!(language_code("xx"), 0x09);
    assert_eq!(language_code(""), 0x09);
    assert_eq!(language_code_lower("pt-br"), 0x16);
    assert_eq!(language_code_lower("PT"), 0x09);
}

#[test]
fn utf8_boundary_backs_off_continuation_bytes() {
    let s = "aé".as_bytes(); // 61 C3 A9
    assert_eq!(find_utf8_boundary(s, 3), 3);
    assert_eq!(find_utf8_boundary(s, 2), 1);
    assert_eq!(find_utf8_boundary(s, 10), 3);
    assert_eq!(find_utf8_boundary(b"abc", 2), 2);
}

#[test]
fn palmdoc_roundtrip() {
    let text = b"Hello hello hello, world! The quick brown fox jumps over the lazy dog. \
                 The quick brown fox jumps over the lazy dog again and again.";
    let c = compress(text);
    assert!(c.len() < text.len());
    assert_eq!(decompress(&c), Some(text.to_vec()));
    let bin: Vec<u8> = (0u8..=255).collect();
    assert_eq!(decompress(&compress(&bin)), Some(bin.clone()));
    assert_eq!(decompress(&compress(b"")), Some(Vec::new()));
}

#[test]
fn palmdb_header_is_78_bytes_with_book_mobi_type() {
    let h = build_palmdb_header("My Book", 1_700_000_000, 5);
    assert_eq!(h.len(), 78);
    assert_eq!(&h[0..7], b"My Book");
    assert_eq!(h[7], 0);
    assert_eq!(&h[60..68], b"BOOKMOBI");
    assert_eq!(&h[76..78], &[0, 5]);
    // a name of two-byte characters is cut at a character boundary and NUL-terminated
    let h = build_palmdb_header(&"é".repeat(20), 0, 1);
    assert_eq!(&h[0..30], "é".repeat(15).as_bytes());
    assert_eq!(&h[30..32], &[0, 0]);
}

#[test]
fn sanitize_title_keeps_31_characters() {
    assert_eq!(sanitize_title("A B C"), "A B C");
    let long = "x".repeat(40);
    assert_eq!(sanitize_title(&long), "x".repeat(31));
    assert_eq!(sanitize_title("ééé"), "ééé");
}

#[test]
fn fixed_records() {
    let flis = build_flis_record();
    assert_eq!(flis.len(), 36);
    assert_eq!(&flis[0..4], b"FLIS");
    let fcis = build_fcis_record();
    assert_eq!(&fcis[0..4], b"FCIS");
    assert_eq!(fcis.len(), 52);
    assert_eq!(build_eof_marker(), vec![0xE9, 0x8E, 0x0D, 0x0A]);
}

#[test]
fn element_position_finds_id_attribute() {
    let html = br#"<p>a</p><h1 id="c2">T</h1>"#;
    assert_eq!(find_element_position(html, b"c2"), Some(12));
    assert_eq!(find_element_position(html, b"zz"), None);
}

#[test]
fn trailing_data_encodes_backward_varints() {
    assert!(encode_trailing_data(&[]).is_empty());
    assert_eq!(encode_trailing_data(&[(5, 300)]), vec![0x03, 0x05, 0xAC, 0x02]);
}

#[test]
fn paths_match_normalizes_separators_and_case() {
    assert!(paths_match("OEBPS\\Images\\Cover.JPG", "images/cover.jpg"));
    assert!(paths_match("cover.jpg", "cover.jpg"));
    assert!(!paths_match("a/cover.jpg", "b/other.jpg"));
}

#[test]
fn position_map_keeps_first_place_and_new_value() {
    let mut m = PositionMap::new();
    m.insert(b"a".to_vec(), 1);
    m.insert(b"b".to_vec(), 2);
    m.insert(b"a".to_vec(), 3);
    assert_eq!(m.get(b"a"), Some(3));
    assert_eq!(m.get(b"b"), Some(2));
    assert_eq!(m.get(b"c"), None);
    assert_eq!(m.min_value(), Some(2));
}

fn sample_book() -> BookContent {
    let mut metadata = Metadata::empty();
    metadata.title = "Test Book".to_string();
    metadata.authors = vec!["Author".to_string()];
    metadata.language = "en".to_string();
    BookContent {
        metadata,
        toc: Vec::new(),
        chapters: vec![
            ChapterSource {
                id: ChapterId(0),
                source_path: Some("text/ch1.html".to_string()),
                data: Some(b"<h1>One</h1><p>First chapter.</p>".to_vec()),
            },
            ChapterSource {
                id: ChapterId(1),
                source_path: Some("text/ch2.html".to_string()),
                data: Some(b"<h1>Two</h1><p>Second chapter.</p>".to_vec()),
            },
        ],
        assets: vec![AssetSource { path: "images/pic.png".to_string(), data: Ok(vec![0x89, 0x50, 0x4E, 0x47]) }],
    }
}

#[test]
fn export_writes_a_palmdb_mobi_file() {
    let exporter = MobiExporter::new();
    let (bytes, result) = exporter.export_with_warnings(sample_book(), 1_700_000_000).unwrap();
    assert!(result.success);
    assert!(result.warnings.is_empty());
    assert_eq!(&bytes[60..68], b"BOOKMOBI");
    assert_eq!(&bytes[0..9], b"Test Book");
    // record 0 starts with the PalmDOC header; the MOBI header follows at 16
    let rec0 = u32::from_be_bytes([bytes[78], bytes[79], bytes[80], bytes[81]]) as usize;
    assert_eq!(&bytes[rec0 + 16..rec0 + 20], b"MOBI");
    assert!(bytes.ends_with(&[0xE9, 0x8E, 0x0D, 0x0A]));
}

#[test]
fn prepare_joins_chapters_with_page_breaks_and_anchors() {
    let exporter = MobiExporter::new();
    let (builder, html) = exporter.prepare(sample_book());
    let text = String::from_utf8(html).unwrap();
    assert!(text.starts_with("<a id=\"filepos"));
    assert!(text.contains("<mbp:pagebreak/>"));
    assert!(text.contains("First chapter."));
    assert!(text.contains("Second chapter."));
    assert_eq!(builder.text_length as usize, text.len());
    assert_eq!(builder.image_records.len(), 1);
}

fn toc(title: &str, href: &str) -> boko::model::TocEntry {
    boko::model::TocEntry { title: title.to_string(), href: href.to_string(), target: None, children: Vec::new() }
}

#[test]
fn toc_sections_tile_the_text_when_entries_share_a_position() {
    let entries = vec![toc("A", "#filepos0"), toc("B", "#filepos0"), toc("C", "#filepos5")];
    let r = flatten_toc_for_mobi(&entries, b"", &PositionMap::new(), 10);
    assert_eq!(r.len(), 2);
    assert_eq!((r[0].pos, r[0].length, r[0].label.as_str()), (0, 5, "A"));
    assert_eq!((r[1].pos, r[1].length, r[1].label.as_str()), (5, 5, "C"));
    assert_eq!((r[1].depth, r[1].parent, r[1].first_child, r[1].last_child), (0, -1, -1, -1));
}

#[test]
fn links_into_chapter_sections_resolve_to_the_chapter() {
    let mut m = PositionMap::new();
    m.insert(b"chapter.xhtml".to_vec(), 100);
    m.insert(b"ChapterId(0)".to_vec(), 7);
    let out = resolve_internal_links(br#"<a href="chapter.xhtml#section">S</a><a href="chapter.xhtml">T</a><a href="other.xhtml#x">U</a>"#, &m);
    assert_eq!(String::from_utf8(out).unwrap(), r#"<a filepos="100">S</a><a filepos="100">T</a><a href="other.xhtml#x">U</a>"#);
}

#[test]
fn failed_image_loads_are_warned() {
    let mut book = sample_book();
    book.assets.push(AssetSource { path: "images/missing.jpg".to_string(), data: Err("not found".to_string()) });
    book.assets.push(AssetSource { path: "style.css".to_string(), data: Err("not found".to_string()) });
    let (_, result) = MobiExporter::new().export_with_warnings(book, 0).unwrap();
    assert!(result.success);
    assert_eq!(result.warnings, vec!["Failed to load image \"images/missing.jpg\": not found".to_string()]);
}

#[test]
fn image_warning_escapes_the_path_like_debug() {
    let mut book = sample_book();
    book.assets.push(AssetSource { path: "images/a\"b\\c.png".to_string(), data: Err("denied".to_string()) });
    let (_, result) = MobiExporter::new().export_with_warnings(book, 0).unwrap();
    assert_eq!(result.warnings, vec![format!("Failed to load image {:?}: denied", "images/a\"b\\c.png")]);
}
