use std::collections::HashMap;

use boko::mobi::html_filter::{
    filter_html_for_mobi6, is_mobi6_tag_name, is_supported_tag, strip_kindle_attributes,
    strip_mobi_artifact_bytes, strip_mobi_artifacts,
};

#[test]
fn test_supported_tags() {
    assert!(is_supported_tag("h1"));
    assert!(is_supported_tag("p"));
    assert!(is_supported_tag("img"));
    assert!(is_supported_tag("table"));
    assert!(!is_supported_tag("video"));
    assert!(!is_supported_tag("audio"));
}

#[test]
fn test_filter_simple_html() {
    let html = r#"<div><p>Hello</p><video src="test.mp4"/></div>"#;
    let (filtered, _warnings) = filter_html_for_mobi6(html, &HashMap::new());

    // Should keep p (the HTML is passed through)
    assert!(filtered.contains("<p>"));
    assert!(!filtered.contains("video"));
}

#[test]
fn test_strip_mbp_pagebreak() {
    let html = "<p>Chapter 1</p><mbp:pagebreak/><p>Chapter 2</p>";
    let result = strip_mobi_artifacts(html);
    assert_eq!(result, "<p>Chapter 1</p><p>Chapter 2</p>");
}

#[test]
fn test_strip_filepos_anchors_self_closing() {
    let html = r#"<p>Text</p><a id="filepos12345" /><p>More</p>"#;
    let result = strip_mobi_artifacts(html);
    assert_eq!(result, "<p>Text</p><p>More</p>");
}

#[test]
fn test_strip_filepos_anchors_with_close_tag() {
    let html = r#"<p>Text</p><a id="filepos0000100"></a><p>More</p>"#;
    let result = strip_mobi_artifacts(html);
    assert_eq!(result, "<p>Text</p><p>More</p>");
}

#[test]
fn test_preserves_normal_anchors() {
    let html = r##"<p><a id="chapter1" />Text</p><a href="#chapter1">Link</a>"##;
    let result = strip_mobi_artifacts(html);
    assert!(result.contains(r#"<a id="chapter1" />"#));
    assert!(result.contains(r##"<a href="#chapter1">Link</a>"##));
    assert!(!result.contains("filepos"));
}

#[test]
fn test_strip_all_artifacts() {
    let html = r#"<a id="filepos0" /><mbp:pagebreak/><p>Hello</p><mbp:pagebreak/><a id="filepos500" /><p>World</p>"#;
    let result = strip_mobi_artifacts(html);
    assert_eq!(result, "<p>Hello</p><p>World</p>");
}

#[test]
fn test_strip_aid_attribute() {
    let html = r#"<p aid="0001">Hello</p><div aid="00AB">World</div>"#;
    let result = strip_mobi_artifacts(html);
    assert!(!result.contains("aid="), "aid should be removed: {}", result);
    assert!(result.contains("Hello</p>"), "content preserved: {}", result);
    assert!(result.contains("World</div>"), "content preserved: {}", result);
}

#[test]
fn test_strip_amzn_data_attributes() {
    let html = r#"<p data-AmznRemoved="true">Text</p><span data-amzn-track="1">More</span>"#;
    let result = strip_mobi_artifacts(html);
    assert!(!result.contains("data-Amzn"), "data-Amzn should be removed: {}", result);
    assert!(!result.contains("data-amzn"), "data-amzn should be removed: {}", result);
    assert!(result.contains("Text</p>"));
    assert!(result.contains("More</span>"));
}

#[test]
fn test_combined_mobi_artifacts() {
    let html = r#"<a id="filepos100" /><mbp:pagebreak/><p aid="0050">Chapter</p><img src="cover.jpg" data-AmznPageBreak="true"/>"#;
    let result = strip_mobi_artifacts(html);
    assert!(!result.contains("filepos"), "filepos anchors removed");
    assert!(!result.contains("mbp:"), "mbp tags removed");
    assert!(!result.contains("aid="), "aid attributes removed");
    assert!(!result.contains("data-Amzn"), "data-Amzn removed");
    assert!(result.contains("Chapter</p>"), "content preserved");
    assert!(result.contains(r#"src="cover.jpg""#), "img src preserved without amzn attr");
}

#[test]
fn tag_names_in_any_case() {
    assert!(is_supported_tag("H1"));
    assert!(is_supported_tag("Span"));
    assert!(is_supported_tag("TD"));
    assert!(!is_supported_tag("h7"));
    assert!(!is_supported_tag("section"));
    assert!(is_mobi6_tag_name("br"));
    assert!(!is_mobi6_tag_name("BR"));
}

#[test]
fn filter_drops_unsupported_tags_with_warnings() {
    let html = r#"<div><p>Hello</p><video src="test.mp4"/></div>"#;
    let (out, warnings) = filter_html_for_mobi6(html, &HashMap::new());
    assert_eq!(out, "<div><p>Hello</p></div>");
    assert_eq!(warnings, vec!["Unsupported tag removed: video".to_string()]);

    let (out, warnings) = filter_html_for_mobi6("<X>y</x> a < b <!-- c --><B>z</B>", &HashMap::new());
    assert_eq!(out, "y a < b <!-- c --><B>z</B>");
    assert_eq!(warnings.len(), 2);
    assert_eq!(warnings[0], "Unsupported tag removed: X");
    assert_eq!(warnings[1], "Unsupported tag removed: x");
}

#[test]
fn recindex_attributes_are_stripped() {
    let result = strip_mobi_artifacts(r#"<p>x</p><img recindex="00001" />"#);
    assert!(!result.contains("recindex="));
    assert!(result.contains("<p>x</p>"));
}

#[test]
fn kindle_attributes_only_inside_tags() {
    assert_eq!(strip_kindle_attributes(br#"text aid="1" <b aid='2' c="3">x</b>"#), br#"text aid="1" <b c="3">x</b>"#.to_vec());
    assert_eq!(strip_kindle_attributes(b"<p aida=\"1\">"), b"<p aida=\"1\">".to_vec());
    assert_eq!(strip_kindle_attributes(b"<p aid=\"unterminated>"), b"<p aid=\"unterminated>".to_vec());
}

#[test]
fn unclosed_anchor_keeps_its_opening() {
    assert_eq!(strip_mobi_artifact_bytes(b"x<a id=\"filepos1"), b"x<a id=\"filepos1".to_vec());
    assert_eq!(strip_mobi_artifact_bytes(b"<a id=\"filepos9\">t</a>u"), b"u".to_vec());
    assert_eq!(strip_mobi_artifact_bytes(b"<mbp:pagebreak>a"), b"a".to_vec());
}
