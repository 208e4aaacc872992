use boko::export::resolve_cover_asset;
use boko::export::text::{
    assemble_markdown, build_img_dir_path, image_names, is_image_extension, is_image_path, prepare_markdown_export,
    rewrite_image_refs, Footnote, MarkdownConfig, MarkdownExporter, RenderedChapter,
};

#[test]
fn exporter_configuration() {
    assert_eq!(MarkdownExporter::new().config().line_width, 0);
    assert_eq!(MarkdownExporter::with_config(MarkdownConfig { line_width: 72 }).config().line_width, 72);
    assert_eq!(MarkdownConfig::default().line_width, 0);
}

#[test]
fn image_dir_sits_beside_the_output() {
    assert_eq!(build_img_dir_path("out/book.md"), "out/book_img");
    assert_eq!(build_img_dir_path("book.md"), "book_img");
}

#[test]
fn image_paths_by_extension() {
    assert!(is_image_path("a/b.JPG"));
    assert!(is_image_path("x.webp"));
    assert!(is_image_path("x.tif"));
    assert!(!is_image_path("x.css"));
    assert!(!is_image_path("noext"));
    assert!(is_image_extension("jpeg"));
    assert!(!is_image_extension("JPEG"));
}

#[test]
fn image_names_by_path_and_file_name() {
    let m = image_names(&vec!["img/a.png".to_string(), "b.jpg".to_string(), "c".to_string()]);
    let as_str: Vec<(String, String)> = m
        .iter()
        .map(|(k, v)| (String::from_utf8(k.clone()).unwrap(), String::from_utf8(v.clone()).unwrap()))
        .collect();
    assert_eq!(
        as_str,
        vec![
            ("img/a.png".to_string(), "image_0000.png".to_string()),
            ("a.png".to_string(), "image_0000.png".to_string()),
            ("b.jpg".to_string(), "image_0001.jpg".to_string()),
            ("c".to_string(), "image_0002.bin".to_string()),
        ]
    );
}

#[test]
fn references_are_rewritten() {
    let map = vec![(b"img/a.png".to_vec(), b"image_0000.png".to_vec())];
    let out = rewrite_image_refs(b"![x](img/a.png) and ![y](img/a.pngx)", &map, b"book_img");
    assert_eq!(out, b"![x](book_img/image_0000.png) and ![y](img/a.pngx)".to_vec());
}

#[test]
fn chapters_are_separated_and_footnoted() {
    let chapters = vec![
        RenderedChapter { content: "# One\n".into(), footnotes: vec![Footnote { number: 1, content: "note".into() }] },
        RenderedChapter { content: "# Two\n".into(), footnotes: Vec::new() },
    ];
    let doc = String::from_utf8(assemble_markdown(&chapters)).unwrap();
    assert_eq!(doc, "# One\n\n[^1]: note\n\n---\n\n# Two\n");
    assert!(assemble_markdown(&Vec::new()).is_empty());
}

#[test]
fn export_plan_rewrites_and_lists_images() {
    let chapters = vec![RenderedChapter { content: "![c](images/cover.jpg)\n".into(), footnotes: Vec::new() }];
    let assets = vec!["images/cover.jpg".to_string(), "style.css".to_string()];
    let plan = prepare_markdown_export(&chapters, &assets, "out/book.md");
    assert_eq!(plan.img_dir, "out/book_img");
    assert_eq!(plan.markdown, "![c](book_img/image_0000.jpg)\n");
    assert_eq!(plan.images, vec![("images/cover.jpg".to_string(), b"image_0000.jpg".to_vec())]);
}

#[test]
fn cover_asset_resolution() {
    let assets = vec!["OEBPS/Images/Cover.JPG".to_string(), "other/cover.png".to_string()];
    assert_eq!(resolve_cover_asset(Some("images/cover.jpg"), &assets), Some(0));
    assert_eq!(resolve_cover_asset(Some("OEBPS\\Images\\cover.jpg"), &assets), Some(0));
    assert_eq!(resolve_cover_asset(Some("elsewhere/cover.png"), &assets), Some(1));
    assert_eq!(resolve_cover_asset(Some("missing.gif"), &assets), None);
    assert_eq!(resolve_cover_asset(Some(""), &assets), None);
    assert_eq!(resolve_cover_asset(None, &assets), None);
}
