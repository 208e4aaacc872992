use boko::import::markdown::{
    build_chapter_tree, first_heading_text, h1_starts_of, is_web_link, ImportError, MarkdownConfig,
    MarkdownImporter, MdEvent, MdTag,
};
use boko::model::{AnchorTarget, ChapterId, Role, TextStyle};

const DOC: &str = "# My Document\n\nIntro *text* here.\n\n# Second\n\nMore `code`.\n";

#[test]
fn from_source_splits_at_level_one_headings() {
    let imp = MarkdownImporter::from_source(DOC.as_bytes().to_vec()).unwrap();
    assert_eq!(imp.metadata().title, "My Document");
    assert_eq!(imp.metadata().language, "en");
    assert_eq!(imp.spine().len(), 2);
    assert_eq!(imp.spine()[1].id, ChapterId(1));
    assert_eq!(imp.spine()[0].size_estimate, 0);
    assert_eq!(imp.source_id(ChapterId(0)), Some("chapter-1.md"));
    assert_eq!(imp.source_id(ChapterId(1)), Some("chapter-2.md"));
    assert_eq!(imp.source_id(ChapterId(2)), None);
    let first = imp.load_raw(ChapterId(0)).unwrap();
    assert_eq!(String::from_utf8(first).unwrap(), "# My Document\n\nIntro *text* here.\n\n");
    let second = imp.load_raw(ChapterId(1)).unwrap();
    assert_eq!(String::from_utf8(second).unwrap(), "# Second\n\nMore `code`.\n");
    assert_eq!(imp.load_raw(ChapterId(5)), Err(ImportError::ChapterNotFound(5)));
    // the chapters' bytes, in order, give the document back from its first heading
    let mut all = imp.load_raw(ChapterId(0)).unwrap();
    all.extend(imp.load_raw(ChapterId(1)).unwrap());
    assert_eq!(all, DOC.as_bytes());
    assert!(imp.toc().is_empty());
}

#[test]
fn text_before_the_first_heading_opens_the_first_chapter() {
    let imp = MarkdownImporter::from_source(b"Intro\n\n# A\n\nx\n".to_vec()).unwrap();
    assert_eq!(imp.spine().len(), 1);
    assert_eq!(imp.load_raw(ChapterId(0)).unwrap(), b"Intro\n\n# A\n\nx\n".to_vec());
}

#[test]
fn document_without_headings_is_one_chapter() {
    let imp = MarkdownImporter::from_source(b"Just text.\n".to_vec()).unwrap();
    assert_eq!(imp.metadata().title, "memory");
    assert_eq!(imp.spine().len(), 1);
    assert_eq!(imp.spine()[0].size_estimate, 11);
    assert_eq!(imp.source_id(ChapterId(0)), Some("memory.md"));
    let doc = MarkdownImporter::from_document("books/novel.md".to_string(), "## Only h2\n".to_string());
    assert_eq!(doc.metadata().title, "novel");
    assert_eq!(doc.source_id(ChapterId(0)), Some("novel.md"));
}

#[test]
fn invalid_utf8_is_refused() {
    assert!(matches!(MarkdownImporter::from_source(vec![0xFF, 0xFE]), Err(ImportError::InvalidUtf8)));
}

#[test]
fn first_heading_text_is_the_title() {
    let imp = MarkdownImporter::from_source(b"Intro\n\n# Title *here*\n".to_vec()).unwrap();
    assert_eq!(imp.extract_first_heading(), Some("Title ".to_string()));
    assert_eq!(imp.metadata().title, "Title ");
}

#[test]
fn load_chapter_builds_a_tree() {
    let mut imp = MarkdownImporter::from_source(DOC.as_bytes().to_vec()).unwrap();
    let (ch, added) = imp.load_chapter(ChapterId(0)).unwrap();
    assert!(added.is_empty());
    assert_eq!(ch.nodes[0].role, Role::Root);
    assert!(ch.nodes.iter().any(|n| n.role == Role::Heading(1)));
    assert!(ch.nodes.iter().any(|n| n.role == Role::Paragraph));
    assert!(ch.nodes.iter().any(|n| n.role == Role::Inline && n.style == TextStyle::Italic));
    for (i, n) in ch.nodes.iter().enumerate().skip(1) {
        assert!(n.parent < i);
    }
    assert!(ch.text.contains("My Document"));
    assert!(ch.text.contains("Intro "));
    let heading = ch.nodes.iter().position(|n| n.role == Role::Heading(1)).unwrap();
    let title = ch.nodes.iter().find(|n| n.role == Role::Text && n.parent == heading).unwrap();
    assert_eq!(&ch.text[title.text_start..title.text_end], "My Document");

    let (ch2, _) = imp.load_chapter(ChapterId(1)).unwrap();
    let code = ch2.nodes.iter().position(|n| n.style == TextStyle::Monospace).unwrap();
    let code_text = ch2.nodes.iter().find(|n| n.role == Role::Text && n.parent == code).unwrap();
    assert_eq!(&ch2.text[code_text.text_start..code_text.text_end], "code");
    assert!(matches!(imp.load_chapter(ChapterId(9)), Err(ImportError::ChapterNotFound(9))));
}

#[test]
fn images_are_tracked_once() {
    let doc = "# A\n\n![a](img/a.png) ![b](img/a.png) ![w](https://x.org/w.png) [l](http://x.org)\n";
    let mut imp = MarkdownImporter::from_document("book/doc.md".to_string(), doc.to_string());
    let (ch, added) = imp.load_chapter(ChapterId(0)).unwrap();
    assert_eq!(added, vec![("img/a.png".to_string(), "book/img/a.png".to_string())]);
    assert_eq!(imp.list_assets(), &vec!["book/img/a.png".to_string()]);
    let img = ch.nodes.iter().find(|n| n.role == Role::Image).unwrap();
    assert_eq!(img.src, Some("img/a.png".to_string()));
    let link = ch.nodes.iter().find(|n| n.role == Role::Link).unwrap();
    assert_eq!(link.href, Some("http://x.org".to_string()));
    let (_, again) = imp.load_chapter(ChapterId(0)).unwrap();
    assert!(again.is_empty());
}

#[test]
fn asset_cache_replaces_by_key() {
    let mut imp = MarkdownImporter::from_document("d.md".to_string(), "x".to_string());
    assert_eq!(imp.cached_asset("a.png"), None);
    imp.cache_asset("a.png".to_string(), vec![1]);
    imp.cache_asset("b.png".to_string(), vec![2]);
    imp.cache_asset("a.png".to_string(), vec![3]);
    assert_eq!(imp.cached_asset("a.png"), Some(vec![3]));
    assert_eq!(imp.cached_asset("b.png"), Some(vec![2]));
}

#[test]
fn only_web_links_resolve() {
    let imp = MarkdownImporter::from_document("d.md".to_string(), "x".to_string());
    match imp.resolve_href(ChapterId(0), " mailto:user@example.com\n") {
        Some(AnchorTarget::External(u)) => assert_eq!(u, "mailto:user@example.com"),
        _ => panic!("expected an external link"),
    }
    assert!(matches!(imp.resolve_href(ChapterId(0), "tel:123"), Some(AnchorTarget::External(_))));
    match imp.resolve_href(ChapterId(0), "  https://example.com/a  ") {
        Some(AnchorTarget::External(u)) => assert_eq!(u, "https://example.com/a"),
        _ => panic!("expected an external link"),
    }
    assert!(imp.resolve_href(ChapterId(0), "chapter2.md#x").is_none());
    assert!(imp.resolve_href(ChapterId(0), "ftp://x").is_none());
}

#[test]
fn markdown_config_default() {
    let c = MarkdownConfig::default();
    assert!(c.split_on_h1);
    assert!(c.extract_front_matter);
    assert!(c.enable_gfm);
    assert!(c.asset_base_dir.is_none());
}

#[test]
fn tree_from_given_events() {
    let evs = vec![
        (MdEvent::Start, String::new(), 0, 9),
        (MdEvent::Start, String::new(), 0, 5),
        (MdEvent::Text, "Hi".to_string(), 1, 3),
        (MdEvent::End, String::new(), 0, 5),
        (MdEvent::Text, " there".to_string(), 5, 9),
        (MdEvent::End, String::new(), 0, 9),
        (MdEvent::Rule, String::new(), 9, 12),
    ];
    let tags = vec![MdTag::Paragraph, MdTag::Emphasis, MdTag::NoElement, MdTag::NoElement, MdTag::NoElement, MdTag::NoElement, MdTag::NoElement];
    let (ch, added) = build_chapter_tree(&evs, &tags, &Vec::new(), &".".to_string());
    assert!(added.is_empty());
    let roles: Vec<Role> = ch.nodes.iter().map(|n| n.role).collect();
    // the emphasis end closes the inline node, " there" goes to the
    // paragraph, and the paragraph end leaves the rule under the root
    assert_eq!(roles, vec![Role::Root, Role::Paragraph, Role::Inline, Role::Text, Role::Text, Role::Rule]);
    let parents: Vec<usize> = ch.nodes.iter().map(|n| n.parent).collect();
    assert_eq!(parents, vec![0, 0, 1, 2, 1, 0]);
    assert_eq!(ch.text, "Hi there");
    assert_eq!((ch.nodes[3].text_start, ch.nodes[3].text_end), (0, 2));
    assert_eq!((ch.nodes[4].text_start, ch.nodes[4].text_end), (2, 8));
}

#[test]
fn heading_scan_on_given_events() {
    let evs = vec![
        (MdEvent::Text, "pre".to_string(), 0, 3),
        (MdEvent::Start, String::new(), 4, 10),
        (MdEvent::Text, "Title".to_string(), 6, 11),
        (MdEvent::Start, String::new(), 12, 20),
        (MdEvent::Start, String::new(), 21, 30),
    ];
    let tags = vec![MdTag::NoElement, MdTag::Heading(1), MdTag::NoElement, MdTag::Heading(2), MdTag::Heading(1)];
    assert_eq!(h1_starts_of(&evs, &tags), vec![4, 21]);
    assert_eq!(first_heading_text(&evs, &tags), Some("Title".to_string()));
    assert_eq!(first_heading_text(&evs[..2].to_vec(), &tags), None);
}

#[test]
fn web_links() {
    assert!(is_web_link("http://a"));
    assert!(is_web_link("https://a"));
    assert!(!is_web_link("HTTP://a"));
    assert!(!is_web_link("mailto:x"));
}

const SIMPLE: &str = "# My Document\n\nThis is the first paragraph.\n\n## Section One\n\nMore text here.\n\n# Chapter Two\n\nSecond chapter text.\n";

#[test]
fn test_open_markdown_file() {
    let importer = MarkdownImporter::from_document("tests/fixtures/markdown/simple.md".to_string(), SIMPLE.to_string());
    assert!(!importer.metadata().title.is_empty());
    assert_eq!(importer.metadata().title, "My Document");

    // Verify chapter splitting - should have 2 chapters from the 2 H1 headings
    let spine = importer.spine();
    assert_eq!(spine.len(), 2, "Should detect 2 chapters from H1 headings");
}

#[test]
fn test_load_chapter_paragraphs() {
    let mut importer = MarkdownImporter::from_source(SIMPLE.as_bytes().to_vec()).unwrap();
    let (chapter, _) = importer.load_chapter(ChapterId(0)).unwrap();

    let found_heading = chapter.nodes.iter().any(|n| matches!(n.role, Role::Heading(_)));
    let found_paragraph = chapter.nodes.iter().any(|n| n.role == Role::Paragraph);
    assert!(found_heading, "Should find at least one heading node");
    assert!(found_paragraph, "Should find at least one paragraph node");
}

#[test]
fn test_image_extraction() {
    let doc = "# Images\n\n![A picture](images/pic.png)\n\nText.\n";
    let mut importer = MarkdownImporter::from_document("tests/fixtures/markdown/with_images.md".to_string(), doc.to_string());
    let _ = importer.load_chapter(ChapterId(0));
    let assets = importer.list_assets();
    assert!(!assets.is_empty(), "Should extract images");
}
