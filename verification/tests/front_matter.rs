use boko::import::front_matter::{
    cover_lookup_path, default_language, frame_front_matter, front_matter_span, front_matter_to_metadata,
    is_front_matter_empty, metadata_to_front_matter, FrontMatter, FrontMatterCollection,
    FrontMatterContributor,
};
use boko::model::{CollectionInfo, Contributor, Metadata};

fn metadata(title: &str, language: &str) -> Metadata {
    let mut m = Metadata::empty();
    m.title = title.to_string();
    m.language = language.to_string();
    m
}

#[test]
fn test_roundtrip_metadata() {
    let base_dir = "/books/test";

    // Create original metadata
    let original = Metadata {
        title: "Test Book".to_string(),
        authors: vec!["Author One".to_string()],
        language: "en".to_string(),
        identifier: "test-id".to_string(),
        publisher: Some("Test Publisher".to_string()),
        description: Some("A test book".to_string()),
        subjects: vec!["Fiction".to_string()],
        date: Some("2024-01-01".to_string()),
        rights: Some("Copyright 2024".to_string()),
        cover_image: Some(format!("{}/cover.jpg", base_dir)),
        modified_date: Some("2024-01-02".to_string()),
        contributors: vec![Contributor {
            name: "Editor One".to_string(),
            file_as: Some("One, Editor".to_string()),
            role: Some("edt".to_string()),
        }],
        title_sort: Some("Test Book, The".to_string()),
        author_sort: Some("One, Author".to_string()),
        collection: Some(CollectionInfo {
            name: "Test Series".to_string(),
            collection_type: Some("series".to_string()),
            position_bits: Some(1.0f64.to_bits()),
        }),
    };

    // Convert to front matter
    let fm = metadata_to_front_matter(&original, Some("cover.jpg"));

    // Convert back to metadata; the cover resolves against the base directory
    let roundtrip = front_matter_to_metadata(&fm, Some(format!("{}/cover.jpg", base_dir)));

    assert_eq!(roundtrip.title, original.title);
    assert_eq!(roundtrip.authors, original.authors);
    assert_eq!(roundtrip.language, original.language);
    assert_eq!(roundtrip.identifier, original.identifier);
    assert_eq!(roundtrip.publisher, original.publisher);
    assert_eq!(roundtrip.description, original.description);
    assert_eq!(roundtrip.subjects, original.subjects);
    assert_eq!(roundtrip.date, original.date);
    assert_eq!(roundtrip.rights, original.rights);
    // Cover path should be resolved to absolute path
    assert!(roundtrip.cover_image.is_some());
    assert!(roundtrip.cover_image.unwrap().ends_with("cover.jpg"));
    assert_eq!(roundtrip.modified_date, original.modified_date);
    assert_eq!(roundtrip.contributors.len(), original.contributors.len());
    assert_eq!(roundtrip.contributors[0].name, original.contributors[0].name);
    assert_eq!(roundtrip.contributors[0].file_as, original.contributors[0].file_as);
    assert_eq!(roundtrip.contributors[0].role, original.contributors[0].role);
    assert_eq!(roundtrip.title_sort, original.title_sort);
    assert_eq!(roundtrip.author_sort, original.author_sort);
    assert_eq!(
        roundtrip.collection.as_ref().map(|c| &c.name),
        original.collection.as_ref().map(|c| &c.name)
    );
    assert_eq!(
        roundtrip.collection.as_ref().map(|c| &c.collection_type),
        original.collection.as_ref().map(|c| &c.collection_type)
    );
    assert_eq!(
        roundtrip.collection.as_ref().map(|c| &c.position_bits),
        original.collection.as_ref().map(|c| &c.position_bits)
    );
}

#[test]
fn test_front_matter_to_metadata_default_language() {
    let mut fm = FrontMatter::default();
    fm.title = "Test".to_string();
    fm.language = String::new(); // Empty language

    let meta = front_matter_to_metadata(&fm, None);
    assert_eq!(meta.language, "en");
}

#[test]
fn test_metadata_to_front_matter_default_language() {
    let meta = metadata("Test", "");

    let fm = metadata_to_front_matter(&meta, None);
    assert_eq!(fm.language, "en");
}

#[test]
fn cover_without_canonical_form_is_kept_as_written() {
    let mut fm = FrontMatter::default();
    fm.cover = Some("images/cover.jpg".to_string());
    let meta = front_matter_to_metadata(&fm, None);
    assert_eq!(meta.cover_image, Some("images/cover.jpg".to_string()));
    let no_cover = front_matter_to_metadata(&FrontMatter::default(), Some("/x/y.jpg".to_string()));
    assert_eq!(no_cover.cover_image, None);
}

#[test]
fn conversions_carry_contributors_and_collection() {
    let mut fm = FrontMatter::default();
    fm.contributors = vec![
        FrontMatterContributor { name: "Editor One".into(), role: Some("edt".into()), file_as: Some("One, Editor".into()) },
        FrontMatterContributor { name: "Translator Two".into(), role: Some("trl".into()), file_as: None },
    ];
    fm.collection = Some(FrontMatterCollection { name: "Great Series".into(), collection_type: Some("series".into()), position_bits: Some(5.0f64.to_bits()) });
    fm.language = "fr".into();
    let meta = front_matter_to_metadata(&fm, None);
    assert_eq!(meta.language, "fr");
    assert_eq!(meta.contributors.len(), 2);
    assert_eq!(meta.contributors[1].name, "Translator Two");
    assert_eq!(meta.contributors[1].role, Some("trl".to_string()));
    assert!(meta.contributors[1].file_as.is_none());
    let c = meta.collection.clone().unwrap();
    assert_eq!(f64::from_bits(c.position_bits.unwrap()), 5.0);
    let back = metadata_to_front_matter(&meta, Some("c.png"));
    assert_eq!(back.cover, Some("c.png".to_string()));
    assert_eq!(back.contributors[0].file_as, Some("One, Editor".to_string()));
}

#[test]
fn default_language_is_en() {
    assert_eq!(default_language(), "en");
}

#[test]
fn empty_front_matter_is_blank() {
    assert!(is_front_matter_empty(&FrontMatter::default()));
    let mut fm = FrontMatter::default();
    fm.language = "en".into();
    assert!(is_front_matter_empty(&fm));
    fm.language = "de".into();
    assert!(!is_front_matter_empty(&fm));
    let mut fm = FrontMatter::default();
    fm.title = "My Book".into();
    assert!(!is_front_matter_empty(&fm));
}

#[test]
fn frame_wraps_yaml_in_delimiters() {
    let framed = frame_front_matter("title: My Book\n");
    assert_eq!(framed, "---\ntitle: My Book\n\n---\n\n");
    assert!(framed.starts_with("---\n"));
    assert!(framed.ends_with("---\n\n"));
}

#[test]
fn span_of_basic_front_matter() {
    let content = "---\ntitle: My Book\nauthors:\n  - Alice\n  - Bob\nlanguage: en\n---\n\n# Chapter 1\n";
    let (yaml_end, offset) = front_matter_span(content).unwrap();
    assert_eq!(&content[4..yaml_end], "title: My Book\nauthors:\n  - Alice\n  - Bob\nlanguage: en");
    assert_eq!(offset, 64);
    assert_eq!(&content[offset..], "# Chapter 1\n");
}

#[test]
fn span_needs_opening_and_closing_delimiters() {
    assert!(front_matter_span("# Chapter 1\nNo front matter here.").is_none());
    assert!(front_matter_span("---\ntitle: x\nno close").is_none());
    assert!(front_matter_span("--\ntitle: x\n---\n").is_none());
}

#[test]
fn span_offsets_of_the_original_examples() {
    let cover = "---\ntitle: My Book\ncover: images/cover.jpg\n---\n\nContent here.\n";
    let (_, o) = front_matter_span(cover).unwrap();
    assert_eq!(o, 48);
    assert_eq!(&cover[o..], "Content here.\n");

    let collection = "---\ntitle: Book in Series\ncollection:\n  name: My Series\n  type: series\n  position: 3.0\n---\n\nContent here.\n";
    let (_, o) = front_matter_span(collection).unwrap();
    assert_eq!(o, 92);

    let contributors = "---\ntitle: Edited Book\ncontributors:\n  - name: Editor One\n    role: edt\n    file-as: One, Editor\n  - name: Translator Two\n    role: trl\n---\n\nContent here.\n";
    let (_, o) = front_matter_span(contributors).unwrap();
    assert_eq!(o, 141);

    let extra = "---\ntitle: My Book\n---\n\n\n# Chapter 1\n";
    let (_, o) = front_matter_span(extra).unwrap();
    assert_eq!(o, 25);
    assert_eq!(&extra[o..], "# Chapter 1\n");

    let all = "---\ntitle: Complete Book\nauthors:\n  - Author One\n  - Author Two\nlanguage: fr\nidentifier: isbn-123\npublisher: Big Publisher\ndescription: A very complete book\nsubjects:\n  - Fiction\n  - Adventure\ndate: 2024-01-01\nrights: Copyright 2024\ncover: images/cover.png\nmodified: 2024-01-15\ncontributors:\n  - name: Editor One\n    role: edt\ntitle-sort: Complete, The Book\nauthor-sort: One, Author\ncollection:\n  name: Great Series\n  type: series\n  position: 5.0\n---\n\nBook content.\n";
    let (_, o) = front_matter_span(all).unwrap();
    assert_eq!(o, 452);
    assert_eq!(&all[o..], "Book content.\n");

    let no_newline = "---\ntitle: My Book\n---\nContent here.";
    let (_, o) = front_matter_span(no_newline).unwrap();
    assert_eq!(&no_newline[o..], "Content here.");
}

#[test]
fn framed_yaml_is_found_again() {
    let yaml = "title: Round Trip\nlanguage: fr\n";
    let doc = format!("{}\n\nBody.\n", frame_front_matter(yaml));
    let (yaml_end, offset) = front_matter_span(&doc).unwrap();
    assert_eq!(&doc[4..yaml_end], yaml);
    assert_eq!(&doc[offset..], "Body.\n");
}

#[test]
fn cover_is_looked_up_under_the_document_directory() {
    let mut m = metadata("Book", "en");
    let fm = metadata_to_front_matter(&m, Some("images/cover.jpg"));
    assert_eq!(cover_lookup_path(&fm, "/books/one"), Some("/books/one/images/cover.jpg".to_string()));
    let abs = metadata_to_front_matter(&m, Some("/covers/c.jpg"));
    assert_eq!(cover_lookup_path(&abs, "/books/one"), Some("/covers/c.jpg".to_string()));
    m.title = "No cover".to_string();
    let none = metadata_to_front_matter(&m, None);
    assert_eq!(cover_lookup_path(&none, "/books/one"), None);
}
