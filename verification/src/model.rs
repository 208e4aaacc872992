//! The book model that importers fill and exporters read: metadata, table of
//! contents, chapter identifiers and link targets.

use vstd::prelude::*;

verus! {

/// Identifier of a chapter in reading order.
#[derive(Clone, Copy, Debug, PartialEq, Eq, Structural)]
pub struct ChapterId(pub u32);

/// A node inside a chapter.
#[derive(Clone, Copy, Debug, PartialEq, Eq, Structural)]
pub struct GlobalNodeId {
    pub chapter: ChapterId,
    pub node: u32,
}

/// Where a link or table-of-contents entry points.
#[derive(Clone, Debug)]
pub enum AnchorTarget {
    /// The start of a chapter.
    Chapter(ChapterId),
    /// A node inside a chapter.
    Internal(GlobalNodeId),
    /// A URL outside the book.
    External(String),
}

/// An entry of the table of contents, with its nested entries.
#[derive(Debug)]
pub struct TocEntry {
    pub title: String,
    pub href: String,
    pub target: Option<AnchorTarget>,
    pub children: Vec<TocEntry>,
}

/// A person who contributed to the book, with a role such as `edt`.
#[derive(Clone, Debug)]
pub struct Contributor {
    pub name: String,
    pub file_as: Option<String>,
    pub role: Option<String>,
}

/// Series or collection the book belongs to.
///
/// The position within the series is a floating-point number; it is held as
/// its IEEE-754 bit pattern (`f64::to_bits`), which carries it unchanged.
#[derive(Clone, Debug)]
pub struct CollectionInfo {
    pub name: String,
    pub collection_type: Option<String>,
    pub position_bits: Option<u64>,
}

/// Book metadata.
#[derive(Clone, Debug)]
pub struct Metadata {
    pub title: String,
    pub authors: Vec<String>,
    pub language: String,
    pub identifier: String,
    pub publisher: Option<String>,
    pub description: Option<String>,
    pub subjects: Vec<String>,
    pub date: Option<String>,
    pub rights: Option<String>,
    pub cover_image: Option<String>,
    pub modified_date: Option<String>,
    pub contributors: Vec<Contributor>,
    pub title_sort: Option<String>,
    pub author_sort: Option<String>,
    pub collection: Option<CollectionInfo>,
}

impl Metadata {
    /// Metadata with every field empty.
    pub fn empty() -> (r: Self)
        ensures
            r.title@.len() == 0,
            r.authors@.len() == 0,
            r.language@.len() == 0,
            r.identifier@.len() == 0,
            r.publisher is None,
            r.description is None,
            r.subjects@.len() == 0,
            r.date is None,
            r.rights is None,
            r.cover_image is None,
            r.modified_date is None,
            r.contributors@.len() == 0,
            r.title_sort is None,
            r.author_sort is None,
            r.collection is None,
    {
        Metadata {
            title: String::new(),
            authors: Vec::new(),
            language: String::new(),
            identifier: String::new(),
            publisher: None,
            description: None,
            subjects: Vec::new(),
            date: None,
            rights: None,
            cover_image: None,
            modified_date: None,
            contributors: Vec::new(),
            title_sort: None,
            author_sort: None,
            collection: None,
        }
    }
}

/// An entry of the reading order.
#[derive(Clone, Copy, Debug)]
pub struct SpineEntry {
    pub id: ChapterId,
    pub size_estimate: usize,
}

/// What a node of a chapter is.
#[derive(Clone, Copy, Debug, PartialEq, Eq, Structural)]
pub enum Role {
    Root,
    Text,
    Paragraph,
    Heading(u8),
    BlockQuote,
    CodeBlock,
    UnorderedList,
    ListItem,
    Table,
    TableHead,
    TableRow,
    TableCell,
    Inline,
    Link,
    Image,
    Rule,
    Break,
}

/// The style an inline node gives its text.
#[derive(Clone, Copy, Debug, PartialEq, Eq, Structural)]
pub enum TextStyle {
    Plain,
    Italic,
    Bold,
    Monospace,
}

/// A node of a chapter tree. Nodes are stored in document order; each names
/// its parent by index (the root names itself). A text node covers
/// `text_start..text_end` of the chapter's text.
#[derive(Clone, Debug)]
pub struct Node {
    pub role: Role,
    pub parent: usize,
    pub text_start: usize,
    pub text_end: usize,
    pub style: TextStyle,
    pub href: Option<String>,
    pub src: Option<String>,
}

/// A chapter as a tree of nodes over one text buffer; node 0 is the root.
#[derive(Clone, Debug)]
pub struct Chapter {
    pub nodes: Vec<Node>,
    pub text: String,
}

} // verus!
