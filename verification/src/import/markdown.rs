//! Markdown format importer: splits a document into chapters at its level-one
//! headings, takes the title from the first of them, and builds a chapter
//! tree from the parser's events.

use pulldown_cmark::{Event, Parser, Tag};
use vstd::prelude::*;
use crate::model::{AnchorTarget, Chapter, ChapterId, Metadata, Node, Role, SpineEntry, TextStyle, TocEntry};
use crate::text::{
    ascii_bytes, ascii_string, file_stem, join_path, lit, parent, path_eq, path_file_stem,
    path_joined, path_parent, same_path, str_bytes, string_from_utf8, utf8,
};
use crate::util::{bytes_match_at, decimal, lemma_decimal_digits, match_at, push_all, push_decimal};

verus! {

broadcast use vstd::string::group_string_axioms;

/// Kind of an event of the Markdown parser.
#[derive(Clone, Copy, Debug, PartialEq, Eq, Structural)]
pub enum MdEvent {
    Start,
    End,
    Text,
    Code,
    Rule,
    SoftBreak,
    HardBreak,
    Other,
}

/// The element an event starts (`NoElement` for events that start none).
#[derive(Clone, Copy, Debug, PartialEq, Eq, Structural)]
pub enum MdTag {
    NoElement,
    Paragraph,
    Heading(u8),
    BlockQuote,
    CodeBlock,
    List,
    Item,
    Table,
    TableHead,
    TableRow,
    TableCell,
    Emphasis,
    Strong,
    Link,
    Image,
    Other,
}

/// The events pulldown-cmark's `Parser::new(text).into_offset_iter()`
/// yields for `text`: kind and byte range in `text`.
pub uninterp spec fn md_event_kinds(text: Seq<char>) -> Seq<(MdEvent, int, int)>;

/// For each event of the same parse, the text it carries: the text of
/// `Text` and `Code`, the destination of a link or image start, else empty.
pub uninterp spec fn md_event_texts(text: Seq<char>) -> Seq<Seq<char>>;

/// The events of `text`: kind, carried text and byte range.
pub open spec fn md_events(text: Seq<char>) -> Seq<(MdEvent, Seq<char>, int, int)> {
    let kinds = md_event_kinds(text);
    let texts = md_event_texts(text);
    Seq::new(
        kinds.len(),
        |i: int|
            (kinds[i].0, if i < texts.len() {
                texts[i]
            } else {
                Seq::empty()
            }, kinds[i].1, kinds[i].2),
    )
}

/// For each event of the same parse, the element it starts.
pub uninterp spec fn md_start_tags(text: Seq<char>) -> Seq<MdTag>;

/// Parses `text` with pulldown-cmark (default options): the kind of each
/// event, named by `md_event_kinds`, with its byte range; the crate
/// documents each range as the range of the event in the source, so it
/// lies within the text's bytes.
#[verifier::external_body]
fn markdown_event_kinds(text: &str) -> (r: Vec<(MdEvent, usize, usize)>)
    ensures
        r@.map_values(|e: (MdEvent, usize, usize)| (e.0, e.1 as int, e.2 as int)) == md_event_kinds(text@),
        forall|i: int| 0 <= i < r@.len() ==> (#[trigger] r@[i]).1 <= r@[i].2 <= utf8(text@).len(),
{
    let mut v = Vec::new();
    for (e, r) in Parser::new(text).into_offset_iter() {
        v.push((match e {
            Event::Start(_) => MdEvent::Start, Event::End(_) => MdEvent::End,
            Event::Text(_) => MdEvent::Text, Event::Code(_) => MdEvent::Code,
            Event::Rule => MdEvent::Rule, Event::SoftBreak => MdEvent::SoftBreak,
            Event::HardBreak => MdEvent::HardBreak, _ => MdEvent::Other,
        }, r.start, r.end));
    }
    v
}

/// Parses `text` with pulldown-cmark (default options): the text each event
/// carries, named by `md_event_texts`.
#[verifier::external_body]
fn markdown_event_texts(text: &str) -> (r: Vec<String>)
    ensures
        r@.map_values(|s: String| s@) == md_event_texts(text@),
{
    let mut v = Vec::new();
    for (e, _) in Parser::new(text).into_offset_iter() {
        v.push(match e {
            Event::Text(t) => t.into_string(), Event::Code(t) => t.into_string(),
            Event::Start(Tag::Link { dest_url, .. }) => dest_url.into_string(),
            Event::Start(Tag::Image { dest_url, .. }) => dest_url.into_string(),
            _ => String::new(),
        });
    }
    v
}

/// Parses `text` with pulldown-cmark (default options) and tells, for each
/// event, which element it starts; named by `md_start_tags`. It walks the
/// parser's own iterator, which yields the events that its offset iterator
/// yields, in the same order.
#[verifier::external_body]
fn markdown_start_tags(text: &str) -> (r: Vec<MdTag>)
    ensures
        r@ == md_start_tags(text@),
{
    let mut v = Vec::new();
    for e in Parser::new(text) {
        v.push(if let Event::Start(t) = e { match t {
            Tag::Paragraph => MdTag::Paragraph, Tag::Heading { level, .. } => MdTag::Heading(level as u8),
            Tag::BlockQuote(_) => MdTag::BlockQuote, Tag::CodeBlock(_) => MdTag::CodeBlock,
            Tag::List(_) => MdTag::List, Tag::Item => MdTag::Item, Tag::Table(_) => MdTag::Table,
            Tag::TableHead => MdTag::TableHead, Tag::TableRow => MdTag::TableRow,
            Tag::TableCell => MdTag::TableCell, Tag::Emphasis => MdTag::Emphasis,
            Tag::Strong => MdTag::Strong, Tag::Link { .. } => MdTag::Link,
            Tag::Image { .. } => MdTag::Image, _ => MdTag::Other,
        } } else { MdTag::NoElement });
    }
    v
}

/// Event `i` starts a level-one heading.
pub open spec fn is_h1_start(evs: Seq<(MdEvent, Seq<char>, int, int)>, tags: Seq<MdTag>, i: int) -> bool {
    evs[i].0 == MdEvent::Start && i < tags.len() && tags[i] == MdTag::Heading(1)
}

/// Byte offsets of the level-one heading starts among the first `n` events.
pub open spec fn h1_starts(evs: Seq<(MdEvent, Seq<char>, int, int)>, tags: Seq<MdTag>, n: int) -> Seq<int>
    decreases n,
{
    if n <= 0 {
        Seq::empty()
    } else {
        h1_starts(evs, tags, n - 1) + (if is_h1_start(evs, tags, n - 1) {
            seq![evs[n - 1].2]
        } else {
            Seq::empty()
        })
    }
}

/// The text of the first `Text` event at or after `i` that follows the
/// start of a level-one heading (`seen` says whether one started before
/// `i`).
pub open spec fn first_h1_text(evs: Seq<(MdEvent, Seq<char>, int, int)>, tags: Seq<MdTag>, i: int, seen: bool) -> Option<Seq<char>>
    decreases evs.len() - i,
{
    if i < 0 || i >= evs.len() {
        None
    } else if is_h1_start(evs, tags, i) {
        first_h1_text(evs, tags, i + 1, true)
    } else if evs[i].0 == MdEvent::Text && seen {
        Some(evs[i].1)
    } else {
        first_h1_text(evs, tags, i + 1, seen)
    }
}

/// Byte offsets where the chapters of `text` start: one per level-one
/// heading.
pub open spec fn heading_starts(text: Seq<char>) -> Seq<int> {
    h1_starts(md_events(text), md_start_tags(text), md_events(text).len() as int)
}

/// The chapters of `text` as byte ranges: one per level-one heading, from
/// the heading to the next one (the last to the end), the text before the
/// first heading prepended to the first chapter; a document without such
/// heading is one chapter.
pub open spec fn chapter_spans(text: Seq<char>) -> Seq<(int, int)> {
    let starts = heading_starts(text);
    let len = utf8(text).len() as int;
    if starts.len() == 0 {
        seq![(0, len)]
    } else {
        Seq::new(
            starts.len(),
            |k: int|
                (if k == 0 {
                    0
                } else {
                    starts[k]
                }, if k + 1 < starts.len() {
                    starts[k + 1]
                } else {
                    len
                }),
        )
    }
}

/// The virtual file name of heading chapter `k`: `chapter-<k+1>.md`.
pub open spec fn heading_chapter_name(k: int) -> Seq<u8> {
    ascii_bytes("chapter-"@) + decimal((k + 1) as nat) + ascii_bytes(".md"@)
}

/// The file stem of a path, or `untitled` when it has none.
pub open spec fn stem_or_untitled(path: Seq<char>) -> Seq<char> {
    match path_file_stem(path) {
        Some(s) => s,
        None => "untitled"@,
    }
}

/// The title of a document: the text of its first level-one heading, else
/// the stem of its path.
pub open spec fn document_title(text: Seq<char>, path: Seq<char>) -> Seq<char> {
    match first_h1_text(md_events(text), md_start_tags(text), 0, false) {
        Some(t) => t,
        None => stem_or_untitled(path),
    }
}

/// Index of the first entry at or after `i` kept under `key`.
pub open spec fn cache_index_from(c: Seq<(Seq<char>, Seq<u8>)>, key: Seq<char>, i: int) -> Option<int>
    decreases c.len() - i,
{
    if i < 0 || i >= c.len() {
        None
    } else if c[i].0 == key {
        Some(i)
    } else {
        cache_index_from(c, key, i + 1)
    }
}

/// The bytes of the first entry at or after `i` kept under `key`.
pub open spec fn cache_get_from(c: Seq<(Seq<char>, Seq<u8>)>, key: Seq<char>, i: int) -> Option<Seq<u8>> {
    match cache_index_from(c, key, i) {
        Some(j) => Some(c[j].1),
        None => None,
    }
}

/// The bytes kept under `key`.
pub open spec fn cache_get(c: Seq<(Seq<char>, Seq<u8>)>, key: Seq<char>) -> Option<Seq<u8>> {
    cache_get_from(c, key, 0)
}

/// The cache after keeping `bytes` under `key`: its entry is replaced, or a
/// new one added at the end.
pub open spec fn cache_put(c: Seq<(Seq<char>, Seq<u8>)>, key: Seq<char>, bytes: Seq<u8>) -> Seq<(Seq<char>, Seq<u8>)> {
    match cache_index_from(c, key, 0) {
        Some(j) => c.update(j, (key, bytes)),
        None => c.push((key, bytes)),
    }
}

/// Every field of the metadata but title and language is empty or absent.
pub open spec fn blank_but_title_language(m: Metadata) -> bool {
    &&& m.authors@.len() == 0
    &&& m.identifier@.len() == 0
    &&& m.publisher is None
    &&& m.description is None
    &&& m.subjects@.len() == 0
    &&& m.date is None
    &&& m.rights is None
    &&& m.cover_image is None
    &&& m.modified_date is None
    &&& m.contributors@.len() == 0
    &&& m.title_sort is None
    &&& m.author_sort is None
    &&& m.collection is None
}

/// Two metadata values agree on every field but title and language.
pub open spec fn same_but_title_language(a: Metadata, b: Metadata) -> bool {
    &&& a.authors == b.authors
    &&& a.identifier == b.identifier
    &&& a.publisher == b.publisher
    &&& a.description == b.description
    &&& a.subjects == b.subjects
    &&& a.date == b.date
    &&& a.rights == b.rights
    &&& a.cover_image == b.cover_image
    &&& a.modified_date == b.modified_date
    &&& a.contributors == b.contributors
    &&& a.title_sort == b.title_sort
    &&& a.author_sort == b.author_sort
    &&& a.collection == b.collection
}

/// The bytes of the chapters of `text`, in order.
pub open spec fn chapter_bytes(text: Seq<char>) -> Seq<Seq<u8>> {
    chapter_spans(text).map_values(|sp: (int, int)| utf8(text).subrange(sp.0, sp.1))
}

proof fn lemma_pieces_tile(b: Seq<u8>, starts: Seq<int>, m: int)
    requires
        0 < m <= starts.len(),
        forall|i: int, j: int| 0 <= i < j < starts.len() ==> starts[i] <= starts[j],
        0 <= starts[0],
        starts.last() <= b.len(),
    ensures
        crate::export::mobi_records::concat(
            Seq::new(
                starts.len(),
                |k: int|
                    b.subrange(
                        starts[k],
                        if k + 1 < starts.len() {
                            starts[k + 1]
                        } else {
                            b.len() as int
                        },
                    ),
            ).take(m),
        ) == b.subrange(starts[0], if m < starts.len() { starts[m] } else { b.len() as int }),
    decreases m,
{
    let pieces = Seq::new(
        starts.len(),
        |k: int|
            b.subrange(
                starts[k],
                if k + 1 < starts.len() {
                    starts[k + 1]
                } else {
                    b.len() as int
                },
            ),
    );
    if m == 1 {
        assert(pieces.take(1).drop_last() =~= Seq::<Seq<u8>>::empty());
        assert(crate::export::mobi_records::concat(Seq::<Seq<u8>>::empty()) =~= Seq::<u8>::empty());
        assert(Seq::<u8>::empty() + pieces[0] =~= pieces[0]);
    } else {
        lemma_pieces_tile(b, starts, m - 1);
        assert(pieces.take(m).drop_last() =~= pieces.take(m - 1));
        let e = if m < starts.len() { starts[m] } else { b.len() as int };
        assert(starts[0] <= starts[m - 1]);
        assert(b.subrange(starts[0], starts[m - 1]) + b.subrange(starts[m - 1], e) =~= b.subrange(starts[0], e));
    }
}

/// Chapters split the document at its level-one headings: when the heading
/// offsets do not decrease and lie within the text, the chapters' bytes, in
/// order, are exactly the document (the first chapter holding what comes
/// before the first heading), and a document without such heading is one
/// chapter holding all of it.
pub proof fn lemma_chapters_tile(text: Seq<char>)
    requires
        forall|i: int, j: int|
            0 <= i < j < heading_starts(text).len() ==> heading_starts(text)[i] <= heading_starts(text)[j],
        heading_starts(text).len() > 0 ==> 0 <= heading_starts(text)[0] && heading_starts(text).last()
            <= utf8(text).len(),
    ensures
        heading_starts(text).len() == 0 ==> chapter_bytes(text) == seq![utf8(text)],
        heading_starts(text).len() > 0 ==> crate::export::mobi_records::concat(chapter_bytes(text))
            == utf8(text),
{
    let b = utf8(text);
    let starts = heading_starts(text);
    if starts.len() == 0 {
        assert(b.subrange(0, b.len() as int) =~= b);
        assert(chapter_bytes(text) =~= seq![b]);
    } else {
        let from0 = starts.update(0, 0);
        assert forall|i: int, j: int| 0 <= i < j < from0.len() implies from0[i] <= from0[j] by {
            if i > 0 {
                assert(starts[i] <= starts[j]);
            } else {
                assert(starts[0] <= starts[j]);
            }
        }
        assert(from0.last() <= b.len()) by {
            if from0.len() > 1 {
                assert(from0.last() == starts.last());
            }
        }
        lemma_pieces_tile(b, from0, from0.len() as int);
        let pieces = Seq::new(
            from0.len(),
            |k: int|
                b.subrange(
                    from0[k],
                    if k + 1 < from0.len() {
                        from0[k + 1]
                    } else {
                        b.len() as int
                    },
                ),
        );
        assert(pieces.take(from0.len() as int) =~= pieces);
        assert(chapter_bytes(text) =~= pieces);
        assert(b.subrange(0, b.len() as int) =~= b);
    }
}

/// Errors of the Markdown importer.
#[derive(Clone, Copy, Debug, PartialEq, Eq, Structural)]
pub enum ImportError {
    /// The document is not valid UTF-8.
    InvalidUtf8,
    /// No chapter with this index.
    ChapterNotFound(u32),
    /// The chapter's byte range is reversed or does not hold whole
    /// characters.
    BadChapterRange(u32),
}

/// Configuration for Markdown import.
#[derive(Debug, Clone)]
pub struct MarkdownConfig {
    pub split_on_h1: bool,
    pub extract_front_matter: bool,
    pub enable_gfm: bool,
    pub asset_base_dir: Option<String>,
}

impl Default for MarkdownConfig {
    fn default() -> (r: Self)
        ensures
            r.split_on_h1,
            r.extract_front_matter,
            r.enable_gfm,
            r.asset_base_dir is None,
    {
        MarkdownConfig {
            split_on_h1: true,
            extract_front_matter: true,
            enable_gfm: true,
            asset_base_dir: None,
        }
    }
}

/// A chapter of the document: its byte range and virtual file name.
#[derive(Debug)]
struct ChapterRange {
    start: usize,
    end: usize,
    virtual_path: String,
}

/// Markdown format importer.
pub struct MarkdownImporter {
    path: String,
    content: String,
    metadata: Metadata,
    toc: Vec<TocEntry>,
    spine: Vec<SpineEntry>,
    assets: Vec<(String, Vec<u8>)>,
    chapter_ranges: Vec<ChapterRange>,
    asset_paths: Vec<String>,
    config: MarkdownConfig,
}

impl MarkdownImporter {
    /// The document text.
    pub closed spec fn text(&self) -> Seq<char> {
        self.content@
    }

    /// The path the document was read from.
    pub closed spec fn source_path(&self) -> Seq<char> {
        self.path@
    }

    /// The chapters' byte ranges.
    pub closed spec fn spans(&self) -> Seq<(int, int)> {
        self.chapter_ranges@.map_values(|r: ChapterRange| (r.start as int, r.end as int))
    }

    /// The chapters' virtual file names.
    pub closed spec fn chapter_names(&self) -> Seq<Seq<char>> {
        self.chapter_ranges@.map_values(|r: ChapterRange| r.virtual_path@)
    }

    /// The book metadata.
    pub closed spec fn meta(&self) -> Metadata {
        self.metadata
    }

    /// The reading order.
    pub closed spec fn reading_order(&self) -> Seq<SpineEntry> {
        self.spine@
    }

    /// The asset paths referenced so far.
    pub closed spec fn assets_seen(&self) -> Seq<Seq<char>> {
        self.asset_paths@.map_values(|p: String| p@)
    }

    /// The assets loaded so far, by the URL they were referenced with.
    pub closed spec fn cache(&self) -> Seq<(Seq<char>, Seq<u8>)> {
        self.assets@.map_values(|e: (String, Vec<u8>)| (e.0@, e.1@))
    }

    /// Every chapter range ends within the document.
    #[verifier::type_invariant]
    closed spec fn wf(&self) -> bool {
        &&& self.toc@.len() == 0
        &&& forall|k: int|
            0 <= k < self.chapter_ranges@.len() ==> (#[trigger] self.chapter_ranges@[k]).start <= utf8(
                self.content@,
            ).len() && self.chapter_ranges@[k].end <= utf8(self.content@).len()
    }
}

/// The events as plain values.
pub open spec fn event_views(v: Seq<(MdEvent, String, usize, usize)>) -> Seq<(MdEvent, Seq<char>, int, int)> {
    v.map_values(|e: (MdEvent, String, usize, usize)| (e.0, e.1@, e.2 as int, e.3 as int))
}

/// The virtual file names of the chapters of `text` read from a path with
/// stem `stem`: `chapter-<n>.md` per heading chapter, else `<stem>.md`.
pub open spec fn chapter_names_of(text: Seq<char>, stem: Seq<char>) -> Seq<Seq<char>> {
    let n = heading_starts(text).len();
    if n == 0 {
        seq![stem + ".md"@]
    } else {
        Seq::new(n, |k: int| vstd::utf8::decode_utf8(heading_chapter_name(k)))
    }
}

/// The reading order of `text`: one entry per chapter; a single chapter's
/// size estimate is the document's length, heading chapters estimate 0.
pub open spec fn spine_of(text: Seq<char>) -> Seq<SpineEntry> {
    let n = heading_starts(text).len();
    if n == 0 {
        seq![SpineEntry { id: ChapterId(0), size_estimate: utf8(text).len() as usize }]
    } else {
        Seq::new(n, |k: int| SpineEntry { id: ChapterId(k as u32), size_estimate: 0 })
    }
}

fn parse_events(text: &str) -> (r: (Vec<(MdEvent, String, usize, usize)>, Vec<MdTag>))
    ensures
        event_views(r.0@) == md_events(text@),
        r.1@ == md_start_tags(text@),
        forall|i: int| 0 <= i < r.0@.len() ==> (#[trigger] r.0@[i]).2 <= r.0@[i].3 <= utf8(text@).len(),
{
    let kinds = markdown_event_kinds(text);
    let texts = markdown_event_texts(text);
    let tags = markdown_start_tags(text);
    let ghost spec_events = md_events(text@);
    let mut evs: Vec<(MdEvent, String, usize, usize)> = Vec::new();
    let mut i: usize = 0;
    while i < kinds.len()
        invariant
            i <= kinds@.len(),
            kinds@.map_values(|e: (MdEvent, usize, usize)| (e.0, e.1 as int, e.2 as int)) == md_event_kinds(text@),
            texts@.map_values(|s: String| s@) == md_event_texts(text@),
            spec_events == md_events(text@),
            forall|k: int| 0 <= k < kinds@.len() ==> (#[trigger] kinds@[k]).1 <= kinds@[k].2 <= utf8(text@).len(),
            evs@.len() == i,
            forall|k: int| 0 <= k < i ==> (#[trigger] event_views(evs@)[k]) == spec_events[k],
            forall|k: int| 0 <= k < i ==> (#[trigger] evs@[k]).2 <= evs@[k].3 <= utf8(text@).len(),
        decreases kinds@.len() - i,
    {
        let t = if i < texts.len() {
            texts[i].clone()
        } else {
            String::new()
        };
        let ghost prev = evs@;
        evs.push((kinds[i].0, t, kinds[i].1, kinds[i].2));
        proof {
            let kv = kinds@.map_values(|e: (MdEvent, usize, usize)| (e.0, e.1 as int, e.2 as int));
            assert(kv[i as int] == (kinds@[i as int].0, kinds@[i as int].1 as int, kinds@[i as int].2 as int));
            if i < texts@.len() {
                assert(texts@.map_values(|s: String| s@)[i as int] == texts@[i as int]@);
            }
            assert(event_views(evs@)[i as int] == spec_events[i as int]);
            assert forall|k: int| 0 <= k < i implies (#[trigger] event_views(evs@)[k]) == spec_events[k] by {
                assert(evs@[k] == prev[k]);
                assert(event_views(prev)[k] == spec_events[k]);
            }
        }
        i = i + 1;
    }
    assert(event_views(evs@) =~= md_events(text@));
    (evs, tags)
}

/// Byte offsets of the level-one heading starts among parser events.
pub fn h1_starts_of(evs: &Vec<(MdEvent, String, usize, usize)>, tags: &Vec<MdTag>) -> (r: Vec<usize>)
    ensures
        r@.map_values(|x: usize| x as int) == h1_starts(event_views(evs@), tags@, evs@.len() as int),
        forall|k: int| 0 <= k < r@.len() ==> exists|i: int| 0 <= i < evs@.len() && #[trigger] r@[k] == evs@[i].2,
{
    let ghost v = event_views(evs@);
    let mut r: Vec<usize> = Vec::new();
    let mut i: usize = 0;
    while i < evs.len()
        invariant
            i <= evs@.len(),
            v == event_views(evs@),
            r@.map_values(|x: usize| x as int) == h1_starts(v, tags@, i as int),
            forall|k: int| 0 <= k < r@.len() ==> exists|j: int| 0 <= j < evs@.len() && #[trigger] r@[k] == evs@[j].2,
        decreases evs@.len() - i,
    {
        let is_h1 = evs[i].0 == MdEvent::Start && i < tags.len() && tags[i] == MdTag::Heading(1);
        assert(is_h1 == is_h1_start(v, tags@, i as int));
        if is_h1 {
            r.push(evs[i].2);
            assert(r@[r@.len() - 1] == evs@[i as int].2);
        }
        i = i + 1;
        assert(r@.map_values(|x: usize| x as int) =~= h1_starts(v, tags@, i as int));
    }
    r
}

/// The text that first follows the start of a level-one heading among
/// parser events.
pub fn first_heading_text(evs: &Vec<(MdEvent, String, usize, usize)>, tags: &Vec<MdTag>) -> (r: Option<String>)
    ensures
        (match r {
            Some(t) => Some(t@),
            None => None,
        }) == first_h1_text(event_views(evs@), tags@, 0, false),
{
    let ghost v = event_views(evs@);
    let mut seen = false;
    let mut i: usize = 0;
    while i < evs.len()
        invariant
            i <= evs@.len(),
            v == event_views(evs@),
            first_h1_text(v, tags@, 0, false) == first_h1_text(v, tags@, i as int, seen),
        decreases evs@.len() - i,
    {
        let is_h1 = evs[i].0 == MdEvent::Start && i < tags.len() && tags[i] == MdTag::Heading(1);
        assert(is_h1 == is_h1_start(v, tags@, i as int));
        if is_h1 {
            seen = true;
        } else if evs[i].0 == MdEvent::Text && seen {
            return Some(evs[i].1.clone());
        }
        i = i + 1;
    }
    None
}

fn heading_chapter_file(k: usize) -> (r: String)
    requires
        k < usize::MAX,
    ensures
        r@ == vstd::utf8::decode_utf8(heading_chapter_name(k as int)),
{
    proof {
        reveal_strlit("chapter-");
        reveal_strlit(".md");
        lemma_decimal_digits((k + 1) as nat);
    }
    let mut b: Vec<u8> = Vec::new();
    push_all(&mut b, lit("chapter-"));
    push_decimal(&mut b, (k + 1) as u64);
    push_all(&mut b, lit(".md"));
    assert(b@ =~= heading_chapter_name(k as int));
    assert forall|i: int| 0 <= i < b@.len() implies b@[i] < 128 by {
        let d = decimal((k + 1) as nat);
        if 8 <= i < 8 + d.len() {
            assert(b@[i] == d[i - 8]);
        }
    }
    let r = ascii_string(b.as_slice());
    proof {
        vstd::utf8::encode_utf8_decode_utf8(r@);
    }
    r
}

fn stem_or_untitled_of(path: &str) -> (r: String)
    ensures
        r@ == stem_or_untitled(path@),
{
    match file_stem(path) {
        Some(s) => s,
        None => "untitled".to_owned(),
    }
}

fn with_md_extension(stem: &str) -> (r: String)
    ensures
        r@ == stem@ + ".md"@,
{
    proof {
        reveal_strlit(".md");
    }
    let mut c = crate::text::str_chars(stem);
    c.push('.');
    c.push('m');
    c.push('d');
    assert(c@ =~= stem@ + ".md"@);
    crate::text::string_from_chars(&c)
}

/// The chapter ranges and reading order of `content`, read from a path
/// whose stem is `stem`.
fn scan_headings(content: &str, stem: &str) -> (r: (Vec<ChapterRange>, Vec<SpineEntry>))
    ensures
        r.0@.map_values(|c: ChapterRange| (c.start as int, c.end as int)) == chapter_spans(content@),
        r.0@.map_values(|c: ChapterRange| c.virtual_path@) == chapter_names_of(content@, stem@),
        r.1@ == spine_of(content@),
        forall|k: int| 0 <= k < r.0@.len() ==> (#[trigger] r.0@[k]).start <= utf8(content@).len()
            && r.0@[k].end <= utf8(content@).len(),
{
    let (evs, tags) = parse_events(content);
    let starts = h1_starts_of(&evs, &tags);
    let len = content.as_bytes().len();
    let ghost st = heading_starts(content@);
    assert(starts@.map_values(|x: usize| x as int) == st);
    let mut ranges: Vec<ChapterRange> = Vec::new();
    let mut spine: Vec<SpineEntry> = Vec::new();
    if starts.len() == 0 {
        ranges.push(ChapterRange { start: 0, end: len, virtual_path: with_md_extension(stem) });
        spine.push(SpineEntry { id: ChapterId(0), size_estimate: len });
        assert(ranges@.map_values(|c: ChapterRange| (c.start as int, c.end as int)) =~= chapter_spans(content@));
        assert(ranges@.map_values(|c: ChapterRange| c.virtual_path@) =~= chapter_names_of(content@, stem@));
        assert(spine@ =~= spine_of(content@));
        return (ranges, spine);
    }
    let n = starts.len();
    let mut k: usize = 0;
    while k < n
        invariant
            k <= n,
            n == starts@.len(),
            n == st.len(),
            n > 0,
            len == utf8(content@).len(),
            st == heading_starts(content@),
            starts@.map_values(|x: usize| x as int) == st,
            forall|j: int| 0 <= j < starts@.len() ==> #[trigger] starts@[j] <= len,
            ranges@.len() == k,
            spine@.len() == k,
            forall|j: int| 0 <= j < k ==> (#[trigger] ranges@[j]).start as int == chapter_spans(content@)[j].0
                && ranges@[j].end as int == chapter_spans(content@)[j].1
                && ranges@[j].virtual_path@ == chapter_names_of(content@, stem@)[j]
                && ranges@[j].start <= len && ranges@[j].end <= len,
            forall|j: int| 0 <= j < k ==> #[trigger] spine@[j] == spine_of(content@)[j],
        decreases n - k,
    {
        let end = if k + 1 < n { starts[k + 1] } else { len };
        let start = if k == 0 { 0 } else { starts[k] };
        assert(starts@[k as int] as int == st[k as int]);
        ranges.push(ChapterRange { start, end, virtual_path: heading_chapter_file(k) });
        spine.push(SpineEntry { id: ChapterId(#[verifier::truncate] (k as u32)), size_estimate: 0 });
        k = k + 1;
    }
    assert(ranges@.map_values(|c: ChapterRange| (c.start as int, c.end as int)) =~= chapter_spans(content@));
    assert(ranges@.map_values(|c: ChapterRange| c.virtual_path@) =~= chapter_names_of(content@, stem@));
    assert(spine@ =~= spine_of(content@));
    (ranges, spine)
}

/// Whether `t` starts with `http://` or `https://`.
pub open spec fn is_web_url(t: Seq<char>) -> bool {
    match_at(utf8(t), ascii_bytes("http://"@), 0) || match_at(utf8(t), ascii_bytes("https://"@), 0)
}

/// A link outside the book: a web URL, or a `mailto:` or `tel:` link.
pub open spec fn is_external_url(t: Seq<char>) -> bool {
    is_web_url(t) || match_at(utf8(t), ascii_bytes("mailto:"@), 0) || match_at(
        utf8(t),
        ascii_bytes("tel:"@),
        0,
    )
}

/// Whether a (trimmed) link leads outside the book.
pub fn is_external_link(t: &str) -> (r: bool)
    ensures
        r == is_external_url(t@),
{
    proof {
        reveal_strlit("mailto:");
        reveal_strlit("tel:");
    }
    let b = str_bytes(t);
    is_web_link(t) || bytes_match_at(b.as_slice(), lit("mailto:"), 0) || bytes_match_at(
        b.as_slice(),
        lit("tel:"),
        0,
    )
}

/// Whether a (trimmed) link is a web URL.
pub fn is_web_link(t: &str) -> (r: bool)
    ensures
        r == is_web_url(t@),
{
    proof {
        reveal_strlit("http://");
        reveal_strlit("https://");
    }
    let b = str_bytes(t);
    bytes_match_at(b.as_slice(), lit("http://"), 0) || bytes_match_at(b.as_slice(), lit("https://"), 0)
}

/// Whether `full` is the same path as one of `paths` or of the paths in
/// `added`.
fn path_known(paths: &Vec<String>, added: &Vec<(String, String)>, full: &str) -> (r: bool)
    ensures
        r == known_path(
            paths@.map_values(|p: String| p@) + added@.map_values(|a: (String, String)| (a.0@, a.1@)).map_values(
                |a: (Seq<char>, Seq<char>)| a.1,
            ),
            full@,
        ),
{
    let ghost all = paths@.map_values(|p: String| p@) + added@.map_values(|a: (String, String)| (a.0@, a.1@)).map_values(
        |a: (Seq<char>, Seq<char>)| a.1,
    );
    let mut i: usize = 0;
    while i < paths.len()
        invariant
            i <= paths@.len(),
            all == paths@.map_values(|p: String| p@) + added@.map_values(|a: (String, String)| (a.0@, a.1@)).map_values(
                |a: (Seq<char>, Seq<char>)| a.1,
            ),
            forall|j: int| 0 <= j < i ==> !same_path(#[trigger] all[j], full@),
        decreases paths@.len() - i,
    {
        assert(all[i as int] == paths@[i as int]@);
        if path_eq(paths[i].as_str(), full) {
            return true;
        }
        i = i + 1;
    }
    let n = paths.len();
    let mut j: usize = 0;
    while j < added.len()
        invariant
            j <= added@.len(),
            n == paths@.len(),
            all == paths@.map_values(|p: String| p@) + added@.map_values(|a: (String, String)| (a.0@, a.1@)).map_values(
                |a: (Seq<char>, Seq<char>)| a.1,
            ),
            forall|q: int| 0 <= q < n + j ==> !same_path(#[trigger] all[q], full@),
        decreases added@.len() - j,
    {
        assert(all[n + j] == added@[j as int].1@);
        if path_eq(added[j].1.as_str(), full) {
            return true;
        }
        j = j + 1;
    }
    false
}

/// Index of the first cache entry kept under `key`.
fn cache_position(cache: &Vec<(String, Vec<u8>)>, key: &str) -> (r: Option<usize>)
    ensures
        (match r {
            Some(i) => Some(i as int),
            None => None,
        }) == cache_index_from(cache@.map_values(|e: (String, Vec<u8>)| (e.0@, e.1@)), key@, 0),
        r matches Some(i) ==> i < cache@.len(),
{
    let ghost c = cache@.map_values(|e: (String, Vec<u8>)| (e.0@, e.1@));
    let mut i: usize = 0;
    while i < cache.len()
        invariant
            i <= cache@.len(),
            c == cache@.map_values(|e: (String, Vec<u8>)| (e.0@, e.1@)),
            cache_index_from(c, key@, 0) == cache_index_from(c, key@, i as int),
        decreases cache@.len() - i,
    {
        if crate::text::str_eq(cache[i].0.as_str(), key) {
            return Some(i);
        }
        i = i + 1;
    }
    None
}

/// Open the node an element start calls for (a link keeps its
/// destination, an image its source).
fn handle_start_tag(builder: &mut IrBuilder, tag: MdTag, url: &String)
    requires
        ir_wf(old(builder).state()),
    ensures
        final(builder).state() == ir_start(old(builder).state(), tag, url@),
{
    let ghost st = builder.state();
    match tag {
        MdTag::Paragraph => {
            builder.push_node(Role::Paragraph, TextStyle::Plain, None, None);
        },
        MdTag::Heading(level) => {
            builder.push_node(Role::Heading(level), TextStyle::Plain, None, None);
        },
        MdTag::BlockQuote => {
            builder.push_node(Role::BlockQuote, TextStyle::Plain, None, None);
        },
        MdTag::CodeBlock => {
            builder.push_node(Role::CodeBlock, TextStyle::Plain, None, None);
        },
        MdTag::List => {
            builder.push_node(Role::UnorderedList, TextStyle::Plain, None, None);
        },
        MdTag::Item => {
            builder.push_node(Role::ListItem, TextStyle::Plain, None, None);
        },
        MdTag::Table => {
            builder.push_node(Role::Table, TextStyle::Plain, None, None);
        },
        MdTag::TableHead => {
            builder.push_node(Role::TableHead, TextStyle::Plain, None, None);
        },
        MdTag::TableRow => {
            builder.push_node(Role::TableRow, TextStyle::Plain, None, None);
        },
        MdTag::TableCell => {
            builder.push_node(Role::TableCell, TextStyle::Plain, None, None);
        },
        MdTag::Emphasis => {
            builder.push_node(Role::Inline, TextStyle::Italic, None, None);
        },
        MdTag::Strong => {
            builder.push_node(Role::Inline, TextStyle::Bold, None, None);
        },
        MdTag::Link => {
            builder.push_node(Role::Link, TextStyle::Plain, Some(url.clone()), None);
        },
        MdTag::Image => {
            builder.push_node(Role::Image, TextStyle::Plain, None, Some(url.clone()));
        },
        _ => {},
    }
}

/// Close the innermost node when the element that ended calls for it.
fn handle_end_tag(builder: &mut IrBuilder, tag: MdTag)
    requires
        ir_wf(old(builder).state()),
    ensures
        closes_node(tag) ==> final(builder).state() == ir_pop(old(builder).state()),
        !closes_node(tag) ==> final(builder).state() == old(builder).state(),
{
    match tag {
        MdTag::Paragraph | MdTag::Heading(_) | MdTag::BlockQuote | MdTag::CodeBlock
        | MdTag::List | MdTag::Item | MdTag::Table | MdTag::TableHead | MdTag::TableRow
        | MdTag::TableCell | MdTag::Emphasis | MdTag::Strong | MdTag::Link | MdTag::Image => {
            builder.pop_node();
        },
        _ => {},
    }
}

/// Record the local image `url` (joined to `base`) unless its path is
/// already known or added.
fn track_image(known: &Vec<String>, base: &String, url: &String, added: &mut Vec<(String, String)>)
    ensures
        ({
            let old_added = old(added)@.map_values(|a: (String, String)| (a.0@, a.1@));
            let full = path_joined(base@, url@);
            final(added)@.map_values(|a: (String, String)| (a.0@, a.1@)) == if !is_external_src(url@)
                && !known_path(known@.map_values(|p: String| p@) + old_added.map_values(|a: (Seq<char>, Seq<char>)| a.1), full) {
                old_added.push((url@, full))
            } else {
                old_added
            }
        }),
{
    let ghost old_added = added@.map_values(|a: (String, String)| (a.0@, a.1@));
    let ghost added0 = added@;
    proof {
        reveal_strlit("data:");
    }
    let ub = str_bytes(url.as_str());
    if is_web_link(url.as_str()) || bytes_match_at(ub.as_slice(), lit("data:"), 0) {
        return;
    }
    let full = join_path(base.as_str(), url.as_str());
    if path_known(known, added, full.as_str()) {
        return;
    }
    added.push((url.clone(), full));
    assert(added@.map_values(|a: (String, String)| (a.0@, a.1@)) =~= old_added.push((url@, path_joined(base@, url@))));
}

/// The tree of a chapter from its parser events, as `ir_run` describes it,
/// and the local images the events reference that are neither among
/// `known_paths` nor referenced before, as (URL, URL joined to `base`)
/// pairs.
pub fn build_chapter_tree(
    evs: &Vec<(MdEvent, String, usize, usize)>,
    tags: &Vec<MdTag>,
    known_paths: &Vec<String>,
    base: &String,
) -> (r: (Chapter, Vec<(String, String)>))
    ensures
        ({
            let v = event_views(evs@);
            let run = ir_run(v, tags@, evs@.len() as int);
            &&& r.0.nodes@.map_values(|n: Node| node_view(n)) == run.0.nodes
            &&& r.0.text@ == run.0.text
            &&& r.1@.map_values(|a: (String, String)| (a.0@, a.1@)) == new_images(
                v,
                tags@,
                evs@.len() as int,
                known_paths@.map_values(|p: String| p@),
                base@,
            )
        }),
{
    let ghost v = event_views(evs@);
    let ghost known = known_paths@.map_values(|p: String| p@);
    let mut builder = IrBuilder::new();
    let mut open: Vec<MdTag> = Vec::new();
    let mut added: Vec<(String, String)> = Vec::new();
    let mut k: usize = 0;
    while k < evs.len()
        invariant
            k <= evs@.len(),
            v == event_views(evs@),
            known == known_paths@.map_values(|p: String| p@),
            builder.state() == ir_run(v, tags@, k as int).0,
            open@ == ir_run(v, tags@, k as int).1,
            added@.map_values(|a: (String, String)| (a.0@, a.1@)) == new_images(v, tags@, k as int, known, base@),
        decreases evs@.len() - k,
    {
        proof {
            lemma_ir_run_wf(v, tags@, k as int);
        }
        let kind = evs[k].0;
        let tag = if k < tags.len() { tags[k] } else { MdTag::NoElement };
        assert(tag == tag_at(tags@, k as int));
        let ghost st = builder.state();
        let ghost added0 = added@.map_values(|a: (String, String)| (a.0@, a.1@));
        match kind {
            MdEvent::Start => {
                handle_start_tag(&mut builder, tag, &evs[k].1);
                open.push(tag);
                if tag == MdTag::Image {
                    track_image(known_paths, base, &evs[k].1, &mut added);
                }
            },
            MdEvent::End => {
                if open.len() > 0 {
                    let t = open.pop().unwrap();
                    handle_end_tag(&mut builder, t);
                }
            },
            MdEvent::Text => {
                builder.append_pending(&evs[k].1);
            },
            MdEvent::Code => {
                builder.push_node(Role::Inline, TextStyle::Monospace, None, None);
                proof {
                    lemma_push_wf(st, Role::Inline, TextStyle::Monospace, None, None);
                }
                builder.append_pending(&evs[k].1);
                proof {
                    lemma_flush_wf(builder.state());
                }
                builder.flush_text();
                builder.pop_node();
            },
            MdEvent::Rule => {
                builder.push_node(Role::Rule, TextStyle::Plain, None, None);
                proof {
                    lemma_push_wf(st, Role::Rule, TextStyle::Plain, None, None);
                }
                builder.pop_node();
            },
            MdEvent::SoftBreak | MdEvent::HardBreak => {
                builder.push_node(Role::Break, TextStyle::Plain, None, None);
                proof {
                    lemma_push_wf(st, Role::Break, TextStyle::Plain, None, None);
                }
                builder.pop_node();
            },
            MdEvent::Other => {},
        }
        k = k + 1;
    }
    (builder.build(), added)
}

impl MarkdownImporter {
    fn new(path: String, content: String) -> (r: Self)
        ensures
            r.text() == content@,
            r.source_path() == path@,
            r.spans().len() == 0,
            r.chapter_names().len() == 0,
            r.reading_order().len() == 0,
            r.assets_seen().len() == 0,
            r.meta().language@.len() == 0,
            blank_but_title_language(r.meta()),
    {
        let r = MarkdownImporter {
            path,
            content,
            metadata: Metadata::empty(),
            toc: Vec::new(),
            spine: Vec::new(),
            assets: Vec::new(),
            chapter_ranges: Vec::new(),
            asset_paths: Vec::new(),
            config: MarkdownConfig::default(),
        };
        assert(r.assets_seen() =~= Seq::<Seq<char>>::empty());
        r
    }

    /// An importer over a document already read from `path`: chapters at
    /// its level-one headings, title from the first of them.
    pub fn from_document(path: String, content: String) -> (r: Self)
        ensures
            r.text() == content@,
            r.source_path() == path@,
            r.spans() == chapter_spans(content@),
            r.chapter_names() == chapter_names_of(content@, stem_or_untitled(path@)),
            r.reading_order() == spine_of(content@),
            r.meta().title@ == document_title(content@, path@),
            r.meta().language@ == "en"@,
            blank_but_title_language(r.meta()),
            r.assets_seen().len() == 0,
    {
        let mut importer = Self::new(path, content);
        importer.scan_headings();
        importer.build_metadata();
        importer
    }

    /// Create a MarkdownImporter from in-memory bytes, read as a document
    /// named `memory.md`. Fails when the bytes are not UTF-8.
    pub fn from_source(data: Vec<u8>) -> (r: Result<Self, ImportError>)
        ensures
            r is Err <==> !vstd::utf8::valid_utf8(data@),
            r matches Err(e) ==> e == ImportError::InvalidUtf8,
            r matches Ok(imp) ==> {
                &&& imp.text() == vstd::utf8::decode_utf8(data@)
                &&& imp.source_path() == "memory.md"@
                &&& imp.spans() == chapter_spans(imp.text())
                &&& imp.chapter_names() == chapter_names_of(imp.text(), stem_or_untitled("memory.md"@))
                &&& imp.reading_order() == spine_of(imp.text())
                &&& imp.meta().title@ == document_title(imp.text(), "memory.md"@)
                &&& imp.meta().language@ == "en"@
                &&& blank_but_title_language(imp.meta())
                &&& imp.assets_seen().len() == 0
            },
    {
        let content = match string_from_utf8(data) {
            Some(s) => s,
            None => return Err(ImportError::InvalidUtf8),
        };
        Ok(Self::from_document("memory.md".to_owned(), content))
    }

    fn scan_headings(&mut self)
        ensures
            final(self).text() == old(self).text(),
            final(self).source_path() == old(self).source_path(),
            final(self).spans() == chapter_spans(old(self).text()),
            final(self).chapter_names() == chapter_names_of(old(self).text(), stem_or_untitled(old(self).source_path())),
            final(self).reading_order() == spine_of(old(self).text()),
            final(self).meta() == old(self).meta(),
            final(self).assets_seen() == old(self).assets_seen(),
    {
        proof {
            use_type_invariant(&*self);
        }
        let stem = stem_or_untitled_of(self.path.as_str());
        let (ranges, spine) = scan_headings(self.content.as_str(), stem.as_str());
        self.chapter_ranges = ranges;
        self.spine = spine;
    }

    /// The text of the first level-one heading of the document, if any.
    pub fn extract_first_heading(&self) -> (r: Option<String>)
        ensures
            (match r {
                Some(t) => Some(t@),
                None => None,
            }) == first_h1_text(md_events(self.text()), md_start_tags(self.text()), 0, false),
    {
        let (evs, tags) = parse_events(self.content.as_str());
        first_heading_text(&evs, &tags)
    }

    fn build_metadata(&mut self)
        ensures
            final(self).text() == old(self).text(),
            final(self).source_path() == old(self).source_path(),
            final(self).spans() == old(self).spans(),
            final(self).chapter_names() == old(self).chapter_names(),
            final(self).reading_order() == old(self).reading_order(),
            final(self).assets_seen() == old(self).assets_seen(),
            final(self).meta().title@ == document_title(old(self).text(), old(self).source_path()),
            old(self).meta().language@.len() == 0 ==> final(self).meta().language@ == "en"@,
            old(self).meta().language@.len() > 0 ==> final(self).meta().language@ == old(self).meta().language@,
            same_but_title_language(old(self).meta(), final(self).meta()),
    {
        proof {
            use_type_invariant(&*self);
        }
        let title = match self.extract_first_heading() {
            Some(t) => t,
            None => stem_or_untitled_of(self.path.as_str()),
        };
        let mut m = Metadata::empty();
        std::mem::swap(&mut m, &mut self.metadata);
        m.title = title;
        if m.language.as_str().is_empty() {
            m.language = "en".to_owned();
        }
        self.metadata = m;
    }

    /// The book metadata.
    pub fn metadata(&self) -> (r: &Metadata)
        ensures
            *r == self.meta(),
    {
        &self.metadata
    }

    /// The table of contents (a Markdown document yields none).
    pub fn toc(&self) -> (r: &Vec<TocEntry>)
        ensures
            r@.len() == 0,
    {
        proof {
            use_type_invariant(self);
        }
        &self.toc
    }

    /// The reading order.
    pub fn spine(&self) -> (r: &Vec<SpineEntry>)
        ensures
            r@ == self.reading_order(),
    {
        &self.spine
    }

    /// The virtual file name of a chapter.
    pub fn source_id(&self, id: ChapterId) -> (r: Option<&str>)
        ensures
            (id.0 as int) < self.chapter_names().len() ==> (r matches Some(s) && s@ == self.chapter_names()[id.0 as int]),
            (id.0 as int) >= self.chapter_names().len() ==> r is None,
    {
        let i = id.0 as usize;
        if i < self.chapter_ranges.len() {
            Some(self.chapter_ranges[i].virtual_path.as_str())
        } else {
            None
        }
    }

    /// The raw bytes of a chapter.
    pub fn load_raw(&self, id: ChapterId) -> (r: Result<Vec<u8>, ImportError>)
        ensures
            match r {
                Ok(b) => {
                    &&& (id.0 as int) < self.spans().len()
                    &&& self.spans()[id.0 as int].0 <= self.spans()[id.0 as int].1
                    &&& b@ == utf8(self.text()).subrange(
                        self.spans()[id.0 as int].0,
                        self.spans()[id.0 as int].1,
                    )
                },
                Err(e) => ((id.0 as int) >= self.spans().len() && e == ImportError::ChapterNotFound(id.0))
                    || ((id.0 as int) < self.spans().len() && self.spans()[id.0 as int].0
                    > self.spans()[id.0 as int].1 && e == ImportError::BadChapterRange(id.0)),
            },
    {
        proof {
            use_type_invariant(self);
        }
        let i = id.0 as usize;
        if i >= self.chapter_ranges.len() {
            return Err(ImportError::ChapterNotFound(id.0));
        }
        let start = self.chapter_ranges[i].start;
        let end = self.chapter_ranges[i].end;
        if start > end {
            return Err(ImportError::BadChapterRange(id.0));
        }
        let bytes = self.content.as_str().as_bytes();
        let mut out: Vec<u8> = Vec::new();
        crate::util::push_range(&mut out, bytes, start, end);
        assert(out@ =~= utf8(self.text()).subrange(start as int, end as int));
        Ok(out)
    }

    /// Build the tree of a chapter from its parser events. Images with a
    /// local source are recorded as assets (their URL joined to the
    /// document's directory), once each; the (URL, path) pairs recorded by
    /// this call are returned beside the chapter, for the caller to load.
    pub fn load_chapter(&mut self, id: ChapterId) -> (r: Result<(Chapter, Vec<(String, String)>), ImportError>)
        ensures
            final(self).text() == old(self).text(),
            final(self).source_path() == old(self).source_path(),
            final(self).spans() == old(self).spans(),
            final(self).chapter_names() == old(self).chapter_names(),
            final(self).meta() == old(self).meta(),
            final(self).reading_order() == old(self).reading_order(),
            final(self).cache() == old(self).cache(),
            match r {
                Ok((ch, added)) => {
                    let span = old(self).spans()[id.0 as int];
                    let ct = chapter_text(old(self).text(), span);
                    let evs = md_events(ct);
                    let tags = md_start_tags(ct);
                    let run = ir_run(evs, tags, evs.len() as int);
                    let base = base_dir(old(self).source_path());
                    &&& (id.0 as int) < old(self).spans().len()
                    &&& span.0 <= span.1
                    &&& vstd::utf8::valid_utf8(utf8(old(self).text()).subrange(span.0, span.1))
                    &&& ch.nodes@.map_values(|n: Node| node_view(n)) == run.0.nodes
                    &&& ch.text@ == run.0.text
                    &&& added@.map_values(|a: (String, String)| (a.0@, a.1@)) == new_images(
                        evs,
                        tags,
                        evs.len() as int,
                        old(self).assets_seen(),
                        base,
                    )
                    &&& final(self).assets_seen() == old(self).assets_seen() + added@.map_values(
                        |a: (String, String)| a.1@,
                    )
                },
                Err(e) => {
                    &&& final(self).assets_seen() == old(self).assets_seen()
                    &&& ((id.0 as int) >= old(self).spans().len() && e == ImportError::ChapterNotFound(id.0))
                        || ((id.0 as int) < old(self).spans().len() && e == ImportError::BadChapterRange(id.0)
                        && !(old(self).spans()[id.0 as int].0 <= old(self).spans()[id.0 as int].1
                        && vstd::utf8::valid_utf8(
                        utf8(old(self).text()).subrange(
                            old(self).spans()[id.0 as int].0,
                            old(self).spans()[id.0 as int].1,
                        ),
                    )))
                },
            },
    {
        proof {
            use_type_invariant(&*self);
        }
        let i = id.0 as usize;
        if i >= self.chapter_ranges.len() {
            return Err(ImportError::ChapterNotFound(id.0));
        }
        let start = self.chapter_ranges[i].start;
        let end = self.chapter_ranges[i].end;
        if start > end {
            return Err(ImportError::BadChapterRange(id.0));
        }
        let mut raw: Vec<u8> = Vec::new();
        crate::util::push_range(&mut raw, self.content.as_str().as_bytes(), start, end);
        let chapter_str = match string_from_utf8(raw) {
            Some(t) => t,
            None => return Err(ImportError::BadChapterRange(id.0)),
        };
        let base = match parent(self.path.as_str()) {
            Some(p) => p,
            None => ".".to_owned(),
        };
        let (evs, tags) = parse_events(chapter_str.as_str());
        let (chapter, added) = build_chapter_tree(&evs, &tags, &self.asset_paths, &base);
        let ghost known = self.assets_seen();
        let mut paths: Vec<String> = Vec::new();
        std::mem::swap(&mut paths, &mut self.asset_paths);
        let ghost seen0 = paths@.map_values(|p: String| p@);
        assert(seen0 == known);
        let mut j: usize = 0;
        while j < added.len()
            invariant
                j <= added@.len(),
                paths@.len() == seen0.len() + j,
                forall|q: int| 0 <= q < seen0.len() ==> #[trigger] paths@[q]@ == seen0[q],
                forall|q: int| 0 <= q < j ==> #[trigger] paths@[seen0.len() + q]@ == added@[q].1@,
            decreases added@.len() - j,
        {
            let p = added[j].1.clone();
            paths.push(p);
            j = j + 1;
        }
        assert(paths@.map_values(|p: String| p@) =~= seen0 + added@.map_values(|a: (String, String)| a.1@)) by {
            assert forall|q: int| seen0.len() <= q < paths@.len() implies #[trigger] paths@[q]@ == added@[q - seen0.len()].1@ by {
                assert(paths@[seen0.len() + (q - seen0.len())]@ == added@[q - seen0.len()].1@);
            }
        }
        self.asset_paths = paths;
        Ok((chapter, added))
    }

    /// The asset paths referenced by the chapters loaded so far.
    pub fn list_assets(&self) -> (r: &Vec<String>)
        ensures
            r@.map_values(|p: String| p@) == self.assets_seen(),
    {
        &self.asset_paths
    }

    /// The bytes of an asset already loaded, by the URL it was referenced
    /// with.
    pub fn cached_asset(&self, key: &str) -> (r: Option<Vec<u8>>)
        ensures
            (match r {
                Some(b) => Some(b@),
                None => None,
            }) == cache_get(self.cache(), key@),
    {
        match cache_position(&self.assets, key) {
            Some(i) => Some(self.assets[i].1.clone()),
            None => None,
        }
    }

    /// Keep the bytes of an asset under the URL it was referenced with,
    /// replacing what was kept under that URL.
    pub fn cache_asset(&mut self, key: String, bytes: Vec<u8>)
        ensures
            final(self).cache() == cache_put(old(self).cache(), key@, bytes@),
            final(self).text() == old(self).text(),
            final(self).spans() == old(self).spans(),
            final(self).assets_seen() == old(self).assets_seen(),
    {
        proof {
            use_type_invariant(&*self);
        }
        let mut cache: Vec<(String, Vec<u8>)> = Vec::new();
        std::mem::swap(&mut cache, &mut self.assets);
        let ghost c0 = cache@.map_values(|e: (String, Vec<u8>)| (e.0@, e.1@));
        let ghost kv = (key@, bytes@);
        match cache_position(&cache, key.as_str()) {
            Some(i) => {
                cache.set(i, (key, bytes));
                assert(cache@.map_values(|e: (String, Vec<u8>)| (e.0@, e.1@)) =~= c0.update(i as int, kv));
            },
            None => {
                cache.push((key, bytes));
                assert(cache@.map_values(|e: (String, Vec<u8>)| (e.0@, e.1@)) =~= c0.push(kv));
            },
        }
        self.assets = cache;
    }

    /// Resolve a link: a trimmed `http://`, `https://`, `mailto:` or `tel:`
    /// link is external; nothing else is resolved.
    pub fn resolve_href(&self, from_chapter: ChapterId, href: &str) -> (r: Option<AnchorTarget>)
        ensures
            is_external_url(crate::text::trimmed(href@)) ==> (r matches Some(AnchorTarget::External(u))
                && u@ == crate::text::trimmed(href@)),
            !is_external_url(crate::text::trimmed(href@)) ==> r is None,
    {
        let t = crate::text::trim(href);
        if is_external_link(t) {
            Some(AnchorTarget::External(t.to_owned()))
        } else {
            None
        }
    }
}

/// A chapter node as plain values.
pub struct NodeView {
    pub role: Role,
    pub parent: int,
    pub text_start: int,
    pub text_end: int,
    pub style: TextStyle,
    pub href: Option<Seq<char>>,
    pub src: Option<Seq<char>>,
}

/// A node of a chapter as plain values.
pub open spec fn node_view(n: Node) -> NodeView {
    NodeView {
        role: n.role,
        parent: n.parent as int,
        text_start: n.text_start as int,
        text_end: n.text_end as int,
        style: n.style,
        href: match n.href {
            Some(h) => Some(h@),
            None => None,
        },
        src: match n.src {
            Some(h) => Some(h@),
            None => None,
        },
    }
}

/// The state of the tree builder: the nodes so far, the chapter text, the
/// stack of open nodes (the innermost last) and the text not yet placed in a
/// node.
pub struct IrState {
    pub nodes: Seq<NodeView>,
    pub text: Seq<char>,
    pub stack: Seq<int>,
    pub buf: Seq<char>,
}

/// A fresh builder: the root node alone, and open.
pub open spec fn ir_init() -> IrState {
    IrState {
        nodes: seq![
            NodeView {
                role: Role::Root,
                parent: 0,
                text_start: 0,
                text_end: 0,
                style: TextStyle::Plain,
                href: None,
                src: None,
            },
        ],
        text: Seq::empty(),
        stack: seq![0int],
        buf: Seq::empty(),
    }
}

/// Pending text, if any, becomes a text node under the innermost open node.
pub open spec fn ir_flush(st: IrState) -> IrState {
    if st.buf.len() == 0 {
        st
    } else {
        IrState {
            nodes: st.nodes.push(
                NodeView {
                    role: Role::Text,
                    parent: st.stack.last(),
                    text_start: st.text.len() as int,
                    text_end: (st.text.len() + st.buf.len()) as int,
                    style: TextStyle::Plain,
                    href: None,
                    src: None,
                },
            ),
            text: st.text + st.buf,
            stack: st.stack,
            buf: Seq::empty(),
        }
    }
}

/// After placing pending text, a new node under the innermost open node,
/// which it then becomes.
pub open spec fn ir_push(st: IrState, role: Role, style: TextStyle, href: Option<Seq<char>>, src: Option<Seq<char>>) -> IrState {
    let f = ir_flush(st);
    IrState {
        nodes: f.nodes.push(
            NodeView {
                role,
                parent: f.stack.last(),
                text_start: 0,
                text_end: 0,
                style,
                href,
                src,
            },
        ),
        text: f.text,
        stack: f.stack.push(f.nodes.len() as int),
        buf: f.buf,
    }
}

/// After placing pending text, the innermost open node is closed, unless it
/// is the root.
pub open spec fn ir_pop(st: IrState) -> IrState {
    let f = ir_flush(st);
    if f.stack.len() > 1 {
        IrState { stack: f.stack.drop_last(), ..f }
    } else {
        f
    }
}

/// The tree is well formed: the root comes first and names itself, every
/// other node names an earlier node as parent, text nodes cover a range of
/// the text, and the open nodes are nodes, the root first.
pub open spec fn ir_wf(st: IrState) -> bool {
    &&& st.nodes.len() >= 1
    &&& st.nodes[0].parent == 0
    &&& forall|i: int| 1 <= i < st.nodes.len() ==> 0 <= #[trigger] st.nodes[i].parent < i
    &&& forall|i: int|
        0 <= i < st.nodes.len() ==> 0 <= #[trigger] st.nodes[i].text_start <= st.nodes[i].text_end
            <= st.text.len()
    &&& st.stack.len() >= 1
    &&& st.stack[0] == 0
    &&& forall|j: int| 0 <= j < st.stack.len() ==> 0 <= #[trigger] st.stack[j] < st.nodes.len()
}

proof fn lemma_flush_wf(st: IrState)
    requires
        ir_wf(st),
    ensures
        ir_wf(ir_flush(st)),
        ir_flush(st).stack == st.stack,
        ir_flush(st).nodes.len() <= st.nodes.len() + 1,
        ir_flush(st).text.len() + ir_flush(st).buf.len() == st.text.len() + st.buf.len(),
{
    let f = ir_flush(st);
    if st.buf.len() > 0 {
        assert forall|i: int| 0 <= i < f.nodes.len() implies 0 <= #[trigger] f.nodes[i].text_start
            <= f.nodes[i].text_end <= f.text.len() by {
            if i < st.nodes.len() {
                assert(f.nodes[i] == st.nodes[i]);
            }
        }
        assert forall|i: int| 1 <= i < f.nodes.len() implies 0 <= #[trigger] f.nodes[i].parent < i by {
            if i < st.nodes.len() {
                assert(f.nodes[i] == st.nodes[i]);
            } else {
                assert(0 <= st.stack[st.stack.len() - 1] < st.nodes.len());
            }
        }
    }
}

proof fn lemma_push_wf(st: IrState, role: Role, style: TextStyle, href: Option<Seq<char>>, src: Option<Seq<char>>)
    requires
        ir_wf(st),
    ensures
        ir_wf(ir_push(st, role, style, href, src)),
        ir_push(st, role, style, href, src).nodes.len() <= st.nodes.len() + 2,
        ir_push(st, role, style, href, src).text.len() + ir_push(st, role, style, href, src).buf.len()
            == st.text.len() + st.buf.len(),
{
    lemma_flush_wf(st);
    let f = ir_flush(st);
    let p = ir_push(st, role, style, href, src);
    assert forall|i: int| 0 <= i < p.nodes.len() implies 0 <= #[trigger] p.nodes[i].text_start
        <= p.nodes[i].text_end <= p.text.len() by {
        if i < f.nodes.len() {
            assert(p.nodes[i] == f.nodes[i]);
        }
    }
    assert forall|i: int| 1 <= i < p.nodes.len() implies 0 <= #[trigger] p.nodes[i].parent < i by {
        if i < f.nodes.len() {
            assert(p.nodes[i] == f.nodes[i]);
        } else {
            assert(0 <= f.stack[f.stack.len() - 1] < f.nodes.len());
        }
    }
    assert forall|j: int| 0 <= j < p.stack.len() implies 0 <= #[trigger] p.stack[j] < p.nodes.len() by {
        if j < f.stack.len() {
            assert(p.stack[j] == f.stack[j]);
        }
    }
}

proof fn lemma_pop_wf(st: IrState)
    requires
        ir_wf(st),
    ensures
        ir_wf(ir_pop(st)),
        ir_pop(st).nodes.len() <= st.nodes.len() + 1,
        ir_pop(st).text.len() + ir_pop(st).buf.len() == st.text.len() + st.buf.len(),
{
    lemma_flush_wf(st);
    let f = ir_flush(st);
    if f.stack.len() > 1 {
        let q = ir_pop(st);
        assert forall|j: int| 0 <= j < q.stack.len() implies 0 <= #[trigger] q.stack[j] < q.nodes.len() by {
            assert(q.stack[j] == f.stack[j]);
        }
    }
}

/// The node an element start opens, if any.
pub open spec fn ir_start(st: IrState, tag: MdTag, s: Seq<char>) -> IrState {
    match tag {
        MdTag::Paragraph => ir_push(st, Role::Paragraph, TextStyle::Plain, None, None),
        MdTag::Heading(l) => ir_push(st, Role::Heading(l), TextStyle::Plain, None, None),
        MdTag::BlockQuote => ir_push(st, Role::BlockQuote, TextStyle::Plain, None, None),
        MdTag::CodeBlock => ir_push(st, Role::CodeBlock, TextStyle::Plain, None, None),
        MdTag::List => ir_push(st, Role::UnorderedList, TextStyle::Plain, None, None),
        MdTag::Item => ir_push(st, Role::ListItem, TextStyle::Plain, None, None),
        MdTag::Table => ir_push(st, Role::Table, TextStyle::Plain, None, None),
        MdTag::TableHead => ir_push(st, Role::TableHead, TextStyle::Plain, None, None),
        MdTag::TableRow => ir_push(st, Role::TableRow, TextStyle::Plain, None, None),
        MdTag::TableCell => ir_push(st, Role::TableCell, TextStyle::Plain, None, None),
        MdTag::Emphasis => ir_push(st, Role::Inline, TextStyle::Italic, None, None),
        MdTag::Strong => ir_push(st, Role::Inline, TextStyle::Bold, None, None),
        MdTag::Link => ir_push(st, Role::Link, TextStyle::Plain, Some(s), None),
        MdTag::Image => ir_push(st, Role::Image, TextStyle::Plain, None, Some(s)),
        _ => st,
    }
}

/// Whether the end of an element closes the innermost node: every element
/// that opened one does (block elements, emphasis, strong, links and
/// images); other elements do not.
pub open spec fn closes_node(tag: MdTag) -> bool {
    match tag {
        MdTag::Paragraph | MdTag::Heading(_) | MdTag::BlockQuote | MdTag::CodeBlock | MdTag::List
        | MdTag::Item | MdTag::Table | MdTag::TableHead | MdTag::TableRow | MdTag::TableCell
        | MdTag::Emphasis | MdTag::Strong | MdTag::Link | MdTag::Image => true,
        _ => false,
    }
}

/// The element event `i` starts (`NoElement` past the end of `tags`).
pub open spec fn tag_at(tags: Seq<MdTag>, i: int) -> MdTag {
    if 0 <= i < tags.len() {
        tags[i]
    } else {
        MdTag::NoElement
    }
}

/// One parser event applied to the tree and to the stack of open elements
/// (an end closes the innermost open element).
pub open spec fn ir_event(st: IrState, open: Seq<MdTag>, ev: (MdEvent, Seq<char>, int, int), tag: MdTag) -> (IrState, Seq<MdTag>) {
    match ev.0 {
        MdEvent::Start => (ir_start(st, tag, ev.1), open.push(tag)),
        MdEvent::End => if open.len() == 0 {
            (st, open)
        } else if closes_node(open.last()) {
            (ir_pop(st), open.drop_last())
        } else {
            (st, open.drop_last())
        },
        MdEvent::Text => (IrState { buf: st.buf + ev.1, ..st }, open),
        MdEvent::Code => {
            let p = ir_push(st, Role::Inline, TextStyle::Monospace, None, None);
            (ir_pop(ir_flush(IrState { buf: p.buf + ev.1, ..p })), open)
        },
        MdEvent::Rule => (ir_pop(ir_push(st, Role::Rule, TextStyle::Plain, None, None)), open),
        MdEvent::SoftBreak | MdEvent::HardBreak => (
            ir_pop(ir_push(st, Role::Break, TextStyle::Plain, None, None)),
            open,
        ),
        MdEvent::Other => (st, open),
    }
}

/// The tree and open elements after the first `n` events.
pub open spec fn ir_run(evs: Seq<(MdEvent, Seq<char>, int, int)>, tags: Seq<MdTag>, n: int) -> (IrState, Seq<MdTag>)
    decreases n,
{
    if n <= 0 {
        (ir_init(), Seq::empty())
    } else {
        let prev = ir_run(evs, tags, n - 1);
        ir_event(prev.0, prev.1, evs[n - 1], tag_at(tags, n - 1))
    }
}

/// Every state the events lead to is a well-formed tree.
pub proof fn lemma_ir_run_wf(evs: Seq<(MdEvent, Seq<char>, int, int)>, tags: Seq<MdTag>, n: int)
    ensures
        ir_wf(ir_run(evs, tags, n).0),
    decreases n,
{
    if n <= 0 {
        assert(ir_wf(ir_init()));
    } else {
        lemma_ir_run_wf(evs, tags, n - 1);
        let prev = ir_run(evs, tags, n - 1);
        lemma_ir_event_wf(prev.0, prev.1, evs[n - 1], tag_at(tags, n - 1));
    }
}

proof fn lemma_ir_event_wf(st: IrState, open: Seq<MdTag>, ev: (MdEvent, Seq<char>, int, int), tag: MdTag)
    requires
        ir_wf(st),
    ensures
        ir_wf(ir_event(st, open, ev, tag).0),
{
    match ev.0 {
        MdEvent::Start => {
            lemma_push_wf(st, Role::Paragraph, TextStyle::Plain, None, None);
            match tag {
                MdTag::Heading(l) => lemma_push_wf(st, Role::Heading(l), TextStyle::Plain, None, None),
                MdTag::BlockQuote => lemma_push_wf(st, Role::BlockQuote, TextStyle::Plain, None, None),
                MdTag::CodeBlock => lemma_push_wf(st, Role::CodeBlock, TextStyle::Plain, None, None),
                MdTag::List => lemma_push_wf(st, Role::UnorderedList, TextStyle::Plain, None, None),
                MdTag::Item => lemma_push_wf(st, Role::ListItem, TextStyle::Plain, None, None),
                MdTag::Table => lemma_push_wf(st, Role::Table, TextStyle::Plain, None, None),
                MdTag::TableHead => lemma_push_wf(st, Role::TableHead, TextStyle::Plain, None, None),
                MdTag::TableRow => lemma_push_wf(st, Role::TableRow, TextStyle::Plain, None, None),
                MdTag::TableCell => lemma_push_wf(st, Role::TableCell, TextStyle::Plain, None, None),
                MdTag::Emphasis => lemma_push_wf(st, Role::Inline, TextStyle::Italic, None, None),
                MdTag::Strong => lemma_push_wf(st, Role::Inline, TextStyle::Bold, None, None),
                MdTag::Link => lemma_push_wf(st, Role::Link, TextStyle::Plain, Some(ev.1), None),
                MdTag::Image => lemma_push_wf(st, Role::Image, TextStyle::Plain, None, Some(ev.1)),
                _ => {},
            }
        },
        MdEvent::End => {
            lemma_pop_wf(st);
        },
        MdEvent::Text => {},
        MdEvent::Code => {
            lemma_push_wf(st, Role::Inline, TextStyle::Monospace, None, None);
            let p = ir_push(st, Role::Inline, TextStyle::Monospace, None, None);
            let q = IrState { buf: p.buf + ev.1, ..p };
            lemma_flush_wf(q);
            lemma_pop_wf(ir_flush(q));
        },
        MdEvent::Rule => {
            lemma_push_wf(st, Role::Rule, TextStyle::Plain, None, None);
            lemma_pop_wf(ir_push(st, Role::Rule, TextStyle::Plain, None, None));
        },
        MdEvent::SoftBreak | MdEvent::HardBreak => {
            lemma_push_wf(st, Role::Break, TextStyle::Plain, None, None);
            lemma_pop_wf(ir_push(st, Role::Break, TextStyle::Plain, None, None));
        },
        MdEvent::Other => {},
    }
}

/// An image source that is not a local file: a web URL or a `data:` URL.
pub open spec fn is_external_src(u: Seq<char>) -> bool {
    is_web_url(u) || match_at(utf8(u), ascii_bytes("data:"@), 0)
}

/// The directory a document's relative paths start from: its parent, or
/// `.` when it has none.
pub open spec fn base_dir(path: Seq<char>) -> Seq<char> {
    match path_parent(path) {
        Some(p) => p,
        None => "."@,
    }
}

/// `p` is the same path as one of `known`.
pub open spec fn known_path(known: Seq<Seq<char>>, p: Seq<char>) -> bool {
    exists|i: int| 0 <= i < known.len() && same_path(#[trigger] known[i], p)
}

/// The (URL, path) pairs of the local images among the first `n` events
/// that are not yet known: each image's URL joined to `base`, unless that
/// path is in `known` or was added before.
pub open spec fn new_images(evs: Seq<(MdEvent, Seq<char>, int, int)>, tags: Seq<MdTag>, n: int, known: Seq<Seq<char>>, base: Seq<char>) -> Seq<(Seq<char>, Seq<char>)>
    decreases n,
{
    if n <= 0 {
        Seq::empty()
    } else {
        let added = new_images(evs, tags, n - 1, known, base);
        let url = evs[n - 1].1;
        let full = path_joined(base, url);
        if evs[n - 1].0 == MdEvent::Start && tag_at(tags, n - 1) == MdTag::Image
            && !is_external_src(url) && !known_path(known + added.map_values(|a: (Seq<char>, Seq<char>)| a.1), full) {
            added.push((url, full))
        } else {
            added
        }
    }
}

/// The text of chapter `k` of a document, when its byte range is ordered
/// and holds whole characters.
pub open spec fn chapter_text(text: Seq<char>, span: (int, int)) -> Seq<char> {
    vstd::utf8::decode_utf8(utf8(text).subrange(span.0, span.1))
}

/// Builder for a chapter tree.
pub struct IrBuilder {
    nodes: Vec<Node>,
    text: Vec<char>,
    parent_stack: Vec<usize>,
    text_buffer: Vec<char>,
}

impl IrBuilder {
    /// The builder's state as plain values.
    pub closed spec fn state(&self) -> IrState {
        IrState {
            nodes: self.nodes@.map_values(|n: Node| node_view(n)),
            text: self.text@,
            stack: self.parent_stack@.map_values(|p: usize| p as int),
            buf: self.text_buffer@,
        }
    }

    /// A builder holding only the root node.
    pub fn new() -> (r: Self)
        ensures
            r.state() == ir_init(),
    {
        let mut nodes: Vec<Node> = Vec::new();
        nodes.push(Node {
            role: Role::Root,
            parent: 0,
            text_start: 0,
            text_end: 0,
            style: TextStyle::Plain,
            href: None,
            src: None,
        });
        let mut parent_stack: Vec<usize> = Vec::new();
        parent_stack.push(0);
        let r = IrBuilder { nodes, text: Vec::new(), parent_stack, text_buffer: Vec::new() };
        assert(r.state().nodes =~= ir_init().nodes);
        assert(r.state().stack =~= ir_init().stack);
        r
    }

    /// Place the pending text in a text node.
    pub fn flush_text(&mut self)
        requires
            ir_wf(old(self).state()),
        ensures
            final(self).state() == ir_flush(old(self).state()),
    {
        if self.text_buffer.len() == 0 {
            return;
        }
        let ghost before = self.state();
        let ghost nodes0 = self.nodes@;
        let ghost stack0 = self.parent_stack@;
        let start = self.text.len();
        let mut k: usize = 0;
        while k < self.text_buffer.len()
            invariant
                k <= self.text_buffer@.len(),
                self.nodes@ == nodes0,
                self.parent_stack@ == stack0,
                self.text_buffer@ == before.buf,
                self.text@ == before.text + before.buf.subrange(0, k as int),
                start == before.text.len(),
            decreases self.text_buffer@.len() - k,
        {
            let c = self.text_buffer[k];
            self.text.push(c);
            k = k + 1;
            assert(self.text@ =~= before.text + before.buf.subrange(0, k as int));
        }
        let end = self.text.len();
        assert(self.text@ =~= before.text + before.buf);
        let parent = self.parent_stack[self.parent_stack.len() - 1];
        assert(parent as int == before.stack.last());
        self.nodes.push(Node {
            role: Role::Text,
            parent,
            text_start: start,
            text_end: end,
            style: TextStyle::Plain,
            href: None,
            src: None,
        });
        self.text_buffer = Vec::new();
        assert(self.state().nodes =~= ir_flush(before).nodes);
        assert(self.state().text =~= ir_flush(before).text);
        assert(self.state().buf =~= ir_flush(before).buf);
    }

    /// Open a new node under the innermost open node; returns its index.
    pub fn push_node(&mut self, role: Role, style: TextStyle, href: Option<String>, src: Option<String>) -> (r: usize)
        requires
            ir_wf(old(self).state()),
        ensures
            final(self).state() == ir_push(
                old(self).state(),
                role,
                style,
                match href {
                    Some(h) => Some(h@),
                    None => None,
                },
                match src {
                    Some(h) => Some(h@),
                    None => None,
                },
            ),
            r as int == ir_flush(old(self).state()).nodes.len(),
    {
        let ghost before = self.state();
        proof {
            lemma_flush_wf(before);
        }
        self.flush_text();
        let ghost f = self.state();
        let id = self.nodes.len();
        let parent = self.parent_stack[self.parent_stack.len() - 1];
        self.nodes.push(Node { role, parent, text_start: 0, text_end: 0, style, href, src });
        self.parent_stack.push(id);
        assert(self.state().nodes =~= ir_push(before, role, style, match href {
            Some(h) => Some(h@),
            None => None,
        }, match src {
            Some(h) => Some(h@),
            None => None,
        }).nodes);
        assert(self.state().stack =~= f.stack.push(id as int));
        id
    }

    /// Close the innermost open node, unless it is the root.
    pub fn pop_node(&mut self)
        requires
            ir_wf(old(self).state()),
        ensures
            final(self).state() == ir_pop(old(self).state()),
    {
        let ghost before = self.state();
        proof {
            lemma_flush_wf(before);
        }
        self.flush_text();
        if self.parent_stack.len() > 1 {
            self.parent_stack.pop();
            assert(self.state().stack =~= ir_flush(before).stack.drop_last());
        }
    }

    /// Add text to the pending text.
    pub fn append_pending(&mut self, s: &String)
        ensures
            final(self).state() == (IrState { buf: old(self).state().buf + s@, ..old(self).state() }),
    {
        let c = crate::text::str_chars(s.as_str());
        let ghost b0 = self.text_buffer@;
        let ghost nodes0 = self.nodes@;
        let ghost text0 = self.text@;
        let ghost stack0 = self.parent_stack@;
        let mut k: usize = 0;
        while k < c.len()
            invariant
                k <= c@.len(),
                c@ == s@,
                self.text_buffer@ == b0 + c@.subrange(0, k as int),
                self.nodes@ == nodes0,
                self.text@ == text0,
                self.parent_stack@ == stack0,
            decreases c@.len() - k,
        {
            self.text_buffer.push(c[k]);
            k = k + 1;
            assert(self.text_buffer@ =~= b0 + c@.subrange(0, k as int));
        }
        assert(c@.subrange(0, k as int) =~= s@);
    }

    /// The chapter built so far; text still pending is not included.
    pub fn build(self) -> (r: Chapter)
        ensures
            r.nodes@.map_values(|n: Node| node_view(n)) == self.state().nodes,
            r.text@ == self.state().text,
    {
        let text = crate::text::string_from_chars(&self.text);
        Chapter { nodes: self.nodes, text }
    }
}

} // verus!
