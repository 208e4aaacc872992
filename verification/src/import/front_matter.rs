//! YAML front matter of Markdown documents: where it stands in a document,
//! how it frames, and how it converts to and from book metadata. The YAML
//! text itself is read and written by serde_yaml around this library.

use vstd::prelude::*;
use crate::model::{CollectionInfo, Contributor, Metadata};
use crate::text::{ascii_bytes, join_path, lit, path_joined, str_chars, str_eq, string_from_chars, utf8};
use crate::util::{bytes_match_at, find_bytes, find_from, lemma_find_from, lemma_find_from_unique, match_at};

verus! {

broadcast use vstd::string::group_string_axioms;

/// Front matter contributor with role and sort name.
#[derive(Debug, Clone)]
pub struct FrontMatterContributor {
    pub name: String,
    pub role: Option<String>,
    pub file_as: Option<String>,
}

/// Front matter collection/series information. The position within the
/// series is a floating-point number, held as its IEEE-754 bit pattern.
#[derive(Debug, Clone)]
pub struct FrontMatterCollection {
    pub name: String,
    pub collection_type: Option<String>,
    pub position_bits: Option<u64>,
}

/// YAML front matter of a Markdown file: the fields of `Metadata` under the
/// names used in front matter.
#[derive(Debug, Clone)]
pub struct FrontMatter {
    pub title: String,
    pub authors: Vec<String>,
    pub language: String,
    pub identifier: String,
    pub publisher: Option<String>,
    pub description: Option<String>,
    pub subjects: Vec<String>,
    pub date: Option<String>,
    pub rights: Option<String>,
    pub cover: Option<String>,
    pub modified: Option<String>,
    pub contributors: Vec<FrontMatterContributor>,
    pub title_sort: Option<String>,
    pub author_sort: Option<String>,
    pub collection: Option<FrontMatterCollection>,
}

/// The book description shared by `Metadata` and `FrontMatter`, as plain
/// values. Contributors are (name, file-as, role); the collection is (name,
/// type, position bits).
pub struct BookInfo {
    pub title: Seq<char>,
    pub authors: Seq<Seq<char>>,
    pub language: Seq<char>,
    pub identifier: Seq<char>,
    pub publisher: Option<Seq<char>>,
    pub description: Option<Seq<char>>,
    pub subjects: Seq<Seq<char>>,
    pub date: Option<Seq<char>>,
    pub rights: Option<Seq<char>>,
    pub cover: Option<Seq<char>>,
    pub modified: Option<Seq<char>>,
    pub contributors: Seq<(Seq<char>, Option<Seq<char>>, Option<Seq<char>>)>,
    pub title_sort: Option<Seq<char>>,
    pub author_sort: Option<Seq<char>>,
    pub collection: Option<(Seq<char>, Option<Seq<char>>, Option<u64>)>,
}

/// An optional string as plain value.
pub open spec fn opt(o: Option<String>) -> Option<Seq<char>> {
    match o {
        Some(s) => Some(s@),
        None => None,
    }
}

/// Strings as plain values.
pub open spec fn strs(v: Seq<String>) -> Seq<Seq<char>> {
    v.map_values(|s: String| s@)
}

/// What `Metadata` says of the book.
pub open spec fn meta_info(m: Metadata) -> BookInfo {
    BookInfo {
        title: m.title@,
        authors: strs(m.authors@),
        language: m.language@,
        identifier: m.identifier@,
        publisher: opt(m.publisher),
        description: opt(m.description),
        subjects: strs(m.subjects@),
        date: opt(m.date),
        rights: opt(m.rights),
        cover: opt(m.cover_image),
        modified: opt(m.modified_date),
        contributors: m.contributors@.map_values(
            |c: Contributor| (c.name@, opt(c.file_as), opt(c.role)),
        ),
        title_sort: opt(m.title_sort),
        author_sort: opt(m.author_sort),
        collection: match m.collection {
            Some(c) => Some((c.name@, opt(c.collection_type), c.position_bits)),
            None => None,
        },
    }
}

/// What `FrontMatter` says of the book.
pub open spec fn fm_info(f: FrontMatter) -> BookInfo {
    BookInfo {
        title: f.title@,
        authors: strs(f.authors@),
        language: f.language@,
        identifier: f.identifier@,
        publisher: opt(f.publisher),
        description: opt(f.description),
        subjects: strs(f.subjects@),
        date: opt(f.date),
        rights: opt(f.rights),
        cover: opt(f.cover),
        modified: opt(f.modified),
        contributors: f.contributors@.map_values(
            |c: FrontMatterContributor| (c.name@, opt(c.file_as), opt(c.role)),
        ),
        title_sort: opt(f.title_sort),
        author_sort: opt(f.author_sort),
        collection: match f.collection {
            Some(c) => Some((c.name@, opt(c.collection_type), c.position_bits)),
            None => None,
        },
    }
}

/// The language, with `en` in place of an empty one.
pub open spec fn en_if_empty(l: Seq<char>) -> Seq<char> {
    if l.len() == 0 {
        "en"@
    } else {
        l
    }
}

/// Metadata as front matter: the cover becomes the given relative path and
/// an empty language `en`.
pub open spec fn to_front_matter(m: BookInfo, cover: Option<Seq<char>>) -> BookInfo {
    BookInfo { language: en_if_empty(m.language), cover, ..m }
}

/// The cover path of front matter resolved: its canonical form when it has
/// one, else the path as written.
pub open spec fn resolved_cover(cover: Option<Seq<char>>, canonical: Option<Seq<char>>) -> Option<Seq<char>> {
    match cover {
        Some(c) => Some(
            match canonical {
                Some(p) => p,
                None => c,
            },
        ),
        None => None,
    }
}

/// Front matter as metadata: the cover resolved, an empty language `en`.
pub open spec fn to_metadata(f: BookInfo, canonical: Option<Seq<char>>) -> BookInfo {
    BookInfo { language: en_if_empty(f.language), cover: resolved_cover(f.cover, canonical), ..f }
}

/// The default front matter language, `en`.
pub fn default_language() -> (r: String)
    ensures
        r@ == "en"@,
{
    "en".to_owned()
}

impl Default for FrontMatter {
    fn default() -> (r: Self)
        ensures
            fm_info(r) == (BookInfo {
                title: Seq::empty(),
                authors: Seq::empty(),
                language: Seq::empty(),
                identifier: Seq::empty(),
                publisher: None,
                description: None,
                subjects: Seq::empty(),
                date: None,
                rights: None,
                cover: None,
                modified: None,
                contributors: Seq::empty(),
                title_sort: None,
                author_sort: None,
                collection: None,
            }),
    {
        let r = FrontMatter {
            title: String::new(),
            authors: Vec::new(),
            language: String::new(),
            identifier: String::new(),
            publisher: None,
            description: None,
            subjects: Vec::new(),
            date: None,
            rights: None,
            cover: None,
            modified: None,
            contributors: Vec::new(),
            title_sort: None,
            author_sort: None,
            collection: None,
        };
        assert(strs(r.authors@) =~= Seq::empty());
        assert(strs(r.subjects@) =~= Seq::empty());
        assert(fm_info(r).contributors =~= Seq::empty());
        r
    }
}

fn clone_opt(o: &Option<String>) -> (r: Option<String>)
    ensures
        opt(r) == opt(*o),
{
    match o {
        Some(s) => Some(s.clone()),
        None => None,
    }
}

fn clone_strs(v: &Vec<String>) -> (r: Vec<String>)
    ensures
        strs(r@) == strs(v@),
{
    let mut r: Vec<String> = Vec::new();
    let mut i: usize = 0;
    while i < v.len()
        invariant
            i <= v@.len(),
            r@.len() == i,
            forall|k: int| 0 <= k < i ==> #[trigger] r@[k]@ == v@[k]@,
        decreases v@.len() - i,
    {
        r.push(v[i].clone());
        i = i + 1;
    }
    assert(strs(r@) =~= strs(v@));
    r
}

fn language_or_en(l: &String) -> (r: String)
    ensures
        r@ == en_if_empty(l@),
{
    if l.as_str().is_empty() {
        default_language()
    } else {
        l.clone()
    }
}

/// The path under which the front matter's cover is looked up: the cover
/// path as written, joined to the document's directory `base_dir`; `None`
/// when the front matter names no cover.
pub fn cover_lookup_path(fm: &FrontMatter, base_dir: &str) -> (r: Option<String>)
    ensures
        fm.cover is None ==> r is None,
        fm.cover is Some ==> r is Some && r->0@ == path_joined(base_dir@, fm.cover->0@),
{
    match &fm.cover {
        Some(c) => Some(join_path(base_dir, c.as_str())),
        None => None,
    }
}

/// Convert front matter to metadata. `canonical_cover` is the canonical
/// form of the front matter's cover path joined to the document's
/// directory, when it could be found; without it the cover path is kept as
/// written.
pub fn front_matter_to_metadata(fm: &FrontMatter, canonical_cover: Option<String>) -> (r: Metadata)
    ensures
        meta_info(r) == to_metadata(fm_info(*fm), opt(canonical_cover)),
{
    let cover_image = match &fm.cover {
        Some(c) => match canonical_cover {
            Some(p) => Some(p),
            None => Some(c.clone()),
        },
        None => None,
    };
    let mut contributors: Vec<Contributor> = Vec::new();
    let mut i: usize = 0;
    while i < fm.contributors.len()
        invariant
            i <= fm.contributors@.len(),
            contributors@.len() == i,
            forall|k: int|
                0 <= k < i ==> (#[trigger] contributors@[k]).name@ == fm.contributors@[k].name@ && opt(
                    contributors@[k].file_as,
                ) == opt(fm.contributors@[k].file_as) && opt(contributors@[k].role) == opt(
                    fm.contributors@[k].role,
                ),
        decreases fm.contributors@.len() - i,
    {
        let c = &fm.contributors[i];
        contributors.push(Contributor { name: c.name.clone(), file_as: clone_opt(&c.file_as), role: clone_opt(&c.role) });
        i = i + 1;
    }
    assert(contributors@.map_values(|c: Contributor| (c.name@, opt(c.file_as), opt(c.role)))
        =~= fm.contributors@.map_values(|c: FrontMatterContributor| (c.name@, opt(c.file_as), opt(c.role))));
    let collection = match &fm.collection {
        Some(c) => Some(CollectionInfo {
            name: c.name.clone(),
            collection_type: clone_opt(&c.collection_type),
            position_bits: c.position_bits,
        }),
        None => None,
    };
    Metadata {
        title: fm.title.clone(),
        authors: clone_strs(&fm.authors),
        language: language_or_en(&fm.language),
        identifier: fm.identifier.clone(),
        publisher: clone_opt(&fm.publisher),
        description: clone_opt(&fm.description),
        subjects: clone_strs(&fm.subjects),
        date: clone_opt(&fm.date),
        rights: clone_opt(&fm.rights),
        cover_image,
        modified_date: clone_opt(&fm.modified),
        contributors,
        title_sort: clone_opt(&fm.title_sort),
        author_sort: clone_opt(&fm.author_sort),
        collection,
    }
}

/// Convert metadata to front matter; `cover_relative` is the cover path to
/// write, relative to the output file.
pub fn metadata_to_front_matter(meta: &Metadata, cover_relative: Option<&str>) -> (r: FrontMatter)
    ensures
        fm_info(r) == to_front_matter(
            meta_info(*meta),
            match cover_relative {
                Some(c) => Some(c@),
                None => None,
            },
        ),
{
    let cover = match cover_relative {
        Some(c) => Some(c.to_owned()),
        None => None,
    };
    let mut contributors: Vec<FrontMatterContributor> = Vec::new();
    let mut i: usize = 0;
    while i < meta.contributors.len()
        invariant
            i <= meta.contributors@.len(),
            contributors@.len() == i,
            forall|k: int|
                0 <= k < i ==> (#[trigger] contributors@[k]).name@ == meta.contributors@[k].name@ && opt(
                    contributors@[k].file_as,
                ) == opt(meta.contributors@[k].file_as) && opt(contributors@[k].role) == opt(
                    meta.contributors@[k].role,
                ),
        decreases meta.contributors@.len() - i,
    {
        let c = &meta.contributors[i];
        contributors.push(FrontMatterContributor { name: c.name.clone(), role: clone_opt(&c.role), file_as: clone_opt(&c.file_as) });
        i = i + 1;
    }
    assert(contributors@.map_values(|c: FrontMatterContributor| (c.name@, opt(c.file_as), opt(c.role)))
        =~= meta.contributors@.map_values(|c: Contributor| (c.name@, opt(c.file_as), opt(c.role))));
    let collection = match &meta.collection {
        Some(c) => Some(FrontMatterCollection {
            name: c.name.clone(),
            collection_type: clone_opt(&c.collection_type),
            position_bits: c.position_bits,
        }),
        None => None,
    };
    FrontMatter {
        title: meta.title.clone(),
        authors: clone_strs(&meta.authors),
        language: language_or_en(&meta.language),
        identifier: meta.identifier.clone(),
        publisher: clone_opt(&meta.publisher),
        description: clone_opt(&meta.description),
        subjects: clone_strs(&meta.subjects),
        date: clone_opt(&meta.date),
        rights: clone_opt(&meta.rights),
        cover,
        modified: clone_opt(&meta.modified_date),
        contributors,
        title_sort: clone_opt(&meta.title_sort),
        author_sort: clone_opt(&meta.author_sort),
        collection,
    }
}

/// Metadata written as front matter and read back is the metadata itself,
/// but for the cover, which becomes the written path resolved, and an empty
/// language, which becomes `en`.
pub proof fn lemma_metadata_roundtrip(m: BookInfo, cover: Option<Seq<char>>, canonical: Option<Seq<char>>)
    ensures
        to_metadata(to_front_matter(m, cover), canonical) == (BookInfo {
            language: en_if_empty(m.language),
            cover: resolved_cover(cover, canonical),
            ..m
        }),
{
}

/// The opening delimiter of front matter, `---` and a line feed.
pub open spec fn open_delim() -> Seq<u8> {
    ascii_bytes("---\n"@)
}

/// The closing delimiter of front matter, a line feed and `---`.
pub open spec fn close_delim() -> Seq<u8> {
    ascii_bytes("\n---"@)
}

/// How many line feeds follow one another from byte `i` on.
pub open spec fn newline_run(b: Seq<u8>, i: int) -> int
    decreases b.len() - i,
{
    if 0 <= i < b.len() && b[i] == 10 {
        1 + newline_run(b, i + 1)
    } else {
        0
    }
}

/// Where the front matter of a document (as bytes) lies: for a document
/// that starts with `---\n` and has a later `\n---`, the end of the YAML
/// text (it starts at byte 4, the first `\n---` ends it) and the offset of
/// the content, past the closing `---` and the line feeds after it.
pub open spec fn front_matter_bounds(b: Seq<u8>) -> Option<(int, int)> {
    if !match_at(b, open_delim(), 0) {
        None
    } else {
        match find_from(b, close_delim(), 4) {
            Some(p) => Some((p, p + 4 + newline_run(b, p + 4))),
            None => None,
        }
    }
}

/// The span of the front matter of `content`: the byte where its YAML text
/// ends (it starts at byte 4) and the byte offset of the content after it.
pub fn front_matter_span(content: &str) -> (r: Option<(usize, usize)>)
    ensures
        (match r {
            Some((y, o)) => Some((y as int, o as int)),
            None => None,
        }) == front_matter_bounds(utf8(content@)),
{
    proof {
        reveal_strlit("---\n");
        reveal_strlit("\n---");
    }
    let b = content.as_bytes();
    let n = b.len();
    if !bytes_match_at(b, lit("---\n"), 0) {
        return None;
    }
    proof {
        lemma_find_from(b@, close_delim(), 4);
    }
    let p = match find_bytes(b, lit("\n---"), 4) {
        Some(p) => p,
        None => return None,
    };
    let mut o = p + 4;
    while o < n && b[o] == 10
        invariant
            p + 4 <= o <= n,
            n == b@.len(),
            newline_run(b@, p + 4) == (o - (p + 4)) + newline_run(b@, o as int),
        decreases n - o,
    {
        o = o + 1;
    }
    Some((p, o))
}

/// Front matter with nothing to say: every field empty or absent, and the
/// language empty or `en`.
pub open spec fn is_blank(f: BookInfo) -> bool {
    &&& f.title.len() == 0
    &&& f.authors.len() == 0
    &&& (f.language.len() == 0 || f.language == "en"@)
    &&& f.identifier.len() == 0
    &&& f.publisher is None
    &&& f.description is None
    &&& f.subjects.len() == 0
    &&& f.date is None
    &&& f.rights is None
    &&& f.cover is None
    &&& f.modified is None
    &&& f.contributors.len() == 0
    &&& f.title_sort is None
    &&& f.author_sort is None
    &&& f.collection is None
}

/// Whether front matter is empty, so that none is written.
pub fn is_front_matter_empty(fm: &FrontMatter) -> (r: bool)
    ensures
        r == is_blank(fm_info(*fm)),
{
    fm.title.as_str().is_empty() && fm.authors.len() == 0 && (fm.language.as_str().is_empty()
        || str_eq(fm.language.as_str(), "en")) && fm.identifier.as_str().is_empty()
        && fm.publisher.is_none() && fm.description.is_none() && fm.subjects.len() == 0
        && fm.date.is_none() && fm.rights.is_none() && fm.cover.is_none() && fm.modified.is_none()
        && fm.contributors.len() == 0 && fm.title_sort.is_none() && fm.author_sort.is_none()
        && fm.collection.is_none()
}

/// The text front matter is written as: `---`, the YAML, `---`, and a blank
/// line.
pub open spec fn framed(yaml: Seq<char>) -> Seq<char> {
    "---\n"@ + yaml + "\n---\n\n"@
}

/// Frame YAML text as front matter.
pub fn frame_front_matter(yaml: &str) -> (r: String)
    ensures
        r@ == framed(yaml@),
{
    proof {
        reveal_strlit("---\n");
        reveal_strlit("\n---\n\n");
    }
    let mut c: Vec<char> = Vec::new();
    c.push('-');
    c.push('-');
    c.push('-');
    c.push('\n');
    let y = str_chars(yaml);
    let mut i: usize = 0;
    while i < y.len()
        invariant
            i <= y@.len(),
            c@ == "---\n"@ + y@.subrange(0, i as int),
        decreases y@.len() - i,
    {
        c.push(y[i]);
        i = i + 1;
        assert(c@ =~= "---\n"@ + y@.subrange(0, i as int));
    }
    c.push('\n');
    c.push('-');
    c.push('-');
    c.push('-');
    c.push('\n');
    c.push('\n');
    assert(c@ =~= framed(yaml@));
    string_from_chars(&c)
}

proof fn lemma_newline_run_shift(pre: Seq<u8>, b: Seq<u8>, i: int)
    requires
        0 <= i,
    ensures
        newline_run(pre + b, pre.len() + i) == newline_run(b, i),
    decreases b.len() - i,
{
    if i < b.len() {
        lemma_newline_run_shift(pre, b, i + 1);
    }
}

proof fn lemma_ascii_utf8(s: Seq<char>)
    requires
        vstd::utf8::is_ascii_chars(s),
    ensures
        utf8(s) == ascii_bytes(s),
{
    vstd::utf8::is_ascii_chars_encode_utf8(s);
    assert(utf8(s) =~= ascii_bytes(s));
}

/// Front matter found again: framed YAML that holds no line starting with
/// `---` (no `\n---`), followed by any content, is found by
/// `front_matter_bounds`, with the YAML text in its place and the content
/// offset past the frame and the line feeds that open the content.
pub proof fn lemma_framed_found(yaml: Seq<char>, body: Seq<char>)
    requires
        forall|i: int| !match_at(utf8(yaml), close_delim(), i),
    ensures
        front_matter_bounds(utf8(framed(yaml) + body)) == Some(
            ((4 + utf8(yaml).len()) as int, utf8(framed(yaml)).len() + newline_run(utf8(body), 0)),
        ),
{
    reveal_strlit("---\n");
    reveal_strlit("\n---\n\n");
    reveal_strlit("\n---");
    let o = "---\n"@;
    let c = "\n---\n\n"@;
    let y = utf8(yaml);
    let ob = ascii_bytes(o);
    let cb = ascii_bytes(c);
    lemma_ascii_utf8(o);
    lemma_ascii_utf8(c);
    crate::text::lemma_utf8_concat(o, yaml);
    crate::text::lemma_utf8_concat(o + yaml, c);
    crate::text::lemma_utf8_concat(framed(yaml), body);
    let fb = ob + y + cb;
    assert(utf8(framed(yaml)) == fb);
    let b = fb + utf8(body);
    assert(b == utf8(framed(yaml) + body));
    let pat = close_delim();
    let p = (4 + y.len()) as int;
    assert(b.subrange(0, 4) =~= open_delim());
    assert(b.subrange(p, p + 4) =~= pat);
    assert forall|j: int| 4 <= j < p implies !match_at(b, pat, j) by {
        if j + 4 <= p {
            assert(b.subrange(j, j + 4) =~= y.subrange(j - 4, j));
            assert(!match_at(y, pat, j - 4));
        } else {
            assert(b[p] == 10);
            assert(b.subrange(j, j + 4)[p - j] == 10);
            assert(pat[p - j] == 45);
        }
    }
    lemma_find_from_unique(b, pat, 4, p);
    let nl2 = seq![10u8, 10u8];
    assert(cb.subrange(4, 6) =~= nl2);
    assert(b =~= (ob + y + cb.subrange(0, 4)) + (nl2 + utf8(body)));
    lemma_newline_run_shift(ob + y + cb.subrange(0, 4), nl2 + utf8(body), 0);
    lemma_newline_run_shift(nl2, utf8(body), 0);
    let t = nl2 + utf8(body);
    assert(t[0] == 10 && t[1] == 10);
    assert(newline_run(t, 1) == 1 + newline_run(t, 2));
    assert(newline_run(t, 0) == 1 + newline_run(t, 1));
    assert(newline_run(b, p + 4) == newline_run(t, 0));
}

} // verus!
