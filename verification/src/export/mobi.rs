//! MOBI 6 exporter: configuration, the builder that turns a book's content
//! into MOBI records, and the assembly of the final file.

use vstd::prelude::*;
use crate::export::mobi_links::{
    collect, collect_html_content, pm_insert, resolve_internal_links, resolve_links, strip_cover,
    strip_cover_from_body, update_image_references, update_images, ChapterSource, ImageIndex,
    PositionMap,
};
use crate::export::mobi_records::{
    codepage, concat, exth_body, exth_fits, exth_header, mobi_header, palmdb_header,
    pdb_file, views, HeaderFields, MobiEncoding,
};
use crate::export::mobi_toc::{flatten_toc_for_mobi, toc_ncx, NcxBuildEntry};
use crate::mobi::palmdoc::{compress, palmdoc_decode};
use crate::model::{Metadata, TocEntry};
use crate::text::{ascii_bytes, lit, lowercase, path_file_name, path_parent, utf8};
use crate::util::{ends_with, find_bytes, find_from, lemma_find_from, push_all, push_range};

verus! {

broadcast use vstd::string::group_string_axioms;

/// Configuration for MOBI 6 export.
#[derive(Debug, Clone, Copy)]
pub struct MobiConfig {
    /// Collect warnings during export
    pub collect_warnings: bool,
    /// Maximum image dimensions (width, height)
    pub max_image_size: (u32, u32),
    /// Maximum image file size in bytes
    pub max_image_file_size: u64,
    /// Character encoding
    pub encoding: MobiEncoding,
}

/// The default MOBI configuration: warnings collected, images up to
/// 2048x2048 pixels and 10 MiB, UTF-8 text.
pub open spec fn default_mobi_config(c: MobiConfig) -> bool {
    &&& c.collect_warnings
    &&& c.max_image_size == (2048u32, 2048u32)
    &&& c.max_image_file_size == 10 * 1024 * 1024
    &&& c.encoding == MobiEncoding::Utf8
}

impl Default for MobiConfig {
    fn default() -> (r: Self)
        ensures
            default_mobi_config(r),
    {
        MobiConfig {
            collect_warnings: true,
            max_image_size: (2048, 2048),
            max_image_file_size: 10 * 1024 * 1024,
            encoding: MobiEncoding::Utf8,
        }
    }
}

/// Result of MOBI export with warnings.
#[derive(Debug, Clone)]
pub struct MobiResult {
    pub success: bool,
    pub warnings: Vec<String>,
}

/// Primary language subtag: the bytes before the first `-`.
pub open spec fn primary_subtag(b: Seq<u8>) -> Seq<u8> {
    match find_from(b, ascii_bytes("-"@), 0) {
        Some(i) => b.subrange(0, i),
        None => b,
    }
}

/// MOBI language code (the Windows primary language identifier, which is
/// what the MOBI header's language field holds) of a primary language
/// subtag; English for unknown languages. Each listed language has a code
/// of its own (see `lemma_language_codes_distinct`): readers look the code
/// up in that table, so Italian is 0x10, Japanese 0x11, Chinese 0x04,
/// Russian 0x19, Swedish 0x1D and Thai 0x1E.
pub open spec fn mobi_language(p: Seq<u8>) -> u32 {
    if p == ascii_bytes("en"@) { 0x09 }
    else if p == ascii_bytes("de"@) { 0x07 }
    else if p == ascii_bytes("fr"@) { 0x0C }
    else if p == ascii_bytes("es"@) { 0x0A }
    else if p == ascii_bytes("it"@) { 0x10 }
    else if p == ascii_bytes("ja"@) { 0x11 }
    else if p == ascii_bytes("zh"@) { 0x04 }
    else if p == ascii_bytes("ko"@) { 0x12 }
    else if p == ascii_bytes("pt"@) { 0x16 }
    else if p == ascii_bytes("ru"@) { 0x19 }
    else if p == ascii_bytes("nl"@) { 0x13 }
    else if p == ascii_bytes("sv"@) { 0x1D }
    else if p == ascii_bytes("da"@) { 0x06 }
    else if p == ascii_bytes("fi"@) { 0x0B }
    else if p == ascii_bytes("el"@) { 0x08 }
    else if p == ascii_bytes("cs"@) { 0x05 }
    else if p == ascii_bytes("pl"@) { 0x15 }
    else if p == ascii_bytes("tr"@) { 0x1F }
    else if p == ascii_bytes("ar"@) { 0x01 }
    else if p == ascii_bytes("he"@) { 0x0D }
    else if p == ascii_bytes("th"@) { 0x1E }
    else if p == ascii_bytes("hu"@) { 0x0E }
    else if p == ascii_bytes("no"@) { 0x14 }
    else { 0x09 }
}

/// One of the primary language subtags with a MOBI language code of its own.
pub open spec fn is_known_language(p: Seq<u8>) -> bool {
    ||| p == ascii_bytes("en"@)
    ||| p == ascii_bytes("de"@)
    ||| p == ascii_bytes("fr"@)
    ||| p == ascii_bytes("es"@)
    ||| p == ascii_bytes("it"@)
    ||| p == ascii_bytes("ja"@)
    ||| p == ascii_bytes("zh"@)
    ||| p == ascii_bytes("ko"@)
    ||| p == ascii_bytes("pt"@)
    ||| p == ascii_bytes("ru"@)
    ||| p == ascii_bytes("nl"@)
    ||| p == ascii_bytes("sv"@)
    ||| p == ascii_bytes("da"@)
    ||| p == ascii_bytes("fi"@)
    ||| p == ascii_bytes("el"@)
    ||| p == ascii_bytes("cs"@)
    ||| p == ascii_bytes("pl"@)
    ||| p == ascii_bytes("tr"@)
    ||| p == ascii_bytes("ar"@)
    ||| p == ascii_bytes("he"@)
    ||| p == ascii_bytes("th"@)
    ||| p == ascii_bytes("hu"@)
    ||| p == ascii_bytes("no"@)
}

/// A MOBI language code names one language: different known subtags get
/// different codes.
pub proof fn lemma_language_codes_distinct(a: Seq<u8>, b: Seq<u8>)
    requires
        is_known_language(a),
        is_known_language(b),
        a != b,
    ensures
        mobi_language(a) != mobi_language(b),
{
    reveal_strlit("en");
    reveal_strlit("de");
    reveal_strlit("fr");
    reveal_strlit("es");
    reveal_strlit("it");
    reveal_strlit("ja");
    reveal_strlit("zh");
    reveal_strlit("ko");
    reveal_strlit("pt");
    reveal_strlit("ru");
    reveal_strlit("nl");
    reveal_strlit("sv");
    reveal_strlit("da");
    reveal_strlit("fi");
    reveal_strlit("el");
    reveal_strlit("cs");
    reveal_strlit("pl");
    reveal_strlit("tr");
    reveal_strlit("ar");
    reveal_strlit("he");
    reveal_strlit("th");
    reveal_strlit("hu");
    reveal_strlit("no");
}

/// MOBI language code of a BCP-47 language tag (compared in lowercase).
pub open spec fn language_code_of(lang: Seq<char>) -> u32 {
    mobi_language(primary_subtag(utf8(lowercase(lang))))
}

fn is(p: &[u8], code: &str) -> (r: bool)
    requires
        vstd::string::is_ascii(code),
    ensures
        r == (p@ == ascii_bytes(code@)),
{
    crate::export::mobi_links::bytes_eq(p, lit(code))
}

/// MOBI language code of an already lowercased BCP-47 language tag.
pub fn language_code_lower(lower: &str) -> (r: u32)
    ensures
        r == mobi_language(primary_subtag(utf8(lower@))),
{
    proof {
        reveal_strlit("-");
        reveal_strlit("en"); reveal_strlit("de"); reveal_strlit("fr"); reveal_strlit("es");
        reveal_strlit("it"); reveal_strlit("ja"); reveal_strlit("zh"); reveal_strlit("ko");
        reveal_strlit("pt"); reveal_strlit("ru"); reveal_strlit("nl"); reveal_strlit("sv");
        reveal_strlit("da"); reveal_strlit("fi"); reveal_strlit("el"); reveal_strlit("cs");
        reveal_strlit("pl"); reveal_strlit("tr"); reveal_strlit("ar"); reveal_strlit("he");
        reveal_strlit("th"); reveal_strlit("hu"); reveal_strlit("no");
    }
    let b = lower.as_bytes();
    let dash = lit("-");
    proof {
        lemma_find_from(b@, dash@, 0);
    }
    let mut p: Vec<u8> = Vec::new();
    match find_bytes(b, dash, 0) {
        Some(i) => push_range(&mut p, b, 0, i),
        None => push_all(&mut p, b),
    }
    assert(p@ == primary_subtag(utf8(lower@)));
    if is(&p, "en") { 0x09 }
    else if is(&p, "de") { 0x07 }
    else if is(&p, "fr") { 0x0C }
    else if is(&p, "es") { 0x0A }
    else if is(&p, "it") { 0x10 }
    else if is(&p, "ja") { 0x11 }
    else if is(&p, "zh") { 0x04 }
    else if is(&p, "ko") { 0x12 }
    else if is(&p, "pt") { 0x16 }
    else if is(&p, "ru") { 0x19 }
    else if is(&p, "nl") { 0x13 }
    else if is(&p, "sv") { 0x1D }
    else if is(&p, "da") { 0x06 }
    else if is(&p, "fi") { 0x0B }
    else if is(&p, "el") { 0x08 }
    else if is(&p, "cs") { 0x05 }
    else if is(&p, "pl") { 0x15 }
    else if is(&p, "tr") { 0x1F }
    else if is(&p, "ar") { 0x01 }
    else if is(&p, "he") { 0x0D }
    else if is(&p, "th") { 0x1E }
    else if is(&p, "hu") { 0x0E }
    else if is(&p, "no") { 0x14 }
    else { 0x09 }
}

/// Map BCP-47 language tag to MOBI language code.
pub fn language_code(lang: &str) -> (r: u32)
    ensures
        r == language_code_of(lang@),
        vstd::utf8::is_ascii_chars(lang@) ==> r == mobi_language(
            primary_subtag(utf8(lang@.map_values(|c: char| crate::text::ascii_lower_char(c)))),
        ),
{
    let lower = crate::text::to_lowercase(lang);
    language_code_lower(lower.as_str())
}

/// A UTF-8 continuation byte (`10xxxxxx`).
pub open spec fn is_continuation(b: u8) -> bool {
    0x80 <= b < 0xC0
}

/// Walk back from `e` over continuation bytes.
pub open spec fn walk_back(b: Seq<u8>, e: int) -> int
    decreases e,
{
    if 0 < e < b.len() && is_continuation(b[e]) {
        walk_back(b, e - 1)
    } else {
        e
    }
}

pub proof fn lemma_walk_back(b: Seq<u8>, e: int)
    requires
        0 <= e,
    ensures
        0 <= walk_back(b, e) <= e,
    decreases e,
{
    if 0 < e < b.len() && is_continuation(b[e]) {
        lemma_walk_back(b, e - 1);
    }
}

/// A split point at or before `max_len` that does not fall inside a
/// multi-byte character.
pub open spec fn utf8_boundary(b: Seq<u8>, max_len: int) -> int {
    walk_back(b, if max_len < b.len() { max_len } else { b.len() as int })
}

/// Find a safe UTF-8 boundary near `max_len` bytes from the start.
pub fn find_utf8_boundary(bytes: &[u8], max_len: usize) -> (r: usize)
    ensures
        r == utf8_boundary(bytes@, max_len as int),
{
    let mut end = if max_len < bytes.len() { max_len } else { bytes.len() };
    while end > 0 && end < bytes.len() && bytes[end] >= 0x80 && bytes[end] < 0xC0
        invariant
            end <= bytes@.len(),
            walk_back(bytes@, end as int) == utf8_boundary(bytes@, max_len as int),
        decreases end,
    {
        end = end - 1;
    }
    end
}

/// Size of uncompressed text records.
pub open spec fn record_size() -> int {
    4096
}

/// End of the text record that starts at `off`: 4096 bytes on, moved back
/// to a character boundary unless that would leave the record empty.
pub open spec fn chunk_end(b: Seq<u8>, off: int) -> int {
    let proposed = if off + 4096 < b.len() { off + 4096 } else { b.len() as int };
    if proposed < b.len() {
        let e = utf8_boundary(b, proposed);
        if e > off {
            e
        } else {
            proposed
        }
    } else {
        proposed
    }
}

/// The uncompressed text records from `off` on.
pub open spec fn text_chunks(b: Seq<u8>, off: int) -> Seq<Seq<u8>>
    decreases b.len() - off,
    when 0 <= off <= b.len()
{
    if off >= b.len() {
        Seq::empty()
    } else {
        let e = chunk_end(b, off);
        proof {
            lemma_walk_back(b, if off + 4096 < b.len() { off + 4096 } else { b.len() as int });
        }
        seq![b.subrange(off, e)] + text_chunks(b, e)
    }
}

/// The uncompressed text records of the HTML; one empty record when there
/// is no text.
pub open spec fn record_texts(html: Seq<u8>) -> Seq<Seq<u8>> {
    if html.len() == 0 {
        seq![Seq::empty()]
    } else {
        text_chunks(html, 0)
    }
}

proof fn lemma_text_chunks(b: Seq<u8>, off: int)
    requires
        0 <= off <= b.len(),
    ensures
        concat(text_chunks(b, off)) == b.subrange(off, b.len() as int),
        forall|i: int| 0 <= i < text_chunks(b, off).len() ==> 0 < #[trigger] text_chunks(b, off)[i].len() <= 4096,
    decreases b.len() - off,
{
    if off < b.len() {
        let e = chunk_end(b, off);
        lemma_walk_back(b, if off + 4096 < b.len() { off + 4096 } else { b.len() as int });
        lemma_text_chunks(b, e);
        let rest = text_chunks(b, e);
        let all = seq![b.subrange(off, e)] + rest;
        lemma_concat_front(b.subrange(off, e), rest);
        assert(b.subrange(off, e) + b.subrange(e, b.len() as int) =~= b.subrange(off, b.len() as int));
        assert forall|i: int| 0 <= i < all.len() implies 0 < #[trigger] all[i].len() <= 4096 by {
            if i > 0 {
                assert(all[i] == rest[i - 1]);
            }
        }
    } else {
        assert(b.subrange(off, b.len() as int) =~= Seq::<u8>::empty());
    }
}

proof fn lemma_concat_single(x: Seq<u8>)
    ensures
        concat(seq![x]) == x,
{
    assert(seq![x].drop_last() =~= Seq::<Seq<u8>>::empty());
    assert(concat(Seq::<Seq<u8>>::empty()) == Seq::<u8>::empty());
    assert(concat(seq![x]) == concat(seq![x].drop_last()) + x);
    assert(Seq::<u8>::empty() + x =~= x);
}

proof fn lemma_concat_front(x: Seq<u8>, rs: Seq<Seq<u8>>)
    ensures
        concat(seq![x] + rs) == x + concat(rs),
    decreases rs.len(),
{
    if rs.len() == 0 {
        lemma_concat_single(x);
        assert(seq![x] + rs =~= seq![x]);
        assert(x + concat(rs) =~= x);
    } else {
        lemma_concat_front(x, rs.drop_last());
        assert((seq![x] + rs).drop_last() =~= seq![x] + rs.drop_last());
        assert(x + concat(rs.drop_last()) + rs.last() =~= x + (concat(rs.drop_last()) + rs.last()));
    }
}

/// Law of the text records: the uncompressed records, one after another,
/// are the HTML, and none is longer than 4096 bytes.
pub proof fn lemma_record_texts(html: Seq<u8>)
    ensures
        concat(record_texts(html)) == html,
        forall|i: int| 0 <= i < record_texts(html).len() ==> #[trigger] record_texts(html)[i].len() <= 4096,
{
    if html.len() == 0 {
        lemma_concat_single(Seq::<u8>::empty());
        assert(concat(record_texts(html)) =~= html);
    } else {
        lemma_text_chunks(html, 0);
        assert(html.subrange(0, html.len() as int) =~= html);
    }
}

/// Check if two asset paths refer to the same file: after turning `\` into
/// `/` and lowercasing, they are equal or one ends with `/` and the other.
pub open spec fn paths_match_spec(a: Seq<char>, c: Seq<char>) -> bool {
    let an = utf8(lowercase(slashes(a)));
    let cn = utf8(lowercase(slashes(c)));
    an == cn || ends_with(an, ascii_bytes("/"@) + cn) || ends_with(cn, ascii_bytes("/"@) + an)
}

/// `s` with every `\` replaced by `/`.
pub open spec fn slashes(s: Seq<char>) -> Seq<char> {
    s.map_values(|c: char| if c == '\\' { '/' } else { c })
}

pub(crate) fn normalize_path(p: &str) -> (r: Vec<u8>)
    ensures
        r@ == utf8(lowercase(slashes(p@))),
{
    let chars = crate::text::str_chars(p);
    let mut out: Vec<char> = Vec::new();
    let mut i: usize = 0;
    while i < chars.len()
        invariant
            i <= chars@.len(),
            chars@ == p@,
            out@ == slashes(p@).subrange(0, i as int),
        decreases chars@.len() - i,
    {
        let c = chars[i];
        out.push(if c == '\\' { '/' } else { c });
        i = i + 1;
        assert(out@ =~= slashes(p@).subrange(0, i as int));
    }
    assert(out@ =~= slashes(p@));
    let s = crate::text::string_from_chars(&out);
    let lower = crate::text::to_lowercase(s.as_str());
    crate::text::str_bytes(lower.as_str())
}

pub(crate) fn slash_then(b: &[u8]) -> (r: Vec<u8>)
    ensures
        r@ == ascii_bytes("/"@) + b@,
{
    proof {
        reveal_strlit("/");
    }
    let mut r: Vec<u8> = Vec::new();
    push_all(&mut r, lit("/"));
    push_all(&mut r, b);
    r
}

/// Check if two asset paths refer to the same file, normalizing slashes and case.
pub fn paths_match(asset_path: &str, cover_path: &str) -> (r: bool)
    ensures
        r == paths_match_spec(asset_path@, cover_path@),
{
    let a = normalize_path(asset_path);
    let c = normalize_path(cover_path);
    crate::export::mobi_links::bytes_eq(&a, &c) || crate::util::ends_with_bytes(&a, &slash_then(&c))
        || crate::util::ends_with_bytes(&c, &slash_then(&a))
}

/// An asset of the book as the exporter reads it: its path and its bytes,
/// or the error message of the failed load.
pub struct AssetSource {
    pub path: String,
    pub data: Result<Vec<u8>, String>,
}

/// What the MOBI exporter reads from a book: metadata, table of contents,
/// chapters in reading order, and assets.
pub struct BookContent {
    pub metadata: Metadata,
    pub toc: Vec<TocEntry>,
    pub chapters: Vec<ChapterSource>,
    pub assets: Vec<AssetSource>,
}

/// The path names an image file by its extension (`.jpg`, `.jpeg`, `.png`,
/// `.gif`, `.svg`, `.webp`, `.bmp`, `.tiff`, `.tif`; case-sensitive).
pub open spec fn is_image_file(p: Seq<u8>) -> bool {
    ||| ends_with(p, ascii_bytes(".jpg"@))
    ||| ends_with(p, ascii_bytes(".jpeg"@))
    ||| ends_with(p, ascii_bytes(".png"@))
    ||| ends_with(p, ascii_bytes(".gif"@))
    ||| ends_with(p, ascii_bytes(".svg"@))
    ||| ends_with(p, ascii_bytes(".webp"@))
    ||| ends_with(p, ascii_bytes(".bmp"@))
    ||| ends_with(p, ascii_bytes(".tiff"@))
    ||| ends_with(p, ascii_bytes(".tif"@))
}

fn is_image_file_exec(p: &[u8]) -> (r: bool)
    ensures
        r == is_image_file(p@),
{
    proof {
        reveal_strlit(".jpg"); reveal_strlit(".jpeg"); reveal_strlit(".png");
        reveal_strlit(".gif"); reveal_strlit(".svg"); reveal_strlit(".webp");
        reveal_strlit(".bmp"); reveal_strlit(".tiff"); reveal_strlit(".tif");
    }
    crate::util::ends_with_bytes(p, lit(".jpg")) || crate::util::ends_with_bytes(p, lit(".jpeg"))
        || crate::util::ends_with_bytes(p, lit(".png")) || crate::util::ends_with_bytes(p, lit(".gif"))
        || crate::util::ends_with_bytes(p, lit(".svg")) || crate::util::ends_with_bytes(p, lit(".webp"))
        || crate::util::ends_with_bytes(p, lit(".bmp")) || crate::util::ends_with_bytes(p, lit(".tiff"))
        || crate::util::ends_with_bytes(p, lit(".tif"))
}

/// The path an image is referred to by in the HTML: its directory's name
/// and its file name (`images/cover.jpg` for `OEBPS/images/cover.jpg`), or
/// the whole path when it has no such parts.
pub open spec fn relative_image_path(p: Seq<char>) -> Seq<char> {
    match path_parent(p) {
        Some(par) => match path_file_name(par) {
            Some(d) => match path_file_name(p) {
                Some(f) => d + seq!['/'] + f,
                None => p,
            },
            None => p,
        },
        None => p,
    }
}

fn relative_image_path_exec(p: &str) -> (r: String)
    ensures
        r@ == relative_image_path(p@),
{
    match crate::text::parent(p) {
        Some(par) => match crate::text::file_name(par.as_str()) {
            Some(d) => match crate::text::file_name(p) {
                Some(f) => {
                    let mut cs = crate::text::str_chars(d.as_str());
                    cs.push('/');
                    let fc = crate::text::str_chars(f.as_str());
                    let mut i: usize = 0;
                    let ghost start = cs@;
                    while i < fc.len()
                        invariant
                            i <= fc@.len(),
                            cs@ == start + fc@.subrange(0, i as int),
                        decreases fc@.len() - i,
                    {
                        cs.push(fc[i]);
                        i = i + 1;
                        assert(cs@ =~= start + fc@.subrange(0, i as int));
                    }
                    assert(fc@.subrange(0, fc@.len() as int) =~= fc@);
                    crate::text::string_from_chars(&cs)
                },
                None => p.to_owned(),
            },
            None => p.to_owned(),
        },
        None => p.to_owned(),
    }
}

/// Image records, the path index, and the cover record found so far.
pub struct ImagesView {
    pub records: Seq<Seq<u8>>,
    pub index: Seq<(Seq<char>, u32)>,
    pub cover: Option<u32>,
}

/// The images after looking at one more asset: an image file with
/// non-empty bytes becomes the next record (1-based index); the first one
/// whose path matches the metadata's cover is the cover record.
pub open spec fn image_step(st: ImagesView, a: AssetSource, cover_path: Option<String>) -> ImagesView {
    match a.data {
        Ok(d) => if is_image_file(utf8(a.path@)) && d@.len() > 0 {
            let idx = (st.records.len() + 1) as u32;
            let cover = if st.cover is None && cover_path is Some && paths_match_spec(
                a.path@,
                cover_path.unwrap()@,
            ) {
                Some(idx)
            } else {
                st.cover
            };
            ImagesView {
                records: st.records.push(d@),
                index: pm_insert(st.index, relative_image_path(a.path@), idx),
                cover,
            }
        } else {
            st
        },
        Err(_) => st,
    }
}

/// The images found among the first `n` assets, added to those of `st`.
pub open spec fn images_after(st: ImagesView, assets: Seq<AssetSource>, cover_path: Option<String>, n: nat) -> ImagesView
    decreases n,
{
    if n == 0 {
        st
    } else {
        image_step(images_after(st, assets, cover_path, (n - 1) as nat), assets[n - 1], cover_path)
    }
}

/// The images found among the first `n` assets.
pub open spec fn images_of(assets: Seq<AssetSource>, cover_path: Option<String>, n: nat) -> ImagesView {
    images_after(ImagesView { records: Seq::empty(), index: Seq::empty(), cover: None }, assets, cover_path, n)
}

proof fn lemma_images_len(st: ImagesView, assets: Seq<AssetSource>, cover_path: Option<String>, n: nat)
    ensures
        images_after(st, assets, cover_path, n).records.len() <= st.records.len() + n,
    decreases n,
{
    if n > 0 {
        lemma_images_len(st, assets, cover_path, (n - 1) as nat);
    }
}

/// Internal builder for MOBI 6 file creation.
pub struct MobiBuilder {
    /// Compressed text records (4KB each)
    pub text_records: Vec<Vec<u8>>,
    /// Uncompressed text length (for MOBI header)
    pub text_length: u32,
    /// Image records (PNG/JPEG data)
    pub image_records: Vec<Vec<u8>>,
    /// Image path -> record index mapping
    pub image_index: ImageIndex,
    /// Cover image record index (1-based)
    pub cover_record_index: Option<u32>,
    /// Start reading position (byte offset of first chapter body)
    pub start_reading_offset: u32,
    /// Book metadata
    pub metadata: Metadata,
    /// Table of contents
    pub toc: Vec<TocEntry>,
    /// Chapter ID and path to byte position mapping (for TOC resolution)
    pub chapter_positions: PositionMap,
    /// Configuration
    pub config: MobiConfig,
    /// Warnings collected while building
    pub warnings: Vec<String>,
}

/// How `{:?}` writes one character of a path: `"`, `\`, line feed,
/// carriage return and tab are escaped with a backslash.
pub open spec fn debug_char(c: char) -> Seq<char> {
    if c == '"' {
        seq!['\\', '"']
    } else if c == '\\' {
        seq!['\\', '\\']
    } else if c == '\n' {
        seq!['\\', 'n']
    } else if c == '\r' {
        seq!['\\', 'r']
    } else if c == '\t' {
        seq!['\\', 't']
    } else {
        seq![c]
    }
}

/// The characters of `s` escaped as `{:?}` escapes them (for printable
/// text and these five control characters).
pub open spec fn debug_escaped(s: Seq<char>) -> Seq<char>
    decreases s.len(),
{
    if s.len() == 0 {
        Seq::empty()
    } else {
        debug_escaped(s.drop_last()) + debug_char(s.last())
    }
}

/// The warning for an image asset that failed to load with error `err`:
/// `Failed to load image "<path>": <err>`, the path written as `{:?}`
/// writes it.
pub open spec fn load_warning(path: Seq<char>, err: Seq<char>) -> Seq<char> {
    "Failed to load image \""@ + debug_escaped(path) + "\": "@ + err
}

/// The warnings for the image assets among the first `n` that failed to
/// load, in order.
pub open spec fn image_warnings(assets: Seq<AssetSource>, n: nat) -> Seq<Seq<char>>
    decreases n,
{
    if n == 0 {
        Seq::empty()
    } else {
        let prev = image_warnings(assets, (n - 1) as nat);
        let a = assets[n - 1];
        if is_image_file(utf8(a.path@)) && a.data is Err {
            prev.push(load_warning(a.path@, a.data->Err_0@))
        } else {
            prev
        }
    }
}

/// Strings as plain values.
pub open spec fn string_views(v: Seq<String>) -> Seq<Seq<char>> {
    v.map_values(|s: String| s@)
}

fn push_chars(c: &mut Vec<char>, s: &str)
    ensures
        final(c)@ == old(c)@ + s@,
{
    let p = crate::text::str_chars(s);
    let ghost c0 = c@;
    let mut i: usize = 0;
    while i < p.len()
        invariant
            i <= p@.len(),
            c@ == c0 + p@.subrange(0, i as int),
        decreases p@.len() - i,
    {
        c.push(p[i]);
        i = i + 1;
        assert(c@ =~= c0 + p@.subrange(0, i as int));
    }
    assert(p@.subrange(0, i as int) =~= p@);
}

fn make_load_warning(path: &str, err: &str) -> (r: String)
    ensures
        r@ == load_warning(path@, err@),
{
    proof {
        reveal_strlit("Failed to load image \"");
        reveal_strlit("\": ");
    }
    let mut c: Vec<char> = Vec::new();
    push_chars(&mut c, "Failed to load image \"");
    let p = crate::text::str_chars(path);
    let mut i: usize = 0;
    let ghost c0 = c@;
    while i < p.len()
        invariant
            i <= p@.len(),
            c@ == c0 + debug_escaped(p@.subrange(0, i as int)),
        decreases p@.len() - i,
    {
        let ch = p[i];
        let ghost before = c@;
        if ch == '"' {
            c.push('\\');
            c.push('"');
        } else if ch == '\\' {
            c.push('\\');
            c.push('\\');
        } else if ch == '\n' {
            c.push('\\');
            c.push('n');
        } else if ch == '\r' {
            c.push('\\');
            c.push('r');
        } else if ch == '\t' {
            c.push('\\');
            c.push('t');
        } else {
            c.push(ch);
        }
        assert(c@ =~= before + debug_char(ch));
        assert(p@.subrange(0, i + 1).drop_last() =~= p@.subrange(0, i as int));
        i = i + 1;
    }
    assert(p@.subrange(0, i as int) =~= path@);
    push_chars(&mut c, "\": ");
    push_chars(&mut c, err);
    assert(c@ =~= load_warning(path@, err@));
    crate::text::string_from_chars(&c)
}

impl MobiBuilder {
    /// Create a new builder for a book's metadata and table of contents.
    pub fn new(metadata: Metadata, toc: Vec<TocEntry>, config: MobiConfig) -> (r: Self)
        ensures
            r.text_records@.len() == 0,
            r.text_length == 0,
            r.image_records@.len() == 0,
            r.image_index.view().len() == 0,
            r.cover_record_index is None,
            r.start_reading_offset == 0,
            r.metadata == metadata,
            r.toc == toc,
            r.chapter_positions.view().len() == 0,
            r.config == config,
            r.warnings@.len() == 0,
    {
        MobiBuilder {
            text_records: Vec::new(),
            text_length: 0,
            image_records: Vec::new(),
            image_index: ImageIndex::new(),
            cover_record_index: None,
            start_reading_offset: 0,
            metadata,
            toc,
            chapter_positions: PositionMap::new(),
            config,
            warnings: Vec::new(),
        }
    }

    /// Store the book's images as records.
    ///
    /// Assets whose path ends in an image extension and whose bytes are
    /// non-empty become image records in order, kept byte for byte; the
    /// first whose path matches the metadata's cover image is the cover.
    /// Assets that failed to load are skipped, with a warning for each
    /// image among them. Records already in the builder stay first.
    pub fn process_images(&mut self, assets: &Vec<AssetSource>)
        requires
            old(self).image_records@.len() + assets@.len() < 0xFFFF_FFFF,
        ensures
            ({
                let st = images_after(
                    ImagesView {
                        records: views(old(self).image_records@),
                        index: old(self).image_index.view(),
                        cover: old(self).cover_record_index,
                    },
                    assets@,
                    old(self).metadata.cover_image,
                    assets@.len(),
                );
                &&& views(final(self).image_records@) == st.records
                &&& final(self).image_index.view() == st.index
                &&& final(self).cover_record_index == st.cover
            }),
            final(self).metadata == old(self).metadata,
            final(self).toc == old(self).toc,
            final(self).text_records == old(self).text_records,
            final(self).text_length == old(self).text_length,
            final(self).start_reading_offset == old(self).start_reading_offset,
            final(self).chapter_positions == old(self).chapter_positions,
            final(self).config == old(self).config,
            string_views(final(self).warnings@) == string_views(old(self).warnings@) + image_warnings(
                assets@,
                assets@.len(),
            ),
    {
        let ghost cover_path = self.metadata.cover_image;
        let ghost w0 = string_views(self.warnings@);
        let ghost st0 = ImagesView {
            records: views(self.image_records@),
            index: self.image_index.view(),
            cover: self.cover_record_index,
        };
        let mut i: usize = 0;
        while i < assets.len()
            invariant
                i <= assets@.len(),
                st0.records.len() + assets@.len() < 0xFFFF_FFFF,
                cover_path == self.metadata.cover_image,
                self.metadata == old(self).metadata,
                self.toc == old(self).toc,
                self.text_records == old(self).text_records,
                self.text_length == old(self).text_length,
                self.start_reading_offset == old(self).start_reading_offset,
                self.chapter_positions == old(self).chapter_positions,
                self.config == old(self).config,
                string_views(self.warnings@) == w0 + image_warnings(assets@, i as nat),
                ({
                    let st = images_after(st0, assets@, cover_path, i as nat);
                    &&& views(self.image_records@) == st.records
                    &&& self.image_index.view() == st.index
                    &&& self.cover_record_index == st.cover
                }),
            decreases assets@.len() - i,
        {
            proof {
                lemma_images_len(st0, assets@, cover_path, i as nat);
            }
            let a = &assets[i];
            let path = a.path.as_str();
            if is_image_file_exec(path.as_bytes()) {
                if let Err(e) = &a.data {
                    let w = make_load_warning(path, e.as_str());
                    let ghost wv = string_views(self.warnings@);
                    self.warnings.push(w);
                    assert(string_views(self.warnings@) =~= wv.push(load_warning(path@, e@)));
                }
                if let Ok(d) = &a.data {
                    if d.len() > 0 {
                        let idx = self.image_records.len() as u32 + 1;
                        let mut copy: Vec<u8> = Vec::new();
                        push_all(&mut copy, d);
                        let ghost before = self.image_records@;
                        self.image_records.push(copy);
                        assert(views(self.image_records@) =~= views(before).push(d@));
                        if self.cover_record_index.is_none() {
                            let matches = match &self.metadata.cover_image {
                                Some(c) => paths_match(path, c.as_str()),
                                None => false,
                            };
                            if matches {
                                self.cover_record_index = Some(idx);
                            }
                        }
                        let rel = relative_image_path_exec(path);
                        self.image_index.insert(rel, idx);
                    }
                }
            }
            assert(w0 + image_warnings(assets@, (i + 1) as nat) =~= (w0 + image_warnings(assets@, i as nat)) + (
            if is_image_file(utf8(a.path@)) && a.data is Err {
                seq![load_warning(a.path@, a.data->Err_0@)]
            } else {
                Seq::empty()
            }));
            i = i + 1;
        }
    }

    /// Split the HTML into text records and compress each one.
    ///
    /// The text is cut every 4096 bytes, moved back to a character
    /// boundary; each piece is compressed on its own, so that no
    /// back-reference crosses a record. There is always at least one record.
    pub fn build_text_records(&mut self, html: &[u8])
        ensures
            final(self).text_records@.len() == record_texts(html@).len(),
            forall|i: int| 0 <= i < final(self).text_records@.len() ==>
                palmdoc_decode(#[trigger] final(self).text_records@[i]@) == Some(record_texts(html@)[i]),
            final(self).text_length == html@.len() as u32,
            final(self).metadata == old(self).metadata,
            final(self).toc == old(self).toc,
            final(self).image_records == old(self).image_records,
            final(self).image_index == old(self).image_index,
            final(self).cover_record_index == old(self).cover_record_index,
            final(self).start_reading_offset == old(self).start_reading_offset,
            final(self).chapter_positions == old(self).chapter_positions,
            final(self).config == old(self).config,
            final(self).warnings == old(self).warnings,
    {
        let n = html.len();
        let mut records: Vec<Vec<u8>> = Vec::new();
        let mut offset: usize = 0;
        while offset < n
            invariant
                n == html@.len(),
                offset <= n,
                records@.len() + text_chunks(html@, offset as int).len() == text_chunks(html@, 0).len(),
                forall|i: int| 0 <= i < records@.len() ==>
                    palmdoc_decode(#[trigger] records@[i]@) == Some(text_chunks(html@, 0)[i]),
                forall|i: int| 0 <= i < text_chunks(html@, offset as int).len() ==>
                    text_chunks(html@, offset as int)[i] == #[trigger] text_chunks(html@, 0)[records@.len() + i],
            decreases n - offset,
        {
            let proposed = if n - offset > 4096 { offset + 4096 } else { n };
            let end = if proposed < n {
                let e = find_utf8_boundary(html, proposed);
                proof {
                    lemma_walk_back(html@, proposed as int);
                }
                if e > offset { e } else { proposed }
            } else {
                proposed
            };
            assert(end == chunk_end(html@, offset as int));
            let mut chunk: Vec<u8> = Vec::new();
            push_range(&mut chunk, html, offset, end);
            let ghost rest = text_chunks(html@, offset as int);
            assert(rest == seq![html@.subrange(offset as int, end as int)] + text_chunks(html@, end as int));
            assert(rest[0] == chunk@);
            let ghost k: int = records@.len() as int;
            let ghost old_records = records@;
            assert(rest[0] == text_chunks(html@, 0)[k + 0]);
            assert forall|i: int| 0 <= i < text_chunks(html@, end as int).len() implies
                text_chunks(html@, end as int)[i] == #[trigger] text_chunks(html@, 0)[k + 1 + i] by {
                assert(text_chunks(html@, end as int)[i] == rest[i + 1]);
                assert(rest[i + 1] == text_chunks(html@, 0)[k + (i + 1)]);
            }
            records.push(compress(&chunk));
            assert forall|i: int| 0 <= i < records@.len() implies
                palmdoc_decode(#[trigger] records@[i]@) == Some(text_chunks(html@, 0)[i]) by {
                if i < k {
                    assert(records@[i] == old_records[i]);
                }
            }
            offset = end;
        }
        if records.len() == 0 {
            records.push(Vec::new());
            assert(palmdoc_decode(Seq::<u8>::empty()) == Some(Seq::<u8>::empty()));
        }
        self.text_records = records;
        self.text_length = #[verifier::truncate] (n as u32);
    }
}

/// Number of index records: the INDX records and the CNCX record (when it
/// has content).
pub open spec fn index_count(indx: Seq<Seq<u8>>, cncx: Seq<u8>) -> nat {
    indx.len() + if cncx.len() > 0 { 1nat } else { 0nat }
}

/// The values the MOBI header records for a builder.
pub open spec fn header_fields(b: MobiBuilder, n_index: nat) -> HeaderFields {
    let exth = exth_header(b.metadata, b.start_reading_offset, b.cover_record_index);
    HeaderFields {
        codepage: codepage(b.config.encoding),
        text_length: b.text_length,
        text_records: b.text_records@.len(),
        index_records: n_index,
        image_records: b.image_records@.len(),
        title_offset: (264 + exth.len()) as u32,
        title_length: utf8(b.metadata.title@).len() as u32,
        language: language_code_of(b.metadata.language@),
    }
}

/// Record 0: the MOBI header, the EXTH block, and the full title.
pub open spec fn record0(b: MobiBuilder, n_index: nat) -> Seq<u8> {
    mobi_header(header_fields(b, n_index)) + exth_header(
        b.metadata,
        b.start_reading_offset,
        b.cover_record_index,
    ) + utf8(b.metadata.title@)
}

/// All records of the file, in order: record 0, text records, INDX
/// records, CNCX (when non-empty), image records, FLIS, FCIS, end marker.
pub open spec fn file_records(b: MobiBuilder, indx: Seq<Seq<u8>>, cncx: Seq<u8>) -> Seq<Seq<u8>> {
    seq![record0(b, index_count(indx, cncx))] + views(b.text_records@) + indx + (if cncx.len() > 0 {
        seq![cncx]
    } else {
        Seq::empty()
    }) + views(b.image_records@) + seq![
        crate::export::mobi_records::flis_record(),
        crate::export::mobi_records::fcis_record(),
        crate::export::mobi_records::eof_record(),
    ]
}

/// The complete MOBI file written at time `now`.
pub open spec fn mobi_file(b: MobiBuilder, now: u32, indx: Seq<Seq<u8>>, cncx: Seq<u8>) -> Seq<u8> {
    let rs = file_records(b, indx, cncx);
    pdb_file(palmdb_header(b.metadata.title@, now, rs.len() as u16), rs)
}

/// The file fits the PalmDB format: at most 32767 records, every EXTH
/// record length and offset representable in 32 bits.
pub open spec fn file_fits(b: MobiBuilder, indx: Seq<Seq<u8>>, cncx: Seq<u8>) -> bool {
    let rs = file_records(b, indx, cncx);
    &&& index_count(indx, cncx) + b.text_records@.len() + b.image_records@.len() + 4 <= 32767
    &&& exth_fits(b.metadata)
    &&& exth_body(b.metadata, b.start_reading_offset, b.cover_record_index).len() <= 0xFFFF_0000
    &&& 264 + exth_header(b.metadata, b.start_reading_offset, b.cover_record_index).len() + utf8(
        b.metadata.title@,
    ).len() <= 0xFFFF_FFFF
    &&& crate::export::mobi_records::data_start(78, rs.len()) + concat(rs).len() <= 0xFFFF_FFFF
}

fn copy_bytes(v: &Vec<u8>) -> (r: Vec<u8>)
    ensures
        r@ == v@,
{
    let mut r: Vec<u8> = Vec::new();
    push_all(&mut r, v);
    r
}

fn push_records(out: &mut Vec<Vec<u8>>, rs: &Vec<Vec<u8>>)
    ensures
        views(final(out)@) == views(old(out)@) + views(rs@),
{
    let ghost start = views(out@);
    let mut i: usize = 0;
    while i < rs.len()
        invariant
            i <= rs@.len(),
            views(out@) == start + views(rs@).subrange(0, i as int),
        decreases rs@.len() - i,
    {
        let ghost before = out@;
        out.push(copy_bytes(&rs[i]));
        assert(views(out@) =~= views(before).push(rs@[i as int]@));
        i = i + 1;
        assert(views(out@) =~= start + views(rs@).subrange(0, i as int));
    }
    assert(views(rs@).subrange(0, rs@.len() as int) =~= views(rs@));
}

fn total_size(rs: &Vec<Vec<u8>>, base: u64) -> (r: Option<u64>)
    requires
        base <= 0xFFFF_FFFF,
    ensures
        match r {
            Some(t) => t == base + concat(views(rs@)).len() && t <= 0xFFFF_FFFF,
            None => base + concat(views(rs@)).len() > 0xFFFF_FFFF,
        },
{
    let mut acc: u64 = base;
    let mut i: usize = 0;
    while i < rs.len()
        invariant
            i <= rs@.len(),
            acc <= 0xFFFF_FFFF,
            acc == base + concat(views(rs@).subrange(0, i as int)).len(),
        decreases rs@.len() - i,
    {
        proof {
            assert(views(rs@).subrange(0, i + 1).drop_last() =~= views(rs@).subrange(0, i as int));
        }
        let len = rs[i].len();
        if len as u64 > 0xFFFF_FFFF - acc {
            proof {
                lemma_concat_prefix_len(views(rs@), i + 1);
            }
            return None;
        }
        acc = acc + len as u64;
        i = i + 1;
    }
    assert(views(rs@).subrange(0, rs@.len() as int) =~= views(rs@));
    Some(acc)
}

proof fn lemma_concat_prefix_len(rs: Seq<Seq<u8>>, i: int)
    requires
        0 <= i <= rs.len(),
    ensures
        concat(rs.subrange(0, i)).len() <= concat(rs).len(),
    decreases rs.len() - i,
{
    if i < rs.len() {
        lemma_concat_prefix_len(rs, i + 1);
        assert(rs.subrange(0, i + 1).drop_last() =~= rs.subrange(0, i));
    } else {
        assert(rs.subrange(0, i) =~= rs);
    }
}

impl MobiBuilder {
    /// Assemble the MOBI file: PalmDB header, record 0, text records, the
    /// given TOC index records, image records, FLIS, FCIS and end marker.
    ///
    /// `now` is the creation and modification time stamp. `None` when the
    /// book does not fit the PalmDB format (see `file_fits`).
    pub fn to_bytes(&self, now: u32, indx: &Vec<Vec<u8>>, cncx: &Vec<u8>) -> (r: Option<Vec<u8>>)
        ensures
            r is Some == file_fits(*self, views(indx@), cncx@),
            r matches Some(v) ==> v@ == mobi_file(*self, now, views(indx@), cncx@),
    {
        let ghost b = *self;
        if indx.len() > 32767 || self.text_records.len() > 32767 || self.image_records.len() > 32767 {
            return None;
        }
        let n_index = indx.len() + if cncx.len() > 0 { 1 } else { 0 };
        let num = n_index + self.text_records.len() + self.image_records.len() + 4;
        if num > 32767 {
            return None;
        }
        if !crate::export::mobi_records::check_exth_fits(&self.metadata) {
            return None;
        }
        let (body, count) = crate::export::mobi_records::build_exth_body(
            &self.metadata,
            self.start_reading_offset,
            self.cover_record_index,
        );
        if body.len() > 0xFFFF_0000 {
            return None;
        }
        let exth = crate::export::mobi_records::finish_exth(&body, count);
        assert(exth@ == exth_header(self.metadata, self.start_reading_offset, self.cover_record_index));
        let title = self.metadata.title.as_str().as_bytes();
        if exth.len() > 0xFFFF_FFFF || title.len() > 0xFFFF_FFFF || 264 + exth.len() as u64 + title.len() as u64 > 0xFFFF_FFFF {
            return None;
        }
        let codepage_value: u32 = match self.config.encoding {
            MobiEncoding::Utf8 => 65001,
            MobiEncoding::Cp1252 => 1252,
        };
        let lang = language_code(self.metadata.language.as_str());
        let mut rec0 = crate::export::mobi_records::build_mobi_header(
            codepage_value,
            self.text_length,
            self.text_records.len(),
            n_index,
            self.image_records.len(),
            (264 + exth.len()) as u32,
            title.len() as u32,
            lang,
        );
        assert(rec0@ == mobi_header(header_fields(b, n_index as nat)));
        push_all(&mut rec0, &exth);
        push_all(&mut rec0, title);
        let mut records: Vec<Vec<u8>> = Vec::new();
        records.push(rec0);
        assert(views(records@) =~= seq![record0(b, index_count(views(indx@), cncx@))]);
        push_records(&mut records, &self.text_records);
        push_records(&mut records, indx);
        if cncx.len() > 0 {
            let ghost before = records@;
            records.push(copy_bytes(cncx));
            assert(views(records@) =~= views(before) + seq![cncx@]);
        } else {
            assert(views(records@) =~= views(records@) + Seq::<Seq<u8>>::empty());
        }
        push_records(&mut records, &self.image_records);
        let ghost before = records@;
        records.push(crate::export::mobi_records::build_flis_record());
        records.push(crate::export::mobi_records::build_fcis_record());
        records.push(crate::export::mobi_records::build_eof_marker());
        assert(views(records@) =~= views(before) + seq![
            crate::export::mobi_records::flis_record(),
            crate::export::mobi_records::fcis_record(),
            crate::export::mobi_records::eof_record(),
        ]);
        assert(views(records@) == file_records(b, views(indx@), cncx@));
        assert(records@.len() == num);
        let base: u64 = 78 + 8 * (num as u64) + 2;
        match total_size(&records, base) {
            None => {
                return None;
            },
            Some(_) => {},
        }
        let header = crate::export::mobi_records::build_palmdb_header(
            self.metadata.title.as_str(),
            now,
            num as u16,
        );
        proof {
            crate::export::mobi_records::lemma_palmdb_header_len(self.metadata.title@, now, num as u16);
        }
        Some(crate::export::mobi_records::write_pdb(&header, &records))
    }
}

/// The builder and HTML that `MobiExporter::prepare` makes of a book.
pub open spec fn prepared(config: MobiConfig, book: BookContent, b: MobiBuilder, html: Seq<u8>) -> bool {
    let imgs = images_of(book.assets@, book.metadata.cover_image, book.assets@.len());
    let raw = collect(book.chapters@, book.chapters@.len());
    &&& b.metadata == book.metadata
    &&& b.toc == book.toc
    &&& b.config == config
    &&& views(b.image_records@) == imgs.records
    &&& b.image_index.view() == imgs.index
    &&& b.cover_record_index == imgs.cover
    &&& b.chapter_positions.view() == raw.1
    &&& b.start_reading_offset == (match crate::export::mobi_links::pm_min(raw.1, raw.1.len() as int) {
        Some(x) => x,
        None => 0,
    })
    &&& html == resolve_links(strip_cover(update_images(raw.0, imgs.index, imgs.index.len()), imgs.cover), raw.1)
    &&& b.text_records@.len() == record_texts(html).len()
    &&& forall|i: int| 0 <= i < b.text_records@.len() ==>
        palmdoc_decode(#[trigger] b.text_records@[i]@) == Some(record_texts(html)[i])
    &&& b.text_length == html.len() as u32
    &&& string_views(b.warnings@) == image_warnings(book.assets@, book.assets@.len())
}

/// The text records of a prepared book give its HTML back: each one
/// decompresses, holds at most 4096 bytes, and in order they make up the
/// HTML.
pub proof fn lemma_text_records_decode(config: MobiConfig, book: BookContent, b: MobiBuilder, html: Seq<u8>)
    requires
        prepared(config, book, b, html),
    ensures
        forall|i: int| 0 <= i < b.text_records@.len() ==> (#[trigger] palmdoc_decode(b.text_records@[i]@)) is Some
            && palmdoc_decode(b.text_records@[i]@).unwrap().len() <= 4096,
        concat(
            Seq::new(
                b.text_records@.len(),
                |i: int| palmdoc_decode(b.text_records@[i]@).unwrap(),
            ),
        ) == html,
{
    lemma_record_texts(html);
    let decoded = Seq::new(b.text_records@.len(), |i: int| palmdoc_decode(b.text_records@[i]@).unwrap());
    assert(decoded =~= record_texts(html));
}

/// MOBI 6 format exporter.
///
/// Creates MOBI 6 files compatible with older Kindle devices.
pub struct MobiExporter {
    config: MobiConfig,
}

impl MobiExporter {
    /// The exporter's configuration.
    pub closed spec fn config_spec(&self) -> MobiConfig {
        self.config
    }

    /// Create a new exporter with default configuration.
    pub fn new() -> (r: Self)
        ensures
            default_mobi_config(r.config_spec()),
    {
        MobiExporter { config: MobiConfig::default() }
    }

    /// Get the current configuration.
    pub fn config(&self) -> (r: &MobiConfig)
        ensures
            *r == self.config_spec(),
    {
        &self.config
    }

    /// Configure the exporter with custom settings.
    pub fn with_config(self, config: MobiConfig) -> (r: Self)
        ensures
            r.config_spec() == config,
    {
        MobiExporter { config }
    }

    /// Turn a book into a MOBI builder and the body HTML.
    ///
    /// Images become records; the chapters are joined into one HTML flow;
    /// image references, the inline cover and internal links are rewritten;
    /// the text is split into compressed records. Reading starts at the
    /// first chapter.
    pub fn prepare(&self, book: BookContent) -> (r: (MobiBuilder, Vec<u8>))
        requires
            book.assets@.len() < 0xFFFF_FFFF,
        ensures
            prepared(self.config_spec(), book, r.0, r.1@),
    {
        let ghost orig = book;
        let BookContent { metadata, toc, chapters, assets } = book;
        let mut builder = MobiBuilder::new(metadata, toc, self.config);
        assert(views(builder.image_records@) =~= Seq::<Seq<u8>>::empty());
        assert(builder.image_index.view() =~= Seq::<(Seq<char>, u32)>::empty());
        builder.process_images(&assets);
        let (html, positions) = collect_html_content(&chapters);
        if let Some(first) = positions.min_value() {
            builder.start_reading_offset = first;
        }
        let html = update_image_references(&html, &builder.image_index);
        let html = strip_cover_from_body(&html, builder.cover_record_index);
        let html = resolve_internal_links(&html, &positions);
        builder.chapter_positions = positions;
        builder.build_text_records(&html);
        (builder, html)
    }

    /// The TOC entries of a prepared book with their positions in `html`;
    /// `None` when the table of contents has 2^31 entries or more.
    pub fn toc_entries(builder: &MobiBuilder, html: &[u8]) -> (r: Option<Vec<NcxBuildEntry>>)
        ensures
            match r {
                Some(v) => crate::export::mobi_toc::ncx_view(v@) == toc_ncx(
                    builder.toc@,
                    html@,
                    builder.chapter_positions.view(),
                    builder.text_length,
                ),
                None => crate::export::mobi_toc::toc_count(builder.toc@) >= 0x8000_0000,
            },
    {
        let n = crate::export::mobi_toc::count_toc(&builder.toc, 0x8000_0000);
        if n >= 0x8000_0000 {
            return None;
        }
        proof {
            crate::export::mobi_toc::lemma_flat_len(builder.toc@, 0, -1, 0, html@, builder.chapter_positions.view());
        }
        Some(flatten_toc_for_mobi(&builder.toc, html, &builder.chapter_positions, builder.text_length))
    }

    /// Export a book to MOBI bytes, with the warnings collected.
    ///
    /// The file carries no NCX index records. `now` is the time stamp
    /// written into the PalmDB header. `None` when the book does not fit the
    /// PalmDB format.
    pub fn export_with_warnings(&self, book: BookContent, now: u32) -> (r: Option<(Vec<u8>, MobiResult)>)
        requires
            book.assets@.len() < 0xFFFF_FFFF,
        ensures
            match r {
                Some((v, res)) => res.success && string_views(res.warnings@) == image_warnings(
                    book.assets@,
                    book.assets@.len(),
                ) && exists|b: MobiBuilder, h: Seq<u8>|
                    prepared(self.config_spec(), book, b, h) && file_fits(b, Seq::empty(), Seq::empty())
                        && v@ == mobi_file(b, now, Seq::empty(), Seq::empty()),
                None => exists|b: MobiBuilder, h: Seq<u8>|
                    prepared(self.config_spec(), book, b, h) && !file_fits(b, Seq::empty(), Seq::empty()),
            },
    {
        let (builder, html) = self.prepare(book);
        let indx: Vec<Vec<u8>> = Vec::new();
        let cncx: Vec<u8> = Vec::new();
        assert(views(indx@) =~= Seq::<Seq<u8>>::empty());
        match builder.to_bytes(now, &indx, &cncx) {
            Some(v) => Some((v, MobiResult { success: true, warnings: builder.warnings })),
            None => None,
        }
    }
}

impl Default for MobiExporter {
    fn default() -> (r: Self)
        ensures
            default_mobi_config(r.config_spec()),
    {
        Self::new()
    }
}

} // verus!
