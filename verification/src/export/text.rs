//! Markdown export: the exporter's configuration, the file names given to
//! extracted images, the rewriting of image references, and the assembly
//! of rendered chapters into one document.

use vstd::prelude::*;
use crate::export::mobi_links::bytes_eq;
use crate::export::mobi_records::{concat, join};
use crate::text::{
    ascii_bytes, extension, file_name, file_stem, join_path, lit, lowercase, parent,
    path_extension, path_file_name, path_file_stem, path_joined, path_parent, str_bytes,
    string_from_utf8_lossy, to_lowercase, utf8, utf8_lossy,
};
use crate::util::{decimal, decimal_padded, push_all, push_decimal, push_decimal_padded, replace_all, replace_bytes};

verus! {

broadcast use vstd::string::group_string_axioms;

/// Configuration for Markdown export.
#[derive(Debug, Clone, Copy)]
pub struct MarkdownConfig {
    /// Line width for wrapping (0 = no wrapping); reserved for future use.
    pub line_width: usize,
}

impl Default for MarkdownConfig {
    fn default() -> (r: Self)
        ensures
            r.line_width == 0,
    {
        MarkdownConfig { line_width: 0 }
    }
}

/// Exporter for Markdown output.
#[derive(Debug, Clone, Copy)]
pub struct MarkdownExporter {
    config: MarkdownConfig,
}

impl MarkdownExporter {
    /// The exporter's configuration.
    pub closed spec fn settings(&self) -> MarkdownConfig {
        self.config
    }

    /// Create a new MarkdownExporter with default configuration.
    pub fn new() -> (r: Self)
        ensures
            r.settings().line_width == 0,
    {
        MarkdownExporter { config: MarkdownConfig::default() }
    }

    /// Create a MarkdownExporter with the specified configuration.
    pub fn with_config(config: MarkdownConfig) -> (r: Self)
        ensures
            r.settings() == config,
    {
        MarkdownExporter { config }
    }

    /// The exporter's configuration.
    pub fn config(&self) -> (r: MarkdownConfig)
        ensures
            r == self.settings(),
    {
        self.config
    }
}

impl Default for MarkdownExporter {
    fn default() -> (r: Self)
        ensures
            r.settings().line_width == 0,
    {
        MarkdownExporter::new()
    }
}

/// The directory images are extracted to, beside the output file:
/// `<parent>/<stem>_img` (`output` when the file has no stem, `.` when it
/// has no parent).
pub open spec fn img_dir_of(p: Seq<char>) -> Seq<char> {
    let stem = match path_file_stem(p) {
        Some(s) => s,
        None => "output"@,
    };
    let dir = match path_parent(p) {
        Some(d) => d,
        None => "."@,
    };
    path_joined(dir, stem + "_img"@)
}

/// Build the image directory path from the output file path, e.g.
/// `output.md` -> `output_img`.
pub fn build_img_dir_path(output_path: &str) -> (r: String)
    ensures
        r@ == img_dir_of(output_path@),
{
    proof {
        reveal_strlit("_img");
    }
    let stem = match file_stem(output_path) {
        Some(s) => s,
        None => "output".to_owned(),
    };
    let dir = match parent(output_path) {
        Some(d) => d,
        None => ".".to_owned(),
    };
    let mut c = crate::text::str_chars(stem.as_str());
    c.push('_');
    c.push('i');
    c.push('m');
    c.push('g');
    assert(c@ =~= stem@ + "_img"@);
    let name = crate::text::string_from_chars(&c);
    join_path(dir.as_str(), name.as_str())
}

/// A lowercase extension of an image file: jpg, jpeg, png, gif, svg, webp,
/// bmp, tiff or tif.
pub open spec fn is_image_ext(e: Seq<u8>) -> bool {
    ||| e == ascii_bytes("jpg"@)
    ||| e == ascii_bytes("jpeg"@)
    ||| e == ascii_bytes("png"@)
    ||| e == ascii_bytes("gif"@)
    ||| e == ascii_bytes("svg"@)
    ||| e == ascii_bytes("webp"@)
    ||| e == ascii_bytes("bmp"@)
    ||| e == ascii_bytes("tiff"@)
    ||| e == ascii_bytes("tif"@)
}

/// The extension of a path, lowercased (empty when it has none), as bytes.
pub open spec fn lower_ext(p: Seq<char>) -> Seq<u8> {
    utf8(lowercase(match path_extension(p) {
        Some(e) => e,
        None => Seq::empty(),
    }))
}


/// A path counts as an image exactly when its extension, lowercased, is one
/// of jpg, jpeg, png, gif, svg, webp, bmp, tiff and tif.
pub proof fn lemma_image_extensions(path: Seq<char>)
    ensures
        is_image_ext(lower_ext(path)) <==> set![
            ascii_bytes("jpg"@),
            ascii_bytes("jpeg"@),
            ascii_bytes("png"@),
            ascii_bytes("gif"@),
            ascii_bytes("svg"@),
            ascii_bytes("webp"@),
            ascii_bytes("bmp"@),
            ascii_bytes("tiff"@),
            ascii_bytes("tif"@),
        ].contains(lower_ext(path)),
{
}

/// Check if a path looks like an image file, by its extension in any case.
pub fn is_image_path(path: &str) -> (r: bool)
    ensures
        r == is_image_ext(lower_ext(path@)),
{
    let ext = match extension(path) {
        Some(e) => e,
        None => String::new(),
    };
    let lower = to_lowercase(ext.as_str());
    is_image_extension(lower.as_str())
}

/// Whether an already lowercased extension is one of an image file.
pub fn is_image_extension(lower: &str) -> (r: bool)
    ensures
        r == is_image_ext(utf8(lower@)),
{
    proof {
        reveal_strlit("jpg");
        reveal_strlit("jpeg");
        reveal_strlit("png");
        reveal_strlit("gif");
        reveal_strlit("svg");
        reveal_strlit("webp");
        reveal_strlit("bmp");
        reveal_strlit("tiff");
        reveal_strlit("tif");
    }
    let e = str_bytes(lower);
    let e = e.as_slice();
    bytes_eq(e, lit("jpg")) || bytes_eq(e, lit("jpeg")) || bytes_eq(e, lit("png")) || bytes_eq(
        e,
        lit("gif"),
    ) || bytes_eq(e, lit("svg")) || bytes_eq(e, lit("webp")) || bytes_eq(e, lit("bmp"))
        || bytes_eq(e, lit("tiff")) || bytes_eq(e, lit("tif"))
}

/// Position of the first entry at or after `i` stored under `k`.
pub open spec fn kv_index(m: Seq<(Seq<u8>, Seq<u8>)>, k: Seq<u8>, i: int) -> Option<int>
    decreases m.len() - i,
{
    if i < 0 || i >= m.len() {
        None
    } else if m[i].0 == k {
        Some(i)
    } else {
        kv_index(m, k, i + 1)
    }
}

/// The value stored under `k`.
pub open spec fn kv_get(m: Seq<(Seq<u8>, Seq<u8>)>, k: Seq<u8>) -> Option<Seq<u8>> {
    match kv_index(m, k, 0) {
        Some(i) => Some(m[i].1),
        None => None,
    }
}

/// The map after storing `v` under `k`: an entry under `k` takes the new
/// value in its place, else a new entry goes at the end.
pub open spec fn kv_put(m: Seq<(Seq<u8>, Seq<u8>)>, k: Seq<u8>, v: Seq<u8>) -> Seq<(Seq<u8>, Seq<u8>)> {
    match kv_index(m, k, 0) {
        Some(i) => m.update(i, (k, v)),
        None => m.push((k, v)),
    }
}

/// The file name image `i` (with path `p`) is extracted to:
/// `image_<i as 4 digits>.<extension, or bin>`.
pub open spec fn image_name(i: int, p: Seq<char>) -> Seq<u8> {
    ascii_bytes("image_"@) + decimal_padded(i as nat, 4) + ascii_bytes("."@) + utf8(
        match path_extension(p) {
            Some(e) => e,
            None => "bin"@,
        },
    )
}

/// The map from image paths, and from their file names where those differ
/// from the path, to extracted file names, after the first `n` images.
pub open spec fn image_map(paths: Seq<Seq<char>>, n: int) -> Seq<(Seq<u8>, Seq<u8>)>
    decreases n,
{
    if n <= 0 {
        Seq::empty()
    } else {
        let m = image_map(paths, n - 1);
        let p = paths[n - 1];
        let name = image_name(n - 1, p);
        let m1 = kv_put(m, utf8(p), name);
        match path_file_name(p) {
            Some(f) => if f != p {
                kv_put(m1, utf8(f), name)
            } else {
                m1
            },
            None => m1,
        }
    }
}

/// Strings as plain values.
pub open spec fn char_views(v: Seq<String>) -> Seq<Seq<char>> {
    v.map_values(|s: String| s@)
}

/// Key-value byte pairs as plain values.
pub open spec fn kv_views(v: Seq<(Vec<u8>, Vec<u8>)>) -> Seq<(Seq<u8>, Seq<u8>)> {
    v.map_values(|e: (Vec<u8>, Vec<u8>)| (e.0@, e.1@))
}

fn kv_position(m: &Vec<(Vec<u8>, Vec<u8>)>, k: &[u8]) -> (r: Option<usize>)
    ensures
        (match r {
            Some(i) => Some(i as int),
            None => None,
        }) == kv_index(kv_views(m@), k@, 0),
        r matches Some(i) ==> i < m@.len(),
{
    let mut i: usize = 0;
    while i < m.len()
        invariant
            i <= m@.len(),
            kv_index(kv_views(m@), k@, 0) == kv_index(kv_views(m@), k@, i as int),
        decreases m@.len() - i,
    {
        if bytes_eq(m[i].0.as_slice(), k) {
            return Some(i);
        }
        i = i + 1;
    }
    None
}

fn kv_store(m: &mut Vec<(Vec<u8>, Vec<u8>)>, k: Vec<u8>, v: Vec<u8>)
    ensures
        kv_views(final(m)@) == kv_put(kv_views(old(m)@), k@, v@),
{
    let ghost m0 = kv_views(m@);
    let ghost kv = (k@, v@);
    match kv_position(m, k.as_slice()) {
        Some(i) => {
            m.set(i, (k, v));
            assert(kv_views(m@) =~= m0.update(i as int, kv));
        },
        None => {
            m.push((k, v));
            assert(kv_views(m@) =~= m0.push(kv));
        },
    }
}

fn image_file_name(i: usize, p: &str) -> (r: Vec<u8>)
    requires
        i < u64::MAX,
    ensures
        r@ == image_name(i as int, p@),
{
    proof {
        reveal_strlit("image_");
        reveal_strlit(".");
        reveal_strlit("bin");
    }
    let ext = match extension(p) {
        Some(e) => e,
        None => "bin".to_owned(),
    };
    let mut out: Vec<u8> = Vec::new();
    push_all(&mut out, lit("image_"));
    push_decimal_padded(&mut out, i as u64, 4);
    push_all(&mut out, lit("."));
    push_all(&mut out, str_bytes(ext.as_str()).as_slice());
    out
}

/// The extracted file names of the image assets, keyed by path and by file
/// name, as `image_map` describes.
pub fn image_names(paths: &Vec<String>) -> (r: Vec<(Vec<u8>, Vec<u8>)>)
    requires
        paths@.len() < u64::MAX,
    ensures
        kv_views(r@) == image_map(char_views(paths@), paths@.len() as int),
{
    let ghost pv = char_views(paths@);
    let mut m: Vec<(Vec<u8>, Vec<u8>)> = Vec::new();
    let mut i: usize = 0;
    while i < paths.len()
        invariant
            i <= paths@.len(),
            paths@.len() < u64::MAX,
            pv == char_views(paths@),
            kv_views(m@) == image_map(pv, i as int),
        decreases paths@.len() - i,
    {
        let p = paths[i].as_str();
        assert(pv[i as int] == p@);
        let name = image_file_name(i, p);
        kv_store(&mut m, str_bytes(p), name.clone());
        match file_name(p) {
            Some(f) => {
                if !crate::text::str_eq(f.as_str(), p) {
                    kv_store(&mut m, str_bytes(f.as_str()), name);
                }
            },
            None => {},
        }
        i = i + 1;
    }
    m
}

/// A Markdown image reference to `key`: `](key)`.
pub open spec fn image_ref(key: Seq<u8>) -> Seq<u8> {
    ascii_bytes("]("@) + key + ascii_bytes(")"@)
}

/// The reference to an extracted image: `](dir/name)`.
pub open spec fn extracted_ref(dir: Seq<u8>, name: Seq<u8>) -> Seq<u8> {
    ascii_bytes("]("@) + dir + ascii_bytes("/"@) + name + ascii_bytes(")"@)
}

/// The document after rewriting the references to the first `n` map keys,
/// in map order, to their extracted files.
pub open spec fn rewrite_refs(md: Seq<u8>, m: Seq<(Seq<u8>, Seq<u8>)>, dir: Seq<u8>, n: int) -> Seq<u8>
    decreases n,
{
    if n <= 0 {
        md
    } else {
        replace_all(rewrite_refs(md, m, dir, n - 1), image_ref(m[n - 1].0), extracted_ref(dir, m[n - 1].1))
    }
}

/// Rewrite image references `![alt](old)` to `![alt](dir/new)` for every
/// entry of the map, in map order.
pub fn rewrite_image_refs(md: &[u8], map: &Vec<(Vec<u8>, Vec<u8>)>, dir: &[u8]) -> (r: Vec<u8>)
    ensures
        r@ == rewrite_refs(md@, kv_views(map@), dir@, map@.len() as int),
{
    proof {
        reveal_strlit("](");
        reveal_strlit(")");
        reveal_strlit("/");
    }
    let mut out: Vec<u8> = Vec::new();
    push_all(&mut out, md);
    let mut i: usize = 0;
    while i < map.len()
        invariant
            i <= map@.len(),
            out@ == rewrite_refs(md@, kv_views(map@), dir@, i as int),
        decreases map@.len() - i,
    {
        proof {
            reveal_strlit("](");
            reveal_strlit(")");
            reveal_strlit("/");
        }
        let mut old_ref: Vec<u8> = Vec::new();
        push_all(&mut old_ref, lit("]("));
        push_all(&mut old_ref, map[i].0.as_slice());
        push_all(&mut old_ref, lit(")"));
        let mut new_ref: Vec<u8> = Vec::new();
        push_all(&mut new_ref, lit("]("));
        push_all(&mut new_ref, dir);
        push_all(&mut new_ref, lit("/"));
        push_all(&mut new_ref, map[i].1.as_slice());
        push_all(&mut new_ref, lit(")"));
        assert(kv_views(map@)[i as int] == (map@[i as int].0@, map@[i as int].1@));
        out = replace_bytes(out.as_slice(), old_ref.as_slice(), new_ref.as_slice());
        i = i + 1;
    }
    out
}

/// A footnote of a rendered chapter.
#[derive(Debug, Clone)]
pub struct Footnote {
    pub number: u32,
    pub content: String,
}

/// A chapter rendered to Markdown, with its footnotes.
#[derive(Debug, Clone)]
pub struct RenderedChapter {
    pub content: String,
    pub footnotes: Vec<Footnote>,
}

/// A footnote line: `[^<number>]: <content>` and a line feed.
pub open spec fn footnote_line(n: Footnote) -> Seq<u8> {
    ascii_bytes("[^"@) + decimal(n.number as nat) + ascii_bytes("]: "@) + utf8(n.content@)
        + ascii_bytes("\n"@)
}

/// A rendered chapter in the document: its content, then, when it has
/// footnotes, a line feed and one line per footnote.
pub open spec fn chapter_markdown(c: RenderedChapter) -> Seq<u8> {
    utf8(c.content@) + if c.footnotes@.len() == 0 {
        Seq::empty()
    } else {
        ascii_bytes("\n"@) + concat(c.footnotes@.map_values(|n: Footnote| footnote_line(n)))
    }
}

/// The separator between chapters: a line feed, `---`, a blank line.
pub open spec fn chapter_separator() -> Seq<u8> {
    ascii_bytes("\n---\n\n"@)
}

/// The Markdown document of rendered chapters, separated by
/// `chapter_separator`.
pub open spec fn markdown_document(cs: Seq<RenderedChapter>) -> Seq<u8> {
    join(cs.map_values(|c: RenderedChapter| chapter_markdown(c)), chapter_separator())
}

fn push_chapter(out: &mut Vec<u8>, c: &RenderedChapter)
    ensures
        final(out)@ == old(out)@ + chapter_markdown(*c),
{
    proof {
        reveal_strlit("\n");
        reveal_strlit("[^");
        reveal_strlit("]: ");
    }
    let ghost start = old(out)@;
    push_all(out, str_bytes(c.content.as_str()).as_slice());
    if c.footnotes.len() == 0 {
        assert(out@ =~= start + chapter_markdown(*c));
        return;
    }
    push_all(out, lit("\n"));
    let ghost mid = out@;
    let ghost lines = c.footnotes@.map_values(|n: Footnote| footnote_line(n));
    let mut i: usize = 0;
    while i < c.footnotes.len()
        invariant
            i <= c.footnotes@.len(),
            lines == c.footnotes@.map_values(|n: Footnote| footnote_line(n)),
            out@ == mid + concat(lines.take(i as int)),
        decreases c.footnotes@.len() - i,
    {
        proof {
            reveal_strlit("\n");
            reveal_strlit("[^");
            reveal_strlit("]: ");
        }
        let n = &c.footnotes[i];
        let ghost before = out@;
        push_all(out, lit("[^"));
        push_decimal(out, n.number as u64);
        push_all(out, lit("]: "));
        push_all(out, str_bytes(n.content.as_str()).as_slice());
        push_all(out, lit("\n"));
        assert(lines.take(i + 1).drop_last() =~= lines.take(i as int));
        assert(out@ =~= before + footnote_line(*n));
        i = i + 1;
    }
    assert(lines.take(i as int) =~= lines);
    assert(out@ =~= start + chapter_markdown(*c));
}

/// The Markdown document of rendered chapters: each chapter's content and
/// footnote lines, chapters separated by a line feed, `---` and a blank
/// line.
pub fn assemble_markdown(chapters: &Vec<RenderedChapter>) -> (r: Vec<u8>)
    ensures
        r@ == markdown_document(chapters@),
{
    proof {
        reveal_strlit("\n---\n\n");
    }
    let ghost parts = chapters@.map_values(|c: RenderedChapter| chapter_markdown(c));
    let mut out: Vec<u8> = Vec::new();
    let mut i: usize = 0;
    while i < chapters.len()
        invariant
            i <= chapters@.len(),
            parts == chapters@.map_values(|c: RenderedChapter| chapter_markdown(c)),
            out@ == join(parts.take(i as int), chapter_separator()),
        decreases chapters@.len() - i,
    {
        proof {
            reveal_strlit("\n---\n\n");
        }
        let ghost before = out@;
        if i > 0 {
            push_all(&mut out, lit("\n---\n\n"));
        }
        push_chapter(&mut out, &chapters[i]);
        assert(parts.take(i + 1).drop_last() =~= parts.take(i as int));
        if i == 0 {
            assert(out@ =~= join(parts.take(1), chapter_separator()));
        }
        i = i + 1;
    }
    assert(parts.take(i as int) =~= parts);
    out
}

/// What a Markdown export writes: the document, the image directory, and
/// each image asset to extract with the file name it gets there.
pub struct MarkdownExport {
    pub markdown: String,
    pub img_dir: String,
    pub images: Vec<(String, Vec<u8>)>,
}

/// The name of the image directory as it appears in references: its file
/// name, or `images` when it has none.
pub open spec fn img_dir_name(dir: Seq<char>) -> Seq<u8> {
    utf8(match path_file_name(dir) {
        Some(n) => n,
        None => "images"@,
    })
}

/// The images to extract: each image asset with the name the map holds for
/// its path.
pub open spec fn extracted_images(paths: Seq<Seq<char>>, m: Seq<(Seq<u8>, Seq<u8>)>) -> Seq<(Seq<char>, Option<Seq<u8>>)> {
    paths.map_values(|p: Seq<char>| (p, kv_get(m, utf8(p))))
}

/// Everything of a Markdown export to `output_path` but the I/O: the
/// document of the rendered chapters with its image references rewritten
/// into the image directory, the directory, and the image assets (those of
/// `assets` with an image extension) with their extracted names. An image
/// whose path has no entry in the map is left out.
pub fn prepare_markdown_export(chapters: &Vec<RenderedChapter>, assets: &Vec<String>, output_path: &str) -> (r: MarkdownExport)
    requires
        assets@.len() < u64::MAX,
    ensures
        ({
            let images = assets@.filter(|a: String| is_image_ext(lower_ext(a@)));
            let m = image_map(char_views(images), images.len() as int);
            let dir = img_dir_of(output_path@);
            &&& r.img_dir@ == dir
            &&& r.markdown@ == utf8_lossy(
                rewrite_refs(markdown_document(chapters@), m, img_dir_name(dir), m.len() as int),
            )
            &&& vstd::utf8::valid_utf8(
                rewrite_refs(markdown_document(chapters@), m, img_dir_name(dir), m.len() as int),
            ) ==> r.markdown@ == vstd::utf8::decode_utf8(
                rewrite_refs(markdown_document(chapters@), m, img_dir_name(dir), m.len() as int),
            )
            &&& r.images@.map_values(|e: (String, Vec<u8>)| (e.0@, Some(e.1@))) == extracted_images(
                char_views(images),
                m,
            ).filter(|e: (Seq<char>, Option<Seq<u8>>)| e.1 is Some)
        }),
{
    let ghost images_spec = assets@.filter(|a: String| is_image_ext(lower_ext(a@)));
    let mut images: Vec<String> = Vec::new();
    let mut i: usize = 0;
    while i < assets.len()
        invariant
            i <= assets@.len(),
            images@ == assets@.take(i as int).filter(|a: String| is_image_ext(lower_ext(a@))),
            images@.len() <= i,
        decreases assets@.len() - i,
    {
        let ghost prev = images@;
        let keep = is_image_path(assets[i].as_str());
        if keep {
            images.push(assets[i].clone());
        }
        proof {
            let pred = |a: String| is_image_ext(lower_ext(a@));
            let t = assets@.take(i + 1);
            assert(t.drop_last() =~= assets@.take(i as int));
            assert(t.last() == assets@[i as int]);
            reveal(Seq::filter);
            assert(t.filter(pred) == if pred(t.last()) {
                t.drop_last().filter(pred).push(t.last())
            } else {
                t.drop_last().filter(pred)
            });
            assert(images@ =~= t.filter(pred));
        }
        i = i + 1;
    }
    assert(assets@.take(i as int) =~= assets@);
    let map = image_names(&images);
    let img_dir = build_img_dir_path(output_path);
    let dir_name = match file_name(img_dir.as_str()) {
        Some(n) => n,
        None => "images".to_owned(),
    };
    let doc = assemble_markdown(chapters);
    let rewritten = rewrite_image_refs(doc.as_slice(), &map, str_bytes(dir_name.as_str()).as_slice());
    let markdown = string_from_utf8_lossy(rewritten.as_slice());
    let mut files: Vec<(String, Vec<u8>)> = Vec::new();
    let ghost m = kv_views(map@);
    let ghost ev = extracted_images(char_views(images@), m);
    let mut j: usize = 0;
    while j < images.len()
        invariant
            j <= images@.len(),
            m == kv_views(map@),
            ev == extracted_images(char_views(images@), m),
            files@.map_values(|e: (String, Vec<u8>)| (e.0@, Some(e.1@))) == ev.take(j as int).filter(
                |e: (Seq<char>, Option<Seq<u8>>)| e.1 is Some,
            ),
        decreases images@.len() - j,
    {
        proof {
            reveal(Seq::filter);
            assert(ev.take(j + 1).drop_last() =~= ev.take(j as int));
        }
        let key = str_bytes(images[j].as_str());
        match kv_position(&map, key.as_slice()) {
            Some(k) => {
                files.push((images[j].clone(), map[k].1.clone()));
            },
            None => {},
        }
        j = j + 1;
        assert(files@.map_values(|e: (String, Vec<u8>)| (e.0@, Some(e.1@))) =~= ev.take(j as int).filter(
            |e: (Seq<char>, Option<Seq<u8>>)| e.1 is Some,
        ));
    }
    assert(ev.take(j as int) =~= ev);
    MarkdownExport { markdown, img_dir, images: files }
}

} // verus!
