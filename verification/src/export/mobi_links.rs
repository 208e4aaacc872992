//! Combining chapter HTML into one MOBI text flow, and rewriting the HTML
//! for MOBI: image `src` to record indices, links to byte positions, and
//! dropping the inline cover image.

use vstd::prelude::*;
use crate::model::ChapterId;
use crate::text::{ascii_bytes, lit, utf8, utf8_lossy, path_file_name};
use crate::util::{
    bytes_match_at, contains, contains_bytes, decimal, decimal_padded, find_bytes, find_from,
    lemma_find_from, lemma_find_from_unique, match_at, push_all, starts_with, push_decimal, push_decimal_padded, push_range, replace_all,
    replace_bytes,
};

verus! {

broadcast use vstd::string::group_string_axioms;

/// Byte-string keys with `u32` values, in insertion order; a key that is
/// inserted again keeps its place and takes the new value.
pub struct PositionMap {
    pub entries: Vec<(Vec<u8>, u32)>,
}

/// The keys and values of a position map.
pub open spec fn pm_view(v: Seq<(Vec<u8>, u32)>) -> Seq<(Seq<u8>, u32)> {
    v.map_values(|e: (Vec<u8>, u32)| (e.0@, e.1))
}

/// Index of the first entry with key `k`.
pub open spec fn pm_index<K>(m: Seq<(K, u32)>, k: K) -> Option<int>
    decreases m.len(),
{
    if m.len() == 0 {
        None
    } else {
        match pm_index(m.drop_last(), k) {
            Some(i) => Some(i),
            None => if m.last().0 == k {
                Some(m.len() - 1)
            } else {
                None
            },
        }
    }
}

/// The value stored under `k`.
pub open spec fn pm_get<K>(m: Seq<(K, u32)>, k: K) -> Option<u32> {
    match pm_index(m, k) {
        Some(i) => Some(m[i].1),
        None => None,
    }
}

/// The map after storing `v` under `k`.
pub open spec fn pm_insert<K>(m: Seq<(K, u32)>, k: K, v: u32) -> Seq<(K, u32)> {
    match pm_index(m, k) {
        Some(i) => m.update(i, (k, v)),
        None => m.push((k, v)),
    }
}

proof fn lemma_pm_index<K>(m: Seq<(K, u32)>, k: K)
    ensures
        match pm_index(m, k) {
            Some(i) => 0 <= i < m.len() && m[i].0 == k && forall|j: int| 0 <= j < i ==> m[j].0 != k,
            None => forall|j: int| 0 <= j < m.len() ==> m[j].0 != k,
        },
    decreases m.len(),
{
    if m.len() > 0 {
        let d = m.drop_last();
        lemma_pm_index(d, k);
        assert forall|j: int| 0 <= j < d.len() implies d[j] == m[j] by {}
    }
}

proof fn lemma_pm_index_unique<K>(m: Seq<(K, u32)>, k: K, i: int)
    requires
        0 <= i < m.len(),
        m[i].0 == k,
        forall|j: int| 0 <= j < i ==> m[j].0 != k,
    ensures
        pm_index(m, k) == Some(i),
    decreases m.len(),
{
    if i < m.len() - 1 {
        lemma_pm_index_unique(m.drop_last(), k, i);
    } else {
        lemma_pm_index(m.drop_last(), k);
    }
}

proof fn lemma_pm_index_none<K>(m: Seq<(K, u32)>, k: K)
    requires
        forall|j: int| 0 <= j < m.len() ==> m[j].0 != k,
    ensures
        pm_index(m, k) is None,
    decreases m.len(),
{
    if m.len() > 0 {
        lemma_pm_index_none(m.drop_last(), k);
    }
}

/// Whether two byte strings are equal.
pub fn bytes_eq(a: &[u8], b: &[u8]) -> (r: bool)
    ensures
        r == (a@ == b@),
{
    if a.len() != b.len() {
        return false;
    }
    let r = bytes_match_at(a, b, 0);
    proof {
        if r {
            assert(a@.subrange(0, b@.len() as int) =~= a@);
        } else {
            if a@ == b@ {
                assert(a@.subrange(0, b@.len() as int) =~= a@);
            }
        }
    }
    r
}

/// The smallest of the first `k` values.
pub open spec fn pm_min(m: Seq<(Seq<u8>, u32)>, k: int) -> Option<u32>
    decreases k,
{
    if k <= 0 {
        None
    } else {
        let v = m[k - 1].1;
        match pm_min(m, k - 1) {
            Some(x) => Some(if v < x { v } else { x }),
            None => Some(v),
        }
    }
}

impl PositionMap {
    /// The keys and values, in order.
    pub open spec fn view(&self) -> Seq<(Seq<u8>, u32)> {
        pm_view(self.entries@)
    }

    /// An empty map.
    pub fn new() -> (r: Self)
        ensures
            r.view() == Seq::<(Seq<u8>, u32)>::empty(),
    {
        let r = PositionMap { entries: Vec::new() };
        assert(r.view() =~= Seq::<(Seq<u8>, u32)>::empty());
        r
    }

    fn find(&self, k: &[u8]) -> (r: Option<usize>)
        ensures
            match r {
                Some(i) => pm_index(self.view(), k@) == Some(i as int) && i < self.entries@.len(),
                None => pm_index(self.view(), k@) is None,
            },
    {
        let mut i: usize = 0;
        while i < self.entries.len()
            invariant
                i <= self.entries@.len(),
                forall|j: int| 0 <= j < i ==> self.view()[j].0 != k@,
            decreases self.entries@.len() - i,
        {
            if bytes_eq(&self.entries[i].0, k) {
                proof {
                    lemma_pm_index_unique(self.view(), k@, i as int);
                }
                return Some(i);
            }
            i = i + 1;
        }
        proof {
            lemma_pm_index_none(self.view(), k@);
        }
        None
    }

    /// The value stored under `k`.
    pub fn get(&self, k: &[u8]) -> (r: Option<u32>)
        ensures
            r == pm_get(self.view(), k@),
    {
        match self.find(k) {
            Some(i) => Some(self.entries[i].1),
            None => None,
        }
    }

    /// Store `v` under `k`.
    pub fn insert(&mut self, k: Vec<u8>, v: u32)
        ensures
            final(self).view() == pm_insert(old(self).view(), k@, v),
    {
        match self.find(&k) {
            Some(i) => {
                let ghost kv = k@;
                proof {
                    lemma_pm_index(old(self).view(), kv);
                }
                self.entries.set(i, (k, v));
                assert(self.view() =~= old(self).view().update(i as int, (kv, v)));
            },
            None => {
                let ghost kv = k@;
                self.entries.push((k, v));
                assert(self.view() =~= old(self).view().push((kv, v)));
            },
        }
    }

    /// The smallest value, if any.
    pub fn min_value(&self) -> (r: Option<u32>)
        ensures
            r == pm_min(self.view(), self.view().len() as int),
    {
        let mut best: Option<u32> = None;
        let mut i: usize = 0;
        while i < self.entries.len()
            invariant
                i <= self.entries@.len(),
                best == pm_min(self.view(), i as int),
            decreases self.entries@.len() - i,
        {
            let v = self.entries[i].1;
            best = match best {
                Some(x) => Some(if v < x { v } else { x }),
                None => Some(v),
            };
            i = i + 1;
        }
        best
    }
}

/// The key a chapter's position is stored under: `ChapterId(<n>)`.
pub open spec fn chapter_key(id: ChapterId) -> Seq<u8> {
    ascii_bytes("ChapterId("@) + decimal(id.0 as nat) + ascii_bytes(")"@)
}

/// Build the key `ChapterId(<n>)`.
pub fn make_chapter_key(id: ChapterId) -> (r: Vec<u8>)
    ensures
        r@ == chapter_key(id),
{
    proof {
        reveal_strlit("ChapterId(");
        reveal_strlit(")");
    }
    let mut k: Vec<u8> = Vec::new();
    push_all(&mut k, lit("ChapterId("));
    push_decimal(&mut k, id.0 as u64);
    push_all(&mut k, lit(")"));
    k
}

/// A chapter of the reading order as the exporter reads it: its id, the
/// path it came from (if known), and its raw bytes (`None` when loading it
/// failed).
pub struct ChapterSource {
    pub id: ChapterId,
    pub source_path: Option<String>,
    pub data: Option<Vec<u8>>,
}

/// The page break marker between chapters.
pub open spec fn pagebreak() -> Seq<u8> {
    ascii_bytes("<mbp:pagebreak/>"@)
}

/// The anchor placed at a chapter start: `<a id="filepos<pos>" />`.
pub open spec fn filepos_anchor(pos: u32) -> Seq<u8> {
    ascii_bytes("<a id=\"filepos"@) + decimal(pos as nat) + ascii_bytes("\" />"@)
}

/// The part of a path after its first `/`, when it has one.
pub open spec fn after_first_slash(p: Seq<u8>) -> Option<Seq<u8>> {
    match find_from(p, ascii_bytes("/"@), 0) {
        Some(i) => Some(p.subrange(i + 1, p.len() as int)),
        None => None,
    }
}

/// The keys a chapter's position is stored under besides its id: its source
/// path, the file name of that path, and the path without its first
/// directory.
pub open spec fn path_keys(m: Seq<(Seq<u8>, u32)>, sp: Seq<char>, pos: u32) -> Seq<(Seq<u8>, u32)> {
    let m1 = pm_insert(m, utf8(sp), pos);
    let m2 = match path_file_name(sp) {
        Some(f) => pm_insert(m1, utf8(f), pos),
        None => m1,
    };
    match after_first_slash(utf8(sp)) {
        Some(r) => pm_insert(m2, r, pos),
        None => m2,
    }
}

/// HTML and positions after adding the chapter at spine index `i`.
pub open spec fn collect_step(acc: (Seq<u8>, Seq<(Seq<u8>, u32)>), i: int, ch: ChapterSource) -> (
    Seq<u8>,
    Seq<(Seq<u8>, u32)>,
) {
    match ch.data {
        None => acc,
        Some(d) => {
            let h1 = if i > 0 {
                acc.0 + pagebreak()
            } else {
                acc.0
            };
            let pos = h1.len() as u32;
            let m1 = pm_insert(acc.1, chapter_key(ch.id), pos);
            let m2 = match ch.source_path {
                Some(sp) => path_keys(m1, sp@, pos),
                None => m1,
            };
            (h1 + filepos_anchor(pos) + utf8(utf8_lossy(d@)), m2)
        },
    }
}

/// The combined HTML of the first `n` chapters and the positions recorded
/// for them.
pub open spec fn collect(chs: Seq<ChapterSource>, n: nat) -> (Seq<u8>, Seq<(Seq<u8>, u32)>)
    decreases n,
{
    if n == 0 {
        (Seq::empty(), Seq::empty())
    } else {
        collect_step(collect(chs, (n - 1) as nat), n - 1, chs[n - 1])
    }
}

/// Join the loaded chapters into one HTML flow.
///
/// Chapters after the first are preceded by `<mbp:pagebreak/>`; each loaded
/// chapter starts with a `filepos` anchor at its byte position, and that
/// position is recorded under `ChapterId(<n>)`, the chapter's source path,
/// the path's file name, and the path without its first directory. A
/// chapter whose bytes could not be loaded is skipped.
pub fn collect_html_content(chapters: &Vec<ChapterSource>) -> (r: (Vec<u8>, PositionMap))
    ensures
        (r.0@, r.1.view()) == collect(chapters@, chapters@.len()),
{
    proof {
        reveal_strlit("<mbp:pagebreak/>");
        reveal_strlit("<a id=\"filepos");
        reveal_strlit("\" />");
    }
    let mut html: Vec<u8> = Vec::new();
    let mut positions = PositionMap::new();
    let mut i: usize = 0;
    while i < chapters.len()
        invariant
            i <= chapters@.len(),
            (html@, positions.view()) == collect(chapters@, i as nat),
        decreases chapters@.len() - i,
    {
        proof {
            reveal_strlit("<mbp:pagebreak/>");
            reveal_strlit("<a id=\"filepos");
            reveal_strlit("\" />");
        }
        let ch = &chapters[i];
        match &ch.data {
            None => {},
            Some(d) => {
                let text = crate::text::string_from_utf8_lossy(d);
                if i > 0 {
                    push_all(&mut html, lit("<mbp:pagebreak/>"));
                }
                let pos = #[verifier::truncate] (html.len() as u32);
                push_all(&mut html, lit("<a id=\"filepos"));
                push_decimal(&mut html, pos as u64);
                push_all(&mut html, lit("\" />"));
                positions.insert(make_chapter_key(ch.id), pos);
                match &ch.source_path {
                    Some(sp) => {
                        let ghost m1 = positions.view();
                        positions.insert(crate::text::str_bytes(sp.as_str()), pos);
                        match crate::text::file_name(sp.as_str()) {
                            Some(f) => positions.insert(crate::text::str_bytes(f.as_str()), pos),
                            None => {},
                        }
                        let spb = sp.as_str().as_bytes();
                        proof {
                            reveal_strlit("/");
                        }
                        let slash = lit("/");
                        proof {
                            lemma_find_from(spb@, slash@, 0);
                        }
                        match find_bytes(spb, slash, 0) {
                            Some(j) => {
                                assert(slash@.len() == 1);
                                assert(crate::util::match_at(spb@, slash@, j as int));
                                let n = spb.len();
                                assert(j + 1 <= n);
                                let mut rest: Vec<u8> = Vec::new();
                                push_range(&mut rest, spb, j + 1, n);
                                positions.insert(rest, pos);
                            },
                            None => {},
                        }
                        assert(positions.view() == path_keys(m1, sp@, pos));
                    },
                    None => {},
                }
                push_all(&mut html, text.as_str().as_bytes());
            },
        }
        assert(chapters@.subrange(0, i + 1).drop_last() =~= chapters@.subrange(0, i as int));
        i = i + 1;
    }
    (html, positions)
}

/// Image paths with the 1-based index of the image record that holds them,
/// in insertion order; a path stored again keeps its place and takes the new
/// index.
pub struct ImageIndex {
    pub entries: Vec<(String, u32)>,
}

/// The paths and record indices of an image index.
pub open spec fn ii_view(v: Seq<(String, u32)>) -> Seq<(Seq<char>, u32)> {
    v.map_values(|e: (String, u32)| (e.0@, e.1))
}

impl ImageIndex {
    /// The paths and record indices, in order.
    pub open spec fn view(&self) -> Seq<(Seq<char>, u32)> {
        ii_view(self.entries@)
    }

    /// An empty index.
    pub fn new() -> (r: Self)
        ensures
            r.view() == Seq::<(Seq<char>, u32)>::empty(),
    {
        let r = ImageIndex { entries: Vec::new() };
        assert(r.view() =~= Seq::<(Seq<char>, u32)>::empty());
        r
    }

    /// Store record index `v` for path `k`.
    pub fn insert(&mut self, k: String, v: u32)
        ensures
            final(self).view() == pm_insert(old(self).view(), k@, v),
    {
        let mut i: usize = 0;
        while i < self.entries.len()
            invariant
                i <= self.entries@.len(),
                self.entries@ == old(self).entries@,
                forall|j: int| 0 <= j < i ==> self.view()[j].0 != k@,
            decreases self.entries@.len() - i,
        {
            if self.entries[i].0 == k {
                proof {
                    lemma_pm_index_unique(self.view(), k@, i as int);
                }
                let ghost kv = k@;
                self.entries.set(i, (k, v));
                assert(self.view() =~= old(self).view().update(i as int, (kv, v)));
                return;
            }
            i = i + 1;
        }
        proof {
            lemma_pm_index_none(self.view(), k@);
        }
        let ghost kv = k@;
        self.entries.push((k, v));
        assert(self.view() =~= old(self).view().push((kv, v)));
    }
}

/// The file name of an image path, or the path itself when it has none.
pub open spec fn image_file_name(p: Seq<char>) -> Seq<char> {
    match path_file_name(p) {
        Some(f) => f,
        None => p,
    }
}

/// The attribute forms an image reference may take: `src="path"`,
/// `src='path'`, and the same with the path's file name.
pub open spec fn src_patterns(p: Seq<char>) -> Seq<Seq<u8>> {
    seq![
        ascii_bytes("src=\""@) + utf8(p) + ascii_bytes("\""@),
        ascii_bytes("src='"@) + utf8(p) + ascii_bytes("'"@),
        ascii_bytes("src=\""@) + utf8(image_file_name(p)) + ascii_bytes("\""@),
        ascii_bytes("src='"@) + utf8(image_file_name(p)) + ascii_bytes("'"@),
    ]
}

/// `recindex="NNNNN"`: the 1-based record index, five digits, zero-padded.
pub open spec fn recindex_attr(idx: u32) -> Seq<u8> {
    ascii_bytes("recindex=\""@) + decimal_padded(idx as nat, 5) + ascii_bytes("\""@)
}

/// The first of `pats`, from the `k`-th on, that occurs in `html`.
pub open spec fn first_present(html: Seq<u8>, pats: Seq<Seq<u8>>, k: int) -> Option<Seq<u8>>
    decreases pats.len() - k,
{
    if k < 0 || k >= pats.len() {
        None
    } else if contains(html, pats[k]) {
        Some(pats[k])
    } else {
        first_present(html, pats, k + 1)
    }
}

/// `html` with the first present form of the reference to image `p`
/// replaced everywhere by `recindex="NNNNN"`.
pub open spec fn update_one(html: Seq<u8>, p: Seq<char>, idx: u32) -> Seq<u8> {
    match first_present(html, src_patterns(p), 0) {
        Some(pat) => replace_all(html, pat, recindex_attr(idx)),
        None => html,
    }
}

/// `html` after rewriting the references of the first `n` images.
pub open spec fn update_images(html: Seq<u8>, m: Seq<(Seq<char>, u32)>, n: nat) -> Seq<u8>
    decreases n,
{
    if n == 0 {
        html
    } else {
        update_one(update_images(html, m, (n - 1) as nat), m[n - 1].0, m[n - 1].1)
    }
}

fn push_recindex(out: &mut Vec<u8>, idx: u32)
    ensures
        final(out)@ == old(out)@ + recindex_attr(idx),
{
    proof {
        reveal_strlit("recindex=\"");
        reveal_strlit("\"");
    }
    push_all(out, lit("recindex=\""));
    push_decimal_padded(out, idx as u64, 5);
    push_all(out, lit("\""));
}

fn quoted_src(path: &[u8], double: bool) -> (r: Vec<u8>)
    ensures
        r@ == (if double {
            ascii_bytes("src=\""@) + path@ + ascii_bytes("\""@)
        } else {
            ascii_bytes("src='"@) + path@ + ascii_bytes("'"@)
        }),
        r@.len() > 0,
{
    proof {
        reveal_strlit("src=\"");
        reveal_strlit("\"");
        reveal_strlit("src='");
        reveal_strlit("'");
    }
    let mut r: Vec<u8> = Vec::new();
    if double {
        push_all(&mut r, lit("src=\""));
        push_all(&mut r, path);
        push_all(&mut r, lit("\""));
    } else {
        push_all(&mut r, lit("src='"));
        push_all(&mut r, path);
        push_all(&mut r, lit("'"));
    }
    r
}

/// Replace image `src` attributes with MOBI `recindex` references.
///
/// For each stored image, in order, the first of `src="path"`, `src='path'`,
/// `src="name"`, `src='name'` (name being the path's file name) that occurs
/// in the HTML is replaced everywhere by `recindex="NNNNN"`.
pub fn update_image_references(html: &[u8], images: &ImageIndex) -> (r: Vec<u8>)
    ensures
        r@ == update_images(html@, images.view(), images.view().len()),
{
    let mut result: Vec<u8> = Vec::new();
    push_all(&mut result, html);
    let mut i: usize = 0;
    while i < images.entries.len()
        invariant
            i <= images.entries@.len(),
            result@ == update_images(html@, images.view(), i as nat),
        decreases images.entries@.len() - i,
    {
        let path = &images.entries[i].0;
        let idx = images.entries[i].1;
        let name = match crate::text::file_name(path.as_str()) {
            Some(f) => f,
            None => path.clone(),
        };
        assert(name@ == image_file_name(path@));
        let pb = path.as_str().as_bytes();
        let nb = name.as_str().as_bytes();
        let pats: [Vec<u8>; 4] = [quoted_src(pb, true), quoted_src(pb, false), quoted_src(nb, true), quoted_src(nb, false)];
        let ghost spats = src_patterns(path@);
        assert(spats[0] == pats[0]@ && spats[1] == pats[1]@ && spats[2] == pats[2]@ && spats[3] == pats[3]@);
        let mut rep: Vec<u8> = Vec::new();
        push_recindex(&mut rep, idx);
        let mut k: usize = 0;
        let mut done = false;
        while k < 4 && !done
            invariant
                k <= 4,
                spats == src_patterns(path@),
                spats.len() == 4,
                forall|j: int| 0 <= j < 4 ==> spats[j] == #[trigger] pats@[j]@ && pats@[j]@.len() > 0,
                rep@ == recindex_attr(idx),
                done ==> result@ == update_one(update_images(html@, images.view(), i as nat), path@, idx),
                !done ==> result@ == update_images(html@, images.view(), i as nat)
                    && first_present(result@, spats, 0) == first_present(result@, spats, k as int),
            decreases 4 - k, (if done { 0int } else { 1int }),
        {
            if contains_bytes(&result, &pats[k]) {
                let ghost before = result@;
                assert(pats@[k as int]@ == spats[k as int]);
                result = replace_bytes(&result, &pats[k], &rep);
                assert(first_present(before, spats, k as int) == Some(spats[k as int]));
                assert(result@ == replace_all(before, spats[k as int], recindex_attr(idx)));
                done = true;
            } else {
                k = k + 1;
            }
        }
        proof {
            if !done {
                assert(first_present(result@, spats, 4) is None);
            }
        }
        i = i + 1;
    }
    result
}

/// `html` from `from` on without the `<img ...>` tags that contain `needle`.
pub open spec fn strip_imgs(html: Seq<u8>, needle: Seq<u8>, from: int) -> Seq<u8>
    decreases html.len() - from,
    when 0 <= from <= html.len()
{
    match find_from(html, ascii_bytes("<img"@), from) {
        None => html.subrange(from, html.len() as int),
        Some(s) => match find_from(html, ascii_bytes(">"@), s) {
            None => html.subrange(from, html.len() as int),
            Some(g) => {
                proof {
                    reveal_strlit(">");
                    reveal_strlit("<img");
                    lemma_find_from(html, ascii_bytes("<img"@), from);
                    lemma_find_from(html, ascii_bytes(">"@), s);
                }
                if contains(html.subrange(s, g + 1), needle) {
                    html.subrange(from, s) + strip_imgs(html, needle, g + 1)
                } else {
                    html.subrange(from, g + 1) + strip_imgs(html, needle, g + 1)
                }
            },
        },
    }
}

/// The body HTML without inline copies of the cover image.
pub open spec fn strip_cover(html: Seq<u8>, cover: Option<u32>) -> Seq<u8> {
    match cover {
        None => html,
        Some(c) => strip_imgs(html, recindex_attr(c), 0),
    }
}

/// Remove the `<img>` tags that show the cover record from the body.
///
/// MOBI readers show the cover from its dedicated record; an inline copy in
/// the text would appear twice. Each `<img ...>` tag (up to its first `>`)
/// that contains `recindex="NNNNN"` of the cover is dropped; a final `<img`
/// without `>` is kept with all that follows.
pub fn strip_cover_from_body(html: &[u8], cover: Option<u32>) -> (r: Vec<u8>)
    ensures
        r@ == strip_cover(html@, cover),
{
    if cover.is_none() {
        let mut out: Vec<u8> = Vec::new();
        push_all(&mut out, html);
        return out;
    }
    let c = cover.unwrap();
    proof {
        reveal_strlit("<img");
        reveal_strlit(">");
    }
    let mut needle: Vec<u8> = Vec::new();
    push_recindex(&mut needle, c);
    let img = lit("<img");
    let gt = lit(">");
    let mut out: Vec<u8> = Vec::new();
    let mut from: usize = 0;
    loop
        invariant
            from <= html@.len(),
            cover == Some(c),
            img@ == ascii_bytes("<img"@),
            gt@ == ascii_bytes(">"@),
            needle@ == recindex_attr(c),
            out@ + strip_imgs(html@, needle@, from as int) == strip_imgs(html@, needle@, 0),
        decreases html@.len() - from,
    {
        proof {
            reveal_strlit("<img");
            reveal_strlit(">");
            lemma_find_from(html@, img@, from as int);
        }
        let n = html.len();
        match find_bytes(html, img, from) {
            None => {
                assert(strip_imgs(html@, needle@, from as int) == html@.subrange(from as int, html@.len() as int));
                push_range(&mut out, html, from, html.len());
                return out;
            },
            Some(s) => {
                proof {
                    lemma_find_from(html@, gt@, s as int);
                }
                match find_bytes(html, gt, s) {
                    None => {
                        assert(strip_imgs(html@, needle@, from as int) == html@.subrange(from as int, html@.len() as int));
                        push_range(&mut out, html, from, html.len());
                        return out;
                    },
                    Some(g) => {
                        assert(gt@.len() == 1);
                        assert(crate::util::match_at(html@, gt@, g as int));
                        assert(g + 1 <= n);
                        let mut tag: Vec<u8> = Vec::new();
                        push_range(&mut tag, html, s, g + 1);
                        let ghost before = out@;
                        if contains_bytes(&tag, &needle) {
                            push_range(&mut out, html, from, s);
                        } else {
                            push_range(&mut out, html, from, g + 1);
                        }
                        assert(out@ + strip_imgs(html@, needle@, (g + 1) as int) =~= before
                            + strip_imgs(html@, needle@, from as int));
                        from = g + 1;
                    },
                }
            },
        }
    }
}

/// `href="k"`.
pub open spec fn href_double(k: Seq<u8>) -> Seq<u8> {
    ascii_bytes("href=\""@) + k + ascii_bytes("\""@)
}

/// `href='k'`.
pub open spec fn href_single(k: Seq<u8>) -> Seq<u8> {
    ascii_bytes("href='"@) + k + ascii_bytes("'"@)
}

/// `filepos="<pos>"`.
pub open spec fn filepos_attr(pos: u32) -> Seq<u8> {
    ascii_bytes("filepos=\""@) + decimal(pos as nat) + ascii_bytes("\""@)
}

/// The (pattern, replacement) pairs for the first `n` positions: both quote
/// styles of `href="<key>"` become `filepos="<pos>"`; chapter-id keys are
/// not paths and are skipped.
pub open spec fn link_replacements(m: Seq<(Seq<u8>, u32)>, n: nat) -> Seq<(Seq<u8>, Seq<u8>)>
    decreases n,
{
    if n == 0 {
        Seq::empty()
    } else {
        let prev = link_replacements(m, (n - 1) as nat);
        let (k, pos) = m[n - 1];
        if starts_with(k, ascii_bytes("ChapterId("@)) {
            prev
        } else {
            prev.push((href_double(k), filepos_attr(pos))).push((href_single(k), filepos_attr(pos)))
        }
    }
}

/// Index of the first pair whose pattern is shorter than `l`.
pub open spec fn first_shorter(s: Seq<(Seq<u8>, Seq<u8>)>, l: nat, from: int) -> int
    decreases s.len() - from,
{
    if from < 0 || from >= s.len() {
        s.len() as int
    } else if s[from].0.len() < l {
        from
    } else {
        first_shorter(s, l, from + 1)
    }
}

proof fn lemma_first_shorter(s: Seq<(Seq<u8>, Seq<u8>)>, l: nat, from: int)
    requires
        0 <= from <= s.len(),
    ensures
        from <= first_shorter(s, l, from) <= s.len(),
    decreases s.len() - from,
{
    if from < s.len() {
        lemma_first_shorter(s, l, from + 1);
    }
}

/// The pairs stably sorted by pattern length, longest first.
pub open spec fn sort_longest_first(s: Seq<(Seq<u8>, Seq<u8>)>) -> Seq<(Seq<u8>, Seq<u8>)>
    decreases s.len(),
{
    if s.len() == 0 {
        s
    } else {
        let p = sort_longest_first(s.drop_last());
        p.insert(first_shorter(p, s.last().0.len(), 0), s.last())
    }
}

proof fn lemma_sort_len(s: Seq<(Seq<u8>, Seq<u8>)>)
    ensures
        sort_longest_first(s).len() == s.len(),
        forall|j: int| 0 <= j < s.len() ==> sort_longest_first(s)[j].0.len() > 0
            || exists|k: int| 0 <= k < s.len() && s[k].0.len() == 0,
    decreases s.len(),
{
    if s.len() > 0 {
        lemma_sort_len(s.drop_last());
        lemma_first_shorter(sort_longest_first(s.drop_last()), s.last().0.len(), 0);
        let p = sort_longest_first(s.drop_last());
        let q = sort_longest_first(s);
        let at = first_shorter(p, s.last().0.len(), 0);
        assert forall|j: int| 0 <= j < s.len() implies q[j].0.len() > 0
            || exists|k: int| 0 <= k < s.len() && s[k].0.len() == 0 by {
            if q[j].0.len() == 0 {
                if j == at {
                    assert(s[s.len() - 1].0.len() == 0);
                } else if j < at {
                    assert(q[j] == p[j]);
                    let k = choose|k: int| 0 <= k < s.drop_last().len() && s.drop_last()[k].0.len() == 0;
                    assert(s[k].0.len() == 0);
                } else {
                    assert(q[j] == p[j - 1]);
                    let k = choose|k: int| 0 <= k < s.drop_last().len() && s.drop_last()[k].0.len() == 0;
                    assert(s[k].0.len() == 0);
                }
            }
        }
    }
}

/// `h` after applying the first `n` replacements, each to every occurrence.
pub open spec fn apply_replacements(h: Seq<u8>, rs: Seq<(Seq<u8>, Seq<u8>)>, n: nat) -> Seq<u8>
    decreases n,
{
    if n == 0 {
        h
    } else {
        replace_all(apply_replacements(h, rs, (n - 1) as nat), rs[n - 1].0, rs[n - 1].1)
    }
}

/// Non-empty and made only of ASCII digits.
pub open spec fn all_digits(b: Seq<u8>) -> bool {
    b.len() > 0 && forall|i: int| 0 <= i < b.len() ==> 0x30 <= #[trigger] b[i] <= 0x39
}

/// How an `href` value is written back: `filepos="NNN"` when it contains
/// `#filepos` followed by digits only, else unchanged as `href="..."`.
pub open spec fn rewrite_href(content: Seq<u8>, m: Seq<(Seq<u8>, u32)>) -> Seq<u8> {
    match find_from(content, ascii_bytes("#filepos"@), 0) {
        Some(h) if all_digits(content.subrange(h + 8, content.len() as int)) =>
            ascii_bytes("filepos=\""@) + content.subrange(h + 8, content.len() as int) + ascii_bytes("\""@),
        _ => match section_target(content, m) {
            Some(pos) => filepos_attr(pos),
            None => ascii_bytes("href=\""@) + content + ascii_bytes("\""@),
        },
    }
}

/// For a link `<path>#<section>` whose path is a recorded chapter path (not
/// a `ChapterId(..)` key), the chapter's position.
pub open spec fn section_target(content: Seq<u8>, m: Seq<(Seq<u8>, u32)>) -> Option<u32> {
    match find_from(content, ascii_bytes("#"@), 0) {
        Some(h) => {
            let path = content.subrange(0, h);
            if starts_with(path, ascii_bytes("ChapterId("@)) {
                None
            } else {
                pm_get(m, path)
            }
        },
        None => None,
    }
}

/// `r` from `from` on with every `href="...#fileposNNN"` turned into
/// `filepos="NNN"`.
pub open spec fn link_pass(r: Seq<u8>, m: Seq<(Seq<u8>, u32)>, from: int) -> Seq<u8>
    decreases r.len() - from,
    when 0 <= from <= r.len()
{
    match find_from(r, ascii_bytes("href=\""@), from) {
        None => r.subrange(from, r.len() as int),
        Some(idx) => {
            proof {
                reveal_strlit("href=\"");
                reveal_strlit("\"");
                lemma_find_from(r, ascii_bytes("href=\""@), from);
            }
            match find_from(r, ascii_bytes("\""@), idx + 6) {
                Some(close) => {
                    proof {
                        lemma_find_from(r, ascii_bytes("\""@), idx + 6);
                    }
                    r.subrange(from, idx) + rewrite_href(r.subrange(idx + 6, close), m) + link_pass(
                        r,
                        m,
                        close + 1,
                    )
                },
                None => r.subrange(from, idx) + ascii_bytes("href=\""@) + link_pass(r, m, idx + 6),
            }
        },
    }
}

/// The body HTML with internal links resolved to byte positions.
pub open spec fn resolve_links(html: Seq<u8>, m: Seq<(Seq<u8>, u32)>) -> Seq<u8> {
    let rs = sort_longest_first(link_replacements(m, m.len()));
    link_pass(apply_replacements(html, rs, rs.len()), m, 0)
}

fn make_attr(prefix: &[u8], mid: &[u8], suffix: &[u8]) -> (r: Vec<u8>)
    ensures
        r@ == prefix@ + mid@ + suffix@,
{
    let mut r: Vec<u8> = Vec::new();
    push_all(&mut r, prefix);
    push_all(&mut r, mid);
    push_all(&mut r, suffix);
    r
}

fn make_filepos_attr(pos: u32) -> (r: Vec<u8>)
    ensures
        r@ == filepos_attr(pos),
{
    proof {
        reveal_strlit("filepos=\"");
        reveal_strlit("\"");
    }
    let mut d: Vec<u8> = Vec::new();
    push_decimal(&mut d, pos as u64);
    make_attr(lit("filepos=\""), &d, lit("\""))
}

fn build_link_replacements(positions: &PositionMap) -> (r: Vec<(Vec<u8>, Vec<u8>)>)
    ensures
        r@.map_values(|e: (Vec<u8>, Vec<u8>)| (e.0@, e.1@)) == sort_longest_first(
            link_replacements(positions.view(), positions.view().len()),
        ),
{
    let ghost m = positions.view();
    let mut reps: Vec<(Vec<u8>, Vec<u8>)> = Vec::new();
    let mut i: usize = 0;
    while i < positions.entries.len()
        invariant
            m == positions.view(),
            i <= m.len(),
            reps@.map_values(|e: (Vec<u8>, Vec<u8>)| (e.0@, e.1@)) == sort_longest_first(
                link_replacements(m, i as nat),
            ),
        decreases m.len() - i,
    {
        proof {
            reveal_strlit("ChapterId(");
            reveal_strlit("href=\"");
            reveal_strlit("\"");
            reveal_strlit("href='");
            reveal_strlit("'");
        }
        let key = &positions.entries[i].0;
        let pos = positions.entries[i].1;
        let ghost prev = link_replacements(m, i as nat);
        let ghost before = reps@.map_values(|e: (Vec<u8>, Vec<u8>)| (e.0@, e.1@));
        proof {
            assert(m[i as int] == (key@, pos));
        }
        let prefix = lit("ChapterId(");
        let is_chapter = key.len() >= prefix.len() && bytes_match_at(key, prefix, 0);
        if !is_chapter {
            let ghost x = (href_double(key@), filepos_attr(pos));
            let ghost y = (href_single(key@), filepos_attr(pos));
            proof {
                assert(link_replacements(m, (i + 1) as nat) == prev.push(x).push(y));
                assert(prev.push(x).push(y).drop_last() =~= prev.push(x));
                assert(prev.push(x).drop_last() =~= prev);
                assert(sort_longest_first(prev.push(x)) == ({
                    let p = sort_longest_first(prev);
                    p.insert(first_shorter(p, x.0.len(), 0), x)
                }));
            }
            let a1 = make_filepos_attr(pos);
            let a2 = make_filepos_attr(pos);
            let p1 = make_attr(lit("href=\""), key, lit("\""));
            let p2 = make_attr(lit("href='"), key, lit("'"));
            insert_longest_first(&mut reps, p1, a1);
            insert_longest_first(&mut reps, p2, a2);
        }
        i = i + 1;
    }
    reps
}

fn insert_longest_first(reps: &mut Vec<(Vec<u8>, Vec<u8>)>, pat: Vec<u8>, rep: Vec<u8>)
    ensures
        final(reps)@.map_values(|e: (Vec<u8>, Vec<u8>)| (e.0@, e.1@)) == ({
            let p = old(reps)@.map_values(|e: (Vec<u8>, Vec<u8>)| (e.0@, e.1@));
            p.insert(first_shorter(p, pat@.len(), 0), (pat@, rep@))
        }),
{
    let ghost p = reps@.map_values(|e: (Vec<u8>, Vec<u8>)| (e.0@, e.1@));
    let mut j: usize = 0;
    while j < reps.len() && reps[j].0.len() >= pat.len()
        invariant
            j <= reps@.len(),
            p == reps@.map_values(|e: (Vec<u8>, Vec<u8>)| (e.0@, e.1@)),
            first_shorter(p, pat@.len(), 0) == first_shorter(p, pat@.len(), j as int),
        decreases reps@.len() - j,
    {
        j = j + 1;
    }
    let ghost pv = pat@;
    let ghost rv = rep@;
    reps.insert(j, (pat, rep));
    assert(reps@.map_values(|e: (Vec<u8>, Vec<u8>)| (e.0@, e.1@)) =~= p.insert(j as int, (pv, rv)));
}

fn is_digits(b: &[u8], lo: usize, hi: usize) -> (r: bool)
    requires
        lo <= hi <= b.len(),
    ensures
        r == all_digits(b@.subrange(lo as int, hi as int)),
{
    if lo == hi {
        return false;
    }
    let mut k = lo;
    while k < hi
        invariant
            lo <= k <= hi,
            hi <= b.len(),
            forall|i: int| lo <= i < k ==> 0x30 <= #[trigger] b@[i] <= 0x39,
        decreases hi - k,
    {
        if b[k] < 0x30 || b[k] > 0x39 {
            assert(b@.subrange(lo as int, hi as int)[k - lo] == b@[k as int]);
            return false;
        }
        k = k + 1;
    }
    assert forall|i: int| 0 <= i < hi - lo implies 0x30 <= #[trigger] b@.subrange(lo as int, hi as int)[i] <= 0x39 by {
        assert(b@.subrange(lo as int, hi as int)[i] == b@[lo + i]);
    }
    true
}

/// With no chapter positions recorded, a link `href="<p>#filepos<digits>"`
/// becomes `filepos="<digits>"` and nothing around it changes: for every
/// text `a` before it and `s` after it that hold no double quote, every
/// path part `p` with neither a double quote nor `#`, and every non-empty
/// run of ASCII digits.
pub proof fn lemma_filepos_link_resolves(a: Seq<u8>, p: Seq<u8>, digits: Seq<u8>, s: Seq<u8>)
    requires
        forall|i: int| 0 <= i < a.len() ==> a[i] != 34,
        forall|i: int| 0 <= i < p.len() ==> p[i] != 34 && p[i] != 35,
        digits.len() > 0,
        forall|i: int| 0 <= i < digits.len() ==> 0x30 <= #[trigger] digits[i] <= 0x39,
        forall|i: int| 0 <= i < s.len() ==> s[i] != 34,
    ensures
        resolve_links(
            a + ascii_bytes("href=\""@) + p + ascii_bytes("#filepos"@) + digits + ascii_bytes("\""@) + s,
            Seq::empty(),
        ) == a + ascii_bytes("filepos=\""@) + digits + ascii_bytes("\""@) + s,
{
    reveal_strlit("href=\"");
    reveal_strlit("#filepos");
    reveal_strlit("\"");
    reveal_strlit("filepos=\"");
    let m = Seq::<(Seq<u8>, u32)>::empty();
    let hq = ascii_bytes("href=\""@);
    let fp = ascii_bytes("#filepos"@);
    let q = ascii_bytes("\""@);
    let content = p + fp + digits;
    let html = a + hq + content + q + s;
    assert(html =~= a + hq + p + fp + digits + q + s);
    let rs = sort_longest_first(link_replacements(m, m.len()));
    assert(rs.len() == 0);
    assert(apply_replacements(html, rs, rs.len()) == html);
    let at = a.len() as int;
    let close = at + 6 + content.len();
    // the first `href="`
    assert(html.subrange(at, at + 6) =~= hq);
    assert forall|j: int| 0 <= j < at implies !match_at(html, hq, j) by {
        if match_at(html, hq, j) {
            assert(html.subrange(j, j + 6)[5] == html[j + 5]);
            if j + 5 < at {
                assert(html[j + 5] == a[j + 5]);
            } else {
                assert(html[j + 5] == hq[j + 5 - at]);
            }
        }
    }
    lemma_find_from_unique(html, hq, 0, at);
    // its closing quote
    assert forall|i: int| 0 <= i < content.len() implies content[i] != 34 by {
        if i < p.len() {
        } else if i < p.len() + 8 {
            assert(content[i] == fp[i - p.len()]);
        } else {
            assert(content[i] == digits[i - p.len() - 8]);
        }
    }
    assert(html.subrange(close, close + 1) =~= q);
    assert forall|j: int| at + 6 <= j < close implies !match_at(html, q, j) by {
        if match_at(html, q, j) {
            assert(html.subrange(j, j + 1)[0] == html[j]);
            assert(html[j] == content[j - at - 6]);
        }
    }
    lemma_find_from_unique(html, q, at + 6, close);
    assert(html.subrange(at + 6, close) =~= content);
    // the `#filepos` inside the value
    assert(content.subrange(p.len() as int, p.len() + 8int) =~= fp);
    assert forall|j: int| 0 <= j < p.len() implies !match_at(content, fp, j) by {
        if match_at(content, fp, j) {
            assert(content.subrange(j, j + 8)[0] == content[j]);
            assert(content[j] == p[j]);
        }
    }
    lemma_find_from_unique(content, fp, 0, p.len() as int);
    assert(content.subrange(p.len() + 8int, content.len() as int) =~= digits);
    assert(rewrite_href(content, m) == ascii_bytes("filepos=\""@) + digits + q);
    // nothing after it
    assert forall|j: int| close + 1 <= j implies !match_at(html, hq, j) by {
        if match_at(html, hq, j) {
            assert(html.subrange(j, j + 6)[5] == html[j + 5]);
            assert(html[j + 5] == s[j + 5 - close - 1]);
        }
    }
    lemma_find_from(html, hq, close + 1);
    assert(link_pass(html, m, close + 1) == html.subrange(close + 1, html.len() as int));
    assert(html.subrange(close + 1, html.len() as int) =~= s);
    assert(html.subrange(0, at) =~= a);
    assert(link_pass(html, m, 0) == html.subrange(0, at) + rewrite_href(html.subrange(at + 6, close), m)
        + link_pass(html, m, close + 1));
    assert(link_pass(html, m, 0) =~= a + ascii_bytes("filepos=\""@) + digits + q + s);
}

/// Resolve internal links to MOBI `filepos` references.
///
/// First every `href="<path>"` and `href='<path>'` that names a recorded
/// chapter path becomes `filepos="<pos>"`, longer paths first; then every
/// `href="..."` whose value contains `#filepos` followed by digits becomes
/// `filepos="<digits>"`, and every `href="<path>#<section>"` whose path is a
/// recorded chapter path becomes the chapter's `filepos="<pos>"`.
pub fn resolve_internal_links(html: &[u8], positions: &PositionMap) -> (r: Vec<u8>)
    ensures
        r@ == resolve_links(html@, positions.view()),
{
    let reps = build_link_replacements(positions);
    let ghost rs = sort_longest_first(link_replacements(positions.view(), positions.view().len()));
    proof {
        lemma_sort_len(link_replacements(positions.view(), positions.view().len()));
        lemma_link_replacements_nonempty(positions.view(), positions.view().len());
    }
    let mut result: Vec<u8> = Vec::new();
    push_all(&mut result, html);
    let mut i: usize = 0;
    while i < reps.len()
        invariant
            rs == reps@.map_values(|e: (Vec<u8>, Vec<u8>)| (e.0@, e.1@)),
            forall|j: int| 0 <= j < rs.len() ==> #[trigger] rs[j].0.len() > 0,
            i <= reps@.len(),
            result@ == apply_replacements(html@, rs, i as nat),
        decreases reps@.len() - i,
    {
        assert(rs[i as int].0.len() > 0);
        result = replace_bytes(&result, &reps[i].0, &reps[i].1);
        i = i + 1;
    }
    link_pass_exec(&result, positions)
}

proof fn lemma_link_replacements_nonempty(m: Seq<(Seq<u8>, u32)>, n: nat)
    requires
        n <= m.len(),
    ensures
        forall|j: int| 0 <= j < link_replacements(m, n).len() ==> #[trigger] link_replacements(m, n)[j].0.len() > 0,
    decreases n,
{
    reveal_strlit("href=\"");
    reveal_strlit("href='");
    if n > 0 {
        lemma_link_replacements_nonempty(m, (n - 1) as nat);
        let prev = link_replacements(m, (n - 1) as nat);
        let cur = link_replacements(m, n);
        let (k, pos) = m[n - 1];
        if !starts_with(k, ascii_bytes("ChapterId("@)) {
            assert forall|j: int| 0 <= j < cur.len() implies #[trigger] cur[j].0.len() > 0 by {
                if j < prev.len() {
                    assert(cur[j] == prev[j]);
                }
            }
        }
    }
}

fn section_target_exec(content: &Vec<u8>, positions: &PositionMap) -> (r: Option<u32>)
    ensures
        r == section_target(content@, positions.view()),
{
    proof {
        reveal_strlit("#");
        reveal_strlit("ChapterId(");
        lemma_find_from(content@, ascii_bytes("#"@), 0);
    }
    match find_bytes(content, lit("#"), 0) {
        Some(h) => {
            let mut path: Vec<u8> = Vec::new();
            push_range(&mut path, content, 0, h);
            let prefix = lit("ChapterId(");
            if bytes_match_at(&path, prefix, 0) {
                None
            } else {
                positions.get(&path)
            }
        },
        None => None,
    }
}

fn link_pass_exec(r: &Vec<u8>, positions: &PositionMap) -> (out: Vec<u8>)
    ensures
        out@ == link_pass(r@, positions.view(), 0),
{
    let ghost m = positions.view();
    proof {
        reveal_strlit("href=\"");
        reveal_strlit("\"");
        reveal_strlit("#filepos");
        reveal_strlit("filepos=\"");
    }
    let href = lit("href=\"");
    let quote = lit("\"");
    let marker = lit("#filepos");
    let fp = lit("filepos=\"");
    let n = r.len();
    let mut out: Vec<u8> = Vec::new();
    let mut from: usize = 0;
    loop
        invariant
            from <= n,
            n == r@.len(),
            href@ == ascii_bytes("href=\""@),
            quote@ == ascii_bytes("\""@),
            marker@ == ascii_bytes("#filepos"@),
            fp@ == ascii_bytes("filepos=\""@),
            href@.len() == 6,
            quote@.len() == 1,
            marker@.len() == 8,
            m == positions.view(),
            out@ + link_pass(r@, m, from as int) == link_pass(r@, m, 0),
        decreases n - from,
    {
        proof {
            lemma_find_from(r@, href@, from as int);
        }
        match find_bytes(r, href, from) {
            None => {
                assert(link_pass(r@, m, from as int) == r@.subrange(from as int, n as int));
                push_range(&mut out, r, from, n);
                return out;
            },
            Some(idx) => {
                assert(crate::util::match_at(r@, href@, idx as int));
                assert(idx + 6 <= n);
                let after = idx + 6;
                proof {
                    lemma_find_from(r@, quote@, after as int);
                }
                let ghost before = out@;
                match find_bytes(r, quote, after) {
                    Some(close) => {
                        assert(crate::util::match_at(r@, quote@, close as int));
                        let mut content: Vec<u8> = Vec::new();
                        push_range(&mut content, r, after, close);
                        push_range(&mut out, r, from, idx);
                        proof {
                            lemma_find_from(content@, marker@, 0);
                        }
                        let mut written = false;
                        match find_bytes(&content, marker, 0) {
                            Some(h) => {
                                assert(crate::util::match_at(content@, marker@, h as int));
                                if is_digits(&content, h + 8, content.len()) {
                                    push_all(&mut out, fp);
                                    push_range(&mut out, &content, h + 8, content.len());
                                    push_all(&mut out, quote);
                                    written = true;
                                }
                            },
                            None => {},
                        }
                        if !written {
                            match section_target_exec(&content, positions) {
                                Some(pos) => {
                                    let attr = make_filepos_attr(pos);
                                    push_all(&mut out, &attr);
                                },
                                None => {
                                    push_all(&mut out, href);
                                    push_all(&mut out, &content);
                                    push_all(&mut out, quote);
                                },
                            }
                        }
                        assert(out@ =~= before + r@.subrange(from as int, idx as int) + rewrite_href(content@, m));
                        assert(out@ + link_pass(r@, m, (close + 1) as int) =~= before + link_pass(r@, m, from as int));
                        from = close + 1;
                    },
                    None => {
                        push_range(&mut out, r, from, idx);
                        push_all(&mut out, href);
                        assert(out@ + link_pass(r@, m, after as int) =~= before + link_pass(r@, m, from as int));
                        from = after;
                    },
                }
            },
        }
    }
}

} // verus!
