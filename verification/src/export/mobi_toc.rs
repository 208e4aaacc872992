//! The MOBI table of contents: the nested TOC flattened into NCX index
//! entries with byte positions in the text, and the trailing byte sequence
//! encoding of TOC entries within a text record.

use vstd::prelude::*;
use crate::export::mobi_links::{chapter_key, pm_get, PositionMap};
use crate::model::{AnchorTarget, TocEntry};
use crate::text::{ascii_bytes, lit, utf8};
use crate::util::{find_bytes, find_from, lemma_find_from, match_at, push_all, push_range, starts_with};

verus! {

broadcast use vstd::string::group_string_axioms;

/// `id="<id>"`.
pub open spec fn id_attr(id: Seq<u8>) -> Seq<u8> {
    ascii_bytes("id=\""@) + id + ascii_bytes("\""@)
}

/// Byte position of the element whose `id` attribute is `id`: the first
/// occurrence of `id="<id>"`, truncated to 32 bits.
pub open spec fn element_position(html: Seq<u8>, id: Seq<u8>) -> Option<u32> {
    match find_from(html, id_attr(id), 0) {
        Some(p) => Some(p as u32),
        None => None,
    }
}

/// Find byte position of an element by its id attribute in HTML.
pub fn find_element_position(html: &[u8], element_id: &[u8]) -> (r: Option<u32>)
    ensures
        r == element_position(html@, element_id@),
{
    proof {
        reveal_strlit("id=\"");
        reveal_strlit("\"");
    }
    let mut pat: Vec<u8> = Vec::new();
    push_all(&mut pat, lit("id=\""));
    push_all(&mut pat, element_id);
    push_all(&mut pat, lit("\""));
    match find_bytes(html, &pat, 0) {
        Some(p) => Some(#[verifier::truncate] (p as u32)),
        None => None,
    }
}

/// Value of a string of decimal digits.
pub open spec fn digits_value(d: Seq<u8>) -> nat
    decreases d.len(),
{
    if d.len() == 0 {
        0
    } else {
        digits_value(d.drop_last()) * 10 + (d.last() - 48) as nat
    }
}

/// Made of ASCII digits only (possibly empty).
pub open spec fn only_digits(d: Seq<u8>) -> bool {
    forall|i: int| 0 <= i < d.len() ==> 48 <= #[trigger] d[i] <= 57
}

/// `u32::from_str`: an optional `+`, then one or more digits, whose value
/// fits in 32 bits.
pub open spec fn parse_u32(s: Seq<u8>) -> Option<u32> {
    let d = if s.len() > 0 && s[0] == 43 {
        s.drop_first()
    } else {
        s
    };
    if d.len() > 0 && only_digits(d) && digits_value(d) <= 0xFFFF_FFFF {
        Some(digits_value(d) as u32)
    } else {
        None
    }
}

proof fn lemma_digits_value_grows(d: Seq<u8>, k: int)
    requires
        0 <= k <= d.len(),
        only_digits(d),
    ensures
        digits_value(d.subrange(0, k)) <= digits_value(d),
    decreases d.len() - k,
{
    if k < d.len() {
        lemma_digits_value_grows(d, k + 1);
        assert(d.subrange(0, k + 1).drop_last() =~= d.subrange(0, k));
    } else {
        assert(d.subrange(0, k) =~= d);
    }
}

/// Parse `s[lo..]` as `u32::from_str` does.
pub fn parse_u32_at(s: &[u8], lo: usize) -> (r: Option<u32>)
    requires
        lo <= s.len(),
    ensures
        r == parse_u32(s@.subrange(lo as int, s@.len() as int)),
{
    let ghost t = s@.subrange(lo as int, s@.len() as int);
    let mut start = lo;
    if start < s.len() && s[start] == 43 {
        start = start + 1;
    }
    let ghost d = s@.subrange(start as int, s@.len() as int);
    assert(d =~= (if t.len() > 0 && t[0] == 43 { t.drop_first() } else { t }));
    if start == s.len() {
        return None;
    }
    let mut v: u64 = 0;
    let mut k = start;
    while k < s.len()
        invariant
            start <= k <= s.len(),
            t == s@.subrange(lo as int, s@.len() as int),
            d == (if t.len() > 0 && t[0] == 43 { t.drop_first() } else { t }),
            d.len() > 0,
            d == s@.subrange(start as int, s@.len() as int),
            only_digits(s@.subrange(start as int, k as int)),
            v == digits_value(s@.subrange(start as int, k as int)),
            v <= 0xFFFF_FFFF,
        decreases s.len() - k,
    {
        let b = s[k];
        if b < 48 || b > 57 {
            assert(d[k - start] == b);
            assert(!only_digits(d));
            return None;
        }
        let ghost prefix = s@.subrange(start as int, (k + 1) as int);
        assert(prefix.drop_last() =~= s@.subrange(start as int, k as int));
        v = v * 10 + (b - 48) as u64;
        if v > 0xFFFF_FFFF {
            proof {
                assert(only_digits(prefix));
                assert(digits_value(prefix) == v);
                if only_digits(d) {
                    assert(d.subrange(0, k + 1 - start) =~= prefix);
                    lemma_digits_value_grows(d, k + 1 - start);
                }
            }
            return None;
        }
        k = k + 1;
    }
    assert(s@.subrange(start as int, k as int) =~= d);
    Some(v as u32)
}

/// The key a path reference is tried under: `ChapterId(<href>)`.
pub open spec fn href_key(href: Seq<u8>) -> Seq<u8> {
    ascii_bytes("ChapterId("@) + href + ascii_bytes(")"@)
}

/// The part of an `href` after its first `#` (empty when there is none).
pub open spec fn fragment(href: Seq<u8>) -> Seq<u8> {
    match find_from(href, ascii_bytes("#"@), 0) {
        Some(h) => href.subrange(h + 1, href.len() as int),
        None => Seq::empty(),
    }
}

/// Position from the entry's resolved target: the start of its chapter.
pub open spec fn target_position(t: Option<AnchorTarget>, cp: Seq<(Seq<u8>, u32)>) -> Option<u32> {
    match t {
        Some(AnchorTarget::Chapter(c)) => pm_get(cp, chapter_key(c)),
        Some(AnchorTarget::Internal(n)) => pm_get(cp, chapter_key(n.chapter)),
        _ => None,
    }
}

/// Position from the `href` fragment: `#fileposNNN` names it directly,
/// another fragment is looked up as an element id.
pub open spec fn fragment_position(frag: Seq<u8>, html: Seq<u8>) -> Option<u32> {
    if starts_with(frag, ascii_bytes("filepos"@)) {
        parse_u32(frag.subrange(7, frag.len() as int))
    } else if frag.len() > 0 {
        element_position(html, frag)
    } else {
        None
    }
}

/// Byte position a TOC entry points at: its resolved target's chapter, else
/// its `href` fragment, else its `href` as a chapter key, else 0.
pub open spec fn toc_position(e: TocEntry, html: Seq<u8>, cp: Seq<(Seq<u8>, u32)>) -> u32 {
    match target_position(e.target, cp) {
        Some(p) => p,
        None => match fragment_position(fragment(utf8(e.href@)), html) {
            Some(p) => p,
            None => match pm_get(cp, href_key(utf8(e.href@))) {
                Some(p) => p,
                None => 0,
            },
        },
    }
}

/// Resolve the byte position of a TOC entry.
pub fn resolve_position(entry: &TocEntry, html: &[u8], positions: &PositionMap) -> (r: u32)
    ensures
        r == toc_position(*entry, html@, positions.view()),
{
    proof {
        reveal_strlit("#");
        reveal_strlit("filepos");
        reveal_strlit("ChapterId(");
        reveal_strlit(")");
    }
    match &entry.target {
        Some(AnchorTarget::Chapter(c)) => {
            let k = crate::export::mobi_links::make_chapter_key(*c);
            if let Some(p) = positions.get(&k) {
                return p;
            }
        },
        Some(AnchorTarget::Internal(n)) => {
            let k = crate::export::mobi_links::make_chapter_key(n.chapter);
            if let Some(p) = positions.get(&k) {
                return p;
            }
        },
        _ => {},
    }
    assert(target_position(entry.target, positions.view()) is None);
    let href = entry.href.as_str().as_bytes();
    let hash = lit("#");
    proof {
        lemma_find_from(href@, hash@, 0);
    }
    let mut frag: Vec<u8> = Vec::new();
    match find_bytes(href, hash, 0) {
        Some(h) => {
            let n = href.len();
            assert(match_at(href@, hash@, h as int));
            push_range(&mut frag, href, h + 1, n);
        },
        None => {
            assert(frag@ =~= Seq::<u8>::empty());
        },
    }
    assert(frag@ == fragment(utf8(entry.href@)));
    let fp = lit("filepos");
    let found: Option<u32> = if frag.len() >= 7 && crate::util::bytes_match_at(&frag, fp, 0) {
        parse_u32_at(&frag, 7)
    } else if frag.len() > 0 {
        find_element_position(html, &frag)
    } else {
        None
    };
    assert(found == fragment_position(frag@, html@));
    if let Some(p) = found {
        return p;
    }
    let mut key: Vec<u8> = Vec::new();
    push_all(&mut key, lit("ChapterId("));
    push_all(&mut key, href);
    push_all(&mut key, lit(")"));
    match positions.get(&key) {
        Some(p) => p,
        None => 0,
    }
}

/// A TOC entry flattened in reading order: its position, label, depth and
/// the index of its parent (`-1` at the top level).
pub struct FlatView {
    pub pos: u32,
    pub label: Seq<char>,
    pub depth: nat,
    pub parent: int,
}

/// The entries in pre-order (an entry, then its children), the first taking
/// index `base`.
pub open spec fn flat(
    es: Seq<TocEntry>,
    depth: nat,
    parent: int,
    base: nat,
    html: Seq<u8>,
    cp: Seq<(Seq<u8>, u32)>,
) -> Seq<FlatView>
    decreases es,
{
    if es.len() == 0 {
        Seq::empty()
    } else {
        let pre = flat(es.drop_last(), depth, parent, base, html, cp);
        let e = es.last();
        let idx = base + pre.len();
        pre.push(FlatView { pos: toc_position(e, html, cp), label: e.title@, depth, parent }) + flat(
            e.children@,
            depth + 1,
            idx as int,
            idx + 1,
            html,
            cp,
        )
    }
}

/// A flattened TOC entry.
pub struct FlatItem {
    pub pos: u32,
    pub label: String,
    pub depth: u32,
    pub parent: i64,
}

/// The positions, labels, depths and parents of flattened entries.
pub open spec fn fi_view(v: Seq<FlatItem>) -> Seq<FlatView> {
    v.map_values(|x: FlatItem| FlatView { pos: x.pos, label: x.label@, depth: x.depth as nat, parent: x.parent as int })
}

proof fn lemma_flat_prefix(
    es: Seq<TocEntry>,
    depth: nat,
    parent: int,
    base: nat,
    html: Seq<u8>,
    cp: Seq<(Seq<u8>, u32)>,
    k: int,
)
    requires
        0 <= k <= es.len(),
    ensures
        flat(es.subrange(0, k), depth, parent, base, html, cp).len() <= flat(es, depth, parent, base, html, cp).len(),
    decreases es.len() - k,
{
    if k < es.len() {
        lemma_flat_prefix(es, depth, parent, base, html, cp, k + 1);
        assert(es.subrange(0, k + 1).drop_last() =~= es.subrange(0, k));
    } else {
        assert(es.subrange(0, k) =~= es);
    }
}

/// Append the entries, each followed by its descendants, to `out`.
fn flatten_into(
    entries: &Vec<TocEntry>,
    depth: u32,
    parent: i64,
    html: &[u8],
    positions: &PositionMap,
    out: &mut Vec<FlatItem>,
)
    requires
        depth <= old(out)@.len(),
        -1 <= parent < old(out)@.len(),
        old(out)@.len() + flat(entries@, depth as nat, parent as int, old(out)@.len(), html@, positions.view()).len()
            <= 0x7FFF_FFFF,
    ensures
        fi_view(final(out)@) == fi_view(old(out)@) + flat(
            entries@,
            depth as nat,
            parent as int,
            old(out)@.len(),
            html@,
            positions.view(),
        ),
    decreases entries@,
{
    let ghost start = out@;
    let ghost base = out@.len();
    let ghost cp = positions.view();
    let mut k: usize = 0;
    while k < entries.len()
        invariant
            k <= entries@.len(),
            base == start.len(),
            depth <= base,
            -1 <= parent < base,
            cp == positions.view(),
            base + flat(entries@, depth as nat, parent as int, base, html@, cp).len() <= 0x7FFF_FFFF,
            fi_view(out@) == fi_view(start) + flat(entries@.subrange(0, k as int), depth as nat, parent as int, base, html@, cp),
        decreases entries@.len() - k,
    {
        let ghost pre = flat(entries@.subrange(0, k as int), depth as nat, parent as int, base, html@, cp);
        proof {
            lemma_flat_prefix(entries@, depth as nat, parent as int, base, html@, cp, k + 1);
            assert(entries@.subrange(0, k + 1).drop_last() =~= entries@.subrange(0, k as int));
            assert(entries@.subrange(0, k + 1).last() == entries@[k as int]);
        }
        let e = &entries[k];
        let idx = out.len();
        assert(fi_view(out@).len() == out@.len());
        assert(idx == base + pre.len());
        let pos = resolve_position(e, html, positions);
        let ghost before = out@;
        let item = FlatItem { pos, label: e.title.clone(), depth, parent };
        assert(item.label@ == e.title@);
        out.push(item);
        assert(out@ == before.push(item));
        assert(fi_view(out@) =~= fi_view(before).push(
            FlatView { pos: toc_position(*e, html@, cp), label: e.title@, depth: depth as nat, parent: parent as int },
        ));
        assert(fi_view(out@) =~= fi_view(start) + pre.push(
            FlatView { pos: toc_position(*e, html@, cp), label: e.title@, depth: depth as nat, parent: parent as int },
        ));
        proof {
            assert(decreases_to!(entries@ => entries@[k as int]));
        }
        flatten_into(&e.children, depth + 1, idx as i64, html, positions, out);
        k = k + 1;
    }
    assert(entries@.subrange(0, entries@.len() as int) =~= entries@);
}

/// An entry of the MOBI NCX index: position and length of its section in
/// the text, label, depth, and the indices of its parent and of its first
/// and last child (`-1` when there is none).
pub struct NcxBuildEntry {
    pub pos: u32,
    pub length: u32,
    pub label: String,
    pub depth: u32,
    pub parent: i32,
    pub first_child: i32,
    pub last_child: i32,
}

/// What an NCX entry holds, with its label as characters.
pub struct NcxView {
    pub pos: u32,
    pub length: u32,
    pub label: Seq<char>,
    pub depth: u32,
    pub parent: i32,
    pub first_child: i32,
    pub last_child: i32,
}

/// The views of NCX entries.
pub open spec fn ncx_view(v: Seq<NcxBuildEntry>) -> Seq<NcxView> {
    v.map_values(|e: NcxBuildEntry| NcxView {
        pos: e.pos,
        length: e.length,
        label: e.label@,
        depth: e.depth,
        parent: e.parent,
        first_child: e.first_child,
        last_child: e.last_child,
    })
}

/// Some entry in `[lo, hi)` is at position `p`.
pub open spec fn pos_in(f: Seq<FlatView>, p: u32, lo: int, hi: int) -> bool
    decreases hi - lo,
{
    if lo >= hi {
        false
    } else {
        f[hi - 1].pos == p || pos_in(f, p, lo, hi - 1)
    }
}

/// An earlier entry is at the same position: this entry is dropped.
pub open spec fn dropped(f: Seq<FlatView>, i: int) -> bool {
    pos_in(f, f[i].pos, 0, i)
}

/// The smallest position greater than `p` among the first `k` entries.
pub open spec fn min_greater(f: Seq<FlatView>, p: u32, k: int) -> Option<u32>
    decreases k,
{
    if k <= 0 {
        None
    } else {
        let r = min_greater(f, p, k - 1);
        let q = f[k - 1].pos;
        if q > p {
            match r {
                Some(x) => Some(if q < x { q } else { x }),
                None => Some(q),
            }
        } else {
            r
        }
    }
}

/// Length of an entry's section: up to the next greater position of any
/// entry, or to the end of the text (zero when the entry lies past it), so
/// that the kept sections tile the text.
pub open spec fn section_length(f: Seq<FlatView>, i: int, text_length: u32) -> u32 {
    match min_greater(f, f[i].pos, f.len() as int) {
        Some(q) => (q - f[i].pos) as u32,
        None => if text_length >= f[i].pos {
            (text_length - f[i].pos) as u32
        } else {
            0
        },
    }
}

/// Number of kept entries among the first `k`.
pub open spec fn kept_count(f: Seq<FlatView>, k: int) -> nat
    decreases k,
{
    if k <= 0 {
        0
    } else {
        kept_count(f, k - 1) + if dropped(f, k - 1) { 0nat } else { 1nat }
    }
}

/// Index of entry `j` after dropped entries are removed, or `-1` when `j`
/// is no entry or is dropped.
pub open spec fn new_index(f: Seq<FlatView>, j: int) -> i32 {
    if 0 <= j < f.len() && !dropped(f, j) {
        kept_count(f, j) as i32
    } else {
        -1i32
    }
}

/// The first of the first `k` entries whose parent is `i`.
pub open spec fn first_child_of(f: Seq<FlatView>, i: int, k: int) -> Option<int>
    decreases k,
{
    if k <= 0 {
        None
    } else {
        match first_child_of(f, i, k - 1) {
            Some(j) => Some(j),
            None => if f[k - 1].parent == i {
                Some(k - 1)
            } else {
                None
            },
        }
    }
}

/// The last of the first `k` entries whose parent is `i`.
pub open spec fn last_child_of(f: Seq<FlatView>, i: int, k: int) -> Option<int>
    decreases k,
{
    if k <= 0 {
        None
    } else if f[k - 1].parent == i {
        Some(k - 1)
    } else {
        last_child_of(f, i, k - 1)
    }
}

/// The NCX entry made from flattened entry `i`.
pub open spec fn ncx_entry(f: Seq<FlatView>, i: int, text_length: u32) -> NcxView {
    NcxView {
        pos: f[i].pos,
        length: section_length(f, i, text_length),
        label: f[i].label,
        depth: f[i].depth as u32,
        parent: if f[i].parent >= 0 {
            new_index(f, f[i].parent)
        } else {
            -1i32
        },
        first_child: match first_child_of(f, i, f.len() as int) {
            Some(c) => new_index(f, c),
            None => -1i32,
        },
        last_child: match last_child_of(f, i, f.len() as int) {
            Some(c) => new_index(f, c),
            None => -1i32,
        },
    }
}

/// NCX entries for the kept entries among the first `k`, in reading order.
pub open spec fn ncx_entries(f: Seq<FlatView>, text_length: u32, k: int) -> Seq<NcxView>
    decreases k,
{
    if k <= 0 {
        Seq::empty()
    } else {
        let prev = ncx_entries(f, text_length, k - 1);
        if dropped(f, k - 1) {
            prev
        } else {
            prev.push(ncx_entry(f, k - 1, text_length))
        }
    }
}

/// The NCX entries of a table of contents.
pub open spec fn toc_ncx(toc: Seq<TocEntry>, html: Seq<u8>, cp: Seq<(Seq<u8>, u32)>, text_length: u32) -> Seq<NcxView> {
    let f = flat(toc, 0, -1, 0, html, cp);
    ncx_entries(f, text_length, f.len() as int)
}

fn pos_in_exec(f: &Vec<FlatItem>, p: u32, lo: usize, hi: usize) -> (r: bool)
    requires
        lo <= hi <= f@.len(),
    ensures
        r == pos_in(fi_view(f@), p, lo as int, hi as int),
{
    let mut k = lo;
    let mut found = false;
    while k < hi
        invariant
            lo <= k <= hi,
            hi <= f@.len(),
            found == pos_in(fi_view(f@), p, lo as int, k as int),
        decreases hi - k,
    {
        if f[k].pos == p {
            found = true;
        }
        k = k + 1;
    }
    found
}

fn min_greater_exec(f: &Vec<FlatItem>, p: u32) -> (r: Option<u32>)
    ensures
        r == min_greater(fi_view(f@), p, f@.len() as int),
{
    let mut best: Option<u32> = None;
    let mut k: usize = 0;
    while k < f.len()
        invariant
            k <= f@.len(),
            best == min_greater(fi_view(f@), p, k as int),
        decreases f@.len() - k,
    {
        let q = f[k].pos;
        if q > p {
            best = match best {
                Some(x) => Some(if q < x { q } else { x }),
                None => Some(q),
            };
        }
        k = k + 1;
    }
    best
}

fn child_bounds(f: &Vec<FlatItem>, i: usize) -> (r: (Option<usize>, Option<usize>))
    requires
        f@.len() <= 0x7FFF_FFFF,
        i < f@.len(),
    ensures
        ({
            let fv = fi_view(f@);
            &&& match r.0 {
                Some(c) => first_child_of(fv, i as int, fv.len() as int) == Some(c as int),
                None => first_child_of(fv, i as int, fv.len() as int) is None,
            }
            &&& match r.1 {
                Some(c) => last_child_of(fv, i as int, fv.len() as int) == Some(c as int),
                None => last_child_of(fv, i as int, fv.len() as int) is None,
            }
        }),
{
    let ghost fv = fi_view(f@);
    let mut first: Option<usize> = None;
    let mut last: Option<usize> = None;
    let mut k: usize = 0;
    while k < f.len()
        invariant
            k <= f@.len(),
            i < f@.len(),
            f@.len() <= 0x7FFF_FFFF,
            fv == fi_view(f@),
            match first {
                Some(c) => first_child_of(fv, i as int, k as int) == Some(c as int),
                None => first_child_of(fv, i as int, k as int) is None,
            },
            match last {
                Some(c) => last_child_of(fv, i as int, k as int) == Some(c as int),
                None => last_child_of(fv, i as int, k as int) is None,
            },
        decreases f@.len() - k,
    {
        if f[k].parent == i as i64 {
            if first.is_none() {
                first = Some(k);
            }
            last = Some(k);
        }
        k = k + 1;
    }
    (first, last)
}

proof fn lemma_child_range(f: Seq<FlatView>, i: int, k: int)
    ensures
        first_child_of(f, i, k) matches Some(c) ==> 0 <= c < k,
        last_child_of(f, i, k) matches Some(c) ==> 0 <= c < k,
    decreases k,
{
    if k > 0 {
        lemma_child_range(f, i, k - 1);
    }
}

proof fn lemma_min_greater(f: Seq<FlatView>, p: u32, k: int)
    ensures
        min_greater(f, p, k) matches Some(q) ==> q > p,
    decreases k,
{
    if k > 0 {
        lemma_min_greater(f, p, k - 1);
    }
}

proof fn lemma_kept_count_bound(f: Seq<FlatView>, k: int)
    requires
        0 <= k,
    ensures
        kept_count(f, k) <= k,
    decreases k,
{
    if k > 0 {
        lemma_kept_count_bound(f, k - 1);
    }
}

/// Flatten a hierarchical TOC into NCX index entries for MOBI 6.
///
/// Entries are taken in pre-order and placed at the byte position their
/// target resolves to. Each entry's section runs to the next position in
/// position order (or the end of the text). Of several entries at one
/// position only the first in reading order is kept; parent and child
/// indices refer to the kept entries.
pub fn flatten_toc_for_mobi(
    entries: &Vec<TocEntry>,
    html_content: &[u8],
    chapter_positions: &PositionMap,
    text_length: u32,
) -> (r: Vec<NcxBuildEntry>)
    requires
        flat(entries@, 0, -1, 0, html_content@, chapter_positions.view()).len() <= 0x7FFF_FFFF,
    ensures
        ncx_view(r@) == toc_ncx(entries@, html_content@, chapter_positions.view(), text_length),
{
    let mut f: Vec<FlatItem> = Vec::new();
    flatten_into(entries, 0, -1, html_content, chapter_positions, &mut f);
    let ghost fv = fi_view(f@);
    assert(fv =~= flat(entries@, 0, -1, 0, html_content@, chapter_positions.view()));
    let n = f.len();
    // index of each entry among the kept entries, -1 for dropped ones
    let mut new_idx: Vec<i32> = Vec::new();
    let mut kept: usize = 0;
    let mut i: usize = 0;
    while i < n
        invariant
            n == f@.len(),
            n <= 0x7FFF_FFFF,
            fv == fi_view(f@),
            i <= n,
            kept == kept_count(fv, i as int),
            new_idx@.len() == i,
            forall|j: int| 0 <= j < i ==> new_idx@[j] == new_index(fv, j),
        decreases n - i,
    {
        proof {
            lemma_kept_count_bound(fv, i as int);
        }
        if pos_in_exec(&f, f[i].pos, 0, i) {
            new_idx.push(-1);
        } else {
            new_idx.push(kept as i32);
            kept = kept + 1;
        }
        i = i + 1;
    }
    let mut out: Vec<NcxBuildEntry> = Vec::new();
    let mut k: usize = 0;
    while k < n
        invariant
            n == f@.len(),
            n <= 0x7FFF_FFFF,
            fv == fi_view(f@),
            k <= n,
            new_idx@.len() == n,
            forall|j: int| 0 <= j < n ==> new_idx@[j] == new_index(fv, j),
            ncx_view(out@) == ncx_entries(fv, text_length, k as int),
        decreases n - k,
    {
        let item = &f[k];
        proof {
            lemma_kept_count_bound(fv, k as int);
        }
        assert(new_idx@[k as int] == new_index(fv, k as int));
        if new_idx[k] >= 0 {
            assert(!dropped(fv, k as int));
            proof {
                lemma_min_greater(fv, item.pos, n as int);
            }
            let length = match min_greater_exec(&f, item.pos) {
                Some(q) => q - item.pos,
                None => if text_length >= item.pos {
                    text_length - item.pos
                } else {
                    0
                },
            };
            let parent: i32 = if item.parent >= 0 && item.parent < n as i64 {
                new_idx[item.parent as usize]
            } else {
                -1
            };
            let (fc, lc) = child_bounds(&f, k);
            proof {
                lemma_child_range(fv, k as int, n as int);
            }
            let first_child = match fc {
                Some(c) => new_idx[c],
                None => -1,
            };
            let last_child = match lc {
                Some(c) => new_idx[c],
                None => -1,
            };
            let e = NcxBuildEntry {
                pos: item.pos,
                length,
                label: item.label.clone(),
                depth: item.depth,
                parent,
                first_child,
                last_child,
            };
            let ghost before = ncx_view(out@);
            out.push(e);
            assert(ncx_view(out@) =~= before.push(ncx_view(out@).last()));
            assert(ncx_view(out@) =~= ncx_entries(fv, text_length, k + 1));
        } else {
            assert(dropped(fv, k as int));
        }
        k = k + 1;
    }
    out
}

proof fn lemma_ncx_entries_len(f: Seq<FlatView>, text_length: u32, k: int)
    requires
        0 <= k <= f.len(),
    ensures
        ncx_entries(f, text_length, k).len() == kept_count(f, k),
    decreases k,
{
    if k > 0 {
        lemma_ncx_entries_len(f, text_length, k - 1);
    }
}

proof fn lemma_kept_count_grows(f: Seq<FlatView>, i: int, k: int)
    requires
        0 <= i < k <= f.len(),
        !dropped(f, i),
    ensures
        kept_count(f, i) < kept_count(f, k),
    decreases k,
{
    if k - 1 > i {
        lemma_kept_count_grows(f, i, k - 1);
    }
}

proof fn lemma_ncx_entries_at(f: Seq<FlatView>, text_length: u32, i: int, k: int)
    requires
        0 <= i < k <= f.len(),
        !dropped(f, i),
    ensures
        ncx_entries(f, text_length, k)[kept_count(f, i) as int] == ncx_entry(f, i, text_length),
    decreases k,
{
    lemma_ncx_entries_len(f, text_length, k - 1);
    if k - 1 > i {
        lemma_ncx_entries_at(f, text_length, i, k - 1);
        lemma_kept_count_grows(f, i, k - 1);
    }
}

proof fn lemma_last_child_is(f: Seq<FlatView>, i: int, c: int, k: int)
    requires
        0 <= c < k <= f.len(),
        f[c].parent == i,
        forall|j: int| c < j < f.len() ==> f[j].parent != i,
    ensures
        last_child_of(f, i, k) == Some(c),
    decreases k,
{
    if k - 1 > c {
        lemma_last_child_is(f, i, c, k - 1);
    }
}

proof fn lemma_no_child_before(f: Seq<FlatView>, i: int, c: int, k: int)
    requires
        0 <= k <= c <= f.len(),
        forall|j: int| 0 <= j < c ==> f[j].parent != i,
    ensures
        first_child_of(f, i, k) is None,
    decreases k,
{
    if k > 0 {
        lemma_no_child_before(f, i, c, k - 1);
    }
}

proof fn lemma_first_child_is(f: Seq<FlatView>, i: int, c: int, k: int)
    requires
        0 <= c < k <= f.len(),
        f[c].parent == i,
        forall|j: int| 0 <= j < c ==> f[j].parent != i,
    ensures
        first_child_of(f, i, k) == Some(c),
    decreases k,
{
    if k - 1 > c {
        lemma_first_child_is(f, i, c, k - 1);
    } else {
        lemma_no_child_before(f, i, c, c);
    }
}

proof fn lemma_childless(f: Seq<FlatView>, i: int, k: int)
    requires
        0 <= k <= f.len(),
        forall|j: int| 0 <= j < f.len() ==> f[j].parent != i,
    ensures
        first_child_of(f, i, k) is None,
        last_child_of(f, i, k) is None,
    decreases k,
{
    if k > 0 {
        lemma_childless(f, i, k - 1);
    }
}

/// The kept entries keep their reading order in the NCX index: of two kept
/// flattened entries, the earlier one has the smaller NCX index, and each
/// has an index inside the index table.
pub proof fn lemma_ncx_order(toc: Seq<TocEntry>, html: Seq<u8>, cp: Seq<(Seq<u8>, u32)>, text_length: u32, i: int, j: int)
    requires
        flat(toc, 0, -1, 0, html, cp).len() <= 0x7FFF_FFFF,
        0 <= i < j < flat(toc, 0, -1, 0, html, cp).len(),
        !dropped(flat(toc, 0, -1, 0, html, cp), i),
        !dropped(flat(toc, 0, -1, 0, html, cp), j),
    ensures
        0 <= new_index(flat(toc, 0, -1, 0, html, cp), i) < new_index(flat(toc, 0, -1, 0, html, cp), j)
            < toc_ncx(toc, html, cp, text_length).len(),
{
    let f = flat(toc, 0, -1, 0, html, cp);
    lemma_kept_count_grows(f, i, j);
    lemma_kept_count_grows(f, j, f.len() as int);
    lemma_kept_count_bound(f, f.len() as int);
    lemma_ncx_entries_len(f, text_length, f.len() as int);
}

/// In the NCX index the first and last child of a kept entry are, by their
/// NCX indices, the first and the last entry in reading order whose parent
/// it is (`-1` for a dropped one); an entry that is nobody's parent has
/// `-1` for both.
pub proof fn lemma_ncx_children(
    toc: Seq<TocEntry>,
    html: Seq<u8>,
    cp: Seq<(Seq<u8>, u32)>,
    text_length: u32,
    i: int,
)
    requires
        flat(toc, 0, -1, 0, html, cp).len() <= 0x7FFF_FFFF,
        0 <= i < flat(toc, 0, -1, 0, html, cp).len(),
        !dropped(flat(toc, 0, -1, 0, html, cp), i),
    ensures
        ({
            let f = flat(toc, 0, -1, 0, html, cp);
            let e = toc_ncx(toc, html, cp, text_length)[new_index(f, i) as int];
            &&& 0 <= new_index(f, i) < toc_ncx(toc, html, cp, text_length).len()
            &&& forall|c: int|
                0 <= c < f.len() && f[c].parent == i && (forall|j: int| 0 <= j < c ==> f[j].parent != i)
                    ==> e.first_child == new_index(f, c)
            &&& forall|c: int|
                0 <= c < f.len() && f[c].parent == i && (forall|j: int| c < j < f.len() ==> f[j].parent != i)
                    ==> e.last_child == new_index(f, c)
            &&& (forall|j: int| 0 <= j < f.len() ==> f[j].parent != i) ==> e.first_child == -1
                && e.last_child == -1
        }),
{
    let f = flat(toc, 0, -1, 0, html, cp);
    let n = f.len() as int;
    lemma_kept_count_grows(f, i, n);
    lemma_kept_count_bound(f, n);
    lemma_ncx_entries_len(f, text_length, n);
    lemma_ncx_entries_at(f, text_length, i, n);
    let e = toc_ncx(toc, html, cp, text_length)[new_index(f, i) as int];
    assert(e == ncx_entry(f, i, text_length));
    assert forall|c: int|
        0 <= c < f.len() && f[c].parent == i && (forall|j: int| 0 <= j < c ==> f[j].parent != i)
        implies e.first_child == new_index(f, c) by {
        lemma_first_child_is(f, i, c, n);
    }
    assert forall|c: int|
        0 <= c < f.len() && f[c].parent == i && (forall|j: int| c < j < f.len() ==> f[j].parent != i)
        implies e.last_child == new_index(f, c) by {
        lemma_last_child_is(f, i, c, n);
    }
    if forall|j: int| 0 <= j < f.len() ==> f[j].parent != i {
        lemma_childless(f, i, n);
    }
}

/// Number of entries in a nested table of contents.
pub open spec fn toc_count(es: Seq<TocEntry>) -> nat
    decreases es,
{
    if es.len() == 0 {
        0
    } else {
        toc_count(es.drop_last()) + 1 + toc_count(es.last().children@)
    }
}

/// Flattening keeps every entry.
pub proof fn lemma_flat_len(
    es: Seq<TocEntry>,
    depth: nat,
    parent: int,
    base: nat,
    html: Seq<u8>,
    cp: Seq<(Seq<u8>, u32)>,
)
    ensures
        flat(es, depth, parent, base, html, cp).len() == toc_count(es),
    decreases es,
{
    if es.len() > 0 {
        lemma_flat_len(es.drop_last(), depth, parent, base, html, cp);
        let pre = flat(es.drop_last(), depth, parent, base, html, cp);
        let idx = base + pre.len();
        lemma_flat_len(es.last().children@, depth + 1, idx as int, idx + 1, html, cp);
    }
}

/// The number of entries, or `cap` when there are at least that many.
pub fn count_toc(es: &Vec<TocEntry>, cap: u64) -> (r: u64)
    ensures
        r == (if toc_count(es@) < cap { toc_count(es@) } else { cap as nat }),
    decreases es@,
{
    let mut acc: u64 = 0;
    let mut k: usize = 0;
    while k < es.len()
        invariant
            k <= es@.len(),
            acc <= cap,
            acc == (if toc_count(es@.subrange(0, k as int)) < cap { toc_count(es@.subrange(0, k as int)) } else { cap as nat }),
        decreases es@.len() - k,
    {
        proof {
            assert(es@.subrange(0, k + 1).drop_last() =~= es@.subrange(0, k as int));
            assert(es@.subrange(0, k + 1).last() == es@[k as int]);
            assert(decreases_to!(es@ => es@[k as int]));
        }
        if acc < cap {
            acc = acc + 1;
            if acc < cap {
                let c = count_toc(&es[k].children, cap - acc);
                acc = acc + c;
            }
        }
        k = k + 1;
    }
    assert(es@.subrange(0, es@.len() as int) =~= es@);
    acc
}

/// Variable-width integer as in MOBI trailing data: seven bits per byte,
/// least significant first, the high bit set on every byte but the last.
pub open spec fn vwi(v: nat) -> Seq<u8>
    decreases v,
{
    if v < 128 {
        seq![v as u8]
    } else {
        seq![(v % 128 + 128) as u8] + vwi(v / 128)
    }
}

fn encode_vwi(out: &mut Vec<u8>, val: u32)
    ensures
        final(out)@ == old(out)@ + vwi(val as nat),
{
    let ghost start = out@;
    let mut v = val;
    loop
        invariant
            start == old(out)@,
            start + vwi(val as nat) == out@ + vwi(v as nat),
        decreases v,
    {
        let low = (v % 128) as u8;
        if v < 128 {
            out.push(low);
            assert(out@ =~= start + vwi(val as nat));
            return;
        }
        let ghost before = out@;
        out.push(low + 128);
        assert(vwi(v as nat) == seq![(v % 128 + 128) as u8] + vwi((v / 128) as nat));
        assert(before + vwi(v as nat) =~= out@ + vwi((v / 128) as nat));
        v = v / 128;
    }
}

/// Trailing byte sequence for TOC entries that fall within a text record:
/// the `(offset, length)` pairs as variable-width integers, preceded by their
/// total size encoded backwards; nothing when there are no entries.
pub open spec fn trailing_data(entries: Seq<(u32, u32)>) -> Seq<u8> {
    if entries.len() == 0 {
        Seq::empty()
    } else {
        let data = trailing_pairs(entries);
        vwi((data.len() as u32) as nat).reverse() + data
    }
}

/// The pairs, each offset then length, as variable-width integers.
pub open spec fn trailing_pairs(entries: Seq<(u32, u32)>) -> Seq<u8>
    decreases entries.len(),
{
    if entries.len() == 0 {
        Seq::empty()
    } else {
        trailing_pairs(entries.drop_last()) + vwi(entries.last().0 as nat) + vwi(entries.last().1 as nat)
    }
}

/// Encode trailing byte sequence (TBS) for a text record.
pub fn encode_trailing_data(entries: &[(u32, u32)]) -> (r: Vec<u8>)
    ensures
        r@ == trailing_data(entries@),
{
    if entries.len() == 0 {
        return Vec::new();
    }
    let mut data: Vec<u8> = Vec::new();
    let mut i: usize = 0;
    while i < entries.len()
        invariant
            i <= entries@.len(),
            data@ == trailing_pairs(entries@.subrange(0, i as int)),
        decreases entries@.len() - i,
    {
        let (off, len) = entries[i];
        encode_vwi(&mut data, off);
        encode_vwi(&mut data, len);
        assert(entries@.subrange(0, i + 1).drop_last() =~= entries@.subrange(0, i as int));
        i = i + 1;
    }
    assert(entries@.subrange(0, entries@.len() as int) =~= entries@);
    let size = #[verifier::truncate] (data.len() as u32);
    let mut size_bytes: Vec<u8> = Vec::new();
    encode_vwi(&mut size_bytes, size);
    let mut result: Vec<u8> = Vec::new();
    let mut k = size_bytes.len();
    while k > 0
        invariant
            k <= size_bytes@.len(),
            result@ == size_bytes@.reverse().subrange(0, (size_bytes@.len() - k) as int),
        decreases k,
    {
        k = k - 1;
        result.push(size_bytes[k]);
        assert(result@ =~= size_bytes@.reverse().subrange(0, (size_bytes@.len() - k) as int));
    }
    assert(size_bytes@.reverse().subrange(0, size_bytes@.len() as int) =~= size_bytes@.reverse());
    push_all(&mut result, &data);
    result
}

} // verus!
