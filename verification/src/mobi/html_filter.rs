//! HTML filtering for MOBI 6 compatibility.
//!
//! MOBI 6 supports a limited subset of HTML tags. This module names that
//! subset and removes the Kindle-internal artifacts (page breaks, byte
//! position anchors, Amazon attributes) from HTML bound for other formats.

use std::collections::HashMap;
use vstd::prelude::*;
use crate::text::{ascii_bytes, lit, str_bytes, str_chars, string_from_utf8_lossy, to_lowercase, utf8, utf8_lossy, lowercase};
use crate::util::{bytes_match_at, find_bytes, find_from, lemma_find_from, match_at, push_range, replace_all, replace_bytes};

verus! {

/// A lowercase tag name that MOBI 6 readers render: `h1`..`h6`, `p`, `br`,
/// `i`, `b`, `u`, `ul`, `ol`, `li`, `table`, `tr`, `td`, `th`, `img`, `div`
/// and `span`.
pub open spec fn is_mobi6_tag(t: Seq<char>) -> bool {
    ||| t.len() == 1 && (t[0] == 'p' || t[0] == 'i' || t[0] == 'b' || t[0] == 'u')
    ||| t.len() == 2 && t[0] == 'h' && ('1' <= t[1] && t[1] <= '6')
    ||| t.len() == 2 && (
        (t[0] == 'b' && t[1] == 'r')
        || (t[0] == 'u' && t[1] == 'l')
        || (t[0] == 'o' && t[1] == 'l')
        || (t[0] == 'l' && t[1] == 'i')
        || (t[0] == 't' && t[1] == 'r')
        || (t[0] == 't' && t[1] == 'd')
        || (t[0] == 't' && t[1] == 'h'))
    ||| t.len() == 3 && ((t[0] == 'i' && t[1] == 'm' && t[2] == 'g')
        || (t[0] == 'd' && t[1] == 'i' && t[2] == 'v'))
    ||| t.len() == 4 && t[0] == 's' && t[1] == 'p' && t[2] == 'a' && t[3] == 'n'
    ||| t.len() == 5 && t[0] == 't' && t[1] == 'a' && t[2] == 'b' && t[3] == 'l' && t[4] == 'e'
}

/// Whether an already lowercased tag name is one MOBI 6 supports.
pub fn is_mobi6_tag_name(name: &str) -> (r: bool)
    ensures
        r == is_mobi6_tag(name@),
{
    let t = str_chars(name);
    let n = t.len();
    if n == 1 {
        t[0] == 'p' || t[0] == 'i' || t[0] == 'b' || t[0] == 'u'
    } else if n == 2 {
        let a = t[0];
        let b = t[1];
        (a == 'h' && (b == '1' || b == '2' || b == '3' || b == '4' || b == '5' || b == '6'))
            || (a == 'b' && b == 'r') || (a == 'u' && b == 'l') || (a == 'o' && b == 'l')
            || (a == 'l' && b == 'i') || (a == 't' && b == 'r') || (a == 't' && b == 'd')
            || (a == 't' && b == 'h')
    } else if n == 3 {
        (t[0] == 'i' && t[1] == 'm' && t[2] == 'g') || (t[0] == 'd' && t[1] == 'i' && t[2] == 'v')
    } else if n == 4 {
        t[0] == 's' && t[1] == 'p' && t[2] == 'a' && t[3] == 'n'
    } else if n == 5 {
        t[0] == 't' && t[1] == 'a' && t[2] == 'b' && t[3] == 'l' && t[4] == 'e'
    } else {
        false
    }
}

/// Check if a tag is supported in MOBI 6: its lowercase form (by
/// `str::to_lowercase`) is one of the supported names.
pub fn is_supported_tag(tag: &str) -> (r: bool)
    ensures
        r == is_mobi6_tag(lowercase(tag@)),
        vstd::utf8::is_ascii_chars(tag@) ==> r == is_mobi6_tag(
            tag@.map_values(|c: char| crate::text::ascii_lower_char(c)),
        ),
{
    let lower = to_lowercase(tag);
    is_mobi6_tag_name(lower.as_str())
}

/// An ASCII letter.
pub open spec fn is_ascii_letter(b: u8) -> bool {
    (65 <= b <= 90) || (97 <= b <= 122)
}

/// A byte of a tag name: an ASCII letter or digit.
pub open spec fn is_name_byte(b: u8) -> bool {
    is_ascii_letter(b) || (48 <= b <= 57)
}

/// Where the tag name starting at `j` ends.
pub open spec fn tag_name_end(s: Seq<u8>, j: int) -> int
    decreases s.len() - j,
{
    if 0 <= j < s.len() && is_name_byte(s[j]) {
        tag_name_end(s, j + 1)
    } else {
        j
    }
}

/// The characters of ASCII bytes, lowercased.
pub open spec fn lower_chars(b: Seq<u8>) -> Seq<char> {
    Seq::new(
        b.len(),
        |i: int|
            (if 65 <= b[i] <= 90 {
                (b[i] + 32) as u8
            } else {
                b[i]
            }) as char,
    )
}

/// The characters of ASCII bytes.
pub open spec fn ascii_chars(b: Seq<u8>) -> Seq<char> {
    Seq::new(b.len(), |i: int| b[i] as char)
}

/// A tag at `i`: `<` (or `</`) and a name starting with a letter, up to
/// the next `>`; its name's bounds and the position after the tag.
pub open spec fn tag_at(s: Seq<u8>, i: int) -> Option<(int, int, int)> {
    if 0 <= i < s.len() && s[i] == 60 {
        let j = if i + 1 < s.len() && s[i + 1] == 47 {
            i + 2
        } else {
            i + 1
        };
        if j < s.len() && is_ascii_letter(s[j]) {
            let k = tag_name_end(s, j);
            match find_from(s, ascii_bytes(">"@), k) {
                Some(g) => Some((j, k, g + 1)),
                None => None,
            }
        } else {
            None
        }
    } else {
        None
    }
}

/// A tag's name lies after its `<` and before its end, within the text.
pub proof fn lemma_tag_at(s: Seq<u8>, i: int)
    ensures
        tag_at(s, i) matches Some((j, k, e)) ==> i < j <= k < e <= s.len(),
{
    reveal_strlit(">");
    if 0 <= i < s.len() && s[i] == 60 {
        let j = if i + 1 < s.len() && s[i + 1] == 47 {
            i + 2
        } else {
            i + 1
        };
        if j < s.len() && is_ascii_letter(s[j]) {
            lemma_tag_name_end(s, j);
            lemma_find_from(s, ascii_bytes(">"@), tag_name_end(s, j));
        }
    }
}

/// A tag name ends within the text, and all its bytes are name bytes.
pub proof fn lemma_tag_name_end(s: Seq<u8>, j: int)
    requires
        0 <= j <= s.len(),
    ensures
        j <= tag_name_end(s, j) <= s.len(),
        forall|q: int| j <= q < tag_name_end(s, j) ==> is_name_byte(#[trigger] s[q]),
    decreases s.len() - j,
{
    if j < s.len() && is_name_byte(s[j]) {
        lemma_tag_name_end(s, j + 1);
    }
}

/// The warning for a dropped tag: `Unsupported tag removed: <name>`.
pub open spec fn tag_warning(name: Seq<u8>) -> Seq<char> {
    "Unsupported tag removed: "@ + ascii_chars(name)
}

/// `s[i..]` with every tag whose lowercased name is not a MOBI 6 tag
/// removed, and one warning per removed tag, in order.
pub open spec fn filter_tags_from(s: Seq<u8>, i: int) -> (Seq<u8>, Seq<Seq<char>>)
    decreases s.len() - i,
{
    if i < 0 || i >= s.len() {
        (Seq::empty(), Seq::empty())
    } else {
        match tag_at(s, i) {
            Some((j, k, e)) => {
                proof {
                    lemma_tag_at(s, i);
                }
                let rest = filter_tags_from(s, e);
                if is_mobi6_tag(lower_chars(s.subrange(j, k))) {
                    (s.subrange(i, e) + rest.0, rest.1)
                } else {
                    (rest.0, seq![tag_warning(s.subrange(j, k))] + rest.1)
                }
            },
            None => {
                let rest = filter_tags_from(s, i + 1);
                (seq![s[i]] + rest.0, rest.1)
            },
        }
    }
}

fn tag_at_exec(s: &[u8], i: usize) -> (r: Option<(usize, usize, usize)>)
    requires
        i < s.len(),
    ensures
        (match r {
            Some((j, k, e)) => Some((j as int, k as int, e as int)),
            None => None,
        }) == tag_at(s@, i as int),
{
    proof {
        reveal_strlit(">");
        lemma_tag_at(s@, i as int);
    }
    let n = s.len();
    if s[i] != 60 {
        return None;
    }
    let j = if i + 1 < n && s[i + 1] == 47 {
        i + 2
    } else {
        i + 1
    };
    if j >= n || !((65 <= s[j] && s[j] <= 90) || (97 <= s[j] && s[j] <= 122)) {
        return None;
    }
    let mut k = j;
    while k < n && ((65 <= s[k] && s[k] <= 90) || (97 <= s[k] && s[k] <= 122) || (48 <= s[k] && s[k] <= 57))
        invariant
            j <= k <= n,
            n == s@.len(),
            tag_name_end(s@, j as int) == tag_name_end(s@, k as int),
        decreases n - k,
    {
        k = k + 1;
    }
    match find_bytes(s, lit(">"), k) {
        Some(g) => Some((j, k, g + 1)),
        None => None,
    }
}

fn name_chars(s: &[u8], j: usize, k: usize, lower: bool) -> (r: String)
    requires
        j <= k <= s.len(),
    ensures
        lower ==> r@ == lower_chars(s@.subrange(j as int, k as int)),
        !lower ==> r@ == ascii_chars(s@.subrange(j as int, k as int)),
{
    let mut c: Vec<char> = Vec::new();
    let mut q = j;
    while q < k
        invariant
            j <= q <= k <= s.len(),
            c@.len() == q - j,
            lower ==> forall|t: int| 0 <= t < q - j ==> #[trigger] c@[t] == lower_chars(s@.subrange(j as int, k as int))[t],
            !lower ==> forall|t: int| 0 <= t < q - j ==> #[trigger] c@[t] == ascii_chars(s@.subrange(j as int, k as int))[t],
        decreases k - q,
    {
        let b = s[q];
        let x = if lower && 65 <= b && b <= 90 { b + 32 } else { b };
        c.push(x as char);
        q = q + 1;
    }
    if lower {
        assert(c@ =~= lower_chars(s@.subrange(j as int, k as int)));
    } else {
        assert(c@ =~= ascii_chars(s@.subrange(j as int, k as int)));
    }
    crate::text::string_from_chars(&c)
}

fn make_tag_warning(s: &[u8], j: usize, k: usize) -> (r: String)
    requires
        j <= k <= s.len(),
    ensures
        r@ == tag_warning(s@.subrange(j as int, k as int)),
{
    proof {
        reveal_strlit("Unsupported tag removed: ");
    }
    let mut c = str_chars("Unsupported tag removed: ");
    let name = name_chars(s, j, k, false);
    let nc = str_chars(name.as_str());
    let ghost c0 = c@;
    let mut q: usize = 0;
    while q < nc.len()
        invariant
            q <= nc@.len(),
            c@ == c0 + nc@.subrange(0, q as int),
        decreases nc@.len() - q,
    {
        c.push(nc[q]);
        q = q + 1;
        assert(c@ =~= c0 + nc@.subrange(0, q as int));
    }
    assert(c@ =~= tag_warning(s@.subrange(j as int, k as int)));
    crate::text::string_from_chars(&c)
}

/// The byte-level core of `filter_html_for_mobi6`: the HTML with every tag
/// that MOBI 6 does not support removed (its content stays), and a warning
/// per removed tag.
pub fn filter_tags(s: &[u8]) -> (r: (Vec<u8>, Vec<String>))
    ensures
        r.0@ == filter_tags_from(s@, 0).0,
        r.1@.map_values(|w: String| w@) == filter_tags_from(s@, 0).1,
{
    let mut out: Vec<u8> = Vec::new();
    let mut warnings: Vec<String> = Vec::new();
    let mut i: usize = 0;
    while i < s.len()
        invariant
            i <= s@.len(),
            out@ + filter_tags_from(s@, i as int).0 == filter_tags_from(s@, 0).0,
            warnings@.map_values(|w: String| w@) + filter_tags_from(s@, i as int).1 == filter_tags_from(s@, 0).1,
        decreases s@.len() - i,
    {
        let ghost o0 = out@;
        let ghost w0 = warnings@.map_values(|w: String| w@);
        let ghost cur = filter_tags_from(s@, i as int);
        proof {
            lemma_tag_at(s@, i as int);
        }
        match tag_at_exec(s, i) {
            Some((j, k, e)) => {
                let name = name_chars(s, j, k, true);
                if crate::mobi::html_filter::is_mobi6_tag_name(name.as_str()) {
                    crate::util::push_range(&mut out, s, i, e);
                    assert(out@ + filter_tags_from(s@, e as int).0 =~= o0 + cur.0);
                    assert(warnings@.map_values(|w: String| w@) + filter_tags_from(s@, e as int).1 =~= w0 + cur.1);
                } else {
                    let w = make_tag_warning(s, j, k);
                    warnings.push(w);
                    assert(warnings@.map_values(|w: String| w@) =~= w0.push(tag_warning(s@.subrange(j as int, k as int))));
                    assert(out@ + filter_tags_from(s@, e as int).0 =~= o0 + cur.0);
                    assert(warnings@.map_values(|w: String| w@) + filter_tags_from(s@, e as int).1 =~= w0 + cur.1);
                }
                i = e;
            },
            None => {
                out.push(s[i]);
                assert(out@ + filter_tags_from(s@, i + 1).0 =~= o0 + cur.0);
                i = i + 1;
            },
        }
    }
    assert(out@ =~= filter_tags_from(s@, 0).0);
    assert(warnings@.map_values(|w: String| w@) =~= filter_tags_from(s@, 0).1);
    (out, warnings)
}

/// Filter HTML to MOBI 6 supported tags.
///
/// Returns (filtered_html, warnings): every tag (`<name ...>`, `</name>`,
/// `<name/>`) whose lowercased name is not a MOBI 6 tag is removed, its
/// content kept, with one warning per removed tag; the bytes left are read
/// back as text by `String::from_utf8_lossy`. The image map is not
/// consulted.
pub fn filter_html_for_mobi6(html: &str, _image_map: &HashMap<String, u32>) -> (r: (String, Vec<String>))
    ensures
        r.0@ == utf8_lossy(filter_tags_from(utf8(html@), 0).0),
        vstd::utf8::valid_utf8(filter_tags_from(utf8(html@), 0).0) ==> r.0@ == vstd::utf8::decode_utf8(
            filter_tags_from(utf8(html@), 0).0,
        ),
        r.1@.map_values(|w: String| w@) == filter_tags_from(utf8(html@), 0).1,
{
    let bytes = str_bytes(html);
    let (out, warnings) = filter_tags(bytes.as_slice());
    (string_from_utf8_lossy(out.as_slice()), warnings)
}

/// Space that separates attributes inside a tag: space, tab, line feed,
/// carriage return.
pub open spec fn is_attr_space(b: u8) -> bool {
    b == 32 || b == 9 || b == 10 || b == 13
}

/// A byte that ends an attribute name: space, `=`, `>` or `/`.
pub open spec fn ends_attr_name(b: u8) -> bool {
    is_attr_space(b) || b == 61 || b == 62 || b == 47
}

/// Where the attribute name starting at `j` ends: the first byte at or after
/// `j` that ends a name, or the end of `s`.
pub open spec fn attr_name_end(s: Seq<u8>, j: int) -> int
    decreases s.len() - j,
{
    if j < 0 || j >= s.len() || ends_attr_name(s[j]) {
        j
    } else {
        attr_name_end(s, j + 1)
    }
}

/// The name `s[j..k]` is `aid` or `recindex`, or starts with `data-amzn` /
/// `data-Amzn`.
pub open spec fn is_kindle_attr_name(s: Seq<u8>, j: int, k: int) -> bool {
    ||| k - j == 3 && match_at(s, ascii_bytes("aid"@), j)
    ||| k - j == 8 && match_at(s, ascii_bytes("recindex"@), j)
    ||| k - j >= 9 && match_at(s, ascii_bytes("data-amzn"@), j)
    ||| k - j >= 9 && match_at(s, ascii_bytes("data-Amzn"@), j)
}

/// When a Kindle attribute (`name="value"` or `name='value'`) starts at `j`,
/// the position just after its closing quote.
pub open spec fn kindle_attr_end(s: Seq<u8>, j: int) -> Option<int> {
    let k = attr_name_end(s, j);
    if is_kindle_attr_name(s, j, k) && k + 1 < s.len() && s[k] == 61 && (s[k + 1] == 34
        || s[k + 1] == 39) {
        match find_from(s, seq![s[k + 1]], k + 2) {
            Some(q) => Some(q + 1),
            None => None,
        }
    } else {
        None
    }
}

/// Inside a tag, a space at `i` followed by a Kindle attribute: the position
/// just after that attribute.
pub open spec fn attr_skip(s: Seq<u8>, i: int) -> Option<int> {
    if 0 <= i < s.len() && is_attr_space(s[i]) {
        match kindle_attr_end(s, i + 1) {
            Some(e) => if i < e <= s.len() {
                Some(e)
            } else {
                None
            },
            None => None,
        }
    } else {
        None
    }
}

/// `s[i..]` with each Kindle attribute inside a tag removed together with
/// the space before it; `in_tag` says whether `i` lies between a `<` and the
/// next `>`.
pub open spec fn strip_attrs_from(s: Seq<u8>, i: int, in_tag: bool) -> Seq<u8>
    decreases s.len() - i,
{
    if i < 0 || i >= s.len() {
        Seq::empty()
    } else if !in_tag {
        seq![s[i]] + strip_attrs_from(s, i + 1, s[i] == 60)
    } else if s[i] == 62 {
        seq![s[i]] + strip_attrs_from(s, i + 1, false)
    } else if attr_skip(s, i) is Some {
        strip_attrs_from(s, attr_skip(s, i)->0, true)
    } else {
        seq![s[i]] + strip_attrs_from(s, i + 1, true)
    }
}

/// The Kindle attributes (`aid`, `recindex`, `data-amzn*`, `data-Amzn*`) of every tag
/// removed from `s`.
pub open spec fn strip_kindle_attrs(s: Seq<u8>) -> Seq<u8> {
    strip_attrs_from(s, 0, false)
}

fn attr_name_end_at(s: &[u8], j: usize) -> (k: usize)
    requires
        j <= s.len(),
    ensures
        k as int == attr_name_end(s@, j as int),
        j <= k <= s.len(),
{
    let mut k = j;
    while k < s.len() && !(s[k] == 32 || s[k] == 9 || s[k] == 10 || s[k] == 13 || s[k] == 61
        || s[k] == 62 || s[k] == 47)
        invariant
            j <= k <= s.len(),
            attr_name_end(s@, j as int) == attr_name_end(s@, k as int),
        decreases s.len() - k,
    {
        k = k + 1;
    }
    k
}

fn kindle_attr_end_at(s: &[u8], j: usize) -> (r: Option<usize>)
    requires
        j <= s.len(),
    ensures
        match r {
            Some(e) => kindle_attr_end(s@, j as int) == Some(e as int) && j < e <= s.len(),
            None => kindle_attr_end(s@, j as int) is None,
        },
{
    proof {
        reveal_strlit("aid");
        reveal_strlit("recindex");
        reveal_strlit("data-amzn");
        reveal_strlit("data-Amzn");
    }
    let k = attr_name_end_at(s, j);
    let named = (k - j == 3 && bytes_match_at(s, lit("aid"), j)) || (k - j == 8 && bytes_match_at(
        s,
        lit("recindex"),
        j,
    )) || (k - j >= 9 && (
    bytes_match_at(s, lit("data-amzn"), j) || bytes_match_at(s, lit("data-Amzn"), j)));
    if !named || k >= s.len() || s.len() - k < 2 || s[k] != 61 || !(s[k + 1] == 34 || s[k + 1] == 39) {
        return None;
    }
    let quote: [u8; 1] = [s[k + 1]];
    proof {
        assert(quote@ =~= seq![s@[k + 1]]);
        lemma_find_from(s@, quote@, k + 2);
    }
    match find_bytes(s, quote.as_slice(), k + 2) {
        Some(q) => Some(q + 1),
        None => None,
    }
}

/// Whether a tag is open after byte `b`, given whether one was open before
/// it: `<` opens a tag, `>` closes it.
pub open spec fn tag_open_after(open: bool, b: u8) -> bool {
    if open {
        b != 62
    } else {
        b == 60
    }
}

/// Whether position `p` of `x` lies inside a tag, reading `x` from its
/// start with `open` as the state before its first byte.
pub open spec fn inside_tag(x: Seq<u8>, open: bool, p: int) -> bool
    decreases p,
{
    if p <= 0 || x.len() == 0 {
        open
    } else {
        inside_tag(x.drop_first(), tag_open_after(open, x[0]), p - 1)
    }
}

/// A byte after which no attribute name goes on: space, `>` or `/`.
pub open spec fn closes_attr(b: u8) -> bool {
    is_attr_space(b) || b == 62 || b == 47
}

/// Every Kindle attribute of `s` is followed by a space, `>`, `/` or the
/// end of the text, as attributes are in well-formed HTML.
pub open spec fn kindle_attrs_end_cleanly(s: Seq<u8>) -> bool {
    forall|j: int|
        #[trigger] attr_skip(s, j) is Some ==> ({
            let e = attr_skip(s, j)->0;
            e >= s.len() || closes_attr(s[e])
        })
}

proof fn lemma_attr_name_end_bytes(x: Seq<u8>, j: int)
    requires
        0 <= j,
    ensures
        j <= attr_name_end(x, j),
        attr_name_end(x, j) <= x.len() || attr_name_end(x, j) == j,
        forall|t: int| j <= t < attr_name_end(x, j) ==> !ends_attr_name(#[trigger] x[t]),
        attr_name_end(x, j) < x.len() ==> ends_attr_name(x[attr_name_end(x, j)]),
    decreases x.len() - j,
{
    if j < x.len() && !ends_attr_name(x[j]) {
        lemma_attr_name_end_bytes(x, j + 1);
    }
}

proof fn lemma_attr_name_end_at(s: Seq<u8>, j: int, m: int)
    requires
        0 <= j <= m < s.len(),
        forall|t: int| j <= t < m ==> !ends_attr_name(#[trigger] s[t]),
        ends_attr_name(s[m]),
    ensures
        attr_name_end(s, j) == m,
    decreases m - j,
{
    if j < m {
        lemma_attr_name_end_at(s, j + 1, m);
    }
}

proof fn lemma_match_at_same(x: Seq<u8>, a: int, y: Seq<u8>, b: int, pat: Seq<u8>, len: int)
    requires
        0 <= a,
        0 <= b,
        a + len <= x.len(),
        b + len <= y.len(),
        pat.len() <= len,
        forall|t: int| a <= t < a + len ==> #[trigger] x[t] == y[t - a + b],
    ensures
        match_at(x, pat, a) == match_at(y, pat, b),
{
    let pl = pat.len() as int;
    assert forall|t: int| 0 <= t < pl implies #[trigger] x.subrange(a, a + pl)[t] == y.subrange(b, b + pl)[t] by {
        assert(x[a + t] == y[(a + t) - a + b]);
    }
    assert(x.subrange(a, a + pl) =~= y.subrange(b, b + pl));
}

/// A removed Kindle attribute is followed, in the output, by a byte that
/// closes attributes (or by nothing).
proof fn lemma_after_skip(s: Seq<u8>, j: int)
    requires
        kindle_attrs_end_cleanly(s),
        attr_skip(s, j) is Some,
    ensures
        strip_attrs_from(s, j, true).len() == 0 || closes_attr(strip_attrs_from(s, j, true)[0]),
    decreases s.len() - j,
{
    let e = attr_skip(s, j)->0;
    assert(attr_skip(s, j) is Some);
    assert(0 <= j < s.len() && is_attr_space(s[j]) && j < e <= s.len());
    assert(strip_attrs_from(s, j, true) == strip_attrs_from(s, e, true));
    assert(e >= s.len() || closes_attr(s[e]));
    if e < s.len() {
        if s[e] == 62 {
        } else if attr_skip(s, e) is Some {
            lemma_after_skip(s, e);
        } else {
        }
    }
}

/// Output bytes that do not close attributes come from the input one for
/// one, with nothing removed between them.
proof fn lemma_output_contiguous(s: Seq<u8>, j: int, n: int)
    requires
        kindle_attrs_end_cleanly(s),
        0 <= j <= s.len(),
        0 <= n <= strip_attrs_from(s, j, true).len(),
        forall|t: int| 0 <= t < n ==> !closes_attr(#[trigger] strip_attrs_from(s, j, true)[t]),
    ensures
        j + n <= s.len(),
        strip_attrs_from(s, j, true).subrange(0, n) == s.subrange(j, j + n),
        strip_attrs_from(s, j, true).subrange(n, strip_attrs_from(s, j, true).len() as int)
            == strip_attrs_from(s, j + n, true),
    decreases n,
{
    let y = strip_attrs_from(s, j, true);
    if n == 0 {
        assert(y.subrange(0, 0) =~= s.subrange(j, j));
        assert(y.subrange(0, y.len() as int) =~= y);
    } else {
        assert(!closes_attr(y[0]));
        if attr_skip(s, j) is Some && s[j] != 62 {
            lemma_after_skip(s, j);
        }
        let y1 = strip_attrs_from(s, j + 1, true);
        assert(y == seq![s[j]] + y1);
        assert forall|t: int| 0 <= t < n - 1 implies !closes_attr(#[trigger] y1[t]) by {
            assert(y1[t] == y[t + 1]);
        }
        lemma_output_contiguous(s, j + 1, n - 1);
        assert(y.subrange(0, n) =~= seq![s[j]] + y1.subrange(0, n - 1));
        assert(y.subrange(0, n) =~= s.subrange(j, j + n));
        assert(y.subrange(n, y.len() as int) =~= y1.subrange(n - 1, y1.len() as int));
    }
}

/// Every output byte is a byte of the input at or after `j`.
proof fn lemma_output_from_input(s: Seq<u8>, j: int, st: bool, t: int)
    requires
        0 <= j,
        0 <= t < strip_attrs_from(s, j, st).len(),
    ensures
        exists|u: int| j <= u < s.len() && s[u] == strip_attrs_from(s, j, st)[t],
    decreases s.len() - j,
{
    let y = strip_attrs_from(s, j, st);
    if j < s.len() {
        if st && s[j] != 62 && attr_skip(s, j) is Some {
            let e = attr_skip(s, j)->0;
            lemma_output_from_input(s, e, true, t);
        } else {
            let st1 = if !st {
                s[j] == 60
            } else if s[j] == 62 {
                false
            } else {
                true
            };
            let y1 = strip_attrs_from(s, j + 1, st1);
            assert(y == seq![s[j]] + y1);
            if t == 0 {
                assert(s[j] == y[0]);
            } else {
                assert(y[t] == y1[t - 1]);
                lemma_output_from_input(s, j + 1, st1, t - 1);
            }
        }
    }
}

/// A space inside a tag that is kept in the output is not followed there by
/// a Kindle attribute.
proof fn lemma_kept_space(s: Seq<u8>, i: int)
    requires
        kindle_attrs_end_cleanly(s),
        0 <= i < s.len(),
        is_attr_space(s[i]),
        attr_skip(s, i) is None,
    ensures
        attr_skip(seq![s[i]] + strip_attrs_from(s, i + 1, true), 0) is None,
{
    reveal_strlit("aid");
    reveal_strlit("recindex");
    reveal_strlit("data-amzn");
    reveal_strlit("data-Amzn");
    let rest = strip_attrs_from(s, i + 1, true);
    let x = seq![s[i]] + rest;
    if attr_skip(x, 0) is Some {
        assert(kindle_attr_end(x, 1) is Some);
        let k = attr_name_end(x, 1);
        lemma_attr_name_end_bytes(x, 1);
        assert(is_kindle_attr_name(x, 1, k) && k + 1 < x.len() && x[k] == 61 && (x[k + 1] == 34 || x[k + 1] == 39));
        let qc = x[k + 1];
        assert forall|t: int| 0 <= t < k + 1 implies !closes_attr(#[trigger] rest[t]) by {
            assert(rest[t] == x[t + 1]);
            if t + 1 < k {
                assert(!ends_attr_name(x[t + 1]));
            }
        }
        lemma_output_contiguous(s, i + 1, k + 1);
        assert forall|t: int| 1 <= t < k + 2 implies #[trigger] x[t] == s[t + i] by {
            assert(rest.subrange(0, k + 1)[t - 1] == s.subrange(i + 1, i + 1 + k + 1)[t - 1]);
        }
        assert forall|t: int| i + 1 <= t < i + k implies !ends_attr_name(#[trigger] s[t]) by {
            assert(x[t - i] == s[(t - i) + i]);
        }
        assert(x[k] == s[k + i]);
        assert(x[k + 1] == s[k + 1 + i]);
        lemma_attr_name_end_at(s, i + 1, i + k);
        assert forall|t: int| 1 <= t < 1 + (k - 1) implies #[trigger] x[t] == s[t - 1 + (i + 1)] by {
            assert(x[t] == s[t + i]);
        }
        if k - 1 >= 3 {
            lemma_match_at_same(x, 1, s, i + 1, ascii_bytes("aid"@), k - 1);
        }
        if k - 1 >= 8 {
            lemma_match_at_same(x, 1, s, i + 1, ascii_bytes("recindex"@), k - 1);
        }
        if k - 1 >= 9 {
            lemma_match_at_same(x, 1, s, i + 1, ascii_bytes("data-amzn"@), k - 1);
            lemma_match_at_same(x, 1, s, i + 1, ascii_bytes("data-Amzn"@), k - 1);
        }
        assert(is_kindle_attr_name(s, i + 1, i + k));
        assert(s[i + k + 1] == qc);
        lemma_find_from(x, seq![qc], k + 2);
        let qp = find_from(x, seq![qc], k + 2)->0;
        assert(x.subrange(qp, qp + 1)[0] == x[qp]);
        let tail = strip_attrs_from(s, i + k + 2, true);
        assert(x[qp] == rest[qp - 1]);
        assert(rest[qp - 1] == rest.subrange(k + 1, rest.len() as int)[qp - 1 - (k + 1)]);
        assert(tail[qp - k - 2] == qc);
        lemma_output_from_input(s, i + k + 2, true, qp - k - 2);
        let u = choose|u: int| i + k + 2 <= u < s.len() && s[u] == tail[qp - k - 2];
        assert(s[u] == qc);
        assert(s.subrange(u, u + 1) =~= seq![qc]);
        assert(match_at(s, seq![qc], u));
        lemma_find_from(s, seq![qc], i + k + 2);
        assert(find_from(s, seq![s[i + k + 1]], i + k + 2) is Some);
        let q2 = find_from(s, seq![qc], i + k + 2)->0;
        assert(kindle_attr_end(s, i + 1) == Some(q2 + 1));
        assert(attr_skip(s, i) is Some);
    }
}

proof fn lemma_strip_leaves_no_kindle_attr(s: Seq<u8>, i: int, st: bool)
    requires
        kindle_attrs_end_cleanly(s),
        0 <= i,
    ensures
        forall|p: int|
            0 <= p < strip_attrs_from(s, i, st).len() && inside_tag(strip_attrs_from(s, i, st), st, p)
                ==> attr_skip(
                strip_attrs_from(s, i, st).subrange(p, strip_attrs_from(s, i, st).len() as int),
                0,
            ) is None,
    decreases s.len() - i,
{
    let out = strip_attrs_from(s, i, st);
    if i < s.len() {
        if st && s[i] != 62 && attr_skip(s, i) is Some {
            lemma_strip_leaves_no_kindle_attr(s, attr_skip(s, i)->0, true);
        } else {
            let st1 = tag_open_after(st, s[i]);
            let rest = strip_attrs_from(s, i + 1, st1);
            assert(out == seq![s[i]] + rest);
            lemma_strip_leaves_no_kindle_attr(s, i + 1, st1);
            assert(out.drop_first() =~= rest);
            assert forall|p: int|
                0 <= p < out.len() && inside_tag(out, st, p) implies attr_skip(
                out.subrange(p, out.len() as int),
                0,
            ) is None by {
                if p == 0 {
                    assert(out.subrange(0, out.len() as int) =~= out);
                    if st && is_attr_space(s[i]) {
                        lemma_kept_space(s, i);
                    }
                } else {
                    assert(inside_tag(out, st, p) == inside_tag(rest, st1, p - 1));
                    assert(out.subrange(p, out.len() as int) =~= rest.subrange(p - 1, rest.len() as int));
                }
            }
        }
    }
}

/// Stripping leaves no Kindle attribute in any tag: in the result, no space
/// inside a tag is followed by `aid="…"`, `recindex="…"`, `data-amzn…="…"`
/// or `data-Amzn…="…"` (with either quote). This holds whenever each such
/// attribute of the input is followed by a space, `>`, `/` or the end of
/// the text; otherwise removing one can join the bytes around it into a new
/// one.
pub proof fn lemma_no_kindle_attr_left(s: Seq<u8>)
    requires
        kindle_attrs_end_cleanly(s),
    ensures
        forall|p: int|
            0 <= p < strip_kindle_attrs(s).len() && inside_tag(strip_kindle_attrs(s), false, p)
                ==> attr_skip(strip_kindle_attrs(s).subrange(p, strip_kindle_attrs(s).len() as int), 0)
                is None,
{
    lemma_strip_leaves_no_kindle_attr(s, 0, false);
}

/// Removes the Kindle attributes (`aid="…"`, `recindex="…"`,
/// `data-amzn…="…"`, `data-Amzn…="…"`) from every tag, each with the space before it.
pub fn strip_kindle_attributes(s: &[u8]) -> (r: Vec<u8>)
    ensures
        r@ == strip_kindle_attrs(s@),
{
    let mut out: Vec<u8> = Vec::new();
    let mut i: usize = 0;
    let mut in_tag = false;
    while i < s.len()
        invariant
            i <= s.len(),
            out@ + strip_attrs_from(s@, i as int, in_tag) == strip_kindle_attrs(s@),
        decreases s.len() - i,
    {
        let b = s[i];
        let ghost before = out@;
        let ghost tail = strip_attrs_from(s@, i as int, in_tag);
        if !in_tag {
            out.push(b);
            in_tag = b == 60;
            i = i + 1;
            assert(out@ + strip_attrs_from(s@, i as int, in_tag) =~= before + tail);
        } else if b == 62 {
            out.push(b);
            in_tag = false;
            i = i + 1;
            assert(out@ + strip_attrs_from(s@, i as int, in_tag) =~= before + tail);
        } else {
            let skip = if b == 32 || b == 9 || b == 10 || b == 13 {
                kindle_attr_end_at(s, i + 1)
            } else {
                None
            };
            match skip {
                Some(e) => {
                    i = e;
                },
                None => {
                    out.push(b);
                    i = i + 1;
                    assert(out@ + strip_attrs_from(s@, i as int, in_tag) =~= before + tail);
                },
            }
        }
    }
    assert(strip_attrs_from(s@, i as int, in_tag) =~= Seq::<u8>::empty());
    assert(out@ =~= strip_kindle_attrs(s@));
    out
}

/// The opening of a MOBI byte-position anchor: `<a id="filepos`.
pub open spec fn filepos_open() -> Seq<u8> {
    ascii_bytes("<a id=\"filepos"@)
}

/// The anchor tag `s[p..=g]` (with `g` its first `>`) contains `/>`: since
/// `g` is the tag's only `>`, exactly when `/` stands just before it.
pub open spec fn self_closing(s: Seq<u8>, p: int, g: int) -> bool {
    p <= g - 1 && s[g - 1] == 47
}

/// For an anchor opening at `p`: where scanning resumes, and whether the
/// first three bytes (`<a `) are kept. An anchor whose tag is closed by `>`
/// is dropped, and with it the next `</a>` unless the tag closes itself;
/// an unclosed one keeps its `<a ` and scanning resumes after it.
pub open spec fn anchor_step(s: Seq<u8>, p: int) -> (int, bool) {
    match find_from(s, ascii_bytes(">"@), p) {
        Some(g) => if self_closing(s, p, g) {
            (g + 1, false)
        } else {
            match find_from(s, ascii_bytes("</a>"@), g + 1) {
                Some(c) => (c + 4, false),
                None => (g + 1, false),
            }
        },
        None => (p + 3, true),
    }
}

/// `anchor_step` moves past the anchor and stays within `s`.
pub proof fn lemma_anchor_step(s: Seq<u8>, p: int)
    requires
        match_at(s, filepos_open(), p),
    ensures
        p < anchor_step(s, p).0 <= s.len(),
{
    reveal_strlit("<a id=\"filepos");
    reveal_strlit(">");
    reveal_strlit("</a>");
    lemma_find_from(s, ascii_bytes(">"@), p);
    match find_from(s, ascii_bytes(">"@), p) {
        Some(g) => {
            lemma_find_from(s, ascii_bytes("</a>"@), g + 1);
        },
        None => {},
    }
}

/// `s[from..]` with every MOBI byte-position anchor removed, as described
/// by `anchor_step`.
pub open spec fn strip_anchors_from(s: Seq<u8>, from: int) -> Seq<u8>
    decreases s.len() - from,
    when 0 <= from <= s.len()
{
    match find_from(s, filepos_open(), from) {
        None => s.subrange(from, s.len() as int),
        Some(p) => {
            proof {
                lemma_find_from(s, filepos_open(), from);
                lemma_anchor_step(s, p);
            }
            let (next, keep) = anchor_step(s, p);
            s.subrange(from, p) + (if keep {
                s.subrange(p, p + 3)
            } else {
                Seq::empty()
            }) + strip_anchors_from(s, next)
        },
    }
}

/// The MOBI artifacts removed from `s`: Kindle attributes first, then the
/// `<mbp:pagebreak/>` and `<mbp:pagebreak>` markers, then the byte-position
/// anchors.
pub open spec fn strip_artifacts(s: Seq<u8>) -> Seq<u8> {
    let a = strip_kindle_attrs(s);
    let b = replace_all(a, ascii_bytes("<mbp:pagebreak/>"@), Seq::empty());
    let c = replace_all(b, ascii_bytes("<mbp:pagebreak>"@), Seq::empty());
    strip_anchors_from(c, 0)
}

fn anchor_step_at(s: &[u8], p: usize) -> (r: (usize, bool))
    requires
        match_at(s@, filepos_open(), p as int),
    ensures
        r.0 as int == anchor_step(s@, p as int).0,
        r.1 == anchor_step(s@, p as int).1,
{
    proof {
        reveal_strlit("<a id=\"filepos");
        reveal_strlit(">");
        reveal_strlit("</a>");
        lemma_find_from(s@, ascii_bytes(">"@), p as int);
        assert(ascii_bytes(">"@).len() == 1);
        assert(filepos_open().len() == 14);
    }
    let n = s.len();
    match find_bytes(s, lit(">"), p) {
        Some(g) => {
            if p < g && s[g - 1] == 47 {
                (g + 1, false)
            } else {
                proof {
                    lemma_find_from(s@, ascii_bytes("</a>"@), g + 1);
                    assert(ascii_bytes("</a>"@).len() == 4);
                }
                match find_bytes(s, lit("</a>"), g + 1) {
                    Some(c) => (c + 4, false),
                    None => (g + 1, false),
                }
            }
        },
        None => (p + 3, true),
    }
}

fn strip_anchors(s: &[u8]) -> (r: Vec<u8>)
    ensures
        r@ == strip_anchors_from(s@, 0),
{
    proof {
        reveal_strlit("<a id=\"filepos");
    }
    let open = lit("<a id=\"filepos");
    let mut out: Vec<u8> = Vec::new();
    let mut from: usize = 0;
    loop
        invariant
            from <= s.len(),
            open@ == filepos_open(),
            out@ + strip_anchors_from(s@, from as int) == strip_anchors_from(s@, 0),
        decreases s.len() - from,
    {
        proof {
            lemma_find_from(s@, open@, from as int);
        }
        match find_bytes(s, open, from) {
            None => {
                push_range(&mut out, s, from, s.len());
                return out;
            },
            Some(p) => {
                let ghost before = out@;
                proof {
                    lemma_anchor_step(s@, p as int);
                }
                let (next, keep) = anchor_step_at(s, p);
                push_range(&mut out, s, from, p);
                if keep {
                    push_range(&mut out, s, p, p + 3);
                }
                assert(out@ + strip_anchors_from(s@, next as int) =~= before + strip_anchors_from(
                    s@,
                    from as int,
                ));
                from = next;
            },
        }
    }
}

/// The byte-level core of `strip_mobi_artifacts`.
pub fn strip_mobi_artifact_bytes(html: &[u8]) -> (r: Vec<u8>)
    ensures
        r@ == strip_artifacts(html@),
{
    proof {
        reveal_strlit("<mbp:pagebreak/>");
        reveal_strlit("<mbp:pagebreak>");
    }
    let a = strip_kindle_attributes(html);
    let empty: Vec<u8> = Vec::new();
    let b = replace_bytes(a.as_slice(), lit("<mbp:pagebreak/>"), empty.as_slice());
    let c = replace_bytes(b.as_slice(), lit("<mbp:pagebreak>"), empty.as_slice());
    assert(empty@ =~= Seq::<u8>::empty());
    strip_anchors(c.as_slice())
}

/// Strip MOBI/Kindle-specific artifacts from HTML before exporting to other
/// formats: Kindle attributes (`aid`, `recindex`, `data-amzn*`, `data-Amzn*`),
/// `<mbp:pagebreak/>` markers and `<a id="fileposNNNNN" />` anchors (with
/// their `</a>` when they are not self-closing). The bytes left are read
/// back as text by `String::from_utf8_lossy`.
pub fn strip_mobi_artifacts(html: &str) -> (r: String)
    ensures
        r@ == utf8_lossy(strip_artifacts(utf8(html@))),
        vstd::utf8::valid_utf8(strip_artifacts(utf8(html@))) ==> r@ == vstd::utf8::decode_utf8(
            strip_artifacts(utf8(html@)),
        ),
{
    let bytes = str_bytes(html);
    let cleaned = strip_mobi_artifact_bytes(bytes.as_slice());
    string_from_utf8_lossy(cleaned.as_slice())
}

} // verus!
