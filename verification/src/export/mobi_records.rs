//! Byte layout of a MOBI 6 file: the PalmDB container, record 0 (MOBI
//! header, EXTH metadata, full title) and the fixed trailer records.

use vstd::prelude::*;
use crate::text::{ascii_bytes, lit, utf8};
use crate::util::{be16, be24, be32, null32, push_all, push_be16, push_be32, push_zeros, zeros};
use crate::model::Metadata;

verus! {

broadcast use vstd::string::group_string_axioms, crate::util::lemma_be32_len, crate::util::lemma_be16_len, crate::util::lemma_be24_len;

/// Text encoding of a MOBI file.
#[derive(Debug, Clone, Copy, PartialEq, Eq, Structural)]
pub enum MobiEncoding {
    /// UTF-8 (modern Kindles)
    Utf8,
    /// CP1252 (legacy devices)
    Cp1252,
}

/// Code page number that the MOBI header records for an encoding.
pub open spec fn codepage(e: MobiEncoding) -> u32 {
    match e {
        MobiEncoding::Utf8 => 65001,
        MobiEncoding::Cp1252 => 1252,
    }
}

/// The values that the MOBI header records, besides fixed constants.
pub struct HeaderFields {
    pub codepage: u32,
    pub text_length: u32,
    pub text_records: nat,
    pub index_records: nat,
    pub image_records: nat,
    pub title_offset: u32,
    pub title_length: u32,
    pub language: u32,
}

/// Index of the NCX record, or null when the file has no index records.
pub open spec fn ncx_index(f: HeaderFields) -> u32 {
    if f.index_records > 0 {
        (1 + f.text_records) as u32
    } else {
        0xFFFF_FFFF
    }
}

/// Index of the FLIS record: it follows record 0, the text, index and image
/// records.
pub open spec fn flis_index(f: HeaderFields) -> u32 {
    (f.text_records + 1 + f.index_records + f.image_records) as u32
}

/// Bytes 0..40 of the MOBI header: PalmDoc compression, text length and
/// record count, the `MOBI` identifier, header length, book type, encoding,
/// unique id and file version.
pub open spec fn header_start(f: HeaderFields) -> Seq<u8> {
    be16(2) + be16(0) + be32(f.text_length) + be16(f.text_records as u16) + be16(4096) + be16(0)
        + be16(0) + ascii_bytes("MOBI"@) + be32(264) + be32(2) + be32(f.codepage) + be32(0)
        + be32(6)
}

/// Bytes 40..80: the ten extra index slots, the third naming the NCX.
pub open spec fn header_indices(f: HeaderFields) -> Seq<u8> {
    null32() + null32() + be32(ncx_index(f)) + null32() + null32() + null32() + null32()
        + null32() + null32() + null32()
}

/// Bytes 80..164: first non-text record, title offset and length, language,
/// minimum version, first resource record and the EXTH flag.
pub open spec fn header_book(f: HeaderFields) -> Seq<u8> {
    let first_resource: u32 = if f.image_records == 0 {
        0xFFFF_FFFF
    } else {
        (f.text_records + 1 + f.index_records) as u32
    };
    be32((f.text_records + 1) as u32) + be32(f.title_offset) + be32(f.title_length) + be32(
        f.language,
    ) + zeros(8) + be32(6) + be32(first_resource) + zeros(16) + be32(0x50) + zeros(32)
}

/// Bytes 164..224: DRM fields (none), content record range, FCIS and FLIS
/// record indices.
pub open spec fn header_records(f: HeaderFields) -> Seq<u8> {
    null32() + null32() + be32(0) + be32(0) + be32(0) + zeros(8) + be32(1) + be32(
        f.text_records as u32,
    ) + be32((flis_index(f) + 1) as u32) + be32(1) + be32(flis_index(f)) + be32(1) + zeros(8)
}

/// Bytes 224..264: SRCS (none), extra data flags, NCX index again, and four
/// null slots.
pub open spec fn header_tail(f: HeaderFields) -> Seq<u8> {
    null32() + be32(0) + null32() + null32() + be32(0) + be32(ncx_index(f)) + null32() + null32()
        + null32() + null32()
}

/// The 264-byte MOBI header.
pub open spec fn mobi_header(f: HeaderFields) -> Seq<u8> {
    header_start(f) + header_indices(f) + header_book(f) + header_records(f) + header_tail(f)
}

/// Build the MOBI header.
pub fn build_mobi_header(
    codepage: u32,
    text_length: u32,
    text_records: usize,
    index_records: usize,
    image_records: usize,
    title_offset: u32,
    title_length: u32,
    language: u32,
) -> (r: Vec<u8>)
    requires
        text_records + index_records + image_records + 3 <= 0xFFFF_FFFF,
    ensures
        r@ == mobi_header(
            HeaderFields {
                codepage,
                text_length,
                text_records: text_records as nat,
                index_records: index_records as nat,
                image_records: image_records as nat,
                title_offset,
                title_length,
                language,
            },
        ),
{
    let ghost f = HeaderFields {
        codepage,
        text_length,
        text_records: text_records as nat,
        index_records: index_records as nat,
        image_records: image_records as nat,
        title_offset,
        title_length,
        language,
    };
    let ncx: u32 = if index_records > 0 {
        1 + text_records as u32
    } else {
        0xFFFF_FFFF
    };
    let flis = text_records as u32 + 1 + index_records as u32 + image_records as u32;
    let first_resource: u32 = if image_records == 0 {
        0xFFFF_FFFF
    } else {
        text_records as u32 + 1 + index_records as u32
    };
    let mut h: Vec<u8> = Vec::new();
    push_header_start(&mut h, codepage, text_length, text_records as u16);
    assert(h@ =~= header_start(f));
    let ghost h1 = h@;
    push_header_indices(&mut h, ncx);
    assert(h@ == h1 + header_indices(f));
    let ghost h2 = h@;
    push_header_book(&mut h, text_records as u32 + 1, title_offset, title_length, language, first_resource);
    assert(h@ == h2 + header_book(f));
    let ghost h3 = h@;
    push_header_records(&mut h, text_records as u32, flis);
    assert(h@ == h3 + header_records(f));
    let ghost h4 = h@;
    push_header_tail(&mut h, ncx);
    assert(h@ == h4 + header_tail(f));
    h
}

fn push_header_start(h: &mut Vec<u8>, codepage: u32, text_length: u32, count: u16)
    ensures
        final(h)@ == old(h)@ + (be16(2) + be16(0) + be32(text_length) + be16(count) + be16(4096)
            + be16(0) + be16(0) + ascii_bytes("MOBI"@) + be32(264) + be32(2) + be32(codepage)
            + be32(0) + be32(6)),
{
    push_be16(h, 2);  // compression: PalmDoc
    push_be16(h, 0);
    push_be32(h, text_length);
    push_be16(h, count);
    push_be16(h, 4096);  // text record size
    push_be16(h, 0);  // encryption: none
    push_be16(h, 0);
    proof {
        reveal_strlit("MOBI");
    }
    push_all(h, lit("MOBI"));
    push_be32(h, 264);  // header length
    push_be32(h, 2);  // book type
    push_be32(h, codepage);
    push_be32(h, 0);  // unique id
    push_be32(h, 6);  // file version
    assert(h@ =~= old(h)@ + (be16(2) + be16(0) + be32(text_length) + be16(count) + be16(4096)
        + be16(0) + be16(0) + ascii_bytes("MOBI"@) + be32(264) + be32(2) + be32(codepage) + be32(0)
        + be32(6)));
}

fn push_header_indices(h: &mut Vec<u8>, ncx: u32)
    ensures
        final(h)@ == old(h)@ + (null32() + null32() + be32(ncx) + null32() + null32() + null32()
            + null32() + null32() + null32() + null32()),
{
    push_be32(h, 0xFFFF_FFFF);  // meta orth
    push_be32(h, 0xFFFF_FFFF);  // meta infl
    push_be32(h, ncx);
    push_be32(h, 0xFFFF_FFFF);
    push_be32(h, 0xFFFF_FFFF);
    push_be32(h, 0xFFFF_FFFF);
    push_be32(h, 0xFFFF_FFFF);
    push_be32(h, 0xFFFF_FFFF);
    push_be32(h, 0xFFFF_FFFF);
    push_be32(h, 0xFFFF_FFFF);
    assert(h@ =~= old(h)@ + (null32() + null32() + be32(ncx) + null32() + null32() + null32()
        + null32() + null32() + null32() + null32()));
}

fn push_header_book(
    h: &mut Vec<u8>,
    first_non_text: u32,
    title_offset: u32,
    title_length: u32,
    language: u32,
    first_resource: u32,
)
    ensures
        final(h)@ == old(h)@ + (be32(first_non_text) + be32(title_offset) + be32(title_length)
            + be32(language) + zeros(8) + be32(6) + be32(first_resource) + zeros(16) + be32(0x50)
            + zeros(32)),
{
    push_be32(h, first_non_text);
    push_be32(h, title_offset);
    push_be32(h, title_length);
    push_be32(h, language);
    push_zeros(h, 8);  // dictionary languages
    push_be32(h, 6);  // minimum version
    push_be32(h, first_resource);
    push_zeros(h, 16);  // HUFF/CDIC
    push_be32(h, 0x50);  // EXTH present
    push_zeros(h, 32);
    assert(h@ =~= old(h)@ + (be32(first_non_text) + be32(title_offset) + be32(title_length)
        + be32(language) + zeros(8) + be32(6) + be32(first_resource) + zeros(16) + be32(0x50)
        + zeros(32)));
}

fn push_header_records(h: &mut Vec<u8>, last_content: u32, flis: u32)
    requires
        flis < 0xFFFF_FFFF,
    ensures
        final(h)@ == old(h)@ + (null32() + null32() + be32(0) + be32(0) + be32(0) + zeros(8)
            + be32(1) + be32(last_content) + be32((flis + 1) as u32) + be32(1) + be32(flis) + be32(
            1,
        ) + zeros(8)),
{
    push_be32(h, 0xFFFF_FFFF);
    push_be32(h, 0xFFFF_FFFF);  // DRM
    push_be32(h, 0);
    push_be32(h, 0);
    push_be32(h, 0);
    push_zeros(h, 8);
    push_be32(h, 1);  // first content record
    push_be32(h, last_content);
    push_be32(h, flis + 1);  // FCIS record
    push_be32(h, 1);
    push_be32(h, flis);  // FLIS record
    push_be32(h, 1);
    push_zeros(h, 8);
    assert(h@ =~= old(h)@ + (null32() + null32() + be32(0) + be32(0) + be32(0) + zeros(8) + be32(1)
        + be32(last_content) + be32((flis + 1) as u32) + be32(1) + be32(flis) + be32(1) + zeros(
        8,
    )));
}

fn push_header_tail(h: &mut Vec<u8>, ncx: u32)
    ensures
        final(h)@ == old(h)@ + (null32() + be32(0) + null32() + null32() + be32(0) + be32(ncx)
            + null32() + null32() + null32() + null32()),
{
    push_be32(h, 0xFFFF_FFFF);  // SRCS
    push_be32(h, 0);
    push_be32(h, 0xFFFF_FFFF);
    push_be32(h, 0xFFFF_FFFF);
    push_be32(h, 0);  // extra data flags
    push_be32(h, ncx);
    push_be32(h, 0xFFFF_FFFF);
    push_be32(h, 0xFFFF_FFFF);
    push_be32(h, 0xFFFF_FFFF);
    push_be32(h, 0xFFFF_FFFF);
    assert(h@ =~= old(h)@ + (null32() + be32(0) + null32() + null32() + be32(0) + be32(ncx)
        + null32() + null32() + null32() + null32()));
}

/// The MOBI header is 264 bytes long.
pub proof fn lemma_mobi_header_len(f: HeaderFields)
    ensures
        mobi_header(f).len() == 264,
{
    reveal_strlit("MOBI");
    assert(header_start(f).len() == 40);
    assert(header_indices(f).len() == 40);
    assert(header_book(f).len() == 84);
    assert(header_records(f).len() == 60);
    assert(header_tail(f).len() == 40);
}

/// `parts` joined with `sep` between consecutive parts.
pub open spec fn join(parts: Seq<Seq<u8>>, sep: Seq<u8>) -> Seq<u8>
    decreases parts.len(),
{
    if parts.len() == 0 {
        Seq::empty()
    } else if parts.len() == 1 {
        parts[0]
    } else {
        join(parts.drop_last(), sep) + sep + parts.last()
    }
}

/// The UTF-8 bytes of each string.
pub open spec fn utf8_all(v: Seq<String>) -> Seq<Seq<u8>> {
    v.map_values(|s: String| utf8(s@))
}

/// UTF-8 bytes of `v` joined by `sep`, as `v.join(sep)` produces them.
pub fn join_strings(v: &Vec<String>, sep: &[u8]) -> (r: Vec<u8>)
    ensures
        r@ == join(utf8_all(v@), sep@),
{
    let mut out: Vec<u8> = Vec::new();
    let mut i: usize = 0;
    while i < v.len()
        invariant
            i <= v.len(),
            out@ == join(utf8_all(v@).take(i as int), sep@),
        decreases v.len() - i,
    {
        let ghost before = out@;
        if i > 0 {
            push_all(&mut out, sep);
        }
        let b = v[i].as_str().as_bytes();
        push_all(&mut out, b);
        proof {
            let parts = utf8_all(v@);
            assert(parts.take(i + 1).drop_last() =~= parts.take(i as int));
            if i == 0 {
                assert(out@ =~= parts.take(1)[0]);
            }
        }
        i = i + 1;
    }
    assert(utf8_all(v@).take(v@.len() as int) =~= utf8_all(v@));
    out
}

/// One EXTH record: type, total length, data.
pub open spec fn exth_record(t: u32, data: Seq<u8>) -> Seq<u8> {
    be32(t) + be32((8 + data.len()) as u32) + data
}

/// An EXTH record that is present only when `present` holds.
pub open spec fn exth_opt(present: bool, t: u32, data: Seq<u8>) -> Seq<u8> {
    if present {
        exth_record(t, data)
    } else {
        Seq::empty()
    }
}

/// UTF-8 bytes of an optional string (empty when absent).
pub open spec fn opt_utf8(s: Option<String>) -> Seq<u8> {
    match s {
        Some(x) => utf8(x@),
        None => Seq::empty(),
    }
}

/// The EXTH records, in order: author (100), publisher (101), description
/// (103), subjects (105), date (106), source identifier (112), ASIN (113),
/// start reading offset (116), cover (201) and thumbnail (202) record,
/// document type `EBOK` (501), title (503) and language (524). Absent or
/// empty values are left out, except ASIN, document type and title.
pub open spec fn exth_body(m: Metadata, start: u32, cover: Option<u32>) -> Seq<u8> {
    exth_descriptive(m) + exth_identifying(m, start, cover) + exth_closing(m)
}

/// Author, publisher, description, subjects and date records.
pub open spec fn exth_descriptive(m: Metadata) -> Seq<u8> {
    exth_opt(m.authors@.len() > 0, 100, join(utf8_all(m.authors@), ascii_bytes("; "@)))
        + exth_opt(m.publisher is Some, 101, opt_utf8(m.publisher))
        + exth_opt(m.description is Some, 103, opt_utf8(m.description))
        + exth_opt(m.subjects@.len() > 0, 105, join(utf8_all(m.subjects@), ascii_bytes("; "@)))
        + exth_opt(m.date is Some, 106, opt_utf8(m.date))
}

/// Source identifier, ASIN, start offset, cover and thumbnail records.
pub open spec fn exth_identifying(m: Metadata, start: u32, cover: Option<u32>) -> Seq<u8> {
    exth_opt(m.identifier@.len() > 0, 112, utf8(m.identifier@))
        + exth_record(113, utf8(m.identifier@))
        + exth_opt(start > 0, 116, be32(start))
        + exth_opt(cover is Some, 201, be32(cover.unwrap_or(0)))
        + exth_opt(cover is Some, 202, be32(cover.unwrap_or(0)))
}

/// Document type, title and language records.
pub open spec fn exth_closing(m: Metadata) -> Seq<u8> {
    exth_record(501, ascii_bytes("EBOK"@)) + exth_record(503, utf8(m.title@))
        + exth_opt(m.language@.len() > 0, 524, utf8(m.language@))
}

/// Number of EXTH records in `exth_body`.
pub open spec fn exth_count(m: Metadata, start: u32, cover: Option<u32>) -> nat {
    (if m.authors@.len() > 0 { 1nat } else { 0 }) + (if m.publisher is Some { 1nat } else { 0 })
        + (if m.description is Some { 1nat } else { 0 }) + (if m.subjects@.len() > 0 { 1nat } else { 0 })
        + (if m.date is Some { 1nat } else { 0 }) + (if m.identifier@.len() > 0 { 1nat } else { 0 }) + 1
        + (if start > 0 { 1nat } else { 0 }) + (if cover is Some { 2nat } else { 0 }) + 2
        + (if m.language@.len() > 0 { 1nat } else { 0 })
}

/// Length of the EXTH block: header and records, padded to a multiple of 4.
pub open spec fn exth_padded_len(body_len: nat) -> nat {
    ((12 + body_len + 3) / 4 * 4) as nat
}

/// The EXTH block: `EXTH`, padded length, record count, records, and zero
/// padding to a multiple of four bytes.
pub open spec fn exth_header(m: Metadata, start: u32, cover: Option<u32>) -> Seq<u8> {
    let body = exth_body(m, start, cover);
    let total = exth_padded_len(body.len());
    ascii_bytes("EXTH"@) + be32(total as u32) + be32(exth_count(m, start, cover) as u32) + body
        + zeros((total - 12 - body.len()) as nat)
}

fn push_exth_record(out: &mut Vec<u8>, t: u32, data: &[u8])
    requires
        data.len() + 8 <= 0xFFFF_FFFF,
    ensures
        final(out)@ == old(out)@ + exth_record(t, data@),
{
    push_be32(out, t);
    push_be32(out, (8 + data.len()) as u32);
    push_all(out, data);
    assert(out@ =~= old(out)@ + exth_record(t, data@));
}

/// Bytes of an optional string (empty when absent).
fn opt_bytes(s: &Option<String>) -> (r: &[u8])
    ensures
        r@ == opt_utf8(*s),
{
    match s {
        Some(x) => x.as_str().as_bytes(),
        None => {
            let e: &[u8] = &[];
            assert(e@ =~= Seq::<u8>::empty());
            e
        },
    }
}

/// Metadata whose fields fit in EXTH records.
pub open spec fn exth_fits(m: Metadata) -> bool {
    &&& join(utf8_all(m.authors@), ascii_bytes("; "@)).len() + 8 <= 0xFFFF_FFFF
    &&& opt_utf8(m.publisher).len() + 8 <= 0xFFFF_FFFF
    &&& opt_utf8(m.description).len() + 8 <= 0xFFFF_FFFF
    &&& join(utf8_all(m.subjects@), ascii_bytes("; "@)).len() + 8 <= 0xFFFF_FFFF
    &&& opt_utf8(m.date).len() + 8 <= 0xFFFF_FFFF
    &&& utf8(m.identifier@).len() + 8 <= 0xFFFF_FFFF
    &&& utf8(m.title@).len() + 8 <= 0xFFFF_FFFF
    &&& utf8(m.language@).len() + 8 <= 0xFFFF_FFFF
}

fn push_exth_opt(body: &mut Vec<u8>, present: bool, t: u32, data: &[u8]) -> (count: u32)
    requires
        data.len() + 8 <= 0xFFFF_FFFF,
    ensures
        final(body)@ == old(body)@ + exth_opt(present, t, data@),
        count == (if present { 1u32 } else { 0u32 }),
{
    if present {
        push_exth_record(body, t, data);
        1
    } else {
        assert(body@ =~= old(body)@ + exth_opt(present, t, data@));
        0
    }
}

fn push_exth_descriptive(body: &mut Vec<u8>, m: &Metadata) -> (count: u32)
    requires
        exth_fits(*m),
    ensures
        final(body)@ == old(body)@ + exth_descriptive(*m),
        count == (if m.authors@.len() > 0 { 1nat } else { 0 }) + (if m.publisher is Some { 1nat } else { 0 })
            + (if m.description is Some { 1nat } else { 0 }) + (if m.subjects@.len() > 0 { 1nat } else { 0 })
            + (if m.date is Some { 1nat } else { 0 }),
{
    proof {
        reveal_strlit("; ");
    }
    let ghost b0 = body@;
    let a = join_strings(&m.authors, lit("; "));
    let c1 = push_exth_opt(body, m.authors.len() > 0, 100, &a);
    let ghost e1 = exth_opt(m.authors@.len() > 0, 100, join(utf8_all(m.authors@), ascii_bytes("; "@)));
    let ghost b1 = body@;
    let c2 = push_exth_opt(body, m.publisher.is_some(), 101, opt_bytes(&m.publisher));
    let ghost e2 = exth_opt(m.publisher is Some, 101, opt_utf8(m.publisher));
    proof { vstd::seq_lib::lemma_concat_associative(b0, e1, e2); }
    let c3 = push_exth_opt(body, m.description.is_some(), 103, opt_bytes(&m.description));
    let ghost e3 = exth_opt(m.description is Some, 103, opt_utf8(m.description));
    proof { vstd::seq_lib::lemma_concat_associative(b0, e1 + e2, e3); }
    let s = join_strings(&m.subjects, lit("; "));
    let c4 = push_exth_opt(body, m.subjects.len() > 0, 105, &s);
    let ghost e4 = exth_opt(m.subjects@.len() > 0, 105, join(utf8_all(m.subjects@), ascii_bytes("; "@)));
    proof { vstd::seq_lib::lemma_concat_associative(b0, e1 + e2 + e3, e4); }
    let c5 = push_exth_opt(body, m.date.is_some(), 106, opt_bytes(&m.date));
    let ghost e5 = exth_opt(m.date is Some, 106, opt_utf8(m.date));
    proof { vstd::seq_lib::lemma_concat_associative(b0, e1 + e2 + e3 + e4, e5); }
    assert(body@ == b0 + exth_descriptive(*m));
    c1 + c2 + c3 + c4 + c5
}

fn push_exth_identifying(body: &mut Vec<u8>, m: &Metadata, start: u32, cover: Option<u32>) -> (count: u32)
    requires
        exth_fits(*m),
    ensures
        final(body)@ == old(body)@ + exth_identifying(*m, start, cover),
        count == (if m.identifier@.len() > 0 { 1nat } else { 0 }) + 1
            + (if start > 0 { 1nat } else { 0 }) + (if cover is Some { 2nat } else { 0 }),
{
    let mut count: u32 = 0;
    let ghost b0 = body@;
    let ident = m.identifier.as_str().as_bytes();
    if ident.len() > 0 {
        push_exth_record(body, 112, ident);
        count = count + 1;
    }
    push_exth_record(body, 113, ident);
    count = count + 1;
    let ghost b1 = body@;
    if start > 0 {
        let mut d: Vec<u8> = Vec::new();
        push_be32(&mut d, start);
        push_exth_record(body, 116, &d);
        count = count + 1;
    }
    let ghost b2 = body@;
    if let Some(c) = cover {
        let mut d: Vec<u8> = Vec::new();
        push_be32(&mut d, c);
        push_exth_record(body, 201, &d);
        push_exth_record(body, 202, &d);
        count = count + 2;
    }
    assert(body@ =~= b0 + exth_identifying(*m, start, cover));
    count
}

fn push_exth_closing(body: &mut Vec<u8>, m: &Metadata) -> (count: u32)
    requires
        exth_fits(*m),
    ensures
        final(body)@ == old(body)@ + exth_closing(*m),
        count == 2 + (if m.language@.len() > 0 { 1nat } else { 0 }),
{
    proof {
        reveal_strlit("EBOK");
    }
    let ghost b0 = body@;
    push_exth_record(body, 501, lit("EBOK"));
    push_exth_record(body, 503, m.title.as_str().as_bytes());
    let mut count: u32 = 2;
    let lang = m.language.as_str().as_bytes();
    if lang.len() > 0 {
        push_exth_record(body, 524, lang);
        count = count + 1;
    }
    assert(body@ =~= b0 + exth_closing(*m));
    count
}

/// Build the EXTH records and count them.
pub fn build_exth_body(m: &Metadata, start: u32, cover: Option<u32>) -> (r: (Vec<u8>, u32))
    requires
        exth_fits(*m),
    ensures
        r.0@ == exth_body(*m, start, cover),
        r.1 == exth_count(*m, start, cover),
{
    let mut body: Vec<u8> = Vec::new();
    let c1 = push_exth_descriptive(&mut body, m);
    let c2 = push_exth_identifying(&mut body, m, start, cover);
    let c3 = push_exth_closing(&mut body, m);
    assert(body@ =~= exth_body(*m, start, cover));
    (body, c1 + c2 + c3)
}

/// Whether every EXTH record's length fits its 32-bit length field.
pub fn check_exth_fits(m: &Metadata) -> (r: bool)
    ensures
        r == exth_fits(*m),
{
    proof {
        reveal_strlit("; ");
    }
    let limit: usize = 0xFFFF_FFF7;
    let a = join_strings(&m.authors, lit("; "));
    let s = join_strings(&m.subjects, lit("; "));
    a.len() <= limit && opt_bytes(&m.publisher).len() <= limit && opt_bytes(&m.description).len() <= limit
        && s.len() <= limit && opt_bytes(&m.date).len() <= limit && m.identifier.as_str().as_bytes().len() <= limit
        && m.title.as_str().as_bytes().len() <= limit && m.language.as_str().as_bytes().len() <= limit
}

/// Build the EXTH metadata block.
pub fn build_exth_header(m: &Metadata, start: u32, cover: Option<u32>) -> (r: Vec<u8>)
    requires
        exth_fits(*m),
        exth_body(*m, start, cover).len() <= 0xFFFF_0000,
    ensures
        r@ == exth_header(*m, start, cover),
{
    let (body, count) = build_exth_body(m, start, cover);
    finish_exth(&body, count)
}

/// Frame EXTH records with their header and padding.
pub fn finish_exth(body: &Vec<u8>, count: u32) -> (r: Vec<u8>)
    requires
        body@.len() <= 0xFFFF_0000,
    ensures
        r@ == ({
            let total = exth_padded_len(body@.len());
            ascii_bytes("EXTH"@) + be32(total as u32) + be32(count) + body@ + zeros((total - 12 - body@.len()) as nat)
        }),
{
    proof {
        reveal_strlit("EXTH");
    }
    let total = (12 + body.len() + 3) / 4 * 4;
    let mut out: Vec<u8> = Vec::new();
    push_all(&mut out, lit("EXTH"));
    push_be32(&mut out, total as u32);
    push_be32(&mut out, count);
    push_all(&mut out, &body);
    push_zeros(&mut out, total - 12 - body.len());
    out
}

/// `b` cut or zero-padded to exactly `n` bytes (`Vec::resize`).
pub open spec fn resized(b: Seq<u8>, n: nat) -> Seq<u8> {
    if b.len() >= n {
        b.subrange(0, n as int)
    } else {
        b + zeros((n - b.len()) as nat)
    }
}

/// The first 31 characters of a title (all of it when shorter).
pub open spec fn short_title(t: Seq<char>) -> Seq<char> {
    if t.len() > 31 {
        t.subrange(0, 31)
    } else {
        t
    }
}

/// The PalmDB database name: the bytes of the title's first 31
/// characters, cut back to at most 31 bytes at a character boundary, so
/// that the 32-byte name field always ends in a NUL.
pub open spec fn db_name(title: Seq<char>) -> Seq<u8> {
    let b = utf8(short_title(title));
    b.subrange(0, crate::export::mobi::utf8_boundary(b, 31))
}

/// The database name fits 31 bytes, ends at a character boundary, and is
/// the whole title when the title's bytes fit: the name field is always
/// NUL-terminated.
pub proof fn lemma_db_name(title: Seq<char>)
    ensures
        db_name(title).len() <= 31,
        db_name(title) == utf8(short_title(title)).subrange(0, db_name(title).len() as int),
        0 < db_name(title).len() < utf8(short_title(title)).len() ==> !crate::export::mobi::is_continuation(
            utf8(short_title(title))[db_name(title).len() as int],
        ),
        utf8(title).len() <= 31 ==> db_name(title) == utf8(title),
        resized(db_name(title), 32)[31] == 0,
{
    let b = utf8(short_title(title));
    let m = if 31 < b.len() { 31 } else { b.len() as int };
    crate::export::mobi::lemma_walk_back(b, m);
    lemma_walk_back_stop(b, m);
    lemma_utf8_len_ge(title);
    if utf8(title).len() <= 31 {
        assert(short_title(title) == title);
        assert(b.subrange(0, b.len() as int) =~= b);
    }
    let n = db_name(title);
    assert(resized(n, 32)[31] == 0);
}

proof fn lemma_walk_back_stop(b: Seq<u8>, e: int)
    requires
        0 <= e,
    ensures
        0 < crate::export::mobi::walk_back(b, e) < b.len() ==> !crate::export::mobi::is_continuation(
            b[crate::export::mobi::walk_back(b, e)],
        ),
        e >= b.len() ==> crate::export::mobi::walk_back(b, e) == e,
    decreases e,
{
    if 0 < e < b.len() && crate::export::mobi::is_continuation(b[e]) {
        lemma_walk_back_stop(b, e - 1);
    }
}

proof fn lemma_utf8_len_ge(s: Seq<char>)
    ensures
        utf8(s).len() >= s.len(),
    decreases s.len(),
{
    if s.len() > 0 {
        lemma_utf8_len_ge(s.drop_first());
    }
}

/// The 78-byte PalmDB header: database name (`db_name`, zero-padded to 32
/// bytes), attributes, version,
/// creation and modification time, backup time, modification number, app
/// and sort info, type and creator `BOOKMOBI`, unique-id seed, next record
/// list, and the number of records.
pub open spec fn palmdb_header(title: Seq<char>, now: u32, num_records: u16) -> Seq<u8> {
    resized(db_name(title), 32) + be16(0) + be16(0) + be32(now) + be32(now) + be32(0)
        + be32(0) + be32(0) + be32(0) + ascii_bytes("BOOKMOBI"@) + be32((2 * num_records - 1) as u32)
        + be32(0) + be16(num_records)
}

/// The title shortened to at most 31 characters for the PalmDB name.
pub fn sanitize_title(title: &str) -> (r: String)
    ensures
        r@ == short_title(title@),
{
    let chars = crate::text::str_chars(title);
    let mut kept: Vec<char> = Vec::new();
    let mut i: usize = 0;
    while i < chars.len() && i < 31
        invariant
            i <= chars.len(),
            i <= 31,
            kept@ == chars@.subrange(0, i as int),
        decreases chars.len() - i,
    {
        kept.push(chars[i]);
        i = i + 1;
        assert(kept@ =~= chars@.subrange(0, i as int));
    }
    assert(kept@ =~= short_title(title@));
    crate::text::string_from_chars(&kept)
}

/// Build the PalmDB header for a file of `num_records` records.
pub fn build_palmdb_header(title: &str, now: u32, num_records: u16) -> (r: Vec<u8>)
    requires
        1 <= num_records <= 32767,
    ensures
        r@ == palmdb_header(title@, now, num_records),
{
    proof {
        reveal_strlit("BOOKMOBI");
    }
    let name = sanitize_title(title);
    let name_bytes = name.as_str().as_bytes();
    let cut = crate::export::mobi::find_utf8_boundary(name_bytes, 31);
    proof {
        crate::export::mobi::lemma_walk_back(name_bytes@, if 31 < name_bytes@.len() { 31 } else { name_bytes@.len() as int });
    }
    let mut h: Vec<u8> = Vec::new();
    crate::util::push_range(&mut h, name_bytes, 0, cut);
    push_zeros(&mut h, 32 - cut);
    assert(h@ =~= resized(db_name(title@), 32));
    let ghost h0 = h@;
    push_be16(&mut h, 0);  // attributes
    push_be16(&mut h, 0);  // version
    push_be32(&mut h, now);  // creation time
    push_be32(&mut h, now);  // modification time
    push_be32(&mut h, 0);  // last backup
    push_be32(&mut h, 0);  // modification number
    push_be32(&mut h, 0);  // app info
    push_be32(&mut h, 0);  // sort info
    push_all(&mut h, lit("BOOKMOBI"));
    push_be32(&mut h, (2 * num_records) as u32 - 1);  // unique id seed
    push_be32(&mut h, 0);  // next record list
    push_be16(&mut h, num_records);
    assert(h@ =~= palmdb_header(title@, now, num_records));
    h
}

/// The FLIS record.
pub open spec fn flis_record() -> Seq<u8> {
    ascii_bytes("FLIS"@) + be32(8) + seq![0x41u8, 0u8, 0u8, 0u8] + null32() + be32(1) + be32(3)
        + be32(3) + be32(1) + null32()
}

/// The FCIS record.
pub open spec fn fcis_record() -> Seq<u8> {
    ascii_bytes("FCIS"@) + be32(20) + be32(16) + be32(1) + be32(0) + be32(7) + be32(0x396F0000)
        + be32(0) + be32(0) + be32(32) + be32(8) + be32(1) + be32(1)
}

/// The end-of-file marker record.
pub open spec fn eof_record() -> Seq<u8> {
    seq![0xE9u8, 0x8Eu8, 0x0Du8, 0x0Au8]
}

/// Build the FLIS record.
pub fn build_flis_record() -> (r: Vec<u8>)
    ensures
        r@ == flis_record(),
{
    proof {
        reveal_strlit("FLIS");
    }
    let mut f: Vec<u8> = Vec::new();
    push_all(&mut f, lit("FLIS"));
    push_be32(&mut f, 8);
    f.push(0x41);
    f.push(0);
    f.push(0);
    f.push(0);
    push_be32(&mut f, 0xFFFF_FFFF);
    push_be32(&mut f, 1);
    push_be32(&mut f, 3);
    push_be32(&mut f, 3);
    push_be32(&mut f, 1);
    push_be32(&mut f, 0xFFFF_FFFF);
    assert(f@ =~= flis_record());
    f
}

/// Build the FCIS record.
pub fn build_fcis_record() -> (r: Vec<u8>)
    ensures
        r@ == fcis_record(),
{
    proof {
        reveal_strlit("FCIS");
    }
    let mut f: Vec<u8> = Vec::new();
    push_all(&mut f, lit("FCIS"));
    push_be32(&mut f, 20);
    push_be32(&mut f, 16);
    push_be32(&mut f, 1);
    push_be32(&mut f, 0);
    push_be32(&mut f, 7);
    push_be32(&mut f, 0x396F0000);
    push_be32(&mut f, 0);
    push_be32(&mut f, 0);
    push_be32(&mut f, 32);
    push_be32(&mut f, 8);
    push_be32(&mut f, 1);
    push_be32(&mut f, 1);
    assert(f@ =~= fcis_record());
    f
}

/// Build the end-of-file marker.
pub fn build_eof_marker() -> (r: Vec<u8>)
    ensures
        r@ == eof_record(),
{
    let mut f: Vec<u8> = Vec::new();
    f.push(0xE9);
    f.push(0x8E);
    f.push(0x0D);
    f.push(0x0A);
    assert(f@ =~= eof_record());
    f
}

/// All records, one after another.
pub open spec fn concat(rs: Seq<Seq<u8>>) -> Seq<u8>
    decreases rs.len(),
{
    if rs.len() == 0 {
        Seq::empty()
    } else {
        concat(rs.drop_last()) + rs.last()
    }
}

/// The views of a vector of byte vectors.
pub open spec fn views(rs: Seq<Vec<u8>>) -> Seq<Seq<u8>> {
    rs.map_values(|r: Vec<u8>| r@)
}

/// Offset in the file of record `i`, when the records start at `base`.
pub open spec fn record_offset(rs: Seq<Seq<u8>>, base: nat, i: int) -> nat {
    base + concat(rs.subrange(0, i)).len()
}

/// One entry of the record list: offset, attributes (0) and the unique id
/// `2 * i` in three bytes.
pub open spec fn record_entry(rs: Seq<Seq<u8>>, base: nat, i: int) -> Seq<u8> {
    be32(record_offset(rs, base, i) as u32) + seq![0u8] + be24((2 * i) as u32)
}

/// The record list for the first `n` records.
pub open spec fn record_list(rs: Seq<Seq<u8>>, base: nat, n: nat) -> Seq<u8>
    decreases n,
{
    if n == 0 {
        Seq::empty()
    } else {
        record_list(rs, base, (n - 1) as nat) + record_entry(rs, base, n - 1)
    }
}

/// Where record data starts: after the header, the eight-byte entries of the
/// record list and a two-byte gap.
pub open spec fn data_start(header_len: nat, n: nat) -> nat {
    header_len + 8 * n + 2
}

/// A PalmDB file: header, record list, two-byte gap, records.
pub open spec fn pdb_file(header: Seq<u8>, rs: Seq<Seq<u8>>) -> Seq<u8> {
    header + record_list(rs, data_start(header.len(), rs.len()), rs.len()) + seq![0u8, 0u8]
        + concat(rs)
}

proof fn lemma_concat_prefix_len(rs: Seq<Seq<u8>>, i: int)
    requires
        0 <= i <= rs.len(),
    ensures
        concat(rs.subrange(0, i)).len() <= concat(rs).len(),
    decreases rs.len() - i,
{
    if i < rs.len() {
        lemma_concat_prefix_len(rs, i + 1);
        assert(rs.subrange(0, i + 1).drop_last() =~= rs.subrange(0, i));
    } else {
        assert(rs.subrange(0, i) =~= rs);
    }
}

proof fn lemma_record_list_len(rs: Seq<Seq<u8>>, base: nat, n: nat)
    ensures
        record_list(rs, base, n).len() == 8 * n,
    decreases n,
{
    if n > 0 {
        lemma_record_list_len(rs, base, (n - 1) as nat);
    }
}

/// Assemble a PalmDB file from its header and records.
pub fn write_pdb(header: &Vec<u8>, records: &Vec<Vec<u8>>) -> (r: Vec<u8>)
    requires
        records@.len() <= 32767,
        data_start(header@.len(), records@.len()) + concat(views(records@)).len() <= 0xFFFF_FFFF,
    ensures
        r@ == pdb_file(header@, views(records@)),
{
    let ghost rs = views(records@);
    let n = records.len();
    let mut out: Vec<u8> = Vec::new();
    push_all(&mut out, header);
    let base: usize = header.len() + 8 * n + 2;
    let mut offset: usize = base;
    let mut i: usize = 0;
    while i < n
        invariant
            n == records@.len(),
            rs == views(records@),
            n <= 32767,
            base == data_start(header@.len(), n as nat),
            base + concat(rs).len() <= 0xFFFF_FFFF,
            i <= n,
            offset == record_offset(rs, base as nat, i as int),
            out@ == header@ + record_list(rs, base as nat, i as nat),
        decreases n - i,
    {
        proof {
            lemma_concat_prefix_len(rs, i + 1);
            assert(rs.subrange(0, i + 1).drop_last() =~= rs.subrange(0, i as int));
            assert(rs.subrange(0, i + 1).last() == records@[i as int]@);
        }
        push_be32(&mut out, offset as u32);
        out.push(0);
        let uid: u32 = (2 * i) as u32;
        out.push((uid / 65536 % 256) as u8);
        out.push((uid / 256 % 256) as u8);
        out.push((uid % 256) as u8);
        proof {
            reveal(be24);
            assert(out@ =~= header@ + record_list(rs, base as nat, (i + 1) as nat));
        }
        offset = offset + records[i].len();
        i = i + 1;
    }
    out.push(0);
    out.push(0);
    let ghost before = out@;
    let mut j: usize = 0;
    while j < n
        invariant
            n == records@.len(),
            rs == views(records@),
            j <= n,
            out@ == before + concat(rs.subrange(0, j as int)),
        decreases n - j,
    {
        push_all(&mut out, &records[j]);
        proof {
            assert(rs.subrange(0, j + 1).drop_last() =~= rs.subrange(0, j as int));
            assert(out@ =~= before + concat(rs.subrange(0, j + 1)));
        }
        j = j + 1;
    }
    assert(rs.subrange(0, n as int) =~= rs);
    assert(out@ =~= pdb_file(header@, rs));
    out
}

proof fn lemma_concat_prefix(rs: Seq<Seq<u8>>, j: int)
    requires
        0 <= j <= rs.len(),
    ensures
        concat(rs.subrange(0, j)).len() <= concat(rs).len(),
        concat(rs).subrange(0, concat(rs.subrange(0, j)).len() as int) == concat(rs.subrange(0, j)),
    decreases rs.len() - j,
{
    if j == rs.len() {
        assert(rs.subrange(0, j) =~= rs);
        assert(concat(rs).subrange(0, concat(rs).len() as int) =~= concat(rs));
    } else {
        lemma_concat_prefix(rs, j + 1);
        let a = concat(rs.subrange(0, j));
        let b = concat(rs.subrange(0, j + 1));
        assert(rs.subrange(0, j + 1).drop_last() =~= rs.subrange(0, j));
        assert(b == a + rs[j]);
        assert(concat(rs).subrange(0, a.len() as int) =~= b.subrange(0, a.len() as int));
        assert(b.subrange(0, a.len() as int) =~= a);
    }
}

proof fn lemma_record_list_entry(rs: Seq<Seq<u8>>, base: nat, n: nat, i: int)
    requires
        0 <= i < n,
    ensures
        record_list(rs, base, n).len() == 8 * n,
        record_list(rs, base, n).subrange(8 * i, 8 * i + 8) == record_entry(rs, base, i),
    decreases n,
{
    lemma_record_list_len(rs, base, n);
    lemma_record_list_len(rs, base, (n - 1) as nat);
    let prev = record_list(rs, base, (n - 1) as nat);
    let cur = record_list(rs, base, n);
    if i == n - 1 {
        assert(cur.subrange(8 * i, 8 * i + 8) =~= record_entry(rs, base, i));
    } else {
        lemma_record_list_entry(rs, base, (n - 1) as nat, i);
        assert(cur.subrange(8 * i, 8 * i + 8) =~= prev.subrange(8 * i, 8 * i + 8));
    }
}

/// Law of the PalmDB layout: the `i`-th entry of the record list stands at
/// byte `header.len() + 8 * i`, it names the offset of record `i` and the
/// unique id `2 * i`, and record `i`'s bytes stand at that offset.
pub proof fn lemma_record_located(header: Seq<u8>, rs: Seq<Seq<u8>>, i: int)
    requires
        0 <= i < rs.len(),
    ensures
        ({
            let file = pdb_file(header, rs);
            let base = data_start(header.len(), rs.len());
            let off = record_offset(rs, base, i);
            &&& file.subrange(header.len() + 8 * i, header.len() + 8 * i + 8) == be32(off as u32)
                + seq![0u8] + be24((2 * i) as u32)
            &&& off + rs[i].len() <= file.len()
            &&& file.subrange(off as int, (off + rs[i].len()) as int) == rs[i]
        }),
{
    let file = pdb_file(header, rs);
    let base = data_start(header.len(), rs.len());
    let list = record_list(rs, base, rs.len());
    lemma_record_list_entry(rs, base, rs.len(), i);
    let pre = header + list + seq![0u8, 0u8];
    assert(pre.len() == base);
    assert(file == pre + concat(rs));
    assert(file.subrange(header.len() + 8 * i, header.len() + 8 * i + 8) =~= list.subrange(8 * i, 8 * i + 8));
    lemma_concat_prefix(rs, i);
    lemma_concat_prefix(rs, i + 1);
    let a = concat(rs.subrange(0, i));
    let b = concat(rs.subrange(0, i + 1));
    assert(rs.subrange(0, i + 1).drop_last() =~= rs.subrange(0, i));
    assert(b == a + rs[i]);
    let off = record_offset(rs, base, i);
    assert(off == base + a.len());
    assert(file.subrange(off as int, (off + rs[i].len()) as int) =~= concat(rs).subrange(a.len() as int, b.len() as int));
    assert(concat(rs).subrange(a.len() as int, b.len() as int) =~= b.subrange(a.len() as int, b.len() as int));
    assert(b.subrange(a.len() as int, b.len() as int) =~= rs[i]);
}

/// The PalmDB header is 78 bytes long.
pub proof fn lemma_palmdb_header_len(title: Seq<char>, now: u32, num_records: u16)
    ensures
        palmdb_header(title, now, num_records).len() == 78,
{
    reveal_strlit("BOOKMOBI");
}

} // verus!
