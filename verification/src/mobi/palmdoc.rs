//! PalmDoc (LZ77-style) compression as used for MOBI text records.
//!
//! A compressed stream is a sequence of tokens, each decoded in turn:
//! - `0x01..=0x08`: that many following bytes are copied verbatim;
//! - `0x00`, `0x09..=0x7F`: the byte itself;
//! - `0xC0..=0xFF`: a space followed by the byte `b ^ 0x80`;
//! - `0x80..=0xBF` + one more byte: the 14 low bits hold an 11-bit distance
//!   and a 3-bit length; `length + 3` bytes are copied from `distance` bytes
//!   back in the output (the copy may overlap what it writes).

use vstd::prelude::*;

verus! {

/// Append `n` bytes to `out`, each a copy of the byte `dist` positions before
/// the end of the output written so far.
pub open spec fn copy_back(out: Seq<u8>, dist: int, n: nat) -> Seq<u8>
    decreases n,
{
    if n == 0 {
        out
    } else {
        copy_back(out.push(out[out.len() - dist]), dist, (n - 1) as nat)
    }
}

/// Decode the token stream `c`, appending to `out`; `None` when a token is
/// truncated or a back-reference reaches before the start of the output.
pub open spec fn decode_from(c: Seq<u8>, out: Seq<u8>) -> Option<Seq<u8>>
    decreases c.len(),
{
    if c.len() == 0 {
        Some(out)
    } else {
        let b = c[0];
        if 1 <= b <= 8 {
            if c.len() < 1 + b {
                None
            } else {
                decode_from(c.subrange(1 + b, c.len() as int), out + c.subrange(1, 1 + b))
            }
        } else if b < 0x80 {
            decode_from(c.subrange(1, c.len() as int), out.push(b))
        } else if b >= 0xC0 {
            decode_from(c.subrange(1, c.len() as int), out.push(0x20u8).push((b - 0x80) as u8))
        } else if c.len() < 2 {
            None
        } else {
            let v = (b - 0x80) * 256 + c[1];
            let dist = v / 8;
            let n = v % 8 + 3;
            if dist == 0 || dist > out.len() {
                None
            } else {
                decode_from(c.subrange(2, c.len() as int), copy_back(out, dist, n as nat))
            }
        }
    }
}

/// The bytes a PalmDoc stream decodes to.
pub open spec fn palmdoc_decode(c: Seq<u8>) -> Option<Seq<u8>> {
    decode_from(c, Seq::empty())
}

/// Decoding a stream in two pieces that split at a token boundary.
pub proof fn lemma_decode_append(c1: Seq<u8>, c2: Seq<u8>, out: Seq<u8>)
    requires
        decode_from(c1, out).is_some(),
    ensures
        decode_from(c1 + c2, out) == decode_from(c2, decode_from(c1, out).unwrap()),
    decreases c1.len(),
{
    if c1.len() == 0 {
        assert(c1 + c2 =~= c2);
    } else {
        let c = c1 + c2;
        let b = c1[0];
        assert(c[0] == b);
        if 1 <= b <= 8 {
            assert(c.subrange(1 + b, c.len() as int) =~= c1.subrange(1 + b, c1.len() as int) + c2);
            assert(c.subrange(1, 1 + b) =~= c1.subrange(1, 1 + b));
            lemma_decode_append(c1.subrange(1 + b, c1.len() as int), c2, out + c1.subrange(1, 1 + b));
        } else if b < 0x80 || b >= 0xC0 {
            assert(c.subrange(1, c.len() as int) =~= c1.subrange(1, c1.len() as int) + c2);
            if b < 0x80 {
                lemma_decode_append(c1.subrange(1, c1.len() as int), c2, out.push(b));
            } else {
                lemma_decode_append(c1.subrange(1, c1.len() as int), c2, out.push(0x20u8).push((b - 0x80) as u8));
            }
        } else {
            assert(c[1] == c1[1]);
            assert(c.subrange(2, c.len() as int) =~= c1.subrange(2, c1.len() as int) + c2);
            let v = (b - 0x80) * 256 + c1[1];
            lemma_decode_append(c1.subrange(2, c1.len() as int), c2, copy_back(out, v / 8, (v % 8 + 3) as nat));
        }
    }
}

/// Copying back from a region that already repeats yields the next bytes of
/// the data.
proof fn lemma_copy_back_match(data: Seq<u8>, pos: int, dist: int, n: nat)
    requires
        1 <= dist <= pos,
        pos + n <= data.len(),
        forall|k: int| 0 <= k < n ==> data[pos + k] == #[trigger] data[pos - dist + k],
    ensures
        copy_back(data.subrange(0, pos), dist, n) == data.subrange(0, pos + n),
    decreases n,
{
    if n > 0 {
        let out = data.subrange(0, pos);
        assert(out[out.len() - dist] == data[pos - dist]);
        assert(data[pos + 0] == data[pos - dist + 0]);
        assert(out.push(out[out.len() - dist]) =~= data.subrange(0, pos + 1));
        assert forall|k: int| 0 <= k < n - 1 implies data[pos + 1 + k] == #[trigger] data[pos + 1
            - dist + k] by {
            assert(data[pos + (k + 1)] == data[pos - dist + (k + 1)]);
        }
        lemma_copy_back_match(data, pos + 1, dist, (n - 1) as nat);
    }
}

/// Bytes that a decoder would misread if written as plain literals.
pub open spec fn needs_escape(b: u8) -> bool {
    (1 <= b <= 8) || b >= 0x80
}

/// Size of the hash table that remembers where three-byte sequences were seen.
const HASH_SIZE: usize = 4096;

fn hash3(a: u8, b: u8, c: u8) -> (h: usize)
    ensures
        h < HASH_SIZE,
        h as int == (a * 1031 + b * 37 + c) % 4096,
{
    (((a as usize) * 1031 + (b as usize) * 37 + (c as usize)) % HASH_SIZE)
}

/// Length of the longest run, up to 10 bytes, on which `data[pos..]` repeats
/// `data[cand..]`.
fn match_len(data: &[u8], cand: usize, pos: usize) -> (n: usize)
    requires
        cand < pos <= data.len(),
    ensures
        n <= 10,
        pos + n <= data.len(),
        forall|k: int| 0 <= k < n ==> data@[pos + k] == #[trigger] data@[cand + k],
        n < 10 && pos + n < data.len() ==> data@[pos + n] != data@[cand + n],
{
    let mut n: usize = 0;
    while n < 10 && pos + n < data.len() && data[cand + n] == data[pos + n]
        invariant
            cand < pos <= data.len(),
            n <= 10,
            pos + n <= data.len(),
            forall|k: int| 0 <= k < n ==> data@[pos + k] == #[trigger] data@[cand + k],
        decreases 10 - n,
    {
        n = n + 1;
    }
    n
}

/// Compress `data` into a PalmDoc stream.
///
/// Repeats of 3 to 10 bytes within the previous 2047 bytes become
/// back-references, a space before a byte in `0x40..=0x7F` becomes one byte,
/// and bytes that cannot stand as literals are escaped in runs of up to 8.
pub fn compress(data: &[u8]) -> (r: Vec<u8>)
    ensures
        palmdoc_decode(r@) == Some(data@),
{
    let mut out: Vec<u8> = Vec::new();
    let mut table: Vec<usize> = Vec::new();
    let mut t: usize = 0;
    while t < HASH_SIZE
        invariant
            t <= HASH_SIZE,
            table@.len() == t,
        decreases HASH_SIZE - t,
    {
        table.push(usize::MAX);
        t = t + 1;
    }
    let n = data.len();
    let mut pos: usize = 0;
    assert(data@.subrange(0, 0) =~= Seq::<u8>::empty());
    while pos < n
        invariant
            n == data.len(),
            pos <= n,
            table@.len() == HASH_SIZE,
            palmdoc_decode(out@) == Some(data@.subrange(0, pos as int)),
        decreases n - pos,
    {
        let ghost before = out@;
        let ghost prefix = data@.subrange(0, pos as int);
        // Back-reference through the hash table
        let mut best: usize = 0;
        let mut best_dist: usize = 0;
        if n - pos >= 3 {
            let h = hash3(data[pos], data[pos + 1], data[pos + 2]);
            let cand = table[h];
            table.set(h, pos);
            if cand < pos && pos - cand <= 2047 {
                let m = match_len(data, cand, pos);
                if m >= 3 {
                    best = m;
                    best_dist = pos - cand;
                }
            }
        }
        if best >= 3 {
            let v = best_dist * 8 + (best - 3);
            assert(v < 16384) by (nonlinear_arith)
                requires
                    best_dist <= 2047,
                    3 <= best <= 10,
                    v == best_dist * 8 + (best - 3),
            ;
            let b1 = (0x80 + v / 256) as u8;
            let b2 = (v % 256) as u8;
            out.push(b1);
            out.push(b2);
            proof {
                let tok = seq![b1, b2];
                assert(out@ =~= before + tok);
                let vv = (b1 - 0x80) * 256 + b2;
                assert(vv == v) by (nonlinear_arith)
                    requires
                        b1 == 0x80 + v / 256,
                        b2 == v % 256,
                        vv == (b1 - 0x80) * 256 + b2,
                ;
                assert(v / 8 == best_dist && v % 8 + 3 == best) by (nonlinear_arith)
                    requires
                        v == best_dist * 8 + (best - 3),
                        3 <= best <= 10,
                ;
                lemma_copy_back_match(data@, pos as int, best_dist as int, best as nat);
                assert(prefix =~= data@.subrange(0, pos as int));
                assert(tok.subrange(2, 2) =~= Seq::<u8>::empty());
                assert(0x80 <= b1 && b1 < 0xC0);
                assert(tok[0] == b1 && tok[1] == b2 && tok.len() == 2);
                assert(decode_from(tok.subrange(2, 2), copy_back(prefix, best_dist as int, best as nat))
                    == Some(data@.subrange(0, pos + best)));
                assert(decode_from(tok, prefix) == Some(data@.subrange(0, pos + best)));
                lemma_decode_append(before, tok, Seq::empty());
                assert(palmdoc_decode(out@) == Some(data@.subrange(0, pos + best)));
            }
            pos = pos + best;
        } else if data[pos] == 0x20 && pos + 1 < n && data[pos + 1] >= 0x40 && data[pos + 1] <= 0x7F {
            let b = data[pos + 1] + 0x80;
            out.push(b);
            proof {
                let tok = seq![b];
                assert(out@ =~= before + tok);
                assert(tok.subrange(1, 1) =~= Seq::<u8>::empty());
                assert(prefix.push(0x20u8).push((b - 0x80) as u8) =~= data@.subrange(0, pos + 2));
                assert(decode_from(tok.subrange(1, 1), prefix.push(0x20u8).push((b - 0x80) as u8))
                    == Some(data@.subrange(0, pos + 2)));
                assert(decode_from(tok, prefix) == Some(data@.subrange(0, pos + 2)));
                lemma_decode_append(before, tok, Seq::empty());
                assert(palmdoc_decode(out@) == Some(data@.subrange(0, pos + 2)));
            }
            pos = pos + 2;
        } else if !(data[pos] >= 1 && data[pos] <= 8) && data[pos] < 0x80 {
            let b = data[pos];
            out.push(b);
            proof {
                let tok = seq![b];
                assert(out@ =~= before + tok);
                assert(tok.subrange(1, 1) =~= Seq::<u8>::empty());
                assert(prefix.push(b) =~= data@.subrange(0, pos + 1));
                assert(decode_from(tok.subrange(1, 1), prefix.push(b)) == Some(data@.subrange(0, pos + 1)));
                assert(decode_from(tok, prefix) == Some(data@.subrange(0, pos + 1)));
                lemma_decode_append(before, tok, Seq::empty());
                assert(palmdoc_decode(out@) == Some(data@.subrange(0, pos + 1)));
            }
            pos = pos + 1;
        } else {
            // A run of up to 8 bytes copied verbatim
            let mut k: usize = 1;
            while k < 8 && pos + k < n && ((data[pos + k] >= 1 && data[pos + k] <= 8) || data[pos + k] >= 0x80)
                invariant
                    1 <= k <= 8,
                    pos + k <= n,
                    n == data.len(),
                decreases 8 - k,
            {
                k = k + 1;
            }
            out.push(k as u8);
            let mut j: usize = 0;
            while j < k
                invariant
                    j <= k,
                    1 <= k <= 8,
                    pos + k <= n,
                    n == data.len(),
                    out@ == before + seq![k as u8] + data@.subrange(pos as int, pos + j),
                decreases k - j,
            {
                out.push(data[pos + j]);
                j = j + 1;
                assert(out@ =~= before + seq![k as u8] + data@.subrange(pos as int, pos + j));
            }
            proof {
                let tok = seq![k as u8] + data@.subrange(pos as int, pos + k);
                assert(out@ =~= before + tok);
                assert(tok.subrange(1 + k, tok.len() as int) =~= Seq::<u8>::empty());
                assert(tok.subrange(1, 1 + k) =~= data@.subrange(pos as int, pos + k));
                assert(prefix + data@.subrange(pos as int, pos + k) =~= data@.subrange(0, pos + k));
                assert(decode_from(tok.subrange(1 + k, tok.len() as int), prefix + tok.subrange(1, 1 + k))
                    == Some(data@.subrange(0, pos + k)));
                assert(decode_from(tok, prefix) == Some(data@.subrange(0, pos + k)));
                lemma_decode_append(before, tok, Seq::empty());
                assert(palmdoc_decode(out@) == Some(data@.subrange(0, pos + k)));
            }
            pos = pos + k;
        }
    }
    assert(data@.subrange(0, n as int) =~= data@);
    out
}

/// Decode a PalmDoc stream; `None` for a malformed stream.
pub fn decompress(c: &[u8]) -> (r: Option<Vec<u8>>)
    ensures
        match r {
            Some(v) => palmdoc_decode(c@) == Some(v@),
            None => palmdoc_decode(c@).is_none(),
        },
{
    let mut out: Vec<u8> = Vec::new();
    let mut i: usize = 0;
    assert(c@.subrange(0, c@.len() as int) =~= c@);
    while i < c.len()
        invariant
            i <= c.len(),
            palmdoc_decode(c@) == decode_from(c@.subrange(i as int, c.len() as int), out@),
        decreases c.len() - i,
    {
        let ghost rest = c@.subrange(i as int, c.len() as int);
        let b = c[i];
        if b >= 1 && b <= 8 {
            let k = b as usize;
            if c.len() - i < 1 + k {
                return None;
            }
            let mut j: usize = 0;
            let ghost start = out@;
            while j < k
                invariant
                    j <= k,
                    i + 1 + k <= c.len(),
                    out@ == start + c@.subrange(i + 1, i + 1 + j),
                decreases k - j,
            {
                out.push(c[i + 1 + j]);
                j = j + 1;
                assert(out@ =~= start + c@.subrange(i + 1, i + 1 + j));
            }
            assert(rest.subrange(1 + b, rest.len() as int) =~= c@.subrange(i + 1 + k, c.len() as int));
            assert(rest.subrange(1, 1 + b) =~= c@.subrange(i + 1, i + 1 + k));
            i = i + 1 + k;
        } else if b < 0x80 {
            out.push(b);
            assert(rest.subrange(1, rest.len() as int) =~= c@.subrange(i + 1, c.len() as int));
            i = i + 1;
        } else if b >= 0xC0 {
            out.push(0x20);
            out.push(b - 0x80);
            assert(rest.subrange(1, rest.len() as int) =~= c@.subrange(i + 1, c.len() as int));
            i = i + 1;
        } else {
            if c.len() - i < 2 {
                return None;
            }
            let v = ((b - 0x80) as usize) * 256 + (c[i + 1] as usize);
            let dist = v / 8;
            let cnt = v % 8 + 3;
            if dist == 0 || dist > out.len() {
                return None;
            }
            let mut j: usize = 0;
            let ghost start = out@;
            while j < cnt
                invariant
                    j <= cnt,
                    1 <= dist <= start.len(),
                    copy_back(start, dist as int, cnt as nat) == copy_back(out@, dist as int, (cnt - j) as nat),
                    out@.len() == start.len() + j,
                decreases cnt - j,
            {
                let x = out[out.len() - dist];
                out.push(x);
                j = j + 1;
            }
            assert(rest.subrange(2, rest.len() as int) =~= c@.subrange(i + 2, c.len() as int));
            i = i + 2;
        }
    }
    Some(out)
}

} // verus!
