//! Byte-string primitives shared by the HTML rewriting and record building
//! code: pattern search, replacement, decimal formatting and parsing.

use vstd::prelude::*;

verus! {

/// `pat` occurs in `s` starting at byte `i`.
pub open spec fn match_at(s: Seq<u8>, pat: Seq<u8>, i: int) -> bool {
    0 <= i && i + pat.len() <= s.len() && s.subrange(i, i + pat.len()) == pat
}

/// Position of the first occurrence of `pat` in `s` at or after `from`.
pub open spec fn find_from(s: Seq<u8>, pat: Seq<u8>, from: int) -> Option<int>
    decreases s.len() + 1 - from,
{
    if from < 0 || from + pat.len() > s.len() {
        None
    } else if match_at(s, pat, from) {
        Some(from)
    } else {
        find_from(s, pat, from + 1)
    }
}

/// Characterises `find_from` by its first match.
pub proof fn lemma_find_from(s: Seq<u8>, pat: Seq<u8>, from: int)
    requires
        0 <= from,
    ensures
        match find_from(s, pat, from) {
            Some(i) => from <= i && match_at(s, pat, i) && forall|j: int|
                from <= j < i ==> !match_at(s, pat, j),
            None => forall|j: int| from <= j ==> !match_at(s, pat, j),
        },
    decreases s.len() + 1 - from,
{
    if from + pat.len() > s.len() {
    } else if match_at(s, pat, from) {
    } else {
        lemma_find_from(s, pat, from + 1);
        match find_from(s, pat, from + 1) {
            Some(i) => {
                assert forall|j: int| from <= j < i implies !match_at(s, pat, j) by {
                    if j > from {
                    }
                }
            },
            None => {
                assert forall|j: int| from <= j implies !match_at(s, pat, j) by {
                    if j > from {
                    }
                }
            },
        }
    }
}

/// A first match found by other means is the one `find_from` names.
pub proof fn lemma_find_from_unique(s: Seq<u8>, pat: Seq<u8>, from: int, i: int)
    requires
        0 <= from <= i,
        match_at(s, pat, i),
        forall|j: int| from <= j < i ==> !match_at(s, pat, j),
    ensures
        find_from(s, pat, from) == Some(i),
{
    lemma_find_from(s, pat, from);
    match find_from(s, pat, from) {
        Some(k) => {
            if k < i {
                assert(!match_at(s, pat, k));
            }
            if k > i {
                assert(!match_at(s, pat, i));
            }
        },
        None => {
            assert(!match_at(s, pat, i));
        },
    }
}

/// `s` begins with `pat` at `i` (executable check).
pub fn bytes_match_at(s: &[u8], pat: &[u8], i: usize) -> (r: bool)
    ensures
        r == match_at(s@, pat@, i as int),
{
    if i > s.len() || pat.len() > s.len() - i {
        return false;
    }
    let mut k: usize = 0;
    while k < pat.len()
        invariant
            i + pat.len() <= s.len(),
            k <= pat.len(),
            forall|m: int| 0 <= m < k ==> s@[i + m] == pat@[m],
        decreases pat.len() - k,
    {
        if s[i + k] != pat[k] {
            assert(s@.subrange(i as int, i + pat@.len())[k as int] != pat@[k as int]);
            return false;
        }
        k = k + 1;
    }
    assert(s@.subrange(i as int, i + pat@.len()) =~= pat@);
    true
}

/// First occurrence of `pat` in `s` at or after `from`.
pub fn find_bytes(s: &[u8], pat: &[u8], from: usize) -> (r: Option<usize>)
    ensures
        match r {
            Some(i) => find_from(s@, pat@, from as int) == Some(i as int),
            None => find_from(s@, pat@, from as int).is_none(),
        },
{
    let mut i = from;
    while i <= s.len() && pat.len() <= s.len() - i
        invariant
            from <= i,
            find_from(s@, pat@, from as int) == find_from(s@, pat@, i as int),
        decreases s.len() + 1 - i,
    {
        proof {
            if pat.len() == 0 {
                assert(s@.subrange(i as int, i as int) =~= pat@);
            }
        }
        if bytes_match_at(s, pat, i) {
            return Some(i);
        }
        i = i + 1;
    }
    None
}

/// `pat` occurs somewhere in `s`.
pub open spec fn contains(s: Seq<u8>, pat: Seq<u8>) -> bool {
    exists|i: int| match_at(s, pat, i)
}

/// Executable `contains`.
pub fn contains_bytes(s: &[u8], pat: &[u8]) -> (r: bool)
    ensures
        r == contains(s@, pat@),
{
    proof {
        lemma_find_from(s@, pat@, 0);
    }
    match find_bytes(s, pat, 0) {
        Some(i) => {
            assert(match_at(s@, pat@, i as int));
            true
        },
        None => {
            assert forall|i: int| !match_at(s@, pat@, i) by {
                if i >= 0 {
                }
            }
            false
        },
    }
}

/// `s` starts with `pat`.
pub open spec fn starts_with(s: Seq<u8>, pat: Seq<u8>) -> bool {
    match_at(s, pat, 0)
}

/// `s` ends with `pat`.
pub open spec fn ends_with(s: Seq<u8>, pat: Seq<u8>) -> bool {
    pat.len() <= s.len() && match_at(s, pat, s.len() - pat.len())
}

/// Executable `ends_with`.
pub fn ends_with_bytes(s: &[u8], pat: &[u8]) -> (r: bool)
    ensures
        r == ends_with(s@, pat@),
{
    if pat.len() > s.len() {
        return false;
    }
    bytes_match_at(s, pat, s.len() - pat.len())
}

/// Replace every non-overlapping occurrence of `pat`, scanning left to right
/// from `from`, by `rep`; the bytes before `from` are not part of the result.
pub open spec fn replace_from(s: Seq<u8>, pat: Seq<u8>, rep: Seq<u8>, from: int) -> Seq<u8>
    recommends
        pat.len() > 0,
    decreases s.len() - from,
    when 0 <= from <= s.len() && pat.len() > 0
{
    match find_from(s, pat, from) {
        None => s.subrange(from, s.len() as int),
        Some(i) => {
            proof {
                lemma_find_from(s, pat, from);
            }
            s.subrange(from, i) + rep + replace_from(s, pat, rep, i + pat.len())
        },
    }
}

/// `str::replace` on bytes: every non-overlapping occurrence of `pat`, left
/// to right, becomes `rep`.
pub open spec fn replace_all(s: Seq<u8>, pat: Seq<u8>, rep: Seq<u8>) -> Seq<u8> {
    replace_from(s, pat, rep, 0)
}

/// Append `src` to `out`.
pub fn push_all(out: &mut Vec<u8>, src: &[u8])
    ensures
        final(out)@ == old(out)@ + src@,
{
    let ghost start = out@;
    let mut k: usize = 0;
    while k < src.len()
        invariant
            k <= src.len(),
            out@ == start + src@.subrange(0, k as int),
        decreases src.len() - k,
    {
        out.push(src[k]);
        k = k + 1;
        assert(out@ =~= start + src@.subrange(0, k as int));
    }
    assert(src@.subrange(0, src@.len() as int) =~= src@);
}

/// Append `src[lo..hi]` to `out`.
pub fn push_range(out: &mut Vec<u8>, src: &[u8], lo: usize, hi: usize)
    requires
        lo <= hi <= src.len(),
    ensures
        final(out)@ == old(out)@ + src@.subrange(lo as int, hi as int),
{
    let ghost start = out@;
    let mut k: usize = lo;
    while k < hi
        invariant
            lo <= k <= hi,
            hi <= src.len(),
            out@ == start + src@.subrange(lo as int, k as int),
        decreases hi - k,
    {
        out.push(src[k]);
        k = k + 1;
        assert(out@ =~= start + src@.subrange(lo as int, k as int));
    }
}

/// Executable `replace_all`.
pub fn replace_bytes(s: &[u8], pat: &[u8], rep: &[u8]) -> (r: Vec<u8>)
    requires
        pat.len() > 0,
    ensures
        r@ == replace_all(s@, pat@, rep@),
{
    let mut out: Vec<u8> = Vec::new();
    let mut pos: usize = 0;
    loop
        invariant
            pos <= s.len(),
            pat.len() > 0,
            out@ + replace_from(s@, pat@, rep@, pos as int) == replace_all(s@, pat@, rep@),
        decreases s.len() - pos,
    {
        proof {
            lemma_find_from(s@, pat@, pos as int);
        }
        match find_bytes(s, pat, pos) {
            None => {
                push_range(&mut out, s, pos, s.len());
                assert(out@ == replace_all(s@, pat@, rep@));
                return out;
            },
            Some(i) => {
                let ghost before = out@;
                push_range(&mut out, s, pos, i);
                push_all(&mut out, rep);
                assert(out@ + replace_from(s@, pat@, rep@, (i + pat.len()) as int) =~= before
                    + replace_from(s@, pat@, rep@, pos as int));
                pos = i + pat.len();
            },
        }
    }
}

/// Decimal digits of `n`, most significant first, without leading zeros
/// (`0` is `"0"`).
pub open spec fn decimal(n: nat) -> Seq<u8>
    decreases n,
{
    if n < 10 {
        seq![(48 + n) as u8]
    } else {
        decimal(n / 10).push((48 + n % 10) as u8)
    }
}

/// Every byte of `decimal(n)` is an ASCII digit.
pub proof fn lemma_decimal_digits(n: nat)
    ensures
        forall|i: int| 0 <= i < decimal(n).len() ==> 48 <= #[trigger] decimal(n)[i] <= 57,
    decreases n,
{
    if n >= 10 {
        lemma_decimal_digits(n / 10);
        let d = decimal(n / 10);
        assert forall|i: int| 0 <= i < decimal(n).len() implies 48 <= #[trigger] decimal(n)[i] <= 57 by {
            if i < d.len() {
                assert(decimal(n)[i] == d[i]);
            }
        }
    }
}

/// `decimal(n)` left-padded with `'0'` to at least `width` digits, as
/// `format!("{:0width$}", n)` writes it.
pub open spec fn decimal_padded(n: nat, width: nat) -> Seq<u8> {
    let d = decimal(n);
    if d.len() >= width {
        d
    } else {
        Seq::new((width - d.len()) as nat, |i: int| 48u8) + d
    }
}

/// Append the decimal digits of `n` to `out`.
pub fn push_decimal(out: &mut Vec<u8>, n: u64)
    ensures
        final(out)@ == old(out)@ + decimal(n as nat),
{
    let mut digits: Vec<u8> = Vec::new();
    let mut m = n;
    // digits holds the low-order digits of n, least significant first
    let ghost start = out@;
    loop
        invariant_except_break
            decimal(n as nat) == decimal(m as nat) + digits@.reverse(),
        ensures
            decimal(n as nat) == digits@.reverse(),
        decreases m,
    {
        let ghost old_digits = digits@;
        if m < 10 {
            digits.push((48 + m) as u8);
            proof {
                assert(digits@.reverse() =~= seq![(48 + m) as u8] + old_digits.reverse());
            }
            break;
        }
        let d = (48 + m % 10) as u8;
        digits.push(d);
        proof {
            assert(digits@.reverse() =~= seq![d] + old_digits.reverse());
            assert(decimal(m as nat) == decimal((m / 10) as nat).push(d));
            assert(decimal((m / 10) as nat).push(d) + old_digits.reverse() =~= decimal(
                (m / 10) as nat,
            ) + digits@.reverse());
        }
        m = m / 10;
    }
    assert(decimal(n as nat) == digits@.reverse());
    let mut k = digits.len();
    while k > 0
        invariant
            k <= digits.len(),
            out@ == start + digits@.reverse().subrange(0, (digits.len() - k) as int),
        decreases k,
    {
        k = k - 1;
        out.push(digits[k]);
        assert(out@ =~= start + digits@.reverse().subrange(0, (digits.len() - k) as int));
    }
    assert(digits@.reverse().subrange(0, digits@.len() as int) =~= digits@.reverse());
}

/// Append `n` in decimal, zero-padded to at least `width` digits.
pub fn push_decimal_padded(out: &mut Vec<u8>, n: u64, width: usize)
    ensures
        final(out)@ == old(out)@ + decimal_padded(n as nat, width as nat),
{
    let mut digits: Vec<u8> = Vec::new();
    push_decimal(&mut digits, n);
    assert(digits@ == decimal(n as nat));
    if digits.len() < width {
        let ghost start = out@;
        let pad = width - digits.len();
        let mut k: usize = 0;
        while k < pad
            invariant
                k <= pad,
                out@ == start + Seq::new(k as nat, |i: int| 48u8),
            decreases pad - k,
        {
            out.push(48u8);
            k = k + 1;
            assert(out@ =~= start + Seq::new(k as nat, |i: int| 48u8));
        }
    }
    let ghost mid = out@;
    push_all(out, &digits);
    assert(out@ =~= old(out)@ + decimal_padded(n as nat, width as nat));
}


/// Big-endian bytes of a 16-bit value.
#[verifier::opaque]
pub open spec fn be16(x: u16) -> Seq<u8> {
    seq![(x / 256) as u8, (x % 256) as u8]
}

/// Big-endian bytes of a 32-bit value.
#[verifier::opaque]
pub open spec fn be32(x: u32) -> Seq<u8> {
    seq![(x / 16777216) as u8, ((x / 65536) % 256) as u8, ((x / 256) % 256) as u8, (x % 256) as u8]
}

/// The low three bytes of a 32-bit value, big-endian.
#[verifier::opaque]
pub open spec fn be24(x: u32) -> Seq<u8> {
    seq![((x / 65536) % 256) as u8, ((x / 256) % 256) as u8, (x % 256) as u8]
}

/// Byte count of the 32-bit big-endian encoding.
pub broadcast proof fn lemma_be32_len(x: u32)
    ensures
        #[trigger] be32(x).len() == 4,
{
    reveal(be32);
}

/// Byte count of the 16-bit big-endian encoding.
pub broadcast proof fn lemma_be16_len(x: u16)
    ensures
        #[trigger] be16(x).len() == 2,
{
    reveal(be16);
}

/// Byte count of the 24-bit big-endian encoding.
pub broadcast proof fn lemma_be24_len(x: u32)
    ensures
        #[trigger] be24(x).len() == 3,
{
    reveal(be24);
}

/// `n` zero bytes.
pub open spec fn zeros(n: nat) -> Seq<u8> {
    Seq::new(n, |i: int| 0u8)
}

/// The null index value used throughout MOBI headers.
pub open spec fn null32() -> Seq<u8> {
    be32(0xFFFF_FFFF)
}

/// Append the big-endian bytes of `x`.
pub fn push_be16(out: &mut Vec<u8>, x: u16)
    ensures
        final(out)@ == old(out)@ + be16(x),
{
    out.push((x / 256) as u8);
    out.push((x % 256) as u8);
    reveal(be16);
    assert(out@ =~= old(out)@ + be16(x));
}

/// Append the big-endian bytes of `x`.
pub fn push_be32(out: &mut Vec<u8>, x: u32)
    ensures
        final(out)@ == old(out)@ + be32(x),
{
    out.push((x / 16777216) as u8);
    out.push(((x / 65536) % 256) as u8);
    out.push(((x / 256) % 256) as u8);
    out.push((x % 256) as u8);
    reveal(be32);
    assert(out@ =~= old(out)@ + be32(x));
}

/// Append `n` zero bytes.
pub fn push_zeros(out: &mut Vec<u8>, n: usize)
    ensures
        final(out)@ == old(out)@ + zeros(n as nat),
{
    let ghost start = out@;
    let mut k: usize = 0;
    while k < n
        invariant
            k <= n,
            out@ == start + zeros(k as nat),
        decreases n - k,
    {
        out.push(0);
        k = k + 1;
        assert(out@ =~= start + zeros(k as nat));
    }
}

} // verus!
