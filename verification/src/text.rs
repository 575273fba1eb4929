//! Character-level tools for scanning a document.

use vstd::prelude::*;
use vstd::utf8::*;

verus! {

/// Appends one character to a `String`, by `String::push`.
///
/// Trusted: the contract claims that the string afterwards holds its old
/// characters followed by `c`, as the documentation of `String::push` says.
#[verifier::external_body]
fn push_char(s: &mut String, c: char)
    ensures
        final(s)@ == old(s)@.push(c),
{
    s.push(c);
}

/// The characters of `s`, in order.
pub fn chars_of(s: &str) -> (v: Vec<char>)
    ensures
        v@ == s@,
{
    let mut v: Vec<char> = Vec::new();
    for c in it: s.chars()
        invariant
            v@ == it.seq().take(it.index() as int),
    {
        v.push(c);
    }
    v
}

/// A `String` holding exactly the characters `cs`.
pub fn string_of(cs: &[char]) -> (s: String)
    ensures
        s@ == cs@,
{
    let mut s = String::new();
    let mut i: usize = 0;
    while i < cs.len()
        invariant
            i <= cs.len(),
            s@ == cs@.take(i as int),
        decreases cs.len() - i,
    {
        push_char(&mut s, cs[i]);
        assert(cs@.take(i as int).push(cs@[i as int]) =~= cs@.take(i + 1));
        i = i + 1;
    }
    assert(cs@.take(cs.len() as int) =~= cs@);
    s
}

/// Unicode `White_Space`, the property `str::trim` removes.
pub open spec fn is_white_space(c: char) -> bool {
    ||| ('\t' <= c && c <= '\r')
    ||| c == ' '
    ||| c == '\u{85}'
    ||| c == '\u{A0}'
    ||| c == '\u{1680}'
    ||| ('\u{2000}' <= c && c <= '\u{200A}')
    ||| c == '\u{2028}'
    ||| c == '\u{2029}'
    ||| c == '\u{202F}'
    ||| c == '\u{205F}'
    ||| c == '\u{3000}'
}

/// ASCII white space: space, tab, line feed, form feed, carriage return.
pub open spec fn is_ascii_space(c: char) -> bool {
    c == ' ' || c == '\t' || c == '\n' || c == '\x0C' || c == '\r'
}

/// Whether `c` is Unicode white space (what `char::is_whitespace` answers).
pub fn white_space(c: char) -> (b: bool)
    ensures
        b == is_white_space(c),
{
    ('\t' <= c && c <= '\r') || c == ' ' || c == '\u{85}' || c == '\u{A0}' || c == '\u{1680}'
        || ('\u{2000}' <= c && c <= '\u{200A}') || c == '\u{2028}' || c == '\u{2029}'
        || c == '\u{202F}' || c == '\u{205F}' || c == '\u{3000}'
}

/// Whether `c` is ASCII white space (what `u8::is_ascii_whitespace` answers
/// for an ASCII byte).
pub fn ascii_space(c: char) -> (b: bool)
    ensures
        b == is_ascii_space(c),
{
    c == ' ' || c == '\t' || c == '\n' || c == '\x0C' || c == '\r'
}

/// The first position at or after `from` that holds `c`.
pub open spec fn find_char(d: Seq<char>, c: char, from: int) -> Option<int>
    decreases d.len() - from,
{
    if from >= d.len() {
        None
    } else if d[from] == c {
        Some(from)
    } else {
        find_char(d, c, from + 1)
    }
}

pub proof fn lemma_find_char(d: Seq<char>, c: char, from: int)
    requires
        0 <= from,
    ensures
        find_char(d, c, from) matches Some(i) ==> from <= i < d.len() && d[i] == c,
        find_char(d, c, from) matches Some(i) ==> forall|j: int| from <= j < i ==> d[j] != c,
        find_char(d, c, from) is None ==> forall|j: int| from <= j < d.len() ==> d[j] != c,
    decreases d.len() - from,
{
    if from < d.len() && d[from] != c {
        lemma_find_char(d, c, from + 1);
    }
}

/// Where `c` first occurs in `d` at or after `from`.
pub fn index_of_char(d: &[char], c: char, from: usize) -> (r: Option<usize>)
    ensures
        r matches Some(i) ==> find_char(d@, c, from as int) == Some(i as int),
        r is None ==> find_char(d@, c, from as int) is None,
{
    let mut i = from;
    while i < d.len()
        invariant
            from <= i,
            find_char(d@, c, from as int) == find_char(d@, c, i as int),
        decreases d.len() - i,
    {
        if d[i] == c {
            return Some(i);
        }
        i = i + 1;
    }
    None
}

/// Skips white space forward from `i`, stopping at `hi`.
pub open spec fn skip_space(d: Seq<char>, i: int, hi: int) -> int
    decreases hi - i,
{
    if i >= hi {
        hi
    } else if is_white_space(d[i]) {
        skip_space(d, i + 1, hi)
    } else {
        i
    }
}

/// Skips white space backward from `hi`, stopping at `lo`.
pub open spec fn skip_space_back(d: Seq<char>, lo: int, hi: int) -> int
    decreases hi - lo,
{
    if hi <= lo {
        lo
    } else if is_white_space(d[hi - 1]) {
        skip_space_back(d, lo, hi - 1)
    } else {
        hi
    }
}

/// The range `[a, b)` of `d` with leading and trailing white space removed.
pub open spec fn trimmed(d: Seq<char>, a: int, b: int) -> (int, int) {
    let lo = skip_space(d, a, b);
    (lo, skip_space_back(d, lo, b))
}

/// Trimming stops at characters that are not white space.
pub proof fn lemma_trimmed_edges(d: Seq<char>, a: int, b: int)
    requires
        0 <= a <= b <= d.len(),
    ensures
        a <= trimmed(d, a, b).0 <= trimmed(d, a, b).1 <= b,
        trimmed(d, a, b).0 < trimmed(d, a, b).1 ==> !is_white_space(d[trimmed(d, a, b).0]),
        trimmed(d, a, b).0 < trimmed(d, a, b).1 ==> !is_white_space(d[trimmed(d, a, b).1 - 1]),
        forall|k: int| a <= k < trimmed(d, a, b).0 ==> is_white_space(d[k]),
        forall|k: int| trimmed(d, a, b).1 <= k < b ==> is_white_space(d[k]),
{
    lemma_skip_space(d, a, b);
    let lo = skip_space(d, a, b);
    lemma_skip_space_back(d, lo, b);
}

pub proof fn lemma_skip_space(d: Seq<char>, i: int, hi: int)
    requires
        i <= hi,
    ensures
        i <= skip_space(d, i, hi) <= hi,
        forall|k: int| i <= k < skip_space(d, i, hi) ==> is_white_space(d[k]),
        skip_space(d, i, hi) < hi ==> !is_white_space(d[skip_space(d, i, hi)]),
    decreases hi - i,
{
    if i < hi && is_white_space(d[i]) {
        lemma_skip_space(d, i + 1, hi);
    }
}

proof fn lemma_skip_space_back(d: Seq<char>, lo: int, hi: int)
    requires
        lo <= hi,
    ensures
        lo <= skip_space_back(d, lo, hi) <= hi,
        skip_space_back(d, lo, hi) > lo ==> !is_white_space(d[skip_space_back(d, lo, hi) - 1]),
        forall|k: int| skip_space_back(d, lo, hi) <= k < hi ==> is_white_space(d[k]),
    decreases hi - lo,
{
    if lo < hi && is_white_space(d[hi - 1]) {
        lemma_skip_space_back(d, lo, hi - 1);
    }
}

/// `find_char` finds the first occurrence.
pub proof fn lemma_find_char_first(d: Seq<char>, c: char, from: int, i: int)
    requires
        0 <= from <= i < d.len(),
        d[i] == c,
        forall|j: int| from <= j < i ==> d[j] != c,
    ensures
        find_char(d, c, from) == Some(i),
    decreases i - from,
{
    if from < i {
        lemma_find_char_first(d, c, from + 1, i);
    }
}

/// Trimming stops exactly at the first and last characters that are not
/// white space.
pub proof fn lemma_trimmed_exactly(d: Seq<char>, a: int, b: int, lo: int, hi: int)
    requires
        0 <= a <= lo < hi <= b <= d.len(),
        forall|k: int| a <= k < lo ==> is_white_space(d[k]),
        forall|k: int| hi <= k < b ==> is_white_space(d[k]),
        !is_white_space(d[lo]),
        !is_white_space(d[hi - 1]),
    ensures
        trimmed(d, a, b) == (lo, hi),
{
    lemma_skip_space_exactly(d, a, b, lo);
    lemma_skip_space_back_exactly(d, lo, b, hi);
}

proof fn lemma_skip_space_exactly(d: Seq<char>, i: int, b: int, lo: int)
    requires
        i <= lo < b,
        forall|k: int| i <= k < lo ==> is_white_space(d[k]),
        !is_white_space(d[lo]),
    ensures
        skip_space(d, i, b) == lo,
    decreases lo - i,
{
    if i < lo {
        lemma_skip_space_exactly(d, i + 1, b, lo);
    }
}

proof fn lemma_skip_space_back_exactly(d: Seq<char>, lo: int, h: int, hi: int)
    requires
        lo < hi <= h,
        forall|k: int| hi <= k < h ==> is_white_space(d[k]),
        !is_white_space(d[hi - 1]),
    ensures
        skip_space_back(d, lo, h) == hi,
    decreases h - hi,
{
    if hi < h {
        lemma_skip_space_back_exactly(d, lo, h - 1, hi);
    }
}

/// The range `[a, b)` of `d` trimmed of white space at both ends.
pub fn trim_range(d: &[char], a: usize, b: usize) -> (r: (usize, usize))
    requires
        a <= b <= d.len(),
    ensures
        r.0 as int == trimmed(d@, a as int, b as int).0,
        r.1 as int == trimmed(d@, a as int, b as int).1,
        a <= r.0 <= r.1 <= b,
{
    let mut lo = a;
    while lo < b && white_space(d[lo])
        invariant
            a <= lo <= b <= d.len(),
            skip_space(d@, a as int, b as int) == skip_space(d@, lo as int, b as int),
        decreases b - lo,
    {
        lo = lo + 1;
    }
    let mut hi = b;
    while hi > lo && white_space(d[hi - 1])
        invariant
            lo <= hi <= b <= d.len(),
            skip_space_back(d@, lo as int, b as int) == skip_space_back(d@, lo as int, hi as int),
        decreases hi - lo,
    {
        hi = hi - 1;
    }
    (lo, hi)
}

/// Whether `p` occurs in `d` at position `i`.
pub open spec fn occurs_at(d: Seq<char>, p: Seq<char>, i: int) -> bool {
    0 <= i && i + p.len() <= d.len() && d.subrange(i, i + p.len()) == p
}

/// The first position at or after `from` where `p` occurs in `d`.
pub open spec fn find_seq(d: Seq<char>, p: Seq<char>, from: int) -> Option<int>
    decreases d.len() + 1 - from,
{
    if from + p.len() > d.len() {
        None
    } else if d.subrange(from, from + p.len()) == p {
        Some(from)
    } else {
        find_seq(d, p, from + 1)
    }
}

pub proof fn lemma_find_seq(d: Seq<char>, p: Seq<char>, from: int)
    requires
        0 <= from,
    ensures
        find_seq(d, p, from) matches Some(i) ==> from <= i && occurs_at(d, p, i),
        find_seq(d, p, from) matches Some(i) ==> forall|j: int| from <= j < i ==> !occurs_at(d, p, j),
        find_seq(d, p, from) is None ==> forall|j: int| from <= j ==> !occurs_at(d, p, j),
    decreases d.len() + 1 - from,
{
    if from + p.len() <= d.len() && d.subrange(from, from + p.len()) != p {
        lemma_find_seq(d, p, from + 1);
    }
}

/// `find_seq` finds the first occurrence.
pub proof fn lemma_find_seq_first(d: Seq<char>, p: Seq<char>, from: int, i: int)
    requires
        0 <= from <= i,
        occurs_at(d, p, i),
        forall|j: int| from <= j < i ==> !occurs_at(d, p, j),
    ensures
        find_seq(d, p, from) == Some(i),
    decreases i - from,
{
    if from < i {
        assert(!occurs_at(d, p, from));
        lemma_find_seq_first(d, p, from + 1, i);
    }
}

/// Whether `p` occurs in `d` at `i`.
pub fn occurs(d: &[char], p: &[char], i: usize) -> (b: bool)
    ensures
        b == occurs_at(d@, p@, i as int),
{
    if i > d.len() || p.len() > d.len() - i {
        return false;
    }
    let mut k: usize = 0;
    while k < p.len()
        invariant
            k <= p.len(),
            i + p.len() <= d.len(),
            d@.subrange(i as int, i + k) == p@.take(k as int),
        decreases p.len() - k,
    {
        if d[i + k] != p[k] {
            assert(d@.subrange(i as int, i + p.len())[k as int] != p@[k as int]);
            return false;
        }
        assert(d@.subrange(i as int, i + k + 1) =~= d@.subrange(i as int, i + k).push(d@[i + k]));
        assert(p@.take(k + 1) =~= p@.take(k as int).push(p@[k as int]));
        k = k + 1;
    }
    assert(p@.take(p.len() as int) =~= p@);
    true
}

/// Where `p` first occurs in `d` at or after `from`.
pub fn index_of_seq(d: &[char], p: &[char], from: usize) -> (r: Option<usize>)
    requires
        from <= d.len(),
    ensures
        r matches Some(i) ==> find_seq(d@, p@, from as int) == Some(i as int),
        r is None ==> find_seq(d@, p@, from as int) is None,
{
    if p.len() > d.len() {
        return None;
    }
    if p.len() == 0 {
        assert(d@.subrange(from as int, from as int) =~= p@);
        return Some(from);
    }
    let last = d.len() - p.len();
    let mut i = from;
    while i <= last
        invariant
            from <= i,
            p.len() > 0,
            last + p.len() == d.len(),
            find_seq(d@, p@, from as int) == find_seq(d@, p@, i as int),
        decreases last + 1 - i,
    {
        if occurs(d, p, i) {
            return Some(i);
        }
        i = i + 1;
    }
    None
}


/// `s` with every occurrence of the non-empty pattern `p`, taken from the left
/// without overlap, replaced by `r` (what `str::replace` computes).
pub open spec fn replace_all(s: Seq<char>, p: Seq<char>, r: Seq<char>) -> Seq<char>
    recommends
        p.len() > 0,
    decreases s.len(),
{
    if s.len() == 0 {
        s
    } else if p.len() > 0 && p.len() <= s.len() && s.take(p.len() as int) == p {
        r + replace_all(s.skip(p.len() as int), p, r)
    } else {
        seq![s[0]] + replace_all(s.drop_first(), p, r)
    }
}

/// Text in which the pattern's first character never occurs is left as it
/// is.
pub proof fn lemma_replace_absent(s: Seq<char>, p: Seq<char>, r: Seq<char>)
    requires
        p.len() > 0,
        forall|i: int| 0 <= i < s.len() ==> s[i] != p[0],
    ensures
        replace_all(s, p, r) == s,
    decreases s.len(),
{
    if s.len() > 0 {
        if p.len() <= s.len() {
            assert(s.take(p.len() as int)[0] != p[0]);
        }
        lemma_replace_absent(s.drop_first(), p, r);
        assert(seq![s[0]] + s.drop_first() =~= s);
    }
}

/// A head in which the pattern's first character never occurs is kept as it
/// is, and the replacing goes on after it.
pub proof fn lemma_replace_after_absent(t: Seq<char>, u: Seq<char>, p: Seq<char>, r: Seq<char>)
    requires
        p.len() > 0,
        forall|i: int| 0 <= i < t.len() ==> t[i] != p[0],
    ensures
        replace_all(t + u, p, r) == t + replace_all(u, p, r),
    decreases t.len(),
{
    if t.len() == 0 {
        assert(t + u =~= u);
        assert(t + replace_all(u, p, r) =~= replace_all(u, p, r));
    } else {
        let s = t + u;
        if p.len() <= s.len() {
            assert(s.take(p.len() as int)[0] != p[0]);
        }
        assert(s.drop_first() =~= t.drop_first() + u);
        lemma_replace_after_absent(t.drop_first(), u, p, r);
        assert(seq![t[0]] + (t.drop_first() + replace_all(u, p, r)) =~= t + replace_all(u, p, r));
    }
}

/// Replacing by a single character keeps text non-empty, and its first and
/// last characters are either what they were or the replacement.
pub proof fn lemma_replace_edges(s: Seq<char>, p: Seq<char>, r: Seq<char>)
    requires
        p.len() > 0,
        r.len() == 1,
        s.len() > 0,
    ensures
        replace_all(s, p, r).len() > 0,
        replace_all(s, p, r)[0] == s[0] || replace_all(s, p, r)[0] == r[0],
        replace_all(s, p, r).last() == s.last() || replace_all(s, p, r).last() == r[0],
    decreases s.len(),
{
    if p.len() <= s.len() && s.take(p.len() as int) == p {
        let rest = s.skip(p.len() as int);
        if rest.len() > 0 {
            lemma_replace_edges(rest, p, r);
            assert(rest.last() == s.last());
        } else {
            assert(replace_all(rest, p, r) =~= rest);
        }
    } else {
        let rest = s.drop_first();
        if rest.len() > 0 {
            lemma_replace_edges(rest, p, r);
            assert(rest.last() == s.last());
        } else {
            assert(replace_all(rest, p, r) =~= rest);
        }
    }
}

/// Appends the characters `r` to `out`.
pub fn push_all(out: &mut Vec<char>, r: &[char])
    ensures
        final(out)@ == old(out)@ + r@,
{
    let mut k: usize = 0;
    while k < r.len()
        invariant
            k <= r.len(),
            out@ == old(out)@ + r@.take(k as int),
        decreases r.len() - k,
    {
        out.push(r[k]);
        assert(r@.take(k + 1) =~= r@.take(k as int).push(r@[k as int]));
        k = k + 1;
    }
    assert(r@.take(r.len() as int) =~= r@);
}

/// `s` with every occurrence of the non-empty pattern `p` replaced by `r`.
pub fn replace(s: &[char], p: &[char], r: &[char]) -> (out: Vec<char>)
    requires
        p.len() > 0,
    ensures
        out@ == replace_all(s@, p@, r@),
{
    let mut out: Vec<char> = Vec::new();
    let mut i: usize = 0;
    assert(s@.skip(0) =~= s@);
    while i < s.len()
        invariant
            i <= s.len(),
            p.len() > 0,
            out@ + replace_all(s@.skip(i as int), p@, r@) == replace_all(s@, p@, r@),
        decreases s.len() - i,
    {
        let ghost rest = s@.skip(i as int);
        if occurs(s, p, i) {
            assert(rest.take(p.len() as int) =~= s@.subrange(i as int, i + p.len()));
            assert(rest.skip(p.len() as int) =~= s@.skip(i + p.len()));
            push_all(&mut out, r);
            i = i + p.len();
        } else {
            assert(p.len() <= rest.len() ==> rest.take(p.len() as int) =~= s@.subrange(i as int, i + p.len()));
            assert(rest.drop_first() =~= s@.skip(i + 1));
            assert(rest[0] == s@[i as int]);
            out.push(s[i]);
            i = i + 1;
        }
    }
    assert(s@.skip(i as int) =~= Seq::<char>::empty());
    out
}


/// Encoding a concatenation encodes each part in turn.
pub proof fn lemma_encode_concat(a: Seq<char>, b: Seq<char>)
    ensures
        encode_utf8(a + b) == encode_utf8(a) + encode_utf8(b),
    decreases a.len(),
{
    if a.len() == 0 {
        assert(a + b =~= b);
        assert(encode_utf8(a) + encode_utf8(b) =~= encode_utf8(b));
    } else {
        assert((a + b).drop_first() =~= a.drop_first() + b);
        lemma_encode_concat(a.drop_first(), b);
        assert(encode_utf8(a + b) =~= encode_scalar(a[0] as u32) + encode_utf8(a.drop_first() + b));
    }
}

/// The number of bytes UTF-8 spends on `c`.
pub fn utf8_width(c: char) -> (n: usize)
    ensures
        n == encode_scalar(c as u32).len(),
        1 <= n <= 4,
{
    proof {
        char_is_scalar(c);
    }
    let v = c as u32;
    if v <= 0x7F {
        1
    } else if v <= 0x7FF {
        2
    } else if v <= 0xFFFF {
        3
    } else {
        4
    }
}

/// The byte offset, in the UTF-8 encoding of `d`, of the character at `k`.
pub fn byte_offset(d: &[char], k: usize) -> (n: usize)
    requires
        k <= d.len(),
        encode_utf8(d@).len() <= usize::MAX,
    ensures
        n == encode_utf8(d@.take(k as int)).len(),
{
    let mut n: usize = 0;
    let mut i: usize = 0;
    while i < k
        invariant
            i <= k <= d.len(),
            encode_utf8(d@).len() <= usize::MAX,
            n == encode_utf8(d@.take(i as int)).len(),
        decreases k - i,
    {
        let w = utf8_width(d[i]);
        proof {
            let c = d@[i as int];
            assert(d@.take(i + 1) =~= d@.take(i as int) + seq![c]);
            lemma_encode_concat(d@.take(i as int), seq![c]);
            char_is_scalar(c);
            assert(seq![c].drop_first() =~= Seq::<char>::empty());
            reveal_with_fuel(encode_utf8, 2);
            assert(encode_utf8(seq![c]) =~= encode_scalar(c as u32));
            assert(d@ =~= d@.take(i + 1) + d@.skip(i + 1));
            lemma_encode_concat(d@.take(i + 1), d@.skip(i + 1));
        }
        n = n + w;
        i = i + 1;
    }
    n
}


/// An ASCII character is encoded as its own byte, and every byte of any
/// other character is 0x80 or above.
proof fn lemma_scalar_bytes(ch: char)
    ensures
        encode_scalar(ch as u32).len() >= 1,
        (ch as u32) < 0x80 ==> encode_scalar(ch as u32) == seq![(ch as u32) as u8],
        (ch as u32) >= 0x80 ==> forall|k: int|
            0 <= k < encode_scalar(ch as u32).len() ==> #[trigger] encode_scalar(ch as u32)[k] >= 0x80,
{
    char_is_scalar(ch);
    let v = ch as u32;
    assert(forall|x: u32| x < 0x80 ==> ((x & 0x7F) as u8) == (x as u8)) by (bit_vector);
    assert(forall|x: u32| (0xC0u8 | (((x >> 6) & 0x1F) as u8)) >= 0x80) by (bit_vector);
    assert(forall|x: u32| (0xE0u8 | (((x >> 12) & 0x0F) as u8)) >= 0x80) by (bit_vector);
    assert(forall|x: u32| (0xF0u8 | (((x >> 18) & 0x7) as u8)) >= 0x80) by (bit_vector);
    assert(forall|x: u32| (0x80u8 | ((x & 0x3F) as u8)) >= 0x80) by (bit_vector);
    assert(forall|x: u32| (0x80u8 | (((x >> 6) & 0x3F) as u8)) >= 0x80) by (bit_vector);
    assert(forall|x: u32| (0x80u8 | (((x >> 12) & 0x3F) as u8)) >= 0x80) by (bit_vector);
    if v < 0x80 {
        assert(encode_scalar(v) =~= seq![(ch as u32) as u8]);
    }
}

/// The first position at or after `from` where the byte `x` stands in `b`.
pub open spec fn find_byte(b: Seq<u8>, x: u8, from: int) -> Option<int>
    decreases b.len() - from,
{
    if from < 0 || from >= b.len() {
        None
    } else if b[from] == x {
        Some(from)
    } else {
        find_byte(b, x, from + 1)
    }
}

proof fn lemma_find_byte_skips(b: Seq<u8>, x: u8, from: int, to: int)
    requires
        0 <= from <= to <= b.len(),
        forall|k: int| from <= k < to ==> b[k] != x,
    ensures
        find_byte(b, x, from) == find_byte(b, x, to),
    decreases to - from,
{
    if from < to {
        lemma_find_byte_skips(b, x, from + 1, to);
    }
}

/// Searching the characters of `d` for an ASCII character finds what
/// searching the UTF-8 bytes of `d` for its byte finds: in UTF-8 an ASCII
/// byte only ever encodes that very character, so the two searches stop at
/// the same place, one counting characters and the other bytes.
pub proof fn law_char_search_is_byte_search(d: Seq<char>, c: char, from: int)
    requires
        (c as u32) < 0x80,
        0 <= from <= d.len(),
    ensures
        find_byte(encode_utf8(d), (c as u32) as u8, encode_utf8(d.take(from)).len() as int) == match find_char(
            d,
            c,
            from,
        ) {
            Some(i) => Some(encode_utf8(d.take(i)).len() as int),
            None => None,
        },
    decreases d.len() - from,
{
    let bytes = encode_utf8(d);
    if from == d.len() {
        assert(d.take(from) =~= d);
    } else {
        let ch = d[from];
        let e = encode_scalar(ch as u32);
        let before = encode_utf8(d.take(from));
        lemma_scalar_bytes(ch);
        assert(d.take(from + 1) =~= d.take(from) + seq![ch]);
        lemma_encode_concat(d.take(from), seq![ch]);
        char_is_scalar(ch);
        assert(seq![ch].drop_first() =~= Seq::<char>::empty());
        reveal_with_fuel(encode_utf8, 2);
        assert(encode_utf8(seq![ch]) =~= e);
        assert(d =~= d.take(from + 1) + d.skip(from + 1));
        lemma_encode_concat(d.take(from + 1), d.skip(from + 1));
        assert(forall|k: int| 0 <= k < e.len() ==> bytes[before.len() + k] == e[k]);
        if ch == c {
            assert(bytes[before.len() as int] == (c as u32) as u8);
        } else {
            assert forall|k: int| before.len() <= k < before.len() + e.len() implies bytes[k] != (c as u32) as u8 by {
                assert(bytes[k] == e[k - before.len()]);
                if (ch as u32) < 0x80 {
                    char_u32_cast(ch, ch as u32);
                    char_u32_cast(c, c as u32);
                    assert((ch as u32) != (c as u32));
                    let x = ch as u32;
                    let y = c as u32;
                    assert(x < 0x80 && y < 0x80 && x != y ==> (x as u8) != (y as u8)) by (bit_vector);
                }
            }
            lemma_find_byte_skips(bytes, (c as u32) as u8, before.len() as int, (before.len() + e.len()) as int);
            law_char_search_is_byte_search(d, c, from + 1);
        }
    }
}

} // verus!
