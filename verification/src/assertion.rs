//! The two names a SAML 2.0 assertion carries in the clear, read with a scan
//! and not a parser.
//!
//! An assertion is `<saml:Assertion>` with an `<saml:Issuer>` and, under
//! `<saml:Subject>`, a `<saml:NameID>`. The scan finds elements by local name
//! whatever the prefix, skips an `EncryptedAssertion` rather than mistaking
//! it for one, and reads element text with the five predefined entities
//! unescaped. It does not validate the document: a document that passes the
//! second gate's signature check is well-formed, and one that fails it is
//! refused there whatever this read.
//!
//! The scan works on the document's characters. Every character it looks
//! for is ASCII, and in UTF-8 an ASCII byte only ever encodes that very
//! character, so a search over characters finds what a search over bytes
//! finds (`text::law_char_search_is_byte_search`); the span is given in
//! bytes.

use vstd::prelude::*;
use vstd::utf8::encode_utf8;
use crate::text::{
    ascii_space, byte_offset, chars_of, find_char, find_seq, index_of_char, index_of_seq,
    is_ascii_space, is_white_space, lemma_encode_concat, lemma_replace_absent, lemma_replace_after_absent, lemma_replace_edges,
    lemma_find_char_first, lemma_skip_space, lemma_trimmed_edges, lemma_trimmed_exactly, lemma_find_char, lemma_find_seq, lemma_find_seq_first,
    occurs_at, push_all, replace, replace_all, skip_space, string_of, trim_range, trimmed,
};

verus! {

/// What the first gate reads out of an assertion.
#[derive(Debug, Eq, PartialEq)]
pub struct Assertion {
    /// The `Issuer` text.
    pub issuer: String,
    /// The `NameID` text: the subject.
    pub name_id: String,
    /// The `NameID`'s `Format` attribute, where it has one.
    pub format: Option<String>,
    /// Where the `Assertion` element starts and ends in the document, in bytes.
    pub span: (usize, usize),
}

impl Clone for Assertion {
    fn clone(&self) -> (c: Self)
        ensures
            c@ == self@,
    {
        let format = match &self.format {
            Some(f) => Some(f.clone()),
            None => None,
        };
        Assertion { issuer: self.issuer.clone(), name_id: self.name_id.clone(), format, span: self.span }
    }
}

/// An assertion as its characters and byte offsets.
pub struct AssertionView {
    pub issuer: Seq<char>,
    pub name_id: Seq<char>,
    pub format: Option<Seq<char>>,
    pub span: (int, int),
}

impl View for Assertion {
    type V = AssertionView;

    open spec fn view(&self) -> AssertionView {
        AssertionView {
            issuer: self.issuer@,
            name_id: self.name_id@,
            format: match self.format {
                Some(f) => Some(f@),
                None => None,
            },
            span: (self.span.0 as int, self.span.1 as int),
        }
    }
}

/// Why an assertion that is there cannot be read.
#[derive(Clone, Copy, Debug, PartialEq, Eq)]
pub enum ScanError {
    /// Only an `EncryptedAssertion` is there.
    Encrypted,
    /// The `Assertion` element has no end tag.
    Unclosed,
    /// The assertion has no `Issuer` text.
    NoIssuer,
    /// The assertion has no `NameID` text.
    NoNameId,
}

impl ScanError {
    pub open spec fn spec_message(self) -> Seq<char> {
        match self {
            ScanError::Encrypted => "the SAML assertion is encrypted and this gate cannot read it"@,
            ScanError::Unclosed => "the SAML assertion is not closed: no </Assertion>"@,
            ScanError::NoIssuer => "the SAML assertion names no Issuer"@,
            ScanError::NoNameId => "the SAML assertion names no subject: no NameID"@,
        }
    }

    /// The error as a sentence.
    pub fn message(&self) -> (m: String)
        ensures
            m@ == self.spec_message(),
    {
        match self {
            ScanError::Encrypted => String::from_str(
                "the SAML assertion is encrypted and this gate cannot read it",
            ),
            ScanError::Unclosed => String::from_str("the SAML assertion is not closed: no </Assertion>"),
            ScanError::NoIssuer => String::from_str("the SAML assertion names no Issuer"),
            ScanError::NoNameId => String::from_str("the SAML assertion names no subject: no NameID"),
        }
    }
}

/// The end tag that closes an element with qualified name `q`.
pub open spec fn end_tag(q: Seq<char>) -> Seq<char> {
    seq!['<', '/'] + q + seq!['>']
}

/// The number of bytes that encode `d`.
pub open spec fn byte_len(d: Seq<char>) -> int {
    encode_utf8(d).len() as int
}

/// Where the first `Assertion` element of `d` starts and ends, in
/// characters: from its `<` to just past its end tag.
pub open spec fn assertion_range(d: Seq<char>) -> Option<(int, int)> {
    match first_element(d, "Assertion"@, 0) {
        None => None,
        Some((start, name_end)) => {
            let closing = end_tag(d.subrange(start + 1, name_end));
            match find_seq(d, closing, name_end) {
                None => None,
                Some(at) => Some((start, at + closing.len())),
            }
        },
    }
}

/// What scanning the document `d` reads.
pub open spec fn scanned(d: Seq<char>) -> Result<Option<AssertionView>, ScanError> {
    match first_element(d, "Assertion"@, 0) {
        None => if first_element(d, "EncryptedAssertion"@, 0) is Some {
            Err(ScanError::Encrypted)
        } else {
            Ok(None)
        },
        Some(_) => match assertion_range(d) {
            None => Err(ScanError::Unclosed),
            Some((start, end)) => {
                let body = d.subrange(start, end);
                match text_named(body, "Issuer"@) {
                    None => Err(ScanError::NoIssuer),
                    Some(issuer) => match name_id_in(body) {
                        None => Err(ScanError::NoNameId),
                        Some((name_id, format)) => Ok(
                            Some(
                                AssertionView {
                                    issuer,
                                    name_id,
                                    format,
                                    span: (byte_len(d.take(start)), byte_len(d.take(end))),
                                },
                            ),
                        ),
                    },
                }
            },
        },
    }
}

/// The result of a scan, as characters and byte offsets.
pub open spec fn scan_view(r: Result<Option<Assertion>, ScanError>) -> Result<
    Option<AssertionView>,
    ScanError,
> {
    match r {
        Ok(Some(a)) => Ok(Some(a@)),
        Ok(None) => Ok(None),
        Err(e) => Err(e),
    }
}

/// Ends an element's qualified name: ASCII white space, `>` or `/`.
pub open spec fn is_name_delimiter(c: char) -> bool {
    is_ascii_space(c) || c == '>' || c == '/'
}

/// Where the name that starts at `i` ends: the first delimiter at or after
/// `i`, or the end of `d`.
pub open spec fn name_end(d: Seq<char>, i: int) -> int
    decreases d.len() - i,
{
    if i >= d.len() {
        d.len() as int
    } else if is_name_delimiter(d[i]) {
        i
    } else {
        name_end(d, i + 1)
    }
}

pub proof fn lemma_name_end(d: Seq<char>, i: int)
    requires
        0 <= i <= d.len(),
    ensures
        i <= name_end(d, i) <= d.len(),
    decreases d.len() - i,
{
    if i < d.len() && !is_name_delimiter(d[i]) {
        lemma_name_end(d, i + 1);
    }
}

/// The local part of a qualified name: what follows its last `:`.
pub open spec fn local_name(q: Seq<char>) -> Seq<char>
    decreases q.len(),
{
    if q.len() == 0 {
        q
    } else if q.last() == ':' {
        Seq::empty()
    } else {
        local_name(q.drop_last()).push(q.last())
    }
}

/// Whether the qualified name `q` names an element with local name `local`:
/// a processing instruction (`<?`) or a declaration (`<!`) names none.
pub open spec fn names_element(q: Seq<char>, local: Seq<char>) -> bool {
    &&& local_name(q) == local
    &&& !(q.len() > 0 && (q[0] == '?' || q[0] == '!'))
}

/// The first element at or after `at` whose local name is `local`: the
/// position of its `<` and the position just past its qualified name. A `<`
/// that does not start such an element is passed over together with the
/// name that follows it.
pub open spec fn first_element(d: Seq<char>, local: Seq<char>, at: int) -> Option<(int, int)>
    decreases d.len() - at,
{
    if at < 0 || at >= d.len() {
        None
    } else if d[at] != '<' {
        first_element(d, local, at + 1)
    } else {
        let end = name_end(d, at + 1);
        if names_element(d.subrange(at + 1, end), local) {
            Some((at, end))
        } else {
            proof {
                lemma_name_end(d, at + 1);
            }
            first_element(d, local, end)
        }
    }
}

pub proof fn lemma_first_element(d: Seq<char>, local: Seq<char>, at: int)
    requires
        0 <= at,
    ensures
        first_element(d, local, at) matches Some((s, e)) ==> {
            &&& at <= s < e <= d.len()
            &&& d[s] == '<'
            &&& e == name_end(d, s + 1)
            &&& names_element(d.subrange(s + 1, e), local)
        },
    decreases d.len() - at,
{
    if at < d.len() {
        lemma_name_end(d, at + 1);
        if d[at] != '<' {
            lemma_first_element(d, local, at + 1);
        } else if !names_element(d.subrange(at + 1, name_end(d, at + 1)), local) {
            lemma_first_element(d, local, name_end(d, at + 1));
        }
    }
}

fn delimiter(c: char) -> (b: bool)
    ensures
        b == is_name_delimiter(c),
{
    ascii_space(c) || c == '>' || c == '/'
}

fn end_of_name(d: &[char], i: usize) -> (e: usize)
    requires
        i <= d.len(),
    ensures
        e == name_end(d@, i as int),
        i <= e <= d.len(),
{
    let mut e = i;
    while e < d.len() && !delimiter(d[e])
        invariant
            i <= e <= d.len(),
            name_end(d@, i as int) == name_end(d@, e as int),
        decreases d.len() - e,
    {
        e = e + 1;
    }
    e
}

/// The local part of `q`, as a range of `q`.
fn local_start(q: &[char]) -> (k: usize)
    ensures
        k <= q.len(),
        q@.skip(k as int) == local_name(q@),
{
    let mut k = q.len();
    proof {
        assert(q@.skip(k as int) =~= Seq::<char>::empty());
        assert(q@.take(k as int) =~= q@);
        assert(local_name(q@) + Seq::<char>::empty() =~= local_name(q@));
    }
    while k > 0 && q[k - 1] != ':'
        invariant
            k <= q.len(),
            local_name(q@) == local_name(q@.take(k as int)) + q@.skip(k as int),
        decreases k,
    {
        proof {
            let t = q@.take(k as int);
            assert(t.drop_last() =~= q@.take(k - 1));
            assert(q@.skip(k - 1) =~= seq![t.last()] + q@.skip(k as int));
        }
        k = k - 1;
    }
    proof {
        let t = q@.take(k as int);
        if k == 0 {
            assert(t =~= Seq::<char>::empty());
        }
        assert(local_name(t) =~= Seq::<char>::empty());
        assert(Seq::<char>::empty() + q@.skip(k as int) =~= q@.skip(k as int));
    }
    k
}

fn same_chars(a: &[char], b: &[char]) -> (r: bool)
    ensures
        r == (a@ == b@),
{
    if a.len() != b.len() {
        return false;
    }
    let mut i: usize = 0;
    while i < a.len()
        invariant
            i <= a.len() == b.len(),
            a@.take(i as int) == b@.take(i as int),
        decreases a.len() - i,
    {
        if a[i] != b[i] {
            return false;
        }
        assert(a@.take(i + 1) =~= a@.take(i as int).push(a@[i as int]));
        assert(b@.take(i + 1) =~= b@.take(i as int).push(b@[i as int]));
        i = i + 1;
    }
    assert(a@ =~= a@.take(i as int));
    assert(b@ =~= b@.take(i as int));
    true
}

fn element_named(q: &[char], local: &[char]) -> (r: bool)
    ensures
        r == names_element(q@, local@),
{
    let k = local_start(q);
    let local_part = &q[k..q.len()];
    assert(local_part@ =~= q@.skip(k as int));
    if !same_chars(local_part, local) {
        return false;
    }
    !(q.len() > 0 && (q[0] == '?' || q[0] == '!'))
}

/// The start of the first element whose local name is `local_name`, at or
/// after `from`: the index of its `<` and the index just past its qualified
/// name.
fn find_element(xml: &[char], local: &[char], from: usize) -> (r: Option<(usize, usize)>)
    ensures
        r matches Some((s, e)) ==> first_element(xml@, local@, from as int) == Some((s as int, e as int)),
        r is None ==> first_element(xml@, local@, from as int) is None,
{
    let mut at = from;
    while at < xml.len()
        invariant
            from <= at,
            first_element(xml@, local@, from as int) == first_element(xml@, local@, at as int),
        decreases xml.len() - at,
    {
        if xml[at] != '<' {
            at = at + 1;
        } else {
            let end = end_of_name(xml, at + 1);
            let qualified = &xml[at + 1..end];
            if element_named(qualified, local) {
                return Some((at, end));
            }
            at = end;
        }
    }
    None
}


/// `text` with the five predefined entities replaced, in the order
/// `&lt;`, `&gt;`, `&quot;`, `&apos;`, `&amp;`.
pub open spec fn unescaped(text: Seq<char>) -> Seq<char> {
    let lt = replace_all(text, "&lt;"@, "<"@);
    let gt = replace_all(lt, "&gt;"@, ">"@);
    let quot = replace_all(gt, "&quot;"@, "\""@);
    let apos = replace_all(quot, "&apos;"@, "'"@);
    replace_all(apos, "&amp;"@, "&"@)
}

/// The text of the element whose name ends at `name_end` in `body`: what
/// lies between the start tag's `>` and the next `<`, trimmed and
/// unescaped. An empty element (`<x/>`) has none, nor has an element whose
/// trimmed text is empty.
pub open spec fn text_in(body: Seq<char>, name_end: int) -> Option<Seq<char>> {
    match find_char(body, '>', name_end) {
        None => None,
        Some(tag_end) => if tag_end > 0 && body[tag_end - 1] == '/' {
            None
        } else {
            match find_char(body, '<', tag_end + 1) {
                None => None,
                Some(next) => {
                    let (lo, hi) = trimmed(body, tag_end + 1, next);
                    if lo == hi {
                        None
                    } else {
                        Some(unescaped(body.subrange(lo, hi)))
                    }
                },
            }
        },
    }
}

/// The text of the first element in `body` with local name `local`.
pub open spec fn text_named(body: Seq<char>, local: Seq<char>) -> Option<Seq<char>> {
    match first_element(body, local, 0) {
        Some((_, name_end)) => text_in(body, name_end),
        None => None,
    }
}

/// The value of the attribute `name` in the text `a` between an element's
/// name and its `>`, searching from `from`: an occurrence of `name` at the
/// start or after ASCII white space, then `=` (white space allowed around
/// it), then a value in `"` or `'` quotes. An occurrence followed by `=`
/// and nothing but white space, or by a quote never closed, ends the search
/// with nothing.
pub open spec fn attribute_value(a: Seq<char>, name: Seq<char>, from: int) -> Option<Seq<char>>
    decreases a.len() - from,
{
    if name.len() == 0 || from < 0 {
        None
    } else {
        match find_seq(a, name, from) {
            None => None,
            Some(at) => {
                proof {
                    lemma_find_seq(a, name, from);
                }
                let after = skip_space(a, at + name.len(), a.len() as int);
                let preceded = at == from || is_ascii_space(a[at - 1]);
                if preceded && after < a.len() && a[after] == '=' {
                    let value = skip_space(a, after + 1, a.len() as int);
                    if value >= a.len() {
                        None
                    } else if a[value] == '"' || a[value] == '\'' {
                        match find_char(a, a[value], value + 1) {
                            Some(end) => Some(a.subrange(value + 1, end)),
                            None => None,
                        }
                    } else {
                        attribute_value(a, name, at + name.len())
                    }
                } else {
                    attribute_value(a, name, at + name.len())
                }
            },
        }
    }
}

/// The `NameID` text and its `Format`, from the first `NameID` in `body`.
pub open spec fn name_id_in(body: Seq<char>) -> Option<(Seq<char>, Option<Seq<char>>)> {
    match first_element(body, "NameID"@, 0) {
        None => None,
        Some((_, name_end)) => match find_char(body, '>', name_end) {
            None => None,
            Some(tag_end) => match text_in(body, name_end) {
                None => None,
                Some(text) => Some(
                    (
                        text,
                        match attribute_value(body.subrange(name_end, tag_end), "Format"@, 0) {
                            Some(v) => Some(unescaped(v)),
                            None => None,
                        },
                    ),
                ),
            },
        },
    }
}

fn unescape(text: &[char]) -> (s: String)
    ensures
        s@ == unescaped(text@),
{
    proof {
        reveal_strlit("&lt;");
        reveal_strlit("&gt;");
        reveal_strlit("&quot;");
        reveal_strlit("&apos;");
        reveal_strlit("&amp;");
    }
    let lt = replace(text, chars_of("&lt;").as_slice(), chars_of("<").as_slice());
    let gt = replace(lt.as_slice(), chars_of("&gt;").as_slice(), chars_of(">").as_slice());
    let quot = replace(gt.as_slice(), chars_of("&quot;").as_slice(), chars_of("\"").as_slice());
    let apos = replace(quot.as_slice(), chars_of("&apos;").as_slice(), chars_of("'").as_slice());
    let amp = replace(apos.as_slice(), chars_of("&amp;").as_slice(), chars_of("&").as_slice());
    string_of(amp.as_slice())
}

/// The text between the start tag's `>` and the next `<`, trimmed and
/// unescaped. An empty element (`<x/>`) has none.
fn element_text(body: &[char], name_end: usize) -> (r: Option<String>)
    requires
        name_end <= body.len(),
    ensures
        r matches Some(s) ==> text_in(body@, name_end as int) == Some(s@),
        r is None ==> text_in(body@, name_end as int) is None,
{
    proof {
        lemma_find_char(body@, '>', name_end as int);
    }
    let tag_end = match index_of_char(body, '>', name_end) {
        Some(t) => t,
        None => return None,
    };
    if tag_end > 0 && body[tag_end - 1] == '/' {
        return None;
    }
    proof {
        lemma_find_char(body@, '<', tag_end + 1);
    }
    let next = match index_of_char(body, '<', tag_end + 1) {
        Some(n) => n,
        None => return None,
    };
    let (lo, hi) = trim_range(body, tag_end + 1, next);
    if lo == hi {
        return None;
    }
    Some(unescape(&body[lo..hi]))
}

fn text_of(body: &[char], local_name: &[char]) -> (r: Option<String>)
    ensures
        r matches Some(s) ==> text_named(body@, local_name@) == Some(s@),
        r is None ==> text_named(body@, local_name@) is None,
{
    proof {
        lemma_first_element(body@, local_name@, 0);
    }
    match find_element(body, local_name, 0) {
        Some((_, name_end)) => element_text(body, name_end),
        None => None,
    }
}

/// One attribute's value from the text between an element's name and `>`.
fn attribute<'a>(attributes: &'a [char], name: &[char]) -> (r: Option<&'a [char]>)
    requires
        name.len() > 0,
    ensures
        r matches Some(v) ==> attribute_value(attributes@, name@, 0) == Some(v@),
        r is None ==> attribute_value(attributes@, name@, 0) is None,
{
    let a = attributes;
    let mut from: usize = 0;
    while from <= a.len()
        invariant
            name.len() > 0,
            a@ == attributes@,
            attribute_value(a@, name@, 0) == attribute_value(a@, name@, from as int),
        decreases a.len() + 1 - from,
    {
        proof {
            lemma_find_seq(a@, name@, from as int);
        }
        let at = match index_of_seq(a, name, from) {
            Some(at) => at,
            None => return None,
        };
        let next = at + name.len();
        let (after, _) = trim_range(a, next, a.len());
        let preceded = at == from || ascii_space(a[at - 1]);
        if preceded && after < a.len() && a[after] == '=' {
            let (value, _) = trim_range(a, after + 1, a.len());
            if value >= a.len() {
                return None;
            }
            let quote = a[value];
            if quote == '"' || quote == '\'' {
                proof {
                    lemma_find_char(a@, quote, value + 1);
                }
                return match index_of_char(a, quote, value + 1) {
                    Some(end) => Some(&a[value + 1..end]),
                    None => None,
                };
            }
        }
        from = next;
    }
    None
}

/// The `NameID` text and its `Format`, from the first `NameID` in the body,
/// which is the Subject's: a `SubjectConfirmation` may carry another and it
/// comes after.
fn name_id(body: &[char]) -> (r: Option<(String, Option<String>)>)
    ensures
        r matches Some((text, format)) ==> name_id_in(body@) == Some(
            (
                text@,
                match format {
                    Some(f) => Some(f@),
                    None => None,
                },
            ),
        ),
        r is None ==> name_id_in(body@) is None,
{
    let name = chars_of("NameID");
    proof {
        lemma_first_element(body@, name@, 0);
    }
    let name_end = match find_element(body, name.as_slice(), 0) {
        Some((_, e)) => e,
        None => return None,
    };
    proof {
        lemma_find_char(body@, '>', name_end as int);
    }
    let tag_end = match index_of_char(body, '>', name_end) {
        Some(t) => t,
        None => return None,
    };
    let attributes = &body[name_end..tag_end];
    let format_name = chars_of("Format");
    proof {
        reveal_strlit("Format");
    }
    let format = match attribute(attributes, format_name.as_slice()) {
        Some(v) => Some(unescape(v)),
        None => None,
    };
    let text = match element_text(body, name_end) {
        Some(t) => t,
        None => return None,
    };
    Some((text, format))
}


impl Assertion {
    /// Find the assertion in `xml` and read its names.
    ///
    /// `None` where the document has no `Assertion` element at all.
    /// An error where the assertion is encrypted, unterminated, or names no
    /// issuer or no subject.
    pub fn scan(xml: &str) -> (r: Result<Option<Assertion>, ScanError>)
        ensures
            scan_view(r) == scanned(xml@),
    {
        let d = chars_of(xml);
        // The text's UTF-8 length fits a `usize`: the byte offsets of the
        // span are computed in one.
        let _ = xml.as_bytes().len();
        scan_chars(d.as_slice())
    }
}

/// The scan of a document given as its characters.
pub fn scan_chars(d: &[char]) -> (r: Result<Option<Assertion>, ScanError>)
    requires
        encode_utf8(d@).len() <= usize::MAX,
    ensures
        scan_view(r) == scanned(d@),
{
    let assertion = chars_of("Assertion");
    proof {
        lemma_first_element(d@, assertion@, 0);
    }
    let (start, name_end) = match find_element(d, assertion.as_slice(), 0) {
        Some(found) => found,
        None => {
            let encrypted = chars_of("EncryptedAssertion");
            return if find_element(d, encrypted.as_slice(), 0).is_some() {
                Err(ScanError::Encrypted)
            } else {
                Ok(None)
            };
        },
    };
    let mut closing = chars_of("</");
    push_all(&mut closing, &d[start + 1..name_end]);
    closing.push('>');
    proof {
        reveal_strlit("</");
        assert(closing@ =~= end_tag(d@.subrange(start + 1, name_end as int)));
        lemma_find_seq(d@, closing@, name_end as int);
    }
    let at = match index_of_seq(d, closing.as_slice(), name_end) {
        Some(at) => at,
        None => return Err(ScanError::Unclosed),
    };
    assert(occurs_at(d@, closing@, at as int));
    let n = d.len();
    assert(at + closing.len() <= n);
    let end = at + closing.len();
    let body = &d[start..end];
    let issuer = match text_of(body, chars_of("Issuer").as_slice()) {
        Some(issuer) => issuer,
        None => return Err(ScanError::NoIssuer),
    };
    let (name_id, format) = match name_id(body) {
        Some(found) => found,
        None => return Err(ScanError::NoNameId),
    };
    let span = (byte_offset(d, start), byte_offset(d, end));
    Ok(Some(Assertion { issuer, name_id, format, span }))
}

/// The local part of a qualified name is how the name ends.
pub proof fn lemma_local_name_suffix(q: Seq<char>)
    ensures
        local_name(q).len() <= q.len(),
        q.skip(q.len() - local_name(q).len()) == local_name(q),
    decreases q.len(),
{
    if q.len() > 0 {
        if q.last() == ':' {
            assert(q.skip(q.len() as int) =~= Seq::<char>::empty());
        } else {
            let p = q.drop_last();
            lemma_local_name_suffix(p);
            let l = local_name(p);
            assert(q.skip(q.len() - l.len() - 1) =~= p.skip(p.len() - l.len()).push(q.last()));
        }
    }
}

/// An element found by local name has that local name written in the
/// document.
pub proof fn lemma_found_element_occurs(d: Seq<char>, local: Seq<char>) -> (i: int)
    requires
        first_element(d, local, 0) is Some,
    ensures
        occurs_at(d, local, i),
{
    lemma_first_element(d, local, 0);
    let (s, e) = first_element(d, local, 0)->0;
    let q = d.subrange(s + 1, e);
    lemma_local_name_suffix(q);
    let i = e - local.len();
    assert(d.subrange(i, i + local.len()) =~= q.skip(q.len() - local_name(q).len()));
    i
}

/// Content in which the word `Assertion` never occurs scans to nothing: the
/// check for the word only saves the scan.
pub proof fn law_without_the_word_nothing_is_read(d: Seq<char>)
    requires
        find_seq(d, "Assertion"@, 0) is None,
    ensures
        scanned(d) == Ok::<Option<AssertionView>, ScanError>(None),
{
    lemma_find_seq(d, "Assertion"@, 0);
    if first_element(d, "Assertion"@, 0) is Some {
        let i = lemma_found_element_occurs(d, "Assertion"@);
        assert(!occurs_at(d, "Assertion"@, i));
    }
    if first_element(d, "EncryptedAssertion"@, 0) is Some {
        let i = lemma_found_element_occurs(d, "EncryptedAssertion"@);
        reveal_strlit("EncryptedAssertion");
        reveal_strlit("Assertion");
        assert(d.subrange(i + 9, i + 18) =~= d.subrange(i, i + 18).subrange(9, 18));
        assert("EncryptedAssertion"@.subrange(9, 18) =~= "Assertion"@);
        assert(occurs_at(d, "Assertion"@, i + 9));
    }
}


/// Elements are found by local name whatever the prefix: `prefix:local`
/// has the local name `local`, as `local` itself has, when `local` holds
/// no `:`.
pub proof fn law_the_prefix_is_ignored(prefix: Seq<char>, local: Seq<char>)
    requires
        forall|i: int| 0 <= i < local.len() ==> local[i] != ':',
    ensures
        local_name(prefix + seq![':'] + local) == local,
        local_name(local) == local,
    decreases local.len(),
{
    let q = prefix + seq![':'] + local;
    if local.len() == 0 {
        assert(q.last() == ':');
        assert(local =~= Seq::<char>::empty());
    } else {
        let shorter = local.drop_last();
        law_the_prefix_is_ignored(prefix, shorter);
        assert(q.drop_last() =~= prefix + seq![':'] + shorter);
        assert(q.last() == local.last());
        assert(shorter.push(local.last()) =~= local);
    }
}

/// A name that ends inside a window of the document ends at the same place
/// when read in the window.
pub proof fn lemma_name_end_in_window(d: Seq<char>, a: int, b: int, i: int)
    requires
        0 <= a <= i <= b <= d.len(),
        name_end(d, i) < b,
    ensures
        name_end(d.subrange(a, b), i - a) == name_end(d, i) - a,
    decreases d.len() - i,
{
    if i < d.len() && !is_name_delimiter(d[i]) {
        lemma_name_end(d, i + 1);
        lemma_name_end_in_window(d, a, b, i + 1);
    }
}

/// Reading the assertion element alone gives the same names, with the span
/// now covering all of it: the proof that rides with a claim reads as the
/// claim it came from.
pub proof fn law_rereading_the_element(d: Seq<char>)
    requires
        scanned(d) is Ok,
        scanned(d)->Ok_0 is Some,
    ensures
        assertion_range(d) is Some,
        ({
            let (start, end) = assertion_range(d)->0;
            let body = d.subrange(start, end);
            let a = scanned(d)->Ok_0->0;
            scanned(body) == Ok::<Option<AssertionView>, ScanError>(
                Some(AssertionView { span: (0, byte_len(body)), ..a }),
            )
        }),
{
    let local = "Assertion"@;
    lemma_first_element(d, local, 0);
    let (start, name_end) = first_element(d, local, 0)->0;
    let q = d.subrange(start + 1, name_end);
    let closing = end_tag(q);
    lemma_find_seq(d, closing, name_end);
    let at = find_seq(d, closing, name_end)->0;
    let end = at + closing.len();
    let body = d.subrange(start, end);
    // The start tag is found at the start of the body.
    assert(closing[0] == '<');
    assert(d[at] == closing[0]);
    assert(name_end < end);
    lemma_name_end_in_window(d, start, end, start + 1);
    assert(body.subrange(1, name_end - start) =~= q);
    assert(first_element(body, local, 0) == Some((0int, name_end - start)));
    // The end tag is found where it was.
    assert(body.subrange(at - start, at - start + closing.len()) =~= d.subrange(at, end));
    assert forall|j: int| name_end - start <= j < at - start implies !occurs_at(body, closing, j) by {
        if occurs_at(body, closing, j) {
            assert(d.subrange(j + start, j + start + closing.len()) =~= body.subrange(
                j,
                j + closing.len(),
            ));
            assert(occurs_at(d, closing, j + start));
        }
    }
    lemma_find_seq_first(body, closing, name_end - start, at - start);
    assert(assertion_range(body) == Some((0int, body.len() as int)));
    assert(body.subrange(0, body.len() as int) =~= body);
    assert(body.take(0) =~= Seq::<char>::empty());
    assert(body.take(body.len() as int) =~= body);
}

/// The span frames the assertion element: the bytes between its ends are
/// exactly the encoding of the element, from the `<` of the start tag to the
/// `>` of the end tag, which closes the very name the start tag opened with
/// and is the first such end tag after the start tag's name; the span's
/// ends are the byte offsets of the element's first and one-past-last
/// characters.
pub proof fn law_span_frames_the_element(d: Seq<char>)
    requires
        scanned(d) is Ok,
        scanned(d)->Ok_0 is Some,
    ensures
        assertion_range(d) is Some,
        ({
            let (start, end) = assertion_range(d)->0;
            let body = d.subrange(start, end);
            let a = scanned(d)->Ok_0->0;
            let q = d.subrange(start + 1, name_end(d, start + 1));
            &&& 0 <= a.span.0 < a.span.1 <= byte_len(d)
            &&& encode_utf8(d).subrange(a.span.0, a.span.1) == encode_utf8(body)
            &&& body == seq!['<'] + q + body.skip(q.len() + 1int)
            &&& names_element(q, "Assertion"@)
            &&& body.skip(body.len() - end_tag(q).len()) == end_tag(q)
            &&& forall|j: int|
                q.len() + 1 <= j < body.len() - end_tag(q).len() ==> !#[trigger] occurs_at(
                    body,
                    end_tag(q),
                    j,
                )
            &&& a.span.0 == byte_len(d.take(start))
            &&& a.span.1 == byte_len(d.take(end))
        }),
{
    let local = "Assertion"@;
    lemma_first_element(d, local, 0);
    let (start, name_end) = first_element(d, local, 0)->0;
    let q = d.subrange(start + 1, name_end);
    let closing = end_tag(q);
    lemma_find_seq(d, closing, name_end);
    let at = find_seq(d, closing, name_end)->0;
    let end = at + closing.len();
    let body = d.subrange(start, end);
    assert(d =~= d.take(start) + body + d.skip(end));
    assert(d.take(end) =~= d.take(start) + body);
    lemma_encode_concat(d.take(start), body);
    lemma_encode_concat(d.take(start) + body, d.skip(end));
    let before = encode_utf8(d.take(start));
    let element = encode_utf8(body);
    assert(encode_utf8(d).subrange(before.len() as int, before.len() + element.len() as int) =~= element);
    assert(body.len() > 0);
    assert(element.len() > 0) by {
        reveal_with_fuel(encode_utf8, 1);
        vstd::utf8::char_is_scalar(body[0]);
    }
    assert(body =~= seq!['<'] + q + body.skip(q.len() + 1int));
    assert(body.skip(body.len() - closing.len()) =~= d.subrange(at, end));
    assert forall|j: int|
        q.len() + 1 <= j < body.len() - closing.len() implies !#[trigger] occurs_at(body, closing, j) by {
        if occurs_at(body, closing, j) {
            assert(d.subrange(j + start, j + start + closing.len()) =~= body.subrange(
                j,
                j + closing.len(),
            ));
            assert(occurs_at(d, closing, j + start));
        }
    }
}

/// Text without `&` unescapes to itself: every entity starts with `&`.
pub proof fn law_text_without_entities_is_unchanged(t: Seq<char>)
    requires
        forall|i: int| 0 <= i < t.len() ==> t[i] != '&',
    ensures
        unescaped(t) == t,
{
    reveal_strlit("&lt;");
    reveal_strlit("&gt;");
    reveal_strlit("&quot;");
    reveal_strlit("&apos;");
    reveal_strlit("&amp;");
    lemma_replace_absent(t, "&lt;"@, "<"@);
    lemma_replace_absent(t, "&gt;"@, ">"@);
    lemma_replace_absent(t, "&quot;"@, "\""@);
    lemma_replace_absent(t, "&apos;"@, "'"@);
    lemma_replace_absent(t, "&amp;"@, "&"@);
}

/// Unescaping keeps text non-empty and adds no white space at either end.
proof fn lemma_unescaped_edges(t: Seq<char>)
    requires
        t.len() > 0,
        !is_white_space(t[0]),
        !is_white_space(t.last()),
    ensures
        unescaped(t).len() > 0,
        !is_white_space(unescaped(t)[0]),
        !is_white_space(unescaped(t).last()),
{
    reveal_strlit("&lt;");
    reveal_strlit("&gt;");
    reveal_strlit("&quot;");
    reveal_strlit("&apos;");
    reveal_strlit("&amp;");
    reveal_strlit("<");
    reveal_strlit(">");
    reveal_strlit("\"");
    reveal_strlit("'");
    reveal_strlit("&");
    let lt = replace_all(t, "&lt;"@, "<"@);
    lemma_replace_edges(t, "&lt;"@, "<"@);
    let gt = replace_all(lt, "&gt;"@, ">"@);
    lemma_replace_edges(lt, "&gt;"@, ">"@);
    let quot = replace_all(gt, "&quot;"@, "\""@);
    lemma_replace_edges(gt, "&quot;"@, "\""@);
    let apos = replace_all(quot, "&apos;"@, "'"@);
    lemma_replace_edges(quot, "&apos;"@, "'"@);
    lemma_replace_edges(apos, "&amp;"@, "&"@);
}

/// Text read from an element is never empty, and neither starts nor ends
/// with white space.
pub proof fn law_element_text_is_trimmed(body: Seq<char>, name_end: int)
    requires
        0 <= name_end <= body.len(),
    ensures
        text_in(body, name_end) matches Some(t) ==> {
            &&& t.len() > 0
            &&& !is_white_space(t[0])
            &&& !is_white_space(t.last())
        },
{
    lemma_find_char(body, '>', name_end);
    if let Some(tag_end) = find_char(body, '>', name_end) {
        lemma_find_char(body, '<', tag_end + 1);
        if let Some(next) = find_char(body, '<', tag_end + 1) {
            lemma_trimmed_edges(body, tag_end + 1, next);
            let (lo, hi) = trimmed(body, tag_end + 1, next);
            if lo < hi {
                let t = body.subrange(lo, hi);
                assert(t[0] == body[lo]);
                assert(t.last() == body[hi - 1]);
                lemma_unescaped_edges(t);
            }
        }
    }
}


/// A `<` at `s` starts an element whose local name is `local`.
pub open spec fn starts_element(d: Seq<char>, local: Seq<char>, s: int) -> bool {
    &&& 0 <= s < d.len()
    &&& d[s] == '<'
    &&& names_element(d.subrange(s + 1, name_end(d, s + 1)), local)
}

/// No name that follows a `<` at or after `from` holds a `<` itself.
pub open spec fn names_hold_no_bracket(d: Seq<char>, from: int) -> bool {
    forall|i: int, j: int|
        #![trigger d[i], d[j]]
        from <= i < j < name_end(d, i + 1) && d[i] == '<' ==> d[j] != '<'
}

/// Where no name holds a `<`, the element found is the first `<` at or
/// after the start whose name has the local part sought; and none is found
/// exactly when there is no such `<`.
pub proof fn law_first_element_is_the_least(d: Seq<char>, local: Seq<char>, from: int)
    requires
        0 <= from,
        names_hold_no_bracket(d, from),
    ensures
        first_element(d, local, from) matches Some((s, e)) ==> {
            &&& from <= s
            &&& starts_element(d, local, s)
            &&& e == name_end(d, s + 1)
            &&& forall|k: int| from <= k < s ==> !#[trigger] starts_element(d, local, k)
        },
        first_element(d, local, from) is None ==> forall|k: int|
            from <= k ==> !#[trigger] starts_element(d, local, k),
    decreases d.len() - from,
{
    if from < d.len() {
        if d[from] != '<' {
            law_first_element_is_the_least(d, local, from + 1);
        } else {
            let ne = name_end(d, from + 1);
            lemma_name_end(d, from + 1);
            if !names_element(d.subrange(from + 1, ne), local) {
                assert(names_hold_no_bracket(d, ne));
                law_first_element_is_the_least(d, local, ne);
                assert forall|k: int| from < k < ne implies !#[trigger] starts_element(d, local, k) by {
                    assert(d[from] == '<');
                    assert(d[k] != '<');
                }
            }
        }
    }
}

/// Where no name holds a `<`, searching from any later start up to the
/// element found finds the same element.
pub proof fn law_a_later_start_finds_the_same_element(
    d: Seq<char>,
    local: Seq<char>,
    from: int,
    later: int,
)
    requires
        0 <= from <= later,
        names_hold_no_bracket(d, from),
        first_element(d, local, from) is Some,
        later <= (first_element(d, local, from)->0).0,
    ensures
        first_element(d, local, later) == first_element(d, local, from),
{
    law_first_element_is_the_least(d, local, from);
    assert(names_hold_no_bracket(d, later));
    law_first_element_is_the_least(d, local, later);
    let (s, e) = first_element(d, local, from)->0;
    assert(starts_element(d, local, s));
    if let Some((s2, e2)) = first_element(d, local, later) {
        if s2 < s {
            assert(!starts_element(d, local, s2));
        }
        if s < s2 {
            assert(!starts_element(d, local, s));
        }
    }
}


/// `v` stands in the attribute text `a` as the value of `name`: between two
/// quotes of one kind (`"` or `'`) at `open` and `close`, holding no quote of
/// that kind, after `=` at `eq` with only white space around it, after the
/// name at `at`, where the name sits at the search's start `from`, after
/// ASCII white space, or right after an earlier occurrence of the name.
pub open spec fn value_stands(
    a: Seq<char>,
    name: Seq<char>,
    from: int,
    v: Seq<char>,
    at: int,
    eq: int,
    open: int,
    close: int,
) -> bool {
    &&& from <= at
    &&& occurs_at(a, name, at)
    &&& (at == from || is_ascii_space(a[at - 1]) || occurs_at(a, name, at - name.len()))
    &&& at + name.len() <= eq < open < close < a.len()
    &&& a[eq] == '='
    &&& (forall|k: int| at + name.len() <= k < eq ==> is_white_space(a[k]))
    &&& (forall|k: int| eq < k < open ==> is_white_space(a[k]))
    &&& (a[open] == '"' || a[open] == '\'')
    &&& a[close] == a[open]
    &&& v == a.subrange(open + 1, close)
    &&& forall|k: int| 0 <= k < v.len() ==> v[k] != a[open]
}

/// Where the value found for an attribute stands in the attribute text.
proof fn lemma_attribute_value_stands(a: Seq<char>, name: Seq<char>, from: int) -> (w: (
    int,
    int,
    int,
    int,
))
    requires
        0 <= from,
    ensures
        attribute_value(a, name, from) is Some ==> value_stands(
            a,
            name,
            from,
            attribute_value(a, name, from)->0,
            w.0,
            w.1,
            w.2,
            w.3,
        ),
    decreases a.len() - from,
{
    if name.len() == 0 {
        return (0, 0, 0, 0);
    }
    lemma_find_seq(a, name, from);
    let at = match find_seq(a, name, from) {
        Some(at) => at,
        None => return (0, 0, 0, 0),
    };
    let next = at + name.len();
    lemma_skip_space(a, next, a.len() as int);
    let eq = skip_space(a, next, a.len() as int);
    let preceded = at == from || is_ascii_space(a[at - 1]);
    if preceded && eq < a.len() && a[eq] == '=' {
        lemma_skip_space(a, eq + 1, a.len() as int);
        let open = skip_space(a, eq + 1, a.len() as int);
        if open >= a.len() {
            return (0, 0, 0, 0);
        }
        if a[open] == '"' || a[open] == '\'' {
            lemma_find_char(a, a[open], open + 1);
            if let Some(close) = find_char(a, a[open], open + 1) {
                let v = a.subrange(open + 1, close);
                assert(forall|k: int| 0 <= k < v.len() ==> v[k] == a[open + 1 + k]);
                assert(value_stands(a, name, from, v, at, eq, open, close));
                return (at, eq, open, close);
            }
            return (0, 0, 0, 0);
        }
    }
    let w = lemma_attribute_value_stands(a, name, next);
    assert(w.0 == next ==> occurs_at(a, name, w.0 - name.len()));
    w
}

/// A value found for an attribute stands in the attribute text as written,
/// quoted, after the name and `=`, and holds no quote of its kind.
pub proof fn law_attribute_value_is_quoted(a: Seq<char>, name: Seq<char>, from: int)
    requires
        0 <= from,
    ensures
        attribute_value(a, name, from) matches Some(v) ==> exists|at: int, eq: int, open: int, close: int|
            #[trigger] value_stands(a, name, from, v, at, eq, open, close),
{
    let w = lemma_attribute_value_stands(a, name, from);
    if let Some(v) = attribute_value(a, name, from) {
        assert(value_stands(a, name, from, v, w.0, w.1, w.2, w.3));
    }
}


/// The five-entity escape of a character: `&`, `<`, `>`, `"` and `'` become
/// entities, every other character stands for itself.
pub open spec fn entity(c: char) -> Seq<char> {
    if c == '&' {
        "&amp;"@
    } else if c == '<' {
        "&lt;"@
    } else if c == '>' {
        "&gt;"@
    } else if c == '"' {
        "&quot;"@
    } else if c == '\'' {
        "&apos;"@
    } else {
        seq![c]
    }
}

/// The five-entity escape of a text.
pub open spec fn escaped(s: Seq<char>) -> Seq<char>
    decreases s.len(),
{
    if s.len() == 0 {
        s
    } else {
        entity(s[0]) + escaped(s.drop_first())
    }
}

/// When unescaping restores a character: `<` first, `&` last, the others
/// never (they have no entity).
spec fn restore_order(c: char) -> int {
    if c == '<' {
        1
    } else if c == '>' {
        2
    } else if c == '"' {
        3
    } else if c == '\'' {
        4
    } else if c == '&' {
        5
    } else {
        0
    }
}

/// A character once the first `k` replacements of unescaping are done.
spec fn partly_restored(c: char, k: int) -> Seq<char> {
    if 1 <= restore_order(c) <= k {
        seq![c]
    } else {
        entity(c)
    }
}

/// The escape of a text once the first `k` replacements of unescaping are
/// done.
spec fn partly_unescaped(s: Seq<char>, k: int) -> Seq<char>
    decreases s.len(),
{
    if s.len() == 0 {
        s
    } else {
        partly_restored(s[0], k) + partly_unescaped(s.drop_first(), k)
    }
}

proof fn lemma_reveal_entities()
    ensures
        "&amp;"@ == seq!['&', 'a', 'm', 'p', ';'],
        "&lt;"@ == seq!['&', 'l', 't', ';'],
        "&gt;"@ == seq!['&', 'g', 't', ';'],
        "&quot;"@ == seq!['&', 'q', 'u', 'o', 't', ';'],
        "&apos;"@ == seq!['&', 'a', 'p', 'o', 's', ';'],
        "&"@ == seq!['&'],
        "<"@ == seq!['<'],
        ">"@ == seq!['>'],
        "\""@ == seq!['"'],
        "'"@ == seq!['\''],
{
    reveal_strlit("&amp;");
    reveal_strlit("&lt;");
    reveal_strlit("&gt;");
    reveal_strlit("&quot;");
    reveal_strlit("&apos;");
    reveal_strlit("&");
    reveal_strlit("<");
    reveal_strlit(">");
    reveal_strlit("\"");
    reveal_strlit("'");
    assert("&amp;"@ =~= seq!['&', 'a', 'm', 'p', ';']);
    assert("&lt;"@ =~= seq!['&', 'l', 't', ';']);
    assert("&gt;"@ =~= seq!['&', 'g', 't', ';']);
    assert("&quot;"@ =~= seq!['&', 'q', 'u', 'o', 't', ';']);
    assert("&apos;"@ =~= seq!['&', 'a', 'p', 'o', 's', ';']);
    assert("&"@ =~= seq!['&']);
    assert("<"@ =~= seq!['<']);
    assert(">"@ =~= seq!['>']);
    assert("\""@ =~= seq!['"']);
    assert("'"@ =~= seq!['\'']);
}

/// One replacement of unescaping restores exactly the characters of its
/// entity.
proof fn lemma_unescape_step(s: Seq<char>, k: int, c: char)
    requires
        0 <= k < 5,
        restore_order(c) == k + 1,
    ensures
        replace_all(partly_unescaped(s, k), entity(c), seq![c]) == partly_unescaped(s, k + 1),
    decreases s.len(),
{
    lemma_reveal_entities();
    let p = entity(c);
    if s.len() > 0 {
        let head = s[0];
        let chunk = partly_restored(head, k);
        let rest = partly_unescaped(s.drop_first(), k);
        lemma_unescape_step(s.drop_first(), k, c);
        let whole = chunk + rest;
        assert(partly_unescaped(s, k) == whole);
        if restore_order(head) == k + 1 {
            assert(head == c);
            assert(whole.take(p.len() as int) =~= p);
            assert(whole.skip(p.len() as int) =~= rest);
        } else if restore_order(head) == 0 || restore_order(head) <= k {
            assert(chunk == seq![head]);
            assert(head != '&');
            if p.len() <= whole.len() {
                assert(whole.take(p.len() as int)[0] != p[0]);
            }
            assert(whole.drop_first() =~= rest);
        } else {
            assert(chunk == entity(head));
            let i: int = if chunk[1] != p[1] { 1 } else { 2 };
            assert(chunk[i] != p[i]);
            if p.len() <= whole.len() {
                assert(whole.take(p.len() as int)[i] != p[i]);
            }
            assert(whole.drop_first() =~= chunk.drop_first() + rest);
            lemma_replace_after_absent(chunk.drop_first(), rest, p, seq![c]);
            assert(seq![chunk[0]] + (chunk.drop_first() + replace_all(rest, p, seq![c])) =~= chunk
                + replace_all(rest, p, seq![c]));
        }
    }
}

proof fn lemma_partly_unescaped_ends(s: Seq<char>)
    ensures
        partly_unescaped(s, 0) == escaped(s),
        partly_unescaped(s, 5) == s,
    decreases s.len(),
{
    if s.len() > 0 {
        lemma_partly_unescaped_ends(s.drop_first());
        assert(seq![s[0]] + s.drop_first() =~= s);
    }
}

/// Unescaping the five-entity escape of any text gives the text back.
pub proof fn law_unescape_undoes_escape(s: Seq<char>)
    ensures
        unescaped(escaped(s)) == s,
{
    lemma_reveal_entities();
    lemma_partly_unescaped_ends(s);
    lemma_unescape_step(s, 0, '<');
    lemma_unescape_step(s, 1, '>');
    lemma_unescape_step(s, 2, '"');
    lemma_unescape_step(s, 3, '\'');
    lemma_unescape_step(s, 4, '&');
}


/// `t` is the text of the element whose qualified name ends at `e` in
/// `body`, read off the characters: its start tag closes with the first `>`
/// at `tag_end` (not `/>`), the text runs to the first `<` after it at
/// `next`, and `t` is what lies between, without the white space at either
/// end (`lo` and `hi` mark the rest), with the five entities unescaped.
pub open spec fn text_stands(
    body: Seq<char>,
    e: int,
    t: Seq<char>,
    tag_end: int,
    next: int,
    lo: int,
    hi: int,
) -> bool {
    &&& 0 <= e <= tag_end < next < body.len()
    &&& body[tag_end] == '>'
    &&& (forall|k: int| e <= k < tag_end ==> body[k] != '>')
    &&& !(tag_end > 0 && body[tag_end - 1] == '/')
    &&& body[next] == '<'
    &&& (forall|k: int| tag_end < k < next ==> body[k] != '<')
    &&& tag_end + 1 <= lo < hi <= next
    &&& (forall|k: int| tag_end + 1 <= k < lo ==> is_white_space(body[k]))
    &&& (forall|k: int| hi <= k < next ==> is_white_space(body[k]))
    &&& !is_white_space(body[lo])
    &&& !is_white_space(body[hi - 1])
    &&& t == unescaped(body.subrange(lo, hi))
}

/// Where the text read for an element stands in the characters.
proof fn lemma_text_stands(body: Seq<char>, e: int) -> (w: (int, int, int, int))
    requires
        0 <= e <= body.len(),
    ensures
        text_in(body, e) matches Some(t) ==> text_stands(body, e, t, w.0, w.1, w.2, w.3),
{
    lemma_find_char(body, '>', e);
    if let Some(tag_end) = find_char(body, '>', e) {
        lemma_find_char(body, '<', tag_end + 1);
        if let Some(next) = find_char(body, '<', tag_end + 1) {
            lemma_trimmed_edges(body, tag_end + 1, next);
            let (lo, hi) = trimmed(body, tag_end + 1, next);
            return (tag_end, next, lo, hi);
        }
    }
    (0, 0, 0, 0)
}

/// Text that stands in an element's characters is the text read for it: the
/// reading finds exactly what is written there.
pub proof fn law_text_that_stands_is_read(
    body: Seq<char>,
    e: int,
    t: Seq<char>,
    tag_end: int,
    next: int,
    lo: int,
    hi: int,
)
    requires
        text_stands(body, e, t, tag_end, next, lo, hi),
    ensures
        text_in(body, e) == Some(t),
{
    lemma_find_char_first(body, '>', e, tag_end);
    lemma_find_char_first(body, '<', tag_end + 1, next);
    lemma_trimmed_exactly(body, tag_end + 1, next, lo, hi);
}

/// The issuer read is the text of the first `Issuer` element inside the
/// assertion element, exactly as it stands there: trimmed of white space at
/// both ends and unescaped, nothing else taken away or changed.
pub proof fn law_the_issuer_is_the_first_issuer_text(d: Seq<char>)
    requires
        scanned(d) is Ok,
        scanned(d)->Ok_0 is Some,
    ensures
        assertion_range(d) is Some,
        ({
            let (start, end) = assertion_range(d)->0;
            let body = d.subrange(start, end);
            let a = scanned(d)->Ok_0->0;
            &&& first_element(body, "Issuer"@, 0) is Some
            &&& exists|tag_end: int, next: int, lo: int, hi: int|
                #[trigger] text_stands(
                    body,
                    (first_element(body, "Issuer"@, 0)->0).1,
                    a.issuer,
                    tag_end,
                    next,
                    lo,
                    hi,
                )
        }),
{
    let (start, end) = assertion_range(d)->0;
    let body = d.subrange(start, end);
    lemma_first_element(body, "Issuer"@, 0);
    let e = (first_element(body, "Issuer"@, 0)->0).1;
    let w = lemma_text_stands(body, e);
    assert(text_stands(body, e, scanned(d)->Ok_0->0.issuer, w.0, w.1, w.2, w.3));
}

/// The `NameID` read is the text of the first `NameID` element inside the
/// assertion element, exactly as it stands there: trimmed of white space at
/// both ends and unescaped, nothing else taken away or changed.
pub proof fn law_the_name_id_is_the_first_name_id_text(d: Seq<char>)
    requires
        scanned(d) is Ok,
        scanned(d)->Ok_0 is Some,
    ensures
        assertion_range(d) is Some,
        ({
            let (start, end) = assertion_range(d)->0;
            let body = d.subrange(start, end);
            let a = scanned(d)->Ok_0->0;
            &&& first_element(body, "NameID"@, 0) is Some
            &&& exists|tag_end: int, next: int, lo: int, hi: int|
                #[trigger] text_stands(
                    body,
                    (first_element(body, "NameID"@, 0)->0).1,
                    a.name_id,
                    tag_end,
                    next,
                    lo,
                    hi,
                )
        }),
{
    let (start, end) = assertion_range(d)->0;
    let body = d.subrange(start, end);
    lemma_first_element(body, "NameID"@, 0);
    let e = (first_element(body, "NameID"@, 0)->0).1;
    let w = lemma_text_stands(body, e);
    assert(text_stands(body, e, scanned(d)->Ok_0->0.name_id, w.0, w.1, w.2, w.3));
}

/// `f` is a `Format` value written inside the start tag whose qualified
/// name ends at `e` and which closes with the first `>` after it, at
/// `tag_end`: the name `Format` at `at`, then `=` at `eq`, then the value
/// between quotes of one kind at `open` and `close`, unescaped.
pub open spec fn format_stands(
    body: Seq<char>,
    e: int,
    tag_end: int,
    f: Seq<char>,
    at: int,
    eq: int,
    open: int,
    close: int,
) -> bool {
    &&& 0 <= e <= at
    &&& at + "Format"@.len() <= eq < open < close < tag_end < body.len()
    &&& body[tag_end] == '>'
    &&& (forall|k: int| e <= k < tag_end ==> body[k] != '>')
    &&& body.subrange(at, at + "Format"@.len()) == "Format"@
    &&& body[eq] == '='
    &&& (forall|k: int| at + "Format"@.len() <= k < eq ==> is_white_space(body[k]))
    &&& (forall|k: int| eq < k < open ==> is_white_space(body[k]))
    &&& (body[open] == '"' || body[open] == '\'')
    &&& body[close] == body[open]
    &&& (forall|k: int| open < k < close ==> body[k] != body[open])
    &&& f == unescaped(body.subrange(open + 1, close))
}

/// The format read is a `Format` attribute of the `NameID`'s own start tag:
/// it stands between the end of the first `NameID` element's name and the
/// `>` that closes that tag; and where that tag holds no `Format` at all,
/// no format is read, whatever other elements carry.
pub proof fn law_the_format_is_the_name_ids_own(d: Seq<char>)
    requires
        scanned(d) is Ok,
        scanned(d)->Ok_0 is Some,
    ensures
        assertion_range(d) is Some,
        ({
            let (start, end) = assertion_range(d)->0;
            let body = d.subrange(start, end);
            let a = scanned(d)->Ok_0->0;
            let e = (first_element(body, "NameID"@, 0)->0).1;
            &&& first_element(body, "NameID"@, 0) is Some
            &&& (a.format matches Some(f) ==> exists|tag_end: int, at: int, eq: int, open: int, close: int|
                #[trigger] format_stands(body, e, tag_end, f, at, eq, open, close))
            &&& forall|tag_end: int|
                #![trigger body[tag_end]]
                e <= tag_end < body.len() && body[tag_end] == '>' && (forall|k: int|
                    e <= k < tag_end ==> body[k] != '>') && (forall|k: int|
                    e <= k && k + "Format"@.len() <= tag_end ==> !occurs_at(body, "Format"@, k))
                    ==> a.format is None
        }),
{
    reveal_strlit("Format");
    let (start, end) = assertion_range(d)->0;
    let body = d.subrange(start, end);
    let name = "Format"@;
    lemma_first_element(body, "NameID"@, 0);
    let e = (first_element(body, "NameID"@, 0)->0).1;
    lemma_find_char(body, '>', e);
    let te = find_char(body, '>', e)->0;
    let attrs = body.subrange(e, te);
    let a = scanned(d)->Ok_0->0;
    let w = lemma_attribute_value_stands(attrs, name, 0);
    if let Some(v) = attribute_value(attrs, name, 0) {
        let (at, eq, open, close) = w;
        assert(value_stands(attrs, name, 0, v, at, eq, open, close));
        assert(body.subrange(e + at, e + at + name.len()) =~= attrs.subrange(at, at + name.len()));
        assert(v =~= body.subrange(e + open + 1, e + close));
        assert forall|k: int| #![trigger body[k]] e + open < k < e + close implies body[k] != body[e + open] by {
            assert(v[k - e - open - 1] == body[k]);
        }
        assert(forall|k: int| e + at + name.len() <= k < e + eq ==> body[k] == attrs[k - e]);
        assert(forall|k: int| e + eq < k < e + open ==> body[k] == attrs[k - e]);
        assert(format_stands(body, e, te, a.format->0, e + at, e + eq, e + open, e + close));
    }
    assert forall|tag_end: int|
        #![trigger body[tag_end]]
        e <= tag_end < body.len() && body[tag_end] == '>' && (forall|k: int|
            e <= k < tag_end ==> body[k] != '>') && (forall|k: int|
            e <= k && k + name.len() <= tag_end ==> !occurs_at(body, name, k))
        implies a.format is None by {
        if tag_end < te {
            assert(body[tag_end] != '>');
        }
        if te < tag_end {
            assert(body[te] != '>');
        }
        lemma_find_seq(attrs, name, 0);
        if let Some(i) = find_seq(attrs, name, 0) {
            assert(body.subrange(e + i, e + i + name.len()) =~= attrs.subrange(i, i + name.len()));
            assert(!occurs_at(body, name, e + i));
        }
    }
}


/// An assertion is refused for want of an issuer exactly when its first
/// `Issuer` element has no text standing in it (or there is no `Issuer`),
/// and for want of a subject when its first `NameID` has none; one left
/// unclosed has no end tag for its name anywhere after the start tag.
pub proof fn law_refusals_name_what_is_missing(d: Seq<char>)
    ensures
        scanned(d) == Err::<Option<AssertionView>, ScanError>(ScanError::Unclosed) ==> {
            &&& first_element(d, "Assertion"@, 0) is Some
            &&& ({
                let (s, e) = first_element(d, "Assertion"@, 0)->0;
                forall|j: int| e <= j ==> !#[trigger] occurs_at(d, end_tag(d.subrange(s + 1, e)), j)
            })
        },
        scanned(d) == Err::<Option<AssertionView>, ScanError>(ScanError::NoIssuer) ==> {
            &&& assertion_range(d) is Some
            &&& ({
                let (start, end) = assertion_range(d)->0;
                let body = d.subrange(start, end);
                first_element(body, "Issuer"@, 0) matches Some((_, e)) ==> forall|
                    t: Seq<char>,
                    tag_end: int,
                    next: int,
                    lo: int,
                    hi: int,
                | !#[trigger] text_stands(body, e, t, tag_end, next, lo, hi)
            })
        },
        scanned(d) == Err::<Option<AssertionView>, ScanError>(ScanError::NoNameId) ==> {
            &&& assertion_range(d) is Some
            &&& ({
                let (start, end) = assertion_range(d)->0;
                let body = d.subrange(start, end);
                first_element(body, "NameID"@, 0) matches Some((_, e)) ==> forall|
                    t: Seq<char>,
                    tag_end: int,
                    next: int,
                    lo: int,
                    hi: int,
                | !#[trigger] text_stands(body, e, t, tag_end, next, lo, hi)
            })
        },
{
    if first_element(d, "Assertion"@, 0) is Some {
        lemma_first_element(d, "Assertion"@, 0);
        let (s, e) = first_element(d, "Assertion"@, 0)->0;
        lemma_find_seq(d, end_tag(d.subrange(s + 1, e)), e);
    }
    if let Some((start, end)) = assertion_range(d) {
        let body = d.subrange(start, end);
        assert forall|e: int, t: Seq<char>, tag_end: int, next: int, lo: int, hi: int|
            #[trigger] text_stands(body, e, t, tag_end, next, lo, hi) implies text_in(body, e) == Some(t) by {
            law_text_that_stands_is_read(body, e, t, tag_end, next, lo, hi);
        }
        if let Some((_, e)) = first_element(body, "NameID"@, 0) {
            lemma_first_element(body, "NameID"@, 0);
            lemma_find_char(body, '>', e);
        }
    }
}

} // verus!
