//! Character classes, conversions between `str` and character vectors,
//! and the Unicode queries that come from the standard library.
use vstd::prelude::*;
use vstd::std_specs::iter::IteratorSpec;

verus! {

/// `char::is_whitespace`: the Unicode `White_Space` property.
pub open spec fn is_ws(c: char) -> bool {
    ||| ('\u{9}' <= c && c <= '\u{d}')
    ||| c == ' '
    ||| c == '\u{85}'
    ||| c == '\u{a0}'
    ||| c == '\u{1680}'
    ||| ('\u{2000}' <= c && c <= '\u{200a}')
    ||| c == '\u{2028}'
    ||| c == '\u{2029}'
    ||| c == '\u{202f}'
    ||| c == '\u{205f}'
    ||| c == '\u{3000}'
}

/// `u8::is_ascii_whitespace` / `char::is_ascii_whitespace`.
pub open spec fn is_ascii_ws(c: char) -> bool {
    c == ' ' || c == '\t' || c == '\n' || c == '\u{c}' || c == '\r'
}

pub open spec fn is_ascii_digit(c: char) -> bool {
    '0' <= c && c <= '9'
}

pub open spec fn is_ascii_upper(c: char) -> bool {
    'A' <= c && c <= 'Z'
}

pub open spec fn is_ascii_lower(c: char) -> bool {
    'a' <= c && c <= 'z'
}

pub open spec fn is_ascii_alpha(c: char) -> bool {
    is_ascii_upper(c) || is_ascii_lower(c)
}

pub open spec fn is_ascii_alnum(c: char) -> bool {
    is_ascii_alpha(c) || is_ascii_digit(c)
}

/// `char::is_ascii_punctuation`.
pub open spec fn is_ascii_punct(c: char) -> bool {
    ||| ('!' <= c && c <= '/')
    ||| (':' <= c && c <= '@')
    ||| ('[' <= c && c <= '`')
    ||| ('{' <= c && c <= '~')
}

/// `char::to_ascii_lowercase`.
pub open spec fn ascii_lower(c: char) -> char {
    if is_ascii_upper(c) {
        ((c as u32) + 32) as char
    } else {
        c
    }
}

/// `to_ascii_lowercase` on a whole text.
pub open spec fn ascii_lower_seq(s: Seq<char>) -> Seq<char> {
    s.map_values(|c: char| ascii_lower(c))
}

/// Number of bytes of the UTF-8 encoding of `c` (`char::len_utf8`).
pub open spec fn utf8_width(c: char) -> nat {
    if (c as u32) < 0x80 {
        1
    } else if (c as u32) < 0x800 {
        2
    } else if (c as u32) < 0x10000 {
        3
    } else {
        4
    }
}

/// Number of bytes of the UTF-8 encoding of a text.
pub open spec fn utf8_len(s: Seq<char>) -> nat
    decreases s.len(),
{
    if s.len() == 0 {
        0
    } else {
        utf8_len(s.drop_last()) + utf8_width(s.last())
    }
}

/// Whether `c` has the Unicode `Alphabetic` property (`char::is_alphabetic`).
pub uninterp spec fn unicode_alphabetic(c: char) -> bool;

/// Whether `c` is alphabetic or numeric in Unicode (`char::is_alphanumeric`).
pub uninterp spec fn unicode_alphanumeric(c: char) -> bool;

/// Whether `c` has the Unicode `Lowercase` property (`char::is_lowercase`).
pub uninterp spec fn unicode_lowercase(c: char) -> bool;

/// Whether `c` has the Unicode `Uppercase` property (`char::is_uppercase`).
pub uninterp spec fn unicode_uppercase(c: char) -> bool;

/// The characters that `char::to_lowercase` yields for `c`.
pub uninterp spec fn char_lowercase(c: char) -> Seq<char>;

/// The text that `str::to_lowercase` yields for a text.
pub uninterp spec fn text_lowercase(s: Seq<char>) -> Seq<char>;

/// Calls `char::is_alphabetic`; the result is named `unicode_alphabetic`.
#[verifier::external_body]
pub(crate) fn is_alphabetic(c: char) -> (r: bool)
    ensures
        r == unicode_alphabetic(c),
{
    c.is_alphabetic()
}

/// Calls `char::is_alphanumeric`; the result is named `unicode_alphanumeric`.
#[verifier::external_body]
pub(crate) fn is_alphanumeric(c: char) -> (r: bool)
    ensures
        r == unicode_alphanumeric(c),
{
    c.is_alphanumeric()
}

/// Calls `char::is_lowercase`; the result is named `unicode_lowercase`.
#[verifier::external_body]
pub(crate) fn is_lowercase(c: char) -> (r: bool)
    ensures
        r == unicode_lowercase(c),
{
    c.is_lowercase()
}

/// Calls `char::is_uppercase`; the result is named `unicode_uppercase`.
#[verifier::external_body]
pub(crate) fn is_uppercase(c: char) -> (r: bool)
    ensures
        r == unicode_uppercase(c),
{
    c.is_uppercase()
}

/// Calls `char::to_lowercase` and collects what it yields; the result is named
/// `char_lowercase`.
#[verifier::external_body]
pub(crate) fn to_lowercase_char(c: char) -> (r: Vec<char>)
    ensures
        r@ == char_lowercase(c),
{
    c.to_lowercase().collect()
}

/// Calls `str::to_lowercase` on the text of `s`; the result is named
/// `text_lowercase`.
#[verifier::external_body]
pub(crate) fn to_lowercase_text(s: &[char]) -> (r: Vec<char>)
    ensures
        r@ == text_lowercase(s@),
{
    let text: String = s.iter().collect();
    text.to_lowercase().chars().collect()
}

/// Calls `String::push`: the string gets `c` at its end.
#[verifier::external_body]
fn push_char(s: &mut String, c: char)
    ensures
        final(s)@ == old(s)@.push(c),
{
    s.push(c);
}

pub fn is_whitespace(c: char) -> (r: bool)
    ensures
        r == is_ws(c),
{
    ('\u{9}' <= c && c <= '\u{d}') || c == ' ' || c == '\u{85}' || c == '\u{a0}' || c
        == '\u{1680}' || ('\u{2000}' <= c && c <= '\u{200a}') || c == '\u{2028}' || c
        == '\u{2029}' || c == '\u{202f}' || c == '\u{205f}' || c == '\u{3000}'
}

pub fn is_ascii_whitespace(c: char) -> (r: bool)
    ensures
        r == is_ascii_ws(c),
{
    c == ' ' || c == '\t' || c == '\n' || c == '\u{c}' || c == '\r'
}

pub fn is_digit(c: char) -> (r: bool)
    ensures
        r == is_ascii_digit(c),
{
    '0' <= c && c <= '9'
}

pub fn is_alpha(c: char) -> (r: bool)
    ensures
        r == is_ascii_alpha(c),
{
    ('A' <= c && c <= 'Z') || ('a' <= c && c <= 'z')
}

pub fn is_alnum(c: char) -> (r: bool)
    ensures
        r == is_ascii_alnum(c),
{
    ('A' <= c && c <= 'Z') || ('a' <= c && c <= 'z') || ('0' <= c && c <= '9')
}

pub fn is_punct(c: char) -> (r: bool)
    ensures
        r == is_ascii_punct(c),
{
    ('!' <= c && c <= '/') || (':' <= c && c <= '@') || ('[' <= c && c <= '`') || ('{' <= c
        && c <= '~')
}

pub fn lower(c: char) -> (r: char)
    ensures
        r == ascii_lower(c),
{
    if 'A' <= c && c <= 'Z' {
        let u: u32 = c as u32;
        let l: u32 = u + 32;
        proof {
            vstd::utf8::char_is_scalar(c);
        }
        char_from_ascii(l)
    } else {
        c
    }
}

/// The character with a code below 128.
fn char_from_ascii(u: u32) -> (r: char)
    requires
        u < 128,
    ensures
        r == u as char,
{
    let b: u8 = u as u8;
    b as char
}

pub fn width(c: char) -> (r: usize)
    ensures
        r == utf8_width(c),
{
    if (c as u32) < 0x80 {
        1
    } else if (c as u32) < 0x800 {
        2
    } else if (c as u32) < 0x10000 {
        3
    } else {
        4
    }
}

/// The characters of a string, in order.
pub fn chars_of(s: &str) -> (v: Vec<char>)
    ensures
        v@ == s@,
{
    let mut v: Vec<char> = Vec::new();
    proof {
        broadcast use vstd::string::group_string_axioms;
    }
    for c in iter: s.chars()
        invariant
            v@ == iter.seq().take(iter.index() as int),
            iter.seq() == s@,
    {
        v.push(c);
    }
    v
}

/// The string made of the given characters.
pub fn string_of(v: &[char]) -> (s: String)
    ensures
        s@ == v@,
{
    let mut s = String::new();
    let mut i: usize = 0;
    while i < v.len()
        invariant
            i <= v@.len(),
            s@ == v@.take(i as int),
        decreases v@.len() - i,
    {
        push_char(&mut s, v[i]);
        i += 1;
        assert(v@.take(i as int) == v@.take(i - 1).push(v@[i - 1]));
    }
    assert(v@.take(v@.len() as int) == v@);
    s
}

/// `a` and `b` hold the same characters.
pub fn chars_eq(a: &[char], b: &[char]) -> (r: bool)
    ensures
        r == (a@ == b@),
{
    if a.len() != b.len() {
        return false;
    }
    let mut i: usize = 0;
    while i < a.len()
        invariant
            a@.len() == b@.len(),
            i <= a@.len(),
            forall|j: int| 0 <= j < i ==> a@[j] == b@[j],
        decreases a@.len() - i,
    {
        if a[i] != b[i] {
            return false;
        }
        i += 1;
    }
    assert(a@ =~= b@);
    true
}

/// `a` holds the characters of the literal `lit`.
pub fn eq_lit(a: &[char], lit: &str) -> (r: bool)
    ensures
        r == (a@ == lit@),
{
    let l = chars_of(lit);
    chars_eq(a, l.as_slice())
}

} // verus!
