//! Plain words of LaTeX text, entry signatures, and the unified citation
//! keys `[author][title][year]`.
use vstd::prelude::*;
use crate::chars::{
    is_ascii_alnum, ascii_lower, ascii_lower_seq, is_ascii_digit, unicode_alphabetic,
    unicode_alphanumeric, char_lowercase, is_alphabetic, is_alphanumeric, to_lowercase_char,
    is_alnum, lower, is_digit, chars_eq, eq_lit,
};
use crate::text::{
    trim, trim_chars, lemma_trim_len, words, split_words, join, collapse, collapse_chars,
    occurs_at, matches_at, copy_range, append_chars,
};
use crate::fold::{fold_spec, ascii_fold_char};
use crate::bib::{
    EntryView, BibEntry, assoc_get, get_field_lit, find_char_spec, find_char, lemma_find_char,
    lower_chars,
};

verus! {

// ---------------------------------------------------------------------------
// Plain words of LaTeX text
// ---------------------------------------------------------------------------

/// Removes wrapping `{...}` and `"..."` pairs around the trimmed text, one
/// after the other.
pub open spec fn unwrap_spec(s: Seq<char>) -> Seq<char>
    decreases s.len(),
{
    let t = trim(s);
    proof {
        lemma_trim_len(s);
    }
    if t.len() >= 2 && ((t[0] == '{' && t.last() == '}') || (t[0] == '"' && t.last() == '"')) {
        unwrap_spec(t.subrange(1, t.len() - 1))
    } else {
        s
    }
}

/// The first position at or after `i` that does not hold an alphabetic character.
pub open spec fn unicode_alpha_end(s: Seq<char>, i: int) -> int
    decreases s.len() - i,
{
    if 0 <= i < s.len() && unicode_alphabetic(s[i]) {
        unicode_alpha_end(s, i + 1)
    } else {
        i
    }
}

/// What one character contributes to the plain text.
pub open spec fn plain_piece(c: char) -> Seq<char> {
    if is_ascii_alnum(c) {
        seq![ascii_lower(c)]
    } else if fold_spec(c) is Some {
        fold_spec(c)->0
    } else if unicode_alphanumeric(c) {
        char_lowercase(c).map_values(
            |lc: char|
                if is_ascii_alnum(lc) {
                    lc
                } else {
                    ' '
                },
        )
    } else {
        seq![' ']
    }
}

/// The plain text of `s` from position `i` on: commands (a backslash and the
/// letters after it) are dropped, letters are folded to lower-case ASCII,
/// everything else becomes a space.
pub open spec fn plain_scan(s: Seq<char>, i: int) -> Seq<char>
    decreases s.len() - i,
{
    if i < 0 || i >= s.len() {
        seq![]
    } else if s[i] == '\\' {
        proof {
            lemma_unicode_alpha_end(s, i + 1);
        }
        plain_scan(s, unicode_alpha_end(s, i + 1))
    } else {
        plain_piece(s[i]) + plain_scan(s, i + 1)
    }
}

/// The lower-case ASCII words of a LaTeX text.
pub open spec fn words_from_latex_spec(raw: Seq<char>) -> Seq<Seq<char>> {
    words(plain_scan(unwrap_spec(trim(raw)), 0)).map_values(|w: Seq<char>| ascii_lower_seq(w))
}

/// The words of a LaTeX text joined by single spaces.
pub open spec fn latex_plain_spec(raw: Seq<char>) -> Seq<char> {
    join(words_from_latex_spec(raw), seq![' '])
}

pub proof fn lemma_unicode_alpha_end(s: Seq<char>, i: int)
    requires
        0 <= i,
    ensures
        i <= unicode_alpha_end(s, i),
        i <= s.len() ==> unicode_alpha_end(s, i) <= s.len(),
        i > s.len() ==> unicode_alpha_end(s, i) == i,
    decreases s.len() - i,
{
    if 0 <= i < s.len() && unicode_alphabetic(s[i]) {
        lemma_unicode_alpha_end(s, i + 1);
    }
}

fn unwrap_text(raw: &[char]) -> (r: Vec<char>)
    ensures
        r@ == unwrap_spec(trim(raw@)),
{
    let mut s = trim_chars(raw);
    loop
        invariant
            unwrap_spec(s@) == unwrap_spec(trim(raw@)),
        decreases s@.len(),
    {
        let t = trim_chars(s.as_slice());
        proof {
            lemma_trim_len(s@);
        }
        let n = t.len();
        if n >= 2 && ((t[0] == '{' && t[n - 1] == '}') || (t[0] == '"' && t[n - 1] == '"')) {
            s = copy_range(t.as_slice(), 1, n - 1);
        } else {
            return s;
        }
    }
}

fn piece_of(c: char) -> (r: Vec<char>)
    ensures
        r@ == plain_piece(c),
{
    if is_alnum(c) {
        let mut v: Vec<char> = Vec::new();
        v.push(lower(c));
        assert(v@ =~= seq![ascii_lower(c)]);
        v
    } else if let Some(f) = ascii_fold_char(c) {
        f
    } else if is_alphanumeric(c) {
        let lcs = to_lowercase_char(c);
        let mut v: Vec<char> = Vec::new();
        let mut i: usize = 0;
        while i < lcs.len()
            invariant
                i <= lcs@.len(),
                lcs@ == char_lowercase(c),
                v@ == lcs@.take(i as int).map_values(
                    |lc: char|
                        if is_ascii_alnum(lc) {
                            lc
                        } else {
                            ' '
                        },
                ),
            decreases lcs@.len() - i,
        {
            let lc = lcs[i];
            if is_alnum(lc) {
                v.push(lc);
            } else {
                v.push(' ');
            }
            i += 1;
            assert(v@ =~= lcs@.take(i as int).map_values(
                |lc: char|
                    if is_ascii_alnum(lc) {
                        lc
                    } else {
                        ' '
                    },
            ));
        }
        assert(lcs@.take(lcs@.len() as int) =~= lcs@);
        v
    } else {
        let mut v: Vec<char> = Vec::new();
        v.push(' ');
        assert(v@ =~= seq![' ']);
        v
    }
}

fn plain_text(s: &[char]) -> (r: Vec<char>)
    ensures
        r@ == plain_scan(s@, 0),
{
    let mut out: Vec<char> = Vec::new();
    let n = s.len();
    let mut i: usize = 0;
    while i < n
        invariant
            n == s@.len(),
            i <= n,
            out@ + plain_scan(s@, i as int) == plain_scan(s@, 0),
        decreases n - i,
    {
        if s[i] == '\\' {
            let mut j = i + 1;
            proof {
                lemma_unicode_alpha_end(s@, j as int);
            }
            while j < n && is_alphabetic(s[j])
                invariant
                    n == s@.len(),
                    i < j <= n,
                    unicode_alpha_end(s@, j as int) == unicode_alpha_end(s@, i + 1),
                decreases n - j,
            {
                j += 1;
            }
            assert(plain_scan(s@, i as int) == plain_scan(s@, j as int));
            i = j;
        } else {
            let p = piece_of(s[i]);
            assert(out@ + p@ + plain_scan(s@, i + 1) =~= out@ + plain_scan(s@, i as int));
            append_chars(&mut out, p.as_slice());
            i += 1;
        }
    }
    assert(out@ + plain_scan(s@, i as int) =~= out@);
    out
}

/// The lower-case ASCII words of a LaTeX text: wrapping braces and quotes
/// are removed, commands dropped, accented letters folded, and everything
/// that is not a letter or digit separates words.
pub fn words_from_latex(raw: &[char]) -> (r: Vec<Vec<char>>)
    ensures
        r@.len() == words_from_latex_spec(raw@).len(),
        forall|k: int| 0 <= k < r@.len() ==> (#[trigger] r@[k])@ == words_from_latex_spec(raw@)[k],
{
    let s = unwrap_text(raw);
    let plain = plain_text(s.as_slice());
    let ws = split_words(plain.as_slice());
    let mut out: Vec<Vec<char>> = Vec::new();
    let mut i: usize = 0;
    while i < ws.len()
        invariant
            i <= ws@.len(),
            ws@.len() == words(plain@).len(),
            plain@ == plain_scan(unwrap_spec(trim(raw@)), 0),
            forall|k: int| 0 <= k < ws@.len() ==> (#[trigger] ws@[k])@ == words(plain@)[k],
            out@.len() == i,
            forall|k: int| 0 <= k < i ==> (#[trigger] out@[k])@ == words_from_latex_spec(raw@)[k],
        decreases ws@.len() - i,
    {
        let w = lower_chars(ws[i].as_slice());
        out.push(w);
        i += 1;
    }
    out
}

/// The words of a LaTeX text joined by single spaces.
pub fn latex_plain(raw: &[char]) -> (r: Vec<char>)
    ensures
        r@ == latex_plain_spec(raw@),
{
    let ws = words_from_latex(raw);
    join_words(&ws, ' ')
}

/// The parts joined with `sep` between each two of them.
pub fn join_words(parts: &Vec<Vec<char>>, sep: char) -> (r: Vec<char>)
    ensures
        forall|ps: Seq<Seq<char>>|
            ps.len() == parts@.len() && (forall|k: int|
                0 <= k < ps.len() ==> #[trigger] ps[k] == parts@[k]@) ==> r@ == join(ps, seq![sep]),
{
    let mut out: Vec<char> = Vec::new();
    let mut i: usize = 0;
    let ghost pv = Seq::new(parts@.len(), |k: int| parts@[k]@);
    while i < parts.len()
        invariant
            i <= parts@.len(),
            pv.len() == parts@.len(),
            forall|k: int| 0 <= k < pv.len() ==> #[trigger] pv[k] == parts@[k]@,
            out@ == join(pv.take(i as int), seq![sep]),
        decreases parts@.len() - i,
    {
        let ghost before = pv.take(i as int);
        assert(pv.take(i + 1).drop_last() =~= before);
        if i > 0 {
            out.push(sep);
        }
        append_chars(&mut out, parts[i].as_slice());
        i += 1;
        assert(out@ =~= join(pv.take(i as int), seq![sep]));
    }
    assert(pv.take(parts@.len() as int) =~= pv);
    assert forall|ps: Seq<Seq<char>>|
        ps.len() == parts@.len() && (forall|k: int|
            0 <= k < ps.len() ==> #[trigger] ps[k] == parts@[k]@) implies out@ == join(
        ps,
        seq![sep],
    ) by {
        assert(ps =~= pv);
    }
    out
}

// ---------------------------------------------------------------------------
// Years
// ---------------------------------------------------------------------------

/// Four ASCII digits start at `i`.
pub open spec fn four_digits_at(s: Seq<char>, i: int) -> bool {
    0 <= i && i + 4 <= s.len() && is_ascii_digit(s[i]) && is_ascii_digit(s[i + 1])
        && is_ascii_digit(s[i + 2]) && is_ascii_digit(s[i + 3])
}

/// The first position at or after `i` where four digits start.
pub open spec fn four_digits_from(s: Seq<char>, i: int) -> Option<int>
    decreases s.len() - i,
{
    if i < 0 || i + 4 > s.len() {
        None
    } else if four_digits_at(s, i) {
        Some(i)
    } else {
        four_digits_from(s, i + 1)
    }
}

/// The first run of four digits in `s`.
pub open spec fn first_four_digit_year_spec(s: Seq<char>) -> Option<Seq<char>> {
    match four_digits_from(s, 0) {
        Some(k) => Some(s.subrange(k, k + 4)),
        None => None,
    }
}

pub proof fn lemma_four_digits_from(s: Seq<char>, i: int)
    requires
        0 <= i,
    ensures
        four_digits_from(s, i) matches Some(k) ==> i <= k && four_digits_at(s, k),
    decreases s.len() - i,
{
    if i + 4 <= s.len() && !four_digits_at(s, i) {
        lemma_four_digits_from(s, i + 1);
    }
}

/// The first four consecutive digits of `s`.
pub fn first_four_digit_year(s: &[char]) -> (r: Option<Vec<char>>)
    ensures
        r is None <==> first_four_digit_year_spec(s@) is None,
        r matches Some(v) ==> first_four_digit_year_spec(s@) == Some(v@),
{
    proof {
        lemma_four_digits_from(s@, 0);
    }
    let n = s.len();
    let mut i: usize = 0;
    while n >= 4 && i <= n - 4
        invariant
            n == s@.len(),
            four_digits_from(s@, i as int) == four_digits_from(s@, 0),
        decreases n + 1 - i,
    {
        if is_digit(s[i]) && is_digit(s[i + 1]) && is_digit(s[i + 2]) && is_digit(s[i + 3]) {
            return Some(copy_range(s, i, i + 4));
        }
        i += 1;
    }
    None
}

/// The year of an entry: the first four digits of its `year` field, or of
/// its `date` field when it has no `year` field.
pub open spec fn entry_year_spec(e: EntryView) -> Option<Seq<char>> {
    let src = match assoc_get(e.fields, "year"@) {
        Some(v) => Some(v),
        None => assoc_get(e.fields, "date"@),
    };
    match src {
        Some(v) => first_four_digit_year_spec(v),
        None => None,
    }
}

/// The year of an entry (see `entry_year_spec`).
pub fn entry_year(e: &BibEntry) -> (r: Option<Vec<char>>)
    ensures
        r is None <==> entry_year_spec(e@) is None,
        r matches Some(v) ==> entry_year_spec(e@) == Some(v@),
{
    let src = match get_field_lit(&e.fields, "year") {
        Some(v) => Some(v),
        None => get_field_lit(&e.fields, "date"),
    };
    match src {
        Some(v) => first_four_digit_year(v.as_slice()),
        None => None,
    }
}

/// The value of a digit.
pub open spec fn digit_value(c: char) -> int {
    (c as u32) - ('0' as u32)
}

/// The number that four digits spell.
pub open spec fn year_value(y: Seq<char>) -> int {
    digit_value(y[0]) * 1000 + digit_value(y[1]) * 100 + digit_value(y[2]) * 10 + digit_value(
        y[3],
    )
}

/// The year of an entry as a number.
pub open spec fn entry_year_num_spec(e: EntryView) -> Option<int> {
    match entry_year_spec(e) {
        Some(y) => Some(year_value(y)),
        None => None,
    }
}

/// The year of an entry as a number.
pub fn entry_year_i32(e: &BibEntry) -> (r: Option<i32>)
    ensures
        r is None <==> entry_year_num_spec(e@) is None,
        r matches Some(v) ==> entry_year_num_spec(e@) == Some(v as int),
{
    match entry_year(e) {
        Some(y) => {
            proof {
                lemma_entry_year_digits(e@);
            }
            Some(year_of_digits(y.as_slice()))
        },
        None => None,
    }
}

/// A year found in an entry is four digits.
pub proof fn lemma_entry_year_digits(e: EntryView)
    ensures
        entry_year_spec(e) matches Some(y) ==> y.len() == 4 && is_ascii_digit(y[0])
            && is_ascii_digit(y[1]) && is_ascii_digit(y[2]) && is_ascii_digit(y[3]),
{
    let src = match assoc_get(e.fields, "year"@) {
        Some(v) => Some(v),
        None => assoc_get(e.fields, "date"@),
    };
    if let Some(v) = src {
        lemma_four_digits_from(v, 0);
    }
}

/// The number spelled by four digits.
fn year_of_digits(y: &[char]) -> (r: i32)
    requires
        y@.len() == 4,
        is_ascii_digit(y@[0]),
        is_ascii_digit(y@[1]),
        is_ascii_digit(y@[2]),
        is_ascii_digit(y@[3]),
    ensures
        r as int == year_value(y@),
{
    let d0: i32 = (y[0] as u32 - '0' as u32) as i32;
    let d1: i32 = (y[1] as u32 - '0' as u32) as i32;
    let d2: i32 = (y[2] as u32 - '0' as u32) as i32;
    let d3: i32 = (y[3] as u32 - '0' as u32) as i32;
    d0 * 1000 + d1 * 100 + d2 * 10 + d3
}

// ---------------------------------------------------------------------------
// Key components
// ---------------------------------------------------------------------------

/// The first position at or after `i` where `p` occurs in `s`.
pub open spec fn find_sub_from(s: Seq<char>, p: Seq<char>, i: int) -> Option<int>
    decreases s.len() + 1 - i,
{
    if i < 0 || i > s.len() {
        None
    } else if occurs_at(s, p, i) {
        Some(i)
    } else {
        find_sub_from(s, p, i + 1)
    }
}

/// The text before the first occurrence of `p` (the first piece of `str::split`).
pub open spec fn before_first(s: Seq<char>, p: Seq<char>) -> Seq<char> {
    match find_sub_from(s, p, 0) {
        Some(k) => s.take(k),
        None => s,
    }
}

pub proof fn lemma_find_sub_from(s: Seq<char>, p: Seq<char>, i: int)
    requires
        0 <= i,
    ensures
        find_sub_from(s, p, i) matches Some(k) ==> i <= k <= s.len() && occurs_at(s, p, k),
    decreases s.len() + 1 - i,
{
    if i <= s.len() && !occurs_at(s, p, i) {
        lemma_find_sub_from(s, p, i + 1);
    }
}

/// The text of `s` before the first occurrence of `p`.
fn before_first_exec(s: &[char], p: &[char]) -> (r: Vec<char>)
    ensures
        r@ == before_first(s@, p@),
{
    proof {
        lemma_find_sub_from(s@, p@, 0);
    }
    let mut i: usize = 0;
    loop
        invariant
            i <= s@.len(),
            find_sub_from(s@, p@, i as int) == find_sub_from(s@, p@, 0),
        decreases s@.len() - i,
    {
        if matches_at(s, i, p) {
            return copy_range(s, 0, i);
        }
        if i == s.len() {
            assert(find_sub_from(s@, p@, i + 1) is None);
            assert(s@.subrange(0, s@.len() as int) =~= s@);
            return copy_range(s, 0, s.len());
        }
        i += 1;
    }
}

/// The family-name component of a key, from an `author` (or `editor`) field:
/// the words of the family name of the first person, joined without spaces
/// when the name is written `Family, Given`, otherwise the last word; `anon`
/// when there is none.
pub open spec fn author_component_spec(raw: Seq<char>) -> Seq<char> {
    let first = trim(before_first(raw, " and "@));
    let comma = find_char_spec(first, 0, ',');
    let family = match comma {
        Some(p) => first.take(p),
        None => first,
    };
    let ws = words_from_latex_spec(family);
    if ws.len() == 0 {
        "anon"@
    } else if comma is Some {
        join(ws, seq![])
    } else {
        ws.last()
    }
}

/// The family-name component of a key (see `author_component_spec`).
pub fn author_component(raw: &[char]) -> (r: Vec<char>)
    ensures
        r@ == author_component_spec(raw@),
{
    let and_sep = crate::chars::chars_of(" and ");
    let before = before_first_exec(raw, and_sep.as_slice());
    let first = trim_chars(before.as_slice());
    let comma = find_char(first.as_slice(), 0, ',');
    proof {
        lemma_find_char(first@, 0, ',');
    }
    let family = match comma {
        Some(p) => copy_range(first.as_slice(), 0, p),
        None => copy_range(first.as_slice(), 0, first.len()),
    };
    assert(first@.take(first@.len() as int) =~= first@);
    let ws = words_from_latex(family.as_slice());
    if ws.len() == 0 {
        return crate::chars::chars_of("anon");
    }
    if comma.is_some() {
        let mut out: Vec<char> = Vec::new();
        let mut i: usize = 0;
        let ghost wv = words_from_latex_spec(family@);
        while i < ws.len()
            invariant
                i <= ws@.len(),
                ws@.len() == wv.len(),
                forall|k: int| 0 <= k < ws@.len() ==> (#[trigger] ws@[k])@ == wv[k],
                out@ == join(wv.take(i as int), seq![]),
            decreases ws@.len() - i,
        {
            assert(wv.take(i + 1).drop_last() =~= wv.take(i as int));
            append_chars(&mut out, ws[i].as_slice());
            i += 1;
            assert(out@ =~= join(wv.take(i as int), seq![]));
        }
        assert(wv.take(wv.len() as int) =~= wv);
        out
    } else {
        let last = ws.len() - 1;
        copy_range(ws[last].as_slice(), 0, ws[last].len())
    }
}

/// Short words that do not make a title component.
pub open spec fn is_stop_word(w: Seq<char>) -> bool {
    ||| w == "a"@
    ||| w == "an"@
    ||| w == "the"@
    ||| w == "on"@
    ||| w == "of"@
    ||| w == "for"@
    ||| w == "and"@
    ||| w == "or"@
    ||| w == "in"@
    ||| w == "to"@
    ||| w == "with"@
    ||| w == "by"@
    ||| w == "from"@
}

fn stop_word(w: &[char]) -> (r: bool)
    ensures
        r == is_stop_word(w@),
{
    eq_lit(w, "a") || eq_lit(w, "an") || eq_lit(w, "the") || eq_lit(w, "on") || eq_lit(w, "of")
        || eq_lit(w, "for") || eq_lit(w, "and") || eq_lit(w, "or") || eq_lit(w, "in") || eq_lit(
        w,
        "to",
    ) || eq_lit(w, "with") || eq_lit(w, "by") || eq_lit(w, "from")
}

/// The first word that is not a stop word.
pub open spec fn first_non_stop(ws: Seq<Seq<char>>) -> Option<Seq<char>>
    decreases ws.len(),
{
    if ws.len() == 0 {
        None
    } else if !is_stop_word(ws[0]) {
        Some(ws[0])
    } else {
        first_non_stop(ws.drop_first())
    }
}

/// The title component of a key: the first word of the title that is not a
/// stop word, or `untitled`.
pub open spec fn title_component_spec(raw: Seq<char>) -> Seq<char> {
    match first_non_stop(words_from_latex_spec(raw)) {
        Some(w) => w,
        None => "untitled"@,
    }
}

/// The title component of a key (see `title_component_spec`).
pub fn title_component(raw: &[char]) -> (r: Vec<char>)
    ensures
        r@ == title_component_spec(raw@),
{
    let ws = words_from_latex(raw);
    let ghost wv = words_from_latex_spec(raw@);
    let mut i: usize = 0;
    assert(wv.skip(0) =~= wv);
    while i < ws.len()
        invariant
            i <= ws@.len(),
            ws@.len() == wv.len(),
            forall|k: int| 0 <= k < ws@.len() ==> (#[trigger] ws@[k])@ == wv[k],
            first_non_stop(wv.skip(i as int)) == first_non_stop(wv),
            wv == words_from_latex_spec(raw@),
        decreases ws@.len() - i,
    {
        assert(wv.skip(i as int).drop_first() =~= wv.skip(i + 1));
        if !stop_word(ws[i].as_slice()) {
            assert(wv.skip(i as int)[0] == wv[i as int]);
            assert(wv.skip(i as int).len() > 0);
            assert(first_non_stop(wv.skip(i as int)) == Some(wv[i as int]));
            assert(ws@[i as int]@.subrange(0, ws@[i as int]@.len() as int) =~= ws@[i as int]@);
            let w = copy_range(ws[i].as_slice(), 0, ws[i].len());
            assert(w@ == wv[i as int]);
            return w;
        }
        i += 1;
    }
    crate::chars::chars_of("untitled")
}

/// The value of the `author` field, or of the `editor` field when there is
/// no `author` field.
pub open spec fn author_field(e: EntryView) -> Option<Seq<char>> {
    match assoc_get(e.fields, "author"@) {
        Some(v) => Some(v),
        None => assoc_get(e.fields, "editor"@),
    }
}

fn author_field_exec(e: &BibEntry) -> (r: Option<Vec<char>>)
    ensures
        r is None <==> author_field(e@) is None,
        r matches Some(v) ==> author_field(e@) == Some(v@),
{
    match get_field_lit(&e.fields, "author") {
        Some(v) => Some(v),
        None => get_field_lit(&e.fields, "editor"),
    }
}

/// The year text of a key, `0000` when the entry has none.
pub open spec fn year_or_default(e: EntryView) -> Seq<char> {
    match entry_year_spec(e) {
        Some(y) => y,
        None => "0000"@,
    }
}

/// The unified key of an entry: `[author][title][year]`, the three parts
/// written one after the other.
pub open spec fn make_new_key_spec(e: EntryView) -> Seq<char> {
    let author_raw = match author_field(e) {
        Some(v) => v,
        None => seq![],
    };
    let title_raw = match assoc_get(e.fields, "title"@) {
        Some(v) => v,
        None => seq![],
    };
    author_component_spec(author_raw) + title_component_spec(title_raw) + year_or_default(e)
}

/// The unified key of an entry (see `make_new_key_spec`).
pub fn make_new_key(e: &BibEntry) -> (r: Vec<char>)
    ensures
        r@ == make_new_key_spec(e@),
{
    let author_raw = match author_field_exec(e) {
        Some(v) => v,
        None => Vec::new(),
    };
    let title_raw = match get_field_lit(&e.fields, "title") {
        Some(v) => v,
        None => Vec::new(),
    };
    let author = author_component(author_raw.as_slice());
    let title = title_component(title_raw.as_slice());
    let year = match entry_year(e) {
        Some(y) => y,
        None => crate::chars::chars_of("0000"),
    };
    let mut out = author;
    append_chars(&mut out, title.as_slice());
    append_chars(&mut out, year.as_slice());
    out
}

/// The signature by which duplicate entries are recognised: the plain
/// author, title and year, or the lower-case key when there is no title.
pub open spec fn entry_signature_spec(e: EntryView) -> Seq<char> {
    let author = match author_field(e) {
        Some(v) => latex_plain_spec(v),
        None => seq![],
    };
    let title = match assoc_get(e.fields, "title"@) {
        Some(v) => latex_plain_spec(v),
        None => seq![],
    };
    if trim(title).len() == 0 {
        "key:"@ + ascii_lower_seq(e.old_key)
    } else {
        collapse(author) + seq!['|'] + collapse(title) + seq!['|'] + year_or_default(e)
    }
}

/// The signature of an entry (see `entry_signature_spec`).
pub fn entry_signature(e: &BibEntry) -> (r: Vec<char>)
    ensures
        r@ == entry_signature_spec(e@),
{
    let author = match author_field_exec(e) {
        Some(v) => latex_plain(v.as_slice()),
        None => Vec::new(),
    };
    let title = match get_field_lit(&e.fields, "title") {
        Some(v) => latex_plain(v.as_slice()),
        None => Vec::new(),
    };
    let year = match entry_year(e) {
        Some(y) => y,
        None => crate::chars::chars_of("0000"),
    };
    let tt = trim_chars(title.as_slice());
    if tt.len() == 0 {
        let mut out = crate::chars::chars_of("key:");
        let k = lower_chars(e.old_key.as_slice());
        append_chars(&mut out, k.as_slice());
        out
    } else {
        let mut out = collapse_chars(author.as_slice());
        out.push('|');
        let t = collapse_chars(title.as_slice());
        append_chars(&mut out, t.as_slice());
        out.push('|');
        append_chars(&mut out, year.as_slice());
        out
    }
}

// ---------------------------------------------------------------------------
// Unique keys
// ---------------------------------------------------------------------------

/// The character of a decimal digit.
pub open spec fn digit_char(d: nat) -> char {
    (('0' as u32) + d) as char
}

/// The decimal notation of `n`.
pub open spec fn decimal(n: nat) -> Seq<char>
    decreases n,
{
    if n < 10 {
        seq![digit_char(n)]
    } else {
        decimal(n / 10).push(digit_char(n % 10))
    }
}

/// The `n`-th alternative of a key: `base_n`.
pub open spec fn candidate_key(base: Seq<char>, n: nat) -> Seq<char> {
    base + seq!['_'] + decimal(n)
}

/// `n` is the first number from 2 on whose alternative key is not in `used`.
pub open spec fn is_first_free(base: Seq<char>, used: Seq<Seq<char>>, n: nat) -> bool {
    &&& n >= 2
    &&& !used.contains(candidate_key(base, n))
    &&& forall|m: nat| 2 <= m < n ==> used.contains(#[trigger] candidate_key(base, m))
}

/// The key that `base` becomes when the keys in `used` are taken: `base`
/// itself if it is free, otherwise the first free `base_n` for n = 2, 3, ...
pub open spec fn unique_key_spec(base: Seq<char>, used: Seq<Seq<char>>) -> Seq<char> {
    if !used.contains(base) {
        base
    } else {
        candidate_key(base, choose|n: nat| is_first_free(base, used, n))
    }
}

proof fn lemma_decimal_len(n: nat)
    ensures
        decimal(n).len() >= 1,
        n >= 10 ==> decimal(n).len() >= 2,
    decreases n,
{
    if n >= 10 {
        lemma_decimal_len(n / 10);
    }
}

proof fn lemma_decimal_inj(n: nat, m: nat)
    requires
        decimal(n) == decimal(m),
    ensures
        n == m,
    decreases n,
{
    lemma_decimal_len(n);
    lemma_decimal_len(m);
    if n < 10 && m < 10 {
        assert(decimal(n)[0] == digit_char(n));
        assert(decimal(m)[0] == digit_char(m));
    } else if n >= 10 && m >= 10 {
        assert(decimal(n).last() == digit_char(n % 10));
        assert(decimal(m).last() == digit_char(m % 10));
        assert(decimal(n).drop_last() =~= decimal(n / 10));
        assert(decimal(m).drop_last() =~= decimal(m / 10));
        lemma_decimal_inj(n / 10, m / 10);
    }
}

proof fn lemma_candidate_inj(base: Seq<char>, n: nat, m: nat)
    requires
        candidate_key(base, n) == candidate_key(base, m),
    ensures
        n == m,
{
    let k: int = base.len() as int + 1;
    assert(candidate_key(base, n).skip(k) =~= decimal(n));
    assert(candidate_key(base, m).skip(k) =~= decimal(m));
    lemma_decimal_inj(n, m);
}

/// Among the alternatives `base_2` .. `base_{L+2}` at least one is not among
/// the `L` used keys.
proof fn lemma_some_candidate_free(base: Seq<char>, used: Seq<Seq<char>>)
    ensures
        exists|m: nat| 2 <= m < used.len() + 3 && !used.contains(#[trigger] candidate_key(base, m)),
{
    let l = used.len() as int;
    if forall|m: nat| 2 <= m < used.len() + 3 ==> used.contains(#[trigger] candidate_key(base, m)) {
        let x = vstd::set_lib::set_int_range(2, l + 3);
        vstd::set_lib::lemma_int_range(2, l + 3);
        let f = |m: int| candidate_key(base, m as nat);
        assert(vstd::relations::injective_on(f, x)) by {
            assert forall|a: int, b: int| x.contains(a) && x.contains(b) && #[trigger] f(a) == #[trigger] f(b) implies a == b by {
                lemma_candidate_inj(base, a as nat, b as nat);
            }
        }
        let y = x.map(f);
        vstd::set_lib::lemma_map_size(x, y, f);
        assert(y.subset_of(used.to_set())) by {
            assert forall|k: Seq<char>| y.contains(k) implies used.to_set().contains(k) by {
                let a = choose|a: int| x.contains(a) && f(a) == k;
                assert(used.contains(candidate_key(base, a as nat)));
            }
        }
        used.lemma_cardinality_of_set();
        vstd::set_lib::lemma_len_subset(y, used.to_set());
        assert(false);
    }
}

proof fn lemma_least_free(base: Seq<char>, used: Seq<Seq<char>>, n: nat, m0: nat)
    requires
        2 <= n <= m0,
        !used.contains(candidate_key(base, m0)),
        forall|m: nat| 2 <= m < n ==> used.contains(#[trigger] candidate_key(base, m)),
    ensures
        exists|k: nat| is_first_free(base, used, k),
    decreases m0 - n,
{
    if used.contains(candidate_key(base, n)) {
        lemma_least_free(base, used, n + 1, m0);
    } else {
        assert(is_first_free(base, used, n));
    }
}

/// There is exactly one first free number.
pub proof fn lemma_first_free(base: Seq<char>, used: Seq<Seq<char>>)
    ensures
        exists|n: nat| is_first_free(base, used, n),
        forall|n: nat, m: nat| is_first_free(base, used, n) && is_first_free(base, used, m) ==> n == m,
        is_first_free(base, used, choose|n: nat| is_first_free(base, used, n)),
{
    lemma_some_candidate_free(base, used);
    let m0 = choose|m: nat| 2 <= m < used.len() + 3 && !used.contains(#[trigger] candidate_key(base, m));
    lemma_least_free(base, used, 2, m0);
    assert forall|a: nat, b: nat| is_first_free(base, used, a) && is_first_free(base, used, b) implies a == b by {
        if a < b {
            assert(used.contains(candidate_key(base, a)));
        } else if b < a {
            assert(used.contains(candidate_key(base, b)));
        }
    }
}

/// A unique key is not among the used ones.
pub proof fn lemma_unique_key_fresh(base: Seq<char>, used: Seq<Seq<char>>)
    ensures
        !used.contains(unique_key_spec(base, used)),
{
    lemma_first_free(base, used);
}

fn digit(d: u128) -> (r: char)
    requires
        d < 10,
    ensures
        r == digit_char(d as nat),
{
    let b: u8 = 48u8 + (d as u8);
    b as char
}

/// The decimal notation of `n`.
pub fn to_decimal(n: u128) -> (r: Vec<char>)
    ensures
        r@ == decimal(n as nat),
    decreases n,
{
    if n < 10 {
        let mut v: Vec<char> = Vec::new();
        v.push(digit(n));
        assert(v@ =~= seq![digit_char(n as nat)]);
        v
    } else {
        let mut v = to_decimal(n / 10);
        v.push(digit(n % 10));
        v
    }
}

/// Whether `k` is among the keys of `used`.
pub fn contains_key(used: &Vec<Vec<char>>, k: &[char]) -> (r: bool)
    ensures
        r == keys_view(used@).contains(k@),
{
    let mut i: usize = 0;
    while i < used.len()
        invariant
            i <= used@.len(),
            forall|j: int| 0 <= j < i ==> used@[j]@ != k@,
        decreases used@.len() - i,
    {
        if chars_eq(used[i].as_slice(), k) {
            assert(keys_view(used@)[i as int] == k@);
            return true;
        }
        i += 1;
    }
    proof {
        if keys_view(used@).contains(k@) {
            let j = choose|j: int| 0 <= j < keys_view(used@).len() && keys_view(used@)[j] == k@;
            assert(used@[j]@ == k@);
        }
    }
    false
}

/// The views of a list of keys.
pub open spec fn keys_view(v: Seq<Vec<char>>) -> Seq<Seq<char>> {
    v.map_values(|k: Vec<char>| k@)
}

/// Makes `base` unique among the keys in `used` (see `unique_key_spec`) and
/// records the result in `used`.
pub fn unique_key(base: Vec<char>, used: &mut Vec<Vec<char>>) -> (r: Vec<char>)
    ensures
        r@ == unique_key_spec(base@, keys_view(old(used)@)),
        !keys_view(old(used)@).contains(r@),
        keys_view(final(used)@) == keys_view(old(used)@).push(r@),
{
    let ghost u0 = keys_view(used@);
    proof {
        lemma_first_free(base@, u0);
        lemma_some_candidate_free(base@, u0);
    }
    if !contains_key(used, base.as_slice()) {
        let b = copy_range(base.as_slice(), 0, base.len());
        assert(base@.subrange(0, base@.len() as int) =~= base@);
        used.push(b);
        assert(keys_view(used@) =~= u0.push(base@));
        return base;
    }
    // try base_2, base_3, ...: `k` alternatives have been taken
    let mut k: usize = 0;
    let len = used.len();
    loop
        invariant
            u0 == keys_view(used@),
            u0 == keys_view(old(used)@),
            len == used@.len(),
            u0.contains(base@),
            k <= len,
            forall|m: nat| 2 <= m < k + 2 ==> u0.contains(#[trigger] candidate_key(base@, m)),
            exists|m: nat| 2 <= m < u0.len() + 3 && !u0.contains(#[trigger] candidate_key(base@, m)),
            is_first_free(base@, u0, choose|n: nat| is_first_free(base@, u0, n)),
            forall|a: nat, b: nat| is_first_free(base@, u0, a) && is_first_free(base@, u0, b) ==> a == b,
        decreases len - k,
    {
        let n: u128 = (k as u128) + 2;
        let mut c = copy_range(base.as_slice(), 0, base.len());
        c.push('_');
        let d = to_decimal(n);
        append_chars(&mut c, d.as_slice());
        assert(c@ =~= candidate_key(base@, n as nat));
        if !contains_key(used, c.as_slice()) {
            assert(is_first_free(base@, u0, n as nat));
            let c2 = copy_range(c.as_slice(), 0, c.len());
            assert(c@.subrange(0, c@.len() as int) =~= c@);
            used.push(c2);
            assert(keys_view(used@) =~= u0.push(c@));
            return c;
        }
        if k == len {
            proof {
                let m = choose|m: nat|
                    2 <= m < u0.len() + 3 && !u0.contains(#[trigger] candidate_key(base@, m));
                assert(u0.contains(candidate_key(base@, m)));
            }
        }
        k += 1;
    }
}

} // verus!
