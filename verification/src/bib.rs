//! Parsing BibTeX files into special blocks and entries with their fields.
use vstd::prelude::*;
use crate::chars::{
    is_ascii_ws, is_ascii_alnum, ascii_lower_seq, is_ascii_whitespace, is_alnum, lower, eq_lit,
};
use crate::text::{skip_ws_spec, skip_ws_chars, lemma_skip_ws_spec, copy_range, trim, trim_chars};
use crate::scan::{
    match_scan, find_matching_spec, find_matching, lemma_find_matching, comma_scan,
    find_top_level_comma, alpha_end, alpha_end_at, lemma_alpha_end,
};

verus! {

// ---------------------------------------------------------------------------
// Escapes
// ---------------------------------------------------------------------------

/// Whether a scan that starts at `a` and steps over the character after each
/// backslash looks at position `p`.
pub open spec fn vis(s: Seq<char>, a: int, p: int) -> bool
    decreases p - a,
{
    if p < a {
        false
    } else if p == a {
        true
    } else {
        !(vis(s, a, p - 1) && 0 <= p - 1 < s.len() && s[p - 1] == '\\')
    }
}

/// `s` does not end in a backslash that escapes nothing.
pub open spec fn esc_ok(s: Seq<char>) -> bool {
    vis(s, 0, s.len() as int)
}

proof fn lemma_vis_subrange(s: Seq<char>, a: int, b: int, p: int)
    requires
        0 <= a <= b <= s.len(),
        0 <= p <= b - a,
    ensures
        vis(s.subrange(a, b), 0, p) == vis(s, a, a + p),
    decreases p,
{
    if p > 0 {
        lemma_vis_subrange(s, a, b, p - 1);
    }
}

proof fn lemma_vis_shift(s: Seq<char>, k: int, p: int)
    requires
        0 <= k <= p,
        vis(s, 0, k),
    ensures
        vis(s, k, p) == vis(s, 0, p),
    decreases p - k,
{
    if p > k {
        lemma_vis_shift(s, k, p - 1);
    }
}

proof fn lemma_match_scan_vis(s: Seq<char>, a: int, i: int, depth: int, open: char, close: char)
    requires
        a <= i,
        vis(s, a, i),
    ensures
        match_scan(s, i, depth, open, close) matches Some(c) ==> vis(s, a, c),
    decreases s.len() + 1 - i,
{
    if 0 <= i < s.len() {
        if s[i] == '\\' {
            assert(!vis(s, a, i + 1));
            assert(vis(s, a, i + 2));
            lemma_match_scan_vis(s, a, i + 2, depth, open, close);
        } else if s[i] == open {
            lemma_match_scan_vis(s, a, i + 1, depth + 1, open, close);
        } else if s[i] == close {
            if depth - 1 != 0 {
                lemma_match_scan_vis(s, a, i + 1, depth - 1, open, close);
            }
        } else {
            lemma_match_scan_vis(s, a, i + 1, depth, open, close);
        }
    }
}

proof fn lemma_comma_scan_vis(s: Seq<char>, i: int, depth: int, quote: bool)
    requires
        0 <= i,
        vis(s, 0, i),
    ensures
        comma_scan(s, i, depth, quote) matches Some(c) ==> vis(s, 0, c),
    decreases s.len() + 1 - i,
{
    if 0 <= i < s.len() {
        if s[i] == '\\' {
            assert(!vis(s, 0, i + 1));
            assert(vis(s, 0, i + 2));
            lemma_comma_scan_vis(s, i + 2, depth, quote);
        } else if s[i] == '"' && depth == 0 {
            lemma_comma_scan_vis(s, i + 1, depth, !quote);
        } else if s[i] == '{' && !quote {
            lemma_comma_scan_vis(s, i + 1, depth + 1, quote);
        } else if s[i] == '}' && !quote {
            lemma_comma_scan_vis(s, i + 1, depth - 1, quote);
        } else if s[i] == ',' && depth == 0 && !quote {
        } else {
            lemma_comma_scan_vis(s, i + 1, depth, quote);
        }
    }
}

// ---------------------------------------------------------------------------
// Fields
// ---------------------------------------------------------------------------

/// One `name = value` pair of an entry body; names are lower case.
pub struct Field {
    pub name: Vec<char>,
    pub value: Vec<char>,
}

impl View for Field {
    type V = (Seq<char>, Seq<char>);

    open spec fn view(&self) -> (Seq<char>, Seq<char>) {
        (self.name@, self.value@)
    }
}

/// The views of a list of fields.
pub open spec fn fields_view(v: Seq<Field>) -> Seq<(Seq<char>, Seq<char>)> {
    v.map_values(|f: Field| f@)
}

/// The first position at or after `i` that is neither ASCII whitespace nor a comma.
pub open spec fn skip_sep(s: Seq<char>, i: int) -> int
    decreases s.len() - i,
{
    if 0 <= i < s.len() && (is_ascii_ws(s[i]) || s[i] == ',') {
        skip_sep(s, i + 1)
    } else {
        i
    }
}

/// The first position at or after `i` that is not ASCII whitespace.
pub open spec fn skip_ascii_ws(s: Seq<char>, i: int) -> int
    decreases s.len() - i,
{
    if 0 <= i < s.len() && is_ascii_ws(s[i]) {
        skip_ascii_ws(s, i + 1)
    } else {
        i
    }
}

/// A character of a field name.
pub open spec fn is_name_char(c: char) -> bool {
    is_ascii_alnum(c) || c == '_' || c == '-'
}

/// The first position at or after `i` that does not hold a name character.
pub open spec fn name_end(s: Seq<char>, i: int) -> int
    decreases s.len() - i,
{
    if 0 <= i < s.len() && is_name_char(s[i]) {
        name_end(s, i + 1)
    } else {
        i
    }
}

/// Where a field value that starts at `i` ends: at a comma outside braces and
/// quotes, or at the end.
pub open spec fn value_scan(s: Seq<char>, i: int, depth: int, quote: bool) -> int
    decreases s.len() + 1 - i,
{
    if i < 0 || i >= s.len() {
        i
    } else if s[i] == '\\' {
        value_scan(s, i + 2, depth, quote)
    } else if s[i] == '"' && depth == 0 {
        value_scan(s, i + 1, depth, !quote)
    } else if s[i] == '{' && !quote {
        value_scan(s, i + 1, depth + 1, quote)
    } else if s[i] == '}' && !quote {
        value_scan(s, i + 1, depth - 1, quote)
    } else if s[i] == ',' && depth == 0 && !quote {
        i
    } else {
        value_scan(s, i + 1, depth, quote)
    }
}

/// The fields of an entry body from position `i` on, in order of appearance.
pub open spec fn fields_scan(s: Seq<char>, i: int) -> Seq<(Seq<char>, Seq<char>)>
    decreases s.len() + 1 - i,
{
    if i < 0 || i >= s.len() {
        seq![]
    } else {
        let a = skip_sep(s, i);
        let b = name_end(s, a);
        proof {
            lemma_skip_sep(s, i);
            lemma_name_end(s, a);
        }
        if b == a {
            fields_scan(s, a + 1)
        } else {
            let name = ascii_lower_seq(s.subrange(a, b));
            let c = skip_ascii_ws(s, b);
            proof {
                lemma_skip_ascii_ws(s, b);
            }
            if c >= s.len() || s[c] != '=' {
                fields_scan(s, c)
            } else {
                let v0 = skip_ascii_ws(s, c + 1);
                let v1 = value_scan(s, v0, 0, false);
                proof {
                    lemma_skip_ascii_ws(s, c + 1);
                    lemma_value_scan_ge(s, v0, 0, false);
                }
                let next = if v1 < s.len() && s[v1] == ',' {
                    v1 + 1
                } else {
                    v1
                };
                seq![(name, trim(s.subrange(v0, v1)))] + fields_scan(s, next)
            }
        }
    }
}

/// The fields of an entry body: each `name = value`, names in lower case,
/// values trimmed, in order of appearance.
pub open spec fn fields_of(body: Seq<char>) -> Seq<(Seq<char>, Seq<char>)> {
    fields_scan(body, 0)
}

/// Whether scanning the fields from position `i` on reads no value past the
/// end of the text (a value that ends in a lone backslash does).
pub open spec fn fields_scan_ok(s: Seq<char>, i: int) -> bool
    decreases s.len() + 1 - i,
{
    if i < 0 || i >= s.len() {
        true
    } else {
        let a = skip_sep(s, i);
        let b = name_end(s, a);
        proof {
            lemma_skip_sep(s, i);
            lemma_name_end(s, a);
        }
        if b == a {
            fields_scan_ok(s, a + 1)
        } else {
            let c = skip_ascii_ws(s, b);
            proof {
                lemma_skip_ascii_ws(s, b);
            }
            if c >= s.len() || s[c] != '=' {
                fields_scan_ok(s, c)
            } else {
                let v0 = skip_ascii_ws(s, c + 1);
                let v1 = value_scan(s, v0, 0, false);
                proof {
                    lemma_skip_ascii_ws(s, c + 1);
                    lemma_value_scan_ge(s, v0, 0, false);
                }
                if v1 > s.len() {
                    false
                } else if v1 < s.len() && s[v1] == ',' {
                    fields_scan_ok(s, v1 + 1)
                } else {
                    fields_scan_ok(s, v1)
                }
            }
        }
    }
}

/// In a text whose escapes are closed, no field value runs past the end.
pub proof fn lemma_fields_scan_ok(s: Seq<char>, i: int)
    requires
        0 <= i,
        esc_ok(s),
    ensures
        fields_scan_ok(s, i),
    decreases s.len() + 1 - i,
{
    if i < s.len() {
        let a = skip_sep(s, i);
        let b = name_end(s, a);
        lemma_skip_sep(s, i);
        lemma_name_end(s, a);
        if b == a {
            lemma_fields_scan_ok(s, a + 1);
        } else {
            let c = skip_ascii_ws(s, b);
            lemma_skip_ascii_ws(s, b);
            if c >= s.len() || s[c] != '=' {
                lemma_fields_scan_ok(s, c);
            } else {
                let v0 = skip_ascii_ws(s, c + 1);
                lemma_skip_ascii_ws(s, c + 1);
                if v0 > c + 1 {
                    assert(is_ascii_ws(s[v0 - 1]));
                }
                lemma_vis_after_plain(s, v0);
                lemma_value_scan_le(s, v0, 0, false);
                lemma_value_scan_ge(s, v0, 0, false);
                let v1 = value_scan(s, v0, 0, false);
                if v1 < s.len() && s[v1] == ',' {
                    lemma_fields_scan_ok(s, v1 + 1);
                } else {
                    lemma_fields_scan_ok(s, v1);
                }
            }
        }
    }
}

/// The value paired with the last occurrence of `name` in a list of pairs:
/// what a map built by inserting the pairs in order holds for `name`.
pub open spec fn assoc_get(fields: Seq<(Seq<char>, Seq<char>)>, name: Seq<char>) -> Option<
    Seq<char>,
>
    decreases fields.len(),
{
    if fields.len() == 0 {
        None
    } else if fields.last().0 == name {
        Some(fields.last().1)
    } else {
        assoc_get(fields.drop_last(), name)
    }
}

pub proof fn lemma_skip_sep(s: Seq<char>, i: int)
    requires
        0 <= i,
    ensures
        i <= skip_sep(s, i),
        i <= s.len() ==> skip_sep(s, i) <= s.len(),
        skip_sep(s, i) > s.len() ==> skip_sep(s, i) == i,
        forall|k: int| i <= k < skip_sep(s, i) ==> (is_ascii_ws(#[trigger] s[k]) || s[k] == ','),
    decreases s.len() - i,
{
    if 0 <= i < s.len() && (is_ascii_ws(s[i]) || s[i] == ',') {
        lemma_skip_sep(s, i + 1);
    }
}

pub proof fn lemma_skip_ascii_ws(s: Seq<char>, i: int)
    requires
        0 <= i,
    ensures
        i <= skip_ascii_ws(s, i),
        i <= s.len() ==> skip_ascii_ws(s, i) <= s.len(),
        skip_ascii_ws(s, i) > s.len() ==> skip_ascii_ws(s, i) == i,
        forall|k: int| i <= k < skip_ascii_ws(s, i) ==> is_ascii_ws(#[trigger] s[k]),
    decreases s.len() - i,
{
    if 0 <= i < s.len() && is_ascii_ws(s[i]) {
        lemma_skip_ascii_ws(s, i + 1);
    }
}

pub proof fn lemma_name_end(s: Seq<char>, i: int)
    requires
        0 <= i,
    ensures
        i <= name_end(s, i),
        i <= s.len() ==> name_end(s, i) <= s.len(),
        name_end(s, i) > s.len() ==> name_end(s, i) == i,
    decreases s.len() - i,
{
    if 0 <= i < s.len() && is_name_char(s[i]) {
        lemma_name_end(s, i + 1);
    }
}

pub proof fn lemma_value_scan_ge(s: Seq<char>, i: int, depth: int, quote: bool)
    requires
        0 <= i,
    ensures
        i <= value_scan(s, i, depth, quote),
        i <= s.len() + 1 ==> value_scan(s, i, depth, quote) <= s.len() + 1,
        value_scan(s, i, depth, quote) < s.len() ==> s[value_scan(s, i, depth, quote)] == ',',
    decreases s.len() + 1 - i,
{
    if 0 <= i < s.len() {
        if s[i] == '\\' {
            lemma_value_scan_ge(s, i + 2, depth, quote);
        } else if s[i] == '"' && depth == 0 {
            lemma_value_scan_ge(s, i + 1, depth, !quote);
        } else if s[i] == '{' && !quote {
            lemma_value_scan_ge(s, i + 1, depth + 1, quote);
        } else if s[i] == '}' && !quote {
            lemma_value_scan_ge(s, i + 1, depth - 1, quote);
        } else if s[i] == ',' && depth == 0 && !quote {
        } else {
            lemma_value_scan_ge(s, i + 1, depth, quote);
        }
    }
}

/// A value scan that starts at a looked-at position never runs past the end
/// of a text whose escapes are closed.
proof fn lemma_value_scan_le(s: Seq<char>, i: int, depth: int, quote: bool)
    requires
        0 <= i <= s.len(),
        vis(s, 0, i),
        esc_ok(s),
    ensures
        value_scan(s, i, depth, quote) <= s.len(),
    decreases s.len() + 1 - i,
{
    if i < s.len() {
        if s[i] == '\\' {
            assert(!vis(s, 0, i + 1));
            if i + 1 == s.len() {
                assert(false);
            }
            assert(vis(s, 0, i + 2));
            lemma_value_scan_le(s, i + 2, depth, quote);
        } else if s[i] == '"' && depth == 0 {
            lemma_value_scan_le(s, i + 1, depth, !quote);
        } else if s[i] == '{' && !quote {
            lemma_value_scan_le(s, i + 1, depth + 1, quote);
        } else if s[i] == '}' && !quote {
            lemma_value_scan_le(s, i + 1, depth - 1, quote);
        } else if s[i] == ',' && depth == 0 && !quote {
        } else {
            lemma_value_scan_le(s, i + 1, depth, quote);
        }
    }
}

/// A position whose previous character is not a backslash is looked at.
proof fn lemma_vis_after_plain(s: Seq<char>, p: int)
    requires
        0 < p <= s.len(),
        s[p - 1] != '\\',
    ensures
        vis(s, 0, p),
{
}

/// Finds where the value that starts at `i` ends.
fn value_end(s: &[char], i0: usize) -> (r: usize)
    requires
        i0 <= s@.len(),
        value_scan(s@, i0 as int, 0, false) <= s@.len(),
    ensures
        r == value_scan(s@, i0 as int, 0, false),
        i0 <= r <= s@.len(),
{
    proof {
        lemma_value_scan_ge(s@, i0 as int, 0, false);
    }
    let n = s.len();
    let mut opened: usize = 0;
    let mut closed: usize = 0;
    let mut quote = false;
    let mut i = i0;
    while i < n
        invariant
            n == s@.len(),
            i0 <= i <= n,
            opened <= i,
            closed <= i,
            value_scan(s@, i as int, opened - closed, quote) == value_scan(s@, i0 as int, 0, false),
            value_scan(s@, i0 as int, 0, false) <= n,
        decreases n - i,
    {
        let c = s[i];
        if c == '\\' {
            if i + 1 == n {
                proof {
                    lemma_value_scan_ge(s@, i + 2, opened - closed, quote);
                }
                assert(false);
            }
            i += 2;
            continue;
        }
        if c == '"' && opened == closed {
            quote = !quote;
        } else if c == '{' && !quote {
            opened += 1;
        } else if c == '}' && !quote {
            closed += 1;
        } else if c == ',' && opened == closed && !quote {
            return i;
        }
        i += 1;
    }
    i
}

fn skip_sep_at(s: &[char], i0: usize) -> (r: usize)
    requires
        i0 <= s@.len(),
    ensures
        r == skip_sep(s@, i0 as int),
        i0 <= r <= s@.len(),
{
    proof {
        lemma_skip_sep(s@, i0 as int);
    }
    let mut i = i0;
    while i < s.len() && (is_ascii_whitespace(s[i]) || s[i] == ',')
        invariant
            i0 <= i <= s@.len(),
            skip_sep(s@, i as int) == skip_sep(s@, i0 as int),
        decreases s@.len() - i,
    {
        i += 1;
    }
    i
}

fn skip_ascii_ws_at(s: &[char], i0: usize) -> (r: usize)
    requires
        i0 <= s@.len(),
    ensures
        r == skip_ascii_ws(s@, i0 as int),
        i0 <= r <= s@.len(),
{
    proof {
        lemma_skip_ascii_ws(s@, i0 as int);
    }
    let mut i = i0;
    while i < s.len() && is_ascii_whitespace(s[i])
        invariant
            i0 <= i <= s@.len(),
            skip_ascii_ws(s@, i as int) == skip_ascii_ws(s@, i0 as int),
        decreases s@.len() - i,
    {
        i += 1;
    }
    i
}

fn name_end_at(s: &[char], i0: usize) -> (r: usize)
    requires
        i0 <= s@.len(),
    ensures
        r == name_end(s@, i0 as int),
        i0 <= r <= s@.len(),
{
    proof {
        lemma_name_end(s@, i0 as int);
    }
    let mut i = i0;
    while i < s.len() && (is_alnum(s[i]) || s[i] == '_' || s[i] == '-')
        invariant
            i0 <= i <= s@.len(),
            name_end(s@, i as int) == name_end(s@, i0 as int),
        decreases s@.len() - i,
    {
        i += 1;
    }
    i
}

/// The characters of `s` with ASCII letters in lower case.
pub fn lower_chars(s: &[char]) -> (r: Vec<char>)
    ensures
        r@ == ascii_lower_seq(s@),
{
    let mut r: Vec<char> = Vec::new();
    let mut i: usize = 0;
    while i < s.len()
        invariant
            i <= s@.len(),
            r@ == ascii_lower_seq(s@.take(i as int)),
        decreases s@.len() - i,
    {
        r.push(lower(s[i]));
        i += 1;
        assert(r@ =~= ascii_lower_seq(s@.take(i as int)));
    }
    assert(s@.take(s@.len() as int) =~= s@);
    r
}

/// Parses the `name = value` fields of an entry body.
pub fn parse_fields(body: &[char]) -> (r: Vec<Field>)
    requires
        fields_scan_ok(body@, 0),
    ensures
        fields_view(r@) == fields_of(body@),
{
    let mut out: Vec<Field> = Vec::new();
    let n = body.len();
    let mut i: usize = 0;
    let ghost mut done: Seq<(Seq<char>, Seq<char>)> = seq![];
    while i < n
        invariant
            n == body@.len(),
            fields_scan_ok(body@, i as int),
            fields_view(out@) == done,
            done + fields_scan(body@, i as int) == fields_of(body@),
        decreases n + 1 - i,
    {
        let a = skip_sep_at(body, i);
        let b = name_end_at(body, a);
        if b == a {
            assert(fields_scan(body@, i as int) == fields_scan(body@, a + 1));
            if a < n {
                i = a + 1;
            } else {
                assert(fields_scan(body@, a + 1) == Seq::<(Seq<char>, Seq<char>)>::empty());
                i = n;
            }
            continue;
        }
        let raw_name = copy_range(body, a, b);
        let name = lower_chars(raw_name.as_slice());
        let c = skip_ascii_ws_at(body, b);
        if c >= n || body[c] != '=' {
            assert(fields_scan(body@, i as int) == fields_scan(body@, c as int));
            i = c;
            continue;
        }
        let v0 = skip_ascii_ws_at(body, c + 1);
        let v1 = value_end(body, v0);
        let raw_value = copy_range(body, v0, v1);
        let value = trim_chars(raw_value.as_slice());
        let next = if v1 < n && body[v1] == ',' {
            v1 + 1
        } else {
            v1
        };
        let ghost here = fields_scan(body@, i as int);
        assert(here == seq![(name@, value@)] + fields_scan(body@, next as int));
        let f = Field { name, value };
        proof {
            assert(done.push(f@) + fields_scan(body@, next as int) =~= done + here);
            done = done.push(f@);
        }
        out.push(f);
        assert(fields_view(out@) =~= done);
        i = next;
    }
    assert(done + fields_scan(body@, i as int) =~= done);
    out
}

/// Looks up the value of the field `name` (the last one of that name).
pub fn get_field(fields: &Vec<Field>, name: &[char]) -> (r: Option<Vec<char>>)
    ensures
        r matches Some(v) ==> assoc_get(fields_view(fields@), name@) == Some(v@),
        r is None <==> assoc_get(fields_view(fields@), name@) is None,
{
    let mut k = fields.len();
    assert(fields@.take(k as int) =~= fields@);
    while k > 0
        invariant
            k <= fields@.len(),
            assoc_get(fields_view(fields@), name@) == assoc_get(
                fields_view(fields@.take(k as int)),
                name@,
            ),
        decreases k,
    {
        let ghost fv = fields_view(fields@.take(k as int));
        assert(fv.drop_last() =~= fields_view(fields@.take(k - 1)));
        if crate::chars::chars_eq(fields[k - 1].name.as_slice(), name) {
            let v = copy_range(fields[k - 1].value.as_slice(), 0, fields[k - 1].value.len());
            assert(v@ =~= fields@[k - 1].value@);
            return Some(v);
        }
        k -= 1;
    }
    assert(fields_view(fields@.take(0)) =~= Seq::<(Seq<char>, Seq<char>)>::empty());
    None
}

/// Looks up the field named by a literal.
pub fn get_field_lit(fields: &Vec<Field>, name: &str) -> (r: Option<Vec<char>>)
    ensures
        r matches Some(v) ==> assoc_get(fields_view(fields@), name@) == Some(v@),
        r is None <==> assoc_get(fields_view(fields@), name@) is None,
{
    let n = crate::chars::chars_of(name);
    get_field(fields, n.as_slice())
}

// ---------------------------------------------------------------------------
// Entries
// ---------------------------------------------------------------------------

/// A bibliography entry as it was read from file number `file_idx`.
pub struct BibEntry {
    pub file_idx: usize,
    pub kind: Vec<char>,
    pub old_key: Vec<char>,
    pub body: Vec<char>,
    pub fields: Vec<Field>,
}

/// What an entry holds, as plain sequences.
pub struct EntryView {
    pub file_idx: usize,
    pub kind: Seq<char>,
    pub old_key: Seq<char>,
    pub body: Seq<char>,
    pub fields: Seq<(Seq<char>, Seq<char>)>,
}

impl View for BibEntry {
    type V = EntryView;

    open spec fn view(&self) -> EntryView {
        EntryView {
            file_idx: self.file_idx,
            kind: self.kind@,
            old_key: self.old_key@,
            body: self.body@,
            fields: fields_view(self.fields@),
        }
    }
}

/// The views of a list of entries.
pub open spec fn entries_view(v: Seq<BibEntry>) -> Seq<EntryView> {
    v.map_values(|e: BibEntry| e@)
}

/// The first position at or after `i` that holds `c`.
pub open spec fn find_char_spec(s: Seq<char>, i: int, c: char) -> Option<int>
    decreases s.len() - i,
{
    if i < 0 || i >= s.len() {
        None
    } else if s[i] == c {
        Some(i)
    } else {
        find_char_spec(s, i + 1, c)
    }
}

pub proof fn lemma_find_char(s: Seq<char>, i: int, c: char)
    requires
        0 <= i,
    ensures
        find_char_spec(s, i, c) matches Some(k) ==> i <= k < s.len() && s[k] == c,
    decreases s.len() - i,
{
    if 0 <= i < s.len() && s[i] != c {
        lemma_find_char(s, i + 1, c);
    }
}

/// Finds the first `c` at or after `i`.
pub fn find_char(s: &[char], i0: usize, c: char) -> (r: Option<usize>)
    ensures
        r is None <==> find_char_spec(s@, i0 as int, c) is None,
        r matches Some(k) ==> find_char_spec(s@, i0 as int, c) == Some(k as int),
{
    proof {
        lemma_find_char(s@, i0 as int, c);
    }
    let mut i = i0;
    while i < s.len()
        invariant
            i0 <= i,
            find_char_spec(s@, i as int, c) == find_char_spec(s@, i0 as int, c),
        decreases s@.len() - i,
    {
        if s[i] == c {
            return Some(i);
        }
        i += 1;
    }
    None
}

/// Block kinds that are kept verbatim rather than read as entries.
pub open spec fn is_special_kind(kind_lower: Seq<char>) -> bool {
    kind_lower == "string"@ || kind_lower == "preamble"@ || kind_lower == "comment"@
}

/// The closing delimiter of an entry opened by `open`.
pub open spec fn closer_of(open: char) -> char {
    if open == '{' {
        '}'
    } else {
        ')'
    }
}

/// The special blocks and entries of a BibTeX text from position `i` on.
pub open spec fn bib_scan(s: Seq<char>, i: int, file_idx: usize) -> (Seq<Seq<char>>, Seq<EntryView>)
    decreases s.len() + 1 - i,
{
    if i < 0 || i >= s.len() {
        (seq![], seq![])
    } else {
        match find_char_spec(s, i, '@') {
            None => (seq![], seq![]),
            Some(at) => {
                proof {
                    lemma_find_char(s, i, '@');
                    lemma_skip_ws_spec(s, at + 1);
                }
                let j = skip_ws_spec(s, at + 1);
                let e = alpha_end(s, j);
                proof {
                    lemma_alpha_end(s, j);
                }
                if e == j {
                    bib_scan(s, at + 1, file_idx)
                } else {
                    let kind = s.subrange(j, e);
                    let j2 = skip_ws_spec(s, e);
                    proof {
                        lemma_skip_ws_spec(s, e);
                    }
                    if j2 >= s.len() || !(s[j2] == '{' || s[j2] == '(') {
                        bib_scan(s, j2, file_idx)
                    } else {
                        match find_matching_spec(s, j2, s[j2], closer_of(s[j2])) {
                            None => (seq![], seq![]),
                            Some(close) => {
                                proof {
                                    lemma_find_matching(s, j2, s[j2], closer_of(s[j2]));
                                }
                                let full = s.subrange(at, close + 1);
                                let content = s.subrange(j2 + 1, close);
                                let rest = bib_scan(s, close + 1, file_idx);
                                if is_special_kind(ascii_lower_seq(kind)) {
                                    (seq![full] + rest.0, rest.1)
                                } else {
                                    match comma_scan(content, 0, 0, false) {
                                        None => (seq![full] + rest.0, rest.1),
                                        Some(comma) => {
                                            let key = trim(content.subrange(0, comma));
                                            let body = content.subrange(comma + 1, content.len() as int);
                                            if key.len() == 0 {
                                                (seq![full] + rest.0, rest.1)
                                            } else {
                                                (
                                                    rest.0,
                                                    seq![
                                                        EntryView {
                                                            file_idx,
                                                            kind,
                                                            old_key: key,
                                                            body,
                                                            fields: fields_of(body),
                                                        },
                                                    ] + rest.1,
                                                )
                                            }
                                        },
                                    }
                                }
                            },
                        }
                    }
                }
            },
        }
    }
}

/// The special blocks (`@string`, `@preamble`, `@comment` and blocks that are
/// not well-formed entries) and the entries of a BibTeX text, in order.
pub open spec fn parse_bib_spec(s: Seq<char>, file_idx: usize) -> (Seq<Seq<char>>, Seq<EntryView>) {
    bib_scan(s, 0, file_idx)
}

/// The body after the key of a bracketed entry has closed escapes.
proof fn lemma_body_esc_ok(s: Seq<char>, j2: int, close: int, comma: int)
    requires
        0 <= j2 < s.len(),
        match_scan(s, j2 + 1, 1, s[j2], closer_of(s[j2])) == Some(close),
        j2 < close < s.len(),
        comma_scan(s.subrange(j2 + 1, close), 0, 0, false) == Some(comma),
    ensures
        esc_ok(
            s.subrange(j2 + 1, close).subrange(comma + 1, s.subrange(j2 + 1, close).len() as int),
        ),
{
    let content = s.subrange(j2 + 1, close);
    lemma_match_scan_vis(s, j2 + 1, j2 + 1, 1, s[j2], closer_of(s[j2]));
    lemma_vis_subrange(s, j2 + 1, close, close - (j2 + 1));
    crate::scan::lemma_comma_scan(content, 0, 0, false);
    lemma_comma_scan_vis(content, 0, 0, false);
    assert(vis(content, 0, comma + 1));
    let body = content.subrange(comma + 1, content.len() as int);
    lemma_vis_subrange(content, comma + 1, content.len() as int, body.len() as int);
    lemma_vis_shift(content, comma + 1, content.len() as int);
}

/// Splits a BibTeX text into special blocks and entries; each entry records
/// `file_idx`, its kind, key, body and fields.
pub fn parse_bib(raw: &[char], file_idx: usize) -> (r: (Vec<Vec<char>>, Vec<BibEntry>))
    ensures
        r.0@.len() == parse_bib_spec(raw@, file_idx).0.len(),
        forall|k: int| 0 <= k < r.0@.len() ==> (#[trigger] r.0@[k])@ == parse_bib_spec(raw@, file_idx).0[k],
        entries_view(r.1@) == parse_bib_spec(raw@, file_idx).1,
{
    let mut specials: Vec<Vec<char>> = Vec::new();
    let mut entries: Vec<BibEntry> = Vec::new();
    let ghost mut done_s: Seq<Seq<char>> = seq![];
    let ghost mut done_e: Seq<EntryView> = seq![];
    let n = raw.len();
    let mut i: usize = 0;
    while i < n
        invariant
            n == raw@.len(),
            specials@.len() == done_s.len(),
            forall|k: int| 0 <= k < specials@.len() ==> (#[trigger] specials@[k])@ == done_s[k],
            entries_view(entries@) == done_e,
            done_s + bib_scan(raw@, i as int, file_idx).0 == parse_bib_spec(raw@, file_idx).0,
            done_e + bib_scan(raw@, i as int, file_idx).1 == parse_bib_spec(raw@, file_idx).1,
        decreases n + 1 - i,
    {
        let ghost here = bib_scan(raw@, i as int, file_idx);
        let at = match find_char(raw, i, '@') {
            Some(at) => at,
            None => {
                assert(here == (Seq::<Seq<char>>::empty(), Seq::<EntryView>::empty()));
                i = n;
                continue;
            },
        };
        proof {
            lemma_find_char(raw@, i as int, '@');
            lemma_skip_ws_spec(raw@, at + 1);
        }
        let j = skip_ws_chars(raw, at + 1);
        let e = alpha_end_at(raw, j);
        if e == j {
            assert(here == bib_scan(raw@, at + 1, file_idx));
            i = at + 1;
            continue;
        }
        let kind = copy_range(raw, j, e);
        let kind_l = lower_chars(kind.as_slice());
        proof {
            lemma_skip_ws_spec(raw@, e as int);
        }
        let j2 = skip_ws_chars(raw, e);
        if j2 >= n || !(raw[j2] == '{' || raw[j2] == '(') {
            assert(here == bib_scan(raw@, j2 as int, file_idx));
            i = j2;
            continue;
        }
        let open = raw[j2];
        let close_ch = if open == '{' {
            '}'
        } else {
            ')'
        };
        let close = match find_matching(raw, j2, open, close_ch) {
            Some(c) => c,
            None => {
                assert(here == (Seq::<Seq<char>>::empty(), Seq::<EntryView>::empty()));
                i = n;
                continue;
            },
        };
        let full = copy_range(raw, at, close + 1);
        let content = copy_range(raw, j2 + 1, close);
        let ghost rest = bib_scan(raw@, close + 1, file_idx);
        let special = eq_lit(kind_l.as_slice(), "string") || eq_lit(kind_l.as_slice(), "preamble")
            || eq_lit(kind_l.as_slice(), "comment");
        let mut is_entry = false;
        if !special {
            match find_top_level_comma(content.as_slice()) {
                None => {},
                Some(comma) => {
                    let raw_key = copy_range(content.as_slice(), 0, comma);
                    let key = trim_chars(raw_key.as_slice());
                    if key.len() > 0 {
                        let body = copy_range(content.as_slice(), comma + 1, content.len());
                        proof {
                            lemma_body_esc_ok(raw@, j2 as int, close as int, comma as int);
                            lemma_fields_scan_ok(body@, 0);
                        }
                        let fields = parse_fields(body.as_slice());
                        let entry = BibEntry { file_idx, kind, old_key: key, body, fields };
                        assert(here == (rest.0, seq![entry@] + rest.1));
                        proof {
                            assert(done_e.push(entry@) + rest.1 =~= done_e + (seq![entry@] + rest.1));
                            done_e = done_e.push(entry@);
                        }
                        entries.push(entry);
                        assert(entries_view(entries@) =~= done_e);
                        is_entry = true;
                    }
                },
            }
        }
        if !is_entry {
            assert(here == (seq![full@] + rest.0, rest.1));
            proof {
                assert(done_s.push(full@) + rest.0 =~= done_s + (seq![full@] + rest.0));
                done_s = done_s.push(full@);
            }
            specials.push(full);
        }
        i = close + 1;
    }
    proof {
        if i >= n {
            assert(bib_scan(raw@, i as int, file_idx) == (
                Seq::<Seq<char>>::empty(),
                Seq::<EntryView>::empty(),
            ));
        }
    }
    assert(done_s + Seq::<Seq<char>>::empty() =~= done_s);
    assert(done_e + Seq::<EntryView>::empty() =~= done_e);
    (specials, entries)
}

} // verus!
