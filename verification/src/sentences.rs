//! Splitting a paragraph into sentences: decimal points, abbreviations and
//! initials do not end a sentence.
use vstd::prelude::*;
use crate::chars::{
    is_ws, is_whitespace, is_ascii_digit, is_digit, is_ascii_punct, is_punct, unicode_alphabetic,
    unicode_uppercase, unicode_lowercase, text_lowercase, is_alphabetic, is_uppercase,
    is_lowercase, to_lowercase_text, eq_lit,
};
use crate::text::{
    trim, trim_chars, trim_end, trim_end_chars, words, split_words, has_suffix, ends_with_lit,
    copy_range,
};

verus! {

/// A character that may close a sentence after its final mark.
pub open spec fn is_closer(c: char) -> bool {
    c == ')' || c == ']' || c == '}' || c == '"' || c == '\'' || c == '\u{2019}' || c == '\u{201d}'
        || c == '\u{bb}'
}

pub fn is_sentence_closer(c: char) -> (r: bool)
    ensures
        r == is_closer(c),
{
    c == ')' || c == ']' || c == '}' || c == '"' || c == '\'' || c == '\u{2019}' || c == '\u{201d}'
        || c == '\u{bb}'
}

/// The `.` at `i` stands between two digits.
pub open spec fn is_decimal_point_spec(s: Seq<char>, i: int) -> bool {
    0 < i && i + 1 < s.len() && is_ascii_digit(s[i - 1]) && is_ascii_digit(s[i + 1])
}

pub fn is_decimal_point(s: &[char], i: usize) -> (r: bool)
    ensures
        r == is_decimal_point_spec(s@, i as int),
{
    if i == 0 || i >= s.len() || s.len() - i <= 1 {
        return false;
    }
    is_digit(s[i - 1]) && is_digit(s[i + 1])
}

// ---------------------------------------------------------------------------
// Abbreviations
// ---------------------------------------------------------------------------

/// A quote or bracket that may follow an abbreviation.
pub open spec fn is_abbrev_trailer(c: char) -> bool {
    c == ')' || c == ']' || c == '}' || c == '"' || c == '\'' || c == '\u{2019}' || c == '\u{201d}'
}

/// `s` without its trailing characters that satisfy `p`.
pub open spec fn trim_end_by(s: Seq<char>, p: spec_fn(char) -> bool) -> Seq<char>
    decreases s.len(),
{
    if s.len() > 0 && p(s.last()) {
        trim_end_by(s.drop_last(), p)
    } else {
        s
    }
}

/// `s` without its leading characters that satisfy `p`.
pub open spec fn trim_start_by(s: Seq<char>, p: spec_fn(char) -> bool) -> Seq<char>
    decreases s.len(),
{
    if s.len() > 0 && p(s[0]) {
        trim_start_by(s.drop_first(), p)
    } else {
        s
    }
}

/// ASCII punctuation other than `.`.
pub open spec fn is_token_punct(c: char) -> bool {
    is_ascii_punct(c) && c != '.'
}

/// Known abbreviations, in lower case and without their final `.`.
pub open spec fn is_known_abbrev(t: Seq<char>) -> bool {
    ||| t == "e.g"@
    ||| t == "i.e"@
    ||| t == "cf"@
    ||| t == "vs"@
    ||| t == "etc"@
    ||| t == "fig"@
    ||| t == "figs"@
    ||| t == "eq"@
    ||| t == "eqs"@
    ||| t == "sec"@
    ||| t == "secs"@
    ||| t == "ch"@
    ||| t == "chap"@
    ||| t == "app"@
    ||| t == "ref"@
    ||| t == "refs"@
    ||| t == "no"@
    ||| t == "nos"@
    ||| t == "dr"@
    ||| t == "mr"@
    ||| t == "mrs"@
    ||| t == "ms"@
    ||| t == "prof"@
    ||| t == "inc"@
    ||| t == "ltd"@
    ||| t == "jr"@
    ||| t == "sr"@
}

fn known_abbrev(t: &[char]) -> (r: bool)
    ensures
        r == is_known_abbrev(t@),
{
    eq_lit(t, "e.g") || eq_lit(t, "i.e") || eq_lit(t, "cf") || eq_lit(t, "vs") || eq_lit(t, "etc")
        || eq_lit(t, "fig") || eq_lit(t, "figs") || eq_lit(t, "eq") || eq_lit(t, "eqs") || eq_lit(
        t,
        "sec",
    ) || eq_lit(t, "secs") || eq_lit(t, "ch") || eq_lit(t, "chap") || eq_lit(t, "app") || eq_lit(
        t,
        "ref",
    ) || eq_lit(t, "refs") || eq_lit(t, "no") || eq_lit(t, "nos") || eq_lit(t, "dr") || eq_lit(
        t,
        "mr",
    ) || eq_lit(t, "mrs") || eq_lit(t, "ms") || eq_lit(t, "prof") || eq_lit(t, "inc") || eq_lit(
        t,
        "ltd",
    ) || eq_lit(t, "jr") || eq_lit(t, "sr")
}

/// The alphabetic characters of `s`.
pub open spec fn letters_of(s: Seq<char>) -> Seq<char>
    decreases s.len(),
{
    if s.len() == 0 {
        seq![]
    } else if unicode_alphabetic(s.last()) {
        letters_of(s.drop_last()).push(s.last())
    } else {
        letters_of(s.drop_last())
    }
}

/// The last word before position `dot` (without surrounding punctuation
/// other than dots), after trailing quotes and brackets are dropped.
pub open spec fn abbrev_prefix(s: Seq<char>, dot: int) -> Seq<char> {
    trim_end_by(trim_end(s.take(dot)), |c: char| is_abbrev_trailer(c))
}

/// The token before the `.` at `dot`.
pub open spec fn abbrev_token(s: Seq<char>, dot: int) -> Seq<char> {
    let ws = words(abbrev_prefix(s, dot));
    let last = if ws.len() == 0 {
        seq![]
    } else {
        ws.last()
    };
    trim_end_by(trim_start_by(last, |c: char| is_token_punct(c)), |c: char| is_token_punct(c))
}

/// The `.` at `dot` ends an abbreviation rather than a sentence: it follows
/// `et al`, a known abbreviation, a token with a dot inside (`U.S.`), or a
/// single capital letter (an initial).
pub open spec fn is_abbreviation_spec(s: Seq<char>, dot: int) -> bool {
    let prefix = abbrev_prefix(s, dot);
    let token = abbrev_token(s, dot);
    let token_lower = text_lowercase(trim_end_by(token, |c: char| c == '.'));
    let letters = letters_of(token);
    ||| has_suffix(text_lowercase(prefix), "et al"@)
    ||| is_known_abbrev(token_lower)
    ||| token.contains('.')
    ||| (letters.len() == 1 && unicode_uppercase(letters[0]))
}

proof fn lemma_trim_end_by_step(s: Seq<char>, p: spec_fn(char) -> bool, k: int)
    requires
        0 <= k <= s.len(),
        forall|j: int| k <= j < s.len() ==> p(#[trigger] s[j]),
    ensures
        trim_end_by(s, p) == trim_end_by(s.take(k), p),
    decreases s.len() - k,
{
    if k < s.len() {
        assert(s.drop_last().take(k) =~= s.take(k));
        lemma_trim_end_by_step(s.drop_last(), p, k);
    } else {
        assert(s.take(k) =~= s);
    }
}

proof fn lemma_trim_start_by_step(s: Seq<char>, p: spec_fn(char) -> bool, k: int)
    requires
        0 <= k <= s.len(),
        forall|j: int| 0 <= j < k ==> p(#[trigger] s[j]),
    ensures
        trim_start_by(s, p) == trim_start_by(s.skip(k), p),
    decreases k,
{
    if k > 0 {
        assert(s.drop_first().skip(k - 1) =~= s.skip(k));
        lemma_trim_start_by_step(s.drop_first(), p, k - 1);
    } else {
        assert(s.skip(0) =~= s);
    }
}

fn trim_end_trailers(s: &[char]) -> (r: Vec<char>)
    ensures
        r@ == trim_end_by(s@, |c: char| is_abbrev_trailer(c)),
{
    let ghost p = |c: char| is_abbrev_trailer(c);
    let mut k = s.len();
    while k > 0 && (s[k - 1] == ')' || s[k - 1] == ']' || s[k - 1] == '}' || s[k - 1] == '"'
        || s[k - 1] == '\'' || s[k - 1] == '\u{2019}' || s[k - 1] == '\u{201d}')
        invariant
            k <= s@.len(),
            p == (|c: char| is_abbrev_trailer(c)),
            forall|j: int| k <= j < s@.len() ==> p(#[trigger] s@[j]),
        decreases k,
    {
        k -= 1;
    }
    proof {
        lemma_trim_end_by_step(s@, p, k as int);
    }
    copy_range(s, 0, k)
}

fn trim_end_dots(s: &[char]) -> (r: Vec<char>)
    ensures
        r@ == trim_end_by(s@, |c: char| c == '.'),
{
    let ghost p = |c: char| c == '.';
    let mut k = s.len();
    while k > 0 && s[k - 1] == '.'
        invariant
            k <= s@.len(),
            p == (|c: char| c == '.'),
            forall|j: int| k <= j < s@.len() ==> p(#[trigger] s@[j]),
        decreases k,
    {
        k -= 1;
    }
    proof {
        lemma_trim_end_by_step(s@, p, k as int);
    }
    copy_range(s, 0, k)
}

fn trim_token_punct(s: &[char]) -> (r: Vec<char>)
    ensures
        r@ == trim_end_by(trim_start_by(s@, |c: char| is_token_punct(c)), |c: char| is_token_punct(c)),
{
    let ghost p = |c: char| is_token_punct(c);
    let mut a: usize = 0;
    while a < s.len() && is_punct(s[a]) && s[a] != '.'
        invariant
            a <= s@.len(),
            p == (|c: char| is_token_punct(c)),
            forall|j: int| 0 <= j < a ==> p(#[trigger] s@[j]),
        decreases s@.len() - a,
    {
        a += 1;
    }
    proof {
        lemma_trim_start_by_step(s@, p, a as int);
    }
    let t = copy_range(s, a, s.len());
    assert(t@ =~= s@.skip(a as int));
    let mut k = t.len();
    while k > 0 && is_punct(t[k - 1]) && t[k - 1] != '.'
        invariant
            k <= t@.len(),
            p == (|c: char| is_token_punct(c)),
            forall|j: int| k <= j < t@.len() ==> p(#[trigger] t@[j]),
        decreases k,
    {
        k -= 1;
    }
    proof {
        lemma_trim_end_by_step(t@, p, k as int);
        if a == s@.len() {
            assert(s@.skip(a as int).len() == 0);
        }
    }
    copy_range(t.as_slice(), 0, k)
}

fn letters(s: &[char]) -> (r: Vec<char>)
    ensures
        r@ == letters_of(s@),
{
    let mut out: Vec<char> = Vec::new();
    let mut i: usize = 0;
    while i < s.len()
        invariant
            i <= s@.len(),
            out@ == letters_of(s@.take(i as int)),
        decreases s@.len() - i,
    {
        assert(s@.take(i + 1).drop_last() =~= s@.take(i as int));
        if is_alphabetic(s[i]) {
            out.push(s[i]);
        }
        i += 1;
    }
    assert(s@.take(s@.len() as int) =~= s@);
    out
}

fn contains_char(s: &[char], c: char) -> (r: bool)
    ensures
        r == s@.contains(c),
{
    let mut i: usize = 0;
    while i < s.len()
        invariant
            i <= s@.len(),
            forall|j: int| 0 <= j < i ==> s@[j] != c,
        decreases s@.len() - i,
    {
        if s[i] == c {
            return true;
        }
        i += 1;
    }
    false
}

/// Whether the `.` at `dot` ends an abbreviation (see `is_abbreviation_spec`).
pub fn is_abbreviation(s: &[char], dot: usize) -> (r: bool)
    requires
        dot <= s@.len(),
    ensures
        r == is_abbreviation_spec(s@, dot as int),
{
    let before = copy_range(s, 0, dot);
    assert(before@ =~= s@.take(dot as int));
    let te = trim_end_chars(before.as_slice());
    let prefix = trim_end_trailers(te.as_slice());
    let lower = to_lowercase_text(prefix.as_slice());
    if ends_with_lit(lower.as_slice(), "et al") {
        return true;
    }
    let ws = split_words(prefix.as_slice());
    let last = if ws.len() == 0 {
        Vec::new()
    } else {
        let k = ws.len() - 1;
        copy_range(ws[k].as_slice(), 0, ws[k].len())
    };
    proof {
        if ws@.len() > 0 {
            assert(ws@[ws@.len() - 1]@.subrange(0, ws@[ws@.len() - 1]@.len() as int) =~= ws@[ws@.len() - 1]@);
        } else {
            assert(last@ =~= Seq::<char>::empty());
        }
    }
    let token = trim_token_punct(last.as_slice());
    let td = trim_end_dots(token.as_slice());
    let token_lower = to_lowercase_text(td.as_slice());
    if known_abbrev(token_lower.as_slice()) {
        return true;
    }
    if contains_char(token.as_slice(), '.') {
        return true;
    }
    let ls = letters(token.as_slice());
    ls.len() == 1 && is_uppercase(ls[0])
}

// ---------------------------------------------------------------------------
// Sentences
// ---------------------------------------------------------------------------

/// A sentence mark.
pub open spec fn is_mark(c: char) -> bool {
    c == '.' || c == '!' || c == '?'
}

/// The first position at or after `j` that does not hold a closer.
pub open spec fn closers_end(s: Seq<char>, j: int) -> int
    decreases s.len() - j,
{
    if 0 <= j < s.len() && is_closer(s[j]) {
        closers_end(s, j + 1)
    } else {
        j
    }
}

/// The first position at or after `j` that does not hold whitespace.
pub open spec fn ws_end(s: Seq<char>, j: int) -> int
    decreases s.len() - j,
{
    if 0 <= j < s.len() && is_ws(s[j]) {
        ws_end(s, j + 1)
    } else {
        j
    }
}

pub proof fn lemma_closers_end(s: Seq<char>, j: int)
    requires
        0 <= j <= s.len(),
    ensures
        j <= closers_end(s, j) <= s.len(),
    decreases s.len() - j,
{
    if j < s.len() && is_closer(s[j]) {
        lemma_closers_end(s, j + 1);
    }
}

pub proof fn lemma_ws_end(s: Seq<char>, j: int)
    requires
        0 <= j <= s.len(),
    ensures
        j <= ws_end(s, j) <= s.len(),
    decreases s.len() - j,
{
    if j < s.len() && is_ws(s[j]) {
        lemma_ws_end(s, j + 1);
    }
}

/// `[t]` when `t` is not empty, else nothing.
pub open spec fn piece(t: Seq<char>) -> Seq<Seq<char>> {
    if t.len() == 0 {
        seq![]
    } else {
        seq![t]
    }
}

/// The sentences of `s` from position `i` on, the current one starting at
/// `start`.
pub open spec fn sent_scan(s: Seq<char>, i: int, start: int) -> Seq<Seq<char>>
    decreases s.len() - i,
{
    if i < 0 || i >= s.len() {
        if 0 <= start < s.len() {
            piece(trim(s.subrange(start, s.len() as int)))
        } else {
            seq![]
        }
    } else {
        let ch = s[i];
        if !is_mark(ch) || (ch == '.' && is_decimal_point_spec(s, i)) || (ch == '.'
            && is_abbreviation_spec(s, i)) {
            sent_scan(s, i + 1, start)
        } else {
            let j = closers_end(s, i + 1);
            proof {
                lemma_closers_end(s, i + 1);
            }
            let end = j;
            if j == s.len() {
                piece(trim(s.subrange(start, end)))
            } else if is_ws(s[j]) {
                let next = ws_end(s, j);
                proof {
                    lemma_ws_end(s, j);
                }
                if next == s.len() {
                    piece(trim(s.subrange(start, end)))
                } else if ch != '.' || !unicode_lowercase(s[next]) {
                    piece(trim(s.subrange(start, end))) + sent_scan(s, next, next)
                } else {
                    sent_scan(s, i + 1, start)
                }
            } else {
                sent_scan(s, i + 1, start)
            }
        }
    }
}

/// The sentences of a paragraph: a `.`, `!` or `?` (with the quotes and
/// brackets after it) ends a sentence at the end of the text, or before
/// whitespace when the next word does not start in lower case after a `.`;
/// decimal points and abbreviations do not end sentences. Sentences are
/// trimmed; empty ones are left out.
pub open spec fn split_sentences_spec(s: Seq<char>) -> Seq<Seq<char>> {
    sent_scan(s, 0, 0)
}

fn push_piece(result: &mut Vec<Vec<char>>, s: &[char], start: usize, end: usize)
    requires
        start <= end <= s@.len(),
    ensures
        final(result)@.len() == old(result)@.len() + piece(trim(s@.subrange(start as int, end as int))).len(),
        forall|k: int| 0 <= k < old(result)@.len() ==> #[trigger] final(result)@[k] == old(result)@[k],
        forall|k: int|
            old(result)@.len() <= k < final(result)@.len() ==> (#[trigger] final(result)@[k])@ == piece(
                trim(s@.subrange(start as int, end as int)),
            )[k - old(result)@.len()],
{
    let raw = copy_range(s, start, end);
    let t = trim_chars(raw.as_slice());
    if t.len() > 0 {
        result.push(t);
    }
}

/// Splits a paragraph into sentences (see `split_sentences_spec`).
pub fn split_sentences(s: &[char]) -> (r: Vec<Vec<char>>)
    ensures
        r@.len() == split_sentences_spec(s@).len(),
        forall|k: int| 0 <= k < r@.len() ==> (#[trigger] r@[k])@ == split_sentences_spec(s@)[k],
{
    let n = s.len();
    let mut result: Vec<Vec<char>> = Vec::new();
    let mut start: usize = 0;
    let mut i: usize = 0;
    let ghost mut done: Seq<Seq<char>> = seq![];
    while i < n
        invariant
            n == s@.len(),
            start <= i <= n,
            result@.len() == done.len(),
            forall|k: int| 0 <= k < result@.len() ==> (#[trigger] result@[k])@ == done[k],
            done + sent_scan(s@, i as int, start as int) == split_sentences_spec(s@),
        decreases n - i,
    {
        let ch = s[i];
        if ch == '.' || ch == '!' || ch == '?' {
            if ch == '.' && is_decimal_point(s, i) {
                i += 1;
                continue;
            }
            if ch == '.' && is_abbreviation(s, i) {
                i += 1;
                continue;
            }
            let mut j = i + 1;
            proof {
                lemma_closers_end(s@, j as int);
            }
            while j < n && is_sentence_closer(s[j])
                invariant
                    n == s@.len(),
                    i < j <= n,
                    closers_end(s@, j as int) == closers_end(s@, i + 1),
                decreases n - j,
            {
                j += 1;
            }
            let end = j;
            if j == n {
                let ghost old_len = result@.len();
                push_piece(&mut result, s, start, end);
                proof {
                    let p = piece(trim(s@.subrange(start as int, end as int)));
                    assert(sent_scan(s@, i as int, start as int) == p);
                    assert(sent_scan(s@, n as int, n as int) == Seq::<Seq<char>>::empty());
                    assert forall|k: int| 0 <= k < result@.len() implies (#[trigger] result@[k])@ == (done + p)[k] by {
                        if k < old_len {
                        }
                    }
                    done = done + p;
                    assert(done + sent_scan(s@, n as int, n as int) =~= done);
                }
                start = n;
                i = n;
                continue;
            }
            if is_whitespace(s[j]) {
                let mut next = j;
                proof {
                    lemma_ws_end(s@, j as int);
                }
                while next < n && is_whitespace(s[next])
                    invariant
                        n == s@.len(),
                        j <= next <= n,
                        ws_end(s@, next as int) == ws_end(s@, j as int),
                    decreases n - next,
                {
                    next += 1;
                }
                if next == n {
                    let ghost old_len = result@.len();
                    push_piece(&mut result, s, start, end);
                    proof {
                        let p = piece(trim(s@.subrange(start as int, end as int)));
                        assert(sent_scan(s@, i as int, start as int) == p);
                        assert(sent_scan(s@, n as int, n as int) == Seq::<Seq<char>>::empty());
                        assert forall|k: int| 0 <= k < result@.len() implies (#[trigger] result@[k])@ == (done + p)[k] by {
                            if k < old_len {
                            }
                        }
                        done = done + p;
                        assert(done + sent_scan(s@, n as int, n as int) =~= done);
                    }
                    start = n;
                    i = n;
                    continue;
                }
                let should_split = ch != '.' || !is_lowercase(s[next]);
                if should_split {
                    let ghost old_len = result@.len();
                    push_piece(&mut result, s, start, end);
                    proof {
                        let p = piece(trim(s@.subrange(start as int, end as int)));
                        assert(sent_scan(s@, i as int, start as int) == p + sent_scan(
                            s@,
                            next as int,
                            next as int,
                        ));
                        assert forall|k: int| 0 <= k < result@.len() implies (#[trigger] result@[k])@ == (done + p)[k] by {
                            if k < old_len {
                            }
                        }
                        assert(done + p + sent_scan(s@, next as int, next as int) =~= done + (p
                            + sent_scan(s@, next as int, next as int)));
                        done = done + p;
                    }
                    start = next;
                    i = next;
                    continue;
                }
            }
        }
        i += 1;
    }
    if start < n {
        let ghost old_len = result@.len();
        push_piece(&mut result, s, start, n);
        proof {
            let p = piece(trim(s@.subrange(start as int, n as int)));
            assert(sent_scan(s@, i as int, start as int) == p);
            assert forall|k: int| 0 <= k < result@.len() implies (#[trigger] result@[k])@ == (done + p)[k] by {
                if k < old_len {
                }
            }
            done = done + p;
        }
    } else {
        assert(sent_scan(s@, i as int, start as int) == Seq::<Seq<char>>::empty());
    }
    assert(done + Seq::<Seq<char>>::empty() =~= done);
    result
}

} // verus!
