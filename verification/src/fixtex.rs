//! The LaTeX formatter: every sentence of a paragraph or caption on a line
//! of its own, environments indented, no trailing whitespace, no two empty
//! lines in a row; the contents of mathematics, tables, pictures, code and
//! display math are left as they are.
use vstd::prelude::*;
use crate::chars::{
    unicode_alphabetic, is_alphabetic, utf8_width, width, eq_lit, chars_of, string_of, chars_eq,
};
use crate::text::{
    trim, trim_chars, trim_start, trim_start_chars, trim_end, trim_end_chars, has_prefix,
    has_suffix, contains_text, starts_with, starts_with_lit, ends_with_lit, contains, contains_lit,
    copy_range, append_chars, append_lit, split_on, split_chars, lemma_split_on_len, lead_ws,
    lead_ws_count, lemma_lead_ws, skip_ws_spec, skip_ws_chars, lemma_skip_ws_spec, join, collapse,
    collapse_chars,
};
use crate::sentences::{split_sentences_spec, split_sentences};
use crate::keys::join_words;
use crate::scan::{find_matching_spec, find_matching};

verus! {

// ---------------------------------------------------------------------------
// Lines
// ---------------------------------------------------------------------------

/// `t` without one final carriage return.
pub open spec fn strip_cr(t: Seq<char>) -> Seq<char> {
    if t.len() > 0 && t.last() == '\r' {
        t.drop_last()
    } else {
        t
    }
}

/// The lines of a text (`str::lines`): split at `\n`, a `\r` before the `\n`
/// removed, no empty line after a final `\n`.
pub open spec fn lines_of(s: Seq<char>) -> Seq<Seq<char>> {
    let ps = split_on(s, '\n');
    let n = if ps.last().len() == 0 {
        ps.len() - 1
    } else {
        ps.len() as int
    };
    Seq::new(
        n as nat,
        |i: int|
            if i < ps.len() - 1 {
                strip_cr(ps[i])
            } else {
                ps[i]
            },
    )
}

/// The lines of a text (see `lines_of`).
pub fn lines(s: &[char]) -> (r: Vec<Vec<char>>)
    ensures
        r@.len() == lines_of(s@).len(),
        forall|k: int| 0 <= k < r@.len() ==> (#[trigger] r@[k])@ == lines_of(s@)[k],
{
    let ps = split_chars(s, '\n');
    let ghost pv = split_on(s@, '\n');
    proof {
        lemma_split_on_len(s@, '\n');
    }
    let np = ps.len();
    let n = if ps[np - 1].len() == 0 {
        np - 1
    } else {
        np
    };
    let mut out: Vec<Vec<char>> = Vec::new();
    let mut i: usize = 0;
    while i < n
        invariant
            np == ps@.len(),
            np == pv.len(),
            pv == split_on(s@, '\n'),
            n <= np,
            n as int == (if pv.last().len() == 0 {
                pv.len() - 1
            } else {
                pv.len() as int
            }),
            forall|k: int| 0 <= k < np ==> (#[trigger] ps@[k])@ == pv[k],
            i <= n,
            out@.len() == i,
            forall|k: int| 0 <= k < i ==> (#[trigger] out@[k])@ == lines_of(s@)[k],
        decreases n - i,
    {
        let p = &ps[i];
        let line = if i < np - 1 && p.len() > 0 && p[p.len() - 1] == '\r' {
            copy_range(p.as_slice(), 0, p.len() - 1)
        } else {
            copy_range(p.as_slice(), 0, p.len())
        };
        proof {
            assert(p@.subrange(0, p@.len() as int) =~= p@);
            if p@.len() > 0 {
                assert(p@.subrange(0, p@.len() - 1) =~= p@.drop_last());
            }
        }
        out.push(line);
        i += 1;
    }
    out
}

// ---------------------------------------------------------------------------
// Line classification
// ---------------------------------------------------------------------------

/// Display math delimiters.
#[derive(Clone, Copy)]
pub enum MathMode {
    Bracket,
    Dollars,
}

/// A `%` that is not escaped by an odd number of backslashes, scanning from
/// `i` with `bs` backslashes just before it.
pub open spec fn pct_scan(s: Seq<char>, i: int, bs: nat) -> bool
    decreases s.len() - i,
{
    if i < 0 || i >= s.len() {
        false
    } else if s[i] == '\\' {
        pct_scan(s, i + 1, bs + 1)
    } else if s[i] == '%' && bs % 2 == 0 {
        true
    } else {
        pct_scan(s, i + 1, 0)
    }
}

/// The line holds a comment sign that is not escaped.
pub open spec fn has_unescaped_percent(s: Seq<char>) -> bool {
    pct_scan(s, 0, 0)
}

pub fn contains_unescaped_percent(line: &[char]) -> (r: bool)
    ensures
        r == has_unescaped_percent(line@),
{
    let mut backslashes: usize = 0;
    let mut i: usize = 0;
    while i < line.len()
        invariant
            i <= line@.len(),
            backslashes <= i,
            pct_scan(line@, i as int, backslashes as nat) == has_unescaped_percent(line@),
        decreases line@.len() - i,
    {
        let c = line[i];
        if c == '\\' {
            backslashes += 1;
        } else {
            if c == '%' && backslashes % 2 == 0 {
                return true;
            }
            backslashes = 0;
        }
        i += 1;
    }
    false
}

/// The display math that a (trimmed) line opens.
pub open spec fn math_starts(s: Seq<char>) -> Option<MathMode> {
    if has_prefix(s, "\\["@) {
        Some(MathMode::Bracket)
    } else if has_prefix(s, "$$"@) {
        Some(MathMode::Dollars)
    } else {
        None
    }
}

pub fn display_math_starts(s: &[char]) -> (r: Option<MathMode>)
    ensures
        r == math_starts(s@),
{
    if starts_with_lit(s, "\\[") {
        Some(MathMode::Bracket)
    } else if starts_with_lit(s, "$$") {
        Some(MathMode::Dollars)
    } else {
        None
    }
}

/// The closing delimiter of a display math mode.
pub open spec fn math_closer(mode: MathMode) -> Seq<char> {
    match mode {
        MathMode::Bracket => "\\]"@,
        MathMode::Dollars => "$$"@,
    }
}

/// The line holds the closing delimiter of `mode`.
pub open spec fn math_ends(line: Seq<char>, mode: MathMode) -> bool {
    contains_text(line, math_closer(mode))
}

pub fn display_math_ends(line: &[char], mode: &MathMode) -> (r: bool)
    ensures
        r == math_ends(line@, *mode),
{
    match mode {
        MathMode::Bracket => contains_lit(line, "\\]"),
        MathMode::Dollars => contains_lit(line, "$$"),
    }
}

/// The text after the first two bytes of the UTF-8 encoding of `s`; empty
/// when byte 2 lies inside a character or past the end (`str::get(2..)`).
pub open spec fn after_two_bytes(s: Seq<char>) -> Seq<char> {
    if s.len() == 0 {
        seq![]
    } else if utf8_width(s[0]) == 2 {
        s.skip(1)
    } else if utf8_width(s[0]) == 1 && s.len() >= 2 && utf8_width(s[1]) == 1 {
        s.skip(2)
    } else {
        seq![]
    }
}

/// The line closes `mode` after its first two bytes (the opening delimiter).
pub open spec fn math_ends_after_start(line: Seq<char>, mode: MathMode) -> bool {
    contains_text(after_two_bytes(line), math_closer(mode))
}

fn after_two(s: &[char]) -> (r: Vec<char>)
    ensures
        r@ == after_two_bytes(s@),
{
    if s.len() == 0 {
        Vec::new()
    } else if width(s[0]) == 2 {
        let r = copy_range(s, 1, s.len());
        assert(r@ =~= s@.skip(1));
        r
    } else if width(s[0]) == 1 && s.len() >= 2 && width(s[1]) == 1 {
        let r = copy_range(s, 2, s.len());
        assert(r@ =~= s@.skip(2));
        r
    } else {
        Vec::new()
    }
}

pub fn display_math_ends_after_start(line: &[char], mode: &MathMode) -> (r: bool)
    ensures
        r == math_ends_after_start(line@, *mode),
{
    let rest = after_two(line);
    match mode {
        MathMode::Bracket => contains_lit(rest.as_slice(), "\\]"),
        MathMode::Dollars => contains_lit(rest.as_slice(), "$$"),
    }
}

/// The first position at or after `i` that holds `c`.
pub open spec fn char_pos(s: Seq<char>, i: int, c: char) -> Option<int>
    decreases s.len() - i,
{
    if i < 0 || i >= s.len() {
        None
    } else if s[i] == c {
        Some(i)
    } else {
        char_pos(s, i + 1, c)
    }
}

/// The environment named by a line that starts with `cmd` (`\begin{` or
/// `\end{`) and has a `}` after it.
pub open spec fn env_at_start(s: Seq<char>, cmd: Seq<char>) -> Option<Seq<char>> {
    if !has_prefix(s, cmd) {
        None
    } else {
        let rest = s.skip(cmd.len() as int);
        match char_pos(rest, 0, '}') {
            Some(e) => Some(rest.take(e)),
            None => None,
        }
    }
}

fn env_at_start_exec(s: &[char], cmd: &str) -> (r: Option<Vec<char>>)
    ensures
        r is None <==> env_at_start(s@, cmd@) is None,
        r matches Some(v) ==> env_at_start(s@, cmd@) == Some(v@),
{
    let c = chars_of(cmd);
    if !starts_with(s, c.as_slice()) {
        return None;
    }
    let rest = copy_range(s, c.len(), s.len());
    assert(rest@ =~= s@.skip(c@.len() as int));
    let mut i: usize = 0;
    while i < rest.len()
        invariant
            i <= rest@.len(),
            c@ == cmd@,
            has_prefix(s@, cmd@),
            rest@ == s@.skip(cmd@.len() as int),
            char_pos(rest@, i as int, '}') == char_pos(rest@, 0, '}'),
        decreases rest@.len() - i,
    {
        if rest[i] == '}' {
            let name = copy_range(rest.as_slice(), 0, i);
            assert(name@ =~= rest@.take(i as int));
            return Some(name);
        }
        i += 1;
    }
    None
}

/// The environment that a line begins.
pub fn begin_env_at_start(s: &[char]) -> (r: Option<Vec<char>>)
    ensures
        r is None <==> env_at_start(s@, "\\begin{"@) is None,
        r matches Some(v) ==> env_at_start(s@, "\\begin{"@) == Some(v@),
{
    env_at_start_exec(s, "\\begin{")
}

/// The environment that a line ends.
pub fn end_env_at_start(s: &[char]) -> (r: Option<Vec<char>>)
    ensures
        r is None <==> env_at_start(s@, "\\end{"@) is None,
        r matches Some(v) ==> env_at_start(s@, "\\end{"@) == Some(v@),
{
    env_at_start_exec(s, "\\end{")
}

/// The text `\end{env}`.
pub open spec fn end_env_text(env: Seq<char>) -> Seq<char> {
    "\\end{"@ + env + "}"@
}

pub fn line_contains_end_env(line: &[char], env: &[char]) -> (r: bool)
    ensures
        r == contains_text(line@, end_env_text(env@)),
{
    let mut t = chars_of("\\end{");
    append_chars(&mut t, env);
    append_lit(&mut t, "}");
    contains(line, t.as_slice())
}

/// Environments whose lines are kept as they are: mathematics, tabulars,
/// pictures, code and the bibliography. The floats `figure`, `figure*`,
/// `table` and `table*` are deliberately not among them: their lines are
/// formatted and indented like any other environment's, so that the
/// captions inside them are split into sentences.
pub open spec fn is_ignored_env_spec(env: Seq<char>) -> bool {
    ||| env == "equation"@
    ||| env == "equation*"@
    ||| env == "align"@
    ||| env == "align*"@
    ||| env == "alignat"@
    ||| env == "alignat*"@
    ||| env == "gather"@
    ||| env == "gather*"@
    ||| env == "multline"@
    ||| env == "multline*"@
    ||| env == "flalign"@
    ||| env == "flalign*"@
    ||| env == "split"@
    ||| env == "cases"@
    ||| env == "array"@
    ||| env == "tabular"@
    ||| env == "tabular*"@
    ||| env == "tabularx"@
    ||| env == "longtable"@
    ||| env == "tikzpicture"@
    ||| env == "picture"@
    ||| env == "verbatim"@
    ||| env == "lstlisting"@
    ||| env == "minted"@
    ||| env == "algorithm"@
    ||| env == "algorithmic"@
    ||| env == "algorithm2e"@
    ||| env == "thebibliography"@
}

pub fn is_ignored_env(env: &[char]) -> (r: bool)
    ensures
        r == is_ignored_env_spec(env@),
{
    eq_lit(env, "equation") || eq_lit(env, "equation*") || eq_lit(env, "align") || eq_lit(
        env,
        "align*",
    ) || eq_lit(env, "alignat") || eq_lit(env, "alignat*") || eq_lit(env, "gather") || eq_lit(
        env,
        "gather*",
    ) || eq_lit(env, "multline") || eq_lit(env, "multline*") || eq_lit(env, "flalign") || eq_lit(
        env,
        "flalign*",
    ) || eq_lit(env, "split") || eq_lit(env, "cases") || eq_lit(env, "array") || eq_lit(
        env,
        "tabular",
    ) || eq_lit(env, "tabular*") || eq_lit(env, "tabularx") || eq_lit(env, "longtable") || eq_lit(
        env,
        "tikzpicture",
    ) || eq_lit(env, "picture") || eq_lit(env, "verbatim") || eq_lit(env, "lstlisting") || eq_lit(
        env,
        "minted",
    ) || eq_lit(env, "algorithm") || eq_lit(env, "algorithmic") || eq_lit(env, "algorithm2e")
        || eq_lit(env, "thebibliography")
}

/// `s` starts with the command `cmd`, not followed by a letter.
pub open spec fn starts_command_spec(s: Seq<char>, cmd: Seq<char>) -> bool {
    has_prefix(s, cmd) && (s.len() == cmd.len() || !unicode_alphabetic(s[cmd.len() as int]))
}

pub fn starts_command(s: &[char], cmd: &str) -> (r: bool)
    ensures
        r == starts_command_spec(s@, cmd@),
{
    let c = chars_of(cmd);
    if !starts_with(s, c.as_slice()) {
        return false;
    }
    if s.len() == c.len() {
        return true;
    }
    !is_alphabetic(s[c.len()])
}

/// A line starts with `\item` or `\noindent`.
pub open spec fn starts_para_prefix(s: Seq<char>) -> bool {
    starts_command_spec(s, "\\item"@) || starts_command_spec(s, "\\noindent"@)
}

pub fn starts_supported_paragraph_prefix(s: &[char]) -> (r: bool)
    ensures
        r == starts_para_prefix(s@),
{
    starts_command(s, "\\item") || starts_command(s, "\\noindent")
}

/// A line that stands on its own: it ends with `\\`, or it starts with a
/// command other than `\item` and `\noindent`.
pub open spec fn is_barrier(line: Seq<char>) -> bool {
    let s = trim_start(line);
    if has_suffix(s, "\\\\"@) {
        true
    } else if starts_para_prefix(s) {
        false
    } else {
        has_prefix(s, "\\"@)
    }
}

pub fn is_command_barrier(line: &[char]) -> (r: bool)
    ensures
        r == is_barrier(line@),
{
    let s = trim_start_chars(line);
    if ends_with_lit(s.as_slice(), "\\\\") {
        return true;
    }
    if starts_supported_paragraph_prefix(s.as_slice()) {
        return false;
    }
    starts_with_lit(s.as_slice(), "\\")
}

// ---------------------------------------------------------------------------
// Paragraph prefixes
// ---------------------------------------------------------------------------

/// The position of the `]` that closes the bracket group scanned from `i`
/// at nesting `depth`.
pub open spec fn bracket_scan(s: Seq<char>, i: int, depth: int) -> Option<int>
    decreases s.len() - i,
{
    if i < 0 || i >= s.len() {
        None
    } else if s[i] == '[' {
        bracket_scan(s, i + 1, depth + 1)
    } else if s[i] == ']' {
        if depth - 1 == 0 {
            Some(i)
        } else {
            bracket_scan(s, i + 1, depth - 1)
        }
    } else {
        bracket_scan(s, i + 1, depth)
    }
}

pub proof fn lemma_bracket_scan(s: Seq<char>, i: int, depth: int)
    requires
        0 <= i,
    ensures
        bracket_scan(s, i, depth) matches Some(c) ==> i <= c < s.len(),
    decreases s.len() - i,
{
    if 0 <= i < s.len() {
        if s[i] == '[' {
            lemma_bracket_scan(s, i + 1, depth + 1);
        } else if s[i] == ']' {
            if depth - 1 != 0 {
                lemma_bracket_scan(s, i + 1, depth - 1);
            }
        } else {
            lemma_bracket_scan(s, i + 1, depth);
        }
    }
}

/// Where the prefix `\item [label] ` of a line ends.
pub open spec fn item_prefix_end(s: Seq<char>) -> int {
    let i1 = skip_ws_spec(s, 5);
    if 0 <= i1 < s.len() && s[i1] == '[' {
        match bracket_scan(s, i1, 0) {
            Some(c) => skip_ws_spec(s, c + 1),
            None => skip_ws_spec(s, i1),
        }
    } else {
        i1
    }
}

/// `n` spaces.
pub open spec fn spaces(n: nat) -> Seq<char> {
    Seq::new(n, |i: int| ' ')
}

/// The prefix of a paragraph's first line (`\item [label]` or `\noindent`
/// with the whitespace after it), the text that continues later lines
/// (spaces as wide as an item prefix, nothing after `\noindent`), and the
/// rest of the line.
pub open spec fn take_prefix_spec(s: Seq<char>) -> Option<(Seq<char>, Seq<char>, Seq<char>)> {
    if starts_command_spec(s, "\\item"@) {
        let idx = item_prefix_end(s);
        Some((s.take(idx), spaces(idx as nat), s.skip(idx)))
    } else if starts_command_spec(s, "\\noindent"@) {
        let idx = skip_ws_spec(s, 9);
        Some((s.take(idx), seq![], s.skip(idx)))
    } else {
        None
    }
}

proof fn lemma_lit_lens()
    ensures
        "\\item"@.len() == 5,
        "\\noindent"@.len() == 9,
{
    reveal_strlit("\\item");
    reveal_strlit("\\noindent");
}

fn bracket_close(s: &[char], i1: usize) -> (r: Option<usize>)
    requires
        i1 < s@.len(),
        s@[i1 as int] == '[',
    ensures
        r is None <==> bracket_scan(s@, i1 as int, 0) is None,
        r matches Some(c) ==> bracket_scan(s@, i1 as int, 0) == Some(c as int) && c < s@.len(),
{
    proof {
        lemma_bracket_scan(s@, i1 as int, 0);
    }
    let mut depth: usize = 0;
    let mut k = i1;
    while k < s.len()
        invariant
            i1 <= k <= s@.len(),
            depth <= k - i1,
            k > i1 ==> depth >= 1,
            k == i1 ==> depth == 0,
            s@[i1 as int] == '[',
            bracket_scan(s@, k as int, depth as int) == bracket_scan(s@, i1 as int, 0),
        decreases s@.len() - k,
    {
        if s[k] == '[' {
            depth += 1;
        } else if s[k] == ']' {
            if depth == 1 {
                return Some(k);
            }
            depth -= 1;
        }
        k += 1;
    }
    None
}

/// Splits the paragraph prefix off a line (see `take_prefix_spec`).
pub fn take_paragraph_prefix(s: &[char]) -> (r: Option<(Vec<char>, Vec<char>, Vec<char>)>)
    ensures
        r is None <==> take_prefix_spec(s@) is None,
        r matches Some((a, b, c)) ==> take_prefix_spec(s@) == Some((a@, b@, c@)),
{
    proof {
        lemma_lit_lens();
    }
    if starts_command(s, "\\item") {
        let mut idx = skip_ws_chars(s, 5);
        proof {
            lemma_skip_ws_spec(s@, 5);
        }
        if idx < s.len() && s[idx] == '[' {
            match bracket_close(s, idx) {
                Some(c) => {
                    idx = c + 1;
                },
                None => {},
            }
            proof {
                lemma_skip_ws_spec(s@, idx as int);
            }
            idx = skip_ws_chars(s, idx);
        }
        assert(idx == item_prefix_end(s@));
        proof {
            lemma_skip_ws_spec(s@, 5);
        }
        let prefix = copy_range(s, 0, idx);
        let mut cont: Vec<char> = Vec::new();
        let mut j: usize = 0;
        while j < idx
            invariant
                j <= idx,
                cont@ == spaces(j as nat),
            decreases idx - j,
        {
            cont.push(' ');
            j += 1;
            assert(cont@ =~= spaces(j as nat));
        }
        let rest = copy_range(s, idx, s.len());
        assert(prefix@ =~= s@.take(idx as int));
        assert(rest@ =~= s@.skip(idx as int));
        return Some((prefix, cont, rest));
    }
    if starts_command(s, "\\noindent") {
        let idx = skip_ws_chars(s, 9);
        proof {
            lemma_skip_ws_spec(s@, 9);
        }
        let prefix = copy_range(s, 0, idx);
        let rest = copy_range(s, idx, s.len());
        assert(prefix@ =~= s@.take(idx as int));
        assert(rest@ =~= s@.skip(idx as int));
        return Some((prefix, Vec::new(), rest));
    }
    None
}

// ---------------------------------------------------------------------------
// Paragraphs
// ---------------------------------------------------------------------------

/// The whitespace at the start of a line.
pub open spec fn leading_ws_spec(s: Seq<char>) -> Seq<char> {
    s.take(lead_ws(s) as int)
}

pub fn leading_ws(s: &[char]) -> (r: Vec<char>)
    ensures
        r@ == leading_ws_spec(s@),
{
    proof {
        lemma_lead_ws(s@);
    }
    let n = lead_ws_count(s);
    let r = copy_range(s, 0, n);
    assert(r@ =~= s@.take(n as int));
    r
}

/// A paragraph line without the paragraph's indentation, trimmed.
pub open spec fn unindented(line: Seq<char>, indent: Seq<char>) -> Seq<char> {
    if has_prefix(line, indent) {
        trim(line.skip(indent.len() as int))
    } else {
        trim(line)
    }
}

/// The non-empty trimmed lines of a paragraph.
pub open spec fn para_pieces(para: Seq<Seq<char>>, indent: Seq<char>) -> Seq<Seq<char>>
    decreases para.len(),
{
    if para.len() == 0 {
        seq![]
    } else {
        let prev = para_pieces(para.drop_last(), indent);
        let t = unindented(para.last(), indent);
        if t.len() == 0 {
            prev
        } else {
            prev.push(t)
        }
    }
}

/// The output lines for the sentences `sents`: indentation, the first or
/// the continuation prefix, the trimmed sentence, a newline.
pub open spec fn sentence_lines(
    indent: Seq<char>,
    first: Seq<char>,
    cont: Seq<char>,
    sents: Seq<Seq<char>>,
) -> Seq<char>
    decreases sents.len(),
{
    if sents.len() == 0 {
        seq![]
    } else {
        sentence_lines(indent, first, cont, sents.drop_last()) + indent + (if sents.len() == 1 {
            first
        } else {
            cont
        }) + trim(sents.last()) + seq!['\n']
    }
}

/// The text a paragraph becomes: its lines joined and collapsed, split into
/// sentences, one sentence per line, each after `indent`, and the
/// `\item`/`\noindent` prefix before the first sentence.
pub open spec fn paragraph_text(para: Seq<Seq<char>>, indent: Seq<char>) -> Seq<char> {
    if para.len() == 0 {
        seq![]
    } else {
        let pieces0 = para_pieces(para, indent);
        if pieces0.len() == 0 {
            seq![]
        } else {
            let (first, cont, pieces) = match take_prefix_spec(pieces0[0]) {
                Some((p, c, rest)) => (p, c, pieces0.update(0, trim_start(rest))),
                None => (seq![], seq![], pieces0),
            };
            let joined = collapse(join(pieces, seq![' ']));
            sentence_lines(indent, first, cont, split_sentences_spec(joined))
        }
    }
}

/// Writes the sentence lines of the first `n` sentences (see
/// `sentence_lines`).
fn write_sentence_lines(
    out: &mut Vec<char>,
    indent: &[char],
    first: &[char],
    cont: &[char],
    sentences: &Vec<Vec<char>>,
    n: usize,
)
    requires
        n <= sentences@.len(),
    ensures
        final(out)@ == old(out)@ + sentence_lines(indent@, first@, cont@, texts_of(sentences@).take(n as int)),
{
    let ghost sv = texts_of(sentences@);
    let ghost start = out@;
    let mut k: usize = 0;
    assert(sv.take(0) =~= Seq::<Seq<char>>::empty());
    assert(out@ =~= start + sentence_lines(indent@, first@, cont@, sv.take(0)));
    while k < n
        invariant
            k <= n,
            n <= sentences@.len(),
            sv == texts_of(sentences@),
            out@ == start + sentence_lines(indent@, first@, cont@, sv.take(k as int)),
        decreases n - k,
    {
        assert(sv.take(k + 1).drop_last() =~= sv.take(k as int));
        assert(sv.take(k + 1).last() == sv[k as int]);
        append_chars(out, indent);
        if k == 0 {
            append_chars(out, first);
        } else {
            append_chars(out, cont);
        }
        let t = trim_chars(sentences[k].as_slice());
        append_chars(out, t.as_slice());
        out.push('\n');
        k += 1;
        assert(out@ =~= start + sentence_lines(indent@, first@, cont@, sv.take(k as int)));
    }
}

/// Writes out a paragraph (see `paragraph_text`) with every line after
/// `indent`, and empties it.
pub fn flush_paragraph(out: &mut Vec<char>, para: &mut Vec<Vec<char>>, indent: &[char])
    ensures
        final(out)@ == old(out)@ + paragraph_text(texts_of(old(para)@), indent@),
        final(para)@.len() == 0,
{
    let ghost pv = texts_of(para@);
    if para.len() == 0 {
        assert(paragraph_text(pv, indent@) =~= Seq::<char>::empty());
        assert(out@ =~= old(out)@ + paragraph_text(pv, indent@));
        return;
    }
    let mut pieces: Vec<Vec<char>> = Vec::new();
    let mut i: usize = 0;
    while i < para.len()
        invariant
            i <= para@.len(),
            pv == texts_of(para@),
            pieces@.len() == para_pieces(pv.take(i as int), indent@).len(),
            forall|k: int|
                0 <= k < pieces@.len() ==> (#[trigger] pieces@[k])@ == para_pieces(pv.take(i as int), indent@)[k],
        decreases para@.len() - i,
    {
        assert(pv.take(i + 1).drop_last() =~= pv.take(i as int));
        assert(pv.take(i + 1).last() == pv[i as int]);
        let line = &para[i];
        let t = if starts_with(line.as_slice(), indent) {
            let r = copy_range(line.as_slice(), indent.len(), line.len());
            assert(r@ =~= line@.skip(indent@.len() as int));
            trim_chars(r.as_slice())
        } else {
            trim_chars(line.as_slice())
        };
        if t.len() > 0 {
            pieces.push(t);
        }
        i += 1;
    }
    assert(pv.take(pv.len() as int) =~= pv);
    let ghost pieces0 = para_pieces(pv, indent@);
    para.clear();
    if pieces.len() == 0 {
        assert(paragraph_text(pv, indent@) =~= Seq::<char>::empty());
        assert(out@ =~= old(out)@ + paragraph_text(pv, indent@));
        return;
    }
    let mut first: Vec<char> = Vec::new();
    let mut cont: Vec<char> = Vec::new();
    match take_paragraph_prefix(pieces[0].as_slice()) {
        Some((p, c, rest)) => {
            first = p;
            cont = c;
            let r0 = trim_start_chars(rest.as_slice());
            pieces.set(0, r0);
        },
        None => {},
    }
    let ghost spec_pieces = match take_prefix_spec(pieces0[0]) {
        Some((p, c, rest)) => pieces0.update(0, trim_start(rest)),
        None => pieces0,
    };
    assert(texts_of(pieces@) =~= spec_pieces);
    let joined0 = join_words(&pieces, ' ');
    let joined = collapse_chars(joined0.as_slice());
    let sentences = split_sentences(joined.as_slice());
    let ghost sv = split_sentences_spec(joined@);
    assert(texts_of(sentences@) =~= sv);
    write_sentence_lines(out, indent, first.as_slice(), cont.as_slice(), &sentences, sentences.len());
    assert(sv.take(sv.len() as int) =~= sv);
}

/// The views of a list of texts.
pub open spec fn texts_of(v: Seq<Vec<char>>) -> Seq<Seq<char>> {
    v.map_values(|t: Vec<char>| t@)
}

// ---------------------------------------------------------------------------
// The formatter
// ---------------------------------------------------------------------------

/// The formatter's state between lines: the output so far, the lines of the
/// current paragraph, the environment whose lines are copied as they are,
/// the display math that is open, and how many environments (other than
/// `document`) are open.
pub struct TexState {
    pub out: Seq<char>,
    pub para: Seq<Seq<char>>,
    pub ignored: Option<Seq<char>>,
    pub math: Option<MathMode>,
    pub depth: nat,
}

/// The indentation of a line inside `depth` open environments: two spaces
/// per environment.
pub open spec fn indent_text(depth: nat) -> Seq<char> {
    spaces(2 * depth)
}

/// `out` with `line` and a newline after it.
pub open spec fn with_line(out: Seq<char>, line: Seq<char>) -> Seq<char> {
    out + line + seq!['\n']
}

/// The output with the current paragraph written out.
pub open spec fn flushed(st: TexState) -> Seq<char> {
    st.out + paragraph_text(st.para, indent_text(st.depth))
}

/// The state after the paragraph has been written out and `line` copied,
/// trimmed and indented for `depth` open environments.
pub open spec fn flush_and_copy(st: TexState, line: Seq<char>, depth: nat) -> TexState {
    TexState {
        out: with_line(flushed(st), indent_text(depth) + trim(line)),
        para: seq![],
        ignored: st.ignored,
        math: st.math,
        depth: st.depth,
    }
}

/// The text ends with an empty line.
pub open spec fn ends_blank(out: Seq<char>) -> bool {
    ||| (out.len() == 1 && out[0] == '\n')
    ||| (out.len() >= 2 && out[out.len() - 1] == '\n' && out[out.len() - 2] == '\n')
}

/// The state after the paragraph has been written out and an empty line
/// added, unless the text already ends with one.
pub open spec fn flush_and_blank(st: TexState) -> TexState {
    let out1 = flushed(st);
    TexState {
        out: if ends_blank(out1) {
            out1
        } else {
            with_line(out1, seq![])
        },
        para: seq![],
        ..st
    }
}

/// The parts of a `\caption{...}` or `\subcaption{...}` line (after an
/// optional `[short]` argument) whose body closes on the line: the text up
/// to and with the opening brace, the body, and the rest from the closing
/// brace on.
pub open spec fn caption_parts(t: Seq<char>) -> Option<(Seq<char>, Seq<char>, Seq<char>)> {
    let n: int = if starts_command_spec(t, "\\caption"@) {
        8
    } else if starts_command_spec(t, "\\subcaption"@) {
        11
    } else {
        0
    };
    if n == 0 {
        None
    } else {
        let j0 = skip_ws_spec(t, n);
        let j = if 0 <= j0 < t.len() && t[j0] == '[' {
            match bracket_scan(t, j0, 0) {
                Some(c) => skip_ws_spec(t, c + 1),
                None => j0,
            }
        } else {
            j0
        };
        if 0 <= j < t.len() && t[j] == '{' {
            match find_matching_spec(t, j, '{', '}') {
                Some(c) => Some((t.take(j + 1), t.subrange(j + 1, c), t.skip(c))),
                None => None,
            }
        } else {
            None
        }
    }
}

/// The sentences of a caption body.
pub open spec fn caption_sentences(body: Seq<char>) -> Seq<Seq<char>> {
    split_sentences_spec(collapse(body))
}

/// A caption line whose body holds more than one sentence.
pub open spec fn is_split_caption(t: Seq<char>) -> bool {
    caption_parts(t) matches Some((p, b, x)) && caption_sentences(b).len() >= 2
}

/// The lines a caption becomes: one sentence per line, the first after the
/// caption command and its brace, the others aligned under it, the rest of
/// the line (from the closing brace on) after the last.
pub open spec fn caption_text(indent: Seq<char>, prefix: Seq<char>, body: Seq<char>, rest: Seq<char>) -> Seq<char> {
    let sents = caption_sentences(body);
    let cont = spaces(prefix.len());
    sentence_lines(indent, prefix, cont, sents.drop_last()) + indent + cont + trim(sents.last())
        + trim_end(rest) + seq!['\n']
}

/// What one line does to the state.
pub open spec fn step(st: TexState, line: Seq<char>) -> TexState {
    let trimmed = trim_start(line);
    if st.ignored is Some {
        let env = st.ignored->0;
        if env_at_start(trimmed, "\\end{"@) == Some(env) {
            TexState { out: with_line(st.out, indent_text(st.depth) + trim(line)), ignored: None, ..st }
        } else {
            TexState {
                out: with_line(st.out, line),
                ignored: if contains_text(line, end_env_text(env)) {
                    None
                } else {
                    Some(env)
                },
                ..st
            }
        }
    } else if st.math is Some {
        let mode = st.math->0;
        TexState {
            out: with_line(st.out, line),
            math: if math_ends(line, mode) {
                None
            } else {
                Some(mode)
            },
            ..st
        }
    } else if trimmed.len() == 0 {
        flush_and_blank(st)
    } else if has_prefix(trimmed, "%"@) || has_unescaped_percent(line) {
        flush_and_copy(st, line, st.depth)
    } else if math_starts(trimmed) is Some {
        let mode = math_starts(trimmed)->0;
        TexState {
            math: if !math_ends_after_start(trimmed, mode) {
                Some(mode)
            } else {
                None
            },
            ..flush_and_copy(st, line, st.depth)
        }
    } else if env_at_start(trimmed, "\\begin{"@) is Some {
        let env = env_at_start(trimmed, "\\begin{"@)->0;
        let closed = contains_text(line, end_env_text(env));
        TexState {
            ignored: if is_ignored_env_spec(env) && !closed {
                Some(env)
            } else {
                None
            },
            depth: if env != "document"@ && !is_ignored_env_spec(env) && !closed {
                st.depth + 1
            } else {
                st.depth
            },
            ..flush_and_copy(st, line, st.depth)
        }
    } else if env_at_start(trimmed, "\\end{"@) is Some {
        let env = env_at_start(trimmed, "\\end{"@)->0;
        let d: nat = if env != "document"@ && st.depth > 0 {
            (st.depth - 1) as nat
        } else {
            st.depth
        };
        TexState { depth: d, ..flush_and_copy(st, line, d) }
    } else if is_split_caption(trimmed) {
        let (p, b, x) = caption_parts(trimmed)->0;
        TexState {
            out: flushed(st) + caption_text(indent_text(st.depth), p, b, x),
            para: seq![],
            ..st
        }
    } else {
        let st1 = if starts_para_prefix(trimmed) && st.para.len() > 0 {
            TexState { out: flushed(st), para: seq![], ..st }
        } else {
            st
        };
        if is_barrier(line) {
            flush_and_copy(st1, line, st.depth)
        } else {
            TexState { para: st1.para.push(line), ..st1 }
        }
    }
}

/// The state after the first `k` lines.
pub open spec fn run(lines: Seq<Seq<char>>, k: int) -> TexState
    decreases k,
{
    if k <= 0 {
        TexState { out: seq![], para: seq![], ignored: None, math: None, depth: 0 }
    } else {
        step(run(lines, k - 1), lines[k - 1])
    }
}

/// The formatted text: every line processed, then the last paragraph
/// written out.
pub open spec fn process_spec(input: Seq<char>) -> Seq<char> {
    let ls = lines_of(input);
    flushed(run(ls, ls.len() as int))
}

proof fn lemma_run_depth(lines: Seq<Seq<char>>, k: int)
    requires
        0 <= k,
    ensures
        run(lines, k).depth <= k,
    decreases k,
{
    if k > 0 {
        lemma_run_depth(lines, k - 1);
    }
}

/// Two spaces for every open environment.
fn make_indent(depth: usize) -> (r: Vec<char>)
    ensures
        r@ == indent_text(depth as nat),
{
    let mut r: Vec<char> = Vec::new();
    let mut k: usize = 0;
    while k < depth
        invariant
            k <= depth,
            r@ == spaces(2 * k as nat),
        decreases depth - k,
    {
        r.push(' ');
        r.push(' ');
        k += 1;
        assert(r@ =~= spaces(2 * k as nat));
    }
    r
}

fn ends_with_blank_line(out: &Vec<char>) -> (r: bool)
    ensures
        r == ends_blank(out@),
{
    let n = out.len();
    (n == 1 && out[0] == '\n') || (n >= 2 && out[n - 1] == '\n' && out[n - 2] == '\n')
}

/// Writes out the paragraph and then `line`, trimmed and after `line_indent`.
fn flush_and_copy_exec(
    out: &mut Vec<char>,
    para: &mut Vec<Vec<char>>,
    indent: &[char],
    line: &[char],
    line_indent: &[char],
)
    ensures
        final(out)@ == with_line(
            old(out)@ + paragraph_text(texts_of(old(para)@), indent@),
            line_indent@ + trim(line@),
        ),
        texts_of(final(para)@) == Seq::<Seq<char>>::empty(),
{
    flush_paragraph(out, para, indent);
    append_chars(out, line_indent);
    let t = trim_chars(line);
    append_chars(out, t.as_slice());
    out.push('\n');
    assert(texts_of(para@) =~= Seq::<Seq<char>>::empty());
}

/// The parts of a caption line (see `caption_parts`).
pub fn caption_line_parts(t: &[char]) -> (r: Option<(Vec<char>, Vec<char>, Vec<char>)>)
    ensures
        r is None <==> caption_parts(t@) is None,
        r matches Some((p, b, x)) ==> caption_parts(t@) == Some((p@, b@, x@)),
{
    proof {
        reveal_strlit("\\caption");
        reveal_strlit("\\subcaption");
    }
    let n: usize = if starts_command(t, "\\caption") {
        8
    } else if starts_command(t, "\\subcaption") {
        11
    } else {
        0
    };
    if n == 0 {
        return None;
    }
    assert(t@.len() >= n);
    let j0 = skip_ws_chars(t, n);
    proof {
        lemma_skip_ws_spec(t@, n as int);
    }
    let mut j = j0;
    if j0 < t.len() && t[j0] == '[' {
        match bracket_close(t, j0) {
            Some(c) => {
                j = skip_ws_chars(t, c + 1);
                proof {
                    lemma_skip_ws_spec(t@, c + 1);
                }
            },
            None => {},
        }
    }
    if j < t.len() && t[j] == '{' {
        match find_matching(t, j, '{', '}') {
            Some(c) => {
                let p = copy_range(t, 0, j + 1);
                let b = copy_range(t, j + 1, c);
                let x = copy_range(t, c, t.len());
                assert(p@ =~= t@.take(j + 1));
                assert(x@ =~= t@.skip(c as int));
                Some((p, b, x))
            },
            None => None,
        }
    } else {
        None
    }
}

/// Writes a caption one sentence per line (see `caption_text`).
fn write_caption(out: &mut Vec<char>, indent: &[char], prefix: &[char], body: &[char], rest: &[char])
    requires
        caption_sentences(body@).len() >= 2,
    ensures
        final(out)@ == old(out)@ + caption_text(indent@, prefix@, body@, rest@),
{
    let joined = collapse_chars(body);
    let sentences = split_sentences(joined.as_slice());
    let ghost sv = caption_sentences(body@);
    assert(texts_of(sentences@) =~= sv);
    let mut cont: Vec<char> = Vec::new();
    let mut k: usize = 0;
    while k < prefix.len()
        invariant
            k <= prefix@.len(),
            cont@ == spaces(k as nat),
        decreases prefix@.len() - k,
    {
        cont.push(' ');
        k += 1;
        assert(cont@ =~= spaces(k as nat));
    }
    let ghost start = out@;
    let n = sentences.len();
    write_sentence_lines(out, indent, prefix, cont.as_slice(), &sentences, n - 1);
    assert(sv.take(n - 1) =~= sv.drop_last());
    append_chars(out, indent);
    append_chars(out, cont.as_slice());
    let last = trim_chars(sentences[n - 1].as_slice());
    append_chars(out, last.as_slice());
    let r = trim_end_chars(rest);
    append_chars(out, r.as_slice());
    out.push('\n');
    assert(out@ =~= start + caption_text(indent@, prefix@, body@, rest@));
}

/// Formats a LaTeX text (see `process_spec`): each sentence of a paragraph
/// or of a caption on a line of its own, every line indented by two spaces
/// per open environment (other than `document`) and without trailing
/// whitespace, and runs of blank lines merged into one empty line; the
/// lines inside mathematics, tables, pictures and code are kept as they are.
pub fn process_chars(input: &[char]) -> (r: Vec<char>)
    ensures
        r@ == process_spec(input@),
{
    let ls = lines(input);
    let ghost lv = lines_of(input@);
    let mut out: Vec<char> = Vec::new();
    let mut para: Vec<Vec<char>> = Vec::new();
    let mut ignored: Option<Vec<char>> = None;
    let mut math: Option<MathMode> = None;
    let mut depth: usize = 0;
    let mut k: usize = 0;
    assert(texts_of(para@) =~= Seq::<Seq<char>>::empty());
    while k < ls.len()
        invariant
            k <= ls@.len(),
            ls@.len() == lv.len(),
            lv == lines_of(input@),
            forall|j: int| 0 <= j < ls@.len() ==> (#[trigger] ls@[j])@ == lv[j],
            run(lv, k as int) == (TexState {
                out: out@,
                para: texts_of(para@),
                ignored: match ignored {
                    Some(e) => Some(e@),
                    None => None,
                },
                math: math,
                depth: depth as nat,
            }),
        decreases ls@.len() - k,
    {
        proof {
            lemma_run_depth(lv, k as int);
        }
        let line = &ls[k];
        let ghost st = run(lv, k as int);
        assert(run(lv, k + 1) == step(st, line@));
        let trimmed = trim_start_chars(line.as_slice());
        let indent = make_indent(depth);
        match ignored {
            Some(env) => {
                let closes = match end_env_at_start(trimmed.as_slice()) {
                    Some(e) => chars_eq(e.as_slice(), env.as_slice()),
                    None => false,
                };
                if closes {
                    append_chars(&mut out, indent.as_slice());
                    let t = trim_chars(line.as_slice());
                    append_chars(&mut out, t.as_slice());
                    out.push('\n');
                    assert(out@ =~= with_line(st.out, indent_text(st.depth) + trim(line@)));
                    ignored = None;
                } else {
                    append_chars(&mut out, line.as_slice());
                    out.push('\n');
                    assert(out@ =~= with_line(st.out, line@));
                    if line_contains_end_env(line.as_slice(), env.as_slice()) {
                        ignored = None;
                    } else {
                        ignored = Some(env);
                    }
                }
                k += 1;
                continue;
            },
            None => {},
        }
        match math {
            Some(mode) => {
                append_chars(&mut out, line.as_slice());
                out.push('\n');
                assert(out@ =~= with_line(st.out, line@));
                if display_math_ends(line.as_slice(), &mode) {
                    math = None;
                }
                k += 1;
                continue;
            },
            None => {},
        }
        if trimmed.len() == 0 {
            flush_paragraph(&mut out, &mut para, indent.as_slice());
            if !ends_with_blank_line(&out) {
                out.push('\n');
            }
            assert(texts_of(para@) =~= Seq::<Seq<char>>::empty());
            assert(out@ =~= flush_and_blank(st).out);
            k += 1;
            continue;
        }
        if starts_with_lit(trimmed.as_slice(), "%") || contains_unescaped_percent(line.as_slice()) {
            flush_and_copy_exec(&mut out, &mut para, indent.as_slice(), line.as_slice(), indent.as_slice());
            assert(out@ =~= flush_and_copy(st, line@, st.depth).out);
            k += 1;
            continue;
        }
        match display_math_starts(trimmed.as_slice()) {
            Some(mode) => {
                flush_and_copy_exec(&mut out, &mut para, indent.as_slice(), line.as_slice(), indent.as_slice());
                assert(out@ =~= flush_and_copy(st, line@, st.depth).out);
                if !display_math_ends_after_start(trimmed.as_slice(), &mode) {
                    math = Some(mode);
                }
                k += 1;
                continue;
            },
            None => {},
        }
        match begin_env_at_start(trimmed.as_slice()) {
            Some(env) => {
                flush_and_copy_exec(&mut out, &mut para, indent.as_slice(), line.as_slice(), indent.as_slice());
                assert(out@ =~= flush_and_copy(st, line@, st.depth).out);
                let closed = line_contains_end_env(line.as_slice(), env.as_slice());
                let ign = is_ignored_env(env.as_slice());
                if !eq_lit(env.as_slice(), "document") && !ign && !closed {
                    depth = depth + 1;
                }
                if ign && !closed {
                    ignored = Some(env);
                }
                k += 1;
                continue;
            },
            None => {},
        }
        match end_env_at_start(trimmed.as_slice()) {
            Some(env) => {
                let d = if !eq_lit(env.as_slice(), "document") && depth > 0 {
                    depth - 1
                } else {
                    depth
                };
                let line_indent = make_indent(d);
                flush_and_copy_exec(&mut out, &mut para, indent.as_slice(), line.as_slice(), line_indent.as_slice());
                assert(out@ =~= flush_and_copy(st, line@, d as nat).out);
                depth = d;
                k += 1;
                continue;
            },
            None => {},
        }
        match caption_line_parts(trimmed.as_slice()) {
            Some((p, b, x)) => {
                let joined = collapse_chars(b.as_slice());
                let sentences = split_sentences(joined.as_slice());
                if sentences.len() >= 2 {
                    assert(is_split_caption(trimmed@));
                    flush_paragraph(&mut out, &mut para, indent.as_slice());
                    write_caption(&mut out, indent.as_slice(), p.as_slice(), b.as_slice(), x.as_slice());
                    assert(texts_of(para@) =~= Seq::<Seq<char>>::empty());
                    assert(out@ =~= flushed(st) + caption_text(indent_text(st.depth), p@, b@, x@));
                    k += 1;
                    continue;
                }
                assert(!is_split_caption(trimmed@));
            },
            None => {},
        }
        let ghost st1 = if starts_para_prefix(trimmed@) && st.para.len() > 0 {
            TexState { out: flushed(st), para: seq![], ..st }
        } else {
            st
        };
        if starts_supported_paragraph_prefix(trimmed.as_slice()) && para.len() > 0 {
            flush_paragraph(&mut out, &mut para, indent.as_slice());
            assert(texts_of(para@) =~= Seq::<Seq<char>>::empty());
        }
        assert(out@ == st1.out && texts_of(para@) == st1.para);
        if is_command_barrier(line.as_slice()) {
            flush_and_copy_exec(&mut out, &mut para, indent.as_slice(), line.as_slice(), indent.as_slice());
            assert(out@ =~= flush_and_copy(st1, line@, st.depth).out);
            k += 1;
            continue;
        }
        let l2 = copy_range(line.as_slice(), 0, line.len());
        assert(l2@ =~= line@);
        para.push(l2);
        assert(texts_of(para@) =~= st1.para.push(line@));
        k += 1;
    }
    let indent = make_indent(depth);
    flush_paragraph(&mut out, &mut para, indent.as_slice());
    out
}

/// Formats a LaTeX text (see `process_spec`).
pub fn process(input: &str) -> (r: String)
    ensures
        r@ == process_spec(input@),
{
    let cs = chars_of(input);
    let out = process_chars(cs.as_slice());
    string_of(out.as_slice())
}

} // verus!
