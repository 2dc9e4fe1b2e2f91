//! Scanning LaTeX and BibTeX text: matching brackets, top-level commas and
//! the brace arguments of commands.
use vstd::prelude::*;
use crate::chars::{is_ascii_alpha, is_alpha};
use crate::text::{skip_ws_spec, skip_ws_chars, lemma_skip_ws_spec, copy_range};

verus! {

// ---------------------------------------------------------------------------
// Matching brackets
// ---------------------------------------------------------------------------

/// Scans from `i` with nesting `depth` for the bracket that closes the
/// group; a backslash escapes the character after it.
pub open spec fn match_scan(s: Seq<char>, i: int, depth: int, open: char, close: char) -> Option<
    int,
>
    decreases s.len() + 1 - i,
{
    if i < 0 || i >= s.len() {
        None
    } else if s[i] == '\\' {
        match_scan(s, i + 2, depth, open, close)
    } else if s[i] == open {
        match_scan(s, i + 1, depth + 1, open, close)
    } else if s[i] == close {
        if depth - 1 == 0 {
            Some(i)
        } else {
            match_scan(s, i + 1, depth - 1, open, close)
        }
    } else {
        match_scan(s, i + 1, depth, open, close)
    }
}

/// The position of the bracket `close` that matches the bracket `open` at
/// `open_idx`, if `open_idx` holds `open` and the group is closed.
pub open spec fn find_matching_spec(s: Seq<char>, open_idx: int, open: char, close: char) -> Option<
    int,
> {
    if open_idx < 0 || open_idx >= s.len() || s[open_idx] != open {
        None
    } else {
        match_scan(s, open_idx + 1, 1, open, close)
    }
}

pub proof fn lemma_match_scan(s: Seq<char>, i: int, depth: int, open: char, close: char)
    requires
        0 <= i,
    ensures
        match_scan(s, i, depth, open, close) matches Some(c) ==> i <= c < s.len() && s[c]
            == close,
    decreases s.len() + 1 - i,
{
    if 0 <= i < s.len() {
        if s[i] == '\\' {
            lemma_match_scan(s, i + 2, depth, open, close);
        } else if s[i] == open {
            lemma_match_scan(s, i + 1, depth + 1, open, close);
        } else if s[i] == close {
            if depth - 1 != 0 {
                lemma_match_scan(s, i + 1, depth - 1, open, close);
            }
        } else {
            lemma_match_scan(s, i + 1, depth, open, close);
        }
    }
}

/// A matching bracket lies after the opening one and is the closing bracket.
pub proof fn lemma_find_matching(s: Seq<char>, open_idx: int, open: char, close: char)
    ensures
        find_matching_spec(s, open_idx, open, close) matches Some(c) ==> open_idx < c < s.len()
            && s[c] == close,
{
    if 0 <= open_idx < s.len() && s[open_idx] == open {
        lemma_match_scan(s, open_idx + 1, 1, open, close);
    }
}

/// Finds the bracket that closes the group opened at `open_idx`.
pub fn find_matching(s: &[char], open_idx: usize, open: char, close: char) -> (r: Option<usize>)
    ensures
        r is None <==> find_matching_spec(s@, open_idx as int, open, close) is None,
        r matches Some(c) ==> find_matching_spec(s@, open_idx as int, open, close) == Some(
            c as int,
        ),
        r matches Some(c) ==> open_idx < c < s@.len() && s@[c as int] == close,
{
    proof {
        lemma_find_matching(s@, open_idx as int, open, close);
    }
    let n = s.len();
    if open_idx >= n || s[open_idx] != open {
        return None;
    }
    // depth == opened - closed, kept as two counters so no sign is needed
    let mut opened: usize = 1;
    let mut closed: usize = 0;
    let mut i = open_idx + 1;
    while i < n
        invariant
            n == s@.len(),
            open_idx < n,
            closed < opened,
            opened <= i,
            open_idx + 1 <= i,
            match_scan(s@, i as int, opened - closed, open, close) == find_matching_spec(
                s@,
                open_idx as int,
                open,
                close,
            ),
        decreases n + 2 - i,
    {
        if s[i] == '\\' {
            if n - i < 2 {
                assert(match_scan(s@, i + 2, opened - closed, open, close) is None);
                return None;
            }
            i += 2;
            continue;
        }
        if s[i] == open {
            opened += 1;
        } else if s[i] == close {
            closed += 1;
            if opened == closed {
                return Some(i);
            }
        }
        i += 1;
    }
    None
}

// ---------------------------------------------------------------------------
// Top-level commas
// ---------------------------------------------------------------------------

/// Scans for a comma outside braces and outside a quoted string.
pub open spec fn comma_scan(s: Seq<char>, i: int, depth: int, quote: bool) -> Option<int>
    decreases s.len() + 1 - i,
{
    if i < 0 || i >= s.len() {
        None
    } else if s[i] == '\\' {
        comma_scan(s, i + 2, depth, quote)
    } else if s[i] == '"' && depth == 0 {
        comma_scan(s, i + 1, depth, !quote)
    } else if s[i] == '{' && !quote {
        comma_scan(s, i + 1, depth + 1, quote)
    } else if s[i] == '}' && !quote {
        comma_scan(s, i + 1, depth - 1, quote)
    } else if s[i] == ',' && depth == 0 && !quote {
        Some(i)
    } else {
        comma_scan(s, i + 1, depth, quote)
    }
}

pub proof fn lemma_comma_scan(s: Seq<char>, i: int, depth: int, quote: bool)
    requires
        0 <= i,
    ensures
        comma_scan(s, i, depth, quote) matches Some(c) ==> i <= c < s.len() && s[c] == ',',
    decreases s.len() + 1 - i,
{
    if 0 <= i < s.len() {
        if s[i] == '\\' {
            lemma_comma_scan(s, i + 2, depth, quote);
        } else if s[i] == '"' && depth == 0 {
            lemma_comma_scan(s, i + 1, depth, !quote);
        } else if s[i] == '{' && !quote {
            lemma_comma_scan(s, i + 1, depth + 1, quote);
        } else if s[i] == '}' && !quote {
            lemma_comma_scan(s, i + 1, depth - 1, quote);
        } else if s[i] == ',' && depth == 0 && !quote {
        } else {
            lemma_comma_scan(s, i + 1, depth, quote);
        }
    }
}

/// The position of the first comma of `s` at brace depth zero and outside
/// double quotes.
pub fn find_top_level_comma(s: &[char]) -> (r: Option<usize>)
    ensures
        r is None <==> comma_scan(s@, 0, 0, false) is None,
        r matches Some(c) ==> comma_scan(s@, 0, 0, false) == Some(c as int),
        r matches Some(c) ==> c < s@.len() && s@[c as int] == ',',
{
    proof {
        lemma_comma_scan(s@, 0, 0, false);
    }
    let n = s.len();
    let mut opened: usize = 0;
    let mut closed: usize = 0;
    let mut quote = false;
    let mut i: usize = 0;
    while i < n
        invariant
            n == s@.len(),
            opened <= i,
            closed <= i,
            comma_scan(s@, i as int, opened - closed, quote) == comma_scan(s@, 0, 0, false),
        decreases n + 2 - i,
    {
        let c = s[i];
        if c == '\\' {
            if n - i < 2 {
                assert(comma_scan(s@, i + 2, opened - closed, quote) is None);
                return None;
            }
            i += 2;
            continue;
        }
        if c == '"' && opened == closed {
            quote = !quote;
        } else if c == '{' && !quote {
            opened += 1;
        } else if c == '}' && !quote {
            closed += 1;
        } else if c == ',' && opened == closed && !quote {
            return Some(i);
        }
        i += 1;
    }
    None
}

// ---------------------------------------------------------------------------
// Command names and optional arguments
// ---------------------------------------------------------------------------

/// The first position at or after `i` that does not hold an ASCII letter.
pub open spec fn alpha_end(s: Seq<char>, i: int) -> int
    decreases s.len() - i,
{
    if 0 <= i < s.len() && is_ascii_alpha(s[i]) {
        alpha_end(s, i + 1)
    } else {
        i
    }
}

pub proof fn lemma_alpha_end(s: Seq<char>, i: int)
    requires
        0 <= i <= s.len(),
    ensures
        i <= alpha_end(s, i) <= s.len(),
        forall|k: int| i <= k < alpha_end(s, i) ==> is_ascii_alpha(#[trigger] s[k]),
        alpha_end(s, i) < s.len() ==> !is_ascii_alpha(s[alpha_end(s, i)]),
    decreases s.len() - i,
{
    if 0 <= i < s.len() && is_ascii_alpha(s[i]) {
        lemma_alpha_end(s, i + 1);
    }
}

/// Advances past ASCII letters starting at `i`.
pub fn alpha_end_at(s: &[char], i: usize) -> (r: usize)
    requires
        i <= s@.len(),
    ensures
        r == alpha_end(s@, i as int),
        i <= r <= s@.len(),
{
    proof {
        lemma_alpha_end(s@, i as int);
    }
    let mut j = i;
    while j < s.len() && is_alpha(s[j])
        invariant
            i <= j <= s@.len(),
            alpha_end(s@, j as int) == alpha_end(s@, i as int),
        decreases s@.len() - j,
    {
        j += 1;
    }
    j
}

/// Skips whitespace and bracketed optional arguments `[...]` from `j`;
/// an unclosed `[` stops the skipping at that bracket.
pub open spec fn skip_opt_args(s: Seq<char>, j: int) -> int
    decreases s.len() - j,
{
    let k = skip_ws_spec(s, j);
    if 0 <= j && 0 <= k < s.len() && s[k] == '[' {
        match find_matching_spec(s, k, '[', ']') {
            Some(c) => {
                proof {
                    lemma_skip_ws_spec(s, j);
                    lemma_find_matching(s, k, '[', ']');
                }
                skip_opt_args(s, c + 1)
            },
            None => k,
        }
    } else {
        k
    }
}

pub proof fn lemma_skip_opt_args(s: Seq<char>, j: int)
    requires
        0 <= j <= s.len(),
    ensures
        j <= skip_opt_args(s, j) <= s.len(),
    decreases s.len() - j,
{
    lemma_skip_ws_spec(s, j);
    let k = skip_ws_spec(s, j);
    if 0 <= k < s.len() && s[k] == '[' {
        lemma_find_matching(s, k, '[', ']');
        if let Some(c) = find_matching_spec(s, k, '[', ']') {
            lemma_skip_opt_args(s, c + 1);
        }
    }
}

/// Skips whitespace and optional `[...]` arguments (see `skip_opt_args`).
pub fn skip_optional_args(s: &[char], j0: usize) -> (r: usize)
    requires
        j0 <= s@.len(),
    ensures
        r == skip_opt_args(s@, j0 as int),
        j0 <= r <= s@.len(),
{
    proof {
        lemma_skip_opt_args(s@, j0 as int);
    }
    let mut j = j0;
    loop
        invariant
            j0 <= j <= s@.len(),
            skip_opt_args(s@, j as int) == skip_opt_args(s@, j0 as int),
        decreases s@.len() - j,
    {
        let k = skip_ws_chars(s, j);
        proof {
            lemma_skip_ws_spec(s@, j as int);
        }
        if k < s.len() && s[k] == '[' {
            match find_matching(s, k, '[', ']') {
                Some(c) => {
                    assert(skip_opt_args(s@, j as int) == skip_opt_args(s@, c + 1));
                    j = c + 1;
                },
                None => {
                    return k;
                },
            }
        } else {
            return k;
        }
    }
}

// ---------------------------------------------------------------------------
// Brace arguments of a command
// ---------------------------------------------------------------------------

/// The brace arguments of every `\target[...]{arg}` in `s` from `i` on.
pub open spec fn cmd_args_scan(s: Seq<char>, i: int, target: Seq<char>) -> Seq<Seq<char>>
    decreases s.len() - i,
{
    if i < 0 || i >= s.len() {
        seq![]
    } else if s[i] != '\\' {
        cmd_args_scan(s, i + 1, target)
    } else {
        let e = alpha_end(s, i + 1);
        if e == i + 1 {
            cmd_args_scan(s, i + 1, target)
        } else if s.subrange(i + 1, e) != target {
            proof {
                lemma_alpha_end(s, i + 1);
            }
            cmd_args_scan(s, e, target)
        } else {
            proof {
                lemma_alpha_end(s, i + 1);
                lemma_skip_opt_args(s, e);
            }
            let j = skip_opt_args(s, e);
            if j < s.len() && s[j] == '{' {
                match find_matching_spec(s, j, '{', '}') {
                    Some(c) => {
                        proof {
                            lemma_find_matching(s, j, '{', '}');
                        }
                        seq![s.subrange(j + 1, c)] + cmd_args_scan(s, c + 1, target)
                    },
                    None => cmd_args_scan(s, e, target),
                }
            } else {
                cmd_args_scan(s, e, target)
            }
        }
    }
}

/// The contents of the brace argument of every occurrence of the command
/// `\target` in `tex`, after optional `[...]` arguments, in order.
pub fn find_command_brace_args(tex: &[char], target: &[char]) -> (r: Vec<Vec<char>>)
    ensures
        r@.len() == cmd_args_scan(tex@, 0, target@).len(),
        forall|k: int|
            0 <= k < r@.len() ==> (#[trigger] r@[k])@ == cmd_args_scan(tex@, 0, target@)[k],
{
    let mut out: Vec<Vec<char>> = Vec::new();
    let n = tex.len();
    let mut i: usize = 0;
    let ghost mut done: Seq<Seq<char>> = seq![];
    while i < n
        invariant
            n == tex@.len(),
            i <= n,
            out@.len() == done.len(),
            forall|k: int| 0 <= k < out@.len() ==> (#[trigger] out@[k])@ == done[k],
            done + cmd_args_scan(tex@, i as int, target@) == cmd_args_scan(tex@, 0, target@),
        decreases n - i,
    {
        if tex[i] != '\\' {
            assert(cmd_args_scan(tex@, i as int, target@) == cmd_args_scan(tex@, i + 1, target@));
            i += 1;
            continue;
        }
        let start = i;
        let e = alpha_end_at(tex, i + 1);
        if e == start + 1 {
            assert(cmd_args_scan(tex@, i as int, target@) == cmd_args_scan(tex@, i + 1, target@));
            i = start + 1;
            continue;
        }
        let cmd = copy_range(tex, start + 1, e);
        if !crate::chars::chars_eq(cmd.as_slice(), target) {
            assert(cmd_args_scan(tex@, i as int, target@) == cmd_args_scan(tex@, e as int, target@));
            i = e;
            continue;
        }
        let j = skip_optional_args(tex, e);
        let ghost here = cmd_args_scan(tex@, i as int, target@);
        i = e;
        if j < n && tex[j] == '{' {
            if let Some(c) = find_matching(tex, j, '{', '}') {
                let arg = copy_range(tex, j + 1, c);
                assert(here == seq![arg@] + cmd_args_scan(tex@, c + 1, target@));
                proof {
                    assert(done.push(arg@) + cmd_args_scan(tex@, c + 1, target@) =~= done + (
                    seq![arg@] + cmd_args_scan(tex@, c + 1, target@)));
                    done = done.push(arg@);
                }
                out.push(arg);
                i = c + 1;
            } else {
                assert(here == cmd_args_scan(tex@, e as int, target@));
            }
        } else {
            assert(here == cmd_args_scan(tex@, e as int, target@));
        }
    }
    assert(done + cmd_args_scan(tex@, n as int, target@) =~= done);
    out
}

} // verus!
