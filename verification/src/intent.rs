//! What the rule lists of the tools are, stated with the names themselves:
//! the environments kept as they are, the abbreviations that end no
//! sentence, the stop words a title component skips, the citation commands,
//! and which name field a key is made from.
use vstd::prelude::*;
use crate::text::{has_prefix, has_suffix, contains_text, occurs_at, trim, trim_start, collapse};
use crate::chars::{ascii_lower_seq, text_lowercase};
use crate::bib::{EntryView, assoc_get};
use crate::keys::{
    make_new_key_spec, entry_signature_spec, author_component_spec, title_component_spec,
    year_or_default, words_from_latex_spec, first_non_stop, latex_plain_spec,
};
use crate::sentences::{is_abbreviation_spec, abbrev_token, trim_end_by, sent_scan};
use crate::fixtex::{
    TexState, step, is_ignored_env_spec, env_at_start, end_env_text, has_unescaped_percent,
};
use crate::cite::is_cite_cmd_spec;

verus! {

// ---------------------------------------------------------------------------
// Environments kept as they are
// ---------------------------------------------------------------------------

/// The environments whose lines are copied unchanged: mathematics, tabulars,
/// pictures, code and the bibliography.
pub open spec fn kept_environment(env: Seq<char>) -> bool {
    ||| env == "equation"@ ||| env == "equation*"@
    ||| env == "align"@ ||| env == "align*"@
    ||| env == "alignat"@ ||| env == "alignat*"@
    ||| env == "gather"@ ||| env == "gather*"@
    ||| env == "multline"@ ||| env == "multline*"@
    ||| env == "flalign"@ ||| env == "flalign*"@
    ||| env == "split"@ ||| env == "cases"@ ||| env == "array"@
    ||| env == "tabular"@ ||| env == "tabular*"@ ||| env == "tabularx"@ ||| env == "longtable"@
    ||| env == "tikzpicture"@ ||| env == "picture"@
    ||| env == "verbatim"@ ||| env == "lstlisting"@ ||| env == "minted"@
    ||| env == "algorithm"@ ||| env == "algorithmic"@ ||| env == "algorithm2e"@
    ||| env == "thebibliography"@
}

/// The formatter keeps exactly the listed environments as they are.
pub proof fn law_kept_environments(env: Seq<char>)
    ensures
        is_ignored_env_spec(env) <==> kept_environment(env),
{
}

/// A line that opens a listed environment (and does not close it on the
/// same line, and holds no comment) switches the formatter to copying.
pub proof fn law_kept_environment_opens(st: TexState, line: Seq<char>, env: Seq<char>)
    requires
        st.ignored is None,
        st.math is None,
        kept_environment(env),
        env_at_start(trim_start(line), "\\begin{"@) == Some(env),
        !contains_text(line, end_env_text(env)),
        !has_unescaped_percent(line),
    ensures
        step(st, line).ignored == Some(env),
{
    reveal_strlit("\\begin{");
    reveal_strlit("%");
    reveal_strlit("\\[");
    reveal_strlit("$$");
    let t = trim_start(line);
    assert(has_prefix(t, "\\begin{"@));
    assert(t.take(7)[0] == t[0] && t.take(7)[1] == t[1]);
    assert(t[0] == '\\' && t[1] == 'b');
    if has_prefix(t, "%"@) {
        assert(t.take(1)[0] == t[0]);
    }
    if has_prefix(t, "\\["@) {
        assert(t.take(2)[1] == t[1]);
    }
    if has_prefix(t, "$$"@) {
        assert(t.take(2)[0] == t[0]);
    }
}

/// Inside a kept environment every line that does not start with its
/// `\end` is written out exactly as it came in.
pub proof fn law_kept_environment_lines_verbatim(st: TexState, line: Seq<char>)
    requires
        st.ignored is Some,
        env_at_start(trim_start(line), "\\end{"@) != Some(st.ignored->0),
    ensures
        step(st, line).out == st.out + line + seq!['\n'],
        step(st, line).para == st.para,
{
}

// ---------------------------------------------------------------------------
// Abbreviations
// ---------------------------------------------------------------------------

/// The abbreviations after which a `.` ends no sentence, in lower case and
/// without their final `.`.
pub open spec fn listed_abbreviation(t: Seq<char>) -> bool {
    ||| t == "e.g"@ ||| t == "i.e"@ ||| t == "cf"@ ||| t == "vs"@ ||| t == "etc"@
    ||| t == "fig"@ ||| t == "figs"@ ||| t == "eq"@ ||| t == "eqs"@
    ||| t == "sec"@ ||| t == "secs"@ ||| t == "ch"@ ||| t == "chap"@ ||| t == "app"@
    ||| t == "ref"@ ||| t == "refs"@ ||| t == "no"@ ||| t == "nos"@
    ||| t == "dr"@ ||| t == "mr"@ ||| t == "mrs"@ ||| t == "ms"@ ||| t == "prof"@
    ||| t == "inc"@ ||| t == "ltd"@ ||| t == "jr"@ ||| t == "sr"@
}

/// The sentence splitter knows exactly the listed abbreviations.
pub proof fn law_known_abbreviations(t: Seq<char>)
    ensures
        crate::sentences::is_known_abbrev(t) <==> listed_abbreviation(t),
{
}

/// A `.` right after a listed abbreviation (compared in lower case) is an
/// abbreviation's dot, and the sentence scan goes on past it: it ends no
/// sentence.
pub proof fn law_abbreviation_ends_no_sentence(s: Seq<char>, i: int, start: int)
    requires
        0 <= i < s.len(),
        s[i] == '.',
        listed_abbreviation(text_lowercase(trim_end_by(abbrev_token(s, i), |c: char| c == '.'))),
    ensures
        is_abbreviation_spec(s, i),
        sent_scan(s, i, start) == sent_scan(s, i + 1, start),
{
}

// ---------------------------------------------------------------------------
// Stop words
// ---------------------------------------------------------------------------

/// The short words that never make the title part of a key.
pub open spec fn listed_stop_word(w: Seq<char>) -> bool {
    ||| w == "a"@ ||| w == "an"@ ||| w == "the"@ ||| w == "on"@ ||| w == "of"@
    ||| w == "for"@ ||| w == "and"@ ||| w == "or"@ ||| w == "in"@ ||| w == "to"@
    ||| w == "with"@ ||| w == "by"@ ||| w == "from"@
}

/// The title part skips exactly the listed stop words.
pub proof fn law_stop_words(w: Seq<char>)
    ensures
        crate::keys::is_stop_word(w) <==> listed_stop_word(w),
{
}

proof fn lemma_first_non_stop(ws: Seq<Seq<char>>)
    ensures
        (forall|k: int| 0 <= k < ws.len() ==> listed_stop_word(#[trigger] ws[k])) ==> first_non_stop(ws) is None,
        (exists|k: int| 0 <= k < ws.len() && !listed_stop_word(#[trigger] ws[k])) ==> exists|j: int|
            0 <= j < ws.len() && first_non_stop(ws) == Some(#[trigger] ws[j]) && !listed_stop_word(ws[j])
                && forall|i: int| 0 <= i < j ==> listed_stop_word(#[trigger] ws[i]),
    decreases ws.len(),
{
    if ws.len() > 0 {
        let d = ws.drop_first();
        lemma_first_non_stop(d);
        if listed_stop_word(ws[0]) {
            if forall|k: int| 0 <= k < ws.len() ==> listed_stop_word(#[trigger] ws[k]) {
                assert forall|k: int| 0 <= k < d.len() implies listed_stop_word(#[trigger] d[k]) by {
                    assert(d[k] == ws[k + 1]);
                }
            }
            if exists|k: int| 0 <= k < ws.len() && !listed_stop_word(#[trigger] ws[k]) {
                let k = choose|k: int| 0 <= k < ws.len() && !listed_stop_word(#[trigger] ws[k]);
                assert(k > 0);
                assert(d[k - 1] == ws[k]);
                let j = choose|j: int|
                    0 <= j < d.len() && first_non_stop(d) == Some(#[trigger] d[j]) && !listed_stop_word(d[j])
                        && forall|i: int| 0 <= i < j ==> listed_stop_word(#[trigger] d[i]);
                assert(ws[j + 1] == d[j]);
                assert forall|i: int| 0 <= i < j + 1 implies listed_stop_word(#[trigger] ws[i]) by {
                    if i > 0 {
                        assert(ws[i] == d[i - 1]);
                    }
                }
            }
        } else {
            assert(first_non_stop(ws) == Some(ws[0]));
        }
    }
}

/// The title part of a key is the first word of the title that is not a
/// listed stop word; it is `untitled` only when every word is one.
pub proof fn law_title_skips_stop_words(raw: Seq<char>)
    ensures
        (forall|k: int|
            0 <= k < words_from_latex_spec(raw).len() ==> listed_stop_word(
                #[trigger] words_from_latex_spec(raw)[k],
            )) ==> title_component_spec(raw) == "untitled"@,
        (exists|k: int|
            0 <= k < words_from_latex_spec(raw).len() && !listed_stop_word(
                #[trigger] words_from_latex_spec(raw)[k],
            )) ==> exists|j: int|
            0 <= j < words_from_latex_spec(raw).len() && title_component_spec(raw)
                == #[trigger] words_from_latex_spec(raw)[j] && !listed_stop_word(words_from_latex_spec(raw)[j])
                && forall|i: int| 0 <= i < j ==> listed_stop_word(#[trigger] words_from_latex_spec(raw)[i]),
{
    lemma_first_non_stop(words_from_latex_spec(raw));
}

// ---------------------------------------------------------------------------
// Citation commands
// ---------------------------------------------------------------------------

proof fn lemma_prefix_contains(c: Seq<char>, p: Seq<char>)
    requires
        has_prefix(c, p),
    ensures
        contains_text(c, p),
{
    assert(c.subrange(0, p.len() as int) =~= c.take(p.len() as int));
    assert(occurs_at(c, p, 0));
}

proof fn lemma_suffix_contains(c: Seq<char>, p: Seq<char>)
    requires
        has_suffix(c, p),
    ensures
        contains_text(c, p),
{
    assert(c.subrange(c.len() - p.len(), c.len() as int) =~= c.skip(c.len() - p.len()));
    assert(occurs_at(c, p, c.len() - p.len()));
}

/// A command is a citation command exactly when its name, in lower case,
/// contains `cite` and does not start with `declare`, `new`, `renew` or
/// `provide` (which define commands).
pub proof fn law_cite_commands(cmd: Seq<char>)
    ensures
        is_cite_cmd_spec(cmd) <==> ({
            let c = ascii_lower_seq(cmd);
            &&& contains_text(c, "cite"@)
            &&& !has_prefix(c, "declare"@)
            &&& !has_prefix(c, "new"@)
            &&& !has_prefix(c, "renew"@)
            &&& !has_prefix(c, "provide"@)
        }),
{
    reveal_strlit("cite");
    reveal_strlit("cites");
    reveal_strlit("nocite");
    let c = ascii_lower_seq(cmd);
    if c == "nocite"@ {
        assert(c.subrange(2, 6) =~= "cite"@);
        assert(occurs_at(c, "cite"@, 2));
    }
    if has_prefix(c, "cite"@) {
        lemma_prefix_contains(c, "cite"@);
    }
    if has_suffix(c, "cite"@) {
        lemma_suffix_contains(c, "cite"@);
    }
    if has_suffix(c, "cites"@) {
        let k = c.len() - 5;
        assert(c.skip(k) == "cites"@);
        assert(c.subrange(k, k + 4) =~= "cite"@) by {
            assert forall|j: int| 0 <= j < 4 implies c.subrange(k, k + 4)[j] == "cite"@[j] by {
                assert(c.skip(k)[j] == c[k + j]);
            }
        }
        assert(occurs_at(c, "cite"@, k));
    }
}

// ---------------------------------------------------------------------------
// Which name a key is made from
// ---------------------------------------------------------------------------

/// The raw title of an entry (empty when it has none).
pub open spec fn raw_title(e: EntryView) -> Seq<char> {
    match assoc_get(e.fields, "title"@) {
        Some(v) => v,
        None => seq![],
    }
}

/// The author part of a key comes from the `author` field; the `editor`
/// field is used only when there is no author, and with neither the author
/// part is made from an empty name.
pub proof fn law_key_uses_author_before_editor(e: EntryView)
    ensures
        assoc_get(e.fields, "author"@) matches Some(a) ==> make_new_key_spec(e) == author_component_spec(a)
            + title_component_spec(raw_title(e)) + year_or_default(e),
        assoc_get(e.fields, "author"@) is None ==> (assoc_get(e.fields, "editor"@) matches Some(ed)
            ==> make_new_key_spec(e) == author_component_spec(ed) + title_component_spec(raw_title(e))
            + year_or_default(e)),
        assoc_get(e.fields, "author"@) is None && assoc_get(e.fields, "editor"@) is None
            ==> make_new_key_spec(e) == author_component_spec(seq![]) + title_component_spec(raw_title(e))
            + year_or_default(e),
{
}

/// The author part of a signature comes from the `author` field too; the
/// `editor` field is used only when there is no author.
pub proof fn law_signature_uses_author_before_editor(e: EntryView)
    requires
        trim(latex_plain_spec(raw_title(e))).len() > 0,
        assoc_get(e.fields, "title"@) is Some,
    ensures
        assoc_get(e.fields, "author"@) matches Some(a) ==> entry_signature_spec(e) == collapse(
            latex_plain_spec(a),
        ) + seq!['|'] + collapse(latex_plain_spec(raw_title(e))) + seq!['|'] + year_or_default(e),
        assoc_get(e.fields, "author"@) is None ==> (assoc_get(e.fields, "editor"@) matches Some(ed)
            ==> entry_signature_spec(e) == collapse(latex_plain_spec(ed)) + seq!['|'] + collapse(
            latex_plain_spec(raw_title(e)),
        ) + seq!['|'] + year_or_default(e)),
{
}

} // verus!
