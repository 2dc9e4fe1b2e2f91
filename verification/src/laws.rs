//! Properties that hold across the functions of the library.
use vstd::prelude::*;
use crate::chars::{
    is_ws, is_ascii_lower, is_ascii_digit, is_ascii_alnum, ascii_lower, ascii_lower_seq,
};
use crate::text::{
    words, join, collapse, lemma_words_nonempty, trim, trim_start, trim_end, lead_ws, trail_ws,
    lemma_lead_ws, lemma_trail_ws, skip_ws_spec, lemma_skip_ws_spec, split_on, lemma_split_on_len,
};
use crate::fixtex::{
    TexState, step, run, process_spec, paragraph_text, para_pieces, sentence_lines,
    take_prefix_spec, item_prefix_end, bracket_scan, lemma_bracket_scan, flush_and_copy,
    flush_and_blank, ends_blank, lines_of, strip_cr, starts_command_spec, spaces, indent_text,
    flushed, caption_parts, caption_sentences, caption_text, is_split_caption,
};
use crate::scan::find_matching_spec;
use crate::sentences::{
    sent_scan, split_sentences_spec, closers_end, ws_end, is_closer, is_mark, lemma_closers_end,
    lemma_ws_end, piece,
};
use crate::bib::EntryView;
use crate::keys::{
    entry_signature_spec, unique_key_spec, make_new_key_spec, lemma_unique_key_fresh, plain_piece,
    plain_scan, unwrap_spec, words_from_latex_spec, lemma_unicode_alpha_end, author_component_spec,
    title_component_spec, first_non_stop, year_or_default, entry_year_spec, four_digits_from,
    lemma_four_digits_from, author_field,
};
use crate::fold::fold_spec;
use crate::bib::assoc_get;
use crate::cite::{sort_by_year, year_of, insert_pos};
use crate::fixbib::{
    first_in_group, same_group, chosen_spec, group_used_spec, is_kept, kept_upto, kept_spec,
    new_keys_spec, lemma_first_in_group, renames_upto, last_with_key, kept_index, lemma_kept_index,
    lemma_new_keys_len, all_entries, all_cited, keep_all_spec, fix_kept, fix_new_keys, fix_renames,
};

verus! {

// ---------------------------------------------------------------------------
// Duplicates and unused entries
// ---------------------------------------------------------------------------

proof fn lemma_first_in_group_same_sig(
    es: Seq<EntryView>,
    used: Seq<Seq<char>>,
    a: int,
    b: int,
    j: int,
    want_cited: bool,
)
    requires
        0 <= a < es.len(),
        0 <= b < es.len(),
        entry_signature_spec(es[a]) == entry_signature_spec(es[b]),
    ensures
        first_in_group(es, used, a, j, want_cited) == first_in_group(es, used, b, j, want_cited),
    decreases es.len() - j,
{
    if 0 <= j < es.len() {
        lemma_first_in_group_same_sig(es, used, a, b, j + 1, want_cited);
    }
}

/// Entries with the same signature have the same representative.
pub proof fn lemma_chosen_same_sig(es: Seq<EntryView>, used: Seq<Seq<char>>, a: int, b: int)
    requires
        0 <= a < es.len(),
        0 <= b < es.len(),
        entry_signature_spec(es[a]) == entry_signature_spec(es[b]),
    ensures
        chosen_spec(es, used, a) == chosen_spec(es, used, b),
        forall|keep_all: bool| group_used_spec(es, used, keep_all, a) == group_used_spec(es, used, keep_all, b),
{
    lemma_first_in_group_same_sig(es, used, a, b, 0, true);
    lemma_first_in_group_same_sig(es, used, a, b, 0, false);
    lemma_first_in_group(es, used, a, 0, false);
    lemma_first_in_group(es, used, b, 0, false);
}

proof fn lemma_kept_upto_props(es: Seq<EntryView>, used: Seq<Seq<char>>, keep_all: bool, k: int)
    requires
        0 <= k <= es.len(),
    ensures
        forall|t: int|
            0 <= t < kept_upto(es, used, keep_all, k).len() ==> 0 <= #[trigger] kept_upto(
                es,
                used,
                keep_all,
                k,
            )[t] < k && is_kept(es, used, keep_all, kept_upto(es, used, keep_all, k)[t]),
        forall|t: int, u: int|
            0 <= t < u < kept_upto(es, used, keep_all, k).len() ==> #[trigger] kept_upto(
                es,
                used,
                keep_all,
                k,
            )[t] < #[trigger] kept_upto(es, used, keep_all, k)[u],
        forall|r: int| 0 <= r < k && is_kept(es, used, keep_all, r) ==> kept_upto(es, used, keep_all, k).contains(r),
    decreases k,
{
    if k > 0 {
        lemma_kept_upto_props(es, used, keep_all, k - 1);
        let prev = kept_upto(es, used, keep_all, k - 1);
        let cur = kept_upto(es, used, keep_all, k);
        assert forall|t: int| 0 <= t < cur.len() implies 0 <= #[trigger] cur[t] < k && is_kept(es, used, keep_all, cur[t]) by {
            if t < prev.len() {
                assert(cur[t] == prev[t]);
            }
        }
        assert forall|t: int, u: int| 0 <= t < u < cur.len() implies #[trigger] cur[t] < #[trigger] cur[u] by {
            if u < prev.len() {
                assert(cur[t] == prev[t]);
                assert(cur[u] == prev[u]);
            } else {
                assert(cur[t] == prev[t]);
            }
        }
        assert forall|r: int| 0 <= r < k && is_kept(es, used, keep_all, r) implies cur.contains(r) by {
            if r < k - 1 {
                let w = choose|w: int| 0 <= w < prev.len() && prev[w] == r;
                assert(cur[w] == r);
            } else {
                assert(cur[cur.len() - 1] == r);
            }
        }
    }
}

/// No two kept entries are duplicates of each other: their signatures differ.
pub proof fn law_kept_entries_distinct(
    es: Seq<EntryView>,
    used: Seq<Seq<char>>,
    keep_all: bool,
    a: int,
    b: int,
)
    requires
        0 <= a < b < kept_spec(es, used, keep_all).len(),
    ensures
        entry_signature_spec(es[kept_spec(es, used, keep_all)[a]]) != entry_signature_spec(
            es[kept_spec(es, used, keep_all)[b]],
        ),
{
    let kept = kept_spec(es, used, keep_all);
    lemma_kept_upto_props(es, used, keep_all, es.len() as int);
    let ra = kept[a];
    let rb = kept[b];
    assert(ra < rb);
    if entry_signature_spec(es[ra]) == entry_signature_spec(es[rb]) {
        lemma_chosen_same_sig(es, used, ra, rb);
    }
}

/// Every entry of a used group is represented among the kept entries by an
/// entry with the same signature; with `keep_all` every entry is.
pub proof fn law_used_groups_represented(
    es: Seq<EntryView>,
    used: Seq<Seq<char>>,
    keep_all: bool,
    i: int,
)
    requires
        0 <= i < es.len(),
        group_used_spec(es, used, keep_all, i),
    ensures
        exists|t: int|
            0 <= t < kept_spec(es, used, keep_all).len() && entry_signature_spec(
                es[#[trigger] kept_spec(es, used, keep_all)[t]],
            ) == entry_signature_spec(es[i]),
{
    lemma_first_in_group(es, used, i, 0, false);
    lemma_first_in_group(es, used, i, 0, true);
    let c = chosen_spec(es, used, i);
    assert(0 <= c < es.len() && same_group(es, i, c));
    lemma_chosen_same_sig(es, used, i, c);
    assert(is_kept(es, used, keep_all, c));
    lemma_kept_upto_props(es, used, keep_all, es.len() as int);
    let kept = kept_spec(es, used, keep_all);
    let t = choose|t: int| 0 <= t < kept.len() && kept[t] == c;
    assert(entry_signature_spec(es[kept[t]]) == entry_signature_spec(es[i]));
}

/// Unless all entries are kept, every kept entry is cited by its key.
pub proof fn law_kept_entries_cited(es: Seq<EntryView>, used: Seq<Seq<char>>, t: int)
    requires
        0 <= t < kept_spec(es, used, false).len(),
    ensures
        used.contains(es[kept_spec(es, used, false)[t]].old_key),
{
    lemma_kept_upto_props(es, used, false, es.len() as int);
    let r = kept_spec(es, used, false)[t];
    lemma_first_in_group(es, used, r, 0, true);
}

// ---------------------------------------------------------------------------
// New keys
// ---------------------------------------------------------------------------

/// The new keys of the kept entries are pairwise different.
pub proof fn law_new_keys_distinct(es: Seq<EntryView>, kept: Seq<int>)
    ensures
        new_keys_spec(es, kept).no_duplicates(),
    decreases kept.len(),
{
    if kept.len() > 0 {
        law_new_keys_distinct(es, kept.drop_last());
        let prev = new_keys_spec(es, kept.drop_last());
        let k = unique_key_spec(make_new_key_spec(es[kept.last()]), prev);
        lemma_unique_key_fresh(make_new_key_spec(es[kept.last()]), prev);
        let cur = prev.push(k);
        assert forall|i: int, j: int| 0 <= i < cur.len() && 0 <= j < cur.len() && i != j implies cur[i] != cur[j] by {
            if i < prev.len() && j < prev.len() {
            } else if i == prev.len() {
                assert(prev[j] == cur[j]);
            } else {
                assert(prev[i] == cur[i]);
            }
        }
    }
}

// ---------------------------------------------------------------------------
// Sorting by year
// ---------------------------------------------------------------------------

/// The keys are in order of year.
pub open spec fn sorted_by_year(keys: Seq<Seq<char>>, ys: Seq<(Seq<char>, i32)>) -> bool {
    forall|i: int, j: int| 0 <= i < j < keys.len() ==> year_of(ys, #[trigger] keys[i]) <= year_of(ys, #[trigger] keys[j])
}

proof fn lemma_insert_pos(sorted: Seq<Seq<char>>, ys: Seq<(Seq<char>, i32)>, y: i32)
    ensures
        insert_pos(sorted, ys, y) <= sorted.len(),
        forall|i: int| 0 <= i < insert_pos(sorted, ys, y) ==> year_of(ys, #[trigger] sorted[i]) <= y,
        insert_pos(sorted, ys, y) < sorted.len() ==> year_of(ys, sorted[insert_pos(sorted, ys, y) as int]) > y,
    decreases sorted.len(),
{
    if sorted.len() > 0 && year_of(ys, sorted[0]) <= y {
        lemma_insert_pos(sorted.drop_first(), ys, y);
        assert forall|i: int| 0 <= i < insert_pos(sorted, ys, y) implies year_of(ys, #[trigger] sorted[i]) <= y by {
            if i > 0 {
                assert(sorted[i] == sorted.drop_first()[i - 1]);
            }
        }
        if insert_pos(sorted, ys, y) < sorted.len() {
            assert(sorted[insert_pos(sorted, ys, y) as int] == sorted.drop_first()[insert_pos(
                sorted.drop_first(),
                ys,
                y,
            ) as int]);
        }
    }
}

/// Citations sorted by year are in order of year and hold the same keys
/// as many times as before.
pub proof fn law_sort_by_year(keys: Seq<Seq<char>>, ys: Seq<(Seq<char>, i32)>)
    ensures
        sorted_by_year(sort_by_year(keys, ys), ys),
        sort_by_year(keys, ys).to_multiset() == keys.to_multiset(),
    decreases keys.len(),
{
    broadcast use vstd::seq_lib::group_to_multiset_ensures;
    if keys.len() == 0 {
        assert(sort_by_year(keys, ys) =~= keys);
    } else {
        law_sort_by_year(keys.drop_last(), ys);
        let sorted = sort_by_year(keys.drop_last(), ys);
        let x = keys.last();
        let y = year_of(ys, x);
        lemma_insert_pos(sorted, ys, y);
        let p = insert_pos(sorted, ys, y) as int;
        let res = sorted.insert(p, x);
        assert(res == sort_by_year(keys, ys));
        assert forall|i: int, j: int| 0 <= i < j < res.len() implies year_of(ys, #[trigger] res[i]) <= year_of(ys, #[trigger] res[j]) by {
            if j < p {
                assert(res[i] == sorted[i] && res[j] == sorted[j]);
            } else if j == p {
                assert(res[i] == sorted[i]);
            } else if i < p {
                assert(res[i] == sorted[i] && res[j] == sorted[j - 1]);
                if p < sorted.len() {
                    assert(year_of(ys, sorted[p]) > y);
                    if j - 1 > p {
                        assert(year_of(ys, sorted[p]) <= year_of(ys, sorted[j - 1]));
                    }
                }
            } else if i == p {
                assert(res[j] == sorted[j - 1]);
                assert(year_of(ys, sorted[p]) > y);
                if j - 1 > p {
                    assert(year_of(ys, sorted[p]) <= year_of(ys, sorted[j - 1]));
                }
            } else {
                assert(res[i] == sorted[i - 1] && res[j] == sorted[j - 1]);
            }
        }
        assert(res.remove(p) =~= sorted);
        assert(res[p] == x);
        assert(res.remove(p).to_multiset() =~= res.to_multiset().remove(x));
        assert(keys.drop_last().push(x) =~= keys);
        assert(keys.to_multiset() =~= keys.drop_last().to_multiset().insert(x));
        assert(res.contains(x));
        assert(res.to_multiset().count(x) > 0);
        assert(res.to_multiset() =~= res.to_multiset().remove(x).insert(x));
    }
}

// ---------------------------------------------------------------------------
// Collapsing whitespace
// ---------------------------------------------------------------------------

/// A collapsed text has no whitespace but single spaces between words, and
/// none at its ends.
pub open spec fn is_collapsed(s: Seq<char>) -> bool {
    &&& forall|i: int| 0 <= i < s.len() && is_ws(#[trigger] s[i]) ==> s[i] == ' '
    &&& s.len() > 0 ==> s[0] != ' ' && s.last() != ' '
    &&& forall|i: int| 0 <= i < s.len() - 1 && #[trigger] s[i] == ' ' ==> s[i + 1] != ' '
}

proof fn lemma_words_push_ws(s: Seq<char>, c: char)
    requires
        is_ws(c),
    ensures
        words(s.push(c)) == words(s),
{
    assert(s.push(c).drop_last() =~= s);
}

proof fn lemma_words_of_word_run(prefix: Seq<char>, w: Seq<char>)
    requires
        w.len() > 0,
        forall|i: int| 0 <= i < w.len() ==> !is_ws(#[trigger] w[i]),
        prefix.len() == 0 || is_ws(prefix.last()),
    ensures
        words(prefix + w) == words(prefix).push(w),
    decreases w.len(),
{
    if w.len() == 1 {
        assert((prefix + w).drop_last() =~= prefix);
        assert((prefix + w).last() == w[0]);
        assert(seq![w[0]] =~= w);
    } else {
        let w0 = w.drop_last();
        lemma_words_of_word_run(prefix, w0);
        assert((prefix + w).drop_last() =~= prefix + w0);
        assert((prefix + w)[(prefix + w).len() - 2] == w0.last());
        assert(w0.push(w.last()) =~= w);
    }
}

proof fn lemma_join_shape(ws: Seq<Seq<char>>)
    requires
        forall|i: int| 0 <= i < ws.len() ==> (#[trigger] ws[i]).len() > 0,
        forall|i: int, j: int| 0 <= i < ws.len() && 0 <= j < ws[i].len() ==> !is_ws(#[trigger] ws[i][j]),
    ensures
        words(join(ws, seq![' '])) == ws,
        is_collapsed(join(ws, seq![' '])),
        ws.len() > 0 ==> join(ws, seq![' ']).len() > 0 && !is_ws(join(ws, seq![' ']).last()),
    decreases ws.len(),
{
    if ws.len() == 0 {
    } else if ws.len() == 1 {
        lemma_words_of_word_run(seq![], ws[0]);
        assert(Seq::<char>::empty() + ws[0] =~= ws[0]);
        assert(Seq::<Seq<char>>::empty().push(ws[0]) =~= ws);
    } else {
        let prev = ws.drop_last();
        lemma_join_shape(prev);
        let jp = join(prev, seq![' ']);
        let w = ws.last();
        lemma_words_push_ws(jp, ' ');
        assert(jp + seq![' '] =~= jp.push(' '));
        lemma_words_of_word_run(jp.push(' '), w);
        assert(jp + seq![' '] + w =~= jp.push(' ') + w);
        assert(prev.push(w) =~= ws);
        let j = join(ws, seq![' ']);
        assert(j == jp + seq![' '] + w);
        assert forall|i: int| 0 <= i < j.len() && is_ws(#[trigger] j[i]) implies j[i] == ' ' by {
            if i < jp.len() {
                assert(j[i] == jp[i]);
            } else if i > jp.len() {
                assert(j[i] == w[i - jp.len() - 1]);
            }
        }
        assert(j[0] == jp[0]);
        assert(j.last() == w.last());
        assert forall|i: int| 0 <= i < j.len() - 1 && #[trigger] j[i] == ' ' implies j[i + 1] != ' ' by {
            if i < jp.len() - 1 {
                assert(j[i] == jp[i] && j[i + 1] == jp[i + 1]);
            } else if i == jp.len() - 1 {
                assert(j[i] == jp.last());
            } else if i == jp.len() {
                assert(j[i + 1] == w[0]);
            } else {
                assert(j[i] == w[i - jp.len() - 1]);
            }
        }
    }
}

/// Collapsing whitespace keeps the words and leaves no whitespace but
/// single spaces between them; collapsing twice is collapsing once.
pub proof fn law_collapse(s: Seq<char>)
    ensures
        words(collapse(s)) == words(s),
        is_collapsed(collapse(s)),
        collapse(collapse(s)) == collapse(s),
{
    lemma_words_nonempty(s);
    lemma_join_shape(words(s));
}


// ---------------------------------------------------------------------------
// Renames
// ---------------------------------------------------------------------------

proof fn lemma_renames_prefix(
    es: Seq<EntryView>,
    used: Seq<Seq<char>>,
    kept: Seq<int>,
    nks: Seq<Seq<char>>,
    k: int,
    n: int,
)
    requires
        k <= n,
    ensures
        renames_upto(es, used, kept, nks, k).len() <= renames_upto(es, used, kept, nks, n).len(),
        forall|x: int|
            0 <= x < renames_upto(es, used, kept, nks, k).len() ==> renames_upto(es, used, kept, nks, n)[x]
                == #[trigger] renames_upto(es, used, kept, nks, k)[x],
    decreases n - k,
{
    if k < n {
        lemma_renames_prefix(es, used, kept, nks, k, n - 1);
        if n > 0 {
            let prev = renames_upto(es, used, kept, nks, n - 1);
            let cur = renames_upto(es, used, kept, nks, n);
            assert forall|x: int| 0 <= x < prev.len() implies cur[x] == prev[x] by {}
        }
    }
}

proof fn lemma_renames_targets(
    es: Seq<EntryView>,
    used: Seq<Seq<char>>,
    kept: Seq<int>,
    nks: Seq<Seq<char>>,
    k: int,
)
    requires
        nks.len() == kept.len(),
    ensures
        forall|x: int|
            0 <= x < renames_upto(es, used, kept, nks, k).len() ==> nks.contains(
                (#[trigger] renames_upto(es, used, kept, nks, k)[x]).1,
            ),
    decreases k,
{
    if k > 0 {
        lemma_renames_targets(es, used, kept, nks, k - 1);
        let prev = renames_upto(es, used, kept, nks, k - 1);
        let cur = renames_upto(es, used, kept, nks, k);
        lemma_kept_index(kept, chosen_spec(es, used, k - 1));
        assert forall|x: int| 0 <= x < cur.len() implies nks.contains((#[trigger] cur[x]).1) by {
            if x < prev.len() {
                assert(cur[x] == prev[x]);
            } else {
                let t = kept_index(kept, chosen_spec(es, used, k - 1))->Some_0;
                assert(cur[x].1 == nks[t]);
            }
        }
    }
}

/// Every rename leads to the new key of a kept entry.
pub proof fn law_renames_lead_to_new_keys(
    texs: Seq<Seq<char>>,
    raws: Seq<Seq<char>>,
    no_delete: bool,
    x: int,
)
    requires
        0 <= x < fix_renames(texs, raws, no_delete).len(),
    ensures
        fix_new_keys(texs, raws, no_delete).contains(fix_renames(texs, raws, no_delete)[x].1),
{
    let es = all_entries(raws);
    let kept = fix_kept(texs, raws, no_delete);
    lemma_new_keys_len(es, kept);
    lemma_renames_targets(es, all_cited(texs), kept, fix_new_keys(texs, raws, no_delete), es.len() as int);
}

proof fn lemma_last_with_same_key(es: Seq<EntryView>, i: int) -> (j: int)
    requires
        0 <= i < es.len(),
    ensures
        i <= j < es.len(),
        es[j].old_key == es[i].old_key,
        last_with_key(es, j),
    decreases es.len() - i,
{
    if last_with_key(es, i) {
        i
    } else {
        let k = choose|k: int| i < k < es.len() && (#[trigger] es[k]).old_key == es[i].old_key;
        lemma_last_with_same_key(es, k)
    }
}

proof fn lemma_first_in_group_found(
    es: Seq<EntryView>,
    used: Seq<Seq<char>>,
    i: int,
    m: int,
    k: int,
    want_cited: bool,
)
    requires
        0 <= m <= k < es.len(),
        same_group(es, i, k),
        !want_cited || used.contains(es[k].old_key),
    ensures
        first_in_group(es, used, i, m, want_cited) is Some,
    decreases k - m,
{
    if m < k {
        lemma_first_in_group_found(es, used, i, m + 1, k, want_cited);
    }
}

/// A cited key that some entry has is renamed; when all entries are kept,
/// every entry's key is.
pub proof fn law_cited_keys_renamed(
    texs: Seq<Seq<char>>,
    raws: Seq<Seq<char>>,
    no_delete: bool,
    i: int,
)
    requires
        0 <= i < all_entries(raws).len(),
        keep_all_spec(all_cited(texs), no_delete) || all_cited(texs).contains(all_entries(raws)[i].old_key),
    ensures
        exists|x: int|
            0 <= x < fix_renames(texs, raws, no_delete).len() && (#[trigger] fix_renames(
                texs,
                raws,
                no_delete,
            )[x]).0 == all_entries(raws)[i].old_key,
{
    let es = all_entries(raws);
    let used = all_cited(texs);
    let keep_all = keep_all_spec(used, no_delete);
    let kept = fix_kept(texs, raws, no_delete);
    let nks = fix_new_keys(texs, raws, no_delete);
    let j = lemma_last_with_same_key(es, i);
    lemma_first_in_group_found(es, used, j, 0, j, false);
    lemma_first_in_group(es, used, j, 0, false);
    if !keep_all {
        lemma_first_in_group_found(es, used, j, 0, j, true);
    }
    assert(group_used_spec(es, used, keep_all, j));
    lemma_first_in_group(es, used, j, 0, true);
    let c = chosen_spec(es, used, j);
    assert(0 <= c < es.len() && same_group(es, j, c));
    lemma_chosen_same_sig(es, used, j, c);
    assert(is_kept(es, used, keep_all, c));
    lemma_kept_upto_props(es, used, keep_all, es.len() as int);
    assert(kept.contains(c));
    lemma_kept_index(kept, c);
    let t = kept_index(kept, c)->Some_0;
    let before = renames_upto(es, used, kept, nks, j);
    let after = renames_upto(es, used, kept, nks, j + 1);
    assert(after == before.push((es[j].old_key, nks[t])));
    lemma_renames_prefix(es, used, kept, nks, j + 1, es.len() as int);
    let x = before.len() as int;
    assert(after[x].0 == es[i].old_key);
    assert(fix_renames(texs, raws, no_delete)[x] == after[x]);
}


// ---------------------------------------------------------------------------
// Sentences
// ---------------------------------------------------------------------------

proof fn lemma_join_cons(a: Seq<char>, r: Seq<Seq<char>>, sep: Seq<char>)
    requires
        r.len() > 0,
    ensures
        join(seq![a] + r, sep) == a + sep + join(r, sep),
    decreases r.len(),
{
    let ar = seq![a] + r;
    if r.len() == 1 {
        assert(ar.drop_last() =~= seq![a]);
        assert(ar.last() == r[0]);
        assert(join(seq![a], sep) == a);
        assert(join(r, sep) == r[0]);
        assert(join(ar, sep) == join(ar.drop_last(), sep) + sep + ar.last());
        assert(join(ar, sep) =~= a + sep + join(r, sep));
    } else {
        lemma_join_cons(a, r.drop_last(), sep);
        assert(ar.drop_last() =~= seq![a] + r.drop_last());
        assert(ar.last() == r.last());
        assert(join(ar, sep) =~= a + sep + join(r, sep));
    }
}

proof fn lemma_trim_plain(t: Seq<char>)
    requires
        t.len() > 0,
        !is_ws(t[0]),
        !is_ws(t.last()),
    ensures
        trim(t) == t,
{
    assert(t.skip(0) =~= t);
    assert(t.take(t.len() as int) =~= t);
}

proof fn lemma_closers_are_closers(s: Seq<char>, j: int)
    requires
        0 <= j <= s.len(),
    ensures
        forall|k: int| j <= k < closers_end(s, j) ==> is_closer(#[trigger] s[k]),
    decreases s.len() - j,
{
    if j < s.len() && is_closer(s[j]) {
        lemma_closers_are_closers(s, j + 1);
    }
}

proof fn lemma_sent_scan_join(s: Seq<char>, i: int, start: int)
    requires
        is_collapsed(s),
        0 <= start <= i,
        start < s.len(),
        !is_ws(s[start]),
    ensures
        join(sent_scan(s, i, start), seq![' ']) == s.subrange(start, s.len() as int),
        sent_scan(s, i, start).len() > 0,
    decreases s.len() - i,
{
    let tail = s.subrange(start, s.len() as int);
    if i >= s.len() {
        lemma_trim_plain(tail);
    } else {
        let ch = s[i];
        if !is_mark(ch) || (ch == '.' && crate::sentences::is_decimal_point_spec(s, i)) || (ch
            == '.' && crate::sentences::is_abbreviation_spec(s, i)) {
            lemma_sent_scan_join(s, i + 1, start);
        } else {
            let j = closers_end(s, i + 1);
            lemma_closers_end(s, i + 1);
            if j == s.len() {
                lemma_trim_plain(tail);
            } else if is_ws(s[j]) {
                assert(s[j] == ' ');
                assert(j + 1 < s.len());
                assert(s[j + 1] != ' ');
                assert(ws_end(s, j + 1) == j + 1);
                let next = ws_end(s, j);
                assert(next == j + 1);
                if ch != '.' || !crate::chars::unicode_lowercase(s[next]) {
                    let t = s.subrange(start, j);
                    lemma_closers_are_closers(s, i + 1);
                    if j - 1 > i {
                        assert(is_closer(s[j - 1]));
                    }
                    assert(t.last() == s[j - 1]);
                    lemma_trim_plain(t);
                    lemma_sent_scan_join(s, next, next);
                    let rest = sent_scan(s, next, next);
                    lemma_join_cons(t, rest, seq![' ']);
                    assert(sent_scan(s, i, start) == seq![t] + rest);
                    assert(t + seq![' '] + s.subrange(next, s.len() as int) =~= tail);
                } else {
                    lemma_sent_scan_join(s, i + 1, start);
                }
            } else {
                lemma_sent_scan_join(s, i + 1, start);
            }
        }
    }
}

/// Splitting a paragraph into sentences loses no text: the sentences of a
/// text whose whitespace is collapsed, joined by single spaces, are that
/// text again; and every sentence is non-empty and trimmed.
pub proof fn law_sentences_keep_text(s: Seq<char>)
    requires
        collapse(s).len() > 0,
    ensures
        join(split_sentences_spec(collapse(s)), seq![' ']) == collapse(s),
        forall|k: int|
            0 <= k < split_sentences_spec(collapse(s)).len() ==> (#[trigger] split_sentences_spec(
                collapse(s),
            )[k]).len() > 0 && trim(split_sentences_spec(collapse(s))[k]) == split_sentences_spec(
                collapse(s),
            )[k],
{
    law_collapse(s);
    let c = collapse(s);
    lemma_sent_scan_join(c, 0, 0);
    assert(c.subrange(0, c.len() as int) =~= c);
    lemma_collapse_no_nl(s);
    lemma_sent_scan_shape(c, 0, 0);
    let ss = split_sentences_spec(c);
    assert forall|k: int| 0 <= k < ss.len() implies (#[trigger] ss[k]).len() > 0 && trim(ss[k]) == ss[k] by {
        assert(is_line_text(ss[k]));
        lemma_trim_plain(ss[k]);
    }
}


// ---------------------------------------------------------------------------
// Unified keys
// ---------------------------------------------------------------------------

/// A character of a key part: a lower-case ASCII letter or a digit.
pub open spec fn is_key_char(c: char) -> bool {
    is_ascii_lower(c) || is_ascii_digit(c)
}

/// A non-empty run of key characters.
pub open spec fn is_key_part(w: Seq<char>) -> bool {
    w.len() > 0 && forall|i: int| 0 <= i < w.len() ==> is_key_char(#[trigger] w[i])
}

/// Four ASCII digits.
pub open spec fn is_year_text(y: Seq<char>) -> bool {
    y.len() == 4 && forall|i: int| 0 <= i < 4 ==> is_ascii_digit(#[trigger] y[i])
}

/// `[author][title][year]`: two key parts and a year, one after the other.
pub open spec fn is_unified_key(k: Seq<char>) -> bool {
    exists|a: Seq<char>, t: Seq<char>, y: Seq<char>|
        #![trigger is_key_part(a), is_key_part(t), is_year_text(y)]
        k == a + t + y && is_key_part(a) && is_key_part(t) && is_year_text(y)
}

proof fn lemma_fold_lower(c: char)
    ensures
        fold_spec(c) matches Some(v) ==> forall|i: int| 0 <= i < v.len() ==> is_ascii_lower(#[trigger] v[i]),
{
}

proof fn lemma_plain_piece_chars(c: char)
    ensures
        forall|i: int|
            0 <= i < plain_piece(c).len() ==> is_ascii_alnum(#[trigger] plain_piece(c)[i]) || plain_piece(c)[i] == ' ',
{
    lemma_fold_lower(c);
}

proof fn lemma_plain_scan_chars(s: Seq<char>, i: int)
    requires
        0 <= i,
    ensures
        forall|k: int|
            0 <= k < plain_scan(s, i).len() ==> is_ascii_alnum(#[trigger] plain_scan(s, i)[k]) || plain_scan(s, i)[k] == ' ',
    decreases s.len() - i,
{
    if i < s.len() {
        if s[i] == '\\' {
            lemma_unicode_alpha_end(s, i + 1);
            let e = crate::keys::unicode_alpha_end(s, i + 1);
            lemma_plain_scan_chars(s, e);
            assert(plain_scan(s, i) == plain_scan(s, e));
        } else {
            lemma_plain_piece_chars(s[i]);
            lemma_plain_scan_chars(s, i + 1);
            let p = plain_piece(s[i]);
            let r = plain_scan(s, i + 1);
            assert(plain_scan(s, i) == p + r);
            assert forall|k: int| 0 <= k < (p + r).len() implies is_ascii_alnum(#[trigger] (p + r)[k]) || (p + r)[k] == ' ' by {
                if k < p.len() {
                    assert((p + r)[k] == p[k]);
                } else {
                    assert((p + r)[k] == r[k - p.len()]);
                }
            }
        }
    }
}

proof fn lemma_words_alnum(x: Seq<char>)
    requires
        forall|k: int| 0 <= k < x.len() ==> is_ascii_alnum(#[trigger] x[k]) || x[k] == ' ',
    ensures
        forall|i: int, j: int|
            0 <= i < words(x).len() && 0 <= j < words(x)[i].len() ==> is_ascii_alnum(#[trigger] words(x)[i][j]),
    decreases x.len(),
{
    if x.len() > 0 {
        let d = x.drop_last();
        assert forall|k: int| 0 <= k < d.len() implies is_ascii_alnum(#[trigger] d[k]) || d[k] == ' ' by {
            assert(d[k] == x[k]);
        }
        lemma_words_alnum(d);
        lemma_words_nonempty(d);
        let prev = words(d);
        let c = x.last();
        let cur = words(x);
        if !is_ws(c) {
            assert(is_ascii_alnum(c) || c == ' ');
            assert(is_ascii_alnum(c));
            assert forall|i: int, j: int| 0 <= i < cur.len() && 0 <= j < cur[i].len() implies is_ascii_alnum(#[trigger] cur[i][j]) by {
                if x.len() >= 2 && !is_ws(x[x.len() - 2]) {
                    assert(d.last() == x[x.len() - 2]);
                    if i < prev.len() - 1 {
                        assert(cur[i] == prev[i]);
                    } else {
                        assert(cur[i] == prev.last().push(c));
                        if j < prev.last().len() {
                            assert(cur[i][j] == prev[prev.len() - 1][j]);
                        }
                    }
                } else {
                    if i < prev.len() {
                        assert(cur[i] == prev[i]);
                    } else {
                        assert(cur[i] == seq![c]);
                    }
                }
            }
        }
    }
}

proof fn lemma_latex_words_key_parts(raw: Seq<char>)
    ensures
        forall|i: int| 0 <= i < words_from_latex_spec(raw).len() ==> is_key_part(#[trigger] words_from_latex_spec(raw)[i]),
{
    let x = plain_scan(unwrap_spec(trim(raw)), 0);
    lemma_plain_scan_chars(unwrap_spec(trim(raw)), 0);
    lemma_words_alnum(x);
    lemma_words_nonempty(x);
    let ws = words(x);
    assert forall|i: int| 0 <= i < words_from_latex_spec(raw).len() implies is_key_part(#[trigger] words_from_latex_spec(raw)[i]) by {
        let w = ws[i];
        assert(words_from_latex_spec(raw)[i] == ascii_lower_seq(w));
        assert forall|j: int| 0 <= j < ascii_lower_seq(w).len() implies is_key_char(#[trigger] ascii_lower_seq(w)[j]) by {
            assert(ascii_lower_seq(w)[j] == ascii_lower(w[j]));
            assert(is_ascii_alnum(ws[i][j]));
        }
    }
}

proof fn lemma_join_key_parts(ws: Seq<Seq<char>>)
    requires
        ws.len() > 0,
        forall|i: int| 0 <= i < ws.len() ==> is_key_part(#[trigger] ws[i]),
    ensures
        is_key_part(join(ws, seq![])),
    decreases ws.len(),
{
    if ws.len() > 1 {
        let d = ws.drop_last();
        assert forall|i: int| 0 <= i < d.len() implies is_key_part(#[trigger] d[i]) by {
            assert(d[i] == ws[i]);
        }
        lemma_join_key_parts(d);
        let a = join(d, seq![]);
        let b = ws.last();
        assert(is_key_part(b));
        assert(join(ws, seq![]) == a + Seq::<char>::empty() + b);
        assert(a + Seq::<char>::empty() + b =~= a + b);
        assert forall|k: int| 0 <= k < (a + b).len() implies is_key_char(#[trigger] (a + b)[k]) by {
            if k < a.len() {
                assert((a + b)[k] == a[k]);
            } else {
                assert((a + b)[k] == b[k - a.len()]);
            }
        }
    }
}

proof fn lemma_first_non_stop_key(ws: Seq<Seq<char>>)
    requires
        forall|i: int| 0 <= i < ws.len() ==> is_key_part(#[trigger] ws[i]),
    ensures
        first_non_stop(ws) matches Some(w) ==> is_key_part(w),
    decreases ws.len(),
{
    if ws.len() > 0 {
        assert(is_key_part(ws[0]));
        let d = ws.drop_first();
        assert forall|i: int| 0 <= i < d.len() implies is_key_part(#[trigger] d[i]) by {
            assert(d[i] == ws[i + 1]);
        }
        lemma_first_non_stop_key(d);
    }
}

proof fn lemma_author_key_part(raw: Seq<char>)
    ensures
        is_key_part(author_component_spec(raw)),
{
    reveal_strlit("anon");
    let first = trim(crate::keys::before_first(raw, " and "@));
    let comma = crate::bib::find_char_spec(first, 0, ',');
    let family = match comma {
        Some(p) => first.take(p),
        None => first,
    };
    let ws = words_from_latex_spec(family);
    lemma_latex_words_key_parts(family);
    if ws.len() > 0 {
        if comma is Some {
            lemma_join_key_parts(ws);
        } else {
            assert(is_key_part(ws[ws.len() - 1]));
        }
    }
}

proof fn lemma_title_key_part(raw: Seq<char>)
    ensures
        is_key_part(title_component_spec(raw)),
{
    reveal_strlit("untitled");
    lemma_latex_words_key_parts(raw);
    lemma_first_non_stop_key(words_from_latex_spec(raw));
}

proof fn lemma_year_text(e: EntryView)
    ensures
        is_year_text(year_or_default(e)),
{
    reveal_strlit("0000");
    match entry_year_spec(e) {
        Some(y) => {
            let src = match assoc_get(e.fields, "year"@) {
                Some(v) => Some(v),
                None => assoc_get(e.fields, "date"@),
            };
            let v = src->Some_0;
            lemma_four_digits_from(v, 0);
            let k = four_digits_from(v, 0)->Some_0;
            assert(y == v.subrange(k, k + 4));
            assert forall|i: int| 0 <= i < 4 implies is_ascii_digit(#[trigger] y[i]) by {
                assert(y[i] == v[k + i]);
            }
        },
        None => {},
    }
}

/// A unified key is `[author][title][year]`: a family name and a title
/// word in lower-case ASCII letters and digits, then four digits of year.
pub proof fn law_new_key_shape(e: EntryView)
    ensures
        is_unified_key(make_new_key_spec(e)),
{
    let author_raw = match author_field(e) {
        Some(v) => v,
        None => seq![],
    };
    let title_raw = match assoc_get(e.fields, "title"@) {
        Some(v) => v,
        None => seq![],
    };
    let a = author_component_spec(author_raw);
    let t = title_component_spec(title_raw);
    let y = year_or_default(e);
    lemma_author_key_part(author_raw);
    lemma_title_key_part(title_raw);
    lemma_year_text(e);
    assert(make_new_key_spec(e) == a + t + y);
}


// ---------------------------------------------------------------------------
// Tidy output of the formatter
// ---------------------------------------------------------------------------

/// `s` holds no newline.
pub open spec fn no_nl(s: Seq<char>) -> bool {
    forall|k: int| 0 <= k < s.len() ==> #[trigger] s[k] != '\n'
}

/// No line of `out` ends in whitespace, no two empty lines follow each
/// other, and the text does not start with two empty lines.
pub open spec fn is_tidy(out: Seq<char>) -> bool {
    &&& forall|k: int|
        0 < k < out.len() && #[trigger] out[k] == '\n' && out[k - 1] != '\n' ==> !is_ws(out[k - 1])
    &&& forall|k: int|
        0 <= k && k + 2 < out.len() && #[trigger] out[k] == '\n' ==> !(out[k + 1] == '\n' && out[k + 2]
            == '\n')
    &&& !(out.len() >= 2 && out[0] == '\n' && out[1] == '\n')
}

/// Empty, or ending with a newline.
pub open spec fn ends_line(out: Seq<char>) -> bool {
    out.len() == 0 || out.last() == '\n'
}

/// A text that can stand as a line: not empty, without a newline, and
/// without whitespace at either end.
pub open spec fn is_line_text(w: Seq<char>) -> bool {
    w.len() > 0 && !is_ws(w[0]) && !is_ws(w.last()) && no_nl(w)
}

/// The formatter never opens a verbatim-like environment or display math
/// while it reads `input`: every line is formatted.
pub open spec fn formats_every_line(input: Seq<char>) -> bool {
    forall|k: int|
        0 <= k < lines_of(input).len() ==> (#[trigger] run(lines_of(input), k)).ignored is None && run(
            lines_of(input),
            k,
        ).math is None
}

proof fn lemma_append_line(out: Seq<char>, body: Seq<char>)
    requires
        is_tidy(out),
        ends_line(out),
        body.len() > 0,
        no_nl(body),
        !is_ws(body.last()),
    ensures
        is_tidy(out + body + seq!['\n']),
        ends_line(out + body + seq!['\n']),
{
    let r = out + body + seq!['\n'];
    let n = out.len() as int;
    let m = body.len() as int;
    assert(r.len() == n + m + 1);
    assert forall|k: int| 0 <= k < n implies r[k] == out[k] by {}
    assert forall|k: int| n <= k < n + m implies r[k] == body[k - n] by {}
    assert(r[n + m] == '\n');
    assert forall|k: int| 0 < k < r.len() && #[trigger] r[k] == '\n' && r[k - 1] != '\n' implies !is_ws(r[k - 1]) by {
        if k < n {
            assert(r[k - 1] == out[k - 1]);
        } else if k < n + m {
            assert(r[k] == body[k - n]);
        } else {
            assert(r[k - 1] == body[m - 1]);
        }
    }
    assert forall|k: int| 0 <= k && k + 2 < r.len() && #[trigger] r[k] == '\n' implies !(r[k + 1] == '\n'
        && r[k + 2] == '\n') by {
        if k + 2 < n {
            assert(r[k + 1] == out[k + 1] && r[k + 2] == out[k + 2]);
        } else if k + 1 < n {
            assert(r[k + 2] == body[0]);
        } else if k + 1 < n + m {
            assert(r[k + 1] == body[k + 1 - n]);
        }
    }
    if n == 0 {
        assert(r[0] == body[0]);
    } else if n == 1 {
        assert(r[1] == body[0]);
    } else {
        assert(r[0] == out[0] && r[1] == out[1]);
    }
}

proof fn lemma_append_blank(out: Seq<char>)
    requires
        is_tidy(out),
        ends_line(out),
        !ends_blank(out),
    ensures
        is_tidy(out.push('\n')),
        ends_line(out.push('\n')),
{
    let r = out.push('\n');
    let n = out.len() as int;
    assert forall|k: int| 0 <= k < n implies r[k] == out[k] by {}
    assert forall|k: int| 0 < k < r.len() && #[trigger] r[k] == '\n' && r[k - 1] != '\n' implies !is_ws(r[k - 1]) by {
        if k < n {
            assert(r[k - 1] == out[k - 1]);
        }
    }
    assert forall|k: int| 0 <= k && k + 2 < r.len() && #[trigger] r[k] == '\n' implies !(r[k + 1] == '\n'
        && r[k + 2] == '\n') by {
        if k + 2 < n {
            assert(r[k + 1] == out[k + 1] && r[k + 2] == out[k + 2]);
        } else {
            assert(r[k] == out[n - 2] && r[k + 1] == out[n - 1]);
        }
    }
    if n >= 2 {
        assert(r[0] == out[0] && r[1] == out[1]);
    }
}

proof fn lemma_trim_shape(y: Seq<char>)
    ensures
        trim(y).len() > 0 ==> !is_ws(trim(y)[0]) && !is_ws(trim(y).last()),
        no_nl(y) ==> no_nl(trim(y)),
{
    lemma_lead_ws(y);
    let l = lead_ws(y) as int;
    let z = trim_start(y);
    assert(z == y.skip(l));
    lemma_trail_ws(z);
    let t = trim(y);
    assert(t == z.take(z.len() - trail_ws(z)));
    assert forall|k: int| 0 <= k < t.len() implies t[k] == y[k + l] by {
        assert(t[k] == z[k]);
    }
    if t.len() > 0 {
        assert(t.last() == z[z.len() - trail_ws(z) - 1]);
        assert(t[0] == y[l]);
    }
}

proof fn lemma_piece_shape(x: Seq<char>)
    requires
        no_nl(x),
    ensures
        forall|k: int| 0 <= k < piece(trim(x)).len() ==> is_line_text(#[trigger] piece(trim(x))[k]),
{
    lemma_trim_shape(x);
}

proof fn lemma_sub_no_nl(s: Seq<char>, a: int, b: int)
    requires
        no_nl(s),
        0 <= a <= b <= s.len(),
    ensures
        no_nl(s.subrange(a, b)),
{
    assert forall|k: int| 0 <= k < b - a implies #[trigger] s.subrange(a, b)[k] != '\n' by {
        assert(s.subrange(a, b)[k] == s[a + k]);
    }
}

proof fn lemma_sent_scan_shape(s: Seq<char>, i: int, start: int)
    requires
        no_nl(s),
        0 <= start <= i <= s.len(),
    ensures
        forall|k: int| 0 <= k < sent_scan(s, i, start).len() ==> is_line_text(#[trigger] sent_scan(s, i, start)[k]),
    decreases s.len() - i,
{
    let r = sent_scan(s, i, start);
    if i >= s.len() {
        if start < s.len() {
            lemma_sub_no_nl(s, start, s.len() as int);
            lemma_piece_shape(s.subrange(start, s.len() as int));
            assert(r == piece(trim(s.subrange(start, s.len() as int))));
        } else {
            assert(r.len() == 0);
        }
    } else {
        let ch = s[i];
        if !is_mark(ch) || (ch == '.' && crate::sentences::is_decimal_point_spec(s, i)) || (ch
            == '.' && crate::sentences::is_abbreviation_spec(s, i)) {
            lemma_sent_scan_shape(s, i + 1, start);
            assert(r == sent_scan(s, i + 1, start));
        } else {
            let j = closers_end(s, i + 1);
            lemma_closers_end(s, i + 1);
            lemma_sub_no_nl(s, start, j);
            lemma_piece_shape(s.subrange(start, j));
            let a = piece(trim(s.subrange(start, j)));
            if j == s.len() {
                assert(r == a);
            } else if is_ws(s[j]) {
                let next = ws_end(s, j);
                lemma_ws_end(s, j);
                if next == s.len() {
                    assert(r == a);
                } else if ch != '.' || !crate::chars::unicode_lowercase(s[next]) {
                    lemma_sent_scan_shape(s, next, next);
                    let b = sent_scan(s, next, next);
                    assert(r == a + b);
                    assert forall|k: int| 0 <= k < (a + b).len() implies is_line_text(#[trigger] (a + b)[k]) by {
                        if k < a.len() {
                            assert((a + b)[k] == a[k]);
                        } else {
                            assert((a + b)[k] == b[k - a.len()]);
                        }
                    }
                } else {
                    lemma_sent_scan_shape(s, i + 1, start);
                    assert(r == sent_scan(s, i + 1, start));
                }
            } else {
                lemma_sent_scan_shape(s, i + 1, start);
                assert(r == sent_scan(s, i + 1, start));
            }
        }
    }
}

proof fn lemma_sentence_lines_tidy(
    out: Seq<char>,
    indent: Seq<char>,
    first: Seq<char>,
    cont: Seq<char>,
    sents: Seq<Seq<char>>,
)
    requires
        is_tidy(out),
        ends_line(out),
        no_nl(indent),
        no_nl(first),
        no_nl(cont),
        forall|k: int| 0 <= k < sents.len() ==> is_line_text(#[trigger] sents[k]),
    ensures
        is_tidy(out + sentence_lines(indent, first, cont, sents)),
        ends_line(out + sentence_lines(indent, first, cont, sents)),
    decreases sents.len(),
{
    if sents.len() == 0 {
        assert(out + sentence_lines(indent, first, cont, sents) =~= out);
    } else {
        let d = sents.drop_last();
        assert forall|k: int| 0 <= k < d.len() implies is_line_text(#[trigger] d[k]) by {
            assert(d[k] == sents[k]);
        }
        lemma_sentence_lines_tidy(out, indent, first, cont, d);
        let o1 = out + sentence_lines(indent, first, cont, d);
        let pre = if sents.len() == 1 {
            first
        } else {
            cont
        };
        let t = sents.last();
        assert(is_line_text(t));
        lemma_trim_plain(t);
        let body = indent + pre + t;
        assert(body.last() == t.last());
        assert forall|k: int| 0 <= k < body.len() implies #[trigger] body[k] != '\n' by {
            if k < indent.len() {
                assert(body[k] == indent[k]);
            } else if k < indent.len() + pre.len() {
                assert(body[k] == pre[k - indent.len()]);
            } else {
                assert(body[k] == t[k - indent.len() - pre.len()]);
            }
        }
        lemma_append_line(o1, body);
        assert(out + sentence_lines(indent, first, cont, sents) =~= o1 + body + seq!['\n']);
    }
}

proof fn lemma_para_pieces_no_nl(para: Seq<Seq<char>>, indent: Seq<char>)
    requires
        forall|k: int| 0 <= k < para.len() ==> no_nl(#[trigger] para[k]),
    ensures
        forall|k: int| 0 <= k < para_pieces(para, indent).len() ==> no_nl(#[trigger] para_pieces(para, indent)[k]),
    decreases para.len(),
{
    if para.len() > 0 {
        let d = para.drop_last();
        assert forall|k: int| 0 <= k < d.len() implies no_nl(#[trigger] d[k]) by {
            assert(d[k] == para[k]);
        }
        lemma_para_pieces_no_nl(d, indent);
        let line = para.last();
        assert(no_nl(line));
        if crate::text::has_prefix(line, indent) {
            lemma_sub_no_nl(line, indent.len() as int, line.len() as int);
            assert(line.skip(indent.len() as int) == line.subrange(indent.len() as int, line.len() as int));
            lemma_trim_shape(line.skip(indent.len() as int));
        } else {
            lemma_trim_shape(line);
        }
        let prev = para_pieces(d, indent);
        let cur = para_pieces(para, indent);
        assert forall|k: int| 0 <= k < cur.len() implies no_nl(#[trigger] cur[k]) by {
            if k < prev.len() {
                assert(cur[k] == prev[k]);
            }
        }
    }
}

proof fn lemma_prefix_no_nl(s: Seq<char>)
    requires
        no_nl(s),
    ensures
        take_prefix_spec(s) matches Some((p, c, rest)) ==> no_nl(p) && no_nl(c),
{
    reveal_strlit("\\item");
    reveal_strlit("\\noindent");
    if starts_command_spec(s, "\\item"@) {
        let i1 = skip_ws_spec(s, 5);
        lemma_skip_ws_spec(s, 5);
        if 0 <= i1 < s.len() && s[i1] == '[' {
            lemma_bracket_scan(s, i1, 0);
            match bracket_scan(s, i1, 0) {
                Some(c) => {
                    lemma_skip_ws_spec(s, c + 1);
                },
                None => {},
            }
        }
        let idx = item_prefix_end(s);
        assert(0 <= idx <= s.len());
        lemma_sub_no_nl(s, 0, idx);
        assert(s.take(idx) == s.subrange(0, idx));
    } else if starts_command_spec(s, "\\noindent"@) {
        let idx = skip_ws_spec(s, 9);
        lemma_skip_ws_spec(s, 9);
        lemma_sub_no_nl(s, 0, idx);
        assert(s.take(idx) == s.subrange(0, idx));
    }
}

proof fn lemma_paragraph_tidy(out: Seq<char>, para: Seq<Seq<char>>, indent: Seq<char>)
    requires
        is_tidy(out),
        ends_line(out),
        no_nl(indent),
        forall|k: int| 0 <= k < para.len() ==> no_nl(#[trigger] para[k]),
    ensures
        is_tidy(out + paragraph_text(para, indent)),
        ends_line(out + paragraph_text(para, indent)),
{
    if para.len() == 0 {
        assert(out + paragraph_text(para, indent) =~= out);
    } else {
        let pieces0 = para_pieces(para, indent);
        lemma_para_pieces_no_nl(para, indent);
        if pieces0.len() == 0 {
            assert(out + paragraph_text(para, indent) =~= out);
        } else {
            lemma_prefix_no_nl(pieces0[0]);
            let (first, cont, pieces) = match take_prefix_spec(pieces0[0]) {
                Some((p, c, rest)) => (p, c, pieces0.update(0, trim_start(rest))),
                None => (seq![], seq![], pieces0),
            };
            let joined = collapse(join(pieces, seq![' ']));
            lemma_collapse_no_nl(join(pieces, seq![' ']));
            lemma_sent_scan_shape(joined, 0, 0);
            lemma_sentence_lines_tidy(out, indent, first, cont, split_sentences_spec(joined));
        }
    }
}

proof fn lemma_collapse_no_nl(s: Seq<char>)
    ensures
        no_nl(collapse(s)),
{
    law_collapse(s);
    let c = collapse(s);
    assert forall|k: int| 0 <= k < c.len() implies #[trigger] c[k] != '\n' by {
        if c[k] == '\n' {
            assert(is_ws(c[k]));
        }
    }
}

proof fn lemma_spaces_no_nl(n: nat)
    ensures
        no_nl(spaces(n)),
{
}

/// A line copied by the formatter: its indentation and its trimmed text.
proof fn lemma_copy_body(line: Seq<char>, indent: Seq<char>)
    requires
        trim_start(line).len() > 0,
        no_nl(line),
        no_nl(indent),
    ensures
        (indent + trim(line)).len() > 0,
        !is_ws((indent + trim(line)).last()),
        no_nl(indent + trim(line)),
{
    lemma_lead_ws(line);
    let l = lead_ws(line) as int;
    let z = trim_start(line);
    assert(z == line.skip(l));
    assert(z[0] == line[l]);
    lemma_trail_ws(z);
    if trail_ws(z) == z.len() {
        assert(is_ws(z[0]));
    }
    lemma_trim_shape(line);
    let t = trim(line);
    assert(t == z.take(z.len() - trail_ws(z)));
    let body = indent + t;
    assert(body.last() == t.last());
    assert forall|k: int| 0 <= k < body.len() implies #[trigger] body[k] != '\n' by {
        if k < indent.len() {
            assert(body[k] == indent[k]);
        } else {
            assert(body[k] == t[k - indent.len()]);
        }
    }
}

proof fn lemma_caption_parts(t: Seq<char>)
    requires
        no_nl(t),
    ensures
        caption_parts(t) matches Some((p, b, x)) ==> no_nl(p) && no_nl(x) && x.len() > 0 && x[0]
            == '}',
{
    reveal_strlit("\\caption");
    reveal_strlit("\\subcaption");
    if caption_parts(t) is Some {
        let n: int = if starts_command_spec(t, "\\caption"@) {
            8
        } else {
            11
        };
        let j0 = skip_ws_spec(t, n);
        lemma_skip_ws_spec(t, n);
        if 0 <= j0 < t.len() && t[j0] == '[' {
            lemma_bracket_scan(t, j0, 0);
            match bracket_scan(t, j0, 0) {
                Some(c) => {
                    lemma_skip_ws_spec(t, c + 1);
                },
                None => {},
            }
        }
        let (p, b, x) = caption_parts(t)->0;
        let j = p.len() - 1;
        crate::scan::lemma_find_matching(t, j, '{', '}');
        let c = find_matching_spec(t, j, '{', '}')->0;
        assert(0 <= j < c < t.len());
        lemma_sub_no_nl(t, 0, j + 1);
        assert(p == t.subrange(0, j + 1));
        lemma_sub_no_nl(t, c, t.len() as int);
        assert(x == t.subrange(c, t.len() as int));
        assert(x[0] == t[c]);
    }
}

proof fn lemma_caption_last_line(indent: Seq<char>, cont: Seq<char>, last: Seq<char>, x: Seq<char>)
    requires
        no_nl(indent),
        no_nl(cont),
        is_line_text(last),
        no_nl(x),
        x.len() > 0,
        x[0] == '}',
    ensures
        (indent + cont + last + trim_end(x)).len() > 0,
        !is_ws((indent + cont + last + trim_end(x)).last()),
        no_nl(indent + cont + last + trim_end(x)),
{
    lemma_trail_ws(x);
    if trail_ws(x) == x.len() {
        assert(is_ws(x[0]));
    }
    let xe = trim_end(x);
    assert(xe == x.take(x.len() - trail_ws(x)));
    assert(xe.last() == x[x.len() - trail_ws(x) - 1]);
    let body = indent + cont + last + xe;
    assert(body.last() == xe.last());
    let a = indent.len() as int;
    let bb = a + cont.len();
    let cc = bb + last.len();
    assert forall|k: int| 0 <= k < body.len() implies #[trigger] body[k] != '\n' by {
        if k < a {
            assert(body[k] == indent[k]);
        } else if k < bb {
            assert(body[k] == cont[k - a]);
        } else if k < cc {
            assert(body[k] == last[k - bb]);
        } else {
            assert(body[k] == xe[k - cc]);
            assert(xe[k - cc] == x[k - cc]);
        }
    }
}

proof fn lemma_caption_tidy(out: Seq<char>, indent: Seq<char>, t: Seq<char>)
    requires
        is_tidy(out),
        ends_line(out),
        no_nl(indent),
        no_nl(t),
        is_split_caption(t),
    ensures
        caption_parts(t) matches Some((p, b, x)) && is_tidy(out + caption_text(indent, p, b, x))
            && ends_line(out + caption_text(indent, p, b, x)),
{
    lemma_caption_parts(t);
    let (p, b, x) = caption_parts(t)->0;
    let sents = caption_sentences(b);
    lemma_collapse_no_nl(b);
    lemma_sent_scan_shape(collapse(b), 0, 0);
    let d = sents.drop_last();
    assert forall|k: int| 0 <= k < d.len() implies is_line_text(#[trigger] d[k]) by {
        assert(d[k] == sents[k]);
    }
    let cont = spaces(p.len());
    lemma_spaces_no_nl(p.len());
    lemma_sentence_lines_tidy(out, indent, p, cont, d);
    let o2 = out + sentence_lines(indent, p, cont, d);
    let last = sents.last();
    assert(is_line_text(last));
    lemma_trim_plain(last);
    lemma_caption_last_line(indent, cont, last, x);
    let body = indent + cont + last + trim_end(x);
    lemma_append_line(o2, body);
    assert(out + caption_text(indent, p, b, x) =~= o2 + body + seq!['\n']);
}

/// Formatting one more line keeps the output tidy: while the formatter is
/// not inside a verbatim-like environment or display math, no line it writes
/// ends in whitespace and it never writes a second empty line in a row.
pub proof fn law_step_keeps_tidy(st: TexState, line: Seq<char>)
    requires
        is_tidy(st.out),
        ends_line(st.out),
        st.ignored is None,
        st.math is None,
        forall|k: int| 0 <= k < st.para.len() ==> no_nl(#[trigger] st.para[k]),
        no_nl(line),
    ensures
        is_tidy(step(st, line).out),
        ends_line(step(st, line).out),
        forall|k: int| 0 <= k < step(st, line).para.len() ==> no_nl(#[trigger] step(st, line).para[k]),
{
    let trimmed = trim_start(line);
    let ind = indent_text(st.depth);
    lemma_spaces_no_nl(2 * st.depth);
    lemma_paragraph_tidy(st.out, st.para, ind);
    let out1 = flushed(st);
    if trimmed.len() == 0 {
        if !ends_blank(out1) {
            lemma_append_blank(out1);
            assert(flush_and_blank(st).out == out1.push('\n'));
        }
    } else {
        lemma_lead_ws(line);
        assert(trimmed == line.skip(lead_ws(line) as int));
        assert forall|k: int| 0 <= k < trimmed.len() implies #[trigger] trimmed[k] != '\n' by {
            assert(trimmed[k] == line[k + lead_ws(line)]);
        }
        lemma_copy_body(line, ind);
        lemma_append_line(out1, ind + trim(line));
        assert(flush_and_copy(st, line, st.depth).out == out1 + (ind + trim(line)) + seq!['\n']);
        if crate::fixtex::env_at_start(trimmed, "\\end{"@) is Some {
            let env = crate::fixtex::env_at_start(trimmed, "\\end{"@)->0;
            let d: nat = if env != "document"@ && st.depth > 0 {
                (st.depth - 1) as nat
            } else {
                st.depth
            };
            lemma_spaces_no_nl(2 * d);
            lemma_copy_body(line, indent_text(d));
            lemma_append_line(out1, indent_text(d) + trim(line));
            assert(flush_and_copy(st, line, d).out == out1 + (indent_text(d) + trim(line)) + seq!['\n']);
        }
        if is_split_caption(trimmed) {
            lemma_caption_tidy(out1, ind, trimmed);
        }
        let st1 = if crate::fixtex::starts_para_prefix(trimmed) && st.para.len() > 0 {
            TexState { out: flushed(st), para: seq![], ..st }
        } else {
            st
        };
        if st1.para.len() == 0 {
            assert(flushed(st1) =~= st1.out);
            lemma_append_line(st1.out, ind + trim(line));
        }
        assert(flush_and_copy(st1, line, st.depth).out == flushed(st1) + (ind + trim(line)) + seq!['\n']);
        let p2 = st1.para.push(line);
        assert forall|k: int| 0 <= k < p2.len() implies no_nl(#[trigger] p2[k]) by {
            if k < st1.para.len() {
                assert(p2[k] == st1.para[k]);
            }
        }
    }
}

proof fn lemma_split_on_no_sep(s: Seq<char>, sep: char)
    ensures
        forall|k: int, j: int|
            0 <= k < split_on(s, sep).len() && 0 <= j < split_on(s, sep)[k].len() ==> #[trigger] split_on(
                s,
                sep,
            )[k][j] != sep,
    decreases s.len(),
{
    if s.len() > 0 {
        lemma_split_on_no_sep(s.drop_last(), sep);
        lemma_split_on_len(s.drop_last(), sep);
        let prev = split_on(s.drop_last(), sep);
        let cur = split_on(s, sep);
        assert forall|k: int, j: int| 0 <= k < cur.len() && 0 <= j < cur[k].len() implies #[trigger] cur[k][j] != sep by {
            if s.last() == sep {
                if k < prev.len() {
                    assert(cur[k] == prev[k]);
                }
            } else {
                if k < prev.len() - 1 {
                    assert(cur[k] == prev[k]);
                } else {
                    assert(cur[k] == prev.last().push(s.last()));
                    if j < prev.last().len() {
                        assert(cur[k][j] == prev[prev.len() - 1][j]);
                    }
                }
            }
        }
    }
}

proof fn lemma_lines_no_nl(s: Seq<char>)
    ensures
        forall|k: int| 0 <= k < lines_of(s).len() ==> no_nl(#[trigger] lines_of(s)[k]),
{
    lemma_split_on_no_sep(s, '\n');
    lemma_split_on_len(s, '\n');
    let ps = split_on(s, '\n');
    assert forall|k: int| 0 <= k < lines_of(s).len() implies no_nl(#[trigger] lines_of(s)[k]) by {
        let p = ps[k];
        assert forall|j: int| 0 <= j < p.len() implies #[trigger] p[j] != '\n' by {
            assert(ps[k][j] != '\n');
        }
        if k < ps.len() - 1 {
            assert(lines_of(s)[k] == strip_cr(p));
            if p.len() > 0 && p.last() == '\r' {
                assert forall|j: int| 0 <= j < p.drop_last().len() implies #[trigger] p.drop_last()[j] != '\n' by {
                    assert(p.drop_last()[j] == p[j]);
                }
            }
        } else {
            assert(lines_of(s)[k] == p);
        }
    }
}

proof fn lemma_run_tidy(input: Seq<char>, k: int)
    requires
        formats_every_line(input),
        0 <= k <= lines_of(input).len(),
    ensures
        is_tidy(run(lines_of(input), k).out),
        ends_line(run(lines_of(input), k).out),
        forall|j: int|
            0 <= j < run(lines_of(input), k).para.len() ==> no_nl(#[trigger] run(lines_of(input), k).para[j]),
    decreases k,
{
    let ls = lines_of(input);
    if k > 0 {
        lemma_run_tidy(input, k - 1);
        lemma_lines_no_nl(input);
        let st = run(ls, k - 1);
        assert(st.ignored is None && st.math is None);
        assert(no_nl(ls[k - 1]));
        law_step_keeps_tidy(st, ls[k - 1]);
    }
}

/// The formatted text is tidy: when no line of the input opens a
/// verbatim-like environment or display math, no line of the output ends in
/// whitespace and no two empty lines follow each other.
pub proof fn law_process_tidy(input: Seq<char>)
    requires
        formats_every_line(input),
    ensures
        is_tidy(process_spec(input)),
{
    let ls = lines_of(input);
    lemma_run_tidy(input, ls.len() as int);
    let st = run(ls, ls.len() as int);
    lemma_spaces_no_nl(2 * st.depth);
    lemma_paragraph_tidy(st.out, st.para, indent_text(st.depth));
}


// ---------------------------------------------------------------------------
// Formatting twice
// ---------------------------------------------------------------------------

/// A character of plain text: no backslash, percent, dollar, carriage return
/// or newline.
pub open spec fn is_plain_char(c: char) -> bool {
    c != '\\' && c != '%' && c != '$' && c != '\r' && c != '\n'
}

/// Every character of `s` satisfies `p`.
pub open spec fn chars_ok(s: Seq<char>, p: spec_fn(char) -> bool) -> bool {
    forall|k: int| 0 <= k < s.len() ==> #[trigger] p(s[k])
}

/// A text without LaTeX commands, comments, mathematics or carriage returns.
pub open spec fn is_plain_input(s: Seq<char>) -> bool {
    forall|k: int| 0 <= k < s.len() ==> #[trigger] s[k] != '\\' && s[k] != '%' && s[k] != '$' && s[k] != '\r'
}

proof fn lemma_sub_ok(s: Seq<char>, a: int, b: int, p: spec_fn(char) -> bool)
    requires
        chars_ok(s, p),
        0 <= a <= b <= s.len(),
    ensures
        chars_ok(s.subrange(a, b), p),
{
    assert forall|k: int| 0 <= k < b - a implies #[trigger] p(s.subrange(a, b)[k]) by {
        assert(s.subrange(a, b)[k] == s[a + k]);
    }
}

proof fn lemma_trim_ok(y: Seq<char>, p: spec_fn(char) -> bool)
    requires
        chars_ok(y, p),
    ensures
        chars_ok(trim(y), p),
        chars_ok(trim_start(y), p),
{
    lemma_lead_ws(y);
    let l = lead_ws(y) as int;
    let z = trim_start(y);
    assert(z == y.skip(l));
    assert forall|k: int| 0 <= k < z.len() implies #[trigger] p(z[k]) by {
        assert(z[k] == y[k + l]);
    }
    lemma_trail_ws(z);
    let t = trim(y);
    assert(t == z.take(z.len() - trail_ws(z)));
    assert forall|k: int| 0 <= k < t.len() implies #[trigger] p(t[k]) by {
        assert(t[k] == z[k]);
    }
}

proof fn lemma_words_ok(x: Seq<char>, p: spec_fn(char) -> bool)
    requires
        forall|k: int| 0 <= k < x.len() ==> p(#[trigger] x[k]) || is_ws(x[k]),
    ensures
        forall|i: int, j: int|
            0 <= i < words(x).len() && 0 <= j < words(x)[i].len() ==> #[trigger] p(words(x)[i][j]),
    decreases x.len(),
{
    if x.len() > 0 {
        let d = x.drop_last();
        assert forall|k: int| 0 <= k < d.len() implies p(#[trigger] d[k]) || is_ws(d[k]) by {
            assert(d[k] == x[k]);
        }
        lemma_words_ok(d, p);
        lemma_words_nonempty(d);
        let prev = words(d);
        let c = x.last();
        let cur = words(x);
        if !is_ws(c) {
            assert(p(c));
            assert forall|i: int, j: int| 0 <= i < cur.len() && 0 <= j < cur[i].len() implies #[trigger] p(cur[i][j]) by {
                if x.len() >= 2 && !is_ws(x[x.len() - 2]) {
                    assert(d.last() == x[x.len() - 2]);
                    if i < prev.len() - 1 {
                        assert(cur[i] == prev[i]);
                    } else {
                        assert(cur[i] == prev.last().push(c));
                        if j < prev.last().len() {
                            assert(cur[i][j] == prev[prev.len() - 1][j]);
                        }
                    }
                } else {
                    if i < prev.len() {
                        assert(cur[i] == prev[i]);
                    } else {
                        assert(cur[i] == seq![c]);
                    }
                }
            }
        }
    }
}

proof fn lemma_join_ok(ws: Seq<Seq<char>>, sep: Seq<char>, p: spec_fn(char) -> bool)
    requires
        forall|i: int| 0 <= i < ws.len() ==> chars_ok(#[trigger] ws[i], p),
        chars_ok(sep, p),
    ensures
        chars_ok(join(ws, sep), p),
    decreases ws.len(),
{
    if ws.len() > 1 {
        let d = ws.drop_last();
        assert forall|i: int| 0 <= i < d.len() implies chars_ok(#[trigger] d[i], p) by {
            assert(d[i] == ws[i]);
        }
        lemma_join_ok(d, sep, p);
        let a = join(d, sep);
        let b = ws.last();
        assert(chars_ok(b, p));
        let r = a + sep + b;
        assert forall|k: int| 0 <= k < r.len() implies #[trigger] p(r[k]) by {
            if k < a.len() {
                assert(r[k] == a[k]);
            } else if k < a.len() + sep.len() {
                assert(r[k] == sep[k - a.len()]);
            } else {
                assert(r[k] == b[k - a.len() - sep.len()]);
            }
        }
    } else if ws.len() == 1 {
        assert(chars_ok(ws[0], p));
    }
}

proof fn lemma_collapse_ok(x: Seq<char>, p: spec_fn(char) -> bool)
    requires
        chars_ok(x, p),
        p(' '),
    ensures
        chars_ok(collapse(x), p),
{
    lemma_words_ok(x, p);
    let ws = words(x);
    assert forall|i: int| 0 <= i < ws.len() implies chars_ok(#[trigger] ws[i], p) by {
        assert forall|j: int| 0 <= j < ws[i].len() implies #[trigger] p(ws[i][j]) by {}
    }
    assert forall|k: int| 0 <= k < seq![' '].len() implies #[trigger] p(seq![' '][k]) by {}
    lemma_join_ok(ws, seq![' '], p);
}

proof fn lemma_sent_scan_ok(s: Seq<char>, i: int, start: int, p: spec_fn(char) -> bool)
    requires
        chars_ok(s, p),
        0 <= start <= i <= s.len(),
    ensures
        forall|k: int| 0 <= k < sent_scan(s, i, start).len() ==> chars_ok(#[trigger] sent_scan(s, i, start)[k], p),
    decreases s.len() - i,
{
    let r = sent_scan(s, i, start);
    if i >= s.len() {
        if start < s.len() {
            lemma_sub_ok(s, start, s.len() as int, p);
            lemma_trim_ok(s.subrange(start, s.len() as int), p);
            assert(r == piece(trim(s.subrange(start, s.len() as int))));
        } else {
            assert(r.len() == 0);
        }
    } else {
        let ch = s[i];
        if !is_mark(ch) || (ch == '.' && crate::sentences::is_decimal_point_spec(s, i)) || (ch
            == '.' && crate::sentences::is_abbreviation_spec(s, i)) {
            lemma_sent_scan_ok(s, i + 1, start, p);
            assert(r == sent_scan(s, i + 1, start));
        } else {
            let j = closers_end(s, i + 1);
            lemma_closers_end(s, i + 1);
            lemma_sub_ok(s, start, j, p);
            lemma_trim_ok(s.subrange(start, j), p);
            let a = piece(trim(s.subrange(start, j)));
            if j == s.len() {
                assert(r == a);
            } else if is_ws(s[j]) {
                let next = ws_end(s, j);
                lemma_ws_end(s, j);
                if next == s.len() {
                    assert(r == a);
                } else if ch != '.' || !crate::chars::unicode_lowercase(s[next]) {
                    lemma_sent_scan_ok(s, next, next, p);
                    let b = sent_scan(s, next, next);
                    assert(r == a + b);
                    assert forall|k: int| 0 <= k < (a + b).len() implies chars_ok(#[trigger] (a + b)[k], p) by {
                        if k < a.len() {
                            assert((a + b)[k] == a[k]);
                        } else {
                            assert((a + b)[k] == b[k - a.len()]);
                        }
                    }
                } else {
                    lemma_sent_scan_ok(s, i + 1, start, p);
                    assert(r == sent_scan(s, i + 1, start));
                }
            } else {
                lemma_sent_scan_ok(s, i + 1, start, p);
                assert(r == sent_scan(s, i + 1, start));
            }
        }
    }
}


proof fn lemma_split_on_ok(s: Seq<char>, sep: char, p: spec_fn(char) -> bool)
    requires
        forall|k: int| 0 <= k < s.len() ==> #[trigger] s[k] == sep || p(s[k]),
    ensures
        forall|k: int| 0 <= k < split_on(s, sep).len() ==> chars_ok(#[trigger] split_on(s, sep)[k], p),
    decreases s.len(),
{
    if s.len() > 0 {
        let d = s.drop_last();
        assert forall|k: int| 0 <= k < d.len() implies #[trigger] d[k] == sep || p(d[k]) by {
            assert(d[k] == s[k]);
        }
        lemma_split_on_ok(d, sep, p);
        lemma_split_on_len(d, sep);
        let prev = split_on(d, sep);
        let cur = split_on(s, sep);
        assert forall|k: int| 0 <= k < cur.len() implies chars_ok(#[trigger] cur[k], p) by {
            if s.last() == sep {
                if k < prev.len() {
                    assert(cur[k] == prev[k]);
                } else {
                    assert(cur[k] == Seq::<char>::empty());
                }
            } else {
                if k < prev.len() - 1 {
                    assert(cur[k] == prev[k]);
                } else {
                    let w = prev.last().push(s.last());
                    assert(cur[k] == w);
                    assert(chars_ok(prev[prev.len() - 1], p));
                    assert forall|j: int| 0 <= j < w.len() implies #[trigger] p(w[j]) by {
                        if j < prev.last().len() {
                            assert(w[j] == prev[prev.len() - 1][j]);
                        }
                    }
                }
            }
        }
    }
}

proof fn lemma_split_on_concat(a: Seq<char>, b: Seq<char>, sep: char)
    requires
        a.len() == 0 || a.last() == sep,
    ensures
        split_on(a + b, sep) == split_on(a, sep).drop_last() + split_on(b, sep),
    decreases b.len(),
{
    lemma_split_on_len(a, sep);
    if b.len() == 0 {
        assert(a + b =~= a);
        if a.len() > 0 {
            assert(a.drop_last().push(sep) =~= a);
        }
        assert(split_on(a, sep).last() =~= Seq::<char>::empty());
        assert(split_on(a, sep) =~= split_on(a, sep).drop_last() + split_on(b, sep));
    } else {
        let bd = b.drop_last();
        lemma_split_on_concat(a, bd, sep);
        lemma_split_on_len(bd, sep);
        assert((a + b).drop_last() =~= a + bd);
        assert((a + b).last() == b.last());
        let aa = split_on(a, sep).drop_last();
        let bb = split_on(bd, sep);
        if b.last() == sep {
            assert((aa + bb).push(seq![]) =~= aa + bb.push(seq![]));
        } else {
            let c = b.last();
            assert((aa + bb).last() == bb.last());
            assert((aa + bb).update((aa + bb).len() - 1, (aa + bb).last().push(c)) =~= aa + bb.update(
                bb.len() - 1,
                bb.last().push(c),
            ));
        }
    }
}

proof fn lemma_split_on_whole(t: Seq<char>, sep: char)
    requires
        forall|k: int| 0 <= k < t.len() ==> #[trigger] t[k] != sep,
    ensures
        split_on(t, sep) == seq![t],
    decreases t.len(),
{
    if t.len() > 0 {
        let d = t.drop_last();
        assert forall|k: int| 0 <= k < d.len() implies #[trigger] d[k] != sep by {
            assert(d[k] == t[k]);
        }
        lemma_split_on_whole(d, sep);
        assert(d.push(t.last()) =~= t);
        assert(seq![d].update(0, d.push(t.last())) =~= seq![t]);
    } else {
        assert(t =~= Seq::<char>::empty());
    }
}

/// A text that is empty or ends with a newline, without carriage returns.
spec fn whole_lines(t: Seq<char>) -> bool {
    &&& (t.len() == 0 || t.last() == '\n')
    &&& forall|k: int| 0 <= k < t.len() ==> #[trigger] t[k] != '\r'
}

proof fn lemma_lines_split(t: Seq<char>)
    requires
        whole_lines(t),
    ensures
        lines_of(t) == split_on(t, '\n').drop_last(),
{
    lemma_split_on_len(t, '\n');
    let ps = split_on(t, '\n');
    if t.len() > 0 {
        assert(t.drop_last().push('\n') =~= t);
    }
    assert(ps.last() =~= Seq::<char>::empty());
    let q = |c: char| c != '\r';
    lemma_split_on_ok(t, '\n', q);
    assert forall|k: int| 0 <= k < ps.len() - 1 implies strip_cr(#[trigger] ps[k]) == ps[k] by {
        assert(chars_ok(ps[k], q));
        if ps[k].len() > 0 {
            assert(q(ps[k][ps[k].len() - 1]));
        }
    }
    assert(lines_of(t) =~= ps.drop_last());
}

proof fn lemma_lines_concat(a: Seq<char>, b: Seq<char>)
    requires
        whole_lines(a),
        whole_lines(b),
    ensures
        whole_lines(a + b),
        lines_of(a + b) == lines_of(a) + lines_of(b),
{
    let ab = a + b;
    assert forall|k: int| 0 <= k < ab.len() implies #[trigger] ab[k] != '\r' by {
        if k < a.len() {
            assert(ab[k] == a[k]);
        } else {
            assert(ab[k] == b[k - a.len()]);
        }
    }
    if b.len() == 0 {
        assert(ab =~= a);
    } else {
        assert(ab.last() == b.last());
    }
    lemma_lines_split(a);
    lemma_lines_split(b);
    lemma_lines_split(ab);
    lemma_split_on_concat(a, b, '\n');
    lemma_split_on_len(b, '\n');
    let sa = split_on(a, '\n').drop_last();
    let sb = split_on(b, '\n');
    assert((sa + sb).drop_last() =~= sa + sb.drop_last());
}

proof fn lemma_lines_one(t: Seq<char>)
    requires
        forall|k: int| 0 <= k < t.len() ==> #[trigger] t[k] != '\n' && t[k] != '\r',
    ensures
        whole_lines(t.push('\n')),
        lines_of(t.push('\n')) == seq![t],
{
    let tn = t.push('\n');
    assert forall|k: int| 0 <= k < tn.len() implies #[trigger] tn[k] != '\r' by {
        if k < t.len() {
            assert(tn[k] == t[k]);
        }
    }
    lemma_lines_split(tn);
    lemma_split_on_whole(t, '\n');
    assert(tn.drop_last() =~= t);
    assert(split_on(tn, '\n') == seq![t].push(seq![]));
    assert(split_on(tn, '\n').drop_last() =~= seq![t]);
}

/// The state after `k` more lines, starting from `st`.
spec fn run_from(st: TexState, lines: Seq<Seq<char>>, k: int) -> TexState
    decreases k,
{
    if k <= 0 {
        st
    } else {
        step(run_from(st, lines, k - 1), lines[k - 1])
    }
}

proof fn lemma_run_prefix(l1: Seq<Seq<char>>, l2: Seq<Seq<char>>, j: int)
    requires
        0 <= j <= l1.len(),
    ensures
        run(l1 + l2, j) == run(l1, j),
    decreases j,
{
    if j > 0 {
        lemma_run_prefix(l1, l2, j - 1);
        assert((l1 + l2)[j - 1] == l1[j - 1]);
    }
}

proof fn lemma_run_concat(l1: Seq<Seq<char>>, l2: Seq<Seq<char>>, k: int)
    requires
        0 <= k <= l2.len(),
    ensures
        run(l1 + l2, l1.len() + k) == run_from(run(l1, l1.len() as int), l2, k),
    decreases k,
{
    if k == 0 {
        lemma_run_prefix(l1, l2, l1.len() as int);
    } else {
        lemma_run_concat(l1, l2, k - 1);
        assert((l1 + l2)[l1.len() + k - 1] == l2[k - 1]);
    }
}


proof fn lemma_no_prefix(s: Seq<char>, lit: Seq<char>)
    requires
        lit.len() > 0,
        s.len() > 0,
        s[0] != lit[0],
    ensures
        !crate::text::has_prefix(s, lit),
{
    if crate::text::has_prefix(s, lit) {
        assert(s.take(lit.len() as int)[0] == s[0]);
    }
}

proof fn lemma_pct_none(s: Seq<char>, i: int, bs: nat)
    requires
        forall|k: int| 0 <= k < s.len() ==> #[trigger] s[k] != '%',
    ensures
        !crate::fixtex::pct_scan(s, i, bs),
    decreases s.len() - i,
{
    if 0 <= i < s.len() {
        if s[i] == '\\' {
            lemma_pct_none(s, i + 1, bs + 1);
        } else {
            lemma_pct_none(s, i + 1, 0);
        }
    }
}

/// In plain text every line is part of a paragraph or an empty line.
proof fn lemma_plain_step(st: TexState, line: Seq<char>)
    requires
        st.ignored is None,
        st.math is None,
        chars_ok(line, |c: char| is_plain_char(c)),
    ensures
        trim_start(line).len() == 0 ==> step(st, line) == flush_and_blank(st),
        trim_start(line).len() > 0 ==> step(st, line) == (TexState { para: st.para.push(line), ..st }),
{
    let p = |c: char| is_plain_char(c);
    let t = trim_start(line);
    lemma_trim_ok(line, p);
    assert forall|k: int| 0 <= k < line.len() implies #[trigger] line[k] != '%' by {
        assert(p(line[k]));
    }
    lemma_pct_none(line, 0, 0);
    if t.len() > 0 {
        assert(p(t[0]));
        assert(p(t[t.len() - 1]));
        reveal_strlit("%");
        reveal_strlit("\\[");
        reveal_strlit("$$");
        reveal_strlit("\\begin{");
        reveal_strlit("\\end{");
        reveal_strlit("\\caption");
        reveal_strlit("\\subcaption");
        reveal_strlit("\\item");
        reveal_strlit("\\noindent");
        reveal_strlit("\\\\");
        reveal_strlit("\\");
        lemma_no_prefix(t, "%"@);
        lemma_no_prefix(t, "\\["@);
        lemma_no_prefix(t, "$$"@);
        lemma_no_prefix(t, "\\begin{"@);
        lemma_no_prefix(t, "\\end{"@);
        lemma_no_prefix(t, "\\caption"@);
        lemma_no_prefix(t, "\\subcaption"@);
        lemma_no_prefix(t, "\\item"@);
        lemma_no_prefix(t, "\\noindent"@);
        lemma_no_prefix(t, "\\"@);
        if crate::text::has_suffix(t, "\\\\"@) {
            assert(t.skip(t.len() - 2)[1] == t[t.len() - 1]);
        }
        assert(!is_split_caption(t));
        assert(!crate::fixtex::is_barrier(line));
    }
}

proof fn lemma_nonblank_trim(line: Seq<char>)
    requires
        trim_start(line).len() > 0,
    ensures
        is_line_text(trim(line)) || !no_nl(line),
        trim(line).len() > 0,
        !is_ws(trim(line)[0]),
        !is_ws(trim(line).last()),
{
    lemma_lead_ws(line);
    let l = lead_ws(line) as int;
    let z = trim_start(line);
    assert(z == line.skip(l));
    assert(z[0] == line[l]);
    lemma_trail_ws(z);
    if trail_ws(z) == z.len() {
        assert(is_ws(z[0]));
    }
    lemma_trim_shape(line);
    if no_nl(line) {
    }
}

/// The paragraph lines of plain text.
spec fn plain_para(para: Seq<Seq<char>>) -> bool {
    forall|k: int|
        0 <= k < para.len() ==> chars_ok(#[trigger] para[k], |c: char| is_plain_char(c)) && trim_start(
            para[k],
        ).len() > 0
}

/// Sentences of plain text.
spec fn plain_sentences(ss: Seq<Seq<char>>) -> bool {
    forall|k: int|
        0 <= k < ss.len() ==> is_line_text(#[trigger] ss[k]) && chars_ok(ss[k], |c: char| is_plain_char(c))
}

proof fn lemma_para_pieces_trim(para: Seq<Seq<char>>)
    requires
        plain_para(para),
    ensures
        para_pieces(para, seq![]) == Seq::new(para.len(), |k: int| trim(para[k])),
    decreases para.len(),
{
    if para.len() > 0 {
        let d = para.drop_last();
        assert forall|k: int| 0 <= k < d.len() implies chars_ok(#[trigger] d[k], |c: char| is_plain_char(c))
            && trim_start(d[k]).len() > 0 by {
            assert(d[k] == para[k]);
        }
        lemma_para_pieces_trim(d);
        let line = para.last();
        assert(line.take(0) =~= Seq::<char>::empty());
        assert(line.skip(0) =~= line);
        lemma_nonblank_trim(line);
        assert(Seq::new(para.len(), |k: int| trim(para[k])) =~= Seq::new(d.len(), |k: int| trim(d[k])).push(
            trim(line),
        ));
    }
}

/// The sentences of a plain paragraph.
spec fn para_sentences(para: Seq<Seq<char>>) -> Seq<Seq<char>> {
    split_sentences_spec(collapse(join(para_pieces(para, seq![]), seq![' '])))
}

proof fn lemma_para_idem(para: Seq<Seq<char>>)
    requires
        para.len() > 0,
        plain_para(para),
    ensures
        paragraph_text(para, seq![]) == sentence_lines(seq![], seq![], seq![], para_sentences(para)),
        para_sentences(para).len() > 0,
        plain_sentences(para_sentences(para)),
        plain_para(para_sentences(para)),
        paragraph_text(para_sentences(para), seq![]) == paragraph_text(para, seq![]),
{
    let p = |c: char| is_plain_char(c);
    lemma_para_pieces_trim(para);
    let pieces = para_pieces(para, seq![]);
    assert forall|k: int| 0 <= k < pieces.len() implies chars_ok(#[trigger] pieces[k], p) && pieces[k].len() > 0
        && !is_ws(pieces[k][0]) && !is_ws(pieces[k].last()) by {
        assert(pieces[k] == trim(para[k]));
        assert(chars_ok(para[k], p) && trim_start(para[k]).len() > 0);
        lemma_trim_ok(para[k], p);
        lemma_nonblank_trim(para[k]);
    }
    reveal_strlit("\\item");
    reveal_strlit("\\noindent");
    assert(p(pieces[0][0]));
    lemma_no_prefix(pieces[0], "\\item"@);
    lemma_no_prefix(pieces[0], "\\noindent"@);
    assert(take_prefix_spec(pieces[0]) is None);
    let x = join(pieces, seq![' ']);
    assert forall|k: int| 0 <= k < seq![' '].len() implies #[trigger] p(seq![' '][k]) by {}
    lemma_join_ok(pieces, seq![' '], p);
    let c = collapse(x);
    lemma_collapse_ok(x, p);
    // the joined text ends with a non-whitespace character, so it has words
    if pieces.len() == 1 {
        assert(x == pieces[0]);
    } else {
        assert(x == join(pieces.drop_last(), seq![' ']) + seq![' '] + pieces.last());
        assert(x.last() == pieces.last().last());
    }
    assert(x.len() > 0 && !is_ws(x.last()));
    lemma_words_nonempty(x);
    law_collapse(x);
    if c.len() == 0 {
        assert(words(c) =~= Seq::<Seq<char>>::empty());
    }
    let ss = para_sentences(para);
    lemma_collapse_no_nl(x);
    lemma_sent_scan_shape(c, 0, 0);
    lemma_sent_scan_ok(c, 0, 0, p);
    law_sentences_keep_text(x);
    if ss.len() == 0 {
        assert(join(ss, seq![' ']) =~= Seq::<char>::empty());
    }
    assert forall|k: int| 0 <= k < ss.len() implies is_line_text(#[trigger] ss[k]) && chars_ok(ss[k], p) by {}
    assert forall|k: int| 0 <= k < ss.len() implies chars_ok(#[trigger] ss[k], p) && trim_start(ss[k]).len() > 0 by {
        assert(is_line_text(ss[k]));
        lemma_trim_plain(ss[k]);
        lemma_lead_ws(ss[k]);
    }
    // formatting the sentences again
    lemma_para_pieces_trim(ss);
    let pieces2 = para_pieces(ss, seq![]);
    assert forall|k: int| 0 <= k < ss.len() implies trim(ss[k]) == ss[k] by {
        assert(is_line_text(ss[k]));
        lemma_trim_plain(ss[k]);
    }
    assert(pieces2 =~= ss);
    assert(p(ss[0][0]));
    lemma_no_prefix(ss[0], "\\item"@);
    lemma_no_prefix(ss[0], "\\noindent"@);
    assert(take_prefix_spec(ss[0]) is None);
    law_collapse(c);
    assert(collapse(join(ss, seq![' '])) == c);
}


proof fn lemma_sentence_text_lines(ss: Seq<Seq<char>>)
    requires
        plain_sentences(ss),
    ensures
        whole_lines(sentence_lines(seq![], seq![], seq![], ss)),
        lines_of(sentence_lines(seq![], seq![], seq![], ss)) == ss,
        ss.len() > 0 ==> ({
            let t = sentence_lines(seq![], seq![], seq![], ss);
            t.len() >= 2 && t.last() == '\n' && t[t.len() - 2] != '\n'
        }),
    decreases ss.len(),
{
    let t = sentence_lines(seq![], seq![], seq![], ss);
    if ss.len() == 0 {
        assert(t =~= Seq::<char>::empty());
        lemma_lines_split(t);
        assert(split_on(t, '\n') =~= seq![Seq::<char>::empty()]);
        assert(lines_of(t) =~= ss);
    } else {
        let d = ss.drop_last();
        assert forall|k: int| 0 <= k < d.len() implies is_line_text(#[trigger] d[k]) && chars_ok(d[k], |c: char| is_plain_char(c)) by {
            assert(d[k] == ss[k]);
        }
        lemma_sentence_text_lines(d);
        let last = ss.last();
        assert(is_line_text(last));
        assert(chars_ok(last, |c: char| is_plain_char(c)));
        lemma_trim_plain(last);
        let td = sentence_lines(seq![], seq![], seq![], d);
        assert(t =~= td + last.push('\n'));
        assert forall|k: int| 0 <= k < last.len() implies #[trigger] last[k] != '\n' && last[k] != '\r' by {
            assert((|c: char| is_plain_char(c))(last[k]));
        }
        lemma_lines_one(last);
        lemma_lines_concat(td, last.push('\n'));
        assert(d.push(last) =~= ss);
        assert(t[t.len() - 2] == last.last());
    }
}

proof fn lemma_run_sentences(t0: TexState, ss: Seq<Seq<char>>, k: int)
    requires
        t0.ignored is None,
        t0.math is None,
        t0.para == Seq::<Seq<char>>::empty(),
        plain_sentences(ss),
        0 <= k <= ss.len(),
    ensures
        run_from(t0, ss, k) == (TexState { para: ss.take(k), ..t0 }),
    decreases k,
{
    if k > 0 {
        lemma_run_sentences(t0, ss, k - 1);
        let line = ss[k - 1];
        assert(is_line_text(line));
        lemma_lead_ws(line);
        assert(trim_start(line).len() > 0);
        lemma_plain_step(run_from(t0, ss, k - 1), line);
        assert(ss.take(k - 1).push(line) =~= ss.take(k));
    } else {
        assert(ss.take(0) =~= Seq::<Seq<char>>::empty());
    }
}

/// What formatting plain text keeps between lines: the output so far ends
/// with an empty line (or is empty) and formats to itself.
spec fn idem_inv(st: TexState) -> bool {
    &&& st.ignored is None
    &&& st.math is None
    &&& st.depth == 0
    &&& (st.out.len() == 0 || ends_blank(st.out))
    &&& whole_lines(st.out)
    &&& plain_para(st.para)
    &&& run(lines_of(st.out), lines_of(st.out).len() as int) == (TexState {
        out: st.out,
        para: seq![],
        ignored: None,
        math: None,
        depth: 0,
    })
}

proof fn lemma_idem_step(st: TexState, line: Seq<char>)
    requires
        idem_inv(st),
        chars_ok(line, |c: char| is_plain_char(c)),
    ensures
        idem_inv(step(st, line)),
{
    lemma_plain_step(st, line);
    assert(indent_text(0) =~= Seq::<char>::empty());
    if trim_start(line).len() > 0 {
        let p2 = st.para.push(line);
        assert forall|k: int| 0 <= k < p2.len() implies chars_ok(#[trigger] p2[k], |c: char| is_plain_char(c))
            && trim_start(p2[k]).len() > 0 by {
            if k < st.para.len() {
                assert(p2[k] == st.para[k]);
            }
        }
    } else {
        let ns = flush_and_blank(st);
        let o1 = flushed(st);
        if st.para.len() == 0 {
            assert(paragraph_text(st.para, seq![]) =~= Seq::<char>::empty());
            assert(o1 =~= st.out);
            if !ends_blank(st.out) {
                assert(st.out.len() == 0);
                let e = Seq::<char>::empty();
                assert(ns.out =~= e.push('\n'));
                lemma_lines_one(e);
                let ls = seq![e];
                let init = TexState { out: seq![], para: seq![], ignored: None, math: None, depth: 0 };
                assert(run(ls, 0) == init);
                lemma_plain_step(init, e);
                assert(paragraph_text(init.para, indent_text(0)) =~= Seq::<char>::empty());
                assert(flushed(init) =~= e);
                assert(run(ls, 1) == step(init, e));
                assert(step(init, e).out =~= e.push('\n'));
            }
        } else {
            lemma_para_idem(st.para);
            let ss = para_sentences(st.para);
            lemma_sentence_text_lines(ss);
            let sl = sentence_lines(seq![], seq![], seq![], ss);
            assert(o1 == st.out + sl);
            assert(o1.last() == sl.last());
            assert(o1[o1.len() - 2] == sl[sl.len() - 2]);
            assert(!ends_blank(o1));
            let e = Seq::<char>::empty();
            assert(ns.out =~= o1 + e.push('\n'));
            lemma_lines_concat(st.out, sl);
            lemma_lines_one(e);
            lemma_lines_concat(o1, e.push('\n'));
            let l0 = lines_of(st.out);
            let l1 = l0 + ss;
            let full = l1 + seq![e];
            assert(lines_of(ns.out) == full);
            lemma_run_prefix(l1, seq![e], l1.len() as int);
            lemma_run_concat(l0, ss, ss.len() as int);
            let t0 = run(l0, l0.len() as int);
            lemma_run_sentences(t0, ss, ss.len() as int);
            assert(ss.take(ss.len() as int) =~= ss);
            let t1 = TexState { para: ss, ..t0 };
            assert(run(full, full.len() - 1) == t1);
            assert(full[full.len() - 1] == e);
            lemma_plain_step(t1, e);
            assert(flushed(t1) == st.out + paragraph_text(ss, seq![]));
            assert(run(full, full.len() as int) == step(t1, e));
        }
    }
}

proof fn lemma_input_lines_plain(input: Seq<char>)
    requires
        is_plain_input(input),
    ensures
        forall|k: int| 0 <= k < lines_of(input).len() ==> chars_ok(#[trigger] lines_of(input)[k], |c: char| is_plain_char(c)),
{
    let p = |c: char| is_plain_char(c);
    assert forall|k: int| 0 <= k < input.len() implies #[trigger] input[k] == '\n' || p(input[k]) by {}
    lemma_split_on_ok(input, '\n', p);
    lemma_split_on_len(input, '\n');
    let ps = split_on(input, '\n');
    assert forall|k: int| 0 <= k < lines_of(input).len() implies chars_ok(#[trigger] lines_of(input)[k], p) by {
        assert(chars_ok(ps[k], p));
        let w = ps[k];
        if k < ps.len() - 1 && w.len() > 0 && w.last() == '\r' {
            assert forall|j: int| 0 <= j < w.drop_last().len() implies #[trigger] p(w.drop_last()[j]) by {
                assert(w.drop_last()[j] == w[j]);
            }
        }
    }
}

proof fn lemma_idem_run(input: Seq<char>, k: int)
    requires
        is_plain_input(input),
        0 <= k <= lines_of(input).len(),
    ensures
        idem_inv(run(lines_of(input), k)),
    decreases k,
{
    let ls = lines_of(input);
    if k == 0 {
        let e = Seq::<char>::empty();
        lemma_lines_split(e);
        assert(split_on(e, '\n') =~= seq![e]);
        assert(lines_of(e) =~= Seq::<Seq<char>>::empty());
    } else {
        lemma_idem_run(input, k - 1);
        lemma_input_lines_plain(input);
        lemma_idem_step(run(ls, k - 1), ls[k - 1]);
    }
}

/// Formatting is stable: formatting plain text (no commands, comments,
/// mathematics or carriage returns) a second time gives what the first
/// formatting gave.
pub proof fn law_format_twice(input: Seq<char>)
    requires
        is_plain_input(input),
    ensures
        process_spec(process_spec(input)) == process_spec(input),
{
    let ls = lines_of(input);
    lemma_idem_run(input, ls.len() as int);
    let st = run(ls, ls.len() as int);
    assert(indent_text(0) =~= Seq::<char>::empty());
    let o = process_spec(input);
    assert(o == st.out + paragraph_text(st.para, seq![]));
    let l0 = lines_of(st.out);
    let t0 = run(l0, l0.len() as int);
    if st.para.len() == 0 {
        assert(paragraph_text(st.para, seq![]) =~= Seq::<char>::empty());
        assert(o =~= st.out);
        assert(paragraph_text(t0.para, indent_text(0)) =~= Seq::<char>::empty());
        assert(process_spec(o) =~= st.out);
    } else {
        lemma_para_idem(st.para);
        let ss = para_sentences(st.para);
        lemma_sentence_text_lines(ss);
        let sl = sentence_lines(seq![], seq![], seq![], ss);
        lemma_lines_concat(st.out, sl);
        assert(lines_of(o) == l0 + ss);
        lemma_run_concat(l0, ss, ss.len() as int);
        lemma_run_sentences(t0, ss, ss.len() as int);
        assert(ss.take(ss.len() as int) =~= ss);
        let t1 = TexState { para: ss, ..t0 };
        assert(run(lines_of(o), lines_of(o).len() as int) == t1);
        assert(process_spec(o) == st.out + paragraph_text(ss, seq![]));
    }
}


/// A split caption keeps its text: its sentences, each written on a line of
/// its own, are non-empty texts without newlines, and joined by single
/// spaces they are the caption body with its whitespace collapsed.
pub proof fn law_caption_keeps_text(t: Seq<char>)
    requires
        is_split_caption(t),
    ensures
        caption_parts(t) matches Some((p, b, x)) && caption_sentences(b).len() >= 2
            && join(caption_sentences(b), seq![' ']) == collapse(b) && forall|k: int|
            0 <= k < caption_sentences(b).len() ==> is_line_text(#[trigger] caption_sentences(b)[k]),
{
    let (p, b, x) = caption_parts(t)->0;
    let ss = caption_sentences(b);
    if collapse(b).len() == 0 {
        law_collapse(b);
        assert(split_sentences_spec(collapse(b)) =~= Seq::<Seq<char>>::empty());
    }
    law_sentences_keep_text(b);
    lemma_collapse_no_nl(b);
    lemma_sent_scan_shape(collapse(b), 0, 0);
}


// ---------------------------------------------------------------------------
// Duplicates
// ---------------------------------------------------------------------------

/// The plain author (or editor) of an entry, as the signature uses it.
pub open spec fn plain_author(e: EntryView) -> Seq<char> {
    match author_field(e) {
        Some(v) => crate::keys::latex_plain_spec(v),
        None => seq![],
    }
}

/// The plain title of an entry, as the signature uses it.
pub open spec fn plain_title(e: EntryView) -> Seq<char> {
    match assoc_get(e.fields, "title"@) {
        Some(v) => crate::keys::latex_plain_spec(v),
        None => seq![],
    }
}

proof fn lemma_join_first(ws: Seq<Seq<char>>, sep: Seq<char>)
    requires
        ws.len() > 0,
        ws[0].len() > 0,
    ensures
        join(ws, sep).len() > 0,
        join(ws, sep)[0] == ws[0][0],
    decreases ws.len(),
{
    if ws.len() > 1 {
        let d = ws.drop_last();
        assert(d[0] == ws[0]);
        lemma_join_first(d, sep);
        assert(join(ws, sep) == join(d, sep) + sep + ws.last());
    }
}

/// A non-empty plain text of LaTeX is not blank.
proof fn lemma_latex_plain_not_blank(raw: Seq<char>)
    requires
        crate::keys::latex_plain_spec(raw).len() > 0,
    ensures
        trim(crate::keys::latex_plain_spec(raw)).len() > 0,
{
    let ws = words_from_latex_spec(raw);
    let t = crate::keys::latex_plain_spec(raw);
    if ws.len() == 0 {
        assert(t =~= Seq::<char>::empty());
    }
    lemma_latex_words_key_parts(raw);
    assert(is_key_part(ws[0]));
    lemma_join_first(ws, seq![' ']);
    assert(is_key_char(t[0]));
    assert(!is_ws(t[0]));
    lemma_lead_ws(t);
    assert(lead_ws(t) == 0);
    assert(trim_start(t) =~= t);
    lemma_trail_ws(t);
    if trail_ws(t) == t.len() {
        assert(is_ws(t[0]));
    }
}

/// Duplicates are found whatever their keys: two entries with the same plain
/// author (or editor), the same non-empty plain title and the same year have
/// the same signature, however their citation keys, markup, letter case,
/// accents or spacing differ.
pub proof fn law_equal_signatures(e1: EntryView, e2: EntryView)
    requires
        plain_author(e1) == plain_author(e2),
        plain_title(e1) == plain_title(e2),
        plain_title(e1).len() > 0,
        entry_year_spec(e1) == entry_year_spec(e2),
    ensures
        entry_signature_spec(e1) == entry_signature_spec(e2),
{
    let raw = assoc_get(e1.fields, "title"@)->Some_0;
    if assoc_get(e1.fields, "title"@) is None {
        assert(plain_title(e1) =~= Seq::<char>::empty());
    }
    lemma_latex_plain_not_blank(raw);
    if assoc_get(e2.fields, "title"@) is None {
        assert(plain_title(e2) =~= Seq::<char>::empty());
    }
}

} // verus!
