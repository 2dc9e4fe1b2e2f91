//! The bibliography fixer: merges duplicate entries, drops unused ones,
//! gives every kept entry a unified key, rewrites the citations and renders
//! the bibliography files.
use vstd::prelude::*;
use crate::chars::{eq_lit, chars_eq, chars_of};
use crate::text::{copy_range, append_chars, append_lit, trim_end, trim_end_chars, has_prefix};
use crate::bib::{EntryView, BibEntry, entries_view, parse_bib_spec, parse_bib};
use crate::cite::{
    cited_keys, collect_used_citation_keys, Rename, KeyYear, renames_view, years_view,
    rewrite_spec, rewrite_tex_citations,
};
use crate::keys::{
    entry_signature_spec, entry_signature, make_new_key_spec, make_new_key, unique_key_spec,
    unique_key, keys_view, contains_key, entry_year_num_spec, entry_year_i32,
};

verus! {

// ---------------------------------------------------------------------------
// Reading all files
// ---------------------------------------------------------------------------

/// All entries of the bibliography files, file after file.
pub open spec fn all_entries(raws: Seq<Seq<char>>) -> Seq<EntryView> {
    Seq::new(raws.len(), |f: int| parse_bib_spec(raws[f], f as usize).1).flatten()
}

/// All keys cited in the LaTeX files, file after file.
pub open spec fn all_cited(texs: Seq<Seq<char>>) -> Seq<Seq<char>> {
    Seq::new(texs.len(), |t: int| cited_keys(texs[t])).flatten()
}

/// The views of a list of texts.
pub open spec fn texts_view(v: Seq<Vec<char>>) -> Seq<Seq<char>> {
    v.map_values(|t: Vec<char>| t@)
}

/// Parses every bibliography file; file `f` gets index `f`.
pub fn parse_all(raws: &Vec<Vec<char>>) -> (r: (Vec<Vec<Vec<char>>>, Vec<BibEntry>))
    ensures
        r.0@.len() == raws@.len(),
        forall|f: int|
            0 <= f < raws@.len() ==> texts_view((#[trigger] r.0@[f])@) == parse_bib_spec(
                raws@[f]@,
                f as usize,
            ).0,
        entries_view(r.1@) == all_entries(texts_view(raws@)),
{
    let ghost rv = texts_view(raws@);
    let mut specials: Vec<Vec<Vec<char>>> = Vec::new();
    let mut entries: Vec<BibEntry> = Vec::new();
    let mut f: usize = 0;
    while f < raws.len()
        invariant
            f <= raws@.len(),
            rv == texts_view(raws@),
            specials@.len() == f,
            forall|g: int|
                0 <= g < f ==> texts_view((#[trigger] specials@[g])@) == parse_bib_spec(
                    raws@[g]@,
                    g as usize,
                ).0,
            entries_view(entries@) == Seq::new(f as nat, |g: int| parse_bib_spec(rv[g], g as usize).1).flatten(),
        decreases raws@.len() - f,
    {
        let (sp, mut es) = parse_bib(raws[f].as_slice(), f);
        assert(texts_view(sp@) =~= parse_bib_spec(raws@[f as int]@, f).0);
        specials.push(sp);
        proof {
            let fun = |g: int| parse_bib_spec(rv[g], g as usize).1;
            assert(Seq::new((f + 1) as nat, fun) =~= Seq::new(f as nat, fun).push(fun(f as int)));
            Seq::new(f as nat, fun).lemma_flatten_push(fun(f as int));
            assert(entries_view(entries@ + es@) =~= entries_view(entries@) + entries_view(es@));
        }
        entries.append(&mut es);
        f += 1;
    }
    proof {
        assert(Seq::new(f as nat, |g: int| parse_bib_spec(rv[g], g as usize).1) =~= Seq::new(
            rv.len(),
            |g: int| parse_bib_spec(rv[g], g as usize).1,
        ));
    }
    (specials, entries)
}

/// Collects the cited keys of every LaTeX file.
pub fn collect_all_cited(texs: &Vec<Vec<char>>) -> (r: Vec<Vec<char>>)
    ensures
        keys_view(r@) == all_cited(texts_view(texs@)),
{
    let ghost tv = texts_view(texs@);
    let mut used: Vec<Vec<char>> = Vec::new();
    let mut t: usize = 0;
    while t < texs.len()
        invariant
            t <= texs@.len(),
            tv == texts_view(texs@),
            keys_view(used@) == Seq::new(t as nat, |u: int| cited_keys(tv[u])).flatten(),
        decreases texs@.len() - t,
    {
        let (mut ks, _) = collect_used_citation_keys(texs[t].as_slice());
        proof {
            assert(keys_view(ks@) =~= cited_keys(tv[t as int]));
            let fun = |u: int| cited_keys(tv[u]);
            assert(Seq::new((t + 1) as nat, fun) =~= Seq::new(t as nat, fun).push(fun(t as int)));
            Seq::new(t as nat, fun).lemma_flatten_push(fun(t as int));
            assert(keys_view(used@ + ks@) =~= keys_view(used@) + keys_view(ks@));
        }
        used.append(&mut ks);
        t += 1;
    }
    proof {
        assert(Seq::new(t as nat, |u: int| cited_keys(tv[u])) =~= Seq::new(
            tv.len(),
            |u: int| cited_keys(tv[u]),
        ));
    }
    used
}

// ---------------------------------------------------------------------------
// Duplicate groups and representatives
// ---------------------------------------------------------------------------

/// Entries `i` and `j` have the same signature, so they are duplicates.
pub open spec fn same_group(es: Seq<EntryView>, i: int, j: int) -> bool {
    entry_signature_spec(es[j]) == entry_signature_spec(es[i])
}

/// The first entry from `j` on in the group of `i` (whose key is cited when
/// `want_cited`).
pub open spec fn first_in_group(
    es: Seq<EntryView>,
    used: Seq<Seq<char>>,
    i: int,
    j: int,
    want_cited: bool,
) -> Option<int>
    decreases es.len() - j,
{
    if j < 0 || j >= es.len() {
        None
    } else if same_group(es, i, j) && (!want_cited || used.contains(es[j].old_key)) {
        Some(j)
    } else {
        first_in_group(es, used, i, j + 1, want_cited)
    }
}

/// The representative of the group of entry `i`: its first entry whose key
/// is cited, or its first entry when none is.
pub open spec fn chosen_spec(es: Seq<EntryView>, used: Seq<Seq<char>>, i: int) -> int {
    match first_in_group(es, used, i, 0, true) {
        Some(j) => j,
        None => match first_in_group(es, used, i, 0, false) {
            Some(j) => j,
            None => i,
        },
    }
}

/// All entries are kept: deletion is switched off or everything is cited (`*`).
pub open spec fn keep_all_spec(used: Seq<Seq<char>>, no_delete: bool) -> bool {
    no_delete || used.contains("*"@)
}

/// The group of entry `i` is kept: all entries are kept, or one of its
/// keys is cited.
pub open spec fn group_used_spec(es: Seq<EntryView>, used: Seq<Seq<char>>, keep_all: bool, i: int) -> bool {
    keep_all || first_in_group(es, used, i, 0, true) is Some
}

/// Entry `r` is kept: it represents its group and the group is used.
pub open spec fn is_kept(es: Seq<EntryView>, used: Seq<Seq<char>>, keep_all: bool, r: int) -> bool {
    chosen_spec(es, used, r) == r && group_used_spec(es, used, keep_all, r)
}

/// The kept entries among the first `k`, in order.
pub open spec fn kept_upto(es: Seq<EntryView>, used: Seq<Seq<char>>, keep_all: bool, k: int) -> Seq<int>
    decreases k,
{
    if k <= 0 {
        seq![]
    } else if is_kept(es, used, keep_all, k - 1) {
        kept_upto(es, used, keep_all, k - 1).push(k - 1)
    } else {
        kept_upto(es, used, keep_all, k - 1)
    }
}

/// The kept entries, in order.
pub open spec fn kept_spec(es: Seq<EntryView>, used: Seq<Seq<char>>, keep_all: bool) -> Seq<int> {
    kept_upto(es, used, keep_all, es.len() as int)
}

pub proof fn lemma_first_in_group(
    es: Seq<EntryView>,
    used: Seq<Seq<char>>,
    i: int,
    j: int,
    want_cited: bool,
)
    requires
        0 <= j,
    ensures
        first_in_group(es, used, i, j, want_cited) matches Some(k) ==> j <= k < es.len()
            && same_group(es, i, k) && (!want_cited || used.contains(es[k].old_key)),
        0 <= j <= i < es.len() ==> first_in_group(es, used, i, j, false) is Some,
    decreases es.len() - j,
{
    if 0 <= j < es.len() && !(same_group(es, i, j) && (!want_cited || used.contains(
        es[j].old_key,
    ))) {
        lemma_first_in_group(es, used, i, j + 1, want_cited);
        lemma_first_in_group(es, used, i, j + 1, false);
    }
}

/// The signatures of all entries.
fn signatures(es: &Vec<BibEntry>) -> (r: Vec<Vec<char>>)
    ensures
        r@.len() == es@.len(),
        forall|i: int| 0 <= i < es@.len() ==> (#[trigger] r@[i])@ == entry_signature_spec(es@[i]@),
{
    let mut out: Vec<Vec<char>> = Vec::new();
    let mut i: usize = 0;
    while i < es.len()
        invariant
            i <= es@.len(),
            out@.len() == i,
            forall|k: int| 0 <= k < i ==> (#[trigger] out@[k])@ == entry_signature_spec(es@[k]@),
        decreases es@.len() - i,
    {
        out.push(entry_signature(&es[i]));
        i += 1;
    }
    out
}

/// The first entry in the group of `i` (with a cited key when `want_cited`).
fn first_in_group_exec(
    es: &Vec<BibEntry>,
    sigs: &Vec<Vec<char>>,
    used: &Vec<Vec<char>>,
    i: usize,
    want_cited: bool,
) -> (r: Option<usize>)
    requires
        i < es@.len(),
        sigs@.len() == es@.len(),
        forall|k: int| 0 <= k < es@.len() ==> (#[trigger] sigs@[k])@ == entry_signature_spec(es@[k]@),
    ensures
        r is None <==> first_in_group(entries_view(es@), keys_view(used@), i as int, 0, want_cited) is None,
        r matches Some(k) ==> first_in_group(entries_view(es@), keys_view(used@), i as int, 0, want_cited)
            == Some(k as int),
{
    let ghost ev = entries_view(es@);
    let ghost uv = keys_view(used@);
    let mut j: usize = 0;
    while j < es.len()
        invariant
            j <= es@.len(),
            ev == entries_view(es@),
            uv == keys_view(used@),
            i < es@.len(),
            sigs@.len() == es@.len(),
            forall|k: int| 0 <= k < es@.len() ==> (#[trigger] sigs@[k])@ == entry_signature_spec(es@[k]@),
            first_in_group(ev, uv, i as int, j as int, want_cited) == first_in_group(ev, uv, i as int, 0, want_cited),
        decreases es@.len() - j,
    {
        let same = chars_eq(sigs[j].as_slice(), sigs[i].as_slice());
        assert(same == same_group(ev, i as int, j as int));
        if same && (!want_cited || contains_key(used, es[j].old_key.as_slice())) {
            return Some(j);
        }
        j += 1;
    }
    None
}

/// For every entry the representative of its group, and whether its group
/// is kept.
pub fn choose_representatives(
    es: &Vec<BibEntry>,
    used: &Vec<Vec<char>>,
    keep_all: bool,
) -> (r: (Vec<usize>, Vec<bool>))
    ensures
        r.0@.len() == es@.len(),
        r.1@.len() == es@.len(),
        forall|i: int|
            0 <= i < es@.len() ==> #[trigger] r.0@[i] as int == chosen_spec(entries_view(es@), keys_view(used@), i),
        forall|i: int|
            0 <= i < es@.len() ==> #[trigger] r.1@[i] == group_used_spec(entries_view(es@), keys_view(used@), keep_all, i),
{
    let ghost ev = entries_view(es@);
    let ghost uv = keys_view(used@);
    let sigs = signatures(es);
    let mut chosen: Vec<usize> = Vec::new();
    let mut group_used: Vec<bool> = Vec::new();
    let mut i: usize = 0;
    while i < es.len()
        invariant
            i <= es@.len(),
            ev == entries_view(es@),
            uv == keys_view(used@),
            sigs@.len() == es@.len(),
            forall|k: int| 0 <= k < es@.len() ==> (#[trigger] sigs@[k])@ == entry_signature_spec(es@[k]@),
            chosen@.len() == i,
            group_used@.len() == i,
            forall|k: int| 0 <= k < i ==> #[trigger] chosen@[k] as int == chosen_spec(ev, uv, k),
            forall|k: int| 0 <= k < i ==> #[trigger] group_used@[k] == group_used_spec(ev, uv, keep_all, k),
        decreases es@.len() - i,
    {
        proof {
            lemma_first_in_group(ev, uv, i as int, 0, false);
        }
        let cited = first_in_group_exec(es, &sigs, used, i, true);
        let c = match cited {
            Some(j) => j,
            None => match first_in_group_exec(es, &sigs, used, i, false) {
                Some(j) => j,
                None => i,
            },
        };
        chosen.push(c);
        group_used.push(keep_all || cited.is_some());
        i += 1;
    }
    (chosen, group_used)
}

/// The kept entries in order: those that represent their group when the
/// group is used.
fn kept_entries(chosen: &Vec<usize>, group_used: &Vec<bool>, ghost_es: Ghost<Seq<EntryView>>, ghost_used: Ghost<Seq<Seq<char>>>, ghost_keep_all: Ghost<bool>) -> (r: Vec<usize>)
    requires
        chosen@.len() == ghost_es@.len(),
        group_used@.len() == ghost_es@.len(),
        forall|i: int| 0 <= i < ghost_es@.len() ==> #[trigger] chosen@[i] as int == chosen_spec(ghost_es@, ghost_used@, i),
        forall|i: int| 0 <= i < ghost_es@.len() ==> #[trigger] group_used@[i] == group_used_spec(ghost_es@, ghost_used@, ghost_keep_all@, i),
    ensures
        r@.len() == kept_spec(ghost_es@, ghost_used@, ghost_keep_all@).len(),
        forall|t: int| 0 <= t < r@.len() ==> #[trigger] r@[t] as int == kept_spec(ghost_es@, ghost_used@, ghost_keep_all@)[t],
{
    let mut out: Vec<usize> = Vec::new();
    let mut i: usize = 0;
    while i < chosen.len()
        invariant
            i <= chosen@.len(),
            chosen@.len() == ghost_es@.len(),
            group_used@.len() == ghost_es@.len(),
            forall|i: int| 0 <= i < ghost_es@.len() ==> #[trigger] chosen@[i] as int == chosen_spec(ghost_es@, ghost_used@, i),
            forall|i: int| 0 <= i < ghost_es@.len() ==> #[trigger] group_used@[i] == group_used_spec(ghost_es@, ghost_used@, ghost_keep_all@, i),
            out@.len() == kept_upto(ghost_es@, ghost_used@, ghost_keep_all@, i as int).len(),
            forall|t: int| 0 <= t < out@.len() ==> #[trigger] out@[t] as int == kept_upto(ghost_es@, ghost_used@, ghost_keep_all@, i as int)[t],
        decreases chosen@.len() - i,
    {
        if chosen[i] == i && group_used[i] {
            out.push(i);
        }
        i += 1;
    }
    out
}

// ---------------------------------------------------------------------------
// New keys, renames and years
// ---------------------------------------------------------------------------

/// The new keys of the kept entries, made unique in order.
pub open spec fn new_keys_spec(es: Seq<EntryView>, kept: Seq<int>) -> Seq<Seq<char>>
    decreases kept.len(),
{
    if kept.len() == 0 {
        seq![]
    } else {
        let prev = new_keys_spec(es, kept.drop_last());
        prev.push(unique_key_spec(make_new_key_spec(es[kept.last()]), prev))
    }
}

/// Gives every kept entry its unified key, unique among the keys given before.
pub fn assign_new_keys(es: &Vec<BibEntry>, kept: &Vec<usize>) -> (r: Vec<Vec<char>>)
    requires
        forall|t: int| 0 <= t < kept@.len() ==> #[trigger] kept@[t] < es@.len(),
    ensures
        keys_view(r@) == new_keys_spec(entries_view(es@), Seq::new(kept@.len(), |t: int| kept@[t] as int)),
        r@.len() == kept@.len(),
{
    proof {
        lemma_new_keys_len(entries_view(es@), Seq::new(kept@.len(), |t: int| kept@[t] as int));
    }
    let ghost ev = entries_view(es@);
    let ghost kv = Seq::new(kept@.len(), |t: int| kept@[t] as int);
    let mut used_new: Vec<Vec<char>> = Vec::new();
    let mut t: usize = 0;
    while t < kept.len()
        invariant
            t <= kept@.len(),
            ev == entries_view(es@),
            kv == Seq::new(kept@.len(), |t: int| kept@[t] as int),
            forall|u: int| 0 <= u < kept@.len() ==> #[trigger] kept@[u] < es@.len(),
            keys_view(used_new@) == new_keys_spec(ev, kv.take(t as int)),
        decreases kept@.len() - t,
    {
        assert(kv.take(t + 1).drop_last() =~= kv.take(t as int));
        assert(kv.take(t + 1).last() == kept@[t as int] as int);
        let base = make_new_key(&es[kept[t]]);
        let _k = unique_key(base, &mut used_new);
        t += 1;
    }
    assert(kv.take(kv.len() as int) =~= kv);
    used_new
}

/// Entry `i` is the last one with its key.
pub open spec fn last_with_key(es: Seq<EntryView>, i: int) -> bool {
    forall|j: int| i < j < es.len() ==> (#[trigger] es[j]).old_key != es[i].old_key
}

/// The position of `r` in `kept`.
pub open spec fn kept_index(kept: Seq<int>, r: int) -> Option<int>
    decreases kept.len(),
{
    if kept.len() == 0 {
        None
    } else if kept.last() == r {
        Some(kept.len() - 1)
    } else {
        kept_index(kept.drop_last(), r)
    }
}

/// The renames from old keys to new ones among the first `k` entries: the
/// key of entry `i` (taken from the last entry with that key) becomes the new
/// key of its group's representative, if that is kept.
pub open spec fn renames_upto(
    es: Seq<EntryView>,
    used: Seq<Seq<char>>,
    kept: Seq<int>,
    nks: Seq<Seq<char>>,
    k: int,
) -> Seq<(Seq<char>, Seq<char>)>
    decreases k,
{
    if k <= 0 {
        seq![]
    } else {
        let prev = renames_upto(es, used, kept, nks, k - 1);
        let i = k - 1;
        if last_with_key(es, i) {
            match kept_index(kept, chosen_spec(es, used, i)) {
                Some(t) => prev.push((es[i].old_key, nks[t])),
                None => prev,
            }
        } else {
            prev
        }
    }
}

pub proof fn lemma_kept_index(kept: Seq<int>, r: int)
    ensures
        kept_index(kept, r) matches Some(t) ==> 0 <= t < kept.len() && kept[t] == r,
        kept_index(kept, r) is None ==> !kept.contains(r),
    decreases kept.len(),
{
    if kept.len() > 0 && kept.last() != r {
        lemma_kept_index(kept.drop_last(), r);
        if kept.contains(r) {
            let w = choose|w: int| 0 <= w < kept.len() && kept[w] == r;
            assert(kept.drop_last()[w] == r);
        }
    }
}

fn kept_index_exec(kept: &Vec<usize>, r: usize) -> (o: Option<usize>)
    ensures
        o is None <==> kept_index(Seq::new(kept@.len(), |t: int| kept@[t] as int), r as int) is None,
        o matches Some(t) ==> kept_index(Seq::new(kept@.len(), |t: int| kept@[t] as int), r as int)
            == Some(t as int),
{
    let ghost kv = Seq::new(kept@.len(), |t: int| kept@[t] as int);
    let mut t = kept.len();
    assert(kv.take(t as int) =~= kv);
    while t > 0
        invariant
            t <= kept@.len(),
            kv == Seq::new(kept@.len(), |t: int| kept@[t] as int),
            kept_index(kv, r as int) == kept_index(kv.take(t as int), r as int),
        decreases t,
    {
        assert(kv.take(t as int).drop_last() =~= kv.take(t - 1));
        if kept[t - 1] == r {
            return Some(t - 1);
        }
        t -= 1;
    }
    None
}

fn is_last_with_key(es: &Vec<BibEntry>, i: usize) -> (r: bool)
    requires
        i < es@.len(),
    ensures
        r == last_with_key(entries_view(es@), i as int),
{
    let ghost ev = entries_view(es@);
    let n = es.len();
    let mut j = i + 1;
    while j < es.len()
        invariant
            i < j <= es@.len(),
            ev == entries_view(es@),
            forall|k: int| i < k < j ==> (#[trigger] ev[k]).old_key != ev[i as int].old_key,
        decreases es@.len() - j,
    {
        if chars_eq(es[j].old_key.as_slice(), es[i].old_key.as_slice()) {
            assert(ev[j as int].old_key == ev[i as int].old_key);
            return false;
        }
        j += 1;
    }
    true
}

/// The renames of all keys (see `renames_upto`).
pub fn build_renames(
    es: &Vec<BibEntry>,
    chosen: &Vec<usize>,
    kept: &Vec<usize>,
    nks: &Vec<Vec<char>>,
    ghost_used: Ghost<Seq<Seq<char>>>,
) -> (r: Vec<Rename>)
    requires
        chosen@.len() == es@.len(),
        forall|i: int| 0 <= i < es@.len() ==> #[trigger] chosen@[i] as int == chosen_spec(entries_view(es@), ghost_used@, i),
        nks@.len() == kept@.len(),
    ensures
        renames_view(r@) == renames_upto(
            entries_view(es@),
            ghost_used@,
            Seq::new(kept@.len(), |t: int| kept@[t] as int),
            keys_view(nks@),
            es@.len() as int,
        ),
{
    let ghost ev = entries_view(es@);
    let ghost kv = Seq::new(kept@.len(), |t: int| kept@[t] as int);
    let mut out: Vec<Rename> = Vec::new();
    let mut i: usize = 0;
    while i < es.len()
        invariant
            i <= es@.len(),
            ev == entries_view(es@),
            kv == Seq::new(kept@.len(), |t: int| kept@[t] as int),
            chosen@.len() == es@.len(),
            forall|i: int| 0 <= i < es@.len() ==> #[trigger] chosen@[i] as int == chosen_spec(ev, ghost_used@, i),
            nks@.len() == kept@.len(),
            renames_view(out@) == renames_upto(ev, ghost_used@, kv, keys_view(nks@), i as int),
        decreases es@.len() - i,
    {
        let last = is_last_with_key(es, i);
        assert(last == last_with_key(ev, i as int));
        if last {
            match kept_index_exec(kept, chosen[i]) {
                Some(t) => {
                    proof {
                        lemma_kept_index(kv, chosen@[i as int] as int);
                    }
                    let old = copy_range(es[i].old_key.as_slice(), 0, es[i].old_key.len());
                    let new = copy_range(nks[t].as_slice(), 0, nks[t].len());
                    assert(old@ =~= ev[i as int].old_key);
                    assert(new@ =~= keys_view(nks@)[t as int]);
                    let rn = Rename { old, new };
                    out.push(rn);
                    assert(renames_view(out@) =~= renames_upto(ev, ghost_used@, kv, keys_view(nks@), i + 1));
                },
                None => {},
            }
        }
        i += 1;
    }
    out
}

/// The sort year of a kept entry's new key: its year, or 9999.
pub open spec fn sort_year(e: EntryView) -> i32 {
    match entry_year_num_spec(e) {
        Some(y) => y as i32,
        None => 9999,
    }
}

/// The sort years of the new keys.
pub open spec fn years_spec(es: Seq<EntryView>, kept: Seq<int>, nks: Seq<Seq<char>>) -> Seq<(Seq<char>, i32)> {
    Seq::new(kept.len(), |t: int| (nks[t], sort_year(es[kept[t]])))
}

/// The sort year of every new key.
pub fn build_years(es: &Vec<BibEntry>, kept: &Vec<usize>, nks: &Vec<Vec<char>>) -> (r: Vec<KeyYear>)
    requires
        nks@.len() == kept@.len(),
        forall|t: int| 0 <= t < kept@.len() ==> #[trigger] kept@[t] < es@.len(),
    ensures
        years_view(r@) == years_spec(entries_view(es@), Seq::new(kept@.len(), |t: int| kept@[t] as int), keys_view(nks@)),
{
    let ghost ev = entries_view(es@);
    let mut out: Vec<KeyYear> = Vec::new();
    let mut t: usize = 0;
    while t < kept.len()
        invariant
            t <= kept@.len(),
            ev == entries_view(es@),
            nks@.len() == kept@.len(),
            forall|t: int| 0 <= t < kept@.len() ==> #[trigger] kept@[t] < es@.len(),
            out@.len() == t,
            forall|u: int| 0 <= u < t ==> (#[trigger] out@[u])@ == (keys_view(nks@)[u], sort_year(ev[kept@[u] as int])),
        decreases kept@.len() - t,
    {
        let y = match entry_year_i32(&es[kept[t]]) {
            Some(y) => y,
            None => 9999,
        };
        let key = copy_range(nks[t].as_slice(), 0, nks[t].len());
        assert(key@ =~= keys_view(nks@)[t as int]);
        out.push(KeyYear { key, year: y });
        t += 1;
    }
    assert(years_view(out@) =~= years_spec(ev, Seq::new(kept@.len(), |t: int| kept@[t] as int), keys_view(nks@)));
    out
}

// ---------------------------------------------------------------------------
// Rendering
// ---------------------------------------------------------------------------

/// The special blocks of a file, each without trailing whitespace and
/// followed by an empty line.
pub open spec fn specials_text(sps: Seq<Seq<char>>) -> Seq<char>
    decreases sps.len(),
{
    if sps.len() == 0 {
        seq![]
    } else {
        specials_text(sps.drop_last()) + trim_end(sps.last()) + "\n\n"@
    }
}

/// An entry written out with its new key.
pub open spec fn entry_text(e: EntryView, key: Seq<char>) -> Seq<char> {
    let body = if has_prefix(e.body, "\n"@) {
        e.body
    } else {
        "\n"@ + e.body
    };
    let end = if body.last() == '\n' {
        seq![]
    } else {
        "\n"@
    };
    "@"@ + e.kind + "{"@ + key + ","@ + body + end + "}\n\n"@
}

/// The kept entries among the first `n` entries that belong to file `f`,
/// in order of the entries, each with the new key that stands at its
/// position in `kept`.
pub open spec fn entries_text(es: Seq<EntryView>, kept: Seq<int>, nks: Seq<Seq<char>>, f: int, n: int) -> Seq<char>
    decreases n,
{
    if n <= 0 {
        seq![]
    } else {
        let prev = entries_text(es, kept, nks, f, n - 1);
        let i = n - 1;
        match kept_index(kept, i) {
            Some(t) => if es[i].file_idx == f {
                prev + entry_text(es[i], nks[t])
            } else {
                prev
            },
            None => prev,
        }
    }
}

/// The new text of bibliography file `f`: its special blocks, then its kept
/// entries.
pub open spec fn bib_file_text(
    sps: Seq<Seq<char>>,
    es: Seq<EntryView>,
    kept: Seq<int>,
    nks: Seq<Seq<char>>,
    f: int,
) -> Seq<char> {
    specials_text(sps) + entries_text(es, kept, nks, f, es.len() as int)
}

fn render_entry(out: &mut Vec<char>, e: &BibEntry, key: &[char])
    ensures
        final(out)@ == old(out)@ + entry_text(e@, key@),
{
    let ghost start = out@;
    append_lit(out, "@");
    append_chars(out, e.kind.as_slice());
    append_lit(out, "{");
    append_chars(out, key);
    append_lit(out, ",");
    let starts_nl = crate::text::starts_with_lit(e.body.as_slice(), "\n");
    let ghost body = if starts_nl {
        e.body@
    } else {
        "\n"@ + e.body@
    };
    if !starts_nl {
        append_lit(out, "\n");
    }
    append_chars(out, e.body.as_slice());
    proof {
        reveal_strlit("\n");
    }
    assert(out@.len() > 0);
    assert(out@.last() == body.last());
    if out[out.len() - 1] != '\n' {
        append_lit(out, "\n");
    }
    append_lit(out, "}\n\n");
    assert(out@ =~= start + entry_text(e@, key@));
}

/// The new texts of the bibliography files (see `bib_file_text`).
pub fn render_bib_files(
    specials: &Vec<Vec<Vec<char>>>,
    es: &Vec<BibEntry>,
    kept: &Vec<usize>,
    nks: &Vec<Vec<char>>,
) -> (r: Vec<Vec<char>>)
    requires
        nks@.len() == kept@.len(),
    ensures
        r@.len() == specials@.len(),
        forall|f: int|
            0 <= f < r@.len() ==> (#[trigger] r@[f])@ == bib_file_text(
                texts_view(specials@[f]@),
                entries_view(es@),
                Seq::new(kept@.len(), |t: int| kept@[t] as int),
                keys_view(nks@),
                f,
            ),
{
    let ghost ev = entries_view(es@);
    let ghost kv = Seq::new(kept@.len(), |t: int| kept@[t] as int);
    let ghost nv = keys_view(nks@);
    let mut out: Vec<Vec<char>> = Vec::new();
    let mut f: usize = 0;
    while f < specials.len()
        invariant
            f <= specials@.len(),
            ev == entries_view(es@),
            kv == Seq::new(kept@.len(), |t: int| kept@[t] as int),
            nv == keys_view(nks@),
            nks@.len() == kept@.len(),
            out@.len() == f,
            forall|g: int|
                0 <= g < f ==> (#[trigger] out@[g])@ == bib_file_text(texts_view(specials@[g]@), ev, kv, nv, g),
        decreases specials@.len() - f,
    {
        let sps = &specials[f];
        let ghost sv = texts_view(sps@);
        let mut s: Vec<char> = Vec::new();
        let mut k: usize = 0;
        while k < sps.len()
            invariant
                k <= sps@.len(),
                sv == texts_view(sps@),
                s@ == specials_text(sv.take(k as int)),
            decreases sps@.len() - k,
        {
            assert(sv.take(k + 1).drop_last() =~= sv.take(k as int));
            let t = trim_end_chars(sps[k].as_slice());
            append_chars(&mut s, t.as_slice());
            append_lit(&mut s, "\n\n");
            k += 1;
        }
        assert(sv.take(sv.len() as int) =~= sv);
        let ghost spec_s = s@;
        let mut i: usize = 0;
        while i < es.len()
            invariant
                i <= es@.len(),
                ev == entries_view(es@),
                kv == Seq::new(kept@.len(), |t: int| kept@[t] as int),
                nv == keys_view(nks@),
                nks@.len() == kept@.len(),
                s@ == spec_s + entries_text(ev, kv, nv, f as int, i as int),
            decreases es@.len() - i,
        {
            if es[i].file_idx == f {
                match kept_index_exec(kept, i) {
                    Some(t) => {
                        proof {
                            lemma_kept_index(kv, i as int);
                        }
                        render_entry(&mut s, &es[i], nks[t].as_slice());
                        assert(s@ =~= spec_s + entries_text(ev, kv, nv, f as int, i + 1));
                    },
                    None => {},
                }
            } else {
                assert(entries_text(ev, kv, nv, f as int, i + 1) == entries_text(ev, kv, nv, f as int, i as int));
            }
            i += 1;
        }
        out.push(s);
        f += 1;
    }
    out
}

// ---------------------------------------------------------------------------
// Reports
// ---------------------------------------------------------------------------

/// The distinct keys of `ks`, in order of first appearance.
pub open spec fn distinct_keys(ks: Seq<Seq<char>>) -> Seq<Seq<char>>
    decreases ks.len(),
{
    if ks.len() == 0 {
        seq![]
    } else {
        let prev = distinct_keys(ks.drop_last());
        if prev.contains(ks.last()) {
            prev
        } else {
            prev.push(ks.last())
        }
    }
}

/// The distinct keys of `ks`, in order of first appearance.
pub fn dedup_keys(ks: &Vec<Vec<char>>) -> (r: Vec<Vec<char>>)
    ensures
        keys_view(r@) == distinct_keys(keys_view(ks@)),
{
    let ghost kv = keys_view(ks@);
    let mut out: Vec<Vec<char>> = Vec::new();
    let mut i: usize = 0;
    while i < ks.len()
        invariant
            i <= ks@.len(),
            kv == keys_view(ks@),
            keys_view(out@) == distinct_keys(kv.take(i as int)),
        decreases ks@.len() - i,
    {
        assert(kv.take(i + 1).drop_last() =~= kv.take(i as int));
        assert(kv.take(i + 1).last() == kv[i as int]);
        if !contains_key(&out, ks[i].as_slice()) {
            let k = copy_range(ks[i].as_slice(), 0, ks[i].len());
            assert(k@ =~= kv[i as int]);
            out.push(k);
            assert(keys_view(out@) =~= distinct_keys(kv.take(i + 1)));
        }
        i += 1;
    }
    assert(kv.take(kv.len() as int) =~= kv);
    out
}

/// The cited keys that no entry provides: neither `*` nor renamed.
pub open spec fn missing_keys(used: Seq<Seq<char>>, renames: Seq<(Seq<char>, Seq<char>)>) -> Seq<Seq<char>>
    decreases used.len(),
{
    if used.len() == 0 {
        seq![]
    } else {
        let prev = missing_keys(used.drop_last(), renames);
        let k = used.last();
        if k != "*"@ && crate::bib::assoc_get(renames, k) is None {
            prev.push(k)
        } else {
            prev
        }
    }
}

fn has_rename(renames: &Vec<Rename>, k: &[char]) -> (r: bool)
    ensures
        r == (crate::bib::assoc_get(renames_view(renames@), k@) is Some),
{
    let mut i = renames.len();
    assert(renames_view(renames@).take(i as int) =~= renames_view(renames@));
    while i > 0
        invariant
            i <= renames@.len(),
            crate::bib::assoc_get(renames_view(renames@), k@) == crate::bib::assoc_get(
                renames_view(renames@).take(i as int),
                k@,
            ),
        decreases i,
    {
        assert(renames_view(renames@).take(i as int).drop_last() =~= renames_view(renames@).take(
            i - 1,
        ));
        if chars_eq(renames[i - 1].old.as_slice(), k) {
            return true;
        }
        i -= 1;
    }
    assert(renames_view(renames@).take(0) =~= Seq::<(Seq<char>, Seq<char>)>::empty());
    false
}

/// The cited keys that no entry provides (see `missing_keys`).
pub fn find_missing_keys(used: &Vec<Vec<char>>, renames: &Vec<Rename>) -> (r: Vec<Vec<char>>)
    ensures
        keys_view(r@) == missing_keys(keys_view(used@), renames_view(renames@)),
{
    let ghost uv = keys_view(used@);
    let mut out: Vec<Vec<char>> = Vec::new();
    let mut i: usize = 0;
    while i < used.len()
        invariant
            i <= used@.len(),
            uv == keys_view(used@),
            keys_view(out@) == missing_keys(uv.take(i as int), renames_view(renames@)),
        decreases used@.len() - i,
    {
        assert(uv.take(i + 1).drop_last() =~= uv.take(i as int));
        assert(uv.take(i + 1).last() == uv[i as int]);
        if !eq_lit(used[i].as_slice(), "*") && !has_rename(renames, used[i].as_slice()) {
            let k = copy_range(used[i].as_slice(), 0, used[i].len());
            assert(k@ =~= uv[i as int]);
            out.push(k);
            assert(keys_view(out@) =~= missing_keys(uv.take(i + 1), renames_view(renames@)));
        }
        i += 1;
    }
    assert(uv.take(uv.len() as int) =~= uv);
    out
}

// ---------------------------------------------------------------------------
// The whole fix
// ---------------------------------------------------------------------------

/// What fixing a bibliography produces.
pub struct FixOutput {
    /// The new text of each bibliography file.
    pub bib_texts: Vec<Vec<char>>,
    /// The new text of each LaTeX file.
    pub tex_texts: Vec<Vec<char>>,
    /// How many entries the bibliography files held.
    pub entry_count: usize,
    /// The distinct cited keys.
    pub used_keys: Vec<Vec<char>>,
    /// How many entries are kept.
    pub kept_count: usize,
    /// The renames from old keys to new ones.
    pub renames: Vec<Rename>,
    /// The cited keys that no entry provides.
    pub missing: Vec<Vec<char>>,
}

/// The kept entries of a fix.
pub open spec fn fix_kept(texs: Seq<Seq<char>>, raws: Seq<Seq<char>>, no_delete: bool) -> Seq<int> {
    let used = all_cited(texs);
    kept_spec(all_entries(raws), used, keep_all_spec(used, no_delete))
}

/// The new keys of a fix.
pub open spec fn fix_new_keys(texs: Seq<Seq<char>>, raws: Seq<Seq<char>>, no_delete: bool) -> Seq<Seq<char>> {
    new_keys_spec(all_entries(raws), fix_kept(texs, raws, no_delete))
}

/// The renames of a fix.
pub open spec fn fix_renames(texs: Seq<Seq<char>>, raws: Seq<Seq<char>>, no_delete: bool) -> Seq<(Seq<char>, Seq<char>)> {
    let es = all_entries(raws);
    renames_upto(es, all_cited(texs), fix_kept(texs, raws, no_delete), fix_new_keys(texs, raws, no_delete), es.len() as int)
}

/// The sort years of a fix.
pub open spec fn fix_years(texs: Seq<Seq<char>>, raws: Seq<Seq<char>>, no_delete: bool) -> Seq<(Seq<char>, i32)> {
    years_spec(all_entries(raws), fix_kept(texs, raws, no_delete), fix_new_keys(texs, raws, no_delete))
}

/// Fixes a bibliography: `texs` are the LaTeX files, `raws` the bibliography
/// files. Duplicate entries (same signature) are merged into one
/// representative, groups whose keys are not cited are dropped unless
/// `no_delete` is set or `*` is cited, every kept entry gets a unique `[author][title][year]` key, the
/// citations are rewritten and sorted by year, and the bibliography files
/// are rendered anew.
pub fn fix_bibliography(texs: &Vec<Vec<char>>, raws: &Vec<Vec<char>>, no_delete: bool) -> (r: FixOutput)
    ensures
        r.bib_texts@.len() == raws@.len(),
        forall|f: int|
            0 <= f < raws@.len() ==> (#[trigger] r.bib_texts@[f])@ == bib_file_text(
                parse_bib_spec(raws@[f]@, f as usize).0,
                all_entries(texts_view(raws@)),
                fix_kept(texts_view(texs@), texts_view(raws@), no_delete),
                fix_new_keys(texts_view(texs@), texts_view(raws@), no_delete),
                f,
            ),
        r.tex_texts@.len() == texs@.len(),
        forall|t: int|
            0 <= t < texs@.len() ==> (#[trigger] r.tex_texts@[t])@ == rewrite_spec(
                texs@[t]@,
                fix_renames(texts_view(texs@), texts_view(raws@), no_delete),
                fix_years(texts_view(texs@), texts_view(raws@), no_delete),
            ),
        r.entry_count == all_entries(texts_view(raws@)).len(),
        keys_view(r.used_keys@) == distinct_keys(all_cited(texts_view(texs@))),
        r.kept_count == fix_kept(texts_view(texs@), texts_view(raws@), no_delete).len(),
        renames_view(r.renames@) == fix_renames(texts_view(texs@), texts_view(raws@), no_delete),
        keys_view(r.missing@) == missing_keys(
            distinct_keys(all_cited(texts_view(texs@))),
            fix_renames(texts_view(texs@), texts_view(raws@), no_delete),
        ),
{
    let ghost tv = texts_view(texs@);
    let ghost rv = texts_view(raws@);
    let (specials, entries) = parse_all(raws);
    let used = collect_all_cited(texs);
    let ghost ev = entries_view(entries@);
    let ghost uv = keys_view(used@);
    let star = chars_of("*");
    let keep_all = no_delete || contains_key(&used, star.as_slice());
    let (chosen, group_used) = choose_representatives(&entries, &used, keep_all);
    let kept = kept_entries(&chosen, &group_used, Ghost(ev), Ghost(uv), Ghost(keep_all));
    let ghost kv = Seq::new(kept@.len(), |t: int| kept@[t] as int);
    assert(kv =~= kept_spec(ev, uv, keep_all));
    proof {
        lemma_kept_in_range(ev, uv, keep_all, ev.len() as int);
    }
    assert forall|t: int| 0 <= t < kept@.len() implies #[trigger] kept@[t] < entries@.len() by {
        assert(kv[t] == kept_spec(ev, uv, keep_all)[t]);
    }
    let nks = assign_new_keys(&entries, &kept);
    let renames = build_renames(&entries, &chosen, &kept, &nks, Ghost(uv));
    let years = build_years(&entries, &kept, &nks);
    let mut tex_texts: Vec<Vec<char>> = Vec::new();
    let mut t: usize = 0;
    while t < texs.len()
        invariant
            t <= texs@.len(),
            tex_texts@.len() == t,
            forall|u: int|
                0 <= u < t ==> (#[trigger] tex_texts@[u])@ == rewrite_spec(
                    texs@[u]@,
                    renames_view(renames@),
                    years_view(years@),
                ),
        decreases texs@.len() - t,
    {
        tex_texts.push(rewrite_tex_citations(texs[t].as_slice(), &renames, &years));
        t += 1;
    }
    let bib_texts = render_bib_files(&specials, &entries, &kept, &nks);
    let used_keys = dedup_keys(&used);
    let missing = find_missing_keys(&used_keys, &renames);
    let entry_count = entries.len();
    let kept_count = kept.len();
    FixOutput { bib_texts, tex_texts, entry_count, used_keys, kept_count, renames, missing }
}

/// The kept entries are entries.
pub proof fn lemma_kept_in_range(es: Seq<EntryView>, used: Seq<Seq<char>>, keep_all: bool, k: int)
    requires
        k <= es.len(),
    ensures
        forall|t: int| 0 <= t < kept_upto(es, used, keep_all, k).len() ==> 0 <= #[trigger] kept_upto(es, used, keep_all, k)[t] < k,
    decreases k,
{
    if k > 0 {
        lemma_kept_in_range(es, used, keep_all, k - 1);
        let prev = kept_upto(es, used, keep_all, k - 1);
        let cur = kept_upto(es, used, keep_all, k);
        assert forall|t: int| 0 <= t < cur.len() implies 0 <= #[trigger] cur[t] < k by {
            if t < prev.len() {
                assert(cur[t] == prev[t]);
            }
        }
    }
}

pub proof fn lemma_new_keys_len(es: Seq<EntryView>, kept: Seq<int>)
    ensures
        new_keys_spec(es, kept).len() == kept.len(),
    decreases kept.len(),
{
    if kept.len() > 0 {
        lemma_new_keys_len(es, kept.drop_last());
    }
}

} // verus!
