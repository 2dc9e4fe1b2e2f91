//! Citation commands in LaTeX text: finding their key groups, collecting the
//! cited keys, and rewriting them with new keys sorted by year.
use vstd::prelude::*;
use crate::chars::{ascii_lower_seq, eq_lit, chars_eq};
use crate::text::{
    skip_ws_spec, skip_ws_chars, lemma_skip_ws_spec, has_prefix, has_suffix, contains_text,
    starts_with_lit, ends_with_lit, contains_lit, copy_range, append_chars, trim, trim_chars,
    split_on, split_chars, join,
};
use crate::scan::{
    alpha_end, alpha_end_at, lemma_alpha_end, find_matching_spec, find_matching,
    lemma_find_matching,
};
use crate::bib::{assoc_get, lower_chars};
use crate::keys::join_words;

verus! {

// ---------------------------------------------------------------------------
// Citation commands
// ---------------------------------------------------------------------------

/// Whether a command name (compared in lower case) is a citation command:
/// it mentions `cite` and does not define a command.
pub open spec fn is_cite_cmd_spec(cmd: Seq<char>) -> bool {
    let c = ascii_lower_seq(cmd);
    if has_prefix(c, "declare"@) || has_prefix(c, "new"@) || has_prefix(c, "renew"@) || has_prefix(
        c,
        "provide"@,
    ) {
        false
    } else {
        c == "nocite"@ || has_prefix(c, "cite"@) || has_suffix(c, "cite"@) || has_suffix(
            c,
            "cites"@,
        ) || contains_text(c, "cite"@)
    }
}

/// Whether `cmd` names a citation command (see `is_cite_cmd_spec`).
pub fn is_cite_cmd(cmd: &[char]) -> (r: bool)
    ensures
        r == is_cite_cmd_spec(cmd@),
{
    let c = lower_chars(cmd);
    let cs = c.as_slice();
    if starts_with_lit(cs, "declare") || starts_with_lit(cs, "new") || starts_with_lit(cs, "renew")
        || starts_with_lit(cs, "provide") {
        return false;
    }
    eq_lit(cs, "nocite") || starts_with_lit(cs, "cite") || ends_with_lit(cs, "cite")
        || ends_with_lit(cs, "cites") || contains_lit(cs, "cite")
}

/// Skips whitespace and `[...]` arguments from `j`; `None` when a `[` is
/// not closed.
pub open spec fn cite_opt_args(s: Seq<char>, j: int) -> Option<int>
    decreases s.len() - j,
{
    let k = skip_ws_spec(s, j);
    if 0 <= j && 0 <= k < s.len() && s[k] == '[' {
        match find_matching_spec(s, k, '[', ']') {
            Some(c) => {
                proof {
                    lemma_skip_ws_spec(s, j);
                    lemma_find_matching(s, k, '[', ']');
                }
                cite_opt_args(s, c + 1)
            },
            None => None,
        }
    } else {
        Some(k)
    }
}

pub proof fn lemma_cite_opt_args(s: Seq<char>, j: int)
    requires
        0 <= j <= s.len(),
    ensures
        cite_opt_args(s, j) matches Some(k) ==> j <= k <= s.len(),
    decreases s.len() - j,
{
    lemma_skip_ws_spec(s, j);
    let k = skip_ws_spec(s, j);
    if 0 <= k < s.len() && s[k] == '[' {
        lemma_find_matching(s, k, '[', ']');
        if let Some(c) = find_matching_spec(s, k, '[', ']') {
            lemma_cite_opt_args(s, c + 1);
        }
    }
}

/// The citation command at `pos`, if any: its name and the start and end of
/// its key group (the text inside the braces).
pub open spec fn cite_group_spec(s: Seq<char>, pos: int) -> Option<(Seq<char>, int, int)> {
    if pos < 0 || pos >= s.len() || s[pos] != '\\' {
        None
    } else {
        let e = alpha_end(s, pos + 1);
        if e == pos + 1 {
            None
        } else {
            let cmd = s.subrange(pos + 1, e);
            if !is_cite_cmd_spec(cmd) {
                None
            } else {
                let i = if e < s.len() && s[e] == '*' {
                    e + 1
                } else {
                    e
                };
                match cite_opt_args(s, i) {
                    None => None,
                    Some(j) => {
                        let k = skip_ws_spec(s, j);
                        if 0 <= k < s.len() && s[k] == '{' {
                            match find_matching_spec(s, k, '{', '}') {
                                Some(c) => Some((cmd, k + 1, c)),
                                None => None,
                            }
                        } else {
                            None
                        }
                    },
                }
            }
        }
    }
}

pub proof fn lemma_cite_group(s: Seq<char>, pos: int)
    ensures
        cite_group_spec(s, pos) matches Some((cmd, a, b)) ==> pos < a <= b < s.len() && s[b]
            == '}' && cmd.len() > 0,
{
    if 0 <= pos < s.len() && s[pos] == '\\' {
        lemma_alpha_end(s, pos + 1);
        let e = alpha_end(s, pos + 1);
        let i = if e < s.len() && s[e] == '*' {
            e + 1
        } else {
            e
        };
        lemma_cite_opt_args(s, i);
        if let Some(j) = cite_opt_args(s, i) {
            lemma_skip_ws_spec(s, j);
            let k = skip_ws_spec(s, j);
            lemma_find_matching(s, k, '{', '}');
        }
    }
}

/// The citation command at `pos` (see `cite_group_spec`).
pub fn cite_group_at(tex: &[char], pos: usize) -> (r: Option<(Vec<char>, usize, usize)>)
    ensures
        r is None <==> cite_group_spec(tex@, pos as int) is None,
        r matches Some((cmd, a, b)) ==> cite_group_spec(tex@, pos as int) == Some(
            (cmd@, a as int, b as int),
        ),
{
    proof {
        lemma_cite_group(tex@, pos as int);
    }
    let n = tex.len();
    if pos >= n || tex[pos] != '\\' {
        return None;
    }
    let e = alpha_end_at(tex, pos + 1);
    if e == pos + 1 {
        return None;
    }
    let cmd = copy_range(tex, pos + 1, e);
    if !is_cite_cmd(cmd.as_slice()) {
        return None;
    }
    let mut i = e;
    if i < n && tex[i] == '*' {
        i += 1;
    }
    proof {
        lemma_cite_opt_args(tex@, i as int);
    }
    let i0 = i;
    loop
        invariant
            n == tex@.len(),
            i0 <= i <= n,
            cite_opt_args(tex@, i as int) == cite_opt_args(tex@, i0 as int),
            cmd@ == tex@.subrange(pos + 1, e as int),
            is_cite_cmd_spec(cmd@),
            e == alpha_end(tex@, pos + 1),
            e != pos + 1,
            i0 == (if e < tex@.len() && tex@[e as int] == '*' {
                e + 1
            } else {
                e as int
            }),
            pos < n,
            tex@[pos as int] == '\\',
        decreases n - i,
    {
        let k = skip_ws_chars(tex, i);
        proof {
            lemma_skip_ws_spec(tex@, i as int);
        }
        if k < n && tex[k] == '[' {
            match find_matching(tex, k, '[', ']') {
                Some(c) => {
                    assert(cite_opt_args(tex@, i as int) == cite_opt_args(tex@, c + 1));
                    i = c + 1;
                },
                None => {
                    assert(cite_opt_args(tex@, i as int) is None);
                    return None;
                },
            }
        } else {
            assert(cite_opt_args(tex@, i as int) == Some(k as int));
            let k2 = skip_ws_chars(tex, k);
            if k2 < n && tex[k2] == '{' {
                return match find_matching(tex, k2, '{', '}') {
                    Some(c) => Some((cmd, k2 + 1, c)),
                    None => None,
                };
            } else {
                return None;
            }
        }
    }
}

// ---------------------------------------------------------------------------
// The citation groups of a text
// ---------------------------------------------------------------------------

/// The citation commands of `s` found by scanning from `i`: at each backslash
/// that starts one, its group is taken and the scan resumes after the group.
pub open spec fn cite_groups(s: Seq<char>, i: int) -> Seq<(Seq<char>, int, int)>
    decreases s.len() - i,
{
    if i < 0 || i >= s.len() {
        seq![]
    } else if s[i] != '\\' {
        cite_groups(s, i + 1)
    } else {
        match cite_group_spec(s, i) {
            Some(g) => {
                proof {
                    lemma_cite_group(s, i);
                }
                seq![g] + cite_groups(s, g.2 + 1)
            },
            None => cite_groups(s, i + 1),
        }
    }
}

pub proof fn lemma_cite_groups(s: Seq<char>, i: int)
    requires
        0 <= i,
    ensures
        forall|k: int|
            0 <= k < cite_groups(s, i).len() ==> i < (#[trigger] cite_groups(s, i)[k]).1 <= cite_groups(
                s,
                i,
            )[k].2 < s.len(),
        forall|k: int|
            0 <= k < cite_groups(s, i).len() - 1 ==> (#[trigger] cite_groups(s, i)[k]).2 < cite_groups(
                s,
                i,
            )[k + 1].1,
    decreases s.len() - i,
{
    if 0 <= i < s.len() {
        if s[i] != '\\' {
            lemma_cite_groups(s, i + 1);
            assert(cite_groups(s, i) == cite_groups(s, i + 1));
        } else {
            lemma_cite_group(s, i);
            match cite_group_spec(s, i) {
                Some(g) => {
                    lemma_cite_groups(s, g.2 + 1);
                    let rest = cite_groups(s, g.2 + 1);
                    let all = cite_groups(s, i);
                    assert(all == seq![g] + rest);
                    assert forall|k: int| 0 <= k < all.len() implies i < (#[trigger] all[k]).1
                        <= all[k].2 < s.len() by {
                        if k > 0 {
                            assert(all[k] == rest[k - 1]);
                        }
                    }
                    assert forall|k: int| 0 <= k < all.len() - 1 implies (#[trigger] all[k]).2
                        < all[k + 1].1 by {
                        assert(all[k + 1] == rest[k]);
                        if k > 0 {
                            assert(all[k] == rest[k - 1]);
                        }
                    }
                },
                None => {
                    lemma_cite_groups(s, i + 1);
                    assert(cite_groups(s, i) == cite_groups(s, i + 1));
                },
            }
        }
    }
}

/// The trimmed, non-empty pieces of a list of pieces.
pub open spec fn nonempty_trimmed(parts: Seq<Seq<char>>) -> Seq<Seq<char>>
    decreases parts.len(),
{
    if parts.len() == 0 {
        seq![]
    } else {
        let prev = nonempty_trimmed(parts.drop_last());
        let t = trim(parts.last());
        if t.len() == 0 {
            prev
        } else {
            prev.push(t)
        }
    }
}

/// The keys of a key group: the comma-separated pieces, trimmed, without
/// empty ones.
pub open spec fn group_keys(g: Seq<char>) -> Seq<Seq<char>> {
    nonempty_trimmed(split_on(g, ','))
}

/// The keys of a key group (see `group_keys`).
pub fn keys_of_group(g: &[char]) -> (r: Vec<Vec<char>>)
    ensures
        r@.len() == group_keys(g@).len(),
        forall|k: int| 0 <= k < r@.len() ==> (#[trigger] r@[k])@ == group_keys(g@)[k],
{
    let parts = split_chars(g, ',');
    let ghost pv = split_on(g@, ',');
    let mut out: Vec<Vec<char>> = Vec::new();
    let mut i: usize = 0;
    while i < parts.len()
        invariant
            i <= parts@.len(),
            parts@.len() == pv.len(),
            pv == split_on(g@, ','),
            forall|k: int| 0 <= k < parts@.len() ==> (#[trigger] parts@[k])@ == pv[k],
            out@.len() == nonempty_trimmed(pv.take(i as int)).len(),
            forall|k: int|
                0 <= k < out@.len() ==> (#[trigger] out@[k])@ == nonempty_trimmed(pv.take(i as int))[k],
        decreases parts@.len() - i,
    {
        assert(pv.take(i + 1).drop_last() =~= pv.take(i as int));
        assert(pv.take(i + 1).last() == pv[i as int]);
        let t = trim_chars(parts[i].as_slice());
        if t.len() > 0 {
            out.push(t);
        }
        i += 1;
    }
    assert(pv.take(pv.len() as int) =~= pv);
    out
}

/// All keys cited in `s` (with repetitions), in order.
pub open spec fn cited_keys(s: Seq<char>) -> Seq<Seq<char>> {
    let gs = cite_groups(s, 0);
    Seq::new(gs.len(), |k: int| group_keys(s.subrange(gs[k].1, gs[k].2))).flatten()
}

/// Collects the keys cited in a LaTeX text, and whether one of them is `*`
/// (cite everything).
pub fn collect_used_citation_keys(tex: &[char]) -> (r: (Vec<Vec<char>>, bool))
    ensures
        r.0@.len() == cited_keys(tex@).len(),
        forall|k: int| 0 <= k < r.0@.len() ==> (#[trigger] r.0@[k])@ == cited_keys(tex@)[k],
        r.1 == cited_keys(tex@).contains("*"@),
{
    let mut used: Vec<Vec<char>> = Vec::new();
    let mut keep_all = false;
    let n = tex.len();
    let mut i: usize = 0;
    let ghost mut seen: Seq<Seq<char>> = seq![];
    let ghost gs = cite_groups(tex@, 0);
    let ghost mut gi: int = 0;
    proof {
        lemma_cite_groups(tex@, 0);
    }
    while i < n
        invariant
            n == tex@.len(),
            i <= n,
            gs == cite_groups(tex@, 0),
            0 <= gi <= gs.len(),
            cite_groups(tex@, i as int) == gs.skip(gi),
            seen == Seq::new(gi as nat, |k: int| group_keys(tex@.subrange(gs[k].1, gs[k].2))).flatten(),
            used@.len() == seen.len(),
            forall|k: int| 0 <= k < used@.len() ==> (#[trigger] used@[k])@ == seen[k],
            keep_all == seen.contains("*"@),
            forall|k: int| 0 <= k < gs.len() ==> (#[trigger] gs[k]).1 <= gs[k].2 <= tex@.len(),
        decreases n - i,
    {
        if tex[i] != '\\' {
            assert(cite_groups(tex@, i as int) == cite_groups(tex@, i + 1));
            i += 1;
            continue;
        }
        match cite_group_at(tex, i) {
            Some((_cmd, a, b)) => {
                proof {
                    lemma_cite_group(tex@, i as int);
                }
                assert(cite_groups(tex@, i as int) == seq![(_cmd@, a as int, b as int)]
                    + cite_groups(tex@, b + 1));
                let group = copy_range(tex, a, b);
                let keys = keys_of_group(group.as_slice());
                assert(gs.skip(gi)[0] == (_cmd@, a as int, b as int));
                assert(gs[gi] == (_cmd@, a as int, b as int));
                let ghost kv = group_keys(group@);
                let mut j: usize = 0;
                let ghost seen0 = seen;
                let ghost keep0 = keep_all;
                while j < keys.len()
                    invariant
                        j <= keys@.len(),
                        keys@.len() == kv.len(),
                        forall|k: int| 0 <= k < keys@.len() ==> (#[trigger] keys@[k])@ == kv[k],
                        seen == seen0 + kv.take(j as int),
                        used@.len() == seen.len(),
                        forall|k: int| 0 <= k < used@.len() ==> (#[trigger] used@[k])@ == seen[k],
                        keep_all == seen.contains("*"@),
                    decreases keys@.len() - j,
                {
                    let star = eq_lit(keys[j].as_slice(), "*");
                    if star {
                        keep_all = true;
                    }
                    let kc = copy_range(keys[j].as_slice(), 0, keys[j].len());
                    assert(kc@ =~= kv[j as int]);
                    proof {
                        assert(seen0 + kv.take(j + 1) =~= (seen0 + kv.take(j as int)).push(kv[j as int]));
                        let old_seen = seen;
                        seen = seen.push(kv[j as int]);
                        assert(seen.contains("*"@) == (old_seen.contains("*"@) || kv[j as int] == "*"@)) by {
                            if seen.contains("*"@) {
                                let w = choose|w: int| 0 <= w < seen.len() && seen[w] == "*"@;
                                if w < old_seen.len() {
                                    assert(old_seen[w] == seen[w]);
                                }
                            }
                            if old_seen.contains("*"@) {
                                let w = choose|w: int| 0 <= w < old_seen.len() && old_seen[w] == "*"@;
                                assert(seen[w] == old_seen[w]);
                            }
                            if kv[j as int] == "*"@ {
                                assert(seen[seen.len() - 1] == kv[j as int]);
                            }
                        }
                    }
                    used.push(kc);
                    j += 1;
                }
                proof {
                    assert(kv.take(kv.len() as int) =~= kv);
                    let f = |k: int| group_keys(tex@.subrange(gs[k].1, gs[k].2));
                    let before = Seq::new(gi as nat, f);
                    let after = Seq::new((gi + 1) as nat, f);
                    assert(after =~= before.push(kv));
                    before.lemma_flatten_push(kv);
                    assert(gs.skip(gi + 1) =~= gs.skip(gi).drop_first());
                    gi = gi + 1;
                }
                i = b + 1;
            },
            None => {
                assert(cite_groups(tex@, i as int) == cite_groups(tex@, i + 1));
                i += 1;
            },
        }
    }
    proof {
        assert(gs.skip(gi).len() == 0);
        assert(Seq::new(gi as nat, |k: int| group_keys(tex@.subrange(gs[k].1, gs[k].2))) =~= Seq::new(
            gs.len(),
            |k: int| group_keys(tex@.subrange(gs[k].1, gs[k].2)),
        ));
    }
    (used, keep_all)
}

// ---------------------------------------------------------------------------
// Rewriting citations
// ---------------------------------------------------------------------------

/// A key that is renamed: `old` becomes `new`.
pub struct Rename {
    pub old: Vec<char>,
    pub new: Vec<char>,
}

impl View for Rename {
    type V = (Seq<char>, Seq<char>);

    open spec fn view(&self) -> (Seq<char>, Seq<char>) {
        (self.old@, self.new@)
    }
}

/// The year under which a key is sorted.
pub struct KeyYear {
    pub key: Vec<char>,
    pub year: i32,
}

impl View for KeyYear {
    type V = (Seq<char>, i32);

    open spec fn view(&self) -> (Seq<char>, i32) {
        (self.key@, self.year)
    }
}

pub open spec fn renames_view(v: Seq<Rename>) -> Seq<(Seq<char>, Seq<char>)> {
    v.map_values(|r: Rename| r@)
}

pub open spec fn years_view(v: Seq<KeyYear>) -> Seq<(Seq<char>, i32)> {
    v.map_values(|y: KeyYear| y@)
}

/// The year paired with the last occurrence of `k`.
pub open spec fn year_get(ys: Seq<(Seq<char>, i32)>, k: Seq<char>) -> Option<i32>
    decreases ys.len(),
{
    if ys.len() == 0 {
        None
    } else if ys.last().0 == k {
        Some(ys.last().1)
    } else {
        year_get(ys.drop_last(), k)
    }
}

/// The sort year of a key; keys without a year sort last, as year 9999.
pub open spec fn year_of(ys: Seq<(Seq<char>, i32)>, k: Seq<char>) -> i32 {
    match year_get(ys, k) {
        Some(y) => y,
        None => 9999,
    }
}

/// The new name of a key, or the key itself when it is not renamed.
pub open spec fn renamed(renames: Seq<(Seq<char>, Seq<char>)>, k: Seq<char>) -> Seq<char> {
    match assoc_get(renames, k) {
        Some(v) => v,
        None => k,
    }
}

/// How many keys at the front of `sorted` have a year at most `y`.
pub open spec fn insert_pos(sorted: Seq<Seq<char>>, ys: Seq<(Seq<char>, i32)>, y: i32) -> nat
    decreases sorted.len(),
{
    if sorted.len() == 0 {
        0
    } else if year_of(ys, sorted[0]) <= y {
        1 + insert_pos(sorted.drop_first(), ys, y)
    } else {
        0
    }
}

/// The keys in order of year; keys of equal year keep their order.
pub open spec fn sort_by_year(keys: Seq<Seq<char>>, ys: Seq<(Seq<char>, i32)>) -> Seq<Seq<char>>
    decreases keys.len(),
{
    if keys.len() == 0 {
        seq![]
    } else {
        let sorted = sort_by_year(keys.drop_last(), ys);
        let x = keys.last();
        sorted.insert(insert_pos(sorted, ys, year_of(ys, x)) as int, x)
    }
}

/// The text that replaces a key group: the renamed keys, sorted by year
/// when there are several, none is `*` and the command is not `nocite`,
/// joined by commas.
pub open spec fn group_replacement(
    cmd: Seq<char>,
    g: Seq<char>,
    renames: Seq<(Seq<char>, Seq<char>)>,
    ys: Seq<(Seq<char>, i32)>,
) -> Seq<char> {
    let ks = group_keys(g);
    let keys = Seq::new(ks.len(), |i: int| renamed(renames, ks[i]));
    let ordered = if keys.len() > 1 && !keys.contains("*"@) && cmd != "nocite"@ {
        sort_by_year(keys, ys)
    } else {
        keys
    };
    join(ordered, seq![','])
}

/// The text from `p` on with the key groups `gs` replaced.
pub open spec fn assemble(
    s: Seq<char>,
    p: int,
    gs: Seq<(Seq<char>, int, int)>,
    renames: Seq<(Seq<char>, Seq<char>)>,
    ys: Seq<(Seq<char>, i32)>,
) -> Seq<char>
    decreases gs.len(),
{
    if gs.len() == 0 {
        s.subrange(p, s.len() as int)
    } else {
        let g = gs[0];
        s.subrange(p, g.1) + group_replacement(g.0, s.subrange(g.1, g.2), renames, ys) + assemble(
            s,
            g.2,
            gs.drop_first(),
            renames,
            ys,
        )
    }
}

/// A LaTeX text with the keys of every citation renamed and, within each
/// citation, sorted by year.
pub open spec fn rewrite_spec(
    s: Seq<char>,
    renames: Seq<(Seq<char>, Seq<char>)>,
    ys: Seq<(Seq<char>, i32)>,
) -> Seq<char> {
    assemble(s, 0, cite_groups(s, 0), renames, ys)
}

fn lookup_rename(renames: &Vec<Rename>, k: &[char]) -> (r: Vec<char>)
    ensures
        r@ == renamed(renames_view(renames@), k@),
{
    let mut i = renames.len();
    assert(renames_view(renames@).take(i as int) =~= renames_view(renames@));
    while i > 0
        invariant
            i <= renames@.len(),
            assoc_get(renames_view(renames@), k@) == assoc_get(
                renames_view(renames@).take(i as int),
                k@,
            ),
        decreases i,
    {
        let ghost rv = renames_view(renames@).take(i as int);
        assert(rv.drop_last() =~= renames_view(renames@).take(i - 1));
        if chars_eq(renames[i - 1].old.as_slice(), k) {
            let v = copy_range(renames[i - 1].new.as_slice(), 0, renames[i - 1].new.len());
            assert(v@ =~= renames@[i - 1].new@);
            return v;
        }
        i -= 1;
    }
    assert(renames_view(renames@).take(0) =~= Seq::<(Seq<char>, Seq<char>)>::empty());
    copy_range(k, 0, k.len())
}

/// The sort year of a key (see `year_of`).
pub fn lookup_year(ys: &Vec<KeyYear>, k: &[char]) -> (r: i32)
    ensures
        r == year_of(years_view(ys@), k@),
{
    let mut i = ys.len();
    assert(years_view(ys@).take(i as int) =~= years_view(ys@));
    while i > 0
        invariant
            i <= ys@.len(),
            year_get(years_view(ys@), k@) == year_get(years_view(ys@).take(i as int), k@),
        decreases i,
    {
        let ghost yv = years_view(ys@).take(i as int);
        assert(yv.drop_last() =~= years_view(ys@).take(i - 1));
        if chars_eq(ys[i - 1].key.as_slice(), k) {
            return ys[i - 1].year;
        }
        i -= 1;
    }
    assert(years_view(ys@).take(0) =~= Seq::<(Seq<char>, i32)>::empty());
    9999
}

/// Sorts keys by year, keeping the order of keys of equal year.
fn sort_keys_by_year(keys: Vec<Vec<char>>, ys: &Vec<KeyYear>) -> (r: Vec<Vec<char>>)
    ensures
        r@.len() == sort_by_year(Seq::new(keys@.len(), |i: int| keys@[i]@), years_view(ys@)).len(),
        forall|k: int|
            0 <= k < r@.len() ==> (#[trigger] r@[k])@ == sort_by_year(
                Seq::new(keys@.len(), |i: int| keys@[i]@),
                years_view(ys@),
            )[k],
{
    let ghost kv = Seq::new(keys@.len(), |i: int| keys@[i]@);
    let ghost yv = years_view(ys@);
    let mut sorted: Vec<Vec<char>> = Vec::new();
    let mut years: Vec<i32> = Vec::new();
    let mut i: usize = 0;
    while i < keys.len()
        invariant
            i <= keys@.len(),
            kv == Seq::new(keys@.len(), |i: int| keys@[i]@),
            yv == years_view(ys@),
            sorted@.len() == sort_by_year(kv.take(i as int), yv).len(),
            years@.len() == sorted@.len(),
            forall|k: int|
                0 <= k < sorted@.len() ==> (#[trigger] sorted@[k])@ == sort_by_year(
                    kv.take(i as int),
                    yv,
                )[k],
            forall|k: int| 0 <= k < years@.len() ==> #[trigger] years@[k] == year_of(yv, sorted@[k]@),
        decreases keys@.len() - i,
    {
        let ghost sv = sort_by_year(kv.take(i as int), yv);
        assert(kv.take(i + 1).drop_last() =~= kv.take(i as int));
        assert(kv.take(i + 1).last() == kv[i as int]);
        let x = copy_range(keys[i].as_slice(), 0, keys[i].len());
        assert(x@ =~= kv[i as int]);
        let y = lookup_year(ys, x.as_slice());
        let mut p: usize = 0;
        assert(sv.skip(0) =~= sv);
        while p < years.len() && years[p] <= y
            invariant
                p <= years@.len(),
                years@.len() == sorted@.len(),
                sorted@.len() == sv.len(),
                forall|k: int| 0 <= k < sorted@.len() ==> (#[trigger] sorted@[k])@ == sv[k],
                forall|k: int| 0 <= k < years@.len() ==> #[trigger] years@[k] == year_of(yv, sorted@[k]@),
                insert_pos(sv, yv, y) == p + insert_pos(sv.skip(p as int), yv, y),
            decreases years@.len() - p,
        {
            assert(sv.skip(p as int).drop_first() =~= sv.skip(p + 1));
            assert(sv.skip(p as int)[0] == sv[p as int]);
            p += 1;
        }
        proof {
            if p < years@.len() {
                assert(sv.skip(p as int)[0] == sv[p as int]);
            } else {
                assert(sv.skip(p as int).len() == 0);
            }
        }
        let ghost before = sorted@;
        sorted.insert(p, x);
        years.insert(p, y);
        assert forall|k: int| 0 <= k < sorted@.len() implies (#[trigger] sorted@[k])@ == sort_by_year(
            kv.take(i + 1),
            yv,
        )[k] by {
            assert(sort_by_year(kv.take(i + 1), yv) == sv.insert(p as int, kv[i as int]));
            if k < p {
                assert(sorted@[k] == before[k]);
            } else if k > p {
                assert(sorted@[k] == before[k - 1]);
            }
        }
        i += 1;
    }
    assert(kv.take(kv.len() as int) =~= kv);
    sorted
}

/// Whether one of the keys is `*`.
fn has_star(keys: &Vec<Vec<char>>) -> (r: bool)
    ensures
        r == Seq::new(keys@.len(), |i: int| keys@[i]@).contains("*"@),
{
    let ghost kv = Seq::new(keys@.len(), |i: int| keys@[i]@);
    let mut i: usize = 0;
    while i < keys.len()
        invariant
            i <= keys@.len(),
            kv == Seq::new(keys@.len(), |i: int| keys@[i]@),
            forall|j: int| 0 <= j < i ==> kv[j] != "*"@,
        decreases keys@.len() - i,
    {
        if eq_lit(keys[i].as_slice(), "*") {
            assert(kv[i as int] == "*"@);
            return true;
        }
        i += 1;
    }
    false
}

/// The replacement text of a key group (see `group_replacement`).
fn replace_group(
    cmd: &[char],
    g: &[char],
    renames: &Vec<Rename>,
    ys: &Vec<KeyYear>,
) -> (r: Vec<char>)
    ensures
        r@ == group_replacement(cmd@, g@, renames_view(renames@), years_view(ys@)),
{
    let ks = keys_of_group(g);
    let ghost kv = group_keys(g@);
    let mut keys: Vec<Vec<char>> = Vec::new();
    let mut i: usize = 0;
    while i < ks.len()
        invariant
            i <= ks@.len(),
            ks@.len() == kv.len(),
            kv == group_keys(g@),
            forall|k: int| 0 <= k < ks@.len() ==> (#[trigger] ks@[k])@ == kv[k],
            keys@.len() == i,
            forall|k: int| 0 <= k < i ==> (#[trigger] keys@[k])@ == renamed(renames_view(renames@), kv[k]),
        decreases ks@.len() - i,
    {
        let k = lookup_rename(renames, ks[i].as_slice());
        keys.push(k);
        i += 1;
    }
    let ghost mapped = Seq::new(kv.len(), |i: int| renamed(renames_view(renames@), kv[i]));
    assert(Seq::new(keys@.len(), |i: int| keys@[i]@) =~= mapped);
    let star = has_star(&keys);
    let is_nocite = eq_lit(cmd, "nocite");
    if keys.len() > 1 && !star && !is_nocite {
        let sorted = sort_keys_by_year(keys, ys);
        join_words(&sorted, ',')
    } else {
        join_words(&keys, ',')
    }
}

/// Renames the keys of every citation of `tex` and sorts the keys of each
/// citation by year (see `rewrite_spec`).
pub fn rewrite_tex_citations(tex: &[char], renames: &Vec<Rename>, ys: &Vec<KeyYear>) -> (r: Vec<
    char,
>)
    ensures
        r@ == rewrite_spec(tex@, renames_view(renames@), years_view(ys@)),
{
    let ghost rv = renames_view(renames@);
    let ghost yv = years_view(ys@);
    let mut out: Vec<char> = Vec::new();
    let n = tex.len();
    let mut i: usize = 0;
    let mut last: usize = 0;
    let ghost gs = cite_groups(tex@, 0);
    let ghost mut gi: int = 0;
    proof {
        lemma_cite_groups(tex@, 0);
        assert(gs.skip(0) =~= gs);
        assert(out@ + assemble(tex@, 0, gs, rv, yv) =~= assemble(tex@, 0, gs, rv, yv));
        if gs.len() > 0 {
            assert(gs.skip(0)[0] == gs[0]);
        }
    }
    while i < n
        invariant
            n == tex@.len(),
            last <= i <= n,
            rv == renames_view(renames@),
            yv == years_view(ys@),
            gs == cite_groups(tex@, 0),
            0 <= gi <= gs.len(),
            cite_groups(tex@, i as int) == gs.skip(gi),
            forall|k: int| 0 <= k < gs.len() ==> (#[trigger] gs[k]).1 <= gs[k].2 < tex@.len(),
            gi < gs.len() ==> i < gs[gi].1,
            out@ + assemble(tex@, last as int, gs.skip(gi), rv, yv) == assemble(tex@, 0, gs, rv, yv),
        decreases n - i,
    {
        proof {
            lemma_cite_groups(tex@, i as int);
        }
        if tex[i] != '\\' {
            assert(cite_groups(tex@, i as int) == cite_groups(tex@, i + 1));
            i += 1;
            proof {
                lemma_cite_groups(tex@, i as int);
                if gi < gs.len() {
                    assert(gs.skip(gi)[0] == gs[gi]);
                }
            }
            continue;
        }
        match cite_group_at(tex, i) {
            Some((cmd, a, b)) => {
                proof {
                    lemma_cite_group(tex@, i as int);
                }
                assert(cite_groups(tex@, i as int) == seq![(cmd@, a as int, b as int)]
                    + cite_groups(tex@, b + 1));
                assert(gs.skip(gi)[0] == (cmd@, a as int, b as int));
                assert(gs[gi] == (cmd@, a as int, b as int));
                let group = copy_range(tex, a, b);
                let rep = replace_group(cmd.as_slice(), group.as_slice(), renames, ys);
                let before = copy_range(tex, last, a);
                proof {
                    let rest = gs.skip(gi);
                    assert(rest.drop_first() =~= gs.skip(gi + 1));
                    assert(assemble(tex@, last as int, rest, rv, yv) == before@ + rep@ + assemble(
                        tex@,
                        b as int,
                        gs.skip(gi + 1),
                        rv,
                        yv,
                    ));
                    assert(out@ + before@ + rep@ + assemble(tex@, b as int, gs.skip(gi + 1), rv, yv)
                        =~= out@ + assemble(tex@, last as int, rest, rv, yv));
                }
                append_chars(&mut out, before.as_slice());
                append_chars(&mut out, rep.as_slice());
                proof {
                    gi = gi + 1;
                }
                last = b;
                i = b + 1;
                proof {
                    lemma_cite_groups(tex@, i as int);
                    if gi < gs.len() {
                        assert(gs.skip(gi)[0] == gs[gi]);
                    }
                }
            },
            None => {
                assert(cite_groups(tex@, i as int) == cite_groups(tex@, i + 1));
                i += 1;
                proof {
                    lemma_cite_groups(tex@, i as int);
                    if gi < gs.len() {
                        assert(gs.skip(gi)[0] == gs[gi]);
                    }
                }
            },
        }
    }
    assert(gs.skip(gi).len() == 0);
    let tail = copy_range(tex, last, n);
    append_chars(&mut out, tail.as_slice());
    out
}

} // verus!
