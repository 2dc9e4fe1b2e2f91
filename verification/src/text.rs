//! Text operations shared by both tools: whitespace skipping and collapsing,
//! trimming, prefixes, splitting and joining.
use vstd::prelude::*;
use crate::chars::{is_ws, is_whitespace, utf8_len, utf8_width, width, chars_of, string_of};

verus! {

// ---------------------------------------------------------------------------
// Whitespace skipping
// ---------------------------------------------------------------------------

/// The first position at or after `i` that does not hold whitespace
/// (or `i` itself when `i` is past the end).
pub open spec fn skip_ws_spec(s: Seq<char>, i: int) -> int
    decreases s.len() - i,
{
    if 0 <= i < s.len() && is_ws(s[i]) {
        skip_ws_spec(s, i + 1)
    } else {
        i
    }
}

pub proof fn lemma_skip_ws_spec(s: Seq<char>, i: int)
    requires
        0 <= i,
    ensures
        i <= skip_ws_spec(s, i),
        i <= s.len() ==> skip_ws_spec(s, i) <= s.len(),
        i > s.len() ==> skip_ws_spec(s, i) == i,
        forall|k: int| i <= k < skip_ws_spec(s, i) ==> is_ws(#[trigger] s[k]),
        skip_ws_spec(s, i) < s.len() ==> !is_ws(s[skip_ws_spec(s, i)]),
    decreases s.len() - i,
{
    if 0 <= i < s.len() && is_ws(s[i]) {
        lemma_skip_ws_spec(s, i + 1);
    }
}

/// Skips whitespace characters in `s` starting at character position `idx`.
pub fn skip_ws_chars(s: &[char], idx: usize) -> (r: usize)
    ensures
        r == skip_ws_spec(s@, idx as int),
{
    let mut i = idx;
    while i < s.len() && is_whitespace(s[i])
        invariant
            idx <= i,
            i <= s@.len() || i == idx,
            skip_ws_spec(s@, idx as int) == skip_ws_spec(s@, i as int),
        decreases s@.len() - i,
    {
        i += 1;
    }
    i
}

/// Byte offset in the UTF-8 encoding of `s` at which character `k` starts.
pub open spec fn byte_offset(s: Seq<char>, k: int) -> nat {
    utf8_len(s.take(k))
}

proof fn lemma_utf8_len_add(a: Seq<char>, b: Seq<char>)
    ensures
        utf8_len(a + b) == utf8_len(a) + utf8_len(b),
    decreases b.len(),
{
    if b.len() > 0 {
        assert((a + b).drop_last() =~= a + b.drop_last());
        lemma_utf8_len_add(a, b.drop_last());
    } else {
        assert(a + b =~= a);
    }
}

proof fn lemma_encode_len(s: Seq<char>)
    ensures
        vstd::utf8::encode_utf8(s).len() == utf8_len(s),
    decreases s.len(),
{
    if s.len() > 0 {
        lemma_encode_len(s.drop_first());
        vstd::utf8::char_is_scalar(s[0]);
        assert(s =~= seq![s[0]] + s.drop_first());
        lemma_utf8_len_add(seq![s[0]], s.drop_first());
        assert(seq![s[0]].drop_last() =~= Seq::<char>::empty());
        assert(seq![s[0]].last() == s[0]);
        assert(utf8_len(Seq::<char>::empty()) == 0);
        assert(utf8_len(seq![s[0]]) == utf8_width(s[0]));
        assert(vstd::utf8::encode_utf8(s) == vstd::utf8::encode_scalar(s[0] as u32)
            + vstd::utf8::encode_utf8(s.drop_first()));
        assert(vstd::utf8::encode_scalar(s[0] as u32).len() == utf8_width(s[0]));
    }
}

proof fn lemma_byte_offset_step(s: Seq<char>, k: int)
    requires
        0 <= k < s.len(),
    ensures
        byte_offset(s, k + 1) == byte_offset(s, k) + utf8_width(s[k]),
{
    assert(s.take(k + 1).drop_last() =~= s.take(k));
}

proof fn lemma_byte_offset_mono(s: Seq<char>, j: int, k: int)
    requires
        0 <= j <= k <= s.len(),
    ensures
        byte_offset(s, j) + (k - j) <= byte_offset(s, k),
        j < k ==> byte_offset(s, j) < byte_offset(s, k),
    decreases k - j,
{
    if j < k {
        lemma_byte_offset_mono(s, j, k - 1);
        lemma_byte_offset_step(s, k - 1);
    }
}

proof fn lemma_byte_offset_inj(s: Seq<char>, j: int, k: int)
    requires
        0 <= j <= s.len(),
        0 <= k <= s.len(),
        byte_offset(s, j) == byte_offset(s, k),
    ensures
        j == k,
{
    if j < k {
        lemma_byte_offset_mono(s, j, k);
    } else if k < j {
        lemma_byte_offset_mono(s, k, j);
    }
}

/// Skips whitespace in `s` starting at byte offset `idx`, and returns the byte
/// offset of the first character that is not whitespace, or of the end.
/// An offset at or past the end is returned unchanged.
pub fn skip_ws(s: &str, idx: usize) -> (r: usize)
    requires
        utf8_len(s@) <= usize::MAX,
        idx < utf8_len(s@) ==> exists|k: int| 0 <= k <= s@.len() && byte_offset(s@, k) == idx,
    ensures
        idx >= utf8_len(s@) ==> r == idx,
        forall|k: int|
            0 <= k <= s@.len() && byte_offset(s@, k) == idx ==> r == byte_offset(
                s@,
                skip_ws_spec(s@, k),
            ),
{
    proof {
        lemma_encode_len(s@);
        assert(s@.take(s@.len() as int) =~= s@);
    }
    let len = s.len();
    assert(len == utf8_len(s@));
    assert(byte_offset(s@, s@.len() as int) == utf8_len(s@));
    if idx >= len {
        proof {
            assert forall|k: int|
                0 <= k <= s@.len() && byte_offset(s@, k) == idx implies idx == byte_offset(
                s@,
                skip_ws_spec(s@, k),
            ) by {
                if k < s@.len() {
                    lemma_byte_offset_mono(s@, k, s@.len() as int);
                }
                assert(k == s@.len());
            }
        }
        return idx;
    }
    let cs = chars_of(s);
    let ghost k0 = choose|k: int| 0 <= k <= s@.len() && byte_offset(s@, k) == idx;
    // find the character position of `idx`
    let mut k: usize = 0;
    let mut off: usize = 0;
    while off < idx
        invariant
            cs@ == s@,
            0 <= k0 <= s@.len(),
            byte_offset(s@, k0) == idx,
            idx < utf8_len(s@),
            k <= k0,
            off == byte_offset(s@, k as int),
            byte_offset(s@, s@.len() as int) == utf8_len(s@),
            utf8_len(s@) == len,
        decreases k0 - k,
    {
        proof {
            if k == k0 {
                assert(false);
            }
            lemma_byte_offset_step(s@, k as int);
            lemma_byte_offset_mono(s@, k + 1, k0);
        }
        off = off + width(cs[k]);
        k = k + 1;
    }
    proof {
        lemma_byte_offset_mono(s@, k as int, k0);
        if k < k0 {
            lemma_byte_offset_mono(s@, k as int, k0);
        }
    }
    assert(k == k0);
    let j = skip_ws_chars(cs.as_slice(), k);
    proof {
        lemma_skip_ws_spec(s@, k as int);
    }
    // byte offset of j
    let mut r = off;
    let mut m = k;
    while m < j
        invariant
            cs@ == s@,
            k <= m <= j,
            j <= s@.len(),
            r == byte_offset(s@, m as int),
            r <= utf8_len(s@),
            byte_offset(s@, s@.len() as int) == utf8_len(s@),
            utf8_len(s@) == len,
        decreases j - m,
    {
        proof {
            lemma_byte_offset_step(s@, m as int);
            lemma_byte_offset_mono(s@, m + 1, s@.len() as int);
        }
        r = r + width(cs[m]);
        m = m + 1;
    }
    proof {
        assert forall|k1: int|
            0 <= k1 <= s@.len() && byte_offset(s@, k1) == idx implies r == byte_offset(
            s@,
            skip_ws_spec(s@, k1),
        ) by {
            lemma_byte_offset_inj(s@, k1, k0);
        }
    }
    r
}

// ---------------------------------------------------------------------------
// Words, joining and collapsing
// ---------------------------------------------------------------------------

/// The maximal runs of non-whitespace characters of `s` (`str::split_whitespace`).
pub open spec fn words(s: Seq<char>) -> Seq<Seq<char>>
    decreases s.len(),
{
    if s.len() == 0 {
        seq![]
    } else {
        let prev = words(s.drop_last());
        let c = s.last();
        if is_ws(c) {
            prev
        } else if s.len() >= 2 && !is_ws(s[s.len() - 2]) {
            prev.update(prev.len() - 1, prev.last().push(c))
        } else {
            prev.push(seq![c])
        }
    }
}

/// The texts of `parts` with `sep` between each two of them.
pub open spec fn join(parts: Seq<Seq<char>>, sep: Seq<char>) -> Seq<char>
    decreases parts.len(),
{
    if parts.len() == 0 {
        seq![]
    } else if parts.len() == 1 {
        parts[0]
    } else {
        join(parts.drop_last(), sep) + sep + parts.last()
    }
}

/// `s` with its whitespace runs collapsed to single spaces and with no
/// whitespace at either end.
pub open spec fn collapse(s: Seq<char>) -> Seq<char> {
    join(words(s), seq![' '])
}

pub proof fn lemma_words_nonempty(s: Seq<char>)
    ensures
        s.len() > 0 && !is_ws(s.last()) ==> words(s).len() > 0,
        forall|i: int| 0 <= i < words(s).len() ==> (#[trigger] words(s)[i]).len() > 0,
        forall|i: int, j: int|
            0 <= i < words(s).len() && 0 <= j < words(s)[i].len() ==> !is_ws(
                #[trigger] words(s)[i][j],
            ),
        s.len() == 0 ==> words(s).len() == 0,
    decreases s.len(),
{
    if s.len() > 0 {
        lemma_words_nonempty(s.drop_last());
        let prev = words(s.drop_last());
        let c = s.last();
        if !is_ws(c) && s.len() >= 2 && !is_ws(s[s.len() - 2]) {
            assert(s.drop_last().last() == s[s.len() - 2]);
            assert(prev.len() > 0);
        }
    }
}

proof fn lemma_join_push(parts: Seq<Seq<char>>, w: Seq<char>, sep: Seq<char>)
    ensures
        parts.len() > 0 ==> join(parts.push(w), sep) == join(parts, sep) + sep + w,
        parts.len() == 0 ==> join(parts.push(w), sep) == w,
{
    assert(parts.push(w).drop_last() =~= parts);
}

proof fn lemma_join_extend_last(parts: Seq<Seq<char>>, c: char, sep: Seq<char>)
    requires
        parts.len() > 0,
    ensures
        join(parts.update(parts.len() - 1, parts.last().push(c)), sep) == join(parts, sep).push(
            c,
        ),
{
    let q = parts.update(parts.len() - 1, parts.last().push(c));
    if parts.len() > 1 {
        assert(q.drop_last() =~= parts.drop_last());
    }
}

/// Collapses whitespace in a character sequence.
pub fn collapse_chars(s: &[char]) -> (r: Vec<char>)
    ensures
        r@ == collapse(s@),
{
    let mut out: Vec<char> = Vec::new();
    let mut i: usize = 0;
    let mut nwords: usize = 0;
    while i < s.len()
        invariant
            i <= s@.len(),
            out@ == collapse(s@.take(i as int)),
            nwords == words(s@.take(i as int)).len(),
            nwords <= i,
        decreases s@.len() - i,
    {
        let c = s[i];
        let ghost t = s@.take(i as int);
        let ghost t1 = s@.take(i + 1);
        assert(t1.drop_last() =~= t);
        assert(t1.last() == c);
        if !is_whitespace(c) {
            if i >= 1 && !is_whitespace(s[i - 1]) {
                assert(t1[t1.len() - 2] == s@[i - 1]);
                proof {
                    lemma_words_nonempty(t);
                    assert(t.last() == s@[i - 1]);
                    lemma_join_extend_last(words(t), c, seq![' ']);
                }
                out.push(c);
            } else {
                proof {
                    lemma_join_push(words(t), seq![c], seq![' ']);
                    if i >= 1 {
                        assert(t1[t1.len() - 2] == s@[i - 1]);
                    }
                }
                if nwords > 0 {
                    out.push(' ');
                }
                out.push(c);
                nwords = nwords + 1;
                assert(out@ =~= collapse(t1));
            }
        }
        i += 1;
    }
    assert(s@.take(s@.len() as int) =~= s@);
    out
}

/// Collapses every run of whitespace into a single space and removes
/// whitespace at both ends (the words of `s` joined by single spaces).
pub fn collapse_whitespace(s: &str) -> (r: String)
    ensures
        r@ == collapse(s@),
{
    let cs = chars_of(s);
    let out = collapse_chars(cs.as_slice());
    string_of(out.as_slice())
}

// ---------------------------------------------------------------------------
// Ranges and prefixes
// ---------------------------------------------------------------------------

/// A copy of the characters `s[from..to]`.
pub fn copy_range(s: &[char], from: usize, to: usize) -> (r: Vec<char>)
    requires
        from <= to <= s@.len(),
    ensures
        r@ == s@.subrange(from as int, to as int),
{
    let mut r: Vec<char> = Vec::new();
    let mut i = from;
    while i < to
        invariant
            from <= i <= to,
            to <= s@.len(),
            r@ == s@.subrange(from as int, i as int),
        decreases to - i,
    {
        r.push(s[i]);
        i += 1;
        assert(r@ =~= s@.subrange(from as int, i as int));
    }
    r
}

/// Appends the characters of `t` to `out`.
pub fn append_chars(out: &mut Vec<char>, t: &[char])
    ensures
        final(out)@ == old(out)@ + t@,
{
    let mut i: usize = 0;
    while i < t.len()
        invariant
            i <= t@.len(),
            out@ == old(out)@ + t@.take(i as int),
        decreases t@.len() - i,
    {
        out.push(t[i]);
        i += 1;
        assert(out@ =~= old(out)@ + t@.take(i as int));
    }
    assert(t@.take(t@.len() as int) =~= t@);
}

/// Appends the characters of a literal to `out`.
pub fn append_lit(out: &mut Vec<char>, lit: &str)
    ensures
        final(out)@ == old(out)@ + lit@,
{
    let t = chars_of(lit);
    append_chars(out, t.as_slice());
}

/// `p` is a prefix of `s`.
pub open spec fn has_prefix(s: Seq<char>, p: Seq<char>) -> bool {
    p.len() <= s.len() && s.take(p.len() as int) == p
}

/// `p` is a suffix of `s`.
pub open spec fn has_suffix(s: Seq<char>, p: Seq<char>) -> bool {
    p.len() <= s.len() && s.skip(s.len() - p.len()) == p
}

/// `p` occurs in `s` starting at position `i`.
pub open spec fn occurs_at(s: Seq<char>, p: Seq<char>, i: int) -> bool {
    0 <= i && i + p.len() <= s.len() && s.subrange(i, i + p.len()) == p
}

/// `p` occurs somewhere in `s` (`str::contains`).
pub open spec fn contains_text(s: Seq<char>, p: Seq<char>) -> bool {
    exists|i: int| occurs_at(s, p, i)
}

/// Whether `s` starts with `p` at position `at`.
pub fn matches_at(s: &[char], at: usize, p: &[char]) -> (r: bool)
    requires
        at <= s@.len(),
    ensures
        r == occurs_at(s@, p@, at as int),
{
    let n = s.len();
    if p.len() > n - at {
        return false;
    }
    let mut i: usize = 0;
    while i < p.len()
        invariant
            n == s@.len(),
            at + p@.len() <= n,
            i <= p@.len(),
            forall|j: int| 0 <= j < i ==> s@[at + j] == p@[j],
        decreases p@.len() - i,
    {
        if s[at + i] != p[i] {
            assert(s@.subrange(at as int, at + p@.len())[i as int] != p@[i as int]);
            return false;
        }
        i += 1;
    }
    assert(s@.subrange(at as int, at + p@.len()) =~= p@);
    true
}

/// Whether `s` starts with `p`.
pub fn starts_with(s: &[char], p: &[char]) -> (r: bool)
    ensures
        r == has_prefix(s@, p@),
{
    let r = matches_at(s, 0, p);
    proof {
        if p@.len() <= s@.len() {
            assert(s@.subrange(0, p@.len() as int) =~= s@.take(p@.len() as int));
        }
    }
    r
}

/// Whether `s` starts with the literal `lit`.
pub fn starts_with_lit(s: &[char], lit: &str) -> (r: bool)
    ensures
        r == has_prefix(s@, lit@),
{
    let p = chars_of(lit);
    starts_with(s, p.as_slice())
}

/// Whether `s` ends with `p`.
pub fn ends_with(s: &[char], p: &[char]) -> (r: bool)
    ensures
        r == has_suffix(s@, p@),
{
    if p.len() > s.len() {
        return false;
    }
    let r = matches_at(s, s.len() - p.len(), p);
    proof {
        assert(s@.subrange(s@.len() - p@.len(), s@.len() as int) =~= s@.skip(
            s@.len() - p@.len(),
        ));
    }
    r
}

/// Whether `s` ends with the literal `lit`.
pub fn ends_with_lit(s: &[char], lit: &str) -> (r: bool)
    ensures
        r == has_suffix(s@, lit@),
{
    let p = chars_of(lit);
    ends_with(s, p.as_slice())
}

/// Whether `p` occurs in `s`.
pub fn contains(s: &[char], p: &[char]) -> (r: bool)
    ensures
        r == contains_text(s@, p@),
{
    let mut i: usize = 0;
    loop
        invariant
            i <= s@.len(),
            forall|j: int| 0 <= j < i ==> !occurs_at(s@, p@, j),
        decreases s@.len() - i,
    {
        if matches_at(s, i, p) {
            return true;
        }
        if i == s.len() {
            assert forall|j: int| !occurs_at(s@, p@, j) by {
                if 0 <= j < i {
                } else if j == i {
                } else {
                }
            }
            return false;
        }
        i += 1;
    }
}

/// Whether the literal `lit` occurs in `s`.
pub fn contains_lit(s: &[char], lit: &str) -> (r: bool)
    ensures
        r == contains_text(s@, lit@),
{
    let p = chars_of(lit);
    contains(s, p.as_slice())
}

// ---------------------------------------------------------------------------
// Trimming
// ---------------------------------------------------------------------------

/// Number of whitespace characters at the start of `s`.
pub open spec fn lead_ws(s: Seq<char>) -> nat
    decreases s.len(),
{
    if s.len() > 0 && is_ws(s[0]) {
        1 + lead_ws(s.drop_first())
    } else {
        0
    }
}

/// Number of whitespace characters at the end of `s`.
pub open spec fn trail_ws(s: Seq<char>) -> nat
    decreases s.len(),
{
    if s.len() > 0 && is_ws(s.last()) {
        1 + trail_ws(s.drop_last())
    } else {
        0
    }
}

/// `str::trim_start`.
pub open spec fn trim_start(s: Seq<char>) -> Seq<char> {
    s.skip(lead_ws(s) as int)
}

/// `str::trim_end`.
pub open spec fn trim_end(s: Seq<char>) -> Seq<char> {
    s.take(s.len() - trail_ws(s))
}

/// `str::trim`.
pub open spec fn trim(s: Seq<char>) -> Seq<char> {
    trim_end(trim_start(s))
}

pub proof fn lemma_lead_ws(s: Seq<char>)
    ensures
        lead_ws(s) <= s.len(),
        forall|k: int| 0 <= k < lead_ws(s) ==> is_ws(#[trigger] s[k]),
        lead_ws(s) < s.len() ==> !is_ws(s[lead_ws(s) as int]),
    decreases s.len(),
{
    if s.len() > 0 && is_ws(s[0]) {
        lemma_lead_ws(s.drop_first());
        assert forall|k: int| 0 <= k < lead_ws(s) implies is_ws(#[trigger] s[k]) by {
            if k > 0 {
                assert(s[k] == s.drop_first()[k - 1]);
            }
        }
    }
}

pub proof fn lemma_lead_ws_is_skip(s: Seq<char>)
    ensures
        lead_ws(s) == skip_ws_spec(s, 0),
{
    lemma_lead_ws(s);
    lemma_skip_ws_spec(s, 0);
    let a = lead_ws(s) as int;
    let b = skip_ws_spec(s, 0);
    if a < b {
        assert(is_ws(s[a]));
    } else if b < a {
        assert(is_ws(s[b]));
    }
}

pub proof fn lemma_trail_ws(s: Seq<char>)
    ensures
        trail_ws(s) <= s.len(),
        forall|k: int| s.len() - trail_ws(s) <= k < s.len() ==> is_ws(#[trigger] s[k]),
        trail_ws(s) < s.len() ==> !is_ws(s[s.len() - trail_ws(s) - 1]),
    decreases s.len(),
{
    if s.len() > 0 && is_ws(s.last()) {
        lemma_trail_ws(s.drop_last());
        assert forall|k: int| s.len() - trail_ws(s) <= k < s.len() implies is_ws(
            #[trigger] s[k],
        ) by {
            if k < s.len() - 1 {
                assert(s[k] == s.drop_last()[k]);
            }
        }
        if trail_ws(s) < s.len() {
            assert(s[s.len() - trail_ws(s) - 1] == s.drop_last()[s.drop_last().len() - trail_ws(
                s.drop_last(),
            ) - 1]);
        }
    }
}

/// Position of the first character of `s` that is not whitespace (or its length).
pub fn lead_ws_count(s: &[char]) -> (r: usize)
    ensures
        r == lead_ws(s@),
{
    proof {
        lemma_lead_ws_is_skip(s@);
        lemma_skip_ws_spec(s@, 0);
    }
    skip_ws_chars(s, 0)
}

/// Number of whitespace characters at the end of `s`.
pub fn trail_ws_count(s: &[char]) -> (r: usize)
    ensures
        r == trail_ws(s@),
{
    let mut n: usize = 0;
    proof {
        lemma_trail_ws(s@);
    }
    while n < s.len() && is_whitespace(s[s.len() - 1 - n])
        invariant
            n <= s@.len(),
            trail_ws(s@) >= n,
            trail_ws(s@) <= s@.len(),
            forall|k: int| s@.len() - trail_ws(s@) <= k < s@.len() ==> is_ws(#[trigger] s@[k]),
            trail_ws(s@) < s@.len() ==> !is_ws(s@[s@.len() - trail_ws(s@) - 1]),
        decreases s@.len() - n,
    {
        n += 1;
    }
    n
}

/// `s.trim()`.
pub fn trim_chars(s: &[char]) -> (r: Vec<char>)
    ensures
        r@ == trim(s@),
{
    proof {
        lemma_lead_ws(s@);
        lemma_trail_ws(trim_start(s@));
    }
    let a = lead_ws_count(s);
    let t = copy_range(s, a, s.len());
    assert(t@ =~= trim_start(s@));
    let b = trail_ws_count(t.as_slice());
    copy_range(t.as_slice(), 0, t.len() - b)
}

/// `s.trim_start()`.
pub fn trim_start_chars(s: &[char]) -> (r: Vec<char>)
    ensures
        r@ == trim_start(s@),
{
    proof {
        lemma_lead_ws(s@);
    }
    let a = lead_ws_count(s);
    let t = copy_range(s, a, s.len());
    assert(t@ =~= trim_start(s@));
    t
}

/// `s.trim_end()`.
pub fn trim_end_chars(s: &[char]) -> (r: Vec<char>)
    ensures
        r@ == trim_end(s@),
{
    proof {
        lemma_trail_ws(s@);
    }
    let b = trail_ws_count(s);
    let t = copy_range(s, 0, s.len() - b);
    assert(t@ =~= trim_end(s@));
    t
}

// ---------------------------------------------------------------------------
// Splitting
// ---------------------------------------------------------------------------

/// The pieces of `s` between occurrences of `sep` (`str::split` on a character).
pub open spec fn split_on(s: Seq<char>, sep: char) -> Seq<Seq<char>>
    decreases s.len(),
{
    if s.len() == 0 {
        seq![seq![]]
    } else {
        let prev = split_on(s.drop_last(), sep);
        if s.last() == sep {
            prev.push(seq![])
        } else {
            prev.update(prev.len() - 1, prev.last().push(s.last()))
        }
    }
}

pub proof fn lemma_split_on_len(s: Seq<char>, sep: char)
    ensures
        split_on(s, sep).len() >= 1,
    decreases s.len(),
{
    if s.len() > 0 {
        lemma_split_on_len(s.drop_last(), sep);
    }
}

/// Splits `s` at every occurrence of `sep`.
pub fn split_chars(s: &[char], sep: char) -> (r: Vec<Vec<char>>)
    ensures
        r@.len() == split_on(s@, sep).len(),
        forall|i: int| 0 <= i < r@.len() ==> (#[trigger] r@[i])@ == split_on(s@, sep)[i],
{
    let mut r: Vec<Vec<char>> = Vec::new();
    let mut cur: Vec<char> = Vec::new();
    let mut i: usize = 0;
    while i < s.len()
        invariant
            i <= s@.len(),
            r@.len() + 1 == split_on(s@.take(i as int), sep).len(),
            forall|k: int| 0 <= k < r@.len() ==> (#[trigger] r@[k])@ == split_on(s@.take(i as int), sep)[k],
            cur@ == split_on(s@.take(i as int), sep).last(),
        decreases s@.len() - i,
    {
        proof {
            lemma_split_on_len(s@.take(i as int), sep);
        }
        let ghost t1 = s@.take(i + 1);
        assert(t1.drop_last() =~= s@.take(i as int));
        if s[i] == sep {
            let done = cur;
            r.push(done);
            cur = Vec::new();
        } else {
            cur.push(s[i]);
        }
        i += 1;
    }
    assert(s@.take(s@.len() as int) =~= s@);
    r.push(cur);
    r
}

pub proof fn lemma_trim_len(s: Seq<char>)
    ensures
        trim(s).len() <= s.len(),
        trim_start(s).len() <= s.len(),
        trim_end(s).len() <= s.len(),
{
    lemma_lead_ws(s);
    lemma_trail_ws(trim_start(s));
    lemma_trail_ws(s);
}

/// The words of `s` (`str::split_whitespace`).
pub fn split_words(s: &[char]) -> (r: Vec<Vec<char>>)
    ensures
        r@.len() == words(s@).len(),
        forall|k: int| 0 <= k < r@.len() ==> (#[trigger] r@[k])@ == words(s@)[k],
{
    let mut out: Vec<Vec<char>> = Vec::new();
    let mut cur: Vec<char> = Vec::new();
    let mut in_word = false;
    let mut i: usize = 0;
    while i < s.len()
        invariant
            i <= s@.len(),
            in_word == (i > 0 && !is_ws(s@[i - 1])),
            in_word ==> words(s@.take(i as int)).len() == out@.len() + 1 && cur@ == words(
                s@.take(i as int),
            ).last(),
            !in_word ==> words(s@.take(i as int)).len() == out@.len(),
            forall|k: int| 0 <= k < out@.len() ==> (#[trigger] out@[k])@ == words(s@.take(i as int))[k],
        decreases s@.len() - i,
    {
        let c = s[i];
        let ghost t = s@.take(i as int);
        let ghost t1 = s@.take(i + 1);
        assert(t1.drop_last() =~= t);
        assert(t1.last() == c);
        if i >= 1 {
            assert(t1[t1.len() - 2] == s@[i - 1]);
        }
        if is_whitespace(c) {
            if in_word {
                let w = cur;
                out.push(w);
                cur = Vec::new();
            }
            in_word = false;
        } else {
            if in_word {
                cur.push(c);
            } else {
                cur = Vec::new();
                cur.push(c);
                assert(cur@ =~= seq![c]);
            }
            in_word = true;
        }
        i += 1;
    }
    assert(s@.take(s@.len() as int) =~= s@);
    if in_word {
        out.push(cur);
    }
    out
}

} // verus!
