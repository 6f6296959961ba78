//! Character-level text model shared by the parser and the code generator.
//!
//! Strings are modelled by their character sequences (`s@: Seq<char>`).
//! Scanning functions work on index ranges of a `Vec<char>`, and each one is
//! tied to a spec function over `Seq<char>`.
use vstd::prelude::*;

verus! {

// ── Character classes ───────────────────────────────────────────────────────

/// Unicode `White_Space`, the set that `char::is_whitespace` and `str::trim` use.
pub open spec fn is_ws(c: char) -> bool {
    let u: u32 = c as u32;
    (9 <= u && u <= 13) || u == 32 || u == 0x85 || u == 0xA0 || u == 0x1680 || (0x2000 <= u
        && u <= 0x200A) || u == 0x2028 || u == 0x2029 || u == 0x202F || u == 0x205F || u == 0x3000
}

/// Characters that may appear in a node name: ASCII letters and digits, `_`,
/// and the blanks that separate words of a multi-word name.
pub open spec fn is_ident_char(c: char) -> bool {
    let u: u32 = c as u32;
    (48 <= u && u <= 57) || (65 <= u && u <= 90) || (97 <= u && u <= 122) || u == 95 || u == 32
        || u == 9
}

pub fn is_ws_exec(c: char) -> (b: bool)
    ensures
        b == is_ws(c),
{
    let u: u32 = c as u32;
    (9 <= u && u <= 13) || u == 32 || u == 0x85 || u == 0xA0 || u == 0x1680 || (0x2000 <= u
        && u <= 0x200A) || u == 0x2028 || u == 0x2029 || u == 0x202F || u == 0x205F || u == 0x3000
}

pub fn is_ident_char_exec(c: char) -> (b: bool)
    ensures
        b == is_ident_char(c),
{
    let u: u32 = c as u32;
    (48 <= u && u <= 57) || (65 <= u && u <= 90) || (97 <= u && u <= 122) || u == 95 || u == 32
        || u == 9
}

pub open spec fn ws_pred() -> spec_fn(char) -> bool {
    |c: char| is_ws(c)
}

pub open spec fn ident_pred() -> spec_fn(char) -> bool {
    |c: char| is_ident_char(c)
}

pub open spec fn dash_pred() -> spec_fn(char) -> bool {
    |c: char| c == '-'
}

pub open spec fn other_than(c: char) -> spec_fn(char) -> bool {
    |x: char| x != c
}

// ── Scanning ────────────────────────────────────────────────────────────────

/// Length of the longest prefix of `s` whose characters all satisfy `p`.
pub open spec fn prefix_count(s: Seq<char>, p: spec_fn(char) -> bool) -> nat
    decreases s.len(),
{
    if s.len() > 0 && p(s[0]) {
        1 + prefix_count(s.drop_first(), p)
    } else {
        0
    }
}

/// Length of the longest suffix of `s` whose characters all satisfy `p`.
pub open spec fn suffix_count(s: Seq<char>, p: spec_fn(char) -> bool) -> nat
    decreases s.len(),
{
    if s.len() > 0 && p(s.last()) {
        1 + suffix_count(s.drop_last(), p)
    } else {
        0
    }
}

/// Number of leading whitespace characters.
pub open spec fn lead_ws(s: Seq<char>) -> nat {
    prefix_count(s, ws_pred())
}

/// Number of trailing whitespace characters.
pub open spec fn trail_ws(s: Seq<char>) -> nat {
    suffix_count(s, ws_pred())
}

/// Length of the leading run of name characters.
pub open spec fn ident_len(s: Seq<char>) -> nat {
    prefix_count(s, ident_pred())
}

/// Number of leading `-` characters.
pub open spec fn dash_len(s: Seq<char>) -> nat {
    prefix_count(s, dash_pred())
}

/// Index of the first occurrence of `c` in `s`.
pub open spec fn find(s: Seq<char>, c: char) -> Option<nat> {
    let k = prefix_count(s, other_than(c));
    if k < s.len() {
        Some(k)
    } else {
        None
    }
}

pub open spec fn trim_start(s: Seq<char>) -> Seq<char> {
    s.skip(lead_ws(s) as int)
}

pub open spec fn trim_end(s: Seq<char>) -> Seq<char> {
    s.take(s.len() - trail_ws(s))
}

/// `s` without leading and trailing whitespace, as `str::trim` gives it.
pub open spec fn trim(s: Seq<char>) -> Seq<char> {
    trim_end(trim_start(s))
}

/// A (possibly blank-padded) name: one or more name characters, not all blank.
pub open spec fn is_ident(s: Seq<char>) -> bool {
    ident_len(s) == s.len() && trim(s).len() > 0
}

pub open spec fn has_prefix(s: Seq<char>, p: Seq<char>) -> bool {
    p.len() <= s.len() && s.take(p.len() as int) == p
}

/// The pieces of `s` between occurrences of `c`, as `str::split` gives them.
pub open spec fn split(s: Seq<char>, c: char) -> Seq<Seq<char>>
    decreases s.len(),
{
    match find(s, c) {
        Some(i) => {
            proof {
                lemma_prefix_count_props(s, other_than(c));
            }
            seq![s.take(i as int)] + split(s.skip((i + 1) as int), c)
        },
        None => seq![s],
    }
}

/// Index of the first occurrence of `p` in `s`.
pub open spec fn find_seq(s: Seq<char>, p: Seq<char>) -> Option<nat>
    decreases s.len(),
{
    if s.len() < p.len() {
        None
    } else if has_prefix(s, p) {
        Some(0)
    } else if s.len() == 0 {
        None
    } else {
        match find_seq(s.drop_first(), p) {
            Some(i) => Some(i + 1),
            None => None,
        }
    }
}

/// Whether `p` occurs in `s`.
pub open spec fn contains_seq(s: Seq<char>, p: Seq<char>) -> bool {
    exists|i: int| 0 <= i && i + p.len() <= s.len() && #[trigger] s.subrange(i, i + p.len()) == p
}

/// `s` with every occurrence of `p` replaced by `r`, scanning left to right
/// without overlaps, as `str::replace` does for a non-empty pattern.
pub open spec fn replace_all(s: Seq<char>, p: Seq<char>, r: Seq<char>) -> Seq<char>
    decreases s.len(),
{
    if p.len() == 0 || s.len() == 0 {
        s
    } else if has_prefix(s, p) {
        r + replace_all(s.skip(p.len() as int), p, r)
    } else {
        seq![s[0]] + replace_all(s.drop_first(), p, r)
    }
}

/// The whitespace-separated words of `s`, as `str::split_whitespace` gives them.
pub open spec fn words(s: Seq<char>) -> Seq<Seq<char>>
    decreases s.len(),
{
    let u = trim_start(s);
    if u.len() == 0 {
        seq![]
    } else {
        let w = prefix_count(u, non_ws_pred());
        proof {
            lemma_prefix_count_props(s, ws_pred());
            lemma_prefix_count_props(u, non_ws_pred());
        }
        if w == 0 {
            seq![]
        } else {
            seq![u.take(w as int)] + words(u.skip(w as int))
        }
    }
}

pub open spec fn non_ws_pred() -> spec_fn(char) -> bool {
    |c: char| !is_ws(c)
}

/// `n` blanks.
pub open spec fn spaces(n: nat) -> Seq<char> {
    Seq::new(n, |i: int| ' ')
}

// ── Lemmas ──────────────────────────────────────────────────────────────────

/// The prefix count is the first index whose character fails `p`.
pub proof fn lemma_prefix_count(s: Seq<char>, p: spec_fn(char) -> bool, k: int)
    requires
        0 <= k <= s.len(),
        forall|j: int| 0 <= j < k ==> p(s[j]),
        k == s.len() || !p(s[k]),
    ensures
        prefix_count(s, p) == k,
    decreases k,
{
    if k > 0 {
        lemma_prefix_count(s.drop_first(), p, k - 1);
    }
}

pub proof fn lemma_prefix_count_props(s: Seq<char>, p: spec_fn(char) -> bool)
    ensures
        prefix_count(s, p) <= s.len(),
        forall|j: int| 0 <= j < prefix_count(s, p) ==> p(s[j]),
        prefix_count(s, p) == s.len() || !p(s[prefix_count(s, p) as int]),
    decreases s.len(),
{
    if s.len() > 0 && p(s[0]) {
        lemma_prefix_count_props(s.drop_first(), p);
        assert forall|j: int| 0 <= j < prefix_count(s, p) implies p(s[j]) by {
            if j > 0 {
                assert(s[j] == s.drop_first()[j - 1]);
            }
        }
    }
}

/// The suffix count is the number of trailing characters satisfying `p`.
pub proof fn lemma_suffix_count(s: Seq<char>, p: spec_fn(char) -> bool, k: int)
    requires
        0 <= k <= s.len(),
        forall|j: int| s.len() - k <= j < s.len() ==> p(s[j]),
        k == s.len() || !p(s[s.len() - 1 - k]),
    ensures
        suffix_count(s, p) == k,
    decreases k,
{
    if k > 0 {
        lemma_suffix_count(s.drop_last(), p, k - 1);
    }
}

pub proof fn lemma_suffix_count_props(s: Seq<char>, p: spec_fn(char) -> bool)
    ensures
        suffix_count(s, p) <= s.len(),
        forall|j: int| s.len() - suffix_count(s, p) <= j < s.len() ==> p(s[j]),
        suffix_count(s, p) == s.len() || !p(s[s.len() - 1 - suffix_count(s, p)]),
    decreases s.len(),
{
    if s.len() > 0 && p(s.last()) {
        lemma_suffix_count_props(s.drop_last(), p);
        assert forall|j: int|
            s.len() - suffix_count(s, p) <= j < s.len() implies p(s[j]) by {
            if j < s.len() - 1 {
                assert(s[j] == s.drop_last()[j]);
            }
        }
    }
}

/// `find` returns the first occurrence.
pub proof fn lemma_find(s: Seq<char>, c: char)
    ensures
        match find(s, c) {
            Some(i) => i < s.len() && s[i as int] == c && forall|j: int| 0 <= j < i ==> s[j] != c,
            None => forall|j: int| 0 <= j < s.len() ==> s[j] != c,
        },
{
    lemma_prefix_count_props(s, other_than(c));
}

/// A first occurrence of `c` at `i` is what `find` returns.
pub proof fn lemma_find_at(s: Seq<char>, c: char, i: int)
    requires
        0 <= i <= s.len(),
        forall|j: int| 0 <= j < i ==> s[j] != c,
        i == s.len() || s[i] == c,
    ensures
        i < s.len() ==> find(s, c) == Some(i as nat),
        i == s.len() ==> find(s, c) is None,
{
    lemma_prefix_count(s, other_than(c), i);
}

/// A trimmed sequence is either empty or starts and ends with non-blank characters.
pub proof fn lemma_trim(s: Seq<char>)
    ensures
        lead_ws(s) <= s.len(),
        trim_start(s).len() == s.len() - lead_ws(s),
        trail_ws(trim_start(s)) <= trim_start(s).len(),
        trim(s).len() > 0 ==> !is_ws(trim(s)[0]) && !is_ws(trim(s).last()),
        trim(s) == s.subrange(
            lead_ws(s) as int,
            s.len() - trail_ws(trim_start(s)),
        ),
        trim(s).len() == 0 ==> forall|j: int| 0 <= j < s.len() ==> is_ws(s[j]),
{
    lemma_prefix_count_props(s, ws_pred());
    let u = trim_start(s);
    lemma_suffix_count_props(u, ws_pred());
    assert(trim(s) =~= s.subrange(lead_ws(s) as int, s.len() - trail_ws(u)));
    if trim(s).len() == 0 {
        assert forall|j: int| 0 <= j < s.len() implies is_ws(s[j]) by {
            if j >= lead_ws(s) {
                assert(s[j] == u[j - lead_ws(s)]);
            }
        }
    }
}

/// Trimming a sequence that neither starts nor ends with blanks changes nothing.
pub proof fn lemma_trim_id(s: Seq<char>)
    requires
        s.len() > 0,
        !is_ws(s[0]),
        !is_ws(s.last()),
    ensures
        trim(s) == s,
{
    lemma_prefix_count(s, ws_pred(), 0);
    assert(trim_start(s) =~= s);
    lemma_suffix_count(s, ws_pred(), 0);
    assert(trim(s) =~= s);
}

/// Trimming twice is trimming once.
pub broadcast proof fn lemma_trim_trim(s: Seq<char>)
    ensures
        #[trigger] trim(trim(s)) == trim(s),
{
    lemma_trim(s);
    let t = trim(s);
    if t.len() > 0 {
        lemma_trim_id(t);
    } else {
        lemma_trim(t);
        assert(trim(t).len() <= t.len()) by {
            lemma_prefix_count_props(t, ws_pred());
        }
        assert(trim(t) =~= t);
    }
}

/// Trimming a text held between blanks gives the text, when the text itself
/// neither starts nor ends with a blank.
proof fn lemma_trim_around(p: Seq<char>, y: Seq<char>, q: Seq<char>)
    requires
        forall|i: int| 0 <= i < p.len() ==> is_ws(#[trigger] p[i]),
        forall|i: int| 0 <= i < q.len() ==> is_ws(#[trigger] q[i]),
        y.len() > 0 ==> !is_ws(y[0]) && !is_ws(y.last()),
    ensures
        trim(p + y + q) == y,
{
    let s = p + y + q;
    if y.len() > 0 {
        assert forall|j: int| 0 <= j < p.len() implies #[trigger] ws_pred()(s[j]) by {
            assert(s[j] == p[j]);
        }
        assert(s[p.len() as int] == y[0]);
        lemma_prefix_count(s, ws_pred(), p.len() as int);
        let u = trim_start(s);
        assert(u =~= y + q);
        assert forall|j: int| u.len() - q.len() <= j < u.len() implies #[trigger] ws_pred()(u[j]) by {
            assert(u[j] == q[j - y.len()]);
        }
        assert(u[u.len() - 1 - q.len()] == y.last());
        lemma_suffix_count(u, ws_pred(), q.len() as int);
        assert(trim(s) =~= y);
    } else {
        assert forall|j: int| 0 <= j < s.len() implies #[trigger] ws_pred()(s[j]) by {
            if j < p.len() {
                assert(s[j] == p[j]);
            } else {
                assert(s[j] == q[j - p.len()]);
            }
        }
        lemma_prefix_count(s, ws_pred(), s.len() as int);
        let u = trim_start(s);
        assert(u.len() == 0);
        lemma_suffix_count(u, ws_pred(), 0);
        assert(trim(s) =~= y);
    }
}

/// Blanks around a text do not change its trimmed form.
pub proof fn lemma_trim_pad(p: Seq<char>, x: Seq<char>, q: Seq<char>)
    requires
        forall|i: int| 0 <= i < p.len() ==> is_ws(#[trigger] p[i]),
        forall|i: int| 0 <= i < q.len() ==> is_ws(#[trigger] q[i]),
    ensures
        trim(p + x + q) == trim(x),
{
    lemma_trim(x);
    lemma_prefix_count_props(x, ws_pred());
    let lo = lead_ws(x) as int;
    let u = trim_start(x);
    lemma_suffix_count_props(u, ws_pred());
    let hi = x.len() - trail_ws(u);
    let y = trim(x);
    let p2 = p + x.take(lo);
    let q2 = x.skip(hi) + q;
    assert(p + x + q =~= p2 + y + q2);
    assert forall|i: int| 0 <= i < p2.len() implies is_ws(#[trigger] p2[i]) by {
        if i >= p.len() {
            assert(p2[i] == x[i - p.len()]);
            assert(ws_pred()(x[i - p.len()]));
        }
    }
    assert forall|i: int| 0 <= i < q2.len() implies is_ws(#[trigger] q2[i]) by {
        if i < x.len() - hi {
            assert(q2[i] == x[hi + i]);
            assert(x[hi + i] == u[hi + i - lo]);
            assert(ws_pred()(u[hi + i - lo]));
        } else {
            assert(q2[i] == q[i - (x.len() - hi)]);
        }
    }
    lemma_trim_around(p2, y, q2);
}

/// The name-character run covers a text exactly when all its characters are
/// name characters.
pub proof fn lemma_ident_len_full(s: Seq<char>)
    ensures
        ident_len(s) == s.len() <==> forall|i: int| 0 <= i < s.len() ==> is_ident_char(#[trigger] s[i]),
{
    lemma_prefix_count_props(s, ident_pred());
    if forall|i: int| 0 <= i < s.len() ==> is_ident_char(#[trigger] s[i]) {
        assert forall|j: int| 0 <= j < s.len() implies #[trigger] ident_pred()(s[j]) by {
            assert(is_ident_char(s[j]));
        }
        lemma_prefix_count(s, ident_pred(), s.len() as int);
    } else if ident_len(s) == s.len() {
        assert forall|i: int| 0 <= i < s.len() implies is_ident_char(#[trigger] s[i]) by {
            assert(ident_pred()(s[i]));
        }
    }
}

/// Padding a name with blanks (spaces or tabs) keeps it a name, or not one.
pub proof fn lemma_ident_pad(p: Seq<char>, x: Seq<char>, q: Seq<char>)
    requires
        forall|i: int| 0 <= i < p.len() ==> #[trigger] p[i] == ' ' || p[i] == '\t',
        forall|i: int| 0 <= i < q.len() ==> #[trigger] q[i] == ' ' || q[i] == '\t',
    ensures
        is_ident(p + x + q) == is_ident(x),
        trim(p + x + q) == trim(x),
{
    let s = p + x + q;
    assert forall|i: int| 0 <= i < p.len() implies is_ws(#[trigger] p[i]) by {}
    assert forall|i: int| 0 <= i < q.len() implies is_ws(#[trigger] q[i]) by {}
    lemma_trim_pad(p, x, q);
    lemma_ident_len_full(s);
    lemma_ident_len_full(x);
    if forall|i: int| 0 <= i < x.len() ==> is_ident_char(#[trigger] x[i]) {
        assert forall|i: int| 0 <= i < s.len() implies is_ident_char(#[trigger] s[i]) by {
            if i < p.len() {
                assert(s[i] == p[i]);
            } else if i < p.len() + x.len() {
                assert(s[i] == x[i - p.len()]);
            } else {
                assert(s[i] == q[i - p.len() - x.len()]);
            }
        }
    } else {
        let k = choose|k: int| 0 <= k < x.len() && !is_ident_char(#[trigger] x[k]);
        assert(s[p.len() + k] == x[k]);
    }
}

/// Splitting a text with some blanks added at its end: the last piece gets
/// the blanks.
pub proof fn lemma_split_append(x: Seq<char>, q: Seq<char>, c: char)
    requires
        forall|i: int| 0 <= i < q.len() ==> #[trigger] q[i] != c,
    ensures
        split(x, c).len() >= 1,
        split(x + q, c) == split(x, c).update(
            split(x, c).len() - 1,
            split(x, c).last() + q,
        ),
    decreases x.len(),
{
    lemma_find(x, c);
    match find(x, c) {
        Some(i) => {
            let i = i as int;
            let s = x + q;
            assert forall|j: int| 0 <= j < i implies s[j] != c by {
                assert(s[j] == x[j]);
            }
            lemma_split_at(s, c, i);
            lemma_split_at(x, c, i);
            assert(s.take(i) =~= x.take(i));
            assert(s.skip(i + 1) =~= x.skip(i + 1) + q);
            lemma_split_append(x.skip(i + 1), q, c);
            assert(split(x + q, c) =~= split(x, c).update(
                split(x, c).len() - 1,
                split(x, c).last() + q,
            ));
        },
        None => {
            let s = x + q;
            assert forall|j: int| 0 <= j < s.len() implies s[j] != c by {
                if j < x.len() {
                    assert(s[j] == x[j]);
                } else {
                    assert(s[j] == q[j - x.len()]);
                }
            }
            lemma_split_none(s, c);
            lemma_split_none(x, c);
            assert(split(x + q, c) =~= split(x, c).update(0, x + q));
        },
    }
}

/// `find` on `a + [c] + b` where `a` has no `c`.
pub proof fn lemma_find_concat(a: Seq<char>, c: char, b: Seq<char>)
    requires
        forall|j: int| 0 <= j < a.len() ==> a[j] != c,
    ensures
        find(a + seq![c] + b, c) == Some(a.len()),
{
    let s = a + seq![c] + b;
    assert forall|j: int| 0 <= j < a.len() implies s[j] != c by {
        assert(s[j] == a[j]);
    }
    lemma_find_at(s, c, a.len() as int);
}

/// `split` starting at a known first occurrence.
pub proof fn lemma_split_at(s: Seq<char>, c: char, i: int)
    requires
        0 <= i < s.len(),
        s[i] == c,
        forall|j: int| 0 <= j < i ==> s[j] != c,
    ensures
        split(s, c) == seq![s.take(i)] + split(s.skip(i + 1), c),
{
    lemma_find_at(s, c, i);
}

/// `split` of a sequence without `c`.
pub proof fn lemma_split_none(s: Seq<char>, c: char)
    requires
        forall|j: int| 0 <= j < s.len() ==> s[j] != c,
    ensures
        split(s, c) == seq![s],
{
    lemma_find_at(s, c, s.len() as int);
}

// ── Executable scanning over a character vector ─────────────────────────────

/// Index of the first non-blank character in `v[lo..hi]` (or `hi`).
pub fn skip_ws(v: &Vec<char>, lo: usize, hi: usize) -> (k: usize)
    requires
        lo <= hi <= v.len(),
    ensures
        lo <= k <= hi,
        k - lo == lead_ws(v@.subrange(lo as int, hi as int)),
{
    let mut k: usize = lo;
    while k < hi && is_ws_exec(v[k])
        invariant
            lo <= k <= hi,
            hi <= v.len(),
            forall|j: int| lo <= j < k ==> is_ws(v@[j]),
        decreases hi - k,
    {
        k += 1;
    }
    proof {
        let s = v@.subrange(lo as int, hi as int);
        lemma_prefix_count(s, ws_pred(), k - lo);
    }
    k
}

/// Index just past the last non-blank character in `v[lo..hi]` (or `lo`).
pub fn back_ws(v: &Vec<char>, lo: usize, hi: usize) -> (k: usize)
    requires
        lo <= hi <= v.len(),
    ensures
        lo <= k <= hi,
        hi - k == trail_ws(v@.subrange(lo as int, hi as int)),
{
    let mut k: usize = hi;
    while k > lo && is_ws_exec(v[k - 1])
        invariant
            lo <= k <= hi,
            hi <= v.len(),
            forall|j: int| k <= j < hi ==> is_ws(v@[j]),
        decreases k - lo,
    {
        k -= 1;
    }
    proof {
        let s = v@.subrange(lo as int, hi as int);
        lemma_suffix_count(s, ws_pred(), hi - k);
    }
    k
}

/// Bounds of the trimmed part of `v[lo..hi]`.
pub fn trim_range(v: &Vec<char>, lo: usize, hi: usize) -> (r: (usize, usize))
    requires
        lo <= hi <= v.len(),
    ensures
        lo <= r.0 <= r.1 <= hi,
        v@.subrange(r.0 as int, r.1 as int) == trim(v@.subrange(lo as int, hi as int)),
{
    let a: usize = skip_ws(v, lo, hi);
    let b: usize = back_ws(v, a, hi);
    proof {
        let s = v@.subrange(lo as int, hi as int);
        assert(trim_start(s) =~= v@.subrange(a as int, hi as int));
        assert(v@.subrange(a as int, b as int) =~= trim(s));
    }
    (a, b)
}

/// Index of the first character of `v[lo..hi]` that is not a name character.
pub fn scan_ident(v: &Vec<char>, lo: usize, hi: usize) -> (k: usize)
    requires
        lo <= hi <= v.len(),
    ensures
        lo <= k <= hi,
        k - lo == ident_len(v@.subrange(lo as int, hi as int)),
{
    let mut k: usize = lo;
    while k < hi && is_ident_char_exec(v[k])
        invariant
            lo <= k <= hi,
            hi <= v.len(),
            forall|j: int| lo <= j < k ==> is_ident_char(v@[j]),
        decreases hi - k,
    {
        k += 1;
    }
    proof {
        let s = v@.subrange(lo as int, hi as int);
        lemma_prefix_count(s, ident_pred(), k - lo);
    }
    k
}

/// Index of the first blank character of `v[lo..hi]` (or `hi`).
pub fn scan_non_ws(v: &Vec<char>, lo: usize, hi: usize) -> (k: usize)
    requires
        lo <= hi <= v.len(),
    ensures
        lo <= k <= hi,
        k - lo == prefix_count(v@.subrange(lo as int, hi as int), non_ws_pred()),
{
    let mut k: usize = lo;
    while k < hi && !is_ws_exec(v[k])
        invariant
            lo <= k <= hi,
            hi <= v.len(),
            forall|j: int| lo <= j < k ==> !is_ws(v@[j]),
        decreases hi - k,
    {
        k += 1;
    }
    proof {
        let s = v@.subrange(lo as int, hi as int);
        lemma_prefix_count(s, non_ws_pred(), k - lo);
    }
    k
}

/// Index of the first character of `v[lo..hi]` that is not `-`.
pub fn scan_dashes(v: &Vec<char>, lo: usize, hi: usize) -> (k: usize)
    requires
        lo <= hi <= v.len(),
    ensures
        lo <= k <= hi,
        k - lo == dash_len(v@.subrange(lo as int, hi as int)),
{
    let mut k: usize = lo;
    while k < hi && v[k] == '-'
        invariant
            lo <= k <= hi,
            hi <= v.len(),
            forall|j: int| lo <= j < k ==> v@[j] == '-',
        decreases hi - k,
    {
        k += 1;
    }
    proof {
        let s = v@.subrange(lo as int, hi as int);
        lemma_prefix_count(s, dash_pred(), k - lo);
    }
    k
}

/// Position of the first `c` in `v[lo..hi]`.
pub fn find_in(v: &Vec<char>, lo: usize, hi: usize, c: char) -> (r: Option<usize>)
    requires
        lo <= hi <= v.len(),
    ensures
        match r {
            Some(k) => lo <= k < hi && find(v@.subrange(lo as int, hi as int), c) == Some(
                (k - lo) as nat,
            ),
            None => find(v@.subrange(lo as int, hi as int), c) is None,
        },
{
    let mut k: usize = lo;
    while k < hi && v[k] != c
        invariant
            lo <= k <= hi,
            hi <= v.len(),
            forall|j: int| lo <= j < k ==> v@[j] != c,
        decreases hi - k,
    {
        k += 1;
    }
    proof {
        let s = v@.subrange(lo as int, hi as int);
        lemma_prefix_count(s, other_than(c), k - lo);
    }
    if k < hi {
        Some(k)
    } else {
        None
    }
}

/// Whether `v[lo..hi]` starts with the characters of `p`.
pub fn starts_with_at(v: &Vec<char>, lo: usize, hi: usize, p: &Vec<char>) -> (b: bool)
    requires
        lo <= hi <= v.len(),
    ensures
        b == has_prefix(v@.subrange(lo as int, hi as int), p@),
{
    let n: usize = p.len();
    if hi - lo < n {
        return false;
    }
    let mut i: usize = 0;
    while i < n
        invariant
            i <= n,
            n == p.len(),
            lo + n <= hi <= v.len(),
            forall|j: int| 0 <= j < i ==> v@[lo + j] == p@[j],
        decreases n - i,
    {
        if v[lo + i] != p[i] {
            proof {
                assert(v@.subrange(lo as int, hi as int).take(n as int)[i as int] != p@[i as int]);
            }
            return false;
        }
        i += 1;
    }
    proof {
        assert(v@.subrange(lo as int, hi as int).take(n as int) =~= p@);
    }
    true
}

/// Whether `p` occurs in `v` at position `i`.
pub fn matches_at(v: &Vec<char>, i: usize, hi: usize, p: &Vec<char>) -> (b: bool)
    requires
        i <= hi <= v.len(),
    ensures
        b == has_prefix(v@.subrange(i as int, hi as int), p@),
{
    starts_with_at(v, i, hi, p)
}

/// Position of the first occurrence of `p` in `v[lo..hi]`.
pub fn find_seq_in(v: &Vec<char>, lo: usize, hi: usize, p: &Vec<char>) -> (r: Option<usize>)
    requires
        lo <= hi <= v.len(),
    ensures
        match r {
            Some(k) => lo <= k && k + p.len() <= hi && find_seq(
                v@.subrange(lo as int, hi as int),
                p@,
            ) == Some((k - lo) as nat),
            None => find_seq(v@.subrange(lo as int, hi as int), p@) is None,
        },
{
    let mut k: usize = lo;
    loop
        invariant
            lo <= k <= hi <= v.len(),
            find_seq(v@.subrange(lo as int, hi as int), p@) == match find_seq(
                v@.subrange(k as int, hi as int),
                p@,
            ) {
                Some(i) => Some((i + (k - lo)) as nat),
                None => None,
            },
        decreases hi - k,
    {
        let ghost cur = v@.subrange(k as int, hi as int);
        if hi - k < p.len() {
            return None;
        }
        if starts_with_at(v, k, hi, p) {
            return Some(k);
        }
        if k == hi {
            return None;
        }
        proof {
            assert(cur.drop_first() =~= v@.subrange(k + 1, hi as int));
        }
        k += 1;
    }
}

/// Whether every character of `v[lo..hi]` is blank.
pub fn all_ws(v: &Vec<char>, lo: usize, hi: usize) -> (b: bool)
    requires
        lo <= hi <= v.len(),
    ensures
        b == (trim(v@.subrange(lo as int, hi as int)).len() == 0),
{
    let k: usize = skip_ws(v, lo, hi);
    proof {
        lemma_trim(v@.subrange(lo as int, hi as int));
        lemma_prefix_count_props(v@.subrange(lo as int, hi as int), ws_pred());
    }
    k == hi
}

// ── Building strings ────────────────────────────────────────────────────────

/// Appends one character to a string.
///
/// Trusted: calls `String::push`, whose documentation says it appends the
/// given `char` to the end of the string; the contract states exactly that.
#[verifier::external_body]
pub(crate) fn push_char(s: &mut String, c: char)
    ensures
        final(s)@ == old(s)@.push(c),
{
    s.push(c);
}

/// Appends `v[lo..hi]` to `out`.
pub fn push_range(out: &mut String, v: &Vec<char>, lo: usize, hi: usize)
    requires
        lo <= hi <= v.len(),
    ensures
        final(out)@ == old(out)@ + v@.subrange(lo as int, hi as int),
{
    let mut i: usize = lo;
    while i < hi
        invariant
            lo <= i <= hi,
            hi <= v.len(),
            out@ == old(out)@ + v@.subrange(lo as int, i as int),
        decreases hi - i,
    {
        push_char(out, v[i]);
        i += 1;
        proof {
            assert(v@.subrange(lo as int, i as int) =~= v@.subrange(lo as int, i - 1).push(
                v@[i - 1],
            ));
        }
    }
}

/// A new string holding `v[lo..hi]`.
pub fn range_string(v: &Vec<char>, lo: usize, hi: usize) -> (s: String)
    requires
        lo <= hi <= v.len(),
    ensures
        s@ == v@.subrange(lo as int, hi as int),
{
    let mut s = String::new();
    push_range(&mut s, v, lo, hi);
    proof {
        assert(s@ =~= v@.subrange(lo as int, hi as int));
    }
    s
}

/// `v` with every occurrence of `p` replaced by `r`.
pub fn replace_chars(v: &Vec<char>, p: &Vec<char>, r: &Vec<char>) -> (out: Vec<char>)
    requires
        p.len() > 0,
    ensures
        out@ == replace_all(v@, p@, r@),
{
    let n: usize = v.len();
    let mut out: Vec<char> = Vec::new();
    let mut k: usize = 0;
    proof {
        assert(v@.subrange(0, n as int) =~= v@);
    }
    while k < n
        invariant
            k <= n,
            n == v.len(),
            p.len() > 0,
            replace_all(v@, p@, r@) == out@ + replace_all(v@.subrange(k as int, n as int), p@, r@),
        decreases n - k,
    {
        let ghost cur = v@.subrange(k as int, n as int);
        let ghost before = out@;
        if matches_at(v, k, n, p) {
            let mut j: usize = 0;
            while j < r.len()
                invariant
                    j <= r.len(),
                    out@ == before + r@.take(j as int),
                decreases r.len() - j,
            {
                out.push(r[j]);
                j += 1;
                proof {
                    assert(out@ =~= before + r@.take(j as int));
                }
            }
            proof {
                assert(r@.take(r.len() as int) =~= r@);
                assert(cur.skip(p.len() as int) =~= v@.subrange(k + p.len(), n as int));
                assert(replace_all(cur, p@, r@) == r@ + replace_all(cur.skip(p.len() as int), p@, r@));
                assert(out@ + replace_all(v@.subrange(k + p.len(), n as int), p@, r@) =~= before
                    + replace_all(cur, p@, r@));
            }
            k = k + p.len();
        } else {
            out.push(v[k]);
            proof {
                assert(cur.drop_first() =~= v@.subrange(k + 1, n as int));
                assert(replace_all(cur, p@, r@) == seq![cur[0]] + replace_all(cur.drop_first(), p@, r@));
                assert(out@ + replace_all(v@.subrange(k + 1, n as int), p@, r@) =~= before
                    + replace_all(cur, p@, r@));
            }
            k = k + 1;
        }
    }
    proof {
        assert(out@ + replace_all(v@.subrange(n as int, n as int), p@, r@) =~= out@);
    }
    out
}

/// A new string holding the characters of `v`.
pub fn chars_string(v: &Vec<char>) -> (s: String)
    ensures
        s@ == v@,
{
    let s = range_string(v, 0, v.len());
    proof {
        assert(v@.subrange(0, v.len() as int) =~= v@);
    }
    s
}

/// The characters of `s`, in order.
pub fn str_chars(s: &str) -> (v: Vec<char>)
    ensures
        v@ == s@,
{
    let mut v: Vec<char> = Vec::new();
    for c in it: s.chars()
        invariant
            v@ == it.seq().take(it.index() as int),
            it.seq() == s@,
    {
        v.push(c);
    }
    v
}

} // verus!
