//! Properties of the DSL that hold for every input.
use vstd::prelude::*;
use crate::text::{
    find, is_ident_char, is_ws, lemma_find_at, lemma_find_concat, lemma_split_at, lemma_split_none,
    lemma_trim, split, trim,
};
use super::grammar::{
    arrow_line, labeled, single_arrow, starts_arrow, bracket_group, classify, header_group, mindmap_keyword, run, spec_parse, step,
    timeline_keyword, initial_state, ParseState,
};

verus! {

/// Splitting at a separator that joins two texts splits each text on its own.
pub proof fn lemma_split_concat(x: Seq<char>, c: char, y: Seq<char>)
    ensures
        split(x + seq![c] + y, c) == split(x, c) + split(y, c),
    decreases x.len(),
{
    let s = x + seq![c] + y;
    match find(x, c) {
        Some(i) => {
            crate::text::lemma_find(x, c);
            assert forall|j: int| 0 <= j < i implies s[j] != c by {
                assert(s[j] == x[j]);
            }
            assert(s[i as int] == x[i as int]);
            lemma_split_at(s, c, i as int);
            lemma_split_at(x, c, i as int);
            assert(s.take(i as int) =~= x.take(i as int));
            assert(s.skip((i + 1) as int) =~= x.skip((i + 1) as int) + seq![c] + y);
            lemma_split_concat(x.skip((i + 1) as int), c, y);
            assert(split(s, c) =~= split(x, c) + split(y, c));
        },
        None => {
            crate::text::lemma_find(x, c);
            lemma_find_concat(x, c, y);
            lemma_split_at(s, c, x.len() as int);
            lemma_split_none(x, c);
            assert(s.take(x.len() as int) =~= x);
            assert(s.skip((x.len() + 1) as int) =~= y);
            assert(split(s, c) =~= split(x, c) + split(y, c));
        },
    }
}

/// Running two groups of lines is running the first, then the second.
pub proof fn lemma_run_concat(st: ParseState, a: Seq<Seq<char>>, b: Seq<Seq<char>>)
    ensures
        run(st, a + b) == match run(st, a) {
            Ok(next) => run(next, b),
            Err(t) => Err(t),
        },
    decreases a.len(),
{
    if a.len() == 0 {
        assert(a + b =~= b);
    } else {
        assert((a + b)[0] == a[0]);
        assert((a + b).drop_first() =~= a.drop_first() + b);
        match step(st, a[0]) {
            Ok(next) => lemma_run_concat(next, a.drop_first(), b),
            Err(_) => {},
        }
    }
}

/// Blank lines never change what a document means: inserting a line of
/// whitespace between two lines gives the same statements, or the same error.
pub proof fn lemma_blank_line_ignored(a: Seq<char>, w: Seq<char>, b: Seq<char>)
    requires
        forall|i: int| 0 <= i < w.len() ==> is_ws(#[trigger] w[i]) && w[i] != '\n',
    ensures
        spec_parse(a + seq!['\n'] + w + seq!['\n'] + b) == spec_parse(a + seq!['\n'] + b),
{
    let nl = seq!['\n'];
    let long = a + nl + w + nl + b;
    let short = a + nl + b;
    assert(long =~= a + nl + (w + nl + b));
    lemma_split_concat(a, '\n', w + nl + b);
    lemma_split_concat(w, '\n', b);
    lemma_split_none(w, '\n');
    lemma_split_concat(a, '\n', b);
    let la = split(a, '\n');
    let lb = split(b, '\n');
    assert(split(long, '\n') =~= la + (seq![w] + lb));
    assert(split(short, '\n') == la + lb);
    lemma_run_concat(initial_state(), la, seq![w] + lb);
    lemma_run_concat(initial_state(), la, lb);
    match run(initial_state(), la) {
        Ok(next) => {
            lemma_trim(w);
            assert(trim(w).len() == 0) by {
                if trim(w).len() > 0 {
                    let k = crate::text::lead_ws(w);
                    crate::text::lemma_prefix_count_props(w, crate::text::ws_pred());
                    assert(is_ws(w[k as int]));
                }
            }
            assert(step(next, w) == Ok::<ParseState, Seq<char>>(next));
            assert((seq![w] + lb)[0] == w);
            assert((seq![w] + lb).drop_first() =~= lb);
        },
        Err(_) => {},
    }
}


/// Leading blanks before a non-blank character are what `trim_start` drops.
pub proof fn lemma_trim_start_after_ws(w: Seq<char>, x: Seq<char>)
    requires
        forall|i: int| 0 <= i < w.len() ==> is_ws(#[trigger] w[i]),
        x.len() > 0,
        !is_ws(x[0]),
    ensures
        crate::text::trim_start(w + x) == x,
{
    let s = w + x;
    assert forall|j: int| 0 <= j < w.len() implies is_ws(s[j]) by {
        assert(s[j] == w[j]);
    }
    assert(s[w.len() as int] == x[0]);
    crate::text::lemma_prefix_count(s, crate::text::ws_pred(), w.len() as int);
    assert(s.skip(w.len() as int) =~= x);
}

/// A line that starts with neither `m` nor `t` is no block header.
pub proof fn lemma_no_keyword(t: Seq<char>)
    requires
        t.len() > 0,
        t[0] != 'm',
        t[0] != 't',
    ensures
        !crate::text::has_prefix(t, mindmap_keyword()),
        !crate::text::has_prefix(t, timeline_keyword()),
{
    if crate::text::has_prefix(t, mindmap_keyword()) {
        assert(t.take(8)[0] == mindmap_keyword()[0]);
    }
    if crate::text::has_prefix(t, timeline_keyword()) {
        assert(t.take(9)[0] == timeline_keyword()[0]);
    }
}

/// The block a parser state is in, if any, is its last statement.
pub open spec fn block_is_last(st: ParseState) -> bool {
    &&& st.mode is Mindmap ==> st.stmts.len() > 0 && st.stmts.last() is Mindmap
    &&& st.mode is Timeline ==> st.stmts.len() > 0 && st.stmts.last() is Timeline
}

/// `st` with the statements `p` in front of its own.
pub open spec fn after_stmts(p: Seq<super::grammar::SpecStatement>, st: ParseState) -> ParseState {
    ParseState { stmts: p + st.stmts, mode: st.mode }
}

proof fn lemma_step_after(p: Seq<super::grammar::SpecStatement>, st: ParseState, line: Seq<char>)
    requires
        block_is_last(st),
    ensures
        match step(st, line) {
            Ok(next) => step(after_stmts(p, st), line) == Ok::<ParseState, Seq<char>>(
                after_stmts(p, next),
            ) && block_is_last(next),
            Err(t) => step(after_stmts(p, st), line) == Err::<ParseState, Seq<char>>(t),
        },
{
    let t = trim(line);
    let ps = after_stmts(p, st);
    let n = st.stmts.len();
    if t.len() == 0 {
    } else if st.mode is Mindmap && t[0] == '-' {
        assert(ps.stmts.last() == st.stmts.last());
        if let Some(e) = super::grammar::mindmap_entry(t) {
            if let super::grammar::SpecStatement::Mindmap { root, entries } = st.stmts.last() {
                let x = super::grammar::SpecStatement::Mindmap { root, entries: entries.push(e) };
                assert(ps.stmts.update(ps.stmts.len() - 1, x) =~= p + st.stmts.update(n - 1, x));
                assert(st.stmts.update(n - 1, x).last() == x);
            }
        }
    } else if st.mode is Timeline && (t[0] == '-' || t[0] == '@') {
        assert(ps.stmts.last() == st.stmts.last());
        if let Some(e) = super::grammar::timeline_entry(t) {
            if let super::grammar::SpecStatement::Timeline { title, entries } = st.stmts.last() {
                let x = super::grammar::SpecStatement::Timeline { title, entries: entries.push(e) };
                assert(ps.stmts.update(ps.stmts.len() - 1, x) =~= p + st.stmts.update(n - 1, x));
                assert(st.stmts.update(n - 1, x).last() == x);
            }
        }
    } else {
        if let Some((ss, m)) = classify(t) {
            assert(ps.stmts + ss =~= p + (st.stmts + ss));
            assert(m is Mindmap ==> ss.len() == 1 && ss[0] is Mindmap);
            assert(m is Timeline ==> ss.len() == 1 && ss[0] is Timeline);
            assert(ss.len() > 0 ==> (st.stmts + ss).last() == ss.last());
        }
    }
}

proof fn lemma_run_after(p: Seq<super::grammar::SpecStatement>, st: ParseState, ls: Seq<Seq<char>>)
    requires
        block_is_last(st),
    ensures
        match run(st, ls) {
            Ok(next) => run(after_stmts(p, st), ls) == Ok::<ParseState, Seq<char>>(
                after_stmts(p, next),
            ),
            Err(t) => run(after_stmts(p, st), ls) == Err::<ParseState, Seq<char>>(t),
        },
    decreases ls.len(),
{
    if ls.len() > 0 {
        lemma_step_after(p, st, ls[0]);
        if let Ok(next) = step(st, ls[0]) {
            lemma_run_after(p, next, ls.drop_first());
        }
    }
}

/// Parsing from a fresh parser, the lines of `a` leave no block open.
pub open spec fn ends_outside_block(a: Seq<char>) -> bool {
    run(initial_state(), split(a, '\n')) matches Ok(st) && st.mode is Top
}

/// Documents concatenate: when `a` parses and leaves no mindmap or timeline
/// block open, `a`, a line break and `b` parse to the statements of `a`
/// followed by those of `b`, in order, or fail with `b`'s error. With `b`
/// blank, or made of blank lines, the statements are those of `a` alone.
pub proof fn lemma_parse_concat(a: Seq<char>, b: Seq<char>)
    requires
        ends_outside_block(a),
    ensures
        spec_parse(a) is Ok,
        spec_parse(a + seq!['\n'] + b) == match spec_parse(b) {
            Ok(y) => Ok::<Seq<super::grammar::SpecStatement>, Seq<char>>(spec_parse(a)->Ok_0 + y),
            Err(t) => Err(t),
        },
{
    lemma_split_concat(a, '\n', b);
    lemma_run_concat(initial_state(), split(a, '\n'), split(b, '\n'));
    let st = run(initial_state(), split(a, '\n'))->Ok_0;
    let x = st.stmts;
    assert(after_stmts(x, initial_state()) == st) by {
        assert(x + Seq::<super::grammar::SpecStatement>::empty() =~= x);
    }
    lemma_run_after(x, initial_state(), split(b, '\n'));
}

/// The documents `xs`, each followed by a line break, one after the other.
pub open spec fn joined_lines(xs: Seq<Seq<char>>) -> Seq<char>
    decreases xs.len(),
{
    if xs.len() == 0 {
        seq![]
    } else {
        xs[0] + seq!['\n'] + joined_lines(xs.drop_first())
    }
}

/// The statements of the documents `xs`, one document after the other.
pub open spec fn statements_of_each(xs: Seq<Seq<char>>) -> Seq<super::grammar::SpecStatement>
    decreases xs.len(),
{
    if xs.len() == 0 {
        seq![]
    } else {
        spec_parse(xs[0])->Ok_0 + statements_of_each(xs.drop_first())
    }
}

/// The empty document has no statements.
pub proof fn lemma_parse_empty()
    ensures
        spec_parse(Seq::<char>::empty()) == Ok::<Seq<super::grammar::SpecStatement>, Seq<char>>(
            seq![],
        ),
{
    lemma_blank_line_parses_empty(Seq::<char>::empty());
}

/// A blank line leaves no block open and has no statements.
pub proof fn lemma_blank_line_parses_empty(x: Seq<char>)
    requires
        forall|i: int| 0 <= i < x.len() ==> is_ws(#[trigger] x[i]) && x[i] != '\n',
    ensures
        ends_outside_block(x),
        spec_parse(x) == Ok::<Seq<super::grammar::SpecStatement>, Seq<char>>(seq![]),
{
    lemma_split_none(x, '\n');
    crate::text::lemma_trim_pad(x, Seq::<char>::empty(), Seq::<char>::empty());
    assert(x + Seq::<char>::empty() + Seq::<char>::empty() =~= x);
    crate::text::lemma_trim(Seq::<char>::empty());
    assert(trim(x).len() == 0);
    assert(step(initial_state(), x) == Ok::<ParseState, Seq<char>>(initial_state()));
    assert(seq![x][0] == x);
    assert(seq![x].drop_first() =~= Seq::<Seq<char>>::empty());
    assert(run(initial_state(), Seq::<Seq<char>>::empty()) == Ok::<ParseState, Seq<char>>(
        initial_state(),
    ));
    assert(run(initial_state(), seq![x]) == Ok::<ParseState, Seq<char>>(initial_state()));
}

/// A line that parses and is not a `mindmap:` or `timeline:` header leaves no
/// block open: every single-line graph statement (comment, connection or
/// chain, labeled connection, sequence, grouping or node) is such a line.
pub proof fn lemma_statement_line_ends_outside_block(x: Seq<char>)
    requires
        one_line(x),
        spec_parse(x) is Ok,
        !crate::text::has_prefix(trim(x), mindmap_keyword()),
        !crate::text::has_prefix(trim(x), timeline_keyword()),
    ensures
        ends_outside_block(x),
{
    lemma_split_none(x, '\n');
    assert(seq![x][0] == x);
    assert(seq![x].drop_first() =~= Seq::<Seq<char>>::empty());
    let t = trim(x);
    if let Ok(st) = step(initial_state(), x) {
        assert(run(st, Seq::<Seq<char>>::empty()) == Ok::<ParseState, Seq<char>>(st));
        assert(run(initial_state(), seq![x]) == Ok::<ParseState, Seq<char>>(st));
        if t.len() > 0 {
            let (ss, m) = classify(t)->Some_0;
            assert(m is Top);
            assert(st.mode is Top);
        }
    } else {
        assert(run(initial_state(), seq![x]) is Err);
    }
}

/// Statement order is kept and documents do not interfere: documents that
/// each parse and leave no block open, written one after the other with a
/// line break after each, parse to their statements in order. Blank lines are
/// such documents with no statements (`lemma_blank_line_parses_empty`), so
/// lines of statements with blank lines between them parse to the statements
/// of the lines, in order, and a document of blank lines to none.
pub proof fn lemma_parse_joined_lines(xs: Seq<Seq<char>>)
    requires
        forall|i: int| 0 <= i < xs.len() ==> ends_outside_block(#[trigger] xs[i]),
    ensures
        spec_parse(joined_lines(xs)) == Ok::<Seq<super::grammar::SpecStatement>, Seq<char>>(
            statements_of_each(xs),
        ),
    decreases xs.len(),
{
    if xs.len() == 0 {
        lemma_parse_empty();
    } else {
        let rest = xs.drop_first();
        assert forall|i: int| 0 <= i < rest.len() implies ends_outside_block(#[trigger] rest[i]) by {
            assert(rest[i] == xs[i + 1]);
        }
        lemma_parse_joined_lines(rest);
        assert(ends_outside_block(xs[0]));
        lemma_parse_concat(xs[0], joined_lines(rest));
    }
}

/// Blanks at the end of a node list change nothing.
proof fn lemma_node_list_pad(l: Seq<char>, q: Seq<char>)
    requires
        forall|i: int| 0 <= i < q.len() ==> #[trigger] q[i] == ' ' || q[i] == '\t',
    ensures
        super::grammar::node_list(l + q) == super::grammar::node_list(l),
{
    crate::text::lemma_split_append(l, q, ',');
    let a = split(l, ',');
    let b = split(l + q, ',');
    let k = a.len() - 1;
    crate::text::lemma_ident_pad(Seq::<char>::empty(), a[k], q);
    assert(Seq::<char>::empty() + a[k] + q =~= a[k] + q);
    assert(b.len() == a.len());
    assert forall|i: int| 0 <= i < b.len() implies crate::text::is_ident(#[trigger] b[i])
        == crate::text::is_ident(a[i]) by {}
    if forall|i: int| 0 <= i < a.len() ==> crate::text::is_ident(#[trigger] a[i]) {
        assert forall|i: int| 0 <= i < b.len() implies crate::text::is_ident(#[trigger] b[i]) by {
            assert(crate::text::is_ident(a[i]));
        }
    } else {
        let j = choose|j: int| 0 <= j < a.len() && !crate::text::is_ident(#[trigger] a[j]);
        assert(!crate::text::is_ident(b[j]));
    }
    assert(super::grammar::trim_each(b) =~= super::grammar::trim_each(a));
}

/// What `[Name] { list }` (after its `[`) stands for.
proof fn lemma_bracket_group(n: Seq<char>, w: Seq<char>, l: Seq<char>)
    requires
        forall|i: int| 0 <= i < n.len() ==> is_ident_char(#[trigger] n[i]),
        forall|i: int| 0 <= i < w.len() ==> is_ws(#[trigger] w[i]),
        forall|i: int| 0 <= i < l.len() ==> is_ident_char(#[trigger] l[i]) || l[i] == ',',
    ensures
        bracket_group(n + seq![']'] + w + seq!['{'] + l + seq!['}']) == match super::grammar::node_list(l) {
            Some(ns) => if crate::text::is_ident(n) {
                Some(super::grammar::SpecStatement::Grouping { name: trim(n), nodes: ns })
            } else {
                None
            },
            None => None,
        },
{
    let r1 = n + seq![']'] + w + seq!['{'] + l + seq!['}'];
    let tail1 = w + seq!['{'] + l + seq!['}'];
    assert(r1 =~= n + seq![']'] + tail1);
    assert forall|j: int| 0 <= j < n.len() implies n[j] != ']' by {
        assert(is_ident_char(n[j]));
    }
    lemma_find_concat(n, ']', tail1);
    assert(r1.take(n.len() as int) =~= n);
    assert(r1.skip((n.len() + 1) as int) =~= w + (seq!['{'] + l + seq!['}']));
    lemma_trim_start_after_ws(w, seq!['{'] + l + seq!['}']);
    let inner = (seq!['{'] + l + seq!['}']).drop_first();
    assert(inner =~= l + seq!['}'] + Seq::<char>::empty());
    assert forall|j: int| 0 <= j < l.len() implies l[j] != '}' by {
        assert(is_ident_char(l[j]) || l[j] == ',');
    }
    lemma_find_concat(l, '}', Seq::<char>::empty());
    assert(inner.take(l.len() as int) =~= l);
}

/// What `@ Name: list` (after its `@`) stands for.
proof fn lemma_header_group(n: Seq<char>, l: Seq<char>)
    requires
        forall|i: int| 0 <= i < n.len() ==> is_ident_char(#[trigger] n[i]),
    ensures
        header_group(n + seq![':'] + l) == match super::grammar::node_list(l) {
            Some(ns) => if crate::text::is_ident(n) {
                Some(super::grammar::SpecStatement::Grouping { name: trim(n), nodes: ns })
            } else {
                None
            },
            None => None,
        },
{
    let r2 = n + seq![':'] + l;
    assert forall|j: int| 0 <= j < n.len() implies n[j] != ':' by {
        assert(is_ident_char(n[j]));
    }
    lemma_find_concat(n, ':', l);
    assert(r2.take(n.len() as int) =~= n);
    assert(r2.skip((n.len() + 1) as int) =~= l);
}

/// The two grouping syntaxes as they are written, with blanks: `[Name] { A, B }`
/// and `@ Name: A, B` give the same statement in any parser state outside a
/// timeline block; one is rejected exactly when the other is. Blanks `a`
/// after the `@` and `q` before the `}` (spaces or tabs) change nothing.
pub proof fn lemma_padded_group_forms_agree(
    st: ParseState,
    n: Seq<char>,
    a: Seq<char>,
    w: Seq<char>,
    l: Seq<char>,
    q: Seq<char>,
)
    requires
        !(st.mode is Timeline),
        forall|i: int| 0 <= i < n.len() ==> is_ident_char(#[trigger] n[i]),
        forall|i: int| 0 <= i < a.len() ==> #[trigger] a[i] == ' ' || a[i] == '\t',
        forall|i: int| 0 <= i < w.len() ==> is_ws(#[trigger] w[i]),
        l.len() > 0,
        !is_ws(l.last()),
        forall|i: int| 0 <= i < l.len() ==> is_ident_char(#[trigger] l[i]) || l[i] == ',',
        forall|i: int| 0 <= i < q.len() ==> #[trigger] q[i] == ' ' || q[i] == '\t',
    ensures
        classify(seq!['['] + n + seq![']'] + w + seq!['{'] + l + q + seq!['}']) == classify(
            seq!['@'] + a + n + seq![':'] + l,
        ),
        match step(st, seq!['['] + n + seq![']'] + w + seq!['{'] + l + q + seq!['}']) {
            Ok(next) => step(st, seq!['@'] + a + n + seq![':'] + l) == Ok::<ParseState, Seq<char>>(
                next,
            ),
            Err(_) => step(st, seq!['@'] + a + n + seq![':'] + l) is Err,
        },
{
    let lq = l + q;
    let an = a + n;
    let t1 = seq!['['] + n + seq![']'] + w + seq!['{'] + lq + seq!['}'];
    let t2 = seq!['@'] + an + seq![':'] + l;
    assert(seq!['['] + n + seq![']'] + w + seq!['{'] + l + q + seq!['}'] =~= t1);
    assert(seq!['@'] + a + n + seq![':'] + l =~= t2);
    assert forall|i: int| 0 <= i < lq.len() implies is_ident_char(#[trigger] lq[i]) || lq[i] == ',' by {
        if i < l.len() {
            assert(lq[i] == l[i]);
        } else {
            assert(lq[i] == q[i - l.len()]);
        }
    }
    assert forall|i: int| 0 <= i < an.len() implies is_ident_char(#[trigger] an[i]) by {
        if i < a.len() {
            assert(an[i] == a[i]);
        } else {
            assert(an[i] == n[i - a.len()]);
        }
    }
    lemma_bracket_group(n, w, lq);
    lemma_header_group(an, l);
    lemma_node_list_pad(l, q);
    crate::text::lemma_ident_pad(a, n, Seq::<char>::empty());
    assert(a + n + Seq::<char>::empty() =~= an);
    assert(t1.drop_first() =~= n + seq![']'] + w + seq!['{'] + lq + seq!['}']);
    assert(t2.drop_first() =~= an + seq![':'] + l);
    crate::text::lemma_trim_id(t1);
    assert(t2.last() == l.last());
    crate::text::lemma_trim_id(t2);
    lemma_no_keyword(t1);
    lemma_no_keyword(t2);
    assert(t1[0] == '[' && t2[0] == '@');
    assert(classify(t1) == classify(t2));
}

/// The two grouping syntaxes, as whole one-line documents, parse alike.
pub proof fn lemma_group_forms_agree_document(
    n: Seq<char>,
    a: Seq<char>,
    w: Seq<char>,
    l: Seq<char>,
    q: Seq<char>,
)
    requires
        forall|i: int| 0 <= i < n.len() ==> is_ident_char(#[trigger] n[i]),
        forall|i: int| 0 <= i < a.len() ==> #[trigger] a[i] == ' ' || a[i] == '\t',
        forall|i: int| 0 <= i < w.len() ==> is_ws(#[trigger] w[i]) && w[i] != '\n',
        l.len() > 0,
        !is_ws(l.last()),
        forall|i: int| 0 <= i < l.len() ==> is_ident_char(#[trigger] l[i]) || l[i] == ',',
        forall|i: int| 0 <= i < q.len() ==> #[trigger] q[i] == ' ' || q[i] == '\t',
    ensures
        match spec_parse(seq!['['] + n + seq![']'] + w + seq!['{'] + l + q + seq!['}'] + seq!['\n']) {
            Ok(v) => spec_parse(seq!['@'] + a + n + seq![':'] + l + seq!['\n']) == Ok::<
                Seq<super::grammar::SpecStatement>,
                Seq<char>,
            >(v),
            Err(_) => spec_parse(seq!['@'] + a + n + seq![':'] + l + seq!['\n']) is Err,
        },
{
    let t1 = seq!['['] + n + seq![']'] + w + seq!['{'] + l + q + seq!['}'];
    let t2 = seq!['@'] + a + n + seq![':'] + l;
    assert forall|i: int| 0 <= i < w.len() implies is_ws(#[trigger] w[i]) by {}
    lemma_padded_group_forms_agree(initial_state(), n, a, w, l, q);
    assert forall|i: int| 0 <= i < t1.len() implies t1[i] != '\n' by {
        let k1 = 1 + n.len();
        let k2 = k1 + 1 + w.len();
        let k3 = k2 + 1 + l.len();
        if 1 <= i < k1 {
            assert(t1[i] == n[i - 1]);
            assert(is_ident_char(n[i - 1]));
        } else if k1 + 1 <= i < k2 {
            assert(t1[i] == w[i - k1 - 1]);
        } else if k2 + 1 <= i < k3 {
            assert(t1[i] == l[i - k2 - 1]);
            assert(is_ident_char(l[i - k2 - 1]) || l[i - k2 - 1] == ',');
        } else if k3 <= i < k3 + q.len() {
            assert(t1[i] == q[i - k3]);
        }
    }
    assert forall|i: int| 0 <= i < t2.len() implies t2[i] != '\n' by {
        let k1 = 1 + a.len();
        let k2 = k1 + n.len();
        if 1 <= i < k1 {
            assert(t2[i] == a[i - 1]);
        } else if k1 <= i < k2 {
            assert(t2[i] == n[i - k1]);
            assert(is_ident_char(n[i - k1]));
        } else if k2 + 1 <= i {
            assert(t2[i] == l[i - k2 - 1]);
            assert(is_ident_char(l[i - k2 - 1]) || l[i - k2 - 1] == ',');
        }
    }
    lemma_parse_line(t1);
    lemma_parse_line(t2);
}

/// The pieces `ps` with `c` between each two.
pub open spec fn separated(ps: Seq<Seq<char>>, c: char) -> Seq<char>
    decreases ps.len(),
{
    if ps.len() == 0 {
        seq![]
    } else if ps.len() == 1 {
        ps[0]
    } else {
        ps[0] + seq![c] + separated(ps.drop_first(), c)
    }
}

/// Each name with a blank in front: `separated(blank_led(ns), ',')` is the
/// list `A, B, C` written with a blank after each comma (and before the first).
pub open spec fn blank_led(ns: Seq<Seq<char>>) -> Seq<Seq<char>> {
    ns.map_values(|x: Seq<char>| seq![' '] + x)
}

proof fn lemma_split_separated(ps: Seq<Seq<char>>, c: char)
    requires
        ps.len() >= 1,
        forall|i: int, j: int| 0 <= i < ps.len() && 0 <= j < ps[i].len() ==> #[trigger] ps[i][j] != c,
    ensures
        split(separated(ps, c), c) == ps,
    decreases ps.len(),
{
    let x = ps[0];
    assert forall|j: int| 0 <= j < x.len() implies x[j] != c by {
        assert(ps[0][j] != c);
    }
    lemma_split_none(x, c);
    if ps.len() == 1 {
        assert(seq![x] =~= ps);
    } else {
        let rest = ps.drop_first();
        assert forall|i: int, j: int| 0 <= i < rest.len() && 0 <= j < rest[i].len() implies #[trigger] rest[i][j]
            != c by {
            assert(rest[i] == ps[i + 1]);
        }
        lemma_split_separated(rest, c);
        lemma_split_concat(x, c, separated(rest, c));
        assert(seq![x] + rest =~= ps);
    }
}

proof fn lemma_separated_chars(ps: Seq<Seq<char>>, c: char)
    requires
        ps.len() >= 1,
        ps.last().len() > 0,
        forall|i: int, j: int|
            0 <= i < ps.len() && 0 <= j < ps[i].len() ==> is_ident_char(#[trigger] ps[i][j]),
    ensures
        separated(ps, c).len() > 0,
        separated(ps, c).last() == ps.last().last(),
        forall|k: int|
            0 <= k < separated(ps, c).len() ==> is_ident_char(#[trigger] separated(ps, c)[k])
                || separated(ps, c)[k] == c,
    decreases ps.len(),
{
    let x = ps[0];
    let sep = separated(ps, c);
    if ps.len() == 1 {
        assert forall|k: int| 0 <= k < sep.len() implies is_ident_char(#[trigger] sep[k]) || sep[k] == c by {
            assert(is_ident_char(ps[0][k]));
        }
    } else {
        let rest = ps.drop_first();
        assert forall|i: int, j: int|
            0 <= i < rest.len() && 0 <= j < rest[i].len() implies is_ident_char(#[trigger] rest[i][j]) by {
            assert(rest[i] == ps[i + 1]);
        }
        assert(rest.last() == ps.last());
        lemma_separated_chars(rest, c);
        let r = separated(rest, c);
        assert(sep == x + seq![c] + r);
        assert forall|k: int| 0 <= k < sep.len() implies is_ident_char(#[trigger] sep[k]) || sep[k] == c by {
            if k < x.len() {
                assert(sep[k] == ps[0][k]);
                assert(is_ident_char(ps[0][k]));
            } else if k > x.len() {
                assert(sep[k] == r[k - x.len() - 1]);
            }
        }
    }
}

/// The list `A, B` written with blanks, as a node list, is its names.
proof fn lemma_blank_led_list(ns: Seq<Seq<char>>)
    requires
        ns.len() >= 1,
        forall|i: int|
            0 <= i < ns.len() ==> (#[trigger] ns[i]).len() > 0 && !is_ws(ns[i][0]) && !is_ws(
                ns[i].last(),
            ),
        forall|i: int, j: int|
            0 <= i < ns.len() && 0 <= j < ns[i].len() ==> is_ident_char(#[trigger] ns[i][j]),
    ensures
        separated(blank_led(ns), ',').len() > 0,
        !is_ws(separated(blank_led(ns), ',').last()),
        forall|k: int|
            0 <= k < (separated(blank_led(ns), ',') + seq![' ']).len() ==> is_ident_char(
                #[trigger] (separated(blank_led(ns), ',') + seq![' '])[k],
            ) || (separated(blank_led(ns), ',') + seq![' '])[k] == ',',
        forall|k: int|
            0 <= k < separated(blank_led(ns), ',').len() ==> is_ident_char(
                #[trigger] separated(blank_led(ns), ',')[k],
            ) || separated(blank_led(ns), ',')[k] == ',',
        super::grammar::node_list(separated(blank_led(ns), ',') + seq![' ']) == Some(ns),
{
    let ps = blank_led(ns);
    let l = separated(ps, ',');
    let sp = seq![' '];
    let e = Seq::<char>::empty();
    let lq = l + sp;
    // the pieces between the commas
    assert forall|i: int, j: int|
        0 <= i < ps.len() && 0 <= j < ps[i].len() implies is_ident_char(#[trigger] ps[i][j]) by {
        assert(ps[i] == sp + ns[i]);
        if j > 0 {
            assert(ps[i][j] == ns[i][j - 1]);
        }
    }
    assert forall|i: int, j: int| 0 <= i < ps.len() && 0 <= j < ps[i].len() implies #[trigger] ps[i][j]
        != ',' by {
        assert(is_ident_char(ps[i][j]));
    }
    assert(ps.last() == sp + ns.last());
    lemma_separated_chars(ps, ',');
    assert(l.last() == ns.last().last());
    lemma_split_separated(ps, ',');
    assert forall|i: int| 0 <= i < ps.len() implies crate::text::is_ident(#[trigger] ps[i])
        && trim(ps[i]) == ns[i] by {
        let x = ns[i];
        crate::text::lemma_ident_pad(sp, x, e);
        assert(sp + x + e =~= ps[i]);
        crate::text::lemma_trim_id(x);
        crate::text::lemma_ident_len_full(x);
        assert forall|j: int| 0 <= j < x.len() implies is_ident_char(#[trigger] x[j]) by {
            assert(is_ident_char(ns[i][j]));
        }
    }
    assert(super::grammar::trim_each(ps) =~= ns);
    assert(super::grammar::node_list(l) == Some(ns));
    lemma_node_list_pad(l, sp);
    assert forall|i: int| 0 <= i < lq.len() implies is_ident_char(#[trigger] lq[i]) || lq[i] == ',' by {
        if i < l.len() {
            assert(lq[i] == l[i]);
        }
    }
}

/// The grouping forms as the documentation writes them, `[Name] { A, B }` and
/// `@ Name: A, B`, each as a whole document, both stand for the group `Name`
/// with the members `A, B`, in order. A name may hold inner blanks
/// (`Phase 1`); the members are names without surrounding blanks.
#[verifier::spinoff_prover]
#[verifier::rlimit(80)]
pub proof fn lemma_group_document_value(name: Seq<char>, ns: Seq<Seq<char>>)
    requires
        name.len() > 0,
        !is_ws(name[0]),
        !is_ws(name.last()),
        forall|i: int| 0 <= i < name.len() ==> is_ident_char(#[trigger] name[i]),
        ns.len() >= 1,
        forall|i: int|
            0 <= i < ns.len() ==> (#[trigger] ns[i]).len() > 0 && !is_ws(ns[i][0]) && !is_ws(
                ns[i].last(),
            ),
        forall|i: int, j: int|
            0 <= i < ns.len() && 0 <= j < ns[i].len() ==> is_ident_char(#[trigger] ns[i][j]),
    ensures
        spec_parse(
            seq!['['] + name + seq![']', ' ', '{'] + separated(blank_led(ns), ',') + seq![' ', '}', '\n'],
        ) == Ok::<Seq<super::grammar::SpecStatement>, Seq<char>>(
            seq![super::grammar::SpecStatement::Grouping { name, nodes: ns }],
        ),
        spec_parse(seq!['@', ' '] + name + seq![':'] + separated(blank_led(ns), ',') + seq!['\n'])
            == Ok::<Seq<super::grammar::SpecStatement>, Seq<char>>(
            seq![super::grammar::SpecStatement::Grouping { name, nodes: ns }],
        ),
{
    let l = separated(blank_led(ns), ',');
    let sp = seq![' '];
    let lq = l + sp;
    let g = super::grammar::SpecStatement::Grouping { name, nodes: ns };
    lemma_blank_led_list(ns);
    // the name
    crate::text::lemma_trim_id(name);
    crate::text::lemma_ident_len_full(name);
    // the bracket form
    lemma_bracket_group(name, sp, lq);
    let t1 = seq!['['] + name + seq![']'] + sp + seq!['{'] + lq + seq!['}'];
    assert(t1.drop_first() =~= name + seq![']'] + sp + seq!['{'] + lq + seq!['}']);
    lemma_no_keyword(t1);
    crate::text::lemma_trim_id(t1);
    assert(classify(t1) == Some((seq![g], super::grammar::Mode::Top)));
    assert(Seq::<super::grammar::SpecStatement>::empty() + seq![g] =~= seq![g]);
    assert(step(initial_state(), t1) == Ok::<ParseState, Seq<char>>(
        ParseState { stmts: seq![g], mode: super::grammar::Mode::Top },
    ));
    assert forall|i: int| 0 <= i < t1.len() implies t1[i] != '\n' by {
        let k1 = 1 + name.len();
        let k2 = k1 + 3;
        if 1 <= i < k1 {
            assert(t1[i] == name[i - 1]);
            assert(is_ident_char(name[i - 1]));
        } else if k2 <= i < k2 + lq.len() {
            assert(t1[i] == lq[i - k2]);
            assert(is_ident_char(lq[i - k2]) || lq[i - k2] == ',');
        }
    }
    lemma_parse_line(t1);
    assert(seq!['['] + name + seq![']', ' ', '{'] + l + seq![' ', '}', '\n'] =~= t1 + seq!['\n']);
    // the `@` form agrees
    lemma_group_forms_agree_document(name, sp, sp, l, sp);
    assert(seq!['['] + name + seq![']'] + sp + seq!['{'] + l + sp + seq!['}'] + seq!['\n'] =~= t1
        + seq!['\n']);
    assert(seq!['@'] + sp + name + seq![':'] + l + seq!['\n'] =~= seq!['@', ' '] + name + seq![':']
        + l + seq!['\n']);
}

/// `k` dashes.
pub open spec fn dashes(k: nat) -> Seq<char> {
    Seq::new(k, |i: int| '-')
}

/// A mindmap entry's depth is its number of dashes, for every number: the
/// entry line `k` dashes, a blank and a label stands for an entry of depth
/// exactly `k` with the trimmed label, as long as the label is not blank.
pub proof fn lemma_mindmap_entry_depth(k: nat, label: Seq<char>)
    requires
        k >= 1,
        trim(label).len() > 0,
    ensures
        super::grammar::mindmap_entry(dashes(k) + seq![' '] + label) == Some(
            super::grammar::SpecMindmapEntry { depth: k, label: trim(label) },
        ),
{
    let t = dashes(k) + seq![' '] + label;
    assert forall|j: int| 0 <= j < k implies #[trigger] crate::text::dash_pred()(t[j]) by {
        assert(t[j] == '-');
    }
    assert(t[k as int] == ' ');
    crate::text::lemma_prefix_count(t, crate::text::dash_pred(), k as int);
    assert(t.skip(k as int) =~= seq![' '] + label + Seq::<char>::empty());
    crate::text::lemma_trim_pad(seq![' '], label, Seq::<char>::empty());
}

/// Inside a mindmap block, an entry line of `k` dashes adds an entry of depth
/// exactly `k` to the block: one level below an entry of depth `k - 1`.
pub proof fn lemma_mindmap_entry_line_depth(st: ParseState, k: nat, label: Seq<char>)
    requires
        st.mode is Mindmap,
        st.stmts.len() > 0,
        st.stmts.last() is Mindmap,
        k >= 1,
        label.len() > 0,
        !is_ws(label.last()),
    ensures
        step(st, dashes(k) + seq![' '] + label) == Ok::<ParseState, Seq<char>>(
            ParseState {
                stmts: st.stmts.update(
                    st.stmts.len() - 1,
                    super::grammar::SpecStatement::Mindmap {
                        root: st.stmts.last()->Mindmap_root,
                        entries: st.stmts.last()->Mindmap_entries.push(
                            super::grammar::SpecMindmapEntry { depth: k, label: trim(label) },
                        ),
                    },
                ),
                mode: st.mode,
            },
        ),
{
    let t = dashes(k) + seq![' '] + label;
    assert(t[0] == '-');
    assert(t.last() == label.last());
    crate::text::lemma_trim_id(t);
    crate::text::lemma_trim(label);
    lemma_mindmap_entry_depth(k, label);
}

/// A line that starts with a name followed by `-` is no block header.
pub proof fn lemma_no_keyword_after_name(t: Seq<char>, k: int)
    requires
        0 <= k < t.len(),
        forall|i: int| 0 <= i < k ==> is_ident_char(#[trigger] t[i]),
        t[k] == '-',
    ensures
        !crate::text::has_prefix(t, mindmap_keyword()),
        !crate::text::has_prefix(t, timeline_keyword()),
{
    let mk = mindmap_keyword();
    let tk = timeline_keyword();
    assert forall|i: int| 0 <= i < mk.len() implies mk[i] != '-' by {}
    assert forall|i: int| 0 <= i < tk.len() implies tk[i] != '-' by {}
    if crate::text::has_prefix(t, mk) {
        if k < 8 {
            assert(t.take(8)[k] == mk[k]);
        } else {
            assert(t.take(8)[7] == mk[7]);
            assert(is_ident_char(t[7]));
        }
    }
    if crate::text::has_prefix(t, tk) {
        if k < 9 {
            assert(t.take(9)[k] == tk[k]);
        } else {
            assert(t.take(9)[8] == tk[8]);
            assert(is_ident_char(t[8]));
        }
    }
}

/// What a labeled connection from `from` with label text `lab` to target
/// text `to` stands for, whichever syntax wrote it.
pub open spec fn labeled_meaning(from: Seq<char>, lab: Seq<char>, to: Seq<char>) -> Option<
    super::grammar::SpecStatement,
> {
    if trim(lab).len() == 0 || !crate::text::is_ident(to) {
        None
    } else {
        Some(super::grammar::SpecStatement::LabeledConnection { from, to: trim(to), label: trim(lab) })
    }
}

/// `labeled` on `lab`, the closing character, the arrow and the target.
pub proof fn lemma_labeled_unfold(
    from: Seq<char>,
    lab: Seq<char>,
    close: char,
    arrow: Seq<char>,
    to: Seq<char>,
)
    requires
        forall|i: int| 0 <= i < lab.len() ==> #[trigger] lab[i] != close,
    ensures
        labeled(from, lab + seq![close] + (arrow + to), close, arrow) == labeled_meaning(
            from,
            lab,
            to,
        ),
{
    let r = lab + seq![close] + (arrow + to);
    lemma_find_concat(lab, close, arrow + to);
    assert(r.take(lab.len() as int) =~= lab);
    assert(r.skip((lab.len() + 1) as int) =~= arrow + to);
    assert((arrow + to).take(arrow.len() as int) =~= arrow);
    assert((arrow + to).skip(arrow.len() as int) =~= to);
}

/// A trimmed line made of a name `f` and then text `x` starting with `-`:
/// the name is its first name, and it is no comment, group or block header.
pub proof fn lemma_name_then_dash(f: Seq<char>, x: Seq<char>)
    requires
        f.len() > 0,
        !is_ws(f[0]),
        forall|i: int| 0 <= i < f.len() ==> is_ident_char(#[trigger] f[i]),
        x.len() > 0,
        x[0] == '-',
        !is_ws(x.last()),
    ensures
        trim(f + x) == f + x,
        (f + x)[0] != '#' && (f + x)[0] != '[' && (f + x)[0] != '@' && (f + x)[0] != '-',
        !crate::text::has_prefix(f + x, mindmap_keyword()),
        !crate::text::has_prefix(f + x, timeline_keyword()),
        crate::text::ident_len(f + x) == f.len(),
        (f + x).take(f.len() as int) == f,
        (f + x).skip(f.len() as int) == x,
{
    let t = f + x;
    let k = f.len() as int;
    assert(t[0] == f[0]);
    assert(t.last() == x.last());
    crate::text::lemma_trim_id(t);
    assert(is_ident_char(f[0]));
    assert forall|i: int| 0 <= i < k implies is_ident_char(#[trigger] t[i]) by {
        assert(t[i] == f[i]);
    }
    assert(t[k] == x[0]);
    lemma_no_keyword_after_name(t, k);
    crate::text::lemma_prefix_count(t, crate::text::ident_pred(), k);
    assert(t.take(k) =~= f);
    assert(t.skip(k) =~= x);
}

proof fn lemma_single_bracket(from: Seq<char>, lab: Seq<char>, to: Seq<char>)
    requires
        forall|i: int| 0 <= i < lab.len() ==> #[trigger] lab[i] != ']',
    ensures
        single_arrow(from, seq!['-', '['] + lab + seq![']', '-', '>'] + to) == labeled_meaning(
            from,
            lab,
            to,
        ),
{
    let x = seq!['-', '['] + lab + seq![']', '-', '>'] + to;
    assert(x.skip(2) =~= lab + seq![']'] + (seq!['-', '>'] + to));
    lemma_labeled_unfold(from, lab, ']', seq!['-', '>'], to);
    assert(starts_arrow(x, '['));
}

proof fn lemma_single_paren(from: Seq<char>, lab: Seq<char>, to: Seq<char>)
    requires
        forall|i: int| 0 <= i < lab.len() ==> #[trigger] lab[i] != ')',
    ensures
        single_arrow(from, seq!['-', '('] + lab + seq![')', '>'] + to) == labeled_meaning(
            from,
            lab,
            to,
        ),
{
    let x = seq!['-', '('] + lab + seq![')', '>'] + to;
    assert(x.skip(2) =~= lab + seq![')'] + (seq!['>'] + to));
    lemma_labeled_unfold(from, lab, ')', seq!['>'], to);
    assert(!starts_arrow(x, '[') && starts_arrow(x, '('));
}

/// A line of a name and then `-` followed by anything but `>` is read by
/// `single_arrow`.
proof fn lemma_arrow_line_single(f: Seq<char>, x: Seq<char>)
    requires
        f.len() > 0,
        !is_ws(f[0]),
        forall|i: int| 0 <= i < f.len() ==> is_ident_char(#[trigger] f[i]),
        x.len() >= 2,
        x[0] == '-',
        x[1] != '>',
        !is_ws(x.last()),
    ensures
        arrow_line(f + x) == super::grammar::one(single_arrow(trim(f), x)),
{
    lemma_name_then_dash(f, x);
    crate::text::lemma_trim(f);
    assert(!starts_arrow(x, '>'));
}

/// `arrow_line` of the two labeled-connection syntaxes.
proof fn lemma_label_arrow_lines(f: Seq<char>, lab: Seq<char>, to: Seq<char>)
    requires
        f.len() > 0,
        !is_ws(f[0]),
        forall|i: int| 0 <= i < f.len() ==> is_ident_char(#[trigger] f[i]),
        forall|i: int| 0 <= i < lab.len() ==> #[trigger] lab[i] != ']' && lab[i] != ')',
        to.len() > 0,
        !is_ws(to.last()),
    ensures
        arrow_line(f + (seq!['-', '['] + lab + seq![']', '-', '>'] + to)) == arrow_line(
            f + (seq!['-', '('] + lab + seq![')', '>'] + to),
        ),
        arrow_line(f + (seq!['-', '['] + lab + seq![']', '-', '>'] + to)) == super::grammar::one(
            labeled_meaning(trim(f), lab, to),
        ),
{
    let x1 = seq!['-', '['] + lab + seq![']', '-', '>'] + to;
    let x2 = seq!['-', '('] + lab + seq![')', '>'] + to;
    assert(x1.last() == to.last());
    assert(x2.last() == to.last());
    assert(x1[0] == '-' && x1[1] == '[');
    assert(x2[0] == '-' && x2[1] == '(');
    lemma_arrow_line_single(f, x1);
    lemma_arrow_line_single(f, x2);
    lemma_single_bracket(trim(f), lab, to);
    lemma_single_paren(trim(f), lab, to);
}

/// The two labeled-connection syntaxes mean the same: `A -[label]-> B` and
/// `A -(label)> B` give the same statement in any parser state, for every
/// source name, label and target; one is rejected exactly when the other is.
#[verifier::spinoff_prover]
#[verifier::rlimit(40)]
pub proof fn lemma_label_forms_agree(st: ParseState, f: Seq<char>, lab: Seq<char>, to: Seq<char>)
    requires
        f.len() > 0,
        !is_ws(f[0]),
        forall|i: int| 0 <= i < f.len() ==> is_ident_char(#[trigger] f[i]),
        forall|i: int| 0 <= i < lab.len() ==> #[trigger] lab[i] != ']' && lab[i] != ')',
        to.len() > 0,
        !is_ws(to.last()),
    ensures
        classify(f + seq!['-', '['] + lab + seq![']', '-', '>'] + to) == match labeled_meaning(
            trim(f),
            lab,
            to,
        ) {
            Some(c) => Some((seq![c], super::grammar::Mode::Top)),
            None => None,
        },
        classify(f + seq!['-', '['] + lab + seq![']', '-', '>'] + to) == classify(
            f + seq!['-', '('] + lab + seq![')', '>'] + to,
        ),
        match step(st, f + seq!['-', '['] + lab + seq![']', '-', '>'] + to) {
            Ok(next) => step(st, f + seq!['-', '('] + lab + seq![')', '>'] + to) == Ok::<
                ParseState,
                Seq<char>,
            >(next),
            Err(_) => step(st, f + seq!['-', '('] + lab + seq![')', '>'] + to) is Err,
        },
{
    let x1 = seq!['-', '['] + lab + seq![']', '-', '>'] + to;
    let x2 = seq!['-', '('] + lab + seq![')', '>'] + to;
    let t1 = f + x1;
    let t2 = f + x2;
    assert(f + seq!['-', '['] + lab + seq![']', '-', '>'] + to =~= t1);
    assert(f + seq!['-', '('] + lab + seq![')', '>'] + to =~= t2);
    assert(x1.last() == to.last());
    assert(x2.last() == to.last());
    lemma_name_then_dash(f, x1);
    lemma_name_then_dash(f, x2);
    lemma_label_arrow_lines(f, lab, to);
    assert(classify(t1) == classify(t2));
}


/// Names joined by `->`.
pub open spec fn join_arrows(ids: Seq<Seq<char>>) -> Seq<char>
    decreases ids.len(),
{
    if ids.len() == 0 {
        seq![]
    } else if ids.len() == 1 {
        ids[0]
    } else {
        ids[0] + seq!['-', '>'] + join_arrows(ids.drop_first())
    }
}

proof fn lemma_join_arrows_last(ids: Seq<Seq<char>>)
    requires
        ids.len() >= 1,
        ids.last().len() > 0,
    ensures
        join_arrows(ids).len() > 0,
        join_arrows(ids).last() == ids.last().last(),
    decreases ids.len(),
{
    if ids.len() > 1 {
        assert(ids.drop_first().last() == ids.last());
        lemma_join_arrows_last(ids.drop_first());
    }
}

/// The names after a leading `->` of a chain.
proof fn lemma_chain_ids_join(rest: Seq<Seq<char>>)
    requires
        rest.len() >= 1,
        forall|i: int| 0 <= i < rest.len() ==> crate::text::is_ident(#[trigger] rest[i]),
    ensures
        super::grammar::chain_ids(seq!['-', '>'] + join_arrows(rest)) == Some(
            super::grammar::trim_each(rest),
        ),
    decreases rest.len(),
{
    let r = seq!['-', '>'] + join_arrows(rest);
    let x = rest[0];
    assert(crate::text::is_ident(x));
    assert(r.skip(2) =~= join_arrows(rest));
    let j = join_arrows(rest);
    crate::text::lemma_prefix_count_props(x, crate::text::ident_pred());
    if rest.len() == 1 {
        assert(j == x);
        assert(j.take(x.len() as int) =~= x);
        assert(super::grammar::trim_each(rest) =~= seq![trim(x)]);
    } else {
        let tail = rest.drop_first();
        assert forall|i: int| 0 <= i < tail.len() implies crate::text::is_ident(#[trigger] tail[i]) by {
            assert(tail[i] == rest[i + 1]);
        }
        lemma_chain_ids_join(tail);
        assert(j == x + seq!['-', '>'] + join_arrows(tail));
        assert forall|i: int| 0 <= i < x.len() implies #[trigger] crate::text::ident_pred()(j[i]) by {
            assert(j[i] == x[i]);
        }
        assert(j[x.len() as int] == '-');
        crate::text::lemma_prefix_count(j, crate::text::ident_pred(), x.len() as int);
        assert(j.take(x.len() as int) =~= x);
        assert(j.skip(x.len() as int) =~= seq!['-', '>'] + join_arrows(tail));
        assert(super::grammar::trim_each(rest) =~= seq![trim(x)] + super::grammar::trim_each(tail));
    }
}

/// A chain `A -> B -> C ...` of two or more names stands for one connection
/// per consecutive pair of names, in order, in any parser state.
pub proof fn lemma_chain(st: ParseState, ids: Seq<Seq<char>>)
    requires
        ids.len() >= 2,
        forall|i: int| 0 <= i < ids.len() ==> crate::text::is_ident(#[trigger] ids[i]),
        !is_ws(ids[0][0]),
        !is_ws(ids.last().last()),
    ensures
        classify(join_arrows(ids)) == Some(
            (super::grammar::connections(super::grammar::trim_each(ids)), super::grammar::Mode::Top),
        ),
        step(st, join_arrows(ids)) == Ok::<ParseState, Seq<char>>(
            ParseState {
                stmts: st.stmts + super::grammar::connections(super::grammar::trim_each(ids)),
                mode: super::grammar::Mode::Top,
            },
        ),
{
    let f = ids[0];
    let tail = ids.drop_first();
    let x = seq!['-', '>'] + join_arrows(tail);
    assert(crate::text::is_ident(f));
    assert(crate::text::is_ident(ids.last()));
    assert(ids.last().len() > 0) by {
        crate::text::lemma_trim(ids.last());
    }
    assert(f.len() > 0) by {
        crate::text::lemma_trim(f);
    }
    crate::text::lemma_prefix_count_props(f, crate::text::ident_pred());
    assert forall|i: int| 0 <= i < tail.len() implies crate::text::is_ident(#[trigger] tail[i]) by {
        assert(tail[i] == ids[i + 1]);
    }
    assert(tail.last() == ids.last());
    lemma_join_arrows_last(tail);
    assert(join_arrows(ids) == f + x);
    assert(x.last() == ids.last().last());
    lemma_name_then_dash(f, x);
    lemma_chain_ids_join(tail);
    assert(starts_arrow(x, '>'));
    assert(seq![trim(f)] + super::grammar::trim_each(tail) =~= super::grammar::trim_each(ids));
    assert(arrow_line(f + x) == Some(super::grammar::connections(super::grammar::trim_each(ids))));
}


// ── Whole documents of one line ─────────────────────────────────────────────

/// No line break occurs in `x`.
pub open spec fn one_line(x: Seq<char>) -> bool {
    forall|i: int| 0 <= i < x.len() ==> x[i] != '\n'
}

/// A document of one line (ended by a line break) means what that line
/// means to a fresh parser.
pub proof fn lemma_parse_line(x: Seq<char>)
    requires
        one_line(x),
    ensures
        spec_parse(x + seq!['\n']) == match step(initial_state(), x) {
            Ok(st) => Ok::<Seq<super::grammar::SpecStatement>, Seq<char>>(st.stmts),
            Err(t) => Err(t),
        },
{
    let e = Seq::<char>::empty();
    let d = x + seq!['\n'];
    assert forall|j: int| 0 <= j < x.len() implies d[j] != '\n' by {
        assert(d[j] == x[j]);
    }
    lemma_split_at(d, '\n', x.len() as int);
    assert(d.take(x.len() as int) =~= x);
    assert(d.skip(x.len() as int + 1) =~= e);
    lemma_split_none(e, '\n');
    let ls = split(d, '\n');
    assert(ls =~= seq![x, e]);
    assert(ls.drop_first() =~= seq![e]);
    assert(seq![e].drop_first() =~= Seq::<Seq<char>>::empty());
    lemma_trim(e);
    match step(initial_state(), x) {
        Ok(st) => {
            assert(step(st, e) == Ok::<ParseState, Seq<char>>(st));
            assert(run(st, Seq::<Seq<char>>::empty()) == Ok::<ParseState, Seq<char>>(st));
            assert(seq![e][0] == e);
            assert(run(st, seq![e]) == Ok::<ParseState, Seq<char>>(st));
        },
        Err(_) => {},
    }
}

proof fn lemma_join_arrows_one_line(ids: Seq<Seq<char>>)
    requires
        forall|i: int| 0 <= i < ids.len() ==> crate::text::is_ident(#[trigger] ids[i]),
    ensures
        one_line(join_arrows(ids)),
    decreases ids.len(),
{
    if ids.len() == 1 {
        let x = ids[0];
        assert(crate::text::is_ident(x));
        crate::text::lemma_prefix_count_props(x, crate::text::ident_pred());
        assert forall|i: int| 0 <= i < x.len() implies x[i] != '\n' by {
            assert(crate::text::ident_pred()(x[i]));
        }
    } else if ids.len() > 1 {
        let x = ids[0];
        let tail = ids.drop_first();
        assert forall|i: int| 0 <= i < tail.len() implies crate::text::is_ident(#[trigger] tail[i]) by {
            assert(tail[i] == ids[i + 1]);
        }
        lemma_join_arrows_one_line(tail);
        assert(crate::text::is_ident(x));
        crate::text::lemma_prefix_count_props(x, crate::text::ident_pred());
        let j = join_arrows(ids);
        let r = join_arrows(tail);
        assert(j == x + seq!['-', '>'] + r);
        assert forall|i: int| 0 <= i < j.len() implies j[i] != '\n' by {
            if i < x.len() {
                assert(j[i] == x[i]);
                assert(crate::text::ident_pred()(x[i]));
            } else if i >= x.len() + 2 {
                assert(j[i] == r[i - x.len() - 2]);
            }
        }
    }
}

/// A chain of two or more names, as a whole document: `A -> B -> C` parses
/// to one connection per consecutive pair of names, in chain order.
pub proof fn lemma_chain_document(ids: Seq<Seq<char>>)
    requires
        ids.len() >= 2,
        forall|i: int| 0 <= i < ids.len() ==> crate::text::is_ident(#[trigger] ids[i]),
        !is_ws(ids[0][0]),
        !is_ws(ids.last().last()),
    ensures
        spec_parse(join_arrows(ids) + seq!['\n']) == Ok::<Seq<super::grammar::SpecStatement>, Seq<char>>(
            super::grammar::connections(super::grammar::trim_each(ids)),
        ),
{
    lemma_chain(initial_state(), ids);
    lemma_join_arrows_one_line(ids);
    lemma_parse_line(join_arrows(ids));
    assert(Seq::<super::grammar::SpecStatement>::empty() + super::grammar::connections(
        super::grammar::trim_each(ids),
    ) =~= super::grammar::connections(super::grammar::trim_each(ids)));
}

/// The two labeled-connection syntaxes, as whole documents, parse alike:
/// `A -[label]-> B` and `A -(label)> B` give the same statements, or both are
/// rejected.
#[verifier::spinoff_prover]
#[verifier::rlimit(40)]
pub proof fn lemma_label_forms_agree_document(f: Seq<char>, lab: Seq<char>, to: Seq<char>)
    requires
        f.len() > 0,
        !is_ws(f[0]),
        forall|i: int| 0 <= i < f.len() ==> is_ident_char(#[trigger] f[i]),
        forall|i: int| 0 <= i < lab.len() ==> #[trigger] lab[i] != ']' && lab[i] != ')',
        to.len() > 0,
        !is_ws(to.last()),
        one_line(lab),
        one_line(to),
    ensures
        match spec_parse(f + seq!['-', '['] + lab + seq![']', '-', '>'] + to + seq!['\n']) {
            Ok(v) => spec_parse(f + seq!['-', '('] + lab + seq![')', '>'] + to + seq!['\n']) == Ok::<
                Seq<super::grammar::SpecStatement>,
                Seq<char>,
            >(v),
            Err(_) => spec_parse(f + seq!['-', '('] + lab + seq![')', '>'] + to + seq!['\n']) is Err,
        },
        labeled_meaning(trim(f), lab, to) matches Some(c) ==> spec_parse(
            f + seq!['-', '['] + lab + seq![']', '-', '>'] + to + seq!['\n'],
        ) == Ok::<Seq<super::grammar::SpecStatement>, Seq<char>>(seq![c]),
{
    let t1 = f + seq!['-', '['] + lab + seq![']', '-', '>'] + to;
    let t2 = f + seq!['-', '('] + lab + seq![')', '>'] + to;
    lemma_label_forms_agree(initial_state(), f, lab, to);
    assert forall|i: int| 0 <= i < t1.len() implies t1[i] != '\n' by {
        if i < f.len() {
            assert(is_ident_char(f[i]));
        } else if f.len() + 2 <= i < f.len() + 2 + lab.len() {
            assert(t1[i] == lab[i - f.len() - 2]);
        } else if i >= f.len() + 5 + lab.len() {
            assert(t1[i] == to[i - f.len() - 5 - lab.len()]);
        }
    }
    assert forall|i: int| 0 <= i < t2.len() implies t2[i] != '\n' by {
        if i < f.len() {
            assert(is_ident_char(f[i]));
        } else if f.len() + 2 <= i < f.len() + 2 + lab.len() {
            assert(t2[i] == lab[i - f.len() - 2]);
        } else if i >= f.len() + 4 + lab.len() {
            assert(t2[i] == to[i - f.len() - 4 - lab.len()]);
        }
    }
    lemma_parse_line(t1);
    lemma_parse_line(t2);
    let x1 = seq!['-', '['] + lab + seq![']', '-', '>'] + to;
    assert(t1 =~= f + x1);
    assert(x1.last() == to.last());
    lemma_name_then_dash(f, x1);
    if let Some(c) = labeled_meaning(trim(f), lab, to) {
        assert(Seq::<super::grammar::SpecStatement>::empty() + seq![c] =~= seq![c]);
        assert(step(initial_state(), t1) == Ok::<ParseState, Seq<char>>(
            ParseState { stmts: seq![c], mode: super::grammar::Mode::Top },
        ));
    }
}

/// A text with no blanks at either end.
pub open spec fn trimmed(x: Seq<char>) -> bool {
    trim(x) == x
}

/// Mindmap entries are at depth one or more and have a trimmed label.
pub open spec fn mindmap_entries_wf(es: Seq<super::grammar::SpecMindmapEntry>) -> bool {
    forall|i: int|
        0 <= i < es.len() ==> #[trigger] es[i].depth >= 1 && es[i].label.len() > 0 && trimmed(
            es[i].label,
        )
}

/// Timeline entries are sections (depth 0, never with events) or periods
/// (depth 1); their texts are trimmed and their events trimmed and non-empty.
pub open spec fn timeline_entries_wf(es: Seq<super::grammar::SpecTimelineEntry>) -> bool {
    forall|i: int|
        0 <= i < es.len() ==> #[trigger] es[i].depth <= 1 && (es[i].depth == 0 ==> es[i].events.len()
            == 0) && trimmed(es[i].text) && all_trimmed_nonempty(es[i].events)
}

pub open spec fn all_trimmed(xs: Seq<Seq<char>>) -> bool {
    forall|i: int| 0 <= i < xs.len() ==> trimmed(#[trigger] xs[i])
}

pub open spec fn all_trimmed_nonempty(xs: Seq<Seq<char>>) -> bool {
    forall|i: int| 0 <= i < xs.len() ==> trimmed(#[trigger] xs[i]) && xs[i].len() > 0
}

pub open spec fn stmt_wf(s: super::grammar::SpecStatement) -> bool {
    match s {
        super::grammar::SpecStatement::Comment(t) => trimmed(t),
        super::grammar::SpecStatement::Connection { from, to } => trimmed(from) && trimmed(to),
        super::grammar::SpecStatement::LabeledConnection { from, to, label } => trimmed(from)
            && trimmed(to) && trimmed(label),
        super::grammar::SpecStatement::Sequence { from, to, message } => trimmed(from) && trimmed(
            to,
        ) && trimmed(message),
        super::grammar::SpecStatement::Grouping { name, nodes } => nodes.len() >= 1 && trimmed(name)
            && all_trimmed(nodes),
        super::grammar::SpecStatement::Mindmap { root, entries } => trimmed(root)
            && mindmap_entries_wf(entries),
        super::grammar::SpecStatement::Timeline { title, entries } => trimmed(title)
            && timeline_entries_wf(entries),
        super::grammar::SpecStatement::Node(n) => trimmed(n),
    }
}

pub open spec fn stmts_wf(ss: Seq<super::grammar::SpecStatement>) -> bool {
    forall|i: int| 0 <= i < ss.len() ==> stmt_wf(#[trigger] ss[i])
}

proof fn lemma_nonempty_trimmed_wf(parts: Seq<Seq<char>>)
    ensures
        all_trimmed_nonempty(super::grammar::nonempty_trimmed(parts)),
    decreases parts.len(),
{
    broadcast use crate::text::lemma_trim_trim;
    if parts.len() > 0 {
        lemma_nonempty_trimmed_wf(parts.drop_last());
    }
}

proof fn lemma_chain_ids_trimmed(r: Seq<char>)
    ensures
        super::grammar::chain_ids(r) matches Some(ids) ==> all_trimmed(ids),
    decreases r.len(),
{
    broadcast use crate::text::lemma_trim_trim;
    if starts_arrow(r, '>') {
        let rest = r.skip(2);
        let q = crate::text::ident_len(rest);
        crate::text::lemma_prefix_count_props(rest, crate::text::ident_pred());
        if q < rest.len() {
            lemma_chain_ids_trimmed(rest.skip(q as int));
        }
    }
}

proof fn lemma_split_nonempty(s: Seq<char>, c: char)
    ensures
        split(s, c).len() >= 1,
{
}

proof fn lemma_node_list_nonempty(s: Seq<char>)
    ensures
        super::grammar::node_list(s) matches Some(ns) ==> ns.len() >= 1,
{
    lemma_split_nonempty(s, ',');
}

proof fn lemma_classify_wf(t: Seq<char>)
    requires
        t.len() > 0,
    ensures
        classify(t) matches Some((ss, _)) ==> stmts_wf(ss),
{
    broadcast use crate::text::lemma_trim_trim;

    if let Some((ss, _)) = classify(t) {
        if t[0] == '[' && !crate::text::has_prefix(t, mindmap_keyword())
            && !crate::text::has_prefix(t, timeline_keyword()) {
            let r = t.drop_first();
            match find(r, ']') {
                Some(e) => {
                    let after = crate::text::trim_start(r.skip((e + 1) as int));
                    if after.len() > 0 {
                        let inner = after.drop_first();
                        match find(inner, '}') {
                            Some(f) => lemma_node_list_nonempty(inner.take(f as int)),
                            None => {},
                        }
                    }
                },
                None => {},
            }
        } else if t[0] == '@' {
            let r = t.drop_first();
            match find(r, ':') {
                Some(e) => lemma_node_list_nonempty(r.skip((e + 1) as int)),
                None => {},
            }
        } else {
            let p = crate::text::ident_len(t);
            lemma_chain_ids_trimmed(t.skip(p as int));
        }
        assert forall|i: int| 0 <= i < ss.len() implies stmt_wf(#[trigger] ss[i]) by {
            match ss[i] {
                super::grammar::SpecStatement::Mindmap { entries, .. } => {
                    assert(entries.len() == 0);
                },
                super::grammar::SpecStatement::Timeline { entries, .. } => {
                    assert(entries.len() == 0);
                },
                _ => {},
            }
        }
    }
}

/// Every step keeps the statement list well formed.
pub proof fn lemma_step_wf(st: ParseState, line: Seq<char>)
    requires
        stmts_wf(st.stmts),
    ensures
        step(st, line) matches Ok(next) ==> stmts_wf(next.stmts),
{
    broadcast use crate::text::lemma_trim_trim;

    let t = trim(line);
    if let Ok(next) = step(st, line) {
        if t.len() == 0 {
        } else if st.mode is Mindmap && t[0] == '-' {
            crate::text::lemma_prefix_count_props(t, crate::text::dash_pred());
            let e = super::grammar::mindmap_entry(t).unwrap();
            assert(e.depth >= 1);
            let n = st.stmts.len();
            match st.stmts.last() {
                super::grammar::SpecStatement::Mindmap { root, entries } => {
                    assert(stmt_wf(st.stmts[n - 1]));
                    let es = entries.push(e);
                    assert forall|i: int| 0 <= i < es.len() implies #[trigger] es[i].depth >= 1
                        && es[i].label.len() > 0 && trimmed(es[i].label) by {
                        if i < entries.len() {
                            assert(es[i] == entries[i]);
                        }
                    }
                    assert forall|i: int| 0 <= i < next.stmts.len() implies stmt_wf(
                        #[trigger] next.stmts[i],
                    ) by {
                        if i < n - 1 {
                            assert(next.stmts[i] == st.stmts[i]);
                        }
                    }
                },
                _ => {},
            }
        } else if st.mode is Timeline && (t[0] == '-' || t[0] == '@') {
            let e = super::grammar::timeline_entry(t).unwrap();
            let content = trim(t.drop_first());
            if let Some(k) = find(content, ':') {
                lemma_nonempty_trimmed_wf(split(content.skip((k + 1) as int), ','));
            }
            let n = st.stmts.len();
            match st.stmts.last() {
                super::grammar::SpecStatement::Timeline { title, entries } => {
                    assert(stmt_wf(st.stmts[n - 1]));
                    let es = entries.push(e);
                    assert forall|i: int| 0 <= i < es.len() implies #[trigger] es[i].depth <= 1
                        && (es[i].depth == 0 ==> es[i].events.len() == 0) && trimmed(es[i].text)
                        && all_trimmed_nonempty(es[i].events) by {
                        if i < entries.len() {
                            assert(es[i] == entries[i]);
                        }
                    }
                    assert forall|i: int| 0 <= i < next.stmts.len() implies stmt_wf(
                        #[trigger] next.stmts[i],
                    ) by {
                        if i < n - 1 {
                            assert(next.stmts[i] == st.stmts[i]);
                        }
                    }
                },
                _ => {},
            }
        } else {
            lemma_classify_wf(t);
            let (ss, m) = classify(t).unwrap();
            assert forall|i: int| 0 <= i < next.stmts.len() implies stmt_wf(
                #[trigger] next.stmts[i],
            ) by {
                if i < st.stmts.len() {
                    assert(next.stmts[i] == st.stmts[i]);
                } else {
                    assert(next.stmts[i] == ss[i - st.stmts.len()]);
                }
            }
        }
    }
}

proof fn lemma_run_wf(st: ParseState, ls: Seq<Seq<char>>)
    requires
        stmts_wf(st.stmts),
    ensures
        run(st, ls) matches Ok(next) ==> stmts_wf(next.stmts),
    decreases ls.len(),
{
    if ls.len() > 0 {
        lemma_step_wf(st, ls[0]);
        if let Ok(next) = step(st, ls[0]) {
            lemma_run_wf(next, ls.drop_first());
        }
    }
}

/// Whatever a document parses to is well formed: every text in it (comments,
/// names, labels, messages, group members, roots, titles, entry texts and
/// events) is trimmed; mindmap entries sit at depth one or more and carry a
/// label; timeline entries are sections (depth 0, never with events) or
/// periods (depth 1) whose events are not empty; every group has a member.
pub proof fn lemma_parse_wf(s: Seq<char>)
    ensures
        spec_parse(s) matches Ok(ss) ==> stmts_wf(ss),
{
    lemma_run_wf(initial_state(), split(s, '\n'));
}

} // verus!
