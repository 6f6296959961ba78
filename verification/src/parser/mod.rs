//! The DSL parser: source text in, statements out.
pub mod grammar;
pub mod laws;

use vstd::prelude::*;
use crate::text::{
    all_ws, find, find_in, has_prefix, ident_len, ident_pred, is_ident, lemma_prefix_count_props,
    range_string, scan_dashes, scan_ident, skip_ws, split, starts_with_at, str_chars, trim,
    trim_range, trim_start,
};
use self::grammar::{
    initial_state, run, spec_parse, step, ParseState, mindmap_entry, nonempty_trimmed, timeline_entry, arrow_line, bracket_group, chain_ids, classify, connections, header_group, labeled,
    mindmap_keyword, node_list, one, sequence, single_arrow, starts_arrow, timeline_keyword, trim_each,
    Mode, SpecMindmapEntry, SpecStatement, SpecTimelineEntry,
};

verus! {

/// A single entry in a mindmap block: depth (dash count) + label text.
#[derive(Debug, Clone, PartialEq)]
pub struct MindmapEntry {
    pub depth: usize,
    pub label: String,
}

/// A single entry in a timeline block: depth + text + events.
///
/// Depth 0 is a section header (`@ Name`), which never has events.
/// Depth 1 is a time period (`- Period` or `- Period : event, event`).
#[derive(Debug, Clone, PartialEq)]
pub struct TimelineEntry {
    pub depth: usize,
    pub text: String,
    pub events: Vec<String>,
}

/// A parsed DSL statement.
#[derive(Debug, Clone, PartialEq)]
pub enum Statement {
    Comment(String),
    Connection { from: String, to: String },
    LabeledConnection { from: String, to: String, label: String },
    Sequence { from: String, to: String, message: String },
    Grouping { name: String, nodes: Vec<String> },
    Mindmap { root: String, entries: Vec<MindmapEntry> },
    Timeline { title: String, entries: Vec<TimelineEntry> },
    Node(String),
}

pub open spec fn strings_view(v: Seq<String>) -> Seq<Seq<char>> {
    v.map_values(|s: String| s@)
}

pub open spec fn mindmap_entries_view(v: Seq<MindmapEntry>) -> Seq<SpecMindmapEntry> {
    v.map_values(|e: MindmapEntry| e@)
}

pub open spec fn timeline_entries_view(v: Seq<TimelineEntry>) -> Seq<SpecTimelineEntry> {
    v.map_values(|e: TimelineEntry| e@)
}

pub open spec fn stmts_view(v: Seq<Statement>) -> Seq<SpecStatement> {
    v.map_values(|s: Statement| s@)
}

impl View for MindmapEntry {
    type V = SpecMindmapEntry;

    open spec fn view(&self) -> SpecMindmapEntry {
        SpecMindmapEntry { depth: self.depth as nat, label: self.label@ }
    }
}

impl View for TimelineEntry {
    type V = SpecTimelineEntry;

    open spec fn view(&self) -> SpecTimelineEntry {
        SpecTimelineEntry {
            depth: self.depth as nat,
            text: self.text@,
            events: strings_view(self.events@),
        }
    }
}

impl View for Statement {
    type V = SpecStatement;

    open spec fn view(&self) -> SpecStatement {
        match self {
            Statement::Comment(t) => SpecStatement::Comment(t@),
            Statement::Connection { from, to } => SpecStatement::Connection {
                from: from@,
                to: to@,
            },
            Statement::LabeledConnection { from, to, label } => SpecStatement::LabeledConnection {
                from: from@,
                to: to@,
                label: label@,
            },
            Statement::Sequence { from, to, message } => SpecStatement::Sequence {
                from: from@,
                to: to@,
                message: message@,
            },
            Statement::Grouping { name, nodes } => SpecStatement::Grouping {
                name: name@,
                nodes: strings_view(nodes@),
            },
            Statement::Mindmap { root, entries } => SpecStatement::Mindmap {
                root: root@,
                entries: mindmap_entries_view(entries@),
            },
            Statement::Timeline { title, entries } => SpecStatement::Timeline {
                title: title@,
                entries: timeline_entries_view(entries@),
            },
            Statement::Node(t) => SpecStatement::Node(t@),
        }
    }
}

/// Whether `v[lo..hi]` is a name (possibly padded with blanks).
fn is_ident_range(v: &Vec<char>, lo: usize, hi: usize) -> (b: bool)
    requires
        lo <= hi <= v.len(),
    ensures
        b == is_ident(v@.subrange(lo as int, hi as int)),
{
    let k: usize = scan_ident(v, lo, hi);
    if k != hi {
        return false;
    }
    !all_ws(v, lo, hi)
}

/// The trimmed text of `v[lo..hi]` as a new string.
fn trimmed_string(v: &Vec<char>, lo: usize, hi: usize) -> (s: String)
    requires
        lo <= hi <= v.len(),
    ensures
        s@ == trim(v@.subrange(lo as int, hi as int)),
{
    let (a, b) = trim_range(v, lo, hi);
    range_string(v, a, b)
}

/// `A, B, C` in `v[lo..hi]`.
fn node_list_exec(v: &Vec<char>, lo: usize, hi: usize) -> (r: Option<Vec<String>>)
    requires
        lo <= hi <= v.len(),
    ensures
        match r {
            Some(ns) => node_list(v@.subrange(lo as int, hi as int)) == Some(strings_view(ns@)),
            None => node_list(v@.subrange(lo as int, hi as int)) is None,
        },
{
    let ghost s = v@.subrange(lo as int, hi as int);
    let mut out: Vec<String> = Vec::new();
    let ghost mut done: Seq<Seq<char>> = seq![];
    let mut k: usize = lo;
    loop
        invariant
            lo <= k <= hi <= v.len(),
            s == v@.subrange(lo as int, hi as int),
            split(s, ',') == done + split(v@.subrange(k as int, hi as int), ','),
            forall|i: int| 0 <= i < done.len() ==> is_ident(#[trigger] done[i]),
            strings_view(out@) == trim_each(done),
        decreases hi - k,
    {
        let ghost cur = v@.subrange(k as int, hi as int);
        let found = find_in(v, k, hi, ',');
        let e: usize = match found {
            Some(e) => e,
            None => hi,
        };
        let ghost piece = v@.subrange(k as int, e as int);
        proof {
            if found is Some {
                assert(cur.take((e - k) as int) =~= piece);
                assert(cur.skip((e - k + 1) as int) =~= v@.subrange(e + 1, hi as int));
                assert(split(cur, ',') == seq![piece] + split(v@.subrange(e + 1, hi as int), ','));
            } else {
                assert(cur =~= piece);
                assert(split(cur, ',') == seq![piece]);
            }
        }
        if !is_ident_range(v, k, e) {
            proof {
                assert(split(s, ',')[done.len() as int] == piece);
                assert(!is_ident(split(s, ',')[done.len() as int]));
            }
            return None;
        }
        let name = trimmed_string(v, k, e);
        let ghost old_out = out@;
        out.push(name);
        proof {
            let old_done = done;
            done = done.push(piece);
            assert(strings_view(out@) =~= strings_view(old_out).push(trim(piece)));
            assert(trim_each(done) =~= trim_each(old_done).push(trim(piece)));
            assert forall|i: int| 0 <= i < done.len() implies is_ident(#[trigger] done[i]) by {
                if i < old_done.len() {
                    assert(done[i] == old_done[i]);
                }
            }
        }
        if e == hi {
            proof {
                assert(split(s, ',') =~= done);
            }
            return Some(out);
        }
        proof {
            assert(split(s, ',') =~= done + split(v@.subrange(e + 1, hi as int), ','));
        }
        k = e + 1;
    }
}


/// The part of `[Name] { A, B }` after the `[`, in `v[lo..hi]`.
fn bracket_group_exec(v: &Vec<char>, lo: usize, hi: usize) -> (res: Option<Statement>)
    requires
        lo <= hi <= v.len(),
    ensures
        match res {
            Some(g) => bracket_group(v@.subrange(lo as int, hi as int)) == Some(g@),
            None => bracket_group(v@.subrange(lo as int, hi as int)) is None,
        },
{
    let ghost r = v@.subrange(lo as int, hi as int);
    let e: usize = match find_in(v, lo, hi, ']') {
        Some(e) => e,
        None => return None,
    };
    proof {
        assert(r.take((e - lo) as int) =~= v@.subrange(lo as int, e as int));
        assert(r.skip((e - lo + 1) as int) =~= v@.subrange(e + 1, hi as int));
    }
    if !is_ident_range(v, lo, e) {
        return None;
    }
    let a: usize = skip_ws(v, e + 1, hi);
    proof {
        assert(trim_start(v@.subrange(e + 1, hi as int)) =~= v@.subrange(a as int, hi as int));
    }
    if a == hi || v[a] != '{' {
        return None;
    }
    proof {
        assert(v@.subrange(a as int, hi as int).drop_first() =~= v@.subrange(a + 1, hi as int));
    }
    let f: usize = match find_in(v, a + 1, hi, '}') {
        Some(f) => f,
        None => return None,
    };
    if f + 1 != hi {
        return None;
    }
    proof {
        assert(v@.subrange(a + 1, hi as int).take((f - a - 1) as int) =~= v@.subrange(
            a + 1,
            f as int,
        ));
    }
    let ns = match node_list_exec(v, a + 1, f) {
        Some(ns) => ns,
        None => return None,
    };
    let name = trimmed_string(v, lo, e);
    Some(Statement::Grouping { name, nodes: ns })
}

/// The part of `@ Name: A, B` after the `@`, in `v[lo..hi]`.
fn header_group_exec(v: &Vec<char>, lo: usize, hi: usize) -> (res: Option<Statement>)
    requires
        lo <= hi <= v.len(),
    ensures
        match res {
            Some(g) => header_group(v@.subrange(lo as int, hi as int)) == Some(g@),
            None => header_group(v@.subrange(lo as int, hi as int)) is None,
        },
{
    let ghost r = v@.subrange(lo as int, hi as int);
    let e: usize = match find_in(v, lo, hi, ':') {
        Some(e) => e,
        None => return None,
    };
    proof {
        assert(r.take((e - lo) as int) =~= v@.subrange(lo as int, e as int));
        assert(r.skip((e - lo + 1) as int) =~= v@.subrange(e + 1, hi as int));
    }
    if !is_ident_range(v, lo, e) {
        return None;
    }
    let ns = match node_list_exec(v, e + 1, hi) {
        Some(ns) => ns,
        None => return None,
    };
    let name = trimmed_string(v, lo, e);
    Some(Statement::Grouping { name, nodes: ns })
}

/// The part of a labeled connection after its opening `-[` or `-(`.
fn labeled_exec(from: String, v: &Vec<char>, lo: usize, hi: usize, close: char, arrow: &Vec<char>) -> (res:
    Option<Statement>)
    requires
        lo <= hi <= v.len(),
    ensures
        match res {
            Some(c) => labeled(from@, v@.subrange(lo as int, hi as int), close, arrow@) == Some(
                c@,
            ),
            None => labeled(from@, v@.subrange(lo as int, hi as int), close, arrow@) is None,
        },
{
    let ghost r = v@.subrange(lo as int, hi as int);
    let e: usize = match find_in(v, lo, hi, close) {
        Some(e) => e,
        None => return None,
    };
    proof {
        assert(r.take((e - lo) as int) =~= v@.subrange(lo as int, e as int));
        assert(r.skip((e - lo + 1) as int) =~= v@.subrange(e + 1, hi as int));
    }
    let (la, lb) = trim_range(v, lo, e);
    if la == lb {
        return None;
    }
    if !starts_with_at(v, e + 1, hi, arrow) {
        return None;
    }
    let t0: usize = e + 1 + arrow.len();
    proof {
        assert(v@.subrange(e + 1, hi as int).skip(arrow@.len() as int) =~= v@.subrange(
            t0 as int,
            hi as int,
        ));
    }
    if !is_ident_range(v, t0, hi) {
        return None;
    }
    let label = range_string(v, la, lb);
    let to = trimmed_string(v, t0, hi);
    Some(Statement::LabeledConnection { from, to, label })
}

/// The part of `A > B : message` after the `>`.
fn sequence_exec(from: String, v: &Vec<char>, lo: usize, hi: usize) -> (res: Option<Statement>)
    requires
        lo <= hi <= v.len(),
    ensures
        match res {
            Some(c) => sequence(from@, v@.subrange(lo as int, hi as int)) == Some(c@),
            None => sequence(from@, v@.subrange(lo as int, hi as int)) is None,
        },
{
    let ghost r = v@.subrange(lo as int, hi as int);
    let q: usize = scan_ident(v, lo, hi);
    proof {
        assert(r.take((q - lo) as int) =~= v@.subrange(lo as int, q as int));
        assert(r.skip((q - lo) as int) =~= v@.subrange(q as int, hi as int));
    }
    let (a, b) = trim_range(v, lo, q);
    if a == b || q == hi || v[q] != ':' {
        return None;
    }
    proof {
        assert(v@.subrange(q as int, hi as int).drop_first() =~= v@.subrange(q + 1, hi as int));
    }
    let (c, d) = trim_range(v, q + 1, hi);
    if c == d {
        return None;
    }
    let to = range_string(v, a, b);
    let message = range_string(v, c, d);
    Some(Statement::Sequence { from, to, message })
}

pub open spec fn prepend_ids(pre: Seq<Seq<char>>, o: Option<Seq<Seq<char>>>) -> Option<
    Seq<Seq<char>>,
> {
    match o {
        Some(x) => Some(pre + x),
        None => None,
    }
}

/// The names of `-> B -> C ...` in `v[lo..hi]`.
fn chain_exec(v: &Vec<char>, lo: usize, hi: usize) -> (res: Option<Vec<String>>)
    requires
        lo <= hi <= v.len(),
    ensures
        match res {
            Some(ids) => chain_ids(v@.subrange(lo as int, hi as int)) == Some(strings_view(ids@)),
            None => chain_ids(v@.subrange(lo as int, hi as int)) is None,
        },
{
    let mut ids: Vec<String> = Vec::new();
    let mut k: usize = lo;
    proof {
        assert(strings_view(ids@) =~= Seq::<Seq<char>>::empty());
        assert(prepend_ids(seq![], chain_ids(v@.subrange(k as int, hi as int))) =~= chain_ids(
            v@.subrange(k as int, hi as int),
        ));
    }
    loop
        invariant
            lo <= k <= hi <= v.len(),
            chain_ids(v@.subrange(lo as int, hi as int)) == prepend_ids(
                strings_view(ids@),
                chain_ids(v@.subrange(k as int, hi as int)),
            ),
        decreases hi - k,
    {
        let ghost cur = v@.subrange(k as int, hi as int);
        if !(hi - k >= 2 && v[k] == '-' && v[k + 1] == '>') {
            return None;
        }
        let ghost rest = cur.skip(2);
        proof {
            assert(rest =~= v@.subrange(k + 2, hi as int));
        }
        let q: usize = scan_ident(v, k + 2, hi);
        proof {
            assert(rest.take((q - k - 2) as int) =~= v@.subrange(k + 2, q as int));
            assert(rest.skip((q - k - 2) as int) =~= v@.subrange(q as int, hi as int));
        }
        let (a, b) = trim_range(v, k + 2, q);
        if a == b {
            return None;
        }
        let id = range_string(v, a, b);
        let ghost old_ids = ids@;
        ids.push(id);
        proof {
            assert(strings_view(ids@) =~= strings_view(old_ids) + seq![v@.subrange(a as int, b as int)]);
        }
        if q == hi {
            proof {
                assert(chain_ids(cur) == Some(seq![v@.subrange(a as int, b as int)]));
            }
            return Some(ids);
        }
        proof {
            let id_s = v@.subrange(a as int, b as int);
            match chain_ids(v@.subrange(q as int, hi as int)) {
                Some(x) => {
                    assert(chain_ids(cur) == Some(seq![id_s] + x));
                    assert(strings_view(old_ids) + (seq![id_s] + x) =~= strings_view(ids@) + x);
                },
                None => {
                    assert(chain_ids(cur) is None);
                },
            }
        }
        k = q;
    }
}

/// One connection per consecutive pair of `ids`.
fn connections_exec(ids: &Vec<String>) -> (res: Vec<Statement>)
    requires
        ids.len() >= 1,
    ensures
        stmts_view(res@) == connections(strings_view(ids@)),
{
    let mut out: Vec<Statement> = Vec::new();
    let n: usize = ids.len() - 1;
    let mut i: usize = 0;
    while i < n
        invariant
            i <= n,
            n == ids.len() - 1,
            stmts_view(out@) == connections(strings_view(ids@)).take(i as int),
        decreases n - i,
    {
        let from = ids[i].clone();
        let to = ids[i + 1].clone();
        let c = Statement::Connection { from, to };
        let ghost cv = c@;
        let ghost old_out = out@;
        out.push(c);
        proof {
            assert(old_out.len() == i) by {
                assert(stmts_view(old_out).len() == old_out.len());
            }
            assert(out@[i as int] == c);
            assert(cv == connections(strings_view(ids@))[i as int]);
            assert(strings_view(ids@)[i as int] == ids@[i as int]@);
            assert(strings_view(ids@)[i + 1] == ids@[i + 1]@);
            assert(out@[i as int]@ == connections(strings_view(ids@))[i as int]);
            assert(stmts_view(out@) =~= connections(strings_view(ids@)).take(i + 1));
        }
        i += 1;
    }
    proof {
        assert(connections(strings_view(ids@)).take(n as int) =~= connections(strings_view(ids@)));
    }
    out
}

/// A line that starts with a name, in `v[lo..hi]`.
fn arrow_exec(v: &Vec<char>, lo: usize, hi: usize) -> (res: Option<Vec<Statement>>)
    requires
        lo <= hi <= v.len(),
    ensures
        match res {
            Some(ss) => arrow_line(v@.subrange(lo as int, hi as int)) == Some(stmts_view(ss@)),
            None => arrow_line(v@.subrange(lo as int, hi as int)) is None,
        },
{
    let ghost t = v@.subrange(lo as int, hi as int);
    let p: usize = scan_ident(v, lo, hi);
    proof {
        assert(t.take((p - lo) as int) =~= v@.subrange(lo as int, p as int));
        assert(t.skip((p - lo) as int) =~= v@.subrange(p as int, hi as int));
    }
    let (a, b) = trim_range(v, lo, p);
    if a == b {
        return None;
    }
    let from = range_string(v, a, b);
    if p == hi {
        let mut out: Vec<Statement> = Vec::new();
        out.push(Statement::Node(from));
        proof {
            assert(stmts_view(out@) =~= seq![SpecStatement::Node(v@.subrange(a as int, b as int))]);
        }
        return Some(out);
    }
    if hi - p >= 2 && v[p] == '-' && v[p + 1] == '>' {
        let mut ids = match chain_exec(v, p, hi) {
            Some(ids) => ids,
            None => return None,
        };
        let mut all: Vec<String> = Vec::new();
        all.push(from);
        let ghost ids_v = ids@;
        all.append(&mut ids);
        proof {
            assert(strings_view(all@) =~= seq![v@.subrange(a as int, b as int)] + strings_view(
                ids_v,
            ));
        }
        return Some(connections_exec(&all));
    }
    match single_arrow_exec(from, v, p, hi) {
        Some(c) => {
            let mut out: Vec<Statement> = Vec::new();
            out.push(c);
            proof {
                assert(stmts_view(out@) =~= seq![c@]);
            }
            Some(out)
        },
        None => None,
    }
}

/// The one-statement forms after the first name, in `v[lo..hi]`.
fn single_arrow_exec(from: String, v: &Vec<char>, lo: usize, hi: usize) -> (res: Option<Statement>)
    requires
        lo <= hi <= v.len(),
    ensures
        match res {
            Some(c) => single_arrow(from@, v@.subrange(lo as int, hi as int)) == Some(c@),
            None => single_arrow(from@, v@.subrange(lo as int, hi as int)) is None,
        },
{
    let ghost r = v@.subrange(lo as int, hi as int);
    if hi - lo >= 2 && v[lo] == '-' && v[lo + 1] == '[' {
        proof {
            assert(r.skip(2) =~= v@.subrange(lo + 2, hi as int));
        }
        let arrow = vec!['-', '>'];
        proof {
            assert(arrow@ =~= seq!['-', '>']);
        }
        labeled_exec(from, v, lo + 2, hi, ']', &arrow)
    } else if hi - lo >= 2 && v[lo] == '-' && v[lo + 1] == '(' {
        proof {
            assert(r.skip(2) =~= v@.subrange(lo + 2, hi as int));
        }
        let arrow = vec!['>'];
        proof {
            assert(arrow@ =~= seq!['>']);
        }
        labeled_exec(from, v, lo + 2, hi, ')', &arrow)
    } else if lo < hi && v[lo] == '>' {
        proof {
            assert(r.drop_first() =~= v@.subrange(lo + 1, hi as int));
        }
        sequence_exec(from, v, lo + 1, hi)
    } else {
        None
    }
}


/// A single statement as a one-element vector.
fn single(s: Statement) -> (v: Vec<Statement>)
    ensures
        stmts_view(v@) == seq![s@],
{
    let mut v: Vec<Statement> = Vec::new();
    v.push(s);
    proof {
        assert(stmts_view(v@) =~= seq![s@]);
    }
    v
}

/// A trimmed, non-blank line outside a block, in `v[lo..hi]`.
fn classify_exec(v: &Vec<char>, lo: usize, hi: usize) -> (res: Option<(Vec<Statement>, Mode)>)
    requires
        lo < hi <= v.len(),
    ensures
        match res {
            Some((ss, m)) => classify(v@.subrange(lo as int, hi as int)) == Some(
                (stmts_view(ss@), m),
            ),
            None => classify(v@.subrange(lo as int, hi as int)) is None,
        },
{
    let ghost t = v@.subrange(lo as int, hi as int);
    if v[lo] == '#' {
        proof {
            assert(t.drop_first() =~= v@.subrange(lo + 1, hi as int));
        }
        let text = trimmed_string(v, lo + 1, hi);
        return Some((single(Statement::Comment(text)), Mode::Top));
    }
    let mkw = vec!['m', 'i', 'n', 'd', 'm', 'a', 'p', ':'];
    proof {
        assert(mkw@ =~= mindmap_keyword());
    }
    if starts_with_at(v, lo, hi, &mkw) {
        proof {
            assert(t.skip(8) =~= v@.subrange(lo + 8, hi as int));
        }
        let (a, b) = trim_range(v, lo + 8, hi);
        if a == b {
            return None;
        }
        let root = range_string(v, a, b);
        let m = Statement::Mindmap { root, entries: Vec::new() };
        proof {
            assert(mindmap_entries_view(Seq::<MindmapEntry>::empty()) =~= Seq::<
                SpecMindmapEntry,
            >::empty());
        }
        return Some((single(m), Mode::Mindmap));
    }
    let tkw = vec!['t', 'i', 'm', 'e', 'l', 'i', 'n', 'e', ':'];
    proof {
        assert(tkw@ =~= timeline_keyword());
    }
    if starts_with_at(v, lo, hi, &tkw) {
        proof {
            assert(t.skip(9) =~= v@.subrange(lo + 9, hi as int));
        }
        let (a, b) = trim_range(v, lo + 9, hi);
        if a == b {
            return None;
        }
        let title = range_string(v, a, b);
        let m = Statement::Timeline { title, entries: Vec::new() };
        proof {
            assert(timeline_entries_view(Seq::<TimelineEntry>::empty()) =~= Seq::<
                SpecTimelineEntry,
            >::empty());
        }
        return Some((single(m), Mode::Timeline));
    }
    let r = if v[lo] == '[' {
        proof {
            assert(t.drop_first() =~= v@.subrange(lo + 1, hi as int));
        }
        match bracket_group_exec(v, lo + 1, hi) {
            Some(g) => Some(single(g)),
            None => None,
        }
    } else if v[lo] == '@' {
        proof {
            assert(t.drop_first() =~= v@.subrange(lo + 1, hi as int));
        }
        match header_group_exec(v, lo + 1, hi) {
            Some(g) => Some(single(g)),
            None => None,
        }
    } else {
        arrow_exec(v, lo, hi)
    };
    match r {
        Some(ss) => Some((ss, Mode::Top)),
        None => None,
    }
}

/// `- label` in `v[lo..hi]`.
fn mindmap_entry_exec(v: &Vec<char>, lo: usize, hi: usize) -> (res: Option<MindmapEntry>)
    requires
        lo <= hi <= v.len(),
    ensures
        match res {
            Some(e) => mindmap_entry(v@.subrange(lo as int, hi as int)) == Some(e@),
            None => mindmap_entry(v@.subrange(lo as int, hi as int)) is None,
        },
{
    let ghost t = v@.subrange(lo as int, hi as int);
    let d: usize = scan_dashes(v, lo, hi);
    proof {
        assert(t.skip((d - lo) as int) =~= v@.subrange(d as int, hi as int));
    }
    let (a, b) = trim_range(v, d, hi);
    if a == b {
        return None;
    }
    let label = range_string(v, a, b);
    Some(MindmapEntry { depth: d - lo, label })
}

/// The events of `a, b, c` in `v[lo..hi]`: trimmed, empty ones dropped.
pub(crate) fn events_exec(v: &Vec<char>, lo: usize, hi: usize) -> (res: Vec<String>)
    requires
        lo <= hi <= v.len(),
    ensures
        strings_view(res@) == nonempty_trimmed(split(v@.subrange(lo as int, hi as int), ',')),
{
    let ghost s = v@.subrange(lo as int, hi as int);
    let mut out: Vec<String> = Vec::new();
    let ghost mut done: Seq<Seq<char>> = seq![];
    let mut k: usize = lo;
    proof {
        assert(strings_view(out@) =~= nonempty_trimmed(done));
    }
    loop
        invariant
            lo <= k <= hi <= v.len(),
            s == v@.subrange(lo as int, hi as int),
            split(s, ',') == done + split(v@.subrange(k as int, hi as int), ','),
            strings_view(out@) == nonempty_trimmed(done),
        decreases hi - k,
    {
        let ghost cur = v@.subrange(k as int, hi as int);
        let found = find_in(v, k, hi, ',');
        let e: usize = match found {
            Some(e) => e,
            None => hi,
        };
        let ghost piece = v@.subrange(k as int, e as int);
        proof {
            if found is Some {
                assert(cur.take((e - k) as int) =~= piece);
                assert(cur.skip((e - k + 1) as int) =~= v@.subrange(e + 1, hi as int));
                assert(split(cur, ',') == seq![piece] + split(v@.subrange(e + 1, hi as int), ','));
            } else {
                assert(cur =~= piece);
                assert(split(cur, ',') == seq![piece]);
            }
        }
        let (a, b) = trim_range(v, k, e);
        let ghost old_out = out@;
        let ghost old_done = done;
        if a < b {
            out.push(range_string(v, a, b));
        }
        proof {
            done = done.push(piece);
            assert(done.drop_last() =~= old_done);
            if a < b {
                assert(strings_view(out@) =~= strings_view(old_out).push(trim(piece)));
            } else {
                assert(strings_view(out@) =~= strings_view(old_out));
            }
        }
        if e == hi {
            proof {
                assert(split(s, ',') =~= done);
            }
            return out;
        }
        proof {
            assert(split(s, ',') =~= done + split(v@.subrange(e + 1, hi as int), ','));
        }
        k = e + 1;
    }
}

/// `@ Section` or `- Period : events` in `v[lo..hi]`.
fn timeline_entry_exec(v: &Vec<char>, lo: usize, hi: usize) -> (res: Option<TimelineEntry>)
    requires
        lo < hi <= v.len(),
    ensures
        match res {
            Some(e) => timeline_entry(v@.subrange(lo as int, hi as int)) == Some(e@),
            None => timeline_entry(v@.subrange(lo as int, hi as int)) is None,
        },
{
    let ghost t = v@.subrange(lo as int, hi as int);
    proof {
        assert(t.drop_first() =~= v@.subrange(lo + 1, hi as int));
    }
    let (c0, c1) = trim_range(v, lo + 1, hi);
    if c0 == c1 {
        return None;
    }
    let ghost content = v@.subrange(c0 as int, c1 as int);
    proof {
        assert(strings_view(Seq::<String>::empty()) =~= Seq::<Seq<char>>::empty());
    }
    if v[lo] == '@' {
        let text = range_string(v, c0, c1);
        return Some(TimelineEntry { depth: 0, text, events: Vec::new() });
    }
    match find_in(v, c0, c1, ':') {
        Some(i) => {
            proof {
                assert(content.take((i - c0) as int) =~= v@.subrange(c0 as int, i as int));
                assert(content.skip((i - c0 + 1) as int) =~= v@.subrange(i + 1, c1 as int));
            }
            let text = trimmed_string(v, c0, i);
            let events = events_exec(v, i + 1, c1);
            Some(TimelineEntry { depth: 1, text, events })
        },
        None => {
            let text = range_string(v, c0, c1);
            Some(TimelineEntry { depth: 1, text, events: Vec::new() })
        },
    }
}


/// Processes the line `v[lo..hi]` in parser state (`stmts`, `mode`).
/// On failure, returns the bounds of the offending trimmed line.
fn step_exec(v: &Vec<char>, lo: usize, hi: usize, stmts: &mut Vec<Statement>, mode: &mut Mode) -> (res:
    Result<(), (usize, usize)>)
    requires
        lo <= hi <= v.len(),
    ensures
        match step(
            ParseState { stmts: stmts_view(old(stmts)@), mode: *old(mode) },
            v@.subrange(lo as int, hi as int),
        ) {
            Ok(st) => res is Ok && stmts_view(final(stmts)@) == st.stmts && *final(mode) == st.mode,
            Err(t) => match res {
                Err((a, b)) => a <= b <= v.len() && v@.subrange(a as int, b as int) == t,
                Ok(_) => false,
            },
        },
{
    let (a, b) = trim_range(v, lo, hi);
    if a == b {
        return Ok(());
    }
    let in_mindmap = match *mode {
        Mode::Mindmap => true,
        _ => false,
    };
    let in_timeline = match *mode {
        Mode::Timeline => true,
        _ => false,
    };
    if in_mindmap && v[a] == '-' {
        let e = match mindmap_entry_exec(v, a, b) {
            Some(e) => e,
            None => return Err((a, b)),
        };
        let ghost before = stmts_view(stmts@);
        let last = stmts.pop();
        match last {
            Some(Statement::Mindmap { root, mut entries }) => {
                let ghost old_entries = entries@;
                entries.push(e);
                stmts.push(Statement::Mindmap { root, entries });
                proof {
                    assert(mindmap_entries_view(entries@) =~= mindmap_entries_view(old_entries).push(
                        e@,
                    ));
                    assert(stmts_view(stmts@) =~= before.update(
                        before.len() - 1,
                        SpecStatement::Mindmap {
                            root: root@,
                            entries: mindmap_entries_view(old_entries).push(e@),
                        },
                    ));
                }
                Ok(())
            },
            _ => Err((a, b)),
        }
    } else if in_timeline && (v[a] == '-' || v[a] == '@') {
        let e = match timeline_entry_exec(v, a, b) {
            Some(e) => e,
            None => return Err((a, b)),
        };
        let ghost before = stmts_view(stmts@);
        let last = stmts.pop();
        match last {
            Some(Statement::Timeline { title, mut entries }) => {
                let ghost old_entries = entries@;
                entries.push(e);
                stmts.push(Statement::Timeline { title, entries });
                proof {
                    assert(timeline_entries_view(entries@) =~= timeline_entries_view(
                        old_entries,
                    ).push(e@));
                    assert(stmts_view(stmts@) =~= before.update(
                        before.len() - 1,
                        SpecStatement::Timeline {
                            title: title@,
                            entries: timeline_entries_view(old_entries).push(e@),
                        },
                    ));
                }
                Ok(())
            },
            _ => Err((a, b)),
        }
    } else {
        match classify_exec(v, a, b) {
            Some((mut ss, m)) => {
                let ghost before = stmts_view(stmts@);
                let ghost added = stmts_view(ss@);
                stmts.append(&mut ss);
                *mode = m;
                proof {
                    assert(stmts_view(stmts@) =~= before + added);
                }
                Ok(())
            },
            None => Err((a, b)),
        }
    }
}

/// The message of a parse error whose first invalid (trimmed) line is `t`.
pub open spec fn error_message(t: Seq<char>) -> Seq<char> {
    "unrecognised statement: "@ + t
}

/// Parse DSL source into a list of statements.
///
/// Succeeds exactly when every line of `input` is valid DSL; otherwise the
/// error names the first line that is not.
pub fn parse(input: &str) -> (r: Result<Vec<Statement>, String>)
    ensures
        match spec_parse(input@) {
            Ok(ss) => match r {
                Ok(v) => stmts_view(v@) == ss,
                Err(_) => false,
            },
            Err(t) => match r {
                Err(e) => e@ == error_message(t),
                Ok(_) => false,
            },
        },
{
    let v = str_chars(input);
    let n: usize = v.len();
    let mut stmts: Vec<Statement> = Vec::new();
    let mut mode = Mode::Top;
    let mut i: usize = 0;
    proof {
        assert(stmts_view(stmts@) =~= Seq::<SpecStatement>::empty());
        assert(v@.subrange(0, n as int) =~= v@);
    }
    loop
        invariant
            i <= n,
            n == v.len(),
            v@ == input@,
            run(initial_state(), split(v@, '\n')) == run(
                ParseState { stmts: stmts_view(stmts@), mode },
                split(v@.subrange(i as int, n as int), '\n'),
            ),
        decreases n - i,
    {
        let ghost cur = v@.subrange(i as int, n as int);
        let ghost st = ParseState { stmts: stmts_view(stmts@), mode };
        let found = find_in(&v, i, n, '\n');
        let j: usize = match found {
            Some(j) => j,
            None => n,
        };
        let ghost line = v@.subrange(i as int, j as int);
        proof {
            if found is Some {
                assert(cur.take((j - i) as int) =~= line);
                assert(cur.skip((j - i + 1) as int) =~= v@.subrange(j + 1, n as int));
                assert(split(cur, '\n') == seq![line] + split(v@.subrange(j + 1, n as int), '\n'));
                assert((seq![line] + split(v@.subrange(j + 1, n as int), '\n')).drop_first()
                    =~= split(v@.subrange(j + 1, n as int), '\n'));
            } else {
                assert(cur =~= line);
                assert(split(cur, '\n') == seq![line]);
                assert(seq![line].drop_first() =~= Seq::<Seq<char>>::empty());
            }
        }
        match step_exec(&v, i, j, &mut stmts, &mut mode) {
            Ok(()) => {},
            Err((a, b)) => {
                let mut msg = String::new();
                msg.append("unrecognised statement: ");
                crate::text::push_range(&mut msg, &v, a, b);
                proof {
                    assert(msg@ =~= error_message(v@.subrange(a as int, b as int)));
                }
                return Err(msg);
            },
        }
        if j == n {
            proof {
                let next = ParseState { stmts: stmts_view(stmts@), mode };
                assert(run(next, Seq::<Seq<char>>::empty()) == Ok::<ParseState, Seq<char>>(next));
                assert(run(st, seq![line]) == run(next, seq![line].drop_first()));
            }
            return Ok(stmts);
        }
        i = j + 1;
    }
}

} // verus!
