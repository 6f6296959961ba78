//! The diamem DSL, line by line, as spec functions over character sequences.
//!
//! A document is split at `\n` into lines. Each line is trimmed; blank lines
//! are skipped. A `mindmap:` or `timeline:` header opens a block whose entry
//! lines (`-`-prefixed for a mindmap; `-` or `@` prefixed for a timeline)
//! follow it; any other non-blank line closes the block.
use vstd::prelude::*;
use crate::text::{
    dash_len, find, has_prefix, ident_len, is_ident, lemma_prefix_count_props, ident_pred, split,
    trim, trim_start,
};

verus! {

pub struct SpecMindmapEntry {
    pub depth: nat,
    pub label: Seq<char>,
}

pub struct SpecTimelineEntry {
    pub depth: nat,
    pub text: Seq<char>,
    pub events: Seq<Seq<char>>,
}

pub enum SpecStatement {
    Comment(Seq<char>),
    Connection { from: Seq<char>, to: Seq<char> },
    LabeledConnection { from: Seq<char>, to: Seq<char>, label: Seq<char> },
    Sequence { from: Seq<char>, to: Seq<char>, message: Seq<char> },
    Grouping { name: Seq<char>, nodes: Seq<Seq<char>> },
    Mindmap { root: Seq<char>, entries: Seq<SpecMindmapEntry> },
    Timeline { title: Seq<char>, entries: Seq<SpecTimelineEntry> },
    Node(Seq<char>),
}

/// Which block, if any, the previous non-blank line opened or continued.
pub enum Mode {
    Top,
    Mindmap,
    Timeline,
}

pub struct ParseState {
    pub stmts: Seq<SpecStatement>,
    pub mode: Mode,
}

pub open spec fn mindmap_keyword() -> Seq<char> {
    seq!['m', 'i', 'n', 'd', 'm', 'a', 'p', ':']
}

pub open spec fn timeline_keyword() -> Seq<char> {
    seq!['t', 'i', 'm', 'e', 'l', 'i', 'n', 'e', ':']
}

pub open spec fn trim_each(items: Seq<Seq<char>>) -> Seq<Seq<char>> {
    items.map_values(|x: Seq<char>| trim(x))
}

/// `A, B, C`: one or more names separated by commas.
pub open spec fn node_list(s: Seq<char>) -> Option<Seq<Seq<char>>> {
    let items = split(s, ',');
    if forall|i: int| 0 <= i < items.len() ==> is_ident(#[trigger] items[i]) {
        Some(trim_each(items))
    } else {
        None
    }
}

/// The part of `[Name] { A, B }` after the `[`.
pub open spec fn bracket_group(r: Seq<char>) -> Option<SpecStatement> {
    match find(r, ']') {
        None => None,
        Some(e) => {
            let name = r.take(e as int);
            let after = trim_start(r.skip((e + 1) as int));
            if !is_ident(name) || after.len() == 0 || after[0] != '{' {
                None
            } else {
                let inner = after.drop_first();
                match find(inner, '}') {
                    None => None,
                    Some(f) => {
                        if inner.len() != f + 1 {
                            None
                        } else {
                            match node_list(inner.take(f as int)) {
                                Some(ns) => Some(SpecStatement::Grouping { name: trim(name), nodes: ns }),
                                None => None,
                            }
                        }
                    },
                }
            }
        },
    }
}

/// The part of `@ Name: A, B` after the `@`.
pub open spec fn header_group(r: Seq<char>) -> Option<SpecStatement> {
    match find(r, ':') {
        None => None,
        Some(e) => {
            let name = r.take(e as int);
            if !is_ident(name) {
                None
            } else {
                match node_list(r.skip((e + 1) as int)) {
                    Some(ns) => Some(SpecStatement::Grouping { name: trim(name), nodes: ns }),
                    None => None,
                }
            }
        },
    }
}

/// The part of `A -[label]-> B` (or `A -(label)> B`) after the opening `-[`
/// (or `-(`): the label up to `close`, then `arrow`, then the target name.
pub open spec fn labeled(from: Seq<char>, r: Seq<char>, close: char, arrow: Seq<char>) -> Option<
    SpecStatement,
> {
    match find(r, close) {
        None => None,
        Some(e) => {
            let label = trim(r.take(e as int));
            let after = r.skip((e + 1) as int);
            if label.len() == 0 || !has_prefix(after, arrow) || !is_ident(after.skip(arrow.len() as int)) {
                None
            } else {
                Some(
                    SpecStatement::LabeledConnection {
                        from,
                        to: trim(after.skip(arrow.len() as int)),
                        label,
                    },
                )
            }
        },
    }
}

/// The part of `A > B : message` after the `>`.
pub open spec fn sequence(from: Seq<char>, r: Seq<char>) -> Option<SpecStatement> {
    let q = ident_len(r);
    let to = trim(r.take(q as int));
    let after = r.skip(q as int);
    if to.len() == 0 || after.len() == 0 || after[0] != ':' {
        None
    } else {
        let message = trim(after.drop_first());
        if message.len() == 0 {
            None
        } else {
            Some(SpecStatement::Sequence { from, to, message })
        }
    }
}

pub open spec fn starts_arrow(r: Seq<char>, second: char) -> bool {
    r.len() >= 2 && r[0] == '-' && r[1] == second
}

/// The names of `-> B -> C ...`.
pub open spec fn chain_ids(r: Seq<char>) -> Option<Seq<Seq<char>>>
    decreases r.len(),
{
    if starts_arrow(r, '>') {
        let rest = r.skip(2);
        let q = ident_len(rest);
        let id = trim(rest.take(q as int));
        if id.len() == 0 {
            None
        } else if q == rest.len() {
            Some(seq![id])
        } else {
            proof {
                lemma_prefix_count_props(rest, ident_pred());
            }
            match chain_ids(rest.skip(q as int)) {
                Some(ids) => Some(seq![id] + ids),
                None => None,
            }
        }
    } else {
        None
    }
}

/// One connection per consecutive pair of names.
pub open spec fn connections(ids: Seq<Seq<char>>) -> Seq<SpecStatement> {
    Seq::new(
        (ids.len() - 1) as nat,
        |i: int| SpecStatement::Connection { from: ids[i], to: ids[i + 1] },
    )
}

pub open spec fn one(s: Option<SpecStatement>) -> Option<Seq<SpecStatement>> {
    match s {
        Some(x) => Some(seq![x]),
        None => None,
    }
}

/// The rest of a line after its first name `from`, for the one-statement
/// forms: `-[label]-> B`, `-(label)> B` and `> B : message`.
pub open spec fn single_arrow(from: Seq<char>, r: Seq<char>) -> Option<SpecStatement> {
    if starts_arrow(r, '[') {
        labeled(from, r.skip(2), ']', seq!['-', '>'])
    } else if starts_arrow(r, '(') {
        labeled(from, r.skip(2), ')', seq!['>'])
    } else if r.len() > 0 && r[0] == '>' {
        sequence(from, r.drop_first())
    } else {
        None
    }
}

/// A trimmed line that starts with a name: a node, a chain, a labeled
/// connection or a sequence message.
pub open spec fn arrow_line(t: Seq<char>) -> Option<Seq<SpecStatement>> {
    let p = ident_len(t);
    let from = trim(t.take(p as int));
    let r = t.skip(p as int);
    if from.len() == 0 {
        None
    } else if r.len() == 0 {
        Some(seq![SpecStatement::Node(from)])
    } else if starts_arrow(r, '>') {
        match chain_ids(r) {
            Some(ids) => Some(connections(seq![from] + ids)),
            None => None,
        }
    } else {
        one(single_arrow(from, r))
    }
}

/// What a trimmed, non-blank line outside a block stands for, and the mode it
/// leaves the parser in.
pub open spec fn classify(t: Seq<char>) -> Option<(Seq<SpecStatement>, Mode)> {
    if t[0] == '#' {
        Some((seq![SpecStatement::Comment(trim(t.drop_first()))], Mode::Top))
    } else if has_prefix(t, mindmap_keyword()) {
        let root = trim(t.skip(8));
        if root.len() == 0 {
            None
        } else {
            Some((seq![SpecStatement::Mindmap { root, entries: seq![] }], Mode::Mindmap))
        }
    } else if has_prefix(t, timeline_keyword()) {
        let title = trim(t.skip(9));
        if title.len() == 0 {
            None
        } else {
            Some((seq![SpecStatement::Timeline { title, entries: seq![] }], Mode::Timeline))
        }
    } else {
        let r = if t[0] == '[' {
            one(bracket_group(t.drop_first()))
        } else if t[0] == '@' {
            one(header_group(t.drop_first()))
        } else {
            arrow_line(t)
        };
        match r {
            Some(ss) => Some((ss, Mode::Top)),
            None => None,
        }
    }
}

/// `- label`, `-- label`, ...: depth is the number of dashes.
pub open spec fn mindmap_entry(t: Seq<char>) -> Option<SpecMindmapEntry> {
    let d = dash_len(t);
    let label = trim(t.skip(d as int));
    if label.len() == 0 {
        None
    } else {
        Some(SpecMindmapEntry { depth: d, label })
    }
}

/// Trimmed pieces that are not empty, in order.
pub open spec fn nonempty_trimmed(parts: Seq<Seq<char>>) -> Seq<Seq<char>>
    decreases parts.len(),
{
    if parts.len() == 0 {
        seq![]
    } else {
        let rest = nonempty_trimmed(parts.drop_last());
        let x = trim(parts.last());
        if x.len() > 0 {
            rest.push(x)
        } else {
            rest
        }
    }
}

/// `@ Section`, `- Period`, or `- Period : event, event`.
pub open spec fn timeline_entry(t: Seq<char>) -> Option<SpecTimelineEntry> {
    let content = trim(t.drop_first());
    if content.len() == 0 {
        None
    } else if t[0] == '@' {
        Some(SpecTimelineEntry { depth: 0, text: content, events: seq![] })
    } else {
        match find(content, ':') {
            Some(i) => Some(
                SpecTimelineEntry {
                    depth: 1,
                    text: trim(content.take(i as int)),
                    events: nonempty_trimmed(split(content.skip((i + 1) as int), ',')),
                },
            ),
            None => Some(SpecTimelineEntry { depth: 1, text: content, events: seq![] }),
        }
    }
}

pub open spec fn add_mindmap_entry(st: ParseState, e: SpecMindmapEntry, t: Seq<char>) -> Result<
    ParseState,
    Seq<char>,
> {
    if st.stmts.len() == 0 {
        Err(t)
    } else {
        match st.stmts.last() {
            SpecStatement::Mindmap { root, entries } => Ok(
                ParseState {
                    stmts: st.stmts.update(
                        st.stmts.len() - 1,
                        SpecStatement::Mindmap { root, entries: entries.push(e) },
                    ),
                    mode: st.mode,
                },
            ),
            _ => Err(t),
        }
    }
}

pub open spec fn add_timeline_entry(st: ParseState, e: SpecTimelineEntry, t: Seq<char>) -> Result<
    ParseState,
    Seq<char>,
> {
    if st.stmts.len() == 0 {
        Err(t)
    } else {
        match st.stmts.last() {
            SpecStatement::Timeline { title, entries } => Ok(
                ParseState {
                    stmts: st.stmts.update(
                        st.stmts.len() - 1,
                        SpecStatement::Timeline { title, entries: entries.push(e) },
                    ),
                    mode: st.mode,
                },
            ),
            _ => Err(t),
        }
    }
}

/// One line of the document. An error carries the offending trimmed line.
pub open spec fn step(st: ParseState, line: Seq<char>) -> Result<ParseState, Seq<char>> {
    let t = trim(line);
    if t.len() == 0 {
        Ok(st)
    } else if st.mode is Mindmap && t[0] == '-' {
        match mindmap_entry(t) {
            Some(e) => add_mindmap_entry(st, e, t),
            None => Err(t),
        }
    } else if st.mode is Timeline && (t[0] == '-' || t[0] == '@') {
        match timeline_entry(t) {
            Some(e) => add_timeline_entry(st, e, t),
            None => Err(t),
        }
    } else {
        match classify(t) {
            Some((ss, m)) => Ok(ParseState { stmts: st.stmts + ss, mode: m }),
            None => Err(t),
        }
    }
}

/// The lines `ls`, one after the other, from state `st`.
pub open spec fn run(st: ParseState, ls: Seq<Seq<char>>) -> Result<ParseState, Seq<char>>
    decreases ls.len(),
{
    if ls.len() == 0 {
        Ok(st)
    } else {
        match step(st, ls[0]) {
            Ok(next) => run(next, ls.drop_first()),
            Err(t) => Err(t),
        }
    }
}

pub open spec fn initial_state() -> ParseState {
    ParseState { stmts: seq![], mode: Mode::Top }
}

/// The statements of a whole document, or the first line that is not valid DSL.
pub open spec fn spec_parse(s: Seq<char>) -> Result<Seq<SpecStatement>, Seq<char>> {
    match run(initial_state(), split(s, '\n')) {
        Ok(st) => Ok(st.stmts),
        Err(t) => Err(t),
    }
}

} // verus!
