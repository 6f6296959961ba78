//! DSL → Mermaid code generation.
use vstd::prelude::*;
use crate::parser::{self, error_message, stmts_view, strings_view, MindmapEntry, Statement};
use crate::parser::grammar::{spec_parse, SpecMindmapEntry, SpecStatement};
use crate::parser::laws::{
    all_trimmed_nonempty, lemma_parse_line, lemma_parse_wf, one_line, stmt_wf, stmts_wf,
};
use crate::parser::grammar::{initial_state, step, ParseState};
use crate::text::{contains_seq, is_ws, lemma_trim, lemma_trim_id, trim};
use crate::text::{push_char, spaces};

verus! {

// ── What the generated Mermaid text is ──────────────────────────────────────

/// `        node\n` for each member of a subgraph.
pub open spec fn group_members(nodes: Seq<Seq<char>>) -> Seq<char>
    decreases nodes.len(),
{
    if nodes.len() == 0 {
        seq![]
    } else {
        group_members(nodes.drop_last()) + "        "@ + nodes.last() + "\n"@
    }
}

/// The `graph TD` lines of one statement (none for comments and blocks).
pub open spec fn graph_line(s: SpecStatement) -> Seq<char> {
    match s {
        SpecStatement::Connection { from, to } => "    "@ + from + " --> "@ + to + "\n"@,
        SpecStatement::LabeledConnection { from, to, label } => "    "@ + from + " -->|"@ + label
            + "| "@ + to + "\n"@,
        SpecStatement::Sequence { from, to, message } => "    "@ + from + " ->> "@ + to + ": "@
            + message + "\n"@,
        SpecStatement::Grouping { name, nodes } => "    subgraph "@ + name + "\n"@ + group_members(
            nodes,
        ) + "    end\n"@,
        SpecStatement::Node(id) => "    "@ + id + "\n"@,
        _ => seq![],
    }
}

/// The `graph TD` lines of all statements, in order.
pub open spec fn graph_body(ss: Seq<SpecStatement>) -> Seq<char>
    decreases ss.len(),
{
    if ss.len() == 0 {
        seq![]
    } else {
        graph_body(ss.drop_last()) + graph_line(ss.last())
    }
}

pub open spec fn graph_diagram(ss: Seq<SpecStatement>) -> Seq<char> {
    "graph TD\n"@ + graph_body(ss)
}

/// A mindmap entry of depth `d` is indented by `2 * (d + 1)` blanks.
pub open spec fn mindmap_lines(entries: Seq<SpecMindmapEntry>) -> Seq<char>
    decreases entries.len(),
{
    if entries.len() == 0 {
        seq![]
    } else {
        mindmap_lines(entries.drop_last()) + spaces(2 * (entries.last().depth + 1)) + entries.last().label
            + "\n"@
    }
}

/// The root (indented by two blanks) and entries of a mindmap statement;
/// nothing for any other statement.
pub open spec fn mindmap_block(s: SpecStatement) -> Seq<char> {
    match s {
        SpecStatement::Mindmap { root, entries } => "  "@ + root + "\n"@ + mindmap_lines(entries),
        _ => seq![],
    }
}

pub open spec fn mindmap_body(ss: Seq<SpecStatement>) -> Seq<char>
    decreases ss.len(),
{
    if ss.len() == 0 {
        seq![]
    } else {
        mindmap_body(ss.drop_last()) + mindmap_block(ss.last())
    }
}

pub open spec fn mindmap_diagram(ss: Seq<SpecStatement>) -> Seq<char> {
    "mindmap\n"@ + mindmap_body(ss)
}

pub open spec fn has_mindmap(ss: Seq<SpecStatement>) -> bool {
    exists|i: int| 0 <= i < ss.len() && #[trigger] ss[i] is Mindmap
}

/// The Mermaid text for a list of statements: a `mindmap` diagram if any
/// statement is a mindmap, otherwise a `graph TD` diagram.
pub open spec fn spec_mermaid(ss: Seq<SpecStatement>) -> Seq<char> {
    if has_mindmap(ss) {
        mindmap_diagram(ss)
    } else {
        graph_diagram(ss)
    }
}

/// The non-empty comment texts, in document order.
pub open spec fn comments_of(ss: Seq<SpecStatement>) -> Seq<Seq<char>>
    decreases ss.len(),
{
    if ss.len() == 0 {
        seq![]
    } else {
        let rest = comments_of(ss.drop_last());
        match ss.last() {
            SpecStatement::Comment(t) => if t.len() > 0 {
                rest.push(t)
            } else {
                rest
            },
            _ => rest,
        }
    }
}

// ── Laws ────────────────────────────────────────────────────────────────────

/// The `graph TD` text of a concatenation of statement lists is the
/// concatenation of their texts: statement order is kept.
pub proof fn lemma_graph_body_concat(a: Seq<SpecStatement>, b: Seq<SpecStatement>)
    ensures
        graph_body(a + b) == graph_body(a) + graph_body(b),
    decreases b.len(),
{
    if b.len() == 0 {
        assert(a + b =~= a);
        assert(graph_body(b) =~= Seq::<char>::empty());
        assert(graph_body(a) + graph_body(b) =~= graph_body(a));
    } else {
        lemma_graph_body_concat(a, b.drop_last());
        assert((a + b).drop_last() =~= a + b.drop_last());
        assert((a + b).last() == b.last());
        assert(graph_body(a + b) =~= graph_body(a) + graph_body(b));
    }
}

/// The `mindmap` text of a concatenation of statement lists is the
/// concatenation of their texts: mindmap order is kept.
pub proof fn lemma_mindmap_body_concat(a: Seq<SpecStatement>, b: Seq<SpecStatement>)
    ensures
        mindmap_body(a + b) == mindmap_body(a) + mindmap_body(b),
    decreases b.len(),
{
    if b.len() == 0 {
        assert(a + b =~= a);
        assert(mindmap_body(b) =~= Seq::<char>::empty());
        assert(mindmap_body(a) + mindmap_body(b) =~= mindmap_body(a));
    } else {
        lemma_mindmap_body_concat(a, b.drop_last());
        assert((a + b).drop_last() =~= a + b.drop_last());
        assert((a + b).last() == b.last());
        assert(mindmap_body(a + b) =~= mindmap_body(a) + mindmap_body(b));
    }
}

/// Comments never reach the Mermaid output: inserting a comment anywhere in a
/// statement list leaves the generated text unchanged.
pub proof fn lemma_comments_invisible(ss: Seq<SpecStatement>, i: int, text: Seq<char>)
    requires
        0 <= i <= ss.len(),
    ensures
        spec_mermaid(ss.insert(i, SpecStatement::Comment(text))) == spec_mermaid(ss),
{
    let c = SpecStatement::Comment(text);
    let a = ss.take(i);
    let b = ss.skip(i);
    let one_c = seq![c];
    assert(ss =~= a + b);
    assert(ss.insert(i, c) =~= a + one_c + b);
    assert(one_c.drop_last() =~= Seq::<SpecStatement>::empty());
    assert(one_c.last() == c);
    assert(graph_body(one_c) =~= graph_body(Seq::<SpecStatement>::empty()) + graph_line(c));
    assert(mindmap_body(one_c) =~= mindmap_body(Seq::<SpecStatement>::empty()) + mindmap_block(c));
    lemma_graph_body_concat(a, one_c);
    lemma_graph_body_concat(a + one_c, b);
    lemma_graph_body_concat(a, b);
    lemma_mindmap_body_concat(a, one_c);
    lemma_mindmap_body_concat(a + one_c, b);
    lemma_mindmap_body_concat(a, b);
    assert(graph_body(a + one_c) =~= graph_body(a));
    assert(mindmap_body(a + one_c) =~= mindmap_body(a));
    let t = ss.insert(i, c);
    if has_mindmap(ss) {
        let k = choose|k: int| 0 <= k < ss.len() && #[trigger] ss[k] is Mindmap;
        if k < i {
            assert(t[k] == ss[k]);
        } else {
            assert(t[k + 1] == ss[k]);
        }
    }
    if has_mindmap(t) {
        let k = choose|k: int| 0 <= k < t.len() && #[trigger] t[k] is Mindmap;
        if k < i {
            assert(ss[k] == t[k]);
        } else {
            assert(k != i);
            assert(ss[k - 1] == t[k]);
        }
    }
}

/// Comments are collected in document order: the comments of a
/// concatenation are those of each part, one after the other.
pub proof fn lemma_comments_concat(a: Seq<SpecStatement>, b: Seq<SpecStatement>)
    ensures
        comments_of(a + b) == comments_of(a) + comments_of(b),
    decreases b.len(),
{
    if b.len() == 0 {
        assert(a + b =~= a);
        assert(comments_of(a) + comments_of(b) =~= comments_of(a));
    } else {
        lemma_comments_concat(a, b.drop_last());
        assert((a + b).drop_last() =~= a + b.drop_last());
        assert((a + b).last() == b.last());
        match b.last() {
            SpecStatement::Comment(t) => {
                if t.len() > 0 {
                    assert(comments_of(a + b) =~= comments_of(a) + comments_of(b));
                }
            },
            _ => {},
        }
    }
}

// ── Code generation ─────────────────────────────────────────────────────────

fn push_str(out: &mut String, s: &str)
    ensures
        final(out)@ == old(out)@ + s@,
{
    out.append(s);
}

/// Appends the subgraph member lines of `nodes`.
fn push_members(out: &mut String, nodes: &Vec<String>)
    ensures
        final(out)@ == old(out)@ + group_members(strings_view(nodes@)),
{
    let mut i: usize = 0;
    while i < nodes.len()
        invariant
            i <= nodes.len(),
            out@ == old(out)@ + group_members(strings_view(nodes@).take(i as int)),
        decreases nodes.len() - i,
    {
        let ghost before = out@;
        push_str(out, "        ");
        push_str(out, nodes[i].as_str());
        push_str(out, "\n");
        proof {
            let sv = strings_view(nodes@);
            assert(sv.take(i + 1).drop_last() =~= sv.take(i as int));
            assert(sv.take(i + 1).last() == nodes@[i as int]@);
            assert(out@ =~= old(out)@ + group_members(sv.take(i + 1)));
        }
        i += 1;
    }
    proof {
        assert(strings_view(nodes@).take(nodes.len() as int) =~= strings_view(nodes@));
    }
}

/// Appends the `graph TD` lines of one statement.
fn push_graph_line(out: &mut String, s: &Statement)
    ensures
        final(out)@ == old(out)@ + graph_line(s@),
{
    match s {
        Statement::Connection { from, to } => {
            push_str(out, "    ");
            push_str(out, from.as_str());
            push_str(out, " --> ");
            push_str(out, to.as_str());
            push_str(out, "\n");
            assert(out@ =~= old(out)@ + graph_line(s@));
        },
        Statement::LabeledConnection { from, to, label } => {
            push_str(out, "    ");
            push_str(out, from.as_str());
            push_str(out, " -->|");
            push_str(out, label.as_str());
            push_str(out, "| ");
            push_str(out, to.as_str());
            push_str(out, "\n");
            assert(out@ =~= old(out)@ + graph_line(s@));
        },
        Statement::Sequence { from, to, message } => {
            push_str(out, "    ");
            push_str(out, from.as_str());
            push_str(out, " ->> ");
            push_str(out, to.as_str());
            push_str(out, ": ");
            push_str(out, message.as_str());
            push_str(out, "\n");
            assert(out@ =~= old(out)@ + graph_line(s@));
        },
        Statement::Grouping { name, nodes } => {
            push_str(out, "    subgraph ");
            push_str(out, name.as_str());
            push_str(out, "\n");
            push_members(out, nodes);
            push_str(out, "    end\n");
            assert(out@ =~= old(out)@ + graph_line(s@));
        },
        Statement::Node(id) => {
            push_str(out, "    ");
            push_str(out, id.as_str());
            push_str(out, "\n");
            assert(out@ =~= old(out)@ + graph_line(s@));
        },
        _ => {
            assert(out@ =~= old(out)@ + graph_line(s@));
        },
    }
}

/// Build a `graph TD` Mermaid diagram.
pub fn build_graph(statements: &[Statement]) -> (out: String)
    ensures
        out@ == graph_diagram(stmts_view(statements@)),
{
    let mut out = String::new();
    push_str(&mut out, "graph TD\n");
    let mut i: usize = 0;
    while i < statements.len()
        invariant
            i <= statements.len(),
            out@ == "graph TD\n"@ + graph_body(stmts_view(statements@).take(i as int)),
        decreases statements.len() - i,
    {
        let ghost before = out@;
        push_graph_line(&mut out, &statements[i]);
        proof {
            let sv = stmts_view(statements@);
            assert(sv.take(i + 1).drop_last() =~= sv.take(i as int));
            assert(sv.take(i + 1).last() == statements@[i as int]@);
            assert(out@ =~= "graph TD\n"@ + graph_body(sv.take(i + 1)));
        }
        i += 1;
    }
    proof {
        assert(stmts_view(statements@).take(statements.len() as int) =~= stmts_view(
            statements@,
        ));
    }
    out
}

/// Appends `2 * (depth + 1)` blanks.
fn push_indent(out: &mut String, depth: usize)
    ensures
        final(out)@ == old(out)@ + spaces((2 * (depth + 1)) as nat),
{
    push_char(out, ' ');
    push_char(out, ' ');
    let mut k: usize = 0;
    while k < depth
        invariant
            k <= depth,
            out@ == old(out)@ + spaces((2 * (k + 1)) as nat),
        decreases depth - k,
    {
        push_char(out, ' ');
        push_char(out, ' ');
        k += 1;
        assert(out@ =~= old(out)@ + spaces((2 * (k + 1)) as nat));
    }
}

/// Appends the lines of one mindmap statement.
fn push_mindmap_block(out: &mut String, s: &Statement)
    ensures
        final(out)@ == old(out)@ + mindmap_block(s@),
{
    match s {
        Statement::Mindmap { root, entries } => {
            push_str(out, "  ");
            push_str(out, root.as_str());
            push_str(out, "\n");
            let ghost head = out@;
            let mut i: usize = 0;
            while i < entries.len()
                invariant
                    i <= entries.len(),
                    out@ == head + mindmap_lines(
                        crate::parser::mindmap_entries_view(entries@).take(i as int),
                    ),
                decreases entries.len() - i,
            {
                let e: &MindmapEntry = &entries[i];
                push_indent(out, e.depth);
                push_str(out, e.label.as_str());
                push_str(out, "\n");
                proof {
                    let ev = crate::parser::mindmap_entries_view(entries@);
                    assert(ev.take(i + 1).drop_last() =~= ev.take(i as int));
                    assert(ev.take(i + 1).last() == entries@[i as int]@);
                    assert(out@ =~= head + mindmap_lines(ev.take(i + 1)));
                }
                i += 1;
            }
            proof {
                let ev = crate::parser::mindmap_entries_view(entries@);
                assert(ev.take(entries.len() as int) =~= ev);
                assert(out@ =~= old(out)@ + mindmap_block(s@));
            }
        },
        _ => {
            assert(out@ =~= old(out)@ + mindmap_block(s@));
        },
    }
}

/// Build a `mindmap` Mermaid diagram.
///
/// Dash-count in each entry maps to indentation depth:
/// root → 2 spaces, depth 1 (`-`) → 4 spaces, depth 2 (`--`) → 6, etc.
/// Statements other than mindmaps are skipped.
pub fn build_mindmap(statements: &[Statement]) -> (out: String)
    ensures
        out@ == mindmap_diagram(stmts_view(statements@)),
{
    let mut out = String::new();
    push_str(&mut out, "mindmap\n");
    let mut i: usize = 0;
    while i < statements.len()
        invariant
            i <= statements.len(),
            out@ == "mindmap\n"@ + mindmap_body(stmts_view(statements@).take(i as int)),
        decreases statements.len() - i,
    {
        push_mindmap_block(&mut out, &statements[i]);
        proof {
            let sv = stmts_view(statements@);
            assert(sv.take(i + 1).drop_last() =~= sv.take(i as int));
            assert(sv.take(i + 1).last() == statements@[i as int]@);
            assert(out@ =~= "mindmap\n"@ + mindmap_body(sv.take(i + 1)));
        }
        i += 1;
    }
    proof {
        assert(stmts_view(statements@).take(statements.len() as int) =~= stmts_view(
            statements@,
        ));
    }
    out
}

/// Whether any statement is a mindmap.
fn any_mindmap(statements: &[Statement]) -> (b: bool)
    ensures
        b == has_mindmap(stmts_view(statements@)),
{
    let mut i: usize = 0;
    while i < statements.len()
        invariant
            i <= statements.len(),
            forall|k: int| 0 <= k < i ==> !(#[trigger] stmts_view(statements@)[k] is Mindmap),
        decreases statements.len() - i,
    {
        if let Statement::Mindmap { .. } = &statements[i] {
            proof {
                assert(stmts_view(statements@)[i as int] is Mindmap);
            }
            return true;
        }
        proof {
            assert(!(stmts_view(statements@)[i as int] is Mindmap));
        }
        i += 1;
    }
    false
}

/// Build Mermaid syntax from parsed statements.
///
/// If any statement is a `Mindmap`, the output uses Mermaid's `mindmap`
/// diagram type.  Otherwise it falls back to `graph TD`.
pub fn build_mermaid(statements: &[Statement]) -> (out: String)
    ensures
        out@ == spec_mermaid(stmts_view(statements@)),
{
    if any_mindmap(statements) {
        build_mindmap(statements)
    } else {
        build_graph(statements)
    }
}

/// Collect non-empty comment text from parsed statements, in document order.
pub fn extract_comments(statements: &[Statement]) -> (out: Vec<String>)
    ensures
        strings_view(out@) == comments_of(stmts_view(statements@)),
{
    let mut out: Vec<String> = Vec::new();
    let mut i: usize = 0;
    while i < statements.len()
        invariant
            i <= statements.len(),
            strings_view(out@) == comments_of(stmts_view(statements@).take(i as int)),
        decreases statements.len() - i,
    {
        let ghost before = out@;
        if let Statement::Comment(text) = &statements[i] {
            if !text.as_str().is_empty() {
                out.push(text.clone());
            }
        }
        proof {
            let sv = stmts_view(statements@);
            assert(sv.take(i + 1).drop_last() =~= sv.take(i as int));
            assert(sv.take(i + 1).last() == statements@[i as int]@);
            assert(strings_view(out@) =~= comments_of(sv.take(i + 1)));
        }
        i += 1;
    }
    proof {
        assert(stmts_view(statements@).take(statements.len() as int) =~= stmts_view(
            statements@,
        ));
    }
    out
}

/// What a DSL text compiles to: its Mermaid text, or the message of the
/// first line that is not a statement.
pub open spec fn spec_dsl_to_mermaid(dsl: Seq<char>) -> Result<Seq<char>, Seq<char>> {
    match spec_parse(dsl) {
        Ok(ss) => Ok(spec_mermaid(ss)),
        Err(t) => Err(error_message(t)),
    }
}

/// What a DSL text compiles to together with its comments: the Mermaid text
/// and the non-empty comment texts in document order, or the parse error.
pub open spec fn spec_compile_dsl(dsl: Seq<char>) -> Result<(Seq<char>, Seq<Seq<char>>), Seq<char>> {
    match spec_parse(dsl) {
        Ok(ss) => Ok((spec_mermaid(ss), comments_of(ss))),
        Err(t) => Err(error_message(t)),
    }
}

/// Parse DSL source and convert it to Mermaid syntax.
pub fn dsl_to_mermaid(dsl: &str) -> (r: Result<String, String>)
    ensures
        match r {
            Ok(m) => spec_dsl_to_mermaid(dsl@) == Ok::<Seq<char>, Seq<char>>(m@),
            Err(e) => spec_dsl_to_mermaid(dsl@) == Err::<Seq<char>, Seq<char>>(e@),
        },
{
    let statements = parser::parse(dsl)?;
    Ok(build_mermaid(statements.as_slice()))
}

/// Parse DSL source and return both Mermaid syntax and extracted comment text.
///
/// The comment list contains only non-empty `# …` lines, in document order.
pub fn compile_dsl(dsl: &str) -> (r: Result<(String, Vec<String>), String>)
    ensures
        match r {
            Ok((m, cs)) => spec_compile_dsl(dsl@) == Ok::<(Seq<char>, Seq<Seq<char>>), Seq<char>>(
                (m@, strings_view(cs@)),
            ),
            Err(e) => spec_compile_dsl(dsl@) == Err::<(Seq<char>, Seq<Seq<char>>), Seq<char>>(e@),
        },
{
    let statements = parser::parse(dsl)?;
    let mermaid = build_mermaid(statements.as_slice());
    let comments = extract_comments(statements.as_slice());
    Ok((mermaid, comments))
}

/// Compiling with comments gives the same Mermaid text, and fails with the
/// same message, as compiling without them.
pub proof fn lemma_compile_agrees(dsl: Seq<char>)
    ensures
        match (spec_compile_dsl(dsl), spec_dsl_to_mermaid(dsl)) {
            (Ok((m, _)), Ok(m2)) => m == m2,
            (Err(e), Err(e2)) => e == e2,
            _ => false,
        },
{
}

/// A DSL text that does not parse is always answered with a non-empty
/// error message.
pub proof fn lemma_error_message_nonempty(dsl: Seq<char>)
    requires
        spec_parse(dsl) is Err,
    ensures
        spec_dsl_to_mermaid(dsl) is Err,
        spec_dsl_to_mermaid(dsl)->Err_0.len() > 0,
{
    reveal_strlit("unrecognised statement: ");
}

proof fn lemma_comments_of_wf(ss: Seq<SpecStatement>)
    requires
        stmts_wf(ss),
    ensures
        all_trimmed_nonempty(comments_of(ss)),
    decreases ss.len(),
{
    if ss.len() > 0 {
        assert(stmts_wf(ss.drop_last())) by {
            assert forall|i: int| 0 <= i < ss.drop_last().len() implies stmt_wf(
                #[trigger] ss.drop_last()[i],
            ) by {
                assert(ss.drop_last()[i] == ss[i]);
            }
        }
        lemma_comments_of_wf(ss.drop_last());
        assert(stmt_wf(ss[ss.len() - 1]));
    }
}

/// The comments that compiling returns are trimmed and never empty.
pub proof fn lemma_compiled_comments_trimmed(dsl: Seq<char>)
    ensures
        spec_compile_dsl(dsl) matches Ok((_, cs)) ==> all_trimmed_nonempty(cs),
{
    lemma_parse_wf(dsl);
    if let Ok(ss) = spec_parse(dsl) {
        lemma_comments_of_wf(ss);
    }
}

/// `y` occurs in `x + y + z`.
proof fn lemma_contains_middle(x: Seq<char>, y: Seq<char>, z: Seq<char>)
    ensures
        contains_seq(x + y + z, y),
{
    let s = x + y + z;
    assert(s.subrange(x.len() as int, x.len() as int + y.len() as int) =~= y);
}

/// Member lines of a subgraph: none for no members, one line of eight
/// blanks and the member for one, and the lines of a concatenation are the
/// lines of its parts, one after the other.
pub proof fn lemma_group_member_lines(a: Seq<Seq<char>>, b: Seq<Seq<char>>, m: Seq<char>)
    ensures
        group_members(seq![]) == Seq::<char>::empty(),
        group_members(seq![m]) == "        "@ + m + "\n"@,
        group_members(a + b) == group_members(a) + group_members(b),
    decreases b.len(),
{
    assert(seq![m].drop_last() =~= Seq::<Seq<char>>::empty());
    assert(Seq::<char>::empty() + "        "@ + m + "\n"@ =~= "        "@ + m + "\n"@);
    if b.len() == 0 {
        assert(a + b =~= a);
        assert(group_members(a) + Seq::<char>::empty() =~= group_members(a));
    } else {
        lemma_group_member_lines(a, b.drop_last(), m);
        assert((a + b).drop_last() =~= a + b.drop_last());
        assert((a + b).last() == b.last());
    }
}

/// Every group becomes a subgraph, whatever its number of members: a line
/// `subgraph Name`, one line per member in order, and `end`; each member
/// appears on a line of its own inside it.
pub proof fn lemma_group_graph_text(name: Seq<char>, ms: Seq<Seq<char>>)
    ensures
        graph_line(SpecStatement::Grouping { name, nodes: ms }) == "    subgraph "@ + name + "\n"@
            + group_members(ms) + "    end\n"@,
        forall|i: int|
            0 <= i < ms.len() ==> contains_seq(
                graph_line(SpecStatement::Grouping { name, nodes: ms }),
                "        "@ + #[trigger] ms[i] + "\n"@,
            ),
{
    let g = graph_line(SpecStatement::Grouping { name, nodes: ms });
    let head = "    subgraph "@ + name + "\n"@;
    let tail = "    end\n"@;
    assert forall|i: int| 0 <= i < ms.len() implies contains_seq(g, "        "@ + #[trigger] ms[i] + "\n"@) by {
        let line = "        "@ + ms[i] + "\n"@;
        lemma_group_member_lines(ms.take(i), seq![ms[i]] + ms.skip(i + 1), ms[i]);
        lemma_group_member_lines(seq![ms[i]], ms.skip(i + 1), ms[i]);
        assert(ms.take(i) + (seq![ms[i]] + ms.skip(i + 1)) =~= ms);
        let before = head + group_members(ms.take(i));
        let after = group_members(ms.skip(i + 1)) + tail;
        assert(g =~= before + line + after);
        lemma_contains_middle(before, line, after);
    }
}

/// Every group of a graph document shows in its Mermaid text as a subgraph
/// with all its members.
pub proof fn lemma_every_group_is_a_subgraph(ss: Seq<SpecStatement>, i: int)
    requires
        !has_mindmap(ss),
        0 <= i < ss.len(),
        ss[i] is Grouping,
    ensures
        contains_seq(
            spec_mermaid(ss),
            "    subgraph "@ + ss[i]->Grouping_name + "\n"@ + group_members(ss[i]->Grouping_nodes)
                + "    end\n"@,
        ),
{
    lemma_group_graph_text(ss[i]->Grouping_name, ss[i]->Grouping_nodes);
    let a = ss.take(i);
    let b = ss.skip(i + 1);
    assert(ss =~= a + seq![ss[i]] + b);
    lemma_graph_body_concat(a + seq![ss[i]], b);
    lemma_graph_body_concat(a, seq![ss[i]]);
    assert(seq![ss[i]].drop_last() =~= Seq::<SpecStatement>::empty());
    assert(seq![ss[i]].last() == ss[i]);
    assert(graph_body(Seq::<SpecStatement>::empty()) == Seq::<char>::empty());
    assert(graph_body(seq![ss[i]]) == graph_body(Seq::<SpecStatement>::empty()) + graph_line(ss[i]));
    assert(graph_body(seq![ss[i]]) =~= graph_line(ss[i]));
    let before = "graph TD\n"@ + graph_body(a);
    assert(spec_mermaid(ss) =~= before + graph_line(ss[i]) + graph_body(b));
    lemma_contains_middle(before, graph_line(ss[i]), graph_body(b));
}

/// A comment line is collected, whatever its text holds (colons, dashes,
/// equals signs...): compiling the document `# text` gives exactly the
/// trimmed text as its one comment.
#[verifier::spinoff_prover]
pub proof fn lemma_comment_line_collected(t: Seq<char>)
    requires
        one_line(t),
        t.len() > 0,
        !is_ws(t.last()),
    ensures
        spec_compile_dsl(seq!['#'] + t + seq!['\n']) matches Ok((_, cs)) && cs == seq![trim(t)],
{
    let line = seq!['#'] + t;
    assert forall|i: int| 0 <= i < line.len() implies line[i] != '\n' by {
        if i > 0 {
            assert(line[i] == t[i - 1]);
        }
    }
    lemma_parse_line(line);
    assert(line.last() == t.last());
    lemma_trim_id(line);
    assert(line.drop_first() =~= t);
    let c = SpecStatement::Comment(trim(t));
    assert(Seq::<SpecStatement>::empty() + seq![c] =~= seq![c]);
    assert(step(initial_state(), line) == Ok::<ParseState, Seq<char>>(
        ParseState { stmts: seq![c], mode: crate::parser::grammar::Mode::Top },
    ));
    lemma_trim(t);
    assert(trim(t).len() > 0);
    assert(seq![c].drop_last() =~= Seq::<SpecStatement>::empty());
    assert(seq![c].last() == c);
    assert(comments_of(Seq::<SpecStatement>::empty()) == Seq::<Seq<char>>::empty());
    assert(comments_of(seq![c]) =~= seq![trim(t)]);
    assert(spec_parse(seq!['#'] + t + seq!['\n']) == Ok::<Seq<SpecStatement>, Seq<char>>(seq![c]));
}

/// In a mindmap, an entry of depth `d` is written `2 * (d + 1)` blanks deep,
/// so each extra dash puts an entry one level (two blanks) further in.
pub proof fn lemma_mindmap_entry_indent(e: SpecMindmapEntry)
    ensures
        mindmap_lines(seq![e]) == Seq::new(2 * (e.depth + 1), |i: int| ' ') + e.label + "\n"@,
{
    assert(seq![e].drop_last() =~= Seq::<SpecMindmapEntry>::empty());
    assert(seq![e].last() == e);
    assert(mindmap_lines(Seq::<SpecMindmapEntry>::empty()) == Seq::<char>::empty());
    assert(spaces(2 * (e.depth + 1)) =~= Seq::new(2 * (e.depth + 1), |i: int| ' '));
    assert(mindmap_lines(seq![e]) =~= Seq::new(2 * (e.depth + 1), |i: int| ' ') + e.label + "\n"@);
}

/// Each statement's own comment text: a comment with text contributes
/// exactly that text, whatever characters it holds; an empty comment and
/// every other statement contribute nothing. With `lemma_comments_concat`,
/// the comments of a document are exactly its non-empty comment texts, in
/// document order.
pub proof fn lemma_comments_of_one(t: Seq<char>, s: SpecStatement)
    ensures
        t.len() > 0 ==> comments_of(seq![SpecStatement::Comment(t)]) == seq![t],
        comments_of(seq![SpecStatement::Comment(Seq::<char>::empty())]) == Seq::<Seq<char>>::empty(),
        !(s is Comment) ==> comments_of(seq![s]) == Seq::<Seq<char>>::empty(),
{
    let c = SpecStatement::Comment(t);
    let e = SpecStatement::Comment(Seq::<char>::empty());
    assert(comments_of(Seq::<SpecStatement>::empty()) == Seq::<Seq<char>>::empty());
    assert(seq![c].drop_last() =~= Seq::<SpecStatement>::empty());
    assert(seq![c].last() == c);
    assert(seq![e].drop_last() =~= Seq::<SpecStatement>::empty());
    assert(seq![e].last() == e);
    assert(seq![s].drop_last() =~= Seq::<SpecStatement>::empty());
    assert(seq![s].last() == s);
    if t.len() > 0 {
        assert(comments_of(seq![c]) =~= seq![t]);
    }
}

/// What each kind of statement writes into a `graph TD` diagram: an arrow
/// line for a connection, a labelled arrow for a labeled connection, a
/// message arrow for a sequence step, the name for a node, and nothing for
/// comments and blocks.
pub proof fn lemma_graph_line_kinds(a: Seq<char>, b: Seq<char>, c: Seq<char>)
    ensures
        graph_line(SpecStatement::Connection { from: a, to: b }) == "    "@ + a + " --> "@ + b + "\n"@,
        graph_line(SpecStatement::LabeledConnection { from: a, to: b, label: c }) == "    "@ + a
            + " -->|"@ + c + "| "@ + b + "\n"@,
        graph_line(SpecStatement::Sequence { from: a, to: b, message: c }) == "    "@ + a + " ->> "@
            + b + ": "@ + c + "\n"@,
        graph_line(SpecStatement::Node(a)) == "    "@ + a + "\n"@,
        graph_line(SpecStatement::Comment(a)) == Seq::<char>::empty(),
        graph_line(SpecStatement::Mindmap { root: a, entries: seq![] }) == Seq::<char>::empty(),
{
}

} // verus!
