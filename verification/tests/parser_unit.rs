//! Unit-level tests of the DSL parser.

use diamem::parser::{parse, MindmapEntry, Statement, TimelineEntry};


// ── Comment ──────────────────────────────────────────────────────────

#[test]
fn parse_comment() {
    let stmts = parse("# hello world\n").unwrap();
    assert_eq!(stmts, vec![Statement::Comment("hello world".into())]);
}

#[test]
fn parse_comment_empty() {
    let stmts = parse("#\n").unwrap();
    assert_eq!(stmts, vec![Statement::Comment(String::new())]);
}

// ── Connection ───────────────────────────────────────────────────────

#[test]
fn parse_simple_connection() {
    let stmts = parse("A -> B\n").unwrap();
    assert_eq!(
        stmts,
        vec![Statement::Connection {
            from: "A".into(),
            to: "B".into(),
        }]
    );
}

#[test]
fn parse_connection_multiword_idents() {
    let stmts = parse("ServiceA -> ServiceB\n").unwrap();
    assert_eq!(
        stmts,
        vec![Statement::Connection {
            from: "ServiceA".into(),
            to: "ServiceB".into(),
        }]
    );
}

// ── Labeled connection ───────────────────────────────────────────────

#[test]
fn parse_labeled_connection() {
    let stmts = parse("A -[sends]-> B\n").unwrap();
    assert_eq!(
        stmts,
        vec![Statement::LabeledConnection {
            from: "A".into(),
            to: "B".into(),
            label: "sends".into(),
        }]
    );
}

#[test]
fn parse_labeled_connection_with_spaces_in_label() {
    let stmts = parse("X -[http post]-> Y\n").unwrap();
    assert_eq!(
        stmts,
        vec![Statement::LabeledConnection {
            from: "X".into(),
            to: "Y".into(),
            label: "http post".into(),
        }]
    );
}

// ── Sequence ─────────────────────────────────────────────────────────

#[test]
fn parse_sequence() {
    let stmts = parse("User > App : Request\n").unwrap();
    assert_eq!(
        stmts,
        vec![Statement::Sequence {
            from: "User".into(),
            to: "App".into(),
            message: "Request".into(),
        }]
    );
}

#[test]
fn parse_sequence_long_message() {
    let stmts = parse("Client > Server : POST /api/data\n").unwrap();
    assert_eq!(
        stmts,
        vec![Statement::Sequence {
            from: "Client".into(),
            to: "Server".into(),
            message: "POST /api/data".into(),
        }]
    );
}

// ── Grouping ─────────────────────────────────────────────────────────

#[test]
fn parse_grouping() {
    let stmts = parse("[Backend] { API, DB }\n").unwrap();
    assert_eq!(
        stmts,
        vec![Statement::Grouping {
            name: "Backend".into(),
            nodes: vec!["API".into(), "DB".into()],
        }]
    );
}

#[test]
fn parse_grouping_single_node() {
    let stmts = parse("[Solo] { OnlyOne }\n").unwrap();
    assert_eq!(
        stmts,
        vec![Statement::Grouping {
            name: "Solo".into(),
            nodes: vec!["OnlyOne".into()],
        }]
    );
}

#[test]
fn parse_grouping_name_with_spaces() {
    let stmts = parse("[My Group] { A, B, C }\n").unwrap();
    assert_eq!(
        stmts,
        vec![Statement::Grouping {
            name: "My Group".into(),
            nodes: vec!["A".into(), "B".into(), "C".into()],
        }]
    );
}

// ── Node ─────────────────────────────────────────────────────────────

#[test]
fn parse_standalone_node() {
    let stmts = parse("Standalone\n").unwrap();
    assert_eq!(stmts, vec![Statement::Node("Standalone".into())]);
}

// ── Chain connections ────────────────────────────────────────────────

#[test]
fn parse_chain_connection() {
    let stmts = parse("A -> B -> C\n").unwrap();
    assert_eq!(
        stmts,
        vec![
            Statement::Connection {
                from: "A".into(),
                to: "B".into(),
            },
            Statement::Connection {
                from: "B".into(),
                to: "C".into(),
            },
        ]
    );
}

#[test]
fn parse_long_chain() {
    let stmts = parse("A -> B -> C -> D -> E\n").unwrap();
    assert_eq!(stmts.len(), 4);
    assert_eq!(
        stmts[0],
        Statement::Connection {
            from: "A".into(),
            to: "B".into()
        }
    );
    assert_eq!(
        stmts[3],
        Statement::Connection {
            from: "D".into(),
            to: "E".into()
        }
    );
}

// ── Header grouping (@) ─────────────────────────────────────────────

#[test]
fn parse_header_grouping() {
    let stmts = parse("@ Backend: API, DB\n").unwrap();
    assert_eq!(
        stmts,
        vec![Statement::Grouping {
            name: "Backend".into(),
            nodes: vec!["API".into(), "DB".into()],
        }]
    );
}

#[test]
fn parse_header_grouping_with_spaces_in_name() {
    let stmts = parse("@ Phase 1: Scaffold, Parser, BasicUI\n").unwrap();
    assert_eq!(
        stmts,
        vec![Statement::Grouping {
            name: "Phase 1".into(),
            nodes: vec!["Scaffold".into(), "Parser".into(), "BasicUI".into()],
        }]
    );
}

#[test]
fn parse_header_grouping_single_node() {
    let stmts = parse("@ Solo: OnlyOne\n").unwrap();
    assert_eq!(
        stmts,
        vec![Statement::Grouping {
            name: "Solo".into(),
            nodes: vec!["OnlyOne".into()],
        }]
    );
}

// ── Paren labeled connection ────────────────────────────────────────

#[test]
fn parse_paren_labeled_connection() {
    let stmts = parse("A -(sends)> B\n").unwrap();
    assert_eq!(
        stmts,
        vec![Statement::LabeledConnection {
            from: "A".into(),
            to: "B".into(),
            label: "sends".into(),
        }]
    );
}

#[test]
fn parse_paren_labeled_connection_with_spaces_in_label() {
    let stmts = parse("X -(http post)> Y\n").unwrap();
    assert_eq!(
        stmts,
        vec![Statement::LabeledConnection {
            from: "X".into(),
            to: "Y".into(),
            label: "http post".into(),
        }]
    );
}

// ── Multiple statements ──────────────────────────────────────────────

#[test]
fn parse_multiple_statements() {
    let input = "# setup\nA -> B\nB -[calls]-> C\n";
    let stmts = parse(input).unwrap();
    assert_eq!(stmts.len(), 3);
    assert!(matches!(&stmts[0], Statement::Comment(_)));
    assert!(matches!(&stmts[1], Statement::Connection { .. }));
    assert!(matches!(&stmts[2], Statement::LabeledConnection { .. }));
}

// ── Mindmap ──────────────────────────────────────────────────────────

#[test]
fn parse_mindmap_basic() {
    let input = "mindmap: Central\n- Branch1\n- Branch2\n";
    let stmts = parse(input).unwrap();
    assert_eq!(
        stmts,
        vec![Statement::Mindmap {
            root: "Central".into(),
            entries: vec![
                MindmapEntry {
                    depth: 1,
                    label: "Branch1".into()
                },
                MindmapEntry {
                    depth: 1,
                    label: "Branch2".into()
                },
            ],
        }]
    );
}

#[test]
fn parse_mindmap_nested() {
    let input = "mindmap: Root\n- A\n-- A1\n-- A2\n- B\n--- Deep\n";
    let stmts = parse(input).unwrap();
    if let Statement::Mindmap { root, entries } = &stmts[0] {
        assert_eq!(root, "Root");
        assert_eq!(entries.len(), 5);
        assert_eq!(
            entries[0],
            MindmapEntry {
                depth: 1,
                label: "A".into()
            }
        );
        assert_eq!(
            entries[1],
            MindmapEntry {
                depth: 2,
                label: "A1".into()
            }
        );
        assert_eq!(
            entries[2],
            MindmapEntry {
                depth: 2,
                label: "A2".into()
            }
        );
        assert_eq!(
            entries[3],
            MindmapEntry {
                depth: 1,
                label: "B".into()
            }
        );
        assert_eq!(
            entries[4],
            MindmapEntry {
                depth: 3,
                label: "Deep".into()
            }
        );
    } else {
        panic!("Expected Mindmap statement");
    }
}

#[test]
fn parse_mindmap_root_only() {
    let stmts = parse("mindmap: JustRoot\n").unwrap();
    assert_eq!(
        stmts,
        vec![Statement::Mindmap {
            root: "JustRoot".into(),
            entries: vec![],
        }]
    );
}

#[test]
fn parse_mindmap_root_with_spaces() {
    let stmts = parse("mindmap: My Big Idea\n- First\n").unwrap();
    if let Statement::Mindmap { root, .. } = &stmts[0] {
        assert_eq!(root, "My Big Idea");
    } else {
        panic!("Expected Mindmap");
    }
}

#[test]
fn parse_mindmap_word_is_valid_node() {
    // "mindmap" without ":" is a standalone node, not a mindmap block
    let stmts = parse("mindmap\n").unwrap();
    assert_eq!(stmts, vec![Statement::Node("mindmap".into())]);
}

// ── Timeline ──────────────────────────────────────────────────────

#[test]
fn parse_timeline_basic() {
    let input = "timeline: History\n- 2002 : LinkedIn\n- 2004 : Facebook\n";
    let stmts = parse(input).unwrap();
    assert_eq!(
        stmts,
        vec![Statement::Timeline {
            title: "History".into(),
            entries: vec![
                TimelineEntry {
                    depth: 1,
                    text: "2002".into(),
                    events: vec!["LinkedIn".into()],
                },
                TimelineEntry {
                    depth: 1,
                    text: "2004".into(),
                    events: vec!["Facebook".into()],
                },
            ],
        }]
    );
}

#[test]
fn parse_timeline_multiple_events() {
    let input = "timeline: History\n- 2004 : Facebook, Google\n";
    let stmts = parse(input).unwrap();
    if let Statement::Timeline { entries, .. } = &stmts[0] {
        assert_eq!(entries[0].events, vec!["Facebook", "Google"]);
    } else {
        panic!("Expected Timeline statement");
    }
}

#[test]
fn parse_timeline_with_sections() {
    let input = "\
timeline: History
@ Early Days
- 2002 : LinkedIn
- 2004 : Facebook, Google
@ Growth
- 2005 : Youtube
- 2006 : Twitter
";
    let stmts = parse(input).unwrap();
    if let Statement::Timeline { title, entries } = &stmts[0] {
        assert_eq!(title, "History");
        assert_eq!(entries.len(), 6);
        // Section headers have depth 0 and no events
        assert_eq!(
            entries[0],
            TimelineEntry {
                depth: 0,
                text: "Early Days".into(),
                events: vec![],
            }
        );
        assert_eq!(entries[1].depth, 1);
        assert_eq!(entries[1].text, "2002");
        assert_eq!(entries[1].events, vec!["LinkedIn"]);
        assert_eq!(entries[3].text, "Growth");
        assert!(entries[3].events.is_empty());
        assert_eq!(entries[5].events, vec!["Twitter"]);
    } else {
        panic!("Expected Timeline statement");
    }
}

#[test]
fn parse_timeline_title_only() {
    let stmts = parse("timeline: Just A Title\n").unwrap();
    assert_eq!(
        stmts,
        vec![Statement::Timeline {
            title: "Just A Title".into(),
            entries: vec![],
        }]
    );
}

#[test]
fn parse_timeline_word_is_valid_node() {
    // "timeline" without ":" is a standalone node, not a timeline block
    let stmts = parse("timeline\n").unwrap();
    assert_eq!(stmts, vec![Statement::Node("timeline".into())]);
}

// ── Empty / whitespace ───────────────────────────────────────────────

#[test]
fn parse_empty_input() {
    let stmts = parse("").unwrap();
    assert!(stmts.is_empty());
}

#[test]
fn parse_blank_lines_only() {
    let stmts = parse("\n\n\n").unwrap();
    assert!(stmts.is_empty());
}

// ── Error cases ──────────────────────────────────────────────────────

#[test]
fn parse_invalid_syntax_returns_error() {
    let result = parse("??? totally broken {{{");
    assert!(result.is_err());
}
