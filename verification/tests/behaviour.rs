//! Behaviour of the library on concrete inputs: laws, edge cases and exact outputs.

use diamem::dsl::{build_graph, build_mermaid, build_mindmap, compile_dsl, dsl_to_mermaid, extract_comments};
use diamem::editor::{expand_home, export_file_name, EditorEffect, UiAction};
use diamem::parser::{parse, MindmapEntry, Statement, TimelineEntry};
use diamem::render::{
    attach_footer, comment_sheet_svg, footer_svg, FooterPlacement, SheetPlacement, diagram_kind, mindmap_label_colors, mindmap_line_colors, mindmap_section_colors,
    recolor_timeline_svg, replace_str, replace_svg_attr, replace_viewbox, viewbox_fields,
    xml_escape, DiagramKind,
};
use diamem::DiamemApp;

// ── Exact Mermaid output ────────────────────────────────────────────────────

#[test]
fn graph_output_is_exact() {
    let input = "A -> B\nA -[x]-> C\nU > V : hi\n[G] { N1, N2 }\nSolo\n";
    let expected = "graph TD\n    A --> B\n    A -->|x| C\n    U ->> V: hi\n    subgraph G\n        N1\n        N2\n    end\n    Solo\n";
    assert_eq!(dsl_to_mermaid(input).unwrap(), expected);
}

#[test]
fn mindmap_output_is_exact() {
    let out = dsl_to_mermaid("mindmap: R\n- A\n-- B\n--- C\n").unwrap();
    assert_eq!(out, "mindmap\n  R\n    A\n      B\n        C\n");
}

#[test]
fn mindmap_mode_skips_graph_statements() {
    let out = dsl_to_mermaid("A -> B\nmindmap: R\n- X\nC -> D\n").unwrap();
    assert_eq!(out, "mindmap\n  R\n    X\n");
}

#[test]
fn several_mindmaps_follow_each_other() {
    let out = dsl_to_mermaid("mindmap: R1\n- A\nmindmap: R2\n- B\n").unwrap();
    assert_eq!(out, "mindmap\n  R1\n    A\n  R2\n    B\n");
}

#[test]
fn timeline_statements_emit_nothing_in_graph_mode() {
    let out = dsl_to_mermaid("timeline: T\n- 2002 : X\nA -> B\n").unwrap();
    assert_eq!(out, "graph TD\n    A --> B\n");
}

// ── Laws on concrete values ─────────────────────────────────────────────────

#[test]
fn law_comments_do_not_change_output() {
    let plain = dsl_to_mermaid("A -> B\nC -> D\n").unwrap();
    let commented = dsl_to_mermaid("# first\nA -> B\n# between\nC -> D\n# last\n").unwrap();
    assert_eq!(plain, commented);
}

#[test]
fn law_blank_lines_do_not_change_parse() {
    let a = parse("A -> B\nC -> D\n").unwrap();
    let b = parse("A -> B\n  \t \nC -> D\n").unwrap();
    assert_eq!(a, b);
}

#[test]
fn law_group_forms_agree_with_padding() {
    let bracket = parse("[Phase 1]   { Scaffold , Parser }\n").unwrap();
    let header = parse("@ Phase 1: Scaffold , Parser\n").unwrap();
    assert_eq!(bracket, header);
    assert!(parse("[G] { A, }\n").is_err());
    assert!(parse("@ G: A,\n").is_err());
}

#[test]
fn law_label_forms_agree_with_spaces() {
    let a = parse("My API -[http post: json]-> Data Store\n").unwrap();
    let b = parse("My API -(http post: json)> Data Store\n").unwrap();
    assert_eq!(a, b);
    assert_eq!(
        a,
        vec![Statement::LabeledConnection {
            from: "My API".into(),
            to: "Data Store".into(),
            label: "http post: json".into(),
        }]
    );
}

#[test]
fn law_chain_gives_consecutive_pairs() {
    let stmts = parse("Wake up -> Coffee -> Review tasks\n").unwrap();
    assert_eq!(
        stmts,
        vec![
            Statement::Connection { from: "Wake up".into(), to: "Coffee".into() },
            Statement::Connection { from: "Coffee".into(), to: "Review tasks".into() },
        ]
    );
}

#[test]
fn law_parsed_blocks_are_well_formed() {
    let stmts = parse("mindmap: R\n- A\n--- B\ntimeline: T\n@ S\n- P : e1, e2\n").unwrap();
    for s in &stmts {
        match s {
            Statement::Mindmap { entries, .. } => {
                assert!(entries.iter().all(|e| e.depth >= 1 && !e.label.is_empty()))
            }
            Statement::Timeline { entries, .. } => assert!(entries
                .iter()
                .all(|e| e.depth <= 1 && (e.depth > 0 || e.events.is_empty()))),
            _ => {}
        }
    }
}

#[test]
fn law_escaped_text_has_no_markup() {
    let out = xml_escape("a<b>\"c\"&'d'");
    assert_eq!(out, "a&lt;b&gt;&quot;c&quot;&amp;&apos;d&apos;");
    assert!(!out.contains('<') && !out.contains('>') && !out.contains('"') && !out.contains('\''));
    assert_eq!(xml_escape("plain text 123"), "plain text 123");
}

#[test]
fn law_recolor_removes_overlapping_pastels() {
    let out = recolor_timeline_svg("#ECEC#ECECFFFF #FFE6CC#D5E8D4");
    assert_eq!(out, "#ECEC#1A2D3AFF #2E2518#1A2E24");
    for p in ["#ECECFF", "#FFE6CC", "#D5E8D4", "#F8CECC", "#FFF2CC", "#E1D5E7"] {
        assert!(!out.contains(p));
    }
}

// ── Parser edge cases ───────────────────────────────────────────────────────

#[test]
fn crlf_line_endings_are_accepted() {
    let a = parse("A -> B\r\n# note\r\nC -> D\r\n").unwrap();
    let b = parse("A -> B\n# note\nC -> D\n").unwrap();
    assert_eq!(a, b);
}

#[test]
fn last_line_without_newline() {
    assert_eq!(parse("A -> B").unwrap(), parse("A -> B\n").unwrap());
}

#[test]
fn leading_and_trailing_blanks_on_a_line() {
    assert_eq!(parse("   Solo   \n").unwrap(), vec![Statement::Node("Solo".into())]);
}

#[test]
fn error_names_the_first_invalid_line() {
    let err = parse("A -> B\n  ??? totally broken {{{  \nC -> D\n").unwrap_err();
    assert_eq!(err, "unrecognised statement: ??? totally broken {{{");
    let err = dsl_to_mermaid("Ok\n- orphan entry\n").unwrap_err();
    assert_eq!(err, "unrecognised statement: - orphan entry");
}

#[test]
fn entries_outside_a_block_are_errors() {
    assert!(parse("- A\n").is_err());
    assert!(parse("A -> B\n- C\n").is_err());
}

#[test]
fn a_statement_closes_a_mindmap_block() {
    let stmts = parse("mindmap: R\n- A\n\n- B\nX -> Y\n").unwrap();
    assert_eq!(
        stmts,
        vec![
            Statement::Mindmap {
                root: "R".into(),
                entries: vec![
                    MindmapEntry { depth: 1, label: "A".into() },
                    MindmapEntry { depth: 1, label: "B".into() },
                ],
            },
            Statement::Connection { from: "X".into(), to: "Y".into() },
        ]
    );
    assert!(parse("mindmap: R\n# c\n- A\n").is_err());
}

#[test]
fn timeline_events_are_trimmed_and_empty_ones_dropped() {
    let stmts = parse("timeline: T\n- 2004 : Facebook, , Google ,\n- 2005 :\n- 2006\n").unwrap();
    assert_eq!(
        stmts,
        vec![Statement::Timeline {
            title: "T".into(),
            entries: vec![
                TimelineEntry {
                    depth: 1,
                    text: "2004".into(),
                    events: vec!["Facebook".into(), "Google".into()],
                },
                TimelineEntry { depth: 1, text: "2005".into(), events: vec![] },
                TimelineEntry { depth: 1, text: "2006".into(), events: vec![] },
            ],
        }]
    );
}

#[test]
fn sequence_message_keeps_colons() {
    assert_eq!(
        parse("A > B : key: value\n").unwrap(),
        vec![Statement::Sequence {
            from: "A".into(),
            to: "B".into(),
            message: "key: value".into(),
        }]
    );
}

#[test]
fn non_ascii_text_in_comments_and_labels() {
    assert_eq!(parse("# héllo wörld\n").unwrap(), vec![Statement::Comment("héllo wörld".into())]);
    assert_eq!(
        parse("A -[→ naïve]-> B\n").unwrap(),
        vec![Statement::LabeledConnection {
            from: "A".into(),
            to: "B".into(),
            label: "→ naïve".into(),
        }]
    );
    assert!(parse("Café\n").is_err());
}

#[test]
fn keywords_without_colon_are_nodes_and_empty_headers_fail() {
    assert_eq!(parse("timeline\n").unwrap(), vec![Statement::Node("timeline".into())]);
    assert!(parse("mindmap:\n").is_err());
    assert!(parse("timeline:   \n").is_err());
}

#[test]
fn compile_dsl_collects_comments_in_order() {
    let (m, c) = compile_dsl("# one\n#\n#   two  \nA -> B\n").unwrap();
    assert_eq!(m, "graph TD\n    A --> B\n");
    assert_eq!(c, vec!["one".to_string(), "two".to_string()]);
}

// ── Rendering helpers ───────────────────────────────────────────────────────

#[test]
fn diagram_kind_follows_the_first_line() {
    assert_eq!(diagram_kind("mindmap\n  R\n"), DiagramKind::Mindmap);
    assert_eq!(diagram_kind("timeline\n  title T\n"), DiagramKind::Timeline);
    assert_eq!(diagram_kind("graph TD\n"), DiagramKind::Graph);
    assert_eq!(diagram_kind("mindmap"), DiagramKind::Graph);
}

#[test]
fn replace_str_replaces_every_occurrence() {
    assert_eq!(replace_str("a</svg>b</svg>", "</svg>", "X</svg>"), "aX</svg>bX</svg>");
    assert_eq!(replace_str("aaa", "aa", "b"), "ba");
}

#[test]
fn viewbox_fields_are_the_words_of_the_attribute() {
    let svg = r#"<svg viewBox="-10 -5  800 600"></svg>"#;
    assert_eq!(viewbox_fields(svg).unwrap(), vec!["-10", "-5", "800", "600"]);
    assert!(viewbox_fields("<svg width=\"100\" height=\"100\"></svg>").is_none());
    assert!(viewbox_fields("<svg viewBox=\"0 0 1").is_none());
}

#[test]
fn replace_viewbox_sets_the_attribute_value() {
    let svg = r#"<svg viewBox="0 0 200 100" width="200"><rect/></svg>"#;
    assert_eq!(
        replace_viewbox(svg, "0 0 300 150"),
        r#"<svg viewBox="0 0 300 150" width="200"><rect/></svg>"#
    );
    assert_eq!(replace_viewbox("<svg></svg>", "1 2 3 4"), "<svg></svg>");
}

#[test]
fn replace_svg_attr_only_edits_the_first_tag() {
    let svg = r#"<svg width="200" height="100"><rect width="5"/></svg>"#;
    assert_eq!(
        replace_svg_attr(svg, "width", "320"),
        r#"<svg width="320" height="100"><rect width="5"/></svg>"#
    );
    let later = r#"<svg height="1"><rect width="5"/></svg>"#;
    assert_eq!(replace_svg_attr(later, "width", "9"), later);
}

// ── Editor state ────────────────────────────────────────────────────────────

#[test]
fn editor_default_state() {
    let app = DiamemApp::default();
    assert!(app.dsl_source.starts_with("# Type your diagram DSL here\n"));
    assert!(app.dsl_source.ends_with("Check -> Done\n"));
    assert_eq!(app.export_path, "~/shotext");
    assert!(app.export_tags.is_empty() && app.status_message.is_empty());
    assert!(app.dsl_valid);
}

#[test]
fn editor_refresh_tracks_validity() {
    let mut app = DiamemApp::default();
    app.refresh();
    assert!(app.dsl_valid);
    assert!(app.mermaid_output.contains("Process -->|validate| Check"));
    assert_eq!(app.status_label(), "✓ DSL Valid");
    app.dsl_source = "{{{{ broken".into();
    app.refresh();
    assert!(!app.dsl_valid);
    assert_eq!(app.mermaid_output, "unrecognised statement: {{{{ broken");
    assert_eq!(app.status_label(), "✗ DSL Errors");
}

#[test]
fn editor_about_sets_status_only() {
    let mut app = DiamemApp::default();
    assert!(matches!(app.handle(UiAction::About), EditorEffect::Nothing));
    assert_eq!(app.status_message, "diamem v0.1.0 — Live Diagram Editor");
}

#[test]
fn editor_export_actions_request_a_png() {
    for action in [UiAction::ExportShortcut, UiAction::ExportMenu, UiAction::Commit] {
        let mut app = DiamemApp::default();
        app.dsl_source = "# first note
A -> B
#
# second
".into();
        app.export_tags = " architecture, v2 ,, ".into();
        match app.handle(action) {
            EditorEffect::Export(request) => {
                assert_eq!(request.mermaid, "graph TD\n    A --> B\n");
                assert_eq!(request.comments, vec!["first note", "second"]);
                assert_eq!(request.directory, "~/shotext");
                assert_eq!(request.tags, vec!["architecture", "v2"]);
            }
            EditorEffect::Nothing => panic!("export expected"),
        }
        assert_eq!(app.status_message, "Exporting PNG…");
    }
}

#[test]
fn editor_export_refused_on_invalid_dsl() {
    let mut app = DiamemApp::default();
    app.dsl_source = "{{ broken".into();
    assert!(matches!(app.handle(UiAction::Commit), EditorEffect::Nothing));
    assert_eq!(app.status_message, "Cannot export: the DSL has errors");
}

#[test]
fn editor_reports_export_outcome() {
    let mut app = DiamemApp::default();
    app.finish_export(Ok("/tmp/diagram_1.png".into()));
    assert_eq!(app.status_message, "Saved /tmp/diagram_1.png");
    app.finish_export(Err("disk full".into()));
    assert_eq!(app.status_message, "Export failed: disk full");
}

#[test]
fn export_file_name_embeds_stamp_and_tags() {
    assert_eq!(export_file_name("1715260000", &vec![]), "diagram_1715260000.png");
    let tags = vec!["architecture".to_string(), "v2".to_string()];
    assert_eq!(export_file_name("42", &tags), "diagram_42_architecture_v2.png");
}

#[test]
fn expand_home_replaces_leading_tilde() {
    assert_eq!(expand_home("~/shotext", Some("/home/me")), "/home/me/shotext");
    assert_eq!(expand_home("~/shotext", None), "~/shotext");
    assert_eq!(expand_home("/var/out", Some("/home/me")), "/var/out");
    assert_eq!(expand_home("~shotext", Some("/home/me")), "~shotext");
}

// ── Mindmap palette ─────────────────────────────────────────────────────────

#[test]
fn mindmap_palette_cycles_every_four_branches() {
    let fills = mindmap_section_colors();
    assert_eq!(fills.len(), 12);
    assert_eq!(&fills[..4], &["#5A9B80", "#C08A3E", "#B35F5F", "#3A3A3A"]);
    for i in 0..8 {
        assert_eq!(fills[i], fills[i + 4]);
    }
    let labels = mindmap_label_colors();
    assert_eq!(labels.len(), 12);
    assert_eq!(labels[3], "#B0B0B0");
    assert_eq!(labels[11], "#B0B0B0");
    assert_eq!(labels[4], "#E0E0E0");
    let lines = mindmap_line_colors();
    assert_eq!(lines.len(), 12);
    assert_eq!(&lines[8..], &["#7AC0A0", "#D4A85E", "#CC7F7F", "#707070"]);
}

// ── Comment footer ──────────────────────────────────────────────────────────

const STUB_SVG: &str = r##"<svg xmlns="http://www.w3.org/2000/svg" viewBox="0 0 200 100" width="200" height="100"><rect width="200" height="100" fill="#121212"/></svg>"##;

fn stub_placement(lines: usize) -> FooterPlacement {
    FooterPlacement {
        left: "0".into(),
        top: "112".into(),
        width: "200".into(),
        height: (16 + 24 * lines + 16).to_string(),
        right: "200".into(),
        text_left: "20".into(),
        baselines: (0..lines).map(|i| (144 + 24 * i).to_string()).collect(),
        font_size: "16".into(),
        view_box: format!("0 0 200 {}", 100 + 12 + 16 + 24 * lines + 16),
        svg_width: "200".into(),
        svg_height: (100 + 12 + 16 + 24 * lines + 16).to_string(),
    }
}

#[test]
fn attach_footer_output_is_exact() {
    let comments = vec!["hello world".to_string()];
    let result = attach_footer(STUB_SVG, &stub_placement(1), &comments);
    let expected = [
        r##"<svg xmlns="http://www.w3.org/2000/svg" viewBox="0 0 200 168" width="200" height="168">"##,
        r##"<rect width="200" height="100" fill="#121212"/>"##,
        "<rect x=\"0\" y=\"112\" width=\"200\" height=\"56\" fill=\"#FFFFFF\" rx=\"4\"/>\n",
        "<line x1=\"0\" y1=\"112\" x2=\"200\" y2=\"112\" stroke=\"#CCCCCC\" stroke-width=\"1\"/>\n",
        "<text x=\"20\" y=\"144\" fill=\"#1A1A1A\" font-family=\"Helvetica, Arial, sans-serif\" font-size=\"16\">hello world</text>\n",
        "</svg>",
    ]
    .concat();
    assert_eq!(result, expected);
}

#[test]
fn attach_footer_escapes_and_orders_comments() {
    let comments = vec!["A < B & C > D".to_string(), "second".to_string()];
    let result = attach_footer(STUB_SVG, &stub_placement(2), &comments);
    let first = result.find("A &lt; B &amp; C &gt; D").unwrap();
    let second = result.find(">second</text>").unwrap();
    assert!(first < second);
    assert!(result.contains("y=\"168\""));
    assert!(!result.contains("A < B"));
    assert_eq!(result.matches("<text").count(), 2);
    assert_eq!(result.matches("<rect").count(), 2);
    assert!(result.contains("<line"));
    assert!(result.ends_with("</text>\n</svg>"));
}

#[test]
fn footer_svg_without_comments_is_frame_only() {
    let result = footer_svg(&stub_placement(0), &[]);
    assert!(result.starts_with("<rect x=\"0\" y=\"112\""));
    assert!(result.contains("<line"));
    assert!(!result.contains("<text"));
}

#[test]
fn attach_footer_without_closing_tag_only_grows_document() {
    let svg = r#"<svg viewBox="0 0 10 10" width="10" height="10">"#;
    let result = attach_footer(svg, &stub_placement(1), &["x".to_string()]);
    assert_eq!(result, r#"<svg viewBox="0 0 200 168" width="200" height="168">"#);
}

// ── Laws across functions ───────────────────────────────────────────────────

#[test]
fn law_compiled_text_has_the_kind_of_its_dsl() {
    let mind = dsl_to_mermaid("mindmap: Root\n- A\nX -> Y\n").unwrap();
    assert_eq!(diagram_kind(&mind), DiagramKind::Mindmap);
    let graph = dsl_to_mermaid("X -> Y\n# note\n").unwrap();
    assert_eq!(diagram_kind(&graph), DiagramKind::Graph);
    let empty = dsl_to_mermaid("").unwrap();
    assert_eq!(diagram_kind(&empty), DiagramKind::Graph);
}

#[test]
fn law_compile_agrees_with_dsl_to_mermaid() {
    for input in ["A -> B\n# c\n", "mindmap: R\n- x\n", "A -> \n", "@ G: a, b\n"] {
        match (compile_dsl(input), dsl_to_mermaid(input)) {
            (Ok((m, _)), Ok(m2)) => assert_eq!(m, m2),
            (Err(e), Err(e2)) => {
                assert_eq!(e, e2);
                assert!(!e.is_empty());
            }
            _ => panic!("compile_dsl and dsl_to_mermaid disagree on {input:?}"),
        }
    }
}

// ── The footer tests of the renderer, against the verified assembly ─────────
//
// The placement is computed as the front end computes it for the stub SVG
// (viewBox `0 0 200 100`): 16px text on 24px lines, 20px side padding, 16px
// top/bottom padding, a 12px gap and 0.62 em per character.

fn front_end_placement(comments: &[String]) -> FooterPlacement {
    let (vb_x, vb_y, vb_w, vb_h) = (0.0_f64, 0.0_f64, 200.0_f64, 100.0_f64);
    let (font_size, line_height, pad_top, pad_side, pad_bottom, gap) =
        (16.0_f64, 24.0_f64, 16.0_f64, 20.0_f64, 16.0_f64, 12.0_f64);
    let footer_h = gap + pad_top + (comments.len() as f64 * line_height) + pad_bottom;
    let longest = comments
        .iter()
        .map(|c| pad_side + (c.len() as f64 * font_size * 0.62) + pad_side)
        .fold(0.0_f64, f64::max);
    let new_w = vb_w.max(longest);
    let new_h = vb_h + footer_h;
    let footer_y = vb_y + vb_h + gap;
    FooterPlacement {
        left: format!("{vb_x}"),
        top: format!("{footer_y}"),
        width: format!("{new_w}"),
        height: format!("{}", footer_h - gap),
        right: format!("{}", vb_x + new_w),
        text_left: format!("{}", vb_x + pad_side),
        baselines: (0..comments.len())
            .map(|i| format!("{}", footer_y + pad_top + (i as f64 * line_height) + font_size))
            .collect(),
        font_size: format!("{font_size}"),
        view_box: format!("{vb_x} {vb_y} {new_w} {new_h}"),
        svg_width: format!("{new_w}"),
        svg_height: format!("{new_h}"),
    }
}

fn footer_on_stub(comments: &[String]) -> String {
    attach_footer(STUB_SVG, &front_end_placement(comments), comments)
}

#[test]
fn footer_empty_comments_returns_unchanged() {
    let result = footer_on_stub(&[]);
    assert_eq!(result, STUB_SVG);
}

#[test]
fn footer_adds_text_elements() {
    let comments = vec!["hello world".to_string()];
    let result = footer_on_stub(&comments);
    assert!(result.contains("<text"));
    assert!(result.contains("hello world"));
}

#[test]
fn footer_escapes_special_xml_chars() {
    let comments = vec!["A < B & C > D".to_string()];
    let result = footer_on_stub(&comments);
    assert!(result.contains("A &lt; B &amp; C &gt; D"));
}

#[test]
fn footer_adds_separator_line() {
    let comments = vec!["note".to_string()];
    let result = footer_on_stub(&comments);
    assert!(result.contains("<line"));
}

#[test]
fn footer_adds_background_rect() {
    let comments = vec!["note".to_string()];
    let result = footer_on_stub(&comments);
    assert!(result.matches("<rect").count() >= 2);
}

#[test]
fn footer_uses_high_contrast_for_ocr() {
    let comments = vec!["searchable context".to_string()];
    let result = footer_on_stub(&comments);
    assert!(result.contains("fill=\"#FFFFFF\""));
    assert!(result.contains("fill=\"#1A1A1A\""));
    assert!(result.contains("sans-serif"));
    assert!(result.contains("font-size=\"16\""));
}

#[test]
fn footer_grows_viewbox_and_root_size() {
    let comments = vec!["line one".to_string(), "line two".to_string()];
    let result = footer_on_stub(&comments);
    assert!(result.starts_with(
        r#"<svg xmlns="http://www.w3.org/2000/svg" viewBox="0 0 200 192" width="200" height="192">"#
    ));
    let long = "This is a long comment that should definitely exceed 200px of width easily";
    let wide = footer_on_stub(&[long.to_string()]);
    let fields = viewbox_fields(&wide).unwrap();
    assert!(fields[2].parse::<f64>().unwrap() > 200.0);
}

// ── Document-level laws on concrete values ──────────────────────────────────

#[test]
fn law_documents_concatenate() {
    let a = "# top\nA -> B -> C\n@ G: X, Y";
    let b = "\n\nU > V : hi\nSolo";
    let whole = parse(&format!("{a}\n{b}")).unwrap();
    let mut expected = parse(a).unwrap();
    expected.extend(parse(b).unwrap());
    assert_eq!(whole, expected);
    assert!(parse(&format!("{a}\n?? bad")).is_err());
}

#[test]
fn law_padded_group_forms_agree() {
    let bracket = parse("[Phase 1] { A, B }\n").unwrap();
    let header = parse("@ Phase 1: A, B\n").unwrap();
    assert_eq!(bracket, header);
    assert_eq!(
        bracket,
        vec![Statement::Grouping { name: "Phase 1".into(), nodes: vec!["A".into(), "B".into()] }]
    );
}

#[test]
fn law_parsed_texts_are_trimmed() {
    let input = "#   note  \nA  ->  B\nX -[ http post ]-> Y\ntimeline: T\n- 2024 :  a , ,b \n@  Sec \n";
    for s in parse(input).unwrap() {
        match s {
            Statement::Comment(t) => assert_eq!(t, t.trim()),
            Statement::Connection { from, to } => {
                assert_eq!(from, from.trim());
                assert_eq!(to, to.trim());
            }
            Statement::LabeledConnection { label, .. } => assert_eq!(label, "http post"),
            Statement::Timeline { entries, .. } => {
                assert_eq!(entries[0].events, vec!["a", "b"]);
                assert_eq!(entries[1].text, "Sec");
            }
            _ => {}
        }
    }
}

#[test]
fn law_escape_reads_back() {
    let s = "a<b>&\"c\"'d'&amp;";
    let e = xml_escape(s);
    let back = e
        .replace("&lt;", "<")
        .replace("&gt;", ">")
        .replace("&quot;", "\"")
        .replace("&apos;", "'")
        .replace("&amp;", "&");
    assert_eq!(back, s);
}

#[test]
fn law_recolor_keeps_length() {
    let svg = r##"<rect fill="#ECECFF"/><rect fill="#E1D5E7"/><g fill="#121212"/>"##;
    assert_eq!(recolor_timeline_svg(svg).len(), svg.len());
}

#[test]
fn comment_sheet_is_a_white_page_of_dark_lines() {
    let sheet = SheetPlacement {
        width: "300".into(),
        height: "112".into(),
        text_left: "20".into(),
        baselines: vec!["44".into(), "80".into()],
        font_size: "24".into(),
    };
    let svg = comment_sheet_svg(&sheet, &["a < b".to_string(), "second".to_string()]);
    assert!(svg.starts_with(
        "<svg xmlns=\"http://www.w3.org/2000/svg\" width=\"300\" height=\"112\" viewBox=\"0 0 300 112\"><rect width=\"300\" height=\"112\" fill=\"white\"/>\n"
    ));
    assert!(svg.contains("<text x=\"20\" y=\"44\" fill=\"#1A1A1A\" font-family=\"Helvetica Neue, Helvetica, Arial, Segoe UI, DejaVu Sans, Liberation Sans, Noto Sans, sans-serif\" font-size=\"24\">a &lt; b</text>\n"));
    assert!(svg.ends_with(">second</text>\n</svg>"));
}

#[test]
fn law_graph_text_of_concatenation() {
    let a = parse("A -> B\n# c\n@ G: X, Y\n").unwrap();
    let b = parse("U > V : hi\nSolo\n").unwrap();
    let mut ab = a.clone();
    ab.extend(b.clone());
    let whole = build_graph(&ab);
    let tail = build_graph(&b);
    assert_eq!(whole, build_graph(&a) + &tail["graph TD\n".len()..]);
    assert_eq!(build_graph(&[]), "graph TD\n");
    assert_eq!(build_mermaid(&ab), whole);
    assert_eq!(extract_comments(&ab), vec!["c"]);
    let m = parse("mindmap: R\n- x\n").unwrap();
    assert_eq!(build_mermaid(&m), build_mindmap(&m));
}

#[test]
fn law_lines_with_blank_lines_between_parse_in_order() {
    let lines = ["A -> B", "# note", "[G] { X, Y }", "U > V : hi", "Solo"];
    let mut expected = Vec::new();
    for l in lines {
        expected.extend(parse(&format!("{l}\n")).unwrap());
    }
    let doc = format!("\n\n{}\n\n\n{}\n{}\n\n{}\n{}\n\n", lines[0], lines[1], lines[2], lines[3], lines[4]);
    assert_eq!(parse(&doc).unwrap(), expected);
    assert_eq!(parse("").unwrap(), vec![]);
    assert_eq!(parse("\n\n\n").unwrap(), vec![]);
}
