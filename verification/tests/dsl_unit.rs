//! Unit-level tests of DSL → Mermaid code generation.

use diamem::dsl::dsl_to_mermaid;


#[test]
fn mermaid_header() {
    let result = dsl_to_mermaid("").unwrap();
    assert_eq!(result, "graph TD\n");
}

#[test]
fn mermaid_connection() {
    let result = dsl_to_mermaid("A -> B\n").unwrap();
    assert!(result.contains("A --> B"));
}

#[test]
fn mermaid_labeled_connection() {
    let result = dsl_to_mermaid("A -[sends]-> B\n").unwrap();
    assert!(result.contains("A -->|sends| B"));
}

#[test]
fn mermaid_sequence() {
    let result = dsl_to_mermaid("User > App : Request\n").unwrap();
    assert!(result.contains("User ->> App: Request"));
}

#[test]
fn mermaid_grouping() {
    let result = dsl_to_mermaid("[Backend] { API, DB }\n").unwrap();
    assert!(result.contains("subgraph Backend"));
    assert!(result.contains("API"));
    assert!(result.contains("DB"));
    assert!(result.contains("end"));
}

#[test]
fn mermaid_standalone_node() {
    let result = dsl_to_mermaid("Lonely\n").unwrap();
    assert!(result.contains("    Lonely\n"));
}

#[test]
fn mermaid_comments_are_skipped() {
    let result = dsl_to_mermaid("# just a comment\n").unwrap();
    assert_eq!(result, "graph TD\n");
}

#[test]
fn mermaid_full_diagram() {
    let input = "\
# My diagram
A -> B
B -[validate]-> C
[Infra] { Redis, Postgres }
";
    let result = dsl_to_mermaid(input).unwrap();
    assert!(result.starts_with("graph TD\n"));
    assert!(result.contains("A --> B"));
    assert!(result.contains("B -->|validate| C"));
    assert!(result.contains("subgraph Infra"));
    assert!(result.contains("Redis"));
    assert!(result.contains("Postgres"));
}

#[test]
fn mermaid_propagates_parse_error() {
    let result = dsl_to_mermaid("{{{{ broken");
    assert!(result.is_err());
}

// ── New syntax features ─────────────────────────────────────────────

#[test]
fn mermaid_chain_connection() {
    let result = dsl_to_mermaid("A -> B -> C\n").unwrap();
    assert!(result.contains("A --> B"));
    assert!(result.contains("B --> C"));
}

#[test]
fn mermaid_header_grouping() {
    let result = dsl_to_mermaid("@ Backend: API, DB\n").unwrap();
    assert!(result.contains("subgraph Backend"));
    assert!(result.contains("API"));
    assert!(result.contains("DB"));
    assert!(result.contains("end"));
}

#[test]
fn mermaid_paren_labeled_connection() {
    let result = dsl_to_mermaid("A -(sends)> B\n").unwrap();
    assert!(result.contains("A -->|sends| B"));
}

#[test]
fn mermaid_mixed_old_and_new_syntax() {
    let input = "\
@ Phase1: Scaffold, Parser, BasicUI
[Phase2] { SVGRender, LivePreview }
Scaffold -> Parser -> BasicUI
API -(queries)> DB
API -[caches]-> Redis
";
    let result = dsl_to_mermaid(input).unwrap();
    assert!(result.contains("subgraph Phase1"));
    assert!(result.contains("subgraph Phase2"));
    assert!(result.contains("Scaffold --> Parser"));
    assert!(result.contains("Parser --> BasicUI"));
    assert!(result.contains("API -->|queries| DB"));
    assert!(result.contains("API -->|caches| Redis"));
}

// ── Mindmap ─────────────────────────────────────────────────────────

#[test]
fn mindmap_header() {
    let input = "mindmap: Root\n- Child\n";
    let result = dsl_to_mermaid(input).unwrap();
    assert!(result.starts_with("mindmap\n"));
}

#[test]
fn mindmap_root_and_branches() {
    let input = "mindmap: Central Topic\n- Branch1\n- Branch2\n";
    let result = dsl_to_mermaid(input).unwrap();
    assert!(result.contains("  Central Topic\n"));
    assert!(result.contains("    Branch1\n"));
    assert!(result.contains("    Branch2\n"));
}

#[test]
fn mindmap_nested_depth() {
    let input = "\
mindmap: Root
- A
-- A1
--- Deep
";
    let result = dsl_to_mermaid(input).unwrap();
    // Root at 2 spaces, depth 1 at 4, depth 2 at 6, depth 3 at 8
    assert!(result.contains("  Root\n"));
    assert!(result.contains("    A\n"));
    assert!(result.contains("      A1\n"));
    assert!(result.contains("        Deep\n"));
}

#[test]
fn mindmap_does_not_emit_graph_td() {
    let input = "mindmap: X\n- Y\n";
    let result = dsl_to_mermaid(input).unwrap();
    assert!(!result.contains("graph TD"));
}

#[test]
fn graph_without_mindmap_emits_graph_td() {
    let result = dsl_to_mermaid("A -> B\n").unwrap();
    assert!(result.starts_with("graph TD\n"));
    assert!(!result.starts_with("mindmap\n"));
}
