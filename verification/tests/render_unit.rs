//! Tests of the text-level rendering helpers.

use diamem::render::{recolor_timeline_svg, xml_escape};

#[test]
fn xml_escape_special_chars() {
    assert_eq!(xml_escape("<>&\"'"), "&lt;&gt;&amp;&quot;&apos;");
}

// ── recolor_timeline_svg ────────────────────────────────────────────

#[test]
fn timeline_recolor_replaces_all_pastels() {
    let input = r##"fill="#ECECFF" fill="#FFE6CC" fill="#D5E8D4" fill="#F8CECC" fill="#FFF2CC" fill="#E1D5E7""##;
    let result = recolor_timeline_svg(input);
    // None of the light pastels should remain
    assert!(!result.contains("#ECECFF"));
    assert!(!result.contains("#FFE6CC"));
    assert!(!result.contains("#D5E8D4"));
    assert!(!result.contains("#F8CECC"));
    assert!(!result.contains("#FFF2CC"));
    assert!(!result.contains("#E1D5E7"));
}

#[test]
fn timeline_recolor_uses_dark_fills() {
    let input = r##"fill="#ECECFF""##;
    let result = recolor_timeline_svg(input);
    assert!(result.contains("#1A2D3A"));
}

#[test]
fn timeline_recolor_leaves_other_colors_intact() {
    let input = r##"fill="#121212" stroke="#5A9B80""##;
    let result = recolor_timeline_svg(input);
    assert_eq!(result, input);
}

