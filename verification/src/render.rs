//! Text-level parts of the rendering pipeline: diagram kind detection,
//! timeline recolouring, XML escaping and SVG attribute editing.
//!
//! Rasterisation and the floating-point footer layout live with the
//! renderer, outside this library; they use the functions here.
use vstd::prelude::*;
use crate::dsl::{has_mindmap, spec_mermaid};
use crate::parser::grammar::SpecStatement;
use crate::parser::strings_view;
use crate::text::{
    chars_string, contains_seq, find, find_in, find_seq, find_seq_in, has_prefix, non_ws_pred, prefix_count,
    push_range, replace_all, replace_chars, scan_non_ws, skip_ws, starts_with_at, str_chars,
    trim_start, words,
};

verus! {

/// Rasterised diagram image (premultiplied RGBA, row-major).
pub struct RenderedDiagram {
    /// Width in pixels.
    pub width: u32,
    /// Height in pixels.
    pub height: u32,
    /// Pixel data — 4 bytes per pixel, premultiplied RGBA.
    pub rgba_data: Vec<u8>,
}

// ── Diagram kind ────────────────────────────────────────────────────────────

/// Which Mermaid diagram a source text is; it selects the render options.
#[derive(Debug, Clone, Copy, PartialEq, Eq)]
pub enum DiagramKind {
    Graph,
    Mindmap,
    Timeline,
}

pub open spec fn spec_diagram_kind(s: Seq<char>) -> DiagramKind {
    if has_prefix(s, "mindmap\n"@) {
        DiagramKind::Mindmap
    } else if has_prefix(s, "timeline\n"@) {
        DiagramKind::Timeline
    } else {
        DiagramKind::Graph
    }
}

/// The kind of diagram a Mermaid text declares on its first line.
pub fn diagram_kind(mermaid: &str) -> (k: DiagramKind)
    ensures
        k == spec_diagram_kind(mermaid@),
{
    let v = str_chars(mermaid);
    let m = str_chars("mindmap\n");
    if starts_with_at(&v, 0, v.len(), &m) {
        proof {
            assert(v@.subrange(0, v.len() as int) =~= v@);
        }
        return DiagramKind::Mindmap;
    }
    let t = str_chars("timeline\n");
    proof {
        assert(v@.subrange(0, v.len() as int) =~= v@);
    }
    if starts_with_at(&v, 0, v.len(), &t) {
        DiagramKind::Timeline
    } else {
        DiagramKind::Graph
    }
}

/// The renderer reads the text compiled from a DSL as a mindmap exactly when
/// the DSL has a `mindmap:` block, and as a graph otherwise.
pub proof fn lemma_compiled_kind(ss: Seq<SpecStatement>)
    ensures
        spec_diagram_kind(spec_mermaid(ss)) == (if has_mindmap(ss) {
            DiagramKind::Mindmap
        } else {
            DiagramKind::Graph
        }),
{
    reveal_strlit("mindmap\n");
    reveal_strlit("timeline\n");
    reveal_strlit("graph TD\n");
    let m = spec_mermaid(ss);
    if has_mindmap(ss) {
        assert(m.take(8) =~= "mindmap\n"@);
    } else {
        assert(m.take(9)[0] == 'g');
        assert(m[0] == 'g');
        if has_prefix(m, "mindmap\n"@) {
            assert(m.take(8)[0] == m[0]);
        }
        if has_prefix(m, "timeline\n"@) {
            assert(m.take(9)[0] == m[0]);
        }
    }
}

// ── String replacement ──────────────────────────────────────────────────────

/// `s` with every occurrence of the non-empty pattern `pat` replaced by `rep`.
pub fn replace_str(s: &str, pat: &str, rep: &str) -> (r: String)
    requires
        pat@.len() > 0,
    ensures
        r@ == replace_all(s@, pat@, rep@),
{
    let v = str_chars(s);
    let p = str_chars(pat);
    let q = str_chars(rep);
    let out = replace_chars(&v, &p, &q);
    chars_string(&out)
}

/// The six light pastel event fills of timeline diagrams, each replaced by a
/// dark fill of the ilseon palette, one after the other.
pub open spec fn recolored(s: Seq<char>) -> Seq<char> {
    let s1 = replace_all(s, "#ECECFF"@, "#1A2D3A"@);
    let s2 = replace_all(s1, "#FFE6CC"@, "#2E2518"@);
    let s3 = replace_all(s2, "#D5E8D4"@, "#1A2E24"@);
    let s4 = replace_all(s3, "#F8CECC"@, "#2E1A1A"@);
    let s5 = replace_all(s4, "#FFF2CC"@, "#2E2A18"@);
    replace_all(s5, "#E1D5E7"@, "#241E2E"@)
}

/// Replacing a pattern by one of the same length keeps the length.
proof fn lemma_replace_same_len(s: Seq<char>, p: Seq<char>, r: Seq<char>)
    requires
        p.len() == r.len(),
    ensures
        replace_all(s, p, r).len() == s.len(),
    decreases s.len(),
{
    if p.len() > 0 && s.len() > 0 {
        if has_prefix(s, p) {
            lemma_replace_same_len(s.skip(p.len() as int), p, r);
        } else {
            lemma_replace_same_len(s.drop_first(), p, r);
        }
    }
}

/// Recolouring swaps colour codes for codes of the same length, so the
/// document keeps its length.
pub proof fn lemma_recolor_keeps_length(s: Seq<char>)
    ensures
        recolored(s).len() == s.len(),
{
    reveal_strlit("#ECECFF");
    reveal_strlit("#1A2D3A");
    reveal_strlit("#FFE6CC");
    reveal_strlit("#2E2518");
    reveal_strlit("#D5E8D4");
    reveal_strlit("#1A2E24");
    reveal_strlit("#F8CECC");
    reveal_strlit("#2E1A1A");
    reveal_strlit("#FFF2CC");
    reveal_strlit("#2E2A18");
    reveal_strlit("#E1D5E7");
    reveal_strlit("#241E2E");
    let s1 = replace_all(s, "#ECECFF"@, "#1A2D3A"@);
    let s2 = replace_all(s1, "#FFE6CC"@, "#2E2518"@);
    let s3 = replace_all(s2, "#D5E8D4"@, "#1A2E24"@);
    let s4 = replace_all(s3, "#F8CECC"@, "#2E1A1A"@);
    let s5 = replace_all(s4, "#FFF2CC"@, "#2E2A18"@);
    lemma_replace_same_len(s, "#ECECFF"@, "#1A2D3A"@);
    lemma_replace_same_len(s1, "#FFE6CC"@, "#2E2518"@);
    lemma_replace_same_len(s2, "#D5E8D4"@, "#1A2E24"@);
    lemma_replace_same_len(s3, "#F8CECC"@, "#2E1A1A"@);
    lemma_replace_same_len(s4, "#FFF2CC"@, "#2E2A18"@);
    lemma_replace_same_len(s5, "#E1D5E7"@, "#241E2E"@);
}

/// Replace the light-pastel event-box fills of timeline SVGs with dark
/// ilseon-palette equivalents:
/// `#ECECFF`→`#1A2D3A`, `#FFE6CC`→`#2E2518`, `#D5E8D4`→`#1A2E24`,
/// `#F8CECC`→`#2E1A1A`, `#FFF2CC`→`#2E2A18`, `#E1D5E7`→`#241E2E`.
pub fn recolor_timeline_svg(svg: &str) -> (r: String)
    ensures
        r@ == recolored(svg@),
{
    proof {
        reveal_strlit("#ECECFF");
        reveal_strlit("#FFE6CC");
        reveal_strlit("#D5E8D4");
        reveal_strlit("#F8CECC");
        reveal_strlit("#FFF2CC");
        reveal_strlit("#E1D5E7");
    }
    let v0 = str_chars(svg);
    let v1 = replace_chars(&v0, &str_chars("#ECECFF"), &str_chars("#1A2D3A"));
    let v2 = replace_chars(&v1, &str_chars("#FFE6CC"), &str_chars("#2E2518"));
    let v3 = replace_chars(&v2, &str_chars("#D5E8D4"), &str_chars("#1A2E24"));
    let v4 = replace_chars(&v3, &str_chars("#F8CECC"), &str_chars("#2E1A1A"));
    let v5 = replace_chars(&v4, &str_chars("#FFF2CC"), &str_chars("#2E2A18"));
    let v6 = replace_chars(&v5, &str_chars("#E1D5E7"), &str_chars("#241E2E"));
    chars_string(&v6)
}

// ── Laws of recolouring ─────────────────────────────────────────────────────

/// Replacing a pattern that does not occur changes nothing.
pub proof fn lemma_replace_absent(s: Seq<char>, p: Seq<char>, r: Seq<char>)
    requires
        !contains_seq(s, p),
    ensures
        replace_all(s, p, r) == s,
    decreases s.len(),
{
    if p.len() > 0 && s.len() > 0 {
        if has_prefix(s, p) {
            assert(s.subrange(0int, 0int + p.len()) =~= p);
            assert(contains_seq(s, p));
        } else {
            let u = s.drop_first();
            assert(!contains_seq(u, p)) by {
                if contains_seq(u, p) {
                    let i = choose|i: int|
                        0 <= i && i + p.len() <= u.len() && #[trigger] u.subrange(i, i + p.len()) == p;
                    assert(s.subrange(i + 1, (i + 1) + p.len()) =~= u.subrange(i, i + p.len()));
                    assert(contains_seq(s, p));
                }
            }
            lemma_replace_absent(u, p, r);
            assert(replace_all(s, p, r) =~= s);
        }
    }
}

/// A colour code: `#` and six characters other than `#`.
pub open spec fn is_color_code(h: Seq<char>) -> bool {
    h.len() == 7 && h[0] == '#' && forall|i: int| 1 <= i < 7 ==> #[trigger] h[i] != '#'
}

/// Before the first `#`, replacing a `#`-led pattern by a `#`-led text keeps
/// the characters; the first `#` stays a `#`.
proof fn lemma_replace_keeps_prefix(u: Seq<char>, p: Seq<char>, r: Seq<char>, m: int)
    requires
        p.len() > 0,
        p[0] == '#',
        r.len() > 0,
        r[0] == '#',
        0 <= m <= u.len(),
        forall|k: int| 0 <= k < m ==> u[k] != '#',
    ensures
        replace_all(u, p, r).len() >= m,
        forall|k: int| 0 <= k < m ==> #[trigger] replace_all(u, p, r)[k] == u[k],
        m < u.len() && u[m] == '#' ==> replace_all(u, p, r).len() > m && replace_all(u, p, r)[m]
            == '#',
        m == u.len() ==> replace_all(u, p, r) == u,
    decreases m,
{
    if m > 0 {
        assert(!has_prefix(u, p)) by {
            if has_prefix(u, p) {
                assert(u.take(p.len() as int)[0] == p[0]);
            }
        }
        let v = u.drop_first();
        lemma_replace_keeps_prefix(v, p, r, m - 1);
        let rv = replace_all(v, p, r);
        assert(replace_all(u, p, r) == seq![u[0]] + rv);
        assert forall|k: int| 0 <= k < m implies #[trigger] replace_all(u, p, r)[k] == u[k] by {
            if k > 0 {
                assert(replace_all(u, p, r)[k] == rv[k - 1]);
            }
        }
        if m == u.len() {
            assert(seq![u[0]] + v =~= u);
        }
    }
}

/// Replacing colour code `p` by colour code `r` leaves no occurrence of a
/// colour code `x` other than `r`, provided `x` is `p` or did not occur.
pub proof fn lemma_replace_excludes(s: Seq<char>, p: Seq<char>, r: Seq<char>, x: Seq<char>)
    requires
        is_color_code(p),
        is_color_code(r),
        is_color_code(x),
        x != r,
        x == p || !contains_seq(s, x),
    ensures
        !contains_seq(replace_all(s, p, r), x),
    decreases s.len(),
{
    let res = replace_all(s, p, r);
    if s.len() == 0 {
        if contains_seq(res, x) {
            let i = choose|i: int| 0 <= i && i + x.len() <= res.len() && #[trigger] res.subrange(i, i + x.len()) == x;
        }
    } else if has_prefix(s, p) {
        let rest = s.skip(7);
        assert(x == p || !contains_seq(rest, x)) by {
            if x != p && contains_seq(rest, x) {
                let i = choose|i: int| 0 <= i && i + x.len() <= rest.len() && #[trigger] rest.subrange(i, i + x.len()) == x;
                assert(s.subrange(i + 7, (i + 7) + x.len()) =~= rest.subrange(i, i + x.len()));
                assert(contains_seq(s, x));
            }
        }
        lemma_replace_excludes(rest, p, r, x);
        let r2 = replace_all(rest, p, r);
        assert(res == r + r2);
        if contains_seq(res, x) {
            let i = choose|i: int| 0 <= i && i + x.len() <= res.len() && #[trigger] res.subrange(i, i + x.len()) == x;
            if i == 0 {
                assert(res.subrange(0, 7) =~= r);
            } else if i < 7 {
                assert(res.subrange(i, i + 7)[0] == x[0]);
                assert(res[i] == r[i]);
            } else {
                assert(r2.subrange(i - 7, (i - 7) + x.len()) =~= res.subrange(i, i + x.len()));
                assert(contains_seq(r2, x));
            }
        }
    } else {
        let u = s.drop_first();
        assert(x == p || !contains_seq(u, x)) by {
            if x != p && contains_seq(u, x) {
                let i = choose|i: int| 0 <= i && i + x.len() <= u.len() && #[trigger] u.subrange(i, i + x.len()) == x;
                assert(s.subrange(i + 1, (i + 1) + x.len()) =~= u.subrange(i, i + x.len()));
                assert(contains_seq(s, x));
            }
        }
        lemma_replace_excludes(u, p, r, x);
        let r2 = replace_all(u, p, r);
        assert(res == seq![s[0]] + r2);
        if contains_seq(res, x) {
            let i = choose|i: int| 0 <= i && i + x.len() <= res.len() && #[trigger] res.subrange(i, i + x.len()) == x;
            if i > 0 {
                assert(r2.subrange(i - 1, (i - 1) + x.len()) =~= res.subrange(i, i + x.len()));
                assert(contains_seq(r2, x));
            } else {
                assert forall|k: int| 0 <= k < 6 implies #[trigger] r2[k] == x[k + 1] by {
                    assert(res.subrange(0, 7)[k + 1] == x[k + 1]);
                }
                crate::text::lemma_find(u, '#');
                match find(u, '#') {
                    Some(j) => {
                        if j < 6 {
                            lemma_replace_keeps_prefix(u, p, r, j as int);
                            assert(r2[j as int] == x[(j + 1) as int]);
                        } else {
                            lemma_replace_keeps_prefix(u, p, r, 6);
                            assert(s.subrange(0int, 0int + x.len()) =~= x);
                            assert(contains_seq(s, x));
                            assert(has_prefix(s, x));
                        }
                    },
                    None => {
                        lemma_replace_keeps_prefix(u, p, r, u.len() as int);
                        assert(s.subrange(0int, 0int + x.len()) =~= x);
                        assert(contains_seq(s, x));
                        assert(has_prefix(s, x));
                    },
                }
            }
        }
    }
}

/// The light pastel fills that timeline recolouring removes.
pub open spec fn pastels() -> Seq<Seq<char>> {
    seq!["#ECECFF"@, "#FFE6CC"@, "#D5E8D4"@, "#F8CECC"@, "#FFF2CC"@, "#E1D5E7"@]
}

/// The dark fills that replace them.
pub open spec fn dark_fills() -> Seq<Seq<char>> {
    seq!["#1A2D3A"@, "#2E2518"@, "#1A2E24"@, "#2E1A1A"@, "#2E2A18"@, "#241E2E"@]
}

proof fn lemma_palette_codes()
    ensures
        forall|i: int| 0 <= i < 6 ==> is_color_code(#[trigger] pastels()[i]),
        forall|i: int| 0 <= i < 6 ==> is_color_code(#[trigger] dark_fills()[i]),
        forall|i: int, j: int| 0 <= i < 6 && 0 <= j < 6 ==> #[trigger] pastels()[i] != #[trigger] dark_fills()[j],
        forall|i: int, j: int| 0 <= i < 6 && 0 <= j < 6 && i != j ==> #[trigger] pastels()[i] != #[trigger] pastels()[j],
{
    reveal_strlit("#ECECFF");
    reveal_strlit("#FFE6CC");
    reveal_strlit("#D5E8D4");
    reveal_strlit("#F8CECC");
    reveal_strlit("#FFF2CC");
    reveal_strlit("#E1D5E7");
    reveal_strlit("#1A2D3A");
    reveal_strlit("#2E2518");
    reveal_strlit("#1A2E24");
    reveal_strlit("#2E1A1A");
    reveal_strlit("#2E2A18");
    reveal_strlit("#241E2E");
    assert forall|i: int, j: int| 0 <= i < 6 && 0 <= j < 6 implies #[trigger] pastels()[i]
        != #[trigger] dark_fills()[j] by {
        assert(pastels()[i][1] != dark_fills()[j][1] || pastels()[i][2] != dark_fills()[j][2]);
    }
    assert forall|i: int, j: int| 0 <= i < 6 && 0 <= j < 6 && i != j implies #[trigger] pastels()[i]
        != #[trigger] pastels()[j] by {
        assert(pastels()[i][1] != pastels()[j][1] || pastels()[i][2] != pastels()[j][2]
            || pastels()[i][3] != pastels()[j][3]);
    }
}

/// Recolouring leaves none of the six light pastel fills in a timeline SVG.
pub proof fn lemma_recolor_removes_pastels(s: Seq<char>)
    ensures
        forall|i: int| 0 <= i < 6 ==> !contains_seq(recolored(s), #[trigger] pastels()[i]),
{
    lemma_palette_codes();
    let ps = pastels();
    let ds = dark_fills();
    assert(ps[0] == "#ECECFF"@ && ds[0] == "#1A2D3A"@);
    assert(ps[1] == "#FFE6CC"@ && ds[1] == "#2E2518"@);
    assert(ps[2] == "#D5E8D4"@ && ds[2] == "#1A2E24"@);
    assert(ps[3] == "#F8CECC"@ && ds[3] == "#2E1A1A"@);
    assert(ps[4] == "#FFF2CC"@ && ds[4] == "#2E2A18"@);
    assert(ps[5] == "#E1D5E7"@ && ds[5] == "#241E2E"@);
    let s1 = replace_all(s, ps[0], ds[0]);
    let s2 = replace_all(s1, ps[1], ds[1]);
    let s3 = replace_all(s2, ps[2], ds[2]);
    let s4 = replace_all(s3, ps[3], ds[3]);
    let s5 = replace_all(s4, ps[4], ds[4]);
    let s6 = replace_all(s5, ps[5], ds[5]);
    assert(s6 == recolored(s));
    lemma_replace_excludes(s, ps[0], ds[0], ps[0]);
    lemma_replace_excludes(s1, ps[1], ds[1], ps[0]);
    lemma_replace_excludes(s1, ps[1], ds[1], ps[1]);
    lemma_replace_excludes(s2, ps[2], ds[2], ps[0]);
    lemma_replace_excludes(s2, ps[2], ds[2], ps[1]);
    lemma_replace_excludes(s2, ps[2], ds[2], ps[2]);
    lemma_replace_excludes(s3, ps[3], ds[3], ps[0]);
    lemma_replace_excludes(s3, ps[3], ds[3], ps[1]);
    lemma_replace_excludes(s3, ps[3], ds[3], ps[2]);
    lemma_replace_excludes(s3, ps[3], ds[3], ps[3]);
    lemma_replace_excludes(s4, ps[4], ds[4], ps[0]);
    lemma_replace_excludes(s4, ps[4], ds[4], ps[1]);
    lemma_replace_excludes(s4, ps[4], ds[4], ps[2]);
    lemma_replace_excludes(s4, ps[4], ds[4], ps[3]);
    lemma_replace_excludes(s4, ps[4], ds[4], ps[4]);
    lemma_replace_excludes(s5, ps[5], ds[5], ps[0]);
    lemma_replace_excludes(s5, ps[5], ds[5], ps[1]);
    lemma_replace_excludes(s5, ps[5], ds[5], ps[2]);
    lemma_replace_excludes(s5, ps[5], ds[5], ps[3]);
    lemma_replace_excludes(s5, ps[5], ds[5], ps[4]);
    lemma_replace_excludes(s5, ps[5], ds[5], ps[5]);
}

/// Recolouring leaves an SVG without any of the six pastel fills unchanged.
pub proof fn lemma_recolor_keeps_other_colors(s: Seq<char>)
    requires
        forall|i: int| 0 <= i < 6 ==> !contains_seq(s, #[trigger] pastels()[i]),
    ensures
        recolored(s) == s,
{
    let ps = pastels();
    assert(!contains_seq(s, ps[0]) && !contains_seq(s, ps[1]) && !contains_seq(s, ps[2]));
    assert(!contains_seq(s, ps[3]) && !contains_seq(s, ps[4]) && !contains_seq(s, ps[5]));
    lemma_replace_absent(s, "#ECECFF"@, "#1A2D3A"@);
    lemma_replace_absent(s, "#FFE6CC"@, "#2E2518"@);
    lemma_replace_absent(s, "#D5E8D4"@, "#1A2E24"@);
    lemma_replace_absent(s, "#F8CECC"@, "#2E1A1A"@);
    lemma_replace_absent(s, "#FFF2CC"@, "#2E2A18"@);
    lemma_replace_absent(s, "#E1D5E7"@, "#241E2E"@);
}

/// Replacing `q` in a text whose only `#` starts the colour code `x`: the
/// code is replaced when it is `q`, and nothing changes otherwise.
proof fn lemma_replace_lone_code(a: Seq<char>, x: Seq<char>, b: Seq<char>, q: Seq<char>, r: Seq<char>)
    requires
        forall|k: int| 0 <= k < a.len() ==> a[k] != '#',
        forall|k: int| 0 <= k < b.len() ==> b[k] != '#',
        is_color_code(x),
        is_color_code(q),
        is_color_code(r),
    ensures
        replace_all(a + x + b, q, r) == if q == x {
            a + r + b
        } else {
            a + x + b
        },
    decreases a.len(),
{
    let s = a + x + b;
    if q == x {
        if a.len() == 0 {
            assert(s =~= x + b);
            assert(s.take(x.len() as int) =~= x);
            assert(s.skip(x.len() as int) =~= b);
            lemma_replace_keeps_prefix(b, q, r, b.len() as int);
            assert(a + r + b =~= r + b);
        } else {
            assert(!has_prefix(s, q)) by {
                if has_prefix(s, q) {
                    assert(s.take(q.len() as int)[0] == s[0]);
                }
            }
            let a1 = a.drop_first();
            lemma_replace_lone_code(a1, x, b, q, r);
            assert(s.drop_first() =~= a1 + x + b);
            assert(seq![s[0]] + (a1 + r + b) =~= a + r + b);
        }
    } else {
        assert(!contains_seq(s, q)) by {
            if contains_seq(s, q) {
                let j = choose|j: int| 0 <= j && j + q.len() <= s.len() && #[trigger] s.subrange(j, j + q.len()) == q;
                assert(s.subrange(j, j + q.len())[0] == s[j]);
                assert(s[j] == '#');
                if j < a.len() {
                    assert(s[j] == a[j]);
                } else if j > a.len() && j < a.len() + x.len() {
                    assert(s[j] == x[j - a.len()]);
                } else if j >= a.len() + x.len() {
                    assert(s[j] == b[j - a.len() - x.len()]);
                } else {
                    assert(s.subrange(j, j + q.len()) =~= x);
                }
            }
        }
        lemma_replace_absent(s, q, r);
    }
}

/// Each pastel fill is replaced by its own dark fill, wherever it stands:
/// in a text whose only colour code is one pastel, recolouring swaps exactly
/// that code and keeps everything around it.
pub proof fn lemma_recolor_each_pastel(a: Seq<char>, b: Seq<char>)
    requires
        forall|k: int| 0 <= k < a.len() ==> a[k] != '#',
        forall|k: int| 0 <= k < b.len() ==> b[k] != '#',
    ensures
        recolored(a + "#ECECFF"@ + b) == a + "#1A2D3A"@ + b,
        recolored(a + "#FFE6CC"@ + b) == a + "#2E2518"@ + b,
        recolored(a + "#D5E8D4"@ + b) == a + "#1A2E24"@ + b,
        recolored(a + "#F8CECC"@ + b) == a + "#2E1A1A"@ + b,
        recolored(a + "#FFF2CC"@ + b) == a + "#2E2A18"@ + b,
        recolored(a + "#E1D5E7"@ + b) == a + "#241E2E"@ + b,
{
    lemma_recolor_pastel_at(a, b, 0);
    lemma_recolor_pastel_at(a, b, 1);
    lemma_recolor_pastel_at(a, b, 2);
    lemma_recolor_pastel_at(a, b, 3);
    lemma_recolor_pastel_at(a, b, 4);
    lemma_recolor_pastel_at(a, b, 5);
}

proof fn lemma_recolor_pastel_at(a: Seq<char>, b: Seq<char>, i: int)
    requires
        forall|k: int| 0 <= k < a.len() ==> a[k] != '#',
        forall|k: int| 0 <= k < b.len() ==> b[k] != '#',
        0 <= i < 6,
    ensures
        recolored(a + pastels()[i] + b) == a + dark_fills()[i] + b,
{
    lemma_palette_codes();
    let ps = pastels();
    let ds = dark_fills();
    assert(ps[0] == "#ECECFF"@ && ds[0] == "#1A2D3A"@);
    assert(ps[1] == "#FFE6CC"@ && ds[1] == "#2E2518"@);
    assert(ps[2] == "#D5E8D4"@ && ds[2] == "#1A2E24"@);
    assert(ps[3] == "#F8CECC"@ && ds[3] == "#2E1A1A"@);
    assert(ps[4] == "#FFF2CC"@ && ds[4] == "#2E2A18"@);
    assert(ps[5] == "#E1D5E7"@ && ds[5] == "#241E2E"@);
    let x0 = ps[i];
    let s0 = a + x0 + b;
    assert(is_color_code(ps[0]) && is_color_code(ps[1]) && is_color_code(ps[2]));
    assert(is_color_code(ps[3]) && is_color_code(ps[4]) && is_color_code(ps[5]));
    assert(is_color_code(ds[0]) && is_color_code(ds[1]) && is_color_code(ds[2]));
    assert(is_color_code(ds[3]) && is_color_code(ds[4]) && is_color_code(ds[5]));
    assert(is_color_code(x0));
    let x1 = if ps[0] == x0 { ds[0] } else { x0 };
    lemma_replace_lone_code(a, x0, b, ps[0], ds[0]);
    let x2 = if ps[1] == x1 { ds[1] } else { x1 };
    lemma_replace_lone_code(a, x1, b, ps[1], ds[1]);
    let x3 = if ps[2] == x2 { ds[2] } else { x2 };
    lemma_replace_lone_code(a, x2, b, ps[2], ds[2]);
    let x4 = if ps[3] == x3 { ds[3] } else { x3 };
    lemma_replace_lone_code(a, x3, b, ps[3], ds[3]);
    let x5 = if ps[4] == x4 { ds[4] } else { x4 };
    lemma_replace_lone_code(a, x4, b, ps[4], ds[4]);
    lemma_replace_lone_code(a, x5, b, ps[5], ds[5]);
    assert(ps[0] != ds[i] && ps[1] != ds[i] && ps[2] != ds[i]);
    assert(ps[3] != ds[i] && ps[4] != ds[i] && ps[5] != ds[i]);
}

// ── XML escaping ────────────────────────────────────────────────────────────

pub open spec fn escape_char(c: char) -> Seq<char> {
    if c == '&' {
        "&amp;"@
    } else if c == '<' {
        "&lt;"@
    } else if c == '>' {
        "&gt;"@
    } else if c == '"' {
        "&quot;"@
    } else if c == '\'' {
        "&apos;"@
    } else {
        seq![c]
    }
}

/// `s` with `& < > " '` written as XML entities.
pub open spec fn xml_escaped(s: Seq<char>) -> Seq<char>
    decreases s.len(),
{
    if s.len() == 0 {
        seq![]
    } else {
        xml_escaped(s.drop_last()) + escape_char(s.last())
    }
}

/// Escape text for use inside an XML element or attribute.
pub fn xml_escape(s: &str) -> (r: String)
    ensures
        r@ == xml_escaped(s@),
{
    let v = str_chars(s);
    let mut out = String::new();
    let mut i: usize = 0;
    while i < v.len()
        invariant
            i <= v.len(),
            v@ == s@,
            out@ == xml_escaped(v@.take(i as int)),
        decreases v.len() - i,
    {
        let c = v[i];
        if c == '&' {
            out.append("&amp;");
        } else if c == '<' {
            out.append("&lt;");
        } else if c == '>' {
            out.append("&gt;");
        } else if c == '"' {
            out.append("&quot;");
        } else if c == '\'' {
            out.append("&apos;");
        } else {
            crate::text::push_char(&mut out, c);
        }
        proof {
            assert(v@.take(i + 1).drop_last() =~= v@.take(i as int));
            assert(v@.take(i + 1).last() == c);
        }
        i += 1;
    }
    proof {
        assert(v@.take(v.len() as int) =~= v@);
    }
    out
}

/// Reading XML text back: `&amp; &lt; &gt; &quot; &apos;` become the
/// characters they stand for, in one left-to-right pass; every other
/// character is kept.
pub open spec fn xml_unescaped(s: Seq<char>) -> Seq<char>
    decreases s.len(),
{
    if s.len() == 0 {
        seq![]
    } else if has_prefix(s, seq!['&', 'a', 'm', 'p', ';']) {
        seq!['&'] + xml_unescaped(s.skip(5))
    } else if has_prefix(s, seq!['&', 'l', 't', ';']) {
        seq!['<'] + xml_unescaped(s.skip(4))
    } else if has_prefix(s, seq!['&', 'g', 't', ';']) {
        seq!['>'] + xml_unescaped(s.skip(4))
    } else if has_prefix(s, seq!['&', 'q', 'u', 'o', 't', ';']) {
        seq!['"'] + xml_unescaped(s.skip(6))
    } else if has_prefix(s, seq!['&', 'a', 'p', 'o', 's', ';']) {
        seq!['\''] + xml_unescaped(s.skip(6))
    } else {
        seq![s[0]] + xml_unescaped(s.drop_first())
    }
}

proof fn lemma_unescape_char(c: char, y: Seq<char>)
    ensures
        xml_unescaped(escape_char(c) + y) == seq![c] + xml_unescaped(y),
{
    reveal_strlit("&amp;");
    reveal_strlit("&lt;");
    reveal_strlit("&gt;");
    reveal_strlit("&quot;");
    reveal_strlit("&apos;");
    let s = escape_char(c) + y;
    let e = escape_char(c);
    assert(s.take(e.len() as int) =~= e);
    assert(s.skip(e.len() as int) =~= y);
    if c == '&' {
        assert(e =~= seq!['&', 'a', 'm', 'p', ';']);
    } else if c == '<' {
        assert(e =~= seq!['&', 'l', 't', ';']);
        assert(s[1] == 'l');
        assert(!has_prefix(s, seq!['&', 'a', 'm', 'p', ';'])) by {
            if has_prefix(s, seq!['&', 'a', 'm', 'p', ';']) {
                assert(s.take(5)[1] == s[1]);
            }
        }
    } else if c == '>' {
        assert(e =~= seq!['&', 'g', 't', ';']);
        assert(s[1] == 'g');
        assert(!has_prefix(s, seq!['&', 'a', 'm', 'p', ';'])) by {
            if has_prefix(s, seq!['&', 'a', 'm', 'p', ';']) {
                assert(s.take(5)[1] == s[1]);
            }
        }
        assert(!has_prefix(s, seq!['&', 'l', 't', ';'])) by {
            if has_prefix(s, seq!['&', 'l', 't', ';']) {
                assert(s.take(4)[1] == s[1]);
            }
        }
    } else if c == '"' {
        assert(e =~= seq!['&', 'q', 'u', 'o', 't', ';']);
        assert(s[1] == 'q');
        assert(!has_prefix(s, seq!['&', 'a', 'm', 'p', ';'])) by {
            if has_prefix(s, seq!['&', 'a', 'm', 'p', ';']) {
                assert(s.take(5)[1] == s[1]);
            }
        }
        assert(!has_prefix(s, seq!['&', 'l', 't', ';'])) by {
            if has_prefix(s, seq!['&', 'l', 't', ';']) {
                assert(s.take(4)[1] == s[1]);
            }
        }
        assert(!has_prefix(s, seq!['&', 'g', 't', ';'])) by {
            if has_prefix(s, seq!['&', 'g', 't', ';']) {
                assert(s.take(4)[1] == s[1]);
            }
        }
    } else if c == '\'' {
        assert(e =~= seq!['&', 'a', 'p', 'o', 's', ';']);
        assert(s[2] == 'p' && s[1] == 'a');
        assert(!has_prefix(s, seq!['&', 'a', 'm', 'p', ';'])) by {
            if has_prefix(s, seq!['&', 'a', 'm', 'p', ';']) {
                assert(s.take(5)[2] == s[2]);
            }
        }
        assert(!has_prefix(s, seq!['&', 'l', 't', ';'])) by {
            if has_prefix(s, seq!['&', 'l', 't', ';']) {
                assert(s.take(4)[1] == s[1]);
            }
        }
        assert(!has_prefix(s, seq!['&', 'g', 't', ';'])) by {
            if has_prefix(s, seq!['&', 'g', 't', ';']) {
                assert(s.take(4)[1] == s[1]);
            }
        }
        assert(!has_prefix(s, seq!['&', 'q', 'u', 'o', 't', ';'])) by {
            if has_prefix(s, seq!['&', 'q', 'u', 'o', 't', ';']) {
                assert(s.take(6)[1] == s[1]);
            }
        }
    } else {
        assert(e =~= seq![c]);
        assert(s[0] == c);
        assert(s.drop_first() =~= y);
        assert(!has_prefix(s, seq!['&', 'a', 'm', 'p', ';'])) by {
            if has_prefix(s, seq!['&', 'a', 'm', 'p', ';']) {
                assert(s.take(5)[0] == s[0]);
            }
        }
        assert(!has_prefix(s, seq!['&', 'l', 't', ';'])) by {
            if has_prefix(s, seq!['&', 'l', 't', ';']) {
                assert(s.take(4)[0] == s[0]);
            }
        }
        assert(!has_prefix(s, seq!['&', 'g', 't', ';'])) by {
            if has_prefix(s, seq!['&', 'g', 't', ';']) {
                assert(s.take(4)[0] == s[0]);
            }
        }
        assert(!has_prefix(s, seq!['&', 'q', 'u', 'o', 't', ';'])) by {
            if has_prefix(s, seq!['&', 'q', 'u', 'o', 't', ';']) {
                assert(s.take(6)[0] == s[0]);
            }
        }
        assert(!has_prefix(s, seq!['&', 'a', 'p', 'o', 's', ';'])) by {
            if has_prefix(s, seq!['&', 'a', 'p', 'o', 's', ';']) {
                assert(s.take(6)[0] == s[0]);
            }
        }
    }
}

proof fn lemma_unescape_escaped(x: Seq<char>, y: Seq<char>)
    ensures
        xml_unescaped(xml_escaped(x) + y) == x + xml_unescaped(y),
    decreases x.len(),
{
    if x.len() == 0 {
        assert(xml_escaped(x) + y =~= y);
        assert(x + xml_unescaped(y) =~= xml_unescaped(y));
    } else {
        let c = x.last();
        let rest = x.drop_last();
        assert(xml_escaped(x) + y =~= xml_escaped(rest) + (escape_char(c) + y));
        lemma_unescape_escaped(rest, escape_char(c) + y);
        lemma_unescape_char(c, y);
        assert(rest + (seq![c] + xml_unescaped(y)) =~= x + xml_unescaped(y));
    }
}

/// Escaping loses nothing: reading the escaped text back gives the original.
pub proof fn lemma_escape_round_trip(s: Seq<char>)
    ensures
        xml_unescaped(xml_escaped(s)) == s,
{
    lemma_unescape_escaped(s, seq![]);
    assert(xml_escaped(s) + Seq::<char>::empty() =~= xml_escaped(s));
    assert(s + xml_unescaped(Seq::<char>::empty()) =~= s);
}

/// Characters that must not appear raw in XML text or attribute values.
pub open spec fn is_markup_char(c: char) -> bool {
    c == '<' || c == '>' || c == '"' || c == '\''
}

proof fn lemma_escape_char_clean(c: char)
    ensures
        forall|i: int| 0 <= i < escape_char(c).len() ==> !is_markup_char(#[trigger] escape_char(c)[i]),
{
    reveal_strlit("&amp;");
    reveal_strlit("&lt;");
    reveal_strlit("&gt;");
    reveal_strlit("&quot;");
    reveal_strlit("&apos;");
}

/// Escaped text holds no raw `<`, `>`, `"` or `'`.
pub proof fn lemma_escape_clean(s: Seq<char>)
    ensures
        forall|i: int| 0 <= i < xml_escaped(s).len() ==> !is_markup_char(#[trigger] xml_escaped(s)[i]),
    decreases s.len(),
{
    if s.len() > 0 {
        lemma_escape_clean(s.drop_last());
        lemma_escape_char_clean(s.last());
        let a = xml_escaped(s.drop_last());
        let b = escape_char(s.last());
        assert forall|i: int| 0 <= i < xml_escaped(s).len() implies !is_markup_char(
            #[trigger] xml_escaped(s)[i],
        ) by {
            if i < a.len() {
                assert(xml_escaped(s)[i] == a[i]);
            } else {
                assert(xml_escaped(s)[i] == b[i - a.len()]);
            }
        }
    }
}

/// Text without `&`, `<`, `>`, `"` and `'` is left as it is by escaping.
pub proof fn lemma_escape_plain(s: Seq<char>)
    requires
        forall|i: int| 0 <= i < s.len() ==> !is_markup_char(#[trigger] s[i]) && s[i] != '&',
    ensures
        xml_escaped(s) == s,
    decreases s.len(),
{
    if s.len() > 0 {
        lemma_escape_plain(s.drop_last());
        assert(!is_markup_char(s[s.len() - 1]) && s[s.len() - 1] != '&');
        assert(xml_escaped(s) =~= s.drop_last() + seq![s.last()]);
    }
}

// ── SVG attribute editing ───────────────────────────────────────────────────

pub open spec fn viewbox_needle() -> Seq<char> {
    "viewBox=\""@
}

/// Bounds of the first `viewBox="…"` attribute: the index where the
/// attribute starts and the index of its closing quote.
pub open spec fn viewbox_span(s: Seq<char>) -> Option<(nat, nat)> {
    match find_seq(s, viewbox_needle()) {
        None => None,
        Some(a) => {
            let start = a + viewbox_needle().len();
            match find(s.skip(start as int), '"') {
                None => None,
                Some(l) => Some((a, (start + l) as nat)),
            }
        },
    }
}

/// The whitespace-separated fields of the first `viewBox` attribute value,
/// or `None` when there is no complete `viewBox="…"` attribute.
pub fn viewbox_fields(svg: &str) -> (r: Option<Vec<String>>)
    ensures
        match viewbox_span(svg@) {
            None => r is None,
            Some((a, e)) => match r {
                Some(ws) => strings_view(ws@) == words(
                    svg@.subrange((a + viewbox_needle().len()) as int, e as int),
                ),
                None => false,
            },
        },
{
    let v = str_chars(svg);
    let n: usize = v.len();
    let needle = str_chars("viewBox=\"");
    proof {
        assert(v@.subrange(0, n as int) =~= v@);
    }
    let a: usize = match find_seq_in(&v, 0, n, &needle) {
        Some(a) => a,
        None => return None,
    };
    let start: usize = a + needle.len();
    proof {
        assert(v@.skip(start as int) =~= v@.subrange(start as int, n as int));
    }
    let e: usize = match find_in(&v, start, n, '"') {
        Some(e) => e,
        None => return None,
    };
    Some(words_in(&v, start, e))
}

/// The whitespace-separated words of `v[lo..hi]`.
fn words_in(v: &Vec<char>, lo: usize, hi: usize) -> (out: Vec<String>)
    requires
        lo <= hi <= v.len(),
    ensures
        strings_view(out@) == words(v@.subrange(lo as int, hi as int)),
{
    let mut out: Vec<String> = Vec::new();
    let mut k: usize = lo;
    proof {
        assert(strings_view(out@) =~= Seq::<Seq<char>>::empty());
    }
    loop
        invariant
            lo <= k <= hi <= v.len(),
            words(v@.subrange(lo as int, hi as int)) == strings_view(out@) + words(
                v@.subrange(k as int, hi as int),
            ),
        decreases hi - k,
    {
        let ghost cur = v@.subrange(k as int, hi as int);
        let a: usize = skip_ws(v, k, hi);
        proof {
            assert(trim_start(cur) =~= v@.subrange(a as int, hi as int));
        }
        if a == hi {
            proof {
                assert(words(cur) =~= Seq::<Seq<char>>::empty());
                assert(strings_view(out@) + words(cur) =~= strings_view(out@));
            }
            return out;
        }
        let b: usize = scan_non_ws(v, a, hi);
        let ghost u = v@.subrange(a as int, hi as int);
        proof {
            crate::text::lemma_prefix_count_props(cur, crate::text::ws_pred());
            assert(u.take((b - a) as int) =~= v@.subrange(a as int, b as int));
            assert(u.skip((b - a) as int) =~= v@.subrange(b as int, hi as int));
        }
        if b == a {
            proof {
                assert(words(cur) =~= Seq::<Seq<char>>::empty());
                assert(strings_view(out@) + words(cur) =~= strings_view(out@));
            }
            return out;
        }
        let ghost before = out@;
        out.push(crate::text::range_string(v, a, b));
        proof {
            assert(words(cur) == seq![v@.subrange(a as int, b as int)] + words(
                v@.subrange(b as int, hi as int),
            ));
            assert(strings_view(out@) =~= strings_view(before) + seq![
                v@.subrange(a as int, b as int),
            ]);
            assert(strings_view(before) + words(cur) =~= strings_view(out@) + words(
                v@.subrange(b as int, hi as int),
            ));
        }
        k = b;
    }
}

/// `s` with the value of its first complete `viewBox` attribute set to
/// `value`; `s` itself when it has none.
pub open spec fn with_viewbox(s: Seq<char>, value: Seq<char>) -> Seq<char> {
    match viewbox_span(s) {
        Some((a, e)) => s.take(a as int) + viewbox_needle() + value + "\""@ + s.skip((e + 1) as int),
        None => s,
    }
}

/// Set the value of the first `viewBox` attribute.
pub fn replace_viewbox(svg: &str, value: &str) -> (r: String)
    ensures
        r@ == with_viewbox(svg@, value@),
{
    let v = str_chars(svg);
    let n: usize = v.len();
    let needle = str_chars("viewBox=\"");
    proof {
        assert(v@.subrange(0, n as int) =~= v@);
    }
    let a: usize = match find_seq_in(&v, 0, n, &needle) {
        Some(a) => a,
        None => return chars_string(&v),
    };
    let start: usize = a + needle.len();
    proof {
        assert(v@.skip(start as int) =~= v@.subrange(start as int, n as int));
    }
    let e: usize = match find_in(&v, start, n, '"') {
        Some(e) => e,
        None => return chars_string(&v),
    };
    let mut out = String::new();
    push_range(&mut out, &v, 0, a);
    out.append("viewBox=\"");
    out.append(value);
    out.append("\"");
    push_range(&mut out, &v, e + 1, n);
    proof {
        assert(v@.take(a as int) =~= v@.subrange(0, a as int));
        assert(v@.skip(e + 1) =~= v@.subrange(e + 1, n as int));
        assert(out@ =~= with_viewbox(svg@, value@));
    }
    out
}

/// Bounds of attribute `attr` in the first tag of `s`: the index where
/// `attr="` starts and the index of the value's closing quote. The attribute
/// must appear, complete, before the first `>`.
pub open spec fn attr_span(s: Seq<char>, attr: Seq<char>) -> Option<(nat, nat)> {
    let needle = attr + "=\""@;
    match find(s, '>') {
        None => None,
        Some(t) => match find_seq(s.take(t as int), needle) {
            None => None,
            Some(a) => {
                let start = a + needle.len();
                match find(s.subrange(start as int, t as int), '"') {
                    None => None,
                    Some(l) => Some((a, (start + l) as nat)),
                }
            },
        },
    }
}

/// `s` with the value of attribute `attr` in its first tag set to `value`;
/// `s` itself when the first tag has no such attribute.
pub open spec fn with_attr(s: Seq<char>, attr: Seq<char>, value: Seq<char>) -> Seq<char> {
    match attr_span(s, attr) {
        Some((a, e)) => s.take(a as int) + attr + "=\""@ + value + "\""@ + s.skip((e + 1) as int),
        None => s,
    }
}

/// Set the value of attribute `attr` in the first tag of an SVG document.
pub fn replace_svg_attr(svg: &str, attr: &str, value: &str) -> (r: String)
    ensures
        r@ == with_attr(svg@, attr@, value@),
{
    let v = str_chars(svg);
    let n: usize = v.len();
    let mut needle = str_chars(attr);
    needle.push('=');
    needle.push('"');
    proof {
        reveal_strlit("=\"");
        assert(needle@ =~= attr@ + "=\""@);
        assert(v@.subrange(0, n as int) =~= v@);
    }
    let t: usize = match find_in(&v, 0, n, '>') {
        Some(t) => t,
        None => return chars_string(&v),
    };
    proof {
        assert(v@.take(t as int) =~= v@.subrange(0, t as int));
    }
    let a: usize = match find_seq_in(&v, 0, t, &needle) {
        Some(a) => a,
        None => return chars_string(&v),
    };
    let start: usize = a + needle.len();
    let e: usize = match find_in(&v, start, t, '"') {
        Some(e) => e,
        None => return chars_string(&v),
    };
    let mut out = String::new();
    push_range(&mut out, &v, 0, a);
    out.append(attr);
    out.append("=\"");
    out.append(value);
    out.append("\"");
    push_range(&mut out, &v, e + 1, n);
    proof {
        assert(v@.take(a as int) =~= v@.subrange(0, a as int));
        assert(v@.skip(e + 1) =~= v@.subrange(e + 1, n as int));
        assert(out@ =~= with_attr(svg@, attr@, value@));
    }
    out
}

// ── Comment footer ──────────────────────────────────────────────────────────

/// Where a comment footer goes in an SVG document. The numbers are computed
/// by the renderer from the document's `viewBox`; here each one is already
/// written out as SVG attribute text.
pub struct FooterPlacement {
    /// Left edge of the footer (the `viewBox` x).
    pub left: String,
    /// Top edge of the footer.
    pub top: String,
    /// Width of the footer background.
    pub width: String,
    /// Height of the footer background.
    pub height: String,
    /// Right end of the separator line.
    pub right: String,
    /// Left edge of the comment text.
    pub text_left: String,
    /// Baseline of each comment line, in order.
    pub baselines: Vec<String>,
    /// Font size of the comment text.
    pub font_size: String,
    /// New value of the document's `viewBox`.
    pub view_box: String,
    /// New value of the root element's `width`.
    pub svg_width: String,
    /// New value of the root element's `height`.
    pub svg_height: String,
}

/// The white background and the separator line above the comments.
pub open spec fn footer_frame(p: FooterPlacement) -> Seq<char> {
    "<rect x=\""@ + p.left@ + "\" y=\""@ + p.top@ + "\" width=\""@ + p.width@ + "\" height=\""@
        + p.height@ + "\" fill=\"#FFFFFF\" rx=\"4\"/>\n"@ + "<line x1=\""@ + p.left@ + "\" y1=\""@
        + p.top@ + "\" x2=\""@ + p.right@ + "\" y2=\""@ + p.top@
        + "\" stroke=\"#CCCCCC\" stroke-width=\"1\"/>\n"@
}

/// One comment line: dark sans-serif text on the white footer, escaped.
pub open spec fn footer_text(p: FooterPlacement, baseline: Seq<char>, line: Seq<char>) -> Seq<char> {
    "<text x=\""@ + p.text_left@ + "\" y=\""@ + baseline
        + "\" fill=\"#1A1A1A\" font-family=\"Helvetica, Arial, sans-serif\" font-size=\""@
        + p.font_size@ + "\">"@ + xml_escaped(line) + "</text>\n"@
}

/// The text elements of the comment lines, in order.
pub open spec fn footer_texts(p: FooterPlacement, baselines: Seq<Seq<char>>, lines: Seq<Seq<char>>) -> Seq<char>
    decreases lines.len(),
{
    if lines.len() == 0 {
        seq![]
    } else {
        footer_texts(p, baselines.take(lines.len() - 1), lines.drop_last())
            + footer_text(p, baselines[lines.len() - 1], lines.last())
    }
}

/// The whole footer markup.
pub open spec fn footer_markup(p: FooterPlacement, lines: Seq<Seq<char>>) -> Seq<char> {
    footer_frame(p) + footer_texts(p, strings_view(p.baselines@), lines)
}

/// `svg` itself when there are no comment lines; otherwise `svg` grown to
/// make room for the footer (new `viewBox`, `width` and `height`), with the
/// footer inserted before every `</svg>`.
pub open spec fn with_footer(svg: Seq<char>, p: FooterPlacement, lines: Seq<Seq<char>>) -> Seq<char> {
    if lines.len() == 0 {
        svg
    } else {
        let grown = with_attr(
            with_attr(with_viewbox(svg, p.view_box@), "width"@, p.svg_width@),
            "height"@,
            p.svg_height@,
        );
        replace_all(grown, "</svg>"@, footer_markup(p, lines) + "</svg>"@)
    }
}

fn push_footer_frame(out: &mut String, p: &FooterPlacement)
    ensures
        final(out)@ == old(out)@ + footer_frame(*p),
{
    out.append("<rect x=\"");
    out.append(p.left.as_str());
    out.append("\" y=\"");
    out.append(p.top.as_str());
    out.append("\" width=\"");
    out.append(p.width.as_str());
    out.append("\" height=\"");
    out.append(p.height.as_str());
    out.append("\" fill=\"#FFFFFF\" rx=\"4\"/>\n");
    out.append("<line x1=\"");
    out.append(p.left.as_str());
    out.append("\" y1=\"");
    out.append(p.top.as_str());
    out.append("\" x2=\"");
    out.append(p.right.as_str());
    out.append("\" y2=\"");
    out.append(p.top.as_str());
    out.append("\" stroke=\"#CCCCCC\" stroke-width=\"1\"/>\n");
    proof {
        assert(final(out)@ =~= old(out)@ + footer_frame(*p));
    }
}

fn push_footer_text(out: &mut String, p: &FooterPlacement, baseline: &str, line: &str)
    ensures
        final(out)@ == old(out)@ + footer_text(*p, baseline@, line@),
{
    let escaped = xml_escape(line);
    out.append("<text x=\"");
    out.append(p.text_left.as_str());
    out.append("\" y=\"");
    out.append(baseline);
    out.append("\" fill=\"#1A1A1A\" font-family=\"Helvetica, Arial, sans-serif\" font-size=\"");
    out.append(p.font_size.as_str());
    out.append("\">");
    out.append(escaped.as_str());
    out.append("</text>\n");
    proof {
        assert(final(out)@ =~= old(out)@ + footer_text(*p, baseline@, line@));
    }
}

/// The footer markup for `comments`: background, separator and one text
/// element per comment, at the baselines of `p`.
pub fn footer_svg(p: &FooterPlacement, comments: &[String]) -> (r: String)
    requires
        p.baselines.len() == comments.len(),
    ensures
        r@ == footer_markup(*p, strings_view(comments@)),
{
    let mut out = String::new();
    push_footer_frame(&mut out, p);
    let ghost ys = strings_view(p.baselines@);
    let ghost ls = strings_view(comments@);
    let mut i: usize = 0;
    while i < comments.len()
        invariant
            i <= comments.len(),
            p.baselines.len() == comments.len(),
            ys == strings_view(p.baselines@),
            ls == strings_view(comments@),
            out@ == footer_frame(*p) + footer_texts(*p, ys.take(i as int), ls.take(i as int)),
        decreases comments.len() - i,
    {
        push_footer_text(&mut out, p, p.baselines[i].as_str(), comments[i].as_str());
        proof {
            let t = ls.take(i + 1);
            assert(t.drop_last() =~= ls.take(i as int));
            assert(ys.take(i + 1).take(i as int) =~= ys.take(i as int));
            assert(ys.take(i + 1)[i as int] == ys[i as int]);
        }
        i += 1;
    }
    proof {
        assert(ls.take(comments.len() as int) =~= ls);
        assert(ys.take(comments.len() as int) =~= ys);
    }
    out
}

/// Attach a comment footer to an SVG document: without comments the document
/// is returned unchanged; otherwise it is grown as `p` says and the footer
/// markup goes in before `</svg>`.
pub fn attach_footer(svg: &str, p: &FooterPlacement, comments: &[String]) -> (r: String)
    requires
        p.baselines.len() == comments.len(),
    ensures
        r@ == with_footer(svg@, *p, strings_view(comments@)),
{
    if comments.len() == 0 {
        let mut same = String::new();
        same.append(svg);
        return same;
    }
    let grown = replace_viewbox(svg, p.view_box.as_str());
    let grown = replace_svg_attr(grown.as_str(), "width", p.svg_width.as_str());
    let grown = replace_svg_attr(grown.as_str(), "height", p.svg_height.as_str());
    let mut tail = footer_svg(p, comments);
    tail.append("</svg>");
    proof {
        reveal_strlit("</svg>");
    }
    replace_str(grown.as_str(), "</svg>", tail.as_str())
}

/// The text elements of the first `j` comment lines begin the text elements
/// of all of them.
proof fn lemma_footer_texts_prefix(p: FooterPlacement, ys: Seq<Seq<char>>, ls: Seq<Seq<char>>, j: int)
    requires
        ys.len() == ls.len(),
        0 <= j <= ls.len(),
    ensures
        footer_texts(p, ys.take(j), ls.take(j)).len() <= footer_texts(p, ys, ls).len(),
        footer_texts(p, ys, ls).take(footer_texts(p, ys.take(j), ls.take(j)).len() as int)
            == footer_texts(p, ys.take(j), ls.take(j)),
    decreases ls.len(),
{
    let whole = footer_texts(p, ys, ls);
    if j == ls.len() {
        assert(ys.take(j) =~= ys);
        assert(ls.take(j) =~= ls);
        assert(whole.take(whole.len() as int) =~= whole);
    } else {
        let n = ls.len();
        let ys1 = ys.take(n - 1);
        let ls1 = ls.drop_last();
        lemma_footer_texts_prefix(p, ys1, ls1, j);
        assert(ys1.take(j) =~= ys.take(j));
        assert(ls1.take(j) =~= ls.take(j));
        let front = footer_texts(p, ys1, ls1);
        let part = footer_texts(p, ys.take(j), ls.take(j));
        assert(whole == front + footer_text(p, ys[n - 1], ls.last()));
        assert(whole.take(part.len() as int) =~= front.take(part.len() as int));
    }
}

/// Every comment shows in the footer, escaped, at its own baseline.
pub proof fn lemma_footer_shows_each_comment(p: FooterPlacement, lines: Seq<Seq<char>>, i: int)
    requires
        p.baselines.len() == lines.len(),
        0 <= i < lines.len(),
    ensures
        contains_seq(
            footer_markup(p, lines),
            footer_text(p, strings_view(p.baselines@)[i], lines[i]),
        ),
        contains_seq(
            footer_markup(p, lines),
            "<text x=\""@ + p.text_left@ + "\" y=\""@ + p.baselines@[i]@
                + "\" fill=\"#1A1A1A\" font-family=\"Helvetica, Arial, sans-serif\" font-size=\""@
                + p.font_size@ + "\">"@ + xml_escaped(lines[i]) + "</text>\n"@,
        ),
{
    let ys = strings_view(p.baselines@);
    lemma_footer_texts_prefix(p, ys, lines, i + 1);
    let upto = footer_texts(p, ys.take(i + 1), lines.take(i + 1));
    assert(ys.take(i + 1).take(i) =~= ys.take(i));
    assert(lines.take(i + 1).drop_last() =~= lines.take(i));
    let before = footer_texts(p, ys.take(i), lines.take(i));
    let t = footer_text(p, ys[i], lines[i]);
    assert(upto == before + t);
    let m = footer_markup(p, lines);
    let k: int = footer_frame(p).len() as int + before.len() as int;
    assert(m.subrange(k, k + t.len()) =~= t) by {
        let w = footer_texts(p, ys, lines);
        assert(w.take(upto.len() as int) == upto);
        assert forall|x: int| 0 <= x < t.len() implies m.subrange(k, k + t.len())[x] == t[x] by {
            assert(m[k + x] == w[before.len() + x]);
            assert(w[before.len() + x] == w.take(upto.len() as int)[before.len() + x]);
            assert(upto[before.len() + x] == t[x]);
        }
    }
    assert(ys[i] == p.baselines@[i]@);
    assert(t =~= "<text x=\""@ + p.text_left@ + "\" y=\""@ + p.baselines@[i]@
        + "\" fill=\"#1A1A1A\" font-family=\"Helvetica, Arial, sans-serif\" font-size=\""@
        + p.font_size@ + "\">"@ + xml_escaped(lines[i]) + "</text>\n"@);
}

// ── Comment sheet ───────────────────────────────────────────────────────────

/// Size and text positions of a stand-alone comment sheet, the image placed
/// below a rasterised diagram. Each number is already written as SVG text.
pub struct SheetPlacement {
    /// Width of the sheet.
    pub width: String,
    /// Height of the sheet.
    pub height: String,
    /// Left edge of the comment text.
    pub text_left: String,
    /// Baseline of each comment line, in order.
    pub baselines: Vec<String>,
    /// Font size of the comment text.
    pub font_size: String,
}

/// Font families of the sheet, broad so that every system finds one.
pub open spec fn sheet_families() -> Seq<char> {
    "Helvetica Neue, Helvetica, Arial, Segoe UI, DejaVu Sans, Liberation Sans, Noto Sans, sans-serif"@
}

/// The opening of the sheet: the root element and its white background.
pub open spec fn sheet_head(p: SheetPlacement) -> Seq<char> {
    "<svg xmlns=\"http://www.w3.org/2000/svg\" width=\""@ + p.width@ + "\" height=\""@ + p.height@
        + "\" viewBox=\"0 0 "@ + p.width@ + " "@ + p.height@ + "\"><rect width=\""@ + p.width@
        + "\" height=\""@ + p.height@ + "\" fill=\"white\"/>\n"@
}

/// One comment line of the sheet: dark text, escaped.
pub open spec fn sheet_text(p: SheetPlacement, baseline: Seq<char>, line: Seq<char>) -> Seq<char> {
    "<text x=\""@ + p.text_left@ + "\" y=\""@ + baseline + "\" fill=\"#1A1A1A\" font-family=\""@
        + sheet_families() + "\" font-size=\""@ + p.font_size@ + "\">"@ + xml_escaped(line)
        + "</text>\n"@
}

/// The text elements of the comment lines, in order.
pub open spec fn sheet_texts(p: SheetPlacement, baselines: Seq<Seq<char>>, lines: Seq<Seq<char>>) -> Seq<char>
    decreases lines.len(),
{
    if lines.len() == 0 {
        seq![]
    } else {
        sheet_texts(p, baselines.take(lines.len() - 1), lines.drop_last())
            + sheet_text(p, baselines[lines.len() - 1], lines.last())
    }
}

/// The whole sheet document.
pub open spec fn sheet_svg(p: SheetPlacement, lines: Seq<Seq<char>>) -> Seq<char> {
    sheet_head(p) + sheet_texts(p, strings_view(p.baselines@), lines) + "</svg>"@
}

fn push_sheet_text(out: &mut String, p: &SheetPlacement, baseline: &str, line: &str)
    ensures
        final(out)@ == old(out)@ + sheet_text(*p, baseline@, line@),
{
    let escaped = xml_escape(line);
    out.append("<text x=\"");
    out.append(p.text_left.as_str());
    out.append("\" y=\"");
    out.append(baseline);
    out.append("\" fill=\"#1A1A1A\" font-family=\"");
    out.append(
        "Helvetica Neue, Helvetica, Arial, Segoe UI, DejaVu Sans, Liberation Sans, Noto Sans, sans-serif",
    );
    out.append("\" font-size=\"");
    out.append(p.font_size.as_str());
    out.append("\">");
    out.append(escaped.as_str());
    out.append("</text>\n");
    proof {
        assert(final(out)@ =~= old(out)@ + sheet_text(*p, baseline@, line@));
    }
}

/// The comment sheet as an SVG document: a white page of the given size with
/// one line of dark text per comment, at the baselines of `p`.
pub fn comment_sheet_svg(p: &SheetPlacement, comments: &[String]) -> (r: String)
    requires
        p.baselines.len() == comments.len(),
    ensures
        r@ == sheet_svg(*p, strings_view(comments@)),
{
    let mut out = String::new();
    out.append("<svg xmlns=\"http://www.w3.org/2000/svg\" width=\"");
    out.append(p.width.as_str());
    out.append("\" height=\"");
    out.append(p.height.as_str());
    out.append("\" viewBox=\"0 0 ");
    out.append(p.width.as_str());
    out.append(" ");
    out.append(p.height.as_str());
    out.append("\"><rect width=\"");
    out.append(p.width.as_str());
    out.append("\" height=\"");
    out.append(p.height.as_str());
    out.append("\" fill=\"white\"/>\n");
    proof {
        assert(out@ =~= sheet_head(*p));
    }
    let ghost ys = strings_view(p.baselines@);
    let ghost ls = strings_view(comments@);
    let mut i: usize = 0;
    while i < comments.len()
        invariant
            i <= comments.len(),
            p.baselines.len() == comments.len(),
            ys == strings_view(p.baselines@),
            ls == strings_view(comments@),
            out@ == sheet_head(*p) + sheet_texts(*p, ys.take(i as int), ls.take(i as int)),
        decreases comments.len() - i,
    {
        push_sheet_text(&mut out, p, p.baselines[i].as_str(), comments[i].as_str());
        proof {
            assert(ls.take(i + 1).drop_last() =~= ls.take(i as int));
            assert(ys.take(i + 1).take(i as int) =~= ys.take(i as int));
            assert(ys.take(i + 1)[i as int] == ys[i as int]);
        }
        i += 1;
    }
    proof {
        assert(ls.take(comments.len() as int) =~= ls);
        assert(ys.take(comments.len() as int) =~= ys);
    }
    out.append("</svg>");
    out
}

/// The text elements of the first `j` comment lines begin the text elements
/// of all of them.
proof fn lemma_sheet_texts_prefix(p: SheetPlacement, ys: Seq<Seq<char>>, ls: Seq<Seq<char>>, j: int)
    requires
        ys.len() == ls.len(),
        0 <= j <= ls.len(),
    ensures
        sheet_texts(p, ys.take(j), ls.take(j)).len() <= sheet_texts(p, ys, ls).len(),
        sheet_texts(p, ys, ls).take(sheet_texts(p, ys.take(j), ls.take(j)).len() as int)
            == sheet_texts(p, ys.take(j), ls.take(j)),
    decreases ls.len(),
{
    let whole = sheet_texts(p, ys, ls);
    if j == ls.len() {
        assert(ys.take(j) =~= ys);
        assert(ls.take(j) =~= ls);
        assert(whole.take(whole.len() as int) =~= whole);
    } else {
        let n = ls.len();
        let ys1 = ys.take(n - 1);
        let ls1 = ls.drop_last();
        lemma_sheet_texts_prefix(p, ys1, ls1, j);
        assert(ys1.take(j) =~= ys.take(j));
        assert(ls1.take(j) =~= ls.take(j));
        let front = sheet_texts(p, ys1, ls1);
        let part = sheet_texts(p, ys.take(j), ls.take(j));
        assert(whole == front + sheet_text(p, ys[n - 1], ls.last()));
        assert(whole.take(part.len() as int) =~= front.take(part.len() as int));
    }
}

/// Every comment shows on the sheet on a line of its own: its escaped text
/// in a `<text>` element at the comment's own baseline, in dark sans-serif
/// type at the sheet's left edge and font size.
pub proof fn lemma_sheet_shows_each_comment(p: SheetPlacement, lines: Seq<Seq<char>>, i: int)
    requires
        p.baselines.len() == lines.len(),
        0 <= i < lines.len(),
    ensures
        contains_seq(
            sheet_svg(p, lines),
            "<text x=\""@ + p.text_left@ + "\" y=\""@ + p.baselines@[i]@
                + "\" fill=\"#1A1A1A\" font-family=\""@
                + "Helvetica Neue, Helvetica, Arial, Segoe UI, DejaVu Sans, Liberation Sans, Noto Sans, sans-serif"@
                + "\" font-size=\""@ + p.font_size@ + "\">"@ + xml_escaped(lines[i]) + "</text>\n"@,
        ),
{
    let ys = strings_view(p.baselines@);
    lemma_sheet_texts_prefix(p, ys, lines, i + 1);
    let upto = sheet_texts(p, ys.take(i + 1), lines.take(i + 1));
    assert(ys.take(i + 1).take(i) =~= ys.take(i));
    assert(lines.take(i + 1).drop_last() =~= lines.take(i));
    let before = sheet_texts(p, ys.take(i), lines.take(i));
    let t = sheet_text(p, ys[i], lines[i]);
    assert(upto == before + t);
    let m = sheet_svg(p, lines);
    let k: int = sheet_head(p).len() as int + before.len() as int;
    assert(m.subrange(k, k + t.len()) =~= t) by {
        let w = sheet_texts(p, ys, lines);
        assert(w.take(upto.len() as int) == upto);
        assert forall|x: int| 0 <= x < t.len() implies m.subrange(k, k + t.len())[x] == t[x] by {
            assert(m[k + x] == w[before.len() + x]);
            assert(w[before.len() + x] == w.take(upto.len() as int)[before.len() + x]);
            assert(upto[before.len() + x] == t[x]);
        }
    }
    assert(ys[i] == p.baselines@[i]@);
    assert(t =~= "<text x=\""@ + p.text_left@ + "\" y=\""@ + p.baselines@[i]@
        + "\" fill=\"#1A1A1A\" font-family=\""@
        + "Helvetica Neue, Helvetica, Arial, Segoe UI, DejaVu Sans, Liberation Sans, Noto Sans, sans-serif"@
        + "\" font-size=\""@ + p.font_size@ + "\">"@ + xml_escaped(lines[i]) + "</text>\n"@);
}

// ── Mindmap palette ─────────────────────────────────────────────────────────

/// `n` entries taken from `tones` in turn, starting over after the last one.
pub open spec fn cycled(tones: Seq<Seq<char>>, n: nat) -> Seq<Seq<char>> {
    Seq::new(n, |i: int| tones[i % (tones.len() as int)])
}

/// How many mindmap branches the renderer is given colours for.
pub const BRANCH_SLOTS: usize = 12;

/// Branch fills: muted teal, quiet amber, muted red and a neutral grey that
/// stays visible on the dark background.
pub open spec fn branch_fills() -> Seq<Seq<char>> {
    seq!["#5A9B80"@, "#C08A3E"@, "#B35F5F"@, "#3A3A3A"@]
}

/// Branch label colours: light on the coloured fills, lighter on the grey.
pub open spec fn branch_labels() -> Seq<Seq<char>> {
    seq!["#E0E0E0"@, "#E0E0E0"@, "#E0E0E0"@, "#B0B0B0"@]
}

/// Lines between nodes: slightly lighter versions of the fills.
pub open spec fn branch_lines() -> Seq<Seq<char>> {
    seq!["#7AC0A0"@, "#D4A85E"@, "#CC7F7F"@, "#707070"@]
}

fn owned(s: &str) -> (r: String)
    ensures
        r@ == s@,
{
    let mut r = String::new();
    r.append(s);
    r
}

fn cycle_tones(tones: &Vec<String>) -> (r: Vec<String>)
    requires
        tones.len() > 0,
    ensures
        strings_view(r@) == cycled(strings_view(tones@), BRANCH_SLOTS as nat),
{
    let mut r: Vec<String> = Vec::new();
    let mut i: usize = 0;
    while i < BRANCH_SLOTS
        invariant
            i <= BRANCH_SLOTS,
            tones.len() > 0,
            strings_view(r@) == cycled(strings_view(tones@), i as nat),
        decreases BRANCH_SLOTS - i,
    {
        let ghost prev = strings_view(r@);
        let j: usize = i % tones.len();
        let tone = tones[j].clone();
        r.push(tone);
        i = i + 1;
        proof {
            assert(tone@ == strings_view(tones@)[j as int]);
            assert(strings_view(r@) =~= prev.push(tone@));
            assert(strings_view(r@) =~= cycled(strings_view(tones@), i as nat));
        }
    }
    r
}

fn four_tones(a: &str, b: &str, c: &str, d: &str) -> (r: Vec<String>)
    ensures
        strings_view(r@) == seq![a@, b@, c@, d@],
{
    let r = vec![owned(a), owned(b), owned(c), owned(d)];
    proof {
        assert(strings_view(r@) =~= seq![a@, b@, c@, d@]);
    }
    r
}

/// The fill of each mindmap branch, the four branch fills in turn.
pub fn mindmap_section_colors() -> (r: Vec<String>)
    ensures
        strings_view(r@) == cycled(branch_fills(), BRANCH_SLOTS as nat),
{
    cycle_tones(&four_tones("#5A9B80", "#C08A3E", "#B35F5F", "#3A3A3A"))
}

/// The label colour of each mindmap branch, the four label colours in turn.
pub fn mindmap_label_colors() -> (r: Vec<String>)
    ensures
        strings_view(r@) == cycled(branch_labels(), BRANCH_SLOTS as nat),
{
    cycle_tones(&four_tones("#E0E0E0", "#E0E0E0", "#E0E0E0", "#B0B0B0"))
}

/// The line colour of each mindmap branch, the four line colours in turn.
pub fn mindmap_line_colors() -> (r: Vec<String>)
    ensures
        strings_view(r@) == cycled(branch_lines(), BRANCH_SLOTS as nat),
{
    cycle_tones(&four_tones("#7AC0A0", "#D4A85E", "#CC7F7F", "#707070"))
}

/// Branch colours repeat every four branches, and the root-level branches
/// get the four tones in order.
pub proof fn lemma_branch_colors_repeat(tones: Seq<Seq<char>>, n: nat, i: int)
    requires
        tones.len() == 4,
        0 <= i,
        i + 4 < n,
    ensures
        cycled(tones, n)[i] == cycled(tones, n)[i + 4],
        i < 4 ==> cycled(tones, n)[i] == tones[i],
{
    assert((i + 4) % 4 == i % 4);
}

} // verus!
