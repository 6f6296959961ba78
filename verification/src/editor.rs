//! State and decisions of the live diagram editor.
//!
//! The window, panels and widgets belong to the desktop front end; it keeps a
//! [`DiamemApp`], calls [`DiamemApp::refresh`] every frame and hands each user
//! action to [`DiamemApp::handle`]. When `handle` asks for an export, the front
//! end renders and writes the PNG, then reports the outcome to
//! [`DiamemApp::finish_export`].
use vstd::prelude::*;
use crate::dsl::{compile_dsl, dsl_to_mermaid, spec_compile_dsl, spec_mermaid};
use crate::parser::grammar::{nonempty_trimmed, spec_parse};
use crate::parser::{error_message, events_exec, strings_view};
use crate::text::{has_prefix, split, str_chars, starts_with_at, push_range};

verus! {

pub struct DiamemApp {
    /// Raw DSL text entered by the user.
    pub dsl_source: String,
    /// Tags to embed in the exported filename.
    pub export_tags: String,
    /// Export directory path.
    pub export_path: String,
    /// Last status message shown in the footer.
    pub status_message: String,
    /// Mermaid output of the last refresh, or its parse error.
    pub mermaid_output: String,
    /// Whether the DSL parsed without errors at the last refresh.
    pub dsl_valid: bool,
}

/// A user action the editor reacts to.
#[derive(Debug, Clone, Copy, PartialEq, Eq)]
pub enum UiAction {
    /// Ctrl/Cmd+S.
    ExportShortcut,
    /// File → Export PNG.
    ExportMenu,
    /// Help → About.
    About,
    /// The "Commit to Shotext" button.
    Commit,
}

pub open spec fn default_source() -> Seq<char> {
    "# Type your diagram DSL here\n# Examples:\n#   A -> B\n#   A -[sends]-> B\n#   User > App : Request\n#   [Group] { A, B }\n\nStart -> Process\nProcess -[validate]-> Check\nCheck -> Done\n"@
}

pub open spec fn default_export_path() -> Seq<char> {
    "~/shotext"@
}

/// A PNG export the front end is asked to carry out.
pub struct ExportRequest {
    /// Mermaid text of the diagram.
    pub mermaid: String,
    /// Comment texts, shown in the OCR footer below the diagram.
    pub comments: Vec<String>,
    /// The export directory as the user typed it (it may start with `~/`).
    pub directory: String,
    /// Tags to embed in the file name.
    pub tags: Vec<String>,
}

/// What the front end has to do after an action.
pub enum EditorEffect {
    /// Nothing beyond showing the new status.
    Nothing,
    /// Render the diagram and write it as a PNG.
    Export(ExportRequest),
}

pub open spec fn is_export(a: UiAction) -> bool {
    a != UiAction::About
}

pub open spec fn about_text() -> Seq<char> {
    "diamem v0.1.0 — Live Diagram Editor"@
}

pub open spec fn exporting_text() -> Seq<char> {
    "Exporting PNG…"@
}

pub open spec fn cannot_export_text() -> Seq<char> {
    "Cannot export: the DSL has errors"@
}

/// The tags of the tag field: its comma-separated parts, trimmed, empty ones
/// dropped.
pub open spec fn export_tags(field: Seq<char>) -> Seq<Seq<char>> {
    nonempty_trimmed(split(field, ','))
}

/// `_tag` for each tag, in order.
pub open spec fn tag_suffix(tags: Seq<Seq<char>>) -> Seq<char>
    decreases tags.len(),
{
    if tags.len() == 0 {
        seq![]
    } else {
        tag_suffix(tags.drop_last()) + "_"@ + tags.last()
    }
}

/// `diagram_<stamp>_<tag>….png`.
pub open spec fn file_name_for(stamp: Seq<char>, tags: Seq<Seq<char>>) -> Seq<char> {
    "diagram_"@ + stamp + tag_suffix(tags) + ".png"@
}

/// A directory starting with `~/` is taken relative to the home directory,
/// when one is known.
pub open spec fn expanded_dir(dir: Seq<char>, home: Option<Seq<char>>) -> Seq<char> {
    match home {
        Some(h) => if has_prefix(dir, "~/"@) {
            h + "/"@ + dir.skip(2)
        } else {
            dir
        },
        None => dir,
    }
}

/// The status message an export leaves in the footer.
pub open spec fn export_outcome_text(outcome: Result<Seq<char>, Seq<char>>) -> Seq<char> {
    match outcome {
        Ok(path) => "Saved "@ + path,
        Err(e) => "Export failed: "@ + e,
    }
}

/// The file name of an export: `diagram_`, the time stamp, `_` and each tag,
/// and `.png`.
pub fn export_file_name(stamp: &str, tags: &Vec<String>) -> (r: String)
    ensures
        r@ == file_name_for(stamp@, strings_view(tags@)),
{
    let mut out = String::new();
    out.append("diagram_");
    out.append(stamp);
    let mut i: usize = 0;
    while i < tags.len()
        invariant
            i <= tags.len(),
            out@ == "diagram_"@ + stamp@ + tag_suffix(strings_view(tags@).take(i as int)),
        decreases tags.len() - i,
    {
        out.append("_");
        out.append(tags[i].as_str());
        proof {
            let t = strings_view(tags@);
            assert(t.take(i + 1).drop_last() =~= t.take(i as int));
        }
        i += 1;
    }
    proof {
        assert(strings_view(tags@).take(tags.len() as int) =~= strings_view(tags@));
    }
    out.append(".png");
    out
}

/// The export directory with a leading `~/` replaced by the home directory.
pub fn expand_home(dir: &str, home: Option<&str>) -> (r: String)
    ensures
        r@ == expanded_dir(dir@, match home {
            Some(h) => Some(h@),
            None => None,
        }),
{
    let v = str_chars(dir);
    let prefix = str_chars("~/");
    let mut out = String::new();
    proof {
        assert(v@.subrange(0, v.len() as int) =~= v@);
        reveal_strlit("~/");
    }
    match home {
        Some(h) => {
            if starts_with_at(&v, 0, v.len(), &prefix) {
                out.append(h);
                out.append("/");
                push_range(&mut out, &v, 2, v.len());
                proof {
                    assert(v@.skip(2) =~= v@.subrange(2, v.len() as int));
                }
            } else {
                out.append(dir);
            }
        },
        None => out.append(dir),
    }
    out
}

impl Default for DiamemApp {
    fn default() -> (s: Self)
        ensures
            s.dsl_source@ == default_source(),
            s.export_tags@ == Seq::<char>::empty(),
            s.export_path@ == default_export_path(),
            s.status_message@ == Seq::<char>::empty(),
            s.mermaid_output@ == Seq::<char>::empty(),
            s.dsl_valid,
    {
        let mut dsl_source = String::new();
        dsl_source.append(
            "# Type your diagram DSL here\n# Examples:\n#   A -> B\n#   A -[sends]-> B\n#   User > App : Request\n#   [Group] { A, B }\n\nStart -> Process\nProcess -[validate]-> Check\nCheck -> Done\n",
        );
        let mut export_path = String::new();
        export_path.append("~/shotext");
        DiamemApp {
            dsl_source,
            export_tags: String::new(),
            export_path,
            status_message: String::new(),
            mermaid_output: String::new(),
            dsl_valid: true,
        }
    }
}

impl DiamemApp {
    /// Re-parses the DSL: on success the Mermaid text is shown and the DSL
    /// marked valid; otherwise the parse error is shown and it is marked invalid.
    pub fn refresh(&mut self)
        ensures
            final(self).dsl_source == old(self).dsl_source,
            final(self).export_tags == old(self).export_tags,
            final(self).export_path == old(self).export_path,
            final(self).status_message == old(self).status_message,
            match spec_parse(old(self).dsl_source@) {
                Ok(ss) => final(self).dsl_valid && final(self).mermaid_output@ == spec_mermaid(ss),
                Err(t) => !final(self).dsl_valid && final(self).mermaid_output@ == error_message(t),
            },
    {
        match dsl_to_mermaid(self.dsl_source.as_str()) {
            Ok(mermaid) => {
                self.mermaid_output = mermaid;
                self.dsl_valid = true;
            },
            Err(err) => {
                self.mermaid_output = err;
                self.dsl_valid = false;
            },
        }
    }

    /// Reacts to a user action. About shows the version. Every export action
    /// (shortcut, menu, Commit button) compiles the DSL: when it compiles the
    /// front end is asked to export the diagram, its comments, the export
    /// directory and the tags; otherwise nothing is exported and the status
    /// says why.
    pub fn handle(&mut self, action: UiAction) -> (e: EditorEffect)
        ensures
            final(self).dsl_source == old(self).dsl_source,
            final(self).export_tags == old(self).export_tags,
            final(self).export_path == old(self).export_path,
            final(self).mermaid_output == old(self).mermaid_output,
            final(self).dsl_valid == old(self).dsl_valid,
            !is_export(action) ==> final(self).status_message@ == about_text() && e is Nothing,
            is_export(action) ==> match spec_compile_dsl(old(self).dsl_source@) {
                Ok((m, cs)) => final(self).status_message@ == exporting_text() && match e {
                    EditorEffect::Export(r) => r.mermaid@ == m && strings_view(r.comments@) == cs
                        && r.directory@ == old(self).export_path@ && strings_view(r.tags@)
                        == export_tags(old(self).export_tags@),
                    EditorEffect::Nothing => false,
                },
                Err(_) => final(self).status_message@ == cannot_export_text() && e is Nothing,
            },
    {
        let mut msg = String::new();
        if let UiAction::About = action {
            msg.append("diamem v0.1.0 — Live Diagram Editor");
            self.status_message = msg;
            return EditorEffect::Nothing;
        }
        match compile_dsl(self.dsl_source.as_str()) {
            Ok((mermaid, comments)) => {
                let field = str_chars(self.export_tags.as_str());
                proof {
                    assert(field@.subrange(0, field.len() as int) =~= field@);
                }
                let tags = events_exec(&field, 0, field.len());
                let mut directory = String::new();
                directory.append(self.export_path.as_str());
                msg.append("Exporting PNG…");
                self.status_message = msg;
                EditorEffect::Export(ExportRequest { mermaid, comments, directory, tags })
            },
            Err(_) => {
                msg.append("Cannot export: the DSL has errors");
                self.status_message = msg;
                EditorEffect::Nothing
            },
        }
    }

    /// Records how an export ended: the path written, or the error.
    pub fn finish_export(&mut self, outcome: Result<String, String>)
        ensures
            final(self).status_message@ == export_outcome_text(match outcome {
                Ok(p) => Ok::<Seq<char>, Seq<char>>(p@),
                Err(e) => Err::<Seq<char>, Seq<char>>(e@),
            }),
            final(self).dsl_source == old(self).dsl_source,
            final(self).export_tags == old(self).export_tags,
            final(self).export_path == old(self).export_path,
            final(self).mermaid_output == old(self).mermaid_output,
            final(self).dsl_valid == old(self).dsl_valid,
    {
        let mut msg = String::new();
        match outcome {
            Ok(path) => {
                msg.append("Saved ");
                msg.append(path.as_str());
            },
            Err(e) => {
                msg.append("Export failed: ");
                msg.append(e.as_str());
            },
        }
        self.status_message = msg;
    }

    /// The footer's validity indicator.
    pub fn status_label(&self) -> (s: &'static str)
        ensures
            self.dsl_valid ==> s@ == "✓ DSL Valid"@,
            !self.dsl_valid ==> s@ == "✗ DSL Errors"@,
    {
        if self.dsl_valid {
            "✓ DSL Valid"
        } else {
            "✗ DSL Errors"
        }
    }
}

} // verus!
