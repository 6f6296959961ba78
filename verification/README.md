# diamem

A desktop utility to live-code diagrams in a minimal DSL, compiled to
Mermaid and exported as PNG with an OCR-readable comment footer.

The library is written in Verus; its functions carry contracts that Verus
proves.

## Layout

- `src/text.rs`: character classes, trimming, searching and replacing on
  character sequences, with the lemmas the rest builds on.
- `src/parser/`: the DSL. `grammar.rs` states, line by line, what each DSL
  line means (`spec_parse`); `mod.rs` is the parser proved to compute it;
  `laws.rs` proves that the classic and short syntaxes agree, that chains
  expand to connections, that blank lines are ignored, that documents
  concatenate, and that every parsed statement is well formed (trimmed texts,
  non-empty events and groups).
- `src/dsl.rs`: Mermaid generation (`graph TD` or `mindmap`) and comment
  extraction, with laws on statement order and on comments never reaching
  the diagram.
- `src/render.rs`: the text steps of rendering: diagram kind, timeline
  recolouring, XML escaping, `viewBox`/attribute editing, the comment footer
  markup, the stand-alone comment sheet and the mindmap palette.
- `src/theme.rs`: the ilseon palette as packed RGB values, with its ordering
  laws.
- `src/editor.rs`: the editor's state and its reactions to user actions:
  an export action yields an export request (diagram, comments, directory,
  tags), the front end writes the PNG and reports back; the export file
  name and the `~/` expansion are computed here.
- `app/`: the desktop program (eframe window with a live rendered preview,
  Mermaid rendering with `mermaid-rs-renderer`, rasterisation with `resvg`,
  PNG export), which works in floating point, reads the clock and `$HOME`,
  writes files, and calls the library for everything else.
- `tests/`: tests of the library on concrete inputs.
