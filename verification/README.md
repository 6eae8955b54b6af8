# typora

The core of a two-pane markdown editor (source on the left, preview on the
right), written in Verus: each function of the library states what it does in
`requires`/`ensures` over a mathematical model, and Verus proves it.

## Layout

```text
src/
  text.rs             character sequences: whitespace, trimming, line splitting, UTF-8 lengths
  rope.rs             the ropey rope behind a document, its line model, and its trusted wrappers
  document.rs         the document: selection, dirty flag, version, undo/redo; every
                      editor command is a transition of `apply_spec`, with its laws
  editing.rs          what the editor widget asks of a document (clipboard requests,
                      region replacement, cursor regions)
  markdown_lines.rs   classification of single markdown lines (headings, fences, lists, ...)
  markdown.rs         the block scanner, line lookup and the dirty line range of an edit
  markdown_parser.rs  parse snapshots: blocks, outline, comrak HTML, tree-sitter's verdict
  render.rs           render blocks and the plain-text preview
  platform.rs         front matter detection and parsing (YAML, TOML, JSON), file events
  display.rs          soft wrapping and text <-> visual positions, byte <-> char offsets
tests/                tests of the library, run against the real outside crates
app/                  the Floem application: window, panes, file dialogs and watching,
                      floating-point layout and scroll synchronisation
```

Calls into outside crates (ropey, comrak, tree-sitter, serde_json, serde_yaml_ng,
toml) go through small trusted wrappers, each documented with what its contract
claims of the outside function; file watching (notify) runs in `app/`.
