# smep

The logic of smep, a Markdown editor with a rendered preview, written in
Verus. The functions in `src/` carry contracts that Verus proves; the few
that call the Markdown parser or the standard library where Verus cannot
look (`parse_gfm` and its converters, `text_from_utf8`) are trusted, and
their doc comments say what their contracts claim.

- `src/mdast.rs` — the Markdown syntax tree as plain values, and the one
  call into the `markdown` parser.
- `src/runs.rs` — flattening nested styled spans into sorted,
  non-overlapping runs where the innermost span wins.
- `src/highlight.rs` — the editor's highlighting: spans of a parsed text,
  the styles across a range the editor asks about, and the range and start
  line of every top-level block.
- `src/insert.rs` — the block menu, its snippets, and what inserting a
  block on a line does.
- `src/rendered.rs` — the rendered view's decisions: how the block being
  edited is written back into the document, when an edit goes stale, and
  what the view shows.
- `src/io.rs`, `src/settings.rs`, `src/theme.rs` — documents, settings once
  read, and the preview themes.
- `src/text.rs` — UTF-8 facts and text slicing shared by the modules.

`tests/` runs the library on concrete inputs. `app/` is the program around
it: the windows, files, settings file and keyboard, on the gpui-kit UI
toolkit.
