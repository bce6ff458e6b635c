# logseq_view

A terminal viewer for Logseq markdown graphs: a file browser on the left, the
selected page on the right, in-page search, a whole-graph filter, and editing
of a page or a single block in an outside editor.

The library under `src/` is written in Verus. Each public function states
what it returns or changes in its `requires`/`ensures`, over views of the
data (`AppModel` for the application state, `ParsedLineView` for parsed
lines, `EntryView` for listings), and Verus proves the code against them.

- `text` — building strings, searching character sequences, white space.
- `parser` — Logseq markdown into display lines (bullets, tasks, inline
  links, tags, code blocks folded into one line), display text, and
  splicing edited raw lines back into a file.
- `wrap` — word wrapping by display columns, shared by the scroll
  arithmetic and the renderer.
- `source` — the `GraphSource` trait (whose predicates `reads`, `lists`
  and `lists_all` say what a source's answers may be), the in-memory
  `FakeGraphSource`,
  URL decoding, path names and ordered listings.
- `app` — the state machine: the browser tree, the page and its block
  cursor, scroll clamping, and `update`.
- `search`, `filter` — in-page search and the browser filter.
- `action` — the key map.
- `view_model` — what the interface draws.
- `edit` — the text of a block handed to an editor, and the editors tried.

`app/` is the program around the library: the terminal, the event loop,
drawing with ratatui, the filesystem source over walkdir, and launching the
editor. `tests/` exercises the library from outside.
