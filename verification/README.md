# notes_grep

`ng` is a local-first Apple Notes search tool: it decodes note bodies from
`NoteStore.sqlite`, keeps a JSONL cache of them, searches that cache (or the
database directly), and plans guarded folder and note moves.

This crate holds its logic as a library verified with Verus, and a thin
command-line program around it.

- `src/` — the verified library.
  - `text.rs`: character classes, trimming, decimal text, path pieces.
  - `body.rs`: gzip + protobuf note body decoding and text scoring.
  - `folder.rs`: the folder table, nested paths, listings, path resolution,
    descendants, and the folder move check.
  - `ancestry.rs`: the parent walk agrees with the descendant relation, so a
    checked move never puts a folder inside itself.
  - `notes.rs`: the error type, note references, note moves, SQL text.
  - `search.rs`: matching, folder filters, snippets, limits, date bounds,
    sorting, and notes built from database rows.
  - `output.rs`: terminal-safe text and the lines printed by each command.
- `app/` — `ng` itself: argument parsing, SQLite, the cache files, printing.
- `tests/` — tests of the library.
