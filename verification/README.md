# nt

`nt` keeps Markdown notes and a long-term memory of short entries, and finds
them again by structured filters and literal words. This crate holds its
logic, verified with Verus; the program around it reads and writes files and
SQLite.

## Layout

- `src/` — the library, verified with Verus but for its calls into std,
  `uuid`, `shlex` and `serde_json`, each made by a small trusted wrapper whose contract
  states what the called function's documentation or source shows:
  - `note/` — note ids (timestamps and UUIDv7), dates, bodies and titles,
    collections and tags, new and stored notes, change records; and the
    note store's decisions: reading a stored row back (`rows.rs`), the
    order listings visit notes in, and what creating, deleting, tagging,
    linking and moving notes change and which revision and change records
    they make (`store.rs`);
  - `notebook/` — the JSON notebook index, its lookup tables and listings;
  - `index/` — the vault index: vaults, collections and notes as rows;
  - `query.rs`, `query_sql.rs` — note queries and the SQL that selects them;
  - `listing/` — listing requests, fields and aligned tables;
  - `memory/` — memories and summaries, aligned ranges, wake covers, the
    choice of a context, and the decisions of the memory store;
  - `lexical.rs`, `text.rs`, `strmap.rs` — words, characters and an ordered
    string map;
  - `help.rs`, `input.rs`, `error.rs`.
- `app/` — the command line: arguments, standard input, the editor, the
  notebook file and the SQLite memory store. It does not yet run the SQLite
  note store and vault index whose decisions `src/note/store.rs`,
  `src/note/rows.rs` and `src/index/` make.
- `tests/` — tests of the library.

Each public function states what it returns in its contract; the laws that
relate several functions are public proof functions named `law_*`.
