# NotePad Pro core

The editing core of NotePad Pro, a line-oriented notepad with colour
highlighting, lists, notes and find & replace, written in Verus.

* `src/` — the verified library: the document model and its undo history,
  list behaviour, find & replace, the highlight palette, extraction and
  statistics, the JSON blobs notes and sessions keep, line endings and
  encodings, settings rules, session repair, the notes queries' text and
  ranking, and the editing state of the window (tabs, caret, selection,
  pending confirmations). Contracts state what each function returns; the
  laws that tie functions together are public proof functions.
* `app/` — a headless front end: command line, settings and session files,
  the SQLite notes store, and reading and writing documents on disk.
* `tests/` — tests of the library on concrete values.
