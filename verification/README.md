# claude_log_viewer

A viewer and analyzer for the JSONL transcript logs that an AI coding
assistant writes, with its logic verified by Verus.

- `src/` is the verified library: the transcript data model, ordering and
  error reporting of transcript lines, glob-like path patterns, file access
  and phrase tracking, permission parsing and aggregation, the summary of a
  transcript, the list and detail lines of the viewer and its key handling.
  Each public function states its result exactly over spec functions; the
  `law_*` proof functions state properties that span several calls.
- `app/` is the program around it: command-line handling, reading files and
  directories, decoding JSON with serde, and drawing the terminal with
  ratatui and crossterm.
- `tests/` runs the library on concrete values.
