# shell_history_lens

Parsers and writers for shell history files (bash, zsh `EXTENDED_HISTORY`,
fish), verified with Verus.

- `src/text.rs` — characters of a `&str`, the model of its lines
  (`lines_of`), white space, and a cursor that hands out lines.
- `src/num.rs` — reading an `i64` as `str::parse` does and writing one as
  `to_string` does.
- `src/entry.rs` — `HistoryEntry`, its view, and the step contract shared by
  the readers.
- `src/bash.rs`, `src/zsh.rs`, `src/fish.rs` — per dialect: a spec of which
  entries a text holds, the lazy reader, `parse`, `write`, and the proofs
  that writing then reading gives the entries back.
- `src/format.rs` — `detect`, `parse_auto`, `iter_auto`.
- `app/lib.rs` — `Iterator` adapters over the readers.
