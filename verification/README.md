# libra (stats and credential prompt)

A verified library for two commands of the `libra` command-line tool.

- `src/command/stats.rs`: what the `stats` scan does with each directory
  entry (skip `.libra` and `target`, count files under their extension or
  `no_extension`; `scan_directory` for one directory's entries), the
  per-extension counts, the sorted summary and the
  rendered report, each with its contract; the laws on extensions and on the
  summary are proof functions there.
- `src/command/byte_order.rs`, `src/command/decimal.rs`: byte-wise string
  order and decimal, right-aligned number text.
- `src/command/mod.rs`: the credential prompt as a state machine and the
  trimming of what was typed.
- `app/`: the file-system walk, terminal I/O, and the clap/serde copies of
  the command-line types.
