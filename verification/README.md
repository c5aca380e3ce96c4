# diffutilslib — side-by-side diff, verified

A library that lays out two files side by side, in the manner of `sdiff`,
with every function in `src/` proved against its contract by Verus.

- `src/side_diff.rs` — the executable code: `Config` (row geometry),
  `LineFormatter` (padding and half lines), `OutputHandler` (rows),
  `side_by_side` and `diff`.
- `src/layout.rs` — padding with tabs and spaces, display columns, and the
  geometry that `Config::new` computes.
- `src/half_line.rs` — the model of a half line: glyphs laid out within a
  width; laws on width, padding and UTF-8.
- `src/rows.rs` — rows of an edit script.
- `src/lines.rs` — splitting a file into lines.
- `src/bindings.rs` — the trusted calls: `std::str::from_utf8`,
  `unicode_width::UnicodeWidthChar::width` and `diff::slice`.
- `app/lib.rs` — writes the rows to standard output.
