# quasar_report

Verified rendering for SVM execution reports.

- `src/cpi_tree.rs` rebuilds the cross-program-invocation call tree from a
  flat, pre-order execution trace by nesting frames on their stack depth, and
  renders it as an indented text, one line per frame. The contracts state
  that the tree's pre-order listing is exactly the nested prefix of the trace,
  and the laws that this listing determines the tree.
- `src/report.rs` renders one Markdown page per scenario and an index page,
  and finds the line of a test function in its source file.
- `src/text.rs` holds the character-level helpers: decimal numerals,
  trailing-white-space trimming, `str::lines`-style line splitting and
  substring search.
- `app/lib.rs` reads test files from disk and converts Solana SDK
  instructions into trace entries.
