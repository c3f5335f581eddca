# csvprof

A CSV column profiler whose logic is verified with Verus.

- `src/text.rs` — whitespace trimming and the literal grammars of integers
  and floating-point numbers, each proved against its specification.
- `src/freq.rs` — frequency tables of string values and stable ranking by
  count.
- `src/table.rs` — reading CSV text with the `csv` crate (trusted wrappers).
- `src/analyzer.rs` — per-column statistics (`StatsAnalyzer`) and profiling
  of a whole CSV text (`stream_csv`).
- `src/profiler.rs` — a profiler that infers one of six column types.
- `src/correlate.rs` — counting the values of a named column and joining two
  such counts.
- `app/` — the command line: file and terminal I/O, and the floating-point
  statistics (means, medians, percentiles, correlation).
