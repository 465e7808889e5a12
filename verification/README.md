# rexgen

Counts, sizes and generates the strings that a regular expression matches,
under a minimum and an optional maximum byte length.

The library under `src/` is written in Verus and verified:

- `syntax.rs` parses a pattern (through `regex-syntax`) into the library's own
  syntax tree, `Node`, and checks that every assertion (`^`, `$`) stands where
  it always holds; patterns with word boundaries or inner anchors are refused.
- `calculate.rs` computes the length distribution of a tree: the Match Count and
  the Corpus Byte Size, with `Natural` (over `num-bigint`) for exact counts.
- `unique.rs` checks that a tree derives each string in one way only, so that
  counting derivations counts Match Strings; a finite count is refused for
  trees that fail the check. `distinct.rs` proves the check sound.
- `generate.rs` enumerates the matching strings in regex traversal order;
  `agreement.rs` proves that, under a maximum length and where every part of
  the pattern has finitely many strings, the enumeration yields what the
  analysis counts.
- `corpus.rs` ties both to length constraints and generation limits, checks
  start and stop strings against the compiled `regex`, and hands the strings
  to a receiver through a `Recorder`, whose record the contracts speak of.
- `bytesize.rs`, `units.rs` and `report.rs` hold the parsing and formatting that
  the command line needs.

`app/` is the command-line program around the library (argument handling with
`clap`, shell completions, confirmation prompt, file output).
