# du-pretty

`du -ab` prints a flat list of byte counts and paths in whatever order the
filesystem walk visited them. This crate parses such a report, checks that it
is internally consistent (no duplicate paths, every entry's parent directory
present), and prints it back as an indented tree sorted biggest-first with
human-readable sizes, or as a JSON array of nodes. It is written in Verus:
every function of the library carries a contract that Verus proves.

## Layout

- `src/text.rs`: Unicode whitespace, trimming, decimal numbers read and
  written, and the conversions between `str`, `String` and character vectors.
- `src/index.rs`: a hash-bucketed table of paths used for lookups.
- `src/parser.rs`: the report's model (`lines`, `classify`, `scan`,
  `parse_report`), `parse`, `validate_tree`, and the laws of parsed reports.
- `src/human.rs`: human-readable sizes, computed exactly with integers.
- `src/printer.rs`: the tree's model (`kids`, `roots`, `render`,
  `render_json`), `print_tree`, `print_tree_json`, and the sibling-order law.
- `src/coverage.rs`: the proofs that, with nothing folded, every entry is
  printed exactly once, and that a summary line counts the lines it stands
  for.
- `src/outline.rs`: the proof that the text tree and the JSON array show
  one outline of entries and summaries.
- `src/report.rs`: `pretty_report`, which parses a report and prints it.
- `src/cli.rs`: the command line (`parse_command_line`, `parse_args`) and its
  laws.
- `app/main.rs`: the program: arguments, file and standard input, output.
- `tests/`: tests of the library.

## Trusted code

Two small functions call the standard library without a proof:
`text::string_of` (a `String` from characters) and `text::debug_quote`
(`format!("{:?}", ..)` of a string, whose result is named `debug_quoted`).
