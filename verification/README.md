# mime

Media types (`type/subtype; name=value`, RFC 7231) read by a parser that is
verified with Verus against a grammar stated as spec functions, together with
the properties the parser is checked against and the decisions of the
property runner.

- `src/grammar.rs` — token and whitespace characters, scanners, ASCII lowercase.
- `src/media_type.rs` — `MediaType`, its model `MediaTypeView`, the grammar
  (`spec_parse`) and the parser proved to follow it; `subtype`, `suffix`,
  `param`, `has_params`, and `==` (same type and subtype, and every parameter
  of each side, repeated names included, found with its value in the other).
- `src/laws.rs` — laws of the parser (a `+suffix` stays in the subtype, an
  empty parameter list is dropped, any parameter list parses to its names and
  values whatever the whitespace around its `;`s and the quoting of token
  values, and every input that parses is written that way; every parse is
  lowercase) and of equality.
- `src/etna.rs` — the four properties; each is proved to pass on every input.
- `src/runner.rs` — witness replay, outcome folding, the JSON report line
  (with the law that a `json_str` literal decodes back to its input).
- `app/` — the command-line runner that drives proptest, quickcheck,
  crabcheck and hegel and prints the report.
