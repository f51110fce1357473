# flagq

Answers whether a feature flag is on for a given context, and why, from a
small text file of flag definitions. The library is written in Verus: each
public function carries a contract over a mathematical model, and Verus
proves the code against it.

- `src/lexer.rs`: tokens of a flags file, with 1-based positions.
- `src/comments.rs`: a proof that a `#` comment up to a line break tokenizes
  like the bare line break.
- `src/parser.rs`: the grammar (`flag NAME { default: on|off rule: on|off if ... }`),
  conditions `=`, `!=`, `<`, `<=`, `>`, `>=` and `rollout N%`, joined by
  `and` and `or`.
- `src/number.rs`: which texts are numbers, and which are percentages.
- `src/eval.rs`: the context, rule matching, percentage buckets and the
  explanation of an outcome.
- `src/error.rs`: compiler-style error reports and "did you mean" suggestions.
- `src/report.rs`: the command line's texts: usage, warnings, outcome lines.
- `app/main.rs`: the command-line program: arguments, file reading, printing,
  and the numeric order of the values a flag compares.
