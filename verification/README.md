# my_bc

An arbitrary-precision integer calculator in the manner of `bc`, verified with
Verus.

- `src/my_bc/mod.rs`: the `Number` type (little-endian base-8 digits and a
  sign flag, canonical by a type invariant) and its sign-and-magnitude view.
- `src/my_bc/digits.rs`: the value of a digit sequence and its lemmas.
- `src/my_bc/operators.rs`: negation, comparison, addition, subtraction,
  multiplication, truncated division and remainder.
- `src/my_bc/base.rs`: reading and writing numerals in a base given by a
  string of digit characters.
- `src/my_bc/eval.rs`: reading an expression into tokens, reordering them
  into postfix and evaluating the postfix form. The reader looks at the
  character at its position, but takes a numeral from that position as a
  byte offset and goes on at the byte offset where the numeral ends; in ASCII
  text the two counts agree.
- `src/my_bc/grammar.rs`: when reading succeeds, stated directly: which
  character may stand where, balanced parentheses, and the first fault.
- `src/my_bc/laws.rs`, `src/my_bc/precedence.rs`, `src/my_bc/reorder.rs`:
  laws of the arithmetic and of numerals, the proof that an expression
  written with the usual precedence evaluates to its value, and what
  reordering into postfix keeps.
- `src/my_bc/text.rs`: UTF-8 byte counts, decimal digits, and the `std`
  string calls used.
- `app/`: the interactive calculator and a random expression generator.
