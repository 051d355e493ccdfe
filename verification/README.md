# tinybasic

A small BASIC interpreter as a verified library:

- `tokenizer`: splits a byte buffer into tokens (`PRINT`/`INPUT` keywords in
  any case, identifiers, decimal integers, `,` `;` `:` `=` and line ends).
  `scanner.rs` states what one scan returns as spec functions over the input
  and an offset, and proves the scanner's bounds, progress and end-of-input
  behaviour.
- `parser`: a recursive-descent parser for lines of the form
  `[number] statement {: statement}` where a statement is `PRINT args` or
  `name = expr`. `grammar.rs` gives each rule its meaning as a function of the
  input and the parser position; the parser's methods are proved to follow
  it, including error recovery (a failing line is recorded and skipped up to
  the end of its line).
- `eval`: a tree-walking evaluator that prints into a byte buffer. Its
  meaning (`run_lines` and friends) is stated over a map of variables and the
  bytes printed so far.
- `text`: decimal digits in both directions and other text helpers.

`app/` writes an evaluation's output to any `std::io::Write`.
