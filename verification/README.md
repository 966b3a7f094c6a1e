# fel — Filter Expression Language

Parses boolean filter expressions such as

    (path_prefix("/api") or method("GET")) and has_header("X-API-KEY")

into a syntax tree and evaluates them with a caller-supplied function for the
function calls. The code under `src/` is verified with Verus; the one thing it takes
on trust is the specification of `String::push` (that it appends a character), stated
with `assume_specification` in `src/lang/text.rs`.

Layout:

- `src/lang/grammar.rs` — the grammar as spec functions on the characters of the input;
  each gives the end position and value of what it reads, or the failure (position and
  context) that stops it.
- `src/lang/parsers.rs` — the executable parsers (`token`, `func_name`, `func_call`,
  `term`, `parens_expr`, `and_expr`, `or_expr`, `expr`, `parse`, `parse_with_context`),
  each proved to give exactly what the grammar gives. With a parser context, every call
  must name a known function with arguments of its declared kinds.
- `src/lang/context.rs` — the parser context: the table of known functions and the text
  that error reports show.
- `src/lang/printer.rs` — the canonical text of a tree, and the laws: parsing that text
  gives the tree back; `and` binds tighter than `or`, `not` tighter than `and`,
  parentheses group, chains of any length fold to the left.
- `src/lang/nesting.rs` — what a text reads as alone it reads as inside a longer input:
  parentheses around any input that parses as a whole give the same expression, and
  chains of `or` (of `and`) over any operands that parse whole as `and` groups (as
  terms), however spaced, fold to the left.
- `src/lang/ast.rs` — the tree, its evaluation (`and`/`or` decide on the left operand
  where they can, and the right operand is then never evaluated) and the laws relating
  evaluation to boolean logic: De Morgan and double negation (for every evaluator), that
  an error of the evaluation is one an evaluator call answered, and that the first
  failing call's error is the result.
- `src/lang/error.rs` — `FurthestError`, the parse error: where it arose (as the bytes
  left), what the parser was doing there, and its report; positions are byte offsets in
  the input. Where every alternative fails, the parsers report the last one's error.
- `src/lang/stream.rs`, `src/lang/text.rs` — the input and small string utilities.
- `src/demo.rs` — the sample predicates used by the command-line demo.
- `app/main.rs` — the command-line demo.
