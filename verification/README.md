# abs_expr

The parser and code generator behind the `abs_expr!` macro, verified with
Verus. The macro turns a token stream such as `a + b * c` into a
heap-allocation-free expression tree built from `const` items.

## Parsing

Binding powers, loosest first: `;` (80), `,` (100), comparisons and any
other character (130), `@` `^` (140), `:` (150), `+` `-` (160), `*` `/` `%`
(170), juxtaposition (185); prefix and postfix operators bind tighter still.
An operator is a run of joint punctuation; its precedence is that of its
last character. The levels of `;`, of `@` `^` and of `:` are
non-associative: `a ^ b ^ c` is refused, `(a ^ b) ^ c` is not. An operator
between two primaries is infix, the operand of a prefix operator extends
over juxtaposition, a parenthesized group must hold exactly one
expression, and parentheses leave no node in the result.

## Layout

- `src/token.rs`: the tokens the parser reads, and their model.
- `src/ast.rs`: parsed expressions (with parentheses), expression values
  (without), their model, and lowering.
- `src/parser.rs`: the Pratt parser, specified by `spec_parse_expr` and
  proved against it.
- `src/codegen.rs`: the constants emitted for an expression, children first,
  and their value.
- `src/expand.rs`: the macro expansion, from tokens to constants.
- `src/grammar.rs`: the grammar stated declaratively, and the proof that
  every expression the parser accepts follows it and is written with the
  input's lexemes in order.
- `src/roundtrip.rs`, `src/laws.rs`, `src/size.rs`: properties of the
  parser: round trip through a fully parenthesized writer, precedence and
  associativity, transparency of parentheses, and the size of the expansion.
- `app/`: the procedural-macro side: converts the compiler's token trees and
  renders the constants with `quote`.
