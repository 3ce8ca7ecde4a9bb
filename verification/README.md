# kaleidoscope

A front end for the Kaleidoscope toy language, verified with Verus.

- `src/frontend/lexer.rs` — the lexical grammar as a spec (`lex_step`,
  `tokenize_from`) and the `Lexer` proved to follow it: numbers `[0-9][0-9.]*`
  with at most one `.`, identifiers `[a-zA-Z][a-zA-Z0-9]*`, comments from `#`
  to the end of the line, whitespace as Unicode's White_Space set.
- `src/frontend/parser.rs` — the precedence-climbing grammar as spec functions
  over the token stream (`p_expression`, `p_prototype`, ...) and the `Parser`
  proved to follow it, with the laws of operator precedence for chains of any
  length.
- `src/frontend/driver.rs` — what a line of input asks for (`parse_line`).
- `src/frontend/code_generation.rs` — the decisions of code generation: the
  module's functions, the lowering of a body to stack code (`lower`), and the
  laws that the code is balanced, that it computes the value of the expression
  (for any meaning of the operations), and that functions are not redefined.
- `app/main.rs` — the REPL: reads lines and has LLVM (through inkwell) build,
  check, optimise and run the code the library decides on.
