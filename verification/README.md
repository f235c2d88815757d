# truck

An interpreter for a featherweight fragment of Rust — integers, boxes,
borrows, `let mut`, assignment and blocks — with an ownership and borrow
checker, written in Verus and verified against mathematical models of each
stage.

Layout:

- `src/utils.rs` — the syntax (lvalues, expressions, statements, values,
  types) and their views.
- `src/entries.rs` — association lists keyed by names, the model of
  environments and stores.
- `src/lexer.rs` — the lexer, specified over the bytes of the text
  (`lex_spec` gives the whole token stream).
- `src/parser.rs` — the recursive-descent parser, specified over the token
  stream (`p_program` and the functions it calls); `parse_program` gives
  `None` exactly where the parse meets a failure of lexing.
- `src/types.rs` — typing environments and the type checker (`tc_expr`,
  `tc_stmt`): moves, copies, borrows, assignments and lifetimes.
- `src/eval.rs` — stores and evaluation (`eval_spec`), dropping what a
  block owns when it ends; `try_eval_expr` gives `None` exactly where
  evaluation fails.
- `src/properties.rs` — properties that relate these operations: scopes,
  unique names, reads after writes and moves, exactly what dropping removes,
  fresh box locations, block lifetimes.
- `app/main.rs` — the command-line interpreter: reads a file, parses,
  type checks and evaluates it.
