# rtypescript

A small TypeScript-to-JavaScript transpiler that removes type syntax from a
token stream, written in Verus with every pass proved against a
specification.

- `src/token.rs`: the `Token` type, its model `SpecToken`, rendering, and
  the `TokenSink` trait.
- `src/tokenizer.rs`: the lexer and its grammar (`lex`); proofs that lexing
  loses no text and ends with a single `Eof`.
- `src/interfaces.rs`, `src/enums.rs`, `src/classes.rs`, `src/generics.rs`,
  `src/expressions.rs`: the token-to-token passes, each with its
  specification, a proof that it leaves streams without the syntax it
  handles unchanged, and, for the passes that only delete, a proof that
  they only delete.
- `src/transpile.rs`: shared token helpers, the annotation-removing pass
  that renders the result, and `transpile`, the whole pipeline, with the
  proof that plain JavaScript comes out unchanged.

The tests under `tests/` run the library on concrete inputs.
