# sus_compiler (verified parts)

Verified pieces of the SUS hardware-description compiler's development aids:

- `src/debug.rs`: the ring buffer of recently touched spans and the
  `SpanDebugger` guard that reports them when guarded work panics.
- `src/dev_aid/syntax_highlighting.rs`: how each token is highlighted, from
  its class, the bracket structure and the syntax tree.
- `src/dev_aid/character_offsets.rs`: conversion of token byte ranges into
  character ranges.
- `src/dev_aid/print_styles.rs`: the terminal style of each highlighted token.
- `src/tokenizer.rs`, `src/parser.rs`, `src/ast.rs`: the parts of a parse
  result that highlighting reads.

`app/` holds what is not verified: the per-thread history with its `Drop`
guard, and printing to the terminal with the `console` crate.
