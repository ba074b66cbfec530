# postfix_rs

An interpreter for the Postfix stack language that works by rewriting the
program text one step at a time, with a lexer and a parser for Postfix
programs. The library is written in Verus: every function states what it
does in `requires`/`ensures` clauses over mathematical models, and Verus
proves it.

```
postfix "(postfix 2 (mul sub) (1 nget mul) 4 nget swap exec swap exec)" "-10 2"
```

prints each program of the run, ending with `"(postfix 0 42)" ""`.

## Layout

- `src/rewrite.rs`: one rewriting step (`step`, `step_checked`), the
  scanners it uses (`skip_whitespace`, `skip_number`, `skip_paren`,
  `skip_identifier`, `skip_while`, `split_prefix_pattern`), and the laws of
  stepping.
- `src/parser.rs`: `lexer` (text to tokens) and `parse` (tokens to
  commands), with the laws of lexing.
- `src/postfix.rs`: the commands of a parsed program.
- `src/numbers.rs`: reading and writing decimal integers.
- `src/chars.rs`: character classes.
- `src/text.rs`: string slices as character vectors.
- `app/`: the command-line runner.
- `tests/`: tests of the library.
