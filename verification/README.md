# Beast

Beast is a boolean expression simplifier. It reads a boolean expression, written either in a compact algebraic
syntax or as JsonLogic, converts it to disjunctive normal form (DNF), minimizes it with the Quine–McCluskey
algorithm, and writes back an equivalent expression in either syntax.

The library is written in Verus: every function in `src/` carries a contract, and Verus proves the code against it.
The exceptions are a few trusted items that reach the standard library (sharing an `Rc`, `String::push`,
`char::from_u32`, `str::from_utf8`, and the `Debug` quoting of a character or string): their contracts state what the
standard library documents and are taken on trust.

## Layout

- `src/model.rs` — the meaning of a DNF: product terms as conjunctions of literals, evaluation under an assignment,
  and the algebra (AND, OR, complement) exactly as the executable operations compute it, with its laws.
- `src/formula.rs` — formulas as the parsers read them, their DNF, and the law that the DNF means the formula.
- `src/lib.rs` — `ProductTerm`, `Expression`, the operators, the bridge to and from the simplifier's bit-packed
  terms, and the `simplify*` entry points.
- `src/quine_mccluskey.rs` — prime-implicant generation and selection (essential implicants, Petrick's method, a
  greedy fallback).
- `src/algebraic.rs` — the algebraic tokenizer and recursive-descent parser.
- `src/json.rs` — JSON values, their parser and serializer; `src/converter.rs` — JsonLogic to DNF.
- `src/render.rs` — algebraic and JsonLogic output.
- `src/variable_table.rs` — variable names and their indices.
- `src/bits.rs`, `src/text.rs` — bit-level facts and small text helpers.
- `app/main.rs` — the command-line program (argument parsing with `clap`, standard input and output).
- `tests/` — the test suite.

## Command line

```text
beast [--in algebraic|json] [--out algebraic|json] [--style common|code|logic] '<expression>'
```

The expression is read from standard input when it is not given as an argument. The output syntax defaults to the
input syntax; the style applies to algebraic output only.
