# jsntrs

A [JSONata](https://jsonata.org) engine whose parts are verified with
[Verus](https://github.com/verus-lang/verus): the lexer and the parser, the
preparation of a syntax tree for evaluation, the standard library, and streams
that evaluate many expressions on one input after another.

| Path | What |
|---|---|
| `src/` | The library. Each function states what it gives, and Verus proves it. |
| `src/number.rs`, `src/decimal.rs`, `src/bignum.rs` | Double precision numbers, and their decimal notation, over integers. |
| `src/parser/` | Source text to syntax trees, and what holds of them. |
| `src/stdlib/` | The functions that expressions call. |
| `tests/` | Tests, some of them with a small evaluator over the library. |
| `app/` | What needs floating point, state that outlives a call, or functions of the host. |

An evaluator hands the functions that call back a closure for each thing that
they may ask of it: to call a function, to look a name up, to say whether to go
on. It hands the parser one that reads the inside of function signatures.
Contracts speak of what may come of the answers.
