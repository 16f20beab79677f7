# Scientific calculator MCP app

An MCP server that exposes calculator primitives (`add`, `subtract`,
`multiply`, `divide`, `negate`, `power`, `sqrt`, `log`, `get_constant`) and a
keypad widget, with a code mode that parses a whole expression and runs it as
an ordered list of primitive calls.

## Layout

- `src/`: the library, verified with Verus.
  - `code_mode.rs`: the expression parser, each method proved to read what
    the grammar in `grammar.rs` says; `literal.rs` decides which number
    texts are decimal literals, `bytes.rs` holds byte classes and text helpers.
  - `plan.rs`: the steps that evaluating an expression runs, where it stops,
    and the law that every compiled plan can run; `run.rs` runs a plan,
    recording each step and stopping at the first that fails.
  - `primitives.rs`, `ieee.rs`: which operands each primitive refuses, and
    with which error, decided on IEEE 754 bit patterns.
  - `constants.rs`: the named constants and how a name resolves.
- `app/`: the server binary: floating-point arithmetic, result formatting,
  the MCP tool handlers, the HTTP server and the AWS Lambda proxy.
- `tests/`: tests of the library.

The widget is read at start-up from `widgets/keypad.html`.
