# arith_circuit

Arithmetic circuits in Verus: expressions built from `i64` constants,
variables `x0, x1, ...`, sums and products; a simplifier (`e + 0`, `0 + e`,
`e * 1`, `1 * e`, constant folding), an evaluator over a slice of bindings or
a function of the variable index, and a printer.

- `src/term.rs` — the model: terms over unbounded integers, their value,
  the simplifier, the normal form and the printed form, as spec functions.
- `src/laws.rs` — proofs that simplification preserves the value of every
  term under every assignment, reaches a normal form, is idempotent, keeps
  the variables in order, never enlarges a term, and turns a term without
  variables into a constant.
- `src/parse.rs` — a reader for the printed form, proving that the printed
  form determines the expression.
- `src/limbs.rs`, `src/bigint.rs` — integers of any size (base 10^9 limbs)
  with exact addition, multiplication and decimal printing; constants and
  intermediate values are held in them, so nothing overflows.
- `src/expr.rs` — the `Expr` type and its operations, each proved against
  the model.
- `src/text.rs` — decimal printing of integers.
- `src/bindings.rs` — the binding lists used when evaluating with a function.
