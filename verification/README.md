# expreon

Primitives for symbolic regression by genetic programming, verified with Verus.

- `src/ast.rs`, `src/expr.rs`: arena-allocated expressions, and the trees that
  their nodes stand for.
- `src/ops.rs`: operations and the table that looks them up.
- `src/eval.rs`, `src/vectorized.rs`, `src/cached.rs`: evaluation node by node,
  batch by batch in recycled buffers, and with memoized results. All three
  compute the same value of an expression.
- `src/gp/`: genomes, tree generation, mutations, fitness, selection, and the
  breeding of one generation from another.
- `src/array.rs`, `src/random.rs`: the numeric arrays (`ndarray`) and random
  draws (`rand`) that the rest builds on.

Scalars are bit patterns of single-precision numbers (`src/types.rs`,
`src/scalar.rs`). Arithmetic on them is left to implementations of
`ops::Operation` and `random::Reals`; `app/` holds those for `f32`.
