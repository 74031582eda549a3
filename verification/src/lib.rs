//! Primitives for symbolic regression by genetic programming: arena-allocated
//! expressions, an operation table, evaluators, and the machinery that grows,
//! mutates, scores and breeds individuals.

pub mod types;
pub mod scalar;
pub mod expr;
pub mod ast;
pub mod array;
pub mod ops;
pub mod prelude;
pub mod eval;
pub mod vectorized;
pub mod cached;
pub mod random;
pub mod formula;
pub mod gp;
pub mod slot;
