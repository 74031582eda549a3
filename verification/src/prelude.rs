//! The items most programs need.

pub use crate::ast::{ExprArena, ExprNode, ExprNodeIter, NodeKind};
pub use crate::eval::EvalContext;
pub use crate::ops::{Arity, Operation, OperationSet, OperationTable, OperationTableBuilder};
pub use crate::types::{NodeId, OperationId, ParameterId, RootId, Scalar, VariableId};
