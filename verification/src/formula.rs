//! What an expression says, whatever arena and parameter slots hold it.

use crate::ast::{ExprNode, NodeKind};
use crate::eval::value;
use crate::expr::{
    alike, alike_but, expr_of, finite_at, lemma_expr_id, lemma_expr_step, lemma_params_below, Expr,
};
use crate::ops::OpMetadata;
use crate::types::{NodeId, OperationId, Scalar, VariableId};
use vstd::prelude::*;

verus! {

/// An expression without identifiers of nodes and parameters: each parameter
/// is replaced by its value.
pub enum Formula {
    Missing,
    Variable(VariableId),
    Constant(Scalar),
    Unary(OperationId, Box<Formula>),
    Binary(OperationId, Box<Formula>, Box<Formula>),
}

/// The formula of an expression under the given parameters.
pub open spec fn formula<Tag>(e: Expr<Tag>, params: Seq<Scalar>) -> Formula
    decreases e,
{
    match e {
        Expr::Missing { .. } => Formula::Missing,
        Expr::Variable { var, .. } => Formula::Variable(var),
        Expr::Parameter { param, .. } => Formula::Constant(params[param.0 as int]),
        Expr::Unary { op, value, .. } => Formula::Unary(op, Box::new(formula(*value, params))),
        Expr::Binary { op, left, right, .. } => Formula::Binary(
            op,
            Box::new(formula(*left, params)),
            Box::new(formula(*right, params)),
        ),
    }
}

/// The formula of an expression under the given parameters, with `part` in
/// place of each subexpression at `target`.
pub open spec fn formula_with<Tag>(
    e: Expr<Tag>,
    params: Seq<Scalar>,
    target: NodeId,
    part: Formula,
) -> Formula
    decreases e,
{
    if e.id() == target {
        part
    } else {
        match e {
            Expr::Unary { op, value, .. } => Formula::Unary(
                op,
                Box::new(formula_with(*value, params, target, part)),
            ),
            Expr::Binary { op, left, right, .. } => Formula::Binary(
                op,
                Box::new(formula_with(*left, params, target, part)),
                Box::new(formula_with(*right, params, target, part)),
            ),
            _ => formula(e, params),
        }
    }
}

/// The number that a formula stands for on the given inputs.
pub open spec fn meaning(f: Formula, ops: Seq<OpMetadata>, inputs: Seq<Scalar>) -> Scalar
    decreases f,
{
    match f {
        Formula::Missing => arbitrary(),
        Formula::Variable(var) => inputs[var.0 as int],
        Formula::Constant(c) => c,
        Formula::Unary(op, x) => ops[op.0 as int].value(seq![meaning(*x, ops, inputs)]),
        Formula::Binary(op, l, r) => ops[op.0 as int].value(
            seq![meaning(*l, ops, inputs), meaning(*r, ops, inputs)],
        ),
    }
}

/// The value of an expression is the number that its formula stands for: what
/// it evaluates to depends on nothing but its operators, its variables and the
/// values of its parameters.
pub proof fn lemma_value_of_formula<Tag>(
    e: Expr<Tag>,
    ops: Seq<OpMetadata>,
    inputs: Seq<Scalar>,
    params: Seq<Scalar>,
)
    requires
        e.complete(),
    ensures
        value(e, ops, inputs, params) == meaning(formula(e, params), ops, inputs),
    decreases e,
{
    match e {
        Expr::Unary { value: x, .. } => {
            lemma_value_of_formula(*x, ops, inputs, params);
        },
        Expr::Binary { left, right, .. } => {
            lemma_value_of_formula(*left, ops, inputs, params);
            lemma_value_of_formula(*right, ops, inputs, params);
        },
        _ => {},
    }
}

/// A copy says the same.
pub proof fn lemma_formula_alike<Tag: Clone>(a: Expr<Tag>, b: Expr<Tag>, params: Seq<Scalar>)
    requires
        alike(a, b),
    ensures
        formula(a, params) == formula(b, params),
    decreases a,
{
    match (a, b) {
        (Expr::Unary { value: xa, .. }, Expr::Unary { value: xb, .. }) => {
            lemma_formula_alike(*xa, *xb, params);
        },
        (Expr::Binary { left: la, right: ra, .. }, Expr::Binary { left: lb, right: rb, .. }) => {
            lemma_formula_alike(*la, *lb, params);
            lemma_formula_alike(*ra, *rb, params);
        },
        _ => {},
    }
}

/// A copy with a part replaced says the same but for that part.
pub proof fn lemma_formula_replaced<Tag: Clone>(
    a: Expr<Tag>,
    b: Expr<Tag>,
    target: NodeId,
    part: Expr<Tag>,
    params: Seq<Scalar>,
)
    requires
        alike_but(a, b, target, part),
    ensures
        formula(b, params) == formula_with(a, params, target, formula(part, params)),
    decreases a,
{
    if a.id() != target {
        match (a, b) {
            (Expr::Unary { value: xa, .. }, Expr::Unary { value: xb, .. }) => {
                lemma_formula_replaced(*xa, *xb, target, part, params);
            },
            (
                Expr::Binary { left: la, right: ra, .. },
                Expr::Binary { left: lb, right: rb, .. },
            ) => {
                lemma_formula_replaced(*la, *lb, target, part, params);
                lemma_formula_replaced(*ra, *rb, target, part, params);
            },
            _ => {
                lemma_formula_alike(a, b, params);
            },
        }
    }
}

/// Parameters behind those that an expression reads do not matter.
pub proof fn lemma_formula_extend<Tag>(
    e: Expr<Tag>,
    params: Seq<Scalar>,
    more: Seq<Scalar>,
    target: NodeId,
    part: Formula,
)
    requires
        e.params_below(params.len()),
        params.is_prefix_of(more),
    ensures
        formula(e, more) == formula(e, params),
        formula_with(e, more, target, part) == formula_with(e, params, target, part),
    decreases e,
{
    lemma_params_below(e, params.len());
    match e {
        Expr::Unary { value: x, .. } => {
            lemma_formula_extend(*x, params, more, target, part);
        },
        Expr::Binary { left, right, .. } => {
            lemma_formula_extend(*left, params, more, target, part);
            lemma_formula_extend(*right, params, more, target, part);
        },
        _ => {},
    }
}

/// Replacing a part by itself changes nothing.
pub proof fn lemma_formula_itself<Tag: Clone>(
    nodes: Seq<ExprNode<Tag>>,
    id: NodeId,
    target: NodeId,
    params: Seq<Scalar>,
)
    requires
        finite_at(nodes, id),
    ensures
        formula_with(
            expr_of(nodes, id),
            params,
            target,
            formula(expr_of(nodes, target), params),
        ) == formula(expr_of(nodes, id), params),
    decreases expr_of(nodes, id),
{
    lemma_expr_id(nodes, id);
    lemma_expr_step(nodes, id);
    if id != target && id.0 < nodes.len() {
        match nodes[id.0 as int].kind {
            NodeKind::Unary { value, .. } => {
                lemma_formula_itself(nodes, value, target, params);
            },
            NodeKind::Binary { left, right, .. } => {
                lemma_formula_itself(nodes, left, target, params);
                lemma_formula_itself(nodes, right, target, params);
            },
            _ => {},
        }
    }
}

} // verus!
