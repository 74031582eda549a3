//! The value of an expression, and the evaluator that computes it node by
//! node.

use crate::array::{Buffer, Matrix};
use crate::ast::{ExprArena, ExprNode, NodeKind};
use crate::expr::{alike, alike_but, expr_of, finite_at, lemma_expr_step, lemma_params_below, Expr};
use crate::ops::{Arity, OpMetadata, OperationTable};
use crate::types::{NodeId, OperationId, Scalar};
use vstd::prelude::*;

verus! {

/// Whether `op` is the identifier of an operation of the given arity.
pub open spec fn applicable(ops: Seq<OpMetadata>, op: OperationId, arity: Arity) -> bool {
    op.0 < ops.len() && ops[op.0 as int].arity_of() == arity
}

/// Whether the expression can be evaluated: it has no dangling identifier,
/// its leaves read within the inputs and the parameters, and each operator is
/// one of its node's arity.
pub open spec fn evaluable<Tag>(
    e: Expr<Tag>,
    ops: Seq<OpMetadata>,
    n_inputs: nat,
    n_params: nat,
) -> bool
    decreases e,
{
    match e {
        Expr::Missing { .. } => false,
        Expr::Variable { var, .. } => var.0 < n_inputs,
        Expr::Parameter { param, .. } => param.0 < n_params,
        Expr::Unary { op, value, .. } => applicable(ops, op, Arity::Unary) && evaluable(
            *value,
            ops,
            n_inputs,
            n_params,
        ),
        Expr::Binary { op, left, right, .. } => applicable(ops, op, Arity::Binary) && evaluable(
            *left,
            ops,
            n_inputs,
            n_params,
        ) && evaluable(*right, ops, n_inputs, n_params),
    }
}

/// The value of the expression on the given inputs and parameters.
pub open spec fn value<Tag>(
    e: Expr<Tag>,
    ops: Seq<OpMetadata>,
    inputs: Seq<Scalar>,
    params: Seq<Scalar>,
) -> Scalar
    decreases e,
{
    match e {
        Expr::Missing { .. } => arbitrary(),
        Expr::Variable { var, .. } => inputs[var.0 as int],
        Expr::Parameter { param, .. } => params[param.0 as int],
        Expr::Unary { op, value: x, .. } => ops[op.0 as int].value(
            seq![value(*x, ops, inputs, params)],
        ),
        Expr::Binary { op, left, right, .. } => ops[op.0 as int].value(
            seq![value(*left, ops, inputs, params), value(*right, ops, inputs, params)],
        ),
    }
}

/// Number of samples that the expression yields on `inputs` rows of inputs
/// and `params` rows of parameters.
pub open spec fn samples<Tag>(e: Expr<Tag>, inputs: nat, params: nat) -> nat
    decreases e,
{
    match e {
        Expr::Missing { .. } => 0,
        Expr::Variable { .. } => inputs,
        Expr::Parameter { .. } => params,
        Expr::Unary { value: x, .. } => samples(*x, inputs, params),
        Expr::Binary { left, .. } => samples(*left, inputs, params),
    }
}

/// Whether both operands of every binary operator yield as many samples. They
/// do if there are as many rows of inputs as of parameters.
pub open spec fn aligned<Tag>(e: Expr<Tag>, inputs: nat, params: nat) -> bool
    decreases e,
{
    match e {
        Expr::Unary { value: x, .. } => aligned(*x, inputs, params),
        Expr::Binary { left, right, .. } => {
            &&& aligned(*left, inputs, params)
            &&& aligned(*right, inputs, params)
            &&& samples(*left, inputs, params) == samples(*right, inputs, params)
        },
        _ => true,
    }
}

/// Evaluation context for expressions.
pub struct EvalContext<'a, 'b, Tag: Clone> {
    pub arena: &'a ExprArena<Tag>,
    pub ops: &'b OperationTable,
}

impl<'a, 'b, Tag: Clone> EvalContext<'a, 'b, Tag> {
    pub fn new(arena: &'a ExprArena<Tag>, ops: &'b OperationTable) -> (r: Self)
        ensures
            r.arena == arena,
            r.ops == ops,
    {
        Self { arena, ops }
    }

    /// Evaluates the expression with the given node ID using provided
    /// parameters and inputs. Returns a single output.
    pub fn eval(&self, node_id: NodeId, inputs: &Buffer, parameters: &Buffer) -> (r: Scalar)
        requires
            self.arena.finite_at(node_id),
            evaluable(
                self.arena.expr(node_id),
                self.ops.operations(),
                inputs@.len(),
                parameters@.len(),
            ),
        ensures
            r == value(self.arena.expr(node_id), self.ops.operations(), inputs@, parameters@),
        decreases self.arena.expr(node_id),
    {
        proof {
            lemma_expr_step(self.arena.nodes(), node_id);
        }
        let node = self.arena.get_node(node_id).unwrap();
        match node.kind {
            NodeKind::Variable(var_id) => inputs.get(*var_id as usize),
            NodeKind::Parameter(param_id) => parameters.get(*param_id as usize),
            NodeKind::Unary { value, op } => {
                let val = self.eval(value, inputs, parameters);
                let meta = self.ops.lookup_by_id(op).unwrap();
                let args = [val];
                assert(args@ == seq![val]);
                meta.call(&args)
            },
            NodeKind::Binary { left, right, op } => {
                let l = self.eval(left, inputs, parameters);
                let r = self.eval(right, inputs, parameters);
                let meta = self.ops.lookup_by_id(op).unwrap();
                let args = [l, r];
                assert(args@ == seq![l, r]);
                meta.call(&args)
            },
        }
    }

    /// Evaluates the expression over a batch of inputs and parameters.
    /// Returns one output per sample.
    ///
    /// ## Notes
    /// - `inputs` is expected to have shape `[batch_size, n_variables]`
    /// - `parameters` is expected to have shape `[batch_size, n_parameters]`.
    pub fn eval_batch(&self, node_id: NodeId, inputs: &Matrix, parameters: &Matrix) -> (r: Buffer)
        requires
            self.arena.finite_at(node_id),
            evaluable(
                self.arena.expr(node_id),
                self.ops.operations(),
                inputs.width(),
                parameters.width(),
            ),
            aligned(self.arena.expr(node_id), inputs@.len(), parameters@.len()),
        ensures
            r@.len() == samples(self.arena.expr(node_id), inputs@.len(), parameters@.len()),
            forall|i: int|
                0 <= i < r@.len() ==> #[trigger] r@[i] == value(
                    self.arena.expr(node_id),
                    self.ops.operations(),
                    inputs@[i],
                    parameters@[i],
                ),
        decreases self.arena.expr(node_id),
    {
        proof {
            lemma_expr_step(self.arena.nodes(), node_id);
        }
        let node = self.arena.get_node(node_id).unwrap();
        match node.kind {
            NodeKind::Variable(var_id) => inputs.column(*var_id as usize),
            NodeKind::Parameter(param_id) => parameters.column(*param_id as usize),
            NodeKind::Unary { value, op } => {
                let val = self.eval_batch(value, inputs, parameters);
                let meta = self.ops.lookup_by_id(op).unwrap();
                let f = |x: Scalar| -> (y: Scalar)
                    requires
                        meta.wf(),
                        meta.arity_of() == Arity::Unary,
                    ensures
                        y == meta.value(seq![x]),
                    {
                        let args = [x];
                        assert(args@ == seq![x]);
                        meta.call(&args)
                    };
                val.mapv(f)
            },
            NodeKind::Binary { left, right, op } => {
                let l = self.eval_batch(left, inputs, parameters);
                let r = self.eval_batch(right, inputs, parameters);
                let meta = self.ops.lookup_by_id(op).unwrap();
                let f = |lv: &Scalar, rv: &Scalar| -> (y: Scalar)
                    requires
                        meta.wf(),
                        meta.arity_of() == Arity::Binary,
                    ensures
                        y == meta.value(seq![*lv, *rv]),
                    {
                        let args = [*lv, *rv];
                        assert(args@ == seq![*lv, *rv]);
                        meta.call(&args)
                    };
                l.zip_map(&r, f)
            },
        }
    }
}

/// Expressions that are alike have the same value, and can be evaluated on
/// the same inputs and parameters.
pub proof fn lemma_value_alike<Tag: Clone>(
    a: Expr<Tag>,
    b: Expr<Tag>,
    ops: Seq<OpMetadata>,
    inputs: Seq<Scalar>,
    params: Seq<Scalar>,
)
    requires
        alike(a, b),
    ensures
        value(a, ops, inputs, params) == value(b, ops, inputs, params),
        evaluable(a, ops, inputs.len(), params.len()) == evaluable(
            b,
            ops,
            inputs.len(),
            params.len(),
        ),
    decreases a,
{
    match (a, b) {
        (Expr::Unary { value: xa, .. }, Expr::Unary { value: xb, .. }) => {
            lemma_value_alike(*xa, *xb, ops, inputs, params);
        },
        (
            Expr::Binary { left: la, right: ra, .. },
            Expr::Binary { left: lb, right: rb, .. },
        ) => {
            lemma_value_alike(*la, *lb, ops, inputs, params);
            lemma_value_alike(*ra, *rb, ops, inputs, params);
        },
        _ => {},
    }
}

/// An expression with a part replaced can be evaluated where both it and the
/// new part can. It may have been given more parameters along with the part.
pub proof fn lemma_alike_but_evaluable<Tag: Clone>(
    a: Expr<Tag>,
    b: Expr<Tag>,
    target: NodeId,
    part: Expr<Tag>,
    ops: Seq<OpMetadata>,
    n_inputs: nat,
    less: nat,
    more: nat,
)
    requires
        alike_but(a, b, target, part),
        evaluable(a, ops, n_inputs, less),
        evaluable(part, ops, n_inputs, more),
        less <= more,
    ensures
        evaluable(b, ops, n_inputs, more),
    decreases a,
{
    if a.id() != target {
        match (a, b) {
            (Expr::Unary { value: xa, .. }, Expr::Unary { value: xb, .. }) => {
                lemma_alike_but_evaluable(*xa, *xb, target, part, ops, n_inputs, less, more);
            },
            (
                Expr::Binary { left: la, right: ra, .. },
                Expr::Binary { left: lb, right: rb, .. },
            ) => {
                lemma_alike_but_evaluable(*la, *lb, target, part, ops, n_inputs, less, more);
                lemma_alike_but_evaluable(*ra, *rb, target, part, ops, n_inputs, less, more);
            },
            _ => {},
        }
    }
}

/// An expression alike to one that can be evaluated can be evaluated too, on
/// no fewer parameters.
pub proof fn lemma_alike_evaluable<Tag: Clone>(
    a: Expr<Tag>,
    b: Expr<Tag>,
    ops: Seq<OpMetadata>,
    n_inputs: nat,
    less: nat,
    more: nat,
)
    requires
        alike(a, b),
        evaluable(a, ops, n_inputs, less),
        less <= more,
    ensures
        evaluable(b, ops, n_inputs, more),
    decreases a,
{
    match (a, b) {
        (Expr::Unary { value: xa, .. }, Expr::Unary { value: xb, .. }) => {
            lemma_alike_evaluable(*xa, *xb, ops, n_inputs, less, more);
        },
        (
            Expr::Binary { left: la, right: ra, .. },
            Expr::Binary { left: lb, right: rb, .. },
        ) => {
            lemma_alike_evaluable(*la, *lb, ops, n_inputs, less, more);
            lemma_alike_evaluable(*ra, *rb, ops, n_inputs, less, more);
        },
        _ => {},
    }
}

/// The parts of an expression can be evaluated where it can.
pub proof fn lemma_part_evaluable<Tag: Clone>(
    nodes: Seq<ExprNode<Tag>>,
    id: NodeId,
    i: int,
    ops: Seq<OpMetadata>,
    n_inputs: nat,
    n_params: nat,
)
    requires
        finite_at(nodes, id),
        evaluable(expr_of(nodes, id), ops, n_inputs, n_params),
        0 <= i < expr_of(nodes, id).walked().len(),
    ensures
        evaluable(expr_of(nodes, expr_of(nodes, id).walked()[i]), ops, n_inputs, n_params),
    decreases expr_of(nodes, id),
{
    let e = expr_of(nodes, id);
    lemma_expr_step(nodes, id);
    if i > 0 {
        match nodes[id.0 as int].kind {
            NodeKind::Unary { value, .. } => {
                assert(e.walked()[i] == expr_of(nodes, value).walked()[i - 1]);
                lemma_part_evaluable(nodes, value, i - 1, ops, n_inputs, n_params);
            },
            NodeKind::Binary { left, right, .. } => {
                let l = expr_of(nodes, left).walked();
                let r = expr_of(nodes, right).walked();
                if i <= l.len() {
                    assert(e.walked()[i] == l[i - 1]);
                    lemma_part_evaluable(nodes, left, i - 1, ops, n_inputs, n_params);
                } else {
                    assert(e.walked()[i] == r[i - 1 - l.len()]);
                    lemma_part_evaluable(nodes, right, i - 1 - l.len(), ops, n_inputs, n_params);
                }
            },
            _ => {},
        }
    }
}

/// An expression that can be evaluated has no dangling identifier, and reads
/// only parameters that exist.
pub proof fn lemma_evaluable<Tag>(e: Expr<Tag>, ops: Seq<OpMetadata>, n_inputs: nat, n_params: nat)
    requires
        evaluable(e, ops, n_inputs, n_params),
    ensures
        e.complete(),
        e.params_below(n_params),
    decreases e,
{
    lemma_params_below(e, n_params);
    match e {
        Expr::Unary { value: x, .. } => {
            lemma_evaluable(*x, ops, n_inputs, n_params);
        },
        Expr::Binary { left, right, .. } => {
            lemma_evaluable(*left, ops, n_inputs, n_params);
            lemma_evaluable(*right, ops, n_inputs, n_params);
        },
        _ => {},
    }
}

/// Where there are as many rows of inputs as of parameters, every expression
/// without dangling identifiers yields one sample per row.
pub proof fn lemma_aligned<Tag>(e: Expr<Tag>, rows: nat)
    requires
        e.complete(),
    ensures
        aligned(e, rows, rows),
        samples(e, rows, rows) == rows,
    decreases e,
{
    match e {
        Expr::Unary { value: x, .. } => {
            lemma_aligned(*x, rows);
        },
        Expr::Binary { left, right, .. } => {
            lemma_aligned(*left, rows);
            lemma_aligned(*right, rows);
        },
        _ => {},
    }
}

/// What a node evaluates to, told by what its operands do: a variable to its
/// input, a parameter to its value, and an operator to the result of its
/// operation on what the operands evaluate to, left before right.
pub proof fn lemma_eval<Tag: Clone>(
    context: &EvalContext<'_, '_, Tag>,
    node: NodeId,
    inputs: &Buffer,
    params: &Buffer,
    first: Scalar,
    second: Scalar,
    r: Scalar,
)
    requires
        context.arena.finite_at(node),
        evaluable(
            context.arena.expr(node),
            context.ops.operations(),
            inputs@.len(),
            params@.len(),
        ),
        call_ensures(EvalContext::<Tag>::eval, (context, node, inputs, params), r),
        match context.arena.nodes()[node.0 as int].kind {
            NodeKind::Unary { value, .. } => call_ensures(
                EvalContext::<Tag>::eval,
                (context, value, inputs, params),
                first,
            ),
            NodeKind::Binary { left, right, .. } => call_ensures(
                EvalContext::<Tag>::eval,
                (context, left, inputs, params),
                first,
            ) && call_ensures(EvalContext::<Tag>::eval, (context, right, inputs, params), second),
            _ => true,
        },
    ensures
        context.arena.has(node),
        match context.arena.nodes()[node.0 as int].kind {
            NodeKind::Variable(var) => var.0 < inputs@.len() && r == inputs@[var.0 as int],
            NodeKind::Parameter(p) => p.0 < params@.len() && r == params@[p.0 as int],
            NodeKind::Unary { op, .. } => {
                &&& op.0 < context.ops.operations().len()
                &&& context.ops.operations()[op.0 as int].arity_of() == Arity::Unary
                &&& r == context.ops.operations()[op.0 as int].value(seq![first])
            },
            NodeKind::Binary { op, .. } => {
                &&& op.0 < context.ops.operations().len()
                &&& context.ops.operations()[op.0 as int].arity_of() == Arity::Binary
                &&& r == context.ops.operations()[op.0 as int].value(seq![first, second])
            },
        },
{
    lemma_expr_step(context.arena.nodes(), node);
}

/// Each sample of a batch is what evaluation gives for its own row of inputs
/// and its own row of parameters. An expression of parameters alone has one
/// sample per row of parameters, one with variables alone one per row of
/// inputs, and where there are as many of both, any has that many.
pub proof fn lemma_eval_batch<Tag: Clone>(
    context: &EvalContext<'_, '_, Tag>,
    node: NodeId,
    inputs: &Matrix,
    params: &Matrix,
    r: Buffer,
    i: int,
    row: &Buffer,
    param_row: &Buffer,
    single: Scalar,
)
    requires
        context.arena.finite_at(node),
        evaluable(
            context.arena.expr(node),
            context.ops.operations(),
            inputs.width(),
            params.width(),
        ),
        aligned(context.arena.expr(node), inputs@.len(), params@.len()),
        call_ensures(EvalContext::<Tag>::eval_batch, (context, node, inputs, params), r),
        0 <= i < r@.len(),
        row@ == inputs@[i],
        param_row@ == params@[i],
        row@.len() == inputs.width(),
        param_row@.len() == params.width(),
        call_ensures(EvalContext::<Tag>::eval, (context, node, row, param_row), single),
    ensures
        r@[i] == single,
        inputs@.len() == params@.len() ==> r@.len() == inputs@.len(),
        context.arena.nodes()[node.0 as int].kind is Variable ==> r@.len() == inputs@.len(),
        context.arena.nodes()[node.0 as int].kind is Parameter ==> r@.len() == params@.len(),
{
    lemma_expr_step(context.arena.nodes(), node);
    lemma_evaluable(
        context.arena.expr(node),
        context.ops.operations(),
        inputs.width(),
        params.width(),
    );
    if inputs@.len() == params@.len() {
        lemma_aligned(context.arena.expr(node), inputs@.len());
    }
}

} // verus!
