//! The mutations that come with the crate.

use super::{
    bred, copied_onto, keeps_evaluable, led_to, lemma_alike_weight, lemma_offspring_weight, Mutation,
    MutationContext, Step,
};
use crate::ast::{lemma_walked_valid, ExprArena, ExprNode, NodeKind};
use crate::eval::{evaluable, lemma_alike_evaluable, lemma_part_evaluable};
use crate::expr::{
    alike, expr_of, finite_at, lemma_expr_extend, lemma_expr_step, lemma_ids_from,
    lemma_params_below, lemma_walked_len, Expr,
};
use crate::gp::builder::NodeBuilder;
use crate::gp::subtree::{
    choose_arity, emit_constant, emit_terminal, emit_variable, follows, gen_subtree, generated,
    lemma_drawn_evaluable, lemma_generated, GrowSubtreeConfig, TreeGenConfig, TreeMethod,
};
use crate::gp::{Genome, Individual};
use crate::ops::{lemma_ids_with, Arity, OperationTable};
use crate::random::{
    flip, may_draw, may_show, next_index, next_jitter, next_one, next_toss, next_u16, pick_index,
    picks_one, picks_u16, toss, Reals,
};
use crate::scalar::{drawable, finite};
use crate::types::{low16, NodeId, OperationId, ParameterId, Scalar};
use rand::rngs::StdRng;
use vstd::prelude::*;

verus! {

/// Whether the node at `id` has a tag that the genome gives to its kind.
pub open spec fn tagged_at<G: Genome>(nodes: Seq<ExprNode<G::Tag>>, id: NodeId) -> bool {
    call_ensures(
        G::get_tag_for_node,
        (nodes[id.0 as int].kind,),
        nodes[id.0 as int].tag,
    )
}

/// How many of `n` parameter slots an identifier can name.
pub open spec fn slot_count(n: nat) -> nat {
    if n < 0x1_0000 {
        n
    } else {
        0x1_0000
    }
}

/// How many of `n` parameter slots an identifier can name.
pub fn addressable_slots(n: usize) -> (r: usize)
    ensures
        r == slot_count(n as nat),
{
    if n < 0x1_0000 {
        n
    } else {
        0x1_0000
    }
}

// ---------------------------------------------------------------------------
// PointMutation: swap operator, same arity, or leaf, same kind
// ---------------------------------------------------------------------------

/// Replaces a node's operator with a randomly chosen one of the same arity,
/// leaving all children unchanged. Leaf nodes are swapped for another leaf of
/// the same kind: a variable for one of the genome's input variables (for
/// itself, if there are none), a parameter for one of those that exist.
pub struct PointMutation;

impl PointMutation {
    /// Whether the replacement is the operator node `e` with the operator
    /// `op`, over copies of its operands.
    pub open spec fn swapped<G: Genome>(
        step: Step<G::Tag>,
        id: NodeId,
        op: OperationId,
    ) -> bool {
        &&& step.before.is_prefix_of(step.after)
        &&& step.after.len() == step.before.len() + step.subject().weight()
        &&& step.new_params == step.old_params
        &&& finite_at(step.after, id)
        &&& tagged_at::<G>(step.after, id)
        &&& match (step.subject(), expr_of(step.after, id)) {
            (Expr::Unary { value: a, .. }, Expr::Unary { op: new_op, value: b, .. }) => new_op == op
                && alike(*a, *b),
            (Expr::Binary { left: la, right: ra, .. }, Expr::Binary {
                op: new_op,
                left: lb,
                right: rb,
                ..
            }) => new_op == op && alike(*la, *lb) && alike(*ra, *rb),
            _ => false,
        }
    }

    /// Whether a draw may have given the leaf of the given kind that replaces
    /// the subject, a leaf too.
    pub open spec fn may_swap<G: Genome>(step: Step<G::Tag>, kind: NodeKind) -> bool {
        match (step.subject(), kind) {
            (Expr::Variable { var: old_var, .. }, NodeKind::Variable(var)) => {
                if G::INPUT_DIM > 0 {
                    next_u16(step.rng, G::INPUT_DIM, var.0)
                } else {
                    var == old_var
                }
            },
            (Expr::Parameter { .. }, NodeKind::Parameter(param)) => next_index(
                step.rng,
                slot_count(step.old_params.len()),
                param.0 as int,
            ),
            _ => false,
        }
    }

    /// Whether the replacement is a leaf of the given kind, the only node
    /// added.
    pub open spec fn swapped_leaf<G: Genome>(
        step: Step<G::Tag>,
        id: NodeId,
        kind: NodeKind,
    ) -> bool {
        &&& step.before.is_prefix_of(step.after)
        &&& step.after.len() == step.before.len() + 1
        &&& step.new_params == step.old_params
        &&& id.0 == step.before.len()
        &&& step.after[id.0 as int].kind == kind
        &&& tagged_at::<G>(step.after, id)
    }

    /// Emits a leaf of the given kind.
    pub fn swap_leaf<G: Genome>(kind: NodeKind, ctx: &mut MutationContext<'_, G>) -> (id: NodeId)
        requires
            kind is Variable || kind is Parameter,
        ensures
            final(ctx).source == old(ctx).source,
            final(ctx).ops == old(ctx).ops,
            *final(final(ctx).dest) == *final(old(ctx).dest),
            final(ctx).rng == old(ctx).rng,
            final(ctx).params == old(ctx).params,
            final(ctx).dest.roots() == old(ctx).dest.roots(),
            forall|step: Step<G::Tag>|
                {
                    &&& step.before == old(ctx).dest.nodes()
                    &&& step.after == final(ctx).dest.nodes()
                    &&& step.new_params == step.old_params
                } ==> #[trigger] Self::swapped_leaf::<G>(step, id, kind),
    {
        let tag = G::get_tag_for_node(kind);
        ctx.emit(ExprNode::new(kind, tag))
    }

    /// Copies the operator node `node` with `op` for its operator.
    pub fn swap_operator<G: Genome>(
        target: NodeId,
        node: &ExprNode<G::Tag>,
        op: OperationId,
        ctx: &mut MutationContext<'_, G>,
    ) -> (id: NodeId)
        requires
            old(ctx).source.has(target),
            *node == old(ctx).source.nodes()[target.0 as int],
            old(ctx).source.sound_at(target),
            old(ctx).source.expr(target).params_below(old(ctx).params@.len()),
            node.kind is Unary || node.kind is Binary,
        ensures
            final(ctx).source == old(ctx).source,
            final(ctx).ops == old(ctx).ops,
            *final(final(ctx).dest) == *final(old(ctx).dest),
            final(ctx).rng == old(ctx).rng,
            final(ctx).params == old(ctx).params,
            final(ctx).dest.roots() == old(ctx).dest.roots(),
            ({
                let step = Step {
                    source: old(ctx).source.nodes(),
                    unary: old(ctx).ops.unary_ids(),
                    binary: old(ctx).ops.binary_ids(),
                    target,
                    rng: *old(ctx).rng,
                    before: old(ctx).dest.nodes(),
                    after: final(ctx).dest.nodes(),
                    old_params: old(ctx).params@,
                    new_params: final(ctx).params@,
                };
                Self::swapped::<G>(step, id, op) && step.sound(Some(id))
            }),
    {
        let ghost before = ctx.dest.nodes();
        let ghost n = ctx.params@.len();
        let ghost e = ctx.source.expr(target);
        proof {
            lemma_expr_step(ctx.source.nodes(), target);
            lemma_params_below(e, n);
        }
        match node.kind {
            NodeKind::Unary { value, .. } => {
                let v = ctx.copy_subtree(value);
                let ghost mid = ctx.dest.nodes();
                let kind = NodeKind::Unary { value: v, op };
                let tag = G::get_tag_for_node(kind);
                let id = ctx.emit(ExprNode::new(kind, tag));
                proof {
                    let after = ctx.dest.nodes();
                    lemma_expr_extend(mid, after, v);
                    lemma_expr_step(after, id);
                    lemma_params_below(expr_of(after, id), n);
                }
                id
            },
            NodeKind::Binary { left, right, .. } => {
                let l = ctx.copy_subtree(left);
                let ghost mid = ctx.dest.nodes();
                let r = ctx.copy_subtree(right);
                let ghost both = ctx.dest.nodes();
                let kind = NodeKind::Binary { left: l, right: r, op };
                let tag = G::get_tag_for_node(kind);
                let id = ctx.emit(ExprNode::new(kind, tag));
                proof {
                    let after = ctx.dest.nodes();
                    lemma_expr_extend(mid, both, l);
                    lemma_expr_extend(both, after, l);
                    lemma_expr_extend(both, after, r);
                    lemma_expr_step(after, id);
                    lemma_ids_from(expr_of(both, r), mid.len(), before.len());
                    lemma_params_below(expr_of(after, id), n);
                }
                id
            },
            _ => target,
        }
    }
}

impl<G: Genome> Mutation<G> for PointMutation {
    open spec fn applies(&self, kind: NodeKind) -> bool {
        true
    }

    open spec fn ready(&self, kind: NodeKind, ops: &OperationTable, n_params: nat) -> bool {
        &&& kind is Unary ==> ops.unary_ids().len() > 0
        &&& kind is Binary ==> ops.binary_ids().len() > 0
    }

    open spec fn yields(&self, step: Step<G::Tag>, replacement: Option<NodeId>) -> bool {
        replacement matches Some(id) && match step.subject() {
            Expr::Variable { .. } | Expr::Parameter { .. } => exists|kind: NodeKind|
                {
                    &&& #[trigger] Self::swapped_leaf::<G>(step, id, kind)
                    &&& Self::may_swap::<G>(step, kind)
                },
            _ => exists|op: OperationId|
                {
                    &&& #[trigger] Self::swapped::<G>(step, id, op)
                    &&& step.subject() is Unary ==> next_one(step.rng, step.unary, op)
                    &&& step.subject() is Binary ==> next_one(step.rng, step.binary, op)
                },
        }
    }

    fn applies_to(&self, kind: NodeKind) -> (r: bool) {
        true  // every node has an operator or is a leaf
    }

    fn apply(
        &self,
        target: NodeId,
        node: &ExprNode<G::Tag>,
        ctx: &mut MutationContext<'_, G>,
    ) -> (r: Option<NodeId>) {
        proof {
            lemma_expr_step(ctx.source.nodes(), target);
            lemma_params_below(ctx.source.expr(target), ctx.params@.len());
        }
        let ghost step = Step {
            source: ctx.source.nodes(),
            unary: ctx.ops.unary_ids(),
            binary: ctx.ops.binary_ids(),
            target,
            rng: *ctx.rng,
            before: ctx.dest.nodes(),
            after: ctx.dest.nodes(),
            old_params: ctx.params@,
            new_params: ctx.params@,
        };
        let kind = match node.kind {
            NodeKind::Unary { .. } | NodeKind::Binary { .. } => {
                let op = match node.kind {
                    NodeKind::Unary { .. } => ctx.pick_random_unary_op(),
                    _ => ctx.pick_random_binary_op(),
                };
                let id = Self::swap_operator(target, node, op, ctx);
                proof {
                    let done = Step { after: ctx.dest.nodes(), new_params: ctx.params@, ..step };
                    assert(Self::swapped::<G>(done, id, op));
                }
                return Some(id);
            },
            NodeKind::Variable(var) => NodeKind::Variable(
                if G::INPUT_DIM > 0 {
                    ctx.pick_variable()
                } else {
                    var
                },
            ),
            NodeKind::Parameter(_) => {
                let slots: usize = addressable_slots(ctx.params.len());
                let slot: usize = pick_index(ctx.rng, slots);
                NodeKind::Parameter(ParameterId(slot as u16))
            },
        };
        let id = Self::swap_leaf(kind, ctx);
        proof {
            let done = Step { after: ctx.dest.nodes(), new_params: ctx.params@, ..step };
            assert(Self::swapped_leaf::<G>(done, id, kind));
            assert(Self::may_swap::<G>(done, kind));
            lemma_expr_step(done.after, id);
            lemma_params_below(expr_of(done.after, id), ctx.params@.len());
        }
        Some(id)
    }
}

// ---------------------------------------------------------------------------
// SubtreeMutation: replace a target subtree with a freshly grown random tree
// ---------------------------------------------------------------------------

/// Replaces the target node (and its entire subtree) with a randomly generated
/// subtree produced by the `grow` generator.
pub struct SubtreeMutation {
    pub grow: GrowSubtreeConfig,
}

impl<G: Genome> Mutation<G> for SubtreeMutation {
    open spec fn applies(&self, kind: NodeKind) -> bool {
        true
    }

    open spec fn ready(&self, kind: NodeKind, ops: &OperationTable, n_params: nat) -> bool {
        self.grow.tuning.drawable()
    }

    open spec fn yields(&self, step: Step<G::Tag>, replacement: Option<NodeId>) -> bool {
        replacement matches Some(id) && {
            &&& generated::<G>(
                step.before,
                step.after,
                id,
                step.old_params,
                step.new_params,
                self.grow.tuning.n_variables,
                self.grow.tuning.const_range,
                step.unary,
                step.binary,
            )
            &&& follows::<G>(
                expr_of(step.after, id),
                self.grow.tuning.p_terminal,
                TreeMethod::Grow,
                self.grow.max_depth as nat,
                step.unary.len() + step.binary.len() > 0,
            )
        }
    }

    fn applies_to(&self, kind: NodeKind) -> (r: bool) {
        true  // any node can be replaced
    }

    fn apply(
        &self,
        target: NodeId,
        node: &ExprNode<G::Tag>,
        ctx: &mut MutationContext<'_, G>,
    ) -> (r: Option<NodeId>) {
        let id = gen_subtree(ctx, &self.grow, self.grow.max_depth);
        proof {
            ctx.dest.lemma_lengths();
            lemma_generated::<G>(
                old(ctx).dest.nodes(),
                ctx.dest.nodes(),
                id,
                old(ctx).params@,
                ctx.params@,
                self.grow.tuning.n_variables,
                self.grow.tuning.const_range,
                ctx.ops.unary_ids(),
                ctx.ops.binary_ids(),
            );
        }
        Some(id)
    }
}

// ---------------------------------------------------------------------------
// ParamJitter: perturb a single constant/parameter value
// ---------------------------------------------------------------------------

/// Adds Gaussian noise (`Normal(0, stddev)`) to a single parameter node's
/// value. The tree structure is unchanged; only the offspring parameter vector
/// is modified.
pub struct ParamJitter {
    pub stddev: Scalar,
}

/// Whether nothing but the value of one parameter, the target's, was written.
pub open spec fn overwritten<Tag: Clone>(
    step: Step<Tag>,
    replacement: Option<NodeId>,
    param: ParameterId,
    value: Scalar,
) -> bool {
    &&& replacement is None
    &&& step.after == step.before
    &&& step.new_params == step.old_params.update(param.0 as int, value)
}

impl<G: Genome> Mutation<G> for ParamJitter {
    open spec fn applies(&self, kind: NodeKind) -> bool {
        kind is Parameter
    }

    open spec fn ready(&self, kind: NodeKind, ops: &OperationTable, n_params: nat) -> bool {
        finite(self.stddev)
    }

    open spec fn yields(&self, step: Step<G::Tag>, replacement: Option<NodeId>) -> bool {
        step.subject() matches Expr::Parameter { param, .. } && exists|value: Scalar|
            {
                &&& #[trigger] overwritten(step, replacement, param, value)
                &&& next_jitter::<G::Reals>(
                    step.rng,
                    step.old_params[param.0 as int],
                    self.stddev,
                    value,
                )
            }
    }

    fn applies_to(&self, kind: NodeKind) -> (r: bool) {
        match kind {
            NodeKind::Parameter(_) => true,
            _ => false,
        }
    }

    fn apply(
        &self,
        target: NodeId,
        node: &ExprNode<G::Tag>,
        ctx: &mut MutationContext<'_, G>,
    ) -> (r: Option<NodeId>) {
        proof {
            lemma_expr_step(ctx.source.nodes(), target);
            lemma_params_below(ctx.source.expr(target), ctx.params@.len());
        }
        if let NodeKind::Parameter(param_id) = node.kind {
            let current = ctx.get_parameter(param_id);
            let value = G::Reals::jittered(ctx.rng, current, self.stddev);
            assert(next_jitter::<G::Reals>(*old(ctx).rng, current, self.stddev, value));
            ctx.set_parameter(param_id, value);
            proof {
                let step = Step {
                    source: old(ctx).source.nodes(),
                    unary: old(ctx).ops.unary_ids(),
                    binary: old(ctx).ops.binary_ids(),
                    target,
                    rng: *old(ctx).rng,
                    before: old(ctx).dest.nodes(),
                    after: ctx.dest.nodes(),
                    old_params: old(ctx).params@,
                    new_params: ctx.params@,
                };
                assert(overwritten(step, None, param_id, value));
            }
        }
        // Passthrough: only the parameter vector changed. The engine copies the
        // original parameter node verbatim.
        None
    }
}

// ---------------------------------------------------------------------------
// HoistMutation: replace a node with one of its own subtrees (shrink)
// ---------------------------------------------------------------------------

/// Replaces the target node with a randomly chosen descendant of its own
/// subtree, shrinking the tree. This is the structural counterpart to
/// [`SubtreeMutation`] and the primary tool for combating bloat.
pub struct HoistMutation;

impl HoistMutation {
    /// Whether the replacement is a copy of the descendant that a walk over
    /// the target's subtree meets at position `k`.
    pub open spec fn hoisted<Tag: Clone>(step: Step<Tag>, id: NodeId, k: int) -> bool {
        &&& 0 < k < step.subject().walked().len()
        &&& copied_onto(
            expr_of(step.source, step.subject().walked()[k]),
            step.before,
            step.after,
            id,
        )
        &&& step.new_params == step.old_params
    }
}

impl<G: Genome> Mutation<G> for HoistMutation {
    open spec fn applies(&self, kind: NodeKind) -> bool {
        // Only internal nodes have descendants to hoist.
        kind is Unary || kind is Binary
    }

    open spec fn ready(&self, kind: NodeKind, ops: &OperationTable, n_params: nat) -> bool {
        true
    }

    open spec fn yields(&self, step: Step<G::Tag>, replacement: Option<NodeId>) -> bool {
        replacement matches Some(id) && exists|k: int|
            {
                &&& #[trigger] Self::hoisted(step, id, k)
                &&& next_index(step.rng, (step.subject().walked().len() - 1) as nat, k - 1)
            }
    }

    fn applies_to(&self, kind: NodeKind) -> (r: bool) {
        match kind {
            NodeKind::Unary { .. } | NodeKind::Binary { .. } => true,
            _ => false,
        }
    }

    fn apply(
        &self,
        target: NodeId,
        node: &ExprNode<G::Tag>,
        ctx: &mut MutationContext<'_, G>,
    ) -> (r: Option<NodeId>) {
        // The target's descendants are its subtree, in the order of a walk,
        // without the target itself.
        let walked: Vec<NodeId> = ctx.source().walk_expr(target).collect();
        let ghost nodes = ctx.source.nodes();
        proof {
            lemma_expr_step(nodes, target);
            lemma_walked_len(ctx.source.expr(target));
            lemma_walked_valid(nodes, target);
            lemma_operands_weigh(ctx.source.expr(target));
        }
        let idx = 1 + pick_index(ctx.rng, walked.len() - 1);
        let picked = walked[idx];
        let id = ctx.copy_subtree(picked);
        proof {
            lemma_walked_params_below(nodes, target, idx as int, ctx.params@.len());
            let step = Step {
                source: nodes,
                unary: old(ctx).ops.unary_ids(),
                binary: old(ctx).ops.binary_ids(),
                target,
                rng: *old(ctx).rng,
                before: old(ctx).dest.nodes(),
                after: ctx.dest.nodes(),
                old_params: old(ctx).params@,
                new_params: ctx.params@,
            };
            assert(Self::hoisted(step, id, idx as int));
        }
        Some(id)
    }
}

/// An operator has nodes below it.
proof fn lemma_operands_weigh<Tag>(e: Expr<Tag>)
    requires
        e is Unary || e is Binary,
    ensures
        e.weight() > 1,
{
    match e {
        Expr::Unary { value, .. } => {
            lemma_weight(*value);
        },
        Expr::Binary { left, right, .. } => {
            lemma_weight(*left);
        },
        _ => {},
    }
}

/// Every tree has an identifier.
proof fn lemma_weight<Tag>(e: Expr<Tag>)
    ensures
        e.weight() >= 1,
{
}

/// The parameters of a part of a tree are parameters of the tree.
proof fn lemma_walked_params_below<Tag: Clone>(
    nodes: Seq<ExprNode<Tag>>,
    id: NodeId,
    i: int,
    n: nat,
)
    requires
        finite_at(nodes, id),
        expr_of(nodes, id).complete(),
        expr_of(nodes, id).params_below(n),
        0 <= i < expr_of(nodes, id).walked().len(),
    ensures
        expr_of(nodes, expr_of(nodes, id).walked()[i]).params_below(n),
    decreases expr_of(nodes, id),
{
    let e = expr_of(nodes, id);
    lemma_expr_step(nodes, id);
    lemma_params_below(e, n);
    if i > 0 {
        match nodes[id.0 as int].kind {
            NodeKind::Unary { value, .. } => {
                assert(e.walked()[i] == expr_of(nodes, value).walked()[i - 1]);
                lemma_walked_params_below(nodes, value, i - 1, n);
            },
            NodeKind::Binary { left, right, .. } => {
                let l = expr_of(nodes, left).walked();
                let r = expr_of(nodes, right).walked();
                if i <= l.len() {
                    assert(e.walked()[i] == l[i - 1]);
                    lemma_walked_params_below(nodes, left, i - 1, n);
                } else {
                    assert(e.walked()[i] == r[i - 1 - l.len()]);
                    lemma_walked_params_below(nodes, right, i - 1 - l.len(), n);
                }
            },
            _ => {},
        }
    }
}

// ---------------------------------------------------------------------------
// InsertMutation: wrap a subtree in a new operator node (grow by one level)
// ---------------------------------------------------------------------------

/// Wraps the target subtree in a freshly chosen operator. For a unary operator
/// the target becomes its operand; for a binary operator the target is placed on
/// a random side with a new random terminal as its sibling.
pub struct InsertMutation {
    /// Range [lo, hi) for any new constant terminal introduced as a sibling.
    pub const_range: (Scalar, Scalar),
    /// Probability in [0, 1] of wrapping in a binary operator (vs. a unary one)
    /// when both arities are registered. Ignored when only one arity exists.
    pub p_binary: Scalar,
}

/// Whether `t` is a terminal that was added: a variable drawn from all of
/// them, or a constant drawn from the range into a fresh parameter slot.
pub open spec fn fresh_terminal<G: Genome>(
    step: Step<G::Tag>,
    t: Expr<G::Tag>,
    range: (Scalar, Scalar),
) -> bool {
    &&& tagged_at::<G>(step.after, t.id())
    &&& match t {
        Expr::Variable { var, .. } => picks_u16(G::INPUT_DIM, var.0) && step.new_params
            == step.old_params,
        Expr::Parameter { param, .. } => {
            &&& param == ParameterId(low16(step.old_params.len()))
            &&& step.old_params.is_prefix_of(step.new_params)
            &&& step.new_params.len() == step.old_params.len() + 1
            &&& may_draw::<G::Reals>(range.0, range.1, step.new_params.last())
        },
        _ => false,
    }
}

impl InsertMutation {
    /// Whether `inner` is a copy of the target's subtree and `sibling` a fresh
    /// terminal, which a coin made a variable or a constant where there are
    /// variables.
    pub open spec fn beside<G: Genome>(
        &self,
        step: Step<G::Tag>,
        inner: Expr<G::Tag>,
        sibling: Expr<G::Tag>,
    ) -> bool {
        &&& alike(step.subject(), inner)
        &&& inner.weight() == step.subject().weight()
        &&& fresh_terminal::<G>(step, sibling, self.const_range)
        &&& G::INPUT_DIM > 0 ==> may_show(sibling is Variable)
    }

    /// Whether the replacement is an operator over a copy of the target's
    /// subtree and, if it is binary, a fresh terminal, on a side that a coin
    /// decides. Where there are operators of both arities, a draw decides
    /// between them.
    pub open spec fn wrapped<G: Genome>(&self, step: Step<G::Tag>, id: NodeId) -> bool {
        let e = step.subject();
        &&& finite_at(step.after, id)
        &&& tagged_at::<G>(step.after, id)
        &&& match expr_of(step.after, id) {
            Expr::Unary { op, value, .. } => {
                &&& picks_one(step.unary, op)
                &&& step.binary.len() == 0 || next_toss::<G::Reals>(step.rng, self.p_binary, false)
                &&& alike(e, *value)
                &&& value.weight() == e.weight()
                &&& step.new_params == step.old_params
                &&& step.after.len() == step.before.len() + e.weight() + 1
            },
            Expr::Binary { op, left, right, .. } => {
                &&& picks_one(step.binary, op)
                &&& step.unary.len() == 0 || next_toss::<G::Reals>(step.rng, self.p_binary, true)
                &&& {
                    ||| may_show(true) && self.beside::<G>(step, *left, *right)
                    ||| may_show(false) && self.beside::<G>(step, *right, *left)
                }
                &&& step.after.len() == step.before.len() + e.weight() + 2
            },
            _ => false,
        }
    }

    /// The kind of the operator node over `inner` and, for a binary one, its
    /// sibling, which stands on the right if `inner_first`.
    pub fn wrapped_kind(
        inner: NodeId,
        sibling: Option<NodeId>,
        inner_first: bool,
        op: OperationId,
    ) -> (r: NodeKind)
        ensures
            r == match sibling {
                None => NodeKind::Unary { value: inner, op },
                Some(other) => if inner_first {
                    NodeKind::Binary { left: inner, right: other, op }
                } else {
                    NodeKind::Binary { left: other, right: inner, op }
                },
            },
    {
        match sibling {
            None => NodeKind::Unary { value: inner, op },
            // Random side placement matters for non-commutative operators.
            Some(sibling) => if inner_first {
                NodeKind::Binary { left: inner, right: sibling, op }
            } else {
                NodeKind::Binary { left: sibling, right: inner, op }
            },
        }
    }
}

/// Bit pattern of the number one.
const ONE: Scalar = 0x3f80_0000;

impl<G: Genome> Mutation<G> for InsertMutation {
    open spec fn applies(&self, kind: NodeKind) -> bool {
        true
    }

    open spec fn ready(&self, kind: NodeKind, ops: &OperationTable, n_params: nat) -> bool {
        ops.binary_ids().len() > 0 ==> drawable(self.const_range.0, self.const_range.1)
    }

    open spec fn yields(&self, step: Step<G::Tag>, replacement: Option<NodeId>) -> bool {
        match replacement {
            Some(id) => self.wrapped::<G>(step, id),
            None => {
                &&& step.unary.len() == 0
                &&& step.binary.len() == 0
                &&& step.new_params == step.old_params
                &&& exists|inner: NodeId| #[trigger]
                    copied_onto(step.subject(), step.before, step.after, inner)
            },
        }
    }

    fn applies_to(&self, kind: NodeKind) -> (r: bool) {
        true  // any node can be wrapped
    }

    fn apply(
        &self,
        target: NodeId,
        node: &ExprNode<G::Tag>,
        ctx: &mut MutationContext<'_, G>,
    ) -> (r: Option<NodeId>) {
        let ghost before = ctx.dest.nodes();
        let ghost old_params = ctx.params@;
        let ghost e = ctx.source.expr(target);
        let ghost step = Step {
            source: ctx.source.nodes(),
            unary: ctx.ops.unary_ids(),
            binary: ctx.ops.binary_ids(),
            target,
            rng: *ctx.rng,
            before,
            after: before,
            old_params,
            new_params: old_params,
        };
        let inner = ctx.copy_subtree(target);
        let ghost mid = ctx.dest.nodes();
        let has_unary = ctx.ops().iter_unary_ops().len() > 0;
        let has_binary = ctx.ops().iter_binary_ops().len() > 0;
        let draw = has_unary && has_binary && toss::<G::Reals>(ctx.rng, self.p_binary);
        let use_binary = match choose_arity(has_unary, has_binary, draw) {
            Some(use_binary) => use_binary,
            None => {
                proof {
                    let done = Step { after: mid, ..step };
                    assert(copied_onto(done.subject(), done.before, done.after, inner));
                }
                return None;
            },
        };
        let ghost mut both = mid;
        let mut sibling: Option<NodeId> = None;
        let kind = if use_binary {
            let op = ctx.pick_random_binary_op();
            let cfg = TreeGenConfig {
                p_terminal: ONE,
                n_variables: G::INPUT_DIM,
                const_range: self.const_range,
            };
            let other = emit_terminal(ctx, &cfg);
            proof {
                both = ctx.dest.nodes();
                ctx.dest.lemma_lengths();
                lemma_generated::<G>(
                    mid,
                    both,
                    other,
                    old_params,
                    ctx.params@,
                    G::INPUT_DIM,
                    self.const_range,
                    ctx.ops.unary_ids(),
                    ctx.ops.binary_ids(),
                );
                lemma_expr_extend(mid, both, inner);
                lemma_ids_from(expr_of(both, other), mid.len(), before.len());
                lemma_expr_step(both, other);
                lemma_terminal_weight(expr_of(both, other));
                assert(other.0 == mid.len());
                assert(both[other.0 as int] == both[mid.len() as int]);
            }
            sibling = Some(other);
            let inner_first = flip(ctx.rng);
            Self::wrapped_kind(inner, sibling, inner_first, op)
        } else {
            let op = ctx.pick_random_unary_op();
            Self::wrapped_kind(inner, sibling, true, op)
        };
        let tag = G::get_tag_for_node(kind);
        let id = ctx.emit(ExprNode::new(kind, tag));
        proof {
            let after = ctx.dest.nodes();
            let done = Step { after, new_params: ctx.params@, ..step };
            lemma_expr_extend(both, after, inner);
            lemma_expr_step(after, id);
            lemma_params_below(expr_of(after, id), ctx.params@.len());
            lemma_params_grow(e, expr_of(after, inner), old_params.len(), ctx.params@.len());
            if let Some(other) = sibling {
                lemma_expr_extend(both, after, other);
                assert(after[other.0 as int] == both[other.0 as int]);
                lemma_fresh_terminal::<G>(done, mid, both, other, self.const_range);
            }
            assert(self.wrapped::<G>(done, id));
        }
        Some(id)
    }
}

/// A tree of depth zero is one node.
proof fn lemma_terminal_weight<Tag>(e: Expr<Tag>)
    requires
        e.depth() == 0,
    ensures
        e.weight() == 1,
        !(e is Unary),
        !(e is Binary),
{
}

/// Equal parameters have equal bounds, and a bound may be raised.
proof fn lemma_params_grow<Tag>(a: Expr<Tag>, b: Expr<Tag>, less: nat, more: nat)
    requires
        b.parameters() == a.parameters(),
        a.params_below(less),
        less <= more,
    ensures
        b.params_below(more),
{
}

/// A generated tree of one node is a fresh terminal.
proof fn lemma_fresh_terminal<G: Genome>(
    step: Step<G::Tag>,
    mid: Seq<ExprNode<G::Tag>>,
    both: Seq<ExprNode<G::Tag>>,
    id: NodeId,
    range: (Scalar, Scalar),
)
    requires
        generated::<G>(
            mid,
            both,
            id,
            step.old_params,
            step.new_params,
            G::INPUT_DIM,
            range,
            step.unary,
            step.binary,
        ),
        expr_of(both, id).depth() == 0,
        both.is_prefix_of(step.after),
        id.0 == mid.len(),
        id.0 < both.len(),
    ensures
        fresh_terminal::<G>(step, expr_of(both, id), range),
{
    let t = expr_of(both, id);
    lemma_expr_step(both, id);
    assert(step.after[id.0 as int] == both[id.0 as int]);
    let n = (step.new_params.len() - step.old_params.len()) as nat;
    assert(t.parameters().len() == n);
    if let Expr::Parameter { param, .. } = t {
        assert(t.parameters()[0] == param);
    } else {
        assert(step.new_params == step.old_params);
    }
}

// ---------------------------------------------------------------------------
// TerminalMutation: mutate a leaf (variable/constant)
// ---------------------------------------------------------------------------

/// Mutates a leaf node. A variable is swapped for another variable or replaced
/// by a fresh constant; a parameter is either re-initialised to a fresh random
/// value (structure unchanged) or replaced by a variable. When the genome has no
/// input variables (`INPUT_DIM == 0`), only constant behaviour is used.
pub struct TerminalMutation {
    /// Range [lo, hi) for fresh constant values.
    pub const_range: (Scalar, Scalar),
    /// Probability in [0, 1] of routing the leaf to a variable (vs. a constant).
    /// Forced to 0 when the genome has no input variables (`INPUT_DIM == 0`).
    pub p_variable: Scalar,
}

impl TerminalMutation {
    /// Whether a leaf may be routed to a variable, or to a constant.
    pub open spec fn may_route<G: Genome>(&self, rng: StdRng, to_variable: bool) -> bool {
        if G::INPUT_DIM > 0 {
            next_toss::<G::Reals>(rng, self.p_variable, to_variable)
        } else {
            !to_variable
        }
    }

    /// Whether the replacement is a fresh terminal, the only node added.
    pub open spec fn rerouted<G: Genome>(&self, step: Step<G::Tag>, id: NodeId) -> bool {
        &&& step.before.is_prefix_of(step.after)
        &&& step.after.len() == step.before.len() + 1
        &&& id.0 == step.before.len()
        &&& finite_at(step.after, id)
        &&& fresh_terminal::<G>(step, expr_of(step.after, id), self.const_range)
        &&& self.may_route::<G>(step.rng, expr_of(step.after, id) is Variable)
    }
}

impl<G: Genome> Mutation<G> for TerminalMutation {
    open spec fn applies(&self, kind: NodeKind) -> bool {
        kind is Variable || kind is Parameter
    }

    open spec fn ready(&self, kind: NodeKind, ops: &OperationTable, n_params: nat) -> bool {
        drawable(self.const_range.0, self.const_range.1)
    }

    open spec fn yields(&self, step: Step<G::Tag>, replacement: Option<NodeId>) -> bool {
        match step.subject() {
            Expr::Variable { .. } => replacement matches Some(id) && self.rerouted::<G>(step, id),
            Expr::Parameter { param, .. } => match replacement {
                Some(id) => self.rerouted::<G>(step, id) && expr_of(step.after, id) is Variable,
                None => self.may_route::<G>(step.rng, false) && exists|value: Scalar|
                    {
                        &&& #[trigger] overwritten(step, replacement, param, value)
                        &&& may_draw::<G::Reals>(self.const_range.0, self.const_range.1, value)
                    },
            },
            _ => false,
        }
    }

    fn applies_to(&self, kind: NodeKind) -> (r: bool) {
        match kind {
            NodeKind::Variable(_) | NodeKind::Parameter(_) => true,
            _ => false,
        }
    }

    fn apply(
        &self,
        target: NodeId,
        node: &ExprNode<G::Tag>,
        ctx: &mut MutationContext<'_, G>,
    ) -> (r: Option<NodeId>) {
        let ghost step = Step {
            source: ctx.source.nodes(),
            unary: ctx.ops.unary_ids(),
            binary: ctx.ops.binary_ids(),
            target,
            rng: *ctx.rng,
            before: ctx.dest.nodes(),
            after: ctx.dest.nodes(),
            old_params: ctx.params@,
            new_params: ctx.params@,
        };
        proof {
            lemma_expr_step(ctx.source.nodes(), target);
            lemma_params_below(ctx.source.expr(target), ctx.params@.len());
        }
        // Whether to (re)route this leaf to a variable. Always false when the
        // genome has no inputs, so that there is a variable to pick.
        let to_variable = G::INPUT_DIM > 0 && toss::<G::Reals>(ctx.rng, self.p_variable);
        assert(self.may_route::<G>(step.rng, to_variable));
        let id = if to_variable {
            let var = ctx.pick_variable();
            emit_variable(ctx, var)
        } else {
            let (lo, hi) = self.const_range;
            let value: Scalar = G::Reals::uniform(ctx.rng, lo, hi);
            assert(may_draw::<G::Reals>(lo, hi, value));
            if let NodeKind::Parameter(pid) = node.kind {
                // Re-initialise in place: only the parameter vector changes.
                ctx.set_parameter(pid, value);
                proof {
                    assert(overwritten(
                        Step { new_params: ctx.params@, ..step },
                        None,
                        pid,
                        value,
                    ));
                }
                return None;
            }
            emit_constant(ctx, value)
        };
        proof {
            let after = ctx.dest.nodes();
            let done = Step { after, new_params: ctx.params@, ..step };
            assert(after == step.before.push(after.last()));
            assert(after[id.0 as int] == after.last());
            lemma_expr_step(after, id);
            lemma_params_below(expr_of(after, id), ctx.params@.len());
            assert(step.old_params.len() % 65536 <= step.old_params.len());
            assert(self.rerouted::<G>(done, id));
        }
        Some(id)
    }
}

/// A point mutation keeps the number of nodes.
pub proof fn lemma_point_keeps_size<G: Genome>(
    target: NodeId,
    parent: &Individual<G>,
    source: &ExprArena<G::Tag>,
    ops: &OperationTable,
    rng: StdRng,
    old_dest: &ExprArena<G::Tag>,
    new_dest: &ExprArena<G::Tag>,
    offspring: Individual<G>,
)
    requires
        bred(&PointMutation, target, parent, source, ops, rng, old_dest, new_dest, offspring),
        source.root_node(parent.root) is Some,
        source.sound_at(source.root_node(parent.root)->0),
        source.sound_at(target),
        source.has(target),
        source.expr(source.root_node(parent.root)->0).params_below(parent.parameters@.len()),
    ensures
        new_dest.expr(new_dest.roots().last()).weight() == source.expr(
            source.root_node(parent.root)->0,
        ).weight(),
{
    let (step, replacement) = choose|step: Step<G::Tag>, replacement: Option<NodeId>| #[trigger]
        led_to(
            &PointMutation,
            target,
            parent,
            source,
            ops,
            old_dest,
            new_dest,
            offspring,
            step,
            replacement,
        );
    lemma_expr_step(source.nodes(), target);
    lemma_offspring_weight(
        &PointMutation,
        target,
        parent,
        source,
        ops,
        old_dest,
        new_dest,
        offspring,
        step,
        replacement,
    );
    let id = replacement->0;
    lemma_expr_step(step.after, id);
    match (step.subject(), expr_of(step.after, id)) {
        (Expr::Unary { value: a, .. }, Expr::Unary { value: b, .. }) => {
            lemma_alike_weight(*a, *b);
        },
        (Expr::Binary { left: la, right: ra, .. }, Expr::Binary { left: lb, right: rb, .. }) => {
            lemma_alike_weight(*la, *lb);
            lemma_alike_weight(*ra, *rb);
        },
        _ => {},
    }
}

/// A hoist mutation of a node of the parent's tree leaves fewer nodes.
pub proof fn lemma_hoist_shrinks<G: Genome>(
    target: NodeId,
    parent: &Individual<G>,
    source: &ExprArena<G::Tag>,
    ops: &OperationTable,
    rng: StdRng,
    old_dest: &ExprArena<G::Tag>,
    new_dest: &ExprArena<G::Tag>,
    offspring: Individual<G>,
)
    requires
        bred(&HoistMutation, target, parent, source, ops, rng, old_dest, new_dest, offspring),
        source.root_node(parent.root) is Some,
        source.sound_at(source.root_node(parent.root)->0),
        source.sound_at(target),
        source.has(target),
        source.expr(source.root_node(parent.root)->0).params_below(parent.parameters@.len()),
        source.expr(source.root_node(parent.root)->0).walked().contains(target),
    ensures
        new_dest.expr(new_dest.roots().last()).weight() < source.expr(
            source.root_node(parent.root)->0,
        ).weight(),
{
    let (step, replacement) = choose|step: Step<G::Tag>, replacement: Option<NodeId>| #[trigger]
        led_to(
            &HoistMutation,
            target,
            parent,
            source,
            ops,
            old_dest,
            new_dest,
            offspring,
            step,
            replacement,
        );
    lemma_expr_step(source.nodes(), target);
    lemma_offspring_weight(
        &HoistMutation,
        target,
        parent,
        source,
        ops,
        old_dest,
        new_dest,
        offspring,
        step,
        replacement,
    );
    let id = replacement->0;
    let k = choose|k: int| #[trigger] HoistMutation::hoisted(step, id, k);
    lemma_walked_valid(source.nodes(), target);
    let part = step.subject().walked()[k];
}

/// An insert mutation of a node of the parent's tree leaves more nodes, if any
/// operator is registered.
pub proof fn lemma_insert_grows<G: Genome>(
    mutation: InsertMutation,
    target: NodeId,
    parent: &Individual<G>,
    source: &ExprArena<G::Tag>,
    ops: &OperationTable,
    rng: StdRng,
    old_dest: &ExprArena<G::Tag>,
    new_dest: &ExprArena<G::Tag>,
    offspring: Individual<G>,
)
    requires
        bred(&mutation, target, parent, source, ops, rng, old_dest, new_dest, offspring),
        source.root_node(parent.root) is Some,
        source.sound_at(source.root_node(parent.root)->0),
        source.sound_at(target),
        source.has(target),
        source.expr(source.root_node(parent.root)->0).params_below(parent.parameters@.len()),
        source.expr(source.root_node(parent.root)->0).walked().contains(target),
        ops.unary_ids().len() > 0 || ops.binary_ids().len() > 0,
    ensures
        new_dest.expr(new_dest.roots().last()).weight() > source.expr(
            source.root_node(parent.root)->0,
        ).weight(),
{
    let (step, replacement) = choose|step: Step<G::Tag>, replacement: Option<NodeId>| #[trigger]
        led_to(
            &mutation,
            target,
            parent,
            source,
            ops,
            old_dest,
            new_dest,
            offspring,
            step,
            replacement,
        );
    lemma_expr_step(source.nodes(), target);
    lemma_offspring_weight(
        &mutation,
        target,
        parent,
        source,
        ops,
        old_dest,
        new_dest,
        offspring,
        step,
        replacement,
    );
    let id = replacement->0;
}

/// A terminal mutation keeps the number of nodes.
pub proof fn lemma_terminal_keeps_size<G: Genome>(
    mutation: TerminalMutation,
    target: NodeId,
    parent: &Individual<G>,
    source: &ExprArena<G::Tag>,
    ops: &OperationTable,
    rng: StdRng,
    old_dest: &ExprArena<G::Tag>,
    new_dest: &ExprArena<G::Tag>,
    offspring: Individual<G>,
)
    requires
        bred(&mutation, target, parent, source, ops, rng, old_dest, new_dest, offspring),
        source.root_node(parent.root) is Some,
        source.sound_at(source.root_node(parent.root)->0),
        source.sound_at(target),
        source.has(target),
        source.expr(source.root_node(parent.root)->0).params_below(parent.parameters@.len()),
        source.nodes()[target.0 as int].kind is Variable || source.nodes()[target.0 as int].kind is Parameter,
    ensures
        new_dest.expr(new_dest.roots().last()).weight() == source.expr(
            source.root_node(parent.root)->0,
        ).weight(),
{
    let (step, replacement) = choose|step: Step<G::Tag>, replacement: Option<NodeId>| #[trigger]
        led_to(
            &mutation,
            target,
            parent,
            source,
            ops,
            old_dest,
            new_dest,
            offspring,
            step,
            replacement,
        );
    lemma_expr_step(source.nodes(), target);
    lemma_offspring_weight(
        &mutation,
        target,
        parent,
        source,
        ops,
        old_dest,
        new_dest,
        offspring,
        step,
        replacement,
    );
    if let Some(id) = replacement {
        lemma_expr_step(step.after, id);
    }
}

/// A jitter keeps the tree, and writes no parameter but the target's.
pub proof fn lemma_jitter_keeps_structure<G: Genome>(
    mutation: ParamJitter,
    target: NodeId,
    parent: &Individual<G>,
    source: &ExprArena<G::Tag>,
    ops: &OperationTable,
    rng: StdRng,
    old_dest: &ExprArena<G::Tag>,
    new_dest: &ExprArena<G::Tag>,
    offspring: Individual<G>,
)
    requires
        bred(&mutation, target, parent, source, ops, rng, old_dest, new_dest, offspring),
        source.root_node(parent.root) is Some,
        source.sound_at(source.root_node(parent.root)->0),
        source.sound_at(target),
        source.has(target),
        source.expr(source.root_node(parent.root)->0).params_below(parent.parameters@.len()),
    ensures
        new_dest.expr(new_dest.roots().last()).weight() == source.expr(
            source.root_node(parent.root)->0,
        ).weight(),
        alike(
            source.expr(source.root_node(parent.root)->0),
            new_dest.expr(new_dest.roots().last()),
        ),
        source.nodes()[target.0 as int].kind matches NodeKind::Parameter(param) ==> (param.0
            < parent.parameters@.len() ==> offspring.parameters@ == parent.parameters@.update(
            param.0 as int,
            offspring.parameters@[param.0 as int],
        )),
{
    let (step, replacement) = choose|step: Step<G::Tag>, replacement: Option<NodeId>| #[trigger]
        led_to(
            &mutation,
            target,
            parent,
            source,
            ops,
            old_dest,
            new_dest,
            offspring,
            step,
            replacement,
        );
    lemma_expr_step(source.nodes(), target);
    lemma_offspring_weight(
        &mutation,
        target,
        parent,
        source,
        ops,
        old_dest,
        new_dest,
        offspring,
        step,
        replacement,
    );
    let param = step.subject()->param;
    let value = choose|value: Scalar| #[trigger] overwritten(step, replacement, param, value);
}

/// Point mutations keep trees evaluable, where identifiers tell the operations
/// apart and the genome's variables are among the inputs.
pub proof fn lemma_point_keeps_evaluable<G: Genome>(ops: &OperationTable, n_inputs: nat)
    requires
        ops.addressable(),
        G::INPUT_DIM <= n_inputs,
    ensures
        keeps_evaluable::<G, PointMutation>(&PointMutation, ops, n_inputs),
{
    let table = ops.operations();
    assert forall|step: Step<G::Tag>, id: NodeId|
        {
            &&& #[trigger] Mutation::<G>::yields(&PointMutation, step, Some(id))
            &&& step.sound(Some(id))
            &&& step.unary == ops.unary_ids()
            &&& step.binary == ops.binary_ids()
            &&& finite_at(step.source, step.target)
            &&& evaluable(step.subject(), table, n_inputs, step.old_params.len())
        } implies evaluable(expr_of(step.after, id), table, n_inputs, step.new_params.len()) by {
        let n = step.old_params.len();
        lemma_expr_step(step.after, id);
        let op = choose|op: OperationId|
            {
                &&& #[trigger] PointMutation::swapped::<G>(step, id, op)
                &&& step.subject() is Unary ==> next_one(step.rng, step.unary, op)
                &&& step.subject() is Binary ==> next_one(step.rng, step.binary, op)
            };
        match (step.subject(), expr_of(step.after, id)) {
            (Expr::Unary { value: a, .. }, Expr::Unary { value: b, .. }) => {
                lemma_ids_with(table, Arity::Unary, op);
                lemma_alike_evaluable(*a, *b, table, n_inputs, n, n);
            },
            (
                Expr::Binary { left: la, right: ra, .. },
                Expr::Binary { left: lb, right: rb, .. },
            ) => {
                lemma_ids_with(table, Arity::Binary, op);
                lemma_alike_evaluable(*la, *lb, table, n_inputs, n, n);
                lemma_alike_evaluable(*ra, *rb, table, n_inputs, n, n);
            },
            _ => {},
        }
    }
}

/// Subtree mutations keep trees evaluable, where identifiers tell the
/// operations apart and the configured variables are among the inputs.
pub proof fn lemma_subtree_keeps_evaluable<G: Genome>(
    mutation: SubtreeMutation,
    ops: &OperationTable,
    n_inputs: nat,
)
    requires
        ops.addressable(),
        mutation.grow.tuning.n_variables <= n_inputs,
    ensures
        keeps_evaluable::<G, SubtreeMutation>(&mutation, ops, n_inputs),
{
    let table = ops.operations();
    assert forall|step: Step<G::Tag>, id: NodeId|
        {
            &&& #[trigger] Mutation::<G>::yields(&mutation, step, Some(id))
            &&& step.sound(Some(id))
            &&& step.unary == ops.unary_ids()
            &&& step.binary == ops.binary_ids()
            &&& finite_at(step.source, step.target)
            &&& evaluable(step.subject(), table, n_inputs, step.old_params.len())
        } implies evaluable(expr_of(step.after, id), table, n_inputs, step.new_params.len()) by {
        lemma_drawn_evaluable(
            expr_of(step.after, id),
            ops,
            mutation.grow.tuning.n_variables,
            n_inputs,
            step.new_params.len(),
        );
    }
}

/// Jitters keep trees evaluable: they replace nothing.
pub proof fn lemma_jitter_keeps_evaluable<G: Genome>(
    mutation: ParamJitter,
    ops: &OperationTable,
    n_inputs: nat,
)
    ensures
        keeps_evaluable::<G, ParamJitter>(&mutation, ops, n_inputs),
{
}

/// Hoist mutations keep trees evaluable.
pub proof fn lemma_hoist_keeps_evaluable<G: Genome>(ops: &OperationTable, n_inputs: nat)
    ensures
        keeps_evaluable::<G, HoistMutation>(&HoistMutation, ops, n_inputs),
{
    let table = ops.operations();
    assert forall|step: Step<G::Tag>, id: NodeId|
        {
            &&& #[trigger] Mutation::<G>::yields(&HoistMutation, step, Some(id))
            &&& step.sound(Some(id))
            &&& step.unary == ops.unary_ids()
            &&& step.binary == ops.binary_ids()
            &&& finite_at(step.source, step.target)
            &&& evaluable(step.subject(), table, n_inputs, step.old_params.len())
        } implies evaluable(expr_of(step.after, id), table, n_inputs, step.new_params.len()) by {
        let n = step.old_params.len();
        let k = choose|k: int| #[trigger] HoistMutation::hoisted(step, id, k);
        lemma_part_evaluable(step.source, step.target, k, table, n_inputs, n);
        lemma_alike_evaluable(
            expr_of(step.source, step.subject().walked()[k]),
            expr_of(step.after, id),
            table,
            n_inputs,
            n,
            n,
        );
    }
}

/// Insert mutations keep trees evaluable, where identifiers tell the operations
/// apart and the genome's variables are among the inputs.
pub proof fn lemma_insert_keeps_evaluable<G: Genome>(
    mutation: InsertMutation,
    ops: &OperationTable,
    n_inputs: nat,
)
    requires
        ops.addressable(),
        G::INPUT_DIM <= n_inputs,
    ensures
        keeps_evaluable::<G, InsertMutation>(&mutation, ops, n_inputs),
{
    let table = ops.operations();
    assert forall|step: Step<G::Tag>, id: NodeId|
        {
            &&& #[trigger] Mutation::<G>::yields(&mutation, step, Some(id))
            &&& step.sound(Some(id))
            &&& step.unary == ops.unary_ids()
            &&& step.binary == ops.binary_ids()
            &&& finite_at(step.source, step.target)
            &&& evaluable(step.subject(), table, n_inputs, step.old_params.len())
        } implies evaluable(expr_of(step.after, id), table, n_inputs, step.new_params.len()) by {
        let e = step.subject();
        let less = step.old_params.len();
        let more = step.new_params.len();
        lemma_params_below(expr_of(step.after, id), more);
        match expr_of(step.after, id) {
            Expr::Unary { op, value, .. } => {
                lemma_ids_with(table, Arity::Unary, op);
                lemma_alike_evaluable(e, *value, table, n_inputs, less, more);
            },
            Expr::Binary { op, left, right, .. } => {
                lemma_ids_with(table, Arity::Binary, op);
                lemma_params_below(*left, more);
                lemma_params_below(*right, more);
                if alike(e, *left) && left.weight() == e.weight() && fresh_terminal::<G>(
                    step,
                    *right,
                    mutation.const_range,
                ) {
                    lemma_alike_evaluable(e, *left, table, n_inputs, less, more);
                    assert(evaluable(*right, table, n_inputs, more));
                } else {
                    lemma_alike_evaluable(e, *right, table, n_inputs, less, more);
                    assert(evaluable(*left, table, n_inputs, more));
                }
            },
            _ => {},
        }
    }
}

/// Terminal mutations keep trees evaluable, where the genome's variables are
/// among the inputs.
pub proof fn lemma_terminal_keeps_evaluable<G: Genome>(
    mutation: TerminalMutation,
    ops: &OperationTable,
    n_inputs: nat,
)
    requires
        G::INPUT_DIM <= n_inputs,
    ensures
        keeps_evaluable::<G, TerminalMutation>(&mutation, ops, n_inputs),
{
    let table = ops.operations();
    assert forall|step: Step<G::Tag>, id: NodeId|
        {
            &&& #[trigger] Mutation::<G>::yields(&mutation, step, Some(id))
            &&& step.sound(Some(id))
            &&& step.unary == ops.unary_ids()
            &&& step.binary == ops.binary_ids()
            &&& finite_at(step.source, step.target)
            &&& evaluable(step.subject(), table, n_inputs, step.old_params.len())
        } implies evaluable(expr_of(step.after, id), table, n_inputs, step.new_params.len()) by {
        lemma_params_below(expr_of(step.after, id), step.new_params.len());
    }
}

} // verus!
