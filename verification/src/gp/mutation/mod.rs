//! Tree mutations and the engine that applies them.

pub mod builtin;
pub mod laws;
pub mod dead_params;
pub mod mutator;

use super::builder::NodeBuilder;
use super::{Genome, Individual};
use crate::ast::{lemma_holds_append, lemma_walked_valid, ExprArena, ExprNode, NodeKind};
use crate::eval::{
    evaluable, lemma_alike_but_evaluable, lemma_alike_evaluable, lemma_evaluable,
    lemma_part_evaluable, value,
};
use crate::expr::{
    alike, alike_but, expr_of, finite_at, holds, lemma_complete_beyond, lemma_copied_alike,
    lemma_copied_len, lemma_expr_extend, lemma_expr_step, lemma_ids_from, lemma_rebuilt_alike,
    lemma_rebuilt_copied, lemma_same_tags, lemma_tags_alike, lemma_tags_replaced, same_tags,
    tags_kept, Expr,
};
use crate::ops::{OpMetadata, OperationTable};
use crate::formula::{formula, formula_with, lemma_formula_alike, lemma_formula_replaced};
use crate::types::{truncate16, NodeId, OperationId, ParameterId, Scalar};
use dead_params::{
    eliminate_dead_params, lemma_elimination_sound, lemma_walked_parameters, live, renumbered,
    values_of, visited_under,
};
use rand::rngs::StdRng;
use std::marker::PhantomData;
use vstd::prelude::*;

pub use mutator::Mutator;

verus! {

/// What a mutation was asked to do, and what it did to the arena and to the
/// parameters of the offspring.
pub struct Step<Tag: Clone> {
    /// The nodes of the parent's arena
    pub source: Seq<ExprNode<Tag>>,
    /// The identifiers of the unary and of the binary operations
    pub unary: Seq<OperationId>,
    pub binary: Seq<OperationId>,
    /// The node to be replaced
    pub target: NodeId,
    /// The generator before the first draw
    pub rng: StdRng,
    /// The nodes of the offspring's arena before and after
    pub before: Seq<ExprNode<Tag>>,
    pub after: Seq<ExprNode<Tag>>,
    /// The parameters of the offspring before and after
    pub old_params: Seq<Scalar>,
    pub new_params: Seq<Scalar>,
}

impl<Tag: Clone> Step<Tag> {
    /// The subtree at the target.
    pub open spec fn subject(&self) -> Expr<Tag> {
        expr_of(self.source, self.target)
    }

    /// Whether nodes were only appended, and parameters only added or
    /// overwritten, such that `replacement` is a tree made of appended nodes
    /// which reads only parameters that exist.
    pub open spec fn sound(&self, replacement: Option<NodeId>) -> bool {
        &&& self.before.is_prefix_of(self.after)
        &&& self.old_params.len() <= self.new_params.len()
        &&& replacement matches Some(id) ==> {
            &&& finite_at(self.after, id)
            &&& expr_of(self.after, id).complete()
            &&& expr_of(self.after, id).ids_from(self.before.len())
            &&& expr_of(self.after, id).params_below(self.new_params.len())
        }
    }
}

/// A pluggable tree mutation.
///
/// Implementations answer two questions: can this mutation act on `node`, and
/// what subtree should replace `target` in the offspring? Unchanged parts of
/// the tree are copied verbatim via `MutationContext::copy_subtree`.
pub trait Mutation<G: Genome>: 'static {
    /// Whether this mutation acts on nodes of the given kind: on some kinds,
    /// unless an implementation says on which.
    open spec fn applies(&self, kind: NodeKind) -> bool {
        arbitrary::<(PhantomData<G>, spec_fn(&Self, NodeKind) -> bool)>().1(self, kind)
    }

    /// Whether what the mutation needs to act on a node of the given kind is
    /// there. Nothing is needed, unless an implementation says so.
    open spec fn ready(&self, kind: NodeKind, ops: &OperationTable, n_params: nat) -> bool {
        true
    }

    /// Whether the mutation may answer `replacement` in a step. It may answer
    /// anything, unless an implementation says what.
    open spec fn yields(&self, step: Step<G::Tag>, replacement: Option<NodeId>) -> bool {
        true
    }

    /// Whether this mutation can act on a node of the given kind.
    fn applies_to(&self, kind: NodeKind) -> (r: bool)
        ensures
            r == self.applies(kind),
    ;

    /// Emit a replacement subtree for the target into the dest arena and return
    /// its root `NodeId`. `target` is the source node id (useful for splicing or
    /// copying the target's own subtree) and `node` is the resolved source node.
    ///
    /// ### Notes
    ///
    /// - Use `ctx.copy_subtree` to carry over unchanged children of an emitted
    ///   node.
    /// - Returning `None` indicates that the mutation didn't affect structurally
    ///   the expression subtree. Useful for mutations affecting parameters.
    fn apply(
        &self,
        target: NodeId,
        node: &ExprNode<G::Tag>,
        ctx: &mut MutationContext<'_, G>,
    ) -> (r: Option<NodeId>)
        requires
            old(ctx).source.has(target),
            *node == old(ctx).source.nodes()[target.0 as int],
            old(ctx).source.sound_at(target),
            old(ctx).source.expr(target).params_below(old(ctx).params@.len()),
            self.applies(node.kind),
            self.ready(node.kind, old(ctx).ops, old(ctx).params@.len()),
        ensures
            final(ctx).source == old(ctx).source,
            final(ctx).ops == old(ctx).ops,
            *final(final(ctx).rng) == *final(old(ctx).rng),
            *final(final(ctx).dest) == *final(old(ctx).dest),
            *final(final(ctx).params) == *final(old(ctx).params),
            final(ctx).dest.roots() == old(ctx).dest.roots(),
            ({
                let step = Step {
                    source: old(ctx).source.nodes(),
                    unary: old(ctx).ops.unary_ids(),
                    binary: old(ctx).ops.binary_ids(),
                    target,
                    rng: *old(ctx).rng,
                    before: old(ctx).dest.nodes(),
                    after: final(ctx).dest.nodes(),
                    old_params: old(ctx).params@,
                    new_params: final(ctx).params@,
                };
                step.sound(r) && self.yields(step, r)
            }),
    ;
}

/// Mutation context passed to a mutation.
pub struct MutationContext<'a, G: Genome> {
    pub source: &'a ExprArena<G::Tag>,
    pub dest: &'a mut ExprArena<G::Tag>,
    pub ops: &'a OperationTable,
    pub rng: &'a mut StdRng,
    pub params: &'a mut Vec<Scalar>,
}

impl<'a, G: Genome> MutationContext<'a, G> {
    pub fn new(
        source: &'a ExprArena<G::Tag>,
        ops: &'a OperationTable,
        rng: &'a mut StdRng,
        dest: &'a mut ExprArena<G::Tag>,
        params: &'a mut Vec<Scalar>,
    ) -> (r: Self)
        ensures
            r.source == source,
            r.ops == ops,
            *r.dest == *old(dest),
            *final(r.dest) == *final(dest),
            *r.rng == *old(rng),
            *final(r.rng) == *final(rng),
            *r.params == *old(params),
            *final(r.params) == *final(params),
    {
        Self { source, ops, rng, dest, params }
    }

    /// Verbatim deep copy of a source subtree, preserving each node's tag.
    pub fn copy_subtree(&mut self, src: NodeId) -> (id: NodeId)
        requires
            old(self).source.sound_at(src),
        ensures
            final(self).source == old(self).source,
            final(self).ops == old(self).ops,
            final(self).rng == old(self).rng,
            final(self).params == old(self).params,
            *final(final(self).dest) == *final(old(self).dest),
            final(self).dest.roots() == old(self).dest.roots(),
            copied_onto(
                old(self).source.expr(src),
                old(self).dest.nodes(),
                final(self).dest.nodes(),
                id,
            ),
    {
        let source: &ExprArena<G::Tag> = self.source;
        let id = source.copy_over(src, self.dest).unwrap();
        proof {
            self.dest.lemma_lengths();
            lemma_copied_len(source.expr(src), old(self).dest.nodes().len());
            lemma_copied_alike(source.expr(src), self.dest.nodes(), old(self).dest.nodes().len());
        }
        id
    }

    /// Borrow the source arena (the parent's tree), for looking up nodes and
    /// walking subtrees while building the offspring.
    pub fn source(&self) -> (r: &ExprArena<G::Tag>)
        ensures
            r == self.source,
    {
        self.source
    }

    /// Read the current value of a parameter.
    pub fn get_parameter(&self, id: ParameterId) -> (r: Scalar)
        requires
            id.0 < self.params().len(),
        ensures
            r == self.params()[id.0 as int],
    {
        self.params[*id as usize]
    }

    /// Write a value back to an existing parameter slot.
    pub fn set_parameter(&mut self, id: ParameterId, value: Scalar)
        requires
            id.0 < old(self).params@.len(),
        ensures
            final(self).params@ == old(self).params@.update(id.0 as int, value),
            *final(final(self).params) == *final(old(self).params),
            final(self).source == old(self).source,
            final(self).ops == old(self).ops,
            final(self).dest == old(self).dest,
            final(self).rng == old(self).rng,
    {
        self.params.set(*id as usize, value);
    }
}

/// Whether a copy of the complete tree `e`, and nothing else, was appended,
/// with its root at `id`.
pub open spec fn copied_onto<Tag: Clone>(
    e: Expr<Tag>,
    before: Seq<ExprNode<Tag>>,
    after: Seq<ExprNode<Tag>>,
    id: NodeId,
) -> bool {
    &&& before.is_prefix_of(after)
    &&& after.len() == before.len() + e.weight()
    &&& id.0 == after.len() - 1
    &&& finite_at(after, id)
    &&& alike(e, expr_of(after, id))
    &&& expr_of(after, id).complete()
    &&& expr_of(after, id).ids_from(before.len())
    &&& expr_of(after, id).parameters() == e.parameters()
    &&& expr_of(after, id).weight() == e.weight()
}

impl<'a, G: Genome> NodeBuilder<G> for MutationContext<'a, G> {
    type Rest = &'a ExprArena<G::Tag>;

    open spec fn arena_ref(&self) -> &mut ExprArena<G::Tag> {
        self.dest
    }

    open spec fn params(&self) -> Seq<Scalar> {
        self.params@
    }

    open spec fn params_ref(&self) -> &mut Vec<Scalar> {
        self.params
    }

    open spec fn table(&self) -> &OperationTable {
        self.ops
    }

    open spec fn n_inputs(&self) -> u16 {
        G::INPUT_DIM
    }

    open spec fn rng_ref(&self) -> &mut StdRng {
        self.rng
    }

    open spec fn rest(&self) -> &'a ExprArena<G::Tag> {
        self.source
    }

    fn rng(&mut self) -> (r: &mut StdRng) {
        assert(self.rng_ref() == self.rng);
        self.rng
    }

    fn ops(&self) -> (r: &OperationTable) {
        self.ops
    }

    fn input_dim(&self) -> (r: u16) {
        G::INPUT_DIM
    }

    fn emit(&mut self, node: ExprNode<G::Tag>) -> (id: NodeId) {
        self.dest.add(node)
    }

    /// Allocate a new parameter slot initialised to `value` and return its id.
    fn new_parameter(&mut self, value: Scalar) -> (id: ParameterId) {
        let id = ParameterId(truncate16(self.params.len()));
        self.params.push(value);
        id
    }
}

/// Copies the subtree rooted at `src_node` from `source` into `dest`, with
/// `replacement`, a node of `dest`, in place of each subtree at `target`.
/// Without a replacement those are copied verbatim like the rest.
pub fn copy_over_replacing<Tag: Clone>(
    source: &ExprArena<Tag>,
    src_node: NodeId,
    target: NodeId,
    replacement: Option<NodeId>,
    dest: &mut ExprArena<Tag>,
) -> (id: NodeId)
    requires
        source.finite_at(src_node),
        source.expr(src_node).complete_beyond(target, replacement is Some),
    ensures
        ({
            let base = old(dest).nodes().len();
            let (list, root) = source.expr(src_node).rebuilt(target, replacement, base);
            &&& id == root
            &&& extended(old(dest).nodes(), final(dest).nodes(), list)
        }),
        final(dest).roots() == old(dest).roots(),
    decreases source.expr(src_node),
{
    let ghost base = dest.nodes().len();
    proof {
        lemma_expr_step(source.nodes(), src_node);
    }
    if src_node == target {
        // A passthrough mutation yields `None`; copy the target subtree verbatim
        // (preserving tags) in that case.
        if let Some(node) = replacement {
            return node;
        }
        return source.copy_over(target, dest).unwrap();
    }
    let node = source.get_node(src_node).unwrap();
    let kind = node.kind;
    let tag = node.tag.clone();
    let new_kind = match kind {
        NodeKind::Unary { value, op } => {
            let v = copy_over_replacing(source, value, target, replacement, dest);
            NodeKind::Unary { value: v, op }
        },
        NodeKind::Binary { left, right, op } => {
            let l = copy_over_replacing(source, left, target, replacement, dest);
            let ghost mid = dest.nodes();
            let r = copy_over_replacing(source, right, target, replacement, dest);
            proof {
                let first = source.expr(left).rebuilt(target, replacement, base).0;
                let second = source.expr(right).rebuilt(
                    target,
                    replacement,
                    base + first.len(),
                ).0;
                lemma_holds_append(mid, dest.nodes(), base, first, second);
            }
            NodeKind::Binary { left: l, right: r, op }
        },
        leaf => leaf,
    };
    // Preserve tag: this node is on the unchanged path.
    let ghost before = dest.nodes();
    let id = dest.add(ExprNode::new(new_kind, tag));
    proof {
        let list = source.expr(src_node).rebuilt(target, replacement, base).0;
        assert(list.last().kind == new_kind);
        lemma_holds_append(before, dest.nodes(), base, list.drop_last(), seq![list.last()]);
        assert(list.drop_last() + seq![list.last()] == list);
    }
    id
}

/// Whether exactly `list`, with its tags cloned, was appended.
pub open spec fn extended<Tag: Clone>(
    before: Seq<ExprNode<Tag>>,
    after: Seq<ExprNode<Tag>>,
    list: Seq<ExprNode<Tag>>,
) -> bool {
    &&& before.is_prefix_of(after)
    &&& after.len() == before.len() + list.len()
    &&& holds(after, before.len(), list)
}

/// Whether the offspring's tree was rebuilt from the parent's tree `e`, with
/// `replacement` in place of `target`, and its root is `root`; and whether, if
/// there is a replacement, dead parameters were eliminated.
pub open spec fn completes<Tag: Clone>(
    e: Expr<Tag>,
    target: NodeId,
    replacement: Option<NodeId>,
    params: Seq<Scalar>,
    before: Seq<ExprNode<Tag>>,
    after: Seq<ExprNode<Tag>>,
    root: NodeId,
    kept: Seq<Scalar>,
) -> bool {
    let list = e.rebuilt(target, replacement, before.len()).0;
    &&& root == e.rebuilt(target, replacement, before.len()).1
    &&& exists|mid: Seq<ExprNode<Tag>>| #[trigger]
        extended(before, mid, list) && match replacement {
            None => after == mid && kept == params,
            Some(_) => {
                let visited = expr_of(mid, root).walked();
                let slots = live(mid, visited);
                after == renumbered(mid, visited, slots) && kept == values_of(params, slots)
            },
        }
}

/// Every node of a tree whose identifiers are at least `base` is one of those.
proof fn lemma_walked_from<Tag>(e: Expr<Tag>, base: nat)
    requires
        e.ids_from(base),
    ensures
        forall|i: int| 0 <= i < e.walked().len() ==> (#[trigger] e.walked()[i]).0 >= base,
    decreases e,
{
    match e {
        Expr::Unary { value, .. } => {
            lemma_walked_from(*value, base);
            assert forall|i: int| 0 <= i < e.walked().len() implies (#[trigger] e.walked()[i]).0
                >= base by {
                if i > 0 {
                    assert(e.walked()[i] == value.walked()[i - 1]);
                }
            }
        },
        Expr::Binary { left, right, .. } => {
            lemma_walked_from(*left, base);
            lemma_walked_from(*right, base);
            assert forall|i: int| 0 <= i < e.walked().len() implies (#[trigger] e.walked()[i]).0
                >= base by {
                if 0 < i <= left.walked().len() {
                    assert(e.walked()[i] == left.walked()[i - 1]);
                } else if i > 0 {
                    assert(e.walked()[i] == right.walked()[i - 1 - left.walked().len()]);
                }
            }
        },
        _ => {},
    }
}

/// A complete tree whose walk meets only identifiers from `base` on has no
/// others.
proof fn lemma_walked_ids<Tag>(e: Expr<Tag>, base: nat)
    requires
        e.complete(),
        forall|i: int| 0 <= i < e.walked().len() ==> (#[trigger] e.walked()[i]).0 >= base,
    ensures
        e.ids_from(base),
    decreases e,
{
    let w = e.walked();
    match e {
        Expr::Missing { .. } => {},
        Expr::Variable { id, .. } => {
            assert(w[0] == id);
        },
        Expr::Parameter { id, .. } => {
            assert(w[0] == id);
        },
        Expr::Unary { id, value, .. } => {
            assert(w[0] == id);
            assert forall|i: int| 0 <= i < value.walked().len() implies (
            #[trigger] value.walked()[i]).0 >= base by {
                assert(w[i + 1] == value.walked()[i]);
            }
            lemma_walked_ids(*value, base);
        },
        Expr::Binary { id, left, right, .. } => {
            assert(w[0] == id);
            assert forall|i: int| 0 <= i < left.walked().len() implies (
            #[trigger] left.walked()[i]).0 >= base by {
                assert(w[i + 1] == left.walked()[i]);
            }
            assert forall|i: int| 0 <= i < right.walked().len() implies (
            #[trigger] right.walked()[i]).0 >= base by {
                assert(w[i + 1 + left.walked().len()] == right.walked()[i]);
            }
            lemma_walked_ids(*left, base);
            lemma_walked_ids(*right, base);
        },
    }
}

/// Whether `root` stands for a complete tree made of nodes from `from` on,
/// which reads only the first `n_params` parameters.
pub open spec fn well_rooted<Tag: Clone>(
    nodes: Seq<ExprNode<Tag>>,
    root: NodeId,
    from: nat,
    n_params: nat,
) -> bool {
    &&& finite_at(nodes, root)
    &&& expr_of(nodes, root).complete()
    &&& expr_of(nodes, root).ids_from(from)
    &&& expr_of(nodes, root).params_below(n_params)
}

/// What completing an offspring gives: a complete tree that reads only its own
/// parameters, in an arena whose earlier nodes are as they were. Without a
/// replacement the tree is the parent's. With one, its value is, on any inputs,
/// that of the parent's tree with the replacement in place of the target; as
/// many nodes; and every parameter left is read.
pub proof fn lemma_completes<Tag: Clone>(
    e: Expr<Tag>,
    target: NodeId,
    replacement: Option<NodeId>,
    params: Seq<Scalar>,
    before: Seq<ExprNode<Tag>>,
    after: Seq<ExprNode<Tag>>,
    root: NodeId,
    kept: Seq<Scalar>,
    from: nat,
    ops: Seq<OpMetadata>,
    inputs: Seq<Scalar>,
) -> (g: Expr<Tag>)
    requires
        completes(e, target, replacement, params, before, after, root, kept),
        e.complete(),
        e.params_below(params.len()),
        from <= before.len(),
        after.len() <= usize::MAX,
        replacement matches Some(id) ==> well_rooted(before, id, from, params.len()),
    ensures
        well_rooted(after, root, from, kept.len()),
        before.take(from as int).is_prefix_of(after),
        before.len() <= after.len(),
        replacement is None ==> before.is_prefix_of(after) && kept == params && g == expr_of(
            after,
            root,
        ) && alike(e, g),
        replacement matches Some(id) ==> {
            &&& alike_but(e, g, target, expr_of(before, id))
            &&& forall|p: ParameterId|
                p.0 < kept.len() ==> #[trigger] expr_of(after, root).parameters().contains(p)
        },
        expr_of(after, root).weight() == g.weight(),
        formula(expr_of(after, root), kept) == formula(g, params),
        same_tags(g, expr_of(after, root)),
        value(expr_of(after, root), ops, inputs, kept) == value(g, ops, inputs, params),
        evaluable(g, ops, inputs.len(), params.len()) ==> evaluable(
            expr_of(after, root),
            ops,
            inputs.len(),
            kept.len(),
        ),
{
    let base = before.len();
    let list = e.rebuilt(target, replacement, base).0;
    let mid = choose|mid: Seq<ExprNode<Tag>>| #[trigger]
        extended(before, mid, list) && match replacement {
            None => after == mid && kept == params,
            Some(_) => {
                let visited = expr_of(mid, root).walked();
                let slots = live(mid, visited);
                after == renumbered(mid, visited, slots) && kept == values_of(params, slots)
            },
        };
    let g = expr_of(mid, root);
    match replacement {
        None => {
            lemma_rebuilt_copied(e, target, base);
            lemma_copied_alike(e, mid, base);
            lemma_ids_from(g, base, from);
            lemma_same_tags(g);
        },
        Some(id) => {
            lemma_complete_beyond(e, target, true);
            lemma_expr_extend(before, mid, id);
            lemma_rebuilt_alike(e, mid, target, id, base, from, params.len());
            lemma_elimination_sound(mid, root, ops, inputs, params);
            lemma_walked_from(g, from);
            lemma_walked_ids(expr_of(after, root), from);
            let visited = g.walked();
            assert forall|i: int| 0 <= i < from implies after[i] == before[i] by {
                assert(mid[i] == before[i]);
                if visited.contains(NodeId(i as usize)) {
                    let w = visited.index_of(NodeId(i as usize));
                    assert(visited[w].0 == i);
                }
            }
        },
    }
    g
}

/// Builds the offspring of `root_node`'s tree once the replacement for
/// `target`, if any, is in `dest`: rebuilds the tree, registers its root, and
/// runs dead-parameter elimination if there is a replacement.
pub fn complete_offspring<G: Genome>(
    source: &ExprArena<G::Tag>,
    root_node: NodeId,
    target: NodeId,
    replacement: Option<NodeId>,
    params: Vec<Scalar>,
    dest: &mut ExprArena<G::Tag>,
) -> (r: Individual<G>)
    requires
        source.sound_at(root_node),
        source.expr(root_node).params_below(params@.len()),
        replacement matches Some(id) ==> well_rooted(old(dest).nodes(), id, 0, params@.len()),
    ensures
        final(dest).roots().len() == old(dest).roots().len() + 1,
        final(dest).roots().drop_last() == old(dest).roots(),
        r.root.0 == old(dest).roots().len(),
        completes(
            source.expr(root_node),
            target,
            replacement,
            params@,
            old(dest).nodes(),
            final(dest).nodes(),
            final(dest).roots().last(),
            r.parameters@,
        ),
{
    let ghost e = source.expr(root_node);
    let ghost before = dest.nodes();
    let ghost list = e.rebuilt(target, replacement, before.len()).0;
    proof {
        lemma_complete_beyond(e, target, replacement is Some);
    }
    let mut params = params;
    let ghost given = params@;
    let new_root_node = copy_over_replacing(source, root_node, target, replacement, dest);
    let ghost mid = dest.nodes();
    assert(extended(before, mid, list));
    let new_root = dest.add_root(new_root_node);
    assert(dest.roots().drop_last() == old(dest).roots());
    // run dead param elimination if mutation changed expression structure
    if replacement.is_some() {
        proof {
            let id = replacement->0;
            dest.lemma_lengths();
            lemma_expr_extend(before, mid, id);
            lemma_rebuilt_alike(e, mid, target, id, before.len(), 0, given.len());
            lemma_walked_valid(mid, new_root_node);
            lemma_walked_parameters(mid, new_root_node);
            assert(visited_under(dest, new_root) == expr_of(mid, new_root_node).walked());
            let g = expr_of(mid, new_root_node);
            assert forall|i: int| 0 <= i < g.walked().len() implies (mid[(
            #[trigger] g.walked()[i]).0 as int].kind matches NodeKind::Parameter(p) ==> p.0
                < given.len()) by {
                if let NodeKind::Parameter(p) = mid[g.walked()[i].0 as int].kind {
                    assert(g.parameters().contains(p));
                    let k = g.parameters().index_of(p);
                    assert(g.parameters()[k] == p);
                }
            }
        }
        eliminate_dead_params(dest, &mut params, new_root);
    }
    Individual::new(new_root, params)
}

/// Applies the provided `mutation` to `target` within `parent`'s tree,
/// building the resulting offspring into `dest`.
///
/// This clones the parent's parameters, applies the mutation at `target`,
/// rebuilds the tree into `dest`, and runs dead-parameter elimination
/// if the mutation changed the expression structure.
/// Returns `None` if `parent` has no root in `source`, or `target` is no node
/// of it.
pub fn apply_mutation<G: Genome + 'static, M: Mutation<G> + ?Sized>(
    mutation: &M,
    target: NodeId,
    parent: &Individual<G>,
    source: &ExprArena<G::Tag>,
    dest: &mut ExprArena<G::Tag>,
    ops: &OperationTable,
    rng: &mut StdRng,
) -> (r: Option<Individual<G>>)
    requires
        source.root_node(parent.root) matches Some(node) ==> source.has(target) ==> {
            &&& source.sound_at(node)
            &&& source.expr(node).params_below(parent.parameters@.len())
            &&& source.sound_at(target)
            &&& source.expr(target).params_below(parent.parameters@.len())
            &&& mutation.applies(source.nodes()[target.0 as int].kind)
            &&& mutation.ready(
                source.nodes()[target.0 as int].kind,
                ops,
                parent.parameters@.len(),
            )
        },
    ensures
        r is Some <==> source.root_node(parent.root) is Some && source.has(target),
        match r {
            None => *final(dest) == *old(dest),
            Some(offspring) => bred(
                mutation,
                target,
                parent,
                source,
                ops,
                *old(rng),
                old(dest),
                final(dest),
                offspring,
            ),
        },
{
    let root_node = match source.get_root(parent.root) {
        Some(node) => node,
        None => {
            return None;
        },
    };
    let target_node = match source.get_node(target) {
        Some(node) => node,
        None => {
            return None;
        },
    };
    let ghost old_dest = *dest;
    // Clone parent params so the offspring gets an owned copy
    let mut params = parent.parameters.clone();
    let ghost start = *rng;
    let mut ctx = MutationContext::new(source, ops, rng, dest, &mut params);
    let new_subtree_node = mutation.apply(target, target_node, &mut ctx);
    let ghost step = Step {
        source: source.nodes(),
        unary: ops.unary_ids(),
        binary: ops.binary_ids(),
        target,
        rng: start,
        before: old_dest.nodes(),
        after: dest.nodes(),
        old_params: parent.parameters@,
        new_params: params@,
    };
    assert(step.sound(new_subtree_node) && mutation.yields(step, new_subtree_node));
    proof {
        if let Some(id) = new_subtree_node {
            lemma_ids_from(expr_of(step.after, id), step.before.len(), 0);
        }
        lemma_more_params(source.expr(root_node), step.old_params.len(), step.new_params.len());
    }
    let offspring = complete_offspring(
        source,
        root_node,
        target,
        new_subtree_node,
        params,
        dest,
    );
    proof {
        dest.lemma_lengths();
        let g = lemma_completes(
            source.expr(root_node),
            target,
            new_subtree_node,
            step.new_params,
            step.after,
            dest.nodes(),
            dest.roots().last(),
            offspring.parameters@,
            step.before.len(),
            ops.operations(),
            Seq::empty(),
        );
        assert(step.after.take(step.before.len() as int) == step.before);
        assert(led_to(
            mutation,
            target,
            parent,
            source,
            ops,
            old(dest),
            dest,
            offspring,
            step,
            new_subtree_node,
        ));
    }
    Some(offspring)
}

/// Parameters that exist still do when more are added.
proof fn lemma_more_params<Tag>(e: Expr<Tag>, less: nat, more: nat)
    requires
        e.params_below(less),
        less <= more,
    ensures
        e.params_below(more),
{
}

/// Whether `offspring` may come from applying `mutation` to `target` in the
/// tree of `parent`: its tree is complete, made of appended nodes alone, and
/// reads only its own parameters; and it was completed from a step that the
/// mutation may take with the generator as it was.
pub open spec fn bred<G: Genome, M: Mutation<G> + ?Sized>(
    mutation: &M,
    target: NodeId,
    parent: &Individual<G>,
    source: &ExprArena<G::Tag>,
    ops: &OperationTable,
    rng: StdRng,
    old_dest: &ExprArena<G::Tag>,
    new_dest: &ExprArena<G::Tag>,
    offspring: Individual<G>,
) -> bool {
    &&& offspring.root.0 == old_dest.roots().len()
    &&& new_dest.roots().len() == old_dest.roots().len() + 1
    &&& new_dest.roots().drop_last() == old_dest.roots()
    &&& old_dest.nodes().is_prefix_of(new_dest.nodes())
    &&& well_rooted(
        new_dest.nodes(),
        new_dest.roots().last(),
        old_dest.nodes().len(),
        offspring.parameters@.len(),
    )
    &&& exists|step: Step<G::Tag>, replacement: Option<NodeId>|
        #[trigger] led_to(
            mutation,
            target,
            parent,
            source,
            ops,
            old_dest,
            new_dest,
            offspring,
            step,
            replacement,
        ) && step.rng == rng
}

/// Whether the mutation may take `step`, and `offspring` is what the step and
/// its replacement were completed to.
pub open spec fn led_to<G: Genome, M: Mutation<G> + ?Sized>(
    mutation: &M,
    target: NodeId,
    parent: &Individual<G>,
    source: &ExprArena<G::Tag>,
    ops: &OperationTable,
    old_dest: &ExprArena<G::Tag>,
    new_dest: &ExprArena<G::Tag>,
    offspring: Individual<G>,
    step: Step<G::Tag>,
    replacement: Option<NodeId>,
) -> bool {
    &&& mutation.yields(step, replacement)
    &&& step.source == source.nodes()
    &&& step.unary == ops.unary_ids()
    &&& step.binary == ops.binary_ids()
    &&& step.target == target
    &&& step.before == old_dest.nodes()
    &&& step.old_params == parent.parameters@
    &&& step.sound(replacement)
    &&& completes(
        source.expr(source.root_node(parent.root)->0),
        target,
        replacement,
        step.new_params,
        step.after,
        new_dest.nodes(),
        new_dest.roots().last(),
        offspring.parameters@,
    )
}

/// Putting a part of another size in place of the target changes the size of
/// the whole the same way, if the target is in it.
pub proof fn lemma_alike_but_weight<Tag: Clone>(
    nodes: Seq<ExprNode<Tag>>,
    root: NodeId,
    target: NodeId,
    g: Expr<Tag>,
    part: Expr<Tag>,
)
    requires
        finite_at(nodes, root),
        expr_of(nodes, root).complete(),
        alike_but(expr_of(nodes, root), g, target, part),
    ensures
        ({
            let e = expr_of(nodes, root);
            let subject = expr_of(nodes, target);
            &&& part.weight() == subject.weight() ==> g.weight() == e.weight()
            &&& part.weight() <= subject.weight() ==> g.weight() <= e.weight()
            &&& part.weight() >= subject.weight() ==> g.weight() >= e.weight()
            &&& part.weight() < subject.weight() && e.walked().contains(target) ==> g.weight()
                < e.weight()
            &&& part.weight() > subject.weight() && e.walked().contains(target) ==> g.weight()
                > e.weight()
        }),
    decreases expr_of(nodes, root),
{
    let e = expr_of(nodes, root);
    lemma_expr_step(nodes, root);
    if root != target {
        let w = e.walked();
        match nodes[root.0 as int].kind {
            NodeKind::Unary { value, .. } => {
                let x = expr_of(nodes, value).walked();
                if let Expr::Unary { value: gx, .. } = g {
                    lemma_alike_but_weight(nodes, value, target, *gx, part);
                }
                if w.contains(target) {
                    let i = w.index_of(target);
                    assert(w[0] == root);
                    assert(x[i - 1] == target);
                }
            },
            NodeKind::Binary { left, right, .. } => {
                let l = expr_of(nodes, left).walked();
                let r = expr_of(nodes, right).walked();
                if let Expr::Binary { left: gl, right: gr, .. } = g {
                    lemma_alike_but_weight(nodes, left, target, *gl, part);
                    lemma_alike_but_weight(nodes, right, target, *gr, part);
                }
                if w.contains(target) {
                    let i = w.index_of(target);
                    assert(w[0] == root);
                    if i <= l.len() {
                        assert(l[i - 1] == target);
                    } else {
                        assert(r[i - 1 - l.len()] == target);
                    }
                }
            },
            _ => {
                if w.contains(target) {
                    let i = w.index_of(target);
                    assert(w[0] == root);
                }
            },
        }
    }
}

/// The size of an offspring's tree, by the size of the replacement: as large
/// as the parent's if there is none, or if it is as large as the target's
/// subtree; and smaller or larger as it is, if the target is in the tree.
pub proof fn lemma_offspring_weight<G: Genome, M: Mutation<G> + ?Sized>(
    mutation: &M,
    target: NodeId,
    parent: &Individual<G>,
    source: &ExprArena<G::Tag>,
    ops: &OperationTable,
    old_dest: &ExprArena<G::Tag>,
    new_dest: &ExprArena<G::Tag>,
    offspring: Individual<G>,
    step: Step<G::Tag>,
    replacement: Option<NodeId>,
)
    requires
        led_to(
            mutation,
            target,
            parent,
            source,
            ops,
            old_dest,
            new_dest,
            offspring,
            step,
            replacement,
        ),
        source.root_node(parent.root) is Some,
        source.sound_at(source.root_node(parent.root)->0),
        source.expr(source.root_node(parent.root)->0).params_below(parent.parameters@.len()),
    ensures
        ({
            let e = source.expr(source.root_node(parent.root)->0);
            let f = new_dest.expr(new_dest.roots().last());
            let subject = source.expr(target);
            match replacement {
                None => {
                    &&& f.weight() == e.weight()
                    &&& alike(e, f)
                    &&& offspring.parameters@ == step.new_params
                },
                Some(id) => {
                    let part = expr_of(step.after, id);
                    &&& part.weight() == subject.weight() ==> f.weight() == e.weight()
                    &&& part.weight() < subject.weight() && e.walked().contains(target)
                        ==> f.weight() < e.weight()
                    &&& part.weight() > subject.weight() && e.walked().contains(target)
                        ==> f.weight() > e.weight()
                },
            }
        }),
{
    let node = source.root_node(parent.root)->0;
    let e = source.expr(node);
    new_dest.lemma_lengths();
    lemma_more_params(e, step.old_params.len(), step.new_params.len());
    let g = lemma_completes(
        e,
        target,
        replacement,
        step.new_params,
        step.after,
        new_dest.nodes(),
        new_dest.roots().last(),
        offspring.parameters@,
        step.before.len(),
        ops.operations(),
        Seq::empty(),
    );
    match replacement {
        None => {
            lemma_alike_weight(e, g);
        },
        Some(id) => {
            lemma_alike_but_weight(source.nodes(), node, target, g, expr_of(step.after, id));
        },
    }
}

/// What an offspring's tree says: what the parent's does under the parameters
/// that the mutation left, with the replacement, if there is one, in place of
/// the target. Nothing else of it changes, whatever slots the parameters get,
/// and all other nodes keep clones of their tags.
pub proof fn lemma_offspring_formula<G: Genome, M: Mutation<G> + ?Sized>(
    mutation: &M,
    target: NodeId,
    parent: &Individual<G>,
    source: &ExprArena<G::Tag>,
    ops: &OperationTable,
    old_dest: &ExprArena<G::Tag>,
    new_dest: &ExprArena<G::Tag>,
    offspring: Individual<G>,
    step: Step<G::Tag>,
    replacement: Option<NodeId>,
)
    requires
        led_to(
            mutation,
            target,
            parent,
            source,
            ops,
            old_dest,
            new_dest,
            offspring,
            step,
            replacement,
        ),
        source.root_node(parent.root) is Some,
        source.sound_at(source.root_node(parent.root)->0),
        source.expr(source.root_node(parent.root)->0).params_below(parent.parameters@.len()),
    ensures
        ({
            let e = source.expr(source.root_node(parent.root)->0);
            let f = new_dest.expr(new_dest.roots().last());
            match replacement {
                None => {
                    &&& offspring.parameters@ == step.new_params
                    &&& formula(f, offspring.parameters@) == formula(e, step.new_params)
                    &&& tags_kept(e, f, None, f)
                },
                Some(id) => {
                    &&& formula(f, offspring.parameters@) == formula_with(
                        e,
                        step.new_params,
                        target,
                        formula(expr_of(step.after, id), step.new_params),
                    )
                    &&& tags_kept(e, f, Some(target), expr_of(step.after, id))
                },
            }
        }),
{
    let node = source.root_node(parent.root)->0;
    let e = source.expr(node);
    new_dest.lemma_lengths();
    lemma_more_params(e, step.old_params.len(), step.new_params.len());
    let g = lemma_completes(
        e,
        target,
        replacement,
        step.new_params,
        step.after,
        new_dest.nodes(),
        new_dest.roots().last(),
        offspring.parameters@,
        step.before.len(),
        ops.operations(),
        Seq::empty(),
    );
    match replacement {
        None => {
            lemma_formula_alike(e, g, step.new_params);
            lemma_tags_alike(e, g, new_dest.expr(new_dest.roots().last()));
        },
        Some(id) => {
            let part = expr_of(step.after, id);
            lemma_formula_replaced(e, g, target, part, step.new_params);
            lemma_tags_replaced(e, g, new_dest.expr(new_dest.roots().last()), target, part);
        },
    }
}

/// Trees that are alike have as many nodes.
pub proof fn lemma_alike_weight<Tag: Clone>(a: Expr<Tag>, b: Expr<Tag>)
    requires
        alike(a, b),
    ensures
        a.weight() == b.weight(),
    decreases a,
{
    match (a, b) {
        (Expr::Unary { value: xa, .. }, Expr::Unary { value: xb, .. }) => {
            lemma_alike_weight(*xa, *xb);
        },
        (Expr::Binary { left: la, right: ra, .. }, Expr::Binary { left: lb, right: rb, .. }) => {
            lemma_alike_weight(*la, *lb);
            lemma_alike_weight(*ra, *rb);
        },
        _ => {},
    }
}

/// Whether every subtree that the mutation may put in place of one that can be
/// evaluated can be evaluated too.
pub open spec fn keeps_evaluable<G: Genome, M: Mutation<G> + ?Sized>(
    mutation: &M,
    ops: &OperationTable,
    n_inputs: nat,
) -> bool {
    forall|step: Step<G::Tag>, id: NodeId|
        {
            &&& #[trigger] mutation.yields(step, Some(id))
            &&& step.sound(Some(id))
            &&& step.unary == ops.unary_ids()
            &&& step.binary == ops.binary_ids()
            &&& finite_at(step.source, step.target)
            &&& evaluable(step.subject(), ops.operations(), n_inputs, step.old_params.len())
        } ==> evaluable(
            expr_of(step.after, id),
            ops.operations(),
            n_inputs,
            step.new_params.len(),
        )
}

/// An individual's offspring by a mutation of one of its nodes can be
/// evaluated if the individual can, provided that the mutation replaces
/// subtrees by such as can be evaluated.
pub proof fn lemma_offspring_lives<G: Genome, M: Mutation<G> + ?Sized>(
    mutation: &M,
    target: NodeId,
    parent: &Individual<G>,
    source: &ExprArena<G::Tag>,
    ops: &OperationTable,
    rng: StdRng,
    old_dest: &ExprArena<G::Tag>,
    new_dest: &ExprArena<G::Tag>,
    offspring: Individual<G>,
    n_inputs: nat,
)
    requires
        bred(mutation, target, parent, source, ops, rng, old_dest, new_dest, offspring),
        parent.lives_in(source, ops, n_inputs),
        source.expr(source.root_node(parent.root)->0).walked().contains(target),
        keeps_evaluable(mutation, ops, n_inputs),
    ensures
        offspring.lives_in(new_dest, ops, n_inputs),
{
    let (step, replacement) = choose|step: Step<G::Tag>, replacement: Option<NodeId>| #[trigger]
        led_to(
            mutation,
            target,
            parent,
            source,
            ops,
            old_dest,
            new_dest,
            offspring,
            step,
            replacement,
        );
    let node = source.root_node(parent.root)->0;
    let e = source.expr(node);
    let table = ops.operations();
    let less = step.old_params.len();
    let more = step.new_params.len();
    lemma_evaluable(e, table, n_inputs, less);
    lemma_more_params(e, less, more);
    new_dest.lemma_lengths();
    let g = lemma_completes(
        e,
        target,
        replacement,
        step.new_params,
        step.after,
        new_dest.nodes(),
        new_dest.roots().last(),
        offspring.parameters@,
        step.before.len(),
        table,
        Seq::new(n_inputs, |i: int| 0),
    );
    match replacement {
        None => {
            lemma_alike_evaluable(e, g, table, n_inputs, less, more);
        },
        Some(id) => {
            let i = e.walked().index_of(target);
            lemma_part_evaluable(source.nodes(), node, i, table, n_inputs, less);
            lemma_walked_valid(source.nodes(), node);
            assert(mutation.yields(step, Some(id)));
            lemma_alike_but_evaluable(
                e,
                g,
                target,
                expr_of(step.after, id),
                table,
                n_inputs,
                less,
                more,
            );
        },
    }
}

} // verus!
