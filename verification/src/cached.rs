//! Vectorized evaluation that keeps the results of selected nodes.

use crate::array::{allocatable, Buffer, Matrix};
use crate::ast::{ExprArena, ExprNode, NodeKind};
use crate::eval::{applicable, evaluable, lemma_evaluable, value, EvalContext};
use crate::expr::{expr_of, finite_at, lemma_expr_id, lemma_expr_step, Expr};
use crate::ops::{operands_at, Arity, OpMetadata, OperationTable};
use crate::types::{NodeId, Scalar};
use crate::vectorized::{at_least, need, EvalBufferStack};
use std::collections::HashMap;
use vstd::prelude::*;

verus! {

broadcast use vstd::std_specs::hash::group_hash_axioms;

/// Gates which nodes' batch results a [`CachedEvalContext`] should keep in an
/// [`EvalCache`] once computed.
pub trait CachePolicy<Tag: Clone> {
    /// Whether the policy can be asked about the node. It always can, unless
    /// an implementation says when.
    open spec fn ready(&self, node_id: NodeId, node: ExprNode<Tag>) -> bool {
        true
    }

    /// Whether the policy may give this answer about the node. It may give
    /// any, unless an implementation says which.
    open spec fn answers(&self, node_id: NodeId, node: ExprNode<Tag>, answer: bool) -> bool {
        true
    }

    /// Whether `node`'s batch result should be cached under `node_id` once
    /// evaluated.
    fn should_cache(&self, node_id: NodeId, node: &ExprNode<Tag>) -> (r: bool)
        requires
            self.ready(node_id, *node),
        ensures
            self.answers(node_id, *node, r),
    ;
}

impl<Tag: Clone, F> CachePolicy<Tag> for F where F: Fn(NodeId, &ExprNode<Tag>) -> bool {
    open spec fn ready(&self, node_id: NodeId, node: ExprNode<Tag>) -> bool {
        call_requires(*self, (node_id, &node))
    }

    open spec fn answers(&self, node_id: NodeId, node: ExprNode<Tag>, answer: bool) -> bool {
        call_ensures(*self, (node_id, &node), answer)
    }

    fn should_cache(&self, node_id: NodeId, node: &ExprNode<Tag>) -> (r: bool) {
        self(node_id, node)
    }
}

/// Holds batch results for nodes a [`CachePolicy`] chose to cache, keyed by
/// [`NodeId`], for reuse across repeated evaluations of the same expression.
/// This cache is meant to enable fast evaluations of the same expression, e.g.
/// for weight fitting.
///
/// ## Validity
///
/// A cached buffer is only valid for the exact `(inputs, parameters)` pair it
/// was computed under. [`CachedEvalContext::eval_batch`] detects and clears
/// the cache when the batch size (`inputs.nrows()`) changes, but it has no
/// way to detect a change in `parameters` or in the input *values* at a fixed
/// shape, that is the caller's responsibility.
/// Call [`Self::clear`] whenever parameters change and cached results must be
/// recomputed under the new values.
pub struct EvalCache {
    entries: HashMap<usize, Buffer>,
    batch: usize,
}

impl EvalCache {
    /// The cached results.
    pub closed spec fn contents(&self) -> Map<NodeId, Seq<Scalar>> {
        Map::new(|id: NodeId| self.entries@.contains_key(id.0), |id: NodeId| self.entries@[id.0]@)
    }

    /// The batch size that the results are valid for.
    pub closed spec fn batch(&self) -> usize {
        self.batch
    }

    /// Whether every result is one of a batch of the cache's size.
    pub open spec fn wf(&self) -> bool {
        forall|id: NodeId|
            self.contents().contains_key(id) ==> (#[trigger] self.contents()[id]).len()
                == self.batch()
    }

    /// An empty cache for batches of the given size.
    pub fn new(batch: usize) -> (r: Self)
        ensures
            r.wf(),
            r.contents() == Map::<NodeId, Seq<Scalar>>::empty(),
            r.batch() == batch,
    {
        let r = Self { entries: HashMap::new(), batch };
        assert(r.contents() == Map::<NodeId, Seq<Scalar>>::empty());
        r
    }

    /// The batch size this cache's entries are valid for.
    pub fn batch_size(&self) -> (n: usize)
        ensures
            n == self.batch(),
    {
        self.batch
    }

    /// Looks up a cached result by node id.
    pub fn get(&self, node_id: NodeId) -> (r: Option<&Buffer>)
        ensures
            r is Some <==> self.contents().contains_key(node_id),
            r matches Some(buffer) ==> buffer@ == self.contents()[node_id],
    {
        self.entries.get(&node_id.0)
    }

    /// Number of entries currently cached.
    pub fn len(&self) -> (n: usize)
        ensures
            n == self.contents().len(),
            self.contents().dom().finite(),
    {
        proof {
            lemma_contents_len(self.entries@);
        }
        self.entries.len()
    }

    /// `true` if nothing is cached right now.
    pub fn is_empty(&self) -> (r: bool)
        ensures
            r == (self.contents() == Map::<NodeId, Seq<Scalar>>::empty()),
    {
        proof {
            lemma_contents_len(self.entries@);
            if self.contents().len() == 0 {
                assert(self.contents().dom() == Set::<NodeId>::empty());
                assert(self.contents() == Map::<NodeId, Seq<Scalar>>::empty());
            }
        }
        self.entries.len() == 0
    }

    /// Discards every cached entry. Call this whenever `parameters` (or input
    /// values at a fixed shape) change.
    pub fn clear(&mut self)
        ensures
            final(self).wf(),
            final(self).contents() == Map::<NodeId, Seq<Scalar>>::empty(),
            final(self).batch() == old(self).batch(),
    {
        self.entries.clear();
        assert(self.contents() == Map::<NodeId, Seq<Scalar>>::empty());
    }

    /// Keeps a copy of a result.
    fn keep(&mut self, node_id: NodeId, result: &Buffer)
        ensures
            final(self).contents() == old(self).contents().insert(node_id, result@),
            final(self).batch() == old(self).batch(),
    {
        self.entries.insert(node_id.0, result.clone());
        assert(self.contents() == old(self).contents().insert(node_id, result@));
    }
}

/// Entries keyed by identifier are as many as entries keyed by index.
proof fn lemma_contents_len(entries: Map<usize, Buffer>)
    requires
        entries.dom().finite(),
    ensures
        ({
            let contents = Map::new(
                |id: NodeId| entries.contains_key(id.0),
                |id: NodeId| entries[id.0]@,
            );
            &&& contents.dom().finite()
            &&& contents.len() == entries.len()
        }),
{
    let contents = Map::new(|id: NodeId| entries.contains_key(id.0), |id: NodeId| entries[id.0]@);
    let f = |i: usize| NodeId(i);
    assert(contents.dom() =~= entries.dom().map(f)) by {
        assert forall|id: NodeId| contents.dom().contains(id) implies entries.dom().map(
            f,
        ).contains(id) by {
            assert(entries.dom().contains(id.0) && f(id.0) == id);
        }
    }
    vstd::set_lib::lemma_map_size(entries.dom(), contents.dom(), f);
}

/// The identifiers whose results are computed when the expression is
/// evaluated with the results of `known` at hand.
pub open spec fn reached<Tag>(e: Expr<Tag>, known: Set<NodeId>) -> Set<NodeId>
    decreases e,
{
    if known.contains(e.id()) {
        Set::empty()
    } else {
        match e {
            Expr::Missing { .. } => Set::empty(),
            Expr::Variable { id, .. } => set![id],
            Expr::Parameter { id, .. } => set![id],
            Expr::Unary { id, value: x, .. } => reached(*x, known).insert(id),
            Expr::Binary { id, left, right, .. } => reached(*left, known).union(
                reached(*right, known),
            ).insert(id),
        }
    }
}

/// Whether the expression can be evaluated with the results of `known` at
/// hand: what is under a known identifier is not looked at.
pub open spec fn evaluable_beyond<Tag>(
    e: Expr<Tag>,
    ops: Seq<OpMetadata>,
    n_inputs: nat,
    n_params: nat,
    known: Set<NodeId>,
) -> bool
    decreases e,
{
    known.contains(e.id()) || match e {
        Expr::Missing { .. } => false,
        Expr::Variable { var, .. } => var.0 < n_inputs,
        Expr::Parameter { param, .. } => param.0 < n_params,
        Expr::Unary { op, value: x, .. } => applicable(ops, op, Arity::Unary) && evaluable_beyond(
            *x,
            ops,
            n_inputs,
            n_params,
            known,
        ),
        Expr::Binary { op, left, right, .. } => applicable(ops, op, Arity::Binary)
            && evaluable_beyond(*left, ops, n_inputs, n_params, known) && evaluable_beyond(
            *right,
            ops,
            n_inputs,
            n_params,
            known,
        ),
    }
}

/// The results of the expression over a batch, with those of `known` taken as
/// they are.
pub open spec fn batch_value<Tag>(
    e: Expr<Tag>,
    ops: Seq<OpMetadata>,
    inputs: Seq<Seq<Scalar>>,
    params: Seq<Scalar>,
    known: Map<NodeId, Seq<Scalar>>,
) -> Seq<Scalar>
    decreases e,
{
    if known.contains_key(e.id()) {
        known[e.id()]
    } else {
        match e {
            Expr::Missing { .. } => arbitrary(),
            Expr::Variable { var, .. } => Seq::new(inputs.len(), |i: int| inputs[i][var.0 as int]),
            Expr::Parameter { param, .. } => Seq::new(inputs.len(), |i: int| params[param.0 as int]),
            Expr::Unary { op, value: x, .. } => {
                let xs = batch_value(*x, ops, inputs, params, known);
                Seq::new(inputs.len(), |i: int| ops[op.0 as int].value(seq![xs[i]]))
            },
            Expr::Binary { op, left, right, .. } => {
                let ls = batch_value(*left, ops, inputs, params, known);
                let rs = batch_value(*right, ops, inputs, params, known);
                Seq::new(inputs.len(), |i: int| ops[op.0 as int].value(seq![ls[i], rs[i]]))
            },
        }
    }
}

/// Whether `after` is `before` with results added for identifiers reached
/// under `id`: those that the policy said to keep, each with the value that it
/// has over `before`; and the policy said not to keep the others.
pub open spec fn grown<Tag: Clone, P: CachePolicy<Tag>>(
    policy: P,
    nodes: Seq<ExprNode<Tag>>,
    id: NodeId,
    ops: Seq<OpMetadata>,
    inputs: Seq<Seq<Scalar>>,
    params: Seq<Scalar>,
    before: Map<NodeId, Seq<Scalar>>,
    after: Map<NodeId, Seq<Scalar>>,
) -> bool {
    let met = reached(expr_of(nodes, id), before.dom());
    &&& forall|k: NodeId| #[trigger]
        before.contains_key(k) ==> after.contains_key(k) && after[k] == before[k]
    &&& forall|k: NodeId| #[trigger]
        after.contains_key(k) && !before.contains_key(k) ==> {
            &&& met.contains(k)
            &&& policy.answers(k, nodes[k.0 as int], true)
            &&& after[k] == batch_value(expr_of(nodes, k), ops, inputs, params, before)
        }
    &&& forall|k: NodeId| #[trigger]
        met.contains(k) && !after.contains_key(k) ==> policy.answers(k, nodes[k.0 as int], false)
}

/// Knowing more leaves less to compute, and less to require.
proof fn lemma_known_more<Tag>(
    e: Expr<Tag>,
    ops: Seq<OpMetadata>,
    n_inputs: nat,
    n_params: nat,
    less: Set<NodeId>,
    more: Set<NodeId>,
)
    requires
        less.subset_of(more),
    ensures
        evaluable_beyond(e, ops, n_inputs, n_params, less) ==> evaluable_beyond(
            e,
            ops,
            n_inputs,
            n_params,
            more,
        ),
        reached(e, more).subset_of(reached(e, less)),
    decreases e,
{
    match e {
        Expr::Unary { value: x, .. } => {
            lemma_known_more(*x, ops, n_inputs, n_params, less, more);
        },
        Expr::Binary { left, right, .. } => {
            lemma_known_more(*left, ops, n_inputs, n_params, less, more);
            lemma_known_more(*right, ops, n_inputs, n_params, less, more);
        },
        _ => {},
    }
}

/// Results that are what the expression gives anyway change no value.
pub proof fn lemma_consistent<Tag: Clone>(
    nodes: Seq<ExprNode<Tag>>,
    id: NodeId,
    ops: Seq<OpMetadata>,
    inputs: Seq<Seq<Scalar>>,
    params: Seq<Scalar>,
    known: Map<NodeId, Seq<Scalar>>,
    more: Map<NodeId, Seq<Scalar>>,
)
    requires
        finite_at(nodes, id),
        forall|k: NodeId| #[trigger]
            known.contains_key(k) ==> more.contains_key(k) && more[k] == known[k],
        forall|k: NodeId| #[trigger]
            more.contains_key(k) && !known.contains_key(k) ==> more[k] == batch_value(
                expr_of(nodes, k),
                ops,
                inputs,
                params,
                known,
            ),
    ensures
        batch_value(expr_of(nodes, id), ops, inputs, params, more) == batch_value(
            expr_of(nodes, id),
            ops,
            inputs,
            params,
            known,
        ),
    decreases expr_of(nodes, id),
{
    lemma_expr_step(nodes, id);
    if !more.contains_key(id) {
        match expr_of(nodes, id) {
            Expr::Unary { value: x, .. } => {
                lemma_expr_step(nodes, id);
                if let NodeKind::Unary { value, .. } = nodes[id.0 as int].kind {
                    lemma_consistent(nodes, value, ops, inputs, params, known, more);
                }
            },
            Expr::Binary { .. } => {
                if let NodeKind::Binary { left, right, .. } = nodes[id.0 as int].kind {
                    lemma_consistent(nodes, left, ops, inputs, params, known, more);
                    lemma_consistent(nodes, right, ops, inputs, params, known, more);
                }
            },
            _ => {},
        }
    }
}

/// What is reached under a reached node is reached.
proof fn lemma_reached_part<Tag: Clone>(
    nodes: Seq<ExprNode<Tag>>,
    id: NodeId,
    known: Set<NodeId>,
    part: NodeId,
    k: NodeId,
)
    requires
        finite_at(nodes, id),
        reached(expr_of(nodes, id), known).contains(part),
        reached(expr_of(nodes, part), known).contains(k),
    ensures
        reached(expr_of(nodes, id), known).contains(k),
    decreases expr_of(nodes, id),
{
    lemma_expr_step(nodes, id);
    if part != id {
        match nodes[id.0 as int].kind {
            NodeKind::Unary { value, .. } => {
                lemma_reached_part(nodes, value, known, part, k);
            },
            NodeKind::Binary { left, right, .. } => {
                if reached(expr_of(nodes, left), known).contains(part) {
                    lemma_reached_part(nodes, left, known, part, k);
                } else {
                    lemma_reached_part(nodes, right, known, part, k);
                }
            },
            _ => {},
        }
    }
}

/// What knowing more leaves out is reached under one of the added nodes.
proof fn lemma_reached_lost<Tag: Clone>(
    nodes: Seq<ExprNode<Tag>>,
    id: NodeId,
    less: Set<NodeId>,
    more: Set<NodeId>,
    k: NodeId,
) -> (part: NodeId)
    requires
        finite_at(nodes, id),
        less.subset_of(more),
        reached(expr_of(nodes, id), less).contains(k),
        !reached(expr_of(nodes, id), more).contains(k),
    ensures
        more.contains(part),
        !less.contains(part),
        reached(expr_of(nodes, part), less).contains(k),
    decreases expr_of(nodes, id),
{
    lemma_expr_step(nodes, id);
    if more.contains(id) {
        id
    } else {
        match nodes[id.0 as int].kind {
            NodeKind::Unary { value, .. } => lemma_reached_lost(nodes, value, less, more, k),
            NodeKind::Binary { left, right, .. } => {
                if reached(expr_of(nodes, left), less).contains(k) {
                    lemma_reached_lost(nodes, left, less, more, k)
                } else {
                    lemma_reached_lost(nodes, right, less, more, k)
                }
            },
            _ => id,
        }
    }
}

/// Growth by the left operand and then by the right one is growth by both,
/// but for the answer about their operator.
proof fn lemma_grown_both<Tag: Clone, P: CachePolicy<Tag>>(
    policy: P,
    nodes: Seq<ExprNode<Tag>>,
    left: NodeId,
    right: NodeId,
    ops: Seq<OpMetadata>,
    inputs: Seq<Seq<Scalar>>,
    params: Seq<Scalar>,
    before: Map<NodeId, Seq<Scalar>>,
    mid: Map<NodeId, Seq<Scalar>>,
    after: Map<NodeId, Seq<Scalar>>,
)
    requires
        finite_at(nodes, left),
        finite_at(nodes, right),
        grown(policy, nodes, left, ops, inputs, params, before, mid),
        grown(policy, nodes, right, ops, inputs, params, mid, after),
    ensures
        batch_value(expr_of(nodes, right), ops, inputs, params, mid) == batch_value(
            expr_of(nodes, right),
            ops,
            inputs,
            params,
            before,
        ),
        forall|k: NodeId| #[trigger]
            before.contains_key(k) ==> after.contains_key(k) && after[k] == before[k],
        forall|k: NodeId| #[trigger]
            after.contains_key(k) && !before.contains_key(k) ==> {
                &&& reached(expr_of(nodes, left), before.dom()).contains(k) || reached(
                    expr_of(nodes, right),
                    before.dom(),
                ).contains(k)
                &&& policy.answers(k, nodes[k.0 as int], true)
                &&& after[k] == batch_value(expr_of(nodes, k), ops, inputs, params, before)
            },
        forall|k: NodeId| #[trigger]
            reached(expr_of(nodes, left), before.dom()).contains(k) && !after.contains_key(k)
                ==> policy.answers(k, nodes[k.0 as int], false),
        forall|k: NodeId| #[trigger]
            reached(expr_of(nodes, right), before.dom()).contains(k) && !after.contains_key(k)
                ==> policy.answers(k, nodes[k.0 as int], false),
{
    let lmet = reached(expr_of(nodes, left), before.dom());
    let rmet = reached(expr_of(nodes, right), before.dom());
    let rmid = reached(expr_of(nodes, right), mid.dom());
    assert(before.dom().subset_of(mid.dom()));
    lemma_consistent(nodes, right, ops, inputs, params, before, mid);
    lemma_known_more(expr_of(nodes, right), ops, 0, 0, before.dom(), mid.dom());
    assert forall|k: NodeId| #[trigger] after.contains_key(k) && !before.contains_key(k) implies {
        &&& lmet.contains(k) || rmet.contains(k)
        &&& policy.answers(k, nodes[k.0 as int], true)
        &&& after[k] == batch_value(expr_of(nodes, k), ops, inputs, params, before)
    } by {
        if mid.contains_key(k) {
            assert(after[k] == mid[k]);
        } else {
            assert(rmid.contains(k));
            assert(rmet.contains(k));
            lemma_reached_valid(nodes, right, before.dom(), k);
            lemma_consistent(nodes, k, ops, inputs, params, before, mid);
        }
    }
    assert forall|k: NodeId| lmet.contains(k) && !after.contains_key(k) implies policy.answers(
        k,
        nodes[k.0 as int],
        false,
    ) by {
        assert(!mid.contains_key(k));
    }
    assert forall|k: NodeId| rmet.contains(k) && !after.contains_key(k) implies policy.answers(
        k,
        nodes[k.0 as int],
        false,
    ) by {
        if !rmid.contains(k) {
            let part = lemma_reached_lost(nodes, right, before.dom(), mid.dom(), k);
            assert(mid.contains_key(part) && !before.contains_key(part));
            assert(lmet.contains(part));
            lemma_reached_part(nodes, left, before.dom(), part, k);
            assert(!mid.contains_key(k));
        }
    }
}

/// A reached identifier is one of a node that stands for a finite tree.
proof fn lemma_reached_valid<Tag: Clone>(
    nodes: Seq<ExprNode<Tag>>,
    id: NodeId,
    known: Set<NodeId>,
    k: NodeId,
)
    requires
        finite_at(nodes, id),
        reached(expr_of(nodes, id), known).contains(k),
    ensures
        finite_at(nodes, k),
        k.0 < nodes.len(),
    decreases expr_of(nodes, id),
{
    lemma_expr_step(nodes, id);
    if k != id {
        match nodes[id.0 as int].kind {
            NodeKind::Unary { value, .. } => {
                lemma_reached_valid(nodes, value, known, k);
            },
            NodeKind::Binary { left, right, .. } => {
                if reached(expr_of(nodes, left), known).contains(k) {
                    lemma_reached_valid(nodes, left, known, k);
                } else {
                    lemma_reached_valid(nodes, right, known, k);
                }
            },
            _ => {},
        }
    }
}

/// With nothing known, the results are the values of the expression, sample
/// by sample.
pub proof fn lemma_batch_value_fresh<Tag>(
    e: Expr<Tag>,
    ops: Seq<OpMetadata>,
    inputs: Seq<Seq<Scalar>>,
    params: Seq<Scalar>,
)
    requires
        e.complete(),
    ensures
        batch_value(e, ops, inputs, params, Map::empty()) == Seq::new(
            inputs.len(),
            |i: int| value(e, ops, inputs[i], params),
        ),
    decreases e,
{
    let none = Map::<NodeId, Seq<Scalar>>::empty();
    match e {
        Expr::Unary { value: x, .. } => {
            lemma_batch_value_fresh(*x, ops, inputs, params);
        },
        Expr::Binary { left, right, .. } => {
            lemma_batch_value_fresh(*left, ops, inputs, params);
            lemma_batch_value_fresh(*right, ops, inputs, params);
        },
        _ => {},
    }
    assert(batch_value(e, ops, inputs, params, none) == Seq::new(
        inputs.len(),
        |i: int| value(e, ops, inputs[i], params),
    ));
}

/// With nothing known, all of the expression has to be evaluable.
pub proof fn lemma_evaluable_fresh<Tag>(
    e: Expr<Tag>,
    ops: Seq<OpMetadata>,
    n_inputs: nat,
    n_params: nat,
)
    ensures
        evaluable_beyond(e, ops, n_inputs, n_params, Set::empty()) == evaluable(
            e,
            ops,
            n_inputs,
            n_params,
        ),
    decreases e,
{
    match e {
        Expr::Unary { value: x, .. } => {
            lemma_evaluable_fresh(*x, ops, n_inputs, n_params);
        },
        Expr::Binary { left, right, .. } => {
            lemma_evaluable_fresh(*left, ops, n_inputs, n_params);
            lemma_evaluable_fresh(*right, ops, n_inputs, n_params);
        },
        _ => {},
    }
}

/// While inputs and parameters stay the same, what an evaluation leaves in
/// the cache changes no later result, of that expression or of another.
pub proof fn lemma_grown_neutral<Tag: Clone, P: CachePolicy<Tag>>(
    policy: P,
    nodes: Seq<ExprNode<Tag>>,
    id: NodeId,
    other: NodeId,
    ops: Seq<OpMetadata>,
    inputs: Seq<Seq<Scalar>>,
    params: Seq<Scalar>,
    before: Map<NodeId, Seq<Scalar>>,
    after: Map<NodeId, Seq<Scalar>>,
)
    requires
        finite_at(nodes, other),
        grown(policy, nodes, id, ops, inputs, params, before, after),
    ensures
        batch_value(expr_of(nodes, other), ops, inputs, params, after) == batch_value(
            expr_of(nodes, other),
            ops,
            inputs,
            params,
            before,
        ),
{
    lemma_consistent(nodes, other, ops, inputs, params, before, after);
}

/// Cached results that were computed under the same inputs and parameters
/// leave the results as they are without a cache: the values of the
/// expression, sample by sample.
pub proof fn lemma_valid_cache<Tag: Clone>(
    nodes: Seq<ExprNode<Tag>>,
    id: NodeId,
    ops: Seq<OpMetadata>,
    inputs: Seq<Seq<Scalar>>,
    params: Seq<Scalar>,
    known: Map<NodeId, Seq<Scalar>>,
)
    requires
        finite_at(nodes, id),
        expr_of(nodes, id).complete(),
        forall|k: NodeId| #[trigger]
            known.contains_key(k) ==> known[k] == batch_value(
                expr_of(nodes, k),
                ops,
                inputs,
                params,
                Map::empty(),
            ),
    ensures
        batch_value(expr_of(nodes, id), ops, inputs, params, known) == Seq::new(
            inputs.len(),
            |i: int| value(expr_of(nodes, id), ops, inputs[i], params),
        ),
{
    lemma_consistent(nodes, id, ops, inputs, params, Map::empty(), known);
    lemma_batch_value_fresh(expr_of(nodes, id), ops, inputs, params);
}

/// Whether every known result is that of its expression, evaluated sample by
/// sample under these inputs and parameters.
pub open spec fn valid<Tag: Clone>(
    nodes: Seq<ExprNode<Tag>>,
    ops: Seq<OpMetadata>,
    inputs: Seq<Seq<Scalar>>,
    params: Seq<Scalar>,
    known: Map<NodeId, Seq<Scalar>>,
) -> bool {
    forall|k: NodeId| #[trigger]
        known.contains_key(k) ==> {
            &&& finite_at(nodes, k)
            &&& expr_of(nodes, k).complete()
            &&& known[k] == Seq::new(
                inputs.len(),
                |i: int| value(expr_of(nodes, k), ops, inputs[i], params),
            )
        }
}

/// With nothing known, every node of the expression is reached.
pub proof fn lemma_reached_fresh<Tag>(e: Expr<Tag>, k: NodeId)
    requires
        e.complete(),
    ensures
        reached(e, Set::empty()).contains(k) <==> e.walked().contains(k),
    decreases e,
{
    assert(e.walked()[0] == e.id());
    match e {
        Expr::Unary { id, value: x, .. } => {
            lemma_reached_fresh(*x, k);
            vstd::seq_lib::lemma_seq_concat_contains_all_elements(seq![id], x.walked(), k);
        },
        Expr::Binary { id, left, right, .. } => {
            lemma_reached_fresh(*left, k);
            lemma_reached_fresh(*right, k);
            let first = seq![id] + left.walked();
            vstd::seq_lib::lemma_seq_concat_contains_all_elements(seq![id], left.walked(), k);
            vstd::seq_lib::lemma_seq_concat_contains_all_elements(first, right.walked(), k);
        },
        _ => {},
    }
}

/// What is reached in a complete expression is complete.
proof fn lemma_reached_complete<Tag: Clone>(
    nodes: Seq<ExprNode<Tag>>,
    id: NodeId,
    known: Set<NodeId>,
    k: NodeId,
)
    requires
        finite_at(nodes, id),
        expr_of(nodes, id).complete(),
        reached(expr_of(nodes, id), known).contains(k),
    ensures
        finite_at(nodes, k),
        expr_of(nodes, k).complete(),
    decreases expr_of(nodes, id),
{
    lemma_expr_step(nodes, id);
    if k != id {
        match nodes[id.0 as int].kind {
            NodeKind::Unary { value, .. } => {
                lemma_reached_complete(nodes, value, known, k);
            },
            NodeKind::Binary { left, right, .. } => {
                if reached(expr_of(nodes, left), known).contains(k) {
                    lemma_reached_complete(nodes, left, known, k);
                } else {
                    lemma_reached_complete(nodes, right, known, k);
                }
            },
            _ => {},
        }
    }
}

/// Evaluation with a valid cache gives the values of the expression, sample by
/// sample. It keeps every cached result and leaves the cache valid. It adds a
/// result exactly for each node computed on the way that the policy said to
/// keep: for all of them if the policy always says so, for none if it never
/// does.
pub proof fn lemma_cached_evaluation<Tag: Clone, P: CachePolicy<Tag>>(
    policy: P,
    nodes: Seq<ExprNode<Tag>>,
    id: NodeId,
    ops: Seq<OpMetadata>,
    inputs: Seq<Seq<Scalar>>,
    params: Seq<Scalar>,
    before: Map<NodeId, Seq<Scalar>>,
    after: Map<NodeId, Seq<Scalar>>,
)
    requires
        finite_at(nodes, id),
        expr_of(nodes, id).complete(),
        valid(nodes, ops, inputs, params, before),
        grown(policy, nodes, id, ops, inputs, params, before, after),
    ensures
        batch_value(expr_of(nodes, id), ops, inputs, params, before) == Seq::new(
            inputs.len(),
            |i: int| value(expr_of(nodes, id), ops, inputs[i], params),
        ),
        before.submap_of(after),
        valid(nodes, ops, inputs, params, after),
        forall|k: NodeId| #[trigger]
            after.contains_key(k) && !before.contains_key(k) ==> reached(
                expr_of(nodes, id),
                before.dom(),
            ).contains(k) && policy.answers(k, nodes[k.0 as int], true),
        forall|k: NodeId| #[trigger]
            reached(expr_of(nodes, id), before.dom()).contains(k) && !after.contains_key(k)
                ==> policy.answers(k, nodes[k.0 as int], false),
        (forall|k: NodeId, node: ExprNode<Tag>| !#[trigger] policy.answers(k, node, false))
            ==> after.dom() == before.dom().union(reached(expr_of(nodes, id), before.dom())),
        (forall|k: NodeId, node: ExprNode<Tag>| !#[trigger] policy.answers(k, node, true))
            ==> after == before,
{
    let none = Map::<NodeId, Seq<Scalar>>::empty();
    let met = reached(expr_of(nodes, id), before.dom());
    assert forall|k: NodeId| #[trigger] before.contains_key(k) implies before[k] == batch_value(
        expr_of(nodes, k),
        ops,
        inputs,
        params,
        none,
    ) by {
        lemma_batch_value_fresh(expr_of(nodes, k), ops, inputs, params);
    }
    lemma_valid_cache(nodes, id, ops, inputs, params, before);
    assert forall|k: NodeId| #[trigger] after.contains_key(k) implies finite_at(nodes, k)
        && expr_of(nodes, k).complete() && after[k] == Seq::new(
        inputs.len(),
        |i: int| value(expr_of(nodes, k), ops, inputs[i], params),
    ) by {
        if !before.contains_key(k) {
            lemma_reached_complete(nodes, id, before.dom(), k);
            lemma_valid_cache(nodes, k, ops, inputs, params, before);
        }
    }
    if forall|k: NodeId, node: ExprNode<Tag>| !#[trigger] policy.answers(k, node, false) {
        assert forall|k: NodeId| after.contains_key(k) <==> before.contains_key(k) || met.contains(
            k,
        ) by {}
        assert(after.dom() == before.dom().union(met));
    }
    if forall|k: NodeId, node: ExprNode<Tag>| !#[trigger] policy.answers(k, node, true) {
        assert(after == before);
    }
}

/// Vectorized evaluation context that memoizes selected nodes' batch results
/// in a caller-supplied [`EvalCache`], gated by a [`CachePolicy`].
pub struct CachedEvalContext<'a, 'b, Tag: Clone, P: CachePolicy<Tag>> {
    pub arena: &'a ExprArena<Tag>,
    pub ops: &'b OperationTable,
    pub policy: P,
}

impl<'a, 'b, Tag: Clone, P: CachePolicy<Tag>> CachedEvalContext<'a, 'b, Tag, P> {
    pub fn new(arena: &'a ExprArena<Tag>, ops: &'b OperationTable, policy: P) -> (r: Self)
        ensures
            r.arena == arena,
            r.ops == ops,
            r.policy == policy,
    {
        Self { arena, ops, policy }
    }

    /// Whether the expression at `node_id` is known, or can be evaluated with
    /// the results of `known` at hand, and the policy can be asked about each
    /// node that is computed.
    pub open spec fn serves(
        &self,
        node_id: NodeId,
        inputs: &Matrix,
        parameters: Seq<Scalar>,
        known: Map<NodeId, Seq<Scalar>>,
    ) -> bool {
        &&& known.contains_key(node_id) || {
            &&& self.arena.finite_at(node_id)
            &&& evaluable_beyond(
                self.arena.expr(node_id),
                self.ops.operations(),
                inputs.width(),
                parameters.len(),
                known.dom(),
            )
            &&& forall|k: NodeId| #[trigger]
                reached(self.arena.expr(node_id), known.dom()).contains(k) ==> self.policy.ready(
                    k,
                    self.arena.nodes()[k.0 as int],
                )
        }
        &&& allocatable(inputs@.len())
    }

    /// Whether an evaluation at `node_id` may leave `after` in a cache that
    /// held `before`.
    pub open spec fn keeps(
        &self,
        node_id: NodeId,
        inputs: &Matrix,
        parameters: Seq<Scalar>,
        before: Map<NodeId, Seq<Scalar>>,
        after: Map<NodeId, Seq<Scalar>>,
    ) -> bool {
        grown(
            self.policy,
            self.arena.nodes(),
            node_id,
            self.ops.operations(),
            inputs@,
            parameters,
            before,
            after,
        )
    }

    /// The results at `node_id`, with those of `known` taken as they are.
    pub open spec fn results(
        &self,
        node_id: NodeId,
        inputs: &Matrix,
        parameters: Seq<Scalar>,
        known: Map<NodeId, Seq<Scalar>>,
    ) -> Seq<Scalar> {
        batch_value(
            self.arena.expr(node_id),
            self.ops.operations(),
            inputs@,
            parameters,
            known,
        )
    }

    /// Evaluates the expression over a batch of inputs against one shared set
    /// of parameters, reusing scratch buffers from `stack` and memoized
    /// results from `cache`. Returns an owned result buffer; use
    /// [`EvalBufferStack::reclaim`] on it once done to return the allocation
    /// to the pool.
    ///
    /// ## Cache invalidation
    ///
    /// If `inputs.nrows()` != `cache.batch_size()`, the cache is cleared
    /// first. See [`EvalCache`] for what else invalidates a cached entry.
    ///
    /// ## Notes
    /// - `inputs` is expected to have shape `[batch_size, n_variables]`.
    /// - `parameters` holds one scalar per parameter slot, shared by every
    ///   sample in the batch.
    pub fn eval_batch(
        &self,
        node_id: NodeId,
        inputs: &Matrix,
        parameters: &[Scalar],
        cache: &mut EvalCache,
        stack: &mut EvalBufferStack,
    ) -> (r: Buffer)
        requires
            old(cache).wf(),
            self.serves(node_id, inputs, parameters@, usable(old(cache), inputs@.len())),
        ensures
            final(cache).wf(),
            final(cache).batch() == inputs@.len(),
            r@.len() == inputs@.len(),
            r@ == self.results(
                node_id,
                inputs,
                parameters@,
                usable(old(cache), inputs@.len()),
            ),
            self.keeps(
                node_id,
                inputs,
                parameters@,
                usable(old(cache), inputs@.len()),
                final(cache).contents(),
            ),
            usable(old(cache), inputs@.len()).contains_key(node_id) ==> {
                &&& r@ == usable(old(cache), inputs@.len())[node_id]
                &&& final(cache).contents() == usable(old(cache), inputs@.len())
            },
            pool_bounded(old(stack), final(stack), inputs@.len(), need(self.arena.expr(node_id))),
    {
        let batch: usize = inputs.nrows();
        if cache.batch != batch {
            cache.clear();
            cache.batch = batch;
            assert(cache.contents() == Map::<NodeId, Seq<Scalar>>::empty());
        }
        self.eval_batch_inner(node_id, inputs, parameters, cache, stack)
    }

    fn eval_batch_inner(
        &self,
        node_id: NodeId,
        inputs: &Matrix,
        parameters: &[Scalar],
        cache: &mut EvalCache,
        stack: &mut EvalBufferStack,
    ) -> (r: Buffer)
        requires
            old(cache).wf(),
            old(cache).batch() == inputs@.len(),
            self.serves(node_id, inputs, parameters@, old(cache).contents()),
        ensures
            final(cache).wf(),
            final(cache).batch() == inputs@.len(),
            r@.len() == inputs@.len(),
            r@ == self.results(node_id, inputs, parameters@, old(cache).contents()),
            self.keeps(
                node_id,
                inputs,
                parameters@,
                old(cache).contents(),
                final(cache).contents(),
            ),
            old(cache).contents().contains_key(node_id) ==> {
                &&& r@ == old(cache).contents()[node_id]
                &&& final(cache).contents() == old(cache).contents()
            },
            pool_bounded(old(stack), final(stack), inputs@.len(), need(self.arena.expr(node_id))),
        decreases self.arena.expr(node_id),
    {
        let ghost nodes = self.arena.nodes();
        let ghost ops = self.ops.operations();
        let ghost before = cache.contents();
        proof {
            lemma_expr_id(nodes, node_id);
            lemma_expr_step(nodes, node_id);
        }
        if let Some(cached) = cache.get(node_id) {
            let mut out = stack.acquire(cached.len());
            out.assign(cached);
            return out;
        }
        let node = self.arena.get_node(node_id).unwrap();
        let batch: usize = inputs.nrows();
        let ghost met = reached(self.arena.expr(node_id), before.dom());
        assert(met.contains(node_id));
        let result = match node.kind {
            NodeKind::Variable(var_id) => {
                let mut out = stack.acquire(batch);
                out.assign_column(inputs, *var_id as usize);
                out
            },
            NodeKind::Parameter(param_id) => {
                let mut out = stack.acquire(batch);
                out.fill(parameters[*param_id as usize]);
                out
            },
            NodeKind::Unary { value, op } => {
                assert forall|k: NodeId| #[trigger]
                    reached(self.arena.expr(value), before.dom()).contains(k) implies met.contains(
                    k,
                ) by {}
                let val = self.eval_batch_inner(value, inputs, parameters, cache, stack);
                let meta = self.ops.lookup_by_id(op).unwrap();
                let mut out = stack.acquire(batch);
                let operands = [&val];
                meta.call_vectorized(&operands, &mut out);
                assert forall|i: int| 0 <= i < out@.len() implies out@[i] == meta.value(
                    seq![val@[i]],
                ) by {
                    assert(operands_at(operands@, i) == seq![val@[i]]);
                }
                stack.reclaim(val);
                out
            },
            NodeKind::Binary { left, right, op } => {
                assert forall|k: NodeId| #[trigger]
                    reached(self.arena.expr(left), before.dom()).contains(k) implies met.contains(
                    k,
                ) by {}
                assert forall|k: NodeId| #[trigger]
                    reached(self.arena.expr(right), before.dom()).contains(k) implies met.contains(
                    k,
                ) by {}
                let l = self.eval_batch_inner(left, inputs, parameters, cache, stack);
                let ghost mid = cache.contents();
                proof {
                    assert(before.dom().subset_of(mid.dom()));
                    lemma_known_more(
                        expr_of(nodes, right),
                        ops,
                        inputs.width(),
                        parameters@.len(),
                        before.dom(),
                        mid.dom(),
                    );
                }
                let r = self.eval_batch_inner(right, inputs, parameters, cache, stack);
                proof {
                    lemma_grown_both(
                        self.policy,
                        nodes,
                        left,
                        right,
                        ops,
                        inputs@,
                        parameters@,
                        before,
                        mid,
                        cache.contents(),
                    );
                }
                let meta = self.ops.lookup_by_id(op).unwrap();
                let mut out = stack.acquire(batch);
                let operands = [&l, &r];
                meta.call_vectorized(&operands, &mut out);
                assert forall|i: int| 0 <= i < out@.len() implies out@[i] == meta.value(
                    seq![l@[i], r@[i]],
                ) by {
                    assert(operands_at(operands@, i) == seq![l@[i], r@[i]]);
                }
                stack.reclaim(l);
                stack.reclaim(r);
                out
            },
        };
        assert(result@ == self.results(node_id, inputs, parameters@, before));
        let ghost grown_below = cache.contents();
        assert forall|k: NodeId| #[trigger]
            grown_below.contains_key(k) && !before.contains_key(k) implies met.contains(k)
            && self.policy.answers(k, nodes[k.0 as int], true) && grown_below[k] == batch_value(
            expr_of(nodes, k),
            ops,
            inputs@,
            parameters@,
            before,
        ) by {}
        assert forall|k: NodeId| #[trigger]
            met.contains(k) && k != node_id && !grown_below.contains_key(
                k,
            ) implies self.policy.answers(k, nodes[k.0 as int], false) by {
            match node.kind {
                NodeKind::Unary { value, .. } => {
                    assert(reached(self.arena.expr(value), before.dom()).contains(k));
                },
                NodeKind::Binary { left, right, .. } => {
                    assert(reached(self.arena.expr(left), before.dom()).contains(k) || reached(
                        self.arena.expr(right),
                        before.dom(),
                    ).contains(k));
                },
                _ => {},
            }
        }
        if self.policy.should_cache(node_id, node) {
            cache.keep(node_id, &result);
        }
        result
    }
}

/// The results of a cache that are valid for batches of the given size.
pub open spec fn usable(cache: &EvalCache, batch: nat) -> Map<NodeId, Seq<Scalar>> {
    if cache.batch() == batch {
        cache.contents()
    } else {
        Map::empty()
    }
}

/// Whether a pool that served an evaluation over batches of the given size
/// grew by no more than the expression needs: once the result is reclaimed,
/// it holds at least what it held, and at most the larger of that and `most`.
pub open spec fn pool_bounded(
    before: &EvalBufferStack,
    after: &EvalBufferStack,
    batch: nat,
    most: nat,
) -> bool {
    &&& after.hint() == before.hint()
    &&& at_least(before.idle(batch), 1) <= after.idle(batch) + 1
    &&& after.idle(batch) + 1 <= at_least(before.idle(batch), most)
    &&& after.pool().len() + before.idle(batch) == before.pool().len() + after.idle(batch)
    &&& forall|other: nat| other != batch ==> #[trigger] after.idle(other) == before.idle(other)
}

/// A cache is used as it is for batches of its own size, and as if empty for
/// batches of another.
pub proof fn lemma_usable(cache: &EvalCache, batch: nat)
    ensures
        cache.batch() == batch ==> usable(cache, batch) == cache.contents(),
        cache.batch() != batch ==> usable(cache, batch) == Map::<NodeId, Seq<Scalar>>::empty(),
{
}

/// With a valid cache, each sample of a batch is what evaluation gives for its
/// row of inputs under the shared parameters, whatever the policy and the pool
/// hold.
pub proof fn lemma_cached<Tag: Clone, P: CachePolicy<Tag>>(
    context: &CachedEvalContext<'_, '_, Tag, P>,
    plain: &EvalContext<'_, '_, Tag>,
    node: NodeId,
    inputs: &Matrix,
    params: &[Scalar],
    r: Buffer,
    i: int,
    row: &Buffer,
    shared: &Buffer,
    single: Scalar,
)
    requires
        plain.arena == context.arena,
        plain.ops == context.ops,
        context.arena.finite_at(node),
        evaluable(
            context.arena.expr(node),
            context.ops.operations(),
            inputs.width(),
            params@.len(),
        ),
        exists|cache: &mut EvalCache, stack: &mut EvalBufferStack|
            {
                &&& cache.wf()
                &&& context.serves(node, inputs, params@, usable(&*cache, inputs@.len()))
                &&& valid(
                    context.arena.nodes(),
                    context.ops.operations(),
                    inputs@,
                    params@,
                    usable(&*cache, inputs@.len()),
                )
                &&& #[trigger] call_ensures(
                    CachedEvalContext::<Tag, P>::eval_batch,
                    (context, node, inputs, params, cache, stack),
                    r,
                )
            },
        0 <= i < inputs@.len(),
        row@ == inputs@[i],
        row@.len() == inputs.width(),
        shared@ == params@,
        call_ensures(EvalContext::<Tag>::eval, (plain, node, row, shared), single),
    ensures
        r@.len() == inputs@.len(),
        r@[i] == single,
{
    let nodes = context.arena.nodes();
    let ops = context.ops.operations();
    let (cache, stack) = choose|cache: &mut EvalCache, stack: &mut EvalBufferStack|
        {
            &&& cache.wf()
            &&& context.serves(node, inputs, params@, usable(&*cache, inputs@.len()))
            &&& valid(nodes, ops, inputs@, params@, usable(&*cache, inputs@.len()))
            &&& #[trigger] call_ensures(
                CachedEvalContext::<Tag, P>::eval_batch,
                (context, node, inputs, params, cache, stack),
                r,
            )
        };
    let known = usable(&*cache, inputs@.len());
    lemma_evaluable(context.arena.expr(node), ops, inputs.width(), params@.len());
    assert forall|k: NodeId| #[trigger] known.contains_key(k) implies known[k] == batch_value(
        expr_of(nodes, k),
        ops,
        inputs@,
        params@,
        Map::empty(),
    ) by {
        lemma_batch_value_fresh(expr_of(nodes, k), ops, inputs@, params@);
    }
    lemma_valid_cache(nodes, node, ops, inputs@, params@, known);
}

} // verus!
