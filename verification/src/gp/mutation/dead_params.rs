//! Elimination of parameters that no node reads any more.

use crate::ast::{lemma_walked_valid, ExprArena, ExprNode, NodeKind};
use crate::eval::{evaluable, value};
use crate::expr::{expr_of, finite_at, lemma_expr_step, lemma_walked_len, same_tags};
use crate::formula::formula;
use crate::ops::OpMetadata;
use crate::types::{NodeId, ParameterId, RootId, Scalar};
use vstd::prelude::*;

verus! {

/// The parameters that the visited nodes read, each once, in the order of the
/// first node that reads it.
pub open spec fn live<Tag: Clone>(
    nodes: Seq<ExprNode<Tag>>,
    visited: Seq<NodeId>,
) -> Seq<ParameterId>
    decreases visited.len(),
{
    if visited.len() == 0 {
        Seq::empty()
    } else {
        let before = live(nodes, visited.drop_last());
        match nodes[visited.last().0 as int].kind {
            NodeKind::Parameter(p) => if before.contains(p) {
                before
            } else {
                before.push(p)
            },
            _ => before,
        }
    }
}

/// The identifier of the slot that `p` has in `slots`.
pub open spec fn slot_of(slots: Seq<ParameterId>, p: ParameterId) -> ParameterId {
    ParameterId(slots.index_of(p) as u16)
}

/// The nodes with each parameter that a visited one reads replaced by its slot.
pub open spec fn renumbered<Tag: Clone>(
    nodes: Seq<ExprNode<Tag>>,
    visited: Seq<NodeId>,
    slots: Seq<ParameterId>,
) -> Seq<ExprNode<Tag>> {
    Seq::new(
        nodes.len(),
        |i: int|
            match nodes[i].kind {
                NodeKind::Parameter(p) => if visited.contains(NodeId(i as usize)) {
                    ExprNode { kind: NodeKind::Parameter(slot_of(slots, p)), tag: nodes[i].tag }
                } else {
                    nodes[i]
                },
                _ => nodes[i],
            },
    )
}

/// The values of the given parameters.
pub open spec fn values_of(params: Seq<Scalar>, slots: Seq<ParameterId>) -> Seq<Scalar> {
    Seq::new(slots.len(), |i: int| params[slots[i].0 as int])
}

/// The nodes visited under `root`, none if the root is invalid.
pub open spec fn visited_under<Tag: Clone>(arena: &ExprArena<Tag>, root: RootId) -> Seq<NodeId> {
    match arena.root_node(root) {
        Some(node) => arena.expr(node).walked(),
        None => Seq::empty(),
    }
}

/// Whether the visited nodes read only the first `n` parameters.
pub open spec fn reads_below<Tag: Clone>(
    nodes: Seq<ExprNode<Tag>>,
    visited: Seq<NodeId>,
    n: nat,
) -> bool {
    forall|i: int|
        0 <= i < visited.len() ==> (nodes[(#[trigger] visited[i]).0 as int].kind matches NodeKind::Parameter(
            p,
        ) ==> p.0 < n)
}

/// The parameters kept are distinct, and are those that the visited nodes read.
proof fn lemma_live<Tag: Clone>(nodes: Seq<ExprNode<Tag>>, visited: Seq<NodeId>)
    ensures
        live(nodes, visited).no_duplicates(),
        forall|i: int|
            0 <= i < visited.len() ==> (nodes[(#[trigger] visited[i]).0 as int].kind matches NodeKind::Parameter(
                p,
            ) ==> live(nodes, visited).contains(p)),
        forall|q: int|
            0 <= q < live(nodes, visited).len() ==> exists|i: int|
                0 <= i < visited.len() && nodes[(#[trigger] visited[i]).0 as int].kind
                    == NodeKind::Parameter(#[trigger] live(nodes, visited)[q]),
    decreases visited.len(),
{
    if visited.len() > 0 {
        let shorter = visited.drop_last();
        lemma_live(nodes, shorter);
        let before = live(nodes, shorter);
        let all = live(nodes, visited);
        assert(forall|i: int| 0 <= i < shorter.len() ==> shorter[i] == #[trigger] visited[i]);
        assert forall|i: int| 0 <= i < visited.len() implies (nodes[(#[trigger] visited[i]).0 as int].kind matches NodeKind::Parameter(
            p,
        ) ==> all.contains(p)) by {
            if let NodeKind::Parameter(p) = nodes[visited[i].0 as int].kind {
                if i < shorter.len() {
                    assert(shorter[i] == visited[i]);
                    assert(before.contains(p));
                    let k = before.index_of(p);
                    assert(all[k] == p);
                } else if !before.contains(p) {
                    assert(all[before.len() as int] == p);
                }
            }
        }
        assert forall|q: int| 0 <= q < all.len() implies exists|i: int|
            0 <= i < visited.len() && nodes[(#[trigger] visited[i]).0 as int].kind
                == NodeKind::Parameter(#[trigger] all[q]) by {
            if q < before.len() {
                assert(before[q] == all[q]);
                let i = choose|i: int|
                    0 <= i < shorter.len() && nodes[(#[trigger] shorter[i]).0 as int].kind
                        == NodeKind::Parameter(before[q]);
                assert(shorter[i] == visited[i]);
            } else {
                assert(visited[visited.len() - 1] == visited.last());
            }
        }
    }
}

/// Distinct parameter identifiers are no more than there are identifiers.
proof fn lemma_distinct_bound(slots: Seq<ParameterId>)
    requires
        slots.no_duplicates(),
    ensures
        slots.len() <= 65536,
{
    let f = |p: ParameterId| p.0 as int;
    let numbers = slots.map_values(f);
    assert(numbers.no_duplicates());
    numbers.unique_seq_to_set();
    let range = vstd::set_lib::set_int_range(0, 65536);
    vstd::set_lib::lemma_int_range(0, 65536);
    assert(numbers.to_set().subset_of(range));
    vstd::set_lib::lemma_len_subset(numbers.to_set(), range);
}

/// The slot of a parameter that is kept.
proof fn lemma_slot(slots: Seq<ParameterId>, p: ParameterId, q: int)
    requires
        slots.no_duplicates(),
        0 <= q < slots.len(),
        slots[q] == p,
    ensures
        slots.index_of(p) == q,
        slot_of(slots, p).0 == q,
{
    assert(slots.contains(p));
    let k = slots.index_of(p);
    assert(slots[k] == p);
    lemma_distinct_bound(slots);
}

/// Compact `params` to only the parameters still referenced by the tree at
/// `root`, renumbering survivors densely and rewriting the `Parameter` node ids
/// in place. Survivors are numbered in first-encounter (DFS pre-order) order.
pub fn eliminate_dead_params<Tag: Clone>(
    arena: &mut ExprArena<Tag>,
    params: &mut Vec<Scalar>,
    root: RootId,
)
    requires
        old(arena).root_node(root) matches Some(node) ==> old(arena).finite_at(node),
        reads_below(
            old(arena).nodes(),
            visited_under(old(arena), root),
            old(params)@.len(),
        ),
    ensures
        ({
            let visited = visited_under(old(arena), root);
            let slots = live(old(arena).nodes(), visited);
            &&& final(arena).nodes() == renumbered(old(arena).nodes(), visited, slots)
            &&& final(arena).roots() == old(arena).roots()
            &&& final(params)@ == values_of(old(params)@, slots)
        }),
{
    let ghost nodes = arena.nodes();
    let ghost visited = visited_under(arena, root);
    let ids: Vec<NodeId> = match arena.walk_root(root) {
        Some(walk) => walk.collect(),
        None => Vec::new(),
    };
    proof {
        arena.lemma_lengths();
        if let Some(node) = arena.root_node(root) {
            lemma_walked_valid(nodes, node);
        }
        assert(ids@ == visited);
    }
    // First-encounter remap: old ParameterId -> new dense id, building new vec.
    let mut remap: Vec<Option<ParameterId>> = Vec::new();
    while remap.len() < params.len()
        invariant
            remap@.len() <= params@.len(),
            forall|i: int| 0 <= i < remap@.len() ==> (#[trigger] remap@[i]) is None,
        decreases params.len() - remap.len(),
    {
        remap.push(None);
    }
    let mut new_params: Vec<Scalar> = Vec::new();
    // The new id of each visited node that reads a parameter.
    let mut renames: Vec<Option<ParameterId>> = Vec::new();
    let ghost mut slots = Seq::<ParameterId>::empty();
    let mut k: usize = 0;
    while k < ids.len()
        invariant
            k <= ids@.len(),
            ids@ == visited,
            arena.nodes() == nodes,
            *arena == *old(arena),
            *params == *old(params),
            forall|i: int| 0 <= i < visited.len() ==> (#[trigger] visited[i]).0 < nodes.len(),
            reads_below(nodes, visited, params@.len()),
            slots == live(nodes, visited.take(k as int)),
            slots.no_duplicates(),
            remap@.len() == params@.len(),
            forall|p: int|
                0 <= p < remap@.len() && p < 65536 ==> match #[trigger] remap@[p] {
                    Some(q) => q.0 < slots.len() && slots[q.0 as int].0 == p,
                    None => !slots.contains(ParameterId(p as u16)),
                },
            new_params@ == values_of(params@, slots),
            renames@.len() == k,
            forall|i: int|
                0 <= i < k ==> match nodes[visited[i].0 as int].kind {
                    NodeKind::Parameter(p) => (#[trigger] renames@[i]) matches Some(q) && q.0
                        < slots.len() && slots[q.0 as int] == p,
                    _ => renames@[i] is None,
                },
        decreases ids.len() - k,
    {
        let id = ids[k];
        let ghost next = visited.take(k + 1);
        proof {
            assert(next.drop_last() == visited.take(k as int));
            assert(next.last() == visited[k as int]);
        }
        let node = arena.get_node(id).unwrap();
        if let NodeKind::Parameter(pid) = node.kind {
            let at: usize = *pid as usize;
            assert(pid.0 < params@.len());
            match remap[at] {
                Some(new) => {
                    assert(slots[new.0 as int] == pid);
                    assert(slots.contains(pid));
                    renames.push(Some(new));
                },
                None => {
                    let ghost before = slots;
                    proof {
                        assert(!before.contains(pid));
                        slots = before.push(pid);
                        lemma_distinct_bound(slots);
                    }
                    let new = ParameterId(new_params.len() as u16);
                    remap.set(at, Some(new));
                    new_params.push(params[at]);
                    renames.push(Some(new));
                    proof {
                        assert(new_params@ == values_of(params@, slots));
                        assert forall|p: int| 0 <= p < remap@.len() && p < 65536 implies match #[trigger] remap@[p] {
                            Some(q) => q.0 < slots.len() && slots[q.0 as int].0 == p,
                            None => !slots.contains(ParameterId(p as u16)),
                        } by {
                            if p != at {
                                match remap@[p] {
                                    Some(q) => {
                                        assert(slots[q.0 as int] == before[q.0 as int]);
                                    },
                                    None => {
                                        assert(!before.contains(ParameterId(p as u16)));
                                        assert(ParameterId(p as u16) != pid);
                                    },
                                }
                            }
                        }
                        assert forall|i: int| 0 <= i < k implies match nodes[visited[i].0 as int].kind {
                            NodeKind::Parameter(p) => (#[trigger] renames@[i]) matches Some(q)
                                && q.0 < slots.len() && slots[q.0 as int] == p,
                            _ => renames@[i] is None,
                        } by {
                            if let Some(q) = renames@[i] {
                                assert(slots[q.0 as int] == before[q.0 as int]);
                            }
                        }
                    }
                },
            }
        } else {
            renames.push(None);
        }
        k += 1;
    }
    assert(visited.take(k as int) == visited);
    // Rewrite parameter node ids in place.
    let mut j: usize = 0;
    assert(arena.nodes() == renumbered(nodes, visited.take(0), slots));
    while j < ids.len()
        invariant
            j <= ids@.len(),
            ids@ == visited,
            renames@.len() == visited.len(),
            slots.no_duplicates(),
            nodes.len() <= usize::MAX,
            forall|i: int| 0 <= i < visited.len() ==> (#[trigger] visited[i]).0 < nodes.len(),
            forall|i: int|
                0 <= i < visited.len() ==> match nodes[visited[i].0 as int].kind {
                    NodeKind::Parameter(p) => (#[trigger] renames@[i]) matches Some(q) && q.0
                        < slots.len() && slots[q.0 as int] == p,
                    _ => renames@[i] is None,
                },
            arena.nodes() == renumbered(nodes, visited.take(j as int), slots),
            arena.roots() == old(arena).roots(),
        decreases ids.len() - j,
    {
        let id = ids[j];
        let ghost done = visited.take(j as int);
        let ghost next = visited.take(j + 1);
        let ghost now = arena.nodes();
        proof {
            assert(next == done.push(id));
            assert forall|x: NodeId| next.contains(x) <==> done.contains(x) || x == id by {
                if done.contains(x) {
                    let w = done.index_of(x);
                    assert(next[w] == x);
                }
                if x == id {
                    assert(next[j as int] == x);
                }
                if next.contains(x) && x != id {
                    let w = next.index_of(x);
                    assert(done[w] == x);
                }
            }
        }
        if let Some(new) = renames[j] {
            let ghost p = nodes[id.0 as int].kind->Parameter_0;
            proof {
                lemma_slot(slots, p, new.0 as int);
            }
            let node = arena.get_node_mut(id).unwrap();
            node.kind = NodeKind::Parameter(new);
        }
        proof {
            let want = renumbered(nodes, next, slots);
            assert forall|i: int| 0 <= i < nodes.len() implies arena.nodes()[i] == want[i] by {
                assert(now[i] == renumbered(nodes, done, slots)[i]);
                assert(next.contains(NodeId(i as usize)) <==> done.contains(NodeId(i as usize))
                    || i == id.0);
            }
            assert(arena.nodes() == want);
        }
        j += 1;
    }
    assert(visited.take(j as int) == visited);
    *params = new_params;
}

/// The parameters that a complete tree reads are those of its parameter nodes.
pub proof fn lemma_walked_parameters<Tag: Clone>(nodes: Seq<ExprNode<Tag>>, id: NodeId)
    requires
        finite_at(nodes, id),
        expr_of(nodes, id).complete(),
    ensures
        forall|i: int|
            0 <= i < expr_of(nodes, id).walked().len() ==> (nodes[(#[trigger] expr_of(
                nodes,
                id,
            ).walked()[i]).0 as int].kind matches NodeKind::Parameter(p) ==> expr_of(
                nodes,
                id,
            ).parameters().contains(p)),
    decreases expr_of(nodes, id),
{
    lemma_expr_step(nodes, id);
    let e = expr_of(nodes, id);
    let w = e.walked();
    match nodes[id.0 as int].kind {
        NodeKind::Parameter(p) => {
            assert(e.parameters()[0] == p);
        },
        NodeKind::Unary { value, .. } => {
            lemma_walked_parameters(nodes, value);
            assert forall|i: int| 0 <= i < w.len() implies (nodes[(#[trigger] w[i]).0 as int].kind matches NodeKind::Parameter(
                p,
            ) ==> e.parameters().contains(p)) by {
                if i > 0 {
                    assert(w[i] == expr_of(nodes, value).walked()[i - 1]);
                }
            }
        },
        NodeKind::Binary { left, right, .. } => {
            lemma_walked_parameters(nodes, left);
            lemma_walked_parameters(nodes, right);
            let l = expr_of(nodes, left);
            let r = expr_of(nodes, right);
            assert forall|i: int| 0 <= i < w.len() implies (nodes[(#[trigger] w[i]).0 as int].kind matches NodeKind::Parameter(
                p,
            ) ==> e.parameters().contains(p)) by {
                if let NodeKind::Parameter(p) = nodes[w[i].0 as int].kind {
                    if 0 < i <= l.walked().len() {
                        assert(w[i] == l.walked()[i - 1]);
                        let k = l.parameters().index_of(p);
                        assert(e.parameters()[k] == p);
                    } else if i > 0 {
                        assert(w[i] == r.walked()[i - 1 - l.walked().len()]);
                        let k = r.parameters().index_of(p);
                        assert(e.parameters()[l.parameters().len() + k] == p);
                    }
                }
            }
        },
        _ => {},
    }
}

/// Renumbering keeps a complete tree as it is but for its parameters, which
/// become their slots, and its value stays the same under the values kept.
pub proof fn lemma_renumbered<Tag: Clone>(
    nodes: Seq<ExprNode<Tag>>,
    id: NodeId,
    visited: Seq<NodeId>,
    slots: Seq<ParameterId>,
    ops: Seq<OpMetadata>,
    inputs: Seq<Scalar>,
    params: Seq<Scalar>,
)
    requires
        nodes.len() <= usize::MAX,
        finite_at(nodes, id),
        expr_of(nodes, id).complete(),
        slots.no_duplicates(),
        forall|i: int|
            0 <= i < expr_of(nodes, id).walked().len() ==> visited.contains(
                #[trigger] expr_of(nodes, id).walked()[i],
            ),
        forall|i: int|
            0 <= i < expr_of(nodes, id).parameters().len() ==> slots.contains(
                #[trigger] expr_of(nodes, id).parameters()[i],
            ),
    ensures
        ({
            let e = expr_of(nodes, id);
            let new = renumbered(nodes, visited, slots);
            let f = expr_of(new, id);
            let kept = values_of(params, slots);
            &&& finite_at(new, id)
            &&& f.complete()
            &&& f.walked() == e.walked()
            &&& f.weight() == e.weight()
            &&& f.parameters() == e.parameters().map_values(|p: ParameterId| slot_of(slots, p))
            &&& formula(f, kept) == formula(e, params)
            &&& same_tags(e, f)
            &&& value(f, ops, inputs, kept) == value(e, ops, inputs, params)
            &&& evaluable(e, ops, inputs.len(), params.len()) ==> evaluable(
                f,
                ops,
                inputs.len(),
                kept.len(),
            )
        }),
    decreases expr_of(nodes, id),
{
    let e = expr_of(nodes, id);
    let new = renumbered(nodes, visited, slots);
    let f = expr_of(new, id);
    lemma_expr_step(nodes, id);
    lemma_expr_step(new, id);
    lemma_walked_len(e);
    assert(e.walked()[0] == id);
    assert(new[id.0 as int].tag == nodes[id.0 as int].tag);
    match nodes[id.0 as int].kind {
        NodeKind::Parameter(p) => {
            assert(e.parameters()[0] == p);
            assert(slots.contains(p));
            lemma_slot(slots, p, slots.index_of(p));
            assert(f.parameters() == e.parameters().map_values(
                |p: ParameterId| slot_of(slots, p),
            ));
        },
        NodeKind::Unary { value: v, .. } => {
            let x = expr_of(nodes, v);
            assert forall|i: int| 0 <= i < x.walked().len() implies visited.contains(
                #[trigger] x.walked()[i],
            ) by {
                assert(e.walked()[i + 1] == x.walked()[i]);
            }
            lemma_renumbered(nodes, v, visited, slots, ops, inputs, params);
        },
        NodeKind::Binary { left, right, .. } => {
            let l = expr_of(nodes, left);
            let r = expr_of(nodes, right);
            assert forall|i: int| 0 <= i < l.walked().len() implies visited.contains(
                #[trigger] l.walked()[i],
            ) by {
                assert(e.walked()[i + 1] == l.walked()[i]);
            }
            assert forall|i: int| 0 <= i < r.walked().len() implies visited.contains(
                #[trigger] r.walked()[i],
            ) by {
                assert(e.walked()[i + 1 + l.walked().len()] == r.walked()[i]);
            }
            assert forall|i: int| 0 <= i < l.parameters().len() implies slots.contains(
                #[trigger] l.parameters()[i],
            ) by {
                assert(e.parameters()[i] == l.parameters()[i]);
            }
            assert forall|i: int| 0 <= i < r.parameters().len() implies slots.contains(
                #[trigger] r.parameters()[i],
            ) by {
                assert(e.parameters()[l.parameters().len() + i] == r.parameters()[i]);
            }
            lemma_renumbered(nodes, left, visited, slots, ops, inputs, params);
            lemma_renumbered(nodes, right, visited, slots, ops, inputs, params);
            assert(f.parameters() == e.parameters().map_values(
                |p: ParameterId| slot_of(slots, p),
            ));
        },
        _ => {},
    }
}

/// Every parameter that a complete tree reads is read by a node visited.
proof fn lemma_parameters_walked<Tag: Clone>(
    nodes: Seq<ExprNode<Tag>>,
    id: NodeId,
    k: int,
) -> (i: int)
    requires
        finite_at(nodes, id),
        expr_of(nodes, id).complete(),
        0 <= k < expr_of(nodes, id).parameters().len(),
    ensures
        0 <= i < expr_of(nodes, id).walked().len(),
        nodes[expr_of(nodes, id).walked()[i].0 as int].kind == NodeKind::Parameter(
            expr_of(nodes, id).parameters()[k],
        ),
    decreases expr_of(nodes, id),
{
    lemma_expr_step(nodes, id);
    let e = expr_of(nodes, id);
    match nodes[id.0 as int].kind {
        NodeKind::Unary { value: v, .. } => {
            let i = lemma_parameters_walked(nodes, v, k);
            assert(e.walked()[i + 1] == expr_of(nodes, v).walked()[i]);
            i + 1
        },
        NodeKind::Binary { left, right, .. } => {
            let l = expr_of(nodes, left);
            let r = expr_of(nodes, right);
            if k < l.parameters().len() {
                let i = lemma_parameters_walked(nodes, left, k);
                assert(e.walked()[i + 1] == l.walked()[i]);
                i + 1
            } else {
                let i = lemma_parameters_walked(nodes, right, k - l.parameters().len());
                assert(e.walked()[i + 1 + l.walked().len()] == r.walked()[i]);
                i + 1 + l.walked().len()
            }
        },
        _ => 0,
    }
}

/// The parameters kept for a complete tree are exactly those that it reads.
pub proof fn lemma_live_parameters<Tag: Clone>(nodes: Seq<ExprNode<Tag>>, id: NodeId)
    requires
        finite_at(nodes, id),
        expr_of(nodes, id).complete(),
    ensures
        live(nodes, expr_of(nodes, id).walked()).no_duplicates(),
        forall|p: ParameterId|
            live(nodes, expr_of(nodes, id).walked()).contains(p) <==> #[trigger] expr_of(
                nodes,
                id,
            ).parameters().contains(p),
{
    let e = expr_of(nodes, id);
    let slots = live(nodes, e.walked());
    lemma_live(nodes, e.walked());
    lemma_walked_parameters(nodes, id);
    assert forall|p: ParameterId| slots.contains(p) <==> #[trigger] e.parameters().contains(p) by {
        if slots.contains(p) {
            let q = slots.index_of(p);
            let i = choose|i: int|
                0 <= i < e.walked().len() && nodes[(#[trigger] e.walked()[i]).0 as int].kind
                    == NodeKind::Parameter(slots[q]);
            assert(e.parameters().contains(p));
        }
        if e.parameters().contains(p) {
            let k = e.parameters().index_of(p);
            let i = lemma_parameters_walked(nodes, id, k);
            assert(slots.contains(p));
        }
    }
}

/// Eliminating dead parameters changes no value of the tree, on any inputs;
/// and every parameter that is left is read by it.
pub proof fn lemma_elimination_sound<Tag: Clone>(
    nodes: Seq<ExprNode<Tag>>,
    id: NodeId,
    ops: Seq<OpMetadata>,
    inputs: Seq<Scalar>,
    params: Seq<Scalar>,
)
    requires
        nodes.len() <= usize::MAX,
        finite_at(nodes, id),
        expr_of(nodes, id).complete(),
    ensures
        ({
            let e = expr_of(nodes, id);
            let slots = live(nodes, e.walked());
            let new = renumbered(nodes, e.walked(), slots);
            let kept = values_of(params, slots);
            let f = expr_of(new, id);
            &&& finite_at(new, id)
            &&& f.complete()
            &&& f.walked() == e.walked()
            &&& f.weight() == e.weight()
            &&& formula(f, kept) == formula(e, params)
            &&& same_tags(e, f)
            &&& value(f, ops, inputs, kept) == value(e, ops, inputs, params)
            &&& evaluable(e, ops, inputs.len(), params.len()) ==> evaluable(
                f,
                ops,
                inputs.len(),
                kept.len(),
            )
            &&& f.params_below(kept.len())
            &&& kept.len() <= 65536
            &&& forall|p: ParameterId|
                p.0 < kept.len() ==> #[trigger] f.parameters().contains(p)
        }),
{
    let e = expr_of(nodes, id);
    let visited = e.walked();
    let slots = live(nodes, visited);
    let new = renumbered(nodes, visited, slots);
    let f = expr_of(new, id);
    lemma_live_parameters(nodes, id);
    assert forall|i: int| 0 <= i < e.parameters().len() implies slots.contains(
        #[trigger] e.parameters()[i],
    ) by {
        assert(e.parameters().contains(e.parameters()[i]));
    }
    lemma_renumbered(nodes, id, visited, slots, ops, inputs, params);
    lemma_distinct_bound(slots);
    assert forall|i: int| 0 <= i < f.parameters().len() implies (#[trigger] f.parameters()[i]).0
        < slots.len() by {
        let p = e.parameters()[i];
        assert(slots.contains(p));
        lemma_slot(slots, p, slots.index_of(p));
    }
    assert forall|s: ParameterId| s.0 < slots.len() implies #[trigger] f.parameters().contains(
        s,
    ) by {
        let p = slots[s.0 as int];
        assert(slots.contains(p));
        assert(e.parameters().contains(p));
        let k = e.parameters().index_of(p);
        lemma_slot(slots, p, s.0 as int);
        assert(f.parameters()[k] == s);
    }
}

/// The parameters kept for fewer nodes come first among those kept for more.
proof fn lemma_live_prefix<Tag: Clone>(
    nodes: Seq<ExprNode<Tag>>,
    visited: Seq<NodeId>,
    k: int,
)
    requires
        0 <= k <= visited.len(),
    ensures
        live(nodes, visited.take(k)).is_prefix_of(live(nodes, visited)),
    decreases visited.len(),
{
    if k == visited.len() {
        assert(visited.take(k) == visited);
    } else {
        lemma_live_prefix(nodes, visited.drop_last(), k);
        assert(visited.drop_last().take(k) == visited.take(k));
    }
}

/// After an elimination, slot `q` is the one read `q`-th first.
proof fn lemma_live_renumbered<Tag: Clone>(
    nodes: Seq<ExprNode<Tag>>,
    visited: Seq<NodeId>,
    k: int,
)
    requires
        nodes.len() <= usize::MAX,
        0 <= k <= visited.len(),
        forall|i: int| 0 <= i < visited.len() ==> (#[trigger] visited[i]).0 < nodes.len(),
    ensures
        ({
            let slots = live(nodes, visited);
            live(renumbered(nodes, visited, slots), visited.take(k)) == Seq::new(
                live(nodes, visited.take(k)).len(),
                |q: int| ParameterId(q as u16),
            )
        }),
    decreases k,
{
    let slots = live(nodes, visited);
    let new = renumbered(nodes, visited, slots);
    lemma_live(nodes, visited);
    lemma_distinct_bound(slots);
    lemma_live_prefix(nodes, visited, k);
    let part = visited.take(k);
    let have = live(nodes, part);
    if k > 0 {
        lemma_live_renumbered(nodes, visited, k - 1);
        assert(part.drop_last() == visited.take(k - 1));
        lemma_live_prefix(nodes, visited, k - 1);
        let before = live(nodes, visited.take(k - 1));
        let renamed = live(new, visited.take(k - 1));
        let at = visited[k - 1];
        assert(part.last() == at);
        if let NodeKind::Parameter(p) = nodes[at.0 as int].kind {
            assert(visited.contains(at));
            assert(NodeId(at.0 as int as usize) == at);
            assert(new[at.0 as int].kind == NodeKind::Parameter(slot_of(slots, p)));
            if before.contains(p) {
                let q = before.index_of(p);
                assert(slots[q] == p);
                lemma_slot(slots, p, q);
                assert(renamed[q] == ParameterId(q as u16));
                assert(renamed.contains(slot_of(slots, p)));
            } else {
                let q = before.len() as int;
                assert(have == before.push(p));
                assert(slots[q] == have[q]);
                lemma_slot(slots, p, q);
                assert(!renamed.contains(slot_of(slots, p))) by {
                    if renamed.contains(slot_of(slots, p)) {
                        let w = renamed.index_of(slot_of(slots, p));
                        assert(renamed[w] == ParameterId(w as u16));
                    }
                }
            }
        }
        assert(live(new, part) == Seq::new(have.len(), |q: int| ParameterId(q as u16)));
    } else {
        assert(live(new, part) == Seq::new(have.len(), |q: int| ParameterId(q as u16)));
    }
}

/// A second elimination changes nothing.
pub proof fn lemma_elimination_idempotent<Tag: Clone>(
    nodes: Seq<ExprNode<Tag>>,
    visited: Seq<NodeId>,
    params: Seq<Scalar>,
)
    requires
        nodes.len() <= usize::MAX,
        forall|i: int| 0 <= i < visited.len() ==> (#[trigger] visited[i]).0 < nodes.len(),
    ensures
        ({
            let slots = live(nodes, visited);
            let new = renumbered(nodes, visited, slots);
            let kept = values_of(params, slots);
            let again = live(new, visited);
            &&& renumbered(new, visited, again) == new
            &&& values_of(kept, again) == kept
        }),
{
    let slots = live(nodes, visited);
    let new = renumbered(nodes, visited, slots);
    let kept = values_of(params, slots);
    let again = live(new, visited);
    lemma_live(nodes, visited);
    lemma_distinct_bound(slots);
    lemma_live_renumbered(nodes, visited, visited.len() as int);
    assert(visited.take(visited.len() as int) == visited);
    assert(again == Seq::new(slots.len(), |q: int| ParameterId(q as u16)));
    assert(again.no_duplicates());
    assert(values_of(kept, again) == kept);
    assert forall|i: int| 0 <= i < new.len() implies renumbered(new, visited, again)[i]
        == new[i] by {
        if let NodeKind::Parameter(p) = nodes[i].kind {
            if visited.contains(NodeId(i as usize)) {
                let w = visited.index_of(NodeId(i as usize));
                assert(visited[w].0 == i);
                assert(slots.contains(p));
                let q = slots.index_of(p);
                lemma_slot(slots, p, q);
                assert(again[q] == slot_of(slots, p));
                lemma_slot(again, slot_of(slots, p), q);
            }
        }
    }
    assert(renumbered(new, visited, again) == new);
}

} // verus!
