//! The mathematical model of expressions.
//!
//! An arena is a flat table of nodes that refer to each other by index. The
//! tree that a node stands for is an [`Expr`], each of whose parts carries the
//! index of the node it was read from.

use crate::ast::{ExprNode, NodeKind};
use crate::types::{NodeId, OperationId, ParameterId, VariableId};
use vstd::prelude::*;

verus! {

/// The tree that a node of an arena stands for.
pub enum Expr<Tag> {
    /// The identifier of no node.
    Missing { id: NodeId },
    /// A read of an input variable.
    Variable { id: NodeId, var: VariableId, tag: Tag },
    /// A read of a parameter.
    Parameter { id: NodeId, param: ParameterId, tag: Tag },
    /// An operation on one operand.
    Unary { id: NodeId, op: OperationId, tag: Tag, value: Box<Expr<Tag>> },
    /// An operation on two operands.
    Binary { id: NodeId, op: OperationId, tag: Tag, left: Box<Expr<Tag>>, right: Box<Expr<Tag>> },
}

/// Whether every path down from `id` ends after fewer than `fuel` steps.
pub open spec fn unfolds<Tag: Clone>(nodes: Seq<ExprNode<Tag>>, id: NodeId, fuel: nat) -> bool
    decreases fuel,
{
    fuel > 0 && (id.0 < nodes.len() ==> match nodes[id.0 as int].kind {
        NodeKind::Unary { value, .. } => unfolds(nodes, value, (fuel - 1) as nat),
        NodeKind::Binary { left, right, .. } => unfolds(nodes, left, (fuel - 1) as nat) && unfolds(
            nodes,
            right,
            (fuel - 1) as nat,
        ),
        _ => true,
    })
}

/// The tree under `id`, read down to depth `fuel`.
pub open spec fn expr_within<Tag: Clone>(
    nodes: Seq<ExprNode<Tag>>,
    id: NodeId,
    fuel: nat,
) -> Expr<Tag>
    decreases fuel,
{
    if fuel == 0 || id.0 >= nodes.len() {
        Expr::Missing { id }
    } else {
        let node = nodes[id.0 as int];
        match node.kind {
            NodeKind::Variable(var) => Expr::Variable { id, var, tag: node.tag },
            NodeKind::Parameter(param) => Expr::Parameter { id, param, tag: node.tag },
            NodeKind::Unary { value, op } => Expr::Unary {
                id,
                op,
                tag: node.tag,
                value: Box::new(expr_within(nodes, value, (fuel - 1) as nat)),
            },
            NodeKind::Binary { left, right, op } => Expr::Binary {
                id,
                op,
                tag: node.tag,
                left: Box::new(expr_within(nodes, left, (fuel - 1) as nat)),
                right: Box::new(expr_within(nodes, right, (fuel - 1) as nat)),
            },
        }
    }
}

/// Whether the nodes reachable from `id` form no cycle, so that `id` stands
/// for a finite tree.
pub open spec fn finite_at<Tag: Clone>(nodes: Seq<ExprNode<Tag>>, id: NodeId) -> bool {
    exists|fuel: nat| unfolds(nodes, id, fuel)
}

/// The tree that `id` stands for, where [`finite_at`] holds.
pub closed spec fn expr_of<Tag: Clone>(nodes: Seq<ExprNode<Tag>>, id: NodeId) -> Expr<Tag> {
    expr_within(nodes, id, choose|fuel: nat| unfolds(nodes, id, fuel))
}

impl<Tag> Expr<Tag> {
    /// The identifier of the root.
    pub open spec fn id(self) -> NodeId {
        match self {
            Expr::Missing { id } => id,
            Expr::Variable { id, .. } => id,
            Expr::Parameter { id, .. } => id,
            Expr::Unary { id, .. } => id,
            Expr::Binary { id, .. } => id,
        }
    }

    /// Whether no identifier in the tree is dangling.
    pub open spec fn complete(self) -> bool
        decreases self,
    {
        match self {
            Expr::Missing { .. } => false,
            Expr::Variable { .. } => true,
            Expr::Parameter { .. } => true,
            Expr::Unary { value, .. } => value.complete(),
            Expr::Binary { left, right, .. } => left.complete() && right.complete(),
        }
    }

    /// Number of identifiers in the tree, dangling ones included.
    pub open spec fn weight(self) -> nat
        decreases self,
    {
        match self {
            Expr::Unary { value, .. } => 1 + value.weight(),
            Expr::Binary { left, right, .. } => 1 + left.weight() + right.weight(),
            _ => 1,
        }
    }

    /// Longest path from the root to a leaf, in steps.
    pub open spec fn depth(self) -> nat
        decreases self,
    {
        match self {
            Expr::Unary { value, .. } => 1 + value.depth(),
            Expr::Binary { left, right, .. } => {
                let l = left.depth();
                let r = right.depth();
                1 + if l < r { r } else { l }
            },
            _ => 0,
        }
    }

    /// Whether every path from the root to a leaf has exactly `depth` steps.
    pub open spec fn full(self, depth: nat) -> bool
        decreases self,
    {
        match self {
            Expr::Unary { value, .. } => depth > 0 && value.full((depth - 1) as nat),
            Expr::Binary { left, right, .. } => depth > 0 && left.full((depth - 1) as nat)
                && right.full((depth - 1) as nat),
            _ => depth == 0,
        }
    }

    /// Whether every identifier in the tree is at least `base`.
    pub open spec fn ids_from(self, base: nat) -> bool
        decreases self,
    {
        match self {
            Expr::Unary { id, value, .. } => id.0 >= base && value.ids_from(base),
            Expr::Binary { id, left, right, .. } => id.0 >= base && left.ids_from(base)
                && right.ids_from(base),
            _ => self.id().0 >= base,
        }
    }

    /// Whether every parameter read is one of the first `n`.
    pub open spec fn params_below(self, n: nat) -> bool {
        forall|i: int| 0 <= i < self.parameters().len() ==> (#[trigger] self.parameters()[i]).0 < n
    }

    /// The parameters read, from left to right.
    pub open spec fn parameters(self) -> Seq<ParameterId>
        decreases self,
    {
        match self {
            Expr::Parameter { param, .. } => seq![param],
            Expr::Unary { value, .. } => value.parameters(),
            Expr::Binary { left, right, .. } => left.parameters() + right.parameters(),
            _ => Seq::empty(),
        }
    }

    /// The identifiers met in depth-first pre-order, operands left to right,
    /// up to the first dangling one.
    pub open spec fn walked(self) -> Seq<NodeId>
        decreases self,
    {
        match self {
            Expr::Missing { .. } => Seq::empty(),
            Expr::Variable { id, .. } => seq![id],
            Expr::Parameter { id, .. } => seq![id],
            Expr::Unary { id, value, .. } => seq![id] + value.walked(),
            Expr::Binary { id, left, right, .. } => seq![id] + left.walked() + if left.complete() {
                right.walked()
            } else {
                Seq::empty()
            },
        }
    }
}

/// More fuel changes nothing once the tree is read in full.
pub proof fn lemma_fuel<Tag: Clone>(
    nodes: Seq<ExprNode<Tag>>,
    id: NodeId,
    less: nat,
    more: nat,
)
    requires
        unfolds(nodes, id, less),
        less <= more,
    ensures
        unfolds(nodes, id, more),
        expr_within(nodes, id, less) == expr_within(nodes, id, more),
    decreases less,
{
    if id.0 < nodes.len() {
        match nodes[id.0 as int].kind {
            NodeKind::Unary { value, .. } => {
                lemma_fuel(nodes, value, (less - 1) as nat, (more - 1) as nat);
            },
            NodeKind::Binary { left, right, .. } => {
                lemma_fuel(nodes, left, (less - 1) as nat, (more - 1) as nat);
                lemma_fuel(nodes, right, (less - 1) as nat, (more - 1) as nat);
            },
            _ => {},
        }
    }
}

/// Any sufficient fuel reads the same tree.
pub proof fn lemma_expr_within<Tag: Clone>(nodes: Seq<ExprNode<Tag>>, id: NodeId, fuel: nat)
    requires
        unfolds(nodes, id, fuel),
    ensures
        finite_at(nodes, id),
        expr_of(nodes, id) == expr_within(nodes, id, fuel),
{
    let chosen = choose|f: nat| unfolds(nodes, id, f);
    if chosen <= fuel {
        lemma_fuel(nodes, id, chosen, fuel);
    } else {
        lemma_fuel(nodes, id, fuel, chosen);
    }
}

/// A tree has the identifier that it is read under.
pub proof fn lemma_expr_id<Tag: Clone>(nodes: Seq<ExprNode<Tag>>, id: NodeId)
    ensures
        expr_of(nodes, id).id() == id,
{
}

/// A node stands for a finite tree exactly when its operands do, and its tree
/// is made of theirs.
pub proof fn lemma_expr_step<Tag: Clone>(nodes: Seq<ExprNode<Tag>>, id: NodeId)
    ensures
        id.0 >= nodes.len() ==> finite_at(nodes, id) && expr_of(nodes, id) == (Expr::Missing::<Tag> {
            id,
        }),
        id.0 < nodes.len() ==> {
            let node = nodes[id.0 as int];
            match node.kind {
                NodeKind::Variable(var) => finite_at(nodes, id) && expr_of(nodes, id) == (
                Expr::Variable { id, var, tag: node.tag }),
                NodeKind::Parameter(param) => finite_at(nodes, id) && expr_of(nodes, id) == (
                Expr::Parameter { id, param, tag: node.tag }),
                NodeKind::Unary { value, op } => {
                    &&& finite_at(nodes, id) <==> finite_at(nodes, value)
                    &&& finite_at(nodes, id) ==> expr_of(nodes, id) == (Expr::Unary {
                        id,
                        op,
                        tag: node.tag,
                        value: Box::new(expr_of(nodes, value)),
                    })
                },
                NodeKind::Binary { left, right, op } => {
                    &&& finite_at(nodes, id) <==> finite_at(nodes, left) && finite_at(nodes, right)
                    &&& finite_at(nodes, id) ==> expr_of(nodes, id) == (Expr::Binary {
                        id,
                        op,
                        tag: node.tag,
                        left: Box::new(expr_of(nodes, left)),
                        right: Box::new(expr_of(nodes, right)),
                    })
                },
            }
        },
{
    if id.0 >= nodes.len() {
        lemma_expr_within(nodes, id, 1);
    } else {
        match nodes[id.0 as int].kind {
            NodeKind::Unary { value, .. } => {
                if finite_at(nodes, id) {
                    let fuel = choose|fuel: nat| unfolds(nodes, id, fuel);
                    lemma_expr_within(nodes, id, fuel);
                    lemma_expr_within(nodes, value, (fuel - 1) as nat);
                }
                if finite_at(nodes, value) {
                    let fuel = choose|fuel: nat| unfolds(nodes, value, fuel);
                    assert(unfolds(nodes, id, fuel + 1));
                }
            },
            NodeKind::Binary { left, right, .. } => {
                if finite_at(nodes, id) {
                    let fuel = choose|fuel: nat| unfolds(nodes, id, fuel);
                    lemma_expr_within(nodes, id, fuel);
                    lemma_expr_within(nodes, left, (fuel - 1) as nat);
                    lemma_expr_within(nodes, right, (fuel - 1) as nat);
                }
                if finite_at(nodes, left) && finite_at(nodes, right) {
                    let a = choose|fuel: nat| unfolds(nodes, left, fuel);
                    let b = choose|fuel: nat| unfolds(nodes, right, fuel);
                    let fuel = a + b;
                    lemma_fuel(nodes, left, a, fuel);
                    lemma_fuel(nodes, right, b, fuel);
                    assert(unfolds(nodes, id, fuel + 1));
                }
            },
            _ => {
                lemma_expr_within(nodes, id, 1);
            },
        }
    }
}

/// Appending nodes leaves every complete tree as it was.
pub proof fn lemma_expr_extend<Tag: Clone>(
    nodes: Seq<ExprNode<Tag>>,
    longer: Seq<ExprNode<Tag>>,
    id: NodeId,
)
    requires
        nodes.is_prefix_of(longer),
        finite_at(nodes, id),
        expr_of(nodes, id).complete(),
    ensures
        finite_at(longer, id),
        expr_of(longer, id) == expr_of(nodes, id),
    decreases expr_of(nodes, id),
{
    lemma_expr_step(nodes, id);
    lemma_expr_step(longer, id);
    assert(id.0 < nodes.len());
    assert(longer[id.0 as int] == nodes[id.0 as int]);
    match nodes[id.0 as int].kind {
        NodeKind::Unary { value, .. } => {
            lemma_expr_extend(nodes, longer, value);
        },
        NodeKind::Binary { left, right, .. } => {
            lemma_expr_extend(nodes, longer, left);
            lemma_expr_extend(nodes, longer, right);
        },
        _ => {},
    }
}

/// A complete tree is walked in full: one identifier per node.
pub proof fn lemma_walked_len<Tag>(e: Expr<Tag>)
    ensures
        e.walked().len() <= e.weight(),
        e.complete() ==> e.walked().len() == e.weight(),
        !(e is Missing) ==> e.walked().len() > 0 && e.walked()[0] == e.id(),
        e is Missing ==> e.walked().len() == 0,
    decreases e,
{
    match e {
        Expr::Unary { value, .. } => {
            lemma_walked_len(*value);
        },
        Expr::Binary { left, right, .. } => {
            lemma_walked_len(*left);
            lemma_walked_len(*right);
        },
        _ => {},
    }
}

/// Whether `nodes` holds `list` from index `base` on, with each tag a clone of
/// the tag in `list`.
pub open spec fn holds<Tag: Clone>(
    nodes: Seq<ExprNode<Tag>>,
    base: nat,
    list: Seq<ExprNode<Tag>>,
) -> bool {
    &&& base + list.len() <= nodes.len()
    &&& forall|i: int|
        0 <= i < list.len() ==> nodes[base + i].kind == (#[trigger] list[i]).kind && cloned(
            list[i].tag,
            nodes[base + i].tag,
        )
}

/// The index that follows `base` by `n`.
pub open spec fn index_after(base: nat, n: nat) -> NodeId {
    NodeId((base + n) as usize)
}

impl<Tag: Clone> Expr<Tag> {
    /// The nodes of a copy of the tree whose first node gets index `base`:
    /// operands before their operator, left before right. A dangling
    /// identifier ends the copy, and no operator above it is written.
    pub open spec fn copied(self, base: nat) -> Seq<ExprNode<Tag>>
        decreases self,
    {
        match self {
            Expr::Missing { .. } => Seq::empty(),
            Expr::Variable { var, tag, .. } => seq![
                ExprNode { kind: NodeKind::Variable(var), tag },
            ],
            Expr::Parameter { param, tag, .. } => seq![
                ExprNode { kind: NodeKind::Parameter(param), tag },
            ],
            Expr::Unary { op, tag, value, .. } => {
                let v = value.copied(base);
                if value.complete() {
                    let kind = NodeKind::Unary {
                        value: index_after(base, (v.len() - 1) as nat),
                        op,
                    };
                    v.push(ExprNode { kind, tag })
                } else {
                    v
                }
            },
            Expr::Binary { op, tag, left, right, .. } => {
                let l = left.copied(base);
                if left.complete() {
                    let r = right.copied(base + l.len());
                    if right.complete() {
                        let kind = NodeKind::Binary {
                            left: index_after(base, (l.len() - 1) as nat),
                            right: index_after(base, (l.len() + r.len() - 1) as nat),
                            op,
                        };
                        (l + r).push(ExprNode { kind, tag })
                    } else {
                        l + r
                    }
                } else {
                    l
                }
            },
        }
    }
}

/// Whether two trees are equal but for the arenas they were read from: the
/// same operators over the same leaves, with the tags of `b` clones of those
/// of `a`.
pub open spec fn alike<Tag: Clone>(a: Expr<Tag>, b: Expr<Tag>) -> bool
    decreases a,
{
    match (a, b) {
        (
            Expr::Variable { var: va, tag: ta, .. },
            Expr::Variable { var: vb, tag: tb, .. },
        ) => va == vb && cloned(ta, tb),
        (
            Expr::Parameter { param: pa, tag: ta, .. },
            Expr::Parameter { param: pb, tag: tb, .. },
        ) => pa == pb && cloned(ta, tb),
        (
            Expr::Unary { op: oa, tag: ta, value: xa, .. },
            Expr::Unary { op: ob, tag: tb, value: xb, .. },
        ) => oa == ob && cloned(ta, tb) && alike(*xa, *xb),
        (
            Expr::Binary { op: oa, tag: ta, left: la, right: ra, .. },
            Expr::Binary { op: ob, tag: tb, left: lb, right: rb, .. },
        ) => oa == ob && cloned(ta, tb) && alike(*la, *lb) && alike(*ra, *rb),
        _ => false,
    }
}

/// A copy has one node per node of the tree.
pub proof fn lemma_copied_len<Tag: Clone>(e: Expr<Tag>, base: nat)
    ensures
        e.complete() ==> e.copied(base).len() == e.weight(),
        e.complete() ==> e.copied(base).len() > 0,
    decreases e,
{
    match e {
        Expr::Unary { value, .. } => {
            lemma_copied_len(*value, base);
        },
        Expr::Binary { left, right, .. } => {
            lemma_copied_len(*left, base);
            lemma_copied_len(*right, base + left.copied(base).len());
        },
        _ => {},
    }
}

/// A bound on the identifiers may be lowered.
pub proof fn lemma_ids_from<Tag>(e: Expr<Tag>, more: nat, less: nat)
    requires
        e.ids_from(more),
        less <= more,
    ensures
        e.ids_from(less),
    decreases e,
{
    match e {
        Expr::Unary { value, .. } => {
            lemma_ids_from(*value, more, less);
        },
        Expr::Binary { left, right, .. } => {
            lemma_ids_from(*left, more, less);
            lemma_ids_from(*right, more, less);
        },
        _ => {},
    }
}

/// Nodes that hold the copy of a complete tree stand for that tree: the last
/// of them is the root of an expression alike.
pub proof fn lemma_copied_alike<Tag: Clone>(
    e: Expr<Tag>,
    nodes: Seq<ExprNode<Tag>>,
    base: nat,
)
    requires
        e.complete(),
        nodes.len() <= usize::MAX,
        holds(nodes, base, e.copied(base)),
    ensures
        ({
            let root = index_after(base, (e.copied(base).len() - 1) as nat);
            &&& finite_at(nodes, root)
            &&& alike(e, expr_of(nodes, root))
            &&& expr_of(nodes, root).complete()
            &&& expr_of(nodes, root).weight() == e.weight()
            &&& expr_of(nodes, root).parameters() == e.parameters()
            &&& expr_of(nodes, root).ids_from(base)
        }),
    decreases e,
{
    lemma_copied_len(e, base);
    let list = e.copied(base);
    let last = list.len() - 1;
    let root = index_after(base, last as nat);
    assert(nodes[base + last].kind == list[last].kind && cloned(
        list[last].tag,
        nodes[base + last].tag,
    ));
    lemma_expr_step(nodes, root);
    match e {
        Expr::Unary { value, .. } => {
            let v = value.copied(base);
            lemma_copied_len(*value, base);
            assert forall|i: int| 0 <= i < v.len() implies nodes[base + i].kind == (
            #[trigger] v[i]).kind && cloned(v[i].tag, nodes[base + i].tag) by {
                assert(list[i] == v[i]);
            }
            lemma_copied_alike(*value, nodes, base);
        },
        Expr::Binary { left, right, .. } => {
            let l = left.copied(base);
            let r = right.copied(base + l.len());
            lemma_copied_len(*left, base);
            lemma_copied_len(*right, base + l.len());
            assert forall|i: int| 0 <= i < l.len() implies nodes[base + i].kind == (
            #[trigger] l[i]).kind && cloned(l[i].tag, nodes[base + i].tag) by {
                assert(list[i] == l[i]);
            }
            lemma_copied_alike(*left, nodes, base);
            assert forall|i: int| 0 <= i < r.len() implies nodes[base + l.len() + i].kind == (
            #[trigger] r[i]).kind && cloned(r[i].tag, nodes[base + l.len() + i].tag) by {
                assert(list[l.len() + i] == r[i]);
            }
            lemma_copied_alike(*right, nodes, base + l.len());
            let right_root = index_after(base, (l.len() + r.len() - 1) as nat);
            lemma_ids_from(expr_of(nodes, right_root), base + l.len(), base);
        },
        _ => {},
    }
}

impl<Tag: Clone> Expr<Tag> {
    /// Whether a copy of the tree can be made with `target` replaced: nothing
    /// outside of the subtrees at `target` is dangling, nor inside of them if
    /// they are to be copied.
    pub open spec fn complete_beyond(self, target: NodeId, replaced: bool) -> bool
        decreases self,
    {
        if self.id() == target {
            replaced || self.complete()
        } else {
            match self {
                Expr::Missing { .. } => false,
                Expr::Variable { .. } => true,
                Expr::Parameter { .. } => true,
                Expr::Unary { value, .. } => value.complete_beyond(target, replaced),
                Expr::Binary { left, right, .. } => left.complete_beyond(target, replaced)
                    && right.complete_beyond(target, replaced),
            }
        }
    }

    /// The nodes of a copy of the tree whose first node gets index `base`, and
    /// its root. Where `replacement` is given, it stands in for each subtree
    /// at `target`, and no copy is made of that.
    pub open spec fn rebuilt(
        self,
        target: NodeId,
        replacement: Option<NodeId>,
        base: nat,
    ) -> (Seq<ExprNode<Tag>>, NodeId)
        decreases self,
    {
        if self.id() == target {
            match replacement {
                Some(node) => (Seq::empty(), node),
                None => (
                    self.copied(base),
                    index_after(base, (self.copied(base).len() - 1) as nat),
                ),
            }
        } else {
            match self {
                Expr::Missing { id } => (Seq::empty(), id),
                Expr::Variable { var, tag, .. } => (
                    seq![ExprNode { kind: NodeKind::Variable(var), tag }],
                    index_after(base, 0),
                ),
                Expr::Parameter { param, tag, .. } => (
                    seq![ExprNode { kind: NodeKind::Parameter(param), tag }],
                    index_after(base, 0),
                ),
                Expr::Unary { op, tag, value, .. } => {
                    let (list, v) = value.rebuilt(target, replacement, base);
                    let kind = NodeKind::Unary { value: v, op };
                    (list.push(ExprNode { kind, tag }), index_after(base, list.len()))
                },
                Expr::Binary { op, tag, left, right, .. } => {
                    let (ll, l) = left.rebuilt(target, replacement, base);
                    let (rl, r) = right.rebuilt(target, replacement, base + ll.len());
                    let kind = NodeKind::Binary { left: l, right: r, op };
                    (
                        (ll + rl).push(ExprNode { kind, tag }),
                        index_after(base, ll.len() + rl.len()),
                    )
                },
            }
        }
    }
}

/// Whether `b` is alike to `a`, but with `part` in place of each subtree at
/// `target`.
pub open spec fn alike_but<Tag: Clone>(
    a: Expr<Tag>,
    b: Expr<Tag>,
    target: NodeId,
    part: Expr<Tag>,
) -> bool
    decreases a,
{
    if a.id() == target {
        b == part
    } else {
        match (a, b) {
            (Expr::Unary { op: oa, tag: ta, value: xa, .. }, Expr::Unary {
                op: ob,
                tag: tb,
                value: xb,
                ..
            }) => oa == ob && cloned(ta, tb) && alike_but(*xa, *xb, target, part),
            (Expr::Binary { op: oa, tag: ta, left: la, right: ra, .. }, Expr::Binary {
                op: ob,
                tag: tb,
                left: lb,
                right: rb,
                ..
            }) => oa == ob && cloned(ta, tb) && alike_but(*la, *lb, target, part) && alike_but(
                *ra,
                *rb,
                target,
                part,
            ),
            _ => alike(a, b),
        }
    }
}

/// Without a replacement, rebuilding is copying.
pub proof fn lemma_rebuilt_copied<Tag: Clone>(e: Expr<Tag>, target: NodeId, base: nat)
    requires
        e.complete(),
    ensures
        e.rebuilt(target, None, base).0 == e.copied(base),
        e.rebuilt(target, None, base).1 == index_after(base, (e.copied(base).len() - 1) as nat),
        e.complete_beyond(target, false),
    decreases e,
{
    lemma_copied_len(e, base);
    match e {
        Expr::Unary { value, .. } => {
            lemma_rebuilt_copied(*value, target, base);
        },
        Expr::Binary { left, right, .. } => {
            lemma_rebuilt_copied(*left, target, base);
            lemma_rebuilt_copied(*right, target, base + left.copied(base).len());
        },
        _ => {},
    }
}

/// A complete tree can be copied with anything replaced.
pub proof fn lemma_complete_beyond<Tag: Clone>(e: Expr<Tag>, target: NodeId, replaced: bool)
    requires
        e.complete(),
    ensures
        e.complete_beyond(target, replaced),
    decreases e,
{
    match e {
        Expr::Unary { value, .. } => {
            lemma_complete_beyond(*value, target, replaced);
        },
        Expr::Binary { left, right, .. } => {
            lemma_complete_beyond(*left, target, replaced);
            lemma_complete_beyond(*right, target, replaced);
        },
        _ => {},
    }
}

/// Nodes that hold a rebuilt tree stand for the tree it was rebuilt from, with
/// the replacement in place of each subtree at the target.
pub proof fn lemma_rebuilt_alike<Tag: Clone>(
    e: Expr<Tag>,
    nodes: Seq<ExprNode<Tag>>,
    target: NodeId,
    node: NodeId,
    base: nat,
    from: nat,
    n_params: nat,
)
    requires
        e.complete_beyond(target, true),
        nodes.len() <= usize::MAX,
        from <= base,
        finite_at(nodes, node),
        expr_of(nodes, node).complete(),
        expr_of(nodes, node).ids_from(from),
        expr_of(nodes, node).params_below(n_params),
        e.params_below(n_params),
        holds(nodes, base, e.rebuilt(target, Some(node), base).0),
    ensures
        ({
            let root = e.rebuilt(target, Some(node), base).1;
            &&& finite_at(nodes, root)
            &&& alike_but(e, expr_of(nodes, root), target, expr_of(nodes, node))
            &&& expr_of(nodes, root).complete()
            &&& expr_of(nodes, root).ids_from(from)
            &&& expr_of(nodes, root).params_below(n_params)
        }),
    decreases e,
{
    if e.id() != target {
        let (list, root) = e.rebuilt(target, Some(node), base);
        let last = list.len() - 1;
        assert(nodes[base + last].kind == list[last].kind && cloned(
            list[last].tag,
            nodes[base + last].tag,
        ));
        lemma_expr_step(nodes, root);
        lemma_params_below(e, n_params);
        lemma_params_below(expr_of(nodes, root), n_params);
        match e {
            Expr::Unary { value, .. } => {
                let (v, x) = value.rebuilt(target, Some(node), base);
                assert forall|i: int| 0 <= i < v.len() implies nodes[base + i].kind == (
                #[trigger] v[i]).kind && cloned(v[i].tag, nodes[base + i].tag) by {
                    assert(list[i] == v[i]);
                }
                lemma_rebuilt_alike(*value, nodes, target, node, base, from, n_params);
            },
            Expr::Binary { left, right, .. } => {
                let (l, x) = left.rebuilt(target, Some(node), base);
                let (r, y) = right.rebuilt(target, Some(node), base + l.len());
                assert forall|i: int| 0 <= i < l.len() implies nodes[base + i].kind == (
                #[trigger] l[i]).kind && cloned(l[i].tag, nodes[base + i].tag) by {
                    assert(list[i] == l[i]);
                }
                assert forall|i: int| 0 <= i < r.len() implies nodes[base + l.len() + i].kind == (
                #[trigger] r[i]).kind && cloned(r[i].tag, nodes[base + l.len() + i].tag) by {
                    assert(list[l.len() + i] == r[i]);
                }
                lemma_rebuilt_alike(*left, nodes, target, node, base, from, n_params);
                lemma_rebuilt_alike(*right, nodes, target, node, base + l.len(), from, n_params);
            },
            _ => {},
        }
    }
}

/// The parameters of an operator are bounded exactly if those of its operands
/// are.
pub proof fn lemma_params_below<Tag>(e: Expr<Tag>, n: nat)
    ensures
        e.params_below(n) == match e {
            Expr::Parameter { param, .. } => param.0 < n,
            Expr::Unary { value, .. } => value.params_below(n),
            Expr::Binary { left, right, .. } => left.params_below(n) && right.params_below(n),
            _ => true,
        },
{
    let all = e.parameters();
    match e {
        Expr::Parameter { param, .. } => {
            assert(all[0] == param);
        },
        Expr::Unary { value, .. } => {
            assert(all == value.parameters());
        },
        Expr::Binary { left, right, .. } => {
            let l = left.parameters();
            let r = right.parameters();
            assert forall|i: int| 0 <= i < l.len() implies #[trigger] l[i] == all[i] by {}
            assert forall|i: int| 0 <= i < r.len() implies #[trigger] r[i] == all[l.len() + i] by {}
            if left.params_below(n) && right.params_below(n) {
                assert forall|i: int| 0 <= i < all.len() implies (#[trigger] all[i]).0 < n by {
                    if i < l.len() {
                        assert(all[i] == l[i]);
                    } else {
                        assert(all[i] == r[i - l.len()]);
                    }
                }
            }
        },
        _ => {},
    }
}

/// The part of the tree that a path leads to from the root, if it does: each
/// step goes to the only or the left operand, or to the right one.
pub open spec fn part_at<Tag>(e: Expr<Tag>, path: Seq<bool>) -> Option<Expr<Tag>>
    decreases path.len(),
{
    if path.len() == 0 {
        Some(e)
    } else {
        match e {
            Expr::Unary { value, .. } => if path[0] {
                None
            } else {
                part_at(*value, path.drop_first())
            },
            Expr::Binary { left, right, .. } => if path[0] {
                part_at(*right, path.drop_first())
            } else {
                part_at(*left, path.drop_first())
            },
            _ => None,
        }
    }
}

/// A walk meets a node before its operands, and all of the left operand before
/// the right one. It ends at the first dangling identifier.
pub proof fn lemma_walk_order<Tag: Clone>(nodes: Seq<ExprNode<Tag>>, id: NodeId)
    requires
        finite_at(nodes, id),
    ensures
        id.0 >= nodes.len() ==> expr_of(nodes, id).walked().len() == 0 && !expr_of(
            nodes,
            id,
        ).complete(),
        id.0 < nodes.len() ==> match nodes[id.0 as int].kind {
            NodeKind::Unary { value, .. } => {
                &&& expr_of(nodes, id).complete() == expr_of(nodes, value).complete()
                &&& expr_of(nodes, id).walked() == seq![id] + expr_of(nodes, value).walked()
            },
            NodeKind::Binary { left, right, .. } => {
                let l = expr_of(nodes, left);
                let r = expr_of(nodes, right);
                &&& expr_of(nodes, id).complete() == (l.complete() && r.complete())
                &&& l.complete() ==> expr_of(nodes, id).walked() == seq![id] + l.walked()
                    + r.walked()
                &&& !l.complete() ==> expr_of(nodes, id).walked() == seq![id] + l.walked()
            },
            _ => expr_of(nodes, id).complete() && expr_of(nodes, id).walked() == seq![id],
        },
{
    lemma_expr_step(nodes, id);
    let e = expr_of(nodes, id);
    if let Expr::Binary { left, .. } = e {
        if !left.complete() {
            assert(e.walked() == seq![id] + left.walked());
        }
    }
}

/// A copy holds the nodes of the left operand, then those of the right one,
/// and then the operator over the two, with its own operation and tag. It ends
/// at the first dangling identifier, with what was copied before it.
pub proof fn lemma_copy_order<Tag: Clone>(e: Expr<Tag>, base: nat)
    ensures
        e.complete() ==> e.copied(base).len() == e.weight(),
        match e {
            Expr::Missing { .. } => e.copied(base).len() == 0,
            Expr::Variable { var, tag, .. } => e.copied(base) == seq![
                ExprNode { kind: NodeKind::Variable(var), tag },
            ],
            Expr::Parameter { param, tag, .. } => e.copied(base) == seq![
                ExprNode { kind: NodeKind::Parameter(param), tag },
            ],
            Expr::Unary { op, tag, value, .. } => if value.complete() {
                &&& e.copied(base).drop_last() == value.copied(base)
                &&& e.copied(base).last().tag == tag
                &&& e.copied(base).last().kind == (NodeKind::Unary {
                    value: index_after(base, (value.weight() - 1) as nat),
                    op,
                })
            } else {
                e.copied(base) == value.copied(base)
            },
            Expr::Binary { op, tag, left, right, .. } => if left.complete() && right.complete() {
                &&& e.copied(base).drop_last() == left.copied(base) + right.copied(
                    base + left.weight(),
                )
                &&& e.copied(base).last().tag == tag
                &&& e.copied(base).last().kind == (NodeKind::Binary {
                    left: index_after(base, (left.weight() - 1) as nat),
                    right: index_after(base, (left.weight() + right.weight() - 1) as nat),
                    op,
                })
            } else if left.complete() {
                e.copied(base) == left.copied(base) + right.copied(base + left.weight())
            } else {
                e.copied(base) == left.copied(base)
            },
        },
    decreases e,
{
    if e.complete() {
        lemma_copied_len(e, base);
    }
    match e {
        Expr::Unary { value, .. } => {
            if value.complete() {
                lemma_copied_len(*value, base);
                assert(e.copied(base).drop_last() == value.copied(base));
            }
        },
        Expr::Binary { left, right, .. } => {
            if left.complete() {
                lemma_copied_len(*left, base);
                if right.complete() {
                    lemma_copied_len(*right, base + left.weight());
                    assert(e.copied(base).drop_last() == left.copied(base) + right.copied(
                        base + left.weight(),
                    ));
                }
            }
        },
        _ => {},
    }
}

/// Whether two trees have the same shape, and the same tags.
pub open spec fn same_tags<Tag>(a: Expr<Tag>, b: Expr<Tag>) -> bool
    decreases a,
{
    match (a, b) {
        (Expr::Variable { tag: ta, .. }, Expr::Variable { tag: tb, .. }) => ta == tb,
        (Expr::Parameter { tag: ta, .. }, Expr::Parameter { tag: tb, .. }) => ta == tb,
        (
            Expr::Unary { tag: ta, value: xa, .. },
            Expr::Unary { tag: tb, value: xb, .. },
        ) => ta == tb && same_tags(*xa, *xb),
        (
            Expr::Binary { tag: ta, left: la, right: ra, .. },
            Expr::Binary { tag: tb, left: lb, right: rb, .. },
        ) => ta == tb && same_tags(*la, *lb) && same_tags(*ra, *rb),
        _ => false,
    }
}

/// Whether two trees have the same shape, and the tags of `b` are clones of
/// those of `a`, but at `target`, where `b` has the shape and the tags of
/// `part`.
pub open spec fn tags_kept<Tag: Clone>(
    a: Expr<Tag>,
    b: Expr<Tag>,
    target: Option<NodeId>,
    part: Expr<Tag>,
) -> bool
    decreases a,
{
    if target == Some(a.id()) {
        same_tags(part, b)
    } else {
        match (a, b) {
            (Expr::Variable { tag: ta, .. }, Expr::Variable { tag: tb, .. }) => cloned(ta, tb),
            (Expr::Parameter { tag: ta, .. }, Expr::Parameter { tag: tb, .. }) => cloned(ta, tb),
            (
                Expr::Unary { tag: ta, value: xa, .. },
                Expr::Unary { tag: tb, value: xb, .. },
            ) => cloned(ta, tb) && tags_kept(*xa, *xb, target, part),
            (
                Expr::Binary { tag: ta, left: la, right: ra, .. },
                Expr::Binary { tag: tb, left: lb, right: rb, .. },
            ) => cloned(ta, tb) && tags_kept(*la, *lb, target, part) && tags_kept(
                *ra,
                *rb,
                target,
                part,
            ),
            _ => false,
        }
    }
}

/// A copy has clones of the tags.
pub proof fn lemma_tags_alike<Tag: Clone>(a: Expr<Tag>, b: Expr<Tag>, c: Expr<Tag>)
    requires
        alike(a, b),
        same_tags(b, c),
    ensures
        tags_kept(a, c, None, c),
    decreases a,
{
    match (a, b, c) {
        (
            Expr::Unary { value: xa, .. },
            Expr::Unary { value: xb, .. },
            Expr::Unary { value: xc, .. },
        ) => {
            lemma_tags_alike(*xa, *xb, *xc);
            lemma_tags_part(*xa, *xc, *xc, c);
        },
        (
            Expr::Binary { left: la, right: ra, .. },
            Expr::Binary { left: lb, right: rb, .. },
            Expr::Binary { left: lc, right: rc, .. },
        ) => {
            lemma_tags_alike(*la, *lb, *lc);
            lemma_tags_alike(*ra, *rb, *rc);
            lemma_tags_part(*la, *lc, *lc, c);
            lemma_tags_part(*ra, *rc, *rc, c);
        },
        _ => {},
    }
}

/// Without a target, no part is looked at.
proof fn lemma_tags_part<Tag: Clone>(a: Expr<Tag>, b: Expr<Tag>, p: Expr<Tag>, q: Expr<Tag>)
    requires
        tags_kept(a, b, None, p),
    ensures
        tags_kept(a, b, None, q),
    decreases a,
{
    match (a, b) {
        (Expr::Unary { value: xa, .. }, Expr::Unary { value: xb, .. }) => {
            lemma_tags_part(*xa, *xb, p, q);
        },
        (Expr::Binary { left: la, right: ra, .. }, Expr::Binary { left: lb, right: rb, .. }) => {
            lemma_tags_part(*la, *lb, p, q);
            lemma_tags_part(*ra, *rb, p, q);
        },
        _ => {},
    }
}

/// A copy with a part replaced has clones of the tags elsewhere.
pub proof fn lemma_tags_replaced<Tag: Clone>(
    a: Expr<Tag>,
    b: Expr<Tag>,
    c: Expr<Tag>,
    target: NodeId,
    part: Expr<Tag>,
)
    requires
        alike_but(a, b, target, part),
        same_tags(b, c),
    ensures
        tags_kept(a, c, Some(target), part),
    decreases a,
{
    if a.id() != target {
        match (a, b, c) {
            (
                Expr::Unary { value: xa, .. },
                Expr::Unary { value: xb, .. },
                Expr::Unary { value: xc, .. },
            ) => {
                lemma_tags_replaced(*xa, *xb, *xc, target, part);
            },
            (
                Expr::Binary { left: la, right: ra, .. },
                Expr::Binary { left: lb, right: rb, .. },
                Expr::Binary { left: lc, right: rc, .. },
            ) => {
                lemma_tags_replaced(*la, *lb, *lc, target, part);
                lemma_tags_replaced(*ra, *rb, *rc, target, part);
            },
            _ => {},
        }
    }
}

/// A complete tree has its own tags.
pub proof fn lemma_same_tags<Tag>(e: Expr<Tag>)
    requires
        e.complete(),
    ensures
        same_tags(e, e),
    decreases e,
{
    match e {
        Expr::Unary { value, .. } => {
            lemma_same_tags(*value);
        },
        Expr::Binary { left, right, .. } => {
            lemma_same_tags(*left);
            lemma_same_tags(*right);
        },
        _ => {},
    }
}

} // verus!
