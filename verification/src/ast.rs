//! Arena-allocated expression trees.

use crate::expr::{
    expr_of, finite_at, holds, index_after, lemma_copied_len, lemma_expr_step, lemma_walked_len,
    Expr,
};
use crate::types::{NodeId, OperationId, ParameterId, RootId, VariableId};
use vstd::prelude::*;

verus! {

/// Type of node.
#[derive(PartialEq, Eq, PartialOrd, Debug, Clone, Copy, Structural)]
pub enum NodeKind {
    Unary { value: NodeId, op: OperationId },
    Binary { left: NodeId, right: NodeId, op: OperationId },
    /// Input
    Variable(VariableId),
    /// Constant or optimizable parameter
    Parameter(ParameterId),
}

/// A node in an expression tree.
#[derive(PartialEq, PartialOrd, Debug)]
pub struct ExprNode<Tag: Clone> {
    /// Kind of node
    pub kind: NodeKind,
    /// Tag value attached to this node.
    pub tag: Tag,
}

impl<Tag: Clone> ExprNode<Tag> {
    pub fn new(kind: NodeKind, tag: Tag) -> (r: Self)
        ensures
            r == (ExprNode { kind, tag }),
    {
        Self { kind, tag }
    }

    /// Returns a node with a binary operation.
    pub fn new_binary(left: NodeId, right: NodeId, op: OperationId, tag: Tag) -> (r: Self)
        ensures
            r == (ExprNode { kind: NodeKind::Binary { left, right, op }, tag }),
    {
        Self::new(NodeKind::Binary { left, right, op }, tag)
    }

    /// Returns a node with an unary operation.
    pub fn new_unary(value: NodeId, op: OperationId, tag: Tag) -> (r: Self)
        ensures
            r == (ExprNode { kind: NodeKind::Unary { value, op }, tag }),
    {
        Self::new(NodeKind::Unary { value, op }, tag)
    }

    /// Returns a node which reads variables at index `var`.
    pub fn new_variable(var: VariableId, tag: Tag) -> (r: Self)
        ensures
            r == (ExprNode { kind: NodeKind::Variable(var), tag }),
    {
        Self::new(NodeKind::Variable(var), tag)
    }

    /// Returns a node which reads parameters at index `param`.
    pub fn new_parameter(param: ParameterId, tag: Tag) -> (r: Self)
        ensures
            r == (ExprNode { kind: NodeKind::Parameter(param), tag }),
    {
        Self::new(NodeKind::Parameter(param), tag)
    }
}

/// An arena containing nodes for expression trees.
pub struct ExprArena<Tag: Clone> {
    nodes: Vec<ExprNode<Tag>>,
    roots: Vec<NodeId>,
}

/// A walk over the nodes of an expression, which hands out their identifiers.
pub struct ExprNodeIter<'a, Tag: Clone> {
    arena: &'a ExprArena<Tag>,
    stack: Vec<NodeId>,
}

impl<Tag: Clone> ExprArena<Tag> {
    /// The nodes, by identifier.
    pub closed spec fn nodes(&self) -> Seq<ExprNode<Tag>> {
        self.nodes@
    }

    /// The root nodes, by root identifier.
    pub closed spec fn roots(&self) -> Seq<NodeId> {
        self.roots@
    }

    /// Whether there are no nodes and no roots.
    pub open spec fn is_empty(&self) -> bool {
        self.nodes().len() == 0 && self.roots().len() == 0
    }

    /// Whether `id` is the identifier of a node.
    pub open spec fn has(&self, id: NodeId) -> bool {
        id.0 < self.nodes().len()
    }

    /// Whether `node` stands for a finite tree.
    pub open spec fn finite_at(&self, node: NodeId) -> bool {
        finite_at(self.nodes(), node)
    }

    /// The tree that `node` stands for.
    pub open spec fn expr(&self, node: NodeId) -> Expr<Tag> {
        expr_of(self.nodes(), node)
    }

    /// Whether `node` stands for a finite tree without dangling identifiers.
    pub open spec fn sound_at(&self, node: NodeId) -> bool {
        self.finite_at(node) && self.expr(node).complete()
    }

    /// The node registered under `root`.
    pub open spec fn root_node(&self, root: RootId) -> Option<NodeId> {
        if root.0 < self.roots().len() {
            Some(self.roots()[root.0 as int])
        } else {
            None
        }
    }

    /// Identifiers are wide enough for all nodes and roots.
    pub proof fn lemma_lengths(&self)
        ensures
            self.nodes().len() <= usize::MAX,
            self.roots().len() <= usize::MAX,
    {
        assert(self.nodes.len() == self.nodes@.len());
        assert(self.roots.len() == self.roots@.len());
    }

    /// An arena without nodes or roots.
    pub fn new() -> (r: Self)
        ensures
            r.nodes() == Seq::<ExprNode<Tag>>::empty(),
            r.roots() == Seq::<NodeId>::empty(),
    {
        Self { nodes: Vec::new(), roots: Vec::new() }
    }

    /// Appends the provided node to the arena and returns its node ID.
    pub fn add(&mut self, node: ExprNode<Tag>) -> (id: NodeId)
        ensures
            id.0 == old(self).nodes().len(),
            final(self).nodes() == old(self).nodes().push(node),
            final(self).roots() == old(self).roots(),
    {
        let id = NodeId(self.nodes.len());
        self.nodes.push(node);
        id
    }

    /// Adds the provided node ID as a root.
    pub fn add_root(&mut self, id: NodeId) -> (root: RootId)
        ensures
            root.0 == old(self).roots().len(),
            final(self).roots() == old(self).roots().push(id),
            final(self).nodes() == old(self).nodes(),
    {
        let root = RootId(self.roots.len());
        self.roots.push(id);
        root
    }

    /// Returns the node for the provided node ID.
    pub fn get_node(&self, node_id: NodeId) -> (r: Option<&ExprNode<Tag>>)
        ensures
            r is Some <==> self.has(node_id),
            r matches Some(node) ==> *node == self.nodes()[node_id.0 as int],
    {
        if node_id.0 < self.nodes.len() {
            Some(&self.nodes[node_id.0])
        } else {
            None
        }
    }

    /// Returns a mutable reference to the provided node.
    pub fn get_node_mut(&mut self, node_id: NodeId) -> (r: Option<&mut ExprNode<Tag>>)
        ensures
            r is Some <==> old(self).has(node_id),
            match r {
                Some(node) => {
                    &&& *node == old(self).nodes()[node_id.0 as int]
                    &&& final(self).nodes() == old(self).nodes().update(
                        node_id.0 as int,
                        *final(node),
                    )
                    &&& final(self).roots() == old(self).roots()
                },
                None => *final(self) == *old(self),
            },
    {
        if node_id.0 < self.nodes.len() {
            Some(&mut self.nodes[node_id.0])
        } else {
            None
        }
    }

    /// Returns the node ID for the provided root ID.
    pub fn get_root(&self, root_id: RootId) -> (r: Option<NodeId>)
        ensures
            r == self.root_node(root_id),
    {
        if root_id.0 < self.roots.len() {
            Some(self.roots[root_id.0])
        } else {
            None
        }
    }

    /// Returns a walk over the node IDs of the subtree rooted at `node`
    /// (including `node` itself) in DFS pre-order. An invalid `node` yields an
    /// empty walk.
    pub fn walk_expr(&self, node: NodeId) -> (r: ExprNodeIter<'_, Tag>)
        ensures
            r.arena() == self,
            r.stack() == seq![node],
            self.finite_at(node) ==> r.finite() && r.remaining() == self.expr(node).walked(),
    {
        let r = ExprNodeIter { arena: self, stack: vec![node] };
        assert(r.stack() == seq![node]);
        assert(r.stack().drop_last() == Seq::<NodeId>::empty());
        assert(r.stack().last() == node);
        reveal_with_fuel(pending, 2);
        assert(self.expr(node).walked() + Seq::<NodeId>::empty() == self.expr(node).walked());
        r
    }

    /// Returns a walk over the node IDs of the expression registered under
    /// `root_id`, or `None` if the root ID is invalid.
    pub fn walk_root(&self, root_id: RootId) -> (r: Option<ExprNodeIter<'_, Tag>>)
        ensures
            match self.root_node(root_id) {
                Some(node) => r matches Some(walk) && walk.arena() == self && walk.stack()
                    == seq![node] && (self.finite_at(node) ==> walk.finite() && walk.remaining()
                    == self.expr(node).walked()),
                None => r is None,
            },
    {
        match self.get_root(root_id) {
            Some(node) => Some(self.walk_expr(node)),
            None => None,
        }
    }

    /// Number of nodes in the tree of `node`: those that a walk over it meets.
    pub fn node_count(&self, node: NodeId) -> (n: usize)
        requires
            self.finite_at(node),
        ensures
            n == self.expr(node).walked().len(),
            self.sound_at(node) ==> n == self.expr(node).weight(),
    {
        proof {
            lemma_walked_len(self.expr(node));
        }
        self.walk_expr(node).count()
    }

    /// Returns the nodes of the subtree rooted at `node`, each with its ID, in
    /// the order of [`Self::walk_expr`].
    pub fn iter_expr_nodes(&self, node: NodeId) -> (r: Vec<(NodeId, &ExprNode<Tag>)>)
        requires
            self.finite_at(node),
        ensures
            r@.len() == self.expr(node).walked().len(),
            forall|i: int|
                0 <= i < r@.len() ==> {
                    &&& (#[trigger] r@[i]).0 == self.expr(node).walked()[i]
                    &&& self.has(r@[i].0)
                    &&& *r@[i].1 == self.nodes()[r@[i].0.0 as int]
                },
    {
        let ids = self.walk_expr(node).collect();
        proof {
            lemma_walked_valid(self.nodes(), node);
        }
        let mut out: Vec<(NodeId, &ExprNode<Tag>)> = Vec::new();
        let mut i: usize = 0;
        while i < ids.len()
            invariant
                i <= ids.len(),
                ids@ == self.expr(node).walked(),
                forall|j: int| 0 <= j < ids@.len() ==> self.has(#[trigger] ids@[j]),
                out@.len() == i,
                forall|j: int|
                    0 <= j < i ==> {
                        &&& (#[trigger] out@[j]).0 == ids@[j]
                        &&& *out@[j].1 == self.nodes()[ids@[j].0 as int]
                    },
            decreases ids.len() - i,
        {
            let id = ids[i];
            match self.get_node(id) {
                Some(n) => {
                    out.push((id, n));
                },
                None => {},
            }
            i += 1;
        }
        out
    }

    /// Recursively deep-copies the subtree rooted at `node` from `self` into
    /// `dest`, preserving each node's tag, and returns the new root `NodeId`
    /// within `dest`. `None` if the subtree has a dangling ID, in which case
    /// the nodes copied before it was met stay in `dest`.
    pub fn copy_over(&self, node: NodeId, dest: &mut ExprArena<Tag>) -> (r: Option<NodeId>)
        requires
            self.finite_at(node),
        ensures
            ({
                let base = old(dest).nodes().len();
                let list = self.expr(node).copied(base);
                &&& final(dest).nodes().len() == base + list.len()
                &&& old(dest).nodes().is_prefix_of(final(dest).nodes())
                &&& holds(final(dest).nodes(), base, list)
                &&& r == if self.expr(node).complete() {
                    Some(index_after(base, (list.len() - 1) as nat))
                } else {
                    None
                }
                &&& r matches Some(id) ==> final(dest).has(id)
            }),
            final(dest).roots() == old(dest).roots(),
        decreases self.expr(node),
    {
        let ghost base = dest.nodes().len();
        proof {
            lemma_expr_step(self.nodes(), node);
            lemma_copied_len(self.expr(node), base);
        }
        let src = match self.get_node(node) {
            Some(src) => src,
            None => {
                return None;
            },
        };
        let tag = src.tag.clone();
        let new_kind = match src.kind {
            NodeKind::Unary { value, op } => {
                proof {
                    lemma_copied_len(self.expr(value), base);
                }
                match self.copy_over(value, dest) {
                    Some(value) => NodeKind::Unary { value, op },
                    None => {
                        return None;
                    },
                }
            },
            NodeKind::Binary { left, right, op } => {
                let ghost l = self.expr(left).copied(base);
                proof {
                    lemma_copied_len(self.expr(left), base);
                    lemma_copied_len(self.expr(right), base + l.len());
                }
                let new_left = match self.copy_over(left, dest) {
                    Some(id) => id,
                    None => {
                        return None;
                    },
                };
                let ghost mid = dest.nodes();
                let new_right = self.copy_over(right, dest);
                proof {
                    let r = self.expr(right).copied(base + l.len());
                    lemma_holds_append(mid, dest.nodes(), base, l, r);
                }
                match new_right {
                    Some(id) => NodeKind::Binary { left: new_left, right: id, op },
                    None => {
                        return None;
                    },
                }
            },
            leaf => leaf,
        };
        let ghost before = dest.nodes();
        let id = dest.add(ExprNode { kind: new_kind, tag });
        proof {
            let list = self.expr(node).copied(base);
            assert(list.last().kind == new_kind);
            assert(list == list.drop_last().push(list.last()));
            lemma_holds_append(before, dest.nodes(), base, list.drop_last(), seq![list.last()]);
            assert(list.drop_last() + seq![list.last()] == list);
        }
        Some(id)
    }

    /// Deep-copies the subtree registered under `root_id` in `self` into `dest`
    /// and registers the copy as a new root in `dest`, returning its `RootId`.
    ///
    /// Returns `None` if `root_id` is not a valid root of `self`, or if its
    /// tree has a dangling ID.
    pub fn copy_root_over(&self, root_id: RootId, dest: &mut ExprArena<Tag>) -> (r: Option<RootId>)
        requires
            self.root_node(root_id) matches Some(node) ==> self.finite_at(node),
        ensures
            match self.root_node(root_id) {
                None => r is None && *final(dest) == *old(dest),
                Some(node) => {
                    let base = old(dest).nodes().len();
                    let list = self.expr(node).copied(base);
                    &&& final(dest).nodes().len() == base + list.len()
                    &&& old(dest).nodes().is_prefix_of(final(dest).nodes())
                    &&& holds(final(dest).nodes(), base, list)
                    &&& if self.expr(node).complete() {
                        &&& r == Some(RootId(old(dest).roots().len() as usize))
                        &&& final(dest).roots() == old(dest).roots().push(
                            index_after(base, (list.len() - 1) as nat),
                        )
                    } else {
                        &&& r is None
                        &&& final(dest).roots() == old(dest).roots()
                    }
                },
            },
    {
        match self.get_root(root_id) {
            None => None,
            Some(node) => match self.copy_over(node, dest) {
                None => None,
                Some(copied) => Some(dest.add_root(copied)),
            },
        }
    }

    /// Empties the contents of an arena and invalidates all existing
    /// references to it.
    pub fn clear(&mut self)
        ensures
            final(self).nodes() == Seq::<ExprNode<Tag>>::empty(),
            final(self).roots() == Seq::<NodeId>::empty(),
    {
        self.nodes.clear();
        self.roots.clear();
    }
}

/// What a walk still has to hand out: the trees on the stack from the top
/// down, up to the first dangling identifier.
pub open spec fn pending<Tag: Clone>(nodes: Seq<ExprNode<Tag>>, stack: Seq<NodeId>) -> Seq<NodeId>
    decreases stack.len(),
{
    if stack.len() == 0 {
        Seq::empty()
    } else {
        let e = expr_of(nodes, stack.last());
        e.walked() + if e.complete() {
            pending(nodes, stack.drop_last())
        } else {
            Seq::empty()
        }
    }
}

/// Number of identifiers under those on the stack.
spec fn load<Tag: Clone>(nodes: Seq<ExprNode<Tag>>, stack: Seq<NodeId>) -> nat
    decreases stack.len(),
{
    if stack.len() == 0 {
        0
    } else {
        expr_of(nodes, stack.last()).weight() + load(nodes, stack.drop_last())
    }
}

/// The stack after one step over a node of kind `kind`.
pub open spec fn stepped(stack: Seq<NodeId>, kind: NodeKind) -> Seq<NodeId> {
    match kind {
        NodeKind::Unary { value, .. } => stack.drop_last().push(value),
        NodeKind::Binary { left, right, .. } => stack.drop_last().push(right).push(left),
        _ => stack.drop_last(),
    }
}

/// One step hands out the first of what is pending, and leaves the others.
proof fn lemma_stepped<Tag: Clone>(nodes: Seq<ExprNode<Tag>>, stack: Seq<NodeId>)
    requires
        stack.len() > 0,
        forall|i: int| 0 <= i < stack.len() ==> finite_at(nodes, #[trigger] stack[i]),
    ensures
        stack.last().0 >= nodes.len() ==> pending(nodes, stack) == Seq::<NodeId>::empty(),
        stack.last().0 < nodes.len() ==> {
            let next = stepped(stack, nodes[stack.last().0 as int].kind);
            &&& pending(nodes, stack) == seq![stack.last()] + pending(nodes, next)
            &&& load(nodes, next) < load(nodes, stack)
            &&& forall|i: int| 0 <= i < next.len() ==> finite_at(nodes, #[trigger] next[i])
        },
{
    let top = stack.last();
    assert(top == stack[stack.len() - 1]);
    lemma_expr_step(nodes, top);
    if top.0 < nodes.len() {
        let rest = stack.drop_last();
        let kind = nodes[top.0 as int].kind;
        let next = stepped(stack, kind);
        assert forall|i: int| 0 <= i < next.len() implies finite_at(nodes, #[trigger] next[i]) by {
            if i < rest.len() {
                assert(next[i] == stack[i]);
            }
        }
        match kind {
            NodeKind::Unary { value, .. } => {
                assert(next.drop_last() == rest);
                assert(pending(nodes, stack) == seq![top] + pending(nodes, next));
            },
            NodeKind::Binary { left, right, .. } => {
                reveal_with_fuel(pending, 3);
                reveal_with_fuel(load, 3);
                let mid = rest.push(right);
                assert(mid.drop_last() == rest);
                assert(mid.last() == right);
                assert(next.drop_last() == mid);
                assert(pending(nodes, stack) == seq![top] + pending(nodes, next));
            },
            _ => {
                assert(pending(nodes, stack) == seq![top] + pending(nodes, next));
            },
        }
    }
}

/// Every identifier that a walk meets is one of a node, whose tree is part of
/// the one walked: finite, complete if that is, and smaller but for the root.
pub proof fn lemma_walked_valid<Tag: Clone>(nodes: Seq<ExprNode<Tag>>, id: NodeId)
    requires
        finite_at(nodes, id),
    ensures
        forall|i: int|
            #![trigger expr_of(nodes, id).walked()[i]]
            0 <= i < expr_of(nodes, id).walked().len() ==> {
                let part = expr_of(nodes, id).walked()[i];
                &&& part.0 < nodes.len()
                &&& finite_at(nodes, part)
                &&& expr_of(nodes, id).complete() ==> expr_of(nodes, part).complete()
                &&& i > 0 ==> expr_of(nodes, part).weight() < expr_of(nodes, id).weight()
            },
    decreases expr_of(nodes, id),
{
    lemma_expr_step(nodes, id);
    let e = expr_of(nodes, id);
    if id.0 < nodes.len() {
        match nodes[id.0 as int].kind {
            NodeKind::Unary { value, .. } => {
                let v = expr_of(nodes, value).walked();
                lemma_walked_valid(nodes, value);
                lemma_walked_first(nodes, value);
                assert forall|i: int| 0 < i < e.walked().len() implies {
                    let part = #[trigger] e.walked()[i];
                    &&& part.0 < nodes.len()
                    &&& finite_at(nodes, part)
                    &&& e.complete() ==> expr_of(nodes, part).complete()
                    &&& expr_of(nodes, part).weight() < e.weight()
                } by {
                    assert(e.walked()[i] == v[i - 1]);
                }
            },
            NodeKind::Binary { left, right, .. } => {
                let l = expr_of(nodes, left).walked();
                let r = expr_of(nodes, right).walked();
                lemma_walked_valid(nodes, left);
                lemma_walked_valid(nodes, right);
                lemma_walked_first(nodes, left);
                lemma_walked_first(nodes, right);
                assert forall|i: int| 0 < i < e.walked().len() implies {
                    let part = #[trigger] e.walked()[i];
                    &&& part.0 < nodes.len()
                    &&& finite_at(nodes, part)
                    &&& e.complete() ==> expr_of(nodes, part).complete()
                    &&& expr_of(nodes, part).weight() < e.weight()
                } by {
                    if i <= l.len() {
                        assert(e.walked()[i] == l[i - 1]);
                    } else {
                        assert(e.walked()[i] == r[i - 1 - l.len()]);
                    }
                }
            },
            _ => {},
        }
    }
}

/// A walk that meets anything meets its root first.
proof fn lemma_walked_first<Tag: Clone>(nodes: Seq<ExprNode<Tag>>, id: NodeId)
    requires
        finite_at(nodes, id),
    ensures
        expr_of(nodes, id).walked().len() > 0 ==> expr_of(nodes, id).walked()[0] == id,
{
    lemma_expr_step(nodes, id);
    lemma_walked_len(expr_of(nodes, id));
}

/// Two lists held one after the other are held as one.
pub proof fn lemma_holds_append<Tag: Clone>(
    before: Seq<ExprNode<Tag>>,
    after: Seq<ExprNode<Tag>>,
    base: nat,
    first: Seq<ExprNode<Tag>>,
    second: Seq<ExprNode<Tag>>,
)
    requires
        before.is_prefix_of(after),
        holds(before, base, first),
        holds(after, base + first.len(), second),
    ensures
        holds(after, base, first + second),
{
    assert forall|i: int| 0 <= i < (first + second).len() implies after[base + i].kind == (
    #[trigger] (first + second)[i]).kind && cloned((first + second)[i].tag, after[base + i].tag) by {
        if i < first.len() {
            assert((first + second)[i] == first[i]);
            assert(after[base + i] == before[base + i]);
        } else {
            assert((first + second)[i] == second[i - first.len()]);
        }
    }
}

impl<'a, Tag: Clone> ExprNodeIter<'a, Tag> {
    /// The arena walked over.
    pub closed spec fn arena(&self) -> &'a ExprArena<Tag> {
        self.arena
    }

    /// The subtrees still to be walked, the next one last.
    pub closed spec fn stack(&self) -> Seq<NodeId> {
        self.stack@
    }

    /// Whether every subtree still to be walked is finite.
    pub open spec fn finite(&self) -> bool {
        forall|i: int|
            0 <= i < self.stack().len() ==> finite_at(self.arena().nodes(), #[trigger] self.stack()[i])
    }

    /// The identifiers still to be handed out before the walk first answers
    /// `None`.
    pub open spec fn remaining(&self) -> Seq<NodeId> {
        pending(self.arena().nodes(), self.stack())
    }

    /// Hands out the next node ID. `None` if nothing is left to walk, or if
    /// the next ID is dangling, in which case it is dropped from the walk.
    pub fn next(&mut self) -> (r: Option<NodeId>)
        ensures
            final(self).arena() == old(self).arena(),
            old(self).stack().len() == 0 ==> r is None && final(self).stack() == old(self).stack(),
            old(self).stack().len() > 0 ==> {
                let top = old(self).stack().last();
                if old(self).arena().has(top) {
                    &&& r == Some(top)
                    &&& final(self).stack() == stepped(
                        old(self).stack(),
                        old(self).arena().nodes()[top.0 as int].kind,
                    )
                } else {
                    &&& r is None
                    &&& final(self).stack() == old(self).stack().drop_last()
                }
            },
            old(self).finite() ==> match r {
                Some(id) => final(self).finite() && old(self).remaining() == seq![id]
                    + final(self).remaining(),
                None => old(self).remaining().len() == 0,
            },
    {
        proof {
            if self.finite() && self.stack().len() > 0 {
                lemma_stepped(self.arena().nodes(), self.stack());
            }
        }
        match self.stack.pop() {
            None => None,
            Some(node_id) => match self.arena.get_node(node_id) {
                None => None,
                Some(node) => {
                    match node.kind {
                        NodeKind::Unary { value, .. } => {
                            self.stack.push(value);
                        },
                        NodeKind::Binary { left, right, .. } => {
                            self.stack.push(right);
                            self.stack.push(left);
                        },
                        NodeKind::Variable(_) | NodeKind::Parameter(_) => {},
                    }
                    Some(node_id)
                },
            },
        }
    }

    /// Hands out every remaining node ID, up to the first dangling one.
    pub fn collect(self) -> (r: Vec<NodeId>)
        requires
            self.finite(),
        ensures
            r@ == self.remaining(),
    {
        let ghost all = self.remaining();
        let mut walk = self;
        let mut out: Vec<NodeId> = Vec::new();
        loop
            invariant_except_break
                walk.finite(),
                out@ + walk.remaining() == all,
            ensures
                out@ == all,
            decreases load(walk.arena().nodes(), walk.stack()),
        {
            proof {
                if walk.stack().len() > 0 {
                    lemma_stepped(walk.arena().nodes(), walk.stack());
                }
            }
            let ghost before = walk.remaining();
            match walk.next() {
                Some(id) => {
                    assert(out@.push(id) + walk.remaining() == out@ + before);
                    out.push(id);
                },
                None => {
                    assert(out@ + before == out@);
                    break;
                },
            }
        }
        out
    }

    /// Number of node IDs left to hand out, up to the first dangling one.
    pub fn count(self) -> (n: usize)
        requires
            self.finite(),
        ensures
            n == self.remaining().len(),
    {
        self.collect().len()
    }
}

} // verus!
