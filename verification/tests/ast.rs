use expreon::ast::{ExprArena, ExprNode, NodeKind};
use expreon::types::{NodeId, OperationId, ParameterId, RootId, VariableId};

#[test]
fn test_invalid_node_returns_none() {
    let arena: ExprArena<()> = ExprArena::new();

    assert!(arena.get_node(NodeId::from(0)).is_none());
}

#[test]
fn test_arena_root_same_node_id() {
    let mut arena = ExprArena::new();

    let expr = arena.add(ExprNode::new_parameter(ParameterId::from(1), ()));
    let expr_root = arena.add_root(expr);

    assert_eq!(arena.get_root(expr_root).unwrap(), expr);
}

#[test]
fn test_invalid_root_returns_none() {
    let arena: ExprArena<()> = ExprArena::new();

    assert!(arena.get_root(RootId::from(0)).is_none());
}

#[test]
fn test_walk_unary_expr() {
    let mut arena = ExprArena::new();

    let child = arena.add(ExprNode::new_parameter(ParameterId::from(0), ()));
    let parent = arena.add(ExprNode::new_unary(child, OperationId::from(0), ()));

    arena.add_root(parent);
    let visited: Vec<NodeId> = arena.walk_expr(parent).collect();

    assert_eq!(visited, vec![parent, child]);
}

#[test]
fn test_walk_binary_expr_preorder() {
    let mut arena = ExprArena::new();

    let left = arena.add(ExprNode::new_parameter(ParameterId::from(1), ()));
    let right = arena.add(ExprNode::new_parameter(ParameterId::from(2), ()));
    let root_node = arena.add(ExprNode::new_binary(left, right, OperationId::from(0), ()));

    arena.add_root(root_node);
    let visited: Vec<NodeId> = arena.walk_expr(root_node).collect();

    assert_eq!(visited, vec![root_node, left, right]);
}

#[test]
fn test_walk_expr_invalid_node() {
    let arena: ExprArena<()> = ExprArena::new();

    assert_eq!(arena.walk_expr(NodeId::from(0)).count(), 0);
}

#[test]
fn test_walk_nested_expression() {
    let mut arena = ExprArena::new();

    let a = arena.add(ExprNode::new_parameter(ParameterId::from(0), ()));
    let b = arena.add(ExprNode::new_parameter(ParameterId::from(1), ()));
    let c = arena.add(ExprNode::new_variable(VariableId::from(2), ()));
    let mul = arena.add(ExprNode::new_binary(a, b, OperationId::from(1), ()));
    let add = arena.add(ExprNode::new_binary(mul, c, OperationId::from(2), ()));

    arena.add_root(add);

    let visited: Vec<NodeId> = arena.walk_expr(add).collect();

    assert_eq!(visited, vec![add, mul, a, b, c]);
}

#[test]
fn test_iter_expr_nodes() {
    let mut arena = ExprArena::new();

    let p = arena.add(ExprNode::new_parameter(ParameterId::from(123), ()));

    arena.add_root(p);

    let items = arena.iter_expr_nodes(p);

    assert_eq!(items.len(), 1);
    assert_eq!(items[0].0, p);

    match items[0].1.kind {
        NodeKind::Parameter(id) => {
            assert_eq!(id, ParameterId::from(123));
        }
        _ => panic!("expected parameter node"),
    }
}

#[test]
fn test_get_node_mut() {
    let mut arena = ExprArena::new();

    let p = arena.add(ExprNode::new_parameter(ParameterId::from(123), ()));

    assert!(
        matches!(arena.get_node(p).unwrap().kind, NodeKind::Parameter(i) if i == ParameterId::from(123))
    );

    {
        let node_mut = arena.get_node_mut(p).unwrap();
        node_mut.kind = NodeKind::Parameter(ParameterId::from(234));
    }

    assert!(
        matches!(arena.get_node(p).unwrap().kind, NodeKind::Parameter(i) if i == ParameterId::from(234))
    );
}

/// Builds `(p0 * v2) + p1` into `arena`, returning the root node id.
fn build_nested(arena: &mut ExprArena<()>) -> NodeId {
    let a = arena.add(ExprNode::new_parameter(ParameterId::from(0), ()));
    let b = arena.add(ExprNode::new_parameter(ParameterId::from(1), ()));
    let c = arena.add(ExprNode::new_variable(VariableId::from(2), ()));
    let mul = arena.add(ExprNode::new_binary(a, c, OperationId::from(1), ()));
    arena.add(ExprNode::new_binary(mul, b, OperationId::from(2), ()))
}

/// Asserts two subtrees (possibly in different arenas) are structurally
/// identical: same ops and leaf payloads, ignoring arena node ids.
fn assert_tree_eq(a: &ExprArena<()>, an: NodeId, b: &ExprArena<()>, bn: NodeId) {
    match (a.get_node(an).unwrap().kind, b.get_node(bn).unwrap().kind) {
        (NodeKind::Unary { value: av, op: ao }, NodeKind::Unary { value: bv, op: bo }) => {
            assert_eq!(ao, bo);
            assert_tree_eq(a, av, b, bv);
        }
        (
            NodeKind::Binary {
                left: al,
                right: ar,
                op: ao,
            },
            NodeKind::Binary {
                left: bl,
                right: br,
                op: bo,
            },
        ) => {
            assert_eq!(ao, bo);
            assert_tree_eq(a, al, b, bl);
            assert_tree_eq(a, ar, b, br);
        }
        (ka, kb) => assert_eq!(ka, kb),
    }
}

#[test]
fn copy_over_invalid_node_returns_none() {
    let src: ExprArena<()> = ExprArena::new();
    let mut dest: ExprArena<()> = ExprArena::new();

    assert!(src.copy_over(NodeId::from(0), &mut dest).is_none());
    assert!(dest.get_node(NodeId::from(0)).is_none());
}

#[test]
fn copy_over_leaf_preserves_kind() {
    let mut src: ExprArena<()> = ExprArena::new();
    let mut dest: ExprArena<()> = ExprArena::new();

    let p = src.add(ExprNode::new_parameter(ParameterId::from(7), ()));
    let copied = src.copy_over(p, &mut dest).unwrap();

    assert!(matches!(
        dest.get_node(copied).unwrap().kind,
        NodeKind::Parameter(id) if id == ParameterId::from(7)
    ));
}

#[test]
fn copy_over_preserves_structure_into_empty_arena() {
    let mut src: ExprArena<()> = ExprArena::new();
    let mut dest: ExprArena<()> = ExprArena::new();

    let root = build_nested(&mut src);
    let copied = src.copy_over(root, &mut dest).unwrap();

    assert_tree_eq(&dest, copied, &src, root);
    assert_eq!(dest.walk_expr(copied).count(), 5);
}

#[test]
fn copy_over_appends_after_existing_nodes() {
    let mut src: ExprArena<()> = ExprArena::new();
    let mut dest: ExprArena<()> = ExprArena::new();

    // Pre-populate dest so the copy must be offset past existing nodes.
    let existing = dest.add(ExprNode::new_variable(VariableId::from(9), ()));

    let root = build_nested(&mut src);
    let copied = src.copy_over(root, &mut dest).unwrap();

    // Existing node is untouched; the copy is structurally equal to the
    // source with its child ids remapped into dest (assert_tree_eq follows
    // those ids, so a bad remap would fail to resolve or mismatch).
    assert!(matches!(
        dest.get_node(existing).unwrap().kind,
        NodeKind::Variable(v) if v == VariableId::from(9)
    ));
    assert_tree_eq(&dest, copied, &src, root);
}

#[test]
fn copy_root_over_registers_new_root() {
    let mut src: ExprArena<()> = ExprArena::new();
    let mut dest: ExprArena<()> = ExprArena::new();

    let root_node = build_nested(&mut src);
    let src_root = src.add_root(root_node);

    let dest_root = src.copy_root_over(src_root, &mut dest).unwrap();

    let dest_root_node = dest.get_root(dest_root).unwrap();
    assert_tree_eq(&dest, dest_root_node, &src, root_node);
}

#[test]
fn copy_root_over_invalid_root_returns_none() {
    let src: ExprArena<()> = ExprArena::new();
    let mut dest: ExprArena<()> = ExprArena::new();

    assert!(src.copy_root_over(RootId::from(0), &mut dest).is_none());
}

#[test]
fn tags_follow_their_nodes_into_a_copy() {
    let mut src: ExprArena<u8> = ExprArena::new();
    let mut dest: ExprArena<u8> = ExprArena::new();
    let v = src.add(ExprNode::new_variable(VariableId::from(0), 3));
    let neg = src.add(ExprNode::new_unary(v, OperationId::from(0), 8));

    let copied = src.copy_over(neg, &mut dest).unwrap();
    let tags: Vec<u8> = dest.iter_expr_nodes(copied).iter().map(|(_, n)| n.tag).collect();
    assert_eq!(tags, vec![8, 3]);
}

#[test]
fn a_shared_node_is_copied_once_per_use() {
    let mut src: ExprArena<()> = ExprArena::new();
    let mut dest: ExprArena<()> = ExprArena::new();
    let p = src.add(ExprNode::new_parameter(ParameterId::from(0), ()));
    let add = src.add(ExprNode::new_binary(p, p, OperationId::from(0), ()));

    assert_eq!(src.node_count(add), 3);
    let copied = src.copy_over(add, &mut dest).unwrap();
    assert_eq!(dest.walk_expr(copied).collect(), vec![NodeId(2), NodeId(0), NodeId(1)]);
}

#[test]
fn dangling_operands_are_left_out_of_walks_and_refused_by_copies() {
    let mut src: ExprArena<()> = ExprArena::new();
    let mut dest: ExprArena<()> = ExprArena::new();
    let v = src.add(ExprNode::new_variable(VariableId::from(0), ()));
    let add = src.add(ExprNode::new_binary(v, NodeId(77), OperationId::from(0), ()));
    let root = src.add_root(add);

    assert_eq!(src.walk_expr(add).collect(), vec![add, v]);
    assert!(src.copy_over(add, &mut dest).is_none());
    assert!(src.copy_root_over(root, &mut dest).is_none());
    assert!(dest.get_root(RootId(0)).is_none());
}

#[test]
fn walk_root_starts_at_the_registered_node() {
    let mut arena: ExprArena<()> = ExprArena::new();
    let v = arena.add(ExprNode::new_variable(VariableId::from(0), ()));
    let root = arena.add_root(v);

    assert_eq!(arena.walk_root(root).unwrap().collect(), vec![v]);
    assert!(arena.walk_root(RootId(1)).is_none());
    let mut walk = arena.walk_expr(v);
    assert_eq!(walk.next(), Some(v));
    assert_eq!(walk.next(), None);
    assert_eq!(walk.next(), None);
}

#[test]
fn clear_forgets_nodes_and_roots() {
    let mut arena: ExprArena<()> = ExprArena::new();
    let v = arena.add(ExprNode::new_variable(VariableId::from(0), ()));
    let root = arena.add_root(v);
    arena.clear();

    assert!(arena.get_node(v).is_none());
    assert!(arena.get_root(root).is_none());
    assert_eq!(arena.add(ExprNode::new_variable(VariableId::from(1), ())), NodeId(0));
}

#[test]
fn identifiers_convert_both_ways() {
    assert_eq!(usize::from(NodeId::from(7)), 7);
    assert_eq!(usize::from(RootId::from(8)), 8);
    assert_eq!(u16::from(OperationId::from(9)), 9);
    assert_eq!(*ParameterId::from(10), 10);
    assert_eq!(*VariableId::from(11), 11);
}
