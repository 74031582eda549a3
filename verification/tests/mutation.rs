use expreon::array::{Buffer, Matrix};
use expreon::ast::{ExprArena, ExprNode, NodeKind};
use expreon::eval::EvalContext;
use expreon::gp::builder::NodeBuilder;
use expreon::gp::mutation::builtin::{
    addressable_slots, HoistMutation, InsertMutation, ParamJitter, PointMutation, SubtreeMutation, TerminalMutation,
};
use expreon::gp::mutation::dead_params::eliminate_dead_params;
use expreon::gp::mutation::{apply_mutation, copy_over_replacing, Mutation, MutationContext};
use expreon::gp::subtree::{GrowSubtreeConfig, TreeGenConfig};
use expreon::gp::{Genome, Individual};
use expreon::ops::{Arity, Operation, OperationSet, OperationTable, OperationTableBuilder};
use expreon::random::Reals;
use expreon::types::{NodeId, OperationId, ParameterId, RootId, Scalar, VariableId};
use rand::rngs::StdRng;
use rand::{Rng, SeedableRng};
use rand_distr::{Distribution, Normal};

fn float(x: Scalar) -> f32 {
    f32::from_bits(x)
}

fn b(x: f32) -> Scalar {
    x.to_bits()
}

fn bits(values: &[f32]) -> Vec<Scalar> {
    values.iter().map(|x| x.to_bits()).collect()
}

struct F32;

impl Reals for F32 {
    fn unit(rng: &mut StdRng) -> Scalar {
        rng.random::<f32>().to_bits()
    }

    fn uniform(rng: &mut StdRng, lo: Scalar, hi: Scalar) -> Scalar {
        rng.random_range(float(lo)..float(hi)).to_bits()
    }

    fn jittered(rng: &mut StdRng, current: Scalar, stddev: Scalar) -> Scalar {
        let delta = Normal::new(0.0f64, float(stddev) as f64).unwrap().sample(rng) as f32;
        (float(current) + delta).to_bits()
    }

    fn remainders(unit: Scalar, weights: &[Scalar]) -> Vec<Scalar> {
        let total: f32 = weights.iter().map(|w| float(*w)).sum();
        let mut pick = float(unit) * total;
        weights
            .iter()
            .map(|w| {
                pick -= float(*w);
                pick.to_bits()
            })
            .collect()
    }
}

#[derive(Clone)]
struct TestSimpleGenome;

impl Genome for TestSimpleGenome {
    type Tag = ();
    type Reals = F32;
    const INPUT_DIM: u16 = 2;

    fn get_tag_for_node(_kind: NodeKind) -> () {}
}

struct Add;
impl Operation for Add {
    const NAME: &'static str = "add";
    const ID: &'static str = "add";
    const ARITY: Arity = Arity::Binary;
    fn forward(i: &[Scalar]) -> Scalar {
        (float(i[0]) + float(i[1])).to_bits()
    }
}

struct Sub;
impl Operation for Sub {
    const NAME: &'static str = "sub";
    const ID: &'static str = "sub";
    const ARITY: Arity = Arity::Binary;
    fn forward(i: &[Scalar]) -> Scalar {
        (float(i[0]) - float(i[1])).to_bits()
    }
}

struct Mul;
impl Operation for Mul {
    const NAME: &'static str = "mul";
    const ID: &'static str = "mul";
    const ARITY: Arity = Arity::Binary;
    fn forward(i: &[Scalar]) -> Scalar {
        (float(i[0]) * float(i[1])).to_bits()
    }
}

struct Div;
impl Operation for Div {
    const NAME: &'static str = "div";
    const ID: &'static str = "div";
    const ARITY: Arity = Arity::Binary;
    fn forward(i: &[Scalar]) -> Scalar {
        (float(i[0]) / float(i[1])).to_bits()
    }
}

struct MathBaseOps;

impl OperationSet for MathBaseOps {
    fn register(op: &mut OperationTableBuilder) {
        op.register::<Add>();
        op.register::<Sub>();
        op.register::<Mul>();
        op.register::<Div>();
    }
}

fn base_ops() -> OperationTable {
    let mut b = OperationTableBuilder::new();
    b.register_set::<MathBaseOps>();
    b.build()
}

/// Builds `add(param(0), param(1))`.
fn build_two_param_tree(arena: &mut ExprArena<()>) -> (RootId, Vec<Scalar>) {
    let p0 = arena.add(ExprNode::new_parameter(ParameterId::from(0u16), ()));
    let p1 = arena.add(ExprNode::new_parameter(ParameterId::from(1u16), ()));
    let add = arena.add(ExprNode::new_binary(p0, p1, OperationId::from(0u16), ()));
    let root = arena.add_root(add);
    (root, bits(&[1.0, 2.0]))
}

/// Number of nodes of the tree at `root`.
fn count(arena: &ExprArena<()>, root: RootId) -> usize {
    let node = arena.get_root(root).unwrap();
    arena.iter_expr_nodes(node).len()
}

/// The parameters that the tree at `root` reads, in the order of a walk.
fn parameter_ids(arena: &ExprArena<()>, root: RootId) -> Vec<u16> {
    let node = arena.get_root(root).unwrap();
    arena
        .iter_expr_nodes(node)
        .iter()
        .filter_map(|(_, n)| match n.kind {
            NodeKind::Parameter(pid) => Some(*pid),
            _ => None,
        })
        .collect()
}

/// The first parameter node that a walk over the tree at `root` meets.
fn first_parameter(arena: &ExprArena<()>, root: RootId) -> NodeId {
    let node = arena.get_root(root).unwrap();
    arena
        .iter_expr_nodes(node)
        .iter()
        .find(|(_, n)| matches!(n.kind, NodeKind::Parameter(_)))
        .map(|(id, _)| *id)
        .unwrap()
}

/// Evaluates an offspring once, which confirms that it is structurally valid.
fn eval_ok(
    dest: &ExprArena<()>,
    ops: &OperationTable,
    offspring: &Individual<TestSimpleGenome>,
) -> Buffer {
    let root_node = dest.get_root(offspring.root).unwrap();
    let eval_ctx = EvalContext::new(dest, ops);
    let inputs = Matrix::from_shape_vec(1, 2, bits(&[0.5, 1.0])).unwrap();
    let n_params = offspring.parameters.len();
    let mut v = offspring.parameters.clone();
    if n_params == 0 {
        v.push(b(0.0));
    }
    let params = Matrix::from_shape_vec(1, n_params.max(1), v).unwrap();
    eval_ctx.eval_batch(root_node, &inputs, &params)
}

fn grow_config() -> GrowSubtreeConfig {
    GrowSubtreeConfig {
        max_depth: 3,
        tuning: TreeGenConfig {
            p_terminal: b(0.3),
            n_variables: 2,
            const_range: (b(-1.0), b(1.0)),
        },
    }
}

/// A mutation that swaps the target subtree for variable(0), making any
/// parameter the target referenced dead.
struct ReplaceWithVariable;

impl Mutation<TestSimpleGenome> for ReplaceWithVariable {
    fn applies_to(&self, _kind: NodeKind) -> bool {
        true
    }

    fn apply(
        &self,
        _target: NodeId,
        _node: &ExprNode<()>,
        ctx: &mut MutationContext<'_, TestSimpleGenome>,
    ) -> Option<NodeId> {
        Some(ctx.emit(ExprNode::new_variable(VariableId::from(0u16), ())))
    }
}

/// Runs the elimination, and collects the surviving parameter ids (in tree
/// walk order) and the surviving values.
fn run_elim(
    arena: &mut ExprArena<()>,
    params: &mut Vec<Scalar>,
    root: RootId,
) -> (Vec<u16>, Vec<Scalar>) {
    eliminate_dead_params(arena, params, root);
    (parameter_ids(arena, root), params.clone())
}

#[test]
fn mod_copy_subtree_round_trip() {
    let mut rng = StdRng::seed_from_u64(0);
    let ops = base_ops();
    let mut src: ExprArena<()> = ExprArena::new();
    let mut dest: ExprArena<()> = ExprArena::new();

    let (root, mut params) = build_two_param_tree(&mut src);
    let root_node = src.get_root(root).unwrap();

    let copied = {
        let mut ctx: MutationContext<'_, TestSimpleGenome> =
            MutationContext::new(&src, &ops, &mut rng, &mut dest, &mut params);
        ctx.copy_subtree(root_node)
    };

    // Node counts should match.
    let dest_root = dest.add_root(copied);
    assert_eq!(count(&src, root), count(&dest, dest_root));
}

#[test]
fn mod_apply_mutation_runs_dead_param_elimination_and_clones_parent() {
    let ops = base_ops();
    let mut src: ExprArena<()> = ExprArena::new();
    let mut dest: ExprArena<()> = ExprArena::new();

    // add(param(0), param(1)) with params [1.0, 2.0].
    let (root, params) = build_two_param_tree(&mut src);

    // Target param(1)'s node: replacing it yields add(param(0), variable(0)),
    // leaving param(1) (value 2.0) dead.
    let root_node = src.get_root(root).unwrap();
    let target = src
        .iter_expr_nodes(root_node)
        .iter()
        .find_map(|(id, n)| match n.kind {
            NodeKind::Parameter(pid) if *pid == 1 => Some(*id),
            _ => None,
        })
        .unwrap();

    let parent = Individual::<TestSimpleGenome>::new(root, params);
    let mut rng = StdRng::seed_from_u64(7);

    let offspring = apply_mutation(
        &ReplaceWithVariable,
        target,
        &parent,
        &src,
        &mut dest,
        &ops,
        &mut rng,
    )
    .unwrap();

    // Dead-param elimination ran: only the surviving param(0) (1.0) remains,
    // renumbered densely from 0.
    assert_eq!(offspring.parameters, bits(&[1.0]));
    assert_eq!(parameter_ids(&dest, offspring.root), vec![0]);

    // The parent's parameters are untouched: the offspring owns a clone.
    assert_eq!(parent.parameters, bits(&[1.0, 2.0]));
}

#[test]
fn mod_dead_params_all_live_unchanged() {
    // add(param(0), param(1)): both params are used, nothing to eliminate.
    let mut arena: ExprArena<()> = ExprArena::new();
    let p0 = arena.add(ExprNode::new_parameter(ParameterId::from(0u16), ()));
    let p1 = arena.add(ExprNode::new_parameter(ParameterId::from(1u16), ()));
    let add = arena.add(ExprNode::new_binary(p0, p1, OperationId::from(0u16), ()));
    let root = arena.add_root(add);
    let mut params = bits(&[1.0, 2.0]);

    let (ids, surviving) = run_elim(&mut arena, &mut params, root);
    assert_eq!(ids, vec![0, 1]);
    assert_eq!(surviving, bits(&[1.0, 2.0]));
}

#[test]
fn mod_dead_params_trailing_param_eliminated() {
    // add(param(0), variable(0)): param(1) is in the params vec but not used.
    let mut arena: ExprArena<()> = ExprArena::new();
    let p0 = arena.add(ExprNode::new_parameter(ParameterId::from(0u16), ()));
    let v0 = arena.add(ExprNode::new_variable(VariableId::from(0u16), ()));
    let add = arena.add(ExprNode::new_binary(p0, v0, OperationId::from(0u16), ()));
    let root = arena.add_root(add);
    let mut params = bits(&[1.0, 99.0]);

    let (ids, surviving) = run_elim(&mut arena, &mut params, root);
    assert_eq!(ids, vec![0]);
    assert_eq!(surviving, bits(&[1.0]));
}

#[test]
fn mod_dead_params_leading_param_removed() {
    // add(param(1), variable(0)): param(0) is unused; param(1) should become
    // param(0).
    let mut arena: ExprArena<()> = ExprArena::new();
    let p1 = arena.add(ExprNode::new_parameter(ParameterId::from(1u16), ()));
    let v0 = arena.add(ExprNode::new_variable(VariableId::from(0u16), ()));
    let add = arena.add(ExprNode::new_binary(p1, v0, OperationId::from(0u16), ()));
    let root = arena.add_root(add);
    let mut params = bits(&[99.0, 2.0]);

    let (ids, surviving) = run_elim(&mut arena, &mut params, root);
    assert_eq!(ids, vec![0]);
    assert_eq!(surviving, bits(&[2.0]));
}

#[test]
fn mod_dead_params_middle_gap_eliminated() {
    // add(param(0), param(2)): param(1) is unused; param(2) should become
    // param(1).
    let mut arena: ExprArena<()> = ExprArena::new();
    let p0 = arena.add(ExprNode::new_parameter(ParameterId::from(0u16), ()));
    let p2 = arena.add(ExprNode::new_parameter(ParameterId::from(2u16), ()));
    let add = arena.add(ExprNode::new_binary(p0, p2, OperationId::from(0u16), ()));
    let root = arena.add_root(add);
    let mut params = bits(&[1.0, 99.0, 3.0]);

    let (ids, surviving) = run_elim(&mut arena, &mut params, root);
    assert_eq!(ids, vec![0, 1]);
    assert_eq!(surviving, bits(&[1.0, 3.0]));
}

#[test]
fn mod_dead_params_all_dead_clears_params() {
    // variable(0): no parameters at all; params vec should be cleared.
    let mut arena: ExprArena<()> = ExprArena::new();
    let v = arena.add(ExprNode::new_variable(VariableId::from(0u16), ()));
    let root = arena.add_root(v);
    let mut params = bits(&[1.0, 2.0, 3.0]);

    let (ids, surviving) = run_elim(&mut arena, &mut params, root);
    assert!(ids.is_empty());
    assert!(surviving.is_empty());
}

#[test]
fn mod_dead_params_duplicate_reference_preserved_once() {
    // add(param(0), param(0)): same param referenced twice; should appear once
    // in params.
    let mut arena: ExprArena<()> = ExprArena::new();
    let p0a = arena.add(ExprNode::new_parameter(ParameterId::from(0u16), ()));
    let p0b = arena.add(ExprNode::new_parameter(ParameterId::from(0u16), ()));
    let add = arena.add(ExprNode::new_binary(p0a, p0b, OperationId::from(0u16), ()));
    let root = arena.add_root(add);
    let mut params = bits(&[42.0]);

    let (ids, surviving) = run_elim(&mut arena, &mut params, root);
    // Both nodes still refer to pid 0; params shrinks to just the one entry.
    assert_eq!(ids, vec![0, 0]);
    assert_eq!(surviving, bits(&[42.0]));
}

#[test]
fn mod_dead_params_numbering_follows_dfs_preorder() {
    // add(param(1), param(0)): left child is param(1), right is param(0).
    // DFS pre-order visits left before right, so param(1) is seen first
    // and should become new param(0); param(0) becomes new param(1).
    let mut arena: ExprArena<()> = ExprArena::new();
    let p1 = arena.add(ExprNode::new_parameter(ParameterId::from(1u16), ()));
    let p0 = arena.add(ExprNode::new_parameter(ParameterId::from(0u16), ()));
    let add = arena.add(ExprNode::new_binary(p1, p0, OperationId::from(0u16), ()));
    let root = arena.add_root(add);
    let mut params = bits(&[10.0, 20.0]);

    let (ids, surviving) = run_elim(&mut arena, &mut params, root);
    // left param (old 1, value 20.0) -> new id 0
    // right param (old 0, value 10.0) -> new id 1
    assert_eq!(ids, vec![0, 1]);
    assert_eq!(surviving, bits(&[20.0, 10.0]));
}

#[test]
fn builtin_point_mutation_preserves_arity() {
    let ops = base_ops();
    let mut src: ExprArena<()> = ExprArena::new();
    let mut dest: ExprArena<()> = ExprArena::new();
    let (root, params) = build_two_param_tree(&mut src);

    // PointMutation on an operator node: here the root `add`.
    let target = src.get_root(root).unwrap();
    let parent = Individual::<TestSimpleGenome>::new(root, params);
    let mut rng = StdRng::seed_from_u64(1);

    let offspring = apply_mutation(
        &PointMutation,
        target,
        &parent,
        &src,
        &mut dest,
        &ops,
        &mut rng,
    )
    .unwrap();

    // Same number of nodes.
    assert_eq!(count(&src, parent.root), count(&dest, offspring.root));
}

#[test]
fn builtin_param_jitter_changes_exactly_one_param() {
    let ops = base_ops();
    let mut src: ExprArena<()> = ExprArena::new();
    let mut dest: ExprArena<()> = ExprArena::new();

    let (root, params) = build_two_param_tree(&mut src);
    let original_params = params.clone();

    // ParamJitter acts on a parameter node: pick the first one.
    let target = first_parameter(&src, root);

    let parent = Individual::<TestSimpleGenome>::new(root, params);
    let mut rng = StdRng::seed_from_u64(2);

    let offspring = apply_mutation(
        &ParamJitter { stddev: b(0.1) },
        target,
        &parent,
        &src,
        &mut dest,
        &ops,
        &mut rng,
    )
    .unwrap();

    // Same tree structure (same number of nodes).
    assert_eq!(count(&src, parent.root), count(&dest, offspring.root));

    // Exactly one parameter should have changed.
    let changed = offspring
        .parameters
        .iter()
        .zip(&original_params)
        .filter(|(x, y)| (float(**x) - float(**y)).abs() > 1e-9)
        .count();
    assert_eq!(changed, 1);
}

#[test]
fn builtin_subtree_mutation_produces_valid_tree() {
    let ops = base_ops();
    let mut src: ExprArena<()> = ExprArena::new();
    let mut dest: ExprArena<()> = ExprArena::new();
    let (root, params) = build_two_param_tree(&mut src);

    // SubtreeMutation can replace any node: target the root.
    let target = src.get_root(root).unwrap();
    let parent = Individual::<TestSimpleGenome>::new(root, params);
    let mut rng = StdRng::seed_from_u64(3);

    let offspring = apply_mutation(
        &SubtreeMutation { grow: grow_config() },
        target,
        &parent,
        &src,
        &mut dest,
        &ops,
        &mut rng,
    )
    .unwrap();

    // Must not panic.
    assert_eq!(eval_ok(&dest, &ops, &offspring).len(), 1);
}

#[test]
fn hoist_mutation_shrinks_tree() {
    let ops = base_ops();
    let mut src: ExprArena<()> = ExprArena::new();
    let mut dest: ExprArena<()> = ExprArena::new();
    let (root, params) = build_two_param_tree(&mut src);

    // The root binary node has descendants to hoist.
    let target = src.get_root(root).unwrap();
    let parent = Individual::<TestSimpleGenome>::new(root, params);
    let mut rng = StdRng::seed_from_u64(5);

    let offspring =
        apply_mutation(&HoistMutation, target, &parent, &src, &mut dest, &ops, &mut rng).unwrap();

    let src_count = count(&src, parent.root);
    let dest_count = count(&dest, offspring.root);
    assert!(
        dest_count < src_count,
        "hoist should shrink the tree ({dest_count} !< {src_count})"
    );
    eval_ok(&dest, &ops, &offspring);
}

#[test]
fn hoist_mutation_is_deterministic() {
    let ops = base_ops();
    let run = |seed: u64| {
        let mut src: ExprArena<()> = ExprArena::new();
        let mut dest: ExprArena<()> = ExprArena::new();
        let (root, params) = build_two_param_tree(&mut src);
        let target = src.get_root(root).unwrap();
        let parent = Individual::<TestSimpleGenome>::new(root, params);
        let mut rng = StdRng::seed_from_u64(seed);
        let off = apply_mutation(&HoistMutation, target, &parent, &src, &mut dest, &ops, &mut rng)
            .unwrap();
        let off_root = dest.get_root(off.root).unwrap();
        let kinds: Vec<NodeKind> =
            dest.iter_expr_nodes(off_root).iter().map(|(_, n)| n.kind).collect();
        (kinds, off.parameters)
    };
    assert_eq!(run(5), run(5));
}

#[test]
fn insert_mutation_grows_tree() {
    let ops = base_ops();
    let mut src: ExprArena<()> = ExprArena::new();
    let mut dest: ExprArena<()> = ExprArena::new();
    let (root, params) = build_two_param_tree(&mut src);

    let target = src.get_root(root).unwrap();
    let parent = Individual::<TestSimpleGenome>::new(root, params);
    let mut rng = StdRng::seed_from_u64(11);

    let offspring = apply_mutation(
        &InsertMutation {
            const_range: (b(-1.0), b(1.0)),
            p_binary: b(0.5),
        },
        target,
        &parent,
        &src,
        &mut dest,
        &ops,
        &mut rng,
    )
    .unwrap();

    let src_count = count(&src, parent.root);
    let dest_count = count(&dest, offspring.root);
    assert!(
        dest_count > src_count,
        "insert should grow the tree ({dest_count} !> {src_count})"
    );
    eval_ok(&dest, &ops, &offspring);
}

#[test]
fn terminal_mutation_preserves_node_count() {
    let ops = base_ops();
    let mut src: ExprArena<()> = ExprArena::new();
    let mut dest: ExprArena<()> = ExprArena::new();
    let (root, params) = build_two_param_tree(&mut src);

    let target = first_parameter(&src, root);

    let parent = Individual::<TestSimpleGenome>::new(root, params);
    let mut rng = StdRng::seed_from_u64(13);

    let offspring = apply_mutation(
        &TerminalMutation {
            const_range: (b(-1.0), b(1.0)),
            p_variable: b(0.5),
        },
        target,
        &parent,
        &src,
        &mut dest,
        &ops,
        &mut rng,
    )
    .unwrap();

    assert_eq!(
        count(&src, parent.root),
        count(&dest, offspring.root),
        "terminal mutation must not change node count"
    );
    eval_ok(&dest, &ops, &offspring);
}

#[test]
fn a_mutation_needs_a_root_and_a_node() {
    let ops = base_ops();
    let mut src: ExprArena<()> = ExprArena::new();
    let mut dest: ExprArena<()> = ExprArena::new();
    let (root, params) = build_two_param_tree(&mut src);
    let target = src.get_root(root).unwrap();
    let mut rng = StdRng::seed_from_u64(0);

    let lost = Individual::<TestSimpleGenome>::new(RootId(9), params.clone());
    assert!(
        apply_mutation(&PointMutation, target, &lost, &src, &mut dest, &ops, &mut rng).is_none()
    );
    let parent = Individual::<TestSimpleGenome>::new(root, params);
    assert!(
        apply_mutation(&PointMutation, NodeId(9), &parent, &src, &mut dest, &ops, &mut rng)
            .is_none()
    );
    assert!(dest.get_node(NodeId(0)).is_none());
}

#[test]
fn terminal_mutation_without_variables_redraws_the_constant_in_place() {
    let ops = base_ops();
    let mut src: ExprArena<()> = ExprArena::new();
    let mut dest: ExprArena<()> = ExprArena::new();
    let (root, params) = build_two_param_tree(&mut src);
    let target = first_parameter(&src, root);
    let parent = Individual::<TestSimpleGenome>::new(root, params);
    let mut rng = StdRng::seed_from_u64(21);

    let offspring = apply_mutation(
        &TerminalMutation {
            const_range: (b(5.0), b(6.0)),
            p_variable: b(0.0),
        },
        target,
        &parent,
        &src,
        &mut dest,
        &ops,
        &mut rng,
    )
    .unwrap();
    assert_eq!(parameter_ids(&dest, offspring.root), vec![0, 1]);
    assert_eq!(offspring.parameters.len(), 2);
    let redrawn = float(offspring.parameters[0]);
    assert!((5.0..6.0).contains(&redrawn));
    assert_eq!(float(offspring.parameters[1]), 2.0);
}

#[test]
fn a_swapped_operator_keeps_its_operands_in_order() {
    let ops = base_ops();
    let mut src: ExprArena<()> = ExprArena::new();
    let mut dest: ExprArena<()> = ExprArena::new();
    let (root, mut params) = build_two_param_tree(&mut src);
    let target = src.get_root(root).unwrap();
    let mut rng = StdRng::seed_from_u64(0);
    let id = {
        let mut ctx: MutationContext<'_, TestSimpleGenome> =
            MutationContext::new(&src, &ops, &mut rng, &mut dest, &mut params);
        let node = src.get_node(target).unwrap();
        PointMutation::swap_operator(target, node, OperationId(1), &mut ctx)
    };
    let eval = EvalContext::new(&dest, &ops);
    // 1 - 2
    let value = eval.eval(id, &Buffer::zeros(0), &Buffer::from_vec(params));
    assert_eq!(float(value), -1.0);
}

#[test]
fn point_mutation_swaps_a_leaf_for_one_of_its_kind() {
    let ops = base_ops();
    let mut src: ExprArena<()> = ExprArena::new();
    let v = src.add(ExprNode::new_variable(VariableId(0), ()));
    let p = src.add(ExprNode::new_parameter(ParameterId(1), ()));
    let add = src.add(ExprNode::new_binary(v, p, OperationId(0), ()));
    let root = src.add_root(add);
    let parent = Individual::<TestSimpleGenome>::new(root, bits(&[4.0, 5.0]));
    let mut variables: Vec<u16> = Vec::new();
    let mut values: Vec<f32> = Vec::new();
    for seed in 0..40u64 {
        let mut rng = StdRng::seed_from_u64(seed);
        for target in [v, p] {
            assert!(Mutation::<TestSimpleGenome>::applies_to(
                &PointMutation,
                src.get_node(target).unwrap().kind
            ));
            let mut dest: ExprArena<()> = ExprArena::new();
            let child =
                apply_mutation(&PointMutation, target, &parent, &src, &mut dest, &ops, &mut rng)
                    .unwrap();
            let top = dest.get_root(child.root).unwrap();
            assert_eq!(dest.node_count(top), 3);
            let (left, right) = match dest.get_node(top).unwrap().kind {
                NodeKind::Binary { left, right, op: OperationId(0) } => (left, right),
                other => panic!("not the same operator: {:?}", other),
            };
            match (dest.get_node(left).unwrap().kind, dest.get_node(right).unwrap().kind) {
                (NodeKind::Variable(var), NodeKind::Parameter(param)) => {
                    if target == v {
                        variables.push(var.0);
                        assert_eq!(child.parameters, bits(&[5.0]));
                    } else {
                        assert_eq!(var, VariableId(0));
                        values.push(float(child.parameters[param.0 as usize]));
                    }
                }
                other => panic!("not the same kinds: {:?}", other),
            }
        }
    }
    variables.sort();
    variables.dedup();
    assert_eq!(variables, vec![0, 1]);
    assert!(values.contains(&4.0) && values.contains(&5.0));
}

#[test]
fn a_swapped_leaf_is_emitted_alone() {
    let ops = base_ops();
    let src: ExprArena<()> = ExprArena::new();
    let mut dest: ExprArena<()> = ExprArena::new();
    let mut params = bits(&[1.0]);
    let mut rng = StdRng::seed_from_u64(0);
    let id = {
        let mut ctx: MutationContext<'_, TestSimpleGenome> =
            MutationContext::new(&src, &ops, &mut rng, &mut dest, &mut params);
        PointMutation::swap_leaf(NodeKind::Variable(VariableId(1)), &mut ctx)
    };
    assert_eq!(id, NodeId(0));
    assert_eq!(dest.get_node(id).unwrap().kind, NodeKind::Variable(VariableId(1)));
    assert!(dest.get_node(NodeId(1)).is_none());
    assert_eq!(params, bits(&[1.0]));
}

#[test]
fn identifiers_reach_so_many_slots() {
    assert_eq!(addressable_slots(0), 0);
    assert_eq!(addressable_slots(65535), 65535);
    assert_eq!(addressable_slots(65536), 65536);
    assert_eq!(addressable_slots(70000), 65536);
}

#[test]
fn every_use_of_the_target_is_replaced() {
    let mut src: ExprArena<()> = ExprArena::new();
    let p = src.add(ExprNode::new_parameter(ParameterId(0), ()));
    let twice = src.add(ExprNode::new_binary(p, p, OperationId(0), ()));
    let mut dest: ExprArena<()> = ExprArena::new();
    let v = dest.add(ExprNode::new_variable(VariableId(1), ()));

    let id = copy_over_replacing(&src, twice, p, Some(v), &mut dest);
    assert_eq!(
        dest.get_node(id).unwrap().kind,
        NodeKind::Binary { left: v, right: v, op: OperationId(0) }
    );

    // Without a replacement the target is copied like the rest.
    let id = copy_over_replacing(&src, twice, p, None, &mut dest);
    assert_eq!(dest.node_count(id), 3);
}

#[test]
fn a_shared_parameter_node_is_renumbered_once() {
    let mut arena: ExprArena<()> = ExprArena::new();
    let p2 = arena.add(ExprNode::new_parameter(ParameterId(2), ()));
    let p1 = arena.add(ExprNode::new_parameter(ParameterId(1), ()));
    let left = arena.add(ExprNode::new_binary(p2, p1, OperationId(0), ()));
    let all = arena.add(ExprNode::new_binary(left, p2, OperationId(0), ()));
    let root = arena.add_root(all);
    let mut params = bits(&[5.0, 6.0, 7.0]);

    let (ids, surviving) = run_elim(&mut arena, &mut params, root);
    assert_eq!(ids, vec![0, 1, 0]);
    assert_eq!(surviving, bits(&[7.0, 6.0]));
    // A second elimination changes nothing.
    let (ids, surviving) = run_elim(&mut arena, &mut params, root);
    assert_eq!(ids, vec![0, 1, 0]);
    assert_eq!(surviving, bits(&[7.0, 6.0]));
}

#[test]
fn eliminating_dead_parameters_keeps_the_value() {
    let ops = base_ops();
    let mut arena: ExprArena<()> = ExprArena::new();
    let p2 = arena.add(ExprNode::new_parameter(ParameterId(2), ()));
    let p0 = arena.add(ExprNode::new_parameter(ParameterId(0), ()));
    let sub = arena.add(ExprNode::new_binary(p2, p0, OperationId(1), ()));
    let root = arena.add_root(sub);
    let mut params = bits(&[1.0, 50.0, 4.0]);
    let value = |arena: &ExprArena<()>, params: &[Scalar]| {
        let eval = EvalContext::new(arena, &ops);
        float(eval.eval(sub, &Buffer::zeros(0), &Buffer::from_vec(params.to_vec())))
    };
    assert_eq!(value(&arena, &params), 3.0);
    eliminate_dead_params(&mut arena, &mut params, root);
    assert_eq!(params, bits(&[4.0, 1.0]));
    assert_eq!(value(&arena, &params), 3.0);
}
