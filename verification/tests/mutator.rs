use expreon::array::{Buffer, Matrix};
use expreon::ast::{ExprArena, ExprNode, NodeKind};
use expreon::eval::EvalContext;
use expreon::gp::builder::NodeBuilder;
use expreon::gp::mutation::builtin::{
    HoistMutation, InsertMutation, ParamJitter, PointMutation, SubtreeMutation, TerminalMutation,
};
use expreon::gp::mutation::dead_params::eliminate_dead_params;
use expreon::gp::mutation::mutator::{pick_weighted, Mutator};
use expreon::gp::mutation::{apply_mutation, Mutation, MutationContext};
use expreon::gp::subtree::{GrowSubtreeConfig, TreeGenConfig};
use expreon::gp::{Genome, Individual};
use expreon::ops::{Arity, Operation, OperationSet, OperationTable, OperationTableBuilder};
use expreon::random::Reals;
use expreon::types::{NodeId, OperationId, ParameterId, RootId, Scalar, VariableId};
use rand::rngs::StdRng;
use rand::{Rng, SeedableRng};
use rand_distr::{Distribution, Normal};

fn float(x: Scalar) -> f32 {
    f32::from_bits(x)
}

fn b(x: f32) -> Scalar {
    x.to_bits()
}

fn bits(values: &[f32]) -> Vec<Scalar> {
    values.iter().map(|x| x.to_bits()).collect()
}

struct F32;

impl Reals for F32 {
    fn unit(rng: &mut StdRng) -> Scalar {
        rng.random::<f32>().to_bits()
    }

    fn uniform(rng: &mut StdRng, lo: Scalar, hi: Scalar) -> Scalar {
        rng.random_range(float(lo)..float(hi)).to_bits()
    }

    fn jittered(rng: &mut StdRng, current: Scalar, stddev: Scalar) -> Scalar {
        let delta = Normal::new(0.0f64, float(stddev) as f64).unwrap().sample(rng) as f32;
        (float(current) + delta).to_bits()
    }

    fn remainders(unit: Scalar, weights: &[Scalar]) -> Vec<Scalar> {
        let total: f32 = weights.iter().map(|w| float(*w)).sum();
        let mut pick = float(unit) * total;
        weights
            .iter()
            .map(|w| {
                pick -= float(*w);
                pick.to_bits()
            })
            .collect()
    }
}

#[derive(Clone)]
struct TestSimpleGenome;

impl Genome for TestSimpleGenome {
    type Tag = ();
    type Reals = F32;
    const INPUT_DIM: u16 = 2;

    fn get_tag_for_node(_kind: NodeKind) -> () {}
}

struct Add;
impl Operation for Add {
    const NAME: &'static str = "add";
    const ID: &'static str = "add";
    const ARITY: Arity = Arity::Binary;
    fn forward(i: &[Scalar]) -> Scalar {
        (float(i[0]) + float(i[1])).to_bits()
    }
}

struct Sub;
impl Operation for Sub {
    const NAME: &'static str = "sub";
    const ID: &'static str = "sub";
    const ARITY: Arity = Arity::Binary;
    fn forward(i: &[Scalar]) -> Scalar {
        (float(i[0]) - float(i[1])).to_bits()
    }
}

struct Mul;
impl Operation for Mul {
    const NAME: &'static str = "mul";
    const ID: &'static str = "mul";
    const ARITY: Arity = Arity::Binary;
    fn forward(i: &[Scalar]) -> Scalar {
        (float(i[0]) * float(i[1])).to_bits()
    }
}

struct Div;
impl Operation for Div {
    const NAME: &'static str = "div";
    const ID: &'static str = "div";
    const ARITY: Arity = Arity::Binary;
    fn forward(i: &[Scalar]) -> Scalar {
        (float(i[0]) / float(i[1])).to_bits()
    }
}

struct MathBaseOps;

impl OperationSet for MathBaseOps {
    fn register(op: &mut OperationTableBuilder) {
        op.register::<Add>();
        op.register::<Sub>();
        op.register::<Mul>();
        op.register::<Div>();
    }
}

fn base_ops() -> OperationTable {
    let mut b = OperationTableBuilder::new();
    b.register_set::<MathBaseOps>();
    b.build()
}

/// Builds `add(param(0), param(1))`.
fn build_two_param_tree(arena: &mut ExprArena<()>) -> (RootId, Vec<Scalar>) {
    let p0 = arena.add(ExprNode::new_parameter(ParameterId::from(0u16), ()));
    let p1 = arena.add(ExprNode::new_parameter(ParameterId::from(1u16), ()));
    let add = arena.add(ExprNode::new_binary(p0, p1, OperationId::from(0u16), ()));
    let root = arena.add_root(add);
    (root, bits(&[1.0, 2.0]))
}

/// Number of nodes of the tree at `root`.
fn count(arena: &ExprArena<()>, root: RootId) -> usize {
    let node = arena.get_root(root).unwrap();
    arena.iter_expr_nodes(node).len()
}

/// The parameters that the tree at `root` reads, in the order of a walk.
fn parameter_ids(arena: &ExprArena<()>, root: RootId) -> Vec<u16> {
    let node = arena.get_root(root).unwrap();
    arena
        .iter_expr_nodes(node)
        .iter()
        .filter_map(|(_, n)| match n.kind {
            NodeKind::Parameter(pid) => Some(*pid),
            _ => None,
        })
        .collect()
}

/// The first parameter node that a walk over the tree at `root` meets.
fn first_parameter(arena: &ExprArena<()>, root: RootId) -> NodeId {
    let node = arena.get_root(root).unwrap();
    arena
        .iter_expr_nodes(node)
        .iter()
        .find(|(_, n)| matches!(n.kind, NodeKind::Parameter(_)))
        .map(|(id, _)| *id)
        .unwrap()
}

/// Evaluates an offspring once, which confirms that it is structurally valid.
fn eval_ok(
    dest: &ExprArena<()>,
    ops: &OperationTable,
    offspring: &Individual<TestSimpleGenome>,
) -> Buffer {
    let root_node = dest.get_root(offspring.root).unwrap();
    let eval_ctx = EvalContext::new(dest, ops);
    let inputs = Matrix::from_shape_vec(1, 2, bits(&[0.5, 1.0])).unwrap();
    let n_params = offspring.parameters.len();
    let mut v = offspring.parameters.clone();
    if n_params == 0 {
        v.push(b(0.0));
    }
    let params = Matrix::from_shape_vec(1, n_params.max(1), v).unwrap();
    eval_ctx.eval_batch(root_node, &inputs, &params)
}

fn grow_config() -> GrowSubtreeConfig {
    GrowSubtreeConfig {
        max_depth: 3,
        tuning: TreeGenConfig {
            p_terminal: b(0.3),
            n_variables: 2,
            const_range: (b(-1.0), b(1.0)),
        },
    }
}

/// A mutation that swaps the target subtree for variable(0), making any
/// parameter the target referenced dead.
struct ReplaceWithVariable;

impl Mutation<TestSimpleGenome> for ReplaceWithVariable {
    fn applies_to(&self, _kind: NodeKind) -> bool {
        true
    }

    fn apply(
        &self,
        _target: NodeId,
        _node: &ExprNode<()>,
        ctx: &mut MutationContext<'_, TestSimpleGenome>,
    ) -> Option<NodeId> {
        Some(ctx.emit(ExprNode::new_variable(VariableId::from(0u16), ())))
    }
}

/// Runs the elimination, and collects the surviving parameter ids (in tree
/// walk order) and the surviving values.
fn run_elim(
    arena: &mut ExprArena<()>,
    params: &mut Vec<Scalar>,
    root: RootId,
) -> (Vec<u16>, Vec<Scalar>) {
    eliminate_dead_params(arena, params, root);
    (parameter_ids(arena, root), params.clone())
}

#[test]
fn mutator_copy_subtree_round_trip() {
    let mut rng = StdRng::seed_from_u64(0);
    let ops = base_ops();
    let mut src: ExprArena<()> = ExprArena::new();
    let mut dest: ExprArena<()> = ExprArena::new();

    let (root, mut params) = build_two_param_tree(&mut src);
    let root_node = src.get_root(root).unwrap();

    let copied = {
        let mut ctx: MutationContext<'_, TestSimpleGenome> =
            MutationContext::new(&src, &ops, &mut rng, &mut dest, &mut params);
        ctx.copy_subtree(root_node)
    };

    // Node counts should match.
    let dest_root = dest.add_root(copied);
    assert_eq!(count(&src, root), count(&dest, dest_root));
}

#[test]
fn mutator_apply_mutation_runs_dead_param_elimination_and_clones_parent() {
    let ops = base_ops();
    let mut src: ExprArena<()> = ExprArena::new();
    let mut dest: ExprArena<()> = ExprArena::new();

    // add(param(0), param(1)) with params [1.0, 2.0].
    let (root, params) = build_two_param_tree(&mut src);

    // Target param(1)'s node: replacing it yields add(param(0), variable(0)),
    // leaving param(1) (value 2.0) dead.
    let root_node = src.get_root(root).unwrap();
    let target = src
        .iter_expr_nodes(root_node)
        .iter()
        .find_map(|(id, n)| match n.kind {
            NodeKind::Parameter(pid) if *pid == 1 => Some(*id),
            _ => None,
        })
        .unwrap();

    let parent = Individual::<TestSimpleGenome>::new(root, params);
    let mut rng = StdRng::seed_from_u64(7);

    let offspring = apply_mutation(
        &ReplaceWithVariable,
        target,
        &parent,
        &src,
        &mut dest,
        &ops,
        &mut rng,
    )
    .unwrap();

    // Dead-param elimination ran: only the surviving param(0) (1.0) remains,
    // renumbered densely from 0.
    assert_eq!(offspring.parameters, bits(&[1.0]));
    assert_eq!(parameter_ids(&dest, offspring.root), vec![0]);

    // The parent's parameters are untouched: the offspring owns a clone.
    assert_eq!(parent.parameters, bits(&[1.0, 2.0]));
}

#[test]
fn mutator_dead_params_all_live_unchanged() {
    // add(param(0), param(1)): both params are used, nothing to eliminate.
    let mut arena: ExprArena<()> = ExprArena::new();
    let p0 = arena.add(ExprNode::new_parameter(ParameterId::from(0u16), ()));
    let p1 = arena.add(ExprNode::new_parameter(ParameterId::from(1u16), ()));
    let add = arena.add(ExprNode::new_binary(p0, p1, OperationId::from(0u16), ()));
    let root = arena.add_root(add);
    let mut params = bits(&[1.0, 2.0]);

    let (ids, surviving) = run_elim(&mut arena, &mut params, root);
    assert_eq!(ids, vec![0, 1]);
    assert_eq!(surviving, bits(&[1.0, 2.0]));
}

#[test]
fn mutator_dead_params_trailing_param_eliminated() {
    // add(param(0), variable(0)): param(1) is in the params vec but not used.
    let mut arena: ExprArena<()> = ExprArena::new();
    let p0 = arena.add(ExprNode::new_parameter(ParameterId::from(0u16), ()));
    let v0 = arena.add(ExprNode::new_variable(VariableId::from(0u16), ()));
    let add = arena.add(ExprNode::new_binary(p0, v0, OperationId::from(0u16), ()));
    let root = arena.add_root(add);
    let mut params = bits(&[1.0, 99.0]);

    let (ids, surviving) = run_elim(&mut arena, &mut params, root);
    assert_eq!(ids, vec![0]);
    assert_eq!(surviving, bits(&[1.0]));
}

#[test]
fn mutator_dead_params_leading_param_removed() {
    // add(param(1), variable(0)): param(0) is unused; param(1) should become
    // param(0).
    let mut arena: ExprArena<()> = ExprArena::new();
    let p1 = arena.add(ExprNode::new_parameter(ParameterId::from(1u16), ()));
    let v0 = arena.add(ExprNode::new_variable(VariableId::from(0u16), ()));
    let add = arena.add(ExprNode::new_binary(p1, v0, OperationId::from(0u16), ()));
    let root = arena.add_root(add);
    let mut params = bits(&[99.0, 2.0]);

    let (ids, surviving) = run_elim(&mut arena, &mut params, root);
    assert_eq!(ids, vec![0]);
    assert_eq!(surviving, bits(&[2.0]));
}

#[test]
fn mutator_dead_params_middle_gap_eliminated() {
    // add(param(0), param(2)): param(1) is unused; param(2) should become
    // param(1).
    let mut arena: ExprArena<()> = ExprArena::new();
    let p0 = arena.add(ExprNode::new_parameter(ParameterId::from(0u16), ()));
    let p2 = arena.add(ExprNode::new_parameter(ParameterId::from(2u16), ()));
    let add = arena.add(ExprNode::new_binary(p0, p2, OperationId::from(0u16), ()));
    let root = arena.add_root(add);
    let mut params = bits(&[1.0, 99.0, 3.0]);

    let (ids, surviving) = run_elim(&mut arena, &mut params, root);
    assert_eq!(ids, vec![0, 1]);
    assert_eq!(surviving, bits(&[1.0, 3.0]));
}

#[test]
fn mutator_dead_params_all_dead_clears_params() {
    // variable(0): no parameters at all; params vec should be cleared.
    let mut arena: ExprArena<()> = ExprArena::new();
    let v = arena.add(ExprNode::new_variable(VariableId::from(0u16), ()));
    let root = arena.add_root(v);
    let mut params = bits(&[1.0, 2.0, 3.0]);

    let (ids, surviving) = run_elim(&mut arena, &mut params, root);
    assert!(ids.is_empty());
    assert!(surviving.is_empty());
}

#[test]
fn mutator_dead_params_duplicate_reference_preserved_once() {
    // add(param(0), param(0)): same param referenced twice; should appear once
    // in params.
    let mut arena: ExprArena<()> = ExprArena::new();
    let p0a = arena.add(ExprNode::new_parameter(ParameterId::from(0u16), ()));
    let p0b = arena.add(ExprNode::new_parameter(ParameterId::from(0u16), ()));
    let add = arena.add(ExprNode::new_binary(p0a, p0b, OperationId::from(0u16), ()));
    let root = arena.add_root(add);
    let mut params = bits(&[42.0]);

    let (ids, surviving) = run_elim(&mut arena, &mut params, root);
    // Both nodes still refer to pid 0; params shrinks to just the one entry.
    assert_eq!(ids, vec![0, 0]);
    assert_eq!(surviving, bits(&[42.0]));
}

#[test]
fn mutator_dead_params_numbering_follows_dfs_preorder() {
    // add(param(1), param(0)): left child is param(1), right is param(0).
    // DFS pre-order visits left before right, so param(1) is seen first
    // and should become new param(0); param(0) becomes new param(1).
    let mut arena: ExprArena<()> = ExprArena::new();
    let p1 = arena.add(ExprNode::new_parameter(ParameterId::from(1u16), ()));
    let p0 = arena.add(ExprNode::new_parameter(ParameterId::from(0u16), ()));
    let add = arena.add(ExprNode::new_binary(p1, p0, OperationId::from(0u16), ()));
    let root = arena.add_root(add);
    let mut params = bits(&[10.0, 20.0]);

    let (ids, surviving) = run_elim(&mut arena, &mut params, root);
    // left param (old 1, value 20.0) -> new id 0
    // right param (old 0, value 10.0) -> new id 1
    assert_eq!(ids, vec![0, 1]);
    assert_eq!(surviving, bits(&[20.0, 10.0]));
}

#[test]
fn mutator_point_mutation_preserves_arity() {
    let ops = base_ops();
    let mut src: ExprArena<()> = ExprArena::new();
    let mut dest: ExprArena<()> = ExprArena::new();
    let (root, params) = build_two_param_tree(&mut src);

    // PointMutation on an operator node: here the root `add`.
    let target = src.get_root(root).unwrap();
    let parent = Individual::<TestSimpleGenome>::new(root, params);
    let mut rng = StdRng::seed_from_u64(1);

    let offspring = apply_mutation(
        &PointMutation,
        target,
        &parent,
        &src,
        &mut dest,
        &ops,
        &mut rng,
    )
    .unwrap();

    // Same number of nodes.
    assert_eq!(count(&src, parent.root), count(&dest, offspring.root));
}

#[test]
fn mutator_param_jitter_changes_exactly_one_param() {
    let ops = base_ops();
    let mut src: ExprArena<()> = ExprArena::new();
    let mut dest: ExprArena<()> = ExprArena::new();

    let (root, params) = build_two_param_tree(&mut src);
    let original_params = params.clone();

    // ParamJitter acts on a parameter node: pick the first one.
    let target = first_parameter(&src, root);

    let parent = Individual::<TestSimpleGenome>::new(root, params);
    let mut rng = StdRng::seed_from_u64(2);

    let offspring = apply_mutation(
        &ParamJitter { stddev: b(0.1) },
        target,
        &parent,
        &src,
        &mut dest,
        &ops,
        &mut rng,
    )
    .unwrap();

    // Same tree structure (same number of nodes).
    assert_eq!(count(&src, parent.root), count(&dest, offspring.root));

    // Exactly one parameter should have changed.
    let changed = offspring
        .parameters
        .iter()
        .zip(&original_params)
        .filter(|(x, y)| (float(**x) - float(**y)).abs() > 1e-9)
        .count();
    assert_eq!(changed, 1);
}

#[test]
fn mutator_subtree_mutation_produces_valid_tree() {
    let ops = base_ops();
    let mut src: ExprArena<()> = ExprArena::new();
    let mut dest: ExprArena<()> = ExprArena::new();
    let (root, params) = build_two_param_tree(&mut src);

    // SubtreeMutation can replace any node: target the root.
    let target = src.get_root(root).unwrap();
    let parent = Individual::<TestSimpleGenome>::new(root, params);
    let mut rng = StdRng::seed_from_u64(3);

    let offspring = apply_mutation(
        &SubtreeMutation { grow: grow_config() },
        target,
        &parent,
        &src,
        &mut dest,
        &ops,
        &mut rng,
    )
    .unwrap();

    // Must not panic.
    assert_eq!(eval_ok(&dest, &ops, &offspring).len(), 1);
}

#[test]
fn mutator_mutator_is_deterministic() {
    let ops = base_ops();

    let run = |seed: u64| -> Vec<NodeId> {
        let mut src: ExprArena<()> = ExprArena::new();
        let mut dest: ExprArena<()> = ExprArena::new();
        let (root, params) = build_two_param_tree(&mut src);
        let parent = Individual::<TestSimpleGenome>::new(root, params);
        let mut rng = StdRng::seed_from_u64(seed);

        let mut mutator: Mutator<TestSimpleGenome> = Mutator::new();
        mutator.add(b(1.0), PointMutation);

        let offspring = mutator
            .mutate(&parent, &src, &mut dest, &ops, &mut rng)
            .unwrap();
        let root_node = dest.get_root(offspring.root).unwrap();
        dest.iter_expr_nodes(root_node).iter().map(|(id, _)| *id).collect()
    };

    assert_eq!(run(99), run(99));
}

#[test]
fn a_registry_without_targets_leaves_the_arena_alone() {
    let ops = base_ops();
    let mut src: ExprArena<()> = ExprArena::new();
    let mut dest: ExprArena<()> = ExprArena::new();
    let v = src.add(ExprNode::new_variable(VariableId(0), ()));
    let root = src.add_root(v);
    let parent = Individual::<TestSimpleGenome>::new(root, Vec::new());
    let mut rng = StdRng::seed_from_u64(4);

    let mut mutator: Mutator<TestSimpleGenome> = Mutator::new();
    assert!(mutator.mutate(&parent, &src, &mut dest, &ops, &mut rng).is_none());
    mutator.add(b(1.0), HoistMutation).add(b(2.0), ParamJitter { stddev: b(1.0) });
    assert!(mutator.mutate(&parent, &src, &mut dest, &ops, &mut rng).is_none());
    assert!(dest.get_node(NodeId(0)).is_none());
    // Nothing was drawn.
    assert_eq!(rng.random::<u64>(), StdRng::seed_from_u64(4).random::<u64>());
}

#[test]
fn only_mutations_with_targets_are_applicable() {
    let mut src: ExprArena<()> = ExprArena::new();
    let (root, _) = build_two_param_tree(&mut src);
    let candidates = <TestSimpleGenome as Genome>::mutation_targets(root, &src);
    assert_eq!(candidates, vec![NodeId(2), NodeId(0), NodeId(1)]);

    let mut mutator: Mutator<TestSimpleGenome> = Mutator::new();
    mutator
        .add(b(1.0), HoistMutation)
        .add(b(1.0), ParamJitter { stddev: b(1.0) })
        .add(b(1.0), SubtreeMutation { grow: grow_config() });
    let found = mutator.applicable(&vec![NodeId(0), NodeId(1)], &src);
    assert_eq!(
        found,
        vec![
            (1, vec![NodeId(0), NodeId(1)]),
            (2, vec![NodeId(0), NodeId(1)]),
        ]
    );
}

#[test]
fn weighted_picks_take_the_first_entry_that_is_used_up() {
    assert_eq!(pick_weighted(&bits(&[0.5, -0.5, -1.5]), 3), 1);
    assert_eq!(pick_weighted(&bits(&[-0.1, -1.0]), 2), 0);
    assert_eq!(pick_weighted(&bits(&[0.0, -1.0]), 2), 0);
    assert_eq!(pick_weighted(&bits(&[0.5, 0.1]), 2), 1);
    assert_eq!(pick_weighted(&bits(&[f32::NAN, f32::NAN]), 2), 1);
}

#[test]
fn mutants_of_every_kind_evaluate() {
    let ops = base_ops();
    let mut mutator: Mutator<TestSimpleGenome> = Mutator::new();
    mutator
        .add(b(1.0), PointMutation)
        .add(b(1.0), SubtreeMutation { grow: grow_config() })
        .add(b(1.0), ParamJitter { stddev: b(0.5) })
        .add(b(1.0), HoistMutation)
        .add(b(1.0), InsertMutation { const_range: (b(-1.0), b(1.0)), p_binary: b(0.5) })
        .add(b(1.0), TerminalMutation { const_range: (b(-1.0), b(1.0)), p_variable: b(0.5) });
    let mut rng = StdRng::seed_from_u64(17);
    let mut arena: ExprArena<()> = ExprArena::new();
    let (root, params) = build_two_param_tree(&mut arena);
    let mut parent = Individual::<TestSimpleGenome>::new(root, params);
    for _ in 0..100 {
        let mut next: ExprArena<()> = ExprArena::new();
        let child = mutator.mutate(&parent, &arena, &mut next, &ops, &mut rng).unwrap();
        assert_eq!(eval_ok(&next, &ops, &child).len(), 1);
        arena = next;
        parent = child;
    }
}
