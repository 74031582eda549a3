use std::cmp::Ordering;

use expreon::array::Matrix;
use expreon::ast::{ExprArena, ExprNode, NodeKind};
use expreon::eval::EvalContext;
use expreon::gp::breeding::{Breeder, GatedGenerationBreeder, GenerationBreeder};
use expreon::gp::builder::NodeBuilder;
use expreon::gp::dataset::{ArrayDataset, Dataset};
use expreon::gp::fitness::{
    compare_by_fitness, k_best_of, k_best_of_with_comparator, k_tournament_selection,
    k_tournament_selection_with_comparator, Fitness, ParetoFitness, ScalarFitness,
};
use expreon::gp::init::{init_population_into, plan_individual, InitMethod, PopulationConfig};
use expreon::gp::mutation::builtin::PointMutation;
use expreon::gp::mutation::mutator::Mutator;
use expreon::gp::mutation::MutationContext;
use expreon::gp::population::{Population, Scored};
use expreon::gp::selection::draw_positions;
use expreon::gp::subtree::{
    choose_arity, choose_variable, gen_subtree, gen_tree, GrowSubtreeConfig, TreeGenConfig, TreeMethod,
};
use expreon::gp::{init, pingpong};
use expreon::gp::{Context, Generation, Genome, Individual};
use expreon::ops::{Arity, Operation, OperationSet, OperationTable, OperationTableBuilder};
use expreon::random::Reals;
use expreon::types::{NodeId, OperationId, ParameterId, RootId, Scalar, VariableId};
use rand::rngs::StdRng;
use rand::{Rng, SeedableRng};
use rand_distr::{Distribution, Normal};

fn float(x: Scalar) -> f32 {
    f32::from_bits(x)
}

fn b(x: f32) -> Scalar {
    x.to_bits()
}

fn bits(values: &[f32]) -> Vec<Scalar> {
    values.iter().map(|x| x.to_bits()).collect()
}

struct F32;

impl Reals for F32 {
    fn unit(rng: &mut StdRng) -> Scalar {
        rng.random::<f32>().to_bits()
    }

    fn uniform(rng: &mut StdRng, lo: Scalar, hi: Scalar) -> Scalar {
        rng.random_range(float(lo)..float(hi)).to_bits()
    }

    fn jittered(rng: &mut StdRng, current: Scalar, stddev: Scalar) -> Scalar {
        let delta = Normal::new(0.0f64, float(stddev) as f64).unwrap().sample(rng) as f32;
        (float(current) + delta).to_bits()
    }

    fn remainders(unit: Scalar, weights: &[Scalar]) -> Vec<Scalar> {
        let total: f32 = weights.iter().map(|w| float(*w)).sum();
        let mut pick = float(unit) * total;
        weights
            .iter()
            .map(|w| {
                pick -= float(*w);
                pick.to_bits()
            })
            .collect()
    }
}

#[derive(Clone)]
struct TestSimpleGenome;

impl Genome for TestSimpleGenome {
    type Tag = ();
    type Reals = F32;
    const INPUT_DIM: u16 = 2;

    fn get_tag_for_node(_kind: NodeKind) -> () {}
}

struct Add;
impl Operation for Add {
    const NAME: &'static str = "add";
    const ID: &'static str = "add";
    const ARITY: Arity = Arity::Binary;
    fn forward(i: &[Scalar]) -> Scalar {
        (float(i[0]) + float(i[1])).to_bits()
    }
}

struct Sub;
impl Operation for Sub {
    const NAME: &'static str = "sub";
    const ID: &'static str = "sub";
    const ARITY: Arity = Arity::Binary;
    fn forward(i: &[Scalar]) -> Scalar {
        (float(i[0]) - float(i[1])).to_bits()
    }
}

struct Mul;
impl Operation for Mul {
    const NAME: &'static str = "mul";
    const ID: &'static str = "mul";
    const ARITY: Arity = Arity::Binary;
    fn forward(i: &[Scalar]) -> Scalar {
        (float(i[0]) * float(i[1])).to_bits()
    }
}

struct Div;
impl Operation for Div {
    const NAME: &'static str = "div";
    const ID: &'static str = "div";
    const ARITY: Arity = Arity::Binary;
    fn forward(i: &[Scalar]) -> Scalar {
        (float(i[0]) / float(i[1])).to_bits()
    }
}

struct MathBaseOps;

impl OperationSet for MathBaseOps {
    fn register(op: &mut OperationTableBuilder) {
        op.register::<Add>();
        op.register::<Sub>();
        op.register::<Mul>();
        op.register::<Div>();
    }
}

fn base_ops() -> OperationTable {
    let mut b = OperationTableBuilder::new();
    b.register_set::<MathBaseOps>();
    b.build()
}

fn ind(root: usize) -> Individual<TestSimpleGenome> {
    Individual::new(RootId::from(root), Vec::new())
}

fn score(x: f32) -> Option<ScalarFitness> {
    Some(ScalarFitness(b(x)))
}

// ---------------------------------------------------------------------------
// Fitness and selection
// ---------------------------------------------------------------------------

fn quality(
    x: &Scored<TestSimpleGenome, ScalarFitness>,
    y: &Scored<TestSimpleGenome, ScalarFitness>,
) -> Ordering {
    x.fitness.unwrap().quality_cmp(&y.fitness.unwrap()).unwrap()
}

#[test]
fn k_best_with_quality_returns_best_first_and_clamps() {
    let mut pop: Population<TestSimpleGenome, ScalarFitness> = Population::new();
    pop.insert(ind(0)).fitness = score(3.0);
    pop.insert(ind(1)).fitness = score(1.0);
    pop.insert(ind(2)).fitness = score(2.0);

    let top2 = k_best_of_with_comparator(&pop, 2, quality);
    assert_eq!(top2.len(), 2);
    assert_eq!(top2[0].fitness, score(1.0));
    assert_eq!(top2[1].fitness, score(2.0));

    let clamped = k_best_of_with_comparator(&pop, 10, quality);
    assert_eq!(clamped.len(), 3);

    let empty = k_best_of_with_comparator(&pop, 0, quality);
    assert!(empty.is_empty());
}

#[test]
fn k_best_of_with_quality_of_empty_population_is_empty() {
    let pop: Population<TestSimpleGenome, ScalarFitness> = Population::new();
    assert!(k_best_of_with_comparator(&pop, 3, quality).is_empty());
}

#[test]
fn tournament_with_quality_finds_the_dominant_individual() {
    let mut pop: Population<TestSimpleGenome, ScalarFitness> = Population::new();
    for i in 0..10 {
        pop.insert(ind(i)).fitness = score(i as f32);
    }
    let mut rng = StdRng::seed_from_u64(7);
    // Enough draws that, with a fixed seed, the lone best (fitness 0.0) is
    // certain to be sampled at least once.
    let winner = k_tournament_selection_with_comparator(&pop, 200, &mut rng, quality);
    assert_eq!(winner.fitness, score(0.0));
}

#[test]
fn k_best_of_uses_default_fitness_ordering_and_treats_unscored_as_worst() {
    let mut pop: Population<TestSimpleGenome, ScalarFitness> = Population::new();
    pop.insert(ind(0)).fitness = score(3.0);
    pop.insert(ind(1)).fitness = score(1.0);
    pop.insert(ind(2)); // unscored: worse than any scored individual

    let top2 = k_best_of(&pop, 2);
    assert_eq!(top2.len(), 2);
    assert_eq!(top2[0].fitness, score(1.0));
    assert_eq!(top2[1].fitness, score(3.0));
}

#[test]
fn k_tournament_selection_uses_default_fitness_ordering() {
    let mut pop: Population<TestSimpleGenome, ScalarFitness> = Population::new();
    for i in 0..10 {
        pop.insert(ind(i)).fitness = score(i as f32);
    }
    let mut rng = StdRng::seed_from_u64(7);
    let winner = k_tournament_selection(&pop, 200, &mut rng);
    assert_eq!(winner.fitness, score(0.0));
}

#[test]
fn equally_good_individuals_keep_their_order() {
    let mut pop: Population<TestSimpleGenome, ScalarFitness> = Population::new();
    pop.insert(ind(0)).fitness = score(2.0);
    pop.insert(ind(1)).fitness = score(1.0);
    pop.insert(ind(2)).fitness = score(2.0);
    pop.insert(ind(3)).fitness = score(1.0);

    let roots: Vec<usize> = k_best_of(&pop, 4).iter().map(|s| s.individual.root.0).collect();
    assert_eq!(roots, vec![1, 3, 0, 2]);
}

#[test]
fn unscored_individuals_compare_as_worst() {
    let scored = Scored { individual: ind(0), fitness: score(f32::INFINITY) };
    let unscored: Scored<TestSimpleGenome, ScalarFitness> = Scored::new(ind(1));
    assert_eq!(compare_by_fitness(&scored, &unscored), Ordering::Greater);
    assert_eq!(compare_by_fitness(&unscored, &scored), Ordering::Less);
    assert_eq!(compare_by_fitness(&unscored, &unscored), Ordering::Equal);
}

#[test]
fn lower_value_dominates_higher() {
    assert!(ScalarFitness(b(1.0)).dominates(&ScalarFitness(b(2.0))));
    assert!(!ScalarFitness(b(2.0)).dominates(&ScalarFitness(b(1.0))));
}

#[test]
fn equal_values_are_equal_quality() {
    let x = ScalarFitness(b(3.0));
    let y = ScalarFitness(b(3.0));
    assert_eq!(x.quality_cmp(&y), Some(Ordering::Equal));
    assert!(!x.dominates(&y));
    assert!(!y.dominates(&x));
}

#[test]
fn zeros_of_either_sign_are_equal() {
    let x = ScalarFitness(b(0.0));
    let y = ScalarFitness(b(-0.0));
    assert_eq!(x.quality_cmp(&y), Some(Ordering::Equal));
    assert_eq!(x, y);
    assert!(ScalarFitness(b(-1.0)).dominates(&x));
    assert_ne!(ScalarFitness(b(f32::NAN)), ScalarFitness(b(f32::NAN)));
}

#[test]
fn nan_is_worst() {
    let nan = ScalarFitness(b(f32::NAN));
    let finite = ScalarFitness(b(1.0));
    assert!(finite.dominates(&nan));
    assert!(!nan.dominates(&finite));
    assert_eq!(nan.quality_cmp(&finite), Some(Ordering::Less));
    assert_eq!(nan.quality_cmp(&nan), Some(Ordering::Equal));
}

#[test]
fn worst_is_dominated_by_any_finite_fitness() {
    assert!(ScalarFitness(b(1000.0)).dominates(&ScalarFitness::worst()));
    assert!(!ScalarFitness::worst().dominates(&ScalarFitness(b(1000.0))));
}

#[test]
fn scalar_fitness_converts_both_ways() {
    assert_eq!(ScalarFitness::from(b(1.5)), ScalarFitness::new(b(1.5)));
    assert_eq!(u32::from(ScalarFitness(b(1.5))), b(1.5));
}

fn pareto<const N: usize>(vals: [f32; N]) -> ParetoFitness<N> {
    ParetoFitness(vals.map(|x| ScalarFitness(b(x))))
}

#[test]
fn pareto_dominates_when_better_or_equal_on_all_and_strictly_better_on_one() {
    // Equal on criterion 0, strictly better on 1 and 2.
    let x = pareto([1.0, 2.0, 3.0]);
    let y = pareto([1.0, 5.0, 4.0]);
    assert!(x.dominates(&y));
    assert!(!y.dominates(&x));
    assert_eq!(x.quality_cmp(&y), Some(Ordering::Greater));
}

#[test]
fn pareto_trade_off_is_incomparable() {
    // Better on the first axis, worse on the second: neither dominates.
    let x = pareto([1.0, 2.0]);
    let y = pareto([2.0, 1.0]);
    assert_eq!(x.quality_cmp(&y), None);
    assert!(!x.dominates(&y));
    assert!(!y.dominates(&x));
}

#[test]
fn pareto_all_equal_is_equal() {
    let x = pareto([1.0, 2.0, 3.0]);
    let y = pareto([1.0, 2.0, 3.0]);
    assert_eq!(x.quality_cmp(&y), Some(Ordering::Equal));
    assert!(!x.dominates(&y));
}

#[test]
fn pareto_worst_is_dominated_by_any_finite_fitness() {
    let finite = pareto([1000.0, 1000.0, 1000.0]);
    assert!(finite.dominates(&ParetoFitness::<3>::worst()));
    assert!(!ParetoFitness::<3>::worst().dominates(&finite));
}

// ---------------------------------------------------------------------------
// Population
// ---------------------------------------------------------------------------

#[test]
fn insert_appends_and_returns_ref() {
    let mut pop: Population<TestSimpleGenome, ScalarFitness> = Population::new();
    pop.insert(ind(0));
    pop.insert(ind(1)).fitness = score(1.5);
    assert_eq!(pop.len(), 2);
    assert_eq!(pop[0].fitness, None);
    assert_eq!(pop[1].fitness, score(1.5));
}

#[test]
fn iter_unscored_yields_only_unscored() {
    let mut pop: Population<TestSimpleGenome, ScalarFitness> = Population::new();
    pop.insert(ind(0)).fitness = score(1.0);
    pop.insert(ind(1));
    let unscored: Vec<RootId> = pop.iter_unscored().iter().map(|s| s.individual.root).collect();
    assert_eq!(unscored, vec![RootId::from(1usize)]);
}

#[test]
fn score_unscored_only_touches_unscored() {
    let mut pop: Population<TestSimpleGenome, ScalarFitness> = Population::new();
    pop.insert(ind(0)).fitness = score(1.0);
    pop.insert(ind(1));
    pop.score_unscored(|_| ScalarFitness(b(9.0)));
    assert_eq!(pop[0].fitness, score(1.0)); // untouched
    assert_eq!(pop[1].fitness, score(9.0));
}

#[test]
fn clear_resets_population() {
    let mut pop: Population<TestSimpleGenome, ScalarFitness> = Population::new();
    pop.insert(ind(0)).fitness = score(1.0);
    pop.clear();
    assert!(pop.is_empty());
    assert_eq!(pop.iter().count(), 0);
}

#[test]
fn individuals_can_be_rescored_in_place() {
    let mut pop: Population<TestSimpleGenome, ScalarFitness> = Population::default();
    pop.insert(ind(4));
    pop.get_mut(0).unwrap().fitness = score(2.0);
    assert_eq!(pop[0].fitness, score(2.0));
    assert!(pop.get_mut(1).is_none());
}

// ---------------------------------------------------------------------------
// Breeding
// ---------------------------------------------------------------------------

/// A context with a single scored individual in `current`, ready to be bred
/// from.
fn ctx_with_one_individual() -> Context<TestSimpleGenome, ScalarFitness> {
    let mut ctx: Context<TestSimpleGenome, ScalarFitness> = Context::new(base_ops());
    let mut rng = StdRng::seed_from_u64(0);
    let mut builder = ctx.builder(&mut rng);
    let p = builder.new_parameter(b(1.5));
    let node = builder.emit(ExprNode::new_parameter(p, ()));
    builder.finish(node).fitness = score(42.0);
    ctx
}

#[test]
fn copy_individual_over_carries_ast_and_fitness() {
    let mut ctx = ctx_with_one_individual();

    let parent = &ctx.current.population[0];
    let mut breeding = GenerationBreeder::new(&ctx.current, &mut ctx.next, &ctx.operations, 2);
    breeding.copy_individual_over(parent);
    ctx.advance();

    let copied = &ctx.current.population[0];
    assert_eq!(copied.fitness, score(42.0));
    assert_eq!(copied.individual.parameters, bits(&[1.5]));
    assert!(ctx.current.arena.get_root(copied.individual.root).is_some());
}

#[test]
fn source_field_outlives_a_later_mutable_call() {
    let mut ctx = ctx_with_one_individual();

    let mut breeding = GenerationBreeder::new(&ctx.current, &mut ctx.next, &ctx.operations, 2);
    let parent = &breeding.source.population[0];
    breeding.copy_individual_over(parent);
    drop(breeding);
    assert_eq!(ctx.next.population.len(), 1);
}

#[test]
fn gated_breeder_source_field_outlives_a_later_mutable_call() {
    let mut ctx = ctx_with_one_individual();

    let mut breeding = GatedGenerationBreeder::new(
        &ctx.current,
        &mut ctx.next,
        &ctx.operations,
        2,
        |_: &_, _: &_| true,
    );
    let parent = &breeding.source.population[0];
    breeding.copy_individual_over(parent);
    assert_eq!(breeding.dest().population.len(), 1);
}

#[test]
fn gated_breeder_commits_accepted_candidate() {
    let mut ctx = ctx_with_one_individual();
    let mut rng = StdRng::seed_from_u64(0);

    let mut breeding = GatedGenerationBreeder::new(
        &ctx.current,
        &mut ctx.next,
        &ctx.operations,
        2,
        |_: &_, _: &_| true,
    );
    {
        let mut builder = breeding.builder(&mut rng);
        let p = builder.new_parameter(b(2.5));
        let node = builder.emit(ExprNode::new_parameter(p, ()));
        assert!(builder.finish(node).is_some());
    }
    assert_eq!(breeding.dest().population.len(), 1);
}

#[test]
fn gated_breeder_rejects_candidate_and_orphans_its_nodes() {
    let mut ctx = ctx_with_one_individual();
    let mut rng = StdRng::seed_from_u64(0);

    let mut breeding = GatedGenerationBreeder::new(
        &ctx.current,
        &mut ctx.next,
        &ctx.operations,
        2,
        |_: &_, _: &_| false,
    );
    {
        let mut builder = breeding.builder(&mut rng);
        let p = builder.new_parameter(b(2.5));
        let node = builder.emit(ExprNode::new_parameter(p, ()));
        assert!(builder.finish(node).is_none());
    }
    // Nothing is referenced by the population...
    assert_eq!(breeding.dest().population.len(), 0);
    // ...but the rejected node was still written into the dest arena: the
    // parameter node built by the builder landed at index 0.
    assert!(breeding.dest().arena.get_node(NodeId::from(0usize)).is_some());
}

#[test]
fn gated_breeder_gates_elitism_copies() {
    let mut ctx = ctx_with_one_individual();
    let parent = &ctx.current.population[0];

    let mut breeding = GatedGenerationBreeder::new(
        &ctx.current,
        &mut ctx.next,
        &ctx.operations,
        2,
        |_: &_, _: &_| false,
    );
    assert!(breeding.copy_individual_over(parent).is_none());
    assert_eq!(breeding.dest().population.len(), 0);
    // The rejected copy's node still landed in the dest arena at index 0.
    assert!(breeding.dest().arena.get_node(NodeId::from(0usize)).is_some());
}

#[test]
fn orphaned_nodes_do_not_affect_the_promoted_generation() {
    let mut ctx = ctx_with_one_individual();
    let mut rng = StdRng::seed_from_u64(0);

    {
        // Rejected: writes a node into the dest arena but never commits.
        let mut breeding = GatedGenerationBreeder::new(
            &ctx.current,
            &mut ctx.next,
            &ctx.operations,
            2,
            |_: &_, _: &_| false,
        );
        let mut builder = breeding.builder(&mut rng);
        let p = builder.new_parameter(b(9.0));
        let node = builder.emit(ExprNode::new_parameter(p, ()));
        assert!(builder.finish(node).is_none());
    }
    {
        // A second pass (always-accept hook) commits one individual into
        // the same `next` generation, alongside the orphan above.
        let mut breeding = GatedGenerationBreeder::new(
            &ctx.current,
            &mut ctx.next,
            &ctx.operations,
            2,
            |_: &_, _: &_| true,
        );
        let mut builder = breeding.builder(&mut rng);
        let p = builder.new_parameter(b(4.0));
        let node = builder.emit(ExprNode::new_parameter(p, ()));
        assert!(builder.finish(node).is_some());
    }

    ctx.advance();

    // The promoted generation's population holds exactly the accepted
    // individual: the orphaned node left no trace in it.
    assert_eq!(ctx.current.population.len(), 1);
    assert_eq!(ctx.current.population[0].individual.parameters, bits(&[4.0]));
    // The rejected one has used up a root, though.
    assert_eq!(ctx.current.population[0].individual.root, RootId(1));
}

#[test]
fn the_hook_sees_the_finished_candidate() {
    let mut ctx = ctx_with_one_individual();
    let mut rng = StdRng::seed_from_u64(0);
    let mut seen = 0usize;
    let mut breeding = GatedGenerationBreeder::new(
        &ctx.current,
        &mut ctx.next,
        &ctx.operations,
        2,
        move |candidate: &Individual<TestSimpleGenome>, arena: &ExprArena<()>| {
            seen += 1;
            let node = arena.get_root(candidate.root).unwrap();
            // Every other candidate, if it is not too large.
            seen % 2 == 1 && arena.node_count(node) <= 1
        },
    );
    let mut accepted: Vec<bool> = Vec::new();
    for _ in 0..3 {
        let mut builder = breeding.builder(&mut rng);
        let node = builder.emit(ExprNode::new_variable(VariableId(0), ()));
        accepted.push(builder.finish(node).is_some());
    }
    assert_eq!(accepted, vec![true, false, true]);
    assert_eq!(breeding.dest().population.len(), 2);
}

#[test]
fn breed_respects_breeder_acceptance() {
    let mut ctx: Context<TestSimpleGenome, ScalarFitness> = Context::new(base_ops());
    let mut rng = StdRng::seed_from_u64(99);
    {
        let mut builder = ctx.builder(&mut rng);
        let pid0 = builder.new_parameter(b(1.0));
        let pid1 = builder.new_parameter(b(2.0));
        let n0 = builder.emit(ExprNode::new_parameter(pid0, ()));
        let n1 = builder.emit(ExprNode::new_parameter(pid1, ()));
        let add = builder.emit(ExprNode::new_binary(n0, n1, OperationId::from(0u16), ()));
        builder.finish(add);
    }

    let mut mutator: Mutator<TestSimpleGenome> = Mutator::new();
    mutator.add(b(1.0), PointMutation);
    let parent = &ctx.current.population[0];

    // An always-accepting gated breeder still produces a child.
    {
        let mut breeding = GatedGenerationBreeder::new(
            &ctx.current,
            &mut ctx.next,
            &ctx.operations,
            2,
            |_: &_, _: &_| true,
        );
        assert!(mutator.breed(&mut breeding, parent, &mut rng).is_some());
    }
    ctx.next.clear();

    // An always-rejecting gated breeder never commits, even though
    // `mutate` itself succeeds on this tree, whichever node it picks.
    {
        let mut breeding = GatedGenerationBreeder::new(
            &ctx.current,
            &mut ctx.next,
            &ctx.operations,
            2,
            |_: &_, _: &_| false,
        );
        assert!(mutator.breed(&mut breeding, parent, &mut rng).is_none());
    }
    assert_eq!(ctx.next.population.len(), 0);
}

#[test]
fn a_bred_child_is_unscored_and_owns_its_parameters() {
    let mut ctx: Context<TestSimpleGenome, ScalarFitness> = Context::new(base_ops());
    let mut rng = StdRng::seed_from_u64(1);
    {
        let mut builder = ctx.builder(&mut rng);
        let p = builder.new_parameter(b(3.0));
        let v = builder.emit(ExprNode::new_variable(VariableId(1), ()));
        let n = builder.emit(ExprNode::new_parameter(p, ()));
        let mul = builder.emit(ExprNode::new_binary(v, n, OperationId(2), ()));
        builder.finish(mul).fitness = score(1.0);
    }
    let mut mutator: Mutator<TestSimpleGenome> = Mutator::new();
    mutator.add(b(1.0), PointMutation);

    let mut breeding = ctx.breeder();
    assert_eq!(breeding.input_dim, 2);
    let parent = &breeding.source.population[0];
    let child = mutator.breed(&mut breeding, parent, &mut rng).unwrap();
    assert_eq!(child.fitness, None);
    assert_eq!(child.individual.parameters, bits(&[3.0]));
    ctx.advance();
    assert_eq!(ctx.current.population.len(), 1);
    assert!(ctx.next.population.is_empty());
    assert!(ctx.next.arena.get_node(NodeId(0)).is_none());
}

#[test]
fn fresh_individuals_can_be_bred_beside_copies() {
    let mut ctx = ctx_with_one_individual();
    let mut rng = StdRng::seed_from_u64(3);
    let mut breeding = ctx.breeder();
    let parent = &breeding.source.population[0];
    breeding.copy_individual_over(parent);
    {
        let mut builder = breeding.builder(&mut rng);
        let node = builder.emit(ExprNode::new_variable(VariableId(0), ()));
        builder.finish(node);
    }
    ctx.advance();
    let roots: Vec<usize> = ctx.current.population.iter().map(|s| s.individual.root.0).collect();
    assert_eq!(roots, vec![0, 1]);
    assert_eq!(ctx.current.population[1].fitness, None);
    let generation: Generation<TestSimpleGenome, ScalarFitness> = Generation::default();
    assert!(generation.population.is_empty());
}

// ---------------------------------------------------------------------------
// Initial populations and tree generation
// ---------------------------------------------------------------------------

fn cfg(method: InitMethod, min_depth: usize, max_depth: usize) -> PopulationConfig {
    PopulationConfig {
        size: 16,
        method,
        min_depth,
        max_depth,
        tuning: TreeGenConfig {
            p_terminal: b(0.3),
            n_variables: 2,
            const_range: (b(-1.0), b(1.0)),
        },
    }
}

/// Measures the depth of a tree rooted at `node` (a single terminal = 0).
fn tree_depth(arena: &ExprArena<()>, node: NodeId) -> usize {
    match arena.get_node(node).unwrap().kind {
        NodeKind::Variable(_) | NodeKind::Parameter(_) => 0,
        NodeKind::Unary { value, .. } => 1 + tree_depth(arena, value),
        NodeKind::Binary { left, right, .. } => {
            1 + tree_depth(arena, left).max(tree_depth(arena, right))
        }
    }
}

/// Returns the minimum root-to-leaf depth of a tree.
fn min_leaf_depth(arena: &ExprArena<()>, node: NodeId) -> usize {
    match arena.get_node(node).unwrap().kind {
        NodeKind::Variable(_) | NodeKind::Parameter(_) => 0,
        NodeKind::Unary { value, .. } => 1 + min_leaf_depth(arena, value),
        NodeKind::Binary { left, right, .. } => {
            1 + min_leaf_depth(arena, left).min(min_leaf_depth(arena, right))
        }
    }
}

fn count_param_nodes(arena: &ExprArena<()>, root: RootId) -> usize {
    let node = arena.get_root(root).unwrap();
    arena
        .iter_expr_nodes(node)
        .iter()
        .filter(|(_, n)| matches!(n.kind, NodeKind::Parameter(_)))
        .count()
}

#[test]
fn produces_requested_size_with_valid_roots() {
    let ops = base_ops();
    let mut arena: ExprArena<()> = ExprArena::new();
    let mut rng = StdRng::seed_from_u64(1);

    let pop = init_population_into::<TestSimpleGenome>(
        &mut arena,
        &ops,
        &cfg(InitMethod::RampedHalfAndHalf, 2, 5),
        &mut rng,
    );

    assert_eq!(pop.len(), 16);
    for ind in pop.iter() {
        assert!(arena.get_root(ind.root).is_some());
    }
}

#[test]
fn respects_max_depth_and_full_is_full() {
    let ops = base_ops();

    // Full: every leaf sits at exactly max_depth.
    let mut arena: ExprArena<()> = ExprArena::new();
    let mut rng = StdRng::seed_from_u64(2);
    let pop = init_population_into::<TestSimpleGenome>(
        &mut arena,
        &ops,
        &cfg(InitMethod::Full, 4, 4),
        &mut rng,
    );
    for ind in pop.iter() {
        let node = arena.get_root(ind.root).unwrap();
        assert_eq!(tree_depth(&arena, node), 4);
        assert_eq!(min_leaf_depth(&arena, node), 4);
    }

    // Ramped: no tree exceeds max_depth.
    let mut arena2: ExprArena<()> = ExprArena::new();
    let mut rng2 = StdRng::seed_from_u64(3);
    let pop2 = init_population_into::<TestSimpleGenome>(
        &mut arena2,
        &ops,
        &cfg(InitMethod::RampedHalfAndHalf, 2, 5),
        &mut rng2,
    );
    for ind in pop2.iter() {
        let node = arena2.get_root(ind.root).unwrap();
        assert!(tree_depth(&arena2, node) <= 5);
    }
}

#[test]
fn parameter_vector_matches_param_nodes() {
    let ops = base_ops();
    let mut arena: ExprArena<()> = ExprArena::new();
    let mut rng = StdRng::seed_from_u64(4);

    let pop = init_population_into::<TestSimpleGenome>(
        &mut arena,
        &ops,
        &cfg(InitMethod::RampedHalfAndHalf, 2, 5),
        &mut rng,
    );

    for ind in pop.iter() {
        assert_eq!(ind.parameters.len(), count_param_nodes(&arena, ind.root));
    }
}

#[test]
fn deterministic_for_same_seed() {
    let ops = base_ops();

    let run = || -> Vec<Vec<NodeId>> {
        let mut arena: ExprArena<()> = ExprArena::new();
        let mut rng = StdRng::seed_from_u64(99);
        let pop = init_population_into::<TestSimpleGenome>(
            &mut arena,
            &ops,
            &cfg(InitMethod::RampedHalfAndHalf, 2, 5),
            &mut rng,
        );
        pop.iter()
            .map(|ind| {
                let node = arena.get_root(ind.root).unwrap();
                arena.iter_expr_nodes(node).iter().map(|(id, _)| *id).collect()
            })
            .collect()
    };

    assert_eq!(run(), run());
}

#[test]
fn individuals_evaluate_without_panic() {
    let ops = base_ops();
    let mut arena: ExprArena<()> = ExprArena::new();
    let mut rng = StdRng::seed_from_u64(5);

    let pop = init_population_into::<TestSimpleGenome>(
        &mut arena,
        &ops,
        &cfg(InitMethod::RampedHalfAndHalf, 2, 5),
        &mut rng,
    );

    let eval_ctx = EvalContext::new(&arena, &ops);
    let inputs = Matrix::from_shape_vec(1, 2, bits(&[0.5, 1.0])).unwrap();

    for ind in pop.iter() {
        let root_node = arena.get_root(ind.root).unwrap();
        let n = ind.parameters.len().max(1);
        let mut p = ind.parameters.clone();
        if p.is_empty() {
            p.push(b(0.0));
        }
        let params = Matrix::from_shape_vec(1, n, p).unwrap();
        let _ = eval_ctx.eval_batch(root_node, &inputs, &params);
    }
}

#[test]
fn ramps_pass_through_every_depth_with_either_method() {
    let ramp = cfg(InitMethod::RampedHalfAndHalf, 2, 4);
    let planned: Vec<(TreeMethod, usize)> = (0..7).map(|i| plan_individual(&ramp, i)).collect();
    assert_eq!(
        planned,
        vec![
            (TreeMethod::Full, 2),
            (TreeMethod::Full, 3),
            (TreeMethod::Full, 4),
            (TreeMethod::Grow, 2),
            (TreeMethod::Grow, 3),
            (TreeMethod::Grow, 4),
            (TreeMethod::Full, 2),
        ]
    );
    // A minimum above the maximum counts as the maximum.
    let flat = cfg(InitMethod::RampedHalfAndHalf, 9, 4);
    assert_eq!(plan_individual(&flat, 0), (TreeMethod::Full, 4));
    assert_eq!(plan_individual(&flat, 1), (TreeMethod::Grow, 4));
    assert_eq!(plan_individual(&cfg(InitMethod::Full, 1, 6), 3), (TreeMethod::Full, 6));
    assert_eq!(plan_individual(&cfg(InitMethod::Grow, 1, 6), 3), (TreeMethod::Grow, 6));
}

#[test]
fn populations_are_collections_of_individuals() {
    let pop = init::Population::new(vec![ind(3), ind(5)]);
    assert!(!pop.is_empty());
    assert_eq!(pop.individuals()[1].root, RootId(5));
    assert_eq!(pop.into_individuals()[0].root, RootId(3));
    let none: init::Population<TestSimpleGenome> = init::Population::new(Vec::new());
    assert!(none.is_empty());
}

fn grow_into(
    cfg: &GrowSubtreeConfig,
    ops: &OperationTable,
    dest: &mut ExprArena<()>,
    seed: u64,
) -> NodeId {
    let src: ExprArena<()> = ExprArena::new();
    let mut params: Vec<Scalar> = Vec::new();
    let mut rng = StdRng::seed_from_u64(seed);
    let mut ctx =
        MutationContext::<TestSimpleGenome>::new(&src, ops, &mut rng, dest, &mut params);
    gen_subtree(&mut ctx, cfg, cfg.max_depth)
}

#[test]
fn grow_produces_valid_tree() {
    let ops = base_ops();
    let mut dest: ExprArena<()> = ExprArena::new();

    let cfg = GrowSubtreeConfig {
        max_depth: 4,
        tuning: TreeGenConfig {
            p_terminal: b(0.3),
            n_variables: 2,
            const_range: (b(-1.0), b(1.0)),
        },
    };
    let root_node = grow_into(&cfg, &ops, &mut dest, 42);

    // Root node must be valid.
    assert!(dest.get_node(root_node).is_some());
}

#[test]
fn grow_is_deterministic() {
    let ops = base_ops();
    let cfg = GrowSubtreeConfig {
        max_depth: 3,
        tuning: TreeGenConfig {
            p_terminal: b(0.4),
            n_variables: 2,
            const_range: (b(-1.0), b(1.0)),
        },
    };

    let mut dest_a: ExprArena<()> = ExprArena::new();
    let root_a = grow_into(&cfg, &ops, &mut dest_a, 7);
    let mut dest_b: ExprArena<()> = ExprArena::new();
    let root_b = grow_into(&cfg, &ops, &mut dest_b, 7);

    assert_eq!(root_a, root_b);
}

#[test]
fn without_operators_every_tree_is_a_terminal() {
    let ops = OperationTableBuilder::new().build();
    let mut ctx: pingpong::Context<TestSimpleGenome> = pingpong::Context::new(ops);
    let mut rng = StdRng::seed_from_u64(8);
    let mut builder = ctx.builder(&mut rng);
    let tuning = TreeGenConfig {
        p_terminal: b(0.0),
        n_variables: 0,
        const_range: (b(2.0), b(3.0)),
    };
    let node = gen_tree(&mut builder, &tuning, TreeMethod::Full, 5);
    let (individual, root) = builder.finish(node);
    assert_eq!(individual.root, root);
    assert_eq!(individual.parameters.len(), 1);
    assert!((2.0..3.0).contains(&float(individual.parameters[0])));
    assert_eq!(
        ctx.source_arena().get_node(node).unwrap().kind,
        NodeKind::Parameter(ParameterId(0))
    );
}

#[test]
fn the_coin_decides_between_arities_only_where_both_exist() {
    assert_eq!(choose_arity(true, true, true), Some(true));
    assert_eq!(choose_arity(true, true, false), Some(false));
    assert_eq!(choose_arity(false, true, false), Some(true));
    assert_eq!(choose_arity(true, false, true), Some(false));
    assert_eq!(choose_arity(false, false, true), None);
}

#[test]
fn the_coin_chooses_a_variable_where_there_is_one() {
    assert!(choose_variable(2, true));
    assert!(!choose_variable(2, false));
    assert!(!choose_variable(0, true));
    assert!(!choose_variable(0, false));
}

#[test]
fn a_tournament_is_won_by_the_first_best_of_the_draws() {
    let costs: [f32; 6] = [5.0, 2.0, 9.0, 2.0, 7.0, 4.0];
    let mut pop: Population<TestSimpleGenome, ScalarFitness> = Population::new();
    for (i, cost) in costs.iter().enumerate() {
        pop.insert(Individual::new(RootId(i), Vec::new())).fitness = score(*cost);
    }
    for seed in 0..50u64 {
        for k in 0..5usize {
            let mut drawing = StdRng::seed_from_u64(seed);
            let expected: Vec<usize> =
                (0..k.max(1)).map(|_| drawing.random_range(0..costs.len())).collect();
            let mut rng = StdRng::seed_from_u64(seed);
            assert_eq!(draw_positions(costs.len(), k, &mut rng), expected);

            let mut best = expected[0];
            for &d in &expected {
                if costs[d] < costs[best] {
                    best = d;
                }
            }
            let mut rng = StdRng::seed_from_u64(seed);
            let winner = k_tournament_selection(&pop, k, &mut rng);
            assert_eq!(winner.individual.root, RootId(best));
            // As many draws were taken, and no more.
            assert_eq!(rng.random::<u64>(), drawing.random::<u64>());
        }
    }
}

#[test]
fn operators_are_drawn_among_all_of_their_arity() {
    let mut ctx: Context<TestSimpleGenome, ScalarFitness> = Context::new(base_ops());
    let all: Vec<OperationId> = ctx.operations.iter_binary_ops().to_vec();
    let mut rng = StdRng::seed_from_u64(8);
    let mut drawing = StdRng::seed_from_u64(8);
    let mut builder = ctx.builder(&mut rng);
    for _ in 0..20 {
        let op = builder.pick_random_binary_op();
        assert_eq!(op, all[drawing.random_range(0..all.len())]);
    }
}

#[test]
fn individuals_are_scored_in_order_and_only_once() {
    let mut pop: Population<TestSimpleGenome, ScalarFitness> = Population::new();
    for i in 0..4usize {
        pop.insert(Individual::new(RootId(i), Vec::new()));
    }
    pop.get_mut(2).unwrap().fitness = score(7.0);
    let mut seen: Vec<usize> = Vec::new();
    pop.score_unscored(|individual| {
        seen.push(individual.root.0);
        ScalarFitness(b(seen.len() as f32))
    });
    assert_eq!(seen, vec![0, 1, 3]);
    let scores: Vec<Option<ScalarFitness>> = pop.iter().map(|s| s.fitness).collect();
    assert_eq!(scores, vec![score(1.0), score(2.0), score(7.0), score(3.0)]);
    assert!(pop.iter_unscored().is_empty());
    pop.score_unscored(|_| panic!("everyone is scored"));
}

#[test]
fn a_lexicographic_comparator_orders_the_best() {
    let mut pop: Population<TestSimpleGenome, ScalarFitness> = Population::new();
    for params in [&[1.0, 2.0][..], &[1.0][..], &[][..], &[1.0, 3.0][..]] {
        let root = RootId(pop.len());
        pop.insert(Individual::new(root, bits(params)));
    }
    let best = k_best_of_with_comparator(&pop, 3, |a: &Scored<_, _>, b: &Scored<_, _>| {
        a.individual.parameters.cmp(&b.individual.parameters)
    });
    let roots: Vec<usize> = best.iter().map(|s| s.individual.root.0).collect();
    assert_eq!(roots, vec![3, 0, 1]);
}

#[test]
fn generated_trees_draw_on_all_variables_and_the_constant_range() {
    let ops = base_ops();
    let mut arena: ExprArena<()> = ExprArena::new();
    let mut rng = StdRng::seed_from_u64(12);
    let pop = init_population_into::<TestSimpleGenome>(
        &mut arena,
        &ops,
        &cfg(InitMethod::Full, 4, 4),
        &mut rng,
    );
    let mut variables = [false; 2];
    let mut operators = [false; 4];
    for ind in pop.iter() {
        let root = arena.get_root(ind.root).unwrap();
        for (_, node) in arena.iter_expr_nodes(root) {
            match node.kind {
                NodeKind::Variable(v) => variables[*v as usize] = true,
                NodeKind::Binary { op, .. } => operators[u16::from(op) as usize] = true,
                _ => {}
            }
        }
        for p in &ind.parameters {
            assert!((-1.0..1.0).contains(&float(*p)));
        }
    }
    assert_eq!(variables, [true; 2]);
    assert_eq!(operators, [true; 4]);
}

#[test]
fn a_copied_individual_has_the_value_of_its_parent() {
    let mut ctx: Context<TestSimpleGenome, ScalarFitness> = Context::new(base_ops());
    let mut rng = StdRng::seed_from_u64(6);
    {
        let mut builder = ctx.builder(&mut rng);
        let tuning = cfg(InitMethod::Full, 3, 3).tuning;
        let node = gen_tree(&mut builder, &tuning, TreeMethod::Full, 3);
        builder.finish(node);
    }
    let inputs = Matrix::from_shape_vec(1, 2, bits(&[0.25, -3.0])).unwrap();
    let value_of = |g: &Generation<TestSimpleGenome, ScalarFitness>, ops: &OperationTable| {
        let ind = &g.population[0].individual;
        let params =
            Matrix::from_shape_vec(1, ind.parameters.len(), ind.parameters.clone()).unwrap();
        let node = g.arena.get_root(ind.root).unwrap();
        EvalContext::new(&g.arena, ops).eval_batch(node, &inputs, &params).get(0)
    };
    let before = value_of(&ctx.current, &ctx.operations);
    let mut breeding = ctx.breeder();
    let parent = &breeding.source.population[0];
    assert!(breeding.copy_individual_over(parent).is_some());
    ctx.advance();
    assert_eq!(value_of(&ctx.current, &ctx.operations), before);
}

// ---------------------------------------------------------------------------
// Ping-pong arenas
// ---------------------------------------------------------------------------

#[test]
fn swapping_promotes_what_was_built_and_clears_what_was_read() {
    let mut ctx: pingpong::Context<TestSimpleGenome> = pingpong::Context::new(base_ops());
    let mut rng = StdRng::seed_from_u64(2);
    {
        let mut builder = ctx.builder(&mut rng);
        let node = builder.emit(ExprNode::new_variable(VariableId(0), ()));
        builder.finish(node);
    }
    {
        let (source, dest, ops) = ctx.borrow_parts();
        assert!(source.get_node(NodeId(0)).is_some());
        assert_eq!(ops.iter_binary_ops().len(), 4);
        dest.add(ExprNode::new_parameter(ParameterId(6), ()));
    }
    ctx.swap();
    assert_eq!(
        ctx.source_arena().get_node(NodeId(0)).unwrap().kind,
        NodeKind::Parameter(ParameterId(6))
    );
    assert!(ctx.borrow_parts().1.get_node(NodeId(0)).is_none());
    ctx.swap();
    assert!(ctx.source_arena().get_node(NodeId(0)).is_none());
}

// ---------------------------------------------------------------------------
// Datasets
// ---------------------------------------------------------------------------

fn zeros(rows: usize, cols: usize) -> Matrix {
    Matrix::from_shape_vec(rows, cols, vec![0; rows * cols]).unwrap()
}

#[test]
fn array_dataset_reports_shape() {
    let data = ArrayDataset::new(zeros(5, 3));
    assert_eq!(data.input_dim(), 3);
    assert_eq!(data.len(), 5);
    assert!(!data.is_empty());
}

#[test]
fn array_dataset_empty_when_no_rows() {
    let data = ArrayDataset::new(zeros(0, 3));
    assert!(data.is_empty());
}

#[test]
fn array_dataset_inputs_view_matches_shape() {
    let data = ArrayDataset::new(Matrix::from_shape_vec(2, 2, bits(&[0.0, 1.0, 1.0, 2.0])).unwrap());
    let view = data.inputs();
    assert_eq!(view.nrows(), 2);
    assert_eq!(view.ncols(), 2);
    assert_eq!(float(view.get(1, 1)), 2.0);
}
