//! Initial population construction for genetic programming runs.
//!
//! Provides [`init_population_into`], which builds a fresh set of random
//! [`Individual`]s from scratch: the first step of any GP run, before any
//! selection/mutation takes place.

use super::mutation::laws::{given_tag, lemma_generated_tags};
use super::pingpong::IndividualBuilder;
use super::subtree::{
    follows, fresh_slots, gen_tree, generated, lemma_drawn_evaluable, lemma_follows,
    lemma_generated, lemma_parts, lemma_places, TreeGenConfig, TreeMethod,
};
use super::{Genome, Individual};
use crate::ast::ExprArena;
use crate::expr::{expr_of, lemma_copied_len, lemma_expr_extend, part_at, Expr};
use crate::ops::OperationTable;
use crate::random::Reals;
use crate::scalar::less;
use crate::types::Scalar;
use rand::rngs::StdRng;
use vstd::arithmetic::div_mod::{lemma_fundamental_div_mod, lemma_fundamental_div_mod_converse};
use vstd::prelude::*;
use vstd::std_specs::iter::IteratorSpec;

verus! {

/// Strategy used to populate the initial generation.
#[derive(Clone, Copy, PartialEq, Eq, Debug, Structural)]
pub enum InitMethod {
    /// Every individual is a `full` tree of depth `max_depth`.
    Full,
    /// Every individual is a `grow` tree of depth `max_depth`.
    Grow,
    /// GP-standard ramped half-and-half: individuals are spread across the
    /// depth buckets `min_depth..=max_depth`, alternating between `full` and
    /// `grow`.
    RampedHalfAndHalf,
}

/// Configuration for building an initial population.
pub struct PopulationConfig {
    /// Number of individuals to create.
    pub size: usize,
    /// Strategy used to assign each individual a generation method and depth.
    pub method: InitMethod,
    /// Smallest tree depth used by ramped half-and-half.
    pub min_depth: usize,
    /// Largest tree depth (and the fixed depth for the `Full`/`Grow` methods).
    pub max_depth: usize,
    /// Generator tuning (terminal probability, variable count, constant range).
    pub tuning: TreeGenConfig,
}

impl PopulationConfig {
    /// Number of depth buckets of ramped half-and-half: one where `min_depth`
    /// exceeds `max_depth`.
    pub open spec fn buckets(&self) -> int {
        if self.min_depth <= self.max_depth {
            self.max_depth - self.min_depth + 1
        } else {
            1
        }
    }

    /// Whether the buckets, where they are used, can be counted.
    pub open spec fn countable(&self) -> bool {
        self.method == InitMethod::RampedHalfAndHalf ==> self.buckets() <= usize::MAX
    }

    /// The method and the depth of the `i`-th individual: ramped
    /// half-and-half goes through the buckets up to `max_depth` from the
    /// shallowest on, over and over, with `full` and `grow` taking turns at
    /// going through all of them.
    pub open spec fn plan(&self, i: int) -> (TreeMethod, int) {
        match self.method {
            InitMethod::Full => (TreeMethod::Full, self.max_depth as int),
            InitMethod::Grow => (TreeMethod::Grow, self.max_depth as int),
            InitMethod::RampedHalfAndHalf => (
                if (i / self.buckets()) % 2 == 0 {
                    TreeMethod::Full
                } else {
                    TreeMethod::Grow
                },
                self.max_depth - self.buckets() + 1 + i % self.buckets(),
            ),
        }
    }
}

/// A collection of individuals making up a generation.
pub struct Population<G: Genome> {
    individuals: Vec<Individual<G>>,
}

impl<G: Genome> View for Population<G> {
    type V = Seq<Individual<G>>;

    closed spec fn view(&self) -> Seq<Individual<G>> {
        self.individuals@
    }
}

impl<G: Genome> Population<G> {
    pub fn new(individuals: Vec<Individual<G>>) -> (r: Self)
        ensures
            r@ == individuals@,
    {
        Self { individuals }
    }

    /// Number of individuals in the population.
    pub fn len(&self) -> (n: usize)
        ensures
            n == self@.len(),
    {
        self.individuals.len()
    }

    /// Whether the population is empty.
    pub fn is_empty(&self) -> (r: bool)
        ensures
            r == (self@.len() == 0),
    {
        self.individuals.len() == 0
    }

    /// Iterates over the individuals.
    pub fn iter(&self) -> (r: std::slice::Iter<'_, Individual<G>>)
        ensures
            r.remaining() == self@.as_ref(),
    {
        self.individuals.as_slice().iter()
    }

    /// Borrows the underlying individuals as a slice.
    pub fn individuals(&self) -> (r: &[Individual<G>])
        ensures
            r@ == self@,
    {
        self.individuals.as_slice()
    }

    /// Consumes the population and returns the owned individuals.
    pub fn into_individuals(self) -> (r: Vec<Individual<G>>)
        ensures
            r@ == self@,
    {
        self.individuals
    }
}

/// Ramped half-and-half stays between the smaller of the two depths and the
/// largest one. Each pass through all buckets with `full` and then with `grow`
/// plans exactly one individual for each combination of depth and method.
pub proof fn lemma_ramped(cfg: &PopulationConfig, pass: int, method: TreeMethod, depth: int)
    requires
        cfg.method == InitMethod::RampedHalfAndHalf,
        0 <= pass,
        cfg.max_depth - cfg.buckets() < depth <= cfg.max_depth,
    ensures
        forall|i: int|
            0 <= i ==> cfg.max_depth - cfg.buckets() < (#[trigger] cfg.plan(i)).1 <= cfg.max_depth,
        exists|i: int|
            {
                &&& 2 * pass * cfg.buckets() <= i < 2 * (pass + 1) * cfg.buckets()
                &&& #[trigger] cfg.plan(i) == (method, depth)
            },
        forall|i: int, j: int|
            2 * pass * cfg.buckets() <= i < 2 * (pass + 1) * cfg.buckets() && 2 * pass
                * cfg.buckets() <= j < 2 * (pass + 1) * cfg.buckets() && #[trigger] cfg.plan(i)
                == #[trigger] cfg.plan(j) ==> i == j,
{
    let n = cfg.buckets();
    let round = 2 * pass + if method == TreeMethod::Full {
        0int
    } else {
        1int
    };
    let offset = depth - (cfg.max_depth - n + 1);
    let i = round * n + offset;
    lemma_fundamental_div_mod_converse(i, n, round, offset);
    assert(cfg.plan(i) == (method, depth));
    assert(2 * pass * n <= i < 2 * (pass + 1) * n) by (nonlinear_arith)
        requires
            i == round * n + offset,
            0 <= offset < n,
            2 * pass <= round <= 2 * pass + 1,
    ;
    assert forall|i: int, j: int|
        2 * pass * n <= i < 2 * (pass + 1) * n && 2 * pass * n <= j < 2 * (pass + 1) * n
            && #[trigger] cfg.plan(i) == #[trigger] cfg.plan(j) implies i == j by {
        lemma_fundamental_div_mod(i, n);
        lemma_fundamental_div_mod(j, n);
        let (qi, qj) = (i / n, j / n);
        assert(2 * pass <= qi <= 2 * pass + 1) by (nonlinear_arith)
            requires
                2 * pass * n <= i < 2 * (pass + 1) * n,
                i == n * qi + i % n,
                0 <= i % n < n,
        ;
        assert(2 * pass <= qj <= 2 * pass + 1) by (nonlinear_arith)
            requires
                2 * pass * n <= j < 2 * (pass + 1) * n,
                j == n * qj + j % n,
                0 <= j % n < n,
        ;
        assert(qi == qj);
    }
}

/// Chooses the `(method, depth)` for the `i`-th individual under `cfg`.
pub fn plan_individual(cfg: &PopulationConfig, i: usize) -> (r: (TreeMethod, usize))
    requires
        cfg.countable(),
    ensures
        r.0 == cfg.plan(i as int).0,
        r.1 == cfg.plan(i as int).1,
{
    match cfg.method {
        InitMethod::Full => (TreeMethod::Full, cfg.max_depth),
        InitMethod::Grow => (TreeMethod::Grow, cfg.max_depth),
        InitMethod::RampedHalfAndHalf => {
            let min: usize = if cfg.min_depth <= cfg.max_depth {
                cfg.min_depth
            } else {
                cfg.max_depth
            };
            let span: usize = cfg.max_depth - min + 1;
            // Cycle through depth buckets; flip the method each full cycle so
            // every (depth, method) combination is covered evenly.
            let depth: usize = min + (i % span);
            let method = if (i / span) % 2 == 0 {
                TreeMethod::Full
            } else {
                TreeMethod::Grow
            };
            (method, depth)
        },
    }
}

/// Where the nodes of the `i`-th individual start: behind those that were
/// there before, or behind the root of the individual before it.
pub open spec fn start_of<Tag: Clone>(
    before: &ExprArena<Tag>,
    after: &ExprArena<Tag>,
    i: int,
) -> int {
    if i == 0 {
        before.nodes().len() as int
    } else {
        after.roots()[before.roots().len() + i - 1].0 + 1
    }
}

/// Whether the expression has the planned shape: within the planned depth, and
/// full to it if the method is. Without operators every tree is a terminal.
pub open spec fn shaped<Tag>(
    e: Expr<Tag>,
    plan: (TreeMethod, int),
    ops: &OperationTable,
) -> bool {
    &&& e.depth() <= plan.1
    &&& if ops.unary_ids().len() + ops.binary_ids().len() > 0 {
        plan.0 == TreeMethod::Full ==> e.full(plan.1 as nat)
    } else {
        e.full(0)
    }
}

/// Whether the `i`-th individual was built as planned: its root is the `i`-th
/// new one, and stands for a tree by the planned method that is drawn from the
/// variables and operators at hand, made of exactly the nodes between
/// [`start_of`] and the root, and each of its constants has a slot of its own
/// in the individual's parameters.
pub open spec fn seeded<G: Genome>(
    before: &ExprArena<G::Tag>,
    after: &ExprArena<G::Tag>,
    ops: &OperationTable,
    cfg: &PopulationConfig,
    individual: Individual<G>,
    i: int,
) -> bool {
    let node = after.roots()[before.roots().len() + i];
    let own = after.nodes().take(node.0 + 1);
    &&& individual.root.0 == before.roots().len() + i
    &&& start_of(before, after, i) <= node.0 < after.nodes().len()
    &&& generated::<G>(
        after.nodes().take(start_of(before, after, i)),
        own,
        node,
        Seq::empty(),
        individual.parameters@,
        cfg.tuning.n_variables,
        cfg.tuning.const_range,
        ops.unary_ids(),
        ops.binary_ids(),
    )
    &&& follows::<G>(
        expr_of(own, node),
        cfg.tuning.p_terminal,
        cfg.plan(i).0,
        cfg.plan(i).1 as nat,
        ops.unary_ids().len() + ops.binary_ids().len() > 0,
    )
}

/// Appending nodes and roots leaves individuals as they were built.
proof fn lemma_seeded_extend<G: Genome>(
    before: &ExprArena<G::Tag>,
    after: &ExprArena<G::Tag>,
    more: &ExprArena<G::Tag>,
    ops: &OperationTable,
    cfg: &PopulationConfig,
    individual: Individual<G>,
    i: int,
)
    requires
        0 <= i,
        before.roots().len() + i < after.roots().len(),
        seeded(before, after, ops, cfg, individual, i),
        after.nodes().is_prefix_of(more.nodes()),
        after.roots().is_prefix_of(more.roots()),
    ensures
        seeded(before, more, ops, cfg, individual, i),
{
    let at = before.roots().len() + i;
    let node = after.roots()[at];
    assert(more.roots()[at] == node);
    if i > 0 {
        assert(more.roots()[at - 1] == after.roots()[at - 1]);
    }
    let start = start_of(before, after, i);
    assert(more.nodes().take(start) == after.nodes().take(start));
    assert(more.nodes().take(node.0 + 1) == after.nodes().take(node.0 + 1));
}

/// Every individual of an initial population has a registered root, which
/// stands for a tree of the planned shape without dangling identifiers. It has
/// one parameter per constant, and its tree can be evaluated on them and on as
/// many inputs as there are variables.
pub proof fn lemma_seeded<G: Genome>(
    before: &ExprArena<G::Tag>,
    after: &ExprArena<G::Tag>,
    ops: &OperationTable,
    cfg: &PopulationConfig,
    individual: Individual<G>,
    i: int,
)
    requires
        0 <= i,
        before.roots().len() + i < after.roots().len(),
        seeded(before, after, ops, cfg, individual, i),
    ensures
        after.root_node(individual.root) matches Some(node) && {
            &&& after.sound_at(node)
            &&& shaped(after.expr(node), cfg.plan(i), ops)
            &&& after.expr(node).parameters() == fresh_slots(0, individual.parameters@.len())
            &&& after.expr(node).params_below(individual.parameters@.len())
        },
        ops.addressable() ==> individual.lives_in(after, ops, cfg.tuning.n_variables as nat),
{
    let node = after.roots()[before.roots().len() + i];
    let own = after.nodes().take(node.0 + 1);
    let start = after.nodes().take(start_of(before, after, i));
    after.lemma_lengths();
    lemma_expr_extend(own, after.nodes(), node);
    lemma_follows::<G>(
        expr_of(own, node),
        cfg.tuning.p_terminal,
        cfg.plan(i).0,
        cfg.plan(i).1 as nat,
        ops.unary_ids().len() + ops.binary_ids().len() > 0,
    );
    lemma_generated::<G>(
        start,
        own,
        node,
        Seq::empty(),
        individual.parameters@,
        cfg.tuning.n_variables,
        cfg.tuning.const_range,
        ops.unary_ids(),
        ops.binary_ids(),
    );
    if ops.addressable() {
        lemma_drawn_evaluable(
            after.expr(node),
            ops,
            cfg.tuning.n_variables,
            cfg.tuning.n_variables as nat,
            individual.parameters@.len(),
        );
    }
}

/// Builds an initial population of `cfg.size` individuals into `arena`,
/// returning the [`Population`]. Each individual's tree is rooted in `arena`
/// and owns its own freshly-allocated parameter vector.
pub fn init_population_into<G: Genome>(
    arena: &mut ExprArena<G::Tag>,
    ops: &OperationTable,
    cfg: &PopulationConfig,
    rng: &mut StdRng,
) -> (r: Population<G>)
    requires
        cfg.countable(),
        cfg.tuning.drawable(),
    ensures
        r@.len() == cfg.size,
        old(arena).nodes().is_prefix_of(final(arena).nodes()),
        old(arena).roots().is_prefix_of(final(arena).roots()),
        final(arena).roots().len() == old(arena).roots().len() + cfg.size,
        final(arena).nodes().len() == start_of(old(arena), final(arena), cfg.size as int),
        forall|i: int|
            0 <= i < cfg.size ==> seeded(
                old(arena),
                final(arena),
                ops,
                cfg,
                #[trigger] r@[i],
                i,
            ),
{
    let ghost before = *arena;
    let mut individuals: Vec<Individual<G>> = Vec::new();
    let mut i: usize = 0;
    while i < cfg.size
        invariant
            i <= cfg.size,
            individuals@.len() == i,
            cfg.countable(),
            cfg.tuning.drawable(),
            before.nodes().is_prefix_of(arena.nodes()),
            before.roots().is_prefix_of(arena.roots()),
            arena.roots().len() == before.roots().len() + i,
            arena.nodes().len() == start_of(&before, arena, i as int),
            forall|j: int|
                0 <= j < i ==> seeded(&before, arena, ops, cfg, #[trigger] individuals@[j], j),
        decreases cfg.size - i,
    {
        let ghost so_far = *arena;
        let (method, depth) = plan_individual(cfg, i);
        let mut b = IndividualBuilder::<G>::new(arena, ops, rng);
        let root_node = gen_tree(&mut b, &cfg.tuning, method, depth);
        let ghost params = b.params@;
        let (individual, _) = b.finish(root_node);
        proof {
            arena.lemma_lengths();
            lemma_generated::<G>(
                so_far.nodes(),
                arena.nodes(),
                root_node,
                Seq::empty(),
                params,
                cfg.tuning.n_variables,
                cfg.tuning.const_range,
                ops.unary_ids(),
                ops.binary_ids(),
            );
            lemma_copied_len(expr_of(arena.nodes(), root_node), so_far.nodes().len());
            let at = before.roots().len() + i;
            assert(arena.roots()[at] == root_node);
            if i > 0 {
                assert(arena.roots()[at - 1] == so_far.roots()[at - 1]);
            }
            assert(arena.nodes().take(root_node.0 + 1) == arena.nodes());
            assert(arena.nodes().take(so_far.nodes().len() as int) == so_far.nodes());
            assert(seeded(&before, arena, ops, cfg, individual, i as int));
            assert forall|j: int| 0 <= j < i implies seeded(
                &before,
                arena,
                ops,
                cfg,
                #[trigger] individuals@[j],
                j,
            ) by {
                lemma_seeded_extend(&before, &so_far, arena, ops, cfg, individuals@[j], j);
            }
        }
        individuals.push(individual);
        i += 1;
    }
    Population::new(individuals)
}

/// How the trees of an initial population come by their method and depth. All
/// are `full` trees of the largest depth, or all are `grow` trees of it, or, by
/// ramped half-and-half, the individuals go through the depths from the
/// smallest to the largest, round after round, by the `full` method in even
/// rounds and by the `grow` method in odd ones.
pub proof fn lemma_planned(cfg: &PopulationConfig, round: int, offset: int, i: int)
    requires
        cfg.min_depth <= cfg.max_depth,
        0 <= round,
        0 <= offset <= cfg.max_depth - cfg.min_depth,
        i == round * (cfg.max_depth - cfg.min_depth + 1) + offset,
    ensures
        cfg.method == InitMethod::Full ==> cfg.plan(i) == (TreeMethod::Full, cfg.max_depth as int),
        cfg.method == InitMethod::Grow ==> cfg.plan(i) == (TreeMethod::Grow, cfg.max_depth as int),
        cfg.method == InitMethod::RampedHalfAndHalf && round % 2 == 0 ==> cfg.plan(i) == (
            TreeMethod::Full,
            cfg.min_depth + offset,
        ),
        cfg.method == InitMethod::RampedHalfAndHalf && round % 2 == 1 ==> cfg.plan(i) == (
            TreeMethod::Grow,
            cfg.min_depth + offset,
        ),
{
    let n = cfg.max_depth - cfg.min_depth + 1;
    lemma_fundamental_div_mod_converse(i, n, round, offset);
}

/// Where the smallest depth exceeds the largest, every tree of ramped
/// half-and-half has the largest depth, and the methods take turns.
pub proof fn lemma_planned_flat(cfg: &PopulationConfig, i: int)
    requires
        cfg.min_depth > cfg.max_depth,
        0 <= i,
    ensures
        cfg.method == InitMethod::Full ==> cfg.plan(i) == (TreeMethod::Full, cfg.max_depth as int),
        cfg.method == InitMethod::Grow ==> cfg.plan(i) == (TreeMethod::Grow, cfg.max_depth as int),
        cfg.method == InitMethod::RampedHalfAndHalf ==> cfg.plan(i) == (
            if i % 2 == 0 {
                TreeMethod::Full
            } else {
                TreeMethod::Grow
            },
            cfg.max_depth as int,
        ),
{
}

/// What stands at each place of an individual's tree in an initial population.
/// A leaf stands above the planned depth only in a tree of the `grow` method,
/// where a draw below `p_terminal` ended the branch, and an operator in such a
/// tree only where one was not. Variables are among the configured ones,
/// operators among those of their arity in the table, and the individual's
/// parameters are draws from the configured range. Every node has a tag that
/// the genome gives to it.
pub proof fn lemma_seeded_places<G: Genome>(
    before: &ExprArena<G::Tag>,
    after: &ExprArena<G::Tag>,
    ops: &OperationTable,
    cfg: &PopulationConfig,
    individual: Individual<G>,
    i: int,
    path: Seq<bool>,
    slot: int,
)
    requires
        0 <= i,
        before.roots().len() + i < after.roots().len(),
        seeded(before, after, ops, cfg, individual, i),
        part_at(after.expr(after.root_node(individual.root)->0), path) is Some,
    ensures
        path.len() <= cfg.plan(i).1,
        0 <= slot < individual.parameters@.len() ==> exists|rng: &mut StdRng| #[trigger]
            call_ensures(
                G::Reals::uniform,
                (rng, cfg.tuning.const_range.0, cfg.tuning.const_range.1),
                individual.parameters@[slot],
            ),
        match part_at(after.expr(after.root_node(individual.root)->0), path)->0 {
            Expr::Missing { .. } => false,
            Expr::Variable { .. } | Expr::Parameter { .. } => ops.unary_ids().len()
                + ops.binary_ids().len() > 0 && path.len() < cfg.plan(i).1 ==> {
                &&& cfg.plan(i).0 == TreeMethod::Grow
                &&& exists|rng: &mut StdRng, unit: Scalar| #[trigger]
                    call_ensures(G::Reals::unit, (rng,), unit) && less(unit, cfg.tuning.p_terminal)
            },
            Expr::Unary { .. } | Expr::Binary { .. } => {
                &&& path.len() < cfg.plan(i).1
                &&& cfg.plan(i).0 == TreeMethod::Grow ==> exists|rng: &mut StdRng, unit: Scalar|
                    #[trigger] call_ensures(G::Reals::unit, (rng,), unit) && !less(
                        unit,
                        cfg.tuning.p_terminal,
                    )
            },
        },
        match part_at(after.expr(after.root_node(individual.root)->0), path)->0 {
            Expr::Variable { var, .. } => var.0 < cfg.tuning.n_variables,
            Expr::Unary { op, .. } => ops.unary_ids().contains(op),
            Expr::Binary { op, .. } => ops.binary_ids().contains(op),
            _ => true,
        },
        given_tag::<G>(part_at(after.expr(after.root_node(individual.root)->0), path)->0),
{
    let node = after.roots()[before.roots().len() + i];
    let own = after.nodes().take(node.0 + 1);
    after.lemma_lengths();
    lemma_expr_extend(own, after.nodes(), node);
    assert(cfg.plan(i).1 as nat == cfg.plan(i).1) by {
        if cfg.method == InitMethod::RampedHalfAndHalf {
            lemma_fundamental_div_mod(i, cfg.buckets());
        }
    }
    lemma_places::<G>(
        expr_of(own, node),
        cfg.tuning.p_terminal,
        cfg.plan(i).0,
        cfg.plan(i).1 as nat,
        ops.unary_ids().len() + ops.binary_ids().len() > 0,
        path,
    );
    lemma_parts::<G>(
        after.nodes().take(start_of(before, after, i)),
        own,
        node,
        Seq::empty(),
        individual.parameters@,
        cfg.tuning.n_variables,
        cfg.tuning.const_range,
        ops.unary_ids(),
        ops.binary_ids(),
        path,
        slot,
    );
    let start = after.nodes().take(start_of(before, after, i));
    lemma_generated::<G>(
        start,
        own,
        node,
        Seq::empty(),
        individual.parameters@,
        cfg.tuning.n_variables,
        cfg.tuning.const_range,
        ops.unary_ids(),
        ops.binary_ids(),
    );
    lemma_generated_tags::<G>(start, own, node, path);
}

/// An initial population has as many individuals as configured, each with a
/// tree of its own in the arena, of which [`lemma_seeded_places`] tells what
/// stands at each place. What was in the arena before stays as it was.
pub proof fn lemma_population<G: Genome>(
    before: ExprArena<G::Tag>,
    after: ExprArena<G::Tag>,
    ops: &OperationTable,
    cfg: &PopulationConfig,
    r: Population<G>,
    i: int,
)
    requires
        cfg.countable(),
        cfg.tuning.drawable(),
        exists|arena: &mut ExprArena<G::Tag>, rng: &mut StdRng|
            {
                &&& *arena == before
                &&& *final(arena) == after
                &&& #[trigger] call_ensures(
                    init_population_into::<G>,
                    (arena, ops, cfg, rng),
                    r,
                )
            },
        0 <= i < cfg.size,
    ensures
        r@.len() == cfg.size,
        before.nodes().is_prefix_of(after.nodes()),
        before.roots().is_prefix_of(after.roots()),
        after.roots().len() == before.roots().len() + cfg.size,
        seeded(&before, &after, ops, cfg, r@[i], i),
        r@[i].root.0 == before.roots().len() + i,
{
}

} // verus!
