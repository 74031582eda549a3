//! Genetic programming over expression trees.

pub mod breeding;
pub mod builder;
pub mod dataset;
pub mod fitness;
pub mod init;
pub mod mutation;
pub mod pingpong;
pub mod population;
pub mod selection;
pub mod subtree;

use crate::ast::{ExprArena, ExprNode, NodeKind};
use crate::eval::evaluable;
use crate::ops::OperationTable;
use crate::random::Reals;
use crate::types::{truncate16, NodeId, ParameterId, RootId, Scalar};
use builder::NodeBuilder;
use rand::rngs::StdRng;
use std::marker::PhantomData;
use vstd::prelude::*;

pub use breeding::{
    Breeder, GatedGenerationBreeder, GatedIndividualBuilder, GenerationBreeder,
    GenerationBreederParts,
};
pub use dataset::{ArrayDataset, Dataset};
pub use fitness::{
    k_best_of, k_best_of_with_comparator, k_tournament_selection,
    k_tournament_selection_with_comparator, Fitness, ParetoFitness, ScalarFitness,
};
pub use population::{Population, Scored};

verus! {

/// Base trait for a genome.
///
/// A genome may expose an additional tag type used to control what parts can
/// explicitly be modified by overriding [`Self::mutation_targets`].
pub trait Genome: Clone {
    type Tag: Clone;

    /// The real numbers that the genome's parameters are drawn from.
    type Reals: Reals;

    /// Dimension of the input vector: the number of input variables available
    /// to expressions built from this genome. Valid variable IDs are
    /// `0..INPUT_DIM`.
    const INPUT_DIM: u16;

    /// Returns a list of potential mutation targets for this individual
    /// genome. By default, all nodes of its tree.
    fn mutation_targets(root: RootId, arena: &ExprArena<Self::Tag>) -> (r: Vec<NodeId>)
        requires
            arena.root_node(root) matches Some(node) ==> arena.finite_at(node),
        default_ensures
            r@ == match arena.root_node(root) {
                Some(node) => arena.expr(node).walked(),
                None => Seq::empty(),
            },
    {
        match arena.walk_root(root) {
            Some(walk) => walk.collect(),
            None => Vec::new(),
        }
    }

    /// Gets a tag to attach to a new or structurally-changed expression node.
    fn get_tag_for_node(kind: NodeKind) -> Self::Tag;
}

/// A single individual: contains a handle to the root expression node and its
/// parameters.
pub struct Individual<G: Genome> {
    pub root: RootId,
    pub parameters: Vec<Scalar>,
    pub genome: PhantomData<G>,
}

impl<G: Genome> Individual<G> {
    /// Whether the individual lives in the arena: its root stands for a tree
    /// that can be evaluated on `n_inputs` inputs and its own parameters.
    pub open spec fn lives_in(
        &self,
        arena: &ExprArena<G::Tag>,
        ops: &OperationTable,
        n_inputs: nat,
    ) -> bool {
        arena.root_node(self.root) matches Some(node) && {
            &&& arena.finite_at(node)
            &&& evaluable(arena.expr(node), ops.operations(), n_inputs, self.parameters@.len())
        }
    }

    pub fn new(root: RootId, parameters: Vec<Scalar>) -> (r: Self)
        ensures
            r.root == root,
            r.parameters == parameters,
    {
        Self { root, parameters, genome: PhantomData }
    }
}

/// One generation: an expression arena together with the population of
/// individuals whose roots live in it. An individual's `RootId` is only
/// meaningful paired with its generation's arena.
pub struct Generation<G: Genome, F: Fitness> {
    pub arena: ExprArena<G::Tag>,
    pub population: Population<G, F>,
}

impl<G: Genome, F: Fitness> Generation<G, F> {
    /// Whether there are no expressions and no individuals.
    pub open spec fn is_empty(&self) -> bool {
        self.arena.is_empty() && self.population@.len() == 0
    }

    /// An empty generation.
    pub fn new() -> (r: Self)
        ensures
            r.is_empty(),
    {
        Self { arena: ExprArena::new(), population: Population::new() }
    }

    /// Removes all expressions and individuals, resetting the buffer.
    pub fn clear(&mut self)
        ensures
            final(self).is_empty(),
    {
        self.arena.clear();
        self.population.clear();
    }
}

impl<G: Genome, F: Fitness> Default for Generation<G, F> {
    fn default() -> (r: Self)
        ensures
            r.is_empty(),
    {
        Self::new()
    }
}

/// Global context for genetic programming.
///
/// Holds the operation table and two generations: `current` is the live one
/// (individuals are built, scored and selected here) and `next` is the one
/// being bred into via [`GenerationBreeder`]. [`Context::advance`] promotes
/// `next` to `current`.
///
/// The fields are public on purpose: accessing them directly
/// (`&ctx.current.arena`, `&mut ctx.current.population`, ...) lets the borrow
/// checker split the borrows for i.e. reading the arena while writing fitness
/// into the population.
pub struct Context<G: Genome, F: Fitness> {
    pub current: Generation<G, F>,
    pub next: Generation<G, F>,
    pub operations: OperationTable,
}

/// A `NodeBuilder` returned by [`Context::builder`] for constructing a single
/// individual by hand. Call [`IndividualBuilder::finish`] to register the root
/// and insert the individual into the target generation, obtaining a mutable
/// reference to it. The individual is built into, and inserted into, the
/// generation the builder was created for.
pub struct IndividualBuilder<'a, G: Genome, F: Fitness> {
    pub arena: &'a mut ExprArena<G::Tag>,
    pub population: &'a mut Population<G, F>,
    pub ops: &'a OperationTable,
    pub input_dim: u16,
    pub rng: &'a mut StdRng,
    pub params: Vec<Scalar>,
}

impl<G: Genome, F: Fitness> Context<G, F> {
    pub fn new(op: OperationTable) -> (r: Self)
        ensures
            r.current.is_empty(),
            r.next.is_empty(),
            r.operations == op,
    {
        Self { current: Generation::new(), next: Generation::new(), operations: op }
    }

    /// Promotes the freshly-bred `next` generation to `current`. The old
    /// current generation is cleared, ready to receive the one after.
    pub fn advance(&mut self)
        ensures
            final(self).current == old(self).next,
            final(self).next.is_empty(),
            final(self).operations == old(self).operations,
    {
        std::mem::swap(&mut self.current, &mut self.next);
        self.next.clear();
    }

    /// Returns a [`GenerationBreeder`] view over `current` (read) and `next`
    /// (write) to build the next generation. Finalize the cycle with
    /// [`Context::advance`].
    ///
    /// This borrows the whole context mutably; if a reference into `current`
    /// (e.g. a selected parent) is already held, assemble the view from the
    /// fields with [`GenerationBreeder::new`] instead.
    pub fn breeder(&mut self) -> (r: GenerationBreeder<'_, G, F>)
        ensures
            *r.source == old(self).current,
            *r.dest == old(self).next,
            *r.ops == old(self).operations,
            r.input_dim == G::INPUT_DIM,
            final(self).current == old(self).current,
            final(self).next == *final(r.dest),
            final(self).operations == old(self).operations,
    {
        GenerationBreeder::new(&self.current, &mut self.next, &self.operations, G::INPUT_DIM)
    }

    /// Returns a builder for constructing a single individual into the
    /// `current` generation. [`IndividualBuilder::finish`] registers the root
    /// and inserts the individual (unscored), returning a reference to it.
    pub fn builder<'a>(&'a mut self, rng: &'a mut StdRng) -> (r: IndividualBuilder<'a, G, F>)
        ensures
            *r.arena == old(self).current.arena,
            *r.population == old(self).current.population,
            *r.ops == old(self).operations,
            r.input_dim == G::INPUT_DIM,
            *r.rng == *old(rng),
            *final(r.rng) == *final(rng),
            r.params@ == Seq::<Scalar>::empty(),
            final(self).current.arena == *final(r.arena),
            final(self).current.population == *final(r.population),
            final(self).next == old(self).next,
            final(self).operations == old(self).operations,
    {
        IndividualBuilder::new(
            &mut self.current.arena,
            &mut self.current.population,
            &self.operations,
            G::INPUT_DIM,
            rng,
        )
    }
}

impl<'a, G: Genome, F: Fitness> IndividualBuilder<'a, G, F> {
    pub fn new(
        arena: &'a mut ExprArena<G::Tag>,
        population: &'a mut Population<G, F>,
        ops: &'a OperationTable,
        input_dim: u16,
        rng: &'a mut StdRng,
    ) -> (r: Self)
        ensures
            *r.arena == *old(arena),
            *final(r.arena) == *final(arena),
            *r.population == *old(population),
            *final(r.population) == *final(population),
            r.ops == ops,
            r.input_dim == input_dim,
            *r.rng == *old(rng),
            *final(r.rng) == *final(rng),
            r.params@ == Seq::<Scalar>::empty(),
    {
        Self { arena, population, ops, input_dim, rng, params: Vec::new() }
    }

    /// Registers `root_node` as an expression root, inserts the finished
    /// (unscored) individual into the builder's population, and returns a
    /// mutable reference to its [`Scored`] slot (e.g. to seed its fitness).
    /// Consumes the builder.
    pub fn finish(self, root_node: NodeId) -> (r: &'a mut Scored<G, F>)
        ensures
            final(self.arena).nodes() == old(self.arena).nodes(),
            final(self.arena).roots() == old(self.arena).roots().push(root_node),
            r.individual.root.0 == old(self.arena).roots().len(),
            r.individual.parameters == self.params,
            r.fitness is None,
            final(self.population)@ == old(self.population)@.push(*final(r)),
    {
        let root = self.arena.add_root(root_node);
        self.population.insert(Individual::new(root, self.params))
    }
}

impl<'a, G: Genome, F: Fitness> NodeBuilder<G> for IndividualBuilder<'a, G, F> {
    type Rest = &'a mut Population<G, F>;

    open spec fn arena_ref(&self) -> &mut ExprArena<G::Tag> {
        self.arena
    }

    open spec fn params(&self) -> Seq<Scalar> {
        self.params@
    }

    open spec fn params_ref(&self) -> &mut Vec<Scalar> {
        arbitrary()
    }

    open spec fn table(&self) -> &OperationTable {
        self.ops
    }

    open spec fn n_inputs(&self) -> u16 {
        self.input_dim
    }

    open spec fn rng_ref(&self) -> &mut StdRng {
        self.rng
    }

    open spec fn rest(&self) -> &'a mut Population<G, F> {
        self.population
    }

    fn rng(&mut self) -> (r: &mut StdRng) {
        assert(self.rng_ref() == self.rng);
        self.rng
    }

    fn ops(&self) -> (r: &OperationTable) {
        self.ops
    }

    fn input_dim(&self) -> (r: u16) {
        self.input_dim
    }

    fn emit(&mut self, node: ExprNode<G::Tag>) -> (id: NodeId) {
        self.arena.add(node)
    }

    fn new_parameter(&mut self, value: Scalar) -> (id: ParameterId) {
        let id = ParameterId(truncate16(self.params.len()));
        self.params.push(value);
        id
    }
}

} // verus!
