//! Breeding of the next generation.

use super::builder::NodeBuilder;
use super::fitness::Fitness;
use super::mutation::copied_onto;
use super::population::{Population, Scored};
use super::{Generation, Genome, Individual, IndividualBuilder};
use crate::ast::{ExprArena, ExprNode};
use crate::eval::{evaluable, lemma_value_alike, value};
use crate::expr::{lemma_copied_alike, lemma_copied_len, Expr};
use crate::ops::{OpMetadata, OperationTable};
use crate::formula::{formula, lemma_formula_alike};
use crate::types::{truncate16, NodeId, ParameterId, Scalar};
use rand::rngs::StdRng;
use vstd::prelude::*;

verus! {

/// Borrow-split pieces a breeding operation needs to build an offspring's
/// nodes: the source arena to read the parent from, the destination arena to
/// write the offspring into, and the operation table.
pub struct GenerationBreederParts<'a, G: Genome> {
    pub source: &'a ExprArena<G::Tag>,
    pub dest: &'a mut ExprArena<G::Tag>,
    pub ops: &'a OperationTable,
    pub input_dim: u16,
}

/// Represents a breeder that is used to prepare the
/// next generation of individuals based on the current source one.
pub trait Breeder<G: Genome, F: Fitness> {
    /// The arena that parents are read from.
    spec fn source_arena(&self) -> &ExprArena<G::Tag>;

    /// The generation that offspring are put into.
    spec fn dest_ref(&self) -> &mut Generation<G, F>;

    /// The operation table.
    spec fn table(&self) -> &OperationTable;

    /// The number of input variables.
    spec fn n_inputs(&self) -> u16;

    /// Whether offspring can be offered.
    spec fn ready(&self) -> bool;

    /// Whether the breeder may accept, or reject, an offspring rooted in the
    /// given arena.
    spec fn decides(
        &self,
        offspring: Individual<G>,
        arena: ExprArena<G::Tag>,
        accepted: bool,
    ) -> bool;

    /// Borrow-split view over the source/destination arenas and the
    /// operation table, for building an offspring's nodes.
    fn parts(&mut self) -> (r: GenerationBreederParts<'_, G>)
        ensures
            r.source == old(self).source_arena(),
            *r.dest == old(self).dest_ref().arena,
            r.ops == old(self).table(),
            r.input_dim == old(self).n_inputs(),
            final(self).dest_ref().arena == *final(r.dest),
            final(self).dest_ref().population == old(self).dest_ref().population,
            *final(final(self).dest_ref()) == *final(old(self).dest_ref()),
            final(self).source_arena() == old(self).source_arena(),
            final(self).table() == old(self).table(),
            final(self).n_inputs() == old(self).n_inputs(),
            final(self).ready() == old(self).ready(),
            forall|offspring: Individual<G>, arena: ExprArena<G::Tag>, accepted: bool| #[trigger]
                final(self).decides(offspring, arena, accepted) == old(self).decides(
                    offspring,
                    arena,
                    accepted,
                ),
    ;

    /// Prepares a finished `offspring` (already rooted in the destination
    /// arena) for insertion into the destination generation.
    ///
    /// Returns a mutable reference to its (unscored) [`Scored`] individual slot
    /// if accepted, or `None` if the breeder implementation rejected it. This
    /// method can be used to implement hooks to enforce constraints on
    /// individuals after mutation / crossover.
    fn commit(&mut self, offspring: Individual<G>) -> (r: Option<&mut Scored<G, F>>)
        requires
            old(self).ready(),
        ensures
            old(self).decides(offspring, old(self).dest_ref().arena, r is Some),
            match r {
                Some(scored) => {
                    &&& scored.individual == offspring
                    &&& scored.fitness is None
                    &&& final(self).dest_ref().population@
                        == old(self).dest_ref().population@.push(*final(scored))
                },
                None => final(self).dest_ref().population == old(self).dest_ref().population,
            },
            final(self).dest_ref().arena == old(self).dest_ref().arena,
            *final(final(self).dest_ref()) == *final(old(self).dest_ref()),
            final(self).source_arena() == old(self).source_arena(),
            final(self).table() == old(self).table(),
            final(self).n_inputs() == old(self).n_inputs(),
            final(self).ready(),
    ;

    /// Copies `parent` unchanged from the source generation into the
    /// destination one: its AST is deep-copied into the destination arena and
    /// its fitness is carried over (so it won't be re-evaluated). This is the
    /// primitive for elitism / survivor copying.
    ///
    /// ### Note
    ///
    /// This method DOES go through [`Breeder::commit()`] so an elite may
    /// be potentially rejected from being copied-over if the downstream breeder
    /// implementation has constraint enforcement in its [`Breeder::commit()`]
    /// method implementation.
    fn copy_individual_over(&mut self, parent: &Scored<G, F>) -> (r: Option<&mut Scored<G, F>>)
        requires
            old(self).ready(),
            old(self).source_arena().root_node(parent.individual.root) matches Some(node)
                && old(self).source_arena().sound_at(node),
        ensures
            match r {
                Some(scored) => {
                    &&& old(self).decides(scored.individual, final(self).dest_ref().arena, true)
                    &&& scored.individual.root.0 == old(self).dest_ref().arena.roots().len()
                    &&& scored.individual.parameters@ == parent.individual.parameters@
                    &&& match parent.fitness {
                        Some(f) => scored.fitness matches Some(g) && cloned(f, g),
                        None => scored.fitness is None,
                    }
                    &&& final(self).dest_ref().population@
                        == old(self).dest_ref().population@.push(*final(scored))
                },
                None => {
                    &&& exists|offspring: Individual<G>|
                        {
                            &&& #[trigger] old(self).decides(
                                offspring,
                                final(self).dest_ref().arena,
                                false,
                            )
                            &&& offspring.root.0 == old(self).dest_ref().arena.roots().len()
                            &&& offspring.parameters@ == parent.individual.parameters@
                        }
                    &&& final(self).dest_ref().population == old(self).dest_ref().population
                },
            },
            copied_root(
                old(self).source_arena().expr(
                    old(self).source_arena().root_node(parent.individual.root)->0,
                ),
                old(self).dest_ref().arena,
                final(self).dest_ref().arena,
            ),
            *final(final(self).dest_ref()) == *final(old(self).dest_ref()),
            final(self).source_arena() == old(self).source_arena(),
            final(self).table() == old(self).table(),
            final(self).n_inputs() == old(self).n_inputs(),
            final(self).ready(),
    {
        let ghost before = self.dest_ref().arena;
        let parts = self.parts();
        let new_root = parts.source.copy_root_over(parent.individual.root, parts.dest).unwrap();
        proof {
            let source = self.source_arena();
            let e = source.expr(source.root_node(parent.individual.root)->0);
            let after = self.dest_ref().arena;
            after.lemma_lengths();
            lemma_copied_len(e, before.nodes().len());
            lemma_copied_alike(e, after.nodes(), before.nodes().len());
            assert(after.roots().drop_last() == before.roots());
            assert(copied_root(e, before, after));
        }
        let offspring = Individual::new(new_root, parent.individual.parameters.clone());
        match self.commit(offspring) {
            Some(child) => {
                child.fitness = parent.fitness.clone();
                Some(child)
            },
            None => None,
        }
    }
}

/// Whether a copy of the tree `e`, and nothing else, was appended to an arena
/// and registered as its last root.
pub open spec fn copied_root<Tag: Clone>(
    e: Expr<Tag>,
    before: ExprArena<Tag>,
    after: ExprArena<Tag>,
) -> bool {
    &&& copied_onto(e, before.nodes(), after.nodes(), after.roots().last())
    &&& after.roots().len() == before.roots().len() + 1
    &&& after.roots().drop_last() == before.roots()
}

/// A copy has the value of what it was copied from, on all inputs and
/// parameters, and can be evaluated where that can.
pub proof fn lemma_copy_keeps_value<Tag: Clone>(
    e: Expr<Tag>,
    before: ExprArena<Tag>,
    after: ExprArena<Tag>,
    ops: Seq<OpMetadata>,
    inputs: Seq<Scalar>,
    params: Seq<Scalar>,
)
    requires
        copied_root(e, before, after),
    ensures
        ({
            let f = after.expr(after.roots().last());
            &&& value(f, ops, inputs, params) == value(e, ops, inputs, params)
            &&& evaluable(f, ops, inputs.len(), params.len()) == evaluable(
                e,
                ops,
                inputs.len(),
                params.len(),
            )
        }),
{
    lemma_value_alike(e, after.expr(after.roots().last()), ops, inputs, params);
}

/// Split-borrow view used to populate the next generation.
///
/// Wraps the source generation (read) and the destination generation
/// (write): breeding operations read parents from `source` and build offspring
/// into `dest`.
///
/// Calling [`crate::gp::Context::advance`] on the parent context finalizes the
/// generation.
pub struct GenerationBreeder<'a, G: Genome, F: Fitness> {
    pub source: &'a Generation<G, F>,
    pub dest: &'a mut Generation<G, F>,
    pub ops: &'a OperationTable,
    pub input_dim: u16,
}

impl<'a, G: Genome, F: Fitness> GenerationBreeder<'a, G, F> {
    pub fn new(
        source: &'a Generation<G, F>,
        dest: &'a mut Generation<G, F>,
        ops: &'a OperationTable,
        input_dim: u16,
    ) -> (r: Self)
        ensures
            r.source == source,
            *r.dest == *old(dest),
            *final(r.dest) == *final(dest),
            r.ops == ops,
            r.input_dim == input_dim,
    {
        Self { source, dest, ops, input_dim }
    }

    /// Returns a builder for constructing a brand-new individual into the
    /// destination arena. [`IndividualBuilder::finish`] inserts it (unscored)
    /// into the next generation and returns a reference to it.
    pub fn builder<'b>(&'b mut self, rng: &'b mut StdRng) -> (r: IndividualBuilder<'b, G, F>)
        ensures
            *r.arena == old(self).dest.arena,
            *r.population == old(self).dest.population,
            r.ops == old(self).ops,
            r.input_dim == old(self).input_dim,
            *r.rng == *old(rng),
            *final(r.rng) == *final(rng),
            r.params@ == Seq::<Scalar>::empty(),
            final(self).source == old(self).source,
            final(self).ops == old(self).ops,
            final(self).input_dim == old(self).input_dim,
            final(self).dest.arena == *final(r.arena),
            final(self).dest.population == *final(r.population),
            *final(final(self).dest) == *final(old(self).dest),
    {
        IndividualBuilder::new(
            &mut self.dest.arena,
            &mut self.dest.population,
            self.ops,
            self.input_dim,
            rng,
        )
    }
}

impl<'a, G: Genome, F: Fitness> Breeder<G, F> for GenerationBreeder<'a, G, F> {
    open spec fn source_arena(&self) -> &ExprArena<G::Tag> {
        &self.source.arena
    }

    open spec fn dest_ref(&self) -> &mut Generation<G, F> {
        self.dest
    }

    open spec fn table(&self) -> &OperationTable {
        self.ops
    }

    open spec fn n_inputs(&self) -> u16 {
        self.input_dim
    }

    open spec fn ready(&self) -> bool {
        true
    }

    open spec fn decides(
        &self,
        offspring: Individual<G>,
        arena: ExprArena<G::Tag>,
        accepted: bool,
    ) -> bool {
        accepted
    }

    fn parts(&mut self) -> (r: GenerationBreederParts<'_, G>) {
        GenerationBreederParts {
            source: &self.source.arena,
            dest: &mut self.dest.arena,
            ops: self.ops,
            input_dim: self.input_dim,
        }
    }

    fn commit(&mut self, offspring: Individual<G>) -> (r: Option<&mut Scored<G, F>>) {
        Some(self.dest.population.insert(offspring))
    }
}

/// A [`GenerationBreeder`] variant that runs a hook closure before every
/// insertion into the destination generation, letting the caller reject a
/// finished offspring. Otherwise behaves exactly like [`GenerationBreeder`];
/// the two variants don't influence each other.
///
/// The hook is asked to accept or reject each finished offspring: `candidate`
/// is the offspring about to be inserted, and `arena` is the *destination*
/// arena: `candidate`'s nodes and its root are already written into it, so
/// the hook can measure the finished tree (depth, node count, ...) before
/// deciding. Useful for post-hoc constraints that can only be checked on a
/// *finished* tree, e.g. a maximum depth, since mutations don't generally
/// know how deep their target sits in the parent, or how deep the subtree
/// they graft will end up being once rebuilt.
///
/// The hook is stored by value and must be `'static` (own everything it
/// captures), so a plain closure, optionally capturing and mutating its own
/// state across calls, is all that's needed; there's no trait to implement.
///
/// ### Rejected candidates leave their nodes in the destination arena
///
/// Offspring are built directly into `dest`'s arena; there is no staging
/// buffer. By the time the hook sees a candidate, its nodes *and its root*
/// are already there, and [`ExprArena`] cannot take them back: it is a bump
/// arena whose only reclamation is [`ExprArena::clear`].
///
/// Rejecting therefore orphans those nodes, deliberately. The cost is bounded:
/// - nothing in the destination population references them, so they are
///   invisible to scoring, selection and reporting;
/// - the following generation is bred by copying from the *population*, so
///   orphans are never carried forward;
/// - [`crate::gp::Context::advance`] clears the arena when the generation is
///   retired, at which point they are gone.
///
/// Note also that a rejected candidate still consumed a `RootId`, so root ids
/// in the destination arena are not dense with respect to population
/// indices. Nothing in the crate assumes they are.
pub struct GatedGenerationBreeder<
    'a,
    G: Genome,
    F: Fitness,
    H: FnMut(&Individual<G>, &ExprArena<G::Tag>) -> bool + 'static,
> {
    pub source: &'a Generation<G, F>,
    pub dest: &'a mut Generation<G, F>,
    pub ops: &'a OperationTable,
    pub input_dim: u16,
    pub hook: H,
}

impl<
    'a,
    G: Genome,
    F: Fitness,
    H: FnMut(&Individual<G>, &ExprArena<G::Tag>) -> bool + 'static,
> GatedGenerationBreeder<'a, G, F, H> {
    pub fn new(
        source: &'a Generation<G, F>,
        dest: &'a mut Generation<G, F>,
        ops: &'a OperationTable,
        input_dim: u16,
        hook: H,
    ) -> (r: Self)
        ensures
            r.source == source,
            *r.dest == *old(dest),
            *final(r.dest) == *final(dest),
            r.ops == ops,
            r.input_dim == input_dim,
            r.hook == hook,
    {
        Self { source, dest, ops, input_dim, hook }
    }

    /// Read-only view of the destination generation as bred so far.
    pub fn dest(&self) -> (r: &Generation<G, F>)
        ensures
            *r == *self.dest_ref(),
    {
        self.dest
    }

    /// Returns a builder for constructing a brand-new individual into the
    /// destination arena, gated by this breeder's hook closure.
    /// [`GatedIndividualBuilder::finish`] inserts it (unscored) into the next
    /// generation only if the hook accepts it.
    pub fn builder<'b>(&'b mut self, rng: &'b mut StdRng) -> (r: GatedIndividualBuilder<
        'b,
        G,
        F,
        H,
    >)
        ensures
            *r.arena == old(self).dest.arena,
            *r.population == old(self).dest.population,
            r.ops == old(self).ops,
            r.input_dim == old(self).input_dim,
            *r.rng == *old(rng),
            *final(r.rng) == *final(rng),
            r.params@ == Seq::<Scalar>::empty(),
            *r.hook == old(self).hook,
            final(self).source == old(self).source,
            final(self).ops == old(self).ops,
            final(self).input_dim == old(self).input_dim,
            final(self).hook == *final(r.hook),
            final(self).dest.arena == *final(r.arena),
            final(self).dest.population == *final(r.population),
            *final(final(self).dest) == *final(old(self).dest),
    {
        GatedIndividualBuilder::new(
            &mut self.dest.arena,
            &mut self.dest.population,
            self.ops,
            self.input_dim,
            rng,
            &mut self.hook,
        )
    }
}

impl<
    'a,
    G: Genome,
    F: Fitness,
    H: FnMut(&Individual<G>, &ExprArena<G::Tag>) -> bool + 'static,
> Breeder<G, F> for GatedGenerationBreeder<'a, G, F, H> {
    open spec fn source_arena(&self) -> &ExprArena<G::Tag> {
        &self.source.arena
    }

    open spec fn dest_ref(&self) -> &mut Generation<G, F> {
        self.dest
    }

    open spec fn table(&self) -> &OperationTable {
        self.ops
    }

    open spec fn n_inputs(&self) -> u16 {
        self.input_dim
    }

    open spec fn ready(&self) -> bool {
        forall|h: H, candidate: &Individual<G>, arena: &ExprArena<G::Tag>| #[trigger]
            call_requires(h, (candidate, arena))
    }

    open spec fn decides(
        &self,
        offspring: Individual<G>,
        arena: ExprArena<G::Tag>,
        accepted: bool,
    ) -> bool {
        call_ensures(self.hook, (&offspring, &arena), accepted)
    }

    fn parts(&mut self) -> (r: GenerationBreederParts<'_, G>) {
        GenerationBreederParts {
            source: &self.source.arena,
            dest: &mut self.dest.arena,
            ops: self.ops,
            input_dim: self.input_dim,
        }
    }

    fn commit(&mut self, offspring: Individual<G>) -> (r: Option<&mut Scored<G, F>>) {
        let accepted = (self.hook)(&offspring, &self.dest.arena);
        if !accepted {
            return None;
        }
        Some(self.dest.population.insert(offspring))
    }
}

/// A [`GatedGenerationBreeder`] counterpart to [`IndividualBuilder`], gated by
/// a hook closure.
///
/// See [`GatedGenerationBreeder`] for the orphan-node caveat:
/// [`Self::finish`] registers the root and writes the individual into the
/// arena *before* consulting the hook, so a rejected individual's nodes
/// remain in the arena, unreferenced by the population.
pub struct GatedIndividualBuilder<
    'a,
    G: Genome,
    F: Fitness,
    H: FnMut(&Individual<G>, &ExprArena<G::Tag>) -> bool + 'static,
> {
    pub arena: &'a mut ExprArena<G::Tag>,
    pub population: &'a mut Population<G, F>,
    pub ops: &'a OperationTable,
    pub input_dim: u16,
    pub rng: &'a mut StdRng,
    pub hook: &'a mut H,
    pub params: Vec<Scalar>,
}

impl<
    'a,
    G: Genome,
    F: Fitness,
    H: FnMut(&Individual<G>, &ExprArena<G::Tag>) -> bool + 'static,
> GatedIndividualBuilder<'a, G, F, H> {
    pub fn new(
        arena: &'a mut ExprArena<G::Tag>,
        population: &'a mut Population<G, F>,
        ops: &'a OperationTable,
        input_dim: u16,
        rng: &'a mut StdRng,
        hook: &'a mut H,
    ) -> (r: Self)
        ensures
            *r.arena == *old(arena),
            *final(r.arena) == *final(arena),
            *r.population == *old(population),
            *final(r.population) == *final(population),
            r.ops == ops,
            r.input_dim == input_dim,
            *r.hook == *old(hook),
            *final(r.hook) == *final(hook),
            *r.rng == *old(rng),
            *final(r.rng) == *final(rng),
            r.params@ == Seq::<Scalar>::empty(),
    {
        Self { arena, population, ops, input_dim, rng, hook, params: Vec::new() }
    }

    /// Registers `root_node` as an expression root and offers the finished
    /// (unscored) individual to the builder's hook closure. Returns a
    /// mutable reference to its [`Scored`] slot if accepted, or `None` if the
    /// hook rejected it (see [`GatedGenerationBreeder`] for what that means
    /// for the individual's nodes). Consumes the builder.
    pub fn finish(self, root_node: NodeId) -> (r: Option<&'a mut Scored<G, F>>)
        requires
            forall|h: H, candidate: &Individual<G>, arena: &ExprArena<G::Tag>| #[trigger]
                call_requires(h, (candidate, arena)),
        ensures
            final(self.arena).nodes() == old(self.arena).nodes(),
            final(self.arena).roots() == old(self.arena).roots().push(root_node),
            match r {
                Some(scored) => {
                    &&& call_ensures(
                        *old(self.hook),
                        (&scored.individual, &*final(self.arena)),
                        true,
                    )
                    &&& scored.individual.root.0 == old(self.arena).roots().len()
                    &&& scored.individual.parameters == self.params
                    &&& scored.fitness is None
                    &&& final(self.population)@ == old(self.population)@.push(*final(scored))
                },
                None => {
                    &&& exists|candidate: Individual<G>|
                        {
                            &&& #[trigger] call_ensures(
                                *old(self.hook),
                                (&candidate, &*final(self.arena)),
                                false,
                            )
                            &&& candidate.root.0 == old(self.arena).roots().len()
                            &&& candidate.parameters == self.params
                        }
                    &&& *final(self.population) == *old(self.population)
                },
            },
    {
        let root = self.arena.add_root(root_node);
        let candidate = Individual::new(root, self.params);
        let accepted = (self.hook)(&candidate, self.arena);
        if !accepted {
            return None;
        }
        Some(self.population.insert(candidate))
    }
}

impl<
    'a,
    G: Genome,
    F: Fitness,
    H: FnMut(&Individual<G>, &ExprArena<G::Tag>) -> bool + 'static,
> NodeBuilder<G> for GatedIndividualBuilder<'a, G, F, H> {
    type Rest = (&'a mut Population<G, F>, &'a mut H);

    open spec fn arena_ref(&self) -> &mut ExprArena<G::Tag> {
        self.arena
    }

    open spec fn params(&self) -> Seq<Scalar> {
        self.params@
    }

    open spec fn params_ref(&self) -> &mut Vec<Scalar> {
        arbitrary()
    }

    open spec fn table(&self) -> &OperationTable {
        self.ops
    }

    open spec fn n_inputs(&self) -> u16 {
        self.input_dim
    }

    open spec fn rng_ref(&self) -> &mut StdRng {
        self.rng
    }

    open spec fn rest(&self) -> (&'a mut Population<G, F>, &'a mut H) {
        (self.population, self.hook)
    }

    fn rng(&mut self) -> (r: &mut StdRng) {
        assert(self.rng_ref() == self.rng);
        self.rng
    }

    fn ops(&self) -> (r: &OperationTable) {
        self.ops
    }

    fn input_dim(&self) -> (r: u16) {
        self.input_dim
    }

    fn emit(&mut self, node: ExprNode<G::Tag>) -> (id: NodeId) {
        self.arena.add(node)
    }

    fn new_parameter(&mut self, value: Scalar) -> (id: ParameterId) {
        let id = ParameterId(truncate16(self.params.len()));
        self.params.push(value);
        id
    }
}

/// A breeder accepts every offspring, and a gated one those that its hook
/// accepts when it is handed the offspring and the arena that it is rooted in.
pub proof fn lemma_gate<
    G: Genome,
    F: Fitness,
    H: FnMut(&Individual<G>, &ExprArena<G::Tag>) -> bool + 'static,
>(
    open: &GenerationBreeder<'_, G, F>,
    gated: &GatedGenerationBreeder<'_, G, F, H>,
    offspring: Individual<G>,
    arena: ExprArena<G::Tag>,
    accepted: bool,
)
    ensures
        open.decides(offspring, arena, accepted) <==> accepted,
        gated.decides(offspring, arena, accepted) <==> call_ensures(
            gated.hook,
            (&offspring, &arena),
            accepted,
        ),
{
}

/// A copied individual says what the one that it was copied from says, and is
/// rooted behind all that was there before, which stays as it was.
pub proof fn lemma_copy_says<Tag: Clone>(
    e: Expr<Tag>,
    before: ExprArena<Tag>,
    after: ExprArena<Tag>,
    params: Seq<Scalar>,
)
    requires
        copied_root(e, before, after),
    ensures
        formula(after.expr(after.roots().last()), params) == formula(e, params),
        after.nodes().take(before.nodes().len() as int) == before.nodes(),
        after.roots() == before.roots().push(after.roots().last()),
        after.expr(after.roots().last()).ids_from(before.nodes().len()),
        after.nodes().len() == before.nodes().len() + e.weight(),
{
    lemma_formula_alike(e, after.expr(after.roots().last()), params);
    assert(after.roots() == after.roots().drop_last().push(after.roots().last()));
}

} // verus!
