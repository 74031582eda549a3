//! A context that breeds between two arenas, without a record of fitness.

use super::builder::NodeBuilder;
use super::{Genome, Individual};
use crate::ast::{ExprArena, ExprNode};
use crate::ops::OperationTable;
use crate::types::{truncate16, NodeId, ParameterId, RootId, Scalar};
use rand::rngs::StdRng;
use vstd::prelude::*;

verus! {

/// Which of the two arenas is live.
enum CurrentBuffer {
    A,
    B,
}

/// Global context for genetic programming.
/// Holds operation table and ping-pong expression arenas.
pub struct Context<G: Genome> {
    arena_a: ExprArena<G::Tag>,
    arena_b: ExprArena<G::Tag>,
    current_buffer: CurrentBuffer,
    pub operations: OperationTable,
}

/// A `NodeBuilder` returned by [`Context::builder`] for constructing a single
/// individual by hand. Call [`IndividualBuilder::finish`] to register the root
/// and obtain the [`Individual`].
pub struct IndividualBuilder<'a, G: Genome> {
    pub arena: &'a mut ExprArena<G::Tag>,
    pub ops: &'a OperationTable,
    pub rng: &'a mut StdRng,
    pub params: Vec<Scalar>,
}

impl<G: Genome> Context<G> {
    /// The live arena, that parents are read from.
    pub closed spec fn source(&self) -> ExprArena<G::Tag> {
        match self.current_buffer {
            CurrentBuffer::A => self.arena_a,
            CurrentBuffer::B => self.arena_b,
        }
    }

    /// The arena that offspring are built into.
    pub closed spec fn dest(&self) -> ExprArena<G::Tag> {
        match self.current_buffer {
            CurrentBuffer::A => self.arena_b,
            CurrentBuffer::B => self.arena_a,
        }
    }

    /// The operation table.
    pub closed spec fn table(&self) -> OperationTable {
        self.operations
    }

    pub fn new(op: OperationTable) -> (r: Self)
        ensures
            r.source().is_empty(),
            r.dest().is_empty(),
            r.table() == op,
    {
        Self {
            arena_a: ExprArena::new(),
            arena_b: ExprArena::new(),
            current_buffer: CurrentBuffer::A,
            operations: op,
        }
    }

    /// Returns `(source_arena, dest_arena, ops)`. Source is the current live
    /// buffer; dest is the buffer offspring are built into.
    pub fn borrow_parts(&mut self) -> (r: (
        &ExprArena<G::Tag>,
        &mut ExprArena<G::Tag>,
        &OperationTable,
    ))
        ensures
            *r.0 == old(self).source(),
            *r.1 == old(self).dest(),
            *r.2 == old(self).table(),
            final(self).source() == old(self).source(),
            final(self).dest() == *final(r.1),
            final(self).table() == old(self).table(),
    {
        match self.current_buffer {
            CurrentBuffer::A => (&self.arena_a, &mut self.arena_b, &self.operations),
            CurrentBuffer::B => (&self.arena_b, &mut self.arena_a, &self.operations),
        }
    }

    /// Returns an immutable reference to the currently active (source) arena.
    pub fn source_arena(&self) -> (r: &ExprArena<G::Tag>)
        ensures
            *r == self.source(),
    {
        match self.current_buffer {
            CurrentBuffer::A => &self.arena_a,
            CurrentBuffer::B => &self.arena_b,
        }
    }

    /// Swaps the active buffer. The old dest becomes the new source.
    /// The new dest is cleared, ready for the next generation.
    pub fn swap(&mut self)
        ensures
            final(self).source() == old(self).dest(),
            final(self).dest().is_empty(),
            final(self).table() == old(self).table(),
    {
        match self.current_buffer {
            CurrentBuffer::A => {
                self.arena_a.clear();
                self.current_buffer = CurrentBuffer::B;
            },
            CurrentBuffer::B => {
                self.arena_b.clear();
                self.current_buffer = CurrentBuffer::A;
            },
        }
    }

    /// Returns a builder for constructing a single individual into the active
    /// (source) arena. Call [`IndividualBuilder::finish`] once the root node is
    /// ready to register the root and obtain the [`Individual`].
    pub fn builder<'a>(&'a mut self, rng: &'a mut StdRng) -> (r: IndividualBuilder<'a, G>)
        ensures
            *r.arena == old(self).source(),
            *r.ops == old(self).table(),
            *r.rng == *old(rng),
            *final(r.rng) == *final(rng),
            r.params@ == Seq::<Scalar>::empty(),
            final(self).source() == *final(r.arena),
            final(self).dest() == old(self).dest(),
            final(self).table() == old(self).table(),
    {
        match self.current_buffer {
            CurrentBuffer::A => IndividualBuilder::new(&mut self.arena_a, &self.operations, rng),
            CurrentBuffer::B => IndividualBuilder::new(&mut self.arena_b, &self.operations, rng),
        }
    }
}

impl<'a, G: Genome> IndividualBuilder<'a, G> {
    pub fn new(
        arena: &'a mut ExprArena<G::Tag>,
        ops: &'a OperationTable,
        rng: &'a mut StdRng,
    ) -> (r: Self)
        ensures
            *r.arena == *old(arena),
            *final(r.arena) == *final(arena),
            r.ops == ops,
            *r.rng == *old(rng),
            *final(r.rng) == *final(rng),
            r.params@ == Seq::<Scalar>::empty(),
    {
        Self { arena, ops, rng, params: Vec::new() }
    }

    /// Register `root_node` as an expression root and return the finished
    /// individual. Consumes the builder.
    pub fn finish(self, root_node: NodeId) -> (r: (Individual<G>, RootId))
        ensures
            final(self.arena).nodes() == old(self.arena).nodes(),
            final(self.arena).roots() == old(self.arena).roots().push(root_node),
            r.0.root == r.1,
            r.1.0 == old(self.arena).roots().len(),
            r.0.parameters == self.params,
    {
        let root = self.arena.add_root(root_node);
        (Individual::new(root, self.params), root)
    }
}

impl<'a, G: Genome> NodeBuilder<G> for IndividualBuilder<'a, G> {
    type Rest = ();

    open spec fn arena_ref(&self) -> &mut ExprArena<G::Tag> {
        self.arena
    }

    open spec fn params(&self) -> Seq<Scalar> {
        self.params@
    }

    open spec fn params_ref(&self) -> &mut Vec<Scalar> {
        arbitrary()
    }

    open spec fn table(&self) -> &OperationTable {
        self.ops
    }

    open spec fn n_inputs(&self) -> u16 {
        G::INPUT_DIM
    }

    open spec fn rng_ref(&self) -> &mut StdRng {
        self.rng
    }

    open spec fn rest(&self) -> () {
        ()
    }

    fn rng(&mut self) -> (r: &mut StdRng) {
        assert(self.rng_ref() == self.rng);
        self.rng
    }

    fn ops(&self) -> (r: &OperationTable) {
        self.ops
    }

    fn input_dim(&self) -> (r: u16) {
        G::INPUT_DIM
    }

    fn emit(&mut self, node: ExprNode<G::Tag>) -> (id: NodeId) {
        self.arena.add(node)
    }

    fn new_parameter(&mut self, value: Scalar) -> (id: ParameterId) {
        let id = ParameterId(truncate16(self.params.len()));
        self.params.push(value);
        id
    }
}

} // verus!
