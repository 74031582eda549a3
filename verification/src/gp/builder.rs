//! The node-construction surface that tree generation works on.

use super::Genome;
use crate::ast::{ExprArena, ExprNode};
use crate::ops::OperationTable;
use crate::random::{
    may_pick, may_pick_index, next_index, next_one, next_u16, pick_index, pick_u16, picks_index,
    picks_one, picks_u16,
};
use crate::types::{low16, NodeId, OperationId, ParameterId, Scalar, VariableId};
use rand::rngs::StdRng;
use vstd::prelude::*;

verus! {

/// The minimal node-construction surface required to build expression trees.
/// Provides methods to emit nodes in an arena and helpers to create new
/// parameters.
pub trait NodeBuilder<G: Genome>: Sized {
    /// What the builder holds besides the arena, the parameters and the
    /// generator.
    type Rest;

    /// The arena that nodes are emitted into.
    spec fn arena_ref(&self) -> &mut ExprArena<G::Tag>;

    /// The parameters allocated so far.
    spec fn params(&self) -> Seq<Scalar>;

    /// The vector that the parameters are allocated in, where the builder
    /// borrows it.
    spec fn params_ref(&self) -> &mut Vec<Scalar>;

    /// The operation table.
    spec fn table(&self) -> &OperationTable;

    /// Number of input variables.
    spec fn n_inputs(&self) -> u16;

    /// The generator that random choices are drawn from.
    spec fn rng_ref(&self) -> &mut StdRng;

    /// What the builder holds besides.
    spec fn rest(&self) -> Self::Rest;

    /// Returns the underlying RNG.
    fn rng(&mut self) -> (r: &mut StdRng)
        ensures
            *r == *old(self).rng_ref(),
            *final(self).rng_ref() == *final(r),
            *final(final(self).rng_ref()) == *final(old(self).rng_ref()),
            final(self).arena_ref() == old(self).arena_ref(),
            final(self).params() == old(self).params(),
            final(self).params_ref() == old(self).params_ref(),
            final(self).table() == old(self).table(),
            final(self).n_inputs() == old(self).n_inputs(),
            final(self).rest() == old(self).rest(),
    ;

    /// Returns the operation table.
    fn ops(&self) -> (r: &OperationTable)
        ensures
            r == self.table(),
    ;

    /// Number of input variables available.
    fn input_dim(&self) -> (r: u16)
        ensures
            r == self.n_inputs(),
    ;

    /// Emit a node into the arena. The caller controls the tag on the node.
    fn emit(&mut self, node: ExprNode<G::Tag>) -> (id: NodeId)
        ensures
            id.0 == old(self).arena_ref().nodes().len(),
            final(self).arena_ref().nodes() == old(self).arena_ref().nodes().push(node),
            final(self).arena_ref().roots() == old(self).arena_ref().roots(),
            *final(final(self).arena_ref()) == *final(old(self).arena_ref()),
            final(self).params() == old(self).params(),
            final(self).params_ref() == old(self).params_ref(),
            final(self).rng_ref() == old(self).rng_ref(),
            final(self).table() == old(self).table(),
            final(self).n_inputs() == old(self).n_inputs(),
            final(self).rest() == old(self).rest(),
    ;

    /// Allocate a new parameter slot initialised to `value` and return its id.
    fn new_parameter(&mut self, value: Scalar) -> (id: ParameterId)
        ensures
            id == ParameterId(low16(old(self).params().len())),
            final(self).params() == old(self).params().push(value),
            *final(final(self).params_ref()) == *final(old(self).params_ref()),
            final(self).arena_ref() == old(self).arena_ref(),
            final(self).rng_ref() == old(self).rng_ref(),
            final(self).table() == old(self).table(),
            final(self).n_inputs() == old(self).n_inputs(),
            final(self).rest() == old(self).rest(),
    ;

    /// Pick a random unary operator from the operation table and return its
    /// ID: a draw from the builder's generator among all of them.
    fn pick_random_unary_op(&mut self) -> (op: OperationId)
        requires
            old(self).table().unary_ids().len() > 0,
        ensures
            old(self).table().unary_ids().contains(op),
            picks_one(old(self).table().unary_ids(), op),
            next_one(*old(self).rng_ref(), old(self).table().unary_ids(), op),
            exists|state: &mut StdRng, idx: usize|
                {
                    &&& *state == *old(self).rng_ref()
                    &&& *final(state) == *final(self).rng_ref()
                    &&& #[trigger] may_pick_index(state, old(self).table().unary_ids().len(), idx)
                    &&& idx < old(self).table().unary_ids().len()
                    &&& op == old(self).table().unary_ids()[idx as int]
                },
            *final(final(self).rng_ref()) == *final(old(self).rng_ref()),
            final(self).arena_ref() == old(self).arena_ref(),
            final(self).params() == old(self).params(),
            final(self).params_ref() == old(self).params_ref(),
            final(self).table() == old(self).table(),
            final(self).n_inputs() == old(self).n_inputs(),
            final(self).rest() == old(self).rest(),
    {
        let n: usize = self.ops().iter_unary_ops().len();
        let idx = pick_index(self.rng(), n);
        assert(picks_index(n as nat, idx as int));
        assert(next_index(*old(self).rng_ref(), n as nat, idx as int));
        self.ops().iter_unary_ops()[idx]
    }

    /// Pick a random binary operator from the operation table and return its
    /// ID: a draw from the builder's generator among all of them.
    fn pick_random_binary_op(&mut self) -> (op: OperationId)
        requires
            old(self).table().binary_ids().len() > 0,
        ensures
            old(self).table().binary_ids().contains(op),
            picks_one(old(self).table().binary_ids(), op),
            next_one(*old(self).rng_ref(), old(self).table().binary_ids(), op),
            exists|state: &mut StdRng, idx: usize|
                {
                    &&& *state == *old(self).rng_ref()
                    &&& *final(state) == *final(self).rng_ref()
                    &&& #[trigger] may_pick_index(state, old(self).table().binary_ids().len(), idx)
                    &&& idx < old(self).table().binary_ids().len()
                    &&& op == old(self).table().binary_ids()[idx as int]
                },
            *final(final(self).rng_ref()) == *final(old(self).rng_ref()),
            final(self).arena_ref() == old(self).arena_ref(),
            final(self).params() == old(self).params(),
            final(self).params_ref() == old(self).params_ref(),
            final(self).table() == old(self).table(),
            final(self).n_inputs() == old(self).n_inputs(),
            final(self).rest() == old(self).rest(),
    {
        let n: usize = self.ops().iter_binary_ops().len();
        let idx = pick_index(self.rng(), n);
        assert(picks_index(n as nat, idx as int));
        assert(next_index(*old(self).rng_ref(), n as nat, idx as int));
        self.ops().iter_binary_ops()[idx]
    }

    /// Pick a random input variable: a draw from the builder's generator among
    /// all of them.
    fn pick_variable(&mut self) -> (var: VariableId)
        requires
            old(self).n_inputs() > 0,
        ensures
            picks_u16(old(self).n_inputs(), var.0),
            next_u16(*old(self).rng_ref(), old(self).n_inputs(), var.0),
            exists|state: &mut StdRng|
                {
                    &&& *state == *old(self).rng_ref()
                    &&& *final(state) == *final(self).rng_ref()
                    &&& #[trigger] may_pick(state, old(self).n_inputs(), var.0)
                },
            *final(final(self).rng_ref()) == *final(old(self).rng_ref()),
            final(self).arena_ref() == old(self).arena_ref(),
            final(self).params() == old(self).params(),
            final(self).params_ref() == old(self).params_ref(),
            final(self).table() == old(self).table(),
            final(self).n_inputs() == old(self).n_inputs(),
            final(self).rest() == old(self).rest(),
    {
        let n: u16 = self.input_dim();
        VariableId(pick_u16(self.rng(), n))
    }
}

} // verus!
