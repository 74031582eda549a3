//! Evaluation of a whole batch per node, in recycled buffers.

use crate::array::{allocatable, Buffer, Matrix};
use crate::ast::{ExprArena, NodeKind};
use crate::eval::{EvalContext, aligned, evaluable, lemma_aligned, samples, value};
use crate::expr::{lemma_expr_step, Expr};
use crate::ops::{operands_at, OpMetadata, OperationTable};
use crate::types::{NodeId, Scalar};
use vstd::prelude::*;

verus! {

/// A reusable pool of scratch buffers for evaluation of expressions, able to
/// serve any number of distinct batch sizes from the same pool: evaluating
/// training data of one size and test data of another needs only one stack.
///
/// - [`EvalBufferStack::acquire`] hands out an owned [`Buffer`] of a requested
///   length, pooled or freshly allocated.
/// - [`EvalBufferStack::reclaim`] returns a [`Buffer`] to the pool for reuse.
pub struct EvalBufferStack {
    batch: usize,
    free: Vec<Buffer>,
}

/// Number of buffers of the given length in a pool.
pub open spec fn idle_of(pool: Seq<Buffer>, len: nat) -> nat
    decreases pool.len(),
{
    if pool.len() == 0 {
        0
    } else {
        idle_of(pool.drop_last(), len) + if pool.last()@.len() == len {
            1nat
        } else {
            0nat
        }
    }
}

/// The position of the first buffer of the given length in a pool.
pub open spec fn first_of(pool: Seq<Buffer>, len: nat, pos: int) -> bool {
    &&& 0 <= pos < pool.len()
    &&& pool[pos]@.len() == len
    &&& forall|i: int| 0 <= i < pos ==> (#[trigger] pool[i])@.len() != len
}

proof fn lemma_idle_none(pool: Seq<Buffer>, len: nat)
    ensures
        idle_of(pool, len) == 0 <==> forall|i: int|
            0 <= i < pool.len() ==> (#[trigger] pool[i])@.len() != len,
    decreases pool.len(),
{
    if pool.len() > 0 {
        lemma_idle_none(pool.drop_last(), len);
        assert(pool.last() == pool[pool.len() - 1]);
        assert(forall|i: int| 0 <= i < pool.len() - 1 ==> pool.drop_last()[i] == #[trigger] pool[i]);
    }
}

proof fn lemma_idle_update(pool: Seq<Buffer>, pos: int, b: Buffer, len: nat)
    requires
        0 <= pos < pool.len(),
    ensures
        idle_of(pool.update(pos, b), len) + (if pool[pos]@.len() == len {
            1nat
        } else {
            0nat
        }) == idle_of(pool, len) + (if b@.len() == len {
            1nat
        } else {
            0nat
        }),
    decreases pool.len(),
{
    let new = pool.update(pos, b);
    if pos < pool.len() - 1 {
        assert(new.drop_last() == pool.drop_last().update(pos, b));
        lemma_idle_update(pool.drop_last(), pos, b, len);
    } else {
        assert(new.drop_last() == pool.drop_last());
    }
}

proof fn lemma_idle_swap_remove(pool: Seq<Buffer>, pos: int, len: nat)
    requires
        0 <= pos < pool.len(),
    ensures
        idle_of(pool.update(pos, pool.last()).drop_last(), len) + (if pool[pos]@.len() == len {
            1nat
        } else {
            0nat
        }) == idle_of(pool, len),
{
    lemma_idle_update(pool, pos, pool.last(), len);
}

impl EvalBufferStack {
    /// The idle buffers.
    pub closed spec fn pool(&self) -> Seq<Buffer> {
        self.free@
    }

    /// The batch size hinted at construction.
    pub closed spec fn hint(&self) -> usize {
        self.batch
    }

    /// Number of idle buffers of the given length.
    pub open spec fn idle(&self, len: nat) -> nat {
        idle_of(self.pool(), len)
    }

    /// Creates an empty stack, pre-sized as a hint for batches of `batch`
    /// elements (see [`Self::batch_size`]). The stack isn't restricted to
    /// that size: [`Self::acquire`] serves any length asked of it.
    pub fn new(batch: usize) -> (r: Self)
        ensures
            r.pool() == Seq::<Buffer>::empty(),
            r.hint() == batch,
    {
        Self { batch, free: Vec::new() }
    }

    /// The batch size this stack was hinted to size for at construction.
    /// Purely informational: [`Self::acquire`] isn't restricted to it.
    pub fn batch_size(&self) -> (n: usize)
        ensures
            n == self.hint(),
    {
        self.batch
    }

    /// Number of buffers currently idle in the pool, of any length.
    pub fn len(&self) -> (n: usize)
        ensures
            n == self.pool().len(),
    {
        self.free.len()
    }

    /// `true` if this stack has no idle buffers pooled right now.
    pub fn is_empty(&self) -> (r: bool)
        ensures
            r == (self.pool().len() == 0),
    {
        self.free.len() == 0
    }

    /// Returns an owned buffer of length `len`, taken from the pool if one of
    /// that exact length is idle, or freshly allocated otherwise. A recycled
    /// buffer isn't zeroed.
    pub fn acquire(&mut self, len: usize) -> (r: Buffer)
        requires
            allocatable(len as nat),
        ensures
            r@.len() == len,
            final(self).hint() == old(self).hint(),
            forall|pos: int| #[trigger]
                first_of(old(self).pool(), len as nat, pos) ==> {
                    &&& r == old(self).pool()[pos]
                    &&& final(self).pool() == old(self).pool().update(
                        pos,
                        old(self).pool().last(),
                    ).drop_last()
                },
            old(self).idle(len as nat) == 0 ==> {
                &&& r@ == Seq::new(len as nat, |i: int| 0u32)
                &&& final(self).pool() == old(self).pool()
            },
            old(self).idle(len as nat) > 0 ==> {
                &&& final(self).idle(len as nat) == old(self).idle(len as nat) - 1
                &&& final(self).pool().len() == old(self).pool().len() - 1
            },
            forall|other: nat|
                other != len ==> #[trigger] final(self).idle(other) == old(self).idle(other),
    {
        let mut pos: usize = 0;
        while pos < self.free.len()
            invariant
                pos <= self.free@.len(),
                self.free@ == old(self).free@,
                self.batch == old(self).batch,
                forall|i: int| 0 <= i < pos ==> (#[trigger] self.free@[i])@.len() != len,
                allocatable(len as nat),
            decreases self.free.len() - pos,
        {
            if self.free[pos].len() == len {
                proof {
                    let pool = self.free@;
                    lemma_idle_none(pool, len as nat);
                    assert(first_of(pool, len as nat, pos as int));
                    assert forall|p: int| #[trigger] first_of(pool, len as nat, p) implies p
                        == pos by {
                        if p < pos {
                            assert(pool[p]@.len() != len);
                        } else if p > pos {
                            assert(pool[pos as int]@.len() != len);
                        }
                    }
                    lemma_idle_swap_remove(pool, pos as int, len as nat);
                    assert forall|other: nat| other != len implies #[trigger] idle_of(
                        pool.update(pos as int, pool.last()).drop_last(),
                        other,
                    ) == idle_of(pool, other) by {
                        lemma_idle_swap_remove(pool, pos as int, other);
                    }
                }
                return self.free.swap_remove(pos);
            }
            pos += 1;
        }
        proof {
            lemma_idle_none(self.free@, len as nat);
        }
        Buffer::zeros(len)
    }

    /// Reclaims and returns a buffer to the pool, whatever its length.
    /// Subsequent calls to [`EvalBufferStack::acquire`] for that same length
    /// may reuse it.
    pub fn reclaim(&mut self, buf: Buffer)
        ensures
            final(self).hint() == old(self).hint(),
            final(self).pool() == old(self).pool().push(buf),
            forall|len: nat| #[trigger]
                final(self).idle(len) == old(self).idle(len) + if buf@.len() == len {
                    1nat
                } else {
                    0nat
                },
    {
        self.free.push(buf);
        assert(self.free@.drop_last() == old(self).free@);
    }
}

/// Number of buffers that evaluating the expression needs at once.
pub open spec fn need<Tag>(e: Expr<Tag>) -> nat
    decreases e,
{
    match e {
        Expr::Unary { value: x, .. } => at_least(need(*x), 2),
        Expr::Binary { left, right, .. } => at_least(at_least(need(*left), 1 + need(*right)), 3),
        _ => 1,
    }
}

/// The larger of two numbers.
pub open spec fn at_least(n: nat, least: nat) -> nat {
    if n < least {
        least
    } else {
        n
    }
}

/// Vectorized evaluation context for expressions.
///
/// Evaluates a whole node in one dispatch (via
/// [`crate::ops::OpMetadata::call_vectorized`]) instead of once per batch
/// element, and draws its intermediate buffers from a caller-supplied
/// [`EvalBufferStack`] instead of allocating a fresh array per node.
pub struct VectorizedEvalContext<'a, 'b, Tag: Clone> {
    pub arena: &'a ExprArena<Tag>,
    pub ops: &'b OperationTable,
}

impl<'a, 'b, Tag: Clone> VectorizedEvalContext<'a, 'b, Tag> {
    pub fn new(arena: &'a ExprArena<Tag>, ops: &'b OperationTable) -> (r: Self)
        ensures
            r.arena == arena,
            r.ops == ops,
    {
        Self { arena, ops }
    }

    /// Evaluates the expression over a batch of inputs against one shared set
    /// of parameters, reusing scratch buffers from `stack`. Returns an owned
    /// result buffer; use [`EvalBufferStack::reclaim`] on it once done to
    /// return the allocation to the pool.
    ///
    /// The pool grows to what the expression needs and no further: with the
    /// result reclaimed, it holds the larger of what it held and of
    /// [`need`].
    ///
    /// ## Notes
    /// - `inputs` is expected to have shape `[batch_size, n_variables]`.
    /// - `parameters` holds one scalar per parameter slot, the same values
    ///   for every sample in the batch, as is the case for an individual's
    ///   constants in symbolic regression. There is no per-sample variant of
    ///   this method.
    pub fn eval_batch(
        &self,
        node_id: NodeId,
        inputs: &Matrix,
        parameters: &[Scalar],
        stack: &mut EvalBufferStack,
    ) -> (r: Buffer)
        requires
            self.arena.finite_at(node_id),
            evaluable(
                self.arena.expr(node_id),
                self.ops.operations(),
                inputs.width(),
                parameters@.len(),
            ),
            allocatable(inputs@.len()),
        ensures
            r@ == Seq::new(
                inputs@.len(),
                |i: int|
                    value(
                        self.arena.expr(node_id),
                        self.ops.operations(),
                        inputs@[i],
                        parameters@,
                    ),
            ),
            ({
                let batch = inputs@.len();
                &&& final(stack).hint() == old(stack).hint()
                &&& final(stack).idle(batch) + 1 == at_least(
                    old(stack).idle(batch),
                    need(self.arena.expr(node_id)),
                )
                &&& final(stack).pool().len() + old(stack).idle(batch) == old(stack).pool().len()
                    + final(stack).idle(batch)
                &&& forall|other: nat|
                    other != batch ==> #[trigger] final(stack).idle(other) == old(stack).idle(other)
            }),
        decreases self.arena.expr(node_id),
    {
        proof {
            lemma_expr_step(self.arena.nodes(), node_id);
        }
        let node = self.arena.get_node(node_id).unwrap();
        let batch: usize = inputs.nrows();
        match node.kind {
            NodeKind::Variable(var_id) => {
                let mut out = stack.acquire(batch);
                out.assign_column(inputs, *var_id as usize);
                out
            },
            NodeKind::Parameter(param_id) => {
                let mut out = stack.acquire(batch);
                out.fill(parameters[*param_id as usize]);
                out
            },
            NodeKind::Unary { value, op } => {
                let val = self.eval_batch(value, inputs, parameters, stack);
                let meta = self.ops.lookup_by_id(op).unwrap();
                let mut out = stack.acquire(batch);
                let operands = [&val];
                meta.call_vectorized(&operands, &mut out);
                assert forall|i: int| 0 <= i < out@.len() implies out@[i] == meta.value(
                    seq![val@[i]],
                ) by {
                    assert(operands_at(operands@, i) == seq![val@[i]]);
                }
                stack.reclaim(val);
                out
            },
            NodeKind::Binary { left, right, op } => {
                let l = self.eval_batch(left, inputs, parameters, stack);
                let r = self.eval_batch(right, inputs, parameters, stack);
                let meta = self.ops.lookup_by_id(op).unwrap();
                let mut out = stack.acquire(batch);
                let operands = [&l, &r];
                meta.call_vectorized(&operands, &mut out);
                assert forall|i: int| 0 <= i < out@.len() implies out@[i] == meta.value(
                    seq![l@[i], r@[i]],
                ) by {
                    assert(operands_at(operands@, i) == seq![l@[i], r@[i]]);
                }
                stack.reclaim(l);
                stack.reclaim(r);
                out
            },
        }
    }
}

/// Both evaluators agree: what [`crate::eval::EvalContext::eval_batch`] gives
/// for parameters that are the same in every row is what
/// [`VectorizedEvalContext::eval_batch`] gives for that row.
pub proof fn lemma_matches_eval<Tag>(
    e: Expr<Tag>,
    ops: Seq<OpMetadata>,
    inputs: Seq<Seq<Scalar>>,
    rows: Seq<Seq<Scalar>>,
    params: Seq<Scalar>,
    rowwise: Seq<Scalar>,
)
    requires
        e.complete(),
        rows.len() == inputs.len(),
        forall|i: int| 0 <= i < rows.len() ==> #[trigger] rows[i] == params,
        rowwise.len() == samples(e, inputs.len(), rows.len()),
        forall|i: int|
            0 <= i < rowwise.len() ==> #[trigger] rowwise[i] == value(
                e,
                ops,
                inputs[i],
                rows[i],
            ),
    ensures
        aligned(e, inputs.len(), rows.len()),
        rowwise == Seq::new(inputs.len(), |i: int| value(e, ops, inputs[i], params)),
{
    lemma_aligned(e, inputs.len());
}

/// An expression needs no more buffers at once than two more than it is deep,
/// however many nodes it has.
pub proof fn lemma_need<Tag>(e: Expr<Tag>)
    ensures
        1 <= need(e) <= e.depth() + 2,
    decreases e,
{
    match e {
        Expr::Unary { value: x, .. } => {
            lemma_need(*x);
        },
        Expr::Binary { left, right, .. } => {
            lemma_need(*left);
            lemma_need(*right);
        },
        _ => {},
    }
}

/// The number of idle buffers of a length is that of those in the pool.
pub proof fn lemma_idle(pool: Seq<Buffer>, len: nat)
    ensures
        idle_of(pool, len) == pool.filter(|b: Buffer| b@.len() == len).len(),
    decreases pool.len(),
{
    reveal(Seq::filter);
    if pool.len() > 0 {
        lemma_idle(pool.drop_last(), len);
    }
}

/// Each sample of a batch is what evaluation gives for its row of inputs under
/// the shared parameters, whatever the pool holds.
pub proof fn lemma_vectorized<Tag: Clone>(
    context: &VectorizedEvalContext<'_, '_, Tag>,
    plain: &EvalContext<'_, '_, Tag>,
    node: NodeId,
    inputs: &Matrix,
    params: &[Scalar],
    r: Buffer,
    i: int,
    row: &Buffer,
    shared: &Buffer,
    single: Scalar,
)
    requires
        plain.arena == context.arena,
        plain.ops == context.ops,
        context.arena.finite_at(node),
        evaluable(
            context.arena.expr(node),
            context.ops.operations(),
            inputs.width(),
            params@.len(),
        ),
        allocatable(inputs@.len()),
        exists|stack: &mut EvalBufferStack| #[trigger]
            call_ensures(
                VectorizedEvalContext::<Tag>::eval_batch,
                (context, node, inputs, params, stack),
                r,
            ),
        0 <= i < inputs@.len(),
        row@ == inputs@[i],
        row@.len() == inputs.width(),
        shared@ == params@,
        call_ensures(EvalContext::<Tag>::eval, (plain, node, row, shared), single),
    ensures
        r@.len() == inputs@.len(),
        r@[i] == single,
{
}

} // verus!
