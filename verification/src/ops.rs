//! Operations and the table that they are looked up in.

use crate::array::Buffer;
use crate::slot::{hold, Slot};
use crate::types::{low16, truncate16, OperationId, Scalar};
use std::marker::PhantomData;
use vstd::hash_map::StringHashMap;
use vstd::prelude::*;

verus! {

broadcast use vstd::hash_map::group_hash_map_axioms;

/// Represents the arity of an operation.
#[derive(Clone, Copy, Debug, PartialEq, Eq, Structural)]
pub enum Arity {
    Unary,
    Binary,
}

impl Arity {
    /// Number of operands.
    pub open spec fn operands(self) -> nat {
        match self {
            Arity::Unary => 1,
            Arity::Binary => 2,
        }
    }
}

/// The operands that element `i` of a batch gives to an operation.
pub open spec fn operands_at(inputs: Seq<&Buffer>, i: int) -> Seq<Scalar> {
    Seq::new(inputs.len(), |a: int| inputs[a]@[i])
}

/// Base trait for all operations.
pub trait Operation: 'static {
    const NAME: &'static str;

    const ID: &'static str;

    const ARITY: Arity;

    /// The result of the operation on the given operands: some function of
    /// them, unless an implementation says which.
    open spec fn value(args: Seq<Scalar>) -> Scalar {
        arbitrary::<(PhantomData<Self>, spec_fn(Seq<Scalar>) -> Scalar)>().1(args)
    }

    /// Evaluates the given inputs with the current operation.
    fn forward(input: &[Scalar]) -> (r: Scalar)
        requires
            input@.len() == Self::ARITY.operands(),
        ensures
            r == Self::value(input@),
    ;

    /// Evaluates a whole batch at once, writing one result per element into
    /// `out`. `inputs` holds one column per operand; every input and `out`
    /// share the same length (the batch size).
    ///
    /// The default implementation calls [`Self::forward`] per element;
    /// override this for a vectorized/SIMD kernel.
    fn vectorized_forward(inputs: &[&Buffer], out: &mut Buffer)
        requires
            inputs@.len() == Self::ARITY.operands(),
            forall|a: int|
                0 <= a < inputs@.len() ==> (#[trigger] inputs@[a])@.len() == old(out)@.len(),
        ensures
            final(out)@.len() == old(out)@.len(),
            forall|i: int|
                0 <= i < final(out)@.len() ==> #[trigger] final(out)@[i] == Self::value(
                    operands_at(inputs@, i),
                ),
    {
        let arity: usize = inputs.len();
        let n: usize = out.len();
        let mut i: usize = 0;
        while i < n
            invariant
                i <= n,
                n == out@.len(),
                n == old(out)@.len(),
                arity == inputs@.len(),
                arity <= 2,
                inputs@.len() == Self::ARITY.operands(),
                forall|a: int| 0 <= a < inputs@.len() ==> (#[trigger] inputs@[a])@.len() == n,
                forall|j: int|
                    0 <= j < i ==> #[trigger] out@[j] == Self::value(operands_at(inputs@, j)),
            decreases n - i,
        {
            let mut args: [Scalar; 2] = [0, 0];
            let mut a: usize = 0;
            while a < arity
                invariant
                    a <= arity,
                    arity == inputs@.len(),
                    arity <= 2,
                    i < n,
                    forall|b: int| 0 <= b < inputs@.len() ==> (#[trigger] inputs@[b])@.len() == n,
                    forall|b: int| 0 <= b < a ==> #[trigger] args@[b] == inputs@[b]@[i as int],
                decreases arity - a,
            {
                args[a] = inputs[a].get(i);
                a += 1;
            }
            let operands = vstd::slice::slice_subrange(args.as_slice(), 0, arity);
            assert(operands@ == operands_at(inputs@, i as int));
            let r = Self::forward(operands);
            out.set(i, r);
            i += 1;
        }
    }
}

/// The passes of an operation, with the operation itself out of sight.
trait Kernel {
    spec fn operands(&self) -> nat;

    spec fn value(&self, args: Seq<Scalar>) -> Scalar;

    fn forward(&self, input: &[Scalar]) -> (r: Scalar)
        requires
            input@.len() == self.operands(),
        ensures
            r == self.value(input@),
    ;

    fn vectorized_forward(&self, inputs: &[&Buffer], out: &mut Buffer)
        requires
            inputs@.len() == self.operands(),
            forall|a: int|
                0 <= a < inputs@.len() ==> (#[trigger] inputs@[a])@.len() == old(out)@.len(),
        ensures
            final(out)@.len() == old(out)@.len(),
            forall|i: int|
                0 <= i < final(out)@.len() ==> #[trigger] final(out)@[i] == self.value(
                    operands_at(inputs@, i),
                ),
    ;
}

/// The passes of `Op`.
struct OpKernel<Op: Operation> {
    op: PhantomData<Op>,
}

impl<Op: Operation> Kernel for OpKernel<Op> {
    spec fn operands(&self) -> nat {
        Op::ARITY.operands()
    }

    spec fn value(&self, args: Seq<Scalar>) -> Scalar {
        Op::value(args)
    }

    fn forward(&self, input: &[Scalar]) -> (r: Scalar) {
        Op::forward(input)
    }

    fn vectorized_forward(&self, inputs: &[&Buffer], out: &mut Buffer) {
        Op::vectorized_forward(inputs, out);
    }
}

/// Metadata about an operation.
pub struct OpMetadata {
    /// Human-readable name for this operation
    pub name: &'static str,
    /// String based unique ID for this operation
    pub id: &'static str,
    /// Arity of the operation
    pub arity: Arity,
    /// The passes of the operation
    kernel: Slot<Box<dyn Kernel>>,
}

impl OpMetadata {
    /// The name of the operation.
    pub closed spec fn name_of(&self) -> Seq<char> {
        self.name@
    }

    /// The ID of the operation.
    pub closed spec fn id_of(&self) -> Seq<char> {
        self.id@
    }

    /// The arity of the operation.
    pub closed spec fn arity_of(&self) -> Arity {
        self.arity
    }

    /// Whether the passes take as many operands as the arity says.
    pub closed spec fn wf(&self) -> bool {
        self.kernel.item.operands() == self.arity.operands()
    }

    /// The result of the operation on the given operands.
    pub closed spec fn value(&self, args: Seq<Scalar>) -> Scalar {
        self.kernel.item.value(args)
    }

    /// Whether this is the metadata of `Op`.
    pub open spec fn describes<Op: Operation>(&self) -> bool {
        &&& self.wf()
        &&& self.name_of() == Op::NAME@
        &&& self.id_of() == Op::ID@
        &&& self.arity_of() == Op::ARITY
        &&& forall|args: Seq<Scalar>| #[trigger] self.value(args) == Op::value(args)
    }

    /// The metadata of `Op`.
    fn of<Op: Operation>() -> (r: Self)
        ensures
            r.describes::<Op>(),
    {
        let passes = OpKernel::<Op> { op: PhantomData };
        let kernel: Box<dyn Kernel> = Box::new(passes);
        assert(forall|args: Seq<Scalar>| #[trigger] kernel.value(args) == Op::value(args));
        assert(kernel.operands() == Op::ARITY.operands());
        let slot = hold(kernel);
        assert(forall|args: Seq<Scalar>| #[trigger] slot.item.value(args) == Op::value(args));
        assert(slot.item.operands() == Op::ARITY.operands());
        let r = OpMetadata { name: Op::NAME, id: Op::ID, arity: Op::ARITY, kernel: slot };
        assert(r.kernel == slot);
        r
    }

    /// Executes the operation forward pass.
    pub fn call(&self, args: &[Scalar]) -> (r: Scalar)
        requires
            self.wf(),
            args@.len() == self.arity_of().operands(),
        ensures
            r == self.value(args@),
    {
        self.kernel.item.forward(args)
    }

    /// Executes the operation's vectorized forward pass, writing one result
    /// per element into `out`.
    pub fn call_vectorized(&self, inputs: &[&Buffer], out: &mut Buffer)
        requires
            self.wf(),
            inputs@.len() == self.arity_of().operands(),
            forall|a: int|
                0 <= a < inputs@.len() ==> (#[trigger] inputs@[a])@.len() == old(out)@.len(),
        ensures
            final(out)@.len() == old(out)@.len(),
            forall|i: int|
                0 <= i < final(out)@.len() ==> #[trigger] final(out)@[i] == self.value(
                    operands_at(inputs@, i),
                ),
    {
        self.kernel.item.vectorized_forward(inputs, out);
    }
}

/// Whether no two operations share an ID, and every operation takes as many
/// operands as its arity says.
pub open spec fn registrable(ops: Seq<OpMetadata>) -> bool {
    &&& forall|i: int| 0 <= i < ops.len() ==> (#[trigger] ops[i]).wf()
    &&& forall|i: int, j: int|
        0 <= i < j < ops.len() ==> (#[trigger] ops[i]).id_of() != (#[trigger] ops[j]).id_of()
}

/// Whether some operation has the given ID.
pub open spec fn registered(ops: Seq<OpMetadata>, id: Seq<char>) -> bool {
    exists|i: int| 0 <= i < ops.len() && (#[trigger] ops[i]).id_of() == id
}

/// Whether `lookup` leads from each ID to the position of its operation.
spec fn indexes(lookup: Map<Seq<char>, usize>, ops: Seq<OpMetadata>) -> bool {
    &&& forall|i: int|
        0 <= i < ops.len() ==> lookup.contains_key((#[trigger] ops[i]).id_of()) && lookup[ops[i].id_of()]
            == i
    &&& forall|id: Seq<char>| #[trigger]
        lookup.contains_key(id) ==> lookup[id] < ops.len() && ops[lookup[id] as int].id_of() == id
}

/// The identifiers of the operations of the given arity, in the order of
/// registration.
pub open spec fn ids_with(ops: Seq<OpMetadata>, arity: Arity) -> Seq<OperationId>
    decreases ops.len(),
{
    if ops.len() == 0 {
        Seq::empty()
    } else {
        let before = ids_with(ops.drop_last(), arity);
        if ops.last().arity_of() == arity {
            before.push(OperationId(low16((ops.len() - 1) as nat)))
        } else {
            before
        }
    }
}

/// Builder struct to register all operations and operation sets.
pub struct OperationTableBuilder {
    ops: Vec<OpMetadata>,
    lookup: StringHashMap<usize>,
}

/// An immutable lookup table for operations.
/// Provides functions to look operations up.
pub struct OperationTable {
    ops: Vec<OpMetadata>,
    lookup: StringHashMap<usize>,
    unary_ops: Vec<OperationId>,
    binary_ops: Vec<OperationId>,
}

/// Base trait for operation sets, which register sets of operations at a time.
pub trait OperationSet: Send + Sync + 'static {
    /// Whether none of the set's IDs is taken: unknown, unless an
    /// implementation says which IDs those are.
    open spec fn admitted(ops: Seq<OpMetadata>) -> bool {
        arbitrary::<(PhantomData<Self>, spec_fn(Seq<OpMetadata>) -> bool)>().1(ops)
    }

    /// Whether `added` are the operations of the set, in order. Nothing is
    /// promised of them, unless an implementation does.
    open spec fn provides(added: Seq<OpMetadata>) -> bool {
        true
    }

    /// Registers all operations in the provided builder.
    fn register(op: &mut OperationTableBuilder)
        requires
            old(op).wf(),
            Self::admitted(old(op).operations()),
        ensures
            final(op).wf(),
            old(op).operations().is_prefix_of(final(op).operations()),
            Self::provides(final(op).operations().skip(old(op).operations().len() as int)),
    ;
}

impl OperationTableBuilder {
    /// The operations registered so far.
    pub closed spec fn operations(&self) -> Seq<OpMetadata> {
        self.ops@
    }

    /// Whether the operations and the lookup agree.
    pub closed spec fn wf(&self) -> bool {
        registrable(self.ops@) && indexes(self.lookup@, self.ops@)
    }

    /// A builder without operations.
    pub fn new() -> (r: Self)
        ensures
            r.wf(),
            r.operations() == Seq::<OpMetadata>::empty(),
    {
        Self { ops: Vec::new(), lookup: StringHashMap::new() }
    }

    /// Number of operations registered so far.
    pub fn len(&self) -> (n: usize)
        ensures
            n == self.operations().len(),
    {
        self.ops.len()
    }

    /// Whether an operation is registered under `id`.
    pub fn contains(&self, id: &str) -> (r: bool)
        requires
            self.wf(),
        ensures
            r == registered(self.operations(), id@),
    {
        proof {
            if self.lookup@.contains_key(id@) {
                assert(self.ops@[self.lookup@[id@] as int].id_of() == id@);
            }
        }
        self.lookup.contains_key(id)
    }

    /// Registers a new operation into the builder.
    pub fn register<Op: Operation>(&mut self)
        requires
            old(self).wf(),
            !registered(old(self).operations(), Op::ID@),
        ensures
            final(self).wf(),
            final(self).operations().len() == old(self).operations().len() + 1,
            final(self).operations().drop_last() == old(self).operations(),
            final(self).operations().last().describes::<Op>(),
    {
        let index: usize = self.ops.len();
        let ghost before = self.ops@;
        let ghost table = self.lookup@;
        let meta = OpMetadata::of::<Op>();
        assert(!table.contains_key(Op::ID@));
        self.lookup.insert(Op::ID.to_owned(), index);
        self.ops.push(meta);
        proof {
            assert(self.ops@.drop_last() == before);
            assert forall|i: int| 0 <= i < self.ops@.len() implies self.lookup@.contains_key(
                (#[trigger] self.ops@[i]).id_of(),
            ) && self.lookup@[self.ops@[i].id_of()] == i by {
                if i < before.len() {
                    assert(self.ops@[i] == before[i]);
                }
            }
            assert forall|id: Seq<char>| #[trigger] self.lookup@.contains_key(id) implies
                self.lookup@[id] < self.ops@.len() && self.ops@[self.lookup@[id] as int].id_of()
                == id by {
                if id != Op::ID@ {
                    assert(table.contains_key(id));
                    assert(self.ops@[table[id] as int] == before[table[id] as int]);
                }
            }
        }
    }

    /// Registers a set of operations into the builder.
    pub fn register_set<Ops: OperationSet>(&mut self)
        requires
            old(self).wf(),
            Ops::admitted(old(self).operations()),
        ensures
            final(self).wf(),
            old(self).operations().is_prefix_of(final(self).operations()),
            Ops::provides(final(self).operations().skip(old(self).operations().len() as int)),
    {
        Ops::register(self);
    }

    /// Consumes the builder and returns a final immutable lookup table.
    pub fn build(self) -> (r: OperationTable)
        requires
            self.wf(),
        ensures
            r.operations() == self.operations(),
    {
        let mut unary_ops: Vec<OperationId> = Vec::new();
        let mut binary_ops: Vec<OperationId> = Vec::new();
        let mut index: usize = 0;
        while index < self.ops.len()
            invariant
                index <= self.ops@.len(),
                unary_ops@ == ids_with(self.ops@.take(index as int), Arity::Unary),
                binary_ops@ == ids_with(self.ops@.take(index as int), Arity::Binary),
            decreases self.ops.len() - index,
        {
            let ghost next = self.ops@.take(index + 1);
            assert(next.drop_last() == self.ops@.take(index as int));
            assert(next.last() == self.ops@[index as int]);
            let op_id = OperationId(truncate16(index));
            match self.ops[index].arity {
                Arity::Unary => {
                    unary_ops.push(op_id);
                },
                Arity::Binary => {
                    binary_ops.push(op_id);
                },
            }
            index += 1;
        }
        assert(self.ops@.take(index as int) == self.ops@);
        OperationTable { lookup: self.lookup, ops: self.ops, unary_ops, binary_ops }
    }
}

impl OperationTable {
    /// The registered operations, in the order of registration.
    pub closed spec fn operations(&self) -> Seq<OpMetadata> {
        self.ops@
    }

    /// The identifiers of the unary operations.
    pub open spec fn unary_ids(&self) -> Seq<OperationId> {
        ids_with(self.operations(), Arity::Unary)
    }

    /// The identifiers of the binary operations.
    pub open spec fn binary_ids(&self) -> Seq<OperationId> {
        ids_with(self.operations(), Arity::Binary)
    }

    /// Whether identifiers are wide enough to tell all operations apart.
    pub open spec fn addressable(&self) -> bool {
        self.operations().len() <= 65536
    }

    #[verifier::type_invariant]
    spec fn inv(&self) -> bool {
        &&& registrable(self.ops@)
        &&& indexes(self.lookup@, self.ops@)
        &&& self.unary_ops@ == ids_with(self.ops@, Arity::Unary)
        &&& self.binary_ops@ == ids_with(self.ops@, Arity::Binary)
    }

    /// Looks up operation metadata from an operation ID.
    pub fn lookup_by_id(&self, id: OperationId) -> (r: Option<&OpMetadata>)
        ensures
            r is Some <==> id.0 < self.operations().len(),
            r matches Some(meta) ==> *meta == self.operations()[id.0 as int] && meta.wf(),
    {
        proof {
            use_type_invariant(self);
        }
        let operation_index: u16 = id.0;
        if (operation_index as usize) < self.ops.len() {
            Some(&self.ops[operation_index as usize])
        } else {
            None
        }
    }

    /// Looks up the operation ID for a registered operation.
    pub fn get_id_for_op<Op: Operation>(&self) -> (r: Option<OperationId>)
        ensures
            r is Some <==> registered(self.operations(), Op::ID@),
            forall|i: int|
                0 <= i < self.operations().len() && (#[trigger] self.operations()[i]).id_of() == Op::ID@
                    ==> r == Some(OperationId(low16(i as nat))),
    {
        proof {
            use_type_invariant(self);
            if self.lookup@.contains_key(Op::ID@) {
                assert(self.ops@[self.lookup@[Op::ID@] as int].id_of() == Op::ID@);
            }
        }
        match self.lookup.get(Op::ID) {
            Some(x) => Some(OperationId(truncate16(*x))),
            None => None,
        }
    }

    /// Looks up operation metadata from an operation itself.
    pub fn lookup<Op: Operation>(&self) -> (r: Option<&OpMetadata>)
        ensures
            r is Some <==> registered(self.operations(), Op::ID@),
            forall|i: int|
                0 <= i < self.operations().len() && (#[trigger] self.operations()[i]).id_of() == Op::ID@
                    ==> r == Some(&self.operations()[i]),
            r matches Some(meta) ==> meta.wf(),
    {
        proof {
            use_type_invariant(self);
            if self.lookup@.contains_key(Op::ID@) {
                assert(self.ops@[self.lookup@[Op::ID@] as int].id_of() == Op::ID@);
            }
        }
        match self.lookup.get(Op::ID) {
            Some(x) => Some(&self.ops[*x]),
            None => None,
        }
    }

    /// Returns the IDs of all registered unary operations.
    pub fn iter_unary_ops(&self) -> (r: &[OperationId])
        ensures
            r@ == self.unary_ids(),
    {
        proof {
            use_type_invariant(self);
        }
        self.unary_ops.as_slice()
    }

    /// Returns the IDs of all registered binary operations.
    pub fn iter_binary_ops(&self) -> (r: &[OperationId])
        ensures
            r@ == self.binary_ids(),
    {
        proof {
            use_type_invariant(self);
        }
        self.binary_ops.as_slice()
    }
}

/// While identifiers tell all operations apart, those listed for an arity are
/// exactly those of the operations of that arity.
pub proof fn lemma_ids_with(ops: Seq<OpMetadata>, arity: Arity, id: OperationId)
    requires
        ops.len() <= 65536,
    ensures
        ids_with(ops, arity).contains(id) <==> id.0 < ops.len() && ops[id.0 as int].arity_of() == arity,
    decreases ops.len(),
{
    if ops.len() > 0 {
        let shorter = ops.drop_last();
        lemma_ids_with(shorter, arity, id);
        let before = ids_with(shorter, arity);
        let last = OperationId(low16((ops.len() - 1) as nat));
        if ops.last().arity_of() == arity {
            assert(ids_with(ops, arity) == before.push(last));
            if before.contains(id) {
                let i = choose|i: int| 0 <= i < before.len() && before[i] == id;
                assert(before.push(last)[i] == id);
            }
            if id == last {
                assert(before.push(last)[before.len() as int] == id);
            }
            if before.push(last).contains(id) && id != last {
                let i = choose|i: int|
                    0 <= i < before.push(last).len() && before.push(last)[i] == id;
                assert(before[i] == id);
            }
        }
    }
}

/// While identifiers tell all operations apart, those listed for an arity
/// come in the order of registration, each once.
pub proof fn lemma_ids_ascend(ops: Seq<OpMetadata>, arity: Arity, i: int, j: int)
    requires
        ops.len() <= 65536,
        0 <= i < j < ids_with(ops, arity).len(),
    ensures
        ids_with(ops, arity)[i].0 < ids_with(ops, arity)[j].0,
    decreases ops.len(),
{
    let shorter = ops.drop_last();
    let before = ids_with(shorter, arity);
    if j < before.len() {
        lemma_ids_ascend(shorter, arity, i, j);
    } else {
        let id = before[i];
        assert(before.contains(id));
        lemma_ids_with(shorter, arity, id);
        let last = (ops.len() - 1) as nat;
        assert(last % 65536 == last) by (nonlinear_arith)
            requires
                0 <= last < 65536,
        ;
    }
}

/// An operation over a batch is handed, for each sample, that sample of each
/// of its operands, in their order.
pub proof fn lemma_operands(inputs: Seq<&Buffer>, i: int)
    ensures
        operands_at(inputs, i).len() == inputs.len(),
        forall|a: int|
            0 <= a < inputs.len() ==> #[trigger] operands_at(inputs, i)[a] == inputs[a]@[i],
        inputs.len() == 1 ==> operands_at(inputs, i) == seq![inputs[0]@[i]],
        inputs.len() == 2 ==> operands_at(inputs, i) == seq![inputs[0]@[i], inputs[1]@[i]],
{
}

/// The metadata of an operation tells its name, its ID and its arity, and gives
/// the results that the operation itself gives on the same operands.
pub proof fn lemma_described<Op: Operation>(meta: OpMetadata, args: Seq<Scalar>)
    requires
        meta.describes::<Op>(),
    ensures
        meta.wf(),
        meta.name_of() == Op::NAME@,
        meta.id_of() == Op::ID@,
        meta.arity_of() == Op::ARITY,
        meta.value(args) == Op::value(args),
{
}

/// An ID is registered exactly if an operation has it, so registering one
/// leaves all others as they were.
pub proof fn lemma_registered(ops: Seq<OpMetadata>, meta: OpMetadata, id: Seq<char>)
    ensures
        registered(ops.push(meta), id) <==> meta.id_of() == id || registered(ops, id),
        !registered(Seq::<OpMetadata>::empty(), id),
{
    let more = ops.push(meta);
    if registered(ops, id) {
        let i = choose|i: int| 0 <= i < ops.len() && (#[trigger] ops[i]).id_of() == id;
        assert(more[i].id_of() == id);
    }
    if meta.id_of() == id {
        assert(more[ops.len() as int].id_of() == id);
    }
    if registered(more, id) {
        let i = choose|i: int| 0 <= i < more.len() && (#[trigger] more[i]).id_of() == id;
        if i < ops.len() {
            assert(ops[i].id_of() == id);
        }
    }
}

} // verus!
