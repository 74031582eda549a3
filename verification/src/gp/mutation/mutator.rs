//! A weighted registry of mutations.

use super::{
    apply_mutation, bred, keeps_evaluable, lemma_offspring_lives, Mutation, MutationContext, Step,
};
use crate::ast::{ExprArena, ExprNode, NodeKind};
use crate::eval::evaluable;
use crate::expr::{expr_of, finite_at};
use crate::gp::breeding::Breeder;
use crate::gp::fitness::Fitness;
use crate::gp::population::Scored;
use crate::gp::{Genome, Individual};
use crate::ops::OperationTable;
use crate::random::{may_leave, may_pick_index, pick_index, Reals};
use crate::scalar::{is_at_most_zero, less, nan, position, ZERO};
use crate::slot::{hold, Slot};
use crate::types::{NodeId, Scalar};
use rand::rngs::StdRng;
use vstd::prelude::*;

verus! {

/// Weighted, pluggable registry of mutations.
///
/// On each call to `mutate`, one mutation is selected (weighted by its
/// registered weight, restricted to mutations that have at least one valid
/// target) and applied to a randomly chosen qualifying node.
#[verifier::reject_recursive_types(G)]
pub struct Mutator<G: Genome> {
    entries: Vec<Registered<G>>,
}

/// A mutation and its selection weight.
#[verifier::reject_recursive_types(G)]
pub struct Registered<G: Genome> {
    pub weight: Scalar,
    pub mutation: Slot<Box<dyn Mutation<G>>>,
}

/// A mutation, of whatever type, on its way into a registry.
pub struct Plugged<M> {
    pub mutation: M,
}

impl<G: Genome, M: Mutation<G>> Mutation<G> for Plugged<M> {
    open spec fn applies(&self, kind: NodeKind) -> bool {
        self.mutation.applies(kind)
    }

    open spec fn ready(&self, kind: NodeKind, ops: &OperationTable, n_params: nat) -> bool {
        self.mutation.ready(kind, ops, n_params)
    }

    open spec fn yields(&self, step: Step<G::Tag>, replacement: Option<NodeId>) -> bool {
        self.mutation.yields(step, replacement)
    }

    fn applies_to(&self, kind: NodeKind) -> (r: bool) {
        self.mutation.applies_to(kind)
    }

    fn apply(
        &self,
        target: NodeId,
        node: &ExprNode<G::Tag>,
        ctx: &mut MutationContext<'_, G>,
    ) -> (r: Option<NodeId>) {
        self.mutation.apply(target, node, ctx)
    }
}

impl<G: Genome> Registered<G> {
    /// Whether the entry behaves as `m`.
    pub open spec fn behaves_as<M: Mutation<G>>(&self, m: M) -> bool {
        &&& forall|kind: NodeKind| #[trigger]
            self.mutation.item.applies(kind) == m.applies(kind)
        &&& forall|kind: NodeKind, ops: &OperationTable, n: nat| #[trigger]
            self.mutation.item.ready(kind, ops, n) == m.ready(kind, ops, n)
        &&& forall|step: Step<G::Tag>, replacement: Option<NodeId>| #[trigger]
            self.mutation.item.yields(step, replacement) == m.yields(step, replacement)
    }
}

/// Whether `id` is a node that the mutation applies to.
pub open spec fn qualifies<G: Genome, M: Mutation<G> + ?Sized>(
    mutation: &M,
    nodes: Seq<ExprNode<G::Tag>>,
    id: NodeId,
) -> bool {
    id.0 < nodes.len() && mutation.applies(nodes[id.0 as int].kind)
}

/// The candidates that the mutation applies to, in order.
pub open spec fn targets_of<G: Genome, M: Mutation<G> + ?Sized>(
    mutation: &M,
    nodes: Seq<ExprNode<G::Tag>>,
    candidates: Seq<NodeId>,
) -> Seq<NodeId>
    decreases candidates.len(),
{
    if candidates.len() == 0 {
        Seq::empty()
    } else {
        let before = targets_of(mutation, nodes, candidates.drop_last());
        if qualifies(mutation, nodes, candidates.last()) {
            before.push(candidates.last())
        } else {
            before
        }
    }
}

/// Targets are candidates that the mutation applies to.
proof fn lemma_targets_of<G: Genome, M: Mutation<G> + ?Sized>(
    mutation: &M,
    nodes: Seq<ExprNode<G::Tag>>,
    candidates: Seq<NodeId>,
)
    ensures
        forall|i: int|
            0 <= i < targets_of(mutation, nodes, candidates).len() ==> qualifies(
                mutation,
                nodes,
                #[trigger] targets_of(mutation, nodes, candidates)[i],
            ) && candidates.contains(targets_of(mutation, nodes, candidates)[i]),
    decreases candidates.len(),
{
    if candidates.len() > 0 {
        let shorter = candidates.drop_last();
        lemma_targets_of(mutation, nodes, shorter);
        let all = targets_of(mutation, nodes, candidates);
        let before = targets_of(mutation, nodes, shorter);
        assert forall|i: int| 0 <= i < all.len() implies qualifies(
            mutation,
            nodes,
            #[trigger] all[i],
        ) && candidates.contains(all[i]) by {
            if i < before.len() {
                assert(all[i] == before[i]);
                let k = shorter.index_of(before[i]);
                assert(candidates[k] == all[i]);
            } else {
                assert(candidates[candidates.len() - 1] == all[i]);
            }
        }
    }
}

/// The candidates that the mutation applies to.
pub fn find_targets<G: Genome + 'static, M: Mutation<G> + ?Sized>(
    mutation: &M,
    candidates: &Vec<NodeId>,
    source: &ExprArena<G::Tag>,
) -> (r: Vec<NodeId>)
    ensures
        r@ == targets_of(mutation, source.nodes(), candidates@),
{
    let mut targets: Vec<NodeId> = Vec::new();
    let mut k: usize = 0;
    while k < candidates.len()
        invariant
            k <= candidates@.len(),
            targets@ == targets_of(mutation, source.nodes(), candidates@.take(k as int)),
        decreases candidates.len() - k,
    {
        let id = candidates[k];
        proof {
            let next = candidates@.take(k + 1);
            assert(next.drop_last() == candidates@.take(k as int));
            assert(next.last() == id);
        }
        if let Some(n) = source.get_node(id) {
            if mutation.applies_to(n.kind) {
                targets.push(id);
            }
        }
        k += 1;
    }
    assert(candidates@.take(k as int) == candidates@);
    targets
}

/// Picks a weighted entry out of `n`, given what is left of the pick after
/// each weight: the first with nothing left, or else the last.
pub fn pick_weighted(remainders: &[Scalar], n: usize) -> (r: usize)
    requires
        n > 0,
    ensures
        falls_on(remainders@, n as int, r as int),
{
    let mut k: usize = 0;
    while k < n - 1 && k < remainders.len()
        invariant
            k <= n - 1,
            forall|j: int| 0 <= j < k && j < remainders@.len() ==> !used_up(
                #[trigger] remainders@[j],
            ),
        decreases n - k,
    {
        if is_at_most_zero(remainders[k]) {
            return k;
        }
        k += 1;
    }
    n - 1
}

/// Whether a pick out of `n` entries falls on the entry `r`, given what is left
/// of it after each weight: the first with nothing left, or else the last.
pub open spec fn falls_on(remainders: Seq<Scalar>, n: int, r: int) -> bool {
    &&& 0 <= r < n
    &&& forall|k: int|
        0 <= k < r && k < remainders.len() ==> !used_up(#[trigger] remainders[k])
    &&& r < n - 1 ==> r < remainders.len() && used_up(remainders[r])
}

/// Whether nothing is left of a pick.
pub open spec fn used_up(remainder: Scalar) -> bool {
    !nan(remainder) && position(remainder) <= 0
}

/// The first `n` mutations that have a target among the candidates, by index,
/// each with its targets.
pub open spec fn qualifying<G: Genome>(
    entries: Seq<Registered<G>>,
    nodes: Seq<ExprNode<G::Tag>>,
    candidates: Seq<NodeId>,
    n: nat,
) -> Seq<(int, Seq<NodeId>)>
    decreases n,
{
    if n == 0 {
        Seq::empty()
    } else {
        let before = qualifying(entries, nodes, candidates, (n - 1) as nat);
        let targets = targets_of(&*entries[n - 1].mutation.item, nodes, candidates);
        if targets.len() > 0 {
            before.push((n - 1, targets))
        } else {
            before
        }
    }
}

/// The weights of the mutations that have a target.
pub open spec fn weights_of<G: Genome>(
    entries: Seq<Registered<G>>,
    found: Seq<(int, Seq<NodeId>)>,
) -> Seq<Scalar> {
    Seq::new(found.len(), |j: int| entries[found[j].0].weight)
}

/// Every entry is a mutation with its targets, of which there are some.
proof fn lemma_qualifying<G: Genome>(
    entries: Seq<Registered<G>>,
    nodes: Seq<ExprNode<G::Tag>>,
    candidates: Seq<NodeId>,
    n: nat,
)
    ensures
        forall|j: int|
            0 <= j < qualifying(entries, nodes, candidates, n).len() ==> {
                let entry = #[trigger] qualifying(entries, nodes, candidates, n)[j];
                &&& 0 <= entry.0 < n
                &&& entry.1 == targets_of(&*entries[entry.0].mutation.item, nodes, candidates)
                &&& entry.1.len() > 0
            },
    decreases n,
{
    if n > 0 {
        lemma_qualifying(entries, nodes, candidates, (n - 1) as nat);
        let before = qualifying(entries, nodes, candidates, (n - 1) as nat);
        let all = qualifying(entries, nodes, candidates, n);
        assert forall|j: int| 0 <= j < all.len() implies {
            let entry = #[trigger] all[j];
            &&& 0 <= entry.0 < n
            &&& entry.1 == targets_of(&*entries[entry.0].mutation.item, nodes, candidates)
            &&& entry.1.len() > 0
        } by {
            if j < before.len() {
                assert(all[j] == before[j]);
            }
        }
    }
}

impl<G: Genome + 'static> Mutator<G> {
    /// The registered mutations, in order.
    pub closed spec fn entries(&self) -> Seq<Registered<G>> {
        self.entries@
    }

    /// A registry without mutations.
    pub fn new() -> (r: Self)
        ensures
            r.entries() == Seq::<Registered<G>>::empty(),
    {
        Self { entries: Vec::new() }
    }

    /// Register a mutation with the given selection weight.
    pub fn add<M: Mutation<G>>(&mut self, weight: Scalar, m: M) -> (r: &mut Self)
        requires
            less(ZERO, weight),
        ensures
            r.entries().len() == old(self).entries().len() + 1,
            r.entries().drop_last() == old(self).entries(),
            r.entries().last().weight == weight,
            r.entries().last().behaves_as(m),
            *final(self) == *final(r),
    {
        let plugged = Plugged { mutation: m };
        let boxed: Box<dyn Mutation<G>> = Box::new(plugged);
        assert(forall|kind: NodeKind| #[trigger] boxed.applies(kind) == m.applies(kind));
        assert(forall|kind: NodeKind, ops: &OperationTable, n: nat| #[trigger]
            boxed.ready(kind, ops, n) == m.ready(kind, ops, n));
        assert(forall|step: Step<G::Tag>, replacement: Option<NodeId>| #[trigger]
            boxed.yields(step, replacement) == m.yields(step, replacement));
        let mutation = hold(boxed);
        assert(forall|kind: NodeKind| #[trigger] mutation.item.applies(kind) == m.applies(kind));
        assert(forall|kind: NodeKind, ops: &OperationTable, n: nat| #[trigger]
            mutation.item.ready(kind, ops, n) == m.ready(kind, ops, n));
        assert(forall|step: Step<G::Tag>, replacement: Option<NodeId>| #[trigger]
            mutation.item.yields(step, replacement) == m.yields(step, replacement));
        let entry = Registered { weight, mutation };
        assert(entry.behaves_as(m));
        self.entries.push(entry);
        assert(self.entries@.drop_last() == old(self).entries@);
        assert(self.entries@.last() == entry);
        self
    }
}

impl<G: Genome + 'static> Mutator<G> {
    /// Whether every registered mutation can be applied to each of the
    /// parent's mutation targets that it applies to.
    pub open spec fn serves(
        &self,
        parent: &Individual<G>,
        source: &ExprArena<G::Tag>,
        ops: &OperationTable,
    ) -> bool {
        &&& source.root_node(parent.root) matches Some(node) ==> {
            &&& source.sound_at(node)
            &&& source.expr(node).params_below(parent.parameters@.len())
        }
        &&& forall|candidates: Vec<NodeId>, k: int, i: int|
            #![trigger call_ensures(G::mutation_targets, (parent.root, source), candidates), candidates@[k], self.entries()[i]]
            call_ensures(G::mutation_targets, (parent.root, source), candidates) && 0 <= k
                < candidates@.len() && 0 <= i < self.entries().len() && qualifies(
                &*self.entries()[i].mutation.item,
                source.nodes(),
                candidates@[k],
            ) ==> {
                &&& source.sound_at(candidates@[k])
                &&& source.expr(candidates@[k]).params_below(parent.parameters@.len())
                &&& self.entries()[i].mutation.item.ready(
                    source.nodes()[candidates@[k].0 as int].kind,
                    ops,
                    parent.parameters@.len(),
                )
            }
    }

    /// Whether `r` may come of mutating `parent` when its mutation targets are
    /// `candidates`: an offspring by the registered mutation that a pick by
    /// weight falls on, of one of its targets, unless none has any.
    pub open spec fn may_return(
        &self,
        candidates: Seq<NodeId>,
        parent: &Individual<G>,
        source: &ExprArena<G::Tag>,
        ops: &OperationTable,
        old_dest: &ExprArena<G::Tag>,
        new_dest: &ExprArena<G::Tag>,
        r: Option<Individual<G>>,
    ) -> bool {
        let found = qualifying(self.entries(), source.nodes(), candidates, self.entries().len());
        match r {
            None => {
                &&& found.len() == 0 || source.root_node(parent.root) is None
                &&& *new_dest == *old_dest
            },
            Some(offspring) => exists|
                first: &mut StdRng,
                unit: Scalar,
                second: &mut StdRng,
                rng: StdRng,
            |
                {
                    &&& #[trigger] call_ensures(G::Reals::unit, (first,), unit)
                    &&& #[trigger] self.falls_to(
                        candidates,
                        unit,
                        second,
                        rng,
                        parent,
                        source,
                        ops,
                        old_dest,
                        new_dest,
                        offspring,
                    )
                },
        }
    }

    /// Whether the draw `unit` falls on a registered mutation that, applied to
    /// the one of its targets that `pick` may give, with the generator `rng`,
    /// may breed `offspring`.
    pub open spec fn falls_to(
        &self,
        candidates: Seq<NodeId>,
        unit: Scalar,
        pick: &mut StdRng,
        rng: StdRng,
        parent: &Individual<G>,
        source: &ExprArena<G::Tag>,
        ops: &OperationTable,
        old_dest: &ExprArena<G::Tag>,
        new_dest: &ExprArena<G::Tag>,
        offspring: Individual<G>,
    ) -> bool {
        let found = qualifying(self.entries(), source.nodes(), candidates, self.entries().len());
        exists|left: Seq<Scalar>, j: int, k: int|
            {
                &&& may_leave::<G::Reals>(unit, weights_of(self.entries(), found), left)
                &&& #[trigger] falls_on(left, found.len() as int, j)
                &&& 0 <= k < found[j].1.len() && k <= usize::MAX
                &&& may_pick_index(pick, found[j].1.len(), k as usize)
                &&& bred(
                    &*self.entries()[found[j].0].mutation.item,
                    #[trigger] found[j].1[k],
                    parent,
                    source,
                    ops,
                    rng,
                    old_dest,
                    new_dest,
                    offspring,
                )
            }
    }

    /// The registered mutations that have a target among the candidates, by
    /// index, each with its targets.
    pub fn applicable(
        &self,
        candidates: &Vec<NodeId>,
        source: &ExprArena<G::Tag>,
    ) -> (r: Vec<(usize, Vec<NodeId>)>)
        ensures
            ({
                let found = qualifying(
                    self.entries(),
                    source.nodes(),
                    candidates@,
                    self.entries().len(),
                );
                &&& r@.len() == found.len()
                &&& forall|j: int|
                    0 <= j < r@.len() ==> (#[trigger] r@[j]).0 == found[j].0 && r@[j].1@
                        == found[j].1
            }),
    {
        let mut out: Vec<(usize, Vec<NodeId>)> = Vec::new();
        let mut i: usize = 0;
        while i < self.entries.len()
            invariant
                i <= self.entries@.len(),
                ({
                    let found = qualifying(
                        self.entries@,
                        source.nodes(),
                        candidates@,
                        i as nat,
                    );
                    &&& out@.len() == found.len()
                    &&& forall|j: int|
                        0 <= j < out@.len() ==> (#[trigger] out@[j]).0 == found[j].0 && out@[j].1@
                            == found[j].1
                }),
            decreases self.entries.len() - i,
        {
            let targets = find_targets(&*self.entries[i].mutation.item, candidates, source);
            if targets.len() > 0 {
                out.push((i, targets));
            }
            i += 1;
        }
        out
    }

    /// Apply one mutation to `parent`, building the offspring into `dest`.
    ///
    /// Returns the offspring `Individual`, or `None` if no registered mutation
    /// has a valid target node in the parent's tree.
    pub fn mutate(
        &self,
        parent: &Individual<G>,
        source: &ExprArena<G::Tag>,
        dest: &mut ExprArena<G::Tag>,
        ops: &OperationTable,
        rng: &mut StdRng,
    ) -> (r: Option<Individual<G>>)
        requires
            self.serves(parent, source, ops),
        ensures
            exists|candidates: Vec<NodeId>| #[trigger]
                call_ensures(G::mutation_targets, (parent.root, source), candidates)
                    && self.may_return(
                    candidates@,
                    parent,
                    source,
                    ops,
                    old(dest),
                    final(dest),
                    r,
                ),
            source.root_node(parent.root) is Some && r is None ==> *final(rng) == *old(rng),
            r matches Some(offspring) ==> exists|
                candidates: Vec<NodeId>,
                first: &mut StdRng,
                unit: Scalar,
                second: &mut StdRng,
                rest: StdRng,
            |
                {
                    &&& #[trigger] call_ensures(
                        G::mutation_targets,
                        (parent.root, source),
                        candidates,
                    )
                    &&& *first == *old(rng)
                    &&& #[trigger] call_ensures(G::Reals::unit, (first,), unit)
                    &&& *second == *final(first)
                    &&& rest == *final(second)
                    &&& #[trigger] self.falls_to(
                        candidates@,
                        unit,
                        second,
                        rest,
                        parent,
                        source,
                        ops,
                        old(dest),
                        final(dest),
                        offspring,
                    )
                },
    {
        // Collect mutable candidate nodes from the genome of the individual.
        let candidates: Vec<NodeId> = G::mutation_targets(parent.root, source);
        // Build (mutation_index, valid_targets) pairs.
        let applicable = self.applicable(&candidates, source);
        let ghost found = qualifying(
            self.entries(),
            source.nodes(),
            candidates@,
            self.entries().len(),
        );
        if applicable.len() == 0 {
            return None;
        }
        proof {
            lemma_qualifying(self.entries(), source.nodes(), candidates@, self.entries().len());
        }
        // Weighted selection restricted to applicable mutations.
        let mut weights: Vec<Scalar> = Vec::new();
        let mut w: usize = 0;
        while w < applicable.len()
            invariant
                w <= applicable@.len(),
                applicable@.len() == found.len(),
                forall|j: int|
                    0 <= j < applicable@.len() ==> (#[trigger] applicable@[j]).0
                        < self.entries@.len() && applicable@[j].0 == found[j].0,
                weights@ == weights_of(self.entries@, found).take(w as int),
            decreases applicable.len() - w,
        {
            weights.push(self.entries[applicable[w].0].weight);
            w += 1;
        }
        let unit = G::Reals::unit(rng);
        let remainders = G::Reals::remainders(unit, weights.as_slice());
        assert(may_leave::<G::Reals>(unit, weights_of(self.entries(), found), remainders@)) by {
            assert(weights@ == weights_of(self.entries(), found));
        }
        let chosen = pick_weighted(remainders.as_slice(), applicable.len());
        let index: usize = applicable[chosen].0;
        let targets = &applicable[chosen].1;
        // Pick a target uniformly.
        let at = pick_index(rng, targets.len());
        let target = targets[at];
        proof {
            let entry = found[chosen as int];
            lemma_targets_of(
                &*self.entries()[entry.0].mutation.item,
                source.nodes(),
                candidates@,
            );
            assert(candidates@.contains(entry.1[at as int]));
            let k = candidates@.index_of(target);
            assert(candidates@[k] == target);
            assert(self.entries()[index as int] == self.entries@[index as int]);
        }
        let ghost rest = *rng;
        let r = apply_mutation(
            &*self.entries[index].mutation.item,
            target,
            parent,
            source,
            dest,
            ops,
            rng,
        );
        proof {
            if r is Some {
                let offspring = r->0;
                let n = found[chosen as int].1.len();
                assert(falls_on(remainders@, found.len() as int, chosen as int));
                assert(found[chosen as int].1[at as int] == target);
                assert((at as int) as usize == at);
                assert forall|second: &mut StdRng| #[trigger]
                    may_pick_index(second, n, at) implies self.falls_to(
                    candidates@,
                    unit,
                    second,
                    rest,
                    parent,
                    source,
                    ops,
                    old(dest),
                    dest,
                    offspring,
                ) by {}
            }
        }
        r
    }

    /// Breeds `parent` (from the breeder's source generation) by applying one
    /// mutation, building the offspring into the breeder's destination arena
    /// and offering it to the breeder for insertion (unscored) into the
    /// destination population.
    ///
    /// Returns `None` if no registered mutation had a valid target in the
    /// parent's tree, or if the breeder refused the finished offspring (e.g.
    /// a [`crate::gp::breeding::GatedGenerationBreeder`]'s hook closure
    /// rejected it): the two cases aren't distinguished by the return value.
    pub fn breed<'b, F: Fitness, B: Breeder<G, F> + ?Sized>(
        &self,
        breeder: &'b mut B,
        parent: &Scored<G, F>,
        rng: &mut StdRng,
    ) -> (r: Option<&'b mut Scored<G, F>>)
        requires
            old(breeder).ready(),
            self.serves(&parent.individual, old(breeder).source_arena(), old(breeder).table()),
        ensures
            exists|candidates: Vec<NodeId>, child: Option<Individual<G>>|
                {
                    &&& #[trigger] call_ensures(
                        G::mutation_targets,
                        (parent.individual.root, old(breeder).source_arena()),
                        candidates,
                    )
                    &&& #[trigger] self.may_return(
                        candidates@,
                        &parent.individual,
                        old(breeder).source_arena(),
                        old(breeder).table(),
                        &old(breeder).dest_ref().arena,
                        &final(breeder).dest_ref().arena,
                        child,
                    )
                    &&& match child {
                        Some(offspring) => old(breeder).decides(
                            offspring,
                            final(breeder).dest_ref().arena,
                            r is Some,
                        ),
                        None => r is None,
                    }
                    &&& r matches Some(scored) ==> child == Some(scored.individual)
                },
            match r {
                Some(scored) => {
                    &&& scored.fitness is None
                    &&& final(breeder).dest_ref().population@
                        == old(breeder).dest_ref().population@.push(*final(scored))
                },
                None => final(breeder).dest_ref().population == old(breeder).dest_ref().population,
            },
            *final(final(breeder).dest_ref()) == *final(old(breeder).dest_ref()),
            final(breeder).source_arena() == old(breeder).source_arena(),
            final(breeder).table() == old(breeder).table(),
            final(breeder).n_inputs() == old(breeder).n_inputs(),
            final(breeder).ready(),
    {
        let parts = breeder.parts();
        let child = self.mutate(&parent.individual, parts.source, parts.dest, parts.ops, rng);
        match child {
            Some(offspring) => breeder.commit(offspring),
            None => None,
        }
    }
}

/// A registered mutation keeps trees evaluable if the mutation that it behaves
/// as does.
pub proof fn lemma_registered_keeps_evaluable<G: Genome, M: Mutation<G>>(
    entry: Registered<G>,
    m: M,
    ops: &OperationTable,
    n_inputs: nat,
)
    requires
        entry.behaves_as(m),
        keeps_evaluable(&m, ops, n_inputs),
    ensures
        keeps_evaluable(&*entry.mutation.item, ops, n_inputs),
{
    assert forall|step: Step<G::Tag>, id: NodeId|
        {
            &&& #[trigger] entry.mutation.item.yields(step, Some(id))
            &&& step.sound(Some(id))
            &&& step.unary == ops.unary_ids()
            &&& step.binary == ops.binary_ids()
            &&& finite_at(step.source, step.target)
            &&& evaluable(step.subject(), ops.operations(), n_inputs, step.old_params.len())
        } implies evaluable(
        expr_of(step.after, id),
        ops.operations(),
        n_inputs,
        step.new_params.len(),
    ) by {
        assert(m.yields(step, Some(id)));
    }
}

/// What a registry breeds of an individual that can be evaluated can be
/// evaluated too, if its mutations keep trees evaluable and the mutation
/// targets are nodes of the individual's tree.
pub proof fn lemma_mutant_lives<G: Genome + 'static>(
    mutator: &Mutator<G>,
    candidates: Seq<NodeId>,
    parent: &Individual<G>,
    source: &ExprArena<G::Tag>,
    ops: &OperationTable,
    old_dest: &ExprArena<G::Tag>,
    new_dest: &ExprArena<G::Tag>,
    offspring: Individual<G>,
    n_inputs: nat,
)
    requires
        mutator.may_return(
            candidates,
            parent,
            source,
            ops,
            old_dest,
            new_dest,
            Some(offspring),
        ),
        parent.lives_in(source, ops, n_inputs),
        forall|k: int|
            0 <= k < candidates.len() ==> source.expr(
                source.root_node(parent.root)->0,
            ).walked().contains(#[trigger] candidates[k]),
        forall|i: int|
            #![trigger mutator.entries()[i]]
            0 <= i < mutator.entries().len() ==> keeps_evaluable(
                &*mutator.entries()[i].mutation.item,
                ops,
                n_inputs,
            ),
    ensures
        offspring.lives_in(new_dest, ops, n_inputs),
{
    let n = mutator.entries().len();
    let found = qualifying(mutator.entries(), source.nodes(), candidates, n);
    let (first, unit, second, rng) = choose|
        first: &mut StdRng,
        unit: Scalar,
        second: &mut StdRng,
        rng: StdRng,
    |
        {
            &&& #[trigger] call_ensures(G::Reals::unit, (first,), unit)
            &&& #[trigger] mutator.falls_to(
                candidates,
                unit,
                second,
                rng,
                parent,
                source,
                ops,
                old_dest,
                new_dest,
                offspring,
            )
        };
    let (left, j, k) = choose|left: Seq<Scalar>, j: int, k: int|
        {
            &&& may_leave::<G::Reals>(unit, weights_of(mutator.entries(), found), left)
            &&& #[trigger] falls_on(left, found.len() as int, j)
            &&& 0 <= k < found[j].1.len() && k <= usize::MAX
            &&& may_pick_index(second, found[j].1.len(), k as usize)
            &&& bred(
                &*mutator.entries()[found[j].0].mutation.item,
                #[trigger] found[j].1[k],
                parent,
                source,
                ops,
                rng,
                old_dest,
                new_dest,
                offspring,
            )
        };
    lemma_qualifying(mutator.entries(), source.nodes(), candidates, n);
    let i = found[j].0;
    let target = found[j].1[k];
    let entry = mutator.entries()[i];
    lemma_targets_of(&*entry.mutation.item, source.nodes(), candidates);
    assert(candidates.contains(target));
    let at = candidates.index_of(target);
    assert(candidates[at] == target);
    lemma_offspring_lives(
        &*entry.mutation.item,
        target,
        parent,
        source,
        ops,
        rng,
        old_dest,
        new_dest,
        offspring,
        n_inputs,
    );
}

/// The targets of a mutation are those candidates that are nodes of a kind it
/// applies to, in the order of the candidates.
pub proof fn lemma_targets<G: Genome, M: Mutation<G> + ?Sized>(
    mutation: &M,
    nodes: Seq<ExprNode<G::Tag>>,
    candidates: Seq<NodeId>,
)
    ensures
        targets_of(mutation, nodes, candidates) == candidates.filter(
            |id: NodeId| id.0 < nodes.len() && mutation.applies(nodes[id.0 as int].kind),
        ),
    decreases candidates.len(),
{
    reveal(Seq::filter);
    if candidates.len() > 0 {
        lemma_targets(mutation, nodes, candidates.drop_last());
    }
}

/// The targets of a registered mutation among the candidates.
pub open spec fn hits<G: Genome>(
    entry: Registered<G>,
    nodes: Seq<ExprNode<G::Tag>>,
    candidates: Seq<NodeId>,
) -> Seq<NodeId> {
    candidates.filter(
        |id: NodeId|
            id.0 < nodes.len() && entry.mutation.item.applies(nodes[id.0 as int].kind),
    )
}

/// Whether `used` are the registered mutations that have a target, in the order
/// of registration, and `weights` are the weights that they were registered
/// with.
pub open spec fn weighed<G: Genome>(
    entries: Seq<Registered<G>>,
    nodes: Seq<ExprNode<G::Tag>>,
    candidates: Seq<NodeId>,
    used: Seq<int>,
    weights: Seq<Scalar>,
) -> bool {
    &&& forall|i: int, j: int| 0 <= i < j < used.len() ==> used[i] < used[j]
    &&& forall|i: int|
        0 <= i < entries.len() ==> (#[trigger] used.contains(i) <==> hits(
            entries[i],
            nodes,
            candidates,
        ).len() > 0)
    &&& forall|j: int| 0 <= j < used.len() ==> 0 <= #[trigger] used[j] < entries.len()
    &&& weights.len() == used.len()
    &&& forall|j: int|
        0 <= j < used.len() ==> #[trigger] weights[j] == entries[used[j]].weight
}

/// Whether `j` is the first of `n` entries after whose weight what is left is a
/// number that is not above zero, or the last entry if there is no such before
/// it.
pub open spec fn first_spent(left: Seq<Scalar>, n: nat, j: int) -> bool {
    &&& 0 <= j < n
    &&& forall|i: int|
        0 <= i < j && i < left.len() ==> nan(#[trigger] left[i]) || less(ZERO, left[i])
    &&& j < n - 1 ==> j < left.len() && !nan(left[j]) && !less(ZERO, left[j])
}

/// The mutations that have a target, in order.
proof fn lemma_used<G: Genome + 'static>(
    entries: Seq<Registered<G>>,
    nodes: Seq<ExprNode<G::Tag>>,
    candidates: Seq<NodeId>,
    n: nat,
)
    requires
        n <= entries.len(),
    ensures
        ({
            let found = qualifying(entries, nodes, candidates, n);
            &&& forall|i: int, j: int| 0 <= i < j < found.len() ==> found[i].0 < found[j].0
            &&& forall|j: int|
                0 <= j < found.len() ==> 0 <= (#[trigger] found[j]).0 < n && found[j].1 == hits(
                    entries[found[j].0],
                    nodes,
                    candidates,
                )
            &&& forall|i: int|
                0 <= i < n ==> (hits(#[trigger] entries[i], nodes, candidates).len() > 0
                    <==> exists|j: int| 0 <= j < found.len() && (#[trigger] found[j]).0 == i)
        }),
    decreases n,
{
    if n > 0 {
        let m = (n - 1) as nat;
        lemma_used(entries, nodes, candidates, m);
        lemma_targets(&*entries[n - 1].mutation.item, nodes, candidates);
        let before = qualifying(entries, nodes, candidates, m);
        let found = qualifying(entries, nodes, candidates, n);
        assert forall|i: int| 0 <= i < n implies (hits(
            #[trigger] entries[i],
            nodes,
            candidates,
        ).len() > 0 <==> exists|j: int| 0 <= j < found.len() && (#[trigger] found[j]).0 == i) by {
            if i < n - 1 {
                if hits(entries[i], nodes, candidates).len() > 0 {
                    let j = choose|j: int|
                        0 <= j < before.len() && (#[trigger] before[j]).0 == i;
                    assert(found[j] == before[j]);
                }
                if exists|j: int| 0 <= j < found.len() && (#[trigger] found[j]).0 == i {
                    let j = choose|j: int| 0 <= j < found.len() && (#[trigger] found[j]).0 == i;
                    if j < before.len() {
                        assert(before[j] == found[j]);
                    }
                }
            } else if hits(entries[i], nodes, candidates).len() > 0 {
                assert(found[before.len() as int].0 == i);
            } else {
                assert(found == before);
            }
        }
    }
}

/// The draws that led to an offspring: the mutations that were weighed with
/// their weights, the part of the sum of weights that was drawn and what was
/// left of it after each, which of the mutations was picked, which of its
/// targets, and the generator that it was handed.
pub ghost struct Origin {
    pub used: Seq<int>,
    pub weights: Seq<Scalar>,
    pub unit: Scalar,
    pub left: Seq<Scalar>,
    pub picked: int,
    pub target: usize,
    pub rng: StdRng,
}

/// Whether `unit` is a draw from `[0, 1)`.
pub open spec fn unit_drawn<R: Reals>(unit: Scalar) -> bool {
    exists|state: &mut StdRng| #[trigger] call_ensures(R::unit, (state,), unit)
}

/// Whether `i` is a draw from `0..n`.
pub open spec fn index_drawn(n: nat, i: usize) -> bool {
    i < n && exists|state: &mut StdRng| #[trigger] may_pick_index(state, n, i)
}

/// Whether `left` is what is left of the part `unit` of the sum of the weights
/// when they are taken off one after the other.
pub open spec fn taken_off<R: Reals>(
    unit: Scalar,
    weights: Seq<Scalar>,
    left: Seq<Scalar>,
) -> bool {
    exists|slice: &[Scalar], rest: Vec<Scalar>|
        {
            &&& #[trigger] call_ensures(R::remainders, (unit, slice), rest)
            &&& slice@ == weights
            &&& rest@ == left
        }
}

/// How a registry comes by an offspring. Of the registered mutations that have
/// a target, one is picked by their own weights, each taken off in the order
/// of registration from a drawn part of their sum until nothing is left. It
/// is applied to one of its targets, which a draw among all of them picked.
pub proof fn lemma_mutant_origin<G: Genome + 'static>(
    mutator: &Mutator<G>,
    candidates: Seq<NodeId>,
    parent: &Individual<G>,
    source: &ExprArena<G::Tag>,
    ops: &OperationTable,
    old_dest: &ExprArena<G::Tag>,
    new_dest: &ExprArena<G::Tag>,
    offspring: Individual<G>,
) -> (r: Origin)
    requires
        mutator.may_return(
            candidates,
            parent,
            source,
            ops,
            old_dest,
            new_dest,
            Some(offspring),
        ),
    ensures
        weighed(mutator.entries(), source.nodes(), candidates, r.used, r.weights),
        unit_drawn::<G::Reals>(r.unit),
        taken_off::<G::Reals>(r.unit, r.weights, r.left),
        first_spent(r.left, r.used.len(), r.picked),
        ({
            let entry = mutator.entries()[r.used[r.picked]];
            let targets = hits(entry, source.nodes(), candidates);
            &&& index_drawn(targets.len(), r.target)
            &&& bred(
                &*entry.mutation.item,
                targets[r.target as int],
                parent,
                source,
                ops,
                r.rng,
                old_dest,
                new_dest,
                offspring,
            )
        }),
{
    let n = mutator.entries().len();
    let found = qualifying(mutator.entries(), source.nodes(), candidates, n);
    let (first, unit, second, rng) = choose|
        first: &mut StdRng,
        unit: Scalar,
        second: &mut StdRng,
        rng: StdRng,
    |
        {
            &&& #[trigger] call_ensures(G::Reals::unit, (first,), unit)
            &&& #[trigger] mutator.falls_to(
                candidates,
                unit,
                second,
                rng,
                parent,
                source,
                ops,
                old_dest,
                new_dest,
                offspring,
            )
        };
    let (left, j, k) = choose|left: Seq<Scalar>, j: int, k: int|
        {
            &&& may_leave::<G::Reals>(unit, weights_of(mutator.entries(), found), left)
            &&& #[trigger] falls_on(left, found.len() as int, j)
            &&& 0 <= k < found[j].1.len() && k <= usize::MAX
            &&& may_pick_index(second, found[j].1.len(), k as usize)
            &&& bred(
                &*mutator.entries()[found[j].0].mutation.item,
                #[trigger] found[j].1[k],
                parent,
                source,
                ops,
                rng,
                old_dest,
                new_dest,
                offspring,
            )
        };
    lemma_used(mutator.entries(), source.nodes(), candidates, n);
    let used = Seq::new(found.len(), |i: int| found[i].0);
    let weights = weights_of(mutator.entries(), found);
    assert forall|i: int| 0 <= i < n implies (#[trigger] used.contains(i) <==> hits(
        mutator.entries()[i],
        source.nodes(),
        candidates,
    ).len() > 0) by {
        if used.contains(i) {
            let q = used.index_of(i);
            assert(found[q].0 == i);
        }
        if hits(mutator.entries()[i], source.nodes(), candidates).len() > 0 {
            let q = choose|q: int| 0 <= q < found.len() && (#[trigger] found[q]).0 == i;
            assert(used[q] == i);
        }
    }
    assert forall|i: int| 0 <= i < j && i < left.len() implies nan(#[trigger] left[i]) || less(
        ZERO,
        left[i],
    ) by {
        assert(!used_up(left[i]));
    }
    assert(may_pick_index(second, found[j].1.len(), k as usize));
    assert(weighed(mutator.entries(), source.nodes(), candidates, used, weights));
    assert(found[j].1 == hits(mutator.entries()[used[j]], source.nodes(), candidates));
    Origin { used, weights, unit, left, picked: j, target: k as usize, rng }
}

/// A registered mutation applies to the nodes that the mutation it was made of
/// applies to, needs what that needs, and answers what that may answer.
pub proof fn lemma_behaves<G: Genome, M: Mutation<G>>(
    entry: Registered<G>,
    m: M,
    kind: NodeKind,
    ops: &OperationTable,
    n_params: nat,
    step: Step<G::Tag>,
    replacement: Option<NodeId>,
)
    requires
        entry.behaves_as(m),
    ensures
        entry.mutation.item.applies(kind) == m.applies(kind),
        entry.mutation.item.ready(kind, ops, n_params) == m.ready(kind, ops, n_params),
        entry.mutation.item.yields(step, replacement) == m.yields(step, replacement),
{
}

} // verus!
