//! The individuals of a generation, with their fitness.

use super::fitness::Fitness;
use super::{Genome, Individual};
use std::ops::Deref;
use vstd::prelude::*;

verus! {

/// An [`Individual`] together with its (optional) fitness, as stored in a
/// [`Population`]. Fitness is `None` until scored.
pub struct Scored<G: Genome, F: Fitness> {
    pub individual: Individual<G>,
    pub fitness: Option<F>,
}

impl<G: Genome, F: Fitness> Scored<G, F> {
    /// Wraps an individual as unscored.
    pub fn new(individual: Individual<G>) -> (r: Self)
        ensures
            r.individual == individual,
            r.fitness is None,
    {
        Self { individual, fitness: None }
    }
}

/// The individuals making up a generation, each paired with its fitness.
///
/// A thin wrapper over a vector of [`Scored`] individuals that derefs to a
/// slice, so iteration, indexing, `len`, etc. come for free.
pub struct Population<G: Genome, F: Fitness>(Vec<Scored<G, F>>);

impl<G: Genome, F: Fitness> View for Population<G, F> {
    type V = Seq<Scored<G, F>>;

    closed spec fn view(&self) -> Seq<Scored<G, F>> {
        self.0@
    }
}

/// The unscored ones among the given individuals, in order.
pub open spec fn unscored<G: Genome, F: Fitness>(all: Seq<Scored<G, F>>) -> Seq<Scored<G, F>>
    decreases all.len(),
{
    if all.len() == 0 {
        Seq::empty()
    } else if all.last().fitness is None {
        unscored(all.drop_last()).push(all.last())
    } else {
        unscored(all.drop_last())
    }
}

/// Whether the individuals were scored one after another by a scoring function
/// that went through the given states: each scored one keeps its fitness and
/// leaves the state alone, and each unscored one gets the fitness that the
/// function gives to it in the state that it was in.
pub open spec fn scored_by<G: Genome, F: Fitness, S: FnMut(&Individual<G>) -> F>(
    before: Seq<Scored<G, F>>,
    after: Seq<Scored<G, F>>,
    states: Seq<S>,
) -> bool {
    &&& after.len() == before.len()
    &&& states.len() == before.len() + 1
    &&& forall|i: int|
        #![trigger after[i]]
        0 <= i < after.len() ==> scored_at(before, after, states, i)
}

/// What [`scored_by`] says of one of the individuals.
pub open spec fn scored_at<G: Genome, F: Fitness, S: FnMut(&Individual<G>) -> F>(
    before: Seq<Scored<G, F>>,
    after: Seq<Scored<G, F>>,
    states: Seq<S>,
    i: int,
) -> bool {
    &&& after[i].individual == before[i].individual
    &&& match before[i].fitness {
        Some(_) => after[i].fitness == before[i].fitness && states[i + 1] == states[i],
        None => after[i].fitness matches Some(fitness) && call_ensures(
            states[i],
            (&before[i].individual,),
            fitness,
        ),
    }
}

/// Scoring one more individual.
proof fn lemma_scored_next<G: Genome, F: Fitness, S: FnMut(&Individual<G>) -> F>(
    before: Seq<Scored<G, F>>,
    after: Seq<Scored<G, F>>,
    states: Seq<S>,
    state: S,
)
    requires
        after.len() == before.len(),
        after.len() > 0,
        scored_by(before.drop_last(), after.drop_last(), states),
        scored_at(before, after, states.push(state), after.len() - 1),
    ensures
        scored_by(before, after, states.push(state)),
{
    let next = states.push(state);
    assert forall|i: int| 0 <= i < after.len() implies scored_at(before, after, next, i) by {
        if i < after.len() - 1 {
            assert(scored_at(before.drop_last(), after.drop_last(), states, i));
        }
    }
}

/// Where every individual has a fitness, none is unscored.
proof fn lemma_none_unscored<G: Genome, F: Fitness>(all: Seq<Scored<G, F>>)
    requires
        forall|i: int| 0 <= i < all.len() ==> (#[trigger] all[i]).fitness is Some,
    ensures
        unscored(all).len() == 0,
    decreases all.len(),
{
    if all.len() > 0 {
        lemma_none_unscored(all.drop_last());
    }
}

impl<G: Genome, F: Fitness> Population<G, F> {
    /// An empty population.
    pub fn new() -> (r: Self)
        ensures
            r@ == Seq::<Scored<G, F>>::empty(),
    {
        Self(Vec::new())
    }

    /// Removes all individuals, resetting the buffer.
    pub fn clear(&mut self)
        ensures
            final(self)@ == Seq::<Scored<G, F>>::empty(),
    {
        self.0.clear();
    }

    /// Inserts an (unscored) individual and returns a mutable reference to its
    /// [`Scored`] slot.
    pub fn insert(&mut self, individual: Individual<G>) -> (r: &mut Scored<G, F>)
        ensures
            r.individual == individual,
            r.fitness is None,
            final(self)@ == old(self)@.push(*final(r)),
    {
        self.0.push(Scored::new(individual));
        let last: usize = self.0.len() - 1;
        &mut self.0[last]
    }

    /// A mutable reference to the individual at `i`.
    pub fn get_mut(&mut self, i: usize) -> (r: Option<&mut Scored<G, F>>)
        ensures
            r is Some <==> i < old(self)@.len(),
            match r {
                Some(scored) => {
                    &&& *scored == old(self)@[i as int]
                    &&& final(self)@ == old(self)@.update(i as int, *final(scored))
                },
                None => final(self)@ == old(self)@,
            },
    {
        if i < self.0.len() {
            Some(&mut self.0[i])
        } else {
            None
        }
    }

    /// The individuals that have not been scored yet, in order.
    pub fn iter_unscored(&self) -> (r: Vec<&Scored<G, F>>)
        ensures
            r@.len() == unscored(self@).len(),
            forall|i: int| 0 <= i < r@.len() ==> *(#[trigger] r@[i]) == unscored(self@)[i],
    {
        let mut out: Vec<&Scored<G, F>> = Vec::new();
        let mut i: usize = 0;
        while i < self.0.len()
            invariant
                i <= self.0@.len(),
                out@.len() == unscored(self@.take(i as int)).len(),
                forall|j: int|
                    0 <= j < out@.len() ==> *(#[trigger] out@[j]) == unscored(
                        self@.take(i as int),
                    )[j],
            decreases self.0.len() - i,
        {
            proof {
                let next = self@.take(i + 1);
                assert(next.drop_last() == self@.take(i as int));
                assert(next.last() == self.0@[i as int]);
            }
            if self.0[i].fitness.is_none() {
                out.push(&self.0[i]);
            }
            i += 1;
        }
        assert(self@.take(i as int) == self@);
        out
    }

    /// Scores every unscored individual with `f` and records the result: each
    /// keeps the fitness that it had, or else gets the one that the scoring
    /// function, in its current state, gave to its individual.
    ///
    /// The scoring function sees only the genetic material (`&Individual`),
    /// keeping it independent of the fitness type. Convenient when the scoring
    /// function borrows only the arena (not the population).
    pub fn score_unscored<S: FnMut(&Individual<G>) -> F>(&mut self, f: S)
        requires
            forall|s: S, individual: &Individual<G>| call_requires(s, (individual,)),
        ensures
            exists|states: Seq<S>|
                {
                    &&& #[trigger] scored_by(old(self)@, final(self)@, states)
                    &&& states[0] == f
                },
            unscored(final(self)@).len() == 0,
    {
        let mut f = f;
        let ghost mut states: Seq<S> = seq![f];
        let ghost start = f;
        let mut i: usize = 0;
        while i < self.0.len()
            invariant
                i <= self.0@.len(),
                self.0@.len() == old(self).0@.len(),
                forall|s: S, individual: &Individual<G>| call_requires(s, (individual,)),
                forall|j: int| i <= j < self.0@.len() ==> #[trigger] self.0@[j] == old(self).0@[j],
                states.len() == i + 1,
                states[0] == start,
                states.last() == f,
                scored_by(old(self).0@.take(i as int), self.0@.take(i as int), states),
            decreases self.0.len() - i,
        {
            let ghost done = self.0@.take(i as int);
            let ghost before = self.0@[i as int];
            if self.0[i].fitness.is_none() {
                let ghost state = f;
                let fitness = f(&self.0[i].individual);
                assert(call_ensures(state, (&before.individual,), fitness));
                self.0[i].fitness = Some(fitness);
            }
            proof {
                let next = old(self).0@.take(i + 1);
                let after = self.0@.take(i + 1);
                assert(next.drop_last() == old(self).0@.take(i as int));
                assert(after.drop_last() == done);
                lemma_scored_next(next, after, states, f);
                states = states.push(f);
            }
            i += 1;
        }
        proof {
            assert(old(self).0@.take(i as int) == old(self)@);
            assert(self.0@.take(i as int) == self@);
            assert forall|j: int| 0 <= j < self@.len() implies (
            #[trigger] self@[j]).fitness is Some by {
                assert(scored_at(old(self)@, self@, states, j));
            }
            lemma_none_unscored(self@);
        }
    }
}

impl<G: Genome, F: Fitness> Deref for Population<G, F> {
    type Target = [Scored<G, F>];

    fn deref(&self) -> (r: &[Scored<G, F>])
        ensures
            r@ == self@,
    {
        self.0.as_slice()
    }
}

impl<G: Genome, F: Fitness> Default for Population<G, F> {
    fn default() -> (r: Self)
        ensures
            r@ == Seq::<Scored<G, F>>::empty(),
    {
        Self::new()
    }
}

/// The unscored individuals are those without a fitness, in order.
pub proof fn lemma_unscored<G: Genome, F: Fitness>(all: Seq<Scored<G, F>>)
    ensures
        unscored(all) == all.filter(|s: Scored<G, F>| s.fitness is None),
    decreases all.len(),
{
    reveal(Seq::filter);
    if all.len() > 0 {
        lemma_unscored(all.drop_last());
    }
}

/// Scoring changes no individual and no fitness that there is, and gives each
/// other individual the fitness that the scoring function gives to it, which
/// no scored individual before it was handed to.
pub proof fn lemma_scored<G: Genome, F: Fitness, S: FnMut(&Individual<G>) -> F>(
    before: Seq<Scored<G, F>>,
    after: Seq<Scored<G, F>>,
    states: Seq<S>,
    i: int,
)
    requires
        scored_by(before, after, states),
        0 <= i < before.len(),
    ensures
        after.len() == before.len(),
        after[i].individual == before[i].individual,
        before[i].fitness is Some ==> after[i].fitness == before[i].fitness && states[i + 1]
            == states[i],
        before[i].fitness is None ==> after[i].fitness is Some && call_ensures(
            states[i],
            (&before[i].individual,),
            after[i].fitness->0,
        ),
{
    assert(after[i] == after[i]);
}

} // verus!
