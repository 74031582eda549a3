//! Fitness metrics and selection.

use super::population::{Population, Scored};
use super::selection::{
    best_first, choice_len, drawn, first_best, item_at, lemma_first_best_round, lemma_last_round,
    pick_all, picked, prefers, random_tournament, select_best, staged, won,
};
use super::Genome;
use crate::random::may_pick_index;
use crate::scalar::{
    finite, is_nan, lemma_less, less, nan, position, real_position, units, INFINITY,
};
use crate::types::Scalar;
use rand::rngs::StdRng;
use std::cmp::Ordering;
use std::ops::Deref;
use vstd::prelude::*;
use vstd::std_specs::cmp::{PartialEqSpec, PartialEqSpecImpl};

verus! {

/// Fitness metric of an individual, comparable by quality.
///
/// The ordering is a *partial* one: [`Self::quality_cmp`] may return `None`
/// when two fitnesses are genuine trade-offs, better on one criterion, worse
/// on another. Single-objective fitness scores are totally ordered and never
/// return `None`; multi-objective fitness scores generally do, which is what
/// enables Pareto-based selection.
pub trait Fitness: Clone {
    /// How `self` compares to `other` by quality: somehow, unless an
    /// implementation says how.
    open spec fn quality(&self, other: &Self) -> Option<Ordering> {
        arbitrary::<spec_fn(&Self, &Self) -> Option<Ordering>>()(self, other)
    }

    /// Orders `self` against `other` by quality, from the optimizer's view.
    ///
    /// ### Value interpretation
    /// - `Some(Greater)`: `self` is strictly better (it *dominates* `other`).
    /// - `Some(Less)`:  `self` is strictly worse (it is dominated).
    /// - `Some(Equal)`:  equally good on every criterion.
    /// - `None`:  neither dominates the other (a genuine trade-off).
    fn quality_cmp(&self, other: &Self) -> (r: Option<Ordering>)
        ensures
            r == self.quality(other),
    ;

    /// `true` if `self` Pareto-dominates `other` (strictly better overall).
    fn dominates(&self, other: &Self) -> (r: bool)
        ensures
            r == (self.quality(other) == Some(Ordering::Greater)),
    {
        match self.quality_cmp(other) {
            Some(Ordering::Greater) => true,
            _ => false,
        }
    }
}

/// A single-objective fitness backed by a scalar where **lower is better**:
/// a smaller value dominates. NaN (and any non-comparable result, i.e. from an
/// invalid expression) is treated as the worst possible fitness.
#[derive(Clone, Copy, Debug)]
pub struct ScalarFitness(pub Scalar);

/// The order of two numbers of which the lower is better.
pub open spec fn lower_first(a: int, b: int) -> Ordering {
    if a < b {
        Ordering::Greater
    } else if a > b {
        Ordering::Less
    } else {
        Ordering::Equal
    }
}

impl ScalarFitness {
    /// The worst possible fitness.
    pub fn worst() -> (r: Self)
        ensures
            r == ScalarFitness(INFINITY),
    {
        Self(INFINITY)
    }

    pub fn new(value: Scalar) -> (r: Self)
        ensures
            r == ScalarFitness(value),
    {
        Self(value)
    }

    /// The cost that fitnesses are compared by: the position of the number on
    /// the real line, that of infinity for NaN.
    pub open spec fn cost(&self) -> int {
        if nan(self.0) {
            INFINITY as int
        } else {
            position(self.0)
        }
    }

    /// Computes the cost.
    fn cost_of(&self) -> (r: i64)
        ensures
            r == self.cost(),
    {
        if is_nan(self.0) {
            INFINITY as i64
        } else {
            real_position(self.0)
        }
    }
}

impl PartialEq for ScalarFitness {
    fn eq(&self, other: &Self) -> (r: bool) {
        !is_nan(self.0) && !is_nan(other.0) && real_position(self.0) == real_position(other.0)
    }
}

impl PartialEqSpecImpl for ScalarFitness {
    open spec fn obeys_eq_spec() -> bool {
        true
    }

    open spec fn eq_spec(&self, other: &Self) -> bool {
        same_value(self.0, other.0)
    }
}

impl Fitness for ScalarFitness {
    open spec fn quality(&self, other: &Self) -> Option<Ordering> {
        Some(lower_first(self.cost(), other.cost()))
    }

    fn quality_cmp(&self, other: &Self) -> (r: Option<Ordering>) {
        let a: i64 = self.cost_of();
        let b: i64 = other.cost_of();
        if a < b {
            Some(Ordering::Greater)
        } else if a > b {
            Some(Ordering::Less)
        } else {
            Some(Ordering::Equal)
        }
    }
}

impl From<u32> for ScalarFitness {
    fn from(v: u32) -> (r: Self) {
        Self(v)
    }
}

impl vstd::std_specs::convert::FromSpecImpl<u32> for ScalarFitness {
    open spec fn obeys_from_spec() -> bool {
        true
    }

    open spec fn from_spec(v: u32) -> Self {
        ScalarFitness(v)
    }
}

impl From<ScalarFitness> for u32 {
    fn from(f: ScalarFitness) -> (r: Self) {
        f.0
    }
}

impl vstd::std_specs::convert::FromSpecImpl<ScalarFitness> for u32 {
    open spec fn obeys_from_spec() -> bool {
        true
    }

    open spec fn from_spec(f: ScalarFitness) -> Self {
        f.0
    }
}

/// A multi-objective fitness: `N` criteria, **all lower-is-better**, compared
/// by Pareto dominance. One fitness dominates another when it is at least as
/// good on every criterion and strictly better on at least one; when each is
/// better on some criterion they are an incomparable trade-off
/// ([`Fitness::quality_cmp`] returns `None`).
#[derive(Clone, Copy, Debug)]
pub struct ParetoFitness<const N: usize>(pub [ScalarFitness; N]);

impl<const N: usize> ParetoFitness<N> {
    /// Whether `self` is better on some criterion.
    pub open spec fn better_somewhere(&self, other: &Self) -> bool {
        exists|i: int| 0 <= i < N && (#[trigger] self.0@[i]).cost() < other.0@[i].cost()
    }

    /// The worst possible fitness: every criterion at its worst.
    pub fn worst() -> (r: Self)
        ensures
            forall|i: int| 0 <= i < N ==> #[trigger] r.0@[i] == ScalarFitness(INFINITY),
    {
        ParetoFitness([ScalarFitness::worst();N])
    }

    /// Whether `self` is better on some criterion, and whether `other` is.
    fn trade(&self, other: &Self) -> (r: (bool, bool))
        ensures
            r.0 == self.better_somewhere(other),
            r.1 == other.better_somewhere(self),
    {
        let mut better = false;
        let mut worse = false;
        let mut i: usize = 0;
        while i < N
            invariant
                i <= N,
                better == exists|j: int|
                    0 <= j < i && (#[trigger] self.0@[j]).cost() < other.0@[j].cost(),
                worse == exists|j: int|
                    0 <= j < i && (#[trigger] other.0@[j]).cost() < self.0@[j].cost(),
            decreases N - i,
        {
            let a: i64 = self.0[i].cost_of();
            let b: i64 = other.0[i].cost_of();
            proof {
                assert(self.0@[i as int].cost() == a);
                assert(other.0@[i as int].cost() == b);
            }
            if a < b {
                better = true;
            } else if b < a {
                worse = true;
            }
            i += 1;
        }
        (better, worse)
    }
}

impl<const N: usize> PartialEq for ParetoFitness<N> {
    fn eq(&self, other: &Self) -> (r: bool) {
        let mut i: usize = 0;
        while i < N
            invariant
                i <= N,
                forall|j: int| 0 <= j < i ==> same_value((#[trigger] self.0@[j]).0, other.0@[j].0),
            decreases N - i,
        {
            if !(self.0[i] == other.0[i]) {
                assert(!same_value(self.0@[i as int].0, other.0@[i as int].0));
                return false;
            }
            i += 1;
        }
        true
    }
}

/// Whether two scalars are equal as numbers; NaN is equal to none.
pub open spec fn same_value(a: Scalar, b: Scalar) -> bool {
    !nan(a) && !nan(b) && position(a) == position(b)
}

impl<const N: usize> PartialEqSpecImpl for ParetoFitness<N> {
    open spec fn obeys_eq_spec() -> bool {
        true
    }

    open spec fn eq_spec(&self, other: &Self) -> bool {
        forall|j: int| 0 <= j < N ==> same_value((#[trigger] self.0@[j]).0, other.0@[j].0)
    }
}

impl<const N: usize> Fitness for ParetoFitness<N> {
    open spec fn quality(&self, other: &Self) -> Option<Ordering> {
        let better = self.better_somewhere(other);
        let worse = other.better_somewhere(self);
        if better && worse {
            None
        } else if better {
            Some(Ordering::Greater)
        } else if worse {
            Some(Ordering::Less)
        } else {
            Some(Ordering::Equal)
        }
    }

    fn quality_cmp(&self, other: &Self) -> (r: Option<Ordering>) {
        match self.trade(other) {
            (true, true) => None,  // better on one axis, worse on another
            (true, false) => Some(Ordering::Greater),
            (false, true) => Some(Ordering::Less),
            (false, false) => Some(Ordering::Equal),
        }
    }
}

/// The order of two ranks of which the higher is better.
pub open spec fn higher_first(a: int, b: int) -> Ordering {
    lower_first(b, a)
}

/// How two individuals compare by fitness: an unscored individual is worst,
/// and a genuine trade-off compares equal.
pub open spec fn by_fitness<G: Genome, F: Fitness>(
    a: Scored<G, F>,
    b: Scored<G, F>,
) -> Ordering {
    match (a.fitness, b.fitness) {
        (Some(fa), Some(fb)) => match fa.quality(&fb) {
            Some(order) => order,
            None => Ordering::Equal,
        },
        (Some(_), None) => Ordering::Greater,
        (None, Some(_)) => Ordering::Less,
        (None, None) => Ordering::Equal,
    }
}

/// Whether `compare` orders the individuals among `items` by their rank, the
/// higher the better.
pub open spec fn ranks<G: Genome, F: Fitness, C: Fn(&Scored<G, F>, &Scored<G, F>) -> Ordering>(
    items: Seq<Scored<G, F>>,
    compare: C,
    rank: spec_fn(Scored<G, F>) -> int,
) -> bool {
    forall|i: int, j: int, order: Ordering|
        0 <= i < items.len() && 0 <= j < items.len() && #[trigger] call_ensures(
            compare,
            (&items[i], &items[j]),
            order,
        ) ==> order == higher_first(rank(items[i]), rank(items[j]))
}

/// Whether two individuals can be compared.
pub open spec fn can_judge<G: Genome, F: Fitness, C: Fn(&Scored<G, F>, &Scored<G, F>) -> Ordering>(
    compare: &C,
    a: &Scored<G, F>,
    b: &Scored<G, F>,
) -> bool {
    call_requires(*compare, (a, b))
}

/// Whether `a` may compare greater than `b`, or not, as `answer` says.
pub open spec fn judges<G: Genome, F: Fitness, C: Fn(&Scored<G, F>, &Scored<G, F>) -> Ordering>(
    compare: &C,
    a: &Scored<G, F>,
    b: &Scored<G, F>,
    answer: bool,
) -> bool {
    exists|order: Ordering| #[trigger]
        call_ensures(*compare, (a, b), order) && answer == (order == Ordering::Greater)
}

/// Default comparator ranking [`Scored`] individuals by
/// [`Fitness::quality_cmp`]: an unscored individual is worst, and a genuine
/// trade-off (`None`) compares equal. Used by [`k_best_of`] and
/// [`k_tournament_selection`]; pass a custom comparator to
/// [`k_best_of_with_comparator`] / [`k_tournament_selection_with_comparator`]
/// instead when trade-offs need a tie-break (e.g. a secondary objective).
pub fn compare_by_fitness<G: Genome, F: Fitness>(
    a: &Scored<G, F>,
    b: &Scored<G, F>,
) -> (r: Ordering)
    ensures
        r == by_fitness(*a, *b),
{
    match (&a.fitness, &b.fitness) {
        (Some(fa), Some(fb)) => match fa.quality_cmp(fb) {
            Some(order) => order,
            None => Ordering::Equal,
        },
        (Some(_), None) => Ordering::Greater,
        (None, Some(_)) => Ordering::Less,
        (None, None) => Ordering::Equal,
    }
}

/// Returns the `k` best individuals of `pop`, best first, ranked by
/// [`Fitness::quality_cmp`] (unscored individuals are treated as worst; a
/// genuine trade-off compares equal). See [`k_best_of_with_comparator`] to
/// supply a custom comparator.
pub fn k_best_of<G: Genome, F: Fitness>(pop: &Population<G, F>, k: usize) -> (r: Vec<
    &Scored<G, F>,
>)
    ensures
        r@.len() == choice_len(pop@.len(), k),
        exists|chosen: Seq<usize>|
            {
                &&& #[trigger] picked(pop@, chosen, r@)
                &&& forall|rank: spec_fn(Scored<G, F>) -> int| #[trigger]
                    agrees(pop@, rank) ==> best_first(pop@, chosen, rank)
            },
{
    let r = k_best_of_with_comparator(pop, k, compare_by_fitness::<G, F>);
    proof {
        let chosen = choose|chosen: Seq<usize>|
            {
                &&& #[trigger] picked(pop@, chosen, r@)
                &&& forall|rank: spec_fn(Scored<G, F>) -> int| #[trigger]
                    ranks(pop@, compare_by_fitness::<G, F>, rank) ==> best_first(pop@, chosen, rank)
            };
        assert forall|rank: spec_fn(Scored<G, F>) -> int| #[trigger] agrees(pop@, rank) implies best_first(
            pop@,
            chosen,
            rank,
        ) by {
            assert(ranks(pop@, compare_by_fitness::<G, F>, rank));
        }
    }
    r
}

/// Whether the order by fitness of the individuals among `items` is that of
/// their ranks, the higher the better.
pub open spec fn agrees<G: Genome, F: Fitness>(
    items: Seq<Scored<G, F>>,
    rank: spec_fn(Scored<G, F>) -> int,
) -> bool {
    forall|i: int, j: int|
        0 <= i < items.len() && 0 <= j < items.len() ==> #[trigger] by_fitness(items[i], items[j])
            == higher_first(rank(items[i]), rank(items[j]))
}

/// Returns the `k` best individuals of `pop`, best first, ranked by `compare`
/// (`Greater` = the first argument is better). `k` is clamped to the population
/// size; an empty population (or `k == 0`) yields an empty vec.
///
/// Where no rank of these individuals orders them as `compare` does (a genuine
/// trade-off can compare equal to each of two that differ), the order is left
/// open: `k` distinct individuals come back all the same.
pub fn k_best_of_with_comparator<
    'p,
    G: Genome,
    F: Fitness,
    C: Fn(&Scored<G, F>, &Scored<G, F>) -> Ordering,
>(pop: &'p Population<G, F>, k: usize, compare: C) -> (r: Vec<&'p Scored<G, F>>)
    requires
        forall|i: int, j: int|
            0 <= i < pop@.len() && 0 <= j < pop@.len() ==> #[trigger] call_requires(
                compare,
                (&pop@[i], &pop@[j]),
            ),
    ensures
        r@.len() == choice_len(pop@.len(), k),
        exists|chosen: Seq<usize>|
            {
                &&& #[trigger] picked(pop@, chosen, r@)
                &&& forall|rank: spec_fn(Scored<G, F>) -> int| #[trigger]
                    ranks(pop@, compare, rank) ==> best_first(pop@, chosen, rank)
            },
{
    let judge = &compare;
    let better = |a: &Scored<G, F>, b: &Scored<G, F>| -> (answer: bool)
        requires
            can_judge(judge, a, b),
        ensures
            judges(judge, a, b, answer),
        {
            match judge(a, b) {
                Ordering::Greater => true,
                _ => false,
            }
        };
    let chosen = select_best(pop.deref(), k, better);
    proof {
        assert forall|rank: spec_fn(Scored<G, F>) -> int| #[trigger]
            ranks(pop@, compare, rank) implies best_first(pop@, chosen@, rank) by {
            assert(prefers(pop@, better, rank));
        }
    }
    pick_all(pop.deref(), chosen.as_slice())
}

/// Whether the order of the items is a total preorder: it reverses by swapping,
/// and what is at least as good as something is so as anything below that.
pub open spec fn total_preorder<T>(items: Seq<T>, order: spec_fn(T, T) -> Ordering) -> bool {
    &&& forall|i: int, j: int|
        0 <= i < items.len() && 0 <= j < items.len() ==> (#[trigger] order(items[i], items[j])
            == Ordering::Greater <==> order(items[j], items[i]) == Ordering::Less)
    &&& forall|i: int, j: int, k: int|
        0 <= i < items.len() && 0 <= j < items.len() && 0 <= k < items.len()
            && #[trigger] order(items[i], items[j]) != Ordering::Less
            && #[trigger] order(items[j], items[k]) != Ordering::Less ==> order(items[i], items[k])
            != Ordering::Less
}

/// How many of the items `x` compares greater than.
pub open spec fn beaten<T>(items: Seq<T>, order: spec_fn(T, T) -> Ordering, x: T) -> int
    decreases items.len(),
{
    if items.len() == 0 {
        0
    } else {
        beaten(items.drop_last(), order, x) + if order(x, items.last()) == Ordering::Greater {
            1int
        } else {
            0int
        }
    }
}

/// What compares greater than all that another one does beats as many, and
/// more if it compares greater than something else.
proof fn lemma_beaten<T>(items: Seq<T>, order: spec_fn(T, T) -> Ordering, x: T, y: T)
    requires
        forall|i: int|
            0 <= i < items.len() && #[trigger] order(y, items[i]) == Ordering::Greater ==> order(
                x,
                items[i],
            ) == Ordering::Greater,
    ensures
        beaten(items, order, x) >= beaten(items, order, y),
        (exists|i: int|
            0 <= i < items.len() && #[trigger] order(x, items[i]) == Ordering::Greater && order(
                y,
                items[i],
            ) != Ordering::Greater) ==> beaten(items, order, x) > beaten(items, order, y),
    decreases items.len(),
{
    if items.len() > 0 {
        let rest = items.drop_last();
        assert forall|i: int|
            0 <= i < rest.len() && #[trigger] order(y, rest[i]) == Ordering::Greater implies order(
            x,
            rest[i],
        ) == Ordering::Greater by {
            assert(rest[i] == items[i]);
        }
        lemma_beaten(rest, order, x, y);
        if exists|i: int|
            0 <= i < items.len() && #[trigger] order(x, items[i]) == Ordering::Greater && order(
                y,
                items[i],
            ) != Ordering::Greater {
            let i = choose|i: int|
                0 <= i < items.len() && #[trigger] order(x, items[i]) == Ordering::Greater && order(
                    y,
                    items[i],
                ) != Ordering::Greater;
            if i < rest.len() {
                assert(order(x, rest[i]) == Ordering::Greater);
            }
        }
        assert(items[items.len() - 1] == items.last());
    }
}

/// Every total preorder of the items is the order of ranks: of how many of
/// them each beats.
pub proof fn lemma_preorder_rank<T>(items: Seq<T>, order: spec_fn(T, T) -> Ordering)
    requires
        total_preorder(items, order),
    ensures
        forall|i: int, j: int|
            0 <= i < items.len() && 0 <= j < items.len() ==> #[trigger] order(items[i], items[j])
                == higher_first(beaten(items, order, items[i]), beaten(items, order, items[j])),
{
    assert forall|i: int, j: int|
        0 <= i < items.len() && 0 <= j < items.len() implies #[trigger] order(items[i], items[j])
        == higher_first(beaten(items, order, items[i]), beaten(items, order, items[j])) by {
        lemma_preorder_pair(items, order, i, j);
        lemma_preorder_pair(items, order, j, i);
        assert(order(items[j], items[i]) == Ordering::Greater <==> order(items[i], items[j])
            == Ordering::Less);
    }
}

/// Of two items, the one that is at least as good beats as many, and more if
/// it is better.
proof fn lemma_preorder_pair<T>(
    items: Seq<T>,
    order: spec_fn(T, T) -> Ordering,
    i: int,
    j: int,
)
    requires
        total_preorder(items, order),
        0 <= i < items.len(),
        0 <= j < items.len(),
    ensures
        order(items[i], items[j]) != Ordering::Less ==> beaten(items, order, items[i]) >= beaten(
            items,
            order,
            items[j],
        ),
        order(items[i], items[j]) == Ordering::Greater ==> beaten(items, order, items[i])
            > beaten(items, order, items[j]),
{
    let (x, y) = (items[i], items[j]);
    if order(x, y) != Ordering::Less {
        assert forall|k: int|
            0 <= k < items.len() && #[trigger] order(y, items[k]) == Ordering::Greater implies order(
            x,
            items[k],
        ) == Ordering::Greater by {
            if order(x, items[k]) != Ordering::Greater {
                assert(order(items[k], x) != Ordering::Less);
                assert(order(items[k], y) != Ordering::Less);
            }
        }
        lemma_beaten(items, order, x, y);
        assert(order(y, y) != Ordering::Greater);
        if order(x, y) == Ordering::Greater {
            assert(order(x, items[j]) == Ordering::Greater);
        }
    }
}

/// Where the comparisons of the individuals make a total preorder, the `k`
/// best come best first, and none that is left out compares greater than any
/// of them.
pub proof fn lemma_k_best<
    G: Genome,
    F: Fitness,
    C: Fn(&Scored<G, F>, &Scored<G, F>) -> Ordering,
>(
    items: Seq<Scored<G, F>>,
    chosen: Seq<usize>,
    compare: C,
    order: spec_fn(Scored<G, F>, Scored<G, F>) -> Ordering,
)
    requires
        total_preorder(items, order),
        forall|i: int, j: int, answer: Ordering|
            0 <= i < items.len() && 0 <= j < items.len() && #[trigger] call_ensures(
                compare,
                (&items[i], &items[j]),
                answer,
            ) ==> answer == order(items[i], items[j]),
        forall|i: int| 0 <= i < chosen.len() ==> (#[trigger] chosen[i]) < items.len(),
        forall|rank: spec_fn(Scored<G, F>) -> int| #[trigger]
            ranks(items, compare, rank) ==> best_first(items, chosen, rank),
    ensures
        forall|i: int, j: int|
            0 <= i < j < chosen.len() ==> order(
                item_at(items, #[trigger] chosen[i]),
                item_at(items, #[trigger] chosen[j]),
            ) != Ordering::Less,
        forall|x: usize, j: int|
            x < items.len() && !(#[trigger] chosen.contains(x)) && 0 <= j < chosen.len() ==> order(
                item_at(items, x),
                item_at(items, #[trigger] chosen[j]),
            ) != Ordering::Greater,
{
    let rank = |s: Scored<G, F>| beaten(items, order, s);
    lemma_preorder_rank(items, order);
    assert(ranks(items, compare, rank));
    assert(best_first(items, chosen, rank));
    assert forall|i: int, j: int| 0 <= i < j < chosen.len() implies order(
        item_at(items, #[trigger] chosen[i]),
        item_at(items, #[trigger] chosen[j]),
    ) != Ordering::Less by {
        assert(rank(item_at(items, chosen[i])) >= rank(item_at(items, chosen[j])));
    }
    assert forall|x: usize, j: int|
        x < items.len() && !(#[trigger] chosen.contains(x)) && 0 <= j < chosen.len() implies order(
        item_at(items, x),
        item_at(items, #[trigger] chosen[j]),
    ) != Ordering::Greater by {
        assert(rank(item_at(items, chosen[j])) >= rank(item_at(items, x)));
    }
}

/// Whether `winner` may be left of a tournament over the drawn positions: each
/// one after the first displaces the one before if it compares greater.
pub open spec fn won_by<G: Genome, F: Fitness, C: Fn(&Scored<G, F>, &Scored<G, F>) -> Ordering>(
    items: Seq<Scored<G, F>>,
    draws: Seq<usize>,
    compare: C,
    winner: usize,
) -> bool
    decreases draws.len(),
{
    if draws.len() <= 1 {
        draws.len() == 1 && winner == draws[0]
    } else {
        exists|holder: usize, order: Ordering|
            {
                &&& won_by(items, draws.drop_last(), compare, holder)
                &&& #[trigger] call_ensures(
                    compare,
                    (&item_at(items, draws.last()), &item_at(items, holder)),
                    order,
                )
                &&& winner == if order == Ordering::Greater {
                    draws.last()
                } else {
                    holder
                }
            }
    }
}

/// A tournament by preference is one by comparison.
proof fn lemma_won_by<
    G: Genome,
    F: Fitness,
    B: Fn(&Scored<G, F>, &Scored<G, F>) -> bool,
    C: Fn(&Scored<G, F>, &Scored<G, F>) -> Ordering,
>(items: Seq<Scored<G, F>>, draws: Seq<usize>, better: B, compare: C, winner: usize)
    requires
        won(items, draws, better, winner),
        forall|a: Scored<G, F>, b: Scored<G, F>, answer: bool| #[trigger]
            call_ensures(better, (&a, &b), answer) ==> exists|order: Ordering| #[trigger]
                call_ensures(compare, (&a, &b), order) && answer == (order == Ordering::Greater),
    ensures
        won_by(items, draws, compare, winner),
    decreases draws.len(),
{
    if draws.len() > 1 {
        let shorter = draws.drop_last();
        let (holder, answer) = lemma_last_round(items, draws, better, winner);
        lemma_won_by(items, shorter, better, compare, holder);
        let order = choose|order: Ordering| #[trigger]
            call_ensures(
                compare,
                (&item_at(items, draws.last()), &item_at(items, holder)),
                order,
            ) && answer == (order == Ordering::Greater);
        assert(call_ensures(
            compare,
            (&item_at(items, draws.last()), &item_at(items, holder)),
            order,
        ));
    }
}

/// Where a rank orders the individuals as `compare` does, the winner of a
/// tournament is the first of the best that were drawn.
pub proof fn lemma_tournament_best<
    G: Genome,
    F: Fitness,
    C: Fn(&Scored<G, F>, &Scored<G, F>) -> Ordering,
>(
    items: Seq<Scored<G, F>>,
    draws: Seq<usize>,
    compare: C,
    winner: usize,
    rank: spec_fn(Scored<G, F>) -> int,
)
    requires
        won_by(items, draws, compare, winner),
        forall|i: int| 0 <= i < draws.len() ==> (#[trigger] draws[i]) < items.len(),
        ranks(items, compare, rank),
    ensures
        first_best(items, draws, winner, rank),
    decreases draws.len(),
{
    if draws.len() > 1 {
        let shorter = draws.drop_last();
        let (holder, order) = choose|holder: usize, order: Ordering|
            {
                &&& won_by(items, shorter, compare, holder)
                &&& #[trigger] call_ensures(
                    compare,
                    (&item_at(items, draws.last()), &item_at(items, holder)),
                    order,
                )
                &&& winner == if order == Ordering::Greater {
                    draws.last()
                } else {
                    holder
                }
            };
        lemma_tournament_best(items, shorter, compare, holder, rank);
        lemma_first_best_round(
            items,
            draws,
            holder,
            winner,
            order == Ordering::Greater,
            rank,
        );
    } else {
        assert(draws[0] == winner);
    }
}

/// Whether `winner` is the first of the drawn positions whose item no drawn one
/// compares greater than.
pub open spec fn first_unbeaten<T>(
    items: Seq<T>,
    draws: Seq<usize>,
    order: spec_fn(T, T) -> Ordering,
    winner: usize,
) -> bool {
    exists|d: int|
        {
            &&& 0 <= d < draws.len()
            &&& #[trigger] draws[d] == winner
            &&& forall|i: int|
                0 <= i < draws.len() ==> order(
                    item_at(items, #[trigger] draws[i]),
                    item_at(items, winner),
                ) != Ordering::Greater
            &&& forall|i: int|
                0 <= i < d ==> order(
                    item_at(items, #[trigger] draws[i]),
                    item_at(items, winner),
                ) == Ordering::Less
        }
}

/// Where the order of the items is that of their ranks, the first of the best
/// that were drawn is the first unbeaten one.
proof fn lemma_first_unbeaten<T>(
    items: Seq<T>,
    draws: Seq<usize>,
    order: spec_fn(T, T) -> Ordering,
    winner: usize,
    rank: spec_fn(T) -> int,
)
    requires
        first_best(items, draws, winner, rank),
        forall|i: int| 0 <= i < draws.len() ==> (#[trigger] draws[i]) < items.len(),
        forall|i: int, j: int|
            0 <= i < items.len() && 0 <= j < items.len() ==> #[trigger] order(items[i], items[j])
                == higher_first(rank(items[i]), rank(items[j])),
    ensures
        first_unbeaten(items, draws, order, winner),
{
    let best = item_at(items, winner);
    let d = choose|d: int|
        {
            &&& 0 <= d < draws.len()
            &&& #[trigger] draws[d] == winner
            &&& forall|e: int|
                0 <= e < d ==> rank(item_at(items, #[trigger] draws[e])) < rank(best)
            &&& forall|e: int|
                0 <= e < draws.len() ==> rank(item_at(items, #[trigger] draws[e])) <= rank(best)
        };
    assert(draws[d] == winner);
}

/// Where the comparisons of the individuals make a total preorder, the winner
/// of a tournament is the best of those drawn, and of equally good ones the
/// one drawn first.
pub proof fn lemma_tournament_winner<
    G: Genome,
    F: Fitness,
    C: Fn(&Scored<G, F>, &Scored<G, F>) -> Ordering,
>(
    items: Seq<Scored<G, F>>,
    draws: Seq<usize>,
    compare: C,
    order: spec_fn(Scored<G, F>, Scored<G, F>) -> Ordering,
    winner: usize,
)
    requires
        won_by(items, draws, compare, winner),
        forall|i: int| 0 <= i < draws.len() ==> (#[trigger] draws[i]) < items.len(),
        total_preorder(items, order),
        forall|i: int, j: int, answer: Ordering|
            0 <= i < items.len() && 0 <= j < items.len() && #[trigger] call_ensures(
                compare,
                (&items[i], &items[j]),
                answer,
            ) ==> answer == order(items[i], items[j]),
    ensures
        first_unbeaten(items, draws, order, winner),
{
    let rank = |s: Scored<G, F>| beaten(items, order, s);
    lemma_preorder_rank(items, order);
    assert(ranks(items, compare, rank));
    lemma_tournament_best(items, draws, compare, winner, rank);
    lemma_first_unbeaten(items, draws, order, winner, rank);
}

/// k-tournament selection: draws `k` random individuals (with replacement)
/// from `pop` and returns a reference to the best, ranked by
/// [`Fitness::quality_cmp`] (unscored individuals are treated as worst; a
/// genuine trade-off compares equal). See
/// [`k_tournament_selection_with_comparator`] to supply a custom comparator.
pub fn k_tournament_selection<'p, G: Genome, F: Fitness>(
    pop: &'p Population<G, F>,
    k: usize,
    rng: &mut StdRng,
) -> (r: &'p Scored<G, F>)
    requires
        pop@.len() > 0,
    ensures
        exists|draws: Seq<usize>, states: Seq<StdRng>, winner: usize|
            {
                &&& drawn(draws, k, pop@.len())
                &&& #[trigger] staged(draws, states)
                &&& states[0] == *old(rng)
                &&& states.last() == *final(rng)
                &&& forall|i: int|
                    0 <= i < draws.len() && (
                    #[trigger] draws[i]) < pop@.len() ==> exists|state: &mut StdRng|
                        {
                            &&& *state == states[i]
                            &&& *final(state) == states[i + 1]
                            &&& #[trigger] may_pick_index(state, pop@.len(), draws[i])
                        }
                &&& *r == item_at(pop@, winner)
                &&& #[trigger] won_by(pop@, draws, compare_by_fitness::<G, F>, winner)
            },
{
    k_tournament_selection_with_comparator(pop, k, rng, compare_by_fitness::<G, F>)
}

/// k-tournament selection: draws `k` random individuals (with replacement) from
/// `pop` and returns a reference to the best, ranked by `compare` (`Greater` =
/// the first argument is better).
pub fn k_tournament_selection_with_comparator<
    'p,
    G: Genome,
    F: Fitness,
    C: Fn(&Scored<G, F>, &Scored<G, F>) -> Ordering,
>(pop: &'p Population<G, F>, k: usize, rng: &mut StdRng, compare: C) -> (r: &'p Scored<G, F>)
    requires
        pop@.len() > 0,
        forall|i: int, j: int|
            0 <= i < pop@.len() && 0 <= j < pop@.len() ==> #[trigger] call_requires(
                compare,
                (&pop@[i], &pop@[j]),
            ),
    ensures
        exists|draws: Seq<usize>, states: Seq<StdRng>, winner: usize|
            {
                &&& drawn(draws, k, pop@.len())
                &&& #[trigger] staged(draws, states)
                &&& states[0] == *old(rng)
                &&& states.last() == *final(rng)
                &&& forall|i: int|
                    0 <= i < draws.len() && (
                    #[trigger] draws[i]) < pop@.len() ==> exists|state: &mut StdRng|
                        {
                            &&& *state == states[i]
                            &&& *final(state) == states[i + 1]
                            &&& #[trigger] may_pick_index(state, pop@.len(), draws[i])
                        }
                &&& *r == item_at(pop@, winner)
                &&& #[trigger] won_by(pop@, draws, compare, winner)
            },
{
    let judge = &compare;
    let better = |a: &Scored<G, F>, b: &Scored<G, F>| -> (answer: bool)
        requires
            can_judge(judge, a, b),
        ensures
            judges(judge, a, b, answer),
        {
            match judge(a, b) {
                Ordering::Greater => true,
                _ => false,
            }
        };
    let winner: usize = random_tournament(pop.deref(), k, rng, better);
    proof {
        let (draws, states) = choose|draws: Seq<usize>, states: Seq<StdRng>|
            {
                &&& drawn(draws, k, pop@.len())
                &&& #[trigger] staged(draws, states)
                &&& states[0] == *old(rng)
                &&& states.last() == *rng
                &&& forall|i: int|
                    0 <= i < draws.len() && (
                    #[trigger] draws[i]) < pop@.len() ==> exists|state: &mut StdRng|
                        {
                            &&& *state == states[i]
                            &&& *final(state) == states[i + 1]
                            &&& #[trigger] may_pick_index(state, pop@.len(), draws[i])
                        }
                &&& won(pop@, draws, better, winner)
            };
        lemma_won_by(pop@, draws, better, compare, winner);
        assert(staged(draws, states));
    }
    let r = &pop.deref()[winner];
    assert(*r == item_at(pop@, winner));
    r
}

/// The rank of an individual by its scalar fitness: the lower the cost the
/// higher, and below all others if it is unscored.
pub open spec fn scalar_rank<G: Genome>(s: Scored<G, ScalarFitness>) -> int {
    match s.fitness {
        Some(f) => -f.cost(),
        None => -0x8000_0000,
    }
}

/// Scalar fitness orders every population by rank, so that selection from it
/// is by rank.
pub proof fn lemma_scalar_rank<G: Genome>(items: Seq<Scored<G, ScalarFitness>>)
    ensures
        agrees(items, |s: Scored<G, ScalarFitness>| scalar_rank(s)),
{
}

/// Scalar fitness is a total order: never incomparable, reversed by swapping,
/// transitive, and equal to itself.
pub proof fn lemma_scalar_order(a: ScalarFitness, b: ScalarFitness, c: ScalarFitness)
    ensures
        a.quality(&b) is Some,
        a.quality(&a) == Some(Ordering::Equal),
        a.quality(&b) == Some(Ordering::Greater) <==> b.quality(&a) == Some(Ordering::Less),
        a.quality(&b) == Some(Ordering::Equal) <==> b.quality(&a) == Some(Ordering::Equal),
        a.quality(&b) == Some(Ordering::Greater) && b.quality(&c) == Some(Ordering::Greater)
            ==> a.quality(&c) == Some(Ordering::Greater),
        a.quality(&b) == Some(Ordering::Equal) && b.quality(&c) == Some(Ordering::Equal)
            ==> a.quality(&c) == Some(Ordering::Equal),
{
}

/// NaN and the worst fitness are equally bad, no fitness is worse, and every
/// number below infinity dominates them.
pub proof fn lemma_scalar_worst(a: ScalarFitness, worst: ScalarFitness)
    requires
        worst.0 == INFINITY || nan(worst.0),
    ensures
        worst.quality(&a) != Some(Ordering::Greater),
        !nan(a.0) && a.0 != INFINITY ==> a.quality(&worst) == Some(Ordering::Greater),
        nan(a.0) || a.0 == INFINITY ==> a.quality(&worst) == Some(Ordering::Equal),
{
}

/// Pareto dominance: at least as good on every criterion, and strictly better
/// on at least one.
pub proof fn lemma_pareto_dominates<const N: usize>(a: ParetoFitness<N>, b: ParetoFitness<N>)
    ensures
        a.quality(&b) == Some(Ordering::Greater) <==> {
            &&& forall|i: int| 0 <= i < N ==> (#[trigger] a.0@[i]).cost() <= b.0@[i].cost()
            &&& exists|i: int| 0 <= i < N && (#[trigger] a.0@[i]).cost() < b.0@[i].cost()
        },
{
    if a.quality(&b) == Some(Ordering::Greater) {
        assert forall|i: int| 0 <= i < N implies (#[trigger] a.0@[i]).cost() <= b.0@[i].cost() by {
            assert(b.0@[i] == b.0@[i]);
        }
    }
}

/// Pareto dominance is a strict partial order, and swapping reverses it.
pub proof fn lemma_pareto_order<const N: usize>(
    a: ParetoFitness<N>,
    b: ParetoFitness<N>,
    c: ParetoFitness<N>,
)
    ensures
        a.quality(&a) == Some(Ordering::Equal),
        a.quality(&b) == Some(Ordering::Greater) <==> b.quality(&a) == Some(Ordering::Less),
        a.quality(&b) is None <==> b.quality(&a) is None,
        a.quality(&b) == Some(Ordering::Greater) && b.quality(&c) == Some(Ordering::Greater)
            ==> a.quality(&c) == Some(Ordering::Greater),
{
    lemma_pareto_dominates(a, b);
    lemma_pareto_dominates(b, c);
    lemma_pareto_dominates(a, c);
    if a.quality(&b) == Some(Ordering::Greater) && b.quality(&c) == Some(Ordering::Greater) {
        let i = choose|i: int| 0 <= i < N && (#[trigger] a.0@[i]).cost() < b.0@[i].cost();
        assert(a.0@[i].cost() < c.0@[i].cost());
        assert forall|j: int| 0 <= j < N implies (#[trigger] a.0@[j]).cost() <= c.0@[j].cost() by {
            assert(b.0@[j].cost() <= c.0@[j].cost());
        }
    }
}

/// The worst fitness dominates none, and is dominated by every fitness with a
/// criterion below infinity.
pub proof fn lemma_pareto_worst<const N: usize>(a: ParetoFitness<N>, worst: ParetoFitness<N>)
    requires
        forall|i: int| 0 <= i < N ==> #[trigger] worst.0@[i] == ScalarFitness(INFINITY),
    ensures
        worst.quality(&a) != Some(Ordering::Greater),
        (exists|i: int|
            0 <= i < N && !nan((#[trigger] a.0@[i]).0) && a.0@[i].0 != INFINITY) ==> a.quality(
            &worst,
        ) == Some(Ordering::Greater),
{
    lemma_pareto_dominates(a, worst);
    lemma_pareto_dominates(worst, a);
    assert forall|i: int| 0 <= i < N implies (#[trigger] a.0@[i]).cost() <= worst.0@[i].cost() by {}
    if exists|i: int| 0 <= i < N && !nan((#[trigger] a.0@[i]).0) && a.0@[i].0 != INFINITY {
        let i = choose|i: int|
            0 <= i < N && !nan((#[trigger] a.0@[i]).0) && a.0@[i].0 != INFINITY;
        assert(a.0@[i].cost() < worst.0@[i].cost());
    }
}

/// Of two scalar fitnesses the one of lower value dominates, and equal values
/// are equally good. An infinite one is beyond all others on its side, and NaN
/// is as bad as positive infinity.
pub proof fn lemma_lower_dominates(a: Scalar, b: Scalar)
    ensures
        finite(a) && finite(b) ==> ScalarFitness(a).quality(&ScalarFitness(b)) == Some(
            if units(a) < units(b) {
                Ordering::Greater
            } else if units(a) > units(b) {
                Ordering::Less
            } else {
                Ordering::Equal
            },
        ),
        !nan(a) && !nan(b) ==> {
            &&& ScalarFitness(a).quality(&ScalarFitness(b)) == Some(Ordering::Greater) <==> less(a, b)
            &&& ScalarFitness(a).quality(&ScalarFitness(b)) == Some(Ordering::Less) <==> less(b, a)
        },
        nan(a) && !nan(b) && b != 0x7f80_0000 ==> {
            &&& ScalarFitness(a).quality(&ScalarFitness(b)) == Some(Ordering::Less)
            &&& ScalarFitness(b).quality(&ScalarFitness(a)) == Some(Ordering::Greater)
        },
        nan(a) && (nan(b) || b == 0x7f80_0000) ==> {
            &&& ScalarFitness(a).quality(&ScalarFitness(b)) == Some(Ordering::Equal)
            &&& ScalarFitness(b).quality(&ScalarFitness(a)) == Some(Ordering::Equal)
        },
{
    lemma_less(a, b);
    lemma_less(b, a);
}

/// Two scalar fitnesses compare as equal numbers exactly if neither is NaN and
/// neither is below the other; finite ones, if their values are equal.
pub proof fn lemma_scalar_equal(a: ScalarFitness, b: ScalarFitness)
    ensures
        PartialEqSpec::eq_spec(&a, &b) <==> !nan(a.0) && !nan(b.0) && !less(a.0, b.0) && !less(b.0, a.0),
        finite(a.0) && finite(b.0) ==> (PartialEqSpec::eq_spec(&a, &b) <==> units(a.0) == units(b.0)),
{
    lemma_less(a.0, b.0);
    lemma_less(b.0, a.0);
}

/// One fitness dominates another if none of its criteria is dominated by the
/// other's and one of them dominates it; two are a trade-off if each has a
/// criterion that dominates the other's; and they are equally good if all
/// criteria are.
pub proof fn lemma_criteria<const N: usize>(a: ParetoFitness<N>, b: ParetoFitness<N>)
    ensures
        a.quality(&b) == Some(Ordering::Greater) <==> {
            &&& exists|i: int|
                0 <= i < N && (#[trigger] a.0@[i]).quality(&b.0@[i]) == Some(Ordering::Greater)
            &&& forall|i: int|
                0 <= i < N ==> (#[trigger] a.0@[i]).quality(&b.0@[i]) != Some(Ordering::Less)
        },
        a.quality(&b) == Some(Ordering::Less) <==> {
            &&& exists|i: int|
                0 <= i < N && (#[trigger] a.0@[i]).quality(&b.0@[i]) == Some(Ordering::Less)
            &&& forall|i: int|
                0 <= i < N ==> (#[trigger] a.0@[i]).quality(&b.0@[i]) != Some(Ordering::Greater)
        },
        a.quality(&b) == Some(Ordering::Equal) <==> forall|i: int|
            0 <= i < N ==> (#[trigger] a.0@[i]).quality(&b.0@[i]) == Some(Ordering::Equal),
        a.quality(&b) is None <==> {
            &&& exists|i: int|
                0 <= i < N && (#[trigger] a.0@[i]).quality(&b.0@[i]) == Some(Ordering::Greater)
            &&& exists|i: int|
                0 <= i < N && (#[trigger] a.0@[i]).quality(&b.0@[i]) == Some(Ordering::Less)
        },
        PartialEqSpec::eq_spec(&a, &b) <==> forall|i: int| 0 <= i < N ==> PartialEqSpec::eq_spec(
            &(#[trigger] a.0@[i]),
            &b.0@[i],
        ),
{
    let better = a.better_somewhere(&b);
    let worse = b.better_somewhere(&a);
    assert(better <==> exists|i: int|
        0 <= i < N && (#[trigger] a.0@[i]).quality(&b.0@[i]) == Some(Ordering::Greater));
    assert(worse <==> exists|i: int|
        0 <= i < N && (#[trigger] a.0@[i]).quality(&b.0@[i]) == Some(Ordering::Less)) by {
        if worse {
            let i = choose|i: int| 0 <= i < N && (#[trigger] b.0@[i]).cost() < a.0@[i].cost();
            assert(a.0@[i].quality(&b.0@[i]) == Some(Ordering::Less));
        }
        if exists|i: int|
            0 <= i < N && (#[trigger] a.0@[i]).quality(&b.0@[i]) == Some(Ordering::Less) {
            let i = choose|i: int|
                0 <= i < N && (#[trigger] a.0@[i]).quality(&b.0@[i]) == Some(Ordering::Less);
            assert(b.0@[i].cost() < a.0@[i].cost());
        }
    }
}

/// One individual compares greater than another exactly if it is scored and
/// the other is not, or if its fitness dominates the other's. Swapping the two
/// reverses the comparison. So two compare equal if both are unscored, and if
/// both are scored and neither dominates: a trade-off compares equal.
pub proof fn lemma_compare_by_fitness<G: Genome, F: Fitness>(
    a: Scored<G, F>,
    b: Scored<G, F>,
    forth: Ordering,
    back: Ordering,
)
    requires
        call_ensures(compare_by_fitness::<G, F>, (&a, &b), forth),
        call_ensures(compare_by_fitness::<G, F>, (&b, &a), back),
        a.fitness matches Some(fa) ==> b.fitness matches Some(fb) ==> {
            &&& fa.quality(&fb) == Some(Ordering::Greater) <==> fb.quality(&fa) == Some(
                Ordering::Less,
            )
            &&& fb.quality(&fa) == Some(Ordering::Greater) <==> fa.quality(&fb) == Some(
                Ordering::Less,
            )
        },
    ensures
        forth == by_fitness(a, b),
        forth == Ordering::Greater <==> a.fitness is Some && (b.fitness is None
            || a.fitness->0.quality(&b.fitness->0) == Some(Ordering::Greater)),
        back == Ordering::Greater <==> b.fitness is Some && (a.fitness is None
            || b.fitness->0.quality(&a.fitness->0) == Some(Ordering::Greater)),
        forth == Ordering::Less <==> back == Ordering::Greater,
        back == Ordering::Less <==> forth == Ordering::Greater,
        a.fitness is Some && b.fitness is Some && a.fitness->0.quality(&b.fitness->0) is None
            ==> forth == Ordering::Equal,
{
}

/// Where what compares greater than something compares greater than all that
/// this does, and nothing compares greater than itself, nothing that was drawn
/// compares greater than the winner of a tournament. Trade-offs may compare
/// equal at will.
pub proof fn lemma_tournament_unbeaten<
    G: Genome,
    F: Fitness,
    C: Fn(&Scored<G, F>, &Scored<G, F>) -> Ordering,
>(
    items: Seq<Scored<G, F>>,
    draws: Seq<usize>,
    compare: C,
    order: spec_fn(Scored<G, F>, Scored<G, F>) -> Ordering,
    winner: usize,
)
    requires
        won_by(items, draws, compare, winner),
        forall|i: int| 0 <= i < draws.len() ==> (#[trigger] draws[i]) < items.len(),
        forall|i: int, j: int, answer: Ordering|
            0 <= i < items.len() && 0 <= j < items.len() && #[trigger] call_ensures(
                compare,
                (&items[i], &items[j]),
                answer,
            ) ==> answer == order(items[i], items[j]),
        forall|i: int, j: int, k: int|
            0 <= i < items.len() && 0 <= j < items.len() && 0 <= k < items.len()
                && #[trigger] order(items[i], items[j]) == Ordering::Greater && #[trigger] order(
                items[j],
                items[k],
            ) == Ordering::Greater ==> order(items[i], items[k]) == Ordering::Greater,
        forall|i: int|
            0 <= i < items.len() ==> #[trigger] order(items[i], items[i]) != Ordering::Greater,
    ensures
        draws.contains(winner),
        forall|i: int|
            0 <= i < draws.len() ==> order(
                item_at(items, #[trigger] draws[i]),
                item_at(items, winner),
            ) != Ordering::Greater,
    decreases draws.len(),
{
    if draws.len() > 1 {
        let shorter = draws.drop_last();
        let last = draws.last();
        let (holder, answer) = choose|holder: usize, answer: Ordering|
            {
                &&& won_by(items, shorter, compare, holder)
                &&& #[trigger] call_ensures(
                    compare,
                    (&item_at(items, last), &item_at(items, holder)),
                    answer,
                )
                &&& winner == if answer == Ordering::Greater {
                    last
                } else {
                    holder
                }
            };
        lemma_tournament_unbeaten(items, shorter, compare, order, holder);
        let h = shorter.index_of(holder);
        assert(shorter[h] == holder);
        assert(draws[h] == holder);
        assert(draws[draws.len() - 1] == last);
        assert(answer == order(item_at(items, last), item_at(items, holder)));
        assert forall|i: int| 0 <= i < draws.len() implies order(
            item_at(items, #[trigger] draws[i]),
            item_at(items, winner),
        ) != Ordering::Greater by {
            if i < shorter.len() {
                assert(shorter[i] == draws[i]);
                assert(order(item_at(items, shorter[i]), item_at(items, holder))
                    != Ordering::Greater);
            }
        }
    } else {
        assert(draws[0] == winner);
    }
}

/// Nothing that was drawn for a tournament by fitness is better than its
/// winner: not by Pareto dominance, and not by being scored where the winner
/// is not.
pub proof fn lemma_pareto_tournament<G: Genome, const N: usize>(
    items: Seq<Scored<G, ParetoFitness<N>>>,
    draws: Seq<usize>,
    winner: usize,
)
    requires
        won_by(items, draws, compare_by_fitness::<G, ParetoFitness<N>>, winner),
        forall|i: int| 0 <= i < draws.len() ==> (#[trigger] draws[i]) < items.len(),
    ensures
        draws.contains(winner),
        forall|i: int|
            0 <= i < draws.len() ==> {
                let drawn = item_at(items, #[trigger] draws[i]).fitness;
                let won = item_at(items, winner).fitness;
                &&& drawn is Some ==> won is Some
                &&& drawn is Some ==> drawn->0.quality(&won->0) != Some(Ordering::Greater)
            },
{
    let order = |a: Scored<G, ParetoFitness<N>>, b: Scored<G, ParetoFitness<N>>| by_fitness(a, b);
    assert forall|i: int, j: int, k: int|
        0 <= i < items.len() && 0 <= j < items.len() && 0 <= k < items.len() && #[trigger] order(
            items[i],
            items[j],
        ) == Ordering::Greater && #[trigger] order(items[j], items[k])
            == Ordering::Greater implies order(items[i], items[k]) == Ordering::Greater by {
        if items[k].fitness is Some {
            lemma_pareto_order(items[i].fitness->0, items[j].fitness->0, items[k].fitness->0);
        }
    }
    assert forall|i: int| 0 <= i < items.len() implies #[trigger] order(items[i], items[i])
        != Ordering::Greater by {
        if items[i].fitness is Some {
            lemma_pareto_order(items[i].fitness->0, items[i].fitness->0, items[i].fitness->0);
        }
    }
    lemma_tournament_unbeaten(
        items,
        draws,
        compare_by_fitness::<G, ParetoFitness<N>>,
        order,
        winner,
    );
    assert forall|i: int| 0 <= i < draws.len() implies {
        let drawn = item_at(items, #[trigger] draws[i]).fitness;
        let won = item_at(items, winner).fitness;
        &&& drawn is Some ==> won is Some
        &&& drawn is Some ==> drawn->0.quality(&won->0) != Some(Ordering::Greater)
    } by {
        assert(order(item_at(items, draws[i]), item_at(items, winner)) != Ordering::Greater);
    }
}

/// Whether one individual is better than another by scalar fitness: it is
/// scored and the other is not, or its fitness dominates.
pub open spec fn outdoes<G: Genome>(
    a: Scored<G, ScalarFitness>,
    b: Scored<G, ScalarFitness>,
) -> bool {
    a.fitness is Some && (b.fitness is None || a.fitness->0.quality(&b.fitness->0) == Some(
        Ordering::Greater,
    ))
}

/// The `k` best of a population scored by scalars are as many distinct
/// individuals as wanted and there, of which no later one is better than an
/// earlier one, and none that is left out is better than any of them.
pub proof fn lemma_k_best_of_scalars<G: Genome>(
    pop: &Population<G, ScalarFitness>,
    k: usize,
    r: Vec<&Scored<G, ScalarFitness>>,
)
    requires
        call_ensures(k_best_of::<G, ScalarFitness>, (pop, k), r),
    ensures
        r@.len() <= k,
        r@.len() <= pop@.len(),
        r@.len() == k || r@.len() == pop@.len(),
        exists|chosen: Seq<usize>|
            {
                &&& #[trigger] picked(pop@, chosen, r@)
                &&& chosen.no_duplicates()
                &&& chosen.len() == r@.len()
                &&& forall|i: int|
                    0 <= i < r@.len() ==> (#[trigger] chosen[i]) < pop@.len() && *r@[i] == item_at(
                        pop@,
                        chosen[i],
                    )
                &&& forall|i: int, j: int|
                    0 <= i < j < r@.len() ==> !outdoes(*(#[trigger] r@[j]), *(#[trigger] r@[i]))
                &&& forall|x: usize, i: int|
                    x < pop@.len() && !(#[trigger] chosen.contains(x)) && 0 <= i < r@.len()
                        ==> !outdoes(item_at(pop@, x), *(#[trigger] r@[i]))
            },
{
    let rank = |s: Scored<G, ScalarFitness>| scalar_rank(s);
    lemma_scalar_rank(pop@);
    let chosen = choose|chosen: Seq<usize>|
        {
            &&& #[trigger] picked(pop@, chosen, r@)
            &&& forall|rank: spec_fn(Scored<G, ScalarFitness>) -> int| #[trigger]
                agrees(pop@, rank) ==> best_first(pop@, chosen, rank)
        };
    assert(agrees(pop@, rank));
    assert(best_first(pop@, chosen, rank));
    assert forall|i: int| 0 <= i < r@.len() implies (#[trigger] chosen[i]) < pop@.len() && *r@[i]
        == item_at(pop@, chosen[i]) by {}
    assert forall|i: int, j: int| 0 <= i < j < r@.len() implies !outdoes(
        *(#[trigger] r@[j]),
        *(#[trigger] r@[i]),
    ) by {
        assert(rank(item_at(pop@, chosen[i])) >= rank(item_at(pop@, chosen[j])));
    }
    assert forall|x: usize, i: int|
        x < pop@.len() && !(#[trigger] chosen.contains(x)) && 0 <= i < r@.len() implies !outdoes(
        item_at(pop@, x),
        *(#[trigger] r@[i]),
    ) by {
        assert(rank(item_at(pop@, chosen[i])) >= rank(item_at(pop@, x)));
    }
}

/// The winner of a tournament among individuals scored by scalars is one of as
/// many that were drawn as wanted, at least one; none of them is better, and
/// it is better than those drawn before it first was.
pub proof fn lemma_tournament_of_scalars<G: Genome>(
    items: Seq<Scored<G, ScalarFitness>>,
    draws: Seq<usize>,
    k: usize,
    winner: usize,
)
    requires
        drawn(draws, k, items.len()),
        won_by(items, draws, compare_by_fitness::<G, ScalarFitness>, winner),
    ensures
        k > 0 ==> draws.len() == k,
        k == 0 ==> draws.len() == 1,
        exists|d: int|
            {
                &&& 0 <= d < draws.len()
                &&& #[trigger] draws[d] == winner
                &&& forall|i: int|
                    0 <= i < draws.len() ==> !outdoes(
                        item_at(items, #[trigger] draws[i]),
                        item_at(items, winner),
                    )
                &&& forall|i: int|
                    0 <= i < d ==> outdoes(
                        item_at(items, winner),
                        item_at(items, #[trigger] draws[i]),
                    )
            },
{
    let rank = |s: Scored<G, ScalarFitness>| scalar_rank(s);
    lemma_scalar_rank(items);
    assert(agrees(items, rank));
    assert(ranks(items, compare_by_fitness::<G, ScalarFitness>, rank));
    lemma_tournament_best(items, draws, compare_by_fitness::<G, ScalarFitness>, winner, rank);
    let best = item_at(items, winner);
    let d = choose|d: int|
        {
            &&& 0 <= d < draws.len()
            &&& #[trigger] draws[d] == winner
            &&& forall|e: int|
                0 <= e < d ==> rank(item_at(items, #[trigger] draws[e])) < rank(best)
            &&& forall|e: int|
                0 <= e < draws.len() ==> rank(item_at(items, #[trigger] draws[e])) <= rank(best)
        };
    assert(draws[d] == winner);
}

/// A tournament by scalar fitness draws as many positions as wanted among all,
/// at least one. Its winner is one of the individuals drawn, and none of them
/// is better.
pub proof fn lemma_k_tournament_of_scalars<G: Genome>(
    pop: &Population<G, ScalarFitness>,
    k: usize,
    r: &Scored<G, ScalarFitness>,
)
    requires
        pop@.len() > 0,
        exists|rng: &mut StdRng| #[trigger]
            call_ensures(k_tournament_selection::<G, ScalarFitness>, (pop, k, rng), r),
    ensures
        exists|draws: Seq<usize>| #[trigger] best_of_drawn(pop@, k, draws, *r),
{
    let rng = choose|rng: &mut StdRng| #[trigger]
        call_ensures(k_tournament_selection::<G, ScalarFitness>, (pop, k, rng), r);
    let (draws, states, winner) = choose|
        draws: Seq<usize>,
        states: Seq<StdRng>,
        winner: usize,
    |
        {
            &&& drawn(draws, k, pop@.len())
            &&& #[trigger] staged(draws, states)
            &&& states[0] == *rng
            &&& states.last() == *final(rng)
            &&& forall|i: int|
                0 <= i < draws.len() && (
                #[trigger] draws[i]) < pop@.len() ==> exists|state: &mut StdRng|
                    {
                        &&& *state == states[i]
                        &&& *final(state) == states[i + 1]
                        &&& #[trigger] may_pick_index(state, pop@.len(), draws[i])
                    }
            &&& *r == item_at(pop@, winner)
            &&& #[trigger] won_by(
                pop@,
                draws,
                compare_by_fitness::<G, ScalarFitness>,
                winner,
            )
        };
    lemma_tournament_of_scalars(pop@, draws, k, winner);
    assert(best_of_drawn(pop@, k, draws, *r)) by {
        assert forall|i: int| 0 <= i < draws.len() implies (#[trigger] draws[i]) < pop@.len()
            && drawn_below(pop@.len(), draws[i]) by {
            let state = choose|state: &mut StdRng|
                {
                    &&& *state == states[i]
                    &&& *final(state) == states[i + 1]
                    &&& #[trigger] may_pick_index(state, pop@.len(), draws[i])
                };
            assert(may_pick_index(state, pop@.len(), draws[i]));
        }
    }
}

/// Whether as many positions were drawn as wanted, at least one, each among all
/// of them, and `r` is one of the individuals drawn, of which none is better.
pub open spec fn best_of_drawn<G: Genome>(
    items: Seq<Scored<G, ScalarFitness>>,
    k: usize,
    draws: Seq<usize>,
    r: Scored<G, ScalarFitness>,
) -> bool {
    &&& k > 0 ==> draws.len() == k
    &&& k == 0 ==> draws.len() == 1
    &&& forall|i: int|
        0 <= i < draws.len() ==> (#[trigger] draws[i]) < items.len() && drawn_below(
            items.len(),
            draws[i],
        )
    &&& exists|i: int| 0 <= i < draws.len() && r == item_at(items, #[trigger] draws[i])
    &&& forall|i: int|
        0 <= i < draws.len() ==> !outdoes(item_at(items, #[trigger] draws[i]), r)
}

/// Whether `i` is a draw from `0..n`.
pub open spec fn drawn_below(n: nat, i: usize) -> bool {
    exists|state: &mut StdRng| #[trigger] may_pick_index(state, n, i)
}

} // verus!
