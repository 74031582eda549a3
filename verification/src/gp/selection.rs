//! Selection of the best items of a slice by a given preference.

use crate::random::{may_pick_index, pick_index};
use rand::rngs::StdRng;
use vstd::prelude::*;

verus! {

/// Whether `better`, of any two of the items, prefers exactly the one of
/// higher rank.
pub open spec fn prefers<T, B: Fn(&T, &T) -> bool>(
    items: Seq<T>,
    better: B,
    rank: spec_fn(T) -> int,
) -> bool {
    forall|i: int, j: int, answer: bool|
        0 <= i < items.len() && 0 <= j < items.len() && #[trigger] call_ensures(
            better,
            (&items[i], &items[j]),
            answer,
        ) ==> answer == (rank(items[i]) > rank(items[j]))
}

/// Whether the chosen items come best first, and no other is better than any
/// of them.
pub open spec fn best_first<T>(items: Seq<T>, chosen: Seq<usize>, rank: spec_fn(T) -> int) -> bool {
    &&& forall|i: int, j: int|
        0 <= i < j < chosen.len() ==> rank(items[(#[trigger] chosen[i]) as int]) >= rank(
            items[(#[trigger] chosen[j]) as int],
        )
    &&& forall|x: usize, j: int|
        x < items.len() && !(#[trigger] chosen.contains(x)) && 0 <= j < chosen.len() ==> rank(
            items[(#[trigger] chosen[j]) as int],
        ) >= rank(items[x as int])
}

/// The smaller of two numbers.
pub open spec fn at_most(n: nat, most: nat) -> nat {
    if n < most {
        n
    } else {
        most
    }
}

/// Whether the chosen positions are distinct ones of the first `n`.
pub open spec fn distinct_below(chosen: Seq<usize>, n: nat) -> bool {
    &&& chosen.no_duplicates()
    &&& forall|i: int| 0 <= i < chosen.len() ==> (#[trigger] chosen[i]) < n
}

/// The chosen positions with `x` at `pos`, and without the last one if they
/// are then more than `k`.
pub open spec fn inserted(chosen: Seq<usize>, pos: int, x: usize, k: nat) -> Seq<usize> {
    let wider = chosen.insert(pos, x);
    if wider.len() > k {
        wider.drop_last()
    } else {
        wider
    }
}

/// Inserting an item where it ranks keeps the chosen ones the best.
proof fn lemma_best_insert<T>(
    items: Seq<T>,
    n: nat,
    chosen: Seq<usize>,
    pos: int,
    x: usize,
    k: nat,
    rank: spec_fn(T) -> int,
)
    requires
        n < items.len(),
        x == n,
        distinct_below(chosen, n),
        chosen.len() == at_most(n, k),
        best_first(items.take(n as int), chosen, rank),
        0 <= pos <= chosen.len(),
        pos < k,
        forall|q: int| pos <= q < chosen.len() ==> rank(items[x as int]) > rank(
            items[(#[trigger] chosen[q]) as int],
        ),
        pos > 0 ==> rank(items[x as int]) <= rank(items[chosen[pos - 1] as int]),
    ensures
        best_first(items.take(n as int + 1), inserted(chosen, pos, x, k), rank),
{
    let wider = chosen.insert(pos, x);
    let new = inserted(chosen, pos, x, k);
    let seen = items.take(n as int);
    let all = items.take(n as int + 1);
    assert forall|i: int| 0 <= i < chosen.len() implies rank(all[(#[trigger] chosen[i]) as int])
        == rank(seen[chosen[i] as int]) by {}
    assert forall|i: int, j: int| 0 <= i < j < new.len() implies rank(
        all[(#[trigger] new[i]) as int],
    ) >= rank(all[(#[trigger] new[j]) as int]) by {
        let a = if i < pos {
            i
        } else {
            i - 1
        };
        let b = if j < pos {
            j
        } else {
            j - 1
        };
        if i != pos {
            assert(new[i] == chosen[a]);
        }
        if j != pos {
            assert(new[j] == chosen[b]);
        }
        if i == pos {
            assert(rank(all[x as int]) > rank(all[chosen[b] as int]));
        } else if j == pos {
            assert(rank(seen[chosen[pos - 1] as int]) >= rank(all[x as int]));
            if i < pos - 1 {
                assert(rank(seen[chosen[i] as int]) >= rank(seen[chosen[pos - 1] as int]));
            }
        } else {
            assert(rank(seen[chosen[a] as int]) >= rank(seen[chosen[b] as int]));
        }
    }
    assert forall|y: usize, j: int|
        y < all.len() && !(#[trigger] new.contains(y)) && 0 <= j < new.len() implies rank(
        all[(#[trigger] new[j]) as int],
    ) >= rank(all[y as int]) by {
        let b = if j < pos {
            j
        } else {
            j - 1
        };
        if j != pos {
            assert(new[j] == chosen[b]);
        }
        assert(wider[pos] == x);
        if chosen.contains(y) {
            let c = chosen.index_of(y);
            let d = if c < pos {
                c
            } else {
                c + 1
            };
            assert(wider[d] == y);
            // The only one of the chosen that is left out is the last.
            assert(d == wider.len() - 1) by {
                if d < new.len() {
                    assert(new[d] == y);
                }
            }
            assert(c == chosen.len() - 1);
            if j == pos {
                assert(rank(items[x as int]) > rank(items[chosen[c] as int]));
            } else if b < c {
                assert(rank(seen[chosen[b] as int]) >= rank(seen[chosen[c] as int]));
            }
        } else {
            if y == x {
                assert(pos < new.len());
                assert(new[pos] == x);
            }
            assert(y < n);
            assert(!chosen.contains(y));
            // Something was left out before, so as many as wanted are chosen.
            assert(chosen.len() == k) by {
                if chosen.len() < k {
                    lemma_all_chosen(chosen, n, y);
                }
            }
            if j == pos {
                let c = chosen.len() - 1;
                assert(rank(items[x as int]) > rank(items[chosen[c] as int]));
                assert(rank(seen[chosen[c] as int]) >= rank(seen[y as int]));
            } else {
                assert(rank(seen[chosen[b] as int]) >= rank(seen[y as int]));
            }
        }
    }
}

/// As many distinct positions as there are leave none out.
proof fn lemma_all_chosen(chosen: Seq<usize>, n: nat, y: usize)
    requires
        distinct_below(chosen, n),
        chosen.len() == n,
        y < n,
    ensures
        chosen.contains(y),
{
    let f = |u: usize| u as int;
    let numbers = chosen.map_values(f);
    assert(numbers.no_duplicates());
    numbers.unique_seq_to_set();
    let range = vstd::set_lib::set_int_range(0, n as int);
    vstd::set_lib::lemma_int_range(0, n as int);
    assert(numbers.to_set().subset_of(range)) by {
        assert forall|v: int| numbers.to_set().contains(v) implies range.contains(v) by {
            let i = numbers.index_of(v);
            assert(chosen[i] < n);
        }
    }
    vstd::set_lib::lemma_subset_equality(numbers.to_set(), range);
    assert(numbers.to_set().contains(y as int));
    let i = numbers.index_of(y as int);
    assert(chosen[i] == y);
}

/// The positions of the `k` best items, best first, all of them if there are
/// fewer. Which of equally good items are among them is left open.
pub fn select_best<T, B: Fn(&T, &T) -> bool>(items: &[T], k: usize, better: B) -> (r: Vec<usize>)
    requires
        forall|i: int, j: int|
            0 <= i < items@.len() && 0 <= j < items@.len() ==> #[trigger] call_requires(
                better,
                (&items@[i], &items@[j]),
            ),
    ensures
        r@.len() == choice_len(items@.len(), k),
        distinct_below(r@, items@.len()),
        forall|rank: spec_fn(T) -> int| #[trigger]
            prefers(items@, better, rank) ==> best_first(items@, r@, rank),
{
    let mut chosen: Vec<usize> = Vec::new();
    let mut i: usize = 0;
    while i < items.len()
        invariant
            i <= items@.len(),
            forall|i: int, j: int|
                0 <= i < items@.len() && 0 <= j < items@.len() ==> #[trigger] call_requires(
                    better,
                    (&items@[i], &items@[j]),
                ),
            chosen@.len() == at_most(i as nat, k as nat),
            distinct_below(chosen@, i as nat),
            forall|rank: spec_fn(T) -> int| #[trigger]
                prefers(items@, better, rank) ==> best_first(items@.take(i as int), chosen@, rank),
        decreases items.len() - i,
    {
        let ghost before = chosen@;
        let mut pos: usize = chosen.len();
        loop
            invariant
                pos <= chosen@.len(),
                i < items@.len(),
                chosen@ == before,
                distinct_below(before, i as nat),
                forall|i: int, j: int|
                    0 <= i < items@.len() && 0 <= j < items@.len() ==> #[trigger] call_requires(
                        better,
                        (&items@[i], &items@[j]),
                    ),
                forall|rank: spec_fn(T) -> int, q: int|
                    #![trigger prefers(items@, better, rank), before[q]]
                    prefers(items@, better, rank) && pos <= q < before.len() ==> rank(items@[i as int])
                        > rank(items@[before[q] as int]),
            ensures
                forall|rank: spec_fn(T) -> int| #[trigger]
                    prefers(items@, better, rank) && pos > 0 ==> rank(items@[i as int]) <= rank(
                        items@[before[pos - 1] as int],
                    ),
            decreases pos,
        {
            if pos == 0 {
                break;
            }
            let ahead = better(&items[i], &items[chosen[pos - 1]]);
            if !ahead {
                break;
            }
            pos -= 1;
        }
        if pos < k {
            proof {
                assert forall|rank: spec_fn(T) -> int| #[trigger]
                    prefers(items@, better, rank) implies best_first(
                    items@.take(i + 1),
                    inserted(before, pos as int, i, k as nat),
                    rank,
                ) by {
                    lemma_best_insert(
                        items@,
                        i as nat,
                        before,
                        pos as int,
                        i,
                        k as nat,
                        rank,
                    );
                }
                assert forall|a: int, b: int|
                    0 <= a < b <= before.len() implies before.insert(pos as int, i)[a]
                    != before.insert(pos as int, i)[b] by {}
            }
            chosen.insert(pos, i);
            if chosen.len() > k {
                let _ = chosen.pop();
            }
        } else {
            proof {
                assert forall|rank: spec_fn(T) -> int| #[trigger]
                    prefers(items@, better, rank) implies best_first(
                    items@.take(i + 1),
                    before,
                    rank,
                ) by {
                    lemma_best_skip(items@, i as nat, before, i, rank);
                }
            }
        }
        i += 1;
    }
    assert(items@.take(i as int) == items@);
    chosen
}

/// Leaving out an item that is not better than the worst chosen one keeps the
/// chosen ones the best.
proof fn lemma_best_skip<T>(
    items: Seq<T>,
    n: nat,
    chosen: Seq<usize>,
    x: usize,
    rank: spec_fn(T) -> int,
)
    requires
        n < items.len(),
        x == n,
        distinct_below(chosen, n),
        best_first(items.take(n as int), chosen, rank),
        chosen.len() > 0 ==> rank(items[x as int]) <= rank(items[chosen.last() as int]),
    ensures
        best_first(items.take(n as int + 1), chosen, rank),
{
    let seen = items.take(n as int);
    let all = items.take(n as int + 1);
    assert forall|i: int, j: int| 0 <= i < j < chosen.len() implies rank(
        all[(#[trigger] chosen[i]) as int],
    ) >= rank(all[(#[trigger] chosen[j]) as int]) by {
        assert(rank(seen[chosen[i] as int]) >= rank(seen[chosen[j] as int]));
    }
    assert forall|y: usize, j: int|
        y < all.len() && !(#[trigger] chosen.contains(y)) && 0 <= j < chosen.len() implies rank(
        all[(#[trigger] chosen[j]) as int],
    ) >= rank(all[y as int]) by {
        let last = chosen.len() - 1;
        if y == x {
            if j < last {
                assert(rank(seen[chosen[j] as int]) >= rank(seen[chosen[last] as int]));
            }
        } else {
            assert(rank(seen[chosen[j] as int]) >= rank(seen[y as int]));
        }
    }
}

/// The item at position `i`.
pub open spec fn item_at<T>(items: Seq<T>, i: usize) -> T {
    items[i as int]
}

/// Number of items chosen when `k` of `n` are wanted.
pub open spec fn choice_len(n: nat, k: usize) -> nat {
    at_most(n, k as nat)
}

/// Number of positions drawn for a tournament of size `k`: at least one.
pub open spec fn draw_count(k: usize) -> nat {
    if k == 0 {
        1
    } else {
        k as nat
    }
}

/// Whether `picked` are the items at the chosen positions, which are distinct.
pub open spec fn picked<T>(items: Seq<T>, chosen: Seq<usize>, r: Seq<&T>) -> bool {
    &&& distinct_below(chosen, items.len())
    &&& r.len() == chosen.len()
    &&& forall|i: int| 0 <= i < r.len() ==> *(#[trigger] r[i]) == items[chosen[i] as int]
}

/// Whether the positions drawn are as many as wanted, and exist.
pub open spec fn drawn(draws: Seq<usize>, k: usize, n: nat) -> bool {
    &&& draws.len() == draw_count(k)
    &&& forall|i: int| 0 <= i < draws.len() ==> (#[trigger] draws[i]) < n
}

/// Whether `winner` is the first of the best that were drawn.
pub open spec fn first_best<T>(
    items: Seq<T>,
    draws: Seq<usize>,
    winner: usize,
    rank: spec_fn(T) -> int,
) -> bool {
    exists|d: int|
        {
            &&& 0 <= d < draws.len()
            &&& #[trigger] draws[d] == winner
            &&& forall|e: int|
                0 <= e < d ==> rank(items[(#[trigger] draws[e]) as int]) < rank(
                    items[winner as int],
                )
            &&& forall|e: int|
                0 <= e < draws.len() ==> rank(items[(#[trigger] draws[e]) as int]) <= rank(
                    items[winner as int],
                )
        }
}

/// Whether `winner` may be left of a tournament over the drawn positions: each
/// one after the first displaces the one before if it is preferred to it.
pub open spec fn won<T, B: Fn(&T, &T) -> bool>(
    items: Seq<T>,
    draws: Seq<usize>,
    better: B,
    winner: usize,
) -> bool
    decreases draws.len(),
{
    if draws.len() <= 1 {
        draws.len() == 1 && winner == draws[0]
    } else {
        exists|holder: usize, answer: bool|
            {
                &&& won(items, draws.drop_last(), better, holder)
                &&& #[trigger] call_ensures(
                    better,
                    (&items[draws.last() as int], &items[holder as int]),
                    answer,
                )
                &&& winner == if answer {
                    draws.last()
                } else {
                    holder
                }
            }
    }
}

/// The last round of a tournament: who held the place, and whether the last
/// one drawn was preferred.
pub proof fn lemma_last_round<T, B: Fn(&T, &T) -> bool>(
    items: Seq<T>,
    draws: Seq<usize>,
    better: B,
    winner: usize,
) -> (round: (usize, bool))
    requires
        draws.len() > 1,
        won(items, draws, better, winner),
    ensures
        won(items, draws.drop_last(), better, round.0),
        call_ensures(
            better,
            (&item_at(items, draws.last()), &item_at(items, round.0)),
            round.1,
        ),
        winner == if round.1 {
            draws.last()
        } else {
            round.0
        },
{
    choose|holder: usize, answer: bool|
        {
            &&& won(items, draws.drop_last(), better, holder)
            &&& #[trigger] call_ensures(
                better,
                (&items[draws.last() as int], &items[holder as int]),
                answer,
            )
            &&& winner == if answer {
                draws.last()
            } else {
                holder
            }
        }
}

/// One more round leaves the first of the best, if it goes to the one drawn
/// last only where that one ranks higher.
pub proof fn lemma_first_best_round<T>(
    items: Seq<T>,
    draws: Seq<usize>,
    holder: usize,
    winner: usize,
    higher: bool,
    rank: spec_fn(T) -> int,
)
    requires
        draws.len() > 1,
        first_best(items, draws.drop_last(), holder, rank),
        higher == (rank(items[draws.last() as int]) > rank(items[holder as int])),
        winner == if higher {
            draws.last()
        } else {
            holder
        },
    ensures
        first_best(items, draws, winner, rank),
{
    let shorter = draws.drop_last();
    let d = choose|d: int|
        {
            &&& 0 <= d < shorter.len()
            &&& #[trigger] shorter[d] == holder
            &&& forall|e: int|
                0 <= e < d ==> rank(items[(#[trigger] shorter[e]) as int]) < rank(
                    items[holder as int],
                )
            &&& forall|e: int|
                0 <= e < shorter.len() ==> rank(items[(#[trigger] shorter[e]) as int]) <= rank(
                    items[holder as int],
                )
        };
    let last = draws.len() - 1;
    assert(forall|e: int| 0 <= e < last ==> shorter[e] == #[trigger] draws[e]);
    if higher {
        assert(draws[last] == winner);
    } else {
        assert(draws[d] == winner);
    }
}

/// The winner of a tournament is the first of the best that were drawn.
pub proof fn lemma_won<T, B: Fn(&T, &T) -> bool>(
    items: Seq<T>,
    draws: Seq<usize>,
    better: B,
    winner: usize,
    rank: spec_fn(T) -> int,
)
    requires
        won(items, draws, better, winner),
        forall|i: int| 0 <= i < draws.len() ==> (#[trigger] draws[i]) < items.len(),
        prefers(items, better, rank),
    ensures
        first_best(items, draws, winner, rank),
    decreases draws.len(),
{
    if draws.len() > 1 {
        let shorter = draws.drop_last();
        let (holder, answer) = lemma_last_round(items, draws, better, winner);
        lemma_won(items, shorter, better, holder, rank);
        lemma_first_best_round(items, draws, holder, winner, answer, rank);
    } else {
        assert(draws[0] == winner);
    }
}

/// The winner of a tournament over the drawn positions.
pub fn tournament<T, B: Fn(&T, &T) -> bool>(
    items: &[T],
    draws: &[usize],
    better: B,
) -> (winner: usize)
    requires
        draws@.len() > 0,
        forall|i: int| 0 <= i < draws@.len() ==> (#[trigger] draws@[i]) < items@.len(),
        forall|i: int, j: int|
            0 <= i < items@.len() && 0 <= j < items@.len() ==> #[trigger] call_requires(
                better,
                (&items@[i], &items@[j]),
            ),
    ensures
        won(items@, draws@, better, winner),
        winner < items@.len(),
{
    let mut best: usize = draws[0];
    let mut i: usize = 1;
    assert(draws@.take(1) == seq![draws@[0]]);
    while i < draws.len()
        invariant
            1 <= i <= draws@.len(),
            forall|j: int| 0 <= j < draws@.len() ==> (#[trigger] draws@[j]) < items@.len(),
            forall|a: int, b: int|
                0 <= a < items@.len() && 0 <= b < items@.len() ==> #[trigger] call_requires(
                    better,
                    (&items@[a], &items@[b]),
                ),
            best < items@.len(),
            won(items@, draws@.take(i as int), better, best),
        decreases draws.len() - i,
    {
        let candidate: usize = draws[i];
        let ghost holder = best;
        let answer = better(&items[candidate], &items[best]);
        if answer {
            best = candidate;
        }
        proof {
            let next = draws@.take(i + 1);
            assert(next.drop_last() == draws@.take(i as int));
            assert(next.last() == candidate);
            assert(won(items@, next.drop_last(), better, holder));
            assert(call_ensures(
                better,
                (&items@[next.last() as int], &items@[holder as int]),
                answer,
            ));
        }
        i += 1;
    }
    assert(draws@.take(i as int) == draws@);
    best
}

/// Whether the generator's states are those before, between and after the
/// draws.
pub open spec fn staged(draws: Seq<usize>, states: Seq<StdRng>) -> bool {
    states.len() == draws.len() + 1
}

/// Draws `k` positions below `n` at random, with replacement; one if `k` is
/// zero. The generator goes from state to state, by one draw each.
pub fn draw_positions(n: usize, k: usize, rng: &mut StdRng) -> (r: Vec<usize>)
    requires
        n > 0,
    ensures
        drawn(r@, k, n as nat),
        exists|states: Seq<StdRng>|
            {
                &&& #[trigger] staged(r@, states)
                &&& states[0] == *old(rng)
                &&& states.last() == *final(rng)
                &&& forall|i: int|
                    0 <= i < r@.len() && (#[trigger] r@[i]) < n ==> exists|state: &mut StdRng|
                        {
                            &&& *state == states[i]
                            &&& *final(state) == states[i + 1]
                            &&& #[trigger] may_pick_index(state, n as nat, r@[i])
                        }
            },
{
    let mut draws: Vec<usize> = Vec::new();
    draws.push(pick_index(rng, n));
    let ghost mut states: Seq<StdRng> = seq![*old(rng), *rng];
    while draws.len() < k
        invariant
            n > 0,
            draws@.len() >= 1,
            draws@.len() <= draw_count(k),
            forall|i: int| 0 <= i < draws@.len() ==> (#[trigger] draws@[i]) < n,
            staged(draws@, states),
            states[0] == *old(rng),
            states.last() == *rng,
            forall|i: int|
                0 <= i < draws@.len() && (#[trigger] draws@[i]) < n ==> exists|state: &mut StdRng|
                    {
                        &&& *state == states[i]
                        &&& *final(state) == states[i + 1]
                        &&& #[trigger] may_pick_index(state, n as nat, draws@[i])
                    },
        decreases k - draws.len(),
    {
        let ghost before = draws@;
        let ghost passed = states;
        draws.push(pick_index(rng, n));
        proof {
            states = passed.push(*rng);
            assert forall|i: int|
                0 <= i < draws@.len() && (
                #[trigger] draws@[i]) < n implies exists|state: &mut StdRng|
                {
                    &&& *state == states[i]
                    &&& *final(state) == states[i + 1]
                    &&& #[trigger] may_pick_index(state, n as nat, draws@[i])
                } by {
                if i < before.len() {
                    assert(draws@[i] == before[i]);
                    assert(states[i] == passed[i] && states[i + 1] == passed[i + 1]);
                }
            }
        }
    }
    draws
}

/// A tournament over `k` positions drawn at random, with replacement; over one
/// if `k` is zero.
pub fn random_tournament<T, B: Fn(&T, &T) -> bool>(
    items: &[T],
    k: usize,
    rng: &mut StdRng,
    better: B,
) -> (winner: usize)
    requires
        items@.len() > 0,
        forall|i: int, j: int|
            0 <= i < items@.len() && 0 <= j < items@.len() ==> #[trigger] call_requires(
                better,
                (&items@[i], &items@[j]),
            ),
    ensures
        winner < items@.len(),
        exists|draws: Seq<usize>, states: Seq<StdRng>|
            {
                &&& drawn(draws, k, items@.len())
                &&& #[trigger] staged(draws, states)
                &&& states[0] == *old(rng)
                &&& states.last() == *final(rng)
                &&& forall|i: int|
                    0 <= i < draws.len() && (#[trigger] draws[i]) < items@.len() ==> exists|state: &mut StdRng|
                        {
                            &&& *state == states[i]
                            &&& *final(state) == states[i + 1]
                            &&& #[trigger] may_pick_index(state, items@.len(), draws[i])
                        }
                &&& won(items@, draws, better, winner)
            },
{
    let draws = draw_positions(items.len(), k, rng);
    let winner: usize = tournament(items, draws.as_slice(), better);
    assert(won(items@, draws@, better, winner));
    winner
}

/// References to the items at the given positions.
pub fn pick_all<'a, T>(items: &'a [T], chosen: &[usize]) -> (r: Vec<&'a T>)
    requires
        forall|i: int| 0 <= i < chosen@.len() ==> (#[trigger] chosen@[i]) < items@.len(),
    ensures
        r@.len() == chosen@.len(),
        forall|i: int| 0 <= i < r@.len() ==> *(#[trigger] r@[i]) == items@[chosen@[i] as int],
        distinct_below(chosen@, items@.len()) ==> picked(items@, chosen@, r@),
{
    let mut out: Vec<&'a T> = Vec::new();
    let mut i: usize = 0;
    while i < chosen.len()
        invariant
            i <= chosen@.len(),
            forall|j: int| 0 <= j < chosen@.len() ==> (#[trigger] chosen@[j]) < items@.len(),
            out@.len() == i,
            forall|j: int|
                0 <= j < out@.len() ==> *(#[trigger] out@[j]) == items@[chosen@[j] as int],
        decreases chosen.len() - i,
    {
        out.push(&items[chosen[i]]);
        i += 1;
    }
    out
}

} // verus!
