//! Random draws.

use crate::scalar::{drawable, finite, is_less, less};
use crate::types::Scalar;
use rand::rngs::StdRng;
use rand::Rng;
use vstd::prelude::*;

verus! {

/// The generator that draws are taken from.
#[verifier::external_type_specification]
#[verifier::external_body]
pub struct ExStdRng(rand::rngs::StdRng);

/// `Rng::random_range` over `0..n`: a draw from the range, which must not be
/// empty. Which one is left to the generator.
#[verifier::external_body]
pub(crate) fn random_index(rng: &mut StdRng, n: usize) -> (r: usize)
    requires
        n > 0,
    ensures
        r < n,
{
    rng.random_range(0..n)
}

/// `Rng::random_range` over the 16-bit range `0..n`: a draw from the range,
/// which must not be empty. Which one is left to the generator.
#[verifier::external_body]
pub(crate) fn random_u16(rng: &mut StdRng, n: u16) -> (r: u16)
    requires
        n > 0,
    ensures
        r < n,
{
    rng.random_range(0..n)
}

/// `Rng::random` of a boolean: either may come.
#[verifier::external_body]
pub(crate) fn random_coin(rng: &mut StdRng) -> (r: bool)
{
    rng.random::<bool>()
}

/// The draws of real numbers, and the arithmetic on what was drawn, that
/// generation and mutation need.
pub trait Reals {
    /// A draw from the uniform distribution over `[0, 1)`.
    fn unit(rng: &mut StdRng) -> Scalar;

    /// A draw from the uniform distribution over `[lo, hi)`.
    fn uniform(rng: &mut StdRng, lo: Scalar, hi: Scalar) -> Scalar
        requires
            drawable(lo, hi),
    ;

    /// The sum of `current` and of a draw from the normal distribution of mean
    /// 0 and the given standard deviation.
    fn jittered(rng: &mut StdRng, current: Scalar, stddev: Scalar) -> Scalar
        requires
            finite(stddev),
    ;

    /// What is left of `unit` times the sum of the weights, after the first
    /// weight is subtracted, after the first two, and so on.
    fn remainders(unit: Scalar, weights: &[Scalar]) -> Vec<Scalar>;
}

/// Whether `r` is what a call of [`random_u16`] on the generator may return for
/// a draw from `0..n`.
pub closed spec fn may_pick(rng: &mut StdRng, n: u16, r: u16) -> bool {
    call_ensures(random_u16, (rng, n), r)
}

/// Draws from the 16-bit range `0..n`, which must not be empty: the result, and
/// what becomes of the generator, are those of one call of [`random_u16`].
pub(crate) fn pick_u16(rng: &mut StdRng, n: u16) -> (r: u16)
    requires
        n > 0,
    ensures
        r < n,
        picks_u16(n, r),
        next_u16(*old(rng), n, r),
        exists|state: &mut StdRng|
            {
                &&& *state == *old(rng)
                &&& *final(state) == *final(rng)
                &&& #[trigger] may_pick(state, n, r)
            },
{
    let r = random_u16(rng, n);
    assert(forall|state: &mut StdRng| #[trigger]
        call_ensures(random_u16, (state, n), r) ==> may_pick(state, n, r));
    r
}

/// Whether `r` is what a call of [`random_index`] on the generator may return
/// for a draw from `0..n`.
pub closed spec fn may_pick_index(rng: &mut StdRng, n: nat, r: usize) -> bool {
    call_ensures(random_index, (rng, n as usize), r)
}

/// Draws from the range `0..n`, which must not be empty: the result, and what
/// becomes of the generator, are those of one call of [`random_index`].
pub(crate) fn pick_index(rng: &mut StdRng, n: usize) -> (r: usize)
    requires
        n > 0,
    ensures
        r < n,
        picks_index(n as nat, r as int),
        next_index(*old(rng), n as nat, r as int),
        exists|state: &mut StdRng|
            {
                &&& *state == *old(rng)
                &&& *final(state) == *final(rng)
                &&& #[trigger] may_pick_index(state, n as nat, r)
            },
{
    let r = random_index(rng, n);
    assert((n as nat) as usize == n && (r as int) as usize == r);
    assert(forall|state: &mut StdRng| #[trigger]
        call_ensures(random_index, (state, n), r) ==> may_pick_index(state, n as nat, r));
    r
}

/// Whether `side` is what a call of [`random_coin`] on the generator may
/// return.
pub closed spec fn may_flip(rng: &mut StdRng, side: bool) -> bool {
    call_ensures(random_coin, (rng,), side)
}

/// Tosses a fair coin: the result, and what becomes of the generator, are
/// those of one call of [`random_coin`].
pub(crate) fn flip(rng: &mut StdRng) -> (side: bool)
    ensures
        may_show(side),
        exists|state: &mut StdRng|
            {
                &&& *state == *old(rng)
                &&& *final(state) == *final(rng)
                &&& #[trigger] may_flip(state, side)
            },
{
    let side = random_coin(rng);
    assert(forall|state: &mut StdRng| #[trigger]
        call_ensures(random_coin, (state,), side) ==> may_flip(state, side));
    side
}

/// Whether some generator may give `r` for a draw from the 16-bit range `0..n`.
pub open spec fn picks_u16(n: u16, r: u16) -> bool {
    r < n && exists|rng: &mut StdRng| #[trigger] may_pick(rng, n, r)
}

/// Whether some generator may give `r` for a draw from the range `0..n`.
pub open spec fn picks_index(n: nat, r: int) -> bool {
    0 <= r < n <= usize::MAX && exists|rng: &mut StdRng| #[trigger]
        may_pick_index(rng, n, r as usize)
}

/// Whether a coin may show the given side for some generator.
pub open spec fn may_show(side: bool) -> bool {
    exists|rng: &mut StdRng| #[trigger] may_flip(rng, side)
}

/// Whether `x` may be one of `all` that was picked by a draw among their
/// positions.
pub open spec fn picks_one<T>(all: Seq<T>, x: T) -> bool {
    exists|i: int| #[trigger] picks_index(all.len(), i) && all[i] == x
}

/// Whether the generator may give `r` for its next draw, from the 16-bit range
/// `0..n`.
pub open spec fn next_u16(rng: StdRng, n: u16, r: u16) -> bool {
    r < n && exists|state: &mut StdRng| *state == rng && #[trigger] may_pick(state, n, r)
}

/// Whether the generator may give `r` for its next draw, from the range `0..n`.
pub open spec fn next_index(rng: StdRng, n: nat, r: int) -> bool {
    0 <= r < n <= usize::MAX && exists|state: &mut StdRng|
        *state == rng && #[trigger] may_pick_index(state, n, r as usize)
}

/// Whether `x` may be the one of `all` at the position that the generator
/// gives for its next draw.
pub open spec fn next_one<T>(rng: StdRng, all: Seq<T>, x: T) -> bool {
    exists|i: int| #[trigger] next_index(rng, all.len(), i) && all[i] == x
}

/// What was picked is one of them.
pub proof fn lemma_picks_one<T>(all: Seq<T>, x: T)
    requires
        picks_one(all, x),
    ensures
        all.contains(x),
{
    let i = choose|i: int| #[trigger] picks_index(all.len(), i) && all[i] == x;
    assert(all[i] == x);
}

/// Whether `value` may be drawn from `[lo, hi)`.
pub open spec fn may_draw<R: Reals>(lo: Scalar, hi: Scalar, value: Scalar) -> bool {
    exists|rng: &mut StdRng| #[trigger] call_ensures(R::uniform, (rng, lo, hi), value)
}

/// Whether a draw that is to succeed with probability `p` may have the given
/// outcome.
pub open spec fn may_toss<R: Reals>(p: Scalar, outcome: bool) -> bool {
    exists|rng: &mut StdRng, unit: Scalar| #[trigger]
        call_ensures(R::unit, (rng,), unit) && less(unit, p) == outcome
}

/// Whether the generator's next draw, which is to succeed with probability
/// `p`, may have the given outcome.
pub open spec fn next_toss<R: Reals>(rng: StdRng, p: Scalar, outcome: bool) -> bool {
    exists|state: &mut StdRng, unit: Scalar|
        *state == rng && #[trigger] call_ensures(R::unit, (state,), unit) && less(unit, p)
            == outcome
}

/// Whether `value` may come of adding noise of the given standard deviation,
/// the generator's next draw, to `current`.
pub open spec fn next_jitter<R: Reals>(
    rng: StdRng,
    current: Scalar,
    stddev: Scalar,
    value: Scalar,
) -> bool {
    exists|state: &mut StdRng|
        *state == rng && #[trigger] call_ensures(R::jittered, (state, current, stddev), value)
}

/// Whether `left` may be what is left, after each of the weights, of the part
/// `unit` of their sum.
pub open spec fn may_leave<R: Reals>(unit: Scalar, weights: Seq<Scalar>, left: Seq<Scalar>) -> bool {
    exists|slice: &[Scalar], remainders: Vec<Scalar>|
        {
            &&& #[trigger] call_ensures(R::remainders, (unit, slice), remainders)
            &&& slice@ == weights
            &&& remainders@ == left
        }
}

/// Draws with probability `p` of success: one draw from `[0, 1)` succeeds if
/// it is below `p`.
pub(crate) fn toss<R: Reals>(rng: &mut StdRng, p: Scalar) -> (r: bool)
    ensures
        may_toss::<R>(p, r),
        next_toss::<R>(*old(rng), p, r),
        exists|state: &mut StdRng, unit: Scalar|
            {
                &&& *state == *old(rng)
                &&& *final(state) == *final(rng)
                &&& #[trigger] call_ensures(R::unit, (state,), unit)
                &&& r == less(unit, p)
            },
{
    let unit = R::unit(rng);
    is_less(unit, p)
}

/// The draws that contracts speak of are those of the generator's own range
/// and coin: of the whole range, with the coin as it falls.
pub(crate) proof fn lemma_draws()
    ensures
        forall|rng: &mut StdRng, n: usize, r: usize| #[trigger]
            may_pick_index(rng, n as nat, r) <==> call_ensures(random_index, (rng, n), r),
        forall|rng: &mut StdRng, n: u16, r: u16| #[trigger]
            may_pick(rng, n, r) <==> call_ensures(random_u16, (rng, n), r),
        forall|rng: &mut StdRng, side: bool| #[trigger]
            may_flip(rng, side) <==> call_ensures(random_coin, (rng,), side),
{
    assert forall|rng: &mut StdRng, n: usize, r: usize| #[trigger]
        may_pick_index(rng, n as nat, r) <==> call_ensures(random_index, (rng, n), r) by {
        assert((n as nat) as usize == n);
    }
}

} // verus!
