//! The random number generator of the games and searches: `rand`'s `SmallRng`.

use rand::rngs::SmallRng;
use rand::seq::SliceRandom;
use rand::{Rng, SeedableRng};
use vstd::prelude::*;

verus! {

/// `rand::rngs::SmallRng`, a small seedable generator. Nothing is said of its state.
#[verifier::external_type_specification]
#[verifier::external_body]
pub struct ExSmallRng(SmallRng);

/// Calls `SmallRng::seed_from_u64`. It returns for every seed. Nothing is claimed of
/// the stream that follows: `rand` does not promise the same one on all machines.
#[verifier::external_body]
fn seeded(seed: u64) -> (rng: SmallRng)
{
    SmallRng::seed_from_u64(seed)
}

/// `rng` is a generator that `SmallRng::seed_from_u64` gives for this seed.
pub closed spec fn is_seeded(seed: u64, rng: SmallRng) -> bool {
    call_ensures(seeded, (seed,), rng)
}

/// A generator that starts from a seed.
pub(crate) fn generator(seed: u64) -> (rng: SmallRng)
    ensures
        is_seeded(seed, rng),
{
    seeded(seed)
}

/// Calls `Rng::random_range` on the range `0..n`, which panics on an empty range, and
/// claims that the number drawn lies in it. Which one it is depends on the state of
/// the generator. The generator comes back in the state that the call leaves it in.
#[verifier::external_body]
fn random_below(rng: SmallRng, n: usize) -> (r: (usize, SmallRng))
    requires
        n > 0,
    ensures
        r.0 < n,
{
    let mut rng = rng;
    let k = rng.random_range(0..n);
    (k, rng)
}

/// Calls `Rng::random` for a `u64`, the 64 bits from which `rand` also takes its
/// uniform doubles. Nothing is claimed of them: every word can come. The generator comes
/// back in the state that the call leaves it in.
#[verifier::external_body]
fn random_word(rng: SmallRng) -> (r: (u64, SmallRng))
{
    let mut rng = rng;
    let word = rng.random::<u64>();
    (word, rng)
}

/// Calls `SliceRandom::shuffle`, which only swaps elements, and claims that the same
/// elements remain, each as often as before. Their order depends on the state of the
/// generator. The generator comes back in the state that the call leaves it in.
#[verifier::external_body]
fn random_order<T>(items: Vec<T>, rng: SmallRng) -> (r: (Vec<T>, SmallRng))
    ensures
        r.0@.to_multiset() == items@.to_multiset(),
{
    let mut items = items;
    let mut rng = rng;
    items.shuffle(&mut rng);
    (items, rng)
}

/// `k` is a number below `n` that is drawn from the generator `before`, which is `after`
/// then.
pub closed spec fn draws_below(before: SmallRng, n: usize, k: usize, after: SmallRng) -> bool {
    call_ensures(random_below, (before, n), (k, after))
}

/// `word` is a word that is drawn from the generator `before`, which is `after` then.
pub closed spec fn draws_word(before: SmallRng, word: u64, after: SmallRng) -> bool {
    call_ensures(random_word, (before,), (word, after))
}

/// `shuffled` are the items in an order that is drawn from the generator `before`, which is
/// `after` then.
pub closed spec fn draws_order<T>(
    before: SmallRng,
    items: Seq<T>,
    shuffled: Seq<T>,
    after: SmallRng,
) -> bool {
    exists|a: Vec<T>, b: Vec<T>|
        a@ == items && b@ == shuffled && #[trigger] call_ensures(
            random_order::<T>,
            (a, before),
            (b, after),
        )
}

/// Takes a generator out of its place, to be moved on and put back. Until then another one
/// stands there, which nobody draws from.
pub(crate) fn lift(rng: &mut SmallRng) -> (r: SmallRng)
    ensures
        r == *old(rng),
{
    let mut spare = seeded(0);
    std::mem::swap(rng, &mut spare);
    spare
}

/// Draws a number below `n`.
pub(crate) fn draw_below(rng: &mut SmallRng, n: usize) -> (k: usize)
    requires
        n > 0,
    ensures
        k < n,
        draws_below(*old(rng), n, k, *final(rng)),
{
    let (k, after) = random_below(lift(rng), n);
    *rng = after;
    k
}

/// Draws a word.
pub(crate) fn draw_word(rng: &mut SmallRng) -> (word: u64)
    ensures
        draws_word(*old(rng), word, *final(rng)),
{
    let (word, after) = random_word(lift(rng));
    *rng = after;
    word
}

/// Shuffles items.
pub(crate) fn draw_order<T>(items: Vec<T>, rng: &mut SmallRng) -> (r: Vec<T>)
    ensures
        r@.to_multiset() == items@.to_multiset(),
        draws_order(*old(rng), items@, r@, *final(rng)),
{
    let ghost before = *rng;
    let (r, after) = random_order(items, lift(rng));
    assert(call_ensures(random_order::<T>, (items, before), (r, after)));
    *rng = after;
    r
}

} // verus!
