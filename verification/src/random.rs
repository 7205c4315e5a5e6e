//! The random draws that the generators make, each behind a contract that
//! holds of every outcome.

use vstd::prelude::*;
use rand::rngs::StdRng;
use rand::seq::SliceRandom;
use rand::Rng;

verus! {

/// The generator of random numbers that every pass draws from.
#[verifier::external_type_specification]
#[verifier::external_body]
pub struct ExStdRng(StdRng);

/// The sum of the weights of a list of weighted choices.
pub open spec fn total_weight(choices: Seq<(usize, u128)>) -> int
    decreases choices.len(),
{
    if choices.len() == 0 {
        0
    } else {
        total_weight(choices.drop_last()) + choices.last().1
    }
}

/// `rand::Rng::gen_range` on `u64`: some number from `low` up to, and not
/// including, `high`. The call panics unless `low < high`.
#[verifier::external_body]
pub(crate) fn gen_range(rng: &mut StdRng, low: u64, high: u64) -> (r: u64)
    requires
        low < high,
    ensures
        low <= r < high,
{
    rng.gen_range(low, high)
}

/// `rand::Rng::gen` for a `bool`: a coin flip, of which nothing is known.
#[verifier::external_body]
pub(crate) fn gen_bool(rng: &mut StdRng) -> bool {
    rng.gen()
}

/// `rand::seq::SliceRandom::choose_weighted` on a list of tagged weights: the
/// tag of some entry whose weight is not zero. The call fails only on an
/// empty list and on one whose weights are all zero; it adds the weights up
/// in `u128`, so their sum has to fit.
#[verifier::external_body]
pub(crate) fn choose_weighted(rng: &mut StdRng, choices: &Vec<(usize, u128)>) -> (r: Option<usize>)
    requires
        total_weight(choices@) <= u128::MAX,
    ensures
        r is None <==> total_weight(choices@) == 0,
        r matches Some(tag) ==> exists|i: int|
            0 <= i < choices.len() && (#[trigger] choices[i]).0 == tag && choices[i].1 > 0,
{
    match choices.choose_weighted(rng, |c| c.1) {
        Ok(c) => Some(c.0),
        Err(_) => None,
    }
}

/// `rand::seq::SliceRandom::shuffle`: the same items in some other order.
#[verifier::external_body]
pub(crate) fn shuffle<T>(rng: &mut StdRng, items: &mut Vec<T>)
    ensures
        final(items)@.to_multiset() == old(items)@.to_multiset(),
{
    items.shuffle(rng)
}

/// Draws a `usize` from `low` up to, and not including, `high`.
pub(crate) fn roll(rng: &mut StdRng, low: usize, high: usize) -> (r: usize)
    requires
        low < high,
    ensures
        low <= r < high,
{
    let drawn: u64 = gen_range(rng, low as u64, high as u64);
    drawn as usize
}

/// Flips a fair coin.
pub(crate) fn coin(rng: &mut StdRng) -> bool {
    gen_bool(rng)
}

/// What holds of every item of a list holds of every item of the list in
/// any other order.
pub proof fn lemma_shuffle_keeps<T>(before: Seq<T>, after: Seq<T>, p: spec_fn(T) -> bool)
    requires
        after.to_multiset() == before.to_multiset(),
        forall|i: int| 0 <= i < before.len() ==> p(#[trigger] before[i]),
    ensures
        after.len() == before.len(),
        forall|i: int| 0 <= i < after.len() ==> p(#[trigger] after[i]),
{
    vstd::seq_lib::to_multiset_len(before);
    vstd::seq_lib::to_multiset_len(after);
    assert forall|i: int| 0 <= i < after.len() implies p(#[trigger] after[i]) by {
        let item = after[i];
        vstd::seq_lib::to_multiset_contains(after, item);
        vstd::seq_lib::to_multiset_contains(before, item);
        assert(after.contains(item));
        assert(before.contains(item));
        let j = choose|j: int| 0 <= j < before.len() && before[j] == item;
        assert(p(before[j]));
    }
}

/// The weights of an empty list add up to nothing, and a list with a
/// positive weight in it adds up to more.
pub proof fn lemma_total_weight_positive(choices: Seq<(usize, u128)>, i: int)
    requires
        0 <= i < choices.len(),
        choices[i].1 > 0,
    ensures
        total_weight(choices) > 0,
    decreases choices.len(),
{
    lemma_total_weight_nonnegative(choices.drop_last());
    if i < choices.len() - 1 {
        lemma_total_weight_positive(choices.drop_last(), i);
    }
}

/// A sum of weights is never negative.
pub proof fn lemma_total_weight_nonnegative(choices: Seq<(usize, u128)>)
    ensures
        total_weight(choices) >= 0,
    decreases choices.len(),
{
    if choices.len() > 0 {
        lemma_total_weight_nonnegative(choices.drop_last());
    }
}

/// A list of weights, each no more than `bound`, adds up to no more than
/// its length times `bound`.
pub proof fn lemma_total_weight_bound(choices: Seq<(usize, u128)>, bound: int)
    requires
        forall|i: int| 0 <= i < choices.len() ==> (#[trigger] choices[i]).1 <= bound,
    ensures
        total_weight(choices) <= choices.len() * bound,
    decreases choices.len(),
{
    if choices.len() > 0 {
        let rest = choices.drop_last();
        assert forall|i: int| 0 <= i < rest.len() implies (#[trigger] rest[i]).1 <= bound by {
            assert(rest[i] == choices[i]);
        }
        lemma_total_weight_bound(rest, bound);
        assert(choices.len() * bound == rest.len() * bound + bound) by (nonlinear_arith)
            requires
                choices.len() == rest.len() + 1,
        ;
    }
}

} // verus!
