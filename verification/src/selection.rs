//! The weighted random draw: a candidate is chosen with a likelihood that is
//! inversely proportional to its cost.
//!
//! The draw itself is the `rand` crate's. What this module proves is what is
//! handed to it and what may come back.

use vstd::prelude::*;
use rand::rngs::StdRng;
use rand::seq::SliceRandom;
use rand::Rng;
use rand::SeedableRng;
use crate::arith::UNBOUNDED;
use crate::error::MoveError;

verus! {

#[verifier::external_type_specification]
#[verifier::external_body]
pub struct ExStdRng(rand::rngs::StdRng);

/// A source of random draws that is made from a seed, so that a run can be
/// repeated.
pub struct RandomSource {
    rng: StdRng,
}

/// What a generator holds: the state that determines every number that it
/// will give.
pub uninterp spec fn generator_state(rng: StdRng) -> Seq<u8>;

/// The state of a generator that has been made from `seed` and has given no
/// number yet.
pub uninterp spec fn seeded_state(seed: u64) -> Seq<u8>;

/// Calls `rand::SeedableRng::seed_from_u64` for `rand::rngs::StdRng`.
/// Trusted: that the state of the generator returned depends on `seed`
/// alone. The call expands the seed to a key by fixed arithmetic and makes
/// the generator from that key.
#[verifier::external_body]
fn seed_generator(seed: u64) -> (rng: StdRng)
    ensures
        generator_state(rng) == seeded_state(seed),
{
    StdRng::seed_from_u64(seed)
}

impl View for RandomSource {
    type V = Seq<u8>;

    /// The state of the generator from which the source draws.
    closed spec fn view(&self) -> Seq<u8> {
        generator_state(self.rng)
    }
}

impl RandomSource {
    /// A source whose draws are determined by `seed`: it is in the state
    /// that `seed` gives, and has drawn nothing yet.
    pub fn seeded(seed: u64) -> (source: Self)
        ensures
            source@ == seeded_state(seed),
    {
        RandomSource { rng: seed_generator(seed) }
    }
}

/// Calls `rand::Rng::gen_range` with the range `low..=high`. Trusted: that
/// the number returned lies in that range. Which number comes back depends
/// on the generator and is not stated. The call does not return on an empty
/// range, so `low` must not exceed `high`.
#[verifier::external_body]
pub(crate) fn draw_between(low: usize, high: usize, source: &mut RandomSource) -> (x: usize)
    requires
        low <= high,
    ensures
        low <= x <= high,
{
    source.rng.gen_range(low..=high)
}

/// The weight that is shared out to each of `count` candidates: the largest
/// that keeps the sum of `count` weights within [`UNBOUNDED`].
pub open spec fn share(count: nat) -> nat {
    if count == 0 {
        0
    } else {
        UNBOUNDED as nat / count
    }
}

/// The weight of a candidate of cost `cost` among `count` candidates: the
/// share divided by the cost. A cost of zero or an unbounded cost has no
/// weight: such a candidate is never drawn.
pub open spec fn weight_of(cost: u128, count: nat) -> nat {
    if cost == 0 || cost == UNBOUNDED {
        0
    } else {
        share(count) / (cost as nat)
    }
}

/// The sum of the weights of `items`.
pub open spec fn total_weight(items: Seq<(usize, u128)>) -> nat
    decreases items.len(),
{
    if items.len() == 0 {
        0
    } else {
        total_weight(items.drop_last()) + items.last().1 as nat
    }
}

/// The candidates as the draw receives them: each index with the weight of
/// its cost.
pub open spec fn weighted(costs: Seq<u128>) -> Seq<(usize, u128)> {
    Seq::new(costs.len(), |i: int| (i as usize, weight_of(costs[i], costs.len()) as u128))
}

/// Some candidate of `costs` can be drawn.
pub open spec fn drawable(costs: Seq<u128>) -> bool {
    exists|i: int| 0 <= i < costs.len() && weight_of(#[trigger] costs[i], costs.len()) > 0
}

proof fn lemma_share_bound(count: nat)
    requires
        count >= 1,
    ensures
        share(count) * count <= UNBOUNDED,
        share(count) <= UNBOUNDED,
{
    let u = UNBOUNDED as nat;
    assert((u / count) * count <= u) by (nonlinear_arith)
        requires
            count >= 1,
    ;
    assert(u / count <= u) by (nonlinear_arith)
        requires
            count >= 1,
    ;
}

proof fn lemma_weight_bound(cost: u128, count: nat)
    requires
        count >= 1,
    ensures
        weight_of(cost, count) <= share(count),
{
    if cost != 0 && cost != UNBOUNDED {
        let s = share(count);
        let c = cost as nat;
        assert(s / c <= s) by (nonlinear_arith)
            requires
                c >= 1,
        ;
    }
}

/// The weights that the draw is given: for each cost its index and
/// [`weight_of`] it. Their sum stays within [`UNBOUNDED`].
pub fn inverse_weights(costs: &Vec<u128>) -> (items: Vec<(usize, u128)>)
    ensures
        items@ == weighted(costs@),
        total_weight(items@) <= UNBOUNDED,
{
    let mut items: Vec<(usize, u128)> = Vec::new();
    let count: usize = costs.len();
    if count == 0 {
        assert(items@ =~= weighted(costs@));
        return items;
    }
    let part: u128 = UNBOUNDED / (count as u128);
    proof {
        lemma_share_bound(count as nat);
        assert(0 * share(count as nat) == 0);
    }
    let mut i: usize = 0;
    while i < count
        invariant
            i <= count,
            count == costs.len(),
            count >= 1,
            part == share(count as nat),
            share(count as nat) * count <= UNBOUNDED,
            items.len() == i,
            forall|k: int| 0 <= k < i ==> items[k] == weighted(costs@)[k],
            total_weight(items@) <= i * share(count as nat),
        decreases count - i,
    {
        let cost: u128 = costs[i];
        let weight: u128 = if cost == 0 || cost == UNBOUNDED {
            0
        } else {
            part / cost
        };
        proof {
            lemma_weight_bound(cost, count as nat);
            let before = items@;
            let after = before.push((i, weight));
            assert(after.drop_last() =~= before);
            let s = share(count as nat);
            assert((i + 1) * s == i * s + s) by (nonlinear_arith);
            assert((i + 1) * s <= count * s) by (nonlinear_arith)
                requires
                    i + 1 <= count,
            ;
            assert(count * s == s * count) by (nonlinear_arith);
        }
        items.push((i, weight));
        i = i + 1;
    }
    proof {
        assert(items@ =~= weighted(costs@));
        let s = share(count as nat);
        assert(count * s == s * count) by (nonlinear_arith);
    }
    items
}

/// Calls `rand::seq::SliceRandom::choose_weighted` on `items`, with each
/// item's second field as its weight. Trusted: that an item is returned
/// unless every weight is zero or there is no item, and that the item
/// returned has a positive weight. Which item comes back depends on the
/// generator and is not stated. The sum of the weights must fit, as the crate
/// adds them up.
#[verifier::external_body]
fn draw_weighted(items: &Vec<(usize, u128)>, source: &mut RandomSource) -> (label: Option<usize>)
    requires
        total_weight(items@) <= UNBOUNDED,
    ensures
        match label {
            Some(l) => exists|i: int|
                0 <= i < items.len() && (#[trigger] items[i]).0 == l && items[i].1 > 0,
            None => forall|i: int| 0 <= i < items.len() ==> (#[trigger] items[i]).1 == 0,
        },
{
    items.choose_weighted(&mut source.rng, |item| item.1).ok().map(|item| item.0)
}

/// What a draw amounts to: the index drawn, or `NoAvailableMove` when nothing
/// was drawn.
pub fn settle_draw(drawn: Option<usize>) -> (result: Result<usize, MoveError>)
    ensures
        result == match drawn {
            Some(i) => Ok::<usize, MoveError>(i),
            None => Err::<usize, MoveError>(MoveError::NoAvailableMove),
        },
{
    match drawn {
        Some(i) => Ok(i),
        None => Err(MoveError::NoAvailableMove),
    }
}

/// Draws the index of one of `costs`, each with a likelihood proportional to
/// [`weight_of`] its cost. An index is returned exactly when some candidate
/// has a positive weight, and the index returned has one; `NoAvailableMove`
/// is returned when there is no candidate or none has a weight.
pub fn inverse_weighted_choice(costs: &Vec<u128>, source: &mut RandomSource) -> (result: Result<
    usize,
    MoveError,
>)
    ensures
        match result {
            Ok(i) => i < costs.len() && weight_of(costs[i as int], costs.len() as nat) > 0,
            Err(e) => e == MoveError::NoAvailableMove && !drawable(costs@),
        },
{
    let items = inverse_weights(costs);
    let drawn = draw_weighted(&items, source);
    proof {
        match drawn {
            Some(l) => {
                let i = choose|i: int|
                    0 <= i < items.len() && (#[trigger] items[i]).0 == l && items[i].1 > 0;
                assert(items[i] == weighted(costs@)[i]);
            },
            None => {
                assert forall|i: int| 0 <= i < costs.len() implies weight_of(
                    #[trigger] costs[i],
                    costs.len() as nat,
                ) == 0 by {
                    assert(items[i] == weighted(costs@)[i]);
                    lemma_share_bound(costs.len() as nat);
                    lemma_weight_bound(costs[i], costs.len() as nat);
                }
            },
        }
    }
    settle_draw(drawn)
}

/// A cheaper candidate never has a smaller weight than a dearer one.
pub proof fn lemma_cheaper_weighs_more(cheap: u128, dear: u128, count: nat)
    requires
        0 < cheap <= dear,
        cheap < UNBOUNDED,
    ensures
        weight_of(cheap, count) >= weight_of(dear, count),
{
    if dear != UNBOUNDED {
        let s = share(count);
        let a = cheap as nat;
        let b = dear as nat;
        assert(s / a >= s / b) by (nonlinear_arith)
            requires
                0 < a <= b,
        ;
    }
}

} // verus!
