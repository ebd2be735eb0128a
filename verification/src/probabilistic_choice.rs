//! A draw among choices whose likelihoods are given in whole percents.

use vstd::prelude::*;
use crate::arith::UNBOUNDED;
use crate::selection::{draw_between, share, weight_of, RandomSource};
use crate::utils::sum_of;

verus! {

/// The sum of the weights `w`.
pub open spec fn weight_sum(w: Seq<u64>) -> nat {
    sum_of(w)
}

/// The whole percents of `sum` that `weight` amounts to, rounded down; none
/// when the sum is zero.
pub open spec fn floor_percent(weight: u64, sum: nat) -> nat {
    if sum == 0 {
        0
    } else {
        (weight * 100) as nat / sum
    }
}

/// The sum of the rounded percents of `w` out of `sum`.
pub open spec fn floor_percent_sum(w: Seq<u64>, sum: nat) -> nat
    decreases w.len(),
{
    if w.len() == 0 {
        0
    } else {
        floor_percent_sum(w.drop_last(), sum) + floor_percent(w.last(), sum)
    }
}

/// The index of the first of the largest rounded percents among the first
/// `k` of `w`.
pub open spec fn first_largest(w: Seq<u64>, sum: nat, k: nat) -> int
    decreases k,
{
    if k <= 1 {
        0
    } else {
        let before = first_largest(w, sum, (k - 1) as nat);
        if floor_percent(w[k - 1], sum) > floor_percent(w[before], sum) {
            k - 1
        } else {
            before
        }
    }
}

/// The percent given to the choice `i`: its rounded share, and with the
/// first of the largest shares what rounding left over, so that the percents
/// add up to 100.
pub open spec fn percent_of(w: Seq<u64>, i: int) -> nat {
    let sum = weight_sum(w);
    let rest = (100 - floor_percent_sum(w, sum)) as nat;
    if i == first_largest(w, sum, w.len()) {
        floor_percent(w[i], sum) + rest
    } else {
        floor_percent(w[i], sum)
    }
}

/// The sum of the first `k` percents of `w`.
pub open spec fn percent_upto(w: Seq<u64>, k: nat) -> nat
    decreases k,
{
    if k == 0 {
        0
    } else {
        percent_upto(w, (k - 1) as nat) + percent_of(w, k - 1)
    }
}

/// The intervals of the choices over 0..=100: each begins where the one
/// before ends and is as long as the percent of its choice.
pub open spec fn intervals_of(w: Seq<u64>) -> Seq<(usize, usize)> {
    Seq::new(
        w.len(),
        |i: int| (percent_upto(w, i as nat) as usize, percent_upto(w, (i + 1) as nat) as usize),
    )
}

/// The index of the first interval that holds `x`, 0 if none does.
pub open spec fn interval_holding(intervals: Seq<(usize, usize)>, x: usize) -> int
    decreases intervals.len(),
{
    if intervals.len() == 0 {
        0
    } else {
        let before = intervals.drop_last();
        if exists|i: int| 0 <= i < before.len() && holds(#[trigger] before[i], x) {
            interval_holding(before, x)
        } else if holds(intervals.last(), x) {
            intervals.len() - 1
        } else {
            0
        }
    }
}

/// `x` lies in the interval, ends included.
pub open spec fn holds(interval: (usize, usize), x: usize) -> bool {
    interval.0 <= x <= interval.1
}

/// A draw among choices by whole percents.
pub struct ProbabilisticChoice {
    source: RandomSource,
    intervals: Vec<(usize, usize)>,
}

/// The rounded percents of a part of the weights add up to no more than the
/// percent that the part amounts to.
proof fn lemma_floor_percent_sum_bound(w: Seq<u64>, sum: nat)
    requires
        sum > 0,
    ensures
        floor_percent_sum(w, sum) * sum <= 100 * sum_of(w),
    decreases w.len(),
{
    if w.len() > 0 {
        lemma_floor_percent_sum_bound(w.drop_last(), sum);
        let a = floor_percent_sum(w.drop_last(), sum);
        let q = floor_percent(w.last(), sum);
        let x = w.last() as nat;
        assert(q * sum <= 100 * x) by (nonlinear_arith)
            requires
                q == (x * 100) / sum,
                sum > 0,
        ;
        assert((a + q) * sum == a * sum + q * sum) by (nonlinear_arith);
        assert(100 * (sum_of(w.drop_last()) + x) == 100 * sum_of(w.drop_last()) + 100 * x)
            by (nonlinear_arith);
    } else {
        assert(0 * sum == 0);
    }
}

/// The rounded percents of all the weights add up to no more than 100.
proof fn lemma_floor_percent_total(w: Seq<u64>)
    ensures
        floor_percent_sum(w, weight_sum(w)) <= 100,
{
    let sum = weight_sum(w);
    if sum > 0 {
        lemma_floor_percent_sum_bound(w, sum);
        let t = floor_percent_sum(w, sum);
        assert(t <= 100) by (nonlinear_arith)
            requires
                t * sum <= 100 * sum,
                sum > 0,
        ;
    } else {
        lemma_floor_percent_zero(w);
    }
}

proof fn lemma_floor_percent_zero(w: Seq<u64>)
    ensures
        floor_percent_sum(w, 0) == 0,
    decreases w.len(),
{
    if w.len() > 0 {
        lemma_floor_percent_zero(w.drop_last());
    }
}

proof fn lemma_first_largest_in_range(w: Seq<u64>, sum: nat, k: nat)
    requires
        1 <= k <= w.len(),
    ensures
        0 <= first_largest(w, sum, k) < k,
    decreases k,
{
    if k > 1 {
        lemma_first_largest_in_range(w, sum, (k - 1) as nat);
    }
}

/// The percents up to `k` are the rounded percents up to `k`, with what
/// rounding left over added once the first of the largest is passed.
proof fn lemma_percent_upto(w: Seq<u64>, k: nat)
    requires
        w.len() >= 1,
        k <= w.len(),
    ensures
        percent_upto(w, k) == floor_percent_sum(w.take(k as int), weight_sum(w)) + if k
            > first_largest(w, weight_sum(w), w.len()) {
            (100 - floor_percent_sum(w, weight_sum(w))) as nat
        } else {
            0
        },
    decreases k,
{
    lemma_first_largest_in_range(w, weight_sum(w), w.len());
    lemma_floor_percent_total(w);
    if k > 0 {
        lemma_percent_upto(w, (k - 1) as nat);
        assert(w.take(k as int).drop_last() =~= w.take(k - 1));
        assert(w.take(k as int).last() == w[k - 1]);
    } else {
        assert(w.take(0).len() == 0);
    }
}

/// The percents of one or more choices add up to 100.
pub proof fn lemma_percents_total(w: Seq<u64>)
    requires
        w.len() >= 1,
    ensures
        percent_upto(w, w.len()) == 100,
{
    lemma_percent_upto(w, w.len());
    lemma_first_largest_in_range(w, weight_sum(w), w.len());
    lemma_floor_percent_total(w);
    assert(w.take(w.len() as int) =~= w);
}

/// The percents up to `k` do not shrink as `k` grows.
proof fn lemma_percent_upto_grows(w: Seq<u64>, j: nat, k: nat)
    requires
        j <= k,
    ensures
        percent_upto(w, j) <= percent_upto(w, k),
    decreases k - j,
{
    if j < k {
        lemma_percent_upto_grows(w, j, (k - 1) as nat);
    }
}

/// The percents up to `k` do not shrink as `k` grows and stay within 100.
proof fn lemma_percent_upto_monotone(w: Seq<u64>, j: nat, k: nat)
    requires
        w.len() >= 1,
        j <= k <= w.len(),
    ensures
        percent_upto(w, j) <= percent_upto(w, k) <= 100,
{
    lemma_percent_upto_grows(w, j, k);
    lemma_percent_upto_grows(w, k, w.len());
    lemma_percents_total(w);
}

impl ProbabilisticChoice {
    /// The intervals over which the draw is made.
    pub closed spec fn intervals(&self) -> Seq<(usize, usize)> {
        self.intervals@
    }

    /// The percents of the weights, which add up to 100: each weight's share
    /// of the sum rounded down, the leftover added to the first of the
    /// largest shares.
    fn normalize_to_sum_100(weights: &Vec<u64>) -> (percents: Vec<usize>)
        requires
            weights.len() >= 1,
        ensures
            percents@.len() == weights@.len(),
            forall|i: int|
                0 <= i < percents@.len() ==> #[trigger] percents@[i] == percent_of(weights@, i),
    {
        let ghost w = weights@;
        let mut sum: u128 = 0;
        let mut i: usize = 0;
        assert(w.take(0) =~= Seq::<u64>::empty());
        while i < weights.len()
            invariant
                i <= weights.len(),
                w == weights@,
                sum == sum_of(w.take(i as int)),
                sum <= i * 0xffff_ffff_ffff_ffff,
            decreases weights.len() - i,
        {
            proof {
                assert(w.take(i + 1).drop_last() =~= w.take(i as int));
                assert((i + 1) * 0xffff_ffff_ffff_ffff == i * 0xffff_ffff_ffff_ffff
                    + 0xffff_ffff_ffff_ffff) by (nonlinear_arith);
                assert((i + 1) * 0xffff_ffff_ffff_ffff <= 0xffff_ffff_ffff_ffff
                    * 0xffff_ffff_ffff_ffff) by (nonlinear_arith)
                    requires
                        i + 1 <= 0xffff_ffff_ffff_ffff,
                ;
            }
            sum = sum + weights[i] as u128;
            i = i + 1;
        }
        assert(w.take(weights.len() as int) =~= w);
        let mut percents: Vec<usize> = Vec::new();
        let mut current_sum: usize = 0;
        let mut max_index: usize = 0;
        let mut k: usize = 0;
        proof {
            lemma_floor_percent_total(w);
        }
        while k < weights.len()
            invariant
                k <= weights.len(),
                w == weights@,
                w.len() >= 1,
                sum == weight_sum(w),
                percents@.len() == k,
                forall|j: int|
                    0 <= j < k ==> #[trigger] percents@[j] == floor_percent(w[j], sum as nat),
                forall|j: int| 0 <= j < k ==> #[trigger] percents@[j] <= 100,
                current_sum == floor_percent_sum(w.take(k as int), sum as nat),
                floor_percent_sum(w, sum as nat) <= 100,
                current_sum <= 100,
                max_index == first_largest(w, sum as nat, k as nat),
                k >= 1 ==> max_index < k,
                k == 0 ==> max_index == 0,
            decreases weights.len() - k,
        {
            let wide: u128 = if sum == 0 {
                0
            } else {
                (weights[k] as u128 * 100) / sum
            };
            proof {
                assert(w.take(k + 1).drop_last() =~= w.take(k as int));
                lemma_floor_parts_grow(w, sum as nat, (k + 1) as nat);
                assert(wide == floor_percent(w[k as int], sum as nat));
            }
            let part: usize = wide as usize;
            if k >= 1 && part > percents[max_index] {
                max_index = k;
            }
            percents.push(part);
            current_sum = current_sum + part;
            k = k + 1;
        }
        assert(w.take(weights.len() as int) =~= w);
        let diff: usize = 100 - current_sum;
        if diff != 0 {
            let raised: usize = percents[max_index] + diff;
            percents.set(max_index, raised);
        }
        percents
    }

    /// A draw among as many choices as there are weights, the choice `i`
    /// being as likely as [`percent_of`] it says. The draws are determined by
    /// `seed`.
    pub fn new(weights: Vec<u64>, seed: u64) -> (result: Result<ProbabilisticChoice, String>)
        requires
            weights.len() >= 1,
        ensures
            result matches Ok(choice) && choice.intervals() == intervals_of(weights@),
    {
        let u_weights: Vec<usize> = ProbabilisticChoice::normalize_to_sum_100(&weights);
        let ghost w = weights@;
        let mut intervals: Vec<(usize, usize)> = Vec::new();
        let mut i: usize = 0;
        let mut k: usize = 0;
        while k < u_weights.len()
            invariant
                k <= u_weights.len(),
                w == weights@,
                w.len() >= 1,
                u_weights@.len() == w.len(),
                forall|j: int|
                    0 <= j < u_weights@.len() ==> #[trigger] u_weights@[j] == percent_of(w, j),
                i == percent_upto(w, k as nat),
                intervals@.len() == k,
                forall|j: int| 0 <= j < k ==> #[trigger] intervals@[j] == intervals_of(w)[j],
            decreases u_weights.len() - k,
        {
            proof {
                lemma_percent_upto_monotone(w, (k + 1) as nat, w.len());
            }
            let j: usize = i + u_weights[k];
            intervals.push((i, j));
            i = j;
            k = k + 1;
        }
        assert(intervals@ =~= intervals_of(w));
        Ok(ProbabilisticChoice { intervals, source: RandomSource::seeded(seed) })
    }

    /// Draws a number from 1 to 100 and returns the index of the first
    /// interval that holds it.
    pub fn make(&mut self) -> (choice: usize)
        ensures
            final(self).intervals() == old(self).intervals(),
            exists|x: usize|
                1 <= x <= 100 && choice == #[trigger] interval_holding(old(self).intervals(), x),
    {
        let x: usize = draw_between(1, 100, &mut self.source);
        let choice = choice_for(&self.intervals, x);
        assert(choice == interval_holding(old(self).intervals(), x));
        choice
    }

    /// Draws one of the costs that are present, a cost being as likely as it
    /// is small, and returns its index among those that are present; or says
    /// why nothing can be drawn.
    pub fn inverse_wheighted_choice(costs: &Vec<Option<usize>>, seed: u64) -> (result: Result<
        usize,
        String,
    >)
        ensures
            result matches Ok(i) ==> i < present(costs@).len() && exists|x: usize|
                1 <= x <= 100 && i == #[trigger] interval_holding(
                    intervals_of(parts_of(costs@)),
                    x,
                ),
            result is Err <==> present(costs@).len() == 0,
    {
        let weights: Vec<u64> = inverse_parts(costs);
        assert(weights@ =~= parts_of(costs@));
        if weights.len() == 0 {
            return Err("no cost is present".to_owned());
        }
        let ghost w = weights@;
        match ProbabilisticChoice::new(weights, seed) {
            Ok(mut choice) => {
                let picked = choice.make();
                proof {
                    let x = choose|x: usize|
                        1 <= x <= 100 && picked == #[trigger] interval_holding(
                            intervals_of(w),
                            x,
                        );
                    lemma_interval_holding_in_range(intervals_of(w), x);
                }
                Ok(picked)
            },
            Err(e) => Err(e),
        }
    }
}

/// The floor percents of the first `k` weights, one more at a time.
proof fn lemma_floor_parts_grow(w: Seq<u64>, sum: nat, k: nat)
    requires
        1 <= k <= w.len(),
    ensures
        floor_percent_sum(w.take(k as int), sum) == floor_percent_sum(w.take(k - 1), sum)
            + floor_percent(w[k - 1], sum),
        floor_percent_sum(w.take(k as int), sum) <= floor_percent_sum(w, sum),
        floor_percent(w[k - 1], sum) <= if sum == 0 {
            0
        } else {
            (0xffff_ffff_ffff_ffff * 100) as nat
        },
{
    assert(w.take(k as int).drop_last() =~= w.take(k - 1));
    lemma_floor_prefix(w, sum, k);
    if sum > 0 {
        let x = w[k - 1] as nat;
        assert((x * 100) / sum <= x * 100) by (nonlinear_arith)
            requires
                sum >= 1,
        ;
    }
}

proof fn lemma_floor_prefix(w: Seq<u64>, sum: nat, k: nat)
    requires
        k <= w.len(),
    ensures
        floor_percent_sum(w.take(k as int), sum) <= floor_percent_sum(w, sum),
    decreases w.len() - k,
{
    if k < w.len() {
        lemma_floor_prefix(w, sum, k + 1);
        assert(w.take((k + 1) as int).drop_last() =~= w.take(k as int));
    } else {
        assert(w.take(k as int) =~= w);
    }
}

/// The index that a drawn number stands for is that of one of the intervals,
/// or 0.
pub proof fn lemma_interval_holding_in_range(intervals: Seq<(usize, usize)>, x: usize)
    ensures
        interval_holding(intervals, x) < intervals.len() || interval_holding(intervals, x) == 0,
    decreases intervals.len(),
{
    if intervals.len() > 0 {
        lemma_interval_holding_in_range(intervals.drop_last(), x);
    }
}

/// The index of the first of `intervals` that holds `x`, 0 if none does.
pub fn choice_for(intervals: &Vec<(usize, usize)>, x: usize) -> (choice: usize)
    ensures
        choice == interval_holding(intervals@, x),
{
    let mut i: usize = 0;
    while i < intervals.len()
        invariant
            i <= intervals.len(),
            forall|k: int| 0 <= k < i ==> !holds(#[trigger] intervals@[k], x),
        decreases intervals.len() - i,
    {
        if intervals[i].0 <= x && x <= intervals[i].1 {
            proof {
                lemma_first_holding(intervals@, x, i as int);
            }
            return i;
        }
        i = i + 1;
    }
    proof {
        lemma_none_holding(intervals@, x);
    }
    0
}

proof fn lemma_first_holding(intervals: Seq<(usize, usize)>, x: usize, i: int)
    requires
        0 <= i < intervals.len(),
        holds(intervals[i], x),
        forall|k: int| 0 <= k < i ==> !holds(#[trigger] intervals[k], x),
    ensures
        interval_holding(intervals, x) == i,
    decreases intervals.len(),
{
    let before = intervals.drop_last();
    if i < intervals.len() - 1 {
        assert(holds(before[i], x));
        assert forall|k: int| 0 <= k < i implies !holds(#[trigger] before[k], x) by {
            assert(before[k] == intervals[k]);
        }
        lemma_first_holding(before, x, i);
        assert(exists|j: int| 0 <= j < before.len() && holds(#[trigger] before[j], x));
    } else {
        assert forall|k: int| 0 <= k < before.len() implies !holds(#[trigger] before[k], x) by {
            assert(before[k] == intervals[k]);
        }
        assert(!(exists|j: int| 0 <= j < before.len() && holds(#[trigger] before[j], x)));
        assert(intervals.last() == intervals[i]);
    }
}

proof fn lemma_none_holding(intervals: Seq<(usize, usize)>, x: usize)
    requires
        forall|k: int| 0 <= k < intervals.len() ==> !holds(#[trigger] intervals[k], x),
    ensures
        interval_holding(intervals, x) == 0,
    decreases intervals.len(),
{
    if intervals.len() > 0 {
        let before = intervals.drop_last();
        assert forall|k: int| 0 <= k < before.len() implies !holds(#[trigger] before[k], x) by {
            assert(before[k] == intervals[k]);
        }
        lemma_none_holding(before, x);
    }
}

/// The costs that are present, in their order.
pub open spec fn present(costs: Seq<Option<usize>>) -> Seq<usize>
    decreases costs.len(),
{
    if costs.len() == 0 {
        seq![]
    } else {
        match costs.last() {
            Some(c) => present(costs.drop_last()).push(c),
            None => present(costs.drop_last()),
        }
    }
}

/// The part of a cost among `count` costs: its weight in the draw, scaled
/// down to 64 bits.
pub open spec fn part_of(cost: usize, count: nat) -> u64 {
    (weight_of(cost as u128, count) / 0x1_0000_0000_0000_0000) as u64
}

/// For each cost that is present its part, in the same order.
pub open spec fn parts_of(costs: Seq<Option<usize>>) -> Seq<u64> {
    Seq::new(present(costs).len(), |i: int| part_of(present(costs)[i], costs.len()))
}

/// For each cost that is present its part, in the same order.
pub fn inverse_parts(costs: &Vec<Option<usize>>) -> (parts: Vec<u64>)
    ensures
        parts@ == parts_of(costs@),
{
    let mut parts: Vec<u64> = Vec::new();
    let count: usize = costs.len();
    if count == 0 {
        assert(parts@ =~= parts_of(costs@));
        return parts;
    }
    let whole: u128 = UNBOUNDED / (count as u128);
    let mut i: usize = 0;
    assert(costs@.take(0) =~= Seq::<Option<usize>>::empty());
    while i < count
        invariant
            i <= count,
            count == costs.len(),
            count >= 1,
            whole == share(count as nat),
            parts@.len() == present(costs@.take(i as int)).len(),
            forall|k: int|
                0 <= k < parts@.len() ==> #[trigger] parts@[k] == part_of(
                    present(costs@.take(i as int))[k],
                    count as nat,
                ),
        decreases count - i,
    {
        proof {
            assert(costs@.take(i + 1).drop_last() =~= costs@.take(i as int));
        }
        if let Some(cost) = costs[i] {
            let weight: u128 = if cost == 0 {
                0
            } else {
                whole / (cost as u128)
            };
            let part: u64 = (weight / 0x1_0000_0000_0000_0000) as u64;
            parts.push(part);
        }
        i = i + 1;
    }
    assert(costs@.take(count as int) =~= costs@);
    assert(parts@ =~= parts_of(costs@));
    parts
}

} // verus!
