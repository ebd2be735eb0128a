//! The cost of entering a tile from an adjacent one.

use vstd::prelude::*;
use crate::arith::{add_capped, cap, lemma_raised_below_power, power, raise, raised, UNBOUNDED};
use crate::coordinate::abs_diff;
use crate::params::NLACompassParams;
use crate::tile::Tile;

verus! {

/// Cost of the change of elevation from `from` to `to`: the square of a climb,
/// or a descent raised to the downhill exponent.
pub open spec fn elevation_cost(from: nat, to: nat, params: NLACompassParams) -> nat {
    if to >= from {
        ((to - from) * (to - from)) as nat
    } else {
        raised((from - to) as nat, params.cost_neg_el_diff_pow)
    }
}

/// Cost of moving from `curr` onto the adjacent `next`: the entry cost of
/// `next` plus the cost of the change of elevation, capped.
pub open spec fn move_cost(curr: Tile, next: Tile, params: NLACompassParams) -> nat {
    cap(
        (next.entry_cost + elevation_cost(curr.elevation as nat, next.elevation as nat, params))
            as nat,
    )
}

/// Cost of entering `tile`, whatever the tile it is entered from.
pub fn cost_tile_entrance(tile: &Tile) -> (c: usize)
    ensures
        c == tile.entry_cost,
{
    tile.entry_cost
}

/// Cost of the change of elevation between two adjacent tiles.
pub fn cost_elevation_diff(curr: &Tile, next: &Tile, params: &NLACompassParams) -> (c: u128)
    requires
        params.well_formed(),
    ensures
        c == elevation_cost(curr.elevation as nat, next.elevation as nat, *params),
{
    let diff: u128 = abs_diff(next.elevation, curr.elevation) as u128;
    if next.elevation >= curr.elevation {
        assert(diff * diff <= 0xffff_ffff_ffff_ffff * 0xffff_ffff_ffff_ffff) by (nonlinear_arith)
            requires
                diff <= 0xffff_ffff_ffff_ffff,
        ;
        diff * diff
    } else {
        raise(diff, &params.cost_neg_el_diff_pow)
    }
}

/// Cost associated with moving from one tile to an adjacent one.
pub fn move_cost_estimation(curr: &Tile, next: &Tile, params: &NLACompassParams) -> (c: u128)
    requires
        params.well_formed(),
    ensures
        c == move_cost(*curr, *next, *params),
{
    add_capped(cost_tile_entrance(next) as u128, cost_elevation_diff(curr, next, params))
}

/// A move never costs more than [`UNBOUNDED`].
pub proof fn lemma_move_cost_capped(curr: Tile, next: Tile, params: NLACompassParams)
    ensures
        move_cost(curr, next, params) <= UNBOUNDED,
        move_cost(curr, next, params) >= cap(next.entry_cost as nat),
{
}

/// On level ground a move costs what the tile entered costs.
pub proof fn lemma_move_cost_flat(curr: Tile, next: Tile, params: NLACompassParams)
    requires
        curr.elevation == next.elevation,
    ensures
        move_cost(curr, next, params) == next.entry_cost,
{
    assert(0 * 0 == 0);
}

/// Climbing costs more than descending the same height between tiles of equal
/// entry cost, whenever the downhill exponent is below two and the height is
/// at least two.
pub proof fn lemma_climb_costs_more_than_descent(low: Tile, high: Tile, params: NLACompassParams)
    requires
        params.well_formed(),
        params.cost_neg_el_diff_pow.below(2),
        high.elevation >= low.elevation + 2,
        low.entry_cost == high.entry_cost,
    ensures
        move_cost(low, high, params) > move_cost(high, low, params),
{
    let k = (high.elevation - low.elevation) as nat;
    lemma_raised_below_power(k, params.cost_neg_el_diff_pow, 2);
    reveal_with_fuel(power, 3);
    assert(power(k, 2) == k * (k * 1));
    assert(k * (k * 1) == k * k) by (nonlinear_arith);
    assert(k * k <= 0xffff_ffff_ffff_ffff * 0xffff_ffff_ffff_ffff) by (nonlinear_arith)
        requires
            k <= 0xffff_ffff_ffff_ffff,
    ;
}

} // verus!
