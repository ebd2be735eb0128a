//! Tuning parameters of the planner.

use vstd::prelude::*;
use crate::arith::Exponent;

verus! {

/// Advanced configuration options for tuning weights.
#[derive(Clone, Copy, Debug, PartialEq, Eq, Structural)]
pub struct NLACompassParams {
    /// Exponent of the cost of going downhill, which gives up elevation that
    /// was paid for. Defaults to 3/2.
    pub cost_neg_el_diff_pow: Exponent,
    /// Weight added to the number of undiscovered tiles around a move.
    /// Defaults to 1 and is never 0.
    pub cost_disc_tiles_proportion: usize,
    /// Exponent applied to the distance from the nearest undiscovered tile.
    /// Defaults to 3.
    pub dist_from_undiscovered_pow: Exponent,
    /// Exponent applied to the cost of a move that does not approach the
    /// coordinate being sought. Defaults to 5.
    pub getting_further_to_coords_pow: Exponent,
    /// Integer exponent that spreads the combined cost of a move before the
    /// draw. Defaults to 3.
    pub cost_spread_pow: u32,
}

/// The default parameters.
pub open spec fn default_params() -> NLACompassParams {
    NLACompassParams {
        cost_neg_el_diff_pow: Exponent { num: 3, den: 2 },
        cost_disc_tiles_proportion: 1,
        dist_from_undiscovered_pow: Exponent { num: 3, den: 1 },
        getting_further_to_coords_pow: Exponent { num: 5, den: 1 },
        cost_spread_pow: 3,
    }
}

impl NLACompassParams {
    /// Usable parameters: every exponent is usable and the discovery weight
    /// is at least one.
    pub open spec fn well_formed(self) -> bool {
        &&& self.cost_neg_el_diff_pow.well_formed()
        &&& self.dist_from_undiscovered_pow.well_formed()
        &&& self.getting_further_to_coords_pow.well_formed()
        &&& self.cost_disc_tiles_proportion >= 1
    }

    pub fn is_well_formed(&self) -> (ok: bool)
        ensures
            ok == self.well_formed(),
    {
        self.cost_neg_el_diff_pow.is_well_formed()
            && self.dist_from_undiscovered_pow.is_well_formed()
            && self.getting_further_to_coords_pow.is_well_formed()
            && self.cost_disc_tiles_proportion >= 1
    }
}

impl Default for NLACompassParams {
    fn default() -> (p: Self)
        ensures
            p == default_params(),
            p.well_formed(),
    {
        NLACompassParams {
            cost_neg_el_diff_pow: Exponent::new(3, 2),
            cost_disc_tiles_proportion: 1,
            dist_from_undiscovered_pow: Exponent::new(3, 1),
            getting_further_to_coords_pow: Exponent::new(5, 1),
            cost_spread_pow: 3,
        }
    }
}

} // verus!
