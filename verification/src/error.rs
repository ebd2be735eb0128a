//! The reasons for which no move is returned.

use vstd::prelude::*;

verus! {

/// Errors returned in place of a move.
#[derive(Clone, Copy, Debug, PartialEq, Eq, Structural)]
pub enum MoveError {
    /// The destination has not been set.
    NoDestination,
    /// There is no matching content in the explored world.
    NoContent,
    /// There is no matching tile type in the explored world.
    NoTileType,
    /// The current position does not point to an explored tile.
    InvalidCurrPosition,
    /// The destination coordinate is invalid.
    InvalidDestCoordinate,
    /// No move is available.
    NoAvailableMove,
    /// The agent is at the destination already.
    AlreadyAtDestination,
    /// The functionality is not offered.
    NotImplemented,
}

} // verus!
