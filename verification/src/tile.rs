//! What the agent knows of one cell.

use vstd::prelude::*;

verus! {

/// The closed set of terrain kinds.
#[derive(Clone, Copy, Debug, PartialEq, Eq, Structural)]
pub enum TileType {
    DeepWater,
    ShallowWater,
    Sand,
    Grass,
    Street,
    Hill,
    Mountain,
    Snow,
    Lava,
    Teleport(bool),
    Wall,
}

/// The closed set of content markers. A marker names what lies on a tile, not
/// how much of it.
#[derive(Clone, Copy, Debug, PartialEq, Eq, Structural)]
pub enum Content {
    Rock,
    Tree,
    Garbage,
    Fire,
    Coin,
    Bin,
    Crate,
    Bank,
    Water,
    Market,
    Fish,
    Building,
    Bush,
    JollyBlock,
    Scarecrow,
    Nothing,
}

/// An observed cell: its terrain kind with the entry cost and walkability that
/// the host's terrain table gives that kind, its elevation and its content.
#[derive(Clone, Copy, Debug, PartialEq, Eq, Structural)]
pub struct Tile {
    pub tile_type: TileType,
    pub content: Content,
    pub elevation: usize,
    pub entry_cost: usize,
    pub walkable: bool,
}

impl Tile {
    pub fn new(
        tile_type: TileType,
        content: Content,
        elevation: usize,
        entry_cost: usize,
        walkable: bool,
    ) -> (t: Self)
        ensures
            t == (Tile { tile_type, content, elevation, entry_cost, walkable }),
    {
        Tile { tile_type, content, elevation, entry_cost, walkable }
    }
}

} // verus!
