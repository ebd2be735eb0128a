//! The partial map: a rectangular grid whose cells are either observed tiles
//! or unknown.

use vstd::prelude::*;
use crate::coordinate::{lemma_offset_one, Coordinate, Direction};
use crate::tile::Tile;

verus! {

/// The mathematical model of a partial map: rows of cells, `None` for unknown.
pub type Grid = Seq<Seq<Option<Tile>>>;

/// The model of an executable map.
pub open spec fn grid_of(map: &Vec<Vec<Option<Tile>>>) -> Grid {
    Seq::new(map.len() as nat, |r: int| map@[r]@)
}

pub open spec fn rows(g: Grid) -> nat {
    g.len()
}

/// The width of the grid: the length of its first row, 0 for an empty grid.
pub open spec fn cols(g: Grid) -> nat {
    if g.len() == 0 {
        0
    } else {
        g[0].len()
    }
}

/// A grid is rectangular, and its cells can be counted in a machine word.
pub open spec fn well_formed(g: Grid) -> bool {
    &&& forall|r: int| 0 <= r < g.len() ==> (#[trigger] g[r]).len() == cols(g)
    &&& rows(g) * cols(g) <= usize::MAX
}

/// `p` names a cell of the grid.
pub open spec fn inside(g: Grid, p: (int, int)) -> bool {
    0 <= p.0 < rows(g) && 0 <= p.1 < cols(g)
}

/// The tile at `p`, if `p` is inside the grid and observed.
pub open spec fn tile_at(g: Grid, p: (int, int)) -> Option<Tile> {
    if inside(g, p) {
        g[p.0][p.1]
    } else {
        None
    }
}

/// `p` is an observed cell.
pub open spec fn known(g: Grid, p: (int, int)) -> bool {
    tile_at(g, p) is Some
}

/// `p` is an observed cell that the agent may enter.
pub open spec fn passable(g: Grid, p: (int, int)) -> bool {
    tile_at(g, p) matches Some(t) && t.walkable
}

/// `p` is a cell of the grid that has not been observed.
pub open spec fn undiscovered(g: Grid, p: (int, int)) -> bool {
    inside(g, p) && tile_at(g, p) is None
}

/// A cell of a well-formed grid has coordinates that fit in a machine word.
pub proof fn lemma_inside_fits(g: Grid, p: (int, int))
    requires
        well_formed(g),
        inside(g, p),
    ensures
        0 <= p.0 < usize::MAX,
        0 <= p.1 < usize::MAX,
{
    let r = rows(g);
    let c = cols(g);
    assert(r * c >= r && r * c >= c) by (nonlinear_arith)
        requires
            r >= 1,
            c >= 1,
    ;
}

/// The sides of an executable map fit in a machine word.
pub proof fn lemma_grid_fits(map: &Vec<Vec<Option<Tile>>>)
    ensures
        rows(grid_of(map)) == map.len(),
        rows(grid_of(map)) <= usize::MAX,
        cols(grid_of(map)) <= usize::MAX,
{
    if map.len() > 0 {
        assert(grid_of(map)[0].len() == map@[0].len());
    }
}

/// Says whether `map` is a well-formed grid.
pub fn is_well_formed_map(map: &Vec<Vec<Option<Tile>>>) -> (ok: bool)
    ensures
        ok == well_formed(grid_of(map)),
{
    let ghost g = grid_of(map);
    if map.len() == 0 {
        assert(rows(g) * cols(g) == 0) by (nonlinear_arith)
            requires
                rows(g) == 0,
        ;
        return true;
    }
    let width: usize = map[0].len();
    let mut r: usize = 0;
    while r < map.len()
        invariant
            r <= map.len(),
            g == grid_of(map),
            map.len() > 0,
            width == cols(g),
            forall|k: int| 0 <= k < r ==> (#[trigger] g[k]).len() == width,
        decreases map.len() - r,
    {
        if map[r].len() != width {
            assert(g[r as int].len() != cols(g));
            return false;
        }
        r = r + 1;
    }
    match map.len().checked_mul(width) {
        Some(_) => true,
        None => false,
    }
}

/// Returns `true` if `coord` names a cell of `map`.
pub fn in_bounds(map: &Vec<Vec<Option<Tile>>>, coord: &Coordinate) -> (b: bool)
    ensures
        b == inside(grid_of(map), coord.pos()),
{
    map.len() > 0 && coord.row < map.len() && coord.col < map[0].len()
}

/// The tile at `coord`, if that cell exists and is observed.
pub fn tile_of(map: &Vec<Vec<Option<Tile>>>, coord: &Coordinate) -> (t: Option<Tile>)
    requires
        well_formed(grid_of(map)),
    ensures
        t == tile_at(grid_of(map), coord.pos()),
{
    if in_bounds(map, coord) {
        assert(grid_of(map)[coord.row as int].len() == cols(grid_of(map)));
        map[coord.row][coord.col]
    } else {
        None
    }
}

/// The cell one step from `from` in `direction`, if the grid has one.
pub fn step(map: &Vec<Vec<Option<Tile>>>, from: &Coordinate, direction: &Direction) -> (to: Option<
    Coordinate,
>)
    ensures
        match to {
            Some(c) => c.pos() == direction.offset(from.pos(), 1) && inside(
                grid_of(map),
                c.pos(),
            ),
            None => !inside(grid_of(map), direction.offset(from.pos(), 1)),
        },
{
    proof {
        lemma_offset_one(*direction, from.pos());
        lemma_grid_fits(map);
    }
    let target: Option<Coordinate> = match direction {
        Direction::Left => {
            if from.col > 0 {
                Some(Coordinate::new(from.row, from.col - 1))
            } else {
                None
            }
        },
        Direction::Up => {
            if from.row > 0 {
                Some(Coordinate::new(from.row - 1, from.col))
            } else {
                None
            }
        },
        Direction::Right => {
            if from.col < usize::MAX {
                Some(Coordinate::new(from.row, from.col + 1))
            } else {
                None
            }
        },
        Direction::Down => {
            if from.row < usize::MAX {
                Some(Coordinate::new(from.row + 1, from.col))
            } else {
                None
            }
        },
    };
    match target {
        Some(c) => {
            if in_bounds(map, &c) {
                Some(c)
            } else {
                None
            }
        },
        None => None,
    }
}

} // verus!
