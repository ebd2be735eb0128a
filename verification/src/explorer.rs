//! Frontier exploration: when no route is known, the next move is drawn
//! among the neighbours, each weighed by what it costs to enter, by how much
//! unknown ground borders it and by how soon its corridor meets unknown
//! ground.

use vstd::prelude::*;
use crate::arith::{
    add_capped, cap, lemma_raised_capped, pow_saturating, power, raise, raised,
};
use crate::coordinate::{
    get_opposite_direction, lemma_offset_one, lemma_opposite_involution, Coordinate, Direction,
};
use crate::cost::{lemma_move_cost_capped, move_cost, move_cost_estimation};
use crate::error::MoveError;
use crate::grid::{
    cols, grid_of, in_bounds, inside, known, lemma_grid_fits, lemma_inside_fits, passable, rows,
    step, tile_at, tile_of, undiscovered, well_formed, Grid,
};
use crate::params::NLACompassParams;
use crate::selection::{drawable, inverse_weighted_choice, weight_of, RandomSource};
use crate::tile::Tile;

verus! {

/// What is added to the length of a corridor that ends without meeting
/// unknown ground.
pub const DEAD_END: u128 = 100;

/// An observed tile together with its position.
#[derive(Clone, Copy, Debug, PartialEq, Eq, Structural)]
pub struct TileWithCordinates {
    pub tile: Tile,
    pub pos: Coordinate,
}

/// A move that the agent may make, with what the draw needs to know of it.
#[derive(Clone, Copy, Debug, PartialEq, Eq, Structural)]
pub struct PossibleDirection {
    pub direction: Direction,
    /// Cost of entering the neighbour.
    pub cost: u128,
    /// Number of unknown cells around the neighbour.
    pub undiscovered: usize,
    /// Length of the corridor ahead, with [`DEAD_END`] added where it leads
    /// nowhere new.
    pub tiles_until_undiscovered: u128,
}

/// The observed tile one step from `curr` in `direction`, with its position.
pub open spec fn adjacent_tile(g: Grid, curr: (int, int), direction: Direction) -> Option<
    TileWithCordinates,
> {
    let p = direction.next(curr);
    match tile_at(g, p) {
        Some(tile) => Some(
            TileWithCordinates { tile, pos: Coordinate { row: p.0 as usize, col: p.1 as usize } },
        ),
        None => None,
    }
}

/// The observed tile one step from `curr` in `direction`, if the map has a
/// cell there and it is observed.
pub fn get_adjacent_tile(curr: &Coordinate, map: &Vec<Vec<Option<Tile>>>, direction: &Direction) -> (result:
    Option<TileWithCordinates>)
    requires
        well_formed(grid_of(map)),
    ensures
        result == adjacent_tile(grid_of(map), curr.pos(), *direction),
{
    proof {
        lemma_offset_one(*direction, curr.pos());
    }
    match step(map, curr, direction) {
        Some(pos) => match tile_of(map, &pos) {
            Some(tile) => Some(TileWithCordinates { tile, pos }),
            None => None,
        },
        None => None,
    }
}

/// The order in which the neighbours are considered.
pub open spec fn direction_order() -> Seq<Direction> {
    seq![Direction::Left, Direction::Down, Direction::Right, Direction::Up]
}

/// The four directions, in the order in which the neighbours are considered.
pub fn ordered_directions() -> (v: Vec<Direction>)
    ensures
        v@ == direction_order(),
{
    let mut v: Vec<Direction> = Vec::new();
    v.push(Direction::Left);
    v.push(Direction::Down);
    v.push(Direction::Right);
    v.push(Direction::Up);
    assert(v@ =~= direction_order());
    v
}

/// The left, bottom, right and top neighbours of `curr`, each with its tile
/// where one is observed.
pub fn get_adjacent_tiles(curr: &Coordinate, map: &Vec<Vec<Option<Tile>>>) -> (result: Vec<
    (Direction, Option<TileWithCordinates>),
>)
    requires
        well_formed(grid_of(map)),
    ensures
        result@.len() == 4,
        forall|i: int|
            0 <= i < 4 ==> #[trigger] result@[i] == (
                direction_order()[i],
                adjacent_tile(grid_of(map), curr.pos(), direction_order()[i]),
            ),
{
    let order = ordered_directions();
    let mut result: Vec<(Direction, Option<TileWithCordinates>)> = Vec::new();
    let mut i: usize = 0;
    while i < 4
        invariant
            i <= 4,
            order@ == direction_order(),
            well_formed(grid_of(map)),
            result@.len() == i,
            forall|k: int|
                0 <= k < i ==> #[trigger] result@[k] == (
                    direction_order()[k],
                    adjacent_tile(grid_of(map), curr.pos(), direction_order()[k]),
                ),
        decreases 4 - i,
    {
        let dir = order[i];
        result.push((dir, get_adjacent_tile(curr, map, &dir)));
        i = i + 1;
    }
    result
}

/// How far `from` is from the edge of the grid that lies in direction `d`.
pub open spec fn room(g: Grid, from: (int, int), d: Direction) -> nat {
    let left = match d {
        Direction::Up => from.0,
        Direction::Down => rows(g) - from.0,
        Direction::Left => from.1,
        Direction::Right => cols(g) - from.1,
    };
    if left > 0 {
        left as nat
    } else {
        0
    }
}

/// Length of the corridor of observed walkable cells that leaves `from` in
/// direction `d`, `from` itself not counted. A corridor that ends at an
/// unknown cell has its plain length. One that ends at the edge of the grid
/// or at an observed cell that cannot be entered leads nowhere new, and has
/// [`DEAD_END`] added.
pub open spec fn frontier_distance(g: Grid, from: (int, int), d: Direction) -> nat
    decreases room(g, from, d),
{
    let ahead = d.next(from);
    if !inside(g, ahead) {
        DEAD_END as nat
    } else if tile_at(g, ahead) is None {
        0
    } else if !passable(g, ahead) {
        DEAD_END as nat
    } else {
        1 + frontier_distance(g, ahead, d)
    }
}

/// Number of observed walkable tiles ahead of `pos` in `direction` until an
/// undiscovered one, with [`DEAD_END`] added where none is met.
pub fn get_tiles_count_until_undiscovered(
    pos: &Coordinate,
    map: &Vec<Vec<Option<Tile>>>,
    direction: &Direction,
) -> (count: u128)
    requires
        well_formed(grid_of(map)),
    ensures
        count == frontier_distance(grid_of(map), pos.pos(), *direction),
{
    let ghost g = grid_of(map);
    let mut count: u128 = 0;
    let mut here: Coordinate = *pos;
    proof {
        lemma_grid_fits(map);
    }
    let mut budget: usize = room_of(map, pos, direction);
    loop
        invariant
            g == grid_of(map),
            well_formed(g),
            budget == room(g, here.pos(), *direction),
            count + budget <= usize::MAX,
            frontier_distance(g, pos.pos(), *direction) == count + frontier_distance(
                g,
                here.pos(),
                *direction,
            ),
        decreases budget,
    {
        proof {
            lemma_offset_one(*direction, here.pos());
        }
        match step(map, &here, direction) {
            None => {
                return count + DEAD_END;
            },
            Some(ahead) => {
                match tile_of(map, &ahead) {
                    None => {
                        return count;
                    },
                    Some(tile) => {
                        if !tile.walkable {
                            return count + DEAD_END;
                        }
                        count = count + 1;
                        budget = budget - 1;
                        here = ahead;
                    },
                }
            },
        }
    }
}

/// Distance from `pos` to the edge of the map in `direction`.
fn room_of(map: &Vec<Vec<Option<Tile>>>, pos: &Coordinate, direction: &Direction) -> (left: usize)
    ensures
        left == room(grid_of(map), pos.pos(), *direction),
{
    proof {
        lemma_grid_fits(map);
    }
    let height: usize = map.len();
    let width: usize = if map.len() == 0 {
        0
    } else {
        map[0].len()
    };
    match direction {
        Direction::Up => pos.row,
        Direction::Left => pos.col,
        Direction::Down => if height > pos.row {
            height - pos.row
        } else {
            0
        },
        Direction::Right => if width > pos.col {
            width - pos.col
        } else {
            0
        },
    }
}

/// 1 if `p` is an unknown cell of the grid, else 0.
pub open spec fn unknown_at(g: Grid, p: (int, int)) -> nat {
    if undiscovered(g, p) {
        1
    } else {
        0
    }
}

/// Number of unknown cells among the eight cells that surround `c`. Cells
/// beyond the edge of the grid are not cells and do not count.
pub open spec fn undiscovered_around(g: Grid, c: (int, int)) -> nat {
    unknown_at(g, (c.0 - 1, c.1 - 1)) + unknown_at(g, (c.0 - 1, c.1)) + unknown_at(
        g,
        (c.0 - 1, c.1 + 1),
    ) + unknown_at(g, (c.0, c.1 - 1)) + unknown_at(g, (c.0, c.1 + 1)) + unknown_at(
        g,
        (c.0 + 1, c.1 - 1),
    ) + unknown_at(g, (c.0 + 1, c.1)) + unknown_at(g, (c.0 + 1, c.1 + 1))
}

/// `base` moved by `offset`, which is -1, 0 or 1, if the result is a `usize`.
fn shifted(base: usize, offset: i8) -> (r: Option<usize>)
    requires
        -1 <= offset <= 1,
    ensures
        match r {
            Some(v) => v == base + offset,
            None => base + offset < 0 || base + offset > usize::MAX,
        },
{
    if offset < 0 {
        base.checked_sub(1)
    } else if offset > 0 {
        base.checked_add(1)
    } else {
        Some(base)
    }
}

/// 1 if the cell at `pos` moved by the two offsets is an unknown cell of the map, else 0.
fn unknown_cell(map: &Vec<Vec<Option<Tile>>>, pos: &Coordinate, row_off: i8, col_off: i8) -> (n:
    usize)
    requires
        well_formed(grid_of(map)),
        -1 <= row_off <= 1,
        -1 <= col_off <= 1,
    ensures
        n == unknown_at(grid_of(map), (pos.row + row_off, pos.col + col_off)),
{
    proof {
        lemma_grid_fits(map);
    }
    match shifted(pos.row, row_off) {
        Some(row) => match shifted(pos.col, col_off) {
            Some(col) => {
                let c = Coordinate::new(row, col);
                if in_bounds(map, &c) && tile_of(map, &c).is_none() {
                    1
                } else {
                    0
                }
            },
            None => 0,
        },
        None => 0,
    }
}

/// Number of undiscovered tiles around the tile at position `pos`.
pub fn get_undiscovered_tiles_count(pos: &Coordinate, map: &Vec<Vec<Option<Tile>>>) -> (count:
    usize)
    requires
        well_formed(grid_of(map)),
    ensures
        count == undiscovered_around(grid_of(map), pos.pos()),
        count <= 8,
{
    unknown_cell(map, pos, -1, -1) + unknown_cell(map, pos, -1, 0) + unknown_cell(map, pos, -1, 1)
        + unknown_cell(map, pos, 0, -1) + unknown_cell(map, pos, 0, 1) + unknown_cell(
        map,
        pos,
        1,
        -1,
    ) + unknown_cell(map, pos, 1, 0) + unknown_cell(map, pos, 1, 1)
}

/// A step from `curr` in `direction` shortens the distance to `goal` along
/// the axis of the step.
pub open spec fn approaches(curr: (int, int), goal: (int, int), direction: Direction) -> bool {
    match direction {
        Direction::Up => curr.0 > goal.0,
        Direction::Down => curr.0 < goal.0,
        Direction::Left => curr.1 > goal.1,
        Direction::Right => curr.1 < goal.1,
    }
}

/// Says whether a step from `curr_pos` in `direction` brings the agent nearer
/// to `destination_coords` along the axis of the step.
pub fn getting_closer_to_destination_coords(
    curr_pos: &Coordinate,
    destination_coords: &Coordinate,
    direction: &Direction,
) -> (closer: bool)
    ensures
        closer == approaches(curr_pos.pos(), destination_coords.pos(), *direction),
{
    match direction {
        Direction::Up => curr_pos.row > destination_coords.row,
        Direction::Down => curr_pos.row < destination_coords.row,
        Direction::Left => curr_pos.col > destination_coords.col,
        Direction::Right => curr_pos.col < destination_coords.col,
    }
}


/// The move in direction `d` from `curr` may be made after `last_move`: the
/// agent stands on an observed cell, the neighbour is an observed walkable
/// cell of the map, and the move does not undo the last one.
pub open spec fn candidate_ok(g: Grid, curr: (int, int), last_move: Option<Direction>, d: Direction) -> bool {
    &&& known(g, curr)
    &&& passable(g, d.next(curr))
    &&& last_move != Some(d.opposite())
}

/// What the draw needs to know of the move in direction `d` from `curr`.
pub open spec fn possible_direction(g: Grid, curr: (int, int), params: NLACompassParams, d: Direction) -> PossibleDirection {
    PossibleDirection {
        direction: d,
        cost: move_cost(tile_at(g, curr).unwrap(), tile_at(g, d.next(curr)).unwrap(), params)
            as u128,
        undiscovered: undiscovered_around(g, d.next(curr)) as usize,
        tiles_until_undiscovered: frontier_distance(g, curr, d) as u128,
    }
}

/// The move in direction `d` as zero or one candidates.
pub open spec fn candidate_toward(
    g: Grid,
    curr: (int, int),
    params: NLACompassParams,
    last_move: Option<Direction>,
    d: Direction,
) -> Seq<PossibleDirection> {
    if candidate_ok(g, curr, last_move, d) {
        seq![possible_direction(g, curr, params, d)]
    } else {
        seq![]
    }
}

/// The candidates at `curr` after `last_move`, in the order left, down,
/// right, up.
pub open spec fn candidates(
    g: Grid,
    curr: (int, int),
    params: NLACompassParams,
    last_move: Option<Direction>,
) -> Seq<PossibleDirection> {
    candidate_toward(g, curr, params, last_move, Direction::Left) + candidate_toward(
        g,
        curr,
        params,
        last_move,
        Direction::Down,
    ) + candidate_toward(g, curr, params, last_move, Direction::Right) + candidate_toward(
        g,
        curr,
        params,
        last_move,
        Direction::Up,
    )
}

/// The sum of the entry costs of `c`.
pub open spec fn cost_sum(c: Seq<PossibleDirection>) -> nat
    decreases c.len(),
{
    if c.len() == 0 {
        0
    } else {
        cost_sum(c.drop_last()) + c.last().cost as nat
    }
}

/// The cost by which a candidate is drawn. With `total` the capped sum of the
/// entry costs of all candidates:
/// `(cost + total / (undiscovered + weight))^spread + corridor^frontier`,
/// the quotient rounded down and each step capped, and the whole raised to
/// the retreat exponent when the move does not approach the coordinate that
/// is sought.
pub open spec fn adjusted_cost(c: PossibleDirection, total: nat, retreats: bool, params: NLACompassParams) -> nat {
    let shared = total / ((c.undiscovered + params.cost_disc_tiles_proportion) as nat);
    let spread = cap(power(cap(c.cost as nat + shared), params.cost_spread_pow as nat));
    let base = cap(
        spread + raised(c.tiles_until_undiscovered as nat, params.dist_from_undiscovered_pow),
    );
    if retreats {
        raised(base, params.getting_further_to_coords_pow)
    } else {
        base
    }
}

/// The move of `c` from `curr` does not approach `goal`, where a goal is given.
pub open spec fn retreats(curr: (int, int), goal: Option<(int, int)>, c: PossibleDirection) -> bool {
    match goal {
        Some(p) => !approaches(curr, p, c.direction),
        None => false,
    }
}

/// The costs by which the candidates `c` are drawn.
pub open spec fn adjusted_costs(
    c: Seq<PossibleDirection>,
    curr: (int, int),
    goal: Option<(int, int)>,
    params: NLACompassParams,
) -> Seq<u128> {
    Seq::new(
        c.len(),
        |i: int| adjusted_cost(c[i], cap(cost_sum(c)), retreats(curr, goal, c[i]), params) as u128,
    )
}

/// What the draw needs to know of the move toward `tile_with_dir`, if that
/// move can be made: the neighbour is observed and walkable and the agent
/// stands on an observed cell.
pub fn get_possible_direction(
    robot_map: &Vec<Vec<Option<Tile>>>,
    curr_pos: &Coordinate,
    params: &NLACompassParams,
    tile_with_dir: &(Direction, Option<TileWithCordinates>),
) -> (result: Option<PossibleDirection>)
    requires
        well_formed(grid_of(robot_map)),
        params.well_formed(),
        tile_with_dir.1 == adjacent_tile(grid_of(robot_map), curr_pos.pos(), tile_with_dir.0),
    ensures
        result == if candidate_ok(grid_of(robot_map), curr_pos.pos(), None, tile_with_dir.0) {
            Some(
                possible_direction(grid_of(robot_map), curr_pos.pos(), *params, tile_with_dir.0),
            )
        } else {
            None
        },
{
    let direction = tile_with_dir.0;
    let ghost g = grid_of(robot_map);
    let ghost ahead = direction.next(curr_pos.pos());
    let next = match tile_with_dir.1 {
        Some(t) => t,
        None => {
            return None;
        },
    };
    let curr = match tile_of(robot_map, curr_pos) {
        Some(t) => t,
        None => {
            return None;
        },
    };
    if !next.tile.walkable {
        None
    } else {
        proof {
            lemma_inside_fits(g, ahead);
            assert(next.pos.pos() == ahead);
            lemma_move_cost_capped(curr, next.tile, *params);
            lemma_frontier_bound(g, curr_pos.pos(), direction);
        }
        Some(
            PossibleDirection {
                direction,
                cost: move_cost_estimation(&curr, &next.tile, params),
                undiscovered: get_undiscovered_tiles_count(&next.pos, robot_map),
                tiles_until_undiscovered: get_tiles_count_until_undiscovered(
                    curr_pos,
                    robot_map,
                    &direction,
                ),
            },
        )
    }
}

/// A corridor is no longer than the grid is wide or high, dead end included.
pub proof fn lemma_frontier_bound(g: Grid, from: (int, int), d: Direction)
    ensures
        frontier_distance(g, from, d) <= room(g, from, d) + DEAD_END,
    decreases room(g, from, d),
{
    let ahead = d.next(from);
    if inside(g, ahead) && tile_at(g, ahead) is Some && passable(g, ahead) {
        lemma_frontier_bound(g, ahead, d);
    }
}


/// The capped sum of the entry costs of the candidates.
fn total_cost(c: &Vec<PossibleDirection>) -> (total: u128)
    ensures
        total == cap(cost_sum(c@)),
{
    let mut total: u128 = 0;
    let mut i: usize = 0;
    assert(c@.take(0) =~= Seq::<PossibleDirection>::empty());
    while i < c.len()
        invariant
            i <= c.len(),
            total == cap(cost_sum(c@.take(i as int))),
        decreases c.len() - i,
    {
        assert(c@.take(i + 1).drop_last() =~= c@.take(i as int));
        total = add_capped(total, c[i].cost);
        i = i + 1;
    }
    assert(c@.take(c.len() as int) =~= c@);
    total
}

/// The cost by which the candidate `c` is drawn, `total` being the capped sum
/// of the entry costs of all candidates.
pub fn adjust_cost(c: &PossibleDirection, total: u128, retreat: bool, params: &NLACompassParams) -> (cost:
    u128)
    requires
        params.well_formed(),
    ensures
        cost == adjusted_cost(*c, total as nat, retreat, *params),
{
    let divisor: u128 = c.undiscovered as u128 + params.cost_disc_tiles_proportion as u128;
    let shared: u128 = total / divisor;
    let spread: u128 = pow_saturating(add_capped(c.cost, shared), params.cost_spread_pow);
    let corridor: u128 = raise(c.tiles_until_undiscovered, &params.dist_from_undiscovered_pow);
    let base: u128 = add_capped(spread, corridor);
    if retreat {
        raise(base, &params.getting_further_to_coords_pow)
    } else {
        base
    }
}

/// The cost of a candidate never exceeds the cap.
pub proof fn lemma_adjusted_cost_capped(
    c: PossibleDirection,
    total: nat,
    retreat: bool,
    params: NLACompassParams,
)
    requires
        params.well_formed(),
    ensures
        adjusted_cost(c, total, retreat, params) <= u128::MAX,
{
    let shared = total / ((c.undiscovered + params.cost_disc_tiles_proportion) as nat);
    let spread = cap(power(cap(c.cost as nat + shared), params.cost_spread_pow as nat));
    let base = cap(
        spread + raised(c.tiles_until_undiscovered as nat, params.dist_from_undiscovered_pow),
    );
    lemma_raised_capped(base, params.getting_further_to_coords_pow);
}

/// The candidate in the direction of `entry`, if the move may be made after
/// `last_move`.
fn consider(
    robot_map: &Vec<Vec<Option<Tile>>>,
    curr_pos: &Coordinate,
    params: &NLACompassParams,
    last_move: &Option<Direction>,
    entry: &(Direction, Option<TileWithCordinates>),
) -> (found: Option<PossibleDirection>)
    requires
        well_formed(grid_of(robot_map)),
        params.well_formed(),
        entry.1 == adjacent_tile(grid_of(robot_map), curr_pos.pos(), entry.0),
    ensures
        candidate_toward(grid_of(robot_map), curr_pos.pos(), *params, *last_move, entry.0)
            == match found {
            Some(p) => seq![p],
            None => seq![],
        },
{
    proof {
        lemma_opposite_involution(entry.0);
        if let Some(lm) = *last_move {
            lemma_opposite_involution(lm);
        }
    }
    if let Some(lm) = last_move {
        if entry.0 == get_opposite_direction(lm) {
            return None;
        }
    }
    get_possible_direction(robot_map, curr_pos, params, entry)
}

/// The position of an optional coordinate.
pub open spec fn goal_pos(goal: Option<&Coordinate>) -> Option<(int, int)> {
    match goal {
        Some(c) => Some(c.pos()),
        None => None,
    }
}

/// Every candidate is a move that may be made.
pub proof fn lemma_candidates_ok(
    g: Grid,
    curr: (int, int),
    params: NLACompassParams,
    last_move: Option<Direction>,
    i: int,
)
    requires
        0 <= i < candidates(g, curr, params, last_move).len(),
    ensures
        candidate_ok(g, curr, last_move, candidates(g, curr, params, last_move)[i].direction),
{
    let l = candidate_toward(g, curr, params, last_move, Direction::Left);
    let d = candidate_toward(g, curr, params, last_move, Direction::Down);
    let r = candidate_toward(g, curr, params, last_move, Direction::Right);
    let u = candidate_toward(g, curr, params, last_move, Direction::Up);
    let all = candidates(g, curr, params, last_move);
    if i < l.len() {
        assert(all[i] == l[i]);
    } else if i < l.len() + d.len() {
        assert(all[i] == d[i - l.len()]);
    } else if i < l.len() + d.len() + r.len() {
        assert(all[i] == r[i - l.len() - d.len()]);
    } else {
        assert(all[i] == u[i - l.len() - d.len() - r.len()]);
    }
}

/// What holds of every outcome of the draw at `curr` after `last_move`, with
/// `goal` as the coordinate sought, if any: a direction is that of a
/// candidate with a positive weight, and so a move that may be made; an error
/// is `NoAvailableMove` and comes only when no candidate has a weight.
pub open spec fn exploring_outcome(
    g: Grid,
    curr: (int, int),
    goal: Option<(int, int)>,
    params: NLACompassParams,
    last_move: Option<Direction>,
    result: Result<Direction, MoveError>,
) -> bool {
    let c = candidates(g, curr, params, last_move);
    let costs = adjusted_costs(c, curr, goal, params);
    match result {
        Ok(d) => {
            &&& candidate_ok(g, curr, last_move, d)
            &&& exists|i: int|
                0 <= i < c.len() && (#[trigger] c[i]).direction == d && weight_of(
                    costs[i],
                    c.len(),
                ) > 0
        },
        Err(e) => e == MoveError::NoAvailableMove && !drawable(costs),
    }
}

/// Whatever the draw gives, the move returned is not the reverse of the
/// last move.
pub proof fn lemma_never_turns_back(
    g: Grid,
    curr: (int, int),
    goal: Option<(int, int)>,
    params: NLACompassParams,
    last_move: Direction,
    d: Direction,
)
    requires
        exploring_outcome(g, curr, goal, params, Some(last_move), Ok(d)),
    ensures
        d != last_move.opposite(),
        passable(g, d.next(curr)),
{
    lemma_opposite_involution(last_move);
}

/// Chooses the next move by a weighted draw among the neighbours of
/// `curr_pos` that may be entered, the reverse of `last_move` left out.
///
/// A direction is returned exactly when some candidate has a positive weight
/// for its [`adjusted_cost`]; it is then the direction of such a candidate,
/// and so names an observed walkable neighbour and never undoes `last_move`.
/// Otherwise `NoAvailableMove` is returned.
pub fn get_move(
    robot_map: &Vec<Vec<Option<Tile>>>,
    curr_pos: &Coordinate,
    destination_coords: Option<&Coordinate>,
    params: &NLACompassParams,
    last_move: &Option<Direction>,
    source: &mut RandomSource,
) -> (result: Result<Direction, MoveError>)
    requires
        well_formed(grid_of(robot_map)),
        params.well_formed(),
    ensures
        exploring_outcome(
            grid_of(robot_map),
            curr_pos.pos(),
            goal_pos(destination_coords),
            *params,
            *last_move,
            result,
        ),
{
    let ghost g = grid_of(robot_map);
    let ghost here = curr_pos.pos();
    let ghost goal = goal_pos(destination_coords);
    let adj_tiles = get_adjacent_tiles(curr_pos, robot_map);
    let mut possible_directions: Vec<PossibleDirection> = Vec::new();
    assert(adj_tiles@[0].0 == Direction::Left && adj_tiles@[1].0 == Direction::Down
        && adj_tiles@[2].0 == Direction::Right && adj_tiles@[3].0 == Direction::Up);
    if let Some(p) = consider(robot_map, curr_pos, params, last_move, &adj_tiles[0]) {
        possible_directions.push(p);
    }
    assert(possible_directions@ =~= candidate_toward(g, here, *params, *last_move, Direction::Left));
    if let Some(p) = consider(robot_map, curr_pos, params, last_move, &adj_tiles[1]) {
        possible_directions.push(p);
    }
    assert(possible_directions@ =~= candidate_toward(g, here, *params, *last_move, Direction::Left)
        + candidate_toward(g, here, *params, *last_move, Direction::Down));
    if let Some(p) = consider(robot_map, curr_pos, params, last_move, &adj_tiles[2]) {
        possible_directions.push(p);
    }
    assert(possible_directions@ =~= candidate_toward(g, here, *params, *last_move, Direction::Left)
        + candidate_toward(g, here, *params, *last_move, Direction::Down) + candidate_toward(
        g,
        here,
        *params,
        *last_move,
        Direction::Right,
    ));
    if let Some(p) = consider(robot_map, curr_pos, params, last_move, &adj_tiles[3]) {
        possible_directions.push(p);
    }
    assert(possible_directions@ =~= candidates(g, here, *params, *last_move));

    let cost_tot: u128 = total_cost(&possible_directions);
    let mut costs: Vec<u128> = Vec::new();
    let mut i: usize = 0;
    while i < possible_directions.len()
        invariant
            i <= possible_directions.len(),
            params.well_formed(),
            here == curr_pos.pos(),
            goal == goal_pos(destination_coords),
            cost_tot == cap(cost_sum(possible_directions@)),
            costs.len() == i,
            forall|k: int|
                0 <= k < i ==> #[trigger] costs[k] == adjusted_costs(
                    possible_directions@,
                    here,
                    goal,
                    *params,
                )[k],
        decreases possible_directions.len() - i,
    {
        let c = possible_directions[i];
        let retreat: bool = match destination_coords {
            Some(dest) => !getting_closer_to_destination_coords(curr_pos, dest, &c.direction),
            None => false,
        };
        proof {
            lemma_adjusted_cost_capped(c, cost_tot as nat, retreat, *params);
        }
        costs.push(adjust_cost(&c, cost_tot, retreat, params));
        i = i + 1;
    }
    assert(costs@ =~= adjusted_costs(possible_directions@, here, goal, *params));
    match inverse_weighted_choice(&costs, source) {
        Ok(chosen) => {
            proof {
                lemma_candidates_ok(g, here, *params, *last_move, chosen as int);
            }
            Ok(possible_directions[chosen].direction)
        },
        Err(e) => Err(e),
    }
}

} // verus!
