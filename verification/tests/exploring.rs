use nla_compass::coordinate::{Coordinate, Direction};
use nla_compass::error::MoveError;
use nla_compass::explorer::{
    adjust_cost, get_adjacent_tile, get_adjacent_tiles, get_move, get_possible_direction,
    get_tiles_count_until_undiscovered, get_undiscovered_tiles_count,
    getting_closer_to_destination_coords, ordered_directions, PossibleDirection,
};
use nla_compass::params::NLACompassParams;
use nla_compass::selection::RandomSource;
use nla_compass::tile::{Content, Tile, TileType};

fn meadow(elevation: usize) -> Option<Tile> {
    Some(Tile::new(TileType::Grass, Content::Nothing, elevation, 1, true))
}

fn water() -> Option<Tile> {
    Some(Tile::new(TileType::DeepWater, Content::Nothing, 0, 0, false))
}

/// A 5x5 map whose upper left 3x3 corner is known.
fn corner_known() -> Vec<Vec<Option<Tile>>> {
    let mut map: Vec<Vec<Option<Tile>>> = vec![vec![None; 5]; 5];
    for r in 0..3 {
        for c in 0..3 {
            map[r][c] = meadow(0);
        }
    }
    map
}

fn reverse(d: Direction) -> Direction {
    match d {
        Direction::Up => Direction::Down,
        Direction::Down => Direction::Up,
        Direction::Left => Direction::Right,
        Direction::Right => Direction::Left,
    }
}

#[test]
fn neighbours_are_considered_left_down_right_up() {
    assert_eq!(
        ordered_directions(),
        vec![Direction::Left, Direction::Down, Direction::Right, Direction::Up]
    );
    let map = corner_known();
    let tiles = get_adjacent_tiles(&Coordinate::new(2, 0), &map);
    assert_eq!(tiles.len(), 4);
    assert_eq!(tiles[0].0, Direction::Left);
    assert!(tiles[0].1.is_none());
    assert_eq!(tiles[1].0, Direction::Down);
    assert!(tiles[1].1.is_none());
    assert_eq!(tiles[2].0, Direction::Right);
    assert_eq!(tiles[2].1.unwrap().pos, Coordinate::new(2, 1));
    assert_eq!(tiles[3].0, Direction::Up);
    assert_eq!(tiles[3].1.unwrap().pos, Coordinate::new(1, 0));
}

#[test]
fn adjacent_tile_at_the_edges() {
    let map = corner_known();
    let corner = Coordinate::new(0, 0);
    assert!(get_adjacent_tile(&corner, &map, &Direction::Up).is_none());
    assert!(get_adjacent_tile(&corner, &map, &Direction::Left).is_none());
    let right = get_adjacent_tile(&corner, &map, &Direction::Right).unwrap();
    assert_eq!(right.pos, Coordinate::new(0, 1));
    assert_eq!(right.tile, meadow(0).unwrap());
    let far = Coordinate::new(4, 4);
    assert!(get_adjacent_tile(&far, &map, &Direction::Down).is_none());
    assert!(get_adjacent_tile(&far, &map, &Direction::Right).is_none());
    let edge = Coordinate::new(usize::MAX, usize::MAX);
    assert!(get_adjacent_tile(&edge, &map, &Direction::Down).is_none());
    assert!(get_adjacent_tile(&edge, &map, &Direction::Right).is_none());
}

#[test]
fn corridor_lengths() {
    let mut map = corner_known();
    let from = Coordinate::new(1, 0);
    // Two known cells ahead, then an unknown one.
    assert_eq!(get_tiles_count_until_undiscovered(&from, &map, &Direction::Right), 2);
    // One known cell below, then an unknown one.
    assert_eq!(get_tiles_count_until_undiscovered(&from, &map, &Direction::Down), 1);
    // The edge of the map at once, and after one cell.
    assert_eq!(get_tiles_count_until_undiscovered(&from, &map, &Direction::Left), 100);
    assert_eq!(get_tiles_count_until_undiscovered(&from, &map, &Direction::Up), 101);
    // Water ends a corridor as the edge does.
    map[1][2] = water();
    assert_eq!(get_tiles_count_until_undiscovered(&from, &map, &Direction::Right), 101);
    // An unknown cell at once.
    assert_eq!(
        get_tiles_count_until_undiscovered(&Coordinate::new(2, 2), &map, &Direction::Down),
        0
    );
}

#[test]
fn unknown_cells_around() {
    let map = corner_known();
    assert_eq!(get_undiscovered_tiles_count(&Coordinate::new(0, 0), &map), 0);
    assert_eq!(get_undiscovered_tiles_count(&Coordinate::new(1, 1), &map), 0);
    assert_eq!(get_undiscovered_tiles_count(&Coordinate::new(2, 2), &map), 5);
    assert_eq!(get_undiscovered_tiles_count(&Coordinate::new(0, 2), &map), 2);
    assert_eq!(get_undiscovered_tiles_count(&Coordinate::new(2, 1), &map), 3);
    assert_eq!(get_undiscovered_tiles_count(&Coordinate::new(3, 3), &map), 7);
    assert_eq!(get_undiscovered_tiles_count(&Coordinate::new(4, 4), &map), 3);
    assert_eq!(get_undiscovered_tiles_count(&Coordinate::new(9, 9), &map), 0);
}

#[test]
fn approaching_along_the_axis_of_the_step() {
    let here = Coordinate::new(2, 2);
    let goal = Coordinate::new(0, 4);
    assert!(getting_closer_to_destination_coords(&here, &goal, &Direction::Up));
    assert!(getting_closer_to_destination_coords(&here, &goal, &Direction::Right));
    assert!(!getting_closer_to_destination_coords(&here, &goal, &Direction::Down));
    assert!(!getting_closer_to_destination_coords(&here, &goal, &Direction::Left));
    let level_goal = Coordinate::new(2, 0);
    assert!(!getting_closer_to_destination_coords(&here, &level_goal, &Direction::Up));
    assert!(getting_closer_to_destination_coords(&here, &level_goal, &Direction::Left));
}

#[test]
fn what_a_candidate_holds() {
    let params = NLACompassParams::default();
    let mut map = corner_known();
    map[1][2] = meadow(2);
    let here = Coordinate::new(1, 1);
    let tiles = get_adjacent_tiles(&here, &map);
    let right = get_possible_direction(&map, &here, &params, &tiles[2]).unwrap();
    assert_eq!(
        right,
        PossibleDirection {
            direction: Direction::Right,
            cost: 5,
            undiscovered: 3,
            tiles_until_undiscovered: 1,
        }
    );
    let up = get_possible_direction(&map, &here, &params, &tiles[3]).unwrap();
    assert_eq!(up.cost, 1);
    assert_eq!(up.undiscovered, 0);
    assert_eq!(up.tiles_until_undiscovered, 101);
    map[1][0] = water();
    let tiles = get_adjacent_tiles(&here, &map);
    assert!(get_possible_direction(&map, &here, &params, &tiles[0]).is_none());
    // From an unknown cell there is no candidate.
    let lost = Coordinate::new(3, 2);
    let tiles = get_adjacent_tiles(&lost, &map);
    assert!(get_possible_direction(&map, &lost, &params, &tiles[3]).is_none());
}

#[test]
fn the_cost_by_which_a_candidate_is_drawn() {
    let params = NLACompassParams::default();
    let c = PossibleDirection {
        direction: Direction::Up,
        cost: 1,
        undiscovered: 0,
        tiles_until_undiscovered: 101,
    };
    // (1 + 2 / 1)^3 + 101^3
    assert_eq!(adjust_cost(&c, 2, false, &params), 1030328);
    assert_eq!(adjust_cost(&c, 2, true, &params), 1161121084722240930697214394368);
    let d = PossibleDirection {
        direction: Direction::Right,
        cost: 1,
        undiscovered: 3,
        tiles_until_undiscovered: 2,
    };
    // (1 + 3 / 4)^3 + 2^3, the quotient rounded down
    assert_eq!(adjust_cost(&d, 3, false, &params), 9);
    let mut wide = params;
    wide.cost_disc_tiles_proportion = 2;
    wide.cost_spread_pow = 2;
    // (1 + 10 / 5)^2 + 2^3
    assert_eq!(adjust_cost(&d, 10, false, &wide), 17);
    // An unbounded cost stays unbounded.
    let dear = PossibleDirection { cost: u128::MAX, ..d };
    assert_eq!(adjust_cost(&dear, u128::MAX, false, &params), u128::MAX);
}

#[test]
fn the_last_move_is_never_undone() {
    // On open level ground the four neighbours cost the same.
    let params = NLACompassParams::default();
    let map = vec![vec![meadow(0); 5]; 5];
    let here = Coordinate::new(2, 2);
    let all = [Direction::Up, Direction::Down, Direction::Left, Direction::Right];
    let mut source = RandomSource::seeded(17);
    for last in all.iter() {
        let mut seen = Vec::new();
        for _ in 0..300 {
            let d = get_move(&map, &here, None, &params, &Some(*last), &mut source).unwrap();
            assert_ne!(d, reverse(*last));
            if !seen.contains(&d) {
                seen.push(d);
            }
        }
        assert_eq!(seen.len(), 3);
    }
}

#[test]
fn only_the_way_back_is_left() {
    // A dead end: the one open neighbour is where the agent came from.
    let params = NLACompassParams::default();
    let mut map = corner_known();
    map[0][1] = water();
    map[1][0] = water();
    let mut source = RandomSource::seeded(3);
    let here = Coordinate::new(0, 0);
    assert_eq!(
        get_move(&map, &here, None, &params, &Some(Direction::Up), &mut source),
        Err(MoveError::NoAvailableMove)
    );
    map[1][0] = meadow(0);
    assert_eq!(
        get_move(&map, &here, None, &params, &Some(Direction::Up), &mut source),
        Err(MoveError::NoAvailableMove)
    );
    assert_eq!(
        get_move(&map, &here, None, &params, &Some(Direction::Left), &mut source),
        Ok(Direction::Down)
    );
    assert_eq!(get_move(&map, &here, None, &params, &None, &mut source), Ok(Direction::Down));
}

#[test]
fn unknown_ground_draws_the_agent() {
    // From (1,1) the corridors right and down meet unknown ground, those
    // left and up end at the edge of the map.
    let params = NLACompassParams::default();
    let map = corner_known();
    let here = Coordinate::new(1, 1);
    let mut source = RandomSource::seeded(8);
    let mut toward_unknown = 0;
    for _ in 0..1_000 {
        let d = get_move(&map, &here, None, &params, &None, &mut source).unwrap();
        if d == Direction::Right || d == Direction::Down {
            toward_unknown += 1;
        }
    }
    assert!(toward_unknown > 990, "toward unknown ground {} times", toward_unknown);
}

#[test]
fn retreating_from_the_goal_is_rare() {
    let params = NLACompassParams::default();
    let map = vec![vec![meadow(0); 5]; 5];
    let here = Coordinate::new(2, 2);
    let goal = Coordinate::new(0, 0);
    let mut source = RandomSource::seeded(21);
    let mut approaching = 0;
    for _ in 0..1_000 {
        let d = get_move(&map, &here, Some(&goal), &params, &None, &mut source).unwrap();
        if d == Direction::Up || d == Direction::Left {
            approaching += 1;
        }
    }
    assert_eq!(approaching, 1_000);
}

#[test]
fn every_candidate_unbounded() {
    // With a huge retreat exponent every cost is unbounded, and nothing is drawn.
    let mut params = NLACompassParams::default();
    params.getting_further_to_coords_pow.num = 1_000;
    assert!(params.is_well_formed());
    let map = vec![vec![meadow(0); 3]; 3];
    let here = Coordinate::new(0, 0);
    let goal = Coordinate::new(0, 0);
    let mut source = RandomSource::seeded(2);
    assert_eq!(
        get_move(&map, &here, Some(&goal), &params, &None, &mut source),
        Err(MoveError::NoAvailableMove)
    );
}
