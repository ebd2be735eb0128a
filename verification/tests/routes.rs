use nla_compass::coordinate::Direction;
use nla_compass::cost::{cost_elevation_diff, cost_tile_entrance, move_cost_estimation};
use nla_compass::dijkstra::{find_path, get_cost, get_direction, get_path_vector, successors};
use nla_compass::error::MoveError;
use nla_compass::params::NLACompassParams;
use nla_compass::tile::{Content, Tile, TileType};

fn plain(elevation: usize, entry_cost: usize) -> Option<Tile> {
    Some(Tile::new(TileType::Grass, Content::Nothing, elevation, entry_cost, true))
}

fn rock_wall() -> Option<Tile> {
    Some(Tile::new(TileType::Wall, Content::Nothing, 0, 0, false))
}

fn level(rows: usize, cols: usize) -> Vec<Vec<Option<Tile>>> {
    vec![vec![plain(0, 1); cols]; rows]
}

fn distance(a: (usize, usize), b: (usize, usize)) -> usize {
    a.0.abs_diff(b.0) + a.1.abs_diff(b.1)
}

fn after(pos: (usize, usize), d: Direction) -> (usize, usize) {
    match d {
        Direction::Up => (pos.0 - 1, pos.1),
        Direction::Down => (pos.0 + 1, pos.1),
        Direction::Left => (pos.0, pos.1 - 1),
        Direction::Right => (pos.0, pos.1 + 1),
    }
}

#[test]
fn climbing_costs_more_than_descending() {
    let params = NLACompassParams::default();
    let low = Tile::new(TileType::Grass, Content::Nothing, 2, 1, true);
    let high = Tile::new(TileType::Grass, Content::Nothing, 5, 1, true);
    assert_eq!(cost_tile_entrance(&high), 1);
    assert_eq!(cost_elevation_diff(&low, &high, &params), 9);
    assert_eq!(cost_elevation_diff(&high, &low, &params), 5);
    assert_eq!(move_cost_estimation(&low, &high, &params), 10);
    assert_eq!(move_cost_estimation(&high, &low, &params), 6);
    assert_eq!(move_cost_estimation(&low, &low, &params), 1);
    assert_eq!(get_cost(&low, &high, &params), 10);
}

#[test]
fn climbing_costs_more_whatever_way_the_exponent_is_written() {
    let low = Tile::new(TileType::Grass, Content::Nothing, 0, 1, true);
    let high = Tile::new(TileType::Grass, Content::Nothing, 3, 1, true);
    for (num, den, descent) in [(3u32, 2u32, 6u128), (150, 100, 6), (81, 41, 9), (199, 100, 9), (1, 1, 4), (0, 1, 2)] {
        let mut params = NLACompassParams::default();
        params.cost_neg_el_diff_pow.num = num;
        params.cost_neg_el_diff_pow.den = den;
        assert!(params.is_well_formed());
        assert_eq!(move_cost_estimation(&low, &high, &params), 10);
        assert_eq!(move_cost_estimation(&high, &low, &params), descent);
    }
    // A drop of 371 with one and a half written as 15/10.
    let deep = Tile::new(TileType::Grass, Content::Nothing, 371, 1, true);
    let mut params = NLACompassParams::default();
    params.cost_neg_el_diff_pow.num = 15;
    params.cost_neg_el_diff_pow.den = 10;
    assert_eq!(move_cost_estimation(&deep, &low, &params), 7146);
    assert_eq!(move_cost_estimation(&low, &deep, &params), 137642);
}

#[test]
fn a_route_goes_down_a_drop_with_a_large_numerator() {
    let mut params = NLACompassParams::default();
    params.cost_neg_el_diff_pow.num = 150;
    params.cost_neg_el_diff_pow.den = 100;
    let mut map = level(1, 3);
    map[0][0] = plain(3, 1);
    assert_eq!(successors(&map, &params, &(0, 0)), vec![((0, 1), 6)]);
    assert_eq!(find_path((0, 0), (0, 2), &map, &params), Ok(vec![(0, 0), (0, 1), (0, 2)]));
}

#[test]
fn entry_cost_is_that_of_the_tile_entered() {
    let params = NLACompassParams::default();
    let sand = Tile::new(TileType::Sand, Content::Nothing, 0, 3, true);
    let grass = Tile::new(TileType::Grass, Content::Nothing, 0, 1, true);
    assert_eq!(move_cost_estimation(&grass, &sand, &params), 3);
    assert_eq!(move_cost_estimation(&sand, &grass, &params), 1);
}

#[test]
fn huge_elevations_do_not_overflow() {
    let params = NLACompassParams::default();
    let low = Tile::new(TileType::Grass, Content::Nothing, 0, usize::MAX, true);
    let high = Tile::new(TileType::Grass, Content::Nothing, usize::MAX, usize::MAX, true);
    let m = usize::MAX as u128;
    assert_eq!(move_cost_estimation(&low, &high, &params), m * m + m);
    if usize::BITS == 64 {
        // The integer part of the square root of m^3, and the entry cost m.
        assert_eq!(
            move_cost_estimation(&high, &low, &params),
            79228162514264337587101499392 + m
        );
    }
}

#[test]
fn successors_in_order_left_right_up_down() {
    let params = NLACompassParams::default();
    let mut map = level(3, 3);
    map[1][0] = plain(2, 1);
    map[0][1] = rock_wall();
    map[2][1] = None;
    let s = successors(&map, &params, &(1, 1));
    assert_eq!(s, vec![((1, 0), 5), ((1, 2), 1)]);
    assert_eq!(successors(&map, &params, &(0, 0)), vec![((1, 0), 5)]);
    assert_eq!(successors(&map, &params, &(2, 1)), vec![]);
    assert_eq!(successors(&map, &params, &(7, 7)), vec![]);
    // A wall can be left, though never entered.
    assert_eq!(successors(&map, &params, &(0, 1)), vec![((0, 0), 1), ((0, 2), 1), ((1, 1), 1)]);
}

#[test]
fn first_move_approaches_the_goal_on_level_ground() {
    let params = NLACompassParams::default();
    let map = level(5, 4);
    for sr in 0..5 {
        for sc in 0..4 {
            for gr in 0..5 {
                for gc in 0..4 {
                    let start = (sr, sc);
                    let goal = (gr, gc);
                    if start == goal {
                        assert_eq!(
                            find_path(start, goal, &map, &params),
                            Err(MoveError::NoAvailableMove)
                        );
                        continue;
                    }
                    let path = find_path(start, goal, &map, &params).expect("a route");
                    assert_eq!(path.len(), distance(start, goal) + 1);
                    assert_eq!(path[0], start);
                    assert_eq!(*path.last().unwrap(), goal);
                    let d = get_direction(&path).expect("a direction");
                    assert_eq!(after(start, d), path[1]);
                    assert!(distance(path[1], goal) < distance(start, goal));
                }
            }
        }
    }
}

#[test]
fn same_request_same_route() {
    let params = NLACompassParams::default();
    let mut map = level(4, 4);
    map[1][1] = plain(3, 1);
    map[2][2] = rock_wall();
    let first = find_path((0, 0), (3, 3), &map, &params).unwrap();
    let second = find_path((0, 0), (3, 3), &map, &params).unwrap();
    assert_eq!(first, second);
    assert_eq!(get_direction(&first), get_direction(&second));
}

#[test]
fn route_goes_round_what_is_dear() {
    let params = NLACompassParams::default();
    let mut map = level(3, 3);
    map[0][1] = plain(5, 1);
    let path = find_path((0, 0), (0, 2), &map, &params).unwrap();
    assert_eq!(path, vec![(0, 0), (1, 0), (1, 1), (1, 2), (0, 2)]);
    // Over a low ridge the straight way costs 2 + 2, as much as the way round:
    // of two equally cheap routes the one found first is kept.
    map[0][1] = plain(1, 1);
    let path = find_path((0, 0), (0, 2), &map, &params).unwrap();
    assert_eq!(path, vec![(0, 0), (0, 1), (0, 2)]);
}

#[test]
fn no_route_through_walls_or_unknown_cells() {
    let params = NLACompassParams::default();
    let mut map = level(3, 3);
    map[0][1] = rock_wall();
    map[1][1] = None;
    map[2][1] = rock_wall();
    assert_eq!(find_path((0, 0), (0, 2), &map, &params), Err(MoveError::NoAvailableMove));
    assert_eq!(get_path_vector((0, 0), (0, 2), &map, &params), vec![(0, 2)]);
    assert_eq!(get_path_vector((0, 0), (0, 0), &map, &params), vec![(0, 0)]);
    assert_eq!(get_path_vector((0, 0), (9, 9), &map, &params), vec![(9, 9)]);
    assert_eq!(find_path((0, 0), (2, 0), &map, &params), Ok(vec![(0, 0), (1, 0), (2, 0)]));
    // From an unknown cell nothing is reached.
    assert_eq!(find_path((1, 1), (0, 0), &map, &params), Err(MoveError::NoAvailableMove));
}

#[test]
fn directions_of_a_route() {
    assert_eq!(get_direction(&vec![]), Err(MoveError::NoAvailableMove));
    assert_eq!(get_direction(&vec![(1, 1)]), Err(MoveError::NoAvailableMove));
    assert_eq!(get_direction(&vec![(1, 1), (1, 2)]), Ok(Direction::Right));
    assert_eq!(get_direction(&vec![(1, 1), (1, 0)]), Ok(Direction::Left));
    assert_eq!(get_direction(&vec![(1, 1), (2, 1)]), Ok(Direction::Down));
    assert_eq!(get_direction(&vec![(1, 1), (0, 1), (0, 0)]), Ok(Direction::Up));
}
