use nla_compass::compass::{Destination, NLACompass};
use nla_compass::coordinate::Direction;
use nla_compass::error::MoveError;
use nla_compass::grid::is_well_formed_map;
use nla_compass::tile::{Content, Tile, TileType};

fn grass(elevation: usize) -> Option<Tile> {
    Some(Tile::new(TileType::Grass, Content::Nothing, elevation, 1, true))
}

fn flat_map(rows: usize, cols: usize) -> Vec<Vec<Option<Tile>>> {
    vec![vec![grass(0); cols]; rows]
}

fn moved(pos: (usize, usize), d: Direction) -> (usize, usize) {
    match d {
        Direction::Up => (pos.0 - 1, pos.1),
        Direction::Down => (pos.0 + 1, pos.1),
        Direction::Left => (pos.0, pos.1 - 1),
        Direction::Right => (pos.0, pos.1 + 1),
    }
}

#[test]
fn test_main() {
    // One agent, one destination, one call per tick until arrival.
    let map = flat_map(6, 6);
    assert!(is_well_formed_map(&map));
    let mut compass = NLACompass::new();
    compass.set_destination(Destination::Coordinate((4, 5)));
    let mut pos = (0usize, 0usize);
    let mut ticks = 0;
    loop {
        match compass.get_move(&map, pos) {
            Ok(d) => pos = moved(pos, d),
            Err(MoveError::AlreadyAtDestination) => break,
            Err(e) => panic!("no move: {:?}", e),
        }
        ticks += 1;
        assert!(ticks <= 9);
    }
    assert_eq!(pos, (4, 5));
    assert_eq!(ticks, 9);
    assert!(compass.get_destination().is_none());
}

#[test]
fn arrival_clears_destination() {
    let map = flat_map(5, 5);
    let mut compass = NLACompass::new();
    compass.set_destination(Destination::Coordinate((2, 2)));
    assert_eq!(compass.get_move(&map, (2, 2)), Err(MoveError::AlreadyAtDestination));
    assert!(compass.get_destination().is_none());
    assert_eq!(compass.get_move(&map, (2, 2)), Err(MoveError::NoDestination));
}

#[test]
fn two_steps_right_then_arrival() {
    let map = flat_map(3, 3);
    let mut compass = NLACompass::new();
    compass.set_destination(Destination::Coordinate((0, 2)));
    assert_eq!(compass.get_move(&map, (0, 0)), Ok(Direction::Right));
    assert_eq!(compass.get_last_move(), Some(Direction::Right));
    assert_eq!(compass.get_move(&map, (0, 1)), Ok(Direction::Right));
    assert_eq!(compass.get_move(&map, (0, 2)), Err(MoveError::AlreadyAtDestination));
    assert!(compass.get_destination().is_none());
    assert_eq!(compass.get_last_move(), Some(Direction::Right));
}

#[test]
fn exploring_for_a_kind_that_is_not_known() {
    // Only the 3x3 neighbourhood of (0,0) is known, and there is no sand in it.
    let mut map: Vec<Vec<Option<Tile>>> = vec![vec![None; 6]; 6];
    for r in 0..3 {
        for c in 0..3 {
            map[r][c] = grass(0);
        }
    }
    for seed in 0..50u64 {
        let mut compass = NLACompass::with_seed(seed);
        compass.set_destination(Destination::TileType(TileType::Sand, true));
        let d = compass.get_move(&map, (0, 0)).expect("a direction");
        assert!(d == Direction::Down || d == Direction::Right);
        assert_eq!(compass.get_last_move(), Some(d));
        assert!(compass.get_destination().is_some());
    }
}

#[test]
fn no_destination_set() {
    let map = flat_map(2, 2);
    let mut compass = NLACompass::new();
    assert_eq!(compass.get_move(&map, (0, 0)), Err(MoveError::NoDestination));
    assert_eq!(compass.get_last_move(), None);
}

#[test]
fn current_position_outside_or_unknown() {
    let mut map = flat_map(2, 2);
    map[1][1] = None;
    let mut compass = NLACompass::new();
    compass.set_destination(Destination::Coordinate((0, 1)));
    assert_eq!(compass.get_move(&map, (5, 0)), Err(MoveError::InvalidCurrPosition));
    assert_eq!(compass.get_move(&map, (0, 5)), Err(MoveError::InvalidCurrPosition));
    assert_eq!(compass.get_move(&map, (1, 1)), Err(MoveError::InvalidCurrPosition));
    let empty: Vec<Vec<Option<Tile>>> = Vec::new();
    assert_eq!(compass.get_move(&empty, (0, 0)), Err(MoveError::InvalidCurrPosition));
}

#[test]
fn destination_outside_the_map() {
    let map = flat_map(2, 2);
    let mut compass = NLACompass::new();
    compass.set_destination(Destination::Coordinate((2, 0)));
    assert_eq!(compass.get_move(&map, (0, 0)), Err(MoveError::InvalidDestCoordinate));
    assert!(compass.get_destination().is_some());
}

#[test]
fn nothing_matches_without_exploring() {
    let map = flat_map(3, 3);
    let mut compass = NLACompass::new();
    compass.set_destination(Destination::TileType(TileType::Sand, false));
    assert_eq!(compass.get_move(&map, (1, 1)), Err(MoveError::NoTileType));
    compass.set_destination(Destination::Content(Content::Coin, false));
    assert_eq!(compass.get_move(&map, (1, 1)), Err(MoveError::NoContent));
    assert_eq!(compass.get_last_move(), None);
}

#[test]
fn already_on_the_kind_or_content_sought() {
    let mut map = flat_map(3, 3);
    map[1][1] = Some(Tile::new(TileType::Sand, Content::Coin, 0, 3, true));
    let mut compass = NLACompass::new();
    compass.set_destination(Destination::TileType(TileType::Sand, false));
    assert_eq!(compass.get_move(&map, (1, 1)), Err(MoveError::AlreadyAtDestination));
    assert!(compass.get_destination().is_none());
    compass.set_destination(Destination::Content(Content::Coin, true));
    assert_eq!(compass.get_move(&map, (1, 1)), Err(MoveError::AlreadyAtDestination));
    assert!(compass.get_destination().is_none());
}

#[test]
fn walks_to_the_nearest_matching_tile() {
    let mut map = flat_map(5, 5);
    map[0][4] = Some(Tile::new(TileType::Sand, Content::Nothing, 0, 3, true));
    map[2][3] = Some(Tile::new(TileType::Sand, Content::Nothing, 0, 3, true));
    let mut compass = NLACompass::new();
    compass.set_destination(Destination::TileType(TileType::Sand, false));
    let mut pos = (2usize, 0usize);
    let mut steps = 0;
    loop {
        match compass.get_move(&map, pos) {
            Ok(d) => pos = moved(pos, d),
            Err(e) => {
                assert_eq!(e, MoveError::AlreadyAtDestination);
                break;
            },
        }
        steps += 1;
        assert!(steps < 10);
    }
    assert_eq!(pos, (2, 3));
    assert_eq!(steps, 3);
}

#[test]
fn boxed_in_agent_has_no_move() {
    let wall = Some(Tile::new(TileType::Wall, Content::Nothing, 0, 0, false));
    let mut map = flat_map(3, 3);
    map[0][1] = wall;
    map[1][0] = wall;
    map[1][2] = wall;
    map[2][1] = wall;
    let mut compass = NLACompass::new();
    compass.set_destination(Destination::Coordinate((0, 0)));
    assert_eq!(compass.get_move(&map, (1, 1)), Err(MoveError::NoAvailableMove));
    assert_eq!(compass.get_last_move(), None);
    assert!(compass.get_destination().is_some());
}

#[test]
fn unreachable_goal_falls_back_to_exploring() {
    // The goal is known but walled off; the agent still moves.
    let wall = Some(Tile::new(TileType::Wall, Content::Nothing, 0, 0, false));
    let mut map = flat_map(3, 4);
    for r in 0..3 {
        map[r][2] = wall;
    }
    let mut compass = NLACompass::with_seed(11);
    compass.set_destination(Destination::Coordinate((1, 3)));
    let d = compass.get_move(&map, (1, 0)).expect("a direction");
    assert!(d == Direction::Up || d == Direction::Down || d == Direction::Right);
    // The reverse of the move just made is never returned next.
    let pos = moved((1, 0), d);
    for _ in 0..20 {
        let mut again = NLACompass::with_seed(11);
        again.set_destination(Destination::Coordinate((1, 3)));
        let first = again.get_move(&map, (1, 0)).unwrap();
        assert_eq!(first, d);
        if let Ok(second) = again.get_move(&map, pos) {
            let undone = match d {
                Direction::Up => Direction::Down,
                Direction::Down => Direction::Up,
                Direction::Left => Direction::Right,
                Direction::Right => Direction::Left,
            };
            assert_ne!(second, undone);
        }
    }
}

#[test]
fn unknown_goal_is_explored_toward() {
    let mut map: Vec<Vec<Option<Tile>>> = vec![vec![None; 5]; 5];
    for r in 0..2 {
        for c in 0..2 {
            map[r][c] = grass(0);
        }
    }
    let mut compass = NLACompass::with_seed(3);
    compass.set_destination(Destination::Coordinate((4, 4)));
    let d = compass.get_move(&map, (0, 0)).expect("a direction");
    assert!(d == Direction::Down || d == Direction::Right);
}

#[test]
fn route_avoids_a_steep_climb() {
    // Straight ahead lies a ridge of height 5; the way round it is cheaper.
    let mut map = flat_map(3, 3);
    map[0][1] = grass(5);
    let mut compass = NLACompass::new();
    compass.set_destination(Destination::Coordinate((0, 2)));
    let mut pos = (0usize, 0usize);
    let mut visited = vec![pos];
    loop {
        match compass.get_move(&map, pos) {
            Ok(d) => pos = moved(pos, d),
            Err(e) => {
                assert_eq!(e, MoveError::AlreadyAtDestination);
                break;
            },
        }
        visited.push(pos);
        assert!(visited.len() < 10);
    }
    assert_eq!(visited, vec![(0, 0), (1, 0), (1, 1), (1, 2), (0, 2)]);
}

#[test]
fn parameters_can_be_replaced() {
    let mut compass = NLACompass::new();
    let mut params = *compass.get_params();
    assert_eq!(params.cost_neg_el_diff_pow.num, 3);
    assert_eq!(params.cost_neg_el_diff_pow.den, 2);
    assert_eq!(params.cost_disc_tiles_proportion, 1);
    assert_eq!(params.dist_from_undiscovered_pow.num, 3);
    assert_eq!(params.getting_further_to_coords_pow.num, 5);
    assert_eq!(params.cost_spread_pow, 3);
    params.cost_disc_tiles_proportion = 4;
    assert!(params.is_well_formed());
    compass.set_params(params);
    assert_eq!(compass.get_params().cost_disc_tiles_proportion, 4);
    compass.set_destination(Destination::Coordinate((1, 1)));
    compass.clear_destination();
    assert!(compass.get_destination().is_none());
}

#[test]
fn reaches_a_coordinate_across_ground_revealed_on_the_way() {
    let wall = Tile::new(TileType::Wall, Content::Nothing, 0, 0, false);
    let mut world: Vec<Vec<Tile>> = vec![vec![grass(0).unwrap(); 8]; 8];
    for r in 0..6 {
        world[r][4] = wall;
    }
    world[2][1] = grass(3).unwrap();
    for seed in 0..10u64 {
        let mut seen: Vec<Vec<Option<Tile>>> = vec![vec![None; 8]; 8];
        let mut compass = NLACompass::with_seed(seed);
        compass.set_destination(Destination::Coordinate((1, 6)));
        let mut pos = (0usize, 0usize);
        let mut arrived = false;
        for _ in 0..2_000 {
            for r in pos.0.saturating_sub(1)..=(pos.0 + 1).min(7) {
                for c in pos.1.saturating_sub(1)..=(pos.1 + 1).min(7) {
                    seen[r][c] = Some(world[r][c]);
                }
            }
            match compass.get_move(&seen, pos) {
                Ok(d) => {
                    let next = moved(pos, d);
                    assert!(seen[next.0][next.1].expect("an observed cell").walkable);
                    pos = next;
                },
                Err(MoveError::AlreadyAtDestination) => {
                    arrived = true;
                    break;
                },
                Err(e) => panic!("{:?} at {:?} with seed {}", e, pos, seed),
            }
        }
        assert!(arrived, "seed {} ended at {:?}", seed, pos);
        assert_eq!(pos, (1, 6));
    }
}

#[test]
fn a_kept_route_agrees_with_routes_computed_afresh() {
    let mut map = flat_map(3, 3);
    map[0][1] = grass(5);
    let mut walker = NLACompass::new();
    walker.set_destination(Destination::Coordinate((0, 2)));
    let mut pos = (0usize, 0usize);
    let mut moves = 0;
    loop {
        let mut fresh = NLACompass::new();
        fresh.set_destination(Destination::Coordinate((0, 2)));
        let kept = walker.get_move(&map, pos);
        assert_eq!(kept, fresh.get_move(&map, pos));
        match kept {
            Ok(d) => pos = moved(pos, d),
            Err(e) => {
                assert_eq!(e, MoveError::AlreadyAtDestination);
                break;
            },
        }
        moves += 1;
        assert!(moves <= 4);
    }
    assert_eq!(moves, 4);
}

#[test]
fn a_kept_route_is_dropped_when_the_agent_is_elsewhere() {
    let map = flat_map(4, 4);
    let mut compass = NLACompass::new();
    compass.set_destination(Destination::Coordinate((0, 3)));
    assert_eq!(compass.get_move(&map, (0, 0)), Ok(Direction::Right));
    // The agent was carried away: the route kept for (0,1) is of no use at (3,3).
    assert_eq!(compass.get_move(&map, (3, 3)), Ok(Direction::Up));
    assert_eq!(compass.get_move(&map, (2, 3)), Ok(Direction::Up));
    // A new destination is planned for afresh.
    compass.set_destination(Destination::Coordinate((1, 0)));
    assert_eq!(compass.get_move(&map, (1, 3)), Ok(Direction::Left));
}

#[test]
fn a_kept_route_is_dropped_when_its_next_cell_is_closed() {
    let mut map = flat_map(3, 4);
    let mut compass = NLACompass::new();
    compass.set_destination(Destination::Coordinate((0, 3)));
    assert_eq!(compass.get_move(&map, (0, 0)), Ok(Direction::Right));
    // The cell ahead turns out to be a wall: the way round is taken.
    map[0][2] = Some(Tile::new(TileType::Wall, Content::Nothing, 0, 0, false));
    assert_eq!(compass.get_move(&map, (0, 1)), Ok(Direction::Down));
    assert_eq!(compass.get_move(&map, (1, 1)), Ok(Direction::Right));
    assert_eq!(compass.get_move(&map, (1, 2)), Ok(Direction::Right));
    assert_eq!(compass.get_move(&map, (1, 3)), Ok(Direction::Up));
    assert_eq!(compass.get_move(&map, (0, 3)), Err(MoveError::AlreadyAtDestination));
}

#[test]
fn a_kept_route_may_differ_from_a_fresh_one_of_the_same_cost() {
    // From (1,0) to (0,2) over level ground three moves are needed, by more
    // than one way. The walker keeps the way that it first found; a compass
    // that begins at (1,1) finds another, of the same length.
    let map = flat_map(3, 3);
    let mut walker = NLACompass::new();
    walker.set_destination(Destination::Coordinate((0, 2)));
    assert_eq!(walker.get_move(&map, (1, 0)), Ok(Direction::Right));
    assert_eq!(walker.get_move(&map, (1, 1)), Ok(Direction::Right));
    assert_eq!(walker.get_move(&map, (1, 2)), Ok(Direction::Up));
    assert_eq!(walker.get_move(&map, (0, 2)), Err(MoveError::AlreadyAtDestination));
    let mut fresh = NLACompass::new();
    fresh.set_destination(Destination::Coordinate((0, 2)));
    assert_eq!(fresh.get_move(&map, (1, 1)), Ok(Direction::Up));
    assert_eq!(fresh.get_move(&map, (0, 1)), Ok(Direction::Right));
    assert_eq!(fresh.get_move(&map, (0, 2)), Err(MoveError::AlreadyAtDestination));
}
