use nla_compass::cost::move_cost_estimation;
use nla_compass::dijkstra::find_path;
use nla_compass::params::NLACompassParams;
use nla_compass::tile::{Content, Tile, TileType};
use rand::rngs::StdRng;
use rand::Rng;
use rand::SeedableRng;

const SIDE: usize = 6;

fn random_map(rng: &mut StdRng) -> Vec<Vec<Option<Tile>>> {
    let mut map = Vec::new();
    for _ in 0..SIDE {
        let mut row = Vec::new();
        for _ in 0..SIDE {
            let roll = rng.gen_range(0..10);
            let cell = if roll == 0 {
                None
            } else if roll == 1 {
                Some(Tile::new(TileType::Wall, Content::Nothing, rng.gen_range(0..5), 0, false))
            } else {
                Some(Tile::new(
                    TileType::Grass,
                    Content::Nothing,
                    rng.gen_range(0..5),
                    rng.gen_range(0..4),
                    true,
                ))
            };
            row.push(cell);
        }
        map.push(row);
    }
    map
}

fn neighbours(p: (usize, usize)) -> Vec<(usize, usize)> {
    let mut out = Vec::new();
    if p.0 > 0 {
        out.push((p.0 - 1, p.1));
    }
    if p.0 + 1 < SIDE {
        out.push((p.0 + 1, p.1));
    }
    if p.1 > 0 {
        out.push((p.0, p.1 - 1));
    }
    if p.1 + 1 < SIDE {
        out.push((p.0, p.1 + 1));
    }
    out
}

/// The cost of the move from `a` onto `b`, if the move can be made.
fn edge(map: &[Vec<Option<Tile>>], params: &NLACompassParams, a: (usize, usize), b: (usize, usize)) -> Option<u128> {
    let from = map[a.0][a.1]?;
    let to = map[b.0][b.1]?;
    if !to.walkable {
        return None;
    }
    Some(move_cost_estimation(&from, &to, params))
}

/// The cheapest cost from `start` to every cell, by relaxing every move until nothing changes.
fn cheapest_costs(map: &[Vec<Option<Tile>>], params: &NLACompassParams, start: (usize, usize)) -> Vec<Vec<Option<u128>>> {
    let mut best: Vec<Vec<Option<u128>>> = vec![vec![None; SIDE]; SIDE];
    best[start.0][start.1] = Some(0);
    let mut changed = true;
    while changed {
        changed = false;
        for r in 0..SIDE {
            for c in 0..SIDE {
                let Some(here) = best[r][c] else { continue };
                for n in neighbours((r, c)) {
                    if let Some(w) = edge(map, params, (r, c), n) {
                        let through = here + w;
                        if best[n.0][n.1].map_or(true, |old| through < old) {
                            best[n.0][n.1] = Some(through);
                            changed = true;
                        }
                    }
                }
            }
        }
    }
    best
}

#[test]
fn routes_are_as_cheap_as_an_exhaustive_search_finds() {
    let params = NLACompassParams::default();
    let mut rng = StdRng::seed_from_u64(20240229);
    let mut routes = 0;
    let mut dead_ends = 0;
    for _ in 0..60 {
        let map = random_map(&mut rng);
        let start = (rng.gen_range(0..SIDE), rng.gen_range(0..SIDE));
        let best = cheapest_costs(&map, &params, start);
        for gr in 0..SIDE {
            for gc in 0..SIDE {
                let goal = (gr, gc);
                let found = find_path(start, goal, &map, &params);
                let reachable = goal != start && map[start.0][start.1].is_some() && best[gr][gc].is_some();
                match found {
                    Ok(path) => {
                        assert!(reachable, "a route to {:?} from {:?}", goal, start);
                        assert!(path.len() >= 2);
                        assert_eq!(path[0], start);
                        assert_eq!(*path.last().unwrap(), goal);
                        let mut cost: u128 = 0;
                        for i in 1..path.len() {
                            assert!(neighbours(path[i - 1]).contains(&path[i]));
                            cost += edge(&map, &params, path[i - 1], path[i]).expect("a move");
                        }
                        assert_eq!(Some(cost), best[gr][gc]);
                        routes += 1;
                    },
                    Err(_) => {
                        assert!(!reachable, "no route to {:?} from {:?}", goal, start);
                        dead_ends += 1;
                    },
                }
            }
        }
    }
    assert!(routes > 500, "{} routes", routes);
    assert!(dead_ends > 100, "{} dead ends", dead_ends);
}
