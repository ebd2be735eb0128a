//! Cheapest routes over the known, walkable part of the map.
//!
//! The search itself is the `pathfinding` crate's; this module states what it
//! returns and proves from that what a route is worth.

use vstd::prelude::*;
use std::collections::HashMap;
use pathfinding::prelude::{build_path, dijkstra_all};
use crate::coordinate::{lemma_offset_one, manhattan, Coordinate, Direction};
use crate::cost::{move_cost, move_cost_estimation};
use crate::error::MoveError;
use crate::grid::{
    grid_of, known, lemma_inside_fits, passable, step, tile_at, tile_of, well_formed, Grid,
};
use crate::params::NLACompassParams;
use crate::tile::Tile;

verus! {

/// A cell as the search sees it: (row, col).
pub type Node = (usize, usize);

/// For each reached cell, the cell before it on a cheapest route and the cost
/// of that route.
pub type Tree = Map<Node, (Node, u128)>;

/// The dearest single move that the search follows. A dearer move counts as
/// no move.
pub const EDGE_COST_LIMIT: u128 = 0xffff_ffff_ffff_ffff;

/// The position of a node.
pub open spec fn at(n: Node) -> (int, int) {
    (n.0 as int, n.1 as int)
}

/// Two positions are neighbours along one axis.
pub open spec fn adjacent(a: (int, int), b: (int, int)) -> bool {
    manhattan(a, b) == 1
}

/// Cost of the move from `a` onto `b`, both observed.
pub open spec fn link_cost(g: Grid, params: NLACompassParams, a: (int, int), b: (int, int)) -> nat {
    move_cost(tile_at(g, a).unwrap(), tile_at(g, b).unwrap(), params)
}

/// The search may move from `a` onto `b`: `a` is observed, `b` is an adjacent
/// observed walkable cell, and the move costs no more than [`EDGE_COST_LIMIT`].
pub open spec fn linked(g: Grid, params: NLACompassParams, a: (int, int), b: (int, int)) -> bool {
    &&& known(g, a)
    &&& passable(g, b)
    &&& adjacent(a, b)
    &&& link_cost(g, params, a, b) <= EDGE_COST_LIMIT
}

/// The `i`-th cell of `r` can be entered from the one before it.
pub open spec fn step_ok(g: Grid, params: NLACompassParams, r: Seq<Node>, i: int) -> bool {
    linked(g, params, at(r[i - 1]), at(r[i]))
}

/// `r` is a non-empty sequence of cells in which each can be entered from the
/// one before.
pub open spec fn is_route(g: Grid, params: NLACompassParams, r: Seq<Node>) -> bool {
    &&& r.len() >= 1
    &&& forall|i: int| 0 < i < r.len() ==> #[trigger] step_ok(g, params, r, i)
}

/// `r` is a route from `a` to `b`.
pub open spec fn connects(g: Grid, params: NLACompassParams, r: Seq<Node>, a: Node, b: Node) -> bool {
    &&& is_route(g, params, r)
    &&& r[0] == a
    &&& r.last() == b
}

/// Some route leads from `a` to `b`.
pub open spec fn reachable(g: Grid, params: NLACompassParams, a: Node, b: Node) -> bool {
    exists|r: Seq<Node>| connects(g, params, r, a, b)
}

/// The sum of the costs of the moves of `r`.
pub open spec fn route_cost(g: Grid, params: NLACompassParams, r: Seq<Node>) -> nat
    decreases r.len(),
{
    if r.len() <= 1 {
        0
    } else {
        route_cost(g, params, r.drop_last()) + link_cost(
            g,
            params,
            at(r[r.len() - 2]),
            at(r[r.len() - 1]),
        )
    }
}

/// `r` is a route from `a` to `b` that no other route from `a` to `b` undercuts.
pub open spec fn is_cheapest_route(
    g: Grid,
    params: NLACompassParams,
    r: Seq<Node>,
    a: Node,
    b: Node,
) -> bool {
    &&& connects(g, params, r, a, b)
    &&& forall|q: Seq<Node>| #[trigger]
        connects(g, params, q, a, b) ==> route_cost(g, params, r) <= route_cost(g, params, q)
}

/// The edge that leaves `a` in direction `d`, if the search may follow it.
pub open spec fn edge_toward(g: Grid, params: NLACompassParams, a: Node, d: Direction) -> Option<
    (Node, u128),
> {
    let b = d.offset(at(a), 1);
    if linked(g, params, at(a), b) {
        Some(((b.0 as usize, b.1 as usize), link_cost(g, params, at(a), b) as u128))
    } else {
        None
    }
}

/// `e` as a sequence of zero or one edges.
pub open spec fn optional(e: Option<(Node, u128)>) -> Seq<(Node, u128)> {
    match e {
        Some(x) => seq![x],
        None => seq![],
    }
}

/// The edges that leave `a`, in the order left, right, up, down.
pub open spec fn edges_from(g: Grid, params: NLACompassParams, a: Node) -> Seq<(Node, u128)> {
    optional(edge_toward(g, params, a, Direction::Left)) + optional(
        edge_toward(g, params, a, Direction::Right),
    ) + optional(edge_toward(g, params, a, Direction::Up)) + optional(
        edge_toward(g, params, a, Direction::Down),
    )
}

/// Cost of the edge between two observed tiles.
pub fn get_cost(current_tile: &Tile, next_tile: &Tile, params: &NLACompassParams) -> (cost: u128)
    requires
        params.well_formed(),
    ensures
        cost == move_cost(*current_tile, *next_tile, *params),
{
    move_cost_estimation(current_tile, next_tile, params)
}

/// The edge that leaves `node` in `direction`, if there is one.
fn successor_toward(
    map: &Vec<Vec<Option<Tile>>>,
    params: &NLACompassParams,
    node: &Node,
    here: &Tile,
    direction: Direction,
) -> (e: Option<(Node, u128)>)
    requires
        well_formed(grid_of(map)),
        params.well_formed(),
        tile_at(grid_of(map), at(*node)) == Some(*here),
    ensures
        e == edge_toward(grid_of(map), *params, *node, direction),
{
    let from = Coordinate::new(node.0, node.1);
    match step(map, &from, &direction) {
        Some(to) => {
            match tile_of(map, &to) {
                Some(next) => {
                    if next.walkable {
                        let cost = get_cost(here, &next, params);
                        proof {
                            lemma_offset_one(direction, at(*node));
                        }
                        if cost <= EDGE_COST_LIMIT {
                            Some(((to.row, to.col), cost))
                        } else {
                            None
                        }
                    } else {
                        None
                    }
                },
                None => None,
            }
        },
        None => None,
    }
}

/// The cells that the search may enter from `node`, each with the cost of the
/// move: the observed walkable neighbours, left, right, up, down.
pub fn successors(map: &Vec<Vec<Option<Tile>>>, params: &NLACompassParams, node: &Node) -> (result:
    Vec<(Node, u128)>)
    requires
        well_formed(grid_of(map)),
        params.well_formed(),
    ensures
        result@ == edges_from(grid_of(map), *params, *node),
{
    let mut result: Vec<(Node, u128)> = Vec::new();
    let here = match tile_of(map, &Coordinate::new(node.0, node.1)) {
        Some(t) => t,
        None => {
            assert(result@ =~= edges_from(grid_of(map), *params, *node));
            return result;
        },
    };
    let ghost g = grid_of(map);
    if let Some(e) = successor_toward(map, params, node, &here, Direction::Left) {
        result.push(e);
    }
    assert(result@ =~= optional(edge_toward(g, *params, *node, Direction::Left)));
    if let Some(e) = successor_toward(map, params, node, &here, Direction::Right) {
        result.push(e);
    }
    assert(result@ =~= optional(edge_toward(g, *params, *node, Direction::Left)) + optional(
        edge_toward(g, *params, *node, Direction::Right),
    ));
    if let Some(e) = successor_toward(map, params, node, &here, Direction::Up) {
        result.push(e);
    }
    assert(result@ =~= optional(edge_toward(g, *params, *node, Direction::Left)) + optional(
        edge_toward(g, *params, *node, Direction::Right),
    ) + optional(edge_toward(g, *params, *node, Direction::Up)));
    if let Some(e) = successor_toward(map, params, node, &here, Direction::Down) {
        result.push(e);
    }
    assert(result@ =~= edges_from(g, *params, *node));
    result
}


/// The cost recorded for `n`: nothing for the start, else what the tree holds.
pub open spec fn label(tree: Tree, start: Node, n: Node) -> nat {
    if n == start {
        0
    } else {
        tree[n].1 as nat
    }
}

/// The `i`-th cell of `r` is reached, in `tree`, from the one before it.
pub open spec fn chain_link(tree: Tree, r: Seq<Node>, i: int) -> bool {
    tree.dom().contains(r[i]) && tree[r[i]].0 == r[i - 1]
}

/// `r` ends at `target`, each of its cells but the first is reached in `tree`
/// from the one before it, and the first is not reached from anywhere.
pub open spec fn is_parent_chain(tree: Tree, target: Node, r: Seq<Node>) -> bool {
    &&& r.len() >= 1
    &&& r.last() == target
    &&& !tree.dom().contains(r[0])
    &&& forall|i: int| 0 < i < r.len() ==> #[trigger] chain_link(tree, r, i)
}

/// What holds of the cell `n` that `tree` reaches: it is not the start; the
/// cell it is reached from is the start or is reached too, and leads to it by a
/// move; its cost is that cell's cost plus the move's; no route from the start
/// to it is cheaper; and following the tree back from it comes to an end.
pub open spec fn reached_well(g: Grid, params: NLACompassParams, start: Node, tree: Tree, n: Node) -> bool {
    let parent = tree[n].0;
    &&& n != start
    &&& (parent == start || tree.dom().contains(parent))
    &&& linked(g, params, at(parent), at(n))
    &&& tree[n].1 == label(tree, start, parent) + link_cost(g, params, at(parent), at(n))
    &&& forall|q: Seq<Node>| #[trigger]
        connects(g, params, q, start, n) ==> tree[n].1 <= route_cost(g, params, q)
    &&& exists|r: Seq<Node>| is_parent_chain(tree, n, r)
}

/// `tree` reaches exactly the cells other than `start` to which a route leads
/// from `start`, and each of them well.
pub open spec fn is_shortest_path_tree(g: Grid, params: NLACompassParams, start: Node, tree: Tree) -> bool {
    &&& forall|n: Node| #[trigger]
        tree.dom().contains(n) ==> reached_well(g, params, start, tree, n)
    &&& forall|n: Node|
        n != start && #[trigger] reachable(g, params, start, n) ==> tree.dom().contains(n)
}

/// The tree that the search builds from `start` over the map `g`.
pub uninterp spec fn dijkstra_tree(g: Grid, params: NLACompassParams, start: Node) -> Tree;

/// Runs `pathfinding::prelude::dijkstra_all` from `start`, with [`successors`]
/// as the successor function. Trusted: that the map returned holds, for every
/// cell other than `start` that can be reached, a parent on a cheapest route
/// and that route's cost, and no other cell; and that the same map and start
/// give the same tree.
#[verifier::external_body]
fn shortest_path_tree(map: &Vec<Vec<Option<Tile>>>, params: &NLACompassParams, start: Node) -> (tree:
    HashMap<Node, (Node, u128)>)
    requires
        well_formed(grid_of(map)),
        params.well_formed(),
    ensures
        tree@ == dijkstra_tree(grid_of(map), *params, start),
        is_shortest_path_tree(grid_of(map), *params, start, tree@),
{
    dijkstra_all(&start, |node: &Node| successors(map, params, node))
}

/// Runs `pathfinding::prelude::build_path`. Trusted: that the vector returned
/// ends at `target` and holds before each cell its parent in `tree`, back to
/// the first cell that has none. The call would not return on a tree that
/// loops, so a chain must exist.
#[verifier::external_body]
fn build_route(target: Node, tree: &HashMap<Node, (Node, u128)>) -> (route: Vec<Node>)
    requires
        exists|r: Seq<Node>| is_parent_chain(tree@, target, r),
    ensures
        is_parent_chain(tree@, target, route@),
{
    build_path(&target, tree)
}

/// The route that the search plans from `start` to `destination`: the chain of
/// parents that ends at `destination`.
pub open spec fn planned_route(g: Grid, params: NLACompassParams, start: Node, destination: Node) -> Seq<Node> {
    choose|r: Seq<Node>| is_parent_chain(dijkstra_tree(g, params, start), destination, r)
}

/// Two chains of parents that end at the same cell are the same chain.
pub proof fn lemma_parent_chain_unique(tree: Tree, target: Node, r1: Seq<Node>, r2: Seq<Node>)
    requires
        is_parent_chain(tree, target, r1),
        is_parent_chain(tree, target, r2),
    ensures
        r1 == r2,
    decreases r1.len(),
{
    if r1.len() == 1 {
        if r2.len() > 1 {
            assert(chain_link(tree, r2, r2.len() - 1));
        }
        assert(r1 =~= r2);
    } else {
        assert(chain_link(tree, r1, r1.len() - 1));
        if r2.len() == 1 {
            assert(false);
        }
        assert(chain_link(tree, r2, r2.len() - 1));
        let front_a = r1.drop_last();
        let front_b = r2.drop_last();
        assert forall|i: int| 0 < i < front_a.len() implies #[trigger] chain_link(tree, front_a, i) by {
            assert(chain_link(tree, r1, i));
        }
        assert forall|i: int| 0 < i < front_b.len() implies #[trigger] chain_link(tree, front_b, i) by {
            assert(chain_link(tree, r2, i));
        }
        lemma_parent_chain_unique(tree, tree[target].0, front_a, front_b);
        assert(r1 =~= front_a.push(target));
        assert(r2 =~= front_b.push(target));
    }
}

/// A route extended by one move costs the move more.
pub proof fn lemma_route_push(g: Grid, params: NLACompassParams, r: Seq<Node>, n: Node)
    requires
        is_route(g, params, r),
        linked(g, params, at(r.last()), at(n)),
    ensures
        is_route(g, params, r.push(n)),
        route_cost(g, params, r.push(n)) == route_cost(g, params, r) + link_cost(
            g,
            params,
            at(r.last()),
            at(n),
        ),
{
    let q = r.push(n);
    assert(q.drop_last() =~= r);
    assert forall|i: int| 0 < i < q.len() implies #[trigger] step_ok(g, params, q, i) by {
        if i < r.len() {
            assert(step_ok(g, params, r, i));
        }
    }
}

/// A chain of parents in a shortest-path tree, if it has more than one cell,
/// is a route from the start whose cost is the cost recorded for its end.
proof fn lemma_chain_is_route(
    g: Grid,
    params: NLACompassParams,
    start: Node,
    tree: Tree,
    target: Node,
    r: Seq<Node>,
)
    requires
        is_shortest_path_tree(g, params, start, tree),
        is_parent_chain(tree, target, r),
        r.len() >= 2,
    ensures
        connects(g, params, r, start, target),
        route_cost(g, params, r) == label(tree, start, target),
    decreases r.len(),
{
    let last = r.len() - 1;
    assert(chain_link(tree, r, last));
    assert(reached_well(g, params, start, tree, target));
    let p = r.drop_last();
    let parent = tree[target].0;
    assert(p.last() == parent);
    assert(r =~= p.push(target));
    if r.len() == 2 {
        assert(!tree.dom().contains(r[0]));
        assert(parent == start);
        assert(p =~= seq![start]);
        assert(is_route(g, params, p));
        assert(route_cost(g, params, p) == 0);
        lemma_route_push(g, params, p, target);
    } else {
        assert forall|i: int| 0 < i < p.len() implies #[trigger] chain_link(tree, p, i) by {
            assert(chain_link(tree, r, i));
        }
        assert(chain_link(tree, r, last - 1));
        assert(tree.dom().contains(parent));
        assert(reached_well(g, params, start, tree, parent));
        lemma_chain_is_route(g, params, start, tree, parent, p);
        lemma_route_push(g, params, p, target);
    }
}

/// The cells of the cheapest route from `start` to `destination` over the
/// observed walkable cells, both ends included; or `destination` alone when
/// no route leads there or the two are the same cell.
pub fn get_path_vector(
    start: Node,
    destination: Node,
    map: &Vec<Vec<Option<Tile>>>,
    params: &NLACompassParams,
) -> (path: Vec<Node>)
    requires
        well_formed(grid_of(map)),
        params.well_formed(),
    ensures
        path@ == planned_route(grid_of(map), *params, start, destination),
        start != destination && reachable(grid_of(map), *params, start, destination)
            ==> is_cheapest_route(grid_of(map), *params, path@, start, destination)
            && path@.len() >= 2,
        !(start != destination && reachable(grid_of(map), *params, start, destination))
            ==> path@ == seq![destination],
{
    let ghost g = grid_of(map);
    let tree = shortest_path_tree(map, params, start);
    proof {
        if tree@.dom().contains(destination) {
            assert(reached_well(g, *params, start, tree@, destination));
        } else {
            assert(is_parent_chain(tree@, destination, seq![destination]));
        }
    }
    let path = build_route(destination, &tree);
    proof {
        let planned = planned_route(g, *params, start, destination);
        lemma_parent_chain_unique(tree@, destination, path@, planned);
        if tree@.dom().contains(destination) {
            assert(reached_well(g, *params, start, tree@, destination));
            if path@.len() == 1 {
                assert(false);
            }
            lemma_chain_is_route(g, *params, start, tree@, destination, path@);
            assert(reachable(g, *params, start, destination));
        } else {
            if path@.len() > 1 {
                assert(chain_link(tree@, path@, path@.len() - 1));
            }
            assert(path@ =~= seq![destination]);
            if start != destination && reachable(g, *params, start, destination) {
                assert(false);
            }
        }
    }
    path
}


/// What a request for a route is answered with: the planned route when the two
/// ends differ and a route joins them, nothing otherwise.
pub open spec fn route_answer(g: Grid, params: NLACompassParams, start: Node, goal: Node) -> Option<
    Seq<Node>,
> {
    if start != goal && reachable(g, params, start, goal) {
        Some(planned_route(g, params, start, goal))
    } else {
        None
    }
}

/// The cheapest route from `start` to `goal` over the observed walkable
/// cells, or `NoAvailableMove` when no route joins them or they are the same
/// cell.
pub fn find_path(start: Node, goal: Node, map: &Vec<Vec<Option<Tile>>>, params: &NLACompassParams) -> (result:
    Result<Vec<Node>, MoveError>)
    requires
        well_formed(grid_of(map)),
        params.well_formed(),
    ensures
        match result {
            Ok(path) => route_answer(grid_of(map), *params, start, goal) == Some(path@)
                && is_cheapest_route(grid_of(map), *params, path@, start, goal),
            Err(e) => e == MoveError::NoAvailableMove && route_answer(
                grid_of(map),
                *params,
                start,
                goal,
            ) is None,
        },
{
    let path = get_path_vector(start, goal, map, params);
    if path.len() < 2 {
        Err(MoveError::NoAvailableMove)
    } else {
        Ok(path)
    }
}

/// The direction of the move from `a` to `b`: along the row when the columns
/// differ, along the column otherwise.
pub open spec fn heading(a: (int, int), b: (int, int)) -> Direction {
    if a.1 != b.1 {
        if b.1 > a.1 {
            Direction::Right
        } else {
            Direction::Left
        }
    } else {
        if b.0 > a.0 {
            Direction::Down
        } else {
            Direction::Up
        }
    }
}

/// The direction of the first move of the route `v`, or `NoAvailableMove`
/// when `v` holds no move.
pub fn get_direction(v: &Vec<Node>) -> (result: Result<Direction, MoveError>)
    ensures
        v.len() < 2 ==> result == Err::<Direction, MoveError>(MoveError::NoAvailableMove),
        v.len() >= 2 ==> result == Ok::<Direction, MoveError>(heading(at(v[0]), at(v[1]))),
{
    if v.len() < 2 {
        Err(MoveError::NoAvailableMove)
    } else {
        if v[0].1 != v[1].1 {
            if v[1].1 > v[0].1 {
                Ok(Direction::Right)
            } else {
                Ok(Direction::Left)
            }
        } else {
            if v[1].0 > v[0].0 {
                Ok(Direction::Down)
            } else {
                Ok(Direction::Up)
            }
        }
    }
}

/// The heading from a cell to a neighbour leads to that neighbour.
pub proof fn lemma_heading_reaches(a: (int, int), b: (int, int))
    requires
        adjacent(a, b),
    ensures
        heading(a, b).offset(a, 1) == b,
{
    lemma_offset_one(heading(a, b), a);
}

/// A step in any direction leads to a neighbour, and every neighbour is one
/// step away in some direction.
pub proof fn lemma_adjacent_is_one_step(a: (int, int), b: (int, int))
    ensures
        adjacent(a, b) <==> exists|d: Direction| #[trigger] d.offset(a, 1) == b,
{
    lemma_offset_one(Direction::Up, a);
    lemma_offset_one(Direction::Down, a);
    lemma_offset_one(Direction::Left, a);
    lemma_offset_one(Direction::Right, a);
    if adjacent(a, b) {
        lemma_heading_reaches(a, b);
    }
    if exists|d: Direction| #[trigger] d.offset(a, 1) == b {
        let d = choose|d: Direction| #[trigger] d.offset(a, 1) == b;
        lemma_offset_one(d, a);
    }
}

/// The successor function offers exactly the moves that the search may make,
/// each with its cost.
pub proof fn lemma_edges_are_links(g: Grid, params: NLACompassParams, a: Node, b: Node, w: u128)
    requires
        well_formed(g),
    ensures
        edges_from(g, params, a).contains((b, w)) <==> linked(g, params, at(a), at(b)) && w
            == link_cost(g, params, at(a), at(b)),
{
    let l = optional(edge_toward(g, params, a, Direction::Left));
    let r = optional(edge_toward(g, params, a, Direction::Right));
    let u = optional(edge_toward(g, params, a, Direction::Up));
    let d = optional(edge_toward(g, params, a, Direction::Down));
    let all = edges_from(g, params, a);
    lemma_offset_one(Direction::Up, at(a));
    lemma_offset_one(Direction::Down, at(a));
    lemma_offset_one(Direction::Left, at(a));
    lemma_offset_one(Direction::Right, at(a));
    if all.contains((b, w)) {
        let i = choose|i: int| 0 <= i < all.len() && all[i] == (b, w);
        assert(l.contains((b, w)) || r.contains((b, w)) || u.contains((b, w)) || d.contains(
            (b, w),
        ));
        let way = if l.contains((b, w)) {
            Direction::Left
        } else if r.contains((b, w)) {
            Direction::Right
        } else if u.contains((b, w)) {
            Direction::Up
        } else {
            Direction::Down
        };
        let e = optional(edge_toward(g, params, a, way));
        assert(e.contains((b, w)));
        let to = way.offset(at(a), 1);
        assert(linked(g, params, at(a), to));
        lemma_inside_fits(g, to);
        assert(e[0] == (b, w));
        assert(at(b) == to);
    }
    if linked(g, params, at(a), at(b)) && w == link_cost(g, params, at(a), at(b)) {
        lemma_heading_reaches(at(a), at(b));
        let h = heading(at(a), at(b));
        let e = optional(edge_toward(g, params, a, h));
        assert(e[0] == (b, w));
        if h == Direction::Left {
            assert(all[0] == (b, w));
        } else if h == Direction::Right {
            assert(all[l.len() as int] == (b, w));
        } else if h == Direction::Up {
            assert(all[(l.len() + r.len()) as int] == (b, w));
        } else {
            assert(all[(l.len() + r.len() + u.len()) as int] == (b, w));
        }
    }
}

/// Two answers to the same request, on the same map, are the same answer, and
/// so begin with the same move.
pub proof fn lemma_same_request_same_route(
    g: Grid,
    params: NLACompassParams,
    start: Node,
    goal: Node,
    first: Seq<Node>,
    second: Seq<Node>,
)
    requires
        route_answer(g, params, start, goal) == Some(first),
        route_answer(g, params, start, goal) == Some(second),
    ensures
        first == second,
        heading(at(first[0]), at(first[1])) == heading(at(second[0]), at(second[1])),
{
}

/// Two routes that meet end to start make one route, which costs their sum.
pub proof fn lemma_route_concat(g: Grid, params: NLACompassParams, x: Seq<Node>, y: Seq<Node>)
    requires
        is_route(g, params, x),
        is_route(g, params, y),
        x.last() == y[0],
    ensures
        is_route(g, params, x + y.skip(1)),
        route_cost(g, params, x + y.skip(1)) == route_cost(g, params, x) + route_cost(g, params, y),
    decreases y.len(),
{
    if y.len() == 1 {
        assert(x + y.skip(1) =~= x);
    } else {
        let yp = y.drop_last();
        assert forall|i: int| 0 < i < yp.len() implies #[trigger] step_ok(g, params, yp, i) by {
            assert(step_ok(g, params, y, i));
        }
        lemma_route_concat(g, params, x, yp);
        let zp = x + yp.skip(1);
        assert(x + y.skip(1) =~= zp.push(y.last()));
        assert(zp.last() == yp.last());
        assert(step_ok(g, params, y, y.len() - 1));
        lemma_route_push(g, params, zp, y.last());
    }
}

/// A route cut at one of its cells gives two routes, whose costs add up to its own.
pub proof fn lemma_route_split(g: Grid, params: NLACompassParams, r: Seq<Node>, k: int)
    requires
        is_route(g, params, r),
        0 <= k < r.len(),
    ensures
        is_route(g, params, r.take(k + 1)),
        is_route(g, params, r.skip(k)),
        route_cost(g, params, r) == route_cost(g, params, r.take(k + 1)) + route_cost(
            g,
            params,
            r.skip(k),
        ),
{
    let x = r.take(k + 1);
    let y = r.skip(k);
    assert forall|i: int| 0 < i < x.len() implies #[trigger] step_ok(g, params, x, i) by {
        assert(step_ok(g, params, r, i));
    }
    assert forall|i: int| 0 < i < y.len() implies #[trigger] step_ok(g, params, y, i) by {
        assert(step_ok(g, params, r, k + i));
    }
    lemma_route_concat(g, params, x, y);
    assert(x + y.skip(1) =~= r);
}

/// What is left of a cheapest route, from any of its cells on, is a cheapest
/// route from that cell to the same end. A route that was kept and followed
/// for some steps is therefore worth as much as one computed afresh.
pub proof fn lemma_rest_of_cheapest_route(
    g: Grid,
    params: NLACompassParams,
    r: Seq<Node>,
    a: Node,
    b: Node,
    k: int,
)
    requires
        is_cheapest_route(g, params, r, a, b),
        0 <= k < r.len(),
    ensures
        is_cheapest_route(g, params, r.skip(k), r[k], b),
{
    lemma_route_split(g, params, r, k);
    let x = r.take(k + 1);
    let y = r.skip(k);
    assert forall|q: Seq<Node>| #[trigger] connects(g, params, q, r[k], b) implies route_cost(
        g,
        params,
        y,
    ) <= route_cost(g, params, q) by {
        lemma_route_concat(g, params, x, q);
        let z = x + q.skip(1);
        assert(z[0] == a);
        assert(z.last() == b);
        assert(connects(g, params, z, a, b));
    }
}

} // verus!
