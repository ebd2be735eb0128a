//! Routes over level, open ground: a map in which every cell is observed,
//! walkable, at one elevation and of one positive entry cost.

use vstd::prelude::*;
use crate::coordinate::manhattan;
use crate::cost::lemma_move_cost_flat;
use crate::dijkstra::{
    adjacent, at, connects, is_cheapest_route, is_route, lemma_route_concat, lemma_route_split,
    link_cost, linked, reachable, route_cost, step_ok, Node,
};
use crate::grid::{inside, lemma_inside_fits, tile_at, well_formed, Grid};
use crate::params::NLACompassParams;

verus! {

/// Every cell of `g` is observed and walkable, lies at `elevation` and costs
/// `unit` to enter.
pub open spec fn level_and_open(g: Grid, elevation: usize, unit: usize) -> bool {
    &&& well_formed(g)
    &&& forall|p: (int, int)|
        inside(g, p) ==> (#[trigger] tile_at(g, p) matches Some(t) && t.walkable && t.elevation
            == elevation && t.entry_cost == unit)
}

/// One cell nearer to `b` than `a`, along the row first.
pub open spec fn toward(a: Node, b: Node) -> Node {
    if a.0 < b.0 {
        ((a.0 + 1) as usize, a.1)
    } else if a.0 > b.0 {
        ((a.0 - 1) as usize, a.1)
    } else if a.1 < b.1 {
        (a.0, (a.1 + 1) as usize)
    } else {
        (a.0, (a.1 - 1) as usize)
    }
}

/// The route from `a` to `b` that first closes the gap of rows, then that of
/// columns.
pub open spec fn straight(a: Node, b: Node) -> Seq<Node>
    decreases manhattan(at(a), at(b)),
{
    if a == b {
        seq![a]
    } else {
        seq![a] + straight(toward(a, b), b)
    }
}

/// On level open ground any two adjacent cells are linked, at the cost `unit`.
proof fn lemma_level_link(
    g: Grid,
    params: NLACompassParams,
    elevation: usize,
    unit: usize,
    a: Node,
    b: Node,
)
    requires
        level_and_open(g, elevation, unit),
        inside(g, at(a)),
        inside(g, at(b)),
        adjacent(at(a), at(b)),
    ensures
        linked(g, params, at(a), at(b)),
        link_cost(g, params, at(a), at(b)) == unit,
{
    let ta = tile_at(g, at(a));
    let tb = tile_at(g, at(b));
    assert(ta is Some && tb is Some);
    lemma_move_cost_flat(ta.unwrap(), tb.unwrap(), params);
}

/// On level open ground the straight route is a route, of as many moves as
/// the Manhattan distance between its ends.
proof fn lemma_straight_route(
    g: Grid,
    params: NLACompassParams,
    elevation: usize,
    unit: usize,
    a: Node,
    b: Node,
)
    requires
        level_and_open(g, elevation, unit),
        inside(g, at(a)),
        inside(g, at(b)),
    ensures
        connects(g, params, straight(a, b), a, b),
        straight(a, b).len() == manhattan(at(a), at(b)) + 1,
    decreases manhattan(at(a), at(b)),
{
    if a == b {
        assert(is_route(g, params, seq![a]));
    } else {
        let n = toward(a, b);
        lemma_inside_fits(g, at(a));
        lemma_inside_fits(g, at(b));
        assert(inside(g, at(n)));
        assert(adjacent(at(a), at(n)));
        assert(manhattan(at(n), at(b)) + 1 == manhattan(at(a), at(b)));
        lemma_straight_route(g, params, elevation, unit, n, b);
        lemma_level_link(g, params, elevation, unit, a, n);
        let head = seq![a, n];
        let rest = straight(n, b);
        assert forall|i: int| 0 < i < head.len() implies #[trigger] step_ok(g, params, head, i) by {
            assert(i == 1);
        }
        lemma_route_concat(g, params, head, rest);
        assert(head + rest.skip(1) =~= seq![a] + rest);
    }
}

/// On level open ground a route costs `unit` for each of its moves.
proof fn lemma_level_route_cost(
    g: Grid,
    params: NLACompassParams,
    elevation: usize,
    unit: usize,
    r: Seq<Node>,
)
    requires
        level_and_open(g, elevation, unit),
        is_route(g, params, r),
    ensures
        route_cost(g, params, r) == unit * (r.len() - 1),
    decreases r.len(),
{
    if r.len() <= 1 {
        assert(unit * 0 == 0);
    } else {
        let p = r.drop_last();
        assert forall|i: int| 0 < i < p.len() implies #[trigger] step_ok(g, params, p, i) by {
            assert(step_ok(g, params, r, i));
        }
        lemma_level_route_cost(g, params, elevation, unit, p);
        assert(step_ok(g, params, r, r.len() - 1));
        let a = r[r.len() - 2];
        let b = r[r.len() - 1];
        let ta = tile_at(g, at(a));
        let tb = tile_at(g, at(b));
        assert(ta is Some && tb is Some);
        lemma_move_cost_flat(ta.unwrap(), tb.unwrap(), params);
        assert(unit * (r.len() - 2) + unit == unit * (r.len() - 1)) by (nonlinear_arith);
    }
}

/// A route has at least as many moves as the Manhattan distance between its ends.
proof fn lemma_route_length(g: Grid, params: NLACompassParams, r: Seq<Node>)
    requires
        is_route(g, params, r),
    ensures
        manhattan(at(r[0]), at(r.last())) <= r.len() - 1,
    decreases r.len(),
{
    if r.len() > 1 {
        let p = r.drop_last();
        assert forall|i: int| 0 < i < p.len() implies #[trigger] step_ok(g, params, p, i) by {
            assert(step_ok(g, params, r, i));
        }
        lemma_route_length(g, params, p);
        assert(step_ok(g, params, r, r.len() - 1));
    }
}

/// On level open ground of positive entry cost, a route joins any two cells,
/// and the first move of every cheapest route between two different cells
/// brings the agent strictly nearer, in Manhattan distance, to the end.
pub proof fn lemma_first_move_approaches(
    g: Grid,
    params: NLACompassParams,
    elevation: usize,
    unit: usize,
    start: Node,
    goal: Node,
    r: Seq<Node>,
)
    requires
        level_and_open(g, elevation, unit),
        unit >= 1,
        inside(g, at(start)),
        inside(g, at(goal)),
        start != goal,
        is_cheapest_route(g, params, r, start, goal),
    ensures
        reachable(g, params, start, goal),
        r.len() >= 2,
        adjacent(at(start), at(r[1])),
        manhattan(at(r[1]), at(goal)) < manhattan(at(start), at(goal)),
{
    let m = manhattan(at(start), at(goal));
    lemma_straight_route(g, params, elevation, unit, start, goal);
    let s = straight(start, goal);
    assert(connects(g, params, s, start, goal));
    lemma_level_route_cost(g, params, elevation, unit, r);
    lemma_level_route_cost(g, params, elevation, unit, s);
    assert(route_cost(g, params, r) <= route_cost(g, params, s));
    assert(r.len() - 1 <= m) by (nonlinear_arith)
        requires
            unit * (r.len() - 1) <= unit * m,
            unit >= 1,
    ;
    assert(step_ok(g, params, r, 1));
    lemma_route_split(g, params, r, 1);
    let rest = r.skip(1);
    lemma_route_length(g, params, rest);
    assert(rest[0] == r[1]);
    assert(rest.last() == goal);
}

} // verus!
