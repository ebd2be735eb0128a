//! The planner: it resolves the destination into a route to follow or into
//! an exploring move, keeps the route between calls and notices arrival.

use vstd::prelude::*;
use crate::coordinate::{lemma_offset_one, Coordinate, Direction};
use crate::dijkstra::{
    adjacent, at, find_path, get_direction, heading, is_cheapest_route, lemma_heading_reaches,
    lemma_rest_of_cheapest_route, route_answer, route_cost, step_ok, Node,
};
use crate::error::MoveError;
use crate::explorer::{exploring_outcome, get_move};
use crate::grid::{grid_of, in_bounds, inside, known, passable, tile_at, tile_of, well_formed, Grid};
use crate::nearest::{get_closest, matches_at, matches_target, nearest, Target};
use crate::params::{default_params, NLACompassParams};
use crate::selection::{seeded_state, RandomSource};
use crate::tile::{Content, Tile, TileType};

verus! {

/// Defines the destination of the compass.
#[derive(Clone, Copy, Debug, PartialEq, Eq)]
pub enum Destination {
    /// Content (content, explore_new).
    Content(Content, bool),
    /// Tile type (tiletype, explore_new).
    TileType(TileType, bool),
    /// Coordinate (row, col).
    Coordinate((usize, usize)),
}

/// Represents the compass tool.
/// See the [`Destination`] enum for information on how to configure the destination.
pub struct NLACompass {
    params: NLACompassParams,
    destination: Option<Destination>,
    last_move: Option<Direction>,
    dijkstra_path: Option<Vec<Node>>,
    last_coordinate: Option<Coordinate>,
    source: RandomSource,
}

/// What a compass remembers between calls.
pub struct CompassState {
    pub params: NLACompassParams,
    pub destination: Option<Destination>,
    /// The last move that was returned.
    pub last_move: Option<Direction>,
    /// The coordinate for which the kept route was computed.
    pub kept_goal: Option<Node>,
    /// What is left of the kept route, the agent's own cell first.
    pub kept_route: Option<Seq<Node>>,
    /// The state of the source from which exploring moves are drawn.
    pub generator: Seq<u8>,
}

/// What a call decides before any draw is made.
pub enum Plan {
    /// No move: the error is returned.
    Fail(MoveError),
    /// The agent follows a route.
    Follow {
        /// The cell to enter.
        next: Node,
        /// The coordinate to which the route leads.
        goal: Node,
        /// What is left of the route once the agent stands on `next`,
        /// `next` first.
        rest: Seq<Node>,
    },
    /// The agent explores, biased toward the coordinate if one is given.
    Explore(Option<Node>),
}

/// The cell that the kept route tells the agent at `cur` to enter on the way
/// to `goal`: the route was computed for `goal`, begins at `cur`, and its
/// next cell is an observed walkable neighbour.
pub open spec fn kept_step(state: CompassState, g: Grid, cur: Node, goal: Node) -> Option<Seq<Node>> {
    match state.kept_route {
        Some(route) => if state.kept_goal == Some(goal) && route.len() >= 2 && route[0] == cur
            && adjacent(at(cur), at(route[1])) && passable(g, at(route[1])) {
            Some(route)
        } else {
            None
        },
        None => None,
    }
}

/// The plan for reaching the coordinate `goal` from `cur`.
pub open spec fn plan_for_coordinate(state: CompassState, g: Grid, cur: Node, goal: Node) -> Plan {
    if cur == goal {
        Plan::Fail(MoveError::AlreadyAtDestination)
    } else if !inside(g, at(goal)) {
        Plan::Fail(MoveError::InvalidDestCoordinate)
    } else if known(g, at(goal)) {
        match kept_step(state, g, cur, goal) {
            Some(route) => Plan::Follow { next: route[1], goal, rest: route.skip(1) },
            None => match route_answer(g, state.params, cur, goal) {
                Some(route) => Plan::Follow { next: route[1], goal, rest: route.skip(1) },
                None => Plan::Explore(Some(goal)),
            },
        }
    } else {
        Plan::Explore(Some(goal))
    }
}

/// The plan for reaching a tile that matches `target`.
pub open spec fn plan_for_target(
    state: CompassState,
    g: Grid,
    cur: Node,
    target: Target,
    explore_new: bool,
    missing: MoveError,
) -> Plan {
    if matches_at(g, at(cur), target) {
        Plan::Fail(MoveError::AlreadyAtDestination)
    } else if explore_new {
        Plan::Explore(None)
    } else {
        match nearest(g, at(cur), target) {
            Some(p) => plan_for_coordinate(state, g, cur, (p.0 as usize, p.1 as usize)),
            None => Plan::Fail(missing),
        }
    }
}

/// The plan of a compass in `state` for an agent at `cur` on the map `g`.
pub open spec fn plan(state: CompassState, g: Grid, cur: Node) -> Plan {
    match state.destination {
        None => Plan::Fail(MoveError::NoDestination),
        Some(destination) => if !known(g, at(cur)) {
            Plan::Fail(MoveError::InvalidCurrPosition)
        } else {
            match destination {
                Destination::Coordinate(c) => plan_for_coordinate(state, g, cur, c),
                Destination::TileType(t, explore_new) => plan_for_target(
                    state,
                    g,
                    cur,
                    Target::Kind(t),
                    explore_new,
                    MoveError::NoTileType,
                ),
                Destination::Content(c, explore_new) => plan_for_target(
                    state,
                    g,
                    cur,
                    Target::Holding(c),
                    explore_new,
                    MoveError::NoContent,
                ),
            }
        },
    }
}

/// The route that the plan `p` follows is sound: its next cell is an observed
/// walkable neighbour of `cur`, and unless it is a kept route it is, with
/// `cur` before it, a cheapest route from `cur` to the coordinate it leads to.
pub open spec fn route_is_sound(p: Plan, state: CompassState, g: Grid, cur: Node) -> bool {
    p matches Plan::Follow { next, goal, rest } ==> {
        &&& adjacent(at(cur), at(next))
        &&& passable(g, at(next))
        &&& rest.len() >= 1
        &&& rest[0] == next
        &&& kept_step(state, g, cur, goal) is None ==> is_cheapest_route(
            g,
            state.params,
            seq![cur] + rest,
            cur,
            goal,
        )
    }
}

/// What a call returns under the plan `p`: the error of a failed plan, the
/// heading to the next cell of a route, or what the draw gives.
pub open spec fn move_allowed(
    p: Plan,
    state: CompassState,
    g: Grid,
    cur: Node,
    result: Result<Direction, MoveError>,
) -> bool {
    match p {
        Plan::Fail(e) => result == Err::<Direction, MoveError>(e),
        Plan::Follow { next, .. } => result == Ok::<Direction, MoveError>(
            heading(at(cur), at(next)),
        ),
        Plan::Explore(soft) => exploring_outcome(
            g,
            at(cur),
            match soft {
                Some(n) => Some(at(n)),
                None => None,
            },
            state.params,
            state.last_move,
            result,
        ),
    }
}

/// The state after a call that planned `p` and returned `result`: the
/// destination is cleared on arrival; the last move is replaced by a move that
/// was returned and kept otherwise; the kept route is what is left of the
/// route followed, is dropped on arrival and when a search for a route found
/// none, and stays as it was in every other case. The source of draws is
/// left as it was unless the plan explores; it is then in the state `drawn`,
/// in which the draw left it.
pub open spec fn state_after(
    p: Plan,
    state: CompassState,
    g: Grid,
    cur: Node,
    result: Result<Direction, MoveError>,
    drawn: Seq<u8>,
) -> CompassState {
    let arrived = p == Plan::Fail(MoveError::AlreadyAtDestination);
    let searched_in_vain = p matches Plan::Explore(Some(goal)) && known(g, at(goal));
    CompassState {
        params: state.params,
        destination: if arrived {
            None
        } else {
            state.destination
        },
        last_move: match result {
            Ok(d) => Some(d),
            Err(_) => state.last_move,
        },
        kept_goal: match p {
            Plan::Follow { goal, .. } => Some(goal),
            _ => if arrived || searched_in_vain {
                None
            } else {
                state.kept_goal
            },
        },
        kept_route: match p {
            Plan::Follow { rest, .. } => Some(rest),
            _ => if arrived || searched_in_vain {
                None
            } else {
                state.kept_route
            },
        },
        generator: if p is Explore {
            drawn
        } else {
            state.generator
        },
    }
}

/// What is kept of a route that was computed afresh is, while the map stays
/// the same, the route that the next call follows; and it is a cheapest route
/// from the cell where the agent then stands, worth exactly what a route
/// computed afresh from there would be worth.
pub proof fn lemma_kept_route_is_cheapest(
    state: CompassState,
    g: Grid,
    cur: Node,
    result: Result<Direction, MoveError>,
    next: Node,
    goal: Node,
    rest: Seq<Node>,
    drawn: Seq<u8>,
)
    requires
        plan(state, g, cur) == (Plan::Follow { next, goal, rest }),
        route_is_sound(plan(state, g, cur), state, g, cur),
        kept_step(state, g, cur, goal) is None,
        rest.len() >= 2,
    ensures
        kept_step(
            state_after(plan(state, g, cur), state, g, cur, result, drawn),
            g,
            next,
            goal,
        ) == Some(rest),
        is_cheapest_route(g, state.params, rest, next, goal),
        forall|fresh: Seq<Node>| #[trigger]
            is_cheapest_route(g, state.params, fresh, next, goal) ==> route_cost(
                g,
                state.params,
                fresh,
            ) == route_cost(g, state.params, rest),
{
    let whole = seq![cur] + rest;
    lemma_rest_of_cheapest_route(g, state.params, whole, cur, goal, 1);
    assert(whole.skip(1) =~= rest);
    assert(step_ok(g, state.params, whole, 2));
    assert(whole[1] == rest[0] && whole[2] == rest[1]);
}

/// Where only one cheapest route leads from the cell that the agent enters to
/// the goal, what is kept of a route is that very route, and the move that
/// the next call takes from it is the move that a search made afresh gives.
/// Between routes of equal cost the two may differ.
pub proof fn lemma_kept_step_is_fresh_step(
    state: CompassState,
    g: Grid,
    cur: Node,
    next: Node,
    goal: Node,
    rest: Seq<Node>,
    fresh: Seq<Node>,
)
    requires
        plan(state, g, cur) == (Plan::Follow { next, goal, rest }),
        route_is_sound(plan(state, g, cur), state, g, cur),
        kept_step(state, g, cur, goal) is None,
        rest.len() >= 2,
        is_cheapest_route(g, state.params, fresh, next, goal),
        forall|a: Seq<Node>, b: Seq<Node>|
            #[trigger] is_cheapest_route(g, state.params, a, next, goal)
                && #[trigger] is_cheapest_route(g, state.params, b, next, goal) ==> a == b,
    ensures
        rest == fresh,
        heading(at(next), at(rest[1])) == heading(at(fresh[0]), at(fresh[1])),
{
    lemma_kept_route_is_cheapest(
        state,
        g,
        cur,
        Err(MoveError::NoAvailableMove),
        next,
        goal,
        rest,
        state.generator,
    );
}

impl View for NLACompass {
    type V = CompassState;

    closed spec fn view(&self) -> CompassState {
        CompassState {
            params: self.params,
            destination: self.destination,
            last_move: self.last_move,
            kept_goal: match self.last_coordinate {
                Some(c) => Some((c.row, c.col)),
                None => None,
            },
            kept_route: match self.dijkstra_path {
                Some(v) => Some(v@),
                None => None,
            },
            generator: self.source@,
        }
    }
}

impl NLACompass {
    /// The parameters of a compass are always usable.
    pub open spec fn well_formed(&self) -> bool {
        self@.params.well_formed()
    }

    /// Initializes a new compass with the default parameters, whose draws are
    /// determined by the seed 0.
    pub fn new() -> (compass: Self)
        ensures
            compass.well_formed(),
            compass@ == (CompassState {
                params: default_params(),
                destination: None,
                last_move: None,
                kept_goal: None,
                kept_route: None,
                generator: seeded_state(0),
            }),
    {
        Self::with_seed(0)
    }

    /// Initializes a new compass with the default parameters, whose source of
    /// draws is in the state that `seed` gives.
    pub fn with_seed(seed: u64) -> (compass: Self)
        ensures
            compass.well_formed(),
            compass@ == (CompassState {
                params: default_params(),
                destination: None,
                last_move: None,
                kept_goal: None,
                kept_route: None,
                generator: seeded_state(seed),
            }),
    {
        NLACompass {
            destination: None,
            params: NLACompassParams::default(),
            last_move: None,
            dijkstra_path: None,
            last_coordinate: None,
            source: RandomSource::seeded(seed),
        }
    }

    /// Sets advanced configuration parameters.
    pub fn set_params(&mut self, params: NLACompassParams)
        requires
            params.well_formed(),
        ensures
            final(self)@ == (CompassState { params, ..old(self)@ }),
            final(self).well_formed(),
    {
        self.params = params;
    }

    /// Returns the advanced configuration parameters.
    pub fn get_params(&self) -> (params: &NLACompassParams)
        ensures
            *params == self@.params,
    {
        &self.params
    }

    /// Sets the destination of the compass.
    pub fn set_destination(&mut self, destination: Destination)
        ensures
            final(self)@ == (CompassState { destination: Some(destination), ..old(self)@ }),
    {
        self.destination = Some(destination);
    }

    /// Returns the destination of the compass.
    pub fn get_destination(&self) -> (destination: &Option<Destination>)
        ensures
            *destination == self@.destination,
    {
        &self.destination
    }

    /// Clears the destination of the compass.
    pub fn clear_destination(&mut self)
        ensures
            final(self)@ == (CompassState { destination: None, ..old(self)@ }),
    {
        self.destination = None;
    }

    /// Says whether the kept route can be followed from `cur` toward `goal`.
    fn kept_route_usable(&self, map: &Vec<Vec<Option<Tile>>>, cur: Node, goal: Node) -> (usable:
        bool)
        requires
            well_formed(grid_of(map)),
        ensures
            usable == kept_step(self@, grid_of(map), cur, goal) is Some,
    {
        let same_goal: bool = match self.last_coordinate {
            Some(c) => c.row == goal.0 && c.col == goal.1,
            None => false,
        };
        match &self.dijkstra_path {
            Some(route) => {
                if same_goal && route.len() >= 2 && route[0].0 == cur.0 && route[0].1 == cur.1 {
                    let next = Coordinate::new(route[1].0, route[1].1);
                    let here = Coordinate::new(cur.0, cur.1);
                    let near: bool = here.manhattan_distance(&next) == 1;
                    let open: bool = match tile_of(map, &next) {
                        Some(t) => t.walkable,
                        None => false,
                    };
                    near && open
                } else {
                    false
                }
            },
            None => false,
        }
    }

    /// The move toward the coordinate `c`, by a route where one is known and
    /// by exploring toward it where none is.
    fn get_move_for_coordinate(
        &mut self,
        map: &Vec<Vec<Option<Tile>>>,
        c: &Coordinate,
        curr_pos: &Coordinate,
    ) -> (result: Result<Direction, MoveError>)
        requires
            old(self).well_formed(),
            well_formed(grid_of(map)),
        ensures
            final(self).well_formed(),
            ({
                let cur = (curr_pos.row, curr_pos.col);
                let p = plan_for_coordinate(old(self)@, grid_of(map), cur, (c.row, c.col));
                &&& move_allowed(p, old(self)@, grid_of(map), cur, result)
                &&& final(self)@ == (CompassState {
                    last_move: old(self)@.last_move,
                    ..state_after(
                        p,
                        old(self)@,
                        grid_of(map),
                        cur,
                        result,
                        final(self)@.generator,
                    )
                })
                &&& route_is_sound(p, old(self)@, grid_of(map), cur)
            }),
    {
        let cur: Node = (curr_pos.row, curr_pos.col);
        let goal: Node = (c.row, c.col);
        let params = self.params;
        let last_move = self.last_move;
        let ghost g = grid_of(map);
        if curr_pos.row == c.row && curr_pos.col == c.col {
            self.destination = None;
            self.dijkstra_path = None;
            self.last_coordinate = None;
            return Err(MoveError::AlreadyAtDestination);
        }
        if !in_bounds(map, c) {
            return Err(MoveError::InvalidDestCoordinate);
        }
        if tile_of(map, c).is_none() {
            return get_move(map, curr_pos, Some(c), &params, &last_move, &mut self.source);
        }
        let kept: Option<Vec<Node>> = if self.kept_route_usable(map, cur, goal) {
            self.dijkstra_path.take()
        } else {
            None
        };
        let mut route: Vec<Node> = match kept {
            Some(route) => route,
            None => match find_path(cur, goal, map, &params) {
                Ok(path) => {
                    proof {
                        assert(step_ok(g, params, path@, 1));
                        assert(seq![cur] + path@.skip(1) =~= path@);
                    }
                    path
                },
                Err(_) => {
                    self.dijkstra_path = None;
                    self.last_coordinate = None;
                    return get_move(map, curr_pos, Some(c), &params, &last_move, &mut self.source);
                },
            },
        };
        let result = get_direction(&route);
        let ghost whole = route@;
        let _ = route.remove(0);
        assert(route@ =~= whole.skip(1));
        self.dijkstra_path = Some(route);
        self.last_coordinate = Some(*c);
        result
    }

    /// The move toward the nearest tile that matches `target`, or an
    /// exploring move where new ground is asked for.
    fn get_move_for_target(
        &mut self,
        map: &Vec<Vec<Option<Tile>>>,
        target: &Target,
        explore_new: bool,
        missing: MoveError,
        curr_pos: &Coordinate,
        here: &Tile,
    ) -> (result: Result<Direction, MoveError>)
        requires
            old(self).well_formed(),
            well_formed(grid_of(map)),
            tile_at(grid_of(map), curr_pos.pos()) == Some(*here),
            missing != MoveError::AlreadyAtDestination,
        ensures
            final(self).well_formed(),
            ({
                let cur = (curr_pos.row, curr_pos.col);
                let p = plan_for_target(
                    old(self)@,
                    grid_of(map),
                    cur,
                    *target,
                    explore_new,
                    missing,
                );
                &&& move_allowed(p, old(self)@, grid_of(map), cur, result)
                &&& final(self)@ == (CompassState {
                    last_move: old(self)@.last_move,
                    ..state_after(
                        p,
                        old(self)@,
                        grid_of(map),
                        cur,
                        result,
                        final(self)@.generator,
                    )
                })
                &&& route_is_sound(p, old(self)@, grid_of(map), cur)
            }),
    {
        let params = self.params;
        let last_move = self.last_move;
        if matches_target(here, target) {
            self.destination = None;
            self.dijkstra_path = None;
            self.last_coordinate = None;
            Err(MoveError::AlreadyAtDestination)
        } else if explore_new {
            get_move(map, curr_pos, None, &params, &last_move, &mut self.source)
        } else {
            match get_closest(map, target, curr_pos) {
                Some(coordinate) => self.get_move_for_coordinate(map, &coordinate, curr_pos),
                None => Err(missing),
            }
        }
    }

    /// The move toward the nearest tile that holds the content `c`.
    fn get_move_for_content(
        &mut self,
        map: &Vec<Vec<Option<Tile>>>,
        c: &Content,
        explore_new: bool,
        curr_pos: &Coordinate,
        here: &Tile,
    ) -> (result: Result<Direction, MoveError>)
        requires
            old(self).well_formed(),
            well_formed(grid_of(map)),
            tile_at(grid_of(map), curr_pos.pos()) == Some(*here),
        ensures
            final(self).well_formed(),
            ({
                let cur = (curr_pos.row, curr_pos.col);
                let p = plan_for_target(
                    old(self)@,
                    grid_of(map),
                    cur,
                    Target::Holding(*c),
                    explore_new,
                    MoveError::NoContent,
                );
                &&& move_allowed(p, old(self)@, grid_of(map), cur, result)
                &&& final(self)@ == (CompassState {
                    last_move: old(self)@.last_move,
                    ..state_after(
                        p,
                        old(self)@,
                        grid_of(map),
                        cur,
                        result,
                        final(self)@.generator,
                    )
                })
                &&& route_is_sound(p, old(self)@, grid_of(map), cur)
            }),
    {
        self.get_move_for_target(
            map,
            &Target::Holding(*c),
            explore_new,
            MoveError::NoContent,
            curr_pos,
            here,
        )
    }

    /// The move toward the nearest tile of the type `t`.
    fn get_move_for_tiletype(
        &mut self,
        map: &Vec<Vec<Option<Tile>>>,
        t: &TileType,
        explore_new: bool,
        curr_pos: &Coordinate,
        here: &Tile,
    ) -> (result: Result<Direction, MoveError>)
        requires
            old(self).well_formed(),
            well_formed(grid_of(map)),
            tile_at(grid_of(map), curr_pos.pos()) == Some(*here),
        ensures
            final(self).well_formed(),
            ({
                let cur = (curr_pos.row, curr_pos.col);
                let p = plan_for_target(
                    old(self)@,
                    grid_of(map),
                    cur,
                    Target::Kind(*t),
                    explore_new,
                    MoveError::NoTileType,
                );
                &&& move_allowed(p, old(self)@, grid_of(map), cur, result)
                &&& final(self)@ == (CompassState {
                    last_move: old(self)@.last_move,
                    ..state_after(
                        p,
                        old(self)@,
                        grid_of(map),
                        cur,
                        result,
                        final(self)@.generator,
                    )
                })
                &&& route_is_sound(p, old(self)@, grid_of(map), cur)
            }),
    {
        self.get_move_for_target(
            map,
            &Target::Kind(*t),
            explore_new,
            MoveError::NoTileType,
            curr_pos,
            here,
        )
    }

    /// Returns the best direction according to the destination and the
    /// parameters that were set.
    ///
    /// What is returned follows from [`plan`]: the error of a plan that fails;
    /// the heading to the next cell of the route of a plan that follows one;
    /// and under a plan that explores, what [`exploring_outcome`] allows.
    /// Every direction returned leads to an observed walkable cell of the map
    /// next to `curr_pos`. The compass afterwards is [`state_after`] the call.
    pub fn get_move(&mut self, map: &Vec<Vec<Option<Tile>>>, curr_pos: (usize, usize)) -> (result:
        Result<Direction, MoveError>)
        requires
            old(self).well_formed(),
            well_formed(grid_of(map)),
        ensures
            final(self).well_formed(),
            move_allowed(
                plan(old(self)@, grid_of(map), curr_pos),
                old(self)@,
                grid_of(map),
                curr_pos,
                result,
            ),
            final(self)@ == state_after(
                plan(old(self)@, grid_of(map), curr_pos),
                old(self)@,
                grid_of(map),
                curr_pos,
                result,
                final(self)@.generator,
            ),
            route_is_sound(
                plan(old(self)@, grid_of(map), curr_pos),
                old(self)@,
                grid_of(map),
                curr_pos,
            ),
            result matches Ok(d) ==> passable(grid_of(map), d.next(at(curr_pos))),
    {
        let position = Coordinate::new(curr_pos.0, curr_pos.1);
        let destination = match self.destination {
            Some(d) => d,
            None => {
                return Err(MoveError::NoDestination);
            },
        };
        let here = match tile_of(map, &position) {
            Some(t) => t,
            None => {
                return Err(MoveError::InvalidCurrPosition);
            },
        };
        let res = match destination {
            Destination::Content(c, explore_new) => self.get_move_for_content(
                map,
                &c,
                explore_new,
                &position,
                &here,
            ),
            Destination::TileType(t, explore_new) => self.get_move_for_tiletype(
                map,
                &t,
                explore_new,
                &position,
                &here,
            ),
            Destination::Coordinate(c) => self.get_move_for_coordinate(
                map,
                &Coordinate::new(c.0, c.1),
                &position,
            ),
        };
        proof {
            let p = plan(old(self)@, grid_of(map), curr_pos);
            if let Plan::Follow { next, .. } = p {
                lemma_heading_reaches(at(curr_pos), at(next));
                lemma_offset_one(heading(at(curr_pos), at(next)), at(curr_pos));
            }
        }
        if let Ok(d) = res {
            self.last_move = Some(d);
        }
        res
    }

    /// Returns the last move that the compass returned.
    pub fn get_last_move(&self) -> (last: Option<Direction>)
        ensures
            last == self@.last_move,
    {
        self.last_move
    }
}

} // verus!
