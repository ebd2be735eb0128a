//! A navigation planner for an agent that moves over a partially observed grid.
//!
//! The agent is told where to go: to a coordinate, to a kind of terrain or
//! to a content. The [`compass`] answers, once per tick, with the move to
//! make. Where a route over the observed walkable cells is known it follows
//! the cheapest ([`dijkstra`]); where none is, it explores ([`explorer`]),
//! drawing its move among the neighbours ([`selection`]).
//!
//! Every cost in this crate is an exact natural number in contracts and a
//! saturating `u128` in executable code ([`arith`]): a saturated cost stands
//! for "unbounded" and is never preferred over a bounded one. Exponents are
//! rationals, and a power is rounded down; the powers under a root that do
//! not fit in 128 bits are held as [`wide`] numbers.

pub mod arith;
pub mod chunks;
pub mod compass;
pub mod coordinate;
pub mod cost;
pub mod dijkstra;
pub mod error;
pub mod explorer;
pub mod grid;
pub mod level_ground;
pub mod nearest;
pub mod params;
pub mod probabilistic_choice;
pub mod selection;
pub mod tile;
pub mod utils;
pub mod wide;
