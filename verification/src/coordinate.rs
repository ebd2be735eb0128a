//! Grid coordinates, the four movement directions and the distances between cells.

use vstd::prelude::*;

verus! {

/// A cell position: `row` grows downwards, `col` grows to the right.
#[derive(Clone, Copy, Debug, PartialEq, Eq, Structural)]
pub struct Coordinate {
    pub row: usize,
    pub col: usize,
}

/// One of the four axis-aligned moves.
#[derive(Clone, Copy, Debug, PartialEq, Eq, Structural)]
pub enum Direction {
    Up,
    Down,
    Left,
    Right,
}

/// The absolute difference of two naturals.
pub open spec fn gap(a: int, b: int) -> nat {
    if a >= b {
        (a - b) as nat
    } else {
        (b - a) as nat
    }
}

/// Manhattan distance between two positions given as (row, col) pairs.
pub open spec fn manhattan(a: (int, int), b: (int, int)) -> nat {
    gap(a.0, b.0) + gap(a.1, b.1)
}

/// Squared Euclidean distance between two positions given as (row, col) pairs.
pub open spec fn euclid_squared(a: (int, int), b: (int, int)) -> nat {
    gap(a.0, b.0) * gap(a.0, b.0) + gap(a.1, b.1) * gap(a.1, b.1)
}

impl Coordinate {
    /// The position as a pair of mathematical integers.
    pub open spec fn pos(self) -> (int, int) {
        (self.row as int, self.col as int)
    }

    pub fn new(row: usize, col: usize) -> (c: Self)
        ensures
            c.row == row,
            c.col == col,
    {
        Self { row, col }
    }

    /// Manhattan distance to `other`.
    pub fn manhattan_distance(&self, other: &Coordinate) -> (d: u128)
        ensures
            d == manhattan(self.pos(), other.pos()),
    {
        let dr: u128 = abs_diff(self.row, other.row) as u128;
        let dc: u128 = abs_diff(self.col, other.col) as u128;
        dr + dc
    }

    /// Squared Euclidean distance to `other`. Ordering cells by it orders them
    /// by Euclidean distance, without rounding.
    pub fn distance_squared(&self, other: &Coordinate) -> (d: u128)
        requires
            euclid_squared(self.pos(), other.pos()) <= u128::MAX,
        ensures
            d == euclid_squared(self.pos(), other.pos()),
    {
        let dr: u128 = abs_diff(self.row, other.row) as u128;
        let dc: u128 = abs_diff(self.col, other.col) as u128;
        assert(dr * dr <= 0xffff_ffff_ffff_ffff * 0xffff_ffff_ffff_ffff) by (nonlinear_arith)
            requires
                dr <= 0xffff_ffff_ffff_ffff,
        ;
        assert(dc * dc <= 0xffff_ffff_ffff_ffff * 0xffff_ffff_ffff_ffff) by (nonlinear_arith)
            requires
                dc <= 0xffff_ffff_ffff_ffff,
        ;
        dr * dr + dc * dc
    }
}

/// `|a - b|` on machine integers.
pub fn abs_diff(a: usize, b: usize) -> (d: usize)
    ensures
        d == gap(a as int, b as int),
{
    if a >= b {
        a - b
    } else {
        b - a
    }
}

impl Direction {
    /// The move that undoes this one.
    pub open spec fn opposite(self) -> Direction {
        match self {
            Direction::Up => Direction::Down,
            Direction::Down => Direction::Up,
            Direction::Left => Direction::Right,
            Direction::Right => Direction::Left,
        }
    }

    /// Change of row made by one step.
    pub open spec fn row_delta(self) -> int {
        match self {
            Direction::Up => -1,
            Direction::Down => 1,
            _ => 0,
        }
    }

    /// Change of column made by one step.
    pub open spec fn col_delta(self) -> int {
        match self {
            Direction::Left => -1,
            Direction::Right => 1,
            _ => 0,
        }
    }

    /// The position one step this way from `from`.
    pub open spec fn next(self, from: (int, int)) -> (int, int) {
        (from.0 + self.row_delta(), from.1 + self.col_delta())
    }

    /// The position reached from `from` after `steps` steps this way.
    pub open spec fn offset(self, from: (int, int), steps: int) -> (int, int) {
        (from.0 + steps * self.row_delta(), from.1 + steps * self.col_delta())
    }
}

/// The move that undoes `direction`.
pub fn get_opposite_direction(direction: &Direction) -> (back: Direction)
    ensures
        back == direction.opposite(),
{
    match direction {
        Direction::Down => Direction::Up,
        Direction::Up => Direction::Down,
        Direction::Right => Direction::Left,
        Direction::Left => Direction::Right,
    }
}

/// One step changes exactly one coordinate by one.
pub proof fn lemma_offset_one(d: Direction, from: (int, int))
    ensures
        d.offset(from, 1) == d.next(from),
        d.offset(from, 0) == from,
{
    assert(1 * d.row_delta() == d.row_delta());
    assert(1 * d.col_delta() == d.col_delta());
    assert(0 * d.row_delta() == 0);
    assert(0 * d.col_delta() == 0);
}

/// Undoing a move twice gives the move back, and no move undoes itself.
pub proof fn lemma_opposite_involution(d: Direction)
    ensures
        d.opposite().opposite() == d,
        d.opposite() != d,
{
}

} // verus!
