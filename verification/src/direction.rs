//! The four-way compass enumeration and its geometric helpers.
//!
//! Directions carry a total order `Up = 0, Right = 1, Down = 2, Left = 3`
//! with a cyclic successor and predecessor; `opposite` is the successor
//! applied twice (a half turn). Each direction maps to a unit grid offset
//! in a coordinate system whose `y` axis grows downward.

use vstd::prelude::*;

verus! {

#[derive(Debug, Clone, Copy, PartialEq, Eq, Structural)]
pub enum Direction {
    Up,
    Right,
    Down,
    Left,
}

impl Direction {
    /// The position of this direction in the total order `0..4`.
    pub open spec fn index_spec(self) -> int {
        match self {
            Direction::Up => 0,
            Direction::Right => 1,
            Direction::Down => 2,
            Direction::Left => 3,
        }
    }

    /// The direction at a given position of the total order; an out-of-range
    /// index maps to `Up`.
    pub open spec fn from_index_spec(d: int) -> Direction {
        if d == 1 {
            Direction::Right
        } else if d == 2 {
            Direction::Down
        } else if d == 3 {
            Direction::Left
        } else {
            Direction::Up
        }
    }

    /// The cyclic successor.
    pub open spec fn next_spec(self) -> Direction {
        match self {
            Direction::Up => Direction::Right,
            Direction::Right => Direction::Down,
            Direction::Down => Direction::Left,
            Direction::Left => Direction::Up,
        }
    }

    /// The cyclic predecessor.
    pub open spec fn prev_spec(self) -> Direction {
        match self {
            Direction::Up => Direction::Left,
            Direction::Right => Direction::Up,
            Direction::Down => Direction::Right,
            Direction::Left => Direction::Down,
        }
    }

    /// A half turn: the successor applied twice.
    pub open spec fn opposite_spec(self) -> Direction {
        match self {
            Direction::Up => Direction::Down,
            Direction::Right => Direction::Left,
            Direction::Down => Direction::Up,
            Direction::Left => Direction::Right,
        }
    }

    /// The unit grid offset `(dx, dy)` of this direction; `y` grows downward.
    pub open spec fn offset_spec(self) -> (int, int) {
        match self {
            Direction::Up => (0, -1),
            Direction::Right => (1, 0),
            Direction::Down => (0, 1),
            Direction::Left => (-1, 0),
        }
    }

    /// Builds a direction from its index; an out-of-range index maps to `Up`.
    pub fn new(d: usize) -> (r: Direction)
        ensures
            r == Direction::from_index_spec(d as int),
    {
        match d {
            0 => Direction::Up,
            1 => Direction::Right,
            2 => Direction::Down,
            3 => Direction::Left,
            _ => Direction::Up,
        }
    }

    /// The index of this direction in the total order.
    pub fn to_int(&self) -> (r: usize)
        ensures
            r as int == self.index_spec(),
    {
        match self {
            Direction::Up => 0,
            Direction::Right => 1,
            Direction::Down => 2,
            Direction::Left => 3,
        }
    }

    /// The cyclic successor in the total order.
    pub fn next(&self) -> (r: Direction)
        ensures
            r == self.next_spec(),
    {
        let dir = self.to_int();
        let mut new_dir = dir + 1;
        if new_dir > 3 {
            new_dir = 0
        }
        Direction::new(new_dir)
    }

    /// The cyclic predecessor in the total order.
    pub fn prev(&self) -> (r: Direction)
        ensures
            r == self.prev_spec(),
    {
        let dir = self.to_int();
        if dir == 0 {
            Direction::new(3)
        } else {
            Direction::new(dir - 1)
        }
    }

    /// The unit grid offset of this direction.
    pub fn grid_dir(&self) -> (r: (i32, i32))
        ensures
            (r.0 as int, r.1 as int) == self.offset_spec(),
    {
        match self {
            Direction::Up => (0, -1),
            Direction::Right => (1, 0),
            Direction::Down => (0, 1),
            Direction::Left => (-1, 0),
        }
    }

    /// The unit grid offset of the opposite direction: the negation of
    /// this direction's offset.
    pub fn grid_dir_opposite(&self) -> (r: (i32, i32))
        ensures
            (r.0 as int, r.1 as int) == self.opposite_spec().offset_spec(),
            r.0 as int == -self.offset_spec().0,
            r.1 as int == -self.offset_spec().1,
    {
        self.opposite().grid_dir()
    }

    /// The opposite direction: the successor applied twice.
    pub fn opposite(&self) -> (r: Direction)
        ensures
            r == self.opposite_spec(),
    {
        self.next().next()
    }
}

/// The compass laws: `opposite` is an involution and agrees with a double
/// successor, four successors (or predecessors) come back to the start,
/// `next` and `prev` are inverse to each other, and the offset of the
/// opposite direction is the negated offset.
pub proof fn lemma_direction_laws(d: Direction)
    ensures
        d.opposite_spec().opposite_spec() == d,
        d.opposite_spec() == d.next_spec().next_spec(),
        d.next_spec().next_spec().next_spec().next_spec() == d,
        d.prev_spec().prev_spec().prev_spec().prev_spec() == d,
        d.next_spec().prev_spec() == d,
        d.prev_spec().next_spec() == d,
        d.opposite_spec().offset_spec().0 == -d.offset_spec().0,
        d.opposite_spec().offset_spec().1 == -d.offset_spec().1,
{
}

} // verus!
