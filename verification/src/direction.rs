//! The four grid directions.

use vstd::prelude::*;

verus! {

/// A step from a cell to one of its four grid neighbours.
#[derive(Clone, Copy, Debug, PartialEq, Eq, Structural, Hash)]
pub enum Direction {
    Up,
    Down,
    Left,
    Right,
}

impl Direction {
    /// The direction that undoes `self`.
    pub open spec fn inverse(self) -> Direction {
        match self {
            Direction::Up => Direction::Down,
            Direction::Down => Direction::Up,
            Direction::Left => Direction::Right,
            Direction::Right => Direction::Left,
        }
    }

    /// The change of the row index made by one step in this direction.
    pub open spec fn row_offset(self) -> int {
        match self {
            Direction::Up => -1,
            Direction::Down => 1,
            Direction::Left => 0,
            Direction::Right => 0,
        }
    }

    /// The change of the column index made by one step in this direction.
    pub open spec fn col_offset(self) -> int {
        match self {
            Direction::Up => 0,
            Direction::Down => 0,
            Direction::Left => -1,
            Direction::Right => 1,
        }
    }

    /// The place of the direction in the order in which neighbours are
    /// listed.
    pub open spec fn index(self) -> int {
        match self {
            Direction::Up => 0,
            Direction::Down => 1,
            Direction::Left => 2,
            Direction::Right => 3,
        }
    }

    /// All directions, in the order in which neighbours are listed.
    pub open spec fn all() -> Seq<Direction> {
        seq![Direction::Up, Direction::Down, Direction::Left, Direction::Right]
    }

    /// The four directions in the fixed order up, down, left, right.
    pub fn as_list() -> (list: Vec<Direction>)
        ensures
            list@ == Direction::all(),
    {
        let mut list: Vec<Direction> = Vec::with_capacity(4);
        list.push(Direction::Up);
        list.push(Direction::Down);
        list.push(Direction::Left);
        list.push(Direction::Right);
        assert(list@ =~= Direction::all());
        list
    }
}

/// The opposite of `direction`: up and down swap, left and right swap.
pub fn direction_reverse(direction: &Direction) -> (reversed: Direction)
    ensures
        reversed == direction.inverse(),
{
    match direction {
        Direction::Up => Direction::Down,
        Direction::Down => Direction::Up,
        Direction::Left => Direction::Right,
        Direction::Right => Direction::Left,
    }
}

} // verus!
