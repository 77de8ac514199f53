//! The open passages of one cell.

use vstd::prelude::*;
use crate::direction::Direction;

verus! {

/// The set of directions in which a cell is open.
#[derive(Clone, Copy, Debug, PartialEq, Eq, Structural)]
pub struct Passages {
    pub up: bool,
    pub down: bool,
    pub left: bool,
    pub right: bool,
}

impl View for Passages {
    type V = Set<Direction>;

    open spec fn view(&self) -> Set<Direction> {
        Set::new(|d: Direction| self.has(d))
    }
}

impl Passages {
    /// Whether the cell is open towards `d`.
    pub open spec fn has(&self, d: Direction) -> bool {
        match d {
            Direction::Up => self.up,
            Direction::Down => self.down,
            Direction::Left => self.left,
            Direction::Right => self.right,
        }
    }

    /// The number of open directions.
    pub open spec fn count(&self) -> nat {
        (if self.up { 1nat } else { 0nat }) + (if self.down { 1nat } else { 0nat })
            + (if self.left { 1nat } else { 0nat }) + (if self.right { 1nat } else { 0nat })
    }

    /// A cell that is walled in on every side.
    pub fn new() -> (p: Passages)
        ensures
            forall|d: Direction| !p.has(d),
            p@ == Set::<Direction>::empty(),
    {
        let p = Passages { up: false, down: false, left: false, right: false };
        assert(p@ =~= Set::<Direction>::empty());
        p
    }

    /// Whether the cell is open towards `direction`.
    pub fn contains(&self, direction: &Direction) -> (open: bool)
        ensures
            open == self.has(*direction),
            open == self@.contains(*direction),
    {
        match direction {
            Direction::Up => self.up,
            Direction::Down => self.down,
            Direction::Left => self.left,
            Direction::Right => self.right,
        }
    }

    /// Opens the cell towards `direction`; returns whether it was closed
    /// before.
    pub fn insert(&mut self, direction: Direction) -> (added: bool)
        ensures
            added == !old(self).has(direction),
            forall|d: Direction| final(self).has(d) == (d == direction || old(self).has(d)),
            final(self)@ == old(self)@.insert(direction),
    {
        let added = !self.contains(&direction);
        match direction {
            Direction::Up => {
                self.up = true;
            },
            Direction::Down => {
                self.down = true;
            },
            Direction::Left => {
                self.left = true;
            },
            Direction::Right => {
                self.right = true;
            },
        }
        assert(self@ =~= old(self)@.insert(direction));
        added
    }

    /// The open directions are as many as `count` says.
    pub proof fn lemma_count(&self)
        ensures
            self@.finite(),
            self@.len() == self.count(),
    {
        let none = Set::<Direction>::empty();
        let first = if self.up {
            none.insert(Direction::Up)
        } else {
            none
        };
        let second = if self.down {
            first.insert(Direction::Down)
        } else {
            first
        };
        let third = if self.left {
            second.insert(Direction::Left)
        } else {
            second
        };
        let fourth = if self.right {
            third.insert(Direction::Right)
        } else {
            third
        };
        assert(self@ =~= fourth);
    }

    /// The number of open directions.
    pub fn len(&self) -> (n: usize)
        ensures
            n == self.count(),
            n == self@.len(),
    {
        proof {
            self.lemma_count();
        }
        let mut n: usize = 0;
        if self.up {
            n += 1;
        }
        if self.down {
            n += 1;
        }
        if self.left {
            n += 1;
        }
        if self.right {
            n += 1;
        }
        n
    }
}

} // verus!
