//! One grid cell: what it holds and whether the player has seen it.

use vstd::prelude::*;

verus! {

/// What a cell holds. A ship is named by its index in the board's ship list.
#[derive(Debug, Clone, Copy, PartialEq, Eq, Structural)]
pub enum CellContent {
    /// Open water, free for placement.
    Water,
    /// Water next to the ship with this index; reserved as a buffer.
    NearShip(usize),
    /// Part of the ship with this index.
    Ship(usize),
}

impl CellContent {
    pub fn contains_ship(&self) -> (r: bool)
        ensures
            r == (*self is Ship),
    {
        match self {
            Self::Ship(_) => true,
            _ => false,
        }
    }

    /// The ship that occupies this cell, if any.
    pub fn get_ship(&self) -> (r: Option<usize>)
        ensures
            r == (match *self {
                CellContent::Ship(ship) => Some(ship),
                _ => None,
            }),
    {
        match self {
            Self::Ship(ship) => Some(*ship),
            _ => None,
        }
    }

    /// The ship that forbids placing anything here: the occupant or a neighbour.
    pub fn get_collision(&self) -> (r: Option<usize>)
        ensures
            r == (match *self {
                CellContent::Ship(ship) => Some(ship),
                CellContent::NearShip(ship) => Some(ship),
                CellContent::Water => None,
            }),
    {
        match self {
            Self::Ship(ship) => Some(*ship),
            Self::NearShip(ship) => Some(*ship),
            _ => None,
        }
    }
}

/// A cell of the grid. `exposed` only ever goes from `false` to `true`.
#[derive(Debug, Clone, Copy, PartialEq, Eq, Structural)]
pub struct CellState {
    pub content: CellContent,
    pub exposed: bool,
}

impl CellState {
    /// The same cell, revealed.
    pub open spec fn revealed(self) -> CellState {
        CellState { content: self.content, exposed: true }
    }

    /// The same cell with other content.
    pub open spec fn holding(self, content: CellContent) -> CellState {
        CellState { content, exposed: self.exposed }
    }

    #[inline]
    pub fn expose(&mut self)
        ensures
            *final(self) == old(self).revealed(),
    {
        self.exposed = true;
    }

    pub fn contains_ship(&self) -> (r: bool)
        ensures
            r == (self.content is Ship),
    {
        self.content.contains_ship()
    }
}

impl Default for CellState {
    fn default() -> (r: Self)
        ensures
            r == (CellState { content: CellContent::Water, exposed: false }),
    {
        Self { content: CellContent::Water, exposed: false }
    }
}

} // verus!
