//! Grid coordinates.

use vstd::prelude::*;

verus! {

/// A coordinate on the grid: column `x`, row `y`.
#[derive(Debug, Hash, PartialEq, Eq, Clone, Copy, Structural)]
pub struct Point {
    pub x: u8,
    pub y: u8,
}

impl Point {
    /// The point `(x + dx, y + dy)` as integers, before any range check.
    pub open spec fn shifted(self, dx: int, dy: int) -> (int, int) {
        (self.x + dx, self.y + dy)
    }

    /// Whether `other` lies in the 3x3 block centred on `self`.
    pub open spec fn touches(self, other: Point) -> bool {
        &&& -1 <= other.x - self.x <= 1
        &&& -1 <= other.y - self.y <= 1
    }

    pub fn new(x: u8, y: u8) -> (p: Self)
        ensures
            p == (Point { x, y }),
    {
        Self { x, y }
    }

    /// The point of the column and row with the given indices. Indices past
    /// 255 wrap around, as a coordinate holds one byte.
    pub fn from_index(x: usize, y: usize) -> (p: Self)
        ensures
            p.x == x % 256,
            p.y == y % 256,
    {
        Self::new((x % 256) as u8, (y % 256) as u8)
    }

    /// Moves the point by `(dx, dy)`; `None` when a coordinate would leave `0..=255`.
    pub fn try_add_delta(&self, dx: isize, dy: isize) -> (r: Option<Self>)
        ensures
            r is Some <==> (0 <= self.x + dx <= 255 && 0 <= self.y + dy <= 255),
            r is Some ==> r->0.x == self.x + dx && r->0.y == self.y + dy,
    {
        let nx: i128 = self.x as i128 + dx as i128;
        let ny: i128 = self.y as i128 + dy as i128;
        if 0 <= nx && nx <= 255 && 0 <= ny && ny <= 255 {
            Some(Point { x: nx as u8, y: ny as u8 })
        } else {
            None
        }
    }
}

} // verus!
