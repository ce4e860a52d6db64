//! The board as a mathematical value, and the game's rules as functions on it.

use vstd::prelude::*;
use crate::game::cell::{CellContent, CellState};
use crate::game::fleet::{ShipCounterView, ShipView};
use crate::game::point::Point;

verus! {

/// Why a hit was refused. The board is left untouched in both cases.
#[derive(Debug, Clone, Copy, PartialEq, Eq, Structural)]
pub enum HitError {
    /// The coordinate is not on the grid.
    OutOfBounds,
    /// The cell was revealed before.
    AlreadyHit,
}

/// What one accepted hit changed, so that a display can redraw only that.
///
/// `cell` is the cell that was hit. `sank_ship` names the ship that this hit
/// sank, if it sank one: its nearby cells were revealed and its counter went
/// down by one.
#[derive(Debug, Clone, Copy, PartialEq, Eq, Structural)]
pub struct HitDisplayDiff {
    pub cell: Point,
    pub sank_ship: Option<usize>,
}

/// The point with the given coordinates.
pub open spec fn point_at(x: int, y: int) -> Point {
    Point { x: x as u8, y: y as u8 }
}

/// Whether `p` names a cell of the grid `cells`.
pub open spec fn on_grid(cells: Seq<Seq<CellState>>, p: Point) -> bool {
    p.x < cells.len() && p.y < cells[p.x as int].len()
}

/// Whether every cell of the grid `cells` has coordinates that fit a [`Point`].
pub open spec fn fits_points(cells: Seq<Seq<CellState>>) -> bool {
    &&& cells.len() <= 256
    &&& forall|x: int| 0 <= x < cells.len() ==> (#[trigger] cells[x]).len() <= 256
}

/// The grid `cells` with every cell of `points` revealed.
pub open spec fn reveal_cells(cells: Seq<Seq<CellState>>, points: Seq<Point>) -> Seq<
    Seq<CellState>,
> {
    Seq::new(
        cells.len(),
        |x: int|
            Seq::new(
                cells[x].len(),
                |y: int|
                    if points.contains(point_at(x, y)) {
                        cells[x][y].revealed()
                    } else {
                        cells[x][y]
                    },
            ),
    )
}

/// The grid `cells` with `content` put into every cell of `points`.
pub open spec fn paint_cells(
    cells: Seq<Seq<CellState>>,
    points: Seq<Point>,
    content: CellContent,
) -> Seq<Seq<CellState>> {
    Seq::new(
        cells.len(),
        |x: int|
            Seq::new(
                cells[x].len(),
                |y: int|
                    if points.contains(point_at(x, y)) {
                        cells[x][y].holding(content)
                    } else {
                        cells[x][y]
                    },
            ),
    )
}

/// The grid `cells` after a ship with index `id` has taken `points` and
/// reserved `near`. Where a cell is in both, the ship has it.
pub open spec fn mark_cells(
    cells: Seq<Seq<CellState>>,
    points: Seq<Point>,
    near: Seq<Point>,
    id: usize,
) -> Seq<Seq<CellState>> {
    paint_cells(paint_cells(cells, near, CellContent::NearShip(id)), points, CellContent::Ship(id))
}

/// The mathematical value of a board: `cells[x][y]` is the cell at `(x, y)`.
pub struct BoardView {
    pub ships: Seq<ShipView>,
    pub counters: Seq<ShipCounterView>,
    pub cells: Seq<Seq<CellState>>,
}

impl BoardView {
    pub open spec fn width(self) -> nat {
        self.cells.len()
    }

    pub open spec fn height(self) -> nat {
        if self.cells.len() == 0 {
            0
        } else {
            self.cells[0].len()
        }
    }

    pub open spec fn in_bounds(self, p: Point) -> bool {
        on_grid(self.cells, p)
    }

    pub open spec fn cell(self, p: Point) -> CellState {
        self.cells[p.x as int][p.y as int]
    }

    /// The unrevealed cells that ship `s` occupies.
    pub open spec fn afloat_cells(self, s: int) -> Set<Point> {
        Set::new(
            |p: Point|
                self.in_bounds(p) && self.cell(p).content == CellContent::Ship(s as usize)
                    && !self.cell(p).exposed,
        )
    }

    /// The ships of class `c` that have not sunk.
    pub open spec fn afloat_ships(self, c: int) -> Set<int> {
        Set::new(
            |s: int| 0 <= s < self.ships.len() && self.ships[s].counter == c && self.ships[s].length > 0,
        )
    }

    // ----- well-formedness -----

    /// The grid is a rectangle whose sides fit a coordinate.
    pub open spec fn grid_ok(self) -> bool {
        &&& self.width() <= 255
        &&& self.height() <= 255
        &&& forall|x: int| 0 <= x < self.cells.len() ==> (#[trigger] self.cells[x]).len() == self.height()
    }

    /// Every cell that names a ship names one that exists.
    pub open spec fn refs_ok(self) -> bool {
        &&& self.ships.len() <= usize::MAX
        &&& forall|p: Point| #[trigger]
            self.in_bounds(p) ==> match self.cell(p).content {
                CellContent::Water => true,
                CellContent::NearShip(s) => s < self.ships.len(),
                CellContent::Ship(s) => s < self.ships.len(),
            }
    }

    /// Every ship has a counter, and its nearby cells are buffer cells on the grid.
    pub open spec fn ships_ok(self) -> bool {
        forall|s: int|
            0 <= s < self.ships.len() ==> {
                &&& (#[trigger] self.ships[s]).counter < self.counters.len()
                &&& forall|i: int|
                    0 <= i < self.ships[s].nearby_cells.len() ==> {
                        &&& self.in_bounds(#[trigger] self.ships[s].nearby_cells[i])
                        &&& self.cell(self.ships[s].nearby_cells[i]).content is NearShip
                    }
            }
    }

    /// Around a ship's cell there is only that ship and buffer.
    pub open spec fn buffered(self) -> bool {
        forall|p: Point, q: Point|
            self.in_bounds(p) && self.in_bounds(q) && #[trigger] p.touches(q) && self.cell(
                p,
            ).content is Ship ==> self.cell(q).content == self.cell(p).content || self.cell(
                q,
            ).content is NearShip
    }

    /// A buffer cell names the ship placed last among those it touches.
    pub open spec fn named_ok(self) -> bool {
        forall|p: Point| #[trigger]
            self.in_bounds(p) ==> (self.cell(p).content matches CellContent::NearShip(s) ==> {
                &&& exists|q: Point|
                    self.in_bounds(q) && #[trigger] p.touches(q) && self.cell(q).content
                        == CellContent::Ship(s)
                &&& forall|q: Point|
                    self.in_bounds(q) && #[trigger] p.touches(q) && self.cell(q).content is Ship
                        ==> self.cell(q).content->Ship_0 <= s
            })
    }

    /// `other` has the same grid as this board but for what is revealed.
    pub open spec fn same_contents(self, other: BoardView) -> bool {
        &&& other.cells.len() == self.cells.len()
        &&& forall|x: int|
            0 <= x < self.cells.len() ==> (#[trigger] other.cells[x]).len() == self.cells[x].len()
        &&& forall|x: int, y: int|
            0 <= x < self.cells.len() && 0 <= y < self.cells[x].len() ==> (
            #[trigger] other.cells[x][y]).content == self.cells[x][y].content
    }

    /// No ship has more unrevealed cells than hits left to take.
    pub open spec fn lengths_ok(self) -> bool {
        forall|s: int|
            0 <= s < self.ships.len() ==> {
                &&& (#[trigger] self.afloat_cells(s)).finite()
                &&& self.afloat_cells(s).len() <= self.ships[s].length
            }
    }

    /// No counter shows fewer ships than are afloat in its class, nor more than it started with.
    pub open spec fn counters_ok(self) -> bool {
        forall|c: int|
            0 <= c < self.counters.len() ==> {
                &&& (#[trigger] self.afloat_ships(c)).finite()
                &&& self.afloat_ships(c).len() <= self.counters[c].remaining
                &&& self.counters[c].remaining <= self.counters[c].total
            }
    }

    /// Every counter shows exactly the ships afloat in its class. It holds of
    /// a board whose classes all got the ships they were defined with.
    pub open spec fn balanced(self) -> bool {
        forall|c: int|
            0 <= c < self.counters.len() ==> (#[trigger] self.afloat_ships(c)).len()
                == self.counters[c].remaining
    }

    /// Whether every ship has sunk.
    pub open spec fn all_sunk(self) -> bool {
        forall|s: int| 0 <= s < self.ships.len() ==> (#[trigger] self.ships[s]).length == 0
    }

    /// The invariant of every board.
    pub open spec fn wf(self) -> bool {
        &&& self.grid_ok()
        &&& self.refs_ok()
        &&& self.ships_ok()
        &&& self.buffered()
        &&& self.named_ok()
        &&& self.lengths_ok()
        &&& self.counters_ok()
    }

    // ----- hit resolution -----

    /// The board with every cell of `points` revealed.
    pub open spec fn exposing(self, points: Seq<Point>) -> BoardView {
        BoardView { cells: reveal_cells(self.cells, points), ..self }
    }

    /// The board after ship `s` has been recorded as sunk: its counter goes
    /// down by one and its nearby cells are revealed.
    pub open spec fn sunk(self, s: int) -> BoardView {
        let c = self.ships[s].counter as int;
        BoardView {
            counters: self.counters.update(c, self.counters[c].decreased()),
            ..self.exposing(self.ships[s].nearby_cells)
        }
    }

    /// The board after one hit has reached ship `s`.
    pub open spec fn struck(self, s: int) -> BoardView {
        let after = BoardView { ships: self.ships.update(s, self.ships[s].struck()), ..self };
        if self.ships[s].length == 1 {
            after.sunk(s)
        } else {
            after
        }
    }

    /// What `hit` answers.
    pub open spec fn hit_outcome(self, p: Point) -> Result<HitDisplayDiff, HitError> {
        if !self.in_bounds(p) {
            Err(HitError::OutOfBounds)
        } else if self.cell(p).exposed {
            Err(HitError::AlreadyHit)
        } else {
            Ok(
                HitDisplayDiff {
                    cell: p,
                    sank_ship: match self.cell(p).content {
                        CellContent::Ship(s) => if self.ships[s as int].length == 1 {
                            Some(s)
                        } else {
                            None
                        },
                        _ => None,
                    },
                },
            )
        }
    }

    /// The board after `hit`: unchanged when the hit is refused.
    pub open spec fn hit(self, p: Point) -> BoardView {
        if self.hit_outcome(p) is Err {
            self
        } else {
            let opened = self.exposing(seq![p]);
            match self.cell(p).content {
                CellContent::Ship(s) => opened.struck(s as int),
                _ => opened,
            }
        }
    }

    /// The board after the hits of `points`, in order.
    pub open spec fn hit_all(self, points: Seq<Point>) -> BoardView
        decreases points.len(),
    {
        if points.len() == 0 {
            self
        } else {
            self.hit_all(points.drop_last()).hit(points.last())
        }
    }

    /// Whether every ship of every class has sunk.
    pub open spec fn is_win(self) -> bool {
        forall|c: int| 0 <= c < self.counters.len() ==> (#[trigger] self.counters[c]).remaining == 0
    }

    // ----- placement -----

    /// The `k`-th cell that a scan around `points` looks at: for each point in
    /// order, the 3x3 block around it, column by column.
    pub open spec fn candidate(points: Seq<Point>, k: int) -> (int, int) {
        let p = points[k / 9];
        (p.x + (k % 9) / 3 - 1, p.y + (k % 9) % 3 - 1)
    }

    /// Whether the scan keeps the cell `(x, y)` after having kept `kept`.
    pub open spec fn keeps(self, points: Seq<Point>, kept: Seq<Point>, x: int, y: int) -> bool {
        &&& 0 <= x < self.width()
        &&& 0 <= y < self.height()
        &&& !points.contains(point_at(x, y))
        &&& !kept.contains(point_at(x, y))
    }

    /// The cells kept by the first `k` steps of the scan.
    pub open spec fn halo_prefix(self, points: Seq<Point>, k: nat) -> Seq<Point>
        decreases k,
    {
        if k == 0 {
            Seq::empty()
        } else {
            let kept = self.halo_prefix(points, (k - 1) as nat);
            let (x, y) = Self::candidate(points, k - 1);
            if self.keeps(points, kept, x, y) {
                kept.push(point_at(x, y))
            } else {
                kept
            }
        }
    }

    /// The cells on the grid that touch a cell of `points` without being one,
    /// each once, in the order in which the scan meets them.
    pub open spec fn halo(self, points: Seq<Point>) -> Seq<Point> {
        self.halo_prefix(points, 9 * points.len())
    }

    /// The board after a ship of class `counter` has been placed on `points`.
    pub open spec fn placed(self, points: Seq<Point>, counter: nat) -> BoardView {
        let near = self.halo(points);
        BoardView {
            ships: self.ships.push(ShipView { length: points.len(), nearby_cells: near, counter }),
            counters: self.counters,
            cells: mark_cells(self.cells, points, near, self.ships.len() as usize),
        }
    }

    /// The first point from index `i` on whose cell is not open water.
    pub open spec fn first_blocked(self, points: Seq<Point>, i: int) -> Option<Point>
        decreases points.len() - i,
    {
        if i < 0 || i >= points.len() {
            None
        } else if self.cell(points[i]).content != CellContent::Water {
            Some(points[i])
        } else {
            self.first_blocked(points, i + 1)
        }
    }

    /// Whether every point of `points` is on the grid.
    pub open spec fn all_in_bounds(self, points: Seq<Point>) -> bool {
        forall|i: int| 0 <= i < points.len() ==> self.in_bounds(#[trigger] points[i])
    }
}

} // verus!
