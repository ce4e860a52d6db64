//! The board: the grid, the ships on it and the counters that score them.

use vstd::prelude::*;
use crate::game::cell::CellState;
use crate::game::fleet::{Ship, ShipCounter, ShipCounterView, ShipView};
use crate::game::laws::lemma_hit_keeps_wf;
use crate::game::model::{
    fits_points, on_grid, point_at, reveal_cells, BoardView, HitDisplayDiff, HitError,
};
use crate::game::point::Point;

verus! {

impl HitDisplayDiff {
    /// The diff of a hit that sank nothing.
    pub fn single_cell(cell: Point) -> (r: Self)
        ensures
            r == (HitDisplayDiff { cell, sank_ship: None }),
    {
        Self { cell, sank_ship: None }
    }

    /// The diff of a hit that sank `ship`.
    pub fn sank_ship(cell: Point, ship: usize) -> (r: Self)
        ensures
            r == (HitDisplayDiff { cell, sank_ship: Some(ship) }),
    {
        Self { cell, sank_ship: Some(ship) }
    }
}

/// The views of a list of ships.
pub open spec fn ship_views(ships: Seq<Ship>) -> Seq<ShipView> {
    Seq::new(ships.len(), |i: int| ships[i]@)
}

/// The views of a list of counters.
pub open spec fn counter_views(counters: Seq<ShipCounter>) -> Seq<ShipCounterView> {
    Seq::new(counters.len(), |i: int| counters[i]@)
}

/// The cells of a grid stored column by column.
pub open spec fn grid_view(state: Seq<Vec<CellState>>) -> Seq<Seq<CellState>> {
    Seq::new(state.len(), |x: int| state[x]@)
}

/// A game board. Its layout is fixed when it is built; play only reveals
/// cells, shortens ships and lowers counters.
#[derive(Debug, Clone)]
pub struct Board {
    pub(crate) ships: Vec<Ship>,
    pub(crate) ship_counters: Vec<ShipCounter>,
    pub(crate) state: Vec<Vec<CellState>>,
}

impl View for Board {
    type V = BoardView;

    closed spec fn view(&self) -> BoardView {
        BoardView {
            ships: ship_views(self.ships@),
            counters: counter_views(self.ship_counters@),
            cells: grid_view(self.state@),
        }
    }
}

impl Board {
    /// Spells out the view in terms of the fields.
    pub(crate) proof fn view_def(&self)
        ensures
            self@ == (BoardView {
                ships: ship_views(self.ships@),
                counters: counter_views(self.ship_counters@),
                cells: grid_view(self.state@),
            }),
    {
    }

    /// The invariant of every board; see [`BoardView::wf`].
    pub open spec fn wf(&self) -> bool {
        self@.wf()
    }

    /// The cell at `point`, or `None` off the grid.
    pub fn get_cell(&self, point: Point) -> (r: Option<CellState>)
        ensures
            r == (if self@.in_bounds(point) {
                Some(self@.cell(point))
            } else {
                None
            }),
    {
        let x = point.x as usize;
        let y = point.y as usize;
        if x < self.state.len() && y < self.state[x].len() {
            Some(self.state[x][y])
        } else {
            None
        }
    }

    /// Number of columns.
    pub fn width(&self) -> (r: usize)
        ensures
            r == self@.width(),
    {
        self.state.len()
    }

    /// Number of rows.
    pub fn height(&self) -> (r: usize)
        ensures
            r == self@.height(),
    {
        if self.state.len() == 0 {
            0
        } else {
            self.state[0].len()
        }
    }

    /// The class counters, in the order in which the classes were defined.
    pub fn counters(&self) -> (r: &Vec<ShipCounter>)
        ensures
            counter_views(r@) == self@.counters,
    {
        &self.ship_counters
    }

    /// The ships, in the order in which they were placed.
    pub fn ships(&self) -> (r: &Vec<Ship>)
        ensures
            ship_views(r@) == self@.ships,
    {
        &self.ships
    }

    /// Records that ship `ship` sank: lowers its class counter and reveals
    /// the cells around it.
    fn register_sink(&mut self, ship: usize)
        requires
            ship < old(self)@.ships.len(),
            old(self)@.ships[ship as int].counter < old(self)@.counters.len(),
            old(self)@.counters[old(self)@.ships[ship as int].counter as int].remaining > 0,
            fits_points(old(self)@.cells),
            forall|i: int|
                0 <= i < old(self)@.ships[ship as int].nearby_cells.len() ==> old(self)@.in_bounds(
                    #[trigger] old(self)@.ships[ship as int].nearby_cells[i],
                ),
        ensures
            final(self)@ == old(self)@.sunk(ship as int),
    {
        let counter = self.ships[ship].counter();
        self.ship_counters[counter].decrease();
        assert(self@.counters =~= old(self)@.counters.update(
            counter as int,
            old(self)@.counters[counter as int].decreased(),
        ));
        assert forall|i: int| 0 <= i < self.ships@[ship as int]@.nearby_cells.len() implies on_grid(
            grid_view(self.state@),
            #[trigger] self.ships@[ship as int]@.nearby_cells[i],
        ) by {
            assert(old(self)@.in_bounds(old(self)@.ships[ship as int].nearby_cells[i]));
        }
        expose_cells(&mut self.state, self.ships[ship].nearby_cells());
    }

    /// Resolves a hit on `point`.
    ///
    /// A point off the grid gives `OutOfBounds`, a cell that was revealed
    /// before gives `AlreadyHit`; the board is untouched in both cases.
    /// Otherwise the cell is revealed. If it holds a ship, the ship loses one
    /// unit of length; the hit that takes the last unit sinks it, which lowers
    /// the counter of its class by one and reveals every cell around it.
    pub fn hit(&mut self, point: Point) -> (r: Result<HitDisplayDiff, HitError>)
        requires
            old(self).wf(),
        ensures
            final(self).wf(),
            r == old(self)@.hit_outcome(point),
            final(self)@ == old(self)@.hit(point),
            old(self)@.balanced() ==> final(self)@.balanced(),
    {
        let cell = match self.get_cell(point) {
            None => {
                return Err(HitError::OutOfBounds);
            },
            Some(cell) => cell,
        };
        if cell.exposed {
            return Err(HitError::AlreadyHit);
        }
        proof {
            lemma_hit_keeps_wf(self@, point);
        }
        let ghost before = self@;
        let ghost opened = before.exposing(seq![point]);
        self.state[point.x as usize][point.y as usize].expose();
        proof {
            assert(point_at(point.x as int, point.y as int) == point);
            assert forall|q: Point| seq![point].contains(q) <==> q == point by {
                assert(seq![point][0] == point);
            }
            assert forall|x: int| 0 <= x < before.cells.len() implies #[trigger] self@.cells[x]
                =~= opened.cells[x] by {
                assert forall|y: int| 0 <= y < before.cells[x].len() implies self@.cells[x][y]
                    == opened.cells[x][y] by {
                    let p = point_at(x, y);
                    assert(before.cells[x].len() == before.height());
                    assert(p.x == x && p.y == y);
                }
            }
            assert(self@.cells =~= opened.cells);
            assert(self@ == opened);
        }
        match cell.content.get_ship() {
            None => Ok(HitDisplayDiff::single_cell(point)),
            Some(ship) => {
                proof {
                    assert(before.in_bounds(point));
                    assert(ship < before.ships.len());
                    assert(before.afloat_cells(ship as int).contains(point));
                    assert(before.afloat_cells(ship as int).finite());
                    assert(before.ships[ship as int].length >= 1);
                    assert(before.ships[ship as int].counter < before.counters.len());
                    let c = before.ships[ship as int].counter as int;
                    assert(before.afloat_ships(c).contains(ship as int));
                    assert(before.afloat_ships(c).finite());
                    assert(before.counters[c].remaining >= 1);
                }
                let sank = self.ships[ship].hit();
                proof {
                    assert(self@.ships =~= opened.ships.update(
                        ship as int,
                        opened.ships[ship as int].struck(),
                    ));
                    assert(forall|x: int|
                        0 <= x < before.cells.len() ==> (#[trigger] before.cells[x]).len()
                            == before.height());
                    assert forall|i: int|
                        0 <= i < self@.ships[ship as int].nearby_cells.len() implies self@.in_bounds(
                        #[trigger] self@.ships[ship as int].nearby_cells[i],
                    ) by {
                        assert(before.in_bounds(before.ships[ship as int].nearby_cells[i]));
                    }
                }
                if sank {
                    self.register_sink(ship);
                    Ok(HitDisplayDiff::sank_ship(point, ship))
                } else {
                    Ok(HitDisplayDiff::single_cell(point))
                }
            },
        }
    }

    /// Whether the game is won: every counter shows no ship left.
    pub fn is_win(&self) -> (win: bool)
        ensures
            win == self@.is_win(),
    {
        let mut win = true;
        let n = self.ship_counters.len();
        let mut i: usize = 0;
        while i < n
            invariant_except_break
                i <= n,
                win,
                forall|c: int| 0 <= c < i ==> (#[trigger] self@.counters[c]).remaining == 0,
            invariant
                n == self.ship_counters@.len(),
            ensures
                win == self@.is_win(),
            decreases n - i,
        {
            let defeated = self.ship_counters[i].is_defeated();
            if !defeated {
                assert(self@.counters[i as int].remaining != 0);
                win = false;
                break;
            }
            i = i + 1;
        }
        win
    }
}

/// Reveals the cells of `points` in the grid `state`.
fn expose_cells(state: &mut Vec<Vec<CellState>>, points: &Vec<Point>)
    requires
        fits_points(grid_view(old(state)@)),
        forall|i: int| 0 <= i < points@.len() ==> on_grid(grid_view(old(state)@), #[trigger] points@[i]),
    ensures
        grid_view(final(state)@) == reveal_cells(grid_view(old(state)@), points@),
{
    let ghost before = grid_view(state@);
    let n = points.len();
    let mut i: usize = 0;
    assert(grid_view(state@) =~~= reveal_cells(before, points@.take(0)));
    while i < n
        invariant
            i <= n,
            n == points@.len(),
            fits_points(before),
            forall|j: int| 0 <= j < points@.len() ==> on_grid(before, #[trigger] points@[j]),
            grid_view(state@) == reveal_cells(before, points@.take(i as int)),
        decreases n - i,
    {
        let q = points[i];
        assert(on_grid(before, points@[i as int]));
        assert(grid_view(state@).len() == before.len());
        assert(grid_view(state@)[q.x as int].len() == before[q.x as int].len());
        let ghost prior = state@;
        state[q.x as usize][q.y as usize].expose();
        proof {
            assert(state@.len() == prior.len());
            assert(forall|x: int| 0 <= x < prior.len() && x != q.x ==> state@[x] == prior[x]);
            assert(state@[q.x as int]@ == prior[q.x as int]@.update(
                q.y as int,
                prior[q.x as int]@[q.y as int].revealed(),
            ));
            let done = points@.take(i as int);
            let next = points@.take(i + 1);
            assert(next =~= done.push(q));
            assert forall|p: Point| next.contains(p) <==> (done.contains(p) || p == q) by {
                if done.contains(p) {
                    let k = choose|k: int| 0 <= k < done.len() && done[k] == p;
                    assert(next[k] == p);
                }
                if p == q {
                    assert(next[i as int] == q);
                }
                if next.contains(p) {
                    let k = choose|k: int| 0 <= k < next.len() && next[k] == p;
                    if k < i {
                        assert(done[k] == p);
                    }
                }
            }
            assert(point_at(q.x as int, q.y as int) == q);
            assert forall|x: int, y: int|
                0 <= x < before.len() && 0 <= y < before[x].len() implies #[trigger] grid_view(
                state@,
            )[x][y] == reveal_cells(before, next)[x][y] by {
                let p = point_at(x, y);
                assert(p.x == x && p.y == y);
                assert(grid_view(prior)[x][y] == reveal_cells(before, done)[x][y]);
                if p == q {
                } else {
                    assert(x != q.x || y != q.y);
                }
            }
            assert forall|x: int| 0 <= x < before.len() implies #[trigger] grid_view(state@)[x]
                =~= reveal_cells(before, next)[x] by {
                assert(grid_view(prior)[x].len() == reveal_cells(before, done)[x].len());
                assert forall|y: int| 0 <= y < before[x].len() implies grid_view(state@)[x][y]
                    == reveal_cells(before, next)[x][y] by {
                    assert(grid_view(state@)[x][y] == reveal_cells(before, next)[x][y]);
                }
            }
            assert(grid_view(state@) =~= reveal_cells(before, next));
        }
        i = i + 1;
    }
    assert(points@.take(n as int) =~= points@);
}

} // verus!
