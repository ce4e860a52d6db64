//! Building a board: an empty grid, ship classes, and ships placed by hand
//! or at random.

use vstd::prelude::*;
use crate::game::board::{grid_view, Board};
use crate::game::cell::{CellContent, CellState};
use crate::game::fleet::{Ship, ShipDefinition};
use crate::game::model::{fits_points, on_grid, paint_cells, point_at, BoardView};
use crate::game::placement::{
    fleet_size, lemma_first_blocked, lemma_grows_chain, lemma_grows_keeps_class, lemma_halo,
    lemma_halo_same_size, lemma_placed_grows, lemma_placed_keeps_wf, lemma_settled_is_balanced,
    lemma_with_class_grows, lemma_with_class_keeps_wf, line, line_fits, BuilderView,
    PlacementExhausted, ShipAddError,
};
use crate::game::point::Point;
use crate::random::{random_range, random_ratio};

verus! {

/// How often one ship is placed at random before the build gives up.
pub const PLACEMENT_ATTEMPTS: u16 = 1000;

/// A grid of `width` columns and `height` rows of unrevealed open water.
pub open spec fn empty_grid(width: nat, height: nat) -> Seq<Seq<CellState>> {
    Seq::new(
        width,
        |x: int|
            Seq::new(height, |y: int| CellState { content: CellContent::Water, exposed: false }),
    )
}

/// The largest start from which a ship of `length` cells stays on a grid of
/// the given bounds; `(0, 0)` on the axis on which none does.
pub open spec fn start_limit(bounds: Point, horizontal: bool, length: u8) -> Point {
    let (dx, dy) = if horizontal {
        (length as int, 1int)
    } else {
        (1int, length as int)
    };
    Point {
        x: if bounds.x >= dx {
            (bounds.x - dx) as u8
        } else {
            0
        },
        y: if bounds.y >= dy {
            (bounds.y - dy) as u8
        } else {
            0
        },
    }
}

impl BuilderView {
    /// Why a ship of class `counter` cannot be placed on the straight run of
    /// `length` cells from `start`, if it cannot: a run that leaves the
    /// range of coordinates is `OutOfBounds`; any other is judged as
    /// [`BuilderView::rejection`] judges its cells.
    pub open spec fn line_rejection(
        self,
        length: u8,
        counter: int,
        horizontal: bool,
        start: Point,
    ) -> Option<ShipAddError> {
        if !line_fits(start, horizontal, length as nat) {
            Some(ShipAddError::OutOfBounds)
        } else {
            self.rejection(line(start, horizontal, length as nat), counter)
        }
    }

    /// Whether `start` is a start that a random placement of a ship of
    /// `length` cells may draw for the given orientation.
    pub open spec fn may_draw(self, length: u8, horizontal: bool, start: Point) -> bool {
        &&& start.x <= start_limit(self.bounds, horizontal, length).x
        &&& start.y <= start_limit(self.bounds, horizontal, length).y
    }

    /// Whether some run that a random placement of a ship of `length` cells
    /// of class `counter` may draw is refused. Where none is, the first
    /// draw is taken and the placement cannot fail.
    pub open spec fn may_refuse(self, length: u8, counter: int) -> bool {
        exists|horizontal: bool, start: Point|
            self.may_draw(length, horizontal, start) && #[trigger] self.line_rejection(
                length,
                counter,
                horizontal,
                start,
            ) is Some
    }

    /// Whether `met` is what random placement of `fleet` from this builder
    /// may stand at when a ship of the class `fleet[i]` is due, with a
    /// run among those that may be drawn for that ship that `met` refuses:
    /// the classes up to `fleet[i]` are added, the ships of the earlier
    /// classes and some but not all of this class are in place, and what was
    /// on the board before is still there.
    pub open spec fn may_stall(self, fleet: Seq<ShipDefinition>, i: int, met: BuilderView) -> bool {
        let class = self.board.counters.len() + i;
        let first = (self.board.ships.len() + fleet_size(fleet, i)) as int;
        &&& 0 <= i < fleet.len()
        &&& met.wf()
        &&& met.bounds == self.bounds
        &&& self.board.grows_to(met.board)
        &&& met.board.counters == self.board.counters + Seq::new(
            (i + 1) as nat,
            |k: int| fleet[k].counter_view(),
        )
        &&& first <= met.board.ships.len() < first + fleet[i].count_view()
        &&& met.board.class_placed(fleet[i], class, first, met.board.ships.len() - first)
        &&& forall|k: int|
            0 <= k < i ==> met.board.class_placed(
                #[trigger] fleet[k],
                self.board.counters.len() + k,
                (self.board.ships.len() + fleet_size(fleet, k)) as int,
                fleet[k].count_view() as int,
            )
        &&& met.may_refuse(fleet[i].length_view() as u8, class)
    }

    /// A builder with an empty grid of the given bounds and no class.
    pub open spec fn empty(bounds: Point) -> BuilderView {
        BuilderView {
            bounds,
            board: BoardView {
                ships: Seq::empty(),
                counters: Seq::empty(),
                cells: empty_grid(bounds.x as nat, bounds.y as nat),
            },
            open: Seq::empty(),
        }
    }
}

/// An empty builder is well formed.
pub proof fn lemma_empty_wf(bounds: Point)
    ensures
        BuilderView::empty(bounds).wf(),
{
    let b = BuilderView::empty(bounds).board;
    assert forall|c: int| b.afloat_ships(c) =~= Set::<int>::empty() by {}
    assert forall|s: int| b.afloat_cells(s) =~= Set::<Point>::empty() by {}
    assert(b.wf());
}

/// Whether `points` holds `q`.
fn contains_point(points: &Vec<Point>, q: Point) -> (r: bool)
    ensures
        r == points@.contains(q),
{
    let n = points.len();
    let mut i: usize = 0;
    while i < n
        invariant
            i <= n,
            n == points@.len(),
            forall|j: int| 0 <= j < i ==> points@[j] != q,
        decreases n - i,
    {
        let p = points[i];
        if p.x == q.x && p.y == q.y {
            return true;
        }
        i = i + 1;
    }
    false
}

/// Puts `content` into the cells of `points` in the grid `state`.
fn paint(state: &mut Vec<Vec<CellState>>, points: &Vec<Point>, content: CellContent)
    requires
        fits_points(grid_view(old(state)@)),
        forall|i: int| 0 <= i < points@.len() ==> on_grid(grid_view(old(state)@), #[trigger] points@[i]),
    ensures
        grid_view(final(state)@) == paint_cells(grid_view(old(state)@), points@, content),
{
    let ghost before = grid_view(state@);
    let n = points.len();
    let mut i: usize = 0;
    assert(grid_view(state@) =~~= paint_cells(before, points@.take(0), content));
    while i < n
        invariant
            i <= n,
            n == points@.len(),
            fits_points(before),
            forall|j: int| 0 <= j < points@.len() ==> on_grid(before, #[trigger] points@[j]),
            grid_view(state@) == paint_cells(before, points@.take(i as int), content),
        decreases n - i,
    {
        let q = points[i];
        assert(on_grid(before, points@[i as int]));
        assert(grid_view(state@).len() == before.len());
        assert(grid_view(state@)[q.x as int].len() == before[q.x as int].len());
        let ghost prior = state@;
        state[q.x as usize][q.y as usize].content = content;
        proof {
            assert(state@.len() == prior.len());
            assert(forall|x: int| 0 <= x < prior.len() && x != q.x ==> state@[x] == prior[x]);
            assert(state@[q.x as int]@ == prior[q.x as int]@.update(
                q.y as int,
                prior[q.x as int]@[q.y as int].holding(content),
            ));
            let done = points@.take(i as int);
            let next = points@.take(i + 1);
            assert(next =~= done.push(q));
            assert forall|p: Point| next.contains(p) <==> (done.contains(p) || p == q) by {
                if done.contains(p) {
                    let k = choose|k: int| 0 <= k < done.len() && done[k] == p;
                    assert(next[k] == p);
                }
                if p == q {
                    assert(next[i as int] == q);
                }
                if next.contains(p) {
                    let k = choose|k: int| 0 <= k < next.len() && next[k] == p;
                    if k < i {
                        assert(done[k] == p);
                    }
                }
            }
            assert(point_at(q.x as int, q.y as int) == q);
            assert forall|x: int| 0 <= x < before.len() implies #[trigger] grid_view(state@)[x]
                =~= paint_cells(before, next, content)[x] by {
                assert(grid_view(prior)[x].len() == paint_cells(before, done, content)[x].len());
                assert forall|y: int| 0 <= y < before[x].len() implies grid_view(state@)[x][y]
                    == paint_cells(before, next, content)[x][y] by {
                    let p = point_at(x, y);
                    assert(p.x == x && p.y == y);
                    assert(grid_view(prior)[x][y] == paint_cells(before, done, content)[x][y]);
                    if p == q {
                    } else {
                        assert(x != q.x || y != q.y);
                    }
                }
            }
            assert(grid_view(state@) =~= paint_cells(before, next, content));
        }
        i = i + 1;
    }
    assert(points@.take(n as int) =~= points@);
}

/// Builds a [`Board`]: start from an empty grid, add ship classes, place
/// their ships.
#[derive(Debug)]
pub struct BoardBuilder {
    bounds: Point,
    inner: Board,
    open: Vec<u8>,
}

impl View for BoardBuilder {
    type V = BuilderView;

    closed spec fn view(&self) -> BuilderView {
        BuilderView {
            bounds: self.bounds,
            board: self.inner@,
            open: Seq::new(self.open@.len(), |i: int| self.open@[i] as nat),
        }
    }
}

impl BoardBuilder {
    /// The invariant of every builder; see [`BuilderView::wf`].
    pub open spec fn wf(&self) -> bool {
        self@.wf()
    }

    /// A builder for a grid of `bounds.x` columns and `bounds.y` rows, all
    /// unrevealed open water.
    pub fn new(bounds: Point) -> (r: Self)
        ensures
            r.wf(),
            r@ == BuilderView::empty(bounds),
    {
        let mut state: Vec<Vec<CellState>> = Vec::new();
        let mut x: u8 = 0;
        while x < bounds.x
            invariant
                x <= bounds.x,
                state@.len() == x,
                forall|i: int| 0 <= i < x ==> (#[trigger] state@[i])@ == empty_grid(
                    bounds.x as nat,
                    bounds.y as nat,
                )[i],
            decreases bounds.x - x,
        {
            let mut column: Vec<CellState> = Vec::new();
            let mut y: u8 = 0;
            while y < bounds.y
                invariant
                    y <= bounds.y,
                    column@.len() == y,
                    forall|j: int|
                        0 <= j < y ==> #[trigger] column@[j] == (CellState {
                            content: CellContent::Water,
                            exposed: false,
                        }),
                decreases bounds.y - y,
            {
                column.push(CellState::default());
                y = y + 1;
            }
            assert(column@ =~= empty_grid(bounds.x as nat, bounds.y as nat)[x as int]);
            state.push(column);
            x = x + 1;
        }
        let r = Self {
            bounds,
            inner: Board { ship_counters: Vec::new(), ships: Vec::new(), state },
            open: Vec::new(),
        };
        proof {
            lemma_empty_wf(bounds);
            r.inner.view_def();
            assert(r@.board.cells =~= BuilderView::empty(bounds).board.cells);
            assert(r@.board.ships =~= BuilderView::empty(bounds).board.ships);
            assert(r@.board.counters =~= BuilderView::empty(bounds).board.counters);
            assert(r@.open =~= BuilderView::empty(bounds).open);
        }
        r
    }

    /// A builder for a grid of `n` by `n` cells.
    pub fn square(n: u8) -> (r: Self)
        ensures
            r.wf(),
            r@ == BuilderView::empty(Point { x: n, y: n }),
    {
        Self::new(Point { x: n, y: n })
    }

    /// Width and height of the grid.
    pub fn bounds(&self) -> (r: Point)
        ensures
            r == self@.bounds,
    {
        self.bounds
    }

    /// Adds the class that `definition` describes, with all its ships still
    /// to be placed. Returns the index of the class counter.
    pub fn add_counter(&mut self, definition: &ShipDefinition) -> (counter: usize)
        requires
            old(self).wf(),
        ensures
            final(self).wf(),
            counter == old(self)@.board.counters.len(),
            final(self)@ == old(self)@.with_class(definition.counter_view()),
    {
        let counter = self.inner.ship_counters.len();
        self.inner.ship_counters.push(definition.clone().to_counter());
        self.open.push(definition.count());
        proof {
            let after = old(self)@.with_class(definition.counter_view());
            old(self).inner.view_def();
            self.inner.view_def();
            lemma_with_class_keeps_wf(old(self)@, definition.counter_view());
            assert(self@.board.counters =~= after.board.counters);
            assert(self@.open =~= after.open);
            assert(self@.board.ships =~= after.board.ships);
        }
        counter
    }

    /// Collects the cells around `points` that the new ship will reserve,
    /// refusing the ship if one of them already holds a ship. On a
    /// well-formed board whose target cells are all open water that cannot
    /// happen, so the scan always succeeds here.
    fn scan_halo(&self, points: &Vec<Point>) -> (r: Result<Vec<Point>, ShipAddError>)
        requires
            self.wf(),
            self@.board.all_in_bounds(points@),
            self@.board.first_blocked(points@, 0) is None,
        ensures
            r is Ok,
            r->Ok_0@ == self@.board.halo(points@),
    {
        let ghost b = self@.board;
        let n = points.len();
        let mut near: Vec<Point> = Vec::new();
        let mut i: usize = 0;
        proof {
            self.inner.view_def();
            lemma_first_blocked(b, points@, 0);
        }
        while i < n
            invariant
                i <= n,
                n == points@.len(),
                self.wf(),
                b == self@.board,
                b.all_in_bounds(points@),
                forall|j: int|
                    0 <= j < points@.len() ==> b.cell(#[trigger] points@[j]).content
                        == CellContent::Water,
                near@ == b.halo_prefix(points@, (9 * i) as nat),
            decreases n - i,
        {
            let p = points[i];
            let mut a: u8 = 0;
            while a < 3
                invariant
                    a <= 3,
                    i < n,
                    n == points@.len(),
                    p == points@[i as int],
                    self.wf(),
                    b == self@.board,
                    b.all_in_bounds(points@),
                    forall|j: int|
                        0 <= j < points@.len() ==> b.cell(#[trigger] points@[j]).content
                            == CellContent::Water,
                    near@ == b.halo_prefix(points@, (9 * i + 3 * a) as nat),
                decreases 3 - a,
            {
                let mut c: u8 = 0;
                while c < 3
                    invariant
                        c <= 3,
                        a < 3,
                        i < n,
                        n == points@.len(),
                        p == points@[i as int],
                        self.wf(),
                        b == self@.board,
                        b.all_in_bounds(points@),
                        forall|j: int|
                            0 <= j < points@.len() ==> b.cell(#[trigger] points@[j]).content
                                == CellContent::Water,
                        near@ == b.halo_prefix(points@, (9 * i + 3 * a + c) as nat),
                    decreases 3 - c,
                {
                    let ghost k = 9 * i + 3 * a + c;
                    let ghost x = p.x + a - 1;
                    let ghost y = p.y + c - 1;
                    proof {
                        assert(k / 9 == i && k % 9 == 3 * a + c);
                        assert((3 * a + c) / 3 == a as int && (3 * a + c) % 3 == c as int);
                        assert(BoardView::candidate(points@, k) == (x, y));
                        assert(b.halo_prefix(points@, (k + 1) as nat) == (if b.keeps(
                            points@,
                            near@,
                            x,
                            y,
                        ) {
                            near@.push(point_at(x, y))
                        } else {
                            near@
                        }));
                    }
                    match p.try_add_delta(a as isize - 1, c as isize - 1) {
                        None => {},
                        Some(adjacent) => {
                            assert(adjacent == point_at(x, y));
                            if !contains_point(points, adjacent) && !contains_point(&near, adjacent) {
                                match self.inner.get_cell(adjacent) {
                                    None => {
                                        assert(!b.in_bounds(adjacent));
                                        assert(!b.keeps(points@, near@, x, y)) by {
                                            if 0 <= x < b.width() {
                                                assert(b.cells[x].len() == b.height());
                                            }
                                        }
                                    },
                                    Some(cell) => {
                                        assert(b.in_bounds(adjacent));
                                        assert(b.keeps(points@, near@, x, y)) by {
                                            assert(b.cells[x].len() == b.height());
                                        }
                                        if cell.contains_ship() {
                                            proof {
                                                assert(b.in_bounds(p));
                                                assert(b.cell(p).content == CellContent::Water);
                                                assert(adjacent.touches(p));
                                            }
                                            return Err(ShipAddError::Collision { point: adjacent });
                                        }
                                        near.push(adjacent);
                                    },
                                }
                            }
                        },
                    }
                    c = c + 1;
                }
                a = a + 1;
            }
            i = i + 1;
        }
        Ok(near)
    }

    /// Places one ship of class `counter` on the cells of `points`.
    ///
    /// The request is an `InternalError` if `points` is empty, if there is no
    /// class `counter`, or if the class already has all its ships. It is
    /// `OutOfBounds` if a point is off the grid, and a `Collision` at the
    /// first point whose cell holds a ship or lies next to one. Nothing
    /// changes when the ship is refused.
    ///
    /// Otherwise a ship as long as `points` is added. It takes the cells of
    /// `points`, and the cells around them that are on the grid become its
    /// buffer: they are what the ship reveals when it sinks. A point given
    /// twice counts twice towards the length but is one cell, so a ship
    /// placed on such a list can never be sunk.
    #[verifier::loop_isolation(false)]
    pub fn add_ship_instance(&mut self, counter: usize, points: Vec<Point>) -> (r: Result<
        (),
        ShipAddError,
    >)
        requires
            old(self).wf(),
        ensures
            final(self).wf(),
            match old(self)@.rejection(points@, counter as int) {
                Some(e) => r == Err::<(), ShipAddError>(e) && final(self)@ == old(self)@,
                None => r is Ok && final(self)@ == old(self)@.placed(points@, counter as int),
            },
    {
        let ghost before = self@;
        let ghost b = self@.board;
        if points.is_empty() || counter >= self.open.len() || self.open[counter] == 0 {
            return Err(ShipAddError::InternalError);
        }
        assert(before.has_room(counter as int));
        let n = points.len();
        let mut i: usize = 0;
        while i < n
            invariant
                i <= n,
                n == points@.len(),
                *self == *old(self),
                b == self@.board,
                forall|j: int| 0 <= j < i ==> b.in_bounds(#[trigger] points@[j]),
            decreases n - i,
        {
            if self.inner.get_cell(points[i]).is_none() {
                assert(!b.in_bounds(points@[i as int]));
                return Err(ShipAddError::OutOfBounds);
            }
            i = i + 1;
        }
        assert(b.all_in_bounds(points@));
        i = 0;
        while i < n
            invariant
                i <= n,
                n == points@.len(),
                *self == *old(self),
                b == self@.board,
                b.all_in_bounds(points@),
                b.first_blocked(points@, 0) == b.first_blocked(points@, i as int),
            decreases n - i,
        {
            let point = points[i];
            assert(b.in_bounds(points@[i as int]));
            let cell = self.inner.get_cell(point).unwrap();
            if cell.content.get_collision().is_some() {
                return Err(ShipAddError::Collision { point });
            }
            i = i + 1;
        }
        assert(b.first_blocked(points@, 0) is None);
        assert(before.rejection(points@, counter as int) is None);
        let near = match self.scan_halo(&points) {
            Ok(near) => near,
            Err(e) => {
                return Err(e);
            },
        };
        let id = self.inner.ships.len();
        proof {
            self.inner.view_def();
            lemma_halo(b, points@);
            assert(fits_points(grid_view(self.inner.state@))) by {
                assert(forall|x: int|
                    0 <= x < b.cells.len() ==> (#[trigger] b.cells[x]).len() == b.height());
            }
            assert forall|j: int| 0 <= j < near@.len() implies on_grid(
                grid_view(self.inner.state@),
                #[trigger] near@[j],
            ) by {
                assert(near@.contains(near@[j]));
            }
        }
        paint(&mut self.inner.state, &near, CellContent::NearShip(id));
        proof {
            assert forall|j: int| 0 <= j < points@.len() implies on_grid(
                grid_view(self.inner.state@),
                #[trigger] points@[j],
            ) by {
                assert(b.in_bounds(points@[j]));
            }
            assert(fits_points(grid_view(self.inner.state@)));
        }
        paint(&mut self.inner.state, &points, CellContent::Ship(id));
        self.inner.ships.push(Ship::new(n, near, counter));
        let placed = self.inner.ships.len();
        let left = self.open[counter] - 1;
        self.open.set(counter, left);
        proof {
            let after = before.placed(points@, counter as int);
            self.inner.view_def();
            assert(placed == id + 1);
            assert(before.board.ships.len() == id);
            lemma_placed_keeps_wf(before, points@, counter as int);
            assert(self@.board.ships =~= after.board.ships);
            assert(self@.board.counters =~= after.board.counters);
            assert(self@.board.cells == after.board.cells);
            assert(self@.open =~= after.open);
        }
        Ok(())
    }

    /// Places one ship of class `counter` on the straight run of `length`
    /// cells that starts at `start` and goes right (`horizontal`) or down.
    pub fn add_ship_at(
        &mut self,
        length: u8,
        counter: usize,
        horizontal: bool,
        start: Point,
    ) -> (r: Result<(), ShipAddError>)
        requires
            old(self).wf(),
        ensures
            final(self).wf(),
            match old(self)@.line_rejection(length, counter as int, horizontal, start) {
                Some(e) => r == Err::<(), ShipAddError>(e) && final(self)@ == old(self)@,
                None => r is Ok && final(self)@ == old(self)@.placed(
                    line(start, horizontal, length as nat),
                    counter as int,
                ),
            },
    {
        let ghost run = line(start, horizontal, length as nat);
        let mut points: Vec<Point> = Vec::new();
        let mut i: u8 = 0;
        while i < length
            invariant
                i <= length,
                *self == *old(self),
                self.wf(),
                points@ == run.take(i as int),
                run == line(start, horizontal, length as nat),
                i == 0 || (if horizontal {
                    start.x
                } else {
                    start.y
                }) + i <= 256,
            decreases length - i,
        {
            let along = if horizontal {
                start.x.checked_add(i)
            } else {
                start.y.checked_add(i)
            };
            let point = match along {
                None => {
                    return Err(ShipAddError::OutOfBounds);
                },
                Some(moved) => if horizontal {
                    Point { x: moved, y: start.y }
                } else {
                    Point { x: start.x, y: moved }
                },
            };
            assert(point == run[i as int]);
            points.push(point);
            assert(points@ =~= run.take(i + 1));
            i = i + 1;
        }
        assert(points@ =~= run);
        self.add_ship_instance(counter, points)
    }

    /// Places one ship of `length` cells of class `counter` at random.
    ///
    /// Each attempt draws an orientation, either with the same chance, and a
    /// start no further out than [`start_limit`], and tries to place the ship
    /// on that run of cells. The first run that is accepted is taken. After
    /// [`PLACEMENT_ATTEMPTS`] refusals the builder is left as it was and the
    /// placement has failed.
    ///
    /// The placement fails only after a draw was refused: where every run
    /// that may be drawn is acceptable, it succeeds; where none is, it fails.
    pub fn add_ship_random(&mut self, length: u8, counter: usize) -> (r: Result<
        (),
        PlacementExhausted,
    >)
        requires
            old(self).wf(),
        ensures
            final(self).wf(),
            match r {
                Ok(_) => exists|horizontal: bool, start: Point|
                    {
                        &&& old(self)@.may_draw(length, horizontal, start)
                        &&& old(self)@.line_rejection(length, counter as int, horizontal, start) is None
                        &&& final(self)@ == old(self)@.placed(
                            #[trigger] line(start, horizontal, length as nat),
                            counter as int,
                        )
                    },
                Err(_) => final(self)@ == old(self)@ && old(self)@.may_refuse(
                    length,
                    counter as int,
                ),
            },
    {
        let mut attempt: u16 = 0;
        while attempt < PLACEMENT_ATTEMPTS
            invariant
                self@ == old(self)@,
                self.wf(),
                attempt > 0 ==> old(self)@.may_refuse(length, counter as int),
            decreases PLACEMENT_ATTEMPTS - attempt,
        {
            let horizontal = random_ratio(1, 2);
            let (dx, dy) = if horizontal {
                (length, 1)
            } else {
                (1, length)
            };
            let limit = Point {
                x: self.bounds.x.saturating_sub(dx),
                y: self.bounds.y.saturating_sub(dy),
            };
            assert(limit == start_limit(self@.bounds, horizontal, length));
            let start_x = random_range(0, limit.x);
            let start_y = random_range(0, limit.y);
            let start = Point { x: start_x, y: start_y };
            match self.add_ship_at(length, counter, horizontal, start) {
                Ok(_) => {
                    return Ok(());
                },
                Err(_) => {
                    assert(old(self)@.may_draw(length, horizontal, start));
                    assert(old(self)@.line_rejection(length, counter as int, horizontal, start)
                        is Some);
                },
            }
            attempt = attempt + 1;
        }
        Err(PlacementExhausted)
    }

    /// Adds the classes of `ships` in order and places every ship of each at
    /// random. Returns the finished board, or the failure of the first ship
    /// that could not be placed.
    ///
    /// On success each definition has its counter, which starts full, and as
    /// many straight ships of its length as it asks for, in the order of the
    /// definitions. What was on the board before is still there, and no cell
    /// has been revealed. If no class lacked a ship before, none does now:
    /// the board is balanced, and the game on it is won when all ships sank.
    ///
    /// The build fails only where a ship of the fleet was due on a board that
    /// refuses a run that may be drawn for it. A fleet without ships is
    /// always built.
    pub fn random(self, ships: &[ShipDefinition]) -> (r: Result<Board, PlacementExhausted>)
        requires
            self.wf(),
        ensures
            match r {
                Ok(board) => {
                    &&& board.wf()
                    &&& self@.board.grows_to(board@)
                    &&& board@.counters == self@.board.counters + Seq::new(
                        ships@.len(),
                        |i: int| ships@[i].counter_view(),
                    )
                    &&& board@.ships.len() == self@.board.ships.len() + fleet_size(
                        ships@,
                        ships@.len() as int,
                    )
                    &&& forall|i: int|
                        0 <= i < ships@.len() ==> board@.class_placed(
                            #[trigger] ships@[i],
                            self@.board.counters.len() + i,
                            (self@.board.ships.len() + fleet_size(ships@, i)) as int,
                            ships@[i].count_view() as int,
                        )
                    &&& self@.settled() ==> board@.balanced()
                },
                Err(_) => exists|i: int, met: BuilderView| #[trigger]
                    self@.may_stall(ships@, i, met),
            },
    {
        let ghost origin = self@;
        let ghost start = self@.board;
        let ghost calm = self@.settled();
        let mut builder = self;
        let n = ships.len();
        let mut i: usize = 0;
        assert(builder@.board.counters =~= start.counters + Seq::new(
            0,
            |k: int| ships@[k].counter_view(),
        ));
        while i < n
            invariant
                i <= n,
                n == ships@.len(),
                builder.wf(),
                origin == self@,
                builder@.bounds == origin.bounds,
                start == origin.board,
                calm ==> builder@.settled(),
                start.ships.len() <= usize::MAX,
                start.grows_to(builder@.board),
                builder@.board.counters == start.counters + Seq::new(
                    i as nat,
                    |k: int| ships@[k].counter_view(),
                ),
                builder@.board.ships.len() == start.ships.len() + fleet_size(ships@, i as int),
                forall|k: int|
                    0 <= k < i ==> builder@.board.class_placed(
                        #[trigger] ships@[k],
                        start.counters.len() + k,
                        (start.ships.len() + fleet_size(ships@, k)) as int,
                        ships@[k].count_view() as int,
                    ),
            decreases n - i,
        {
            let definition = &ships[i];
            let ghost before_class = builder@;
            let counter = builder.add_counter(definition);
            let ghost base: int = (start.ships.len() + fleet_size(ships@, i as int)) as int;
            proof {
                lemma_with_class_grows(before_class, definition.counter_view());
                lemma_grows_chain(start, before_class.board, builder@.board);
                assert(builder@.board.counters =~= start.counters + Seq::new(
                    (i + 1) as nat,
                    |k: int| ships@[k].counter_view(),
                ));
                assert forall|k: int| 0 <= k < i implies builder@.board.class_placed(
                    #[trigger] ships@[k],
                    start.counters.len() + k,
                    (start.ships.len() + fleet_size(ships@, k)) as int,
                    ships@[k].count_view() as int,
                ) by {
                    lemma_grows_keeps_class(
                        before_class.board,
                        builder@.board,
                        ships@[k],
                        start.counters.len() + k,
                        (start.ships.len() + fleet_size(ships@, k)) as int,
                        ships@[k].count_view() as int,
                    );
                }
            }
            let count = definition.count();
            let length = definition.length();
            let mut j: u8 = 0;
            while j < count
                invariant
                    j <= count,
                    i < n,
                    n == ships@.len(),
                    *definition == ships@[i as int],
                    count == definition.count_view(),
                    length == definition.length_view(),
                    counter == start.counters.len() + i,
                    base == start.ships.len() + fleet_size(ships@, i as int),
                    builder.wf(),
                    origin == self@,
                    builder@.bounds == origin.bounds,
                    start == origin.board,
                    counter < builder@.open.len(),
                    builder@.open[counter as int] == count - j,
                    calm ==> forall|c: int|
                        0 <= c < builder@.open.len() && c != counter ==> #[trigger] builder@.open[c]
                            == 0,
                    start.ships.len() <= usize::MAX,
                    start.grows_to(builder@.board),
                    builder@.board.counters == start.counters + Seq::new(
                        (i + 1) as nat,
                        |k: int| ships@[k].counter_view(),
                    ),
                    builder@.board.ships.len() == base + j,
                    builder@.board.class_placed(*definition, counter as int, base, j as int),
                    forall|k: int|
                        0 <= k < i ==> builder@.board.class_placed(
                            #[trigger] ships@[k],
                            start.counters.len() + k,
                            (start.ships.len() + fleet_size(ships@, k)) as int,
                            ships@[k].count_view() as int,
                        ),
                decreases count - j,
            {
                let ghost prev = builder@;
                match builder.add_ship_random(length, counter) {
                    Err(e) => {
                        assert(origin.may_stall(ships@, i as int, prev));
                        return Err(e);
                    },
                    Ok(_) => {},
                }
                proof {
                    let now = builder@.board;
                    let (horizontal, from) = choose|horizontal: bool, from: Point|
                        {
                            &&& prev.may_draw(length, horizontal, from)
                            &&& prev.line_rejection(length, counter as int, horizontal, from) is None
                            &&& builder@ == prev.placed(
                                #[trigger] line(from, horizontal, length as nat),
                                counter as int,
                            )
                        };
                    let run = line(from, horizontal, length as nat);
                    let id = prev.board.ships.len() as int;
                    assert(now.ships.len() == id + 1);
                    assert(now.ships.len() <= usize::MAX);
                    lemma_placed_grows(prev, run, counter as int);
                    lemma_grows_chain(start, prev.board, now);
                    assert(now.ships[id].length == length);
                    assert(now.is_straight(id)) by {
                        assert(now.width() == prev.board.width());
                        assert(now.height() == prev.board.height()) by {
                            if now.cells.len() > 0 {
                                assert(now.cells[0].len() == prev.board.cells[0].len());
                            }
                        }
                        lemma_halo_same_size(prev.board, now, run, 9 * run.len());
                        assert(now.runs_from(id, from, horizontal));
                    }
                    lemma_grows_keeps_class(
                        prev.board,
                        now,
                        *definition,
                        counter as int,
                        base,
                        j as int,
                    );
                    assert(now.class_placed(*definition, counter as int, base, j + 1));
                    assert forall|k: int| 0 <= k < i implies now.class_placed(
                        #[trigger] ships@[k],
                        start.counters.len() + k,
                        (start.ships.len() + fleet_size(ships@, k)) as int,
                        ships@[k].count_view() as int,
                    ) by {
                        lemma_grows_keeps_class(
                            prev.board,
                            now,
                            ships@[k],
                            start.counters.len() + k,
                            (start.ships.len() + fleet_size(ships@, k)) as int,
                            ships@[k].count_view() as int,
                        );
                    }
                }
                j = j + 1;
            }
            i = i + 1;
        }
        Ok(builder.build())
    }

    /// Finishes the build. A class that lacks ships keeps its counter as it
    /// is, so that a game on the board cannot be won; a builder whose classes
    /// all have their ships gives a balanced board.
    pub fn build(self) -> (board: Board)
        requires
            self.wf(),
        ensures
            board.wf(),
            board@ == self@.board,
            self@.settled() ==> board@.balanced(),
    {
        proof {
            if self@.settled() {
                lemma_settled_is_balanced(self@);
            }
        }
        self.inner
    }
}

} // verus!
