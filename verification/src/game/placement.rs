//! The rules of placing a ship, and why a placement keeps the board well formed.

use vstd::prelude::*;
use vstd::set_lib::lemma_len_subset;
use crate::game::cell::CellContent;
use crate::game::fleet::{ShipCounterView, ShipDefinition};
use crate::game::laws::lemma_same_contents_named;
use crate::game::model::{point_at, BoardView};
use crate::game::point::Point;

verus! {

/// Why a ship could not be placed.
#[derive(Debug, Clone, Copy, PartialEq, Eq, Structural)]
pub enum ShipAddError {
    /// The cell at `point` holds a ship or lies next to one.
    Collision { point: Point },
    /// Some point of the ship is not on the grid.
    OutOfBounds,
    /// The request breaks a rule of construction: no points, an unknown
    /// class, or a class that already has all its ships.
    InternalError,
}

/// One ship could not be placed within the attempts allowed. The whole build
/// has failed; start a new one.
#[derive(Debug, Clone, Copy, PartialEq, Eq, Structural)]
pub struct PlacementExhausted;

/// The straight run of `length` cells that starts at `start` and goes right
/// (`horizontal`) or down.
pub open spec fn line(start: Point, horizontal: bool, length: nat) -> Seq<Point> {
    Seq::new(
        length,
        |i: int|
            if horizontal {
                point_at(start.x + i, start.y as int)
            } else {
                point_at(start.x as int, start.y + i)
            },
    )
}

/// Whether every cell of that run has coordinates that fit a [`Point`].
pub open spec fn line_fits(start: Point, horizontal: bool, length: nat) -> bool {
    length == 0 || (if horizontal {
        start.x
    } else {
        start.y
    }) + length <= 256
}

/// What the first `k` steps of the scan around `points` have kept.
pub open spec fn scan_sound(b: BoardView, points: Seq<Point>, k: nat) -> bool {
    let kept = b.halo_prefix(points, k);
    &&& kept.no_duplicates()
    &&& forall|q: Point| #[trigger]
        kept.contains(q) ==> {
            &&& b.in_bounds(q)
            &&& !points.contains(q)
            &&& exists|j: int| 0 <= j < k && #[trigger] BoardView::candidate(points, j) == (q.x as int, q.y as int)
        }
    &&& forall|j: int|
        0 <= j < k ==> {
            let (x, y) = #[trigger] BoardView::candidate(points, j);
            0 <= x < b.width() && 0 <= y < b.height() && !points.contains(point_at(x, y))
                ==> kept.contains(point_at(x, y))
        }
}

proof fn lemma_scan_sound(b: BoardView, points: Seq<Point>, k: nat)
    requires
        b.grid_ok(),
    ensures
        scan_sound(b, points, k),
    decreases k,
{
    let kept = b.halo_prefix(points, k);
    if k > 0 {
        lemma_scan_sound(b, points, (k - 1) as nat);
        let prev = b.halo_prefix(points, (k - 1) as nat);
        let (x, y) = BoardView::candidate(points, k - 1);
        let q0 = point_at(x, y);
        if b.keeps(points, prev, x, y) {
            assert(kept == prev.push(q0));
            assert(q0.x == x && q0.y == y);
            assert(b.in_bounds(q0)) by {
                assert(b.cells[x].len() == b.height());
            }
            assert(kept.no_duplicates()) by {
                assert forall|i: int, j: int| 0 <= i < kept.len() && 0 <= j < kept.len() && i != j implies kept[i] != kept[j] by {
                    if i < prev.len() {
                        assert(prev.contains(prev[i]));
                    }
                    if j < prev.len() {
                        assert(prev.contains(prev[j]));
                    }
                }
            }
            assert forall|q: Point| #[trigger] kept.contains(q) implies {
                &&& b.in_bounds(q)
                &&& !points.contains(q)
                &&& exists|j: int| 0 <= j < k && #[trigger] BoardView::candidate(points, j) == (q.x as int, q.y as int)
            } by {
                let i = choose|i: int| 0 <= i < kept.len() && kept[i] == q;
                if i < prev.len() {
                    assert(prev[i] == q);
                    assert(prev.contains(q));
                    let j = choose|j: int| 0 <= j < k - 1 && #[trigger] BoardView::candidate(points, j) == (q.x as int, q.y as int);
                    assert(0 <= j < k && BoardView::candidate(points, j) == (q.x as int, q.y as int));
                } else {
                    assert(q == q0);
                    assert(BoardView::candidate(points, k - 1) == (q.x as int, q.y as int));
                }
            }
            assert forall|j: int| 0 <= j < k implies {
                let (x, y) = #[trigger] BoardView::candidate(points, j);
                0 <= x < b.width() && 0 <= y < b.height() && !points.contains(point_at(x, y))
                    ==> kept.contains(point_at(x, y))
            } by {
                let (xj, yj) = BoardView::candidate(points, j);
                if 0 <= xj < b.width() && 0 <= yj < b.height() && !points.contains(point_at(xj, yj)) {
                    if j < k - 1 {
                        assert(prev.contains(point_at(xj, yj)));
                        let i = choose|i: int| 0 <= i < prev.len() && prev[i] == point_at(xj, yj);
                        assert(kept[i] == point_at(xj, yj));
                    } else {
                        assert(kept[prev.len() as int] == q0);
                    }
                }
            }
        } else {
            assert(kept == prev);
            assert forall|q: Point| #[trigger] kept.contains(q) implies {
                &&& b.in_bounds(q)
                &&& !points.contains(q)
                &&& exists|j: int| 0 <= j < k && #[trigger] BoardView::candidate(points, j) == (q.x as int, q.y as int)
            } by {
                assert(prev.contains(q));
                let j = choose|j: int| 0 <= j < k - 1 && #[trigger] BoardView::candidate(points, j) == (q.x as int, q.y as int);
                assert(0 <= j < k && BoardView::candidate(points, j) == (q.x as int, q.y as int));
            }
            assert forall|j: int| 0 <= j < k implies {
                let (x, y) = #[trigger] BoardView::candidate(points, j);
                0 <= x < b.width() && 0 <= y < b.height() && !points.contains(point_at(x, y))
                    ==> kept.contains(point_at(x, y))
            } by {
                let (xj, yj) = BoardView::candidate(points, j);
                if j == k - 1 {
                    assert(xj == x && yj == y);
                }
            }
        }
    } else {
        assert(kept =~= Seq::<Point>::empty());
    }
}

/// The halo of `points` holds each cell once, and holds exactly the cells on
/// the grid that touch a point of `points` and are none of them.
pub proof fn lemma_halo(b: BoardView, points: Seq<Point>)
    requires
        b.grid_ok(),
    ensures
        b.halo(points).no_duplicates(),
        forall|q: Point|
            #[trigger] b.halo(points).contains(q) <==> {
                &&& b.in_bounds(q)
                &&& !points.contains(q)
                &&& exists|i: int| 0 <= i < points.len() && (#[trigger] points[i]).touches(q)
            },
{
    let n = points.len();
    let near = b.halo(points);
    lemma_scan_sound(b, points, 9 * n);
    assert forall|q: Point| #[trigger] near.contains(q) implies {
        &&& b.in_bounds(q)
        &&& !points.contains(q)
        &&& exists|i: int| 0 <= i < points.len() && (#[trigger] points[i]).touches(q)
    } by {
        let j = choose|j: int| 0 <= j < 9 * n && #[trigger] BoardView::candidate(points, j) == (q.x as int, q.y as int);
        let i = j / 9;
        assert(0 <= i < n);
        assert(0 <= (j % 9) / 3 <= 2 && 0 <= (j % 9) % 3 <= 2);
        assert(points[i].touches(q));
    }
    assert forall|q: Point|
        b.in_bounds(q) && !points.contains(q) && (exists|i: int|
            0 <= i < points.len() && (#[trigger] points[i]).touches(q)) implies #[trigger] near.contains(q) by {
        let i = choose|i: int| 0 <= i < points.len() && (#[trigger] points[i]).touches(q);
        let a = q.x - points[i].x + 1;
        let c = q.y - points[i].y + 1;
        let j = 9 * i + 3 * a + c;
        assert(0 <= a <= 2 && 0 <= c <= 2);
        assert(j / 9 == i && j % 9 == 3 * a + c);
        assert((3 * a + c) / 3 == a && (3 * a + c) % 3 == c);
        assert(BoardView::candidate(points, j) == (q.x as int, q.y as int));
        assert(b.cells[q.x as int].len() == b.height());
        assert(point_at(q.x as int, q.y as int) == q);
    }
}

/// The mathematical value of a board under construction.
pub struct BuilderView {
    /// Width and height of the grid.
    pub bounds: Point,
    /// The board built so far.
    pub board: BoardView,
    /// For each class, how many of its ships are still to be placed.
    pub open: Seq<nat>,
}

impl BuilderView {
    /// The invariant of every builder.
    pub open spec fn wf(self) -> bool {
        &&& self.board.wf()
        &&& self.board.cells.len() == self.bounds.x
        &&& forall|x: int|
            0 <= x < self.board.cells.len() ==> (#[trigger] self.board.cells[x]).len()
                == self.bounds.y
        &&& self.open.len() == self.board.counters.len()
        &&& forall|c: int|
            0 <= c < self.open.len() ==> (#[trigger] self.board.afloat_ships(c)).len()
                + self.open[c] == self.board.counters[c].remaining
    }

    /// Whether every class has all its ships.
    pub open spec fn settled(self) -> bool {
        forall|c: int| 0 <= c < self.open.len() ==> #[trigger] self.open[c] == 0
    }

    /// Whether class `counter` exists and still lacks a ship.
    pub open spec fn has_room(self, counter: int) -> bool {
        0 <= counter < self.open.len() && self.open[counter] > 0
    }

    /// Why a ship of class `counter` cannot be placed on `points`, if it cannot.
    ///
    /// A request that breaks a rule of construction is an `InternalError`.
    /// Else a point off the grid makes it `OutOfBounds`. Else the first point
    /// whose cell is not open water makes it a `Collision` at that point.
    pub open spec fn rejection(self, points: Seq<Point>, counter: int) -> Option<ShipAddError> {
        if points.len() == 0 || !self.has_room(counter) {
            Some(ShipAddError::InternalError)
        } else if !self.board.all_in_bounds(points) {
            Some(ShipAddError::OutOfBounds)
        } else {
            match self.board.first_blocked(points, 0) {
                Some(point) => Some(ShipAddError::Collision { point }),
                None => None,
            }
        }
    }

    /// The builder after a ship of class `counter` has been placed on `points`.
    pub open spec fn placed(self, points: Seq<Point>, counter: int) -> BuilderView {
        BuilderView {
            bounds: self.bounds,
            board: self.board.placed(points, counter as nat),
            open: self.open.update(counter, (self.open[counter] - 1) as nat),
        }
    }

    /// The builder after a class with the given counter has been added.
    pub open spec fn with_class(self, counter: ShipCounterView) -> BuilderView {
        BuilderView {
            bounds: self.bounds,
            board: BoardView { counters: self.board.counters.push(counter), ..self.board },
            open: self.open.push(counter.total),
        }
    }
}

/// `first_blocked` finds nothing exactly when every cell from `i` on is open water.
pub proof fn lemma_first_blocked(b: BoardView, points: Seq<Point>, i: int)
    requires
        0 <= i <= points.len(),
    ensures
        b.first_blocked(points, i) is None <==> forall|j: int|
            i <= j < points.len() ==> b.cell(#[trigger] points[j]).content == CellContent::Water,
        b.first_blocked(points, i) is Some ==> exists|j: int|
            i <= j < points.len() && #[trigger] points[j] == b.first_blocked(points, i)->0 && b.cell(
                points[j],
            ).content != CellContent::Water,
    decreases points.len() - i,
{
    if i < points.len() {
        lemma_first_blocked(b, points, i + 1);
        if b.cell(points[i]).content != CellContent::Water {
        } else {
            if b.first_blocked(points, i) is Some {
                let j = choose|j: int|
                    i + 1 <= j < points.len() && #[trigger] points[j] == b.first_blocked(
                        points,
                        i + 1,
                    )->0 && b.cell(points[j]).content != CellContent::Water;
                assert(i <= j < points.len() && points[j] == b.first_blocked(points, i)->0);
            }
        }
    }
}

/// On a well-formed board, cells around open water hold no ship: once every
/// point of a new ship lies on open water, no cell of its halo can collide.
pub proof fn lemma_halo_is_free(b: BoardView, points: Seq<Point>)
    requires
        b.wf(),
        b.all_in_bounds(points),
        b.first_blocked(points, 0) is None,
    ensures
        forall|q: Point| #[trigger] b.halo(points).contains(q) ==> !(b.cell(q).content is Ship),
{
    lemma_halo(b, points);
    lemma_first_blocked(b, points, 0);
    assert forall|q: Point| #[trigger] b.halo(points).contains(q) implies !(b.cell(q).content is Ship) by {
        let i = choose|i: int| 0 <= i < points.len() && (#[trigger] points[i]).touches(q);
        assert(b.in_bounds(points[i]));
        assert(b.cell(points[i]).content == CellContent::Water);
        if b.cell(q).content is Ship {
            assert(q.touches(points[i]));
        }
    }
}

/// Placing a ship that is not rejected keeps the builder well formed.
pub proof fn lemma_placed_keeps_wf(b: BuilderView, points: Seq<Point>, counter: int)
    requires
        b.wf(),
        b.rejection(points, counter) is None,
        b.board.ships.len() < usize::MAX,
    ensures
        b.placed(points, counter).wf(),
{
    let old = b.board;
    let new = old.placed(points, counter as nat);
    let id = old.ships.len() as usize;
    let near = old.halo(points);
    lemma_halo(old, points);
    lemma_halo_is_free(old, points);
    lemma_first_blocked(old, points, 0);
    assert(new.cells.len() == old.cells.len());
    assert forall|x: int| 0 <= x < old.cells.len() implies (#[trigger] new.cells[x]).len() == old.cells[x].len() by {}
    assert forall|p: Point| #[trigger] new.in_bounds(p) == old.in_bounds(p) by {}
    assert forall|p: Point| points.contains(p) implies old.in_bounds(p) && old.cell(p).content == CellContent::Water by {
        let i = choose|i: int| 0 <= i < points.len() && points[i] == p;
        assert(old.in_bounds(points[i]));
    }
    assert forall|p: Point| old.in_bounds(p) implies #[trigger] new.cell(p) == (if points.contains(p) {
        old.cell(p).holding(CellContent::Ship(id))
    } else if near.contains(p) {
        old.cell(p).holding(CellContent::NearShip(id))
    } else {
        old.cell(p)
    }) by {
        assert(point_at(p.x as int, p.y as int) == p);
    }
    assert(new.grid_ok()) by {
        if old.cells.len() > 0 {
            assert(new.cells[0].len() == old.cells[0].len());
        }
    }
    assert(new.refs_ok()) by {
        assert forall|p: Point| #[trigger] new.in_bounds(p) implies match new.cell(p).content {
            CellContent::Water => true,
            CellContent::NearShip(s) => s < new.ships.len(),
            CellContent::Ship(s) => s < new.ships.len(),
        } by {
            assert(old.in_bounds(p));
        }
    }
    assert(new.ships_ok()) by {
        assert forall|s: int| 0 <= s < new.ships.len() implies {
            &&& (#[trigger] new.ships[s]).counter < new.counters.len()
            &&& forall|i: int|
                0 <= i < new.ships[s].nearby_cells.len() ==> {
                    &&& new.in_bounds(#[trigger] new.ships[s].nearby_cells[i])
                    &&& new.cell(new.ships[s].nearby_cells[i]).content is NearShip
                }
        } by {
            if s < old.ships.len() {
                assert(new.ships[s] == old.ships[s]);
                assert(old.ships[s].counter < old.counters.len());
                assert forall|i: int| 0 <= i < new.ships[s].nearby_cells.len() implies {
                    &&& new.in_bounds(#[trigger] new.ships[s].nearby_cells[i])
                    &&& new.cell(new.ships[s].nearby_cells[i]).content is NearShip
                } by {
                    let q = old.ships[s].nearby_cells[i];
                    assert(old.in_bounds(q));
                    assert(old.cell(q).content is NearShip);
                }
            } else {
                assert(new.ships[s].nearby_cells == near);
                assert forall|i: int| 0 <= i < near.len() implies {
                    &&& new.in_bounds(#[trigger] near[i])
                    &&& new.cell(near[i]).content is NearShip
                } by {
                    assert(near.contains(near[i]));
                }
            }
        }
    }
    assert(new.buffered()) by {
        assert forall|p: Point, q: Point|
            new.in_bounds(p) && new.in_bounds(q) && #[trigger] p.touches(q) && new.cell(
                p,
            ).content is Ship implies new.cell(q).content == new.cell(p).content || new.cell(
            q,
        ).content is NearShip by {
            assert(old.in_bounds(p) && old.in_bounds(q));
            if points.contains(p) {
                if !points.contains(q) {
                    let i = choose|i: int| 0 <= i < points.len() && points[i] == p;
                    assert(points[i].touches(q));
                    assert(near.contains(q));
                }
            } else {
                assert(!near.contains(p));
                assert(old.cell(p).content is Ship);
                assert(old.cell(q).content == old.cell(p).content || old.cell(q).content is NearShip);
            }
        }
    }
    assert(new.named_ok()) by {
        assert forall|p: Point| #[trigger] new.in_bounds(p) implies (new.cell(
            p,
        ).content matches CellContent::NearShip(s) ==> {
            &&& exists|q: Point|
                new.in_bounds(q) && #[trigger] p.touches(q) && new.cell(q).content
                    == CellContent::Ship(s)
            &&& forall|q: Point|
                new.in_bounds(q) && #[trigger] p.touches(q) && new.cell(q).content is Ship
                    ==> new.cell(q).content->Ship_0 <= s
        }) by {
            assert(old.in_bounds(p));
            if let CellContent::NearShip(s) = new.cell(p).content {
                if near.contains(p) {
                    let i = choose|i: int| 0 <= i < points.len() && (#[trigger] points[i]).touches(p);
                    let q = points[i];
                    assert(points.contains(q));
                    assert(new.in_bounds(q) && p.touches(q) && new.cell(q).content
                        == CellContent::Ship(s));
                    assert forall|q: Point|
                        new.in_bounds(q) && #[trigger] p.touches(q) && new.cell(q).content is Ship
                            implies new.cell(q).content->Ship_0 <= s by {
                        assert(old.in_bounds(q));
                    }
                } else {
                    assert(new.cell(p) == old.cell(p));
                    let q = choose|q: Point|
                        old.in_bounds(q) && #[trigger] p.touches(q) && old.cell(q).content
                            == CellContent::Ship(s);
                    assert(!near.contains(q));
                    assert(new.in_bounds(q) && p.touches(q) && new.cell(q).content
                        == CellContent::Ship(s));
                    assert forall|q: Point|
                        new.in_bounds(q) && #[trigger] p.touches(q) && new.cell(q).content is Ship
                            implies new.cell(q).content->Ship_0 <= s by {
                        assert(old.in_bounds(q));
                        if points.contains(q) {
                            let i = choose|i: int| 0 <= i < points.len() && points[i] == q;
                            assert(points[i].touches(p));
                            assert(near.contains(p));
                        }
                    }
                }
            }
        }
    }
    assert(new.lengths_ok()) by {
        assert forall|s: int| 0 <= s < new.ships.len() implies {
            &&& (#[trigger] new.afloat_cells(s)).finite()
            &&& new.afloat_cells(s).len() <= new.ships[s].length
        } by {
            if s < old.ships.len() {
                assert(s as usize != id);
                assert forall|p: Point| new.afloat_cells(s).contains(p) <==> old.afloat_cells(s).contains(p) by {
                    if old.in_bounds(p) {
                        if points.contains(p) {
                        } else if near.contains(p) {
                            assert(!(old.cell(p).content is Ship));
                        }
                    }
                }
                assert(new.afloat_cells(s) =~= old.afloat_cells(s));
                assert(old.afloat_cells(s).finite());
            } else {
                assert forall|p: Point| new.afloat_cells(s).contains(p) implies points.to_set().contains(p) by {
                    assert(old.in_bounds(p));
                    if !points.contains(p) {
                        if near.contains(p) {
                        } else {
                            assert(old.cell(p).content != CellContent::Ship(id));
                        }
                    }
                }
                vstd::seq_lib::seq_to_set_is_finite(points);
                points.lemma_cardinality_of_set();
                lemma_len_subset(new.afloat_cells(s), points.to_set());
            }
        }
    }
    assert forall|c: int| c != counter implies #[trigger] new.afloat_ships(c) == old.afloat_ships(c) by {
        assert(new.afloat_ships(c) =~= old.afloat_ships(c));
    }
    assert(old.afloat_ships(counter).finite());
    assert(new.afloat_ships(counter) =~= old.afloat_ships(counter).insert(id as int));
    assert(!old.afloat_ships(counter).contains(id as int));
    assert(new.afloat_ships(counter).len() == old.afloat_ships(counter).len() + 1);
    assert(new.counters_ok()) by {
        assert forall|c: int| 0 <= c < new.counters.len() implies {
            &&& (#[trigger] new.afloat_ships(c)).finite()
            &&& new.afloat_ships(c).len() <= new.counters[c].remaining
            &&& new.counters[c].remaining <= new.counters[c].total
        } by {
            assert(old.afloat_ships(c).finite());
            assert(old.afloat_ships(c).len() + b.open[c] == old.counters[c].remaining);
        }
    }
    let after = b.placed(points, counter);
    assert forall|c: int| 0 <= c < after.open.len() implies (#[trigger] after.board.afloat_ships(c)).len()
        + after.open[c] == after.board.counters[c].remaining by {
        assert(old.afloat_ships(c).len() + b.open[c] == old.counters[c].remaining);
    }
}

/// Once every class has all its ships, every counter shows exactly the
/// ships afloat in its class.
pub proof fn lemma_settled_is_balanced(b: BuilderView)
    requires
        b.wf(),
        b.settled(),
    ensures
        b.board.balanced(),
{
    assert forall|c: int| 0 <= c < b.board.counters.len() implies (#[trigger] b.board.afloat_ships(
        c,
    )).len() == b.board.counters[c].remaining by {
        assert(b.open[c] == 0);
    }
}

/// Adding a class keeps the builder well formed.
pub proof fn lemma_with_class_keeps_wf(b: BuilderView, counter: ShipCounterView)
    requires
        b.wf(),
        counter.remaining == counter.total,
    ensures
        b.with_class(counter).wf(),
{
    let old = b.board;
    let after = b.with_class(counter);
    let new = after.board;
    assert forall|p: Point| #[trigger] new.in_bounds(p) == old.in_bounds(p) by {}
    assert(new.grid_ok());
    lemma_same_contents_named(old, new);
    assert(new.refs_ok()) by {
        assert forall|p: Point| #[trigger] new.in_bounds(p) implies match new.cell(p).content {
            CellContent::Water => true,
            CellContent::NearShip(s) => s < new.ships.len(),
            CellContent::Ship(s) => s < new.ships.len(),
        } by {
            assert(old.in_bounds(p));
        }
    }
    assert(new.ships_ok()) by {
        assert forall|s: int| 0 <= s < new.ships.len() implies {
            &&& (#[trigger] new.ships[s]).counter < new.counters.len()
            &&& forall|i: int|
                0 <= i < new.ships[s].nearby_cells.len() ==> {
                    &&& new.in_bounds(#[trigger] new.ships[s].nearby_cells[i])
                    &&& new.cell(new.ships[s].nearby_cells[i]).content is NearShip
                }
        } by {
            assert(old.ships[s].counter < old.counters.len());
            assert forall|i: int| 0 <= i < new.ships[s].nearby_cells.len() implies {
                &&& new.in_bounds(#[trigger] new.ships[s].nearby_cells[i])
                &&& new.cell(new.ships[s].nearby_cells[i]).content is NearShip
            } by {
                assert(old.in_bounds(old.ships[s].nearby_cells[i]));
            }
        }
    }
    assert(new.buffered()) by {
        assert forall|p: Point, q: Point|
            new.in_bounds(p) && new.in_bounds(q) && #[trigger] p.touches(q) && new.cell(
                p,
            ).content is Ship implies new.cell(q).content == new.cell(p).content || new.cell(
            q,
        ).content is NearShip by {
            assert(old.in_bounds(p) && old.in_bounds(q));
        }
    }
    assert forall|s: int| #[trigger] new.afloat_cells(s) == old.afloat_cells(s) by {
        assert(new.afloat_cells(s) =~= old.afloat_cells(s));
    }
    assert(new.lengths_ok()) by {
        assert forall|s: int| 0 <= s < new.ships.len() implies {
            &&& (#[trigger] new.afloat_cells(s)).finite()
            &&& new.afloat_cells(s).len() <= new.ships[s].length
        } by {
            assert(old.afloat_cells(s).finite());
        }
    }
    assert forall|c: int| #[trigger] new.afloat_ships(c) == old.afloat_ships(c) by {
        assert(new.afloat_ships(c) =~= old.afloat_ships(c));
    }
    let fresh = old.counters.len() as int;
    assert(old.afloat_ships(fresh) =~= Set::<int>::empty()) by {
        assert forall|s: int| !old.afloat_ships(fresh).contains(s) by {
            if 0 <= s < old.ships.len() {
                assert(old.ships[s].counter < old.counters.len());
            }
        }
    }
    assert(new.counters_ok()) by {
        assert forall|c: int| 0 <= c < new.counters.len() implies {
            &&& (#[trigger] new.afloat_ships(c)).finite()
            &&& new.afloat_ships(c).len() <= new.counters[c].remaining
            &&& new.counters[c].remaining <= new.counters[c].total
        } by {
            if c < fresh {
                assert(old.afloat_ships(c).finite());
            }
        }
    }
    assert forall|c: int| 0 <= c < after.open.len() implies (#[trigger] after.board.afloat_ships(c)).len()
        + after.open[c] == after.board.counters[c].remaining by {
        if c < fresh {
            assert(old.afloat_ships(c).len() + b.open[c] == old.counters[c].remaining);
        }
    }
}

/// How many ships the first `upto` definitions of `fleet` ask for.
pub open spec fn fleet_size(fleet: Seq<ShipDefinition>, upto: int) -> nat
    decreases upto,
{
    if upto <= 0 {
        0
    } else {
        fleet_size(fleet, upto - 1) + fleet[upto - 1].count_view()
    }
}

impl BoardView {
    /// `later` is this board with more classes and ships and nothing else
    /// changed: no cell revealed, no ship moved, shortened or removed.
    pub open spec fn grows_to(self, later: BoardView) -> bool {
        &&& later.cells.len() == self.cells.len()
        &&& forall|x: int|
            0 <= x < self.cells.len() ==> (#[trigger] later.cells[x]).len() == self.cells[x].len()
        &&& self.ships.len() <= later.ships.len()
        &&& forall|s: int| 0 <= s < self.ships.len() ==> #[trigger] later.ships[s] == self.ships[s]
        &&& self.counters.len() <= later.counters.len()
        &&& forall|c: int|
            0 <= c < self.counters.len() ==> #[trigger] later.counters[c] == self.counters[c]
        &&& forall|p: Point|
            self.in_bounds(p) ==> {
                &&& (#[trigger] later.cell(p)).exposed == self.cell(p).exposed
                &&& self.cell(p).content is Ship ==> later.cell(p).content == self.cell(p).content
                &&& later.cell(p).content is Ship && later.cell(p).content->Ship_0
                    < self.ships.len() ==> later.cell(p).content == self.cell(p).content
            }
    }

    /// Ship `s` occupies exactly the cells of `run`, all of them on the grid.
    pub open spec fn lies_on(self, s: int, run: Seq<Point>) -> bool {
        &&& self.all_in_bounds(run)
        &&& forall|p: Point|
            self.in_bounds(p) ==> ((#[trigger] self.cell(p)).content == CellContent::Ship(
                s as usize,
            ) <==> run.contains(p))
    }

    /// Ship `s` occupies the straight run of as many cells as it is long
    /// that starts at `start`, and reveals the halo of that run when it sinks.
    pub open spec fn runs_from(self, s: int, start: Point, horizontal: bool) -> bool {
        let run = line(start, horizontal, self.ships[s].length);
        &&& line_fits(start, horizontal, self.ships[s].length)
        &&& self.lies_on(s, run)
        &&& self.ships[s].nearby_cells == self.halo(run)
    }

    /// Ship `s` occupies some straight run of as many cells as it is long.
    pub open spec fn is_straight(self, s: int) -> bool {
        exists|start: Point, horizontal: bool| #[trigger] self.runs_from(s, start, horizontal)
    }

    /// The ships `first .. first + placed` are straight ships of class `class`
    /// with the length that `definition` gives.
    pub open spec fn class_placed(
        self,
        definition: ShipDefinition,
        class: int,
        first: int,
        placed: int,
    ) -> bool {
        &&& 0 <= first
        &&& 0 <= placed
        &&& first + placed <= self.ships.len()
        &&& forall|s: int|
            first <= s < first + placed ==> {
                &&& (#[trigger] self.ships[s]).counter == class
                &&& self.ships[s].length == definition.length_view()
                &&& self.is_straight(s)
            }
    }
}

/// Growth is transitive.
pub proof fn lemma_grows_chain(a: BoardView, b: BoardView, c: BoardView)
    requires
        a.grows_to(b),
        b.grows_to(c),
    ensures
        a.grows_to(c),
{
    assert forall|p: Point| #[trigger] a.in_bounds(p) implies b.in_bounds(p) by {}
    assert forall|x: int| 0 <= x < a.cells.len() implies (#[trigger] c.cells[x]).len() == a.cells[x].len() by {
        assert(b.cells[x].len() == a.cells[x].len());
    }
    assert forall|s: int| 0 <= s < a.ships.len() implies #[trigger] c.ships[s] == a.ships[s] by {
        assert(b.ships[s] == a.ships[s]);
    }
    assert forall|k: int| 0 <= k < a.counters.len() implies #[trigger] c.counters[k] == a.counters[k] by {
        assert(b.counters[k] == a.counters[k]);
    }
    assert forall|p: Point| a.in_bounds(p) implies {
        &&& (#[trigger] c.cell(p)).exposed == a.cell(p).exposed
        &&& a.cell(p).content is Ship ==> c.cell(p).content == a.cell(p).content
        &&& c.cell(p).content is Ship && c.cell(p).content->Ship_0 < a.ships.len() ==> c.cell(
            p,
        ).content == a.cell(p).content
    } by {
        assert(b.in_bounds(p));
        assert(b.cell(p).exposed == a.cell(p).exposed);
    }
}

/// The halo of a run depends on the size of the grid alone.
pub proof fn lemma_halo_same_size(a: BoardView, b: BoardView, points: Seq<Point>, k: nat)
    requires
        a.width() == b.width(),
        a.height() == b.height(),
    ensures
        a.halo_prefix(points, k) == b.halo_prefix(points, k),
    decreases k,
{
    if k > 0 {
        lemma_halo_same_size(a, b, points, (k - 1) as nat);
    }
}

/// A ship that lay on a run before the board grew lies on it afterwards.
pub proof fn lemma_grows_keeps_line(a: BoardView, b: BoardView, s: int, run: Seq<Point>)
    requires
        a.grows_to(b),
        0 <= s < a.ships.len(),
        a.ships.len() <= usize::MAX,
        a.lies_on(s, run),
    ensures
        b.lies_on(s, run),
{
    assert forall|p: Point| #[trigger] a.in_bounds(p) == b.in_bounds(p) by {}
    assert forall|i: int| 0 <= i < run.len() implies b.in_bounds(#[trigger] run[i]) by {
        assert(a.in_bounds(run[i]));
    }
    assert forall|p: Point| b.in_bounds(p) implies ((#[trigger] b.cell(p)).content
        == CellContent::Ship(s as usize) <==> run.contains(p)) by {
        assert(a.in_bounds(p));
        assert(b.cell(p).exposed == a.cell(p).exposed);
        assert(a.cell(p).content == CellContent::Ship(s as usize) <==> run.contains(p));
    }
}

/// The ships of a class that were in place before the board grew are in
/// place afterwards.
pub proof fn lemma_grows_keeps_class(
    a: BoardView,
    b: BoardView,
    definition: ShipDefinition,
    class: int,
    first: int,
    placed: int,
)
    requires
        a.grows_to(b),
        a.ships.len() <= usize::MAX,
        a.class_placed(definition, class, first, placed),
    ensures
        b.class_placed(definition, class, first, placed),
{
    assert(a.width() == b.width());
    assert(a.height() == b.height()) by {
        if a.cells.len() > 0 {
            assert(b.cells[0].len() == a.cells[0].len());
        }
    }
    assert forall|s: int| first <= s < first + placed implies {
        &&& (#[trigger] b.ships[s]).counter == class
        &&& b.ships[s].length == definition.length_view()
        &&& b.is_straight(s)
    } by {
        assert(a.ships[s].counter == class);
        assert(b.ships[s] == a.ships[s]);
        let (start, horizontal) = choose|start: Point, horizontal: bool| #[trigger]
            a.runs_from(s, start, horizontal);
        let run = line(start, horizontal, a.ships[s].length);
        lemma_grows_keeps_line(a, b, s, run);
        lemma_halo_same_size(a, b, run, 9 * run.len());
        assert(b.runs_from(s, start, horizontal));
    }
}

/// A placement grows the board, and the new ship lies on the points given.
pub proof fn lemma_placed_grows(b: BuilderView, points: Seq<Point>, counter: int)
    requires
        b.wf(),
        b.rejection(points, counter) is None,
        b.board.ships.len() < usize::MAX,
    ensures
        b.board.grows_to(b.placed(points, counter).board),
        b.placed(points, counter).board.lies_on(b.board.ships.len() as int, points),
{
    let old = b.board;
    let new = old.placed(points, counter as nat);
    let id = old.ships.len() as usize;
    let near = old.halo(points);
    lemma_halo(old, points);
    lemma_halo_is_free(old, points);
    lemma_first_blocked(old, points, 0);
    assert forall|x: int| 0 <= x < old.cells.len() implies (#[trigger] new.cells[x]).len() == old.cells[x].len() by {}
    assert forall|p: Point| #[trigger] new.in_bounds(p) == old.in_bounds(p) by {}
    assert forall|p: Point| points.contains(p) implies old.in_bounds(p) && old.cell(p).content
        == CellContent::Water by {
        let i = choose|i: int| 0 <= i < points.len() && points[i] == p;
        assert(old.in_bounds(points[i]));
    }
    assert forall|p: Point| old.in_bounds(p) implies #[trigger] new.cell(p) == (if points.contains(p) {
        old.cell(p).holding(CellContent::Ship(id))
    } else if near.contains(p) {
        old.cell(p).holding(CellContent::NearShip(id))
    } else {
        old.cell(p)
    }) by {
        assert(point_at(p.x as int, p.y as int) == p);
    }
    assert forall|p: Point| old.in_bounds(p) implies {
        &&& (#[trigger] new.cell(p)).exposed == old.cell(p).exposed
        &&& old.cell(p).content is Ship ==> new.cell(p).content == old.cell(p).content
        &&& new.cell(p).content is Ship && new.cell(p).content->Ship_0 < old.ships.len()
            ==> new.cell(p).content == old.cell(p).content
    } by {
        if near.contains(p) {
            assert(!(old.cell(p).content is Ship));
        }
    }
    assert forall|i: int| 0 <= i < points.len() implies new.in_bounds(#[trigger] points[i]) by {
        assert(old.in_bounds(points[i]));
    }
    assert forall|p: Point| new.in_bounds(p) implies ((#[trigger] new.cell(p)).content
        == CellContent::Ship(id) <==> points.contains(p)) by {
        assert(old.in_bounds(p));
        if !points.contains(p) && !near.contains(p) {
            assert(old.cell(p).content != CellContent::Ship(id));
        }
    }
}

/// A new class grows the board.
pub proof fn lemma_with_class_grows(b: BuilderView, counter: ShipCounterView)
    ensures
        b.board.grows_to(b.with_class(counter).board),
{
}

} // verus!
