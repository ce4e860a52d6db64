//! What holds of every board: the invariant survives each move, ships keep
//! apart, a second hit on a cell is refused, and a ship sinks on its last hit.

use vstd::prelude::*;
use vstd::set_lib::lemma_len_subset;
use crate::game::cell::CellContent;
use crate::game::fleet::ShipView;
use crate::game::model::{point_at, reveal_cells, BoardView, HitDisplayDiff, HitError};
use crate::game::point::Point;

verus! {

impl BoardView {
    /// `other` is this board with some more cells revealed and nothing else changed.
    pub open spec fn reveals_to(self, other: BoardView) -> bool {
        &&& other.ships == self.ships
        &&& other.counters == self.counters
        &&& other.cells.len() == self.cells.len()
        &&& forall|x: int|
            0 <= x < self.cells.len() ==> (#[trigger] other.cells[x]).len() == self.cells[x].len()
        &&& forall|x: int, y: int|
            0 <= x < self.cells.len() && 0 <= y < self.cells[x].len() ==> {
                &&& (#[trigger] other.cells[x][y]).content == self.cells[x][y].content
                &&& self.cells[x][y].exposed ==> other.cells[x][y].exposed
            }
    }
}

/// What a buffer cell names depends on what the cells hold alone.
pub proof fn lemma_same_contents_named(b: BoardView, after: BoardView)
    requires
        b.named_ok(),
        b.same_contents(after),
    ensures
        after.named_ok(),
{
    assert forall|p: Point| #[trigger] after.in_bounds(p) == b.in_bounds(p) by {}
    assert forall|p: Point| b.in_bounds(p) implies (#[trigger] after.cell(p)).content == b.cell(
        p,
    ).content by {
        assert(after.cells[p.x as int][p.y as int].content == b.cells[p.x as int][p.y as int].content);
    }
    assert forall|p: Point| #[trigger] after.in_bounds(p) implies (after.cell(
        p,
    ).content matches CellContent::NearShip(s) ==> {
        &&& exists|q: Point|
            after.in_bounds(q) && #[trigger] p.touches(q) && after.cell(q).content
                == CellContent::Ship(s)
        &&& forall|q: Point|
            after.in_bounds(q) && #[trigger] p.touches(q) && after.cell(q).content is Ship
                ==> after.cell(q).content->Ship_0 <= s
    }) by {
        assert(b.in_bounds(p));
        if let CellContent::NearShip(s) = after.cell(p).content {
            let q = choose|q: Point|
                b.in_bounds(q) && #[trigger] p.touches(q) && b.cell(q).content == CellContent::Ship(s);
            assert(after.in_bounds(q) && p.touches(q) && after.cell(q).content == CellContent::Ship(s));
            assert forall|q: Point|
                after.in_bounds(q) && #[trigger] p.touches(q) && after.cell(q).content is Ship
                    implies after.cell(q).content->Ship_0 <= s by {
                assert(b.in_bounds(q));
            }
        }
    }
}

/// Revealing cells keeps a board well formed.
pub proof fn lemma_reveal_keeps_wf(b: BoardView, after: BoardView)
    requires
        b.wf(),
        b.reveals_to(after),
    ensures
        after.wf(),
        forall|s: int| #[trigger] after.afloat_cells(s).subset_of(b.afloat_cells(s)),
        forall|c: int| #[trigger] after.afloat_ships(c) == b.afloat_ships(c),
        b.balanced() ==> after.balanced(),
{
    assert forall|p: Point| #[trigger] after.in_bounds(p) == b.in_bounds(p) by {}
    assert forall|p: Point| b.in_bounds(p) implies (#[trigger] after.cell(p)).content == b.cell(
        p,
    ).content && (b.cell(p).exposed ==> after.cell(p).exposed) by {
        assert(after.cells[p.x as int][p.y as int].content == b.cells[p.x as int][p.y as int].content);
    }
    assert(after.grid_ok()) by {
        if b.cells.len() > 0 {
            assert(after.cells[0].len() == b.cells[0].len());
        }
    }
    lemma_same_contents_named(b, after);
    assert(after.refs_ok()) by {
        assert forall|p: Point| #[trigger] after.in_bounds(p) implies match after.cell(p).content {
            CellContent::Water => true,
            CellContent::NearShip(s) => s < after.ships.len(),
            CellContent::Ship(s) => s < after.ships.len(),
        } by {
            assert(b.in_bounds(p));
        }
    }
    assert(after.ships_ok()) by {
        assert forall|s: int| 0 <= s < after.ships.len() implies {
            &&& (#[trigger] after.ships[s]).counter < after.counters.len()
            &&& forall|i: int|
                0 <= i < after.ships[s].nearby_cells.len() ==> {
                    &&& after.in_bounds(#[trigger] after.ships[s].nearby_cells[i])
                    &&& after.cell(after.ships[s].nearby_cells[i]).content is NearShip
                }
        } by {
            assert(b.ships[s].counter < b.counters.len());
            assert forall|i: int| 0 <= i < after.ships[s].nearby_cells.len() implies {
                &&& after.in_bounds(#[trigger] after.ships[s].nearby_cells[i])
                &&& after.cell(after.ships[s].nearby_cells[i]).content is NearShip
            } by {
                assert(b.in_bounds(b.ships[s].nearby_cells[i]));
            }
        }
    }
    assert(after.buffered()) by {
        assert forall|p: Point, q: Point|
            after.in_bounds(p) && after.in_bounds(q) && #[trigger] p.touches(q) && after.cell(
                p,
            ).content is Ship implies after.cell(q).content == after.cell(p).content || after.cell(
            q,
        ).content is NearShip by {
            assert(b.in_bounds(p) && b.in_bounds(q));
        }
    }
    assert forall|s: int| #[trigger] after.afloat_cells(s).subset_of(b.afloat_cells(s)) by {
        assert forall|p: Point| after.afloat_cells(s).contains(p) implies b.afloat_cells(
            s,
        ).contains(p) by {
            assert(b.in_bounds(p));
        }
    }
    assert(after.lengths_ok()) by {
        assert forall|s: int| 0 <= s < after.ships.len() implies {
            &&& (#[trigger] after.afloat_cells(s)).finite()
            &&& after.afloat_cells(s).len() <= after.ships[s].length
        } by {
            assert(b.afloat_cells(s).finite());
            lemma_len_subset(after.afloat_cells(s), b.afloat_cells(s));
        }
    }
    assert forall|c: int| #[trigger] after.afloat_ships(c) == b.afloat_ships(c) by {
        assert(after.afloat_ships(c) =~= b.afloat_ships(c));
    }
    assert(after.counters_ok()) by {
        assert forall|c: int| 0 <= c < after.counters.len() implies {
            &&& (#[trigger] after.afloat_ships(c)).finite()
            &&& after.afloat_ships(c).len() <= after.counters[c].remaining
            &&& after.counters[c].remaining <= after.counters[c].total
        } by {
            assert(b.afloat_ships(c).finite());
        }
    }
}

/// `exposing` reveals cells and changes nothing else.
pub proof fn lemma_exposing_reveals(b: BoardView, points: Seq<Point>)
    ensures
        b.reveals_to(b.exposing(points)),
{
}

/// A hit on a ship that has more hits left than unrevealed cells keeps the
/// board well formed, whether or not it sinks the ship.
pub proof fn lemma_struck_keeps_wf(b: BoardView, s: int)
    requires
        b.wf(),
        0 <= s < b.ships.len(),
        b.afloat_cells(s).len() < b.ships[s].length,
    ensures
        b.struck(s).wf(),
        b.balanced() ==> b.struck(s).balanced(),
{
    let ship = b.ships[s];
    let c = ship.counter as int;
    let after = BoardView { ships: b.ships.update(s, ship.struck()), ..b };
    assert(ship.counter < b.counters.len());
    assert forall|p: Point| #[trigger] after.in_bounds(p) == b.in_bounds(p) by {}
    assert(after.grid_ok());
    lemma_same_contents_named(b, after);
    assert(after.refs_ok()) by {
        assert forall|p: Point| #[trigger] after.in_bounds(p) implies match after.cell(p).content {
            CellContent::Water => true,
            CellContent::NearShip(t) => t < after.ships.len(),
            CellContent::Ship(t) => t < after.ships.len(),
        } by {
            assert(b.in_bounds(p));
        }
    }
    assert(after.ships_ok()) by {
        assert forall|t: int| 0 <= t < after.ships.len() implies {
            &&& (#[trigger] after.ships[t]).counter < after.counters.len()
            &&& forall|i: int|
                0 <= i < after.ships[t].nearby_cells.len() ==> {
                    &&& after.in_bounds(#[trigger] after.ships[t].nearby_cells[i])
                    &&& after.cell(after.ships[t].nearby_cells[i]).content is NearShip
                }
        } by {
            assert(b.ships[t].counter < b.counters.len());
            assert(after.ships[t].nearby_cells == b.ships[t].nearby_cells);
            assert forall|i: int| 0 <= i < after.ships[t].nearby_cells.len() implies {
                &&& after.in_bounds(#[trigger] after.ships[t].nearby_cells[i])
                &&& after.cell(after.ships[t].nearby_cells[i]).content is NearShip
            } by {
                assert(b.in_bounds(b.ships[t].nearby_cells[i]));
            }
        }
    }
    assert(after.buffered()) by {
        assert forall|p: Point, q: Point|
            after.in_bounds(p) && after.in_bounds(q) && #[trigger] p.touches(q) && after.cell(
                p,
            ).content is Ship implies after.cell(q).content == after.cell(p).content || after.cell(
            q,
        ).content is NearShip by {
            assert(b.in_bounds(p) && b.in_bounds(q));
        }
    }
    assert forall|t: int| #[trigger] after.afloat_cells(t) == b.afloat_cells(t) by {
        assert(after.afloat_cells(t) =~= b.afloat_cells(t));
    }
    assert(after.lengths_ok()) by {
        assert forall|t: int| 0 <= t < after.ships.len() implies {
            &&& (#[trigger] after.afloat_cells(t)).finite()
            &&& after.afloat_cells(t).len() <= after.ships[t].length
        } by {
            assert(b.afloat_cells(t).finite());
        }
    }
    // The ship leaves the afloat set of its class exactly when this hit sinks it.
    assert forall|d: int| d != c || ship.length > 1 implies #[trigger] after.afloat_ships(d)
        == b.afloat_ships(d) by {
        assert(after.afloat_ships(d) =~= b.afloat_ships(d));
    }
    assert(b.afloat_ships(c).finite());
    if ship.length == 1 {
        assert(b.afloat_ships(c).contains(s));
        assert(after.afloat_ships(c) =~= b.afloat_ships(c).remove(s));
        assert(after.afloat_ships(c).len() == b.afloat_ships(c).len() - 1);
        assert(b.counters[c].remaining >= 1);
    }
    assert(after.counters_ok()) by {
        assert forall|d: int| 0 <= d < after.counters.len() implies {
            &&& (#[trigger] after.afloat_ships(d)).finite()
            &&& after.afloat_ships(d).len() <= after.counters[d].remaining
            &&& after.counters[d].remaining <= after.counters[d].total
        } by {
            assert(b.afloat_ships(d).finite());
        }
    }
    assert(after.wf());
    if ship.length == 1 {
        let mid = BoardView { counters: after.counters.update(c, after.counters[c].decreased()), ..after };
        assert forall|p: Point| #[trigger] mid.in_bounds(p) == after.in_bounds(p) by {}
        assert(mid.grid_ok());
        lemma_same_contents_named(after, mid);
        assert(mid.refs_ok()) by {
            assert forall|p: Point| #[trigger] mid.in_bounds(p) implies match mid.cell(p).content {
                CellContent::Water => true,
                CellContent::NearShip(t) => t < mid.ships.len(),
                CellContent::Ship(t) => t < mid.ships.len(),
            } by {
                assert(after.in_bounds(p));
            }
        }
        assert(mid.ships_ok()) by {
            assert forall|t: int| 0 <= t < mid.ships.len() implies {
                &&& (#[trigger] mid.ships[t]).counter < mid.counters.len()
                &&& forall|i: int|
                    0 <= i < mid.ships[t].nearby_cells.len() ==> {
                        &&& mid.in_bounds(#[trigger] mid.ships[t].nearby_cells[i])
                        &&& mid.cell(mid.ships[t].nearby_cells[i]).content is NearShip
                    }
            } by {
                assert(after.ships[t].counter < after.counters.len());
                assert forall|i: int| 0 <= i < mid.ships[t].nearby_cells.len() implies {
                    &&& mid.in_bounds(#[trigger] mid.ships[t].nearby_cells[i])
                    &&& mid.cell(mid.ships[t].nearby_cells[i]).content is NearShip
                } by {
                    assert(after.in_bounds(after.ships[t].nearby_cells[i]));
                }
            }
        }
        assert(mid.buffered()) by {
            assert forall|p: Point, q: Point|
                mid.in_bounds(p) && mid.in_bounds(q) && #[trigger] p.touches(q) && mid.cell(
                    p,
                ).content is Ship implies mid.cell(q).content == mid.cell(p).content || mid.cell(
                q,
            ).content is NearShip by {
                assert(after.in_bounds(p) && after.in_bounds(q));
            }
        }
        assert forall|t: int| #[trigger] mid.afloat_cells(t) == after.afloat_cells(t) by {
            assert(mid.afloat_cells(t) =~= after.afloat_cells(t));
        }
        assert(mid.lengths_ok()) by {
            assert forall|t: int| 0 <= t < mid.ships.len() implies {
                &&& (#[trigger] mid.afloat_cells(t)).finite()
                &&& mid.afloat_cells(t).len() <= mid.ships[t].length
            } by {
                assert(after.afloat_cells(t).finite());
            }
        }
        assert forall|d: int| #[trigger] mid.afloat_ships(d) == after.afloat_ships(d) by {
            assert(mid.afloat_ships(d) =~= after.afloat_ships(d));
        }
        assert(mid.counters_ok()) by {
            assert forall|d: int| 0 <= d < mid.counters.len() implies {
                &&& (#[trigger] mid.afloat_ships(d)).finite()
                &&& mid.afloat_ships(d).len() <= mid.counters[d].remaining
                &&& mid.counters[d].remaining <= mid.counters[d].total
            } by {
                assert(after.afloat_ships(d).finite());
            }
        }
        assert(mid.wf());
        let done = mid.exposing(ship.nearby_cells);
        lemma_exposing_reveals(mid, ship.nearby_cells);
        lemma_reveal_keeps_wf(mid, done);
        assert(after.ships[s].nearby_cells == ship.nearby_cells);
        assert(after.ships[s].counter == ship.counter);
        assert(after.sunk(s).cells =~~= done.cells);
        assert(after.sunk(s) == done);
        if b.balanced() {
            assert forall|d: int| 0 <= d < mid.counters.len() implies (#[trigger] mid.afloat_ships(
                d,
            )).len() == mid.counters[d].remaining by {
                assert(b.afloat_ships(d).len() == b.counters[d].remaining);
            }
        }
    } else if b.balanced() {
        assert forall|d: int| 0 <= d < after.counters.len() implies (#[trigger] after.afloat_ships(
            d,
        )).len() == after.counters[d].remaining by {
            assert(b.afloat_ships(d).len() == b.counters[d].remaining);
        }
    }
}

/// A hit keeps a board well formed, and balanced if it was.
pub proof fn lemma_hit_keeps_wf(b: BoardView, p: Point)
    requires
        b.wf(),
    ensures
        b.hit(p).wf(),
        b.balanced() ==> b.hit(p).balanced(),
{
    if b.hit_outcome(p) is Ok {
        let opened = b.exposing(seq![p]);
        lemma_exposing_reveals(b, seq![p]);
        lemma_reveal_keeps_wf(b, opened);
        match b.cell(p).content {
            CellContent::Ship(s) => {
                let s = s as int;
                assert(b.in_bounds(p));
                assert(s < b.ships.len());
                assert(b.afloat_cells(s).finite());
                assert(b.afloat_cells(s).contains(p));
                assert(seq![p].contains(p)) by {
                    assert(seq![p][0] == p);
                }
                assert(point_at(p.x as int, p.y as int) == p);
                assert(opened.cell(p).exposed);
                assert(!opened.afloat_cells(s).contains(p));
                assert(opened.afloat_cells(s).subset_of(b.afloat_cells(s).remove(p)));
                lemma_len_subset(opened.afloat_cells(s), b.afloat_cells(s).remove(p));
                lemma_struck_keeps_wf(opened, s);
            },
            _ => {},
        }
    }
}

/// Any run of hits keeps a board well formed, and balanced if it was.
pub proof fn lemma_hit_all_keeps_wf(b: BoardView, points: Seq<Point>)
    requires
        b.wf(),
    ensures
        b.hit_all(points).wf(),
        b.balanced() ==> b.hit_all(points).balanced(),
    decreases points.len(),
{
    if points.len() > 0 {
        lemma_hit_all_keeps_wf(b, points.drop_last());
        lemma_hit_keeps_wf(b.hit_all(points.drop_last()), points.last());
    }
}

/// On a balanced board the game is won exactly when every ship has sunk.
pub proof fn lemma_win_is_all_sunk(b: BoardView)
    requires
        b.wf(),
        b.balanced(),
    ensures
        b.is_win() <==> b.all_sunk(),
{
    if b.is_win() {
        assert forall|s: int| 0 <= s < b.ships.len() implies (#[trigger] b.ships[s]).length == 0 by {
            let c = b.ships[s].counter as int;
            assert(b.ships[s].counter < b.counters.len());
            assert(b.afloat_ships(c).finite());
            assert(b.afloat_ships(c).len() == b.counters[c].remaining);
            assert(b.counters[c].remaining == 0);
            if b.ships[s].length > 0 {
                assert(b.afloat_ships(c).contains(s));
            }
        }
    }
    if b.all_sunk() {
        assert forall|c: int| 0 <= c < b.counters.len() implies (#[trigger] b.counters[c]).remaining
            == 0 by {
            assert(b.afloat_ships(c) =~= Set::<int>::empty());
            assert(b.afloat_ships(c).len() == b.counters[c].remaining);
        }
    }
}

/// Ships keep apart: two cells that touch and both hold a ship hold the same
/// ship. As a cell names at most one ship, no two ships share a cell, and no
/// cell of one ship touches a cell of another, diagonals included.
pub proof fn lemma_ships_keep_apart(b: BoardView, p: Point, q: Point)
    requires
        b.wf(),
        b.in_bounds(p),
        b.in_bounds(q),
        p.touches(q),
        b.cell(p).content is Ship,
        b.cell(q).content is Ship,
    ensures
        b.cell(p).content == b.cell(q).content,
{
}

/// Where the ships are decides what every other cell holds: a cell without
/// a ship is a buffer cell exactly if it touches a cell with a ship, and it
/// then names the ship placed last among those it touches; else it is open
/// water.
pub proof fn lemma_buffer_follows_ships(b: BoardView, p: Point)
    requires
        b.wf(),
        b.in_bounds(p),
        !(b.cell(p).content is Ship),
    ensures
        b.cell(p).content is NearShip <==> exists|q: Point|
            b.in_bounds(q) && #[trigger] p.touches(q) && b.cell(q).content is Ship,
        b.cell(p).content matches CellContent::NearShip(s) ==> {
            &&& exists|q: Point|
                b.in_bounds(q) && #[trigger] p.touches(q) && b.cell(q).content == CellContent::Ship(s)
            &&& forall|q: Point|
                b.in_bounds(q) && #[trigger] p.touches(q) && b.cell(q).content is Ship ==> b.cell(
                    q,
                ).content->Ship_0 <= s
        },
{
    if let CellContent::NearShip(s) = b.cell(p).content {
        let q = choose|q: Point|
            b.in_bounds(q) && #[trigger] p.touches(q) && b.cell(q).content == CellContent::Ship(s);
        assert(b.in_bounds(q) && p.touches(q) && b.cell(q).content is Ship);
    }
    if exists|q: Point| b.in_bounds(q) && #[trigger] p.touches(q) && b.cell(q).content is Ship {
        let q = choose|q: Point|
            b.in_bounds(q) && #[trigger] p.touches(q) && b.cell(q).content is Ship;
        assert(q.touches(p));
    }
}

/// A cell can be hit once: whatever the first hit on `p` gave, a second hit
/// on `p` is refused and leaves the board as the first hit left it. After an
/// accepted hit the refusal is `AlreadyHit`.
pub proof fn lemma_second_hit_refused(b: BoardView, p: Point)
    requires
        b.wf(),
    ensures
        b.hit(p).hit_outcome(p) is Err,
        b.hit_outcome(p) is Ok ==> b.hit(p).hit_outcome(p) == Err::<HitDisplayDiff, HitError>(
            HitError::AlreadyHit,
        ),
        b.hit(p).hit(p) == b.hit(p),
{
    if b.hit_outcome(p) is Ok {
        let opened = b.exposing(seq![p]);
        assert(seq![p].contains(p)) by {
            assert(seq![p][0] == p);
        }
        assert(point_at(p.x as int, p.y as int) == p);
        assert(opened.in_bounds(p) && opened.cell(p).exposed);
        match b.cell(p).content {
            CellContent::Ship(s) => {
                let s = s as int;
                let after = BoardView { ships: opened.ships.update(s, opened.ships[s].struck()), ..opened };
                if opened.ships[s].length == 1 {
                    lemma_exposing_reveals(after, after.ships[s].nearby_cells);
                    let done = after.sunk(s);
                    assert(done.in_bounds(p));
                    assert(done.cells[p.x as int][p.y as int].exposed);
                }
            },
            _ => {},
        }
    }
}

/// On a well-formed board a sunk ship has no unrevealed cell left: a hit on
/// any of its cells is refused as `AlreadyHit` and changes nothing, so its
/// counter cannot go down twice.
pub proof fn lemma_sunk_ship_is_revealed(b: BoardView, s: int, p: Point)
    requires
        b.wf(),
        0 <= s < b.ships.len(),
        b.ships[s].length == 0,
        b.in_bounds(p),
        b.cell(p).content == CellContent::Ship(s as usize),
    ensures
        b.cell(p).exposed,
        b.hit_outcome(p) == Err::<HitDisplayDiff, HitError>(HitError::AlreadyHit),
        b.hit(p) == b,
{
    assert(b.afloat_cells(s).finite());
    if !b.cell(p).exposed {
        assert(b.afloat_cells(s).contains(p));
    }
}

impl BoardView {
    /// Whether `hits` are distinct unrevealed cells of ship `s`.
    pub open spec fn fresh_hits_on(self, s: int, hits: Seq<Point>) -> bool {
        &&& hits.no_duplicates()
        &&& forall|i: int|
            0 <= i < hits.len() ==> {
                &&& self.in_bounds(#[trigger] hits[i])
                &&& self.cell(hits[i]).content == CellContent::Ship(s as usize)
                &&& !self.cell(hits[i]).exposed
            }
    }

    /// The board with the cells of `hits` revealed and ship `s` shorter by
    /// their number.
    pub open spec fn worn_by(self, s: int, hits: Seq<Point>) -> BoardView {
        BoardView {
            ships: self.ships.update(
                s,
                ShipView { length: (self.ships[s].length - hits.len()) as nat, ..self.ships[s] },
            ),
            counters: self.counters,
            cells: reveal_cells(self.cells, hits),
        }
    }
}

/// Fewer distinct hits than a ship is long do not sink it: they reveal the
/// cells hit, shorten the ship by their number, and change nothing else.
pub proof fn lemma_hits_wear_ship(b: BoardView, s: int, hits: Seq<Point>)
    requires
        b.wf(),
        0 <= s < b.ships.len(),
        b.fresh_hits_on(s, hits),
        hits.len() < b.ships[s].length,
    ensures
        b.hit_all(hits) == b.worn_by(s, hits),
    decreases hits.len(),
{
    if hits.len() == 0 {
        assert(b.worn_by(s, hits).ships =~= b.ships);
        assert forall|x: int| 0 <= x < b.cells.len() implies #[trigger] reveal_cells(b.cells, hits)[x]
            =~= b.cells[x] by {}
        assert(b.worn_by(s, hits).cells =~= b.cells);
    } else {
        let head = hits.drop_last();
        let p = hits.last();
        assert forall|i: int| 0 <= i < head.len() implies {
            &&& b.in_bounds(#[trigger] head[i])
            &&& b.cell(head[i]).content == CellContent::Ship(s as usize)
            &&& !b.cell(head[i]).exposed
        } by {
            assert(head[i] == hits[i]);
        }
        lemma_hits_wear_ship(b, s, head);
        let mid = b.worn_by(s, head);
        assert(b.in_bounds(hits[hits.len() - 1]));
        assert(point_at(p.x as int, p.y as int) == p);
        assert(!head.contains(p)) by {
            if head.contains(p) {
                let i = choose|i: int| 0 <= i < head.len() && head[i] == p;
                assert(hits[i] == hits[hits.len() - 1]);
            }
        }
        assert(mid.in_bounds(p));
        assert(mid.cell(p) == b.cell(p));
        assert(mid.hit_outcome(p) is Ok);
        assert(mid.ships[s].length == b.ships[s].length - head.len());
        let opened = mid.exposing(seq![p]);
        let end = mid.hit(p);
        assert(end == opened.struck(s));
        assert(end.ships =~= b.worn_by(s, hits).ships);
        assert forall|q: Point| hits.contains(q) <==> (head.contains(q) || q == p) by {
            if head.contains(q) {
                let i = choose|i: int| 0 <= i < head.len() && head[i] == q;
                assert(hits[i] == q);
            }
            if q == p {
                assert(hits[hits.len() - 1] == p);
            }
            if hits.contains(q) {
                let i = choose|i: int| 0 <= i < hits.len() && hits[i] == q;
                if i < head.len() {
                    assert(head[i] == q);
                }
            }
        }
        assert forall|q: Point| seq![p].contains(q) <==> q == p by {
            assert(seq![p][0] == p);
        }
        assert forall|x: int| 0 <= x < b.cells.len() implies #[trigger] end.cells[x] =~= reveal_cells(
            b.cells,
            hits,
        )[x] by {
            assert forall|y: int| 0 <= y < b.cells[x].len() implies end.cells[x][y] == reveal_cells(
                b.cells,
                hits,
            )[x][y] by {
                let q = point_at(x, y);
            }
        }
        assert(end.cells =~= b.worn_by(s, hits).cells);
    }
}

/// A ship sinks on its last hit and not before. After as many distinct hits
/// on unrevealed cells of ship `s` as the ship is long, the ship has no
/// length left, its class counter is down by exactly one, every cell around
/// it is revealed, and all else is as it was but for the cells hit. Before
/// the last of these hits the ship is afloat and the counters are untouched
/// ([`lemma_hits_wear_ship`]); after it, further hits on the ship are refused
/// ([`lemma_sunk_ship_is_revealed`]).
pub proof fn lemma_last_hit_sinks(b: BoardView, s: int, hits: Seq<Point>)
    requires
        b.wf(),
        0 <= s < b.ships.len(),
        b.fresh_hits_on(s, hits),
        hits.len() == b.ships[s].length,
        hits.len() > 0,
    ensures
        b.hit_all(hits).wf(),
        b.hit_all(hits).ships == b.ships.update(s, ShipView { length: 0, ..b.ships[s] }),
        b.hit_all(hits).counters == b.counters.update(
            b.ships[s].counter as int,
            b.counters[b.ships[s].counter as int].decreased(),
        ),
        b.counters[b.ships[s].counter as int].remaining > 0,
        b.hit_all(hits).cells == reveal_cells(reveal_cells(b.cells, hits), b.ships[s].nearby_cells),
        forall|i: int|
            0 <= i < b.ships[s].nearby_cells.len() ==> b.hit_all(hits).cell(
                #[trigger] b.ships[s].nearby_cells[i],
            ).exposed,
        forall|p: Point|
            b.in_bounds(p) && b.cell(p).content == CellContent::Ship(s as usize) ==> #[trigger] b.hit_all(
                hits,
            ).hit_outcome(p) == Err::<HitDisplayDiff, HitError>(HitError::AlreadyHit),
{
    let head = hits.drop_last();
    let p = hits.last();
    let c = b.ships[s].counter as int;
    lemma_hit_all_keeps_wf(b, hits);
    assert forall|i: int| 0 <= i < head.len() implies {
        &&& b.in_bounds(#[trigger] head[i])
        &&& b.cell(head[i]).content == CellContent::Ship(s as usize)
        &&& !b.cell(head[i]).exposed
    } by {
        assert(head[i] == hits[i]);
    }
    lemma_hits_wear_ship(b, s, head);
    let mid = b.worn_by(s, head);
    assert(b.in_bounds(hits[hits.len() - 1]));
    assert(point_at(p.x as int, p.y as int) == p);
    assert(!head.contains(p)) by {
        if head.contains(p) {
            let i = choose|i: int| 0 <= i < head.len() && head[i] == p;
            assert(hits[i] == hits[hits.len() - 1]);
        }
    }
    assert(mid.in_bounds(p));
    assert(mid.cell(p) == b.cell(p));
    assert(mid.ships[s].length == 1);
    let opened = mid.exposing(seq![p]);
    let end = mid.hit(p);
    assert(end == b.hit_all(hits));
    assert(end == opened.struck(s));
    assert(b.ships[s].counter < b.counters.len());
    assert(b.afloat_ships(c).contains(s));
    assert(b.afloat_ships(c).finite());
    assert(end.ships =~= b.ships.update(s, ShipView { length: 0, ..b.ships[s] }));
    assert(end.counters =~= b.counters.update(c, b.counters[c].decreased()));
    let near = b.ships[s].nearby_cells;
    assert forall|q: Point| hits.contains(q) <==> (head.contains(q) || q == p) by {
        if head.contains(q) {
            let i = choose|i: int| 0 <= i < head.len() && head[i] == q;
            assert(hits[i] == q);
        }
        if q == p {
            assert(hits[hits.len() - 1] == p);
        }
        if hits.contains(q) {
            let i = choose|i: int| 0 <= i < hits.len() && hits[i] == q;
            if i < head.len() {
                assert(head[i] == q);
            }
        }
    }
    assert forall|q: Point| seq![p].contains(q) <==> q == p by {
        assert(seq![p][0] == p);
    }
    let target = reveal_cells(reveal_cells(b.cells, hits), near);
    assert forall|x: int| 0 <= x < b.cells.len() implies #[trigger] end.cells[x] =~= target[x] by {
        assert forall|y: int| 0 <= y < b.cells[x].len() implies end.cells[x][y] == target[x][y] by {
            let q = point_at(x, y);
        }
    }
    assert(end.cells =~= target);
    assert forall|i: int| 0 <= i < near.len() implies end.cell(#[trigger] near[i]).exposed by {
        let q = near[i];
        assert(b.in_bounds(q));
        assert(point_at(q.x as int, q.y as int) == q);
        assert(near.contains(q));
    }
    assert forall|q: Point|
        b.in_bounds(q) && b.cell(q).content == CellContent::Ship(s as usize) implies #[trigger] end.hit_outcome(
        q,
    ) == Err::<HitDisplayDiff, HitError>(HitError::AlreadyHit) by {
        assert(end.in_bounds(q));
        assert(end.cell(q).content == b.cell(q).content);
        lemma_sunk_ship_is_revealed(end, s, q);
    }
}

} // verus!
