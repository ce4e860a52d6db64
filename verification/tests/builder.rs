use battleship::game::{
    Board, BoardBuilder, CellContent, CellState, PlacementExhausted, Point, ShipAddError,
    ShipDefinition,
};

fn cell(board: &Board, x: u8, y: u8) -> CellState {
    board.get_cell(Point::new(x, y)).expect("cell on the grid")
}

#[test]
fn new_grid_is_unrevealed_water() {
    let board = BoardBuilder::new(Point::new(3, 2)).build();
    assert_eq!(board.width(), 3);
    assert_eq!(board.height(), 2);
    for x in 0..3 {
        for y in 0..2 {
            assert_eq!(cell(&board, x, y), CellState::default());
            assert_eq!(cell(&board, x, y).content, CellContent::Water);
            assert!(!cell(&board, x, y).exposed);
        }
    }
    assert_eq!(board.get_cell(Point::new(3, 0)), None);
    assert_eq!(board.get_cell(Point::new(0, 2)), None);
    assert!(board.ships().is_empty());
    assert!(board.counters().is_empty());
}

#[test]
fn square_has_equal_sides() {
    let builder = BoardBuilder::square(10);
    assert_eq!(builder.bounds(), Point::new(10, 10));
    let board = builder.build();
    assert_eq!(board.width(), 10);
    assert_eq!(board.height(), 10);
    assert_eq!(board.get_cell(Point::new(9, 9)), Some(CellState::default()));
    assert_eq!(board.get_cell(Point::new(10, 9)), None);
}

#[test]
fn empty_grid_has_no_cell() {
    let board = BoardBuilder::square(0).build();
    assert_eq!(board.width(), 0);
    assert_eq!(board.height(), 0);
    assert_eq!(board.get_cell(Point::new(0, 0)), None);
    assert!(board.is_win());
}

#[test]
fn class_starts_with_all_ships_remaining() {
    let mut builder = BoardBuilder::square(5);
    let first = builder.add_counter(&ShipDefinition::new("Cruiser", 3, 2));
    let second = builder.add_counter(&ShipDefinition::new("Boat", 1, 4));
    assert_eq!((first, second), (0, 1));
    let board = builder.build();
    let counters = board.counters();
    assert_eq!(counters.len(), 2);
    assert_eq!(counters[0].name(), "Cruiser");
    assert_eq!(counters[0].total(), 2);
    assert_eq!(counters[0].remaining(), 2);
    assert!(!counters[0].is_defeated());
    assert_eq!(counters[1].name(), "Boat");
    assert_eq!(counters[1].total(), 4);
    assert_eq!(counters[1].remaining(), 4);
}

#[test]
fn placed_ship_takes_its_cells_and_reserves_those_around() {
    let mut builder = BoardBuilder::square(6);
    let class = builder.add_counter(&ShipDefinition::new("Cruiser", 2, 1));
    let points = vec![Point::new(1, 1), Point::new(2, 1)];
    assert_eq!(builder.add_ship_instance(class, points), Ok(()));
    let board = builder.build();
    for x in 0..6u8 {
        for y in 0..6u8 {
            let expected = if y == 1 && (x == 1 || x == 2) {
                CellContent::Ship(0)
            } else if x <= 3 && y <= 2 {
                CellContent::NearShip(0)
            } else {
                CellContent::Water
            };
            assert_eq!(cell(&board, x, y).content, expected, "at {x}-{y}");
            assert!(!cell(&board, x, y).exposed);
        }
    }
    let ship = &board.ships()[0];
    assert_eq!(ship.length(), 2);
    assert_eq!(ship.counter(), class);
    assert!(!ship.has_sank());
    // Scan order: around the first point column by column, then what the
    // second point adds.
    let expected: Vec<Point> = [
        (0, 0), (0, 1), (0, 2), (1, 0), (1, 2), (2, 0), (2, 2), (3, 0), (3, 1), (3, 2),
    ]
    .iter()
    .map(|&(x, y)| Point::new(x, y))
    .collect();
    assert_eq!(ship.nearby_cells(), &expected);
}

#[test]
fn halo_is_cut_at_the_edge_and_holds_each_cell_once() {
    let mut builder = BoardBuilder::square(3);
    let class = builder.add_counter(&ShipDefinition::new("Boat", 3, 1));
    let points = vec![Point::new(0, 0), Point::new(0, 1), Point::new(0, 2)];
    assert_eq!(builder.add_ship_instance(class, points), Ok(()));
    let board = builder.build();
    let near = board.ships()[0].nearby_cells().clone();
    assert_eq!(near, vec![Point::new(1, 0), Point::new(1, 1), Point::new(1, 2)]);
}

#[test]
fn placement_needs_points_a_class_and_room_in_it() {
    let mut builder = BoardBuilder::square(6);
    assert_eq!(
        builder.add_ship_instance(0, vec![Point::new(0, 0)]),
        Err(ShipAddError::InternalError)
    );
    let class = builder.add_counter(&ShipDefinition::new("Boat", 1, 1));
    assert_eq!(builder.add_ship_instance(class, vec![]), Err(ShipAddError::InternalError));
    assert_eq!(
        builder.add_ship_instance(class + 1, vec![Point::new(0, 0)]),
        Err(ShipAddError::InternalError)
    );
    assert_eq!(builder.add_ship_instance(class, vec![Point::new(0, 0)]), Ok(()));
    assert_eq!(
        builder.add_ship_instance(class, vec![Point::new(4, 4)]),
        Err(ShipAddError::InternalError)
    );
    let empty = builder.add_counter(&ShipDefinition::new("None", 1, 0));
    assert_eq!(
        builder.add_ship_instance(empty, vec![Point::new(4, 4)]),
        Err(ShipAddError::InternalError)
    );
}

#[test]
fn placement_off_the_grid_is_out_of_bounds() {
    let mut builder = BoardBuilder::square(4);
    let class = builder.add_counter(&ShipDefinition::new("Boat", 2, 3));
    assert_eq!(
        builder.add_ship_instance(class, vec![Point::new(3, 3), Point::new(4, 3)]),
        Err(ShipAddError::OutOfBounds)
    );
    assert_eq!(
        builder.add_ship_instance(class, vec![Point::new(0, 4)]),
        Err(ShipAddError::OutOfBounds)
    );
    // The last cell of the grid is on it.
    assert_eq!(
        builder.add_ship_instance(class, vec![Point::new(2, 3), Point::new(3, 3)]),
        Ok(())
    );
    // Out of bounds is reported before any collision.
    assert_eq!(
        builder.add_ship_instance(class, vec![Point::new(3, 3), Point::new(4, 3)]),
        Err(ShipAddError::OutOfBounds)
    );
}

#[test]
fn placement_on_or_next_to_a_ship_collides() {
    let mut builder = BoardBuilder::square(8);
    let class = builder.add_counter(&ShipDefinition::new("Boat", 2, 4));
    assert_eq!(
        builder.add_ship_instance(class, vec![Point::new(3, 3), Point::new(4, 3)]),
        Ok(())
    );
    assert_eq!(
        builder.add_ship_instance(class, vec![Point::new(4, 3), Point::new(5, 3)]),
        Err(ShipAddError::Collision { point: Point::new(4, 3) })
    );
    // Diagonal neighbours are too close.
    assert_eq!(
        builder.add_ship_instance(class, vec![Point::new(6, 5), Point::new(5, 4)]),
        Err(ShipAddError::Collision { point: Point::new(5, 4) })
    );
    // The first blocked point in the order given is the one reported.
    assert_eq!(
        builder.add_ship_instance(class, vec![Point::new(2, 2), Point::new(2, 3)]),
        Err(ShipAddError::Collision { point: Point::new(2, 2) })
    );
    // One cell of open water between two ships is enough.
    assert_eq!(
        builder.add_ship_instance(class, vec![Point::new(6, 3), Point::new(7, 3)]),
        Ok(())
    );
    let board = builder.build();
    assert_eq!(board.ships().len(), 2);
    // The cell between them is the buffer of the ship placed last.
    assert_eq!(cell(&board, 5, 3).content, CellContent::NearShip(1));
    assert_eq!(cell(&board, 4, 3).content, CellContent::Ship(0));
}

#[test]
fn refused_placement_changes_nothing() {
    let mut builder = BoardBuilder::square(5);
    let class = builder.add_counter(&ShipDefinition::new("Boat", 1, 2));
    assert_eq!(builder.add_ship_instance(class, vec![Point::new(2, 2)]), Ok(()));
    assert!(builder.add_ship_instance(class, vec![Point::new(0, 0), Point::new(1, 1)]).is_err());
    assert!(builder.add_ship_instance(class, vec![Point::new(0, 0), Point::new(0, 5)]).is_err());
    let board = builder.build();
    assert_eq!(board.ships().len(), 1);
    assert_eq!(cell(&board, 0, 0).content, CellContent::Water);
    assert_eq!(cell(&board, 1, 1).content, CellContent::NearShip(0));
    // The slot that the refused ships did not take is still free.
    let mut again = BoardBuilder::square(5);
    let class = again.add_counter(&ShipDefinition::new("Boat", 1, 2));
    assert_eq!(again.add_ship_instance(class, vec![Point::new(2, 2)]), Ok(()));
    assert!(again.add_ship_instance(class, vec![Point::new(2, 2)]).is_err());
    assert_eq!(again.add_ship_instance(class, vec![Point::new(4, 4)]), Ok(()));
}

#[test]
fn ship_at_runs_right_or_down_from_its_start() {
    let mut builder = BoardBuilder::square(10);
    let class = builder.add_counter(&ShipDefinition::new("Cruiser", 3, 2));
    assert_eq!(builder.add_ship_at(3, class, true, Point::new(7, 0)), Ok(()));
    assert_eq!(builder.add_ship_at(3, class, false, Point::new(0, 7)), Ok(()));
    let board = builder.build();
    for i in 0..3 {
        assert_eq!(cell(&board, 7 + i, 0).content, CellContent::Ship(0));
        assert_eq!(cell(&board, 0, 7 + i).content, CellContent::Ship(1));
    }
    assert_eq!(cell(&board, 6, 0).content, CellContent::NearShip(0));
    assert_eq!(cell(&board, 7, 1).content, CellContent::NearShip(0));
}

#[test]
fn ship_at_must_stay_on_the_grid() {
    let mut builder = BoardBuilder::square(10);
    let class = builder.add_counter(&ShipDefinition::new("Cruiser", 3, 2));
    assert_eq!(
        builder.add_ship_at(3, class, true, Point::new(8, 0)),
        Err(ShipAddError::OutOfBounds)
    );
    assert_eq!(
        builder.add_ship_at(3, class, false, Point::new(0, 254)),
        Err(ShipAddError::OutOfBounds)
    );
    assert_eq!(
        builder.add_ship_at(0, class, true, Point::new(0, 0)),
        Err(ShipAddError::InternalError)
    );
    assert!(builder.build().ships().is_empty());
}

#[test]
fn random_fleet_has_the_ships_asked_for() {
    let fleet = [
        ShipDefinition::new("Battleship", 4, 1),
        ShipDefinition::new("Cruiser", 3, 2),
        ShipDefinition::new("Destroyer", 2, 3),
        ShipDefinition::new("Boat", 1, 4),
    ];
    for _ in 0..20 {
        let board = BoardBuilder::square(10).random(&fleet).expect("a fleet that fits");
        assert_eq!(board.counters().len(), 4);
        assert_eq!(board.ships().len(), 10);
        let lengths: Vec<usize> = board.ships().iter().map(|ship| ship.length()).collect();
        assert_eq!(lengths, vec![4, 3, 3, 2, 2, 2, 1, 1, 1, 1]);
        let classes: Vec<usize> = board.ships().iter().map(|ship| ship.counter()).collect();
        assert_eq!(classes, vec![0, 1, 1, 2, 2, 2, 3, 3, 3, 3]);
        for (class, definition) in fleet.iter().enumerate() {
            assert_eq!(board.counters()[class].total(), definition.count());
            assert_eq!(board.counters()[class].remaining(), definition.count());
        }
        assert!(!board.is_win());
    }
}

#[test]
fn random_ships_are_straight_and_keep_apart() {
    let fleet = [
        ShipDefinition::new("Battleship", 4, 1),
        ShipDefinition::new("Cruiser", 3, 2),
        ShipDefinition::new("Destroyer", 2, 3),
        ShipDefinition::new("Boat", 1, 4),
    ];
    for _ in 0..20 {
        let board = BoardBuilder::square(10).random(&fleet).expect("a fleet that fits");
        let mut cells: Vec<Vec<Point>> = vec![Vec::new(); board.ships().len()];
        for x in 0..10u8 {
            for y in 0..10u8 {
                let here = cell(&board, x, y);
                assert!(!here.exposed);
                if let CellContent::Ship(ship) = here.content {
                    cells[ship].push(Point::new(x, y));
                    for dx in -1..=1isize {
                        for dy in -1..=1isize {
                            let around = Point::new(x, y)
                                .try_add_delta(dx, dy)
                                .and_then(|p| board.get_cell(p));
                            match around {
                                None => {}
                                Some(other) => assert!(
                                    other.content == CellContent::Ship(ship)
                                        || matches!(other.content, CellContent::NearShip(_))
                                ),
                            }
                        }
                    }
                }
            }
        }
        for (ship, taken) in cells.iter().enumerate() {
            assert_eq!(taken.len(), board.ships()[ship].length());
            let first = taken[0];
            let across = taken.iter().all(|p| p.y == first.y);
            let down = taken.iter().all(|p| p.x == first.x);
            assert!(across || down);
            for (i, p) in taken.iter().enumerate() {
                if across {
                    assert_eq!(p.x as usize, first.x as usize + i);
                } else {
                    assert_eq!(p.y as usize, first.y as usize + i);
                }
            }
        }
    }
}

#[test]
fn random_ship_fills_a_grid_of_its_size() {
    let board = BoardBuilder::new(Point::new(1, 4))
        .random(&[ShipDefinition::new("Cruiser", 4, 1)])
        .expect("the one run that fits is found");
    for y in 0..4 {
        assert_eq!(cell(&board, 0, y).content, CellContent::Ship(0));
    }
    assert!(board.ships()[0].nearby_cells().is_empty());
}

#[test]
fn random_placement_takes_both_orientations() {
    let mut across = 0;
    let mut down = 0;
    for _ in 0..200 {
        let board = BoardBuilder::square(10)
            .random(&[ShipDefinition::new("Cruiser", 2, 1)])
            .expect("an empty board has room");
        let mut taken = Vec::new();
        for x in 0..10u8 {
            for y in 0..10u8 {
                if cell(&board, x, y).contains_ship() {
                    taken.push(Point::new(x, y));
                }
            }
        }
        assert_eq!(taken.len(), 2);
        if taken[0].y == taken[1].y {
            across += 1;
        } else {
            down += 1;
        }
    }
    assert!(across > 0 && down > 0);
}

#[test]
fn fleet_that_cannot_fit_exhausts_the_attempts() {
    // A ship longer than the grid is wide.
    let too_long = BoardBuilder::square(3).random(&[ShipDefinition::new("Battleship", 4, 1)]);
    assert_eq!(too_long.err(), Some(PlacementExhausted));
    // Two ships on a grid where the first leaves no open water.
    let crowded = BoardBuilder::square(2).random(&[ShipDefinition::new("Boat", 1, 2)]);
    assert_eq!(crowded.err(), Some(PlacementExhausted));
    // A ship without cells.
    let nothing = BoardBuilder::square(5).random(&[ShipDefinition::new("Ghost", 0, 1)]);
    assert_eq!(nothing.err(), Some(PlacementExhausted));
}

#[test]
fn random_with_no_class_or_no_ship_places_nothing() {
    let board = BoardBuilder::square(5).random(&[]).expect("nothing to place");
    assert!(board.ships().is_empty());
    assert!(board.is_win());
    let board = BoardBuilder::square(5)
        .random(&[ShipDefinition::new("Cruiser", 3, 0)])
        .expect("nothing to place");
    assert!(board.ships().is_empty());
    assert_eq!(board.counters()[0].total(), 0);
    assert!(board.is_win());
}

#[test]
fn random_ship_on_its_own_can_fail_and_leave_the_builder() {
    let mut builder = BoardBuilder::square(2);
    let class = builder.add_counter(&ShipDefinition::new("Boat", 1, 2));
    assert_eq!(builder.add_ship_random(1, class), Ok(()));
    assert_eq!(builder.add_ship_random(1, class), Err(PlacementExhausted));
    let board = builder.build();
    assert_eq!(board.ships().len(), 1);
}

#[test]
fn definition_keeps_what_it_was_given() {
    let definition = ShipDefinition::new("Cruiser", 3, 2);
    assert_eq!(definition.length(), 3);
    assert_eq!(definition.count(), 2);
    let copy = definition.clone();
    assert_eq!(copy.length(), 3);
    let counter = definition.to_counter();
    assert_eq!(counter.name(), "Cruiser");
    assert_eq!(counter.total(), 2);
    assert_eq!(counter.remaining(), 2);
}
