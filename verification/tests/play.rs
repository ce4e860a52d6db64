use battleship::game::{
    Board, BoardBuilder, CellContent, HitDisplayDiff, HitError, Point, ShipDefinition,
};

/// A 10x10 board with ship "A" on (1,1)..(4,1) and ship "B" on (7,7).
fn two_ships() -> Board {
    let mut builder = BoardBuilder::square(10);
    let a = builder.add_counter(&ShipDefinition::new("A", 4, 1));
    let b = builder.add_counter(&ShipDefinition::new("B", 1, 1));
    builder.add_ship_at(4, a, true, Point::new(1, 1)).expect("room for A");
    builder.add_ship_at(1, b, true, Point::new(7, 7)).expect("room for B");
    builder.build()
}

fn exposed(board: &Board, x: u8, y: u8) -> bool {
    board.get_cell(Point::new(x, y)).expect("cell on the grid").exposed
}

#[test]
fn hit_on_water_reveals_one_cell() {
    let mut board = two_ships();
    let diff = board.hit(Point::new(9, 0)).expect("an unrevealed cell");
    assert_eq!(diff, HitDisplayDiff { cell: Point::new(9, 0), sank_ship: None });
    assert_eq!(diff, HitDisplayDiff::single_cell(Point::new(9, 0)));
    for x in 0..10 {
        for y in 0..10 {
            assert_eq!(exposed(&board, x, y), (x, y) == (9, 0));
        }
    }
    assert_eq!(board.ships()[0].length(), 4);
    assert_eq!(board.counters()[0].remaining(), 1);
}

#[test]
fn hit_off_the_grid_is_out_of_bounds() {
    let mut board = two_ships();
    assert_eq!(board.hit(Point::new(10, 0)), Err(HitError::OutOfBounds));
    assert_eq!(board.hit(Point::new(0, 10)), Err(HitError::OutOfBounds));
    assert_eq!(board.hit(Point::new(255, 255)), Err(HitError::OutOfBounds));
    for x in 0..10 {
        for y in 0..10 {
            assert!(!exposed(&board, x, y));
        }
    }
}

#[test]
fn second_hit_on_a_cell_is_refused_and_changes_nothing() {
    let mut board = two_ships();
    assert!(board.hit(Point::new(2, 1)).is_ok());
    let after_first = format!("{board:?}");
    assert_eq!(board.hit(Point::new(2, 1)), Err(HitError::AlreadyHit));
    assert_eq!(format!("{board:?}"), after_first);
    assert_eq!(board.ships()[0].length(), 3);
}

#[test]
fn ship_sinks_on_its_last_hit() {
    let mut board = two_ships();
    for (i, x) in [3u8, 1, 4].iter().enumerate() {
        let diff = board.hit(Point::new(*x, 1)).expect("an unrevealed cell");
        assert_eq!(diff.sank_ship, None);
        assert_eq!(board.ships()[0].length(), 3 - i);
        assert!(!board.ships()[0].has_sank());
        assert_eq!(board.counters()[0].remaining(), 1);
        assert!(!exposed(&board, 0, 0));
    }
    let diff = board.hit(Point::new(2, 1)).expect("an unrevealed cell");
    assert_eq!(diff, HitDisplayDiff::sank_ship(Point::new(2, 1), 0));
    assert_eq!(diff.sank_ship, Some(0));
    assert!(board.ships()[0].has_sank());
    assert_eq!(board.ships()[0].length(), 0);
    assert_eq!(board.counters()[0].remaining(), 0);
    assert_eq!(board.counters()[0].total(), 1);
    assert!(board.counters()[0].is_defeated());
    // "B" is unaffected.
    assert_eq!(board.counters()[1].remaining(), 1);
    assert_eq!(board.ships()[1].length(), 1);
    // Exactly the ship and the cells around it are revealed.
    for x in 0..10 {
        for y in 0..10 {
            assert_eq!(exposed(&board, x, y), x <= 5 && y <= 2, "at {x}-{y}");
        }
    }
    for near in board.ships()[0].nearby_cells() {
        assert!(board.get_cell(*near).expect("on the grid").exposed);
    }
    assert_eq!(board.ships()[0].nearby_cells().len(), 14);
}

#[test]
fn sunk_ship_takes_no_further_hit() {
    let mut board = two_ships();
    for x in 1..=4 {
        assert!(board.hit(Point::new(x, 1)).is_ok());
    }
    for x in 0..=5 {
        for y in 0..=2 {
            assert_eq!(board.hit(Point::new(x, y)), Err(HitError::AlreadyHit));
        }
    }
    assert_eq!(board.counters()[0].remaining(), 0);
    assert_eq!(board.ships()[0].length(), 0);
}

#[test]
fn game_is_won_when_the_last_ship_sinks() {
    let mut board = two_ships();
    assert!(!board.is_win());
    for x in 1..=4 {
        assert!(!board.is_win());
        assert!(board.hit(Point::new(x, 1)).is_ok());
    }
    assert!(!board.is_win());
    let diff = board.hit(Point::new(7, 7)).expect("an unrevealed cell");
    assert_eq!(diff.sank_ship, Some(1));
    assert_eq!(board.counters()[1].remaining(), 0);
    assert!(board.is_win());
}

#[test]
fn one_ship_of_one_cell_is_won_by_one_hit() {
    let mut builder = BoardBuilder::square(3);
    let class = builder.add_counter(&ShipDefinition::new("Boat", 1, 1));
    builder.add_ship_instance(class, vec![Point::new(1, 1)]).expect("an empty board");
    let mut board = builder.build();
    assert!(!board.is_win());
    assert!(board.hit(Point::new(0, 0)).is_ok());
    assert!(!board.is_win());
    assert_eq!(board.hit(Point::new(1, 1)).map(|diff| diff.sank_ship), Ok(Some(0)));
    assert!(board.is_win());
}

#[test]
fn class_of_two_goes_down_one_ship_at_a_time() {
    let mut builder = BoardBuilder::square(6);
    let class = builder.add_counter(&ShipDefinition::new("Boat", 1, 2));
    builder.add_ship_instance(class, vec![Point::new(0, 0)]).expect("an empty board");
    builder.add_ship_instance(class, vec![Point::new(5, 5)]).expect("far from the first");
    let mut board = builder.build();
    assert_eq!(board.hit(Point::new(0, 0)).map(|diff| diff.sank_ship), Ok(Some(0)));
    assert_eq!(board.counters()[0].remaining(), 1);
    assert!(!board.is_win());
    assert_eq!(board.hit(Point::new(5, 5)).map(|diff| diff.sank_ship), Ok(Some(1)));
    assert_eq!(board.counters()[0].remaining(), 0);
    assert!(board.is_win());
}

#[test]
fn hit_on_a_revealed_buffer_cell_is_refused() {
    let mut board = two_ships();
    // Reveal a cell next to "A" before the ship sinks.
    assert!(board.hit(Point::new(0, 0)).is_ok());
    for x in 1..=4 {
        assert!(board.hit(Point::new(x, 1)).is_ok());
    }
    assert!(exposed(&board, 0, 0));
    assert_eq!(board.hit(Point::new(0, 0)), Err(HitError::AlreadyHit));
}

#[test]
fn random_board_plays_to_a_win() {
    let fleet = [ShipDefinition::new("A", 4, 1), ShipDefinition::new("B", 1, 1)];
    let mut board = BoardBuilder::square(10).random(&fleet).expect("room for both");
    let mut cells: Vec<Vec<Point>> = vec![Vec::new(); 2];
    for x in 0..10u8 {
        for y in 0..10u8 {
            let p = Point::new(x, y);
            if let CellContent::Ship(ship) = board.get_cell(p).expect("on the grid").content {
                cells[ship].push(p);
            }
        }
    }
    assert_eq!(cells[0].len(), 4);
    assert_eq!(cells[1].len(), 1);
    for (i, p) in cells[0].iter().enumerate() {
        let diff = board.hit(*p).expect("an unrevealed cell");
        assert_eq!(diff.cell, *p);
        assert_eq!(diff.sank_ship, if i == 3 { Some(0) } else { None });
    }
    assert_eq!(board.counters()[0].name(), "A");
    assert_eq!(board.counters()[0].remaining(), 0);
    assert_eq!(board.counters()[1].name(), "B");
    assert_eq!(board.counters()[1].remaining(), 1);
    for near in board.ships()[0].nearby_cells() {
        assert!(board.get_cell(*near).expect("on the grid").exposed);
    }
    assert!(!board.is_win());
    assert_eq!(board.hit(cells[1][0]).map(|diff| diff.sank_ship), Ok(Some(1)));
    assert!(board.is_win());
}
