use battleship::game::{Board, BoardBuilder, HitError, Point, ShipDefinition};
use battleship::session::{Session, Store, StoreError, Turn, TurnError};

/// A 4x4 board with one ship on (1,1).
fn small_board() -> Board {
    let mut builder = BoardBuilder::square(4);
    let class = builder.add_counter(&ShipDefinition::new("Boat", 1, 1));
    builder.add_ship_instance(class, vec![Point::new(1, 1)]).expect("an empty board");
    builder.build()
}

#[test]
fn new_store_is_empty() {
    let store = Store::new(60);
    assert_eq!(store.session_lifetime(), 60);
    assert!(!store.contains(0));
    assert!(store.get_session(0).is_none());
}

#[test]
fn session_runs_out_a_lifetime_after_it_was_created() {
    let mut store = Store::new(60);
    let id = store.create(small_board(), 1_000).expect("an empty store has room");
    assert!(store.contains(id));
    let session = store.get_session(id).expect("just created");
    assert_eq!(session.expires(), 1_060);
    assert!(session.is_live(1_059));
    assert!(!session.is_live(1_060));
    assert_eq!(session.board.width(), 4);
}

#[test]
fn sweep_removes_what_has_run_out() {
    let mut store = Store::new(60);
    let id = store.create(small_board(), 1_000).expect("room");
    store.cleanup(1_000);
    assert!(store.contains(id));
    store.cleanup(1_059);
    assert!(store.get_session(id).is_some());
    store.cleanup(1_060);
    assert!(!store.contains(id));
    assert!(store.get_session(id).is_none());
}

#[test]
fn sweep_keeps_the_sessions_with_time_left() {
    let mut store = Store::new(10);
    let early = store.create(small_board(), 100).expect("room");
    let late = store.create(small_board(), 200).expect("room");
    assert_ne!(early, late);
    store.cleanup(150);
    assert!(!store.contains(early));
    assert!(store.contains(late));
    assert_eq!(store.get_session(late).expect("kept").expires(), 210);
}

#[test]
fn expired_session_is_served_until_it_is_swept() {
    let mut store = Store::new(-5);
    let id = store.create(small_board(), 100).expect("room");
    assert_eq!(store.get_session(id).expect("not swept yet").expires(), 95);
    store.cleanup(95);
    assert!(!store.contains(id));
}

#[test]
fn removal_is_immediate() {
    let mut store = Store::new(3_600);
    let id = store.create(small_board(), 0).expect("room");
    assert_eq!(store.remove_session(id), Ok(()));
    assert!(!store.contains(id));
    assert!(store.get_session(id).is_none());
    assert_eq!(store.remove_session(id), Err(StoreError::NotFound));
}

#[test]
fn insert_refuses_an_id_in_use() {
    let mut store = Store::new(60);
    assert_eq!(store.insert(7, Session::new(small_board(), 50)), Ok(()));
    assert!(store.contains(7));
    assert!(!store.contains(8));
    assert_eq!(store.insert(7, Session::new(small_board(), 99)), Err(StoreError::IdTaken));
    assert_eq!(store.get_session(7).expect("still there").expires(), 50);
    assert_eq!(store.insert(8, Session::new(small_board(), 99)), Ok(()));
    assert_eq!(store.get_session(8).expect("added").expires(), 99);
}

#[test]
fn fresh_ids_differ_and_are_vacant() {
    let mut store = Store::new(60);
    let mut ids = Vec::new();
    for _ in 0..50 {
        let vacant = store.get_vacant_id().expect("a store this small has room");
        assert!(!store.contains(vacant));
        let id = store.insert_new(Session::new(small_board(), 0)).expect("room");
        assert!(!ids.contains(&id));
        assert!(store.contains(id));
        ids.push(id);
    }
    for id in ids {
        assert!(store.contains(id));
    }
}

#[test]
fn new_session_counts_from_the_wall_clock() {
    let mut store = Store::new(3_600);
    let before = std::time::SystemTime::now()
        .duration_since(std::time::UNIX_EPOCH)
        .expect("a clock after 1970")
        .as_secs() as i128;
    let id = store.new_session(small_board()).expect("room");
    let expires = store.get_session(id).expect("just created").expires();
    assert!(expires >= before + 3_600);
    assert!(expires <= before + 3_600 + 5);
    store.cleanup_now();
    assert!(store.contains(id));
}

#[test]
fn clock_sweep_removes_sessions_of_the_past() {
    let mut store = Store::new(60);
    let old = store.create(small_board(), 0).expect("room");
    let current = store.new_session(small_board()).expect("room");
    store.cleanup_now();
    assert!(!store.contains(old));
    assert!(store.contains(current));
}

#[test]
fn turn_moves_the_stored_game_on() {
    let mut store = Store::new(60);
    let id = store.create(small_board(), 0).expect("room");
    let turn = store.hit(id, Point::new(3, 3)).expect("an unrevealed cell");
    assert_eq!(turn.diff.cell, Point::new(3, 3));
    assert_eq!(turn.diff.sank_ship, None);
    assert!(!turn.win);
    let session = store.get_session(id).expect("the game goes on");
    assert!(session.board.get_cell(Point::new(3, 3)).expect("on the grid").exposed);
    assert_eq!(session.expires(), 60);
}

#[test]
fn refused_turn_leaves_the_game() {
    let mut store = Store::new(60);
    let id = store.create(small_board(), 0).expect("room");
    assert_eq!(store.hit(id, Point::new(4, 0)), Err(TurnError::Hit(HitError::OutOfBounds)));
    assert!(store.hit(id, Point::new(0, 0)).is_ok());
    assert_eq!(store.hit(id, Point::new(0, 0)), Err(TurnError::Hit(HitError::AlreadyHit)));
    let session = store.get_session(id).expect("still there");
    assert!(session.board.get_cell(Point::new(0, 0)).expect("on the grid").exposed);
    assert!(!session.board.get_cell(Point::new(1, 1)).expect("on the grid").exposed);
}

#[test]
fn turn_on_an_unknown_game_is_not_found() {
    let mut store = Store::new(60);
    assert_eq!(store.hit(42, Point::new(0, 0)), Err(TurnError::NotFound));
    let id = store.create(small_board(), 0).expect("room");
    store.cleanup(60);
    assert_eq!(store.hit(id, Point::new(0, 0)), Err(TurnError::NotFound));
}

#[test]
fn winning_turn_removes_the_session() {
    let mut store = Store::new(60);
    let id = store.create(small_board(), 0).expect("room");
    let other = store.create(small_board(), 0).expect("room");
    let turn = store.hit(id, Point::new(1, 1)).expect("an unrevealed cell");
    assert_eq!(
        turn,
        Turn {
            diff: battleship::game::HitDisplayDiff { cell: Point::new(1, 1), sank_ship: Some(0) },
            win: true
        }
    );
    assert!(!store.contains(id));
    assert!(store.contains(other));
    assert!(!store
        .get_session(other)
        .expect("untouched")
        .board
        .get_cell(Point::new(1, 1))
        .expect("on the grid")
        .exposed);
}
