use battleship::game::ui::{cell_class, counter_class, int_to_letter};
use battleship::game::{CellContent, CellState, ShipCounter};

#[test]
fn columns_are_named_by_letters() {
    assert_eq!(int_to_letter(0), 'А');
    assert_eq!(int_to_letter(1), 'Б');
    assert_eq!(int_to_letter(9), 'К');
    assert_eq!(int_to_letter(27), 'Я');
    let all: String = (0..28).map(int_to_letter).collect();
    assert_eq!(all, "АБВГДЕЖЗИКЛМНОПРСТУФХЦЧШЩЭЮЯ");
}

#[test]
fn columns_past_the_alphabet_get_a_tilde() {
    assert_eq!(int_to_letter(28), '~');
    assert_eq!(int_to_letter(usize::MAX), '~');
}

#[test]
fn counter_is_marked_when_its_class_is_defeated() {
    assert_eq!(counter_class(&ShipCounter::new("Boat".to_string(), 1)), "ship-counter");
    assert_eq!(counter_class(&ShipCounter::new("Boat".to_string(), 0)), "ship-counter defeated");
    let mut counter = ShipCounter::new("Boat".to_string(), 2);
    counter.decrease();
    assert_eq!(counter.remaining(), 1);
    assert_eq!(counter.total(), 2);
    assert_eq!(counter_class(&counter), "ship-counter");
    counter.decrease();
    assert!(counter.is_defeated());
    assert_eq!(counter_class(&counter), "ship-counter defeated");
}

#[test]
fn cell_shows_what_it_holds_once_revealed() {
    let mut water = CellState::default();
    let mut ship = CellState { content: CellContent::Ship(0), exposed: false };
    let mut near = CellState { content: CellContent::NearShip(0), exposed: false };
    assert_eq!(cell_class(&water), "cell active");
    assert_eq!(cell_class(&ship), "cell active");
    water.expose();
    ship.expose();
    near.expose();
    assert_eq!(cell_class(&water), "cell water");
    assert_eq!(cell_class(&ship), "cell ship");
    assert_eq!(cell_class(&near), "cell water");
    assert_eq!(ship.content.get_ship(), Some(0));
    assert_eq!(near.content.get_ship(), None);
    assert_eq!(near.content.get_collision(), Some(0));
    assert_eq!(water.content.get_collision(), None);
    assert!(ship.content.contains_ship());
}
