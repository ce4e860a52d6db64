use battleship::game::{ParseError, Point};

#[test]
fn writes_x_then_y() {
    assert_eq!(Point::new(3, 14).to_string(), "3-14");
    assert_eq!(Point::new(0, 0).to_string(), "0-0");
    assert_eq!(Point::new(255, 100).to_string(), "255-100");
}

#[test]
fn reads_what_it_wrote() {
    for x in 0..=255u8 {
        for y in [0u8, 1, 9, 10, 99, 100, 199, 200, 255] {
            let p = Point::new(x, y);
            assert_eq!(Point::parse(&p.to_string()), Ok(p));
        }
    }
}

#[test]
fn refuses_text_without_hyphen() {
    assert_eq!(Point::parse("3"), Err(ParseError::MissingSeparator));
    assert_eq!(Point::parse(""), Err(ParseError::MissingSeparator));
}

#[test]
fn refuses_bad_numbers() {
    assert_eq!(Point::parse("a-1"), Err(ParseError::InvalidX));
    assert_eq!(Point::parse("-1"), Err(ParseError::InvalidX));
    assert_eq!(Point::parse("256-1"), Err(ParseError::InvalidX));
    assert_eq!(Point::parse("1-1-1"), Err(ParseError::InvalidY));
    assert_eq!(Point::parse("1-"), Err(ParseError::InvalidY));
    assert_eq!(Point::parse("1-300"), Err(ParseError::InvalidY));
    assert_eq!(Point::parse("1-2x"), Err(ParseError::InvalidY));
    assert_eq!(Point::parse("1-é"), Err(ParseError::InvalidY));
}

#[test]
fn reads_signs_and_leading_zeros() {
    assert_eq!(Point::parse("+3-007"), Ok(Point::new(3, 7)));
    assert_eq!(Point::parse("+-1"), Err(ParseError::InvalidX));
    assert_eq!("12-34".parse::<Point>(), Ok(Point::new(12, 34)));
}

#[test]
fn moves_within_the_range_of_coordinates() {
    let p = Point::new(0, 255);
    assert_eq!(p.try_add_delta(1, -1), Some(Point::new(1, 254)));
    assert_eq!(p.try_add_delta(-1, 0), None);
    assert_eq!(p.try_add_delta(0, 1), None);
    assert_eq!(p.try_add_delta(0, 0), Some(p));
}

#[test]
fn point_of_indices_wraps_past_a_byte() {
    assert_eq!(Point::from_index(3, 9), Point::new(3, 9));
    assert_eq!(Point::from_index(255, 0), Point::new(255, 0));
    assert_eq!(Point::from_index(256, 257), Point::new(0, 1));
}
