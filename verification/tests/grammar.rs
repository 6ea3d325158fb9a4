use csvcut::Range;
use csvcut::parse::ParseError;
use csvcut::parse::parse_target;

fn parsed(input: &str) -> Vec<Range> {
    parse_target(input.as_bytes()).expect("selector should parse").ranges
}

#[test]
fn parse_single() {
    assert_eq!(vec![Range::Single(3)], parsed("4"));
}

#[test]
fn parse_left() {
    assert_eq!(vec![Range::Left(2)], parsed("3-"));
}

#[test]
fn parse_right() {
    assert_eq!(vec![Range::Right(9)], parsed("-10"));
}

#[test]
fn parse_interval() {
    assert_eq!(vec![Range::Interval(3, 7)], parsed("4-8"));
}

#[test]
fn parse_target_single() {
    assert_eq!(vec![Range::Single(1)], parsed("2"));
}

#[test]
fn parse_target_interval_and_single() {
    assert_eq!(vec![Range::Interval(1, 2), Range::Single(3)], parsed("2-3,4"));
}

#[test]
fn parse_target_left_and_right() {
    assert_eq!(vec![Range::Left(1), Range::Right(3)], parsed("2-,-4"));
}

#[test]
fn parse_target_intervals() {
    assert_eq!(
        vec![Range::Interval(1, 2), Range::Interval(5, 5), Range::Interval(13, 100)],
        parsed("2-3,6-6,14-101")
    );
}

#[test]
fn parse_leading_zeros() {
    assert_eq!(vec![Range::Single(6)], parsed("007"));
}

#[test]
fn parse_largest_number() {
    assert_eq!(vec![Range::Single(254)], parsed("255"));
}

#[test]
fn parse_empty_input_is_invalid() {
    assert!(matches!(parse_target(b""), Err(ParseError::Invalid)));
}

#[test]
fn parse_zero_is_invalid() {
    assert!(matches!(parse_target(b"0"), Err(ParseError::Invalid)));
}

#[test]
fn parse_overflow_is_invalid() {
    assert!(matches!(parse_target(b"256"), Err(ParseError::Invalid)));
    assert!(matches!(parse_target(b"999999999999"), Err(ParseError::Invalid)));
}

#[test]
fn parse_lone_dash_is_invalid() {
    assert!(matches!(parse_target(b"-"), Err(ParseError::Invalid)));
}

#[test]
fn parse_letters_are_invalid() {
    assert!(matches!(parse_target(b"x"), Err(ParseError::Invalid)));
}

#[test]
fn parse_trailing_comma() {
    match parse_target(b"1,") {
        Err(ParseError::Trailing(t, at)) => {
            assert_eq!(vec![Range::Single(0)], t.ranges);
            assert_eq!(1, at);
        },
        other => panic!("expected a trailing-input error, got {:?}", other),
    }
}

#[test]
fn parse_double_dash_leaves_remainder() {
    match parse_target(b"2--3") {
        Err(ParseError::Trailing(t, at)) => {
            assert_eq!(vec![Range::Left(1)], t.ranges);
            assert_eq!(2, at);
        },
        other => panic!("expected a trailing-input error, got {:?}", other),
    }
}

#[test]
fn parse_interval_with_zero_end_leaves_remainder() {
    match parse_target(b"4-0") {
        Err(ParseError::Trailing(t, at)) => {
            assert_eq!(vec![Range::Left(3)], t.ranges);
            assert_eq!(2, at);
        },
        other => panic!("expected a trailing-input error, got {:?}", other),
    }
}

#[test]
fn parse_trailing_letters() {
    match parse_target(b"2x") {
        Err(ParseError::Trailing(t, at)) => {
            assert_eq!(vec![Range::Single(1)], t.ranges);
            assert_eq!(1, at);
        },
        other => panic!("expected a trailing-input error, got {:?}", other),
    }
}
