use textutils::numbers::number_to_string;
use textutils::position::parse_range_list;
use textutils::position::range_list_to_string;
use textutils::position::ParseError;
use textutils::position::Position;

fn pos(start: usize, end: usize) -> Position {
    Position { start, end }
}

#[test]
fn test_parse_pos() {
    // The empty string is an error
    assert!(Position::from_str("").is_err());

    // Zero is an error
    let res = Position::from_str("0");
    assert!(res.is_err());
    assert_eq!(res.unwrap_err().message(), r#"illegal list value: "0""#);
    let res = Position::from_str("0-1");
    assert!(res.is_err());
    assert_eq!(res.unwrap_err().message(), r#"illegal list value: "0-1""#);

    // A leading "+" is an error
    let res = Position::from_str("+1");
    assert!(res.is_err());
    assert_eq!(res.unwrap_err().message(), r#"illegal list value: "+1""#);
    let res = Position::from_str("+1-2");
    assert!(res.is_err());
    assert_eq!(res.unwrap_err().message(), r#"illegal list value: "+1-2""#);
    let res = Position::from_str("1-+2");
    assert!(res.is_err());
    assert_eq!(res.unwrap_err().message(), r#"illegal list value: "1-+2""#);

    // Any non-number is an error
    let res = Position::from_str("a");
    assert!(res.is_err());
    assert_eq!(res.unwrap_err().message(), r#"illegal list value: "a""#);
    let res = Position::from_str("1-a");
    assert!(res.is_err());
    assert_eq!(res.unwrap_err().message(), r#"illegal list value: "1-a""#);
    let res = Position::from_str("a-1");
    assert!(res.is_err());
    assert_eq!(res.unwrap_err().message(), r#"illegal list value: "a-1""#);

    // Wonky ranges
    let res = Position::from_str("-");
    assert!(res.is_err());
    let res = Position::from_str(",");
    assert!(res.is_err());
    let res = Position::from_str("1,");
    assert!(res.is_err());
    let res = Position::from_str("1-");
    assert!(res.is_err());
    let res = Position::from_str("1-1-1");
    assert!(res.is_err());
    let res = Position::from_str("1-1-a");
    assert!(res.is_err());

    // First number must be less than second
    let res = Position::from_str("1-1");
    assert!(res.is_err());
    assert_eq!(
        res.unwrap_err().message(),
        "First number in range (1) must be lower than second number (1)"
    );
    let res = Position::from_str("2-1");
    assert!(res.is_err());
    assert_eq!(
        res.unwrap_err().message(),
        "First number in range (2) must be lower than second number (1)"
    );

    // All the following are acceptable
    let res = Position::from_str("1");
    assert!(res.is_ok());
    assert_eq!(res.unwrap(), pos(0, 1));
    let res = Position::from_str("01");
    assert!(res.is_ok());
    assert_eq!(res.unwrap(), pos(0, 1));
    let res = Position::from_str("1-3");
    assert!(res.is_ok());
    assert_eq!(res.unwrap(), pos(0, 3));
    let res = Position::from_str("0001-03");
    assert!(res.is_ok());
    assert_eq!(res.unwrap(), pos(0, 3));
}

#[test]
fn empty_spec_fails() {
    assert!(parse_range_list("").is_err());
}

#[test]
fn zero_fails_with_message() {
    let res = parse_range_list("0");
    assert!(res.is_err());
    assert_eq!(res.unwrap_err().message(), r#"illegal list value: "0""#);
}

#[test]
fn single_position() {
    assert_eq!(parse_range_list("1").unwrap(), vec![pos(0, 1)]);
}

#[test]
fn two_positions() {
    assert_eq!(parse_range_list("1,3").unwrap(), vec![pos(0, 1), pos(2, 3)]);
}

#[test]
fn order_is_preserved_not_sorted() {
    assert_eq!(
        parse_range_list("1,7,3-5").unwrap(),
        vec![pos(0, 1), pos(6, 7), pos(2, 5)]
    );
}

#[test]
fn two_digit_positions() {
    assert_eq!(
        parse_range_list("15,19-20").unwrap(),
        vec![pos(14, 15), pos(18, 20)]
    );
}

#[test]
fn equal_range_bounds_fail() {
    let res = parse_range_list("1-1");
    assert!(res.is_err());
    assert_eq!(
        res.unwrap_err().message(),
        "First number in range (1) must be lower than second number (1)"
    );
}

#[test]
fn reversed_range_bounds_fail() {
    let res = parse_range_list("2-1");
    assert!(res.is_err());
    assert_eq!(
        res.unwrap_err().message(),
        "First number in range (2) must be lower than second number (1)"
    );
}

#[test]
fn bare_number_round_trip() {
    for n in [1usize, 2, 9, 10, 11, 99, 100, 12345, usize::MAX] {
        let rendered = number_to_string(n);
        let parsed = parse_range_list(rendered.as_str()).unwrap();
        assert_eq!(parsed, vec![pos(n - 1, n)]);
    }
}

#[test]
fn canonical_form_round_trip() {
    for spec in ["1,7,3-5", "15,19-20", "2-4,2-4,1", "10", "3,1"] {
        let parsed = parse_range_list(spec).unwrap();
        let rendered = range_list_to_string(&parsed);
        assert_eq!(rendered, spec);
        let reparsed = parse_range_list(rendered.as_str()).unwrap();
        assert_eq!(reparsed, parsed);
    }
}

#[test]
fn first_bad_token_is_reported() {
    let res = parse_range_list("1,x,2-1");
    assert!(res.is_err());
    assert_eq!(res.unwrap_err().message(), r#"illegal list value: "x""#);
    let res = parse_range_list("1,2-1,x");
    assert!(res.is_err());
    assert_eq!(
        res.unwrap_err().message(),
        "First number in range (2) must be lower than second number (1)"
    );
}

#[test]
fn trailing_comma_fails() {
    let res = parse_range_list("1,");
    assert!(res.is_err());
    assert_eq!(res.unwrap_err().message(), r#"illegal list value: """#);
}

#[test]
fn error_variants_carry_their_payload() {
    match parse_range_list("0").unwrap_err() {
        ParseError::IllegalToken(t) => assert_eq!(t, "0"),
        ParseError::InvalidRangeOrder(_, _) => panic!("wrong variant"),
    }
    match parse_range_list("9-3").unwrap_err() {
        ParseError::InvalidRangeOrder(a, b) => {
            assert_eq!(a, 9);
            assert_eq!(b, 3);
        }
        ParseError::IllegalToken(_) => panic!("wrong variant"),
    }
}

#[test]
fn number_rendering_is_decimal() {
    assert_eq!(number_to_string(0), "0");
    assert_eq!(number_to_string(7), "7");
    assert_eq!(number_to_string(10), "10");
    assert_eq!(number_to_string(90210), "90210");
}
