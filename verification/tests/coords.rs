use qsomap::coords::parse_coordinate;
use qsomap::coords::Coordinate;

#[test]
fn parse_positive_with_fraction() {
    let c = parse_coordinate("39.123456").unwrap();
    assert_eq!(c.nanodeg, 39_123_456_000);
}

#[test]
fn parse_negative_with_fraction() {
    let c = parse_coordinate("-9.654321").unwrap();
    assert_eq!(c.nanodeg, -9_654_321_000);
}

#[test]
fn parse_integer_degrees() {
    let c = parse_coordinate("180").unwrap();
    assert_eq!(c.nanodeg, 180_000_000_000);
    let c = parse_coordinate("0").unwrap();
    assert_eq!(c.nanodeg, 0);
}

#[test]
fn parse_full_precision() {
    let c = parse_coordinate("1.000000001").unwrap();
    assert_eq!(c.nanodeg, 1_000_000_001);
}

#[test]
fn parse_rejects_malformed() {
    assert!(parse_coordinate("").is_none());
    assert!(parse_coordinate("-").is_none());
    assert!(parse_coordinate("39.").is_none());
    assert!(parse_coordinate(".5").is_none());
    assert!(parse_coordinate("3a.5").is_none());
    assert!(parse_coordinate("1234").is_none());
    assert!(parse_coordinate("1.0000000001").is_none());
    assert!(parse_coordinate("1.2.3").is_none());
    assert!(parse_coordinate("+5").is_none());
}

#[test]
fn renders_coordinates_as_decimal_text() {
    assert_eq!(Coordinate { nanodeg: 39_123_456_000 }.to_text(), "39.123456000");
    assert_eq!(Coordinate { nanodeg: -9_654_321_000 }.to_text(), "-9.654321000");
    assert_eq!(Coordinate { nanodeg: 180_000_000_000 }.to_text(), "180");
    assert_eq!(Coordinate { nanodeg: 0 }.to_text(), "0");
    assert_eq!(Coordinate { nanodeg: 1 }.to_text(), "0.000000001");
}

#[test]
fn text_round_trip_returns_the_same_coordinate() {
    for nano in [0i64, 1, -1, 39_123_456_000, -9_654_321_000, 999_999_999_999, -999_999_999_999] {
        let c = Coordinate { nanodeg: nano };
        let back = parse_coordinate(&c.to_text()).unwrap();
        assert_eq!(back, c);
    }
}

#[test]
fn zero_is_the_unknown_location_sentinel() {
    let z = Coordinate::zero();
    assert_eq!(z.nanodeg, 0);
    assert_eq!(z, Coordinate { nanodeg: 0 });
}
