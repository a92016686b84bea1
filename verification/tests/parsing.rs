use navdata_components::angle::Angle;
use navdata_components::coordinate::{parse, CoordParseError, Coordinate};

#[test]
fn round_trip_same_value_in_every_grammar() {
    // One coordinate, rendered in each supported grammar; every rendering
    // parses back to the same canonical value, so parsed results compare
    // equal structurally.
    let c = Coordinate {
        lat: Angle::from_decimal(false, 4051, 2),
        lon: Angle::from_decimal(false, 11651, 2),
    };
    assert_eq!(Coordinate::from_str("N403036E1163036").unwrap(), c);
    assert_eq!(Coordinate::from_str("N403036.0E1163036.0").unwrap(), c);
    assert_eq!(Coordinate::from_str("N40303600E116303600").unwrap(), c);
    assert_eq!(Coordinate::from_str("N4030.6E11630.6").unwrap(), c);
    assert_eq!(Coordinate::from_str("N040.30.36.000 E116.30.36.000").unwrap(), c);
    assert_eq!(Coordinate::from_str("N 40 30.6 E 116 30.6").unwrap(), c);
    assert_eq!(Coordinate::from_str("40.51,116.51").unwrap(), c);
    assert_eq!(Coordinate::from_str("+40.51 +116.51").unwrap(), c);
}

#[test]
fn south_west_hemispheres_negate() {
    let c = Coordinate::from_str("S403036W1163036").unwrap();
    assert_eq!(c.lat, Angle::from_decimal(true, 4051, 2));
    assert_eq!(c.lon, Angle::from_decimal(true, 11651, 2));
}

#[test]
fn signed_decimal_negative() {
    let c = Coordinate::from_str("-40.51,-116.51").unwrap();
    assert_eq!(c.lat, Angle::from_decimal(true, 4051, 2));
    assert_eq!(c.lon, Angle::from_decimal(true, 11651, 2));
}

#[test]
fn no_matching_format_for_plain_word() {
    assert_eq!(
        Coordinate::from_str("garbage"),
        Err(CoordParseError::NoMatchingFormat)
    );
}

#[test]
fn no_matching_format_for_empty_string() {
    assert_eq!(
        Coordinate::from_str(""),
        Err(CoordParseError::NoMatchingFormat)
    );
}

#[test]
fn newline_blocks_combined_patterns() {
    assert_eq!(
        Coordinate::from_str("40.0,\n116.0"),
        Err(CoordParseError::NoMatchingFormat)
    );
}

#[test]
fn single_axis_parse_accepts_each_form() {
    assert_eq!(parse("N403036").unwrap(), Angle::from_decimal(false, 4051, 2));
    assert_eq!(parse("W11630.6").unwrap(), Angle::from_decimal(true, 11651, 2));
    assert_eq!(parse("-40.51").unwrap(), Angle::from_decimal(true, 4051, 2));
    assert_eq!(parse("+40.51").unwrap(), Angle::from_decimal(false, 4051, 2));
}

#[test]
fn single_axis_parse_needs_a_decimal_point_without_hemisphere() {
    // The bare-decimal pattern demands a decimal point.
    assert_eq!(parse("40"), Err(CoordParseError::NoMatchingFormat));
    assert!(parse("40.").is_ok());
}

#[test]
fn long_fractions_are_kept_to_twelve_digits() {
    // Each numeric group keeps twelve fractional digits; further digits are
    // cut off.
    let c = Coordinate::from_str("40.1234567890123456,116.0").unwrap();
    assert_eq!(c.lat, Angle::from_decimal(false, 40123456789012, 12));
}

#[test]
fn accessors_on_negative_coordinates() {
    let c = Coordinate::from_str("S403036W1163036").unwrap();
    assert_eq!(c.lat_d(), -40);
    assert_eq!(c.lon_d(), -116);
    assert_eq!(c.lat_m(), 30);
    assert_eq!(c.lon_m(), 30);
    assert_eq!(c.lat_s(), 36);
    assert_eq!(c.lat_sp(), Angle::from_decimal(false, 36, 0));
    assert_eq!(c.lat_md(), Angle::from_decimal(false, 306, 1));
}

#[test]
fn seconds_round_to_nearest() {
    // 40 degrees 30 minutes 35.5 seconds: the rounded seconds round up.
    let c = Coordinate::from_str("N403035.5E1163035.4").unwrap();
    assert_eq!(c.lat_s(), 36);
    assert_eq!(c.lon_s(), 35);
}

#[test]
fn hemisphere_pair_allows_one_space_at_the_split() {
    let c = Coordinate {
        lat: Angle::from_decimal(false, 4051, 2),
        lon: Angle::from_decimal(false, 11651, 2),
    };
    assert_eq!(Coordinate::from_str("N403036 E1163036").unwrap(), c);
}

#[test]
fn southern_zero_equals_northern_zero() {
    // A zero is canonical and unsigned, whatever hemisphere letter spelled it.
    let south = Coordinate::from_str("S000000W0000000").unwrap();
    let north = Coordinate::from_str("N000000E0000000").unwrap();
    assert_eq!(south, north);
    assert_eq!(south.lat, Angle::from_decimal(false, 0, 0));
    assert!(!south.lon.is_negative());
}

#[test]
fn minutes_beyond_sixty_carry_into_degrees() {
    // The grammar does not bound minutes or seconds at 59; their weighted
    // sum simply carries over: 40 degrees 99 minutes 60 seconds is
    // 41 degrees 40 minutes exactly.
    let a = parse("N409960").unwrap();
    let c = Coordinate { lat: a, lon: a };
    assert_eq!(c.lat_d(), 41);
    assert_eq!(c.lat_m(), 40);
    assert_eq!(c.lat_s(), 0);
}

#[test]
fn empty_axis_has_no_format() {
    assert_eq!(parse(""), Err(CoordParseError::NoMatchingFormat));
}

#[test]
fn hemisphere_pair_splits_before_comma() {
    // The hemisphere-pair pattern wins over the comma split, so the comma
    // stays inside the latitude part and fails the single-axis grammar.
    assert_eq!(
        Coordinate::from_str("N40.5,E116.5"),
        Err(CoordParseError::LatParseError)
    );
}
