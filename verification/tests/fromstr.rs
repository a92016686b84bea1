use navdata_components::angle::Angle;
use navdata_components::coordinate::{CoordParseError, Coordinate};

fn coord(lat_m: u64, lat_f: u64, lon_m: u64, lon_f: u64) -> Coordinate {
    Coordinate {
        lat: Angle::from_decimal(false, lat_m, lat_f),
        lon: Angle::from_decimal(false, lon_m, lon_f),
    }
}

#[allow(non_snake_case)]
#[test]
fn test_fromstr_NxxxxxxExxxxxxx_1() {
    let result = Coordinate::from_str("N400000E1160000").unwrap();
    assert_eq!(result, coord(40, 0, 116, 0));
}

#[allow(non_snake_case)]
#[test]
fn test_fromstr_NxxxxxxExxxxxxx_2() {
    let result = Coordinate::from_str("N403000E1163000").unwrap();
    assert_eq!(result, coord(405, 1, 1165, 1));
}

#[allow(non_snake_case)]
#[test]
fn test_fromstr_NxxxxxxExxxxxxx_3() {
    let result = Coordinate::from_str("N403036E1163036").unwrap();
    assert_eq!(result, coord(4051, 2, 11651, 2));
}

#[allow(non_snake_case)]
#[test]
fn test_fromstr_Nxxxx_xExxxx_x_1() {
    let result = Coordinate::from_str("N400000.0E1160000.0").unwrap();
    assert_eq!(result, coord(40, 0, 116, 0));
}

#[allow(non_snake_case)]
#[test]
fn test_fromstr_Nxxxx_xExxxx_x_2() {
    let result = Coordinate::from_str("N403000.0E1163000.0").unwrap();
    assert_eq!(result, coord(405, 1, 1165, 1));
}

#[allow(non_snake_case)]
#[test]
fn test_fromstr_Nxxxx_xExxxx_x_3() {
    let result = Coordinate::from_str("N403003.6E1163003.6").unwrap();
    assert_eq!(result, coord(40501, 3, 116501, 3));
}

#[allow(non_snake_case)]
#[test]
fn test_fromstr_ES_1() {
    let result = Coordinate::from_str("N040.00.00.000 E116.00.00.000").unwrap();
    assert_eq!(result, coord(40, 0, 116, 0));
}

#[allow(non_snake_case)]
#[test]
fn test_fromstr_ES_2() {
    let result = Coordinate::from_str("N040.30.00.000 E116.30.00.000").unwrap();
    assert_eq!(result, coord(405, 1, 1165, 1));
}

#[allow(non_snake_case)]
#[test]
fn test_fromstr_ES_3() {
    let result = Coordinate::from_str("N040.30.03.600 E116.30.03.600").unwrap();
    assert_eq!(result, coord(40501, 3, 116501, 3));
}

#[test]
fn test_fromstr_pmdg_1() {
    let result = Coordinate::from_str("N 40 00.0 E 116 00.0").unwrap();
    assert_eq!(result, coord(40, 0, 116, 0));
}

#[test]
fn test_fromstr_pmdg_2() {
    let result = Coordinate::from_str("N 40 30.0 E 116 30.0").unwrap();
    assert_eq!(result, coord(405, 1, 1165, 1));
}

#[test]
fn test_fromstr_pmdg_3() {
    let result = Coordinate::from_str("N 40 30.6 E 116 30.6").unwrap();
    assert_eq!(result, coord(4051, 2, 11651, 2));
}

#[test]
fn test_fromstr_xx_1() {
    let result = Coordinate::from_str("40.0,116.0").unwrap();
    assert_eq!(result, coord(40, 0, 116, 0));
}

#[test]
fn test_fromstr_xx_2() {
    let result = Coordinate::from_str("40.123456,116.654321").unwrap();
    assert_eq!(result, coord(40123456, 6, 116654321, 6));
}

#[test]
fn test_lat_error() {
    let result = Coordinate::from_str("40.12l3456,116.654321");
    assert_eq!(result, Err(CoordParseError::LatParseError));
}

#[test]
fn test_lon_error() {
    let result = Coordinate::from_str("40.123456,116.6543l21");
    assert_eq!(result, Err(CoordParseError::LonParseError));
}
