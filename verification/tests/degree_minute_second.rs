use navdata_components::angle::Angle;
use navdata_components::coordinate::Coordinate;

fn c1() -> Coordinate {
    Coordinate {
        lat: Angle::from_decimal(false, 40, 0),
        lon: Angle::from_decimal(false, 116, 0),
    }
}

fn c2() -> Coordinate {
    Coordinate {
        lat: Angle::from_decimal(false, 405, 1),
        lon: Angle::from_decimal(false, 116, 0),
    }
}

fn c3() -> Coordinate {
    Coordinate {
        lat: Angle::from_decimal(false, 405, 1),
        lon: Angle::from_decimal(false, 1165, 1),
    }
}

fn c4() -> Coordinate {
    Coordinate {
        lat: Angle::from_decimal(false, 40501, 3),
        lon: Angle::from_decimal(false, 116, 0),
    }
}

fn c5() -> Coordinate {
    Coordinate {
        lat: Angle::from_decimal(false, 40501, 3),
        lon: Angle::from_decimal(false, 116501, 3),
    }
}

fn angle(m: u64, f: u64) -> Angle {
    Angle::from_decimal(false, m, f)
}

#[test]
fn degree() {
    assert_eq!(c1().lat_d(), 40);
    assert_eq!(c2().lat_d(), 40);
    assert_eq!(c3().lat_d(), 40);
    assert_eq!(c4().lat_d(), 40);
    assert_eq!(c5().lat_d(), 40);

    assert_eq!(c1().lon_d(), 116);
    assert_eq!(c2().lon_d(), 116);
    assert_eq!(c3().lon_d(), 116);
    assert_eq!(c4().lon_d(), 116);
    assert_eq!(c5().lon_d(), 116);
}

#[test]
fn minute() {
    assert_eq!(c1().lat_m(), 0);
    assert_eq!(c2().lat_m(), 30);
    assert_eq!(c3().lat_m(), 30);
    assert_eq!(c4().lat_m(), 30);
    assert_eq!(c5().lat_m(), 30);

    assert_eq!(c1().lon_m(), 0);
    assert_eq!(c2().lon_m(), 0);
    assert_eq!(c3().lon_m(), 30);
    assert_eq!(c4().lon_m(), 0);
    assert_eq!(c5().lon_m(), 30);
}

#[test]
fn second() {
    assert_eq!(c1().lat_s(), 0);
    assert_eq!(c2().lat_s(), 0);
    assert_eq!(c3().lat_s(), 0);
    assert_eq!(c4().lat_s(), 4);
    assert_eq!(c5().lat_s(), 4);

    assert_eq!(c1().lon_s(), 0);
    assert_eq!(c2().lon_s(), 0);
    assert_eq!(c3().lon_s(), 0);
    assert_eq!(c4().lon_s(), 0);
    assert_eq!(c5().lon_s(), 4);
}

#[test]
fn second_p() {
    assert_eq!(c1().lat_sp(), angle(0, 0));
    assert_eq!(c2().lat_sp(), angle(0, 0));
    assert_eq!(c3().lat_sp(), angle(0, 0));
    assert_eq!(c4().lat_sp(), angle(36, 1));
    assert_eq!(c5().lat_sp(), angle(36, 1));

    assert_eq!(c1().lon_sp(), angle(0, 0));
    assert_eq!(c2().lon_sp(), angle(0, 0));
    assert_eq!(c3().lon_sp(), angle(0, 0));
    assert_eq!(c4().lon_sp(), angle(0, 0));
    assert_eq!(c5().lon_sp(), angle(36, 1));
}

#[test]
fn minute_second() {
    assert_eq!(c1().lat_md(), angle(0, 0));
    assert_eq!(c2().lat_md(), angle(30, 0));
    assert_eq!(c3().lat_md(), angle(30, 0));
    assert_eq!(c4().lat_md(), angle(3006, 2));
    assert_eq!(c5().lat_md(), angle(3006, 2));

    assert_eq!(c1().lon_md(), angle(0, 0));
    assert_eq!(c2().lon_md(), angle(0, 0));
    assert_eq!(c3().lon_md(), angle(30, 0));
    assert_eq!(c4().lon_md(), angle(0, 0));
    assert_eq!(c5().lon_md(), angle(3006, 2));
}
