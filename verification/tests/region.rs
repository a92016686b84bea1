use navdata_components::algorithm::region::is_point_in_area;
use navdata_components::angle::Angle;
use navdata_components::coordinate::Coordinate;

fn pt(lat_neg: bool, lat_m: u64, lon_neg: bool, lon_m: u64) -> Coordinate {
    Coordinate {
        lat: Angle::from_decimal(lat_neg, lat_m, 0),
        lon: Angle::from_decimal(lon_neg, lon_m, 0),
    }
}

fn square() -> Vec<Coordinate> {
    vec![
        pt(false, 0, false, 0),
        pt(false, 10, false, 0),
        pt(false, 10, false, 10),
        pt(false, 0, false, 10),
    ]
}

#[test]
fn empty_area_contains_nothing() {
    let p = pt(false, 5, false, 5);
    let empty: Vec<Coordinate> = Vec::new();
    assert!(!is_point_in_area(&p, &empty));
}

#[test]
fn one_vertex_contains_nothing() {
    let p = pt(false, 5, false, 5);
    let area = vec![pt(false, 5, false, 5)];
    assert!(!is_point_in_area(&p, &area));
}

#[test]
fn two_vertices_contain_nothing() {
    let p = pt(false, 5, false, 5);
    let area = vec![pt(false, 0, false, 0), pt(false, 10, false, 10)];
    assert!(!is_point_in_area(&p, &area));
}

#[test]
fn point_inside_square() {
    let p = pt(false, 5, false, 5);
    assert!(is_point_in_area(&p, &square()));
}

#[test]
fn point_east_of_square() {
    let p = pt(false, 5, false, 20);
    assert!(!is_point_in_area(&p, &square()));
}

#[test]
fn point_west_of_square() {
    let p = pt(false, 5, true, 20);
    assert!(!is_point_in_area(&p, &square()));
}

#[test]
fn point_north_of_square() {
    let p = pt(false, 20, false, 5);
    assert!(!is_point_in_area(&p, &square()));
}

#[test]
fn point_inside_triangle_with_negative_coordinates() {
    let area = vec![
        pt(true, 10, true, 10),
        pt(false, 10, true, 10),
        pt(false, 0, false, 10),
    ];
    let inside = pt(false, 0, true, 5);
    let outside = pt(false, 0, false, 15);
    assert!(is_point_in_area(&inside, &area));
    assert!(!is_point_in_area(&outside, &area));
}

#[test]
fn fractional_coordinates_near_edge() {
    // The square spans latitudes and longitudes 0..10; a point just inside
    // the eastern edge is contained, one just outside is not.
    let just_inside = Coordinate {
        lat: Angle::from_decimal(false, 5, 0),
        lon: Angle::from_decimal(false, 9999999, 6),
    };
    let just_outside = Coordinate {
        lat: Angle::from_decimal(false, 5, 0),
        lon: Angle::from_decimal(false, 10000001, 6),
    };
    assert!(is_point_in_area(&just_inside, &square()));
    assert!(!is_point_in_area(&just_outside, &square()));
}
