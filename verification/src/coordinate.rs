//! The canonical coordinate model and the string parser around it.
//!
//! A [`Coordinate`] is a latitude/longitude pair of exact [`Angle`]s in
//! signed decimal degrees. It is built directly or parsed from text by
//! [`Coordinate::from_str`], which classifies failures as one of the three
//! [`CoordParseError`] variants.

use vstd::prelude::*;

use crate::angle::Angle;
use crate::grammar::{axis_match, axis_short, axis_trunc, axis_value, combined_match, parse_axis,
    split_combined, str_chars, FRAC_DIGITS_KEPT};
use crate::rational::rat_eq;

verus! {

/// A geographic coordinate: latitude and longitude in signed decimal
/// degrees, held exactly.
#[derive(Clone, Copy, Debug, PartialEq, Eq, Structural)]
pub struct Coordinate {
    /// Latitude, degrees north positive.
    pub lat: Angle,
    /// Longitude, degrees east positive.
    pub lon: Angle,
}

/// The classified parse failures.
#[derive(Clone, Copy, Debug, PartialEq, Eq, Structural)]
pub enum CoordParseError {
    /// The latitude substring matched no single-axis pattern.
    LatParseError,
    /// The longitude substring matched no single-axis pattern.
    LonParseError,
    /// The whole string matched no combined pattern.
    NoMatchingFormat,
}

/// What a successfully parsed angle denotes: the exact value of the matched
/// capture `g`, with each numeric group's fraction kept to
/// [`FRAC_DIGITS_KEPT`] digits (and the exact value outright whenever no
/// group has a longer fraction).
pub open spec fn denotes(a: Angle, g: crate::grammar::AxisGroups) -> bool {
    &&& a.inv()
    &&& rat_eq(a.value(), axis_value(axis_trunc(g, FRAC_DIGITS_KEPT as nat)))
    &&& (axis_short(g, FRAC_DIGITS_KEPT as nat) ==> rat_eq(a.value(), axis_value(g)))
}

/// Coordinates are canonical too: two well-formed coordinates whose
/// latitudes and longitudes have equal exact values are structurally equal,
/// so `==` decides value equality — in particular, any two parses that
/// denote the same position yield equal coordinates.
pub proof fn lemma_value_determines_coordinate(a: Coordinate, b: Coordinate)
    requires
        a.lat.inv(),
        a.lon.inv(),
        b.lat.inv(),
        b.lon.inv(),
        rat_eq(a.lat.value(), b.lat.value()),
        rat_eq(a.lon.value(), b.lon.value()),
    ensures
        a == b,
{
    crate::angle::lemma_value_determines_angle(a.lat, b.lat);
    crate::angle::lemma_value_determines_angle(a.lon, b.lon);
}

/// Parses one axis value: the single-axis grammar applied to the whole
/// string, as by the combined parser to each of its two parts.
pub fn parse(s: &str) -> (res: Result<Angle, CoordParseError>)
    ensures
        res is Ok <==> axis_match(s@) is Some,
        res is Err ==> res->Err_0 == CoordParseError::NoMatchingFormat,
        axis_match(s@) matches Option::Some(g) ==> denotes(res->Ok_0, g),
{
    let v = str_chars(s);
    match parse_axis(&v, 0, v.len()) {
        Option::Some(a) => {
            proof {
                assert(v@.subrange(0, v.len() as int) =~= s@);
            }
            Result::Ok(a)
        },
        Option::None => {
            proof {
                assert(v@.subrange(0, v.len() as int) =~= s@);
            }
            Result::Err(CoordParseError::NoMatchingFormat)
        },
    }
}

impl Coordinate {
    /// Parses a full coordinate string: the combined grammar splits it into
    /// a latitude part and a longitude part, each then parsed by the
    /// single-axis grammar. Fails with `NoMatchingFormat` when no combined
    /// pattern matches, `LatParseError` when the latitude part parses to no
    /// value, and `LonParseError` when the longitude part does not.
    pub fn from_str(s: &str) -> (res: Result<Coordinate, CoordParseError>)
        ensures
            ({
                let m = combined_match(s@);
                &&& (m is None <==> res == Result::<Coordinate, CoordParseError>::Err(
                    CoordParseError::NoMatchingFormat,
                ))
                &&& (m matches Option::Some(parts) ==> {
                    let la = axis_match(parts.0);
                    let lo = axis_match(parts.1);
                    &&& (la is None <==> res == Result::<Coordinate, CoordParseError>::Err(
                        CoordParseError::LatParseError,
                    ))
                    &&& (la is Some && lo is None <==> res == Result::<
                        Coordinate,
                        CoordParseError,
                    >::Err(CoordParseError::LonParseError))
                    &&& (la is Some && lo is Some <==> res is Ok)
                    &&& (la is Some && lo is Some ==> denotes(res->Ok_0.lat, la->Some_0) && denotes(
                        res->Ok_0.lon,
                        lo->Some_0,
                    ))
                })
            }),
    {
        let v = str_chars(s);
        match split_combined(&v) {
            Option::None => Result::Err(CoordParseError::NoMatchingFormat),
            Option::Some((a1, b1, a2, b2)) => {
                match parse_axis(&v, a1, b1) {
                    Option::None => Result::Err(CoordParseError::LatParseError),
                    Option::Some(lat) => {
                        match parse_axis(&v, a2, b2) {
                            Option::None => Result::Err(CoordParseError::LonParseError),
                            Option::Some(lon) => Result::Ok(Coordinate { lat, lon }),
                        }
                    },
                }
            },
        }
    }

    /// The whole-degree part of the latitude, truncated toward zero.
    pub fn lat_d(&self) -> (r: i32)
        ensures
            r as int == self.lat.deg_trunc(),
    {
        self.lat.deg_i32()
    }

    /// The whole-degree part of the longitude, truncated toward zero.
    pub fn lon_d(&self) -> (r: i32)
        ensures
            r as int == self.lon.deg_trunc(),
    {
        self.lon.deg_i32()
    }

    /// The whole minutes within the degree of the latitude's magnitude.
    pub fn lat_m(&self) -> (r: i32)
        ensures
            r as int == self.lat.min_floor(),
    {
        self.lat.min_i32()
    }

    /// The whole minutes within the degree of the longitude's magnitude.
    pub fn lon_m(&self) -> (r: i32)
        ensures
            r as int == self.lon.min_floor(),
    {
        self.lon.min_i32()
    }

    /// The seconds within the minute of the latitude's magnitude, rounded to
    /// the nearest whole second.
    pub fn lat_s(&self) -> (r: u32)
        ensures
            r as int == self.lat.sec_round(),
    {
        self.lat.sec_u32()
    }

    /// The seconds within the minute of the longitude's magnitude, rounded
    /// to the nearest whole second.
    pub fn lon_s(&self) -> (r: u32)
        ensures
            r as int == self.lon.sec_round(),
    {
        self.lon.sec_u32()
    }

    /// The seconds within the minute of the latitude's magnitude, exact.
    pub fn lat_sp(&self) -> (r: Angle)
        ensures
            r.inv(),
            rat_eq(r.value(), self.lat.sec_full()),
    {
        self.lat.sec_angle()
    }

    /// The seconds within the minute of the longitude's magnitude, exact.
    pub fn lon_sp(&self) -> (r: Angle)
        ensures
            r.inv(),
            rat_eq(r.value(), self.lon.sec_full()),
    {
        self.lon.sec_angle()
    }

    /// The decimal minutes past the whole degrees of the latitude's
    /// magnitude, exact.
    pub fn lat_md(&self) -> (r: Angle)
        ensures
            r.inv(),
            rat_eq(r.value(), self.lat.md_value()),
    {
        self.lat.md_angle()
    }

    /// The decimal minutes past the whole degrees of the longitude's
    /// magnitude, exact.
    pub fn lon_md(&self) -> (r: Angle)
        ensures
            r.inv(),
            rat_eq(r.value(), self.lon.md_value()),
    {
        self.lon.md_angle()
    }
}

} // verus!
