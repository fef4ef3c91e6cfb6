use vstd::prelude::*;

use crate::error::Error;

verus! {

/// Longitude bound, in fixed-point units of 1e-7 degree, of the widest
/// representable box.
pub const PLANET_MAX_LON: i32 = 1800000000;

/// Latitude bound, in fixed-point units of 1e-7 degree, of the widest
/// representable box.
pub const PLANET_MAX_LAT: i32 = 900000000;

/// A bounding region in fixed-point integer coordinates, the unit being
/// 1e-7 of a degree of longitude or latitude.
#[derive(Clone, Copy, PartialEq, Eq, Structural, Debug)]
pub struct Bbox {
    pub minlon: i32,
    pub minlat: i32,
    pub maxlon: i32,
    pub maxlat: i32,
}

impl Bbox {
    /// Whether the point (lon, lat) lies inside the box, edges included.
    pub open spec fn spec_contains_point(self, lon: int, lat: int) -> bool {
        self.minlon <= lon <= self.maxlon && self.minlat <= lat <= self.maxlat
    }

    /// The box covering the full valid coordinate range.
    pub open spec fn spec_planet() -> Bbox {
        Bbox {
            minlon: (-PLANET_MAX_LON) as i32,
            minlat: (-PLANET_MAX_LAT) as i32,
            maxlon: PLANET_MAX_LON,
            maxlat: PLANET_MAX_LAT,
        }
    }

    pub fn new(minlon: i32, minlat: i32, maxlon: i32, maxlat: i32) -> (r: Bbox)
        ensures
            r == (Bbox { minlon, minlat, maxlon, maxlat }),
    {
        Bbox { minlon, minlat, maxlon, maxlat }
    }

    /// The whole-world box used when no spatial filtering is requested.
    pub fn planet() -> (r: Bbox)
        ensures
            r == Bbox::spec_planet(),
    {
        Bbox {
            minlon: -PLANET_MAX_LON,
            minlat: -PLANET_MAX_LAT,
            maxlon: PLANET_MAX_LON,
            maxlat: PLANET_MAX_LAT,
        }
    }

    /// Whether this box covers at least the full valid coordinate range, the
    /// fast-path test that lets a caller skip spatial filtering entirely.
    pub fn is_planet(&self) -> (r: bool)
        ensures
            r == (self.minlon <= -PLANET_MAX_LON && self.minlat <= -PLANET_MAX_LAT
                && self.maxlon >= PLANET_MAX_LON && self.maxlat >= PLANET_MAX_LAT),
    {
        self.minlon <= -PLANET_MAX_LON && self.minlat <= -PLANET_MAX_LAT
            && self.maxlon >= PLANET_MAX_LON && self.maxlat >= PLANET_MAX_LAT
    }

    pub fn contains_point(&self, lon: i32, lat: i32) -> (r: bool)
        ensures
            r == self.spec_contains_point(lon as int, lat as int),
    {
        self.minlon <= lon && lon <= self.maxlon && self.minlat <= lat && lat <= self.maxlat
    }

    /// Whether two boxes share at least one point.
    pub fn overlaps(&self, other: &Bbox) -> (r: bool)
        ensures
            r == (self.minlon <= other.maxlon && other.minlon <= self.maxlon
                && self.minlat <= other.maxlat && other.minlat <= self.maxlat),
    {
        self.minlon <= other.maxlon && other.minlon <= self.maxlon
            && self.minlat <= other.maxlat && other.minlat <= self.maxlat
    }

    /// Whether this box covers at least the full valid coordinate range,
    /// as a predicate on the value.
    pub open spec fn spec_is_planet(self) -> bool {
        self.minlon <= -PLANET_MAX_LON && self.minlat <= -PLANET_MAX_LAT && self.maxlon
            >= PLANET_MAX_LON && self.maxlat >= PLANET_MAX_LAT
    }

    /// Every point inside the whole-world box, which is how a run without a
    /// spatial filter behaves.
    pub proof fn lemma_planet_contains_all(lon: int, lat: int)
        requires
            -PLANET_MAX_LON <= lon <= PLANET_MAX_LON,
            -PLANET_MAX_LAT <= lat <= PLANET_MAX_LAT,
        ensures
            Bbox::spec_planet().spec_contains_point(lon, lat),
    {
    }
}

/// Validate a filter specification given at the boundary, before any other
/// work: no filter means the whole world and the fast path; a four-value
/// list is a box, with the fast-path flag set exactly when it covers the
/// world; any other length is a value error.
pub fn read_filter(filter: Option<Vec<i32>>) -> (r: Result<(bool, Bbox), Error>)
    ensures
        match r {
            Ok(p) => match filter {
                None => p.0 && p.1 == Bbox::spec_planet(),
                Some(v) => {
                    &&& v@.len() == 4
                    &&& p.1 == (Bbox { minlon: v@[0], minlat: v@[1], maxlon: v@[2], maxlat: v@[3] })
                    &&& p.0 == p.1.spec_is_planet()
                },
            },
            Err(e) => filter matches Some(v) && v@.len() != 4 && e == Error::ValueError,
        },
{
    match filter {
        None => Ok((true, Bbox::planet())),
        Some(v) => {
            if v.len() != 4 {
                return Err(Error::ValueError);
            }
            let bx = Bbox::new(v[0], v[1], v[2], v[3]);
            Ok((bx.is_planet(), bx))
        },
    }
}

} // verus!
