use vstd::prelude::*;

verus! {

/// Micro arc seconds in one degree: the unit in which angles are counted.
pub const MICRO_SECS: i64 = 3_600_000_000;

/// Latitude and longitude of a coordinate.
///
/// Angles are fixed-point numbers: `LatLon<i64>` counts micro arc seconds, so
/// that 35 degrees north is `35 * MICRO_SECS`.
#[derive(Debug, Clone, Copy, PartialEq, Eq, PartialOrd, Default)]
pub struct LatLon<T = i64>(
    /// Latitude.
    pub T,
    /// Longitude.
    pub T,
);

impl<T> LatLon<T> {
    /// Returns latitude.
    pub fn lat(self) -> (r: T)
        ensures
            r == self.0,
    {
        self.0
    }

    /// Returns longitude.
    pub fn lon(self) -> (r: T)
        ensures
            r == self.1,
    {
        self.1
    }

    /// Returns self with function `f` applied to both lat and lon.
    pub fn map<U, F: Fn(T) -> U>(self, f: F) -> (r: LatLon<U>)
        requires
            f.requires((self.0,)),
            f.requires((self.1,)),
        ensures
            f.ensures((self.0,), r.0),
            f.ensures((self.1,), r.1),
    {
        let LatLon(lat, lon) = self;
        let lat = f(lat);
        let lon = f(lon);
        LatLon(lat, lon)
    }
}

impl LatLon<i64> {
    /// Constructs with latitude and longitude in micro arc seconds.
    pub fn new(lat: i64, lon: i64) -> (r: Self)
        ensures
            r.0 == lat,
            r.1 == lon,
    {
        LatLon(lat, lon)
    }

    /// Latitude within 90 degrees of the equator and longitude within 180
    /// degrees of the prime meridian.
    pub open spec fn in_degrees_range(self) -> bool {
        &&& -90 * MICRO_SECS <= self.0 <= 90 * MICRO_SECS
        &&& -180 * MICRO_SECS <= self.1 <= 180 * MICRO_SECS
    }

    /// The same coordinate with latitude and longitude exchanged.
    pub open spec fn reversed(self) -> Self {
        LatLon(self.1, self.0)
    }

    /// Accepts a coordinate in the range of degrees, and says of one that is
    /// not whether it would be with latitude and longitude exchanged.
    pub fn validate_degrees(self) -> (r: Result<(), DegreesError>)
        ensures
            r is Ok <==> self.in_degrees_range(),
            r matches Err(e) ==> e.possibly_reversed == self.reversed().in_degrees_range(),
    {
        let LatLon(lat, lon) = self;
        if is_in_degrees_range(lat, lon) {
            return Ok(());
        }
        let possibly_reversed = is_in_degrees_range(lon, lat);
        Err(DegreesError { possibly_reversed })
    }
}

fn is_in_degrees_range(lat: i64, lon: i64) -> (r: bool)
    ensures
        r == LatLon(lat, lon).in_degrees_range(),
{
    -90 * MICRO_SECS <= lat && lat <= 90 * MICRO_SECS && -180 * MICRO_SECS <= lon && lon <= 180
        * MICRO_SECS
}

/// Errors in input [LatLon].
#[derive(Debug, PartialEq, Eq)]
pub struct DegreesError {
    /// The [LatLon] may be in the order of lon, lat.
    pub possibly_reversed: bool,
}

impl DegreesError {
    /// What the error says, as a sequence of characters.
    pub open spec fn text(self) -> Seq<char> {
        if self.possibly_reversed {
            "degrees out of range"@ + "; may be lat and lon reversed?"@
        } else {
            "degrees out of range"@
        }
    }

    /// The error as a message for the user.
    pub fn to_string(&self) -> (s: String)
        ensures
            s@ == self.text(),
    {
        let mut s = String::from_str("degrees out of range");
        if self.possibly_reversed {
            s.append("; may be lat and lon reversed?");
        }
        s
    }
}

} // verus!
