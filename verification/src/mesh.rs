use crate::coord::LatLon;
use vstd::arithmetic::div_mod::{
    lemma_fundamental_div_mod, lemma_fundamental_div_mod_converse, lemma_mod_bound,
};
use vstd::prelude::*;

verus! {

/// Height of a mesh cell in micro arc seconds: 30 arc seconds.
pub const LAT_SPAN: i64 = 30_000_000;

/// Width of a mesh cell in micro arc seconds: 45 arc seconds.
pub const LON_SPAN: i64 = 45_000_000;

/// Quotient of `x` by a positive `d`, rounded toward zero.
pub open spec fn truncated_quotient(x: int, d: int) -> int {
    if x >= 0 {
        x / d
    } else {
        -((-x) / d)
    }
}

/// The quotient rounded toward zero is `q` where `x` lies less than `d` from
/// `q * d`, on the side away from zero.
pub proof fn law_truncated_quotient(x: int, d: int, q: int)
    requires
        0 < d,
        0 <= x ==> q * d <= x < q * d + d,
        x < 0 ==> q * d - d < x <= q * d,
    ensures
        truncated_quotient(x, d) == q,
{
    if 0 <= x {
        lemma_fundamental_div_mod_converse(x, d, q, x - q * d);
    } else {
        assert((-q) * d == -(q * d)) by (nonlinear_arith);
        lemma_fundamental_div_mod_converse(-x, d, -q, q * d - x);
    }
}

/// The quotient rounded toward zero lies less than one from the exact
/// quotient, on the side of zero.
pub proof fn law_truncated_quotient_is_near(x: int, d: int)
    requires
        0 < d,
    ensures
        0 <= x ==> truncated_quotient(x, d) * d <= x < truncated_quotient(x, d) * d + d,
        x < 0 ==> truncated_quotient(x, d) * d - d < x <= truncated_quotient(x, d) * d,
{
    if 0 <= x {
        lemma_fundamental_div_mod(x, d);
        lemma_mod_bound(x, d);
        assert(d * (x / d) == (x / d) * d) by (nonlinear_arith);
    } else {
        lemma_fundamental_div_mod(-x, d);
        lemma_mod_bound(-x, d);
        let q = (-x) / d;
        assert(d * q == q * d) by (nonlinear_arith);
        assert((-q) * d == -(q * d)) by (nonlinear_arith);
    }
}

/// The sixteen-bit integer nearest to `x`.
pub open spec fn saturated(x: int) -> i16 {
    if x < i16::MIN {
        i16::MIN
    } else if x > i16::MAX {
        i16::MAX
    } else {
        x as i16
    }
}

/// Distance between two integers.
pub open spec fn distance(a: int, b: int) -> int {
    if a < b {
        b - a
    } else {
        a - b
    }
}

fn saturating_index(x: i64) -> (r: i16)
    ensures
        r == saturated(x as int),
{
    if x < -32768 {
        -32768
    } else if x > 32767 {
        32767
    } else {
        x as i16
    }
}

/// Serial number of a third-level mesh cell, counted from 0 degrees.
///
/// Cells are ordered by latitude, then by longitude.
#[derive(Debug, Clone, Copy, PartialEq, Eq, PartialOrd, Ord, Structural)]
pub struct Mesh3 {
    pub lat: i16,
    pub lon: i16,
}

impl Mesh3 {
    /// The order of cells: latitude first, longitude second.
    pub open spec fn spec_lt(self, other: Mesh3) -> bool {
        self.lat < other.lat || (self.lat == other.lat && self.lon < other.lon)
    }

    /// The south-west corner of the cell that holds `degrees`: each index is
    /// the quotient by the cell's extent, rounded toward zero and held to
    /// sixteen bits.
    pub open spec fn spec_floor(degrees: LatLon<i64>) -> Mesh3 {
        Mesh3 {
            lat: saturated(truncated_quotient(degrees.0 as int, LAT_SPAN as int)),
            lon: saturated(truncated_quotient(degrees.1 as int, LON_SPAN as int)),
        }
    }

    /// Coordinates whose cell has an index of sixteen bits, and a neighbor
    /// to the north and to the east.
    pub open spec fn in_domain(degrees: LatLon<i64>) -> bool {
        &&& (i16::MIN - 1) * LAT_SPAN < degrees.0 < i16::MAX * LAT_SPAN
        &&& (i16::MIN - 1) * LON_SPAN < degrees.1 < i16::MAX * LON_SPAN
    }

    /// The cell one step to the north.
    pub open spec fn spec_north(self) -> Mesh3 {
        Mesh3 { lat: (self.lat + 1) as i16, lon: self.lon }
    }

    /// The cell one step to the east.
    pub open spec fn spec_east(self) -> Mesh3 {
        Mesh3 { lat: self.lat, lon: (self.lon + 1) as i16 }
    }

    /// The south-west corner of the cell, in micro arc seconds.
    pub open spec fn spec_to_degree(self) -> LatLon<i64> {
        LatLon((self.lat * LAT_SPAN) as i64, (self.lon * LON_SPAN) as i64)
    }

    /// How far `p` lies from this corner along each axis, in micro arc
    /// seconds.
    pub open spec fn spec_diagonal_weight(self, p: LatLon<i64>) -> LatLon<i64> {
        LatLon(
            distance(p.0 as int, self.lat * LAT_SPAN) as i64,
            distance(p.1 as int, self.lon * LON_SPAN) as i64,
        )
    }

    /// Constructs a cell from its two indices.
    pub fn new(lat: i16, lon: i16) -> (r: Mesh3)
        ensures
            r.lat == lat,
            r.lon == lon,
    {
        Mesh3 { lat, lon }
    }

    /// Whether this cell comes before `other`.
    pub fn lt(self, other: Mesh3) -> (r: bool)
        ensures
            r == self.spec_lt(other),
    {
        self.lat < other.lat || (self.lat == other.lat && self.lon < other.lon)
    }

    /// The cell that holds `degrees`, named by its south-west corner. Each
    /// index is rounded toward zero, so that south of the equator and west of
    /// the prime meridian the corner is the one nearest to them.
    pub fn floor(degrees: LatLon<i64>) -> (r: Mesh3)
        ensures
            r == Self::spec_floor(degrees),
    {
        let lat = saturating_index(degrees.0 / LAT_SPAN);
        let lon = saturating_index(degrees.1 / LON_SPAN);
        Mesh3 { lat, lon }
    }

    /// The position of `p` relative to this corner, as the weight that
    /// bilinear interpolation gives to the opposite corner: the distance
    /// along each axis in micro arc seconds, where a whole cell measures
    /// [`LAT_SPAN`] by [`LON_SPAN`].
    pub fn diagonal_weight(self, p: LatLon<i64>) -> (r: LatLon<i64>)
        requires
            Self::in_domain(p),
        ensures
            r == self.spec_diagonal_weight(p),
            0 <= r.0 < 0x1_0000 * LAT_SPAN,
            0 <= r.1 < 0x1_0000 * LON_SPAN,
    {
        let corner = self.to_degree();
        let lat = if p.0 < corner.0 {
            corner.0 - p.0
        } else {
            p.0 - corner.0
        };
        let lon = if p.1 < corner.1 {
            corner.1 - p.1
        } else {
            p.1 - corner.1
        };
        LatLon(lat, lon)
    }

    /// The cell one step to the north.
    pub fn north(self) -> (r: Mesh3)
        requires
            self.lat < i16::MAX,
        ensures
            r == self.spec_north(),
            r.lat == self.lat + 1,
            r.lon == self.lon,
    {
        Mesh3 { lat: self.lat + 1, lon: self.lon }
    }

    /// The cell one step to the east.
    pub fn east(self) -> (r: Mesh3)
        requires
            self.lon < i16::MAX,
        ensures
            r == self.spec_east(),
            r.lat == self.lat,
            r.lon == self.lon + 1,
    {
        Mesh3 { lat: self.lat, lon: self.lon + 1 }
    }

    /// The south-west corner of the cell, in micro arc seconds.
    pub fn to_degree(self) -> (r: LatLon<i64>)
        ensures
            r == self.spec_to_degree(),
            r.0 == self.lat * LAT_SPAN,
            r.1 == self.lon * LON_SPAN,
    {
        let lat: i64 = self.lat as i64;
        let lon: i64 = self.lon as i64;
        LatLon(lat * LAT_SPAN, lon * LON_SPAN)
    }
}

/// The cell of a coordinate is the cell with these indices, where the
/// coordinate lies less than the cell's extent from the cell's south-west
/// corner, on the side away from zero along each axis.
pub proof fn law_floor(degrees: LatLon<i64>, lat: int, lon: int)
    requires
        i16::MIN <= lat <= i16::MAX,
        i16::MIN <= lon <= i16::MAX,
        0 <= degrees.0 ==> lat * LAT_SPAN <= degrees.0 < (lat + 1) * LAT_SPAN,
        degrees.0 < 0 ==> (lat - 1) * LAT_SPAN < degrees.0 <= lat * LAT_SPAN,
        0 <= degrees.1 ==> lon * LON_SPAN <= degrees.1 < (lon + 1) * LON_SPAN,
        degrees.1 < 0 ==> (lon - 1) * LON_SPAN < degrees.1 <= lon * LON_SPAN,
    ensures
        Mesh3::spec_floor(degrees) == (Mesh3 { lat: lat as i16, lon: lon as i16 }),
{
    law_truncated_quotient(degrees.0 as int, LAT_SPAN as int, lat);
    law_truncated_quotient(degrees.1 as int, LON_SPAN as int, lon);
}

/// In the domain of the mesh, a coordinate lies less than a cell's extent
/// from the south-west corner of its cell, on the side away from zero along
/// each axis, and the cell has a neighbor to the north and to the east.
pub proof fn law_floor_is_near(degrees: LatLon<i64>)
    requires
        Mesh3::in_domain(degrees),
    ensures
        ({
            let mesh = Mesh3::spec_floor(degrees);
            &&& mesh.lat < i16::MAX
            &&& mesh.lon < i16::MAX
            &&& 0 <= degrees.0 ==> mesh.lat * LAT_SPAN <= degrees.0 < (mesh.lat + 1) * LAT_SPAN
            &&& degrees.0 < 0 ==> (mesh.lat - 1) * LAT_SPAN < degrees.0 <= mesh.lat * LAT_SPAN
            &&& 0 <= degrees.1 ==> mesh.lon * LON_SPAN <= degrees.1 < (mesh.lon + 1) * LON_SPAN
            &&& degrees.1 < 0 ==> (mesh.lon - 1) * LON_SPAN < degrees.1 <= mesh.lon * LON_SPAN
        }),
{
    law_truncated_quotient_is_near(degrees.0 as int, LAT_SPAN as int);
    law_truncated_quotient_is_near(degrees.1 as int, LON_SPAN as int);
}

} // verus!
