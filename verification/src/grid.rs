use crate::coord::LatLon;
use crate::mesh::{
    law_floor, law_floor_is_near, law_truncated_quotient, Mesh3, LAT_SPAN, LON_SPAN,
};
use vstd::prelude::*;

verus! {

/// Shift amount in micro arc seconds.
#[derive(Debug, Clone, Copy, PartialEq, Eq, Structural)]
pub struct MicroSecond {
    pub lat: i32,
    pub lon: i32,
}

impl MicroSecond {
    /// The shift as a coordinate difference.
    pub open spec fn spec_to_degree(self) -> LatLon<i64> {
        LatLon(self.lat as i64, self.lon as i64)
    }

    /// The shift that a coordinate stands for, where it fits in 32 bits.
    pub open spec fn spec_from_degree(degrees: LatLon<i64>) -> Option<MicroSecond> {
        if i32::MIN <= degrees.0 <= i32::MAX && i32::MIN <= degrees.1 <= i32::MAX {
            Some(MicroSecond { lat: degrees.0 as i32, lon: degrees.1 as i32 })
        } else {
            None
        }
    }

    /// Constructs a shift from its two parts.
    pub fn new(lat: i32, lon: i32) -> (r: MicroSecond)
        ensures
            r.lat == lat,
            r.lon == lon,
    {
        MicroSecond { lat, lon }
    }

    /// The shift as a coordinate difference.
    pub fn to_degree(self) -> (r: LatLon<i64>)
        ensures
            r == self.spec_to_degree(),
            Self::spec_from_degree(r) == Some(self),
    {
        LatLon(self.lat as i64, self.lon as i64)
    }

    /// The coordinate difference as a shift record, unless it exceeds 32
    /// bits.
    pub fn from_degree(degrees: LatLon<i64>) -> (r: Option<MicroSecond>)
        ensures
            r == Self::spec_from_degree(degrees),
    {
        if -0x8000_0000 <= degrees.0 && degrees.0 <= 0x7fff_ffff && -0x8000_0000 <= degrees.1
            && degrees.1 <= 0x7fff_ffff {
            Some(MicroSecond { lat: degrees.0 as i32, lon: degrees.1 as i32 })
        } else {
            None
        }
    }
}

/// A shift record that is taken for a coordinate difference and back is the
/// record that it was, and so is one that is multiplied by [`WEIGHT_SCALE`]
/// and rounded.
pub proof fn law_shift_round_trip(shift: MicroSecond)
    ensures
        MicroSecond::spec_from_degree(shift.spec_to_degree()) == Some(shift),
        rounded(shift.lat * WEIGHT_SCALE) == shift.lat,
        rounded(shift.lon * WEIGHT_SCALE) == shift.lon,
{
}

/// A grid point: the shift measured at the south-west corner of a cell.
#[derive(Debug, Clone, Copy, PartialEq, Eq, Structural)]
pub struct Dot {
    pub mesh: Mesh3,
    pub shift: MicroSecond,
}

impl Dot {
    /// Constructs a grid point.
    pub fn new(mesh: Mesh3, shift: MicroSecond) -> (r: Dot)
        ensures
            r.mesh == mesh,
            r.shift == shift,
    {
        Dot { mesh, shift }
    }
}

/// One micro arc second in the unit of an interpolated [`Shift`]: the
/// product of the two extents of a cell.
pub const WEIGHT_SCALE: i128 = 1_350_000_000_000_000;

/// The largest interpolated shift, in micro arc seconds.
pub const SHIFT_LIMIT: i128 = 0x8_0000_0000;

/// An interpolated shift, exact: each part counts micro arc seconds
/// multiplied by [`WEIGHT_SCALE`].
#[derive(Debug, Clone, Copy, PartialEq, Eq)]
pub struct Shift {
    lat: i128,
    lon: i128,
}

impl View for Shift {
    type V = LatLon<int>;

    closed spec fn view(&self) -> LatLon<int> {
        LatLon(self.lat as int, self.lon as int)
    }
}

/// The integer nearest to `x / WEIGHT_SCALE`; of two that are equally near,
/// the one farther from zero.
pub open spec fn rounded(x: int) -> int {
    if x >= 0 {
        (x + WEIGHT_SCALE / 2) / (WEIGHT_SCALE as int)
    } else {
        -((-x + WEIGHT_SCALE / 2) / (WEIGHT_SCALE as int))
    }
}

/// Rounding misses by half a unit at most.
pub proof fn law_rounded_is_nearest(x: int)
    ensures
        -WEIGHT_SCALE <= 2 * (rounded(x) * WEIGHT_SCALE - x) <= WEIGHT_SCALE,
{
}

fn round(x: i128) -> (r: i64)
    requires
        -SHIFT_LIMIT * WEIGHT_SCALE <= x <= SHIFT_LIMIT * WEIGHT_SCALE,
    ensures
        r == rounded(x as int),
        -SHIFT_LIMIT <= r <= SHIFT_LIMIT,
{
    if x >= 0 {
        ((x + WEIGHT_SCALE / 2) / WEIGHT_SCALE) as i64
    } else {
        -(((-x + WEIGHT_SCALE / 2) / WEIGHT_SCALE) as i64)
    }
}

impl Shift {
    #[verifier::type_invariant]
    pub closed spec fn wf(&self) -> bool {
        &&& -SHIFT_LIMIT * WEIGHT_SCALE <= self.lat <= SHIFT_LIMIT * WEIGHT_SCALE
        &&& -SHIFT_LIMIT * WEIGHT_SCALE <= self.lon <= SHIFT_LIMIT * WEIGHT_SCALE
    }

    /// The shift along latitude.
    pub fn lat(&self) -> (r: i128)
        ensures
            r == self@.0,
    {
        self.lat
    }

    /// The shift along longitude.
    pub fn lon(&self) -> (r: i128)
        ensures
            r == self@.1,
    {
        self.lon
    }

    /// The shift in micro arc seconds, each part rounded to the nearest.
    pub fn to_degree(&self) -> (r: LatLon<i64>)
        ensures
            r.0 == rounded(self@.0),
            r.1 == rounded(self@.1),
            -SHIFT_LIMIT <= r.0 <= SHIFT_LIMIT,
            -SHIFT_LIMIT <= r.1 <= SHIFT_LIMIT,
    {
        proof {
            use_type_invariant(self);
        }
        LatLon(round(self.lat), round(self.lon))
    }
}

/// A table is strictly sorted when every point's cell comes before the cells
/// of all points after it; no cell then occurs twice.
pub open spec fn strictly_sorted(table: Seq<Dot>) -> bool {
    forall|i: int, j: int| 0 <= i < j < table.len() ==> table[i].mesh.spec_lt(table[j].mesh)
}

/// Whether the table holds a point for the cell.
pub open spec fn covers(table: Seq<Dot>, mesh: Mesh3) -> bool {
    exists|i: int| 0 <= i < table.len() && table[i].mesh == mesh
}

/// The shift that the table holds for the cell.
pub open spec fn lookup(table: Seq<Dot>, mesh: Mesh3) -> Option<MicroSecond> {
    if covers(table, mesh) {
        Some(table[choose|i: int| 0 <= i < table.len() && table[i].mesh == mesh].shift)
    } else {
        None
    }
}

/// The sum of one part of the four corner shifts, each multiplied by the
/// distances of the query from the opposite corner; `near` holds the
/// distances from the south-west corner, `far` from the north-east.
pub open spec fn weighted_sum(
    sw: int,
    se: int,
    nw: int,
    ne: int,
    near: LatLon<i64>,
    far: LatLon<i64>,
) -> int {
    sw * far.0 * far.1 + se * far.0 * near.1 + nw * near.0 * far.1 + ne * near.0 * near.1
}

/// The interpolated shift at `degrees`: the weighted sum of the shifts at the
/// four corners of its cell, or nothing where the table lacks one of them.
/// Each part counts micro arc seconds multiplied by [`WEIGHT_SCALE`].
pub open spec fn interpolate(table: Seq<Dot>, degrees: LatLon<i64>) -> Option<LatLon<int>> {
    let mesh = Mesh3::spec_floor(degrees);
    let north_east = mesh.spec_north().spec_east();
    let near = mesh.spec_diagonal_weight(degrees);
    let far = north_east.spec_diagonal_weight(degrees);
    match (
        lookup(table, mesh),
        lookup(table, mesh.spec_east()),
        lookup(table, mesh.spec_north()),
        lookup(table, north_east),
    ) {
        (Some(sw), Some(se), Some(nw), Some(ne)) => Some(
            LatLon(
                weighted_sum(sw.lat as int, se.lat as int, nw.lat as int, ne.lat as int, near, far),
                weighted_sum(sw.lon as int, se.lon as int, nw.lon as int, ne.lon as int, near, far),
            ),
        ),
        _ => None,
    }
}

/// In a strictly sorted table a cell stands at one index at most: the shift
/// that the table holds for the cell of a point is the shift of that point.
pub proof fn law_point_is_found(table: Seq<Dot>, i: int)
    requires
        strictly_sorted(table),
        0 <= i < table.len(),
    ensures
        covers(table, table[i].mesh),
        lookup(table, table[i].mesh) == Some(table[i].shift),
{
    let mesh = table[i].mesh;
    let k = choose|k: int| 0 <= k < table.len() && table[k].mesh == mesh;
    if k < i {
        assert(table[k].mesh.spec_lt(table[i].mesh));
    } else if i < k {
        assert(table[i].mesh.spec_lt(table[k].mesh));
    }
}

/// Whether the table holds all four corners of the cell.
pub open spec fn covers_corners(table: Seq<Dot>, mesh: Mesh3) -> bool {
    &&& covers(table, mesh)
    &&& covers(table, mesh.spec_east())
    &&& covers(table, mesh.spec_north())
    &&& covers(table, mesh.spec_north().spec_east())
}

/// Whether a coordinate has a shift depends on its cell alone: it has one
/// exactly when the table holds the four corners of the cell.
pub proof fn law_coverage_by_cell(table: Seq<Dot>, degrees: LatLon<i64>)
    ensures
        interpolate(table, degrees) is Some <==> covers_corners(table, Mesh3::spec_floor(degrees)),
{
}

/// At the northern edge of the coverage, one micro arc second decides: the
/// last coordinate of a cell with its four corners has a shift, and the next
/// one to the north has none when the cell there lacks a corner.
pub proof fn law_northern_boundary(table: Seq<Dot>, mesh: Mesh3, degrees: LatLon<i64>)
    requires
        0 <= mesh.lat < i16::MAX,
        0 <= mesh.lon,
        covers_corners(table, mesh),
        !covers_corners(table, mesh.spec_north()),
        degrees.0 == (mesh.lat + 1) * LAT_SPAN - 1,
        Mesh3::spec_floor(degrees).lon == mesh.lon,
    ensures
        interpolate(table, degrees) is Some,
        interpolate(table, LatLon((degrees.0 + 1) as i64, degrees.1)) is None,
{
    let beyond = LatLon((degrees.0 + 1) as i64, degrees.1);
    law_truncated_quotient(degrees.0 as int, LAT_SPAN as int, mesh.lat as int);
    law_truncated_quotient(beyond.0 as int, LAT_SPAN as int, mesh.lat + 1);
    assert(Mesh3::spec_floor(degrees) == mesh);
    assert(Mesh3::spec_floor(beyond) == mesh.spec_north());
}

/// At the eastern edge of the coverage, one micro arc second decides: the
/// last coordinate of a cell with its four corners has a shift, and the next
/// one to the east has none when the cell there lacks a corner.
pub proof fn law_eastern_boundary(table: Seq<Dot>, mesh: Mesh3, degrees: LatLon<i64>)
    requires
        0 <= mesh.lat,
        0 <= mesh.lon < i16::MAX,
        covers_corners(table, mesh),
        !covers_corners(table, mesh.spec_east()),
        degrees.1 == (mesh.lon + 1) * LON_SPAN - 1,
        Mesh3::spec_floor(degrees).lat == mesh.lat,
    ensures
        interpolate(table, degrees) is Some,
        interpolate(table, LatLon(degrees.0, (degrees.1 + 1) as i64)) is None,
{
    let beyond = LatLon(degrees.0, (degrees.1 + 1) as i64);
    law_truncated_quotient(degrees.1 as int, LON_SPAN as int, mesh.lon as int);
    law_truncated_quotient(beyond.1 as int, LON_SPAN as int, mesh.lon + 1);
    assert(Mesh3::spec_floor(degrees) == mesh);
    assert(Mesh3::spec_floor(beyond) == mesh.spec_east());
}

/// The weighted sum with each product of two distances written as one factor.
proof fn lemma_weighted_sum(sw: int, se: int, nw: int, ne: int, n: int, e: int, s: int, w: int)
    ensures
        weighted_sum(sw, se, nw, ne, LatLon(n as i64, e as i64), LatLon(s as i64, w as i64)) == sw
            * ((s as i64) * (w as i64)) + se * ((s as i64) * (e as i64)) + nw * ((n as i64) * (
        w as i64)) + ne * ((n as i64) * (e as i64)),
{
    let (n, e, s, w) = (n as i64, e as i64, s as i64, w as i64);
    assert(sw * s * w == sw * (s * w)) by (nonlinear_arith);
    assert(se * s * e == se * (s * e)) by (nonlinear_arith);
    assert(nw * n * w == nw * (n * w)) by (nonlinear_arith);
    assert(ne * n * e == ne * (n * e)) by (nonlinear_arith);
}

/// At the south-west corner of a cell the interpolated shift is the shift of
/// that corner's own grid point, without error.
pub proof fn law_corner_is_exact(table: Seq<Dot>, mesh: Mesh3)
    requires
        mesh.lat < i16::MAX,
        mesh.lon < i16::MAX,
        covers_corners(table, mesh),
    ensures
        interpolate(table, mesh.spec_to_degree()) == Some(
            LatLon(
                lookup(table, mesh).unwrap().lat * WEIGHT_SCALE,
                lookup(table, mesh).unwrap().lon * WEIGHT_SCALE,
            ),
        ),
{
    let degrees = mesh.spec_to_degree();
    law_floor(degrees, mesh.lat as int, mesh.lon as int);
    let near = mesh.spec_diagonal_weight(degrees);
    let far = mesh.spec_north().spec_east().spec_diagonal_weight(degrees);
    assert(near == LatLon(0i64, 0i64));
    assert(far == LatLon(LAT_SPAN, LON_SPAN));
    assert forall|sw: int, se: int, nw: int, ne: int|
        #[trigger] weighted_sum(sw, se, nw, ne, near, far) == sw * WEIGHT_SCALE by {
        lemma_weighted_sum(sw, se, nw, ne, 0, 0, LAT_SPAN as int, LON_SPAN as int);
    }
}

/// At the centre of a cell north of the equator and east of the prime
/// meridian the four weights are equal: the interpolated shift is the mean
/// of the four corner shifts.
pub proof fn law_centre_is_mean(table: Seq<Dot>, mesh: Mesh3)
    requires
        0 <= mesh.lat < i16::MAX,
        0 <= mesh.lon < i16::MAX,
        covers_corners(table, mesh),
    ensures
        interpolate(
            table,
            LatLon(
                (mesh.lat * LAT_SPAN + LAT_SPAN / 2) as i64,
                (mesh.lon * LON_SPAN + LON_SPAN / 2) as i64,
            ),
        ) matches Some(shift) && {
            let sw = lookup(table, mesh).unwrap();
            let se = lookup(table, mesh.spec_east()).unwrap();
            let nw = lookup(table, mesh.spec_north()).unwrap();
            let ne = lookup(table, mesh.spec_north().spec_east()).unwrap();
            &&& 4 * shift.0 == (sw.lat + se.lat + nw.lat + ne.lat) * WEIGHT_SCALE
            &&& 4 * shift.1 == (sw.lon + se.lon + nw.lon + ne.lon) * WEIGHT_SCALE
        },
{
    let degrees = LatLon(
        (mesh.lat * LAT_SPAN + LAT_SPAN / 2) as i64,
        (mesh.lon * LON_SPAN + LON_SPAN / 2) as i64,
    );
    law_floor(degrees, mesh.lat as int, mesh.lon as int);
    let near = mesh.spec_diagonal_weight(degrees);
    let far = mesh.spec_north().spec_east().spec_diagonal_weight(degrees);
    assert(near == LatLon(15_000_000i64, 22_500_000i64));
    assert(far == LatLon(15_000_000i64, 22_500_000i64));
    assert forall|sw: int, se: int, nw: int, ne: int|
        4 * #[trigger] weighted_sum(sw, se, nw, ne, near, far) == (sw + se + nw + ne)
            * WEIGHT_SCALE by {
        lemma_weighted_sum(sw, se, nw, ne, 15_000_000, 22_500_000, 15_000_000, 22_500_000);
        assert(15_000_000i64 * 22_500_000i64 == 337_500_000_000_000);
    }
}

/// North of the equator and east of the prime meridian the distances of a
/// coordinate from the two opposite corners of its cell make up the extent
/// of the cell along each axis: the four weights add up to one.
pub proof fn law_weights_add_up(degrees: LatLon<i64>)
    requires
        Mesh3::in_domain(degrees),
        0 <= degrees.0,
        0 <= degrees.1,
    ensures
        ({
            let mesh = Mesh3::spec_floor(degrees);
            let near = mesh.spec_diagonal_weight(degrees);
            let far = mesh.spec_north().spec_east().spec_diagonal_weight(degrees);
            &&& 0 <= near.0 < LAT_SPAN
            &&& 0 <= near.1 < LON_SPAN
            &&& near.0 + far.0 == LAT_SPAN
            &&& near.1 + far.1 == LON_SPAN
        }),
{
    law_floor_is_near(degrees);
}

/// A weighted sum whose weights add up to one lies between the least and
/// the greatest of its four terms.
pub proof fn law_weighted_sum_is_between(
    sw: int,
    se: int,
    nw: int,
    ne: int,
    near: LatLon<i64>,
    far: LatLon<i64>,
    low: int,
    high: int,
)
    requires
        0 <= near.0,
        0 <= near.1,
        0 <= far.0,
        0 <= far.1,
        near.0 + far.0 == LAT_SPAN,
        near.1 + far.1 == LON_SPAN,
        low <= sw <= high,
        low <= se <= high,
        low <= nw <= high,
        low <= ne <= high,
    ensures
        low * WEIGHT_SCALE <= weighted_sum(sw, se, nw, ne, near, far) <= high * WEIGHT_SCALE,
{
    let (n, e, s, w) = (near.0 as int, near.1 as int, far.0 as int, far.1 as int);
    lemma_weighted_sum(sw, se, nw, ne, n, e, s, w);
    let (a, b, c, d) = (s * w, s * e, n * w, n * e);
    assert(a + b + c + d == WEIGHT_SCALE) by (nonlinear_arith)
        requires
            a == s * w,
            b == s * e,
            c == n * w,
            d == n * e,
            n + s == 30_000_000,
            e + w == 45_000_000,
            WEIGHT_SCALE == 1_350_000_000_000_000,
    ;
    assert(0 <= a && 0 <= b && 0 <= c && 0 <= d) by (nonlinear_arith)
        requires
            a == s * w,
            b == s * e,
            c == n * w,
            d == n * e,
            0 <= n,
            0 <= e,
            0 <= s,
            0 <= w,
    ;
    assert(low * (a + b + c + d) <= sw * a + se * b + nw * c + ne * d <= high * (a + b + c + d))
        by (nonlinear_arith)
        requires
            0 <= a,
            0 <= b,
            0 <= c,
            0 <= d,
            low <= sw <= high,
            low <= se <= high,
            low <= nw <= high,
            low <= ne <= high,
    ;
}

/// North of the equator and east of the prime meridian each part of an
/// interpolated shift lies between the least and the greatest of that part
/// of the four corner shifts.
pub proof fn law_shift_is_between_corners(
    table: Seq<Dot>,
    degrees: LatLon<i64>,
    low: MicroSecond,
    high: MicroSecond,
)
    requires
        Mesh3::in_domain(degrees),
        0 <= degrees.0,
        0 <= degrees.1,
        covers_corners(table, Mesh3::spec_floor(degrees)),
        ({
            let mesh = Mesh3::spec_floor(degrees);
            forall|corner: Mesh3|
                corner == mesh || corner == mesh.spec_east() || corner == mesh.spec_north()
                    || corner == mesh.spec_north().spec_east() ==> {
                    &&& low.lat <= (#[trigger] lookup(table, corner)).unwrap().lat <= high.lat
                    &&& low.lon <= lookup(table, corner).unwrap().lon <= high.lon
                }
        }),
    ensures
        interpolate(table, degrees) matches Some(shift) && {
            &&& low.lat * WEIGHT_SCALE <= shift.0 <= high.lat * WEIGHT_SCALE
            &&& low.lon * WEIGHT_SCALE <= shift.1 <= high.lon * WEIGHT_SCALE
        },
{
    let mesh = Mesh3::spec_floor(degrees);
    let near = mesh.spec_diagonal_weight(degrees);
    let far = mesh.spec_north().spec_east().spec_diagonal_weight(degrees);
    law_weights_add_up(degrees);
    let sw = lookup(table, mesh).unwrap();
    let se = lookup(table, mesh.spec_east()).unwrap();
    let nw = lookup(table, mesh.spec_north()).unwrap();
    let ne = lookup(table, mesh.spec_north().spec_east()).unwrap();
    law_weighted_sum_is_between(
        sw.lat as int,
        se.lat as int,
        nw.lat as int,
        ne.lat as int,
        near,
        far,
        low.lat as int,
        high.lat as int,
    );
    law_weighted_sum_is_between(
        sw.lon as int,
        se.lon as int,
        nw.lon as int,
        ne.lon as int,
        near,
        far,
        low.lon as int,
        high.lon as int,
    );
}

/// The cell to the east of a point's cell has its point next in the table,
/// or none.
proof fn lemma_next_cell_is_next_point(table: Seq<Dot>, i: int, east: Mesh3)
    requires
        strictly_sorted(table),
        0 <= i < table.len(),
        table[i].mesh.lon < i16::MAX,
        east == table[i].mesh.spec_east(),
        !(i + 1 < table.len() && table[i + 1].mesh == east),
    ensures
        !covers(table, east),
{
    if covers(table, east) {
        let k = choose|k: int| 0 <= k < table.len() && table[k].mesh == east;
        if k < i {
            assert(table[k].mesh.spec_lt(table[i].mesh));
        } else if k > i + 1 {
            assert(table[i].mesh.spec_lt(table[i + 1].mesh));
            assert(table[i + 1].mesh.spec_lt(table[k].mesh));
        }
    }
}

/// A cell that comes after a point's cell has its point later in the table,
/// or none.
proof fn lemma_later_cell_is_later_point(table: Seq<Dot>, i: int, later: Mesh3)
    requires
        strictly_sorted(table),
        0 <= i < table.len(),
        table[i].mesh.spec_lt(later),
        forall|j: int| i + 1 <= j < table.len() ==> table[j].mesh != later,
    ensures
        !covers(table, later),
{
    if covers(table, later) {
        let k = choose|k: int| 0 <= k < table.len() && table[k].mesh == later;
        if k < i {
            assert(table[k].mesh.spec_lt(table[i].mesh));
        }
    }
}

/// One term of the weighted sum.
fn weighted(shift: i32, a: i64, b: i64) -> (r: i128)
    requires
        0 <= a <= 2 * LAT_SPAN,
        0 <= b <= 2 * LON_SPAN,
    ensures
        r == shift * a * b,
        -0x8000_0000 * (4 * WEIGHT_SCALE) <= r <= 0x8000_0000 * (4 * WEIGHT_SCALE),
{
    let shift: i128 = shift as i128;
    let a: i128 = a as i128;
    let b: i128 = b as i128;
    assert(-0x8000_0000 * (2 * LAT_SPAN) <= shift * a <= 0x8000_0000 * (2 * LAT_SPAN))
        by (nonlinear_arith)
        requires
            -0x8000_0000 <= shift <= 0x8000_0000,
            0 <= a <= 2 * LAT_SPAN,
    ;
    let sa = shift * a;
    assert(-0x8000_0000 * (4 * WEIGHT_SCALE) <= sa * b <= 0x8000_0000 * (4 * WEIGHT_SCALE))
        by (nonlinear_arith)
        requires
            -0x8000_0000 * (2 * LAT_SPAN) <= sa <= 0x8000_0000 * (2 * LAT_SPAN),
            0 <= b <= 2 * LON_SPAN,
            WEIGHT_SCALE == LAT_SPAN * LON_SPAN,
    ;
    sa * b
}

/// Parameters grid: grid points sorted by cell, no cell twice.
pub struct Grid<'a> {
    dots: &'a [Dot],
}

impl<'a> View for Grid<'a> {
    type V = Seq<Dot>;

    closed spec fn view(&self) -> Seq<Dot> {
        self.dots@
    }
}

impl<'a> Grid<'a> {
    #[verifier::type_invariant]
    pub open spec fn wf(&self) -> bool {
        strictly_sorted(self@)
    }

    /// Whether the points are in the order that a grid needs.
    pub fn is_sorted(dots: &[Dot]) -> (r: bool)
        ensures
            r == strictly_sorted(dots@),
    {
        let n = dots.len();
        if n == 0 {
            return true;
        }
        let mut i: usize = 1;
        while i < n
            invariant
                1 <= i <= n,
                n == dots@.len(),
                forall|a: int, b: int| 0 <= a < b < i ==> dots@[a].mesh.spec_lt(dots@[b].mesh),
            decreases n - i,
        {
            if !dots[i - 1].mesh.lt(dots[i].mesh) {
                return false;
            }
            assert forall|a: int, b: int| 0 <= a < b < i + 1 implies dots@[a].mesh.spec_lt(
                dots@[b].mesh,
            ) by {
                if b == i && a < i - 1 {
                    assert(dots@[a].mesh.spec_lt(dots@[i - 1].mesh));
                }
            }
            i += 1;
        }
        true
    }

    /// A grid over points that are strictly sorted by cell.
    pub fn new(dots: &'a [Dot]) -> (r: Self)
        requires
            strictly_sorted(dots@),
        ensures
            r@ == dots@,
    {
        Self { dots }
    }

    /// The points of the grid, in order.
    pub fn dots(&self) -> (r: &'a [Dot])
        ensures
            r@ == self@,
            strictly_sorted(r@),
    {
        proof {
            use_type_invariant(self);
        }
        self.dots
    }

    /// Searches the points from index `first` on for the cell `query`. Gives
    /// the index of its point, or nothing where none of those points is in
    /// that cell.
    pub fn search_after(&self, first: usize, query: Mesh3) -> (r: Option<usize>)
        ensures
            match r {
                Some(i) => first <= i < self@.len() && self@[i as int].mesh == query,
                None => forall|j: int| first <= j < self@.len() ==> self@[j].mesh != query,
            },
    {
        proof {
            use_type_invariant(self);
        }
        let n = self.dots.len();
        if first > n {
            return None;
        }
        let mut lo: usize = first;
        let mut hi: usize = n;
        while lo < hi
            invariant
                first <= lo <= hi <= n,
                n == self.dots@.len(),
                strictly_sorted(self.dots@),
                forall|j: int| first <= j < lo ==> self.dots@[j].mesh.spec_lt(query),
                forall|j: int| hi <= j < n ==> query.spec_lt(self.dots@[j].mesh),
            decreases hi - lo,
        {
            let mid = lo + (hi - lo) / 2;
            let mesh = self.dots[mid].mesh;
            if mesh.lt(query) {
                assert forall|j: int| first <= j < mid + 1 implies self.dots@[j].mesh.spec_lt(
                    query,
                ) by {
                    if j < mid {
                        assert(self.dots@[j].mesh.spec_lt(self.dots@[mid as int].mesh));
                    }
                }
                lo = mid + 1;
            } else if query.lt(mesh) {
                assert forall|j: int| mid <= j < n implies query.spec_lt(self.dots@[j].mesh) by {
                    if mid < j {
                        assert(self.dots@[mid as int].mesh.spec_lt(self.dots@[j].mesh));
                    }
                }
                hi = mid;
            } else {
                return Some(mid);
            }
        }
        None
    }

    /// The shift at a coordinate, interpolated between the four corners of
    /// its cell: each corner's shift counts by the distances of the
    /// coordinate from the opposite corner.
    ///
    /// Gives nothing where the grid lacks one of the four corners.
    pub fn bilinear(&self, degrees: LatLon<i64>) -> (r: Option<Shift>)
        requires
            Mesh3::in_domain(degrees),
        ensures
            match r {
                Some(shift) => interpolate(self@, degrees) == Some(shift@),
                None => interpolate(self@, degrees) is None,
            },
    {
        proof {
            use_type_invariant(self);
            law_floor_is_near(degrees);
        }
        let mesh = Mesh3::floor(degrees);
        let ghost table = self@;

        let i = match self.search_after(0, mesh) {
            Some(i) => i,
            None => {
                return None;
            },
        };
        let sw_shift = self.dots[i].shift;
        proof {
            law_point_is_found(table, i as int);
        }

        let i = match self.search_at(i + 1, mesh.east()) {
            Some(i) => i,
            None => {
                proof {
                    lemma_next_cell_is_next_point(table, i as int, mesh.spec_east());
                }
                return None;
            },
        };
        let se_shift = self.dots[i].shift;
        proof {
            law_point_is_found(table, i as int);
        }

        let i = match self.search_after(i + 1, mesh.north()) {
            Some(i) => i,
            None => {
                proof {
                    lemma_later_cell_is_later_point(table, i as int, mesh.spec_north());
                }
                return None;
            },
        };
        let nw_shift = self.dots[i].shift;
        proof {
            law_point_is_found(table, i as int);
        }

        let i = match self.search_at(i + 1, mesh.north().east()) {
            Some(i) => i,
            None => {
                proof {
                    lemma_next_cell_is_next_point(table, i as int, mesh.spec_north().spec_east());
                }
                return None;
            },
        };
        let ne_shift = self.dots[i].shift;
        proof {
            law_point_is_found(table, i as int);
        }

        let near = mesh.diagonal_weight(degrees);
        let far = mesh.north().east().diagonal_weight(degrees);

        // weighted mean
        let lat = weighted(sw_shift.lat, far.0, far.1) + weighted(se_shift.lat, far.0, near.1)
            + weighted(nw_shift.lat, near.0, far.1) + weighted(ne_shift.lat, near.0, near.1);
        let lon = weighted(sw_shift.lon, far.0, far.1) + weighted(se_shift.lon, far.0, near.1)
            + weighted(nw_shift.lon, near.0, far.1) + weighted(ne_shift.lon, near.0, near.1);

        Some(Shift { lat, lon })
    }

    /// Tells whether the point at `index` is that of the cell `query`.
    pub fn search_at(&self, index: usize, query: Mesh3) -> (r: Option<usize>)
        ensures
            r == if index < self@.len() && self@[index as int].mesh == query {
                Some(index)
            } else {
                None
            },
    {
        if index < self.dots.len() && self.dots[index].mesh == query {
            Some(index)
        } else {
            None
        }
    }
}

} // verus!
