use crate::coord::{DegreesError, LatLon};
use crate::grid::{interpolate, rounded, Grid};
use crate::mesh::Mesh3;
use vstd::prelude::*;

verus! {

/// The coordinate moved by an interpolated shift, which is rounded to micro
/// arc seconds.
pub open spec fn shifted(degrees: LatLon<i64>, shift: LatLon<int>) -> LatLon<i64> {
    LatLon((degrees.0 + rounded(shift.0)) as i64, (degrees.1 + rounded(shift.1)) as i64)
}

/// Tokyo Datum, The older Japanese Datum.
///
/// EPSG: 4301
pub struct Tokyo {
    degrees: LatLon<i64>,
}

impl View for Tokyo {
    type V = LatLon<i64>;

    closed spec fn view(&self) -> LatLon<i64> {
        self.degrees
    }
}

impl Tokyo {
    #[verifier::type_invariant]
    spec fn wf(&self) -> bool {
        self.degrees.in_degrees_range()
    }

    /// Constructs a [`Tokyo`] with a coordinate in the range of degrees.
    pub fn new(degrees: LatLon<i64>) -> (r: Result<Self, DegreesError>)
        ensures
            match r {
                Ok(tokyo) => degrees.in_degrees_range() && tokyo@ == degrees,
                Err(e) => !degrees.in_degrees_range() && e.possibly_reversed
                    == degrees.reversed().in_degrees_range(),
            },
    {
        match degrees.validate_degrees() {
            Ok(()) => Ok(Self { degrees }),
            Err(e) => Err(e),
        }
    }

    /// Transforms to [`Jgd2000`] by the shift that the grid gives for the
    /// coordinate. Where the grid has none, neither has the result: the
    /// grid's coverage ends there.
    pub fn to_jgd2000(&self, grid: &Grid) -> (r: Option<Jgd2000>)
        ensures
            match interpolate(grid@, self@) {
                Some(shift) => r matches Some(moved) && moved@ == shifted(self@, shift),
                None => r is None,
            },
    {
        proof {
            use_type_invariant(self);
        }
        match grid.bilinear(self.degrees) {
            Some(shift) => {
                let by = shift.to_degree();
                Some(Jgd2000 { degrees: LatLon(self.degrees.0 + by.0, self.degrees.1 + by.1) })
            },
            None => None,
        }
    }

    /// Returns coordinate in degrees.
    pub fn degrees(&self) -> (r: LatLon<i64>)
        ensures
            r == self@,
            r.in_degrees_range(),
    {
        proof {
            use_type_invariant(self);
        }
        self.degrees
    }
}

/// Tokyo 97, The older Japanese Datum.
pub struct Tokyo97 {
    degrees: LatLon<i64>,
}

impl View for Tokyo97 {
    type V = LatLon<i64>;

    closed spec fn view(&self) -> LatLon<i64> {
        self.degrees
    }
}

impl Tokyo97 {
    #[verifier::type_invariant]
    spec fn wf(&self) -> bool {
        self.degrees.in_degrees_range()
    }

    /// Constructs a [`Tokyo97`] with a coordinate in the range of degrees.
    pub fn new(degrees: LatLon<i64>) -> (r: Result<Self, DegreesError>)
        ensures
            match r {
                Ok(tokyo97) => degrees.in_degrees_range() && tokyo97@ == degrees,
                Err(e) => !degrees.in_degrees_range() && e.possibly_reversed
                    == degrees.reversed().in_degrees_range(),
            },
    {
        match degrees.validate_degrees() {
            Ok(()) => Ok(Self { degrees }),
            Err(e) => Err(e),
        }
    }

    /// Returns coordinate in degrees.
    pub fn degrees(&self) -> (r: LatLon<i64>)
        ensures
            r == self@,
            r.in_degrees_range(),
    {
        proof {
            use_type_invariant(self);
        }
        self.degrees
    }
}

/// Japanese Geodetic Datum 2000 (JGD2000).
///
/// EPSG: 4612
pub struct Jgd2000 {
    degrees: LatLon<i64>,
}

impl View for Jgd2000 {
    type V = LatLon<i64>;

    closed spec fn view(&self) -> LatLon<i64> {
        self.degrees
    }
}

impl Jgd2000 {
    #[verifier::type_invariant]
    spec fn wf(&self) -> bool {
        Mesh3::in_domain(self.degrees)
    }

    /// Constructs a [`Jgd2000`] with a coordinate in the range of degrees.
    pub fn new(degrees: LatLon<i64>) -> (r: Result<Self, DegreesError>)
        ensures
            match r {
                Ok(jgd2000) => degrees.in_degrees_range() && jgd2000@ == degrees,
                Err(e) => !degrees.in_degrees_range() && e.possibly_reversed
                    == degrees.reversed().in_degrees_range(),
            },
    {
        match degrees.validate_degrees() {
            Ok(()) => Ok(Self { degrees }),
            Err(e) => Err(e),
        }
    }

    /// Transforms to [`Jgd2011`] by the shift that the grid gives for the
    /// coordinate. Where the grid has none, the coordinate stays as it is.
    pub fn to_jgd2011(&self, grid: &Grid) -> (r: Jgd2011)
        ensures
            r@ == match interpolate(grid@, self@) {
                Some(shift) => shifted(self@, shift),
                None => self@,
            },
    {
        proof {
            use_type_invariant(self);
        }
        match grid.bilinear(self.degrees) {
            Some(shift) => {
                let by = shift.to_degree();
                Jgd2011 { degrees: LatLon(self.degrees.0 + by.0, self.degrees.1 + by.1) }
            },
            None => Jgd2011 { degrees: self.degrees },
        }
    }

    /// Returns coordinate in degrees.
    pub fn degrees(&self) -> (r: LatLon<i64>)
        ensures
            r == self@,
    {
        self.degrees
    }
}

/// Japanese Geodetic Datum 2011 (JGD2011).
///
/// EPSG: 6668
pub struct Jgd2011 {
    degrees: LatLon<i64>,
}

impl View for Jgd2011 {
    type V = LatLon<i64>;

    closed spec fn view(&self) -> LatLon<i64> {
        self.degrees
    }
}

impl Jgd2011 {
    /// Returns coordinate in degrees.
    pub fn degrees(&self) -> (r: LatLon<i64>)
        ensures
            r == self@,
    {
        self.degrees
    }
}

} // verus!
