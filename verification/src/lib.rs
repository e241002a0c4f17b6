//! Transform geodetic datums used in Japan, in fixed-point arithmetic.
//!
//! A grid of measured shifts moves a coordinate from one datum to another:
//! the shift at a coordinate is interpolated between the four grid points at
//! the corners of its mesh cell. Angles are counted in micro arc seconds, and
//! an interpolated shift is exact.
//!
//! - [`coord`]: a pair of latitude and longitude, and the range of degrees.
//! - [`mesh`]: the mesh cell of a coordinate, and its neighbors.
//! - [`grid`]: grid points sorted by cell, their search, and the
//!   interpolation of a shift.
//! - [`crs`]: the datums, and their transformation by a grid.
//! - [`record`]: a line of a parameter file, as text and in twelve bytes.
//! - [`par`]: the compilation of lines into a table without repetitions,
//!   sorted by cell.
//! - [`source`]: the lines of a parameter file.
//! - [`binary`]: a table in its binary form, written and read back.

pub mod binary;
pub mod coord;
pub mod crs;
pub mod grid;
pub mod mesh;
pub mod par;
pub mod record;
pub mod source;

pub use coord::{DegreesError, LatLon};
pub use crs::{Jgd2000, Jgd2011, Tokyo, Tokyo97};
pub use grid::{Dot, Grid, MicroSecond, Shift};
pub use mesh::Mesh3;
pub use record::Record;
