use crate::grid::{Dot, MicroSecond};
use crate::mesh::Mesh3;
use vstd::prelude::*;
use vstd::string::StringSliceAdditionalSpecFns;

verus! {

/// One line of a parameter file: the serial numbers of a mesh cell along
/// latitude and longitude, and its shift along both in micro arc seconds.
#[derive(Debug, Clone, Copy, PartialEq, Eq, PartialOrd, Ord, Structural)]
pub struct Record(pub i16, pub i16, pub i32, pub i32);

/// The part of a line that a reading stopped at.
#[derive(Debug, Clone, Copy, PartialEq, Eq, Structural)]
pub enum Field {
    /// The two first-level mesh numbers.
    Mesh1,
    /// The two second-level mesh numbers.
    Mesh2,
    /// The two third-level mesh numbers.
    Mesh3,
    /// The serial number along latitude.
    Lat,
    /// The serial number along longitude.
    Lon,
    /// The shift along latitude, `dB(sec)`.
    LatShift,
    /// The shift along longitude, `dL(sec)`.
    LonShift,
}

/// Why a reading stopped.
#[derive(Debug, Clone, Copy, PartialEq, Eq, Structural)]
pub enum Cause {
    /// The line ends before the field does.
    Truncated,
    /// The field does not hold a number.
    NotANumber,
    /// The decimal point is not where it belongs.
    NoDecimalPoint,
    /// The value exceeds the bits of its field in a record.
    Overflow,
}

/// A line that is no record.
#[derive(Debug, Clone, Copy, PartialEq, Eq, Structural)]
pub struct ParseError {
    pub field: Field,
    pub cause: Cause,
}

/// Whether the byte is a decimal digit.
pub open spec fn is_digit(byte: u8) -> bool {
    0x30 <= byte <= 0x39
}

/// The number that a run of decimal digits writes.
pub open spec fn digits_value(digits: Seq<u8>) -> int
    decreases digits.len(),
{
    if digits.len() == 0 {
        0
    } else {
        digits_value(digits.drop_last()) * 10 + (digits.last() - 0x30)
    }
}

/// How many spaces a field begins with.
pub open spec fn leading_spaces(field: Seq<u8>) -> int
    decreases field.len(),
{
    if field.len() > 0 && field[0] == 0x20 {
        1 + leading_spaces(field.skip(1))
    } else {
        0
    }
}

/// Whether the bytes are decimal digits, one at least.
pub open spec fn is_digits(digits: Seq<u8>) -> bool {
    digits.len() > 0 && forall|i: int| 0 <= i < digits.len() ==> is_digit(#[trigger] digits[i])
}

/// A right-justified number: spaces, then a sign or none, then digits; no
/// sign where `signed` is false. Gives whether a minus sign is written, and
/// the magnitude.
pub open spec fn spec_number(field: Seq<u8>, signed: bool) -> Option<(bool, int)> {
    let body = field.skip(leading_spaces(field));
    let signed = signed && body.len() > 0 && (body[0] == 0x2b || body[0] == 0x2d);
    let digits = if signed {
        body.skip(1)
    } else {
        body
    };
    if is_digits(digits) {
        Some((signed && body[0] == 0x2d, digits_value(digits)))
    } else {
        None
    }
}

/// The number that stands in the columns from `start` up to `end`.
pub open spec fn number_at(line: Seq<u8>, start: int, end: int, signed: bool) -> Result<
    (bool, int),
    Cause,
> {
    if line.len() < end {
        Err(Cause::Truncated)
    } else {
        match spec_number(line.subrange(start, end), signed) {
            Some(number) => Ok(number),
            None => Err(Cause::NotANumber),
        }
    }
}

/// The value of a number with its sign.
pub open spec fn signed_value(number: (bool, int)) -> int {
    if number.0 {
        -number.1
    } else {
        number.1
    }
}

/// Ten to the power of `n`.
pub open spec fn pow10(n: nat) -> int
    decreases n,
{
    if n == 0 {
        1
    } else {
        10 * pow10((n - 1) as nat)
    }
}

proof fn lemma_pow10_18()
    ensures
        pow10(18) == 1_000_000_000_000_000_000,
{
    reveal_with_fuel(pow10, 19);
}

proof fn lemma_pow10_grows(a: nat, b: nat)
    requires
        a <= b,
    ensures
        0 < pow10(a) <= pow10(b),
    decreases b,
{
    if a < b {
        lemma_pow10_grows(a, (b - 1) as nat);
    } else if a > 0 {
        lemma_pow10_grows((a - 1) as nat, (a - 1) as nat);
    }
}

proof fn lemma_leading_spaces(field: Seq<u8>, k: int)
    requires
        0 <= k <= field.len(),
        forall|i: int| 0 <= i < k ==> field[i] == 0x20,
        k == field.len() || field[k] != 0x20,
    ensures
        leading_spaces(field) == k,
    decreases k,
{
    if k > 0 {
        lemma_leading_spaces(field.skip(1), k - 1);
    }
}

/// Reads the number in the columns from `start` up to `end`.
fn parse_number(line: &[u8], start: usize, end: usize, signed: bool) -> (r: Result<
    (bool, i64),
    Cause,
>)
    requires
        start <= end,
        end - start <= 18,
    ensures
        match number_at(line@, start as int, end as int, signed) {
            Ok((negative, magnitude)) => r == Ok::<(bool, i64), Cause>((negative, magnitude as i64))
                && 0 <= magnitude < pow10((end - start) as nat) <= pow10(18),
            Err(cause) => r == Err::<(bool, i64), Cause>(cause),
        },
{
    if line.len() < end {
        return Err(Cause::Truncated);
    }
    let ghost field = line@.subrange(start as int, end as int);
    let mut i: usize = start;
    while i < end && line[i] == 0x20
        invariant
            start <= i <= end <= line@.len(),
            forall|j: int| start <= j < i ==> line@[j] == 0x20,
        decreases end - i,
    {
        i += 1;
    }
    proof {
        lemma_leading_spaces(field, i - start);
        lemma_pow10_grows((end - start) as nat, 18);
    }
    let ghost body = field.skip(i - start);
    let mut negative = false;
    if signed && i < end && (line[i] == 0x2b || line[i] == 0x2d) {
        negative = line[i] == 0x2d;
        i += 1;
    }
    let first: usize = i;
    let ghost digits = line@.subrange(first as int, end as int);
    assert(digits =~= if signed && body.len() > 0 && (body[0] == 0x2b || body[0] == 0x2d) {
        body.skip(1)
    } else {
        body
    });
    assert(spec_number(field, signed) == if is_digits(digits) {
        Some((negative, digits_value(digits)))
    } else {
        None
    });
    if i == end {
        return Err(Cause::NotANumber);
    }
    let mut magnitude: i64 = 0;
    while i < end
        invariant
            first <= i <= end <= line@.len(),
            start <= first,
            end - first <= 18,
            field == line@.subrange(start as int, end as int),
            digits == line@.subrange(first as int, end as int),
            spec_number(field, signed) == if is_digits(digits) {
                Some((negative, digits_value(digits)))
            } else {
                None
            },
            forall|j: int| 0 <= j < i - first ==> is_digit(#[trigger] digits[j]),
            magnitude == digits_value(digits.take(i - first)),
            0 <= magnitude < pow10((i - first) as nat),
        decreases end - i,
    {
        let byte = line[i];
        if byte < 0x30 || byte > 0x39 {
            assert(!is_digit(digits[i - first]));
            return Err(Cause::NotANumber);
        }
        proof {
            let longer = digits.take(i - first + 1);
            assert(longer.drop_last() =~= digits.take(i - first));
            assert(longer.last() == byte);
            lemma_pow10_grows((i - first + 1) as nat, 18);
            lemma_pow10_18();
        }
        magnitude = magnitude * 10 + (byte - 0x30) as i64;
        i += 1;
    }
    proof {
        assert(digits.take(end - first) =~= digits);
        lemma_pow10_grows((end - first) as nat, (end - start) as nat);
    }
    Ok((negative, magnitude))
}

/// The numbers of one mesh level, along latitude and along longitude: two
/// fields of `chunk` columns each, from column `start` on.
pub open spec fn spec_meshcode(line: Seq<u8>, start: int, chunk: int) -> Result<(int, int), Cause> {
    match number_at(line, start, start + chunk, true) {
        Err(cause) => Err(cause),
        Ok(lat) => match number_at(line, start + chunk, start + 2 * chunk, true) {
            Err(cause) => Err(cause),
            Ok(lon) => Ok((signed_value(lat), signed_value(lon))),
        },
    }
}

/// Serial number of 3rd mesh grids starting from BL(0,0), where it fits in
/// sixteen bits.
pub open spec fn spec_to_grid(mesh1: int, mesh2: int, mesh3: int) -> Option<i16> {
    let serial = mesh1 * 80 + mesh2 * 10 + mesh3;
    if i16::MIN <= serial <= i16::MAX {
        Some(serial as i16)
    } else {
        None
    }
}

/// A shift written in arc seconds from column `start` on: four columns for
/// the integer part with its sign, a decimal point, five columns for the
/// decimal part without one. The value is in micro arc seconds; it is
/// negative where the integer part has a minus sign, be it `-0`.
pub open spec fn spec_diff(line: Seq<u8>, start: int) -> Result<i32, Cause> {
    match number_at(line, start, start + 4, true) {
        Err(cause) => Err(cause),
        Ok(integer) => if !(start + 4 < line.len() && line[start + 4] == 0x2e) {
            Err(Cause::NoDecimalPoint)
        } else {
            match number_at(line, start + 5, start + 10, false) {
                Err(cause) => Err(cause),
                Ok(decimal) => {
                    let value = signed_value((integer.0, integer.1 * 1_000_000 + decimal.1 * 10));
                    if i32::MIN <= value <= i32::MAX {
                        Ok(value as i32)
                    } else {
                        Err(Cause::Overflow)
                    }
                },
            }
        },
    }
}

/// Names the field that a reading stopped at.
pub open spec fn at<T>(field: Field, read: Result<T, Cause>) -> Result<T, ParseError> {
    match read {
        Ok(value) => Ok(value),
        Err(cause) => Err(ParseError { field, cause }),
    }
}

/// The record that a line writes: the mesh code in eight columns, with the
/// numbers of each level along latitude and longitude side by side, then the
/// shifts along latitude and longitude in ten columns each. What follows is
/// not read. A line that is no record gives what is amiss first: in one of
/// the three mesh levels, then in the two serial numbers, then in the two
/// shifts.
pub open spec fn spec_parse(line: Seq<u8>) -> Result<Record, ParseError> {
    match at(Field::Mesh1, spec_meshcode(line, 0, 2)) {
        Err(e) => Err(e),
        Ok(mesh1) => match at(Field::Mesh2, spec_meshcode(line, 4, 1)) {
            Err(e) => Err(e),
            Ok(mesh2) => match at(Field::Mesh3, spec_meshcode(line, 6, 1)) {
                Err(e) => Err(e),
                Ok(mesh3) => match spec_to_grid(mesh1.0, mesh2.0, mesh3.0) {
                    None => Err(ParseError { field: Field::Lat, cause: Cause::Overflow }),
                    Some(lat) => match spec_to_grid(mesh1.1, mesh2.1, mesh3.1) {
                        None => Err(ParseError { field: Field::Lon, cause: Cause::Overflow }),
                        Some(lon) => match at(Field::LatShift, spec_diff(line, 8)) {
                            Err(e) => Err(e),
                            Ok(lat_shift) => match at(Field::LonShift, spec_diff(line, 18)) {
                                Err(e) => Err(e),
                                Ok(lon_shift) => Ok(Record(lat, lon, lat_shift, lon_shift)),
                            },
                        },
                    },
                },
            },
        },
    }
}

fn parse_meshcode(line: &[u8], start: usize, chunk: usize) -> (r: Result<(i64, i64), Cause>)
    requires
        start <= 8,
        chunk <= 8,
    ensures
        match spec_meshcode(line@, start as int, chunk as int) {
            Ok((lat, lon)) => r == Ok::<(i64, i64), Cause>((lat as i64, lon as i64)) && i64::MIN
                < lat < i64::MAX && i64::MIN < lon < i64::MAX,
            Err(cause) => r == Err::<(i64, i64), Cause>(cause),
        },
{
    proof {
        lemma_pow10_18();
    }
    let lat = match parse_number(line, start, start + chunk, true) {
        Ok((negative, magnitude)) => if negative {
            -magnitude
        } else {
            magnitude
        },
        Err(cause) => {
            return Err(cause);
        },
    };
    let lon = match parse_number(line, start + chunk, start + 2 * chunk, true) {
        Ok((negative, magnitude)) => if negative {
            -magnitude
        } else {
            magnitude
        },
        Err(cause) => {
            return Err(cause);
        },
    };
    Ok((lat, lon))
}

/// Serial number of 3rd mesh grids starting from BL(0,0).
pub fn to_grid(mesh1: i64, mesh2: i64, mesh3: i64) -> (r: Option<i16>)
    ensures
        r == spec_to_grid(mesh1 as int, mesh2 as int, mesh3 as int),
{
    let serial: i128 = (mesh1 as i128) * 80 + (mesh2 as i128) * 10 + (mesh3 as i128);
    if -0x8000 <= serial && serial <= 0x7fff {
        Some(serial as i16)
    } else {
        None
    }
}

fn parse_diff(line: &[u8], start: usize) -> (r: Result<i32, Cause>)
    requires
        start <= 18,
    ensures
        r == spec_diff(line@, start as int),
{
    proof {
        lemma_pow10_18();
    }
    let (negative, d_integer) = match parse_number(line, start, start + 4, true) {
        Ok(number) => number,
        Err(cause) => {
            return Err(cause);
        },
    };
    if !(start + 4 < line.len() && line[start + 4] == 0x2e) {
        return Err(Cause::NoDecimalPoint);
    }
    let (_, d_decimal) = match parse_number(line, start + 5, start + 10, false) {
        Ok(number) => number,
        Err(cause) => {
            return Err(cause);
        },
    };
    proof {
        reveal_with_fuel(pow10, 6);
    }
    // Remove decimal point (.)
    let magnitude: i64 = d_integer * 1_000_000 + d_decimal * 10;
    let value: i64 = if negative {
        -magnitude
    } else {
        magnitude
    };
    if -0x8000_0000 <= value && value <= 0x7fff_ffff {
        Ok(value as i32)
    } else {
        Err(Cause::Overflow)
    }
}

/// The two bytes of a sixteen-bit integer in two's complement, the least
/// first.
pub open spec fn spec_le16(x: i16) -> Seq<u8> {
    seq![((x as int) % 0x100) as u8, ((x as int) / 0x100 % 0x100) as u8]
}

/// The four bytes of a 32-bit integer in two's complement, the least first.
pub open spec fn spec_le32(x: i32) -> Seq<u8> {
    seq![
        ((x as int) % 0x100) as u8,
        ((x as int) / 0x100 % 0x100) as u8,
        ((x as int) / 0x100 / 0x100 % 0x100) as u8,
        ((x as int) / 0x100 / 0x100 / 0x100 % 0x100) as u8,
    ]
}

fn le16(x: i16) -> (r: (u8, u8))
    ensures
        seq![r.0, r.1] == spec_le16(x),
{
    let u: u32 = if x < 0 {
        (x as i32 + 0x1_0000) as u32
    } else {
        x as u32
    };
    ((u % 0x100) as u8, (u / 0x100) as u8)
}

fn le32(x: i32) -> (r: (u8, u8, u8, u8))
    ensures
        seq![r.0, r.1, r.2, r.3] == spec_le32(x),
{
    let u: u64 = if x < 0 {
        (x as i64 + 0x1_0000_0000) as u64
    } else {
        x as u64
    };
    let ghost wrap: int = if x < 0 {
        1
    } else {
        0
    };
    let q1 = u / 0x100;
    assert(q1 == (x as int) / 0x100 + wrap * 0x100_0000);
    let q2 = q1 / 0x100;
    assert(q2 == (x as int) / 0x100 / 0x100 + wrap * 0x1_0000);
    let q3 = q2 / 0x100;
    assert(q3 == (x as int) / 0x100 / 0x100 / 0x100 + wrap * 0x100);
    ((u % 0x100) as u8, (q1 % 0x100) as u8, (q2 % 0x100) as u8, (q3 % 0x100) as u8)
}

impl Record {
    /// The record in the binary form of a table: twelve bytes, for each of
    /// the four numbers in turn its two's complement, the least byte first.
    pub open spec fn spec_bytes(self) -> Seq<u8> {
        spec_le16(self.0) + spec_le16(self.1) + spec_le32(self.2) + spec_le32(self.3)
    }

    /// The record in the binary form of a table.
    pub fn to_bytes(&self) -> (r: [u8; 12])
        ensures
            r@ == self.spec_bytes(),
    {
        let a = le16(self.0);
        let b = le16(self.1);
        let c = le32(self.2);
        let d = le32(self.3);
        let buf = [a.0, a.1, b.0, b.1, c.0, c.1, c.2, c.3, d.0, d.1, d.2, d.3];
        assert(buf@ =~= seq![a.0, a.1] + seq![b.0, b.1] + seq![c.0, c.1, c.2, c.3] + seq![
            d.0,
            d.1,
            d.2,
            d.3,
        ]);
        buf
    }

    /// Reads a record from the bytes of a line.
    pub fn parse(line: &[u8]) -> (r: Result<Record, ParseError>)
        ensures
            r == spec_parse(line@),
    {
        let (mesh1_lat, mesh1_lon) = match parse_meshcode(line, 0, 2) {
            Ok(pair) => pair,
            Err(cause) => {
                return Err(ParseError { field: Field::Mesh1, cause });
            },
        };
        let (mesh2_lat, mesh2_lon) = match parse_meshcode(line, 4, 1) {
            Ok(pair) => pair,
            Err(cause) => {
                return Err(ParseError { field: Field::Mesh2, cause });
            },
        };
        let (mesh3_lat, mesh3_lon) = match parse_meshcode(line, 6, 1) {
            Ok(pair) => pair,
            Err(cause) => {
                return Err(ParseError { field: Field::Mesh3, cause });
            },
        };
        let grid_lat = match to_grid(mesh1_lat, mesh2_lat, mesh3_lat) {
            Some(grid) => grid,
            None => {
                return Err(ParseError { field: Field::Lat, cause: Cause::Overflow });
            },
        };
        let grid_lon = match to_grid(mesh1_lon, mesh2_lon, mesh3_lon) {
            Some(grid) => grid,
            None => {
                return Err(ParseError { field: Field::Lon, cause: Cause::Overflow });
            },
        };
        let d_lat_us = match parse_diff(line, 8) {
            Ok(diff) => diff,
            Err(cause) => {
                return Err(ParseError { field: Field::LatShift, cause });
            },
        };
        let d_lon_us = match parse_diff(line, 18) {
            Ok(diff) => diff,
            Err(cause) => {
                return Err(ParseError { field: Field::LonShift, cause });
            },
        };
        Ok(Record(grid_lat, grid_lon, d_lat_us, d_lon_us))
    }

    /// Reads a record from a line of text.
    pub fn from_str(line: &str) -> (r: Result<Record, ParseError>)
        ensures
            r == spec_parse(line.spec_bytes()),
    {
        Self::parse(line.as_bytes())
    }
}


impl Record {
    /// The grid point that the record describes.
    pub open spec fn spec_dot(self) -> Dot {
        Dot {
            mesh: Mesh3 { lat: self.0, lon: self.1 },
            shift: MicroSecond { lat: self.2, lon: self.3 },
        }
    }

    /// The cell of the record.
    pub open spec fn spec_mesh(self) -> Mesh3 {
        Mesh3 { lat: self.0, lon: self.1 }
    }

    /// The grid point that the record describes.
    pub fn to_dot(&self) -> (r: Dot)
        ensures
            r == self.spec_dot(),
    {
        Dot {
            mesh: Mesh3 { lat: self.0, lon: self.1 },
            shift: MicroSecond { lat: self.2, lon: self.3 },
        }
    }

    /// The cell of the record.
    pub fn mesh(&self) -> (r: Mesh3)
        ensures
            r == self.spec_mesh(),
    {
        Mesh3 { lat: self.0, lon: self.1 }
    }
}

} // verus!
