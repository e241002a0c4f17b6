use jgd::binary::{emit, load};
use jgd::par::{compile, insert, CompileError, Fault};
use jgd::record::{to_grid, Cause, Field, ParseError};
use jgd::{Dot, Mesh3, MicroSecond, Record};

fn lines(text: &[&str]) -> Vec<Vec<u8>> {
    text.iter().map(|line| line.as_bytes().to_vec()).collect()
}

fn malformed(field: Field, cause: Cause) -> Result<Record, ParseError> {
    Err(ParseError { field, cause })
}

#[test]
fn parses_a_line() {
    let record = Record::from_str("46303582  12.79799  -8.13354").unwrap();
    assert_eq!(record, Record(46 * 80 + 3 * 10 + 8, 30 * 80 + 5 * 10 + 2, 12_797_990, -8_133_540));
    assert_eq!(record, Record(3718, 2452, 12_797_990, -8_133_540));
    assert_eq!(Record::parse(b"46303582  12.79799  -8.13354"), Ok(record));
}

#[test]
fn parses_the_last_line_of_a_table() {
    let record = Record::from_str("68412736   7.87532 -13.99561").unwrap();
    assert_eq!(record, Record(5463, 3356, 7_875_320, -13_995_610));
}

#[test]
fn negative_zero_keeps_its_sign() {
    let record = Record::from_str("00000000  -0.00001  -0.12345").unwrap();
    assert_eq!(record, Record(0, 0, -10, -123_450));
    let record = Record::from_str("00000000   0.00001  +0.12345").unwrap();
    assert_eq!(record, Record(0, 0, 10, 123_450));
}

#[test]
fn fields_are_right_justified() {
    let record = Record::from_str(" 1 23456   1.    2-100.   30").unwrap();
    assert_eq!(record, Record(80 + 30 + 5, 2 * 80 + 40 + 6, 1_000_020, -100_000_300));
    let record = Record::from_str("-1-20000  -1.00000  +1.00000").unwrap();
    assert_eq!(record, Record(-80, -160, -1_000_000, 1_000_000));
}

#[test]
fn what_follows_the_record_is_not_read() {
    let record = Record::from_str("46303582  12.79799  -8.13354   anything").unwrap();
    assert_eq!(record, Record(3718, 2452, 12_797_990, -8_133_540));
}

#[test]
fn a_short_line_is_truncated() {
    assert_eq!(Record::from_str(""), malformed(Field::Mesh1, Cause::Truncated));
    assert_eq!(Record::from_str("463"), malformed(Field::Mesh1, Cause::Truncated));
    assert_eq!(Record::from_str("4630"), malformed(Field::Mesh2, Cause::Truncated));
    assert_eq!(Record::from_str("46303"), malformed(Field::Mesh2, Cause::Truncated));
    assert_eq!(Record::from_str("4630358"), malformed(Field::Mesh3, Cause::Truncated));
    assert_eq!(Record::from_str("46303582"), malformed(Field::LatShift, Cause::Truncated));
    assert_eq!(Record::from_str("46303582  12"), malformed(Field::LatShift, Cause::NoDecimalPoint));
    assert_eq!(Record::from_str("46303582  12.7979"), malformed(Field::LatShift, Cause::Truncated));
    assert_eq!(
        Record::from_str("46303582  12.79799  -8"),
        malformed(Field::LonShift, Cause::NoDecimalPoint)
    );
    assert_eq!(
        Record::from_str("46303582  12.79799  -8.1335"),
        malformed(Field::LonShift, Cause::Truncated)
    );
}

#[test]
fn a_field_must_hold_a_number() {
    assert_eq!(Record::from_str("4x303582  12.79799  -8.13354"), malformed(Field::Mesh1, Cause::NotANumber));
    assert_eq!(Record::from_str("46  3582  12.79799  -8.13354"), malformed(Field::Mesh1, Cause::NotANumber));
    assert_eq!(Record::from_str("4630 582  12.79799  -8.13354"), malformed(Field::Mesh2, Cause::NotANumber));
    assert_eq!(Record::from_str("46303-82  12.79799  -8.13354"), malformed(Field::Mesh2, Cause::NotANumber));
    assert_eq!(Record::from_str("4630358+  12.79799  -8.13354"), malformed(Field::Mesh3, Cause::NotANumber));
    assert_eq!(Record::from_str("46303582    -.79799  -8.13354"), malformed(Field::LatShift, Cause::NotANumber));
    assert_eq!(Record::from_str("46303582 1 2.79799  -8.13354"), malformed(Field::LatShift, Cause::NotANumber));
    assert_eq!(Record::from_str("46303582\t 12.79799  -8.13354"), malformed(Field::LatShift, Cause::NotANumber));
    assert_eq!(Record::from_str("46303582  12.-9799  -8.13354"), malformed(Field::LatShift, Cause::NotANumber));
    assert_eq!(Record::from_str("46303582  12.+9799  -8.13354"), malformed(Field::LatShift, Cause::NotANumber));
    assert_eq!(Record::from_str("46303582  12.79799  -8.1335 "), malformed(Field::LonShift, Cause::NotANumber));
    assert_eq!(Record::from_str("46303582  12.79799  -8.     "), malformed(Field::LonShift, Cause::NotANumber));
}

#[test]
fn the_decimal_point_is_mandatory() {
    assert_eq!(
        Record::from_str("46303582  12,79799  -8.13354"),
        malformed(Field::LatShift, Cause::NoDecimalPoint)
    );
    assert_eq!(
        Record::from_str("46303582  12.79799  -8 13354"),
        malformed(Field::LonShift, Cause::NoDecimalPoint)
    );
}

#[test]
fn a_shift_beyond_32_bits_overflows() {
    assert_eq!(
        Record::from_str("463035822147.48364  -8.13354"),
        Ok(Record(3718, 2452, 2_147_483_640, -8_133_540))
    );
    assert_eq!(
        Record::from_str("463035822147.48365  -8.13354"),
        malformed(Field::LatShift, Cause::Overflow)
    );
    assert_eq!(
        Record::from_str("46303582  12.79799-999.99999"),
        Ok(Record(3718, 2452, 12_797_990, -999_999_990))
    );
    assert_eq!(
        Record::from_str("46303582  12.797999999.99999"),
        malformed(Field::LonShift, Cause::Overflow)
    );
}

#[test]
fn serial_number_of_a_mesh() {
    assert_eq!(to_grid(46, 3, 8), Some(3718));
    assert_eq!(to_grid(68, 2, 3), Some(5463));
    assert_eq!(to_grid(141, 7, 6), Some(11356));
    assert_eq!(to_grid(409, 4, 7), Some(32767));
    assert_eq!(to_grid(409, 4, 8), None);
    assert_eq!(to_grid(-409, -4, -8), Some(-32768));
    assert_eq!(to_grid(-409, -4, -9), None);
    assert_eq!(to_grid(i64::MAX, i64::MAX, i64::MAX), None);
    assert_eq!(to_grid(i64::MIN, i64::MIN, i64::MIN), None);
}

#[test]
fn record_to_bytes_is_little_endian() {
    assert_eq!(
        Record(5463, 11356, 7875320, -13995610).to_bytes(),
        [0x57, 0x15, 0x5c, 0x2c, 0xf8, 0x2a, 0x78, 0x00, 0xa6, 0x71, 0x2a, 0xff]
    );
    assert_eq!(
        Record(-1, i16::MIN, i32::MIN, i32::MAX).to_bytes(),
        [0xff, 0xff, 0x00, 0x80, 0x00, 0x00, 0x00, 0x80, 0xff, 0xff, 0xff, 0x7f]
    );
    assert_eq!(Record(0, 0, 0, 0).to_bytes(), [0; 12]);
    for record in [
        Record(1, -2, 3, -4),
        Record(i16::MAX, i16::MIN, i32::MAX, i32::MIN),
        Record(-12345, 12345, -123456789, 123456789),
    ] {
        let mut expected = Vec::new();
        expected.extend_from_slice(&record.0.to_le_bytes());
        expected.extend_from_slice(&record.1.to_le_bytes());
        expected.extend_from_slice(&record.2.to_le_bytes());
        expected.extend_from_slice(&record.3.to_le_bytes());
        assert_eq!(record.to_bytes().to_vec(), expected);
    }
}

#[test]
fn record_as_dot() {
    let record = Record(5463, 11356, 7875320, -13995610);
    assert_eq!(
        record.to_dot(),
        Dot::new(Mesh3::new(5463, 11356), MicroSecond::new(7875320, -13995610))
    );
    assert_eq!(record.mesh(), Mesh3::new(5463, 11356));
}

#[test]
fn compile_sorts_by_cell() {
    let table = compile(&lines(&[
        "46303583   3.00000   3.00000",
        "46313582   2.00000   2.00000",
        "47303582   4.00000   4.00000",
        "46303582   1.00000   1.00000",
    ]))
    .unwrap();
    assert_eq!(
        table,
        vec![
            Record(3718, 2452, 1_000_000, 1_000_000),
            Record(3718, 2453, 3_000_000, 3_000_000),
            Record(3718, 2532, 2_000_000, 2_000_000),
            Record(3798, 2452, 4_000_000, 4_000_000),
        ]
    );
}

#[test]
fn compile_sorts_a_shuffled_source() {
    // 600 cells in an order that is far from sorted
    let count = 600usize;
    let source: Vec<Vec<u8>> = (0..count)
        .map(|k| {
            let cell = (k * 7) % count;
            let (lat, lon) = (cell / 64, cell % 64);
            format!("{:02}{:02}{}{}{}{}{:4}.{:05}{:4}.{:05}", 40 + lat / 8, 30 + lon / 8, lat % 8, lon % 8, 0, 0, cell, cell, -(cell as i64), cell)
                .into_bytes()
        })
        .collect();
    let table = compile(&source).unwrap();
    assert_eq!(table.len(), count);
    for pair in table.windows(2) {
        assert!((pair[0].0, pair[0].1) < (pair[1].0, pair[1].1));
        assert!(pair[0].mesh().lt(pair[1].mesh()));
    }
    let mut sorted = source.clone();
    sorted.sort();
    assert_eq!(compile(&sorted).unwrap(), table);
    let mut late_tail = sorted.clone();
    late_tail.rotate_left(100);
    assert_eq!(compile(&late_tail).unwrap(), table);
}

#[test]
fn compile_drops_repeated_lines() {
    let table = compile(&lines(&[
        "46303582  12.79799  -8.13354",
        "46303583  12.79800  -8.13355",
        "46303582  12.79799  -8.13354",
    ]))
    .unwrap();
    assert_eq!(
        table,
        vec![
            Record(3718, 2452, 12_797_990, -8_133_540),
            Record(3718, 2453, 12_798_000, -8_133_550),
        ]
    );
}

#[test]
fn compile_fails_on_two_shifts_for_a_cell() {
    let result = compile(&lines(&[
        "46303582  12.79799  -8.13354",
        "46303583  12.79800  -8.13355",
        "46303582  12.79799  -8.13355",
    ]));
    assert_eq!(result, Err(CompileError { line: 2, fault: Fault::Conflict }));
}

#[test]
fn compile_stops_at_the_first_fault() {
    let result = compile(&lines(&[
        "46303582  12.79799  -8.13354",
        "46303583  12.79800",
        "46303582  12.79799  -8.13355",
    ]));
    assert_eq!(
        result,
        Err(CompileError {
            line: 1,
            fault: Fault::Malformed(ParseError {
                field: Field::LonShift,
                cause: Cause::Truncated
            })
        })
    );
}

#[test]
fn compile_of_nothing_is_empty() {
    assert_eq!(compile(&[]), Ok(Vec::new()));
    assert_eq!(emit(&[]), Vec::<u8>::new());
    assert_eq!(load(&[]), Some(Vec::new()));
}

#[test]
fn insert_keeps_the_table_sorted() {
    let mut table = Vec::new();
    assert!(insert(&mut table, Record(2, 2, 1, 1)));
    assert!(insert(&mut table, Record(1, 9, 2, 2)));
    assert!(insert(&mut table, Record(2, 1, 3, 3)));
    assert!(insert(&mut table, Record(3, 0, 4, 4)));
    assert!(insert(&mut table, Record(2, 2, 1, 1)));
    assert_eq!(
        table,
        vec![Record(1, 9, 2, 2), Record(2, 1, 3, 3), Record(2, 2, 1, 1), Record(3, 0, 4, 4)]
    );
    assert!(!insert(&mut table, Record(2, 2, 1, 0)));
    assert_eq!(table.len(), 4);
}

#[test]
fn emit_is_twelve_bytes_a_record() {
    let blob = emit(&[Record(1, 2, 3, 4), Record(5463, 11356, 7875320, -13995610)]);
    assert_eq!(
        blob,
        vec![
            1, 0, 2, 0, 3, 0, 0, 0, 4, 0, 0, 0, 0x57, 0x15, 0x5c, 0x2c, 0xf8, 0x2a, 0x78, 0x00,
            0xa6, 0x71, 0x2a, 0xff
        ]
    );
}

#[test]
fn load_reads_back_what_emit_wrote() {
    let table = vec![
        Record(i16::MIN, i16::MIN, i32::MIN, i32::MAX),
        Record(-1, -1, -1, -1),
        Record(0, 0, 0, 0),
        Record(5463, 11356, 7875320, -13995610),
        Record(i16::MAX, i16::MAX, i32::MAX, i32::MIN),
    ];
    let dots = load(&emit(&table)).unwrap();
    let expected: Vec<Dot> = table.iter().map(|record| record.to_dot()).collect();
    assert_eq!(dots, expected);
}

#[test]
fn load_wants_whole_records_in_order() {
    let blob = emit(&[Record(1, 2, 3, 4), Record(1, 3, 5, 6)]);
    assert!(load(&blob).is_some());
    assert_eq!(load(&blob[..23]), None);
    assert_eq!(load(&blob[..13]), None);
    assert_eq!(load(&blob[..12]).map(|dots| dots.len()), Some(1));
    assert_eq!(load(&emit(&[Record(1, 3, 5, 6), Record(1, 2, 3, 4)])), None);
    assert_eq!(load(&emit(&[Record(1, 2, 3, 4), Record(1, 2, 3, 4)])), None);
}

#[test]
fn compiled_table_serves_the_grid() {
    let table = compile(&lines(&[
        "00000011   0.00001   0.00010",
        "00000000   0.00000  -0.00001",
        "00000010   0.00000   0.00000",
        "00000001  -0.00001   0.00000",
    ]))
    .unwrap();
    let dots = load(&emit(&table)).unwrap();
    let grid = jgd::Grid::new(&dots);
    let shift = grid.bilinear(jgd::LatLon::new(0, 0)).unwrap();
    assert_eq!(shift.lat(), 0);
    assert_eq!(shift.lon(), -10 * jgd::grid::WEIGHT_SCALE);
}
