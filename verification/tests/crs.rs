use jgd::mesh::{LAT_SPAN, LON_SPAN};
use jgd::{Dot, Grid, Jgd2000, LatLon, Mesh3, MicroSecond, Tokyo, Tokyo97};

const DEGREE: i64 = 3_600_000_000;

/// The four corners of the cell that holds 35 degrees north, 135 degrees
/// east.
fn around_35_135() -> Vec<Dot> {
    vec![
        Dot::new(Mesh3::new(4200, 10800), MicroSecond::new(11_000_000, -10_000_000)),
        Dot::new(Mesh3::new(4200, 10801), MicroSecond::new(12_000_000, -10_000_000)),
        Dot::new(Mesh3::new(4201, 10800), MicroSecond::new(11_000_000, -12_000_000)),
        Dot::new(Mesh3::new(4201, 10801), MicroSecond::new(12_000_000, -12_000_000)),
    ]
}

#[test]
fn tokyo_keeps_its_degrees() {
    let degrees = LatLon::new(35 * DEGREE, 135 * DEGREE);
    assert_eq!(Tokyo::new(degrees).ok().unwrap().degrees(), degrees);
    assert_eq!(Tokyo97::new(degrees).ok().unwrap().degrees(), degrees);
    assert_eq!(Jgd2000::new(degrees).ok().unwrap().degrees(), degrees);
}

#[test]
fn tokyo_to_jgd2000_adds_the_shift() {
    let dots = around_35_135();
    let grid = Grid::new(&dots);
    let corner = LatLon::new(35 * DEGREE, 135 * DEGREE);
    let moved = Tokyo::new(corner).ok().unwrap().to_jgd2000(&grid).unwrap();
    assert_eq!(moved.degrees(), LatLon::new(35 * DEGREE + 11_000_000, 135 * DEGREE - 10_000_000));

    let centre = LatLon::new(35 * DEGREE + LAT_SPAN / 2, 135 * DEGREE + LON_SPAN / 2);
    let moved = Tokyo::new(centre).ok().unwrap().to_jgd2000(&grid).unwrap();
    assert_eq!(
        moved.degrees(),
        LatLon::new(centre.lat() + 11_500_000, centre.lon() - 11_000_000)
    );
}

#[test]
fn tokyo_to_jgd2000_ends_with_the_grid() {
    let dots = around_35_135();
    let grid = Grid::new(&dots);
    let north = LatLon::new(35 * DEGREE + LAT_SPAN, 135 * DEGREE);
    assert!(Tokyo::new(north).ok().unwrap().to_jgd2000(&grid).is_none());
    let pole = LatLon::new(90 * DEGREE, 180 * DEGREE);
    assert!(Tokyo::new(pole).ok().unwrap().to_jgd2000(&grid).is_none());
    let south = LatLon::new(-90 * DEGREE, -180 * DEGREE);
    assert!(Tokyo::new(south).ok().unwrap().to_jgd2000(&grid).is_none());
}

#[test]
fn jgd2000_to_jgd2011_adds_the_shift_or_nothing() {
    let dots = around_35_135();
    let grid = Grid::new(&dots);
    let inside = LatLon::new(35 * DEGREE + 7_500_000, 135 * DEGREE);
    let moved = Jgd2000::new(inside).ok().unwrap().to_jgd2011(&grid);
    assert_eq!(
        moved.degrees(),
        LatLon::new(inside.lat() + 11_000_000, inside.lon() - 10_500_000)
    );
    let outside = LatLon::new(36 * DEGREE, 135 * DEGREE);
    let stays = Jgd2000::new(outside).ok().unwrap().to_jgd2011(&grid);
    assert_eq!(stays.degrees(), outside);
}

#[test]
fn shifts_follow_each_other() {
    let dots = around_35_135();
    let grid = Grid::new(&dots);
    let corner = LatLon::new(35 * DEGREE, 135 * DEGREE);
    let jgd2000 = Tokyo::new(corner).ok().unwrap().to_jgd2000(&grid).unwrap();
    // 11" north of the corner, 10" west of it: the grid ends to the west
    let jgd2011 = jgd2000.to_jgd2011(&grid);
    assert_eq!(jgd2011.degrees(), jgd2000.degrees());
}
