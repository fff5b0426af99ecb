use geotile::geocode::{Cell, Geocode, GeocodeError, Interval, COORD_SCALE, MERCATOR_HALF_SPAN};
use geotile::window::{compute_delta, get_coordinate_bounds, get_windows, Window};

fn fixed(v: f64) -> i64 {
    (v * COORD_SCALE as f64).round() as i64
}

fn length(iv: Interval) -> f64 {
    (iv.span as f64 / COORD_SCALE as f64) / iv.divisions as f64
}

#[test]
fn geohash_intervals_precision_five() {
    let (x, y) = Geocode::Geohash.get_intervals(5);
    assert_eq!((length(x), length(y)), (0.0439453125, 0.0439453125));
}

#[test]
fn geohash_intervals_precision_six() {
    let (x, y) = Geocode::Geohash.get_intervals(6);
    assert_eq!((length(x), length(y)), (0.010986328125, 0.0054931640625));
}

#[test]
fn intervals_tile_the_span() {
    for p in 1..=12u8 {
        for g in [Geocode::Geohash, Geocode::QuadTile] {
            let (x, y) = g.get_intervals(p);
            assert!(x.divisions.is_power_of_two());
            assert!(y.divisions.is_power_of_two());
            let span = if g == Geocode::Geohash { 360 * COORD_SCALE } else { 2 * MERCATOR_HALF_SPAN };
            assert_eq!(x.span, span as u64);
        }
    }
    let (x, y) = Geocode::QuadTile.get_intervals(3);
    assert_eq!((x.divisions, y.divisions), (8, 8));
}

#[test]
fn geohash_encode_hamburg() {
    let code = Geocode::Geohash.encode(fixed(10.001389), fixed(53.565278), 4);
    assert_eq!(code, Ok("u1x0".to_string()));
}

#[test]
fn geohash_encode_fort_collins() {
    let code = Geocode::Geohash.encode(fixed(-105.078056), fixed(40.559167), 6);
    assert_eq!(code, Ok("9xjq8z".to_string()));
}

#[test]
fn geohash_encode_appleton() {
    let code = Geocode::Geohash.encode(fixed(-88.4), fixed(44.266667), 8);
    assert_eq!(code, Ok("dpc5u6t0".to_string()));
}

#[test]
fn quadtile_encode_appleton() {
    // Tile column 4 and row 5 from the top at zoom 4 give the quadkey 0302.
    let code = Geocode::QuadTile.encode(fixed(-9840642.99), fixed(5506802.68), 4);
    assert_eq!(code, Ok("0302".to_string()));
}

#[test]
fn encode_length_is_precision() {
    for p in 1..=12u8 {
        for g in [Geocode::Geohash, Geocode::QuadTile] {
            let code = g.encode(fixed(1.25), fixed(-3.5), p).unwrap();
            assert_eq!(code.chars().count(), p as usize);
        }
    }
    assert_eq!(Geocode::Geohash.encode(0, 0, 0), Ok(String::new()));
}

#[test]
fn encode_corners_and_out_of_range() {
    assert_eq!(Geocode::Geohash.encode(fixed(-180.0), fixed(-90.0), 3), Ok("000".to_string()));
    assert_eq!(Geocode::Geohash.encode(fixed(180.0), fixed(90.0), 3), Ok("zzz".to_string()));
    assert_eq!(Geocode::Geohash.encode(fixed(180.5), 0, 3), Err(GeocodeError::OutOfRange));
    assert_eq!(Geocode::Geohash.encode(0, fixed(-90.5), 3), Err(GeocodeError::OutOfRange));
    assert_eq!(
        Geocode::QuadTile.encode(MERCATOR_HALF_SPAN + 1, 0, 2),
        Err(GeocodeError::OutOfRange)
    );
    assert_eq!(Geocode::QuadTile.encode(-MERCATOR_HALF_SPAN, -MERCATOR_HALF_SPAN, 2), Ok("22".to_string()));
}

#[test]
fn epsg_codes() {
    assert_eq!(Geocode::Geohash.get_epsg_code(), 4326);
    assert_eq!(Geocode::QuadTile.get_epsg_code(), 3857);
}

#[test]
fn windows_of_three_by_three() {
    let unit = Interval { span: COORD_SCALE as u64, divisions: 1 };
    let windows = get_windows(0, fixed(3.0), 0, fixed(3.0), unit, unit);
    let mut expected = Vec::new();
    for i in 0..3 {
        for j in 0..3 {
            expected.push(Window { x_index: i, y_index: j });
        }
    }
    assert_eq!(windows, expected);
}

#[test]
fn windows_round_outwards() {
    let unit = Interval { span: COORD_SCALE as u64, divisions: 1 };
    let windows = get_windows(fixed(-0.5), fixed(1.5), fixed(2.0), fixed(2.25), unit, unit);
    assert_eq!(
        windows,
        vec![
            Window { x_index: -1, y_index: 2 },
            Window { x_index: 0, y_index: 2 },
            Window { x_index: 1, y_index: 2 },
        ]
    );
    assert!(get_windows(fixed(1.0), fixed(1.0), 0, fixed(1.0), unit, unit).is_empty());
}

#[test]
fn windows_are_distinct_and_cover() {
    let (x, y) = Geocode::Geohash.get_intervals(2);
    let windows = get_windows(fixed(-12.3), fixed(7.9), fixed(40.1), fixed(52.0), x, y);
    for (a, w) in windows.iter().enumerate() {
        for v in windows.iter().skip(a + 1) {
            assert_ne!(w, v);
        }
    }
    // x cells of 11.25 degrees: -22.5 .. 11.25; y cells of 5.625: 39.375 .. 56.25
    assert_eq!(windows.len(), 3 * 3);
    assert_eq!(windows[0], Window { x_index: -2, y_index: 7 });
    assert_eq!(windows[8], Window { x_index: 0, y_index: 9 });
}

fn deltas(p: u8) -> (f64, f64) {
    let (lat, long) = compute_delta(p);
    (length(lat), length(long))
}

#[test]
fn coordinate_delta() {
    assert_eq!(deltas(1), (45.0, 45.0));
    assert_eq!(deltas(2), (5.625, 11.25));
    assert_eq!(deltas(3), (1.40625, 1.40625));
    assert_eq!(deltas(4), (0.17578125, 0.3515625));
    assert_eq!(deltas(5), (0.0439453125, 0.0439453125));
    assert_eq!(deltas(6), (0.0054931640625, 0.010986328125));
}

#[test]
fn geohash_delta() {
    // Longitude spans 360 degrees.
    assert_eq!(deltas(1), (45.0, 45.0));
    assert_eq!(deltas(2), (5.625, 11.25));
    assert_eq!(deltas(3), (1.40625, 1.40625));
    assert_eq!(deltas(4), (0.17578125, 0.3515625));
    assert_eq!(deltas(5), (0.0439453125, 0.0439453125));
    assert_eq!(deltas(6), (0.0054931640625, 0.010986328125));
}

#[test]
fn spatial_bounds() {
    let bounds = get_coordinate_bounds(fixed(-80.0), fixed(-70.0), fixed(70.0), fixed(80.0), 3);
    // cells of 1.40625 degrees: latitude -80.15625 .. -68.90625 and
    // longitude 68.90625 .. 80.15625, eight of them each
    assert_eq!(bounds.len(), 8 * 8);
    assert_eq!(bounds[0], Window { x_index: -57, y_index: 49 });
    assert_eq!(bounds[1], Window { x_index: -57, y_index: 50 });
    assert_eq!(bounds[bounds.len() - 1], Window { x_index: -50, y_index: 56 });
}

#[test]
fn decode_names_the_cell_of_the_point() {
    let cell = Geocode::Geohash.decode("u1x0").unwrap();
    assert_eq!((cell.x_bits, cell.y_bits), (10, 10));
    // the point lies in the cell
    let lon = 10.001389;
    let lat = 53.565278;
    let dx = 360.0 / 1024.0;
    let dy = 180.0 / 1024.0;
    assert!(-180.0 + cell.x_index as f64 * dx <= lon && lon <= -180.0 + (cell.x_index + 1) as f64 * dx);
    assert!(-90.0 + cell.y_index as f64 * dy <= lat && lat <= -90.0 + (cell.y_index + 1) as f64 * dy);
    assert_eq!(Geocode::Geohash.decode("0"), Some(Cell { x_index: 0, x_bits: 3, y_index: 0, y_bits: 2 }));
    assert_eq!(Geocode::Geohash.decode("z"), Some(Cell { x_index: 7, x_bits: 3, y_index: 3, y_bits: 2 }));
    assert_eq!(Geocode::QuadTile.decode("0302"), Some(Cell { x_index: 4, x_bits: 4, y_index: 10, y_bits: 4 }));
    assert_eq!(Geocode::Geohash.decode("ua"), None);
    assert_eq!(Geocode::QuadTile.decode("4"), None);
    assert_eq!(Geocode::Geohash.decode(&"0".repeat(26)), None);
    assert!(Geocode::Geohash.decode(&"0".repeat(25)).is_some());
}
