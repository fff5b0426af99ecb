use geotile::merge::{merge_band, merge_layout, Placement};
use geotile::raster::{
    carve_band, copy_block, coverage_counts, fill_band, fill_bands, no_data_mask, uniform_band, Block,
};
use geotile::split::{
    envelope, inner_envelope, plan_split, search_step, Bounds, Corners, PixelRect, Point, SearchStep,
};

fn corners(ul: (i64, i64), ur: (i64, i64), ll: (i64, i64), lr: (i64, i64)) -> Corners {
    Corners {
        upper_left: Point { x: ul.0, y: ul.1 },
        upper_right: Point { x: ur.0, y: ur.1 },
        lower_left: Point { x: ll.0, y: ll.1 },
        lower_right: Point { x: lr.0, y: lr.1 },
    }
}

#[test]
fn inner_envelope_takes_innermost_corners() {
    let c = corners((0, 10), (9, 11), (1, 0), (10, 1));
    assert_eq!(inner_envelope(&c, true), Bounds { min_x: 1, max_x: 9, min_y: 1, max_y: 10 });
    assert_eq!(inner_envelope(&c, false), Bounds { min_x: 1, max_x: 9, min_y: 11, max_y: 0 });
}

#[test]
fn search_stops_when_window_is_enveloped() {
    let rect = PixelRect { min_px: 0, max_px: 4, min_py: 0, max_py: 4 };
    let c = corners((0, 40), (40, 40), (0, 0), (40, 0));
    let window = Bounds { min_x: 5, max_x: 35, min_y: 5, max_y: 35 };
    assert_eq!(search_step(rect, &c, window, true), SearchStep::Enveloped);
}

#[test]
fn search_widens_the_side_that_falls_shortest() {
    let rect = PixelRect { min_px: 5, max_px: 6, min_py: 5, max_py: 6 };
    let c = corners((50, 50), (60, 50), (50, 40), (60, 40));
    // shortfalls: left 10, right 5, bottom 20, top 15
    let window = Bounds { min_x: 40, max_x: 65, min_y: 20, max_y: 65 };
    assert_eq!(
        search_step(rect, &c, window, true),
        SearchStep::Widen(PixelRect { min_px: 5, max_px: 6, min_py: 5, max_py: 7 })
    );
    assert_eq!(
        search_step(rect, &c, window, false),
        SearchStep::Widen(PixelRect { min_px: 5, max_px: 6, min_py: 4, max_py: 6 })
    );
    // top falls shortest
    let window = Bounds { min_x: 45, max_x: 61, min_y: 39, max_y: 90 };
    assert_eq!(
        search_step(rect, &c, window, true),
        SearchStep::Widen(PixelRect { min_px: 5, max_px: 6, min_py: 4, max_py: 6 })
    );
    // a tie between left and right goes to the left
    let window = Bounds { min_x: 45, max_x: 65, min_y: 40, max_y: 50 };
    assert_eq!(
        search_step(rect, &c, window, true),
        SearchStep::Widen(PixelRect { min_px: 4, max_px: 6, min_py: 5, max_py: 6 })
    );
    // only the right falls short
    let window = Bounds { min_x: 55, max_x: 61, min_y: 40, max_y: 50 };
    assert_eq!(
        search_step(rect, &c, window, true),
        SearchStep::Widen(PixelRect { min_px: 5, max_px: 7, min_py: 5, max_py: 6 })
    );
}

#[test]
fn plan_crops_and_pads() {
    let plan = plan_split(PixelRect { min_px: -2, max_px: 3, min_py: 8, max_py: 12 }, 10, 10).unwrap();
    assert_eq!((plan.src_x, plan.src_y), (0, 8));
    assert_eq!((plan.read_width, plan.read_height), (3, 2));
    assert_eq!((plan.dst_x, plan.dst_y), (2, 0));
    assert_eq!((plan.width, plan.height), (5, 4));
    assert_eq!((plan.origin_px, plan.origin_py), (-2, 8));
}

#[test]
fn plan_is_none_outside_the_image() {
    assert_eq!(plan_split(PixelRect { min_px: 10, max_px: 12, min_py: 0, max_py: 2 }, 10, 10), None);
    assert_eq!(plan_split(PixelRect { min_px: -3, max_px: 0, min_py: 0, max_py: 2 }, 10, 10), None);
    assert_eq!(plan_split(PixelRect { min_px: 1, max_px: 2, min_py: -5, max_py: -1 }, 10, 10), None);
    assert_eq!(plan_split(PixelRect { min_px: 4, max_px: 4, min_py: 4, max_py: 5 }, 10, 10), None);
    assert!(plan_split(PixelRect { min_px: 9, max_px: 11, min_py: 9, max_py: 11 }, 10, 10).is_some());
}

#[test]
fn merge_layout_spans_the_union() {
    let images = vec![
        Placement { x: 3, y: 2, width: 4, height: 4 },
        Placement { x: -1, y: 5, width: 2, height: 6 },
        Placement { x: 0, y: 0, width: 1, height: 1 },
    ];
    let m = merge_layout(&images).unwrap();
    assert_eq!((m.x, m.y, m.width, m.height), (-1, 0, 8, 11));
    assert_eq!(m.offsets, vec![(4, 2), (0, 5), (1, 0)]);
    assert!(merge_layout(&Vec::new()).is_none());
}

#[test]
fn split_then_merge_restores_the_extent() {
    let rects = [
        PixelRect { min_px: 0, max_px: 4, min_py: 0, max_py: 3 },
        PixelRect { min_px: 4, max_px: 7, min_py: 0, max_py: 3 },
        PixelRect { min_px: 0, max_px: 7, min_py: 3, max_py: 5 },
    ];
    let mut placements = Vec::new();
    let mut plans = Vec::new();
    for r in rects {
        let p = plan_split(r, 7, 5).unwrap();
        placements.push(Placement { x: p.origin_px, y: p.origin_py, width: p.width, height: p.height });
        plans.push(p);
    }
    let m = merge_layout(&placements).unwrap();
    assert_eq!((m.x, m.y, m.width, m.height), (0, 0, 7, 5));
    for (p, off) in plans.iter().zip(m.offsets.iter()) {
        assert_eq!(off.0 + p.dst_x, p.src_x);
        assert_eq!(off.1 + p.dst_y, p.src_y);
    }
}

#[test]
fn mask_and_coverage() {
    // two bands of four 2-byte pixels; no data is 0x0000 in band one and
    // 0xffff in band two
    let bands = vec![vec![0, 0, 0, 1, 0, 0, 0, 0], vec![255, 255, 255, 255, 1, 2, 255, 255]];
    let no_data = vec![vec![0, 0], vec![255, 255]];
    let mask = no_data_mask(&bands, &no_data, 4, 2);
    assert_eq!(mask, vec![true, false, false, true]);
    assert_eq!(coverage_counts(&mask), (2, 4));
    assert_eq!(coverage_counts(&Vec::new()), (0, 0));
}

#[test]
fn fill_takes_holes_from_the_second_image() {
    let primary = vec![0, 7, 0, 9];
    let fill = vec![1, 2, 3];
    let mask = vec![true, false, true, false];
    assert_eq!(fill_band(&primary, &fill, &mask, 1), vec![1, 7, 3, 9]);
    // the fill image ends before the last hole
    let mask = vec![false, false, false, true];
    assert_eq!(fill_band(&primary, &fill, &mask, 1), vec![0, 7, 0, 9]);
    let wide = vec![0, 0, 5, 5];
    assert_eq!(fill_band(&wide, &vec![8, 9, 6, 6], &vec![true, false], 2), vec![8, 9, 5, 5]);
}

#[test]
fn copy_block_places_pixels() {
    // 3x2 source of 1-byte pixels into a 4x3 destination filled with 0
    let src = vec![1, 2, 3, 4, 5, 6];
    let dst = uniform_band(12, &vec![0]);
    let blk = Block { src_x: 1, src_y: 0, width: 2, height: 2, dst_x: 2, dst_y: 1 };
    let out = copy_block(&src, 3, 2, &dst, 4, 3, 1, blk);
    assert_eq!(out, vec![0, 0, 0, 0, 0, 0, 2, 3, 0, 0, 5, 6]);
}

#[test]
fn uniform_band_repeats_the_sample() {
    assert_eq!(uniform_band(3, &vec![1, 2]), vec![1, 2, 1, 2, 1, 2]);
    assert_eq!(uniform_band(0, &vec![1, 2]), Vec::<u8>::new());
}

#[test]
fn envelope_of_corners() {
    let points = vec![Point { x: 3, y: -1 }, Point { x: -2, y: 4 }, Point { x: 0, y: 0 }];
    assert_eq!(envelope(&points), Some(Bounds { min_x: -2, max_x: 3, min_y: -1, max_y: 4 }));
    assert_eq!(envelope(&Vec::new()), None);
}

#[test]
fn carve_pads_with_no_data() {
    // 3x2 image of 2-byte pixels; the rectangle hangs one pixel off the left
    let src = vec![0, 1, 0, 2, 0, 3, 0, 4, 0, 5, 0, 6];
    let rect = PixelRect { min_px: -1, max_px: 1, min_py: 0, max_py: 2 };
    let band = carve_band(&src, 3, 2, rect, &vec![0xff, 0xfe]).unwrap();
    assert_eq!(band, vec![0xff, 0xfe, 0, 1, 0xff, 0xfe, 0, 4]);
    let outside = PixelRect { min_px: 3, max_px: 5, min_py: 0, max_py: 2 };
    assert_eq!(carve_band(&src, 3, 2, outside, &vec![0, 0]), None);
}

#[test]
fn merge_band_writes_each_input_in_place() {
    let images = vec![
        Placement { x: 0, y: 0, width: 2, height: 1 },
        Placement { x: 1, y: 1, width: 2, height: 1 },
    ];
    let layout = merge_layout(&images).unwrap();
    let inputs = vec![vec![1, 2], vec![3, 4]];
    let band = merge_band(&inputs, &images, &layout, &vec![0]);
    assert_eq!((layout.width, layout.height), (3, 2));
    assert_eq!(band, vec![1, 2, 0, 0, 3, 4]);
}

#[test]
fn fill_bands_uses_holes_of_all_bands() {
    // pixel 0 is a hole in both bands, pixel 1 only in the first
    let primary = vec![vec![0, 0, 5], vec![9, 1, 9]];
    let fill = vec![vec![7, 7, 7], vec![8, 8, 8]];
    let no_data = vec![vec![0], vec![9]];
    assert_eq!(fill_bands(&primary, &fill, &no_data, 3, 1), vec![vec![7, 0, 5], vec![8, 1, 9]]);
}
