//! The parts of the identifier that compute with whole numbers.

use quircs::geometry::line_intersect;
use quircs::fitness::fitness_cells;
use quircs::identify::{
    abandon_qr_grid, alignment_size_estimate, begin_qr_grid, find_alignment_pattern, finder_scan,
    locate_alignment_corner, measure_timing_pattern, pixels_setup, record_capstone,
    refine_alignment, rotate_capstone, settle_qr_grid, test_capstone,
};
use quircs::sample::{cell_value, sample_code};
use quircs::region::{
    area_count, find_leftmost_to_line, find_one_corner, find_other_corners, find_region_corners,
    flood_fill_seed, region_code, PolygonScoreData, SpanFn, UserData,
};
use quircs::scan::timing_scan;
use quircs::{Capstone, ExtractError, Grid, Image, Point, Quirc, Region};

fn pt(x: i32, y: i32) -> Point {
    Point { x, y }
}

fn image_of(rows: &[&str]) -> Image {
    let height = rows.len();
    let width = rows[0].len();
    let mut image = Image::new(width, height);
    for (y, row) in rows.iter().enumerate() {
        for (x, c) in row.chars().enumerate() {
            if c != '.' {
                image.pixels[y * width + x] = 1;
            }
        }
    }
    image
}

fn placeholders() -> Vec<Region> {
    vec![Region::default(), Region::default()]
}

/// A finder pattern of 7 by 7 modules of `m` pixels, its corner at
/// `(ox, oy)`.
fn draw_finder(image: &mut Image, ox: usize, oy: usize, m: usize) {
    for y in 0..7 * m {
        for x in 0..7 * m {
            let (cx, cy) = (x / m, y / m);
            let d = std::cmp::max((cx as i32 - 3).abs(), (cy as i32 - 3).abs());
            if d != 2 {
                image.pixels[(oy + y) * image.width + ox + x] = 1;
            }
        }
    }
}

#[test]
fn line_intersect_finds_the_crossing() {
    let mut r = pt(-7, -7);
    assert_eq!(line_intersect(&pt(0, 0), &pt(10, 0), &pt(5, -5), &pt(5, 5), &mut r), 1);
    assert_eq!(r, pt(5, 0));
    assert_eq!(line_intersect(&pt(0, 0), &pt(4, 4), &pt(0, 4), &pt(4, 0), &mut r), 1);
    assert_eq!(r, pt(2, 2));
}

#[test]
fn line_intersect_rounds_towards_zero() {
    let mut r = pt(0, 0);
    assert_eq!(line_intersect(&pt(0, 0), &pt(3, 1), &pt(0, 2), &pt(2, 0), &mut r), 1);
    assert_eq!(r, pt(1, 0));
    assert_eq!(line_intersect(&pt(0, 0), &pt(-3, -1), &pt(0, -2), &pt(-2, 0), &mut r), 1);
    assert_eq!(r, pt(-1, 0));
}

#[test]
fn line_intersect_fails_for_parallel_lines() {
    let mut r = pt(9, 9);
    assert_eq!(line_intersect(&pt(0, 0), &pt(4, 2), &pt(1, 0), &pt(5, 2), &mut r), 0);
    assert_eq!(r, pt(9, 9));
    assert_eq!(line_intersect(&pt(0, 0), &pt(0, 0), &pt(1, 0), &pt(5, 2), &mut r), 0);
    assert_eq!(r, pt(9, 9));
}

#[test]
fn line_intersect_of_far_points() {
    let mut r = pt(0, 0);
    assert_eq!(
        line_intersect(&pt(0, 0), &pt(40000, 0), &pt(30000, -30000), &pt(30000, 30000), &mut r),
        1
    );
    assert_eq!(r, pt(30000, 0));
    // lines that meet beyond the range of a coordinate
    assert_eq!(
        line_intersect(
            &pt(0, 0),
            &pt(i32::MAX, 1),
            &pt(0, 2),
            &pt(i32::MAX, 2),
            &mut r
        ),
        0
    );
    assert_eq!(r, pt(30000, 0));
}

#[test]
fn timing_scan_counts_background_after_two_of_foreground() {
    let image = image_of(&[".##.###.#."]);
    assert_eq!(timing_scan(&image, &pt(0, 0), &pt(9, 0)), 2);
    assert_eq!(timing_scan(&image, &pt(9, 0), &pt(0, 0)), 2);
    assert_eq!(timing_scan(&image, &pt(0, 0), &pt(3, 0)), 1);
    assert_eq!(timing_scan(&image, &pt(0, 0), &pt(2, 0)), 0);
    assert_eq!(timing_scan(&image, &pt(4, 0), &pt(4, 0)), 0);
}

#[test]
fn timing_scan_outside_the_frame_is_minus_one() {
    let image = image_of(&[".##.", "####"]);
    assert_eq!(timing_scan(&image, &pt(-1, 0), &pt(3, 0)), -1);
    assert_eq!(timing_scan(&image, &pt(0, 0), &pt(4, 0)), -1);
    assert_eq!(timing_scan(&image, &pt(0, 2), &pt(3, 0)), -1);
    assert_eq!(timing_scan(&image, &pt(0, 0), &pt(3, -1)), -1);
}

#[test]
fn timing_scan_walks_both_diagonals() {
    let image = image_of(&["####.", "#####", "#####", "#####", ".####"]);
    // from the bottom left to the top right: background, three of
    // foreground, background
    assert_eq!(timing_scan(&image, &pt(0, 4), &pt(4, 0)), 1);
    assert_eq!(timing_scan(&image, &pt(1, 3), &pt(4, 0)), 1);
    assert_eq!(timing_scan(&image, &pt(3, 1), &pt(0, 4)), 1);
    let image = image_of(&[".####", "#####", "#####", "#####", "####."]);
    assert_eq!(timing_scan(&image, &pt(1, 1), &pt(4, 4)), 1);
    assert_eq!(timing_scan(&image, &pt(3, 3), &pt(0, 0)), 1);
    // a shallow line: x leads, y follows every other step
    let image = image_of(&["#####", "####."]);
    assert_eq!(timing_scan(&image, &pt(0, 0), &pt(4, 1)), 1);
}

#[test]
fn a_new_image_is_background() {
    let image = Image::new(4, 3);
    assert_eq!(image.width, 4);
    assert_eq!(image.height, 3);
    assert_eq!(image.pixels, vec![0; 12]);
    let image = image_of(&[".#", "#."]);
    assert_eq!(image.get(1, 0), 1);
    assert_eq!(image.get(0, 0), 0);
    assert_eq!(image.get(0, 1), 1);
}

#[test]
fn pixels_setup_thresholds_the_samples() {
    let mut image = Image::new(3, 2);
    image.pixels[5] = 7;
    pixels_setup(&mut image, &[9, 10, 11, 0, 255], 10);
    assert_eq!(image.pixels, vec![1, 0, 0, 1, 0, 7]);
    pixels_setup(&mut image, &[0, 0, 0, 0, 0, 0, 0, 0], 0);
    assert_eq!(image.pixels, vec![0; 6]);
}

#[test]
fn span_functions_keep_their_scores() {
    let mut user = UserData::Region(Region { seed: pt(1, 1), count: 5, capstone: -1 });
    area_count(&mut user, 3, 2, 6);
    match user {
        UserData::Region(r) => assert_eq!(r.count, 10),
        _ => panic!("no region"),
    }
    let psd = PolygonScoreData { ref_0: pt(5, 5), scores: [-1, 0, 0, 0], corners: [pt(0, 0); 4] };
    let mut user = UserData::Polygon(psd);
    find_one_corner(&mut user, 5, 4, 8);
    let p = user.into_polygon();
    assert_eq!(p.scores[0], 9);
    assert_eq!(p.corners[0], pt(8, 5));
    let psd = PolygonScoreData { ref_0: pt(1, 2), scores: [0, 0, 0, 0], corners: [pt(0, 0); 4] };
    let mut user = UserData::Polygon(psd);
    find_other_corners(&mut user, 3, 2, 7);
    let p = user.into_polygon();
    // along: x + 2y; across: -2x + y
    assert_eq!(p.scores, [13, 0, 0, 11]);
    assert_eq!(p.corners, [pt(7, 3), pt(0, 0), pt(0, 0), pt(7, 3)]);
    let psd = PolygonScoreData { ref_0: pt(1, 2), scores: [0, 0, 0, 0], corners: [pt(0, 0); 4] };
    let mut user = UserData::Polygon(psd);
    find_leftmost_to_line(&mut user, 3, 2, 7);
    let p = user.into_polygon();
    assert_eq!(p.scores[0], -11);
    assert_eq!(p.corners[0], pt(7, 3));
}

#[test]
fn region_code_fills_and_counts_a_region() {
    let mut image = image_of(&["##..#", ".#.##", "....#"]);
    let mut regions = placeholders();
    assert_eq!(region_code(&mut image, &mut regions, 0, 0), 2);
    assert_eq!(regions.len(), 3);
    assert_eq!(regions[2].count, 3);
    assert_eq!(regions[2].seed, pt(0, 0));
    assert_eq!(regions[2].capstone, -1);
    assert_eq!(image.pixels, vec![2, 2, 0, 0, 1, 0, 2, 0, 1, 1, 0, 0, 0, 0, 1]);
    assert_eq!(region_code(&mut image, &mut regions, 4, 2), 3);
    assert_eq!(regions[3].count, 4);
    assert_eq!(image.pixels, vec![2, 2, 0, 0, 3, 0, 2, 0, 3, 3, 0, 0, 0, 0, 3]);
    // a pixel that a region has claimed gives the region
    assert_eq!(region_code(&mut image, &mut regions, 1, 1), 2);
    assert_eq!(region_code(&mut image, &mut regions, 3, 1), 3);
    assert_eq!(regions.len(), 4);
}

#[test]
fn region_code_of_background_and_of_no_pixel_is_minus_one() {
    let mut image = image_of(&["#.", ".."]);
    let mut regions = placeholders();
    assert_eq!(region_code(&mut image, &mut regions, 1, 0), -1);
    assert_eq!(region_code(&mut image, &mut regions, -1, 0), -1);
    assert_eq!(region_code(&mut image, &mut regions, 2, 0), -1);
    assert_eq!(region_code(&mut image, &mut regions, 0, 2), -1);
    assert_eq!(regions.len(), 2);
    assert_eq!(image.pixels, vec![1, 0, 0, 0]);
}

#[test]
fn region_code_makes_no_region_past_the_limit() {
    let mut image = image_of(&["#"]);
    let mut regions = vec![Region { seed: pt(0, 0), count: 1, capstone: -1 }; 65534];
    assert_eq!(region_code(&mut image, &mut regions, 0, 0), -1);
    assert_eq!(regions.len(), 65534);
    assert_eq!(image.pixels, vec![1]);
}

#[test]
fn flood_fill_follows_a_winding_region() {
    let mut image = image_of(&[
        "#####",
        "....#",
        "#####",
        "#....",
        "#####",
    ]);
    let mut user = UserData::Region(Region { seed: pt(0, 0), count: 0, capstone: -1 });
    flood_fill_seed(&mut image, 0, 0, 1, 9, SpanFn::AreaCount, &mut user, 0);
    assert!(image.pixels.iter().all(|p| *p == 0 || *p == 9));
    match user {
        UserData::Region(r) => assert_eq!(r.count, 17),
        _ => panic!("no region"),
    }
    // at the greatest depth nothing is done
    let mut image = image_of(&["###"]);
    let mut user = UserData::Empty;
    flood_fill_seed(&mut image, 1, 0, 1, 5, SpanFn::Nothing, &mut user, 4096);
    assert_eq!(image.pixels, vec![1, 1, 1]);
    flood_fill_seed(&mut image, 1, 0, 1, 5, SpanFn::Nothing, &mut user, 4095);
    assert_eq!(image.pixels, vec![5, 5, 5]);
}

#[test]
fn flood_fill_gives_up_at_the_depth_cap() {
    // a column of 5000 pixels: each row is one level of recursion deeper
    let mut image = Image::new(1, 5000);
    for p in image.pixels.iter_mut() {
        *p = 1;
    }
    let mut regions = placeholders();
    assert_eq!(region_code(&mut image, &mut regions, 0, 0), 2);
    assert_eq!(regions[2].count, 4096);
    assert!(image.pixels[..4096].iter().all(|p| *p == 2));
    assert!(image.pixels[4096..].iter().all(|p| *p == 1));
    // the rest is a region of its own
    assert_eq!(region_code(&mut image, &mut regions, 0, 4999), 3);
    assert_eq!(regions[3].count, 904);
}

#[test]
fn find_region_corners_of_a_ring() {
    let mut image = Image::new(40, 40);
    draw_finder(&mut image, 6, 6, 4);
    let mut regions = placeholders();
    assert_eq!(region_code(&mut image, &mut regions, 30, 14), 2);
    assert_eq!(region_code(&mut image, &mut regions, 14, 14), 3);
    assert_eq!(regions[2].count, 384);
    assert_eq!(regions[3].count, 144);
    let before = image.pixels.clone();
    let mut corners = [pt(0, 0); 4];
    let ring = regions[2];
    find_region_corners(&mut image, &ring, 2, &pt(14, 14), &mut corners);
    assert_eq!(corners, [pt(33, 33), pt(6, 33), pt(6, 6), pt(33, 6)]);
    assert_eq!(image.pixels, before);
}

#[test]
fn a_finder_pattern_is_recorded_as_a_capstone() {
    let mut image = Image::new(40, 40);
    draw_finder(&mut image, 6, 6, 4);
    let mut regions = placeholders();
    let mut capstones: Vec<Capstone> = Vec::new();
    for y in 0..14 {
        finder_scan(&mut image, &mut regions, &mut capstones, y);
        assert!(capstones.is_empty());
        assert_eq!(regions.len(), 2);
    }
    finder_scan(&mut image, &mut regions, &mut capstones, 14);
    assert_eq!(capstones.len(), 1);
    assert_eq!(regions.len(), 4);
    let c = capstones[0];
    assert_eq!((c.ring, c.stone, c.qr_grid), (2, 3, -1));
    assert_eq!(c.corners, [pt(33, 33), pt(6, 33), pt(6, 6), pt(33, 6)]);
    assert_eq!(c.center, pt(0, 0));
    assert_eq!(regions[2].capstone, 0);
    assert_eq!(regions[3].capstone, 0);
    assert_eq!(regions[2].seed, pt(30, 14));
    assert_eq!(regions[3].seed, pt(14, 14));
    for y in 15..40 {
        finder_scan(&mut image, &mut regions, &mut capstones, y);
    }
    assert_eq!(capstones.len(), 1);
    assert_eq!(regions.len(), 4);
}

#[test]
fn test_capstone_rejects_what_is_no_capstone() {
    // a ring that is open: its two halves are two regions
    let mut image = image_of(&[
        "#.###.#",
        "#.###.#",
    ]);
    let mut regions = placeholders();
    let mut capstones: Vec<Capstone> = Vec::new();
    let mut wide = Image::new(8, 2);
    wide.pixels[..7].copy_from_slice(&image.pixels[..7]);
    wide.pixels[8..15].copy_from_slice(&image.pixels[7..]);
    test_capstone(&mut wide, &mut regions, &mut capstones, 7, 0, &[1, 1, 3, 1, 1]);
    assert!(capstones.is_empty());
    assert_eq!(regions.len(), 5);
    // background where the stone should be
    image.pixels[2] = 0;
    let mut regions = placeholders();
    test_capstone(&mut image, &mut regions, &mut capstones, 6, 0, &[1, 1, 3, 1, 0]);
    assert!(capstones.is_empty());
}

#[test]
fn test_capstone_checks_the_share_of_the_stone() {
    // a full ring with a stone of one pixel: 1 in 24 is too little
    let mut image = image_of(&[
        "#######",
        "#.....#",
        "#.....#",
        "#..#..#",
        "#.....#",
        "#.....#",
        "#######",
        ".......",
    ]);
    let mut wide = Image::new(8, 8);
    for y in 0..8 {
        wide.pixels[y * 8..y * 8 + 7].copy_from_slice(&image.pixels[y * 7..y * 7 + 7]);
    }
    let mut regions = placeholders();
    let mut capstones: Vec<Capstone> = Vec::new();
    test_capstone(&mut wide, &mut regions, &mut capstones, 7, 3, &[1, 2, 1, 2, 1]);
    assert_eq!(regions.len(), 4);
    assert_eq!(regions[2].count, 24);
    assert_eq!(regions[3].count, 1);
    assert!(capstones.is_empty());
    // with a stone of nine pixels the share is 37 in a hundred
    for (x, y) in [(2, 2), (3, 2), (4, 2), (2, 3), (4, 3), (2, 4), (3, 4), (4, 4)] {
        image.pixels[y * 7 + x] = 1;
    }
    let mut wide = Image::new(8, 8);
    for y in 0..8 {
        wide.pixels[y * 8..y * 8 + 7].copy_from_slice(&image.pixels[y * 7..y * 7 + 7]);
    }
    let mut regions = placeholders();
    test_capstone(&mut wide, &mut regions, &mut capstones, 7, 3, &[1, 1, 3, 1, 1]);
    assert_eq!(regions[3].count, 9);
    assert_eq!(capstones.len(), 1);
    // seen from the seed of the stone at (2, 3), (6, 0) is the first of the
    // two farthest corners
    assert_eq!(capstones[0].corners, [pt(6, 0), pt(6, 6), pt(0, 6), pt(0, 0)]);
}

#[test]
fn record_capstone_stops_at_thirty_two() {
    let mut image = Image::new(40, 40);
    draw_finder(&mut image, 6, 6, 4);
    let mut regions = placeholders();
    region_code(&mut image, &mut regions, 30, 14);
    region_code(&mut image, &mut regions, 14, 14);
    let blank = Capstone { ring: 2, stone: 3, corners: [pt(0, 0); 4], center: pt(0, 0), qr_grid: -1 };
    let mut capstones = vec![blank; 32];
    record_capstone(&mut image, &mut regions, &mut capstones, 2, 3);
    assert_eq!(capstones.len(), 32);
    assert_eq!(regions[2].capstone, -1);
    let mut capstones = vec![blank; 31];
    regions[2].capstone = -1;
    record_capstone(&mut image, &mut regions, &mut capstones, 2, 3);
    assert_eq!(capstones.len(), 32);
    assert_eq!(regions[2].capstone, 31);
    assert_eq!(regions[3].capstone, 31);
}

#[test]
fn rotate_capstone_puts_the_leftmost_corner_first() {
    let mut cap = Capstone {
        ring: 2,
        stone: 3,
        corners: [pt(33, 33), pt(6, 33), pt(6, 6), pt(33, 6)],
        center: pt(20, 20),
        qr_grid: 4,
    };
    rotate_capstone(&mut cap, &pt(0, 0), &pt(1, 0));
    assert_eq!(cap.corners, [pt(6, 6), pt(33, 6), pt(33, 33), pt(6, 33)]);
    assert_eq!((cap.ring, cap.stone, cap.qr_grid, cap.center), (2, 3, 4, pt(20, 20)));
    rotate_capstone(&mut cap, &pt(0, 0), &pt(1, 0));
    assert_eq!(cap.corners, [pt(6, 6), pt(33, 6), pt(33, 33), pt(6, 33)]);
    rotate_capstone(&mut cap, &pt(0, 40), &pt(40, -40));
    assert_eq!(cap.corners, [pt(6, 6), pt(33, 6), pt(33, 33), pt(6, 33)]);
    rotate_capstone(&mut cap, &pt(0, 0), &pt(-1, -1));
    assert_eq!(cap.corners, [pt(6, 33), pt(6, 6), pt(33, 6), pt(33, 33)]);
}

#[test]
fn measure_timing_pattern_sets_the_size_of_the_grid() {
    let image = image_of(&[
        "##.##.##.##.##.#",
        "################",
        ".###############",
        "################",
        "################",
        ".###############",
    ]);
    let mut qr = Grid::default();
    qr.tpep = [pt(0, 5), pt(0, 0), pt(15, 0)];
    qr.grid_size = 99;
    assert_eq!(measure_timing_pattern(&mut qr, &image), 0);
    assert_eq!(qr.hscan, 5);
    assert_eq!(qr.vscan, 2);
    // 5 transitions: a size of 23, which lies nearest version 2
    assert_eq!(qr.grid_size, 25);
    qr.tpep = [pt(0, 5), pt(0, 0), pt(16, 0)];
    assert_eq!(measure_timing_pattern(&mut qr, &image), 0);
    assert_eq!((qr.hscan, qr.vscan, qr.grid_size), (-1, 2, 17));
    qr.tpep = [pt(0, 6), pt(0, 0), pt(16, 0)];
    qr.grid_size = 99;
    assert_eq!(measure_timing_pattern(&mut qr, &image), -1);
    assert_eq!((qr.hscan, qr.vscan, qr.grid_size), (-1, -1, 99));
    qr.tpep = [pt(1, 1), pt(1, 1), pt(1, 1)];
    assert_eq!(measure_timing_pattern(&mut qr, &image), 0);
    assert_eq!((qr.hscan, qr.vscan, qr.grid_size), (0, 0, 17));
}

#[test]
fn find_alignment_pattern_spirals_outwards() {
    let mut image = Image::new(20, 20);
    for y in 8..11 {
        for x in 12..15 {
            image.pixels[y * 20 + x] = 1;
        }
    }
    let mut regions = placeholders();
    let mut qr = Grid::default();
    qr.align = pt(10, 10);
    find_alignment_pattern(&mut image, &mut regions, &mut qr, 9);
    assert_eq!(qr.align_region, Some(2));
    assert_eq!(qr.align, pt(10, 10));
    assert_eq!(regions[2].count, 9);
    assert_eq!(regions[2].seed, pt(12, 10));
    // a region of the wrong size is passed by
    let mut qr = Grid::default();
    qr.align = pt(10, 10);
    find_alignment_pattern(&mut image, &mut regions, &mut qr, 2);
    assert_eq!(qr.align_region, None);
    find_alignment_pattern(&mut image, &mut regions, &mut qr, 20);
    assert_eq!(qr.align_region, None);
    find_alignment_pattern(&mut image, &mut regions, &mut qr, 18);
    assert_eq!(qr.align_region, Some(2));
    // no estimate, no search
    let mut qr = Grid::default();
    qr.align = pt(12, 9);
    find_alignment_pattern(&mut image, &mut regions, &mut qr, 0);
    assert_eq!(qr.align_region, None);
    // a start outside the frame
    qr.align = pt(-3, 9);
    find_alignment_pattern(&mut image, &mut regions, &mut qr, 1);
    assert_eq!(qr.align_region, None);
}

#[test]
fn locate_alignment_corner_finds_the_top_left_pixel() {
    let mut image = Image::new(20, 20);
    for y in 8..11 {
        for x in 12..15 {
            image.pixels[y * 20 + x] = 1;
        }
    }
    let mut regions = placeholders();
    region_code(&mut image, &mut regions, 14, 10);
    let before = image.pixels.clone();
    let mut qr = Grid::default();
    qr.align_region = Some(2);
    // the hypotenuse runs from the bottom left to the top right
    locate_alignment_corner(&mut image, &regions, &mut qr, &pt(10, -10));
    assert_eq!(qr.align, pt(12, 8));
    assert_eq!(image.pixels, before);
    locate_alignment_corner(&mut image, &regions, &mut qr, &pt(-10, 10));
    assert_eq!(qr.align, pt(14, 10));
}

fn three_capstones() -> Vec<Capstone> {
    let square = |x: i32, y: i32| [pt(x + 3, y + 3), pt(x - 3, y + 3), pt(x - 3, y - 3), pt(x + 3, y - 3)];
    vec![
        Capstone { ring: 2, stone: 3, corners: square(10, 40), center: pt(10, 40), qr_grid: -1 },
        Capstone { ring: 4, stone: 5, corners: square(10, 10), center: pt(10, 10), qr_grid: -1 },
        Capstone { ring: 6, stone: 7, corners: square(40, 10), center: pt(40, 10), qr_grid: -1 },
    ]
}

#[test]
fn begin_qr_grid_orders_the_capstones_clockwise() {
    let mut capstones = three_capstones();
    let mut grids: Vec<Grid> = Vec::new();
    let hd = begin_qr_grid(&mut capstones, &mut grids, 0, 1, 2);
    assert_eq!(hd, Some(pt(30, -30)));
    assert_eq!(grids.len(), 1);
    assert_eq!(grids[0].caps, [0, 1, 2]);
    assert_eq!(grids[0].align_region, None);
    for c in &capstones {
        assert_eq!(c.qr_grid, 0);
    }
    assert_eq!(capstones[1].corners, [pt(7, 7), pt(13, 7), pt(13, 13), pt(7, 13)]);
    assert_eq!(capstones[0].corners[0], pt(7, 37));
    assert_eq!(capstones[2].corners[0], pt(37, 7));
    // the other way round, the outer two change places
    let mut capstones = three_capstones();
    let mut grids: Vec<Grid> = Vec::new();
    let hd = begin_qr_grid(&mut capstones, &mut grids, 2, 1, 0);
    assert_eq!(hd, Some(pt(30, -30)));
    assert_eq!(grids[0].caps, [0, 1, 2]);
    assert_eq!(capstones[1].corners, [pt(7, 7), pt(13, 7), pt(13, 13), pt(7, 13)]);
}

#[test]
fn begin_qr_grid_stops_at_eight_and_abandon_undoes_the_last() {
    let mut capstones = three_capstones();
    let mut grids: Vec<Grid> = Vec::new();
    for n in 0..8 {
        assert!(begin_qr_grid(&mut capstones, &mut grids, 0, 1, 2).is_some());
        assert_eq!(grids.len(), n + 1);
        assert_eq!(capstones[0].qr_grid, n as i32);
    }
    let before = capstones.clone();
    assert_eq!(begin_qr_grid(&mut capstones, &mut grids, 0, 1, 2), None);
    assert_eq!(grids.len(), 8);
    for (a, b) in capstones.iter().zip(before.iter()) {
        assert_eq!((a.qr_grid, a.corners), (b.qr_grid, b.corners));
    }
    abandon_qr_grid(&mut capstones, &mut grids);
    assert_eq!(grids.len(), 7);
    for c in &capstones {
        assert_eq!(c.qr_grid, -1);
    }
}

#[test]
fn the_workspace_keeps_its_lists() {
    let mut q = Quirc::new();
    assert_eq!((q.num_regions(), q.num_capstones(), q.count()), (0, 0, 0));
    q.resize(4, 3);
    assert_eq!((q.image.width, q.image.height, q.image.pixels.len()), (4, 3, 12));
    q.image.pixels[5] = 1;
    q.resize(4, 3);
    assert_eq!(q.image.pixels[5], 1);
    q.resize(4, 4);
    assert_eq!(q.image.pixels.len(), 16);
    assert_eq!(q.image.pixels[5], 1);
    assert_eq!(q.image.pixels[15], 0);
    q.resize(2, 2);
    assert_eq!(q.image.pixels.len(), 4);
    q.regions.push(Region::default());
    q.grids.push(Grid::default());
    assert_eq!((q.num_regions(), q.num_capstones(), q.count()), (1, 0, 1));
    q.reset();
    assert_eq!((q.num_regions(), q.num_capstones(), q.count()), (0, 0, 0));
    assert_eq!(q.image.pixels.len(), 4);
    let d = Quirc::default();
    assert_eq!(d.image.pixels.len(), 0);
}

#[test]
fn an_empty_frame_holds_no_capstone() {
    let mut q = Quirc::new();
    q.find_capstones(1, 1, &[255], 128);
    assert_eq!(q.num_capstones(), 0);
    assert_eq!(q.num_regions(), 2);
    assert_eq!(q.count(), 0);
    assert_eq!(q.image.pixels, vec![0]);
    q.find_capstones(0, 0, &[], 128);
    assert_eq!(q.num_capstones(), 0);
    let frame = vec![200u8; 64 * 48];
    q.find_capstones(64, 48, &frame, 128);
    assert_eq!(q.num_capstones(), 0);
    assert_eq!(q.num_regions(), 2);
    assert!(q.image.pixels.iter().all(|p| *p == 0));
}

fn frame_with_three_finders() -> Vec<u8> {
    let mut image = Image::new(120, 120);
    draw_finder(&mut image, 10, 10, 4);
    draw_finder(&mut image, 80, 10, 4);
    draw_finder(&mut image, 10, 80, 4);
    image.pixels.iter().map(|p| if *p != 0 { 20u8 } else { 230u8 }).collect()
}

#[test]
fn three_finders_give_three_capstones() {
    let frame = frame_with_three_finders();
    let mut q = Quirc::new();
    q.find_capstones(120, 120, &frame, 128);
    assert_eq!(q.num_capstones(), 3);
    assert_eq!(q.num_regions(), 8);
    assert_eq!(q.count(), 0);
    assert_eq!(q.capstones[0].corners, [pt(37, 37), pt(10, 37), pt(10, 10), pt(37, 10)]);
    assert_eq!(q.capstones[1].corners, [pt(107, 37), pt(80, 37), pt(80, 10), pt(107, 10)]);
    assert_eq!(q.capstones[2].corners, [pt(37, 107), pt(10, 107), pt(10, 80), pt(37, 80)]);
    for (i, c) in q.capstones.iter().enumerate() {
        assert_eq!(c.qr_grid, -1);
        assert_eq!(q.regions[c.ring as usize].capstone, i as i32);
        assert_eq!(q.regions[c.stone as usize].capstone, i as i32);
        assert_eq!(q.regions[c.ring as usize].count, 384);
        assert_eq!(q.regions[c.stone as usize].count, 144);
    }
    assert!(q.image.pixels.iter().all(|p| (*p as usize) < q.num_regions()));
}

#[test]
fn searching_a_frame_twice_gives_the_same() {
    let frame = frame_with_three_finders();
    let mut q = Quirc::new();
    q.find_capstones(120, 120, &frame, 128);
    let pixels = q.image.pixels.clone();
    let regions: Vec<(Point, i32, i32)> = q.regions.iter().map(|r| (r.seed, r.count, r.capstone)).collect();
    let corners: Vec<[Point; 4]> = q.capstones.iter().map(|c| c.corners).collect();
    q.find_capstones(120, 120, &frame, 128);
    assert_eq!(q.image.pixels, pixels);
    assert_eq!(q.regions.iter().map(|r| (r.seed, r.count, r.capstone)).collect::<Vec<_>>(), regions);
    assert_eq!(q.capstones.iter().map(|c| c.corners).collect::<Vec<_>>(), corners);
    // and so does a workspace that held another frame before
    let mut other = Quirc::new();
    other.find_capstones(3, 2, &[0, 0, 0, 255, 255, 0], 100);
    other.find_capstones(120, 120, &frame, 128);
    assert_eq!(other.image.pixels, pixels);
    assert_eq!(other.capstones.iter().map(|c| c.corners).collect::<Vec<_>>(), corners);
}

/// A frame of one sample gives no codes, whatever the sample: its
/// threshold is 0, below which no sample lies.
fn empty(sample: u8) {
    let mut q = Quirc::default();
    q.find_capstones(1, 1, &[sample], 0);
    assert_eq!(q.count(), 0);
    assert_eq!(q.num_capstones(), 0);
}

#[test]
fn empty_jpeg() {
    empty(0);
}

#[test]
fn empty_png() {
    empty(255);
}

#[test]
fn region_code_counts_the_pixels_that_it_repaints() {
    let mut image = image_of(&["##..#", ".#.##", "....#", "#####"]);
    let mut regions = placeholders();
    assert_eq!(region_code(&mut image, &mut regions, 3, 1), 2);
    let repainted = image.pixels.iter().filter(|p| **p == 2).count();
    assert_eq!(regions[2].count as usize, repainted);
    assert_eq!(repainted, 9);
    assert_eq!(image.pixels.iter().filter(|p| **p == 1).count(), 3);
}

#[test]
fn flood_fill_at_the_depth_cap_takes_anything() {
    // the seed outside the frame, both colours the same, and data that the
    // function cannot take: at the cap nothing is looked at
    let mut image = image_of(&["###"]);
    let mut user = UserData::Empty;
    flood_fill_seed(&mut image, 100, 100, 1, 1, SpanFn::AreaCount, &mut user, 4096);
    assert_eq!(image.pixels, vec![1, 1, 1]);
    flood_fill_seed(&mut image, -5, 0, 7, 7, SpanFn::FindOneCorner, &mut user, 5000);
    assert_eq!(image.pixels, vec![1, 1, 1]);
    assert!(matches!(user, UserData::Empty));
}

#[test]
fn flood_fill_paints_its_seed_whatever_its_colour() {
    let mut image = image_of(&["#.#"]);
    let mut user = UserData::Empty;
    flood_fill_seed(&mut image, 1, 0, 1, 6, SpanFn::Nothing, &mut user, 0);
    assert_eq!(image.pixels, vec![6, 6, 6]);
    let mut image = image_of(&["..."]);
    flood_fill_seed(&mut image, 1, 0, 1, 6, SpanFn::Nothing, &mut user, 0);
    assert_eq!(image.pixels, vec![0, 6, 0]);
}

#[test]
fn cell_value_tells_foreground_background_and_no_pixel() {
    let image = image_of(&[".#", "#."]);
    assert_eq!(cell_value(&image, &pt(1, 0)), 1);
    assert_eq!(cell_value(&image, &pt(0, 1)), 1);
    assert_eq!(cell_value(&image, &pt(0, 0)), -1);
    assert_eq!(cell_value(&image, &pt(1, 1)), -1);
    for p in [pt(-1, 0), pt(0, -1), pt(2, 0), pt(0, 2), pt(i32::MAX, i32::MIN)] {
        assert_eq!(cell_value(&image, &p), 0);
    }
}

#[test]
fn sample_code_reads_each_cell_at_its_centre() {
    let image = image_of(&["#.#", "..#"]);
    let corners = [pt(0, 0), pt(2, 0), pt(2, 1), pt(0, 1)];
    let centres = vec![pt(0, 0), pt(1, 0), pt(2, 1), pt(5, 5)];
    let code = sample_code(&image, 2, &corners, &centres);
    assert_eq!(code.size, 2);
    assert_eq!(code.corners, corners);
    assert_eq!(code.cell_bitmap[0], 0b101);
    assert!(code.cell_bitmap[1..].iter().all(|b| *b == 0));
    let none = sample_code(&image, 0, &corners, &Vec::new());
    assert_eq!(none.size, 0);
    assert!(none.cell_bitmap.iter().all(|b| *b == 0));
    let all = sample_code(&image_of(&["#"]), 177, &corners, &vec![pt(0, 0); 177 * 177]);
    assert_eq!(all.cell_bitmap.iter().map(|b| b.count_ones()).sum::<u32>(), 177 * 177);
    assert_eq!(all.cell_bitmap[3916], 1);
}

#[test]
fn alignment_size_estimate_is_the_size_of_the_parallelogram() {
    assert_eq!(alignment_size_estimate(&pt(3, 0), &pt(0, 0), &pt(0, 4)), 12);
    assert_eq!(alignment_size_estimate(&pt(0, 4), &pt(0, 0), &pt(3, 0)), 12);
    assert_eq!(alignment_size_estimate(&pt(13, 10), &pt(10, 10), &pt(11, 12)), 6);
    assert_eq!(alignment_size_estimate(&pt(5, 5), &pt(1, 1), &pt(3, 3)), 0);
    let far = alignment_size_estimate(&pt(i32::MAX, 0), &pt(i32::MIN, 0), &pt(i32::MIN, i32::MAX));
    assert_eq!(far, (i32::MAX as i128 - i32::MIN as i128) * i32::MAX as i128);
}

#[test]
fn fitness_cells_of_the_first_version() {
    let cells = fitness_cells(21);
    assert_eq!(cells.len(), 14 + 3 * 49);
    assert_eq!(&cells[..4], &[(7, 6, -1), (6, 7, -1), (8, 6, 1), (6, 8, 1)]);
    assert_eq!(cells[12], (13, 6, -1));
    // the capstone at the top left: its centre, then the ring about it
    assert_eq!(cells[14], (3, 3, 1));
    assert_eq!(
        &cells[15..23],
        &[
            (2, 2, -1),
            (2, 4, -1),
            (4, 2, -1),
            (4, 4, -1),
            (3, 2, -1),
            (2, 3, -1),
            (4, 3, -1),
            (3, 4, -1)
        ]
    );
    assert!(cells[23..39].iter().all(|c| c.2 == 1 && (c.0 - 3).abs().max((c.1 - 3).abs()) == 2));
    assert!(cells[39..63].iter().all(|c| c.2 == -1 && (c.0 - 3).abs().max((c.1 - 3).abs()) == 3));
    assert_eq!(cells[63], (17, 3, 1));
    assert_eq!(cells[112], (3, 17, 1));
    assert_eq!(cells[14..63].iter().map(|c| c.2).sum::<i32>(), -15);
}

#[test]
fn fitness_cells_hold_the_alignment_patterns() {
    // version 2: one pattern, about (18, 18)
    let cells = fitness_cells(25);
    assert_eq!(cells.len(), 22 + 147 + 25);
    let apat = &cells[169..];
    assert_eq!(apat[0], (18, 18, 1));
    assert!(apat[1..9].iter().all(|c| c.2 == -1 && (c.0 - 18).abs().max((c.1 - 18).abs()) == 1));
    assert!(apat[9..].iter().all(|c| c.2 == 1 && (c.0 - 18).abs().max((c.1 - 18).abs()) == 2));
    // version 7: centres 6, 22, 38; two patterns on the timing patterns
    // and four within
    let cells = fitness_cells(45);
    assert_eq!(cells.len(), 62 + 147 + 6 * 25);
    let centres: Vec<(i32, i32)> = cells[209..].chunks(25).map(|c| (c[0].0, c[0].1)).collect();
    assert_eq!(centres, vec![(6, 22), (22, 6), (22, 22), (22, 38), (38, 22), (38, 38)]);
    // version 40: centres 6, 30, ..., 170
    assert_eq!(fitness_cells(177).len(), 2 * 163 + 147 + (10 + 36) * 25);
    // a grid past the last version has no alignment patterns
    assert_eq!(fitness_cells(181).len(), 2 * 167 + 147);
    assert_eq!(fitness_cells(17).len(), 6 + 147);
}

fn timing_frame() -> Image {
    let mut image = Image::new(50, 50);
    for p in image.pixels.iter_mut() {
        *p = 1;
    }
    for x in [2, 5, 8, 11, 14] {
        image.pixels[x] = 0;
    }
    for y in [2, 5] {
        image.pixels[y * 50] = 0;
    }
    image
}

#[test]
fn settle_qr_grid_measures_the_grid_and_finds_its_fourth_corner() {
    let image = timing_frame();
    let mut capstones = three_capstones();
    let mut grids: Vec<Grid> = Vec::new();
    begin_qr_grid(&mut capstones, &mut grids, 0, 1, 2);
    grids[0].tpep = [pt(0, 5), pt(0, 0), pt(15, 0)];
    assert!(settle_qr_grid(&image, &mut capstones, &mut grids));
    assert_eq!(grids.len(), 1);
    assert_eq!((grids[0].hscan, grids[0].vscan, grids[0].grid_size), (5, 2, 25));
    // the side of A at y = 37 and the side of C at x = 37
    assert_eq!(grids[0].align, pt(37, 37));
    assert_eq!(grids[0].caps, [0, 1, 2]);
    assert_eq!(grids[0].align_region, None);
    for c in &capstones {
        assert_eq!(c.qr_grid, 0);
    }
}

#[test]
fn settle_qr_grid_drops_a_grid_without_timing_or_crossing() {
    let image = timing_frame();
    let mut capstones = three_capstones();
    let mut grids: Vec<Grid> = Vec::new();
    begin_qr_grid(&mut capstones, &mut grids, 0, 1, 2);
    grids[0].tpep = [pt(0, 60), pt(0, 0), pt(60, 0)];
    assert!(!settle_qr_grid(&image, &mut capstones, &mut grids));
    assert!(grids.is_empty());
    for c in &capstones {
        assert_eq!(c.qr_grid, -1);
    }
    // the two sides are parallel
    begin_qr_grid(&mut capstones, &mut grids, 0, 1, 2);
    grids[0].tpep = [pt(0, 5), pt(0, 0), pt(15, 0)];
    capstones[2].corners[3] = pt(43, 7);
    assert!(!settle_qr_grid(&image, &mut capstones, &mut grids));
    assert!(grids.is_empty());
    assert_eq!(capstones[0].qr_grid, -1);
}

#[test]
fn refine_alignment_searches_only_past_the_first_version() {
    let mut image = Image::new(20, 20);
    for y in 8..11 {
        for x in 12..15 {
            image.pixels[y * 20 + x] = 1;
        }
    }
    let before = image.pixels.clone();
    let mut regions = placeholders();
    let mut qr = Grid::default();
    qr.align = pt(10, 10);
    qr.grid_size = 21;
    refine_alignment(&mut image, &mut regions, &mut qr, &pt(10, -10), 9);
    assert_eq!(qr.align_region, None);
    assert_eq!(qr.align, pt(10, 10));
    assert_eq!(regions.len(), 2);
    assert_eq!(image.pixels, before);
    qr.grid_size = 25;
    refine_alignment(&mut image, &mut regions, &mut qr, &pt(10, -10), 9);
    assert_eq!(qr.align_region, Some(2));
    assert_eq!(qr.align, pt(12, 8));
    assert_eq!(regions[2].count, 9);
    // where no region is found the point stays
    let mut qr = Grid::default();
    qr.align = pt(3, 3);
    qr.grid_size = 25;
    refine_alignment(&mut image, &mut regions, &mut qr, &pt(10, -10), 1);
    assert_eq!(qr.align_region, None);
    assert_eq!(qr.align, pt(3, 3));
}

#[test]
fn grid_at_guards_the_index() {
    let mut q = Quirc::new();
    assert_eq!(q.grid_at(0).err(), Some(ExtractError::OutOfBounds));
    let mut g = Grid::default();
    g.grid_size = 29;
    q.grids.push(g);
    assert_eq!(q.grid_at(0).map(|g| g.grid_size), Ok(29));
    assert_eq!(q.grid_at(1).err(), Some(ExtractError::OutOfBounds));
}

#[test]
fn a_frame_beyond_the_limits_is_not_searched() {
    let mut frame = vec![200u8; 40000];
    for x in [10usize, 12, 16, 18] {
        frame[x] = 0;
    }
    let mut q = Quirc::new();
    q.find_capstones(40000, 1, &frame, 128);
    assert_eq!((q.num_regions(), q.num_capstones(), q.count()), (2, 0, 0));
    assert_eq!(q.image.pixels.len(), 40000);
    assert_eq!(q.image.pixels.iter().filter(|p| **p == 1).count(), 4);
    q.resize(5, 3);
    assert_eq!(q.image.pixels.len(), 15);
}
