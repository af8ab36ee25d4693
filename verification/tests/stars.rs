use astra_lite::image::image::ImageLayer;
use astra_lite::image::stars::{star_background, star_border, star_points, StarPoints, StarsFinder};
use astra_lite::image::star_list::{brightest_order, get_stars};
use astra_lite::image::utils::{FillPtSetResult, FloodFiller};

fn layer(width: usize, height: usize, data: Vec<u16>) -> ImageLayer<u16> {
    ImageLayer::new_mono(data, width, height)
}

#[test]
fn flood_fill_takes_connected_bright_pixels() {
    let img = layer(5, 4, vec![
        0, 0,  0, 0, 9,
        0, 9,  9, 0, 0,
        0, 0,  9, 0, 0,
        9, 0,  0, 0, 0,
    ]);
    let taken = vec![false; 20];
    let mut star = StarPoints::new(&img, &taken, 5, 1, 1);
    let mut filler = FloodFiller::new();
    assert!(filler.fill(1, 1, &mut star));
    let mut pts: Vec<(isize, isize)> = star.points().iter().map(|p| (p.0, p.1)).collect();
    pts.sort();
    // (0, 3) is not a neighbor of any filled point; (4, 0) is not either
    assert_eq!(pts, vec![(1, 1), (2, 1), (2, 2)]);
    assert_eq!(star.bounds(), (1, 2, 1, 2));
    // the first point is the start one
    assert_eq!((star.points()[0].0, star.points()[0].1), (1, 1));
}

#[test]
fn flood_fill_from_dark_pixel_fills_nothing() {
    let img = layer(2, 2, vec![0, 9, 9, 9]);
    let taken = vec![false; 4];
    let mut star = StarPoints::new(&img, &taken, 5, 0, 0);
    let mut filler = FloodFiller::new();
    assert!(filler.fill(0, 0, &mut star));
    assert!(star.points().is_empty());
}

#[test]
fn flood_fill_fails_on_pixels_of_another_star() {
    let img = layer(3, 1, vec![9, 9, 9]);
    let taken = vec![false, false, true];
    let mut star = StarPoints::new(&img, &taken, 5, 0, 0);
    let mut filler = FloodFiller::new();
    assert!(!filler.fill(0, 0, &mut star));
    assert_eq!(star.points().len(), 2);
}

#[test]
fn flood_fill_fails_on_wide_star() {
    let img = layer(40, 1, vec![9; 40]);
    let taken = vec![false; 40];
    let mut star = StarPoints::new(&img, &taken, 5, 0, 0);
    let mut filler = FloodFiller::new();
    assert!(!filler.fill(0, 0, &mut star));
}

#[test]
fn fill_result_variants_compare() {
    assert!(FillPtSetResult::Hit != FillPtSetResult::Miss);
    assert!(FillPtSetResult::Error == FillPtSetResult::Error);
}

#[test]
fn overexposed_star_has_plateau_both_ways() {
    let mut finder = StarsFinder::new();
    // a plus sign of saturated points around (2, 2)
    let mut pts = Vec::new();
    for x in 0..5 {
        pts.push((x, 2, 60000u16));
    }
    for y in 0..5 {
        if y != 2 {
            pts.push((2, y, 60000u16));
        }
    }
    assert!(finder.check_is_star_overexposured(&pts, 2, 2, 0, 0, 4, 4, 1000));
    // a peak with one bright point is not a plateau
    let mut peak = Vec::new();
    for x in 0..5isize {
        peak.push((x, 2, if x == 2 { 60000u16 } else { 2000 }));
    }
    for y in 0..5isize {
        if y != 2 {
            peak.push((2, y, 2000));
        }
    }
    assert!(!finder.check_is_star_overexposured(&peak, 2, 2, 0, 0, 4, 4, 1000));
    // fewer than four points on the row
    assert!(!finder.check_is_star_overexposured(&pts[..3], 2, 2, 0, 0, 4, 4, 1000));
}

#[test]
fn flood_fill_stops_at_unconnected_points() {
    let mut data = vec![0u16; 16];
    data[0] = 9;
    data[1 * 4 + 1] = 9;
    data[3 * 4 + 3] = 9;
    let img = layer(4, 4, data);
    let taken = vec![false; 16];
    let mut star = StarPoints::new(&img, &taken, 5, 0, 0);
    let mut filler = FloodFiller::new();
    assert!(filler.fill(0, 0, &mut star));
    let mut pts: Vec<(isize, isize)> = star.points().iter().map(|p| (p.0, p.1)).collect();
    pts.sort();
    assert_eq!(pts, vec![(0, 0), (1, 1)]);
}

#[test]
fn star_points_are_the_bright_region() {
    let img = layer(5, 4, vec![
        0, 0,  0, 0, 9,
        0, 9,  9, 0, 0,
        0, 0,  7, 0, 0,
        9, 0,  0, 0, 0,
    ]);
    let taken = vec![false; 20];
    let mut pts = star_points(&img, &taken, 5, 1, 1).unwrap();
    pts.sort();
    assert_eq!(pts, vec![(1, 1, 9), (2, 1, 9), (2, 2, 7)]);
    assert_eq!(star_points(&img, &taken, 5, 0, 0), Ok(vec![]));
    let mut taken = vec![false; 20];
    taken[2 * 5 + 2] = true;
    assert_eq!(star_points(&img, &taken, 5, 1, 1), Err(2));
}

#[test]
fn star_background_is_lower_quarter_level() {
    let img = layer(3, 3, vec![9, 8, 7, 6, 5, 4, 3, 2, 1]);
    assert_eq!(star_background(&img, 1, 1), 3);
    let img = layer(4, 1, vec![40, 10, 30, 20]);
    assert_eq!(star_background(&img, 0, 0), 20);
}

#[test]
fn star_border_is_halfway_up() {
    assert_eq!(star_border(100, 20, 10), Some(60));
    assert_eq!(star_border(25, 20, 10), None);
    assert_eq!(star_border(10, 20, 0), None);
    assert_eq!(star_border(0, 0, 0), None);
}

#[test]
fn star_points_refuses_too_wide_regions() {
    let img = layer(34, 1, vec![9; 34]);
    let taken = vec![false; 34];
    assert_eq!(star_points(&img, &taken, 5, 0, 0), Err(33));
    let img = layer(33, 1, vec![9; 33]);
    let taken = vec![false; 33];
    assert_eq!(star_points(&img, &taken, 5, 0, 0).map(|p| p.len()), Ok(33));
}

#[test]
fn get_stars_finds_each_region_once() {
    let mut data = vec![0u16; 40 * 40];
    for y in 9..=11 {
        for x in 9..=11 {
            data[y * 40 + x] = 100;
        }
    }
    data[25 * 40 + 25] = 80;
    let img = layer(40, 40, data);
    let centres = vec![(10, 10, 100), (11, 11, 100), (25, 25, 80)];
    let stars = get_stars(&img, &centres, 10, false);
    assert_eq!(stars.len(), 2);
    assert_eq!((stars[0].x, stars[0].y, stars[0].background, stars[0].max_value), (10, 10, 0, 100));
    assert_eq!(stars[0].brightness, 900);
    assert_eq!(stars[0].points.len(), 9);
    assert_eq!((stars[0].min_x, stars[0].max_x, stars[0].min_y, stars[0].max_y), (9, 11, 9, 11));
    assert_eq!((stars[1].x, stars[1].y, stars[1].brightness), (25, 25, 80));
    assert_eq!(stars[1].points, vec![(25, 25, 80)]);
    let stars = get_stars(&img, &centres, 10, true);
    assert_eq!(stars.len(), 1);
    assert_eq!(stars[0].brightness, 900);
    assert_eq!(get_stars(&img, &centres, 200, false).len(), 0);
}

#[test]
fn brightest_order_is_stable_and_capped() {
    assert_eq!(brightest_order(&[5, 9, 5, 1]), vec![1, 0, 2, 3]);
    assert_eq!(brightest_order(&[]), Vec::<usize>::new());
    let many = vec![7u32; 600];
    let order = brightest_order(&many);
    assert_eq!(order.len(), 500);
    assert_eq!(order, (0..500).collect::<Vec<usize>>());
}

#[test]
fn get_stars_gives_up_after_too_many_failed_fills() {
    let mut data = vec![0u16; 60 * 40];
    for x in 0..40 {
        data[20 * 60 + x] = 100;
    }
    data[5 * 60 + 50] = 80;
    let img = layer(60, 40, data);
    let mut centres = vec![(10isize, 20isize, 100u16); 1000];
    centres.push((50, 5, 80));
    let stars = get_stars(&img, &centres, 10, false);
    assert_eq!(stars.len(), 1);
    assert_eq!((stars[0].x, stars[0].y), (50, 5));
    let mut centres = vec![(10isize, 20isize, 100u16); 1001];
    centres.push((50, 5, 80));
    assert!(get_stars(&img, &centres, 10, false).is_empty());
}
