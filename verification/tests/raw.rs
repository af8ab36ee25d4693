use astra_lite::image::image::Image;
use astra_lite::image::raw::{BadPixel, BadPixels, CfaType, FrameType, RawImage};

#[test]
fn mono_frame_copies_into_luminance() {
    let raw = RawImage::new(2, 2, 10, 4095, CfaType::Mono, FrameType::Lights, vec![1, 2, 3, 4]);
    let mut img = Image::new_empty();
    raw.demosaic_into(&mut img);
    assert!(img.is_monochrome());
    assert_eq!(img.l.as_slice(), &[1, 2, 3, 4]);
    assert_eq!(img.max_value(), 4095);
    assert_eq!(img.zero, 10);
}

#[test]
fn demosaic_rggb_inner_and_border() {
    // RGGB 4x4: R at even x, even y; B at odd x, odd y
    let data = vec![
        100, 10, 100, 10,
         10,  1,  10,  1,
        100, 10, 100, 10,
         10,  1,  10,  1,
    ];
    let raw = RawImage::new(4, 4, 0, u16::MAX, CfaType::RGGB, FrameType::Lights, data);
    let mut img = Image::new_empty();
    raw.demosaic_into(&mut img);
    assert!(img.is_color());
    // inner pixel (1, 1) is blue: red from the diagonals, green from the cross
    assert_eq!(img.r.get(1, 1), Some(100));
    assert_eq!(img.g.get(1, 1), Some(10));
    assert_eq!(img.b.get(1, 1), Some(1));
    // inner pixel (2, 2) is red
    assert_eq!(img.r.get(2, 2), Some(100));
    assert_eq!(img.g.get(2, 2), Some(10));
    assert_eq!(img.b.get(2, 2), Some(1));
    // inner pixel (2, 1) is green in a blue row: red from above and below
    assert_eq!(img.r.get(2, 1), Some(100));
    assert_eq!(img.b.get(2, 1), Some(1));
    // corner (0, 0): means of each color in the 2x2 window
    assert_eq!(img.r.get(0, 0), Some(100));
    assert_eq!(img.g.get(0, 0), Some(10));
    assert_eq!(img.b.get(0, 0), Some(1));
}

#[test]
fn demosaic_rounds_means() {
    // RGGB 3x3 with distinct greens around the red corner
    let data = vec![50, 3, 50, 4, 7, 4, 50, 3, 50];
    let raw = RawImage::new(3, 3, 0, u16::MAX, CfaType::RGGB, FrameType::Lights, data);
    let mut img = Image::new_empty();
    raw.demosaic_into(&mut img);
    // center (1, 1) is blue: green is (3 + 4 + 4 + 3 + 2) / 4 = 4
    assert_eq!(img.g.get(1, 1), Some(4));
    // corner (0, 0): greens at (1, 0) and (0, 1): (3 + 4 + 1) / 2 = 4
    assert_eq!(img.g.get(0, 0), Some(4));
}

#[test]
fn raw_rows_and_filter() {
    let mut raw = RawImage::new(3, 2, 0, 255, CfaType::GRBG, FrameType::Lights, vec![1, 2, 3, 4, 5, 6]);
    assert_eq!(raw.row(1), &[4, 5, 6]);
    assert_eq!(raw.as_slice().len(), 6);
    raw.set_offset(7);
    let row0 = raw.cfa_row(0);
    let row1 = raw.cfa_row(1);
    assert!(row0 != row1);
    assert_eq!(raw.cfa_row(2), row0);
}

use astra_lite::image::raw::CalibrError;

#[test]
fn subtract_dark_keeps_mean() {
    let mut raw = RawImage::new(2, 2, 100, u16::MAX, CfaType::Mono, FrameType::Lights, vec![110, 120, 130, 140]);
    let dark = RawImage::new(2, 2, 0, u16::MAX, CfaType::Mono, FrameType::Darks, vec![10, 20, 10, 20]);
    assert_eq!(raw.subtract_dark_or_bias(&dark), Ok(()));
    // means 125 and 15: each level less the dark's, plus 110
    assert_eq!(raw.as_slice(), &[210, 210, 230, 230]);
    assert_eq!(raw.offset(), 210);
}

#[test]
fn subtract_dark_clamps_and_checks() {
    let mut raw = RawImage::new(2, 1, 0, u16::MAX, CfaType::Mono, FrameType::Lights, vec![0, 65535]);
    let dark = RawImage::new(2, 1, 0, u16::MAX, CfaType::Mono, FrameType::Biases, vec![65535, 0]);
    assert_eq!(raw.subtract_dark_or_bias(&dark), Ok(()));
    assert_eq!(raw.as_slice(), &[0, 65535]);
    let flat = RawImage::new(2, 1, 0, u16::MAX, CfaType::Mono, FrameType::Flats, vec![1, 1]);
    assert_eq!(raw.subtract_dark_or_bias(&flat), Err(CalibrError::WrongFrameType(FrameType::Flats)));
    let small = RawImage::new(1, 1, 0, u16::MAX, CfaType::Mono, FrameType::Darks, vec![1]);
    assert_eq!(raw.subtract_dark_or_bias(&small), Err(CalibrError::DifferentSizes(2, 1, 1, 1)));
    let color = RawImage::new(2, 1, 0, u16::MAX, CfaType::RGGB, FrameType::Darks, vec![1, 1]);
    assert_eq!(
        raw.subtract_dark_or_bias(&color),
        Err(CalibrError::DifferentCfa(CfaType::Mono, CfaType::RGGB))
    );
    assert_eq!(raw.as_slice(), &[0, 65535]);
}

#[test]
fn apply_flat_scales_levels() {
    let mut raw = RawImage::new(3, 1, 10, u16::MAX, CfaType::Mono, FrameType::Lights, vec![110, 110, 5]);
    let flat = RawImage::new(3, 1, 0, u16::MAX, CfaType::Mono, FrameType::Flats, vec![65535, 32768, 65535]);
    assert_eq!(raw.apply_flat(&flat), Ok(()));
    // (110 - 10) * 65535 / 65535 + 10; (110 - 10) * 65535 / 32768 + 10; (5 - 10) rounds toward zero
    assert_eq!(raw.as_slice(), &[110, 209, 5]);
    let dark = RawImage::new(3, 1, 0, u16::MAX, CfaType::Mono, FrameType::Darks, vec![1, 1, 1]);
    assert_eq!(raw.apply_flat(&dark), Err(CalibrError::WrongFrameType(FrameType::Darks)));
}

#[test]
fn bad_pixels_take_mean_of_neighbors() {
    let mut raw = RawImage::new(3, 3, 0, u16::MAX, CfaType::Mono, FrameType::Lights, vec![
        10, 10, 10,
        10, 999, 20,
        20, 20, 20,
    ]);
    raw.remove_bad_pixels(&[BadPixel { x: 1, y: 1 }, BadPixel { x: 7, y: -3 }]);
    // (10 * 4 + 20 * 4) / 8
    assert_eq!(raw.as_slice()[4], 15);
    assert_eq!(raw.as_slice()[0], 10);
}

#[test]
fn bad_pixels_next_to_each_other() {
    // two bad pixels side by side: neither is used to repair the other
    let mut raw = RawImage::new(3, 1, 0, u16::MAX, CfaType::Mono, FrameType::Lights, vec![30, 999, 999]);
    raw.remove_bad_pixels(&[BadPixel { x: 1, y: 0 }, BadPixel { x: 2, y: 0 }]);
    // round one: (1, 0) takes 30; (2, 0) has no good neighbor; round two: (2, 0) takes 30
    assert_eq!(raw.as_slice(), &[30, 30, 30]);
}

#[test]
fn bad_pixels_under_bayer_use_same_color() {
    // RGGB 5x1 row: R G R G R; the red in the middle looks two pixels away
    let mut raw = RawImage::new(5, 1, 0, u16::MAX, CfaType::RGGB, FrameType::Lights, vec![100, 7, 999, 7, 300]);
    raw.remove_bad_pixels(&[BadPixel { x: 2, y: 0 }]);
    assert_eq!(raw.as_slice(), &[100, 7, 200, 7, 300]);
}

#[test]
fn dark_differences_and_hot_pixels() {
    // 7x7 frame of 100 with one hot pixel at (3, 2)
    let mut data = vec![100u16; 49];
    data[2 * 7 + 3] = 1000;
    let raw = RawImage::new(7, 7, 0, u16::MAX, CfaType::Mono, FrameType::Darks, data);
    // rows 0, 3, 6 hold no hot pixel: no positive difference
    assert!(raw.dark_diffs(false, 3).is_empty());
    // columns 0, 3, 6: column 3 has the hot pixel: 7 * 1000 - (1000 + 6 * 100)
    assert_eq!(raw.dark_diffs(true, 3), vec![5400]);
    let hot = raw.dark_hot_pixels(false, 1000);
    assert_eq!(hot, vec![BadPixel { x: 3, y: 2 }]);
    let hot = raw.dark_hot_pixels(true, 1000);
    assert_eq!(hot, vec![BadPixel { x: 3, y: 2 }]);
    assert_eq!(raw.width(), 7);
    assert_eq!(raw.height(), 7);
}

fn striped_frame(w: usize, h: usize) -> Vec<u16> {
    let mut data = Vec::new();
    for _y in 0..h {
        for x in 0..w {
            data.push(if x % 2 == 1 { 101 } else { 100 });
        }
    }
    data
}

#[test]
fn light_frame_hot_pixel_found() {
    let mut data = striped_frame(64, 16);
    data[4 * 64 + 8] = 5000;
    let raw = RawImage::new(64, 16, 0, u16::MAX, CfaType::Mono, FrameType::Lights, data);
    let hot = raw.find_hot_pixels_in_light();
    assert_eq!(hot, vec![BadPixel { x: 8, y: 4 }]);
}

#[test]
fn light_frame_without_peaks_has_no_hot_pixels() {
    let raw = RawImage::new(8, 8, 0, u16::MAX, CfaType::Mono, FrameType::Lights, vec![100; 64]);
    assert!(raw.find_hot_pixels_in_light().is_empty());
}

#[test]
fn light_frame_single_peak_is_its_own_border() {
    // one peak only: the border is half as large again as the peak itself
    let mut data = vec![100u16; 64];
    data[3] = 400;
    let raw = RawImage::new(8, 8, 0, u16::MAX, CfaType::Mono, FrameType::Lights, data);
    assert!(raw.find_hot_pixels_in_light().is_empty());
}

#[test]
fn color_light_frame_hot_pixel_found() {
    // RGGB: red sits on even rows and columns; sample every second column
    let mut data = Vec::new();
    for _y in 0..32 {
        for x in 0..128usize {
            data.push(if x % 4 == 2 { 101 } else { 100 });
        }
    }
    data[8 * 128 + 16] = 6000;
    let raw = RawImage::new(128, 32, 0, u16::MAX, CfaType::RGGB, FrameType::Lights, data);
    let hot = raw.find_hot_pixels_in_light();
    assert_eq!(hot, vec![BadPixel { x: 16, y: 8 }]);
}

#[test]
fn normalize_flat_scales_to_percentile() {
    let mut raw = RawImage::new(4, 1, 0, u16::MAX, CfaType::Mono, FrameType::Flats, vec![100, 200, 300, 400]);
    raw.normalize_flat();
    assert_eq!(raw.as_slice(), &[16383, 32767, 49151, 65535]);
    assert_eq!(raw.offset(), 0);
}

#[test]
fn normalize_flat_above_black_level() {
    let mut raw = RawImage::new(4, 1, 100, u16::MAX, CfaType::Mono, FrameType::Flats, vec![100, 200, 300, 400]);
    raw.normalize_flat();
    assert_eq!(raw.as_slice(), &[0, 21845, 43690, 65535]);
    assert_eq!(raw.offset(), 0);
    let mut raw = RawImage::new(2, 1, 100, u16::MAX, CfaType::Mono, FrameType::Flats, vec![50, 400]);
    raw.normalize_flat();
    assert_eq!(raw.as_slice(), &[0, 65535]);
}

#[test]
fn normalize_flat_per_color() {
    let mut raw = RawImage::new(2, 2, 0, u16::MAX, CfaType::RGGB, FrameType::Flats, vec![10, 20, 30, 40]);
    raw.normalize_flat();
    assert_eq!(raw.as_slice(), &[65535, 43690, 65535, 65535]);
}

#[test]
fn filter_flat_takes_window_means() {
    let mut raw = RawImage::new(3, 3, 0, u16::MAX, CfaType::Mono, FrameType::Flats, (1..=9).collect());
    raw.filter_flat();
    assert_eq!(raw.as_slice(), &[5; 9]);
    let mut raw = RawImage::new(5, 1, 0, u16::MAX, CfaType::Mono, FrameType::Flats, vec![0, 10, 20, 30, 40]);
    raw.filter_flat();
    assert_eq!(raw.as_slice(), &[10, 15, 20, 25, 30]);
}

#[test]
fn filter_flat_keeps_colors_apart() {
    // RGGB 4x4: red 100, greens 50, blue 10 everywhere
    let mut data = Vec::new();
    for y in 0..4 {
        for x in 0..4 {
            data.push(match (y % 2, x % 2) {
                (0, 0) => 100,
                (1, 1) => 10,
                _ => 50,
            });
        }
    }
    let mut raw = RawImage::new(4, 4, 0, u16::MAX, CfaType::RGGB, FrameType::Flats, data.clone());
    raw.filter_flat();
    assert_eq!(raw.as_slice(), &data[..]);
}

#[test]
fn bad_pixels_text_round_trip() {
    let mut pixels = BadPixels::new();
    pixels.items.push(BadPixel { x: 3, y: 17 });
    pixels.items.push(BadPixel { x: -1, y: 0 });
    let text = pixels.to_text();
    assert_eq!(text, "3 17\n-1 0\n");
    let mut loaded = BadPixels::new();
    loaded.load_from_text(&text);
    assert_eq!(loaded.items, pixels.items);
}

#[test]
fn bad_pixels_skip_lines_naming_no_pixel() {
    let mut loaded = BadPixels::new();
    loaded.items.push(BadPixel { x: 9, y: 9 });
    loaded.load_from_text("1 2\r\nbad\n3 x\n4  5\n+6 7\n\n8 9");
    assert_eq!(loaded.items, vec![BadPixel { x: 1, y: 2 }, BadPixel { x: 6, y: 7 }, BadPixel { x: 8, y: 9 }]);
}

#[test]
fn master_dark_hot_pixels_are_merged_once() {
    let mut data = vec![10u16; 49];
    data[3 * 7 + 3] = 1000;
    let raw = RawImage::new(7, 7, 0, u16::MAX, CfaType::Mono, FrameType::Darks, data);
    let hot = raw.master_dark_hot_pixels(0, 0);
    assert_eq!(hot, vec![BadPixel { x: 3, y: 3 }]);
}
