use astra_lite::image::image::Image;
use astra_lite::image::preview::{calc_reduct_ratio, scaled_img_size, to_grb_bytes, SharedBytes};
use astra_lite::options::{PreviewColorMode, PreviewScale};

fn identity_table() -> Vec<u8> {
    (0..=u16::MAX).map(|v| (v >> 8) as u8).collect()
}

fn mono(width: usize, height: usize, fill: impl Fn(usize, usize) -> u16) -> Image {
    let mut img = Image::new_empty();
    img.make_monochrome(width, height, 0, u16::MAX);
    for y in 0..height {
        for x in 0..width {
            img.l.set(x as isize, y as isize, fill(x, y));
        }
    }
    img
}

#[test]
fn reduct_ratio_for_fitted_preview() {
    assert_eq!(calc_reduct_ratio(PreviewScale::FitWindow, 100, 100, 1000, 1000), 4);
    assert_eq!(calc_reduct_ratio(PreviewScale::FitWindow, 300, 300, 1000, 1000), 3);
    assert_eq!(calc_reduct_ratio(PreviewScale::FitWindow, 400, 400, 1000, 1000), 2);
    assert_eq!(calc_reduct_ratio(PreviewScale::FitWindow, 600, 100, 1000, 1000), 1);
    assert_eq!(calc_reduct_ratio(PreviewScale::P33, 0, 0, 10, 10), 3);
    assert_eq!(calc_reduct_ratio(PreviewScale::CenterAndCorners, 0, 0, 10, 10), 1);
}

#[test]
fn preview_sizes() {
    assert_eq!(scaled_img_size(PreviewScale::P75, 1000, 801, 0, 0), Some((750, 600)));
    assert_eq!(scaled_img_size(PreviewScale::Original, 10, 20, 0, 0), Some((10, 20)));
    assert_eq!(scaled_img_size(PreviewScale::CenterAndCorners, 10, 20, 300, 200), Some((200, 200)));
    assert_eq!(scaled_img_size(PreviewScale::CenterAndCorners, 10, 20, 30, 20), Some((42, 42)));
    assert_eq!(scaled_img_size(PreviewScale::FitWindow, 10, 20, 30, 20), None);
}

#[test]
fn shared_bytes_keep_data() {
    let b = SharedBytes::new(vec![1, 2, 3]);
    let c = b.clone();
    assert_eq!(c.as_slice(), &[1, 2, 3]);
}

#[test]
fn mono_preview_reduced_twice() {
    let img = mono(4, 2, |x, _| (x as u16) * 256);
    let table = identity_table();
    let (bytes, w, h) = to_grb_bytes(
        &img, PreviewColorMode::Rgb, PreviewScale::P50, 2, &[], &[], &[], &table, 0, 0,
    );
    assert_eq!((w, h), (2, 1));
    // blocks (0,256 / 0,256) and (512,768 / 512,768): means 128 and 640
    assert_eq!(bytes, vec![0, 0, 0, 2, 2, 2]);
}

#[test]
fn mono_preview_not_reduced() {
    let img = mono(2, 1, |x, _| if x == 0 { 0x0100 } else { 0xFF00 });
    let table = identity_table();
    let (bytes, w, h) = to_grb_bytes(
        &img, PreviewColorMode::Rgb, PreviewScale::Original, 1, &[], &[], &[], &table, 0, 0,
    );
    assert_eq!((w, h), (2, 1));
    assert_eq!(bytes, vec![1, 1, 1, 255, 255, 255]);
}

#[test]
fn color_preview_and_single_channel() {
    let mut img = Image::new_empty();
    img.make_color(1, 1, 0, u16::MAX);
    img.r.set(0, 0, 0x1000);
    img.g.set(0, 0, 0x2000);
    img.b.set(0, 0, 0x3000);
    let table = identity_table();
    let (bytes, w, h) = to_grb_bytes(
        &img, PreviewColorMode::Rgb, PreviewScale::Original, 1, &table, &table, &table, &[], 0, 0,
    );
    assert_eq!((w, h), (1, 1));
    assert_eq!(bytes, vec![0x10, 0x20, 0x30]);
    let (bytes, _, _) = to_grb_bytes(
        &img, PreviewColorMode::Green, PreviewScale::Original, 1, &table, &table, &table, &[], 0, 0,
    );
    assert_eq!(bytes, vec![0x20, 0x20, 0x20]);
}

#[test]
fn center_and_corners_preview() {
    // 18x18 preview: rectangles of (18 - 12) / 3 = 2 pixels at 0, 8 and 16
    let img = mono(30, 30, |x, y| ((y * 30 + x) * 64) as u16);
    let table = identity_table();
    let (bytes, w, h) = to_grb_bytes(
        &img, PreviewColorMode::Rgb, PreviewScale::CenterAndCorners, 1, &[], &[], &[], &table, 18, 18,
    );
    assert_eq!((w, h), (18, 18));
    assert_eq!(bytes.len(), 3 * 18 * 18);
    let px = |x: usize, y: usize| bytes[3 * (y * 18 + x)];
    let src = |x: usize, y: usize| (((y * 30 + x) * 64) >> 8) as u8;
    assert_eq!(px(0, 0), src(0, 0));
    assert_eq!(px(1, 1), src(1, 1));
    // the center rectangle: source at (30 - 2) / 2 = 14
    assert_eq!(px(8, 8), src(14, 14));
    assert_eq!(px(9, 8), src(15, 14));
    // the bottom right corner
    assert_eq!(px(17, 17), src(29, 29));
    // the spacing stays black
    assert_eq!(px(4, 4), 0);
    assert_eq!(px(2, 0), 0);
}
