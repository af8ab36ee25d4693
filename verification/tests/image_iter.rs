use astra_lite::image::image::Image;

fn make_color_image(width: usize, height: usize) -> Image {
    let mut img = Image::new_empty();
    img.make_color(width, height, 0, u16::MAX);
    for y in 0..height {
        for x in 0..width {
            img.r.set(x as isize, y as isize, (x * 7 + y * 13) as u16 % 4096);
            img.g.set(x as isize, y as isize, (x * 11 + y * 5) as u16 % 4096);
            img.b.set(x as isize, y as isize, (x * 3 + y * 17) as u16 % 4096);
        }
    }
    img
}

fn make_image(width: usize, height: usize, fill: impl Fn(usize, usize) -> u16) -> Image {
    let mut img = Image::new_empty();
    img.make_monochrome(width, height, 0, u16::MAX);
    for y in 0..height {
        for x in 0..width {
            img.l.set(x as isize, y as isize, fill(x, y));
        }
    }
    img
}

#[test]
fn test_iter_div2_l() {
    let img = make_image(4, 4, |_, _| 8);
    let mut it = img.iter_div2_l();
    while let Some(v) = it.next() {
        assert_eq!(v, 8);
    }
    assert_eq!(img.iter_div2_l().count(), 4);
}

#[test]
fn test_iter_div2_l_average() {
    let img = make_image(2, 2, |x, y| (x + y) as u16);
    // values: 0 1 / 1 2 => one pixel (0+1+1+2)/4 = 1
    let values: Vec<u16> = img.iter_div2_l().collect();
    assert_eq!(values, vec![1]);
}

#[test]
fn test_iter_div2_l_odd_size() {
    // 5x3: reduced image is 2x1
    let img = make_image(5, 3, |_, _| 10);
    let values: Vec<u16> = img.iter_div2_l().collect();
    assert_eq!(values, vec![10, 10]);
}

#[test]
fn test_iter_div_l_empty() {
    let img = Image::new_empty();
    assert_eq!(img.iter_div2_l().count(), 0);
    assert_eq!(img.iter_div3_l().count(), 0);
    assert_eq!(img.iter_div4_l().count(), 0);
}

#[test]
fn test_iter_div_l_matches_reference() {
    for n in [2, 3, 4] {
        for (w, h) in [(4, 4), (5, 3), (7, 9), (1, 8), (8, 1), (12, 8), (13, 10)] {
            let img = make_image(w, h, |x, y| (x * 7 + y * 13) as u16 % 4096);
            let mut expected = Vec::with_capacity((w / n) * (h / n));
            for y in 0..h / n {
                for x in 0..w / n {
                    let mut v = 0u32;
                    for dy in 0..n {
                        for dx in 0..n {
                            v += img.l.get((x * n + dx) as isize, (y * n + dy) as isize).unwrap() as u32;
                        }
                    }
                    expected.push(((v + (n * n) as u32 / 2) / (n * n) as u32) as u16);
                }
            }
            let actual: Vec<u16> = match n {
                2 => img.iter_div2_l().collect(),
                3 => img.iter_div3_l().collect(),
                _ => img.iter_div4_l().collect(),
            };
            assert_eq!(actual, expected);
        }
    }
}

#[test]
fn test_iter_div_rgb_matches_reference() {
    for n in [2, 3, 4] {
        for (w, h) in [(4, 4), (5, 3), (7, 9), (1, 8), (8, 1), (12, 8), (13, 10)] {
            let img = make_color_image(w, h);
            let mut expected = Vec::with_capacity((w / n) * (h / n));
            for y in 0..h / n {
                for x in 0..w / n {
                    let mut r = 0u32;
                    let mut g = 0u32;
                    let mut b = 0u32;
                    for dy in 0..n {
                        for dx in 0..n {
                            r += img.r.get((x * n + dx) as isize, (y * n + dy) as isize).unwrap() as u32;
                            g += img.g.get((x * n + dx) as isize, (y * n + dy) as isize).unwrap() as u32;
                            b += img.b.get((x * n + dx) as isize, (y * n + dy) as isize).unwrap() as u32;
                        }
                    }
                    let k = (n * n) as u32;
                    expected.push((
                        ((r + k / 2) / k) as u16,
                        ((g + k / 2) / k) as u16,
                        ((b + k / 2) / k) as u16,
                    ));
                }
            }
            let actual: Vec<(u16, u16, u16)> = match n {
                2 => img.iter_div2_rgb().collect(),
                3 => img.iter_div3_rgb().collect(),
                _ => img.iter_div4_rgb().collect(),
            };
            assert_eq!(actual, expected);
        }
    }
}

#[test]
fn test_iter_div_rgb_empty() {
    let img = Image::new_empty();
    assert_eq!(img.iter_div2_rgb().count(), 0);
    assert_eq!(img.iter_div3_rgb().count(), 0);
    assert_eq!(img.iter_div4_rgb().count(), 0);
}

#[test]
fn test_iter_div2_rgb_size_hint() {
    let img = make_color_image(10, 6);
    let mut it = img.iter_div2_rgb();
    assert_eq!(it.size_hint(), (15, Some(15)));
    it.next();
    it.next();
    assert_eq!(it.size_hint(), (13, Some(13)));
}

#[test]
fn test_iter_div_l_size_hint() {
    let img = make_image(10, 6, |_, _| 0);
    let mut it = img.iter_div2_l();
    assert_eq!(it.size_hint(), (15, Some(15)));
    it.next();
    it.next();
    assert_eq!(it.size_hint(), (13, Some(13)));
    let mut it = img.iter_div3_l();
    assert_eq!(it.size_hint(), (6, Some(6)));
    it.next();
    assert_eq!(it.size_hint(), (5, Some(5)));
    let it = img.iter_div4_l();
    assert_eq!(it.size_hint(), (2, Some(2)));
}

#[test]
fn get_crd_i64_interpolates_between_pixels() {
    let mut img = Image::new_empty();
    img.make_monochrome(2, 2, 0, u16::MAX);
    img.l.set(0, 0, 0);
    img.l.set(1, 0, 256);
    img.l.set(0, 1, 512);
    img.l.set(1, 1, 768);
    // exactly on a pixel
    assert_eq!(img.l.get_crd_i64(0, 0), Some(0));
    // half way to the right: 0 * 128 + 256 * 128, / 256
    assert_eq!(img.l.get_crd_i64(128, 0), Some(128));
    // center of the four pixels
    assert_eq!(img.l.get_crd_i64(128, 128), Some(384));
    // last row: the missing row below gives all weight to the row itself
    assert_eq!(img.l.get_crd_i64(0, 256), Some(512));
    // far outside
    assert_eq!(img.l.get_crd_i64(10 * 256, 10 * 256), None);
    // -1 / 256 rounds toward zero, with weight 255 on the next column
    assert_eq!(img.l.get_crd_i64(-1, 0), Some(255));
}

#[test]
fn calc_background_is_rounded_down_mean() {
    let mut img = Image::new_empty();
    img.make_monochrome(3, 1, 0, u16::MAX);
    img.l.set(0, 0, 1);
    img.l.set(1, 0, 2);
    img.l.set(2, 0, 2);
    assert_eq!(img.l.calc_background(false), 1);
    assert_eq!(img.l.calc_background(true), 1);
}

#[test]
fn image_kinds() {
    let mut img = Image::new_empty();
    assert!(img.is_empty());
    img.make_color(3, 2, 5, 4095);
    assert!(img.is_color() && !img.is_monochrome() && !img.is_empty());
    assert_eq!((img.width(), img.height(), img.max_value()), (3, 2, 4095));
    img.make_monochrome(4, 5, 0, 255);
    assert!(img.is_monochrome() && !img.is_color());
    assert_eq!((img.width(), img.height()), (4, 5));
    img.set_max_value(1000);
    assert_eq!(img.max_value(), 1000);
    img.clear();
    assert!(img.is_empty());
    assert_eq!(img.max_value(), 0);
}

#[test]
fn calc_background_parallel_equals_sequential() {
    let mut img = Image::new_empty();
    img.make_monochrome(1000, 300, 0, u16::MAX);
    for y in 0..300 {
        for x in 0..1000 {
            img.l.set(x as isize, y as isize, ((x * 31 + y * 17) % 65536) as u16);
        }
    }
    let seq = img.l.calc_background(false);
    let par = img.l.calc_background(true);
    assert_eq!(seq, par);
    let sum: u64 = img.l.as_slice().iter().map(|v| *v as u64).sum();
    assert_eq!(seq as u64, sum / 300_000);
}
