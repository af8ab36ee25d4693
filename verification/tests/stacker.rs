use astra_lite::image::image::{Image, ImageLayer};
use astra_lite::image::stacker::{Stacker, Transform};

const NO_MOVE: Transform = Transform { cos_a: 65536, sin_a: 0, transl_x: 0, transl_y: 0 };

fn mono(w: usize, h: usize, data: Vec<u16>) -> Image {
    let mut image = Image::new_empty();
    image.l = ImageLayer::new_mono(data, w, h);
    image.max_value = 4095;
    image
}

fn color(w: usize, h: usize, r: Vec<u16>, g: Vec<u16>, b: Vec<u16>) -> Image {
    let mut image = Image::new_empty();
    image.r = ImageLayer::new_mono(r, w, h);
    image.g = ImageLayer::new_mono(g, w, h);
    image.b = ImageLayer::new_mono(b, w, h);
    image.max_value = 65535;
    image
}

#[test]
fn stacker_starts_empty_and_clears() {
    let mut stacker = Stacker::new();
    assert!(stacker.is_empty());
    stacker.add(&mono(2, 1, vec![1, 2]), &NO_MOVE);
    assert!(!stacker.is_empty());
    stacker.clear();
    assert!(stacker.is_empty());
}

#[test]
fn stacker_one_frame_gives_it_back() {
    let mut stacker = Stacker::new();
    stacker.add(&mono(3, 2, vec![1, 2, 3, 4, 5, 6]), &NO_MOVE);
    let mut out = Image::new_empty();
    stacker.copy_to_image(&mut out);
    assert_eq!(out.l.as_slice(), &[1, 2, 3, 4, 5, 6]);
    assert_eq!((out.l.width(), out.l.height()), (3, 2));
    assert_eq!(out.max_value(), 4095);
    assert!(out.r.is_empty());
}

#[test]
fn stacker_averages_frames_toward_zero() {
    let mut stacker = Stacker::new();
    stacker.add(&mono(3, 1, vec![10, 20, 30]), &NO_MOVE);
    stacker.add(&mono(3, 1, vec![30, 41, 50]), &NO_MOVE);
    let mut out = Image::new_empty();
    stacker.copy_to_image(&mut out);
    assert_eq!(out.l.as_slice(), &[20, 30, 40]);
}

#[test]
fn stacker_shift_by_one_pixel_repeats_the_edge() {
    let mut stacker = Stacker::new();
    let shift = Transform { cos_a: 65536, sin_a: 0, transl_x: 256, transl_y: 0 };
    stacker.add(&mono(3, 1, vec![10, 20, 30]), &shift);
    let mut out = Image::new_empty();
    stacker.copy_to_image(&mut out);
    assert_eq!(out.l.as_slice(), &[10, 10, 20]);
}

#[test]
fn stacker_pixel_no_frame_reaches_is_zero() {
    let mut stacker = Stacker::new();
    let shift = Transform { cos_a: 65536, sin_a: 0, transl_x: 512, transl_y: 0 };
    stacker.add(&mono(3, 1, vec![10, 20, 30]), &shift);
    stacker.add(&mono(3, 1, vec![20, 40, 60]), &shift);
    let mut out = Image::new_empty();
    stacker.copy_to_image(&mut out);
    assert_eq!(out.l.as_slice(), &[0, 15, 15]);
}

#[test]
fn stacker_half_pixel_shift_blends_neighbours() {
    let mut stacker = Stacker::new();
    let shift = Transform { cos_a: 65536, sin_a: 0, transl_x: -128, transl_y: 0 };
    stacker.add(&mono(3, 1, vec![10, 20, 30]), &shift);
    let mut out = Image::new_empty();
    stacker.copy_to_image(&mut out);
    assert_eq!(out.l.as_slice(), &[15, 25, 30]);
}

#[test]
fn stacker_half_turn_mirrors_the_frame() {
    let mut stacker = Stacker::new();
    let turn = Transform { cos_a: -65536, sin_a: 0, transl_x: 0, transl_y: 0 };
    stacker.add(&mono(3, 1, vec![10, 20, 30]), &turn);
    let mut out = Image::new_empty();
    stacker.copy_to_image(&mut out);
    assert_eq!(out.l.as_slice(), &[30, 20, 10]);
}

#[test]
fn stacker_color_frames() {
    let mut stacker = Stacker::new();
    stacker.add(&color(2, 1, vec![1, 2], vec![3, 4], vec![5, 6]), &NO_MOVE);
    stacker.add(&color(2, 1, vec![3, 4], vec![5, 6], vec![7, 8]), &NO_MOVE);
    let mut out = Image::new_empty();
    stacker.copy_to_image(&mut out);
    assert_eq!(out.r.as_slice(), &[2, 3]);
    assert_eq!(out.g.as_slice(), &[4, 5]);
    assert_eq!(out.b.as_slice(), &[6, 7]);
    assert!(out.l.is_empty());
    assert_eq!(out.max_value(), 65535);
}

#[test]
fn stacker_mono_frame_after_color_adds_nothing() {
    let mut stacker = Stacker::new();
    stacker.add(&color(2, 1, vec![1, 2], vec![3, 4], vec![5, 6]), &NO_MOVE);
    stacker.add(&mono(2, 1, vec![100, 100]), &NO_MOVE);
    let mut out = Image::new_empty();
    stacker.copy_to_image(&mut out);
    assert_eq!(out.r.as_slice(), &[1, 2]);
    assert!(out.l.is_empty());
}
