use astra_lite::image::raw::{CfaType, FrameType, RawImage};
use astra_lite::image::raw_stacker::{median3, median5, RawAdder, RawStacker, StackError};

fn frame(w: usize, h: usize, offset: i32, data: Vec<u16>) -> RawImage {
    RawImage::new(w, h, offset, 4095, CfaType::RGGB, FrameType::Darks, data)
}

#[test]
fn adder_gives_rounded_means() {
    let mut adder = RawAdder::new();
    assert_eq!((adder.width(), adder.height()), (0, 0));
    adder.add(&frame(2, 1, 100, vec![10, 20])).unwrap();
    adder.add(&frame(2, 1, 101, vec![11, 25])).unwrap();
    assert_eq!((adder.width(), adder.height()), (2, 1));
    let mean = adder.get().unwrap();
    assert_eq!(mean.as_slice(), &[11, 23]);
    assert_eq!(mean.offset(), 101);
    assert_eq!(mean.max_value(), 4095);
    assert_eq!(mean.cfa(), CfaType::RGGB);
    assert_eq!(mean.frame_type(), FrameType::Darks);
}

#[test]
fn adder_of_copies_gives_the_frame_back() {
    let mut adder = RawAdder::new();
    for _ in 0..3 {
        adder.add(&frame(3, 1, 7, vec![0, 1, 4095])).unwrap();
    }
    let mean = adder.get().unwrap();
    assert_eq!(mean.as_slice(), &[0, 1, 4095]);
    assert_eq!(mean.offset(), 7);
}

#[test]
fn adder_refuses_other_frames() {
    let mut adder = RawAdder::new();
    adder.add(&frame(2, 1, 0, vec![1, 2])).unwrap();
    assert_eq!(adder.add(&frame(1, 2, 0, vec![1, 2])), Err(StackError::DifferentSizes(2, 1, 1, 2)));
    let other_cfa = RawImage::new(2, 1, 0, 4095, CfaType::BGGR, FrameType::Darks, vec![1, 2]);
    assert_eq!(adder.add(&other_cfa), Err(StackError::DifferentCfa));
    let other_kind = RawImage::new(2, 1, 0, 4095, CfaType::RGGB, FrameType::Flats, vec![1, 2]);
    assert_eq!(adder.add(&other_kind), Err(StackError::DifferentFrameType));
    // the refused frames left the sums alone
    assert_eq!(adder.get().unwrap().as_slice(), &[1, 2]);
}

#[test]
fn empty_adder_has_no_mean() {
    let mut adder = RawAdder::new();
    assert!(matches!(adder.get(), Err(StackError::Empty)));
    adder.add(&frame(1, 1, 0, vec![5])).unwrap();
    adder.clear();
    assert!(matches!(adder.get(), Err(StackError::Empty)));
}

#[test]
fn median_of_five_levels() {
    assert_eq!(median5(5, 1, 4, 2, 3), 3);
    assert_eq!(median5(2, 2, 9, 9, 1), 2);
    assert_eq!(median5(7, 7, 7, 7, 7), 7);
    assert_eq!(median5(0, 65535, 65535, 0, 100), 100);
}

#[test]
fn stacker_sums_medians_of_five() {
    let mut stacker = RawStacker::new();
    for (v, off) in [(1u16, 10), (100, 11), (3, 12), (2, 13), (50, 14)] {
        stacker.add(&frame(1, 1, off, vec![v]), true).unwrap();
    }
    let mean = stacker.get().unwrap();
    assert_eq!(mean.as_slice(), &[3]);
    assert_eq!(mean.offset(), 14);
}

#[test]
fn stacker_without_median_gives_means() {
    let mut stacker = RawStacker::new();
    stacker.add(&frame(2, 1, 100, vec![10, 20]), false).unwrap();
    stacker.add(&frame(2, 1, 101, vec![11, 25]), false).unwrap();
    let mean = stacker.get().unwrap();
    assert_eq!(mean.as_slice(), &[11, 23]);
    assert_eq!(mean.offset(), 101);
    assert_eq!(stacker.add(&frame(1, 1, 0, vec![1]), false), Err(StackError::DifferentSizes(2, 1, 1, 1)));
    stacker.clear();
    assert!(matches!(stacker.get(), Err(StackError::Empty)));
}

#[test]
fn median_of_three_levels() {
    assert_eq!(median3(1, 2, 3), 2);
    assert_eq!(median3(3, 1, 2), 2);
    assert_eq!(median3(5, 1, 1), 1);
    assert_eq!(median3(1, 1, 5), 1);
    assert_eq!(median3(9, 9, 9), 9);
}
