use astra_lite::image::raw::{BadPixel, CalibrError, CfaType, FrameType, RawImage};
use astra_lite::image::raw_stacker::{RawAdder, StackError};
use astra_lite::image_processing::{
    add_calibr_image, apply_calibr_data_and_remove_hot_pixels, is_calibration_frame, is_monochrome_frame, raw_file_mask,
    raw_frame_dir,
};

fn mono(w: usize, h: usize, offset: i32, kind: FrameType, data: Vec<u16>) -> RawImage {
    RawImage::new(w, h, offset, u16::MAX, CfaType::Mono, kind, data)
}

#[test]
fn calibration_subtracts_dark_and_repairs_its_hot_pixels() {
    let mut raw = mono(2, 2, 0, FrameType::Lights, vec![100, 110, 120, 1000]);
    let dark = mono(2, 2, 0, FrameType::Darks, vec![10, 10, 10, 10]);
    let hot = [BadPixel { x: 1, y: 1 }];
    let res = apply_calibr_data_and_remove_hot_pixels(&mut raw, Some(&dark), &hot, true, false, None);
    assert_eq!(res, Ok(()));
    // means 332 and 10; the hot pixel takes the mean of its three neighbors
    assert_eq!(raw.as_slice(), &[412, 422, 432, 422]);
    assert_eq!(raw.offset(), 322);
}

#[test]
fn calibration_with_a_wrong_dark_changes_nothing() {
    let mut raw = mono(2, 2, 5, FrameType::Lights, vec![100, 110, 120, 1000]);
    let not_dark = mono(2, 2, 0, FrameType::Flats, vec![10, 10, 10, 10]);
    let res = apply_calibr_data_and_remove_hot_pixels(&mut raw, Some(&not_dark), &[], false, false, None);
    assert_eq!(res, Err(CalibrError::WrongFrameType(FrameType::Flats)));
    assert_eq!(raw.as_slice(), &[100, 110, 120, 1000]);
    assert_eq!(raw.offset(), 5);
}

#[test]
fn calibration_repairs_again_when_the_flat_was_just_loaded() {
    let mut raw = mono(2, 2, 0, FrameType::Lights, vec![100, 200, 300, 400]);
    let flat = mono(2, 2, 0, FrameType::Flats, vec![65535; 4]);
    let hot = [BadPixel { x: 0, y: 0 }];
    let res = apply_calibr_data_and_remove_hot_pixels(&mut raw, None, &hot, false, true, Some(&flat));
    assert_eq!(res, Ok(()));
    assert_eq!(raw.as_slice(), &[300, 200, 300, 400]);
}

#[test]
fn calibration_with_a_flat_of_other_size_fails_after_the_dark() {
    let mut raw = mono(2, 2, 0, FrameType::Lights, vec![100, 110, 120, 1000]);
    let dark = mono(2, 2, 0, FrameType::Darks, vec![10, 10, 10, 10]);
    let flat = mono(1, 1, 0, FrameType::Flats, vec![65535]);
    let res = apply_calibr_data_and_remove_hot_pixels(&mut raw, Some(&dark), &[], false, false, Some(&flat));
    assert_eq!(res, Err(CalibrError::DifferentSizes(2, 2, 1, 1)));
    assert_eq!(raw.as_slice(), &[412, 422, 432, 1312]);
}

#[test]
fn calibration_without_dark_finds_hot_pixels_in_the_light() {
    let mut data = Vec::new();
    for _y in 0..16 {
        for x in 0..64 {
            data.push(if x % 2 == 1 { 101 } else { 100 });
        }
    }
    data[4 * 64 + 8] = 5000;
    let mut raw = mono(64, 16, 0, FrameType::Lights, data);
    let res = apply_calibr_data_and_remove_hot_pixels(&mut raw, None, &[], true, false, None);
    assert_eq!(res, Ok(()));
    assert_eq!(raw.as_slice()[4 * 64 + 8], 100);
}

#[test]
fn frame_kinds_decide_how_frames_are_handled() {
    assert!(is_monochrome_frame(FrameType::Darks));
    assert!(is_monochrome_frame(FrameType::Biases));
    assert!(!is_monochrome_frame(FrameType::Lights));
    assert!(!is_monochrome_frame(FrameType::Flats));
    assert!(is_calibration_frame(FrameType::Flats));
    assert!(is_calibration_frame(FrameType::Darks));
    assert!(is_calibration_frame(FrameType::Biases));
    assert!(!is_calibration_frame(FrameType::Lights));
    assert!(!is_calibration_frame(FrameType::Undef));
}

#[test]
fn raw_frames_are_saved_by_kind() {
    assert_eq!(raw_frame_dir(FrameType::Lights), "Light");
    assert_eq!(raw_frame_dir(FrameType::Flats), "Flat");
    assert_eq!(raw_frame_dir(FrameType::Darks), "Dark");
    assert_eq!(raw_frame_dir(FrameType::Biases), "Bias");
    assert_eq!(raw_file_mask("Light", " .fits "), "Light_${num}.fits");
    assert_eq!(raw_file_mask("Dark", "..xisf"), "Dark_${num}.xisf");
    assert_eq!(raw_file_mask("Bias", "fits"), "Bias_${num}.fits");
}

#[test]
fn calibration_frames_are_added_flats_normalized() {
    let mut adder = RawAdder::new();
    let mut flat = mono(4, 1, 0, FrameType::Flats, vec![100, 200, 300, 400]);
    assert_eq!(add_calibr_image(&mut flat, &mut adder, FrameType::Flats), Ok(()));
    assert_eq!(flat.as_slice(), &[16383, 32767, 49151, 65535]);
    let mean = adder.get().unwrap();
    assert_eq!(mean.as_slice(), &[16383, 32767, 49151, 65535]);

    let mut adder = RawAdder::new();
    let mut dark = mono(2, 1, 7, FrameType::Darks, vec![10, 20]);
    assert_eq!(add_calibr_image(&mut dark, &mut adder, FrameType::Darks), Ok(()));
    assert_eq!(dark.as_slice(), &[10, 20]);
    let mut other = mono(3, 1, 7, FrameType::Darks, vec![10, 20, 30]);
    assert_eq!(
        add_calibr_image(&mut other, &mut adder, FrameType::Darks),
        Err(StackError::DifferentSizes(2, 1, 3, 1))
    );
}
