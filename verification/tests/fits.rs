use astra_lite::image::image::Image;
use astra_lite::image::io::{
    find_color_image_hdu_in_fits, find_mono_image_hdu_in_fits, load_image_from_fits_reader,
    load_raw_image_from_fits_reader, ImageLoadError,
};
use astra_lite::image::raw::{CfaType, FrameType};
use astra_lite::image::simple_fits::{FitsError, FitsReader, FitsWriter, Header};

fn write_mono(width: usize, height: usize, data: &[u16]) -> Vec<u8> {
    let mut hdu = Header::new_2d(width, height);
    hdu.set_str("FRAME", "Light");
    hdu.set_i64("GAIN", 120);
    let mut out = Vec::new();
    FitsWriter::new().write_header_and_data_u16(&mut out, &hdu, data);
    out
}

#[test]
fn fits_header_values_read_back() {
    let mut hdu = Header::new();
    hdu.set_i64("GAIN", -15);
    hdu.set_str("INSTRUME", "ZWO ASI294MC");
    hdu.set_bool("ROWORDER", true);
    assert_eq!(hdu.get_i64("GAIN"), Some(-15));
    assert_eq!(hdu.get_str("INSTRUME"), Some("ZWO ASI294MC"));
    assert_eq!(hdu.get_i64("OFFSET"), None);
    hdu.set_i64("GAIN", 30);
    assert_eq!(hdu.get_i64("GAIN"), Some(30));
}

#[test]
fn fits_header_is_whole_blocks_and_data_follows() {
    let bytes = write_mono(3, 2, &[1, 2, 3, 4, 5, 6]);
    // one header block, then six 8-bit samples
    assert_eq!(bytes.len(), 2880 + 6);
    assert!(bytes.starts_with(b"SIMPLE  =                    T"));
    assert_eq!(&bytes[2880..], &[1, 2, 3, 4, 5, 6]);
}

#[test]
fn fits_16bit_image_round_trip() {
    let data = [0u16, 1000, 65535, 300, 7, 40000];
    let bytes = write_mono(3, 2, &data);
    let reader = FitsReader::new(&bytes).unwrap();
    assert_eq!(reader.headers.len(), 1);
    let hdu = find_mono_image_hdu_in_fits(&reader).unwrap();
    assert_eq!(hdu.bitpix(), 16);
    assert_eq!(hdu.dims().clone(), vec![3, 2]);
    assert_eq!(hdu.get_i64("GAIN"), Some(120));
    assert_eq!(hdu.get_str("FRAME"), Some("Light"));
    assert!(find_color_image_hdu_in_fits(&reader).is_none());
    let mut image = Image::new_empty();
    load_image_from_fits_reader(&mut image, &reader, &bytes).unwrap();
    assert!(image.is_monochrome());
    assert_eq!(image.l.as_slice(), &data[..]);
    assert_eq!(image.max_value(), u16::MAX);
}

#[test]
fn fits_8bit_image_round_trip() {
    let data = [0u16, 255, 17, 3];
    let bytes = write_mono(2, 2, &data);
    let reader = FitsReader::new(&bytes).unwrap();
    let hdu = find_mono_image_hdu_in_fits(&reader).unwrap();
    assert_eq!(hdu.bitpix(), 8);
    let mut samples = vec![0u16; 4];
    FitsReader::read_int_data(hdu, &bytes, 0, &mut samples).unwrap();
    assert_eq!(samples, data.to_vec());
}

#[test]
fn fits_truncated_data_is_unexpected_eof() {
    let data: Vec<u16> = (0..2000u16).map(|v| v * 30).collect();
    let bytes = write_mono(100, 20, &data);
    let reader = FitsReader::new(&bytes).unwrap();
    let hdu = find_mono_image_hdu_in_fits(&reader).unwrap();
    let cut = &bytes[..2880 + 1500];
    let mut samples = vec![0u16; 2000];
    assert_eq!(
        FitsReader::read_int_data(hdu, cut, 0, &mut samples),
        Err(FitsError::UnexpectedEof)
    );
    // whole chunks of 512 samples were read before the bytes ran out
    assert_eq!(&samples[..512], &data[..512]);
    assert_eq!(samples[512], 0);
    let mut image = Image::new_empty();
    assert_eq!(
        load_image_from_fits_reader(&mut image, &reader, cut),
        Err(ImageLoadError::Fits(FitsError::UnexpectedEof))
    );
}

#[test]
fn fits_without_image_is_no_image() {
    let hdu = Header::new();
    let mut bytes = Vec::new();
    FitsWriter::new().write_header(&mut bytes, &hdu);
    let reader = FitsReader::new(&bytes).unwrap();
    let mut image = Image::new_empty();
    assert_eq!(
        load_image_from_fits_reader(&mut image, &reader, &bytes),
        Err(ImageLoadError::NoImage)
    );
    assert!(image.is_empty());
}

#[test]
fn fits_file_ending_inside_a_header_has_no_header() {
    let bytes = vec![b' '; 100];
    let reader = FitsReader::new(&bytes).unwrap();
    assert_eq!(reader.headers.len(), 0);
}

#[test]
fn fits_raw_frame_with_bayer_and_bit_depth() {
    let data = [10u16, 20, 30, 40, 50, 60];
    let mut hdu = Header::new_2d(3, 2);
    hdu.set_str("BAYERPAT", "RGGB");
    hdu.set_str("FRAME", "Dark");
    hdu.set_i64("BITDEPTH", 12);
    let mut bytes = Vec::new();
    FitsWriter::new().write_header_and_data_u16(&mut bytes, &hdu, &data);
    let reader = FitsReader::new(&bytes).unwrap();
    let raw = load_raw_image_from_fits_reader(&reader, &bytes, 64).unwrap();
    assert_eq!((raw.width(), raw.height()), (3, 2));
    assert_eq!(raw.as_slice(), &data[..]);
    assert_eq!(raw.max_value(), 4095);
    assert_eq!(raw.offset(), 64);
    assert_eq!(raw.cfa(), CfaType::RGGB);
    assert_eq!(raw.frame_type(), FrameType::Darks);
}

#[test]
fn fits_raw_frame_defaults() {
    // no BITDEPTH: the 8 bits of the data; no BAYERPAT: no filter; no FRAME: a light
    let data = [1u16, 2, 3, 4];
    let mut hdu = Header::new_2d(2, 2);
    hdu.set_i64("GAIN", 0);
    let mut bytes = Vec::new();
    FitsWriter::new().write_header_and_data_u16(&mut bytes, &hdu, &data);
    let reader = FitsReader::new(&bytes).unwrap();
    let raw = load_raw_image_from_fits_reader(&reader, &bytes, 0).unwrap();
    assert_eq!(raw.max_value(), 255);
    assert_eq!(raw.cfa(), CfaType::Mono);
    assert_eq!(raw.frame_type(), FrameType::Lights);
    assert_eq!(raw.as_slice(), &data[..]);
}

#[test]
fn fits_raw_frame_missing_or_cut() {
    let hdu = Header::new();
    let mut bytes = Vec::new();
    FitsWriter::new().write_header(&mut bytes, &hdu);
    let reader = FitsReader::new(&bytes).unwrap();
    assert!(matches!(load_raw_image_from_fits_reader(&reader, &bytes, 0), Err(ImageLoadError::NoImage)));
    let data = [1000u16, 2000, 3000, 4000];
    let bytes = write_mono(2, 2, &data);
    let reader = FitsReader::new(&bytes).unwrap();
    let cut = &bytes[..bytes.len() - 1];
    assert!(matches!(
        load_raw_image_from_fits_reader(&reader, cut, 0),
        Err(ImageLoadError::Fits(FitsError::UnexpectedEof))
    ));
}
