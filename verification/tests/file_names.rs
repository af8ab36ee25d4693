use astra_lite::image_processing::CalibrParams;
use astra_lite::io_utils::SeqFileNameGen;

#[test]
fn seq_file_names_skip_taken_ones() {
    let taken = ["frame_0001.fit".to_string(), "frame_0002.fit".to_string()];
    let mut gen = SeqFileNameGen::new();
    let name = gen.generate("frame_${num}.fit", |n: &String| taken.contains(n));
    assert_eq!(name.as_deref(), Some("frame_0003.fit"));
    let name = gen.generate("frame_${num}.fit", |n: &String| taken.contains(n));
    assert_eq!(name.as_deref(), Some("frame_0004.fit"));
    gen.clear();
    let name = gen.generate("x_${num}_${num}", |_: &String| false);
    assert_eq!(name.as_deref(), Some("x_0001_0001"));
}

#[test]
fn seq_file_names_without_placeholder() {
    let mut gen = SeqFileNameGen::new();
    assert_eq!(gen.generate("dark.fit", |_: &String| false).as_deref(), Some("dark.fit"));
    assert_eq!(gen.generate("$num{num}", |_: &String| false).as_deref(), Some("$num{num}"));
}

#[test]
fn calibr_params_default() {
    let p = CalibrParams::default();
    assert!(p.dark.is_none() && p.flat.is_none() && !p.hot_pixels);
}
