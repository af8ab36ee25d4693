use astra_lite::image::histogram::{freq_from_slice, Histogram, HistogramChan};
use astra_lite::image::image::{Image, ImageLayer};
use astra_lite::image::raw::{CfaType, FrameType, RawImage};

#[test]
fn histogram_counts_and_percentiles() {
    let data = [0u16, 1, 1, 2, 2, 2, 9, 9, 9, 9];
    let freq = freq_from_slice(&data, 1);
    assert_eq!(freq.len(), 65536);
    assert_eq!((freq[0], freq[1], freq[2], freq[9]), (1, 2, 3, 4));
    let mut chan = HistogramChan::new();
    chan.take_from_freq(freq, 15);
    assert_eq!(chan.freq.len(), 16);
    assert_eq!(chan.count, 10);
    assert_eq!(chan.get_nth_element(0), 0);
    assert_eq!(chan.get_nth_element(3), 2);
    assert_eq!(chan.get_nth_element(9), 9);
    assert_eq!(chan.get_nth_element(10), u16::MAX);
    assert_eq!(chan.median(), 2);
    assert_eq!(chan.get_percentile(90), 9);
    // (95 * 10 + 50) / 100 is past the last sample
    assert_eq!(chan.get_percentile(95), u16::MAX);
    assert_eq!(chan.get_percentile(0), 0);
}

#[test]
fn histogram_step_and_cut() {
    let data = [5u16, 6, 5, 6, 5, 6];
    let freq = freq_from_slice(&data, 2);
    assert_eq!((freq[5], freq[6]), (3, 0));
    let mut chan = HistogramChan::new();
    chan.take_from_freq(freq, 4);
    // levels above the largest one are dropped
    assert_eq!(chan.count, 0);
    assert_eq!(chan.freq, vec![0; 5]);
}

#[test]
fn histogram_of_mono_raw_frame() {
    let raw = RawImage::new(2, 2, 0, 3, CfaType::Mono, FrameType::Lights, vec![1, 2, 2, 3]);
    let mut hist = Histogram::new();
    hist.from_raw_image(&raw, false);
    assert_eq!(hist.max, 3);
    let l = hist.l.as_ref().unwrap();
    assert_eq!(l.freq, vec![0, 1, 2, 1]);
    assert_eq!(l.count, 4);
    assert!(hist.r.is_none() && hist.g.is_none() && hist.b.is_none());
}

#[test]
fn histogram_of_color_raw_frame_counts_colors_apart() {
    // RGGB: red 10, greens 20 and 30, blue 40
    let raw = RawImage::new(2, 2, 0, 63, CfaType::RGGB, FrameType::Lights, vec![10, 20, 30, 40]);
    let mut hist = Histogram::new();
    hist.from_raw_image(&raw, false);
    assert!(hist.l.is_none());
    let r = hist.r.as_ref().unwrap();
    let g = hist.g.as_ref().unwrap();
    let b = hist.b.as_ref().unwrap();
    assert_eq!(r.freq.len(), 64);
    assert_eq!((r.count, g.count, b.count), (1, 2, 1));
    assert_eq!((r.freq[10], g.freq[20], g.freq[30], b.freq[40]), (1, 1, 1, 1));
    assert_eq!(g.median(), 30);
}

#[test]
fn histogram_of_color_raw_frame_as_monochrome() {
    let raw = RawImage::new(2, 2, 0, 63, CfaType::RGGB, FrameType::Lights, vec![10, 20, 30, 40]);
    let mut hist = Histogram::new();
    hist.from_raw_image(&raw, true);
    let l = hist.l.as_ref().unwrap();
    assert_eq!(l.count, 4);
    assert!(hist.r.is_none());
    hist.clear();
    assert!(hist.l.is_none());
    assert_eq!(hist.max, 63);
}

#[test]
fn histogram_of_image_layers() {
    let mut img = Image::new_empty();
    img.l = ImageLayer::new_mono(vec![5u16, 5, 7, 9], 2, 2);
    img.set_max_value(9);
    let mut hist = Histogram::new();
    hist.from_image(&img);
    assert_eq!(hist.max, 9);
    let l = hist.l.as_ref().unwrap();
    assert_eq!(l.freq, vec![0, 0, 0, 0, 0, 2, 0, 1, 0, 1]);
    assert_eq!(l.count, 4);
    assert!(hist.r.is_none() && hist.g.is_none() && hist.b.is_none());
}
