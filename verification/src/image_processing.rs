pub use crate::io_utils::SeqFileNameGen;

use vstd::prelude::*;

use crate::image::raw::{
    bad_indices, color_of_index, color_top, compat_error, dark_subtracted, flat_applied, flat_normalized, light_hot_pixels,
    mean_level, repair_rounds, BadPixel, CalibrError, FrameType, RawImage,
};
use crate::image::raw_stacker::{mismatch, plus_levels, shape_of, zero_sums, RawAdder, StackError};
use crate::text::{str_chars, string_from_chars, trim, trim_bounds};

verus! {

/// Calibration of a light frame: the master dark and flat files (paths as text) and
/// whether hot pixels are removed.
#[derive(Debug, Clone)]
pub struct CalibrParams {
    pub dark: Option<String>,
    pub flat: Option<String>,
    pub hot_pixels: bool,
}

impl Default for CalibrParams {
    fn default() -> (r: Self)
        ensures
            r.dark is None,
            r.flat is None,
            !r.hot_pixels,
    {
        CalibrParams { dark: None, flat: None, hot_pixels: false }
    }
}

/// Levels of a light frame after the dark steps: the master dark subtracted and its hot
/// pixels repaired; else, when asked, the hot pixels found in the frame itself repaired.
pub open spec fn dark_calibrated(raw: &RawImage, dark: Option<&RawImage>, dark_hot: Seq<BadPixel>, find_hot: bool) -> Seq<
    u16,
> {
    let (w, h) = (raw@.1 as int, raw@.2 as int);
    match dark {
        Some(d) => repair_rounds(dark_subtracted(raw@.0, d@.0), w, h, raw.filter(), bad_indices(dark_hot, w, h), 3),
        None => if find_hot {
            repair_rounds(raw@.0, w, h, raw.filter(), bad_indices(light_hot_pixels(raw), w, h), 3)
        } else {
            raw@.0
        },
    }
}

/// Why the master dark cannot calibrate the frame, if there is one and it cannot.
pub open spec fn dark_refusal(raw: &RawImage, dark: Option<&RawImage>) -> Option<CalibrError> {
    match dark {
        Some(d) => compat_error(raw, d, seq![FrameType::Darks, FrameType::Biases]),
        None => None,
    }
}

/// Black level of a light frame after the dark steps.
pub open spec fn dark_calibrated_offset(raw: &RawImage, dark: Option<&RawImage>) -> int {
    match dark {
        Some(d) => raw.offset_level() + mean_level(raw@.0) - mean_level(d@.0),
        None => raw.offset_level() as int,
    }
}

/// Levels of a light frame before the flat: after the dark steps, and with the dark's hot
/// pixels repaired once more when the master flat was just loaded.
pub open spec fn before_flat(
    raw: &RawImage,
    dark: Option<&RawImage>,
    dark_hot: Seq<BadPixel>,
    find_hot: bool,
    flat_just_loaded: bool,
) -> Seq<u16> {
    let (w, h) = (raw@.1 as int, raw@.2 as int);
    let d1 = dark_calibrated(raw, dark, dark_hot, find_hot);
    if flat_just_loaded {
        repair_rounds(d1, w, h, raw.filter(), bad_indices(dark_hot, w, h), 3)
    } else {
        d1
    }
}

/// Calibrates a light frame with the master frames the caller holds: subtracts the
/// master dark and repairs its hot pixels, or else (when `find_hot_pixels`) repairs the hot
/// pixels found in the frame; repairs the dark's hot pixels once more when the master flat
/// was just loaded; then divides by the master flat. A master frame that does not fit the
/// frame gives its error; a dark that does not fit leaves the frame as it was.
pub fn apply_calibr_data_and_remove_hot_pixels(
    raw: &mut RawImage,
    dark: Option<&RawImage>,
    dark_hot_pixels: &[BadPixel],
    find_hot_pixels: bool,
    flat_just_loaded: bool,
    flat: Option<&RawImage>,
) -> (r: Result<(), CalibrError>)
    requires
        old(raw).wf(),
        dark matches Some(d) ==> {
            &&& d.wf()
            &&& old(raw)@.0.len() * 65535 <= i64::MAX
            &&& compat_error(old(raw), d, seq![FrameType::Darks, FrameType::Biases]) is None ==> {
                &&& old(raw)@.0.len() > 0
                &&& i32::MIN <= old(raw).offset_level() + mean_level(old(raw)@.0) - mean_level(d@.0) <= i32::MAX
            }
        },
        dark is None && find_hot_pixels ==> {
            &&& old(raw)@.1 > 0
            &&& old(raw)@.1 <= isize::MAX
            &&& old(raw)@.2 <= isize::MAX
        },
        flat matches Some(f) ==> {
            &&& f.wf()
            &&& compat_error(old(raw), f, seq![FrameType::Flats]) is None ==> forall|i: int|
                0 <= i < f@.0.len() ==> #[trigger] f@.0[i] != f.offset_level()
        },
    ensures
        dark_refusal(old(raw), dark) matches Some(e) ==> r == Err::<(), CalibrError>(e) && *final(raw) == *old(raw),
        dark_refusal(old(raw), dark) is None ==> {
            let levels = before_flat(old(raw), dark, dark_hot_pixels@, find_hot_pixels, flat_just_loaded);
            let zero = dark_calibrated_offset(old(raw), dark);
            &&& final(raw)@.1 == old(raw)@.1
            &&& final(raw)@.2 == old(raw)@.2
            &&& final(raw).offset_level() == zero
            &&& final(raw).max_level() == old(raw).max_level()
            &&& final(raw).filter() == old(raw).filter()
            &&& final(raw).kind() == old(raw).kind()
            &&& match flat {
                Some(f) => match compat_error(old(raw), f, seq![FrameType::Flats]) {
                    Some(e) => r == Err::<(), CalibrError>(e) && final(raw)@.0 == levels,
                    None => r is Ok && final(raw)@.0 == flat_applied(levels, zero, f@.0, f.offset_level() as int),
                },
                None => r is Ok && final(raw)@.0 == levels,
            }
        },
{
    if let Some(d) = dark {
        let res = raw.subtract_dark_or_bias(d);
        if let Err(e) = res {
            return Err(e);
        }
        raw.remove_bad_pixels(dark_hot_pixels);
    } else if find_hot_pixels {
        let hot = raw.find_hot_pixels_in_light();
        raw.remove_bad_pixels(hot.as_slice());
    }
    if flat_just_loaded {
        raw.remove_bad_pixels(dark_hot_pixels);
    }
    match flat {
        Some(f) => raw.apply_flat(f),
        None => Ok(()),
    }
}

/// Biases and darks are shown as they are, without demosaicing.
pub fn is_monochrome_frame(frame_type: FrameType) -> (r: bool)
    ensures
        r == (frame_type == FrameType::Biases || frame_type == FrameType::Darks),
{
    matches!(frame_type, FrameType::Biases) || matches!(frame_type, FrameType::Darks)
}

/// Flats, darks and biases go to the adder of calibration frames.
pub fn is_calibration_frame(frame_type: FrameType) -> (r: bool)
    ensures
        r == (frame_type == FrameType::Flats || frame_type == FrameType::Darks || frame_type == FrameType::Biases),
{
    matches!(frame_type, FrameType::Flats | FrameType::Darks | FrameType::Biases)
}

/// The directory that raw frames of a kind are saved in.
pub open spec fn frame_dir_name(frame_type: FrameType) -> Seq<char> {
    match frame_type {
        FrameType::Lights => seq!['L', 'i', 'g', 'h', 't'],
        FrameType::Flats => seq!['F', 'l', 'a', 't'],
        FrameType::Darks => seq!['D', 'a', 'r', 'k'],
        FrameType::Biases => seq!['B', 'i', 'a', 's'],
        FrameType::Undef => Seq::empty(),
    }
}

/// The directory for saved raw frames of a kind (see `frame_dir_name`); a frame of no
/// kind is never saved.
pub fn raw_frame_dir(frame_type: FrameType) -> (r: String)
    requires
        frame_type != FrameType::Undef,
    ensures
        r@ == frame_dir_name(frame_type),
{
    let cs: Vec<char> = match frame_type {
        FrameType::Lights => vec!['L', 'i', 'g', 'h', 't'],
        FrameType::Flats => vec!['F', 'l', 'a', 't'],
        FrameType::Darks => vec!['D', 'a', 'r', 'k'],
        _ => vec!['B', 'i', 'a', 's'],
    };
    proof {
        assert(cs@ =~= frame_dir_name(frame_type));
    }
    string_from_chars(cs.as_slice())
}

/// Leading dots removed.
pub open spec fn strip_dots(s: Seq<char>) -> Seq<char>
    decreases s.len(),
{
    if s.len() > 0 && s[0] == '.' {
        strip_dots(s.drop_first())
    } else {
        s
    }
}

/// The file name mask of saved raw frames: the directory's name, `_${num}.`, and the
/// extension of the frame's format, trimmed and without leading dots.
pub open spec fn raw_file_mask_chars(dir: Seq<char>, format: Seq<char>) -> Seq<char> {
    dir + seq!['_', '$', '{', 'n', 'u', 'm', '}', '.'] + strip_dots(trim(format))
}

proof fn lemma_strip_dots_skip(s: Seq<char>, i: int)
    requires
        0 <= i <= s.len(),
        forall|j: int| 0 <= j < i ==> s[j] == '.',
        i == s.len() || s[i] != '.',
    ensures
        strip_dots(s) == s.skip(i),
    decreases i,
{
    if i > 0 {
        assert(s.drop_first().skip(i - 1) =~= s.skip(i));
        lemma_strip_dots_skip(s.drop_first(), i - 1);
    } else {
        assert(s.skip(0) =~= s);
    }
}

/// The file name mask of saved raw frames (see `raw_file_mask_chars`).
pub fn raw_file_mask(dir: &str, format: &str) -> (r: String)
    ensures
        r@ == raw_file_mask_chars(dir@, format@),
{
    let f = str_chars(format);
    let (a, b) = trim_bounds(f.as_slice());
    let ghost t = f@.subrange(a as int, b as int);
    let mut k: usize = a;
    while k < b && f[k] == '.'
        invariant
            a <= k <= b,
            b <= f@.len(),
            forall|j: int| a <= j < k ==> f@[j] == '.',
        decreases b - k,
    {
        k = k + 1;
    }
    proof {
        lemma_strip_dots_skip(t, k - a);
        assert(t.skip(k - a) =~= f@.subrange(k as int, b as int));
    }
    let mut cs = str_chars(dir);
    cs.push('_');
    cs.push('$');
    cs.push('{');
    cs.push('n');
    cs.push('u');
    cs.push('m');
    cs.push('}');
    cs.push('.');
    let ghost head = cs@;
    let mut i: usize = k;
    while i < b
        invariant
            k <= i <= b,
            b <= f@.len(),
            cs@ == head + f@.subrange(k as int, i as int),
        decreases b - i,
    {
        cs.push(f[i]);
        i = i + 1;
        proof {
            assert(cs@ =~= head + f@.subrange(k as int, i as int));
        }
    }
    proof {
        assert(head =~= dir@ + seq!['_', '$', '{', 'n', 'u', 'm', '}', '.']);
    }
    string_from_chars(cs.as_slice())
}

/// What a calibration frame adds: a flat normalized (see `flat_normalized`) with black
/// level 0, any other frame its levels and black level.
pub open spec fn calibr_frame(raw: &RawImage, frame_type: FrameType) -> (Seq<u16>, i32) {
    if frame_type == FrameType::Flats {
        (flat_normalized(raw@.0, raw@.1 as int, raw.filter(), raw.offset_level() as int), 0i32)
    } else {
        (raw@.0, raw.offset_level())
    }
}

/// A flat can be normalized: no more samples than `u32` counts, and no color whose top
/// level is its black level.
pub open spec fn flat_normalizable(raw: &RawImage) -> bool {
    &&& raw@.0.len() <= u32::MAX
    &&& forall|i: int|
        0 <= i < raw@.0.len() ==> color_top(
            raw@.0,
            raw@.1 as int,
            raw.filter(),
            #[trigger] color_of_index(raw.filter(), raw@.1 as int, i),
        ) != raw.offset_level()
}

/// Adds a calibration frame to the adder; a flat is normalized first (see `calibr_frame`).
/// The frame is left as it was added.
pub fn add_calibr_image(raw: &mut RawImage, adder: &mut RawAdder, frame_type: FrameType) -> (r: Result<(), StackError>)
    requires
        old(raw).wf(),
        old(adder).wf(),
        frame_type == FrameType::Flats ==> flat_normalizable(old(raw)),
        old(adder).shape() matches Some(s) && mismatch(s, old(raw)) is None ==> {
            &&& forall|i: int|
                0 <= i < old(raw)@.0.len() ==> old(adder).sums()[i] + calibr_frame(old(raw), frame_type).0[i]
                    <= u32::MAX
            &&& old(adder).frames() < u32::MAX
            &&& i32::MIN <= old(adder).zero_sum() + calibr_frame(old(raw), frame_type).1 <= i32::MAX
        },
    ensures
        final(raw)@ == (calibr_frame(old(raw), frame_type).0, old(raw)@.1, old(raw)@.2),
        final(raw).offset_level() == calibr_frame(old(raw), frame_type).1,
        shape_of(final(raw)) == shape_of(old(raw)),
        final(adder).wf(),
        match old(adder).shape() {
            Some(s) => match mismatch(s, old(raw)) {
                Some(e) => r == Err::<(), StackError>(e) && *final(adder) == *old(adder),
                None => {
                    &&& r is Ok
                    &&& final(adder).shape() == old(adder).shape()
                    &&& final(adder).sums() == plus_levels(old(adder).sums(), calibr_frame(old(raw), frame_type).0)
                    &&& final(adder).frames() == old(adder).frames() + 1
                    &&& final(adder).zero_sum() == old(adder).zero_sum() + calibr_frame(old(raw), frame_type).1
                },
            },
            None => {
                &&& r is Ok
                &&& final(adder).shape() == Some(shape_of(old(raw)))
                &&& final(adder).sums() == plus_levels(
                    zero_sums(calibr_frame(old(raw), frame_type).0),
                    calibr_frame(old(raw), frame_type).0,
                )
                &&& final(adder).frames() == 1
                &&& final(adder).zero_sum() == calibr_frame(old(raw), frame_type).1
            },
        },
{
    if matches!(frame_type, FrameType::Flats) {
        raw.normalize_flat();
    }
    adder.add(raw)
}

} // verus!
