use vstd::prelude::*;

use crate::image::image::{empty_layer, resized, Image, ImageModel};
use crate::image::raw::{cfa_name, CfaType, FrameType, RawImage};
use crate::image::simple_fits::{key_int, key_value, read_outcome, unquoted, Entry, FitsError, FitsReader, Header, HeaderModel};

verus! {

/// A header of a monochrome image: two axes.
pub open spec fn is_mono_hdu(h: HeaderModel) -> bool {
    h.dims.len() == 2
}

/// A header of a color image: three axes, the last one of three planes.
pub open spec fn is_color_hdu(h: HeaderModel) -> bool {
    h.dims.len() == 3 && h.dims[2] == 3
}

pub open spec fn hdu_matches(h: HeaderModel, color: bool) -> bool {
    if color {
        is_color_hdu(h)
    } else {
        is_mono_hdu(h)
    }
}

/// Index of the first header of a color (or monochrome) image.
pub open spec fn first_image_hdu(hs: Seq<HeaderModel>, color: bool) -> Option<int>
    decreases hs.len(),
{
    if hs.len() == 0 {
        None
    } else {
        match first_image_hdu(hs.drop_last(), color) {
            Some(i) => Some(i),
            None => if hdu_matches(hs.last(), color) {
                Some(hs.len() - 1)
            } else {
                None
            },
        }
    }
}

/// `first_image_hdu` finds the first matching header, and `None` means there is none.
pub proof fn lemma_first_image_hdu(hs: Seq<HeaderModel>, color: bool)
    ensures
        first_image_hdu(hs, color) matches Some(i) ==> 0 <= i < hs.len() && hdu_matches(
            hs[i],
            color,
        ) && forall|j: int| 0 <= j < i ==> !hdu_matches(#[trigger] hs[j], color),
        first_image_hdu(hs, color) is None ==> forall|j: int|
            0 <= j < hs.len() ==> !hdu_matches(#[trigger] hs[j], color),
    decreases hs.len(),
{
    if hs.len() > 0 {
        lemma_first_image_hdu(hs.drop_last(), color);
        assert forall|j: int| 0 <= j < hs.len() - 1 implies #[trigger] hs[j] == hs.drop_last()[j] by {}
    }
}

pub open spec fn hdu_views(hs: Seq<Header>) -> Seq<HeaderModel> {
    Seq::new(hs.len(), |i: int| hs[i]@)
}

fn find_image_hdu(reader: &FitsReader, color: bool) -> (r: Option<&Header>)
    ensures
        match first_image_hdu(hdu_views(reader.headers@), color) {
            Some(i) => r == Some(&reader.headers@[i]),
            None => r is None,
        },
{
    let ghost hv = hdu_views(reader.headers@);
    let n = reader.headers.len();
    let mut i: usize = 0;
    while i < n
        invariant
            n == reader.headers@.len(),
            hv == hdu_views(reader.headers@),
            i <= n,
            first_image_hdu(hv.take(i as int), color) is None,
        decreases n - i,
    {
        let hdu = &reader.headers[i];
        let dims = hdu.dims();
        let found = if color {
            dims.len() == 3 && dims[2] == 3
        } else {
            dims.len() == 2
        };
        proof {
            assert(hv.take(i + 1).drop_last() =~= hv.take(i as int));
            assert(hv.take(i + 1).last() == hdu@);
        }
        if found {
            proof {
                lemma_first_image_hdu_prefix(hv, (i + 1) as int, color);
            }
            return Some(hdu);
        }
        i = i + 1;
    }
    proof {
        assert(hv.take(n as int) =~= hv);
    }
    None
}

/// A match found in a prefix is the first match of the whole sequence.
proof fn lemma_first_image_hdu_prefix(hs: Seq<HeaderModel>, k: int, color: bool)
    requires
        0 <= k <= hs.len(),
        first_image_hdu(hs.take(k), color) is Some,
    ensures
        first_image_hdu(hs, color) == first_image_hdu(hs.take(k), color),
    decreases hs.len() - k,
{
    if k < hs.len() {
        assert(hs.take(k + 1).drop_last() =~= hs.take(k));
        lemma_first_image_hdu_prefix(hs, k + 1, color);
    } else {
        assert(hs.take(k) =~= hs);
    }
}

/// The first header of a monochrome image.
pub fn find_mono_image_hdu_in_fits(reader: &FitsReader) -> (r: Option<&Header>)
    ensures
        match first_image_hdu(hdu_views(reader.headers@), false) {
            Some(i) => r == Some(&reader.headers@[i]),
            None => r is None,
        },
{
    find_image_hdu(reader, false)
}

/// The first header of a color image.
pub fn find_color_image_hdu_in_fits(reader: &FitsReader) -> (r: Option<&Header>)
    ensures
        match first_image_hdu(hdu_views(reader.headers@), true) {
            Some(i) => r == Some(&reader.headers@[i]),
            None => r is None,
        },
{
    find_image_hdu(reader, true)
}

/// Why an image could not be loaded from FITS bytes.
#[derive(PartialEq, Eq, Debug, Clone, Copy)]
pub enum ImageLoadError {
    /// No header describes a monochrome or a color image.
    NoImage,
    /// Reading the samples failed.
    Fits(FitsError),
}

/// A header whose image fits in memory: its plane and its data can be addressed.
pub open spec fn hdu_addressable(h: HeaderModel) -> bool {
    &&& h.dims.len() >= 2 ==> h.dims[0] * h.dims[1] <= usize::MAX
    &&& h.data_pos + h.bytes_len <= usize::MAX
}

pub open spec fn load_err(r: Result<(), FitsError>) -> Result<(), ImageLoadError> {
    match r {
        Ok(()) => Ok(()),
        Err(e) => Err(ImageLoadError::Fits(e)),
    }
}

/// A layer of `w` x `h` samples read `offset` bytes into a header's data, over `old`.
pub open spec fn read_layer(
    h: HeaderModel,
    b: Seq<u8>,
    offset: int,
    old: (Seq<u16>, usize, usize),
    w: usize,
    ht: usize,
) -> ((Seq<u16>, usize, usize), Result<(), FitsError>) {
    let (d, res) = read_outcome(h, b, offset, resized(old.0, w * ht));
    ((d, w, ht), res)
}

/// The image after loading from FITS bytes with the given headers: the first monochrome
/// image, else the first color one (its planes one third of the data apart; reading
/// stops at the first plane that fails), else nothing changes.
pub open spec fn loaded_image(old: ImageModel, hs: Seq<HeaderModel>, b: Seq<u8>) -> (
    ImageModel,
    Result<(), ImageLoadError>,
) {
    match first_image_hdu(hs, false) {
        Some(i) => {
            let h = hs[i];
            let (l, res) = read_layer(h, b, 0, old.l, h.dims[0], h.dims[1]);
            (
                ImageModel {
                    l,
                    r: empty_layer(),
                    g: empty_layer(),
                    b: empty_layer(),
                    zero: 0,
                    max_value: 65535,
                },
                load_err(res),
            )
        },
        None => match first_image_hdu(hs, true) {
            Some(i) => {
                let h = hs[i];
                let w = h.dims[0];
                let ht = h.dims[1];
                let one = (h.bytes_len / 3) as int;
                let (r, rr) = read_layer(h, b, 0, old.r, w, ht);
                let g0 = (resized(old.g.0, w * ht), w, ht);
                let b0 = (resized(old.b.0, w * ht), w, ht);
                let (g, rg) = read_layer(h, b, one, old.g, w, ht);
                let (bl, rb) = read_layer(h, b, 2 * one, old.b, w, ht);
                let base = ImageModel {
                    l: empty_layer(),
                    r,
                    g: g0,
                    b: b0,
                    zero: 0,
                    max_value: 65535,
                };
                if rr is Err {
                    (base, load_err(rr))
                } else if rg is Err {
                    (ImageModel { g, ..base }, load_err(rg))
                } else {
                    (ImageModel { g, b: bl, ..base }, load_err(rb))
                }
            },
            None => (old, Err(ImageLoadError::NoImage)),
        },
    }
}

/// Loads the first monochrome image of FITS bytes, else the first color one.
pub fn load_image_from_fits_reader(image: &mut Image, reader: &FitsReader, bytes: &[u8]) -> (r:
    Result<(), ImageLoadError>)
    requires
        forall|i: int|
            0 <= i < reader.headers@.len() ==> hdu_addressable(#[trigger] reader.headers@[i]@),
    ensures
        (final(image).model(), r) == loaded_image(
            old(image).model(),
            hdu_views(reader.headers@),
            bytes@,
        ),
{
    let ghost hv = hdu_views(reader.headers@);
    let mono_hdu = find_mono_image_hdu_in_fits(reader);
    let color_hdu = find_color_image_hdu_in_fits(reader);
    proof {
        lemma_first_image_hdu(hv, false);
        lemma_first_image_hdu(hv, true);
    }
    if let Some(hdu) = mono_hdu {
        let ghost i = first_image_hdu(hv, false)->0;
        assert(hv[i] == hdu@);
        let width = hdu.dims()[0];
        let height = hdu.dims()[1];
        image.make_monochrome(width, height, 0, 65535);
        let res = FitsReader::read_int_data(hdu, bytes, 0, image.l.as_slice_mut());
        match res {
            Ok(()) => Ok(()),
            Err(e) => Err(ImageLoadError::Fits(e)),
        }
    } else if let Some(hdu) = color_hdu {
        let ghost i = first_image_hdu(hv, true)->0;
        assert(hv[i] == hdu@);
        let width = hdu.dims()[0];
        let height = hdu.dims()[1];
        image.make_color(width, height, 0, 65535);
        let one_color_bytes_len = hdu.bytes_len() / 3;
        let res = FitsReader::read_int_data(hdu, bytes, 0, image.r.as_slice_mut());
        if let Err(e) = res {
            return Err(ImageLoadError::Fits(e));
        }
        let res = FitsReader::read_int_data(hdu, bytes, one_color_bytes_len, image.g.as_slice_mut());
        if let Err(e) = res {
            return Err(ImageLoadError::Fits(e));
        }
        let res = FitsReader::read_int_data(
            hdu,
            bytes,
            2 * one_color_bytes_len,
            image.b.as_slice_mut(),
        );
        match res {
            Ok(()) => Ok(()),
            Err(e) => Err(ImageLoadError::Fits(e)),
        }
    } else {
        Err(ImageLoadError::NoImage)
    }
}

/// A mask of the `b` lowest bits.
pub open spec fn low_ones(b: int) -> int
    decreases b,
{
    if b <= 0 {
        0
    } else {
        2 * low_ones(b - 1) + 1
    }
}

/// Largest level of a sensor of `bitdepth` bits: all sixteen bits when that is not
/// positive or not below sixteen.
pub open spec fn bitdepth_max(bitdepth: int) -> u16 {
    if bitdepth <= 0 || bitdepth >= 16 {
        65535
    } else {
        low_ones(bitdepth) as u16
    }
}

/// Bit depth that a header states (cut to 32 bits), else its BITPIX.
pub open spec fn header_bitdepth(h: HeaderModel) -> int {
    match key_int(h.entries, "BITDEPTH"@, i64::MIN as int, i64::MAX as int) {
        Some(v) => (v as i64) as i32 as int,
        None => h.bitpix as int,
    }
}

/// Text of a record, quotes dropped; empty when there is none.
pub open spec fn key_text(entries: Seq<Entry>, key: Seq<char>) -> Seq<char> {
    match key_value(entries, key) {
        Some(v) => unquoted(v),
        None => Seq::empty(),
    }
}

/// `cfa` is the layout that `name` names, or none when it names none.
pub open spec fn cfa_named(cfa: CfaType, name: Seq<char>) -> bool {
    cfa_name(cfa) == Some(name) || (cfa == CfaType::Mono && forall|c: CfaType| cfa_name(c) != Some(name))
}

/// The kind of frame that `text` names, light for any other text.
pub open spec fn frame_named(text: Seq<char>) -> FrameType {
    if text == "Flat"@ {
        FrameType::Flats
    } else if text == "Dark"@ {
        FrameType::Darks
    } else if text == "Bias"@ {
        FrameType::Biases
    } else {
        FrameType::Lights
    }
}

proof fn lemma_low_ones_grows(a: int, b: int)
    requires
        0 <= a <= b,
    ensures
        0 <= low_ones(a) <= low_ones(b),
    decreases b,
{
    if a < b {
        lemma_low_ones_grows(a, b - 1);
    } else if a > 0 {
        lemma_low_ones_grows(a - 1, a - 1);
    }
}

/// The largest level of a sensor of `bitdepth` bits (see `bitdepth_max`).
fn max_value_of_bitdepth(bitdepth: i32) -> (r: u16)
    ensures
        r == bitdepth_max(bitdepth as int),
{
    if bitdepth <= 0 || bitdepth >= 16 {
        return 65535;
    }
    proof {
        assert(low_ones(15) == 32767) by {
            reveal_with_fuel(low_ones, 16);
        }
        lemma_low_ones_grows(bitdepth as int, 15);
    }
    let mut m: u32 = 0;
    let mut k: i32 = 0;
    while k < bitdepth
        invariant
            0 <= k <= bitdepth <= 15,
            m == low_ones(k as int),
            low_ones(bitdepth as int) <= 32767,
        decreases bitdepth - k,
    {
        proof {
            lemma_low_ones_grows((k + 1) as int, bitdepth as int);
        }
        m = 2 * m + 1;
        k = k + 1;
    }
    m as u16
}

/// A raw frame as loaded from the first monochrome image of FITS bytes, with black level
/// `offset`: levels, width and height, black level, largest level, filter and kind.
pub open spec fn raw_frame_fits(
    raw: &RawImage,
    h: HeaderModel,
    levels: Seq<u16>,
    offset: i32,
) -> bool {
    &&& raw@ == (levels, h.dims[0], h.dims[1])
    &&& raw.offset_level() == offset
    &&& raw.max_level() == bitdepth_max(header_bitdepth(h))
    &&& cfa_named(raw.filter(), key_text(h.entries, "BAYERPAT"@))
    &&& raw.kind() == frame_named(key_text(h.entries, "FRAME"@))
}

/// Loads the first monochrome image of FITS bytes as a raw frame, with the black level
/// `offset`; its header gives the bit depth (else BITPIX), the filter (BAYERPAT) and the
/// kind (FRAME, light by default).
pub fn load_raw_image_from_fits_reader(reader: &FitsReader, bytes: &[u8], offset: i32) -> (r: Result<
    RawImage,
    ImageLoadError,
>)
    requires
        forall|i: int|
            0 <= i < reader.headers@.len() ==> hdu_addressable(#[trigger] reader.headers@[i]@),
        first_image_hdu(hdu_views(reader.headers@), false) matches Some(i) ==> {
            let h = hdu_views(reader.headers@)[i];
            &&& header_bitdepth(h) <= 30
            &&& key_value(h.entries, "BAYERPAT"@) != Some(seq!['\''])
            &&& key_value(h.entries, "FRAME"@) != Some(seq!['\''])
        },
    ensures
        match first_image_hdu(hdu_views(reader.headers@), false) {
            None => r matches Err(e) && e == ImageLoadError::NoImage,
            Some(i) => {
                let h = hdu_views(reader.headers@)[i];
                let (levels, res) = read_outcome(
                    h,
                    bytes@,
                    0,
                    Seq::new((h.dims[0] * h.dims[1]) as nat, |j: int| 0u16),
                );
                match res {
                    Err(fe) => r matches Err(e) && e == ImageLoadError::Fits(fe),
                    Ok(()) => r matches Ok(raw) && raw_frame_fits(&raw, h, levels, offset),
                }
            },
        },
{
    let ghost hv = hdu_views(reader.headers@);
    let hdu = match find_mono_image_hdu_in_fits(reader) {
        Some(hdu) => hdu,
        None => {
            return Err(ImageLoadError::NoImage);
        },
    };
    proof {
        lemma_first_image_hdu(hv, false);
        reveal_strlit("");
    }
    let ghost i = first_image_hdu(hv, false)->0;
    assert(hv[i] == hdu@);
    let width = hdu.dims()[0];
    let height = hdu.dims()[1];
    let bitdepth: i32 = match hdu.get_i64("BITDEPTH") {
        Some(v) => v as i32,
        None => hdu.bitpix() as i32,
    };
    let bayer = match hdu.get_str("BAYERPAT") {
        Some(s) => s,
        None => "",
    };
    let frame_str = match hdu.get_str("FRAME") {
        Some(s) => s,
        None => "",
    };
    assert(bayer@ == key_text(hdu@.entries, "BAYERPAT"@));
    assert(frame_str@ == key_text(hdu@.entries, "FRAME"@));
    let max_value = max_value_of_bitdepth(bitdepth);
    let cfa = CfaType::from_str(bayer);
    let frame_type = FrameType::from_str(frame_str, FrameType::Lights);
    assert(frame_type == frame_named(frame_str@));
    proof {
        reveal_strlit("Light");
        reveal_strlit("Flat");
        reveal_strlit("Dark");
        reveal_strlit("Bias");
    }
    let mut data: Vec<u16> = Vec::new();
    data.resize(width * height, 0u16);
    proof {
        assert(data@ =~= Seq::new((width * height) as nat, |j: int| 0u16));
    }
    let res = FitsReader::read_int_data(hdu, bytes, 0, data.as_mut_slice());
    match res {
        Ok(()) => Ok(RawImage::new(width, height, offset, max_value, cfa, frame_type, data)),
        Err(e) => Err(ImageLoadError::Fits(e)),
    }
}

} // verus!
