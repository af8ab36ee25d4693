use vstd::prelude::*;

use crate::image::image::{empty_layer, resized, sum_run, Image, ImageModel};
use crate::image::histogram::{
    counts_sum, fitted, freq_from_slice, lemma_counts_sum_update, lemma_counts_sum_zero_all, lemma_level_count_bound, level_count,
    level_freq, nth_level, HistogramChan,
};
use vstd::arithmetic::div_mod::lemma_fundamental_div_mod_converse;
use crate::text::{str_chars, str_eq, string_from_chars};
use crate::number::{
    all_digits, dec_repr, i64_to_chars, is_digit, lemma_nat_digits, lemma_parse_dec_repr, nat_digits, parse_int, parse_int_chars,
};
use crate::image::simple_fits::{find_char, find_char_in, slice_of};

verus! {

/// A pixel to be repaired.
#[derive(Debug, Copy, Clone, PartialEq, Eq, Structural)]
pub struct BadPixel {
    pub x: isize,
    pub y: isize,
}

/// Layout of the color filter over a sensor, by its first two rows.
#[derive(Debug, Copy, Clone, PartialEq, Eq, Structural)]
pub enum CfaType {
    Mono,
    BGGR,
    RGBG,
    GRBG,
    RGGB,
}

/// Color of the filter over one pixel.
#[derive(Debug, Copy, Clone, PartialEq, Eq, Structural)]
pub enum CfaColor {
    Mono,
    R,
    G,
    B,
}

/// Rows of the filter pattern: two of two colors, or one of no color.
pub open spec fn cfa_rows(cfa: CfaType) -> Seq<[CfaColor; 2]> {
    match cfa {
        CfaType::BGGR => seq![[CfaColor::B, CfaColor::G], [CfaColor::G, CfaColor::R]],
        CfaType::RGBG => seq![[CfaColor::R, CfaColor::G], [CfaColor::G, CfaColor::B]],
        CfaType::GRBG => seq![[CfaColor::G, CfaColor::R], [CfaColor::B, CfaColor::G]],
        CfaType::RGGB => seq![[CfaColor::R, CfaColor::G], [CfaColor::G, CfaColor::B]],
        CfaType::Mono => seq![[CfaColor::Mono, CfaColor::Mono]],
    }
}

/// Color of the filter at `(x, y)` (both not negative).
pub open spec fn cfa_color(cfa: CfaType, x: int, y: int) -> CfaColor {
    let rows = cfa_rows(cfa);
    rows[y % (rows.len() as int)]@[x % 2]
}

/// Name of a filter layout.
pub open spec fn cfa_name(cfa: CfaType) -> Option<Seq<char>> {
    match cfa {
        CfaType::Mono => None,
        CfaType::BGGR => Some("BGGR"@),
        CfaType::RGBG => Some("RGBG"@),
        CfaType::GRBG => Some("GRBG"@),
        CfaType::RGGB => Some("RGGB"@),
    }
}

impl CfaType {
    /// The rows of the filter pattern (see `cfa_rows`).
    pub fn get_array(&self) -> (r: Vec<[CfaColor; 2]>)
        ensures
            r@ == cfa_rows(*self),
    {
        let mut r: Vec<[CfaColor; 2]> = Vec::new();
        match self {
            CfaType::BGGR => {
                r.push([CfaColor::B, CfaColor::G]);
                r.push([CfaColor::G, CfaColor::R]);
            },
            CfaType::RGBG => {
                r.push([CfaColor::R, CfaColor::G]);
                r.push([CfaColor::G, CfaColor::B]);
            },
            CfaType::GRBG => {
                r.push([CfaColor::G, CfaColor::R]);
                r.push([CfaColor::B, CfaColor::G]);
            },
            CfaType::RGGB => {
                r.push([CfaColor::R, CfaColor::G]);
                r.push([CfaColor::G, CfaColor::B]);
            },
            CfaType::Mono => {
                r.push([CfaColor::Mono, CfaColor::Mono]);
            },
        }
        proof {
            assert(r@ =~= cfa_rows(*self));
        }
        r
    }

    /// The layout of a name; any other text has none.
    pub fn from_str(cfa_str: &str) -> (r: Self)
        ensures
            cfa_name(r) == Some(cfa_str@) || (r == CfaType::Mono && forall|c: CfaType|
                cfa_name(c) != Some(cfa_str@)),
    {
        proof {
            reveal_strlit("BGGR");
            reveal_strlit("RGBG");
            reveal_strlit("GRBG");
            reveal_strlit("RGGB");
        }
        if str_eq(cfa_str, "BGGR") {
            CfaType::BGGR
        } else if str_eq(cfa_str, "RGBG") {
            CfaType::RGBG
        } else if str_eq(cfa_str, "GRBG") {
            CfaType::GRBG
        } else if str_eq(cfa_str, "RGGB") {
            CfaType::RGGB
        } else {
            CfaType::Mono
        }
    }

    /// The name of the layout, none for no filter.
    pub fn to_str(&self) -> (r: Option<&'static str>)
        ensures
            match r {
                Some(s) => cfa_name(*self) == Some(s@),
                None => cfa_name(*self) is None,
            },
    {
        match self {
            CfaType::Mono => None,
            CfaType::BGGR => Some("BGGR"),
            CfaType::RGBG => Some("RGBG"),
            CfaType::GRBG => Some("GRBG"),
            CfaType::RGGB => Some("RGGB"),
        }
    }
}

/// Kind of a frame: light, flat, dark, bias, or not known.
#[derive(Debug, Copy, Clone, PartialEq, Eq, Structural)]
pub enum FrameType {
    Undef,
    Lights,
    Flats,
    Darks,
    Biases,
}

impl Default for FrameType {
    fn default() -> (r: Self)
        ensures
            r == FrameType::Undef,
    {
        FrameType::Undef
    }
}

/// Name of a frame kind.
pub open spec fn frame_type_name(t: FrameType) -> Seq<char> {
    match t {
        FrameType::Undef => "Undefined"@,
        FrameType::Lights => "Light"@,
        FrameType::Flats => "Flat"@,
        FrameType::Darks => "Dark"@,
        FrameType::Biases => "Bias"@,
    }
}

/// Words shown while frames of a kind are saved.
pub open spec fn frame_type_readable(t: FrameType) -> Seq<char> {
    match t {
        FrameType::Lights => "Saving LIGHT frames"@,
        FrameType::Flats => "Saving FLAT frames"@,
        FrameType::Darks => "Saving DARK frames"@,
        FrameType::Biases => "Saving BIAS frames"@,
        FrameType::Undef => "Unknows save frames state :("@,
    }
}

impl FrameType {
    /// The kind named `text` (`Light`, `Flat`, `Dark` or `Bias`), else `def`.
    pub fn from_str(text: &str, def: FrameType) -> (r: Self)
        ensures
            text@ == "Light"@ ==> r == FrameType::Lights,
            text@ == "Flat"@ ==> r == FrameType::Flats,
            text@ == "Dark"@ ==> r == FrameType::Darks,
            text@ == "Bias"@ ==> r == FrameType::Biases,
            text@ != "Light"@ && text@ != "Flat"@ && text@ != "Dark"@ && text@ != "Bias"@ ==> r
                == def,
    {
        proof {
            reveal_strlit("Light");
            reveal_strlit("Flat");
            reveal_strlit("Dark");
            reveal_strlit("Bias");
            assert("Light"@[0] == 'L' && "Flat"@[0] == 'F' && "Dark"@[0] == 'D' && "Bias"@[0] == 'B');
        }
        if str_eq(text, "Light") {
            FrameType::Lights
        } else if str_eq(text, "Flat") {
            FrameType::Flats
        } else if str_eq(text, "Dark") {
            FrameType::Darks
        } else if str_eq(text, "Bias") {
            FrameType::Biases
        } else {
            def
        }
    }

    pub fn to_str(&self) -> (r: &'static str)
        ensures
            r@ == frame_type_name(*self),
    {
        match self {
            FrameType::Undef => "Undefined",
            FrameType::Lights => "Light",
            FrameType::Flats => "Flat",
            FrameType::Darks => "Dark",
            FrameType::Biases => "Bias",
        }
    }

    pub fn to_readable_str(&self) -> (r: &'static str)
        ensures
            r@ == frame_type_readable(*self),
    {
        match self {
            FrameType::Lights => "Saving LIGHT frames",
            FrameType::Flats => "Saving FLAT frames",
            FrameType::Darks => "Saving DARK frames",
            FrameType::Biases => "Saving BIAS frames",
            FrameType::Undef => "Unknows save frames state :(",
        }
    }
}

/// A filter of two rows of two colors.
pub open spec fn is_bayer(cfa: CfaType) -> bool {
    cfa != CfaType::Mono
}

/// The level at `(x, y)` of samples of width `w`.
pub open spec fn level(d: Seq<u16>, w: int, x: int, y: int) -> int {
    d[y * w + x] as int
}

/// Rounded mean of the four levels left, right, above and below `(x, y)`.
pub open spec fn cross_avg(d: Seq<u16>, w: int, x: int, y: int) -> int {
    (level(d, w, x, y - 1) + level(d, w, x - 1, y) + level(d, w, x + 1, y) + level(d, w, x, y + 1) + 2)
        / 4
}

/// Rounded mean of the four levels on the diagonals of `(x, y)`.
pub open spec fn diag_avg(d: Seq<u16>, w: int, x: int, y: int) -> int {
    (level(d, w, x - 1, y - 1) + level(d, w, x + 1, y - 1) + level(d, w, x - 1, y + 1) + level(
        d,
        w,
        x + 1,
        y + 1,
    ) + 2) / 4
}

/// Rounded mean of the levels left and right of `(x, y)`.
pub open spec fn horiz_avg(d: Seq<u16>, w: int, x: int, y: int) -> int {
    (level(d, w, x - 1, y) + level(d, w, x + 1, y) + 1) / 2
}

/// Rounded mean of the levels above and below `(x, y)`.
pub open spec fn vert_avg(d: Seq<u16>, w: int, x: int, y: int) -> int {
    (level(d, w, x, y - 1) + level(d, w, x, y + 1) + 1) / 2
}

/// Red, green and blue of a pixel away from the border: its own level for its color,
/// the means of its neighbors of the other colors.
pub open spec fn inner_rgb(d: Seq<u16>, w: int, cfa: CfaType, x: int, y: int) -> (int, int, int) {
    match cfa_color(cfa, x, y) {
        CfaColor::R => (level(d, w, x, y), cross_avg(d, w, x, y), diag_avg(d, w, x, y)),
        CfaColor::B => (diag_avg(d, w, x, y), cross_avg(d, w, x, y), level(d, w, x, y)),
        CfaColor::G => if cfa_color(cfa, x - 1, y) == CfaColor::R {
            (horiz_avg(d, w, x, y), level(d, w, x, y), vert_avg(d, w, x, y))
        } else {
            (vert_avg(d, w, x, y), level(d, w, x, y), horiz_avg(d, w, x, y))
        },
        CfaColor::Mono => (0, 0, 0),
    }
}

/// Offset `k` (0 to 8) of the 3x3 window, row by row: `(dx, dy)`.
pub open spec fn win_offset(k: int) -> (int, int) {
    (k % 3 - 1, k / 3 - 1)
}

/// The pixel at offset `k` of the window around `(x, y)` is inside the frame and under
/// a filter of color `c`.
pub open spec fn win_match(w: int, h: int, cfa: CfaType, x: int, y: int, c: CfaColor, k: int) -> bool {
    let sx = x + win_offset(k).0;
    let sy = y + win_offset(k).1;
    0 <= sx < w && 0 <= sy < h && cfa_color(cfa, sx, sy) == c
}

/// Count and sum of the levels of color `c` at the first `k` offsets of the window.
pub open spec fn win_count(w: int, h: int, cfa: CfaType, x: int, y: int, c: CfaColor, k: int) -> int
    decreases k,
{
    if k <= 0 {
        0
    } else {
        win_count(w, h, cfa, x, y, c, k - 1) + if win_match(w, h, cfa, x, y, c, k - 1) {
            1int
        } else {
            0
        }
    }
}

pub open spec fn win_sum(d: Seq<u16>, w: int, h: int, cfa: CfaType, x: int, y: int, c: CfaColor, k: int) -> int
    decreases k,
{
    if k <= 0 {
        0
    } else {
        win_sum(d, w, h, cfa, x, y, c, k - 1) + if win_match(w, h, cfa, x, y, c, k - 1) {
            level(d, w, x + win_offset(k - 1).0, y + win_offset(k - 1).1)
        } else {
            0
        }
    }
}

/// Level of color `c` at a border pixel: the rounded mean of the levels of that color in
/// the 3x3 window around it.
pub open spec fn border_level(d: Seq<u16>, w: int, h: int, cfa: CfaType, x: int, y: int, c: CfaColor) -> int {
    let n = win_count(w, h, cfa, x, y, c, 9);
    (win_sum(d, w, h, cfa, x, y, c, 9) + n / 2) / n
}

/// Red, green and blue of pixel `(x, y)` after demosaicing.
pub open spec fn demosaic_px(d: Seq<u16>, w: int, h: int, cfa: CfaType, x: int, y: int) -> (int, int, int) {
    if 1 <= x < w - 1 && 1 <= y < h - 1 {
        inner_rgb(d, w, cfa, x, y)
    } else {
        (
            border_level(d, w, h, cfa, x, y, CfaColor::R),
            border_level(d, w, h, cfa, x, y, CfaColor::G),
            border_level(d, w, h, cfa, x, y, CfaColor::B),
        )
    }
}

/// One demosaiced channel (0 red, 1 green, 2 blue) of a frame, row by row.
pub open spec fn demosaic_channel(d: Seq<u16>, w: int, h: int, cfa: CfaType, ch: int) -> Seq<u16> {
    Seq::new(
        (w * h) as nat,
        |i: int|
            {
                let p = demosaic_px(d, w, h, cfa, i % w, i / w);
                (if ch == 0 {
                    p.0
                } else if ch == 1 {
                    p.1
                } else {
                    p.2
                }) as u16
            },
    )
}

proof fn lemma_win_count_grows(w: int, h: int, cfa: CfaType, x: int, y: int, c: CfaColor, k0: int, k: int)
    requires
        0 <= k0 < k,
        win_match(w, h, cfa, x, y, c, k0),
    ensures
        win_count(w, h, cfa, x, y, c, k) >= 1,
    decreases k,
{
    if k - 1 > k0 {
        lemma_win_count_grows(w, h, cfa, x, y, c, k0, k - 1);
    } else {
        lemma_win_count_nonneg(w, h, cfa, x, y, c, k - 1);
    }
}

proof fn lemma_win_count_nonneg(w: int, h: int, cfa: CfaType, x: int, y: int, c: CfaColor, k: int)
    ensures
        0 <= win_count(w, h, cfa, x, y, c, k) <= (if k > 0 { k } else { 0 }),
    decreases k,
{
    if k > 0 {
        lemma_win_count_nonneg(w, h, cfa, x, y, c, k - 1);
    }
}

proof fn lemma_win_sum_bound(d: Seq<u16>, w: int, h: int, cfa: CfaType, x: int, y: int, c: CfaColor, k: int)
    requires
        w >= 0,
        d.len() == w * h,
    ensures
        0 <= win_sum(d, w, h, cfa, x, y, c, k) <= 65535 * win_count(w, h, cfa, x, y, c, k),
    decreases k,
{
    if k > 0 {
        lemma_win_sum_bound(d, w, h, cfa, x, y, c, k - 1);
        if win_match(w, h, cfa, x, y, c, k - 1) {
            let sx = x + win_offset(k - 1).0;
            let sy = y + win_offset(k - 1).1;
            assert(0 <= sy * w + sx < w * h) by (nonlinear_arith)
                requires 0 <= sx < w, 0 <= sy < h;
        }
    }
}

/// Every 3x3 window of a frame at least two pixels wide and high, clipped at the border,
/// holds each color of a two-row filter.
proof fn lemma_window_has_color(w: int, h: int, cfa: CfaType, x: int, y: int, c: CfaColor)
    requires
        w >= 2,
        h >= 2,
        0 <= x < w,
        0 <= y < h,
        is_bayer(cfa),
        c != CfaColor::Mono,
    ensures
        win_count(w, h, cfa, x, y, c, 9) >= 1,
{
    let nx = if x + 1 < w { x + 1 } else { x - 1 };
    let ny = if y + 1 < h { y + 1 } else { y - 1 };
    let ks = seq![4int, (nx - x) + 4, 3 * (ny - y) + 4, 3 * (ny - y) + (nx - x) + 4];
    assert(forall|i: int| 0 <= i < 4 ==> 0 <= #[trigger] ks[i] < 9);
    assert(win_offset(4) == (0int, 0int));
    assert(win_offset((nx - x) + 4) == (nx - x, 0int));
    assert(win_offset(3 * (ny - y) + 4) == (0int, ny - y));
    assert(win_offset(3 * (ny - y) + (nx - x) + 4) == (nx - x, ny - y));
    assert(x % 2 != nx % 2);
    assert(y % 2 != ny % 2);
    if win_match(w, h, cfa, x, y, c, 4) {
        lemma_win_count_grows(w, h, cfa, x, y, c, 4, 9);
    } else if win_match(w, h, cfa, x, y, c, (nx - x) + 4) {
        lemma_win_count_grows(w, h, cfa, x, y, c, (nx - x) + 4, 9);
    } else if win_match(w, h, cfa, x, y, c, 3 * (ny - y) + 4) {
        lemma_win_count_grows(w, h, cfa, x, y, c, 3 * (ny - y) + 4, 9);
    } else {
        assert(win_match(w, h, cfa, x, y, c, 3 * (ny - y) + (nx - x) + 4));
        lemma_win_count_grows(w, h, cfa, x, y, c, 3 * (ny - y) + (nx - x) + 4, 9);
    }
}

/// A frame as the sensor gives it: one level per pixel, under a color filter.
pub struct RawImage {
    data: Vec<u16>,
    width: usize,
    height: usize,
    offset: i32,
    max_value: u16,
    cfa: CfaType,
    frame_type: FrameType,
}

impl View for RawImage {
    type V = (Seq<u16>, usize, usize);

    /// Levels, width, height.
    closed spec fn view(&self) -> (Seq<u16>, usize, usize) {
        (self.data@, self.width, self.height)
    }
}

impl RawImage {
    /// Black level of the frame.
    pub closed spec fn offset_level(&self) -> i32 {
        self.offset
    }

    /// Largest level of the sensor.
    pub closed spec fn max_level(&self) -> u16 {
        self.max_value
    }

    /// The filter over the sensor.
    pub closed spec fn filter(&self) -> CfaType {
        self.cfa
    }

    /// The levels fill the whole frame.
    pub open spec fn wf(&self) -> bool {
        self@.0.len() == self@.1 * self@.2
    }

    /// Kind of the frame.
    pub closed spec fn kind(&self) -> FrameType {
        self.frame_type
    }

    pub fn new(
        width: usize,
        height: usize,
        offset: i32,
        max_value: u16,
        cfa: CfaType,
        frame_type: FrameType,
        data: Vec<u16>,
    ) -> (r: Self)
        requires
            data@.len() == width * height,
        ensures
            r@ == (data@, width, height),
            r.offset_level() == offset,
            r.max_level() == max_value,
            r.filter() == cfa,
            r.kind() == frame_type,
    {
        Self { data, width, height, offset, max_value, cfa, frame_type }
    }

    pub fn width(&self) -> (r: usize)
        ensures
            r == self@.1,
    {
        self.width
    }

    pub fn height(&self) -> (r: usize)
        ensures
            r == self@.2,
    {
        self.height
    }

    pub fn frame_type(&self) -> (r: FrameType)
        ensures
            r == self.kind(),
    {
        self.frame_type
    }

    pub fn offset(&self) -> (r: i32)
        ensures
            r == self.offset_level(),
    {
        self.offset
    }

    pub fn max_value(&self) -> (r: u16)
        ensures
            r == self.max_level(),
    {
        self.max_value
    }

    pub fn cfa(&self) -> (r: CfaType)
        ensures
            r == self.filter(),
    {
        self.cfa
    }

    pub fn as_slice(&self) -> (r: &[u16])
        ensures
            r@ == self@.0,
    {
        self.data.as_slice()
    }

    pub fn set_offset(&mut self, offset: i32)
        ensures
            final(self)@ == old(self)@,
            final(self).offset_level() == offset,
            final(self).max_level() == old(self).max_level(),
            final(self).filter() == old(self).filter(),
            final(self).kind() == old(self).kind(),
    {
        self.offset = offset;
    }

    /// Levels of row `y`.
    pub fn row(&self, y: usize) -> (r: &[u16])
        requires
            self.wf(),
            y < self@.2,
        ensures
            r@ == self@.0.subrange(y * self@.1, y * self@.1 + self@.1),
            r@.len() == self@.1,
    {
        proof {
            assert(y * self.width + self.width <= self.width * self.height) by (nonlinear_arith)
                requires y < self.height;
        }
        let n = self.data.len();
        let pos = y * self.width;
        vstd::slice::slice_subrange(self.data.as_slice(), pos, pos + self.width)
    }

    /// Filter colors of row `y`, for even and odd columns.
    pub fn cfa_row(&self, y: usize) -> (r: [CfaColor; 2])
        ensures
            r@ == cfa_rows(self.filter())[(y as int) % (cfa_rows(self.filter()).len() as int)]@,
    {
        let rows = self.cfa.get_array();
        rows[y % rows.len()]
    }

    /// Level at `(x, y)` of a frame that holds it.
    fn level_at(&self, x: usize, y: usize) -> (r: u16)
        requires
            self.wf(),
            x < self@.1,
            y < self@.2,
        ensures
            r == level(self@.0, self@.1 as int, x as int, y as int),
    {
        proof {
            assert(y * self.width + x < self.width * self.height) by (nonlinear_arith)
                requires x < self.width, y < self.height;
        }
        let n = self.data.len();
        self.data[y * self.width + x]
    }

    /// Filter color at `(x, y)`.
    fn color_at(&self, x: usize, y: usize) -> (r: CfaColor)
        ensures
            r == cfa_color(self.cfa, x as int, y as int),
    {
        let row = self.cfa_row(y);
        row[x % 2]
    }

    /// Copies the levels into a monochrome image with the frame's black and largest levels.
    pub fn copy_into_monochrome(&self, dst_img: &mut Image)
        requires
            self.wf(),
        ensures
            final(dst_img).model() == (ImageModel {
                l: self@,
                r: empty_layer(),
                g: empty_layer(),
                b: empty_layer(),
                zero: self.offset_level(),
                max_value: self.max_level(),
            }),
    {
        let n = self.data.len();
        dst_img.make_monochrome(self.width, self.height, self.offset, self.max_value);
        let mut i: usize = 0;
        while i < n
            invariant
                self.wf(),
                n == self@.0.len(),
                dst_img.l@.0.len() == n,
                dst_img.l@.1 == self@.1,
                dst_img.l@.2 == self@.2,
                i <= n,
                forall|j: int| 0 <= j < i ==> dst_img.l@.0[j] == self@.0[j],
                dst_img.r@ == empty_layer(),
                dst_img.g@ == empty_layer(),
                dst_img.b@ == empty_layer(),
                dst_img.zero == self.offset,
                dst_img.max_value == self.max_value,
            decreases n - i,
        {
            dst_img.l.set_index(i, self.data[i]);
            i = i + 1;
        }
        proof {
            assert(dst_img.l@.0 =~= self@.0);
        }
    }

    /// Level of color `c` at a border pixel (see `border_level`).
    fn border_value(&self, x: usize, y: usize, c: CfaColor) -> (r: u16)
        requires
            self.wf(),
            self@.1 >= 2,
            self@.2 >= 2,
            x < self@.1,
            y < self@.2,
            is_bayer(self.cfa),
            c != CfaColor::Mono,
        ensures
            r == border_level(self@.0, self@.1 as int, self@.2 as int, self.cfa, x as int, y as int, c),
    {
        let ghost (d, w, h) = (self@.0, self@.1 as int, self@.2 as int);
        let mut sum: u64 = 0;
        let mut cnt: u64 = 0;
        let mut k: usize = 0;
        while k < 9
            invariant
                self.wf(),
                d == self@.0,
                w == self@.1,
                h == self@.2,
                x < w,
                y < h,
                k <= 9,
                cnt == win_count(w, h, self.cfa, x as int, y as int, c, k as int),
                sum == win_sum(d, w, h, self.cfa, x as int, y as int, c, k as int),
            decreases 9 - k,
        {
            proof {
                lemma_win_count_nonneg(w, h, self.cfa, x as int, y as int, c, k as int);
                lemma_win_sum_bound(d, w, h, self.cfa, x as int, y as int, c, k as int);
            }
            let dx: i128 = (k % 3) as i128 - 1;
            let dy: i128 = (k / 3) as i128 - 1;
            let sx: i128 = x as i128 + dx;
            let sy: i128 = y as i128 + dy;
            if sx >= 0 && sy >= 0 && sx < self.width as i128 && sy < self.height as i128 {
                let color = self.color_at(sx as usize, sy as usize);
                if color == c {
                    let v = self.level_at(sx as usize, sy as usize);
                    sum = sum + v as u64;
                    cnt = cnt + 1;
                }
            }
            k = k + 1;
        }
        proof {
            lemma_window_has_color(w, h, self.cfa, x as int, y as int, c);
            lemma_win_count_nonneg(w, h, self.cfa, x as int, y as int, c, 9);
            lemma_win_sum_bound(d, w, h, self.cfa, x as int, y as int, c, 9);
            assert((sum + cnt / 2) / (cnt as int) <= 65535) by (nonlinear_arith)
                requires sum <= 65535 * cnt, cnt >= 1;
        }
        ((sum + cnt / 2) / cnt) as u16
    }

    /// Red, green and blue of a pixel away from the border (see `inner_rgb`).
    fn inner_value(&self, x: usize, y: usize) -> (r: (u16, u16, u16))
        requires
            self.wf(),
            1 <= x < self@.1 - 1,
            1 <= y < self@.2 - 1,
            is_bayer(self.cfa),
        ensures
            r.0 == inner_rgb(self@.0, self@.1 as int, self.cfa, x as int, y as int).0,
            r.1 == inner_rgb(self@.0, self@.1 as int, self.cfa, x as int, y as int).1,
            r.2 == inner_rgb(self@.0, self@.1 as int, self.cfa, x as int, y as int).2,
    {
        let v11 = self.level_at(x - 1, y - 1) as u32;
        let v12 = self.level_at(x, y - 1) as u32;
        let v13 = self.level_at(x + 1, y - 1) as u32;
        let v21 = self.level_at(x - 1, y) as u32;
        let v22 = self.level_at(x, y) as u32;
        let v23 = self.level_at(x + 1, y) as u32;
        let v31 = self.level_at(x - 1, y + 1) as u32;
        let v32 = self.level_at(x, y + 1) as u32;
        let v33 = self.level_at(x + 1, y + 1) as u32;
        let cross = ((v12 + v21 + v23 + v32 + 2) / 4) as u16;
        let diag = ((v11 + v13 + v31 + v33 + 2) / 4) as u16;
        let horiz = ((v21 + v23 + 1) / 2) as u16;
        let vert = ((v12 + v32 + 1) / 2) as u16;
        let c22 = self.color_at(x, y);
        let c21 = self.color_at(x - 1, y);
        match c22 {
            CfaColor::R => (v22 as u16, cross, diag),
            CfaColor::B => (diag, cross, v22 as u16),
            CfaColor::G => if c21 == CfaColor::R {
                (horiz, v22 as u16, vert)
            } else {
                (vert, v22 as u16, horiz)
            },
            CfaColor::Mono => (0, 0, 0),
        }
    }

    /// Color image of a frame under a two-row filter: each channel of a pixel away from
    /// the border from its level and the means of its neighbors, each one at the border
    /// from the mean of the levels of that color around it.
    fn demosaic_linear(&self, result: &mut Image)
        requires
            self.wf(),
            self@.1 >= 2,
            self@.2 >= 2,
            is_bayer(self.cfa),
        ensures
            final(result).model() == (ImageModel {
                l: empty_layer(),
                r: (demosaic_channel(self@.0, self@.1 as int, self@.2 as int, self.cfa, 0), self@.1, self@.2),
                g: (demosaic_channel(self@.0, self@.1 as int, self@.2 as int, self.cfa, 1), self@.1, self@.2),
                b: (demosaic_channel(self@.0, self@.1 as int, self@.2 as int, self.cfa, 2), self@.1, self@.2),
                zero: self.offset_level(),
                max_value: self.max_level(),
            }),
    {
        let w = self.width;
        let h = self.height;
        let n = self.data.len();
        result.make_color(w, h, self.offset, self.max_value);
        let ghost (d, wi, hi) = (self@.0, w as int, h as int);
        let ghost rr = demosaic_channel(d, wi, hi, self.cfa, 0);
        let ghost gg = demosaic_channel(d, wi, hi, self.cfa, 1);
        let ghost bb = demosaic_channel(d, wi, hi, self.cfa, 2);
        let mut y: usize = 0;
        while y < h
            invariant
                self.wf(),
                d == self@.0,
                w == self@.1,
                h == self@.2,
                wi == w,
                hi == h,
                w >= 2,
                h >= 2,
                is_bayer(self.cfa),
                rr == demosaic_channel(d, wi, hi, self.cfa, 0),
                gg == demosaic_channel(d, wi, hi, self.cfa, 1),
                bb == demosaic_channel(d, wi, hi, self.cfa, 2),
                result.r@.0.len() == w * h && result.r@.1 == w && result.r@.2 == h,
                result.g@.0.len() == w * h && result.g@.1 == w && result.g@.2 == h,
                result.b@.0.len() == w * h && result.b@.1 == w && result.b@.2 == h,
                result.l@ == empty_layer(),
                result.zero == self.offset,
                result.max_value == self.max_value,
                n == w * h,
                y <= h,
                forall|i: int| 0 <= i < y * w ==> #[trigger] result.r@.0[i] == rr[i],
                forall|i: int| 0 <= i < y * w ==> #[trigger] result.g@.0[i] == gg[i],
                forall|i: int| 0 <= i < y * w ==> #[trigger] result.b@.0[i] == bb[i],
            decreases h - y,
        {
            let mut x: usize = 0;
            while x < w
                invariant
                    self.wf(),
                    d == self@.0,
                    w == self@.1,
                    h == self@.2,
                    wi == w,
                    hi == h,
                    w >= 2,
                    h >= 2,
                    is_bayer(self.cfa),
                    rr == demosaic_channel(d, wi, hi, self.cfa, 0),
                    gg == demosaic_channel(d, wi, hi, self.cfa, 1),
                    bb == demosaic_channel(d, wi, hi, self.cfa, 2),
                    result.r@.0.len() == w * h && result.r@.1 == w && result.r@.2 == h,
                    result.g@.0.len() == w * h && result.g@.1 == w && result.g@.2 == h,
                    result.b@.0.len() == w * h && result.b@.1 == w && result.b@.2 == h,
                    result.l@ == empty_layer(),
                    result.zero == self.offset,
                    result.max_value == self.max_value,
                    n == w * h,
                    y < h,
                    x <= w,
                    forall|i: int| 0 <= i < y * w + x ==> #[trigger] result.r@.0[i] == rr[i],
                    forall|i: int| 0 <= i < y * w + x ==> #[trigger] result.g@.0[i] == gg[i],
                    forall|i: int| 0 <= i < y * w + x ==> #[trigger] result.b@.0[i] == bb[i],
                decreases w - x,
            {
                let (r, g, b) = if 1 <= x && x < w - 1 && 1 <= y && y < h - 1 {
                    self.inner_value(x, y)
                } else {
                    (
                        self.border_value(x, y, CfaColor::R),
                        self.border_value(x, y, CfaColor::G),
                        self.border_value(x, y, CfaColor::B),
                    )
                };
                let ghost i0 = y * w + x;
                proof {
                    assert(i0 < w * h) by (nonlinear_arith)
                        requires i0 == y * w + x, x < w, y < h;
                    assert(i0 % wi == x && i0 / wi == y) by (nonlinear_arith)
                        requires i0 == y * w + x, x < w, wi == w;
                    assert(rr[i0] == r && gg[i0] == g && bb[i0] == b);
                }
                result.r.set_index(y * w + x, r);
                result.g.set_index(y * w + x, g);
                result.b.set_index(y * w + x, b);
                x = x + 1;
            }
            proof {
                assert(y * w + w == (y + 1) * w) by (nonlinear_arith);
            }
            y = y + 1;
        }
        proof {
            assert(h * w == w * h) by (nonlinear_arith);
            assert(rr.len() == w * h && gg.len() == w * h && bb.len() == w * h);
            assert(result.r@.0 =~= rr);
            assert(result.g@.0 =~= gg);
            assert(result.b@.0 =~= bb);
        }
    }

    /// The color image of the frame: its levels copied under no filter, demosaiced under
    /// a two-row one.
    pub fn demosaic_into(&self, dst_img: &mut Image)
        requires
            self.wf(),
            is_bayer(self.filter()) ==> self@.1 >= 2 && self@.2 >= 2,
        ensures
            !is_bayer(self.filter()) ==> final(dst_img).model() == (ImageModel {
                l: self@,
                r: empty_layer(),
                g: empty_layer(),
                b: empty_layer(),
                zero: self.offset_level(),
                max_value: self.max_level(),
            }),
            is_bayer(self.filter()) ==> final(dst_img).model() == (ImageModel {
                l: empty_layer(),
                r: (demosaic_channel(self@.0, self@.1 as int, self@.2 as int, self.filter(), 0), self@.1, self@.2),
                g: (demosaic_channel(self@.0, self@.1 as int, self@.2 as int, self.filter(), 1), self@.1, self@.2),
                b: (demosaic_channel(self@.0, self@.1 as int, self@.2 as int, self.filter(), 2), self@.1, self@.2),
                zero: self.offset_level(),
                max_value: self.max_level(),
            }),
    {
        match self.cfa {
            CfaType::Mono => self.copy_into_monochrome(dst_img),
            _ => self.demosaic_linear(dst_img),
        }
    }
}

/// Why a master frame cannot calibrate a frame.
#[derive(Debug, Copy, Clone, PartialEq, Eq, Structural)]
pub enum CalibrError {
    /// The master frame is of another kind; it holds the kind found.
    WrongFrameType(FrameType),
    /// The sizes differ: the frame's, then the master's.
    DifferentSizes(usize, usize, usize, usize),
    /// The color filters differ: the frame's, then the master's.
    DifferentCfa(CfaType, CfaType),
}

/// The first reason why a master frame cannot calibrate a frame, if any: its kind is
/// not one of `types`, its size differs, or its filter does.
pub open spec fn compat_error(frame: &RawImage, master: &RawImage, types: Seq<FrameType>) -> Option<CalibrError> {
    if !types.contains(master.kind()) {
        Some(CalibrError::WrongFrameType(master.kind()))
    } else if frame@.1 != master@.1 || frame@.2 != master@.2 {
        Some(CalibrError::DifferentSizes(frame@.1, frame@.2, master@.1, master@.2))
    } else if frame.filter() != master.filter() {
        Some(CalibrError::DifferentCfa(frame.filter(), master.filter()))
    } else {
        None
    }
}

/// Mean level, rounded down.
pub open spec fn mean_level(d: Seq<u16>) -> int {
    sum_run(d, 0, d.len() as int) / (d.len() as int)
}

/// A level cut to the range of 16 bits.
pub open spec fn clamp16(v: int) -> u16 {
    (if v < 0 {
        0
    } else if v > 65535 {
        65535
    } else {
        v
    }) as u16
}

/// `x / d` rounded toward zero, as integer division does (`d` not zero).
pub open spec fn div_toward_zero(x: int, d: int) -> int {
    let q = (if x >= 0 { x } else { -x }) / (if d >= 0 { d } else { -d });
    if (x >= 0) == (d > 0) {
        q
    } else {
        -q
    }
}

/// A frame with a dark subtracted, its mean kept.
pub open spec fn dark_subtracted(d: Seq<u16>, dark: Seq<u16>) -> Seq<u16> {
    let diff = mean_level(d) - mean_level(dark);
    Seq::new(d.len(), |i: int| clamp16(d[i] - dark[i] + diff))
}

/// A frame divided by a flat: each level above the black level scaled by the full range
/// over the flat's level above its black level.
pub open spec fn flat_applied(d: Seq<u16>, zero: int, flat: Seq<u16>, flat_zero: int) -> Seq<u16> {
    Seq::new(d.len(), |i: int| clamp16(div_toward_zero((d[i] - zero) * 65535, flat[i] - flat_zero) + zero))
}

fn sum_levels(d: &Vec<u16>) -> (r: u64)
    requires
        d@.len() * 65535 <= i64::MAX,
    ensures
        r == sum_run(d@, 0, d@.len() as int),
        r <= 65535 * d@.len(),
{
    let n = d.len();
    let mut sum: u64 = 0;
    let mut i: usize = 0;
    while i < n
        invariant
            n == d@.len(),
            n * 65535 <= i64::MAX,
            i <= n,
            sum == sum_run(d@, 0, i as int),
            0 <= sum <= 65535 * i,
        decreases n - i,
    {
        proof {
            assert(65535 * i + 65535 <= 65535 * n) by (nonlinear_arith)
                requires i < n;
        }
        sum = sum + d[i] as u64;
        i = i + 1;
    }
    sum
}

impl RawImage {
    fn check_master_frame_is_compatible(&self, master_frame: &RawImage, frame_types: &[FrameType]) -> (r: Result<(), CalibrError>)
        ensures
            r == match compat_error(self, master_frame, frame_types@) {
                Some(e) => Err::<(), CalibrError>(e),
                None => Ok(()),
            },
    {
        let mut found = false;
        let mut i: usize = 0;
        while i < frame_types.len()
            invariant
                i <= frame_types@.len(),
                found == (exists|j: int| 0 <= j < i && frame_types@[j] == master_frame.frame_type),
            decreases frame_types@.len() - i,
        {
            if frame_types[i] == master_frame.frame_type {
                found = true;
            }
            i = i + 1;
        }
        if !found {
            proof {
                assert(!frame_types@.contains(master_frame.frame_type));
            }
            return Err(CalibrError::WrongFrameType(master_frame.frame_type));
        }
        proof {
            let j = choose|j: int| 0 <= j < frame_types@.len() && frame_types@[j] == master_frame.frame_type;
            assert(frame_types@.contains(master_frame.frame_type));
        }
        if self.width != master_frame.width || self.height != master_frame.height {
            return Err(
                CalibrError::DifferentSizes(
                    self.width,
                    self.height,
                    master_frame.width,
                    master_frame.height,
                ),
            );
        }
        if self.cfa != master_frame.cfa {
            return Err(CalibrError::DifferentCfa(self.cfa, master_frame.cfa));
        }
        Ok(())
    }

    /// Subtracts a master dark or bias frame: each level less the dark's, plus the
    /// difference of the means, cut to 16 bits; the black level moves by that difference.
    pub fn subtract_dark_or_bias(&mut self, dark: &RawImage) -> (r: Result<(), CalibrError>)
        requires
            old(self).wf(),
            dark.wf(),
            old(self)@.0.len() * 65535 <= i64::MAX,
            compat_error(old(self), dark, seq![FrameType::Darks, FrameType::Biases]) is None ==> {
                &&& old(self)@.0.len() > 0
                &&& i32::MIN <= old(self).offset_level() + mean_level(old(self)@.0) - mean_level(dark@.0) <= i32::MAX
            },
        ensures
            match compat_error(old(self), dark, seq![FrameType::Darks, FrameType::Biases]) {
                Some(e) => r == Err::<(), CalibrError>(e) && *final(self) == *old(self),
                None => {
                    &&& r is Ok
                    &&& final(self)@ == (dark_subtracted(old(self)@.0, dark@.0), old(self)@.1, old(self)@.2)
                    &&& final(self).offset_level() == old(self).offset_level() + mean_level(old(self)@.0) - mean_level(dark@.0)
                    &&& final(self).max_level() == old(self).max_level()
                    &&& final(self).filter() == old(self).filter()
                    &&& final(self).kind() == old(self).kind()
                },
            },
    {
        let types = [FrameType::Darks, FrameType::Biases];
        proof {
            assert(types@ =~= seq![FrameType::Darks, FrameType::Biases]);
        }
        let res = self.check_master_frame_is_compatible(dark, &types);
        if let Err(e) = res {
            return Err(e);
        }
        let n = self.data.len();
        proof {
            assert(dark@.0.len() == n);
        }
        let dark_sum = sum_levels(&dark.data);
        let raw_sum = sum_levels(&self.data);
        proof {
            lemma_mean_bound(dark@.0);
            lemma_mean_bound(self@.0);
        }
        let dark_q = dark_sum / n as u64;
        let raw_q = raw_sum / n as u64;
        proof {
            assert(dark_q <= 65535) by (nonlinear_arith)
                requires dark_q == dark_sum / (n as u64), dark_sum <= 65535 * n, n > 0;
            assert(raw_q <= 65535) by (nonlinear_arith)
                requires raw_q == raw_sum / (n as u64), raw_sum <= 65535 * n, n > 0;
        }
        let dark_aver = dark_q as i32;
        let raw_aver = raw_q as i32;
        let diff = raw_aver - dark_aver;
        let ghost d0 = self.data@;
        proof {
            assert(d0 == old(self)@.0);
        }
        let mut i: usize = 0;
        while i < n
            invariant
                n == self.data@.len(),
                n == dark.data@.len(),
                d0.len() == n,
                diff == mean_level(d0) - mean_level(dark@.0),
                -65535 <= diff <= 65535,
                i32::MIN <= self.offset + diff <= i32::MAX,
                self.offset == old(self).offset,
                self.max_value == old(self).max_value,
                self.cfa == old(self).cfa,
                self.frame_type == old(self).frame_type,
                self.width == old(self).width,
                self.height == old(self).height,
                i <= n,
                forall|j: int| 0 <= j < i ==> #[trigger] self.data@[j] == dark_subtracted(d0, dark@.0)[j],
                forall|j: int| i <= j < n ==> #[trigger] self.data@[j] == d0[j],
            decreases n - i,
        {
            let mut value = self.data[i] as i32;
            let dark_value = dark.data[i] as i32;
            value = value - dark_value;
            value = value + diff;
            if value < 0 {
                value = 0;
            }
            if value > 65535 {
                value = 65535;
            }
            self.data.set(i, value as u16);
            i = i + 1;
        }
        proof {
            assert(self.data@ =~= dark_subtracted(d0, dark@.0));
        }
        self.offset = self.offset + diff;
        Ok(())
    }

    /// Divides by a master flat frame: each level above the black level times 65535 over
    /// the flat's level above its own black level, plus the black level, cut to 16 bits.
    pub fn apply_flat(&mut self, flat: &RawImage) -> (r: Result<(), CalibrError>)
        requires
            old(self).wf(),
            flat.wf(),
            compat_error(old(self), flat, seq![FrameType::Flats]) is None ==> forall|i: int|
                0 <= i < flat@.0.len() ==> #[trigger] flat@.0[i] != flat.offset_level(),
        ensures
            match compat_error(old(self), flat, seq![FrameType::Flats]) {
                Some(e) => r == Err::<(), CalibrError>(e) && *final(self) == *old(self),
                None => {
                    &&& r is Ok
                    &&& final(self)@ == (
                        flat_applied(old(self)@.0, old(self).offset_level() as int, flat@.0, flat.offset_level() as int),
                        old(self)@.1,
                        old(self)@.2,
                    )
                    &&& final(self).offset_level() == old(self).offset_level()
                    &&& final(self).max_level() == old(self).max_level()
                    &&& final(self).filter() == old(self).filter()
                    &&& final(self).kind() == old(self).kind()
                },
            },
    {
        let types = [FrameType::Flats];
        proof {
            assert(types@ =~= seq![FrameType::Flats]);
        }
        let res = self.check_master_frame_is_compatible(flat, &types);
        if let Err(e) = res {
            return Err(e);
        }
        let n = self.data.len();
        let zero = self.offset as i64;
        let flat_zero = flat.offset as i64;
        let ghost d0 = self.data@;
        proof {
            assert(d0 == old(self)@.0);
        }
        let ghost expected = flat_applied(d0, zero as int, flat@.0, flat_zero as int);
        let mut i: usize = 0;
        while i < n
            invariant
                n == self.data@.len(),
                n == flat.data@.len(),
                d0.len() == n,
                expected == flat_applied(d0, zero as int, flat@.0, flat_zero as int),
                zero == self.offset,
                flat_zero == flat.offset,
                self.offset == old(self).offset,
                self.max_value == old(self).max_value,
                self.cfa == old(self).cfa,
                self.frame_type == old(self).frame_type,
                self.width == old(self).width,
                self.height == old(self).height,
                forall|j: int| 0 <= j < n ==> #[trigger] flat@.0[j] != flat.offset,
                i <= n,
                forall|j: int| 0 <= j < i ==> #[trigger] self.data@[j] == expected[j],
                forall|j: int| i <= j < n ==> #[trigger] self.data@[j] == d0[j],
            decreases n - i,
        {
            let flat_value = flat.data[i] as i64 - flat_zero;
            let num = (self.data[i] as i64 - zero) * 65535;
            let q = div_i64(num, flat_value);
            let mut value = q + zero;
            if value < 0 {
                value = 0;
            }
            if value > 65535 {
                value = 65535;
            }
            self.data.set(i, value as u16);
            i = i + 1;
        }
        proof {
            assert(self.data@ =~= expected);
        }
        Ok(())
    }
}

proof fn lemma_mean_bound(d: Seq<u16>)
    requires
        d.len() > 0,
    ensures
        0 <= mean_level(d) <= 65535,
{
    crate::image::image::lemma_sum_run_bound_pub(d, 0, d.len() as int);
    let s = sum_run(d, 0, d.len() as int);
    let n = d.len() as int;
    assert(0 <= s / n <= 65535) by (nonlinear_arith)
        requires 0 <= s <= 65535 * n, n > 0;
}

/// Integer division rounded toward zero.
pub(crate) fn div_i64(x: i64, d: i64) -> (r: i64)
    requires
        d != 0,
        x != i64::MIN,
        d != i64::MIN,
    ensures
        r == div_toward_zero(x as int, d as int),
{
    let ax: u64 = if x >= 0 { x as u64 } else { (-x) as u64 };
    let ad: u64 = if d >= 0 { d as u64 } else { (-d) as u64 };
    let q = ax / ad;
    proof {
        assert(q <= ax) by (nonlinear_arith)
            requires q == ax / ad, ad >= 1;
    }
    if (x >= 0) == (d > 0) {
        q as i64
    } else {
        -(q as i64)
    }
}

proof fn lemma_win_sum_flat(d: Seq<u16>, v: u16, w: int, h: int, cfa: CfaType, x: int, y: int, c: CfaColor, k: int)
    requires
        w >= 0,
        d.len() == w * h,
        forall|i: int| 0 <= i < d.len() ==> d[i] == v,
    ensures
        win_sum(d, w, h, cfa, x, y, c, k) == v * win_count(w, h, cfa, x, y, c, k),
    decreases k,
{
    if k > 0 {
        lemma_win_sum_flat(d, v, w, h, cfa, x, y, c, k - 1);
        if win_match(w, h, cfa, x, y, c, k - 1) {
            let sx = x + win_offset(k - 1).0;
            let sy = y + win_offset(k - 1).1;
            assert(0 <= sy * w + sx < w * h) by (nonlinear_arith)
                requires 0 <= sx < w, 0 <= sy < h;
        }
        assert(v * win_count(w, h, cfa, x, y, c, k - 1) + v == v * (win_count(w, h, cfa, x, y, c, k - 1) + 1)) by (nonlinear_arith);
    }
}

/// A frame of one level everywhere demosaics into that level in every channel.
pub proof fn lemma_demosaic_flat(d: Seq<u16>, v: u16, w: int, h: int, cfa: CfaType, ch: int, i: int)
    requires
        w >= 2,
        h >= 2,
        d.len() == w * h,
        is_bayer(cfa),
        forall|j: int| 0 <= j < d.len() ==> d[j] == v,
        0 <= ch < 3,
        0 <= i < w * h,
    ensures
        demosaic_channel(d, w, h, cfa, ch)[i] == v,
{
    let x = i % w;
    let y = i / w;
    assert(0 <= x < w && 0 <= y < h) by (nonlinear_arith)
        requires x == i % w, y == i / w, 0 <= i < w * h, w >= 2;
    if 1 <= x < w - 1 && 1 <= y < h - 1 {
        assert forall|dx: int, dy: int| -1 <= dx <= 1 && -1 <= dy <= 1 implies #[trigger] level(d, w, x + dx, y + dy) == v by {
            assert(0 <= (y + dy) * w + x + dx < w * h) by (nonlinear_arith)
                requires 0 <= x + dx < w, 0 <= y + dy < h;
        }
        assert(level(d, w, x, y) == v) by {
            assert(level(d, w, x + 0, y + 0) == v);
        }
        assert(level(d, w, x - 1, y) == v) by {
            assert(level(d, w, x + -1, y + 0) == v);
        }
        assert(level(d, w, x + 1, y) == v) by {
            assert(level(d, w, x + 1, y + 0) == v);
        }
        assert(level(d, w, x, y - 1) == v) by {
            assert(level(d, w, x + 0, y + -1) == v);
        }
        assert(level(d, w, x, y + 1) == v) by {
            assert(level(d, w, x + 0, y + 1) == v);
        }
        assert(level(d, w, x - 1, y - 1) == v) by {
            assert(level(d, w, x + -1, y + -1) == v);
        }
        assert(level(d, w, x + 1, y - 1) == v) by {
            assert(level(d, w, x + 1, y + -1) == v);
        }
        assert(level(d, w, x - 1, y + 1) == v) by {
            assert(level(d, w, x + -1, y + 1) == v);
        }
        assert(level(d, w, x + 1, y + 1) == v);
        assert(cfa_color(cfa, x, y) != CfaColor::Mono);
    } else {
        let c = if ch == 0 {
            CfaColor::R
        } else if ch == 1 {
            CfaColor::G
        } else {
            CfaColor::B
        };
        lemma_window_has_color(w, h, cfa, x, y, c);
        lemma_win_sum_flat(d, v, w, h, cfa, x, y, c, 9);
        let n = win_count(w, h, cfa, x, y, c, 9);
        assert((v * n + n / 2) / n == v) by (nonlinear_arith)
            requires n >= 1;
    }
}

/// Offset `k` (0 to 24) of the 5x5 window around a pixel, row by row: `(dx, dy)`.
pub open spec fn win5_offset(k: int) -> (int, int) {
    (k % 5 - 2, k / 5 - 2)
}

/// How far a bad pixel looks for pixels of its color: one pixel for green and for no
/// filter, two for red and blue.
pub open spec fn repair_range(c: CfaColor) -> int {
    if c == CfaColor::G || c == CfaColor::Mono {
        1
    } else {
        2
    }
}

/// The pixel at offset `k` of the window around pixel `p` (an index) helps repair it:
/// within the range, inside the frame, of the same color and not to be repaired itself.
pub open spec fn repair_match(w: int, h: int, cfa: CfaType, bad: Set<int>, p: int, k: int) -> bool {
    let x = p % w;
    let y = p / w;
    let r = repair_range(cfa_color(cfa, x, y));
    let dx = win5_offset(k).0;
    let dy = win5_offset(k).1;
    let sx = x + dx;
    let sy = y + dy;
    &&& -r <= dx <= r
    &&& -r <= dy <= r
    &&& 0 <= sx < w
    &&& 0 <= sy < h
    &&& cfa_color(cfa, sx, sy) == cfa_color(cfa, x, y)
    &&& !bad.contains(sy * w + sx)
}

pub open spec fn repair_count(w: int, h: int, cfa: CfaType, bad: Set<int>, p: int, k: int) -> int
    decreases k,
{
    if k <= 0 {
        0
    } else {
        repair_count(w, h, cfa, bad, p, k - 1) + if repair_match(w, h, cfa, bad, p, k - 1) {
            1int
        } else {
            0
        }
    }
}

pub open spec fn repair_sum(d: Seq<u16>, w: int, h: int, cfa: CfaType, bad: Set<int>, p: int, k: int) -> int
    decreases k,
{
    if k <= 0 {
        0
    } else {
        repair_sum(d, w, h, cfa, bad, p, k - 1) + if repair_match(w, h, cfa, bad, p, k - 1) {
            d[(p / w + win5_offset(k - 1).1) * w + p % w + win5_offset(k - 1).0] as int
        } else {
            0
        }
    }
}

/// One round of repair: each bad pixel with good pixels of its color around it takes
/// their mean, rounded down, and is no longer bad; the others stay bad.
pub open spec fn repair_round(d: Seq<u16>, w: int, h: int, cfa: CfaType, bad: Set<int>) -> (Seq<u16>, Set<int>) {
    (
        Seq::new(
            d.len(),
            |i: int|
                if bad.contains(i) && repair_count(w, h, cfa, bad, i, 25) > 0 {
                    (repair_sum(d, w, h, cfa, bad, i, 25) / repair_count(w, h, cfa, bad, i, 25)) as u16
                } else {
                    d[i]
                },
        ),
        bad.filter(|i: int| repair_count(w, h, cfa, bad, i, 25) == 0),
    )
}

/// The levels and the bad pixels after `k` rounds of repair.
pub open spec fn repair_state(d: Seq<u16>, w: int, h: int, cfa: CfaType, bad: Set<int>, k: nat) -> (Seq<u16>, Set<int>)
    decreases k,
{
    if k == 0 {
        (d, bad)
    } else {
        let prev = repair_state(d, w, h, cfa, bad, (k - 1) as nat);
        repair_round(prev.0, w, h, cfa, prev.1)
    }
}

/// The levels after `k` rounds of repair.
pub open spec fn repair_rounds(d: Seq<u16>, w: int, h: int, cfa: CfaType, bad: Set<int>, k: nat) -> Seq<u16> {
    repair_state(d, w, h, cfa, bad, k).0
}

/// Indices of the bad pixels that lie inside a frame of `w` x `h`.
pub open spec fn bad_indices(pixels: Seq<BadPixel>, w: int, h: int) -> Set<int> {
    Set::new(|i: int| exists|j: int| 0 <= j < pixels.len() && 0 <= #[trigger] pixels[j].x < w && 0 <= pixels[j].y < h
        && i == pixels[j].y * w + pixels[j].x)
}

proof fn lemma_repair_bounds(d: Seq<u16>, w: int, h: int, cfa: CfaType, bad: Set<int>, p: int, k: int)
    requires
        w >= 1,
        d.len() == w * h,
    ensures
        0 <= repair_count(w, h, cfa, bad, p, k) <= (if k > 0 { k } else { 0 }),
        0 <= repair_sum(d, w, h, cfa, bad, p, k) <= 65535 * repair_count(w, h, cfa, bad, p, k),
    decreases k,
{
    if k > 0 {
        lemma_repair_bounds(d, w, h, cfa, bad, p, k - 1);
        if repair_match(w, h, cfa, bad, p, k - 1) {
            let x = p % w;
            let y = p / w;
            let sx = x + win5_offset(k - 1).0;
            let sy = y + win5_offset(k - 1).1;
            assert(0 <= sy * w + sx < w * h) by (nonlinear_arith)
                requires 0 <= sx < w, 0 <= sy < h;
        }
    }
}

/// A round of repair leaves the pixels that are not bad as they were.
pub proof fn lemma_repair_keeps_good(d: Seq<u16>, w: int, h: int, cfa: CfaType, bad: Set<int>, i: int)
    requires
        0 <= i < d.len(),
        !bad.contains(i),
    ensures
        repair_round(d, w, h, cfa, bad).0[i] == d[i],
        !repair_round(d, w, h, cfa, bad).1.contains(i),
{
}

proof fn lemma_push_contains<T>(s: Seq<T>, x: T)
    ensures
        forall|u: T| #[trigger] s.push(x).contains(u) <==> (s.contains(u) || u == x),
{
    assert forall|u: T| #[trigger] s.push(x).contains(u) <==> (s.contains(u) || u == x) by {
        if s.contains(u) {
            let k = choose|k: int| 0 <= k < s.len() && s[k] == u;
            assert(s.push(x)[k] == u);
        }
        if u == x {
            assert(s.push(x)[s.len() as int] == u);
        }
        if s.push(x).contains(u) {
            let k = choose|k: int| 0 <= k < s.push(x).len() && s.push(x)[k] == u;
            if k < s.len() {
                assert(s[k] == u);
            }
        }
    }
}

proof fn lemma_repair_sum_off_bad(
    d1: Seq<u16>,
    d2: Seq<u16>,
    w: int,
    h: int,
    cfa: CfaType,
    bad: Set<int>,
    p: int,
    k: int,
)
    requires
        w >= 1,
        d1.len() == w * h,
        d2.len() == w * h,
        forall|i: int| 0 <= i < d1.len() && !bad.contains(i) ==> d1[i] == d2[i],
    ensures
        repair_sum(d1, w, h, cfa, bad, p, k) == repair_sum(d2, w, h, cfa, bad, p, k),
    decreases k,
{
    if k > 0 {
        lemma_repair_sum_off_bad(d1, d2, w, h, cfa, bad, p, k - 1);
        if repair_match(w, h, cfa, bad, p, k - 1) {
            let x = p % w;
            let y = p / w;
            let sx = x + win5_offset(k - 1).0;
            let sy = y + win5_offset(k - 1).1;
            assert(0 <= sy * w + sx < w * h) by (nonlinear_arith)
                requires 0 <= sx < w, 0 <= sy < h;
        }
    }
}

proof fn lemma_repair_nothing_bad(d: Seq<u16>, w: int, h: int, cfa: CfaType, bad: Set<int>, k: nat)
    requires
        bad == Set::<int>::empty(),
    ensures
        repair_state(d, w, h, cfa, bad, k) == (d, bad),
    decreases k,
{
    if k > 0 {
        lemma_repair_nothing_bad(d, w, h, cfa, bad, (k - 1) as nat);
        let r = repair_round(d, w, h, cfa, bad);
        assert(r.0 =~= d);
        assert(r.1 =~= bad);
    }
}

proof fn lemma_repair_state_stays(d: Seq<u16>, w: int, h: int, cfa: CfaType, bad: Set<int>, k: nat, m: nat)
    requires
        k <= m,
        repair_state(d, w, h, cfa, bad, k).1 == Set::<int>::empty(),
    ensures
        repair_state(d, w, h, cfa, bad, m) == repair_state(d, w, h, cfa, bad, k),
    decreases m - k,
{
    if k < m {
        lemma_repair_state_stays(d, w, h, cfa, bad, k, (m - 1) as nat);
        let s = repair_state(d, w, h, cfa, bad, k);
        let r = repair_round(s.0, w, h, cfa, s.1);
        assert(r.0 =~= s.0);
        assert(r.1 =~= s.1);
    }
}

impl RawImage {
    /// Sum and count of the good pixels of the same color around bad pixel `p`.
    fn repair_value(&self, p: usize, mask: &Vec<bool>, Ghost(bad): Ghost<Set<int>>) -> (r: (u32, u32))
        requires
            self.wf(),
            self@.1 >= 1,
            p < self@.0.len(),
            mask@.len() == self@.0.len(),
            forall|i: int| 0 <= i < mask@.len() ==> (#[trigger] mask@[i] <==> bad.contains(i)),
        ensures
            r.1 == repair_count(self@.1 as int, self@.2 as int, self.cfa, bad, p as int, 25),
            r.0 == repair_sum(self@.0, self@.1 as int, self@.2 as int, self.cfa, bad, p as int, 25),
    {
        let w = self.width;
        let h = self.height;
        let n = self.data.len();
        let ghost (d, wi, hi) = (self@.0, w as int, h as int);
        let x = p % w;
        let y = p / w;
        proof {
            assert(0 <= x < w && y < h) by (nonlinear_arith)
                requires x == p % w, y == p / w, p < w * h, w >= 1;
        }
        let color = self.color_at(x, y);
        let range: i128 = if color == CfaColor::G || color == CfaColor::Mono { 1 } else { 2 };
        let mut sum: u32 = 0;
        let mut cnt: u32 = 0;
        let mut k: usize = 0;
        while k < 25
            invariant
                self.wf(),
                d == self@.0,
                wi == w,
                hi == h,
                w == self@.1,
                h == self@.2,
                n == w * h,
                w >= 1,
                x == (p as int) % wi,
                y == (p as int) / wi,
                x < w,
                y < h,
                color == cfa_color(self.cfa, x as int, y as int),
                range == repair_range(color),
                mask@.len() == n,
                forall|i: int| 0 <= i < mask@.len() ==> (#[trigger] mask@[i] <==> bad.contains(i)),
                k <= 25,
                cnt == repair_count(wi, hi, self.cfa, bad, p as int, k as int),
                sum == repair_sum(d, wi, hi, self.cfa, bad, p as int, k as int),
            decreases 25 - k,
        {
            proof {
                lemma_repair_bounds(d, wi, hi, self.cfa, bad, p as int, k as int);
            }
            let dx: i128 = (k % 5) as i128 - 2;
            let dy: i128 = (k / 5) as i128 - 2;
            let sx: i128 = x as i128 + dx;
            let sy: i128 = y as i128 + dy;
            if -range <= dx && dx <= range && -range <= dy && dy <= range && sx >= 0 && sy >= 0
                && sx < w as i128 && sy < h as i128 {
                proof {
                    assert(sy * w + sx < n) by (nonlinear_arith)
                        requires 0 <= sx < w, 0 <= sy < h, n == w * h;
                }
                let q = (sy as usize) * w + (sx as usize);
                if self.color_at(sx as usize, sy as usize) == color && !mask[q] {
                    sum = sum + self.data[q] as u32;
                    cnt = cnt + 1;
                }
            }
            k = k + 1;
        }
        (sum, cnt)
    }

    /// Repairs bad pixels, in up to three rounds (see `repair_round`); bad pixels outside
    /// the frame are passed over.
    pub fn remove_bad_pixels(&mut self, bad_pixels: &[BadPixel])
        requires
            old(self).wf(),
        ensures
            final(self)@ == (
                repair_rounds(
                    old(self)@.0,
                    old(self)@.1 as int,
                    old(self)@.2 as int,
                    old(self).filter(),
                    bad_indices(bad_pixels@, old(self)@.1 as int, old(self)@.2 as int),
                    3,
                ),
                old(self)@.1,
                old(self)@.2,
            ),
            final(self).wf(),
            final(self).offset_level() == old(self).offset_level(),
            final(self).max_level() == old(self).max_level(),
            final(self).filter() == old(self).filter(),
            final(self).kind() == old(self).kind(),
    {
        let w = self.width;
        let h = self.height;
        let n = self.data.len();
        let ghost wi = w as int;
        let ghost hi = h as int;
        let ghost bad0 = bad_indices(bad_pixels@, wi, hi);
        let mut mask: Vec<bool> = Vec::new();
        mask.resize(n, false);
        let mut list: Vec<usize> = Vec::new();
        let mut j: usize = 0;
        while j < bad_pixels.len()
            invariant
                n == w * h,
                wi == w,
                hi == h,
                mask@.len() == n,
                j <= bad_pixels@.len(),
                forall|i: int| 0 <= i < n ==> (#[trigger] mask@[i] <==> (exists|t: int| 0 <= t < j && 0 <= #[trigger] bad_pixels@[t].x < wi
                    && 0 <= bad_pixels@[t].y < hi && i == bad_pixels@[t].y * wi + bad_pixels@[t].x)),
                forall|t: int| 0 <= t < list@.len() ==> #[trigger] list@[t] < n && mask@[list@[t] as int],
                forall|u: usize| u < n && mask@[u as int] ==> #[trigger] list@.contains(u),
                list@.no_duplicates(),
            decreases bad_pixels@.len() - j,
        {
            let px = bad_pixels[j].x;
            let py = bad_pixels[j].y;
            if px >= 0 && py >= 0 && (px as usize) < w && (py as usize) < h {
                proof {
                    assert(py * w + px < n) by (nonlinear_arith)
                        requires 0 <= px < w, 0 <= py < h, n == w * h;
                }
                let q = (py as usize) * w + (px as usize);
                if !mask[q] {
                    let ghost old_list = list@;
                    mask.set(q, true);
                    list.push(q);
                    proof {
                        lemma_push_contains(old_list, q);
                        assert forall|a: int, b: int| 0 <= a < b < list@.len() implies list@[a] != list@[b] by {
                            if b == list@.len() - 1 {
                                assert(old_list.contains(list@[a]));
                            }
                        }
                    }
                }
            }
            j = j + 1;
        }
        proof {
            assert forall|u: usize| #[trigger] list@.contains(u) implies u < n && mask@[u as int] by {
                let t = choose|t: int| 0 <= t < list@.len() && list@[t] == u;
                assert(list@[t] < n && mask@[list@[t] as int]);
            }
            assert forall|i: int| 0 <= i < n implies (#[trigger] mask@[i] <==> bad0.contains(i)) by {
                if mask@[i] {
                    let t = choose|t: int| 0 <= t < j && 0 <= #[trigger] bad_pixels@[t].x < wi
                        && 0 <= bad_pixels@[t].y < hi && i == bad_pixels@[t].y * wi + bad_pixels@[t].x;
                    assert(bad0.contains(i));
                }
                if bad0.contains(i) {
                    let t = choose|t: int| 0 <= t < bad_pixels@.len() && 0 <= #[trigger] bad_pixels@[t].x < wi
                        && 0 <= bad_pixels@[t].y < hi && i == bad_pixels@[t].y * wi + bad_pixels@[t].x;
                }
            }
            assert forall|i: int| bad0.contains(i) implies 0 <= i < n by {
                let t = choose|t: int| 0 <= t < bad_pixels@.len() && 0 <= #[trigger] bad_pixels@[t].x < wi
                    && 0 <= bad_pixels@[t].y < hi && i == bad_pixels@[t].y * wi + bad_pixels@[t].x;
                let xx = bad_pixels@[t].x as int;
                let yy = bad_pixels@[t].y as int;
                assert(0 <= yy * wi + xx < n) by (nonlinear_arith)
                    requires 0 <= xx < wi, 0 <= yy < hi, n == wi * hi;
            }
        }
        if w == 0 {
            proof {
                assert(bad0 =~= Set::<int>::empty());
                lemma_repair_nothing_bad(self@.0, wi, hi, self.cfa, bad0, 3);
            }
            return;
        }
        let ghost d0 = self@.0;
        let ghost mut bad = bad0;
        let mut step: usize = 0;
        while step < 3
            invariant_except_break
                step <= 3,
                (self@.0, bad) == repair_state(d0, wi, hi, self.cfa, bad0, step as nat),
            invariant
                self.wf(),
                w >= 1,
                wi == w,
                hi == h,
                w == self.width,
                h == self.height,
                n == w * h,
                self@.0.len() == n,
                self.offset == old(self).offset,
                self.max_value == old(self).max_value,
                self.cfa == old(self).cfa,
                self.frame_type == old(self).frame_type,
                self.width == old(self).width,
                self.height == old(self).height,
                d0 == old(self)@.0,
                mask@.len() == n,
                forall|i: int| 0 <= i < n ==> (#[trigger] mask@[i] <==> bad.contains(i)),
                forall|i: int| bad.contains(i) ==> 0 <= i < n,
                forall|u: usize| #[trigger] list@.contains(u) <==> bad.contains(u as int),
                forall|t: int| 0 <= t < list@.len() ==> #[trigger] list@[t] < n,
                list@.no_duplicates(),
            ensures
                self@.0 == repair_rounds(d0, wi, hi, self.cfa, bad0, 3),
            decreases 3 - step,
        {
            let ghost dstart = self@.0;
            let ghost round = repair_round(dstart, wi, hi, self.cfa, bad);
            let mut fixed: Vec<usize> = Vec::new();
            let mut remaining: Vec<usize> = Vec::new();
            let mut t: usize = 0;
            while t < list.len()
                invariant
                    self.wf(),
                    w >= 1,
                    wi == w,
                    hi == h,
                    w == self.width,
                    h == self.height,
                    n == w * h,
                    self@.0.len() == n,
                    dstart.len() == n,
                    round == repair_round(dstart, wi, hi, self.cfa, bad),
                    self.offset == old(self).offset,
                    self.max_value == old(self).max_value,
                    self.cfa == old(self).cfa,
                    self.frame_type == old(self).frame_type,
                    self.width == old(self).width,
                    self.height == old(self).height,
                    mask@.len() == n,
                    forall|i: int| 0 <= i < n ==> (#[trigger] mask@[i] <==> bad.contains(i)),
                    forall|i: int| bad.contains(i) ==> 0 <= i < n,
                    forall|u: usize| #[trigger] list@.contains(u) <==> bad.contains(u as int),
                    forall|s: int| 0 <= s < list@.len() ==> #[trigger] list@[s] < n,
                    list@.no_duplicates(),
                    t <= list@.len(),
                    forall|u: usize| u < n && !list@.take(t as int).contains(u) ==> #[trigger] self@.0[u as int] == dstart[u as int],
                    forall|u: usize| u < n && list@.take(t as int).contains(u) ==> #[trigger] self@.0[u as int] == round.0[u as int],
                    forall|u: usize| #[trigger] remaining@.contains(u) <==> (list@.take(t as int).contains(u) && round.1.contains(u as int)),
                    forall|u: usize| #[trigger] fixed@.contains(u) <==> (list@.take(t as int).contains(u) && !round.1.contains(u as int)),
                    forall|s: int| 0 <= s < fixed@.len() ==> #[trigger] fixed@[s] < n,
                    forall|s: int| 0 <= s < remaining@.len() ==> #[trigger] remaining@[s] < n,
                    remaining@.no_duplicates(),
                decreases list@.len() - t,
            {
                let p = list[t];
                proof {
                    assert(list@.contains(p));
                    assert(bad.contains(p as int));
                    lemma_repair_sum_off_bad(self@.0, dstart, wi, hi, self.cfa, bad, p as int, 25);
                    lemma_repair_bounds(dstart, wi, hi, self.cfa, bad, p as int, 25);
                    assert(list@.take(t + 1) =~= list@.take(t as int).push(p));
                    assert(!list@.take(t as int).contains(p)) by {
                        if list@.take(t as int).contains(p) {
                            let s = choose|s: int| 0 <= s < t && list@.take(t as int)[s] == p;
                            assert(list@[s] == list@[t as int]);
                        }
                    }
                }
                let (sum, cnt) = self.repair_value(p, &mask, Ghost(bad));
                let ghost old_fixed = fixed@;
                let ghost old_remaining = remaining@;
                proof {
                    lemma_push_contains(list@.take(t as int), p);
                    lemma_push_contains(old_fixed, p);
                    lemma_push_contains(old_remaining, p);
                    assert(round.1.contains(p as int) <==> cnt == 0);
                    if cnt != 0 {
                        assert(round.0[p as int] == (sum / cnt) as u16);
                    }
                }
                if cnt != 0 {
                    proof {
                        assert((sum as int) / (cnt as int) <= 65535) by (nonlinear_arith)
                            requires sum <= 65535 * cnt, cnt >= 1;
                    }
                    self.data.set(p, (sum / cnt) as u16);
                    fixed.push(p);
                } else {
                    remaining.push(p);
                    proof {
                        assert forall|a: int, b: int| 0 <= a < b < remaining@.len() implies remaining@[a] != remaining@[b] by {
                            if b == remaining@.len() - 1 {
                                assert(old_remaining.contains(remaining@[a]));
                            }
                        }
                    }
                }
                t = t + 1;
            }
            proof {
                assert(list@.take(list@.len() as int) =~= list@);
                assert(self@.0 =~= round.0);
                assert forall|u: usize| #[trigger] remaining@.contains(u) <==> round.1.contains(u as int) by {
                    if round.1.contains(u as int) {
                        assert(bad.contains(u as int));
                        assert(list@.contains(u));
                    }
                }
                assert forall|i: int| round.1.contains(i) implies 0 <= i < n by {
                    assert(bad.contains(i));
                }
            }
            let mut f: usize = 0;
            while f < fixed.len()
                invariant
                    mask@.len() == n,
                    forall|s: int| 0 <= s < fixed@.len() ==> #[trigger] fixed@[s] < n,
                    f <= fixed@.len(),
                    forall|u: usize| u < n ==> (#[trigger] mask@[u as int] <==> (bad.contains(u as int) && !fixed@.take(f as int).contains(u))),
                decreases fixed@.len() - f,
            {
                proof {
                    assert(fixed@.take(f + 1) =~= fixed@.take(f as int).push(fixed@[f as int]));
                    lemma_push_contains(fixed@.take(f as int), fixed@[f as int]);
                }
                mask.set(fixed[f], false);
                f = f + 1;
            }
            proof {
                assert(fixed@.take(fixed@.len() as int) =~= fixed@);
                assert forall|i: int| 0 <= i < n implies (#[trigger] mask@[i] <==> round.1.contains(i)) by {
                    let u = i as usize;
                    assert(mask@[u as int] <==> (bad.contains(u as int) && !fixed@.contains(u)));
                    if bad.contains(i) && !round.1.contains(i) {
                        assert(list@.contains(u));
                        assert(fixed@.contains(u));
                    }
                }
                let prev = repair_state(d0, wi, hi, self.cfa, bad0, step as nat);
                assert(prev == (dstart, bad));
                assert(repair_state(d0, wi, hi, self.cfa, bad0, (step + 1) as nat) == repair_round(prev.0, wi, hi, self.cfa, prev.1));
                bad = round.1;
            }
            list = remaining;
            step = step + 1;
            if list.len() == 0 {
                proof {
                    assert(bad =~= Set::<int>::empty()) by {
                        assert forall|i: int| !bad.contains(i) by {
                            if bad.contains(i) {
                                assert(0 <= i < n);
                                assert(list@.contains(i as usize));
                            }
                        }
                    }
                    lemma_repair_state_stays(d0, wi, hi, self.cfa, bad0, step as nat, 3);
                }
                break;
            }
        }
    }
}

/// Start of the seven levels a level of a line is compared with: the three on each side,
/// or the first or last seven near the ends.
pub open spec fn diff_window_start(i: int, w: int) -> int {
    if i < 3 {
        0
    } else if i > w - 4 {
        w - 7
    } else {
        i - 3
    }
}

/// Sum of `len` levels from `start`.
pub open spec fn level_sum(s: Seq<u16>, start: int, len: int) -> int
    decreases len,
{
    if len <= 0 {
        0
    } else {
        level_sum(s, start, len - 1) + s[start + len - 1] as int
    }
}

/// How much level `i` of a line stands above its six neighbors: six times the level less
/// their sum.
pub open spec fn line_diff(s: Seq<u16>, i: int) -> int {
    7 * s[i] as int - level_sum(s, diff_window_start(i, s.len() as int), 7)
}

/// Line `k` of a frame: row `k`, or column `k`.
pub open spec fn frame_line(d: Seq<u16>, w: int, h: int, columns: bool, k: int) -> Seq<u16> {
    if columns {
        Seq::new(h as nat, |i: int| d[i * w + k])
    } else {
        d.subrange(k * w, k * w + w)
    }
}

/// The positive differences of a line, in order.
pub open spec fn positive_diffs(s: Seq<u16>) -> Seq<i32> {
    Seq::new(s.len(), |i: int| line_diff(s, i) as i32).filter(|v: i32| v > 0)
}

/// Positive differences of every `step`-th line of the first `k` lines, line after line.
pub open spec fn frame_diffs(d: Seq<u16>, w: int, h: int, columns: bool, step: int, k: int) -> Seq<i32>
    decreases k,
{
    if k <= 0 {
        Seq::empty()
    } else if (k - 1) % step == 0 {
        frame_diffs(d, w, h, columns, step, k - 1) + positive_diffs(frame_line(d, w, h, columns, k - 1))
    } else {
        frame_diffs(d, w, h, columns, step, k - 1)
    }
}

/// Pixels of line `k` whose difference is above `border`, in order.
pub open spec fn line_hot(s: Seq<u16>, columns: bool, k: int, border: int) -> Seq<BadPixel> {
    Seq::new(s.len(), |i: int| i).filter(|i: int| line_diff(s, i) > border).map_values(
        |i: int|
            if columns {
                BadPixel { x: k as isize, y: i as isize }
            } else {
                BadPixel { x: i as isize, y: k as isize }
            },
    )
}

/// Pixels of the first `k` lines whose difference is above `border`, line after line.
pub open spec fn frame_hot(d: Seq<u16>, w: int, h: int, columns: bool, border: int, k: int) -> Seq<BadPixel>
    decreases k,
{
    if k <= 0 {
        Seq::empty()
    } else {
        frame_hot(d, w, h, columns, border, k - 1) + line_hot(frame_line(d, w, h, columns, k - 1), columns, k - 1, border)
    }
}

proof fn lemma_level_sum_bound(s: Seq<u16>, start: int, len: int)
    ensures
        0 <= level_sum(s, start, len) <= 65535 * (if len > 0 { len } else { 0 }),
    decreases len,
{
    if len > 0 {
        lemma_level_sum_bound(s, start, len - 1);
    }
}

proof fn lemma_filter_push<A>(s: Seq<A>, x: A, f: spec_fn(A) -> bool)
    ensures
        s.push(x).filter(f) == (if f(x) { s.filter(f).push(x) } else { s.filter(f) }),
{
    reveal(Seq::filter);
    assert(s.push(x).drop_last() =~= s);
}

/// Differences of each level of a line from its neighbors (see `line_diff`).
fn line_diffs(line: &[u16]) -> (r: Vec<i32>)
    requires
        line@.len() >= 7,
    ensures
        r@ == Seq::new(line@.len(), |i: int| line_diff(line@, i) as i32),
        forall|i: int| 0 <= i < line@.len() ==> #[trigger] r@[i] as int == line_diff(line@, i),
{
    let w = line.len();
    let mut r: Vec<i32> = Vec::new();
    let mut i: usize = 0;
    while i < w
        invariant
            w == line@.len(),
            w >= 7,
            i <= w,
            r@.len() == i,
            forall|j: int| 0 <= j < i ==> #[trigger] r@[j] as int == line_diff(line@, j),
        decreases w - i,
    {
        let start: usize = if i < 3 { 0 } else if i > w - 4 { w - 7 } else { i - 3 };
        let mut sum: i32 = 0;
        let mut k: usize = 0;
        while k < 7
            invariant
                w == line@.len(),
                start + 7 <= w,
                k <= 7,
                sum == level_sum(line@, start as int, k as int),
                0 <= sum <= 65535 * k,
            decreases 7 - k,
        {
            sum = sum + line[start + k] as i32;
            k = k + 1;
        }
        proof {
            assert(start == diff_window_start(i as int, w as int));
        }
        r.push(7 * line[i] as i32 - sum);
        i = i + 1;
    }
    proof {
        assert(r@ =~= Seq::new(line@.len(), |i: int| line_diff(line@, i) as i32));
    }
    r
}

impl RawImage {
    /// Line `k` of the frame: row `k`, or column `k`.
    fn line(&self, columns: bool, k: usize) -> (r: Vec<u16>)
        requires
            self.wf(),
            columns ==> k < self@.1,
            !columns ==> k < self@.2,
        ensures
            r@ == frame_line(self@.0, self@.1 as int, self@.2 as int, columns, k as int),
            r@.len() == (if columns { self@.2 } else { self@.1 }),
    {
        let w = self.width;
        let h = self.height;
        let n = self.data.len();
        let mut r: Vec<u16> = Vec::new();
        if columns {
            let mut i: usize = 0;
            while i < h
                invariant
                    self.wf(),
                    w == self@.1,
                    h == self@.2,
                    n == w * h,
                    k < w,
                    i <= h,
                    r@ =~= Seq::new(i as nat, |j: int| self@.0[j * w + k]),
                decreases h - i,
            {
                proof {
                    assert(i * w + k < n) by (nonlinear_arith)
                        requires i < h, k < w, n == w * h;
                }
                r.push(self.data[i * w + k]);
                i = i + 1;
            }
        } else {
            proof {
                assert(k * w + w <= n) by (nonlinear_arith)
                    requires k < h, n == w * h;
            }
            let row = self.row(k);
            let mut i: usize = 0;
            while i < w
                invariant
                    row@ == self@.0.subrange(k * w, k * w + w),
                    row@.len() == w,
                    w == self@.1,
                    i <= w,
                    r@ =~= row@.take(i as int),
                decreases w - i,
            {
                r.push(row[i]);
                i = i + 1;
            }
            proof {
                assert(row@.take(w as int) =~= row@);
            }
        }
        r
    }

    /// Positive differences of every `step`-th row (or column) of a dark frame, line
    /// after line (see `frame_diffs`), from which the border of hot pixels is found.
    pub fn dark_diffs(&self, columns: bool, step: usize) -> (r: Vec<i32>)
        requires
            self.wf(),
            step >= 1,
            columns ==> self@.2 >= 7,
            !columns ==> self@.1 >= 7,
        ensures
            r@ == frame_diffs(
                self@.0,
                self@.1 as int,
                self@.2 as int,
                columns,
                step as int,
                if columns { self@.1 as int } else { self@.2 as int },
            ),
    {
        let lines = if columns { self.width } else { self.height };
        let mut r: Vec<i32> = Vec::new();
        let mut k: usize = 0;
        while k < lines
            invariant
                self.wf(),
                step >= 1,
                columns ==> self@.2 >= 7,
                !columns ==> self@.1 >= 7,
                lines == (if columns { self@.1 } else { self@.2 }),
                k <= lines,
                r@ == frame_diffs(self@.0, self@.1 as int, self@.2 as int, columns, step as int, k as int),
            decreases lines - k,
        {
            if k % step == 0 {
                let line = self.line(columns, k);
                let diffs = line_diffs(line.as_slice());
                let ghost before = r@;
                let mut i: usize = 0;
                while i < diffs.len()
                    invariant
                        diffs@ == Seq::new(line@.len(), |j: int| line_diff(line@, j) as i32),
                        i <= diffs@.len(),
                        r@ == before + diffs@.take(i as int).filter(|v: i32| v > 0),
                    decreases diffs@.len() - i,
                {
                    proof {
                        assert(diffs@.take(i + 1) =~= diffs@.take(i as int).push(diffs@[i as int]));
                        lemma_filter_push(diffs@.take(i as int), diffs@[i as int], |v: i32| v > 0);
                    }
                    if diffs[i] > 0 {
                        r.push(diffs[i]);
                    }
                    i = i + 1;
                }
                proof {
                    assert(diffs@.take(diffs@.len() as int) =~= diffs@);
                }
            }
            k = k + 1;
        }
        r
    }

    /// Pixels of every row (or column) of a dark frame whose difference is above
    /// `border`, line after line (see `frame_hot`).
    pub fn dark_hot_pixels(&self, columns: bool, border: i32) -> (r: Vec<BadPixel>)
        requires
            self.wf(),
            columns ==> self@.2 >= 7,
            !columns ==> self@.1 >= 7,
            self@.1 <= isize::MAX,
            self@.2 <= isize::MAX,
        ensures
            r@ == frame_hot(
                self@.0,
                self@.1 as int,
                self@.2 as int,
                columns,
                border as int,
                if columns { self@.1 as int } else { self@.2 as int },
            ),
    {
        let lines = if columns { self.width } else { self.height };
        let mut r: Vec<BadPixel> = Vec::new();
        let mut k: usize = 0;
        while k < lines
            invariant
                self.wf(),
                columns ==> self@.2 >= 7,
                !columns ==> self@.1 >= 7,
                self@.1 <= isize::MAX,
                self@.2 <= isize::MAX,
                lines == (if columns { self@.1 } else { self@.2 }),
                k <= lines,
                r@ == frame_hot(self@.0, self@.1 as int, self@.2 as int, columns, border as int, k as int),
            decreases lines - k,
        {
            let line = self.line(columns, k);
            let diffs = line_diffs(line.as_slice());
            let ghost before = r@;
            let ghost idxs = Seq::new(line@.len(), |j: int| j);
            let ghost pick = |i: int| line_diff(line@, i) > border as int;
            let ghost to_px = |i: int|
                if columns {
                    BadPixel { x: k as isize, y: i as isize }
                } else {
                    BadPixel { x: i as isize, y: k as isize }
                };
            let mut i: usize = 0;
            while i < diffs.len()
                invariant
                    diffs@ == Seq::new(line@.len(), |j: int| line_diff(line@, j) as i32),
                    forall|j: int| 0 <= j < line@.len() ==> #[trigger] diffs@[j] as int == line_diff(line@, j),
                    idxs == Seq::new(line@.len(), |j: int| j),
                    line@.len() <= isize::MAX,
                    k <= isize::MAX,
                    pick == (|i: int| line_diff(line@, i) > border as int),
                    to_px == (|i: int|
                        if columns {
                            BadPixel { x: k as isize, y: i as isize }
                        } else {
                            BadPixel { x: i as isize, y: k as isize }
                        }),
                    i <= diffs@.len(),
                    r@ == before + idxs.take(i as int).filter(pick).map_values(to_px),
                decreases diffs@.len() - i,
            {
                proof {
                    assert(idxs.take(i + 1) =~= idxs.take(i as int).push(i as int));
                    lemma_filter_push(idxs.take(i as int), i as int, pick);
                    assert(pick(i as int) == (diffs@[i as int] > border));
                }
                if diffs[i] > border {
                    let px = if columns {
                        BadPixel { x: k as isize, y: i as isize }
                    } else {
                        BadPixel { x: i as isize, y: k as isize }
                    };
                    r.push(px);
                    proof {
                        let f = idxs.take(i as int).filter(pick);
                        assert(f.push(i as int).map_values(to_px) =~= f.map_values(to_px).push(to_px(i as int)));
                    }
                }
                i = i + 1;
            }
            proof {
                assert(idxs.take(idxs.len() as int) =~= idxs);
            }
            k = k + 1;
        }
        r
    }
}

/// First row that holds pixels of color `c`: 0 for no filter or when the first row of
/// the pattern holds it, else 1.
pub open spec fn color_first_row(cfa: CfaType, c: CfaColor) -> int {
    let rows = cfa_rows(cfa);
    if c == CfaColor::Mono {
        0
    } else if rows[0]@[0] == c || rows[0]@[1] == c {
        0
    } else {
        1
    }
}

/// The filter has pixels of color `c`.
pub open spec fn has_color(cfa: CfaType, c: CfaColor) -> bool {
    let rows = cfa_rows(cfa);
    c == CfaColor::Mono || rows[0]@[0] == c || rows[0]@[1] == c || (rows.len() > 1 && (rows[1]@[0] == c
        || rows[1]@[1] == c))
}

/// First column of row `y` under color `c`: 0 when the row starts with it, else 1.
pub open spec fn color_first_col(cfa: CfaType, c: CfaColor, y: int) -> int {
    if cfa_color(cfa, 0, y) == c {
        0
    } else {
        1
    }
}

/// The levels of row `y` from column `x0` on, every `step`-th one.
pub open spec fn row_samples(d: Seq<u16>, w: int, y: int, x0: int, step: int) -> Seq<u16> {
    let n = if x0 >= w { 0 } else { (w - x0 + step - 1) / step };
    Seq::new(n as nat, |k: int| d[y * w + x0 + k * step])
}

/// For each sample above both neighbors, how far it stands above their mean (rounded
/// down), in order.
pub open spec fn peaks(s: Seq<u16>) -> Seq<u16>
    decreases s.len(),
{
    if s.len() < 3 {
        Seq::empty()
    } else {
        let prev = peaks(s.drop_last());
        let (v1, v2, v3) = (s[s.len() - 3], s[s.len() - 2], s[s.len() - 1]);
        if v2 > v1 && v2 > v3 {
            prev.push((v2 - (v1 + v3) / 2) as u16)
        } else {
            prev
        }
    }
}

/// Peaks of the rows `y0, y0 + ystep, ...` before row `y`.
pub open spec fn light_diffs(d: Seq<u16>, w: int, cfa: CfaType, c: CfaColor, xstep: int, y0: int, ystep: int, y: int) -> Seq<u16>
    decreases y,
{
    if y <= y0 || y <= 0 {
        Seq::empty()
    } else if (y - 1 - y0) % ystep == 0 {
        light_diffs(d, w, cfa, c, xstep, y0, ystep, y - 1) + peaks(row_samples(d, w, y - 1, color_first_col(cfa, c, y - 1), xstep))
    } else {
        light_diffs(d, w, cfa, c, xstep, y0, ystep, y - 1)
    }
}

/// How many samples of `d` have level `v`.
pub open spec fn count_of(d: Seq<u16>, v: int) -> int {
    level_count(d, 1, v, d.len() as int)
}

/// The level of the `n`-th sample (from 0) of `d` in level order, looking from level
/// `idx` on; 65535 when there are not that many.
pub open spec fn kth_level(d: Seq<u16>, n: int, idx: int) -> int
    decreases 65536 - idx,
{
    if idx >= 65536 || idx < 0 {
        65535
    } else if n < count_of(d, idx) {
        idx
    } else {
        kth_level(d, n - count_of(d, idx), idx + 1)
    }
}

/// Counts of each level among the samples (see `count_of`).
fn counts_of(data: &[u16]) -> (r: Vec<u64>)
    ensures
        r@.len() == 65536,
        forall|v: int| 0 <= v < 65536 ==> #[trigger] r@[v] == count_of(data@, v),
{
    let mut res: Vec<u64> = Vec::new();
    res.resize(65536, 0u64);
    let n = data.len();
    let mut i: usize = 0;
    while i < n
        invariant
            n == data@.len(),
            res@.len() == 65536,
            i <= n,
            forall|v: int| 0 <= v < 65536 ==> #[trigger] res@[v] == level_count(data@, 1, v, i as int),
            forall|v: int| 0 <= v < 65536 ==> #[trigger] res@[v] <= i,
        decreases n - i,
    {
        proof {
            assert forall|v: int| 0 <= v < 65536 implies #[trigger] level_count(data@, 1, v, i + 1) == level_count(data@, 1, v, i as int) + if data@[i as int] == v {
                1int
            } else {
                0
            } by {}
        }
        let v = data[i] as usize;
        let c = res[v];
        res.set(v, c + 1);
        i = i + 1;
    }
    res
}

/// The level of the `n`-th sample in level order (see `kth_level`).
fn kth_of(data: &[u16], n: usize) -> (r: u16)
    ensures
        r == kth_level(data@, n as int, 0),
{
    let counts = counts_of(data);
    let mut k: u64 = n as u64;
    let mut idx: usize = 0;
    while idx < 65536
        invariant
            counts@.len() == 65536,
            forall|v: int| 0 <= v < 65536 ==> #[trigger] counts@[v] == count_of(data@, v),
            idx <= 65536,
            kth_level(data@, k as int, idx as int) == kth_level(data@, n as int, 0),
        decreases 65536 - idx,
    {
        let c = counts[idx];
        if k < c {
            return idx as u16;
        }
        k = k - c;
        idx = idx + 1;
    }
    65535
}

/// Border of the peaks of hot pixels: one and a half times the 99th percentile of the
/// peaks, at least a thousandth of the largest level, at most half the 16-bit range.
pub open spec fn hot_border(diffs: Seq<u16>, max_value: u16) -> int {
    let pct = kth_level(diffs, (99 * diffs.len() / 100) as int, 0);
    let b = 150 * pct / 100;
    let lo = max_value / 1000;
    let b1 = if b > lo { b } else { lo as int };
    if b1 < 32767 { b1 } else { 32767 }
}

/// Point `k` (0 to 7) of the ring at distance `offset` around `(x, x)`: row by row,
/// the center left out. (Both coordinates come from the column.)
pub open spec fn ring_point(x: int, offset: int, k: int) -> (int, int) {
    let j = if k < 4 { k } else { k + 1 };
    (x + (j % 3 - 1) * offset, x + (j / 3 - 1) * offset)
}

pub open spec fn ring_inside(w: int, h: int, x: int, offset: int, k: int) -> bool {
    let p = ring_point(x, offset, k);
    0 <= p.0 < w && 0 <= p.1 < h
}

pub open spec fn ring_count(w: int, h: int, x: int, offset: int, k: int) -> int
    decreases k,
{
    if k <= 0 {
        0
    } else {
        ring_count(w, h, x, offset, k - 1) + if ring_inside(w, h, x, offset, k - 1) { 1int } else { 0 }
    }
}

pub open spec fn ring_sum(d: Seq<u16>, w: int, h: int, x: int, offset: int, k: int) -> int
    decreases k,
{
    if k <= 0 {
        0
    } else {
        ring_sum(d, w, h, x, offset, k - 1) + if ring_inside(w, h, x, offset, k - 1) {
            let p = ring_point(x, offset, k - 1);
            d[p.1 * w + p.0] as int
        } else {
            0
        }
    }
}

/// The smaller of 65535 and the means of the rings at distances 4 and 6 that hold
/// pixels of the frame.
pub open spec fn ring_min(d: Seq<u16>, w: int, h: int, x: int) -> int {
    let c4 = ring_count(w, h, x, 4, 8);
    let c6 = ring_count(w, h, x, 6, 8);
    let m4 = if c4 > 0 { ring_sum(d, w, h, x, 4, 8) / c4 } else { 65535 };
    let m6 = if c6 > 0 { ring_sum(d, w, h, x, 6, 8) / c6 } else { 65535 };
    let m = if m4 < 65535 { m4 } else { 65535 };
    if m6 < m { m6 } else { m }
}

/// The sample `p` between `v1` and `v2`, at column `x`, is a hot pixel: above both by more
/// than the border, and rising from each neighbor more than twice as much as the neighbor
/// rises from the ring minimum.
pub open spec fn is_light_hot(d: Seq<u16>, w: int, h: int, x: int, v1: int, p: int, v2: int, border: int) -> bool {
    let m = ring_min(d, w, h, x);
    &&& p > v1 && p > v2
    &&& p - v1 > border && p - v2 > border
    &&& p - v1 > 2 * (v1 - m)
    &&& p - v2 > 2 * (v2 - m)
}

/// Hot pixels among the first `n` samples of row `y` taken from column `x0` every `step`.
pub open spec fn row_hot(d: Seq<u16>, w: int, h: int, y: int, x0: int, step: int, border: int, n: int) -> Seq<BadPixel>
    decreases n,
{
    if n < 3 {
        Seq::empty()
    } else {
        let prev = row_hot(d, w, h, y, x0, step, border, n - 1);
        let s = row_samples(d, w, y, x0, step);
        let x = x0 + (n - 2) * step;
        if is_light_hot(d, w, h, x, s[n - 3] as int, s[n - 2] as int, s[n - 1] as int, border) {
            prev.push(BadPixel { x: x as isize, y: y as isize })
        } else {
            prev
        }
    }
}

/// Hot pixels of the rows `y0, y0 + ystep, ...` before row `y`.
pub open spec fn light_hot(d: Seq<u16>, w: int, h: int, cfa: CfaType, c: CfaColor, xstep: int, y0: int, ystep: int, border: int, y: int) -> Seq<BadPixel>
    decreases y,
{
    if y <= y0 || y <= 0 {
        Seq::empty()
    } else if (y - 1 - y0) % ystep == 0 {
        let x0 = color_first_col(cfa, c, y - 1);
        light_hot(d, w, h, cfa, c, xstep, y0, ystep, border, y - 1) + row_hot(
            d,
            w,
            h,
            y - 1,
            x0,
            xstep,
            border,
            row_samples(d, w, y - 1, x0, xstep).len() as int,
        )
    } else {
        light_hot(d, w, h, cfa, c, xstep, y0, ystep, border, y - 1)
    }
}

/// Hot pixels of color `c` of a light frame: none when no row has a peak; else those above
/// the border found from the peaks of every fourth row of that color.
pub open spec fn color_hot(raw: &RawImage, c: CfaColor, xstep: int, ystep: int) -> Seq<BadPixel> {
    let (d, w, h) = (raw@.0, raw@.1 as int, raw@.2 as int);
    let y0 = color_first_row(raw.filter(), c);
    let diffs = light_diffs(d, w, raw.filter(), c, xstep, y0, 4 * ystep, h);
    if diffs.len() == 0 {
        Seq::empty()
    } else {
        light_hot(d, w, h, raw.filter(), c, xstep, y0, ystep, hot_border(diffs, raw.max_level()), h)
    }
}

/// Hot pixels of a light frame: red, green and blue in turn under a filter, else all.
pub open spec fn light_hot_pixels(raw: &RawImage) -> Seq<BadPixel> {
    if raw.filter() != CfaType::Mono {
        color_hot(raw, CfaColor::R, 2, 2) + color_hot(raw, CfaColor::G, 2, 1) + color_hot(raw, CfaColor::B, 2, 2)
    } else {
        color_hot(raw, CfaColor::Mono, 1, 1)
    }
}

proof fn lemma_sample_count(w: int, x0: int, step: int, k: int)
    requires
        step >= 1,
        0 <= x0,
        k >= 0,
        x0 + k * step >= w,
        k == 0 || x0 + (k - 1) * step < w,
    ensures
        k == (if x0 >= w { 0 } else { (w - x0 + step - 1) / step }),
{
    if x0 < w {
        assert(k == (w - x0 + step - 1) / step) by (nonlinear_arith)
            requires step >= 1, x0 < w, k >= 0, x0 + k * step >= w, k == 0 || x0 + (k - 1) * step < w;
    } else {
        assert(k == 0) by (nonlinear_arith)
            requires step >= 1, x0 >= w, k >= 0, k == 0 || x0 + (k - 1) * step < w;
    }
}

/// Levels of a list of samples with their peaks (see `peaks`).
fn peaks_of(s: &Vec<u16>) -> (r: Vec<u16>)
    ensures
        r@ == peaks(s@),
{
    let n = s.len();
    let mut r: Vec<u16> = Vec::new();
    if n < 3 {
        return r;
    }
    let mut k: usize = 3;
    proof {
        assert(s@.take(3).drop_last().len() < 3);
        assert(peaks(s@.take(2)) == Seq::<u16>::empty());
        assert(s@.take(3).drop_last() =~= s@.take(2));
    }
    let v1 = s[0];
    let v2 = s[1];
    let v3 = s[2];
    if v2 > v1 && v2 > v3 {
        r.push(v2 - ((v1 as u32 + v3 as u32) / 2) as u16);
    }
    while k < n
        invariant
            n == s@.len(),
            3 <= k <= n,
            r@ == peaks(s@.take(k as int)),
        decreases n - k,
    {
        proof {
            assert(s@.take(k + 1).drop_last() =~= s@.take(k as int));
        }
        let v1 = s[k - 2];
        let v2 = s[k - 1];
        let v3 = s[k];
        if v2 > v1 && v2 > v3 {
            r.push(v2 - ((v1 as u32 + v3 as u32) / 2) as u16);
        }
        k = k + 1;
    }
    proof {
        assert(s@.take(n as int) =~= s@);
    }
    r
}

impl RawImage {
    /// Levels of row `y` from column `x0` on, every `step`-th one.
    fn samples(&self, y: usize, x0: usize, step: usize) -> (r: Vec<u16>)
        requires
            self.wf(),
            y < self@.2,
            x0 <= 1,
            step >= 1,
            step <= 2,
            self@.1 <= isize::MAX,
        ensures
            r@ == row_samples(self@.0, self@.1 as int, y as int, x0 as int, step as int),
    {
        let w = self.width;
        let row = self.row(y);
        let mut r: Vec<u16> = Vec::new();
        let mut x = x0;
        let mut k: usize = 0;
        while x < w
            invariant
                row@ == self@.0.subrange(y * self@.1, y * self@.1 + self@.1),
                w == self@.1,
                row@.len() == w,
                self.wf(),
                y < self@.2,
                x0 <= 1,
                1 <= step <= 2,
                w <= isize::MAX,
                x == x0 + k * step,
                x <= w + 1,
                k == 0 || x0 + (k - 1) * step < w,
                r@.len() == k,
                forall|j: int| 0 <= j < k ==> #[trigger] r@[j] == self@.0[y * w + x0 + j * step],
            decreases w + 2 - x,
        {
            proof {
                assert(y * w + w <= self@.0.len()) by (nonlinear_arith)
                    requires y < self@.2, self@.0.len() == w * self@.2;
            }
            r.push(row[x]);
            x = x + step;
            k = k + 1;
        }
        proof {
            lemma_sample_count(w as int, x0 as int, step as int, k as int);
            assert(r@ =~= row_samples(self@.0, self@.1 as int, y as int, x0 as int, step as int));
        }
        r
    }

    /// First column of row `y` under color `c` (see `color_first_col`).
    fn first_col(&self, c: CfaColor, y: usize) -> (r: usize)
        ensures
            r == color_first_col(self.cfa, c, y as int),
            r <= 1,
    {
        if self.color_at(0, y) == c {
            0
        } else {
            1
        }
    }

    /// Peaks of the rows `y0, y0 + ystep, ...` of color `c` (see `light_diffs`).
    fn collect_light_diffs(&self, c: CfaColor, xstep: usize, y0: usize, ystep: usize) -> (r: Vec<u16>)
        requires
            self.wf(),
            1 <= xstep <= 2,
            ystep >= 1,
            self@.1 <= isize::MAX,
        ensures
            r@ == light_diffs(self@.0, self@.1 as int, self.cfa, c, xstep as int, y0 as int, ystep as int, self@.2 as int),
            r@.len() <= self@.0.len(),
    {
        let h = self.height;
        let mut r: Vec<u16> = Vec::new();
        let mut y: usize = 0;
        while y < h
            invariant
                self.wf(),
                h == self@.2,
                1 <= xstep <= 2,
                ystep >= 1,
                self@.1 <= isize::MAX,
                y <= h,
                r@ == light_diffs(self@.0, self@.1 as int, self.cfa, c, xstep as int, y0 as int, ystep as int, y as int),
                r@.len() <= y * self@.1,
            decreases h - y,
        {
            if y >= y0 && (y - y0) % ystep == 0 {
                let x0 = self.first_col(c, y);
                let s = self.samples(y, x0, xstep);
                let p = peaks_of(&s);
                proof {
                    lemma_peaks_len(s@);
                    assert(s@.len() <= self@.1) by (nonlinear_arith)
                        requires s@.len() == (if x0 >= self@.1 { 0 } else { (self@.1 - x0 + xstep - 1) / xstep as int }), xstep >= 1;
                    assert((y + 1) * self@.1 == y * self@.1 + self@.1) by (nonlinear_arith);
                }
                let mut i: usize = 0;
                let ghost before = r@;
                while i < p.len()
                    invariant
                        i <= p@.len(),
                        r@ == before + p@.take(i as int),
                    decreases p@.len() - i,
                {
                    r.push(p[i]);
                    i = i + 1;
                    proof {
                        assert(r@ =~= before + p@.take(i as int));
                    }
                }
                proof {
                    assert(p@.take(p@.len() as int) =~= p@);
                }
            } else {
                proof {
                    assert((y + 1) * self@.1 == y * self@.1 + self@.1) by (nonlinear_arith);
                }
            }
            y = y + 1;
        }
        proof {
            assert(h * self@.1 == self@.0.len()) by (nonlinear_arith)
                requires self@.0.len() == self@.1 * self@.2, h == self@.2;
        }
        r
    }

    /// Sum and count of the ring at distance `offset` around `(x, x)` (see `ring_point`).
    fn ring(&self, x: usize, offset: i128) -> (r: (u32, u32))
        requires
            self.wf(),
            offset == 4 || offset == 6,
            x < self@.1,
        ensures
            r.0 == ring_sum(self@.0, self@.1 as int, self@.2 as int, x as int, offset as int, 8),
            r.1 == ring_count(self@.1 as int, self@.2 as int, x as int, offset as int, 8),
    {
        let w = self.width;
        let h = self.height;
        let mut sum: u32 = 0;
        let mut cnt: u32 = 0;
        let mut k: usize = 0;
        while k < 8
            invariant
                self.wf(),
                w == self@.1,
                h == self@.2,
                offset == 4 || offset == 6,
                x < w,
                k <= 8,
                sum == ring_sum(self@.0, w as int, h as int, x as int, offset as int, k as int),
                cnt == ring_count(w as int, h as int, x as int, offset as int, k as int),
                sum <= 65535 * k,
                cnt <= k,
            decreases 8 - k,
        {
            let j: i128 = if k < 4 { k as i128 } else { k as i128 + 1 };
            let dx: i128 = j % 3 - 1;
            let dy: i128 = j / 3 - 1;
            proof {
                assert(-1 <= dx <= 1 && -1 <= dy <= 1) by (nonlinear_arith)
                    requires 0 <= j <= 8, dx == j % 3 - 1, dy == j / 3 - 1;
                assert(-6 <= dx * offset <= 6 && -6 <= dy * offset <= 6) by (nonlinear_arith)
                    requires -1 <= dx <= 1, -1 <= dy <= 1, offset == 4 || offset == 6;
            }
            let px: i128 = x as i128 + dx * offset;
            let py: i128 = x as i128 + dy * offset;
            proof {
                assert(ring_point(x as int, offset as int, k as int) == (px as int, py as int));
            }
            if px >= 0 && py >= 0 && px < w as i128 && py < h as i128 {
                let v = self.level_at(px as usize, py as usize);
                sum = sum + v as u32;
                cnt = cnt + 1;
            }
            k = k + 1;
        }
        (sum, cnt)
    }

    /// The ring minimum at column `x` (see `ring_min`).
    fn ring_minimum(&self, x: usize) -> (r: u16)
        requires
            self.wf(),
            x < self@.1,
        ensures
            r == ring_min(self@.0, self@.1 as int, self@.2 as int, x as int),
    {
        let mut min: u16 = 65535;
        let (s4, c4) = self.ring(x, 4);
        if c4 != 0 {
            proof {
                lemma_ring_bounds(self@.0, self@.1 as int, self@.2 as int, x as int, 4, 8);
                assert((s4 as int) / (c4 as int) <= 65535) by (nonlinear_arith)
                    requires s4 <= 65535 * c4, c4 >= 1;
            }
            let aver = (s4 / c4) as u16;
            if aver < min {
                min = aver;
            }
        }
        let (s6, c6) = self.ring(x, 6);
        if c6 != 0 {
            proof {
                lemma_ring_bounds(self@.0, self@.1 as int, self@.2 as int, x as int, 6, 8);
                assert((s6 as int) / (c6 as int) <= 65535) by (nonlinear_arith)
                    requires s6 <= 65535 * c6, c6 >= 1;
            }
            let aver = (s6 / c6) as u16;
            if aver < min {
                min = aver;
            }
        }
        min
    }

    /// Hot pixels of row `y` sampled from column `x0` every `step` (see `row_hot`).
    fn row_hot_pixels(&self, y: usize, x0: usize, step: usize, border: u16) -> (r: Vec<BadPixel>)
        requires
            self.wf(),
            y < self@.2,
            x0 <= 1,
            1 <= step <= 2,
            self@.1 <= isize::MAX,
            self@.2 <= isize::MAX,
        ensures
            r@ == row_hot(
                self@.0,
                self@.1 as int,
                self@.2 as int,
                y as int,
                x0 as int,
                step as int,
                border as int,
                row_samples(self@.0, self@.1 as int, y as int, x0 as int, step as int).len() as int,
            ),
    {
        let s = self.samples(y, x0, step);
        let n = s.len();
        let mut r: Vec<BadPixel> = Vec::new();
        let mut k: usize = 2;
        if n < 3 {
            return r;
        }
        proof {
            assert(s@.len() <= self@.1) by (nonlinear_arith)
                requires s@.len() == (if x0 >= self@.1 { 0 } else { (self@.1 - x0 + step - 1) / step as int }), step >= 1;
        }
        while k < n
            invariant
                self.wf(),
                s@ == row_samples(self@.0, self@.1 as int, y as int, x0 as int, step as int),
                n == s@.len(),
                n <= self@.1,
                x0 <= 1,
                1 <= step <= 2,
                self@.1 <= isize::MAX,
                self@.2 <= isize::MAX,
                y < self@.2,
                2 <= k <= n,
                r@ == row_hot(self@.0, self@.1 as int, self@.2 as int, y as int, x0 as int, step as int, border as int, k as int),
            decreases n - k,
        {
            let v1 = s[k - 2];
            let p = s[k - 1];
            let v2 = s[k];
            proof {
                assert(x0 + (k - 1) * step < self@.1) by (nonlinear_arith)
                    requires k < n, n == (if x0 >= self@.1 { 0 } else { (self@.1 - x0 + step - 1) / step as int }), step >= 1, x0 <= 1, k >= 2;
            }
            let x = x0 + (k - 1) * step;
            if p > v1 && p > v2 && p - v1 > border && p - v2 > border {
                let min = self.ring_minimum(x) as i32;
                let diff1 = p as i32 - v1 as i32;
                let diff2 = v1 as i32 - min;
                let diff3 = p as i32 - v2 as i32;
                let diff4 = v2 as i32 - min;
                if diff1 > 2 * diff2 && diff3 > 2 * diff4 {
                    r.push(BadPixel { x: x as isize, y: y as isize });
                }
            }
            k = k + 1;
        }
        r
    }

    /// Hot pixels of the rows `y0, y0 + ystep, ...` of color `c` (see `light_hot`).
    fn collect_light_hot(&self, c: CfaColor, xstep: usize, y0: usize, ystep: usize, border: u16) -> (r: Vec<BadPixel>)
        requires
            self.wf(),
            1 <= xstep <= 2,
            ystep >= 1,
            self@.1 <= isize::MAX,
            self@.2 <= isize::MAX,
        ensures
            r@ == light_hot(self@.0, self@.1 as int, self@.2 as int, self.cfa, c, xstep as int, y0 as int, ystep as int, border as int, self@.2 as int),
    {
        let h = self.height;
        let mut r: Vec<BadPixel> = Vec::new();
        let mut y: usize = 0;
        while y < h
            invariant
                self.wf(),
                h == self@.2,
                1 <= xstep <= 2,
                ystep >= 1,
                self@.1 <= isize::MAX,
                self@.2 <= isize::MAX,
                y <= h,
                r@ == light_hot(self@.0, self@.1 as int, self@.2 as int, self.cfa, c, xstep as int, y0 as int, ystep as int, border as int, y as int),
            decreases h - y,
        {
            if y >= y0 && (y - y0) % ystep == 0 {
                let x0 = self.first_col(c, y);
                let hot = self.row_hot_pixels(y, x0, xstep, border);
                let mut i: usize = 0;
                let ghost before = r@;
                while i < hot.len()
                    invariant
                        i <= hot@.len(),
                        r@ == before + hot@.take(i as int),
                    decreases hot@.len() - i,
                {
                    r.push(hot[i]);
                    i = i + 1;
                    proof {
                        assert(r@ =~= before + hot@.take(i as int));
                    }
                }
                proof {
                    assert(hot@.take(hot@.len() as int) =~= hot@);
                }
            }
            y = y + 1;
        }
        r
    }

    /// Hot pixels of color `c` (see `color_hot`).
    fn color_hot_pixels(&self, c: CfaColor, xstep: usize, ystep: usize) -> (r: Vec<BadPixel>)
        requires
            self.wf(),
            1 <= xstep <= 2,
            1 <= ystep <= 2,
            self@.1 <= isize::MAX,
            self@.2 <= isize::MAX,
            has_color(self.cfa, c),
        ensures
            r@ == color_hot(self, c, xstep as int, ystep as int),
    {
        let rows = self.cfa.get_array();
        let y0: usize = if c == CfaColor::Mono {
            0
        } else if rows[0][0] == c || rows[0][1] == c {
            0
        } else {
            1
        };
        let diffs = self.collect_light_diffs(c, xstep, y0, 4 * ystep);
        if diffs.len() == 0 {
            return Vec::new();
        }
        let len = diffs.len();
        let pos = len / 100 * 99 + len % 100 * 99 / 100;
        proof {
            assert(pos == 99 * len / 100) by (nonlinear_arith)
                requires pos == len / 100 * 99 + len % 100 * 99 / 100, len >= 0;
        }
        let pct = kth_of(diffs.as_slice(), pos);
        let b: u32 = 150 * pct as u32 / 100;
        let lo: u32 = self.max_value as u32 / 1000;
        let b1 = if b > lo { b } else { lo };
        let border: u16 = if b1 < 32767 { b1 as u16 } else { 32767 };
        self.collect_light_hot(c, xstep, y0, ystep, border)
    }

    /// Hot pixels of a light frame (see `light_hot_pixels`).
    pub fn find_hot_pixels_in_light(&self) -> (r: Vec<BadPixel>)
        requires
            self.wf(),
            self@.1 > 0,
            self@.1 <= isize::MAX,
            self@.2 <= isize::MAX,
        ensures
            r@ == light_hot_pixels(self),
    {
        if self.cfa != CfaType::Mono {
            let mut r = self.color_hot_pixels(CfaColor::R, 2, 2);
            let mut g = self.color_hot_pixels(CfaColor::G, 2, 1);
            let mut b = self.color_hot_pixels(CfaColor::B, 2, 2);
            r.append(&mut g);
            r.append(&mut b);
            r
        } else {
            self.color_hot_pixels(CfaColor::Mono, 1, 1)
        }
    }
}

proof fn lemma_peaks_len(s: Seq<u16>)
    ensures
        peaks(s).len() <= s.len(),
    decreases s.len(),
{
    if s.len() >= 3 {
        lemma_peaks_len(s.drop_last());
    }
}

proof fn lemma_ring_bounds(d: Seq<u16>, w: int, h: int, x: int, offset: int, k: int)
    requires
        d.len() == w * h,
        w >= 0,
    ensures
        0 <= ring_count(w, h, x, offset, k) <= (if k > 0 { k } else { 0 }),
        0 <= ring_sum(d, w, h, x, offset, k) <= 65535 * ring_count(w, h, x, offset, k),
    decreases k,
{
    if k > 0 {
        lemma_ring_bounds(d, w, h, x, offset, k - 1);
        if ring_inside(w, h, x, offset, k - 1) {
            let p = ring_point(x, offset, k - 1);
            assert(0 <= p.1 * w + p.0 < w * h) by (nonlinear_arith)
                requires 0 <= p.0 < w, 0 <= p.1 < h;
        }
    }
}


/// Every pixel inside the frame.
pub open spec fn all_inside(pixels: Seq<BadPixel>, w: int, h: int) -> bool {
    forall|i: int| 0 <= i < pixels.len() ==> 0 <= #[trigger] pixels[i].x < w && 0 <= pixels[i].y < h
}

#[verifier::spinoff_prover]
proof fn lemma_row_hot_inside(d: Seq<u16>, w: int, h: int, y: int, x0: int, step: int, border: int, n: int)
    requires
        0 <= y < h,
        0 <= x0,
        step >= 1,
        n <= row_samples(d, w, y, x0, step).len(),
        w <= isize::MAX,
        h <= isize::MAX,
    ensures
        all_inside(row_hot(d, w, h, y, x0, step, border, n), w, h),
    decreases n,
{
    if n >= 3 {
        lemma_row_hot_inside(d, w, h, y, x0, step, border, n - 1);
        let len = row_samples(d, w, y, x0, step).len() as int;
        assert(x0 + (n - 2) * step < w) by (nonlinear_arith)
            requires n <= len, n >= 3, len == (if x0 >= w { 0 } else { (w - x0 + step - 1) / step }), step >= 1, x0 >= 0;
    }
}

proof fn lemma_light_hot_inside(d: Seq<u16>, w: int, h: int, cfa: CfaType, c: CfaColor, xstep: int, y0: int, ystep: int, border: int, y: int)
    requires
        y <= h,
        xstep >= 1,
        w <= isize::MAX,
        h <= isize::MAX,
    ensures
        all_inside(light_hot(d, w, h, cfa, c, xstep, y0, ystep, border, y), w, h),
    decreases y,
{
    if y > y0 && y > 0 {
        lemma_light_hot_inside(d, w, h, cfa, c, xstep, y0, ystep, border, y - 1);
        if (y - 1 - y0) % ystep == 0 {
            let x0 = color_first_col(cfa, c, y - 1);
            let n = row_samples(d, w, y - 1, x0, xstep).len() as int;
            lemma_row_hot_inside(d, w, h, y - 1, x0, xstep, border, n);
            let a = light_hot(d, w, h, cfa, c, xstep, y0, ystep, border, y - 1);
            let b = row_hot(d, w, h, y - 1, x0, xstep, border, n);
            assert forall|i: int| 0 <= i < (a + b).len() implies 0 <= #[trigger] (a + b)[i].x < w && 0 <= (a + b)[i].y < h by {
                if i >= a.len() {
                    assert((a + b)[i] == b[i - a.len()]);
                }
            }
        }
    }
}

/// Every hot pixel found in a light frame lies inside the frame.
pub proof fn lemma_light_hot_pixels_inside(raw: &RawImage)
    requires
        raw.wf(),
        raw@.1 <= isize::MAX,
        raw@.2 <= isize::MAX,
    ensures
        all_inside(light_hot_pixels(raw), raw@.1 as int, raw@.2 as int),
{
    let (w, h) = (raw@.1 as int, raw@.2 as int);
    assert forall|c: CfaColor, xstep: int, ystep: int| xstep >= 1 implies all_inside(#[trigger] color_hot(raw, c, xstep, ystep), w, h) by {
        let y0 = color_first_row(raw.filter(), c);
        let diffs = light_diffs(raw@.0, w, raw.filter(), c, xstep, y0, 4 * ystep, h);
        if diffs.len() != 0 {
            lemma_light_hot_inside(raw@.0, w, h, raw.filter(), c, xstep, y0, ystep, hot_border(diffs, raw.max_level()), h);
        }
    }
    let r = color_hot(raw, CfaColor::R, 2, 2);
    let g = color_hot(raw, CfaColor::G, 2, 1);
    let b = color_hot(raw, CfaColor::B, 2, 2);
    assert forall|i: int| 0 <= i < (r + g + b).len() implies 0 <= #[trigger] (r + g + b)[i].x < w && 0 <= (r + g + b)[i].y < h by {
        if i < r.len() {
            assert((r + g + b)[i] == r[i]);
        } else if i < r.len() + g.len() {
            assert((r + g + b)[i] == g[i - r.len()]);
        } else {
            assert((r + g + b)[i] == b[i - r.len() - g.len()]);
        }
    }
}

/// How many pixels before index `k` have level `v` and color `c`.
pub open spec fn color_level_count(d: Seq<u16>, w: int, cfa: CfaType, c: CfaColor, v: int, k: int) -> int
    decreases k,
{
    if k <= 0 {
        0
    } else {
        color_level_count(d, w, cfa, c, v, k - 1) + if d[k - 1] == v && cfa_color(cfa, (k - 1) % w, (k - 1) / w) == c {
            1int
        } else {
            0
        }
    }
}

/// How many pixels before index `k` have color `c`.
pub open spec fn color_total(w: int, cfa: CfaType, c: CfaColor, k: int) -> int
    decreases k,
{
    if k <= 0 {
        0
    } else {
        color_total(w, cfa, c, k - 1) + if cfa_color(cfa, (k - 1) % w, (k - 1) / w) == c {
            1int
        } else {
            0
        }
    }
}

/// Counts of each level among the pixels of color `c`.
pub open spec fn color_freq(d: Seq<u16>, w: int, cfa: CfaType, c: CfaColor) -> Seq<u32> {
    Seq::new(65536, |v: int| color_level_count(d, w, cfa, c, v, d.len() as int) as u32)
}

impl RawImage {
    /// Counts of each level among the pixels of color `c`.
    pub fn count_color_levels(&self, c: CfaColor) -> (r: Vec<u32>)
        requires
            self.wf(),
            self@.0.len() <= u32::MAX,
        ensures
            r@ == color_freq(self@.0, self@.1 as int, self.filter(), c),
            counts_sum(r@, 65536) == color_total(self@.1 as int, self.filter(), c, self@.0.len() as int),
    {
        let mut res: Vec<u32> = Vec::new();
        res.resize(65536, 0u32);
        let n = self.data.len();
        let w = self.width;
        let ghost d = self@.0;
        let mut i: usize = 0;
        let mut x: usize = 0;
        let mut y: usize = 0;
        proof {
            lemma_counts_sum_zero_all(res@);
        }
        while i < n
            invariant
                self.wf(),
                d == self@.0,
                n == d.len(),
                n <= u32::MAX,
                w == self@.1,
                res@.len() == 65536,
                i <= n,
                x < w || x == 0,
                i == y * w + x,
                forall|v: int| 0 <= v < 65536 ==> #[trigger] res@[v] == color_level_count(d, w as int, self.cfa, c, v, i as int),
                forall|v: int| 0 <= v < 65536 ==> #[trigger] res@[v] <= i,
                counts_sum(res@, 65536) == color_total(w as int, self.cfa, c, i as int),
            decreases n - i,
        {
            proof {
                if w == 0 {
                    assert(n == 0) by (nonlinear_arith)
                        requires n == w * self@.2, w == 0;
                }
                lemma_fundamental_div_mod_converse(i as int, w as int, y as int, x as int);
            }
            let v = self.data[i] as usize;
            let col = self.color_at(x, y);
            if col == c {
                let t = res[v];
                proof {
                    lemma_counts_sum_update(res@, v as int, 65536);
                }
                res.set(v, t + 1);
            }
            i = i + 1;
            if x + 1 == w {
                proof {
                    assert((y + 1) * w == y * w + w && y < i) by (nonlinear_arith)
                        requires i == y * w + x + 1, w >= 1;
                }
                x = 0;
                y = y + 1;
            } else {
                x = x + 1;
            }
        }
        proof {
            assert(res@ =~= color_freq(d, w as int, self.cfa, c));
        }
        res
    }
}

/// At most `k` of the first `k` pixels have a given color.
pub proof fn lemma_color_total_bound(w: int, cfa: CfaType, c: CfaColor, k: int)
    ensures
        0 <= color_total(w, cfa, c, k) <= (if k > 0 { k } else { 0 }),
    decreases k,
{
    if k > 0 {
        lemma_color_total_bound(w, cfa, c, k - 1);
    }
}

/// The 99th percentile of the levels of color `c`; 0 when no pixel has that color.
pub open spec fn color_top(d: Seq<u16>, w: int, cfa: CfaType, c: CfaColor) -> int {
    let n = color_total(w, cfa, c, d.len() as int);
    if n == 0 {
        0
    } else {
        nth_level(color_freq(d, w, cfa, c), 99 * n / 100, 0)
    }
}

/// Color of the pixel at index `i` of a frame `w` wide.
pub open spec fn color_of_index(cfa: CfaType, w: int, i: int) -> CfaColor {
    cfa_color(cfa, i % w, i / w)
}

/// A flat normalized: each level above the black level scaled (rounded toward zero) by the
/// full range over the 99th percentile of its color above the black level.
pub open spec fn flat_normalized(d: Seq<u16>, w: int, cfa: CfaType, zero: int) -> Seq<u16> {
    Seq::new(
        d.len(),
        |i: int| clamp16(div_toward_zero(65535 * (d[i] - zero), color_top(d, w, cfa, color_of_index(cfa, w, i)) - zero)),
    )
}

impl RawImage {
    /// The 99th percentile of the levels of color `c` (see `color_top`).
    fn color_top_level(&self, c: CfaColor) -> (r: u16)
        requires
            self.wf(),
            self@.0.len() <= u32::MAX,
        ensures
            r == color_top(self@.0, self@.1 as int, self.filter(), c),
    {
        let freq = self.count_color_levels(c);
        let ghost f = freq@;
        proof {
            assert(fitted(f, 65535) =~= f);
            lemma_color_total_bound(self@.1 as int, self.filter(), c, self@.0.len() as int);
        }
        let mut chan = HistogramChan::new();
        chan.take_from_freq(freq, 65535);
        if chan.count == 0 {
            return 0;
        }
        let pos = (99 * chan.count as u64 / 100) as usize;
        chan.get_nth_element(pos)
    }

    /// Scales a flat so that the 99th percentile of each color reaches the full range, and
    /// sets its black level to 0 (see `flat_normalized`).
    pub fn normalize_flat(&mut self)
        requires
            old(self).wf(),
            old(self)@.0.len() <= u32::MAX,
            forall|i: int|
                0 <= i < old(self)@.0.len() ==> color_top(
                    old(self)@.0,
                    old(self)@.1 as int,
                    old(self).filter(),
                    #[trigger] color_of_index(old(self).filter(), old(self)@.1 as int, i),
                ) != old(self).offset_level(),
        ensures
            final(self)@ == (
                flat_normalized(old(self)@.0, old(self)@.1 as int, old(self).filter(), old(self).offset_level() as int),
                old(self)@.1,
                old(self)@.2,
            ),
            final(self).offset_level() == 0,
            final(self).max_level() == old(self).max_level(),
            final(self).filter() == old(self).filter(),
            final(self).kind() == old(self).kind(),
    {
        let zero = self.offset as i64;
        let l_top = self.color_top_level(CfaColor::Mono) as i64 - zero;
        let r_top = self.color_top_level(CfaColor::R) as i64 - zero;
        let g_top = self.color_top_level(CfaColor::G) as i64 - zero;
        let b_top = self.color_top_level(CfaColor::B) as i64 - zero;
        let n = self.data.len();
        let w = self.width;
        let ghost d0 = self.data@;
        let ghost expected = flat_normalized(d0, w as int, self.cfa, zero as int);
        let mut i: usize = 0;
        let mut x: usize = 0;
        let mut y: usize = 0;
        while i < n
            invariant
                n == self.data@.len(),
                d0.len() == n,
                n == w * self.height,
                w == self.width,
                expected == flat_normalized(d0, w as int, self.cfa, zero as int),
                zero == self.offset,
                self.offset == old(self).offset,
                self.max_value == old(self).max_value,
                self.cfa == old(self).cfa,
                self.frame_type == old(self).frame_type,
                self.width == old(self).width,
                self.height == old(self).height,
                d0 == old(self)@.0,
                l_top == color_top(d0, w as int, self.cfa, CfaColor::Mono) - zero,
                r_top == color_top(d0, w as int, self.cfa, CfaColor::R) - zero,
                g_top == color_top(d0, w as int, self.cfa, CfaColor::G) - zero,
                b_top == color_top(d0, w as int, self.cfa, CfaColor::B) - zero,
                0 <= l_top + zero <= 65535,
                0 <= r_top + zero <= 65535,
                0 <= g_top + zero <= 65535,
                0 <= b_top + zero <= 65535,
                forall|j: int|
                    0 <= j < n ==> color_top(d0, w as int, self.cfa, #[trigger] color_of_index(self.cfa, w as int, j))
                        != zero,
                i <= n,
                x < w || x == 0,
                i == y * w + x,
                forall|j: int| 0 <= j < i ==> #[trigger] self.data@[j] == expected[j],
                forall|j: int| i <= j < n ==> #[trigger] self.data@[j] == d0[j],
            decreases n - i,
        {
            proof {
                if w == 0 {
                    assert(n == 0) by (nonlinear_arith)
                        requires n == w * self.height, w == 0;
                }
                lemma_fundamental_div_mod_converse(i as int, w as int, y as int, x as int);
                assert(color_of_index(self.cfa, w as int, i as int) == cfa_color(self.cfa, x as int, y as int));
            }
            let col = self.color_at(x, y);
            let top = match col {
                CfaColor::Mono => l_top,
                CfaColor::R => r_top,
                CfaColor::G => g_top,
                CfaColor::B => b_top,
            };
            let val = self.data[i] as i64 - zero;
            let q = div_i64(65535 * val, top);
            let mut value = q;
            if value < 0 {
                value = 0;
            }
            if value > 65535 {
                value = 65535;
            }
            self.data.set(i, value as u16);
            i = i + 1;
            if x + 1 == w {
                proof {
                    assert((y + 1) * w == y * w + w && y < i) by (nonlinear_arith)
                        requires i == y * w + x + 1, w >= 1;
                }
                x = 0;
                y = y + 1;
            } else {
                x = x + 1;
            }
        }
        proof {
            assert(self.data@ =~= expected);
        }
        self.offset = 0;
    }
}

/// The pixel at offset `k` of the 5x5 window around pixel `p` (an index) lies inside the
/// frame and has the color of `p`.
pub open spec fn same_color_match(w: int, h: int, cfa: CfaType, p: int, k: int) -> bool {
    let x = p % w;
    let y = p / w;
    let sx = x + win5_offset(k).0;
    let sy = y + win5_offset(k).1;
    &&& 0 <= sx < w
    &&& 0 <= sy < h
    &&& cfa_color(cfa, sx, sy) == cfa_color(cfa, x, y)
}

pub open spec fn same_color_count(w: int, h: int, cfa: CfaType, p: int, k: int) -> int
    decreases k,
{
    if k <= 0 {
        0
    } else {
        same_color_count(w, h, cfa, p, k - 1) + if same_color_match(w, h, cfa, p, k - 1) {
            1int
        } else {
            0
        }
    }
}

pub open spec fn same_color_sum(d: Seq<u16>, w: int, h: int, cfa: CfaType, p: int, k: int) -> int
    decreases k,
{
    if k <= 0 {
        0
    } else {
        same_color_sum(d, w, h, cfa, p, k - 1) + if same_color_match(w, h, cfa, p, k - 1) {
            d[(p / w + win5_offset(k - 1).1) * w + p % w + win5_offset(k - 1).0] as int
        } else {
            0
        }
    }
}

/// A flat smoothed: each pixel takes the rounded mean of the pixels of its color in the
/// 5x5 window around it (itself among them).
pub open spec fn flat_filtered(d: Seq<u16>, w: int, h: int, cfa: CfaType) -> Seq<u16> {
    Seq::new(
        d.len(),
        |i: int|
            {
                let n = same_color_count(w, h, cfa, i, 25);
                if n > 0 {
                    ((same_color_sum(d, w, h, cfa, i, 25) + n / 2) / n) as u16
                } else {
                    d[i]
                }
            },
    )
}

proof fn lemma_same_color_bounds(d: Seq<u16>, w: int, h: int, cfa: CfaType, p: int, k: int)
    requires
        w >= 1,
        d.len() == w * h,
    ensures
        0 <= same_color_count(w, h, cfa, p, k) <= (if k > 0 { k } else { 0 }),
        0 <= same_color_sum(d, w, h, cfa, p, k) <= 65535 * same_color_count(w, h, cfa, p, k),
    decreases k,
{
    if k > 0 {
        lemma_same_color_bounds(d, w, h, cfa, p, k - 1);
        if same_color_match(w, h, cfa, p, k - 1) {
            let x = p % w;
            let y = p / w;
            let sx = x + win5_offset(k - 1).0;
            let sy = y + win5_offset(k - 1).1;
            assert(0 <= sy * w + sx < w * h) by (nonlinear_arith)
                requires 0 <= sx < w, 0 <= sy < h;
        }
    }
}

impl RawImage {
    /// Sum and count of the pixels of the color of pixel `p` in the 5x5 window around it.
    fn same_color_window(&self, p: usize) -> (r: (u32, u32))
        requires
            self.wf(),
            self@.1 >= 1,
            p < self@.0.len(),
        ensures
            r.1 == same_color_count(self@.1 as int, self@.2 as int, self.cfa, p as int, 25),
            r.0 == same_color_sum(self@.0, self@.1 as int, self@.2 as int, self.cfa, p as int, 25),
    {
        let w = self.width;
        let h = self.height;
        let n = self.data.len();
        let ghost (d, wi, hi) = (self@.0, w as int, h as int);
        let x = p % w;
        let y = p / w;
        proof {
            assert(0 <= x < w && y < h) by (nonlinear_arith)
                requires x == p % w, y == p / w, p < w * h, w >= 1;
        }
        let color = self.color_at(x, y);
        let mut sum: u32 = 0;
        let mut cnt: u32 = 0;
        let mut k: usize = 0;
        while k < 25
            invariant
                self.wf(),
                d == self@.0,
                wi == w,
                hi == h,
                w == self@.1,
                h == self@.2,
                n == w * h,
                w >= 1,
                x == (p as int) % wi,
                y == (p as int) / wi,
                x < w,
                y < h,
                color == cfa_color(self.cfa, x as int, y as int),
                k <= 25,
                cnt == same_color_count(wi, hi, self.cfa, p as int, k as int),
                sum == same_color_sum(d, wi, hi, self.cfa, p as int, k as int),
            decreases 25 - k,
        {
            proof {
                lemma_same_color_bounds(d, wi, hi, self.cfa, p as int, k as int);
            }
            let dx: i128 = (k % 5) as i128 - 2;
            let dy: i128 = (k / 5) as i128 - 2;
            let sx: i128 = x as i128 + dx;
            let sy: i128 = y as i128 + dy;
            if sx >= 0 && sy >= 0 && sx < w as i128 && sy < h as i128 {
                proof {
                    assert(sy * w + sx < n) by (nonlinear_arith)
                        requires 0 <= sx < w, 0 <= sy < h, n == w * h;
                }
                let q = (sy as usize) * w + (sx as usize);
                if self.color_at(sx as usize, sy as usize) == color {
                    sum = sum + self.data[q] as u32;
                    cnt = cnt + 1;
                }
            }
            k = k + 1;
        }
        (sum, cnt)
    }

    /// Smooths a flat: each pixel takes the rounded mean of its color around it (see
    /// `flat_filtered`).
    pub fn filter_flat(&mut self)
        requires
            old(self).wf(),
            old(self)@.1 > 0,
        ensures
            final(self)@ == (
                flat_filtered(old(self)@.0, old(self)@.1 as int, old(self)@.2 as int, old(self).filter()),
                old(self)@.1,
                old(self)@.2,
            ),
            final(self).offset_level() == old(self).offset_level(),
            final(self).max_level() == old(self).max_level(),
            final(self).filter() == old(self).filter(),
            final(self).kind() == old(self).kind(),
    {
        let n = self.data.len();
        let ghost expected = flat_filtered(self@.0, self@.1 as int, self@.2 as int, self.cfa);
        let mut new_data: Vec<u16> = Vec::new();
        let mut i: usize = 0;
        while i < n
            invariant
                self.wf(),
                self@.1 > 0,
                n == self@.0.len(),
                expected == flat_filtered(self@.0, self@.1 as int, self@.2 as int, self.cfa),
                i <= n,
                new_data@.len() == i,
                forall|j: int| 0 <= j < i ==> #[trigger] new_data@[j] == expected[j],
            decreases n - i,
        {
            let (sum, cnt) = self.same_color_window(i);
            proof {
                lemma_same_color_bounds(self@.0, self@.1 as int, self@.2 as int, self.cfa, i as int, 25);
            }
            if cnt != 0 {
                proof {
                    assert((sum + cnt / 2) as int / (cnt as int) <= 65535) by (nonlinear_arith)
                        requires sum <= 65535 * cnt, cnt >= 1;
                }
                new_data.push(((sum + cnt / 2) / cnt) as u16);
            } else {
                new_data.push(self.data[i]);
            }
            i = i + 1;
        }
        proof {
            assert(new_data@ =~= expected);
        }
        self.data = new_data;
    }
}

proof fn lemma_same_color_uniform(d: Seq<u16>, v: u16, w: int, h: int, cfa: CfaType, p: int, k: int)
    requires
        w >= 1,
        d.len() == w * h,
        forall|j: int| 0 <= j < d.len() ==> d[j] == v,
    ensures
        same_color_sum(d, w, h, cfa, p, k) == v * same_color_count(w, h, cfa, p, k),
    decreases k,
{
    if k > 0 {
        lemma_same_color_uniform(d, v, w, h, cfa, p, k - 1);
        if same_color_match(w, h, cfa, p, k - 1) {
            let x = p % w;
            let y = p / w;
            let sx = x + win5_offset(k - 1).0;
            let sy = y + win5_offset(k - 1).1;
            assert(0 <= sy * w + sx < w * h) by (nonlinear_arith)
                requires 0 <= sx < w, 0 <= sy < h;
        }
        assert(v * same_color_count(w, h, cfa, p, k - 1) + v == v * (same_color_count(w, h, cfa, p, k - 1) + 1))
            by (nonlinear_arith);
    }
}

proof fn lemma_same_color_count_self(w: int, h: int, cfa: CfaType, p: int, k: int)
    requires
        w >= 1,
        0 <= p < w * h,
    ensures
        same_color_count(w, h, cfa, p, k) >= 0,
        k >= 13 ==> same_color_count(w, h, cfa, p, k) >= 1,
    decreases k,
{
    if k > 0 {
        lemma_same_color_count_self(w, h, cfa, p, k - 1);
        if k == 13 {
            assert(0 <= p % w < w && 0 <= p / w < h) by (nonlinear_arith)
                requires w >= 1, 0 <= p < w * h;
            assert(same_color_match(w, h, cfa, p, 12));
        }
    }
}

/// Smoothing a flat of one level everywhere leaves it as it is.
pub proof fn lemma_filter_flat_uniform(d: Seq<u16>, v: u16, w: int, h: int, cfa: CfaType, i: int)
    requires
        w >= 1,
        d.len() == w * h,
        forall|j: int| 0 <= j < d.len() ==> d[j] == v,
        0 <= i < d.len(),
    ensures
        flat_filtered(d, w, h, cfa)[i] == v,
{
    lemma_same_color_uniform(d, v, w, h, cfa, i, 25);
    lemma_same_color_count_self(w, h, cfa, i, 25);
    let n = same_color_count(w, h, cfa, i, 25);
    assert((v * n + n / 2) / n == v) by (nonlinear_arith)
        requires n >= 1;
}

/// Pixels of a sensor to be repaired in every frame, as saved and loaded in a text file.
pub struct BadPixels {
    pub items: Vec<BadPixel>,
}

/// The line of a saved pixel: column, a space, row, each in decimal.
pub open spec fn pixel_line(p: BadPixel) -> Seq<char> {
    dec_repr(p.x as int) + seq![' '] + dec_repr(p.y as int) + seq!['\n']
}

/// The text of saved pixels: a line each, in order.
pub open spec fn pixels_text(items: Seq<BadPixel>) -> Seq<char>
    decreases items.len(),
{
    if items.len() == 0 {
        Seq::empty()
    } else {
        pixels_text(items.drop_last()) + pixel_line(items.last())
    }
}

/// A line with a trailing carriage return dropped.
pub open spec fn strip_cr(l: Seq<char>) -> Seq<char> {
    if l.len() > 0 && l.last() == '\r' {
        l.drop_last()
    } else {
        l
    }
}

/// The lines of `s` after the part `cur` of a line already read: a line ends at each
/// newline and loses a carriage return before it; a last line without newline is kept
/// as it is unless empty (as `BufRead::lines` gives them).
pub open spec fn lines_from(s: Seq<char>, cur: Seq<char>) -> Seq<Seq<char>>
    decreases s.len(),
{
    if s.len() == 0 {
        if cur.len() == 0 {
            Seq::empty()
        } else {
            seq![cur]
        }
    } else if s[0] == '\n' {
        seq![strip_cr(cur)] + lines_from(s.drop_first(), Seq::empty())
    } else {
        lines_from(s.drop_first(), cur.push(s[0]))
    }
}

/// The lines of a text.
pub open spec fn text_lines(s: Seq<char>) -> Seq<Seq<char>> {
    lines_from(s, Seq::empty())
}

/// The pixel a line names: the text before its first space and the text after it, each
/// read as an `isize`; none where there is no space or either fails to read.
pub open spec fn line_pixel(l: Seq<char>) -> Option<BadPixel> {
    match find_char(l, ' ') {
        None => None,
        Some(i) => match parse_int(l.take(i), isize::MIN as int, isize::MAX as int) {
            None => None,
            Some(x) => match parse_int(l.skip(i + 1), isize::MIN as int, isize::MAX as int) {
                None => None,
                Some(y) => Some(BadPixel { x: x as isize, y: y as isize }),
            },
        },
    }
}

/// The pixels the lines name, in order; lines naming none are skipped.
pub open spec fn lines_pixels(lines: Seq<Seq<char>>) -> Seq<BadPixel>
    decreases lines.len(),
{
    if lines.len() == 0 {
        Seq::empty()
    } else {
        match line_pixel(lines[0]) {
            Some(p) => seq![p] + lines_pixels(lines.drop_first()),
            None => lines_pixels(lines.drop_first()),
        }
    }
}

/// The pixel a line names (see `line_pixel`).
fn parse_pixel_line(l: &Vec<char>) -> (r: Option<BadPixel>)
    ensures
        r == line_pixel(l@),
{
    let sp = find_char_in(l.as_slice(), ' ');
    match sp {
        None => None,
        Some(i) => {
            let n = l.len();
            let xs = slice_of(l.as_slice(), 0, i);
            let ys = slice_of(l.as_slice(), i + 1, n);
            proof {
                assert(xs@ =~= l@.take(i as int));
                assert(ys@ =~= l@.skip(i + 1));
            }
            let lo: i128 = isize::MIN as i128;
            let hi: i128 = isize::MAX as i128;
            match parse_int_chars(xs.as_slice(), lo, hi) {
                None => None,
                Some(x) => match parse_int_chars(ys.as_slice(), lo, hi) {
                    None => None,
                    Some(y) => Some(BadPixel { x: x as isize, y: y as isize }),
                },
            }
        },
    }
}

/// A line with a trailing carriage return dropped (see `strip_cr`).
fn strip_cr_vec(l: Vec<char>) -> (r: Vec<char>)
    ensures
        r@ == strip_cr(l@),
{
    let mut l = l;
    if l.len() > 0 && l[l.len() - 1] == '\r' {
        l.pop();
    }
    l
}

impl BadPixels {
    pub fn new() -> (r: Self)
        ensures
            r.items@ == Seq::<BadPixel>::empty(),
    {
        BadPixels { items: Vec::new() }
    }

    /// The text a file of these pixels holds (see `pixels_text`).
    pub fn to_text(&self) -> (r: String)
        ensures
            r@ == pixels_text(self.items@),
    {
        let mut cs: Vec<char> = Vec::new();
        let mut i: usize = 0;
        while i < self.items.len()
            invariant
                i <= self.items@.len(),
                cs@ == pixels_text(self.items@.take(i as int)),
            decreases self.items@.len() - i,
        {
            let p = self.items[i];
            let xs = i64_to_chars(p.x as i64);
            let ys = i64_to_chars(p.y as i64);
            let ghost before = cs@;
            let mut k: usize = 0;
            while k < xs.len()
                invariant
                    k <= xs@.len(),
                    cs@ == before + xs@.take(k as int),
                decreases xs@.len() - k,
            {
                cs.push(xs[k]);
                k = k + 1;
                proof {
                    assert(cs@ =~= before + xs@.take(k as int));
                }
            }
            cs.push(' ');
            let ghost mid = cs@;
            k = 0;
            while k < ys.len()
                invariant
                    k <= ys@.len(),
                    cs@ == mid + ys@.take(k as int),
                decreases ys@.len() - k,
            {
                cs.push(ys[k]);
                k = k + 1;
                proof {
                    assert(cs@ =~= mid + ys@.take(k as int));
                }
            }
            cs.push('\n');
            proof {
                assert(xs@.take(xs@.len() as int) =~= xs@);
                assert(ys@.take(ys@.len() as int) =~= ys@);
                let t = self.items@.take(i + 1);
                assert(t.drop_last() =~= self.items@.take(i as int));
                assert(t.last() == p);
                assert(cs@ =~= before + pixel_line(p));
            }
            i = i + 1;
        }
        proof {
            assert(self.items@.take(i as int) =~= self.items@);
        }
        string_from_chars(cs.as_slice())
    }

    /// Replaces the pixels by those a file's text names (see `lines_pixels`).
    pub fn load_from_text(&mut self, text: &str)
        ensures
            final(self).items@ == lines_pixels(text_lines(text@)),
    {
        let cs = str_chars(text);
        self.items.clear();
        let mut cur: Vec<char> = Vec::new();
        let mut i: usize = 0;
        proof {
            assert(cs@.skip(0) =~= cs@);
            assert(cur@ =~= Seq::<char>::empty());
            assert(self.items@ + lines_pixels(text_lines(cs@)) =~= lines_pixels(text_lines(cs@)));
        }
        while i < cs.len()
            invariant
                i <= cs@.len(),
                cs@ == text@,
                self.items@ + lines_pixels(lines_from(cs@.skip(i as int), cur@)) == lines_pixels(text_lines(cs@)),
            decreases cs@.len() - i,
        {
            let c = cs[i];
            let ghost rest = cs@.skip(i as int);
            proof {
                assert(rest[0] == c);
                assert(rest.drop_first() =~= cs@.skip(i + 1));
            }
            if c == '\n' {
                let line = strip_cr_vec(cur);
                let ghost ls = lines_from(rest, cur@);
                proof {
                    assert(ls == seq![line@] + lines_from(cs@.skip(i + 1), Seq::empty()));
                    assert(ls[0] == line@);
                    assert(ls.drop_first() =~= lines_from(cs@.skip(i + 1), Seq::empty()));
                }
                let p = parse_pixel_line(&line);
                if let Some(p) = p {
                    let ghost before = self.items@;
                    self.items.push(p);
                    proof {
                        assert(self.items@ + lines_pixels(lines_from(cs@.skip(i + 1), Seq::empty())) =~= before
                            + lines_pixels(ls));
                    }
                }
                cur = Vec::new();
            } else {
                let ghost old_cur = cur@;
                cur.push(c);
                proof {
                    assert(lines_from(rest, old_cur) == lines_from(cs@.skip(i + 1), cur@));
                }
            }
            i = i + 1;
        }
        proof {
            assert(cs@.skip(i as int) =~= Seq::<char>::empty());
        }
        let ghost before = self.items@;
        let ghost ls = lines_from(Seq::<char>::empty(), cur@);
        proof {
            assert(before + lines_pixels(ls) == lines_pixels(text_lines(text@)));
            assert(lines_pixels(Seq::<Seq<char>>::empty()) == Seq::<BadPixel>::empty());
        }
        if cur.len() > 0 {
            let p = parse_pixel_line(&cur);
            proof {
                assert(ls == seq![cur@]);
                assert(ls[0] == cur@);
                assert(ls.drop_first() =~= Seq::<Seq<char>>::empty());
            }
            if let Some(p) = p {
                self.items.push(p);
                proof {
                    assert(lines_pixels(ls) == seq![p] + lines_pixels(ls.drop_first()));
                    assert(self.items@ =~= before + lines_pixels(ls));
                }
            } else {
                proof {
                    assert(lines_pixels(ls) == lines_pixels(ls.drop_first()));
                    assert(self.items@ =~= before + lines_pixels(ls));
                }
            }
        } else {
            proof {
                assert(ls =~= Seq::<Seq<char>>::empty());
                assert(self.items@ =~= before + lines_pixels(ls));
            }
        }
    }
}

/// A line of `a` ended by a newline, then the rest: the line (after `cur`) comes first.
proof fn lemma_lines_from_line(a: Seq<char>, rest: Seq<char>, cur: Seq<char>)
    requires
        forall|j: int| 0 <= j < a.len() ==> a[j] != '\n',
    ensures
        lines_from(a + seq!['\n'] + rest, cur) == seq![strip_cr(cur + a)] + lines_from(rest, Seq::empty()),
    decreases a.len(),
{
    let s = a + seq!['\n'] + rest;
    if a.len() == 0 {
        assert(s[0] == '\n');
        assert(s.drop_first() =~= rest);
        assert(cur + a =~= cur);
    } else {
        assert(s[0] == a[0]);
        assert(s.drop_first() =~= a.drop_first() + seq!['\n'] + rest);
        assert forall|j: int| 0 <= j < a.drop_first().len() implies a.drop_first()[j] != '\n' by {
            assert(a.drop_first()[j] == a[j + 1]);
        }
        lemma_lines_from_line(a.drop_first(), rest, cur.push(a[0]));
        assert(cur.push(a[0]) + a.drop_first() =~= cur + a);
    }
}

/// The decimal text of an integer: a minus at most at its start, then digits.
proof fn lemma_dec_repr_chars(v: int)
    ensures
        dec_repr(v).len() >= 1,
        forall|j: int| 0 <= j < dec_repr(v).len() ==> (is_digit(#[trigger] dec_repr(v)[j]) || (j == 0 && dec_repr(v)[j] == '-')),
        is_digit(dec_repr(v).last()),
{
    if v < 0 {
        lemma_nat_digits((-v) as nat);
        let d = nat_digits((-v) as nat);
        assert forall|j: int| 0 <= j < dec_repr(v).len() implies (is_digit(#[trigger] dec_repr(v)[j]) || (j == 0
            && dec_repr(v)[j] == '-')) by {
            if j > 0 {
                assert(dec_repr(v)[j] == d[j - 1]);
            }
        }
        assert(dec_repr(v).last() == d.last());
    } else {
        lemma_nat_digits(v as nat);
    }
}

/// The line of a saved pixel names that pixel.
proof fn lemma_line_pixel(p: BadPixel)
    ensures
        ({
            let body = dec_repr(p.x as int) + seq![' '] + dec_repr(p.y as int);
            &&& pixel_line(p) == body + seq!['\n']
            &&& forall|j: int| 0 <= j < body.len() ==> body[j] != '\n'
            &&& strip_cr(body) == body
            &&& line_pixel(body) == Some(p)
        }),
{
    let dx = dec_repr(p.x as int);
    let dy = dec_repr(p.y as int);
    let body = dx + seq![' '] + dy;
    lemma_dec_repr_chars(p.x as int);
    lemma_dec_repr_chars(p.y as int);
    assert(pixel_line(p) =~= body + seq!['\n']);
    let k = dx.len() as int;
    assert forall|j: int| 0 <= j < body.len() implies body[j] != '\n' by {
        if j < k {
            assert(body[j] == dx[j]);
        } else if j > k {
            assert(body[j] == dy[j - k - 1]);
        }
    }
    assert(body.last() == dy.last());
    assert forall|j: int| 0 <= j < k implies body[j] != ' ' by {
        assert(body[j] == dx[j]);
    }
    assert(body[k] == ' ');
    let w = choose|i: int| 0 <= i < body.len() && body[i] == ' ' && forall|j: int| 0 <= j < i ==> body[j] != ' ';
    assert(0 <= k < body.len() && body[k] == ' ' && forall|j: int| 0 <= j < k ==> body[j] != ' ');
    assert(w == k) by {
        if w < k {
            assert(body[w] != ' ');
        }
        if w > k {
            assert(body[k] != ' ');
        }
    }
    assert(find_char(body, ' ') == Some(k));
    assert(body.take(k) =~= dx);
    assert(body.skip(k + 1) =~= dy);
    lemma_parse_dec_repr(p.x as int, isize::MIN as int, isize::MAX as int);
    lemma_parse_dec_repr(p.y as int, isize::MIN as int, isize::MAX as int);
}

proof fn lemma_pixels_text_front(items: Seq<BadPixel>)
    requires
        items.len() > 0,
    ensures
        pixels_text(items) == pixel_line(items[0]) + pixels_text(items.drop_first()),
    decreases items.len(),
{
    if items.len() == 1 {
        assert(items.drop_last() =~= Seq::<BadPixel>::empty());
        assert(items.drop_first() =~= Seq::<BadPixel>::empty());
        assert(pixels_text(items) =~= pixel_line(items[0]) + pixels_text(items.drop_first()));
    } else {
        let init = items.drop_last();
        lemma_pixels_text_front(init);
        assert(init.drop_first() =~= items.drop_first().drop_last());
        assert(init[0] == items[0]);
        assert(items.drop_first().last() == items.last());
        assert(pixels_text(items) =~= pixel_line(items[0]) + pixels_text(items.drop_first()));
    }
}

/// Loading the text that saving pixels gives yields the same pixels, in the same order.
pub proof fn lemma_bad_pixels_round_trip(items: Seq<BadPixel>)
    ensures
        lines_pixels(text_lines(pixels_text(items))) == items,
    decreases items.len(),
{
    if items.len() == 0 {
        assert(text_lines(pixels_text(items)) =~= Seq::<Seq<char>>::empty());
    } else {
        let p = items[0];
        let rest = items.drop_first();
        lemma_pixels_text_front(items);
        lemma_line_pixel(p);
        let body = dec_repr(p.x as int) + seq![' '] + dec_repr(p.y as int);
        lemma_lines_from_line(body, pixels_text(rest), Seq::empty());
        assert(Seq::<char>::empty() + body =~= body);
        assert(pixels_text(items) =~= body + seq!['\n'] + pixels_text(rest));
        let ls = text_lines(pixels_text(items));
        assert(ls == seq![body] + text_lines(pixels_text(rest)));
        assert(ls[0] == body);
        assert(ls.drop_first() =~= text_lines(pixels_text(rest)));
        lemma_bad_pixels_round_trip(rest);
        assert(items =~= seq![p] + rest);
    }
}

/// The pixel lies inside a frame of `w` x `h` pixels.
pub open spec fn pixel_inside(p: BadPixel, w: int, h: int) -> bool {
    0 <= p.x < w && 0 <= p.y < h
}

/// No pixel occurs twice.
pub open spec fn no_repeats(s: Seq<BadPixel>) -> bool {
    forall|i: int, j: int| 0 <= i < j < s.len() ==> s[i] != s[j]
}

proof fn lemma_line_hot_inside(s: Seq<u16>, columns: bool, k: int, border: int, w: int, h: int)
    requires
        0 <= k,
        columns ==> k < w && s.len() == h,
        !columns ==> k < h && s.len() == w,
        w <= isize::MAX,
        h <= isize::MAX,
    ensures
        forall|j: int| 0 <= j < line_hot(s, columns, k, border).len() ==> pixel_inside(#[trigger] line_hot(s, columns, k, border)[j], w, h),
{
    let idx = Seq::new(s.len(), |i: int| i);
    let pred = |i: int| line_diff(s, i) > border;
    let f = idx.filter(pred);
    assert forall|j: int| 0 <= j < f.len() implies 0 <= #[trigger] f[j] < s.len() by {
        assert(f.contains(f[j]));
        idx.lemma_filter_contains_rev(pred, f[j]);
    }
}

proof fn lemma_frame_hot_inside(d: Seq<u16>, w: int, h: int, columns: bool, border: int, k: int)
    requires
        d.len() == w * h,
        0 <= w <= isize::MAX,
        0 <= h <= isize::MAX,
        columns ==> k <= w,
        !columns ==> k <= h,
    ensures
        forall|j: int| 0 <= j < frame_hot(d, w, h, columns, border, k).len() ==> pixel_inside(#[trigger] frame_hot(d, w, h, columns, border, k)[j], w, h),
    decreases k,
{
    if k > 0 {
        lemma_frame_hot_inside(d, w, h, columns, border, k - 1);
        let line = frame_line(d, w, h, columns, k - 1);
        if !columns {
            assert((k - 1) * w + w <= w * h) by (nonlinear_arith)
                requires k <= h, w >= 0;
            assert(0 <= (k - 1) * w) by (nonlinear_arith)
                requires k >= 1, w >= 0;
        }
        lemma_line_hot_inside(line, columns, k - 1, border, w, h);
        let a = frame_hot(d, w, h, columns, border, k - 1);
        let b = line_hot(line, columns, k - 1, border);
        assert forall|j: int| 0 <= j < (a + b).len() implies pixel_inside(#[trigger] (a + b)[j], w, h) by {
            if j < a.len() {
                assert((a + b)[j] == a[j]);
            } else {
                assert((a + b)[j] == b[j - a.len()]);
            }
        }
    }
}

/// Appends a pixel unless it is there already.
fn push_unique(r: &mut Vec<BadPixel>, p: BadPixel)
    requires
        no_repeats(old(r)@),
    ensures
        no_repeats(final(r)@),
        forall|q: BadPixel| #![trigger final(r)@.contains(q)] #![trigger old(r)@.contains(q)] final(r)@.contains(q) <==> (old(r)@.contains(q) || q == p),
{
    let mut found = false;
    let mut j: usize = 0;
    while j < r.len()
        invariant
            j <= r@.len(),
            found == (exists|i: int| 0 <= i < j && r@[i] == p),
        decreases r@.len() - j,
    {
        if r[j] == p {
            found = true;
        }
        j = j + 1;
    }
    let ghost r0 = r@;
    if !found {
        r.push(p);
        proof {
            assert forall|i1: int, i2: int| 0 <= i1 < i2 < r@.len() implies r@[i1] != r@[i2] by {
                if i2 == r@.len() - 1 {
                    assert(r@[i1] == r0[i1]);
                } else {
                    assert(r@[i1] == r0[i1] && r@[i2] == r0[i2]);
                }
            }
            assert forall|q: BadPixel| r@.contains(q) <==> (r0.contains(q) || q == p) by {
                if r@.contains(q) {
                    let t = choose|t: int| 0 <= t < r@.len() && r@[t] == q;
                    if t < r0.len() {
                        assert(r0[t] == q);
                    }
                }
                if r0.contains(q) {
                    let t = choose|t: int| 0 <= t < r0.len() && r0[t] == q;
                    assert(r@[t] == q);
                }
                if q == p {
                    assert(r@[r@.len() - 1] == q);
                }
            }
        }
    } else {
        proof {
            assert forall|q: BadPixel| r@.contains(q) <==> (r0.contains(q) || q == p) by {
                if q == p {
                    let t = choose|t: int| 0 <= t < j && r@[t] == p;
                    assert(r@[t] == q);
                }
            }
        }
    }
}

/// Appends the pixels of `a` not there already, each once.
fn push_all_unique(r: &mut Vec<BadPixel>, a: &Vec<BadPixel>)
    requires
        no_repeats(old(r)@),
    ensures
        no_repeats(final(r)@),
        forall|q: BadPixel| #![trigger final(r)@.contains(q)] #![trigger old(r)@.contains(q)] #![trigger a@.contains(q)] final(r)@.contains(q) <==> (old(r)@.contains(q) || a@.contains(q)),
{
    let ghost r0 = r@;
    let mut k: usize = 0;
    while k < a.len()
        invariant
            k <= a@.len(),
            no_repeats(r@),
            forall|q: BadPixel| #![trigger r@.contains(q)] #![trigger r0.contains(q)] #![trigger a@.take(k as int).contains(q)] r@.contains(q) <==> (r0.contains(q) || a@.take(k as int).contains(q)),
        decreases a@.len() - k,
    {
        let ghost r1 = r@;
        push_unique(r, a[k]);
        proof {
            assert forall|q: BadPixel| a@.take(k + 1).contains(q) <==> (a@.take(k as int).contains(q) || q == a@[k as int]) by {
                if a@.take(k + 1).contains(q) {
                    let t = choose|t: int| 0 <= t < k + 1 && #[trigger] a@.take(k + 1)[t] == q;
                    if t < k {
                        assert(a@.take(k as int)[t] == q);
                    }
                }
                if a@.take(k as int).contains(q) {
                    let t = choose|t: int| 0 <= t < k && #[trigger] a@.take(k as int)[t] == q;
                    assert(a@.take(k + 1)[t] == q);
                }
                if q == a@[k as int] {
                    assert(a@.take(k + 1)[k as int] == q);
                }
            }
            assert forall|q: BadPixel| r@.contains(q) <==> (r0.contains(q) || a@.take(k + 1).contains(q)) by {
                assert(r@.contains(q) <==> (r1.contains(q) || q == a@[k as int]));
                assert(r1.contains(q) <==> (r0.contains(q) || a@.take(k as int).contains(q)));
            }
        }
        k = k + 1;
    }
    proof {
        assert(a@.take(k as int) =~= a@);
    }
}

/// Pixels of `a`, then of `b`, each kept once, in the order they first occur.
fn merge_pixels(a: &Vec<BadPixel>, b: &Vec<BadPixel>) -> (r: Vec<BadPixel>)
    ensures
        no_repeats(r@),
        forall|p: BadPixel| #![trigger r@.contains(p)] #![trigger a@.contains(p)] #![trigger b@.contains(p)] r@.contains(p) <==> (a@.contains(p) || b@.contains(p)),
{
    let mut r: Vec<BadPixel> = Vec::new();
    let ghost r0 = r@;
    push_all_unique(&mut r, a);
    let ghost r1 = r@;
    push_all_unique(&mut r, b);
    proof {
        assert forall|p: BadPixel| r@.contains(p) <==> (a@.contains(p) || b@.contains(p)) by {
            assert(!r0.contains(p));
            assert(r1.contains(p) <==> (r0.contains(p) || a@.contains(p)));
            assert(r@.contains(p) <==> (r1.contains(p) || b@.contains(p)));
        }
    }
    r
}

impl RawImage {
    /// Hot pixels of a master dark: those of the rows above `row_border` and those of the
    /// columns above `col_border` (see `frame_hot`), each pixel once; all lie inside the
    /// frame.
    pub fn master_dark_hot_pixels(&self, row_border: i32, col_border: i32) -> (r: Vec<BadPixel>)
        requires
            self.wf(),
            self@.1 >= 7,
            self@.2 >= 7,
            self@.1 <= isize::MAX,
            self@.2 <= isize::MAX,
        ensures
            no_repeats(r@),
            forall|p: BadPixel|
                r@.contains(p) <==> (frame_hot(self@.0, self@.1 as int, self@.2 as int, false, row_border as int, self@.2 as int).contains(p)
                    || frame_hot(self@.0, self@.1 as int, self@.2 as int, true, col_border as int, self@.1 as int).contains(p)),
            forall|j: int| 0 <= j < r@.len() ==> pixel_inside(#[trigger] r@[j], self@.1 as int, self@.2 as int),
    {
        let rows = self.dark_hot_pixels(false, row_border);
        let cols = self.dark_hot_pixels(true, col_border);
        let r = merge_pixels(&rows, &cols);
        proof {
            let w = self@.1 as int;
            let h = self@.2 as int;
            lemma_frame_hot_inside(self@.0, w, h, false, row_border as int, h);
            lemma_frame_hot_inside(self@.0, w, h, true, col_border as int, w);
            assert forall|j: int| 0 <= j < r@.len() implies pixel_inside(#[trigger] r@[j], w, h) by {
                assert(r@.contains(r@[j]));
                if rows@.contains(r@[j]) {
                    let t = choose|t: int| 0 <= t < rows@.len() && rows@[t] == r@[j];
                    assert(pixel_inside(rows@[t], w, h));
                } else {
                    let t = choose|t: int| 0 <= t < cols@.len() && cols@[t] == r@[j];
                    assert(pixel_inside(cols@[t], w, h));
                }
            }
        }
        r
    }
}

} // verus!
