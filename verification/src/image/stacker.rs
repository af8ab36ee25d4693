use vstd::prelude::*;

use crate::image::image::{crd_sample, lemma_crd_sample_at_pixel, Image, ImageLayer, ImageModel, CRD_DIV};
use crate::image::raw::{div_i64, div_toward_zero};

verus! {

/// A turn and a shift of a frame against the stack, in fixed point: the cosine and the
/// sine of the angle in units of 1/65536, the shift in units of 1/256 pixel.
#[derive(Debug, Copy, Clone)]
pub struct Transform {
    pub cos_a: i64,
    pub sin_a: i64,
    pub transl_x: i64,
    pub transl_y: i64,
}

pub open spec fn abs_int(v: int) -> int {
    if v < 0 {
        -v
    } else {
        v
    }
}

/// Where pixel `(x, y)` of the stack takes its level in a frame of `w` x `h` pixels, in
/// units of 1/256 pixel: shifted back, then turned about the frame's center.
pub open spec fn source_crd(t: Transform, w: int, h: int, x: int, y: int) -> (int, int) {
    let cx = (w - 1) * 128;
    let cy = (h - 1) * 128;
    let dx = x * 256 - t.transl_x - cx;
    let dy = y * 256 - t.transl_y - cy;
    (cx + div_toward_zero(dx * t.cos_a - dy * t.sin_a, 65536), cy + div_toward_zero(dy * t.cos_a + dx * t.sin_a, 65536))
}

/// How many whole rows of the frame's width a channel of `n` sums holds.
pub open spec fn rows_of(n: int, src: (Seq<u16>, usize, usize)) -> int {
    if src.1 == 0 {
        0
    } else {
        n / (src.1 as int)
    }
}

/// The level of the frame that pixel `i` of the stack takes, if any: none for pixels past
/// the whole rows of the frame's width, or with no level at their source.
pub open spec fn layer_sample(n: int, src: (Seq<u16>, usize, usize), t: Transform, i: int) -> Option<u16> {
    let sw = src.1 as int;
    if src.1 == 0 || i >= rows_of(n, src) * sw {
        None
    } else {
        let p = source_crd(t, sw, src.2 as int, i % sw, i / sw);
        crd_sample(src, p.0, p.1)
    }
}

/// The transform keeps the arithmetic for `n` sums and a frame within 64 bits.
pub open spec fn transform_fits(t: Transform, n: int, src: (Seq<u16>, usize, usize)) -> bool {
    &&& -65536 <= t.cos_a <= 65536
    &&& -65536 <= t.sin_a <= 65536
    &&& src.1 * 256 + abs_int(t.transl_x as int) <= 0x1000_0000_0000
    &&& src.2 * 256 + rows_of(n, src) * 256 + abs_int(t.transl_y as int) <= 0x1000_0000_0000
}

/// Sums with a frame layer added where it has a level.
pub open spec fn sums_added(sums: Seq<i32>, src: (Seq<u16>, usize, usize), t: Transform) -> Seq<i32> {
    Seq::new(
        sums.len(),
        |i: int|
            match layer_sample(sums.len() as int, src, t, i) {
                Some(v) => (sums[i] + v) as i32,
                None => sums[i],
            },
    )
}

/// Counts with one added where a frame layer has a level.
pub open spec fn counts_added(cnt: Seq<u16>, n: int, src: (Seq<u16>, usize, usize), t: Transform) -> Seq<u16> {
    Seq::new(
        cnt.len(),
        |i: int|
            match layer_sample(n, src, t, i) {
                Some(v) => (cnt[i] + 1) as u16,
                None => cnt[i],
            },
    )
}

/// Adding the layer overflows no sum and, when it counts, no count.
pub open spec fn layer_addable(sums: Seq<i32>, cnt: Seq<u16>, src: (Seq<u16>, usize, usize), t: Transform, count: bool) -> bool {
    &&& cnt.len() == sums.len()
    &&& forall|i: int|
        0 <= i < sums.len() ==> (#[trigger] layer_sample(sums.len() as int, src, t, i) matches Some(v) ==> sums[i] + v
            <= i32::MAX && (count ==> cnt[i] < u16::MAX))
}

/// The level of the frame at the source of pixel `(x, y)` (see `layer_sample`).
fn sample_at_source(src: &ImageLayer<u16>, t: &Transform, x: usize, y: usize, n: usize) -> (r: Option<u16>)
    requires
        src.wf(),
        src@.1 > 0,
        transform_fits(*t, n as int, src@),
        x < src@.1,
        y < rows_of(n as int, src@),
    ensures
        r == layer_sample(n as int, src@, *t, y * src@.1 + x),
{
    let sw = src.width();
    let sh = src.height();
    proof {
        assert((y * sw + x) % (sw as int) == x && (y * sw + x) / (sw as int) == y) by (nonlinear_arith)
            requires x < sw, sw > 0;
        assert(y * sw + x < rows_of(n as int, src@) * sw) by (nonlinear_arith)
            requires x < sw, y < rows_of(n as int, src@);
    }
    let cx: i64 = (sw as i64 - 1) * 128;
    let cy: i64 = (sh as i64 - 1) * 128;
    let dx: i64 = x as i64 * 256 - t.transl_x - cx;
    let dy: i64 = y as i64 * 256 - t.transl_y - cy;
    proof {
        assert(-0x1000_0000_0000 <= dx <= 0x1000_0000_0000);
        assert(-0x2000_0000_0000 <= dy <= 0x2000_0000_0000);
        assert(-0x1000_0000_0000_0000 <= dx * t.cos_a <= 0x1000_0000_0000_0000) by (nonlinear_arith)
            requires -0x1000_0000_0000 <= dx <= 0x1000_0000_0000, -65536 <= t.cos_a <= 65536;
        assert(-0x1000_0000_0000_0000 <= dx * t.sin_a <= 0x1000_0000_0000_0000) by (nonlinear_arith)
            requires -0x1000_0000_0000 <= dx <= 0x1000_0000_0000, -65536 <= t.sin_a <= 65536;
        assert(-0x2000_0000_0000_0000 <= dy * t.cos_a <= 0x2000_0000_0000_0000) by (nonlinear_arith)
            requires -0x2000_0000_0000 <= dy <= 0x2000_0000_0000, -65536 <= t.cos_a <= 65536;
        assert(-0x2000_0000_0000_0000 <= dy * t.sin_a <= 0x2000_0000_0000_0000) by (nonlinear_arith)
            requires -0x2000_0000_0000 <= dy <= 0x2000_0000_0000, -65536 <= t.sin_a <= 65536;
    }
    let qx = div_i64(dx * t.cos_a - dy * t.sin_a, 65536);
    let qy = div_i64(dy * t.cos_a + dx * t.sin_a, 65536);
    proof {
        assert(-0x3000_0000_0000_0000 <= qx <= 0x3000_0000_0000_0000);
        assert(-0x3000_0000_0000_0000 <= qy <= 0x3000_0000_0000_0000);
    }
    src.get_crd_i64(cx + qx, cy + qy)
}

/// Adds a frame layer to the sums where it has a level (see `sums_added`), counting
/// those pixels when `count` is set.
fn add_layer(dst: &mut Vec<i32>, cnt: &mut Vec<u16>, src: &ImageLayer<u16>, t: &Transform, count: bool)
    requires
        src.wf(),
        !(src@.1 == 0 && src@.2 == 0) ==> src@.1 > 0 && transform_fits(*t, old(dst)@.len() as int, src@),
        layer_addable(old(dst)@, old(cnt)@, src@, *t, count),
    ensures
        src@.1 == 0 && src@.2 == 0 ==> final(dst)@ == old(dst)@ && final(cnt)@ == old(cnt)@,
        !(src@.1 == 0 && src@.2 == 0) ==> {
            &&& final(dst)@ == sums_added(old(dst)@, src@, *t)
            &&& final(cnt)@ == if count {
                counts_added(old(cnt)@, old(dst)@.len() as int, src@, *t)
            } else {
                old(cnt)@
            }
        },
{
    if src.is_empty() {
        return;
    }
    let n = dst.len();
    let sw = src.width();
    let rows = n / sw;
    let ghost d0 = dst@;
    let ghost c0 = cnt@;
    let mut y: usize = 0;
    proof {
        assert(rows * sw <= n) by (nonlinear_arith)
            requires rows == n / sw, sw > 0;
    }
    while y < rows
        invariant
            src.wf(),
            sw == src@.1,
            sw > 0,
            n == d0.len(),
            rows == rows_of(n as int, src@),
            rows * sw <= n,
            transform_fits(*t, n as int, src@),
            layer_addable(d0, c0, src@, *t, count),
            dst@.len() == n,
            cnt@.len() == n,
            y <= rows,
            forall|i: int| 0 <= i < y * sw ==> #[trigger] dst@[i] == sums_added(d0, src@, *t)[i],
            forall|i: int|
                0 <= i < y * sw ==> #[trigger] cnt@[i] == (if count {
                    counts_added(c0, n as int, src@, *t)
                } else {
                    c0
                })[i],
            forall|i: int| y * sw <= i < n ==> #[trigger] dst@[i] == d0[i],
            forall|i: int| y * sw <= i < n ==> #[trigger] cnt@[i] == c0[i],
        decreases rows - y,
    {
        let mut x: usize = 0;
        proof {
            assert((y + 1) * sw == y * sw + sw && (y + 1) * sw <= rows * sw) by (nonlinear_arith)
                requires y < rows, sw > 0;
        }
        while x < sw
            invariant
                src.wf(),
                sw == src@.1,
                sw > 0,
                n == d0.len(),
                rows == rows_of(n as int, src@),
                transform_fits(*t, n as int, src@),
                layer_addable(d0, c0, src@, *t, count),
                dst@.len() == n,
                cnt@.len() == n,
                y < rows,
                (y + 1) * sw <= n,
                x <= sw,
                forall|i: int| 0 <= i < y * sw + x ==> #[trigger] dst@[i] == sums_added(d0, src@, *t)[i],
                forall|i: int|
                    0 <= i < y * sw + x ==> #[trigger] cnt@[i] == (if count {
                        counts_added(c0, n as int, src@, *t)
                    } else {
                        c0
                    })[i],
                forall|i: int| y * sw + x <= i < n ==> #[trigger] dst@[i] == d0[i],
                forall|i: int| y * sw + x <= i < n ==> #[trigger] cnt@[i] == c0[i],
            decreases sw - x,
        {
            proof {
                assert(y * sw + x < (y + 1) * sw) by (nonlinear_arith)
                    requires x < sw;
            }
            let i = y * sw + x;
            let v = sample_at_source(src, t, x, y, n);
            if let Some(v) = v {
                let s = dst[i];
                dst.set(i, s + v as i32);
                if count {
                    let c = cnt[i];
                    cnt.set(i, c + 1);
                }
            }
            x = x + 1;
        }
        proof {
            assert((y + 1) * sw == y * sw + sw) by (nonlinear_arith);
        }
        y = y + 1;
    }
    proof {
        assert forall|i: int| rows * sw <= i < n implies layer_sample(n as int, src@, *t, i) is None by {}
        assert(dst@ =~= sums_added(d0, src@, *t));
        if count {
            assert(cnt@ =~= counts_added(c0, n as int, src@, *t));
        } else {
            assert(cnt@ =~= c0);
        }
    }
}

/// What a stacker holds: the sums of the levels of each channel (empty where the frames have
/// no such channel), how many frames gave each pixel a level, the size and largest level
/// of the stack, and how many frames were added.
pub struct StackerModel {
    pub r: Seq<i32>,
    pub g: Seq<i32>,
    pub b: Seq<i32>,
    pub l: Seq<i32>,
    pub cnt: Seq<u16>,
    pub width: usize,
    pub height: usize,
    pub max_value: u16,
    pub frames: u32,
}

/// A channel is unused (empty) or has a sum for each counted pixel.
pub open spec fn chan_fits(sums: Seq<i32>, n: int) -> bool {
    sums.len() == 0 || sums.len() == n
}

impl StackerModel {
    /// The counts cover the stack's size and each used channel covers the counts.
    pub open spec fn wf(self) -> bool {
        &&& self.cnt.len() == self.width * self.height
        &&& chan_fits(self.r, self.cnt.len() as int)
        &&& chan_fits(self.g, self.cnt.len() as int)
        &&& chan_fits(self.b, self.cnt.len() as int)
        &&& chan_fits(self.l, self.cnt.len() as int)
    }

    /// Nothing stacked: no sums and no counts.
    pub open spec fn is_empty(self) -> bool {
        self.r.len() == 0 && self.g.len() == 0 && self.b.len() == 0 && self.l.len() == 0
            && self.cnt.len() == 0
    }
}

/// The width of an image: that of its luminance layer, or of the red one where that is zero.
pub open spec fn image_width(img: ImageModel) -> usize {
    if img.l.1 != 0 {
        img.l.1
    } else {
        img.r.1
    }
}

/// The height of an image, taken as its width is.
pub open spec fn image_height(img: ImageModel) -> usize {
    if img.l.2 != 0 {
        img.l.2
    } else {
        img.r.2
    }
}

/// A color image: no luminance layer, all three color layers.
pub open spec fn image_is_color(img: ImageModel) -> bool {
    Image::layer_empty(img.l) && !Image::layer_empty(img.r) && !Image::layer_empty(img.g)
        && !Image::layer_empty(img.b)
}

/// The stacker ready for a frame: an empty one takes the frame's size and largest level and
/// zero sums for the frame's channels; any other stays as it is.
pub open spec fn started(m: StackerModel, img: ImageModel) -> StackerModel {
    if m.is_empty() {
        let n = image_width(img) * image_height(img);
        let zeros = Seq::new(n as nat, |i: int| 0i32);
        let color = image_is_color(img);
        StackerModel {
            r: if color { zeros } else { m.r },
            g: if color { zeros } else { m.g },
            b: if color { zeros } else { m.b },
            l: if color { m.l } else { zeros },
            cnt: Seq::new(n as nat, |i: int| 0u16),
            width: image_width(img),
            height: image_height(img),
            max_value: img.max_value,
            frames: m.frames,
        }
    } else {
        m
    }
}

/// A channel's sums and the counts after a frame layer is added: unchanged where the layer
/// is empty or the channel unused, otherwise as `add_layer` leaves them.
pub open spec fn chan_after(sums: Seq<i32>, cnt: Seq<u16>, layer: (Seq<u16>, usize, usize), t: Transform, count: bool) -> (Seq<i32>, Seq<u16>) {
    if Image::layer_empty(layer) || sums.len() != cnt.len() {
        (sums, cnt)
    } else {
        (sums_added(sums, layer, t), if count {
            counts_added(cnt, sums.len() as int, layer, t)
        } else {
            cnt
        })
    }
}

/// A frame layer can be added to a channel: it is empty or the channel unused, or it has
/// whole rows, the transform fits and no sum or count overflows.
pub open spec fn chan_addable(sums: Seq<i32>, cnt: Seq<u16>, layer: (Seq<u16>, usize, usize), t: Transform, count: bool) -> bool {
    Image::layer_empty(layer) || sums.len() != cnt.len() || {
        &&& layer.1 > 0
        &&& transform_fits(t, sums.len() as int, layer)
        &&& layer_addable(sums, cnt, layer, t, count)
    }
}

/// The stacker after a frame is added: red and green add their levels, blue and luminance
/// add theirs and count the pixels they reach; one more frame.
pub open spec fn frame_added(m: StackerModel, img: ImageModel, t: Transform) -> StackerModel {
    let s = started(m, img);
    let rc = chan_after(s.r, s.cnt, img.r, t, false);
    let gc = chan_after(s.g, rc.1, img.g, t, false);
    let bc = chan_after(s.b, gc.1, img.b, t, true);
    let lc = chan_after(s.l, bc.1, img.l, t, true);
    StackerModel {
        r: rc.0,
        g: gc.0,
        b: bc.0,
        l: lc.0,
        cnt: lc.1,
        width: s.width,
        height: s.height,
        max_value: s.max_value,
        frames: (s.frames + 1) as u32,
    }
}

/// Every layer of the frame can be added in turn (see `chan_addable`).
pub open spec fn frame_addable(m: StackerModel, img: ImageModel, t: Transform) -> bool {
    let s = started(m, img);
    let rc = chan_after(s.r, s.cnt, img.r, t, false);
    let gc = chan_after(s.g, rc.1, img.g, t, false);
    let bc = chan_after(s.b, gc.1, img.b, t, true);
    &&& chan_addable(s.r, s.cnt, img.r, t, false)
    &&& chan_addable(s.g, rc.1, img.g, t, false)
    &&& chan_addable(s.b, gc.1, img.b, t, true)
    &&& chan_addable(s.l, bc.1, img.l, t, true)
}

/// The level of a stacked pixel: its sum divided by its count, rounded toward zero and
/// kept within `0..=65535`; zero where no frame reached it.
pub open spec fn mean_level(sum: i32, count: u16) -> u16 {
    if count == 0 {
        0
    } else {
        let v = div_toward_zero(sum as int, count as int);
        (if v < 0 {
            0
        } else if v > 65535 {
            65535
        } else {
            v
        }) as u16
    }
}

/// The levels of a channel, pixel by pixel.
pub open spec fn mean_levels(sums: Seq<i32>, cnt: Seq<u16>) -> Seq<u16> {
    Seq::new(sums.len(), |i: int| mean_level(sums[i], cnt[i]))
}

/// Stacks frames that are turned and shifted onto the first: sums of levels per channel
/// and, per pixel, how many frames reached it.
pub struct Stacker {
    r: Vec<i32>,
    g: Vec<i32>,
    b: Vec<i32>,
    l: Vec<i32>,
    cnt: Vec<u16>,
    width: usize,
    height: usize,
    max_value: u16,
    frames_cnt: u32,
}

impl View for Stacker {
    type V = StackerModel;

    closed spec fn view(&self) -> StackerModel {
        StackerModel {
            r: self.r@,
            g: self.g@,
            b: self.b@,
            l: self.l@,
            cnt: self.cnt@,
            width: self.width,
            height: self.height,
            max_value: self.max_value,
            frames: self.frames_cnt,
        }
    }
}

/// The level of one stacked pixel (see `mean_level`).
fn mean_level_of(sum: i32, count: u16) -> (r: u16)
    ensures
        r == mean_level(sum, count),
{
    if count == 0 {
        return 0;
    }
    let v = div_i64(sum as i64, count as i64);
    if v < 0 {
        0
    } else if v > 65535 {
        65535
    } else {
        v as u16
    }
}

/// The levels of a channel (see `mean_levels`).
fn chan_levels(sums: &Vec<i32>, cnt: &Vec<u16>) -> (r: Vec<u16>)
    requires
        sums@.len() <= cnt@.len(),
    ensures
        r@ == mean_levels(sums@, cnt@),
{
    let mut r: Vec<u16> = Vec::with_capacity(sums.len());
    let mut i: usize = 0;
    while i < sums.len()
        invariant
            sums@.len() <= cnt@.len(),
            i <= sums@.len(),
            r@ =~= mean_levels(sums@, cnt@).take(i as int),
        decreases sums@.len() - i,
    {
        let v = mean_level_of(sums[i], cnt[i]);
        r.push(v);
        i = i + 1;
        proof {
            assert(r@ =~= mean_levels(sums@, cnt@).take(i as int));
        }
    }
    proof {
        assert(mean_levels(sums@, cnt@).take(i as int) =~= mean_levels(sums@, cnt@));
    }
    r
}

/// Adds a frame layer to a channel where the channel covers the counts (see `chan_after`).
fn add_chan(dst: &mut Vec<i32>, cnt: &mut Vec<u16>, src: &ImageLayer<u16>, t: &Transform, count: bool)
    requires
        src.wf(),
        chan_addable(old(dst)@, old(cnt)@, src@, *t, count),
    ensures
        (final(dst)@, final(cnt)@) == chan_after(old(dst)@, old(cnt)@, src@, *t, count),
{
    if src.is_empty() || dst.len() != cnt.len() {
        return;
    }
    add_layer(dst, cnt, src, t, count);
}

impl Stacker {
    pub fn new() -> (res: Self)
        ensures
            res@.wf(),
            res@.is_empty(),
            res@.width == 0,
            res@.height == 0,
            res@.max_value == 0,
            res@.frames == 0,
    {
        Stacker {
            r: Vec::new(),
            g: Vec::new(),
            b: Vec::new(),
            l: Vec::new(),
            cnt: Vec::new(),
            width: 0,
            height: 0,
            max_value: 0,
            frames_cnt: 0,
        }
    }

    pub fn is_empty(&self) -> (r: bool)
        ensures
            r == self@.is_empty(),
    {
        self.l.len() == 0 && self.r.len() == 0 && self.g.len() == 0 && self.b.len() == 0
            && self.cnt.len() == 0
    }

    pub fn clear(&mut self)
        ensures
            final(self)@.wf(),
            final(self)@.is_empty(),
            final(self)@.width == 0,
            final(self)@.height == 0,
            final(self)@.max_value == 0,
            final(self)@.frames == 0,
    {
        self.l.clear();
        self.r.clear();
        self.g.clear();
        self.b.clear();
        self.cnt.clear();
        self.width = 0;
        self.height = 0;
        self.max_value = 0;
        self.frames_cnt = 0;
    }

    /// Adds a frame turned and shifted by `t` (see `frame_added`).
    pub fn add(&mut self, image: &Image, t: &Transform)
        requires
            old(self)@.wf(),
            image.l.wf(),
            image.r.wf(),
            image.g.wf(),
            image.b.wf(),
            image_width(image.model()) * image_height(image.model()) <= usize::MAX,
            old(self)@.frames < u32::MAX,
            frame_addable(old(self)@, image.model(), *t),
        ensures
            final(self)@ == frame_added(old(self)@, image.model(), *t),
            final(self)@.wf(),
    {
        if self.is_empty() {
            let data_len = image.width() * image.height();
            if image.is_color() {
                self.r.resize(data_len, 0);
                self.g.resize(data_len, 0);
                self.b.resize(data_len, 0);
            } else {
                self.l.resize(data_len, 0);
            }
            self.cnt.resize(data_len, 0);
            self.width = image.width();
            self.height = image.height();
            self.max_value = image.max_value();
            proof {
                let s = started(old(self)@, image.model());
                assert(self.r@ =~= s.r);
                assert(self.g@ =~= s.g);
                assert(self.b@ =~= s.b);
                assert(self.l@ =~= s.l);
                assert(self.cnt@ =~= s.cnt);
            }
        }
        assert(self@ == started(old(self)@, image.model()));
        add_chan(&mut self.r, &mut self.cnt, &image.r, t, false);
        add_chan(&mut self.g, &mut self.cnt, &image.g, t, false);
        add_chan(&mut self.b, &mut self.cnt, &image.b, t, true);
        add_chan(&mut self.l, &mut self.cnt, &image.l, t, true);
        self.frames_cnt = self.frames_cnt + 1;
    }

    /// Writes the stacked levels into the image's layers for each used channel and sets
    /// its largest level; layers of unused channels are left as they are.
    pub fn copy_to_image(&self, image: &mut Image)
        requires
            self@.wf(),
        ensures
            final(image).r@ == (if self@.r.len() == 0 { old(image).r@ } else { (mean_levels(self@.r, self@.cnt), self@.width, self@.height) }),
            final(image).g@ == (if self@.g.len() == 0 { old(image).g@ } else { (mean_levels(self@.g, self@.cnt), self@.width, self@.height) }),
            final(image).b@ == (if self@.b.len() == 0 { old(image).b@ } else { (mean_levels(self@.b, self@.cnt), self@.width, self@.height) }),
            final(image).l@ == (if self@.l.len() == 0 { old(image).l@ } else { (mean_levels(self@.l, self@.cnt), self@.width, self@.height) }),
            final(image).max_level() == self@.max_value,
            final(image).zero_level() == old(image).zero_level(),
    {
        if self.r.len() != 0 {
            image.r = ImageLayer::new_mono(chan_levels(&self.r, &self.cnt), self.width, self.height);
        }
        if self.g.len() != 0 {
            image.g = ImageLayer::new_mono(chan_levels(&self.g, &self.cnt), self.width, self.height);
        }
        if self.b.len() != 0 {
            image.b = ImageLayer::new_mono(chan_levels(&self.b, &self.cnt), self.width, self.height);
        }
        if self.l.len() != 0 {
            image.l = ImageLayer::new_mono(chan_levels(&self.l, &self.cnt), self.width, self.height);
        }
        image.set_max_value(self.max_value);
    }
}

/// The transform that neither turns nor shifts.
pub open spec fn identity_transform() -> Transform {
    Transform { cos_a: 65536, sin_a: 0, transl_x: 0, transl_y: 0 }
}

/// A new or cleared stacker.
pub open spec fn empty_stack() -> StackerModel {
    StackerModel {
        r: Seq::empty(),
        g: Seq::empty(),
        b: Seq::empty(),
        l: Seq::empty(),
        cnt: Seq::empty(),
        width: 0,
        height: 0,
        max_value: 0,
        frames: 0,
    }
}

/// The stacker after `k` copies of one frame were added with `t`, starting empty.
pub open spec fn stacked_copies(img: ImageModel, t: Transform, k: nat) -> StackerModel
    decreases k,
{
    if k == 0 {
        empty_stack()
    } else {
        frame_added(stacked_copies(img, t, (k - 1) as nat), img, t)
    }
}

proof fn lemma_div_exact(a: int, d: int)
    requires
        d > 0,
    ensures
        div_toward_zero(a * d, d) == a,
{
    if a >= 0 {
        assert(a * d >= 0 && (a * d) / d == a) by (nonlinear_arith)
            requires a >= 0, d > 0;
    } else {
        assert(a * d < 0 && (-(a * d)) / d == -a) by (nonlinear_arith)
            requires a < 0, d > 0;
    }
}

/// Unturned and unshifted, each pixel of a whole frame takes its own level.
proof fn lemma_identity_sample(src: (Seq<u16>, usize, usize), i: int)
    requires
        src.0.len() == src.1 * src.2,
        src.1 > 0,
        0 <= i < src.0.len(),
    ensures
        layer_sample(src.0.len() as int, src, identity_transform(), i) == Some(src.0[i]),
{
    let w = src.1 as int;
    let h = src.2 as int;
    let n = src.0.len() as int;
    assert(rows_of(n, src) == h) by {
        assert((w * h) / w == h) by (nonlinear_arith)
            requires w > 0;
    }
    let x = i % w;
    let y = i / w;
    assert(0 <= x < w && 0 <= y < h && y * w + x == i) by (nonlinear_arith)
        requires 0 <= i < w * h, w > 0, x == i % w, y == i / w;
    let t = identity_transform();
    let cx = (w - 1) * 128;
    let cy = (h - 1) * 128;
    let dx = x * 256 - cx;
    let dy = y * 256 - cy;
    assert(dx * t.cos_a - dy * t.sin_a == dx * 65536);
    assert(dy * t.cos_a + dx * t.sin_a == dy * 65536);
    lemma_div_exact(dx, 65536);
    lemma_div_exact(dy, 65536);
    assert(source_crd(t, w, h, x, y) == (x * 256, y * 256));
    lemma_crd_sample_at_pixel(src, x, y);
    assert(CRD_DIV * x == x * 256 && CRD_DIV * y == y * 256);
}

/// A monochrome frame added to a stacker that sums luminance only: the luminance sums and
/// the counts take the frame layer, the rest stays.
proof fn lemma_mono_step(p: StackerModel, img: ImageModel, t: Transform)
    requires
        started(p, img).r.len() == 0,
        started(p, img).g.len() == 0,
        started(p, img).b.len() == 0,
        started(p, img).l.len() == started(p, img).cnt.len(),
        started(p, img).cnt.len() > 0,
        !Image::layer_empty(img.l),
    ensures
        ({
            let s = started(p, img);
            let q = frame_added(p, img, t);
            &&& q.l == sums_added(s.l, img.l, t)
            &&& q.cnt == counts_added(s.cnt, s.l.len() as int, img.l, t)
            &&& q.r.len() == 0 && q.g.len() == 0 && q.b.len() == 0
            &&& q.width == s.width && q.height == s.height
        }),
{
    let s = started(p, img);
    let rc = chan_after(s.r, s.cnt, img.r, t, false);
    assert(rc == (s.r, s.cnt));
    let gc = chan_after(s.g, rc.1, img.g, t, false);
    assert(gc == (s.g, s.cnt));
    let bc = chan_after(s.b, gc.1, img.b, t, true);
    assert(bc == (s.b, s.cnt));
}

/// Sums of `k - 1` times each level and counts of `k - 1`, with one more copy of the
/// layer added unturned and unshifted, become `k` times each level and counts of `k`.
proof fn lemma_add_copy(sums: Seq<i32>, cnt: Seq<u16>, src: (Seq<u16>, usize, usize), k: nat)
    requires
        src.0.len() == src.1 * src.2,
        src.1 > 0,
        1 <= k <= 32768,
        sums == Seq::new(src.0.len(), |i: int| ((k - 1) * src.0[i]) as i32),
        cnt == Seq::new(src.0.len(), |i: int| (k - 1) as u16),
    ensures
        sums_added(sums, src, identity_transform()) == Seq::new(src.0.len(), |i: int| (k * src.0[i]) as i32),
        counts_added(cnt, src.0.len() as int, src, identity_transform()) == Seq::new(src.0.len(), |i: int| k as u16),
{
    let t = identity_transform();
    let n = src.0.len();
    let a = sums_added(sums, src, t);
    let c = counts_added(cnt, n as int, src, t);
    assert forall|i: int| #![trigger a[i]] #![trigger c[i]] 0 <= i < n implies a[i] == (k * src.0[i]) as i32 && c[i] == k as u16 by {
        lemma_identity_sample(src, i);
        assert(0 <= (k - 1) * src.0[i] <= 32768 * 65535) by (nonlinear_arith)
            requires 1 <= k <= 32768, 0 <= src.0[i] <= 65535;
        assert((k - 1) * src.0[i] + src.0[i] == k * src.0[i]) by (nonlinear_arith);
    }
    assert(a =~= Seq::new(n, |i: int| (k * src.0[i]) as i32));
    assert(c =~= Seq::new(n, |i: int| k as u16));
}

/// Several copies of a monochrome frame, neither turned nor shifted, stack to sums of
/// that many times each level, with that many counted at each pixel.
proof fn lemma_copies_mono(img: ImageModel, k: nat)
    requires
        img.l.0.len() == img.l.1 * img.l.2,
        img.l.1 > 0,
        img.l.2 > 0,
        1 <= k <= 32768,
    ensures
        ({
            let s = stacked_copies(img, identity_transform(), k);
            &&& s.l == Seq::new(img.l.0.len(), |i: int| (k * img.l.0[i]) as i32)
            &&& s.cnt == Seq::new(img.l.0.len(), |i: int| k as u16)
            &&& s.r.len() == 0 && s.g.len() == 0 && s.b.len() == 0
            &&& s.width == img.l.1 && s.height == img.l.2
        }),
    decreases k,
{
    let t = identity_transform();
    let n = img.l.0.len();
    assert(n > 0) by (nonlinear_arith)
        requires n == img.l.1 * img.l.2, img.l.1 > 0, img.l.2 > 0;
    let p = stacked_copies(img, t, (k - 1) as nat);
    let s = started(p, img);
    if k == 1 {
        assert(p == empty_stack());
        assert(p.is_empty());
        assert(!image_is_color(img));
        assert(s.l =~= Seq::new(n, |i: int| ((k - 1) * img.l.0[i]) as i32));
        assert(s.cnt =~= Seq::new(n, |i: int| (k - 1) as u16));
    } else {
        lemma_copies_mono(img, (k - 1) as nat);
        assert(p.cnt.len() > 0);
        assert(!p.is_empty());
        assert(s == p);
    }
    lemma_mono_step(p, img, t);
    lemma_add_copy(s.l, s.cnt, img.l, k);
}

/// Sums of `k` times each level over counts of `k` give the levels back.
proof fn lemma_mean_of_copies(v: Seq<u16>, k: nat)
    requires
        1 <= k <= 32768,
    ensures
        mean_levels(Seq::new(v.len(), |i: int| (k * v[i]) as i32), Seq::new(v.len(), |i: int| k as u16)) == v,
{
    let m = mean_levels(Seq::new(v.len(), |i: int| (k * v[i]) as i32), Seq::new(v.len(), |i: int| k as u16));
    assert forall|i: int| 0 <= i < v.len() implies #[trigger] m[i] == v[i] by {
        assert(0 <= k * v[i] <= 32768 * 65535) by (nonlinear_arith)
            requires 1 <= k <= 32768, 0 <= v[i] <= 65535;
        lemma_div_exact(v[i] as int, k as int);
        assert(v[i] * k == k * v[i]) by (nonlinear_arith);
    }
    assert(m =~= v);
}

/// Stacking any number of copies of a monochrome frame, neither turned nor shifted, gives
/// the frame's levels back (up to 32768 copies, past which the sums could overflow).
pub proof fn lemma_stack_copies_mono(img: ImageModel, k: nat)
    requires
        img.l.0.len() == img.l.1 * img.l.2,
        img.l.1 > 0,
        img.l.2 > 0,
        1 <= k <= 32768,
    ensures
        ({
            let s = stacked_copies(img, identity_transform(), k);
            &&& mean_levels(s.l, s.cnt) == img.l.0
            &&& s.width == img.l.1
            &&& s.height == img.l.2
        }),
{
    lemma_copies_mono(img, k);
    lemma_mean_of_copies(img.l.0, k);
}

/// A color frame added to a stacker that sums the color channels only: each color sum
/// takes its layer, the counts take the blue one, the luminance stays unused.
proof fn lemma_color_step(p: StackerModel, img: ImageModel, t: Transform)
    requires
        started(p, img).l.len() == 0,
        started(p, img).r.len() == started(p, img).cnt.len(),
        started(p, img).g.len() == started(p, img).cnt.len(),
        started(p, img).b.len() == started(p, img).cnt.len(),
        started(p, img).cnt.len() > 0,
        !Image::layer_empty(img.r),
        !Image::layer_empty(img.g),
        !Image::layer_empty(img.b),
    ensures
        ({
            let s = started(p, img);
            let q = frame_added(p, img, t);
            &&& q.r == sums_added(s.r, img.r, t)
            &&& q.g == sums_added(s.g, img.g, t)
            &&& q.b == sums_added(s.b, img.b, t)
            &&& q.cnt == counts_added(s.cnt, s.b.len() as int, img.b, t)
            &&& q.l.len() == 0
            &&& q.width == s.width && q.height == s.height
        }),
{
    let s = started(p, img);
    let rc = chan_after(s.r, s.cnt, img.r, t, false);
    assert(rc.1 == s.cnt);
    let gc = chan_after(s.g, rc.1, img.g, t, false);
    assert(gc.1 == s.cnt);
    let bc = chan_after(s.b, gc.1, img.b, t, true);
    let lc = chan_after(s.l, bc.1, img.l, t, true);
    assert(lc.0 == s.l && lc.1 == bc.1);
}

/// The color layers of an image are whole, of one size and not empty; the luminance
/// layer is empty.
pub open spec fn color_frame(img: ImageModel) -> bool {
    &&& img.l.1 == 0 && img.l.2 == 0
    &&& img.r.1 > 0 && img.r.2 > 0
    &&& img.r.0.len() == img.r.1 * img.r.2
    &&& img.g.0.len() == img.g.1 * img.g.2
    &&& img.b.0.len() == img.b.1 * img.b.2
    &&& img.g.1 == img.r.1 && img.b.1 == img.r.1
    &&& img.g.2 == img.r.2 && img.b.2 == img.r.2
}

/// Several copies of a color frame, neither turned nor shifted, stack to sums of that many
/// times each level in each color, with that many counted at each pixel.
proof fn lemma_copies_color(img: ImageModel, k: nat)
    requires
        color_frame(img),
        1 <= k <= 32768,
    ensures
        ({
            let s = stacked_copies(img, identity_transform(), k);
            &&& s.r == Seq::new(img.r.0.len(), |i: int| (k * img.r.0[i]) as i32)
            &&& s.g == Seq::new(img.g.0.len(), |i: int| (k * img.g.0[i]) as i32)
            &&& s.b == Seq::new(img.b.0.len(), |i: int| (k * img.b.0[i]) as i32)
            &&& s.cnt == Seq::new(img.r.0.len(), |i: int| k as u16)
            &&& s.l.len() == 0
            &&& s.width == img.r.1 && s.height == img.r.2
        }),
    decreases k,
{
    let t = identity_transform();
    let n = img.r.0.len();
    assert(n > 0) by (nonlinear_arith)
        requires n == img.r.1 * img.r.2, img.r.1 > 0, img.r.2 > 0;
    let p = stacked_copies(img, t, (k - 1) as nat);
    let s = started(p, img);
    if k == 1 {
        assert(p == empty_stack());
        assert(p.is_empty());
        assert(image_is_color(img));
        assert(s.r =~= Seq::new(n, |i: int| ((k - 1) * img.r.0[i]) as i32));
        assert(s.g =~= Seq::new(n, |i: int| ((k - 1) * img.g.0[i]) as i32));
        assert(s.b =~= Seq::new(n, |i: int| ((k - 1) * img.b.0[i]) as i32));
        assert(s.cnt =~= Seq::new(n, |i: int| (k - 1) as u16));
    } else {
        lemma_copies_color(img, (k - 1) as nat);
        assert(p.cnt.len() > 0);
        assert(!p.is_empty());
        assert(s == p);
    }
    lemma_color_step(p, img, t);
    lemma_add_copy(s.r, s.cnt, img.r, k);
    lemma_add_copy(s.g, s.cnt, img.g, k);
    lemma_add_copy(s.b, s.cnt, img.b, k);
}

/// Stacking any number of copies of a color frame, neither turned nor shifted, gives the
/// frame's levels back in each color (up to 32768 copies, past which the sums could
/// overflow).
pub proof fn lemma_stack_copies_color(img: ImageModel, k: nat)
    requires
        color_frame(img),
        1 <= k <= 32768,
    ensures
        ({
            let s = stacked_copies(img, identity_transform(), k);
            &&& mean_levels(s.r, s.cnt) == img.r.0
            &&& mean_levels(s.g, s.cnt) == img.g.0
            &&& mean_levels(s.b, s.cnt) == img.b.0
            &&& s.width == img.r.1
            &&& s.height == img.r.2
        }),
{
    lemma_copies_color(img, k);
    let s = stacked_copies(img, identity_transform(), k);
    lemma_mean_of_copies(img.r.0, k);
    lemma_mean_of_copies(img.g.0, k);
    lemma_mean_of_copies(img.b.0, k);
    assert(Seq::new(img.g.0.len(), |i: int| k as u16) =~= s.cnt);
    assert(Seq::new(img.b.0.len(), |i: int| k as u16) =~= s.cnt);
}

} // verus!
