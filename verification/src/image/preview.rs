use std::sync::Arc;

use vstd::prelude::*;

use crate::image::image::{block_average, reduced, Image, ImageLayer};
use crate::options::preview::{PreviewColorMode, PreviewScale};

verus! {

/// How many times the preview of an image is reduced: for a fitted preview the largest
/// of 4, 3 and 2 that still leaves the image larger than the area, else 1.
pub open spec fn reduct_ratio(scale: PreviewScale, area_w: int, area_h: int, w: int, h: int) -> int {
    match scale {
        PreviewScale::FitWindow => if w / 4 > area_w && h / 4 > area_h {
            4
        } else if w / 3 > area_w && h / 3 > area_h {
            3
        } else if w / 2 > area_w && h / 2 > area_h {
            2
        } else {
            1
        },
        PreviewScale::Original => 1,
        PreviewScale::P75 => 1,
        PreviewScale::P50 => 2,
        PreviewScale::P33 => 3,
        PreviewScale::P25 => 4,
        PreviewScale::CenterAndCorners => 1,
    }
}

/// Reduction ratio of a preview of an image of `img_width` x `img_height` shown in an area
/// of `pr_area_width` x `pr_area_height` (see `reduct_ratio`).
pub fn calc_reduct_ratio(
    scale: PreviewScale,
    pr_area_width: usize,
    pr_area_height: usize,
    img_width: usize,
    img_height: usize,
) -> (r: usize)
    ensures
        r == reduct_ratio(
            scale,
            pr_area_width as int,
            pr_area_height as int,
            img_width as int,
            img_height as int,
        ),
{
    match scale {
        PreviewScale::FitWindow => {
            if img_width / 4 > pr_area_width && img_height / 4 > pr_area_height {
                4
            } else if img_width / 3 > pr_area_width && img_height / 3 > pr_area_height {
                3
            } else if img_width / 2 > pr_area_width && img_height / 2 > pr_area_height {
                2
            } else {
                1
            }
        },
        PreviewScale::Original => 1,
        PreviewScale::P75 => 1,
        PreviewScale::P50 => 2,
        PreviewScale::P33 => 3,
        PreviewScale::P25 => 4,
        PreviewScale::CenterAndCorners => 1,
    }
}

/// Size of a preview for every scale but the fitted one, whose size depends on the ratio
/// of the sides in floating point: a fixed part of the original size, or a square of the
/// shorter side of the area (at least 42) for the center and corners.
pub open spec fn scaled_size(scale: PreviewScale, w: int, h: int, area_w: int, area_h: int) -> Option<
    (int, int),
> {
    match scale {
        PreviewScale::FitWindow => None,
        PreviewScale::Original => Some((w, h)),
        PreviewScale::P75 => Some((3 * w / 4, 3 * h / 4)),
        PreviewScale::P50 => Some((w / 2, h / 2)),
        PreviewScale::P33 => Some((w / 3, h / 3)),
        PreviewScale::P25 => Some((w / 4, h / 4)),
        PreviewScale::CenterAndCorners => {
            let m = if area_w < area_h {
                area_w
            } else {
                area_h
            };
            let s = if m < 42 {
                42
            } else {
                m
            };
            Some((s, s))
        },
    }
}

/// Size of the preview of an image (see `scaled_size`); `None` for a fitted preview.
pub fn scaled_img_size(
    scale: PreviewScale,
    orig_width: usize,
    orig_height: usize,
    pr_area_width: usize,
    pr_area_height: usize,
) -> (r: Option<(usize, usize)>)
    requires
        scale == PreviewScale::P75 ==> 3 * orig_width <= usize::MAX && 3 * orig_height <= usize::MAX,
    ensures
        match scaled_size(
            scale,
            orig_width as int,
            orig_height as int,
            pr_area_width as int,
            pr_area_height as int,
        ) {
            Some((w, h)) => r == Some((w as usize, h as usize)),
            None => r is None,
        },
{
    match scale {
        PreviewScale::FitWindow => None,
        PreviewScale::Original => Some((orig_width, orig_height)),
        PreviewScale::P75 => Some((3 * orig_width / 4, 3 * orig_height / 4)),
        PreviewScale::P50 => Some((orig_width / 2, orig_height / 2)),
        PreviewScale::P33 => Some((orig_width / 3, orig_height / 3)),
        PreviewScale::P25 => Some((orig_width / 4, orig_height / 4)),
        PreviewScale::CenterAndCorners => {
            let min_size = if pr_area_width < pr_area_height {
                pr_area_width
            } else {
                pr_area_height
            };
            let min_size_protected = if min_size < 42 {
                42
            } else {
                min_size
            };
            Some((min_size_protected, min_size_protected))
        },
    }
}

/// Bytes shared between threads without copying.
#[derive(Clone)]
pub struct SharedBytes {
    data: Arc<Vec<u8>>,
}

impl View for SharedBytes {
    type V = Seq<u8>;

    closed spec fn view(&self) -> Seq<u8> {
        self.data@
    }
}

impl SharedBytes {
    pub fn new(data: Vec<u8>) -> (r: Self)
        ensures
            r@ == data@,
    {
        Self { data: Arc::new(data) }
    }

    /// The bytes.
    pub fn as_slice(&self) -> (r: &[u8])
        ensures
            r@ == self@,
    {
        self.data.as_slice()
    }
}

/// Pixels of a preview as red, green, blue bytes, with the size of the original image.
pub struct PreviewRgbData {
    pub width: usize,
    pub height: usize,
    pub orig_width: usize,
    pub orig_height: usize,
    pub bytes: SharedBytes,
    /// The original image is a color one.
    pub is_color_image: bool,
    /// Sensor of the camera, for white balance.
    pub sensor_name: String,
}

/// Each level shown as the same byte three times, looked up in `table`.
pub open spec fn mono_bytes(vals: Seq<u16>, table: Seq<u8>) -> Seq<u8> {
    Seq::new(3 * vals.len(), |i: int| table[vals[i / 3] as int])
}

/// Each triple of levels shown as three bytes, each looked up in the table of its channel.
pub open spec fn rgb_bytes(
    r: Seq<u16>,
    g: Seq<u16>,
    b: Seq<u16>,
    rt: Seq<u8>,
    gt: Seq<u8>,
    bt: Seq<u8>,
) -> Seq<u8> {
    Seq::new(
        3 * r.len(),
        |i: int|
            if i % 3 == 0 {
                rt[r[i / 3] as int]
            } else if i % 3 == 1 {
                gt[g[i / 3] as int]
            } else {
                bt[b[i / 3] as int]
            },
    )
}

proof fn lemma_mono_bytes_push(vals: Seq<u16>, v: u16, table: Seq<u8>)
    ensures
        mono_bytes(vals.push(v), table) =~= mono_bytes(vals, table).push(table[v as int]).push(
            table[v as int],
        ).push(table[v as int]),
{
    let a = mono_bytes(vals.push(v), table);
    let b = mono_bytes(vals, table).push(table[v as int]).push(table[v as int]).push(
        table[v as int],
    );
    assert forall|i: int| 0 <= i < a.len() implies a[i] == b[i] by {
        if i < 3 * vals.len() {
            assert(i / 3 < vals.len()) by (nonlinear_arith)
                requires 0 <= i < 3 * vals.len();
        } else {
            assert(i / 3 == vals.len()) by (nonlinear_arith)
                requires 3 * vals.len() <= i < 3 * vals.len() + 3;
        }
    }
}

proof fn lemma_rgb_bytes_push(
    r: Seq<u16>,
    g: Seq<u16>,
    b: Seq<u16>,
    vr: u16,
    vg: u16,
    vb: u16,
    rt: Seq<u8>,
    gt: Seq<u8>,
    bt: Seq<u8>,
)
    requires
        g.len() == r.len(),
        b.len() == r.len(),
    ensures
        rgb_bytes(r.push(vr), g.push(vg), b.push(vb), rt, gt, bt) =~= rgb_bytes(
            r,
            g,
            b,
            rt,
            gt,
            bt,
        ).push(rt[vr as int]).push(gt[vg as int]).push(bt[vb as int]),
{
    let x = rgb_bytes(r.push(vr), g.push(vg), b.push(vb), rt, gt, bt);
    let y = rgb_bytes(r, g, b, rt, gt, bt).push(rt[vr as int]).push(gt[vg as int]).push(
        bt[vb as int],
    );
    assert forall|i: int| 0 <= i < x.len() implies x[i] == y[i] by {
        if i < 3 * r.len() {
            assert(i / 3 < r.len()) by (nonlinear_arith)
                requires 0 <= i < 3 * r.len();
        } else {
            assert(i / 3 == r.len() && i % 3 == i - 3 * r.len()) by (nonlinear_arith)
                requires 3 * r.len() <= i < 3 * r.len() + 3;
        }
    }
}

/// A gamma table covers every level.
pub open spec fn full_table(t: Seq<u8>) -> bool {
    t.len() == 65536
}

/// Preview bytes of a whole layer.
fn to_grb_bytes_no_reduct_mono(layer: &ImageLayer<u16>, table: &[u8], width: usize, height: usize) -> (r:
    Vec<u8>)
    requires
        layer.wf(),
        width == layer@.1,
        height == layer@.2,
        full_table(table@),
    ensures
        r@ == mono_bytes(layer@.0, table@),
{
    let data = layer.as_slice();
    let n = data.len();
    let mut rgb_bytes: Vec<u8> = Vec::new();
    let mut i: usize = 0;
    while i < n
        invariant
            n == layer@.0.len(),
            data@ == layer@.0,
            i <= n,
            full_table(table@),
            rgb_bytes@ == mono_bytes(layer@.0.take(i as int), table@),
        decreases n - i,
    {
        let l = table[data[i] as usize];
        proof {
            assert(layer@.0.take(i + 1) =~= layer@.0.take(i as int).push(data@[i as int]));
            lemma_mono_bytes_push(layer@.0.take(i as int), data@[i as int], table@);
        }
        rgb_bytes.push(l);
        rgb_bytes.push(l);
        rgb_bytes.push(l);
        i = i + 1;
    }
    proof {
        assert(layer@.0.take(n as int) =~= layer@.0);
    }
    rgb_bytes
}

/// Preview bytes of whole color layers.
fn to_grb_bytes_no_reduct_rgb(
    image: &Image,
    r_table: &[u8],
    g_table: &[u8],
    b_table: &[u8],
    width: usize,
    height: usize,
) -> (r: Vec<u8>)
    requires
        image.rgb_wf(),
        width == image.r@.1,
        height == image.r@.2,
        full_table(r_table@),
        full_table(g_table@),
        full_table(b_table@),
    ensures
        r@ == rgb_bytes(image.r@.0, image.g@.0, image.b@.0, r_table@, g_table@, b_table@),
{
    let rd = image.r.as_slice();
    let gd = image.g.as_slice();
    let bd = image.b.as_slice();
    let n = rd.len();
    let ghost (r, g, b) = (image.r@.0, image.g@.0, image.b@.0);
    let mut rgb: Vec<u8> = Vec::new();
    let mut i: usize = 0;
    while i < n
        invariant
            n == r.len(),
            g.len() == n,
            b.len() == n,
            rd@ == r,
            gd@ == g,
            bd@ == b,
            i <= n,
            full_table(r_table@),
            full_table(g_table@),
            full_table(b_table@),
            rgb@ == rgb_bytes(
                r.take(i as int),
                g.take(i as int),
                b.take(i as int),
                r_table@,
                g_table@,
                b_table@,
            ),
        decreases n - i,
    {
        proof {
            assert(r.take(i + 1) =~= r.take(i as int).push(r[i as int]));
            assert(g.take(i + 1) =~= g.take(i as int).push(g[i as int]));
            assert(b.take(i + 1) =~= b.take(i as int).push(b[i as int]));
            lemma_rgb_bytes_push(
                r.take(i as int),
                g.take(i as int),
                b.take(i as int),
                r[i as int],
                g[i as int],
                b[i as int],
                r_table@,
                g_table@,
                b_table@,
            );
        }
        rgb.push(r_table[rd[i] as usize]);
        rgb.push(g_table[gd[i] as usize]);
        rgb.push(b_table[bd[i] as usize]);
        i = i + 1;
    }
    proof {
        assert(r.take(n as int) =~= r);
        assert(g.take(n as int) =~= g);
        assert(b.take(n as int) =~= b);
    }
    rgb
}

/// Preview bytes of a layer reduced `n` times.
fn reduct_mono(layer: &ImageLayer<u16>, table: &[u8], n: usize) -> (r: Vec<u8>)
    requires
        layer.wf(),
        1 <= n <= 256,
        full_table(table@),
    ensures
        r@ == mono_bytes(reduced(layer@.0, layer@.1 as int, layer@.2 as int, n as int), table@),
{
    let width = layer.width() / n;
    let height = layer.height() / n;
    let ghost vals = reduced(layer@.0, layer@.1 as int, layer@.2 as int, n as int);
    let mut rgb_bytes: Vec<u8> = Vec::new();
    let mut y: usize = 0;
    while y < height
        invariant
            layer.wf(),
            1 <= n <= 256,
            full_table(table@),
            width == layer@.1 / n,
            height == layer@.2 / n,
            vals == reduced(layer@.0, layer@.1 as int, layer@.2 as int, n as int),
            vals.len() == width * height,
            y <= height,
            rgb_bytes@ == mono_bytes(vals.take(y * width), table@),
        decreases height - y,
    {
        let mut x: usize = 0;
        while x < width
            invariant
                layer.wf(),
                1 <= n <= 256,
                full_table(table@),
                width == layer@.1 / n,
                height == layer@.2 / n,
                vals == reduced(layer@.0, layer@.1 as int, layer@.2 as int, n as int),
                vals.len() == width * height,
                y < height,
                x <= width,
                rgb_bytes@ == mono_bytes(vals.take(y * width + x), table@),
            decreases width - x,
        {
            let v = block_average(layer, n, x, y);
            proof {
                let p = y * width + x;
                assert(p < width * height) by (nonlinear_arith)
                    requires p == y * width + x, x < width, y < height;
                assert(p % (width as int) == x && p / (width as int) == y) by (nonlinear_arith)
                    requires p == y * width + x, 0 <= x < width;
                assert(vals[p] == v);
                assert(vals.take(p + 1) =~= vals.take(p).push(v));
                lemma_mono_bytes_push(vals.take(p), v, table@);
            }
            let l = table[v as usize];
            rgb_bytes.push(l);
            rgb_bytes.push(l);
            rgb_bytes.push(l);
            x = x + 1;
        }
        proof {
            assert(y * width + width == (y + 1) * width) by (nonlinear_arith);
        }
        y = y + 1;
    }
    proof {
        assert(vals.take(height * width) =~= vals) by {
            assert(height * width == width * height) by (nonlinear_arith);
        }
    }
    rgb_bytes
}

/// Preview bytes of color layers reduced `n` times.
fn reduct_rgb(image: &Image, r_table: &[u8], g_table: &[u8], b_table: &[u8], n: usize) -> (r: Vec<u8>)
    requires
        image.rgb_wf(),
        1 <= n <= 256,
        full_table(r_table@),
        full_table(g_table@),
        full_table(b_table@),
    ensures
        r@ == rgb_bytes(
            reduced(image.r@.0, image.r@.1 as int, image.r@.2 as int, n as int),
            reduced(image.g@.0, image.g@.1 as int, image.g@.2 as int, n as int),
            reduced(image.b@.0, image.b@.1 as int, image.b@.2 as int, n as int),
            r_table@,
            g_table@,
            b_table@,
        ),
{
    let width = image.r.width() / n;
    let height = image.r.height() / n;
    let ghost rv = reduced(image.r@.0, image.r@.1 as int, image.r@.2 as int, n as int);
    let ghost gv = reduced(image.g@.0, image.g@.1 as int, image.g@.2 as int, n as int);
    let ghost bv = reduced(image.b@.0, image.b@.1 as int, image.b@.2 as int, n as int);
    let mut rgb: Vec<u8> = Vec::new();
    let mut y: usize = 0;
    while y < height
        invariant
            image.rgb_wf(),
            1 <= n <= 256,
            full_table(r_table@),
            full_table(g_table@),
            full_table(b_table@),
            width == image.r@.1 / n,
            height == image.r@.2 / n,
            rv == reduced(image.r@.0, image.r@.1 as int, image.r@.2 as int, n as int),
            gv == reduced(image.g@.0, image.g@.1 as int, image.g@.2 as int, n as int),
            bv == reduced(image.b@.0, image.b@.1 as int, image.b@.2 as int, n as int),
            rv.len() == width * height,
            gv.len() == width * height,
            bv.len() == width * height,
            y <= height,
            rgb@ == rgb_bytes(
                rv.take(y * width),
                gv.take(y * width),
                bv.take(y * width),
                r_table@,
                g_table@,
                b_table@,
            ),
        decreases height - y,
    {
        let mut x: usize = 0;
        while x < width
            invariant
                image.rgb_wf(),
                1 <= n <= 256,
                full_table(r_table@),
                full_table(g_table@),
                full_table(b_table@),
                width == image.r@.1 / n,
                height == image.r@.2 / n,
                rv == reduced(image.r@.0, image.r@.1 as int, image.r@.2 as int, n as int),
                gv == reduced(image.g@.0, image.g@.1 as int, image.g@.2 as int, n as int),
                bv == reduced(image.b@.0, image.b@.1 as int, image.b@.2 as int, n as int),
                rv.len() == width * height,
                gv.len() == width * height,
                bv.len() == width * height,
                y < height,
                x <= width,
                rgb@ == rgb_bytes(
                    rv.take(y * width + x),
                    gv.take(y * width + x),
                    bv.take(y * width + x),
                    r_table@,
                    g_table@,
                    b_table@,
                ),
            decreases width - x,
        {
            let r = block_average(&image.r, n, x, y);
            let g = block_average(&image.g, n, x, y);
            let b = block_average(&image.b, n, x, y);
            proof {
                let p = y * width + x;
                assert(p < width * height) by (nonlinear_arith)
                    requires p == y * width + x, x < width, y < height;
                assert(p % (width as int) == x && p / (width as int) == y) by (nonlinear_arith)
                    requires p == y * width + x, 0 <= x < width;
                assert(rv[p] == r && gv[p] == g && bv[p] == b);
                assert(rv.take(p + 1) =~= rv.take(p).push(r));
                assert(gv.take(p + 1) =~= gv.take(p).push(g));
                assert(bv.take(p + 1) =~= bv.take(p).push(b));
                lemma_rgb_bytes_push(
                    rv.take(p),
                    gv.take(p),
                    bv.take(p),
                    r,
                    g,
                    b,
                    r_table@,
                    g_table@,
                    b_table@,
                );
            }
            rgb.push(r_table[r as usize]);
            rgb.push(g_table[g as usize]);
            rgb.push(b_table[b as usize]);
            x = x + 1;
        }
        proof {
            assert(y * width + width == (y + 1) * width) by (nonlinear_arith);
        }
        y = y + 1;
    }
    proof {
        assert(height * width == width * height) by (nonlinear_arith);
        assert(rv.take(height * width) =~= rv);
        assert(gv.take(height * width) =~= gv);
        assert(bv.take(height * width) =~= bv);
    }
    rgb
}

/// Preview bytes of a layer reduced twice.
fn to_grb_bytes_reduct2_mono(layer: &ImageLayer<u16>, table: &[u8], width: usize, height: usize) -> (r:
    Vec<u8>)
    requires
        layer.wf(),
        width == layer@.1,
        height == layer@.2,
        full_table(table@),
    ensures
        r@ == mono_bytes(reduced(layer@.0, layer@.1 as int, layer@.2 as int, 2), table@),
{
    reduct_mono(layer, table, 2)
}

/// Preview bytes of a layer reduced three times.
fn to_grb_bytes_reduct3_mono(layer: &ImageLayer<u16>, table: &[u8], width: usize, height: usize) -> (r:
    Vec<u8>)
    requires
        layer.wf(),
        width == layer@.1,
        height == layer@.2,
        full_table(table@),
    ensures
        r@ == mono_bytes(reduced(layer@.0, layer@.1 as int, layer@.2 as int, 3), table@),
{
    reduct_mono(layer, table, 3)
}

/// Preview bytes of a layer reduced four times.
fn to_grb_bytes_reduct4_mono(layer: &ImageLayer<u16>, table: &[u8], width: usize, height: usize) -> (r:
    Vec<u8>)
    requires
        layer.wf(),
        width == layer@.1,
        height == layer@.2,
        full_table(table@),
    ensures
        r@ == mono_bytes(reduced(layer@.0, layer@.1 as int, layer@.2 as int, 4), table@),
{
    reduct_mono(layer, table, 4)
}

/// Preview bytes of color layers reduced twice.
fn to_grb_bytes_reduct2_rgb(
    image: &Image,
    r_table: &[u8],
    g_table: &[u8],
    b_table: &[u8],
    width: usize,
    height: usize,
) -> (r: Vec<u8>)
    requires
        image.rgb_wf(),
        width == image.r@.1,
        height == image.r@.2,
        full_table(r_table@),
        full_table(g_table@),
        full_table(b_table@),
    ensures
        r@ == rgb_bytes(
            reduced(image.r@.0, image.r@.1 as int, image.r@.2 as int, 2),
            reduced(image.g@.0, image.g@.1 as int, image.g@.2 as int, 2),
            reduced(image.b@.0, image.b@.1 as int, image.b@.2 as int, 2),
            r_table@,
            g_table@,
            b_table@,
        ),
{
    reduct_rgb(image, r_table, g_table, b_table, 2)
}

/// Preview bytes of color layers reduced three times.
fn to_grb_bytes_reduct3_rgb(
    image: &Image,
    r_table: &[u8],
    g_table: &[u8],
    b_table: &[u8],
    width: usize,
    height: usize,
) -> (r: Vec<u8>)
    requires
        image.rgb_wf(),
        width == image.r@.1,
        height == image.r@.2,
        full_table(r_table@),
        full_table(g_table@),
        full_table(b_table@),
    ensures
        r@ == rgb_bytes(
            reduced(image.r@.0, image.r@.1 as int, image.r@.2 as int, 3),
            reduced(image.g@.0, image.g@.1 as int, image.g@.2 as int, 3),
            reduced(image.b@.0, image.b@.1 as int, image.b@.2 as int, 3),
            r_table@,
            g_table@,
            b_table@,
        ),
{
    reduct_rgb(image, r_table, g_table, b_table, 3)
}

/// Preview bytes of color layers reduced four times.
fn to_grb_bytes_reduct4_rgb(
    image: &Image,
    r_table: &[u8],
    g_table: &[u8],
    b_table: &[u8],
    width: usize,
    height: usize,
) -> (r: Vec<u8>)
    requires
        image.rgb_wf(),
        width == image.r@.1,
        height == image.r@.2,
        full_table(r_table@),
        full_table(g_table@),
        full_table(b_table@),
    ensures
        r@ == rgb_bytes(
            reduced(image.r@.0, image.r@.1 as int, image.r@.2 as int, 4),
            reduced(image.g@.0, image.g@.1 as int, image.g@.2 as int, 4),
            reduced(image.b@.0, image.b@.1 as int, image.b@.2 as int, 4),
            r_table@,
            g_table@,
            b_table@,
        ),
{
    reduct_rgb(image, r_table, g_table, b_table, 4)
}

/// Where a rectangle of pixels is taken from and put to.
#[derive(Debug, Copy, Clone, PartialEq, Eq, Structural)]
pub struct CopyRectParams {
    pub src_left: usize,
    pub src_top: usize,
    pub dst_left: usize,
    pub dst_top: usize,
    pub width: usize,
    pub height: usize,
}

/// Free pixels between the rectangles of the center and corners preview.
pub const SPACING: usize = 6;

/// Start of a rectangle of `rect` pixels on a side of `img` pixels: at the start (0), in
/// the middle (1) or at the end (2).
pub open spec fn corner_pos(img: int, rect: int, i: int) -> int {
    if i == 0 {
        0
    } else if i == 1 {
        (img - rect) / 2
    } else {
        img - rect
    }
}

/// The rectangle in column `i` and row `j` of the center and corners preview.
pub open spec fn corner_rect(sw: int, sh: int, w: int, h: int, i: int, j: int) -> CopyRectParams {
    let rw = (w - 2 * SPACING) / 3;
    let rh = (h - 2 * SPACING) / 3;
    CopyRectParams {
        src_left: corner_pos(sw, rw, i) as usize,
        src_top: corner_pos(sh, rh, j) as usize,
        dst_left: corner_pos(w, rw, i) as usize,
        dst_top: corner_pos(h, rh, j) as usize,
        width: rw as usize,
        height: rh as usize,
    }
}

/// The nine rectangles of the center and corners preview, column by column.
pub open spec fn corner_rects(sw: int, sh: int, w: int, h: int) -> Seq<CopyRectParams> {
    Seq::new(9, |k: int| corner_rect(sw, sh, w, h, k / 3, k % 3))
}

/// Sizes for which the center and corners rectangles exist: the preview leaves room for
/// the spacing, and the image is at least one rectangle wide and high.
pub open spec fn corners_fit(sw: int, sh: int, w: int, h: int) -> bool {
    &&& w >= 2 * SPACING
    &&& h >= 2 * SPACING
    &&& sw >= (w - 2 * SPACING) / 3
    &&& sh >= (h - 2 * SPACING) / 3
}

fn pos(img_size: usize, rect_size: usize, place: usize) -> (r: usize)
    requires
        rect_size <= img_size,
        place < 3,
    ensures
        r == corner_pos(img_size as int, rect_size as int, place as int),
{
    if place == 0 {
        0
    } else if place == 1 {
        (img_size - rect_size) / 2
    } else {
        img_size - rect_size
    }
}

/// Rectangles of the center, the corners and the middles of the sides of an image of
/// `src_width` x `src_height`, and where they stand in a preview of `width` x `height`.
fn get_rects_for_corners_and_center(src_width: usize, src_height: usize, width: usize, height: usize) -> (r:
    Vec<CopyRectParams>)
    requires
        corners_fit(src_width as int, src_height as int, width as int, height as int),
    ensures
        r@ == corner_rects(src_width as int, src_height as int, width as int, height as int),
{
    let mut result: Vec<CopyRectParams> = Vec::new();
    let rect_width = (width - 2 * SPACING) / 3;
    let rect_height = (height - 2 * SPACING) / 3;
    let ghost all = corner_rects(src_width as int, src_height as int, width as int, height as int);
    let mut i: usize = 0;
    while i < 3
        invariant
            corners_fit(src_width as int, src_height as int, width as int, height as int),
            rect_width == (width - 2 * SPACING) / 3,
            rect_height == (height - 2 * SPACING) / 3,
            all == corner_rects(src_width as int, src_height as int, width as int, height as int),
            i <= 3,
            result@ == all.take(3 * i),
        decreases 3 - i,
    {
        let mut j: usize = 0;
        while j < 3
            invariant
                corners_fit(src_width as int, src_height as int, width as int, height as int),
                rect_width == (width - 2 * SPACING) / 3,
                rect_height == (height - 2 * SPACING) / 3,
                all == corner_rects(src_width as int, src_height as int, width as int, height as int),
                i < 3,
                j <= 3,
                result@ == all.take(3 * i + j),
            decreases 3 - j,
        {
            let rc = CopyRectParams {
                src_left: pos(src_width, rect_width, i),
                src_top: pos(src_height, rect_height, j),
                dst_left: pos(width, rect_width, i),
                dst_top: pos(height, rect_height, j),
                width: rect_width,
                height: rect_height,
            };
            proof {
                let k = 3 * i + j;
                assert(k / 3 == i && k % 3 == j);
                assert(all[k] == rc);
                assert(all.take(k + 1) =~= all.take(k).push(rc));
            }
            result.push(rc);
            j = j + 1;
        }
        i = i + 1;
    }
    proof {
        assert(all.take(9) =~= all);
    }
    result
}

/// Every rectangle lies inside the image and inside the preview.
proof fn lemma_corner_rects_fit(sw: int, sh: int, w: int, h: int, k: int)
    requires
        corners_fit(sw, sh, w, h),
        0 <= k < 9,
    ensures
        ({
            let rc = corner_rects(sw, sh, w, h)[k];
            &&& rc.src_left + rc.width <= sw
            &&& rc.src_top + rc.height <= sh
            &&& rc.dst_left + rc.width <= w
            &&& rc.dst_top + rc.height <= h
        }),
{
}

/// Three bytes from `pos` on set to `a`, `b`, `c`.
pub open spec fn write3(buf: Seq<u8>, pos: int, a: u8, b: u8, c: u8) -> Seq<u8> {
    buf.update(pos, a).update(pos + 1, b).update(pos + 2, c)
}

/// Pixel `t` (row by row) of a rectangle: its index in the image of width `sw`, and the
/// first of its three bytes in the preview of width `w`.
pub open spec fn rect_src(rc: CopyRectParams, sw: int, t: int) -> int {
    (rc.src_top + t / (rc.width as int)) * sw + rc.src_left + t % (rc.width as int)
}

pub open spec fn rect_dst(rc: CopyRectParams, w: int, t: int) -> int {
    3 * ((rc.dst_top + t / (rc.width as int)) * w + rc.dst_left + t % (rc.width as int))
}

/// The first `done` pixels of a rectangle of a layer copied, looked up in `table`.
pub open spec fn copy_mono(
    buf: Seq<u8>,
    w: int,
    rc: CopyRectParams,
    src: (Seq<u16>, usize, usize),
    table: Seq<u8>,
    done: int,
) -> Seq<u8>
    decreases done,
{
    if done <= 0 {
        buf
    } else {
        let prev = copy_mono(buf, w, rc, src, table, done - 1);
        let v = table[src.0[rect_src(rc, src.1 as int, done - 1)] as int];
        write3(prev, rect_dst(rc, w, done - 1), v, v, v)
    }
}

/// The first `k` rectangles of a layer copied, each whole.
pub open spec fn corners_mono(
    buf: Seq<u8>,
    w: int,
    rects: Seq<CopyRectParams>,
    k: int,
    src: (Seq<u16>, usize, usize),
    table: Seq<u8>,
) -> Seq<u8>
    decreases k,
{
    if k <= 0 {
        buf
    } else {
        let rc = rects[k - 1];
        copy_mono(
            corners_mono(buf, w, rects, k - 1, src, table),
            w,
            rc,
            src,
            table,
            rc.width * rc.height,
        )
    }
}

/// The first `done` pixels of a rectangle of three color layers copied.
pub open spec fn copy_rgb(
    buf: Seq<u8>,
    w: int,
    rc: CopyRectParams,
    r: (Seq<u16>, usize, usize),
    g: Seq<u16>,
    b: Seq<u16>,
    rt: Seq<u8>,
    gt: Seq<u8>,
    bt: Seq<u8>,
    done: int,
) -> Seq<u8>
    decreases done,
{
    if done <= 0 {
        buf
    } else {
        let prev = copy_rgb(buf, w, rc, r, g, b, rt, gt, bt, done - 1);
        let i = rect_src(rc, r.1 as int, done - 1);
        write3(prev, rect_dst(rc, w, done - 1), rt[r.0[i] as int], gt[g[i] as int], bt[b[i] as int])
    }
}

/// The first `k` rectangles of three color layers copied, each whole.
pub open spec fn corners_rgb(
    buf: Seq<u8>,
    w: int,
    rects: Seq<CopyRectParams>,
    k: int,
    r: (Seq<u16>, usize, usize),
    g: Seq<u16>,
    b: Seq<u16>,
    rt: Seq<u8>,
    gt: Seq<u8>,
    bt: Seq<u8>,
) -> Seq<u8>
    decreases k,
{
    if k <= 0 {
        buf
    } else {
        let rc = rects[k - 1];
        copy_rgb(
            corners_rgb(buf, w, rects, k - 1, r, g, b, rt, gt, bt),
            w,
            rc,
            r,
            g,
            b,
            rt,
            gt,
            bt,
            rc.width * rc.height,
        )
    }
}

proof fn lemma_rect_pixel(rc: CopyRectParams, sw: int, sh: int, w: int, h: int, i: int, j: int)
    requires
        rc.src_left + rc.width <= sw,
        rc.src_top + rc.height <= sh,
        rc.dst_left + rc.width <= w,
        rc.dst_top + rc.height <= h,
        0 <= i < rc.height,
        0 <= j < rc.width,
    ensures
        (i * rc.width + j) / (rc.width as int) == i,
        (i * rc.width + j) % (rc.width as int) == j,
        i * rc.width + j + 1 <= rc.width * rc.height,
        0 <= (rc.src_top + i) * sw + rc.src_left + j < sw * sh,
        0 <= 3 * ((rc.dst_top + i) * w + rc.dst_left + j),
        3 * ((rc.dst_top + i) * w + rc.dst_left + j) + 2 < 3 * (w * h),
{
    let rw = rc.width as int;
    assert((i * rw + j) / rw == i && (i * rw + j) % rw == j) by (nonlinear_arith)
        requires 0 <= j < rw;
    assert(i * rw + j + 1 <= rw * rc.height) by (nonlinear_arith)
        requires 0 <= i < rc.height, 0 <= j < rw;
    assert((rc.src_top + i) * sw + rc.src_left + j < sw * sh) by (nonlinear_arith)
        requires rc.src_top + i < sh, rc.src_left + j < sw, 0 <= rc.src_left + j;
    assert((rc.dst_top + i) * w + rc.dst_left + j < w * h) by (nonlinear_arith)
        requires rc.dst_top + i < h, rc.dst_left + j < w, 0 <= rc.dst_left + j;
    assert(0 <= (rc.src_top + i) * sw) by (nonlinear_arith)
        requires 0 <= rc.src_top + i, 0 <= sw;
    assert(0 <= (rc.dst_top + i) * w) by (nonlinear_arith)
        requires 0 <= rc.dst_top + i, 0 <= w;
}

/// Copies one rectangle of a layer into preview bytes.
fn copy_rect_mono(buf: &mut Vec<u8>, width: usize, height: usize, rc: CopyRectParams, layer: &ImageLayer<u16>, table: &[u8])
    requires
        layer.wf(),
        full_table(table@),
        old(buf)@.len() == 3 * (width * height),
        rc.src_left + rc.width <= layer@.1,
        rc.src_top + rc.height <= layer@.2,
        rc.dst_left + rc.width <= width,
        rc.dst_top + rc.height <= height,
    ensures
        final(buf)@ == copy_mono(old(buf)@, width as int, rc, layer@, table@, rc.width * rc.height),
        final(buf)@.len() == old(buf)@.len(),
{
    let data = layer.as_slice();
    let sw = layer.width();
    let ghost start = buf@;
    let mut i: usize = 0;
    while i < rc.height
        invariant
            layer.wf(),
            data@ == layer@.0,
            sw == layer@.1,
            full_table(table@),
            buf@.len() == 3 * (width * height),
            rc.src_left + rc.width <= layer@.1,
            rc.src_top + rc.height <= layer@.2,
            rc.dst_left + rc.width <= width,
            rc.dst_top + rc.height <= height,
            i <= rc.height,
            buf@ == copy_mono(start, width as int, rc, layer@, table@, i * rc.width),
        decreases rc.height - i,
    {
        let mut j: usize = 0;
        while j < rc.width
            invariant
                layer.wf(),
                data@ == layer@.0,
                sw == layer@.1,
                full_table(table@),
                buf@.len() == 3 * (width * height),
                rc.src_left + rc.width <= layer@.1,
                rc.src_top + rc.height <= layer@.2,
                rc.dst_left + rc.width <= width,
                rc.dst_top + rc.height <= height,
                i < rc.height,
                j <= rc.width,
                buf@ == copy_mono(start, width as int, rc, layer@, table@, i * rc.width + j),
            decreases rc.width - j,
        {
            proof {
                lemma_rect_pixel(rc, sw as int, layer@.2 as int, width as int, height as int, i as int, j as int);
                assert(data@.len() == sw * layer@.2);
            }
            let n = data.len();
            let blen = buf.len();
            let src = (rc.src_top + i) * sw + rc.src_left + j;
            let v = table[data[src] as usize];
            let dst = 3 * ((rc.dst_top + i) * width + rc.dst_left + j);
            buf.set(dst, v);
            buf.set(dst + 1, v);
            buf.set(dst + 2, v);
            j = j + 1;
        }
        proof {
            assert(i * rc.width + rc.width == (i + 1) * rc.width) by (nonlinear_arith);
        }
        i = i + 1;
    }
    proof {
        assert(rc.height * rc.width == rc.width * rc.height) by (nonlinear_arith);
    }
}

/// Copies one rectangle of three color layers into preview bytes.
fn copy_rect_rgb(
    buf: &mut Vec<u8>,
    width: usize,
    height: usize,
    rc: CopyRectParams,
    image: &Image,
    r_table: &[u8],
    g_table: &[u8],
    b_table: &[u8],
)
    requires
        image.rgb_wf(),
        full_table(r_table@),
        full_table(g_table@),
        full_table(b_table@),
        old(buf)@.len() == 3 * (width * height),
        rc.src_left + rc.width <= image.r@.1,
        rc.src_top + rc.height <= image.r@.2,
        rc.dst_left + rc.width <= width,
        rc.dst_top + rc.height <= height,
    ensures
        final(buf)@ == copy_rgb(
            old(buf)@,
            width as int,
            rc,
            image.r@,
            image.g@.0,
            image.b@.0,
            r_table@,
            g_table@,
            b_table@,
            rc.width * rc.height,
        ),
        final(buf)@.len() == old(buf)@.len(),
{
    let rd = image.r.as_slice();
    let gd = image.g.as_slice();
    let bd = image.b.as_slice();
    let sw = image.r.width();
    let ghost start = buf@;
    let mut i: usize = 0;
    while i < rc.height
        invariant
            image.rgb_wf(),
            rd@ == image.r@.0,
            gd@ == image.g@.0,
            bd@ == image.b@.0,
            sw == image.r@.1,
            full_table(r_table@),
            full_table(g_table@),
            full_table(b_table@),
            buf@.len() == 3 * (width * height),
            rc.src_left + rc.width <= image.r@.1,
            rc.src_top + rc.height <= image.r@.2,
            rc.dst_left + rc.width <= width,
            rc.dst_top + rc.height <= height,
            i <= rc.height,
            buf@ == copy_rgb(
                start,
                width as int,
                rc,
                image.r@,
                image.g@.0,
                image.b@.0,
                r_table@,
                g_table@,
                b_table@,
                i * rc.width,
            ),
        decreases rc.height - i,
    {
        let mut j: usize = 0;
        while j < rc.width
            invariant
                image.rgb_wf(),
                rd@ == image.r@.0,
                gd@ == image.g@.0,
                bd@ == image.b@.0,
                sw == image.r@.1,
                full_table(r_table@),
                full_table(g_table@),
                full_table(b_table@),
                buf@.len() == 3 * (width * height),
                rc.src_left + rc.width <= image.r@.1,
                rc.src_top + rc.height <= image.r@.2,
                rc.dst_left + rc.width <= width,
                rc.dst_top + rc.height <= height,
                i < rc.height,
                j <= rc.width,
                buf@ == copy_rgb(
                    start,
                    width as int,
                    rc,
                    image.r@,
                    image.g@.0,
                    image.b@.0,
                    r_table@,
                    g_table@,
                    b_table@,
                    i * rc.width + j,
                ),
            decreases rc.width - j,
        {
            proof {
                lemma_rect_pixel(rc, sw as int, image.r@.2 as int, width as int, height as int, i as int, j as int);
                assert(rd@.len() == sw * image.r@.2);
            }
            let n = rd.len();
            let blen = buf.len();
            let src = (rc.src_top + i) * sw + rc.src_left + j;
            let dst = 3 * ((rc.dst_top + i) * width + rc.dst_left + j);
            buf.set(dst, r_table[rd[src] as usize]);
            buf.set(dst + 1, g_table[gd[src] as usize]);
            buf.set(dst + 2, b_table[bd[src] as usize]);
            j = j + 1;
        }
        proof {
            assert(i * rc.width + rc.width == (i + 1) * rc.width) by (nonlinear_arith);
        }
        i = i + 1;
    }
    proof {
        assert(rc.height * rc.width == rc.width * rc.height) by (nonlinear_arith);
    }
}

/// Zero bytes.
fn zeros(n: usize) -> (r: Vec<u8>)
    ensures
        r@ == Seq::new(n as nat, |i: int| 0u8),
{
    let mut r: Vec<u8> = Vec::new();
    r.resize(n, 0u8);
    proof {
        assert(r@ =~= Seq::new(n as nat, |i: int| 0u8));
    }
    r
}

/// Preview bytes of the center, the corners and the middles of the sides of a layer,
/// side by side on black.
fn to_grb_bytes_corners_mono(layer: &ImageLayer<u16>, table: &[u8], width: usize, height: usize) -> (r:
    Vec<u8>)
    requires
        layer.wf(),
        full_table(table@),
        corners_fit(layer@.1 as int, layer@.2 as int, width as int, height as int),
        3 * (width * height) <= usize::MAX,
    ensures
        r@ == corners_mono(
            Seq::new((3 * (width * height)) as nat, |i: int| 0u8),
            width as int,
            corner_rects(layer@.1 as int, layer@.2 as int, width as int, height as int),
            9,
            layer@,
            table@,
        ),
{
    let mut rgb_bytes = zeros(3 * (width * height));
    let ghost base = rgb_bytes@;
    let rects = get_rects_for_corners_and_center(layer.width(), layer.height(), width, height);
    let mut k: usize = 0;
    while k < 9
        invariant
            layer.wf(),
            full_table(table@),
            corners_fit(layer@.1 as int, layer@.2 as int, width as int, height as int),
            rects@ == corner_rects(layer@.1 as int, layer@.2 as int, width as int, height as int),
            rgb_bytes@.len() == 3 * (width * height),
            k <= 9,
            rgb_bytes@ == corners_mono(base, width as int, rects@, k as int, layer@, table@),
        decreases 9 - k,
    {
        proof {
            lemma_corner_rects_fit(layer@.1 as int, layer@.2 as int, width as int, height as int, k as int);
        }
        copy_rect_mono(&mut rgb_bytes, width, height, rects[k], layer, table);
        k = k + 1;
    }
    rgb_bytes
}

/// Preview bytes of the center, the corners and the middles of the sides of three color
/// layers, side by side on black.
fn to_grb_bytes_corners_rgb(
    image: &Image,
    r_table: &[u8],
    g_table: &[u8],
    b_table: &[u8],
    width: usize,
    height: usize,
) -> (r: Vec<u8>)
    requires
        image.rgb_wf(),
        full_table(r_table@),
        full_table(g_table@),
        full_table(b_table@),
        corners_fit(image.r@.1 as int, image.r@.2 as int, width as int, height as int),
        3 * (width * height) <= usize::MAX,
    ensures
        r@ == corners_rgb(
            Seq::new((3 * (width * height)) as nat, |i: int| 0u8),
            width as int,
            corner_rects(image.r@.1 as int, image.r@.2 as int, width as int, height as int),
            9,
            image.r@,
            image.g@.0,
            image.b@.0,
            r_table@,
            g_table@,
            b_table@,
        ),
{
    let mut rgb_bytes = zeros(3 * (width * height));
    let ghost base = rgb_bytes@;
    let rects = get_rects_for_corners_and_center(image.r.width(), image.r.height(), width, height);
    let mut k: usize = 0;
    while k < 9
        invariant
            image.rgb_wf(),
            full_table(r_table@),
            full_table(g_table@),
            full_table(b_table@),
            corners_fit(image.r@.1 as int, image.r@.2 as int, width as int, height as int),
            rects@ == corner_rects(image.r@.1 as int, image.r@.2 as int, width as int, height as int),
            rgb_bytes@.len() == 3 * (width * height),
            k <= 9,
            rgb_bytes@ == corners_rgb(
                base,
                width as int,
                rects@,
                k as int,
                image.r@,
                image.g@.0,
                image.b@.0,
                r_table@,
                g_table@,
                b_table@,
            ),
        decreases 9 - k,
    {
        proof {
            lemma_corner_rects_fit(image.r@.1 as int, image.r@.2 as int, width as int, height as int, k as int);
        }
        copy_rect_rgb(&mut rgb_bytes, width, height, rects[k], image, r_table, g_table, b_table);
        k = k + 1;
    }
    rgb_bytes
}

/// The image is shown in color: it is a color one and all three channels are asked for.
pub open spec fn shows_rgb(img: &Image, color: PreviewColorMode) -> bool {
    is_color_image(img) && color == PreviewColorMode::Rgb
}

pub open spec fn layer_is_empty(l: (Seq<u16>, usize, usize)) -> bool {
    l.1 == 0 && l.2 == 0
}

/// What `Image::is_color` tells.
pub open spec fn is_color_image(img: &Image) -> bool {
    layer_is_empty(img.l@) && !layer_is_empty(img.r@) && !layer_is_empty(img.g@) && !layer_is_empty(img.b@)
}

/// The layer a one-channel preview shows: luminance of a monochrome image, else the
/// asked channel.
pub open spec fn shown_layer(img: &Image, color: PreviewColorMode) -> (Seq<u16>, usize, usize) {
    if !is_color_image(img) {
        img.l@
    } else {
        match color {
            PreviewColorMode::Red => img.r@,
            PreviewColorMode::Green => img.g@,
            _ => img.b@,
        }
    }
}

/// Preview bytes of one layer for a scale and a reduction ratio.
pub open spec fn mono_preview(
    l: (Seq<u16>, usize, usize),
    table: Seq<u8>,
    scale: PreviewScale,
    ratio: int,
    w: int,
    h: int,
) -> Seq<u8> {
    if scale == PreviewScale::CenterAndCorners {
        corners_mono(
            Seq::new((3 * (w * h)) as nat, |i: int| 0u8),
            w,
            corner_rects(l.1 as int, l.2 as int, w, h),
            9,
            l,
            table,
        )
    } else if ratio == 1 {
        mono_bytes(l.0, table)
    } else {
        mono_bytes(reduced(l.0, l.1 as int, l.2 as int, ratio), table)
    }
}

/// Preview bytes of three color layers for a scale and a reduction ratio.
pub open spec fn rgb_preview(
    img: &Image,
    rt: Seq<u8>,
    gt: Seq<u8>,
    bt: Seq<u8>,
    scale: PreviewScale,
    ratio: int,
    w: int,
    h: int,
) -> Seq<u8> {
    if scale == PreviewScale::CenterAndCorners {
        corners_rgb(
            Seq::new((3 * (w * h)) as nat, |i: int| 0u8),
            w,
            corner_rects(img.r@.1 as int, img.r@.2 as int, w, h),
            9,
            img.r@,
            img.g@.0,
            img.b@.0,
            rt,
            gt,
            bt,
        )
    } else if ratio == 1 {
        rgb_bytes(img.r@.0, img.g@.0, img.b@.0, rt, gt, bt)
    } else {
        rgb_bytes(
            reduced(img.r@.0, img.r@.1 as int, img.r@.2 as int, ratio),
            reduced(img.g@.0, img.g@.1 as int, img.g@.2 as int, ratio),
            reduced(img.b@.0, img.b@.1 as int, img.b@.2 as int, ratio),
            rt,
            gt,
            bt,
        )
    }
}

/// Preview bytes of an image, with their width and height: the three channels of a color
/// image shown in color, else one layer in gray; the center and corners at the given size,
/// else the image reduced `reduct_ratio` times. The gamma tables map each level to a byte.
pub fn to_grb_bytes(
    image: &Image,
    color: PreviewColorMode,
    scale: PreviewScale,
    reduct_ratio: usize,
    r_table: &[u8],
    g_table: &[u8],
    b_table: &[u8],
    l_table: &[u8],
    result_width: usize,
    result_height: usize,
) -> (r: (Vec<u8>, usize, usize))
    requires
        scale != PreviewScale::CenterAndCorners ==> 1 <= reduct_ratio <= 4,
        scale == PreviewScale::CenterAndCorners ==> 3 * (result_width * result_height) <= usize::MAX,
        shows_rgb(image, color) ==> {
            &&& image.rgb_wf()
            &&& full_table(r_table@) && full_table(g_table@) && full_table(b_table@)
            &&& scale == PreviewScale::CenterAndCorners ==> corners_fit(
                image.r@.1 as int,
                image.r@.2 as int,
                result_width as int,
                result_height as int,
            )
        },
        !shows_rgb(image, color) ==> {
            let l = shown_layer(image, color);
            &&& l.0.len() == l.1 * l.2
            &&& full_table(
                if !is_color_image(image) {
                    l_table@
                } else if color == PreviewColorMode::Red {
                    r_table@
                } else if color == PreviewColorMode::Green {
                    g_table@
                } else {
                    b_table@
                },
            )
            &&& scale == PreviewScale::CenterAndCorners ==> corners_fit(
                l.1 as int,
                l.2 as int,
                result_width as int,
                result_height as int,
            )
        },
    ensures
        shows_rgb(image, color) ==> r.0@ == rgb_preview(
            image,
            r_table@,
            g_table@,
            b_table@,
            scale,
            reduct_ratio as int,
            result_width as int,
            result_height as int,
        ),
        !shows_rgb(image, color) ==> r.0@ == mono_preview(
            shown_layer(image, color),
            if !is_color_image(image) {
                l_table@
            } else if color == PreviewColorMode::Red {
                r_table@
            } else if color == PreviewColorMode::Green {
                g_table@
            } else {
                b_table@
            },
            scale,
            reduct_ratio as int,
            result_width as int,
            result_height as int,
        ),
        scale == PreviewScale::CenterAndCorners ==> r.1 == result_width && r.2 == result_height,
        scale != PreviewScale::CenterAndCorners ==> r.1 == (if image.l@.1 != 0 {
            image.l@.1
        } else {
            image.r@.1
        }) / reduct_ratio && r.2 == (if image.l@.2 != 0 {
            image.l@.2
        } else {
            image.r@.2
        }) / reduct_ratio,
        scale != PreviewScale::CenterAndCorners && shows_rgb(image, color) ==> r.0@.len() == 3 * (r.1 * r.2),
        scale != PreviewScale::CenterAndCorners && !is_color_image(image) && image.l@.1 != 0 && image.l@.2 != 0
            ==> r.0@.len() == 3 * (r.1 * r.2),
{
    proof {
        if scale != PreviewScale::CenterAndCorners {
            if shows_rgb(image, color) {
                crate::image::image_laws::lemma_rgb_preview_reduced(
                    image, r_table@, g_table@, b_table@, scale, reduct_ratio as int, result_width as int, result_height as int);
            } else if !is_color_image(image) {
                crate::image::image_laws::lemma_mono_preview_reduced(
                    image.l@, l_table@, scale, reduct_ratio as int, result_width as int, result_height as int);
            }
        }
    }
    let is_color = image.is_color();
    let corners = scale == PreviewScale::CenterAndCorners;
    let rgb_bytes = if is_color && color == PreviewColorMode::Rgb {
        let w = image.width();
        let h = image.height();
        if corners {
            to_grb_bytes_corners_rgb(image, r_table, g_table, b_table, result_width, result_height)
        } else if reduct_ratio == 1 {
            to_grb_bytes_no_reduct_rgb(image, r_table, g_table, b_table, w, h)
        } else if reduct_ratio == 2 {
            to_grb_bytes_reduct2_rgb(image, r_table, g_table, b_table, w, h)
        } else if reduct_ratio == 3 {
            to_grb_bytes_reduct3_rgb(image, r_table, g_table, b_table, w, h)
        } else {
            to_grb_bytes_reduct4_rgb(image, r_table, g_table, b_table, w, h)
        }
    } else {
        let (layer, table) = if !is_color {
            (&image.l, l_table)
        } else if color == PreviewColorMode::Red {
            (&image.r, r_table)
        } else if color == PreviewColorMode::Green {
            (&image.g, g_table)
        } else {
            (&image.b, b_table)
        };
        let w = layer.width();
        let h = layer.height();
        if corners {
            to_grb_bytes_corners_mono(layer, table, result_width, result_height)
        } else if reduct_ratio == 1 {
            to_grb_bytes_no_reduct_mono(layer, table, w, h)
        } else if reduct_ratio == 2 {
            to_grb_bytes_reduct2_mono(layer, table, w, h)
        } else if reduct_ratio == 3 {
            to_grb_bytes_reduct3_mono(layer, table, w, h)
        } else {
            to_grb_bytes_reduct4_mono(layer, table, w, h)
        }
    };
    let (width, height) = if corners {
        (result_width, result_height)
    } else {
        (image.width() / reduct_ratio, image.height() / reduct_ratio)
    };
    (rgb_bytes, width, height)
}

} // verus!
