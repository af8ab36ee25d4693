use vstd::prelude::*;

use crate::image::image::{block_avg, crd_sample, lemma_crd_sample_at_pixel, sum_rows, sum_run, Image, CRD_DIV};
use crate::image::preview::{mono_preview, rgb_preview};
use crate::options::preview::PreviewScale;
use crate::image::raw::{
    cfa_color, demosaic_channel, div_toward_zero, is_bayer, level, repair_count, repair_match, repair_round,
    win5_offset, CfaColor, CfaType,
};
use crate::image::stacker::{layer_sample, rows_of, source_crd, Transform};

verus! {

proof fn lemma_div_exact(d: int)
    ensures
        div_toward_zero(d * 65536, 65536) == d,
{
    if d >= 0 {
        assert((d * 65536) / 65536 == d) by (nonlinear_arith);
    } else {
        assert((-(d * 65536)) / 65536 == -d) by (nonlinear_arith)
            requires d < 0;
    }
}

proof fn lemma_index_split(w: int, x: int, y: int)
    requires
        w > 0,
        0 <= x < w,
        0 <= y,
    ensures
        (y * w + x) % w == x,
        (y * w + x) / w == y,
{
    assert((y * w + x) % w == x && (y * w + x) / w == y) by (nonlinear_arith)
        requires w > 0, 0 <= x < w, 0 <= y;
}

/// A frame shifted by whole pixels and not turned lands shifted on the stack: with
/// `cos_a = 65536`, `sin_a = 0` and a shift of `a` columns and `b` rows (`transl_x = 256 * a`,
/// `transl_y = 256 * b`), stack pixel `(x, y)` takes the frame's level at `(x - a, y - b)`,
/// wherever that pixel lies in the frame.
pub proof fn lemma_shifted_frame_sample(n: int, src: (Seq<u16>, usize, usize), t: Transform, a: int, b: int, x: int, y: int)
    requires
        src.0.len() == src.1 * src.2,
        src.1 > 0,
        t.cos_a == 65536,
        t.sin_a == 0,
        t.transl_x == 256 * a,
        t.transl_y == 256 * b,
        0 <= x < src.1,
        0 <= y < rows_of(n, src),
        0 <= x - a < src.1,
        0 <= y - b < src.2,
    ensures
        layer_sample(n, src, t, y * src.1 + x) == Some(src.0[(y - b) * src.1 + (x - a)]),
{
    let w = src.1 as int;
    let h = src.2 as int;
    lemma_index_split(w, x, y);
    assert(y * w + x < rows_of(n, src) * w) by (nonlinear_arith)
        requires 0 <= x < w, 0 <= y < rows_of(n, src);
    let cx = (w - 1) * 128;
    let cy = (h - 1) * 128;
    let dx = x * 256 - t.transl_x - cx;
    let dy = y * 256 - t.transl_y - cy;
    assert(dx * t.cos_a - dy * t.sin_a == dx * 65536) by (nonlinear_arith)
        requires t.cos_a == 65536, t.sin_a == 0;
    assert(dy * t.cos_a + dx * t.sin_a == dy * 65536) by (nonlinear_arith)
        requires t.cos_a == 65536, t.sin_a == 0;
    lemma_div_exact(dx);
    lemma_div_exact(dy);
    let p = source_crd(t, w, h, x, y);
    assert(p == (256 * (x - a), 256 * (y - b)));
    lemma_crd_sample_at_pixel(src, x - a, y - b);
    assert(CRD_DIV * (x - a) == 256 * (x - a));
    assert(CRD_DIV * (y - b) == 256 * (y - b));
}

/// The level of a site of color `c` in a frame whose red, green and blue sites hold the
/// levels `r`, `g` and `b`.
pub open spec fn site_level(c: CfaColor, r: u16, g: u16, b: u16) -> int {
    match c {
        CfaColor::R => r as int,
        CfaColor::G => g as int,
        CfaColor::B => b as int,
        CfaColor::Mono => 0,
    }
}

/// Every red site of the frame holds `r`, every green one `g`, every blue one `b`.
pub open spec fn sites_hold(d: Seq<u16>, w: int, h: int, cfa: CfaType, r: u16, g: u16, b: u16) -> bool {
    forall|u: int, v: int| 0 <= u < w && 0 <= v < h ==> #[trigger] level(d, w, u, v) == site_level(cfa_color(cfa, u, v), r, g, b)
}

/// Demosaicing puts every color in its place: where the red, green and blue sites of a
/// frame each hold one level, every pixel away from the border demosaics into those
/// three levels, under every filter layout.
pub proof fn lemma_demosaic_sites(d: Seq<u16>, w: int, h: int, cfa: CfaType, r: u16, g: u16, b: u16, x: int, y: int)
    requires
        d.len() == w * h,
        is_bayer(cfa),
        sites_hold(d, w, h, cfa, r, g, b),
        1 <= x < w - 1,
        1 <= y < h - 1,
    ensures
        demosaic_channel(d, w, h, cfa, 0)[y * w + x] == r,
        demosaic_channel(d, w, h, cfa, 1)[y * w + x] == g,
        demosaic_channel(d, w, h, cfa, 2)[y * w + x] == b,
{
    lemma_index_split(w, x, y);
    assert(y * w + x < w * h) by (nonlinear_arith)
        requires 0 <= x < w, 0 <= y < h;
    let l = |u: int, v: int| level(d, w, u, v);
    assert(l(x, y) == site_level(cfa_color(cfa, x, y), r, g, b));
    assert(l(x - 1, y) == site_level(cfa_color(cfa, x - 1, y), r, g, b));
    assert(l(x + 1, y) == site_level(cfa_color(cfa, x + 1, y), r, g, b));
    assert(l(x, y - 1) == site_level(cfa_color(cfa, x, y - 1), r, g, b));
    assert(l(x, y + 1) == site_level(cfa_color(cfa, x, y + 1), r, g, b));
    assert(l(x - 1, y - 1) == site_level(cfa_color(cfa, x - 1, y - 1), r, g, b));
    assert(l(x + 1, y - 1) == site_level(cfa_color(cfa, x + 1, y - 1), r, g, b));
    assert(l(x - 1, y + 1) == site_level(cfa_color(cfa, x - 1, y + 1), r, g, b));
    assert(l(x + 1, y + 1) == site_level(cfa_color(cfa, x + 1, y + 1), r, g, b));
    assert((x - 1) % 2 == 1 - x % 2 && (x + 1) % 2 == 1 - x % 2);
    assert((y - 1) % 2 == 1 - y % 2 && (y + 1) % 2 == 1 - y % 2);
}

proof fn lemma_repair_count_pos(w: int, h: int, cfa: CfaType, bad: Set<int>, p: int, j: int, k: int)
    requires
        0 <= j < k,
        repair_match(w, h, cfa, bad, p, j),
    ensures
        repair_count(w, h, cfa, bad, p, k) > 0,
    decreases k,
{
    if j < k - 1 {
        lemma_repair_count_pos(w, h, cfa, bad, p, j, k - 1);
    }
    lemma_repair_count_nonneg(w, h, cfa, bad, p, k - 1);
}

proof fn lemma_repair_count_nonneg(w: int, h: int, cfa: CfaType, bad: Set<int>, p: int, k: int)
    ensures
        repair_count(w, h, cfa, bad, p, k) >= 0,
    decreases k,
{
    if k > 0 {
        lemma_repair_count_nonneg(w, h, cfa, bad, p, k - 1);
    }
}

/// A bad pixel is repaired in a round when a good pixel of its color lies within reach:
/// two pixels along the rows and the columns for red and for blue alike, one for green
/// and under no filter.
pub proof fn lemma_repair_reaches(d: Seq<u16>, w: int, h: int, cfa: CfaType, bad: Set<int>, x: int, y: int, dx: int, dy: int)
    requires
        0 <= x < w,
        0 <= y < h,
        bad.contains(y * w + x),
        cfa_color(cfa, x, y) == CfaColor::R || cfa_color(cfa, x, y) == CfaColor::B ==> -2 <= dx <= 2 && -2 <= dy <= 2,
        cfa_color(cfa, x, y) == CfaColor::G || cfa_color(cfa, x, y) == CfaColor::Mono ==> -1 <= dx <= 1 && -1 <= dy <= 1,
        0 <= x + dx < w,
        0 <= y + dy < h,
        cfa_color(cfa, x + dx, y + dy) == cfa_color(cfa, x, y),
        !bad.contains((y + dy) * w + (x + dx)),
    ensures
        !repair_round(d, w, h, cfa, bad).1.contains(y * w + x),
{
    let p = y * w + x;
    lemma_index_split(w, x, y);
    let k = (dy + 2) * 5 + (dx + 2);
    assert(win5_offset(k) == (dx, dy));
    assert(repair_match(w, h, cfa, bad, p, k));
    lemma_repair_count_pos(w, h, cfa, bad, p, k, 25);
}

/// A block of one pixel averages to that pixel's level.
proof fn lemma_block_of_one(d: Seq<u16>, w: int, x: int, y: int)
    requires
        0 <= y * w + x < d.len(),
    ensures
        block_avg(d, w, 1, x, y) == d[y * w + x],
{
    let s0 = y * w + x;
    assert(sum_run(d, s0, 0) == 0);
    assert(s0 + 1 - 1 == s0);
    assert(sum_run(d, s0, 1) == d[s0] as int);
    assert(sum_rows(d, w, 1, x * 1, y * 1, 0) == 0);
    assert((y * 1 + 1 - 1) * w + x * 1 == s0);
    assert(sum_rows(d, w, 1, x * 1, y * 1, 1) == d[s0] as int);
    assert((d[s0] as int + (1int * 1) / 2) / (1int * 1) == d[s0] as int);
}

proof fn lemma_triple_index(p: int, k: int)
    requires
        0 <= k < 3,
    ensures
        (3 * p + k) / 3 == p,
        (3 * p + k) % 3 == k,
{
    assert((3 * p + k) / 3 == p && (3 * p + k) % 3 == k) by (nonlinear_arith)
        requires 0 <= k < 3;
}

/// The color preview of an image reduced `n` times holds three bytes for each pixel of
/// the size the preview reports (the image's size divided by `n`), and each pixel shows,
/// through the gamma tables, the means of its `n` x `n` block of the image.
pub proof fn lemma_rgb_preview_reduced(
    img: &Image,
    rt: Seq<u8>,
    gt: Seq<u8>,
    bt: Seq<u8>,
    scale: PreviewScale,
    n: int,
    w: int,
    h: int,
)
    requires
        scale != PreviewScale::CenterAndCorners,
        1 <= n,
        img.rgb_wf(),
    ensures
        ({
            let sw = img.r@.1 as int;
            let rw = sw / n;
            let rh = img.r@.2 as int / n;
            let bytes = rgb_preview(img, rt, gt, bt, scale, n, w, h);
            &&& bytes.len() == 3 * (rw * rh)
            &&& forall|p: int| 0 <= p < rw * rh ==> {
                &&& #[trigger] bytes[3 * p] == rt[block_avg(img.r@.0, sw, n, p % rw, p / rw) as int]
                &&& bytes[3 * p + 1] == gt[block_avg(img.g@.0, sw, n, p % rw, p / rw) as int]
                &&& bytes[3 * p + 2] == bt[block_avg(img.b@.0, sw, n, p % rw, p / rw) as int]
            }
        }),
{
    let sw = img.r@.1 as int;
    let sh = img.r@.2 as int;
    let rw = sw / n;
    let rh = sh / n;
    let bytes = rgb_preview(img, rt, gt, bt, scale, n, w, h);
    assert(rw * rh >= 0) by (nonlinear_arith)
        requires sw >= 0, sh >= 0, n >= 1, rw == sw / n, rh == sh / n;
    if n == 1 {
        assert(rw == sw && rh == sh);
    }
    assert forall|p: int| 0 <= p < rw * rh implies {
        &&& #[trigger] bytes[3 * p] == rt[block_avg(img.r@.0, sw, n, p % rw, p / rw) as int]
        &&& bytes[3 * p + 1] == gt[block_avg(img.g@.0, sw, n, p % rw, p / rw) as int]
        &&& bytes[3 * p + 2] == bt[block_avg(img.b@.0, sw, n, p % rw, p / rw) as int]
    } by {
        lemma_triple_index(p, 0);
        lemma_triple_index(p, 1);
        lemma_triple_index(p, 2);
        assert(3 * p + 0 == 3 * p);
        if n == 1 {
            assert(p % rw + (p / rw) * rw == p && 0 <= p % rw < rw) by (nonlinear_arith)
                requires rw > 0, 0 <= p;
            assert(rw > 0) by (nonlinear_arith)
                requires 0 <= p < rw * rh, rh >= 0;
            lemma_block_of_one(img.r@.0, sw, p % rw, p / rw);
            lemma_block_of_one(img.g@.0, sw, p % rw, p / rw);
            lemma_block_of_one(img.b@.0, sw, p % rw, p / rw);
        }
    }
}

/// The gray preview of a layer reduced `n` times holds three bytes for each pixel of the
/// layer's size divided by `n`, all three showing through the table the mean of the
/// pixel's `n` x `n` block.
pub proof fn lemma_mono_preview_reduced(
    l: (Seq<u16>, usize, usize),
    table: Seq<u8>,
    scale: PreviewScale,
    n: int,
    w: int,
    h: int,
)
    requires
        scale != PreviewScale::CenterAndCorners,
        1 <= n,
        l.0.len() == l.1 * l.2,
    ensures
        ({
            let sw = l.1 as int;
            let rw = sw / n;
            let rh = l.2 as int / n;
            let bytes = mono_preview(l, table, scale, n, w, h);
            &&& bytes.len() == 3 * (rw * rh)
            &&& forall|p: int, k: int| 0 <= p < rw * rh && 0 <= k < 3 ==>
                #[trigger] bytes[3 * p + k] == table[block_avg(l.0, sw, n, p % rw, p / rw) as int]
        }),
{
    let sw = l.1 as int;
    let sh = l.2 as int;
    let rw = sw / n;
    let rh = sh / n;
    let bytes = mono_preview(l, table, scale, n, w, h);
    assert(rw * rh >= 0) by (nonlinear_arith)
        requires sw >= 0, sh >= 0, n >= 1, rw == sw / n, rh == sh / n;
    if n == 1 {
        assert(rw == sw && rh == sh);
    }
    assert forall|p: int, k: int| 0 <= p < rw * rh && 0 <= k < 3 implies
        #[trigger] bytes[3 * p + k] == table[block_avg(l.0, sw, n, p % rw, p / rw) as int] by {
        lemma_triple_index(p, k);
        if n == 1 {
            assert(rw > 0) by (nonlinear_arith)
                requires 0 <= p < rw * rh, rh >= 0;
            assert(p % rw + (p / rw) * rw == p && 0 <= p % rw < rw) by (nonlinear_arith)
                requires rw > 0, 0 <= p;
            lemma_block_of_one(l.0, sw, p % rw, p / rw);
        }
    }
}

} // verus!
