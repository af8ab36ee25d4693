use vstd::prelude::*;

use crate::image::raw::{
    cfa_color, cfa_rows, color_first_col, color_first_row, color_hot, hot_border, is_bayer, is_light_hot, level,
    light_diffs, light_hot, light_hot_pixels, row_hot, row_samples, BadPixel, CfaColor, CfaType, RawImage,
};

verus! {

/// How far a reported hot pixel stands above the nearer in level of its two neighbors of
/// the same color in its row.
pub open spec fn hot_margin(d: Seq<u16>, w: int, q: BadPixel) -> int {
    let x = q.x as int;
    let y = q.y as int;
    let a = level(d, w, x, y) - level(d, w, x - 2, y);
    let b = level(d, w, x, y) - level(d, w, x + 2, y);
    if a < b {
        a
    } else {
        b
    }
}

/// The rows of a color: every row for green, every other row for red and for blue.
spec fn row_step(c: CfaColor) -> int {
    if c == CfaColor::G {
        1
    } else {
        2
    }
}

/// Where the pixels of each color of a two-row filter lie.
proof fn lemma_color_sites(cfa: CfaType, c: CfaColor, x: int, y: int)
    requires
        is_bayer(cfa),
        c == CfaColor::R || c == CfaColor::G || c == CfaColor::B,
        x >= 0,
        y >= 0,
    ensures
        cfa_color(cfa, x, y) == c <==> (y >= color_first_row(cfa, c) && (y - color_first_row(cfa, c)) % row_step(c) == 0
            && x % 2 == color_first_col(cfa, c, y)),
        0 <= color_first_row(cfa, c) <= 1,
        0 <= color_first_col(cfa, c, y) <= 1,
{
    assert(cfa_rows(cfa).len() == 2);
    assert(0 <= x % 2 < 2 && 0 <= y % 2 < 2);
    assert(y % 2 == 0 ==> (y - 1) % 2 == 1 || y == 0);
    assert(cfa_color(cfa, 0, y) == cfa_rows(cfa)[y % 2]@[0]);
}

proof fn lemma_row_hot_has(d: Seq<u16>, w: int, h: int, y: int, x0: int, step: int, border: int, n: int, j: int)
    requires
        1 <= j,
        j + 1 < n,
        n <= row_samples(d, w, y, x0, step).len(),
        is_light_hot(
            d,
            w,
            h,
            x0 + j * step,
            row_samples(d, w, y, x0, step)[j - 1] as int,
            row_samples(d, w, y, x0, step)[j] as int,
            row_samples(d, w, y, x0, step)[j + 1] as int,
            border,
        ),
    ensures
        row_hot(d, w, h, y, x0, step, border, n).contains((BadPixel { x: (x0 + j * step) as isize, y: y as isize })),
    decreases n,
{
    let q = BadPixel { x: (x0 + j * step) as isize, y: y as isize };
    let prev = row_hot(d, w, h, y, x0, step, border, n - 1);
    if j + 2 < n {
        lemma_row_hot_has(d, w, h, y, x0, step, border, n - 1, j);
        let r = row_hot(d, w, h, y, x0, step, border, n);
        let k = choose|k: int| 0 <= k < prev.len() && prev[k] == q;
        assert(r[k] == q);
    } else {
        assert(j == n - 2);
        let r = row_hot(d, w, h, y, x0, step, border, n);
        assert(r == prev.push(q));
        assert(r[prev.len() as int] == q);
    }
}

proof fn lemma_row_hot_from(d: Seq<u16>, w: int, h: int, y: int, x0: int, step: int, border: int, n: int, q: BadPixel)
    requires
        row_hot(d, w, h, y, x0, step, border, n).contains(q),
        n <= row_samples(d, w, y, x0, step).len(),
    ensures
        exists|j: int|
            #![trigger row_samples(d, w, y, x0, step)[j]]
            1 <= j && j + 1 < n && q == (BadPixel { x: (x0 + j * step) as isize, y: y as isize }) && is_light_hot(
                d,
                w,
                h,
                x0 + j * step,
                row_samples(d, w, y, x0, step)[j - 1] as int,
                row_samples(d, w, y, x0, step)[j] as int,
                row_samples(d, w, y, x0, step)[j + 1] as int,
                border,
            ),
    decreases n,
{
    let s = row_samples(d, w, y, x0, step);
    if n >= 3 {
        let prev = row_hot(d, w, h, y, x0, step, border, n - 1);
        let x = x0 + (n - 2) * step;
        if is_light_hot(d, w, h, x, s[n - 3] as int, s[n - 2] as int, s[n - 1] as int, border) {
            let r = prev.push(BadPixel { x: x as isize, y: y as isize });
            let k = choose|k: int| 0 <= k < r.len() && r[k] == q;
            if k < prev.len() {
                assert(prev[k] == q);
                lemma_row_hot_from(d, w, h, y, x0, step, border, n - 1, q);
                let j = choose|j: int|
                    #![trigger row_samples(d, w, y, x0, step)[j]]
                    1 <= j && j + 1 < n - 1 && q == (BadPixel { x: (x0 + j * step) as isize, y: y as isize }) && is_light_hot(
                        d, w, h, x0 + j * step, s[j - 1] as int, s[j] as int, s[j + 1] as int, border);
                assert(s[j] == s[j]);
            } else {
                assert(q == BadPixel { x: x as isize, y: y as isize });
                assert(s[n - 2] == s[n - 2]);
            }
        } else {
            lemma_row_hot_from(d, w, h, y, x0, step, border, n - 1, q);
            let j = choose|j: int|
                #![trigger row_samples(d, w, y, x0, step)[j]]
                1 <= j && j + 1 < n - 1 && q == (BadPixel { x: (x0 + j * step) as isize, y: y as isize }) && is_light_hot(
                    d, w, h, x0 + j * step, s[j - 1] as int, s[j] as int, s[j + 1] as int, border);
            assert(s[j] == s[j]);
        }
    }
}

proof fn lemma_light_hot_has(
    d: Seq<u16>,
    w: int,
    h: int,
    cfa: CfaType,
    c: CfaColor,
    xstep: int,
    y0: int,
    ystep: int,
    border: int,
    y: int,
    yy: int,
    q: BadPixel,
)
    requires
        ystep >= 1,
        y0 <= yy < y,
        0 <= yy,
        (yy - y0) % ystep == 0,
        row_hot(
            d,
            w,
            h,
            yy,
            color_first_col(cfa, c, yy),
            xstep,
            border,
            row_samples(d, w, yy, color_first_col(cfa, c, yy), xstep).len() as int,
        ).contains(q),
    ensures
        light_hot(d, w, h, cfa, c, xstep, y0, ystep, border, y).contains(q),
    decreases y,
{
    let prev = light_hot(d, w, h, cfa, c, xstep, y0, ystep, border, y - 1);
    let r = light_hot(d, w, h, cfa, c, xstep, y0, ystep, border, y);
    if yy == y - 1 {
        let x0 = color_first_col(cfa, c, y - 1);
        let rh = row_hot(d, w, h, y - 1, x0, xstep, border, row_samples(d, w, y - 1, x0, xstep).len() as int);
        assert(r == prev + rh);
        let k = choose|k: int| 0 <= k < rh.len() && rh[k] == q;
        assert(r[prev.len() + k] == q);
    } else {
        lemma_light_hot_has(d, w, h, cfa, c, xstep, y0, ystep, border, y - 1, yy, q);
        let k = choose|k: int| 0 <= k < prev.len() && prev[k] == q;
        if (y - 1 - y0) % ystep == 0 {
            let x0 = color_first_col(cfa, c, y - 1);
            let rh = row_hot(d, w, h, y - 1, x0, xstep, border, row_samples(d, w, y - 1, x0, xstep).len() as int);
            assert(r == prev + rh);
            assert(r[k] == q);
        } else {
            assert(r[k] == q);
        }
    }
}

proof fn lemma_light_hot_from(
    d: Seq<u16>,
    w: int,
    h: int,
    cfa: CfaType,
    c: CfaColor,
    xstep: int,
    y0: int,
    ystep: int,
    border: int,
    y: int,
    q: BadPixel,
)
    requires
        light_hot(d, w, h, cfa, c, xstep, y0, ystep, border, y).contains(q),
    ensures
        exists|yy: int|
            #![trigger color_first_col(cfa, c, yy)]
            y0 <= yy < y && 0 <= yy && (yy - y0) % ystep == 0 && row_hot(
                d,
                w,
                h,
                yy,
                color_first_col(cfa, c, yy),
                xstep,
                border,
                row_samples(d, w, yy, color_first_col(cfa, c, yy), xstep).len() as int,
            ).contains(q),
    decreases y,
{
    if !(y <= y0 || y <= 0) {
        let prev = light_hot(d, w, h, cfa, c, xstep, y0, ystep, border, y - 1);
        let r = light_hot(d, w, h, cfa, c, xstep, y0, ystep, border, y);
        let k = choose|k: int| 0 <= k < r.len() && r[k] == q;
        if (y - 1 - y0) % ystep == 0 {
            let x0 = color_first_col(cfa, c, y - 1);
            let rh = row_hot(d, w, h, y - 1, x0, xstep, border, row_samples(d, w, y - 1, x0, xstep).len() as int);
            assert(r == prev + rh);
            if k < prev.len() {
                assert(prev[k] == q);
                lemma_light_hot_from(d, w, h, cfa, c, xstep, y0, ystep, border, y - 1, q);
            } else {
                assert(rh[k - prev.len()] == q);
                assert(rh.contains(q));
                assert(color_first_col(cfa, c, y - 1) == x0);
            }
        } else {
            assert(prev[k] == q);
            lemma_light_hot_from(d, w, h, cfa, c, xstep, y0, ystep, border, y - 1, q);
        }
    }
}

/// The border of the hot pixels of color `c`, from the peaks of every fourth row of it.
spec fn color_border(raw: &RawImage, c: CfaColor) -> int {
    let d = raw@.0;
    let w = raw@.1 as int;
    let h = raw@.2 as int;
    let cfa = raw.filter();
    hot_border(light_diffs(d, w, cfa, c, 2, color_first_row(cfa, c), 4 * row_step(c), h), raw.max_level())
}

/// A pixel reported hot for color `c` lies under a filter of color `c` and stands above
/// both its neighbors of that color in its row by more than the border of the color.
#[verifier::spinoff_prover]
#[verifier::rlimit(40)]
proof fn lemma_color_hot_source(raw: &RawImage, c: CfaColor, q: BadPixel)
    requires
        raw.wf(),
        raw@.1 <= isize::MAX,
        raw@.2 <= isize::MAX,
        is_bayer(raw.filter()),
        c == CfaColor::R || c == CfaColor::G || c == CfaColor::B,
        color_hot(raw, c, 2, row_step(c)).contains(q),
    ensures
        light_diffs(raw@.0, raw@.1 as int, raw.filter(), c, 2, color_first_row(raw.filter(), c), 4 * row_step(c), raw@.2 as int).len() != 0,
        color_border(raw, c) < hot_margin(raw@.0, raw@.1 as int, q),
        cfa_color(raw.filter(), q.x as int, q.y as int) == c,
{
    let d = raw@.0;
    let w = raw@.1 as int;
    let h = raw@.2 as int;
    let cfa = raw.filter();
    let ys = row_step(c);
    let y0 = color_first_row(cfa, c);
    let diffs = light_diffs(d, w, cfa, c, 2, y0, 4 * ys, h);
    assert(diffs.len() != 0);
    let border = color_border(raw, c);
    lemma_light_hot_from(d, w, h, cfa, c, 2, y0, ys, border, h, q);
    let yy = choose|yy: int|
        #![trigger color_first_col(cfa, c, yy)]
        y0 <= yy < h && 0 <= yy && (yy - y0) % ys == 0 && row_hot(
            d, w, h, yy, color_first_col(cfa, c, yy), 2, border,
            row_samples(d, w, yy, color_first_col(cfa, c, yy), 2).len() as int,
        ).contains(q);
    let x0 = color_first_col(cfa, c, yy);
    let s = row_samples(d, w, yy, x0, 2);
    lemma_row_hot_from(d, w, h, yy, x0, 2, border, s.len() as int, q);
    let j = choose|j: int|
        #![trigger row_samples(d, w, yy, x0, 2)[j]]
        1 <= j && j + 1 < s.len() && q == (BadPixel { x: (x0 + j * 2) as isize, y: yy as isize }) && is_light_hot(
            d, w, h, x0 + j * 2, s[j - 1] as int, s[j] as int, s[j + 1] as int, border);
    lemma_color_sites(cfa, c, 0, yy);
    assert(0 <= x0 <= 1);
    let qx = x0 + j * 2;
    assert(s.len() == (w - x0 + 1) / 2);
    assert(qx < w);
    assert(s[j - 1] as int == level(d, w, qx - 2, yy));
    assert(s[j] as int == level(d, w, qx, yy));
    assert(s[j + 1] as int == level(d, w, qx + 2, yy));
    assert(q.x as int == qx && q.y as int == yy);
    lemma_color_sites(cfa, c, qx, yy);
    assert(qx % 2 == x0);
}

/// A pixel of color `c` away from the ends of its row that stands above both its
/// neighbors of that color by more than the border of the color is reported, whatever
/// its row.
#[verifier::spinoff_prover]
#[verifier::rlimit(40)]
proof fn lemma_color_hot_site(raw: &RawImage, c: CfaColor, x: int, y: int)
    requires
        raw.wf(),
        raw@.1 <= isize::MAX,
        raw@.2 <= isize::MAX,
        is_bayer(raw.filter()),
        c == CfaColor::R || c == CfaColor::G || c == CfaColor::B,
        light_diffs(raw@.0, raw@.1 as int, raw.filter(), c, 2, color_first_row(raw.filter(), c), 4 * row_step(c), raw@.2 as int).len() != 0,
        0 <= y < raw@.2,
        2 <= x,
        x + 2 < raw@.1,
        cfa_color(raw.filter(), x, y) == c,
        is_light_hot(
            raw@.0,
            raw@.1 as int,
            raw@.2 as int,
            x,
            level(raw@.0, raw@.1 as int, x - 2, y),
            level(raw@.0, raw@.1 as int, x, y),
            level(raw@.0, raw@.1 as int, x + 2, y),
            color_border(raw, c),
        ),
    ensures
        color_hot(raw, c, 2, row_step(c)).contains((BadPixel { x: x as isize, y: y as isize })),
{
    let d = raw@.0;
    let w = raw@.1 as int;
    let h = raw@.2 as int;
    let cfa = raw.filter();
    let ys = row_step(c);
    let y0 = color_first_row(cfa, c);
    let border = color_border(raw, c);
    lemma_color_sites(cfa, c, x, y);
    let x1 = color_first_col(cfa, c, y);
    let s1 = row_samples(d, w, y, x1, 2);
    let j1 = (x - x1) / 2;
    assert(x == x1 + j1 * 2);
    assert(1 <= j1);
    assert(s1.len() == (w - x1 + 1) / 2);
    assert(j1 + 1 < s1.len());
    assert(s1[j1 - 1] as int == level(d, w, x - 2, y));
    assert(s1[j1] as int == level(d, w, x, y));
    assert(s1[j1 + 1] as int == level(d, w, x + 2, y));
    assert(is_light_hot(d, w, h, x, s1[j1 - 1] as int, s1[j1] as int, s1[j1 + 1] as int, border));
    lemma_row_hot_has(d, w, h, y, x1, 2, border, s1.len() as int, j1);
    lemma_light_hot_has(d, w, h, cfa, c, 2, y0, ys, border, h, y, BadPixel { x: x as isize, y: y as isize });
}

/// A pixel of the color `c` of a pixel `q` reported hot for that color, standing above its
/// neighbors at least as clearly as `q`, is reported for that color too.
proof fn lemma_color_hot_rows(raw: &RawImage, c: CfaColor, q: BadPixel, x: int, y: int)
    requires
        raw.wf(),
        raw@.1 <= isize::MAX,
        raw@.2 <= isize::MAX,
        is_bayer(raw.filter()),
        c == CfaColor::R || c == CfaColor::G || c == CfaColor::B,
        color_hot(raw, c, 2, row_step(c)).contains(q),
        0 <= y < raw@.2,
        2 <= x,
        x + 2 < raw@.1,
        cfa_color(raw.filter(), x, y) == cfa_color(raw.filter(), q.x as int, q.y as int),
        is_light_hot(
            raw@.0,
            raw@.1 as int,
            raw@.2 as int,
            x,
            level(raw@.0, raw@.1 as int, x - 2, y),
            level(raw@.0, raw@.1 as int, x, y),
            level(raw@.0, raw@.1 as int, x + 2, y),
            hot_margin(raw@.0, raw@.1 as int, q) - 1,
        ),
    ensures
        color_hot(raw, c, 2, row_step(c)).contains((BadPixel { x: x as isize, y: y as isize })),
{
    lemma_color_hot_source(raw, c, q);
    lemma_color_hot_site(raw, c, x, y);
}

/// Every pixel of every color is looked at: a pixel of the color of a reported hot pixel
/// that stands above both its neighbors of that color in its row at least as clearly as
/// the reported one (by more than its smaller margin less one, see `is_light_hot`) is
/// reported too, whatever its row and whatever its column.
pub proof fn lemma_light_hot_any_row(raw: &RawImage, q: BadPixel, x: int, y: int)
    requires
        raw.wf(),
        raw@.1 <= isize::MAX,
        raw@.2 <= isize::MAX,
        is_bayer(raw.filter()),
        light_hot_pixels(raw).contains(q),
        0 <= y < raw@.2,
        2 <= x,
        x + 2 < raw@.1,
        cfa_color(raw.filter(), x, y) == cfa_color(raw.filter(), q.x as int, q.y as int),
        is_light_hot(
            raw@.0,
            raw@.1 as int,
            raw@.2 as int,
            x,
            level(raw@.0, raw@.1 as int, x - 2, y),
            level(raw@.0, raw@.1 as int, x, y),
            level(raw@.0, raw@.1 as int, x + 2, y),
            hot_margin(raw@.0, raw@.1 as int, q) - 1,
        ),
    ensures
        light_hot_pixels(raw).contains((BadPixel { x: x as isize, y: y as isize })),
{
    let r = color_hot(raw, CfaColor::R, 2, 2);
    let g = color_hot(raw, CfaColor::G, 2, 1);
    let b = color_hot(raw, CfaColor::B, 2, 2);
    let all = light_hot_pixels(raw);
    assert(all == r + g + b);
    let p = BadPixel { x: x as isize, y: y as isize };
    let k = choose|k: int| 0 <= k < all.len() && all[k] == q;
    if k < r.len() {
        assert(r[k] == q);
        lemma_color_hot_rows(raw, CfaColor::R, q, x, y);
        let m = choose|m: int| 0 <= m < r.len() && r[m] == p;
        assert(all[m] == p);
    } else if k < r.len() + g.len() {
        assert(g[k - r.len()] == q);
        lemma_color_hot_rows(raw, CfaColor::G, q, x, y);
        let m = choose|m: int| 0 <= m < g.len() && g[m] == p;
        assert(all[r.len() + m] == p);
    } else {
        assert(b[k - r.len() - g.len()] == q);
        lemma_color_hot_rows(raw, CfaColor::B, q, x, y);
        let m = choose|m: int| 0 <= m < b.len() && b[m] == p;
        assert(all[r.len() + g.len() + m] == p);
    }
}

} // verus!
