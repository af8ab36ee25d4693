use vstd::prelude::*;

use crate::image::image::ImageLayer;
use crate::image::stars::{
    bright_set, lemma_point_coords_push, level_at, marked_set, point_coords, star_background,
    star_background_of, star_border, star_border_of, star_points, star_refused, star_region,
    MAX_STARS_POINTS_CNT,
};

verus! {

/// Most stars kept, the brightest.
pub const MAX_STARS_CNT: usize = 500;

/// Most failed fills before the search gives up.
pub const MAX_WRONG_STARS: usize = 1000;

/// A star found around a possible centre: the centre, the background level around it,
/// the level of its peak, its brightness (the sum over its pixels of their levels above
/// the background), its pixels with their levels, and its smallest and largest column
/// and row.
#[derive(Debug)]
pub struct StarPixels {
    pub x: isize,
    pub y: isize,
    pub background: u16,
    pub max_value: u16,
    pub brightness: u32,
    pub points: Vec<(isize, isize, u16)>,
    pub min_x: isize,
    pub max_x: isize,
    pub min_y: isize,
    pub max_y: isize,
}

/// What a star found is, as the search sees it: centre, background, peak and pixels.
pub struct StarModel {
    pub x: isize,
    pub y: isize,
    pub background: u16,
    pub max_value: u16,
    pub pixels: Set<(isize, isize)>,
}

/// A star found, as the search sees it.
pub open spec fn star_model(s: StarPixels) -> StarModel {
    StarModel { x: s.x, y: s.y, background: s.background, max_value: s.max_value, pixels: point_coords(s.points@) }
}

/// Stars found, as the search sees them.
pub open spec fn star_models(s: Seq<StarPixels>) -> Seq<StarModel> {
    Seq::new(s.len(), |i: int| star_model(s[i]))
}

/// Sum over the first `k` points of their levels above `bg`.
pub open spec fn sum_above(pts: Seq<(isize, isize, u16)>, bg: u16, k: int) -> int
    decreases k,
{
    if k <= 0 {
        0
    } else {
        sum_above(pts, bg, k - 1) + (pts[k - 1].2 - bg)
    }
}

/// `b` is the smallest and largest column and row of the points.
pub open spec fn is_box(pts: Seq<(isize, isize, u16)>, b: (isize, isize, isize, isize)) -> bool {
    &&& forall|k: int| 0 <= k < pts.len() ==> b.0 <= #[trigger] pts[k].0 <= b.1 && b.2 <= pts[k].1 <= b.3
    &&& exists|k: int| 0 <= k < pts.len() && #[trigger] pts[k].0 == b.0
    &&& exists|k: int| 0 <= k < pts.len() && #[trigger] pts[k].0 == b.1
    &&& exists|k: int| 0 <= k < pts.len() && #[trigger] pts[k].1 == b.2
    &&& exists|k: int| 0 <= k < pts.len() && #[trigger] pts[k].1 == b.3
}

/// The facts of a star found that its model leaves out: each pixel once and with its
/// level, the brightness, and the extent.
pub open spec fn star_pixels_ok(l: (Seq<u16>, usize, usize), s: StarPixels) -> bool {
    &&& forall|k: int| 0 <= k < s.points@.len() ==> #[trigger] s.points@[k].2 == level_at(l, (s.points@[k].0, s.points@[k].1))
    &&& forall|k: int, m: int| 0 <= k < m < s.points@.len() ==> (#[trigger] s.points@[k].0, s.points@[k].1) != (#[trigger] s.points@[m].0, s.points@[m].1)
    &&& s.brightness == sum_above(s.points@, s.background, s.points@.len() as int)
    &&& is_box(s.points@, (s.min_x, s.max_x, s.min_y, s.max_y))
}

/// The level a star's pixels must reach around a centre of peak `max_v` over background
/// `bg` (see `star_border_of`); where the peak is the whole range of levels above a
/// background of 0, the halfway level wraps to 0 and the centre is passed over.
pub open spec fn centre_border(max_v: u16, bg: u16, threshold: u16) -> Option<u16> {
    if max_v == u16::MAX && bg == 0 {
        None
    } else {
        star_border_of(max_v, bg, threshold)
    }
}

/// The search after the first `k` centres: the pixels of the stars found, how many they
/// are, the number of failed fills counted, the stars found, and whether it gave up.
/// A centre on a pixel of a star found is passed over; the search gives up, with no
/// stars, once the pixels of the stars found are more than a tenth of the layer or more
/// than `MAX_WRONG_STARS` fills failed; a centre whose peak does not stand out from its
/// background (see `centre_border`) is passed over; a fill that fails (see
/// `star_refused`) is counted, unless `ign` is set and `small` says the fill had
/// taken at most 3 pixels; a region of no pixels, or of at most 3 where `ign` is set,
/// is passed over; any other region is a star whose pixels are taken, kept when one of
/// its pixels is above the background.
pub open spec fn search(
    l: (Seq<u16>, usize, usize),
    centres: Seq<(isize, isize, u16)>,
    threshold: u16,
    ign: bool,
    small: Seq<bool>,
    k: int,
) -> (Set<(isize, isize)>, int, int, Seq<StarModel>, bool)
    decreases k,
{
    if k <= 0 {
        (Set::empty(), 0, 0, Seq::empty(), false)
    } else {
        let s = search(l, centres, threshold, ign, small, k - 1);
        let c = centres[k - 1];
        if s.4 || s.0.contains((c.0, c.1)) {
            s
        } else if s.1 > (l.1 * l.2) as int / 10 || s.2 > MAX_WRONG_STARS {
            (s.0, s.1, s.2, Seq::empty(), true)
        } else {
            let bg = star_background_of(l, c.0 as int, c.1 as int) as u16;
            match centre_border(c.2, bg, threshold) {
                None => s,
                Some(border) => {
                    let reg = star_region(l, border, (c.0, c.1));
                    if star_refused(l, border, s.0, (c.0, c.1)) {
                        if ign && small[k - 1] {
                            s
                        } else {
                            (s.0, s.1, s.2 + 1, s.3, false)
                        }
                    } else if reg.len() == 0 || (ign && reg.len() <= 3) {
                        s
                    } else {
                        let star = StarModel { x: c.0, y: c.1, background: bg, max_value: c.2, pixels: reg };
                        let bright = exists|p: (isize, isize)| #[trigger] reg.contains(p) && level_at(l, p) > bg;
                        (s.0.union(reg), s.1 + reg.len(), s.2, if bright { s.3.push(star) } else { s.3 }, false)
                    }
                },
            }
        }
    }
}

/// The search reads `small` only at the centres it has passed.
proof fn lemma_search_small(
    l: (Seq<u16>, usize, usize),
    cs: Seq<(isize, isize, u16)>,
    t: u16,
    ign: bool,
    s1: Seq<bool>,
    s2: Seq<bool>,
    k: int,
)
    requires
        0 <= k <= s1.len(),
        k <= s2.len(),
        forall|j: int| 0 <= j < k ==> s1[j] == s2[j],
    ensures
        search(l, cs, t, ign, s1, k) == search(l, cs, t, ign, s2, k),
    decreases k,
{
    if k > 0 {
        lemma_search_small(l, cs, t, ign, s1, s2, k - 1);
    }
}

/// Once the search gives up, it stays so.
proof fn lemma_search_gave_up(
    l: (Seq<u16>, usize, usize),
    cs: Seq<(isize, isize, u16)>,
    t: u16,
    ign: bool,
    small: Seq<bool>,
    k: int,
    m: int,
)
    requires
        0 <= k <= m,
        search(l, cs, t, ign, small, k).4,
    ensures
        search(l, cs, t, ign, small, m) == search(l, cs, t, ign, small, k),
    decreases m - k,
{
    if k < m {
        lemma_search_gave_up(l, cs, t, ign, small, k, m - 1);
    }
}

/// Points of distinct positions are as many as their positions.
proof fn lemma_coords_len(pts: Seq<(isize, isize, u16)>)
    requires
        forall|i: int, j: int| 0 <= i < j < pts.len() ==> (#[trigger] pts[i].0, pts[i].1) != (#[trigger] pts[j].0, pts[j].1),
    ensures
        point_coords(pts).finite(),
        point_coords(pts).len() == pts.len(),
{
    broadcast use vstd::seq_lib::seq_to_set_is_finite;
    let cs = Seq::new(pts.len(), |i: int| (pts[i].0, pts[i].1));
    assert forall|i: int, j: int| 0 <= i < cs.len() && 0 <= j < cs.len() && i != j implies cs[i] != cs[j] by {
        if i < j {
            assert((pts[i].0, pts[i].1) != (pts[j].0, pts[j].1));
        } else {
            assert((pts[j].0, pts[j].1) != (pts[i].0, pts[i].1));
        }
    }
    assert(cs.no_duplicates());
    cs.unique_seq_to_set();
    assert forall|p: (isize, isize)| cs.to_set().contains(p) <==> point_coords(pts).contains(p) by {
        if cs.to_set().contains(p) {
            let k = choose|k: int| 0 <= k < cs.len() && cs[k] == p;
            assert(pts[k].0 == p.0 && pts[k].1 == p.1);
        }
        if point_coords(pts).contains(p) {
            let k = choose|k: int| 0 <= k < pts.len() && #[trigger] pts[k].0 == p.0 && pts[k].1 == p.1;
            assert(cs[k] == p);
        }
    }
    assert(cs.to_set() =~= point_coords(pts));
}

/// Two pixels of a layer with the same flag index are the same pixel.
proof fn lemma_index_unique(w: int, p: (isize, isize), q: (isize, isize))
    requires
        0 <= p.0 < w,
        0 <= q.0 < w,
        p.1 * w + p.0 == q.1 * w + q.0,
    ensures
        p == q,
{
    assert(p.1 == q.1) by (nonlinear_arith)
        requires
            0 <= p.0 < w,
            0 <= q.0 < w,
            p.1 * w + p.0 == q.1 * w + q.0;
}

/// Smallest and largest column and row of some points.
fn point_bounds(pts: &Vec<(isize, isize, u16)>) -> (r: (isize, isize, isize, isize))
    requires
        pts@.len() > 0,
    ensures
        is_box(pts@, r),
{
    let mut x0 = pts[0].0;
    let mut x1 = pts[0].0;
    let mut y0 = pts[0].1;
    let mut y1 = pts[0].1;
    let ghost mut wit: (int, int, int, int) = (0, 0, 0, 0);
    let mut i: usize = 1;
    while i < pts.len()
        invariant
            1 <= i <= pts@.len(),
            forall|k: int| #![trigger pts@[k]] 0 <= k < i ==> x0 <= pts@[k].0 && pts@[k].0 <= x1 && y0 <= pts@[k].1 && pts@[k].1 <= y1,
            0 <= wit.0 < i && pts@[wit.0].0 == x0,
            0 <= wit.1 < i && pts@[wit.1].0 == x1,
            0 <= wit.2 < i && pts@[wit.2].1 == y0,
            0 <= wit.3 < i && pts@[wit.3].1 == y1,
        decreases pts@.len() - i,
    {
        let p = pts[i];
        if p.0 < x0 {
            x0 = p.0;
            proof { wit = (i as int, wit.1, wit.2, wit.3); }
        }
        if p.0 > x1 {
            x1 = p.0;
            proof { wit = (wit.0, i as int, wit.2, wit.3); }
        }
        if p.1 < y0 {
            y0 = p.1;
            proof { wit = (wit.0, wit.1, i as int, wit.3); }
        }
        if p.1 > y1 {
            y1 = p.1;
            proof { wit = (wit.0, wit.1, wit.2, i as int); }
        }
        proof {
            assert(pts@[i as int] == p);
        }
        i = i + 1;
    }
    proof {
        assert(pts@[wit.0].0 == x0);
        assert(pts@[wit.1].0 == x1);
        assert(pts@[wit.2].1 == y0);
        assert(pts@[wit.3].1 == y1);
    }
    (x0, x1, y0, y1)
}

/// The brightness of a star: the sum over its points of their levels above `bg`;
/// above 0 exactly when one of them is above `bg`.
fn brightness_of(pts: &Vec<(isize, isize, u16)>, bg: u16) -> (r: u32)
    requires
        pts@.len() <= MAX_STARS_POINTS_CNT + 1,
        forall|i: int| 0 <= i < pts@.len() ==> #[trigger] pts@[i].2 >= bg,
    ensures
        r == sum_above(pts@, bg, pts@.len() as int),
        r > 0 <==> exists|i: int| 0 <= i < pts@.len() && #[trigger] pts@[i].2 > bg,
{
    let mut s: u32 = 0;
    let mut i: usize = 0;
    while i < pts.len()
        invariant
            i <= pts@.len(),
            pts@.len() <= MAX_STARS_POINTS_CNT + 1,
            forall|k: int| 0 <= k < pts@.len() ==> #[trigger] pts@[k].2 >= bg,
            s == sum_above(pts@, bg, i as int),
            s <= i * 65535,
            s > 0 <==> exists|k: int| 0 <= k < i && #[trigger] pts@[k].2 > bg,
        decreases pts@.len() - i,
    {
        let v = pts[i].2;
        proof {
            assert(s + (v - bg) <= (i + 1) * 65535) by (nonlinear_arith)
                requires s <= i * 65535, v <= 65535, v >= bg;
            if v > bg {
                assert(pts@[i as int].2 > bg);
            }
        }
        s = s + (v - bg) as u32;
        i = i + 1;
    }
    s
}

/// The stars around possible centres `(x, y, peak)`, searched in the order of the
/// centres (see `search`): each star found that has a pixel above its background, in
/// that order, or none where the search gave up. A star's pixels are those of the
/// 8-connected region of its centre at the level halfway from its background (see
/// `star_background`) to its peak, or above; pixels of a star found are not taken again.
/// Which failed fills count toward giving up, where `ignore_3px_stars` is set, depends on
/// how many pixels the fill had taken when it stopped, which the order of the fill
/// decides: the contract leaves that open.
#[verifier::rlimit(80)]
#[verifier::spinoff_prover]
pub fn get_stars(
    image: &ImageLayer<u16>,
    centres: &[(isize, isize, u16)],
    threshold: u16,
    ignore_3px_stars: bool,
) -> (r: Vec<StarPixels>)
    requires
        image.wf(),
        image@.1 < isize::MAX - 64,
        image@.2 < isize::MAX - 64,
        forall|i: int| 0 <= i < centres@.len() ==> 0 <= (#[trigger] centres@[i]).0 < image@.1 && 0 <= centres@[i].1 < image@.2,
    ensures
        exists|small: Seq<bool>|
            small.len() == centres@.len()
            && #[trigger] search(image@, centres@, threshold, ignore_3px_stars, small, centres@.len() as int).3 == star_models(r@),
        forall|i: int| 0 <= i < r@.len() ==> star_pixels_ok(image@, #[trigger] r@[i]),
{
    let ghost l = image@;
    let ghost cs = centres@;
    let w = image.width();
    let n = image.as_slice().len();
    let max_all = n / 10;
    let mut taken: Vec<bool> = Vec::new();
    taken.resize(n, false);
    let mut count: usize = 0;
    let mut wrong: usize = 0;
    let mut out: Vec<StarPixels> = Vec::new();
    let ghost mut small: Seq<bool> = Seq::empty();
    proof {
        assert(taken@ =~= Seq::new(n as nat, |j: int| false));
        assert forall|p: (isize, isize)| !#[trigger] marked_set(l, taken@).contains(p) by {
            if 0 <= p.0 < l.1 && 0 <= p.1 < l.2 {
                assert(p.1 * l.1 + p.0 < l.1 * l.2) by (nonlinear_arith)
                    requires 0 <= p.0 < l.1, 0 <= p.1 < l.2;
            }
        }
        assert(marked_set(l, taken@) =~= Set::<(isize, isize)>::empty());
        assert(star_models(out@) =~= Seq::<StarModel>::empty());
    }
    let mut i: usize = 0;
    while i < centres.len()
        invariant
            l == image@,
            cs == centres@,
            image.wf(),
            image@.1 < isize::MAX - 64,
            image@.2 < isize::MAX - 64,
            forall|j: int| 0 <= j < cs.len() ==> 0 <= (#[trigger] cs[j]).0 < l.1 && 0 <= cs[j].1 < l.2,
            w == l.1,
            n == l.0.len(),
            n == l.1 * l.2,
            max_all == n / 10,
            taken@.len() == n,
            i <= cs.len(),
            small.len() == i,
            count <= max_all + MAX_STARS_POINTS_CNT + 1,
            wrong <= MAX_WRONG_STARS + 1,
            search(l, cs, threshold, ignore_3px_stars, small, i as int)
                == (marked_set(l, taken@), count as int, wrong as int, star_models(out@), false),
            forall|j: int| 0 <= j < out@.len() ==> star_pixels_ok(l, #[trigger] out@[j]),
        decreases cs.len() - i,
    {
        let ghost prev = search(l, cs, threshold, ignore_3px_stars, small, i as int);
        let c = centres[i];
        let x = c.0;
        let y = c.1;
        let max_v = c.2;
        proof {
            assert(cs[i as int] == c);
            assert(y * w + x < n) by (nonlinear_arith)
                requires 0 <= x < w, 0 <= y < l.2, n == w * l.2;
        }
        let idx = (y as usize) * w + (x as usize);
        if taken[idx] {
            proof {
                assert(marked_set(l, taken@).contains((x, y)));
                let old_small = small;
                small = small.push(false);
                lemma_search_small(l, cs, threshold, ignore_3px_stars, old_small, small, i as int);
            }
        } else if count > max_all || wrong > MAX_WRONG_STARS {
            proof {
                assert(!marked_set(l, taken@).contains((x, y)));
                let old_small = small;
                small = small.push(false);
                lemma_search_small(l, cs, threshold, ignore_3px_stars, old_small, small, i as int);
                let full = small + Seq::new((cs.len() - (i + 1)) as nat, |j: int| false);
                lemma_search_small(l, cs, threshold, ignore_3px_stars, small, full, i + 1);
                lemma_search_gave_up(l, cs, threshold, ignore_3px_stars, full, i + 1, cs.len() as int);
                assert(star_models(Seq::<StarPixels>::empty()) =~= Seq::<StarModel>::empty());
                assert(search(image@, centres@, threshold, ignore_3px_stars, full, centres@.len() as int).3
                    == star_models(Seq::<StarPixels>::empty()));
            }
            return Vec::new();
        } else {
            proof {
                assert(!marked_set(l, taken@).contains((x, y)));
            }
            let bg = star_background(image, x, y);
            let border = if max_v == u16::MAX && bg == 0 {
                None
            } else {
                star_border(max_v, bg, threshold)
            };
            proof {
                assert(bg as int == star_background_of(l, x as int, y as int));
                assert(border == centre_border(max_v, bg, threshold));
            }
            match border {
                None => {
                    proof {
                        let old_small = small;
                        small = small.push(false);
                        lemma_search_small(l, cs, threshold, ignore_3px_stars, old_small, small, i as int);
                    }
                },
                Some(border) => {
                    let found = star_points(image, &taken, border, x, y);
                    match found {
                        Err(np) => {
                            let is_small = np <= 3;
                            proof {
                                let old_small = small;
                                small = small.push(is_small);
                                lemma_search_small(l, cs, threshold, ignore_3px_stars, old_small, small, i as int);
                            }
                            if !(ignore_3px_stars && is_small) {
                                wrong = wrong + 1;
                            }
                        },
                        Ok(pts) => {
                            let ghost reg = star_region(l, border, (x, y));
                            proof {
                                let old_small = small;
                                small = small.push(false);
                                lemma_search_small(l, cs, threshold, ignore_3px_stars, old_small, small, i as int);
                                lemma_coords_len(pts@);
                            }
                            if pts.len() == 0 || (ignore_3px_stars && pts.len() <= 3) {
                            } else {
                                let ghost t0 = marked_set(l, taken@);
                                proof {
                                    assert(point_coords(pts@.take(0)) =~= Set::<(isize, isize)>::empty());
                                    assert(t0.union(point_coords(pts@.take(0))) =~= t0);
                                }
                                let mut j: usize = 0;
                                while j < pts.len()
                                    invariant
                                        j <= pts@.len(),
                                        taken@.len() == n,
                                        n == l.1 * l.2,
                                        w == l.1,
                                        point_coords(pts@) == reg,
                                        reg.subset_of(bright_set(l, border)),
                                        marked_set(l, taken@) == t0.union(point_coords(pts@.take(j as int))),
                                    decreases pts@.len() - j,
                                {
                                    let p = pts[j];
                                    proof {
                                        assert(point_coords(pts@).contains((p.0, p.1))) by {
                                            assert(pts@[j as int].0 == p.0 && pts@[j as int].1 == p.1);
                                        }
                                        assert(bright_set(l, border).contains((p.0, p.1)));
                                        assert(p.1 * w + p.0 < n) by (nonlinear_arith)
                                            requires 0 <= p.0 < w, 0 <= p.1 < l.2, n == w * l.2;
                                    }
                                    let k = (p.1 as usize) * w + (p.0 as usize);
                                    let ghost before = marked_set(l, taken@);
                                    let ghost old_taken = taken@;
                                    proof {
                                        assert(k as int == p.1 * l.1 + p.0);
                                    }
                                    taken.set(k, true);
                                    proof {
                                        assert(pts@.take(j + 1) =~= pts@.take(j as int).push(pts@[j as int]));
                                        lemma_point_coords_push(pts@.take(j as int), pts@[j as int]);
                                        assert forall|q: (isize, isize)| marked_set(l, taken@).contains(q) <==> before.insert((p.0, p.1)).contains(q) by {
                                            if 0 <= q.0 < l.1 && 0 <= q.1 < l.2 {
                                                assert(q.1 * l.1 + q.0 < n) by (nonlinear_arith)
                                                    requires 0 <= q.0 < l.1, 0 <= q.1 < l.2, n == l.1 * l.2;
                                                if q == (p.0, p.1) {
                                                    assert(taken@[q.1 * l.1 + q.0]);
                                                } else {
                                                    if q.1 * l.1 + q.0 == k as int {
                                                        lemma_index_unique(l.1 as int, q, (p.0, p.1));
                                                    }
                                                    assert(taken@[q.1 * l.1 + q.0] == old_taken[q.1 * l.1 + q.0]);
                                                }
                                            }
                                        }
                                        assert(marked_set(l, taken@) =~= before.insert((p.0, p.1)));
                                    }
                                    j = j + 1;
                                }
                                proof {
                                    assert(pts@.take(pts@.len() as int) =~= pts@);
                                }
                                count = count + pts.len();
                                let b = brightness_of(&pts, bg);
                                proof {
                                    let bright = exists|p: (isize, isize)| #[trigger] reg.contains(p) && level_at(l, p) > bg;
                                    if b > 0 {
                                        let k = choose|k: int| 0 <= k < pts@.len() && #[trigger] pts@[k].2 > bg;
                                        let p = (pts@[k].0, pts@[k].1);
                                        assert(point_coords(pts@).contains(p));
                                        assert(reg.contains(p) && level_at(l, p) > bg);
                                    } else {
                                        assert forall|p: (isize, isize)| #[trigger] reg.contains(p) implies level_at(l, p) <= bg by {
                                            let k = choose|k: int| 0 <= k < pts@.len() && #[trigger] pts@[k].0 == p.0 && pts@[k].1 == p.1;
                                            assert(pts@[k].2 == level_at(l, p));
                                        }
                                    }
                                    assert(bright == (b > 0));
                                }
                                if b > 0 {
                                    let bounds = point_bounds(&pts);
                                    let star = StarPixels {
                                        x,
                                        y,
                                        background: bg,
                                        max_value: max_v,
                                        brightness: b,
                                        points: pts,
                                        min_x: bounds.0,
                                        max_x: bounds.1,
                                        min_y: bounds.2,
                                        max_y: bounds.3,
                                    };
                                    let ghost before = star_models(out@);
                                    let ghost sm = star_model(star);
                                    out.push(star);
                                    proof {
                                        assert(star_models(out@) =~= before.push(sm));
                                    }
                                }
                            }
                        },
                    }
                },
            }
        }
        i = i + 1;
    }
    proof {
        assert(search(image@, centres@, threshold, ignore_3px_stars, small, centres@.len() as int).3 == star_models(out@));
    }
    out
}

/// Star `i` comes before star `j`: it is brighter, or as bright and listed earlier.
pub open spec fn brighter_first(b: Seq<u32>, i: int, j: int) -> bool {
    b[i] > b[j] || (b[i] == b[j] && i < j)
}

/// How many of the first `k` flags are set.
pub open spec fn count_set(s: Seq<bool>, k: int) -> int
    decreases k,
{
    if k <= 0 {
        0
    } else {
        count_set(s, k - 1) + if s[k - 1] { 1int } else { 0 }
    }
}

proof fn lemma_count_set_update(s: Seq<bool>, i: int, k: int)
    requires
        0 <= i < s.len(),
        0 <= k <= s.len(),
        !s[i],
    ensures
        count_set(s.update(i, true), k) == count_set(s, k) + if i < k { 1int } else { 0 },
    decreases k,
{
    if k > 0 {
        lemma_count_set_update(s, i, k - 1);
    }
}

proof fn lemma_count_set_all(s: Seq<bool>, k: int)
    requires
        0 <= k <= s.len(),
        forall|j: int| 0 <= j < k ==> s[j],
    ensures
        count_set(s, k) == k,
    decreases k,
{
    if k > 0 {
        lemma_count_set_all(s, k - 1);
    }
}

/// The order in which stars of brightness `brightness` are kept: brightest first, stars
/// as bright in the order listed, at most `MAX_STARS_CNT` of them; the others come after
/// all of those kept.
pub fn brightest_order(brightness: &[u32]) -> (r: Vec<usize>)
    ensures
        r@.len() == if brightness@.len() < MAX_STARS_CNT { brightness@.len() } else { MAX_STARS_CNT as nat },
        forall|k: int| 0 <= k < r@.len() ==> #[trigger] r@[k] < brightness@.len(),
        forall|k: int, m: int| 0 <= k < m < r@.len() ==> brighter_first(brightness@, #[trigger] r@[k] as int, #[trigger] r@[m] as int),
        forall|i: int, k: int| 0 <= i < brightness@.len() && !r@.contains(i as usize) && 0 <= k < r@.len() ==>
            #[trigger] brighter_first(brightness@, r@[k] as int, i),
{
    let n = brightness.len();
    let cap = if n < MAX_STARS_CNT { n } else { MAX_STARS_CNT };
    let ghost b = brightness@;
    let mut used: Vec<bool> = Vec::new();
    used.resize(n, false);
    let mut r: Vec<usize> = Vec::new();
    proof {
        assert(used@ =~= Seq::new(n as nat, |j: int| false));
        assert forall|k: int| 0 <= k <= n implies count_set(used@, k) == 0 by {
            lemma_count_zero(used@, k);
        }
    }
    while r.len() < cap
        invariant
            b == brightness@,
            n == b.len(),
            cap <= n,
            cap == (if n < MAX_STARS_CNT { n } else { MAX_STARS_CNT }),
            r@.len() <= cap,
            used@.len() == n,
            count_set(used@, n as int) == r@.len(),
            forall|k: int| 0 <= k < r@.len() ==> #[trigger] r@[k] < n && used@[r@[k] as int],
            forall|i: int| 0 <= i < n && #[trigger] used@[i] ==> r@.contains(i as usize),
            forall|k: int, m: int| 0 <= k < m < r@.len() ==> brighter_first(b, #[trigger] r@[k] as int, #[trigger] r@[m] as int),
            forall|i: int| 0 <= i < n && !#[trigger] used@[i] ==>
                forall|k: int| 0 <= k < r@.len() ==> brighter_first(b, #[trigger] r@[k] as int, i),
        decreases cap - r@.len(),
    {
        let mut best: usize = n;
        let mut i: usize = 0;
        while i < n
            invariant
                b == brightness@,
                n == b.len(),
                used@.len() == n,
                i <= n,
                best == n || (best < i && !used@[best as int]),
                forall|j: int| 0 <= j < i && !#[trigger] used@[j] ==> best != n && (j == best || brighter_first(b, best as int, j)),
            decreases n - i,
        {
            if !used[i] && (best == n || brightness[i] > brightness[best] || (brightness[i] == brightness[best] && i < best)) {
                best = i;
            }
            i = i + 1;
        }
        if best == n {
            proof {
                lemma_count_set_all(used@, n as int);
            }
        }
        proof {
            lemma_count_set_update(used@, best as int, n as int);
        }
        let ghost old_used = used@;
        let ghost old_r = r@;
        used.set(best, true);
        r.push(best);
        proof {
            assert forall|i: int| 0 <= i < n && #[trigger] used@[i] implies r@.contains(i as usize) by {
                if i == best {
                    assert(r@[old_r.len() as int] == best);
                } else {
                    assert(old_used[i]);
                    let k = choose|k: int| 0 <= k < old_r.len() && old_r[k] == i as usize;
                    assert(r@[k] == i as usize);
                }
            }
        }
    }
    proof {
        assert forall|i: int, k: int| 0 <= i < n && !r@.contains(i as usize) && 0 <= k < r@.len() implies
            #[trigger] brighter_first(b, r@[k] as int, i) by {
            if used@[i] {
                assert(r@.contains(i as usize));
            }
        }
    }
    r
}

proof fn lemma_count_zero(s: Seq<bool>, k: int)
    requires
        0 <= k <= s.len(),
        forall|j: int| 0 <= j < s.len() ==> !s[j],
    ensures
        count_set(s, k) == 0,
    decreases k,
{
    if k > 0 {
        lemma_count_zero(s, k - 1);
    }
}

} // verus!
