use vstd::prelude::*;

use crate::image::image::ImageLayer;
use crate::image::histogram::{freq_from_slice, level_freq, nth_level, HistogramChan};
use crate::image::utils::{connected, neighborhood, lemma_connected_mono, neighbors_asked, adjacent, reach, FillPtSetResult, FillTarget, FloodFiller};

verus! {

/// Level of the first point at `(x, y)`.
pub open spec fn point_value(pts: Seq<(isize, isize, u16)>, x: int, y: int) -> Option<u16>
    decreases pts.len(),
{
    if pts.len() == 0 {
        None
    } else if pts[0].0 == x && pts[0].1 == y {
        Some(pts[0].2)
    } else {
        point_value(pts.skip(1), x, y)
    }
}

/// Levels of the points of row `y` from column `from` to column `to`, left to right.
pub open spec fn row_values(pts: Seq<(isize, isize, u16)>, y: int, from: int, to: int) -> Seq<u16>
    decreases to - from + 1,
{
    if to < from {
        Seq::empty()
    } else {
        let rest = row_values(pts, y, from, to - 1);
        match point_value(pts, to, y) {
            Some(v) => rest.push(v),
            None => rest,
        }
    }
}

/// Levels of the points of column `x` from row `from` to row `to`, top to bottom.
pub open spec fn col_values(pts: Seq<(isize, isize, u16)>, x: int, from: int, to: int) -> Seq<u16>
    decreases to - from + 1,
{
    if to < from {
        Seq::empty()
    } else {
        let rest = col_values(pts, x, from, to - 1);
        match point_value(pts, x, to) {
            Some(v) => rest.push(v),
            None => rest,
        }
    }
}

/// The largest level, 0 for none.
pub open spec fn seq_max(s: Seq<u16>) -> u16
    decreases s.len(),
{
    if s.len() == 0 {
        0
    } else {
        let m = seq_max(s.drop_last());
        if s.last() > m {
            s.last()
        } else {
            m
        }
    }
}

/// How many levels are above `t`.
pub open spec fn count_above(s: Seq<u16>, t: int) -> int
    decreases s.len(),
{
    if s.len() == 0 {
        0
    } else {
        count_above(s.drop_last(), t) + if s.last() > t {
            1int
        } else {
            0
        }
    }
}

/// Levels of a line through a star are on a plateau: at least four of them, and more
/// than a quarter above the top tenth of the range from the background to the maximum.
pub open spec fn is_plateau(values: Seq<u16>, bg: u16) -> bool {
    let max = seq_max(values) as int;
    let plateau_border = max - (max - bg) / 10;
    values.len() >= 4 && count_above(values, plateau_border) > values.len() / 4
}

/// The plateau test is defined: the maximum of four or more levels is not under the
/// background.
pub open spec fn plateau_defined(values: Seq<u16>, bg: u16) -> bool {
    values.len() < 4 || seq_max(values) >= bg
}

/// Finds stars in an image.
pub struct StarsFinder {
    overexp_buffer: Vec<u16>,
}

impl StarsFinder {
    pub fn new() -> (r: Self)
        ensures
            r.buffer() == Seq::<u16>::empty(),
    {
        Self { overexp_buffer: Vec::new() }
    }

    /// Levels kept between calls to save allocations.
    pub closed spec fn buffer(&self) -> Seq<u16> {
        self.overexp_buffer@
    }

    fn is_overexposured_values(values: &Vec<u16>, bg: u16) -> (r: bool)
        requires
            plateau_defined(values@, bg),
        ensures
            r == is_plateau(values@, bg),
    {
        let points_count = values.len();
        if points_count < 4 {
            return false;
        }
        let mut max: u16 = 0;
        let mut i: usize = 0;
        while i < points_count
            invariant
                points_count == values@.len(),
                i <= points_count,
                max == seq_max(values@.take(i as int)),
            decreases points_count - i,
        {
            proof {
                assert(values@.take(i + 1).drop_last() =~= values@.take(i as int));
            }
            if values[i] > max {
                max = values[i];
            }
            i = i + 1;
        }
        proof {
            assert(values@.take(points_count as int) =~= values@);
        }
        let range = max - bg;
        let plateau_border = max - range / 10;
        let mut cnt: usize = 0;
        let mut i: usize = 0;
        while i < points_count
            invariant
                points_count == values@.len(),
                i <= points_count,
                cnt == count_above(values@.take(i as int), plateau_border as int),
                cnt <= i,
            decreases points_count - i,
        {
            proof {
                assert(values@.take(i + 1).drop_last() =~= values@.take(i as int));
            }
            if values[i] > plateau_border {
                cnt = cnt + 1;
            }
            i = i + 1;
        }
        proof {
            assert(values@.take(points_count as int) =~= values@);
        }
        cnt > points_count / 4
    }

    fn find_value(star_points: &[(isize, isize, u16)], x: isize, y: isize) -> (r: Option<u16>)
        ensures
            r == point_value(star_points@, x as int, y as int),
    {
        let n = star_points.len();
        let mut i: usize = 0;
        proof {
            assert(star_points@.skip(0) =~= star_points@);
        }
        while i < n
            invariant
                n == star_points@.len(),
                i <= n,
                point_value(star_points@, x as int, y as int) == point_value(
                    star_points@.skip(i as int),
                    x as int,
                    y as int,
                ),
            decreases n - i,
        {
            let (px, py, v) = star_points[i];
            proof {
                assert(star_points@.skip(i as int)[0] == star_points@[i as int]);
                assert(star_points@.skip(i as int).skip(1) =~= star_points@.skip(i + 1));
            }
            if px == x && py == y {
                return Some(v);
            }
            i = i + 1;
        }
        None
    }

    /// Collects in the buffer the levels of the points of row `y` (or column `x`, when
    /// `vertical`) between `from` and `to`.
    fn collect_line(
        &mut self,
        star_points: &[(isize, isize, u16)],
        vertical: bool,
        fixed: isize,
        from: isize,
        to: isize,
    )
        ensures
            !vertical ==> final(self).overexp_buffer@ == row_values(
                star_points@,
                fixed as int,
                from as int,
                to as int,
            ),
            vertical ==> final(self).overexp_buffer@ == col_values(
                star_points@,
                fixed as int,
                from as int,
                to as int,
            ),
    {
        self.overexp_buffer.clear();
        if to < from {
            return;
        }
        let mut c = from;
        loop
            invariant_except_break
                !vertical ==> self.overexp_buffer@ == row_values(
                    star_points@,
                    fixed as int,
                    from as int,
                    c - 1,
                ),
                vertical ==> self.overexp_buffer@ == col_values(
                    star_points@,
                    fixed as int,
                    from as int,
                    c - 1,
                ),
            invariant
                from <= c <= to,
            ensures
                !vertical ==> self.overexp_buffer@ == row_values(
                    star_points@,
                    fixed as int,
                    from as int,
                    to as int,
                ),
                vertical ==> self.overexp_buffer@ == col_values(
                    star_points@,
                    fixed as int,
                    from as int,
                    to as int,
                ),
            decreases to - c,
        {
            let found = if vertical {
                Self::find_value(star_points, fixed, c)
            } else {
                Self::find_value(star_points, c, fixed)
            };
            match found {
                Some(v) => self.overexp_buffer.push(v),
                None => {},
            }
            if c == to {
                break;
            }
            c = c + 1;
        }
    }

    /// A star is overexposed: the levels of its points on the row through its center, and
    /// then those on the column through it, both form a plateau (see `is_plateau`).
    pub fn check_is_star_overexposured(
        &mut self,
        star_points: &[(isize, isize, u16)],
        center_x: isize,
        center_y: isize,
        min_x: isize,
        min_y: isize,
        max_x: isize,
        max_y: isize,
        bg: u16,
    ) -> (r: bool)
        requires
            plateau_defined(row_values(star_points@, center_y as int, min_x as int, max_x as int), bg),
            is_plateau(row_values(star_points@, center_y as int, min_x as int, max_x as int), bg)
                ==> plateau_defined(
                col_values(star_points@, center_x as int, min_y as int, max_y as int),
                bg,
            ),
        ensures
            r == (is_plateau(row_values(star_points@, center_y as int, min_x as int, max_x as int), bg)
                && is_plateau(
                col_values(star_points@, center_x as int, min_y as int, max_y as int),
                bg,
            )),
    {
        self.collect_line(star_points, false, center_y, min_x, max_x);
        if !Self::is_overexposured_values(&self.overexp_buffer, bg) {
            return false;
        }
        self.collect_line(star_points, true, center_x, min_y, max_y);
        Self::is_overexposured_values(&self.overexp_buffer, bg)
    }
}

proof fn lemma_index_unique(w: int, x1: int, y1: int, x2: int, y2: int)
    requires
        0 <= x1 < w,
        0 <= x2 < w,
        0 <= y1,
        0 <= y2,
        y1 * w + x1 == y2 * w + x2,
    ensures
        x1 == x2 && y1 == y2,
{
    assert(x1 == x2 && y1 == y2) by (nonlinear_arith)
        requires 0 <= x1 < w, 0 <= x2 < w, 0 <= y1, 0 <= y2, y1 * w + x1 == y2 * w + x2;
}

/// Largest extent of a star, in pixels.
pub const MAX_STAR_DIAM: usize = 32;

/// Most points a star may have.
pub const MAX_STARS_POINTS_CNT: usize = 1024;

/// Level of a pixel of a layer.
pub open spec fn level_at(l: (Seq<u16>, usize, usize), p: (isize, isize)) -> u16 {
    l.0[p.1 * l.1 + p.0]
}

/// Pixels of the layer at `border` or above.
pub open spec fn bright_set(l: (Seq<u16>, usize, usize), border: u16) -> Set<(isize, isize)> {
    Set::new(|p: (isize, isize)| 0 <= p.0 < l.1 && 0 <= p.1 < l.2 && level_at(l, p) >= border)
}

/// The 8-connected region of pixels at `border` or above that holds `s`; empty where `s`
/// is not such a pixel.
pub open spec fn star_region(l: (Seq<u16>, usize, usize), border: u16, s: (isize, isize)) -> Set<(isize, isize)> {
    if bright_set(l, border).contains(s) {
        Set::new(|q: (isize, isize)| connected(bright_set(l, border), s, q))
    } else {
        Set::empty()
    }
}

/// The positions of points with levels.
pub open spec fn point_coords(pts: Seq<(isize, isize, u16)>) -> Set<(isize, isize)> {
    Set::new(|p: (isize, isize)| exists|i: int| 0 <= i < pts.len() && #[trigger] pts[i].0 == p.0 && pts[i].1 == p.1)
}

pub(crate) proof fn lemma_point_coords_push(pts: Seq<(isize, isize, u16)>, t: (isize, isize, u16))
    ensures
        point_coords(pts.push(t)) == point_coords(pts).insert((t.0, t.1)),
{
    let a = point_coords(pts.push(t));
    let b = point_coords(pts).insert((t.0, t.1));
    assert forall|p: (isize, isize)| a.contains(p) implies b.contains(p) by {
        let i = choose|i: int| 0 <= i < pts.push(t).len() && #[trigger] pts.push(t)[i].0 == p.0 && pts.push(t)[i].1 == p.1;
        if i < pts.len() {
            assert(pts[i].0 == p.0 && pts[i].1 == p.1);
        }
    }
    assert forall|p: (isize, isize)| b.contains(p) implies a.contains(p) by {
        if p == (t.0, t.1) {
            assert(pts.push(t)[pts.len() as int].0 == p.0);
        } else {
            let i = choose|i: int| 0 <= i < pts.len() && #[trigger] pts[i].0 == p.0 && pts[i].1 == p.1;
            assert(pts.push(t)[i].0 == p.0);
        }
    }
    assert(a =~= b);
}

/// `w` holds `MAX_STARS_POINTS_CNT + 2` distinct pixels of `s`: too many for a star.
pub open spec fn too_many_in(s: Set<(isize, isize)>, w: Seq<(isize, isize)>) -> bool {
    &&& w.len() == MAX_STARS_POINTS_CNT + 2
    &&& w.no_duplicates()
    &&& forall|i: int| 0 <= i < w.len() ==> s.contains(#[trigger] w[i])
}

/// Two pixels further apart than `MAX_STAR_DIAM` along a row or a column.
pub open spec fn too_far(a: (isize, isize), b: (isize, isize)) -> bool {
    a.0 - b.0 > MAX_STAR_DIAM || a.1 - b.1 > MAX_STAR_DIAM
}

/// The points of one star, grown by a flood fill from its brightest pixel: a pixel is
/// taken when its level reaches the border level; the fill fails on a pixel of another
/// star, on too many points, or on a star wider or higher than `MAX_STAR_DIAM`.
pub struct StarPoints<'a> {
    image: &'a ImageLayer<u16>,
    taken: &'a Vec<bool>,
    border: u16,
    marked: Vec<bool>,
    points: Vec<(isize, isize, u16)>,
    min_x: isize,
    max_x: isize,
    min_y: isize,
    max_y: isize,
    asked: Ghost<Set<(isize, isize)>>,
    log: Ghost<Seq<((isize, isize), FillPtSetResult)>>,
    errors: Ghost<nat>,
    start: Ghost<(isize, isize)>,
    err_pt: Ghost<(isize, isize)>,
    err_wit: Ghost<Seq<(isize, isize)>>,
    err_pair: Ghost<((isize, isize), (isize, isize))>,
    wx: Ghost<((isize, isize), (isize, isize))>,
    wy: Ghost<((isize, isize), (isize, isize))>,
}

impl<'a> StarPoints<'a> {
    /// The layer holds the pixel.
    pub open spec fn inside(l: (Seq<u16>, usize, usize), p: (isize, isize)) -> bool {
        0 <= p.0 < l.1 && 0 <= p.1 < l.2
    }

    /// Points taken, in the order they were, with their levels.
    pub closed spec fn taken_points(&self) -> Seq<(isize, isize, u16)> {
        self.points@
    }

    /// Smallest and largest column, smallest and largest row reached.
    pub closed spec fn extent(&self) -> (isize, isize, isize, isize) {
        (self.min_x, self.max_x, self.min_y, self.max_y)
    }

    pub fn points(&self) -> (r: &Vec<(isize, isize, u16)>)
        ensures
            r@ == self.taken_points(),
    {
        &self.points
    }

    /// The points taken, handed out.
    pub fn take_points(self) -> (r: Vec<(isize, isize, u16)>)
        ensures
            r@ == self.taken_points(),
    {
        self.points
    }

    /// Smallest and largest column, smallest and largest row reached.
    pub fn bounds(&self) -> (r: (isize, isize, isize, isize))
        ensures
            r == self.extent(),
    {
        (self.min_x, self.max_x, self.min_y, self.max_y)
    }

    /// Every pixel filled and the start lie within the smallest and largest column and
    /// row reached, each of those is reached by one of them, and the star is not wider or
    /// higher than `MAX_STAR_DIAM`.
    pub closed spec fn box_ok(&self) -> bool {
        &&& forall|p: (isize, isize)| #[trigger] self.filled().contains(p) ==> self.min_x <= p.0 <= self.max_x && self.min_y <= p.1 <= self.max_y
        &&& self.min_x <= self.start@.0 <= self.max_x && self.min_y <= self.start@.1 <= self.max_y
        &&& self.filled().insert(self.start@).contains(self.wx@.0) && self.wx@.0.0 == self.min_x
        &&& self.filled().insert(self.start@).contains(self.wx@.1) && self.wx@.1.0 == self.max_x
        &&& self.filled().insert(self.start@).contains(self.wy@.0) && self.wy@.0.1 == self.min_y
        &&& self.filled().insert(self.start@).contains(self.wy@.1) && self.wy@.1.1 == self.max_y
        &&& self.max_x - self.min_x <= MAX_STAR_DIAM && self.max_y - self.min_y <= MAX_STAR_DIAM
    }

    pub closed spec fn wf(&self) -> bool {
        &&& self.image.wf()
        &&& self.marked@.len() == self.image@.0.len()
        &&& self.taken@.len() == self.image@.0.len()
        &&& self.image@.1 < isize::MAX
        &&& self.image@.2 < isize::MAX
        &&& self.border > 0
        &&& self.points@.len() <= MAX_STARS_POINTS_CNT + 1
        &&& forall|p: (isize, isize)| #[trigger] self.filled().contains(p) ==> bright_set(self.image@, self.border).contains(p)
        &&& self.errors@ == 0 ==> forall|q: (isize, isize)|
            #[trigger] self.asked@.contains(q) && bright_set(self.image@, self.border).contains(q) ==> self.filled().contains(q)
        &&& point_coords(self.points@) == self.filled()
        &&& forall|p: (isize, isize)| #[trigger] self.filled().contains(p) ==> !self.taken@[p.1 * self.image@.1 + p.0]
        &&& forall|i: int| 0 <= i < self.points@.len() ==> #[trigger] self.points@[i].2 == level_at(self.image@, (self.points@[i].0, self.points@[i].1))
        &&& forall|i: int, j: int| 0 <= i < j < self.points@.len() ==> (#[trigger] self.points@[i].0, self.points@[i].1) != (#[trigger] self.points@[j].0, self.points@[j].1)
        &&& self.errors@ == 0 ==> self.box_ok()
        &&& self.errors@ > 0 ==> {
            let q = self.err_pt@;
            let f = self.filled().insert(q);
            &&& self.asked@.contains(q)
            &&& bright_set(self.image@, self.border).contains(q)
            &&& (self.taken@[q.1 * self.image@.1 + q.0]
                || too_many_in(f, self.err_wit@)
                || (self.filled().insert(self.start@).insert(q).contains(self.err_pair@.0)
                    && self.filled().insert(self.start@).insert(q).contains(self.err_pair@.1)
                    && too_far(self.err_pair@.0, self.err_pair@.1)))
        }
    }

    /// A star grown from `(x, y)` over pixels of at least `border`, not over the pixels
    /// that `taken` marks.
    pub fn new(image: &'a ImageLayer<u16>, taken: &'a Vec<bool>, border: u16, x: isize, y: isize) -> (r: Self)
        requires
            image.wf(),
            taken@.len() == image@.0.len(),
            image@.1 < isize::MAX,
            image@.2 < isize::MAX,
            border > 0,
        ensures
            r.ready(),
            r.errors() == 0,
            r.fixed() == (image, taken, border, Ghost((x, y))),
            r.asked() == Set::<(isize, isize)>::empty(),
            r.taken_points() == Seq::<(isize, isize, u16)>::empty(),
            r.filled() == Set::<(isize, isize)>::empty(),
            r.extent() == (x, x, y, y),
    {
        let n = image.as_slice().len();
        let mut marked: Vec<bool> = Vec::new();
        marked.resize(n, false);
        proof {
            assert(marked@ =~= Seq::new(n as nat, |i: int| false));
        }
        let r = StarPoints {
            image,
            taken,
            border,
            marked,
            points: Vec::new(),
            min_x: x,
            max_x: x,
            min_y: y,
            max_y: y,
            asked: Ghost(Set::empty()),
            log: Ghost(Seq::empty()),
            errors: Ghost(0),
            start: Ghost((x, y)),
            err_pt: Ghost((x, y)),
            err_wit: Ghost(Seq::empty()),
            err_pair: Ghost(((x, y), (x, y))),
            wx: Ghost(((x, y), (x, y))),
            wy: Ghost(((x, y), (x, y))),
        };
        proof {
            assert forall|p: (isize, isize)| !#[trigger] r.filled().contains(p) by {
                if Self::inside(image@, p) {
                    assert(p.1 * image@.1 + p.0 < image@.1 * image@.2) by (nonlinear_arith)
                        requires 0 <= p.0 < image@.1, 0 <= p.1 < image@.2;
                }
            }
            assert(r.filled() =~= Set::<(isize, isize)>::empty());
            assert(point_coords(r.points@) =~= Set::<(isize, isize)>::empty());
            assert(r.filled().insert((x, y)).contains((x, y)));
        }
        r
    }
}

impl<'a> FillTarget for StarPoints<'a> {
    type Fixed = (&'a ImageLayer<u16>, &'a Vec<bool>, u16, Ghost<(isize, isize)>);

    closed spec fn fixed(&self) -> (&'a ImageLayer<u16>, &'a Vec<bool>, u16, Ghost<(isize, isize)>) {
        (self.image, self.taken, self.border, self.start)
    }

    closed spec fn filled(&self) -> Set<(isize, isize)> {
        Set::new(
            |p: (isize, isize)|
                Self::inside(self.image@, p) && self.marked@[p.1 * self.image@.1 + p.0],
        )
    }

    closed spec fn asked(&self) -> Set<(isize, isize)> {
        self.asked@
    }

    closed spec fn log(&self) -> Seq<((isize, isize), FillPtSetResult)> {
        self.log@
    }

    closed spec fn errors(&self) -> nat {
        self.errors@
    }

    closed spec fn capacity(&self) -> nat {
        (MAX_STARS_POINTS_CNT + 1 - self.points@.len()) as nat
    }

    closed spec fn ready(&self) -> bool {
        self.wf()
    }

    fn try_set_filled(&mut self, x: isize, y: isize) -> (r: FillPtSetResult) {
        proof {
            self.asked@ = self.asked@.insert((x, y));
        }
        let got = self.image.get(x, y);
        let v = match got {
            Some(v) => v,
            None => 0,
        };
        if v < self.border {
            proof { self.log@ = self.log@.push(((x, y), FillPtSetResult::Miss)); }
            return FillPtSetResult::Miss;
        }
        let w = self.image.width();
        let n = self.image.as_slice().len();
        proof {
            assert(got is Some);
            assert((y as int) * (w as int) + (x as int) < (w as int) * (self.image@.2 as int)) by (nonlinear_arith)
                requires 0 <= x < w, 0 <= y < self.image@.2;
        }
        let idx = (y as usize) * w + (x as usize);
        proof {
            assert(idx < self.image@.0.len()) by (nonlinear_arith)
                requires idx == y * w + x, 0 <= x < w, 0 <= y, y < self.image@.2,
                    self.image@.0.len() == w * self.image@.2;
        }
        if self.marked[idx] {
            proof { self.log@ = self.log@.push(((x, y), FillPtSetResult::Miss)); }
            return FillPtSetResult::Miss;
        }
        if self.taken[idx] || self.points.len() > MAX_STARS_POINTS_CNT {
            proof {
                if self.errors@ == 0 {
                    let pts = self.points@;
                    let wit = Seq::new((MAX_STARS_POINTS_CNT + 1) as nat, |i: int| (pts[i].0, pts[i].1)).push((x, y));
                    self.err_pt@ = (x, y);
                    self.err_wit@ = wit;
                    assert(bright_set(self.image@, self.border).contains((x, y)));
                    assert(!self.filled().contains((x, y)));
                    if !self.taken@[idx as int] {
                        assert forall|i: int| 0 <= i < wit.len() implies self.filled().insert((x, y)).contains(#[trigger] wit[i]) by {
                            if i < MAX_STARS_POINTS_CNT + 1 {
                                assert(point_coords(pts).contains((pts[i].0, pts[i].1)));
                            }
                        }
                        assert forall|i: int, j: int| 0 <= i < wit.len() && 0 <= j < wit.len() && i != j implies wit[i] != wit[j] by {
                            if i < MAX_STARS_POINTS_CNT + 1 && j < MAX_STARS_POINTS_CNT + 1 {
                                if i < j {
                                    assert((pts[i].0, pts[i].1) != (pts[j].0, pts[j].1));
                                } else {
                                    assert((pts[j].0, pts[j].1) != (pts[i].0, pts[i].1));
                                }
                            } else if i < MAX_STARS_POINTS_CNT + 1 {
                                assert(point_coords(pts).contains(wit[i]));
                            } else {
                                assert(point_coords(pts).contains(wit[j]));
                            }
                        }
                        assert(too_many_in(self.filled().insert((x, y)), wit));
                    }
                }
                self.errors@ = self.errors@ + 1;
            }
            proof { self.log@ = self.log@.push(((x, y), FillPtSetResult::Error)); }
            return FillPtSetResult::Error;
        }
        let ghost old_box = (self.min_x, self.max_x, self.min_y, self.max_y);
        let ghost old_wx = self.wx@;
        let ghost old_wy = self.wy@;
        if x < self.min_x {
            self.min_x = x;
        }
        if x > self.max_x {
            self.max_x = x;
        }
        if y < self.min_y {
            self.min_y = y;
        }
        if y > self.max_y {
            self.max_y = y;
        }
        if self.max_x as i128 - self.min_x as i128 > MAX_STAR_DIAM as i128 || self.max_y as i128
            - self.min_y as i128 > MAX_STAR_DIAM as i128 {
            proof {
                if self.errors@ == 0 {
                    self.err_pt@ = (x, y);
                    let a = if x > old_box.1 { (x, y) } else { old_wx.1 };
                    let b = if x < old_box.0 { (x, y) } else { old_wx.0 };
                    let c = if y > old_box.3 { (x, y) } else { old_wy.1 };
                    let d = if y < old_box.2 { (x, y) } else { old_wy.0 };
                    if self.max_x as int - self.min_x as int > MAX_STAR_DIAM {
                        self.err_pair@ = (a, b);
                    } else {
                        self.err_pair@ = (c, d);
                    }
                    assert(bright_set(self.image@, self.border).contains((x, y)));
                }
                self.errors@ = self.errors@ + 1;
            }
            proof { self.log@ = self.log@.push(((x, y), FillPtSetResult::Error)); }
            return FillPtSetResult::Error;
        }
        let ghost old_filled = self.filled();
        let ghost old_marked = self.marked@;
        self.marked.set(idx, true);
        self.points.push((x, y, v));
        proof {
            let wi = self.image@.1 as int;
            assert forall|p: (isize, isize)| #[trigger] self.filled().contains(p) == old_filled.insert((x, y)).contains(p) by {
                if Self::inside(self.image@, p) && p != (x, y) {
                    let k = p.1 * wi + p.0;
                    if k == idx as int {
                        lemma_index_unique(wi, p.0 as int, p.1 as int, x as int, y as int);
                        assert(false);
                    }
                    assert(k < wi * self.image@.2) by (nonlinear_arith)
                        requires k == p.1 * wi + p.0, 0 <= p.0 < wi, 0 <= p.1 < self.image@.2;
                    assert(self.marked@ == old_marked.update(idx as int, true));
                    assert(self.marked@[k] == old_marked[k]);
                }
            }
            assert(self.filled() =~= old_filled.insert((x, y)));
            lemma_point_coords_push(old(self).points@, (x, y, v));
            assert(level_at(self.image@, (x, y)) == v);
            assert(bright_set(self.image@, self.border).contains((x, y)));
            assert(!old_filled.contains((x, y)));
            let pts = self.points@;
            assert forall|i: int, j: int| 0 <= i < j < pts.len() implies (#[trigger] pts[i].0, pts[i].1) != (#[trigger] pts[j].0, pts[j].1) by {
                if j == pts.len() - 1 {
                    assert(pts[i] == old(self).points@[i]);
                    assert(point_coords(old(self).points@).contains((pts[i].0, pts[i].1)));
                } else {
                    assert(pts[i] == old(self).points@[i] && pts[j] == old(self).points@[j]);
                }
            }
            if self.errors@ == 0 {
                if x < old_box.0 {
                    self.wx@ = ((x, y), self.wx@.1);
                }
                if x > old_box.1 {
                    self.wx@ = (self.wx@.0, (x, y));
                }
                if y < old_box.2 {
                    self.wy@ = ((x, y), self.wy@.1);
                }
                if y > old_box.3 {
                    self.wy@ = (self.wy@.0, (x, y));
                }
            } else {
                let q = self.err_pt@;
                assert forall|i: int| 0 <= i < self.err_wit@.len() && old_filled.insert(q).contains(#[trigger] self.err_wit@[i]) implies self.filled().insert(q).contains(self.err_wit@[i]) by {}
            }
        }
        proof { self.log@ = self.log@.push(((x, y), FillPtSetResult::Hit)); }
        FillPtSetResult::Hit
    }
}


/// Every pixel of the region of `s` is filled, when `s` is, every filled pixel had its
/// neighbours asked, and every asked pixel at `border` or above was filled.
proof fn lemma_region_filled(
    l: (Seq<u16>, usize, usize),
    border: u16,
    s: (isize, isize),
    asked: Set<(isize, isize)>,
    f: Set<(isize, isize)>,
    n: nat,
)
    requires
        f.contains(s),
        forall|r: (isize, isize)| #[trigger] f.contains(r) ==> neighbors_asked(asked, r),
        forall|r: (isize, isize)| #[trigger] f.contains(r) ==> isize::MIN < r.0 < isize::MAX && isize::MIN < r.1 < isize::MAX,
        forall|q: (isize, isize)| #[trigger] asked.contains(q) && bright_set(l, border).contains(q) ==> f.contains(q),
    ensures
        reach(bright_set(l, border), s, n).subset_of(f),
    decreases n,
{
    if n > 0 {
        lemma_region_filled(l, border, s, asked, f, (n - 1) as nat);
        let b = bright_set(l, border);
        let r0 = reach(b, s, (n - 1) as nat);
        assert forall|q: (isize, isize)| reach(b, s, n).contains(q) implies f.contains(q) by {
            if !r0.contains(q) {
                let r = choose|r: (isize, isize)| r0.contains(r) && #[trigger] adjacent(r, q);
                assert(f.contains(r));
                let dx = q.0 - r.0;
                let dy = q.1 - r.1;
                assert(((r.0 + dx) as isize, (r.1 + dy) as isize) == q);
                assert(asked.contains(((r.0 + dx) as isize, (r.1 + dy) as isize)));
            }
        }
    }
}

/// The pixels of the layer that `taken` marks, a flag per pixel row after row.
pub open spec fn marked_set(l: (Seq<u16>, usize, usize), taken: Seq<bool>) -> Set<(isize, isize)> {
    Set::new(|p: (isize, isize)| 0 <= p.0 < l.1 && 0 <= p.1 < l.2 && taken[p.1 * l.1 + p.0])
}

/// The region of `s` cannot be a star: it holds a pixel of `taken`, more than
/// `MAX_STARS_POINTS_CNT + 1` pixels, or two pixels further apart than `MAX_STAR_DIAM`
/// along a row or a column.
pub open spec fn star_refused(l: (Seq<u16>, usize, usize), border: u16, taken: Set<(isize, isize)>, s: (isize, isize)) -> bool {
    let reg = star_region(l, border, s);
    ||| exists|p: (isize, isize)| #[trigger] reg.contains(p) && taken.contains(p)
    ||| exists|w: Seq<(isize, isize)>| #[trigger] too_many_in(reg, w)
    ||| exists|a: (isize, isize), b: (isize, isize)| #[trigger] reg.contains(a) && #[trigger] reg.contains(b) && too_far(a, b)
}

/// No `MAX_STARS_POINTS_CNT + 2` distinct pixels lie among at most
/// `MAX_STARS_POINTS_CNT + 1` points.
proof fn lemma_not_too_many(pts: Seq<(isize, isize, u16)>, w: Seq<(isize, isize)>)
    requires
        pts.len() <= MAX_STARS_POINTS_CNT + 1,
    ensures
        !too_many_in(point_coords(pts), w),
{
    broadcast use vstd::seq_lib::seq_to_set_is_finite;
    if too_many_in(point_coords(pts), w) {
        let cs = Seq::new(pts.len(), |i: int| (pts[i].0, pts[i].1));
        assert forall|p: (isize, isize)| w.to_set().contains(p) implies cs.to_set().contains(p) by {
            let k = choose|k: int| 0 <= k < w.len() && w[k] == p;
            assert(point_coords(pts).contains(w[k]));
            let j = choose|j: int| 0 <= j < pts.len() && #[trigger] pts[j].0 == p.0 && pts[j].1 == p.1;
            assert(cs[j] == p);
        }
        vstd::set_lib::lemma_len_subset(w.to_set(), cs.to_set());
        cs.lemma_cardinality_of_set();
        w.unique_seq_to_set();
    }
}

/// The points of the star grown from `(x, y)` over pixels at `border` or above, none of
/// them marked in `taken` (see `StarPoints`): an error exactly when the region of `(x, y)`
/// cannot be a star (see `star_refused`), with the number of points the fill had taken
/// when it stopped; otherwise exactly the pixels of the 8-connected region of `(x, y)`
/// (see `star_region`), each once and with its level.
pub fn star_points(image: &ImageLayer<u16>, taken: &Vec<bool>, border: u16, x: isize, y: isize) -> (r: Result<Vec<(isize, isize, u16)>, usize>)
    requires
        image.wf(),
        taken@.len() == image@.0.len(),
        image@.1 < isize::MAX,
        image@.2 < isize::MAX,
        border > 0,
    ensures
        r is Err <==> star_refused(image@, border, marked_set(image@, taken@), (x, y)),
        r matches Ok(pts) ==> point_coords(pts@) == star_region(image@, border, (x, y)),
        r is Ok ==> star_region(image@, border, (x, y)).subset_of(bright_set(image@, border)),
        r matches Ok(pts) ==> forall|i: int| 0 <= i < pts@.len() ==> #[trigger] pts@[i].2 == level_at(image@, (pts@[i].0, pts@[i].1)),
        r matches Ok(pts) ==> forall|p: (isize, isize)| #[trigger] star_region(image@, border, (x, y)).contains(p) ==> !taken@[p.1 * image@.1 + p.0],
        r matches Ok(pts) ==> pts@.len() <= MAX_STARS_POINTS_CNT + 1,
        r matches Ok(pts) ==> forall|i: int| 0 <= i < pts@.len() ==> #[trigger] pts@[i].2 >= border,
        r matches Ok(pts) ==> forall|i: int, j: int| 0 <= i < j < pts@.len() ==> (#[trigger] pts@[i].0, pts@[i].1) != (#[trigger] pts@[j].0, pts@[j].1),
{
    let mut star = StarPoints::new(image, taken, border, x, y);
    let mut filler = FloodFiller::new();
    let ghost f0 = star.filled();
    let ok = filler.fill(x, y, &mut star);
    proof {
        assert(star.ready());
        assert(star.wf());
    }
    let ghost f = star.filled();
    let ghost b = bright_set(image@, border);
    let ghost reg = star_region(image@, border, (x, y));
    proof {
        assert(f.difference(f0) =~= f);
        assert(f0 =~= Set::<(isize, isize)>::empty());
    }
    if !ok {
        proof {
            assert(star.errors() > 0);
            let q = star.err_pt@;
            assert(star.asked().contains(q));
            assert(b.contains(q));
            assert(star.asked().subset_of(Set::<(isize, isize)>::empty().insert((x, y)).union(crate::image::utils::neighborhood(f))));
            // the start is bright and in the region
            if q != (x, y) {
                let w = choose|w: (isize, isize)| f.contains(w) && #[trigger] adjacent(w, q);
                assert(f.contains(w));
                assert(f.contains((x, y)));
            }
            assert(b.contains((x, y)));
            assert(reach(b, (x, y), 0).contains((x, y)));
            assert(reg.contains((x, y)));
            assert forall|p: (isize, isize)| f.contains(p) implies reg.contains(p) by {
                assert(connected(f.difference(f0), (x, y), p));
                lemma_connected_mono(f, b, (x, y), p);
            }
            if q != (x, y) {
                let w = choose|w: (isize, isize)| f.contains(w) && #[trigger] adjacent(w, q);
                assert(reg.contains(w));
                crate::image::utils::lemma_connected_step(b, (x, y), w, q);
            }
            assert(reg.contains(q));
            let g = f.insert((x, y)).insert(q);
            assert(g.subset_of(reg));
            if taken@[q.1 * image@.1 + q.0] {
                assert(reg.contains(q) && marked_set(image@, taken@).contains(q));
            } else if too_many_in(f.insert(q), star.err_wit@) {
                let wit = star.err_wit@;
                assert forall|i: int| 0 <= i < wit.len() implies reg.contains(#[trigger] wit[i]) by {
                    assert(f.insert(q).contains(wit[i]));
                }
                assert(too_many_in(reg, wit));
            } else {
                let (a, c) = star.err_pair@;
                assert(g.contains(a) && g.contains(c));
                assert(reg.contains(a) && reg.contains(c) && too_far(a, c));
            }
        }
        return Err(star.points().len());
    }
    proof {
        assert(star.errors() == 0);
        assert forall|p: (isize, isize)| f.contains(p) implies reg.contains(p) by {
            assert(connected(f.difference(f0), (x, y), p));
            lemma_connected_mono(f, b, (x, y), p);
            assert(f.contains((x, y)));
        }
        if b.contains((x, y)) {
            assert(star.asked().contains((x, y)));
            assert(f.contains((x, y)));
            assert forall|r: (isize, isize)| #[trigger] f.contains(r) implies isize::MIN < r.0 < isize::MAX && isize::MIN < r.1 < isize::MAX by {
                assert(b.contains(r));
            }
            assert forall|q: (isize, isize)| reg.contains(q) implies f.contains(q) by {
                let n = choose|n: nat| #[trigger] reach(b, (x, y), n).contains(q);
                lemma_region_filled(image@, border, (x, y), star.asked(), f, n);
            }
        }
        assert(f =~= reg);
        assert forall|i: int| 0 <= i < star.points@.len() implies #[trigger] star.points@[i].2 >= border by {
            let p = (star.points@[i].0, star.points@[i].1);
            assert(point_coords(star.points@).contains(p));
            assert(b.contains(p));
        }
        assert(star.box_ok());
        if exists|w: Seq<(isize, isize)>| #[trigger] too_many_in(reg, w) {
            let w = choose|w: Seq<(isize, isize)>| #[trigger] too_many_in(reg, w);
            lemma_not_too_many(star.points@, w);
        }
        assert forall|a: (isize, isize), c: (isize, isize)| #[trigger] reg.contains(a) && #[trigger] reg.contains(c) implies !too_far(a, c) by {
            assert(f.contains(a) && f.contains(c));
        }
    }
    Ok(star.take_points())
}

/// First and last column (or row) within `MAX_STAR_DIAM` of `c`, cut to `0..n`.
pub open spec fn around(c: int, n: int) -> (int, int) {
    (if c - 32 < 0 { 0 } else { c - 32 }, if c + 32 >= n { n - 1 } else { c + 32 })
}

/// Levels of rows `y1 .. y` of the columns `x1 ..= x2`, row after row.
pub open spec fn rect_rows(l: (Seq<u16>, usize, usize), x1: int, x2: int, y1: int, y: int) -> Seq<u16>
    decreases y - y1,
{
    if y <= y1 {
        Seq::empty()
    } else {
        rect_rows(l, x1, x2, y1, y - 1) + l.0.subrange((y - 1) * l.1 + x1, (y - 1) * l.1 + x2 + 1)
    }
}

/// Levels of the square within `MAX_STAR_DIAM` of `(x, y)`, cut to the layer.
pub open spec fn rect_values(l: (Seq<u16>, usize, usize), x: int, y: int) -> Seq<u16> {
    let xs = around(x, l.1 as int);
    let ys = around(y, l.2 as int);
    rect_rows(l, xs.0, xs.1, ys.0, ys.1 + 1)
}

/// The background of a star at `(x, y)`: the level at a quarter of the square's levels
/// in sorted order (see `nth_level`).
pub open spec fn star_background_of(l: (Seq<u16>, usize, usize), x: int, y: int) -> int {
    let v = rect_values(l, x, y);
    nth_level(level_freq(v), (v.len() / 4) as int, 0)
}

/// The level a pixel of a star must reach: halfway from the background to the star's
/// peak, rounded up; none where the peak is not above the background by `threshold` or
/// the level comes out 0.
pub open spec fn star_border_of(max_v: u16, bg: u16, threshold: u16) -> Option<u16> {
    if max_v < bg || max_v - bg < threshold {
        None
    } else {
        let b = bg + (max_v - bg + 1) / 2;
        if b <= 0 {
            None
        } else {
            Some(b as u16)
        }
    }
}

/// The background level around a possible star center (see `star_background_of`).
pub fn star_background(image: &ImageLayer<u16>, x: isize, y: isize) -> (r: u16)
    requires
        image.wf(),
        0 <= x < image@.1,
        0 <= y < image@.2,
        image@.1 < isize::MAX - 64,
        image@.2 < isize::MAX - 64,
    ensures
        r == star_background_of(image@, x as int, y as int),
{
    let w = image.width();
    let h = image.height();
    let x1: usize = if x - 32 < 0 { 0 } else { (x - 32) as usize };
    let x2: usize = if x + 32 >= w as isize { w - 1 } else { (x + 32) as usize };
    let y1: usize = if y - 32 < 0 { 0 } else { (y - 32) as usize };
    let y2: usize = if y + 32 >= h as isize { h - 1 } else { (y + 32) as usize };
    let data = image.as_slice();
    let n = data.len();
    let mut vals: Vec<u16> = Vec::new();
    let mut yy: usize = y1;
    proof {
        assert(around(x as int, w as int) == (x1 as int, x2 as int));
        assert(around(y as int, h as int) == (y1 as int, y2 as int));
    }
    while yy <= y2
        invariant
            data@ == image@.0,
            image.wf(),
            w == image@.1,
            h == image@.2,
            x1 <= x2 < w,
            y1 <= yy <= y2 + 1,
            y2 < h,
            n == w * h,
            x2 - x1 <= 64,
            y2 - y1 <= 64,
            yy - y1 <= 65,
            vals@.len() <= (yy - y1) * 65,
            vals@ == rect_rows(image@, x1 as int, x2 as int, y1 as int, yy as int),
        decreases y2 + 1 - yy,
    {
        let ghost before = vals@;
        proof {
            assert(yy * w + x2 < w * h) by (nonlinear_arith)
                requires yy < h, x2 < w;
            assert(image@.0.len() == w * h);
        }
        let base = yy * w;
        let mut xx: usize = x1;
        while xx <= x2
            invariant
                data@ == image@.0,
                image@.0.len() == w * h,
                base == yy * w,
                yy * w + x2 < w * h,
                w * h <= usize::MAX,
                x1 <= xx <= x2 + 1,
                x2 < w,
                vals@ == before + image@.0.subrange(base + x1, base + xx),
            decreases x2 + 1 - xx,
        {
            vals.push(data[base + xx]);
            xx = xx + 1;
            proof {
                assert(vals@ =~= before + image@.0.subrange(base + x1, base + xx));
            }
        }
        proof {
            assert(vals@.len() <= (yy + 1 - y1) * 65) by (nonlinear_arith)
                requires vals@.len() == before.len() + (x2 + 1 - x1), before.len() <= (yy - y1) * 65, x2 - x1 <= 64;
        }
        yy = yy + 1;
    }
    proof {
        assert(vals@.len() <= 65 * 65) by (nonlinear_arith)
            requires vals@.len() <= (yy - y1) * 65, yy - y1 <= 65;
    }
    let freq = freq_from_slice(vals.as_slice(), 1);
    let chan = HistogramChan { count: 0, freq };
    chan.get_nth_element(vals.len() / 4)
}

/// The level a pixel of a star must reach (see `star_border_of`).
pub fn star_border(max_v: u16, bg: u16, threshold: u16) -> (r: Option<u16>)
    requires
        !(max_v == u16::MAX && bg == 0),
    ensures
        r == star_border_of(max_v, bg, threshold),
{
    if max_v < bg || max_v - bg < threshold {
        return None;
    }
    let b = bg + (max_v - bg + 1) / 2;
    if b == 0 {
        None
    } else {
        Some(b)
    }
}

} // verus!
