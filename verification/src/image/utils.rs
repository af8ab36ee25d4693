use std::collections::VecDeque;

use vstd::prelude::*;

verus! {

/// What marking a point filled gave: it was marked, it is not to be filled, or the
/// filling has to stop.
#[derive(Debug, Copy, Clone, PartialEq, Eq, Structural)]
pub enum FillPtSetResult {
    Hit,
    Miss,
    Error,
}

/// A region that a flood fill grows: it is asked point by point to mark itself filled.
pub trait FillTarget {
    /// What the answers are drawn from, which asking leaves as it is.
    type Fixed;

    /// The part of the target that asking leaves as it is.
    spec fn fixed(&self) -> Self::Fixed;

    /// Points answered `Hit`.
    spec fn filled(&self) -> Set<(isize, isize)>;

    /// Points asked.
    spec fn asked(&self) -> Set<(isize, isize)>;

    /// Points asked, in order, each with its answer.
    spec fn log(&self) -> Seq<((isize, isize), FillPtSetResult)>;

    /// How many answers were `Error`.
    spec fn errors(&self) -> nat;

    /// How many more points can be answered `Hit`.
    spec fn capacity(&self) -> nat;

    /// The target is in a state to be asked.
    spec fn ready(&self) -> bool;

    /// Asks to mark `(x, y)` filled. A point answered `Hit` is new, lies off the ends of
    /// the coordinate range, and uses up capacity.
    fn try_set_filled(&mut self, x: isize, y: isize) -> (r: FillPtSetResult)
        requires
            old(self).ready(),
        ensures
            final(self).ready(),
            final(self).fixed() == old(self).fixed(),
            final(self).asked() == old(self).asked().insert((x, y)),
            final(self).log() == old(self).log().push(((x, y), r)),
            final(self).errors() == old(self).errors() + (if r == FillPtSetResult::Error {
                1nat
            } else {
                0nat
            }),
            r == FillPtSetResult::Hit ==> {
                &&& !old(self).filled().contains((x, y))
                &&& final(self).filled() == old(self).filled().insert((x, y))
                &&& final(self).capacity() < old(self).capacity()
                &&& isize::MIN < x < isize::MAX
                &&& isize::MIN < y < isize::MAX
            },
            r != FillPtSetResult::Hit ==> final(self).filled() == old(self).filled()
                && final(self).capacity() <= old(self).capacity(),
    ;
}

/// The eight neighbors of a point were all asked.
pub open spec fn neighbors_asked(asked: Set<(isize, isize)>, p: (isize, isize)) -> bool {
    forall|dx: int, dy: int|
        -1 <= dx <= 1 && -1 <= dy <= 1 && !(dx == 0 && dy == 0) ==> #[trigger] asked.contains(
            ((p.0 + dx) as isize, (p.1 + dy) as isize),
        )
}

proof fn lemma_neighbors_asked(asked: Set<(isize, isize)>, p: (isize, isize))
    requires
        isize::MIN < p.0 < isize::MAX,
        isize::MIN < p.1 < isize::MAX,
        asked.contains(((p.0 - 1) as isize, (p.1 - 1) as isize)),
        asked.contains(((p.0 - 1) as isize, p.1)),
        asked.contains(((p.0 - 1) as isize, (p.1 + 1) as isize)),
        asked.contains((p.0, (p.1 - 1) as isize)),
        asked.contains((p.0, (p.1 + 1) as isize)),
        asked.contains(((p.0 + 1) as isize, (p.1 - 1) as isize)),
        asked.contains(((p.0 + 1) as isize, p.1)),
        asked.contains(((p.0 + 1) as isize, (p.1 + 1) as isize)),
    ensures
        neighbors_asked(asked, p),
{
    assert forall|dx: int, dy: int|
        -1 <= dx <= 1 && -1 <= dy <= 1 && !(dx == 0 && dy == 0) implies #[trigger] asked.contains(
        ((p.0 + dx) as isize, (p.1 + dy) as isize),
    ) by {
        if dx == -1 {
            if dy == -1 {
            } else if dy == 0 {
                assert(((p.0 + dx) as isize, (p.1 + dy) as isize) == ((p.0 - 1) as isize, p.1));
            } else {
            }
        } else if dx == 0 {
            if dy == -1 {
                assert(((p.0 + dx) as isize, (p.1 + dy) as isize) == (p.0, (p.1 - 1) as isize));
            } else {
                assert(((p.0 + dx) as isize, (p.1 + dy) as isize) == (p.0, (p.1 + 1) as isize));
            }
        } else {
            if dy == -1 {
            } else if dy == 0 {
                assert(((p.0 + dx) as isize, (p.1 + dy) as isize) == ((p.0 + 1) as isize, p.1));
            } else {
            }
        }
    }
}

proof fn lemma_neighbors_asked_grow(a0: Set<(isize, isize)>, a1: Set<(isize, isize)>, p: (isize, isize))
    requires
        a0.subset_of(a1),
        neighbors_asked(a0, p),
    ensures
        neighbors_asked(a1, p),
{
    assert forall|dx: int, dy: int|
        -1 <= dx <= 1 && -1 <= dy <= 1 && !(dx == 0 && dy == 0) implies #[trigger] a1.contains(
        ((p.0 + dx) as isize, (p.1 + dy) as isize),
    ) by {
        assert(a0.contains(((p.0 + dx) as isize, (p.1 + dy) as isize)));
    }
}

/// Every queued point was filled during this fill and lies off the ends of the range.
pub open spec fn queue_ok(q: Seq<(isize, isize)>, filled: Set<(isize, isize)>, start: Set<(isize, isize)>) -> bool {
    forall|i: int|
        0 <= i < q.len() ==> {
            let p = #[trigger] q[i];
            &&& filled.contains(p)
            &&& !start.contains(p)
            &&& isize::MIN < p.0 < isize::MAX
            &&& isize::MIN < p.1 < isize::MAX
        }
}

/// Every point filled during this fill is queued, is the point at hand, or has its
/// neighbors asked.
pub open spec fn region_ok(
    q: Seq<(isize, isize)>,
    filled: Set<(isize, isize)>,
    asked: Set<(isize, isize)>,
    start: Set<(isize, isize)>,
    cur: Option<(isize, isize)>,
) -> bool {
    forall|p: (isize, isize)|
        #[trigger] filled.contains(p) && !start.contains(p) ==> (q.contains(p) || neighbors_asked(
            asked,
            p,
        ) || cur == Some(p))
}

/// Two distinct points one step apart, diagonals included.
pub open spec fn adjacent(p: (isize, isize), q: (isize, isize)) -> bool {
    p != q && -1 <= q.0 - p.0 <= 1 && -1 <= q.1 - p.1 <= 1
}

/// The points adjacent to some point of a set.
pub open spec fn neighborhood(s: Set<(isize, isize)>) -> Set<(isize, isize)> {
    Set::new(|q: (isize, isize)| exists|p: (isize, isize)| s.contains(p) && #[trigger] adjacent(p, q))
}

/// The points reached from `s` in at most `n` steps between adjacent points of `f`.
pub open spec fn reach(f: Set<(isize, isize)>, s: (isize, isize), n: nat) -> Set<(isize, isize)>
    decreases n,
{
    if n == 0 {
        Set::empty().insert(s)
    } else {
        let r = reach(f, s, (n - 1) as nat);
        r.union(Set::new(|q: (isize, isize)| f.contains(q) && exists|p: (isize, isize)| r.contains(p) && #[trigger] adjacent(p, q)))
    }
}

/// `q` is reached from `s` through adjacent points of `f`.
pub open spec fn connected(f: Set<(isize, isize)>, s: (isize, isize), q: (isize, isize)) -> bool {
    exists|n: nat| #[trigger] reach(f, s, n).contains(q)
}

pub(crate) proof fn lemma_reach_mono(f1: Set<(isize, isize)>, f2: Set<(isize, isize)>, s: (isize, isize), n: nat)
    requires
        f1.subset_of(f2),
    ensures
        reach(f1, s, n).subset_of(reach(f2, s, n)),
    decreases n,
{
    if n > 0 {
        lemma_reach_mono(f1, f2, s, (n - 1) as nat);
        let r1 = reach(f1, s, (n - 1) as nat);
        let r2 = reach(f2, s, (n - 1) as nat);
        assert forall|q: (isize, isize)| reach(f1, s, n).contains(q) implies reach(f2, s, n).contains(q) by {
            if !r1.contains(q) {
                let p = choose|p: (isize, isize)| r1.contains(p) && #[trigger] adjacent(p, q);
                assert(r2.contains(p) && adjacent(p, q));
            }
        }
    }
}

pub(crate) proof fn lemma_connected_mono(f1: Set<(isize, isize)>, f2: Set<(isize, isize)>, s: (isize, isize), q: (isize, isize))
    requires
        f1.subset_of(f2),
        connected(f1, s, q),
    ensures
        connected(f2, s, q),
{
    let n = choose|n: nat| #[trigger] reach(f1, s, n).contains(q);
    lemma_reach_mono(f1, f2, s, n);
    assert(reach(f2, s, n).contains(q));
}

pub(crate) proof fn lemma_connected_step(f: Set<(isize, isize)>, s: (isize, isize), p: (isize, isize), q: (isize, isize))
    requires
        connected(f, s, p),
        f.contains(q),
        adjacent(p, q),
    ensures
        connected(f, s, q),
{
    let n = choose|n: nat| #[trigger] reach(f, s, n).contains(p);
    let r = reach(f, s, n);
    assert(reach(f, s, n + 1) == r.union(
        Set::new(|z: (isize, isize)| f.contains(z) && exists|w: (isize, isize)| r.contains(w) && #[trigger] adjacent(w, z)),
    ));
    assert(reach(f, s, n + 1).contains(q));
}

/// The points filled during this fill are those processed, the one at hand and those
/// queued; each is reached from the start through points filled during this fill.
pub open spec fn fill_ok(
    q: Seq<(isize, isize)>,
    filled: Set<(isize, isize)>,
    start_filled: Set<(isize, isize)>,
    processed: Set<(isize, isize)>,
    cur: (isize, isize),
    s: (isize, isize),
) -> bool {
    &&& forall|p: (isize, isize)|
        #[trigger] filled.contains(p) && !start_filled.contains(p) ==> (processed.contains(p) || p == cur
            || q.contains(p))
    &&& forall|p: (isize, isize)|
        #[trigger] processed.contains(p) ==> filled.contains(p) && !start_filled.contains(p)
    &&& filled.contains(cur) && !start_filled.contains(cur)
    &&& forall|p: (isize, isize)|
        #[trigger] filled.contains(p) && !start_filled.contains(p) ==> connected(
            filled.difference(start_filled),
            s,
            p,
        )
}

/// The eight neighbours of `c` added to `base` in the order the fill asks them give
/// `base` with all points adjacent to `c`.
proof fn lemma_neighborhood_insert(base: Set<(isize, isize)>, p: Set<(isize, isize)>, c: (isize, isize))
    requires
        isize::MIN < c.0 < isize::MAX,
        isize::MIN < c.1 < isize::MAX,
    ensures
        base.union(neighborhood(p)).insert(((c.0 - 1) as isize, (c.1 - 1) as isize)).insert(
            ((c.0 - 1) as isize, c.1),
        ).insert(((c.0 - 1) as isize, (c.1 + 1) as isize)).insert((c.0, (c.1 - 1) as isize)).insert(
            (c.0, (c.1 + 1) as isize),
        ).insert(((c.0 + 1) as isize, (c.1 - 1) as isize)).insert(((c.0 + 1) as isize, c.1)).insert(
            ((c.0 + 1) as isize, (c.1 + 1) as isize),
        ) == base.union(neighborhood(p.insert(c))),
{
    let lhs = base.union(neighborhood(p)).insert(((c.0 - 1) as isize, (c.1 - 1) as isize)).insert(
        ((c.0 - 1) as isize, c.1),
    ).insert(((c.0 - 1) as isize, (c.1 + 1) as isize)).insert((c.0, (c.1 - 1) as isize)).insert(
        (c.0, (c.1 + 1) as isize),
    ).insert(((c.0 + 1) as isize, (c.1 - 1) as isize)).insert(((c.0 + 1) as isize, c.1)).insert(
        ((c.0 + 1) as isize, (c.1 + 1) as isize),
    );
    let rhs = base.union(neighborhood(p.insert(c)));
    assert forall|q: (isize, isize)| lhs.contains(q) implies rhs.contains(q) by {
        if base.union(neighborhood(p)).contains(q) {
            if !base.contains(q) {
                let w = choose|w: (isize, isize)| p.contains(w) && #[trigger] adjacent(w, q);
                assert(p.insert(c).contains(w));
            }
        } else {
            assert(adjacent(c, q));
            assert(p.insert(c).contains(c));
        }
    }
    assert forall|q: (isize, isize)| rhs.contains(q) implies lhs.contains(q) by {
        if !base.contains(q) {
            let w = choose|w: (isize, isize)| p.insert(c).contains(w) && #[trigger] adjacent(w, q);
            if w != c {
                assert(p.contains(w));
                assert(neighborhood(p).contains(q));
            } else {
                assert(q.0 == c.0 - 1 || q.0 == c.0 || q.0 == c.0 + 1);
                assert(q.1 == c.1 - 1 || q.1 == c.1 || q.1 == c.1 + 1);
            }
        }
    }
    assert(lhs =~= rhs);
}

/// The points of a log of asks, in order.
pub open spec fn log_points(log: Seq<((isize, isize), FillPtSetResult)>) -> Seq<(isize, isize)> {
    Seq::new(log.len(), |i: int| log[i].0)
}

/// The points answered `Hit` in a log of asks, in order.
pub open spec fn hit_points(log: Seq<((isize, isize), FillPtSetResult)>) -> Seq<(isize, isize)>
    decreases log.len(),
{
    if log.len() == 0 {
        Seq::empty()
    } else {
        let h = hit_points(log.drop_last());
        if log.last().1 == FillPtSetResult::Hit {
            h.push(log.last().0)
        } else {
            h
        }
    }
}

/// No ask of the log was answered `Error`.
pub open spec fn no_error(log: Seq<((isize, isize), FillPtSetResult)>) -> bool {
    forall|i: int| 0 <= i < log.len() ==> #[trigger] log[i].1 != FillPtSetResult::Error
}

/// The eight neighbours of a point in the order the fill asks them: column by column
/// from the left, in each from the top.
pub open spec fn neighbours8(p: (isize, isize)) -> Seq<(isize, isize)> {
    seq![
        ((p.0 - 1) as isize, (p.1 - 1) as isize),
        ((p.0 - 1) as isize, p.1),
        ((p.0 - 1) as isize, (p.1 + 1) as isize),
        (p.0, (p.1 - 1) as isize),
        (p.0, (p.1 + 1) as isize),
        ((p.0 + 1) as isize, (p.1 - 1) as isize),
        ((p.0 + 1) as isize, p.1),
        ((p.0 + 1) as isize, (p.1 + 1) as isize),
    ]
}

/// The neighbours of the first `k` points, the eight of each in turn.
pub open spec fn rounds(h: Seq<(isize, isize)>, k: int) -> Seq<(isize, isize)>
    decreases k,
{
    if k <= 0 {
        Seq::empty()
    } else {
        rounds(h, k - 1) + neighbours8(h[k - 1])
    }
}

/// The asks of one fill from `s`, in order, breadth first: `s` first, and nothing more
/// unless it is answered `Hit`; then, for the points answered `Hit` in the order they
/// were, a round of each one's eight neighbours (see `neighbours8`). The fill ends when
/// every point answered `Hit` had its round, or with the first round in which an ask was
/// answered `Error`. `ok` tells whether no ask was.
pub open spec fn fill_order(log: Seq<((isize, isize), FillPtSetResult)>, s: (isize, isize), ok: bool) -> bool {
    &&& log.len() >= 1
    &&& log[0].0 == s
    &&& ok == no_error(log)
    &&& log[0].1 != FillPtSetResult::Hit ==> log.len() == 1
    &&& log[0].1 == FillPtSetResult::Hit ==> exists|m: int|
        #![trigger rounds(hit_points(log), m)]
        1 <= m <= hit_points(log).len()
        && log.len() == 1 + 8 * m
        && log_points(log).skip(1) == rounds(hit_points(log), m)
        && (ok ==> m == hit_points(log).len())
        && (!ok ==> no_error(log.take(1 + 8 * (m - 1))))
}

proof fn lemma_hit_points_push(log: Seq<((isize, isize), FillPtSetResult)>, e: ((isize, isize), FillPtSetResult))
    ensures
        hit_points(log.push(e)) == if e.1 == FillPtSetResult::Hit { hit_points(log).push(e.0) } else { hit_points(log) },
{
    assert(log.push(e).drop_last() =~= log);
}

proof fn lemma_hit_points_add(a: Seq<((isize, isize), FillPtSetResult)>, b: Seq<((isize, isize), FillPtSetResult)>)
    ensures
        hit_points(a + b) == hit_points(a) + hit_points(b),
    decreases b.len(),
{
    if b.len() == 0 {
        assert(a + b =~= a);
        assert(hit_points(a) + hit_points(b) =~= hit_points(a));
    } else {
        lemma_hit_points_add(a, b.drop_last());
        assert(a + b =~= (a + b.drop_last()).push(b.last()));
        lemma_hit_points_push(a + b.drop_last(), b.last());
        lemma_hit_points_push(b.drop_last(), b.last());
        assert(b.drop_last().push(b.last()) =~= b);
        if b.last().1 == FillPtSetResult::Hit {
            assert((hit_points(a) + hit_points(b.drop_last())).push(b.last().0) =~= hit_points(a) + hit_points(b.drop_last()).push(b.last().0));
        }
    }
}

proof fn lemma_rounds_prefix(h1: Seq<(isize, isize)>, h2: Seq<(isize, isize)>, k: int)
    requires
        0 <= k <= h1.len(),
        k <= h2.len(),
        forall|i: int| 0 <= i < k ==> h1[i] == h2[i],
    ensures
        rounds(h1, k) == rounds(h2, k),
    decreases k,
{
    if k > 0 {
        lemma_rounds_prefix(h1, h2, k - 1);
    }
}

/// One more ask of a round: the log, the queue and the round's asks move together.
proof fn lemma_round_step(
    log0: Seq<((isize, isize), FillPtSetResult)>,
    log1: Seq<((isize, isize), FillPtSetResult)>,
    base: Seq<((isize, isize), FillPtSetResult)>,
    round: Seq<((isize, isize), FillPtSetResult)>,
    vis0: Seq<(isize, isize)>,
    vis1: Seq<(isize, isize)>,
    q: Seq<(isize, isize)>,
    pt: (isize, isize),
)
    requires
        log0 == base + round,
        log1 == log0.push((pt, log1.last().1)),
        vis0 == q + hit_points(round),
        log1.last().1 == FillPtSetResult::Hit ==> vis1 == vis0.push(pt),
        log1.last().1 != FillPtSetResult::Hit ==> vis1 == vis0,
    ensures
        log1 == base + round.push((pt, log1.last().1)),
        vis1 == q + hit_points(round.push((pt, log1.last().1))),
        no_error(round.push((pt, log1.last().1))) == (no_error(round) && log1.last().1 != FillPtSetResult::Error),
        log_points(round.push((pt, log1.last().1))) == log_points(round).push(pt),
{
    let e = (pt, log1.last().1);
    assert(log1 =~= base + round.push(e));
    lemma_hit_points_push(round, e);
    if e.1 == FillPtSetResult::Hit {
        assert(vis1 =~= q + hit_points(round.push(e)));
    }
    assert(log_points(round.push(e)) =~= log_points(round).push(pt));
    if !no_error(round.push(e)) {
        let i = choose|i: int| 0 <= i < round.push(e).len() && #[trigger] round.push(e)[i].1 == FillPtSetResult::Error;
        if i < round.len() {
            assert(round[i].1 == FillPtSetResult::Error);
        }
    }
    if no_error(round.push(e)) {
        assert forall|i: int| 0 <= i < round.len() implies #[trigger] round[i].1 != FillPtSetResult::Error by {
            assert(round.push(e)[i] == round[i]);
        }
        assert(round.push(e)[round.len() as int] == e);
    }
}

/// After the round of the `k`-th point answered `Hit`, the log, the queue and the rounds
/// move on by one point.
proof fn lemma_round_done(
    nl: Seq<((isize, isize), FillPtSetResult)>,
    round: Seq<((isize, isize), FillPtSetResult)>,
    k: int,
    p0: (isize, isize),
    err: bool,
    vis: Seq<(isize, isize)>,
)
    requires
        nl.len() == 1 + 8 * k,
        0 <= k < hit_points(nl).len(),
        hit_points(nl)[k] == p0,
        log_points(nl).skip(1) == rounds(hit_points(nl), k),
        no_error(nl),
        log_points(round) == neighbours8(p0),
        vis == hit_points(nl).skip(k + 1) + hit_points(round),
        err == !no_error(round),
    ensures
        (nl + round).len() == 1 + 8 * (k + 1),
        k + 1 <= hit_points(nl + round).len(),
        log_points(nl + round).skip(1) == rounds(hit_points(nl + round), k + 1),
        vis == hit_points(nl + round).skip(k + 1),
        (nl + round).take(1 + 8 * k) == nl,
        (nl + round)[0] == nl[0],
        err == !no_error(nl + round),
{
    let nl2 = nl + round;
    let h = hit_points(nl);
    assert(log_points(round).len() == 8);
    lemma_hit_points_add(nl, round);
    let h2 = hit_points(nl2);
    assert(h2 == h + hit_points(round));
    lemma_rounds_prefix(h, h2, k);
    assert(h2[k] == p0);
    assert(rounds(h2, k + 1) == rounds(h2, k) + neighbours8(h2[k]));
    assert(log_points(nl2).skip(1) =~= log_points(nl).skip(1) + log_points(round));
    assert(vis =~= h2.skip(k + 1));
    assert(nl2.take(1 + 8 * k) =~= nl);
    if err {
        let i = choose|i: int| 0 <= i < round.len() && #[trigger] round[i].1 == FillPtSetResult::Error;
        assert(nl2[nl.len() + i] == round[i]);
    } else {
        assert forall|i: int| 0 <= i < nl2.len() implies #[trigger] nl2[i].1 != FillPtSetResult::Error by {
            if i >= nl.len() {
                assert(nl2[i] == round[i - nl.len()]);
            }
        }
    }
}

/// Fills the region around a point, breadth first, over the eight neighbors of each
/// point filled.
pub struct FloodFiller {
    visited: VecDeque<(isize, isize)>,
}

impl FloodFiller {
    /// Points filled whose neighbors are still to be asked.
    pub closed spec fn pending(&self) -> Seq<(isize, isize)> {
        self.visited@
    }

    pub fn new() -> (r: FloodFiller)
        ensures
            r.pending() == Seq::<(isize, isize)>::empty(),
    {
        FloodFiller { visited: VecDeque::new() }
    }

    fn check_neighbour<T: FillTarget>(
        &mut self,
        target: &mut T,
        x: isize,
        y: isize,
        error_flag: &mut bool,
        Ghost(start): Ghost<Set<(isize, isize)>>,
        Ghost(cur): Ghost<Option<(isize, isize)>>,
        Ghost(processed): Ghost<Set<(isize, isize)>>,
        Ghost(s): Ghost<(isize, isize)>,
        Ghost(base): Ghost<Set<(isize, isize)>>,
    )
        requires
            old(target).ready(),
            start.subset_of(old(target).filled()),
            queue_ok(old(self).visited@, old(target).filled(), start),
            region_ok(old(self).visited@, old(target).filled(), old(target).asked(), start, cur),
            cur matches Some(c) && adjacent(c, (x, y)) && fill_ok(old(self).visited@, old(target).filled(), start, processed, c, s),
            cur matches Some(c) && old(target).asked().subset_of(base.union(neighborhood(processed.insert(c)))),
        ensures
            cur matches Some(c) && final(target).asked().subset_of(base.union(neighborhood(processed.insert(c)))),
            final(target).fixed() == old(target).fixed(),
            cur matches Some(c) && fill_ok(final(self).visited@, final(target).filled(), start, processed, c, s),
            final(target).ready(),
            final(target).asked() == old(target).asked().insert((x, y)),
            final(target).log() == old(target).log().push(((x, y), final(target).log().last().1)),
            final(target).log().last().1 == FillPtSetResult::Hit ==> final(self).visited@ == old(self).visited@.push((x, y)),
            final(target).log().last().1 != FillPtSetResult::Hit ==> final(self).visited@ == old(self).visited@,
            *final(error_flag) == (*old(error_flag) || final(target).log().last().1 == FillPtSetResult::Error),
            old(target).filled().subset_of(final(target).filled()),
            *final(error_flag) == (*old(error_flag) || final(target).errors() != old(target).errors()),
            final(target).errors() == old(target).errors() || final(target).errors() == old(
                target,
            ).errors() + 1,
            final(target).capacity() <= old(target).capacity(),
            final(target).capacity() == old(target).capacity() ==> final(self).visited@ == old(
                self,
            ).visited@,
            queue_ok(final(self).visited@, final(target).filled(), start),
            region_ok(final(self).visited@, final(target).filled(), final(target).asked(), start, cur),
    {
        let ghost q0 = self.visited@;
        let ghost a0 = target.asked();
        let result = target.try_set_filled(x, y);
        if result == FillPtSetResult::Error {
            *error_flag = true;
        }
        if result == FillPtSetResult::Hit {
            self.visited.push_back((x, y));
        }
        proof {
            let c = cur->0;
            assert(processed.insert(c).contains(c));
            assert(neighborhood(processed.insert(c)).contains((x, y)));
            let f0 = old(target).filled();
            let f1 = target.filled();
            assert(f0.difference(start).subset_of(f1.difference(start)));
            assert forall|p: (isize, isize)|
                #[trigger] f1.contains(p) && !start.contains(p) implies connected(f1.difference(start), s, p) by {
                if f0.contains(p) {
                    lemma_connected_mono(f0.difference(start), f1.difference(start), s, p);
                } else {
                    assert(p == (x, y));
                    lemma_connected_mono(f0.difference(start), f1.difference(start), s, c);
                    lemma_connected_step(f1.difference(start), s, c, p);
                }
            }
            assert forall|p: (isize, isize)|
                #[trigger] f1.contains(p) && !start.contains(p) implies (processed.contains(p) || p == c
                    || self.visited@.contains(p)) by {
                if p == (x, y) && !f0.contains(p) {
                    assert(self.visited@[self.visited@.len() - 1] == p);
                } else if q0.contains(p) {
                    let k = choose|k: int| 0 <= k < q0.len() && q0[k] == p;
                    assert(self.visited@[k] == p);
                }
            }
        }
        proof {
            assert(a0.subset_of(target.asked()));
            assert forall|p: (isize, isize)|
                #[trigger] target.filled().contains(p) && !start.contains(p) implies (
                self.visited@.contains(p) || neighbors_asked(target.asked(), p) || cur == Some(p)) by {
                if p == (x, y) && result == FillPtSetResult::Hit {
                    assert(self.visited@[self.visited@.len() - 1] == p);
                } else {
                    if q0.contains(p) {
                        let k = choose|k: int| 0 <= k < q0.len() && q0[k] == p;
                        assert(self.visited@[k] == p);
                    } else if neighbors_asked(a0, p) {
                        lemma_neighbors_asked_grow(a0, target.asked(), p);
                    }
                }
            }
            assert forall|i: int| 0 <= i < self.visited@.len() implies {
                let p = #[trigger] self.visited@[i];
                &&& target.filled().contains(p)
                &&& !start.contains(p)
                &&& isize::MIN < p.0 < isize::MAX
                &&& isize::MIN < p.1 < isize::MAX
            } by {
                if i < q0.len() {
                    assert(self.visited@[i] == q0[i]);
                }
            }
        }
    }

    /// Fills the region that holds `(x, y)`: the point is asked first; `Miss` there
    /// fills nothing. Each point answered `Hit` has its eight neighbors asked in turn.
    /// The result is `false` as soon as a point is answered `Error`: at the start point,
    /// or once the neighbors of the point at hand are all asked. On success the points
    /// asked are exactly the start point and the neighbors of the points filled, and the
    /// points filled are reached from the start through points filled: with a target that
    /// answers `Hit` for the unfilled points of a set, that is the 8-connected region of
    /// the start in that set. The asks come in the order `fill_order` states: the start,
    /// then breadth first the eight neighbours of each point filled, in the order filled.
    #[verifier::rlimit(100)]
    #[verifier::spinoff_prover]
    pub fn fill<T: FillTarget>(&mut self, x: isize, y: isize, target: &mut T) -> (r: bool)
        requires
            old(target).ready(),
        ensures
            final(target).ready(),
            final(target).fixed() == old(target).fixed(),
            final(target).asked().contains((x, y)),
            old(target).asked().subset_of(final(target).asked()),
            old(target).filled().subset_of(final(target).filled()),
            r == (final(target).errors() == old(target).errors()),
            r ==> forall|p: (isize, isize)|
                #[trigger] final(target).filled().contains(p) && !old(target).filled().contains(p)
                    ==> neighbors_asked(final(target).asked(), p),
            final(target).filled() == old(target).filled() || (final(target).filled().contains((x, y))
                && !old(target).filled().contains((x, y))),
            r ==> final(target).asked() == old(target).asked().insert((x, y)).union(
                neighborhood(final(target).filled().difference(old(target).filled())),
            ),
            forall|p: (isize, isize)|
                #[trigger] final(target).filled().contains(p) && !old(target).filled().contains(p)
                    ==> connected(final(target).filled().difference(old(target).filled()), (x, y), p),
            final(target).asked().subset_of(
                old(target).asked().insert((x, y)).union(neighborhood(final(target).filled().difference(old(target).filled()))),
            ),
            final(target).log().take(old(target).log().len() as int) == old(target).log(),
            fill_order(final(target).log().skip(old(target).log().len() as int), (x, y), r),
    {
        let ghost start_filled = target.filled();
        let ghost start_asked = target.asked();
        let ghost start_fixed = target.fixed();
        let ghost start_errors = target.errors();
        let ghost l0 = target.log();
        let first = target.try_set_filled(x, y);
        proof {
            assert(target.log().take(l0.len() as int) =~= l0);
            assert(target.log().skip(l0.len() as int) =~= seq![((x, y), first)]);
        }
        if first == FillPtSetResult::Miss {
            return true;
        } else if first == FillPtSetResult::Error {
            proof {
                assert(target.log().skip(l0.len() as int)[0].1 == FillPtSetResult::Error);
            }
            return false;
        }
        self.visited.clear();
        self.visited.push_back((x, y));
        proof {
            assert(self.visited@[0] == (x, y));
            assert(start_asked.subset_of(target.asked()));
            assert(start_filled.subset_of(target.filled()));
        }
        let mut error_flag = false;
        let ghost mut processed: Set<(isize, isize)> = Set::empty();
        let ghost mut nl: Seq<((isize, isize), FillPtSetResult)> = seq![((x, y), FillPtSetResult::Hit)];
        let ghost mut k: int = 0;
        proof {
            assert(target.log() =~= l0 + nl);
            lemma_hit_points_push(Seq::empty(), ((x, y), FillPtSetResult::Hit));
            assert(Seq::<((isize, isize), FillPtSetResult)>::empty().push(((x, y), FillPtSetResult::Hit)) =~= nl);
            assert(hit_points(Seq::<((isize, isize), FillPtSetResult)>::empty()) =~= Seq::<(isize, isize)>::empty());
            assert(hit_points(nl) =~= seq![(x, y)]);
            assert(self.visited@ =~= hit_points(nl).skip(0));
            assert(log_points(nl).skip(1) =~= rounds(hit_points(nl), 0));
        }
        proof {
            let nf = target.filled().difference(start_filled);
            assert(nf =~= Set::empty().insert((x, y)));
            assert(reach(nf, (x, y), 0).contains((x, y)));
            assert(neighborhood(processed) =~= Set::<(isize, isize)>::empty());
            assert(target.asked() =~= start_asked.insert((x, y)).union(neighborhood(processed)));
        }
        loop
            invariant
                target.ready(),
                target.fixed() == start_fixed,
                start_fixed == old(target).fixed(),
                target.filled().contains((x, y)),
                !start_filled.contains((x, y)),
                target.asked() == start_asked.insert((x, y)).union(neighborhood(processed)),
                forall|p: (isize, isize)|
                    #[trigger] target.filled().contains(p) && !start_filled.contains(p) ==> (processed.contains(p)
                        || self.visited@.contains(p)),
                forall|p: (isize, isize)| #[trigger] processed.contains(p) ==> target.filled().contains(p) && !start_filled.contains(p),
                forall|p: (isize, isize)|
                    #[trigger] target.filled().contains(p) && !start_filled.contains(p) ==> connected(
                        target.filled().difference(start_filled),
                        (x, y),
                        p,
                    ),
                !error_flag,
                target.errors() == start_errors,
                target.asked().contains((x, y)),
                start_asked.subset_of(target.asked()),
                start_filled.subset_of(target.filled()),
                queue_ok(self.visited@, target.filled(), start_filled),
                region_ok(self.visited@, target.filled(), target.asked(), start_filled, None),
                start_asked == old(target).asked(),
                start_filled == old(target).filled(),
                start_errors == old(target).errors(),
                target.log() == l0 + nl,
                nl.len() == 1 + 8 * k,
                nl[0] == ((x, y), FillPtSetResult::Hit),
                0 <= k <= hit_points(nl).len(),
                hit_points(nl).len() >= 1,
                log_points(nl).skip(1) == rounds(hit_points(nl), k),
                self.visited@ == hit_points(nl).skip(k),
                no_error(nl),
                l0 == old(target).log(),
            ensures
                target.ready(),
                target.fixed() == start_fixed,
                target.filled().contains((x, y)),
                self.visited@.len() == 0,
                target.asked() == start_asked.insert((x, y)).union(neighborhood(processed)),
                forall|p: (isize, isize)|
                    #[trigger] target.filled().contains(p) && !start_filled.contains(p) ==> processed.contains(p),
                forall|p: (isize, isize)| #[trigger] processed.contains(p) ==> target.filled().contains(p) && !start_filled.contains(p),
                forall|p: (isize, isize)|
                    #[trigger] target.filled().contains(p) && !start_filled.contains(p) ==> connected(
                        target.filled().difference(start_filled),
                        (x, y),
                        p,
                    ),
                target.errors() == start_errors,
                start_asked.subset_of(target.asked()),
                start_filled.subset_of(target.filled()),
                target.asked().contains((x, y)),
                region_ok(self.visited@, target.filled(), target.asked(), start_filled, None),
                target.log() == l0 + nl,
                nl.len() == 1 + 8 * k,
                nl[0] == ((x, y), FillPtSetResult::Hit),
                1 <= k == hit_points(nl).len(),
                log_points(nl).skip(1) == rounds(hit_points(nl), k),
                no_error(nl),
            decreases target.capacity(), self.visited@.len(),
        {
            let ghost q0 = self.visited@;
            let ghost filled0 = target.filled();
            let ghost asked0 = target.asked();
            let next = self.visited.pop_front();
            match next {
                None => {
                    proof {
                        assert(q0.len() == 0);
                    }
                    break;
                },
                Some((pt_x, pt_y)) => {
                    let ghost p0 = (pt_x, pt_y);
                    let ghost cap0 = target.capacity();
                    let ghost h = hit_points(nl);
                    proof {
                        assert(q0[0] == p0);
                        assert(k < h.len());
                        assert(h[k] == p0) by {
                            assert(q0 == h.skip(k));
                            assert(q0[0] == h[k]);
                        }
                        assert(self.visited@ =~= q0.skip(1));
                        assert(queue_ok(self.visited@, target.filled(), start_filled)) by {
                            assert forall|i: int| 0 <= i < self.visited@.len() implies {
                                let p = #[trigger] self.visited@[i];
                                &&& target.filled().contains(p)
                                &&& !start_filled.contains(p)
                                &&& isize::MIN < p.0 < isize::MAX
                                &&& isize::MIN < p.1 < isize::MAX
                            } by {
                                assert(self.visited@[i] == q0[i + 1]);
                            }
                        }
                        assert(region_ok(self.visited@, target.filled(), target.asked(), start_filled, Some(p0))) by {
                            assert forall|p: (isize, isize)|
                                #[trigger] target.filled().contains(p) && !start_filled.contains(p) implies (
                                self.visited@.contains(p) || neighbors_asked(target.asked(), p) || Some(p0) == Some(p)) by {
                                if q0.contains(p) && p != p0 {
                                    let k = choose|k: int| 0 <= k < q0.len() && q0[k] == p;
                                    assert(k != 0);
                                    assert(self.visited@[k - 1] == p);
                                }
                            }
                        }
                    }
                    let ghost vis0 = self.visited@;
                    let ghost asked_before = target.asked();
                    proof {
                        assert forall|p: (isize, isize)|
                            #[trigger] target.filled().contains(p) && !start_filled.contains(p) implies (processed.contains(p)
                                || p == p0 || self.visited@.contains(p)) by {
                            if q0.contains(p) && p != p0 {
                                let k = choose|k: int| 0 <= k < q0.len() && q0[k] == p;
                                assert(k != 0);
                                assert(self.visited@[k - 1] == p);
                            }
                        }
                        assert(target.filled().contains(p0) && !start_filled.contains(p0));
                        assert forall|q: (isize, isize)| neighborhood(processed).contains(q) implies neighborhood(processed.insert(p0)).contains(q) by {
                            let w = choose|w: (isize, isize)| processed.contains(w) && #[trigger] adjacent(w, q);
                            assert(processed.insert(p0).contains(w));
                        }
                    }
                    let ghost mut round: Seq<((isize, isize), FillPtSetResult)> = Seq::empty();
                    proof {
                        assert(target.log() =~= (l0 + nl) + round);
                        assert(self.visited@ =~= h.skip(k + 1) + hit_points(round));
                    }
                    let ghost lb = target.log();
                    let ghost vb = self.visited@;
                    self.check_neighbour(target, pt_x - 1, pt_y - 1, &mut error_flag, Ghost(start_filled), Ghost(Some(p0)), Ghost(processed), Ghost((x, y)), Ghost(start_asked.insert((x, y))));
                    proof {
                        lemma_round_step(lb, target.log(), l0 + nl, round, vb, self.visited@, h.skip(k + 1), ((pt_x - 1) as isize, (pt_y - 1) as isize));
                        round = round.push((((pt_x - 1) as isize, (pt_y - 1) as isize), target.log().last().1));
                    }
                    let ghost lb = target.log();
                    let ghost vb = self.visited@;
                    self.check_neighbour(target, pt_x - 1, pt_y, &mut error_flag, Ghost(start_filled), Ghost(Some(p0)), Ghost(processed), Ghost((x, y)), Ghost(start_asked.insert((x, y))));
                    proof {
                        lemma_round_step(lb, target.log(), l0 + nl, round, vb, self.visited@, h.skip(k + 1), ((pt_x - 1) as isize, pt_y));
                        round = round.push((((pt_x - 1) as isize, pt_y), target.log().last().1));
                    }
                    let ghost lb = target.log();
                    let ghost vb = self.visited@;
                    self.check_neighbour(target, pt_x - 1, pt_y + 1, &mut error_flag, Ghost(start_filled), Ghost(Some(p0)), Ghost(processed), Ghost((x, y)), Ghost(start_asked.insert((x, y))));
                    proof {
                        lemma_round_step(lb, target.log(), l0 + nl, round, vb, self.visited@, h.skip(k + 1), ((pt_x - 1) as isize, (pt_y + 1) as isize));
                        round = round.push((((pt_x - 1) as isize, (pt_y + 1) as isize), target.log().last().1));
                    }
                    let ghost lb = target.log();
                    let ghost vb = self.visited@;
                    self.check_neighbour(target, pt_x, pt_y - 1, &mut error_flag, Ghost(start_filled), Ghost(Some(p0)), Ghost(processed), Ghost((x, y)), Ghost(start_asked.insert((x, y))));
                    proof {
                        lemma_round_step(lb, target.log(), l0 + nl, round, vb, self.visited@, h.skip(k + 1), (pt_x, (pt_y - 1) as isize));
                        round = round.push(((pt_x, (pt_y - 1) as isize), target.log().last().1));
                    }
                    let ghost lb = target.log();
                    let ghost vb = self.visited@;
                    self.check_neighbour(target, pt_x, pt_y + 1, &mut error_flag, Ghost(start_filled), Ghost(Some(p0)), Ghost(processed), Ghost((x, y)), Ghost(start_asked.insert((x, y))));
                    proof {
                        lemma_round_step(lb, target.log(), l0 + nl, round, vb, self.visited@, h.skip(k + 1), (pt_x, (pt_y + 1) as isize));
                        round = round.push(((pt_x, (pt_y + 1) as isize), target.log().last().1));
                    }
                    let ghost lb = target.log();
                    let ghost vb = self.visited@;
                    self.check_neighbour(target, pt_x + 1, pt_y - 1, &mut error_flag, Ghost(start_filled), Ghost(Some(p0)), Ghost(processed), Ghost((x, y)), Ghost(start_asked.insert((x, y))));
                    proof {
                        lemma_round_step(lb, target.log(), l0 + nl, round, vb, self.visited@, h.skip(k + 1), ((pt_x + 1) as isize, (pt_y - 1) as isize));
                        round = round.push((((pt_x + 1) as isize, (pt_y - 1) as isize), target.log().last().1));
                    }
                    let ghost lb = target.log();
                    let ghost vb = self.visited@;
                    self.check_neighbour(target, pt_x + 1, pt_y, &mut error_flag, Ghost(start_filled), Ghost(Some(p0)), Ghost(processed), Ghost((x, y)), Ghost(start_asked.insert((x, y))));
                    proof {
                        lemma_round_step(lb, target.log(), l0 + nl, round, vb, self.visited@, h.skip(k + 1), ((pt_x + 1) as isize, pt_y));
                        round = round.push((((pt_x + 1) as isize, pt_y), target.log().last().1));
                    }
                    let ghost lb = target.log();
                    let ghost vb = self.visited@;
                    self.check_neighbour(target, pt_x + 1, pt_y + 1, &mut error_flag, Ghost(start_filled), Ghost(Some(p0)), Ghost(processed), Ghost((x, y)), Ghost(start_asked.insert((x, y))));
                    proof {
                        lemma_round_step(lb, target.log(), l0 + nl, round, vb, self.visited@, h.skip(k + 1), ((pt_x + 1) as isize, (pt_y + 1) as isize));
                        round = round.push((((pt_x + 1) as isize, (pt_y + 1) as isize), target.log().last().1));
                    }
                    proof {
                        lemma_neighborhood_insert(start_asked.insert((x, y)), processed, p0);
                        processed = processed.insert(p0);
                    }
                    proof {
                        assert(start_asked.subset_of(target.asked()));
                        assert(start_filled.subset_of(target.filled()));
                    }
                    proof {
                        assert(log_points(round) =~= neighbours8(p0));
                        assert(target.log() =~= l0 + (nl + round));
                        lemma_round_done(nl, round, k, p0, error_flag, self.visited@);
                        nl = nl + round;
                        k = k + 1;
                        // names the round count that `fill_order` asks to exist
                        assert(rounds(hit_points(nl), k) == rounds(hit_points(nl), k));
                        assert(target.log().take(l0.len() as int) =~= l0);
                        assert(target.log().skip(l0.len() as int) =~= nl);
                    }
                    if error_flag {
                        proof {
                            let nf = target.filled().difference(start_filled);
                            assert forall|q: (isize, isize)| neighborhood(processed.insert(p0)).contains(q) implies neighborhood(nf).contains(q) by {
                                let w = choose|w: (isize, isize)| processed.insert(p0).contains(w) && #[trigger] adjacent(w, q);
                                assert(nf.contains(w));
                            }
                        }
                        return false;
                    }
                    proof {
                        lemma_neighbors_asked(target.asked(), p0);
                        assert(region_ok(self.visited@, target.filled(), target.asked(), start_filled, None));
                        if target.capacity() == cap0 {
                            assert(self.visited@ == vis0);
                        }
                    }
                },
            }
        }
        proof {
            assert forall|p: (isize, isize)|
                #[trigger] target.filled().contains(p) && !start_filled.contains(p) implies neighbors_asked(
                target.asked(),
                p,
            ) by {
                assert(!self.visited@.contains(p));
            }
            assert(target.log().take(l0.len() as int) =~= l0);
            assert(target.log().skip(l0.len() as int) =~= nl);
            // names the round count that `fill_order` asks to exist
            assert(rounds(hit_points(nl), k) == rounds(hit_points(nl), k));
        }
        true
    }
}

} // verus!
