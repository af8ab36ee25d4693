use vstd::prelude::*;

use crate::image::raw::{div_i64, div_toward_zero, CfaType, FrameType, RawImage};

verus! {

/// What the frames stacked so far share, as the first of them had it: size, largest
/// level, filter and kind.
#[derive(Debug, Copy, Clone, PartialEq, Eq, Structural)]
pub struct FrameShape {
    pub width: usize,
    pub height: usize,
    pub max_value: u16,
    pub cfa: CfaType,
    pub frame_type: FrameType,
}

/// The shape of a frame.
pub open spec fn shape_of(raw: &RawImage) -> FrameShape {
    FrameShape { width: raw@.1, height: raw@.2, max_value: raw.max_level(), cfa: raw.filter(), frame_type: raw.kind() }
}

/// Why a frame cannot be stacked, or no stack can be taken.
#[derive(Debug, Copy, Clone, PartialEq, Eq, Structural)]
pub enum StackError {
    /// Width and height of the stack, then of the frame.
    DifferentSizes(usize, usize, usize, usize),
    DifferentCfa,
    DifferentFrameType,
    Empty,
}

impl StackError {
    /// A message for the user.
    pub fn to_string(&self) -> (r: String)
        ensures
            r@ == match self {
                StackError::DifferentSizes(..) => "Size of images differ"@,
                StackError::DifferentCfa => "CFA of images differ"@,
                StackError::DifferentFrameType => "Frame type of images differ"@,
                StackError::Empty => "Raw added is empty"@,
            },
    {
        match self {
            StackError::DifferentSizes(..) => String::from_str("Size of images differ"),
            StackError::DifferentCfa => String::from_str("CFA of images differ"),
            StackError::DifferentFrameType => String::from_str("Frame type of images differ"),
            StackError::Empty => String::from_str("Raw added is empty"),
        }
    }
}

/// Why `raw` cannot join a stack of frames of shape `shape`, if it cannot: size first,
/// then filter, then kind.
pub open spec fn mismatch(shape: FrameShape, raw: &RawImage) -> Option<StackError> {
    if shape.width != raw@.1 || shape.height != raw@.2 {
        Some(StackError::DifferentSizes(shape.width, shape.height, raw@.1, raw@.2))
    } else if shape.cfa != raw.filter() {
        Some(StackError::DifferentCfa)
    } else if shape.frame_type != raw.kind() {
        Some(StackError::DifferentFrameType)
    } else {
        None
    }
}

fn check_shape(shape: &FrameShape, raw: &RawImage) -> (r: Option<StackError>)
    ensures
        r == mismatch(*shape, raw),
{
    if shape.width != raw.width() || shape.height != raw.height() {
        Some(StackError::DifferentSizes(shape.width, shape.height, raw.width(), raw.height()))
    } else if shape.cfa != raw.cfa() {
        Some(StackError::DifferentCfa)
    } else if shape.frame_type != raw.frame_type() {
        Some(StackError::DifferentFrameType)
    } else {
        None
    }
}

fn shape_from(raw: &RawImage) -> (r: FrameShape)
    ensures
        r == shape_of(raw),
{
    FrameShape {
        width: raw.width(),
        height: raw.height(),
        max_value: raw.max_value(),
        cfa: raw.cfa(),
        frame_type: raw.frame_type(),
    }
}

/// Sums of levels, pixel by pixel, with the levels `d` added.
pub open spec fn plus_levels(sums: Seq<u32>, d: Seq<u16>) -> Seq<u32> {
    Seq::new(d.len(), |i: int| (sums[i] + d[i]) as u32)
}

/// As many zero sums as `d` has levels.
pub open spec fn zero_sums(d: Seq<u16>) -> Seq<u32> {
    Seq::new(d.len(), |i: int| 0u32)
}

/// Rounded means of sums over `n` frames (cut to 16 bits).
pub open spec fn mean_levels(sums: Seq<u32>, n: int) -> Seq<u16> {
    Seq::new(sums.len(), |i: int| ((sums[i] + n / 2) / n) as u16)
}

/// The black level of a stack: the rounded mean of the black levels, rounded toward zero.
pub open spec fn mean_offset(zero_sum: int, n: int) -> int {
    div_toward_zero(zero_sum + n / 2, n)
}

/// Adds `d` to the sums, pixel by pixel.
fn add_levels(sums: &mut Vec<u32>, d: &[u16])
    requires
        old(sums)@.len() == d@.len(),
        forall|i: int| 0 <= i < d@.len() ==> old(sums)@[i] + d@[i] <= u32::MAX,
    ensures
        final(sums)@ == plus_levels(old(sums)@, d@),
{
    let n = d.len();
    let ghost base = sums@;
    let mut i: usize = 0;
    while i < n
        invariant
            n == d@.len(),
            base.len() == n,
            sums@.len() == n,
            forall|j: int| 0 <= j < n ==> base[j] + d@[j] <= u32::MAX,
            i <= n,
            forall|j: int| 0 <= j < i ==> #[trigger] sums@[j] == (base[j] + d@[j]) as u32,
            forall|j: int| i <= j < n ==> #[trigger] sums@[j] == base[j],
        decreases n - i,
    {
        let v = sums[i] + d[i] as u32;
        sums.set(i, v);
        i = i + 1;
    }
    proof {
        assert(sums@ =~= plus_levels(base, d@));
    }
}

/// Rounded means of the sums over `n` frames.
fn means_of(sums: &Vec<u32>, n: u32) -> (r: Vec<u16>)
    requires
        n >= 1,
        forall|i: int| 0 <= i < sums@.len() ==> sums@[i] + n / 2 <= u32::MAX,
    ensures
        r@ == mean_levels(sums@, n as int),
{
    let len = sums.len();
    let half = n / 2;
    let mut r: Vec<u16> = Vec::new();
    let mut i: usize = 0;
    while i < len
        invariant
            len == sums@.len(),
            n >= 1,
            half == n / 2,
            forall|j: int| 0 <= j < len ==> sums@[j] + n / 2 <= u32::MAX,
            i <= len,
            r@.len() == i,
            forall|j: int| 0 <= j < i ==> #[trigger] r@[j] == ((sums@[j] + n / 2) / (n as int)) as u16,
        decreases len - i,
    {
        r.push(((sums[i] + half) / n) as u16);
        i = i + 1;
    }
    proof {
        assert(r@ =~= mean_levels(sums@, n as int));
    }
    r
}

/// Sums frames of one shape, to give back their mean.
pub struct RawAdder {
    data: Vec<u32>,
    info: Option<FrameShape>,
    counter: u32,
    zero_sum: i32,
}

impl RawAdder {
    /// Sums of the levels, pixel by pixel.
    pub closed spec fn sums(&self) -> Seq<u32> {
        self.data@
    }

    /// Shape of the frames added, none before the first.
    pub closed spec fn shape(&self) -> Option<FrameShape> {
        self.info
    }

    /// How many frames were added.
    pub closed spec fn frames(&self) -> u32 {
        self.counter
    }

    /// Sum of the black levels of the frames added.
    pub closed spec fn zero_sum(&self) -> i32 {
        self.zero_sum
    }

    /// Empty with nothing added; else one sum per pixel and at least one frame.
    pub open spec fn wf(&self) -> bool {
        match self.shape() {
            None => self.sums().len() == 0 && self.frames() == 0 && self.zero_sum() == 0,
            Some(s) => self.sums().len() == s.width * s.height && self.frames() >= 1,
        }
    }

    pub fn new() -> (r: Self)
        ensures
            r.wf(),
            r.shape() is None,
    {
        Self { data: Vec::new(), info: None, counter: 0, zero_sum: 0 }
    }

    /// Forgets every frame added.
    pub fn clear(&mut self)
        ensures
            final(self).wf(),
            final(self).shape() is None,
    {
        self.data = Vec::new();
        self.info = None;
        self.counter = 0;
        self.zero_sum = 0;
    }

    /// Width of the frames added, 0 before the first.
    pub fn width(&self) -> (r: usize)
        ensures
            r == match self.shape() {
                Some(s) => s.width,
                None => 0,
            },
    {
        match &self.info {
            Some(s) => s.width,
            None => 0,
        }
    }

    /// Height of the frames added, 0 before the first.
    pub fn height(&self) -> (r: usize)
        ensures
            r == match self.shape() {
                Some(s) => s.height,
                None => 0,
            },
    {
        match &self.info {
            Some(s) => s.height,
            None => 0,
        }
    }

    /// Adds a frame of the shape of those added before (the first sets it).
    pub fn add(&mut self, raw: &RawImage) -> (r: Result<(), StackError>)
        requires
            old(self).wf(),
            raw.wf(),
            old(self).shape() matches Some(s) && mismatch(s, raw) is None ==> {
                &&& forall|i: int| 0 <= i < raw@.0.len() ==> old(self).sums()[i] + raw@.0[i] <= u32::MAX
                &&& old(self).frames() < u32::MAX
                &&& i32::MIN <= old(self).zero_sum() + raw.offset_level() <= i32::MAX
            },
        ensures
            final(self).wf(),
            match old(self).shape() {
                Some(s) => match mismatch(s, raw) {
                    Some(e) => r == Err::<(), StackError>(e) && *final(self) == *old(self),
                    None => {
                        &&& r is Ok
                        &&& final(self).shape() == old(self).shape()
                        &&& final(self).sums() == plus_levels(old(self).sums(), raw@.0)
                        &&& final(self).frames() == old(self).frames() + 1
                        &&& final(self).zero_sum() == old(self).zero_sum() + raw.offset_level()
                    },
                },
                None => {
                    &&& r is Ok
                    &&& final(self).shape() == Some(shape_of(raw))
                    &&& final(self).sums() == plus_levels(zero_sums(raw@.0), raw@.0)
                    &&& final(self).frames() == 1
                    &&& final(self).zero_sum() == raw.offset_level()
                },
            },
    {
        let shape = self.info;
        if let Some(s) = shape {
            if let Some(e) = check_shape(&s, raw) {
                return Err(e);
            }
        } else {
            self.info = Some(shape_from(raw));
            self.counter = 0;
            self.zero_sum = 0;
            self.data.resize(raw.as_slice().len(), 0u32);
            proof {
                assert(self.data@ =~= zero_sums(raw@.0));
            }
        }
        add_levels(&mut self.data, raw.as_slice());
        self.counter = self.counter + 1;
        self.zero_sum = self.zero_sum + raw.offset();
        Ok(())
    }

    /// The mean of the frames added: rounded means of the levels and of the black levels.
    pub fn get(&self) -> (r: Result<RawImage, StackError>)
        requires
            self.wf(),
            self.shape() is Some ==> {
                &&& forall|i: int| 0 <= i < self.sums().len() ==> self.sums()[i] + self.frames() / 2 <= u32::MAX
                &&& self.zero_sum() + self.frames() / 2 <= i32::MAX
                &&& self.frames() <= i32::MAX
            },
        ensures
            match self.shape() {
                None => r == Err::<RawImage, StackError>(StackError::Empty),
                Some(s) => {
                    &&& r matches Ok(img)
                    &&& img@ == (mean_levels(self.sums(), self.frames() as int), s.width, s.height)
                    &&& img.offset_level() == mean_offset(self.zero_sum() as int, self.frames() as int)
                    &&& img.max_level() == s.max_value
                    &&& img.filter() == s.cfa
                    &&& img.kind() == s.frame_type
                },
            },
    {
        let s = match &self.info {
            Some(s) => *s,
            None => {
                return Err(StackError::Empty);
            },
        };
        let data = means_of(&self.data, self.counter);
        let half = (self.counter / 2) as i64;
        let offset = div_i64(self.zero_sum as i64 + half, self.counter as i64) as i32;
        Ok(RawImage::new(s.width, s.height, offset, s.max_value, s.cfa, s.frame_type, data))
    }
}

/// `v` could stand in the middle of five levels: at most two of them lie below it and at
/// most two above.
pub open spec fn is_middle(v: u16, a: u16, b: u16, c: u16, d: u16, e: u16) -> bool {
    let below = (if a < v { 1int } else { 0 }) + (if b < v { 1int } else { 0 }) + (if c < v { 1int } else { 0 })
        + (if d < v { 1int } else { 0 }) + (if e < v { 1int } else { 0 });
    let above = (if a > v { 1int } else { 0 }) + (if b > v { 1int } else { 0 }) + (if c > v { 1int } else { 0 })
        + (if d > v { 1int } else { 0 }) + (if e > v { 1int } else { 0 });
    below <= 2 && above <= 2
}

/// The median of five levels: the first of them that stands in the middle.
pub open spec fn median_of5(a: u16, b: u16, c: u16, d: u16, e: u16) -> u16 {
    if is_middle(a, a, b, c, d, e) {
        a
    } else if is_middle(b, a, b, c, d, e) {
        b
    } else if is_middle(c, a, b, c, d, e) {
        c
    } else if is_middle(d, a, b, c, d, e) {
        d
    } else {
        e
    }
}

fn middle(v: u16, a: u16, b: u16, c: u16, d: u16, e: u16) -> (r: bool)
    ensures
        r == is_middle(v, a, b, c, d, e),
{
    let mut below: u8 = 0;
    let mut above: u8 = 0;
    if a < v {
        below = below + 1;
    } else if a > v {
        above = above + 1;
    }
    if b < v {
        below = below + 1;
    } else if b > v {
        above = above + 1;
    }
    if c < v {
        below = below + 1;
    } else if c > v {
        above = above + 1;
    }
    if d < v {
        below = below + 1;
    } else if d > v {
        above = above + 1;
    }
    if e < v {
        below = below + 1;
    } else if e > v {
        above = above + 1;
    }
    below <= 2 && above <= 2
}

/// The median of five levels (see `median_of5`).
pub fn median5(a: u16, b: u16, c: u16, d: u16, e: u16) -> (r: u16)
    ensures
        r == median_of5(a, b, c, d, e),
{
    if middle(a, a, b, c, d, e) {
        a
    } else if middle(b, a, b, c, d, e) {
        b
    } else if middle(c, a, b, c, d, e) {
        c
    } else if middle(d, a, b, c, d, e) {
        d
    } else {
        e
    }
}

/// `v` could stand in the middle of three levels: at most one lies below it and at most
/// one above.
pub open spec fn is_middle3(v: u16, a: u16, b: u16, c: u16) -> bool {
    let below = (if a < v { 1int } else { 0 }) + (if b < v { 1int } else { 0 }) + (if c < v { 1int } else { 0 });
    let above = (if a > v { 1int } else { 0 }) + (if b > v { 1int } else { 0 }) + (if c > v { 1int } else { 0 });
    below <= 1 && above <= 1
}

/// The median of three levels: one of them that stands in the middle.
pub fn median3(v1: u16, v2: u16, v3: u16) -> (r: u16)
    ensures
        r == v1 || r == v2 || r == v3,
        is_middle3(r, v1, v2, v3),
{
    if (v1 > v2) ^ (v1 > v3) {
        v1
    } else if (v2 < v1) ^ (v2 < v3) {
        v2
    } else {
        v3
    }
}

/// The median of five levels stands in the middle of them.
pub proof fn lemma_median_of5_is_middle(a: u16, b: u16, c: u16, d: u16, e: u16)
    ensures
        is_middle(median_of5(a, b, c, d, e), a, b, c, d, e),
{
}

/// Why `raw` cannot join a stack of shape `shape` (none when nothing is stacked yet).
pub open spec fn refusal(shape: Option<FrameShape>, raw: &RawImage) -> Option<StackError> {
    match shape {
        Some(s) => mismatch(s, raw),
        None => None,
    }
}

/// Sums of levels, pixel by pixel, with the median of four held frames and `d` added.
pub open spec fn plus_medians(sums: Seq<u32>, held: Seq<Seq<u16>>, d: Seq<u16>) -> Seq<u32> {
    Seq::new(d.len(), |i: int| (sums[i] + median_of5(held[0][i], held[1][i], held[2][i], held[3][i], d[i])) as u32)
}

/// Adds to the sums, pixel by pixel, the median of four frames and `d`.
fn add_medians(sums: &mut Vec<u32>, held: &Vec<Vec<u16>>, d: &[u16])
    requires
        old(sums)@.len() == d@.len(),
        held@.len() == 4,
        forall|k: int| 0 <= k < 4 ==> #[trigger] held@[k]@.len() == d@.len(),
        forall|i: int|
            0 <= i < d@.len() ==> old(sums)@[i] + median_of5(held@[0]@[i], held@[1]@[i], held@[2]@[i], held@[3]@[i], d@[i])
                <= u32::MAX,
    ensures
        final(sums)@ == plus_medians(old(sums)@, Seq::new(4, |k: int| held@[k]@), d@),
{
    let n = d.len();
    let ghost base = sums@;
    let ghost hs = Seq::new(4, |k: int| held@[k]@);
    let h0 = &held[0];
    let h1 = &held[1];
    let h2 = &held[2];
    let h3 = &held[3];
    proof {
        assert(h0@.len() == n && h1@.len() == n && h2@.len() == n && h3@.len() == n) by {
            assert(held@[0]@.len() == n);
            assert(held@[1]@.len() == n);
            assert(held@[2]@.len() == n);
            assert(held@[3]@.len() == n);
        }
    }
    let mut i: usize = 0;
    while i < n
        invariant
            n == d@.len(),
            base.len() == n,
            sums@.len() == n,
            h0@ == hs[0],
            h1@ == hs[1],
            h2@ == hs[2],
            h3@ == hs[3],
            h0@.len() == n,
            h1@.len() == n,
            h2@.len() == n,
            h3@.len() == n,
            forall|j: int| 0 <= j < n ==> base[j] + median_of5(hs[0][j], hs[1][j], hs[2][j], hs[3][j], d@[j]) <= u32::MAX,
            i <= n,
            forall|j: int|
                0 <= j < i ==> #[trigger] sums@[j] == (base[j] + median_of5(hs[0][j], hs[1][j], hs[2][j], hs[3][j], d@[j])) as u32,
            forall|j: int| i <= j < n ==> #[trigger] sums@[j] == base[j],
        decreases n - i,
    {
        let m = median5(h0[i], h1[i], h2[i], h3[i], d[i]);
        let v = sums[i] + m as u32;
        sums.set(i, v);
        i = i + 1;
    }
    proof {
        assert(sums@ =~= plus_medians(base, hs, d@));
    }
}

/// Stacks frames of one shape, by their sum or by the medians of groups of five, to give
/// back their mean.
pub struct RawStacker {
    data: Vec<u32>,
    images: Vec<Vec<u16>>,
    info: Option<FrameShape>,
    counter: u32,
    zero_sum: i32,
}

impl RawStacker {
    /// Sums of the levels (or of the medians of groups), pixel by pixel.
    pub closed spec fn sums(&self) -> Seq<u32> {
        self.data@
    }

    /// Levels of the frames held until a group of five is complete.
    pub closed spec fn held(&self) -> Seq<Seq<u16>> {
        Seq::new(self.images@.len(), |k: int| self.images@[k]@)
    }

    /// Shape of the frames stacked, none before the first.
    pub closed spec fn shape(&self) -> Option<FrameShape> {
        self.info
    }

    /// How many frames (or groups of five) the sums hold.
    pub closed spec fn frames(&self) -> u32 {
        self.counter
    }

    /// Sum of the black levels of the frames that the sums hold (one per group).
    pub closed spec fn zero_sum(&self) -> i32 {
        self.zero_sum
    }

    /// Empty with nothing stacked; else one sum per pixel, up to four frames of the same
    /// size held, and some frame summed or held.
    pub open spec fn wf(&self) -> bool {
        match self.shape() {
            None => self.sums().len() == 0 && self.held().len() == 0 && self.frames() == 0 && self.zero_sum() == 0,
            Some(s) => {
                &&& self.sums().len() == s.width * s.height
                &&& self.held().len() <= 4
                &&& forall|k: int| 0 <= k < self.held().len() ==> #[trigger] self.held()[k].len() == s.width * s.height
                &&& (self.frames() >= 1 || self.held().len() >= 1)
            },
        }
    }

    pub fn new() -> (r: Self)
        ensures
            r.wf(),
            r.shape() is None,
    {
        Self { data: Vec::new(), images: Vec::new(), info: None, counter: 0, zero_sum: 0 }
    }

    /// Forgets every frame stacked.
    pub fn clear(&mut self)
        ensures
            final(self).wf(),
            final(self).shape() is None,
    {
        self.data = Vec::new();
        self.images = Vec::new();
        self.info = None;
        self.counter = 0;
        self.zero_sum = 0;
    }

    /// Adds a frame of the shape of those stacked before (the first sets it): to the sums,
    /// or with `use_median` to the frames held, and once five are there the median of each
    /// pixel to the sums, the held frames dropped.
    pub fn add(&mut self, raw: &RawImage, use_median: bool) -> (r: Result<(), StackError>)
        requires
            old(self).wf(),
            raw.wf(),
            old(self).shape() matches Some(s) && mismatch(s, raw) is None ==> {
                &&& !use_median ==> forall|i: int| 0 <= i < raw@.0.len() ==> old(self).sums()[i] + raw@.0[i] <= u32::MAX
                &&& use_median && old(self).held().len() == 4 ==> forall|i: int|
                    0 <= i < raw@.0.len() ==> old(self).sums()[i] + median_of5(
                        old(self).held()[0][i],
                        old(self).held()[1][i],
                        old(self).held()[2][i],
                        old(self).held()[3][i],
                        raw@.0[i],
                    ) <= u32::MAX
                &&& old(self).frames() < u32::MAX
                &&& i32::MIN <= old(self).zero_sum() + raw.offset_level() <= i32::MAX
            },
        ensures
            final(self).wf(),
            refusal(old(self).shape(), raw) matches Some(e) ==> r == Err::<(), StackError>(e) && *final(self)
                == *old(self),
            old(self).shape() is None ==> final(self).shape() == Some(shape_of(raw)),
            refusal(old(self).shape(), raw) is None ==> {
                let (sums, held, frames, zero_sum) = if old(self).shape() is None {
                    (zero_sums(raw@.0), Seq::<Seq<u16>>::empty(), 0u32, 0i32)
                } else {
                    (old(self).sums(), old(self).held(), old(self).frames(), old(self).zero_sum())
                };
                &&& r is Ok
                &&& old(self).shape() is Some ==> final(self).shape() == old(self).shape()
                &&& if !use_median {
                    &&& final(self).sums() == plus_levels(sums, raw@.0)
                    &&& final(self).held() == held
                    &&& final(self).frames() == frames + 1
                    &&& final(self).zero_sum() == zero_sum + raw.offset_level()
                } else if held.len() == 4 {
                    &&& final(self).sums() == plus_medians(sums, held, raw@.0)
                    &&& final(self).held() == Seq::<Seq<u16>>::empty()
                    &&& final(self).frames() == frames + 1
                    &&& final(self).zero_sum() == zero_sum + raw.offset_level()
                } else {
                    &&& final(self).sums() == sums
                    &&& final(self).held() == held.push(raw@.0)
                    &&& final(self).frames() == frames
                    &&& final(self).zero_sum() == zero_sum
                }
            },
    {
        let shape = self.info;
        if let Some(s) = shape {
            if let Some(e) = check_shape(&s, raw) {
                return Err(e);
            }
        } else {
            self.info = Some(shape_from(raw));
            self.counter = 0;
            self.zero_sum = 0;
            self.data.resize(raw.as_slice().len(), 0u32);
            proof {
                assert(self.data@ =~= zero_sums(raw@.0));
                assert(self.held() =~= Seq::<Seq<u16>>::empty());
            }
        }
        if use_median {
            if self.images.len() == 4 {
                proof {
                    assert(Seq::new(4, |k: int| self.images@[k]@) =~= self.held());
                    assert forall|k: int| 0 <= k < 4 implies #[trigger] self.images@[k]@.len() == raw@.0.len() by {
                        assert(self.held()[k] == self.images@[k]@);
                    }
                }
                add_medians(&mut self.data, &self.images, raw.as_slice());
                self.counter = self.counter + 1;
                self.zero_sum = self.zero_sum + raw.offset();
                self.images = Vec::new();
                proof {
                    assert(self.held() =~= Seq::<Seq<u16>>::empty());
                }
            } else {
                let ghost before = self.held();
                let src = raw.as_slice();
                let mut levels: Vec<u16> = Vec::new();
                levels.extend_from_slice(src);
                proof {
                    assert(levels@ =~= raw@.0);
                }
                self.images.push(levels);
                proof {
                    assert(self.held() =~= before.push(raw@.0));
                }
            }
        } else {
            add_levels(&mut self.data, raw.as_slice());
            self.counter = self.counter + 1;
            self.zero_sum = self.zero_sum + raw.offset();
        }
        Ok(())
    }

    /// The mean of the frames stacked: rounded means of the sums and of the black levels.
    /// Some frame (or group of five) must be in the sums.
    pub fn get(&mut self) -> (r: Result<RawImage, StackError>)
        requires
            old(self).wf(),
            old(self).shape() is Some ==> {
                &&& old(self).frames() >= 1
                &&& forall|i: int| 0 <= i < old(self).sums().len() ==> old(self).sums()[i] + old(self).frames() / 2 <= u32::MAX
                &&& old(self).zero_sum() + old(self).frames() / 2 <= i32::MAX
                &&& old(self).frames() <= i32::MAX
            },
        ensures
            *final(self) == *old(self),
            match old(self).shape() {
                None => r == Err::<RawImage, StackError>(StackError::Empty),
                Some(s) => {
                    &&& r matches Ok(img)
                    &&& img@ == (mean_levels(old(self).sums(), old(self).frames() as int), s.width, s.height)
                    &&& img.offset_level() == mean_offset(old(self).zero_sum() as int, old(self).frames() as int)
                    &&& img.max_level() == s.max_value
                    &&& img.filter() == s.cfa
                    &&& img.kind() == s.frame_type
                },
            },
    {
        let s = match &self.info {
            Some(s) => *s,
            None => {
                return Err(StackError::Empty);
            },
        };
        let half = (self.counter / 2) as i64;
        let offset = div_i64(self.zero_sum as i64 + half, self.counter as i64) as i32;
        let data = means_of(&self.data, self.counter);
        Ok(RawImage::new(s.width, s.height, offset, s.max_value, s.cfa, s.frame_type, data))
    }
}

/// The sums of `n` copies of the levels `d`, added one after the other to zero sums.
pub open spec fn copies_summed(d: Seq<u16>, n: nat) -> Seq<u32>
    decreases n,
{
    if n == 0 {
        zero_sums(d)
    } else {
        plus_levels(copies_summed(d, (n - 1) as nat), d)
    }
}

proof fn lemma_copies_summed(d: Seq<u16>, n: nat)
    requires
        forall|i: int| 0 <= i < d.len() ==> n * d[i] <= u32::MAX,
    ensures
        copies_summed(d, n).len() == d.len(),
        forall|i: int| 0 <= i < d.len() ==> #[trigger] copies_summed(d, n)[i] == n * d[i],
    decreases n,
{
    if n > 0 {
        assert forall|i: int| 0 <= i < d.len() implies (n - 1) * d[i] <= u32::MAX by {
            assert((n - 1) * d[i] <= n * d[i]) by (nonlinear_arith)
                requires n >= 1;
        }
        lemma_copies_summed(d, (n - 1) as nat);
        assert forall|i: int| 0 <= i < d.len() implies #[trigger] copies_summed(d, n)[i] == n * d[i] by {
            assert((n - 1) * d[i] + d[i] == n * d[i]) by (nonlinear_arith);
        }
    }
}

/// Stacking `n` copies of one frame gives the frame back: the mean of the sums of its
/// levels is its levels, and the mean of a black level that is not negative is itself.
pub proof fn lemma_stack_of_copies(d: Seq<u16>, zero: int, n: nat)
    requires
        n >= 1,
        forall|i: int| 0 <= i < d.len() ==> n * d[i] <= u32::MAX,
        zero >= 0,
    ensures
        mean_levels(copies_summed(d, n), n as int) == d,
        mean_offset(n * zero, n as int) == zero,
{
    lemma_copies_summed(d, n);
    let m = mean_levels(copies_summed(d, n), n as int);
    assert forall|i: int| 0 <= i < d.len() implies m[i] == d[i] by {
        let v = d[i] as int;
        assert((n * v + n / 2) / (n as int) == v) by (nonlinear_arith)
            requires n >= 1;
    }
    assert(m =~= d);
    assert((n * zero + n / 2) / (n as int) == zero) by (nonlinear_arith)
        requires n >= 1, zero >= 0;
}

} // verus!
