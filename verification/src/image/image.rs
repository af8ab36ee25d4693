use rayon::iter::{IntoParallelRefIterator, ParallelIterator};
use vstd::prelude::*;

verus! {

/// Sum of `len` samples from `start` on.
pub open spec fn sum_run(d: Seq<u16>, start: int, len: int) -> int
    decreases len,
{
    if len <= 0 {
        0
    } else {
        sum_run(d, start, len - 1) + d[start + len - 1] as int
    }
}

/// Sum of a block of `rows` rows of `n` samples, left column `x0`, top row `y0`.
pub open spec fn sum_rows(d: Seq<u16>, width: int, n: int, x0: int, y0: int, rows: int) -> int
    decreases rows,
{
    if rows <= 0 {
        0
    } else {
        sum_rows(d, width, n, x0, y0, rows - 1) + sum_run(d, (y0 + rows - 1) * width + x0, n)
    }
}

/// Rounded average of the `n`x`n` block in column `bx`, row `by` of the reduced image.
pub open spec fn block_avg(d: Seq<u16>, width: int, n: int, bx: int, by: int) -> u16 {
    ((sum_rows(d, width, n, bx * n, by * n, n) + (n * n) / 2) / (n * n)) as u16
}

/// An image reduced `n` times: each complete `n`x`n` block averaged, row by row
/// (columns and rows of an incomplete block are dropped).
pub open spec fn reduced(d: Seq<u16>, width: int, height: int, n: int) -> Seq<u16> {
    let rw = width / n;
    let rh = height / n;
    Seq::new((rw * rh) as nat, |p: int| block_avg(d, width, n, p % rw, p / rw))
}

proof fn lemma_sum_run_bound(d: Seq<u16>, start: int, len: int)
    ensures
        0 <= sum_run(d, start, len) <= 65535 * (if len > 0 { len } else { 0 }),
    decreases len,
{
    if len > 0 {
        lemma_sum_run_bound(d, start, len - 1);
    }
}

/// A sum of levels lies between 0 and 65535 times their count.
pub proof fn lemma_sum_run_bound_pub(d: Seq<u16>, start: int, len: int)
    ensures
        0 <= sum_run(d, start, len) <= 65535 * (if len > 0 { len } else { 0 }),
{
    lemma_sum_run_bound(d, start, len);
}

proof fn lemma_sum_rows_bound(d: Seq<u16>, width: int, n: int, x0: int, y0: int, rows: int)
    requires
        n >= 0,
    ensures
        0 <= sum_rows(d, width, n, x0, y0, rows) <= 65535 * n * (if rows > 0 { rows } else { 0 }),
    decreases rows,
{
    if rows > 0 {
        lemma_sum_rows_bound(d, width, n, x0, y0, rows - 1);
        lemma_sum_run_bound(d, (y0 + rows - 1) * width + x0, n);
        assert(65535 * n * (rows - 1) + 65535 * n == 65535 * n * rows) by (nonlinear_arith);
    }
}

/// Samples cut or extended with zeros to `len`.
pub open spec fn resized(d: Seq<u16>, len: int) -> Seq<u16> {
    Seq::new(len as nat, |i: int| if i < d.len() { d[i] } else { 0u16 })
}

/// One layer of an image: `width` x `height` samples, row by row.
pub struct ImageLayer<T> {
    data: Vec<T>,
    width: usize,
    height: usize,
}

impl<T> View for ImageLayer<T> {
    type V = (Seq<T>, usize, usize);

    /// Samples, width, height.
    closed spec fn view(&self) -> (Seq<T>, usize, usize) {
        (self.data@, self.width, self.height)
    }
}

impl<T: Copy + Default> ImageLayer<T> {
    /// The samples fill the whole rectangle.
    pub open spec fn wf(&self) -> bool {
        self@.0.len() == self@.1 * self@.2
    }

    pub fn new_empty() -> (res: Self)
        ensures
            res@ == (Seq::<T>::empty(), 0usize, 0usize),
    {
        Self { data: Vec::new(), width: 0, height: 0 }
    }

    /// A layer holding the given samples.
    pub fn new_mono(data: Vec<T>, width: usize, height: usize) -> (res: Self)
        requires
            data@.len() == width * height,
        ensures
            res@ == (data@, width, height),
    {
        Self { data, width, height }
    }

    pub fn clear(&mut self)
        ensures
            final(self)@ == (Seq::<T>::empty(), 0usize, 0usize),
    {
        self.data.clear();
        self.width = 0;
        self.height = 0;
    }

    pub fn is_empty(&self) -> (r: bool)
        ensures
            r == (self@.1 == 0 && self@.2 == 0),
    {
        self.width == 0 && self.height == 0
    }

    pub fn as_slice(&self) -> (r: &[T])
        ensures
            r@ == self@.0,
    {
        self.data.as_slice()
    }

    /// The samples, to be written in place (their count stays).
    pub fn as_slice_mut(&mut self) -> (r: &mut [T])
        ensures
            r@ == old(self)@.0,
            final(self)@ == (final(r)@, old(self)@.1, old(self)@.2),
    {
        self.data.as_mut_slice()
    }

    /// Sets the sample at index `i` of the data.
    pub(crate) fn set_index(&mut self, i: usize, value: T)
        requires
            i < old(self)@.0.len(),
        ensures
            final(self)@ == (old(self)@.0.update(i as int, value), old(self)@.1, old(self)@.2),
    {
        self.data.set(i, value);
    }

    /// Samples of row `y`.
    pub fn row(&self, y: usize) -> (r: &[T])
        requires
            self.wf(),
            y < self@.2,
        ensures
            r@ == self@.0.subrange(y * self@.1, y * self@.1 + self@.1),
    {
        assert(self.data.len() == self.width * self.height);
        proof {
            assert(y * self.width + self.width <= self.width * self.height) by (nonlinear_arith)
                requires y < self.height;
        }
        let pos = y * self.width;
        &self.data.as_slice()[pos..pos + self.width]
    }

    /// Sets the sample at `(x, y)` (inside the layer).
    pub fn set(&mut self, x: isize, y: isize, value: T)
        requires
            old(self).wf(),
            0 <= x < old(self)@.1,
            0 <= y < old(self)@.2,
        ensures
            final(self)@ == (old(self)@.0.update(y * old(self)@.1 + x, value), old(self)@.1, old(self)@.2),
    {
        assert(self.data.len() == self.width * self.height);
        proof {
            assert(y * self.width + x < self.width * self.height) by (nonlinear_arith)
                requires 0 <= x < self.width, 0 <= y < self.height;
        }
        self.data.set((y as usize) * self.width + (x as usize), value);
    }

    /// The sample at `(x, y)`, `None` outside the layer.
    pub fn get(&self, x: isize, y: isize) -> (r: Option<T>)
        requires
            self.wf(),
        ensures
            r == (if 0 <= x < self@.1 && 0 <= y < self@.2 {
                Some(self@.0[y * self@.1 + x])
            } else {
                None::<T>
            }),
    {
        if x < 0 || y < 0 || x as usize >= self.width || y as usize >= self.height {
            None
        } else {
            assert(self.data.len() == self.width * self.height);
            proof {
                assert(y * self.width + x < self.width * self.height) by (nonlinear_arith)
                    requires 0 <= x < self.width, 0 <= y < self.height;
            }
            Some(self.data[x as usize + y as usize * self.width])
        }
    }

    pub fn height(&self) -> (r: usize)
        ensures
            r == self@.2,
    {
        self.height
    }

    pub fn width(&self) -> (r: usize)
        ensures
            r == self@.1,
    {
        self.width
    }
}

impl ImageLayer<u16> {
    /// A layer of the given size filled with zeros.
    pub fn new_with_size(width: usize, height: usize) -> (res: Self)
        requires
            width * height <= usize::MAX,
        ensures
            res@ == (Seq::new((width * height) as nat, |i: int| 0u16), width, height),
    {
        let mut data: Vec<u16> = Vec::new();
        data.resize(width * height, 0u16);
        proof {
            assert(data@ =~= Seq::new((width * height) as nat, |i: int| 0u16));
        }
        Self { data, width, height }
    }

    /// The sample at `(x, y)`, `None` outside the layer (coordinates of any size).
    fn sample(&self, x: i128, y: i128) -> (r: Option<u16>)
        requires
            self.wf(),
        ensures
            widen(r) == sample_at(self@, x as int, y as int),
    {
        if x < 0 || y < 0 || x >= self.width as i128 || y >= self.height as i128 {
            None
        } else {
            assert(self.data.len() == self.width * self.height);
            proof {
                assert(y * self.width + x < self.width * self.height) by (nonlinear_arith)
                    requires 0 <= x < self.width, 0 <= y < self.height;
            }
            Some(self.data[x as usize + y as usize * self.width])
        }
    }

    /// The layer interpolated at `(x, y)` given in units of `1 / CRD_DIV` pixel.
    pub fn get_crd_i64(&self, x: i64, y: i64) -> (r: Option<u16>)
        requires
            self.wf(),
        ensures
            r == crd_sample(self@, x as int, y as int),
    {
        let (xi, xp1) = crd_split(x);
        let xp0 = 256 - xp1;
        let (yi, yp1) = crd_split(y);
        let yp0 = 256 - yp1;
        let v0 = blend_exec(self.sample(xi, yi), self.sample(xi + 1, yi), xp0, xp1);
        let v1 = blend_exec(self.sample(xi, yi + 1), self.sample(xi + 1, yi + 1), xp0, xp1);
        let v: u64 = match (v0, v1) {
            (Some(v0), Some(v1)) => {
                proof {
                    assert(v0 * yp0 + v1 * yp1 <= 65535 * 256 * yp0 + 65535 * 256 * yp1) by (nonlinear_arith)
                        requires v0 <= 65535 * 256, v1 <= 65535 * 256;
                }
                v0 * yp0 + v1 * yp1
            },
            (Some(v0), None) => v0 * 256,
            (None, Some(v1)) => v1 * 256,
            (None, None) => {
                return None;
            },
        };
        let mut result = v / 65536;
        if result > 65535 {
            result = 65535;
        }
        Some(result as u16)
    }

    /// Mean level of the layer, rounded down; `mt` adds the levels in parallel.
    pub fn calc_background(&self, mt: bool) -> (r: u16)
        requires
            self.wf(),
            self@.0.len() > 0,
            self@.0.len() * 65535 <= u64::MAX,
        ensures
            r == sum_run(self@.0, 0, self@.0.len() as int) / (self@.0.len() as int),
    {
        let n = self.data.len();
        if mt {
            let sum = par_sum_levels(self.data.as_slice());
            proof {
                lemma_sum_run_bound(self@.0, 0, n as int);
                assert((sum as int) / (n as int) <= 65535) by (nonlinear_arith)
                    requires sum <= 65535 * n, n > 0;
            }
            return (sum / n as u64) as u16;
        }
        let mut sum: u64 = 0;
        let mut i: usize = 0;
        while i < n
            invariant
                i <= n,
                n == self@.0.len(),
                n * 65535 <= u64::MAX,
                sum == sum_run(self@.0, 0, i as int),
            decreases n - i,
        {
            proof {
                lemma_sum_run_bound(self@.0, 0, i as int);
                assert(65535 * i + 65535 <= 65535 * n) by (nonlinear_arith)
                    requires i < n;
            }
            sum = sum + self.data[i] as u64;
            i = i + 1;
        }
        proof {
            lemma_sum_run_bound(self@.0, 0, n as int);
            assert((sum as int) / (n as int) <= 65535) by (nonlinear_arith)
                requires sum <= 65535 * n, n > 0;
        }
        (sum / n as u64) as u16
    }

    /// A new size: samples kept up to the new count, new ones zero.
    pub fn resize(&mut self, width: usize, height: usize)
        requires
            width * height <= usize::MAX,
        ensures
            final(self)@ == (resized(old(self)@.0, (width * height) as int), width, height),
    {
        self.data.resize(width * height, 0u16);
        self.width = width;
        self.height = height;
        proof {
            assert(self.data@ =~= resized(old(self)@.0, (width * height) as int));
        }
    }
}

/// Sum of the levels, added in parallel by `rayon` (`par_iter().copied().map(u64::from).sum()`).
/// The contract claims the plain sum: integer addition gives one result in any order, and
/// the `requires` keeps every partial sum within `u64`.
#[verifier::external_body]
fn par_sum_levels(data: &[u16]) -> (r: u64)
    requires
        data@.len() * 65535 <= u64::MAX,
    ensures
        r == sum_run(data@, 0, data@.len() as int),
{
    data.par_iter().copied().map(u64::from).sum()
}

/// Fixed point scale of the coordinates `get_crd_i64` takes.
pub const CRD_DIV: i64 = 256;

/// `x / d` rounded toward zero.
pub open spec fn trunc_div(x: int, d: int) -> int {
    if x >= 0 {
        x / d
    } else {
        -((-x) / d)
    }
}

/// The sample at `(x, y)` of a layer given by its view, `None` outside it.
pub open spec fn sample_at(l: (Seq<u16>, usize, usize), x: int, y: int) -> Option<int> {
    if 0 <= x < l.1 && 0 <= y < l.2 {
        Some(l.0[y * l.1 + x] as int)
    } else {
        None
    }
}

/// Two samples weighted `p0` and `p1`; one that is missing gives all weight to the other.
pub open spec fn blend(a: Option<int>, b: Option<int>, p0: int, p1: int) -> Option<int> {
    match (a, b) {
        (Some(a), Some(b)) => Some(a * p0 + b * p1),
        (Some(a), None) => Some(a * CRD_DIV),
        (None, Some(b)) => Some(b * CRD_DIV),
        (None, None) => None,
    }
}

/// The layer interpolated bilinearly at `(x / CRD_DIV, y / CRD_DIV)`: the cell is taken
/// by division toward zero, the weights by the remainder modulo `CRD_DIV`.
pub open spec fn crd_sample(l: (Seq<u16>, usize, usize), x: int, y: int) -> Option<u16> {
    let xi = trunc_div(x, CRD_DIV as int);
    let yi = trunc_div(y, CRD_DIV as int);
    let xp1 = x % (CRD_DIV as int);
    let xp0 = CRD_DIV - xp1;
    let yp1 = y % (CRD_DIV as int);
    let yp0 = CRD_DIV - yp1;
    let v0 = blend(sample_at(l, xi, yi), sample_at(l, xi + 1, yi), xp0, xp1);
    let v1 = blend(sample_at(l, xi, yi + 1), sample_at(l, xi + 1, yi + 1), xp0, xp1);
    match blend(v0, v1, yp0, yp1) {
        Some(v) => Some(
            (if v / (CRD_DIV * CRD_DIV) > 65535 {
                65535
            } else {
                v / (CRD_DIV * CRD_DIV)
            }) as u16,
        ),
        None => None,
    }
}

/// At the corner of a pixel (coordinates that are whole multiples of `CRD_DIV`) the
/// interpolated level is the level of that pixel.
pub proof fn lemma_crd_sample_at_pixel(l: (Seq<u16>, usize, usize), x: int, y: int)
    requires
        l.0.len() == l.1 * l.2,
        0 <= x < l.1,
        0 <= y < l.2,
    ensures
        crd_sample(l, CRD_DIV * x, CRD_DIV * y) == Some(l.0[y * l.1 + x]),
{
    assert(trunc_div(CRD_DIV * x, CRD_DIV as int) == x);
    assert(trunc_div(CRD_DIV * y, CRD_DIV as int) == y);
    assert((CRD_DIV * x) % (CRD_DIV as int) == 0);
    assert((CRD_DIV * y) % (CRD_DIV as int) == 0);
    let a = l.0[y * l.1 + x] as int;
    assert(sample_at(l, x, y) == Some(a));
    let v0 = blend(sample_at(l, x, y), sample_at(l, x + 1, y), CRD_DIV as int, 0);
    assert(v0 == Some(a * CRD_DIV));
    let v1 = blend(sample_at(l, x, y + 1), sample_at(l, x + 1, y + 1), CRD_DIV as int, 0);
    let v = blend(v0, v1, CRD_DIV as int, 0);
    assert(v == Some(a * CRD_DIV * CRD_DIV));
    assert((a * CRD_DIV * CRD_DIV) / (CRD_DIV * CRD_DIV) == a);
}

/// `x / CRD_DIV` rounded toward zero, and `x` modulo `CRD_DIV`.
fn crd_split(x: i64) -> (r: (i128, u64))
    ensures
        r.0 == trunc_div(x as int, CRD_DIV as int),
        r.1 == (x as int) % (CRD_DIV as int),
{
    if x >= 0 {
        let q = (x as u64 / 256) as i128;
        let p = (x as u64 % 256) as u64;
        (q, p)
    } else {
        let m = (-(x as i128)) as u128;
        let q = (m / 256) as i128;
        let rem = (m % 256) as u64;
        proof {
            assert(-(x as int) == (m as int / 256) * 256 + (m as int % 256));
        }
        if rem == 0 {
            (-q, 0)
        } else {
            (-q, 256 - rem)
        }
    }
}

/// A sample widened to an integer.
pub open spec fn widen(a: Option<u16>) -> Option<int> {
    match a {
        Some(v) => Some(v as int),
        None => None,
    }
}

fn blend_exec(a: Option<u16>, b: Option<u16>, p0: u64, p1: u64) -> (r: Option<u64>)
    requires
        p0 + p1 == CRD_DIV,
    ensures
        blend(widen(a), widen(b), p0 as int, p1 as int) == (match r {
            Some(v) => Some(v as int),
            None => None,
        }),
        r matches Some(v) ==> v <= 65535 * CRD_DIV,
{
    match (a, b) {
        (Some(a), Some(b)) => {
            proof {
                assert(a * p0 + b * p1 <= 65535 * p0 + 65535 * p1) by (nonlinear_arith)
                    requires a <= 65535, b <= 65535;
            }
            Some(a as u64 * p0 + b as u64 * p1)
        },
        (Some(a), None) => Some(a as u64 * 256),
        (None, Some(b)) => Some(b as u64 * 256),
        (None, None) => None,
    }
}

/// Sum of the `n`x`n` block with top left corner `(x0, y0)`.
fn block_sum(d: &Vec<u16>, width: usize, n: usize, x0: usize, y0: usize) -> (r: u32)
    requires
        1 <= n <= 256,
        x0 + n <= width,
        (y0 + n) * width <= d@.len(),
    ensures
        r == sum_rows(d@, width as int, n as int, x0 as int, y0 as int, n as int),
{
    let mut sum: u32 = 0;
    let mut i: usize = 0;
    while i < n
        invariant
            1 <= n <= 256,
            x0 + n <= width,
            (y0 + n) * width <= d@.len(),
            d@.len() == d.len(),
            i <= n,
            sum == sum_rows(d@, width as int, n as int, x0 as int, y0 as int, i as int),
        decreases n - i,
    {
        proof {
            assert((y0 + i) * width + x0 + n <= (y0 + n) * width) by (nonlinear_arith)
                requires i < n, x0 + n <= width;
            assert(y0 + i <= (y0 + i) * width) by (nonlinear_arith)
                requires x0 + n <= width, n >= 1;
            lemma_sum_rows_bound(d@, width as int, n as int, x0 as int, y0 as int, i as int);
            assert(65535 * n * i <= 65535 * 256 * 255) by (nonlinear_arith)
                requires n <= 256, i < n;
        }
        let start = (y0 + i) * width + x0;
        let mut j: usize = 0;
        let mut row_sum: u32 = 0;
        while j < n
            invariant
                j <= n,
                n <= 256,
                start + n <= d@.len(),
                d@.len() == d.len(),
                row_sum == sum_run(d@, start as int, j as int),
            decreases n - j,
        {
            proof {
                lemma_sum_run_bound(d@, start as int, j as int);
            }
            row_sum = row_sum + d[start + j] as u32;
            j = j + 1;
        }
        proof {
            lemma_sum_run_bound(d@, start as int, n as int);
        }
        sum = sum + row_sum;
        i = i + 1;
    }
    sum
}

/// Rounded average of the `n`x`n` block in column `bx`, row `by` of the reduced layer.
pub(crate) fn block_average(layer: &ImageLayer<u16>, n: usize, bx: usize, by: usize) -> (r: u16)
    requires
        layer.wf(),
        1 <= n <= 256,
        bx < layer@.1 / n,
        by < layer@.2 / n,
    ensures
        r == block_avg(layer@.0, layer@.1 as int, n as int, bx as int, by as int),
{
    let w = layer.width();
    let h = layer.height();
    proof {
        assert(bx * n + n <= w) by (nonlinear_arith)
            requires bx < w / n, n >= 1;
        assert((by * n + n) * w <= h * w) by (nonlinear_arith)
            requires by < h / n, n >= 1;
        assert(layer.data.len() == w * h);
        assert(by * n <= h) by (nonlinear_arith)
            requires by < h / n, n >= 1;
        assert(1 <= n * n <= 65536) by (nonlinear_arith)
            requires 1 <= n <= 256;
    }
    let sum = block_sum(&layer.data, w, n, bx * n, by * n);
    proof {
        lemma_sum_rows_bound(layer@.0, w as int, n as int, (bx * n) as int, (by * n) as int, n as int);
        assert(65535 * n * n <= 65535 * 256 * 256) by (nonlinear_arith)
            requires n <= 256;
    }
    let k = (n * n) as u32;
    ((sum + k / 2) / k) as u16
}

/// Iterates over a layer reduced `N` times (see `reduced`).
pub struct DivNLIterator<'a, const N: usize> {
    layer: &'a ImageLayer<u16>,
    bx: usize,
    by: usize,
    width: usize,
    height: usize,
}

impl<'a, const N: usize> DivNLIterator<'a, N> {
    /// All averages the iteration yields, from its start.
    pub closed spec fn items(&self) -> Seq<u16> {
        reduced(self.layer@.0, self.layer@.1 as int, self.layer@.2 as int, N as int)
    }

    /// Averages yielded so far.
    pub closed spec fn position(&self) -> int {
        self.by * self.width + self.bx
    }

    pub closed spec fn inv(&self) -> bool {
        &&& self.layer.wf()
        &&& 1 <= N <= 256
        &&& self.width == self.layer@.1 / N
        &&& self.height == self.layer@.2 / N
        &&& (self.width == 0 ==> self.bx == 0 && self.by == 0)
        &&& (self.width > 0 ==> self.bx < self.width)
        &&& self.by <= self.height
        &&& (self.by == self.height ==> self.bx == 0)
    }

    /// The position never passes the end, so `size_hint` counts exactly the calls of
    /// `next` that still give an average: `next` gives one while the position is short
    /// of the end and moves it on by one, and gives none from the end on.
    pub proof fn lemma_position_bound(&self)
        requires
            self.inv(),
        ensures
            0 <= self.position() <= self.items().len(),
    {
        let w = self.width as int;
        let h = self.height as int;
        assert(self.items().len() == w * h);
        if w > 0 && self.by < h {
            assert(self.by * w + self.bx < w * h) by (nonlinear_arith)
                requires self.by < h, 0 <= self.bx < w;
        } else if w > 0 {
            assert(self.by * w + self.bx == w * h) by (nonlinear_arith)
                requires self.by == h, self.bx == 0;
        }
    }

    pub fn new(layer: &'a ImageLayer<u16>) -> (res: Self)
        requires
            layer.wf(),
            1 <= N <= 256,
        ensures
            res.inv(),
            res.position() == 0,
            res.items() == reduced(layer@.0, layer@.1 as int, layer@.2 as int, N as int),
    {
        Self { layer, bx: 0, by: 0, width: layer.width() / N, height: layer.height() / N }
    }

    /// The next average, `None` when all are yielded.
    pub fn next(&mut self) -> (r: Option<u16>)
        requires
            old(self).inv(),
        ensures
            final(self).inv(),
            final(self).items() == old(self).items(),
            old(self).position() < old(self).items().len() ==> r == Some(
                old(self).items()[old(self).position()],
            ) && final(self).position() == old(self).position() + 1,
            old(self).position() >= old(self).items().len() ==> r is None && final(self).position()
                == old(self).position(),
    {
        proof {
            let w = self.width as int;
            let h = self.height as int;
            assert(self.items().len() == w * h);
            if w > 0 && self.by < h {
                assert(self.by * w + self.bx < w * h) by (nonlinear_arith)
                    requires self.by < h, self.bx < w;
                let p = self.by * w + self.bx;
                assert(p % w == self.bx && p / w == self.by) by (nonlinear_arith)
                    requires p == self.by * w + self.bx, 0 <= self.bx < w;
            } else if w > 0 {
                assert(self.by * w + self.bx >= w * h) by (nonlinear_arith)
                    requires self.by == h, self.bx == 0;
            }
        }
        if self.width == 0 || self.by >= self.height {
            return None;
        }
        let v = block_average(self.layer, N, self.bx, self.by);
        let ghost bx0 = self.bx as int;
        let ghost by0 = self.by as int;
        self.bx = self.bx + 1;
        if self.bx == self.width {
            self.bx = 0;
            self.by = self.by + 1;
        }
        proof {
            let bx1 = self.bx as int;
            let by1 = self.by as int;
            let w = self.width as int;
            assert(by1 * w + bx1 == by0 * w + bx0 + 1) by (nonlinear_arith)
                requires
                    (bx1 == bx0 + 1 && by1 == by0) || (bx1 == 0 && bx0 + 1 == w && by1 == by0 + 1);
        }
        Some(v)
    }

    /// Averages left: lower and upper bound.
    pub fn size_hint(&self) -> (r: (usize, Option<usize>))
        requires
            self.inv(),
        ensures
            r.0 == self.items().len() - self.position(),
            r.1 == Some(r.0),
    {
        proof {
            let w = self.width as int;
            let h = self.height as int;
            if w > 0 && self.by < h {
                assert((h - self.by - 1) * w + (w - self.bx) == w * h - (self.by * w + self.bx)) by (nonlinear_arith);
                assert((h - self.by - 1) * w + (w - self.bx) <= w * h) by (nonlinear_arith)
                    requires self.by < h, self.bx < w;
                assert(w * h <= self.layer@.1 * self.layer@.2) by (nonlinear_arith)
                    requires w == (self.layer@.1 as int) / (N as int), h == (self.layer@.2 as int) / (N as int), N >= 1;
                assert(self.layer.data.len() == self.layer@.1 * self.layer@.2);
            } else if w > 0 {
                assert(self.by * w + self.bx == w * h) by (nonlinear_arith)
                    requires self.by == h, self.bx == 0;
            }
        }
        let remaining = if self.width == 0 || self.by >= self.height {
            0
        } else {
            (self.height - self.by - 1) * self.width + (self.width - self.bx)
        };
        (remaining, Some(remaining))
    }

    /// Number of averages left (consumes the iteration).
    pub fn count(self) -> (r: usize)
        requires
            self.inv(),
        ensures
            r == self.items().len() - self.position(),
    {
        self.size_hint().0
    }

    /// The averages left, in order (consumes the iteration).
    pub fn collect(self) -> (r: Vec<u16>)
        requires
            self.inv(),
        ensures
            r@ == self.items().skip(self.position()),
    {
        let mut it = self;
        let mut r: Vec<u16> = Vec::new();
        let ghost start = it.position();
        let ghost items = it.items();
        proof {
            it.lemma_position_bound();
            assert(items.skip(start).take(0) =~= r@);
        }
        while it.size_hint().0 > 0
            invariant
                it.inv(),
                it.items() == items,
                0 <= start <= it.position() <= items.len(),
                r@ == items.skip(start).take(it.position() - start),
            decreases items.len() - it.position(),
        {
            let ghost p0 = it.position();
            proof {
                assert(p0 < items.len());
            }
            let v = it.next();
            match v {
                Some(x) => {
                    r.push(x);
                    proof {
                        assert(x == items[p0]);
                        assert(items.skip(start).take(p0 + 1 - start) =~= items.skip(start).take(
                            p0 - start,
                        ).push(items[p0]));
                    }
                },
                None => {},
            }
            proof {
                it.lemma_position_bound();
            }
        }
        proof {
            assert(items.skip(start).take(it.position() - start) =~= items.skip(start));
        }
        r
    }
}

impl ImageLayer<u16> {
    pub fn iter_div2(&self) -> (r: DivNLIterator<'_, 2>)
        requires
            self.wf(),
        ensures
            r.inv(),
            r.position() == 0,
            r.items() == reduced(self@.0, self@.1 as int, self@.2 as int, 2),
    {
        DivNLIterator::new(self)
    }

    pub fn iter_div3(&self) -> (r: DivNLIterator<'_, 3>)
        requires
            self.wf(),
        ensures
            r.inv(),
            r.position() == 0,
            r.items() == reduced(self@.0, self@.1 as int, self@.2 as int, 3),
    {
        DivNLIterator::new(self)
    }

    pub fn iter_div4(&self) -> (r: DivNLIterator<'_, 4>)
        requires
            self.wf(),
        ensures
            r.inv(),
            r.position() == 0,
            r.items() == reduced(self@.0, self@.1 as int, self@.2 as int, 4),
    {
        DivNLIterator::new(self)
    }
}


/// Iterates over a color image reduced `N` times: each complete `N`x`N` block of the
/// red, green and blue layers averaged (see `reduced`).
pub struct DivNRGBIterator<'a, const N: usize> {
    image: &'a Image,
    bx: usize,
    by: usize,
    width: usize,
    height: usize,
}

impl<'a, const N: usize> DivNRGBIterator<'a, N> {
    /// All `(r, g, b)` averages the iteration yields, from its start.
    pub closed spec fn items(&self) -> Seq<(u16, u16, u16)> {
        let r = reduced(self.image.r@.0, self.image.r@.1 as int, self.image.r@.2 as int, N as int);
        let g = reduced(self.image.g@.0, self.image.g@.1 as int, self.image.g@.2 as int, N as int);
        let b = reduced(self.image.b@.0, self.image.b@.1 as int, self.image.b@.2 as int, N as int);
        Seq::new(r.len(), |i: int| (r[i], g[i], b[i]))
    }

    /// Triples yielded so far.
    pub closed spec fn position(&self) -> int {
        self.by * self.width + self.bx
    }

    pub closed spec fn inv(&self) -> bool {
        &&& self.image.rgb_wf()
        &&& 1 <= N <= 256
        &&& self.width == self.image.r@.1 / N
        &&& self.height == self.image.r@.2 / N
        &&& (self.width == 0 ==> self.bx == 0 && self.by == 0)
        &&& (self.width > 0 ==> self.bx < self.width)
        &&& self.by <= self.height
        &&& (self.by == self.height ==> self.bx == 0)
    }

    proof fn lemma_position_bound(&self)
        requires
            self.inv(),
        ensures
            0 <= self.position() <= self.items().len(),
    {
        let w = self.width as int;
        let h = self.height as int;
        assert(self.items().len() == w * h);
        if w > 0 && self.by < h {
            assert(self.by * w + self.bx < w * h) by (nonlinear_arith)
                requires self.by < h, 0 <= self.bx < w;
        } else if w > 0 {
            assert(self.by * w + self.bx == w * h) by (nonlinear_arith)
                requires self.by == h, self.bx == 0;
        }
    }

    pub fn new(image: &'a Image) -> (res: Self)
        requires
            image.rgb_wf(),
            1 <= N <= 256,
        ensures
            res.inv(),
            res.position() == 0,
            res.items() == image.rgb_reduced(N as int),
    {
        let res = Self { image, bx: 0, by: 0, width: image.r.width() / N, height: image.r.height() / N };
        proof {
            assert(res.items() =~= image.rgb_reduced(N as int));
        }
        res
    }

    /// The next triple of averages, `None` when all are yielded.
    pub fn next(&mut self) -> (r: Option<(u16, u16, u16)>)
        requires
            old(self).inv(),
        ensures
            final(self).inv(),
            final(self).items() == old(self).items(),
            old(self).position() < old(self).items().len() ==> r == Some(
                old(self).items()[old(self).position()],
            ) && final(self).position() == old(self).position() + 1,
            old(self).position() >= old(self).items().len() ==> r is None && final(self).position()
                == old(self).position(),
    {
        proof {
            let w = self.width as int;
            let h = self.height as int;
            assert(self.items().len() == w * h);
            if w > 0 && self.by < h {
                assert(self.by * w + self.bx < w * h) by (nonlinear_arith)
                    requires self.by < h, self.bx < w;
                let p = self.by * w + self.bx;
                assert(p % w == self.bx && p / w == self.by) by (nonlinear_arith)
                    requires p == self.by * w + self.bx, 0 <= self.bx < w;
            } else if w > 0 {
                assert(self.by * w + self.bx >= w * h) by (nonlinear_arith)
                    requires self.by == h, self.bx == 0;
            }
        }
        if self.width == 0 || self.by >= self.height {
            return None;
        }
        let r = block_average(&self.image.r, N, self.bx, self.by);
        let g = block_average(&self.image.g, N, self.bx, self.by);
        let b = block_average(&self.image.b, N, self.bx, self.by);
        let ghost bx0 = self.bx as int;
        let ghost by0 = self.by as int;
        self.bx = self.bx + 1;
        if self.bx == self.width {
            self.bx = 0;
            self.by = self.by + 1;
        }
        proof {
            let bx1 = self.bx as int;
            let by1 = self.by as int;
            let w = self.width as int;
            assert(by1 * w + bx1 == by0 * w + bx0 + 1) by (nonlinear_arith)
                requires
                    (bx1 == bx0 + 1 && by1 == by0) || (bx1 == 0 && bx0 + 1 == w && by1 == by0 + 1);
        }
        Some((r, g, b))
    }

    /// Triples left: lower and upper bound.
    pub fn size_hint(&self) -> (r: (usize, Option<usize>))
        requires
            self.inv(),
        ensures
            r.0 == self.items().len() - self.position(),
            r.1 == Some(r.0),
    {
        proof {
            let w = self.width as int;
            let h = self.height as int;
            let l = self.image.r@;
            if w > 0 && self.by < h {
                assert((h - self.by - 1) * w + (w - self.bx) == w * h - (self.by * w + self.bx)) by (nonlinear_arith);
                assert((h - self.by - 1) * w + (w - self.bx) <= w * h) by (nonlinear_arith)
                    requires self.by < h, self.bx < w;
                assert(w * h <= l.1 * l.2) by (nonlinear_arith)
                    requires w == (l.1 as int) / (N as int), h == (l.2 as int) / (N as int), N >= 1;
                assert(self.image.r.data.len() == l.1 * l.2);
            } else if w > 0 {
                assert(self.by * w + self.bx == w * h) by (nonlinear_arith)
                    requires self.by == h, self.bx == 0;
            }
        }
        let remaining = if self.width == 0 || self.by >= self.height {
            0
        } else {
            (self.height - self.by - 1) * self.width + (self.width - self.bx)
        };
        (remaining, Some(remaining))
    }

    /// Number of triples left (consumes the iteration).
    pub fn count(self) -> (r: usize)
        requires
            self.inv(),
        ensures
            r == self.items().len() - self.position(),
    {
        self.size_hint().0
    }

    /// The triples left, in order (consumes the iteration).
    pub fn collect(self) -> (r: Vec<(u16, u16, u16)>)
        requires
            self.inv(),
        ensures
            r@ == self.items().skip(self.position()),
    {
        let mut it = self;
        let mut r: Vec<(u16, u16, u16)> = Vec::new();
        let ghost start = it.position();
        let ghost items = it.items();
        proof {
            it.lemma_position_bound();
            assert(items.skip(start).take(0) =~= r@);
        }
        while it.size_hint().0 > 0
            invariant
                it.inv(),
                it.items() == items,
                0 <= start <= it.position() <= items.len(),
                r@ == items.skip(start).take(it.position() - start),
            decreases items.len() - it.position(),
        {
            let ghost p0 = it.position();
            let v = it.next();
            match v {
                Some(x) => {
                    r.push(x);
                    proof {
                        assert(items.skip(start).take(p0 + 1 - start) =~= items.skip(start).take(
                            p0 - start,
                        ).push(items[p0]));
                    }
                },
                None => {},
            }
            proof {
                it.lemma_position_bound();
            }
        }
        proof {
            assert(items.skip(start).take(it.position() - start) =~= items.skip(start));
        }
        r
    }
}

/// What an image holds: its layers by their views, the black level and the largest level.
pub struct ImageModel {
    pub l: (Seq<u16>, usize, usize),
    pub r: (Seq<u16>, usize, usize),
    pub g: (Seq<u16>, usize, usize),
    pub b: (Seq<u16>, usize, usize),
    pub zero: i32,
    pub max_value: u16,
}

/// The view of an empty layer.
pub open spec fn empty_layer() -> (Seq<u16>, usize, usize) {
    (Seq::<u16>::empty(), 0usize, 0usize)
}

/// An image: either monochrome (layer `l`) or color (layers `r`, `g`, `b`), with the
/// level of a black pixel and the largest level a pixel can have.
pub struct Image {
    pub r: ImageLayer<u16>,
    pub g: ImageLayer<u16>,
    pub b: ImageLayer<u16>,
    pub l: ImageLayer<u16>,
    pub zero: i32,
    pub max_value: u16,
}

impl Image {
    /// The four layers, the black level and the largest level.
    pub open spec fn model(&self) -> ImageModel {
        ImageModel { l: self.l@, r: self.r@, g: self.g@, b: self.b@, zero: self.zero, max_value: self.max_value }
    }

    /// Level of a black pixel.
    pub open spec fn zero_level(&self) -> i32 {
        self.zero
    }

    /// Largest level a pixel can have.
    pub open spec fn max_level(&self) -> u16 {
        self.max_value
    }

    /// The color layers are well formed and of one size.
    pub open spec fn rgb_wf(&self) -> bool {
        &&& self.r.wf()
        &&& self.g.wf()
        &&& self.b.wf()
        &&& self.g@.1 == self.r@.1 && self.b@.1 == self.r@.1
        &&& self.g@.2 == self.r@.2 && self.b@.2 == self.r@.2
    }

    /// The color layers reduced `n` times, as triples.
    pub open spec fn rgb_reduced(&self, n: int) -> Seq<(u16, u16, u16)> {
        let r = reduced(self.r@.0, self.r@.1 as int, self.r@.2 as int, n);
        let g = reduced(self.g@.0, self.g@.1 as int, self.g@.2 as int, n);
        let b = reduced(self.b@.0, self.b@.1 as int, self.b@.2 as int, n);
        Seq::new(r.len(), |i: int| (r[i], g[i], b[i]))
    }

    pub fn new_empty() -> (res: Self)
        ensures
            res.l@ == (Seq::<u16>::empty(), 0usize, 0usize),
            res.r@ == (Seq::<u16>::empty(), 0usize, 0usize),
            res.g@ == (Seq::<u16>::empty(), 0usize, 0usize),
            res.b@ == (Seq::<u16>::empty(), 0usize, 0usize),
            res.zero_level() == 0,
            res.max_level() == 0,
    {
        Self {
            l: ImageLayer::new_empty(),
            r: ImageLayer::new_empty(),
            g: ImageLayer::new_empty(),
            b: ImageLayer::new_empty(),
            zero: 0,
            max_value: 0,
        }
    }

    /// Makes the image a color one of the given size; the luminance layer is emptied.
    pub fn make_color(&mut self, width: usize, height: usize, zero: i32, max_value: u16)
        requires
            width * height <= usize::MAX,
        ensures
            final(self).l@ == (Seq::<u16>::empty(), 0usize, 0usize),
            final(self).r@ == (resized(old(self).r@.0, (width * height) as int), width, height),
            final(self).g@ == (resized(old(self).g@.0, (width * height) as int), width, height),
            final(self).b@ == (resized(old(self).b@.0, (width * height) as int), width, height),
            final(self).zero_level() == zero,
            final(self).max_level() == max_value,
    {
        self.l.clear();
        self.r.resize(width, height);
        self.g.resize(width, height);
        self.b.resize(width, height);
        self.zero = zero;
        self.max_value = max_value;
    }

    /// Makes the image a monochrome one of the given size; the color layers are emptied.
    pub fn make_monochrome(&mut self, width: usize, height: usize, zero: i32, max_value: u16)
        requires
            width * height <= usize::MAX,
        ensures
            final(self).l@ == (resized(old(self).l@.0, (width * height) as int), width, height),
            final(self).r@ == (Seq::<u16>::empty(), 0usize, 0usize),
            final(self).g@ == (Seq::<u16>::empty(), 0usize, 0usize),
            final(self).b@ == (Seq::<u16>::empty(), 0usize, 0usize),
            final(self).zero_level() == zero,
            final(self).max_level() == max_value,
    {
        self.l.resize(width, height);
        self.r.clear();
        self.g.clear();
        self.b.clear();
        self.zero = zero;
        self.max_value = max_value;
    }

    pub fn clear(&mut self)
        ensures
            final(self).l@ == (Seq::<u16>::empty(), 0usize, 0usize),
            final(self).r@ == (Seq::<u16>::empty(), 0usize, 0usize),
            final(self).g@ == (Seq::<u16>::empty(), 0usize, 0usize),
            final(self).b@ == (Seq::<u16>::empty(), 0usize, 0usize),
            final(self).zero_level() == 0,
            final(self).max_level() == 0,
    {
        self.l.clear();
        self.r.clear();
        self.g.clear();
        self.b.clear();
        self.zero = 0;
        self.max_value = 0;
    }

    pub open spec fn layer_empty(l: (Seq<u16>, usize, usize)) -> bool {
        l.1 == 0 && l.2 == 0
    }

    pub fn is_empty(&self) -> (r: bool)
        ensures
            r == (Self::layer_empty(self.l@) && Self::layer_empty(self.r@) && Self::layer_empty(
                self.g@,
            ) && Self::layer_empty(self.b@)),
    {
        self.l.is_empty() && self.r.is_empty() && self.g.is_empty() && self.b.is_empty()
    }

    pub fn is_color(&self) -> (r: bool)
        ensures
            r == (Self::layer_empty(self.l@) && !Self::layer_empty(self.r@) && !Self::layer_empty(
                self.g@,
            ) && !Self::layer_empty(self.b@)),
    {
        self.l.is_empty() && !self.r.is_empty() && !self.g.is_empty() && !self.b.is_empty()
    }

    pub fn is_monochrome(&self) -> (r: bool)
        ensures
            r == (!Self::layer_empty(self.l@) && Self::layer_empty(self.r@) && Self::layer_empty(
                self.g@,
            ) && Self::layer_empty(self.b@)),
    {
        !self.l.is_empty() && self.r.is_empty() && self.g.is_empty() && self.b.is_empty()
    }

    /// Width of the luminance layer, or of the red one where that is zero.
    pub fn width(&self) -> (r: usize)
        ensures
            r == (if self.l@.1 != 0 { self.l@.1 } else { self.r@.1 }),
    {
        if self.l.width() != 0 {
            self.l.width()
        } else {
            self.r.width()
        }
    }

    /// Height of the luminance layer, or of the red one where that is zero.
    pub fn height(&self) -> (r: usize)
        ensures
            r == (if self.l@.2 != 0 { self.l@.2 } else { self.r@.2 }),
    {
        if self.l.height() != 0 {
            self.l.height()
        } else {
            self.r.height()
        }
    }

    pub fn iter_div2_l(&self) -> (r: DivNLIterator<'_, 2>)
        requires
            self.l.wf(),
        ensures
            r.inv(),
            r.position() == 0,
            r.items() == reduced(self.l@.0, self.l@.1 as int, self.l@.2 as int, 2),
    {
        self.l.iter_div2()
    }

    pub fn iter_div3_l(&self) -> (r: DivNLIterator<'_, 3>)
        requires
            self.l.wf(),
        ensures
            r.inv(),
            r.position() == 0,
            r.items() == reduced(self.l@.0, self.l@.1 as int, self.l@.2 as int, 3),
    {
        self.l.iter_div3()
    }

    pub fn iter_div4_l(&self) -> (r: DivNLIterator<'_, 4>)
        requires
            self.l.wf(),
        ensures
            r.inv(),
            r.position() == 0,
            r.items() == reduced(self.l@.0, self.l@.1 as int, self.l@.2 as int, 4),
    {
        self.l.iter_div4()
    }

    pub fn iter_div2_rgb(&self) -> (r: DivNRGBIterator<'_, 2>)
        requires
            self.rgb_wf(),
        ensures
            r.inv(),
            r.position() == 0,
            r.items() == self.rgb_reduced(2),
    {
        DivNRGBIterator::new(self)
    }

    pub fn iter_div3_rgb(&self) -> (r: DivNRGBIterator<'_, 3>)
        requires
            self.rgb_wf(),
        ensures
            r.inv(),
            r.position() == 0,
            r.items() == self.rgb_reduced(3),
    {
        DivNRGBIterator::new(self)
    }

    pub fn iter_div4_rgb(&self) -> (r: DivNRGBIterator<'_, 4>)
        requires
            self.rgb_wf(),
        ensures
            r.inv(),
            r.position() == 0,
            r.items() == self.rgb_reduced(4),
    {
        DivNRGBIterator::new(self)
    }

    pub fn max_value(&self) -> (r: u16)
        ensures
            r == self.max_level(),
    {
        self.max_value
    }

    pub fn set_max_value(&mut self, max_value: u16)
        ensures
            final(self).max_level() == max_value,
            final(self).zero_level() == old(self).zero_level(),
            final(self).l == old(self).l,
            final(self).r == old(self).r,
            final(self).g == old(self).g,
            final(self).b == old(self).b,
    {
        self.max_value = max_value;
    }
}

} // verus!
