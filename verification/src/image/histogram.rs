use vstd::prelude::*;

use crate::image::image::{Image, ImageLayer};
use crate::image::raw::{color_freq, lemma_color_total_bound, CfaColor, CfaType, RawImage};

verus! {

/// How many of the samples at `0, step, 2 * step, ...` before `k` have level `v`.
pub open spec fn level_count(d: Seq<u16>, step: int, v: int, k: int) -> int
    decreases k,
{
    if k <= 0 {
        0
    } else {
        level_count(d, step, v, k - 1) + if (k - 1) % step == 0 && d[k - 1] == v {
            1int
        } else {
            0
        }
    }
}

/// A count of levels is at most the number of samples looked at.
pub proof fn lemma_level_count_bound(d: Seq<u16>, step: int, v: int, k: int)
    ensures
        0 <= level_count(d, step, v, k) <= (if k > 0 { k } else { 0 }),
    decreases k,
{
    if k > 0 {
        lemma_level_count_bound(d, step, v, k - 1);
    }
}

/// Sum of the first `k` counts.
pub open spec fn counts_sum(freq: Seq<u32>, k: int) -> int
    decreases k,
{
    if k <= 0 {
        0
    } else {
        counts_sum(freq, k - 1) + freq[k - 1] as int
    }
}

/// The level of the `n`-th sample (from 0) in level order, looking from level `idx` on;
/// 65535 when there are not that many.
pub open spec fn nth_level(freq: Seq<u32>, n: int, idx: int) -> int
    decreases freq.len() - idx,
{
    if idx >= freq.len() || idx < 0 {
        65535
    } else if n < freq[idx] as int {
        idx
    } else {
        nth_level(freq, n - freq[idx] as int, idx + 1)
    }
}

/// Counts of each level among the samples at `0, step, 2 * step, ...`.
pub open spec fn step_freq(d: Seq<u16>, step: int) -> Seq<u32> {
    Seq::new(65536, |v: int| level_count(d, step, v, d.len() as int) as u32)
}

/// Counts of each level among all samples.
pub open spec fn level_freq(d: Seq<u16>) -> Seq<u32> {
    step_freq(d, 1)
}

/// Counts cut or extended with zeros to the levels `0..=max_value`.
pub open spec fn fitted(freq: Seq<u32>, max_value: u16) -> Seq<u32> {
    Seq::new((max_value + 1) as nat, |i: int| if i < freq.len() { freq[i] } else { 0u32 })
}

/// `ch` is a channel that holds `freq` fitted to `max_value`, and their total.
pub open spec fn chan_of(ch: Option<HistogramChan>, freq: Seq<u32>, max_value: u16) -> bool {
    &&& ch matches Some(c)
    &&& c.freq@ == fitted(freq, max_value)
    &&& c.count == counts_sum(fitted(freq, max_value), max_value + 1)
}

/// Counts of the levels of one channel, and their total.
pub struct HistogramChan {
    pub count: usize,
    pub freq: Vec<u32>,
}

/// Counts of each level among the samples at `0, step, 2 * step, ...`.
pub fn freq_from_slice(data: &[u16], step: usize) -> (r: Vec<u32>)
    requires
        step >= 1,
        data@.len() <= u32::MAX,
    ensures
        r@.len() == 65536,
        forall|v: int| 0 <= v < 65536 ==> #[trigger] r@[v] == level_count(data@, step as int, v, data@.len() as int),
        r@ == step_freq(data@, step as int),
        counts_sum(r@, 65536) <= data@.len(),
{
    let mut res: Vec<u32> = Vec::new();
    res.resize(65536, 0u32);
    let n = data.len();
    let mut i: usize = 0;
    proof {
        assert forall|v: int| 0 <= v < 65536 implies #[trigger] res@[v] == level_count(data@, step as int, v, 0) by {}
        lemma_counts_sum_zero(res@, 65536);
    }
    while i < n
        invariant
            step >= 1,
            n == data@.len(),
            n <= u32::MAX,
            res@.len() == 65536,
            i <= n,
            forall|v: int| 0 <= v < 65536 ==> #[trigger] res@[v] == level_count(data@, step as int, v, i as int),
            forall|v: int| 0 <= v < 65536 ==> #[trigger] res@[v] <= i,
            counts_sum(res@, 65536) <= i,
        decreases n - i,
    {
        proof {
            assert forall|v: int| 0 <= v < 65536 implies #[trigger] level_count(data@, step as int, v, i + 1) == level_count(data@, step as int, v, i as int) + if (i as int) % (step as int) == 0 && data@[i as int] == v {
                1int
            } else {
                0
            } by {}
        }
        if i % step == 0 {
            let v = data[i] as usize;
            let c = res[v];
            proof {
                lemma_counts_sum_update(res@, v as int, 65536);
            }
            res.set(v, c + 1);
        }
        i = i + 1;
    }
    proof {
        assert(res@ =~= step_freq(data@, step as int));
    }
    res
}

impl HistogramChan {
    pub fn new() -> (r: Self)
        ensures
            r.count == 0,
            r.freq@ == Seq::<u32>::empty(),
    {
        Self { count: 0, freq: Vec::new() }
    }

    /// Takes counts cut or extended with zeros to the levels `0..=max_value`, and their
    /// total.
    pub fn take_from_freq(&mut self, freq: Vec<u32>, max_value: u16)
        requires
            counts_sum(fitted(freq@, max_value), max_value + 1) <= u32::MAX,
        ensures
            final(self).freq@ == fitted(freq@, max_value),
            final(self).count == counts_sum(final(self).freq@, max_value + 1),
    {
        let mut freq = freq;
        let ghost f0 = freq@;
        let len = max_value as usize + 1;
        if freq.len() > len {
            freq.truncate(len);
        } else {
            freq.resize(len, 0u32);
        }
        proof {
            assert(freq@ =~= fitted(f0, max_value));
        }
        let mut total: u32 = 0;
        let mut i: usize = 0;
        while i < len
            invariant
                len == freq@.len(),
                len == max_value + 1,
                counts_sum(freq@, len as int) <= u32::MAX,
                i <= len,
                total == counts_sum(freq@, i as int),
            decreases len - i,
        {
            proof {
                lemma_counts_sum_grows(freq@, i + 1, len as int);
            }
            total = total + freq[i];
            i = i + 1;
        }
        self.freq = freq;
        self.count = total as usize;
    }

    /// The level of the `n`-th sample (from 0) in level order (see `nth_level`).
    pub fn get_nth_element(&self, nth: usize) -> (r: u16)
        requires
            self.freq@.len() <= 65536,
        ensures
            r == nth_level(self.freq@, nth as int, 0),
    {
        let ghost n0 = nth as int;
        let mut n = nth;
        let mut idx: usize = 0;
        let len = self.freq.len();
        while idx < len
            invariant
                len == self.freq@.len(),
                len <= 65536,
                idx <= len,
                n0 == nth,
                nth_level(self.freq@, n as int, idx as int) == nth_level(self.freq@, n0, 0),
            decreases len - idx,
        {
            let v = self.freq[idx] as usize;
            if n < v {
                proof {
                    assert(nth_level(self.freq@, n as int, idx as int) == idx);
                    assert(nth_level(self.freq@, n0, 0) == idx);
                }
                let r = idx as u16;
                proof {
                    assert(r == idx);
                }
                return r;
            }
            n = n - v;
            idx = idx + 1;
        }
        65535
    }

    /// The level of the middle sample.
    pub fn median(&self) -> (r: u16)
        requires
            self.freq@.len() <= 65536,
        ensures
            r == nth_level(self.freq@, self.count as int / 2, 0),
    {
        self.get_nth_element(self.count / 2)
    }

    /// The level under which `n` percent of the samples lie, rounded.
    pub fn get_percentile(&self, n: usize) -> (r: u16)
        requires
            self.freq@.len() <= 65536,
            n * self.count + 50 <= usize::MAX,
        ensures
            r == nth_level(self.freq@, (n * self.count + 50) / 100, 0),
    {
        self.get_nth_element((n * self.count + 50) / 100)
    }
}

/// Histograms of the channels of a frame, with its largest level.
pub struct Histogram {
    pub max: u16,
    pub r: Option<HistogramChan>,
    pub g: Option<HistogramChan>,
    pub b: Option<HistogramChan>,
    pub l: Option<HistogramChan>,
}

/// Step between the samples counted in a layer of `n` samples: odd, about one in three
/// million.
pub open spec fn sample_step(n: usize) -> usize {
    (n / 3000000) | 1
}

/// `ch` is the histogram of a layer: none for an empty layer, else the counts of every
/// `sample_step`-th sample.
pub open spec fn layer_hist(ch: Option<HistogramChan>, layer: (Seq<u16>, usize, usize), max_value: u16) -> bool {
    if layer.1 == 0 && layer.2 == 0 {
        ch is None
    } else {
        chan_of(ch, step_freq(layer.0, sample_step(layer.0.len() as usize) as int), max_value)
    }
}

impl Histogram {
    pub fn new() -> (r: Self)
        ensures
            r.max == 0,
            r.r is None,
            r.g is None,
            r.b is None,
            r.l is None,
    {
        Self { max: 0, r: None, g: None, b: None, l: None }
    }

    /// `chan`, or a new channel, holding the counts `freq`.
    fn chan_from(chan: Option<HistogramChan>, freq: Vec<u32>, max_value: u16) -> (r: Option<HistogramChan>)
        requires
            freq@.len() == 65536,
            counts_sum(freq@, 65536) <= u32::MAX,
        ensures
            chan_of(r, freq@, max_value),
    {
        let mut c = match chan {
            Some(c) => c,
            None => HistogramChan::new(),
        };
        proof {
            lemma_fitted_sum(freq@, max_value);
        }
        c.take_from_freq(freq, max_value);
        Some(c)
    }

    /// Counts the levels of a raw frame: all of them in one channel when it has no
    /// filter or `monochrome` is set, else those of each color apart.
    pub fn from_raw_image(&mut self, img: &RawImage, monochrome: bool)
        requires
            img.wf(),
            img@.0.len() <= u32::MAX,
        ensures
            final(self).max == img.max_level(),
            img.filter() == CfaType::Mono || monochrome ==> {
                &&& chan_of(final(self).l, level_freq(img@.0), img.max_level())
                &&& final(self).r is None
                &&& final(self).g is None
                &&& final(self).b is None
            },
            !(img.filter() == CfaType::Mono || monochrome) ==> {
                &&& final(self).l is None
                &&& chan_of(final(self).r, color_freq(img@.0, img@.1 as int, img.filter(), CfaColor::R), img.max_level())
                &&& chan_of(final(self).g, color_freq(img@.0, img@.1 as int, img.filter(), CfaColor::G), img.max_level())
                &&& chan_of(final(self).b, color_freq(img@.0, img@.1 as int, img.filter(), CfaColor::B), img.max_level())
            },
    {
        let max_value = img.max_value();
        self.max = max_value;
        if img.cfa() == CfaType::Mono || monochrome {
            let freq = freq_from_slice(img.as_slice(), 1);
            let l = self.l.take();
            self.l = Self::chan_from(l, freq, max_value);
            self.r = None;
            self.g = None;
            self.b = None;
        } else {
            let n = img.as_slice().len();
            let rf = img.count_color_levels(CfaColor::R);
            let gf = img.count_color_levels(CfaColor::G);
            let bf = img.count_color_levels(CfaColor::B);
            proof {
                lemma_color_total_bound(img@.1 as int, img.filter(), CfaColor::R, n as int);
                lemma_color_total_bound(img@.1 as int, img.filter(), CfaColor::G, n as int);
                lemma_color_total_bound(img@.1 as int, img.filter(), CfaColor::B, n as int);
            }
            let r = self.r.take();
            let g = self.g.take();
            let b = self.b.take();
            self.r = Self::chan_from(r, rf, max_value);
            self.g = Self::chan_from(g, gf, max_value);
            self.b = Self::chan_from(b, bf, max_value);
            self.l = None;
        }
    }

    /// Histogram of one layer of an image (see `layer_hist`).
    fn from_image_layer(chan: Option<HistogramChan>, layer: &ImageLayer<u16>, max_value: u16) -> (r: Option<
        HistogramChan,
    >)
        requires
            layer@.0.len() <= u32::MAX,
        ensures
            layer_hist(r, layer@, max_value),
    {
        if layer.is_empty() {
            return None;
        }
        let slice = layer.as_slice();
        let n = slice.len();
        let step = (n / 3000000) | 1;
        assert(step >= 1) by (bit_vector)
            requires step == (n / 3000000) | 1;
        let freq = freq_from_slice(slice, step);
        Self::chan_from(chan, freq, max_value)
    }

    /// Counts the levels of each layer of an image that has one (see `layer_hist`).
    pub fn from_image(&mut self, img: &Image)
        requires
            img.l@.0.len() <= u32::MAX,
            img.r@.0.len() <= u32::MAX,
            img.g@.0.len() <= u32::MAX,
            img.b@.0.len() <= u32::MAX,
        ensures
            final(self).max == img.max_level(),
            layer_hist(final(self).l, img.l@, img.max_level()),
            layer_hist(final(self).r, img.r@, img.max_level()),
            layer_hist(final(self).g, img.g@, img.max_level()),
            layer_hist(final(self).b, img.b@, img.max_level()),
    {
        let max_value = img.max_value();
        self.max = max_value;
        let l = self.l.take();
        self.l = Self::from_image_layer(l, &img.l, max_value);
        let r = self.r.take();
        self.r = Self::from_image_layer(r, &img.r, max_value);
        let g = self.g.take();
        self.g = Self::from_image_layer(g, &img.g, max_value);
        let b = self.b.take();
        self.b = Self::from_image_layer(b, &img.b, max_value);
    }

    /// Drops the channels; the largest level stays.
    pub fn clear(&mut self)
        ensures
            final(self).max == old(self).max,
            final(self).r is None,
            final(self).g is None,
            final(self).b is None,
            final(self).l is None,
    {
        self.l = None;
        self.r = None;
        self.g = None;
        self.b = None;
    }
}

proof fn lemma_counts_sum_grows(freq: Seq<u32>, k: int, m: int)
    requires
        0 <= k <= m,
    ensures
        counts_sum(freq, k) <= counts_sum(freq, m),
    decreases m - k,
{
    if k < m {
        lemma_counts_sum_grows(freq, k, m - 1);
    }
}

/// Counts that are all zero sum to zero.
proof fn lemma_counts_sum_zero(f: Seq<u32>, m: int)
    requires
        m <= f.len(),
        forall|i: int| 0 <= i < f.len() ==> f[i] == 0,
    ensures
        counts_sum(f, m) == 0,
    decreases m,
{
    if m > 0 {
        lemma_counts_sum_zero(f, m - 1);
    }
}

/// One more sample of level `v` adds one to the sums that reach past `v`.
pub proof fn lemma_counts_sum_update(f: Seq<u32>, v: int, m: int)
    requires
        0 <= v < f.len(),
        f[v] < u32::MAX,
        0 <= m <= f.len(),
    ensures
        counts_sum(f.update(v, (f[v] + 1) as u32), m) == counts_sum(f, m) + if v < m { 1int } else { 0 },
    decreases m,
{
    if m > 0 {
        lemma_counts_sum_update(f, v, m - 1);
    }
}

/// Sums of counts that agree on their first `m` levels agree.
proof fn lemma_counts_sum_prefix(f: Seq<u32>, g: Seq<u32>, m: int)
    requires
        0 <= m,
        m <= f.len(),
        m <= g.len(),
        forall|i: int| 0 <= i < m ==> f[i] == g[i],
    ensures
        counts_sum(f, m) == counts_sum(g, m),
    decreases m,
{
    if m > 0 {
        lemma_counts_sum_prefix(f, g, m - 1);
    }
}

/// Fitting counts of all levels to fewer levels does not raise their total.
pub proof fn lemma_fitted_sum(freq: Seq<u32>, max_value: u16)
    requires
        freq.len() == 65536,
    ensures
        counts_sum(fitted(freq, max_value), max_value + 1) <= counts_sum(freq, 65536),
{
    lemma_counts_sum_prefix(fitted(freq, max_value), freq, max_value + 1);
    lemma_counts_sum_grows(freq, max_value + 1, 65536);
}

/// Counts that are all zero sum to zero.
pub proof fn lemma_counts_sum_zero_all(f: Seq<u32>)
    requires
        f.len() == 65536,
        forall|i: int| 0 <= i < f.len() ==> f[i] == 0,
    ensures
        counts_sum(f, 65536) == 0,
{
    lemma_counts_sum_zero(f, 65536);
}

} // verus!
