use vstd::prelude::*;

verus! {

/// Weights of a first-order low-pass filter, in 256ths: `a0` for the new sample, `b0` for
/// the previous output.
pub struct IirFilterCoeffs {
    a0: u32,
    b0: u32,
}

impl IirFilterCoeffs {
    pub closed spec fn weights(&self) -> (int, int) {
        (self.a0 as int, self.b0 as int)
    }

    pub fn new(b0: u32) -> (r: IirFilterCoeffs)
        requires
            b0 <= 256,
        ensures
            r.weights() == (256 - b0, b0 as int),
    {
        IirFilterCoeffs { a0: 256 - b0, b0 }
    }
}

/// One step of the filter: the weighted mean of the sample and the previous output
/// (the sample itself at the start), rounded.
pub open spec fn filter_step(a0: int, b0: int, prev: Option<int>, x: int) -> int {
    let y = match prev {
        Some(p) => p,
        None => x,
    };
    (a0 * x + b0 * y + 128) / 256
}

/// Outputs of the filter run over `s` from the start, for the first `k` samples.
pub open spec fn forward(s: Seq<u16>, a0: int, b0: int, k: int) -> int
    decreases k,
{
    if k <= 1 {
        filter_step(a0, b0, None, s[0] as int)
    } else {
        filter_step(a0, b0, Some(forward(s, a0, b0, k - 1)), s[k - 1] as int)
    }
}

/// Output of the filter run over `s` from the end, at sample `i`.
pub open spec fn backward(s: Seq<u16>, a0: int, b0: int, i: int) -> int
    decreases s.len() - i,
{
    if i >= s.len() - 1 {
        filter_step(a0, b0, None, s[i] as int)
    } else {
        filter_step(a0, b0, Some(backward(s, a0, b0, i + 1)), s[i] as int)
    }
}

/// The filter run both ways over `s`: at each sample the mean of the two outputs.
pub open spec fn filtered_both_ways(s: Seq<u16>, a0: int, b0: int) -> Seq<u16> {
    Seq::new(s.len(), |i: int| ((forward(s, a0, b0, i + 1) + backward(s, a0, b0, i)) / 2) as u16)
}

proof fn lemma_step_bound(a0: int, b0: int, p: int, x: int)
    requires
        a0 >= 0,
        b0 >= 0,
        a0 + b0 == 256,
        0 <= p <= 65535,
        0 <= x <= 65535,
    ensures
        0 <= filter_step(a0, b0, Some(p), x) <= 65535,
        0 <= filter_step(a0, b0, None, x) <= 65535,
        a0 * x + b0 * p + 128 <= 256 * 65535 + 128,
{
    assert(a0 * x + b0 * p <= 256 * 65535) by (nonlinear_arith)
        requires a0 >= 0, b0 >= 0, a0 + b0 == 256, 0 <= p <= 65535, 0 <= x <= 65535;
    assert(a0 * x + b0 * x == 256 * x) by (nonlinear_arith)
        requires a0 + b0 == 256;
    assert(0 <= a0 * x + b0 * p) by (nonlinear_arith)
        requires a0 >= 0, b0 >= 0, 0 <= p, 0 <= x;
}

proof fn lemma_forward_bound(s: Seq<u16>, a0: int, b0: int, k: int)
    requires
        a0 >= 0,
        b0 >= 0,
        a0 + b0 == 256,
        1 <= k <= s.len(),
    ensures
        0 <= forward(s, a0, b0, k) <= 65535,
    decreases k,
{
    if k > 1 {
        lemma_forward_bound(s, a0, b0, k - 1);
        lemma_step_bound(a0, b0, forward(s, a0, b0, k - 1), s[k - 1] as int);
    } else {
        lemma_step_bound(a0, b0, 0, s[0] as int);
    }
}

proof fn lemma_backward_bound(s: Seq<u16>, a0: int, b0: int, i: int)
    requires
        a0 >= 0,
        b0 >= 0,
        a0 + b0 == 256,
        0 <= i < s.len(),
    ensures
        0 <= backward(s, a0, b0, i) <= 65535,
    decreases s.len() - i,
{
    if i < s.len() - 1 {
        lemma_backward_bound(s, a0, b0, i + 1);
        lemma_step_bound(a0, b0, backward(s, a0, b0, i + 1), s[i] as int);
    } else {
        lemma_step_bound(a0, b0, 0, s[i] as int);
    }
}

/// A first-order low-pass filter over 16-bit samples.
pub struct IirFilter {
    y0: Option<u32>,
}

impl IirFilter {
    /// The previous output, none at the start.
    pub closed spec fn previous(&self) -> Option<u32> {
        self.y0
    }

    pub fn new() -> (r: Self)
        ensures
            r.previous() is None,
    {
        Self { y0: None }
    }

    /// Filters one sample (see `filter_step`).
    pub fn filter(&mut self, coeffs: &IirFilterCoeffs, x: u32) -> (r: u32)
        requires
            coeffs.weights().0 + coeffs.weights().1 == 256,
            coeffs.weights().0 * x + coeffs.weights().1 * (match old(self).previous() {
                Some(p) => p,
                None => x,
            }) + 128 <= u32::MAX,
        ensures
            r == filter_step(
                coeffs.weights().0,
                coeffs.weights().1,
                match old(self).previous() {
                    Some(p) => Some(p as int),
                    None => None,
                },
                x as int,
            ),
            x <= 65535 && (old(self).previous() matches Some(p) ==> p <= 65535) ==> r <= 65535,
            final(self).previous() == Some(r),
    {
        let y = match self.y0 {
            Some(p) => p,
            None => x,
        };
        proof {
            if x <= 65535 && y <= 65535 {
                lemma_step_bound(coeffs.a0 as int, coeffs.b0 as int, y as int, x as int);
            }
        }
        let v = coeffs.a0 * x + coeffs.b0 * y + 128;
        let result = v >> 8;
        proof {
            assert(v >> 8 == v / 256) by (bit_vector);
        }
        self.y0 = Some(result);
        result
    }

    /// Runs the filter from the start of `src` and then from its end, and leaves in `dst`
    /// the mean of the two outputs at each sample (see `filtered_both_ways`).
    pub fn filter_direct_and_revert_u16(&mut self, coeffs: &IirFilterCoeffs, src: &[u16], dst: &mut [u16])
        requires
            coeffs.weights().0 + coeffs.weights().1 == 256,
            old(dst)@.len() == src@.len(),
        ensures
            final(dst)@ == filtered_both_ways(src@, coeffs.weights().0, coeffs.weights().1),
            final(self).previous() matches Some(p) ==> p <= 65535,
    {
        let ghost (a0, b0) = coeffs.weights();
        let n = src.len();
        self.y0 = None;
        let mut i: usize = 0;
        while i < n
            invariant
                coeffs.weights() == (a0, b0),
                a0 + b0 == 256,
                n == src@.len(),
                dst@.len() == n,
                i <= n,
                i == 0 ==> self.y0 is None,
                i > 0 ==> self.y0 == Some(forward(src@, a0, b0, i as int) as u32),
                self.y0 matches Some(p) ==> p <= 65535,
                forall|j: int| 0 <= j < i ==> #[trigger] dst@[j] == forward(src@, a0, b0, j + 1),
            decreases n - i,
        {
            proof {
                if i > 0 {
                    lemma_forward_bound(src@, a0, b0, i as int);
                }
                lemma_forward_bound(src@, a0, b0, i + 1);
            }
            let res = self.filter(coeffs, src[i] as u32);
            dst[i] = res as u16;
            i = i + 1;
        }
        self.y0 = None;
        let mut k: usize = 0;
        while k < n
            invariant
                coeffs.weights() == (a0, b0),
                a0 + b0 == 256,
                n == src@.len(),
                dst@.len() == n,
                k <= n,
                k == 0 ==> self.y0 is None,
                k > 0 ==> self.y0 == Some(backward(src@, a0, b0, n - k) as u32),
                self.y0 matches Some(p) ==> p <= 65535,
                forall|j: int| 0 <= j < n - k ==> #[trigger] dst@[j] == forward(src@, a0, b0, j + 1),
                forall|j: int| n - k <= j < n ==> #[trigger] dst@[j] == filtered_both_ways(src@, a0, b0)[j],
            decreases n - k,
        {
            let i = n - 1 - k;
            proof {
                if k > 0 {
                    lemma_backward_bound(src@, a0, b0, i + 1);
                }
                lemma_backward_bound(src@, a0, b0, i as int);
                lemma_forward_bound(src@, a0, b0, i + 1);
            }
            let back = self.filter(coeffs, src[i] as u32);
            let res = (back + dst[i] as u32) / 2;
            dst[i] = res as u16;
            k = k + 1;
        }
        proof {
            assert(dst@ =~= filtered_both_ways(src@, a0, b0));
        }
    }
}

} // verus!
