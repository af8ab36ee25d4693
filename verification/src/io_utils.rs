use vstd::prelude::*;

use crate::number::{nat_digits, u64_digits};
use crate::text::{str_chars, string_from_chars};

verus! {

/// Placeholder of a file name mask that the sequence number replaces.
pub open spec fn num_placeholder() -> Seq<char> {
    "${num}"@
}

/// Every occurrence of `pat` (not empty) in `s` replaced by `rep`, scanning from the
/// start and going on after each replaced one.
pub open spec fn replace_all(s: Seq<char>, pat: Seq<char>, rep: Seq<char>) -> Seq<char>
    decreases s.len(),
{
    if pat.len() == 0 || s.len() < pat.len() {
        s
    } else if s.take(pat.len() as int) == pat {
        rep + replace_all(s.skip(pat.len() as int), pat, rep)
    } else {
        seq![s[0]] + replace_all(s.skip(1), pat, rep)
    }
}

/// Decimal digits of `n`, padded with zeros in front to four.
pub open spec fn pad4(n: nat) -> Seq<char> {
    let d = nat_digits(n);
    if d.len() >= 4 {
        d
    } else {
        Seq::new((4 - d.len()) as nat, |i: int| '0') + d
    }
}

/// The file name of number `n`: the placeholder of the mask replaced by `pad4(n)`.
pub open spec fn numbered_name(mask: Seq<char>, n: nat) -> Seq<char> {
    replace_all(mask, num_placeholder(), pad4(n))
}

proof fn lemma_nat_digits_len(n: nat)
    ensures
        nat_digits(n).len() >= 1,
    decreases n,
{
    if n >= 10 {
        lemma_nat_digits_len(n / 10);
    }
}

/// `format!("{:04}", n)`.
fn pad4_chars(n: u32) -> (r: Vec<char>)
    ensures
        r@ == pad4(n as nat),
{
    let d = u64_digits(n as u64);
    let mut r: Vec<char> = Vec::new();
    let mut k = d.len();
    while k < 4
        invariant
            d@ == nat_digits(n as nat),
            d@.len() <= k,
            k > 4 ==> k == d@.len(),
            r@ == Seq::new((k - d@.len()) as nat, |i: int| '0'),
        decreases 4 - k,
    {
        r.push('0');
        k = k + 1;
        proof {
            assert(r@ =~= Seq::new((k - d@.len()) as nat, |i: int| '0'));
        }
    }
    let mut i: usize = 0;
    let ghost pre = r@;
    while i < d.len()
        invariant
            i <= d@.len(),
            r@ == pre + d@.take(i as int),
        decreases d@.len() - i,
    {
        r.push(d[i]);
        i = i + 1;
        proof {
            assert(r@ =~= pre + d@.take(i as int));
        }
    }
    proof {
        assert(d@.take(d@.len() as int) =~= d@);
        if d@.len() >= 4 {
            assert(pre =~= Seq::<char>::empty());
            assert(r@ =~= d@);
        }
    }
    r
}

/// `s` has `pat` at `i`.
fn matches_at(s: &Vec<char>, i: usize, pat: &Vec<char>) -> (r: bool)
    requires
        i + pat@.len() <= s@.len(),
    ensures
        r == (s@.skip(i as int).take(pat@.len() as int) == pat@),
{
    let sl = s.len();
    let mut k: usize = 0;
    while k < pat.len()
        invariant
            sl == s@.len(),
            i + pat@.len() <= s@.len(),
            k <= pat@.len(),
            forall|j: int| 0 <= j < k ==> s@[i + j] == pat@[j],
        decreases pat@.len() - k,
    {
        if s[i + k] != pat[k] {
            proof {
                assert(s@.skip(i as int).take(pat@.len() as int)[k as int] != pat@[k as int]);
            }
            return false;
        }
        k = k + 1;
    }
    proof {
        assert(s@.skip(i as int).take(pat@.len() as int) =~= pat@);
    }
    true
}

/// `str::replace` for a pattern that is not empty.
fn replace_chars(s: &Vec<char>, pat: &Vec<char>, rep: &Vec<char>) -> (r: Vec<char>)
    requires
        pat@.len() > 0,
    ensures
        r@ == replace_all(s@, pat@, rep@),
{
    let mut out: Vec<char> = Vec::new();
    let mut i: usize = 0;
    let n = s.len();
    proof {
        assert(s@.skip(0) =~= s@);
        assert(out@ + s@ =~= s@);
    }
    while i < n
        invariant
            n == s@.len(),
            pat@.len() > 0,
            i <= n,
            out@ + replace_all(s@.skip(i as int), pat@, rep@) == replace_all(s@, pat@, rep@),
        decreases n - i,
    {
        let ghost rest = s@.skip(i as int);
        if n - i >= pat.len() && matches_at(s, i, pat) {
            proof {
                assert(rest.take(pat@.len() as int) == pat@);
                assert(rest.skip(pat@.len() as int) =~= s@.skip(i + pat@.len()));
                assert(out@ + rep@ + replace_all(s@.skip(i + pat@.len()), pat@, rep@) =~= out@ + (
                rep@ + replace_all(rest.skip(pat@.len() as int), pat@, rep@)));
            }
            let mut k: usize = 0;
            let ghost out0 = out@;
            while k < rep.len()
                invariant
                    k <= rep@.len(),
                    out@ == out0 + rep@.take(k as int),
                decreases rep@.len() - k,
            {
                out.push(rep[k]);
                k = k + 1;
                proof {
                    assert(out@ =~= out0 + rep@.take(k as int));
                }
            }
            proof {
                assert(rep@.take(rep@.len() as int) =~= rep@);
            }
            i = i + pat.len();
        } else {
            proof {
                if rest.len() >= pat@.len() {
                    assert(rest.take(pat@.len() as int) != pat@);
                }
                assert(rest.skip(1) =~= s@.skip(i + 1));
                assert(out@.push(s@[i as int]) + replace_all(s@.skip(i + 1), pat@, rep@) =~= out@ + (
                seq![rest[0]] + replace_all(rest.skip(1), pat@, rep@)));
            }
            out.push(s[i]);
            i = i + 1;
        }
    }
    proof {
        assert(s@.skip(n as int) =~= Seq::<char>::empty());
        assert(out@ + Seq::<char>::empty() =~= out@);
    }
    out
}

/// `is_taken` reported the file name of number `k` taken.
pub open spec fn reported_taken<F: Fn(&String) -> bool>(is_taken: F, mask: Seq<char>, k: int) -> bool {
    exists|s: &String| s@ == numbered_name(mask, k as nat) && #[trigger] is_taken.ensures((s,), true)
}

/// What `generate` gives, starting from number `from` and leaving the number at `to`:
/// the name of number `to - 1`, every number tried before it reported taken and it not;
/// or none once the numbers ran out.
pub open spec fn generated<F: Fn(&String) -> bool>(from: u32, to: u32, mask: Seq<char>, is_taken: F, r: Option<String>) -> bool {
    &&& from <= to
    &&& r matches Some(name) ==> from < to && name@ == numbered_name(mask, (to - 1) as nat)
    &&& r is None ==> to == u32::MAX
    &&& forall|k: int| from <= k < to && (r is Some ==> k < to - 1) ==> #[trigger] reported_taken(is_taken, mask, k)
    &&& r matches Some(name) ==> is_taken.ensures((&name,), false)
}

/// After `clear`, as after `new`, `generate` starts again from number 1: what it gives
/// with a checker is what a new generator gives with it, the first name from `0001` on
/// that the checker does not report taken.
pub proof fn lemma_generate_after_clear<F: Fn(&String) -> bool>(
    cleared: SeqFileNameGen,
    fresh: SeqFileNameGen,
    mask: Seq<char>,
    is_taken: F,
    to: u32,
    r: Option<String>,
)
    requires
        cleared.next_num() == 1,
        fresh.next_num() == 1,
    ensures
        generated(cleared.next_num(), to, mask, is_taken, r) == generated(fresh.next_num(), to, mask, is_taken, r),
        generated(cleared.next_num(), to, mask, is_taken, r) && r is Some ==> ({
            &&& r->0@ == numbered_name(mask, (to - 1) as nat)
            &&& forall|k: int| 1 <= k < to - 1 ==> #[trigger] reported_taken(is_taken, mask, k)
        }),
{
}

/// Gives file names numbered one after the other (`0001`, `0002`, ...), skipping those
/// that are taken.
pub struct SeqFileNameGen {
    last_num: u32,
}

/// A cleared generator is in the very state of a new one, so from then on it gives the
/// names a new one gives.
pub proof fn lemma_cleared_is_new(cleared: SeqFileNameGen, fresh: SeqFileNameGen)
    requires
        cleared.next_num() == 1,
        fresh.next_num() == 1,
    ensures
        cleared == fresh,
{
}

impl SeqFileNameGen {
    /// The number the next file name is tried with.
    pub closed spec fn next_num(&self) -> u32 {
        self.last_num
    }

    pub fn new() -> (r: Self)
        ensures
            r.next_num() == 1,
    {
        Self { last_num: 1 }
    }

    /// Starts again from number 1.
    pub fn clear(&mut self)
        ensures
            final(self).next_num() == 1,
    {
        self.last_num = 1;
    }

    /// The first file name of the mask, from the current number on, that `is_taken`
    /// does not report taken; the number moves past every name tried. `None` when the
    /// numbers run out (the largest one is never tried).
    pub fn generate<F: Fn(&String) -> bool>(&mut self, file_mask: &str, is_taken: F) -> (r: Option<
        String,
    >)
        requires
            forall|s: &String| is_taken.requires((s,)),
        ensures
            generated(old(self).next_num(), final(self).next_num(), file_mask@, is_taken, r),
    {
        let mask = str_chars(file_mask);
        proof {
            reveal_strlit("${num}");
        }
        let pat = str_chars("${num}");
        let ghost start = self.last_num;
        while self.last_num < u32::MAX
            invariant
                forall|s: &String| is_taken.requires((s,)),
                mask@ == file_mask@,
                pat@ == num_placeholder(),
                pat@.len() > 0,
                start == old(self).last_num,
                start <= self.last_num,
                forall|k: int|
                    start <= k < self.last_num ==> #[trigger] reported_taken(is_taken, file_mask@, k),
            decreases u32::MAX - self.last_num,
        {
            let num = pad4_chars(self.last_num);
            let name_chars = replace_chars(&mask, &pat, &num);
            let name = string_from_chars(name_chars.as_slice());
            let taken = is_taken(&name);
            self.last_num = self.last_num + 1;
            if !taken {
                return Some(name);
            }
        }
        None
    }
}

} // verus!
