use vstd::prelude::*;

verus! {

/// Value of one character of the base64 alphabet, 255 for a byte outside it.
pub open spec fn sextet_of(b: u8) -> u8 {
    if 65 <= b <= 90 {
        (b - 65) as u8
    } else if 97 <= b <= 122 {
        (b - 97 + 26) as u8
    } else if 48 <= b <= 57 {
        (b - 48 + 52) as u8
    } else if b == 43 {
        62
    } else if b == 47 {
        63
    } else {
        255
    }
}

/// Bit 24 of a non-negative number: it marks a complete group of four sextets.
pub open spec fn bit24_set(v: int) -> bool {
    (v / 0x100_0000) % 2 == 1
}

/// Decoder state `(decoded bytes, bit buffer)` after one more sextet.
pub open spec fn push_sextet(result: Seq<u8>, buffer: u32, idx: u8) -> (Seq<u8>, u32) {
    let nb = (buffer as int * 64) % 0x1_0000_0000 + idx as int;
    if bit24_set(nb) {
        (
            result + seq![((nb / 0x1_0000) % 256) as u8, ((nb / 0x100) % 256) as u8, (nb % 256) as u8],
            1u32,
        )
    } else {
        (result, nb as u32)
    }
}

/// Decoder state `(decoded bytes, bit buffer)` after one more input byte.
pub open spec fn feed_byte(result: Seq<u8>, buffer: u32, b: u8) -> (Seq<u8>, u32) {
    if sextet_of(b) == 255 {
        (result, buffer)
    } else {
        push_sextet(result, buffer, sextet_of(b))
    }
}

/// Decoder state after a whole byte sequence, fed left to right.
pub open spec fn feed_bytes(result: Seq<u8>, buffer: u32, data: Seq<u8>) -> (Seq<u8>, u32)
    decreases data.len(),
{
    if data.len() == 0 {
        (result, buffer)
    } else {
        let prev = feed_bytes(result, buffer, data.drop_last());
        feed_byte(prev.0, prev.1, data.last())
    }
}

/// How many 6-bit shifts bring bit 24 of the buffer up (3 stands for "three or more").
pub open spec fn extra_shifts(buffer: u32) -> int {
    if bit24_set(buffer as int) {
        0
    } else if bit24_set((buffer as int * 64) % 0x1_0000_0000) {
        1
    } else if bit24_set((buffer as int * 4096) % 0x1_0000_0000) {
        2
    } else {
        3
    }
}

/// The pending sextets can be flushed: none are pending, or two or three are.
pub open spec fn can_take_result(buffer: u32) -> bool {
    buffer == 1 || extra_shifts(buffer) == 1 || extra_shifts(buffer) == 2
}

/// Bytes that flushing the pending sextets of `buffer` adds to the result.
pub open spec fn tail_bytes(buffer: u32) -> Seq<u8> {
    if buffer == 1 {
        Seq::empty()
    } else if extra_shifts(buffer) == 1 {
        let v = (buffer as int * 64) % 0x1_0000_0000;
        seq![((v / 0x1_0000) % 256) as u8, ((v / 0x100) % 256) as u8]
    } else {
        let v = (buffer as int * 4096) % 0x1_0000_0000;
        seq![((v / 0x1_0000) % 256) as u8]
    }
}

/// The buffer that flushing leaves behind.
pub open spec fn buffer_after_take(buffer: u32) -> u32 {
    if buffer == 1 {
        1
    } else if extra_shifts(buffer) == 1 {
        ((buffer as int * 64) % 0x1_0000_0000) as u32
    } else {
        ((buffer as int * 4096) % 0x1_0000_0000) as u32
    }
}

// ---------------------------------------------------------------------------
// Base64 as a mathematical decoding of a whole text.

/// The alphabet characters of `data`, as sextet values, in order.
pub open spec fn sextets(data: Seq<u8>) -> Seq<u8>
    decreases data.len(),
{
    if data.len() == 0 {
        Seq::empty()
    } else if sextet_of(data.last()) == 255 {
        sextets(data.drop_last())
    } else {
        sextets(data.drop_last()).push(sextet_of(data.last()))
    }
}

/// The three bytes that four sextets stand for.
pub open spec fn group_bytes(a: u8, b: u8, c: u8, d: u8) -> Seq<u8> {
    let v = a as int * 0x4_0000 + b as int * 0x1000 + c as int * 64 + d as int;
    seq![(v / 0x1_0000) as u8, ((v / 0x100) % 256) as u8, (v % 256) as u8]
}

/// Decoding of complete groups of four sextets.
pub open spec fn decode_groups(s: Seq<u8>) -> Seq<u8>
    decreases s.len(),
{
    if s.len() < 4 {
        Seq::empty()
    } else {
        let n = s.len() as int;
        decode_groups(s.take(n - 4)) + group_bytes(s[n - 4], s[n - 3], s[n - 2], s[n - 1])
    }
}

/// Decoding of an incomplete last group (two or three sextets).
pub open spec fn decode_tail(t: Seq<u8>) -> Seq<u8> {
    if t.len() == 2 {
        seq![(t[0] as int * 4 + t[1] as int / 16) as u8]
    } else if t.len() == 3 {
        seq![
            (t[0] as int * 4 + t[1] as int / 16) as u8,
            ((t[1] as int % 16) * 16 + t[2] as int / 4) as u8,
        ]
    } else {
        Seq::empty()
    }
}

/// Base64 decoding of a text: characters outside the alphabet (padding too) are skipped.
pub open spec fn base64_decode(data: Seq<u8>) -> Seq<u8> {
    let s = sextets(data);
    let full = s.len() - s.len() % 4;
    decode_groups(s.take(full)) + decode_tail(s.skip(full))
}

/// Number made of base-64 digits, the first one the most significant.
pub open spec fn digits_value(t: Seq<u8>) -> int
    decreases t.len(),
{
    if t.len() == 0 {
        0
    } else {
        digits_value(t.drop_last()) * 64 + t.last() as int
    }
}

pub open spec fn pow64(k: int) -> int {
    if k == 0 {
        1
    } else if k == 1 {
        64
    } else if k == 2 {
        4096
    } else {
        262144
    }
}

proof fn lemma_sextets_small(data: Seq<u8>)
    ensures
        forall|i: int| 0 <= i < sextets(data).len() ==> #[trigger] sextets(data)[i] < 64,
        sextets(data).len() <= data.len(),
    decreases data.len(),
{
    if data.len() > 0 {
        lemma_sextets_small(data.drop_last());
    }
}

proof fn lemma_digits_bound(t: Seq<u8>)
    requires
        forall|i: int| 0 <= i < t.len() ==> #[trigger] t[i] < 64,
    ensures
        0 <= digits_value(t),
        t.len() <= 3 ==> digits_value(t) < pow64(t.len() as int),
    decreases t.len(),
{
    if t.len() > 0 {
        lemma_digits_bound(t.drop_last());
    }
}

proof fn lemma_digits_small(t: Seq<u8>)
    ensures
        t.len() == 1 ==> digits_value(t) == t[0] as int,
        t.len() == 2 ==> digits_value(t) == t[0] as int * 64 + t[1] as int,
        t.len() == 3 ==> digits_value(t) == (t[0] as int * 64 + t[1] as int) * 64 + t[2] as int,
{
    if t.len() >= 1 && t.len() <= 3 {
        let t1 = t.drop_last();
        assert(digits_value(t) == digits_value(t1) * 64 + t.last() as int);
        if t.len() == 1 {
            assert(digits_value(t1) == 0);
        } else {
            let t2 = t1.drop_last();
            assert(digits_value(t1) == digits_value(t2) * 64 + t1.last() as int);
            assert(t1.last() == t[t.len() - 2]);
            if t.len() == 2 {
                assert(digits_value(t2) == 0);
            } else {
                let t3 = t2.drop_last();
                assert(digits_value(t2) == digits_value(t3) * 64 + t2.last() as int);
                assert(t2.last() == t[0]);
                assert(digits_value(t3) == 0);
            }
        }
    }
}

proof fn lemma_group_digits(a: int, b: int, c: int, d: int, val: int)
    requires
        0 <= a < 64,
        0 <= b < 64,
        0 <= c < 64,
        0 <= d < 64,
        val == (a * 64 + b) * 64 + c,
    ensures
        ({
            let nb = 0x100_0000 + val * 64 + d;
            let v = a * 0x4_0000 + b * 0x1000 + c * 64 + d;
            &&& bit24_set(nb)
            &&& (nb / 0x1_0000) % 256 == v / 0x1_0000
            &&& (nb / 0x100) % 256 == (v / 0x100) % 256
            &&& nb % 256 == v % 256
            &&& v / 0x1_0000 < 256
        }),
{
    let v = a * 0x4_0000 + b * 0x1000 + c * 64 + d;
    assert(v == val * 64 + d) by (nonlinear_arith)
        requires
            val == (a * 64 + b) * 64 + c,
            v == a * 0x4_0000 + b * 0x1000 + c * 64 + d;
    assert(0 <= v < 0x100_0000) by (nonlinear_arith)
        requires
            0 <= a < 64,
            0 <= b < 64,
            0 <= c < 64,
            0 <= d < 64,
            v == a * 0x4_0000 + b * 0x1000 + c * 64 + d;
    let nb = 0x100_0000 + v;
    assert(nb / 0x100_0000 == 1);
    assert(nb / 0x1_0000 == 256 + v / 0x1_0000);
    assert(nb / 0x100 == 0x1_0000 + v / 0x100);
}

spec fn feed_inv(s: Seq<u8>, st: (Seq<u8>, u32)) -> bool {
    let k = s.len() % 4;
    let full = s.len() - k;
    &&& st.0 == decode_groups(s.take(full))
    &&& st.1 as int == pow64(k as int) + digits_value(s.skip(full))
}

proof fn lemma_push_small(s: Seq<u8>, st: (Seq<u8>, u32), idx: u8)
    requires
        forall|i: int| 0 <= i < s.len() ==> #[trigger] s[i] < 64,
        idx < 64,
        feed_inv(s, st),
        s.len() % 4 < 3,
    ensures
        feed_inv(s.push(idx), push_sextet(st.0, st.1, idx)),
{
    let k = s.len() % 4;
    let full = s.len() - k;
    let rest = s.skip(full);
    lemma_digits_bound(rest);
    let s2 = s.push(idx);
    let rest2 = s2.skip(full);
    assert(rest2.drop_last() =~= rest);
    assert(digits_value(rest2) == digits_value(rest) * 64 + idx);
    let nb = (st.1 as int * 64) % 0x1_0000_0000 + idx as int;
    assert(st.1 as int * 64 < 0x1_0000_0000);
    assert(nb == pow64(k as int) * 64 + digits_value(rest) * 64 + idx);
    assert(s2.take(full) =~= s.take(full));
    assert(!bit24_set(nb));
}

proof fn lemma_push_completes(r: Seq<u8>, buf: u32, a: u8, b: u8, c: u8, d: u8)
    requires
        a < 64,
        b < 64,
        c < 64,
        d < 64,
        buf as int == 262144 + (a as int * 64 + b as int) * 64 + c as int,
    ensures
        push_sextet(r, buf, d) == (r + group_bytes(a, b, c, d), 1u32),
{
    let val = (a as int * 64 + b as int) * 64 + c as int;
    assert(0 <= val < 262144) by (nonlinear_arith)
        requires a < 64, b < 64, c < 64, val == (a as int * 64 + b as int) * 64 + c as int;
    assert(buf as int * 64 == 0x100_0000 + val * 64);
    lemma_group_digits(a as int, b as int, c as int, d as int, val);
    let nb = (buf as int * 64) % 0x1_0000_0000 + d as int;
    assert(nb == 0x100_0000 + val * 64 + d as int);
    assert(push_sextet(r, buf, d).0 =~= r + group_bytes(a, b, c, d));
}

proof fn lemma_push_full(s: Seq<u8>, st: (Seq<u8>, u32), idx: u8)
    requires
        forall|i: int| 0 <= i < s.len() ==> #[trigger] s[i] < 64,
        idx < 64,
        feed_inv(s, st),
        s.len() % 4 == 3,
    ensures
        feed_inv(s.push(idx), push_sextet(st.0, st.1, idx)),
{
    let full = s.len() - 3;
    let rest = s.skip(full);
    let a = rest[0];
    let b = rest[1];
    let c = rest[2];
    lemma_digits_small(rest);
    lemma_push_completes(st.0, st.1, a, b, c, idx);
    let s2 = s.push(idx);
    let t2 = s2.take(full + 4);
    assert(t2 =~= s2);
    assert(t2.take(full) =~= s.take(full));
    assert(s2.skip(full + 4) =~= Seq::<u8>::empty());
    assert(decode_groups(t2) == decode_groups(s.take(full)) + group_bytes(a, b, c, idx));
}

proof fn lemma_push_step(s: Seq<u8>, st: (Seq<u8>, u32), idx: u8)
    requires
        forall|i: int| 0 <= i < s.len() ==> #[trigger] s[i] < 64,
        idx < 64,
        feed_inv(s, st),
    ensures
        feed_inv(s.push(idx), push_sextet(st.0, st.1, idx)),
{
    if s.len() % 4 < 3 {
        lemma_push_small(s, st, idx);
    } else {
        lemma_push_full(s, st, idx);
    }
}

/// The bit buffer and the decoded bytes while a text is fed from the start:
/// the decoded bytes are the complete groups, the buffer holds the others
/// behind a marker bit.
proof fn lemma_feed_state(data: Seq<u8>)
    ensures
        feed_inv(sextets(data), feed_bytes(Seq::empty(), 1, data)),
    decreases data.len(),
{
    if data.len() == 0 {
        assert(sextets(data).take(0) =~= Seq::<u8>::empty());
        assert(sextets(data).skip(0) =~= Seq::<u8>::empty());
    } else {
        let p = data.drop_last();
        lemma_feed_state(p);
        lemma_sextets_small(p);
        if sextet_of(data.last()) != 255 {
            lemma_push_step(sextets(p), feed_bytes(Seq::empty(), 1, p), sextet_of(data.last()));
        }
    }
}

/// Feeding a text in two pieces leaves the decoder as feeding it at once.
pub proof fn lemma_feed_concat(result: Seq<u8>, buffer: u32, d1: Seq<u8>, d2: Seq<u8>)
    ensures
        ({
            let st = feed_bytes(result, buffer, d1);
            feed_bytes(st.0, st.1, d2) == feed_bytes(result, buffer, d1 + d2)
        }),
    decreases d2.len(),
{
    if d2.len() == 0 {
        assert(d1 + d2 =~= d1);
    } else {
        lemma_feed_concat(result, buffer, d1, d2.drop_last());
        assert((d1 + d2).drop_last() =~= d1 + d2.drop_last());
        assert((d1 + d2).last() == d2.last());
    }
}

/// A fresh decoder fed a whole text and then flushed hands out the base64
/// decoding of the text, whenever the count of alphabet characters does not
/// leave a single one over (that count makes the flush fail).
#[verifier::rlimit(40)]
pub proof fn lemma_decoder_decodes(data: Seq<u8>)
    requires
        sextets(data).len() % 4 != 1,
    ensures
        ({
            let st = feed_bytes(Seq::empty(), 1, data);
            &&& can_take_result(st.1)
            &&& st.0 + tail_bytes(st.1) == base64_decode(data)
        }),
{
    lemma_feed_state(data);
    lemma_sextets_small(data);
    let s = sextets(data);
    let k = s.len() % 4;
    let full = s.len() - k;
    let st = feed_bytes(Seq::empty(), 1, data);
    let rest = s.skip(full);
    assert(rest.len() == k);
    if k == 0 {
        assert(rest =~= Seq::<u8>::empty());
        assert(st.1 == 1);
        assert(st.0 + tail_bytes(st.1) =~= base64_decode(data));
    } else if k == 2 {
        let a = rest[0] as int;
        let b = rest[1] as int;
        lemma_digits_small(rest);
        assert(st.1 as int == 4096 + a * 64 + b);
        lemma_tail2(a, b);
        assert(st.0 + tail_bytes(st.1) =~= base64_decode(data));
    } else {
        let a = rest[0] as int;
        let b = rest[1] as int;
        let c = rest[2] as int;
        lemma_digits_small(rest);
        assert(st.1 as int == 262144 + (a * 64 + b) * 64 + c);
        lemma_tail3(a, b, c);
        assert(st.0 + tail_bytes(st.1) =~= base64_decode(data));
    }
}

proof fn lemma_tail2(a: int, b: int)
    requires
        0 <= a < 64,
        0 <= b < 64,
    ensures
        ({
            let buf = 4096 + a * 64 + b;
            let v = (buf * 4096) % 0x1_0000_0000;
            &&& !bit24_set(buf)
            &&& !bit24_set((buf * 64) % 0x1_0000_0000)
            &&& bit24_set(v)
            &&& (v / 0x1_0000) % 256 == a * 4 + b / 16
        }),
{
    let buf = 4096 + a * 64 + b;
    assert(buf * 64 < 0x1_0000_0000);
    assert(buf * 4096 == 0x100_0000 + a * 0x4_0000 + b * 0x1000);
    assert(buf * 4096 < 0x1_0000_0000);
    let w = a * 0x4_0000 + b * 0x1000;
    assert(0 <= w < 0x100_0000) by (nonlinear_arith)
        requires 0 <= a < 64, 0 <= b < 64, w == a * 0x4_0000 + b * 0x1000;
    assert(w / 0x1_0000 == a * 4 + b / 16) by (nonlinear_arith)
        requires 0 <= a < 64, 0 <= b < 64, w == a * 0x4_0000 + b * 0x1000;
    assert((0x100_0000 + w) / 0x1_0000 == 256 + w / 0x1_0000);
}

proof fn lemma_div_shift(w: int, q: int, m: int)
    requires
        0 <= w < 0x100_0000,
        q > 0,
        m * q == 0x100_0000int,
    ensures
        (0x100_0000 + w) / q == m + w / q,
{
    assert((0x100_0000 + w) / q == m + w / q) by (nonlinear_arith)
        requires 0 <= w, q > 0, m * q == 0x100_0000;
}

#[verifier::rlimit(30)]
proof fn lemma_tail3(a: int, b: int, c: int)
    requires
        0 <= a < 64,
        0 <= b < 64,
        0 <= c < 64,
    ensures
        ({
            let buf = 262144 + (a * 64 + b) * 64 + c;
            let v = (buf * 64) % 0x1_0000_0000;
            &&& !bit24_set(buf)
            &&& bit24_set(v)
            &&& (v / 0x1_0000) % 256 == a * 4 + b / 16
            &&& (v / 0x100) % 256 == (b % 16) * 16 + c / 4
        }),
{
    let buf = 262144 + (a * 64 + b) * 64 + c;
    let w = a * 0x4_0000 + b * 0x1000 + c * 64;
    assert(buf * 64 == 0x100_0000 + w) by (nonlinear_arith)
        requires buf == 262144 + (a * 64 + b) * 64 + c, w == a * 0x4_0000 + b * 0x1000 + c * 64;
    assert(0 <= w < 0x100_0000) by (nonlinear_arith)
        requires 0 <= a < 64, 0 <= b < 64, 0 <= c < 64, w == a * 0x4_0000 + b * 0x1000 + c * 64;
    assert(buf < 0x100_0000);
    assert(w / 0x1_0000 == a * 4 + b / 16) by (nonlinear_arith)
        requires 0 <= a < 64, 0 <= b < 64, 0 <= c < 64, w == a * 0x4_0000 + b * 0x1000 + c * 64;
    assert((w / 0x100) % 256 == (b % 16) * 16 + c / 4) by (nonlinear_arith)
        requires 0 <= a < 64, 0 <= b < 64, 0 <= c < 64, w == a * 0x4_0000 + b * 0x1000 + c * 64;
    lemma_div_shift(w, 0x1_0000, 256);
    lemma_div_shift(w, 0x100, 0x1_0000);
    lemma_div_shift(w, 0x100_0000, 1);
}

/// A decoder that `clear` left, whatever it held before, and a new one are in the same
/// state (see their contracts), so they decode alike: fed any text `data` and flushed,
/// each hands out the base64 decoding of `data`, wherever the count of alphabet
/// characters leaves the flush possible.
pub proof fn lemma_cleared_decodes_as_new(cleared: (Seq<u8>, u32), fresh: (Seq<u8>, u32), data: Seq<u8>)
    requires
        cleared == (Seq::<u8>::empty(), 1u32),
        fresh == (Seq::<u8>::empty(), 1u32),
        sextets(data).len() % 4 != 1,
    ensures
        feed_bytes(cleared.0, cleared.1, data) == feed_bytes(fresh.0, fresh.1, data),
        can_take_result(feed_bytes(cleared.0, cleared.1, data).1),
        feed_bytes(cleared.0, cleared.1, data).0 + tail_bytes(feed_bytes(cleared.0, cleared.1, data).1) == base64_decode(data),
{
    lemma_decoder_decodes(data);
}

/// Streaming decoder of base64 text.
pub struct Base64Decoder {
    result: Vec<u8>,
    buffer: u32,
}

impl View for Base64Decoder {
    type V = (Seq<u8>, u32);

    /// Bytes decoded so far and the bit buffer of pending sextets.
    closed spec fn view(&self) -> (Seq<u8>, u32) {
        (self.result@, self.buffer)
    }
}

/// Value of one character of the base64 alphabet, 255 for other bytes.
pub fn sextet(c: u8) -> (v: u8)
    ensures
        v == sextet_of(c),
{
    if 65 <= c && c <= 90 {
        c - 65
    } else if 97 <= c && c <= 122 {
        c - 97 + 26
    } else if 48 <= c && c <= 57 {
        c - 48 + 52
    } else if c == 43 {
        62
    } else if c == 47 {
        63
    } else {
        255
    }
}

impl Base64Decoder {
    /// A decoder with nothing decoded yet.
    pub fn new(expected_size: usize) -> (res: Self)
        ensures
            res@ == (Seq::<u8>::empty(), 1u32),
    {
        Self { result: Vec::with_capacity(expected_size), buffer: 1 }
    }

    /// Drops everything decoded and pending.
    pub fn clear(&mut self, expected_size: usize)
        ensures
            final(self)@ == (Seq::<u8>::empty(), 1u32),
    {
        self.result.clear();
        self.result.reserve(expected_size);
        self.buffer = 1;
    }

    /// Flushes the pending sextets and hands out all bytes decoded so far.
    pub fn take_result(&mut self) -> (res: Vec<u8>)
        requires
            can_take_result(old(self)@.1),
        ensures
            res@ == old(self)@.0 + tail_bytes(old(self)@.1),
            final(self)@ == (Seq::<u8>::empty(), buffer_after_take(old(self)@.1)),
    {
        if self.buffer != 1 {
            let ghost b0 = self.buffer as int;
            let mut extra_len: u32 = 0;
            while (self.buffer / 0x100_0000) % 2 == 0
                invariant
                    can_take_result(b0 as u32),
                    self.result@ == old(self)@.0,
                    b0 == old(self)@.1,
                    b0 != 1,
                    0 <= b0 < 0x1_0000_0000,
                    extra_len <= 2,
                    extra_len == 0 ==> self.buffer == b0,
                    extra_len == 1 ==> self.buffer == (b0 * 64) % 0x1_0000_0000,
                    extra_len == 2 ==> self.buffer == (b0 * 4096) % 0x1_0000_0000,
                    extra_len >= 1 ==> extra_shifts(b0 as u32) >= extra_len,
                decreases 2 - extra_len,
            {
                proof {
                    if extra_len == 1 {
                        assert(((b0 * 64) % 0x1_0000_0000) * 64 % 0x1_0000_0000
                            == (b0 * 4096) % 0x1_0000_0000) by (nonlinear_arith)
                            requires 0 <= b0;
                    }
                }
                self.buffer = self.buffer.wrapping_mul(64);
                extra_len = extra_len + 1;
            }
            let b = self.buffer;
            assert(extra_len == extra_shifts(b0 as u32));
            assert(b as int == buffer_after_take(b0 as u32));
            let ghost r0 = self.result@;
            if extra_len == 1 {
                self.result.push(((b / 0x1_0000) % 256) as u8);
                self.result.push(((b / 0x100) % 256) as u8);
            } else {
                self.result.push(((b / 0x1_0000) % 256) as u8);
            }
            assert(self.result@ =~= r0 + tail_bytes(b0 as u32));
        }
        let mut res: Vec<u8> = Vec::new();
        std::mem::swap(&mut res, &mut self.result);
        res
    }

    /// Feeds base64 text; bytes outside the alphabet are skipped.
    pub fn add_bytes(&mut self, base64_data: &[u8])
        ensures
            final(self)@ == feed_bytes(old(self)@.0, old(self)@.1, base64_data@),
    {
        let n = base64_data.len();
        let mut i: usize = 0;
        while i < n
            invariant
                n == base64_data@.len(),
                i <= n,
                self@ == feed_bytes(old(self)@.0, old(self)@.1, base64_data@.take(i as int)),
            decreases n - i,
        {
            proof {
                assert(base64_data@.take(i + 1).drop_last() =~= base64_data@.take(i as int));
            }
            self.add_byte(base64_data[i]);
            i = i + 1;
        }
        proof {
            assert(base64_data@.take(n as int) =~= base64_data@);
        }
    }

    /// Feeds one byte of base64 text.
    pub fn add_byte(&mut self, v: u8)
        ensures
            final(self)@ == feed_byte(old(self)@.0, old(self)@.1, v),
    {
        let index = sextet(v) as u32;
        if index == 255 {
            return;
        }
        let nb = self.buffer.wrapping_mul(64) + index;
        self.buffer = nb;
        if (nb / 0x100_0000) % 2 == 1 {
            self.result.push(((nb / 0x1_0000) % 256) as u8);
            self.result.push(((nb / 0x100) % 256) as u8);
            self.result.push((nb % 256) as u8);
            self.buffer = 1;
        }
    }
}

} // verus!
