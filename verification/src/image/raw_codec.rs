use vstd::prelude::*;

use bitstream_io::{BigEndian, BitRead, BitReader, BitWrite, BitWriter};
use vstd::arithmetic::power2::{lemma2_to64, pow2};
use vstd::bits::{lemma_u32_pow2_no_overflow, lemma_u32_shl_is_mul};
use vstd::std_specs::bits::{axiom_u32_leading_zeros, u32_leading_zeros};

verus! {

#[verifier::external_type_specification]
#[verifier::external_body]
pub struct ExIoError(std::io::Error);

/// A big-endian writer of bits into a vector of bytes (a `BitWriter` of the
/// `bitstream_io` crate). Its bits are known by `writer_bits`.
#[verifier::external_body]
pub struct BitSink {
    w: BitWriter<Vec<u8>, BigEndian>,
}

/// A big-endian reader of the bits of bytes (a `BitReader` of the `bitstream_io` crate).
/// The bits it has left are known by `reader_bits`.
#[verifier::external_body]
pub struct BitSource {
    r: BitReader<std::io::Cursor<Vec<u8>>, BigEndian>,
}

/// The `n` lowest bits of `v`, the most significant first.
pub open spec fn bits_of(v: int, n: int) -> Seq<bool>
    decreases n,
{
    if n <= 0 {
        Seq::empty()
    } else {
        bits_of(v / 2, n - 1).push(v % 2 == 1)
    }
}

/// The number that bits stand for, the most significant first.
pub open spec fn bits_value(s: Seq<bool>) -> int
    decreases s.len(),
{
    if s.len() == 0 {
        0
    } else {
        2 * bits_value(s.drop_last()) + if s.last() {
            1int
        } else {
            0
        }
    }
}

/// The bits of bytes, eight for each, the most significant first.
pub open spec fn bytes_to_bits(b: Seq<u8>) -> Seq<bool>
    decreases b.len(),
{
    if b.len() == 0 {
        Seq::empty()
    } else {
        bytes_to_bits(b.drop_last()) + bits_of(b.last() as int, 8)
    }
}

/// The whole bytes that bits make, eight for each; bits past the last whole byte are
/// dropped.
pub open spec fn bits_to_bytes(s: Seq<bool>) -> Seq<u8> {
    Seq::new(s.len() / 8, |i: int| bits_value(s.subrange(8 * i, 8 * i + 8)) as u8)
}

/// Bits that a writer holds, in order: those passed on as bytes, then those still pending.
pub uninterp spec fn writer_bits(w: BitSink) -> Seq<bool>;

/// Bits that a reader has not given out yet, in order.
pub uninterp spec fn reader_bits(r: BitSource) -> Seq<bool>;

/// A writer of bits into an empty vector (`BitWriter::endian`, big-endian): it holds no
/// bits.
#[verifier::external_body]
pub(crate) fn new_bit_sink() -> (r: BitSink)
    ensures
        writer_bits(r) == Seq::<bool>::empty(),
{
    BitSink { w: BitWriter::endian(Vec::new(), BigEndian) }
}

/// Writes `value` in `bits` bits (`BitWrite::write`): the writer then holds those bits, the
/// most significant first, after the ones it held. The source fails only on more bits than
/// 32, on a value too wide for them (both ruled out here) or on an error of the underlying
/// writer, and the writer here is a `Vec<u8>`, which only grows; so the call succeeds.
#[verifier::external_body]
pub(crate) fn write_bits(w: &mut BitSink, bits: u32, value: u32) -> (r: Result<(), std::io::Error>)
    requires
        1 <= bits <= 32,
        value < pow2(bits as nat),
    ensures
        r is Ok,
        writer_bits(*final(w)) == writer_bits(*old(w)) + bits_of(value as int, bits as int),
{
    w.w.write(bits, value)
}

/// The bytes written (`BitWriter::into_writer`): the whole bytes of the bits held, the
/// most significant bit of each first; a last partial byte is dropped.
#[verifier::external_body]
pub(crate) fn sink_bytes(w: BitSink) -> (r: Vec<u8>)
    ensures
        r@ == bits_to_bytes(writer_bits(w)),
{
    w.w.into_writer()
}

/// A reader of the bits of bytes (`BitReader::endian` over a copy of them, big-endian):
/// all their bits are still to be read.
#[verifier::external_body]
pub(crate) fn new_bit_source(bytes: &[u8]) -> (r: BitSource)
    ensures
        reader_bits(r) == bytes_to_bits(bytes@),
{
    BitSource { r: BitReader::endian(std::io::Cursor::new(bytes.to_vec()), BigEndian) }
}

/// Reads `bits` bits as a number (`BitRead::read`): that succeeds when that many bits are
/// left, and then gives the number the next bits stand for and moves past them.
#[verifier::external_body]
pub(crate) fn read_bits(r: &mut BitSource, bits: u32) -> (res: Result<u32, std::io::Error>)
    requires
        1 <= bits <= 32,
    ensures
        bits <= reader_bits(*old(r)).len() ==> res is Ok,
        res matches Ok(v) ==> {
            &&& bits <= reader_bits(*old(r)).len()
            &&& v == bits_value(reader_bits(*old(r)).take(bits as int))
            &&& reader_bits(*final(r)) == reader_bits(*old(r)).skip(bits as int)
        },
{
    r.r.read::<u32>(bits)
}

impl BitSink {
    /// A writer of bits into an empty vector: it holds no bits.
    pub fn new() -> (r: Self)
        ensures
            writer_bits(r) == Seq::<bool>::empty(),
    {
        new_bit_sink()
    }

    /// The whole bytes of the bits written, the most significant bit of each first.
    pub fn into_bytes(self) -> (r: Vec<u8>)
        ensures
            r@ == bits_to_bytes(writer_bits(self)),
    {
        sink_bytes(self)
    }
}

impl BitSource {
    /// A reader of the bits of bytes, the most significant bit of each first.
    pub fn new(bytes: &[u8]) -> (r: Self)
        ensures
            reader_bits(r) == bytes_to_bits(bytes@),
    {
        new_bit_source(bytes)
    }
}

/// Fewest leading zero bits among the first `k` values (32 for none).
pub open spec fn min_leading_zeros(d: Seq<u32>, k: int) -> int
    decreases k,
{
    if k <= 0 {
        32
    } else {
        let m = min_leading_zeros(d, k - 1);
        let z = u32_leading_zeros(d[k - 1]) as int;
        if z < m {
            z
        } else {
            m
        }
    }
}

/// Width in bits of a block of values: enough for the widest, at least one.
pub open spec fn block_width(d: Seq<u32>) -> int {
    let w = 32 - min_leading_zeros(d, d.len() as int);
    if w == 0 {
        1
    } else {
        w
    }
}

/// Bits of values at a width, one after the other.
pub open spec fn values_bits(d: Seq<u32>, w: int) -> Seq<bool>
    decreases d.len(),
{
    if d.len() == 0 {
        Seq::empty()
    } else {
        values_bits(d.drop_last(), w) + bits_of(d.last() as int, w)
    }
}

/// Bits of a block: its width less one in five bits, then its values at that width.
pub open spec fn block_bits(d: Seq<u32>) -> Seq<bool> {
    bits_of(block_width(d) - 1, 5) + values_bits(d, block_width(d))
}

/// Values made eight with zeros.
pub open spec fn padded(p: Seq<u32>) -> Seq<u32> {
    p + Seq::new((8 - p.len()) as nat, |i: int| 0u32)
}

proof fn lemma_min_leading_zeros(d: Seq<u32>, k: int)
    requires
        0 <= k <= d.len(),
    ensures
        0 <= min_leading_zeros(d, k) <= 32,
        forall|i: int| 0 <= i < k ==> min_leading_zeros(d, k) <= u32_leading_zeros(#[trigger] d[i]),
    decreases k,
{
    if k > 0 {
        lemma_min_leading_zeros(d, k - 1);
        axiom_u32_leading_zeros(d[k - 1]);
    }
}

/// A value with at least `z` leading zero bits fits in `32 - z` bits.
proof fn lemma_fits_width(v: u32, z: int)
    requires
        0 <= z <= u32_leading_zeros(v),
        z <= 32,
    ensures
        v < pow2((32 - z) as nat),
{
    axiom_u32_leading_zeros(v);
    lemma2_to64();
    let lz = u32_leading_zeros(v);
    if z == 0 {
        assert(pow2(32) == 0x100000000);
    } else {
        let k: u32 = (32 - z) as u32;
        let s: u32 = (32 - lz) as u32;
        assert(v >> s == 0);
        assert(v >> k == 0) by (bit_vector)
            requires
                v >> s == 0,
                s <= k,
                k < 32,
        ;
        assert(v < (1u32 << k)) by (bit_vector)
            requires
                v >> k == 0,
                k < 32,
        ;
        lemma_u32_pow2_no_overflow(k as nat);
        lemma_u32_shl_is_mul(1, k);
    }
}

/// Every value of a block fits its width.
proof fn lemma_block_fits(d: Seq<u32>)
    ensures
        1 <= block_width(d) <= 32,
        forall|i: int| 0 <= i < d.len() ==> #[trigger] d[i] < pow2(block_width(d) as nat),
{
    lemma_min_leading_zeros(d, d.len() as int);
    let z = min_leading_zeros(d, d.len() as int);
    assert forall|i: int| 0 <= i < d.len() implies #[trigger] d[i] < pow2(block_width(d) as nat) by {
        lemma_fits_width(d[i], z);
        if z == 32 {
            lemma2_to64();
        }
    }
}

/// Compresses 32-bit values: each is taken as its XOR with the one before (0 before the
/// first), in blocks of eight written at the width of their widest.
pub struct ValuesCompressor {
    data: Vec<u32>,
    prev: u32,
}

impl ValuesCompressor {
    /// The values of the current block so far, each XOR the one before it.
    pub closed spec fn pending(&self) -> Seq<u32> {
        self.data@
    }

    /// The last value written (0 before the first).
    pub closed spec fn prev_value(&self) -> u32 {
        self.prev
    }

    /// Less than a block is pending.
    pub open spec fn wf(&self) -> bool {
        self.pending().len() < 8
    }

    pub fn new() -> (r: Self)
        ensures
            r.wf(),
            r.pending() == Seq::<u32>::empty(),
            r.prev_value() == 0,
    {
        ValuesCompressor { data: Vec::new(), prev: 0 }
    }

    /// Takes one value; once a block of eight is complete it is written (see `block_bits`).
    pub fn write_u32(&mut self, value: u32, writer: &mut BitSink) -> (r: Result<(), std::io::Error>)
        requires
            old(self).wf(),
        ensures
            final(self).wf(),
            final(self).prev_value() == value,
            ({
                let p = old(self).pending().push(value ^ old(self).prev_value());
                if p.len() < 8 {
                    &&& r is Ok
                    &&& final(self).pending() == p
                    &&& writer_bits(*final(writer)) == writer_bits(*old(writer))
                } else {
                    &&& r is Ok
                    &&& final(self).pending() == Seq::<u32>::empty()
                    &&& writer_bits(*final(writer)) == writer_bits(*old(writer)) + block_bits(p)
                }
            }),
    {
        self.data.push(value ^ self.prev);
        self.prev = value;
        if self.data.len() == 8 {
            proof {
                assert(padded(self.data@) =~= self.data@);
            }
            return self.flush(writer);
        }
        Ok(())
    }

    /// Writes the values pending, made a block of eight with zeros (see `block_bits`); they
    /// are no longer pending. Writing into the vector of a `BitSink` always succeeds.
    pub fn flush(&mut self, writer: &mut BitSink) -> (r: Result<(), std::io::Error>)
        requires
            old(self).pending().len() <= 8,
        ensures
            final(self).wf(),
            final(self).prev_value() == old(self).prev_value(),
            old(self).pending().len() == 0 ==> r is Ok && *final(self) == *old(self) && *final(writer) == *old(
                writer,
            ),
            r is Ok,
            old(self).pending().len() > 0 ==> final(self).pending() == Seq::<u32>::empty(),
            old(self).pending().len() > 0 ==> writer_bits(*final(writer)) == writer_bits(*old(writer))
                + block_bits(padded(old(self).pending())),
    {
        if self.data.len() == 0 {
            return Ok(());
        }
        let mut block: Vec<u32> = Vec::new();
        let mut i: usize = 0;
        while i < 8
            invariant
                self.data@.len() <= 8,
                i <= 8,
                block@ == padded(self.data@).take(i as int),
            decreases 8 - i,
        {
            if i < self.data.len() {
                block.push(self.data[i]);
            } else {
                block.push(0);
            }
            i = i + 1;
            proof {
                assert(block@ =~= padded(self.data@).take(i as int));
            }
        }
        proof {
            assert(block@ =~= padded(self.data@));
        }
        let mut min_lz: u32 = 32;
        let mut k: usize = 0;
        while k < 8
            invariant
                block@.len() == 8,
                k <= 8,
                min_lz == min_leading_zeros(block@, k as int),
            decreases 8 - k,
        {
            let z = block[k].leading_zeros();
            if z < min_lz {
                min_lz = z;
            }
            k = k + 1;
        }
        proof {
            lemma_min_leading_zeros(block@, 8);
            lemma_block_fits(block@);
            lemma2_to64();
        }
        let mut max_len = 32 - min_lz;
        if max_len == 0 {
            max_len = 1;
        }
        self.data.clear();
        let ghost start = writer_bits(*writer);
        let res = write_bits(writer, 5, max_len - 1);
        if res.is_err() {
            return res;
        }
        let mut j: usize = 0;
        while j < 8
            invariant
                old(self).pending().len() > 0,
                self.pending() == Seq::<u32>::empty(),
                self.prev_value() == old(self).prev_value(),
                block@ == padded(old(self).pending()),
                block@.len() == 8,
                max_len == block_width(block@),
                1 <= max_len <= 32,
                forall|t: int| 0 <= t < 8 ==> #[trigger] block@[t] < pow2(max_len as nat),
                j <= 8,
                writer_bits(*writer) == start + bits_of(max_len - 1, 5) + values_bits(block@.take(j as int), max_len as int),
            decreases 8 - j,
        {
            let res = write_bits(writer, max_len, block[j]);
            if res.is_err() {
                return res;
            }
            proof {
                assert(block@.take(j + 1).drop_last() =~= block@.take(j as int));
                assert(start + bits_of(max_len - 1, 5) + values_bits(block@.take(j + 1), max_len as int) =~= start
                    + bits_of(max_len - 1, 5) + values_bits(block@.take(j as int), max_len as int) + bits_of(
                    block@[j as int] as int,
                    max_len as int,
                ));
            }
            j = j + 1;
        }
        proof {
            assert(block@.take(8) =~= block@);
            assert(start + bits_of(max_len - 1, 5) + values_bits(block@, max_len as int) =~= start + block_bits(block@));
        }
        Ok(())
    }
}

/// `prev` XOR the deltas up to index `i`.
pub open spec fn xor_upto(prev: u32, d: Seq<u32>, i: int) -> u32
    decreases i + 1,
{
    if i < 0 {
        prev
    } else {
        xor_upto(prev, d, i - 1) ^ d[i]
    }
}

/// Values from deltas: each is the one before it (`prev` before the first) XOR its delta.
pub open spec fn xor_run(prev: u32, d: Seq<u32>) -> Seq<u32> {
    Seq::new(d.len(), |i: int| xor_upto(prev, d, i))
}

/// Width of the values of a block, from its first five bits.
pub open spec fn read_width(bits: Seq<bool>) -> int {
    bits_value(bits.take(5)) + 1
}

/// Bits that a block takes: five, then eight values at its width.
pub open spec fn block_len(bits: Seq<bool>) -> int {
    5 + 8 * read_width(bits)
}

/// The eight deltas that the bits of a block hold.
pub open spec fn read_deltas(bits: Seq<bool>) -> Seq<u32> {
    let w = read_width(bits);
    Seq::new(8, |i: int| bits_value(bits.subrange(5 + i * w, 5 + (i + 1) * w)) as u32)
}

proof fn lemma_bits_value_bound(s: Seq<bool>)
    ensures
        0 <= bits_value(s) < pow2(s.len()),
    decreases s.len(),
{
    if s.len() > 0 {
        lemma_bits_value_bound(s.drop_last());
        vstd::arithmetic::power2::lemma_pow2_unfold(s.len());
    } else {
        lemma2_to64();
    }
}

/// Reads values that a `ValuesCompressor` wrote.
pub struct ValuesDecompressor {
    values: Vec<u32>,
    values_ptr: usize,
    prev_value: u32,
}

impl ValuesDecompressor {
    /// The values of the block read last.
    pub closed spec fn block(&self) -> Seq<u32> {
        self.values@
    }

    /// How many of them were given out.
    pub closed spec fn given(&self) -> usize {
        self.values_ptr
    }

    /// The last value of the block read last (0 before the first).
    pub closed spec fn prev(&self) -> u32 {
        self.prev_value
    }

    pub open spec fn wf(&self) -> bool {
        self.block().len() == 8 && self.given() <= 8
    }

    pub fn new() -> (r: Self)
        ensures
            r.wf(),
            r.given() == 8,
            r.prev() == 0,
    {
        let mut values: Vec<u32> = Vec::new();
        values.resize(8, 0u32);
        ValuesDecompressor { values, values_ptr: 8, prev_value: 0 }
    }

    /// The next value: from the block read last, else from a new block read first (see
    /// `read_deltas`).
    pub fn read_u32(&mut self, reader: &mut BitSource) -> (r: Result<u32, std::io::Error>)
        requires
            old(self).wf(),
        ensures
            final(self).wf(),
            old(self).given() < 8 ==> {
                &&& r == Ok::<u32, std::io::Error>(old(self).block()[old(self).given() as int])
                &&& final(self).block() == old(self).block()
                &&& final(self).given() == old(self).given() + 1
                &&& final(self).prev() == old(self).prev()
                &&& reader_bits(*final(reader)) == reader_bits(*old(reader))
            },
            old(self).given() == 8 ==> ({
                let b = reader_bits(*old(reader));
                let vals = xor_run(old(self).prev(), read_deltas(b));
                &&& r is Ok ==> b.len() >= 5 && b.len() >= block_len(b)
                &&& b.len() >= 5 && b.len() >= block_len(b) ==> {
                    &&& r == Ok::<u32, std::io::Error>(vals[0])
                    &&& final(self).block() == vals
                    &&& final(self).given() == 1
                    &&& final(self).prev() == vals[7]
                    &&& reader_bits(*final(reader)) == b.skip(block_len(b))
                }
            }),
    {
        if self.values_ptr == 8 {
            let ghost b = reader_bits(*reader);
            let ghost p0 = self.prev_value;
            self.values_ptr = 0;
            proof {
                assert(b == reader_bits(*old(reader)));
            }
            let len = match read_bits(reader, 5) {
                Ok(v) => {
                    proof {
                        lemma_bits_value_bound(b.take(5));
                        lemma2_to64();
                    }
                    v + 1
                },
                Err(e) => {
                    return Err(e);
                },
            };
            let ghost w = len as int;
            let ghost d = read_deltas(b);
            let mut i: usize = 0;
            while i < 8
                invariant
                    old(self).given() == 8,
                    b == reader_bits(*old(reader)),
                    p0 == old(self).prev(),
                    self.values@.len() == 8,
                    self.values_ptr == 0,
                    b.len() >= 5,
                    w == read_width(b),
                    1 <= w <= 32,
                    len == w,
                    d == read_deltas(b),
                    i <= 8,
                    5 + i * w <= b.len(),
                    reader_bits(*reader) == b.skip(5 + i * w),
                    self.prev_value == xor_upto(p0, d, i - 1),
                    forall|t: int| 0 <= t < i ==> #[trigger] self.values@[t] == xor_upto(p0, d, t),
                decreases 8 - i,
            {
                let ghost rb = reader_bits(*reader);
                proof {
                    assert((i + 1) * w == i * w + w) by (nonlinear_arith);
                    assert(rb.len() == b.len() - (5 + i * w));
                }
                let res = read_bits(reader, len);
                let v = match res {
                    Ok(v) => v,
                    Err(e) => {
                        proof {
                            assert(rb.len() < w);
                            assert(b.len() < 5 + (i + 1) * w);
                            assert(5 + (i + 1) * w <= 5 + 8 * w) by (nonlinear_arith)
                                requires i < 8, w >= 1;
                        }
                        return Err(e);
                    },
                };
                proof {
                    assert(rb.take(w) =~= b.subrange(5 + i * w, 5 + (i + 1) * w));
                    lemma_bits_value_bound(rb.take(w));
                    assert(b.skip(5 + i * w).skip(w) =~= b.skip(5 + (i + 1) * w));
                }
                self.prev_value = self.prev_value ^ v;
                self.values.set(i, self.prev_value);
                i = i + 1;
            }
            proof {
                assert(self.values@ =~= xor_run(p0, d));
            }
        }
        let result = self.values[self.values_ptr];
        self.values_ptr = self.values_ptr + 1;
        Ok(result)
    }
}

proof fn lemma_bits_of_len(v: int, n: int)
    requires
        n >= 0,
    ensures
        bits_of(v, n).len() == n,
    decreases n,
{
    if n > 0 {
        lemma_bits_of_len(v / 2, n - 1);
    }
}

/// A number below `2^n` read back from its `n` bits is itself.
proof fn lemma_bits_round_trip(v: int, n: int)
    requires
        n >= 0,
        0 <= v < pow2(n as nat),
    ensures
        bits_value(bits_of(v, n)) == v,
    decreases n,
{
    if n > 0 {
        vstd::arithmetic::power2::lemma_pow2_unfold(n as nat);
        lemma_bits_of_len(v / 2, n - 1);
        lemma_bits_round_trip(v / 2, n - 1);
        assert(bits_of(v, n).drop_last() =~= bits_of(v / 2, n - 1));
    } else {
        lemma2_to64();
    }
}

/// Bits written back from the number they stand for are themselves.
proof fn lemma_bits_value_round_trip(s: Seq<bool>)
    ensures
        bits_of(bits_value(s), s.len() as int) == s,
    decreases s.len(),
{
    if s.len() > 0 {
        lemma_bits_value_round_trip(s.drop_last());
        lemma_bits_value_bound(s.drop_last());
        let v = bits_value(s);
        let b: int = if s.last() { 1 } else { 0 };
        assert(v / 2 == bits_value(s.drop_last()) && v % 2 == b);
        assert(bits_of(v, s.len() as int) =~= s);
    }
}

/// The bits of values at a width hold each value in turn.
proof fn lemma_values_bits(d: Seq<u32>, w: int)
    requires
        w >= 0,
    ensures
        values_bits(d, w).len() == d.len() * w,
        forall|i: int| 0 <= i < d.len() ==> #[trigger] values_bits(d, w).subrange(i * w, (i + 1) * w) == bits_of(d[i] as int, w),
    decreases d.len(),
{
    if d.len() > 0 {
        let e = d.drop_last();
        lemma_values_bits(e, w);
        lemma_bits_of_len(d.last() as int, w);
        assert((d.len() - 1) * w + w == d.len() * w) by (nonlinear_arith);
        assert forall|i: int| 0 <= i < d.len() implies #[trigger] values_bits(d, w).subrange(i * w, (i + 1) * w) == bits_of(d[i] as int, w) by {
            assert((i + 1) * w == i * w + w) by (nonlinear_arith);
            if i < d.len() - 1 {
                assert(i * w + w <= (d.len() - 1) * w) by (nonlinear_arith)
                    requires i < d.len() - 1, w >= 0;
                assert(values_bits(d, w).subrange(i * w, (i + 1) * w) =~= values_bits(e, w).subrange(i * w, (i + 1) * w));
                assert(e[i] == d[i]);
            } else {
                assert(values_bits(d, w).subrange(i * w, (i + 1) * w) =~= bits_of(d.last() as int, w));
            }
        }
    }
}

/// A block read from the bits it was written as, whatever follows them, is itself, and
/// takes exactly its bits.
pub proof fn lemma_block_round_trip(d: Seq<u32>, t: Seq<bool>)
    requires
        d.len() == 8,
    ensures
        (block_bits(d) + t).len() >= 5,
        block_len(block_bits(d) + t) == block_bits(d).len(),
        read_deltas(block_bits(d) + t) == d,
        (block_bits(d) + t).skip(block_len(block_bits(d) + t)) == t,
{
    let w = block_width(d);
    let b = block_bits(d) + t;
    lemma_block_fits(d);
    lemma2_to64();
    lemma_bits_of_len(w - 1, 5);
    lemma_values_bits(d, w);
    assert(b.take(5) =~= bits_of(w - 1, 5));
    lemma_bits_round_trip(w - 1, 5);
    assert(read_width(b) == w);
    assert(block_bits(d).len() == 5 + 8 * w);
    assert forall|i: int| 0 <= i < 8 implies #[trigger] read_deltas(b)[i] == d[i] by {
        assert((i + 1) * w == i * w + w) by (nonlinear_arith);
        assert(i * w + w <= 8 * w) by (nonlinear_arith)
            requires i < 8, w >= 0;
        assert(b.subrange(5 + i * w, 5 + (i + 1) * w) =~= values_bits(d, w).subrange(i * w, (i + 1) * w));
        lemma_bits_round_trip(d[i] as int, w);
    }
    assert(read_deltas(b) =~= d);
    assert(b.skip(block_len(b)) =~= t);
}

/// Levels widened to 32 bits.
pub open spec fn widened(data: Seq<u16>) -> Seq<u32> {
    Seq::new(data.len(), |i: int| data[i] as u32)
}

/// Deltas of values: each XOR the one before it (`prev` before the first).
pub open spec fn deltas(prev: u32, vs: Seq<u32>) -> Seq<u32> {
    Seq::new(vs.len(), |i: int| vs[i] ^ (if i == 0 { prev } else { vs[i - 1] }))
}

/// Bits of the whole blocks of eight deltas, one after the other; a last partial block is
/// left out.
pub open spec fn blocks_bits(d: Seq<u32>) -> Seq<bool>
    decreases d.len(),
{
    if d.len() < 8 {
        Seq::empty()
    } else {
        let k = (d.len() / 8 * 8) as int;
        blocks_bits(d.take(k - 8)) + block_bits(d.subrange(k - 8, k))
    }
}

/// How the levels of a frame are stored: the blocks of their deltas (a last partial block
/// left out), then 32 zero bits.
pub open spec fn levels_stream(data: Seq<u16>) -> Seq<bool> {
    blocks_bits(deltas(0, widened(data))) + bits_of(0, 32)
}

/// Only the whole blocks count.
proof fn lemma_blocks_bits_whole(d: Seq<u32>)
    ensures
        blocks_bits(d) == blocks_bits(d.take((d.len() / 8 * 8) as int)),
{
    let k = (d.len() / 8 * 8) as int;
    let e = d.take(k);
    assert(e.len() / 8 * 8 == k);
    if d.len() >= 8 {
        assert(e.take(k - 8) =~= d.take(k - 8));
        assert(e.subrange(k - 8, k) =~= d.subrange(k - 8, k));
    }
}

/// Compresses the levels of a frame (see `levels_stream`): each written to a
/// `ValuesCompressor`, the pending ones left unwritten, then 32 zero bits; the whole bytes
/// written. It always succeeds.
#[verifier::spinoff_prover]
#[verifier::rlimit(40)]
pub fn compress_levels(data: &[u16]) -> (r: Result<Vec<u8>, std::io::Error>)
    ensures
        r is Ok,
        r matches Ok(bytes) ==> bytes@ == bits_to_bytes(levels_stream(data@)),
{
    let mut sink = new_bit_sink();
    let mut comp = ValuesCompressor::new();
    let n = data.len();
    let ghost d = deltas(0, widened(data@));
    let mut i: usize = 0;
    proof {
        assert(comp.pending() =~= d.subrange(0, 0));
        assert(blocks_bits(d.take(0)) =~= Seq::<bool>::empty());
    }
    while i < n
        invariant
            n == data@.len(),
            d == deltas(0, widened(data@)),
            comp.wf(),
            i <= n,
            comp.pending() == d.subrange(8 * (i / 8), i as int),
            comp.prev_value() == (if i == 0 { 0u32 } else { data@[i - 1] as u32 }),
            writer_bits(sink) == blocks_bits(d.take(i as int)),
        decreases n - i,
    {
        let ghost before = writer_bits(sink);
        let res = comp.write_u32(data[i] as u32, &mut sink);
        if let Err(e) = res {
            return Err(e);
        }
        proof {
            assert(d[i as int] == (data@[i as int] as u32) ^ (if i == 0 { 0u32 } else { data@[i - 1] as u32 }));
            assert(d.subrange(8 * (i / 8), i as int).push(d[i as int]) =~= d.subrange(8 * (i / 8), i + 1));
            lemma_blocks_bits_whole(d.take(i as int));
            lemma_blocks_bits_whole(d.take(i + 1));
            if (i + 1) % 8 == 0 {
                assert(d.take(i + 1).take(i + 1 - 8) =~= d.take(i as int).take(8 * (i / 8)));
                assert(d.take(i + 1).subrange(i + 1 - 8, i + 1) =~= d.subrange(8 * (i / 8), i + 1));
                assert(d.subrange(8 * ((i + 1) / 8), i + 1) =~= Seq::<u32>::empty());
            } else {
                assert(d.take(i + 1).take(((i + 1) / 8 * 8) as int) =~= d.take(i as int).take((i / 8 * 8) as int));
            }
        }
        i = i + 1;
    }
    proof {
        lemma2_to64();
    }
    let res = write_bits(&mut sink, 32, 0);
    if let Err(e) = res {
        return Err(e);
    }
    proof {
        assert(d.take(n as int) =~= d);
    }
    Ok(sink_bytes(sink))
}

/// Where reading `c` blocks leaves: the values read, the bits left, the last value and
/// the last block.
pub struct DecodeState {
    pub values: Seq<u32>,
    pub rest: Seq<bool>,
    pub prev: u32,
    pub block: Seq<u32>,
}

/// Reads `c` blocks from the bits, one after the other, each value the one before it XOR
/// its delta (0 before the first); none when the bits run out.
pub open spec fn decoded(bits: Seq<bool>, c: int) -> Option<DecodeState>
    decreases c,
{
    if c <= 0 {
        Some(DecodeState { values: Seq::empty(), rest: bits, prev: 0, block: Seq::new(8, |i: int| 0u32) })
    } else {
        match decoded(bits, c - 1) {
            Some(st) => if st.rest.len() >= 5 && st.rest.len() >= block_len(st.rest) {
                let blk = xor_run(st.prev, read_deltas(st.rest));
                Some(DecodeState { values: st.values + blk, rest: st.rest.skip(block_len(st.rest)), prev: blk[7], block: blk })
            } else {
                None
            },
            None => None,
        }
    }
}

proof fn lemma_decoded_shape(bits: Seq<bool>, c: int)
    requires
        c >= 0,
    ensures
        decoded(bits, c) matches Some(st) ==> st.values.len() == 8 * c && st.block.len() == 8 && (c > 0 ==> st.values.subrange(8 * c - 8, 8 * c) == st.block && st.prev == st.block[7]),
    decreases c,
{
    if c > 0 {
        lemma_decoded_shape(bits, c - 1);
        if let Some(st) = decoded(bits, c) {
            assert(st.values.subrange(8 * c - 8, 8 * c) =~= st.block);
        }
    }
}

/// Once reading fails, reading more blocks fails too.
proof fn lemma_decoded_fails(bits: Seq<bool>, c: int, m: int)
    requires
        0 <= c <= m,
        decoded(bits, c) is None,
    ensures
        decoded(bits, m) is None,
    decreases m - c,
{
    if c < m {
        lemma_decoded_fails(bits, c, m - 1);
    }
}

/// Reads `n` levels from compressed bytes (see `decoded`): each value read from a
/// `ValuesDecompressor` cut to 16 bits.
#[verifier::spinoff_prover]
#[verifier::rlimit(40)]
pub fn decompress_levels(bytes: &[u8], n: usize) -> (r: Result<Vec<u16>, std::io::Error>)
    ensures
        match decoded(bytes_to_bits(bytes@), (n as int + 7) / 8) {
            Some(st) => r matches Ok(out) && out@ == Seq::new(n as nat, |i: int| st.values[i] as u16),
            None => r is Err,
        },
{
    let mut source = new_bit_source(bytes);
    let ghost bits = bytes_to_bits(bytes@);
    let mut dec = ValuesDecompressor::new();
    let mut out: Vec<u16> = Vec::new();
    let mut i: usize = 0;
    while i < n
        invariant
            bits == bytes_to_bits(bytes@),
            dec.wf(),
            i <= n,
            dec.given() == (if i % 8 == 0 { 8 } else { i % 8 }),
            decoded(bits, (i as int + 7) / 8) matches Some(st) && {
                &&& reader_bits(source) == st.rest
                &&& dec.prev() == st.prev
                &&& (i > 0 ==> dec.block() == st.block)
                &&& out@ == Seq::new(i as nat, |j: int| st.values[j] as u16)
            },
        decreases n - i,
    {
        let ghost c = (i as int + 7) / 8;
        let ghost st = decoded(bits, c)->0;
        proof {
            lemma_decoded_shape(bits, c);
            lemma_decoded_shape(bits, c + 1);
        }
        let res = dec.read_u32(&mut source);
        let v = match res {
            Ok(v) => v,
            Err(e) => {
                proof {
                    assert(i % 8 == 0);
                    assert((i as int + 1 + 7) / 8 == c + 1);
                    lemma_decoded_fails(bits, c + 1, (n as int + 7) / 8);
                }
                return Err(e);
            },
        };
        proof {
            if i % 8 == 0 {
                assert((i as int + 1 + 7) / 8 == c + 1);
                let st2 = decoded(bits, c + 1)->0;
                assert(st2.values[8 * c] == st2.block[0]);
            } else {
                assert((i as int + 1 + 7) / 8 == c);
                assert(st.values[i as int] == st.block[(i % 8) as int]);
            }
        }
        let ghost before = out@;
        out.push(v as u16);
        i = i + 1;
        proof {
            let c2 = (i as int + 7) / 8;
            let st2 = decoded(bits, c2)->0;
            assert(out@ =~= Seq::new(i as nat, |j: int| st2.values[j] as u16));
        }
    }
    Ok(out)
}

/// Running XOR from `prev` over the deltas of values from `prev` gives back the values.
proof fn lemma_xor_run_deltas(q: u32, ws: Seq<u32>)
    ensures
        xor_run(q, deltas(q, ws)) == ws,
{
    let d = deltas(q, ws);
    assert forall|i: int| 0 <= i < ws.len() implies xor_upto(q, d, i) == ws[i] by {
        lemma_xor_upto(q, ws, i);
    }
    assert(xor_run(q, d) =~= ws);
}

proof fn lemma_xor_upto(q: u32, ws: Seq<u32>, i: int)
    requires
        0 <= i < ws.len(),
    ensures
        xor_upto(q, deltas(q, ws), i) == ws[i],
    decreases i,
{
    let d = deltas(q, ws);
    let a: u32 = if i == 0 { q } else { ws[i - 1] };
    let b: u32 = ws[i];
    if i > 0 {
        lemma_xor_upto(q, ws, i - 1);
    }
    assert(xor_upto(q, d, i - 1) == a);
    assert(d[i] == b ^ a);
    assert(a ^ (b ^ a) == b) by (bit_vector);
}

/// The bits of the bytes that bits make are those bits, up to the last whole byte.
proof fn lemma_bytes_bits_round_trip(s: Seq<bool>)
    ensures
        bytes_to_bits(bits_to_bytes(s)) == s.take((s.len() / 8 * 8) as int),
    decreases s.len(),
{
    let m = (s.len() / 8) as int;
    let b = bits_to_bytes(s);
    if m == 0 {
        assert(s.take(0) =~= Seq::<bool>::empty());
    } else {
        let s0 = s.take(8 * m - 8);
        assert(s0.len() / 8 == m - 1);
        lemma_bytes_bits_round_trip(s0);
        assert(b.drop_last() =~= bits_to_bytes(s0)) by {
            assert forall|i: int| 0 <= i < m - 1 implies #[trigger] b.drop_last()[i] == bits_to_bytes(s0)[i] by {
                assert(s.subrange(8 * i, 8 * i + 8) =~= s0.subrange(8 * i, 8 * i + 8));
            }
        }
        let last = s.subrange(8 * m - 8, 8 * m);
        lemma_bits_value_bound(last);
        lemma2_to64();
        lemma_bits_value_round_trip(last);
        assert(b.last() as int == bits_value(last));
        assert(s0.take((s0.len() / 8 * 8) as int) =~= s0);
        assert(s.take((s.len() / 8 * 8) as int) =~= s0 + last);
    }
}

/// Blocks of deltas read back from their bits, whatever follows them, are the values they
/// came from.
proof fn lemma_blocks_round_trip(vs: Seq<u32>, t: Seq<bool>, c: int)
    requires
        c >= 0,
        vs.len() == 8 * c,
    ensures
        decoded(blocks_bits(deltas(0, vs)) + t, c) matches Some(st) && {
            &&& st.values == vs
            &&& st.rest == t
            &&& st.prev == (if c > 0 { vs[8 * c - 1] } else { 0u32 })
        },
    decreases c,
{
    let d = deltas(0, vs);
    if c == 0 {
        assert(blocks_bits(d) + t =~= t);
        assert(Seq::<u32>::empty() =~= vs);
    } else {
        let k = 8 * c;
        let vs0 = vs.take(k - 8);
        let ws = vs.subrange(k - 8, k);
        let q: u32 = if c > 1 { vs[k - 9] } else { 0u32 };
        let dl = d.subrange(k - 8, k);
        assert(d.len() / 8 * 8 == k);
        assert(d.take(k - 8) =~= deltas(0, vs0));
        assert(dl =~= deltas(q, ws));
        let t1 = block_bits(dl) + t;
        lemma_blocks_round_trip(vs0, t1, c - 1);
        assert(blocks_bits(d) + t =~= blocks_bits(deltas(0, vs0)) + t1);
        lemma_block_round_trip(dl, t);
        lemma_xor_run_deltas(q, ws);
        let st = decoded(blocks_bits(d) + t, c)->0;
        assert(vs0 + ws =~= vs);
    }
}

/// What a new `ValuesCompressor` writes for values `vs` and one `flush`: the whole blocks
/// of their deltas, then, where some are left over, those made a block of eight with
/// zeros.
pub open spec fn flushed_stream(vs: Seq<u32>) -> Seq<bool> {
    let d = deltas(0, vs);
    let k = (vs.len() / 8 * 8) as int;
    if k == vs.len() {
        blocks_bits(d)
    } else {
        blocks_bits(d) + block_bits(padded(d.skip(k)))
    }
}

/// What a `ValuesCompressor` holds after taking values `vs` from new: the bits of the
/// whole blocks of their deltas written, the other deltas pending, the last value kept.
pub open spec fn fed_state(vs: Seq<u32>, pending: Seq<u32>, prev: u32, written: Seq<bool>) -> bool {
    let d = deltas(0, vs);
    let k = (vs.len() / 8 * 8) as int;
    &&& pending == d.skip(k)
    &&& prev == (if vs.len() == 0 { 0u32 } else { vs.last() })
    &&& written == blocks_bits(d)
}

/// `write_u32` (see its contract) takes one more value: from the state after `vs`, it
/// leaves the state after `vs` and `v`.
pub proof fn lemma_fed_write(
    vs: Seq<u32>,
    pending: Seq<u32>,
    prev: u32,
    written: Seq<bool>,
    v: u32,
    pending2: Seq<u32>,
    written2: Seq<bool>,
)
    requires
        fed_state(vs, pending, prev, written),
        pending.push(v ^ prev).len() < 8 ==> pending2 == pending.push(v ^ prev) && written2 == written,
        pending.push(v ^ prev).len() >= 8 ==> pending2 == Seq::<u32>::empty() && written2 == written + block_bits(pending.push(v ^ prev)),
    ensures
        fed_state(vs.push(v), pending2, v, written2),
{
    let n = vs.len() as int;
    let d = deltas(0, vs);
    let d2 = deltas(0, vs.push(v));
    let k = n / 8 * 8;
    assert(d2 =~= d.push(v ^ prev));
    assert(d2.take(k) =~= d.take(k));
    lemma_blocks_bits_whole(d);
    lemma_blocks_bits_whole(d2);
    if (n + 1) % 8 != 0 {
        assert((n + 1) / 8 * 8 == k);
        assert(pending.push(v ^ prev) =~= d2.skip(k));
        assert(d2.take(k) =~= d2.take((d2.len() / 8 * 8) as int));
    } else {
        assert((n + 1) / 8 * 8 == k + 8);
        assert(d2.len() / 8 * 8 == k + 8);
        assert(d2.take(k + 8 - 8) =~= d.take(k));
        assert(d2.subrange(k, k + 8) =~= pending.push(v ^ prev));
        assert(d2.skip(k + 8) =~= Seq::<u32>::empty());
    }
}

/// `flush` (see its contract) ends the stream: from the state after `vs`, the bits
/// written are those `flushed_stream` gives.
pub proof fn lemma_fed_flush(vs: Seq<u32>, pending: Seq<u32>, prev: u32, written: Seq<bool>, written2: Seq<bool>)
    requires
        fed_state(vs, pending, prev, written),
        pending.len() == 0 ==> written2 == written,
        pending.len() > 0 ==> written2 == written + block_bits(padded(pending)),
    ensures
        written2 == flushed_stream(vs),
{
}

proof fn lemma_xor_upto_prefix(q: u32, a: Seq<u32>, b: Seq<u32>, i: int)
    requires
        i < a.len(),
        i < b.len(),
        forall|j: int| 0 <= j <= i ==> a[j] == b[j],
    ensures
        xor_upto(q, a, i) == xor_upto(q, b, i),
    decreases i + 1,
{
    if i >= 0 {
        lemma_xor_upto_prefix(q, a, b, i - 1);
    }
}

/// Values written to a new `ValuesCompressor` and flushed once are read back in order:
/// reading the blocks written (see `decoded`), whatever bits follow them, gives those
/// values first and leaves the bits that follow.
pub proof fn lemma_stream_round_trip(vs: Seq<u32>, t: Seq<bool>)
    ensures
        decoded(flushed_stream(vs) + t, (vs.len() as int + 7) / 8) matches Some(st)
            && st.values.take(vs.len() as int) == vs
            && st.rest == t,
{
    let n = vs.len() as int;
    let c = n / 8;
    let k = 8 * c;
    let d = deltas(0, vs);
    if k == n {
        assert((n + 7) / 8 == c);
        lemma_blocks_round_trip(vs, t, c);
        let st = decoded(flushed_stream(vs) + t, c)->0;
        assert(st.values.take(n) =~= vs);
    } else {
        assert((n + 7) / 8 == c + 1);
        assert(n / 8 * 8 == k);
        let vs0 = vs.take(k);
        let ws = vs.skip(k);
        let q: u32 = if c > 0 { vs[k - 1] } else { 0u32 };
        let pd = padded(d.skip(k));
        lemma_blocks_bits_whole(d);
        assert(d.take(k) =~= deltas(0, vs0));
        assert(vs0.len() / 8 * 8 == k);
        lemma_blocks_bits_whole(deltas(0, vs0));
        assert(deltas(0, vs0).take(k) =~= deltas(0, vs0));
        let t1 = block_bits(pd) + t;
        assert(flushed_stream(vs) + t =~= blocks_bits(deltas(0, vs0)) + t1);
        lemma_blocks_round_trip(vs0, t1, c);
        assert(pd.len() == 8);
        lemma_block_round_trip(pd, t);
        let st0 = decoded(flushed_stream(vs) + t, c)->0;
        assert(st0.prev == q);
        let blk = xor_run(q, read_deltas(st0.rest));
        assert(read_deltas(st0.rest) == pd);
        assert(d.skip(k) =~= deltas(q, ws));
        assert forall|i: int| 0 <= i < ws.len() implies #[trigger] blk[i] == ws[i] by {
            lemma_xor_upto_prefix(q, pd, deltas(q, ws), i);
            lemma_xor_upto(q, ws, i);
        }
        let st = decoded(flushed_stream(vs) + t, c + 1)->0;
        assert(st.values == st0.values + blk);
        assert(st.values.take(n) =~= vs);
    }
}

/// A frame whose number of levels is a multiple of eight is read back as it was stored:
/// the bytes that compressing its levels gives decompress to those levels.
pub proof fn lemma_levels_round_trip(data: Seq<u16>)
    requires
        data.len() % 8 == 0,
    ensures
        decoded(bytes_to_bits(bits_to_bytes(levels_stream(data))), (data.len() as int + 7) / 8) matches Some(st)
            && Seq::new(data.len(), |i: int| st.values[i] as u16) == data,
{
    let n = data.len() as int;
    let c = n / 8;
    assert((n + 7) / 8 == c);
    let vs = widened(data);
    let s = levels_stream(data);
    let b = blocks_bits(deltas(0, vs));
    lemma_bits_of_len(0, 32);
    lemma_bytes_bits_round_trip(s);
    let t = s.take((s.len() / 8 * 8) as int).skip(b.len() as int);
    assert(s.take((s.len() / 8 * 8) as int) =~= b + t);
    lemma_blocks_round_trip(vs, t, c);
    let st = decoded(b + t, c)->0;
    assert(Seq::new(data.len(), |i: int| st.values[i] as u16) =~= data);
}

} // verus!
