use vstd::prelude::*;

use crate::indi::base64::{
    base64_decode, can_take_result, decode_groups, decode_tail, feed_bytes, group_bytes, lemma_decoder_decodes, sextet_of, sextets,
    tail_bytes,
};

verus! {

/// The alphabet character of a sextet value (`A`-`Z`, `a`-`z`, `0`-`9`, `+`, `/`).
pub open spec fn char_of(v: int) -> u8 {
    if v < 26 {
        (65 + v) as u8
    } else if v < 52 {
        (97 + v - 26) as u8
    } else if v < 62 {
        (48 + v - 52) as u8
    } else if v == 62 {
        43
    } else {
        47
    }
}

/// The four characters of three bytes.
pub open spec fn encode3(x: u8, y: u8, z: u8) -> Seq<u8> {
    let v = x as int * 0x1_0000 + y as int * 0x100 + z as int;
    seq![char_of(v / 0x4_0000), char_of((v / 0x1000) % 64), char_of((v / 64) % 64), char_of(v % 64)]
}

/// The characters of whole groups of three bytes.
pub open spec fn encode_groups(b: Seq<u8>) -> Seq<u8>
    decreases b.len(),
{
    if b.len() < 3 {
        Seq::empty()
    } else {
        let n = b.len() as int;
        encode_groups(b.take(n - 3)) + encode3(b[n - 3], b[n - 2], b[n - 1])
    }
}

/// The characters of a last group of one or two bytes, padded with `=`.
pub open spec fn encode_tail(t: Seq<u8>) -> Seq<u8> {
    if t.len() == 1 {
        seq![char_of(t[0] as int / 4), char_of((t[0] as int % 4) * 16), 61u8, 61u8]
    } else if t.len() == 2 {
        seq![
            char_of(t[0] as int / 4),
            char_of((t[0] as int % 4) * 16 + t[1] as int / 16),
            char_of((t[1] as int % 16) * 4),
            61u8,
        ]
    } else {
        Seq::empty()
    }
}

/// Standard base64 (RFC 4648) of bytes, with `=` padding.
pub open spec fn base64_encode(b: Seq<u8>) -> Seq<u8> {
    let full = b.len() - b.len() % 3;
    encode_groups(b.take(full)) + encode_tail(b.skip(full))
}

proof fn lemma_sextet_of_char(v: int)
    requires
        0 <= v < 64,
    ensures
        sextet_of(char_of(v)) == v,
{
}

proof fn lemma_sextets_concat(x: Seq<u8>, y: Seq<u8>)
    ensures
        sextets(x + y) == sextets(x) + sextets(y),
    decreases y.len(),
{
    if y.len() == 0 {
        assert(x + y =~= x);
        assert(sextets(x) + sextets(y) =~= sextets(x));
    } else {
        lemma_sextets_concat(x, y.drop_last());
        assert((x + y).drop_last() =~= x + y.drop_last());
        assert((x + y).last() == y.last());
        if sextet_of(y.last()) != 255 {
            assert(sextets(x) + sextets(y) =~= (sextets(x) + sextets(y.drop_last())).push(sextet_of(y.last())));
        }
    }
}

proof fn lemma_group_arith(x: u32, y: u32, z: u32)
    requires
        x < 256,
        y < 256,
        z < 256,
    ensures
        ({
            let v = x * 0x1_0000 + y * 0x100 + z;
            let a = v / 0x4_0000;
            let b = (v / 0x1000) % 64;
            let c = (v / 64) % 64;
            let d = v % 64;
            let w = a * 0x4_0000 + b * 0x1000 + c * 64 + d;
            &&& a < 64
            &&& w == v
            &&& w / 0x1_0000 == x
            &&& (w / 0x100) % 256 == y
            &&& w % 256 == z
        }),
{
    let v = x * 0x1_0000 + y * 0x100 + z;
    assert(v < 0x100_0000);
    assert(v / 0x4_0000 < 64);
    assert((v / 0x4_0000) * 0x4_0000 + ((v / 0x1000) % 64) * 0x1000 + ((v / 64) % 64) * 64 + v % 64 == v) by (nonlinear_arith)
        requires 0 <= v < 0x100_0000;
    assert(v / 0x1_0000 == x) by (nonlinear_arith)
        requires v == x * 0x1_0000 + y * 0x100 + z, y < 256, z < 256, x < 256;
    assert((v / 0x100) % 256 == y) by (nonlinear_arith)
        requires v == x * 0x1_0000 + y * 0x100 + z, y < 256, z < 256, x < 256;
    assert(v % 256 == z) by (nonlinear_arith)
        requires v == x * 0x1_0000 + y * 0x100 + z, y < 256, z < 256, x < 256;
}

/// The sextets of three bytes' characters decode to those bytes.
proof fn lemma_encode3(x: u8, y: u8, z: u8)
    ensures
        ({
            let s = sextets(encode3(x, y, z));
            &&& s.len() == 4
            &&& group_bytes(s[0], s[1], s[2], s[3]) == seq![x, y, z]
        }),
{
    let v = x as int * 0x1_0000 + y as int * 0x100 + z as int;
    lemma_group_arith(x as u32, y as u32, z as u32);
    let a = v / 0x4_0000;
    let b = (v / 0x1000) % 64;
    let c = (v / 64) % 64;
    let d = v % 64;
    lemma_sextet_of_char(a);
    lemma_sextet_of_char(b);
    lemma_sextet_of_char(c);
    lemma_sextet_of_char(d);
    let e = encode3(x, y, z);
    reveal_with_fuel(sextets, 5);
    assert(e.drop_last().drop_last().drop_last().drop_last() =~= Seq::<u8>::empty());
    assert(sextets(e) =~= seq![a as u8, b as u8, c as u8, d as u8]);
    assert(group_bytes(a as u8, b as u8, c as u8, d as u8) =~= seq![x, y, z]);
}

proof fn lemma_encode_groups(b: Seq<u8>)
    requires
        b.len() % 3 == 0,
    ensures
        sextets(encode_groups(b)).len() == b.len() / 3 * 4,
        decode_groups(sextets(encode_groups(b))) == b,
    decreases b.len(),
{
    if b.len() < 3 {
        assert(b =~= Seq::<u8>::empty());
    } else {
        let n = b.len() as int;
        let p = b.take(n - 3);
        lemma_encode_groups(p);
        lemma_encode3(b[n - 3], b[n - 2], b[n - 1]);
        let e3 = encode3(b[n - 3], b[n - 2], b[n - 1]);
        lemma_sextets_concat(encode_groups(p), e3);
        let s = sextets(encode_groups(b));
        let sp = sextets(encode_groups(p));
        let q = sextets(e3);
        assert(s == sp + q);
        let m = s.len() as int;
        assert(s.take(m - 4) =~= sp);
        assert(s[m - 4] == q[0] && s[m - 3] == q[1] && s[m - 2] == q[2] && s[m - 1] == q[3]);
        assert(p + seq![b[n - 3], b[n - 2], b[n - 1]] =~= b);
    }
}

/// The sextets of a padded last group decode to its bytes.
proof fn lemma_encode_tail(t: Seq<u8>)
    requires
        t.len() < 3,
    ensures
        sextets(encode_tail(t)).len() == (if t.len() == 0 { 0 } else { t.len() + 1 }),
        decode_tail(sextets(encode_tail(t))) == t,
{
    let st = sextets(encode_tail(t));
    reveal_with_fuel(sextets, 5);
    if t.len() == 1 {
        let x = t[0] as int;
        lemma_sextet_of_char(x / 4);
        lemma_sextet_of_char((x % 4) * 16);
        let e = encode_tail(t);
        assert(e.drop_last().drop_last().drop_last().drop_last() =~= Seq::<u8>::empty());
        assert(st =~= seq![(x / 4) as u8, ((x % 4) * 16) as u8]);
        assert(((x / 4) * 4 + ((x % 4) * 16) / 16) == x) by (nonlinear_arith)
            requires 0 <= x < 256;
        assert(decode_tail(st) =~= t);
    } else if t.len() == 2 {
        let x = t[0] as int;
        let y = t[1] as int;
        lemma_sextet_of_char(x / 4);
        assert(0 <= (x % 4) * 16 + y / 16 < 64) by (nonlinear_arith)
            requires 0 <= x < 256, 0 <= y < 256;
        lemma_sextet_of_char((x % 4) * 16 + y / 16);
        lemma_sextet_of_char((y % 16) * 4);
        let e = encode_tail(t);
        assert(e.drop_last().drop_last().drop_last().drop_last() =~= Seq::<u8>::empty());
        assert(st =~= seq![(x / 4) as u8, ((x % 4) * 16 + y / 16) as u8, ((y % 16) * 4) as u8]);
        assert(((x / 4) * 4 + ((x % 4) * 16 + y / 16) / 16) == x) by (nonlinear_arith)
            requires 0 <= x < 256, 0 <= y < 256;
        assert((((x % 4) * 16 + y / 16) % 16) * 16 + ((y % 16) * 4) / 4 == y) by (nonlinear_arith)
            requires 0 <= x < 256, 0 <= y < 256;
        assert(decode_tail(st) =~= t);
    } else {
        assert(st =~= Seq::<u8>::empty());
        assert(decode_tail(st) =~= t);
    }
}

/// Decoding the standard base64 of bytes gives the bytes back, and a fresh decoder fed
/// that text and flushed hands them out (its count of alphabet characters never leaves a
/// single one over, so the flush is allowed); `lemma_feed_concat` gives the same for the
/// text fed in pieces.
pub proof fn lemma_decode_encode(b: Seq<u8>)
    ensures
        sextets(base64_encode(b)).len() % 4 != 1,
        base64_decode(base64_encode(b)) == b,
        ({
            let st = feed_bytes(Seq::empty(), 1, base64_encode(b));
            &&& can_take_result(st.1)
            &&& st.0 + tail_bytes(st.1) == b
        }),
{
    let full = b.len() - b.len() % 3;
    let g = b.take(full);
    let t = b.skip(full);
    assert(g.len() % 3 == 0);
    lemma_encode_groups(g);
    lemma_encode_tail(t);
    lemma_sextets_concat(encode_groups(g), encode_tail(t));
    let sg = sextets(encode_groups(g));
    let st = sextets(encode_tail(t));
    let s = sextets(base64_encode(b));
    assert(s == sg + st);
    assert(sg.len() % 4 == 0) by (nonlinear_arith)
        requires sg.len() == g.len() / 3 * 4;
    let k = s.len() - s.len() % 4;
    assert(k == sg.len());
    assert(s.take(k) =~= sg);
    assert(s.skip(k) =~= st);
    assert(g + t =~= b);
    lemma_decoder_decodes(base64_encode(b));
}

} // verus!
