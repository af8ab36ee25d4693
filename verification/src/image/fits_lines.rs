use vstd::prelude::*;

use crate::image::simple_fits::{
    is_first_key, key_value, blank_bytes, block_has_end, block_valid, find_char, fit80, header_bytes, is_end_line, line_bytes, pad_left, pad_right,
    parse_record, record_line, records_between, records_bytes, scan_end, shrink80, spaces, Entry, ScanEnd,
};
use vstd::utf8::{decode_utf8, encode_utf8};
use crate::text::{ascii_lower, byte_len, char_width, eq_ignore_ascii_case, is_ws, lemma_byte_len_push, trim, trim_end, trim_start};

verus! {

/// The comment a record line shows: the record's own, else its name.
pub open spec fn shown_comment(e: Entry) -> Seq<char> {
    match e.2 {
        Some(c) => c,
        None => e.0,
    }
}

/// Every character is ASCII.
pub open spec fn is_ascii(s: Seq<char>) -> bool {
    forall|i: int| 0 <= i < s.len() ==> (#[trigger] s[i] as u32) < 128
}

/// A record that the writer lays out in one line and the reader reads back: ASCII text; a
/// name, not empty, without `=`; a value without `/`; neither starting or ending with
/// white space; and the line (the name padded to 8, `= `, the value in 20, ` / `, the
/// comment) at most 80 characters.
pub open spec fn plain_record(e: Entry) -> bool {
    &&& e.0.len() > 0
    &&& !is_ws(e.0[0]) && !is_ws(e.0.last())
    &&& forall|i: int| 0 <= i < e.0.len() ==> #[trigger] e.0[i] != '='
    &&& e.1.len() > 0 ==> !is_ws(e.1[0]) && !is_ws(e.1.last())
    &&& forall|i: int| 0 <= i < e.1.len() ==> #[trigger] e.1[i] != '/'
    &&& is_ascii(e.0) && is_ascii(e.1) && is_ascii(shown_comment(e))
    &&& (if e.0.len() < 8 { 8 } else { e.0.len() as int }) + 2 + (if e.1.len() < 20 { 20 } else { e.1.len() as int }) + 3
        + shown_comment(e).len() <= 80
}

proof fn lemma_ascii_byte_len(s: Seq<char>)
    requires
        is_ascii(s),
    ensures
        byte_len(s) == s.len(),
    decreases s.len(),
{
    if s.len() > 0 {
        let t = s.drop_last();
        assert forall|i: int| 0 <= i < t.len() implies (#[trigger] t[i] as u32) < 128 by {
            assert(t[i] == s[i]);
        }
        lemma_ascii_byte_len(t);
        lemma_byte_len_push(t, s.last());
        assert(t.push(s.last()) =~= s);
        assert((s.last() as u32) < 128);
        assert(char_width(s.last()) == 1);
    } else {
        assert(byte_len(s) == 0) by {
            assert(s =~= Seq::<char>::empty());
        }
    }
}

proof fn lemma_trim_end_concat(p: Seq<char>, q: Seq<char>)
    requires
        p.len() > 0,
        !is_ws(p.last()),
    ensures
        trim_end(p + q) == p + trim_end(q),
    decreases q.len(),
{
    if q.len() == 0 {
        assert(p + q =~= p);
        assert(p + trim_end(q) =~= p);
    } else if is_ws(q.last()) {
        assert((p + q).drop_last() =~= p + q.drop_last());
        lemma_trim_end_concat(p, q.drop_last());
    } else {
        assert((p + q).last() == q.last());
    }
}

proof fn lemma_trim_end_all_ws(s: Seq<char>)
    requires
        forall|i: int| 0 <= i < s.len() ==> is_ws(#[trigger] s[i]),
    ensures
        trim_end(s) == Seq::<char>::empty(),
    decreases s.len(),
{
    if s.len() > 0 {
        let t = s.drop_last();
        assert forall|i: int| 0 <= i < t.len() implies is_ws(#[trigger] t[i]) by {
            assert(t[i] == s[i]);
        }
        lemma_trim_end_all_ws(t);
    }
}

proof fn lemma_trim_end_twice(s: Seq<char>)
    ensures
        trim_end(trim_end(s)) == trim_end(s),
    decreases s.len(),
{
    if s.len() > 0 && is_ws(s.last()) {
        lemma_trim_end_twice(s.drop_last());
    }
}

proof fn lemma_trim_start_ws_prefix(w: Seq<char>, s: Seq<char>)
    requires
        forall|i: int| 0 <= i < w.len() ==> is_ws(#[trigger] w[i]),
    ensures
        trim_start(w + s) == trim_start(s),
    decreases w.len(),
{
    if w.len() == 0 {
        assert(w + s =~= s);
    } else {
        let t = w.drop_first();
        assert forall|i: int| 0 <= i < t.len() implies is_ws(#[trigger] t[i]) by {
            assert(t[i] == w[i + 1]);
        }
        assert((w + s)[0] == w[0]);
        assert((w + s).drop_first() =~= t + s);
        lemma_trim_start_ws_prefix(t, s);
    }
}

proof fn lemma_find_char_at(s: Seq<char>, c: char, k: int)
    requires
        0 <= k < s.len(),
        s[k] == c,
        forall|j: int| 0 <= j < k ==> s[j] != c,
    ensures
        find_char(s, c) == Some(k),
{
    let i = choose|i: int| 0 <= i < s.len() && s[i] == c && forall|j: int| 0 <= j < i ==> s[j] != c;
    assert(0 <= i < s.len() && s[i] == c && forall|j: int| 0 <= j < i ==> s[j] != c);
    if i < k {
        assert(s[i] != c);
    }
    if i > k {
        assert(s[k] != c);
    }
}

proof fn lemma_spaces_ws(n: int)
    ensures
        forall|i: int| 0 <= i < spaces(n).len() ==> is_ws(#[trigger] spaces(n)[i]) && spaces(n)[i] == ' ',
{
}

/// The record's value as the line shows it: quoted text left-aligned in 20, other values
/// right-aligned in 20.
pub open spec fn shown_value(e: Entry) -> Seq<char> {
    if e.1.len() > 0 && e.1[0] == '\'' {
        pad_right(e.1, 20)
    } else {
        pad_left(e.1, 20)
    }
}

/// The line up to the `/` before the comment.
pub open spec fn line_head(e: Entry) -> Seq<char> {
    pad_right(e.0, 8) + seq!['=', ' '] + shown_value(e) + seq![' ', '/']
}

proof fn lemma_line_shape(e: Entry)
    requires
        plain_record(e),
    ensures
        ({
            let l = line_head(e) + seq![' '] + shown_comment(e);
            &&& record_line(e) == line_head(e) + (seq![' '] + shown_comment(e) + spaces(80 - l.len()))
            &&& record_line(e) == l + spaces(80 - l.len())
            &&& is_ascii(l)
            &&& l.len() <= 80
        }),
{
    let n = e.0;
    let v = e.1;
    let c = shown_comment(e);
    let quoted = v.len() > 0 && v[0] == '\'';
    let vv = shown_value(e);
    let nn = pad_right(n, 8);
    let l = nn + seq!['=', ' '] + vv + seq![' ', '/', ' '] + c;
    lemma_spaces_ws(8 - n.len());
    lemma_spaces_ws(20 - v.len());
    assert(is_ascii(l)) by {
        assert forall|i: int| 0 <= i < l.len() implies (#[trigger] l[i] as u32) < 128 by {
            if i < nn.len() {
                if i >= n.len() {
                    assert(nn[i] == ' ');
                } else {
                    assert(nn[i] == n[i]);
                }
            } else if i < nn.len() + 2 {
            } else if i < nn.len() + 2 + vv.len() {
                let j = i - nn.len() - 2;
                if quoted {
                    if j < v.len() {
                        assert(vv[j] == v[j]);
                    } else {
                        assert(vv[j] == ' ');
                    }
                } else {
                    let pad = vv.len() - v.len();
                    if j < pad {
                        assert(vv[j] == ' ');
                    } else {
                        assert(vv[j] == v[j - pad]);
                    }
                }
            } else if i < nn.len() + 5 + vv.len() {
            } else {
                assert(l[i] == c[i - nn.len() - 5 - vv.len()]);
            }
        }
    }
    lemma_ascii_byte_len(l);
    assert(record_line(e) =~= l + spaces(80 - l.len())) by {
        if l.len() >= 80 {
            assert(shrink80(l) == l);
            assert(spaces(80 - l.len()) =~= Seq::<char>::empty());
        }
    }
    assert(line_head(e) + seq![' '] + c =~= l);
    assert(l + spaces(80 - l.len()) =~= line_head(e) + (seq![' '] + c + spaces(80 - l.len())));
}

proof fn lemma_name_part(e: Entry, qt: Seq<char>)
    requires
        plain_record(e),
    ensures
        find_char(line_head(e) + qt, '=') == Some(pad_right(e.0, 8).len() as int),
        trim((line_head(e) + qt).take(pad_right(e.0, 8).len() as int)) == e.0,
{
    let n = e.0;
    let nn = pad_right(n, 8);
    let t = line_head(e) + qt;
    let k = nn.len() as int;
    lemma_spaces_ws(8 - n.len());
    assert forall|j: int| 0 <= j < k implies t[j] != '=' by {
        if j < n.len() {
            assert(t[j] == n[j]);
        } else {
            assert(t[j] == nn[j]);
            assert(nn[j] == ' ');
        }
    }
    assert(t[k] == '=');
    lemma_find_char_at(t, '=', k);
    assert(t.take(k) =~= nn);
    lemma_trim_end_concat(n, spaces(8 - n.len()));
    lemma_trim_end_all_ws(spaces(8 - n.len()));
    assert(trim_start(nn) == nn) by {
        assert(nn[0] == n[0]);
    }
    assert(n + Seq::<char>::empty() =~= n);
}

proof fn lemma_value_part(e: Entry, qt: Seq<char>)
    requires
        plain_record(e),
        trim_end(qt) == qt,
    ensures
        ({
            let vac = trim((line_head(e) + qt).skip(pad_right(e.0, 8).len() + 1int));
            find_char(vac, '/') matches Some(p) && trim(vac.take(p)) == e.1
        }),
{
    let v = e.1;
    let quoted = v.len() > 0 && v[0] == '\'';
    let vv = shown_value(e);
    let k = pad_right(e.0, 8).len() as int;
    let rest = (line_head(e) + qt).skip(k + 1);
    assert(rest =~= seq![' '] + vv + seq![' ', '/'] + qt);
    lemma_spaces_ws(20 - v.len());
    if v.len() > 0 {
        let lead = if quoted { seq![' '] } else { seq![' '] + spaces(20 - v.len()) };
        let rs = if quoted { spaces(20 - v.len()) } else { Seq::<char>::empty() };
        let r1 = v + rs + seq![' ', '/'];
        assert(rest =~= lead + (r1 + qt));
        assert forall|i: int| 0 <= i < lead.len() implies is_ws(#[trigger] lead[i]) by {
            if !quoted && i > 0 {
                assert(lead[i] == spaces(20 - v.len())[i - 1]);
            }
        }
        lemma_trim_start_ws_prefix(lead, r1 + qt);
        assert(trim_start(r1 + qt) == r1 + qt) by {
            assert((r1 + qt)[0] == v[0]);
        }
        lemma_trim_end_concat(r1, qt);
        let vac = r1 + qt;
        assert(trim(rest) == vac);
        let pos = (v.len() + rs.len() + 1) as int;
        assert forall|j: int| 0 <= j < pos implies vac[j] != '/' by {
            if j < v.len() {
                assert(vac[j] == v[j]);
            } else if j < v.len() + rs.len() {
                assert(vac[j] == rs[j - v.len()]);
            }
        }
        assert(vac[pos] == '/');
        lemma_find_char_at(vac, '/', pos);
        let head = vac.take(pos);
        let tail = rs + seq![' '];
        assert(head =~= v + tail);
        assert forall|i: int| 0 <= i < tail.len() implies is_ws(#[trigger] tail[i]) by {
            if i < rs.len() {
                assert(tail[i] == rs[i]);
            }
        }
        lemma_trim_end_concat(v, tail);
        lemma_trim_end_all_ws(tail);
        assert(v + Seq::<char>::empty() =~= v);
        assert(trim_start(head) == head) by {
            assert(head[0] == v[0]);
        }
    } else {
        let lead = seq![' '] + spaces(20) + seq![' '];
        let r1 = seq!['/'];
        assert(vv =~= spaces(20));
        assert(rest =~= lead + (r1 + qt));
        lemma_spaces_ws(20);
        assert forall|i: int| 0 <= i < lead.len() implies is_ws(#[trigger] lead[i]) by {
            if 0 < i < 21 {
                assert(lead[i] == spaces(20)[i - 1]);
            }
        }
        lemma_trim_start_ws_prefix(lead, r1 + qt);
        lemma_trim_end_concat(r1, qt);
        let vac = r1 + qt;
        assert(trim(rest) == vac);
        lemma_find_char_at(vac, '/', 0);
        assert(vac.take(0) =~= Seq::<char>::empty());
        assert(trim(vac.take(0)) =~= v);
    }
}

/// A record line that the writer lays out (see `record_line`) reads back, by the reader's
/// parse of a line (see `parse_record`), as the record's name and value, where the record
/// is plain (see `plain_record`).
pub proof fn lemma_record_line_round_trip(e: Entry)
    requires
        plain_record(e),
    ensures
        parse_record(record_line(e)) matches Some(r) && r.0 == e.0 && r.1 == e.1,
{
    let l = line_head(e) + seq![' '] + shown_comment(e);
    let q = seq![' '] + shown_comment(e) + spaces(80 - l.len());
    lemma_line_shape(e);
    let line = record_line(e);
    assert(trim_start(line) == line) by {
        assert(line[0] == e.0[0]);
    }
    lemma_trim_end_concat(line_head(e), q);
    let qt = trim_end(q);
    lemma_trim_end_twice(q);
    assert(trim(line) == line_head(e) + qt);
    lemma_name_part(e, qt);
    lemma_value_part(e, qt);
}


/// ASCII text is encoded one byte per character, the character's code.
proof fn lemma_ascii_encode(s: Seq<char>)
    requires
        is_ascii(s),
    ensures
        encode_utf8(s) == Seq::new(s.len(), |i: int| (s[i] as u32) as u8),
    decreases s.len(),
{
    if s.len() > 0 {
        let r = s.drop_first();
        assert forall|i: int| 0 <= i < r.len() implies (#[trigger] r[i] as u32) < 128 by {
            assert(r[i] == s[i + 1]);
        }
        lemma_ascii_encode(r);
        let v = s[0] as u32;
        assert(v < 128);
        assert(v & 0x7F == v) by (bit_vector)
            requires v < 128;
        assert(encode_utf8(s) =~= Seq::new(s.len(), |i: int| (s[i] as u32) as u8));
    }
}

/// A plain record's line is 80 ASCII characters.
proof fn lemma_record_line_ascii(e: Entry)
    requires
        plain_record(e),
    ensures
        is_ascii(record_line(e)),
        record_line(e).len() == 80,
        encode_utf8(record_line(e)).len() == 80,
{
    lemma_line_shape(e);
    let l = line_head(e) + seq![' '] + shown_comment(e);
    let line = record_line(e);
    assert forall|i: int| 0 <= i < line.len() implies (#[trigger] line[i] as u32) < 128 by {
        if i < l.len() {
            assert(line[i] == l[i]);
        } else {
            assert(line[i] == ' ');
        }
    }
    lemma_ascii_encode(line);
}

/// The END line: `END` and spaces to 80.
pub open spec fn end_line() -> Seq<char> {
    seq!['E', 'N', 'D'] + spaces(77)
}

/// Line `i` of the header that the writer lays out for records `w`: the records' lines,
/// the END line, then blank lines.
pub open spec fn header_line(w: Seq<Entry>, i: int) -> Seq<char> {
    if i < w.len() {
        record_line(w[i])
    } else if i == w.len() {
        end_line()
    } else {
        spaces(80)
    }
}

/// Lines the writer lays out for records `w`.
pub open spec fn header_lines(w: Seq<Entry>) -> int {
    w.len() + 1 + (36 - (w.len() + 1) % 36)
}

proof fn lemma_records_bytes(w: Seq<Entry>)
    requires
        forall|i: int| 0 <= i < w.len() ==> plain_record(#[trigger] w[i]),
    ensures
        records_bytes(w).len() == 80 * w.len(),
        forall|i: int| 0 <= i < w.len() ==> #[trigger] records_bytes(w).subrange(80 * i, 80 * i + 80) == encode_utf8(record_line(w[i])),
    decreases w.len(),
{
    if w.len() > 0 {
        let u = w.drop_last();
        assert forall|i: int| 0 <= i < u.len() implies plain_record(#[trigger] u[i]) by {
            assert(u[i] == w[i]);
        }
        lemma_records_bytes(u);
        lemma_record_line_ascii(w.last());
        let rb = records_bytes(w);
        assert forall|i: int| 0 <= i < w.len() implies #[trigger] rb.subrange(80 * i, 80 * i + 80) == encode_utf8(record_line(w[i])) by {
            if i < u.len() {
                assert(u[i] == w[i]);
                assert(rb.subrange(80 * i, 80 * i + 80) =~= records_bytes(u).subrange(80 * i, 80 * i + 80));
            } else {
                assert(rb.subrange(80 * i, 80 * i + 80) =~= encode_utf8(record_line(w.last())));
            }
        }
    }
}

/// The bytes of each line of the header the writer lays out are the encoding of that line.
#[verifier::spinoff_prover]
proof fn lemma_header_line_bytes(w: Seq<Entry>, t: Seq<u8>, i: int)
    requires
        forall|j: int| 0 <= j < w.len() ==> plain_record(#[trigger] w[j]),
        0 <= i < header_lines(w),
    ensures
        header_bytes(w).len() == 80 * header_lines(w),
        line_bytes(header_bytes(w) + t, 80 * i) == encode_utf8(header_line(w, i)),
{
    lemma_records_bytes(w);
    let b = header_bytes(w) + t;
    let n = w.len() as int;
    let ltc = 36 - (n + 1) % 36;
    let rb = records_bytes(w);
    let eb = seq![69u8, 78u8, 68u8] + blank_bytes(77);
    assert(header_bytes(w) =~= rb + eb + blank_bytes(80 * ltc));
    if i < n {
        assert(line_bytes(b, 80 * i) =~= rb.subrange(80 * i, 80 * i + 80));
    } else if i == n {
        assert(line_bytes(b, 80 * i) =~= eb);
        lemma_spaces_ws(77);
        assert(is_ascii(end_line())) by {
            assert forall|k: int| 0 <= k < end_line().len() implies (#[trigger] end_line()[k] as u32) < 128 by {
                if k >= 3 {
                    assert(end_line()[k] == ' ');
                }
            }
        }
        lemma_ascii_encode(end_line());
        assert(eb =~= encode_utf8(end_line())) by {
            assert forall|k: int| 0 <= k < 80 implies #[trigger] eb[k] == encode_utf8(end_line())[k] by {
                if k >= 3 {
                    assert(end_line()[k] == ' ');
                }
            }
        }
    } else {
        let off = 80 * (i - n - 1);
        assert(line_bytes(b, 80 * i) =~= blank_bytes(80 * ltc).subrange(off, off + 80));
        lemma_spaces_ws(80);
        assert(is_ascii(spaces(80)));
        lemma_ascii_encode(spaces(80));
        assert(blank_bytes(80 * ltc).subrange(off, off + 80) =~= encode_utf8(spaces(80)));
    }
}

proof fn lemma_trim_start_all_ws(s: Seq<char>)
    requires
        forall|i: int| 0 <= i < s.len() ==> is_ws(#[trigger] s[i]),
    ensures
        trim_start(s) == Seq::<char>::empty(),
    decreases s.len(),
{
    if s.len() > 0 {
        let t = s.drop_first();
        assert forall|i: int| 0 <= i < t.len() implies is_ws(#[trigger] t[i]) by {
            assert(t[i] == s[i + 1]);
        }
        lemma_trim_start_all_ws(t);
    }
}

/// Which header lines close the header, and what records they hold: a record's line is
/// no END line and holds the record's name and value; the END line closes the header;
/// neither it nor a blank line holds a record.
#[verifier::spinoff_prover]
proof fn lemma_header_line_read(w: Seq<Entry>, i: int)
    requires
        forall|j: int| 0 <= j < w.len() ==> plain_record(#[trigger] w[j]),
        0 <= i,
    ensures
        is_end_line(header_line(w, i)) == (i == w.len()),
        i < w.len() ==> (parse_record(header_line(w, i)) matches Some(r) && r.0 == w[i].0 && r.1 == w[i].1),
        i >= w.len() ==> parse_record(header_line(w, i)) is None,
{
    let end = seq!['e', 'n', 'd'];
    if i < w.len() {
        let e = w[i];
        lemma_record_line_round_trip(e);
        lemma_line_shape(e);
        let l = line_head(e) + seq![' '] + shown_comment(e);
        let q = seq![' '] + shown_comment(e) + spaces(80 - l.len());
        let line = record_line(e);
        assert(trim_start(line) == line) by {
            assert(line[0] == e.0[0]);
        }
        lemma_trim_end_concat(line_head(e), q);
        assert(trim(line).len() >= line_head(e).len());
        assert(line_head(e).len() >= 32);
        assert(!eq_ignore_ascii_case(trim(line), end));
    } else if i == w.len() {
        lemma_spaces_ws(77);
        let head = seq!['E', 'N', 'D'];
        assert(end_line() =~= head + spaces(77));
        assert(trim_start(end_line()) == end_line()) by {
            assert(end_line()[0] == 'E');
        }
        lemma_trim_end_concat(head, spaces(77));
        lemma_trim_end_all_ws(spaces(77));
        assert(head + Seq::<char>::empty() =~= head);
        assert(trim(end_line()) == head);
        assert(ascii_lower('E') == ascii_lower('e'));
        assert(ascii_lower('N') == ascii_lower('n'));
        assert(ascii_lower('D') == ascii_lower('d'));
        assert(eq_ignore_ascii_case(head, end));
        assert(find_char(head, '=') is None);
    } else {
        lemma_spaces_ws(80);
        lemma_trim_start_all_ws(spaces(80));
        assert(trim(spaces(80)).len() == 0);
        assert(!eq_ignore_ascii_case(trim(spaces(80)), end));
        assert(find_char(trim(spaces(80)), '=') is None);
    }
}

proof fn lemma_header_records(w: Seq<Entry>, t: Seq<u8>, j: int)
    requires
        forall|i: int| 0 <= i < w.len() ==> plain_record(#[trigger] w[i]),
        0 <= j <= header_lines(w),
    ensures
        ({
            let r = records_between(header_bytes(w) + t, 0, 80 * j);
            let m = if j < w.len() { j } else { w.len() as int };
            &&& r.len() == m
            &&& forall|i: int| 0 <= i < m ==> #[trigger] r[i].0 == w[i].0 && r[i].1 == w[i].1
        }),
    decreases j,
{
    if j > 0 {
        lemma_header_records(w, t, j - 1);
        lemma_header_line_bytes(w, t, j - 1);
        vstd::utf8::encode_utf8_decode_utf8(header_line(w, j - 1));
        lemma_header_line_read(w, j - 1);
        let b = header_bytes(w) + t;
        assert(80 * j - 80 == 80 * (j - 1));
        assert(decode_utf8(line_bytes(b, 80 * (j - 1))) == header_line(w, j - 1));
    }
}

/// Each block of the header the writer lays out is valid text, and the block of the END
/// line is the one that closes the header.
#[verifier::spinoff_prover]
proof fn lemma_header_block(w: Seq<Entry>, t: Seq<u8>, k: int)
    requires
        forall|i: int| 0 <= i < w.len() ==> plain_record(#[trigger] w[i]),
        (w.len() + 1) % 36 != 0,
        0 <= k <= w.len() / 36,
    ensures
        (header_bytes(w) + t).len() >= 2880 * (k + 1),
        block_valid(header_bytes(w) + t, 2880 * k),
        block_has_end(header_bytes(w) + t, 2880 * k) == (k == w.len() / 36),
{
    let n = w.len() as int;
    let b = header_bytes(w) + t;
    let p = 2880 * k;
    assert(header_lines(w) == 36 * (n / 36 + 1));
    lemma_header_line_bytes(w, t, 0);
    assert forall|k2: int| 0 <= k2 < 36 implies vstd::utf8::valid_utf8(#[trigger] line_bytes(b, p + 80 * k2)) by {
        assert(p + 80 * k2 == 80 * (36 * k + k2));
        lemma_header_line_bytes(w, t, 36 * k + k2);
        vstd::utf8::encode_utf8_valid_utf8(header_line(w, 36 * k + k2));
    }
    assert forall|k2: int| 0 <= k2 < 36 implies #[trigger] is_end_line(decode_utf8(line_bytes(b, p + 80 * k2))) == (36 * k + k2 == n) by {
        assert(p + 80 * k2 == 80 * (36 * k + k2));
        lemma_header_line_bytes(w, t, 36 * k + k2);
        vstd::utf8::encode_utf8_decode_utf8(header_line(w, 36 * k + k2));
        lemma_header_line_read(w, 36 * k + k2);
    }
    if k == n / 36 {
        let k2 = n - 36 * k;
        assert(is_end_line(decode_utf8(line_bytes(b, p + 80 * k2))));
    }
}

proof fn lemma_header_scan(w: Seq<Entry>, t: Seq<u8>, k: int)
    requires
        forall|i: int| 0 <= i < w.len() ==> plain_record(#[trigger] w[i]),
        (w.len() + 1) % 36 != 0,
        0 <= k <= w.len() / 36,
    ensures
        scan_end(header_bytes(w) + t, 2880 * k) == ScanEnd::End(2880 * (w.len() as int / 36 + 1)),
    decreases w.len() / 36 - k,
{
    lemma_header_block(w, t, k);
    if k < w.len() / 36 {
        lemma_header_scan(w, t, k + 1);
        assert(2880 * k + 2880 == 2880 * (k + 1));
    }
}

/// The header that the writer lays out for plain records (see `plain_record`), whatever
/// bytes follow it, reads back as one header that ends where the writer's header bytes
/// end and holds the records' names and values in order; where the records and the END
/// line fill whole blocks exactly, the writer adds a blank block that the reader takes for
/// data, so those counts are left out.
pub proof fn lemma_header_round_trip(w: Seq<Entry>, t: Seq<u8>)
    requires
        forall|i: int| 0 <= i < w.len() ==> plain_record(#[trigger] w[i]),
        (w.len() + 1) % 36 != 0,
    ensures
        scan_end(header_bytes(w) + t, 0) == ScanEnd::End(header_bytes(w).len() as int),
        ({
            let r = records_between(header_bytes(w) + t, 0, header_bytes(w).len() as int);
            &&& r.len() == w.len()
            &&& forall|i: int| 0 <= i < w.len() ==> #[trigger] r[i].0 == w[i].0 && r[i].1 == w[i].1
        }),
{
    let n = w.len() as int;
    lemma_header_line_bytes(w, t, 0);
    assert(header_lines(w) == 36 * (n / 36 + 1));
    lemma_header_scan(w, t, 0);
    lemma_header_records(w, t, header_lines(w));
}

/// Records with the same names and values, in the same order, read the same value under
/// every key.
pub proof fn lemma_same_records_same_values(a: Seq<Entry>, b: Seq<Entry>, key: Seq<char>)
    requires
        a.len() == b.len(),
        forall|i: int| 0 <= i < a.len() ==> #[trigger] a[i].0 == b[i].0 && a[i].1 == b[i].1,
    ensures
        key_value(a, key) == key_value(b, key),
{
    assert forall|i: int| is_first_key(a, key, i) == is_first_key(b, key, i) by {
        if 0 <= i < a.len() {
            assert(a[i].0 == b[i].0);
            if is_first_key(a, key, i) {
                assert forall|j: int| 0 <= j < i implies !crate::text::eq_ignore_ascii_case(#[trigger] b[j].0, key) by {
                    assert(a[j].0 == b[j].0);
                }
            }
            if is_first_key(b, key, i) {
                assert forall|j: int| 0 <= j < i implies !crate::text::eq_ignore_ascii_case(#[trigger] a[j].0, key) by {
                    assert(a[j].0 == b[j].0);
                }
            }
        }
    }
    if exists|i: int| is_first_key(a, key, i) {
        let i = choose|i: int| is_first_key(a, key, i);
        let j = choose|i: int| is_first_key(b, key, i);
        assert(is_first_key(b, key, i));
        assert(i == j) by {
            if i < j {
                assert(!crate::text::eq_ignore_ascii_case(b[i].0, key));
            }
            if j < i {
                assert(!crate::text::eq_ignore_ascii_case(a[j].0, key));
            }
        }
    }
}

} // verus!
