use vstd::prelude::*;

use crate::image::fits_lines::{is_ascii, lemma_header_round_trip, lemma_same_records_same_values, plain_record, shown_comment};
use crate::image::simple_fits::{
    find_key, header_at, header_bitpix, header_bytes, header_bzero, header_data_len, header_dims, header_bytes_len, is_first_key,
    key_int, key_usize, key_value, lemma_read_back_samples, lemma_set_keeps_other_keys, lemma_set_then_find, naxis_key,
    naxis_records, read_outcome, records_between, samples_bytes, scan_end, seq_max, set_entry, sizes_overflow,
    written_bitpix, written_bzero, written_entries, Entry, FitsError, HeaderAt, HeaderModel, ScanEnd,
};
use crate::number::lemma_parse_dec_repr;
use crate::text::{ascii_lower, eq_ignore_ascii_case};
use crate::number::{all_digits, dec_repr, is_digit, lemma_nat_digits, nat_digits};
use crate::text::is_ws;

verus! {

/// `10` to the power `k`.
pub open spec fn pow10(k: nat) -> nat
    decreases k,
{
    if k == 0 {
        1
    } else {
        10 * pow10((k - 1) as nat)
    }
}

proof fn lemma_nat_digits_len(n: nat, k: nat)
    requires
        k >= 1,
        n < pow10(k),
    ensures
        nat_digits(n).len() <= k,
    decreases k,
{
    if n >= 10 {
        assert(k >= 2) by {
            if k == 1 {
                assert(pow10(1) == 10) by {
                    assert(pow10(0) == 1);
                }
            }
        }
        assert(n / 10 < pow10((k - 1) as nat));
        lemma_nat_digits_len(n / 10, (k - 1) as nat);
    }
}

/// A record as the writer sets its own: no comment, a name of letters and digits of at
/// most 25 characters, a value of at most 20 ASCII characters without white space or `/`.
pub open spec fn writer_record(e: Entry) -> bool {
    &&& e.2 is None
    &&& 1 <= e.0.len() <= 25
    &&& forall|i: int| 0 <= i < e.0.len() ==> #[trigger] name_char(e.0[i])
    &&& 1 <= e.1.len() <= 20
    &&& forall|i: int| 0 <= i < e.1.len() ==> #[trigger] value_char(e.1[i])
}

pub open spec fn name_char(c: char) -> bool {
    ('A' <= c && c <= 'Z') || is_digit(c)
}

pub open spec fn value_char(c: char) -> bool {
    c == 'T' || c == '-' || is_digit(c)
}

proof fn lemma_writer_record_plain(e: Entry)
    requires
        writer_record(e),
    ensures
        plain_record(e),
{
    assert(shown_comment(e) == e.0);
    assert(!is_ws(e.0[0]) && !is_ws(e.0.last())) by {
        assert(name_char(e.0[0]));
        assert(name_char(e.0[e.0.len() - 1]));
    }
    assert(!is_ws(e.1[0]) && !is_ws(e.1.last())) by {
        assert(value_char(e.1[0]));
        assert(value_char(e.1[e.1.len() - 1]));
    }
    assert forall|i: int| 0 <= i < e.0.len() implies #[trigger] e.0[i] != '=' && (e.0[i] as u32) < 128 by {
        assert(name_char(e.0[i]));
    }
    assert forall|i: int| 0 <= i < e.1.len() implies #[trigger] e.1[i] != '/' && (e.1[i] as u32) < 128 by {
        assert(value_char(e.1[i]));
    }
    assert(is_ascii(e.0));
    assert(is_ascii(e.1));
}

/// The decimal text of a 64-bit integer is a value the writer sets.
proof fn lemma_dec_repr_value(v: int)
    requires
        i64::MIN <= v <= i64::MAX,
    ensures
        1 <= dec_repr(v).len() <= 20,
        forall|i: int| 0 <= i < dec_repr(v).len() ==> #[trigger] value_char(dec_repr(v)[i]),
{
    assert(pow10(19) == 10000000000000000000nat) by {
        reveal_with_fuel(pow10, 20);
    }
    if v < 0 {
        let m = (-v) as nat;
        lemma_nat_digits(m);
        lemma_nat_digits_len(m, 19);
        let d = seq!['-'] + nat_digits(m);
        assert forall|i: int| 0 <= i < d.len() implies #[trigger] value_char(d[i]) by {
            if i > 0 {
                assert(d[i] == nat_digits(m)[i - 1]);
                assert(is_digit(nat_digits(m)[i - 1]));
            }
        }
    } else {
        let m = v as nat;
        lemma_nat_digits(m);
        lemma_nat_digits_len(m, 19);
        assert forall|i: int| 0 <= i < nat_digits(m).len() implies #[trigger] value_char(nat_digits(m)[i]) by {
            assert(is_digit(nat_digits(m)[i]));
        }
    }
}

/// Setting a record the writer's way keeps all records the writer's.
proof fn lemma_set_writer(e: Seq<Entry>, key: Seq<char>, value: Seq<char>)
    requires
        forall|i: int| 0 <= i < e.len() ==> writer_record(#[trigger] e[i]),
        writer_record((key, value, None)),
    ensures
        forall|i: int| 0 <= i < set_entry(e, key, value).len() ==> writer_record(#[trigger] set_entry(e, key, value)[i]),
{
    let e2 = set_entry(e, key, value);
    assert forall|i: int| 0 <= i < e2.len() implies writer_record(#[trigger] e2[i]) by {
        if i < e.len() {
            assert(writer_record(e[i]));
        }
    }
}

proof fn lemma_naxis_writer(e: Seq<Entry>, dims: Seq<usize>, k: int)
    requires
        0 <= k <= dims.len(),
        dims.len() <= usize::MAX,
        forall|i: int| 0 <= i < e.len() ==> writer_record(#[trigger] e[i]),
    ensures
        forall|i: int| 0 <= i < naxis_records(e, dims, k).len() ==> writer_record(#[trigger] naxis_records(e, dims, k)[i]),
    decreases k,
{
    if k > 0 {
        lemma_naxis_writer(e, dims, k - 1);
        let key = naxis_key(k);
        let value = dec_repr((dims[k - 1] as i64) as int);
        lemma_dec_repr_value((dims[k - 1] as i64) as int);
        lemma_nat_digits(k as nat);
        assert(pow10(20) == 100000000000000000000nat) by {
            reveal_with_fuel(pow10, 21);
        }
        lemma_nat_digits_len(k as nat, 20);
        assert forall|i: int| 0 <= i < key.len() implies #[trigger] name_char(key[i]) by {
            if i >= 5 {
                assert(key[i] == nat_digits(k as nat)[i - 5]);
                assert(is_digit(nat_digits(k as nat)[i - 5]));
            }
        }
        lemma_set_writer(naxis_records(e, dims, k - 1), key, value);
    }
}

/// The records of a header the writer writes are plain where the header's own are.
pub proof fn lemma_written_entries_plain(hdu: HeaderModel, data: Seq<u16>)
    requires
        hdu.dims.len() <= usize::MAX,
        forall|i: int| 0 <= i < hdu.entries.len() ==> plain_record(#[trigger] hdu.entries[i]),
    ensures
        forall|i: int| 0 <= i < written_entries(hdu, data).len() ==> plain_record(#[trigger] written_entries(hdu, data)[i]),
{
    let e0 = set_entry(Seq::empty(), "SIMPLE"@, seq!['T']);
    let e1 = set_entry(e0, "BITPIX"@, dec_repr(written_bitpix(data) as int));
    let e2 = set_entry(e1, "NAXIS"@, dec_repr((hdu.dims.len() as i64) as int));
    let e3 = naxis_records(e2, hdu.dims, hdu.dims.len() as int);
    let e4 = set_entry(e3, "EXTEND"@, seq!['T']);
    let e5 = if written_bzero(data) != 0 {
        set_entry(e4, "BZERO"@, dec_repr(written_bzero(data) as int))
    } else {
        e4
    };
    reveal_strlit("SIMPLE");
    reveal_strlit("BITPIX");
    reveal_strlit("NAXIS");
    reveal_strlit("EXTEND");
    reveal_strlit("BZERO");
    lemma_set_writer(Seq::empty(), "SIMPLE"@, seq!['T']);
    lemma_dec_repr_value(written_bitpix(data) as int);
    lemma_set_writer(e0, "BITPIX"@, dec_repr(written_bitpix(data) as int));
    lemma_dec_repr_value((hdu.dims.len() as i64) as int);
    lemma_set_writer(e1, "NAXIS"@, dec_repr((hdu.dims.len() as i64) as int));
    lemma_naxis_writer(e2, hdu.dims, hdu.dims.len() as int);
    lemma_set_writer(e3, "EXTEND"@, seq!['T']);
    if written_bzero(data) != 0 {
        lemma_dec_repr_value(written_bzero(data) as int);
        lemma_set_writer(e4, "BZERO"@, dec_repr(written_bzero(data) as int));
    }
    let w = written_entries(hdu, data);
    assert(w == e5 + hdu.entries);
    assert forall|i: int| 0 <= i < w.len() implies plain_record(#[trigger] w[i]) by {
        if i < e5.len() {
            assert(writer_record(e5[i]));
            lemma_writer_record_plain(e5[i]);
        } else {
            assert(w[i] == hdu.entries[i - e5.len()]);
        }
    }
}

/// No record of `e` is named `other`, ASCII case ignored.
pub open spec fn lacks_key(e: Seq<Entry>, other: Seq<char>) -> bool {
    forall|i: int| 0 <= i < e.len() ==> !eq_ignore_ascii_case(#[trigger] e[i].0, other)
}

proof fn lemma_lacks_key_none(e: Seq<Entry>, other: Seq<char>)
    requires
        lacks_key(e, other),
    ensures
        key_value(e, other) is None,
{
    if exists|i: int| is_first_key(e, other, i) {
        let i = choose|i: int| is_first_key(e, other, i);
        assert(!eq_ignore_ascii_case(e[i].0, other));
    }
}

proof fn lemma_set_lacks(e: Seq<Entry>, key: Seq<char>, value: Seq<char>, other: Seq<char>)
    requires
        lacks_key(e, other),
        !eq_ignore_ascii_case(key, other),
    ensures
        lacks_key(set_entry(e, key, value), other),
        key_value(set_entry(e, key, value), other) == key_value(e, other),
{
    lemma_set_keeps_other_keys(e, key, value, other);
    let e2 = set_entry(e, key, value);
    assert forall|i: int| 0 <= i < e2.len() implies !eq_ignore_ascii_case(#[trigger] e2[i].0, other) by {
        if i < e.len() {
            assert(!eq_ignore_ascii_case(e[i].0, other));
        }
    }
}

/// Axis records keep what another key reads, and its absence, where no axis key matches it.
proof fn lemma_naxis_keeps(e: Seq<Entry>, dims: Seq<usize>, k: int, other: Seq<char>)
    requires
        0 <= k <= dims.len(),
        forall|j: int| 1 <= j <= k ==> !eq_ignore_ascii_case(#[trigger] naxis_key(j), other),
    ensures
        key_value(naxis_records(e, dims, k), other) == key_value(e, other),
        lacks_key(e, other) ==> lacks_key(naxis_records(e, dims, k), other),
    decreases k,
{
    if k > 0 {
        lemma_naxis_keeps(e, dims, k - 1, other);
        assert(!eq_ignore_ascii_case(naxis_key(k), other));
        lemma_set_keeps_other_keys(naxis_records(e, dims, k - 1), naxis_key(k), dec_repr((dims[k - 1] as i64) as int), other);
        if lacks_key(e, other) {
            lemma_set_lacks(naxis_records(e, dims, k - 1), naxis_key(k), dec_repr((dims[k - 1] as i64) as int), other);
        }
    }
}

/// A key that the first records read is read the same with more records after them; one
/// that none of them has is read from the records after.
proof fn lemma_key_value_append(a: Seq<Entry>, b: Seq<Entry>, key: Seq<char>)
    ensures
        key_value(a, key) is Some ==> key_value(a + b, key) == key_value(a, key),
        lacks_key(a, key) ==> key_value(a + b, key) == key_value(b, key),
{
    let ab = a + b;
    if key_value(a, key) is Some {
        let i = choose|i: int| is_first_key(a, key, i);
        assert(is_first_key(ab, key, i)) by {
            assert forall|j: int| 0 <= j < i implies !eq_ignore_ascii_case(#[trigger] ab[j].0, key) by {
                assert(ab[j] == a[j]);
            }
        }
        let j = choose|j: int| is_first_key(ab, key, j);
        assert(i == j) by {
            if j < i {
                assert(ab[j] == a[j]);
            }
            if i < j {
                assert(ab[i] == a[i]);
            }
        }
    }
    if lacks_key(a, key) {
        assert forall|i: int| is_first_key(ab, key, i) == is_first_key(b, key, i - a.len()) by {
            if 0 <= i < ab.len() && i < a.len() {
                assert(ab[i] == a[i]);
            }
            if a.len() <= i < ab.len() {
                assert(ab[i] == b[i - a.len()]);
                assert forall|j: int| 0 <= j < i && !eq_ignore_ascii_case(#[trigger] ab[j].0, key) implies (j < a.len() || !eq_ignore_ascii_case(b[j - a.len()].0, key)) by {
                    if j >= a.len() {
                        assert(ab[j] == b[j - a.len()]);
                    }
                }
                if is_first_key(b, key, i - a.len()) {
                    assert forall|j: int| 0 <= j < i implies !eq_ignore_ascii_case(#[trigger] ab[j].0, key) by {
                        if j < a.len() {
                            assert(ab[j] == a[j]);
                        } else {
                            assert(ab[j] == b[j - a.len()]);
                            assert(!eq_ignore_ascii_case(b[j - a.len()].0, key));
                        }
                    }
                }
                if is_first_key(ab, key, i) {
                    assert forall|j: int| 0 <= j < i - a.len() implies !eq_ignore_ascii_case(#[trigger] b[j].0, key) by {
                        assert(ab[j + a.len()] == b[j]);
                    }
                }
            }
        }
        if exists|i: int| is_first_key(ab, key, i) {
            let i = choose|i: int| is_first_key(ab, key, i);
            if i < a.len() {
                assert(ab[i] == a[i]);
            }
            assert(is_first_key(b, key, i - a.len()));
            let j = choose|j: int| is_first_key(b, key, j);
            assert(is_first_key(ab, key, j + a.len()));
            assert(i == j + a.len()) by {
                if i < j + a.len() {
                    assert(ab[i] == b[i - a.len()]);
                }
                if j + a.len() < i {
                    assert(ab[j + a.len()] == b[j]);
                }
            }
        } else {
            if exists|j: int| is_first_key(b, key, j) {
                let j = choose|j: int| is_first_key(b, key, j);
                assert(is_first_key(ab, key, j + a.len()));
            }
        }
    }
}

proof fn lemma_seq_max_bound(data: Seq<u16>, i: int)
    requires
        0 <= i < data.len(),
    ensures
        data[i] <= seq_max(data),
    decreases data.len(),
{
    if i < data.len() - 1 {
        lemma_seq_max_bound(data.drop_last(), i);
        assert(data.drop_last()[i] == data[i]);
    }
}

/// Axis keys are `NAXIS` and one digit or more.
proof fn lemma_naxis_key_shape(j: int)
    requires
        j >= 1,
    ensures
        naxis_key(j).len() >= 6,
        naxis_key(j)[0] == 'N',
{
    lemma_nat_digits(j as nat);
}

#[verifier::spinoff_prover]
proof fn lemma_written_bitpix_key(hdu: HeaderModel, data: Seq<u16>)
    ensures
        key_value(written_entries(hdu, data), "BITPIX"@) == Some(dec_repr(written_bitpix(data) as int)),
{
    reveal_strlit("SIMPLE");
    reveal_strlit("BITPIX");
    reveal_strlit("NAXIS");
    reveal_strlit("EXTEND");
    reveal_strlit("BZERO");
    let bp = "BITPIX"@;
    let e0 = set_entry(Seq::empty(), "SIMPLE"@, seq!['T']);
    let e1 = set_entry(e0, bp, dec_repr(written_bitpix(data) as int));
    let e2 = set_entry(e1, "NAXIS"@, dec_repr((hdu.dims.len() as i64) as int));
    let e3 = naxis_records(e2, hdu.dims, hdu.dims.len() as int);
    let e4 = set_entry(e3, "EXTEND"@, seq!['T']);
    lemma_set_then_find(e0, bp, dec_repr(written_bitpix(data) as int));
    lemma_set_keeps_other_keys(e1, "NAXIS"@, dec_repr((hdu.dims.len() as i64) as int), bp);
    assert forall|j: int| 1 <= j <= hdu.dims.len() implies !eq_ignore_ascii_case(#[trigger] naxis_key(j), bp) by {
        lemma_naxis_key_shape(j);
        if naxis_key(j).len() == bp.len() {
            assert(ascii_lower(naxis_key(j)[0]) != ascii_lower(bp[0]));
        }
    }
    lemma_naxis_keeps(e2, hdu.dims, hdu.dims.len() as int, bp);
    assert(!eq_ignore_ascii_case("EXTEND"@, bp)) by {
        assert(ascii_lower("EXTEND"@[0]) != ascii_lower(bp[0]));
    }
    lemma_set_keeps_other_keys(e3, "EXTEND"@, seq!['T'], bp);
    let e5 = if written_bzero(data) != 0 {
        set_entry(e4, "BZERO"@, dec_repr(written_bzero(data) as int))
    } else {
        e4
    };
    if written_bzero(data) != 0 {
        lemma_set_keeps_other_keys(e4, "BZERO"@, dec_repr(written_bzero(data) as int), bp);
    }
    lemma_key_value_append(e5, hdu.entries, bp);
}

#[verifier::spinoff_prover]
proof fn lemma_written_bzero_key(hdu: HeaderModel, data: Seq<u16>)
    ensures
        written_bzero(data) != 0 ==> key_value(written_entries(hdu, data), "BZERO"@) == Some(dec_repr(written_bzero(data) as int)),
        written_bzero(data) == 0 ==> key_value(written_entries(hdu, data), "BZERO"@) == key_value(hdu.entries, "BZERO"@),
{
    reveal_strlit("SIMPLE");
    reveal_strlit("BITPIX");
    reveal_strlit("NAXIS");
    reveal_strlit("EXTEND");
    reveal_strlit("BZERO");
    let bz = "BZERO"@;
    let e0 = set_entry(Seq::empty(), "SIMPLE"@, seq!['T']);
    let e1 = set_entry(e0, "BITPIX"@, dec_repr(written_bitpix(data) as int));
    let e2 = set_entry(e1, "NAXIS"@, dec_repr((hdu.dims.len() as i64) as int));
    let e3 = naxis_records(e2, hdu.dims, hdu.dims.len() as int);
    let e4 = set_entry(e3, "EXTEND"@, seq!['T']);
    if written_bzero(data) != 0 {
        let e5 = set_entry(e4, bz, dec_repr(written_bzero(data) as int));
        lemma_set_then_find(e4, bz, dec_repr(written_bzero(data) as int));
        lemma_key_value_append(e5, hdu.entries, bz);
    } else {
        assert(lacks_key(Seq::<Entry>::empty(), bz));
        lemma_set_lacks(Seq::empty(), "SIMPLE"@, seq!['T'], bz);
        lemma_set_lacks(e0, "BITPIX"@, dec_repr(written_bitpix(data) as int), bz);
        assert(!eq_ignore_ascii_case("NAXIS"@, bz)) by {
            assert(ascii_lower("NAXIS"@[0]) != ascii_lower(bz[0]));
        }
        lemma_set_lacks(e1, "NAXIS"@, dec_repr((hdu.dims.len() as i64) as int), bz);
        assert forall|j: int| 1 <= j <= hdu.dims.len() implies !eq_ignore_ascii_case(#[trigger] naxis_key(j), bz) by {
            lemma_naxis_key_shape(j);
        }
        lemma_naxis_keeps(e2, hdu.dims, hdu.dims.len() as int, bz);
        lemma_set_lacks(e3, "EXTEND"@, seq!['T'], bz);
        lemma_key_value_append(e4, hdu.entries, bz);
    }
}

/// The header read from what the writer wrote: found where the writer's bytes start, its
/// records those read back from the written header's lines, reading every key as the
/// written records do.
#[verifier::spinoff_prover]
#[verifier::rlimit(40)]
proof fn lemma_read_written_header(hdu: HeaderModel, data: Seq<u16>)
    requires
        hdu.dims.len() <= usize::MAX,
        forall|i: int| 0 <= i < hdu.entries.len() ==> plain_record(#[trigger] hdu.entries[i]),
        (written_entries(hdu, data).len() + 1) % 36 != 0,
        !sizes_overflow(written_entries(hdu, data)),
        header_bytes(written_entries(hdu, data)).len() <= usize::MAX,
    ensures
        ({
            let w = written_entries(hdu, data);
            let b = header_bytes(w) + samples_bytes(written_bitpix(data), written_bzero(data), data);
            &&& header_at(b, 0) matches HeaderAt::Found(h)
            &&& h.data_pos == header_bytes(w).len()
            &&& h.bitpix == header_bitpix(w) as i8
            &&& forall|key: Seq<char>| #[trigger] key_value(h.entries, key) == key_value(w, key)
        }),
{
    let w = written_entries(hdu, data);
    let sb = samples_bytes(written_bitpix(data), written_bzero(data), data);
    let b = header_bytes(w) + sb;
    lemma_written_entries_plain(hdu, data);
    lemma_header_round_trip(w, sb);
    let q = header_bytes(w).len() as int;
    let r = records_between(b, 0, q);
    assert forall|key: Seq<char>| #[trigger] key_value(r, key) == key_value(w, key) by {
        lemma_same_records_same_values(r, w, key);
    }
    assert(header_dims(r) =~= header_dims(w));
    assert(header_bitpix(r) == header_bitpix(w));
    assert(header_data_len(r) == header_data_len(w));
    assert(header_bytes_len(r) == header_bytes_len(w));
    assert(sizes_overflow(r) == sizes_overflow(w));
    let h = HeaderModel {
        entries: r,
        bitpix: header_bitpix(r) as i8,
        dims: header_dims(r),
        data_pos: q as usize,
        data_len: header_data_len(r) as usize,
        bytes_len: header_bytes_len(r) as usize,
    };
    assert(header_at(b, 0) == HeaderAt::Found(h));
}

/// Writing a header and its samples the way `FitsWriter::write_header_and_data_u16` does
/// (see `written_entries`, `header_bytes` and `samples_bytes`) and reading them back the
/// way `FitsReader::new` and `FitsReader::read_data` do (see `header_at` and
/// `read_outcome`): the bytes written start with a header that ends where the written
/// header ends, reads every key as the written records do, and has the sample size and
/// zero point written; reading its samples into a buffer of as many gives the samples
/// written. This holds for headers of plain records (see `plain_record`), unless the
/// records and the END line fill whole blocks exactly (the writer then adds a blank
/// block that the reader takes for data), or 8-bit samples go with a `BZERO` record of
/// the header's own.
pub proof fn lemma_fits_round_trip(hdu: HeaderModel, data: Seq<u16>, old: Seq<u16>)
    requires
        hdu.dims.len() <= usize::MAX,
        forall|i: int| 0 <= i < hdu.entries.len() ==> plain_record(#[trigger] hdu.entries[i]),
        (written_entries(hdu, data).len() + 1) % 36 != 0,
        !sizes_overflow(written_entries(hdu, data)),
        written_bzero(data) == 0 ==> key_value(hdu.entries, "BZERO"@) is None,
        header_bytes(written_entries(hdu, data)).len() <= usize::MAX,
        old.len() == data.len(),
    ensures
        ({
            let w = written_entries(hdu, data);
            let b = header_bytes(w) + samples_bytes(written_bitpix(data), written_bzero(data), data);
            &&& header_at(b, 0) matches HeaderAt::Found(h)
            &&& h.data_pos == header_bytes(w).len()
            &&& forall|key: Seq<char>| #[trigger] key_value(h.entries, key) == key_value(w, key)
            &&& h.bitpix == written_bitpix(data)
            &&& header_bzero(h.entries) == written_bzero(data)
            &&& read_outcome(h, b, 0, old) == (data, Ok::<(), FitsError>(()))
        }),
{
    let w = written_entries(hdu, data);
    let bp = written_bitpix(data);
    let bz = written_bzero(data);
    let sb = samples_bytes(bp, bz, data);
    let b = header_bytes(w) + sb;
    let q = header_bytes(w).len() as int;
    lemma_read_written_header(hdu, data);
    let h = header_at(b, 0)->Found_0;
    reveal_strlit("BITPIX");
    reveal_strlit("BZERO");
    assert("BITPIX"@ == seq!['B', 'I', 'T', 'P', 'I', 'X']);
    lemma_written_bitpix_key(hdu, data);
    lemma_parse_dec_repr(bp as int, -128, 127);
    assert(header_bitpix(w) == bp as int);
    lemma_written_bzero_key(hdu, data);
    if bz != 0 {
        lemma_parse_dec_repr(bz as int, i64::MIN as int, i64::MAX as int);
    }
    assert(key_value(h.entries, "BZERO"@) == key_value(w, "BZERO"@));
    assert(header_bzero(h.entries) == bz);
    assert forall|i: int| 0 <= i < data.len() implies bp == 8 ==> #[trigger] data[i] <= 255 by {
        lemma_seq_max_bound(data, i);
    }
    assert(b.subrange(q, q + sb.len()) =~= sb);
    lemma_read_back_samples(h, b, data, old);
}

} // verus!
