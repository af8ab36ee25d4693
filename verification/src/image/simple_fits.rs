use vstd::prelude::*;
use vstd::string::*;
use vstd::std_specs::vec::*;
use vstd::utf8::{char_is_scalar, decode_utf8, encode_utf8, valid_utf8};
use crate::number::{dec_repr, i64_to_chars, nat_digits, parse_int, parse_int_chars, u64_digits};
use crate::text::{ascii_lower, is_ws, trim_end, trim_start, utf8_str, byte_len, char_utf8_width, char_width, lemma_byte_len_prefix, lemma_byte_len_push, chars_eq_ignore_ascii_case, eq_ignore_ascii_case, push_char, str_chars, string_from_chars, trim, trim_bounds};

verus! {

/// One header record: name, value text and comment.
pub type Entry = (Seq<char>, Seq<char>, Option<Seq<char>>);

struct Value {
    name: String,
    value: String,
    comment: Option<String>,
}

impl Value {
    spec fn entry(self) -> Entry {
        (
            self.name@,
            self.value@,
            match self.comment {
                Some(c) => Some(c@),
                None => None,
            },
        )
    }
}

spec fn entries_of(values: Seq<Value>) -> Seq<Entry> {
    values.map_values(|v: Value| v.entry())
}

/// `i` is the first record whose name matches `key`, ASCII case ignored.
pub open spec fn is_first_key(entries: Seq<Entry>, key: Seq<char>, i: int) -> bool {
    &&& 0 <= i < entries.len()
    &&& eq_ignore_ascii_case(entries[i].0, key)
    &&& forall|j: int| 0 <= j < i ==> !eq_ignore_ascii_case(#[trigger] entries[j].0, key)
}

/// Position of the first record named `key`, ASCII case ignored.
pub open spec fn find_key(entries: Seq<Entry>, key: Seq<char>) -> Option<int> {
    if exists|i: int| is_first_key(entries, key, i) {
        Some(choose|i: int| is_first_key(entries, key, i))
    } else {
        None
    }
}

/// Value text of the first record named `key`.
pub open spec fn key_value(entries: Seq<Entry>, key: Seq<char>) -> Option<Seq<char>> {
    match find_key(entries, key) {
        Some(i) => Some(entries[i].1),
        None => None,
    }
}

/// The value of the first record named `key` read as an integer of `lo ..= hi`.
pub open spec fn key_int(entries: Seq<Entry>, key: Seq<char>, lo: int, hi: int) -> Option<int> {
    match key_value(entries, key) {
        Some(v) => parse_int(v, lo, hi),
        None => None,
    }
}

/// Records after `key` is given `value`: the first record of that name gets
/// the new value, or a new record without comment is appended.
pub open spec fn set_entry(entries: Seq<Entry>, key: Seq<char>, value: Seq<char>) -> Seq<Entry> {
    match find_key(entries, key) {
        Some(i) => entries.update(i, (entries[i].0, value, entries[i].2)),
        None => entries.push((key, value, None)),
    }
}

/// `format!("'{:<8}'", value)`.
pub open spec fn quoted_padded(value: Seq<char>) -> Seq<char> {
    let pad = if value.len() < 8 {
        8 - value.len()
    } else {
        0
    };
    seq!['\''] + value + Seq::new(pad as nat, |i: int| ' ') + seq!['\'']
}

/// Text that `get_str` hands out for a value: enclosing quotes dropped, then trimmed.
pub open spec fn unquoted(v: Seq<char>) -> Seq<char> {
    if v.len() >= 1 && v[0] == '\'' && v.last() == '\'' {
        trim(v.subrange(1, v.len() - 1))
    } else {
        trim(v)
    }
}

/// What a header holds: its records, the sample type code, the axis sizes,
/// where its data starts in the file, the data length in samples and in bytes.
proof fn lemma_first_key_exists(e: Seq<Entry>, key: Seq<char>, i: int)
    requires
        0 <= i < e.len(),
        eq_ignore_ascii_case(e[i].0, key),
    ensures
        exists|k: int| is_first_key(e, key, k),
    decreases i,
{
    if forall|j: int| 0 <= j < i ==> !eq_ignore_ascii_case(#[trigger] e[j].0, key) {
        assert(is_first_key(e, key, i));
    } else {
        let j = choose|j: int| 0 <= j < i && eq_ignore_ascii_case(#[trigger] e[j].0, key);
        lemma_first_key_exists(e, key, j);
    }
}

proof fn lemma_first_key_unique(e: Seq<Entry>, key: Seq<char>, i: int, k: int)
    requires
        is_first_key(e, key, i),
        is_first_key(e, key, k),
    ensures
        i == k,
{
}

/// After a value is set under a key, the key finds that value.
pub proof fn lemma_set_then_find(e: Seq<Entry>, key: Seq<char>, value: Seq<char>)
    ensures
        key_value(set_entry(e, key, value), key) == Some(value),
{
    let e2 = set_entry(e, key, value);
    match find_key(e, key) {
        Some(i) => {
            let i0 = choose|k: int| is_first_key(e, key, k);
            assert(is_first_key(e, key, i0));
            assert(is_first_key(e2, key, i0));
            let j = choose|k: int| is_first_key(e2, key, k);
            lemma_first_key_unique(e2, key, i0, j);
        },
        None => {
            assert forall|j: int| 0 <= j < e.len() implies !eq_ignore_ascii_case(
                #[trigger] e[j].0,
                key,
            ) by {
                if eq_ignore_ascii_case(e[j].0, key) {
                    lemma_first_key_exists(e, key, j);
                }
            }
            assert(eq_ignore_ascii_case(key, key));
            assert(is_first_key(e2, key, e.len() as int));
            let j = choose|k: int| is_first_key(e2, key, k);
            lemma_first_key_unique(e2, key, e.len() as int, j);
        },
    }
}

/// A value set under a key as quoted text never reads as an integer.
pub proof fn lemma_quoted_not_int(e: Seq<Entry>, key: Seq<char>, s: Seq<char>, lo: int, hi: int)
    ensures
        key_int(set_entry(e, key, quoted_padded(s)), key, lo, hi) is None,
{
    lemma_set_then_find(e, key, quoted_padded(s));
    let q = quoted_padded(s);
    assert(q[0] == '\'');
    assert(!crate::number::is_digit(q[0]));
}

/// Setting a value under one key leaves what every other key (ASCII case ignored) reads.
pub proof fn lemma_set_keeps_other_keys(e: Seq<Entry>, key: Seq<char>, value: Seq<char>, other: Seq<char>)
    requires
        !eq_ignore_ascii_case(key, other),
    ensures
        key_value(set_entry(e, key, value), other) == key_value(e, other),
{
    let e2 = set_entry(e, key, value);
    match find_key(e, key) {
        Some(i) => {
            let i0 = choose|k: int| is_first_key(e, key, k);
            assert(is_first_key(e, key, i0));
            assert(e2 == e.update(i0, (e[i0].0, value, e[i0].2)));
            assert forall|j: int| 0 <= j < e.len() implies #[trigger] e2[j].0 == e[j].0 by {}
            if exists|k: int| is_first_key(e, other, k) {
                let j = choose|k: int| is_first_key(e, other, k);
                assert(is_first_key(e2, other, j));
                let j2 = choose|k: int| is_first_key(e2, other, k);
                lemma_first_key_unique(e2, other, j, j2);
                if j == i0 {
                    assert forall|t: int| 0 <= t < key.len() implies ascii_lower(#[trigger] key[t]) == ascii_lower(other[t]) by {
                        assert(ascii_lower(e[i0].0[t]) == ascii_lower(key[t]));
                        assert(ascii_lower(e[i0].0[t]) == ascii_lower(other[t]));
                    }
                }
            } else {
                if exists|k: int| is_first_key(e2, other, k) {
                    let j2 = choose|k: int| is_first_key(e2, other, k);
                    assert forall|t: int| 0 <= t < j2 implies !eq_ignore_ascii_case(#[trigger] e[t].0, other) by {
                        assert(e2[t].0 == e[t].0);
                    }
                    assert(e2[j2].0 == e[j2].0);
                    assert(is_first_key(e, other, j2));
                }
            }
        },
        None => {
            assert(e2 == e.push((key, value, None)));
            assert forall|t: int| 0 <= t < e.len() implies #[trigger] e2[t] == e[t] by {}
            if exists|k: int| is_first_key(e, other, k) {
                let j = choose|k: int| is_first_key(e, other, k);
                assert(is_first_key(e2, other, j));
                let j2 = choose|k: int| is_first_key(e2, other, k);
                lemma_first_key_unique(e2, other, j, j2);
            } else {
                if exists|k: int| is_first_key(e2, other, k) {
                    let j2 = choose|k: int| is_first_key(e2, other, k);
                    if j2 < e.len() {
                        assert forall|t: int| 0 <= t < j2 implies !eq_ignore_ascii_case(#[trigger] e[t].0, other) by {
                            assert(e2[t] == e[t]);
                        }
                        assert(e2[j2] == e[j2]);
                        assert(is_first_key(e, other, j2));
                    } else {
                        assert(e2[j2].0 == key);
                    }
                }
            }
        },
    }
}

/// A name matches `a` exactly when it matches `b`, where `a` and `b` differ only in ASCII
/// case.
proof fn lemma_same_key_case(n: Seq<char>, a: Seq<char>, b: Seq<char>)
    requires
        eq_ignore_ascii_case(a, b),
    ensures
        eq_ignore_ascii_case(n, a) == eq_ignore_ascii_case(n, b),
{
    if eq_ignore_ascii_case(n, a) {
        assert forall|t: int| 0 <= t < n.len() implies ascii_lower(#[trigger] n[t]) == ascii_lower(b[t]) by {
            assert(ascii_lower(n[t]) == ascii_lower(a[t]));
            assert(ascii_lower(a[t]) == ascii_lower(b[t]));
        }
    }
    if eq_ignore_ascii_case(n, b) {
        assert forall|t: int| 0 <= t < n.len() implies ascii_lower(#[trigger] n[t]) == ascii_lower(a[t]) by {
            assert(ascii_lower(n[t]) == ascii_lower(b[t]));
            assert(ascii_lower(a[t]) == ascii_lower(b[t]));
        }
    }
}

/// Keys that differ only in ASCII case read the same value.
pub proof fn lemma_key_value_any_case(e: Seq<Entry>, a: Seq<char>, b: Seq<char>)
    requires
        eq_ignore_ascii_case(a, b),
    ensures
        key_value(e, a) == key_value(e, b),
{
    assert forall|i: int| is_first_key(e, a, i) == is_first_key(e, b, i) by {
        if 0 <= i < e.len() {
            lemma_same_key_case(e[i].0, a, b);
            assert forall|j: int| 0 <= j < i implies !eq_ignore_ascii_case(#[trigger] e[j].0, a) == !eq_ignore_ascii_case(e[j].0, b) by {
                lemma_same_key_case(e[j].0, a, b);
            }
        }
    }
    if exists|i: int| is_first_key(e, a, i) {
        let i = choose|i: int| is_first_key(e, a, i);
        assert(is_first_key(e, b, i));
        let j = choose|k: int| is_first_key(e, b, k);
        lemma_first_key_unique(e, b, i, j);
        let k = choose|k: int| is_first_key(e, a, k);
        lemma_first_key_unique(e, a, i, k);
    } else {
        assert(!exists|i: int| is_first_key(e, b, i));
    }
}

/// A value set under a key reads back under any spelling of the key that differs only
/// in ASCII case.
pub proof fn lemma_set_then_find_any_case(e: Seq<Entry>, key: Seq<char>, value: Seq<char>, other: Seq<char>)
    requires
        eq_ignore_ascii_case(key, other),
    ensures
        key_value(set_entry(e, key, value), other) == Some(value),
{
    lemma_set_then_find(e, key, value);
    lemma_key_value_any_case(set_entry(e, key, value), key, other);
}

/// `get_i64` after `set_i64` gives the value set, under any spelling of the key that
/// differs only in ASCII case.
pub proof fn lemma_get_i64_after_set_i64_any_case(e: Seq<Entry>, key: Seq<char>, other: Seq<char>, v: i64)
    requires
        eq_ignore_ascii_case(key, other),
    ensures
        key_int(set_entry(e, key, dec_repr(v as int)), other, i64::MIN as int, i64::MAX as int) == Some(
            v as int,
        ),
{
    lemma_get_i64_after_set_i64(e, key, v);
    lemma_key_value_any_case(set_entry(e, key, dec_repr(v as int)), key, other);
}

/// `get_str` after `set_str` gives the trimmed text set, and `get_i64` nothing, under any
/// spelling of the key that differs only in ASCII case.
pub proof fn lemma_get_str_after_set_str_any_case(e: Seq<Entry>, key: Seq<char>, other: Seq<char>, s: Seq<char>, lo: int, hi: int)
    requires
        eq_ignore_ascii_case(key, other),
    ensures
        key_value(set_entry(e, key, quoted_padded(s)), other) == Some(quoted_padded(s)),
        unquoted(quoted_padded(s)) == trim(s),
        key_int(set_entry(e, key, quoted_padded(s)), other, lo, hi) is None,
{
    lemma_get_str_after_set_str(e, key, s);
    lemma_quoted_not_int(e, key, s, lo, hi);
    lemma_key_value_any_case(set_entry(e, key, quoted_padded(s)), key, other);
}

/// `get_i64` after `set_i64` under the same key gives the value set.
pub proof fn lemma_get_i64_after_set_i64(e: Seq<Entry>, key: Seq<char>, v: i64)
    ensures
        key_int(set_entry(e, key, dec_repr(v as int)), key, i64::MIN as int, i64::MAX as int) == Some(
            v as int,
        ),
{
    lemma_set_then_find(e, key, dec_repr(v as int));
    crate::number::lemma_parse_dec_repr(v as int, i64::MIN as int, i64::MAX as int);
}

proof fn lemma_trim_end_spaces(s: Seq<char>, n: int)
    requires
        n >= 0,
    ensures
        trim_end(s + Seq::new(n as nat, |i: int| ' ')) == trim_end(s),
    decreases n,
{
    if n > 0 {
        let t = s + Seq::new(n as nat, |i: int| ' ');
        assert(t.drop_last() =~= s + Seq::new((n - 1) as nat, |i: int| ' '));
        lemma_trim_end_spaces(s, n - 1);
    } else {
        assert(s + Seq::new(0, |i: int| ' ') =~= s);
    }
}

proof fn lemma_trim_start_padded(s: Seq<char>, n: int)
    requires
        n >= 0,
    ensures
        trim_start(s + Seq::new(n as nat, |i: int| ' ')) == trim_start(s) + Seq::new(
            n as nat,
            |i: int| ' ',
        ) || (trim_start(s).len() == 0 && trim_start(s + Seq::new(n as nat, |i: int| ' ')).len()
            == 0),
    decreases s.len(),
{
    let sp = Seq::new(n as nat, |i: int| ' ');
    if s.len() > 0 && is_ws(s[0]) {
        assert((s + sp).drop_first() =~= s.drop_first() + sp);
        lemma_trim_start_padded(s.drop_first(), n);
    } else if s.len() == 0 {
        assert(s + sp =~= sp);
        lemma_trim_start_all_ws(sp);
    } else {
        assert((s + sp)[0] == s[0]);
    }
}

proof fn lemma_trim_start_all_ws(s: Seq<char>)
    requires
        forall|i: int| 0 <= i < s.len() ==> is_ws(#[trigger] s[i]),
    ensures
        trim_start(s).len() == 0,
    decreases s.len(),
{
    if s.len() > 0 {
        let t = s.drop_first();
        assert forall|i: int| 0 <= i < t.len() implies is_ws(#[trigger] t[i]) by {
            assert(t[i] == s[i + 1]);
        }
        lemma_trim_start_all_ws(t);
    }
}

proof fn lemma_trim_end_empty(s: Seq<char>)
    requires
        s.len() == 0,
    ensures
        trim_end(s).len() == 0,
{
}

/// `get_str` after `set_str` under the same key gives the trimmed text set.
pub proof fn lemma_get_str_after_set_str(e: Seq<Entry>, key: Seq<char>, s: Seq<char>)
    ensures
        key_value(set_entry(e, key, quoted_padded(s)), key) == Some(quoted_padded(s)),
        quoted_padded(s) != seq!['\''],
        unquoted(quoted_padded(s)) == trim(s),
{
    lemma_set_then_find(e, key, quoted_padded(s));
    let q = quoted_padded(s);
    let pad = if s.len() < 8 { 8 - s.len() } else { 0 };
    let sp = Seq::new(pad as nat, |i: int| ' ');
    assert(q.len() >= 2);
    assert(q[0] == '\'');
    assert(q.last() == '\'');
    assert(q.subrange(1, q.len() - 1) =~= s + sp);
    lemma_trim_start_padded(s, pad);
    if trim_start(s).len() == 0 && trim_start(s + sp).len() == 0 {
        lemma_trim_end_empty(trim_start(s));
        lemma_trim_end_empty(trim_start(s + sp));
        assert(trim(s + sp) =~= trim(s));
    } else {
        lemma_trim_end_spaces(trim_start(s), pad);
    }
}

pub struct HeaderModel {
    pub entries: Seq<Entry>,
    pub bitpix: i8,
    pub dims: Seq<usize>,
    pub data_pos: usize,
    pub data_len: usize,
    pub bytes_len: usize,
}

pub struct Header {
    values: Vec<Value>,
    bitpix: i8,
    dims: Vec<usize>,
    data_pos: usize,
    data_len: usize,
    bytes_len: usize,
}

impl View for Header {
    type V = HeaderModel;

    closed spec fn view(&self) -> HeaderModel {
        HeaderModel {
            entries: entries_of(self.values@),
            bitpix: self.bitpix,
            dims: self.dims@,
            data_pos: self.data_pos,
            data_len: self.data_len,
            bytes_len: self.bytes_len,
        }
    }
}

impl Clone for Header {
    fn clone(&self) -> (res: Self)
        ensures
            res@ == self@,
    {
        let mut values: Vec<Value> = Vec::new();
        let mut i: usize = 0;
        while i < self.values.len()
            invariant
                i <= self.values@.len(),
                values@.len() == i,
                forall|j: int| 0 <= j < i ==> (#[trigger] values@[j]).entry() == self.values@[j].entry(),
            decreases self.values@.len() - i,
        {
            let v = &self.values[i];
            let comment = match &v.comment {
                Some(c) => Some(c.clone()),
                None => None,
            };
            values.push(Value { name: v.name.clone(), value: v.value.clone(), comment });
            i = i + 1;
        }
        proof {
            assert(entries_of(values@) =~= entries_of(self.values@));
        }
        Header {
            values,
            bitpix: self.bitpix,
            dims: self.dims.clone(),
            data_pos: self.data_pos,
            data_len: self.data_len,
            bytes_len: self.bytes_len,
        }
    }
}

fn find_value(values: &Vec<Value>, key: &[char]) -> (r: Option<usize>)
    ensures
        r matches Some(i) ==> find_key(entries_of(values@), key@) == Some(i as int),
        r is None ==> find_key(entries_of(values@), key@) is None,
{
    let ghost e = entries_of(values@);
    let mut i: usize = 0;
    while i < values.len()
        invariant
            i <= values@.len(),
            e == entries_of(values@),
            forall|j: int| 0 <= j < i ==> !eq_ignore_ascii_case(#[trigger] e[j].0, key@),
        decreases values@.len() - i,
    {
        let name = str_chars(values[i].name.as_str());
        if chars_eq_ignore_ascii_case(name.as_slice(), key) {
            proof {
                assert(is_first_key(e, key@, i as int));
                let c = choose|k: int| is_first_key(e, key@, k);
                assert(c == i) by {
                    if c < i {
                        assert(!eq_ignore_ascii_case(e[c].0, key@));
                    }
                    if c > i {
                        assert(!eq_ignore_ascii_case(e[i as int].0, key@));
                    }
                }
            }
            return Some(i);
        }
        i = i + 1;
    }
    proof {
        assert(!exists|k: int| is_first_key(e, key@, k));
    }
    None
}

fn value_int(values: &Vec<Value>, key: &[char], lo: i128, hi: i128) -> (r: Option<i128>)
    requires
        -0x1_0000_0000_0000_0000 <= lo <= 0 <= hi <= 0x1_0000_0000_0000_0000,
    ensures
        r matches Some(v) ==> key_int(entries_of(values@), key@, lo as int, hi as int) == Some(
            v as int,
        ),
        r is None ==> key_int(entries_of(values@), key@, lo as int, hi as int) is None,
{
    match find_value(values, key) {
        Some(i) => {
            let chars = str_chars(values[i].value.as_str());
            parse_int_chars(chars.as_slice(), lo, hi)
        },
        None => None,
    }
}

impl Header {
    /// An empty header.
    pub fn new() -> (res: Self)
        ensures
            res@ == (HeaderModel {
                entries: Seq::empty(),
                bitpix: 0,
                dims: Seq::empty(),
                data_pos: 0,
                data_len: 0,
                bytes_len: 0,
            }),
    {
        let values: Vec<Value> = Vec::new();
        proof {
            assert(entries_of(values@) =~= Seq::<Entry>::empty());
        }
        Self { values, bitpix: 0, dims: Vec::new(), data_pos: 0, data_len: 0, bytes_len: 0 }
    }

    /// An empty header of a two-dimensional image.
    pub fn new_2d(width: usize, height: usize) -> (res: Self)
        ensures
            res@ == (HeaderModel {
                entries: Seq::empty(),
                bitpix: 0,
                dims: seq![width, height],
                data_pos: 0,
                data_len: 0,
                bytes_len: 0,
            }),
    {
        let mut dims: Vec<usize> = Vec::new();
        dims.push(width);
        dims.push(height);
        let values: Vec<Value> = Vec::new();
        proof {
            assert(entries_of(values@) =~= Seq::<Entry>::empty());
            assert(dims@ =~= seq![width, height]);
        }
        Self { values, bitpix: 0, dims, data_pos: 0, data_len: 0, bytes_len: 0 }
    }

    /// Sets the value text of a record (see `set_entry`).
    pub fn set_value_impl(&mut self, key: &str, value: String)
        ensures
            final(self)@ == (HeaderModel { entries: set_entry(old(self)@.entries, key@, value@), ..old(self)@ }),
    {
        let key_chars = str_chars(key);
        match find_value(&self.values, key_chars.as_slice()) {
            Some(i) => {
                let ghost old_values = self.values@;
                let name = self.values[i].name.clone();
                let comment = match &self.values[i].comment {
                    Some(c) => Some(c.clone()),
                    None => None,
                };
                self.values.set(i, Value { name, value, comment });
                proof {
                    assert(entries_of(self.values@) =~= set_entry(entries_of(old_values), key@, value@));
                }
            },
            None => {
                let ghost old_values = self.values@;
                self.values.push(Value { name: key.to_owned(), value, comment: None });
                proof {
                    assert(entries_of(self.values@) =~= set_entry(entries_of(old_values), key@, value@));
                }
            },
        }
    }

    /// Value text of the first record named `key`, as stored.
    pub fn get_value_str(&self, key: &str) -> (r: Option<&str>)
        ensures
            r matches Some(s) ==> key_value(self@.entries, key@) == Some(s@),
            r is None ==> key_value(self@.entries, key@) is None,
    {
        let key_chars = str_chars(key);
        match find_value(&self.values, key_chars.as_slice()) {
            Some(i) => Some(self.values[i].value.as_str()),
            None => None,
        }
    }

    pub fn set_i64(&mut self, key: &str, value: i64)
        ensures
            final(self)@ == (HeaderModel { entries: set_entry(old(self)@.entries, key@, dec_repr(value as int)), ..old(self)@ }),
    {
        let chars = i64_to_chars(value);
        self.set_value_impl(key, string_from_chars(chars.as_slice()));
    }

    pub fn set_bool(&mut self, key: &str, value: bool)
        ensures
            final(self)@ == (HeaderModel { entries: set_entry(old(self)@.entries, key@, if value { seq!['T'] } else { seq!['F'] }), ..old(self)@ }),
    {
        let mut s = String::new();
        push_char(&mut s, if value { 'T' } else { 'F' });
        self.set_value_impl(key, s);
    }

    pub fn set_str(&mut self, key: &str, value: &str)
        ensures
            final(self)@ == (HeaderModel { entries: set_entry(old(self)@.entries, key@, quoted_padded(value@)), ..old(self)@ }),
    {
        let chars = str_chars(value);
        let mut s = String::new();
        push_char(&mut s, '\'');
        let mut i: usize = 0;
        while i < chars.len()
            invariant
                i <= chars@.len(),
                chars@ == value@,
                s@ == seq!['\''] + chars@.take(i as int),
            decreases chars@.len() - i,
        {
            push_char(&mut s, chars[i]);
            i = i + 1;
            proof {
                assert(s@ =~= seq!['\''] + chars@.take(i as int));
            }
        }
        let mut len = chars.len();
        while len < 8
            invariant
                chars.len() <= len <= if chars.len() < 8 { 8 } else { chars.len() },
                chars@ == value@,
                s@ == seq!['\''] + chars@ + Seq::new((len - chars.len()) as nat, |k: int| ' '),
            decreases 8 - len,
        {
            push_char(&mut s, ' ');
            len = len + 1;
            proof {
                assert(s@ =~= seq!['\''] + chars@ + Seq::new((len - chars.len()) as nat, |k: int| ' '));
            }
        }
        push_char(&mut s, '\'');
        proof {
            assert(chars@.take(chars@.len() as int) =~= chars@);
            assert(s@ =~= quoted_padded(value@));
        }
        self.set_value_impl(key, s);
    }

    pub fn bitpix(&self) -> (r: i8)
        ensures
            r == self@.bitpix,
    {
        self.bitpix
    }

    pub fn get_i64(&self, key: &str) -> (r: Option<i64>)
        ensures
            r matches Some(v) ==> key_int(self@.entries, key@, i64::MIN as int, i64::MAX as int)
                == Some(v as int),
            r is None ==> key_int(self@.entries, key@, i64::MIN as int, i64::MAX as int) is None,
    {
        let key_chars = str_chars(key);
        match value_int(&self.values, key_chars.as_slice(), i64::MIN as i128, i64::MAX as i128) {
            Some(v) => Some(v as i64),
            None => None,
        }
    }

    /// Value of the first record named `key`, its enclosing quotes dropped and trimmed.
    pub fn get_str<'b>(&'b self, key: &str) -> (r: Option<&'b str>)
        requires
            key_value(self@.entries, key@) != Some(seq!['\'']),
        ensures
            r matches Some(s) ==> key_value(self@.entries, key@) matches Some(v) && s@ == unquoted(v),
            r is None ==> key_value(self@.entries, key@) is None,
    {
        let key_chars = str_chars(key);
        let i = match find_value(&self.values, key_chars.as_slice()) {
            Some(i) => i,
            None => return None,
        };
        let text = self.values[i].value.as_str();
        let chars = str_chars(text);
        proof {
            assert(self@.entries[i as int].1 == chars@);
        }
        let n = chars.len();
        let (from, to) = if n >= 1 && chars[0] == '\'' && chars[n - 1] == '\'' {
            proof {
                assert(n != 1) by {
                    if n == 1 {
                        assert(chars@ =~= seq!['\'']);
                    }
                }
            }
            (1, n - 1)
        } else {
            (0, n)
        };
        let inner = slice_of(chars.as_slice(), from, to);
        let (a, b) = trim_bounds(inner.as_slice());
        proof {
            assert(inner@.subrange(a as int, b as int) =~= chars@.subrange(from + a, from + b));
            if n >= 1 && chars@[0] == '\'' && chars@[n - 1] == '\'' {
                assert(chars@.last() == chars@[n - 1]);
            } else {
                assert(inner@ =~= chars@);
            }
        }
        Some(text.substring_char(from + a, from + b))
    }

    pub fn dims(&self) -> (r: &Vec<usize>)
        ensures
            r@ == self@.dims,
    {
        &self.dims
    }

    pub fn data_len(&self) -> (r: usize)
        ensures
            r == self@.data_len,
    {
        self.data_len
    }

    pub fn bytes_len(&self) -> (r: usize)
        ensures
            r == self@.bytes_len,
    {
        self.bytes_len
    }
}

/// A copy of `s[from..to]`.
pub(crate) fn slice_of(s: &[char], from: usize, to: usize) -> (r: Vec<char>)
    requires
        from <= to <= s@.len(),
    ensures
        r@ == s@.subrange(from as int, to as int),
{
    let mut r: Vec<char> = Vec::new();
    let mut i = from;
    while i < to
        invariant
            from <= i <= to <= s@.len(),
            r@ == s@.subrange(from as int, i as int),
        decreases to - i,
    {
        r.push(s[i]);
        i = i + 1;
        proof {
            assert(r@ =~= s@.subrange(from as int, i as int));
        }
    }
    r
}

// ---------------------------------------------------------------------------
// Reading headers from FITS bytes.

/// Position of the first `c` in `s`.
pub open spec fn find_char(s: Seq<char>, c: char) -> Option<int> {
    if exists|i: int| 0 <= i < s.len() && s[i] == c && forall|j: int| 0 <= j < i ==> s[j] != c {
        Some(
            choose|i: int|
                0 <= i < s.len() && s[i] == c && forall|j: int| 0 <= j < i ==> s[j] != c,
        )
    } else {
        None
    }
}

/// The record a header line holds: `name = value / comment`, each part trimmed
/// (a line without `=` holds none).
pub open spec fn parse_record(line: Seq<char>) -> Option<Entry> {
    let t = trim(line);
    match find_char(t, '=') {
        None => None,
        Some(e) => {
            let vac = trim(t.skip(e + 1));
            let vc: (Seq<char>, Seq<char>) = match find_char(vac, '/') {
                Some(p) => (vac.take(p), vac.skip(p + 1)),
                None => (vac, Seq::empty()),
            };
            Some((trim(t.take(e)), trim(vc.0), Some(trim(vc.1))))
        },
    }
}

/// The line closes the header: it reads `END`, ASCII case ignored.
pub open spec fn is_end_line(line: Seq<char>) -> bool {
    eq_ignore_ascii_case(trim(line), seq!['e', 'n', 'd'])
}

pub open spec fn line_bytes(b: Seq<u8>, p: int) -> Seq<u8> {
    b.subrange(p, p + 80)
}

/// Every line of the block at `p` is UTF-8.
pub open spec fn block_valid(b: Seq<u8>, p: int) -> bool {
    forall|k: int| 0 <= k < 36 ==> valid_utf8(#[trigger] line_bytes(b, p + 80 * k))
}

/// Some line of the block at `p` closes the header.
pub open spec fn block_has_end(b: Seq<u8>, p: int) -> bool {
    exists|k: int| 0 <= k < 36 && is_end_line(decode_utf8(#[trigger] line_bytes(b, p + 80 * k)))
}

/// How reading header blocks from `p` on ends.
pub enum ScanEnd {
    /// The file ends inside a block.
    Eof,
    /// A line is not UTF-8.
    Invalid,
    /// The header ends where the data starts.
    End(int),
}

pub open spec fn scan_end(b: Seq<u8>, p: int) -> ScanEnd
    decreases b.len() - p,
{
    if p < 0 || p + 2880 > b.len() {
        ScanEnd::Eof
    } else if !block_valid(b, p) {
        ScanEnd::Invalid
    } else if block_has_end(b, p) {
        ScanEnd::End(p + 2880)
    } else {
        scan_end(b, p + 2880)
    }
}

/// Records of the lines from `p` up to `q`.
pub open spec fn records_between(b: Seq<u8>, p: int, q: int) -> Seq<Entry>
    decreases q - p,
{
    if q - 80 < p {
        Seq::empty()
    } else {
        let prev = records_between(b, p, q - 80);
        match parse_record(decode_utf8(line_bytes(b, q - 80))) {
            Some(e) => prev.push(e),
            None => prev,
        }
    }
}

pub open spec fn naxis_key(i: int) -> Seq<char> {
    seq!['N', 'A', 'X', 'I', 'S'] + nat_digits(i as nat)
}

pub open spec fn key_usize(e: Seq<Entry>, key: Seq<char>, default: int) -> int {
    match key_int(e, key, 0, usize::MAX as int) {
        Some(v) => v,
        None => default,
    }
}

/// Axis sizes: `NAXIS1`, `NAXIS2` ... for `NAXIS` axes, 1 where one is missing.
pub open spec fn header_dims(e: Seq<Entry>) -> Seq<usize> {
    let ndim = key_usize(e, seq!['N', 'A', 'X', 'I', 'S'], 0);
    Seq::new(ndim as nat, |i: int| key_usize(e, naxis_key(i + 1), 1) as usize)
}

pub open spec fn product(s: Seq<usize>) -> int
    decreases s.len(),
{
    if s.len() == 0 {
        1
    } else {
        product(s.drop_last()) * s.last() as int
    }
}

pub open spec fn header_bitpix(e: Seq<Entry>) -> int {
    match key_int(e, seq!['B', 'I', 'T', 'P', 'I', 'X'], -128, 127) {
        Some(v) => v,
        None => 8,
    }
}

/// Samples of data: the axis product plus `PCOUNT`, times `GCOUNT`.
pub open spec fn header_data_len(e: Seq<Entry>) -> int {
    (product(header_dims(e)) + key_usize(e, seq!['P', 'C', 'O', 'U', 'N', 'T'], 0)) * key_usize(
        e,
        seq!['G', 'C', 'O', 'U', 'N', 'T'],
        1,
    )
}

pub open spec fn abs_int(v: int) -> int {
    if v < 0 {
        -v
    } else {
        v
    }
}

pub open spec fn header_bytes_len(e: Seq<Entry>) -> int {
    header_data_len(e) * (abs_int(header_bitpix(e)) / 8)
}

/// The sizes of a header cannot be held: an axis product, the data length or
/// the byte length passes `usize::MAX`, the byte length passes `i64::MAX`, or
/// `BITPIX` is -128.
pub open spec fn sizes_overflow(e: Seq<Entry>) -> bool {
    let dims = header_dims(e);
    ||| exists|k: int| 0 <= k <= dims.len() && #[trigger] product(dims.take(k)) > usize::MAX
    ||| product(dims) + key_usize(e, seq!['P', 'C', 'O', 'U', 'N', 'T'], 0) > usize::MAX
    ||| header_data_len(e) > usize::MAX
    ||| header_bitpix(e) == -128
    ||| header_bytes_len(e) > usize::MAX
    ||| header_bytes_len(e) > i64::MAX
}

pub enum HeaderAt {
    Eof,
    Invalid,
    Overflow,
    Found(HeaderModel),
}

/// The header that starts at `p`.
pub open spec fn header_at(b: Seq<u8>, p: int) -> HeaderAt {
    match scan_end(b, p) {
        ScanEnd::Eof => HeaderAt::Eof,
        ScanEnd::Invalid => HeaderAt::Invalid,
        ScanEnd::End(q) => {
            let e = records_between(b, p, q);
            if sizes_overflow(e) {
                HeaderAt::Overflow
            } else {
                HeaderAt::Found(
                    HeaderModel {
                        entries: e,
                        bitpix: header_bitpix(e) as i8,
                        dims: header_dims(e),
                        data_pos: q as usize,
                        data_len: header_data_len(e) as usize,
                        bytes_len: header_bytes_len(e) as usize,
                    },
                )
            }
        },
    }
}

/// Error of reading or writing FITS bytes.
#[derive(PartialEq, Eq, Debug, Clone, Copy)]
pub enum FitsError {
    /// The bytes end before the data does.
    UnexpectedEof,
    /// A header line is not UTF-8.
    InvalidData,
    /// A header gives sizes that cannot be held.
    Overflow,
    /// The sample type code is not supported.
    Unsupported,
}

/// All headers of a FITS file: each one is followed by its data; reading
/// stops where the file ends inside a header block.
pub open spec fn scan_file(b: Seq<u8>, p: int) -> Result<Seq<HeaderModel>, FitsError>
    decreases b.len() - p,
{
    match header_at(b, p) {
        HeaderAt::Eof => Ok(Seq::empty()),
        HeaderAt::Invalid => Err(FitsError::InvalidData),
        HeaderAt::Overflow => Err(FitsError::Overflow),
        HeaderAt::Found(h) => {
            let next = h.data_pos + h.bytes_len;
            if p < 0 || next + 2880 > b.len() || next <= p {
                Ok(seq![h])
            } else {
                match scan_file(b, next) {
                    Ok(rest) => Ok(seq![h] + rest),
                    Err(err) => Err(err),
                }
            }
        },
    }
}

pub(crate) fn find_char_in(s: &[char], c: char) -> (r: Option<usize>)
    ensures
        r matches Some(i) ==> find_char(s@, c) == Some(i as int),
        r matches Some(i) ==> i < s@.len(),
        r is Some ==> r.unwrap() < s@.len(),
        r is None ==> find_char(s@, c) is None,
{
    let mut i: usize = 0;
    while i < s.len()
        invariant
            i <= s@.len(),
            forall|j: int| 0 <= j < i ==> s@[j] != c,
        decreases s@.len() - i,
    {
        if s[i] == c {
            proof {
                let w = choose|k: int|
                    0 <= k < s@.len() && s@[k] == c && forall|j: int| 0 <= j < k ==> s@[j] != c;
                assert(0 <= i < s@.len() && s@[i as int] == c && forall|j: int| 0 <= j < i ==> s@[j] != c);
                assert(w == i) by {
                    if w < i {
                        assert(s@[w] != c);
                    }
                    if w > i {
                        assert(s@[i as int] != c);
                    }
                }
            }
            return Some(i);
        }
        i = i + 1;
    }
    None
}

/// The trimmed part of a character sequence.
fn trimmed(s: &[char]) -> (r: Vec<char>)
    ensures
        r@ == trim(s@),
{
    let (a, b) = trim_bounds(s);
    slice_of(s, a, b)
}

/// Reads one header line: its record, and whether it closes the header.
fn parse_line(line: &str) -> (r: (Option<Value>, bool))
    ensures
        r.0 matches Some(v) ==> parse_record(line@) == Some(v.entry()),
        r.0 is None ==> parse_record(line@) is None,
        r.1 == is_end_line(line@),
{
    let chars = str_chars(line);
    let t = trimmed(chars.as_slice());
    let end_word = vec!['e', 'n', 'd'];
    let is_end = chars_eq_ignore_ascii_case(t.as_slice(), end_word.as_slice());
    proof {
        assert(end_word@ =~= seq!['e', 'n', 'd']);
    }
    let e = match find_char_in(t.as_slice(), '=') {
        Some(e) => e,
        None => return (None, is_end),
    };
    assert(e < t.len());
    let key = trimmed(slice_of(t.as_slice(), 0, e).as_slice());
    let vac = trimmed(slice_of(t.as_slice(), e + 1, t.len()).as_slice());
    proof {
        assert(t@.subrange(0, e as int) =~= t@.take(e as int));
        assert(t@.subrange(e + 1, t@.len() as int) =~= t@.skip(e + 1));
    }
    let (value, comment) = match find_char_in(vac.as_slice(), '/') {
        Some(p) => {
            assert(p < vac.len());
            proof {
                assert(vac@.subrange(0, p as int) =~= vac@.take(p as int));
                assert(vac@.subrange(p + 1, vac@.len() as int) =~= vac@.skip(p + 1));
            }
            (
                trimmed(slice_of(vac.as_slice(), 0, p).as_slice()),
                trimmed(slice_of(vac.as_slice(), p + 1, vac.len()).as_slice()),
            )
        },
        None => {
            let empty: Vec<char> = Vec::new();
            proof {
                assert(empty@ =~= Seq::<char>::empty());
                assert(trim(Seq::<char>::empty()) =~= Seq::<char>::empty());
            }
            (trimmed(vac.as_slice()), empty)
        },
    };
    let v = Value {
        name: string_from_chars(key.as_slice()),
        value: string_from_chars(value.as_slice()),
        comment: Some(string_from_chars(comment.as_slice())),
    };
    (Some(v), is_end)
}

enum HeaderRead {
    Eof,
    Invalid,
    Overflow,
    Found(Header),
}

proof fn lemma_records_step(b: Seq<u8>, p: int, q: int)
    requires
        p <= q,
    ensures
        records_between(b, p, q + 80) == (match parse_record(decode_utf8(line_bytes(b, q))) {
            Some(e) => records_between(b, p, q).push(e),
            None => records_between(b, p, q),
        }),
{
}

fn usize_key_value(values: &Vec<Value>, key: &[char], default: usize) -> (r: usize)
    ensures
        r == key_usize(entries_of(values@), key@, default as int),
{
    match value_int(values, key, 0, usize::MAX as i128) {
        Some(v) => v as usize,
        None => default,
    }
}

fn naxis_key_chars(idx: usize) -> (r: Vec<char>)
    ensures
        r@ == naxis_key(idx as int),
{
    let mut r = vec!['N', 'A', 'X', 'I', 'S'];
    let d = u64_digits(idx as u64);
    let mut i: usize = 0;
    while i < d.len()
        invariant
            i <= d@.len(),
            d@ == nat_digits(idx as nat),
            r@ == seq!['N', 'A', 'X', 'I', 'S'] + d@.take(i as int),
        decreases d@.len() - i,
    {
        r.push(d[i]);
        i = i + 1;
        proof {
            assert(r@ =~= seq!['N', 'A', 'X', 'I', 'S'] + d@.take(i as int));
        }
    }
    proof {
        assert(d@.take(d@.len() as int) =~= d@);
    }
    r
}

proof fn lemma_product_take(s: Seq<usize>, k: int)
    requires
        0 <= k < s.len(),
    ensures
        product(s.take(k + 1)) == product(s.take(k)) * s[k] as int,
{
    assert(s.take(k + 1).drop_last() =~= s.take(k));
}

/// Reads the header that starts at `pos` (see `header_at`).
#[verifier::rlimit(30)]
fn read_header(bytes: &[u8], pos: usize) -> (r: HeaderRead)
    ensures
        r is Eof ==> header_at(bytes@, pos as int) is Eof,
        r is Invalid ==> header_at(bytes@, pos as int) is Invalid,
        r is Overflow ==> header_at(bytes@, pos as int) is Overflow,
        r matches HeaderRead::Found(h) ==> header_at(bytes@, pos as int) == HeaderAt::Found(h@),
{
    let ghost b = bytes@;
    let mut values: Vec<Value> = Vec::new();
    let mut cur: usize = pos;
    proof {
        assert(entries_of(values@) =~= records_between(b, pos as int, pos as int));
    }
    loop
        invariant_except_break
            pos <= cur,
            b == bytes@,
            scan_end(b, pos as int) == scan_end(b, cur as int),
            entries_of(values@) == records_between(b, pos as int, cur as int),
        ensures
            pos + 2880 <= cur <= b.len(),
            scan_end(b, pos as int) == ScanEnd::End(cur as int),
            entries_of(values@) == records_between(b, pos as int, cur as int),
        decreases b.len() - cur,
    {
        if bytes.len() < 2880 || cur > bytes.len() - 2880 {
            return HeaderRead::Eof;
        }
        let mut last_block = false;
        let mut k: usize = 0;
        while k < 36
            invariant
                k <= 36,
                pos <= cur,
                cur + 2880 <= bytes.len(),
                b == bytes@,
                scan_end(b, pos as int) == scan_end(b, cur as int),
                entries_of(values@) == records_between(b, pos as int, cur + 80 * k),
                forall|j: int| 0 <= j < k ==> valid_utf8(#[trigger] line_bytes(b, cur + 80 * j)),
                last_block == exists|j: int|
                    0 <= j < k && is_end_line(decode_utf8(#[trigger] line_bytes(b, cur + 80 * j))),
            decreases 36 - k,
        {
            let start = cur + 80 * k;
            let line = &bytes[start..start + 80];
            proof {
                assert(line@ == line_bytes(b, start as int));
            }
            let text = match utf8_str(line) {
                Some(t) => t,
                None => {
                    proof {
                        assert(!block_valid(b, cur as int));
                    }
                    return HeaderRead::Invalid;
                },
            };
            let (rec, is_end) = parse_line(text);
            proof {
                lemma_records_step(b, pos as int, start as int);
            }
            let ghost before = values@;
            match rec {
                Some(v) => {
                    values.push(v);
                    proof {
                        assert(entries_of(values@) =~= entries_of(before).push(values@.last().entry()));
                    }
                },
                None => {},
            }
            if is_end {
                last_block = true;
            }
            k = k + 1;
            proof {
                assert(start + 80 == cur + 80 * k);
            }
        }
        proof {
            assert(block_valid(b, cur as int));
        }
        cur = cur + 2880;
        if last_block {
            proof {
                assert(block_has_end(b, (cur - 2880) as int));
            }
            break;
        }
        proof {
            assert(!block_has_end(b, (cur - 2880) as int));
        }
    }
    let ghost e = entries_of(values@);
    let naxis = vec!['N', 'A', 'X', 'I', 'S'];
    let pcount_key = vec!['P', 'C', 'O', 'U', 'N', 'T'];
    let gcount_key = vec!['G', 'C', 'O', 'U', 'N', 'T'];
    let bitpix_key = vec!['B', 'I', 'T', 'P', 'I', 'X'];
    proof {
        assert(naxis@ =~= seq!['N', 'A', 'X', 'I', 'S']);
        assert(pcount_key@ =~= seq!['P', 'C', 'O', 'U', 'N', 'T']);
        assert(gcount_key@ =~= seq!['G', 'C', 'O', 'U', 'N', 'T']);
        assert(bitpix_key@ =~= seq!['B', 'I', 'T', 'P', 'I', 'X']);
    }
    let ndim = usize_key_value(&values, naxis.as_slice(), 0);
    let gcount = usize_key_value(&values, gcount_key.as_slice(), 1);
    let pcount = usize_key_value(&values, pcount_key.as_slice(), 0);
    let bitpix: i8 = match value_int(&values, bitpix_key.as_slice(), -128, 127) {
        Some(v) => v as i8,
        None => 8,
    };
    let ghost dims_spec = header_dims(e);
    let mut dims: Vec<usize> = Vec::new();
    let mut data_len: usize = 1;
    let mut i: usize = 0;
    while i < ndim
        invariant
            i <= ndim,
            ndim == dims_spec.len(),
            e == entries_of(values@),
            dims_spec == header_dims(e),
            b == bytes@,
            scan_end(b, pos as int) == ScanEnd::End(cur as int),
            e == records_between(b, pos as int, cur as int),
            dims@ == dims_spec.take(i as int),
            data_len == product(dims_spec.take(i as int)),
            forall|k: int| 0 <= k <= i ==> #[trigger] product(dims_spec.take(k)) <= usize::MAX,
        decreases ndim - i,
    {
        let key = naxis_key_chars(i + 1);
        let dim = usize_key_value(&values, key.as_slice(), 1);
        proof {
            assert(dim == dims_spec[i as int]);
            lemma_product_take(dims_spec, i as int);
        }
        let next = match data_len.checked_mul(dim) {
            Some(v) => v,
            None => {
                proof {
                    assert(product(dims_spec.take(i + 1)) > usize::MAX);
                    assert(sizes_overflow(e));
                }
                return HeaderRead::Overflow;
            },
        };
        data_len = next;
        dims.push(dim);
        i = i + 1;
        proof {
            assert(dims@ =~= dims_spec.take(i as int));
        }
    }
    proof {
        assert(dims_spec.take(ndim as int) =~= dims_spec);
        assert(dims@ =~= dims_spec);
    }
    let with_pcount = match data_len.checked_add(pcount) {
        Some(v) => v,
        None => return HeaderRead::Overflow,
    };
    let total = match with_pcount.checked_mul(gcount) {
        Some(v) => v,
        None => return HeaderRead::Overflow,
    };
    if bitpix == -128 {
        return HeaderRead::Overflow;
    }
    let abs_bitpix: i8 = if bitpix < 0 {
        -bitpix
    } else {
        bitpix
    };
    let byte_per_value = (abs_bitpix / 8) as usize;
    assert(total == header_data_len(e));
    assert(byte_per_value == abs_int(header_bitpix(e)) / 8);
    let bytes_len = match total.checked_mul(byte_per_value) {
        Some(v) => v,
        None => return HeaderRead::Overflow,
    };
    if bytes_len as u64 > 0x7FFF_FFFF_FFFF_FFFFu64 {
        return HeaderRead::Overflow;
    }
    proof {
        assert(!sizes_overflow(e));
    }
    HeaderRead::Found(Header { values, bitpix, dims, data_pos: cur, data_len: total, bytes_len })
}

proof fn lemma_scan_end_range(b: Seq<u8>, p: int)
    ensures
        scan_end(b, p) matches ScanEnd::End(q) ==> p + 2880 <= q <= b.len(),
    decreases b.len() - p,
{
    if !(p < 0 || p + 2880 > b.len()) && block_valid(b, p) && !block_has_end(b, p) {
        lemma_scan_end_range(b, p + 2880);
    }
}

proof fn lemma_scan_file_step(b: Seq<u8>, p: int, h: HeaderModel)
    requires
        0 <= p,
        b.len() <= usize::MAX,
        header_at(b, p) == HeaderAt::Found(h),
    ensures
        h.data_pos >= p + 2880,
        h.data_pos + h.bytes_len + 2880 > b.len() ==> scan_file(b, p) == Ok::<
            Seq<HeaderModel>,
            FitsError,
        >(seq![h]),
        h.data_pos + h.bytes_len + 2880 <= b.len() ==> scan_file(b, p) == prefixed(
            seq![h],
            scan_file(b, h.data_pos + h.bytes_len),
        ),
{
    lemma_scan_end_range(b, p);
}

pub open spec fn headers_view(hs: Seq<Header>) -> Seq<HeaderModel> {
    hs.map_values(|h: Header| h@)
}

pub open spec fn prefixed(hs: Seq<HeaderModel>, r: Result<Seq<HeaderModel>, FitsError>) -> Result<
    Seq<HeaderModel>,
    FitsError,
> {
    match r {
        Ok(rest) => Ok(hs + rest),
        Err(e) => Err(e),
    }
}

/// The zero point of stored samples: `BZERO`, cut to 16 bits, 0 where missing.
pub open spec fn header_bzero(e: Seq<Entry>) -> u16 {
    match key_int(e, "BZERO"@, i64::MIN as int, i64::MAX as int) {
        Some(v) => v as u16,
        None => 0,
    }
}

/// Sample `i` of data at `start`: 8-bit plus the zero point (mod 256), or
/// 16-bit big-endian plus the zero point (mod 65536).
pub open spec fn stored_sample(b: Seq<u8>, bitpix: i8, bzero: u16, start: int, i: int) -> u16 {
    if bitpix == 8 {
        ((b[start + i] as int + bzero as int % 256) % 256) as u16
    } else {
        ((b[start + 2 * i] as int * 256 + b[start + 2 * i + 1] as int + bzero as int) % 0x1_0000) as u16
    }
}

/// Samples read before the bytes run out: whole chunks of 512.
pub open spec fn samples_read(start: int, elem: int, n: int, len: int) -> int {
    if start + elem * n <= len {
        n
    } else if start > len {
        0
    } else {
        512 * ((len - start) / (512 * elem))
    }
}

/// What reading 8- or 16-bit samples `offset` bytes into a header's data leaves in a
/// buffer that held `old`, and whether all samples were there.
pub open spec fn read_outcome(h: HeaderModel, b: Seq<u8>, offset: int, old: Seq<u16>) -> (
    Seq<u16>,
    Result<(), FitsError>,
) {
    if h.bitpix != 8 && h.bitpix != 16 {
        (old, Err(FitsError::Unsupported))
    } else {
        let start = h.data_pos + offset;
        let n = old.len() as int;
        let done = samples_read(start, (h.bitpix / 8) as int, n, b.len() as int);
        (
            Seq::new(
                old.len(),
                |i: int|
                    if i < done {
                        stored_sample(b, h.bitpix, header_bzero(h.entries), start, i)
                    } else {
                        old[i]
                    },
            ),
            if done == n {
                Ok(())
            } else {
                Err(FitsError::UnexpectedEof)
            },
        )
    }
}

proof fn lemma_samples_layout(bitpix: i8, bzero: u16, data: Seq<u16>)
    requires
        bitpix == 8 || bitpix == 16,
    ensures
        samples_bytes(bitpix, bzero, data).len() == (bitpix / 8) * data.len(),
        forall|i: int, k: int|
            0 <= i < data.len() && 0 <= k < bitpix / 8 ==> #[trigger] samples_bytes(
                bitpix,
                bzero,
                data,
            )[(bitpix / 8) * i + k] == #[trigger] sample_bytes(bitpix, bzero, data[i])[k],
    decreases data.len(),
{
    if data.len() > 0 {
        let p = data.drop_last();
        lemma_samples_layout(bitpix, bzero, p);
        let elem = bitpix / 8;
        assert forall|i: int, k: int|
            0 <= i < data.len() && 0 <= k < bitpix / 8 implies #[trigger] samples_bytes(
            bitpix,
            bzero,
            data,
        )[(bitpix / 8) * i + k] == #[trigger] sample_bytes(bitpix, bzero, data[i])[k] by {
            if i < data.len() - 1 {
                assert(p[i] == data[i]);
                assert((bitpix / 8) * i + k < (bitpix / 8) * p.len()) by (nonlinear_arith)
                    requires i < p.len(), 0 <= k < bitpix / 8, bitpix / 8 >= 1;
            } else {
                assert((bitpix / 8) * i + k == (bitpix / 8) * p.len() + k);
            }
        }
    }
}

proof fn lemma_sample8(v: u16, bzero: u16)
    requires
        v <= 255,
    ensures
        ({
            let byte = ((v as int % 256 - bzero as int % 256 + 256) % 256) as u8;
            ((byte as int + bzero as int % 256) % 256) as u16 == v
        }),
{
    let z = bzero as int % 256;
    let byte = (v as int - z + 256) % 256;
    assert(0 <= byte < 256);
    assert((byte + z) % 256 == v as int) by (nonlinear_arith)
        requires 0 <= v <= 255, 0 <= z < 256, byte == (v as int - z + 256) % 256;
}

proof fn lemma_sample16(v: u16, bzero: u16)
    ensures
        ({
            let w = (v as int - bzero as int + 0x1_0000) % 0x1_0000;
            let b0 = (w / 256) as u8;
            let b1 = (w % 256) as u8;
            ((b0 as int * 256 + b1 as int + bzero as int) % 0x1_0000) as u16 == v
        }),
{
    let w = (v as int - bzero as int + 0x1_0000) % 0x1_0000;
    assert(0 <= w < 0x1_0000);
    assert(w / 256 < 256);
    assert((w / 256) * 256 + w % 256 == w);
    assert((w + bzero as int) % 0x1_0000 == v as int) by (nonlinear_arith)
        requires 0 <= v < 0x1_0000, 0 <= bzero < 0x1_0000, w == (v as int - bzero as int + 0x1_0000) % 0x1_0000;
}

/// Samples written as 8 bits (all at most 255) or as 16 bits read back as
/// themselves with the same zero point.
#[verifier::spinoff_prover]
pub proof fn lemma_samples_roundtrip(bitpix: i8, bzero: u16, data: Seq<u16>, i: int)
    requires
        bitpix == 8 || bitpix == 16,
        0 <= i < data.len(),
        bitpix == 8 ==> data[i] <= 255,
    ensures
        stored_sample(samples_bytes(bitpix, bzero, data), bitpix, bzero, 0, i) == data[i],
{
    lemma_samples_layout(bitpix, bzero, data);
    let b = samples_bytes(bitpix, bzero, data);
    if bitpix == 8 {
        assert(b[(bitpix / 8) * i + 0] == sample_bytes(bitpix, bzero, data[i])[0]);
        lemma_sample8(data[i], bzero);
    } else {
        assert(b[(bitpix / 8) * i + 0] == sample_bytes(bitpix, bzero, data[i])[0]);
        assert(b[(bitpix / 8) * i + 1] == sample_bytes(bitpix, bzero, data[i])[1]);
        lemma_sample16(data[i], bzero);
    }
}

/// Samples laid out as the writer lays them out are read back as themselves: where the
/// bytes from a header's data position hold `data` as `samples_bytes` gives it, with the
/// header's sample size (8 bits, every sample at most 255, or 16) and zero point, reading
/// as many samples from there fills the buffer with `data` and succeeds.
pub proof fn lemma_read_back_samples(h: HeaderModel, b: Seq<u8>, data: Seq<u16>, old: Seq<u16>)
    requires
        h.bitpix == 8 || h.bitpix == 16,
        h.bitpix == 8 ==> forall|i: int| 0 <= i < data.len() ==> #[trigger] data[i] <= 255,
        old.len() == data.len(),
        h.data_pos + samples_bytes(h.bitpix, header_bzero(h.entries), data).len() <= b.len(),
        b.subrange(h.data_pos as int, h.data_pos + samples_bytes(h.bitpix, header_bzero(h.entries), data).len())
            == samples_bytes(h.bitpix, header_bzero(h.entries), data),
    ensures
        read_outcome(h, b, 0, old) == (data, Ok::<(), FitsError>(())),
{
    let z = header_bzero(h.entries);
    let sb = samples_bytes(h.bitpix, z, data);
    let start = h.data_pos as int;
    lemma_samples_layout(h.bitpix, z, data);
    assert(samples_read(start, (h.bitpix / 8) as int, data.len() as int, b.len() as int) == data.len());
    let got = read_outcome(h, b, 0, old).0;
    assert forall|i: int| 0 <= i < data.len() implies #[trigger] got[i] == data[i] by {
        lemma_samples_roundtrip(h.bitpix, z, data, i);
        if h.bitpix == 8 {
            assert(b[start + i] == sb[i]);
        } else {
            assert(2 * i + 1 < sb.len()) by (nonlinear_arith)
                requires sb.len() == 2 * data.len(), 0 <= i < data.len();
            assert(b[start + 2 * i] == sb[2 * i]);
            assert(b[start + 2 * i + 1] == sb[2 * i + 1]);
        }
    }
    assert(got =~= data);
}

/// Headers of a FITS file.
pub struct FitsReader {
    pub headers: Vec<Header>,
}

impl FitsReader {
    /// Reads all headers of FITS file bytes (see `scan_file`).
    pub fn new(bytes: &[u8]) -> (r: Result<FitsReader, FitsError>)
        ensures
            r matches Ok(reader) ==> scan_file(bytes@, 0) == Ok::<Seq<HeaderModel>, FitsError>(
                headers_view(reader.headers@),
            ),
            r matches Err(e) ==> scan_file(bytes@, 0) == Err::<Seq<HeaderModel>, FitsError>(e),
    {
        let hdus = Self::read_all_headers(bytes);
        match hdus {
            Ok(headers) => Ok(Self { headers }),
            Err(e) => Err(e),
        }
    }

    /// Reads 8- and 16-bit integer samples of a header's data, `offset` bytes
    /// into it, in chunks of 512; other sample types are unsupported.
    pub fn read_int_data(header: &Header, bytes: &[u8], offset: usize, result: &mut [u16]) -> (r:
        Result<(), FitsError>)
        requires
            header@.data_pos + offset <= usize::MAX,
        ensures
            final(result)@ == read_outcome(header@, bytes@, offset as int, old(result)@).0,
            r == read_outcome(header@, bytes@, offset as int, old(result)@).1,
            final(result)@.len() == old(result)@.len(),
            header@.bitpix != 8 && header@.bitpix != 16 ==> r == Err::<(), FitsError>(
                FitsError::Unsupported,
            ) && final(result)@ == old(result)@,
            header@.bitpix == 8 || header@.bitpix == 16 ==> ({
                let start = header@.data_pos + offset;
                let elem = header@.bitpix / 8;
                let n = old(result)@.len() as int;
                let done = samples_read(start, elem as int, n, bytes@.len() as int);
                &&& (r is Ok <==> done == n)
                &&& (r is Err ==> r == Err::<(), FitsError>(FitsError::UnexpectedEof))
                &&& forall|i: int|
                    0 <= i < n ==> #[trigger] final(result)@[i] == if i < done {
                        stored_sample(bytes@, header@.bitpix, header_bzero(header@.entries), start, i)
                    } else {
                        old(result)@[i]
                    }
            }),
    {
        let bitpix = header.bitpix;
        if bitpix != 8 && bitpix != 16 {
            return Err(FitsError::Unsupported);
        }
        let bzero: u16 = match header.get_i64("BZERO") {
            Some(v) => v as u16,
            None => 0,
        };
        let elem: usize = if bitpix == 8 { 1 } else { 2 };
        let start = header.data_pos + offset;
        let n = result.len();
        let ghost old_result = result@;
        let mut c: usize = 0;
        while c < n
            invariant
                result@.len() == n,
                n == old_result.len(),
                old_result == old(result)@,
                bitpix == header@.bitpix,
                bzero == header_bzero(header@.entries),
                start == header@.data_pos + offset,
                elem == bitpix / 8,
                elem == 1 || elem == 2,
                c <= n,
                c % 512 == 0 || c == n,
                bitpix == 8 || bitpix == 16,
                c > 0 ==> start + elem * c <= bytes@.len(),
                forall|i: int|
                    0 <= i < n ==> #[trigger] result@[i] == if i < c {
                        stored_sample(bytes@, bitpix, bzero, start as int, i)
                    } else {
                        old_result[i]
                    },
            decreases n - c,
        {
            let len = if n - c < 512 { n - c } else { 512 };
            if bytes.len() < start || (bytes.len() - start) / elem < c + len {
                proof {
                    assert(samples_read(start as int, elem as int, n as int, bytes@.len() as int) == c) by (nonlinear_arith)
                        requires
                            c % 512 == 0 || c == n,
                            c + len > (bytes@.len() - start) / (elem as int) || bytes@.len() < start,
                            c > 0 ==> start + elem * c <= bytes@.len(),
                            c < n,
                            len == (if n - c < 512 { n - c } else { 512 }),
                            elem == 1 || elem == 2;
                    assert(result@ =~= read_outcome(header@, bytes@, offset as int, old_result).0);
                }
                return Err(FitsError::UnexpectedEof);
            }
            let mut k: usize = 0;
            while k < len
                invariant
                    result@.len() == n,
                    n == old_result.len(),
                    bitpix == 8 || bitpix == 16,
                    elem == bitpix / 8,
                    elem == 1 || elem == 2,
                    k <= len,
                    c + len <= n,
                    start + elem * (c + len) <= bytes.len(),
                    forall|i: int|
                        0 <= i < n ==> #[trigger] result@[i] == if i < c + k {
                            stored_sample(bytes@, bitpix, bzero, start as int, i)
                        } else {
                            old_result[i]
                        },
                decreases len - k,
            {
                let i = c + k;
                let v: u16 = if bitpix == 8 {
                    let b = bytes[start + i];
                    ((b as u32 + (bzero % 256) as u32) % 256) as u16
                } else {
                    let b1 = bytes[start + 2 * i];
                    let b2 = bytes[start + 2 * i + 1];
                    ((b1 as u32 * 256 + b2 as u32 + bzero as u32) % 0x1_0000) as u16
                };
                result[i] = v;
                k = k + 1;
            }
            c = c + len;
        }
        proof {
            assert(samples_read(start as int, elem as int, n as int, bytes@.len() as int) == n);
            assert(result@ =~= read_outcome(header@, bytes@, offset as int, old_result).0);
        }
        Ok(())
    }

    #[verifier::rlimit(30)]
    fn read_all_headers(bytes: &[u8]) -> (r: Result<Vec<Header>, FitsError>)
        ensures
            r matches Ok(hs) ==> scan_file(bytes@, 0) == Ok::<Seq<HeaderModel>, FitsError>(
                headers_view(hs@),
            ),
            r matches Err(e) ==> scan_file(bytes@, 0) == Err::<Seq<HeaderModel>, FitsError>(e),
    {
        let ghost b = bytes@;
        let mut result: Vec<Header> = Vec::new();
        let mut pos: usize = 0;
        proof {
            assert(headers_view(result@) =~= Seq::<HeaderModel>::empty());
            assert(prefixed(Seq::empty(), scan_file(b, 0)) =~~= scan_file(b, 0));
        }
        loop
            invariant
                b == bytes@,
                b.len() == bytes.len(),
                pos <= b.len(),
                scan_file(b, 0) == prefixed(headers_view(result@), scan_file(b, pos as int)),
            decreases b.len() - pos,
        {
            match read_header(bytes, pos) {
                HeaderRead::Eof => {
                    proof {
                        assert(headers_view(result@) + Seq::<HeaderModel>::empty() =~= headers_view(result@));
                    }
                    return Ok(result);
                },
                HeaderRead::Invalid => {
                    return Err(FitsError::InvalidData);
                },
                HeaderRead::Overflow => {
                    return Err(FitsError::Overflow);
                },
                HeaderRead::Found(hdu) => {
                    let ghost h = hdu@;
                    proof {
                        lemma_scan_file_step(b, pos as int, h);
                    }
                    let data_pos = hdu.data_pos;
                    let size = hdu.bytes_len;
                    let ghost before = headers_view(result@);
                    result.push(hdu);
                    proof {
                        assert(headers_view(result@) =~= before + seq![h]);
                    }
                    let next = data_pos.checked_add(size);
                    let stop = match next {
                        Some(n) => n > bytes.len() || bytes.len() - n < 2880,
                        None => true,
                    };
                    if stop {
                        proof {
                            assert(headers_view(result@) =~= before + seq![h]);
                            assert((before + seq![h]) + Seq::<HeaderModel>::empty() =~= before + seq![h]);
                        }
                        return Ok(result);
                    }
                    let n = next.unwrap();
                    proof {
                        match scan_file(b, n as int) {
                            Ok(rest) => {
                                assert(before + (seq![h] + rest) =~= (before + seq![h]) + rest);
                            },
                            Err(_) => {},
                        }
                    }
                    pos = n;
                },
            }
        }
    }
}

// ---------------------------------------------------------------------------
// Writing headers and data.

pub open spec fn spaces(n: int) -> Seq<char> {
    Seq::new(if n > 0 { n as nat } else { 0 }, |i: int| ' ')
}

/// `format!("{:<w}", s)`.
pub open spec fn pad_right(s: Seq<char>, w: int) -> Seq<char> {
    s + spaces(w - s.len())
}

/// `format!("{:>w}", s)`.
pub open spec fn pad_left(s: Seq<char>, w: int) -> Seq<char> {
    spaces(w - s.len()) + s
}

/// Characters dropped from the end until the UTF-8 text is at most 80 bytes.
pub open spec fn shrink80(s: Seq<char>) -> Seq<char>
    decreases s.len(),
{
    if s.len() > 0 && byte_len(s) > 80 {
        shrink80(s.drop_last())
    } else {
        s
    }
}

/// A line filled with spaces to 80 bytes, or cut to at most 80.
pub open spec fn fit80(s: Seq<char>) -> Seq<char> {
    if byte_len(s) < 80 {
        s + spaces(80 - byte_len(s))
    } else {
        shrink80(s)
    }
}

/// The header line of a record: name padded to 8, `= `, the value (quoted
/// text left-aligned, other values right-aligned in 20), ` / `, the comment
/// (the name where there is none), made 80 bytes.
pub open spec fn record_line(e: Entry) -> Seq<char> {
    let value = if e.1.len() > 0 && e.1[0] == '\'' {
        pad_right(e.1, 20)
    } else {
        pad_left(e.1, 20)
    };
    let comment = match e.2 {
        Some(c) => c,
        None => e.0,
    };
    fit80(pad_right(e.0, 8) + seq!['=', ' '] + value + seq![' ', '/', ' '] + comment)
}

pub open spec fn records_bytes(es: Seq<Entry>) -> Seq<u8>
    decreases es.len(),
{
    if es.len() == 0 {
        Seq::empty()
    } else {
        records_bytes(es.drop_last()) + encode_utf8(record_line(es.last()))
    }
}

pub open spec fn blank_bytes(n: int) -> Seq<u8> {
    Seq::new(if n > 0 { n as nat } else { 0 }, |i: int| 32u8)
}

/// Header bytes: the record lines, an `END` line, then blank lines up to the
/// next multiple of 36 lines (a whole blank block where the count is one).
pub open spec fn header_bytes(es: Seq<Entry>) -> Seq<u8> {
    let lines_to_complete = 36 - (es.len() + 1) % 36;
    records_bytes(es) + seq![69u8, 78u8, 68u8] + blank_bytes(77) + blank_bytes(80 * lines_to_complete)
}

/// Bytes of one sample: 8 bits less the offset, or 16 bits big-endian less the offset.
pub open spec fn sample_bytes(bitpix: i8, bzero: u16, v: u16) -> Seq<u8> {
    if bitpix == 8 {
        seq![((v as int % 256 - bzero as int % 256 + 256) % 256) as u8]
    } else {
        let w = (v as int - bzero as int + 0x1_0000) % 0x1_0000;
        seq![(w / 256) as u8, (w % 256) as u8]
    }
}

pub open spec fn samples_bytes(bitpix: i8, bzero: u16, data: Seq<u16>) -> Seq<u8>
    decreases data.len(),
{
    if data.len() == 0 {
        Seq::empty()
    } else {
        samples_bytes(bitpix, bzero, data.drop_last()) + sample_bytes(bitpix, bzero, data.last())
    }
}

fn push_str_bytes(out: &mut Vec<u8>, s: &str)
    ensures
        final(out)@ == old(out)@ + encode_utf8(s@),
{
    let b = s.as_bytes();
    let mut i: usize = 0;
    while i < b.len()
        invariant
            i <= b@.len(),
            b@ == encode_utf8(s@),
            out@ == old(out)@ + b@.take(i as int),
        decreases b@.len() - i,
    {
        out.push(b[i]);
        i = i + 1;
        proof {
            assert(out@ =~= old(out)@ + b@.take(i as int));
        }
    }
    proof {
        assert(b@.take(b@.len() as int) =~= b@);
    }
}

fn push_spaces(out: &mut Vec<u8>, n: usize)
    ensures
        final(out)@ == old(out)@ + blank_bytes(n as int),
{
    let mut i: usize = 0;
    while i < n
        invariant
            i <= n,
            out@ == old(out)@ + blank_bytes(i as int),
        decreases n - i,
    {
        out.push(32u8);
        i = i + 1;
        proof {
            assert(out@ =~= old(out)@ + blank_bytes(i as int));
        }
    }
}

fn push_chars(s: &mut String, cs: &[char])
    ensures
        final(s)@ == old(s)@ + cs@,
{
    let mut i: usize = 0;
    while i < cs.len()
        invariant
            i <= cs@.len(),
            s@ == old(s)@ + cs@.take(i as int),
        decreases cs@.len() - i,
    {
        push_char(s, cs[i]);
        i = i + 1;
        proof {
            assert(s@ =~= old(s)@ + cs@.take(i as int));
        }
    }
    proof {
        assert(cs@.take(cs@.len() as int) =~= cs@);
    }
}

fn push_pad(s: &mut String, n: usize, w: usize)
    ensures
        final(s)@ == old(s)@ + spaces(w - n),
{
    let mut k = n;
    while k < w
        invariant
            n <= w ==> n <= k <= w,
            n > w ==> k == n,
            s@ == old(s)@ + spaces(k - n),
        decreases w - k,
    {
        push_char(s, ' ');
        k = k + 1;
        proof {
            assert(s@ =~= old(s)@ + spaces(k - n));
        }
    }
    proof {
        assert(spaces(k - n) =~= spaces(w - n));
    }
}

fn push_pad_chars(s: &mut Vec<char>, n: usize, w: usize)
    ensures
        final(s)@ == old(s)@ + spaces(w - n),
{
    let mut k = n;
    while k < w
        invariant
            n <= w ==> n <= k <= w,
            n > w ==> k == n,
            s@ == old(s)@ + spaces(k - n),
        decreases w - k,
    {
        s.push(' ');
        k = k + 1;
        proof {
            assert(s@ =~= old(s)@ + spaces(k - n));
        }
    }
    proof {
        assert(spaces(k - n) =~= spaces(w - n));
    }
}

fn append_chars(s: &mut Vec<char>, cs: &[char])
    ensures
        final(s)@ == old(s)@ + cs@,
{
    let mut i: usize = 0;
    while i < cs.len()
        invariant
            i <= cs@.len(),
            s@ == old(s)@ + cs@.take(i as int),
        decreases cs@.len() - i,
    {
        s.push(cs[i]);
        i = i + 1;
        proof {
            assert(s@ =~= old(s)@ + cs@.take(i as int));
        }
    }
    proof {
        assert(cs@.take(cs@.len() as int) =~= cs@);
    }
}

proof fn lemma_shrink80(s: Seq<char>, k: int)
    requires
        0 <= k <= s.len(),
        byte_len(s.take(k)) <= 80,
        k < s.len() ==> byte_len(s.take(k + 1)) > 80,
    ensures
        shrink80(s) == s.take(k),
    decreases s.len() - k,
{
    if k == s.len() {
        assert(s.take(k) =~= s);
    } else {
        lemma_byte_len_prefix(s, k + 1, s.len() as int);
        assert(s.take(s.len() as int) =~= s);
        let t = s.drop_last();
        assert(t.take(k) =~= s.take(k));
        if k + 1 < s.len() {
            assert(t.take(k + 1) =~= s.take(k + 1));
        }
        lemma_shrink80(t, k);
    }
}

proof fn lemma_spaces_bytes(s: Seq<char>, n: int)
    requires
        n >= 0,
    ensures
        byte_len(s + spaces(n)) == byte_len(s) + n,
    decreases n,
{
    if n > 0 {
        lemma_spaces_bytes(s, n - 1);
        assert(s + spaces(n) =~= (s + spaces(n - 1)).push(' '));
        lemma_byte_len_push(s + spaces(n - 1), ' ');
        assert(char_width(' ') == 1) by {
            char_is_scalar(' ');
            assert((' ' as u32) == 32);
        }
    } else {
        assert(s + spaces(n) =~= s);
    }
}

/// The text made 80 bytes long: filled with spaces, or cut (see `fit80`).
fn fit80_chars(base: &Vec<char>) -> (chars: Vec<char>)
    ensures
        chars@ == fit80(base@),
{
    // the longest prefix of at most 80 bytes
    let n = base.len();
    let mut k: usize = 0;
    let mut blen: usize = 0;
    while k < n
        invariant_except_break
            k <= n,
            n == base@.len(),
            blen == byte_len(base@.take(k as int)),
            blen <= 80,
        ensures
            k <= n,
            n == base@.len(),
            blen == byte_len(base@.take(k as int)),
            blen <= 80,
            k < n ==> byte_len(base@.take(k + 1)) > 80,
        decreases n - k,
    {
        let w = char_utf8_width(base[k]);
        proof {
            assert(base@.take(k + 1) =~= base@.take(k as int).push(base@[k as int]));
            lemma_byte_len_push(base@.take(k as int), base@[k as int]);
        }
        if blen + w > 80 {
            break;
        }
        blen = blen + w;
        k = k + 1;
    }
    let ghost bl = byte_len(base@);
    let mut chars: Vec<char> = Vec::new();
    if k == n {
        proof {
            assert(base@.take(n as int) =~= base@);
        }
        append_chars(&mut chars, base.as_slice());
        if blen < 80 {
            push_pad_chars(&mut chars, blen, 80);
        } else {
            proof {
                lemma_shrink80(base@, n as int);
            }
        }
    } else {
        proof {
            lemma_byte_len_prefix(base@, k + 1, n as int);
            assert(base@.take(n as int) =~= base@);
            lemma_shrink80(base@, k as int);
        }
        let prefix = slice_of(base.as_slice(), 0, k);
        proof {
            assert(prefix@ =~= base@.take(k as int));
        }
        append_chars(&mut chars, prefix.as_slice());
    }
    proof {
        assert(chars@ =~= fit80(base@));
    }
    chars
}

/// The header line of a record as text.
#[verifier::rlimit(40)]
fn record_line_string(v: &Value) -> (line: String)
    ensures
        line@ == record_line(v.entry()),
{
    let name = str_chars(v.name.as_str());
    let value = str_chars(v.value.as_str());
    let mut base: Vec<char> = Vec::new();
    append_chars(&mut base, name.as_slice());
    push_pad_chars(&mut base, name.len(), 8);
    base.push('=');
    base.push(' ');
    if value.len() > 0 && value[0] == '\'' {
        append_chars(&mut base, value.as_slice());
        push_pad_chars(&mut base, value.len(), 20);
    } else {
        push_pad_chars(&mut base, value.len(), 20);
        append_chars(&mut base, value.as_slice());
    }
    base.push(' ');
    base.push('/');
    base.push(' ');
    match &v.comment {
        Some(c) => {
            let cc = str_chars(c.as_str());
            append_chars(&mut base, cc.as_slice());
        },
        None => {
            append_chars(&mut base, name.as_slice());
        },
    }
    proof {
        let e = v.entry();
        let val = if e.1.len() > 0 && e.1[0] == '\'' {
            pad_right(e.1, 20)
        } else {
            pad_left(e.1, 20)
        };
        let comment = match e.2 {
            Some(c) => c,
            None => e.0,
        };
        assert(base@ =~= pad_right(e.0, 8) + seq!['=', ' '] + val + seq![' ', '/', ' '] + comment);
    }
    let chars = fit80_chars(&base);
    string_from_chars(chars.as_slice())
}

fn push_sample(bitpix: i8, bzero: u16, v: u16, out: &mut Vec<u8>)
    requires
        bitpix == 8 || bitpix == 16,
    ensures
        final(out)@ == old(out)@ + sample_bytes(bitpix, bzero, v),
{
    if bitpix == 8 {
        let b = ((v % 256) as u8).wrapping_sub((bzero % 256) as u8);
        out.push(b);
        proof {
            assert(out@ =~= old(out)@ + sample_bytes(bitpix, bzero, v));
        }
    } else {
        let w = v.wrapping_sub(bzero);
        out.push((w / 256) as u8);
        out.push((w % 256) as u8);
        proof {
            assert(w as int == (v as int - bzero as int + 0x1_0000) % 0x1_0000);
            assert(out@ =~= old(out)@ + sample_bytes(bitpix, bzero, v));
        }
    }
}

/// Largest sample.
pub open spec fn seq_max(data: Seq<u16>) -> u16
    decreases data.len(),
{
    if data.len() == 0 {
        0
    } else {
        let m = seq_max(data.drop_last());
        if data.last() > m {
            data.last()
        } else {
            m
        }
    }
}

/// Records `NAXIS1` ... `NAXISk` with the axis sizes.
pub open spec fn naxis_records(e: Seq<Entry>, dims: Seq<usize>, k: int) -> Seq<Entry>
    decreases k,
{
    if k <= 0 {
        e
    } else {
        set_entry(
            naxis_records(e, dims, k - 1),
            naxis_key(k),
            dec_repr((dims[k - 1] as i64) as int),
        )
    }
}

/// Sample type code of written data: 16 bits where a sample passes 255, else 8.
pub open spec fn written_bitpix(data: Seq<u16>) -> i8 {
    if seq_max(data) > 255 {
        16
    } else {
        8
    }
}

pub open spec fn written_bzero(data: Seq<u16>) -> u16 {
    if seq_max(data) > 255 {
        32768
    } else {
        0
    }
}

/// Records of a written image header: `SIMPLE`, `BITPIX`, `NAXIS`, the axis
/// sizes, `EXTEND`, `BZERO` for 16-bit data, then the records of `hdu`.
pub open spec fn written_entries(hdu: HeaderModel, data: Seq<u16>) -> Seq<Entry> {
    let e0 = set_entry(Seq::empty(), "SIMPLE"@, seq!['T']);
    let e1 = set_entry(e0, "BITPIX"@, dec_repr(written_bitpix(data) as int));
    let e2 = set_entry(e1, "NAXIS"@, dec_repr((hdu.dims.len() as i64) as int));
    let e3 = naxis_records(e2, hdu.dims, hdu.dims.len() as int);
    let e4 = set_entry(e3, "EXTEND"@, seq!['T']);
    let e5 = if written_bzero(data) != 0 {
        set_entry(e4, "BZERO"@, dec_repr(written_bzero(data) as int))
    } else {
        e4
    };
    e5 + hdu.entries
}

fn max_sample(data: &[u16]) -> (m: u16)
    ensures
        m == seq_max(data@),
{
    let mut m: u16 = 0;
    let mut i: usize = 0;
    while i < data.len()
        invariant
            i <= data@.len(),
            m == seq_max(data@.take(i as int)),
        decreases data@.len() - i,
    {
        proof {
            assert(data@.take(i + 1).drop_last() =~= data@.take(i as int));
        }
        if data[i] > m {
            m = data[i];
        }
        i = i + 1;
    }
    proof {
        assert(data@.take(data@.len() as int) =~= data@);
    }
    m
}

pub struct FitsTableCol {
    pub name: &'static str,
    pub type_: &'static str,
    pub unit: &'static str,
}

/// Writes FITS headers and data into a byte buffer.
pub struct FitsWriter {}

impl FitsWriter {
    pub fn new() -> (res: Self) {
        Self {}
    }

    /// Appends the header bytes (see `header_bytes`).
    pub fn write_header(&self, out: &mut Vec<u8>, hdu: &Header)
        ensures
            final(out)@ == old(out)@ + header_bytes(hdu@.entries),
    {
        let mut i: usize = 0;
        while i < hdu.values.len()
            invariant
                i <= hdu.values@.len(),
                out@ == old(out)@ + records_bytes(entries_of(hdu.values@).take(i as int)),
            decreases hdu.values@.len() - i,
        {
            let line = record_line_string(&hdu.values[i]);
            push_str_bytes(out, line.as_str());
            i = i + 1;
            proof {
                let es = entries_of(hdu.values@);
                assert(es.take(i as int).drop_last() =~= es.take(i - 1));
                assert(es.take(i as int).last() == hdu.values@[i - 1].entry());
            }
        }
        proof {
            let es = entries_of(hdu.values@);
            assert(es.take(es.len() as int) =~= es);
        }
        out.push(69u8);
        out.push(78u8);
        out.push(68u8);
        push_spaces(out, 77);
        let lines_written = hdu.values.len() % 36 + 1;
        let lines_to_complete = 36 - lines_written % 36;
        proof {
            assert((hdu.values@.len() + 1) % 36 == lines_written % 36);
        }
        push_spaces(out, 80 * lines_to_complete);
        proof {
            assert(out@ =~= old(out)@ + header_bytes(hdu@.entries));
        }
    }

    /// Appends an image header (see `written_entries`) and the samples: 8-bit
    /// where no sample passes 255, else 16-bit with a zero point of 32768.
    pub fn write_header_and_data_u16(&self, out: &mut Vec<u8>, hdu: &Header, data: &[u16])
        requires
            data@.len() > 0,
        ensures
            final(out)@ == old(out)@ + header_bytes(written_entries(hdu@, data@)) + samples_bytes(
                written_bitpix(data@),
                written_bzero(data@),
                data@,
            ),
    {
        let mut full_hdr = Header::new();
        let max_value = max_sample(data);
        let bzero: u16 = if max_value > 255 {
            full_hdr.bitpix = 16;
            32768
        } else {
            full_hdr.bitpix = 8;
            0
        };
        full_hdr.set_bool("SIMPLE", true);
        let bitpix = full_hdr.bitpix;
        full_hdr.set_i64("BITPIX", bitpix as i64);
        full_hdr.set_i64("NAXIS", hdu.dims.len() as i64);
        let mut idx: usize = 0;
        while idx < hdu.dims.len()
            invariant
                idx <= hdu.dims@.len(),
                full_hdr.bitpix == bitpix,
                full_hdr@.entries == naxis_records(
                    set_entry(
                        set_entry(
                            set_entry(Seq::empty(), "SIMPLE"@, seq!['T']),
                            "BITPIX"@,
                            dec_repr(bitpix as int),
                        ),
                        "NAXIS"@,
                        dec_repr((hdu.dims@.len() as i64) as int),
                    ),
                    hdu.dims@,
                    idx as int,
                ),
            decreases hdu.dims@.len() - idx,
        {
            let key_chars = naxis_key_chars(idx + 1);
            let name = string_from_chars(key_chars.as_slice());
            full_hdr.set_i64(name.as_str(), hdu.dims[idx] as i64);
            idx = idx + 1;
        }
        full_hdr.set_bool("EXTEND", true);
        if bzero != 0 {
            full_hdr.set_i64("BZERO", bzero as i64);
        }
        let mut i: usize = 0;
        let ghost prefix = full_hdr@.entries;
        while i < hdu.values.len()
            invariant
                i <= hdu.values@.len(),
                full_hdr.bitpix == bitpix,
                full_hdr@.entries == prefix + entries_of(hdu.values@).take(i as int),
            decreases hdu.values@.len() - i,
        {
            let v = &hdu.values[i];
            let comment = match &v.comment {
                Some(c) => Some(c.clone()),
                None => None,
            };
            let ghost before = full_hdr@.entries;
            full_hdr.values.push(Value { name: v.name.clone(), value: v.value.clone(), comment });
            proof {
                assert(entries_of(full_hdr.values@) =~= before.push(v.entry()));
                assert(entries_of(hdu.values@).take(i + 1) =~= entries_of(hdu.values@).take(
                    i as int,
                ).push(v.entry()));
                assert(full_hdr@.entries =~= prefix + entries_of(hdu.values@).take(i + 1));
            }
            i = i + 1;
        }
        proof {
            assert(entries_of(hdu.values@).take(hdu.values@.len() as int) =~= entries_of(
                hdu.values@,
            ));
            assert(full_hdr@.entries =~= written_entries(hdu@, data@));
        }
        self.write_header(out, &full_hdr);
        let r = self.write_data(full_hdr.bitpix, bzero, out, data);
    }

    /// Appends the bytes of samples.
    fn write_data(&self, bitpix: i8, bzero: u16, out: &mut Vec<u8>, data: &[u16]) -> (r: Result<(), FitsError>)
        ensures
            bitpix != 8 && bitpix != 16 ==> r == Err::<(), FitsError>(FitsError::Unsupported) && final(out)@ == old(out)@,
            bitpix == 8 || bitpix == 16 ==> r is Ok && final(out)@ == old(out)@ + samples_bytes(bitpix, bzero, data@),
    {
        if bitpix != 8 && bitpix != 16 {
            return Err(FitsError::Unsupported);
        }
        let mut i: usize = 0;
        while i < data.len()
            invariant
                bitpix == 8 || bitpix == 16,
                i <= data@.len(),
                out@ == old(out)@ + samples_bytes(bitpix, bzero, data@.take(i as int)),
            decreases data@.len() - i,
        {
            push_sample(bitpix, bzero, data[i], out);
            proof {
                assert(data@.take(i + 1).drop_last() =~= data@.take(i as int));
            }
            i = i + 1;
        }
        proof {
            assert(data@.take(data@.len() as int) =~= data@);
        }
        Ok(())
    }
}

} // verus!
