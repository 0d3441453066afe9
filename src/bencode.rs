use vstd::prelude::*;
use vstd::utf8::valid_utf8;

use crate::text::utf8_text;

verus! {

broadcast use vstd::seq::group_seq_axioms, vstd::std_specs::vec::group_vec_axioms;

/// A bencoded value as the program holds it.
#[derive(Debug, PartialEq, Eq)]
pub enum BencodeValue {
    Integer(i64),
    Bytes(Vec<u8>),
    List(Vec<BencodeValue>),
    /// Entries in the order they were decoded; keys are unique texts.
    Dict(Vec<(Vec<u8>, BencodeValue)>),
}

/// The mathematical model of a bencoded value.
pub enum Bencode {
    Int(int),
    Str(Seq<u8>),
    List(Seq<Bencode>),
    Dict(Seq<(Seq<u8>, Bencode)>),
}

/// Why decoding failed.
#[derive(Debug, Clone, Copy, PartialEq, Eq, Structural)]
pub enum DecodeError {
    /// The input is not a well-formed bencoded value, or a dictionary key is not UTF-8 text.
    Malformed,
    /// A dictionary key decoded to something other than a byte string.
    KeyNotString,
}

pub open spec fn value_model(v: BencodeValue) -> Bencode
    decreases v,
{
    match v {
        BencodeValue::Integer(n) => Bencode::Int(n as int),
        BencodeValue::Bytes(b) => Bencode::Str(b@),
        BencodeValue::List(items) => Bencode::List(items_model(items@)),
        BencodeValue::Dict(entries) => Bencode::Dict(entries_model(entries@)),
    }
}

pub open spec fn items_model(s: Seq<BencodeValue>) -> Seq<Bencode>
    decreases s,
{
    if s.len() == 0 {
        Seq::empty()
    } else {
        items_model(s.drop_last()).push(value_model(s.last()))
    }
}

pub open spec fn entries_model(s: Seq<(Vec<u8>, BencodeValue)>) -> Seq<(Seq<u8>, Bencode)>
    decreases s,
{
    if s.len() == 0 {
        Seq::empty()
    } else {
        entries_model(s.drop_last()).push((s.last().0@, value_model(s.last().1)))
    }
}

impl View for BencodeValue {
    type V = Bencode;

    open spec fn view(&self) -> Bencode {
        value_model(*self)
    }
}


pub open spec fn is_digit(b: u8) -> bool {
    48 <= b <= 57
}

pub open spec fn all_digits(d: Seq<u8>) -> bool {
    forall|i: int| 0 <= i < d.len() ==> is_digit(#[trigger] d[i])
}

/// The number written by a run of decimal digits.
pub open spec fn digits_value(d: Seq<u8>) -> int
    decreases d.len(),
{
    if d.len() == 0 {
        0
    } else {
        digits_value(d.drop_last()) * 10 + (d.last() - 48)
    }
}

/// The shortest decimal text of a natural number.
pub open spec fn nat_text(n: nat) -> Seq<u8>
    decreases n,
{
    if n < 10 {
        seq![(n + 48) as u8]
    } else {
        nat_text(n / 10).push((n % 10 + 48) as u8)
    }
}

/// Decimal text of an integer, with a leading `-` when negative.
pub open spec fn int_text(n: int) -> Seq<u8> {
    if n < 0 {
        seq![45u8] + nat_text((-n) as nat)
    } else {
        nat_text(n as nat)
    }
}

/// The encoding of a byte string: its length, a colon, its bytes.
pub open spec fn enc_str(b: Seq<u8>) -> Seq<u8> {
    nat_text(b.len()) + seq![58u8] + b
}

/// The canonical encoding of a value.
pub open spec fn enc(v: Bencode) -> Seq<u8>
    decreases v,
{
    match v {
        Bencode::Int(n) => seq![105u8] + int_text(n) + seq![101u8],
        Bencode::Str(b) => enc_str(b),
        Bencode::List(items) => seq![108u8] + enc_items(items) + seq![101u8],
        Bencode::Dict(entries) => seq![100u8] + enc_entries(entries) + seq![101u8],
    }
}

pub open spec fn enc_items(s: Seq<Bencode>) -> Seq<u8>
    decreases s,
{
    if s.len() == 0 {
        Seq::empty()
    } else {
        enc_items(s.drop_last()) + enc(s.last())
    }
}

pub open spec fn enc_entries(s: Seq<(Seq<u8>, Bencode)>) -> Seq<u8>
    decreases s,
{
    if s.len() == 0 {
        Seq::empty()
    } else {
        enc_entries(s.drop_last()) + enc_str(s.last().0) + enc(s.last().1)
    }
}

pub proof fn lemma_items_model_push(s: Seq<BencodeValue>, x: BencodeValue)
    ensures
        items_model(s.push(x)) == items_model(s).push(value_model(x)),
{
    assert(s.push(x).drop_last() =~= s);
}

proof fn lemma_entries_model_push(s: Seq<(Vec<u8>, BencodeValue)>, x: (Vec<u8>, BencodeValue))
    ensures
        entries_model(s.push(x)) == entries_model(s).push((x.0@, value_model(x.1))),
{
    assert(s.push(x).drop_last() =~= s);
}

pub proof fn lemma_items_model_index(s: Seq<BencodeValue>)
    ensures
        items_model(s).len() == s.len(),
        forall|i: int| 0 <= i < s.len() ==> items_model(s)[i] == value_model(#[trigger] s[i]),
    decreases s.len(),
{
    if s.len() > 0 {
        let t = s.drop_last();
        lemma_items_model_index(t);
        assert forall|i: int| 0 <= i < s.len() implies items_model(s)[i] == value_model(#[trigger] s[i]) by {
            if i < t.len() {
                assert(s[i] == t[i]);
            }
        }
    }
}

pub proof fn lemma_entries_model_index(s: Seq<(Vec<u8>, BencodeValue)>)
    ensures
        entries_model(s).len() == s.len(),
        forall|i: int|
            0 <= i < s.len() ==> entries_model(s)[i] == (#[trigger] s[i].0@, value_model(s[i].1)),
    decreases s.len(),
{
    if s.len() > 0 {
        let t = s.drop_last();
        lemma_entries_model_index(t);
        assert forall|i: int| 0 <= i < s.len() implies entries_model(s)[i] == (
        #[trigger] s[i].0@, value_model(s[i].1)) by {
            if i < t.len() {
                assert(s[i] == t[i]);
            }
        }
    }
}

/// Appends the decimal text of `n`.
pub(crate) fn write_nat(out: &mut Vec<u8>, n: u64)
    ensures
        final(out)@ == old(out)@ + nat_text(n as nat),
    decreases n,
{
    if n >= 10 {
        write_nat(out, n / 10);
    }
    out.push((n % 10) as u8 + 48);
    proof {
        if n < 10 {
            assert(final(out)@ =~= old(out)@ + nat_text(n as nat));
        } else {
            assert(final(out)@ =~= old(out)@ + nat_text(n as nat));
        }
    }
}

/// Appends the encoding of `v`.
fn write_value(out: &mut Vec<u8>, v: &BencodeValue)
    ensures
        final(out)@ == old(out)@ + enc(v@),
    decreases v,
{
    match v {
        BencodeValue::Integer(n) => {
            out.push(105);
            if *n < 0 {
                out.push(45);
                let m: u64 = (-(*n as i128)) as u64;
                write_nat(out, m);
            } else {
                write_nat(out, *n as u64);
            }
            out.push(101);
            assert(final(out)@ =~= old(out)@ + enc(v@));
        },
        BencodeValue::Bytes(b) => {
            write_nat(out, b.len() as u64);
            out.push(58);
            let mut i: usize = 0;
            let ghost start = out@;
            while i < b.len()
                invariant
                    i <= b.len(),
                    out@ == start + b@.take(i as int),
                decreases b.len() - i,
            {
                out.push(b[i]);
                i = i + 1;
                assert(out@ =~= start + b@.take(i as int));
            }
            assert(b@.take(b.len() as int) =~= b@);
            assert(final(out)@ =~= old(out)@ + enc(v@));
        },
        BencodeValue::List(items) => {
            out.push(108);
            let ghost start = out@;
            proof {
                lemma_items_model_index(items@);
            }
            let mut i: usize = 0;
            while i < items.len()
                invariant
                    i <= items.len(),
                    *v == BencodeValue::List(*items),
                    items_model(items@).len() == items.len(),
                    forall|j: int| 0 <= j < items.len() ==> items_model(items@)[j] == value_model(#[trigger] items@[j]),
                    out@ == start + enc_items(items_model(items@).take(i as int)),
                decreases items.len() - i,
            {
                proof {
                    assert(decreases_to!(*items => items[i as int]));
                    assert(*items == v->List_0);
                    assert(decreases_to!(*v => v->List_0));
                    assert(decreases_to!(*v => items[i as int]));
                }
                write_value(out, &items[i]);
                let ghost m = items_model(items@);
                assert(m.take(i + 1).drop_last() =~= m.take(i as int));
                i = i + 1;
                assert(out@ =~= start + enc_items(m.take(i as int)));
            }
            assert(items_model(items@).take(items.len() as int) =~= items_model(items@));
            out.push(101);
            assert(final(out)@ =~= old(out)@ + enc(v@));
        },
        BencodeValue::Dict(entries) => {
            out.push(100);
            let ghost start = out@;
            proof {
                lemma_entries_model_index(entries@);
            }
            let mut i: usize = 0;
            while i < entries.len()
                invariant
                    i <= entries.len(),
                    *v == BencodeValue::Dict(*entries),
                    entries_model(entries@).len() == entries.len(),
                    forall|j: int|
                        0 <= j < entries.len() ==> entries_model(entries@)[j] == (
                        #[trigger] entries@[j].0@, value_model(entries@[j].1)),
                    out@ == start + enc_entries(entries_model(entries@).take(i as int)),
                decreases entries.len() - i,
            {
                let entry = &entries[i];
                let ghost before = out@;
                write_nat(out, entry.0.len() as u64);
                out.push(58);
                let mut k: usize = 0;
                let ghost mid = out@;
                while k < entry.0.len()
                    invariant
                        k <= entry.0.len(),
                        out@ == mid + entry.0@.take(k as int),
                    decreases entry.0.len() - k,
                {
                    out.push(entry.0[k]);
                    k = k + 1;
                    assert(out@ =~= mid + entry.0@.take(k as int));
                }
                assert(entry.0@.take(entry.0.len() as int) =~= entry.0@);
                assert(out@ =~= before + enc_str(entry.0@));
                proof {
                    assert(decreases_to!(*entries => entries[i as int]));
                    assert(*entries == v->Dict_0);
                    assert(decreases_to!(*v => v->Dict_0));
                    assert(decreases_to!(entries[i as int] => entry.1));
                    assert(decreases_to!(*v => entry.1));
                }
                write_value(out, &entry.1);
                let ghost m = entries_model(entries@);
                assert(m.take(i + 1).drop_last() =~= m.take(i as int));
                i = i + 1;
                assert(out@ =~= start + enc_entries(m.take(i as int)));
            }
            assert(entries_model(entries@).take(entries.len() as int) =~= entries_model(entries@));
            out.push(101);
            assert(final(out)@ =~= old(out)@ + enc(v@));
        },
    }
}

/// The canonical encoding of `v`.
pub fn encode(v: &BencodeValue) -> (r: Vec<u8>)
    ensures
        r@ == enc(v@),
{
    let mut out: Vec<u8> = Vec::new();
    write_value(&mut out, v);
    assert(out@ =~= enc(v@));
    out
}


/// Position of the first byte `c` at or after `p`.
pub open spec fn first_at(s: Seq<u8>, p: int, c: u8) -> Option<int>
    decreases s.len() - p,
{
    if p < 0 || p >= s.len() {
        None
    } else if s[p] == c {
        Some(p)
    } else {
        first_at(s, p + 1, c)
    }
}

/// The integer written by `t`: an optional sign, then one or more digits.
pub open spec fn signed_value(t: Seq<u8>) -> Option<int> {
    if t.len() > 0 && (t[0] == 45 || t[0] == 43) {
        let d = t.skip(1);
        if d.len() > 0 && all_digits(d) {
            Some(
                if t[0] == 45 {
                    -digits_value(d)
                } else {
                    digits_value(d)
                },
            )
        } else {
            None
        }
    } else if t.len() > 0 && all_digits(t) {
        Some(digits_value(t))
    } else {
        None
    }
}

/// The integer written by `t` where it fits a signed 64-bit integer.
pub open spec fn parse_i64(t: Seq<u8>) -> Option<int> {
    match signed_value(t) {
        Some(n) => if i64::MIN <= n <= i64::MAX {
            Some(n)
        } else {
            None
        },
        None => None,
    }
}

/// Index of the first entry with key `k`, searching from `i`; -1 where there is none.
pub open spec fn key_index(acc: Seq<(Seq<u8>, Bencode)>, k: Seq<u8>, i: int) -> int
    decreases acc.len() - i,
{
    if i < 0 || i >= acc.len() {
        -1
    } else if acc[i].0 == k {
        i
    } else {
        key_index(acc, k, i + 1)
    }
}

/// Dictionary insertion: a present key gets the new value in place, a new key goes last.
pub open spec fn put(acc: Seq<(Seq<u8>, Bencode)>, k: Seq<u8>, v: Bencode) -> Seq<(Seq<u8>, Bencode)> {
    let j = key_index(acc, k, 0);
    if j >= 0 {
        acc.update(j, (k, v))
    } else {
        acc.push((k, v))
    }
}

/// Decodes one value starting at `p`: the value and the position just past it.
pub open spec fn dec(s: Seq<u8>, p: int) -> Result<(Bencode, int), DecodeError>
    decreases s.len() - p, 0int,
{
    if p < 0 || p >= s.len() {
        Err(DecodeError::Malformed)
    } else if s[p] == 105 {
        match first_at(s, p + 1, 101) {
            Some(q) => match parse_i64(s.subrange(p + 1, q)) {
                Some(n) => Ok((Bencode::Int(n), q + 1)),
                None => Err(DecodeError::Malformed),
            },
            None => Err(DecodeError::Malformed),
        }
    } else if s[p] == 108 {
        dec_list(s, p + 1, Seq::empty())
    } else if s[p] == 100 {
        dec_dict(s, p + 1, Seq::empty())
    } else if is_digit(s[p]) {
        match first_at(s, p, 58) {
            Some(q) => {
                let d = s.subrange(p, q);
                let n = digits_value(d);
                if all_digits(d) && q + 1 + n <= s.len() {
                    Ok((Bencode::Str(s.subrange(q + 1, q + 1 + n)), q + 1 + n))
                } else {
                    Err(DecodeError::Malformed)
                }
            },
            None => Err(DecodeError::Malformed),
        }
    } else {
        Err(DecodeError::Malformed)
    }
}

/// Decodes list items from `p` up to the closing `e`, after the items `acc`.
pub open spec fn dec_list(s: Seq<u8>, p: int, acc: Seq<Bencode>) -> Result<(Bencode, int), DecodeError>
    decreases s.len() - p, 1int,
{
    if p < 0 || p >= s.len() {
        Err(DecodeError::Malformed)
    } else if s[p] == 101 {
        Ok((Bencode::List(acc), p + 1))
    } else {
        match dec(s, p) {
            Ok((v, q)) => if p < q <= s.len() {
                dec_list(s, q, acc.push(v))
            } else {
                Err(DecodeError::Malformed)
            },
            Err(e) => Err(e),
        }
    }
}

/// Decodes dictionary entries from `p` up to the closing `e`, after the entries `acc`.
pub open spec fn dec_dict(s: Seq<u8>, p: int, acc: Seq<(Seq<u8>, Bencode)>) -> Result<(Bencode, int), DecodeError>
    decreases s.len() - p, 1int,
{
    if p < 0 || p >= s.len() {
        Err(DecodeError::Malformed)
    } else if s[p] == 101 {
        Ok((Bencode::Dict(acc), p + 1))
    } else {
        match dec(s, p) {
            Ok((k, q)) => match k {
                Bencode::Str(key) => if p < q <= s.len() && valid_utf8(key) {
                    match dec(s, q) {
                        Ok((v, r)) => if q < r <= s.len() {
                            dec_dict(s, r, put(acc, key, v))
                        } else {
                            Err(DecodeError::Malformed)
                        },
                        Err(e) => Err(e),
                    }
                } else {
                    Err(DecodeError::Malformed)
                },
                _ => Err(DecodeError::KeyNotString),
            },
            Err(e) => Err(e),
        }
    }
}


proof fn lemma_digits_monotone(d: Seq<u8>, j: int)
    requires
        all_digits(d),
        0 <= j <= d.len(),
    ensures
        0 <= digits_value(d.take(j)) <= digits_value(d),
    decreases d.len(),
{
    if j < d.len() {
        let t = d.drop_last();
        assert(all_digits(t)) by {
            assert forall|i: int| 0 <= i < t.len() implies is_digit(#[trigger] t[i]) by {
                assert(t[i] == d[i]);
            }
        }
        lemma_digits_monotone(t, j);
        assert(t.take(j) =~= d.take(j));
        lemma_digits_monotone(t, t.len() as int);
        assert(t.take(t.len() as int) =~= t);
        assert(is_digit(d[d.len() - 1]));
    } else {
        assert(d.take(j) =~= d);
        lemma_digits_nonneg(d);
    }
}

proof fn lemma_digits_nonneg(d: Seq<u8>)
    requires
        all_digits(d),
    ensures
        digits_value(d) >= 0,
    decreases d.len(),
{
    if d.len() > 0 {
        let t = d.drop_last();
        assert(all_digits(t)) by {
            assert forall|i: int| 0 <= i < t.len() implies is_digit(#[trigger] t[i]) by {
                assert(t[i] == d[i]);
            }
        }
        lemma_digits_nonneg(t);
        assert(is_digit(d[d.len() - 1]));
    }
}

/// Reads the digits of `s[a..b]` as a number no larger than `cap`.
fn read_digits(s: &[u8], a: usize, b: usize, cap: u128) -> (r: Option<u128>)
    requires
        a <= b <= s.len(),
        cap <= 0x1_0000_0000_0000_0000,
    ensures
        match r {
            Some(x) => all_digits(s@.subrange(a as int, b as int)) && x == digits_value(
                s@.subrange(a as int, b as int),
            ) && x <= cap,
            None => !all_digits(s@.subrange(a as int, b as int)) || digits_value(
                s@.subrange(a as int, b as int),
            ) > cap,
        },
{
    let ghost d = s@.subrange(a as int, b as int);
    let mut acc: u128 = 0;
    let mut i: usize = a;
    while i < b
        invariant
            a <= i <= b <= s.len(),
            d == s@.subrange(a as int, b as int),
            all_digits(s@.subrange(a as int, i as int)),
            acc == digits_value(s@.subrange(a as int, i as int)),
            acc <= cap,
            cap <= 0x1_0000_0000_0000_0000,
        decreases b - i,
    {
        let c = s[i];
        if c < 48 || c > 57 {
            assert(d[i - a] == c);
            return None;
        }
        let ghost prev = s@.subrange(a as int, i as int);
        let ghost next = s@.subrange(a as int, i + 1);
        assert(next.drop_last() =~= prev);
        acc = acc * 10 + (c - 48) as u128;
        i = i + 1;
        assert(all_digits(next)) by {
            assert forall|j: int| 0 <= j < next.len() implies is_digit(#[trigger] next[j]) by {
                if j < prev.len() {
                    assert(next[j] == prev[j]);
                }
            }
        }
        if acc > cap {
            proof {
                if all_digits(d) {
                    assert(d.take(i - a) =~= next);
                    lemma_digits_monotone(d, i - a);
                }
            }
            return None;
        }
    }
    Some(acc)
}

/// Parses `s[a..b]` as a signed 64-bit integer.
fn read_i64(s: &[u8], a: usize, b: usize) -> (r: Option<i64>)
    requires
        a <= b <= s.len(),
    ensures
        match r {
            Some(n) => parse_i64(s@.subrange(a as int, b as int)) == Some(n as int),
            None => parse_i64(s@.subrange(a as int, b as int)) is None,
        },
{
    let ghost t = s@.subrange(a as int, b as int);
    if a == b {
        return None;
    }
    let neg = s[a] == 45;
    let signed = s[a] == 45 || s[a] == 43;
    let start = if signed { a + 1 } else { a };
    if start == b {
        return None;
    }
    assert(signed ==> t.skip(1) =~= s@.subrange(start as int, b as int));
    assert(!signed ==> t =~= s@.subrange(start as int, b as int));
    match read_digits(s, start, b, 0x8000_0000_0000_0000) {
        Some(m) => {
            if neg {
                let v: i128 = -(m as i128);
                Some(v as i64)
            } else if m <= 0x7fff_ffff_ffff_ffff {
                Some(m as i64)
            } else {
                None
            }
        },
        None => None,
    }
}

/// Position of the first byte `c` at or after `p`.
fn find_byte(s: &[u8], p: usize, c: u8) -> (r: Option<usize>)
    requires
        p <= s.len(),
    ensures
        match r {
            Some(q) => first_at(s@, p as int, c) == Some(q as int) && p <= q < s.len(),
            None => first_at(s@, p as int, c) is None,
        },
{
    let mut i: usize = p;
    while i < s.len()
        invariant
            p <= i <= s.len(),
            first_at(s@, p as int, c) == first_at(s@, i as int, c),
        decreases s.len() - i,
    {
        if s[i] == c {
            return Some(i);
        }
        i = i + 1;
    }
    None
}


/// Whether two byte strings are equal.
pub fn same_bytes(a: &[u8], b: &[u8]) -> (r: bool)
    ensures
        r == (a@ == b@),
{
    if a.len() != b.len() {
        return false;
    }
    let mut i: usize = 0;
    while i < a.len()
        invariant
            i <= a.len() == b.len(),
            a@.take(i as int) == b@.take(i as int),
        decreases a.len() - i,
    {
        if a[i] != b[i] {
            assert(a@[i as int] != b@[i as int]);
            return false;
        }
        assert(a@.take(i + 1) =~= a@.take(i as int).push(a@[i as int]));
        assert(b@.take(i + 1) =~= b@.take(i as int).push(b@[i as int]));
        i = i + 1;
    }
    assert(a@.take(a.len() as int) =~= a@);
    assert(b@.take(b.len() as int) =~= b@);
    true
}

/// Inserts an entry: a present key gets the new value in place, a new key goes last.
fn dict_put(entries: &mut Vec<(Vec<u8>, BencodeValue)>, k: Vec<u8>, v: BencodeValue)
    ensures
        entries_model(final(entries)@) == put(entries_model(old(entries)@), k@, v@),
{
    proof {
        lemma_entries_model_index(entries@);
    }
    let ghost m = entries_model(entries@);
    let mut i: usize = 0;
    while i < entries.len()
        invariant
            i <= entries.len(),
            m == entries_model(entries@),
            entries@ == old(entries)@,
            m.len() == entries.len(),
            forall|j: int| 0 <= j < entries.len() ==> m[j] == (#[trigger] entries@[j].0@, value_model(entries@[j].1)),
            key_index(m, k@, 0) == key_index(m, k@, i as int),
        decreases entries.len() - i,
    {
        if same_bytes(entries[i].0.as_slice(), k.as_slice()) {
            let ghost kv = k@;
            let ghost vv = v@;
            let ghost before = entries@;
            let pair = (k, v);
            let ghost gp = pair;
            entries.set(i, pair);
            proof {
                assert(m[i as int].0 == kv);
                assert(key_index(m, kv, i as int) == i);
                lemma_entries_model_index(entries@);
                assert forall|j: int| 0 <= j < m.len() implies #[trigger] entries_model(entries@)[j] == m.update(i as int, (kv, vv))[j] by {
                    assert(entries_model(entries@)[j] == (entries@[j].0@, value_model(entries@[j].1)));
                    if j != i {
                        assert(entries@[j] == before[j]);
                        assert(m[j] == (before[j].0@, value_model(before[j].1)));
                    } else {
                        assert(entries@[j] == gp);
                        assert(gp.0@ == kv && value_model(gp.1) == vv);
                    }
                }
                assert(entries_model(entries@) =~= m.update(i as int, (kv, vv)));
                assert(key_index(m, kv, 0) == i);
                assert(put(m, kv, vv) == m.update(i as int, (kv, vv)));
            }
            return;
        }
        i = i + 1;
    }
    let ghost kv = k@;
    let ghost vv = v@;
    let ghost old_entries = entries@;
    entries.push((k, v));
    proof {
        lemma_entries_model_push(old_entries, (k, v));
    }
}

/// Decodes one value starting at `p`.
fn decode_at(s: &[u8], p: usize) -> (r: Result<(BencodeValue, usize), DecodeError>)
    requires
        p <= s.len(),
    ensures
        match r {
            Ok((v, q)) => dec(s@, p as int) == Ok::<(Bencode, int), DecodeError>((v@, q as int))
                && p < q <= s.len(),
            Err(e) => dec(s@, p as int) == Err::<(Bencode, int), DecodeError>(e),
        },
    decreases s.len() - p,
{
    if p >= s.len() {
        return Err(DecodeError::Malformed);
    }
    let c = s[p];
    if c == 105 {
        match find_byte(s, p + 1, 101) {
            Some(q) => match read_i64(s, p + 1, q) {
                Some(n) => Ok((BencodeValue::Integer(n), q + 1)),
                None => Err(DecodeError::Malformed),
            },
            None => Err(DecodeError::Malformed),
        }
    } else if c == 108 {
        let mut items: Vec<BencodeValue> = Vec::new();
        let mut q: usize = p + 1;
        while q < s.len() && s[q] != 101
            invariant
                p < q <= s.len(),
                dec(s@, p as int) == dec_list(s@, q as int, items_model(items@)),
            decreases s.len() - q,
        {
            match decode_at(s, q) {
                Ok((v, q2)) => {
                    let ghost old_items = items@;
                    items.push(v);
                    proof {
                        lemma_items_model_push(old_items, v);
                    }
                    q = q2;
                },
                Err(e) => {
                    return Err(e);
                },
            }
        }
        if q >= s.len() {
            return Err(DecodeError::Malformed);
        }
        Ok((BencodeValue::List(items), q + 1))
    } else if c == 100 {
        let mut entries: Vec<(Vec<u8>, BencodeValue)> = Vec::new();
        let mut q: usize = p + 1;
        while q < s.len() && s[q] != 101
            invariant
                p < q <= s.len(),
                dec(s@, p as int) == dec_dict(s@, q as int, entries_model(entries@)),
            decreases s.len() - q,
        {
            match decode_at(s, q) {
                Ok((key, q2)) => match key {
                    BencodeValue::Bytes(kb) => {
                        if utf8_text(kb.as_slice()).is_none() {
                            return Err(DecodeError::Malformed);
                        }
                        match decode_at(s, q2) {
                            Ok((v, q3)) => {
                                dict_put(&mut entries, kb, v);
                                q = q3;
                            },
                            Err(e) => {
                                return Err(e);
                            },
                        }
                    },
                    _ => {
                        return Err(DecodeError::KeyNotString);
                    },
                },
                Err(e) => {
                    return Err(e);
                },
            }
        }
        if q >= s.len() {
            return Err(DecodeError::Malformed);
        }
        Ok((BencodeValue::Dict(entries), q + 1))
    } else if 48 <= c && c <= 57 {
        match find_byte(s, p, 58) {
            Some(q) => {
                let limit = (s.len() - q - 1) as u128;
                match read_digits(s, p, q, limit) {
                    Some(n) => {
                        let n = n as usize;
                        let start = q + 1;
                        let mut bytes: Vec<u8> = Vec::new();
                        let mut i: usize = start;
                        while i < start + n
                            invariant
                                start <= i <= start + n <= s.len(),
                                bytes@ == s@.subrange(start as int, i as int),
                            decreases start + n - i,
                        {
                            bytes.push(s[i]);
                            i = i + 1;
                            assert(bytes@ =~= s@.subrange(start as int, i as int));
                        }
                        Ok((BencodeValue::Bytes(bytes), start + n))
                    },
                    None => Err(DecodeError::Malformed),
                }
            },
            None => Err(DecodeError::Malformed),
        }
    } else {
        Err(DecodeError::Malformed)
    }
}

/// Decodes the one value at the start of `input`; also gives how many bytes it took.
pub fn decode_bencoded_value(input: &[u8]) -> (r: Result<(BencodeValue, usize), DecodeError>)
    ensures
        match r {
            Ok((v, n)) => dec(input@, 0) == Ok::<(Bencode, int), DecodeError>((v@, n as int)),
            Err(e) => dec(input@, 0) == Err::<(Bencode, int), DecodeError>(e),
        },
{
    decode_at(input, 0)
}


/// No two entries share a key.
pub open spec fn unique_keys(e: Seq<(Seq<u8>, Bencode)>) -> bool {
    forall|i: int, j: int| 0 <= i < j < e.len() ==> #[trigger] e[i].0 != #[trigger] e[j].0
}

/// Integers fit 64 bits and dictionary keys are unique texts, at every depth.
pub open spec fn wf(v: Bencode) -> bool
    decreases v,
{
    match v {
        Bencode::Int(n) => i64::MIN <= n <= i64::MAX,
        Bencode::Str(_) => true,
        Bencode::List(items) => wf_items(items),
        Bencode::Dict(entries) => unique_keys(entries) && wf_entries(entries),
    }
}

pub open spec fn wf_items(s: Seq<Bencode>) -> bool
    decreases s,
{
    if s.len() == 0 {
        true
    } else {
        wf(s[0]) && wf_items(s.skip(1))
    }
}

pub open spec fn wf_entries(s: Seq<(Seq<u8>, Bencode)>) -> bool
    decreases s,
{
    if s.len() == 0 {
        true
    } else {
        valid_utf8(s[0].0) && wf(s[0].1) && wf_entries(s.skip(1))
    }
}

proof fn lemma_nat_text(n: nat)
    ensures
        nat_text(n).len() > 0,
        all_digits(nat_text(n)),
        digits_value(nat_text(n)) == n,
    decreases n,
{
    if n >= 10 {
        lemma_nat_text(n / 10);
        let t = nat_text(n);
        assert(t.drop_last() =~= nat_text(n / 10));
        assert(t.last() == (n % 10 + 48) as u8);
        assert(t.last() - 48 == n % 10);
        assert((n / 10) * 10 + n % 10 == n);
        assert(digits_value(t) == digits_value(t.drop_last()) * 10 + (t.last() - 48));
        assert forall|i: int| 0 <= i < t.len() implies is_digit(#[trigger] t[i]) by {
            if i < t.len() - 1 {
                assert(t[i] == nat_text(n / 10)[i]);
            }
        }
    } else {
        assert(nat_text(n).drop_last() =~= Seq::<u8>::empty());
        assert(nat_text(n).last() - 48 == n);
        assert(digits_value(Seq::<u8>::empty()) == 0);
        assert(digits_value(nat_text(n)) == digits_value(nat_text(n).drop_last()) * 10 + (nat_text(n).last() - 48));
    }
}

proof fn lemma_int_text(n: int)
    requires
        i64::MIN <= n <= i64::MAX,
    ensures
        parse_i64(int_text(n)) == Some(n),
        int_text(n).len() > 0,
        forall|j: int| 0 <= j < int_text(n).len() ==> #[trigger] int_text(n)[j] != 101u8,
{
    let t = int_text(n);
    if n < 0 {
        lemma_nat_text((-n) as nat);
        assert(t.skip(1) =~= nat_text((-n) as nat));
        assert forall|j: int| 0 <= j < t.len() implies #[trigger] t[j] != 101u8 by {
            if j > 0 {
                assert(t[j] == nat_text((-n) as nat)[j - 1]);
                assert(is_digit(nat_text((-n) as nat)[j - 1]));
            }
        }
    } else {
        lemma_nat_text(n as nat);
        assert(is_digit(t[0]));
        assert forall|j: int| 0 <= j < t.len() implies #[trigger] t[j] != 101u8 by {
            assert(is_digit(t[j]));
        }
    }
}

proof fn lemma_first_at(s: Seq<u8>, a: int, b: int, c: u8)
    requires
        0 <= a <= b < s.len(),
        s[b] == c,
        forall|j: int| a <= j < b ==> #[trigger] s[j] != c,
    ensures
        first_at(s, a, c) == Some(b),
    decreases b - a,
{
    if a < b {
        lemma_first_at(s, a + 1, b, c);
    }
}

proof fn lemma_enc_items_front(s: Seq<Bencode>)
    requires
        s.len() > 0,
    ensures
        enc_items(s) == enc(s[0]) + enc_items(s.skip(1)),
    decreases s.len(),
{
    if s.len() == 1 {
        assert(s.drop_last() =~= Seq::<Bencode>::empty());
        assert(s.skip(1) =~= Seq::<Bencode>::empty());
        assert(enc_items(s) =~= enc(s[0]) + enc_items(s.skip(1)));
    } else {
        let t = s.drop_last();
        lemma_enc_items_front(t);
        assert(t.skip(1) =~= s.skip(1).drop_last());
        assert(s.skip(1).last() == s.last());
        assert(enc_items(s) =~= enc(s[0]) + enc_items(s.skip(1)));
    }
}

proof fn lemma_enc_entries_front(s: Seq<(Seq<u8>, Bencode)>)
    requires
        s.len() > 0,
    ensures
        enc_entries(s) == enc_str(s[0].0) + enc(s[0].1) + enc_entries(s.skip(1)),
    decreases s.len(),
{
    if s.len() == 1 {
        assert(s.drop_last() =~= Seq::<(Seq<u8>, Bencode)>::empty());
        assert(s.skip(1) =~= Seq::<(Seq<u8>, Bencode)>::empty());
        assert(enc_entries(s) =~= enc_str(s[0].0) + enc(s[0].1) + enc_entries(s.skip(1)));
    } else {
        let t = s.drop_last();
        lemma_enc_entries_front(t);
        assert(t.skip(1) =~= s.skip(1).drop_last());
        assert(s.skip(1).last() == s.last());
        assert(enc_entries(s) =~= enc_str(s[0].0) + enc(s[0].1) + enc_entries(s.skip(1)));
    }
}

proof fn lemma_enc_first(v: Bencode)
    ensures
        enc(v).len() > 0,
        enc(v)[0] != 101u8,
{
    match v {
        Bencode::Str(b) => {
            lemma_nat_text(b.len());
            assert(enc(v)[0] == nat_text(b.len())[0]);
            assert(is_digit(nat_text(b.len())[0]));
        },
        _ => {},
    }
}

proof fn lemma_dec_str(s: Seq<u8>, p: int, b: Seq<u8>)
    requires
        0 <= p,
        p + enc_str(b).len() <= s.len(),
        s.subrange(p, p + enc_str(b).len()) == enc_str(b),
    ensures
        dec(s, p) == Ok::<(Bencode, int), DecodeError>((Bencode::Str(b), p + enc_str(b).len())),
{
    let e = enc_str(b);
    let t = nat_text(b.len());
    lemma_nat_text(b.len());
    let q = p + t.len();
    assert(s[p] == e[0]);
    assert(e[0] == t[0]);
    assert(is_digit(t[0]));
    assert(s[q] == e[t.len() as int]);
    assert forall|j: int| p <= j < q implies #[trigger] s[j] != 58u8 by {
        assert(s[j] == e[j - p]);
        assert(e[j - p] == t[j - p]);
        assert(is_digit(t[j - p]));
    }
    lemma_first_at(s, p, q, 58u8);
    assert(s.subrange(p, q) =~= t);
    assert(s.subrange(q + 1, q + 1 + b.len()) =~= b) by {
        assert forall|j: int| 0 <= j < b.len() implies s.subrange(q + 1, q + 1 + b.len())[j] == b[j] by {
            assert(s[q + 1 + j] == e[t.len() as int + 1 + j]);
        }
    }
}

proof fn lemma_dec_enc(s: Seq<u8>, p: int, v: Bencode)
    requires
        wf(v),
        0 <= p,
        p + enc(v).len() <= s.len(),
        s.subrange(p, p + enc(v).len()) == enc(v),
    ensures
        dec(s, p) == Ok::<(Bencode, int), DecodeError>((v, p + enc(v).len())),
    decreases v, 0int,
{
    let e = enc(v);
    assert(s[p] == e[0]);
    match v {
        Bencode::Int(n) => {
            let t = int_text(n);
            lemma_int_text(n);
            let q = p + 1 + t.len();
            assert(s[q] == e[1 + t.len() as int]);
            assert forall|j: int| p + 1 <= j < q implies #[trigger] s[j] != 101u8 by {
                assert(s[j] == e[j - p]);
                assert(e[j - p] == t[j - p - 1]);
            }
            lemma_first_at(s, p + 1, q, 101u8);
            assert(s.subrange(p + 1, q) =~= t) by {
                assert forall|j: int| 0 <= j < t.len() implies s.subrange(p + 1, q)[j] == t[j] by {
                    assert(s[p + 1 + j] == e[1 + j]);
                }
            }
        },
        Bencode::Str(b) => {
            lemma_dec_str(s, p, b);
        },
        Bencode::List(items) => {
            let body = enc_items(items);
            assert(s.subrange(p + 1, p + 1 + body.len() + 1) =~= body + seq![101u8]) by {
                assert forall|j: int| 0 <= j < body.len() + 1 implies s.subrange(p + 1, p + 1 + body.len() + 1)[j] == (body + seq![101u8])[j] by {
                    assert(s[p + 1 + j] == e[1 + j]);
                }
            }
            lemma_dec_list(s, p + 1, Seq::empty(), items);
            assert(Seq::<Bencode>::empty() + items =~= items);
        },
        Bencode::Dict(entries) => {
            let body = enc_entries(entries);
            assert(s.subrange(p + 1, p + 1 + body.len() + 1) =~= body + seq![101u8]) by {
                assert forall|j: int| 0 <= j < body.len() + 1 implies s.subrange(p + 1, p + 1 + body.len() + 1)[j] == (body + seq![101u8])[j] by {
                    assert(s[p + 1 + j] == e[1 + j]);
                }
            }
            assert(Seq::<(Seq<u8>, Bencode)>::empty() + entries =~= entries);
            lemma_dec_dict(s, p + 1, Seq::empty(), entries);
        },
    }
}

proof fn lemma_dec_list(s: Seq<u8>, p: int, acc: Seq<Bencode>, items: Seq<Bencode>)
    requires
        wf_items(items),
        0 <= p,
        p + enc_items(items).len() + 1 <= s.len(),
        s.subrange(p, p + enc_items(items).len() + 1) == enc_items(items) + seq![101u8],
    ensures
        dec_list(s, p, acc) == Ok::<(Bencode, int), DecodeError>(
            (Bencode::List(acc + items), p + enc_items(items).len() + 1),
        ),
    decreases items, 1int,
{
    let body = enc_items(items);
    let whole = body + seq![101u8];
    if items.len() == 0 {
        assert(s[p] == whole[0]);
        assert(acc + items =~= acc);
    } else {
        lemma_enc_items_front(items);
        let x = items[0];
        let ex = enc(x);
        let rest = items.skip(1);
        lemma_enc_first(x);
        assert(s[p] == whole[0]);
        assert(whole[0] == ex[0]);
        assert(s.subrange(p, p + ex.len()) =~= ex) by {
            assert forall|j: int| 0 <= j < ex.len() implies s.subrange(p, p + ex.len())[j] == ex[j] by {
                assert(s[p + j] == whole[j]);
            }
        }
        lemma_dec_enc(s, p, x);
        let q = p + ex.len();
        let rb = enc_items(rest);
        assert(s.subrange(q, q + rb.len() + 1) =~= rb + seq![101u8]) by {
            assert forall|j: int| 0 <= j < rb.len() + 1 implies s.subrange(q, q + rb.len() + 1)[j] == (rb + seq![101u8])[j] by {
                assert(s[q + j] == whole[ex.len() as int + j]);
            }
        }
        lemma_dec_list(s, q, acc.push(x), rest);
        assert(acc.push(x) + rest =~= acc + items);
    }
}

proof fn lemma_key_absent(acc: Seq<(Seq<u8>, Bencode)>, k: Seq<u8>, i: int)
    requires
        0 <= i,
        forall|j: int| i <= j < acc.len() ==> #[trigger] acc[j].0 != k,
    ensures
        key_index(acc, k, i) == -1,
    decreases acc.len() - i,
{
    if i < acc.len() {
        lemma_key_absent(acc, k, i + 1);
    }
}

proof fn lemma_dec_dict(s: Seq<u8>, p: int, acc: Seq<(Seq<u8>, Bencode)>, entries: Seq<(Seq<u8>, Bencode)>)
    requires
        wf_entries(entries),
        unique_keys(acc + entries),
        0 <= p,
        p + enc_entries(entries).len() + 1 <= s.len(),
        s.subrange(p, p + enc_entries(entries).len() + 1) == enc_entries(entries) + seq![101u8],
    ensures
        dec_dict(s, p, acc) == Ok::<(Bencode, int), DecodeError>(
            (Bencode::Dict(acc + entries), p + enc_entries(entries).len() + 1),
        ),
    decreases entries, 1int,
{
    let body = enc_entries(entries);
    let whole = body + seq![101u8];
    if entries.len() == 0 {
        assert(s[p] == whole[0]);
        assert(acc + entries =~= acc);
    } else {
        lemma_enc_entries_front(entries);
        let x = entries[0];
        let ek = enc_str(x.0);
        let ev = enc(x.1);
        let rest = entries.skip(1);
        lemma_nat_text(x.0.len());
        assert(s[p] == whole[0]);
        assert(whole[0] == ek[0]);
        assert(ek[0] == nat_text(x.0.len())[0]);
        assert(is_digit(nat_text(x.0.len())[0]));
        assert(s.subrange(p, p + ek.len()) =~= ek) by {
            assert forall|j: int| 0 <= j < ek.len() implies s.subrange(p, p + ek.len())[j] == ek[j] by {
                assert(s[p + j] == whole[j]);
            }
        }
        lemma_dec_str(s, p, x.0);
        let q = p + ek.len();
        assert(s.subrange(q, q + ev.len()) =~= ev) by {
            assert forall|j: int| 0 <= j < ev.len() implies s.subrange(q, q + ev.len())[j] == ev[j] by {
                assert(s[q + j] == whole[ek.len() as int + j]);
            }
        }
        lemma_enc_first(x.1);
        lemma_dec_enc(s, q, x.1);
        let r = q + ev.len();
        let rb = enc_entries(rest);
        assert(s.subrange(r, r + rb.len() + 1) =~= rb + seq![101u8]) by {
            assert forall|j: int| 0 <= j < rb.len() + 1 implies s.subrange(r, r + rb.len() + 1)[j] == (rb + seq![101u8])[j] by {
                assert(s[r + j] == whole[ek.len() as int + ev.len() as int + j]);
            }
        }
        let all = acc + entries;
        assert forall|j: int| 0 <= j < acc.len() implies #[trigger] acc[j].0 != x.0 by {
            assert(all[j] == acc[j]);
            assert(all[acc.len() as int] == x);
        }
        lemma_key_absent(acc, x.0, 0);
        assert(acc.push(x) + rest =~= all);
        lemma_dec_dict(s, r, acc.push(x), rest);
    }
}

/// Round trip: decoding the encoding of a value whose dictionary keys are unique texts gives the
/// value back and takes exactly the bytes of its encoding, whatever follows them.
pub proof fn lemma_round_trip(v: BencodeValue, rest: Seq<u8>)
    requires
        wf(v@),
    ensures
        dec(enc(v@) + rest, 0) == Ok::<(Bencode, int), DecodeError>((v@, enc(v@).len() as int)),
{
    let s = enc(v@) + rest;
    assert(s.subrange(0, enc(v@).len() as int) =~= enc(v@));
    lemma_dec_enc(s, 0, v@);
}


/// The value stored under key `k`, if any.
pub open spec fn lookup(es: Seq<(Seq<u8>, Bencode)>, k: Seq<u8>) -> Option<Bencode> {
    let j = key_index(es, k, 0);
    if 0 <= j < es.len() {
        Some(es[j].1)
    } else {
        None
    }
}

proof fn lemma_key_index_range(es: Seq<(Seq<u8>, Bencode)>, k: Seq<u8>, i: int)
    ensures
        key_index(es, k, i) == -1 || (i <= key_index(es, k, i) < es.len() && es[key_index(es, k, i)].0 == k),
    decreases es.len() - i,
{
    if 0 <= i < es.len() && es[i].0 != k {
        lemma_key_index_range(es, k, i + 1);
    }
}

/// The value stored under key `k` in a dictionary's entries.
pub fn dict_get<'a>(entries: &'a Vec<(Vec<u8>, BencodeValue)>, k: &[u8]) -> (r: Option<&'a BencodeValue>)
    ensures
        match r {
            Some(x) => lookup(entries_model(entries@), k@) == Some(x@),
            None => lookup(entries_model(entries@), k@) is None,
        },
{
    proof {
        lemma_entries_model_index(entries@);
        lemma_key_index_range(entries_model(entries@), k@, 0);
    }
    let ghost m = entries_model(entries@);
    let mut i: usize = 0;
    while i < entries.len()
        invariant
            i <= entries.len(),
            m == entries_model(entries@),
            m.len() == entries.len(),
            forall|j: int| 0 <= j < entries.len() ==> m[j] == (#[trigger] entries@[j].0@, value_model(entries@[j].1)),
            key_index(m, k@, 0) == key_index(m, k@, i as int),
        decreases entries.len() - i,
    {
        if same_bytes(entries[i].0.as_slice(), k) {
            assert(m[i as int].0 == k@);
            return Some(&entries[i].1);
        }
        i = i + 1;
    }
    None
}

} // verus!
