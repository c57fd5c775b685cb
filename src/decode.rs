//! The decoder: each routine reads one form of the grammar from a position in
//! an immutable buffer and gives back what it read and the position after it.
use vstd::prelude::*;
use crate::grammar::{
    bytes_lt, decoded, decoded_with, differs_first_at, digits_end, digits_value, is_digit, key_accepted,
    lemma_digits_value_mono, spec_all, spec_dict, spec_entries, spec_int, spec_items, spec_list, spec_str, spec_value,
};
use crate::value::{
    view_entries, view_items, DecodeError, ErrorKind, KeyOrder, Tree, Value, COLON, DIGIT_NINE, DIGIT_ZERO,
    MAX_DEPTH, MINUS, TAG_DICT, TAG_END, TAG_INT, TAG_LIST,
};

verus! {

fn is_digit_byte(b: u8) -> (r: bool)
    ensures
        r == is_digit(b),
{
    DIGIT_ZERO <= b && b <= DIGIT_NINE
}

/// The end of the run of digits that starts at `i`.
fn scan_digits(buf: &[u8], i: usize) -> (r: usize)
    requires
        i <= buf@.len(),
    ensures
        i <= r <= buf@.len(),
        r as int == digits_end(buf@, i as int),
        forall|k: int| i <= k < r ==> is_digit(#[trigger] buf@[k]),
{
    let mut j: usize = i;
    while j < buf.len() && is_digit_byte(buf[j])
        invariant
            i <= j <= buf@.len(),
            digits_end(buf@, i as int) == digits_end(buf@, j as int),
            forall|k: int| i <= k < j ==> is_digit(#[trigger] buf@[k]),
        decreases buf@.len() - j,
    {
        j = j + 1;
    }
    j
}

/// The number that the digits `buf[a..b]` write, or `None` where it exceeds
/// `u64::MAX`.
fn read_digits(buf: &[u8], a: usize, b: usize) -> (r: Option<u64>)
    requires
        a <= b <= buf@.len(),
        forall|k: int| a <= k < b ==> is_digit(#[trigger] buf@[k]),
    ensures
        match r {
            Some(v) => v as int == digits_value(buf@, a as int, b as int),
            None => digits_value(buf@, a as int, b as int) > u64::MAX,
        },
{
    let mut acc: u64 = 0;
    let mut i: usize = a;
    while i < b
        invariant
            a <= i <= b <= buf@.len(),
            forall|k: int| a <= k < b ==> is_digit(#[trigger] buf@[k]),
            acc as int == digits_value(buf@, a as int, i as int),
        decreases b - i,
    {
        let d = (buf[i] - DIGIT_ZERO) as u64;
        proof {
            lemma_digits_value_mono(buf@, a as int, (i + 1) as int, b as int);
        }
        match acc.checked_mul(10) {
            Some(x) => match x.checked_add(d) {
                Some(y) => {
                    acc = y;
                },
                None => {
                    return None;
                },
            },
            None => {
                return None;
            },
        }
        i = i + 1;
    }
    Some(acc)
}

/// The bytes `buf[a..b]`.
fn copy_range(buf: &[u8], a: usize, b: usize) -> (r: Vec<u8>)
    requires
        a <= b <= buf@.len(),
    ensures
        r@ == buf@.subrange(a as int, b as int),
{
    let mut out: Vec<u8> = Vec::new();
    let mut i: usize = a;
    while i < b
        invariant
            a <= i <= b <= buf@.len(),
            out@ == buf@.subrange(a as int, i as int),
        decreases b - i,
    {
        out.push(buf[i]);
        i = i + 1;
        proof {
            assert(out@ =~= buf@.subrange(a as int, i as int));
        }
    }
    out
}

/// Reads the integer `i<digits>e` that starts at `pos`.
pub fn parse_int(buf: &[u8], pos: usize) -> (r: Result<(i64, usize), DecodeError>)
    requires
        pos < buf@.len(),
        buf@[pos as int] == TAG_INT,
    ensures
        match r {
            Ok((n, e)) => pos < e <= buf@.len() && spec_int(buf@, pos as int) == Ok::<(int, int), DecodeError>((n as int, e as int)),
            Err(x) => spec_int(buf@, pos as int) == Err::<(int, int), DecodeError>(x),
        },
{
    let len = buf.len();
    let neg = pos + 1 < len && buf[pos + 1] == MINUS;
    let a = if neg { pos + 2 } else { pos + 1 };
    let b = scan_digits(buf, a);
    if b == a {
        return Err(DecodeError { kind: ErrorKind::MalformedInteger, offset: a });
    }
    if b >= len || buf[b] != TAG_END {
        return Err(DecodeError { kind: ErrorKind::MalformedInteger, offset: b });
    }
    if buf[a] == DIGIT_ZERO && (neg || b > a + 1) {
        return Err(DecodeError { kind: ErrorKind::MalformedInteger, offset: a });
    }
    let overflow = DecodeError { kind: ErrorKind::IntegerOverflow, offset: a };
    match read_digits(buf, a, b) {
        None => Err(overflow),
        Some(m) => {
            if neg {
                if m > 9223372036854775808u64 {
                    Err(overflow)
                } else if m == 9223372036854775808u64 {
                    Ok((i64::MIN, b + 1))
                } else {
                    Ok((-(m as i64), b + 1))
                }
            } else if m > 9223372036854775807u64 {
                Err(overflow)
            } else {
                Ok((m as i64, b + 1))
            }
        },
    }
}

/// Reads the byte string `<length>:<bytes>` that starts at `pos`.
pub fn parse_str(buf: &[u8], pos: usize) -> (r: Result<(Vec<u8>, usize), DecodeError>)
    requires
        pos < buf@.len(),
        is_digit(buf@[pos as int]),
    ensures
        match r {
            Ok((v, e)) => pos < e <= buf@.len() && spec_str(buf@, pos as int) == Ok::<(Seq<u8>, int), DecodeError>((v@, e as int)),
            Err(x) => spec_str(buf@, pos as int) == Err::<(Seq<u8>, int), DecodeError>(x),
        },
{
    let len = buf.len();
    let b = scan_digits(buf, pos);
    if b >= len {
        return Err(DecodeError { kind: ErrorKind::TruncatedString, offset: b });
    }
    if buf[b] != COLON {
        return Err(DecodeError { kind: ErrorKind::MalformedInteger, offset: b });
    }
    if buf[pos] == DIGIT_ZERO && b > pos + 1 {
        return Err(DecodeError { kind: ErrorKind::MalformedInteger, offset: pos });
    }
    let start = b + 1;
    let truncated = DecodeError { kind: ErrorKind::TruncatedString, offset: start };
    match read_digits(buf, pos, b) {
        None => Err(truncated),
        Some(n) => {
            if n > (len - start) as u64 {
                Err(truncated)
            } else {
                let end = start + n as usize;
                Ok((copy_range(buf, start, end), end))
            }
        },
    }
}

proof fn lemma_view_items_push(s: Seq<Value>, v: Value)
    ensures
        view_items(s.push(v)) == view_items(s).push(v@),
    decreases s.len(),
{
    let t = s.push(v);
    if s.len() == 0 {
        assert(t.subrange(1, t.len() as int) =~= Seq::<Value>::empty());
        assert(view_items(Seq::<Value>::empty()) =~= Seq::<Tree>::empty());
        assert(view_items(t) =~= seq![v@]);
    } else {
        let rest = s.subrange(1, s.len() as int);
        assert(t.subrange(1, t.len() as int) =~= rest.push(v));
        lemma_view_items_push(rest, v);
        assert(t[0] == s[0]);
        assert(view_items(t) == seq![s[0]@] + view_items(rest).push(v@));
        assert(view_items(s) == seq![s[0]@] + view_items(rest));
        assert(view_items(t) =~= view_items(s).push(v@));
    }
}

proof fn lemma_view_entries_push(s: Seq<(Vec<u8>, Value)>, e: (Vec<u8>, Value))
    ensures
        view_entries(s.push(e)) == view_entries(s).push((e.0@, e.1@)),
    decreases s.len(),
{
    let t = s.push(e);
    if s.len() == 0 {
        assert(t.subrange(1, t.len() as int) =~= Seq::<(Vec<u8>, Value)>::empty());
        assert(view_entries(Seq::<(Vec<u8>, Value)>::empty()) =~= Seq::<(Seq<u8>, Tree)>::empty());
        assert(view_entries(t) =~= seq![(e.0@, e.1@)]);
    } else {
        let rest = s.subrange(1, s.len() as int);
        assert(t.subrange(1, t.len() as int) =~= rest.push(e));
        lemma_view_entries_push(rest, e);
        assert(t[0] == s[0]);
        assert(view_entries(t) == seq![(s[0].0@, s[0].1@)] + view_entries(rest).push((e.0@, e.1@)));
        assert(view_entries(s) == seq![(s[0].0@, s[0].1@)] + view_entries(rest));
        assert(view_entries(t) =~= view_entries(s).push((e.0@, e.1@)));
    }
}

/// Whether `a` comes strictly before `b` in lexicographic byte order.
fn bytes_less(a: &Vec<u8>, b: &Vec<u8>) -> (r: bool)
    ensures
        r == bytes_lt(a@, b@),
{
    let mut i: usize = 0;
    while i < a.len() && i < b.len() && a[i] == b[i]
        invariant
            0 <= i <= a@.len(),
            i <= b@.len(),
            forall|j: int| 0 <= j < i ==> a@[j] == b@[j],
        decreases a@.len() - i,
    {
        i = i + 1;
    }
    let r = if i < a.len() && i < b.len() {
        a[i] < b[i]
    } else {
        i == a.len() && i < b.len()
    };
    proof {
        if r {
            assert(differs_first_at(a@, b@, i as int));
        } else {
            assert forall|k: int| !differs_first_at(a@, b@, k) by {
                if differs_first_at(a@, b@, k) && k > i {
                    assert(a@[i as int] == b@[i as int]);
                }
            }
        }
    }
    r
}

/// Reads the value that starts at `pos`, met at nesting depth `depth`, and
/// gives it with the position just after its encoding.
pub fn parse_value(buf: &[u8], pos: usize, depth: usize, order: KeyOrder) -> (r: Result<(Value, usize), DecodeError>)
    requires
        pos <= buf@.len(),
    ensures
        match r {
            Ok((v, e)) => pos < e <= buf@.len() && spec_value(buf@, pos as int, depth as int, order) == Ok::<(Tree, int), DecodeError>((v@, e as int)),
            Err(x) => spec_value(buf@, pos as int, depth as int, order) == Err::<(Tree, int), DecodeError>(x),
        },
    decreases buf@.len() - pos, 1int,
{
    if pos >= buf.len() {
        return Err(DecodeError { kind: ErrorKind::UnexpectedEnd, offset: pos });
    }
    let c = buf[pos];
    if c == TAG_INT {
        match parse_int(buf, pos) {
            Ok((n, e)) => Ok((Value::Integer(n), e)),
            Err(x) => Err(x),
        }
    } else if is_digit_byte(c) {
        match parse_str(buf, pos) {
            Ok((b, e)) => Ok((Value::ByteString(b), e)),
            Err(x) => Err(x),
        }
    } else if c == TAG_LIST {
        match parse_list(buf, pos, depth, order) {
            Ok((l, e)) => Ok((Value::List(l), e)),
            Err(x) => Err(x),
        }
    } else if c == TAG_DICT {
        match parse_dict(buf, pos, depth, order) {
            Ok((d, e)) => Ok((Value::Dictionary(d), e)),
            Err(x) => Err(x),
        }
    } else {
        Err(DecodeError { kind: ErrorKind::InvalidTag, offset: pos })
    }
}

/// Reads the list `l<items>e` that starts at `pos`, met at nesting depth
/// `depth`.
pub fn parse_list(buf: &[u8], pos: usize, depth: usize, order: KeyOrder) -> (r: Result<(Vec<Value>, usize), DecodeError>)
    requires
        pos < buf@.len(),
        buf@[pos as int] == TAG_LIST,
    ensures
        match r {
            Ok((l, e)) => pos < e <= buf@.len() && spec_list(buf@, pos as int, depth as int, order) == Ok::<(Seq<Tree>, int), DecodeError>((view_items(l@), e as int)),
            Err(x) => spec_list(buf@, pos as int, depth as int, order) == Err::<(Seq<Tree>, int), DecodeError>(x),
        },
    decreases buf@.len() - pos, 0int,
{
    if depth >= MAX_DEPTH {
        return Err(DecodeError { kind: ErrorKind::NestingTooDeep, offset: pos });
    }
    let len = buf.len();
    let inner = depth + 1;
    let ghost s = buf@;
    let ghost whole = spec_items(s, pos + 1, inner as int, order);
    let mut items: Vec<Value> = Vec::new();
    let mut q: usize = pos + 1;
    loop
        invariant
            pos < q <= s.len(),
            s == buf@,
            len == s.len(),
            inner == depth + 1,
            depth < MAX_DEPTH,
            whole == spec_items(s, pos + 1, inner as int, order),
            spec_list(s, pos as int, depth as int, order) == whole,
            match spec_items(s, q as int, inner as int, order) {
                Ok((ts, f)) => whole == Ok::<(Seq<Tree>, int), DecodeError>((view_items(items@) + ts, f)),
                Err(x) => whole == Err::<(Seq<Tree>, int), DecodeError>(x),
            },
        decreases s.len() - q,
    {
        if q >= len {
            return Err(DecodeError { kind: ErrorKind::UnexpectedEnd, offset: q });
        }
        if buf[q] == TAG_END {
            proof {
                assert(view_items(items@) + Seq::<Tree>::empty() =~= view_items(items@));
            }
            return Ok((items, q + 1));
        }
        match parse_value(buf, q, inner, order) {
            Err(x) => {
                return Err(x);
            },
            Ok((v, e)) => {
                let ghost prev = items@;
                let ghost tv = v@;
                proof {
                    lemma_view_items_push(prev, v);
                }
                items.push(v);
                proof {
                    match spec_items(s, e as int, inner as int, order) {
                        Ok((ts, f)) => {
                            assert(view_items(prev) + (seq![tv] + ts) =~= view_items(items@) + ts);
                        },
                        Err(x) => {},
                    }
                }
                q = e;
            },
        }
    }
}

/// Reads the dictionary `d<key><value>...e` that starts at `pos`, met at
/// nesting depth `depth`, with its keys in the order that `order` asks for.
pub fn parse_dict(buf: &[u8], pos: usize, depth: usize, order: KeyOrder) -> (r: Result<(Vec<(Vec<u8>, Value)>, usize), DecodeError>)
    requires
        pos < buf@.len(),
        buf@[pos as int] == TAG_DICT,
    ensures
        match r {
            Ok((d, e)) => pos < e <= buf@.len() && spec_dict(buf@, pos as int, depth as int, order) == Ok::<(Seq<(Seq<u8>, Tree)>, int), DecodeError>((view_entries(d@), e as int)),
            Err(x) => spec_dict(buf@, pos as int, depth as int, order) == Err::<(Seq<(Seq<u8>, Tree)>, int), DecodeError>(x),
        },
    decreases buf@.len() - pos, 0int,
{
    if depth >= MAX_DEPTH {
        return Err(DecodeError { kind: ErrorKind::NestingTooDeep, offset: pos });
    }
    let len = buf.len();
    let inner = depth + 1;
    let ghost s = buf@;
    let ghost whole = spec_entries(s, pos + 1, inner as int, Seq::empty(), order);
    let mut entries: Vec<(Vec<u8>, Value)> = Vec::new();
    let mut q: usize = pos + 1;
    proof {
        assert(keys_of(entries@) =~= Seq::<Seq<u8>>::empty());
    }
    loop
        invariant
            pos < q <= s.len(),
            s == buf@,
            len == s.len(),
            inner == depth + 1,
            depth < MAX_DEPTH,
            whole == spec_entries(s, pos + 1, inner as int, Seq::empty(), order),
            spec_dict(s, pos as int, depth as int, order) == whole,
            match spec_entries(s, q as int, inner as int, keys_of(entries@), order) {
                Ok((es, f)) => whole == Ok::<(Seq<(Seq<u8>, Tree)>, int), DecodeError>((view_entries(entries@) + es, f)),
                Err(x) => whole == Err::<(Seq<(Seq<u8>, Tree)>, int), DecodeError>(x),
            },
        decreases s.len() - q,
    {
        if q >= len {
            return Err(DecodeError { kind: ErrorKind::UnexpectedEnd, offset: q });
        }
        if buf[q] == TAG_END {
            proof {
                assert(view_entries(entries@) + Seq::<(Seq<u8>, Tree)>::empty() =~= view_entries(entries@));
            }
            return Ok((entries, q + 1));
        }
        if !is_digit_byte(buf[q]) {
            return Err(DecodeError { kind: ErrorKind::InvalidKeyType, offset: q });
        }
        let (key, kq) = match parse_str(buf, q) {
            Err(x) => {
                return Err(x);
            },
            Ok(p) => p,
        };
        if !key_allowed(&entries, &key, order) {
            return Err(DecodeError { kind: ErrorKind::DictionaryOrderingError, offset: q });
        }
        match parse_value(buf, kq, inner, order) {
            Err(x) => {
                return Err(x);
            },
            Ok((v, e)) => {
                let ghost prev = entries@;
                let ghost tk = key@;
                let ghost tv = v@;
                proof {
                    lemma_view_entries_push(prev, (key, v));
                }
                entries.push((key, v));
                proof {
                    assert(keys_of(entries@) =~= keys_of(prev).push(tk));
                    match spec_entries(s, e as int, inner as int, keys_of(prev).push(tk), order) {
                        Ok((es, f)) => {
                            assert(view_entries(prev) + (seq![(tk, tv)] + es) =~= view_entries(entries@) + es);
                        },
                        Err(x) => {},
                    }
                }
                q = e;
            },
        }
    }
}

/// The keys of the entries read so far, in the order read.
pub open spec fn keys_of(es: Seq<(Vec<u8>, Value)>) -> Seq<Seq<u8>> {
    es.map_values(|e: (Vec<u8>, Value)| e.0@)
}

/// Whether two byte strings are equal.
fn same_bytes(a: &Vec<u8>, b: &Vec<u8>) -> (r: bool)
    ensures
        r == (a@ == b@),
{
    if a.len() != b.len() {
        return false;
    }
    let mut i: usize = 0;
    while i < a.len()
        invariant
            a@.len() == b@.len(),
            0 <= i <= a@.len(),
            forall|j: int| 0 <= j < i ==> a@[j] == b@[j],
        decreases a@.len() - i,
    {
        if a[i] != b[i] {
            return false;
        }
        i = i + 1;
    }
    proof {
        assert(a@ =~= b@);
    }
    true
}

/// Whether `key` may follow the keys of `entries` under `order`.
fn key_allowed(entries: &Vec<(Vec<u8>, Value)>, key: &Vec<u8>, order: KeyOrder) -> (r: bool)
    ensures
        r == key_accepted(keys_of(entries@), key@, order),
{
    let n = entries.len();
    match order {
        KeyOrder::Strict => n == 0 || bytes_less(&entries[n - 1].0, key),
        KeyOrder::Lenient => {
            let mut i: usize = 0;
            while i < n
                invariant
                    order == KeyOrder::Lenient,
                    n == entries@.len(),
                    0 <= i <= n,
                    forall|j: int| 0 <= j < i ==> keys_of(entries@)[j] != key@,
                decreases n - i,
            {
                if same_bytes(&entries[i].0, key) {
                    proof {
                        assert(keys_of(entries@)[i as int] == key@);
                    }
                    return false;
                }
                i = i + 1;
            }
            true
        },
    }
}

/// Decodes the values that follow one another in `buf`, up to its end, with
/// dictionary keys in strict order.
///
/// The buffer is only read: the caller's bytes are the same afterwards.
pub fn parse(buf: &[u8]) -> (r: Result<Vec<Value>, DecodeError>)
    ensures
        match r {
            Ok(vs) => decoded(buf@) == Ok::<Seq<Tree>, DecodeError>(view_items(vs@)),
            Err(x) => decoded(buf@) == Err::<Seq<Tree>, DecodeError>(x),
        },
{
    parse_with(buf, KeyOrder::Strict)
}

/// Decodes the values that follow one another in `buf`, up to its end, with
/// dictionary keys in the order that `order` asks for.
///
/// The buffer is only read: the caller's bytes are the same afterwards.
pub fn parse_with(buf: &[u8], order: KeyOrder) -> (r: Result<Vec<Value>, DecodeError>)
    ensures
        match r {
            Ok(vs) => decoded_with(buf@, order) == Ok::<Seq<Tree>, DecodeError>(view_items(vs@)),
            Err(x) => decoded_with(buf@, order) == Err::<Seq<Tree>, DecodeError>(x),
        },
{
    let ghost s = buf@;
    let ghost whole = spec_all(s, 0, order);
    let mut values: Vec<Value> = Vec::new();
    let mut q: usize = 0;
    while q < buf.len()
        invariant
            q <= s.len(),
            s == buf@,
            whole == spec_all(s, 0, order),
            match spec_all(s, q as int, order) {
                Ok(ts) => whole == Ok::<Seq<Tree>, DecodeError>(view_items(values@) + ts),
                Err(x) => whole == Err::<Seq<Tree>, DecodeError>(x),
            },
        decreases s.len() - q,
    {
        match parse_value(buf, q, 0, order) {
            Err(x) => {
                return Err(x);
            },
            Ok((v, e)) => {
                let ghost prev = values@;
                let ghost tv = v@;
                proof {
                    lemma_view_items_push(prev, v);
                }
                values.push(v);
                proof {
                    match spec_all(s, e as int, order) {
                        Ok(ts) => {
                            assert(view_items(prev) + (seq![tv] + ts) =~= view_items(values@) + ts);
                        },
                        Err(x) => {},
                    }
                }
                q = e;
            },
        }
    }
    proof {
        assert(view_items(values@) + Seq::<Tree>::empty() =~= view_items(values@));
    }
    Ok(values)
}

} // verus!
