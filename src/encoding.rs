//! The canonical encoding of values, and the laws that tie the decoder to it.
use vstd::prelude::*;
use crate::grammar::{
    bytes_lt, decoded, decoded_with, key_accepted, digits_end, digits_value, fail, is_digit, lemma_digits_value_mono,
    spec_all, spec_entries, spec_int, spec_items, spec_list, spec_str, spec_value,
};
use crate::value::{
    DecodeError, ErrorKind, KeyOrder, Tree, COLON, DIGIT_ZERO, MAX_DEPTH, MINUS, TAG_DICT, TAG_END, TAG_INT,
    TAG_LIST,
};

verus! {

/// The digit byte for `m`, where `0 <= m < 10`.
pub open spec fn digit_byte(m: int) -> u8 {
    (m + DIGIT_ZERO) as u8
}

/// The decimal digits of `m`, with no leading zero.
pub open spec fn decimal(m: nat) -> Seq<u8>
    decreases m,
{
    if m < 10 {
        seq![digit_byte(m as int)]
    } else {
        decimal(m / 10).push(digit_byte((m % 10) as int))
    }
}

/// The canonical encoding of the integer `n`: `i`, a `-` where `n` is
/// negative, the decimal digits of its magnitude, and `e`.
pub open spec fn encode_int(n: int) -> Seq<u8> {
    let digits = if n < 0 {
        seq![MINUS] + decimal((-n) as nat)
    } else {
        decimal(n as nat)
    };
    seq![TAG_INT] + digits + seq![TAG_END]
}

/// The canonical encoding of the byte string `b`: its length in decimal, `:`,
/// and the bytes themselves.
pub open spec fn encode_bytes(b: Seq<u8>) -> Seq<u8> {
    decimal(b.len()) + seq![COLON] + b
}

/// The canonical encoding of a value.
pub open spec fn encode(t: Tree) -> Seq<u8>
    decreases t,
{
    match t {
        Tree::Int(n) => encode_int(n),
        Tree::Bytes(b) => encode_bytes(b),
        Tree::List(ts) => seq![TAG_LIST] + encode_items(ts) + seq![TAG_END],
        Tree::Dict(es) => seq![TAG_DICT] + encode_entries(es) + seq![TAG_END],
    }
}

/// The encodings of the items of a list, one after another.
pub open spec fn encode_items(ts: Seq<Tree>) -> Seq<u8>
    decreases ts,
{
    if ts.len() == 0 {
        Seq::empty()
    } else {
        encode(ts[0]) + encode_items(ts.subrange(1, ts.len() as int))
    }
}

/// The encodings of the entries of a dictionary, each key before its value.
pub open spec fn encode_entries(es: Seq<(Seq<u8>, Tree)>) -> Seq<u8>
    decreases es,
{
    if es.len() == 0 {
        Seq::empty()
    } else {
        encode_bytes(es[0].0) + encode(es[0].1) + encode_entries(es.subrange(1, es.len() as int))
    }
}

/// Every integer in the value fits in 64 signed bits, and every dictionary in
/// it has strictly ascending keys.
pub open spec fn canonical(t: Tree) -> bool
    decreases t,
{
    match t {
        Tree::Int(n) => i64::MIN <= n <= i64::MAX,
        Tree::Bytes(_) => true,
        Tree::List(ts) => canonical_items(ts),
        Tree::Dict(es) => canonical_entries(None, es),
    }
}

pub open spec fn canonical_items(ts: Seq<Tree>) -> bool
    decreases ts,
{
    ts.len() == 0 || (canonical(ts[0]) && canonical_items(ts.subrange(1, ts.len() as int)))
}

/// The last of the keys `seen`, where there is one.
pub open spec fn last_key(seen: Seq<Seq<u8>>) -> Option<Seq<u8>> {
    if seen.len() == 0 {
        None
    } else {
        Some(seen.last())
    }
}

/// The keys ascend strictly, the first one above `prev` where there is one,
/// and every value is canonical.
pub open spec fn canonical_entries(prev: Option<Seq<u8>>, es: Seq<(Seq<u8>, Tree)>) -> bool
    decreases es,
{
    es.len() == 0 || ((prev is None || bytes_lt(prev->Some_0, es[0].0)) && canonical(es[0].1)
        && canonical_entries(Some(es[0].0), es.subrange(1, es.len() as int)))
}

/// The value can be met at nesting depth `d` without lists and dictionaries
/// nesting deeper than `MAX_DEPTH`.
pub open spec fn fits(t: Tree, d: int) -> bool
    decreases t,
{
    match t {
        Tree::Int(_) => true,
        Tree::Bytes(_) => true,
        Tree::List(ts) => d < MAX_DEPTH && items_fit(ts, d + 1),
        Tree::Dict(es) => d < MAX_DEPTH && entries_fit(es, d + 1),
    }
}

pub open spec fn items_fit(ts: Seq<Tree>, d: int) -> bool
    decreases ts,
{
    ts.len() == 0 || (fits(ts[0], d) && items_fit(ts.subrange(1, ts.len() as int), d))
}

pub open spec fn entries_fit(es: Seq<(Seq<u8>, Tree)>, d: int) -> bool
    decreases es,
{
    es.len() == 0 || (fits(es[0].1, d) && entries_fit(es.subrange(1, es.len() as int), d))
}

proof fn lemma_decimal_shape(m: nat)
    ensures
        decimal(m).len() >= 1,
        forall|k: int| 0 <= k < decimal(m).len() ==> is_digit(#[trigger] decimal(m)[k]),
        m > 0 ==> decimal(m)[0] != DIGIT_ZERO,
        m == 0 ==> decimal(m) == seq![DIGIT_ZERO],
    decreases m,
{
    if m >= 10 {
        lemma_decimal_shape(m / 10);
        let d = decimal(m / 10);
        assert(decimal(m)[0] == d[0]);
        assert forall|k: int| 0 <= k < decimal(m).len() implies is_digit(#[trigger] decimal(m)[k]) by {
            if k < d.len() {
                assert(decimal(m)[k] == d[k]);
            }
        }
    }
}

proof fn lemma_decimal_value(s: Seq<u8>, a: int, m: nat)
    requires
        0 <= a,
        a + decimal(m).len() <= s.len(),
        s.subrange(a, a + decimal(m).len()) == decimal(m),
    ensures
        digits_value(s, a, a + decimal(m).len()) == m,
    decreases m,
{
    let b = a + decimal(m).len();
    assert(s[b - 1] == s.subrange(a, b)[b - 1 - a]);
    if m < 10 {
        assert(digits_value(s, a, b - 1) == 0);
    } else {
        let d = decimal(m / 10);
        assert(s.subrange(a, b - 1) =~= d) by {
            assert forall|k: int| 0 <= k < d.len() implies s.subrange(a, b - 1)[k] == d[k] by {
                assert(s.subrange(a, b)[k] == decimal(m)[k]);
            }
        }
        lemma_decimal_value(s, a, m / 10);
    }
}

proof fn lemma_digits_end_at(s: Seq<u8>, i: int, b: int)
    requires
        0 <= i <= b <= s.len(),
        forall|k: int| i <= k < b ==> is_digit(#[trigger] s[k]),
        b == s.len() || !is_digit(s[b]),
    ensures
        digits_end(s, i) == b,
    decreases b - i,
{
    if i < b {
        lemma_digits_end_at(s, i + 1, b);
    }
}

proof fn lemma_canonical_digits(s: Seq<u8>, a: int, b: int)
    requires
        0 <= a < b <= s.len(),
        forall|k: int| a <= k < b ==> is_digit(#[trigger] s[k]),
        s[a] != DIGIT_ZERO || b == a + 1,
    ensures
        s.subrange(a, b) == decimal(digits_value(s, a, b) as nat),
    decreases b - a,
{
    lemma_digits_value_mono(s, a, a + 1, b);
    if b == a + 1 {
        assert(digits_value(s, a, a) == 0);
        assert(s.subrange(a, b) =~= decimal(digits_value(s, a, b) as nat));
    } else {
        lemma_canonical_digits(s, a, b - 1);
        lemma_digits_value_mono(s, a, a + 1, b - 1);
        assert(digits_value(s, a, a) == 0);
        let m = digits_value(s, a, b);
        assert(m >= 10);
        assert(s.subrange(a, b) =~= s.subrange(a, b - 1).push(s[b - 1]));
    }
}

proof fn lemma_int_at(s: Seq<u8>, p: int, n: int)
    requires
        0 <= p,
        p + encode_int(n).len() <= s.len(),
        s.subrange(p, p + encode_int(n).len()) == encode_int(n),
        i64::MIN <= n <= i64::MAX,
    ensures
        spec_int(s, p) == Ok::<(int, int), DecodeError>((n, p + encode_int(n).len())),
{
    let enc = encode_int(n);
    let w = s.subrange(p, p + enc.len());
    let neg = n < 0;
    let m: nat = if neg { (-n) as nat } else { n as nat };
    let dm = decimal(m);
    lemma_decimal_shape(m);
    let a: int = if neg { p + 2 } else { p + 1 };
    let b = a + dm.len();
    assert(enc.len() == b + 1 - p);
    assert forall|k: int| a <= k < b implies is_digit(#[trigger] s[k]) && s[k] == dm[k - a] by {
        assert(s[k] == w[k - p]);
        assert(w[k - p] == enc[k - p]);
    }
    assert(s.subrange(a, b) =~= dm);
    assert(s[b] == w[b - p]);
    assert(s[b] == TAG_END);
    assert(s[p + 1] == w[1]);
    assert(neg == (s[p + 1] == MINUS));
    lemma_digits_end_at(s, a, b);
    lemma_decimal_value(s, a, m);
}

/// Decoding the canonical encoding of any 64-bit integer gives back exactly
/// that integer and consumes the whole encoding.
pub proof fn lemma_int_round_trip(n: i64)
    ensures
        spec_value(encode_int(n as int), 0, 0, KeyOrder::Strict) == Ok::<(Tree, int), DecodeError>(
            (Tree::Int(n as int), encode_int(n as int).len() as int),
        ),
        decoded(encode_int(n as int)) == Ok::<Seq<Tree>, DecodeError>(seq![Tree::Int(n as int)]),
{
    let s = encode_int(n as int);
    assert(s.subrange(0, s.len() as int) =~= s);
    lemma_int_at(s, 0, n as int);
    assert(spec_all(s, s.len() as int, KeyOrder::Strict) == Ok::<Seq<Tree>, DecodeError>(Seq::empty()));
    assert(seq![Tree::Int(n as int)] + Seq::<Tree>::empty() =~= seq![Tree::Int(n as int)]);
}

/// Whatever integer the decoder reads, the bytes it consumed are exactly the
/// canonical encoding of that integer.
pub proof fn lemma_int_span_canonical(s: Seq<u8>, p: int)
    requires
        0 <= p < s.len(),
        s[p] == TAG_INT,
        spec_int(s, p) is Ok,
    ensures
        p < spec_int(s, p)->Ok_0.1 <= s.len(),
        s.subrange(p, spec_int(s, p)->Ok_0.1) == encode_int(spec_int(s, p)->Ok_0.0),
{
    let neg = p + 1 < s.len() && s[p + 1] == MINUS;
    let a = if neg { p + 2 } else { p + 1 };
    let b = digits_end(s, a);
    let n = spec_int(s, p)->Ok_0.0;
    let m = digits_value(s, a, b);
    lemma_digits_end_facts(s, a);
    lemma_canonical_digits(s, a, b);
    lemma_digits_value_mono(s, a, a + 1, b);
    assert(digits_value(s, a, a) == 0);
    if neg {
        assert(m > 0);
        assert(s.subrange(p, b + 1) =~= encode_int(n));
    } else {
        assert(s.subrange(p, b + 1) =~= encode_int(n));
    }
}

proof fn lemma_str_span(s: Seq<u8>, p: int)
    requires
        0 <= p < s.len(),
        is_digit(s[p]),
        spec_str(s, p) is Ok,
    ensures
        p < spec_str(s, p)->Ok_0.1 <= s.len(),
        s.subrange(p, spec_str(s, p)->Ok_0.1) == encode_bytes(spec_str(s, p)->Ok_0.0),
{
    let b = digits_end(s, p);
    lemma_digits_end_facts(s, p);
    lemma_canonical_digits(s, p, b);
    lemma_digits_value_mono(s, p, p, b);
    let (bytes, e) = spec_str(s, p)->Ok_0;
    assert(bytes.len() == digits_value(s, p, b));
    assert(s.subrange(p, e) =~= s.subrange(p, b) + seq![COLON] + bytes);
}

/// Whatever value the decoder reads, the bytes it consumed are exactly the
/// canonical encoding of that value, and every dictionary in it has strictly
/// ascending keys and every integer fits in 64 signed bits.
pub proof fn lemma_value_span(s: Seq<u8>, p: int, d: int, o: KeyOrder)
    requires
        0 <= p,
        spec_value(s, p, d, o) is Ok,
    ensures
        p < spec_value(s, p, d, o)->Ok_0.1 <= s.len(),
        s.subrange(p, spec_value(s, p, d, o)->Ok_0.1) == encode(spec_value(s, p, d, o)->Ok_0.0),
        o == KeyOrder::Strict ==> canonical(spec_value(s, p, d, o)->Ok_0.0),
    decreases s.len() - p, 1int,
{
    let (t, e) = spec_value(s, p, d, o)->Ok_0;
    if s[p] == TAG_INT {
        lemma_int_span_canonical(s, p);
    } else if is_digit(s[p]) {
        lemma_str_span(s, p);
    } else if s[p] == TAG_LIST {
        lemma_items_span(s, p + 1, d + 1, o);
        let ts = spec_items(s, p + 1, d + 1, o)->Ok_0.0;
        assert(s.subrange(p, e) =~= seq![TAG_LIST] + s.subrange(p + 1, e));
        assert(encode(t) == seq![TAG_LIST] + encode_items(ts) + seq![TAG_END]);
        assert(seq![TAG_LIST] + (encode_items(ts) + seq![TAG_END]) =~= seq![TAG_LIST]
            + encode_items(ts) + seq![TAG_END]);
    } else {
        lemma_entries_span(s, p + 1, d + 1, Seq::empty(), o);
        let es = spec_entries(s, p + 1, d + 1, Seq::empty(), o)->Ok_0.0;
        assert(s.subrange(p, e) =~= seq![TAG_DICT] + s.subrange(p + 1, e));
        assert(encode(t) == seq![TAG_DICT] + encode_entries(es) + seq![TAG_END]);
        assert(seq![TAG_DICT] + (encode_entries(es) + seq![TAG_END]) =~= seq![TAG_DICT]
            + encode_entries(es) + seq![TAG_END]);
    }
}

proof fn lemma_items_span(s: Seq<u8>, q: int, d: int, o: KeyOrder)
    requires
        0 <= q,
        spec_items(s, q, d, o) is Ok,
    ensures
        q < spec_items(s, q, d, o)->Ok_0.1 <= s.len(),
        s.subrange(q, spec_items(s, q, d, o)->Ok_0.1) == encode_items(spec_items(s, q, d, o)->Ok_0.0)
            + seq![TAG_END],
        o == KeyOrder::Strict ==> canonical_items(spec_items(s, q, d, o)->Ok_0.0),
    decreases s.len() - q, 2int,
{
    let (ts, f) = spec_items(s, q, d, o)->Ok_0;
    if s[q] == TAG_END {
        assert(s.subrange(q, f) =~= Seq::<u8>::empty() + seq![TAG_END]);
    } else {
        lemma_value_span(s, q, d, o);
        let (t, e) = spec_value(s, q, d, o)->Ok_0;
        lemma_items_span(s, e, d, o);
        let rest = spec_items(s, e, d, o)->Ok_0.0;
        assert(ts[0] == t);
        assert(ts.subrange(1, ts.len() as int) =~= rest);
        assert(s.subrange(q, f) =~= s.subrange(q, e) + s.subrange(e, f));
        assert(encode(t) + (encode_items(rest) + seq![TAG_END]) =~= encode(t) + encode_items(rest)
            + seq![TAG_END]);
    }
}

proof fn lemma_entries_span(s: Seq<u8>, q: int, d: int, seen: Seq<Seq<u8>>, o: KeyOrder)
    requires
        0 <= q,
        spec_entries(s, q, d, seen, o) is Ok,
    ensures
        q < spec_entries(s, q, d, seen, o)->Ok_0.1 <= s.len(),
        s.subrange(q, spec_entries(s, q, d, seen, o)->Ok_0.1) == encode_entries(
            spec_entries(s, q, d, seen, o)->Ok_0.0,
        ) + seq![TAG_END],
        o == KeyOrder::Strict ==> canonical_entries(last_key(seen), spec_entries(s, q, d, seen, o)->Ok_0.0),
    decreases s.len() - q, 2int,
{
    let (es, f) = spec_entries(s, q, d, seen, o)->Ok_0;
    if s[q] == TAG_END {
        assert(s.subrange(q, f) =~= Seq::<u8>::empty() + seq![TAG_END]);
    } else {
        lemma_str_span(s, q);
        let (k, kq) = spec_str(s, q)->Ok_0;
        lemma_value_span(s, kq, d, o);
        let (t, e) = spec_value(s, kq, d, o)->Ok_0;
        lemma_entries_span(s, e, d, seen.push(k), o);
        let rest = spec_entries(s, e, d, seen.push(k), o)->Ok_0.0;
        assert(last_key(seen.push(k)) == Some(k));
        assert(es[0] == (k, t));
        assert(es.subrange(1, es.len() as int) =~= rest);
        assert(s.subrange(q, f) =~= s.subrange(q, kq) + s.subrange(kq, e) + s.subrange(e, f));
        assert(encode_bytes(k) + encode(t) + (encode_entries(rest) + seq![TAG_END])
            =~= encode_bytes(k) + encode(t) + encode_entries(rest) + seq![TAG_END]);
    }
}

proof fn lemma_bytes_at(s: Seq<u8>, p: int, b: Seq<u8>)
    requires
        0 <= p,
        p + encode_bytes(b).len() <= s.len(),
        s.subrange(p, p + encode_bytes(b).len()) == encode_bytes(b),
    ensures
        spec_str(s, p) == Ok::<(Seq<u8>, int), DecodeError>((b, p + encode_bytes(b).len())),
        is_digit(s[p]),
{
    let enc = encode_bytes(b);
    let w = s.subrange(p, p + enc.len());
    let m = b.len();
    let dm = decimal(m);
    lemma_decimal_shape(m);
    let c = p + dm.len();
    assert forall|k: int| p <= k < c implies is_digit(#[trigger] s[k]) && s[k] == dm[k - p] by {
        assert(s[k] == w[k - p]);
        assert(w[k - p] == enc[k - p]);
    }
    assert(s.subrange(p, c) =~= dm);
    assert(s[c] == w[c - p]);
    assert(s[c] == COLON);
    assert(s[p] == dm[0]);
    lemma_digits_end_at(s, p, c);
    lemma_decimal_value(s, p, m);
    assert(s.subrange(c + 1, c + 1 + m) =~= b) by {
        assert forall|k: int| 0 <= k < m implies s.subrange(c + 1, c + 1 + m)[k] == b[k] by {
            assert(s[c + 1 + k] == w[c + 1 + k - p]);
        }
    }
}

/// Decoding the canonical encoding of a value whose dictionaries have strictly
/// ascending keys and whose integers fit in 64 signed bits, met at a depth
/// where it fits, gives back exactly that value and consumes exactly its
/// encoding, whatever follows it.
pub proof fn lemma_value_at(s: Seq<u8>, p: int, d: int, t: Tree)
    requires
        0 <= p,
        p + encode(t).len() <= s.len(),
        s.subrange(p, p + encode(t).len()) == encode(t),
        canonical(t),
        fits(t, d),
    ensures
        spec_value(s, p, d, KeyOrder::Strict) == Ok::<(Tree, int), DecodeError>((t, p + encode(t).len())),
        encode(t).len() >= 1,
        s[p] != TAG_END,
    decreases t,
{
    let enc = encode(t);
    match t {
        Tree::Int(n) => {
            lemma_int_at(s, p, n);
            assert(s[p] == s.subrange(p, p + enc.len())[0]);
        },
        Tree::Bytes(b) => {
            lemma_bytes_at(s, p, b);
        },
        Tree::List(ts) => {
            let ei = encode_items(ts);
            assert(s[p] == s.subrange(p, p + enc.len())[0]);
            assert(s.subrange(p + 1, p + 1 + ei.len() + 1) =~= ei + seq![TAG_END]) by {
                assert forall|k: int| 0 <= k < ei.len() + 1 implies s.subrange(
                    p + 1,
                    p + 1 + ei.len() + 1,
                )[k] == (ei + seq![TAG_END])[k] by {
                    assert(s[p + 1 + k] == s.subrange(p, p + enc.len())[1 + k]);
                }
            }
            lemma_items_at(s, p + 1, d + 1, ts);
        },
        Tree::Dict(es) => {
            let ee = encode_entries(es);
            assert(s[p] == s.subrange(p, p + enc.len())[0]);
            assert(s.subrange(p + 1, p + 1 + ee.len() + 1) =~= ee + seq![TAG_END]) by {
                assert forall|k: int| 0 <= k < ee.len() + 1 implies s.subrange(
                    p + 1,
                    p + 1 + ee.len() + 1,
                )[k] == (ee + seq![TAG_END])[k] by {
                    assert(s[p + 1 + k] == s.subrange(p, p + enc.len())[1 + k]);
                }
            }
            lemma_entries_at(s, p + 1, d + 1, Seq::empty(), es);
        },
    }
}

proof fn lemma_items_at(s: Seq<u8>, q: int, d: int, ts: Seq<Tree>)
    requires
        0 <= q,
        q + encode_items(ts).len() + 1 <= s.len(),
        s.subrange(q, q + encode_items(ts).len() + 1) == encode_items(ts) + seq![TAG_END],
        canonical_items(ts),
        items_fit(ts, d),
    ensures
        spec_items(s, q, d, KeyOrder::Strict) == Ok::<(Seq<Tree>, int), DecodeError>(
            (ts, q + encode_items(ts).len() + 1),
        ),
    decreases ts,
{
    let w = encode_items(ts) + seq![TAG_END];
    assert(s[q] == s.subrange(q, q + w.len())[0]);
    if ts.len() == 0 {
        assert(ts =~= Seq::<Tree>::empty());
    } else {
        let t = ts[0];
        let rest = ts.subrange(1, ts.len() as int);
        let l0 = encode(t).len();
        let lr = encode_items(rest).len();
        assert(s.subrange(q, q + l0) =~= encode(t)) by {
            assert forall|k: int| 0 <= k < l0 implies s.subrange(q, q + l0)[k] == encode(t)[k] by {
                assert(s[q + k] == s.subrange(q, q + w.len())[k]);
            }
        }
        lemma_value_at(s, q, d, t);
        assert(s.subrange(q + l0, q + l0 + lr + 1) =~= encode_items(rest) + seq![TAG_END]) by {
            assert forall|k: int| 0 <= k < lr + 1 implies s.subrange(q + l0, q + l0 + lr + 1)[k]
                == (encode_items(rest) + seq![TAG_END])[k] by {
                assert(s[q + l0 + k] == s.subrange(q, q + w.len())[l0 + k]);
            }
        }
        lemma_items_at(s, q + l0, d, rest);
        assert(seq![t] + rest =~= ts);
    }
}

proof fn lemma_entries_at(s: Seq<u8>, q: int, d: int, seen: Seq<Seq<u8>>, es: Seq<(Seq<u8>, Tree)>)
    requires
        0 <= q,
        q + encode_entries(es).len() + 1 <= s.len(),
        s.subrange(q, q + encode_entries(es).len() + 1) == encode_entries(es) + seq![TAG_END],
        canonical_entries(last_key(seen), es),
        entries_fit(es, d),
    ensures
        spec_entries(s, q, d, seen, KeyOrder::Strict) == Ok::<(Seq<(Seq<u8>, Tree)>, int), DecodeError>(
            (es, q + encode_entries(es).len() + 1),
        ),
    decreases es,
{
    let w = encode_entries(es) + seq![TAG_END];
    assert(s[q] == s.subrange(q, q + w.len())[0]);
    if es.len() == 0 {
        assert(es =~= Seq::<(Seq<u8>, Tree)>::empty());
    } else {
        let k = es[0].0;
        let t = es[0].1;
        let rest = es.subrange(1, es.len() as int);
        let lk = encode_bytes(k).len();
        let l0 = encode(t).len();
        let lr = encode_entries(rest).len();
        assert(s.subrange(q, q + lk) =~= encode_bytes(k)) by {
            assert forall|i: int| 0 <= i < lk implies s.subrange(q, q + lk)[i] == encode_bytes(k)[i] by {
                assert(s[q + i] == s.subrange(q, q + w.len())[i]);
            }
        }
        lemma_bytes_at(s, q, k);
        assert(s.subrange(q + lk, q + lk + l0) =~= encode(t)) by {
            assert forall|i: int| 0 <= i < l0 implies s.subrange(q + lk, q + lk + l0)[i] == encode(t)[i] by {
                assert(s[q + lk + i] == s.subrange(q, q + w.len())[lk + i]);
            }
        }
        lemma_value_at(s, q + lk, d, t);
        let e = q + lk + l0;
        assert(s.subrange(e, e + lr + 1) =~= encode_entries(rest) + seq![TAG_END]) by {
            assert forall|i: int| 0 <= i < lr + 1 implies s.subrange(e, e + lr + 1)[i]
                == (encode_entries(rest) + seq![TAG_END])[i] by {
                assert(s[e + i] == s.subrange(q, q + w.len())[lk + l0 + i]);
            }
        }
        assert(key_accepted(seen, k, KeyOrder::Strict));
        assert(last_key(seen.push(k)) == Some(k));
        lemma_entries_at(s, e, d, seen.push(k), rest);
        assert(seq![(k, t)] + rest =~= es);
    }
}

/// Decoding the canonical encoding of a value whose dictionaries have strictly
/// ascending keys, whose integers fit in 64 signed bits and whose nesting
/// stays within `MAX_DEPTH` gives back exactly that value and nothing else.
pub proof fn lemma_round_trip(t: Tree)
    requires
        canonical(t),
        fits(t, 0),
    ensures
        decoded(encode(t)) == Ok::<Seq<Tree>, DecodeError>(seq![t]),
{
    let s = encode(t);
    assert(s.subrange(0, s.len() as int) =~= s);
    lemma_value_at(s, 0, 0, t);
    assert(spec_all(s, s.len() as int, KeyOrder::Strict) == Ok::<Seq<Tree>, DecodeError>(Seq::empty()));
    assert(seq![t] + Seq::<Tree>::empty() =~= seq![t]);
}

proof fn lemma_digits_end_facts(s: Seq<u8>, i: int)
    requires
        0 <= i <= s.len(),
    ensures
        i <= digits_end(s, i) <= s.len(),
        forall|k: int| i <= k < digits_end(s, i) ==> is_digit(#[trigger] s[k]),
    decreases s.len() - i,
{
    if i < s.len() && is_digit(s[i]) {
        lemma_digits_end_facts(s, i + 1);
    }
}

proof fn lemma_nesting_from(s: Seq<u8>, i: int, o: KeyOrder)
    requires
        s.len() > MAX_DEPTH,
        forall|k: int| 0 <= k <= MAX_DEPTH ==> #[trigger] s[k] == TAG_LIST,
        0 <= i <= MAX_DEPTH,
    ensures
        spec_value(s, i, i, o) == Err::<(Tree, int), DecodeError>(
            fail(ErrorKind::NestingTooDeep, MAX_DEPTH as int),
        ),
    decreases MAX_DEPTH - i,
{
    assert(s[i] == TAG_LIST);
    if i < MAX_DEPTH {
        lemma_nesting_from(s, i + 1, o);
        assert(s[i + 1] == TAG_LIST);
        assert(spec_items(s, i + 1, i + 1, o) == Err::<(Seq<Tree>, int), DecodeError>(
            fail(ErrorKind::NestingTooDeep, MAX_DEPTH as int),
        ));
        assert(spec_list(s, i, i, o) == Err::<(Seq<Tree>, int), DecodeError>(
            fail(ErrorKind::NestingTooDeep, MAX_DEPTH as int),
        ));
    }
}

/// Input that opens more than `MAX_DEPTH` lists one inside another fails
/// with `NestingTooDeep` at the list that is one level too deep, whatever
/// follows.
pub proof fn lemma_nesting_limit(s: Seq<u8>, o: KeyOrder)
    requires
        s.len() > MAX_DEPTH,
        forall|k: int| 0 <= k <= MAX_DEPTH ==> #[trigger] s[k] == TAG_LIST,
    ensures
        decoded_with(s, o) == Err::<Seq<Tree>, DecodeError>(
            fail(ErrorKind::NestingTooDeep, MAX_DEPTH as int),
        ),
{
    lemma_nesting_from(s, 0, o);
}

} // verus!
