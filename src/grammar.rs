//! The grammar of the format, as spec functions over the input bytes.
//!
//! Each function takes the whole input `s` and a position, and gives either
//! the decoded model together with the position just after it, or the first
//! error, with the offset at which it was found.
use vstd::prelude::*;
use crate::value::{
    DecodeError, ErrorKind, KeyOrder, Tree, COLON, DIGIT_NINE, DIGIT_ZERO, MAX_DEPTH, MINUS, TAG_DICT,
    TAG_END, TAG_INT, TAG_LIST,
};

verus! {

pub open spec fn is_digit(b: u8) -> bool {
    DIGIT_ZERO <= b && b <= DIGIT_NINE
}

pub open spec fn fail(kind: ErrorKind, at: int) -> DecodeError {
    DecodeError { kind, offset: at as usize }
}

/// The first index at or after `i` that does not hold a digit.
pub open spec fn digits_end(s: Seq<u8>, i: int) -> int
    decreases s.len() - i,
{
    if 0 <= i < s.len() && is_digit(s[i]) {
        digits_end(s, i + 1)
    } else {
        i
    }
}

/// The number that the digits `s[a..b]` write in decimal.
pub open spec fn digits_value(s: Seq<u8>, a: int, b: int) -> int
    decreases b - a,
{
    if b <= a {
        0
    } else {
        digits_value(s, a, b - 1) * 10 + (s[b - 1] - DIGIT_ZERO)
    }
}

/// `a` and `b` agree before index `i`, and at `i` either `a` has ended while
/// `b` goes on, or `a` holds the smaller byte.
pub open spec fn differs_first_at(a: Seq<u8>, b: Seq<u8>, i: int) -> bool {
    &&& 0 <= i <= a.len()
    &&& i <= b.len()
    &&& forall|j: int| 0 <= j < i ==> a[j] == b[j]
    &&& (i == a.len() && i < b.len()) || (i < a.len() && i < b.len() && a[i] < b[i])
}

/// Strict lexicographic order on byte strings.
pub open spec fn bytes_lt(a: Seq<u8>, b: Seq<u8>) -> bool {
    exists|i: int| differs_first_at(a, b, i)
}

/// Whether the key `k` may follow the keys `seen` of one dictionary.
pub open spec fn key_accepted(seen: Seq<Seq<u8>>, k: Seq<u8>, o: KeyOrder) -> bool {
    match o {
        KeyOrder::Strict => seen.len() == 0 || bytes_lt(seen.last(), k),
        KeyOrder::Lenient => !seen.contains(k),
    }
}

/// `i<digits>e` at `p`: an optional `-`, then digits without a superfluous
/// leading zero, and no `-0`.
pub open spec fn spec_int(s: Seq<u8>, p: int) -> Result<(int, int), DecodeError> {
    let neg = p + 1 < s.len() && s[p + 1] == MINUS;
    let a = if neg { p + 2 } else { p + 1 };
    let b = digits_end(s, a);
    if b == a {
        Err(fail(ErrorKind::MalformedInteger, a))
    } else if b >= s.len() || s[b] != TAG_END {
        Err(fail(ErrorKind::MalformedInteger, b))
    } else if s[a] == DIGIT_ZERO && (neg || b > a + 1) {
        Err(fail(ErrorKind::MalformedInteger, a))
    } else {
        let m = digits_value(s, a, b);
        let n = if neg { -m } else { m };
        if n < i64::MIN || n > i64::MAX {
            Err(fail(ErrorKind::IntegerOverflow, a))
        } else {
            Ok((n, b + 1))
        }
    }
}

/// `<length>:<bytes>` at `p`.
pub open spec fn spec_str(s: Seq<u8>, p: int) -> Result<(Seq<u8>, int), DecodeError> {
    let b = digits_end(s, p);
    if b >= s.len() {
        Err(fail(ErrorKind::TruncatedString, b))
    } else if s[b] != COLON {
        Err(fail(ErrorKind::MalformedInteger, b))
    } else if s[p] == DIGIT_ZERO && b > p + 1 {
        Err(fail(ErrorKind::MalformedInteger, p))
    } else {
        let n = digits_value(s, p, b);
        if b + 1 + n > s.len() {
            Err(fail(ErrorKind::TruncatedString, b + 1))
        } else {
            Ok((s.subrange(b + 1, b + 1 + n), b + 1 + n))
        }
    }
}

/// Any value at `p`, met at nesting depth `d`.
pub open spec fn spec_value(s: Seq<u8>, p: int, d: int, o: KeyOrder) -> Result<(Tree, int), DecodeError>
    decreases s.len() - p, 1int,
{
    if p < 0 || p >= s.len() {
        Err(fail(ErrorKind::UnexpectedEnd, p))
    } else if s[p] == TAG_INT {
        match spec_int(s, p) {
            Ok((n, e)) => Ok((Tree::Int(n), e)),
            Err(x) => Err(x),
        }
    } else if is_digit(s[p]) {
        match spec_str(s, p) {
            Ok((b, e)) => Ok((Tree::Bytes(b), e)),
            Err(x) => Err(x),
        }
    } else if s[p] == TAG_LIST {
        match spec_list(s, p, d, o) {
            Ok((ts, e)) => Ok((Tree::List(ts), e)),
            Err(x) => Err(x),
        }
    } else if s[p] == TAG_DICT {
        match spec_dict(s, p, d, o) {
            Ok((es, e)) => Ok((Tree::Dict(es), e)),
            Err(x) => Err(x),
        }
    } else {
        Err(fail(ErrorKind::InvalidTag, p))
    }
}

/// `l<items>e` at `p`, met at nesting depth `d`.
pub open spec fn spec_list(s: Seq<u8>, p: int, d: int, o: KeyOrder) -> Result<(Seq<Tree>, int), DecodeError>
    decreases s.len() - p, 0int,
{
    if p < 0 || p >= s.len() {
        Err(fail(ErrorKind::UnexpectedEnd, p))
    } else if d >= MAX_DEPTH {
        Err(fail(ErrorKind::NestingTooDeep, p))
    } else {
        spec_items(s, p + 1, d + 1, o)
    }
}

/// The items of a list from `q` on, and its closing `e`.
pub open spec fn spec_items(s: Seq<u8>, q: int, d: int, o: KeyOrder) -> Result<(Seq<Tree>, int), DecodeError>
    decreases s.len() - q, 2int,
{
    if q < 0 || q >= s.len() {
        Err(fail(ErrorKind::UnexpectedEnd, q))
    } else if s[q] == TAG_END {
        Ok((Seq::empty(), q + 1))
    } else {
        match spec_value(s, q, d, o) {
            Err(x) => Err(x),
            Ok((t, e)) => if !(q < e <= s.len()) {
                Err(fail(ErrorKind::UnexpectedEnd, q))
            } else {
                match spec_items(s, e, d, o) {
                    Err(x) => Err(x),
                    Ok((ts, f)) => Ok((seq![t] + ts, f)),
                }
            },
        }
    }
}

/// `d<key><value>...e` at `p`, met at nesting depth `d`.
pub open spec fn spec_dict(s: Seq<u8>, p: int, d: int, o: KeyOrder) -> Result<(Seq<(Seq<u8>, Tree)>, int), DecodeError>
    decreases s.len() - p, 0int,
{
    if p < 0 || p >= s.len() {
        Err(fail(ErrorKind::UnexpectedEnd, p))
    } else if d >= MAX_DEPTH {
        Err(fail(ErrorKind::NestingTooDeep, p))
    } else {
        spec_entries(s, p + 1, d + 1, Seq::empty(), o)
    }
}

/// The entries of a dictionary from `q` on, and its closing `e`; `seen` holds
/// the keys of the entries before, in the order read.
pub open spec fn spec_entries(
    s: Seq<u8>,
    q: int,
    d: int,
    seen: Seq<Seq<u8>>,
    o: KeyOrder,
) -> Result<
    (Seq<(Seq<u8>, Tree)>, int),
    DecodeError,
>
    decreases s.len() - q, 2int,
{
    if q < 0 || q >= s.len() {
        Err(fail(ErrorKind::UnexpectedEnd, q))
    } else if s[q] == TAG_END {
        Ok((Seq::empty(), q + 1))
    } else if !is_digit(s[q]) {
        Err(fail(ErrorKind::InvalidKeyType, q))
    } else {
        match spec_str(s, q) {
            Err(x) => Err(x),
            Ok((k, kq)) => if !key_accepted(seen, k, o) {
                Err(fail(ErrorKind::DictionaryOrderingError, q))
            } else if !(q < kq <= s.len()) {
                Err(fail(ErrorKind::UnexpectedEnd, q))
            } else {
                match spec_value(s, kq, d, o) {
                    Err(x) => Err(x),
                    Ok((t, e)) => if !(kq < e <= s.len()) {
                        Err(fail(ErrorKind::UnexpectedEnd, q))
                    } else {
                        match spec_entries(s, e, d, seen.push(k), o) {
                            Err(x) => Err(x),
                            Ok((es, f)) => Ok((seq![(k, t)] + es, f)),
                        }
                    },
                }
            },
        }
    }
}

/// The values that follow one another from `q` to the end of the input.
pub open spec fn spec_all(s: Seq<u8>, q: int, o: KeyOrder) -> Result<Seq<Tree>, DecodeError>
    decreases s.len() - q,
{
    if q < 0 || q >= s.len() {
        Ok(Seq::empty())
    } else {
        match spec_value(s, q, 0, o) {
            Err(x) => Err(x),
            Ok((t, e)) => if !(q < e <= s.len()) {
                Err(fail(ErrorKind::UnexpectedEnd, q))
            } else {
                match spec_all(s, e, o) {
                    Err(x) => Err(x),
                    Ok(ts) => Ok(seq![t] + ts),
                }
            },
        }
    }
}

/// What decoding the whole input gives, with keys in strict order.
pub open spec fn decoded(s: Seq<u8>) -> Result<Seq<Tree>, DecodeError> {
    spec_all(s, 0, KeyOrder::Strict)
}

/// What decoding the whole input gives, with keys as `o` requires.
pub open spec fn decoded_with(s: Seq<u8>, o: KeyOrder) -> Result<Seq<Tree>, DecodeError> {
    spec_all(s, 0, o)
}

/// The value of a run of digits is not negative.
pub proof fn lemma_digits_value_nonneg(s: Seq<u8>, a: int, b: int)
    requires
        forall|k: int| a <= k < b ==> is_digit(#[trigger] s[k]),
    ensures
        digits_value(s, a, b) >= 0,
    decreases b - a,
{
    if b > a {
        lemma_digits_value_nonneg(s, a, b - 1);
    }
}

/// Reading more digits of a run never makes its value smaller.
pub proof fn lemma_digits_value_mono(s: Seq<u8>, a: int, i: int, b: int)
    requires
        a <= i <= b,
        forall|k: int| a <= k < b ==> is_digit(#[trigger] s[k]),
    ensures
        0 <= digits_value(s, a, i) <= digits_value(s, a, b),
    decreases b - i,
{
    lemma_digits_value_nonneg(s, a, i);
    if i < b {
        lemma_digits_value_mono(s, a, i, b - 1);
        lemma_digits_value_nonneg(s, a, b - 1);
    }
}

} // verus!
