use bencode::{parse, parse_dict, parse_int, parse_list, parse_str, parse_value, parse_with};
use bencode::{DecodeError, ErrorKind, KeyOrder, Value, MAX_DEPTH};

fn err(kind: ErrorKind, offset: usize) -> DecodeError {
    DecodeError { kind, offset }
}

fn bytes(s: &str) -> Value {
    Value::ByteString(s.as_bytes().to_vec())
}

#[test]
fn empty_string_and_spam() {
    assert_eq!(parse_value(b"0:", 0, 0, KeyOrder::Strict), Ok((bytes(""), 2)));
    assert_eq!(parse_value(b"4:spam", 0, 0, KeyOrder::Strict), Ok((bytes("spam"), 6)));
    assert_eq!(parse(b"4:spam"), Ok(vec![bytes("spam")]));
}

#[test]
fn integers_decode() {
    assert_eq!(parse_value(b"i42e", 0, 0, KeyOrder::Strict), Ok((Value::Integer(42), 4)));
    assert_eq!(parse_value(b"i-42e", 0, 0, KeyOrder::Strict), Ok((Value::Integer(-42), 5)));
    assert_eq!(parse_value(b"i0e", 0, 0, KeyOrder::Strict), Ok((Value::Integer(0), 3)));
}

#[test]
fn malformed_integers() {
    assert_eq!(parse(b"i-0e"), Err(err(ErrorKind::MalformedInteger, 2)));
    assert_eq!(parse(b"i042e"), Err(err(ErrorKind::MalformedInteger, 1)));
    assert_eq!(parse(b"ie"), Err(err(ErrorKind::MalformedInteger, 1)));
    assert_eq!(parse(b"i-e"), Err(err(ErrorKind::MalformedInteger, 2)));
    assert_eq!(parse(b"i4x2e"), Err(err(ErrorKind::MalformedInteger, 2)));
}

#[test]
fn integer_bounds() {
    assert_eq!(parse(b"i9223372036854775807e"), Ok(vec![Value::Integer(i64::MAX)]));
    assert_eq!(parse(b"i-9223372036854775808e"), Ok(vec![Value::Integer(i64::MIN)]));
    assert_eq!(parse(b"i9223372036854775808e"), Err(err(ErrorKind::IntegerOverflow, 1)));
    assert_eq!(parse(b"i-9223372036854775809e"), Err(err(ErrorKind::IntegerOverflow, 2)));
    assert_eq!(parse(b"i123456789012345678901234567890e"), Err(err(ErrorKind::IntegerOverflow, 1)));
}

#[test]
fn integer_round_trip_samples() {
    for n in [0i64, 1, -1, 9, 10, -10, 1234567, i64::MAX, i64::MIN] {
        let text = format!("i{}e", n);
        assert_eq!(parse_int(text.as_bytes(), 0), Ok((n, text.len())));
    }
}

#[test]
fn list_of_two_strings() {
    let input = b"l4:spam4:eggse";
    assert_eq!(parse_value(input, 0, 0, KeyOrder::Strict), Ok((Value::List(vec![bytes("spam"), bytes("eggs")]), 14)));
    assert_eq!(parse_list(input, 0, 0, KeyOrder::Strict), Ok((vec![bytes("spam"), bytes("eggs")], 14)));
}

#[test]
fn dictionary_in_key_order() {
    let input = b"d3:cow3:moo4:spam4:eggse";
    let expected = vec![
        (b"cow".to_vec(), bytes("moo")),
        (b"spam".to_vec(), bytes("eggs")),
    ];
    assert_eq!(parse_dict(input, 0, 0, KeyOrder::Strict), Ok((expected, 24)));
}

#[test]
fn dictionary_out_of_order() {
    assert_eq!(
        parse(b"d4:spam4:eggs3:cow3:mooe"),
        Err(err(ErrorKind::DictionaryOrderingError, 13))
    );
}

#[test]
fn dictionary_duplicate_key() {
    assert_eq!(parse(b"d1:a1:b1:a1:ce"), Err(err(ErrorKind::DictionaryOrderingError, 7)));
}

#[test]
fn dictionary_key_prefix_orders_first() {
    let expected = vec![(b"a".to_vec(), Value::Integer(1)), (b"ab".to_vec(), Value::Integer(2))];
    assert_eq!(parse(b"d1:ai1e2:abi2ee"), Ok(vec![Value::Dictionary(expected)]));
    assert_eq!(parse(b"d2:abi2e1:ai1ee"), Err(err(ErrorKind::DictionaryOrderingError, 8)));
}

#[test]
fn dictionary_key_must_be_string() {
    assert_eq!(parse(b"di1ei2ee"), Err(err(ErrorKind::InvalidKeyType, 1)));
}

#[test]
fn truncated_inputs() {
    assert_eq!(parse(b"4:sp"), Err(err(ErrorKind::TruncatedString, 2)));
    assert_eq!(parse(b"i1"), Err(err(ErrorKind::MalformedInteger, 2)));
    assert_eq!(parse(b"l4:spam"), Err(err(ErrorKind::UnexpectedEnd, 7)));
    assert_eq!(parse(b"d"), Err(err(ErrorKind::UnexpectedEnd, 1)));
    assert_eq!(parse(b"d1:a"), Err(err(ErrorKind::UnexpectedEnd, 4)));
    assert_eq!(parse(b"12"), Err(err(ErrorKind::TruncatedString, 2)));
    assert_eq!(parse(b"18446744073709551616:x"), Err(err(ErrorKind::TruncatedString, 21)));
}

#[test]
fn malformed_length_prefix() {
    assert_eq!(parse(b"04:spam"), Err(err(ErrorKind::MalformedInteger, 0)));
    assert_eq!(parse(b"4xspam"), Err(err(ErrorKind::MalformedInteger, 1)));
}

#[test]
fn invalid_tag() {
    assert_eq!(parse(b"x"), Err(err(ErrorKind::InvalidTag, 0)));
    assert_eq!(parse(b"i1ex"), Err(err(ErrorKind::InvalidTag, 3)));
    assert_eq!(parse(b"l-e"), Err(err(ErrorKind::InvalidTag, 1)));
}

#[test]
fn nesting_too_deep() {
    let input = vec![b'l'; 1000];
    assert_eq!(parse(&input), Err(err(ErrorKind::NestingTooDeep, MAX_DEPTH)));
    let mut closed = vec![b'l'; 1000];
    closed.extend(vec![b'e'; 1000]);
    assert_eq!(parse(&closed), Err(err(ErrorKind::NestingTooDeep, MAX_DEPTH)));
}

#[test]
fn nesting_at_limit() {
    let mut input = vec![b'l'; MAX_DEPTH];
    input.extend(vec![b'e'; MAX_DEPTH]);
    let r = parse(&input);
    assert!(r.is_ok());
    let mut depth = 0;
    let mut v = &r.unwrap()[0];
    while let Value::List(items) = v {
        depth += 1;
        if items.is_empty() {
            break;
        }
        v = &items[0];
    }
    assert_eq!(depth, MAX_DEPTH);
}

#[test]
fn input_left_unchanged() {
    let input = b"d3:cow3:moo4:spam4:eggse".to_vec();
    let copy = input.clone();
    let _ = parse(&input);
    assert_eq!(input, copy);
    let bad = b"l4:spam".to_vec();
    let _ = parse(&bad);
    assert_eq!(bad, b"l4:spam".to_vec());
}

#[test]
fn empty_input_and_sequences() {
    assert_eq!(parse(b""), Ok(vec![]));
    assert_eq!(
        parse(b"i1e4:spamle"),
        Ok(vec![Value::Integer(1), bytes("spam"), Value::List(vec![])])
    );
    assert_eq!(parse(b"de"), Ok(vec![Value::Dictionary(vec![])]));
}

#[test]
fn binary_payload() {
    let input = [b'3', b':', 0u8, b':', 0xffu8];
    assert_eq!(parse_str(&input, 0), Ok((vec![0u8, b':', 0xff], 5)));
}

#[test]
fn nested_structures() {
    let input = b"d4:listli1eli2eee4:nestd1:xi-3eee";
    let expected = Value::Dictionary(vec![
        (
            b"list".to_vec(),
            Value::List(vec![Value::Integer(1), Value::List(vec![Value::Integer(2)])]),
        ),
        (b"nest".to_vec(), Value::Dictionary(vec![(b"x".to_vec(), Value::Integer(-3))])),
    ]);
    assert_eq!(parse_value(input, 0, 0, KeyOrder::Strict), Ok((expected, input.len())));
}

#[test]
fn value_past_end() {
    assert_eq!(parse_value(b"i1e", 3, 0, KeyOrder::Strict), Err(err(ErrorKind::UnexpectedEnd, 3)));
    assert_eq!(parse_value(b"xxi7e", 2, 0, KeyOrder::Strict), Ok((Value::Integer(7), 5)));
}

#[test]
fn lenient_accepts_any_key_order() {
    let expected = vec![(b"spam".to_vec(), bytes("eggs")), (b"cow".to_vec(), bytes("moo"))];
    assert_eq!(
        parse_with(b"d4:spam4:eggs3:cow3:mooe", KeyOrder::Lenient),
        Ok(vec![Value::Dictionary(expected)])
    );
}

#[test]
fn lenient_rejects_duplicate_keys() {
    assert_eq!(
        parse_with(b"d1:b1:x1:a1:y1:bi3ee", KeyOrder::Lenient),
        Err(err(ErrorKind::DictionaryOrderingError, 13))
    );
    assert_eq!(
        parse_dict(b"d1:a1:b1:a1:ce", 0, 0, KeyOrder::Lenient),
        Err(err(ErrorKind::DictionaryOrderingError, 7))
    );
}

#[test]
fn strict_is_the_default() {
    let input = b"d1:bi1e1:ai2ee";
    assert_eq!(parse(input), parse_with(input, KeyOrder::Strict));
    assert_eq!(parse(input), Err(err(ErrorKind::DictionaryOrderingError, 7)));
    assert!(parse_with(input, KeyOrder::Lenient).is_ok());
}
