use bencode_torrent::decode::{decode, parse_bencode_value, DecodeError, ErrorKind, Expected};
use bencode_torrent::encode::encode;
use bencode_torrent::order::{lex_order, Order};
use bencode_torrent::value::{Dictionary, Value};
use serde_bencode::value::Value as Other;
use std::collections::HashMap;

fn parse(input: &[u8]) -> Result<(Value, usize), DecodeError> {
    parse_bencode_value(input, 0)
}

fn bytes(text: &str) -> Value {
    Value::ByteString(text.as_bytes().to_vec())
}

fn failure(kind: ErrorKind, expected: Expected, offset: usize) -> Result<(Value, usize), DecodeError> {
    Err(DecodeError { kind, expected, offset })
}

fn dictionary(pairs: Vec<(&str, Value)>) -> Value {
    let mut d = Dictionary::new();
    for (key, value) in pairs {
        d.insert(key.as_bytes().to_vec(), value);
    }
    Value::Dictionary(d)
}

#[test]
fn decode_byte_string() {
    assert_eq!(parse(b"4:spam"), Ok((bytes("spam"), 6)));
}

#[test]
fn decode_positive_integer() {
    assert_eq!(parse(b"i3e"), Ok((Value::Integer(3), 3)));
}

#[test]
fn decode_negative_integer() {
    assert_eq!(parse(b"i-3e"), Ok((Value::Integer(-3), 4)));
}

#[test]
fn decode_list() {
    assert_eq!(
        parse(b"l4:spam4:eggse"),
        Ok((Value::List(vec![bytes("spam"), bytes("eggs")]), 14))
    );
}

#[test]
fn decode_dictionary() {
    let want = dictionary(vec![("cow", bytes("moo")), ("spam", bytes("eggs"))]);
    assert_eq!(parse(b"d3:cow3:moo4:spam4:eggse"), Ok((want, 24)));
}

#[test]
fn decode_detects_truncated_byte_string() {
    assert_eq!(
        parse(b"5:abc"),
        failure(ErrorKind::Truncation, Expected::Payload, 5)
    );
}

#[test]
fn decode_rejects_empty_input() {
    assert_eq!(parse(b""), failure(ErrorKind::Truncation, Expected::Term, 0));
}

#[test]
fn decode_rejects_unknown_lead_byte() {
    assert_eq!(parse(b"x"), failure(ErrorKind::Malformed, Expected::Term, 0));
    assert_eq!(parse(b"e"), failure(ErrorKind::Malformed, Expected::Term, 0));
    assert_eq!(parse(b"li1eXe"), failure(ErrorKind::Malformed, Expected::Term, 4));
}

#[test]
fn decode_byte_string_without_colon() {
    assert_eq!(parse(b"4"), failure(ErrorKind::Truncation, Expected::Colon, 1));
    assert_eq!(parse(b"4spam"), failure(ErrorKind::Malformed, Expected::Colon, 1));
}

#[test]
fn decode_empty_byte_string() {
    assert_eq!(parse(b"0:"), Ok((bytes(""), 2)));
}

#[test]
fn decode_length_with_leading_zero_is_read() {
    assert_eq!(parse(b"04:spam"), Ok((bytes("spam"), 7)));
}

#[test]
fn decode_length_beyond_any_input_is_truncation() {
    assert_eq!(
        parse(b"99999999999999999999999999999999:ab"),
        failure(ErrorKind::Truncation, Expected::Payload, 35)
    );
}

#[test]
fn decode_byte_string_that_is_no_utf8() {
    assert_eq!(
        parse(&[b'3', b':', 0xff, 0x00, 0xfe]),
        Ok((Value::ByteString(vec![0xff, 0x00, 0xfe]), 5))
    );
}

#[test]
fn decode_leaves_what_follows_the_term() {
    assert_eq!(parse(b"i3eabc"), Ok((Value::Integer(3), 3)));
    assert_eq!(parse_bencode_value(b"i3e4:spam", 3), Ok((bytes("spam"), 9)));
    assert_eq!(decode(b"i3eabc"), Ok((Value::Integer(3), &b"abc"[..])));
    assert_eq!(decode(b"4:spam"), Ok((bytes("spam"), &b""[..])));
    assert_eq!(decode(b"le4:spam"), Ok((Value::List(vec![]), &b"4:spam"[..])));
}

#[test]
fn parse_beyond_the_input_is_truncation() {
    assert_eq!(
        parse_bencode_value(b"i3e", 7),
        failure(ErrorKind::Truncation, Expected::Term, 3)
    );
}

#[test]
fn decode_zero() {
    assert_eq!(parse(b"i0e"), Ok((Value::Integer(0), 3)));
}

#[test]
fn decode_rejects_leading_zero() {
    assert_eq!(
        parse(b"i03e"),
        failure(ErrorKind::Malformed, Expected::NoLeadingZero, 1)
    );
    assert_eq!(
        parse(b"i-03e"),
        failure(ErrorKind::Malformed, Expected::NoLeadingZero, 2)
    );
    assert_eq!(
        parse(b"i00e"),
        failure(ErrorKind::Malformed, Expected::NoLeadingZero, 1)
    );
}

#[test]
fn decode_rejects_negative_zero() {
    assert_eq!(
        parse(b"i-0e"),
        failure(ErrorKind::Malformed, Expected::NoNegativeZero, 2)
    );
}

#[test]
fn decode_rejects_integer_without_digits() {
    assert_eq!(parse(b"ie"), failure(ErrorKind::Malformed, Expected::Digit, 1));
    assert_eq!(parse(b"i-e"), failure(ErrorKind::Malformed, Expected::Digit, 2));
}

#[test]
fn decode_rejects_plus_sign_and_other_bytes() {
    assert_eq!(
        parse(b"i+3e"),
        failure(ErrorKind::Malformed, Expected::IntegerEnd, 1)
    );
    assert_eq!(
        parse(b"i12x4e"),
        failure(ErrorKind::Malformed, Expected::IntegerEnd, 3)
    );
    assert_eq!(
        parse(b"i--1e"),
        failure(ErrorKind::Malformed, Expected::IntegerEnd, 2)
    );
}

#[test]
fn decode_integer_without_end() {
    assert_eq!(
        parse(b"i12"),
        failure(ErrorKind::Truncation, Expected::IntegerEnd, 3)
    );
    assert_eq!(parse(b"i"), failure(ErrorKind::Truncation, Expected::IntegerEnd, 1));
    assert_eq!(parse(b"i-"), failure(ErrorKind::Truncation, Expected::IntegerEnd, 2));
}

#[test]
fn decode_integer_limits() {
    assert_eq!(
        parse(b"i9223372036854775807e"),
        Ok((Value::Integer(i64::MAX), 21))
    );
    assert_eq!(
        parse(b"i-9223372036854775808e"),
        Ok((Value::Integer(i64::MIN), 22))
    );
    assert_eq!(
        parse(b"i9223372036854775808e"),
        failure(ErrorKind::Malformed, Expected::IntegerInRange, 1)
    );
    assert_eq!(
        parse(b"i-9223372036854775809e"),
        failure(ErrorKind::Malformed, Expected::IntegerInRange, 2)
    );
    assert_eq!(
        parse(b"i123456789012345678901234567890e"),
        failure(ErrorKind::Malformed, Expected::IntegerInRange, 1)
    );
}

#[test]
fn decode_empty_list_and_dictionary() {
    assert_eq!(parse(b"le"), Ok((Value::List(vec![]), 2)));
    assert_eq!(parse(b"de"), Ok((Value::Dictionary(Dictionary::new()), 2)));
}

#[test]
fn decode_nested() {
    let want = dictionary(vec![
        ("a", Value::List(vec![Value::Integer(1), Value::List(vec![])])),
        ("b", dictionary(vec![("c", bytes("d"))])),
    ]);
    assert_eq!(parse(b"d1:ali1elee1:bd1:c1:dee"), Ok((want, 23)));
}

#[test]
fn decode_unterminated_list_is_truncation() {
    assert_eq!(
        parse(b"l4:spam"),
        failure(ErrorKind::Truncation, Expected::ItemOrEnd, 7)
    );
    assert_eq!(parse(b"l"), failure(ErrorKind::Truncation, Expected::ItemOrEnd, 1));
}

#[test]
fn decode_unterminated_dictionary_is_truncation() {
    assert_eq!(
        parse(b"d3:cow3:moo"),
        failure(ErrorKind::Truncation, Expected::ItemOrEnd, 11)
    );
    assert_eq!(
        parse(b"d3:cow"),
        failure(ErrorKind::Truncation, Expected::Term, 6)
    );
}

#[test]
fn decode_rejects_key_that_is_no_byte_string() {
    assert_eq!(
        parse(b"di1e4:spame"),
        failure(ErrorKind::TypeMismatch, Expected::ByteStringKey, 1)
    );
    assert_eq!(
        parse(b"d3:cow3:mooli1ee1:xe"),
        failure(ErrorKind::TypeMismatch, Expected::ByteStringKey, 11)
    );
}

#[test]
fn decode_rejects_duplicate_key() {
    assert_eq!(
        parse(b"d3:cow3:moo3:cow4:eggse"),
        failure(ErrorKind::Malformed, Expected::FreshKey, 11)
    );
}

#[test]
fn decode_reports_error_inside_nested_term() {
    assert_eq!(
        parse(b"l4:spami03ee"),
        failure(ErrorKind::Malformed, Expected::NoLeadingZero, 8)
    );
}

#[test]
fn decode_takes_keys_in_any_order() {
    let (value, used) = parse(b"d4:spam4:eggs3:cow3:mooe").unwrap();
    assert_eq!(used, 24);
    assert_eq!(
        value,
        dictionary(vec![("cow", bytes("moo")), ("spam", bytes("eggs"))])
    );
    assert_eq!(encode(&value), b"d3:cow3:moo4:spam4:eggse".to_vec());
}

#[test]
fn encode_byte_string() {
    assert_eq!(encode(&bytes("spam")), b"4:spam".to_vec());
    assert_eq!(encode(&bytes("")), b"0:".to_vec());
    assert_eq!(
        encode(&Value::ByteString(vec![0u8; 12])),
        [b"12:".to_vec(), vec![0u8; 12]].concat()
    );
}

#[test]
fn encode_integer() {
    assert_eq!(encode(&Value::Integer(3)), b"i3e".to_vec());
    assert_eq!(encode(&Value::Integer(-3)), b"i-3e".to_vec());
    assert_eq!(encode(&Value::Integer(0)), b"i0e".to_vec());
    assert_eq!(encode(&Value::Integer(1050)), b"i1050e".to_vec());
    assert_eq!(
        encode(&Value::Integer(i64::MAX)),
        b"i9223372036854775807e".to_vec()
    );
    assert_eq!(
        encode(&Value::Integer(i64::MIN)),
        b"i-9223372036854775808e".to_vec()
    );
}

#[test]
fn encode_list_and_dictionary() {
    assert_eq!(
        encode(&Value::List(vec![bytes("spam"), bytes("eggs")])),
        b"l4:spam4:eggse".to_vec()
    );
    assert_eq!(encode(&Value::List(vec![])), b"le".to_vec());
    assert_eq!(encode(&Value::Dictionary(Dictionary::new())), b"de".to_vec());
}

#[test]
fn encode_sorts_keys_whatever_the_insertion_order() {
    let orders: [[usize; 3]; 6] = [
        [0, 1, 2],
        [0, 2, 1],
        [1, 0, 2],
        [1, 2, 0],
        [2, 0, 1],
        [2, 1, 0],
    ];
    let pairs = [("b", 2i64), ("a", 1), ("ab", 3)];
    for order in orders {
        let mut d = Dictionary::new();
        for i in order {
            d.insert(pairs[i].0.as_bytes().to_vec(), Value::Integer(pairs[i].1));
        }
        assert_eq!(
            encode(&Value::Dictionary(d)),
            b"d1:ai1e2:abi3e1:bi2ee".to_vec()
        );
    }
}

#[test]
fn keys_are_ordered_by_raw_byte_value() {
    let mut d = Dictionary::new();
    d.insert(vec![0xff], Value::Integer(1));
    d.insert(vec![b'a'], Value::Integer(2));
    d.insert(vec![b'Z'], Value::Integer(3));
    d.insert(vec![], Value::Integer(4));
    d.insert(vec![b'a', 0x00], Value::Integer(5));
    assert_eq!(d.len(), 5);
    assert_eq!(d.key_at(0), &Vec::<u8>::new());
    assert_eq!(d.key_at(1), &vec![b'Z']);
    assert_eq!(d.key_at(2), &vec![b'a']);
    assert_eq!(d.key_at(3), &vec![b'a', 0x00]);
    assert_eq!(d.key_at(4), &vec![0xff]);
    assert_eq!(d.value_at(4), &Value::Integer(1));
}

#[test]
fn insert_replaces_a_binding() {
    let mut d = Dictionary::new();
    assert!(!d.insert(b"k".to_vec(), Value::Integer(1)));
    assert!(d.insert(b"k".to_vec(), Value::Integer(2)));
    assert_eq!(d.len(), 1);
    assert_eq!(d.get(b"k"), Some(&Value::Integer(2)));
    assert_eq!(d.get(b"j"), None);
    assert!(d.contains_key(b"k"));
    assert!(!d.contains_key(b""));
}

#[test]
fn lexicographic_order() {
    assert_eq!(lex_order(b"", b""), Order::Equal);
    assert_eq!(lex_order(b"", b"a"), Order::Less);
    assert_eq!(lex_order(b"a", b""), Order::Greater);
    assert_eq!(lex_order(b"abc", b"abd"), Order::Less);
    assert_eq!(lex_order(b"abc", b"ab"), Order::Greater);
    assert_eq!(lex_order(b"piece length", b"pieces"), Order::Less);
    assert_eq!(lex_order(&[0x7f], &[0x80]), Order::Less);
    assert_eq!(lex_order(b"same", b"same"), Order::Equal);
}

#[test]
fn round_trip_of_canonical_bytes() {
    let samples: Vec<&[u8]> = vec![
        b"4:spam",
        b"0:",
        b"i0e",
        b"i-42e",
        b"le",
        b"de",
        b"l4:spam4:eggse",
        b"d3:cow3:moo4:spam4:eggse",
        b"d1:ali1elee1:bd1:c1:dee",
        b"d4:infod6:lengthi92063e4:name10:sample.txt12:piece lengthi32768eee",
    ];
    for sample in samples {
        let (value, used) = parse(sample).unwrap();
        assert_eq!(used, sample.len());
        assert_eq!(encode(&value), sample.to_vec());
    }
}

#[test]
fn round_trip_of_values() {
    let value = dictionary(vec![
        ("zeta", Value::List(vec![Value::Integer(i64::MIN), bytes("")])),
        ("alpha", Value::ByteString(vec![0, 255, b':', b'e'])),
        ("mid", dictionary(vec![("x", Value::Integer(7))])),
    ]);
    let encoded = encode(&value);
    assert_eq!(parse(&encoded), Ok((value, encoded.len())));
}

#[test]
fn agrees_with_serde_bencode() {
    let mut inner = HashMap::new();
    inner.insert(b"spam".to_vec(), Other::Bytes(b"eggs".to_vec()));
    inner.insert(b"cow".to_vec(), Other::Int(-7));
    inner.insert(
        b"list".to_vec(),
        Other::List(vec![Other::Int(0), Other::Bytes(vec![])]),
    );
    let theirs = serde_bencode::to_bytes(&Other::Dict(inner)).unwrap();
    let ours = dictionary(vec![
        ("spam", bytes("eggs")),
        ("cow", Value::Integer(-7)),
        ("list", Value::List(vec![Value::Integer(0), bytes("")])),
    ]);
    assert_eq!(encode(&ours), theirs);
    assert_eq!(parse(&theirs), Ok((ours, theirs.len())));
}

#[test]
fn clone_keeps_the_value() {
    let value = dictionary(vec![
        ("list", Value::List(vec![Value::Integer(-1), bytes("x")])),
        ("inner", dictionary(vec![("k", bytes("v"))])),
    ]);
    let copy = value.clone();
    assert_eq!(copy, value);
    assert_eq!(encode(&copy), encode(&value));
}

#[test]
fn decode_literal_vectors() {
    assert_eq!(decode(b"4:spam").unwrap().0, bytes("spam"));
    assert_eq!(decode(b"i3e").unwrap().0, Value::Integer(3));
    assert_eq!(decode(b"i-3e").unwrap().0, Value::Integer(-3));
    assert_eq!(
        decode(b"l4:spam4:eggse").unwrap().0,
        Value::List(vec![bytes("spam"), bytes("eggs")])
    );
    assert_eq!(
        decode(b"d3:cow3:moo4:spam4:eggse").unwrap().0,
        dictionary(vec![("cow", bytes("moo")), ("spam", bytes("eggs"))])
    );
}

#[test]
fn decode_fails_as_the_cursor_form_does() {
    assert_eq!(
        decode(b"5:abc"),
        Err(DecodeError { kind: ErrorKind::Truncation, expected: Expected::Payload, offset: 5 })
    );
    assert_eq!(
        decode(b""),
        Err(DecodeError { kind: ErrorKind::Truncation, expected: Expected::Term, offset: 0 })
    );
}

#[test]
fn every_proper_prefix_is_a_truncation() {
    let samples: Vec<&[u8]> = vec![
        b"4:spam",
        b"12:twelve bytes",
        b"i0e",
        b"i-9223372036854775808e",
        b"le",
        b"de",
        b"l4:spaml4:eggsi7eee",
        b"d1:ali1elee1:bd1:c1:dee",
        b"d4:infod6:lengthi92063e4:name10:sample.txt12:piece lengthi32768eee",
    ];
    for sample in samples {
        assert_eq!(parse(sample).unwrap().1, sample.len());
        for cut in 0..sample.len() {
            let error = parse(&sample[..cut]).unwrap_err();
            assert_eq!(error.kind, ErrorKind::Truncation);
            assert_eq!(error.offset, cut);
        }
    }
}

#[test]
fn key_that_is_no_byte_string_at_any_depth() {
    assert_eq!(
        parse(b"d1:adi1e1:xee"),
        failure(ErrorKind::TypeMismatch, Expected::ByteStringKey, 5)
    );
    assert_eq!(
        parse(b"l4:spamd1:ald1:bi2elei3eeeee"),
        failure(ErrorKind::TypeMismatch, Expected::ByteStringKey, 19)
    );
    assert_eq!(
        parse(b"ldd1:ai1eeee"),
        failure(ErrorKind::TypeMismatch, Expected::ByteStringKey, 2)
    );
}
