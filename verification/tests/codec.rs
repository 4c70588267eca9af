use mini_redis::parser::DecodeError;
use mini_redis::parser::Value;
use mini_redis::parser::parse_int;
use mini_redis::parser::parse_message;
use mini_redis::parser::read_until;
use mini_redis::text::parse_u128;

#[test]
fn serialize_simple_string() {
    let v = Value::SimpleString("PONG".to_string());
    assert_eq!(v.serialize(), "+PONG\r\n");
}

#[test]
fn serialize_bulk_string() {
    let v = Value::BulkString("foo".to_string());
    assert_eq!(v.serialize(), "$3\r\nfoo\r\n");
}

#[test]
fn serialize_null_bulk_string() {
    assert_eq!(Value::NullBulkString().serialize(), "$-1\r\n");
}

#[test]
fn serialize_array() {
    let v = Value::Array(vec![
        Value::BulkString("ECHO".to_string()),
        Value::BulkString("foo".to_string()),
    ]);
    assert_eq!(v.serialize(), "*2\r\n$4\r\nECHO\r\n$3\r\nfoo\r\n");
}

#[test]
fn serialize_empty_array() {
    assert_eq!(Value::Array(vec![]).serialize(), "*0\r\n");
}

#[test]
fn serialize_text_verbatim() {
    let v = Value::Text("$5\r\nhello\r\n".to_string());
    assert_eq!(v.serialize(), "$5\r\nhello\r\n");
}

#[test]
fn decode_sequence_framing() {
    let r = parse_message(b"*2\r\n$4\r\nECHO\r\n$3\r\nfoo\r\n", 0);
    let expected = Value::Array(vec![
        Value::BulkString("ECHO".to_string()),
        Value::BulkString("foo".to_string()),
    ]);
    assert_eq!(r, Ok((expected, 23)));
}

#[test]
fn decode_partial_bulk_signals_incomplete() {
    assert_eq!(parse_message(b"$5\r\nhel", 0), Err(DecodeError::Incomplete));
}

#[test]
fn decode_partial_bulk_succeeds_once_complete() {
    let r = parse_message(b"$5\r\nhello\r\n", 0);
    assert_eq!(r, Ok((Value::BulkString("hello".to_string()), 11)));
}

#[test]
fn decode_simple_string() {
    let r = parse_message(b"+OK\r\n", 0);
    assert_eq!(r, Ok((Value::SimpleString("OK".to_string()), 5)));
}

#[test]
fn decode_null_bulk() {
    assert_eq!(parse_message(b"$-1\r\n", 0), Ok((Value::NullBulkString(), 5)));
}

#[test]
fn decode_bad_tag_is_malformed() {
    assert_eq!(parse_message(b"!boom\r\n", 0), Err(DecodeError::Malformed));
}

#[test]
fn decode_bad_count_is_malformed() {
    assert_eq!(parse_message(b"*x\r\n", 0), Err(DecodeError::Malformed));
    assert_eq!(parse_message(b"$zz\r\n", 0), Err(DecodeError::Malformed));
    assert_eq!(parse_message(b"$-2\r\n", 0), Err(DecodeError::Malformed));
}

#[test]
fn decode_unterminated_header_is_incomplete() {
    assert_eq!(parse_message(b"+OK", 0), Err(DecodeError::Incomplete));
    assert_eq!(parse_message(b"", 0), Err(DecodeError::Incomplete));
}

#[test]
fn round_trip_simple() {
    let encoded = Value::SimpleString("hello world".to_string()).serialize();
    let n = encoded.len();
    let r = parse_message(encoded.as_bytes(), 0);
    assert_eq!(r, Ok((Value::SimpleString("hello world".to_string()), n)));
}

#[test]
fn round_trip_bulk_with_crlf_payload() {
    let encoded = Value::BulkString("a\r\nb".to_string()).serialize();
    assert_eq!(encoded, "$4\r\na\r\nb\r\n");
    let n = encoded.len();
    let r = parse_message(encoded.as_bytes(), 0);
    assert_eq!(r, Ok((Value::BulkString("a\r\nb".to_string()), n)));
}

#[test]
fn round_trip_nested_array() {
    let encoded = Value::Array(vec![
        Value::Array(vec![Value::BulkString("a".to_string())]),
        Value::NullBulkString(),
        Value::SimpleString("ok".to_string()),
    ])
    .serialize();
    let n = encoded.len();
    let again = Value::Array(vec![
        Value::Array(vec![Value::BulkString("a".to_string())]),
        Value::NullBulkString(),
        Value::SimpleString("ok".to_string()),
    ]);
    assert_eq!(parse_message(encoded.as_bytes(), 0), Ok((again, n)));
}

#[test]
fn decode_at_offset() {
    let r = parse_message(b"+A\r\n+B\r\n", 4);
    assert_eq!(r, Ok((Value::SimpleString("B".to_string()), 4)));
}

#[test]
fn read_until_finds_first_crlf() {
    let r = read_until(b"abc\r\ndef\r\n", 0);
    assert_eq!(r, Some((b"abc".to_vec(), 5)));
    assert_eq!(read_until(b"abc", 0), None);
}

#[test]
fn parse_int_accepts_decimals() {
    assert_eq!(parse_int(b"123"), Ok(123));
    assert_eq!(parse_int(b"-1"), Ok(-1));
    assert_eq!(parse_int(b"+5"), Ok(5));
    assert_eq!(parse_int(b"0"), Ok(0));
    assert_eq!(parse_int(b"007"), Ok(7));
    assert_eq!(parse_int(b"9223372036854775807"), Ok(i64::MAX));
    assert_eq!(parse_int(b"-9223372036854775808"), Ok(i64::MIN));
}

#[test]
fn parse_int_rejects_junk() {
    assert_eq!(parse_int(b""), Err(DecodeError::Malformed));
    assert_eq!(parse_int(b"-"), Err(DecodeError::Malformed));
    assert_eq!(parse_int(b"12a"), Err(DecodeError::Malformed));
    assert_eq!(parse_int(b" 1"), Err(DecodeError::Malformed));
    assert_eq!(parse_int(b"9223372036854775808"), Err(DecodeError::Malformed));
    assert_eq!(parse_int(b"-9223372036854775809"), Err(DecodeError::Malformed));
}

#[test]
fn parse_u128_edges() {
    assert_eq!(parse_u128("0"), Some(0));
    assert_eq!(parse_u128("+7"), Some(7));
    assert_eq!(parse_u128("100"), Some(100));
    assert_eq!(
        parse_u128("340282366920938463463374607431768211455"),
        Some(u128::MAX)
    );
    assert_eq!(parse_u128("340282366920938463463374607431768211456"), None);
    assert_eq!(parse_u128("-1"), None);
    assert_eq!(parse_u128("12x"), None);
    assert_eq!(parse_u128(""), None);
}

#[test]
fn serialize_bulk_counts_bytes_not_chars() {
    // One character, two UTF-8 bytes: the length header must say 2.
    let v = Value::BulkString("\u{e9}".to_string());
    assert_eq!(v.serialize(), "$2\r\n\u{e9}\r\n");
}

#[test]
fn decode_bulk_with_multibyte_payload() {
    let wire = b"$2\r\n\xc3\xa9\r\n";
    let r = parse_message(wire, 0);
    assert_eq!(r, Ok((Value::BulkString("\u{e9}".to_string()), 8)));
}

#[test]
fn decode_invalid_utf8_payload_is_malformed() {
    assert_eq!(parse_message(b"$2\r\n\xff\xfe\r\n", 0), Err(DecodeError::Malformed));
}

#[test]
fn round_trip_non_ascii_bulk() {
    let encoded = Value::BulkString("h\u{e9}llo".to_string()).serialize();
    let n = encoded.len();
    assert_eq!(n, 12);
    let r = parse_message(encoded.as_bytes(), 0);
    assert_eq!(r, Ok((Value::BulkString("h\u{e9}llo".to_string()), n)));
}
