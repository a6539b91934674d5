use redis_starter_rust::command::resp::{Resp, RespBuilder, RespError};

/// Structural equality for decoded values.
fn resp_eq(a: &Resp, b: &Resp) -> bool {
    match (a, b) {
        (Resp::NullBulkString, Resp::NullBulkString) => true,
        (Resp::BulkString(x), Resp::BulkString(y)) => x == y,
        (Resp::SimpleString(x), Resp::SimpleString(y)) => x == y,
        (Resp::Array(xs), Resp::Array(ys)) => {
            xs.len() == ys.len() && xs.iter().zip(ys.iter()).all(|(x, y)| resp_eq(x, y))
        }
        _ => false,
    }
}

/// Feeds whole protocol text to a builder, as the transport would: split on
/// the line terminator, which ends each line rather than separating them.
fn builder_of(text: &str) -> RespBuilder {
    let mut pieces: Vec<&str> = text.split("\r\n").collect();
    if pieces.last() == Some(&"") {
        pieces.pop();
    }
    let mut b = RespBuilder::new();
    for line in pieces {
        b.push_line(line.to_string());
    }
    b
}

#[test]
fn encode_bulk_string() {
    let v = Resp::BulkString("abc".to_string());
    assert_eq!(v.encode(), "$3\r\nabc\r\n");
}

#[test]
fn encode_empty_bulk_string() {
    let v = Resp::BulkString(String::new());
    assert_eq!(v.encode(), "$0\r\n\r\n");
}

#[test]
fn encode_simple_string() {
    let v = Resp::SimpleString("PONG".to_string());
    assert_eq!(v.encode(), "+PONG\r\n");
}

#[test]
fn encode_null_bulk_string() {
    assert_eq!(Resp::NullBulkString.encode(), "$-1\r\n");
}

#[test]
fn encode_array() {
    let v = Resp::Array(vec![
        Resp::BulkString("dir".to_string()),
        Resp::BulkString("/data".to_string()),
    ]);
    assert_eq!(v.encode(), "*2\r\n$3\r\ndir\r\n$5\r\n/data\r\n");
}

#[test]
fn encode_nested_array() {
    let v = Resp::Array(vec![
        Resp::Array(vec![Resp::BulkString("a".to_string())]),
        Resp::BulkString("b".to_string()),
    ]);
    assert_eq!(v.encode(), "*2\r\n*1\r\n$1\r\na\r\n$1\r\nb\r\n");
}

#[test]
fn decode_bulk_string() {
    let mut b = builder_of("$3\r\nabc\r\n");
    match b.next_resp() {
        Ok(Resp::BulkString(s)) => assert_eq!(s, "abc"),
        other => panic!("unexpected: {other:?}"),
    }
}

#[test]
fn decode_bulk_string_length_mismatch() {
    let mut b = RespBuilder::new();
    b.push_line("$3".to_string());
    b.push_line("ab".to_string());
    assert_eq!(b.next_resp().unwrap_err(), RespError::BulkStringLength(3, 2));
}

#[test]
fn decode_array() {
    let mut b = builder_of("*2\r\n$3\r\nabc\r\n$2\r\nhi\r\n");
    match b.next_resp() {
        Ok(Resp::Array(items)) => {
            assert_eq!(items.len(), 2);
            assert!(resp_eq(&items[0], &Resp::BulkString("abc".to_string())));
            assert!(resp_eq(&items[1], &Resp::BulkString("hi".to_string())));
        }
        other => panic!("unexpected: {other:?}"),
    }
}

#[test]
fn decode_two_values_in_sequence() {
    let mut b = builder_of("$1\r\na\r\n$1\r\nb\r\n");
    match b.next_resp() {
        Ok(Resp::BulkString(s)) => assert_eq!(s, "a"),
        other => panic!("unexpected: {other:?}"),
    }
    match b.next_resp() {
        Ok(Resp::BulkString(s)) => assert_eq!(s, "b"),
        other => panic!("unexpected: {other:?}"),
    }
}

#[test]
fn decode_unrecognised_leading_character() {
    let mut b = RespBuilder::new();
    b.push_line("+PONG".to_string());
    assert_eq!(b.next_resp().unwrap_err(), RespError::Unrecognised('+'));
}

#[test]
fn decode_empty_line() {
    let mut b = RespBuilder::new();
    b.push_line(String::new());
    assert_eq!(b.next_resp().unwrap_err(), RespError::EmptySequence);
}

#[test]
fn decode_missing_array_length() {
    let mut b = RespBuilder::new();
    b.push_line("*x".to_string());
    assert_eq!(b.next_resp().unwrap_err(), RespError::MissingArrayLength);
    let mut b2 = RespBuilder::new();
    b2.push_line("*".to_string());
    assert_eq!(b2.next_resp().unwrap_err(), RespError::MissingArrayLength);
}

#[test]
fn decode_missing_bulk_string_length() {
    // `$-1` carries no non-negative length, so a null bulk string cannot be
    // decoded back; its header is a length error.
    let mut b = RespBuilder::new();
    b.push_line("$-1".to_string());
    assert_eq!(b.next_resp().unwrap_err(), RespError::MissingBulkStringLength);
}

#[test]
fn decode_exhausted_at_boundary() {
    let mut b = RespBuilder::new();
    assert_eq!(b.next_resp().unwrap_err(), RespError::Exhausted);
    assert!(b.at_end());
}

#[test]
fn decode_exhausted_mid_array_then_resumes() {
    let mut b = RespBuilder::new();
    b.push_line("*2".to_string());
    b.push_line("$1".to_string());
    b.push_line("a".to_string());
    assert_eq!(b.next_resp().unwrap_err(), RespError::Exhausted);
    assert!(!b.at_end());
    b.push_line("$1".to_string());
    b.push_line("b".to_string());
    match b.next_resp() {
        Ok(Resp::Array(items)) => assert_eq!(items.len(), 2),
        other => panic!("unexpected: {other:?}"),
    }
    assert!(b.at_end());
}

#[test]
fn round_trip_flat_array() {
    let v = Resp::Array(vec![
        Resp::BulkString("SET".to_string()),
        Resp::BulkString("key".to_string()),
        Resp::BulkString("value".to_string()),
    ]);
    let encoded = v.encode();
    let mut b = builder_of(&encoded);
    let back = b.next_resp().unwrap();
    assert!(resp_eq(&v, &back));
    assert!(b.at_end());
}

#[test]
fn round_trip_nested_array() {
    let v = Resp::Array(vec![
        Resp::Array(vec![
            Resp::BulkString("a".to_string()),
            Resp::Array(vec![]),
        ]),
        Resp::BulkString(String::new()),
        Resp::BulkString("xyz".to_string()),
    ]);
    let encoded = v.encode();
    let mut b = builder_of(&encoded);
    let back = b.next_resp().unwrap();
    assert!(resp_eq(&v, &back));
    assert!(b.at_end());
}

#[test]
fn encode_non_ascii_counts_bytes() {
    // é is two bytes in UTF-8, one character
    let v = Resp::BulkString("é".to_string());
    assert_eq!(v.encode(), "$2\r\né\r\n");
    let w = Resp::BulkString("→".to_string());
    assert_eq!(w.encode(), "$3\r\n→\r\n");
}

#[test]
fn decode_non_ascii_bulk_string() {
    let mut b = RespBuilder::new();
    b.push_line("$2".to_string());
    b.push_line("é".to_string());
    match b.next_resp() {
        Ok(Resp::BulkString(s)) => assert_eq!(s, "é"),
        other => panic!("unexpected: {other:?}"),
    }
}

#[test]
fn decode_non_ascii_length_mismatch_counts_bytes() {
    let mut b = RespBuilder::new();
    b.push_line("$1".to_string());
    b.push_line("é".to_string());
    assert_eq!(b.next_resp().unwrap_err(), RespError::BulkStringLength(1, 2));
}

#[test]
fn round_trip_non_ascii_array() {
    let v = Resp::Array(vec![
        Resp::BulkString("héllo".to_string()),
        Resp::BulkString("→".to_string()),
    ]);
    let mut b = builder_of(&v.encode());
    let back = b.next_resp().unwrap();
    assert!(resp_eq(&v, &back));
    assert!(b.at_end());
}

#[test]
fn round_trip_bulk_string() {
    let v = Resp::BulkString("hello world".to_string());
    let mut b = builder_of(&v.encode());
    let back = b.next_resp().unwrap();
    assert!(resp_eq(&v, &back));
    assert!(b.at_end());
}
