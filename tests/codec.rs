use redis_lite::codec::{
    parse_resp, write_bulk_string, write_nil_bulk_string, write_ok, write_resp, write_simple_error,
    write_simple_string, FrameReader, RespProtocolError, ResponseType, READ_BUFFER_SIZE,
};

fn bulk_bytes(v: &ResponseType) -> Vec<u8> {
    match v {
        ResponseType::BulkString(b) => b.clone(),
        ResponseType::Array(_) => panic!("expected a bulk string"),
    }
}

fn array_items(v: &ResponseType) -> &Vec<ResponseType> {
    match v {
        ResponseType::Array(items) => items,
        ResponseType::BulkString(_) => panic!("expected an array"),
    }
}

#[test]
fn decodes_echo_request() {
    let input = b"*2\r\n$4\r\nECHO\r\n$3\r\nhey\r\n";
    let parsed = parse_resp(input).unwrap().unwrap();
    assert_eq!(parsed.consumed, 23);
    let items = array_items(&parsed.request);
    assert_eq!(items.len(), 2);
    assert_eq!(bulk_bytes(&items[0]), b"ECHO".to_vec());
    assert_eq!(bulk_bytes(&items[1]), b"hey".to_vec());
}

#[test]
fn negative_bulk_length_is_invalid() {
    match parse_resp(b"$-1\r\n") {
        Err(RespProtocolError::BulkStringInvalidLength(text)) => assert_eq!(text, "-1"),
        _ => panic!("expected BulkStringInvalidLength"),
    }
}

#[test]
fn malformed_bulk_length_is_invalid() {
    match parse_resp(b"$abc\r\nxyz\r\n") {
        Err(RespProtocolError::BulkStringInvalidLength(text)) => assert_eq!(text, "abc"),
        _ => panic!("expected BulkStringInvalidLength"),
    }
}

#[test]
fn malformed_array_count_is_invalid() {
    match parse_resp(b"*x1\r\n") {
        Err(RespProtocolError::ArrayNumElementsInvalidLength(text)) => assert_eq!(text, "x1"),
        _ => panic!("expected ArrayNumElementsInvalidLength"),
    }
}

#[test]
fn unknown_tag_is_unhandled() {
    match parse_resp(b"+OK\r\n") {
        Err(RespProtocolError::UnhandledRespDataType(c)) => assert_eq!(c, '+'),
        _ => panic!("expected UnhandledRespDataType"),
    }
}

#[test]
fn missing_bytes_are_incomplete() {
    assert!(matches!(parse_resp(b""), Ok(None)));
    assert!(matches!(parse_resp(b"*2\r\n$4\r\nEC"), Ok(None)));
    assert!(matches!(parse_resp(b"$5\r\nab"), Ok(None)));
    assert!(matches!(parse_resp(b"*1\r\n$1\r\na"), Ok(None)));
}

#[test]
fn bulk_string_leaves_its_closing_crlf() {
    let parsed = parse_resp(b"$3\r\nhey\r\n").unwrap().unwrap();
    assert_eq!(parsed.consumed, 7);
    assert_eq!(bulk_bytes(&parsed.request), b"hey".to_vec());
}

#[test]
fn negative_array_count_is_empty_array() {
    let parsed = parse_resp(b"*-1\r\n").unwrap().unwrap();
    assert_eq!(parsed.consumed, 5);
    assert!(array_items(&parsed.request).is_empty());
}

#[test]
fn encoders_write_exact_bytes() {
    let mut out = Vec::new();
    write_simple_string(&mut out, b"PONG");
    write_simple_error(&mut out, b"bad");
    write_nil_bulk_string(&mut out);
    write_ok(&mut out);
    write_bulk_string(&mut out, b"hello");
    assert_eq!(out, b"+PONG\r\n-bad\r\n$-1\r\n+OK\r\n$5\r\nhello\r\n".to_vec());
}

#[test]
fn nested_array_encodes_depth_first() {
    let value = ResponseType::Array(vec![
        ResponseType::BulkString(b"a".to_vec()),
        ResponseType::Array(vec![ResponseType::BulkString(b"bc".to_vec())]),
    ]);
    let mut out = Vec::new();
    write_resp(&mut out, &value);
    assert_eq!(out, b"*2\r\n$1\r\na\r\n*1\r\n$2\r\nbc\r\n".to_vec());
}

#[test]
fn encode_then_decode_gives_value_back() {
    let value = ResponseType::Array(vec![
        ResponseType::BulkString(b"SET".to_vec()),
        ResponseType::BulkString(b"key".to_vec()),
        ResponseType::BulkString(Vec::new()),
    ]);
    let mut out = Vec::new();
    write_resp(&mut out, &value);
    let parsed = parse_resp(&out).unwrap().unwrap();
    assert_eq!(parsed.consumed, out.len());
    let items = array_items(&parsed.request);
    assert_eq!(items.len(), 3);
    assert_eq!(bulk_bytes(&items[0]), b"SET".to_vec());
    assert_eq!(bulk_bytes(&items[1]), b"key".to_vec());
    assert_eq!(bulk_bytes(&items[2]), Vec::<u8>::new());
}

#[test]
fn byte_at_a_time_matches_one_call() {
    let input = b"*2\r\n$4\r\nECHO\r\n$3\r\nhey\r\n";
    let mut reader = FrameReader::new();
    let mut result = None;
    for (i, b) in input.iter().enumerate() {
        match reader.receive(&[*b]) {
            Ok(Some(v)) => {
                assert_eq!(i, input.len() - 1);
                result = Some(v);
            }
            Ok(None) => assert!(result.is_none()),
            Err(_) => panic!("unexpected error"),
        }
    }
    let value = result.unwrap();
    let items = array_items(&value);
    assert_eq!(bulk_bytes(&items[0]), b"ECHO".to_vec());
    assert_eq!(bulk_bytes(&items[1]), b"hey".to_vec());
    assert_eq!(reader.free_space(), READ_BUFFER_SIZE);
}

#[test]
fn reader_keeps_bytes_after_a_value() {
    let mut reader = FrameReader::new();
    let first = reader.receive(b"*1\r\n$4\r\nPING\r\n*1").unwrap().unwrap();
    assert_eq!(bulk_bytes(&array_items(&first)[0]), b"PING".to_vec());
    assert_eq!(reader.free_space(), READ_BUFFER_SIZE - 2);
    let second = reader.receive(b"\r\n$4\r\nPING\r\n").unwrap().unwrap();
    assert_eq!(bulk_bytes(&array_items(&second)[0]), b"PING".to_vec());
}

#[test]
fn full_window_without_a_value_is_too_big() {
    let mut reader = FrameReader::new();
    let mut data = b"$600\r\n".to_vec();
    data.resize(READ_BUFFER_SIZE, b'x');
    assert!(matches!(reader.receive(&data[..100]), Ok(None)));
    assert!(matches!(reader.receive(&data[100..]), Err(RespProtocolError::MessageTooBig)));
}

#[test]
fn string_of_bulk_replaces_invalid_utf8() {
    let valid = ResponseType::BulkString(b"abc".to_vec());
    assert_eq!(valid.string(), Some("abc".to_string()));
    let invalid = ResponseType::BulkString(vec![b'a', 0xff]);
    assert_eq!(invalid.string(), Some("a\u{FFFD}".to_string()));
    assert_eq!(ResponseType::Array(Vec::new()).string(), None);
}

#[test]
fn nested_array_decodes_back() {
    let input = b"*2\r\n$1\r\na\r\n*1\r\n$2\r\nbc\r\n";
    let parsed = parse_resp(input).unwrap().unwrap();
    assert_eq!(parsed.consumed, input.len());
    let items = array_items(&parsed.request);
    assert_eq!(items.len(), 2);
    assert_eq!(bulk_bytes(&items[0]), b"a".to_vec());
    let inner = array_items(&items[1]);
    assert_eq!(inner.len(), 1);
    assert_eq!(bulk_bytes(&inner[0]), b"bc".to_vec());
}

#[test]
fn nested_request_through_the_window() {
    let mut reader = FrameReader::new();
    let first = reader.receive(b"*1\r\n*1\r\n$1\r\na\r\n*1\r\n$4\r\nPING\r\n").unwrap().unwrap();
    let inner = array_items(&array_items(&first)[0]);
    assert_eq!(bulk_bytes(&inner[0]), b"a".to_vec());
    let second = reader.receive(b"").unwrap().unwrap();
    assert_eq!(bulk_bytes(&array_items(&second)[0]), b"PING".to_vec());
    assert_eq!(reader.free_space(), READ_BUFFER_SIZE);
}
