use zcached::{parse_request, parse_response, serialize_request, serialize_response};
use zcached::{Error, ParsingError, Request, Response};

#[test]
fn serialize_get_is_opcode_then_length_then_key() {
    let data = serialize_request(Request::Get("abc"));
    assert_eq!(data, vec![1, 0, 0, 0, 3, 97, 98, 99]);
}

#[test]
fn serialize_put_is_opcode_then_two_elements() {
    let data = serialize_request(Request::Put { key: "abc", value: "ghi" });
    assert_eq!(data, vec![2, 0, 0, 0, 3, 97, 98, 99, 0, 0, 0, 3, 103, 104, 105]);
}

#[test]
fn serialize_delete_and_flush() {
    assert_eq!(serialize_request(Request::Delete("abc")), vec![3, 0, 0, 0, 3, 97, 98, 99]);
    assert_eq!(serialize_request(Request::Flush), vec![4]);
}

#[test]
fn serialize_long_length_is_big_endian() {
    let value = "x".repeat(0x102);
    let data = serialize_request(Request::Get(&value));
    assert_eq!(data[0], 1);
    assert_eq!(&data[1..5], &[0, 0, 1, 2]);
    assert_eq!(data.len(), 5 + 0x102);
}

#[test]
fn serialize_response_bytes() {
    assert_eq!(serialize_response(&Response::Get(None)), vec![1]);
    assert_eq!(
        serialize_response(&Response::Get(Some("123".to_string()))),
        vec![1, 0, 0, 0, 3, 49, 50, 51]
    );
    assert_eq!(serialize_response(&Response::Put), vec![2]);
    assert_eq!(serialize_response(&Response::Delete), vec![3]);
    assert_eq!(serialize_response(&Response::Flush), vec![4]);
}

#[test]
fn request_round_trip_consumes_exactly_the_frame() {
    let frames = vec![
        serialize_request(Request::Get("key")),
        serialize_request(Request::Put { key: "key", value: "value" }),
        serialize_request(Request::Delete("key")),
        serialize_request(Request::Flush),
    ];
    for data in frames {
        let (_, n) = parse_request(&data).unwrap().unwrap();
        assert_eq!(n, data.len());
    }
}

#[test]
fn request_round_trip_returns_the_request() {
    let data = serialize_request(Request::Put { key: "abc", value: "ghi" });
    match parse_request(&data).unwrap().unwrap() {
        (Request::Put { key, value }, n) => {
            assert_eq!(key, "abc");
            assert_eq!(value, "ghi");
            assert_eq!(n, data.len());
        },
        _ => panic!("decoded a different request"),
    }
    let data = serialize_request(Request::Get("abc"));
    match parse_request(&data).unwrap().unwrap() {
        (Request::Get(key), 8) => assert_eq!(key, "abc"),
        _ => panic!("decoded a different request"),
    }
    let data = serialize_request(Request::Delete("abc"));
    match parse_request(&data).unwrap().unwrap() {
        (Request::Delete(key), 8) => assert_eq!(key, "abc"),
        _ => panic!("decoded a different request"),
    }
    match parse_request(&[4]).unwrap().unwrap() {
        (Request::Flush, 1) => {},
        _ => panic!("decoded a different request"),
    }
}

#[test]
fn parse_request_needs_more_bytes() {
    // Nothing yet.
    assert!(parse_request(&[]).unwrap().is_none());
    // Opcode 0 is reserved for the zero-filled buffer tail.
    assert!(parse_request(&[0, 0, 0, 0]).unwrap().is_none());
    // Unknown opcodes are treated the same way.
    assert!(parse_request(&[9, 0, 0, 0, 1, 97]).unwrap().is_none());
    // Truncated length.
    assert!(parse_request(&[1, 0, 0]).unwrap().is_none());
    // A zero-length key means "no frame yet".
    assert!(parse_request(&[1, 0, 0, 0, 0]).unwrap().is_none());
    // Truncated key.
    assert!(parse_request(&[1, 0, 0, 0, 3, 97]).unwrap().is_none());
    // Complete key, truncated value.
    assert!(parse_request(&[2, 0, 0, 0, 1, 97, 0, 0, 0, 2, 98]).unwrap().is_none());
}

#[test]
fn parse_request_rejects_invalid_utf8() {
    let result = parse_request(&[1, 0, 0, 0, 1, 0xFF]);
    assert!(matches!(result, Err(Error::Parsing(ParsingError::Utf8Error))));
    // The bad byte may sit in the value as well.
    let result = parse_request(&[2, 0, 0, 0, 1, 97, 0, 0, 0, 2, 0xC0, 0x00]);
    assert!(matches!(result, Err(Error::Parsing(ParsingError::Utf8Error))));
}

#[test]
fn parse_response_reads_greedily() {
    // A bare opcode 1 is a value-less GET reply.
    assert_eq!(parse_response(&[1]).unwrap().unwrap(), Response::Get(None));
    // With a length and the value present, the value is returned.
    assert_eq!(
        parse_response(&[1, 0, 0, 0, 3, 49, 50, 51]).unwrap().unwrap(),
        Response::Get(Some("123".to_string()))
    );
    // With a length present but the value truncated, the reply is incomplete.
    assert!(parse_response(&[1, 0, 0, 0, 3, 49]).unwrap().is_none());
    // Acknowledgements are bare opcodes.
    assert_eq!(parse_response(&[2]).unwrap().unwrap(), Response::Put);
    assert_eq!(parse_response(&[3]).unwrap().unwrap(), Response::Delete);
    assert_eq!(parse_response(&[4]).unwrap().unwrap(), Response::Flush);
    // Opcode 0 is reserved here as well.
    assert!(parse_response(&[0]).unwrap().is_none());
}

#[test]
fn parse_response_rejects_invalid_utf8() {
    let result = parse_response(&[1, 0, 0, 0, 1, 0xFF]);
    assert!(matches!(result, Err(Error::Parsing(ParsingError::Utf8Error))));
}

#[test]
fn response_round_trip() {
    let responses = vec![
        Response::Get(None),
        Response::Get(Some("some value".to_string())),
        Response::Put,
        Response::Delete,
        Response::Flush,
    ];
    for resp in responses {
        let data = serialize_response(&resp);
        assert_eq!(parse_response(&data).unwrap().unwrap(), resp);
    }
}
