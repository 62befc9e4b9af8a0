use zcached::{receive_response, serialize_response, ClientError, Error, Response, ResponseReader};

#[test]
fn receive_single_byte_acks() {
    assert_eq!(receive_response(&[2], 256, 1024).unwrap(), Response::Put);
    assert_eq!(receive_response(&[3], 256, 1024).unwrap(), Response::Delete);
    assert_eq!(receive_response(&[4], 256, 1024).unwrap(), Response::Flush);
    assert_eq!(receive_response(&[1], 256, 1024).unwrap(), Response::Get(None));
}

#[test]
fn receive_get_reply_with_value() {
    let data = serialize_response(&Response::Get(Some("123".to_string())));
    assert_eq!(
        receive_response(&data, 256, 1024).unwrap(),
        Response::Get(Some("123".to_string()))
    );
}

#[test]
fn receive_reply_larger_than_initial_buffer() {
    let value = "v".repeat(300);
    let data = serialize_response(&Response::Get(Some(value.clone())));
    assert_eq!(
        receive_response(&data, 16, 1024).unwrap(),
        Response::Get(Some(value))
    );
}

#[test]
fn receive_on_a_closed_stream_is_a_reset() {
    let result = receive_response(&[], 256, 1024);
    assert!(matches!(
        result,
        Err(Error::Client(ClientError::ConnectionResetByPeer))
    ));
    // A truncated reply at the end of the stream is a reset as well.
    let result = receive_response(&[1, 0, 0, 0, 9, 120], 256, 1024);
    assert!(matches!(
        result,
        Err(Error::Client(ClientError::ConnectionResetByPeer))
    ));
}

#[test]
fn receive_too_much_data() {
    // A reply whose value cannot fit the receive cap.
    let value = "v".repeat(300);
    let data = serialize_response(&Response::Get(Some(value)));
    let result = receive_response(&data, 16, 64);
    assert!(matches!(result, Err(Error::Client(ClientError::TooMuchData))));
}

#[test]
fn receive_malformed_reply() {
    let result = receive_response(&[1, 0, 0, 0, 1, 0xFF], 256, 1024);
    assert!(matches!(result, Err(Error::Parsing(_))));
}

#[test]
fn reader_asks_for_more_until_the_reply_completes() {
    let mut reader = ResponseReader::new(256, 1024);
    assert_eq!(reader.feed(&[1, 0, 0, 0, 3]).unwrap(), None);
    assert_eq!(reader.feed(&[49, 50]).unwrap(), None);
    assert_eq!(
        reader.feed(&[51]).unwrap(),
        Some(Response::Get(Some("123".to_string())))
    );
}
