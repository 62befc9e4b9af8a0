use zcached::{handle_connection, serialize_request, Error, Framer, Request, ServerError, DB};

fn set_frame(key: &str, value: &str) -> Vec<u8> {
    serialize_request(Request::Put { key, value })
}

#[test]
fn single_set_writes_one_ack() {
    let mut db = DB::new();
    let mut out = Vec::new();
    let data = vec![2, 0, 0, 0, 3, 97, 98, 99, 0, 0, 0, 3, 103, 104, 105];
    let _ = handle_connection(&data, &mut db, &mut out, 32, 93);
    assert_eq!(db.get("abc").unwrap(), "ghi");
    assert_eq!(out, vec![2]);
}

#[test]
fn two_sets_write_two_acks_in_order() {
    let mut db = DB::new();
    let mut out = Vec::new();
    let data = vec![
        2, 0, 0, 0, 3, 97, 98, 99, 0, 0, 0, 3, 103, 104, 105, 2, 0, 0, 0, 3, 49, 50, 51, 0, 0, 0,
        3, 52, 53, 54,
    ];
    let result = handle_connection(&data, &mut db, &mut out, 32, 93);
    assert!(result.is_ok());
    assert_eq!(db.get("abc").unwrap(), "ghi");
    assert_eq!(db.get("123").unwrap(), "456");
    assert_eq!(out, vec![2, 2]);
}

#[test]
fn replies_follow_requests_in_order() {
    let mut db = DB::new();
    let mut out = Vec::new();
    let mut data = Vec::new();
    data.extend(set_frame("abc", "ghi"));
    data.extend(serialize_request(Request::Get("abc")));
    data.extend(serialize_request(Request::Delete("abc")));
    data.extend(serialize_request(Request::Get("abc")));
    data.extend(serialize_request(Request::Flush));
    let result = handle_connection(&data, &mut db, &mut out, 256, 1024);
    assert!(result.is_ok());
    // SET ack, GET hit carrying "ghi", DELETE ack, GET miss, FLUSH ack.
    let expected = vec![2, 1, 0, 0, 0, 3, 103, 104, 105, 3, 1, 4];
    assert_eq!(out, expected);
}

#[test]
fn empty_stream_closes_cleanly() {
    let mut db = DB::new();
    let mut out = Vec::new();
    let result = handle_connection(&[], &mut db, &mut out, 32, 93);
    assert!(result.is_ok());
    assert!(out.is_empty());
}

#[test]
fn close_mid_frame_is_a_reset() {
    let mut db = DB::new();
    let mut out = Vec::new();
    let data = vec![2, 0, 0, 0, 3, 97];
    let result = handle_connection(&data, &mut db, &mut out, 32, 93);
    assert!(matches!(
        result,
        Err(Error::Server(ServerError::ConnectionResetByPeer))
    ));
    assert!(out.is_empty());
}

#[test]
fn malformed_frame_closes_the_connection() {
    let mut db = DB::new();
    let mut out = Vec::new();
    let mut data = set_frame("ok", "fine");
    data.extend(vec![1, 0, 0, 0, 1, 0xFF]);
    let result = handle_connection(&data, &mut db, &mut out, 64, 1024);
    assert!(matches!(result, Err(Error::Parsing(_))));
    // The well-formed frame before the bad one was still served.
    assert_eq!(db.get("ok").unwrap(), "fine");
    assert_eq!(out, vec![2]);
}

#[test]
fn oversized_frame_leaves_the_store_untouched() {
    let mut db = DB::new();
    let mut out = Vec::new();
    let data = set_frame("big", &"y".repeat(200));
    let result = handle_connection(&data, &mut db, &mut out, 32, 93);
    assert!(matches!(result, Err(Error::Server(ServerError::TooMuchData))));
    assert!(db.get("big").is_none());
    assert!(out.is_empty());
}

#[test]
fn chunked_delivery_equals_whole_delivery() {
    // The same stream, delivered byte by byte and all at once.
    let mut data = Vec::new();
    data.extend(set_frame("abc", "ghi"));
    data.extend(serialize_request(Request::Get("abc")));
    data.extend(set_frame("123", "456"));

    let mut db_whole = DB::new();
    let mut out_whole = Vec::new();
    let result = handle_connection(&data, &mut db_whole, &mut out_whole, 16, 1024);
    assert!(result.is_ok());

    let mut db_chunked = DB::new();
    let mut out_chunked = Vec::new();
    let mut framer = Framer::new(16, 1024);
    for b in &data {
        framer
            .feed(&[*b], &mut db_chunked, &mut out_chunked)
            .unwrap();
    }
    framer.finish().unwrap();

    assert_eq!(out_whole, out_chunked);
    assert_eq!(db_whole.get("abc"), db_chunked.get("abc"));
    assert_eq!(db_whole.get("123"), db_chunked.get("123"));
}

#[test]
fn two_connections_interleave_on_one_store() {
    // Two connections, fed in alternation on a shared store, each writing
    // to its own key range; every value written must be observed and each
    // connection's replies stay in its own order.
    let n: usize = 50;
    let mut db = DB::new();
    let mut framer_a = Framer::new(64, 4096);
    let mut framer_b = Framer::new(64, 4096);
    let mut out_a = Vec::new();
    let mut out_b = Vec::new();
    for i in 0..n {
        let frame_a = set_frame(&format!("a-{i}"), &format!("va-{i}"));
        let frame_b = set_frame(&format!("b-{i}"), &format!("vb-{i}"));
        framer_a.feed(&frame_a, &mut db, &mut out_a).unwrap();
        framer_b.feed(&frame_b, &mut db, &mut out_b).unwrap();
    }
    framer_a.finish().unwrap();
    framer_b.finish().unwrap();
    for i in 0..n {
        assert_eq!(db.get(&format!("a-{i}")).unwrap(), format!("va-{i}"));
        assert_eq!(db.get(&format!("b-{i}")).unwrap(), format!("vb-{i}"));
    }
    assert_eq!(out_a, vec![2; n]);
    assert_eq!(out_b, vec![2; n]);
}

#[test]
fn builder_collects_the_configuration() {
    let builder = zcached::ServerBuilder::new()
        .address("127.0.0.1:0")
        .initial_db_size(256)
        .initial_buffer_size(256)
        .max_buffer_size(1024);
    assert_eq!(builder.addr, Some("127.0.0.1:0"));
    assert_eq!(builder.initial_db_size, Some(256));
    assert_eq!(builder.initial_buffer_size, Some(256));
    assert_eq!(builder.max_buffer_size, Some(1024));

    let unset: zcached::ServerBuilder<&str> = zcached::ServerBuilder::new();
    assert!(unset.addr.is_none());
    assert!(unset.initial_db_size.is_none());
    assert!(unset.initial_buffer_size.is_none());
    assert!(unset.max_buffer_size.is_none());
}
