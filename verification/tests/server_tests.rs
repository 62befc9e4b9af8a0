use zcached::{handle_connection, Error, ServerError, DB};

const INITIAL_BUFFER_SIZE: usize = 32;
const MAX_BUFFER_SIZE: usize = 93;

#[test]
fn test_read_request_single_request_in_stream() {
    let mut db = DB::new();
    let raw_data = vec![2, 0, 0, 0, 3, 97, 98, 99, 0, 0, 0, 3, 103, 104, 105];
    assert!(raw_data.len() < INITIAL_BUFFER_SIZE);
    assert!(raw_data.len() < 2 * MAX_BUFFER_SIZE);
    let mut out = Vec::new();
    let _ = handle_connection(
        &raw_data,
        &mut db,
        &mut out,
        INITIAL_BUFFER_SIZE,
        MAX_BUFFER_SIZE,
    );
    assert_eq!(db.get("abc").unwrap(), "ghi");
}

#[test]
fn test_read_request_multiple_requests_in_stream() {
    let mut db = DB::new();
    // Two concatenated requests
    let raw_data = vec![
        2, 0, 0, 0, 3, 97, 98, 99, 0, 0, 0, 3, 103, 104, 105, 2, 0, 0, 0, 3, 49, 50, 51, 0, 0, 0,
        3, 52, 53, 54,
    ];
    assert!(raw_data.len() < INITIAL_BUFFER_SIZE);
    assert!(raw_data.len() < 2 * MAX_BUFFER_SIZE);
    let mut out = Vec::new();
    let _ = handle_connection(
        &raw_data,
        &mut db,
        &mut out,
        INITIAL_BUFFER_SIZE,
        MAX_BUFFER_SIZE,
    );
    assert_eq!(db.get("abc").unwrap(), "ghi");
    assert_eq!(db.get("123").unwrap(), "456");
}

#[test]
fn test_read_single_request_larger_than_initial_buffer() {
    let mut db = DB::new();
    let raw_data = vec![
        2, 0, 0, 0, 3, 49, 50, 51, 0, 0, 0, 67, 84, 104, 105, 115, 32, 105, 115, 32, 115, 111,
        109, 101, 32, 108, 111, 110, 103, 101, 114, 32, 116, 101, 120, 116, 32, 116, 104, 97, 116,
        32, 100, 105, 100, 32, 110, 111, 116, 32, 102, 105, 116, 32, 105, 110, 116, 111, 32, 97,
        32, 115, 105, 110, 103, 108, 101, 32, 84, 67, 80, 32, 114, 101, 113, 117, 101, 115, 116,
    ];
    assert!(raw_data.len() > INITIAL_BUFFER_SIZE);
    assert!(raw_data.len() < 2 * MAX_BUFFER_SIZE);
    let mut out = Vec::new();
    let _ = handle_connection(
        &raw_data,
        &mut db,
        &mut out,
        INITIAL_BUFFER_SIZE,
        MAX_BUFFER_SIZE,
    );
    assert_eq!(
        db.get("123").unwrap(),
        "This is some longer text that did not fit into a single TCP request"
    );
}

#[test]
fn test_max_buffer_resize_is_respected() {
    let mut db = DB::new();
    let raw_data = vec![
        2, 0, 0, 0, 3, 49, 50, 51, 0, 0, 0, 186, 84, 104, 105, 115, 32, 105, 115, 32, 115, 111,
        109, 101, 32, 108, 111, 110, 103, 101, 114, 32, 116, 101, 120, 116, 32, 116, 104, 97, 116,
        32, 100, 105, 100, 32, 110, 111, 116, 32, 102, 105, 116, 32, 105, 110, 116, 111, 32, 97,
        32, 115, 105, 110, 103, 108, 101, 32, 84, 67, 80, 32, 114, 101, 113, 117, 101, 115, 116,
        46, 32, 84, 104, 105, 115, 32, 105, 115, 32, 97, 110, 32, 101, 118, 101, 110, 32, 108,
        111, 110, 103, 101, 114, 32, 116, 101, 120, 116, 32, 102, 111, 114, 32, 116, 101, 115,
        116, 105, 110, 103, 32, 116, 104, 101, 32, 114, 101, 115, 105, 122, 105, 110, 103, 32,
        111, 102, 32, 116, 104, 101, 32, 98, 117, 102, 102, 101, 114, 46, 32, 84, 104, 101, 114,
        101, 32, 105, 115, 32, 101, 118, 101, 110, 32, 109, 111, 114, 101, 32, 100, 97, 116, 97,
        32, 105, 110, 32, 104, 101, 114, 101, 32, 110, 111, 119, 46, 32, 76, 111, 111, 107, 32,
        97, 116, 32, 116, 104, 97, 116,
    ];
    assert!(raw_data.len() > INITIAL_BUFFER_SIZE);
    assert!(raw_data.len() > 2 * MAX_BUFFER_SIZE, "data len is {}", raw_data.len());
    let mut out = Vec::new();
    assert!(matches!(
        handle_connection(
            &raw_data,
            &mut db,
            &mut out,
            INITIAL_BUFFER_SIZE,
            MAX_BUFFER_SIZE,
        )
        .err(),
        Some(Error::Server(ServerError::TooMuchData))
    ));
}

#[test]
fn server_test_read_request_single_request_in_stream() {
    let mut db = DB::new();
    let raw_data = vec![2, 0, 0, 0, 3, 97, 98, 99, 0, 0, 0, 3, 103, 104, 105];
    assert!(raw_data.len() < INITIAL_BUFFER_SIZE);
    assert!(raw_data.len() < 2 * MAX_BUFFER_SIZE);
    let mut out = Vec::new();
    let _ = handle_connection(
        &raw_data,
        &mut db,
        &mut out,
        INITIAL_BUFFER_SIZE,
        MAX_BUFFER_SIZE,
    );
    assert_eq!(db.get("abc").unwrap(), "ghi");
}

#[test]
fn server_test_read_request_multiple_requests_in_stream() {
    let mut db = DB::new();
    // Two concatenated requests
    let raw_data = vec![
        2, 0, 0, 0, 3, 97, 98, 99, 0, 0, 0, 3, 103, 104, 105, 2, 0, 0, 0, 3, 49, 50, 51, 0, 0, 0,
        3, 52, 53, 54,
    ];
    assert!(raw_data.len() < INITIAL_BUFFER_SIZE);
    assert!(raw_data.len() < 2 * MAX_BUFFER_SIZE);
    let mut out = Vec::new();
    let _ = handle_connection(
        &raw_data,
        &mut db,
        &mut out,
        INITIAL_BUFFER_SIZE,
        MAX_BUFFER_SIZE,
    );
    assert_eq!(db.get("abc").unwrap(), "ghi");
    assert_eq!(db.get("123").unwrap(), "456");
}

#[test]
fn server_test_read_single_request_larger_than_initial_buffer() {
    let mut db = DB::new();
    let raw_data = vec![
        2, 0, 0, 0, 3, 49, 50, 51, 0, 0, 0, 67, 84, 104, 105, 115, 32, 105, 115, 32, 115, 111,
        109, 101, 32, 108, 111, 110, 103, 101, 114, 32, 116, 101, 120, 116, 32, 116, 104, 97, 116,
        32, 100, 105, 100, 32, 110, 111, 116, 32, 102, 105, 116, 32, 105, 110, 116, 111, 32, 97,
        32, 115, 105, 110, 103, 108, 101, 32, 84, 67, 80, 32, 114, 101, 113, 117, 101, 115, 116,
    ];
    assert!(raw_data.len() > INITIAL_BUFFER_SIZE);
    assert!(raw_data.len() < 2 * MAX_BUFFER_SIZE);
    let mut out = Vec::new();
    let _ = handle_connection(
        &raw_data,
        &mut db,
        &mut out,
        INITIAL_BUFFER_SIZE,
        MAX_BUFFER_SIZE,
    );
    assert_eq!(
        db.get("123").unwrap(),
        "This is some longer text that did not fit into a single TCP request"
    );
}

#[test]
fn server_test_max_buffer_resize_is_respected() {
    let mut db = DB::new();
    let raw_data = vec![
        2, 0, 0, 0, 3, 49, 50, 51, 0, 0, 0, 186, 84, 104, 105, 115, 32, 105, 115, 32, 115, 111,
        109, 101, 32, 108, 111, 110, 103, 101, 114, 32, 116, 101, 120, 116, 32, 116, 104, 97, 116,
        32, 100, 105, 100, 32, 110, 111, 116, 32, 102, 105, 116, 32, 105, 110, 116, 111, 32, 97,
        32, 115, 105, 110, 103, 108, 101, 32, 84, 67, 80, 32, 114, 101, 113, 117, 101, 115, 116,
        46, 32, 84, 104, 105, 115, 32, 105, 115, 32, 97, 110, 32, 101, 118, 101, 110, 32, 108,
        111, 110, 103, 101, 114, 32, 116, 101, 120, 116, 32, 102, 111, 114, 32, 116, 101, 115,
        116, 105, 110, 103, 32, 116, 104, 101, 32, 114, 101, 115, 105, 122, 105, 110, 103, 32,
        111, 102, 32, 116, 104, 101, 32, 98, 117, 102, 102, 101, 114, 46, 32, 84, 104, 101, 114,
        101, 32, 105, 115, 32, 101, 118, 101, 110, 32, 109, 111, 114, 101, 32, 100, 97, 116, 97,
        32, 105, 110, 32, 104, 101, 114, 101, 32, 110, 111, 119, 46, 32, 76, 111, 111, 107, 32,
        97, 116, 32, 116, 104, 97, 116,
    ];
    assert!(raw_data.len() > INITIAL_BUFFER_SIZE);
    assert!(raw_data.len() > 2 * MAX_BUFFER_SIZE, "data len is {}", raw_data.len());
    let mut out = Vec::new();
    let _ = handle_connection(
        &raw_data,
        &mut db,
        &mut out,
        INITIAL_BUFFER_SIZE,
        MAX_BUFFER_SIZE,
    );
    assert!(db.get("123").is_none());
}
