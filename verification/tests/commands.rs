use mini_redis::encode::Reply;
use mini_redis::store::Redis;

fn args(parts: &[&[u8]]) -> Vec<Vec<u8>> {
    parts.iter().map(|p| p.to_vec()).collect()
}

fn expect_simple(r: Reply, want: &[u8]) {
    match r {
        Reply::SimpleString(s) => assert_eq!(s, want.to_vec()),
        _ => panic!("Expected SimpleString"),
    }
}

fn expect_error(r: Reply, want: &[u8]) {
    match r {
        Reply::Error(s) => assert_eq!(s, want.to_vec()),
        _ => panic!("Expected Error"),
    }
}

fn expect_integer(r: Reply, want: &[u8]) {
    match r {
        Reply::Integer(s) => assert_eq!(s, want.to_vec()),
        _ => panic!("Expected Integer"),
    }
}

#[test]
fn ping_replies_pong() {
    let mut store = Redis::new();
    expect_simple(store.execute(&args(&[b"PING"]), 0), b"PONG");
}

#[test]
fn echo_replies_argument() {
    let mut store = Redis::new();
    match store.execute(&args(&[b"ECHO", b"hey"]), 0) {
        Reply::BulkString(s) => assert_eq!(s, b"hey".to_vec()),
        _ => panic!("Expected BulkString"),
    }
}

#[test]
fn set_then_get_returns_value() {
    let mut store = Redis::new();
    expect_simple(store.execute(&args(&[b"SET", b"k", b"v"]), 0), b"OK");
    match store.execute(&args(&[b"GET", b"k"]), 1000) {
        Reply::BulkString(s) => assert_eq!(s, b"v".to_vec()),
        _ => panic!("Expected BulkString"),
    }
}

#[test]
fn set_px_expires_and_get_removes_the_key() {
    let mut store = Redis::new();
    expect_simple(store.execute(&args(&[b"SET", b"k", b"v", b"PX", b"10"]), 0), b"OK");
    match store.execute(&args(&[b"GET", b"k"]), 20) {
        Reply::NullBulkString => {}
        _ => panic!("Expected NullBulkString"),
    }
    assert!(!store.contains_string_key(b"k"));
}

#[test]
fn set_px_value_still_live_before_deadline() {
    let mut store = Redis::new();
    expect_simple(store.execute(&args(&[b"SET", b"k", b"v", b"PX", b"100"]), 0), b"OK");
    match store.execute(&args(&[b"GET", b"k"]), 50) {
        Reply::BulkString(s) => assert_eq!(s, b"v".to_vec()),
        _ => panic!("Expected BulkString"),
    }
}

#[test]
fn set_ex_counts_seconds() {
    let mut store = Redis::new();
    expect_simple(store.execute(&args(&[b"SET", b"k", b"v", b"EX", b"2"]), 0), b"OK");
    match store.execute(&args(&[b"GET", b"k"]), 1500) {
        Reply::BulkString(s) => assert_eq!(s, b"v".to_vec()),
        _ => panic!("Expected BulkString"),
    }
    match store.execute(&args(&[b"GET", b"k"]), 2500) {
        Reply::NullBulkString => {}
        _ => panic!("Expected NullBulkString"),
    }
}

#[test]
fn set_with_unknown_modifier_is_an_error_and_does_not_write() {
    let mut store = Redis::new();
    expect_error(
        store.execute(&args(&[b"SET", b"k", b"v", b"ZZ", b"10"]), 0),
        b"ERR Unknown command",
    );
    assert!(!store.contains_string_key(b"k"));
}

#[test]
fn set_with_non_numeric_expiry_is_an_error() {
    let mut store = Redis::new();
    expect_error(
        store.execute(&args(&[b"SET", b"k", b"v", b"PX", b"soon"]), 0),
        b"ERR Protocol error",
    );
    assert!(!store.contains_string_key(b"k"));
}

#[test]
fn get_on_a_key_never_set_is_null_not_error() {
    let mut store = Redis::new();
    match store.execute(&args(&[b"GET", b"missing"]), 0) {
        Reply::NullBulkString => {}
        Reply::Error(_) => panic!("GET on an absent key must not be an error"),
        _ => panic!("Expected NullBulkString"),
    }
}

#[test]
fn rpush_appends_in_order_and_replies_with_the_length() {
    let mut store = Redis::new();
    expect_integer(store.execute(&args(&[b"RPUSH", b"l", b"a", b"b"]), 0), b"2");
    expect_integer(store.execute(&args(&[b"RPUSH", b"l", b"c"]), 0), b"3");
    let mut bytes = Vec::new();
    bytes.extend_from_slice(b"*4\r\n$5\r\nRPUSH\r\n$1\r\nl\r\n$1\r\nd\r\n$1\r\ne\r\n");
    let out = store.handle_request(&bytes, 0);
    assert_eq!(out, b":5\r\n".to_vec());
}

#[test]
fn rpush_without_values_reports_wrong_number_of_arguments() {
    let mut store = Redis::new();
    expect_error(
        store.execute(&args(&[b"RPUSH", b"l"]), 0),
        b"Wrong number of arguments for 'RPUSH' command",
    );
}

#[test]
fn list_and_string_namespaces_are_independent() {
    let mut store = Redis::new();
    expect_simple(store.execute(&args(&[b"SET", b"k", b"v"]), 0), b"OK");
    expect_integer(store.execute(&args(&[b"RPUSH", b"k", b"x"]), 0), b"1");
    match store.execute(&args(&[b"GET", b"k"]), 0) {
        Reply::BulkString(s) => assert_eq!(s, b"v".to_vec()),
        _ => panic!("Expected BulkString"),
    }
}

#[test]
fn unknown_command_is_an_error_and_store_keeps_working() {
    let mut store = Redis::new();
    expect_simple(store.execute(&args(&[b"SET", b"k", b"v"]), 0), b"OK");
    expect_error(store.execute(&args(&[b"FLUSH", b"k"]), 0), b"ERR Unknown command");
    match store.execute(&args(&[b"GET", b"k"]), 0) {
        Reply::BulkString(s) => assert_eq!(s, b"v".to_vec()),
        _ => panic!("Expected BulkString"),
    }
}

#[test]
fn handle_request_serves_raw_frames() {
    let mut store = Redis::new();
    let out = store.handle_request(b"*1\r\n$4\r\nPING\r\n", 0);
    assert_eq!(out, b"+PONG\r\n".to_vec());
    let out = store.handle_request(b"*3\r\n$3\r\nSET\r\n$1\r\nk\r\n$1\r\nv\r\n", 0);
    assert_eq!(out, b"+OK\r\n".to_vec());
    let out = store.handle_request(b"*2\r\n$3\r\nGET\r\n$1\r\nk\r\n", 0);
    assert_eq!(out, b"$1\r\nv\r\n".to_vec());
    let out = store.handle_request(b"*2\r\n$3\r\nGET\r\n$1\r\nz\r\n", 0);
    assert_eq!(out, b"$-1\r\n".to_vec());
}

#[test]
fn handle_request_answers_garbage_with_a_protocol_error() {
    let mut store = Redis::new();
    let out = store.handle_request(b"garbage", 0);
    assert_eq!(out, b"-ERR Protocol error\r\n".to_vec());
    let out = store.handle_request(b"+PING\r\n", 0);
    assert_eq!(out, b"-ERR Protocol error\r\n".to_vec());
    let out = store.handle_request(b"*1\r\n$7\r\nUNKNOWN\r\n", 0);
    assert_eq!(out, b"-ERR Unknown command\r\n".to_vec());
}
