use mini_redis::decode::decode;
use mini_redis::decode::DecodeError;
use mini_redis::decode::RedisResp;
use mini_redis::decode::RedisRespResult;
use mini_redis::encode::encode;
use mini_redis::encode::resolve;
use mini_redis::encode::Reply;

#[test]
fn test_redis_resp() {
    let resp: RedisRespResult = RedisRespResult::from_bytes(&b"+PONG\r\n"[..], 0);
    match resp {
        RedisRespResult(Some(RedisResp::SimpleString(split)), _) => {
            assert_eq!(String::from_utf8(b"+PONG\r\n"[split.0..split.1].to_vec()).unwrap(), "PONG");
        }
        RedisRespResult(None, _) => panic!("Expected Some(RedisRespResult)"),
        _ => panic!("Expected SimpleString"),
    }
}

#[test]
fn test_redis_resp_integer() {
    let bytes = b":+123\r\n";
    let resp: RedisRespResult = RedisRespResult::from_bytes(&bytes[..], 0);
    match resp {
        RedisRespResult(Some(RedisResp::Integer(split)), _) => {
            assert_eq!(str::from_utf8(&bytes[split.0..split.1]).unwrap().parse::<usize>().unwrap(), 123);
        }
        RedisRespResult(None, _) => panic!("Expected Some(RedisRespResult)"),
        _ => panic!("Expected Integer"),
    }
}

#[test]
fn test_redis_resp_bulk_string() {
    let bytes = b"$4\r\nping\r\n";
    let resp: RedisRespResult = RedisRespResult::from_bytes(&bytes[..], 0);
    match resp {
        RedisRespResult(Some(RedisResp::BulkString(split)), _) => {
            assert_eq!(String::from_utf8(bytes[split.0..split.1].to_vec()).unwrap(), "ping");
        }
        RedisRespResult(None, _) => panic!("Expected Some(RedisRespResult)"),
        _ => panic!("Expected BulkString"),
    }
}

#[test]
fn test_redis_resp_arrays() {
    let bytes = b"*2\r\n$4\r\nECHO\r\n$3\r\nhey\r\n";
    let resp: RedisRespResult = RedisRespResult::from_bytes(&bytes[..], 0);
    match resp {
        RedisRespResult(Some(RedisResp::Arrays(items)), _) => {
            assert_eq!(items.len(), 2);
            match &items[0] {
                RedisResp::BulkString(split) => {
                    assert_eq!(String::from_utf8(bytes[split.0..split.1].to_vec()).unwrap(), "ECHO")
                }
                _ => panic!("Expected BulkString"),
            }
            match &items[1] {
                RedisResp::BulkString(split) => {
                    assert_eq!(String::from_utf8(bytes[split.0..split.1].to_vec()).unwrap(), "hey")
                }
                _ => panic!("Expected BulkString"),
            }
        }
        RedisRespResult(None, _) => panic!("Expected Some(RedisRespResult)"),
        _ => panic!("Expected Arrays"),
    }
}

#[test]
fn simple_string_payload_and_next_offset() {
    let (resp, next) = decode(b"+PONG\r\n", 0).expect("decode");
    match resp {
        RedisResp::SimpleString(split) => {
            assert_eq!((split.0, split.1), (1, 5));
        }
        _ => panic!("Expected SimpleString"),
    }
    assert_eq!(next, 7);
}

fn round_trips(bytes: &[u8]) {
    let (resp, next) = decode(bytes, 0).expect("decode");
    assert_eq!(next, bytes.len());
    let owned = resolve(bytes, &resp);
    assert_eq!(encode(&owned), bytes.to_vec());
}

#[test]
fn encode_after_decode_gives_the_bytes_back() {
    round_trips(b"+PONG\r\n");
    round_trips(b":+123\r\n");
    round_trips(b":-7\r\n");
    round_trips(b"$4\r\nping\r\n");
    round_trips(b"$0\r\n\r\n");
    round_trips(b"$-1\r\n");
    round_trips(b"*0\r\n");
    round_trips(b"*2\r\n$4\r\nECHO\r\n$3\r\nhey\r\n");
    round_trips(b"*2\r\n*1\r\n+ok\r\n$2\r\nhi\r\n");
}

#[test]
fn null_bulk_string_is_distinct_from_empty() {
    let (resp, next) = decode(b"$-1\r\n", 0).expect("decode");
    assert!(matches!(resp, RedisResp::NullBulkString));
    assert_eq!(next, 5);
    let (resp, _) = decode(b"$0\r\n\r\n", 0).expect("decode");
    match resp {
        RedisResp::BulkString(split) => assert_eq!(split.0, split.1),
        _ => panic!("Expected BulkString"),
    }
}

#[test]
fn decode_errors() {
    assert_eq!(decode(b"", 0).unwrap_err(), DecodeError::Truncated);
    assert_eq!(decode(b"xyz\r\n", 0).unwrap_err(), DecodeError::UnknownTag);
    assert_eq!(decode(b"+pong", 0).unwrap_err(), DecodeError::Truncated);
    assert_eq!(decode(b"$abc\r\n", 0).unwrap_err(), DecodeError::Malformed);
    assert_eq!(decode(b"$04\r\nping\r\n", 0).unwrap_err(), DecodeError::Malformed);
    assert_eq!(decode(b"$5\r\nhi\r\n", 0).unwrap_err(), DecodeError::Truncated);
    assert_eq!(decode(b"$2\r\nabXY", 0).unwrap_err(), DecodeError::Malformed);
    assert_eq!(decode(b"*2\r\n$4\r\nECHO\r\n", 0).unwrap_err(), DecodeError::Truncated);
    let r = RedisRespResult::from_bytes(b"xyz\r\n", 0);
    assert!(r.0.is_none());
    assert_eq!(r.1, 0);
}

#[test]
fn decode_at_an_offset() {
    let bytes = b"+OK\r\n:5\r\n";
    let (_, next) = decode(bytes, 0).expect("first frame");
    assert_eq!(next, 5);
    let (resp, next) = decode(bytes, next).expect("second frame");
    match resp {
        RedisResp::Integer(split) => assert_eq!(&bytes[split.0..split.1], b"5"),
        _ => panic!("Expected Integer"),
    }
    assert_eq!(next, bytes.len());
}

#[test]
fn encoder_writes_exact_framing() {
    assert_eq!(encode(&Reply::SimpleString(b"OK".to_vec())), b"+OK\r\n".to_vec());
    assert_eq!(encode(&Reply::Error(b"ERR Unknown command".to_vec())), b"-ERR Unknown command\r\n".to_vec());
    assert_eq!(encode(&Reply::Integer(b"42".to_vec())), b":42\r\n".to_vec());
    assert_eq!(encode(&Reply::BulkString(b"hey".to_vec())), b"$3\r\nhey\r\n".to_vec());
    assert_eq!(encode(&Reply::NullBulkString), b"$-1\r\n".to_vec());
    let arr = Reply::Arrays(vec![
        Reply::BulkString(b"ECHO".to_vec()),
        Reply::BulkString(b"hey".to_vec()),
    ]);
    assert_eq!(encode(&arr), b"*2\r\n$4\r\nECHO\r\n$3\r\nhey\r\n".to_vec());
}
