use redis_lite::resp::{parse_resp, RedisValue};

fn bulk(s: &str) -> RedisValue {
    RedisValue::BulkString(Some(s.to_string()))
}

#[test]
fn serialize_each_variant() {
    assert_eq!(RedisValue::SimpleString("OK".to_string()).to_resp_string(), "+OK\r\n");
    assert_eq!(RedisValue::Error("ERR x".to_string()).to_resp_string(), "-ERR x\r\n");
    assert_eq!(RedisValue::Integer(-12).to_resp_string(), ":-12\r\n");
    assert_eq!(RedisValue::Integer(0).to_resp_string(), ":0\r\n");
    assert_eq!(RedisValue::Integer(i64::MIN).to_resp_string(), ":-9223372036854775808\r\n");
    assert_eq!(bulk("hello").to_resp_string(), "$5\r\nhello\r\n");
    assert_eq!(RedisValue::Boolean(true).to_resp_string(), "#t\r\n");
    assert_eq!(RedisValue::Boolean(false).to_resp_string(), "#f\r\n");
    assert_eq!(RedisValue::Null.to_resp_string(), "_\r\n");
    assert_eq!(
        RedisValue::Array(Some(vec![bulk("a"), RedisValue::Integer(1)])).to_resp_string(),
        "*2\r\n$1\r\na\r\n:1\r\n"
    );
}

#[test]
fn serialize_nil_forms_are_distinct() {
    assert_eq!(RedisValue::BulkString(None).to_resp_string(), "$-1\r\n");
    assert_eq!(RedisValue::Array(None).to_resp_string(), "*-1\r\n");
    assert_eq!(bulk("").to_resp_string(), "$0\r\n\r\n");
    assert_eq!(RedisValue::Array(Some(vec![])).to_resp_string(), "*0\r\n");
}

#[test]
fn serialize_bulk_length_counts_bytes() {
    assert_eq!(bulk("h\u{e9}").to_resp_bytes(), "$3\r\nh\u{e9}\r\n".as_bytes().to_vec());
}

#[test]
fn round_trip_examples() {
    let values = vec![
        RedisValue::SimpleString("hello world".to_string()),
        RedisValue::Error("ERR bad".to_string()),
        RedisValue::Integer(i64::MAX),
        RedisValue::Integer(-1),
        bulk("line\r\nbreak"),
        bulk(""),
        RedisValue::BulkString(None),
        RedisValue::Array(None),
        RedisValue::Boolean(false),
        RedisValue::Null,
        RedisValue::Array(Some(vec![
            RedisValue::Array(Some(vec![bulk("x"), RedisValue::Null])),
            RedisValue::Array(None),
            RedisValue::Boolean(true),
            RedisValue::Array(Some(vec![RedisValue::Array(Some(vec![RedisValue::Integer(3)]))])),
        ])),
    ];
    for v in values {
        let bytes = v.to_resp_bytes();
        assert_eq!(parse_resp(&bytes), Ok(Some(v)));
    }
}
