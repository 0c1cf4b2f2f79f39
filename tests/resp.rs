use redis_lite::command::{extract_commands, RedisCommand};
use redis_lite::resp::{parse_resp, ParseError, RedisValue};

fn test_parse_resp(input: &[u8], expected: Option<RedisValue>) {
    assert_eq!(parse_resp(input).unwrap(), expected);
}

fn bulk(s: &str) -> RedisValue {
    RedisValue::BulkString(Some(s.to_string()))
}

#[test]
fn test_parse_resp_simple_string() {
    test_parse_resp(b"+OK\r\n", Some(RedisValue::SimpleString("OK".to_string())));
}

#[test]
fn test_parse_resp_error() {
    test_parse_resp(
        b"-ERR unknown command 'foobar'\r\n",
        Some(RedisValue::Error("ERR unknown command 'foobar'".to_string())),
    );
}

#[test]
fn test_parse_resp_integer() {
    test_parse_resp(b":1000\r\n", Some(RedisValue::Integer(1000)));
}

#[test]
fn test_parse_resp_bulk_string() {
    test_parse_resp(b"$6\r\nfoobar\r\n", Some(bulk("foobar")));
    test_parse_resp(b"$0\r\n\r\n", Some(bulk("")));
    test_parse_resp(b"$-1\r\n", Some(RedisValue::BulkString(None)));
}

#[test]
fn test_parse_resp_array() {
    test_parse_resp(
        b"*2\r\n+Foo\r\n-Bar\r\n",
        Some(RedisValue::Array(Some(vec![
            RedisValue::SimpleString("Foo".to_string()),
            RedisValue::Error("Bar".to_string()),
        ]))),
    );
    test_parse_resp(
        b"*2\r\n$5\r\nhello\r\n$5\r\nworld\r\n",
        Some(RedisValue::Array(Some(vec![bulk("hello"), bulk("world")]))),
    );
    test_parse_resp(b"*-1\r\n", Some(RedisValue::Array(None)));
    test_parse_resp(
        b"*3\r\n:1\r\n:2\r\n:3\r\n",
        Some(RedisValue::Array(Some(vec![
            RedisValue::Integer(1),
            RedisValue::Integer(2),
            RedisValue::Integer(3),
        ]))),
    );
    test_parse_resp(
        b"*5\r\n:1\r\n:2\r\n:3\r\n:4\r\n$5\r\nhello\r\n",
        Some(RedisValue::Array(Some(vec![
            RedisValue::Integer(1),
            RedisValue::Integer(2),
            RedisValue::Integer(3),
            RedisValue::Integer(4),
            bulk("hello"),
        ]))),
    );
    test_parse_resp(
        b"*3\r\n$5\r\nhello\r\n$-1\r\n$5\r\nworld\r\n",
        Some(RedisValue::Array(Some(vec![
            bulk("hello"),
            RedisValue::BulkString(None),
            bulk("world"),
        ]))),
    );
    test_parse_resp(
        b"*3\r\n$3\r\nSET\r\n$3\r\nkey\r\n$5\r\nvalue\r\n",
        Some(RedisValue::Array(Some(vec![bulk("SET"), bulk("key"), bulk("value")]))),
    );
    test_parse_resp(
        b"*3\r\n$3\r\nSET\r\n$3\r\nkey\r\n$-1\r\n",
        Some(RedisValue::Array(Some(vec![
            bulk("SET"),
            bulk("key"),
            RedisValue::BulkString(None),
        ]))),
    );
    test_parse_resp(
        b"*2\r\n$3\r\nGET\r\n$3\r\nkey\r\n",
        Some(RedisValue::Array(Some(vec![bulk("GET"), bulk("key")]))),
    );
}

#[test]
fn test_parse_resp_boolean() {
    test_parse_resp(b"#t\r\n", Some(RedisValue::Boolean(true)));
    test_parse_resp(b"#f\r\n", Some(RedisValue::Boolean(false)));
}

#[test]
fn test_parse_resp_null() {
    test_parse_resp(b"_\r\n", Some(RedisValue::Null));
}

#[test]
fn test_parse_pre_resp_ping() {
    test_parse_resp(
        b"PING\r\n",
        Some(RedisValue::Array(Some(vec![RedisValue::SimpleString("PING".to_string())]))),
    );
}

fn test_extract_commands(input: &[u8], expected: RedisCommand) {
    assert_eq!(extract_commands(input).unwrap(), expected);
}

#[test]
fn test_extract_commands_ping() {
    test_extract_commands(
        b"*1\r\n$4\r\nPING\r\n",
        RedisCommand::PING(RedisValue::SimpleString("PONG".to_string())),
    );
    test_extract_commands(b"*2\r\n$4\r\nPING\r\n$4\r\nPING\r\n", RedisCommand::PING(bulk("PING")));
}

#[test]
fn test_extract_commands_echo() {
    test_extract_commands(b"*2\r\n$4\r\nECHO\r\n$5\r\nhello\r\n", RedisCommand::ECHO(bulk("hello")));
}

#[test]
fn test_extract_commands_get() {
    test_extract_commands(b"*2\r\n$3\r\nGET\r\n$3\r\nkey\r\n", RedisCommand::GET(bulk("key")));
}

#[test]
fn test_extract_commands_set() {
    test_extract_commands(
        b"*3\r\n$3\r\nSET\r\n$3\r\nkey\r\n$5\r\nvalue\r\n",
        RedisCommand::SET(bulk("key"), bulk("value"), None),
    );
    test_extract_commands(
        b"*5\r\n$3\r\nSET\r\n$3\r\nkey\r\n$5\r\nvalue\r\n$2\r\nEX\r\n$1\r\n5\r\n",
        RedisCommand::SET(bulk("key"), bulk("value"), Some(5000)),
    );
    test_extract_commands(
        b"*5\r\n$3\r\nSET\r\n$3\r\nkey\r\n$5\r\nvalue\r\n$2\r\nPX\r\n$3\r\n100\r\n",
        RedisCommand::SET(bulk("key"), bulk("value"), Some(100)),
    );
}

#[test]
fn parse_errors_each_variant() {
    assert_eq!(parse_resp(b"$5\r\nabc\r\n"), Err(ParseError::UnexpectedEof));
    assert_eq!(parse_resp(b"+OK"), Err(ParseError::UnexpectedEof));
    assert_eq!(parse_resp(b"*2\r\n:1\r\n"), Err(ParseError::UnexpectedEof));
    assert_eq!(parse_resp(b"PIN"), Err(ParseError::UnexpectedEof));
    assert_eq!(parse_resp(b"+\xff\xfe\r\n"), Err(ParseError::InvalidEncoding));
    assert_eq!(parse_resp(b"$2\r\n\xc3\x28\r\n"), Err(ParseError::InvalidEncoding));
    assert_eq!(parse_resp(b":12a\r\n"), Err(ParseError::InvalidNumber));
    assert_eq!(parse_resp(b":\r\n"), Err(ParseError::InvalidNumber));
    assert_eq!(parse_resp(b":9223372036854775808\r\n"), Err(ParseError::InvalidNumber));
    assert_eq!(parse_resp(b"$-2\r\n"), Err(ParseError::InvalidNumber));
    assert_eq!(parse_resp(b"*x\r\n"), Err(ParseError::InvalidNumber));
    assert_eq!(parse_resp(b"*1\r\n!x\r\n"), Err(ParseError::InvalidElement));
    assert_eq!(parse_resp(b"#x\r\n"), Err(ParseError::InvalidElement));
}

#[test]
fn parse_without_type_byte_is_none() {
    assert_eq!(parse_resp(b""), Ok(None));
    assert_eq!(parse_resp(b"hello\r\n"), Ok(None));
    assert_eq!(parse_resp(b"PONG\r\n"), Ok(None));
}

#[test]
fn parse_integer_limits_and_signs() {
    assert_eq!(parse_resp(b":-42\r\n"), Ok(Some(RedisValue::Integer(-42))));
    assert_eq!(parse_resp(b":+7\r\n"), Ok(Some(RedisValue::Integer(7))));
    assert_eq!(
        parse_resp(b":-9223372036854775808\r\n"),
        Ok(Some(RedisValue::Integer(i64::MIN)))
    );
    assert_eq!(
        parse_resp(b":9223372036854775807\r\n"),
        Ok(Some(RedisValue::Integer(i64::MAX)))
    );
}

#[test]
fn parse_nested_array_respects_counts() {
    assert_eq!(
        parse_resp(b"*2\r\n*1\r\n:1\r\n:2\r\n"),
        Ok(Some(RedisValue::Array(Some(vec![
            RedisValue::Array(Some(vec![RedisValue::Integer(1)])),
            RedisValue::Integer(2),
        ]))))
    );
    assert_eq!(
        parse_resp(b"*2\r\n#t\r\n_\r\n"),
        Ok(Some(RedisValue::Array(Some(vec![RedisValue::Boolean(true), RedisValue::Null]))))
    );
    assert_eq!(parse_resp(b"*0\r\n"), Ok(Some(RedisValue::Array(Some(vec![])))));
}

#[test]
fn parse_reads_only_first_value() {
    assert_eq!(
        parse_resp(b"+A\r\n+B\r\n"),
        Ok(Some(RedisValue::SimpleString("A".to_string())))
    );
}

#[test]
fn parse_multibyte_bulk_string() {
    assert_eq!(parse_resp("$5\r\nh\u{e9}ll\r\n".as_bytes()), Ok(Some(bulk("h\u{e9}ll"))));
}
