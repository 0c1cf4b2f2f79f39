use redis_lite::command::{
    extract_command, extract_commands, interpret_folded, CommandError, RedisCommand,
};
use redis_lite::resp::{ParseError, RedisValue};

fn bulk(s: &str) -> RedisValue {
    RedisValue::BulkString(Some(s.to_string()))
}

fn request(words: &[&str]) -> RedisValue {
    RedisValue::Array(Some(words.iter().map(|w| bulk(w)).collect()))
}

#[test]
fn ping_with_two_arguments_is_wrong_arity() {
    assert_eq!(extract_command(&request(&["PING", "a", "b"])), Err(CommandError::WrongArity));
}

#[test]
fn echo_arity() {
    assert_eq!(extract_command(&request(&["ECHO"])), Err(CommandError::WrongArity));
    assert_eq!(extract_command(&request(&["ECHO", "a", "b"])), Err(CommandError::WrongArity));
}

#[test]
fn set_with_too_few_arguments() {
    assert_eq!(extract_command(&request(&["SET"])), Err(CommandError::WrongArity));
    assert_eq!(extract_command(&request(&["SET", "k"])), Err(CommandError::WrongArity));
}

#[test]
fn get_arity() {
    assert_eq!(extract_command(&request(&["GET"])), Err(CommandError::WrongArity));
    assert_eq!(extract_command(&request(&["GET", "a", "b"])), Err(CommandError::WrongArity));
}

#[test]
fn names_are_case_insensitive() {
    assert_eq!(
        extract_command(&request(&["ping"])),
        Ok(RedisCommand::PING(RedisValue::SimpleString("PONG".to_string())))
    );
    assert_eq!(extract_command(&request(&["eChO", "hi"])), Ok(RedisCommand::ECHO(bulk("hi"))));
    assert_eq!(
        extract_command(&request(&["set", "k", "v", "px", "7"])),
        Ok(RedisCommand::SET(bulk("k"), bulk("v"), Some(7)))
    );
}

#[test]
fn simple_string_arguments_count_as_text() {
    let v = RedisValue::Array(Some(vec![
        RedisValue::SimpleString("ECHO".to_string()),
        RedisValue::SimpleString("x".to_string()),
    ]));
    assert_eq!(extract_command(&v), Ok(RedisCommand::ECHO(bulk("x"))));
}

#[test]
fn wrong_type_arguments() {
    let v = RedisValue::Array(Some(vec![bulk("ECHO"), RedisValue::Integer(3)]));
    assert_eq!(extract_command(&v), Err(CommandError::WrongType));
    let v = RedisValue::Array(Some(vec![bulk("SET"), bulk("k"), RedisValue::BulkString(None)]));
    assert_eq!(extract_command(&v), Err(CommandError::WrongType));
}

#[test]
fn not_a_command() {
    assert_eq!(extract_command(&RedisValue::Integer(1)), Err(CommandError::NotACommand));
    assert_eq!(extract_command(&RedisValue::Array(None)), Err(CommandError::NotACommand));
    assert_eq!(extract_command(&RedisValue::Array(Some(vec![]))), Err(CommandError::NotACommand));
    assert_eq!(
        extract_command(&RedisValue::Array(Some(vec![RedisValue::Integer(1)]))),
        Err(CommandError::NotACommand)
    );
    assert_eq!(extract_commands(b"hello"), Err(CommandError::NotACommand));
}

#[test]
fn parse_errors_surface() {
    assert_eq!(
        extract_commands(b"*1\r\n$4\r\nPI"),
        Err(CommandError::Parse(ParseError::UnexpectedEof))
    );
}

#[test]
fn unknown_command_keeps_name() {
    assert_eq!(
        extract_command(&request(&["FLUSHALL"])),
        Err(CommandError::UnknownCommand("FLUSHALL".to_string()))
    );
}

#[test]
fn config_and_command_are_accepted() {
    assert_eq!(extract_command(&request(&["CONFIG", "GET", "save"])), Ok(RedisCommand::CONFIG));
    assert_eq!(extract_command(&request(&["command"])), Ok(RedisCommand::COMMAND));
}

#[test]
fn set_options() {
    assert_eq!(
        extract_command(&request(&["SET", "k", "v", "EX", "5"])),
        extract_command(&request(&["SET", "k", "v", "PX", "5000"]))
    );
    assert_eq!(
        extract_command(&request(&["SET", "k", "v", "EX", "1", "PX", "20"])),
        Ok(RedisCommand::SET(bulk("k"), bulk("v"), Some(20)))
    );
    assert_eq!(
        extract_command(&request(&["SET", "k", "v", "PX", "20", "EX", "1"])),
        Ok(RedisCommand::SET(bulk("k"), bulk("v"), Some(1000)))
    );
    assert_eq!(extract_command(&request(&["SET", "k", "v", "NX"])), Err(CommandError::InvalidOption));
    assert_eq!(extract_command(&request(&["SET", "k", "v", "EX"])), Err(CommandError::InvalidOption));
    assert_eq!(
        extract_command(&request(&["SET", "k", "v", "EX", "ten"])),
        Err(CommandError::InvalidOption)
    );
    assert_eq!(
        extract_command(&request(&["SET", "k", "v", "EX", "-1"])),
        Err(CommandError::InvalidOption)
    );
    assert_eq!(
        extract_command(&request(&["SET", "k", "v", "EX", "18446744073709552"])),
        Err(CommandError::InvalidOption)
    );
    assert_eq!(
        extract_command(&request(&["SET", "k", "v", "PX", "18446744073709551615"])),
        Ok(RedisCommand::SET(bulk("k"), bulk("v"), Some(u64::MAX)))
    );
}

#[test]
fn inline_ping_matches_array_ping() {
    assert_eq!(extract_commands(b"PING\r\n"), extract_commands(b"*1\r\n$4\r\nPING\r\n"));
    assert_eq!(
        extract_commands(b"PING\r\n"),
        Ok(RedisCommand::PING(RedisValue::SimpleString("PONG".to_string())))
    );
}

#[test]
fn interpret_uses_folded_names() {
    let v = RedisValue::Array(Some(vec![bulk("eChO"), bulk("hi")]));
    let folded = vec!["ECHO".to_string(), "HI".to_string()];
    assert_eq!(interpret_folded(&v, &folded), Ok(RedisCommand::ECHO(bulk("hi"))));
    let folded = vec!["GET".to_string(), "HI".to_string()];
    assert_eq!(interpret_folded(&v, &folded), Ok(RedisCommand::GET(bulk("hi"))));
    let v = RedisValue::Array(Some(vec![bulk("set"), bulk("k"), bulk("v"), bulk("ex"), bulk("2")]));
    let folded: Vec<String> = vec!["SET", "K", "V", "EX", "2"].iter().map(|s| s.to_string()).collect();
    assert_eq!(
        interpret_folded(&v, &folded),
        Ok(RedisCommand::SET(bulk("k"), bulk("v"), Some(2000)))
    );
    let folded: Vec<String> = vec!["SET", "K", "V", "PX", "2"].iter().map(|s| s.to_string()).collect();
    assert_eq!(
        interpret_folded(&v, &folded),
        Ok(RedisCommand::SET(bulk("k"), bulk("v"), Some(2)))
    );
}

#[test]
fn unicode_upper_case_of_names() {
    assert_eq!(
        extract_command(&request(&["p\u{131}ng"])),
        Ok(RedisCommand::PING(RedisValue::SimpleString("PONG".to_string())))
    );
}
