use vstd::prelude::*;
use vstd::string::StringExecFns;
use crate::command::{
    arg_text, command_of_request, extract_commands, Command, CommandError, Fault, RedisCommand,
};
use crate::resp::{frames_of, serialize, Frame, RedisValue};
use crate::storage::{lookup, stored, Entry, Storage};

verus! {

broadcast use vstd::std_specs::vec::group_vec_axioms;

/// The characters of `OK`.
pub open spec fn ok_text() -> Seq<char> {
    "OK"@
}

/// The text of the error reply for each way a request can fail.
pub open spec fn fault_message(f: Fault) -> Seq<char> {
    match f {
        Fault::Parse(_) => "ERR failed to parse request"@,
        Fault::NotACommand => "ERR request is not a command"@,
        Fault::WrongArity => "ERR wrong number of arguments"@,
        Fault::WrongType => "ERR wrong type of argument"@,
        Fault::InvalidOption => "ERR syntax error"@,
        Fault::UnknownCommand(name) => "ERR unknown command '"@ + name + "'"@,
    }
}

/// The text of the error reply to a key that is not text.
pub open spec fn bad_key_text() -> Seq<char> {
    "ERR invalid key"@
}

/// The reply to command `c` on a store holding `m`, at `now`.
pub open spec fn reply_of(c: Command, m: Map<Seq<char>, Entry>, now: int) -> Frame {
    match c {
        Command::Ping(f) => f,
        Command::Echo(f) => f,
        Command::Fetch(k) => match arg_text(k) {
            Some(key) => match lookup(m, key, now) {
                Some(e) => e.value,
                None => Frame::BulkString(None),
            },
            None => Frame::Error(bad_key_text()),
        },
        Command::Store(k, _, _) => match arg_text(k) {
            Some(_) => Frame::SimpleString(ok_text()),
            None => Frame::Error(bad_key_text()),
        },
        Command::Config => Frame::Array(Some(Seq::empty())),
        Command::Introspect => Frame::Array(Some(Seq::empty())),
    }
}

/// The store after command `c` on a store holding `m`, at `now`.
pub open spec fn after(c: Command, m: Map<Seq<char>, Entry>, now: int) -> Map<Seq<char>, Entry> {
    match c {
        Command::Store(k, v, e) => match arg_text(k) {
            Some(key) => stored(m, key, v, e, now),
            None => m,
        },
        _ => m,
    }
}

/// The bytes answered to `request` on a store holding `m`, at `now`.
pub open spec fn response_of(request: Seq<u8>, m: Map<Seq<char>, Entry>, now: int) -> Seq<u8> {
    match command_of_request(request) {
        Ok(c) => serialize(reply_of(c, m, now)),
        Err(f) => serialize(Frame::Error(fault_message(f))),
    }
}

/// The store after answering `request` on a store holding `m`, at `now`.
pub open spec fn store_after(request: Seq<u8>, m: Map<Seq<char>, Entry>, now: int) -> Map<
    Seq<char>,
    Entry,
> {
    match command_of_request(request) {
        Ok(c) => after(c, m, now),
        Err(_) => m,
    }
}

/// A copy of a value.
pub fn copy_value(v: &RedisValue) -> (r: RedisValue)
    ensures
        r@ == v@,
    decreases v,
{
    match v {
        RedisValue::SimpleString(s) => RedisValue::SimpleString(s.clone()),
        RedisValue::Error(s) => RedisValue::Error(s.clone()),
        RedisValue::Integer(i) => RedisValue::Integer(*i),
        RedisValue::BulkString(Some(s)) => RedisValue::BulkString(Some(s.clone())),
        RedisValue::BulkString(None) => RedisValue::BulkString(None),
        RedisValue::Array(Some(items)) => {
            let mut out: Vec<RedisValue> = Vec::new();
            let mut i: usize = 0;
            while i < items.len()
                invariant
                    i <= items@.len(),
                    *v == RedisValue::Array(Some(*items)),
                    frames_of(out@) == frames_of(items@.subrange(0, i as int)),
                decreases items@.len() - i,
            {
                proof {
                    assert(decreases_to!(*v => v->Array_0));
                    assert(decreases_to!(v->Array_0 => v->Array_0->Some_0));
                    assert(decreases_to!(*v => items[i as int]));
                }
                let c = copy_value(&items[i]);
                proof {
                    let t = items@.subrange(0, i + 1);
                    assert(t.subrange(0, i as int) =~= items@.subrange(0, i as int));
                    assert(out@.push(c).subrange(0, out@.len() as int) =~= out@);
                }
                out.push(c);
                i = i + 1;
            }
            assert(items@.subrange(0, i as int) =~= items@);
            RedisValue::Array(Some(out))
        },
        RedisValue::Array(None) => RedisValue::Array(None),
        RedisValue::Boolean(b) => RedisValue::Boolean(*b),
        RedisValue::Null => RedisValue::Null,
    }
}

/// The text of the error reply for `e`.
pub fn error_message(e: &CommandError) -> (r: String)
    ensures
        r@ == fault_message(e@),
{
    match e {
        CommandError::Parse(_) => "ERR failed to parse request".to_string(),
        CommandError::NotACommand => "ERR request is not a command".to_string(),
        CommandError::WrongArity => "ERR wrong number of arguments".to_string(),
        CommandError::WrongType => "ERR wrong type of argument".to_string(),
        CommandError::InvalidOption => "ERR syntax error".to_string(),
        CommandError::UnknownCommand(name) => {
            let mut m = "ERR unknown command '".to_string();
            m.append(name.as_str());
            m.append("'");
            m
        },
    }
}

/// Runs `cmd` against `store` at `now` and gives the reply.
pub fn execute_at(cmd: RedisCommand, store: &mut Storage, now: u64) -> (r: RedisValue)
    ensures
        r@ == reply_of(cmd@, old(store)@, now as int),
        final(store)@ == after(cmd@, old(store)@, now as int),
{
    match cmd {
        RedisCommand::PING(v) => v,
        RedisCommand::ECHO(v) => v,
        RedisCommand::GET(k) => match k {
            RedisValue::SimpleString(key) | RedisValue::BulkString(Some(key)) => {
                match store.get_at(key.as_str(), now) {
                    Some(d) => copy_value(d.value()),
                    None => RedisValue::BulkString(None),
                }
            },
            _ => RedisValue::Error("ERR invalid key".to_string()),
        },
        RedisCommand::SET(k, v, e) => match k {
            RedisValue::SimpleString(key) | RedisValue::BulkString(Some(key)) => {
                store.set_at(key, v, e, now);
                RedisValue::SimpleString("OK".to_string())
            },
            _ => RedisValue::Error("ERR invalid key".to_string()),
        },
        RedisCommand::CONFIG => RedisValue::Array(Some(Vec::new())),
        RedisCommand::COMMAND => RedisValue::Array(Some(Vec::new())),
    }
}

/// Answers one request buffer against `store` at `now`: the encoded reply,
/// an error reply when the request is malformed or not a valid command.
pub fn handle_request_at(request: &[u8], store: &mut Storage, now: u64) -> (r: Vec<u8>)
    ensures
        r@ == response_of(request@, old(store)@, now as int),
        final(store)@ == store_after(request@, old(store)@, now as int),
{
    match extract_commands(request) {
        Ok(cmd) => {
            let reply = execute_at(cmd, store, now);
            reply.to_resp_bytes()
        },
        Err(e) => RedisValue::Error(error_message(&e)).to_resp_bytes(),
    }
}

/// Answers one request buffer against `store` on the store's clock.
pub fn handle_request(request: &[u8], store: &mut Storage) -> (r: Vec<u8>)
    ensures
        exists|now: int|
            r@ == response_of(request@, old(store)@, now) && final(store)@ == store_after(
                request@,
                old(store)@,
                now,
            ),
{
    let now = store.now();
    handle_request_at(request, store, now)
}

} // verus!
