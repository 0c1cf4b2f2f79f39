use redis_lite::reactor::{classify_read, Action, Interest, ReadStep, Reactor};
use redis_lite::resp::RedisValue;
use redis_lite::server::{error_message, execute_at, handle_request, handle_request_at};
use redis_lite::command::{CommandError, RedisCommand};
use redis_lite::storage::Storage;

fn bulk(s: &str) -> RedisValue {
    RedisValue::BulkString(Some(s.to_string()))
}

#[test]
fn expiry_is_lazy_and_exact() {
    let mut store = Storage::new();
    store.set_at("k".to_string(), bulk("v"), Some(50), 1000);
    assert_eq!(store.get_at("k", 1000).map(|d| d.value()), Some(&bulk("v")));
    assert_eq!(store.get_at("k", 1050).map(|d| d.value()), Some(&bulk("v")));
    assert!(store.get_at("k", 1051).is_none());
    assert!(store.get_at("other", 1000).is_none());
}

#[test]
fn set_overwrites_and_clears_expiry() {
    let mut store = Storage::new();
    store.set_at("k".to_string(), bulk("a"), Some(10), 0);
    store.set_at("k".to_string(), bulk("b"), None, 5);
    assert_eq!(store.get_at("k", 1_000_000).map(|d| d.value()), Some(&bulk("b")));
}

#[test]
fn clock_reads_back_fresh_values() {
    let mut store = Storage::new();
    store.set("k".to_string(), bulk("v"), None);
    assert_eq!(store.get("k".to_string()).map(|d| d.value()), Some(&bulk("v")));
    store.set("e".to_string(), bulk("w"), Some(60_000));
    assert_eq!(store.get("e".to_string()).map(|d| d.value()), Some(&bulk("w")));
    assert!(store.get("none".to_string()).is_none());
}

#[test]
fn expired_after_waiting() {
    let mut store = Storage::new();
    store.set("k".to_string(), bulk("v"), Some(50));
    assert!(store.get("k".to_string()).is_some());
    let start = std::time::Instant::now();
    while start.elapsed().as_millis() < 120 {}
    assert!(store.get("k".to_string()).is_none());
}

#[test]
fn get_and_set_through_requests() {
    let mut store = Storage::new();
    let r = handle_request_at(b"*5\r\n$3\r\nSET\r\n$1\r\nk\r\n$1\r\nv\r\n$2\r\nPX\r\n$2\r\n50\r\n", &mut store, 100);
    assert_eq!(r, b"+OK\r\n".to_vec());
    let get = b"*2\r\n$3\r\nGET\r\n$1\r\nk\r\n";
    assert_eq!(handle_request_at(get, &mut store, 100), b"$1\r\nv\r\n".to_vec());
    assert_eq!(handle_request_at(get, &mut store, 151), b"$-1\r\n".to_vec());
    let r = handle_request_at(b"*5\r\n$3\r\nSET\r\n$1\r\nk\r\n$1\r\nw\r\n$2\r\nEX\r\n$1\r\n5\r\n", &mut store, 200);
    assert_eq!(r, b"+OK\r\n".to_vec());
    assert_eq!(handle_request_at(get, &mut store, 5200), b"$1\r\nw\r\n".to_vec());
    assert_eq!(handle_request_at(get, &mut store, 5201), b"$-1\r\n".to_vec());
}

#[test]
fn replies_to_ping_echo_and_stubs() {
    let mut store = Storage::new();
    assert_eq!(handle_request(b"PING\r\n", &mut store), b"+PONG\r\n".to_vec());
    assert_eq!(handle_request(b"*2\r\n$4\r\nPING\r\n$2\r\nhi\r\n", &mut store), b"$2\r\nhi\r\n".to_vec());
    assert_eq!(handle_request(b"*2\r\n$4\r\nECHO\r\n$3\r\nhey\r\n", &mut store), b"$3\r\nhey\r\n".to_vec());
    assert_eq!(handle_request(b"*1\r\n$7\r\nCOMMAND\r\n", &mut store), b"*0\r\n".to_vec());
    assert_eq!(handle_request(b"*2\r\n$6\r\nCONFIG\r\n$3\r\nGET\r\n", &mut store), b"*0\r\n".to_vec());
}

#[test]
fn error_replies() {
    let mut store = Storage::new();
    assert_eq!(handle_request_at(b"$9\r\nabc", &mut store, 0), b"-ERR failed to parse request\r\n".to_vec());
    assert_eq!(handle_request_at(b"*1\r\n$3\r\nFOO\r\n", &mut store, 0), b"-ERR unknown command 'FOO'\r\n".to_vec());
    assert_eq!(handle_request_at(b"*1\r\n$4\r\nECHO\r\n", &mut store, 0), b"-ERR wrong number of arguments\r\n".to_vec());
    assert_eq!(error_message(&CommandError::InvalidOption), "ERR syntax error".to_string());
    assert_eq!(error_message(&CommandError::WrongType), "ERR wrong type of argument".to_string());
    assert_eq!(error_message(&CommandError::NotACommand), "ERR request is not a command".to_string());
}

#[test]
fn execute_rejects_non_text_key() {
    let mut store = Storage::new();
    let r = execute_at(RedisCommand::GET(RedisValue::Integer(1)), &mut store, 0);
    assert_eq!(r, RedisValue::Error("ERR invalid key".to_string()));
}

#[test]
fn read_chunks_are_classified() {
    assert_eq!(classify_read(0, 1024), ReadStep::PeerClosed);
    assert_eq!(classify_read(10, 1024), ReadStep::Drained);
    assert_eq!(classify_read(1024, 1024), ReadStep::More);
}

#[test]
fn closed_connection_is_forgotten() {
    let mut reactor = Reactor::new();
    assert_eq!(reactor.on_accept(7), vec![Action::Register(7, Interest::Read)]);
    assert!(reactor.is_open(7));
    assert_eq!(
        reactor.on_closed(7),
        vec![Action::Deregister(7, Interest::Read), Action::Close(7)]
    );
    assert!(!reactor.is_open(7));
    assert_eq!(reactor.on_closed(7), vec![Action::LogUnknown(7)]);
    assert_eq!(reactor.on_written(7, 3), vec![Action::LogUnknown(7)]);
    let mut store = Storage::new();
    assert_eq!(reactor.on_data(7, b"PING\r\n", &mut store, 0), vec![Action::LogUnknown(7)]);
}

#[test]
fn closing_a_writing_connection_drops_both_interests() {
    let mut reactor = Reactor::new();
    let mut store = Storage::new();
    reactor.on_accept(4);
    reactor.on_data(4, b"PING\r\n", &mut store, 0);
    assert_eq!(
        reactor.on_closed(4),
        vec![
            Action::Deregister(4, Interest::Read),
            Action::Deregister(4, Interest::Write),
            Action::Close(4)
        ]
    );
}

#[test]
fn partial_write_keeps_remainder() {
    let mut reactor = Reactor::new();
    let mut store = Storage::new();
    reactor.on_accept(5);
    assert_eq!(
        reactor.on_data(5, b"PING\r\n", &mut store, 0),
        vec![Action::Register(5, Interest::Write)]
    );
    assert_eq!(reactor.pending(5), Some(&b"+PONG\r\n".to_vec()));
    assert_eq!(reactor.on_written(5, 3), vec![]);
    assert_eq!(reactor.pending(5), Some(&b"NG\r\n".to_vec()));
    assert_eq!(reactor.on_written(5, 0), vec![]);
    assert_eq!(reactor.pending(5), Some(&b"NG\r\n".to_vec()));
    assert_eq!(reactor.on_written(5, 4), vec![Action::Deregister(5, Interest::Write)]);
    assert_eq!(reactor.pending(5), Some(&Vec::new()));
    assert!(reactor.is_open(5));
}

#[test]
fn malformed_request_gets_error_and_connection_stays() {
    let mut reactor = Reactor::new();
    let mut store = Storage::new();
    reactor.on_accept(9);
    assert_eq!(
        reactor.on_data(9, b"*1\r\n$9\r\nPI", &mut store, 0),
        vec![Action::Register(9, Interest::Write)]
    );
    assert_eq!(reactor.pending(9), Some(&b"-ERR failed to parse request\r\n".to_vec()));
    assert!(reactor.is_open(9));
    reactor.on_written(9, 30);
    reactor.on_data(9, b"*1\r\n$4\r\nPING\r\n", &mut store, 0);
    assert_eq!(reactor.pending(9), Some(&b"+PONG\r\n".to_vec()));
}

#[test]
fn empty_read_queues_nothing() {
    let mut reactor = Reactor::new();
    let mut store = Storage::new();
    reactor.on_accept(3);
    assert_eq!(reactor.on_data(3, b"", &mut store, 0), vec![]);
    assert_eq!(reactor.pending(3), Some(&Vec::new()));
}
