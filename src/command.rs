use vstd::prelude::*;
use vstd::utf8::*;
use crate::decimal::{parse_u64, uint_of_text};
use crate::resp::{
    frames_of, inline_ping, lemma_frames_of, lemma_round_trip_frame, parse_request, parse_resp,
    ping_text, serialize, serialize_all, wire_safe, Frame, ParseError, RedisValue,
};

verus! {

/// A request the server understands.
#[derive(Debug, PartialEq)]
pub enum RedisCommand {
    /// `PING [message]`, with the value to reply.
    PING(RedisValue),
    /// `ECHO message`, with the value to reply.
    ECHO(RedisValue),
    /// `SET key value [EX seconds | PX milliseconds]`, the expiry in milliseconds.
    SET(RedisValue, RedisValue, Option<u64>),
    /// `GET key`.
    GET(RedisValue),
    CONFIG,
    COMMAND,
}

/// Why a request is not a command.
#[derive(Debug, PartialEq)]
pub enum CommandError {
    /// The request could not be read.
    Parse(ParseError),
    /// The request is not a non-empty array whose first element is text.
    NotACommand,
    /// Too few or too many arguments.
    WrongArity,
    /// An argument is not text.
    WrongType,
    /// A `SET` option is unknown, lacks its value, or its value is not a number.
    InvalidOption,
    /// The command name is not known; the name as sent.
    UnknownCommand(String),
}

/// The content of a `RedisCommand`.
pub enum Command {
    Ping(Frame),
    Echo(Frame),
    Store(Frame, Frame, Option<int>),
    Fetch(Frame),
    Config,
    Introspect,
}

/// The content of a `CommandError`.
pub enum Fault {
    Parse(ParseError),
    NotACommand,
    WrongArity,
    WrongType,
    InvalidOption,
    UnknownCommand(Seq<char>),
}

impl View for RedisCommand {
    type V = Command;

    open spec fn view(&self) -> Command {
        match self {
            RedisCommand::PING(v) => Command::Ping(v@),
            RedisCommand::ECHO(v) => Command::Echo(v@),
            RedisCommand::SET(k, v, e) => Command::Store(
                k@,
                v@,
                match e {
                    Some(ms) => Some(*ms as int),
                    None => None,
                },
            ),
            RedisCommand::GET(k) => Command::Fetch(k@),
            RedisCommand::CONFIG => Command::Config,
            RedisCommand::COMMAND => Command::Introspect,
        }
    }
}

impl View for CommandError {
    type V = Fault;

    open spec fn view(&self) -> Fault {
        match self {
            CommandError::Parse(e) => Fault::Parse(*e),
            CommandError::NotACommand => Fault::NotACommand,
            CommandError::WrongArity => Fault::WrongArity,
            CommandError::WrongType => Fault::WrongType,
            CommandError::InvalidOption => Fault::InvalidOption,
            CommandError::UnknownCommand(name) => Fault::UnknownCommand(name@),
        }
    }
}

/// What `str::to_uppercase` makes of a text.
pub uninterp spec fn upper_of(s: Seq<char>) -> Seq<char>;

/// Relies on `str::to_uppercase`: the upper-case form of the characters,
/// which depends on them alone.
#[verifier::external_body]
fn uppercase(s: &str) -> (r: String)
    ensures
        r@ == upper_of(s@),
{
    s.to_uppercase()
}

pub open spec fn word_ping() -> Seq<u8> {
    seq![80u8, 73u8, 78u8, 71u8]
}

pub open spec fn word_echo() -> Seq<u8> {
    seq![69u8, 67u8, 72u8, 79u8]
}

pub open spec fn word_get() -> Seq<u8> {
    seq![71u8, 69u8, 84u8]
}

pub open spec fn word_set() -> Seq<u8> {
    seq![83u8, 69u8, 84u8]
}

pub open spec fn word_config() -> Seq<u8> {
    seq![67u8, 79u8, 78u8, 70u8, 73u8, 71u8]
}

pub open spec fn word_command() -> Seq<u8> {
    seq![67u8, 79u8, 77u8, 77u8, 65u8, 78u8, 68u8]
}

pub open spec fn word_ex() -> Seq<u8> {
    seq![69u8, 88u8]
}

pub open spec fn word_px() -> Seq<u8> {
    seq![80u8, 88u8]
}

/// The characters of `PONG`.
pub open spec fn pong_text() -> Seq<char> {
    seq!['P', 'O', 'N', 'G']
}

/// Case-insensitive match of a text against an upper-case ASCII word.
pub open spec fn names(text: Seq<char>, word: Seq<u8>) -> bool {
    encode_utf8(upper_of(text)) == word
}

/// The text that an argument carries: a simple string or a non-nil bulk string.
pub open spec fn arg_text(f: Frame) -> Option<Seq<char>> {
    match f {
        Frame::SimpleString(s) => Some(s),
        Frame::BulkString(Some(s)) => Some(s),
        _ => None,
    }
}

/// The expiry that the `SET` options `opts` give, starting from `acc`, where
/// `folded[i]` is the upper-case form of the text of `opts[i]`: options
/// come in pairs, `EX seconds` or `PX milliseconds`, the last one winning.
pub open spec fn set_expiry(opts: Seq<Frame>, folded: Seq<Seq<char>>, acc: Option<int>) -> Result<
    Option<int>,
    Fault,
>
    decreases opts.len(),
{
    if opts.len() == 0 {
        Ok(acc)
    } else {
        match arg_text(opts[0]) {
            None => Err(Fault::InvalidOption),
            Some(_) => {
                let token = encode_utf8(folded[0]);
                if token != word_ex() && token != word_px() {
                    Err(Fault::InvalidOption)
                } else if opts.len() < 2 {
                    Err(Fault::InvalidOption)
                } else {
                    match arg_text(opts[1]) {
                        None => Err(Fault::InvalidOption),
                        Some(amount) => match uint_of_text(encode_utf8(amount)) {
                            None => Err(Fault::InvalidOption),
                            Some(n) => {
                                let ms: int = if token == word_ex() {
                                    n * 1000int
                                } else {
                                    n as int
                                };
                                if ms > u64::MAX {
                                    Err(Fault::InvalidOption)
                                } else {
                                    set_expiry(
                                        opts.subrange(2, opts.len() as int),
                                        folded.subrange(2, folded.len() as int),
                                        Some(ms),
                                    )
                                }
                            },
                        },
                    }
                }
            },
        }
    }
}

/// The command that a request value stands for, where `folded[i]` is the
/// upper-case form of the text of its `i`-th element.
pub open spec fn command_of_folded(f: Frame, folded: Seq<Seq<char>>) -> Result<Command, Fault> {
    match f {
        Frame::Array(Some(items)) => if items.len() == 0 {
            Err(Fault::NotACommand)
        } else {
            match arg_text(items[0]) {
                None => Err(Fault::NotACommand),
                Some(name) => {
                    let word = encode_utf8(folded[0]);
                    let args = items.subrange(1, items.len() as int);
                    if word == word_ping() {
                        if args.len() > 1 {
                            Err(Fault::WrongArity)
                        } else if args.len() == 1 {
                            match arg_text(args[0]) {
                                Some(t) => Ok(Command::Ping(Frame::BulkString(Some(t)))),
                                None => Err(Fault::WrongType),
                            }
                        } else {
                            Ok(Command::Ping(Frame::SimpleString(pong_text())))
                        }
                    } else if word == word_echo() || word == word_get() {
                        if args.len() != 1 {
                            Err(Fault::WrongArity)
                        } else {
                            match arg_text(args[0]) {
                                Some(t) => if word == word_echo() {
                                    Ok(Command::Echo(Frame::BulkString(Some(t))))
                                } else {
                                    Ok(Command::Fetch(Frame::BulkString(Some(t))))
                                },
                                None => Err(Fault::WrongType),
                            }
                        }
                    } else if word == word_set() {
                        if args.len() < 2 {
                            Err(Fault::WrongArity)
                        } else {
                            match (arg_text(args[0]), arg_text(args[1])) {
                                (Some(k), Some(v)) => match set_expiry(
                                    items.subrange(3, items.len() as int),
                                    folded.subrange(3, folded.len() as int),
                                    None,
                                ) {
                                    Ok(e) => Ok(
                                        Command::Store(
                                            Frame::BulkString(Some(k)),
                                            Frame::BulkString(Some(v)),
                                            e,
                                        ),
                                    ),
                                    Err(x) => Err(x),
                                },
                                _ => Err(Fault::WrongType),
                            }
                        }
                    } else if word == word_config() {
                        Ok(Command::Config)
                    } else if word == word_command() {
                        Ok(Command::Introspect)
                    } else {
                        Err(Fault::UnknownCommand(name))
                    }
                },
            }
        },
        _ => Err(Fault::NotACommand),
    }
}

/// The upper-case form of the text of each element (empty for an element
/// that is not text).
pub open spec fn folds_of(items: Seq<Frame>) -> Seq<Seq<char>> {
    Seq::new(
        items.len(),
        |i: int|
            match arg_text(items[i]) {
                Some(t) => upper_of(t),
                None => Seq::empty(),
            },
    )
}

/// The command that a request value stands for.
pub open spec fn command_of(f: Frame) -> Result<Command, Fault> {
    match f {
        Frame::Array(Some(items)) => command_of_folded(f, folds_of(items)),
        _ => Err(Fault::NotACommand),
    }
}

/// The content of an interpretation result.
pub open spec fn command_view(r: Result<RedisCommand, CommandError>) -> Result<Command, Fault> {
    match r {
        Ok(c) => Ok(c@),
        Err(e) => Err(e@),
    }
}

/// The text that an argument carries, if it is text.
fn arg_text_of(v: &RedisValue) -> (r: Option<&String>)
    ensures
        r matches Some(s) ==> arg_text(v@) == Some(s@),
        r is None ==> arg_text(v@) is None,
{
    match v {
        RedisValue::SimpleString(s) => Some(s),
        RedisValue::BulkString(Some(s)) => Some(s),
        _ => None,
    }
}

fn same_bytes(a: &[u8], b: &[u8]) -> (r: bool)
    ensures
        r == (a@ == b@),
{
    if a.len() != b.len() {
        return false;
    }
    let mut i: usize = 0;
    while i < a.len()
        invariant
            a@.len() == b@.len(),
            i <= a@.len(),
            forall|k: int| 0 <= k < i ==> a@[k] == b@[k],
        decreases a@.len() - i,
    {
        if a[i] != b[i] {
            return false;
        }
        i = i + 1;
    }
    assert(a@ =~= b@);
    true
}

/// Whether the bytes of `upper` are `word`.
fn is_named(upper: &String, word: &Vec<u8>) -> (r: bool)
    ensures
        r == (encode_utf8(upper@) == word@),
{
    same_bytes(upper.as_str().as_bytes(), word.as_slice())
}

fn pong_string() -> (r: String)
    ensures
        r@ == pong_text(),
{
    let r = "PONG".to_string();
    proof {
        reveal_strlit("PONG");
    }
    assert(r@ =~= pong_text());
    r
}

/// Reads the `SET` options of `items` from index `start` on; `folded[i]`
/// is the upper-case form of the text of `items[i]`.
fn pick_set_expiry(items: &Vec<RedisValue>, folded: &Vec<String>, start: usize) -> (r: Result<
    Option<u64>,
    CommandError,
>)
    requires
        start <= items@.len(),
        folded@.len() == items@.len(),
    ensures
        ({
            let opts = frames_of(items@).subrange(start as int, items@.len() as int);
            let fs = folded@.map_values(|t: String| t@).subrange(start as int, items@.len() as int);
            match r {
                Ok(e) => set_expiry(opts, fs, None) == Ok::<Option<int>, Fault>(
                    match e {
                        Some(ms) => Some(ms as int),
                        None => None,
                    },
                ),
                Err(x) => set_expiry(opts, fs, None) == Err::<Option<int>, Fault>(x@),
            }
        }),
{
    let ghost fs = frames_of(items@);
    let ghost ups = folded@.map_values(|t: String| t@);
    proof {
        lemma_frames_of(items@);
    }
    let n = items.len();
    let ex: Vec<u8> = vec![69u8, 88u8];
    let px: Vec<u8> = vec![80u8, 88u8];
    assert(ex@ =~= word_ex());
    assert(px@ =~= word_px());
    let mut acc: Option<u64> = None;
    let mut i: usize = start;
    while i < n
        invariant
            n == items@.len(),
            n == folded@.len(),
            start <= i <= n,
            fs == frames_of(items@),
            fs.len() == n,
            ups == folded@.map_values(|t: String| t@),
            forall|k: int| 0 <= k < n ==> #[trigger] fs[k] == items@[k]@,
            ex@ == word_ex(),
            px@ == word_px(),
            set_expiry(fs.subrange(start as int, n as int), ups.subrange(start as int, n as int), None)
                == set_expiry(
                fs.subrange(i as int, n as int),
                ups.subrange(i as int, n as int),
                match acc {
                    Some(ms) => Some(ms as int),
                    None => None,
                },
            ),
        decreases n - i,
    {
        let ghost opts = fs.subrange(i as int, n as int);
        let ghost fopts = ups.subrange(i as int, n as int);
        assert(opts[0] == items@[i as int]@);
        assert(fopts[0] == folded@[i as int]@);
        if arg_text_of(&items[i]).is_none() {
            return Err(CommandError::InvalidOption);
        }
        let is_ex = is_named(&folded[i], &ex);
        let is_px = is_named(&folded[i], &px);
        if !is_ex && !is_px {
            return Err(CommandError::InvalidOption);
        }
        if i + 1 >= n {
            return Err(CommandError::InvalidOption);
        }
        assert(opts[1] == items@[i + 1]@);
        let amount = match arg_text_of(&items[i + 1]) {
            Some(t) => t,
            None => {
                return Err(CommandError::InvalidOption);
            },
        };
        let count = match parse_u64(amount.as_str().as_bytes()) {
            Some(c) => c,
            None => {
                return Err(CommandError::InvalidOption);
            },
        };
        let ms = if is_ex {
            match count.checked_mul(1000) {
                Some(m) => m,
                None => {
                    return Err(CommandError::InvalidOption);
                },
            }
        } else {
            count
        };
        assert(opts.subrange(2, opts.len() as int) =~= fs.subrange(i + 2, n as int));
        assert(fopts.subrange(2, fopts.len() as int) =~= ups.subrange(i + 2, n as int));
        acc = Some(ms);
        i = i + 2;
    }
    assert(fs.subrange(i as int, n as int) =~= Seq::<Frame>::empty());
    Ok(acc)
}

/// Interprets a request value as a command, given the upper-case form of
/// the text of each of its elements (`folded[i]` for element `i`).
pub fn interpret_folded(value: &RedisValue, folded: &Vec<String>) -> (r: Result<RedisCommand, CommandError>)
    requires
        value matches RedisValue::Array(Some(items)) ==> folded@.len() == items@.len(),
    ensures
        command_view(r) == match value@ {
            Frame::Array(Some(items)) => command_of_folded(
                value@,
                folded@.map_values(|t: String| t@),
            ),
            _ => Err(Fault::NotACommand),
        },
{
    let items = match value {
        RedisValue::Array(Some(items)) => items,
        _ => {
            return Err(CommandError::NotACommand);
        },
    };
    let n = items.len();
    if n == 0 {
        return Err(CommandError::NotACommand);
    }
    proof {
        lemma_frames_of(items@);
    }
    let ghost fs = frames_of(items@);
    let ghost ups = folded@.map_values(|t: String| t@);
    let ghost args = fs.subrange(1, n as int);
    let name = match arg_text_of(&items[0]) {
        Some(t) => t,
        None => {
            return Err(CommandError::NotACommand);
        },
    };
    let up = &folded[0];
    assert(ups[0] == up@);
    let w_ping: Vec<u8> = vec![80u8, 73u8, 78u8, 71u8];
    let w_echo: Vec<u8> = vec![69u8, 67u8, 72u8, 79u8];
    let w_get: Vec<u8> = vec![71u8, 69u8, 84u8];
    let w_set: Vec<u8> = vec![83u8, 69u8, 84u8];
    let w_config: Vec<u8> = vec![67u8, 79u8, 78u8, 70u8, 73u8, 71u8];
    let w_command: Vec<u8> = vec![67u8, 79u8, 77u8, 77u8, 65u8, 78u8, 68u8];
    assert(w_ping@ =~= word_ping());
    assert(w_echo@ =~= word_echo());
    assert(w_get@ =~= word_get());
    assert(w_set@ =~= word_set());
    assert(w_config@ =~= word_config());
    assert(w_command@ =~= word_command());
    if n > 1 {
        assert(args[0] == items@[1]@);
    }
    if n > 2 {
        assert(args[1] == items@[2]@);
    }
    if is_named(up, &w_ping) {
        if n > 2 {
            return Err(CommandError::WrongArity);
        }
        if n == 2 {
            match arg_text_of(&items[1]) {
                Some(t) => Ok(RedisCommand::PING(RedisValue::BulkString(Some(t.clone())))),
                None => Err(CommandError::WrongType),
            }
        } else {
            Ok(RedisCommand::PING(RedisValue::SimpleString(pong_string())))
        }
    } else if is_named(up, &w_echo) || is_named(up, &w_get) {
        let echo = is_named(up, &w_echo);
        if n != 2 {
            return Err(CommandError::WrongArity);
        }
        match arg_text_of(&items[1]) {
            Some(t) => {
                let arg = RedisValue::BulkString(Some(t.clone()));
                if echo {
                    Ok(RedisCommand::ECHO(arg))
                } else {
                    Ok(RedisCommand::GET(arg))
                }
            },
            None => Err(CommandError::WrongType),
        }
    } else if is_named(up, &w_set) {
        if n < 3 {
            return Err(CommandError::WrongArity);
        }
        let key = match arg_text_of(&items[1]) {
            Some(t) => t,
            None => {
                return Err(CommandError::WrongType);
            },
        };
        let val = match arg_text_of(&items[2]) {
            Some(t) => t,
            None => {
                return Err(CommandError::WrongType);
            },
        };
        let expiry = pick_set_expiry(items, folded, 3)?;
        Ok(
            RedisCommand::SET(
                RedisValue::BulkString(Some(key.clone())),
                RedisValue::BulkString(Some(val.clone())),
                expiry,
            ),
        )
    } else if is_named(up, &w_config) {
        Ok(RedisCommand::CONFIG)
    } else if is_named(up, &w_command) {
        Ok(RedisCommand::COMMAND)
    } else {
        Err(CommandError::UnknownCommand(name.clone()))
    }
}

/// Interprets a request value as a command; command names and `SET`
/// options are matched without regard to case.
pub fn extract_command(value: &RedisValue) -> (r: Result<RedisCommand, CommandError>)
    ensures
        command_view(r) == command_of(value@),
{
    let items = match value {
        RedisValue::Array(Some(items)) => items,
        _ => {
            return Err(CommandError::NotACommand);
        },
    };
    proof {
        lemma_frames_of(items@);
    }
    let mut folded: Vec<String> = Vec::new();
    let mut i: usize = 0;
    while i < items.len()
        invariant
            i <= items@.len(),
            folded@.len() == i,
            frames_of(items@).len() == items@.len(),
            forall|k: int| 0 <= k < items@.len() ==> #[trigger] frames_of(items@)[k] == items@[k]@,
            forall|k: int|
                0 <= k < i ==> #[trigger] folded@[k]@ == folds_of(frames_of(items@))[k],
        decreases items@.len() - i,
    {
        let up = match arg_text_of(&items[i]) {
            Some(t) => uppercase(t.as_str()),
            None => String::new(),
        };
        folded.push(up);
        i = i + 1;
    }
    assert(folded@.map_values(|t: String| t@) =~= folds_of(frames_of(items@)));
    interpret_folded(value, &folded)
}

/// The command that a request buffer stands for.
pub open spec fn command_of_request(b: Seq<u8>) -> Result<Command, Fault> {
    match parse_request(b) {
        Err(e) => Err(Fault::Parse(e)),
        Ok(None) => Err(Fault::NotACommand),
        Ok(Some(f)) => command_of(f),
    }
}

/// Reads a request buffer and interprets it as a command.
pub fn extract_commands(buffer: &[u8]) -> (r: Result<RedisCommand, CommandError>)
    ensures
        command_view(r) == command_of_request(buffer@),
{
    match parse_resp(buffer) {
        Err(e) => Err(CommandError::Parse(e)),
        Ok(None) => Err(CommandError::NotACommand),
        Ok(Some(v)) => extract_command(&v),
    }
}

/// `SET key value EX n` sets the same expiry as `SET key value PX m` where
/// `m` is `n` times 1000.
pub proof fn lemma_ex_is_px(
    set: Seq<char>,
    key: Seq<char>,
    value: Seq<char>,
    ex: Seq<char>,
    secs: Seq<char>,
    px: Seq<char>,
    millis: Seq<char>,
)
    requires
        names(set, word_set()),
        names(ex, word_ex()),
        names(px, word_px()),
        uint_of_text(encode_utf8(secs)) matches Some(n) && uint_of_text(encode_utf8(millis)) == Some(
            n * 1000,
        ),
    ensures
        command_of(
            Frame::Array(
                Some(
                    seq![
                        Frame::BulkString(Some(set)),
                        Frame::BulkString(Some(key)),
                        Frame::BulkString(Some(value)),
                        Frame::BulkString(Some(ex)),
                        Frame::BulkString(Some(secs)),
                    ],
                ),
            ),
        ) == command_of(
            Frame::Array(
                Some(
                    seq![
                        Frame::BulkString(Some(set)),
                        Frame::BulkString(Some(key)),
                        Frame::BulkString(Some(value)),
                        Frame::BulkString(Some(px)),
                        Frame::BulkString(Some(millis)),
                    ],
                ),
            ),
        ),
{
    let a = seq![
        Frame::BulkString(Some(set)),
        Frame::BulkString(Some(key)),
        Frame::BulkString(Some(value)),
        Frame::BulkString(Some(ex)),
        Frame::BulkString(Some(secs)),
    ];
    let b = seq![
        Frame::BulkString(Some(set)),
        Frame::BulkString(Some(key)),
        Frame::BulkString(Some(value)),
        Frame::BulkString(Some(px)),
        Frame::BulkString(Some(millis)),
    ];
    assert(word_set() != word_ping() && word_set()[0] != word_echo()[0] && word_set()[0]
        != word_get()[0]);
    assert(word_px()[0] != word_ex()[0]);
    let fa = folds_of(a);
    let fb = folds_of(b);
    assert(fa[0] == upper_of(set) && fb[0] == upper_of(set));
    assert(a[0] == b[0] && a[1] == b[1] && a[2] == b[2]);
    assert(a.subrange(1, 5)[0] == a[1] && a.subrange(1, 5)[1] == a[2]);
    assert(b.subrange(1, 5)[0] == b[1] && b.subrange(1, 5)[1] == b[2]);
    let oa = a.subrange(3, 5);
    let ob = b.subrange(3, 5);
    let ga = fa.subrange(3, 5);
    let gb = fb.subrange(3, 5);
    assert(oa.subrange(2, 2) =~= Seq::<Frame>::empty());
    assert(ob.subrange(2, 2) =~= Seq::<Frame>::empty());
    assert(oa[0] == Frame::BulkString(Some(ex)));
    assert(ob[0] == Frame::BulkString(Some(px)));
    assert(oa[1] == Frame::BulkString(Some(secs)));
    assert(ob[1] == Frame::BulkString(Some(millis)));
    assert(ga[0] == upper_of(ex));
    assert(gb[0] == upper_of(px));
    let n = uint_of_text(encode_utf8(secs))->Some_0;
    assert(word_ex()[0] != word_px()[0]);
    assert(ga.subrange(2, ga.len() as int) =~= Seq::<Seq<char>>::empty());
    assert(gb.subrange(2, gb.len() as int) =~= Seq::<Seq<char>>::empty());
    assert(set_expiry(oa.subrange(2, 2), ga.subrange(2, 2), Some(n * 1000int)) == Ok::<Option<int>, Fault>(Some(n * 1000int)));
    assert(set_expiry(ob.subrange(2, 2), gb.subrange(2, 2), Some(n * 1000int)) == Ok::<Option<int>, Fault>(Some(n * 1000int)));
    assert(set_expiry(oa, ga, None) == set_expiry(ob, gb, None));
}

proof fn lemma_words_differ()
    ensures
        word_ping() != word_echo(),
        word_ping() != word_get(),
        word_ping() != word_set(),
        word_echo() != word_get(),
        word_echo() != word_set(),
        word_get() != word_set(),
{
    assert(word_ping()[0] != word_echo()[0]);
    assert(word_ping()[0] != word_get()[0]);
    assert(word_ping()[0] != word_set()[0]);
    assert(word_echo()[0] != word_get()[0]);
    assert(word_echo()[0] != word_set()[0]);
    assert(word_get()[0] != word_set()[0]);
}

/// `PING` takes at most one argument, `ECHO` exactly one, `SET` at least
/// two: any other count is refused as a wrong arity.
pub proof fn lemma_arity(name: Seq<char>, args: Seq<Frame>)
    ensures
        names(name, word_ping()) && args.len() >= 2 ==> command_of(
            Frame::Array(Some(seq![Frame::BulkString(Some(name))] + args)),
        ) == Err::<Command, Fault>(Fault::WrongArity),
        names(name, word_echo()) && args.len() != 1 ==> command_of(
            Frame::Array(Some(seq![Frame::BulkString(Some(name))] + args)),
        ) == Err::<Command, Fault>(Fault::WrongArity),
        names(name, word_set()) && args.len() < 2 ==> command_of(
            Frame::Array(Some(seq![Frame::BulkString(Some(name))] + args)),
        ) == Err::<Command, Fault>(Fault::WrongArity),
{
    lemma_words_differ();
    let items = seq![Frame::BulkString(Some(name))] + args;
    assert(items[0] == Frame::BulkString(Some(name)));
    assert(items.subrange(1, items.len() as int) =~= args);
}

/// The bytes `*1\r\n$4\r\nPING\r\n` read as the array holding the bulk
/// string `PING`.
proof fn lemma_array_ping_bytes()
    ensures
        parse_request(
            seq![42u8, 49u8, 13u8, 10u8, 36u8, 52u8, 13u8, 10u8, 80u8, 73u8, 78u8, 71u8, 13u8, 10u8],
        ) == Ok::<Option<Frame>, ParseError>(
            Some(Frame::Array(Some(seq![Frame::BulkString(Some(ping_text()))]))),
        ),
{
    let p = ping_text();
    assert(is_ascii_chars(p));
    is_ascii_chars_encode_utf8(p);
    assert(encode_utf8(p) =~= seq![80u8, 73u8, 78u8, 71u8]);
    let bulk = Frame::BulkString(Some(p));
    let f = Frame::Array(Some(seq![bulk]));
    assert(seq![bulk].subrange(0, 0) =~= Seq::<Frame>::empty());
    assert(serialize_all(seq![bulk]) == serialize_all(Seq::<Frame>::empty()) + serialize(bulk));
    assert(serialize_all(Seq::<Frame>::empty()) =~= Seq::<u8>::empty());
    assert(serialize(f) =~= seq![42u8, 49u8, 13u8, 10u8, 36u8, 52u8, 13u8, 10u8, 80u8, 73u8, 78u8, 71u8, 13u8, 10u8]);
    assert(!encode_utf8(p).contains(13u8));
    assert(wire_safe(bulk));
    assert forall|i: int| 0 <= i < seq![bulk].len() implies wire_safe(#[trigger] seq![bulk][i]) by {
        assert(seq![bulk][i] == bulk);
    }
    lemma_round_trip_frame(f);
}

/// The legacy inline `PING\r\n` is the same command as the array request
/// `*1\r\n$4\r\nPING\r\n`.
pub proof fn lemma_inline_ping()
    ensures
        command_of_request(inline_ping()) == command_of_request(
            seq![42u8, 49u8, 13u8, 10u8, 36u8, 52u8, 13u8, 10u8, 80u8, 73u8, 78u8, 71u8, 13u8, 10u8],
        ),
{
    let p = ping_text();
    lemma_array_ping_bytes();
    let s = inline_ping();
    assert(s.subrange(0, 6) =~= inline_ping());
    let sa = seq![Frame::SimpleString(p)];
    let sb = seq![Frame::BulkString(Some(p))];
    assert(parse_request(s) == Ok::<Option<Frame>, ParseError>(Some(Frame::Array(Some(sa)))));
    assert(folds_of(sa) =~= folds_of(sb));
    assert(sa.subrange(1, 1) =~= sb.subrange(1, 1));
    assert(arg_text(sa[0]) == arg_text(sb[0]));
    assert(command_of(Frame::Array(Some(sa))) == command_of(Frame::Array(Some(sb))));
}

} // verus!
