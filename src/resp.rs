use vstd::prelude::*;
use vstd::utf8::*;
use vstd::slice::{slice_subrange, slice_to_vec};
use crate::decimal::{
    fits_i64, int_of_text, int_text, is_digit, lemma_int_text_round_trip, lemma_nat_text, nat_text,
    parse_i64, push_i64_text, push_u64_text,
};

verus! {

broadcast use vstd::std_specs::vec::group_vec_axioms;

/// A value of the wire protocol.
#[derive(Debug, PartialEq)]
pub enum RedisValue {
    SimpleString(String),
    Error(String),
    Integer(i64),
    BulkString(Option<String>),
    Array(Option<Vec<RedisValue>>),
    Boolean(bool),
    Null,
}

/// The mathematical content of a `RedisValue`: text as characters, numbers
/// as integers.
pub enum Frame {
    SimpleString(Seq<char>),
    Error(Seq<char>),
    Integer(int),
    BulkString(Option<Seq<char>>),
    Array(Option<Seq<Frame>>),
    Boolean(bool),
    Null,
}

pub open spec fn frame_of(v: RedisValue) -> Frame
    decreases v, 0int,
{
    match v {
        RedisValue::SimpleString(s) => Frame::SimpleString(s@),
        RedisValue::Error(s) => Frame::Error(s@),
        RedisValue::Integer(i) => Frame::Integer(i as int),
        RedisValue::BulkString(b) => match b {
            Some(s) => Frame::BulkString(Some(s@)),
            None => Frame::BulkString(None),
        },
        RedisValue::Array(a) => match a {
            Some(items) => Frame::Array(Some(frames_of(items@))),
            None => Frame::Array(None),
        },
        RedisValue::Boolean(b) => Frame::Boolean(b),
        RedisValue::Null => Frame::Null,
    }
}

pub open spec fn frames_of(s: Seq<RedisValue>) -> Seq<Frame>
    decreases s, 1int,
{
    if s.len() == 0 {
        Seq::empty()
    } else {
        frames_of(s.subrange(0, s.len() - 1)).push(frame_of(s[s.len() - 1]))
    }
}

impl View for RedisValue {
    type V = Frame;

    open spec fn view(&self) -> Frame {
        frame_of(*self)
    }
}

pub proof fn lemma_frames_of(s: Seq<RedisValue>)
    ensures
        frames_of(s).len() == s.len(),
        forall|i: int| 0 <= i < s.len() ==> #[trigger] frames_of(s)[i] == s[i]@,
    decreases s.len(),
{
    if s.len() > 0 {
        lemma_frames_of(s.subrange(0, s.len() - 1));
    }
}

pub open spec fn crlf() -> Seq<u8> {
    seq![13u8, 10u8]
}

/// The wire encoding of a frame.
pub open spec fn serialize(f: Frame) -> Seq<u8>
    decreases f, 0int,
{
    match f {
        Frame::SimpleString(s) => seq![43u8] + encode_utf8(s) + crlf(),
        Frame::Error(s) => seq![45u8] + encode_utf8(s) + crlf(),
        Frame::Integer(i) => seq![58u8] + int_text(i) + crlf(),
        Frame::BulkString(b) => match b {
            Some(s) => seq![36u8] + nat_text(encode_utf8(s).len()) + crlf() + encode_utf8(s)
                + crlf(),
            None => seq![36u8, 45u8, 49u8, 13u8, 10u8],
        },
        Frame::Array(a) => match a {
            Some(items) => seq![42u8] + nat_text(items.len()) + crlf() + serialize_all(items),
            None => seq![42u8, 45u8, 49u8, 13u8, 10u8],
        },
        Frame::Boolean(b) => seq![35u8, if b { 116u8 } else { 102u8 }] + crlf(),
        Frame::Null => seq![95u8, 13u8, 10u8],
    }
}

/// The encodings of a sequence of frames, one after another.
pub open spec fn serialize_all(items: Seq<Frame>) -> Seq<u8>
    decreases items, 1int,
{
    if items.len() == 0 {
        Seq::empty()
    } else {
        serialize_all(items.subrange(0, items.len() - 1)) + serialize(items[items.len() - 1])
    }
}

impl RedisValue {
    /// The wire encoding of this value, as text.
    pub fn to_resp_string(&self) -> (r: String)
        ensures
            encode_utf8(r@) == serialize(self@),
    {
        let bytes = self.to_resp_bytes();
        proof {
            lemma_serialize_valid_utf8(self@);
        }
        match decode_text(bytes) {
            Some(text) => text,
            None => String::new(),
        }
    }

    /// The wire encoding of this value.
    pub fn to_resp_bytes(&self) -> (r: Vec<u8>)
        ensures
            r@ == serialize(self@),
    {
        let mut out: Vec<u8> = Vec::new();
        self.write_resp(&mut out);
        assert(out@ =~= serialize(self@));
        out
    }

    /// Appends the wire encoding of this value to `out`.
    pub fn write_resp(&self, out: &mut Vec<u8>)
        ensures
            final(out)@ == old(out)@ + serialize(self@),
        decreases self,
    {
        match self {
            RedisValue::SimpleString(s) => {
                out.push(43u8);
                out.extend_from_slice(s.as_str().as_bytes());
                out.push(13u8);
                out.push(10u8);
            },
            RedisValue::Error(s) => {
                out.push(45u8);
                out.extend_from_slice(s.as_str().as_bytes());
                out.push(13u8);
                out.push(10u8);
            },
            RedisValue::Integer(i) => {
                out.push(58u8);
                push_i64_text(out, *i);
                out.push(13u8);
                out.push(10u8);
            },
            RedisValue::BulkString(Some(s)) => {
                let bytes = s.as_str().as_bytes();
                out.push(36u8);
                push_u64_text(out, bytes.len() as u64);
                out.push(13u8);
                out.push(10u8);
                out.extend_from_slice(bytes);
                out.push(13u8);
                out.push(10u8);
            },
            RedisValue::BulkString(None) => {
                out.push(36u8);
                out.push(45u8);
                out.push(49u8);
                out.push(13u8);
                out.push(10u8);
            },
            RedisValue::Array(Some(items)) => {
                out.push(42u8);
                push_u64_text(out, items.len() as u64);
                out.push(13u8);
                out.push(10u8);
                let ghost start = out@;
                let mut i: usize = 0;
                while i < items.len()
                    invariant
                        i <= items@.len(),
                        *self == RedisValue::Array(Some(*items)),
                        out@ == start + serialize_all(frames_of(items@.subrange(0, i as int))),
                    decreases items@.len() - i,
                {
                    let ghost before = out@;
                    proof {
                        let t = items@.subrange(0, i + 1);
                        assert(t.subrange(0, i as int) =~= items@.subrange(0, i as int));
                        let fs = frames_of(items@.subrange(0, i as int));
                        assert(frames_of(t) == fs.push(items@[i as int]@));
                        assert(fs.push(items@[i as int]@).subrange(0, fs.len() as int) =~= fs);
                        lemma_frames_of(items@.subrange(0, i as int));
                        assert(decreases_to!(items => items[i as int]));
                        assert(decreases_to!(*self => self->Array_0));
                        assert(decreases_to!(self->Array_0 => self->Array_0->Some_0));
                        assert(decreases_to!(*self => items[i as int]));
                    }
                    items[i].write_resp(out);
                    proof {
                        let fs = frames_of(items@.subrange(0, i as int));
                        assert(serialize_all(fs.push(items@[i as int]@)) == serialize_all(fs) + serialize(items@[i as int]@));
                        assert(out@ =~= start + serialize_all(frames_of(items@.subrange(0, i + 1))));
                    }
                    i = i + 1;
                }
                proof {
                    assert(items@.subrange(0, i as int) =~= items@);
                    lemma_frames_of(items@);
                }
            },
            RedisValue::Array(None) => {
                out.push(42u8);
                out.push(45u8);
                out.push(49u8);
                out.push(13u8);
                out.push(10u8);
            },
            RedisValue::Boolean(b) => {
                out.push(35u8);
                out.push(if *b { 116u8 } else { 102u8 });
                out.push(13u8);
                out.push(10u8);
            },
            RedisValue::Null => {
                out.push(95u8);
                out.push(13u8);
                out.push(10u8);
            },
        }
        assert(final(out)@ =~= old(out)@ + serialize(self@));
    }
}

/// Why a buffer could not be read as a value.
#[derive(Debug, PartialEq, Eq, Clone, Copy, Structural)]
pub enum ParseError {
    /// The buffer ends inside a value.
    UnexpectedEof,
    /// Text that should be UTF-8 is not.
    InvalidEncoding,
    /// A length, count or integer field is not a decimal 64-bit integer.
    InvalidNumber,
    /// A value starts with a byte that names no type, or a boolean is not `t`/`f`.
    InvalidElement,
}

/// Index of the first CR in `s` at or after `i`.
pub open spec fn first_cr(s: Seq<u8>, i: int) -> Option<int>
    decreases s.len() - i,
{
    if i >= s.len() {
        None
    } else if s[i] == 13u8 {
        Some(i)
    } else {
        first_cr(s, i + 1)
    }
}

/// Index of the CR that ends the line after the type byte, provided the byte
/// that follows it (the LF) is there too.
pub open spec fn line_end(s: Seq<u8>) -> Option<int> {
    match first_cr(s, 1) {
        Some(e) => if e + 1 < s.len() {
            Some(e)
        } else {
            None
        },
        None => None,
    }
}

/// The type bytes that may start a value: `+ - : $ * # _`.
pub open spec fn is_frame_prefix(c: u8) -> bool {
    c == 43u8 || c == 45u8 || c == 58u8 || c == 36u8 || c == 42u8 || c == 35u8 || c == 95u8
}

/// Reads one value at the start of `s`: the value and the number of bytes
/// it takes.
pub open spec fn parse_frame(s: Seq<u8>) -> Result<(Frame, int), ParseError>
    decreases s.len(), 0int,
{
    if s.len() == 0 {
        Err(ParseError::UnexpectedEof)
    } else if s[0] == 95u8 {
        if s.len() >= 3 {
            Ok((Frame::Null, 3))
        } else {
            Err(ParseError::UnexpectedEof)
        }
    } else if !is_frame_prefix(s[0]) {
        Err(ParseError::InvalidElement)
    } else {
        match line_end(s) {
            None => Err(ParseError::UnexpectedEof),
            Some(e) => {
                let text = s.subrange(1, e);
                let next = e + 2;
                if s[0] == 43u8 || s[0] == 45u8 {
                    if !valid_utf8(text) {
                        Err(ParseError::InvalidEncoding)
                    } else if s[0] == 43u8 {
                        Ok((Frame::SimpleString(decode_utf8(text)), next))
                    } else {
                        Ok((Frame::Error(decode_utf8(text)), next))
                    }
                } else if s[0] == 58u8 {
                    match int_of_text(text) {
                        Some(v) => Ok((Frame::Integer(v), next)),
                        None => Err(ParseError::InvalidNumber),
                    }
                } else if s[0] == 35u8 {
                    if text == seq![116u8] {
                        Ok((Frame::Boolean(true), next))
                    } else if text == seq![102u8] {
                        Ok((Frame::Boolean(false), next))
                    } else {
                        Err(ParseError::InvalidElement)
                    }
                } else {
                    match int_of_text(text) {
                        None => Err(ParseError::InvalidNumber),
                        Some(n) => if n == -1 {
                            if s[0] == 36u8 {
                                Ok((Frame::BulkString(None), next))
                            } else {
                                Ok((Frame::Array(None), next))
                            }
                        } else if n < -1 {
                            Err(ParseError::InvalidNumber)
                        } else if s[0] == 36u8 {
                            if next + n + 2 > s.len() {
                                Err(ParseError::UnexpectedEof)
                            } else if !valid_utf8(s.subrange(next, next + n)) {
                                Err(ParseError::InvalidEncoding)
                            } else {
                                Ok(
                                    (
                                        Frame::BulkString(Some(decode_utf8(s.subrange(next, next + n)))),
                                        next + n + 2,
                                    ),
                                )
                            }
                        } else if 0 < next <= s.len() {
                            match parse_frames(s.subrange(next, s.len() as int), n as nat) {
                                Ok((items, used)) => Ok((Frame::Array(Some(items)), next + used)),
                                Err(err) => Err(err),
                            }
                        } else {
                            Err(ParseError::UnexpectedEof)
                        },
                    }
                }
            },
        }
    }
}

/// Reads `n` values one after another at the start of `s`.
pub open spec fn parse_frames(s: Seq<u8>, n: nat) -> Result<(Seq<Frame>, int), ParseError>
    decreases s.len(), 1int,
{
    if n == 0 {
        Ok((Seq::empty(), 0))
    } else if s.len() == 0 {
        Err(ParseError::UnexpectedEof)
    } else if !is_frame_prefix(s[0]) {
        Err(ParseError::InvalidElement)
    } else {
        match parse_frame(s) {
            Err(err) => Err(err),
            Ok((f, used)) => if 0 < used <= s.len() {
                match parse_frames(s.subrange(used, s.len() as int), (n - 1) as nat) {
                    Ok((rest, used2)) => Ok((seq![f] + rest, used + used2)),
                    Err(err) => Err(err),
                }
            } else {
                Err(ParseError::InvalidElement)
            },
        }
    }
}

/// `r` is what `parse_frame` gives on the bytes of `b` from `pos` on, with
/// the end of the value as an index into `b`.
pub open spec fn parsed_at(b: Seq<u8>, pos: int, r: Result<(RedisValue, usize), ParseError>) -> bool {
    match r {
        Ok((v, end)) => parse_frame(b.subrange(pos, b.len() as int)) == Ok::<(Frame, int), ParseError>((v@, end - pos))
            && pos < end <= b.len(),
        Err(e) => parse_frame(b.subrange(pos, b.len() as int)) == Err::<(Frame, int), ParseError>(e),
    }
}

/// Relies on `String::from_utf8`: `Ok` exactly when the bytes are valid
/// UTF-8, holding a string whose bytes are the input.
#[verifier::external_body]
fn decode_text(bytes: Vec<u8>) -> (r: Option<String>)
    ensures
        r is Some <==> valid_utf8(bytes@),
        r matches Some(s) ==> encode_utf8(s@) == bytes@,
{
    String::from_utf8(bytes).ok()
}

/// Decodes `b[start..end]` as UTF-8.
fn text_of(b: &[u8], start: usize, end: usize) -> (r: Option<String>)
    requires
        start <= end <= b@.len(),
    ensures
        r is Some <==> valid_utf8(b@.subrange(start as int, end as int)),
        r matches Some(s) ==> s@ == decode_utf8(b@.subrange(start as int, end as int)),
{
    let bytes = slice_to_vec(slice_subrange(b, start, end));
    let r = decode_text(bytes);
    proof {
        if r is Some {
            encode_utf8_decode_utf8(r->Some_0@);
        }
    }
    r
}

/// Finds the CR that ends the line starting after the type byte at `pos`.
fn scan_line(b: &[u8], pos: usize) -> (r: Result<usize, ParseError>)
    requires
        pos < b@.len(),
    ensures
        match r {
            Ok(e) => line_end(b@.subrange(pos as int, b@.len() as int)) == Some(e - pos) && pos < e
                && e + 1 < b@.len(),
            Err(x) => line_end(b@.subrange(pos as int, b@.len() as int)) is None && x
                == ParseError::UnexpectedEof,
        },
{
    let ghost s = b@.subrange(pos as int, b@.len() as int);
    let n = b.len();
    let mut i: usize = pos + 1;
    while i < b.len()
        invariant
            pos < i <= b@.len(),
            s == b@.subrange(pos as int, b@.len() as int),
            first_cr(s, 1) == first_cr(s, i - pos),
        decreases b@.len() - i,
    {
        if b[i] == 13u8 {
            if i + 1 < b.len() {
                return Ok(i);
            } else {
                return Err(ParseError::UnexpectedEof);
            }
        }
        i = i + 1;
    }
    Err(ParseError::UnexpectedEof)
}

/// Reads the text of a line-terminated value at `pos` (simple string or error).
fn pick_line_text(b: &[u8], pos: usize) -> (r: Result<(String, usize), ParseError>)
    requires
        pos < b@.len(),
    ensures
        ({
            let s = b@.subrange(pos as int, b@.len() as int);
            match r {
                Ok((t, end)) => line_end(s) matches Some(e) && valid_utf8(s.subrange(1, e))
                    && t@ == decode_utf8(s.subrange(1, e)) && end == pos + e + 2 && pos < end
                    <= b@.len(),
                Err(x) => match line_end(s) {
                    None => x == ParseError::UnexpectedEof,
                    Some(e) => !valid_utf8(s.subrange(1, e)) && x == ParseError::InvalidEncoding,
                },
            }
        }),
{
    let ghost s = b@.subrange(pos as int, b@.len() as int);
    let n = b.len();
    let e = scan_line(b, pos)?;
    assert(s.subrange(1, e - pos) =~= b@.subrange(pos + 1, e as int));
    match text_of(b, pos + 1, e) {
        Some(t) => Ok((t, e + 2)),
        None => Err(ParseError::InvalidEncoding),
    }
}

fn pick_simple_string(b: &[u8], pos: usize) -> (r: Result<(RedisValue, usize), ParseError>)
    requires
        pos < b@.len(),
        b@[pos as int] == 43u8,
    ensures
        parsed_at(b@, pos as int, r),
{
    let ghost s = b@.subrange(pos as int, b@.len() as int);
    assert(s[0] == 43u8);
    match pick_line_text(b, pos) {
        Ok((t, end)) => Ok((RedisValue::SimpleString(t), end)),
        Err(x) => Err(x),
    }
}

fn pick_error(b: &[u8], pos: usize) -> (r: Result<(RedisValue, usize), ParseError>)
    requires
        pos < b@.len(),
        b@[pos as int] == 45u8,
    ensures
        parsed_at(b@, pos as int, r),
{
    let ghost s = b@.subrange(pos as int, b@.len() as int);
    assert(s[0] == 45u8);
    match pick_line_text(b, pos) {
        Ok((t, end)) => Ok((RedisValue::Error(t), end)),
        Err(x) => Err(x),
    }
}

fn pick_integer(b: &[u8], pos: usize) -> (r: Result<(RedisValue, usize), ParseError>)
    requires
        pos < b@.len(),
        b@[pos as int] == 58u8,
    ensures
        parsed_at(b@, pos as int, r),
{
    let ghost s = b@.subrange(pos as int, b@.len() as int);
    assert(s[0] == 58u8);
    let n = b.len();
    let e = scan_line(b, pos)?;
    assert(s.subrange(1, e - pos) =~= b@.subrange(pos + 1, e as int));
    match parse_i64(b, pos + 1, e) {
        Some(v) => Ok((RedisValue::Integer(v), e + 2)),
        None => Err(ParseError::InvalidNumber),
    }
}

fn pick_boolean(b: &[u8], pos: usize) -> (r: Result<(RedisValue, usize), ParseError>)
    requires
        pos < b@.len(),
        b@[pos as int] == 35u8,
    ensures
        parsed_at(b@, pos as int, r),
{
    let ghost s = b@.subrange(pos as int, b@.len() as int);
    assert(s[0] == 35u8);
    let n = b.len();
    let e = scan_line(b, pos)?;
    let ghost text = s.subrange(1, e - pos);
    if e == pos + 2 && b[pos + 1] == 116u8 {
        assert(text =~= seq![116u8]);
        Ok((RedisValue::Boolean(true), e + 2))
    } else if e == pos + 2 && b[pos + 1] == 102u8 {
        assert(text =~= seq![102u8]);
        Ok((RedisValue::Boolean(false), e + 2))
    } else {
        assert(text != seq![116u8] && text != seq![102u8]) by {
            if e == pos + 2 {
                assert(text[0] == b@[pos + 1]);
            }
        }
        Err(ParseError::InvalidElement)
    }
}

fn pick_bulk_string(b: &[u8], pos: usize) -> (r: Result<(RedisValue, usize), ParseError>)
    requires
        pos < b@.len(),
        b@[pos as int] == 36u8,
    ensures
        parsed_at(b@, pos as int, r),
{
    let ghost s = b@.subrange(pos as int, b@.len() as int);
    assert(s[0] == 36u8);
    let n = b.len();
    let e = scan_line(b, pos)?;
    assert(s.subrange(1, e - pos) =~= b@.subrange(pos + 1, e as int));
    let len = match parse_i64(b, pos + 1, e) {
        Some(v) => v,
        None => {
            return Err(ParseError::InvalidNumber);
        },
    };
    let next = e + 2;
    if len == -1 {
        return Ok((RedisValue::BulkString(None), next));
    }
    if len < -1 {
        return Err(ParseError::InvalidNumber);
    }
    if (next as u128) + (len as u128) + 2 > (n as u128) {
        return Err(ParseError::UnexpectedEof);
    }
    let stop = next + len as usize;
    assert(s.subrange(next - pos, stop - pos) =~= b@.subrange(next as int, stop as int));
    match text_of(b, next, stop) {
        Some(t) => Ok((RedisValue::BulkString(Some(t)), stop + 2)),
        None => Err(ParseError::InvalidEncoding),
    }
}

proof fn lemma_frames_of_push(s: Seq<RedisValue>, v: RedisValue)
    ensures
        frames_of(s.push(v)) == frames_of(s).push(v@),
{
    assert(s.push(v).subrange(0, s.len() as int) =~= s);
}

fn pick_array(b: &[u8], pos: usize) -> (r: Result<(RedisValue, usize), ParseError>)
    requires
        pos < b@.len(),
        b@[pos as int] == 42u8,
    ensures
        parsed_at(b@, pos as int, r),
    decreases b@.len() - pos, 0int,
{
    let ghost s = b@.subrange(pos as int, b@.len() as int);
    assert(s[0] == 42u8);
    let n = b.len();
    let e = scan_line(b, pos)?;
    assert(s.subrange(1, e - pos) =~= b@.subrange(pos + 1, e as int));
    let count = match parse_i64(b, pos + 1, e) {
        Some(v) => v,
        None => {
            return Err(ParseError::InvalidNumber);
        },
    };
    let next = e + 2;
    if count == -1 {
        return Ok((RedisValue::Array(None), next));
    }
    if count < -1 {
        return Err(ParseError::InvalidNumber);
    }
    let ghost tail0 = b@.subrange(next as int, n as int);
    assert(s.subrange(next - pos, s.len() as int) =~= tail0);
    assert(parse_frame(s) == match parse_frames(tail0, count as nat) {
        Ok((fs, used)) => Ok((Frame::Array(Some(fs)), (next - pos) + used)),
        Err(err) => Err(err),
    });
    let mut items: Vec<RedisValue> = Vec::new();
    let mut i: i64 = 0;
    let mut p: usize = next;
    while i < count
        invariant
            n == b@.len(),
            pos < next <= p <= n,
            0 <= i <= count,
            items@.len() == i,
            tail0 == b@.subrange(next as int, n as int),
            s == b@.subrange(pos as int, b@.len() as int),
            parse_frame(s) == match parse_frames(tail0, count as nat) {
                Ok((fs, used)) => Ok((Frame::Array(Some(fs)), (next - pos) + used)),
                Err(err) => Err::<(Frame, int), ParseError>(err),
            },
            parse_frames(tail0, count as nat) == match parse_frames(
                b@.subrange(p as int, n as int),
                (count - i) as nat,
            ) {
                Ok((fs, used)) => Ok((frames_of(items@) + fs, (p - next) + used)),
                Err(err) => Err(err),
            },
        decreases count - i,
    {
        let ghost sp = b@.subrange(p as int, n as int);
        if p == n {
            return Err(ParseError::UnexpectedEof);
        }
        assert(sp[0] == b@[p as int]);
        let c = b[p];
        if !(c == 43u8 || c == 45u8 || c == 58u8 || c == 36u8 || c == 42u8 || c == 35u8 || c == 95u8) {
            return Err(ParseError::InvalidElement);
        }
        let (v, q) = match parse_value_at(b, p) {
            Ok(x) => x,
            Err(err) => {
                return Err(err);
            },
        };
        proof {
            let k = (count - i) as nat;
            let sq = b@.subrange(q as int, n as int);
            assert(sp.subrange(q - p, sp.len() as int) =~= sq);
            lemma_frames_of_push(items@, v);
            match parse_frames(sq, (k - 1) as nat) {
                Ok((rest, used2)) => {
                    assert(frames_of(items@) + (seq![v@] + rest) =~= frames_of(items@).push(v@) + rest);
                },
                Err(_) => {},
            }
        }
        items.push(v);
        p = q;
        i = i + 1;
    }
    proof {
        assert(frames_of(items@) + Seq::<Frame>::empty() =~= frames_of(items@));
    }
    Ok((RedisValue::Array(Some(items)), p))
}

/// Reads the value that starts at `pos`.
fn parse_value_at(b: &[u8], pos: usize) -> (r: Result<(RedisValue, usize), ParseError>)
    requires
        pos <= b@.len(),
    ensures
        parsed_at(b@, pos as int, r),
    decreases b@.len() - pos, 1int,
{
    let ghost s = b@.subrange(pos as int, b@.len() as int);
    let n = b.len();
    if pos == n {
        return Err(ParseError::UnexpectedEof);
    }
    assert(s[0] == b@[pos as int]);
    let c = b[pos];
    if c == 43u8 {
        pick_simple_string(b, pos)
    } else if c == 45u8 {
        pick_error(b, pos)
    } else if c == 58u8 {
        pick_integer(b, pos)
    } else if c == 36u8 {
        pick_bulk_string(b, pos)
    } else if c == 42u8 {
        pick_array(b, pos)
    } else if c == 35u8 {
        pick_boolean(b, pos)
    } else if c == 95u8 {
        if n - pos >= 3 {
            Ok((RedisValue::Null, pos + 3))
        } else {
            Err(ParseError::UnexpectedEof)
        }
    } else {
        Err(ParseError::InvalidElement)
    }
}

/// The characters of `PING`.
pub open spec fn ping_text() -> Seq<char> {
    seq!['P', 'I', 'N', 'G']
}

/// The legacy inline request `PING\r\n`.
pub open spec fn inline_ping() -> Seq<u8> {
    seq![80u8, 73u8, 78u8, 71u8, 13u8, 10u8]
}

/// What a request buffer reads as: the one value at its start, `None` when
/// it starts with no type byte (nor with the inline `PING\r\n`).
pub open spec fn parse_request(s: Seq<u8>) -> Result<Option<Frame>, ParseError> {
    if s.len() == 0 {
        Ok(None)
    } else if is_frame_prefix(s[0]) {
        match parse_frame(s) {
            Ok((f, _)) => Ok(Some(f)),
            Err(err) => Err(err),
        }
    } else if s[0] == 80u8 {
        if s.len() < 6 {
            Err(ParseError::UnexpectedEof)
        } else if s.subrange(0, 6) == inline_ping() {
            Ok(Some(Frame::Array(Some(seq![Frame::SimpleString(ping_text())]))))
        } else {
            Ok(None)
        }
    } else {
        Ok(None)
    }
}

/// The content of a parse result.
pub open spec fn request_view(r: Result<Option<RedisValue>, ParseError>) -> Result<Option<Frame>, ParseError> {
    match r {
        Ok(Some(v)) => Ok(Some(v@)),
        Ok(None) => Ok(None),
        Err(err) => Err(err),
    }
}

/// Reads the one value at the start of `buffer`. Bytes after it are left
/// unread: a buffer holds a single request.
pub fn parse_resp(buffer: &[u8]) -> (r: Result<Option<RedisValue>, ParseError>)
    ensures
        request_view(r) == parse_request(buffer@),
{
    let ghost s = buffer@;
    let n = buffer.len();
    if n == 0 {
        return Ok(None);
    }
    let c = buffer[0];
    assert(buffer@.subrange(0, n as int) =~= s);
    if c == 43u8 || c == 45u8 || c == 58u8 || c == 36u8 || c == 42u8 || c == 35u8 || c == 95u8 {
        match parse_value_at(buffer, 0) {
            Ok((v, _)) => Ok(Some(v)),
            Err(err) => Err(err),
        }
    } else if c == 80u8 {
        if n < 6 {
            return Err(ParseError::UnexpectedEof);
        }
        if buffer[1] == 73u8 && buffer[2] == 78u8 && buffer[3] == 71u8 && buffer[4] == 13u8
            && buffer[5] == 10u8 {
            assert(s.subrange(0, 6) =~= inline_ping());
            let mut items: Vec<RedisValue> = Vec::new();
            items.push(RedisValue::SimpleString(ping_string()));
            proof {
                lemma_frames_of_push(Seq::empty(), items@[0]);
                assert(Seq::<RedisValue>::empty().push(items@[0]) =~= items@);
                assert(frames_of(Seq::<RedisValue>::empty()) =~= Seq::<Frame>::empty());
                assert(Seq::<Frame>::empty().push(Frame::SimpleString(ping_text())) =~= seq![Frame::SimpleString(ping_text())]);
            }
            Ok(Some(RedisValue::Array(Some(items))))
        } else {
            assert(s.subrange(0, 6) != inline_ping()) by {
                assert(s.subrange(0, 6)[1] == buffer@[1]);
                assert(s.subrange(0, 6)[2] == buffer@[2]);
                assert(s.subrange(0, 6)[3] == buffer@[3]);
                assert(s.subrange(0, 6)[4] == buffer@[4]);
                assert(s.subrange(0, 6)[5] == buffer@[5]);
            }
            Ok(None)
        }
    } else {
        Ok(None)
    }
}

fn ping_string() -> (r: String)
    ensures
        r@ == ping_text(),
{
    let r = "PING".to_string();
    proof {
        reveal_strlit("PING");
    }
    assert(r@ =~= ping_text());
    r
}

/// Values that survive a trip through the wire: simple strings and errors
/// whose text has no CR byte (the CR would end the line early), lengths and
/// counts that fit a signed 64-bit header.
pub open spec fn wire_safe(f: Frame) -> bool
    decreases f,
{
    match f {
        Frame::SimpleString(s) => !encode_utf8(s).contains(13u8),
        Frame::Error(s) => !encode_utf8(s).contains(13u8),
        Frame::Integer(i) => fits_i64(i),
        Frame::BulkString(b) => match b {
            Some(s) => encode_utf8(s).len() <= i64::MAX,
            None => true,
        },
        Frame::Array(a) => match a {
            Some(items) => items.len() <= i64::MAX && forall|i: int|
                0 <= i < items.len() ==> wire_safe(#[trigger] items[i]),
            None => true,
        },
        Frame::Boolean(_) => true,
        Frame::Null => true,
    }
}

proof fn lemma_first_cr_at(s: Seq<u8>, i: int, j: int)
    requires
        0 <= i <= j < s.len(),
        s[j] == 13u8,
        forall|k: int| i <= k < j ==> s[k] != 13u8,
    ensures
        first_cr(s, i) == Some(j),
    decreases j - i,
{
    if i < j {
        lemma_first_cr_at(s, i + 1, j);
    }
}

/// A type byte, a CR-free body and CRLF make a line that ends where expected.
proof fn lemma_line(t: Seq<u8>, c: u8, body: Seq<u8>, tail: Seq<u8>)
    requires
        t == seq![c] + body + crlf() + tail,
        forall|k: int| 0 <= k < body.len() ==> body[k] != 13u8,
    ensures
        line_end(t) == Some(1 + body.len() as int),
        t.subrange(1, 1 + body.len() as int) == body,
        t.subrange(1 + body.len() as int + 2, t.len() as int) == tail,
{
    let e = 1 + body.len() as int;
    assert forall|k: int| 1 <= k < e implies t[k] != 13u8 by {
        assert(t[k] == body[k - 1]);
    }
    assert(t[e] == 13u8);
    lemma_first_cr_at(t, 1, e);
    assert(t.subrange(1, e) =~= body);
    assert(t.subrange(e + 2, t.len() as int) =~= tail);
}

proof fn lemma_no_cr_in_number(s: Seq<u8>)
    requires
        exists|n: nat| s == nat_text(n) || s == seq![45u8] + nat_text(n),
    ensures
        forall|k: int| 0 <= k < s.len() ==> s[k] != 13u8,
{
    let n = choose|n: nat| s == nat_text(n) || s == seq![45u8] + nat_text(n);
    lemma_nat_text(n);
    assert forall|k: int| 0 <= k < s.len() implies s[k] != 13u8 by {
        if s != nat_text(n) {
            if k > 0 {
                assert(s[k] == nat_text(n)[k - 1]);
            }
        } else {
            assert(is_digit(nat_text(n)[k]));
        }
    }
}

proof fn lemma_serialize_all_concat(a: Seq<Frame>, b: Seq<Frame>)
    ensures
        serialize_all(a + b) == serialize_all(a) + serialize_all(b),
    decreases b.len(),
{
    if b.len() == 0 {
        assert(a + b =~= a);
        assert(serialize_all(a) + serialize_all(b) =~= serialize_all(a));
    } else {
        let c = a + b;
        let bl = b.subrange(0, b.len() - 1);
        assert(c.subrange(0, c.len() - 1) =~= a + bl);
        lemma_serialize_all_concat(a, bl);
        assert(serialize_all(a + b) =~= serialize_all(a) + serialize_all(b));
    }
}

proof fn lemma_serialize_starts_with_prefix(f: Frame)
    ensures
        serialize(f).len() > 0,
        is_frame_prefix(serialize(f)[0]),
{
}

proof fn lemma_parse_serialized(f: Frame, rest: Seq<u8>)
    requires
        wire_safe(f),
    ensures
        parse_frame(serialize(f) + rest) == Ok::<(Frame, int), ParseError>((f, serialize(f).len() as int)),
    decreases f,
{
    let t = serialize(f) + rest;
    match f {
        Frame::SimpleString(s) | Frame::Error(s) => {
            let body = encode_utf8(s);
            let c: u8 = if f is SimpleString { 43u8 } else { 45u8 };
            assert forall|k: int| 0 <= k < body.len() implies body[k] != 13u8 by {
                if body[k] == 13u8 {
                    assert(body.contains(13u8));
                }
            }
            assert(t =~= seq![c] + body + crlf() + rest);
            lemma_line(t, c, body, rest);
            encode_utf8_valid_utf8(s);
            encode_utf8_decode_utf8(s);
        },
        Frame::Integer(i) => {
            let body = int_text(i);
            assert(t =~= seq![58u8] + body + crlf() + rest);
            if i < 0 {
                lemma_no_cr_in_number(body);
            } else {
                assert(body == nat_text(i as nat));
                lemma_no_cr_in_number(body);
            }
            lemma_line(t, 58u8, body, rest);
            lemma_int_text_round_trip(i);
        },
        Frame::BulkString(b) => {
            match b {
                Some(s) => {
                    let payload = encode_utf8(s);
                    let len = payload.len();
                    let body = nat_text(len);
                    let tail = payload + crlf() + rest;
                    assert(t =~= seq![36u8] + body + crlf() + tail);
                    assert(body == int_text(len as int));
                    lemma_no_cr_in_number(body);
                    lemma_line(t, 36u8, body, tail);
                    lemma_int_text_round_trip(len as int);
                    let next = 1 + body.len() as int + 2;
                    assert(t.subrange(next, next + len as int) =~= payload);
                    encode_utf8_valid_utf8(s);
                    encode_utf8_decode_utf8(s);
                },
                None => {
                    let body = seq![45u8, 49u8];
                    assert(t =~= seq![36u8] + body + crlf() + rest);
                    lemma_line(t, 36u8, body, rest);
                    assert(int_text(-1) =~= body);
                    lemma_int_text_round_trip(-1);
                },
            }
        },
        Frame::Array(a) => {
            match a {
                Some(items) => {
                    let body = nat_text(items.len());
                    let tail = serialize_all(items) + rest;
                    assert(t =~= seq![42u8] + body + crlf() + tail);
                    assert(body == int_text(items.len() as int));
                    lemma_no_cr_in_number(body);
                    lemma_line(t, 42u8, body, tail);
                    lemma_int_text_round_trip(items.len() as int);
                    lemma_parse_serialized_all(items, rest);
                },
                None => {
                    let body = seq![45u8, 49u8];
                    assert(t =~= seq![42u8] + body + crlf() + rest);
                    lemma_line(t, 42u8, body, rest);
                    assert(int_text(-1) =~= body);
                    lemma_int_text_round_trip(-1);
                },
            }
        },
        Frame::Boolean(v) => {
            let body = seq![if v { 116u8 } else { 102u8 }];
            assert(t =~= seq![35u8] + body + crlf() + rest);
            lemma_line(t, 35u8, body, rest);
        },
        Frame::Null => {},
    }
}

proof fn lemma_parse_serialized_all(items: Seq<Frame>, rest: Seq<u8>)
    requires
        forall|i: int| 0 <= i < items.len() ==> wire_safe(#[trigger] items[i]),
    ensures
        parse_frames(serialize_all(items) + rest, items.len()) == Ok::<(Seq<Frame>, int), ParseError>(
            (items, serialize_all(items).len() as int),
        ),
    decreases items,
{
    if items.len() > 0 {
        let f = items[0];
        let tl = items.subrange(1, items.len() as int);
        assert(items =~= seq![f] + tl);
        lemma_serialize_all_concat(seq![f], tl);
        assert(seq![f].subrange(0, 0) =~= Seq::<Frame>::empty());
        assert(serialize_all(Seq::<Frame>::empty()) == Seq::<u8>::empty());
        assert(seq![f][0] == f);
        assert(serialize_all(seq![f]) == serialize_all(seq![f].subrange(0, 0)) + serialize(seq![f][0]));
        assert(serialize_all(seq![f]) =~= serialize(f));
        let t = serialize_all(items) + rest;
        let rest2 = serialize_all(tl) + rest;
        assert(t =~= serialize(f) + rest2);
        lemma_serialize_starts_with_prefix(f);
        lemma_parse_serialized(f, rest2);
        assert(t.subrange(serialize(f).len() as int, t.len() as int) =~= rest2);
        lemma_parse_serialized_all(tl, rest);
        assert(t[0] == serialize(f)[0]);
        assert(parse_frame(t) == Ok::<(Frame, int), ParseError>((f, serialize(f).len() as int)));
        assert((items.len() - 1) as nat == tl.len());
        assert(parse_frames(t.subrange(serialize(f).len() as int, t.len() as int), tl.len()) == Ok::<(Seq<Frame>, int), ParseError>((tl, serialize_all(tl).len() as int)));
        assert(seq![f] + tl =~= items);
        assert(serialize(f).len() + serialize_all(tl).len() == serialize_all(items).len());
        assert(parse_frames(t, items.len()) == Ok::<(Seq<Frame>, int), ParseError>((seq![f] + tl, serialize(f).len() + serialize_all(tl).len() as int)));
    } else {
        assert(serialize_all(items) + rest =~= rest);
        assert(items =~= Seq::<Frame>::empty());
    }
}

/// Reading back the encoding of a value gives the value, for every value
/// whose text can cross the wire.
pub proof fn lemma_round_trip(v: RedisValue)
    requires
        wire_safe(v@),
    ensures
        parse_request(serialize(v@)) == Ok::<Option<Frame>, ParseError>(Some(v@)),
{
    lemma_round_trip_frame(v@);
}

/// Reading back the encoding of a frame gives the frame, for every frame
/// whose text can cross the wire.
pub proof fn lemma_round_trip_frame(f: Frame)
    requires
        wire_safe(f),
    ensures
        parse_request(serialize(f)) == Ok::<Option<Frame>, ParseError>(Some(f)),
{
    lemma_serialize_starts_with_prefix(f);
    lemma_parse_serialized(f, Seq::empty());
    assert(serialize(f) + Seq::<u8>::empty() =~= serialize(f));
}

proof fn lemma_ascii_valid_utf8(b: Seq<u8>)
    requires
        forall|k: int| 0 <= k < b.len() ==> b[k] < 128,
    ensures
        valid_utf8(b),
    decreases b.len(),
{
    if b.len() > 0 {
        let x = b[0];
        assert(x & 0x7F <= 0x7F) by (bit_vector);
        assert(pop_first_scalar(b) =~= b.subrange(1, b.len() as int));
        lemma_ascii_valid_utf8(b.subrange(1, b.len() as int));
    }
}

proof fn lemma_number_valid_utf8(s: Seq<u8>, n: nat)
    requires
        s == nat_text(n) || s == seq![45u8] + nat_text(n),
    ensures
        valid_utf8(s),
{
    lemma_nat_text(n);
    assert forall|k: int| 0 <= k < s.len() implies s[k] < 128 by {
        if s != nat_text(n) {
            if k > 0 {
                assert(s[k] == nat_text(n)[k - 1]);
            }
        } else {
            assert(is_digit(nat_text(n)[k]));
        }
    }
    lemma_ascii_valid_utf8(s);
}

proof fn lemma_serialize_valid_utf8(f: Frame)
    ensures
        valid_utf8(serialize(f)),
    decreases f, 0int,
{
    broadcast use valid_utf8_concat, encode_utf8_valid_utf8;

    let c = crlf();
    lemma_ascii_valid_utf8(c);
    match f {
        Frame::SimpleString(s) => {
            lemma_ascii_valid_utf8(seq![43u8]);
            assert(valid_utf8(encode_utf8(s)));
            assert(valid_utf8(seq![43u8] + encode_utf8(s)));
            assert(valid_utf8(seq![43u8] + encode_utf8(s) + c));
        },
        Frame::Error(s) => {
            lemma_ascii_valid_utf8(seq![45u8]);
            assert(valid_utf8(encode_utf8(s)));
            assert(valid_utf8(seq![45u8] + encode_utf8(s)));
            assert(valid_utf8(seq![45u8] + encode_utf8(s) + c));
        },
        Frame::Integer(i) => {
            lemma_ascii_valid_utf8(seq![58u8]);
            if i < 0 {
                lemma_number_valid_utf8(int_text(i), (-i) as nat);
            } else {
                lemma_number_valid_utf8(int_text(i), i as nat);
            }
            assert(valid_utf8(seq![58u8] + int_text(i)));
        },
        Frame::BulkString(b) => {
            lemma_ascii_valid_utf8(seq![36u8]);
            lemma_ascii_valid_utf8(seq![36u8, 45u8, 49u8, 13u8, 10u8]);
            if let Some(s) = b {
                let h = seq![36u8] + nat_text(encode_utf8(s).len());
                lemma_number_valid_utf8(nat_text(encode_utf8(s).len()), encode_utf8(s).len());
                assert(valid_utf8(h));
                assert(valid_utf8(h + c));
                assert(valid_utf8(encode_utf8(s)));
                assert(valid_utf8(h + c + encode_utf8(s)));
                assert(valid_utf8(h + c + encode_utf8(s) + c));
            }
        },
        Frame::Array(a) => {
            lemma_ascii_valid_utf8(seq![42u8]);
            lemma_ascii_valid_utf8(seq![42u8, 45u8, 49u8, 13u8, 10u8]);
            if let Some(items) = a {
                let h = seq![42u8] + nat_text(items.len());
                lemma_number_valid_utf8(nat_text(items.len()), items.len());
                lemma_serialize_all_valid_utf8(items);
                assert(valid_utf8(h));
                assert(valid_utf8(h + c));
                assert(valid_utf8(h + c + serialize_all(items)));
            }
        },
        Frame::Boolean(v) => {
            lemma_ascii_valid_utf8(seq![35u8, if v { 116u8 } else { 102u8 }]);
        },
        Frame::Null => {
            lemma_ascii_valid_utf8(seq![95u8, 13u8, 10u8]);
        },
    }
}

proof fn lemma_serialize_all_valid_utf8(items: Seq<Frame>)
    ensures
        valid_utf8(serialize_all(items)),
    decreases items, 1int,
{
    broadcast use valid_utf8_concat;

    if items.len() > 0 {
        lemma_serialize_all_valid_utf8(items.subrange(0, items.len() - 1));
        lemma_serialize_valid_utf8(items[items.len() - 1]);
    } else {
        lemma_ascii_valid_utf8(serialize_all(items));
    }
}

} // verus!
