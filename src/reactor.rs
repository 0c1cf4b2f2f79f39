use vstd::prelude::*;
use vstd::hash_map::HashMapWithView;
use vstd::slice::{slice_subrange, slice_to_vec};
use crate::command::command_of_request;
use crate::resp::{serialize, Frame};
use crate::server::{fault_message, handle_request_at, response_of, store_after};
use crate::storage::Entry;
use crate::storage::Storage;

verus! {

broadcast use vstd::std_specs::hash::axiom_i32_obeys_hash_table_key_model;

/// A kind of readiness a connection can be registered for.
#[derive(Debug, PartialEq, Eq, Clone, Copy, Structural)]
pub enum Interest {
    Read,
    Write,
}

/// What the event loop is asked to do on the multiplexer and the sockets.
#[derive(Debug, PartialEq, Eq, Clone, Copy, Structural)]
pub enum Action {
    /// Register the descriptor for this readiness.
    Register(i32, Interest),
    /// Remove the descriptor's registration for this readiness.
    Deregister(i32, Interest),
    /// Drop the socket of this descriptor.
    Close(i32),
    /// An event came for a descriptor with no connection; only log it.
    LogUnknown(i32),
}

/// What one read of a fixed-size chunk tells the draining loop.
#[derive(Debug, PartialEq, Eq, Clone, Copy, Structural)]
pub enum ReadStep {
    /// A zero-length read: the peer has shut down.
    PeerClosed,
    /// A short read: no more data for now.
    Drained,
    /// A full chunk: read again.
    More,
}

/// How the draining loop reads the `n` bytes that a read of a chunk of
/// `chunk` bytes gave.
pub fn classify_read(n: usize, chunk: usize) -> (r: ReadStep)
    ensures
        r == (if n == 0 {
            ReadStep::PeerClosed
        } else if n < chunk {
            ReadStep::Drained
        } else {
            ReadStep::More
        }),
{
    if n == 0 {
        ReadStep::PeerClosed
    } else if n < chunk {
        ReadStep::Drained
    } else {
        ReadStep::More
    }
}

/// The content of a connection: the reply bytes not yet written, and
/// whether it is registered for write readiness.
pub struct ConnState {
    pub pending: Seq<u8>,
    pub writing: bool,
}

/// One open connection.
pub struct Connection {
    write_buffer: Vec<u8>,
    writing: bool,
}

impl View for Connection {
    type V = ConnState;

    closed spec fn view(&self) -> ConnState {
        ConnState { pending: self.write_buffer@, writing: self.writing }
    }
}

/// The table of open connections, keyed by descriptor.
pub struct Reactor {
    conns: HashMapWithView<i32, Connection>,
}

impl View for Reactor {
    type V = Map<i32, ConnState>;

    closed spec fn view(&self) -> Map<i32, ConnState> {
        self.conns@.map_values(|c: Connection| c@)
    }
}

/// The registrations that a connection holds.
pub open spec fn registrations(fd: i32, c: ConnState) -> Seq<Action> {
    if c.writing {
        seq![Action::Deregister(fd, Interest::Read), Action::Deregister(fd, Interest::Write)]
    } else {
        seq![Action::Deregister(fd, Interest::Read)]
    }
}

/// A new connection: empty buffers, registered for reading.
pub open spec fn accept_step(m: Map<i32, ConnState>, fd: i32) -> (Map<i32, ConnState>, Seq<Action>) {
    (
        m.insert(fd, ConnState { pending: Seq::empty(), writing: false }),
        seq![Action::Register(fd, Interest::Read)],
    )
}

/// A connection goes away (the peer closed, or its socket failed): all its
/// registrations are removed before it is dropped.
pub open spec fn close_step(m: Map<i32, ConnState>, fd: i32) -> (Map<i32, ConnState>, Seq<Action>) {
    if !m.contains_key(fd) {
        (m, seq![Action::LogUnknown(fd)])
    } else {
        (m.remove(fd), registrations(fd, m[fd]) + seq![Action::Close(fd)])
    }
}

/// Bytes arrived on a connection and `reply` answers them: the reply is
/// queued and write readiness requested. No bytes, nothing to answer.
pub open spec fn data_step(
    m: Map<i32, ConnState>,
    fd: i32,
    request: Seq<u8>,
    reply: Seq<u8>,
) -> (Map<i32, ConnState>, Seq<Action>) {
    if !m.contains_key(fd) {
        (m, seq![Action::LogUnknown(fd)])
    } else if request.len() == 0 {
        (m, Seq::empty())
    } else {
        (
            m.insert(fd, ConnState { pending: m[fd].pending + reply, writing: true }),
            seq![Action::Register(fd, Interest::Write)],
        )
    }
}

/// A write of `n` bytes from the front of the buffer went out. Once the
/// buffer is empty, write readiness is given up; until then it is kept.
pub open spec fn written_step(m: Map<i32, ConnState>, fd: i32, n: int) -> (Map<i32, ConnState>, Seq<Action>) {
    if !m.contains_key(fd) {
        (m, seq![Action::LogUnknown(fd)])
    } else {
        let p = m[fd].pending;
        let k = if n < 0 { 0 } else if n > p.len() { p.len() as int } else { n };
        let rest = p.subrange(k, p.len() as int);
        if rest.len() == 0 {
            (
                m.insert(fd, ConnState { pending: rest, writing: false }),
                seq![Action::Deregister(fd, Interest::Write)],
            )
        } else {
            (m.insert(fd, ConnState { pending: rest, writing: true }), Seq::empty())
        }
    }
}

impl Reactor {
    pub fn new() -> (r: Reactor)
        ensures
            r@ == Map::<i32, ConnState>::empty(),
    {
        let r = Reactor { conns: HashMapWithView::new() };
        assert(r@ =~= Map::<i32, ConnState>::empty());
        r
    }

    /// Whether `fd` has an open connection.
    pub fn is_open(&self, fd: i32) -> (r: bool)
        ensures
            r == self@.contains_key(fd),
    {
        self.conns.contains_key(&fd)
    }

    /// The reply bytes not yet written on `fd`.
    pub fn pending(&self, fd: i32) -> (r: Option<&Vec<u8>>)
        ensures
            match r {
                Some(b) => self@.contains_key(fd) && b@ == self@[fd].pending,
                None => !self@.contains_key(fd),
            },
    {
        match self.conns.get(&fd) {
            Some(c) => Some(&c.write_buffer),
            None => None,
        }
    }

    /// Takes a newly accepted connection.
    pub fn on_accept(&mut self, fd: i32) -> (r: Vec<Action>)
        ensures
            (final(self)@, r@) == accept_step(old(self)@, fd),
    {
        self.conns.insert(fd, Connection { write_buffer: Vec::new(), writing: false });
        assert(final(self)@ =~= accept_step(old(self)@, fd).0);
        let mut r: Vec<Action> = Vec::new();
        r.push(Action::Register(fd, Interest::Read));
        assert(r@ =~= accept_step(old(self)@, fd).1);
        r
    }

    /// The connection on `fd` ended: the peer shut down (a zero-length read)
    /// or its socket failed.
    pub fn on_closed(&mut self, fd: i32) -> (r: Vec<Action>)
        ensures
            (final(self)@, r@) == close_step(old(self)@, fd),
    {
        let mut r: Vec<Action> = Vec::new();
        match self.conns.remove(&fd) {
            None => {
                r.push(Action::LogUnknown(fd));
                assert(r@ =~= close_step(old(self)@, fd).1);
            },
            Some(c) => {
                r.push(Action::Deregister(fd, Interest::Read));
                if c.writing {
                    r.push(Action::Deregister(fd, Interest::Write));
                }
                r.push(Action::Close(fd));
                assert(final(self)@ =~= close_step(old(self)@, fd).0);
                assert(r@ =~= close_step(old(self)@, fd).1);
            },
        }
        r
    }

    /// `request` was read from `fd`: it is answered against `store` at
    /// `now`, and the reply queued for writing.
    pub fn on_data(&mut self, fd: i32, request: &[u8], store: &mut Storage, now: u64) -> (r: Vec<Action>)
        ensures
            (final(self)@, r@) == data_step(
                old(self)@,
                fd,
                request@,
                response_of(request@, old(store)@, now as int),
            ),
            final(store)@ == if old(self)@.contains_key(fd) && request@.len() > 0 {
                store_after(request@, old(store)@, now as int)
            } else {
                old(store)@
            },
    {
        let mut r: Vec<Action> = Vec::new();
        if request.len() == 0 {
            if !self.conns.contains_key(&fd) {
                r.push(Action::LogUnknown(fd));
            }
            assert(r@ =~= data_step(old(self)@, fd, request@, Seq::empty()).1);
            return r;
        }
        match self.conns.remove(&fd) {
            None => {
                r.push(Action::LogUnknown(fd));
                assert(r@ =~= data_step(old(self)@, fd, request@, Seq::empty()).1);
            },
            Some(c) => {
                assert(c@ == old(self)@[fd]);
                let mut reply = handle_request_at(request, store, now);
                let ghost answer = reply@;
                let mut buf = c.write_buffer;
                buf.append(&mut reply);
                let ghost removed = self@;
                assert(removed == old(self)@.remove(fd));
                self.conns.insert(fd, Connection { write_buffer: buf, writing: true });

                r.push(Action::Register(fd, Interest::Write));
                assert(final(self)@ =~= data_step(old(self)@, fd, request@, answer).0);
                assert(r@ =~= data_step(old(self)@, fd, request@, answer).1);
            },
        }
        r
    }

    /// A write on `fd` took the first `n` bytes of its buffer.
    pub fn on_written(&mut self, fd: i32, n: usize) -> (r: Vec<Action>)
        ensures
            (final(self)@, r@) == written_step(old(self)@, fd, n as int),
    {
        let mut r: Vec<Action> = Vec::new();
        match self.conns.remove(&fd) {
            None => {
                r.push(Action::LogUnknown(fd));
                assert(r@ =~= written_step(old(self)@, fd, n as int).1);
            },
            Some(c) => {
                let len = c.write_buffer.len();
                let k = if n > len { len } else { n };
                let rest = slice_to_vec(slice_subrange(c.write_buffer.as_slice(), k, len));
                let writing = rest.len() > 0;
                self.conns.insert(fd, Connection { write_buffer: rest, writing });
                if !writing {
                    r.push(Action::Deregister(fd, Interest::Write));
                }
                assert(final(self)@ =~= written_step(old(self)@, fd, n as int).0);
                assert(r@ =~= written_step(old(self)@, fd, n as int).1);
            },
        }
        r
    }
}

/// Once a connection has ended its descriptor leaves the table, its read
/// registration (and write registration, if held) is removed before the
/// socket is dropped, and every later event for that descriptor is only
/// logged and changes nothing.
pub proof fn lemma_closed_is_forgotten(
    m: Map<i32, ConnState>,
    fd: i32,
    request: Seq<u8>,
    reply: Seq<u8>,
    n: int,
)
    requires
        m.contains_key(fd),
    ensures
        !close_step(m, fd).0.contains_key(fd),
        close_step(m, fd).1[0] == Action::Deregister(fd, Interest::Read),
        m[fd].writing ==> close_step(m, fd).1[1] == Action::Deregister(fd, Interest::Write),
        close_step(m, fd).1.last() == Action::Close(fd),
        close_step(close_step(m, fd).0, fd) == (close_step(m, fd).0, seq![Action::LogUnknown(fd)]),
        data_step(close_step(m, fd).0, fd, request, reply) == (
            close_step(m, fd).0,
            seq![Action::LogUnknown(fd)],
        ),
        written_step(close_step(m, fd).0, fd, n) == (
            close_step(m, fd).0,
            seq![Action::LogUnknown(fd)],
        ),
{
}

/// A write that leaves bytes behind keeps the connection registered for
/// write readiness, with exactly the unwritten bytes queued.
pub proof fn lemma_partial_write(m: Map<i32, ConnState>, fd: i32, n: int)
    requires
        m.contains_key(fd),
        0 <= n < m[fd].pending.len(),
    ensures
        written_step(m, fd, n).0 == m.insert(
            fd,
            ConnState { pending: m[fd].pending.subrange(n, m[fd].pending.len() as int), writing: true },
        ),
        written_step(m, fd, n).1 == Seq::<Action>::empty(),
{
}

/// A request that cannot be read or is not a valid command is answered with
/// an error reply; the connection stays open and answers what comes next.
pub proof fn lemma_malformed_request_answered(
    m: Map<i32, ConnState>,
    store: Map<Seq<char>, Entry>,
    fd: i32,
    request: Seq<u8>,
    now: int,
    next: Seq<u8>,
    next_reply: Seq<u8>,
)
    requires
        m.contains_key(fd),
        request.len() > 0,
        command_of_request(request) is Err,
    ensures
        ({
            let m2 = data_step(m, fd, request, response_of(request, store, now)).0;
            &&& m2.contains_key(fd)
            &&& m2[fd].pending == m[fd].pending + serialize(
                Frame::Error(fault_message(command_of_request(request)->Err_0)),
            )
            &&& data_step(m, fd, request, response_of(request, store, now)).1 == seq![
                Action::Register(fd, Interest::Write),
            ]
            &&& store_after(request, store, now) == store
            &&& next.len() > 0 ==> data_step(m2, fd, next, next_reply).0[fd].pending
                == m2[fd].pending + next_reply
        }),
{
}

} // verus!
