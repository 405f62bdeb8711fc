//! The server: the table of connections, and what it does with each result
//! that its driver hands it.
//!
//! The server makes no call of its own. Each of its steps takes what the
//! driver's last call gave, changes the connections, and answers with a
//! [`Turn`]: the changes to make to the poller's registrations, what is
//! worth a line in a log, and the call to make next.

use crate::connection::{Connection, ConnectionView, ReadEvent, WriteEvent};
use crate::io::{would_block, AcceptResult, ErrorKind, ReadResult, WriteResult};
use crate::poller::{
    rearm, rearm_all, register_rw, reregister_rw, Interest, PollerOp, Readiness, LISTENER,
};
use crate::table::{others, ConnectionTable};
use crate::text::{chat_line, format_chat, READ_CAPACITY};
use vstd::prelude::*;
use vstd::slice::slice_to_vec;

verus! {

/// The call that the driver is to make next.
#[derive(Clone, Copy, Debug, PartialEq, Eq, Structural)]
pub enum Step {
    /// None: the event has been dealt with.
    Done,
    /// One accept on the listener; the result goes to
    /// `handle_new_connections`.
    Accept,
    /// One read of at most `capacity` bytes from the client's socket; the
    /// result goes to `handle_read`, together with `then_write`.
    Read { token: usize, capacity: usize, then_write: bool },
    /// One write of the client's oldest waiting line to its socket; the
    /// result goes to `handle_write`.
    Write { token: usize },
}

/// What happened in a turn that is worth a line in a log.
#[derive(Clone, Copy, Debug, PartialEq, Eq, Structural)]
pub enum Notice {
    /// A client was accepted and given this token.
    Connected(usize),
    /// A client was accepted and turned away: no token is left to give.
    Refused,
    /// An accept failed.
    AcceptFailed(ErrorKind),
    /// The client closed its side and was dropped.
    Disconnected(usize),
    /// A read from the client failed, and the client was dropped.
    ReadFailed(usize, ErrorKind),
    /// A write to the client failed, and the client was dropped.
    WriteFailed(usize, ErrorKind),
    /// The client sent bytes that are not text; they were dropped.
    Undecodable(usize),
    /// The client gave its name.
    Named(usize),
    /// The client's message was queued for the others.
    Relayed(usize),
}

/// A turn as the contracts see it.
pub struct TurnView {
    pub ops: Seq<PollerOp>,
    pub notice: Option<Notice>,
    pub next: Step,
}

impl TurnView {
    /// A turn that changes no registration and reports nothing.
    pub open spec fn quiet(next: Step) -> TurnView {
        TurnView { ops: Seq::empty(), notice: None, next }
    }
}

/// The server's answer to one result.
#[derive(Debug)]
pub struct Turn {
    /// The changes to make to the poller's registrations, in this order,
    /// before the next call. A socket that is deregistered is closed.
    pub ops: Vec<PollerOp>,
    /// What happened that is worth a line in a log.
    pub notice: Option<Notice>,
    /// The call to make next.
    pub next: Step,
}

impl View for Turn {
    type V = TurnView;

    open spec fn view(&self) -> TurnView {
        TurnView { ops: self.ops@, notice: self.notice, next: self.next }
    }
}

/// The server as the contracts see it.
pub struct ServerView {
    /// The live connections, by token.
    pub conns: Map<usize, ConnectionView>,
    /// The tokens of the live connections, oldest first.
    pub tokens: Seq<usize>,
    /// The token that the next client gets.
    pub next_token: usize,
}

impl ServerView {
    /// A server without clients.
    pub open spec fn initial() -> ServerView {
        ServerView { conns: Map::empty(), tokens: Seq::empty(), next_token: 1 }
    }

    /// Each live connection stands under one token, keeps its invariant, and
    /// has a token that was given out before and is not the listener's.
    pub open spec fn wf(self) -> bool {
        &&& self.tokens.no_duplicates()
        &&& forall|token: usize| self.tokens.contains(token) <==> self.conns.dom().contains(token)
        &&& forall|token: usize|
            self.conns.dom().contains(token) ==> (#[trigger] self.conns[token]).wf()
        &&& forall|token: usize| #[trigger]
            self.conns.dom().contains(token) ==> LISTENER < token < self.next_token
        &&& LISTENER < self.next_token
    }

    /// What the poller holds while it follows the server's turns: the
    /// listener, to be read, and each live connection with the readiness
    /// that it wants to hear of.
    pub open spec fn registrations(self) -> Map<usize, Interest> {
        Map::new(
            |token: usize| token == LISTENER || self.conns.dom().contains(token),
            |token: usize|
                if self.conns.dom().contains(token) {
                    self.conns[token].interest()
                } else {
                    Interest::Readable
                },
        )
    }

    /// Whether a token is left for one more client.
    pub open spec fn has_room(self) -> bool {
        self.next_token < usize::MAX
    }

    /// The server with one more client, just accepted, under the next token.
    pub open spec fn joined(self) -> ServerView {
        ServerView {
            conns: self.conns.insert(self.next_token, ConnectionView::fresh()),
            tokens: self.tokens.push(self.next_token),
            next_token: (self.next_token + 1) as usize,
        }
    }

    /// The server without the connection that `token` names.
    pub open spec fn without(self, token: usize) -> ServerView {
        ServerView {
            conns: self.conns.remove(token),
            tokens: others(self.tokens, token),
            ..self
        }
    }

    /// The server with the connection under `token` replaced.
    pub open spec fn with(self, token: usize, conn: ConnectionView) -> ServerView {
        ServerView { conns: self.conns.insert(token, conn), ..self }
    }

    /// The server with `line` queued for every connection but the sender's.
    pub open spec fn relay(self, sender: usize, line: Seq<u8>) -> ServerView {
        ServerView {
            conns: Map::new(
                |token: usize| self.conns.dom().contains(token),
                |token: usize|
                    if token != sender {
                        self.conns[token].enqueue(line)
                    } else {
                        self.conns[token]
                    },
            ),
            ..self
        }
    }

    /// The write to make for `token`, if a line is waiting for it.
    pub open spec fn write_step(self, token: usize) -> Step {
        if self.conns.dom().contains(token) && self.conns[token].queue.len() > 0 {
            Step::Write { token }
        } else {
            Step::Done
        }
    }

    /// The server after one accept gave `result`.
    pub open spec fn accept_state(self, result: AcceptResult) -> ServerView {
        if result == AcceptResult::Connected && self.has_room() {
            self.joined()
        } else {
            self
        }
    }

    /// The answer to an accept that gave `result`: a client is registered
    /// and the next is asked for; without a client, the draining ends.
    pub open spec fn accept_turn(self, result: AcceptResult) -> TurnView {
        match result {
            AcceptResult::Connected => if self.has_room() {
                TurnView {
                    ops: seq![
                        PollerOp::Register { token: self.next_token, interest: Interest::Both },
                    ],
                    notice: Some(Notice::Connected(self.next_token)),
                    next: Step::Accept,
                }
            } else {
                TurnView { ops: Seq::empty(), notice: Some(Notice::Refused), next: Step::Accept }
            },
            AcceptResult::Failed(kind) => if kind == ErrorKind::WouldBlock {
                TurnView::quiet(Step::Done)
            } else {
                TurnView {
                    ops: Seq::empty(),
                    notice: Some(Notice::AcceptFailed(kind)),
                    next: Step::Done,
                }
            },
        }
    }

    /// The server after the poller reported `event` for a client.
    pub open spec fn event_state(self, event: Readiness) -> ServerView {
        if event.read_closed {
            self.without(event.token)
        } else {
            self
        }
    }

    /// The answer to `event` for a client: a peer that closed its side is
    /// dropped; else the client is read, if it can be, and then written to,
    /// if it can be.
    pub open spec fn event_turn(self, event: Readiness) -> TurnView {
        let token = event.token;
        let known = self.conns.dom().contains(token);
        if event.read_closed {
            if known {
                TurnView {
                    ops: seq![PollerOp::Deregister { token }],
                    notice: Some(Notice::Disconnected(token)),
                    next: Step::Done,
                }
            } else {
                TurnView::quiet(Step::Done)
            }
        } else if event.readable && known {
            TurnView::quiet(
                Step::Read { token, capacity: READ_CAPACITY, then_write: event.writable },
            )
        } else if event.writable {
            TurnView::quiet(self.write_step(token))
        } else {
            TurnView::quiet(Step::Done)
        }
    }

    /// The server after a read for `token` gave `result`.
    pub open spec fn read_state(self, token: usize, result: ReadResult) -> ServerView {
        if !self.conns.dom().contains(token) {
            self
        } else {
            let conn = self.conns[token];
            match conn.read_event(result) {
                ReadEvent::Idle | ReadEvent::Undecodable => self,
                ReadEvent::Closed | ReadEvent::Failed(_) => self.without(token),
                ReadEvent::Named => self.with(token, conn.after_read(result)),
                ReadEvent::Chat => self.relay(token, chat_line(conn.name.unwrap(), result.bytes())),
            }
        }
    }

    /// The answer to a read for `token` that gave `result`.
    pub open spec fn read_turn(self, token: usize, then_write: bool, result: ReadResult) -> TurnView {
        if !self.conns.dom().contains(token) {
            TurnView::quiet(Step::Done)
        } else {
            let next = if then_write {
                self.read_state(token, result).write_step(token)
            } else {
                Step::Done
            };
            match self.conns[token].read_event(result) {
                ReadEvent::Idle => TurnView::quiet(next),
                ReadEvent::Undecodable => TurnView {
                    ops: Seq::empty(),
                    notice: Some(Notice::Undecodable(token)),
                    next,
                },
                ReadEvent::Closed => TurnView {
                    ops: seq![PollerOp::Deregister { token }],
                    notice: Some(Notice::Disconnected(token)),
                    next,
                },
                ReadEvent::Failed(kind) => TurnView {
                    ops: seq![PollerOp::Deregister { token }],
                    notice: Some(Notice::ReadFailed(token, kind)),
                    next,
                },
                ReadEvent::Named => TurnView {
                    ops: seq![rearm(token)],
                    notice: Some(Notice::Named(token)),
                    next,
                },
                ReadEvent::Chat => TurnView {
                    ops: rearm_all(others(self.tokens, token)),
                    notice: Some(Notice::Relayed(token)),
                    next,
                },
            }
        }
    }

    /// The server after a write for `token` gave `result`.
    pub open spec fn write_state(self, token: usize, result: WriteResult) -> ServerView {
        if !self.conns.dom().contains(token) {
            self
        } else {
            let conn = self.conns[token];
            match conn.write_event(result) {
                WriteEvent::Failed(_) => self.without(token),
                _ => self.with(token, conn.after_write(result)),
            }
        }
    }

    /// The answer to a write for `token` that gave `result`.
    pub open spec fn write_turn(self, token: usize, result: WriteResult) -> TurnView {
        if !self.conns.dom().contains(token) {
            TurnView::quiet(Step::Done)
        } else {
            match self.conns[token].write_event(result) {
                WriteEvent::More => TurnView::quiet(Step::Write { token }),
                WriteEvent::Blocked => TurnView::quiet(Step::Done),
                WriteEvent::Drained => TurnView {
                    ops: seq![PollerOp::Reregister { token, interest: Interest::Readable }],
                    notice: None,
                    next: Step::Done,
                },
                WriteEvent::Failed(kind) => TurnView {
                    ops: seq![PollerOp::Deregister { token }],
                    notice: Some(Notice::WriteFailed(token, kind)),
                    next: Step::Done,
                },
            }
        }
    }
}

/// The chat server.
#[derive(Debug)]
pub struct Server {
    table: ConnectionTable,
    next_token: usize,
}

impl View for Server {
    type V = ServerView;

    closed spec fn view(&self) -> ServerView {
        ServerView {
            conns: self.table@,
            tokens: self.table.tokens(),
            next_token: self.next_token,
        }
    }
}

impl Server {
    /// Whether the server keeps its invariant.
    pub closed spec fn wf(&self) -> bool {
        &&& self.table.wf()
        &&& self@.wf()
    }

    /// What a well-formed server shows is well-formed.
    pub proof fn lemma_wf(&self)
        requires
            self.wf(),
        ensures
            self@.wf(),
    {
    }

    /// A server without clients.
    pub fn new() -> (server: Server)
        ensures
            server.wf(),
            server@ == ServerView::initial(),
    {
        let server = Server { table: ConnectionTable::new(), next_token: 1 };
        proof {
            server.table.lemma_tokens();
        }
        server
    }

    /// How many clients are connected.
    pub fn len(&self) -> (count: usize)
        ensures
            count == self@.tokens.len(),
    {
        self.table.len()
    }

    /// Whether `token` names a live connection.
    pub fn contains(&self, token: usize) -> (yes: bool)
        requires
            self.wf(),
        ensures
            yes == self@.conns.dom().contains(token),
    {
        self.table.contains(token)
    }

    /// The connection that `token` names.
    pub fn connection(&self, token: usize) -> (conn: Option<&Connection>)
        requires
            self.wf(),
        ensures
            match conn {
                Some(found) => self@.conns.dom().contains(token) && found@ == self@.conns[token],
                None => !self@.conns.dom().contains(token),
            },
    {
        self.table.get(token)
    }

    /// The bytes that the write which `Step::Write` asks for is to send: the
    /// oldest line that waits for `token`.
    pub fn outgoing(&self, token: usize) -> (line: Option<&Vec<u8>>)
        requires
            self.wf(),
        ensures
            match line {
                Some(bytes) => self@.write_step(token) == (Step::Write { token }) && bytes@
                    == self@.conns[token].queue[0],
                None => self@.write_step(token) == Step::Done,
            },
    {
        match self.table.get(token) {
            Some(conn) => conn.front(),
            None => None,
        }
    }

    fn write_step(&self, token: usize) -> (step: Step)
        requires
            self.wf(),
        ensures
            step == self@.write_step(token),
    {
        match self.table.get(token) {
            Some(conn) => if conn.pending() > 0 {
                Step::Write { token }
            } else {
                Step::Done
            },
            None => Step::Done,
        }
    }

    /// Drops the connection that `token` names, if it names one.
    fn drop_connection(&mut self, token: usize) -> (known: bool)
        requires
            old(self).wf(),
        ensures
            final(self).wf(),
            known == old(self)@.conns.dom().contains(token),
            final(self)@ == old(self)@.without(token),
    {
        let gone = self.table.remove(token);
        proof {
            self.table.lemma_tokens();
            let before = old(self)@;
            let after = self@;
            assert forall|t: usize| #[trigger]
                after.conns.dom().contains(t) implies LISTENER < t < after.next_token by {
                assert(before.conns.dom().contains(t));
            }
        }
        gone.is_some()
    }

    /// Says where an event goes: one for the listener starts the draining of
    /// the clients that wait to be accepted, any other is the client's own.
    pub fn dispatch(&mut self, event: Readiness) -> (turn: Turn)
        requires
            old(self).wf(),
        ensures
            final(self).wf(),
            event.token == LISTENER ==> final(self)@ == old(self)@ && turn@ == TurnView::quiet(
                Step::Accept,
            ),
            event.token != LISTENER ==> final(self)@ == old(self)@.event_state(event) && turn@
                == old(self)@.event_turn(event),
    {
        if event.token == LISTENER {
            Turn { ops: Vec::new(), notice: None, next: Step::Accept }
        } else {
            self.handle_user_event(event)
        }
    }

    /// Takes in the result of one accept on the listener.
    pub fn handle_new_connections(&mut self, result: AcceptResult) -> (turn: Turn)
        requires
            old(self).wf(),
        ensures
            final(self).wf(),
            final(self)@ == old(self)@.accept_state(result),
            turn@ == old(self)@.accept_turn(result),
    {
        match result {
            AcceptResult::Failed(kind) => {
                let notice = if would_block(kind) {
                    None
                } else {
                    Some(Notice::AcceptFailed(kind))
                };
                Turn { ops: Vec::new(), notice, next: Step::Done }
            },
            AcceptResult::Connected => {
                if self.next_token == usize::MAX {
                    return Turn {
                        ops: Vec::new(),
                        notice: Some(Notice::Refused),
                        next: Step::Accept,
                    };
                }
                let token = self.next_token;
                proof {
                    self.table.lemma_tokens();
                    if self@.conns.dom().contains(token) {
                        assert(token < self@.next_token);
                    }
                    assert(!self.table@.dom().contains(token));
                }
                let done = self.table.insert(token, Connection::new());
                self.next_token = token + 1;
                proof {
                    assert(done is Ok);
                    self.table.lemma_tokens();
                    let after = self@;
                    assert forall|t: usize| #[trigger]
                        after.conns.dom().contains(t) implies LISTENER < t < after.next_token by {
                        if t != token {
                            assert(old(self)@.conns.dom().contains(t));
                        }
                    }
                }
                let mut ops: Vec<PollerOp> = Vec::new();
                ops.push(register_rw(token));
                Turn { ops, notice: Some(Notice::Connected(token)), next: Step::Accept }
            },
        }
    }

    /// Takes in one readiness event for a client.
    pub fn handle_user_event(&mut self, event: Readiness) -> (turn: Turn)
        requires
            old(self).wf(),
        ensures
            final(self).wf(),
            final(self)@ == old(self)@.event_state(event),
            turn@ == old(self)@.event_turn(event),
    {
        let token = event.token;
        if event.read_closed {
            let mut ops: Vec<PollerOp> = Vec::new();
            if self.drop_connection(token) {
                ops.push(PollerOp::Deregister { token });
                Turn { ops, notice: Some(Notice::Disconnected(token)), next: Step::Done }
            } else {
                Turn { ops, notice: None, next: Step::Done }
            }
        } else if event.readable && self.table.contains(token) {
            Turn {
                ops: Vec::new(),
                notice: None,
                next: Step::Read { token, capacity: READ_CAPACITY, then_write: event.writable },
            }
        } else if event.writable {
            Turn { ops: Vec::new(), notice: None, next: self.write_step(token) }
        } else {
            Turn { ops: Vec::new(), notice: None, next: Step::Done }
        }
    }

    /// Queues the line that `name` and `message` make for every connection
    /// but the sender's, and says which registrations to renew for it.
    pub fn broadcast(&mut self, sender: usize, name: &[u8], message: &[u8]) -> (ops: Vec<PollerOp>)
        requires
            old(self).wf(),
        ensures
            final(self).wf(),
            final(self)@ == old(self)@.relay(sender, chat_line(name@, message@)),
            ops@ == rearm_all(others(old(self)@.tokens, sender)),
    {
        let line = format_chat(name, message);
        let receivers = self.table.push_to_others(sender, line.as_slice());
        proof {
            old(self).table.lemma_tokens();
            self.table.lemma_tokens();
            assert(self@.conns =~= old(self)@.relay(sender, line@).conns);
        }
        let mut ops: Vec<PollerOp> = Vec::new();
        let mut i: usize = 0;
        while i < receivers.len()
            invariant
                i <= receivers@.len(),
                ops@ == rearm_all(receivers@.take(i as int)),
            decreases receivers@.len() - i,
        {
            ops.push(reregister_rw(receivers[i]));
            proof {
                assert(receivers@.take(i + 1) =~= receivers@.take(i as int).push(
                    receivers@[i as int],
                ));
                assert(rearm_all(receivers@.take(i + 1)) =~= rearm_all(
                    receivers@.take(i as int),
                ).push(rearm(receivers@[i as int])));
            }
            i += 1;
        }
        proof {
            assert(receivers@.take(i as int) =~= receivers@);
        }
        ops
    }

    /// Takes in the result of the read that `Step::Read` asked for.
    pub fn handle_read(&mut self, token: usize, then_write: bool, result: ReadResult) -> (turn:
        Turn)
        requires
            old(self).wf(),
        ensures
            final(self).wf(),
            final(self)@ == old(self)@.read_state(token, result),
            turn@ == old(self)@.read_turn(token, then_write, result),
    {
        proof {
            self.table.lemma_tokens();
        }
        let event = match self.table.read(token, &result) {
            None => {
                return Turn { ops: Vec::new(), notice: None, next: Step::Done };
            },
            Some(event) => event,
        };
        proof {
            self.table.lemma_tokens();
        }
        let mut ops: Vec<PollerOp> = Vec::new();
        let mut notice: Option<Notice> = None;
        match event {
            ReadEvent::Idle => {
                proof {
                    assert(self@.conns =~= old(self)@.conns);
                }
            },
            ReadEvent::Undecodable => {
                proof {
                    assert(self@.conns =~= old(self)@.conns);
                }
                notice = Some(Notice::Undecodable(token));
            },
            ReadEvent::Closed => {
                proof {
                    assert(self@.conns =~= old(self)@.conns);
                }
                self.drop_connection(token);
                ops.push(PollerOp::Deregister { token });
                notice = Some(Notice::Disconnected(token));
            },
            ReadEvent::Failed(kind) => {
                proof {
                    assert(self@.conns =~= old(self)@.conns);
                }
                self.drop_connection(token);
                ops.push(PollerOp::Deregister { token });
                notice = Some(Notice::ReadFailed(token, kind));
            },
            ReadEvent::Named => {
                ops.push(reregister_rw(token));
                notice = Some(Notice::Named(token));
            },
            ReadEvent::Chat => {
                proof {
                    assert(self@.conns =~= old(self)@.conns);
                }
                let name = match self.table.get(token) {
                    Some(conn) => match conn.name() {
                        Some(name) => slice_to_vec(name.as_slice()),
                        None => Vec::new(),
                    },
                    None => Vec::new(),
                };
                if let ReadResult::Bytes(data) = &result {
                    ops = self.broadcast(token, name.as_slice(), data.as_slice());
                }
                notice = Some(Notice::Relayed(token));
            },
        }
        let next = if then_write {
            self.write_step(token)
        } else {
            Step::Done
        };
        Turn { ops, notice, next }
    }

    /// Takes in the result of the write that `Step::Write` asked for.
    pub fn handle_write(&mut self, token: usize, result: WriteResult) -> (turn: Turn)
        requires
            old(self).wf(),
        ensures
            final(self).wf(),
            final(self)@ == old(self)@.write_state(token, result),
            turn@ == old(self)@.write_turn(token, result),
    {
        proof {
            self.table.lemma_tokens();
        }
        let event = match self.table.wrote(token, result) {
            None => {
                return Turn { ops: Vec::new(), notice: None, next: Step::Done };
            },
            Some(event) => event,
        };
        proof {
            self.table.lemma_tokens();
        }
        let mut ops: Vec<PollerOp> = Vec::new();
        match event {
            WriteEvent::More => Turn { ops, notice: None, next: Step::Write { token } },
            WriteEvent::Blocked => Turn { ops, notice: None, next: Step::Done },
            WriteEvent::Drained => {
                ops.push(PollerOp::Reregister { token, interest: Interest::Readable });
                Turn { ops, notice: None, next: Step::Done }
            },
            WriteEvent::Failed(kind) => {
                proof {
                    assert(self@.conns =~= old(self)@.conns);
                }
                self.drop_connection(token);
                ops.push(PollerOp::Deregister { token });
                Turn { ops, notice: Some(Notice::WriteFailed(token, kind)), next: Step::Done }
            },
        }
    }
}

} // verus!
