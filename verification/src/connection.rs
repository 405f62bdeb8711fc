//! One client: its name, once it has given one, and the lines that wait to
//! be written to it.

use crate::io::{would_block, ErrorKind, ReadResult, WriteResult};
use crate::poller::Interest;
use crate::text::{decodes, greeting, greeting_line, trim, trimmed, welcome, welcome_line};
use std::collections::VecDeque;
use vstd::prelude::*;
use vstd::slice::{slice_subrange, slice_to_vec};
use vstd::utf8::valid_utf8;

verus! {

/// Where a connection stands in the protocol.
#[derive(Clone, Copy, Debug, PartialEq, Eq, Structural)]
pub enum Phase {
    /// Accepted; the greeting has not been written out in full yet.
    Connecting,
    /// Greeted; the first read will give the name.
    Unnamed,
    /// Named; what it sends is relayed to the others.
    Active,
}

/// What a read meant for the connection that it came from.
#[derive(Clone, Copy, Debug, PartialEq, Eq, Structural)]
pub enum ReadEvent {
    /// Nothing was there to read.
    Idle,
    /// The peer closed its side.
    Closed,
    /// The read failed.
    Failed(ErrorKind),
    /// The bytes were not text and were dropped.
    Undecodable,
    /// The bytes gave the connection its name.
    Named,
    /// The bytes are a message for the others.
    Chat,
}

/// What a write meant for the connection that it went to.
#[derive(Clone, Copy, Debug, PartialEq, Eq, Structural)]
pub enum WriteEvent {
    /// Bytes left the queue and more are waiting: write again.
    More,
    /// Nothing is waiting any more.
    Drained,
    /// The socket takes no more for now; what is waiting stays in order.
    Blocked,
    /// The write failed.
    Failed(ErrorKind),
}

/// A connection as the contracts see it.
pub struct ConnectionView {
    /// The display name, once given.
    pub name: Option<Seq<u8>>,
    /// The lines that wait to be written, oldest first.
    pub queue: Seq<Seq<u8>>,
    /// How many bytes of the greeting have not left the queue yet.
    pub greeting_left: nat,
}

impl ConnectionView {
    /// A connection right after it was accepted: no name, and the greeting
    /// waiting to be written.
    pub open spec fn fresh() -> Self {
        ConnectionView { name: None, queue: seq![greeting()], greeting_left: greeting().len() }
    }

    /// As long as part of the greeting is unwritten, that part is the oldest
    /// line in the queue.
    pub open spec fn wf(self) -> bool {
        &&& self.greeting_left <= greeting().len()
        &&& self.greeting_left > 0 ==> self.queue.len() > 0 && self.queue[0] == greeting().skip(
            greeting().len() - self.greeting_left,
        )
    }

    /// Where the connection stands in the protocol.
    pub open spec fn phase(self) -> Phase {
        if self.name is Some {
            Phase::Active
        } else if self.greeting_left > 0 {
            Phase::Connecting
        } else {
            Phase::Unnamed
        }
    }

    /// The readiness that the connection wants to hear of: always to read,
    /// and to write exactly while lines are waiting.
    pub open spec fn interest(self) -> Interest {
        if self.queue.len() > 0 {
            Interest::Both
        } else {
            Interest::Readable
        }
    }

    /// The connection with `message` added behind all that is waiting.
    pub open spec fn enqueue(self, message: Seq<u8>) -> Self {
        ConnectionView { queue: self.queue.push(message), ..self }
    }

    /// The connection without its oldest waiting line.
    pub open spec fn dequeue(self) -> Self {
        if self.queue.len() == 0 {
            self
        } else {
            ConnectionView { queue: self.queue.drop_first(), greeting_left: 0, ..self }
        }
    }

    /// What a read with this result means for the connection.
    pub open spec fn read_event(self, result: ReadResult) -> ReadEvent {
        match result {
            ReadResult::Failed(kind) => if kind == ErrorKind::WouldBlock {
                ReadEvent::Idle
            } else {
                ReadEvent::Failed(kind)
            },
            ReadResult::Bytes(data) => if data@.len() == 0 {
                ReadEvent::Closed
            } else if !valid_utf8(data@) {
                ReadEvent::Undecodable
            } else if self.name is None {
                ReadEvent::Named
            } else {
                ReadEvent::Chat
            },
        }
    }

    /// The connection after a read with this result: the first text that
    /// arrives becomes the name, without the whitespace round it, and the
    /// welcome is queued; nothing else changes it.
    pub open spec fn after_read(self, result: ReadResult) -> Self {
        match result {
            ReadResult::Bytes(data) if self.read_event(result) == ReadEvent::Named => {
                ConnectionView {
                    name: Some(trimmed(data@)),
                    queue: self.queue.push(welcome()),
                    ..self
                }
            },
            _ => self,
        }
    }

    /// What a write of the oldest waiting line with this result means.
    pub open spec fn write_event(self, result: WriteResult) -> WriteEvent {
        match result {
            WriteResult::Failed(kind) => if kind == ErrorKind::WouldBlock {
                WriteEvent::Blocked
            } else {
                WriteEvent::Failed(kind)
            },
            WriteResult::Written(n) => if self.queue.len() == 0 {
                WriteEvent::Drained
            } else if n == 0 && self.queue[0].len() > 0 {
                WriteEvent::Blocked
            } else if self.queue.len() == 1 && n >= self.queue[0].len() {
                WriteEvent::Drained
            } else {
                WriteEvent::More
            },
        }
    }

    /// The connection after a write of the oldest waiting line with this
    /// result: a line that was taken whole leaves the queue, and one that was
    /// taken in part stays at the front without the bytes that were taken.
    pub open spec fn after_write(self, result: WriteResult) -> Self {
        match result {
            WriteResult::Failed(_) => self,
            WriteResult::Written(n) => if self.queue.len() == 0 {
                self
            } else if n >= self.queue[0].len() {
                self.dequeue()
            } else {
                ConnectionView {
                    queue: self.queue.update(0, self.queue[0].skip(n as int)),
                    greeting_left: if self.greeting_left > 0 {
                        (self.greeting_left - n) as nat
                    } else {
                        0
                    },
                    ..self
                }
            },
        }
    }
}

/// One client of the server.
#[derive(Debug)]
pub struct Connection {
    name: Option<Vec<u8>>,
    queue: VecDeque<Vec<u8>>,
    unsent_greeting: usize,
}

impl View for Connection {
    type V = ConnectionView;

    closed spec fn view(&self) -> ConnectionView {
        ConnectionView {
            name: match self.name {
                Some(name) => Some(name@),
                None => None,
            },
            queue: self.queue@.map_values(|line: Vec<u8>| line@),
            greeting_left: self.unsent_greeting as nat,
        }
    }
}

impl Connection {
    /// Whether the connection keeps its invariant.
    pub open spec fn wf(&self) -> bool {
        self@.wf()
    }

    /// A connection that was just accepted, with the greeting queued.
    pub fn new() -> (conn: Connection)
        ensures
            conn.wf(),
            conn@ == ConnectionView::fresh(),
    {
        let line = greeting_line();
        let unsent_greeting = line.len();
        let mut queue: VecDeque<Vec<u8>> = VecDeque::new();
        queue.push_back(line);
        let conn = Connection { name: None, queue, unsent_greeting };
        proof {
            assert(conn@.queue =~= seq![greeting()]);
            assert(greeting().skip(0) =~= greeting());
        }
        conn
    }

    /// The display name, once given.
    pub fn name(&self) -> (name: Option<&Vec<u8>>)
        ensures
            match name {
                Some(bytes) => self@.name == Some(bytes@),
                None => self@.name is None,
            },
    {
        self.name.as_ref()
    }

    /// Where the connection stands in the protocol.
    pub fn phase(&self) -> (phase: Phase)
        ensures
            phase == self@.phase(),
    {
        if self.name.is_some() {
            Phase::Active
        } else if self.unsent_greeting > 0 {
            Phase::Connecting
        } else {
            Phase::Unnamed
        }
    }

    /// How many lines wait to be written.
    pub fn pending(&self) -> (count: usize)
        ensures
            count == self@.queue.len(),
    {
        self.queue.len()
    }

    /// The readiness that the connection wants to hear of.
    pub fn interest(&self) -> (interest: Interest)
        ensures
            interest == self@.interest(),
    {
        if self.queue.len() > 0 {
            Interest::Both
        } else {
            Interest::Readable
        }
    }

    /// The oldest waiting line: what the next write is to send.
    pub fn front(&self) -> (line: Option<&Vec<u8>>)
        ensures
            match line {
                Some(bytes) => self@.queue.len() > 0 && bytes@ == self@.queue[0],
                None => self@.queue.len() == 0,
            },
    {
        if self.queue.len() > 0 {
            Some(&self.queue[0])
        } else {
            None
        }
    }

    /// Queues `message` behind all that is waiting.
    pub fn push_message(&mut self, message: Vec<u8>)
        requires
            old(self).wf(),
        ensures
            final(self).wf(),
            final(self)@ == old(self)@.enqueue(message@),
    {
        self.queue.push_back(message);
        proof {
            assert(self@.queue =~= old(self)@.queue.push(message@));
        }
    }

    /// Takes the oldest waiting line out of the queue.
    pub fn pop_message(&mut self) -> (line: Option<Vec<u8>>)
        requires
            old(self).wf(),
        ensures
            final(self).wf(),
            final(self)@ == old(self)@.dequeue(),
            match line {
                Some(bytes) => old(self)@.queue.len() > 0 && bytes@ == old(self)@.queue[0],
                None => old(self)@.queue.len() == 0,
            },
    {
        let line = self.queue.pop_front();
        if line.is_some() {
            self.unsent_greeting = 0;
        }
        proof {
            assert(self@.queue =~= old(self)@.dequeue().queue);
        }
        line
    }

    /// Takes in the result of one read from the connection's socket.
    pub fn read(&mut self, result: &ReadResult) -> (event: ReadEvent)
        requires
            old(self).wf(),
        ensures
            final(self).wf(),
            event == old(self)@.read_event(*result),
            final(self)@ == old(self)@.after_read(*result),
    {
        match result {
            ReadResult::Failed(kind) => {
                if would_block(*kind) {
                    ReadEvent::Idle
                } else {
                    ReadEvent::Failed(*kind)
                }
            },
            ReadResult::Bytes(data) => {
                if data.len() == 0 {
                    ReadEvent::Closed
                } else if !decodes(data.as_slice()) {
                    ReadEvent::Undecodable
                } else if self.name.is_none() {
                    self.name = Some(trim(data.as_slice()));
                    self.queue.push_back(welcome_line());
                    proof {
                        assert(self@.queue =~= old(self)@.queue.push(welcome()));
                    }
                    ReadEvent::Named
                } else {
                    ReadEvent::Chat
                }
            },
        }
    }

    /// Takes in the result of one write of the oldest waiting line.
    pub fn wrote(&mut self, result: WriteResult) -> (event: WriteEvent)
        requires
            old(self).wf(),
        ensures
            final(self).wf(),
            event == old(self)@.write_event(result),
            final(self)@ == old(self)@.after_write(result),
    {
        match result {
            WriteResult::Failed(kind) => {
                if would_block(kind) {
                    WriteEvent::Blocked
                } else {
                    WriteEvent::Failed(kind)
                }
            },
            WriteResult::Written(n) => {
                match self.queue.pop_front() {
                    None => WriteEvent::Drained,
                    Some(head) => {
                        let stalled = n == 0 && head.len() > 0;
                        if n < head.len() {
                            let rest = slice_to_vec(slice_subrange(head.as_slice(), n, head.len()));
                            proof {
                                assert(rest@ =~= head@.skip(n as int));
                            }
                            self.queue.push_front(rest);
                            if self.unsent_greeting > 0 {
                                self.unsent_greeting = self.unsent_greeting - n;
                            }
                            proof {
                                assert(self@.queue =~= old(self)@.after_write(result).queue);
                                if old(self)@.greeting_left > 0 {
                                    assert(self@.queue[0] =~= greeting().skip(
                                        greeting().len() - self@.greeting_left,
                                    ));
                                }
                            }
                        } else {
                            self.unsent_greeting = 0;
                            proof {
                                assert(self@.queue =~= old(self)@.dequeue().queue);
                            }
                        }
                        if stalled {
                            WriteEvent::Blocked
                        } else if self.queue.len() == 0 {
                            WriteEvent::Drained
                        } else {
                            WriteEvent::More
                        }
                    },
                }
            },
        }
    }
}

} // verus!
