use chat_reactor::connection::Phase;
use chat_reactor::io::{AcceptResult, ErrorKind, ReadResult, WriteResult};
use chat_reactor::poller::{
    listener_registration, register_rw, reregister_rw, Interest, PollerOp, Readiness, LISTENER,
};
use chat_reactor::server::{Notice, Server, Step, Turn};
use std::collections::BTreeMap;

const GREETING: &[u8] = b"Please enter your name: ";
const WELCOME: &[u8] = b"Welcome, you can start sending messages.\n";

/// A driver without sockets: it keeps what each client was sent, and holds
/// every change to the registrations against what is registered.
struct Net {
    server: Server,
    registry: BTreeMap<usize, Interest>,
    received: BTreeMap<usize, Vec<u8>>,
    notices: Vec<Notice>,
}

fn readable(token: usize) -> Readiness {
    Readiness { token, readable: true, writable: false, read_closed: false }
}

fn writable(token: usize) -> Readiness {
    Readiness { token, readable: false, writable: true, read_closed: false }
}

fn closed(token: usize) -> Readiness {
    Readiness { token, readable: true, writable: false, read_closed: true }
}

impl Net {
    fn new() -> Net {
        let mut net = Net {
            server: Server::new(),
            registry: BTreeMap::new(),
            received: BTreeMap::new(),
            notices: Vec::new(),
        };
        net.perform(&[listener_registration()]);
        net
    }

    fn perform(&mut self, ops: &[PollerOp]) {
        for op in ops {
            match *op {
                PollerOp::Register { token, interest } => {
                    assert!(self.registry.insert(token, interest).is_none(), "registered twice");
                    if token != LISTENER {
                        self.received.insert(token, Vec::new());
                    }
                },
                PollerOp::Reregister { token, interest } => {
                    assert!(self.registry.insert(token, interest).is_some(), "not registered");
                },
                PollerOp::Deregister { token } => {
                    assert!(self.registry.remove(&token).is_some(), "not registered");
                },
            }
        }
    }

    fn take(&mut self, turn: Turn) -> Step {
        self.perform(&turn.ops);
        if let Some(notice) = turn.notice {
            self.notices.push(notice);
        }
        self.check();
        turn.next
    }

    /// The registrations are the listener's and one for each connection,
    /// for writing exactly where lines wait.
    fn check(&self) {
        assert_eq!(self.registry.get(&LISTENER), Some(&Interest::Readable));
        assert_eq!(self.registry.len(), self.server.len() + 1);
        for (token, interest) in &self.registry {
            if *token != LISTENER {
                let conn = self.server.connection(*token).expect("registered, so connected");
                assert_eq!(*interest, conn.interest());
            }
        }
    }

    /// Drains the listener, where `waiting` clients wait to be accepted.
    fn accept(&mut self, waiting: usize) -> Vec<usize> {
        let before = self.notices.len();
        let turn = self.server.dispatch(readable(LISTENER));
        assert_eq!(self.take(turn), Step::Accept);
        for _ in 0..waiting {
            let turn = self.server.handle_new_connections(AcceptResult::Connected);
            assert_eq!(self.take(turn), Step::Accept);
        }
        let turn = self.server.handle_new_connections(AcceptResult::Failed(ErrorKind::WouldBlock));
        assert_eq!(self.take(turn), Step::Done);
        self.notices[before..]
            .iter()
            .map(|notice| match notice {
                Notice::Connected(token) => *token,
                other => panic!("unexpected {:?}", other),
            })
            .collect()
    }

    /// Writes to `token` as long as the server asks for it, `chunk` bytes at
    /// most at a time.
    fn write_all(&mut self, mut step: Step, chunk: usize) {
        while let Step::Write { token } = step {
            let line = self.server.outgoing(token).expect("asked to write").clone();
            let n = std::cmp::min(chunk, line.len());
            self.received.get_mut(&token).unwrap().extend_from_slice(&line[..n]);
            let turn = self.server.handle_write(token, WriteResult::Written(n));
            step = self.take(turn);
        }
        assert_eq!(step, Step::Done);
    }

    fn flush(&mut self, token: usize) {
        let turn = self.server.dispatch(writable(token));
        let step = self.take(turn);
        self.write_all(step, usize::MAX);
    }

    fn flush_all(&mut self) {
        let tokens: Vec<usize> = self.received.keys().copied().collect();
        for token in tokens {
            self.flush(token);
        }
    }

    fn send(&mut self, token: usize, data: &[u8]) {
        let turn = self.server.dispatch(readable(token));
        match self.take(turn) {
            Step::Read { token: asked, capacity, then_write } => {
                assert_eq!(asked, token);
                assert_eq!(capacity, 256);
                let turn = self.server.handle_read(token, then_write, ReadResult::Bytes(data.to_vec()));
                let step = self.take(turn);
                self.write_all(step, usize::MAX);
            },
            other => panic!("unexpected {:?}", other),
        }
    }

    fn close(&mut self, token: usize) {
        let turn = self.server.dispatch(closed(token));
        assert_eq!(self.take(turn), Step::Done);
    }

    fn received(&self, token: usize) -> Vec<u8> {
        self.received[&token].clone()
    }

    /// What `token` received since `mark` bytes.
    fn news(&self, token: usize, mark: usize) -> Vec<u8> {
        self.received[&token][mark..].to_vec()
    }
}

fn join(net: &mut Net, name: &[u8]) -> usize {
    let token = net.accept(1)[0];
    net.flush(token);
    net.send(token, name);
    net.flush(token);
    token
}

#[test]
fn new_server_has_no_clients() {
    let server = Server::new();
    assert_eq!(server.len(), 0);
    assert!(!server.contains(LISTENER));
    assert!(!server.contains(1));
    assert!(server.connection(1).is_none());
    assert!(server.outgoing(1).is_none());
}

#[test]
fn registrations_are_built_as_named() {
    assert_eq!(
        listener_registration(),
        PollerOp::Register { token: LISTENER, interest: Interest::Readable }
    );
    assert_eq!(register_rw(3), PollerOp::Register { token: 3, interest: Interest::Both });
    assert_eq!(reregister_rw(3), PollerOp::Reregister { token: 3, interest: Interest::Both });
    assert!(Interest::Both.is_readable() && Interest::Both.is_writable());
    assert!(Interest::Readable.is_readable() && !Interest::Readable.is_writable());
    assert!(!Interest::Writable.is_readable() && Interest::Writable.is_writable());
}

#[test]
fn listener_event_starts_the_accepting() {
    let mut server = Server::new();
    let turn = server.dispatch(writable(LISTENER));
    assert!(turn.ops.is_empty());
    assert_eq!(turn.notice, None);
    assert_eq!(turn.next, Step::Accept);
    assert_eq!(server.len(), 0);
}

#[test]
fn client_receives_the_greeting_then_the_welcome_and_nothing_is_relayed() {
    let mut net = Net::new();
    let alice = net.accept(1)[0];
    assert_eq!(net.server.connection(alice).unwrap().phase(), Phase::Connecting);
    net.flush(alice);
    assert_eq!(net.received(alice), GREETING.to_vec());
    assert_eq!(net.server.connection(alice).unwrap().phase(), Phase::Unnamed);
    let witness = net.accept(1)[0];
    net.flush(witness);
    net.send(alice, b"alice\n");
    net.flush(alice);
    assert_eq!(net.news(alice, GREETING.len()), WELCOME.to_vec());
    assert_eq!(net.server.connection(alice).unwrap().name(), Some(&b"alice".to_vec()));
    assert_eq!(net.server.connection(alice).unwrap().phase(), Phase::Active);
    net.flush_all();
    assert_eq!(net.received(witness), GREETING.to_vec());
    assert!(net.notices.contains(&Notice::Named(alice)));
}

#[test]
fn message_goes_to_the_other_and_not_back_to_the_sender() {
    let mut net = Net::new();
    let alice = join(&mut net, b"alice\n");
    let bob = join(&mut net, b"bob\n");
    let (seen_by_alice, seen_by_bob) = (net.received(alice).len(), net.received(bob).len());
    net.send(alice, b"hello");
    net.flush_all();
    assert_eq!(net.news(bob, seen_by_bob), b"alice: hello".to_vec());
    assert_eq!(net.news(alice, seen_by_alice), Vec::<u8>::new());
    assert!(net.notices.contains(&Notice::Relayed(alice)));
}

#[test]
fn message_reaches_every_other_client_once() {
    let mut net = Net::new();
    let alice = join(&mut net, b"alice");
    let bob = join(&mut net, b"bob");
    let carol = join(&mut net, b"carol");
    let unnamed = net.accept(1)[0];
    net.send(bob, b"hi all\n");
    net.flush_all();
    let mut greeted = GREETING.to_vec();
    greeted.extend_from_slice(WELCOME);
    let mut with_line = greeted.clone();
    with_line.extend_from_slice(b"bob: hi all\n");
    assert_eq!(net.received(alice), with_line);
    assert_eq!(net.received(carol), with_line);
    assert_eq!(net.received(bob), greeted);
    let mut for_unnamed = GREETING.to_vec();
    for_unnamed.extend_from_slice(b"bob: hi all\n");
    assert_eq!(net.received(unnamed), for_unnamed);
}

#[test]
fn broadcast_queues_for_the_others_and_renews_their_registrations() {
    let mut net = Net::new();
    let tokens = net.accept(3);
    net.flush_all();
    let ops = net.server.broadcast(tokens[1], b"n", b"m");
    assert_eq!(ops, vec![reregister_rw(tokens[0]), reregister_rw(tokens[2])]);
    net.perform(&ops);
    net.check();
    assert_eq!(net.server.outgoing(tokens[0]), Some(&b"n: m".to_vec()));
    assert_eq!(net.server.outgoing(tokens[1]), None);
    assert_eq!(net.server.outgoing(tokens[2]), Some(&b"n: m".to_vec()));
}

#[test]
fn messages_arrive_in_the_order_in_which_they_were_sent() {
    let mut net = Net::new();
    let alice = join(&mut net, b"alice");
    let bob = join(&mut net, b"bob");
    let carol = join(&mut net, b"carol");
    let mark = net.received(carol).len();
    net.send(alice, b"1;");
    net.send(bob, b"2;");
    net.send(alice, b"3;");
    let turn = net.server.dispatch(writable(carol));
    let step = net.take(turn);
    net.write_all(step, 3);
    assert_eq!(net.news(carol, mark), b"alice: 1;bob: 2;alice: 3;".to_vec());
}

#[test]
fn client_that_left_is_sent_nothing_and_its_token_is_not_used_again() {
    let mut net = Net::new();
    let alice = join(&mut net, b"alice");
    let bob = join(&mut net, b"bob");
    net.send(alice, b"for bob");
    let seen_by_bob = net.received(bob).len();
    net.close(bob);
    assert!(!net.server.contains(bob));
    assert!(net.notices.contains(&Notice::Disconnected(bob)));
    net.send(alice, b"hi");
    net.flush(alice);
    assert!(net.server.outgoing(bob).is_none());
    assert_eq!(net.news(bob, seen_by_bob), Vec::<u8>::new());
    let later = net.accept(1)[0];
    assert!(later != bob && later != alice);
    net.flush(later);
    assert_eq!(net.received(later), GREETING.to_vec());
    assert_eq!(net.server.connection(later).unwrap().name(), None);
}

#[test]
fn close_of_an_unknown_client_does_nothing() {
    let mut net = Net::new();
    let alice = join(&mut net, b"alice");
    let turn = net.server.dispatch(closed(alice + 10));
    assert!(turn.ops.is_empty());
    assert_eq!(turn.notice, None);
    assert_eq!(turn.next, Step::Done);
    net.close(alice);
    let turn = net.server.dispatch(closed(alice));
    assert!(turn.ops.is_empty());
    assert_eq!(turn.notice, None);
    assert_eq!(net.server.len(), 0);
}

#[test]
fn two_waiting_clients_are_accepted_in_one_draining() {
    let mut net = Net::new();
    let tokens = net.accept(2);
    assert_eq!(tokens.len(), 2);
    assert!(tokens[0] != tokens[1]);
    assert!(tokens[0] != LISTENER && tokens[1] != LISTENER);
    assert_eq!(net.server.len(), 2);
    net.flush_all();
    assert_eq!(net.received(tokens[0]), GREETING.to_vec());
    assert_eq!(net.received(tokens[1]), GREETING.to_vec());
}

#[test]
fn accept_without_a_client_changes_nothing() {
    let mut net = Net::new();
    let alice = net.accept(1)[0];
    for _ in 0..3 {
        let turn = net.server.handle_new_connections(AcceptResult::Failed(ErrorKind::WouldBlock));
        assert!(turn.ops.is_empty());
        assert_eq!(turn.notice, None);
        assert_eq!(turn.next, Step::Done);
    }
    assert_eq!(net.accept(0), Vec::<usize>::new());
    assert_eq!(net.server.len(), 1);
    assert!(net.server.contains(alice));
    assert_eq!(net.registry.len(), 2);
}

#[test]
fn accept_that_failed_ends_the_draining_and_is_reported() {
    let mut server = Server::new();
    let turn = server.handle_new_connections(AcceptResult::Failed(ErrorKind::ConnectionAborted));
    assert!(turn.ops.is_empty());
    assert_eq!(turn.notice, Some(Notice::AcceptFailed(ErrorKind::ConnectionAborted)));
    assert_eq!(turn.next, Step::Done);
    assert_eq!(server.len(), 0);
}

#[test]
fn accepted_client_is_registered_for_reading_and_writing() {
    let mut server = Server::new();
    let turn = server.handle_new_connections(AcceptResult::Connected);
    assert_eq!(turn.ops, vec![PollerOp::Register { token: 1, interest: Interest::Both }]);
    assert_eq!(turn.notice, Some(Notice::Connected(1)));
    assert_eq!(turn.next, Step::Accept);
    let turn = server.handle_new_connections(AcceptResult::Connected);
    assert_eq!(turn.ops, vec![PollerOp::Register { token: 2, interest: Interest::Both }]);
    assert_eq!(server.len(), 2);
}

#[test]
fn readable_event_asks_for_a_read_and_remembers_the_write() {
    let mut net = Net::new();
    let alice = net.accept(1)[0];
    let event = Readiness { token: alice, readable: true, writable: true, read_closed: false };
    let turn = net.server.handle_user_event(event);
    assert!(turn.ops.is_empty());
    assert_eq!(turn.next, Step::Read { token: alice, capacity: 256, then_write: true });
    let turn = net.server.handle_read(alice, true, ReadResult::Bytes(b"alice\n".to_vec()));
    assert_eq!(turn.ops, vec![reregister_rw(alice)]);
    assert_eq!(turn.notice, Some(Notice::Named(alice)));
    let step = net.take(turn);
    assert_eq!(step, Step::Write { token: alice });
    net.write_all(step, usize::MAX);
    let mut expected = GREETING.to_vec();
    expected.extend_from_slice(WELCOME);
    assert_eq!(net.received(alice), expected);
}

#[test]
fn event_for_an_unknown_client_asks_for_nothing() {
    let mut server = Server::new();
    let event = Readiness { token: 9, readable: true, writable: true, read_closed: false };
    let turn = server.handle_user_event(event);
    assert!(turn.ops.is_empty());
    assert_eq!(turn.next, Step::Done);
    let turn = server.handle_read(9, true, ReadResult::Bytes(b"x".to_vec()));
    assert!(turn.ops.is_empty());
    assert_eq!(turn.notice, None);
    assert_eq!(turn.next, Step::Done);
    let turn = server.handle_write(9, WriteResult::Written(1));
    assert!(turn.ops.is_empty());
    assert_eq!(turn.next, Step::Done);
}

#[test]
fn event_without_readiness_asks_for_nothing() {
    let mut net = Net::new();
    let alice = net.accept(1)[0];
    let event = Readiness { token: alice, readable: false, writable: false, read_closed: false };
    let turn = net.server.handle_user_event(event);
    assert!(turn.ops.is_empty());
    assert_eq!(turn.next, Step::Done);
}

#[test]
fn empty_read_drops_the_client() {
    let mut net = Net::new();
    let alice = join(&mut net, b"alice");
    let bob = join(&mut net, b"bob");
    let turn = net.server.handle_read(bob, true, ReadResult::Bytes(Vec::new()));
    assert_eq!(turn.ops, vec![PollerOp::Deregister { token: bob }]);
    assert_eq!(turn.notice, Some(Notice::Disconnected(bob)));
    assert_eq!(net.take(turn), Step::Done);
    assert!(!net.server.contains(bob));
    assert!(net.server.contains(alice));
}

#[test]
fn failed_read_drops_that_client_only() {
    let mut net = Net::new();
    let alice = join(&mut net, b"alice");
    let bob = join(&mut net, b"bob");
    let turn = net.server.handle_read(alice, false, ReadResult::Failed(ErrorKind::ConnectionReset));
    assert_eq!(turn.ops, vec![PollerOp::Deregister { token: alice }]);
    assert_eq!(turn.notice, Some(Notice::ReadFailed(alice, ErrorKind::ConnectionReset)));
    assert_eq!(net.take(turn), Step::Done);
    assert!(!net.server.contains(alice));
    assert!(net.server.contains(bob));
    assert_eq!(net.server.len(), 1);
}

#[test]
fn read_that_would_block_keeps_the_client() {
    let mut net = Net::new();
    let alice = join(&mut net, b"alice");
    let turn = net.server.handle_read(alice, false, ReadResult::Failed(ErrorKind::WouldBlock));
    assert!(turn.ops.is_empty());
    assert_eq!(turn.notice, None);
    assert_eq!(net.take(turn), Step::Done);
    assert!(net.server.contains(alice));
}

#[test]
fn undecodable_message_is_dropped_and_the_client_stays() {
    let mut net = Net::new();
    let alice = join(&mut net, b"alice");
    let bob = join(&mut net, b"bob");
    let mark = net.received(bob).len();
    let turn = net.server.handle_read(alice, false, ReadResult::Bytes(vec![b'h', 0xff, b'i']));
    assert!(turn.ops.is_empty());
    assert_eq!(turn.notice, Some(Notice::Undecodable(alice)));
    assert_eq!(net.take(turn), Step::Done);
    assert!(net.server.contains(alice));
    net.flush_all();
    assert_eq!(net.news(bob, mark), Vec::<u8>::new());
    net.send(alice, b"again");
    net.flush_all();
    assert_eq!(net.news(bob, mark), b"alice: again".to_vec());
}

#[test]
fn failed_write_drops_the_client() {
    let mut net = Net::new();
    let alice = net.accept(1)[0];
    let bob = net.accept(1)[0];
    let turn = net.server.handle_write(alice, WriteResult::Failed(ErrorKind::BrokenPipe));
    assert_eq!(turn.ops, vec![PollerOp::Deregister { token: alice }]);
    assert_eq!(turn.notice, Some(Notice::WriteFailed(alice, ErrorKind::BrokenPipe)));
    assert_eq!(net.take(turn), Step::Done);
    assert!(!net.server.contains(alice));
    assert!(net.server.contains(bob));
}

#[test]
fn write_that_would_block_keeps_the_line_for_the_next_event() {
    let mut net = Net::new();
    let alice = net.accept(1)[0];
    let turn = net.server.dispatch(writable(alice));
    assert_eq!(net.take(turn), Step::Write { token: alice });
    let turn = net.server.handle_write(alice, WriteResult::Failed(ErrorKind::WouldBlock));
    assert!(turn.ops.is_empty());
    assert_eq!(net.take(turn), Step::Done);
    assert_eq!(net.server.outgoing(alice), Some(&GREETING.to_vec()));
    assert_eq!(net.registry[&alice], Interest::Both);
    net.flush(alice);
    assert_eq!(net.received(alice), GREETING.to_vec());
}

#[test]
fn drained_client_is_registered_for_reading_only() {
    let mut net = Net::new();
    let alice = net.accept(1)[0];
    assert_eq!(net.registry[&alice], Interest::Both);
    let turn = net.server.handle_write(alice, WriteResult::Written(GREETING.len()));
    assert_eq!(
        turn.ops,
        vec![PollerOp::Reregister { token: alice, interest: Interest::Readable }]
    );
    assert_eq!(net.take(turn), Step::Done);
    assert_eq!(net.registry[&alice], Interest::Readable);
    let turn = net.server.dispatch(writable(alice));
    assert_eq!(net.take(turn), Step::Done);
}

#[test]
fn partial_writes_deliver_every_byte_once() {
    let mut net = Net::new();
    let alice = join(&mut net, b"alice");
    let bob = net.accept(1)[0];
    net.send(alice, b"a long enough line to be cut in pieces\n");
    let turn = net.server.dispatch(writable(bob));
    let step = net.take(turn);
    net.write_all(step, 7);
    let mut expected = GREETING.to_vec();
    expected.extend_from_slice(b"alice: a long enough line to be cut in pieces\n");
    assert_eq!(net.received(bob), expected);
}
