//! What holds of a connection and of the server, whatever the driver hands
//! them.

use crate::connection::{ConnectionView, Phase, ReadEvent, WriteEvent};
use crate::io::{AcceptResult, ReadResult, WriteResult};
use crate::poller::{apply_op, apply_ops, rearm, rearm_all, Interest, PollerOp, Readiness, LISTENER};
use crate::server::ServerView;
use crate::table::{lemma_others, others};
use crate::text::{chat_line, greeting, lemma_fixed_lines, trimmed, welcome};
use vstd::prelude::*;
use vstd::utf8::valid_utf8;

verus! {

/// All the bytes that wait to be written to a connection, in the order in
/// which they will leave.
pub open spec fn pending(conn: ConnectionView) -> Seq<u8> {
    conn.queue.flatten()
}

/// The bytes that a write with this result took out of the queue.
pub open spec fn taken(conn: ConnectionView, result: WriteResult) -> Seq<u8> {
    match result {
        WriteResult::Written(n) if conn.queue.len() > 0 => if n >= conn.queue[0].len() {
            conn.queue[0]
        } else {
            conn.queue[0].take(n as int)
        },
        _ => Seq::empty(),
    }
}

/// One thing that can happen to a connection.
pub enum Move {
    /// A line is queued for it.
    Enqueue(Seq<u8>),
    /// A read from its socket returns.
    Read(ReadResult),
    /// A write of its oldest waiting line returns.
    Write(WriteResult),
}

/// The connection after `step`.
pub open spec fn moved(conn: ConnectionView, step: Move) -> ConnectionView {
    match step {
        Move::Enqueue(line) => conn.enqueue(line),
        Move::Read(result) => conn.after_read(result),
        Move::Write(result) => conn.after_write(result),
    }
}

/// The bytes that `step` adds to the queue.
pub open spec fn queued_by(conn: ConnectionView, step: Move) -> Seq<u8> {
    match step {
        Move::Enqueue(line) => line,
        Move::Read(result) => if conn.read_event(result) == ReadEvent::Named {
            welcome()
        } else {
            Seq::empty()
        },
        Move::Write(_) => Seq::empty(),
    }
}

/// The bytes that `step` hands to the peer.
pub open spec fn sent_by(conn: ConnectionView, step: Move) -> Seq<u8> {
    match step {
        Move::Write(result) => taken(conn, result),
        _ => Seq::empty(),
    }
}

/// The connection after `steps`, one after the other.
pub open spec fn after_moves(conn: ConnectionView, steps: Seq<Move>) -> ConnectionView
    decreases steps.len(),
{
    if steps.len() == 0 {
        conn
    } else {
        moved(after_moves(conn, steps.drop_last()), steps.last())
    }
}

/// All the bytes that `steps` add to the queue, in the order of the steps.
pub open spec fn queued(conn: ConnectionView, steps: Seq<Move>) -> Seq<u8>
    decreases steps.len(),
{
    if steps.len() == 0 {
        Seq::empty()
    } else {
        queued(conn, steps.drop_last()) + queued_by(
            after_moves(conn, steps.drop_last()),
            steps.last(),
        )
    }
}

/// All the bytes that `steps` hand to the peer, in the order of the steps.
pub open spec fn sent(conn: ConnectionView, steps: Seq<Move>) -> Seq<u8>
    decreases steps.len(),
{
    if steps.len() == 0 {
        Seq::empty()
    } else {
        sent(conn, steps.drop_last()) + sent_by(after_moves(conn, steps.drop_last()), steps.last())
    }
}

/// A line that is queued leaves after all that waited before it.
pub proof fn law_enqueue_goes_last(conn: ConnectionView, line: Seq<u8>)
    ensures
        pending(conn.enqueue(line)) == pending(conn) + line,
        conn.wf() ==> conn.enqueue(line).wf(),
{
    conn.queue.lemma_flatten_push(line);
}

/// A read adds the welcome behind all that waits, where it gives the name,
/// and nothing else.
pub proof fn law_read_queues_the_welcome(conn: ConnectionView, result: ReadResult)
    ensures
        pending(conn.after_read(result)) == pending(conn) + queued_by(conn, Move::Read(result)),
        conn.wf() ==> conn.after_read(result).wf(),
{
    if conn.read_event(result) == ReadEvent::Named {
        conn.queue.lemma_flatten_push(welcome());
    } else {
        assert(pending(conn) + Seq::<u8>::empty() =~= pending(conn));
    }
}

/// A write takes the bytes that have waited longest, and leaves the rest in
/// their order.
pub proof fn law_write_takes_the_oldest(conn: ConnectionView, result: WriteResult)
    ensures
        pending(conn) == taken(conn, result) + pending(conn.after_write(result)),
        conn.wf() ==> conn.after_write(result).wf(),
{
    let after = conn.after_write(result);
    match result {
        WriteResult::Written(n) if conn.queue.len() > 0 => {
            let head = conn.queue[0];
            let rest = conn.queue.drop_first();
            assert(conn.queue.first() == head);
            assert(pending(conn) == head + rest.flatten());
            if n >= head.len() {
                assert(after.queue == rest);
            } else {
                let left = head.skip(n as int);
                assert(after.queue.first() == left);
                assert(after.queue.drop_first() =~= rest);
                assert(pending(after) == left + rest.flatten());
                assert(head =~= head.take(n as int) + left);
                assert(head + rest.flatten() =~= head.take(n as int) + (left + rest.flatten()));
                if conn.wf() && conn.greeting_left > 0 {
                    assert(left =~= greeting().skip(greeting().len() - after.greeting_left));
                }
            }
        },
        _ => {
            assert(Seq::<u8>::empty() + pending(conn) =~= pending(conn));
        },
    }
}

/// A write after which the server asks for the next one has made the queue
/// smaller, by a byte or by a line: the writing comes to an end.
pub proof fn law_write_makes_progress(conn: ConnectionView, result: WriteResult)
    requires
        conn.write_event(result) == WriteEvent::More,
    ensures
        conn.after_write(result).queue.len() > 0,
        pending(conn.after_write(result)).len() + conn.after_write(result).queue.len() < pending(
            conn,
        ).len() + conn.queue.len(),
{
    law_write_takes_the_oldest(conn, result);
}

/// Whatever happens to a connection, what its peer has been handed and what
/// still waits are together what waited at first and what was queued since,
/// in that order: nothing is lost, doubled or moved.
pub proof fn law_fifo(conn: ConnectionView, steps: Seq<Move>)
    ensures
        sent(conn, steps) + pending(after_moves(conn, steps)) == pending(conn) + queued(
            conn,
            steps,
        ),
        conn.wf() ==> after_moves(conn, steps).wf(),
    decreases steps.len(),
{
    if steps.len() == 0 {
        assert(Seq::<u8>::empty() + pending(conn) =~= pending(conn) + Seq::<u8>::empty());
    } else {
        let front = steps.drop_last();
        let before = after_moves(conn, front);
        let after = after_moves(conn, steps);
        law_fifo(conn, front);
        match steps.last() {
            Move::Enqueue(line) => law_enqueue_goes_last(before, line),
            Move::Read(result) => law_read_queues_the_welcome(before, result),
            Move::Write(result) => law_write_takes_the_oldest(before, result),
        }
        let s = sent(conn, front);
        let q = queued(conn, front);
        let sb = sent_by(before, steps.last());
        let qb = queued_by(before, steps.last());
        assert(sb + pending(after) =~= pending(before) + qb);
        assert((s + sb) + pending(after) =~= s + (sb + pending(after)));
        assert(s + (pending(before) + qb) =~= (s + pending(before)) + qb);
        assert((pending(conn) + q) + qb =~= pending(conn) + (q + qb));
    }
}

/// A connection that was just accepted is sent the greeting before anything
/// else: all that its peer is ever handed starts with the greeting, as far as
/// it goes.
pub proof fn law_greeting_first(steps: Seq<Move>)
    ensures
        ConnectionView::fresh().wf(),
        ConnectionView::fresh().phase() == Phase::Connecting,
        pending(ConnectionView::fresh()) == greeting(),
        sent(ConnectionView::fresh(), steps) + pending(
            after_moves(ConnectionView::fresh(), steps),
        ) == greeting() + queued(ConnectionView::fresh(), steps),
{
    let fresh = ConnectionView::fresh();
    lemma_fixed_lines();
    assert(fresh.queue.first() == greeting());
    assert(fresh.queue.drop_first() =~= Seq::<Seq<u8>>::empty());
    assert(pending(fresh) =~= greeting()) by {
        reveal_with_fuel(Seq::flatten, 2);
    }
    assert(greeting().skip(0) =~= greeting());
    law_fifo(fresh, steps);
}

/// A connection is named once: the first text that it sends gives the name,
/// and whatever it sends after that is a message and leaves the name alone.
pub proof fn law_named_once(conn: ConnectionView, first: ReadResult, second: ReadResult)
    requires
        conn.name is None,
        first.bytes().len() > 0,
        valid_utf8(first.bytes()),
        first is Bytes,
    ensures
        conn.read_event(first) == ReadEvent::Named,
        conn.after_read(first).name == Some(trimmed(first.bytes())),
        conn.after_read(first).read_event(second) != ReadEvent::Named,
        conn.after_read(first).after_read(second) == conn.after_read(first),
        second is Bytes && second.bytes().len() > 0 && valid_utf8(second.bytes()) ==> conn.after_read(
            first,
        ).read_event(second) == ReadEvent::Chat,
{
}

/// A connection that has a name keeps it, whatever is read from it.
pub proof fn law_name_is_kept(conn: ConnectionView, result: ReadResult)
    requires
        conn.name is Some,
    ensures
        conn.read_event(result) != ReadEvent::Named,
        conn.after_read(result) == conn,
{
}

/// One change to the registrations is that change.
proof fn lemma_apply_one(registry: Map<usize, Interest>, op: PollerOp)
    ensures
        apply_ops(registry, seq![op]) == apply_op(registry, op),
        apply_ops(registry, Seq::empty()) == Some(registry),
{
    assert(seq![op].drop_last() =~= Seq::<PollerOp>::empty());
    assert(seq![op].last() == op);
    reveal_with_fuel(apply_ops, 2);
}

/// The registrations in which `tokens` ask to be written to as well.
spec fn rearmed(registry: Map<usize, Interest>, tokens: Seq<usize>) -> Map<usize, Interest> {
    Map::new(
        |t: usize| registry.dom().contains(t),
        |t: usize|
            if tokens.contains(t) {
                Interest::Both
            } else {
                registry[t]
            },
    )
}

proof fn lemma_rearm_all(registry: Map<usize, Interest>, tokens: Seq<usize>, k: int)
    requires
        0 <= k <= tokens.len(),
        forall|i: int| 0 <= i < tokens.len() ==> registry.dom().contains(#[trigger] tokens[i]),
    ensures
        apply_ops(registry, rearm_all(tokens.take(k))) == Some(rearmed(registry, tokens.take(k))),
    decreases k,
{
    let now = tokens.take(k);
    if k == 0 {
        assert(rearm_all(now).len() == 0);
        assert(rearmed(registry, now) =~= registry);
    } else {
        let before = tokens.take(k - 1);
        let token = tokens[k - 1];
        lemma_rearm_all(registry, tokens, k - 1);
        assert(now =~= before.push(token));
        assert(rearm_all(now).drop_last() =~= rearm_all(before));
        assert(rearm_all(now).last() == rearm(token));
        let mid = rearmed(registry, before);
        assert(mid.dom().contains(token));
        assert forall|t: usize| now.contains(t) <==> before.contains(t) || t == token by {
            if now.contains(t) {
                let i = now.index_of(t);
                if i < k - 1 {
                    assert(before[i] == t);
                }
            }
            if before.contains(t) {
                let i = before.index_of(t);
                assert(now[i] == t);
            }
            assert(now[k - 1] == token);
        }
        assert(mid.insert(token, Interest::Both) =~= rearmed(registry, now));
    }
}

/// Once the listener is registered, the poller has the registrations of a
/// server without clients.
pub proof fn law_startup()
    ensures
        ServerView::initial().wf(),
        apply_op(
            Map::empty(),
            PollerOp::Register { token: LISTENER, interest: Interest::Readable },
        ) == Some(ServerView::initial().registrations()),
{
    assert(Map::<usize, Interest>::empty().insert(LISTENER, Interest::Readable)
        =~= ServerView::initial().registrations());
}

/// The answer to an accept leaves the server well-formed and the poller,
/// once it has made the changes, with the server's registrations: a client
/// is registered once, under a token that nothing is registered under, and
/// an accept without a client changes nothing.
pub proof fn law_accept(server: ServerView, result: AcceptResult)
    requires
        server.wf(),
    ensures
        server.accept_state(result).wf(),
        apply_ops(server.registrations(), server.accept_turn(result).ops) == Some(
            server.accept_state(result).registrations(),
        ),
        result is Failed ==> server.accept_state(result) == server && server.accept_turn(
            result,
        ).ops.len() == 0,
        result is Connected && server.has_room() ==> !server.conns.dom().contains(
            server.next_token,
        ) && server.accept_state(result).conns[server.next_token] == ConnectionView::fresh(),
{
    let after = server.accept_state(result);
    let ops = server.accept_turn(result).ops;
    let token = server.next_token;
    if server.conns.dom().contains(token) {
        assert(token < server.next_token);
    }
    if result == AcceptResult::Connected && server.has_room() {
        law_greeting_first(Seq::empty());
        assert(after.tokens.no_duplicates()) by {
            assert forall|i: int, j: int|
                0 <= i < after.tokens.len() && 0 <= j < after.tokens.len() && i != j implies after.tokens[i]
                != after.tokens[j] by {
                if i < server.tokens.len() {
                    assert(server.tokens.contains(server.tokens[i]));
                }
                if j < server.tokens.len() {
                    assert(server.tokens.contains(server.tokens[j]));
                }
            }
        }
        assert forall|t: usize| after.tokens.contains(t) <==> after.conns.dom().contains(t) by {
            if after.tokens.contains(t) {
                let i = after.tokens.index_of(t);
                if i < server.tokens.len() {
                    assert(server.tokens.contains(server.tokens[i]));
                }
            }
            if server.conns.dom().contains(t) {
                assert(server.tokens.contains(t));
                let i = server.tokens.index_of(t);
                assert(after.tokens[i] == t);
            }
            assert(after.tokens[server.tokens.len() as int] == token);
        }
        assert forall|t: usize| #[trigger]
            after.conns.dom().contains(t) implies LISTENER < t < after.next_token by {
            if t != token {
                assert(server.conns.dom().contains(t));
            }
        }
        lemma_apply_one(
            server.registrations(),
            PollerOp::Register { token, interest: Interest::Both },
        );
        assert(ops =~= seq![PollerOp::Register { token, interest: Interest::Both }]);
        assert(server.registrations().insert(token, Interest::Both) =~= after.registrations());
    } else {
        assert(ops =~= Seq::<PollerOp>::empty());
        lemma_apply_one(server.registrations(), PollerOp::Deregister { token });
    }
}

/// The server without one of its connections is well-formed, and the poller
/// has its registrations once the connection is deregistered.
proof fn lemma_without(server: ServerView, token: usize)
    requires
        server.wf(),
    ensures
        server.without(token).wf(),
        !server.conns.dom().contains(token) ==> server.without(token) == server,
        server.conns.dom().contains(token) ==> apply_ops(
            server.registrations(),
            seq![PollerOp::Deregister { token }],
        ) == Some(server.without(token).registrations()),
{
    let after = server.without(token);
    lemma_others(server.tokens, token);
    assert forall|t: usize| after.tokens.contains(t) <==> after.conns.dom().contains(t) by {
        assert(server.tokens.contains(t) <==> server.conns.dom().contains(t));
    }
    assert forall|t: usize| #[trigger]
        after.conns.dom().contains(t) implies LISTENER < t < after.next_token by {
        assert(server.conns.dom().contains(t));
    }
    if server.conns.dom().contains(token) {
        lemma_apply_one(server.registrations(), PollerOp::Deregister { token });
        assert(server.registrations().remove(token) =~= after.registrations());
    } else {
        assert(!server.tokens.contains(token));
        assert(after.conns =~= server.conns);
    }
}

/// The server with one of its connections changed is well-formed, and the
/// poller has its registrations once the connection's interest is renewed.
proof fn lemma_with(server: ServerView, token: usize, conn: ConnectionView)
    requires
        server.wf(),
        server.conns.dom().contains(token),
        conn.wf(),
    ensures
        server.with(token, conn).wf(),
        apply_ops(
            server.registrations(),
            seq![PollerOp::Reregister { token, interest: conn.interest() }],
        ) == Some(server.with(token, conn).registrations()),
        conn.interest() == server.conns[token].interest() ==> server.with(
            token,
            conn,
        ).registrations() == server.registrations(),
{
    let after = server.with(token, conn);
    assert forall|t: usize| after.tokens.contains(t) <==> after.conns.dom().contains(t) by {
        assert(server.tokens.contains(t) <==> server.conns.dom().contains(t));
    }
    assert forall|t: usize| #[trigger]
        after.conns.dom().contains(t) implies LISTENER < t < after.next_token by {
        assert(server.conns.dom().contains(t));
    }
    lemma_apply_one(
        server.registrations(),
        PollerOp::Reregister { token, interest: conn.interest() },
    );
    assert(server.registrations().insert(token, conn.interest()) =~= after.registrations());
    if conn.interest() == server.conns[token].interest() {
        assert(after.registrations() =~= server.registrations());
    }
}

/// A chat line reaches every connection but the sender's, once each and
/// behind all that waits there; it reaches no token that names no
/// connection; and the sender's connection is as it was.
pub proof fn law_relay(server: ServerView, sender: usize, line: Seq<u8>)
    requires
        server.wf(),
    ensures
        server.relay(sender, line).wf(),
        server.relay(sender, line).conns.dom() == server.conns.dom(),
        forall|t: usize|
            server.conns.dom().contains(t) && t != sender ==> (#[trigger] server.relay(
                sender,
                line,
            ).conns[t]) == server.conns[t].enqueue(line),
        server.conns.dom().contains(sender) ==> server.relay(sender, line).conns[sender]
            == server.conns[sender],
        apply_ops(server.registrations(), rearm_all(others(server.tokens, sender))) == Some(
            server.relay(sender, line).registrations(),
        ),
{
    let after = server.relay(sender, line);
    let receivers = others(server.tokens, sender);
    assert(after.conns.dom() =~= server.conns.dom());
    assert forall|t: usize| after.conns.dom().contains(t) implies (#[trigger] after.conns[t]).wf() by {
        assert(server.conns[t].wf());
        law_enqueue_goes_last(server.conns[t], line);
    }
    assert forall|t: usize| #[trigger]
        after.conns.dom().contains(t) implies LISTENER < t < after.next_token by {
        assert(server.conns.dom().contains(t));
    }
    lemma_others(server.tokens, sender);
    let registry = server.registrations();
    assert forall|i: int| 0 <= i < receivers.len() implies registry.dom().contains(
        #[trigger] receivers[i],
    ) by {
        assert(receivers.contains(receivers[i]));
        assert(server.tokens.contains(receivers[i]));
    }
    lemma_rearm_all(registry, receivers, receivers.len() as int);
    assert(receivers.take(receivers.len() as int) =~= receivers);
    assert forall|t: usize| registry.dom().contains(t) implies #[trigger] rearmed(
        registry,
        receivers,
    )[t] == after.registrations()[t] by {
        if receivers.contains(t) {
            assert(server.tokens.contains(t));
        } else if server.conns.dom().contains(t) {
            assert(server.tokens.contains(t));
            assert(t == sender);
        }
    }
    assert(rearmed(registry, receivers) =~= after.registrations());
}

/// The answer to a readiness event leaves the server well-formed and the
/// poller with the server's registrations.
pub proof fn law_event(server: ServerView, event: Readiness)
    requires
        server.wf(),
    ensures
        server.event_state(event).wf(),
        apply_ops(server.registrations(), server.event_turn(event).ops) == Some(
            server.event_state(event).registrations(),
        ),
{
    lemma_without(server, event.token);
    lemma_apply_one(server.registrations(), PollerOp::Deregister { token: event.token });
    if event.read_closed && server.conns.dom().contains(event.token) {
        assert(server.event_turn(event).ops =~= seq![PollerOp::Deregister { token: event.token }]);
    } else {
        assert(server.event_turn(event).ops =~= Seq::<PollerOp>::empty());
    }
}

/// The answer to a read leaves the server well-formed and the poller with
/// the server's registrations.
pub proof fn law_read(server: ServerView, token: usize, then_write: bool, result: ReadResult)
    requires
        server.wf(),
    ensures
        server.read_state(token, result).wf(),
        apply_ops(server.registrations(), server.read_turn(token, then_write, result).ops) == Some(
            server.read_state(token, result).registrations(),
        ),
{
    let ops = server.read_turn(token, then_write, result).ops;
    lemma_apply_one(server.registrations(), PollerOp::Deregister { token });
    if !server.conns.dom().contains(token) {
        assert(ops =~= Seq::<PollerOp>::empty());
    } else {
        let conn = server.conns[token];
        assert(conn.wf());
        match conn.read_event(result) {
            ReadEvent::Idle | ReadEvent::Undecodable => {
                assert(ops =~= Seq::<PollerOp>::empty());
            },
            ReadEvent::Closed | ReadEvent::Failed(_) => {
                lemma_without(server, token);
                assert(ops =~= seq![PollerOp::Deregister { token }]);
            },
            ReadEvent::Named => {
                law_read_queues_the_welcome(conn, result);
                lemma_with(server, token, conn.after_read(result));
                assert(ops =~= seq![rearm(token)]);
            },
            ReadEvent::Chat => {
                law_relay(server, token, chat_line(conn.name.unwrap(), result.bytes()));
            },
        }
    }
}

/// The answer to a write leaves the server well-formed and the poller with
/// the server's registrations: a connection asks to be written to exactly
/// while lines wait for it.
pub proof fn law_write(server: ServerView, token: usize, result: WriteResult)
    requires
        server.wf(),
    ensures
        server.write_state(token, result).wf(),
        apply_ops(server.registrations(), server.write_turn(token, result).ops) == Some(
            server.write_state(token, result).registrations(),
        ),
{
    let ops = server.write_turn(token, result).ops;
    lemma_apply_one(server.registrations(), PollerOp::Deregister { token });
    if !server.conns.dom().contains(token) {
        assert(ops =~= Seq::<PollerOp>::empty());
    } else {
        let conn = server.conns[token];
        assert(conn.wf());
        let after = conn.after_write(result);
        law_write_takes_the_oldest(conn, result);
        match conn.write_event(result) {
            WriteEvent::Failed(_) => {
                lemma_without(server, token);
                assert(ops =~= seq![PollerOp::Deregister { token }]);
            },
            WriteEvent::Drained => {
                lemma_with(server, token, after);
                assert(ops =~= seq![
                    PollerOp::Reregister { token, interest: Interest::Readable },
                ]);
            },
            WriteEvent::More | WriteEvent::Blocked => {
                lemma_with(server, token, after);
                assert(ops =~= Seq::<PollerOp>::empty());
            },
        }
    }
}

/// A token that has been given out and names no connection names none ever
/// after: no step of the server brings it back, so nothing is queued for it
/// and no later client is taken for the one that left.
pub proof fn law_token_never_returns(
    server: ServerView,
    token: usize,
    accepted: AcceptResult,
    event: Readiness,
    at: usize,
    read: ReadResult,
    wrote: WriteResult,
)
    requires
        server.wf(),
        token < server.next_token,
        !server.conns.dom().contains(token),
    ensures
        !server.accept_state(accepted).conns.dom().contains(token),
        token < server.accept_state(accepted).next_token,
        !server.event_state(event).conns.dom().contains(token),
        !server.read_state(at, read).conns.dom().contains(token),
        !server.write_state(at, wrote).conns.dom().contains(token),
        server.event_state(event).next_token == server.next_token,
        server.read_state(at, read).next_token == server.next_token,
        server.write_state(at, wrote).next_token == server.next_token,
{
}

/// Two clients that are accepted one after the other get tokens of their
/// own, and each its own greeting.
pub proof fn law_each_client_its_own_token(server: ServerView)
    requires
        server.wf(),
        server.has_room(),
        server.joined().has_room(),
    ensures
        server.joined().next_token != server.next_token,
        server.joined().joined().conns[server.next_token] == ConnectionView::fresh(),
        server.joined().joined().conns[server.joined().next_token] == ConnectionView::fresh(),
        server.joined().joined().tokens == server.tokens.push(server.next_token).push(
            server.joined().next_token,
        ),
{
}

} // verus!
