//! What the event loop holds once it has carried out what the proxy asked for.
use vstd::prelude::*;

use crate::connection::{
    ConnectionView, Effect, ReadOutcomeView, ReadStatus, Socket, WriteOutcome, WriteStatus,
};
use crate::consistency::{lemma_mark_connected, lemma_send_queue_flushed, lemma_written, linked};
use crate::events::EventSet;
use crate::laws::{lemma_flush_only_chooses, Input};
use crate::model::{
    reregister, AfterRead, PhaseView, ProxyView, Purpose, CONNECT_TIMEOUT_MS, LISTEN_TOKEN,
};

verus! {

/// The sockets of an event loop.
#[verifier::ext_equal]
pub struct Sockets {
    /// The connections that have a socket.
    pub open: Set<usize>,
    /// The events for which a socket is registered.
    pub registered: Map<usize, EventSet>,
    /// The connections whose socket was opened to a backend server.
    pub backends: Set<usize>,
    /// The connections whose connect timeout is known.
    pub timeouts: Set<usize>,
}

impl Sockets {
    /// An event loop without sockets.
    pub open spec fn none() -> Sockets {
        Sockets {
            open: Set::empty(),
            registered: Map::empty(),
            backends: Set::empty(),
            timeouts: Set::empty(),
        }
    }

    /// Whether an operation can be asked for. One that is about a socket needs the socket, only a
    /// socket to a backend server is replaced, and not while it is registered. A timeout is armed
    /// only for a socket to a backend server, where no timeout is known and always with the same
    /// length, and cancelled only where one is known.
    pub open spec fn allows(self, effect: Effect) -> bool {
        match effect {
            Effect::Attach { token, .. } => self.open.contains(token) ==> self.backends.contains(
                token,
            ) && !self.registered.contains_key(token),
            Effect::Register { token, .. } => self.open.contains(token)
                && !self.registered.contains_key(token),
            Effect::Reregister { token, .. } => self.open.contains(token),
            Effect::Deregister { token } => self.open.contains(token),
            Effect::Close { token } => self.open.contains(token),
            Effect::StartTimeout { token, ms } => {
                &&& self.open.contains(token)
                &&& self.backends.contains(token)
                &&& !self.timeouts.contains(token)
                &&& ms == CONNECT_TIMEOUT_MS
            },
            Effect::ClearTimeout { token } => self.timeouts.contains(token),
            Effect::Connected { token } => self.open.contains(token) && self.backends.contains(
                token,
            ),
        }
    }

    /// The sockets after an operation. A socket that is not registered cannot be registered
    /// again, and a connection that goes takes what is known of its timeout with it.
    pub open spec fn perform(self, effect: Effect) -> Sockets {
        match effect {
            Effect::Attach { token, socket } => Sockets {
                open: self.open.insert(token),
                backends: match socket {
                    Socket::Opened => self.backends.insert(token),
                    Socket::Accepted => self.backends.remove(token),
                },
                ..self
            },
            Effect::Register { token, interest } => Sockets {
                registered: self.registered.insert(token, interest),
                ..self
            },
            Effect::Reregister { token, interest, .. } => if self.registered.contains_key(token) {
                Sockets { registered: self.registered.insert(token, interest), ..self }
            } else {
                self
            },
            Effect::Deregister { token } => Sockets {
                registered: self.registered.remove(token),
                ..self
            },
            Effect::Close { token } => Sockets {
                open: self.open.remove(token),
                registered: self.registered.remove(token),
                backends: self.backends.remove(token),
                timeouts: self.timeouts.remove(token),
            },
            Effect::StartTimeout { token, .. } => Sockets {
                timeouts: self.timeouts.insert(token),
                ..self
            },
            Effect::ClearTimeout { token } => Sockets {
                timeouts: self.timeouts.remove(token),
                ..self
            },
            Effect::Connected { .. } => self,
        }
    }

    /// The sockets after the operations, the oldest first.
    pub open spec fn perform_all(self, effects: Seq<Effect>) -> Sockets
        decreases effects.len(),
    {
        if effects.len() == 0 {
            self
        } else {
            self.perform_all(effects.drop_last()).perform(effects.last())
        }
    }

    /// Whether each of the operations can be asked for when its turn comes.
    pub open spec fn allows_all(self, effects: Seq<Effect>) -> bool
        decreases effects.len(),
    {
        effects.len() > 0 ==> {
            &&& self.allows_all(effects.drop_last())
            &&& self.perform_all(effects.drop_last()).allows(effects.last())
        }
    }

    /// Whether the sockets are those that the connections need: each connection has one, one that
    /// is registered is registered for the interest of its connection, one that is not connected
    /// yet was opened to a backend server, and a timeout is known where the connection says so,
    /// which is only where there is a socket to a backend server. The socket of a connection that
    /// looks for another server is not registered.
    pub open spec fn agree(self, s: ProxyView) -> bool {
        &&& self.open == s.conns.dom()
        &&& forall|token: usize| #[trigger]
            self.registered.contains_key(token) ==> s.conns.contains_key(token)
                && self.registered[token] == s.conns[token].interest
        &&& forall|token: usize| #[trigger]
            s.conns.contains_key(token) && !s.conns[token].connected ==> self.backends.contains(
                token,
            )
        &&& forall|token: usize| #[trigger]
            self.timeouts.contains(token) ==> self.backends.contains(token)
        &&& forall|token: usize| #[trigger]
            self.timeouts.contains(token) <==> s.conns.contains_key(token)
                && s.conns[token].timeout
        &&& match s.phase {
            PhaseView::Choosing { purpose: Purpose::Retry { token } } => !(
            #[trigger] self.registered.contains_key(token)),
            PhaseView::Connecting { purpose: Purpose::Retry { token }, .. } => !(
            #[trigger] self.registered.contains_key(token)),
            _ => true,
        }
    }

    /// Whether the operations that are due can be carried out, and leave the sockets that the
    /// connections need.
    pub open spec fn serves(self, s: ProxyView) -> bool {
        &&& self.allows_all(s.effects)
        &&& self.perform_all(s.effects).agree(s)
    }
}

/// One more operation is due.
proof fn lemma_emit(b: Sockets, s: ProxyView, effect: Effect)
    ensures
        b.perform_all(s.emit(effect).effects) == b.perform_all(s.effects).perform(effect),
        b.allows_all(s.emit(effect).effects) <==> b.allows_all(s.effects) && b.perform_all(
            s.effects,
        ).allows(effect),
{
    assert(s.emit(effect).effects.drop_last() =~= s.effects);
}

/// A connection changes its interest and registers again.
proof fn lemma_reregistered(
    b: Sockets,
    s: ProxyView,
    token: usize,
    c: ConnectionView,
    required: bool,
)
    requires
        b.serves(s),
        s.live(token),
        c.timeout == s.conns[token].timeout,
        c.connected == s.conns[token].connected,
    ensures
        b.serves(
            s.put(token, c).emit(Effect::Reregister { token, interest: c.interest, required }),
        ),
{
    let effect = Effect::Reregister { token, interest: c.interest, required };
    let t = s.put(token, c).emit(effect);
    lemma_emit(b, s, effect);
    assert(t.conns.dom() =~= s.conns.dom());
}

/// A connection leaves the event loop and is gone.
proof fn lemma_released(b: Sockets, s: ProxyView, token: usize)
    requires
        b.serves(s),
        s.live(token),
        !(s.phase is Choosing),
        !(s.phase is Connecting),
    ensures
        b.serves(s.emit(Effect::Deregister { token }).release(token)),
{
    let t = s.emit(Effect::Deregister { token });
    lemma_emit(b, s, Effect::Deregister { token });
    lemma_emit(b, t, Effect::Close { token });
    assert(t.release(token).conns.dom() =~= s.conns.dom().remove(token));
}

/// No connection changes its interest, its timeout or whether it is connected, and nothing is
/// asked for.
proof fn lemma_unseen(b: Sockets, s: ProxyView, t: ProxyView)
    requires
        b.serves(s),
        t.effects == s.effects,
        t.conns.dom() == s.conns.dom(),
        forall|token: usize| #[trigger]
            s.conns.contains_key(token) ==> t.conns[token].interest == s.conns[token].interest
                && t.conns[token].timeout == s.conns[token].timeout && t.conns[token].connected
                == s.conns[token].connected,
        t.phase == s.phase || !(t.phase is Choosing || t.phase is Connecting),
    ensures
        b.serves(t),
{
}

proof fn lemma_flush_serves(b: Sockets, s: ProxyView, left: usize)
    requires
        b.serves(s),
    ensures
        b.serves(s.flush_readable_tokens(left)),
{
    lemma_flush_only_chooses(s, left);
    lemma_unseen(b, s, s.flush_readable_tokens(left));
}

proof fn lemma_deliver_serves(b: Sockets, s: ProxyView, token: usize, messages: Seq<Seq<u8>>)
    requires
        b.serves(s),
        s.live(token),
        s.conns[token].end is Some,
        linked(s.conns, token),
    ensures
        b.serves(s.deliver(token, messages)),
        s.deliver(token, messages).conns[token] == s.conns[token],
{
    if messages.len() > 0 {
        let end = s.other_end(token);
        let c = s.conns[end].send_messages(messages);
        lemma_reregistered(b, s, end, c, false);
        let t = s.put(end, c).emit(
            Effect::Reregister { token: end, interest: c.interest, required: false },
        );
        lemma_reregistered(b, t, token, s.conns[token], true);
        assert(t.put(token, s.conns[token]).conns =~= t.conns);
    }
}

proof fn lemma_terminate_serves(b: Sockets, s: ProxyView, token: usize)
    requires
        b.serves(s),
        s.live(token),
        linked(s.conns, token),
        !(s.phase is Choosing),
        !(s.phase is Connecting),
    ensures
        b.serves(s.terminate_connection(token)),
{
    match s.conns[token].end {
        None => {},
        Some(end) => {
            if s.conns[end].queue.len() == 0 {
                lemma_released(b, s, end);
            } else {
                let c = ConnectionView {
                    end: None,
                    interest: EventSet {
                        readable: false,
                        writable: true,
                        ..s.conns[end].interest
                    },
                    ..s.conns[end]
                };
                lemma_reregistered(b, s, end, c, true);
            }
        },
    }
    lemma_released(b, s.abandon_other_end(token), token);
}

proof fn lemma_read_finished_serves(
    b: Sockets,
    s: ProxyView,
    token: usize,
    messages: Seq<Seq<u8>>,
    exhausted_kernel: bool,
    then: AfterRead,
)
    requires
        b.serves(s),
        s.live(token),
        s.conns[token].end is Some,
        linked(s.conns, token),
        !(s.phase is Choosing),
        !(s.phase is Connecting),
    ensures
        b.serves(s.read_finished(token, messages, exhausted_kernel, then)),
{
    let delivered = s.deliver(token, messages);
    lemma_deliver_serves(b, s, token, messages);
    match then {
        AfterRead::Terminate => {
            lemma_terminate_serves(b, delivered, token);
            let t = delivered.terminate_connection(token);
            lemma_flush_serves(b, t, t.readable.len() as usize);
        },
        AfterRead::Flush { left } => {
            if exhausted_kernel {
                let c = ConnectionView {
                    interest: EventSet { readable: true, ..delivered.conns[token].interest },
                    ..delivered.conns[token]
                };
                lemma_reregistered(b, delivered, token, c, true);
                lemma_flush_serves(b, delivered.put(token, c).emit(reregister(token, c)), left);
            } else {
                let t = ProxyView { readable: delivered.readable.push(token), ..delivered };
                lemma_unseen(b, delivered, t);
                lemma_flush_serves(b, t, left);
            }
        },
    }
}

proof fn lemma_after_write_serves(b: Sockets, s: ProxyView, token: usize, events: EventSet)
    requires
        b.serves(s),
        s.table_inv(),
        !(s.phase is Choosing),
        !(s.phase is Connecting),
    ensures
        b.serves(s.after_write(token, events)),
{
    if s.live(token) {
        assert(linked(s.conns, token));
    }
    if events.hup && events.readable {
        if s.live(token) && s.conns[token].end is Some && s.room(token) == 0 {
            lemma_read_finished_serves(b, s, token, seq![], false, AfterRead::Terminate);
        } else {
            lemma_unseen(b, s, s.after_write(token, events));
        }
    } else if events.readable {
        if s.live(token) {
            let c = ConnectionView {
                interest: EventSet { readable: false, ..s.conns[token].interest },
                ..s.conns[token]
            };
            let waiting = ProxyView { readable: s.readable.push(token), ..s };
            lemma_unseen(b, s, waiting);
            lemma_reregistered(b, waiting, token, c, true);
            let t = s.push_to_readable_tokens(token);
            lemma_flush_serves(b, t, t.readable.len() as usize);
        } else {
            lemma_unseen(b, s, s.after_write(token, events));
        }
    } else {
        lemma_flush_serves(b, s, s.readable.len() as usize);
    }
}

proof fn lemma_send_queue_flushed_serves(
    b: Sockets,
    s: ProxyView,
    token: usize,
    status: WriteStatus,
)
    requires
        b.serves(s),
        s.live(token),
        linked(s.conns, token),
        !(s.phase is Choosing),
        !(s.phase is Connecting),
    ensures
        b.serves(s.send_queue_flushed(token, status)),
{
    let flushed = match status {
        WriteStatus::Finished { flushed_everything } => if flushed_everything {
            let c = ConnectionView {
                interest: EventSet { writable: false, ..s.conns[token].interest },
                ..s.conns[token]
            };
            lemma_reregistered(b, s, token, c, true);
            s.put(token, c).emit(reregister(token, c))
        } else {
            s
        },
        _ => {
            let t = s.put(token, ConnectionView { queue: seq![], ..s.conns[token] });
            assert(t.conns.dom() =~= s.conns.dom());
            lemma_unseen(b, s, t);
            t
        },
    };
    if flushed.conns[token].queue.len() == 0 && flushed.conns[token].end is None {
        lemma_terminate_serves(b, flushed, token);
    }
}

proof fn lemma_handle_write_event_serves(b: Sockets, s: ProxyView, token: usize, events: EventSet)
    requires
        b.serves(s),
        s.table_inv(),
        s.phase is Idle,
    ensures
        b.serves(s.handle_write_event(token, events)),
{
    if !s.live(token) {
        lemma_unseen(b, s, s.handle_write_event(token, events));
    } else {
        let connected = s.mark_connected(token);
        lemma_mark_connected(s, token);
        if !s.conns[token].connected {
            lemma_emit(b, s, Effect::Connected { token });
        }
        assert(b.serves(connected));
        if connected.conns[token].queue.len() == 0 {
            let status = WriteStatus::Finished { flushed_everything: true };
            lemma_send_queue_flushed(connected, token, status);
            lemma_send_queue_flushed_serves(b, connected, token, status);
            lemma_after_write_serves(
                b,
                connected.send_queue_flushed(token, status),
                token,
                events,
            );
        } else {
            lemma_unseen(b, connected, connected.enter(PhaseView::Writing { token, events }));
        }
    }
}

proof fn lemma_try_next_server_serves(b: Sockets, s: ProxyView, token: usize)
    requires
        b.serves(s),
        s.live(token),
        s.phase is Idle,
    ensures
        b.serves(s.try_next_server(token)),
{
    let cleared = if s.conns[token].timeout {
        let t = s.put(token, ConnectionView { timeout: false, ..s.conns[token] }).emit(
            Effect::ClearTimeout { token },
        );
        lemma_emit(b, s, Effect::ClearTimeout { token });
        assert(t.conns.dom() =~= s.conns.dom());
        t
    } else {
        s
    };
    assert(b.serves(cleared));
    lemma_emit(b, cleared, Effect::Deregister { token });
}

proof fn lemma_accept_one_serves(b: Sockets, s: ProxyView)
    requires
        b.serves(s),
        s.table_inv(),
        s.phase is Connecting,
    ensures
        b.serves(s.accept_one()),
{
    if s.free.len() == 0 {
        lemma_unseen(b, s, s.accept_one());
    } else if s.free.len() == 1 {
        let client = s.free[0];
        assert(s.free.contains(client));
        assert(!s.live(client));
        let fresh = ConnectionView::fresh(client, true).interest;
        let s1 = s.emit(Effect::Attach { token: client, socket: Socket::Accepted });
        let s2 = s1.emit(Effect::Register { token: client, interest: fresh });
        lemma_emit(b, s, Effect::Attach { token: client, socket: Socket::Accepted });
        lemma_emit(b, s1, Effect::Register { token: client, interest: fresh });
        lemma_emit(b, s2, Effect::Close { token: client });
        let p = b.perform_all(s.effects);
        let q = b.perform_all(s.accept_one().effects);
        assert(q.open =~= p.open);
        assert(q.agree(s.accept_one()));
    } else {
        lemma_tunnel_serves(b, s);
    }
}

/// Both ends of a tunnel get a socket, and the backend end a timeout.
proof fn lemma_tunnel_serves(b: Sockets, s: ProxyView)
    requires
        b.serves(s),
        s.table_inv(),
        s.free.len() > 1,
    ensures
        b.serves(s.accept_one()),
{
    let t = s.accept_one();
    let client = s.free[0];
    let backend = s.free[1];
    assert(s.free.contains(client) && s.free.contains(backend) && client != backend);
    assert(!s.live(client) && !s.live(backend));
    let fresh = ConnectionView::fresh(client, true).interest;
    let s1 = s.emit(Effect::Attach { token: client, socket: Socket::Accepted });
    let s2 = s1.emit(Effect::Register { token: client, interest: fresh });
    let s3 = s2.emit(Effect::Attach { token: backend, socket: Socket::Opened });
    let s4 = s3.emit(Effect::Register { token: backend, interest: fresh });
    let s5 = s4.emit(reregister(client, t.conns[client]));
    let s6 = s5.emit(reregister(backend, t.conns[backend]));
    let s7 = s6.emit(Effect::StartTimeout { token: backend, ms: CONNECT_TIMEOUT_MS });
    lemma_emit(b, s, Effect::Attach { token: client, socket: Socket::Accepted });
    lemma_emit(b, s1, Effect::Register { token: client, interest: fresh });
    lemma_emit(b, s2, Effect::Attach { token: backend, socket: Socket::Opened });
    lemma_emit(b, s3, Effect::Register { token: backend, interest: fresh });
    lemma_emit(b, s4, reregister(client, t.conns[client]));
    lemma_emit(b, s5, reregister(backend, t.conns[backend]));
    lemma_emit(b, s6, Effect::StartTimeout { token: backend, ms: CONNECT_TIMEOUT_MS });
    assert(t.effects =~= s7.effects);
    assert(t.conns.dom() =~= s.conns.dom().insert(client).insert(backend));
    assert(b.perform_all(t.effects).agree(t));
}

proof fn lemma_connected_serves(b: Sockets, s: ProxyView, opened: bool)
    requires
        b.serves(s),
        s.inv(),
        s.phase is Connecting,
    ensures
        b.serves(s.connected(opened)),
{
    if !opened {
        lemma_unseen(b, s, s.connected(opened));
    } else {
        match s.phase->Connecting_purpose {
            Purpose::NewClient => lemma_accept_one_serves(b, s),
            Purpose::Retry { token } => {
                let c = ConnectionView { timeout: true, ..s.conns[token] };
                let s1 = s.emit(Effect::Attach { token, socket: Socket::Opened });
                let s2 = s1.emit(Effect::Register { token, interest: c.interest });
                lemma_emit(b, s, Effect::Attach { token, socket: Socket::Opened });
                lemma_emit(b, s1, Effect::Register { token, interest: c.interest });
                lemma_emit(b, s2, Effect::StartTimeout { token, ms: CONNECT_TIMEOUT_MS });
                let t = s.connected(opened);
                assert(t.conns.dom() =~= s.conns.dom());
                assert(b.perform_all(t.effects).open =~= t.conns.dom());
            },
        }
    }
}

proof fn lemma_ready_serves(b: Sockets, s: ProxyView, token: usize, events: EventSet)
    requires
        b.serves(s),
        s.inv(),
        s.phase is Idle,
    ensures
        b.serves(s.ready(token, events)),
{
    if token == LISTEN_TOKEN {
        lemma_unseen(b, s, s.ready(token, events));
    } else if events.error {
        if !s.live(token) {
            lemma_unseen(b, s, s.ready(token, events));
        } else if !s.conns[token].connected {
            lemma_try_next_server_serves(b, s, token);
        } else {
            assert(linked(s.conns, token));
            lemma_terminate_serves(b, s, token);
        }
    } else if events.writable {
        lemma_handle_write_event_serves(b, s, token, events);
    } else {
        lemma_after_write_serves(b, s, token, events);
    }
}

proof fn lemma_wrote_serves(b: Sockets, s: ProxyView, written: WriteOutcome)
    requires
        b.serves(s),
        s.inv(),
        s.phase is Writing,
    ensures
        b.serves(s.wrote(written)),
{
    let token = s.phase->Writing_token;
    let events = s.phase->Writing_events;
    let status = s.conns[token].write_status(written);
    let w = s.put(token, s.conns[token].write_one_buf(written));
    assert(linked(s.conns, token));
    assert(w.conns.dom() =~= s.conns.dom());
    lemma_unseen(b, s, w);
    if !(status is More) {
        lemma_written(s, token, written);
        lemma_send_queue_flushed_serves(b, w, token, status);
        lemma_after_write_serves(b, w.send_queue_flushed(token, status), token, events);
    }
}

proof fn lemma_read_serves(b: Sockets, s: ProxyView, read: ReadOutcomeView)
    requires
        b.serves(s),
        s.inv(),
        s.phase is Reading,
    ensures
        b.serves(s.read(read)),
{
    let token = s.phase->Reading_token;
    assert(linked(s.conns, token));
    match s.phase->reading.status(read) {
        ReadStatus::Finished { exhausted_kernel } => {
            lemma_read_finished_serves(
                b,
                s,
                token,
                s.phase->reading.read(read).messages,
                exhausted_kernel,
                s.phase->then,
            );
        },
        _ => lemma_unseen(b, s, s.read(read)),
    }
}

/// Before the first step there is no socket, and none is needed.
pub proof fn law_new_proxy_needs_no_socket(b: Sockets)
    requires
        b == Sockets::none(),
    ensures
        b.serves(ProxyView::initial()),
{
}

/// The proxy and the event loop agree on the sockets after every step: each operation that is
/// asked for makes sense when its turn comes, no socket is lost or kept for a connection that is
/// gone, a socket that is registered is registered for the interest of its connection, and there
/// is never more than one known timeout for a connection.
pub proof fn law_sockets_follow_connections(b: Sockets, s: ProxyView, input: Input)
    requires
        b.serves(s),
        s.inv(),
        s.expects(input),
    ensures
        b.serves(s.next(input)),
{
    match input {
        Input::Ready { token, events } => lemma_ready_serves(b, s, token, events),
        Input::Timeout { token } => {
            if s.live(token) && !s.conns[token].connected {
                lemma_try_next_server_serves(b, s, token);
            }
        },
        Input::Connected { opened } => lemma_connected_serves(b, s, opened),
        Input::Wrote { written } => lemma_wrote_serves(b, s, written),
        Input::Read { read } => lemma_read_serves(b, s, read),
        _ => {},
    }
}

/// Once the operations that were due are carried out, none is due and the sockets are those that
/// the connections need.
pub proof fn law_operations_are_carried_out_once(b: Sockets, s: ProxyView)
    requires
        b.serves(s),
    ensures
        b.perform_all(s.effects).serves(ProxyView { effects: seq![], ..s }),
{
}

} // verus!
