//! What the steps of the proxy promise together.
use vstd::prelude::*;

use crate::addr::SocketAddr;
use crate::connection::{
    ConnectionView, Effect, ReadOutcomeView, ReadStatus, ReadingView, Socket, WriteError,
    WriteOutcome, WriteStatus, MAX_BUFFERS_PER_CONNECTION,
};
use crate::consistency::{
    all_filled, lemma_connected, lemma_initial, lemma_mark_connected, lemma_read, lemma_ready,
    lemma_send_queue_flushed, lemma_try_next_server, lemma_written, lemma_wrote, linked,
};
use crate::events::EventSet;
use crate::model::{
    AcceptOutcome, AfterRead, PhaseView, ProxyView, Purpose, CONNECT_TIMEOUT_MS, FIRST_TOKEN,
    LISTEN_TOKEN, MAX_CONNECTIONS,
};

verus! {

/// What takes the proxy from one state to the next.
pub enum Input {
    Ready { token: usize, events: EventSet },
    Timeout { token: usize },
    Accepted { accepted: AcceptOutcome },
    Chosen { backend: Option<SocketAddr> },
    Connected { opened: bool },
    Wrote { written: WriteOutcome },
    Read { read: ReadOutcomeView },
}

impl ProxyView {
    /// Whether the proxy waits for this input.
    pub open spec fn expects(self, input: Input) -> bool {
        match input {
            Input::Ready { .. } => self.phase is Idle,
            Input::Timeout { .. } => self.phase is Idle,
            Input::Accepted { .. } => self.phase is Accepting,
            Input::Chosen { .. } => self.phase is Choosing,
            Input::Connected { .. } => self.phase is Connecting,
            Input::Wrote { .. } => self.phase is Writing,
            Input::Read { .. } => self.phase is Reading,
        }
    }

    /// The state after an input.
    pub open spec fn next(self, input: Input) -> ProxyView {
        match input {
            Input::Ready { token, events } => self.ready(token, events),
            Input::Timeout { token } => self.timeout(token),
            Input::Accepted { accepted } => self.accepted(accepted),
            Input::Chosen { backend } => self.chosen(backend),
            Input::Connected { opened } => self.connected(opened),
            Input::Wrote { written } => self.wrote(written),
            Input::Read { read } => self.read(read),
        }
    }
}

/// A new proxy is consistent.
pub proof fn law_new_proxy_is_consistent()
    ensures
        ProxyView::initial().inv(),
{
    lemma_initial(ProxyView::initial());
}

/// Every step of a consistent proxy leads to a consistent proxy.
pub proof fn law_steps_keep_consistency(s: ProxyView, input: Input)
    requires
        s.inv(),
        s.expects(input),
    ensures
        s.next(input).inv(),
{
    match input {
        Input::Ready { token, events } => lemma_ready(s, token, events),
        Input::Timeout { token } => {
            if s.live(token) && !s.conns[token].connected {
                lemma_try_next_server(s, token);
            }
        },
        Input::Accepted { .. } => {},
        Input::Chosen { .. } => {},
        Input::Connected { opened } => lemma_connected(s, opened),
        Input::Wrote { written } => lemma_wrote(s, written),
        Input::Read { read } => lemma_read(s, read),
    }
}

/// Two ends of a tunnel know each other.
pub proof fn law_tunnels_have_two_ends(s: ProxyView, token: usize, end: usize)
    requires
        s.inv(),
        s.live(token),
        s.conns[token].end == Some(end),
    ensures
        end != token,
        s.live(end),
        s.conns[end].end == Some(token),
{
    assert(linked(s.conns, token));
}

/// No tunnel has more than two ends: two connections with the same other end are one.
pub proof fn law_tunnels_are_separate(s: ProxyView, first: usize, second: usize)
    requires
        s.inv(),
        s.live(first),
        s.live(second),
        s.conns[first].end is Some,
        s.conns[first].end == s.conns[second].end,
    ensures
        first == second,
{
    assert(linked(s.conns, first));
    assert(linked(s.conns, second));
}

/// No send queue holds more than its share of buffers.
pub proof fn law_send_queues_are_bounded(s: ProxyView, token: usize)
    requires
        s.inv(),
        s.live(token),
    ensures
        s.conns[token].queue.len() <= MAX_BUFFERS_PER_CONNECTION,
{
    assert(s.conns[token].inv(token));
}

/// A connection is always interested in errors and in the hang up.
pub proof fn law_hang_ups_are_always_of_interest(s: ProxyView, token: usize)
    requires
        s.inv(),
        s.live(token),
    ensures
        s.conns[token].interest.hup,
        s.conns[token].interest.error,
{
    assert(s.conns[token].inv(token));
}

/// A connection with something to send is interested in write events. This is the interest that
/// the connection records, and with which it registers. A registration holds for one event, and
/// a write that leaves something to send does not renew it: that the event loop notifies the
/// connection again is not said.
pub proof fn law_pending_bytes_keep_write_interest(s: ProxyView, token: usize)
    requires
        s.inv(),
        s.live(token),
        s.conns[token].queue.len() > 0,
    ensures
        s.conns[token].interest.writable,
{
    assert(s.conns[token].inv(token));
}

/// A connection is interested in read events only while it is linked to another end.
pub proof fn law_only_linked_connections_are_read(s: ProxyView, token: usize)
    requires
        s.inv(),
        s.live(token),
        s.conns[token].interest.readable,
    ensures
        s.conns[token].end is Some,
{
    assert(s.conns[token].inv(token));
}

/// A connection whose other end is gone stays only while it has something to send.
pub proof fn law_abandoned_connections_are_sending(s: ProxyView, token: usize)
    requires
        s.inv(),
        s.live(token),
        s.conns[token].end is None,
    ensures
        s.conns[token].queue.len() > 0,
{
    assert(s.conns[token].inv(token));
}

/// There are never more connections than the table was made for, and every token that is not
/// free belongs to one of them.
pub proof fn law_connections_are_bounded(s: ProxyView)
    requires
        s.inv(),
    ensures
        s.conns.dom().finite(),
        s.conns.dom().len() == MAX_CONNECTIONS - s.free.len(),
        forall|token: usize| #[trigger]
            s.live(token) ==> FIRST_TOKEN <= token < FIRST_TOKEN + MAX_CONNECTIONS,
{
}

/// A read never gathers more than the send queue of the other end can take.
pub proof fn law_reads_fit_the_other_end(s: ProxyView)
    requires
        s.inv(),
        s.phase is Reading,
    ensures
        s.phase->reading.messages.len() + s.phase->reading.left + s.conns[s.other_end(
            s.phase->Reading_token,
        )].queue.len() <= MAX_BUFFERS_PER_CONNECTION,
{
    let token = s.phase->Reading_token;
    assert(linked(s.conns, token));
    let end = s.other_end(token);
    assert(s.conns.contains_key(end) && s.conns[end].inv(end));
}

/// The connection that an input is about, if it is about one.
pub open spec fn subject(s: ProxyView, input: Input) -> Option<usize> {
    match input {
        Input::Ready { token, .. } => Some(token),
        Input::Timeout { token } => Some(token),
        _ => match s.phase {
            PhaseView::Choosing { purpose: Purpose::Retry { token } } => Some(token),
            PhaseView::Connecting { purpose: Purpose::Retry { token }, .. } => Some(token),
            PhaseView::Writing { token, .. } => Some(token),
            PhaseView::Reading { token, .. } => Some(token),
            _ => None,
        },
    }
}

/// Whether a connection is an end of the tunnel of `token`.
pub open spec fn in_tunnel(s: ProxyView, token: usize, other: usize) -> bool {
    other == token || (s.live(token) && s.conns[token].end == Some(other))
}

/// Whether `t` comes from `s` with nothing but the tunnel of `token` changed.
spec fn same_elsewhere(s: ProxyView, t: ProxyView, token: usize) -> bool {
    &&& forall|other: usize| #[trigger]
        s.conns.contains_key(other) && !in_tunnel(s, token, other) ==> t.conns.contains_key(other)
            && t.conns[other] == s.conns[other]
    &&& forall|other: usize| #[trigger] t.conns.contains_key(other) ==> s.conns.contains_key(other)
    &&& forall|other: usize| #[trigger]
        t.conns.contains_key(other) ==> t.conns[other].end is None || t.conns[other].end
            == s.conns[other].end
    &&& forall|other: usize| #[trigger]
        t.conns.contains_key(other) && s.conns[other].connected ==> t.conns[other].connected
}

/// The flush of the readable tokens only chooses the next token to read.
pub(crate) proof fn lemma_flush_only_chooses(s: ProxyView, left: usize)
    ensures
        s.flush_readable_tokens(left).conns == s.conns,
        s.flush_readable_tokens(left).free == s.free,
        s.flush_readable_tokens(left).effects == s.effects,
        match s.flush_readable_tokens(left).phase {
            PhaseView::Idle => true,
            PhaseView::Aborted { .. } => true,
            PhaseView::Reading { reading, .. } => reading.messages.len() == 0,
            _ => false,
        },
    decreases left,
{
    if left != 0 && s.readable.len() != 0 {
        let token = s.readable[0];
        lemma_flush_only_chooses(
            ProxyView { readable: s.readable.skip(1).push(token), ..s },
            (left - 1) as usize,
        );
    }
}

proof fn lemma_terminate_elsewhere(s: ProxyView, token: usize)
    requires
        s.live(token),
        linked(s.conns, token),
    ensures
        same_elsewhere(s, s.terminate_connection(token), token),
{
}

proof fn lemma_read_finished_elsewhere(
    s: ProxyView,
    token: usize,
    messages: Seq<Seq<u8>>,
    exhausted_kernel: bool,
    then: AfterRead,
)
    requires
        s.table_inv(),
        s.live(token),
        s.conns[token].end is Some,
    ensures
        same_elsewhere(s, s.read_finished(token, messages, exhausted_kernel, then), token),
{
    assert(linked(s.conns, token));
    let delivered = s.deliver(token, messages);
    match then {
        AfterRead::Terminate => {
            let t = delivered.terminate_connection(token);
            lemma_flush_only_chooses(t, t.readable.len() as usize);
        },
        AfterRead::Flush { left } => {
            if exhausted_kernel {
                let c = ConnectionView {
                    interest: EventSet { readable: true, ..delivered.conns[token].interest },
                    ..delivered.conns[token]
                };
                lemma_flush_only_chooses(
                    delivered.put(token, c).emit(crate::model::reregister(token, c)),
                    left,
                );
            } else {
                lemma_flush_only_chooses(
                    ProxyView { readable: delivered.readable.push(token), ..delivered },
                    left,
                );
            }
        },
    }
}

proof fn lemma_after_write_elsewhere(s: ProxyView, token: usize, events: EventSet)
    requires
        s.table_inv(),
    ensures
        same_elsewhere(s, s.after_write(token, events), token),
{
    if events.hup && events.readable {
        if s.live(token) && s.conns[token].end is Some && s.room(token) == 0 {
            lemma_read_finished_elsewhere(s, token, seq![], false, AfterRead::Terminate);
        }
    } else if events.readable {
        if s.live(token) {
            let t = s.push_to_readable_tokens(token);
            lemma_flush_only_chooses(t, t.readable.len() as usize);
        }
    } else {
        lemma_flush_only_chooses(s, s.readable.len() as usize);
    }
}

/// What follows a change of the tunnel of `token` that leaves the links as they were, or cuts
/// those of `token`.
proof fn lemma_elsewhere_twice(s: ProxyView, t: ProxyView, u: ProxyView, token: usize)
    requires
        same_elsewhere(s, t, token),
        same_elsewhere(t, u, token),
        t.live(token) ==> s.live(token) && t.conns[token].end == s.conns[token].end,
    ensures
        same_elsewhere(s, u, token),
{
}

/// What a step does to one connection.
proof fn lemma_step_elsewhere(s: ProxyView, input: Input, other: usize)
    requires
        s.inv(),
        s.expects(input),
    ensures
        s.live(other) && !(subject(s, input) is Some && in_tunnel(s, subject(s, input)->0, other))
            ==> s.next(input).live(other) && s.next(input).conns[other] == s.conns[other],
        s.next(input).live(other) && !s.live(other) ==> (input is Connected) && s.free.contains(
            other,
        ),
        s.next(input).live(other) && s.live(other) ==> s.next(input).conns[other].end is None
            || s.next(input).conns[other].end == s.conns[other].end,
        s.next(input).live(other) && s.live(other) && s.conns[other].connected ==> s.next(
            input,
        ).conns[other].connected,
{
    match input {
        Input::Ready { token, events } => {
            if token == LISTEN_TOKEN {
            } else if events.error {
                if s.live(token) && s.conns[token].connected {
                    lemma_terminate_elsewhere(s, token);
                }
            } else if events.writable {
                if s.live(token) {
                    let connected = s.mark_connected(token);
                    lemma_mark_connected(s, token);
                    assert(same_elsewhere(s, connected, token));
                    if connected.conns[token].queue.len() == 0 {
                        let status = WriteStatus::Finished { flushed_everything: true };
                        let flushed = connected.send_queue_flushed(token, status);
                        lemma_send_queue_flushed(connected, token, status);
                        assert(same_elsewhere(connected, flushed, token));
                        lemma_elsewhere_twice(s, connected, flushed, token);
                        lemma_after_write_elsewhere(flushed, token, events);
                        lemma_elsewhere_twice(
                            s,
                            flushed,
                            flushed.after_write(token, events),
                            token,
                        );
                    }
                }
            } else {
                lemma_after_write_elsewhere(s, token, events);
            }
        },
        Input::Wrote { written: outcome } => {
            let token = s.phase->Writing_token;
            let events = s.phase->Writing_events;
            let status = s.conns[token].write_status(outcome);
            let written = s.put(token, s.conns[token].write_one_buf(outcome));
            assert(same_elsewhere(s, written, token));
            if status is More {
            } else {
                let flushed = written.send_queue_flushed(token, status);
                lemma_written(s, token, outcome);
                assert(same_elsewhere(written, flushed, token));
                lemma_elsewhere_twice(s, written, flushed, token);
                lemma_after_write_elsewhere(flushed, token, events);
                lemma_elsewhere_twice(s, flushed, flushed.after_write(token, events), token);
            }
        },
        Input::Read { read: outcome } => {
            let token = s.phase->Reading_token;
            match s.phase->reading.status(outcome) {
                ReadStatus::Finished { exhausted_kernel } => {
                    lemma_read_finished_elsewhere(
                        s,
                        token,
                        s.phase->reading.read(outcome).messages,
                        exhausted_kernel,
                        s.phase->then,
                    );
                },
                _ => {},
            }
        },
        Input::Connected { opened } => {
            if s.free.len() > 1 {
                assert(s.free.contains(s.free[0]) && s.free.contains(s.free[1]));
                assert(s.live(other) ==> !s.free.contains(other));
            }
        },
        _ => {},
    }
}

/// A step is about one tunnel: the connections of the other tunnels stay as they are. Only a
/// connect creates connections, and only with free tokens. A connection may lose its other end,
/// and never gets another one.
pub proof fn law_tunnels_do_not_interfere(s: ProxyView, input: Input, other: usize)
    requires
        s.inv(),
        s.expects(input),
    ensures
        s.live(other) && !(subject(s, input) is Some && in_tunnel(s, subject(s, input)->0, other))
            ==> s.next(input).live(other) && s.next(input).conns[other] == s.conns[other],
        s.next(input).live(other) && !s.live(other) ==> (input is Connected) && s.free.contains(
            other,
        ),
        s.next(input).live(other) && s.live(other) ==> s.next(input).conns[other].end is None
            || s.next(input).conns[other].end == s.conns[other].end,
{
    lemma_step_elsewhere(s, input, other);
}

/// Of two linked ends at most one waits for its server to answer: the client end is connected from
/// the start.
pub proof fn law_one_end_is_connected(s: ProxyView, token: usize)
    requires
        s.inv(),
        s.live(token),
        s.conns[token].end is Some,
    ensures
        s.conns[token].connected || s.conns[s.other_end(token)].connected,
{
    assert(linked(s.conns, token));
}

/// A connection that is connected stays so as long as it is there.
pub proof fn law_connections_stay_connected(s: ProxyView, input: Input, token: usize)
    requires
        s.inv(),
        s.expects(input),
        s.live(token),
        s.conns[token].connected,
        s.next(input).live(token),
    ensures
        s.next(input).conns[token].connected,
{
    lemma_step_elsewhere(s, input, token);
}

/// Whether every timeout that the operations arm has the length of a connect timeout and is for a
/// connection that is not connected.
pub open spec fn arms_connect_timeouts(s: ProxyView, effects: Seq<Effect>) -> bool {
    forall|i: int|
        0 <= i < effects.len() ==> match #[trigger] effects[i] {
            Effect::StartTimeout { token, ms } => s.live(token) && !s.conns[token].connected && ms
                == CONNECT_TIMEOUT_MS,
            _ => true,
        }
}

/// The operations that a step adds to those that were due.
pub open spec fn new_effects(s: ProxyView, input: Input) -> Seq<Effect> {
    s.next(input).effects.skip(s.effects.len() as int)
}

/// Whether `t` has the operations of `s` and others that arm no timeout.
spec fn arms_nothing(s: ProxyView, t: ProxyView) -> bool {
    &&& s.effects.is_prefix_of(t.effects)
    &&& forall|i: int|
        s.effects.len() <= i < t.effects.len() ==> !((#[trigger] t.effects[i]) is StartTimeout)
}

proof fn lemma_arms_nothing_twice(s: ProxyView, t: ProxyView, u: ProxyView)
    requires
        arms_nothing(s, t),
        arms_nothing(t, u),
    ensures
        arms_nothing(s, u),
{
    assert(s.effects =~= u.effects.take(s.effects.len() as int)) by {
        assert forall|i: int| 0 <= i < s.effects.len() implies s.effects[i] == u.effects[i] by {
            assert(s.effects[i] == t.effects[i] && t.effects[i] == u.effects[i]);
        }
    }
    assert forall|i: int| s.effects.len() <= i < u.effects.len() implies !((
    #[trigger] u.effects[i]) is StartTimeout) by {
        if i < t.effects.len() {
            assert(u.effects[i] == t.effects[i]);
        }
    }
}

proof fn lemma_read_finished_arms_nothing(
    s: ProxyView,
    token: usize,
    messages: Seq<Seq<u8>>,
    exhausted_kernel: bool,
    then: AfterRead,
)
    ensures
        arms_nothing(s, s.read_finished(token, messages, exhausted_kernel, then)),
{
    let delivered = s.deliver(token, messages);
    assert(arms_nothing(s, delivered));
    match then {
        AfterRead::Terminate => {
            let t = delivered.terminate_connection(token);
            assert(arms_nothing(delivered, t));
            lemma_flush_only_chooses(t, t.readable.len() as usize);
        },
        AfterRead::Flush { left } => {
            if exhausted_kernel {
                let c = ConnectionView {
                    interest: EventSet { readable: true, ..delivered.conns[token].interest },
                    ..delivered.conns[token]
                };
                lemma_flush_only_chooses(
                    delivered.put(token, c).emit(crate::model::reregister(token, c)),
                    left,
                );
            } else {
                lemma_flush_only_chooses(
                    ProxyView { readable: delivered.readable.push(token), ..delivered },
                    left,
                );
            }
        },
    }
}

proof fn lemma_after_write_arms_nothing(s: ProxyView, token: usize, events: EventSet)
    ensures
        arms_nothing(s, s.after_write(token, events)),
{
    if events.hup && events.readable {
        if s.live(token) && s.conns[token].end is Some && s.room(token) == 0 {
            lemma_read_finished_arms_nothing(s, token, seq![], false, AfterRead::Terminate);
        }
    } else if events.readable {
        if s.live(token) {
            let t = s.push_to_readable_tokens(token);
            lemma_flush_only_chooses(t, t.readable.len() as usize);
        }
    } else {
        lemma_flush_only_chooses(s, s.readable.len() as usize);
    }
}

proof fn lemma_send_queue_flushed_arms_nothing(s: ProxyView, token: usize, status: WriteStatus)
    ensures
        arms_nothing(s, s.send_queue_flushed(token, status)),
{
}

proof fn lemma_terminate_arms_nothing(s: ProxyView, token: usize)
    ensures
        arms_nothing(s, s.terminate_connection(token)),
{
    let abandoned = s.abandon_other_end(token);
    assert(arms_nothing(s, abandoned));
    assert(arms_nothing(abandoned, s.terminate_connection(token)));
    lemma_arms_nothing_twice(s, abandoned, s.terminate_connection(token));
}

proof fn lemma_try_next_server_arms_nothing(s: ProxyView, token: usize)
    ensures
        arms_nothing(s, s.try_next_server(token)),
{
}

proof fn lemma_handle_write_event_arms_nothing(s: ProxyView, token: usize, events: EventSet)
    ensures
        arms_nothing(s, s.handle_write_event(token, events)),
{
    if s.live(token) {
        let connected = s.mark_connected(token);
        assert(arms_nothing(s, connected));
        if connected.conns[token].queue.len() == 0 {
            let status = WriteStatus::Finished { flushed_everything: true };
            let flushed = connected.send_queue_flushed(token, status);
            lemma_send_queue_flushed_arms_nothing(connected, token, status);
            lemma_arms_nothing_twice(s, connected, flushed);
            lemma_after_write_arms_nothing(flushed, token, events);
            lemma_arms_nothing_twice(s, flushed, flushed.after_write(token, events));
        }
    }
}

proof fn lemma_wrote_arms_nothing(s: ProxyView, written: WriteOutcome)
    requires
        s.phase is Writing,
    ensures
        arms_nothing(s, s.wrote(written)),
{
    let token = s.phase->Writing_token;
    let events = s.phase->Writing_events;
    let status = s.conns[token].write_status(written);
    let w = s.put(token, s.conns[token].write_one_buf(written));
    if !(status is More) {
        let flushed = w.send_queue_flushed(token, status);
        lemma_send_queue_flushed_arms_nothing(w, token, status);
        lemma_after_write_arms_nothing(flushed, token, events);
        lemma_arms_nothing_twice(w, flushed, flushed.after_write(token, events));
    }
}

/// Only a connect arms a timeout.
proof fn lemma_arms_nothing(s: ProxyView, input: Input)
    requires
        s.expects(input),
        !(input is Connected),
    ensures
        arms_nothing(s, s.next(input)),
{
    match input {
        Input::Ready { token, events } => {
            lemma_terminate_arms_nothing(s, token);
            lemma_try_next_server_arms_nothing(s, token);
            lemma_handle_write_event_arms_nothing(s, token, events);
            lemma_after_write_arms_nothing(s, token, events);
        },
        Input::Timeout { token } => lemma_try_next_server_arms_nothing(s, token),
        Input::Wrote { written } => lemma_wrote_arms_nothing(s, written),
        Input::Read { read } => {
            match s.phase->reading.status(read) {
                ReadStatus::Finished { exhausted_kernel } => {
                    lemma_read_finished_arms_nothing(
                        s,
                        s.phase->Reading_token,
                        s.phase->reading.read(read).messages,
                        exhausted_kernel,
                        s.phase->then,
                    );
                },
                _ => {},
            }
        },
        _ => {},
    }
}

/// Timeouts are only used for connections to backend servers: a step arms one only for a
/// connection whose server has not answered.
pub proof fn law_timeouts_are_connect_timeouts(s: ProxyView, input: Input)
    requires
        s.inv(),
        s.expects(input),
    ensures
        s.effects.is_prefix_of(s.next(input).effects),
        arms_connect_timeouts(s.next(input), new_effects(s, input)),
{
    if !(input is Connected) {
        lemma_arms_nothing(s, input);
    }
}

/// A client that was accepted and whose backend server could be reached gets a tunnel: two new
/// connections that are each other's end. The client end is interested in readable events, the
/// backend end in writable events too, and its connect timeout is armed. Accepting goes on.
pub proof fn law_clients_get_a_tunnel(s: ProxyView)
    requires
        s.inv(),
        s.phase is Connecting,
        s.phase->Connecting_purpose is NewClient,
        s.free.len() > 1,
    ensures
        ({
            let t = s.connected(true);
            let client = s.free[0];
            let backend = s.free[1];
            &&& t.phase is Accepting
            &&& !s.live(client) && !s.live(backend) && client != backend
            &&& t.conns.dom() == s.conns.dom().insert(client).insert(backend)
            &&& t.conns[client].end == Some(backend)
            &&& t.conns[backend].end == Some(client)
            &&& t.conns[client].connected && !t.conns[backend].connected
            &&& t.conns[client].interest.readable && !t.conns[client].interest.writable
            &&& t.conns[backend].interest.readable && t.conns[backend].interest.writable
            &&& t.conns[client].queue.len() == 0 && t.conns[backend].queue.len() == 0
            &&& t.conns[backend].timeout && t.effects.last() == (Effect::StartTimeout {
                token: backend,
                ms: CONNECT_TIMEOUT_MS,
            })
        }),
{
    assert(s.free.contains(s.free[0]) && s.free.contains(s.free[1]));
    assert(s.connected(true).conns.dom() =~= s.conns.dom().insert(s.free[0]).insert(s.free[1]));
}

/// A client for which there are not two free tokens is dropped, accepting stops, and the other
/// connections stay as they are.
pub proof fn law_full_tables_refuse_clients(s: ProxyView)
    requires
        s.inv(),
        s.phase is Connecting,
        s.phase->Connecting_purpose is NewClient,
        s.free.len() <= 1,
    ensures
        s.connected(true).phase is Idle,
        s.connected(true).conns == s.conns,
        s.connected(true).free == s.free,
{
}

/// A connection that goes does not take unsent bytes of its other end with it: the other end
/// stays, stops reading and waits to write. With nothing to send it goes as well.
pub proof fn law_pending_bytes_outlive_the_other_end(s: ProxyView, token: usize)
    requires
        s.inv(),
        s.live(token),
        s.conns[token].end is Some,
    ensures
        ({
            let end = s.other_end(token);
            let t = s.terminate_connection(token);
            &&& !t.live(token)
            &&& t.live(end) <==> s.conns[end].queue.len() > 0
            &&& t.live(end) ==> {
                &&& t.conns[end].queue == s.conns[end].queue
                &&& t.conns[end].end is None
                &&& t.conns[end].interest.writable
                &&& !t.conns[end].interest.readable
            }
        }),
{
    assert(linked(s.conns, token));
}

/// Whether an input ends a connection that has lost its other end: the last byte is sent, the
/// write fails, or an error is notified for a connection that is connected.
pub open spec fn ends_lone_connection(s: ProxyView, input: Input, token: usize) -> bool {
    match input {
        Input::Ready { token: subject, events } => subject == token && events.error
            && s.conns[token].connected,
        Input::Wrote { written } => s.phase->Writing_token == token && (written is Failed
            || s.conns[token].write_one_buf(written).queue.len() == 0),
        _ => false,
    }
}

/// A connection that lost its other end goes as soon as its last byte is sent, and no sooner
/// unless a write fails or an error is notified for it.
pub proof fn law_lone_connections_go_once_flushed(s: ProxyView, input: Input, token: usize)
    requires
        s.inv(),
        s.expects(input),
        s.live(token),
        s.conns[token].end is None,
    ensures
        s.next(input).live(token) <==> !ends_lone_connection(s, input, token),
{
    assert(s.conns[token].inv(token));
    assert(FIRST_TOKEN <= token);
    if subject(s, input) == Some(token) {
        match input {
            Input::Ready { events, .. } => {
                if !events.error && !events.writable {
                    lemma_lone_after_write(s, token, events);
                }
            },
            Input::Wrote { written } => {
                let status = s.conns[token].write_status(written);
                let w = s.put(token, s.conns[token].write_one_buf(written));
                if !(status is More) {
                    lemma_lone_after_write(
                        w.send_queue_flushed(token, status),
                        token,
                        s.phase->Writing_events,
                    );
                }
            },
            _ => {},
        }
    } else {
        lemma_step_elsewhere(s, input, token);
        if subject(s, input) is Some && s.live(subject(s, input)->0) {
            assert(linked(s.conns, subject(s, input)->0));
        }
    }
}

/// What follows a write neither ends nor brings back a connection without another end.
proof fn lemma_lone_after_write(s: ProxyView, token: usize, events: EventSet)
    requires
        s.live(token) ==> s.conns[token].end is None,
    ensures
        s.after_write(token, events).live(token) == s.live(token),
{
    if events.hup && events.readable {
    } else if events.readable {
        if s.live(token) {
            let t = s.push_to_readable_tokens(token);
            lemma_flush_only_chooses(t, t.readable.len() as usize);
        }
    } else {
        lemma_flush_only_chooses(s, s.readable.len() as usize);
    }
}

/// A server that does not answer in time is replaced by the next one, and the tunnel stays: the
/// connection keeps its other end, its interest and what it has to send, and the timeout of the
/// first server is cancelled before the timeout of the next one is armed.
pub proof fn law_silent_servers_are_replaced(s: ProxyView, token: usize, addr: SocketAddr)
    requires
        s.inv(),
        s.phase is Idle,
        s.live(token),
        !s.conns[token].connected,
        s.conns[token].timeout,
    ensures
        s.timeout(token).chosen(Some(addr)).phase == (PhaseView::Connecting {
            purpose: Purpose::Retry { token },
            addr,
        }),
        s.timeout(token).chosen(Some(addr)).connected(true) == (ProxyView {
            effects: s.effects + seq![
                Effect::ClearTimeout { token },
                Effect::Deregister { token },
                Effect::Attach { token, socket: Socket::Opened },
                Effect::Register { token, interest: s.conns[token].interest },
                Effect::StartTimeout { token, ms: CONNECT_TIMEOUT_MS },
            ],
            ..s
        }),
{
    let t = s.timeout(token).chosen(Some(addr)).connected(true);
    assert(t.conns =~= s.conns);
    assert(t.effects =~= s.effects + seq![
        Effect::ClearTimeout { token },
        Effect::Deregister { token },
        Effect::Attach { token, socket: Socket::Opened },
        Effect::Register { token, interest: s.conns[token].interest },
        Effect::StartTimeout { token, ms: CONNECT_TIMEOUT_MS },
    ]);
}

/// A server that answered is never replaced: a timeout that fires later changes nothing.
pub proof fn law_late_timeouts_change_nothing(s: ProxyView, token: usize)
    requires
        s.phase is Idle,
        !s.live(token) || s.conns[token].connected,
    ensures
        s.timeout(token) == s,
{
}

/// An error on a connection whose server has not answered is dealt with as a timeout is.
pub proof fn law_connect_errors_are_timeouts(s: ProxyView, token: usize, events: EventSet)
    requires
        s.phase is Idle,
        s.live(token),
        token != LISTEN_TOKEN,
        events.error,
        !s.conns[token].connected,
    ensures
        s.ready(token, events) == s.timeout(token),
{
}

/// A write is over with everything sent exactly where the send queue is then empty and no write
/// failed, it goes on exactly where a whole buffer went out and others wait, and it fails exactly
/// where there was something to write and the socket reported an error.
pub proof fn law_write_status_tells_the_queue(c: ConnectionView, written: WriteOutcome)
    ensures
        c.write_status(written) == (WriteStatus::Finished { flushed_everything: true })
            <==> c.write_one_buf(written).queue.len() == 0 && !(c.queue.len() > 0
            && written is Failed),
        c.write_status(written) is More <==> c.queue.len() > 1 && c.wrote_one_buf(written) == Ok::<
            bool,
            WriteError,
        >(true),
        c.write_status(written) is More ==> c.write_one_buf(written).queue == c.queue.drop_first(),
        c.write_status(written) is Failed <==> c.queue.len() > 0 && written is Failed,
{
}

/// The read after several attempts that each delivered bytes.
pub open spec fn read_chunks(reading: ReadingView, chunks: Seq<Seq<u8>>) -> ReadingView
    decreases chunks.len(),
{
    if chunks.len() == 0 {
        reading
    } else {
        read_chunks(reading, chunks.drop_last()).read(ReadOutcomeView::Data(chunks.last()))
    }
}

/// A read delivers its chunks in the order in which they came, and is over after as many of them
/// as it was allowed.
pub proof fn law_reads_keep_chunks_in_order(nb_buffers: nat, chunks: Seq<Seq<u8>>)
    requires
        all_filled(chunks),
        chunks.len() <= nb_buffers,
    ensures
        read_chunks(ReadingView::begin(nb_buffers), chunks) == (ReadingView {
            left: (nb_buffers - chunks.len()) as nat,
            messages: chunks,
        }),
        chunks.len() > 0 ==> (read_chunks(
            ReadingView::begin(nb_buffers),
            chunks.drop_last(),
        ).status(ReadOutcomeView::Data(chunks.last())) is More <==> chunks.len() < nb_buffers),
    decreases chunks.len(),
{
    if chunks.len() > 0 {
        let before = chunks.drop_last();
        assert(all_filled(before)) by {
            assert forall|i: int|
                0 <= i < before.len() implies (#[trigger] before[i]).len() > 0 by {
                assert(before[i] == chunks[i]);
            }
        }
        law_reads_keep_chunks_in_order(nb_buffers, before);
        assert(before.push(chunks.last()) =~= chunks);
        assert(chunks[chunks.len() - 1].len() > 0);
    }
}

} // verus!
