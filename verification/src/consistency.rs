//! What holds of the proxy in every state, and why every step keeps it.
use vstd::prelude::*;

use crate::connection::{
    ConnectionView, ReadOutcomeView, ReadStatus, WriteOutcome, WriteStatus,
    MAX_BUFFERS_PER_CONNECTION,
};
use crate::events::EventSet;
use crate::model::{
    AfterRead, PhaseView, ProxyView, Purpose, FIRST_TOKEN, LISTEN_TOKEN, MAX_CONNECTIONS,
};

verus! {

/// Whether no buffer is empty.
pub open spec fn all_filled(buffers: Seq<Seq<u8>>) -> bool {
    forall|i: int| 0 <= i < buffers.len() ==> (#[trigger] buffers[i]).len() > 0
}

impl ConnectionView {
    /// What holds of the connection `token` whatever the other connections are, even while its
    /// send queue is being flushed.
    pub open spec fn sound(self, token: usize) -> bool {
        &&& self.token == token
        // errors and the hang up are always of interest
        &&& self.interest.error
        &&& self.interest.hup
        // the send queue is bounded and holds no empty buffer
        &&& self.queue.len() <= MAX_BUFFERS_PER_CONNECTION
        &&& all_filled(self.queue)
        // what waits to be sent is not forgotten
        &&& self.queue.len() > 0 ==> self.interest.writable
        // nothing is read that could not be passed on
        &&& self.interest.readable ==> self.end is Some
    }

    /// What holds of the connection `token` between two steps.
    pub open spec fn inv(self, token: usize) -> bool {
        &&& self.sound(token)
        // an end that is alone still has something to send
        &&& self.end is None ==> self.queue.len() > 0
    }
}

/// Whether the connection `token` and its other end, if it has one, know each other. At most one of
/// the two, the backend end, still waits for its server to answer.
pub open spec fn linked(conns: Map<usize, ConnectionView>, token: usize) -> bool {
    match conns[token].end {
        None => true,
        Some(end) => {
            &&& end != token
            &&& conns.contains_key(end)
            &&& conns[end].end == Some(token)
            &&& conns[token].connected || conns[end].connected
        },
    }
}

/// What holds of the table of connections.
pub open spec fn conns_inv(conns: Map<usize, ConnectionView>) -> bool {
    &&& forall|token: usize| #[trigger] conns.contains_key(token) ==> conns[token].inv(token)
    &&& forall|token: usize| #[trigger] conns.contains_key(token) ==> linked(conns, token)
}

/// Whether every token belongs to one connection or is free, and no other is used.
pub open spec fn tokens_inv(conns: Map<usize, ConnectionView>, free: Seq<usize>) -> bool {
    &&& free.no_duplicates()
    &&& conns.dom().finite()
    &&& conns.dom().len() + free.len() == MAX_CONNECTIONS
    &&& forall|token: usize|
        (#[trigger] conns.contains_key(token) || free.contains(token)) <==> FIRST_TOKEN <= token
            < FIRST_TOKEN + MAX_CONNECTIONS
    &&& forall|token: usize| #[trigger] conns.contains_key(token) ==> !free.contains(token)
}

impl ProxyView {
    /// What holds of the connections that the phase speaks of.
    pub open spec fn phase_inv(self) -> bool {
        match self.phase {
            PhaseView::Choosing { purpose: Purpose::Retry { token } } => self.live(token)
                && !self.conns[token].connected && !self.conns[token].timeout,
            PhaseView::Connecting { purpose: Purpose::Retry { token }, .. } => self.live(token)
                && !self.conns[token].connected && !self.conns[token].timeout,
            PhaseView::Writing { token, .. } => self.live(token) && self.conns[token].queue.len()
                > 0,
            PhaseView::Reading { token, reading, then } => {
                &&& self.live(token)
                &&& self.conns[token].end is Some
                &&& reading.left > 0
                // the read may fill the send queue of the other end, and no more
                &&& reading.left + reading.messages.len() == self.room(token)
                &&& all_filled(reading.messages)
                // the tokens that are still to be looked at wait
                &&& then is Flush ==> then->left <= self.readable.len()
            },
            _ => true,
        }
    }

    /// What holds of the connections and the tokens.
    pub open spec fn table_inv(self) -> bool {
        &&& conns_inv(self.conns)
        &&& tokens_inv(self.conns, self.free)
    }

    /// What holds of every state.
    pub open spec fn inv(self) -> bool {
        &&& self.table_inv()
        &&& self.phase_inv()
    }
}

pub(crate) proof fn lemma_initial(s: ProxyView)
    requires
        s == ProxyView::initial(),
    ensures
        s.inv(),
{
    assert forall|token: usize|
        (#[trigger] s.conns.contains_key(token) || s.free.contains(token)) <==> FIRST_TOKEN <= token
            < FIRST_TOKEN + MAX_CONNECTIONS by {
        if FIRST_TOKEN <= token < FIRST_TOKEN + MAX_CONNECTIONS {
            assert(s.free[token - FIRST_TOKEN] == token);
        }
    }
}

/// The tokens do not depend on what the connections are.
proof fn lemma_same_tokens(
    before: Map<usize, ConnectionView>,
    after: Map<usize, ConnectionView>,
    free: Seq<usize>,
)
    requires
        tokens_inv(before, free),
        after.dom() == before.dom(),
    ensures
        tokens_inv(after, free),
{
    assert forall|token: usize|
        (#[trigger] after.contains_key(token) || free.contains(token)) <==> FIRST_TOKEN <= token
            < FIRST_TOKEN + MAX_CONNECTIONS by {
        let known = before.contains_key(token);
        assert(known || free.contains(token) <==> FIRST_TOKEN <= token < FIRST_TOKEN
            + MAX_CONNECTIONS);
        assert(known <==> after.contains_key(token));
    }
    assert forall|token: usize| #[trigger] after.contains_key(token) implies !free.contains(
        token,
    ) by {
        assert(before.contains_key(token));
    }
}

/// A connection is changed in place, keeps its other end and stays connected if it is.
pub(crate) proof fn lemma_put(s: ProxyView, token: usize, c: ConnectionView)
    requires
        s.table_inv(),
        s.live(token),
        c.inv(token),
        c.end == s.conns[token].end,
        s.conns[token].connected ==> c.connected,
    ensures
        s.put(token, c).table_inv(),
        s.put(token, c).conns.dom() == s.conns.dom(),
{
    let t = s.put(token, c);
    assert(t.conns.dom() =~= s.conns.dom());
    assert forall|other: usize| #[trigger] t.conns.contains_key(other) implies t.conns[other].inv(
        other,
    ) by {
        assert(s.conns.contains_key(other));
    }
    assert forall|other: usize| #[trigger] t.conns.contains_key(other) implies linked(
        t.conns,
        other,
    ) by {
        assert(s.conns.contains_key(other));
        assert(linked(s.conns, other));
    }
    lemma_same_tokens(s.conns, t.conns, s.free);
}

pub(crate) proof fn lemma_push_to_readable_tokens(s: ProxyView, token: usize)
    requires
        s.table_inv(),
        s.live(token),
    ensures
        s.push_to_readable_tokens(token).table_inv(),
        s.push_to_readable_tokens(token).conns.dom() == s.conns.dom(),
{
    let c = ConnectionView {
        interest: EventSet { readable: false, ..s.conns[token].interest },
        ..s.conns[token]
    };
    assert(s.conns[token].inv(token));
    lemma_put(s, token, c);
}

pub(crate) proof fn lemma_deliver(s: ProxyView, token: usize, messages: Seq<Seq<u8>>)
    requires
        s.table_inv(),
        s.live(token),
        s.conns[token].end is Some,
        messages.len() <= s.room(token),
        all_filled(messages),
    ensures
        s.deliver(token, messages).table_inv(),
        s.deliver(token, messages).conns.dom() == s.conns.dom(),
        s.deliver(token, messages).live(token),
        s.deliver(token, messages).conns[token] == s.conns[token],
{
    if messages.len() > 0 {
        assert(linked(s.conns, token));
        let end = s.other_end(token);
        assert(s.conns.contains_key(end));
        assert(s.conns[end].inv(end));
        let c = s.conns[end].send_messages(messages);
        lemma_put(s, end, c);
    }
}

/// A connection that nothing links to is taken out.
pub(crate) proof fn lemma_release(s: ProxyView, token: usize)
    requires
        tokens_inv(s.conns, s.free),
        s.live(token),
    ensures
        tokens_inv(s.release(token).conns, s.release(token).free),
{
    let t = s.release(token);
    assert(t.conns.dom() =~= s.conns.dom().remove(token));
    assert(s.conns.contains_key(token));
    assert(!s.free.contains(token));
    assert forall|i: int, j: int| 0 <= i < j < t.free.len() implies t.free[i] != t.free[j] by {
        assert(t.free[j] == s.free[j - 1]);
        if i > 0 {
            assert(t.free[i] == s.free[i - 1]);
        }
    }
    assert forall|other: usize|
        t.free.contains(other) <==> (other == token || s.free.contains(other)) by {
        if other == token {
            assert(t.free[0] == token);
        }
        if s.free.contains(other) {
            let i = choose|i: int| 0 <= i < s.free.len() && s.free[i] == other;
            assert(t.free[i + 1] == other);
        }
        if t.free.contains(other) {
            let i = choose|i: int| 0 <= i < t.free.len() && t.free[i] == other;
            if i > 0 {
                assert(s.free[i - 1] == other);
            }
        }
    }
    assert forall|other: usize|
        (#[trigger] t.conns.contains_key(other) || t.free.contains(other)) <==> FIRST_TOKEN <= other
            < FIRST_TOKEN + MAX_CONNECTIONS by {
        assert(s.conns.contains_key(other) || s.free.contains(other) <==> FIRST_TOKEN <= other
            < FIRST_TOKEN + MAX_CONNECTIONS);
    }
    assert forall|other: usize| #[trigger] t.conns.contains_key(other) implies !t.free.contains(
        other,
    ) by {
        assert(s.conns.contains_key(other));
    }
}

/// The termination of a connection, which need not have anything to send.
pub(crate) proof fn lemma_terminate(s: ProxyView, token: usize)
    requires
        s.live(token),
        tokens_inv(s.conns, s.free),
        forall|t: usize| #[trigger] s.conns.contains_key(t) ==> linked(s.conns, t),
        forall|t: usize| #[trigger] s.conns.contains_key(t) && t != token ==> s.conns[t].inv(t),
    ensures
        s.terminate_connection(token).table_inv(),
{
    let a = s.abandon_other_end(token);
    let t = s.terminate_connection(token);
    assert(linked(s.conns, token));
    match s.conns[token].end {
        None => {},
        Some(end) => {
            if s.conns[end].queue.len() == 0 {
                lemma_release(s.emit(crate::connection::Effect::Deregister { token: end }), end);
            } else {
                assert(a.conns.dom() =~= s.conns.dom());
                lemma_same_tokens(s.conns, a.conns, s.free);
            }
        },
    }
    assert(tokens_inv(a.conns, a.free));
    lemma_release(a.emit(crate::connection::Effect::Deregister { token }), token);
    assert forall|other: usize| #[trigger] t.conns.contains_key(other) implies t.conns[other].inv(
        other,
    ) by {
        assert(s.conns.contains_key(other));
        assert(s.conns[other].inv(other));
    }
    assert forall|other: usize| #[trigger] t.conns.contains_key(other) implies linked(
        t.conns,
        other,
    ) by {
        assert(s.conns.contains_key(other));
        assert(linked(s.conns, other));
        match s.conns[other].end {
            None => {},
            Some(far) => {
                assert(s.conns.contains_key(far));
                assert(linked(s.conns, far));
            },
        }
    }
}

pub(crate) proof fn lemma_flush(s: ProxyView, left: usize)
    requires
        s.table_inv(),
        left <= s.readable.len(),
    ensures
        s.flush_readable_tokens(left).inv(),
    decreases left,
{
    if left != 0 && s.readable.len() != 0 {
        let token = s.readable[0];
        let popped = ProxyView { readable: s.readable.skip(1), ..s };
        if s.live(token) && s.conns[token].end is Some {
            assert(linked(s.conns, token));
            let end = s.other_end(token);
            assert(s.conns.contains_key(end));
            assert(s.conns[end].inv(end));
            if s.room(token) == 0 {
                lemma_flush(
                    ProxyView { readable: popped.readable.push(token), ..popped },
                    (left - 1) as usize,
                );
            }
        }
    }
}

pub(crate) proof fn lemma_read_finished(
    s: ProxyView,
    token: usize,
    messages: Seq<Seq<u8>>,
    exhausted_kernel: bool,
    then: AfterRead,
)
    requires
        s.table_inv(),
        s.live(token),
        s.conns[token].end is Some,
        messages.len() <= s.room(token),
        all_filled(messages),
        then is Flush ==> then->left <= s.readable.len(),
    ensures
        s.read_finished(token, messages, exhausted_kernel, then).inv(),
{
    lemma_deliver(s, token, messages);
    let delivered = s.deliver(token, messages);
    match then {
        AfterRead::Terminate => {
            lemma_terminate(delivered, token);
            let t = delivered.terminate_connection(token);
            lemma_flush(t, t.readable.len() as usize);
        },
        AfterRead::Flush { left } => {
            if exhausted_kernel {
                let c = ConnectionView {
                    interest: EventSet { readable: true, ..delivered.conns[token].interest },
                    ..delivered.conns[token]
                };
                assert(delivered.conns[token].inv(token));
                lemma_put(delivered, token, c);
                lemma_flush(delivered.put(token, c).emit(crate::model::reregister(token, c)), left);
            } else {
                lemma_flush(
                    ProxyView { readable: delivered.readable.push(token), ..delivered },
                    left,
                );
            }
        },
    }
}

/// The flush of the readable tokens does not depend on the phase it begins in.
pub(crate) proof fn lemma_flush_from_any_phase(s: ProxyView, phase: PhaseView, left: usize)
    ensures
        s.enter(phase).flush_readable_tokens(left) == s.flush_readable_tokens(left),
    decreases left,
{
    if left != 0 && s.readable.len() != 0 {
        let token = s.readable[0];
        let rotated = ProxyView { readable: s.readable.skip(1).push(token), ..s };
        lemma_flush_from_any_phase(rotated, phase, (left - 1) as usize);
    }
}

/// The end of a read does not depend on the phase it comes in.
pub(crate) proof fn lemma_read_finished_from_any_phase(
    s: ProxyView,
    phase: PhaseView,
    token: usize,
    messages: Seq<Seq<u8>>,
    exhausted_kernel: bool,
    then: AfterRead,
)
    ensures
        s.enter(phase).read_finished(token, messages, exhausted_kernel, then) == s.read_finished(
            token,
            messages,
            exhausted_kernel,
            then,
        ),
{
    let delivered = s.deliver(token, messages);
    match then {
        AfterRead::Terminate => {
            let t = delivered.terminate_connection(token);
            lemma_flush_from_any_phase(t, phase, t.readable.len() as usize);
        },
        AfterRead::Flush { left } => {
            if exhausted_kernel {
                let c = ConnectionView {
                    interest: EventSet { readable: true, ..delivered.conns[token].interest },
                    ..delivered.conns[token]
                };
                lemma_flush_from_any_phase(
                    delivered.put(token, c).emit(crate::model::reregister(token, c)),
                    phase,
                    left,
                );
            } else {
                lemma_flush_from_any_phase(
                    ProxyView { readable: delivered.readable.push(token), ..delivered },
                    phase,
                    left,
                );
            }
        },
    }
}

pub(crate) proof fn lemma_after_write(s: ProxyView, token: usize, events: EventSet)
    requires
        s.table_inv(),
    ensures
        s.after_write(token, events).inv(),
{
    if events.hup && events.readable {
        if s.live(token) && s.conns[token].end is Some {
            assert(linked(s.conns, token));
            let end = s.other_end(token);
            assert(s.conns.contains_key(end));
            assert(s.conns[end].inv(end));
            if s.room(token) == 0 {
                lemma_read_finished(s, token, seq![], false, AfterRead::Terminate);
            }
        }
    } else if events.readable {
        if s.live(token) {
            lemma_push_to_readable_tokens(s, token);
            let t = s.push_to_readable_tokens(token);
            lemma_flush(t, t.readable.len() as usize);
        }
    } else {
        lemma_flush(s, s.readable.len() as usize);
    }
}

/// Whether a flush that is over says rightly if the send queue is empty.
pub open spec fn tells_emptiness(status: WriteStatus, c: ConnectionView) -> bool {
    match status {
        WriteStatus::Finished { flushed_everything } => flushed_everything == (c.queue.len() == 0),
        _ => true,
    }
}

/// The end of the flush of the send queue of `token`, whose queue may just have become empty.
pub(crate) proof fn lemma_send_queue_flushed(s: ProxyView, token: usize, status: WriteStatus)
    requires
        s.live(token),
        tokens_inv(s.conns, s.free),
        forall|t: usize| #[trigger] s.conns.contains_key(t) ==> linked(s.conns, t),
        forall|t: usize| #[trigger] s.conns.contains_key(t) && t != token ==> s.conns[t].inv(t),
        s.conns[token].sound(token),
        tells_emptiness(status, s.conns[token]),
    ensures
        s.send_queue_flushed(token, status).table_inv(),
{
    let c = match status {
        WriteStatus::Finished { flushed_everything } => if flushed_everything {
            ConnectionView {
                interest: EventSet { writable: false, ..s.conns[token].interest },
                ..s.conns[token]
            }
        } else {
            s.conns[token]
        },
        _ => ConnectionView { queue: seq![], ..s.conns[token] },
    };
    let f = s.put(token, c);
    assert(f.conns.dom() =~= s.conns.dom());
    assert forall|other: usize| #[trigger] f.conns.contains_key(other) implies linked(
        f.conns,
        other,
    ) by {
        assert(s.conns.contains_key(other));
        assert(linked(s.conns, other));
    }
    lemma_same_tokens(s.conns, f.conns, s.free);
    assert forall|other: usize| #[trigger]
        f.conns.contains_key(other) && other != token implies f.conns[other].inv(other) by {
        assert(s.conns.contains_key(other));
    }
    assert(f.conns =~= s.conns.insert(token, c));
    if c.queue.len() == 0 && c.end is None {
        match status {
            WriteStatus::Finished { flushed_everything } => if flushed_everything {
                lemma_terminate(f.emit(crate::model::reregister(token, c)), token);
            } else {
            },
            _ => {
                lemma_terminate(f, token);
            },
        }
    } else {
        match status {
            WriteStatus::Finished { flushed_everything } => if !flushed_everything {
                assert(f.conns =~= s.conns);
            },
            _ => {},
        }
    }
}

/// A connection is connected.
pub(crate) proof fn lemma_mark_connected(s: ProxyView, token: usize)
    requires
        s.table_inv(),
        s.live(token),
    ensures
        s.mark_connected(token).table_inv(),
        s.mark_connected(token).conns.dom() == s.conns.dom(),
        s.mark_connected(token).live(token),
        s.mark_connected(token).conns[token].inv(token),
        linked(s.mark_connected(token).conns, token),
{
    let t = s.mark_connected(token);
    assert(s.conns[token].inv(token));
    if !s.conns[token].connected {
        lemma_put(s, token, ConnectionView { connected: true, ..s.conns[token] });
    }
    assert(t.conns.contains_key(token));
}

pub(crate) proof fn lemma_handle_write_event(s: ProxyView, token: usize, events: EventSet)
    requires
        s.table_inv(),
    ensures
        s.handle_write_event(token, events).inv(),
{
    if s.live(token) {
        lemma_mark_connected(s, token);
        let connected = s.mark_connected(token);
        if connected.conns[token].queue.len() == 0 {
            let status = WriteStatus::Finished { flushed_everything: true };
            lemma_send_queue_flushed(connected, token, status);
            lemma_after_write(connected.send_queue_flushed(token, status), token, events);
        }
    }
}

pub(crate) proof fn lemma_try_next_server(s: ProxyView, token: usize)
    requires
        s.table_inv(),
        s.live(token),
        !s.conns[token].connected,
    ensures
        s.try_next_server(token).inv(),
{
    assert(s.conns[token].inv(token));
    if s.conns[token].timeout {
        lemma_put(s, token, ConnectionView { timeout: false, ..s.conns[token] });
    }
}

/// The first two free tokens are taken.
proof fn lemma_take_two(free: Seq<usize>, taken: Seq<usize>)
    requires
        free.no_duplicates(),
        free.len() > 1,
        taken == free.skip(2),
    ensures
        taken.no_duplicates(),
        free[0] != free[1],
        free.contains(free[0]),
        free.contains(free[1]),
        forall|token: usize| #[trigger]
            taken.contains(token) <==> (free.contains(token) && token != free[0] && token
                != free[1]),
{
    assert forall|i: int, j: int| 0 <= i < j < taken.len() implies taken[i] != taken[j] by {
        assert(taken[i] == free[i + 2] && taken[j] == free[j + 2]);
    }
    assert forall|token: usize| #[trigger]
        taken.contains(token) <==> (free.contains(token) && token != free[0] && token
            != free[1]) by {
        if free.contains(token) && token != free[0] && token != free[1] {
            let i = choose|i: int| 0 <= i < free.len() && free[i] == token;
            assert(taken[i - 2] == token);
        }
        if taken.contains(token) {
            let i = choose|i: int| 0 <= i < taken.len() && taken[i] == token;
            assert(free[i + 2] == token);
        }
    }
}

pub(crate) proof fn lemma_accept_one(s: ProxyView)
    requires
        s.table_inv(),
    ensures
        s.accept_one().inv(),
{
    if s.free.len() > 1 {
        let t = s.accept_one();
        let client = s.free[0];
        let backend = s.free[1];
        lemma_take_two(s.free, t.free);
        assert(!s.conns.contains_key(client) && !s.conns.contains_key(backend));
        assert(t.conns.dom() =~= s.conns.dom().insert(client).insert(backend));
        assert forall|other: usize|
            (#[trigger] t.conns.contains_key(other) || t.free.contains(other)) <==> FIRST_TOKEN
                <= other < FIRST_TOKEN + MAX_CONNECTIONS by {
            let known = s.conns.contains_key(other);
            assert(known ==> !s.free.contains(other));
        }
        assert forall|other: usize| #[trigger] t.conns.contains_key(other) implies !t.free.contains(
            other,
        ) by {
            let known = s.conns.contains_key(other);
            assert(known ==> !s.free.contains(other));
        }
        assert forall|other: usize| #[trigger]
            t.conns.contains_key(other) implies t.conns[other].inv(other) by {
            let known = s.conns.contains_key(other);
            assert(known ==> s.conns[other].inv(other));
        }
        assert forall|other: usize| #[trigger] t.conns.contains_key(other) implies linked(
            t.conns,
            other,
        ) by {
            let known = s.conns.contains_key(other);
            assert(known ==> linked(s.conns, other));
        }
    }
}

pub(crate) proof fn lemma_ready(s: ProxyView, token: usize, events: EventSet)
    requires
        s.inv(),
        s.phase is Idle,
    ensures
        s.ready(token, events).inv(),
{
    if token == LISTEN_TOKEN {
    } else if events.error {
        if s.live(token) {
            if !s.conns[token].connected {
                lemma_try_next_server(s, token);
            } else {
                lemma_terminate(s, token);
            }
        }
    } else if events.writable {
        lemma_handle_write_event(s, token, events);
    } else {
        lemma_after_write(s, token, events);
    }
}

pub(crate) proof fn lemma_connected(s: ProxyView, opened: bool)
    requires
        s.inv(),
        s.phase is Connecting,
    ensures
        s.connected(opened).inv(),
{
    if opened {
        match s.phase {
            PhaseView::Connecting { purpose: Purpose::NewClient, .. } => {
                lemma_accept_one(s);
            },
            PhaseView::Connecting { purpose: Purpose::Retry { token }, .. } => {
                assert(s.conns[token].inv(token));
                lemma_put(s, token, ConnectionView { timeout: true, ..s.conns[token] });
            },
            _ => {},
        }
    }
}

/// One attempt to write the first buffer of `token`.
pub(crate) proof fn lemma_write_one_buf(c: ConnectionView, token: usize, outcome: WriteOutcome)
    requires
        c.inv(token),
        c.queue.len() > 0,
    ensures
        c.write_one_buf(outcome).sound(token),
        (c.write_status(outcome) is More) ==> c.write_one_buf(outcome).queue.len() > 0,
        tells_emptiness(c.write_status(outcome), c.write_one_buf(outcome)),
{
    let w = c.write_one_buf(outcome);
    assert forall|i: int| 0 <= i < w.queue.len() implies (#[trigger] w.queue[i]).len() > 0 by {
        if w.queue.len() < c.queue.len() {
            assert(w.queue[i] == c.queue[i + 1]);
        } else {
            assert(c.queue[i].len() > 0);
        }
    }
}

/// The flush of the send queue of `token` ends with an attempt to write.
pub(crate) proof fn lemma_written(s: ProxyView, token: usize, outcome: WriteOutcome)
    requires
        s.table_inv(),
        s.live(token),
        s.conns[token].queue.len() > 0,
    ensures
        s.put(token, s.conns[token].write_one_buf(outcome)).send_queue_flushed(
            token,
            s.conns[token].write_status(outcome),
        ).table_inv(),
{
    let c = s.conns[token];
    assert(c.inv(token));
    lemma_write_one_buf(c, token, outcome);
    let written = s.put(token, c.write_one_buf(outcome));
    assert(written.conns.dom() =~= s.conns.dom());
    assert forall|other: usize| #[trigger] written.conns.contains_key(other) implies linked(
        written.conns,
        other,
    ) by {
        assert(s.conns.contains_key(other));
        assert(linked(s.conns, other));
    }
    lemma_same_tokens(s.conns, written.conns, s.free);
    assert forall|other: usize| #[trigger]
        written.conns.contains_key(other) && other != token implies written.conns[other].inv(
        other,
    ) by {
        assert(s.conns.contains_key(other));
    }
    lemma_send_queue_flushed(written, token, c.write_status(outcome));
}

pub(crate) proof fn lemma_wrote(s: ProxyView, outcome: WriteOutcome)
    requires
        s.inv(),
        s.phase is Writing,
    ensures
        s.wrote(outcome).inv(),
{
    match s.phase {
        PhaseView::Writing { token, events } => {
            let c = s.conns[token];
            assert(c.inv(token));
            lemma_write_one_buf(c, token, outcome);
            let status = c.write_status(outcome);
            let written = s.put(token, c.write_one_buf(outcome));
            if status is More {
                lemma_put(s, token, c.write_one_buf(outcome));
            } else {
                lemma_written(s, token, outcome);
                lemma_after_write(written.send_queue_flushed(token, status), token, events);
            }
        },
        _ => {},
    }
}

pub(crate) proof fn lemma_read(s: ProxyView, outcome: ReadOutcomeView)
    requires
        s.inv(),
        s.phase is Reading,
    ensures
        s.read(outcome).inv(),
{
    match s.phase {
        PhaseView::Reading { token, reading, then } => {
            let gathered = reading.read(outcome);
            assert(all_filled(gathered.messages));
            match reading.status(outcome) {
                ReadStatus::Finished { exhausted_kernel } => {
                    lemma_read_finished(s, token, gathered.messages, exhausted_kernel, then);
                },
                _ => {},
            }
        },
        _ => {},
    }
}

} // verus!
