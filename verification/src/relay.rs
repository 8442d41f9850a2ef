//! What becomes of the bytes that the proxy reads.
use vstd::prelude::*;
use vstd::seq_lib::lemma_flatten_concat;

use crate::connection::{
    ConnectionView, ReadOutcomeView, ReadStatus, ReadingView, WriteOutcome, WriteStatus,
    BUFFER_SIZE,
};
use crate::consistency::{lemma_mark_connected, lemma_send_queue_flushed, lemma_written, linked};
use crate::events::EventSet;
use crate::laws::{lemma_flush_only_chooses, Input};
use crate::model::{AfterRead, PhaseView, ProxyView, Purpose, LISTEN_TOKEN};

verus! {

/// An account of the bytes that passed, by the connection they are for.
pub struct Ledger {
    /// The bytes that were read from the other end of a connection.
    pub due: Map<usize, Seq<u8>>,
    /// The bytes that were written to the socket of a connection.
    pub sent: Map<usize, Seq<u8>>,
}

/// The bytes that the kernel took of the first buffer of a connection.
pub open spec fn taken(c: ConnectionView, written: WriteOutcome) -> Seq<u8> {
    match written {
        WriteOutcome::Wrote(n) => if n < c.queue[0].len() {
            c.queue[0].take(n as int)
        } else {
            c.queue[0]
        },
        _ => seq![],
    }
}

/// The bytes that were read for a connection by a read that is not over.
pub open spec fn gathered(s: ProxyView, token: usize) -> Seq<u8> {
    match s.phase {
        PhaseView::Reading { token: source, reading, .. } => if s.conns[source].end == Some(token) {
            reading.messages.flatten()
        } else {
            seq![]
        },
        _ => seq![],
    }
}

impl Ledger {
    /// The account after an input. A connection that is created owes nothing; a write that fails
    /// writes off what was due.
    pub open spec fn record(self, s: ProxyView, input: Input) -> Ledger {
        match (input, s.phase) {
            (
                Input::Read { read: ReadOutcomeView::Data(bytes) },
                PhaseView::Reading { token, .. },
            ) => {
                let end = s.other_end(token);
                Ledger { due: self.due.insert(end, self.due[end] + bytes), ..self }
            },
            (Input::Wrote { written }, PhaseView::Writing { token, .. }) => match written {
                WriteOutcome::Failed => Ledger {
                    due: self.due.insert(token, self.sent[token]),
                    ..self
                },
                _ => Ledger {
                    sent: self.sent.insert(
                        token,
                        self.sent[token] + taken(s.conns[token], written),
                    ),
                    ..self
                },
            },
            (
                Input::Connected { opened },
                PhaseView::Connecting { purpose: Purpose::NewClient, .. },
            ) => if opened && s.free.len() > 1 {
                Ledger {
                    due: self.due.insert(s.free[0], seq![]).insert(s.free[1], seq![]),
                    sent: self.sent.insert(s.free[0], seq![]).insert(s.free[1], seq![]),
                }
            } else {
                self
            },
            _ => self,
        }
    }

    /// Whether the account of a connection is right: what was read for it is what was sent, then
    /// what waits in its send queue, then what is still being gathered.
    pub open spec fn balanced(self, s: ProxyView, token: usize) -> bool {
        &&& self.due.contains_key(token)
        &&& self.sent.contains_key(token)
        &&& self.due[token] == self.sent[token] + s.conns[token].queue.flatten() + gathered(
            s,
            token,
        )
    }

    /// Whether the account of every connection is right.
    pub open spec fn all_balanced(self, s: ProxyView) -> bool {
        forall|token: usize| #[trigger] s.conns.contains_key(token) ==> self.balanced(s, token)
    }
}

/// Whether the connections of `t` have the send queues that they have in `s`.
spec fn queues_kept(s: ProxyView, t: ProxyView) -> bool {
    forall|token: usize| #[trigger]
        t.conns.contains_key(token) ==> s.conns.contains_key(token) && t.conns[token].queue
            == s.conns[token].queue
}

/// Whether nothing is gathered yet.
spec fn nothing_gathered(s: ProxyView) -> bool {
    match s.phase {
        PhaseView::Reading { reading, .. } => reading.messages.len() == 0,
        _ => true,
    }
}

proof fn lemma_read_finished_queues(
    s: ProxyView,
    token: usize,
    messages: Seq<Seq<u8>>,
    exhausted_kernel: bool,
    then: AfterRead,
)
    requires
        s.table_inv(),
        s.live(token),
        s.conns[token].end is Some,
    ensures
        queues_kept(
            s.deliver(token, messages),
            s.read_finished(token, messages, exhausted_kernel, then),
        ),
        nothing_gathered(s.read_finished(token, messages, exhausted_kernel, then)),
{
    assert(linked(s.conns, token));
    let delivered = s.deliver(token, messages);
    match then {
        AfterRead::Terminate => {
            let t = delivered.terminate_connection(token);
            lemma_flush_only_chooses(t, t.readable.len() as usize);
        },
        AfterRead::Flush { left } => {
            if exhausted_kernel {
                let c = ConnectionView {
                    interest: EventSet { readable: true, ..delivered.conns[token].interest },
                    ..delivered.conns[token]
                };
                lemma_flush_only_chooses(
                    delivered.put(token, c).emit(crate::model::reregister(token, c)),
                    left,
                );
            } else {
                lemma_flush_only_chooses(
                    ProxyView { readable: delivered.readable.push(token), ..delivered },
                    left,
                );
            }
        },
    }
}

proof fn lemma_after_write_queues(s: ProxyView, token: usize, events: EventSet)
    requires
        s.table_inv(),
    ensures
        queues_kept(s, s.after_write(token, events)),
        nothing_gathered(s.after_write(token, events)),
{
    if events.hup && events.readable {
        if s.live(token) && s.conns[token].end is Some && s.room(token) == 0 {
            lemma_read_finished_queues(s, token, seq![], false, AfterRead::Terminate);
        }
    } else if events.readable {
        if s.live(token) {
            let t = s.push_to_readable_tokens(token);
            lemma_flush_only_chooses(t, t.readable.len() as usize);
        }
    } else {
        lemma_flush_only_chooses(s, s.readable.len() as usize);
    }
}

proof fn lemma_ready_queues(s: ProxyView, token: usize, events: EventSet)
    requires
        s.table_inv(),
        s.phase is Idle,
    ensures
        queues_kept(s, s.ready(token, events)),
        nothing_gathered(s.ready(token, events)),
{
    if token == LISTEN_TOKEN {
    } else if events.error {
        if s.live(token) {
            assert(linked(s.conns, token));
        }
    } else if events.writable {
        if s.live(token) {
            let connected = s.mark_connected(token);
            lemma_mark_connected(s, token);
            if connected.conns[token].queue.len() == 0 {
                let status = WriteStatus::Finished { flushed_everything: true };
                let flushed = connected.send_queue_flushed(token, status);
                lemma_send_queue_flushed(connected, token, status);
                assert(queues_kept(connected, flushed));
                lemma_after_write_queues(flushed, token, events);
            }
        }
    } else {
        lemma_after_write_queues(s, token, events);
    }
}

proof fn lemma_balance_kept(l: Ledger, s: ProxyView, t: ProxyView)
    requires
        l.all_balanced(s),
        queues_kept(s, t),
        nothing_gathered(s),
        nothing_gathered(t),
    ensures
        l.all_balanced(t),
{
    assert forall|token: usize| #[trigger] t.conns.contains_key(token) implies l.balanced(
        t,
        token,
    ) by {
        assert(s.conns.contains_key(token));
        assert(l.balanced(s, token));
        lemma_nothing_gathered(s, token);
        lemma_nothing_gathered(t, token);
    }
}

proof fn lemma_nothing_gathered(s: ProxyView, token: usize)
    requires
        nothing_gathered(s),
    ensures
        gathered(s, token) == Seq::<u8>::empty(),
{
}

/// The bytes in the send queue, before and after a write.
proof fn lemma_taken(c: ConnectionView, written: WriteOutcome)
    requires
        c.queue.len() > 0,
        !(written is Failed),
    ensures
        c.queue.flatten() == taken(c, written) + c.write_one_buf(written).queue.flatten(),
{
    let w = c.write_one_buf(written).queue;
    assert(c.queue.flatten() == c.queue[0] + c.queue.drop_first().flatten());
    match written {
        WriteOutcome::Wrote(n) => {
            if n < c.queue[0].len() {
                assert(w.drop_first() =~= c.queue.drop_first());
                assert(w.flatten() == c.queue[0].skip(n as int) + c.queue.drop_first().flatten());
                assert(c.queue[0] =~= c.queue[0].take(n as int) + c.queue[0].skip(n as int));
            } else {
                assert(w =~= c.queue.drop_first());
            }
        },
        _ => {},
    }
    assert(c.queue.flatten() =~= taken(c, written) + w.flatten());
}

proof fn lemma_connected_balance(l: Ledger, s: ProxyView, opened: bool)
    requires
        s.inv(),
        s.phase is Connecting,
        l.all_balanced(s),
    ensures
        l.record(s, Input::Connected { opened }).all_balanced(s.connected(opened)),
{
    let t = s.connected(opened);
    let r = l.record(s, Input::Connected { opened });
    assert forall|token: usize| #[trigger] t.conns.contains_key(token) implies r.balanced(
        t,
        token,
    ) by {
        if s.conns.contains_key(token) {
            assert(l.balanced(s, token));
            assert(!s.free.contains(token));
            assert(s.free.len() > 1 ==> s.free.contains(s.free[0]) && s.free.contains(s.free[1]));
        }
        assert(Seq::<Seq<u8>>::empty().flatten() =~= Seq::<u8>::empty());
    }
}

/// The account after a write that did not fail, before what follows the write.
proof fn lemma_write_balance(l: Ledger, s: ProxyView, written: WriteOutcome)
    requires
        s.inv(),
        s.phase is Writing,
        l.all_balanced(s),
        !(written is Failed),
    ensures
        ({
            let token = s.phase->Writing_token;
            l.record(s, Input::Wrote { written }).all_balanced(
                s.put(token, s.conns[token].write_one_buf(written)),
            )
        }),
{
    let token = s.phase->Writing_token;
    let c = s.conns[token];
    let w = s.put(token, c.write_one_buf(written));
    let r = l.record(s, Input::Wrote { written });
    assert(linked(s.conns, token));
    lemma_taken(c, written);
    assert forall|other: usize| #[trigger] w.conns.contains_key(other) implies r.balanced(
        w,
        other,
    ) by {
        assert(s.conns.contains_key(other));
        assert(l.balanced(s, other));
        if other == token {
            assert(r.sent[token] + w.conns[token].queue.flatten() =~= l.sent[token] + (taken(
                c,
                written,
            ) + w.conns[token].queue.flatten()));
        }
    }
}

proof fn lemma_wrote_balance(l: Ledger, s: ProxyView, written: WriteOutcome)
    requires
        s.inv(),
        s.phase is Writing,
        l.all_balanced(s),
    ensures
        l.record(s, Input::Wrote { written }).all_balanced(s.wrote(written)),
{
    let t = s.wrote(written);
    let r = l.record(s, Input::Wrote { written });
    let token = s.phase->Writing_token;
    let events = s.phase->Writing_events;
    let c = s.conns[token];
    let status = c.write_status(written);
    let w = s.put(token, c.write_one_buf(written));
    assert(linked(s.conns, token));
    if !(written is Failed) {
        lemma_write_balance(l, s, written);
    }
    if !(status is More) {
        let flushed = w.send_queue_flushed(token, status);
        lemma_written(s, token, written);
        lemma_after_write_queues(flushed, token, events);
        if !(written is Failed) {
            assert(queues_kept(w, flushed));
            lemma_balance_kept(r, w, t);
        } else {
            assert forall|other: usize| #[trigger] t.conns.contains_key(other) implies r.balanced(
                t,
                other,
            ) by {
                assert(flushed.conns.contains_key(other));
                assert(s.conns.contains_key(other));
                assert(l.balanced(s, other));
                lemma_nothing_gathered(t, other);
                if other == token {
                    assert(flushed.conns[token].queue.len() == 0);
                    assert(r.due[token] =~= r.sent[token] + t.conns[token].queue.flatten()
                        + gathered(t, token));
                }
            }
        }
    }
}

/// The bytes that a read adds to those that were gathered.
proof fn lemma_gathered(reading: ReadingView, bytes: Seq<u8>)
    ensures
        reading.messages.push(bytes).flatten() == reading.messages.flatten() + bytes,
{
    reading.messages.lemma_flatten_push(bytes);
}

/// The account after what was gathered is handed to the other end.
proof fn lemma_deliver_balance(l: Ledger, s: ProxyView, r: Ledger, messages: Seq<Seq<u8>>)
    requires
        s.inv(),
        s.phase is Reading,
        l.all_balanced(s),
        ({
            let end = s.other_end(s.phase->Reading_token);
            &&& r.sent == l.sent
            &&& r.due == l.due.insert(end, r.due[end])
            &&& r.due[end] == l.sent[end] + s.conns[end].queue.flatten() + messages.flatten()
        }),
    ensures
        r.all_balanced(s.deliver(s.phase->Reading_token, messages).enter(PhaseView::Idle)),
{
    let token = s.phase->Reading_token;
    let end = s.other_end(token);
    let d = s.deliver(token, messages).enter(PhaseView::Idle);
    assert(linked(s.conns, token));
    assert forall|other: usize| #[trigger] d.conns.contains_key(other) implies r.balanced(
        d,
        other,
    ) by {
        assert(s.conns.contains_key(other));
        assert(l.balanced(s, other));
        lemma_nothing_gathered(d, other);
        if other == end {
            lemma_flatten_concat(s.conns[end].queue, messages);
            if messages.len() == 0 {
                assert(s.conns[end].queue + messages =~= s.conns[end].queue);
            }
            assert(d.conns[end].queue.flatten() == s.conns[end].queue.flatten()
                + messages.flatten());
            assert(r.due[end] =~= r.sent[end] + d.conns[end].queue.flatten() + gathered(d, end));
        } else {
            assert(s.conns[token].end != Some(other));
        }
    }
}

proof fn lemma_read_balance(l: Ledger, s: ProxyView, read: ReadOutcomeView)
    requires
        s.inv(),
        s.phase is Reading,
        l.all_balanced(s),
        !(read is Failed),
    ensures
        l.record(s, Input::Read { read }).all_balanced(s.read(read)),
{
    let t = s.read(read);
    let r = l.record(s, Input::Read { read });
    let token = s.phase->Reading_token;
    let reading = s.phase->reading;
    let end = s.other_end(token);
    let messages = reading.read(read).messages;
    assert(linked(s.conns, token));
    assert(l.balanced(s, end));
    assert(r.due[end] == l.sent[end] + s.conns[end].queue.flatten() + messages.flatten()) by {
        if let ReadOutcomeView::Data(bytes) = read {
            lemma_gathered(reading, bytes);
            assert(l.sent[end] + s.conns[end].queue.flatten() + reading.messages.flatten() + bytes
                =~= l.sent[end] + s.conns[end].queue.flatten() + (reading.messages.flatten()
                + bytes));
        }
    }
    assert(r.due =~= l.due.insert(end, r.due[end]));
    match reading.status(read) {
        ReadStatus::More => {
            assert forall|other: usize| #[trigger] t.conns.contains_key(other) implies r.balanced(
                t,
                other,
            ) by {
                assert(s.conns.contains_key(other));
                assert(l.balanced(s, other));
            }
        },
        ReadStatus::Finished { exhausted_kernel } => {
            let d = s.deliver(token, messages).enter(PhaseView::Idle);
            lemma_deliver_balance(l, s, r, messages);
            lemma_read_finished_queues(s, token, messages, exhausted_kernel, s.phase->then);
            assert(queues_kept(d, t));
            lemma_balance_kept(r, d, t);
        },
        _ => {},
    }
}

/// The proxy passes bytes on as they came. Whatever happens, the bytes that were read for a
/// connection are those that were sent on it, then those in its send queue, then those that are
/// still being gathered: none is lost, repeated, changed or put in another order, and none goes
/// to another connection. This is said of the connections that are there: one that goes takes
/// what waits in its own send queue with it. Of those that stay only a write that fails drops
/// bytes: those that were not sent yet.
pub proof fn law_bytes_are_passed_on(l: Ledger, s: ProxyView, input: Input)
    requires
        s.inv(),
        s.expects(input),
        l.all_balanced(s),
        !(s.next(input).phase is Aborted),
    ensures
        l.record(s, input).all_balanced(s.next(input)),
{
    let t = s.next(input);
    match input {
        Input::Ready { token, events } => {
            lemma_ready_queues(s, token, events);
            lemma_balance_kept(l, s, t);
        },
        Input::Connected { opened } => {
            lemma_connected_balance(l, s, opened);
        },
        Input::Wrote { written } => {
            lemma_wrote_balance(l, s, written);
        },
        Input::Read { read } => {
            lemma_read_balance(l, s, read);
        },
        _ => {
            lemma_balance_kept(l, s, t);
        },
    }
}

/// Whether no buffer holds more than one read may deliver.
pub open spec fn all_fit(buffers: Seq<Seq<u8>>) -> bool {
    forall|i: int| 0 <= i < buffers.len() ==> (#[trigger] buffers[i]).len() <= BUFFER_SIZE
}

/// Whether no buffer that waits to be sent, or is being gathered, holds more than one read may
/// deliver.
pub open spec fn buffers_fit(s: ProxyView) -> bool {
    &&& forall|token: usize| #[trigger]
        s.conns.contains_key(token) ==> all_fit(s.conns[token].queue)
    &&& s.phase is Reading ==> all_fit(s.phase->reading.messages)
}

/// Whether an input brings no more bytes than one read may deliver.
pub open spec fn input_fits(input: Input) -> bool {
    match input {
        Input::Read { read: ReadOutcomeView::Data(bytes) } => bytes.len() <= BUFFER_SIZE,
        _ => true,
    }
}

proof fn lemma_fit_kept(s: ProxyView, t: ProxyView)
    requires
        buffers_fit(s),
        queues_kept(s, t),
        nothing_gathered(t),
    ensures
        buffers_fit(t),
{
}

proof fn lemma_written_fits(c: ConnectionView, written: WriteOutcome)
    requires
        all_fit(c.queue),
    ensures
        all_fit(c.write_one_buf(written).queue),
{
    let w = c.write_one_buf(written).queue;
    assert forall|i: int| 0 <= i < w.len() implies (#[trigger] w[i]).len() <= BUFFER_SIZE by {
        if w.len() < c.queue.len() {
            assert(w[i] == c.queue[i + 1]);
        } else {
            assert(c.queue[i].len() <= BUFFER_SIZE);
        }
    }
}

/// A new proxy holds no bytes: no buffer is too large, and every account is right.
pub proof fn law_new_proxy_holds_no_bytes(l: Ledger)
    ensures
        buffers_fit(ProxyView::initial()),
        l.all_balanced(ProxyView::initial()),
{
}

/// No buffer ever holds more than one read may deliver, as long as no read delivers more.
pub proof fn law_buffers_are_bounded(s: ProxyView, input: Input)
    requires
        s.inv(),
        s.expects(input),
        buffers_fit(s),
        input_fits(input),
    ensures
        buffers_fit(s.next(input)),
{
    let t = s.next(input);
    match input {
        Input::Ready { token, events } => {
            lemma_ready_queues(s, token, events);
            lemma_fit_kept(s, t);
        },
        Input::Wrote { written } => {
            let token = s.phase->Writing_token;
            let status = s.conns[token].write_status(written);
            let w = s.put(token, s.conns[token].write_one_buf(written));
            assert(s.conns.contains_key(token));
            lemma_written_fits(s.conns[token], written);
            assert(buffers_fit(w));
            if !(status is More) {
                let flushed = w.send_queue_flushed(token, status);
                lemma_written(s, token, written);
                assert(linked(s.conns, token));
                assert(buffers_fit(flushed));
                lemma_after_write_queues(flushed, token, s.phase->Writing_events);
                lemma_fit_kept(flushed, t);
            }
        },
        Input::Read { read } => {
            let token = s.phase->Reading_token;
            let messages = s.phase->reading.read(read).messages;
            assert(all_fit(messages));
            match s.phase->reading.status(read) {
                ReadStatus::Finished { exhausted_kernel } => {
                    let d = s.deliver(token, messages).enter(PhaseView::Idle);
                    assert(linked(s.conns, token));
                    assert(buffers_fit(d)) by {
                        let end = s.other_end(token);
                        assert(s.conns.contains_key(end));
                        let queue = s.conns[end].queue + messages;
                        assert forall|i: int| 0 <= i < queue.len() implies (
                        #[trigger] queue[i]).len() <= BUFFER_SIZE by {
                            if i < s.conns[end].queue.len() {
                                assert(queue[i] == s.conns[end].queue[i]);
                            } else {
                                assert(queue[i] == messages[i - s.conns[end].queue.len()]);
                            }
                        }
                    }
                    lemma_read_finished_queues(
                        s,
                        token,
                        messages,
                        exhausted_kernel,
                        s.phase->then,
                    );
                    assert(queues_kept(d, t));
                    lemma_fit_kept(d, t);
                },
                _ => {},
            }
        },
        _ => {},
    }
}

/// What was sent on a connection is the beginning of what was read for it.
pub proof fn law_sent_bytes_come_first(l: Ledger, s: ProxyView, token: usize)
    requires
        l.all_balanced(s),
        s.live(token),
    ensures
        l.sent[token].is_prefix_of(l.due[token]),
{
    assert(s.conns.contains_key(token));
    assert(l.balanced(s, token));
    assert(l.sent[token] =~= l.due[token].take(l.sent[token].len() as int));
}

/// A connection that has sent everything was sent everything that was read for it.
pub proof fn law_flushed_connections_got_everything(l: Ledger, s: ProxyView, token: usize)
    requires
        l.all_balanced(s),
        s.live(token),
        s.conns[token].queue.len() == 0,
        s.phase is Idle,
    ensures
        l.sent[token] == l.due[token],
{
    assert(s.conns.contains_key(token));
    assert(l.balanced(s, token));
    assert(l.sent[token] =~= l.due[token]);
}

} // verus!
