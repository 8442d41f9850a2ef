//! What every step does, said of the tokens, the events and the outcomes alone.
use vstd::prelude::*;

use crate::addr::SocketAddr;
use crate::connection::{
    ConnectionView, Effect, ReadOutcomeView, ReadStatus, ReadingView, Socket, WriteError,
    WriteOutcome, WriteStatus, MAX_BUFFERS_PER_CONNECTION,
};
use crate::consistency::linked;
use crate::events::EventSet;
use crate::laws::{lemma_flush_only_chooses, Input};
use crate::model::{
    reregister, AcceptOutcome, AfterRead, Fault, PhaseView, ProxyView, Purpose, CONNECT_TIMEOUT_MS,
    FIRST_TOKEN, LISTEN_TOKEN, MAX_CONNECTIONS,
};

verus! {

/// Whether a whole buffer went out.
pub open spec fn whole_buffer(c: ConnectionView, written: WriteOutcome) -> bool {
    match written {
        WriteOutcome::Wrote(n) => n >= c.queue[0].len(),
        _ => false,
    }
}

/// The token whose write is answered.
pub open spec fn writes(s: ProxyView, input: Input, token: usize) -> bool {
    input is Wrote && s.phase is Writing && s.phase->Writing_token == token
}

/// The token and the events of which only the reading part is left when the step begins, or once
/// the write that the step answers is over.
pub open spec fn handled(s: ProxyView, input: Input) -> Option<(usize, EventSet)> {
    match (input, s.phase) {
        (Input::Ready { token, events }, _) => if token == LISTEN_TOKEN || events.error || (
        events.writable && !(s.live(token) && s.conns[token].queue.len() == 0)) {
            None
        } else {
            Some((token, events))
        },
        (Input::Wrote { written }, PhaseView::Writing { token, events }) => if whole_buffer(
            s.conns[token],
            written,
        ) && s.conns[token].queue.len() > 1 {
            None
        } else {
            Some((token, events))
        },
        _ => None,
    }
}

/// Whether the step hands the reading part of `events` of `token` on.
pub open spec fn handles(s: ProxyView, input: Input, token: usize) -> bool {
    handled(s, input) is Some && (handled(s, input)->0).0 == token
}

/// The events of which the reading part is handed on.
pub open spec fn handled_events(s: ProxyView, input: Input) -> EventSet {
    (handled(s, input)->0).1
}

/// Whether the kernel has nothing more to give.
pub open spec fn exhausts(read: ReadOutcomeView) -> bool {
    match read {
        ReadOutcomeView::WouldBlock => true,
        ReadOutcomeView::Data(bytes) => bytes.len() == 0,
        ReadOutcomeView::Failed => false,
    }
}

/// What was gathered together with what came in.
pub open spec fn gathered_with(messages: Seq<Seq<u8>>, read: ReadOutcomeView) -> Seq<Seq<u8>> {
    match read {
        ReadOutcomeView::Data(bytes) => if bytes.len() > 0 {
            messages.push(bytes)
        } else {
            messages
        },
        _ => messages,
    }
}

/// Whether the step ends the read of `token`: the kernel is exhausted, or the send queue of the
/// other end is full with what was gathered.
pub open spec fn read_over(s: ProxyView, input: Input, token: usize) -> bool {
    match (input, s.phase) {
        (Input::Read { read }, PhaseView::Reading { token: source, reading, .. }) => {
            &&& source == token
            &&& !(read is Failed)
            &&& exhausts(read) || s.conns[s.other_end(token)].queue.len() + gathered_with(
                reading.messages,
                read,
            ).len() >= MAX_BUFFERS_PER_CONNECTION
        },
        _ => false,
    }
}

/// Whether the send queue of the other end of `token` is full.
pub open spec fn is_full(s: ProxyView, token: usize) -> bool {
    s.conns[s.other_end(token)].queue.len() >= MAX_BUFFERS_PER_CONNECTION
}

/// Whether `token` hung up and everything that can be read of it was read.
pub open spec fn hung_up(s: ProxyView, input: Input, token: usize) -> bool {
    ||| read_over(s, input, token) && s.phase->then is Terminate
    ||| {
        &&& handles(s, input, token)
        &&& handled_events(s, input).hup
        &&& handled_events(s, input).readable
        &&& s.conns[token].end is Some
        &&& is_full(s, token)
    }
}

/// Whether an error is notified for `token`, which is connected.
pub open spec fn broke(s: ProxyView, input: Input, token: usize) -> bool {
    match input {
        Input::Ready { token: subject, events } => subject == token && events.error
            && s.conns[token].connected,
        _ => false,
    }
}

/// Whether `token` has lost its other end and has nothing more to send.
pub open spec fn said_everything(s: ProxyView, input: Input, token: usize) -> bool {
    &&& writes(s, input, token)
    &&& s.conns[token].end is None
    &&& input->written is Failed || (whole_buffer(s.conns[token], input->written)
        && s.conns[token].queue.len() == 1)
}

/// Whether the step ends the connection `token` itself.
pub open spec fn ends(s: ProxyView, input: Input, token: usize) -> bool {
    s.live(token) && (hung_up(s, input, token) || broke(s, input, token) || said_everything(
        s,
        input,
        token,
    ))
}

/// The buffers that the step queues for `token`: what was read of its other end.
pub open spec fn received(s: ProxyView, input: Input, token: usize) -> Seq<Seq<u8>> {
    if s.conns[token].end is Some && read_over(s, input, s.other_end(token)) {
        gathered_with(s.phase->reading.messages, input->read)
    } else {
        seq![]
    }
}

/// Whether the step ends the other end of `token`.
pub open spec fn loses_other_end(s: ProxyView, input: Input, token: usize) -> bool {
    s.conns[token].end is Some && ends(s, input, s.other_end(token))
}

/// Whether `token` goes with its other end: there is nothing to send to it.
pub open spec fn goes_along(s: ProxyView, input: Input, token: usize) -> bool {
    &&& loses_other_end(s, input, token)
    &&& s.conns[token].queue.len() == 0
    &&& received(s, input, token).len() == 0
}

/// Whether the step creates the connection `token`.
pub open spec fn creates(s: ProxyView, input: Input, token: usize) -> bool {
    &&& input is Connected
    &&& input->opened
    &&& s.phase is Connecting
    &&& s.phase->Connecting_purpose is NewClient
    &&& s.free.len() > 1
    &&& token == s.free[0] || token == s.free[1]
}

/// Whether `token` enters the list of readable tokens.
pub open spec fn is_listed(s: ProxyView, input: Input, token: usize) -> bool {
    handles(s, input, token) && handled_events(s, input).readable && !handled_events(s, input).hup
}

/// Whether everything that `token` had to send is sent.
pub open spec fn all_sent(s: ProxyView, input: Input, token: usize) -> bool {
    ||| input is Ready && handles(s, input, token) && handled_events(s, input).writable
    ||| writes(s, input, token) && whole_buffer(s.conns[token], input->written)
        && s.conns[token].queue.len() == 1
}

/// Whether a flush of the readable tokens found the kernel exhausted for `token`.
pub open spec fn is_exhausted(s: ProxyView, input: Input, token: usize) -> bool {
    read_over(s, input, token) && s.phase->then is Flush && exhausts(input->read)
}

/// Whether a writable event says that `token` is connected.
pub open spec fn answers(s: ProxyView, input: Input, token: usize) -> bool {
    match input {
        Input::Ready { token: subject, events } => subject == token && events.writable
            && !events.error,
        _ => false,
    }
}

/// Whether `token` is to look for another server.
pub open spec fn gives_up(s: ProxyView, input: Input, token: usize) -> bool {
    !s.conns[token].connected && match input {
        Input::Ready { token: subject, events } => subject == token && events.error,
        Input::Timeout { token: subject } => subject == token,
        _ => false,
    }
}

/// Whether `token` gets a socket to another server.
pub open spec fn tries_again(s: ProxyView, input: Input, token: usize) -> bool {
    input is Connected && input->opened && s.phase is Connecting && s.phase->Connecting_purpose
        == (Purpose::Retry { token })
}

/// The send queue of `token` after the step.
pub open spec fn queue_after(s: ProxyView, input: Input, token: usize) -> Seq<Seq<u8>> {
    let queue = s.conns[token].queue;
    if writes(s, input, token) {
        match input->written {
            WriteOutcome::WouldBlock => queue,
            WriteOutcome::Wrote(n) => if n >= queue[0].len() {
                queue.drop_first()
            } else {
                seq![queue[0].skip(n as int)] + queue.drop_first()
            },
            WriteOutcome::Failed => seq![],
        }
    } else {
        queue + received(s, input, token)
    }
}

/// What the step makes of the connection `token`, where it stays.
spec fn kept_as(s: ProxyView, input: Input, token: usize, c: ConnectionView) -> bool {
    let before = s.conns[token];
    &&& c.token == before.token
    &&& c.end == if loses_other_end(s, input, token) {
        None
    } else {
        before.end
    }
    &&& c.connected == (before.connected || answers(s, input, token))
    &&& c.timeout == ((before.timeout && !gives_up(s, input, token)) || tries_again(
        s,
        input,
        token,
    ))
    &&& c.queue =~= queue_after(s, input, token)
    &&& c.interest.error == before.interest.error
    &&& c.interest.hup == before.interest.hup
    &&& c.interest.readable == if is_exhausted(s, input, token) {
        true
    } else if is_listed(s, input, token) || loses_other_end(s, input, token) {
        false
    } else {
        before.interest.readable
    }
    &&& c.interest.writable == if received(s, input, token).len() > 0 || loses_other_end(
        s,
        input,
        token,
    ) {
        true
    } else if all_sent(s, input, token) {
        false
    } else {
        before.interest.writable
    }
}

/// What the step does to the connection `token`.
spec fn treats(s: ProxyView, input: Input, token: usize) -> bool {
    let t = s.next(input);
    &&& t.live(token) <==> (s.live(token) && !ends(s, input, token) && !goes_along(
        s,
        input,
        token,
    )) || creates(s, input, token)
    &&& s.live(token) && t.live(token) ==> kept_as(s, input, token, t.conns[token])
}

#[verifier::rlimit(40)]
proof fn lemma_ready_treats(s: ProxyView, subject: usize, events: EventSet, token: usize)
    requires
        s.inv(),
        s.phase is Idle,
    ensures
        treats(s, Input::Ready { token: subject, events }, token),
{
    let input = Input::Ready { token: subject, events };
    if s.live(token) {
        assert(linked(s.conns, token) && s.conns[token].inv(token));
    }
    if s.live(subject) {
        assert(linked(s.conns, subject) && s.conns[subject].inv(subject));
    }
    if subject == LISTEN_TOKEN {
        assert(!s.live(subject));
    } else if events.error {
    } else if events.writable {
        if s.live(subject) && s.conns[subject].queue.len() == 0 {
            let connected = s.mark_connected(subject);
            let status = WriteStatus::Finished { flushed_everything: true };
            let flushed = connected.send_queue_flushed(subject, status);
            lemma_after_write_treats(flushed, subject, events);
        }
    } else {
        lemma_after_write_treats(s, subject, events);
    }
}

/// The connections after what follows a write.
proof fn lemma_after_write_treats(s: ProxyView, subject: usize, events: EventSet)
    ensures
        s.after_write(subject, events).conns == (if events.hup && events.readable {
            if s.live(subject) && s.conns[subject].end is Some && s.room(subject) == 0 {
                s.terminate_connection(subject).conns
            } else {
                s.conns
            }
        } else if events.readable && s.live(subject) {
            s.push_to_readable_tokens(subject).conns
        } else {
            s.conns
        }),
{
    if events.hup && events.readable {
        let t = s.terminate_connection(subject);
        lemma_flush_only_chooses(t, t.readable.len() as usize);
    } else if events.readable {
        if s.live(subject) {
            let t = s.push_to_readable_tokens(subject);
            lemma_flush_only_chooses(t, t.readable.len() as usize);
        }
    } else {
        lemma_flush_only_chooses(s, s.readable.len() as usize);
    }
}

/// The connection that is written to, once the write is over, and the others.
proof fn lemma_flushed_treats(s: ProxyView, written: WriteOutcome) -> (flushed: ProxyView)
    requires
        s.inv(),
        s.phase is Writing,
        handled(s, Input::Wrote { written }) is Some,
    ensures
        s.wrote(written) == flushed.after_write(s.phase->Writing_token, s.phase->Writing_events),
        ({
            let input = Input::Wrote { written };
            let subject = s.phase->Writing_token;
            let c = s.conns[subject];
            if said_everything(s, input, subject) {
                flushed.conns == s.conns.remove(subject)
            } else {
                flushed.conns == s.conns.insert(
                    subject,
                    ConnectionView {
                        queue: queue_after(s, input, subject),
                        interest: EventSet {
                            writable: c.interest.writable && !all_sent(s, input, subject),
                            ..c.interest
                        },
                        ..c
                    },
                )
            }
        }),
{
    let subject = s.phase->Writing_token;
    let c = s.conns[subject];
    let status = c.write_status(written);
    let w = s.put(subject, c.write_one_buf(written));
    assert(c.inv(subject));
    let flushed = w.send_queue_flushed(subject, status);
    assert(c.write_one_buf(written).queue =~= match written {
        WriteOutcome::Failed => c.queue.drop_first(),
        _ => queue_after(s, Input::Wrote { written }, subject),
    });
    if said_everything(s, Input::Wrote { written }, subject) {
        assert(flushed.conns =~= s.conns.remove(subject));
    } else {
        assert(flushed.conns[subject].queue =~= queue_after(s, Input::Wrote { written }, subject));
        assert(flushed.conns =~= s.conns.insert(subject, flushed.conns[subject]));
    }
    flushed
}

#[verifier::rlimit(40)]
proof fn lemma_wrote_treats(s: ProxyView, written: WriteOutcome, token: usize)
    requires
        s.inv(),
        s.phase is Writing,
    ensures
        treats(s, Input::Wrote { written }, token),
{
    let subject = s.phase->Writing_token;
    let c = s.conns[subject];
    if s.live(token) {
        assert(linked(s.conns, token) && s.conns[token].inv(token));
    }
    assert(linked(s.conns, subject) && c.inv(subject));
    if handled(s, Input::Wrote { written }) is Some {
        let flushed = lemma_flushed_treats(s, written);
        lemma_after_write_treats(flushed, subject, s.phase->Writing_events);
        if c.end is Some {
            let end = s.other_end(subject);
            assert(s.conns.contains_key(end) && s.conns[end].inv(end));
            assert(flushed.conns[end] == s.conns[end]);
        }
    } else {
        assert(c.queue.skip(1) =~= c.queue.drop_first());
    }
}

/// The connections after a read that is over.
proof fn lemma_read_finished_treats(
    s: ProxyView,
    token: usize,
    messages: Seq<Seq<u8>>,
    exhausted_kernel: bool,
    then: AfterRead,
)
    ensures
        ({
            let delivered = s.deliver(token, messages);
            let c = ConnectionView {
                interest: EventSet { readable: true, ..delivered.conns[token].interest },
                ..delivered.conns[token]
            };
            s.read_finished(token, messages, exhausted_kernel, then).conns == (match then {
                AfterRead::Terminate => delivered.terminate_connection(token).conns,
                AfterRead::Flush { .. } => if exhausted_kernel {
                    delivered.put(token, c).conns
                } else {
                    delivered.conns
                },
            })
        }),
{
    let delivered = s.deliver(token, messages);
    match then {
        AfterRead::Terminate => {
            let t = delivered.terminate_connection(token);
            lemma_flush_only_chooses(t, t.readable.len() as usize);
        },
        AfterRead::Flush { left } => {
            if exhausted_kernel {
                let c = ConnectionView {
                    interest: EventSet { readable: true, ..delivered.conns[token].interest },
                    ..delivered.conns[token]
                };
                lemma_flush_only_chooses(
                    delivered.put(token, c).emit(reregister(token, c)),
                    left,
                );
            } else {
                lemma_flush_only_chooses(
                    ProxyView { readable: delivered.readable.push(token), ..delivered },
                    left,
                );
            }
        },
    }
}

#[verifier::rlimit(40)]
proof fn lemma_read_treats(s: ProxyView, read: ReadOutcomeView, token: usize)
    requires
        s.inv(),
        s.phase is Reading,
    ensures
        treats(s, Input::Read { read }, token),
{
    let source = s.phase->Reading_token;
    let reading = s.phase->reading;
    if s.live(token) {
        assert(linked(s.conns, token) && s.conns[token].inv(token));
    }
    assert(linked(s.conns, source) && s.conns[source].inv(source));
    let end = s.other_end(source);
    assert(s.conns.contains_key(end) && s.conns[end].inv(end));
    match reading.status(read) {
        ReadStatus::Finished { exhausted_kernel } => {
            lemma_read_finished_treats(
                s,
                source,
                reading.read(read).messages,
                exhausted_kernel,
                s.phase->then,
            );
        },
        _ => {},
    }
}

proof fn lemma_connected_treats(s: ProxyView, opened: bool, token: usize)
    requires
        s.inv(),
        s.phase is Connecting,
    ensures
        treats(s, Input::Connected { opened }, token),
{
    if s.free.len() > 1 {
        assert(s.free.contains(s.free[0]) && s.free.contains(s.free[1]));
    }
    if s.live(token) {
        assert(!s.free.contains(token));
    }
}

proof fn lemma_treats(s: ProxyView, input: Input, token: usize)
    requires
        s.inv(),
        s.expects(input),
    ensures
        treats(s, input, token),
{
    match input {
        Input::Ready { token: subject, events } => lemma_ready_treats(s, subject, events, token),
        Input::Wrote { written } => lemma_wrote_treats(s, written, token),
        Input::Read { read } => lemma_read_treats(s, read, token),
        Input::Connected { opened } => lemma_connected_treats(s, opened, token),
        _ => {},
    }
}

/// A connection goes where it hung up and was read to the end, where an error is notified for it,
/// or where it has lost its other end and said everything. Its other end goes with it where
/// nothing is left to send to it. No other connection goes, and only a connect creates any.
pub proof fn law_who_goes_and_who_comes(s: ProxyView, input: Input, token: usize)
    requires
        s.inv(),
        s.expects(input),
    ensures
        s.next(input).live(token) <==> (s.live(token) && !ends(s, input, token) && !goes_along(
            s,
            input,
            token,
        )) || creates(s, input, token),
{
    lemma_treats(s, input, token);
}

/// A send queue changes only by what was read of the other end, which comes last, and by what the
/// kernel took, which is gone from the front. A write that fails empties it.
pub proof fn law_how_send_queues_change(s: ProxyView, input: Input, token: usize)
    requires
        s.inv(),
        s.expects(input),
        s.live(token),
        s.next(input).live(token),
    ensures
        s.next(input).conns[token].queue == queue_after(s, input, token),
{
    lemma_treats(s, input, token);
}

/// A connection loses its interest in readable events where it enters the list of readable tokens
/// or loses its other end, and regains it where a flush of that list exhausts the kernel. It gains
/// interest in writable events where something is queued for it or it loses its other end, and
/// loses it where everything is sent. Nothing else changes an interest.
pub proof fn law_how_interests_change(s: ProxyView, input: Input, token: usize)
    requires
        s.inv(),
        s.expects(input),
        s.live(token),
        s.next(input).live(token),
    ensures
        s.next(input).conns[token].interest.readable == if is_exhausted(s, input, token) {
            true
        } else if is_listed(s, input, token) || loses_other_end(s, input, token) {
            false
        } else {
            s.conns[token].interest.readable
        },
        s.next(input).conns[token].interest.writable == if received(s, input, token).len() > 0
            || loses_other_end(s, input, token) {
            true
        } else if all_sent(s, input, token) {
            false
        } else {
            s.conns[token].interest.writable
        },
        s.next(input).conns[token].interest.hup && s.next(input).conns[token].interest.error,
{
    assert(s.conns[token].inv(token));
    lemma_treats(s, input, token);
}

/// A connection keeps its other end until that one goes. It is connected from the first writable
/// event on. A timeout is forgotten where the connection looks for another server, and known again
/// where it got one.
pub proof fn law_how_links_and_answers_change(s: ProxyView, input: Input, token: usize)
    requires
        s.inv(),
        s.expects(input),
        s.live(token),
        s.next(input).live(token),
    ensures
        s.next(input).conns[token].token == token,
        s.next(input).conns[token].end == if loses_other_end(s, input, token) {
            None
        } else {
            s.conns[token].end
        },
        s.next(input).conns[token].connected == (s.conns[token].connected || answers(
            s,
            input,
            token,
        )),
        s.next(input).conns[token].timeout == ((s.conns[token].timeout && !gives_up(
            s,
            input,
            token,
        )) || tries_again(s, input, token)),
{
    assert(s.conns[token].inv(token));
    lemma_treats(s, input, token);
}

/// A read goes on as long as the kernel gives something and the send queue of the other end is not
/// full with what was gathered. Until then nothing else happens.
pub proof fn law_reads_go_on(s: ProxyView, bytes: Seq<u8>)
    requires
        s.inv(),
        s.phase is Reading,
        bytes.len() > 0,
        s.conns[s.other_end(s.phase->Reading_token)].queue.len()
            + s.phase->reading.messages.len() + 1 < MAX_BUFFERS_PER_CONNECTION,
    ensures
        s.next(Input::Read { read: ReadOutcomeView::Data(bytes) }) == (ProxyView {
            phase: PhaseView::Reading {
                token: s.phase->Reading_token,
                reading: ReadingView {
                    left: (MAX_BUFFERS_PER_CONNECTION - s.conns[s.other_end(
                        s.phase->Reading_token,
                    )].queue.len() - s.phase->reading.messages.len() - 1) as nat,
                    messages: s.phase->reading.messages.push(bytes),
                },
                then: s.phase->then,
            },
            ..s
        }),
{
    assert(linked(s.conns, s.phase->Reading_token));
}

/// A connection that hung up with something to read is read first, unless its other end has no
/// room, and is there until that read is over.
pub proof fn law_hang_ups_are_read(s: ProxyView, input: Input, token: usize)
    requires
        s.inv(),
        s.expects(input),
        handles(s, input, token),
        handled_events(s, input).hup,
        handled_events(s, input).readable,
        s.live(token),
        s.conns[token].end is Some,
        !is_full(s, token),
    ensures
        s.next(input).live(token),
        s.next(input).readable == s.readable,
        s.next(input).phase == (PhaseView::Reading {
            token,
            reading: ReadingView {
                left: (MAX_BUFFERS_PER_CONNECTION - s.conns[s.other_end(token)].queue.len()) as nat,
                messages: seq![],
            },
            then: AfterRead::Terminate,
        }),
{
    assert(linked(s.conns, token) && s.conns[token].inv(token));
    assert(s.conns.contains_key(s.other_end(token)));
}

/// A connection that hung up is terminated only after a read reported that the kernel is
/// exhausted, or once the send queue of its other end is full.
pub proof fn law_hung_up_connections_are_read_to_the_end(
    s: ProxyView,
    read: ReadOutcomeView,
    token: usize,
)
    requires
        s.inv(),
        s.phase is Reading,
        s.phase->Reading_token == token,
        s.phase->then is Terminate,
    ensures
        !s.next(Input::Read { read }).live(token) <==> !(read is Failed) && (exhausts(read)
            || s.conns[s.other_end(token)].queue.len() + gathered_with(
            s.phase->reading.messages,
            read,
        ).len() == MAX_BUFFERS_PER_CONNECTION),
        !s.next(Input::Read { read }).live(token) && s.next(Input::Read { read }).live(
            s.other_end(token),
        ) ==> s.next(Input::Read { read }).conns[s.other_end(token)].queue == s.conns[s.other_end(
            token,
        )].queue + gathered_with(s.phase->reading.messages, read),
{
    lemma_treats(s, Input::Read { read }, token);
    lemma_treats(s, Input::Read { read }, s.other_end(token));
    assert(linked(s.conns, token));
    assert(linked(s.conns, s.other_end(token)));
}

/// A read that fails is a fault, and nothing else happens.
pub proof fn law_failed_reads_are_faults(s: ProxyView)
    requires
        s.phase is Reading,
    ensures
        s.next(Input::Read { read: ReadOutcomeView::Failed }) == (ProxyView {
            phase: PhaseView::Aborted {
                fault: Fault::ReadFailed { token: s.phase->Reading_token },
            },
            ..s
        }),
{
}

/// An error of a connection that is connected ends it and nothing else: no token is looked at.
pub proof fn law_errors_end_connections(s: ProxyView, token: usize, events: EventSet)
    requires
        s.inv(),
        s.phase is Idle,
        s.live(token),
        s.conns[token].connected,
        events.error,
    ensures
        !s.next(Input::Ready { token, events }).live(token),
        s.next(Input::Ready { token, events }).phase is Idle,
        s.next(Input::Ready { token, events }).readable == s.readable,
{
    assert(token != LISTEN_TOKEN);
    assert(linked(s.conns, token));
}

/// Where nothing but the reading part of an event is left, a token that lost its other end, or
/// that is gone, cannot be read: that is a fault.
pub proof fn law_lone_connections_are_not_read(s: ProxyView, input: Input, token: usize)
    requires
        s.inv(),
        s.expects(input),
        handles(s, input, token),
        handled_events(s, input).readable,
    ensures
        !s.next(input).live(token) && !(hung_up(s, input, token) && s.conns[token].end is Some)
            ==> s.next(input).phase == (PhaseView::Aborted { fault: Fault::NoConnection { token } })
            && s.next(input).readable == s.readable,
        s.next(input).live(token) && handled_events(s, input).hup && s.conns[token].end is None
            ==> s.next(input).phase == (PhaseView::Aborted { fault: Fault::NoOtherEnd { token } })
            && s.next(input).readable == s.readable,
{
    lemma_treats(s, input, token);
    if s.live(token) {
        assert(linked(s.conns, token) && s.conns[token].inv(token));
    }
    match input {
        Input::Wrote { written } => {
            let status = s.conns[token].write_status(written);
            let w = s.put(token, s.conns[token].write_one_buf(written));
            assert(w.send_queue_flushed(token, status).readable == s.readable);
        },
        _ => {},
    }
}

/// An event of the listening socket always leads to an accept, whatever the connections and the
/// readable tokens are, and to nothing else.
pub proof fn law_listening_events_accept(s: ProxyView, events: EventSet)
    requires
        s.phase is Idle,
    ensures
        s.next(Input::Ready { token: LISTEN_TOKEN, events }) == (ProxyView {
            phase: PhaseView::Accepting,
            ..s
        }),
{
}

/// A client that was accepted always gets a backend server chosen for it, and accepting ends where
/// there is no client. Nothing else happens.
pub proof fn law_accepted_clients_want_a_server(s: ProxyView, accepted: AcceptOutcome)
    requires
        s.phase is Accepting,
    ensures
        s.next(Input::Accepted { accepted }) == (ProxyView {
            phase: if accepted is Client {
                PhaseView::Choosing { purpose: Purpose::NewClient }
            } else {
                PhaseView::Idle
            },
            ..s
        }),
{
}

/// The server that was chosen is the one to connect to, for the purpose it was chosen for. Without
/// a server there is nothing to go on with.
pub proof fn law_chosen_servers_are_connected_to(s: ProxyView, backend: Option<SocketAddr>)
    requires
        s.phase is Choosing,
    ensures
        s.next(Input::Chosen { backend }) == (ProxyView {
            phase: match backend {
                Some(addr) => PhaseView::Connecting { purpose: s.phase->Choosing_purpose, addr },
                None => PhaseView::Aborted { fault: Fault::NoBackend },
            },
            ..s
        }),
{
}

/// A connect that failed changes nothing: a new client is not served, and a connection that looks
/// for another server stays without one.
pub proof fn law_failed_connects_change_nothing(s: ProxyView)
    requires
        s.phase is Connecting,
    ensures
        s.next(Input::Connected { opened: false }) == (ProxyView { phase: PhaseView::Idle, ..s }),
{
}

/// A connection whose server does not answer, by a timeout or by an error, leaves the event loop
/// and wants another server, with no timeout known.
pub proof fn law_unanswered_connections_want_a_server(s: ProxyView, input: Input, token: usize)
    requires
        s.inv(),
        s.expects(input),
        s.live(token),
        gives_up(s, input, token),
    ensures
        s.next(input) == (ProxyView {
            conns: s.conns.insert(token, ConnectionView { timeout: false, ..s.conns[token] }),
            effects: s.effects + (if s.conns[token].timeout {
                seq![Effect::ClearTimeout { token }, Effect::Deregister { token }]
            } else {
                seq![Effect::Deregister { token }]
            }),
            phase: PhaseView::Choosing { purpose: Purpose::Retry { token } },
            ..s
        }),
{
    assert(token != LISTEN_TOKEN);
    assert(s.next(input).conns =~= s.conns.insert(
        token,
        ConnectionView { timeout: false, ..s.conns[token] },
    ));
    if s.conns[token].timeout {
        assert(s.next(input).effects =~= s.effects + seq![
            Effect::ClearTimeout { token },
            Effect::Deregister { token },
        ]);
    } else {
        assert(s.next(input).effects =~= s.effects + seq![Effect::Deregister { token }]);
    }
}

/// A connection that got a socket to another server is registered again with the interest it had,
/// and its timeout is armed again.
pub proof fn law_another_server_gets_another_timeout(s: ProxyView, token: usize)
    requires
        s.inv(),
        s.phase is Connecting,
        s.phase->Connecting_purpose == (Purpose::Retry { token }),
    ensures
        s.next(Input::Connected { opened: true }) == (ProxyView {
            conns: s.conns.insert(token, ConnectionView { timeout: true, ..s.conns[token] }),
            effects: s.effects + seq![
                Effect::Attach { token, socket: Socket::Opened },
                Effect::Register { token, interest: s.conns[token].interest },
                Effect::StartTimeout { token, ms: CONNECT_TIMEOUT_MS },
            ],
            phase: PhaseView::Idle,
            ..s
        }),
{
    assert(s.next(Input::Connected { opened: true }).effects =~= s.effects + seq![
        Effect::Attach { token, socket: Socket::Opened },
        Effect::Register { token, interest: s.conns[token].interest },
        Effect::StartTimeout { token, ms: CONNECT_TIMEOUT_MS },
    ]);
}

/// An event of a token that no connection has is a fault, unless it says nothing but that the
/// other side hung up.
pub proof fn law_events_of_strangers_are_faults(s: ProxyView, token: usize, events: EventSet)
    requires
        s.phase is Idle,
        !s.live(token),
        token != LISTEN_TOKEN,
        events.error || events.writable || events.readable,
    ensures
        s.next(Input::Ready { token, events }) == (ProxyView {
            phase: PhaseView::Aborted { fault: Fault::NoConnection { token } },
            ..s
        }),
{
}

/// A writable event asks for a write where there is something to send. The events that came with
/// it are dealt with once the write is over.
pub proof fn law_writable_events_write(s: ProxyView, token: usize, events: EventSet)
    requires
        s.inv(),
        s.phase is Idle,
        s.live(token),
        events.writable,
        !events.error,
        s.conns[token].queue.len() > 0,
    ensures
        s.next(Input::Ready { token, events }) == (ProxyView {
            conns: s.conns.insert(token, ConnectionView { connected: true, ..s.conns[token] }),
            effects: if s.conns[token].connected {
                s.effects
            } else {
                s.effects.push(Effect::Connected { token })
            },
            phase: PhaseView::Writing { token, events },
            ..s
        }),
{
    assert(token != LISTEN_TOKEN);
    assert(s.next(Input::Ready { token, events }).conns =~= s.conns.insert(
        token,
        ConnectionView { connected: true, ..s.conns[token] },
    ));
}

/// A write goes on as long as whole buffers go out and others wait. Nothing else happens.
pub proof fn law_writes_go_on(s: ProxyView, written: WriteOutcome)
    requires
        s.inv(),
        s.phase is Writing,
        whole_buffer(s.conns[s.phase->Writing_token], written),
        s.conns[s.phase->Writing_token].queue.len() > 1,
    ensures
        ({
            let token = s.phase->Writing_token;
            s.next(Input::Wrote { written }) == (ProxyView {
                conns: s.conns.insert(
                    token,
                    ConnectionView {
                        queue: s.conns[token].queue.drop_first(),
                        ..s.conns[token]
                    },
                ),
                ..s
            })
        }),
{
    let token = s.phase->Writing_token;
    assert(s.conns[token].queue.skip(1) =~= s.conns[token].queue.drop_first());
}

/// A new proxy has every token free, the first one first, and nothing else.
pub proof fn law_new_proxies_are_empty(i: int)
    requires
        0 <= i < MAX_CONNECTIONS,
    ensures
        ProxyView::initial().free.len() == MAX_CONNECTIONS,
        ProxyView::initial().free[i] == FIRST_TOKEN + i,
        ProxyView::initial().conns.dom() == Set::<usize>::empty(),
        ProxyView::initial().readable.len() == 0,
        ProxyView::initial().effects.len() == 0,
        ProxyView::initial().phase is Idle,
{
}

/// What one attempt to write takes out of a send queue, and whether a whole buffer went out. After
/// an error the buffer is lost.
pub proof fn law_one_attempt_to_write(c: ConnectionView, written: WriteOutcome)
    requires
        c.queue.len() > 0,
    ensures
        c.write_one_buf(written) == (ConnectionView {
            queue: match written {
                WriteOutcome::WouldBlock => c.queue,
                WriteOutcome::Wrote(n) => if n >= c.queue[0].len() {
                    c.queue.drop_first()
                } else {
                    seq![c.queue[0].skip(n as int)] + c.queue.drop_first()
                },
                WriteOutcome::Failed => c.queue.drop_first(),
            },
            ..c
        }),
        c.wrote_one_buf(written) is Err <==> written is Failed,
        c.wrote_one_buf(written) is Ok ==> c.wrote_one_buf(written)->Ok_0 == whole_buffer(
            c,
            written,
        ),
{
    assert(c.write_one_buf(written).queue =~= match written {
        WriteOutcome::WouldBlock => c.queue,
        WriteOutcome::Wrote(n) => if n >= c.queue[0].len() {
            c.queue.drop_first()
        } else {
            seq![c.queue[0].skip(n as int)] + c.queue.drop_first()
        },
        WriteOutcome::Failed => c.queue.drop_first(),
    });
}

/// There is nothing to write in an empty send queue, and nothing comes of it.
pub proof fn law_empty_queues_are_not_written(c: ConnectionView, written: WriteOutcome)
    requires
        c.queue.len() == 0,
    ensures
        c.write_one_buf(written) == c,
        c.wrote_one_buf(written) == Err::<bool, WriteError>(WriteError::EmptyQueue),
{
}

/// Messages are queued in their order behind those that wait, and nothing else changes but that
/// the connection is interested in writable events.
pub proof fn law_messages_queue_up(c: ConnectionView, messages: Seq<Seq<u8>>)
    ensures
        c.send_messages(messages).queue == c.queue + messages,
        c.send_messages(messages).interest == (EventSet { writable: true, ..c.interest }),
        c.send_messages(messages).token == c.token,
        c.send_messages(messages).end == c.end,
        c.send_messages(messages).connected == c.connected,
        c.send_messages(messages).timeout == c.timeout,
{
}

/// A read keeps what comes in, is over where the kernel is exhausted or no more may be read, and
/// says which of the two it was.
pub proof fn law_one_attempt_to_read(reading: ReadingView, read: ReadOutcomeView)
    requires
        reading.left > 0,
    ensures
        reading.read(read).messages == gathered_with(reading.messages, read),
        reading.read(read).left + reading.read(read).messages.len() == reading.left
            + reading.messages.len(),
        reading.status(read) is Failed <==> read is Failed,
        reading.status(read) == (ReadStatus::Finished { exhausted_kernel: true }) <==> exhausts(
            read,
        ),
        reading.status(read) == (ReadStatus::Finished { exhausted_kernel: false }) <==> !(
        read is Failed) && !exhausts(read) && reading.left == 1,
{
}

/// A new connection is interested only in errors and in the hang up, has nothing to send and no
/// other end.
pub proof fn law_new_connections_have_nothing(token: usize, connected: bool)
    ensures
        ({
            let c = ConnectionView::fresh(token, connected);
            &&& c.token == token
            &&& c.connected == connected
            &&& c.interest.error && c.interest.hup
            &&& !c.interest.readable && !c.interest.writable
            &&& c.queue.len() == 0
            &&& c.end is None
            &&& !c.timeout
        }),
{
}

/// A read that begins has gathered nothing and may gather as much as it was allowed.
pub proof fn law_reads_begin_with_nothing(nb_buffers: nat)
    ensures
        ReadingView::begin(nb_buffers).left == nb_buffers,
        ReadingView::begin(nb_buffers).messages.len() == 0,
{
}

} // verus!
