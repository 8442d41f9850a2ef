//! The tokens that wait to be read.
use vstd::prelude::*;

use crate::connection::{
    ConnectionView, ReadStatus, WriteOutcome, WriteStatus, MAX_BUFFERS_PER_CONNECTION,
};
use crate::consistency::{lemma_mark_connected, lemma_send_queue_flushed, lemma_written, linked};
use crate::events::EventSet;
use crate::laws::{lemma_flush_only_chooses, Input};
use crate::model::{reregister, AfterRead, PhaseView, ProxyView, LISTEN_TOKEN};

verus! {

/// Whether `token` waits to be read, or is being read by the flush of those that wait.
pub open spec fn waits(s: ProxyView, token: usize) -> bool {
    s.readable.contains(token) || match s.phase {
        PhaseView::Reading { token: source, then, .. } => source == token && then is Flush,
        _ => false,
    }
}

/// Whether the tokens that wait are listed once each and those of connections are not interested
/// in readable events. The token that is being read is on its way out of the list, and one that
/// is about to enter the list is not in it.
pub open spec fn quiet(s: ProxyView) -> bool {
    &&& quiet_list(s)
    &&& match s.phase {
        PhaseView::Reading { token, then, .. } => then is Flush ==> !s.readable.contains(token)
            && !s.conns[token].interest.readable,
        PhaseView::Writing { token, events } => events.readable ==> !s.readable.contains(token),
        _ => true,
    }
}

/// What [`quiet`] says of the list.
pub open spec fn quiet_list(s: ProxyView) -> bool {
    &&& s.readable.no_duplicates()
    &&& forall|token: usize| #[trigger]
        s.readable.contains(token) && s.live(token) ==> !s.conns[token].interest.readable
}

/// Whether an input is news for the list of readable tokens: a readable event comes for a token
/// that is not in it, and a new connection gets a token that is not in it.
pub open spec fn is_news(s: ProxyView, input: Input) -> bool {
    match input {
        Input::Ready { token, events } => events.readable ==> !s.readable.contains(token),
        Input::Connected { .. } => s.free.len() > 1 ==> !s.readable.contains(s.free[0])
            && !s.readable.contains(s.free[1]),
        _ => true,
    }
}

/// Whether an input says that there is something to read on `token`.
pub open spec fn announces(s: ProxyView, input: Input, token: usize) -> bool {
    match (input, s.phase) {
        (Input::Ready { token: subject, events }, _) => subject == token && events.readable,
        (Input::Wrote { .. }, PhaseView::Writing { token: subject, events }) => subject == token
            && events.readable,
        _ => false,
    }
}

/// An element is in a sequence that was rotated by one.
proof fn lemma_rotated(readable: Seq<usize>, token: usize)
    requires
        readable.len() > 0,
    ensures
        readable.skip(1).push(readable[0]).contains(token) <==> readable.contains(token),
        readable.no_duplicates() ==> readable.skip(1).push(readable[0]).no_duplicates(),
        readable.skip(1).contains(token) ==> readable.contains(token),
        readable.contains(token) && token != readable[0] ==> readable.skip(1).contains(token),
{
    let rotated = readable.skip(1).push(readable[0]);
    if readable.contains(token) {
        let i = choose|i: int| 0 <= i < readable.len() && readable[i] == token;
        if i == 0 {
            assert(rotated[readable.len() - 1] == token);
        } else {
            assert(rotated[i - 1] == token);
            assert(readable.skip(1)[i - 1] == token);
        }
    }
    if rotated.contains(token) {
        let i = choose|i: int| 0 <= i < rotated.len() && rotated[i] == token;
        if i == readable.len() - 1 {
            assert(readable[0] == token);
        } else {
            assert(readable[i + 1] == token);
        }
    }
}

proof fn lemma_pushed(readable: Seq<usize>, last: usize, token: usize)
    ensures
        readable.push(last).contains(token) <==> readable.contains(token) || token == last,
        readable.no_duplicates() && !readable.contains(last) ==> readable.push(
            last,
        ).no_duplicates(),
{
    let pushed = readable.push(last);
    assert(pushed[readable.len() as int] == last);
    if readable.contains(token) {
        let i = choose|i: int| 0 <= i < readable.len() && readable[i] == token;
        assert(pushed[i] == token);
    }
}

/// The flush of the readable tokens loses none of them and adds none.
proof fn lemma_flush_waits(s: ProxyView, left: usize, token: usize)
    ensures
        s.readable.contains(token) && !(s.flush_readable_tokens(left).phase is Aborted) ==> waits(
            s.flush_readable_tokens(left),
            token,
        ),
        waits(s.flush_readable_tokens(left), token) ==> s.readable.contains(token),
    decreases left,
{
    if left != 0 && s.readable.len() != 0 {
        let first = s.readable[0];
        lemma_rotated(s.readable, token);
        lemma_flush_waits(
            ProxyView { readable: s.readable.skip(1).push(first), ..s },
            (left - 1) as usize,
            token,
        );
    }
}

/// The flush of the readable tokens keeps a quiet list quiet.
proof fn lemma_flush_quiet(s: ProxyView, left: usize)
    requires
        quiet_list(s),
    ensures
        quiet(s.flush_readable_tokens(left)),
    decreases left,
{
    if left != 0 && s.readable.len() != 0 {
        let first = s.readable[0];
        let rotated = ProxyView { readable: s.readable.skip(1).push(first), ..s };
        lemma_rotated(s.readable, first);
        assert(s.readable.contains(first));
        assert(quiet_list(rotated)) by {
            assert forall|token: usize| #[trigger]
                rotated.readable.contains(token) && rotated.live(
                    token,
                ) implies !rotated.conns[token].interest.readable by {
                lemma_rotated(s.readable, token);
            }
        }
        lemma_flush_quiet(rotated, (left - 1) as usize);
        let popped = ProxyView { readable: s.readable.skip(1), ..s };
        assert(quiet_list(popped)) by {
            assert forall|token: usize| #[trigger]
                popped.readable.contains(token) && popped.live(
                    token,
                ) implies !popped.conns[token].interest.readable by {
                lemma_rotated(s.readable, token);
            }
        }
        assert(!popped.readable.contains(first)) by {
            if popped.readable.contains(first) {
                let i = choose|i: int|
                    0 <= i < popped.readable.len() && popped.readable[i] == first;
                assert(s.readable[i + 1] == s.readable[0]);
            }
        }
    }
}

proof fn lemma_deliver_list(s: ProxyView, token: usize, messages: Seq<Seq<u8>>)
    requires
        s.table_inv(),
        s.live(token),
        s.conns[token].end is Some,
    ensures
        s.deliver(token, messages).readable == s.readable,
        s.deliver(token, messages).conns[token] == s.conns[token],
        quiet_list(s) ==> quiet_list(s.deliver(token, messages)),
{
    assert(linked(s.conns, token));
}

proof fn lemma_terminate_list(s: ProxyView, token: usize)
    requires
        s.live(token),
        linked(s.conns, token),
    ensures
        s.terminate_connection(token).readable == s.readable,
        quiet_list(s) ==> quiet_list(s.terminate_connection(token)),
{
}

proof fn lemma_read_finished_waits(
    s: ProxyView,
    token: usize,
    messages: Seq<Seq<u8>>,
    exhausted_kernel: bool,
    then: AfterRead,
    other: usize,
)
    requires
        s.table_inv(),
        s.live(token),
        s.conns[token].end is Some,
    ensures
        ({
            let t = s.read_finished(token, messages, exhausted_kernel, then);
            &&& s.readable.contains(other) && !(t.phase is Aborted) ==> waits(t, other)
            &&& then is Flush && !exhausted_kernel && !(t.phase is Aborted) ==> waits(t, token)
            &&& then is Flush && exhausted_kernel ==> t.live(token)
                && t.conns[token].interest.readable
            &&& waits(t, other) ==> s.readable.contains(other) || (then is Flush && other == token)
        }),
{
    assert(linked(s.conns, token));
    let delivered = s.deliver(token, messages);
    lemma_deliver_list(s, token, messages);
    match then {
        AfterRead::Terminate => {
            let t = delivered.terminate_connection(token);
            lemma_terminate_list(delivered, token);
            lemma_flush_waits(t, t.readable.len() as usize, other);
        },
        AfterRead::Flush { left } => {
            if exhausted_kernel {
                let c = ConnectionView {
                    interest: EventSet { readable: true, ..delivered.conns[token].interest },
                    ..delivered.conns[token]
                };
                let t = delivered.put(token, c).emit(reregister(token, c));
                lemma_flush_waits(t, left, other);
                lemma_flush_only_chooses(t, left);
            } else {
                let t = ProxyView { readable: delivered.readable.push(token), ..delivered };
                lemma_pushed(delivered.readable, token, other);
                lemma_pushed(delivered.readable, token, token);
                lemma_flush_waits(t, left, other);
                lemma_flush_waits(t, left, token);
            }
        },
    }
}

proof fn lemma_after_write_waits(s: ProxyView, token: usize, events: EventSet, other: usize)
    requires
        s.table_inv(),
    ensures
        ({
            let t = s.after_write(token, events);
            &&& s.readable.contains(other) && !(t.phase is Aborted) ==> waits(t, other)
            &&& waits(t, other) ==> s.readable.contains(other) || (events.readable && other
                == token)
        }),
{
    if events.hup && events.readable {
        if s.live(token) && s.conns[token].end is Some && s.room(token) == 0 {
            lemma_read_finished_waits(s, token, seq![], false, AfterRead::Terminate, other);
        }
    } else if events.readable {
        if s.live(token) {
            let t = s.push_to_readable_tokens(token);
            lemma_pushed(s.readable, token, other);
            lemma_flush_waits(t, t.readable.len() as usize, other);
        }
    } else {
        lemma_flush_waits(s, s.readable.len() as usize, other);
    }
}

proof fn lemma_send_queue_flushed_list(s: ProxyView, token: usize, status: WriteStatus)
    requires
        s.live(token),
        linked(s.conns, token),
    ensures
        s.send_queue_flushed(token, status).readable == s.readable,
        s.send_queue_flushed(token, status).phase == s.phase,
        quiet_list(s) ==> quiet_list(s.send_queue_flushed(token, status)),
{
    let flushed = match status {
        WriteStatus::Finished { flushed_everything } => if flushed_everything {
            let c = ConnectionView {
                interest: EventSet { writable: false, ..s.conns[token].interest },
                ..s.conns[token]
            };
            s.put(token, c).emit(reregister(token, c))
        } else {
            s
        },
        _ => s.put(token, ConnectionView { queue: seq![], ..s.conns[token] }),
    };
    assert(quiet_list(s) ==> quiet_list(flushed));
    if flushed.conns[token].queue.len() == 0 && flushed.conns[token].end is None {
        lemma_terminate_list(flushed, token);
    }
}

/// A writable event on a connection that has nothing to send.
proof fn lemma_idle_write(s: ProxyView, token: usize) -> (flushed: ProxyView)
    requires
        s.table_inv(),
        s.live(token),
        s.conns[token].queue.len() == 0,
        s.phase is Idle,
    ensures
        forall|events: EventSet| #[trigger]
            s.handle_write_event(token, events) == flushed.after_write(token, events),
        flushed.table_inv(),
        flushed.readable == s.readable,
        flushed.phase is Idle,
        quiet_list(s) ==> quiet_list(flushed),
{
    let connected = s.mark_connected(token);
    lemma_mark_connected(s, token);
    assert(quiet_list(s) ==> quiet_list(connected));
    let status = WriteStatus::Finished { flushed_everything: true };
    lemma_send_queue_flushed(connected, token, status);
    lemma_send_queue_flushed_list(connected, token, status);
    connected.send_queue_flushed(token, status)
}

proof fn lemma_ready_waits(s: ProxyView, subject: usize, events: EventSet, token: usize)
    requires
        s.inv(),
        s.phase is Idle,
    ensures
        ({
            let t = s.ready(subject, events);
            &&& s.readable.contains(token) && !(t.phase is Aborted) ==> waits(t, token)
            &&& waits(t, token) ==> s.readable.contains(token) || (events.readable && subject
                == token)
        }),
{
    if subject == LISTEN_TOKEN {
    } else if events.error {
        if s.live(subject) && s.conns[subject].connected {
            assert(linked(s.conns, subject));
            lemma_terminate_list(s, subject);
        }
    } else if events.writable {
        if s.live(subject) && s.conns[subject].queue.len() == 0 {
            let flushed = lemma_idle_write(s, subject);
            lemma_after_write_waits(flushed, subject, events, token);
        }
    } else {
        lemma_after_write_waits(s, subject, events, token);
    }
}

proof fn lemma_wrote_waits(s: ProxyView, written: WriteOutcome, token: usize)
    requires
        s.inv(),
        s.phase is Writing,
    ensures
        ({
            let t = s.wrote(written);
            &&& s.readable.contains(token) && !(t.phase is Aborted) ==> waits(t, token)
            &&& waits(t, token) ==> s.readable.contains(token) || (s.phase->Writing_events.readable
                && s.phase->Writing_token == token)
        }),
{
    let subject = s.phase->Writing_token;
    let events = s.phase->Writing_events;
    let status = s.conns[subject].write_status(written);
    let w = s.put(subject, s.conns[subject].write_one_buf(written));
    assert(linked(s.conns, subject));
    if !(status is More) {
        lemma_written(s, subject, written);
        lemma_send_queue_flushed_list(w, subject, status);
        lemma_after_write_waits(w.send_queue_flushed(subject, status), subject, events, token);
    }
}

/// A token that waits to be read waits until the kernel has nothing more to give, and is then
/// interested in readable events again.
pub proof fn law_tokens_wait_until_exhausted(s: ProxyView, input: Input, token: usize)
    requires
        s.inv(),
        s.expects(input),
        waits(s, token),
        !(s.next(input).phase is Aborted),
    ensures
        waits(s.next(input), token) || ({
            &&& input is Read
            &&& s.phase->Reading_token == token
            &&& s.phase->reading.status(input->read) == (ReadStatus::Finished {
                exhausted_kernel: true,
            })
            &&& s.next(input).live(token)
            &&& s.next(input).conns[token].interest.readable
        }),
{
    match input {
        Input::Ready { token: subject, events } => lemma_ready_waits(s, subject, events, token),
        Input::Wrote { written } => lemma_wrote_waits(s, written, token),
        Input::Read { read } => {
            match s.phase->reading.status(read) {
                ReadStatus::Finished { exhausted_kernel } => {
                    lemma_read_finished_waits(
                        s,
                        s.phase->Reading_token,
                        s.phase->reading.read(read).messages,
                        exhausted_kernel,
                        s.phase->then,
                        token,
                    );
                },
                _ => {},
            }
        },
        _ => {},
    }
}

/// A token begins to wait only where an event said that there is something to read.
pub proof fn law_only_announced_tokens_wait(s: ProxyView, input: Input, token: usize)
    requires
        s.inv(),
        s.expects(input),
        waits(s.next(input), token),
    ensures
        waits(s, token) || announces(s, input, token),
{
    match input {
        Input::Ready { token: subject, events } => lemma_ready_waits(s, subject, events, token),
        Input::Wrote { written } => lemma_wrote_waits(s, written, token),
        Input::Read { read } => {
            match s.phase->reading.status(read) {
                ReadStatus::Finished { exhausted_kernel } => {
                    lemma_read_finished_waits(
                        s,
                        s.phase->Reading_token,
                        s.phase->reading.read(read).messages,
                        exhausted_kernel,
                        s.phase->then,
                        token,
                    );
                },
                _ => {},
            }
        },
        _ => {},
    }
}

proof fn lemma_read_finished_quiet(
    s: ProxyView,
    token: usize,
    messages: Seq<Seq<u8>>,
    exhausted_kernel: bool,
    then: AfterRead,
)
    requires
        s.table_inv(),
        s.live(token),
        s.conns[token].end is Some,
        quiet_list(s),
        then is Flush ==> !s.readable.contains(token) && !s.conns[token].interest.readable,
    ensures
        quiet(s.read_finished(token, messages, exhausted_kernel, then)),
{
    assert(linked(s.conns, token));
    let delivered = s.deliver(token, messages);
    lemma_deliver_list(s, token, messages);
    match then {
        AfterRead::Terminate => {
            let t = delivered.terminate_connection(token);
            lemma_terminate_list(delivered, token);
            lemma_flush_quiet(t, t.readable.len() as usize);
        },
        AfterRead::Flush { left } => {
            if exhausted_kernel {
                let c = ConnectionView {
                    interest: EventSet { readable: true, ..delivered.conns[token].interest },
                    ..delivered.conns[token]
                };
                lemma_flush_quiet(delivered.put(token, c).emit(reregister(token, c)), left);
            } else {
                let t = ProxyView { readable: delivered.readable.push(token), ..delivered };
                lemma_pushed_quiet(delivered, t, token);
                lemma_flush_quiet(t, left);
            }
        },
    }
}

/// A quiet token enters the list.
proof fn lemma_pushed_quiet(s: ProxyView, t: ProxyView, token: usize)
    requires
        quiet_list(s),
        !s.readable.contains(token),
        t.readable == s.readable.push(token),
        t.live(token) ==> !t.conns[token].interest.readable,
        forall|other: usize| #[trigger]
            t.conns.contains_key(other) && other != token ==> s.live(other)
                && t.conns[other].interest.readable == s.conns[other].interest.readable,
    ensures
        quiet_list(t),
{
    lemma_pushed(s.readable, token, token);
    assert forall|other: usize| #[trigger]
        t.readable.contains(other) && t.live(other) implies !t.conns[other].interest.readable by {
        lemma_pushed(s.readable, token, other);
    }
}

proof fn lemma_after_write_quiet(s: ProxyView, token: usize, events: EventSet)
    requires
        s.table_inv(),
        quiet_list(s),
        events.readable ==> !s.readable.contains(token),
    ensures
        quiet(s.after_write(token, events)),
{
    if events.hup && events.readable {
        if s.live(token) && s.conns[token].end is Some && s.room(token) == 0 {
            lemma_read_finished_quiet(s, token, seq![], false, AfterRead::Terminate);
        }
    } else if events.readable {
        if s.live(token) {
            let t = s.push_to_readable_tokens(token);
            lemma_pushed_quiet(s, t, token);
            lemma_flush_quiet(t, t.readable.len() as usize);
        }
    } else {
        lemma_flush_quiet(s, s.readable.len() as usize);
    }
}

/// A token in the list of readable tokens is not interested in readable events, as long as no
/// readable event comes for a token that is already in the list, and no new connection gets the
/// token of one that went while it was in the list.
pub proof fn law_waiting_tokens_are_quiet(s: ProxyView, input: Input)
    requires
        s.inv(),
        s.expects(input),
        quiet(s),
        is_news(s, input),
    ensures
        quiet(s.next(input)),
{
    match input {
        Input::Ready { token, events } => {
            if token == LISTEN_TOKEN {
            } else if events.error {
                if s.live(token) && s.conns[token].connected {
                    assert(linked(s.conns, token));
                    lemma_terminate_list(s, token);
                }
            } else if events.writable {
                if s.live(token) && s.conns[token].queue.len() == 0 {
                    let flushed = lemma_idle_write(s, token);
                    lemma_after_write_quiet(flushed, token, events);
                }
            } else {
                lemma_after_write_quiet(s, token, events);
            }
        },
        Input::Wrote { written } => {
            let token = s.phase->Writing_token;
            let events = s.phase->Writing_events;
            let status = s.conns[token].write_status(written);
            let w = s.put(token, s.conns[token].write_one_buf(written));
            assert(linked(s.conns, token));
            assert(quiet_list(w));
            if !(status is More) {
                lemma_written(s, token, written);
                lemma_send_queue_flushed_list(w, token, status);
                lemma_after_write_quiet(w.send_queue_flushed(token, status), token, events);
            }
        },
        Input::Read { read } => {
            match s.phase->reading.status(read) {
                ReadStatus::Finished { exhausted_kernel } => {
                    lemma_read_finished_quiet(
                        s,
                        s.phase->Reading_token,
                        s.phase->reading.read(read).messages,
                        exhausted_kernel,
                        s.phase->then,
                    );
                },
                _ => {},
            }
        },
        _ => {},
    }
}

/// Whether `token` can be looked at by a flush that has no room for what it would deliver.
pub open spec fn has_no_room(s: ProxyView, token: usize) -> bool {
    s.live(token) && s.conns[token].end is Some && s.conns[s.conns[token].end->0].queue.len()
        == MAX_BUFFERS_PER_CONNECTION
}

proof fn lemma_flush_without_room(s: ProxyView, left: usize)
    requires
        left <= s.readable.len(),
        forall|token: usize| #[trigger] s.readable.contains(token) ==> has_no_room(s, token),
    ensures
        s.flush_readable_tokens(left) == (ProxyView {
            readable: s.readable.skip(left as int) + s.readable.take(left as int),
            phase: PhaseView::Idle,
            ..s
        }),
    decreases left,
{
    if left == 0 {
        assert(s.readable.skip(0) + s.readable.take(0) =~= s.readable);
    } else {
        let first = s.readable[0];
        assert(s.readable.contains(first));
        assert(has_no_room(s, first));
        let rotated = ProxyView { readable: s.readable.skip(1).push(first), ..s };
        assert forall|token: usize| #[trigger]
            rotated.readable.contains(token) implies has_no_room(rotated, token) by {
            lemma_rotated(s.readable, token);
            assert(has_no_room(s, token));
        }
        let l = (left - 1) as usize;
        lemma_flush_without_room(rotated, l);
        assert(rotated.readable.skip(l as int) + rotated.readable.take(l as int)
            =~= s.readable.skip(left as int) + s.readable.take(left as int));
    }
}

/// Where no token that waits has room for a read, a flush looks at each of them once and leaves
/// the list as it was.
pub proof fn law_flush_without_room_changes_nothing(s: ProxyView)
    requires
        s.phase is Idle,
        s.readable.len() <= usize::MAX,
        forall|token: usize| #[trigger] s.readable.contains(token) ==> has_no_room(s, token),
    ensures
        s.flush_all_readable_tokens() == s,
{
    let count = s.readable.len() as usize;
    lemma_flush_without_room(s, count);
    assert(s.readable.skip(count as int) + s.readable.take(count as int) =~= s.readable);
}

/// What is left to do for an event that is being dealt with: first writes, then the read of a
/// connection that hung up, then the flush of the readable tokens.
pub open spec fn work(s: ProxyView) -> (nat, nat, nat) {
    match s.phase {
        PhaseView::Writing { token, .. } => (2, s.conns[token].queue.len(), 0),
        PhaseView::Reading { reading, then, .. } => match then {
            AfterRead::Terminate => (1, 0, reading.left),
            AfterRead::Flush { left } => (0, left as nat, reading.left),
        },
        _ => (0, 0, 0),
    }
}

/// Whether the first of two amounts of work is the smaller one.
pub open spec fn less_work(a: (nat, nat, nat), b: (nat, nat, nat)) -> bool {
    a.0 < b.0 || (a.0 == b.0 && (a.1 < b.1 || (a.1 == b.1 && a.2 < b.2)))
}

/// Whether an event is dealt with.
pub open spec fn is_done(s: ProxyView) -> bool {
    s.phase is Idle || s.phase is Aborted
}

/// A flush is over, or goes on with fewer tokens.
proof fn lemma_flush_progress(s: ProxyView, left: usize)
    ensures
        ({
            let t = s.flush_readable_tokens(left);
            is_done(t) || (t.phase is Reading && work(t).0 == 0 && work(t).1 < left)
        }),
    decreases left,
{
    if left != 0 && s.readable.len() != 0 {
        lemma_flush_progress(
            ProxyView { readable: s.readable.skip(1).push(s.readable[0]), ..s },
            (left - 1) as usize,
        );
    }
}

proof fn lemma_after_write_progress(s: ProxyView, token: usize, events: EventSet)
    ensures
        ({
            let t = s.after_write(token, events);
            is_done(t) || (t.phase is Reading && work(t).0 < 2)
        }),
{
    if events.hup && events.readable {
        if s.live(token) && s.conns[token].end is Some && s.room(token) == 0 {
            let t = s.terminate_connection(token);
            lemma_flush_progress(t, t.readable.len() as usize);
        }
    } else if events.readable {
        if s.live(token) {
            let t = s.push_to_readable_tokens(token);
            lemma_flush_progress(t, t.readable.len() as usize);
        }
    } else {
        lemma_flush_progress(s, s.readable.len() as usize);
    }
}

/// An event is dealt with in finitely many operations: after every write and every read that the
/// proxy asked for, it is done with the event or has less work left.
pub proof fn law_events_are_dealt_with(s: ProxyView, input: Input)
    requires
        s.inv(),
        s.expects(input),
        input is Wrote || input is Read,
    ensures
        is_done(s.next(input)) || less_work(work(s.next(input)), work(s)),
{
    match input {
        Input::Wrote { written } => {
            let token = s.phase->Writing_token;
            let events = s.phase->Writing_events;
            let status = s.conns[token].write_status(written);
            let w = s.put(token, s.conns[token].write_one_buf(written));
            if !(status is More) {
                lemma_after_write_progress(w.send_queue_flushed(token, status), token, events);
            }
        },
        Input::Read { read } => {
            let token = s.phase->Reading_token;
            let gathered = s.phase->reading.read(read);
            match s.phase->reading.status(read) {
                ReadStatus::Finished { exhausted_kernel } => {
                    let delivered = s.deliver(token, gathered.messages);
                    match s.phase->then {
                        AfterRead::Terminate => {
                            let t = delivered.terminate_connection(token);
                            lemma_flush_progress(t, t.readable.len() as usize);
                        },
                        AfterRead::Flush { left } => {
                            if exhausted_kernel {
                                let c = ConnectionView {
                                    interest: EventSet {
                                        readable: true,
                                        ..delivered.conns[token].interest
                                    },
                                    ..delivered.conns[token]
                                };
                                lemma_flush_progress(
                                    delivered.put(token, c).emit(reregister(token, c)),
                                    left,
                                );
                            } else {
                                lemma_flush_progress(
                                    ProxyView {
                                        readable: delivered.readable.push(token),
                                        ..delivered
                                    },
                                    left,
                                );
                            }
                        },
                    }
                },
                _ => {},
            }
        },
        _ => {},
    }
}

/// A new proxy has no token that waits.
pub proof fn law_new_proxy_is_quiet()
    ensures
        quiet(ProxyView::initial()),
{
}

} // verus!
