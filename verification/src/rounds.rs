//! Every event goes round all the tokens that wait to be read.
use vstd::prelude::*;

use crate::connection::{
    ConnectionView, ReadOutcomeView, ReadingView, WriteStatus, MAX_BUFFERS_PER_CONNECTION,
};
use crate::consistency::{
    all_filled, lemma_deliver, lemma_mark_connected, lemma_push_to_readable_tokens, lemma_put,
    lemma_send_queue_flushed, lemma_terminate, lemma_written, linked,
};
use crate::events::EventSet;
use crate::laws::{law_steps_keep_consistency, lemma_flush_only_chooses, Input};
use crate::model::{reregister, AfterRead, Fault, PhaseView, ProxyView, LISTEN_TOKEN};
use crate::steps::{
    exhausts, handled, handled_events, is_full, law_events_of_strangers_are_faults,
    law_failed_reads_are_faults, law_hang_ups_are_read, law_how_links_and_answers_change,
    law_how_send_queues_change, law_lone_connections_are_not_read, law_reads_go_on,
    law_who_goes_and_who_comes, law_writable_events_write, law_writes_go_on, read_over,
    said_everything,
};
use crate::waiting::has_no_room;

verus! {

/// Whether the step goes through the readable tokens, or on with it: a read is over, or nothing is
/// left of an event but to look at the tokens that wait.
pub open spec fn flushes(s: ProxyView, input: Input) -> bool {
    ||| s.phase is Reading && read_over(s, input, s.phase->Reading_token)
    ||| handled(s, input) is Some && {
        let token = (handled(s, input)->0).0;
        let events = handled_events(s, input);
        if events.readable && events.hup {
            s.live(token) && s.conns[token].end is Some && is_full(s, token)
        } else if events.readable {
            s.live(token) && !said_everything(s, input, token)
        } else {
            true
        }
    }
}

/// The tokens that wait when the step goes through them. A token that is readable comes last, and
/// so does one that was read without exhausting the kernel.
pub open spec fn list_to_flush(s: ProxyView, input: Input) -> Seq<usize> {
    if input is Read {
        if s.phase->then is Flush && !exhausts(input->read) {
            s.readable.push(s.phase->Reading_token)
        } else {
            s.readable
        }
    } else if handled_events(s, input).readable && !handled_events(s, input).hup {
        s.readable.push((handled(s, input)->0).0)
    } else {
        s.readable
    }
}

/// How many of them are to be looked at: all of them where the step begins to go through the list,
/// and those that are left where it goes on.
pub open spec fn count_to_flush(s: ProxyView, input: Input) -> nat {
    if input is Read && s.phase->then is Flush {
        s.phase->then->left as nat
    } else {
        list_to_flush(s, input).len()
    }
}

/// Whether `t` comes of looking at the first `count` tokens of `list`, in their order. The first
/// `looked` have no room and go to the end of the list. The one after them is read, as far as its
/// other end has room, or cannot be read at all; or there is none.
pub open spec fn looked_through(
    t: ProxyView,
    list: Seq<usize>,
    count: nat,
    looked: int,
) -> bool {
    &&& 0 <= looked <= count <= list.len()
    &&& forall|i: int| 0 <= i < looked ==> has_no_room(t, #[trigger] list[i])
    &&& match t.phase {
        PhaseView::Idle => looked == count && t.readable == list.skip(looked) + list.take(looked),
        PhaseView::Reading { token, reading, then } => {
            &&& looked < count
            &&& token == list[looked]
            &&& t.live(token)
            &&& t.conns[token].end is Some
            &&& !is_full(t, token)
            &&& reading == (ReadingView {
                left: (MAX_BUFFERS_PER_CONNECTION - t.conns[t.other_end(token)].queue.len()) as nat,
                messages: seq![],
            })
            &&& then == (AfterRead::Flush { left: (count - looked - 1) as usize })
            &&& t.readable == list.skip(looked + 1) + list.take(looked)
        },
        PhaseView::Aborted { fault: Fault::NoConnection { token } } => {
            &&& looked < count
            &&& token == list[looked]
            &&& !t.live(token)
            &&& t.readable == list.skip(looked + 1) + list.take(looked)
        },
        PhaseView::Aborted { fault: Fault::NoOtherEnd { token } } => {
            &&& looked < count
            &&& token == list[looked]
            &&& t.live(token)
            &&& t.conns[token].end is None
            &&& t.readable == list.skip(looked + 1) + list.take(looked)
        },
        _ => false,
    }
}

proof fn lemma_looked_through(s: ProxyView, left: usize) -> (looked: int)
    requires
        s.table_inv(),
        left <= s.readable.len(),
    ensures
        looked_through(s.flush_readable_tokens(left), s.readable, left as nat, looked),
    decreases left,
{
    let t = s.flush_readable_tokens(left);
    let list = s.readable;
    lemma_flush_only_chooses(s, left);
    if left == 0 {
        assert(list.skip(0) + list.take(0) =~= list);
        0
    } else {
        let first = list[0];
        if s.live(first) && s.conns[first].end is Some {
            assert(linked(s.conns, first));
            let end = s.other_end(first);
            assert(s.conns.contains_key(end) && s.conns[end].inv(end));
        }
        if has_no_room(s, first) {
            let rotated = ProxyView { readable: list.skip(1).push(first), ..s };
            let l = (left - 1) as usize;
            let looked = lemma_looked_through(rotated, l);
            let list2 = rotated.readable;
            assert forall|i: int| 0 <= i < looked + 1 implies has_no_room(
                t,
                #[trigger] list[i],
            ) by {
                if i > 0 {
                    assert(list2[i - 1] == list[i]);
                }
            }
            assert(list2.skip(looked) + list2.take(looked) =~= list.skip(looked + 1) + list.take(
                looked + 1,
            ));
            if looked < l {
                assert(list2[looked] == list[looked + 1]);
                assert(list2.skip(looked + 1) + list2.take(looked) =~= list.skip(looked + 2)
                    + list.take(looked + 1));
            }
            looked + 1
        } else {
            assert(list.skip(1) + list.take(0) =~= list.skip(1));
            0
        }
    }
}

proof fn lemma_after_write_flush(s: ProxyView, token: usize, events: EventSet) -> (looked: int)
    requires
        s.table_inv(),
        s.readable.len() < usize::MAX,
        events.readable && events.hup ==> s.live(token) && s.conns[token].end is Some && is_full(
            s,
            token,
        ),
        events.readable ==> s.live(token),
    ensures
        looked_through(
            s.after_write(token, events),
            if events.readable && !events.hup {
                s.readable.push(token)
            } else {
                s.readable
            },
            if events.readable && !events.hup {
                s.readable.len() + 1
            } else {
                s.readable.len()
            },
            looked,
        ),
{
    if events.hup && events.readable {
        assert(linked(s.conns, token));
        let end = s.other_end(token);
        assert(s.conns.contains_key(end) && s.conns[end].inv(end));
        lemma_terminate(s, token);
        let t = s.terminate_connection(token);
        lemma_looked_through(t, t.readable.len() as usize)
    } else if events.readable {
        lemma_push_to_readable_tokens(s, token);
        let t = s.push_to_readable_tokens(token);
        lemma_looked_through(t, t.readable.len() as usize)
    } else {
        lemma_looked_through(s, s.readable.len() as usize)
    }
}

proof fn lemma_read_flush(s: ProxyView, read: ReadOutcomeView) -> (looked: int)
    requires
        s.inv(),
        s.phase is Reading,
        s.readable.len() < usize::MAX,
        read_over(s, Input::Read { read }, s.phase->Reading_token),
    ensures
        looked_through(
            s.next(Input::Read { read }),
            list_to_flush(s, Input::Read { read }),
            count_to_flush(s, Input::Read { read }),
            looked,
        ),
{
    let token = s.phase->Reading_token;
    let messages = s.phase->reading.read(read).messages;
    assert(linked(s.conns, token) && s.conns[token].inv(token));
    let end = s.other_end(token);
    assert(s.conns.contains_key(end) && s.conns[end].inv(end));
    assert(all_filled(messages));
    lemma_deliver(s, token, messages);
    let delivered = s.deliver(token, messages);
    assert(delivered.conns[token].inv(token));
    match s.phase->then {
        AfterRead::Terminate => {
            lemma_terminate(delivered, token);
            let t = delivered.terminate_connection(token);
            lemma_looked_through(t, t.readable.len() as usize)
        },
        AfterRead::Flush { left } => {
            if exhausts(read) {
                let c = ConnectionView {
                    interest: EventSet { readable: true, ..delivered.conns[token].interest },
                    ..delivered.conns[token]
                };
                lemma_put(delivered, token, c);
                lemma_looked_through(
                    delivered.put(token, c).emit(reregister(token, c)),
                    left,
                )
            } else {
                lemma_looked_through(
                    ProxyView { readable: delivered.readable.push(token), ..delivered },
                    left,
                )
            }
        },
    }
}

/// A step goes through the tokens that wait in their order: it looks at as many as are to be looked
/// at, stops only at one that it reads or cannot read, and then says how many are left.
pub proof fn law_flushes_go_through_the_list(s: ProxyView, input: Input)
    requires
        s.inv(),
        s.expects(input),
        flushes(s, input),
        s.readable.len() < usize::MAX,
    ensures
        exists|looked: int|
            looked_through(
                s.next(input),
                list_to_flush(s, input),
                count_to_flush(s, input),
                looked,
            ),
{
    match input {
        Input::Ready { token, events } => {
            if events.writable {
                lemma_mark_connected(s, token);
                let status = WriteStatus::Finished { flushed_everything: true };
                let connected = s.mark_connected(token);
                let flushed = connected.send_queue_flushed(token, status);
                lemma_send_queue_flushed(connected, token, status);
                assert(s.conns[token].inv(token) && linked(s.conns, token));
                assert(flushed.readable == s.readable && flushed.live(token));
                let looked = lemma_after_write_flush(flushed, token, events);
                assert(s.next(input) == flushed.after_write(token, events));
                assert(looked_through(
                    s.next(input),
                    list_to_flush(s, input),
                    count_to_flush(s, input),
                    looked,
                ));
            } else {
                let looked = lemma_after_write_flush(s, token, events);
                assert(looked_through(
                    s.next(input),
                    list_to_flush(s, input),
                    count_to_flush(s, input),
                    looked,
                ));
            }
        },
        Input::Wrote { written } => {
            let token = s.phase->Writing_token;
            let status = s.conns[token].write_status(written);
            let w = s.put(token, s.conns[token].write_one_buf(written));
            assert(linked(s.conns, token) && s.conns[token].inv(token));
            lemma_written(s, token, written);
            let flushed = w.send_queue_flushed(token, status);
            assert(flushed.readable == s.readable);
            let looked = lemma_after_write_flush(flushed, token, s.phase->Writing_events);
            assert(s.next(input) == flushed.after_write(token, s.phase->Writing_events));
            assert(looked_through(
                s.next(input),
                list_to_flush(s, input),
                count_to_flush(s, input),
                looked,
            ));
        },
        Input::Read { read } => {
            let looked = lemma_read_flush(s, read);
        },
        _ => {},
    }
}

/// The state after several inputs, the oldest first.
pub open spec fn run(s: ProxyView, inputs: Seq<Input>) -> ProxyView
    decreases inputs.len(),
{
    if inputs.len() == 0 {
        s
    } else {
        run(s, inputs.drop_last()).next(inputs.last())
    }
}

/// Whether the inputs are an event of the event loop and the outcomes that follow it, each of which
/// the proxy waited for. (No list is too long to be counted.)
pub open spec fn deals_with_event(s: ProxyView, inputs: Seq<Input>) -> bool {
    &&& s.phase is Idle
    &&& inputs.len() > 0
    &&& inputs[0] is Ready
    &&& forall|i: int|
        0 <= i < inputs.len() ==> {
            &&& (#[trigger] run(s, inputs.take(i))).expects(inputs[i])
            &&& run(s, inputs.take(i)).readable.len() < usize::MAX
            &&& i > 0 ==> !(run(s, inputs.take(i)).phase is Idle)
        }
}

/// Whether the proxy asked for a read of `token` on the way.
pub open spec fn asked_to_read(s: ProxyView, inputs: Seq<Input>, token: usize) -> bool {
    exists|i: int|
        0 < i <= inputs.len() && (#[trigger] run(s, inputs.take(i))).phase is Reading && run(
            s,
            inputs.take(i),
        ).phase->Reading_token == token
}

/// Whether `token` is to be looked at for an event: it waits, or the event announces it.
pub open spec fn is_due(s: ProxyView, event: Input, token: usize) -> bool {
    s.readable.contains(token) || (event->events.readable && !event->events.hup
        && event->Ready_token == token)
}

/// What holds of a token that is due while an event is dealt with.
spec fn on_the_way(s: ProxyView, inputs: Seq<Input>, token: usize) -> bool {
    let u = run(s, inputs);
    let event = inputs[0];
    match u.phase {
        PhaseView::Writing { token: subject, events } => {
            &&& subject == event->Ready_token
            &&& events == event->events
            &&& u.readable == s.readable
        },
        PhaseView::Reading { then: AfterRead::Terminate, .. } => {
            &&& event->events.hup
            &&& event->events.readable
            &&& u.readable == s.readable
        },
        PhaseView::Reading { then: AfterRead::Flush { left }, .. } => asked_to_read(
            s,
            inputs,
            token,
        ) || has_no_room(u, token) || u.readable.take(left as int).contains(token),
        PhaseView::Idle => asked_to_read(s, inputs, token) || has_no_room(u, token),
        PhaseView::Aborted { .. } => true,
        _ => false,
    }
}

/// What was asked for before the last input was asked for.
proof fn lemma_asked_before(s: ProxyView, inputs: Seq<Input>, token: usize)
    requires
        inputs.len() > 0,
        asked_to_read(s, inputs.drop_last(), token),
    ensures
        asked_to_read(s, inputs, token),
{
    let before = inputs.drop_last();
    let i = choose|i: int|
        0 < i <= before.len() && (#[trigger] run(s, before.take(i))).phase is Reading && run(
            s,
            before.take(i),
        ).phase->Reading_token == token;
    assert(before.take(i) =~= inputs.take(i));
    assert(run(s, inputs.take(i)).phase is Reading);
}

/// A state that is read in now was asked for.
proof fn lemma_asked_now(s: ProxyView, inputs: Seq<Input>, token: usize)
    requires
        inputs.len() > 0,
        run(s, inputs).phase is Reading,
        run(s, inputs).phase->Reading_token == token,
    ensures
        asked_to_read(s, inputs, token),
{
    assert(inputs.take(inputs.len() as int) =~= inputs);
    assert(run(s, inputs.take(inputs.len() as int)).phase is Reading);
}

/// A token of the list is looked at, or still to be looked at.
proof fn lemma_token_looked_at(
    t: ProxyView,
    list: Seq<usize>,
    count: nat,
    looked: int,
    token: usize,
)
    requires
        looked_through(t, list, count, looked),
        list.take(count as int).contains(token),
        count <= usize::MAX,
    ensures
        match t.phase {
            PhaseView::Idle => has_no_room(t, token),
            PhaseView::Reading { token: source, then: AfterRead::Flush { left }, .. } => {
                ||| source == token
                ||| has_no_room(t, token)
                ||| t.readable.take(left as int).contains(token)
            },
            PhaseView::Aborted { .. } => true,
            _ => false,
        },
{
    let i = choose|i: int| 0 <= i < count && list.take(count as int)[i] == token;
    assert(list[i] == token);
    if i < looked {
        assert(has_no_room(t, list[i]));
    } else if t.phase is Reading && i > looked {
        let left = t.phase->then->left as int;
        assert(t.readable.take(left)[i - looked - 1] == token);
    }
}

proof fn lemma_looked_at(
    s: ProxyView,
    inputs: Seq<Input>,
    list: Seq<usize>,
    count: nat,
    looked: int,
    token: usize,
)
    requires
        inputs.len() > 0,
        looked_through(run(s, inputs), list, count, looked),
        list.take(count as int).contains(token),
        count <= usize::MAX,
    ensures
        on_the_way(s, inputs, token),
{
    let t = run(s, inputs);
    lemma_token_looked_at(t, list, count, looked, token);
    if t.phase is Reading && t.phase->Reading_token == token {
        lemma_asked_now(s, inputs, token);
    }
}

/// The reading part of an event, once the write that came with it is over.
proof fn lemma_handled_on_the_way(s: ProxyView, inputs: Seq<Input>, token: usize)
    requires
        inputs.len() > 0,
        inputs[0] is Ready,
        ({
            let u = run(s, inputs.drop_last());
            let input = inputs.last();
            &&& u.inv()
            &&& u.expects(input)
            &&& u.readable == s.readable
            &&& u.readable.len() < usize::MAX
            &&& handled(u, input) == Some((inputs[0]->Ready_token, inputs[0]->events))
        }),
        is_due(s, inputs[0], token),
    ensures
        on_the_way(s, inputs, token),
{
    let u = run(s, inputs.drop_last());
    let input = inputs.last();
    let t = run(s, inputs);
    let subject = inputs[0]->Ready_token;
    let events = inputs[0]->events;
    if flushes(u, input) {
        law_flushes_go_through_the_list(u, input);
        let list = list_to_flush(u, input);
        let count = count_to_flush(u, input);
        let looked = choose|looked: int| looked_through(t, list, count, looked);
        assert(list.take(count as int) =~= list);
        if s.readable.contains(token) {
            let i = choose|i: int| 0 <= i < s.readable.len() && s.readable[i] == token;
            assert(list[i] == token);
        } else {
            assert(list[list.len() - 1] == token);
        }
        lemma_looked_at(s, inputs, list, count, looked, token);
    } else if events.hup && u.live(subject) && u.conns[subject].end is Some {
        law_hang_ups_are_read(u, input, subject);
    } else {
        law_lone_connections_are_not_read(u, input, subject);
        law_who_goes_and_who_comes(u, input, subject);
    }
}

/// A token that is not being read has no room after the read of another one either.
proof fn lemma_no_room_stays(u: ProxyView, input: Input, token: usize)
    requires
        u.inv(),
        u.expects(input),
        input is Read,
        u.phase->then is Flush,
        has_no_room(u, token),
        u.phase->Reading_token != token,
    ensures
        has_no_room(u.next(input), token),
{
    let end = u.other_end(token);
    assert(linked(u.conns, token));
    assert(u.conns.contains_key(end) && u.conns[end].inv(end));
    assert(linked(u.conns, end));
    law_who_goes_and_who_comes(u, input, token);
    law_who_goes_and_who_comes(u, input, end);
    law_how_links_and_answers_change(u, input, token);
    law_how_send_queues_change(u, input, end);
    assert(u.next(input).conns[end].queue.len() == u.conns[end].queue.len());
}

proof fn lemma_on_the_way(s: ProxyView, inputs: Seq<Input>, token: usize)
    requires
        s.inv(),
        deals_with_event(s, inputs),
        inputs[0]->Ready_token != LISTEN_TOKEN,
        !inputs[0]->events.error,
        is_due(s, inputs[0], token),
    ensures
        run(s, inputs).inv(),
        on_the_way(s, inputs, token),
    decreases inputs.len(),
{
    let before = inputs.drop_last();
    let u = run(s, before);
    let input = inputs.last();
    let event = inputs[0];
    assert(inputs.take(inputs.len() - 1) =~= before);
    assert(run(s, inputs.take(inputs.len() - 1)).expects(inputs[inputs.len() - 1]));
    if before.len() == 0 {
        assert(u == s);
        law_steps_keep_consistency(s, input);
        if handled(s, input) is Some {
            lemma_handled_on_the_way(s, inputs, token);
        } else if s.live(event->Ready_token) {
            law_writable_events_write(s, event->Ready_token, event->events);
        } else {
            law_events_of_strangers_are_faults(s, event->Ready_token, event->events);
        }
    } else {
        assert(deals_with_event(s, before)) by {
            assert forall|i: int| 0 <= i < before.len() implies {
                &&& (#[trigger] run(s, before.take(i))).expects(before[i])
                &&& run(s, before.take(i)).readable.len() < usize::MAX
                &&& i > 0 ==> !(run(s, before.take(i)).phase is Idle)
            } by {
                assert(before.take(i) =~= inputs.take(i));
                assert(run(s, inputs.take(i)).expects(inputs[i]));
            }
        }
        lemma_on_the_way(s, before, token);
        law_steps_keep_consistency(u, input);
        if asked_to_read(s, before, token) {
            lemma_asked_before(s, inputs, token);
        }
        lemma_step_on_the_way(s, inputs, token);
    }
}

#[verifier::rlimit(40)]
proof fn lemma_step_on_the_way(s: ProxyView, inputs: Seq<Input>, token: usize)
    requires
        inputs.len() > 1,
        inputs[0] is Ready,
        ({
            let u = run(s, inputs.drop_last());
            &&& u.inv()
            &&& u.expects(inputs.last())
            &&& u.readable.len() < usize::MAX
            &&& !(u.phase is Idle)
        }),
        on_the_way(s, inputs.drop_last(), token),
        asked_to_read(s, inputs.drop_last(), token) ==> asked_to_read(s, inputs, token),
        is_due(s, inputs[0], token),
    ensures
        on_the_way(s, inputs, token),
{
    let before = inputs.drop_last();
    let u = run(s, before);
    let input = inputs.last();
    let t = run(s, inputs);
    match u.phase {
        PhaseView::Writing { token: subject, .. } => {
            if handled(u, input) is Some {
                lemma_handled_on_the_way(s, inputs, token);
            } else {
                law_writes_go_on(u, input->written);
            }
        },
        PhaseView::Reading { token: source, reading, then } => {
            let read = input->read;
            if source == token {
                lemma_asked_now(s, before, token);
            }
            let end = u.other_end(source);
            assert(linked(u.conns, source));
            assert(u.conns.contains_key(end) && u.conns[end].inv(end));
            if read is Failed {
                law_failed_reads_are_faults(u);
            } else if !read_over(u, input, source) {
                law_reads_go_on(u, read->Data_0);
            } else {
                law_flushes_go_through_the_list(u, input);
                let list = list_to_flush(u, input);
                let count = count_to_flush(u, input);
                let looked = choose|looked: int| looked_through(t, list, count, looked);
                if then is Terminate {
                    assert(list.take(count as int) =~= s.readable);
                    lemma_looked_at(s, inputs, list, count, looked, token);
                } else if asked_to_read(s, before, token) {
                    assert(t.phase is Idle || t.phase is Aborted || t.phase->then is Flush);
                } else if has_no_room(u, token) {
                    lemma_no_room_stays(u, input, token);
                } else {
                    let waiting = u.readable.take(then->left as int);
                    let i = choose|i: int| 0 <= i < waiting.len() && waiting[i] == token;
                    assert(list.take(count as int)[i] == token);
                    lemma_looked_at(s, inputs, list, count, looked, token);
                }
            }
        },
        _ => {},
    }
}

/// When an event is dealt with and the proxy waits again, every token that was waiting to be read,
/// and the one that the event announced, has been read for that event, as often as reads were asked
/// for in between, unless the send queue of its other end is full.
pub proof fn law_events_read_every_waiting_token(s: ProxyView, inputs: Seq<Input>, token: usize)
    requires
        s.inv(),
        deals_with_event(s, inputs),
        inputs[0]->Ready_token != LISTEN_TOKEN,
        !inputs[0]->events.error,
        run(s, inputs).phase is Idle,
        is_due(s, inputs[0], token),
    ensures
        asked_to_read(s, inputs, token) || has_no_room(run(s, inputs), token),
{
    lemma_on_the_way(s, inputs, token);
}

} // verus!
