//! Which operations on sockets a step asks for.
use vstd::prelude::*;

use crate::connection::{
    ConnectionView, Effect, ReadOutcomeView, ReadStatus, Socket, WriteOutcome, WriteStatus,
};
use crate::consistency::linked;
use crate::events::EventSet;
use crate::laws::{lemma_flush_only_chooses, new_effects, subject, Input};
use crate::model::{reregister, AfterRead, ProxyView, CONNECT_TIMEOUT_MS, LISTEN_TOKEN};
use crate::steps::{
    all_sent, answers, broke, ends, gathered_with, gives_up, goes_along, hung_up, is_exhausted,
    is_listed, law_how_send_queues_change, law_who_goes_and_who_comes, read_over, said_everything,
};

verus! {

/// A registration of `token` anew, which has to succeed.
pub open spec fn renewal(token: usize, interest: EventSet) -> Effect {
    Effect::Reregister { token, interest, required: true }
}

/// The end of a socket.
pub open spec fn farewell(token: usize) -> Seq<Effect> {
    seq![Effect::Deregister { token }, Effect::Close { token }]
}

/// `token` has answered for the first time.
pub open spec fn when_answered(s: ProxyView, input: Input, token: usize) -> Seq<Effect> {
    if answers(s, input, token) && s.live(token) && !s.conns[token].connected {
        seq![Effect::Connected { token }]
    } else {
        seq![]
    }
}

/// Everything that `token` had to send is sent: it no longer waits for writable events.
pub open spec fn when_sent(s: ProxyView, input: Input, token: usize) -> Seq<Effect> {
    if all_sent(s, input, token) {
        seq![renewal(token, EventSet { writable: false, ..s.conns[token].interest })]
    } else {
        seq![]
    }
}

/// `token`, which is alone, has said everything.
pub open spec fn when_everything_is_said(s: ProxyView, input: Input, token: usize) -> Seq<Effect> {
    if said_everything(s, input, token) {
        farewell(token)
    } else {
        seq![]
    }
}

/// Something that was read of `token` is queued for its other end, which waits for writable events
/// from now on, whether it did before or not.
pub open spec fn when_read(s: ProxyView, input: Input, token: usize) -> Seq<Effect> {
    if read_over(s, input, token) && gathered_with(
        s.phase->reading.messages,
        input->read,
    ).len() > 0 {
        let end = s.other_end(token);
        seq![
            Effect::Reregister {
                token: end,
                interest: EventSet { writable: true, ..s.conns[end].interest },
                required: false,
            },
            renewal(token, s.conns[token].interest),
        ]
    } else {
        seq![]
    }
}

/// The other end of `token` is left alone, or goes too.
pub open spec fn when_left(s: ProxyView, input: Input, token: usize) -> Seq<Effect> {
    match s.conns[token].end {
        None => seq![],
        Some(end) => if goes_along(s, input, end) {
            farewell(end)
        } else {
            seq![
                renewal(
                    end,
                    EventSet { readable: false, writable: true, ..s.conns[end].interest },
                ),
            ]
        },
    }
}

/// `token` hung up or broke.
pub open spec fn when_ended(s: ProxyView, input: Input, token: usize) -> Seq<Effect> {
    if s.live(token) && (hung_up(s, input, token) || broke(s, input, token)) {
        when_left(s, input, token) + farewell(token)
    } else {
        seq![]
    }
}

/// `token` enters the list of readable tokens: it no longer waits for readable events.
pub open spec fn when_listed(s: ProxyView, input: Input, token: usize) -> Seq<Effect> {
    if is_listed(s, input, token) && s.live(token) && !said_everything(s, input, token) {
        seq![
            renewal(
                token,
                EventSet {
                    readable: false,
                    writable: s.conns[token].interest.writable && !all_sent(s, input, token),
                    ..s.conns[token].interest
                },
            ),
        ]
    } else {
        seq![]
    }
}

/// The kernel has nothing more to give for `token`: it waits for readable events again.
pub open spec fn when_exhausted(s: ProxyView, input: Input, token: usize) -> Seq<Effect> {
    if is_exhausted(s, input, token) {
        seq![renewal(token, EventSet { readable: true, ..s.conns[token].interest })]
    } else {
        seq![]
    }
}

/// The operations that a step asks for that is about `token`, in their order.
pub open spec fn operations(s: ProxyView, input: Input, token: usize) -> Seq<Effect> {
    when_answered(s, input, token) + when_sent(s, input, token) + when_everything_is_said(
        s,
        input,
        token,
    ) + when_read(s, input, token) + when_ended(s, input, token) + when_listed(s, input, token)
        + when_exhausted(s, input, token)
}

/// The operations of a termination.
proof fn lemma_terminate_asks(s: ProxyView, token: usize)
    ensures
        s.terminate_connection(token).effects == s.effects + (match s.conns[token].end {
            None => seq![],
            Some(end) => if s.conns[end].queue.len() == 0 {
                farewell(end)
            } else {
                seq![
                    renewal(
                        end,
                        EventSet { readable: false, writable: true, ..s.conns[end].interest },
                    ),
                ]
            },
        }) + farewell(token),
{
}

/// The operations of what follows a write.
proof fn lemma_after_write_asks(s: ProxyView, token: usize, events: EventSet)
    ensures
        s.after_write(token, events).effects == (if events.hup && events.readable {
            if s.live(token) && s.conns[token].end is Some && s.room(token) == 0 {
                s.terminate_connection(token).effects
            } else {
                s.effects
            }
        } else if events.readable && s.live(token) {
            s.effects.push(
                renewal(token, EventSet { readable: false, ..s.conns[token].interest }),
            )
        } else {
            s.effects
        }),
{
    if events.hup && events.readable {
        let t = s.terminate_connection(token);
        lemma_flush_only_chooses(t, t.readable.len() as usize);
    } else if events.readable {
        if s.live(token) {
            let t = s.push_to_readable_tokens(token);
            lemma_flush_only_chooses(t, t.readable.len() as usize);
        }
    } else {
        lemma_flush_only_chooses(s, s.readable.len() as usize);
    }
}

#[verifier::rlimit(40)]
proof fn lemma_ready_asks(s: ProxyView, token: usize, events: EventSet)
    requires
        s.inv(),
        s.phase is Idle,
        !(s.live(token) && gives_up(s, Input::Ready { token, events }, token)),
    ensures
        s.ready(token, events).effects == s.effects + operations(
            s,
            Input::Ready { token, events },
            token,
        ),
{
    let input = Input::Ready { token, events };
    let t = s.ready(token, events);
    if s.live(token) {
        assert(linked(s.conns, token) && s.conns[token].inv(token));
        if s.conns[token].end is Some {
            let end = s.other_end(token);
            assert(s.conns.contains_key(end) && s.conns[end].inv(end));
            assert(linked(s.conns, end));
        }
    }
    if token == LISTEN_TOKEN {
        assert(!s.live(token));
    } else if events.error {
        if s.live(token) {
            lemma_terminate_asks(s, token);
        }
    } else if events.writable {
        if s.live(token) && s.conns[token].queue.len() == 0 {
            let connected = s.mark_connected(token);
            let flushed = connected.send_queue_flushed(
                token,
                WriteStatus::Finished { flushed_everything: true },
            );
            lemma_after_write_asks(flushed, token, events);
            lemma_terminate_asks(flushed, token);
        }
    } else {
        lemma_after_write_asks(s, token, events);
        lemma_terminate_asks(s, token);
    }
    assert(t.effects =~= s.effects + operations(s, input, token));
}

#[verifier::rlimit(40)]
proof fn lemma_wrote_asks(s: ProxyView, written: WriteOutcome)
    requires
        s.inv(),
        s.phase is Writing,
    ensures
        s.wrote(written).effects == s.effects + operations(
            s,
            Input::Wrote { written },
            s.phase->Writing_token,
        ),
{
    let input = Input::Wrote { written };
    let token = s.phase->Writing_token;
    let c = s.conns[token];
    let status = c.write_status(written);
    let w = s.put(token, c.write_one_buf(written));
    assert(linked(s.conns, token) && c.inv(token));
    if c.end is Some {
        let end = s.other_end(token);
        assert(s.conns.contains_key(end) && s.conns[end].inv(end));
        assert(linked(s.conns, end));
    }
    if !(status is More) {
        let flushed = w.send_queue_flushed(token, status);
        lemma_after_write_asks(flushed, token, s.phase->Writing_events);
        lemma_terminate_asks(flushed, token);
    }
    assert(s.wrote(written).effects =~= s.effects + operations(s, input, token));
}

#[verifier::rlimit(40)]
proof fn lemma_read_asks(s: ProxyView, read: ReadOutcomeView)
    requires
        s.inv(),
        s.phase is Reading,
    ensures
        s.read(read).effects == s.effects + operations(
            s,
            Input::Read { read },
            s.phase->Reading_token,
        ),
{
    let input = Input::Read { read };
    let token = s.phase->Reading_token;
    let reading = s.phase->reading;
    let end = s.other_end(token);
    assert(linked(s.conns, token) && s.conns[token].inv(token));
    assert(s.conns.contains_key(end) && s.conns[end].inv(end));
    assert(linked(s.conns, end));
    match reading.status(read) {
        ReadStatus::Finished { exhausted_kernel } => {
            let delivered = s.deliver(token, reading.read(read).messages);
            assert(delivered.effects =~= s.effects + when_read(s, input, token));
            assert(delivered.conns[token] == s.conns[token]);
            match s.phase->then {
                AfterRead::Terminate => {
                    let t = delivered.terminate_connection(token);
                    lemma_terminate_asks(delivered, token);
                    lemma_flush_only_chooses(t, t.readable.len() as usize);
                    assert(goes_along(s, input, end) <==> delivered.conns[end].queue.len() == 0);
                },
                AfterRead::Flush { left } => {
                    if exhausted_kernel {
                        let c = ConnectionView {
                            interest: EventSet {
                                readable: true,
                                ..delivered.conns[token].interest
                            },
                            ..delivered.conns[token]
                        };
                        lemma_flush_only_chooses(
                            delivered.put(token, c).emit(reregister(token, c)),
                            left,
                        );
                    } else {
                        lemma_flush_only_chooses(
                            ProxyView { readable: delivered.readable.push(token), ..delivered },
                            left,
                        );
                    }
                },
            }
        },
        _ => {},
    }
    assert(s.read(read).effects =~= s.effects + operations(s, input, token));
}

/// A step asks for the operations that what happens to the tunnel of its token calls for, in their
/// order, and for no others. (A connect, and a connection that looks for another server, are
/// spoken of elsewhere.)
pub proof fn law_what_a_step_asks_for(s: ProxyView, input: Input)
    requires
        s.inv(),
        s.expects(input),
        !(input is Connected),
        subject(s, input) is Some && s.live(subject(s, input)->0) ==> !gives_up(
            s,
            input,
            subject(s, input)->0,
        ),
    ensures
        new_effects(s, input) == (if input is Ready || input is Wrote || input is Read {
            operations(s, input, subject(s, input)->0)
        } else {
            seq![]
        }),
        s.effects.is_prefix_of(s.next(input).effects),
{
    match input {
        Input::Ready { token, events } => {
            lemma_ready_asks(s, token, events);
        },
        Input::Wrote { written } => {
            lemma_wrote_asks(s, written);
        },
        Input::Read { read } => {
            lemma_read_asks(s, read);
        },
        _ => {},
    }
    let asked = if input is Ready || input is Wrote || input is Read {
        operations(s, input, subject(s, input)->0)
    } else {
        seq![]
    };
    assert(s.next(input).effects =~= s.effects + asked);
    assert(new_effects(s, input) =~= asked);
}

/// A connection for which something is queued is always registered anew, with an interest in
/// writable events: a registration holds for one event, and the last one may be used up.
pub proof fn law_queued_bytes_renew_the_registration(s: ProxyView, input: Input, token: usize)
    requires
        s.inv(),
        s.expects(input),
        s.live(token),
        s.next(input).live(token),
        s.next(input).conns[token].queue.len() > s.conns[token].queue.len(),
    ensures
        exists|i: int|
            0 <= i < new_effects(s, input).len() && {
                &&& (#[trigger] new_effects(s, input)[i]) is Reregister
                &&& new_effects(s, input)[i]->Reregister_token == token
                &&& new_effects(s, input)[i]->Reregister_interest.writable
            },
{
    law_how_send_queues_change(s, input, token);
    assert(s.conns[token].inv(token) && linked(s.conns, token));
    let source = s.phase->Reading_token;
    assert(read_over(s, input, source) && s.conns[token].end == Some(source));
    assert(linked(s.conns, source));
    law_what_a_step_asks_for(s, input);
    assert(new_effects(s, input) =~= when_read(s, input, source) + (when_ended(s, input, source)
        + when_exhausted(s, input, source)));
    assert(new_effects(s, input)[0] == when_read(s, input, source)[0]);
}

/// A connection that ends, or goes with its other end, leaves the event loop before its socket is
/// dropped.
pub proof fn law_sockets_are_deregistered_before_they_go(s: ProxyView, input: Input, token: usize)
    requires
        s.inv(),
        s.expects(input),
        s.live(token),
        !s.next(input).live(token),
    ensures
        exists|i: int|
            0 <= i < new_effects(s, input).len() - 1 && {
                &&& (#[trigger] new_effects(s, input)[i]) == (Effect::Deregister { token })
                &&& new_effects(s, input)[i + 1] == (Effect::Close { token })
            },
{
    law_who_goes_and_who_comes(s, input, token);
    assert(s.conns[token].inv(token) && linked(s.conns, token));
    let x = subject(s, input)->0;
    law_what_a_step_asks_for(s, input);
    let asked = new_effects(s, input);
    let said = when_answered(s, input, x) + when_sent(s, input, x);
    let ended = said + when_everything_is_said(s, input, x) + when_read(s, input, x);
    if said_everything(s, input, token) {
        assert(asked[said.len() as int] == farewell(token)[0]);
        assert(asked[said.len() as int + 1] == farewell(token)[1]);
    } else if ends(s, input, token) {
        let at = ended.len() + when_left(s, input, token).len();
        assert(asked[at as int] == farewell(token)[0]);
        assert(asked[at as int + 1] == farewell(token)[1]);
    } else {
        assert(linked(s.conns, x));
        assert(asked[ended.len() as int] == farewell(token)[0]);
        assert(asked[ended.len() as int + 1] == farewell(token)[1]);
    }
}

/// The operations for a new tunnel: each end gets its own socket, is registered before it is
/// linked and anew once it is, and the backend end has its timeout armed. A client for which there
/// is no room is dropped, registered or not.
pub proof fn law_what_a_new_client_asks_for(s: ProxyView)
    requires
        s.inv(),
        s.phase is Connecting,
        s.phase->Connecting_purpose is NewClient,
    ensures
        new_effects(s, Input::Connected { opened: true }) == ({
            let unlinked = EventSet { readable: false, writable: false, error: true, hup: true };
            if s.free.len() == 0 {
                seq![]
            } else if s.free.len() == 1 {
                seq![
                    Effect::Attach { token: s.free[0], socket: Socket::Accepted },
                    Effect::Register { token: s.free[0], interest: unlinked },
                    Effect::Close { token: s.free[0] },
                ]
            } else {
                seq![
                    Effect::Attach { token: s.free[0], socket: Socket::Accepted },
                    Effect::Register { token: s.free[0], interest: unlinked },
                    Effect::Attach { token: s.free[1], socket: Socket::Opened },
                    Effect::Register { token: s.free[1], interest: unlinked },
                    renewal(s.free[0], EventSet { readable: true, ..unlinked }),
                    renewal(s.free[1], EventSet { readable: true, writable: true, ..unlinked }),
                    Effect::StartTimeout { token: s.free[1], ms: CONNECT_TIMEOUT_MS },
                ]
            }
        }),
{
    let t = s.next(Input::Connected { opened: true });
    if s.free.len() > 1 {
        assert(s.free.contains(s.free[0]) && s.free.contains(s.free[1]));
    }
    assert(s.effects.is_prefix_of(t.effects));
}

/// The tokens that a step about `token` frees, the last one first.
pub open spec fn freed(s: ProxyView, input: Input, token: usize) -> Seq<usize> {
    if !ends(s, input, token) {
        seq![]
    } else if s.conns[token].end is Some && goes_along(s, input, s.other_end(token)) {
        seq![token, s.other_end(token)]
    } else {
        seq![token]
    }
}

proof fn lemma_terminate_frees(s: ProxyView, token: usize)
    ensures
        s.terminate_connection(token).free == (if s.conns[token].end is Some
            && s.conns[s.other_end(token)].queue.len() == 0 {
            seq![token, s.other_end(token)] + s.free
        } else {
            seq![token] + s.free
        }),
{
    assert(s.terminate_connection(token).free =~= (if s.conns[token].end is Some
        && s.conns[s.other_end(token)].queue.len() == 0 {
        seq![token, s.other_end(token)] + s.free
    } else {
        seq![token] + s.free
    }));
}

proof fn lemma_after_write_frees(s: ProxyView, token: usize, events: EventSet)
    ensures
        s.after_write(token, events).free == (if events.hup && events.readable && s.live(token)
            && s.conns[token].end is Some && s.room(token) == 0 {
            s.terminate_connection(token).free
        } else {
            s.free
        }),
{
    if events.hup && events.readable {
        let t = s.terminate_connection(token);
        lemma_flush_only_chooses(t, t.readable.len() as usize);
    } else if events.readable {
        if s.live(token) {
            let t = s.push_to_readable_tokens(token);
            lemma_flush_only_chooses(t, t.readable.len() as usize);
        }
    } else {
        lemma_flush_only_chooses(s, s.readable.len() as usize);
    }
}

proof fn lemma_ready_frees(s: ProxyView, token: usize, events: EventSet)
    requires
        s.inv(),
        s.phase is Idle,
    ensures
        s.ready(token, events).free == freed(s, Input::Ready { token, events }, token) + s.free,
{
    let t = s.ready(token, events);
    if s.live(token) {
        assert(linked(s.conns, token) && s.conns[token].inv(token));
        if s.conns[token].end is Some {
            let end = s.other_end(token);
            assert(s.conns.contains_key(end) && s.conns[end].inv(end));
            assert(linked(s.conns, end));
        }
    }
    if token == LISTEN_TOKEN {
        assert(!s.live(token));
    } else if events.error {
        lemma_terminate_frees(s, token);
    } else if events.writable {
        if s.live(token) && s.conns[token].queue.len() == 0 {
            let connected = s.mark_connected(token);
            let flushed = connected.send_queue_flushed(
                token,
                WriteStatus::Finished { flushed_everything: true },
            );
            lemma_after_write_frees(flushed, token, events);
            lemma_terminate_frees(flushed, token);
        }
    } else {
        lemma_after_write_frees(s, token, events);
        lemma_terminate_frees(s, token);
    }
    assert(t.free =~= freed(s, Input::Ready { token, events }, token) + s.free);
}

proof fn lemma_wrote_frees(s: ProxyView, written: WriteOutcome)
    requires
        s.inv(),
        s.phase is Writing,
    ensures
        s.wrote(written).free == freed(s, Input::Wrote { written }, s.phase->Writing_token)
            + s.free,
{
    let token = s.phase->Writing_token;
    let c = s.conns[token];
    let status = c.write_status(written);
    let w = s.put(token, c.write_one_buf(written));
    assert(linked(s.conns, token) && c.inv(token));
    if c.end is Some {
        let end = s.other_end(token);
        assert(s.conns.contains_key(end) && s.conns[end].inv(end));
        assert(linked(s.conns, end));
    }
    if !(status is More) {
        let flushed = w.send_queue_flushed(token, status);
        lemma_after_write_frees(flushed, token, s.phase->Writing_events);
        lemma_terminate_frees(flushed, token);
    }
    assert(s.wrote(written).free =~= freed(s, Input::Wrote { written }, token) + s.free);
}

proof fn lemma_read_frees(s: ProxyView, read: ReadOutcomeView)
    requires
        s.inv(),
        s.phase is Reading,
    ensures
        s.read(read).free == freed(s, Input::Read { read }, s.phase->Reading_token) + s.free,
{
    let input = Input::Read { read };
    let token = s.phase->Reading_token;
    let reading = s.phase->reading;
    let end = s.other_end(token);
    assert(linked(s.conns, token) && s.conns[token].inv(token));
    assert(s.conns.contains_key(end) && s.conns[end].inv(end));
    assert(linked(s.conns, end));
    match reading.status(read) {
        ReadStatus::Finished { exhausted_kernel } => {
            let delivered = s.deliver(token, reading.read(read).messages);
            match s.phase->then {
                AfterRead::Terminate => {
                    let t = delivered.terminate_connection(token);
                    lemma_terminate_frees(delivered, token);
                    lemma_flush_only_chooses(t, t.readable.len() as usize);
                    assert(goes_along(s, input, end) <==> delivered.conns[end].queue.len() == 0);
                },
                AfterRead::Flush { left } => {
                    if exhausted_kernel {
                        let c = ConnectionView {
                            interest: EventSet {
                                readable: true,
                                ..delivered.conns[token].interest
                            },
                            ..delivered.conns[token]
                        };
                        lemma_flush_only_chooses(
                            delivered.put(token, c).emit(reregister(token, c)),
                            left,
                        );
                    } else {
                        lemma_flush_only_chooses(
                            ProxyView { readable: delivered.readable.push(token), ..delivered },
                            left,
                        );
                    }
                },
            }
        },
        _ => {},
    }
    assert(s.read(read).free =~= freed(s, input, token) + s.free);
}

/// The tokens of connections that go are the next to be handed out, and a new tunnel takes the
/// first two that are free.
pub proof fn law_how_tokens_are_handed_out(s: ProxyView, input: Input)
    requires
        s.inv(),
        s.expects(input),
    ensures
        s.next(input).free == (if input is Ready || input is Wrote || input is Read {
            freed(s, input, subject(s, input)->0) + s.free
        } else if input is Connected && input->opened && s.phase->Connecting_purpose is NewClient
            && s.free.len() > 1 {
            s.free.skip(2)
        } else {
            s.free
        }),
{
    match input {
        Input::Ready { token, events } => lemma_ready_frees(s, token, events),
        Input::Wrote { written } => lemma_wrote_frees(s, written),
        Input::Read { read } => lemma_read_frees(s, read),
        _ => {},
    }
}

} // verus!
