//! The proxy as a state machine over mathematical values.
//!
//! An event or the outcome of an operation on a socket takes the proxy from one
//! state to the next. A state says which connections there are, which operations
//! on sockets are due, and which outcome the proxy waits for.
use vstd::prelude::*;

use crate::addr::SocketAddr;
use crate::connection::{
    ConnectionView, Effect, ReadOutcomeView, ReadStatus, ReadingView, Socket, WriteOutcome,
    WriteStatus, MAX_BUFFERS_PER_CONNECTION,
};
use crate::events::EventSet;

verus! {

/// The token of the listening socket.
pub const LISTEN_TOKEN: usize = 1;

/// The token of the first connection.
pub const FIRST_TOKEN: usize = 2;

/// How many connections there may be, client and backend ends together.
pub const MAX_CONNECTIONS: usize = 512;

/// How long a backend server may take to answer, in milliseconds.
pub const CONNECT_TIMEOUT_MS: u64 = 1000;

/// What came of an accept.
#[derive(Clone, Copy, PartialEq, Eq, Structural, Debug)]
pub enum AcceptOutcome {
    /// A client was accepted.
    Client,
    /// No client waits.
    NoClient,
    /// The listening socket reported an error.
    Failed,
}

/// What a socket to a backend server is opened for.
#[derive(Clone, Copy, PartialEq, Eq, Structural, Debug)]
pub enum Purpose {
    /// For the client that was just accepted.
    NewClient,
    /// For the connection `token`, whose server did not answer.
    Retry { token: usize },
}

/// What follows the read of a token.
#[derive(Clone, Copy, PartialEq, Eq, Structural, Debug)]
pub enum AfterRead {
    /// The connection is terminated, then the readable tokens are flushed.
    Terminate,
    /// The flush of the readable tokens goes on with `left` of them.
    Flush { left: usize },
}

/// Why the proxy cannot go on.
#[derive(Clone, Copy, PartialEq, Eq, Structural, Debug)]
pub enum Fault {
    /// There is no connection `token`.
    NoConnection { token: usize },
    /// The connection `token` has lost its other end.
    NoOtherEnd { token: usize },
    /// The socket of `token` could not be read.
    ReadFailed { token: usize },
    /// There is no backend server left.
    NoBackend,
}

/// What the proxy waits for.
#[verifier::ext_equal]
pub enum PhaseView {
    /// The next event.
    Idle,
    /// The outcome of an accept.
    Accepting,
    /// The choice of a backend server.
    Choosing { purpose: Purpose },
    /// The outcome of a connect to `addr`.
    Connecting { purpose: Purpose, addr: SocketAddr },
    /// The outcome of a write of the first buffer of `token`; `events` came with the write event.
    Writing { token: usize, events: EventSet },
    /// The outcome of a read of `token`.
    Reading { token: usize, reading: ReadingView, then: AfterRead },
    /// Nothing any more.
    Aborted { fault: Fault },
}

/// The state of the proxy.
#[verifier::ext_equal]
pub struct ProxyView {
    /// The connections, by token.
    pub conns: Map<usize, ConnectionView>,
    /// The tokens that no connection has, in the order in which they will be handed out.
    pub free: Seq<usize>,
    /// The tokens that wait to be read, the next one first.
    pub readable: Seq<usize>,
    /// The operations on sockets that are due, the oldest first.
    pub effects: Seq<Effect>,
    /// What the proxy waits for.
    pub phase: PhaseView,
}

/// The renewal of the registration of `token`, which has to succeed.
pub open spec fn reregister(token: usize, c: ConnectionView) -> Effect {
    Effect::Reregister { token, interest: c.interest, required: true }
}

impl ProxyView {
    /// A proxy without connections.
    pub open spec fn initial() -> ProxyView {
        ProxyView {
            conns: Map::empty(),
            free: Seq::new(MAX_CONNECTIONS as nat, |i: int| (FIRST_TOKEN + i) as usize),
            readable: seq![],
            effects: seq![],
            phase: PhaseView::Idle,
        }
    }

    /// Whether there is a connection `token`.
    pub open spec fn live(self, token: usize) -> bool {
        self.conns.contains_key(token)
    }

    /// The other end of the connection `token`.
    pub open spec fn other_end(self, token: usize) -> usize
        recommends
            self.live(token),
            self.conns[token].end is Some,
    {
        self.conns[token].end->0
    }

    /// How many buffers may be read from `token` before the send queue of its other end is full.
    pub open spec fn room(self, token: usize) -> nat {
        (MAX_BUFFERS_PER_CONNECTION - self.conns[self.other_end(token)].queue.len()) as nat
    }

    /// The state with `c` in place of the connection `token`.
    pub open spec fn put(self, token: usize, c: ConnectionView) -> ProxyView {
        ProxyView { conns: self.conns.insert(token, c), ..self }
    }

    /// The state with one more operation due.
    pub open spec fn emit(self, effect: Effect) -> ProxyView {
        ProxyView { effects: self.effects.push(effect), ..self }
    }

    /// The state with another phase.
    pub open spec fn enter(self, phase: PhaseView) -> ProxyView {
        ProxyView { phase, ..self }
    }

    /// The state without the connection `token`, which is the next to be handed out.
    pub open spec fn release(self, token: usize) -> ProxyView {
        ProxyView {
            conns: self.conns.remove(token),
            free: seq![token] + self.free,
            effects: self.effects.push(Effect::Close { token }),
            ..self
        }
    }

    /// `token` waits to be read and is no longer interested in readable events.
    pub open spec fn push_to_readable_tokens(self, token: usize) -> ProxyView {
        let c = ConnectionView {
            interest: EventSet { readable: false, ..self.conns[token].interest },
            ..self.conns[token]
        };
        ProxyView { readable: self.readable.push(token), ..self.put(token, c) }.emit(
            reregister(token, c),
        )
    }

    /// What was read from `token` waits in the send queue of its other end, which is interested
    /// in writable events from now on.
    pub open spec fn deliver(self, token: usize, messages: Seq<Seq<u8>>) -> ProxyView {
        if messages.len() == 0 {
            self
        } else {
            let end = self.other_end(token);
            let c = self.conns[end].send_messages(messages);
            self.put(end, c).emit(
                Effect::Reregister { token: end, interest: c.interest, required: false },
            ).emit(reregister(token, self.conns[token]))
        }
    }

    /// The other end of `token` is about to lose it. With an empty send queue it goes too; else
    /// it stays, alone, until its send queue is flushed.
    pub open spec fn abandon_other_end(self, token: usize) -> ProxyView {
        match self.conns[token].end {
            None => self,
            Some(end) => if self.conns[end].queue.len() == 0 {
                self.emit(Effect::Deregister { token: end }).release(end)
            } else {
                let c = ConnectionView {
                    end: None,
                    interest: EventSet {
                        readable: false,
                        writable: true,
                        ..self.conns[end].interest
                    },
                    ..self.conns[end]
                };
                self.put(end, c).emit(reregister(end, c))
            },
        }
    }

    /// The connection `token` is gone, and its other end too or left to flush its send queue.
    pub open spec fn terminate_connection(self, token: usize) -> ProxyView {
        self.abandon_other_end(token).emit(Effect::Deregister { token }).release(token)
    }

    /// The readable tokens are flushed, `left` of them at most. A token whose other end has no
    /// room is put back without a read.
    pub open spec fn flush_readable_tokens(self, left: usize) -> ProxyView
        decreases left,
    {
        if left == 0 || self.readable.len() == 0 {
            self.enter(PhaseView::Idle)
        } else {
            let token = self.readable[0];
            let popped = ProxyView { readable: self.readable.skip(1), ..self };
            if !self.live(token) {
                popped.enter(PhaseView::Aborted { fault: Fault::NoConnection { token } })
            } else if self.conns[token].end is None {
                popped.enter(PhaseView::Aborted { fault: Fault::NoOtherEnd { token } })
            } else if self.room(token) == 0 {
                ProxyView {
                    readable: popped.readable.push(token),
                    ..popped
                }.flush_readable_tokens((left - 1) as usize)
            } else {
                popped.enter(
                    PhaseView::Reading {
                        token,
                        reading: ReadingView::begin(self.room(token)),
                        then: AfterRead::Flush { left: (left - 1) as usize },
                    },
                )
            }
        }
    }

    /// All the readable tokens are flushed once.
    pub open spec fn flush_all_readable_tokens(self) -> ProxyView {
        self.flush_readable_tokens(self.readable.len() as usize)
    }

    /// The read of `token` is over.
    pub open spec fn read_finished(
        self,
        token: usize,
        messages: Seq<Seq<u8>>,
        exhausted_kernel: bool,
        then: AfterRead,
    ) -> ProxyView {
        let delivered = self.deliver(token, messages);
        match then {
            AfterRead::Terminate => delivered.terminate_connection(
                token,
            ).flush_all_readable_tokens(),
            AfterRead::Flush { left } => if exhausted_kernel {
                let c = ConnectionView {
                    interest: EventSet { readable: true, ..delivered.conns[token].interest },
                    ..delivered.conns[token]
                };
                delivered.put(token, c).emit(reregister(token, c)).flush_readable_tokens(left)
            } else {
                ProxyView {
                    readable: delivered.readable.push(token),
                    ..delivered
                }.flush_readable_tokens(left)
            },
        }
    }

    /// `token` hung up: what can still be read of it is, and the connection is terminated.
    pub open spec fn read_and_terminate(self, token: usize) -> ProxyView {
        if !self.live(token) {
            self.enter(PhaseView::Aborted { fault: Fault::NoConnection { token } })
        } else if self.conns[token].end is None {
            self.enter(PhaseView::Aborted { fault: Fault::NoOtherEnd { token } })
        } else if self.room(token) == 0 {
            self.read_finished(token, seq![], false, AfterRead::Terminate)
        } else {
            self.enter(
                PhaseView::Reading {
                    token,
                    reading: ReadingView::begin(self.room(token)),
                    then: AfterRead::Terminate,
                },
            )
        }
    }

    /// What is left of `events` once the writable event is dealt with.
    pub open spec fn after_write(self, token: usize, events: EventSet) -> ProxyView {
        if events.hup && events.readable {
            self.read_and_terminate(token)
        } else if events.readable {
            if self.live(token) {
                self.push_to_readable_tokens(token).flush_all_readable_tokens()
            } else {
                self.enter(PhaseView::Aborted { fault: Fault::NoConnection { token } })
            }
        } else {
            self.flush_all_readable_tokens()
        }
    }

    /// The flush of the send queue of `token` is over. A connection that has sent everything is
    /// no longer interested in writable events; after an error its send queue is dropped; and a
    /// connection with an empty send queue and without another end is terminated.
    pub open spec fn send_queue_flushed(self, token: usize, status: WriteStatus) -> ProxyView {
        let flushed = match status {
            WriteStatus::Finished { flushed_everything } => if flushed_everything {
                let c = ConnectionView {
                    interest: EventSet { writable: false, ..self.conns[token].interest },
                    ..self.conns[token]
                };
                self.put(token, c).emit(reregister(token, c))
            } else {
                self
            },
            _ => self.put(token, ConnectionView { queue: seq![], ..self.conns[token] }),
        };
        if flushed.conns[token].queue.len() == 0 && flushed.conns[token].end is None {
            flushed.terminate_connection(token)
        } else {
            flushed
        }
    }

    /// The connection `token` is connected, if it was not before.
    pub open spec fn mark_connected(self, token: usize) -> ProxyView {
        if self.conns[token].connected {
            self
        } else {
            self.put(token, ConnectionView { connected: true, ..self.conns[token] }).emit(
                Effect::Connected { token },
            )
        }
    }

    /// A writable event: the connection is connected, and its send queue is flushed.
    pub open spec fn handle_write_event(self, token: usize, events: EventSet) -> ProxyView {
        if !self.live(token) {
            self.enter(PhaseView::Aborted { fault: Fault::NoConnection { token } })
        } else {
            let connected = self.mark_connected(token);
            if connected.conns[token].queue.len() == 0 {
                connected.send_queue_flushed(
                    token,
                    WriteStatus::Finished { flushed_everything: true },
                ).after_write(token, events)
            } else {
                connected.enter(PhaseView::Writing { token, events })
            }
        }
    }

    /// The connection `token` gives its socket up, and another server is to be chosen for it.
    pub open spec fn try_next_server(self, token: usize) -> ProxyView {
        let cleared = if self.conns[token].timeout {
            self.put(token, ConnectionView { timeout: false, ..self.conns[token] }).emit(
                Effect::ClearTimeout { token },
            )
        } else {
            self
        };
        cleared.emit(Effect::Deregister { token }).enter(
            PhaseView::Choosing { purpose: Purpose::Retry { token } },
        )
    }

    /// Both ends of a tunnel are created and linked together, on the next two tokens. With one
    /// token left, the client gets it and loses it at once; with none, nothing is created.
    pub open spec fn accept_one(self) -> ProxyView {
        if self.free.len() == 0 {
            self.enter(PhaseView::Idle)
        } else if self.free.len() == 1 {
            let client = self.free[0];
            self.emit(Effect::Attach { token: client, socket: Socket::Accepted }).emit(
                Effect::Register {
                    token: client,
                    interest: ConnectionView::fresh(client, true).interest,
                },
            ).emit(Effect::Close { token: client }).enter(PhaseView::Idle)
        } else {
            let client = self.free[0];
            let backend = self.free[1];
            let fresh = ConnectionView::fresh(client, true).interest;
            let c = ConnectionView {
                end: Some(backend),
                interest: EventSet { readable: true, ..fresh },
                ..ConnectionView::fresh(client, true)
            };
            let b = ConnectionView {
                end: Some(client),
                interest: EventSet { readable: true, writable: true, ..fresh },
                timeout: true,
                ..ConnectionView::fresh(backend, false)
            };
            ProxyView {
                conns: self.conns.insert(client, c).insert(backend, b),
                free: self.free.skip(2),
                readable: self.readable,
                effects: self.effects + seq![
                    Effect::Attach { token: client, socket: Socket::Accepted },
                    Effect::Register { token: client, interest: fresh },
                    Effect::Attach { token: backend, socket: Socket::Opened },
                    Effect::Register { token: backend, interest: fresh },
                    reregister(client, c),
                    reregister(backend, b),
                    Effect::StartTimeout { token: backend, ms: CONNECT_TIMEOUT_MS },
                ],
                phase: PhaseView::Accepting,
            }
        }
    }

    /// The state after an event of the event loop.
    pub open spec fn ready(self, token: usize, events: EventSet) -> ProxyView {
        if token == LISTEN_TOKEN {
            self.enter(PhaseView::Accepting)
        } else if events.error {
            if !self.live(token) {
                self.enter(PhaseView::Aborted { fault: Fault::NoConnection { token } })
            } else if !self.conns[token].connected {
                self.try_next_server(token)
            } else {
                self.terminate_connection(token)
            }
        } else if events.writable {
            self.handle_write_event(token, events)
        } else {
            self.after_write(token, events)
        }
    }

    /// The state after a timeout: a connection that is still not connected tries the next server.
    pub open spec fn timeout(self, token: usize) -> ProxyView {
        if self.live(token) && !self.conns[token].connected {
            self.try_next_server(token)
        } else {
            self
        }
    }

    /// The state after an accept. Without a new client, accepting is over.
    pub open spec fn accepted(self, outcome: AcceptOutcome) -> ProxyView {
        match outcome {
            AcceptOutcome::Client => self.enter(
                PhaseView::Choosing { purpose: Purpose::NewClient },
            ),
            _ => self.enter(PhaseView::Idle),
        }
    }

    /// The state after the choice of a backend server.
    pub open spec fn chosen(self, backend: Option<SocketAddr>) -> ProxyView {
        match (self.phase, backend) {
            (PhaseView::Choosing { purpose }, Some(addr)) => self.enter(
                PhaseView::Connecting { purpose, addr },
            ),
            _ => self.enter(PhaseView::Aborted { fault: Fault::NoBackend }),
        }
    }

    /// The state after a connect. One that failed for a new client ends accepting as well.
    pub open spec fn connected(self, opened: bool) -> ProxyView {
        match self.phase {
            PhaseView::Connecting { purpose: Purpose::NewClient, .. } if opened
                => self.accept_one(),
            PhaseView::Connecting { purpose: Purpose::Retry { token }, .. } if opened => {
                let c = self.conns[token];
                self.put(token, ConnectionView { timeout: true, ..c }).emit(
                    Effect::Attach { token, socket: Socket::Opened },
                ).emit(Effect::Register { token, interest: c.interest }).emit(
                    Effect::StartTimeout { token, ms: CONNECT_TIMEOUT_MS },
                ).enter(PhaseView::Idle)
            },
            _ => self.enter(PhaseView::Idle),
        }
    }

    /// The state after a write.
    pub open spec fn wrote(self, outcome: WriteOutcome) -> ProxyView {
        match self.phase {
            PhaseView::Writing { token, events } => {
                let status = self.conns[token].write_status(outcome);
                let written = self.put(token, self.conns[token].write_one_buf(outcome));
                match status {
                    WriteStatus::More => written,
                    _ => written.send_queue_flushed(token, status).after_write(token, events),
                }
            },
            _ => self,
        }
    }

    /// The state after a read.
    pub open spec fn read(self, outcome: ReadOutcomeView) -> ProxyView {
        match self.phase {
            PhaseView::Reading { token, reading, then } => {
                let gathered = reading.read(outcome);
                match reading.status(outcome) {
                    ReadStatus::More => self.enter(
                        PhaseView::Reading { token, reading: gathered, then },
                    ),
                    ReadStatus::Finished { exhausted_kernel } => self.read_finished(
                        token,
                        gathered.messages,
                        exhausted_kernel,
                        then,
                    ),
                    ReadStatus::Failed => self.enter(
                        PhaseView::Aborted { fault: Fault::ReadFailed { token } },
                    ),
                }
            },
            _ => self,
        }
    }
}

} // verus!
