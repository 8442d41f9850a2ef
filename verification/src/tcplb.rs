//! The proxy: which operations on sockets an event or an outcome calls for.
use std::collections::VecDeque;
use vstd::prelude::*;

use crate::addr::{denotes_what_it_spells, parsed_socket_addr, AddrParseError, SocketAddr};
use crate::backend::{GetBackend, RoundRobinBackend};
use crate::connection::{
    buffers, Connection, ConnectionView, Effect, ReadOutcome, ReadStatus, Reading, Socket,
    WriteOutcome, WriteStatus, MAX_BUFFERS_PER_CONNECTION,
};
use crate::consistency::{
    all_filled, lemma_connected, lemma_deliver, lemma_initial, lemma_mark_connected,
    lemma_push_to_readable_tokens, lemma_put, lemma_read, lemma_read_finished_from_any_phase,
    lemma_ready, lemma_send_queue_flushed, lemma_terminate, lemma_try_next_server,
    lemma_write_one_buf, lemma_written, lemma_wrote, linked, tokens_inv,
};
use crate::events::EventSet;
use crate::model::{
    AcceptOutcome, AfterRead, Fault, PhaseView, ProxyView, Purpose, CONNECT_TIMEOUT_MS, FIRST_TOKEN,
    LISTEN_TOKEN, MAX_CONNECTIONS,
};
use crate::slab::{slab_contents, slab_free, ConnectionSlab};

verus! {

/// What the proxy waits for.
enum Phase {
    Idle,
    Accepting,
    Choosing { purpose: Purpose },
    Connecting { purpose: Purpose, addr: SocketAddr },
    Writing { token: usize, events: EventSet },
    Reading { token: usize, reading: Reading, then: AfterRead },
    Aborted { fault: Fault },
}

impl View for Phase {
    type V = PhaseView;

    closed spec fn view(&self) -> PhaseView {
        match *self {
            Phase::Idle => PhaseView::Idle,
            Phase::Accepting => PhaseView::Accepting,
            Phase::Choosing { purpose } => PhaseView::Choosing { purpose },
            Phase::Connecting { purpose, addr } => PhaseView::Connecting { purpose, addr },
            Phase::Writing { token, events } => PhaseView::Writing { token, events },
            Phase::Reading { token, reading, then } => PhaseView::Reading {
                token,
                reading: reading@,
                then,
            },
            Phase::Aborted { fault } => PhaseView::Aborted { fault },
        }
    }
}

/// What the event loop is to do for the proxy before it calls it again, once the operations that
/// [`Proxy::take_effects`] hands over are carried out.
#[derive(Clone, Copy, PartialEq, Eq, Structural, Debug)]
pub enum Request {
    /// Wait for an event, then call [`Proxy::ready`] or [`Proxy::timeout`].
    Wait,
    /// Accept a client, then call [`Proxy::accepted`].
    Accept,
    /// Call [`Proxy::connect_to_backend_server`] with the backend servers.
    ChooseBackend,
    /// Open a socket to `addr`, then call [`Proxy::connected`].
    Connect { addr: SocketAddr },
    /// Write [`Proxy::buffer_to_write`] to the socket of `token`, then call [`Proxy::wrote`].
    Write { token: usize },
    /// Read the socket of `token`, then call [`Proxy::read`].
    Read { token: usize },
    /// Give up: the proxy cannot go on.
    Abort { fault: Fault },
}

/// What the event loop is to do in a phase.
pub open spec fn request_of(phase: PhaseView) -> Request {
    match phase {
        PhaseView::Idle => Request::Wait,
        PhaseView::Accepting => Request::Accept,
        PhaseView::Choosing { .. } => Request::ChooseBackend,
        PhaseView::Connecting { addr, .. } => Request::Connect { addr },
        PhaseView::Writing { token, .. } => Request::Write { token },
        PhaseView::Reading { token, .. } => Request::Read { token },
        PhaseView::Aborted { fault } => Request::Abort { fault },
    }
}

/// A TCP proxy between clients and backend servers.
pub struct Proxy {
    // address where incoming connections arrive
    listen_addr: SocketAddr,
    // token of the listening socket
    token: usize,
    // connections, front and back ends
    connections: ConnectionSlab,
    // tokens waiting to be read
    readable_tokens: VecDeque<usize>,
    // operations on sockets that are due
    effects: Vec<Effect>,
    // what the proxy waits for
    phase: Phase,
}

impl View for Proxy {
    type V = ProxyView;

    closed spec fn view(&self) -> ProxyView {
        ProxyView {
            conns: slab_contents(self.connections),
            free: slab_free(self.connections),
            readable: self.readable_tokens@,
            effects: self.effects@,
            phase: self.phase@,
        }
    }
}

impl Proxy {
    /// Whether the listening socket has its own token.
    pub closed spec fn listens(&self) -> bool {
        self.token == LISTEN_TOKEN
    }

    /// What holds of every proxy that was made by [`Proxy::new`].
    pub open spec fn inv(&self) -> bool {
        &&& self.listens()
        &&& self@.inv()
    }

    /// The address where incoming connections arrive.
    pub closed spec fn address(&self) -> SocketAddr {
        self.listen_addr
    }

    /// Whether nothing but the state of the two differs.
    spec fn same_identity(&self, other: &Proxy) -> bool {
        self.token == other.token && self.listen_addr == other.listen_addr
    }

    /// A proxy that listens on the address that the text denotes. The text has to denote one, as
    /// [`SocketAddr::from_str`] tells; [`Proxy::try_new`] takes any text.
    pub fn new(listen_addr: &str) -> (proxy: Proxy)
        requires
            parsed_socket_addr(listen_addr@) is Some,
        ensures
            proxy.inv(),
            proxy@ == ProxyView::initial(),
            proxy.address() == parsed_socket_addr(listen_addr@)->0,
            denotes_what_it_spells(listen_addr@),
    {
        let addr = SocketAddr::from_str(listen_addr).expect(
            "Failed to parse listen host:port string",
        );
        Proxy::listening_on(addr)
    }

    /// A proxy that listens on the address that the text denotes, or an error if it denotes none.
    pub fn try_new(listen_addr: &str) -> (result: Result<Proxy, AddrParseError>)
        ensures
            result is Ok <==> parsed_socket_addr(listen_addr@) is Some,
            result is Ok ==> result->Ok_0.inv(),
            result is Ok ==> result->Ok_0@ == ProxyView::initial(),
            result is Ok ==> result->Ok_0.address() == parsed_socket_addr(listen_addr@)->0,
            denotes_what_it_spells(listen_addr@),
    {
        match SocketAddr::from_str(listen_addr) {
            Ok(_) => Ok(Proxy::new(listen_addr)),
            Err(error) => Err(error),
        }
    }

    /// A proxy that listens on `addr`.
    pub fn listening_on(addr: SocketAddr) -> (proxy: Proxy)
        ensures
            proxy.inv(),
            proxy@ == ProxyView::initial(),
            proxy.address() == addr,
    {
        let proxy = Proxy {
            listen_addr: addr,
            token: LISTEN_TOKEN,
            connections: ConnectionSlab::new_starting_at(FIRST_TOKEN, MAX_CONNECTIONS),
            readable_tokens: VecDeque::with_capacity(MAX_CONNECTIONS),
            effects: Vec::new(),
            phase: Phase::Idle,
        };
        proof {
            assert(proxy@ =~= ProxyView::initial());
            lemma_initial(proxy@);
        }
        proxy
    }

    /// Whether there is a connection `token`.
    fn contains(&self, token: usize) -> (live: bool)
        requires
            tokens_inv(self@.conns, self@.free),
        ensures
            live == self@.live(token),
    {
        assert(self@.conns.contains_key(token) || self@.free.contains(token) <==> FIRST_TOKEN
            <= token < FIRST_TOKEN + MAX_CONNECTIONS);
        FIRST_TOKEN <= token && token < FIRST_TOKEN + MAX_CONNECTIONS && self.connections.contains(
            token,
        )
    }

    /// Puts a token in the list of readable tokens.
    ///
    /// Once a token is in the list, it is no longer interested in readable events.
    fn push_to_readable_tokens(&mut self, token: usize)
        requires
            old(self)@.live(token),
            old(self)@.conns[token].token == token,
        ensures
            final(self)@ == old(self)@.push_to_readable_tokens(token),
            final(self).same_identity(old(self)),
    {
        self.readable_tokens.push_back(token);
        let connection = self.connections.index_mut(token);
        connection.interest.remove(EventSet::readable());
        let effect = connection.reregister(true);
        self.effects.push(effect);
    }

    /// Queues what was read from a token on its other end.
    fn deliver(&mut self, token: usize, messages: VecDeque<Vec<u8>>)
        requires
            old(self)@.table_inv(),
            old(self)@.live(token),
            old(self)@.conns[token].end is Some,
        ensures
            final(self)@ == old(self)@.deliver(token, buffers(messages@)),
            final(self).same_identity(old(self)),
    {
        // let's not tell we have something to write if we don't
        if messages.len() == 0 {
            return;
        }
        proof {
            assert(linked(self@.conns, token));
            assert(self@.conns.contains_key(self@.other_end(token)));
            assert(self@.conns[token].inv(token));
            assert(self@.conns[self@.other_end(token)].inv(self@.other_end(token)));
        }
        if let Some(end) = self.connections.index(token).end_token {
            let connection = self.connections.index_mut(end);
            connection.send_messages(messages);
            let effect = connection.reregister(false);
            self.effects.push(effect);
            let effect = self.connections.index(token).reregister(true);
            self.effects.push(effect);
        }
    }

    /// Terminates a connection as well as its other end.
    ///
    /// The other end stays until its send queue is flushed.
    fn terminate_connection(&mut self, token: usize)
        requires
            old(self)@.live(token),
            old(self)@.conns[token].token == token,
            linked(old(self)@.conns, token),
            old(self)@.conns[token].end is Some ==> old(self)@.conns[old(self)@.other_end(
                token,
            )].token == old(self)@.other_end(token),
        ensures
            final(self)@ == old(self)@.terminate_connection(token),
            final(self).same_identity(old(self)),
    {
        if let Some(end) = self.connections.index(token).end_token {
            if self.connections.index(end).send_queue.len() == 0 {
                // Nothing to write on the other end, we can drop it
                let effect = self.connections.index(end).deregister();
                self.effects.push(effect);
                let _ = self.connections.remove(end);
                self.effects.push(Effect::Close { token: end });
            } else {
                // We still need to write things in the other end, just stop reading it: it is
                // terminated when its send queue is flushed
                let connection = self.connections.index_mut(end);
                connection.end_token = None;
                connection.interest.remove(EventSet::readable());
                connection.interest.insert(EventSet::writable());
                let effect = connection.reregister(true);
                self.effects.push(effect);
            }
        }
        assert(self@ == old(self)@.abandon_other_end(token));
        let effect = self.connections.index(token).deregister();
        self.effects.push(effect);
        let _ = self.connections.remove(token);
        self.effects.push(Effect::Close { token });
    }

    /// Tries to flush the list of readable tokens, `left` of them at most.
    ///
    /// A token is removed from the list once the kernel buffer is flushed completely.
    fn flush_readable_tokens(&mut self, left: usize)
        requires
            old(self)@.table_inv(),
        ensures
            final(self)@ == old(self)@.flush_readable_tokens(left),
            final(self).same_identity(old(self)),
    {
        let mut remaining: usize = left;
        loop
            invariant
                self@.table_inv(),
                self.same_identity(old(self)),
                self@.flush_readable_tokens(remaining) == old(self)@.flush_readable_tokens(left),
            decreases remaining,
        {
            if remaining == 0 {
                self.phase = Phase::Idle;
                return;
            }
            match self.readable_tokens.pop_front() {
                None => {
                    self.phase = Phase::Idle;
                    return;
                },
                Some(token) => {
                    if !self.contains(token) {
                        self.phase = Phase::Aborted { fault: Fault::NoConnection { token } };
                        return;
                    }
                    match self.connections.index(token).end_token {
                        None => {
                            self.phase = Phase::Aborted { fault: Fault::NoOtherEnd { token } };
                            return;
                        },
                        Some(end) => {
                            let buffers_to_read = self.buffers_to_read(token, end);
                            remaining = remaining - 1;
                            if buffers_to_read == 0 {
                                self.readable_tokens.push_back(token);
                            } else {
                                self.phase = Phase::Reading {
                                    token,
                                    reading: Reading::begin(buffers_to_read),
                                    then: AfterRead::Flush { left: remaining },
                                };
                                return;
                            }
                        },
                    }
                },
            }
        }
    }

    /// How many buffers may be read from a token before the send queue of its other end is full.
    fn buffers_to_read(&self, token: usize, end: usize) -> (nb_buffers: usize)
        requires
            self@.table_inv(),
            self@.live(token),
            self@.conns[token].end == Some(end),
        ensures
            nb_buffers == self@.room(token),
    {
        assert(linked(self@.conns, token));
        assert(self@.conns.contains_key(end) && self@.conns[end].inv(end));
        let queue = &self.connections.index(end).send_queue;
        assert(buffers(queue@).len() == queue@.len());
        MAX_BUFFERS_PER_CONNECTION - queue.len()
    }

    /// Ends the read of a token.
    fn read_finished(
        &mut self,
        token: usize,
        messages: VecDeque<Vec<u8>>,
        exhausted_kernel: bool,
        then: AfterRead,
    )
        requires
            old(self)@.table_inv(),
            old(self)@.live(token),
            old(self)@.conns[token].end is Some,
            buffers(messages@).len() <= old(self)@.room(token),
            all_filled(buffers(messages@)),
        ensures
            final(self)@ == old(self)@.read_finished(
                token,
                buffers(messages@),
                exhausted_kernel,
                then,
            ),
            final(self).same_identity(old(self)),
    {
        proof {
            lemma_deliver(self@, token, buffers(messages@));
        }
        self.deliver(token, messages);
        assert(self@.conns[token].inv(token));
        match then {
            AfterRead::Terminate => {
                proof {
                    assert(linked(self@.conns, token));
                    lemma_terminate(self@, token);
                    let end = self@.other_end(token);
                    assert(self@.conns.contains_key(end) && self@.conns[end].inv(end));
                }
                self.terminate_connection(token);
                let count = self.readable_tokens.len();
                self.flush_readable_tokens(count);
            },
            AfterRead::Flush { left } => {
                if exhausted_kernel {
                    proof {
                        let c = self@.conns[token];
                        lemma_put(
                            self@,
                            token,
                            ConnectionView {
                                interest: EventSet { readable: true, ..c.interest },
                                ..c
                            },
                        );
                    }
                    let connection = self.connections.index_mut(token);
                    connection.interest.insert(EventSet::readable());
                    let effect = connection.reregister(true);
                    self.effects.push(effect);
                } else {
                    self.readable_tokens.push_back(token);
                }
                self.flush_readable_tokens(left);
            },
        }
    }

    /// Reads as much as it can of a token that hung up, then terminates the connection.
    ///
    /// Stops when everything the kernel had was read or the send queue of the other end is full.
    fn read_and_terminate(&mut self, token: usize)
        requires
            old(self)@.table_inv(),
        ensures
            final(self)@ == old(self)@.read_and_terminate(token),
            final(self).same_identity(old(self)),
    {
        if !self.contains(token) {
            self.phase = Phase::Aborted { fault: Fault::NoConnection { token } };
            return;
        }
        match self.connections.index(token).end_token {
            None => {
                self.phase = Phase::Aborted { fault: Fault::NoOtherEnd { token } };
            },
            Some(end) => {
                let buffers_to_read = self.buffers_to_read(token, end);
                if buffers_to_read == 0 {
                    let messages: VecDeque<Vec<u8>> = VecDeque::new();
                    assert(buffers(messages@) =~= seq![]);
                    self.read_finished(token, messages, false, AfterRead::Terminate);
                } else {
                    self.phase = Phase::Reading {
                        token,
                        reading: Reading::begin(buffers_to_read),
                        then: AfterRead::Terminate,
                    };
                }
            },
        }
    }

    /// Handles what is left of the events of a token once the writable event is dealt with.
    fn after_write(&mut self, token: usize, events: EventSet)
        requires
            old(self)@.table_inv(),
        ensures
            final(self)@ == old(self)@.after_write(token, events),
            final(self).same_identity(old(self)),
    {
        if events.hup && events.readable {
            // bypass the readable tokens queue and drop the connection
            self.read_and_terminate(token);
        } else if events.readable {
            if !self.contains(token) {
                self.phase = Phase::Aborted { fault: Fault::NoConnection { token } };
                return;
            }
            proof {
                assert(self@.conns[token].inv(token));
                lemma_push_to_readable_tokens(self@, token);
            }
            self.push_to_readable_tokens(token);
            let count = self.readable_tokens.len();
            self.flush_readable_tokens(count);
        } else {
            let count = self.readable_tokens.len();
            self.flush_readable_tokens(count);
        }
    }

    /// Ends the flush of the send queue of a token.
    ///
    /// Drops the connection if everything is sent and the other end is gone.
    fn flush_send_queue(&mut self, token: usize, status: WriteStatus)
        requires
            old(self)@.live(token),
            old(self)@.conns[token].token == token,
            linked(old(self)@.conns, token),
            old(self)@.conns[token].end is Some ==> old(self)@.conns[old(self)@.other_end(
                token,
            )].token == old(self)@.other_end(token),
        ensures
            final(self)@ == old(self)@.send_queue_flushed(token, status),
            final(self).same_identity(old(self)),
    {
        let connection = self.connections.index_mut(token);
        match status {
            WriteStatus::Finished { flushed_everything } => {
                if flushed_everything {
                    connection.interest.remove(EventSet::writable());
                    let effect = connection.reregister(true);
                    self.effects.push(effect);
                }
            },
            _ => {
                connection.send_queue.clear();
                assert(buffers(connection.send_queue@) =~= seq![]);
            },
        }
        let connection = self.connections.index(token);
        assert(connection@.queue.len() == connection.send_queue@.len());
        if connection.send_queue.len() == 0 && connection.end_token.is_none() {
            self.terminate_connection(token);
        }
    }

    /// Handles a write event from the event loop.
    ///
    /// Getting a write event means that the TCP connection phase is finished.
    fn handle_write_event(&mut self, token: usize, events: EventSet)
        requires
            old(self)@.table_inv(),
        ensures
            final(self)@ == old(self)@.handle_write_event(token, events),
            final(self).same_identity(old(self)),
    {
        if !self.contains(token) {
            self.phase = Phase::Aborted { fault: Fault::NoConnection { token } };
            return;
        }
        assert(self@.conns[token].inv(token));
        if !self.connections.index(token).connected {
            proof {
                lemma_mark_connected(self@, token);
            }
            let connection = self.connections.index_mut(token);
            connection.connected = true;
            self.effects.push(Effect::Connected { token });
        }
        let connection = self.connections.index(token);
        assert(connection@.queue.len() == connection.send_queue@.len());
        if connection.send_queue.len() == 0 {
            let status = WriteStatus::Finished { flushed_everything: true };
            proof {
                assert(self@.conns.contains_key(token) && linked(self@.conns, token));
                lemma_send_queue_flushed(self@, token, status);
                if self@.conns[token].end is Some {
                    let end = self@.other_end(token);
                    assert(self@.conns.contains_key(end) && self@.conns[end].inv(end));
                }
            }
            self.flush_send_queue(token, status);
            self.after_write(token, events);
        } else {
            self.phase = Phase::Writing { token, events };
        }
    }

    /// Gives the socket of a connection up to try the next backend server.
    ///
    /// Clears the timeout to prevent multiple timeouts to be set concurrently.
    fn try_next_server(&mut self, token: usize)
        requires
            old(self)@.live(token),
            old(self)@.conns[token].token == token,
        ensures
            final(self)@ == old(self)@.try_next_server(token),
            final(self).same_identity(old(self)),
    {
        if self.connections.index(token).timeout {
            self.effects.push(Effect::ClearTimeout { token });
            let connection = self.connections.index_mut(token);
            connection.timeout = false;
        }
        let effect = self.connections.index(token).deregister();
        self.effects.push(effect);
        self.phase = Phase::Choosing { purpose: Purpose::Retry { token } };
    }

    /// Creates a connection for a socket.
    fn create_connection_from_sock(&mut self, socket: Socket, already_connected: bool) -> (token:
        Option<usize>)
        ensures
            token is None <==> old(self)@.free.len() == 0,
            token is None ==> final(self)@ == old(self)@,
            token is Some ==> token->0 == old(self)@.free[0],
            token is Some ==> final(self)@ == created(
                old(self)@,
                token->0,
                socket,
                already_connected,
            ),
            final(self).same_identity(old(self)),
    {
        let create = |token: usize| -> (connection: Connection)
            ensures
                is_fresh(connection@, token, already_connected),
            { Connection::new(token, already_connected) };
        let token = self.connections.insert_with(create);
        if let Some(token) = token {
            self.effects.push(Effect::Attach { token, socket });
            let effect = self.connections.index(token).register();
            self.effects.push(effect);
        }
        token
    }

    /// Links two connections together.
    ///
    /// A connection is not interested in read events before being linked.
    fn link_connections_together(&mut self, client_token: usize, backend_token: usize)
        requires
            client_token != backend_token,
            old(self)@.live(client_token),
            old(self)@.live(backend_token),
            old(self)@.conns[client_token].token == client_token,
            old(self)@.conns[backend_token].token == backend_token,
        ensures
            final(self)@ == linked_together(old(self)@, client_token, backend_token),
            final(self).same_identity(old(self)),
    {
        let client = self.connections.index_mut(client_token);
        client.end_token = Some(backend_token);
        client.interest.insert(EventSet::readable());
        let backend = self.connections.index_mut(backend_token);
        backend.end_token = Some(client_token);
        backend.interest.insert(EventSet::readable());
        backend.interest.insert(EventSet::writable());
        let effect = self.connections.index(client_token).reregister(true);
        self.effects.push(effect);
        let effect = self.connections.index(backend_token).reregister(true);
        self.effects.push(effect);
    }

    /// Creates the two ends of a tunnel for the client that was accepted.
    ///
    /// Goes on accepting where both could be created.
    fn accept_one(&mut self)
        requires
            old(self)@.table_inv(),
        ensures
            final(self)@ == old(self)@.accept_one(),
            final(self).same_identity(old(self)),
    {
        let client_token = self.create_connection_from_sock(Socket::Accepted, true);
        let backend_token = self.create_connection_from_sock(Socket::Opened, false);
        match (client_token, backend_token) {
            (Some(client_token), Some(backend_token)) => {
                self.link_connections_together(client_token, backend_token);
                // a timeout on the backend server socket
                self.effects.push(
                    Effect::StartTimeout { token: backend_token, ms: CONNECT_TIMEOUT_MS },
                );
                let connection = self.connections.index_mut(backend_token);
                connection.timeout = true;
                self.phase = Phase::Accepting;
            },
            (Some(client_token), None) => {
                // the backend end cannot be created, drop the client
                let _ = self.connections.remove(client_token);
                self.effects.push(Effect::Close { token: client_token });
                self.phase = Phase::Idle;
            },
            (None, Some(backend_token)) => {
                // the client end cannot be created, drop the backend
                let _ = self.connections.remove(backend_token);
                self.effects.push(Effect::Close { token: backend_token });
                self.phase = Phase::Idle;
            },
            (None, None) => {
                self.phase = Phase::Idle;
            },
        }
    }

    /// What the event loop is to do before it calls the proxy again.
    pub fn request(&self) -> (request: Request)
        ensures
            request == request_of(self@.phase),
    {
        match &self.phase {
            Phase::Idle => Request::Wait,
            Phase::Accepting => Request::Accept,
            Phase::Choosing { .. } => Request::ChooseBackend,
            Phase::Connecting { addr, .. } => Request::Connect { addr: *addr },
            Phase::Writing { token, .. } => Request::Write { token: *token },
            Phase::Reading { token, .. } => Request::Read { token: *token },
            Phase::Aborted { fault } => Request::Abort { fault: *fault },
        }
    }

    /// The bytes to write while a write is due: the first buffer of the send queue.
    pub fn buffer_to_write(&self) -> (buffer: Option<&Vec<u8>>)
        requires
            self.inv(),
        ensures
            match self@.phase {
                PhaseView::Writing { token, .. } => {
                    &&& buffer is Some
                    &&& buffer->0@ == self@.conns[token].queue[0]
                },
                _ => buffer is None,
            },
    {
        match &self.phase {
            Phase::Writing { token, .. } => {
                let queue = &self.connections.index(*token).send_queue;
                assert(buffers(queue@).len() == queue@.len());
                assert(buffers(queue@)[0] == queue@[0]@);
                Some(&queue[0])
            },
            _ => None,
        }
    }

    /// Hands over the operations on sockets that are due, the oldest first.
    pub fn take_effects(&mut self) -> (effects: Vec<Effect>)
        requires
            old(self).inv(),
        ensures
            effects@ == old(self)@.effects,
            final(self)@ == (ProxyView { effects: seq![], ..old(self)@ }),
            final(self).inv(),
            final(self).address() == old(self).address(),
    {
        let mut effects: Vec<Effect> = Vec::new();
        std::mem::swap(&mut effects, &mut self.effects);
        effects
    }

    /// The address where incoming connections arrive.
    pub fn listen_addr(&self) -> (addr: SocketAddr)
        ensures
            addr == self.address(),
    {
        self.listen_addr
    }

    /// How many connections there are, client and backend ends together.
    pub fn connection_count(&self) -> (count: usize)
        ensures
            count == self@.conns.dom().len(),
    {
        self.connections.count()
    }

    /// How many tokens wait to be read.
    pub fn readable_count(&self) -> (count: usize)
        ensures
            count == self@.readable.len(),
    {
        self.readable_tokens.len()
    }

    /// Called when a timeout is fired, which is only used for backend server connections.
    pub fn timeout(&mut self, token: usize)
        requires
            old(self).inv(),
            old(self)@.phase is Idle,
        ensures
            final(self)@ == old(self)@.timeout(token),
            final(self).inv(),
            final(self).address() == old(self).address(),
    {
        if self.contains(token) && !self.connections.index(token).connected {
            proof {
                assert(self@.conns[token].inv(token));
                lemma_try_next_server(self@, token);
            }
            self.try_next_server(token);
        }
    }

    /// Called when events on a token are notified.
    pub fn ready(&mut self, token: usize, events: EventSet)
        requires
            old(self).inv(),
            old(self)@.phase is Idle,
        ensures
            final(self)@ == old(self)@.ready(token, events),
            final(self).inv(),
            final(self).address() == old(self).address(),
    {
        proof {
            lemma_ready(self@, token, events);
        }
        // only read events of the listening token are of interest, so this is one
        if token == self.token {
            self.phase = Phase::Accepting;
            return;
        }
        if events.error {
            if !self.contains(token) {
                self.phase = Phase::Aborted { fault: Fault::NoConnection { token } };
                return;
            }
            proof {
                assert(self@.conns[token].inv(token));
                assert(linked(self@.conns, token));
                if self@.conns[token].end is Some {
                    let end = self@.other_end(token);
                    assert(self@.conns.contains_key(end) && self@.conns[end].inv(end));
                }
            }
            if !self.connections.index(token).connected {
                // Got an error while connecting to a backend server, let's try the next one
                self.try_next_server(token);
            } else {
                self.terminate_connection(token);
            }
            return;
        }
        if events.writable {
            self.handle_write_event(token, events);
        } else {
            self.after_write(token, events);
        }
    }

    /// Called with what came of an accept.
    pub fn accepted(&mut self, outcome: AcceptOutcome)
        requires
            old(self).inv(),
            old(self)@.phase is Accepting,
        ensures
            final(self)@ == old(self)@.accepted(outcome),
            final(self).inv(),
            final(self).address() == old(self).address(),
    {
        match outcome {
            AcceptOutcome::Client => {
                self.phase = Phase::Choosing { purpose: Purpose::NewClient };
            },
            AcceptOutcome::NoClient | AcceptOutcome::Failed => {
                self.phase = Phase::Idle;
            },
        }
    }

    /// Called with the backend servers, of which it takes the next one.
    pub fn connect_to_backend_server(&mut self, backend: &mut RoundRobinBackend)
        requires
            old(self).inv(),
            old(self)@.phase is Choosing,
        ensures
            final(self)@ == old(self)@.chosen(old(backend)@.next_server()),
            final(backend)@ == old(backend)@.advance(),
            final(self).inv(),
            final(self).address() == old(self).address(),
    {
        match &self.phase {
            Phase::Choosing { purpose } => {
                let purpose = *purpose;
                match backend.get() {
                    Some(addr) => {
                        self.phase = Phase::Connecting { purpose, addr };
                    },
                    None => {
                        self.phase = Phase::Aborted { fault: Fault::NoBackend };
                    },
                }
            },
            _ => {},
        }
    }

    /// Called with what came of a connect: whether a socket was opened.
    pub fn connected(&mut self, opened: bool)
        requires
            old(self).inv(),
            old(self)@.phase is Connecting,
        ensures
            final(self)@ == old(self)@.connected(opened),
            final(self).inv(),
            final(self).address() == old(self).address(),
    {
        proof {
            lemma_connected(self@, opened);
        }
        match &self.phase {
            Phase::Connecting { purpose, .. } => {
                let purpose = *purpose;
                if !opened {
                    self.phase = Phase::Idle;
                    return;
                }
                match purpose {
                    Purpose::NewClient => self.accept_one(),
                    Purpose::Retry { token } => {
                        assert(self@.conns[token].inv(token));
                        self.effects.push(Effect::Attach { token, socket: Socket::Opened });
                        let effect = self.connections.index(token).register();
                        self.effects.push(effect);
                        // another timeout in case the new backend server is also unavailable
                        self.effects.push(Effect::StartTimeout { token, ms: CONNECT_TIMEOUT_MS });
                        let connection = self.connections.index_mut(token);
                        connection.timeout = true;
                        self.phase = Phase::Idle;
                    },
                }
            },
            _ => {},
        }
    }

    /// Called with what came of a write.
    pub fn wrote(&mut self, outcome: WriteOutcome)
        requires
            old(self).inv(),
            old(self)@.phase is Writing,
        ensures
            final(self)@ == old(self)@.wrote(outcome),
            final(self).inv(),
            final(self).address() == old(self).address(),
    {
        proof {
            lemma_wrote(self@, outcome);
        }
        match &self.phase {
            Phase::Writing { token, events } => {
                let token = *token;
                let events = *events;
                let ghost before = self@;
                let ghost c = self@.conns[token];
                proof {
                    assert(c.inv(token));
                    assert(linked(before.conns, token));
                    lemma_write_one_buf(c, token, outcome);
                    if c.end is Some {
                        let end = before.other_end(token);
                        assert(before.conns.contains_key(end) && before.conns[end].inv(end));
                    }
                }
                let status = self.connections.index_mut(token).write(outcome);
                assert(self@ == before.put(token, c.write_one_buf(outcome)));
                match status {
                    WriteStatus::More => {},
                    _ => {
                        proof {
                            lemma_written(before, token, outcome);
                        }
                        self.flush_send_queue(token, status);
                        self.after_write(token, events);
                    },
                }
            },
            _ => {},
        }
    }

    /// Called with what came of a read.
    pub fn read(&mut self, outcome: ReadOutcome)
        requires
            old(self).inv(),
            old(self)@.phase is Reading,
        ensures
            final(self)@ == old(self)@.read(outcome@),
            final(self).inv(),
            final(self).address() == old(self).address(),
    {
        let ghost before = self@;
        proof {
            lemma_read(before, outcome@);
        }
        let mut phase = Phase::Idle;
        std::mem::swap(&mut phase, &mut self.phase);
        match phase {
            Phase::Reading { token, reading, then } => {
                let mut reading = reading;
                let status = reading.read(outcome);
                match status {
                    ReadStatus::More => {
                        self.phase = Phase::Reading { token, reading, then };
                    },
                    ReadStatus::Finished { exhausted_kernel } => {
                        proof {
                            lemma_read_finished_from_any_phase(
                                before,
                                PhaseView::Idle,
                                token,
                                reading@.messages,
                                exhausted_kernel,
                                then,
                            );
                        }
                        self.read_finished(token, reading.messages, exhausted_kernel, then);
                    },
                    ReadStatus::Failed => {
                        self.phase = Phase::Aborted { fault: Fault::ReadFailed { token } };
                    },
                }
            },
            _ => {},
        }
    }
}

/// Whether a connection was just created.
spec fn is_fresh(c: ConnectionView, token: usize, connected: bool) -> bool {
    c == ConnectionView::fresh(token, connected)
}

/// The state with a connection created for a socket.
spec fn created(s: ProxyView, token: usize, socket: Socket, connected: bool) -> ProxyView {
    let c = ConnectionView::fresh(token, connected);
    ProxyView { conns: s.conns.insert(token, c), free: s.free.skip(1), ..s }.emit(
        Effect::Attach { token, socket },
    ).emit(Effect::Register { token, interest: c.interest })
}

/// The state with two connections linked together.
spec fn linked_together(s: ProxyView, client: usize, backend: usize) -> ProxyView {
    let c = ConnectionView {
        end: Some(backend),
        interest: EventSet { readable: true, ..s.conns[client].interest },
        ..s.conns[client]
    };
    let b = ConnectionView {
        end: Some(client),
        interest: EventSet { readable: true, writable: true, ..s.conns[backend].interest },
        ..s.conns[backend]
    };
    s.put(client, c).put(backend, b).emit(crate::model::reregister(client, c)).emit(
        crate::model::reregister(backend, b),
    )
}

/// What is asked of the event loop is what the proxy waits for.
pub proof fn law_requests_are_what_is_waited_for(phase: PhaseView)
    ensures
        request_of(phase) is Wait <==> phase is Idle,
        request_of(phase) is Accept <==> phase is Accepting,
        request_of(phase) is ChooseBackend <==> phase is Choosing,
        phase is Connecting ==> request_of(phase) == (Request::Connect {
            addr: phase->Connecting_addr,
        }),
        phase is Writing ==> request_of(phase) == (Request::Write { token: phase->Writing_token }),
        phase is Reading ==> request_of(phase) == (Request::Read { token: phase->Reading_token }),
        phase is Aborted ==> request_of(phase) == (Request::Abort { fault: phase->fault }),
{
}

} // verus!
