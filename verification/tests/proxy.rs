use nucleon::addr::{AddrParseError, SocketAddr};
use nucleon::backend::RoundRobinBackend;
use nucleon::connection::{Effect, ReadOutcome, Socket, WriteOutcome, BUFFER_SIZE};
use nucleon::events::EventSet;
use nucleon::model::{AcceptOutcome, Fault};
use nucleon::tcplb::{Proxy, Request};

/// The events that the letters name: readable, writable, error, hup.
fn on(letters: &str) -> EventSet {
    EventSet {
        readable: letters.contains('r'),
        writable: letters.contains('w'),
        error: letters.contains('e'),
        hup: letters.contains('h'),
    }
}

fn server(port: u16) -> SocketAddr {
    SocketAddr::V4 { octets: 0x7f000001, port }
}

fn servers() -> RoundRobinBackend {
    RoundRobinBackend::from_addrs(vec![server(6000), server(6001)])
}

fn proxy() -> Proxy {
    Proxy::new("127.0.0.1:8000")
}

fn reregister(token: usize, letters: &str) -> Effect {
    Effect::Reregister { token, interest: on(letters), required: true }
}

/// Accepts one client, whose backend server is reached, and gives both tokens.
fn open_tunnel(proxy: &mut Proxy, backend: &mut RoundRobinBackend) -> (usize, usize) {
    proxy.ready(1, on("r"));
    proxy.accepted(AcceptOutcome::Client);
    proxy.connect_to_backend_server(backend);
    proxy.connected(true);
    assert_eq!(Request::Accept, proxy.request());
    proxy.accepted(AcceptOutcome::NoClient);
    assert_eq!(Request::Wait, proxy.request());
    let mut tokens: Vec<usize> = Vec::new();
    for effect in proxy.take_effects() {
        if let Effect::Attach { token, .. } = effect {
            tokens.push(token);
        }
    }
    assert_eq!(2, tokens.len());
    (tokens[0], tokens[1])
}

/// The backend server of `token` answers.
fn answer(proxy: &mut Proxy, token: usize) {
    proxy.ready(token, on("w"));
    assert_eq!(Request::Wait, proxy.request());
    assert_eq!(
        vec![Effect::Connected { token }, reregister(token, "reh")],
        proxy.take_effects()
    );
}

/// `token` is readable, and these bytes are all the kernel has.
fn receive(proxy: &mut Proxy, token: usize, bytes: &[u8]) {
    proxy.ready(token, on("r"));
    assert_eq!(Request::Read { token }, proxy.request());
    proxy.read(ReadOutcome::Data(bytes.to_vec()));
    assert_eq!(Request::Read { token }, proxy.request());
    proxy.read(ReadOutcome::WouldBlock);
}

#[test]
fn a_new_proxy_waits() {
    let proxy = proxy();
    assert_eq!(SocketAddr::V4 { octets: 0x7f000001, port: 8000 }, proxy.listen_addr());
    assert_eq!(0, proxy.connection_count());
    assert_eq!(0, proxy.readable_count());
    assert_eq!(Request::Wait, proxy.request());
    assert!(proxy.buffer_to_write().is_none());
}

#[test]
fn a_bad_address_is_refused() {
    assert_eq!(Some(AddrParseError), Proxy::try_new("localhost:8000").err());
    assert_eq!(Some(AddrParseError), Proxy::try_new("127.0.0.1").err());
    let proxy = Proxy::try_new("[::1]:443").ok().unwrap();
    assert_eq!(
        SocketAddr::V6 { segments: 1, port: 443, flowinfo: 0, scope_id: 0 },
        proxy.listen_addr()
    );
    assert_eq!(Request::Wait, proxy.request());
}

#[test]
fn a_client_gets_a_tunnel() {
    let mut proxy = proxy();
    let mut backend = servers();
    proxy.ready(1, on("r"));
    assert_eq!(Request::Accept, proxy.request());
    proxy.accepted(AcceptOutcome::Client);
    assert_eq!(Request::ChooseBackend, proxy.request());
    proxy.connect_to_backend_server(&mut backend);
    assert_eq!(Request::Connect { addr: server(6001) }, proxy.request());
    assert!(proxy.take_effects().is_empty());
    proxy.connected(true);
    assert_eq!(
        vec![
            Effect::Attach { token: 2, socket: Socket::Accepted },
            Effect::Register { token: 2, interest: on("eh") },
            Effect::Attach { token: 3, socket: Socket::Opened },
            Effect::Register { token: 3, interest: on("eh") },
            reregister(2, "reh"),
            reregister(3, "rweh"),
            Effect::StartTimeout { token: 3, ms: 1000 },
        ],
        proxy.take_effects()
    );
    assert_eq!(2, proxy.connection_count());
    assert_eq!(Request::Accept, proxy.request());
    proxy.accepted(AcceptOutcome::NoClient);
    assert_eq!(Request::Wait, proxy.request());
    assert!(proxy.take_effects().is_empty());
}

#[test]
fn all_pending_clients_are_accepted() {
    let mut proxy = proxy();
    let mut backend = servers();
    proxy.ready(1, on("r"));
    let mut reached: Vec<SocketAddr> = Vec::new();
    for _ in 0..3 {
        assert_eq!(Request::Accept, proxy.request());
        proxy.accepted(AcceptOutcome::Client);
        proxy.connect_to_backend_server(&mut backend);
        if let Request::Connect { addr } = proxy.request() {
            reached.push(addr);
        }
        proxy.connected(true);
    }
    proxy.accepted(AcceptOutcome::Failed);
    assert_eq!(Request::Wait, proxy.request());
    assert_eq!(6, proxy.connection_count());
    assert_eq!(vec![server(6001), server(6000), server(6001)], reached);
}

#[test]
fn a_client_without_backend_server_is_dropped() {
    let mut proxy = proxy();
    let mut backend = servers();
    proxy.ready(1, on("r"));
    proxy.accepted(AcceptOutcome::Client);
    proxy.connect_to_backend_server(&mut backend);
    proxy.connected(false);
    assert_eq!(Request::Wait, proxy.request());
    assert_eq!(0, proxy.connection_count());
    assert!(proxy.take_effects().is_empty());
}

#[test]
fn no_backend_server_is_a_fault() {
    let mut proxy = proxy();
    let mut backend = RoundRobinBackend::from_addrs(vec![]);
    proxy.ready(1, on("r"));
    proxy.accepted(AcceptOutcome::Client);
    proxy.connect_to_backend_server(&mut backend);
    assert_eq!(Request::Abort { fault: Fault::NoBackend }, proxy.request());
}

#[test]
fn bytes_are_passed_on() {
    let mut proxy = proxy();
    let mut backend = servers();
    let (client, server) = open_tunnel(&mut proxy, &mut backend);
    proxy.ready(client, on("r"));
    assert_eq!(vec![reregister(client, "eh")], proxy.take_effects());
    assert_eq!(Request::Read { token: client }, proxy.request());
    proxy.read(ReadOutcome::Data(b"hello".to_vec()));
    assert_eq!(Request::Read { token: client }, proxy.request());
    proxy.read(ReadOutcome::WouldBlock);
    assert_eq!(Request::Wait, proxy.request());
    assert_eq!(0, proxy.readable_count());
    assert_eq!(
        vec![
            Effect::Reregister { token: server, interest: on("rweh"), required: false },
            reregister(client, "eh"),
            reregister(client, "reh"),
        ],
        proxy.take_effects()
    );

    proxy.ready(server, on("w"));
    assert_eq!(vec![Effect::Connected { token: server }], proxy.take_effects());
    assert_eq!(Request::Write { token: server }, proxy.request());
    assert_eq!(Some(&b"hello".to_vec()), proxy.buffer_to_write());
    proxy.wrote(WriteOutcome::Wrote(2));
    assert_eq!(Request::Wait, proxy.request());
    assert!(proxy.buffer_to_write().is_none());
    assert!(proxy.take_effects().is_empty());

    proxy.ready(server, on("w"));
    assert_eq!(Some(&b"llo".to_vec()), proxy.buffer_to_write());
    proxy.wrote(WriteOutcome::WouldBlock);
    assert_eq!(Request::Wait, proxy.request());

    proxy.ready(server, on("w"));
    assert_eq!(Some(&b"llo".to_vec()), proxy.buffer_to_write());
    proxy.wrote(WriteOutcome::Wrote(3));
    assert_eq!(Request::Wait, proxy.request());
    assert_eq!(vec![reregister(server, "reh")], proxy.take_effects());
}

#[test]
fn buffers_are_written_in_order() {
    let mut proxy = proxy();
    let mut backend = servers();
    let (client, server) = open_tunnel(&mut proxy, &mut backend);
    receive(&mut proxy, client, b"one");
    receive(&mut proxy, client, b"two");
    proxy.ready(server, on("w"));
    assert_eq!(Some(&b"one".to_vec()), proxy.buffer_to_write());
    proxy.wrote(WriteOutcome::Wrote(3));
    assert_eq!(Request::Write { token: server }, proxy.request());
    assert_eq!(Some(&b"two".to_vec()), proxy.buffer_to_write());
    proxy.wrote(WriteOutcome::Wrote(3));
    assert_eq!(Request::Wait, proxy.request());
}

#[test]
fn bytes_stay_in_their_tunnel() {
    let mut proxy = proxy();
    let mut backend = servers();
    let (first_client, first_server) = open_tunnel(&mut proxy, &mut backend);
    let (second_client, second_server) = open_tunnel(&mut proxy, &mut backend);
    receive(&mut proxy, first_client, b"first");
    receive(&mut proxy, second_server, b"second");
    proxy.ready(second_client, on("w"));
    assert_eq!(Some(&b"second".to_vec()), proxy.buffer_to_write());
    proxy.wrote(WriteOutcome::Wrote(6));
    proxy.ready(first_server, on("w"));
    assert_eq!(Some(&b"first".to_vec()), proxy.buffer_to_write());
    proxy.wrote(WriteOutcome::Wrote(5));
    assert_eq!(4, proxy.connection_count());
}

#[test]
fn the_end_of_the_stream_exhausts_the_kernel() {
    let mut proxy = proxy();
    let mut backend = servers();
    let (client, _) = open_tunnel(&mut proxy, &mut backend);
    proxy.ready(client, on("r"));
    proxy.read(ReadOutcome::Data(vec![]));
    assert_eq!(Request::Wait, proxy.request());
    assert_eq!(0, proxy.readable_count());
    assert_eq!(
        vec![reregister(client, "eh"), reregister(client, "reh")],
        proxy.take_effects()
    );
}

#[test]
fn a_full_send_queue_stops_the_read() {
    let mut proxy = proxy();
    let mut backend = servers();
    let (client, server) = open_tunnel(&mut proxy, &mut backend);
    proxy.ready(client, on("r"));
    for _ in 0..16 {
        assert_eq!(Request::Read { token: client }, proxy.request());
        proxy.read(ReadOutcome::Data(vec![7]));
    }
    // the send queue is full: the client waits, and is not read again
    assert_eq!(Request::Wait, proxy.request());
    assert_eq!(1, proxy.readable_count());
    assert_eq!(
        vec![
            reregister(client, "eh"),
            Effect::Reregister { token: server, interest: on("rweh"), required: false },
            reregister(client, "eh"),
        ],
        proxy.take_effects()
    );
    proxy.ready(server, on("h"));
    assert_eq!(Request::Wait, proxy.request());
    assert_eq!(1, proxy.readable_count());
    assert!(proxy.take_effects().is_empty());

    // one buffer goes out, and there is room for one more read
    proxy.ready(server, on("w"));
    proxy.wrote(WriteOutcome::Wrote(1));
    proxy.wrote(WriteOutcome::WouldBlock);
    assert_eq!(Request::Read { token: client }, proxy.request());
    assert_eq!(0, proxy.readable_count());
    proxy.read(ReadOutcome::Data(vec![8]));
    assert_eq!(Request::Wait, proxy.request());
    assert_eq!(1, proxy.readable_count());
}

#[test]
fn readable_tokens_are_flushed_in_turn() {
    let mut proxy = proxy();
    let mut backend = servers();
    let (client, server) = open_tunnel(&mut proxy, &mut backend);
    answer(&mut proxy, server);
    proxy.ready(client, on("r"));
    for _ in 0..16 {
        proxy.read(ReadOutcome::Data(vec![1]));
    }
    assert_eq!(1, proxy.readable_count());
    // the client comes first and has no room, then the server is read
    proxy.ready(server, on("r"));
    assert_eq!(Request::Read { token: server }, proxy.request());
    proxy.read(ReadOutcome::WouldBlock);
    assert_eq!(Request::Wait, proxy.request());
    assert_eq!(1, proxy.readable_count());
}

#[test]
fn a_hang_up_ends_the_tunnel() {
    let mut proxy = proxy();
    let mut backend = servers();
    let (client, server) = open_tunnel(&mut proxy, &mut backend);
    proxy.ready(client, on("rh"));
    assert_eq!(Request::Read { token: client }, proxy.request());
    proxy.read(ReadOutcome::Data(vec![]));
    assert_eq!(Request::Wait, proxy.request());
    assert_eq!(0, proxy.connection_count());
    assert_eq!(
        vec![
            Effect::Deregister { token: server },
            Effect::Close { token: server },
            Effect::Deregister { token: client },
            Effect::Close { token: client },
        ],
        proxy.take_effects()
    );
}

#[test]
fn pending_bytes_are_sent_before_the_other_end_goes() {
    let mut proxy = proxy();
    let mut backend = servers();
    let (client, server) = open_tunnel(&mut proxy, &mut backend);
    answer(&mut proxy, server);
    proxy.ready(client, on("rh"));
    proxy.read(ReadOutcome::Data(b"bye".to_vec()));
    proxy.read(ReadOutcome::WouldBlock);
    assert_eq!(Request::Wait, proxy.request());
    assert_eq!(1, proxy.connection_count());
    assert_eq!(
        vec![
            Effect::Reregister { token: server, interest: on("rweh"), required: false },
            reregister(client, "reh"),
            reregister(server, "weh"),
            Effect::Deregister { token: client },
            Effect::Close { token: client },
        ],
        proxy.take_effects()
    );
    proxy.ready(server, on("w"));
    assert_eq!(Some(&b"bye".to_vec()), proxy.buffer_to_write());
    proxy.wrote(WriteOutcome::Wrote(3));
    assert_eq!(Request::Wait, proxy.request());
    assert_eq!(0, proxy.connection_count());
    assert_eq!(
        vec![
            reregister(server, "eh"),
            Effect::Deregister { token: server },
            Effect::Close { token: server },
        ],
        proxy.take_effects()
    );
}

#[test]
fn a_hang_up_without_room_ends_the_connection_at_once() {
    let mut proxy = proxy();
    let mut backend = servers();
    let (client, server) = open_tunnel(&mut proxy, &mut backend);
    answer(&mut proxy, server);
    let (other, _) = open_tunnel(&mut proxy, &mut backend);
    proxy.ready(client, on("r"));
    for _ in 0..15 {
        proxy.read(ReadOutcome::Data(vec![1]));
    }
    proxy.read(ReadOutcome::WouldBlock);
    proxy.ready(client, on("r"));
    proxy.read(ReadOutcome::Data(vec![1]));
    assert_eq!(1, proxy.readable_count());
    proxy.take_effects();
    // the client still waits to be read when its tunnel ends
    proxy.ready(client, on("rh"));
    assert_eq!(
        Request::Abort { fault: Fault::NoConnection { token: client } },
        proxy.request()
    );
    assert_eq!(
        vec![
            reregister(server, "weh"),
            Effect::Deregister { token: client },
            Effect::Close { token: client },
        ],
        proxy.take_effects()
    );
    assert_eq!(3, proxy.connection_count());
    assert_ne!(other, client);
}

#[test]
fn a_hang_up_alone_changes_nothing() {
    let mut proxy = proxy();
    let mut backend = servers();
    let (client, _) = open_tunnel(&mut proxy, &mut backend);
    proxy.ready(client, on("h"));
    assert_eq!(Request::Wait, proxy.request());
    assert_eq!(2, proxy.connection_count());
    assert!(proxy.take_effects().is_empty());
}

#[test]
fn an_error_ends_the_tunnel() {
    let mut proxy = proxy();
    let mut backend = servers();
    let (client, _) = open_tunnel(&mut proxy, &mut backend);
    proxy.ready(client, on("erwh"));
    assert_eq!(Request::Wait, proxy.request());
    assert_eq!(0, proxy.connection_count());
}

#[test]
fn a_failed_server_is_replaced() {
    let mut proxy = proxy();
    let mut backend = servers();
    let (_, token) = open_tunnel(&mut proxy, &mut backend);
    proxy.ready(token, on("e"));
    assert_eq!(
        vec![Effect::ClearTimeout { token }, Effect::Deregister { token }],
        proxy.take_effects()
    );
    assert_eq!(Request::ChooseBackend, proxy.request());
    proxy.connect_to_backend_server(&mut backend);
    assert_eq!(Request::Connect { addr: server(6000) }, proxy.request());
    proxy.connected(true);
    assert_eq!(Request::Wait, proxy.request());
    assert_eq!(
        vec![
            Effect::Attach { token, socket: Socket::Opened },
            Effect::Register { token, interest: on("rweh") },
            Effect::StartTimeout { token, ms: 1000 },
        ],
        proxy.take_effects()
    );
    assert_eq!(2, proxy.connection_count());
}

#[test]
fn a_silent_server_is_replaced_and_pending_bytes_are_kept() {
    let mut proxy = proxy();
    let mut backend = servers();
    let (client, token) = open_tunnel(&mut proxy, &mut backend);
    receive(&mut proxy, client, b"hello");
    proxy.take_effects();
    proxy.timeout(token);
    assert_eq!(Request::ChooseBackend, proxy.request());
    proxy.connect_to_backend_server(&mut backend);
    proxy.connected(true);
    assert_eq!(
        vec![
            Effect::ClearTimeout { token },
            Effect::Deregister { token },
            Effect::Attach { token, socket: Socket::Opened },
            Effect::Register { token, interest: on("rweh") },
            Effect::StartTimeout { token, ms: 1000 },
        ],
        proxy.take_effects()
    );
    proxy.ready(token, on("w"));
    assert_eq!(Some(&b"hello".to_vec()), proxy.buffer_to_write());
}

#[test]
fn a_retry_that_fails_leaves_no_timeout() {
    let mut proxy = proxy();
    let mut backend = servers();
    let (_, token) = open_tunnel(&mut proxy, &mut backend);
    proxy.timeout(token);
    proxy.connect_to_backend_server(&mut backend);
    proxy.connected(false);
    assert_eq!(Request::Wait, proxy.request());
    assert_eq!(2, proxy.connection_count());
    assert_eq!(
        vec![Effect::ClearTimeout { token }, Effect::Deregister { token }],
        proxy.take_effects()
    );
    proxy.timeout(token);
    assert_eq!(vec![Effect::Deregister { token }], proxy.take_effects());
}

#[test]
fn late_timeouts_change_nothing() {
    let mut proxy = proxy();
    let mut backend = servers();
    let (client, token) = open_tunnel(&mut proxy, &mut backend);
    answer(&mut proxy, token);
    for late in [client, token, 7, 0, 1, 514, usize::MAX] {
        proxy.timeout(late);
        assert_eq!(Request::Wait, proxy.request());
        assert!(proxy.take_effects().is_empty());
    }
    assert_eq!(2, proxy.connection_count());
}

#[test]
fn events_of_strangers_are_faults() {
    for events in ["r", "w", "e", "rh", "rw"] {
        for token in [0, 2, 513, 514, usize::MAX] {
            let mut proxy = proxy();
            proxy.ready(token, on(events));
            assert_eq!(
                Request::Abort { fault: Fault::NoConnection { token } },
                proxy.request()
            );
        }
    }
}

#[test]
fn a_read_of_a_lone_connection_is_a_fault() {
    for events in ["r", "rh"] {
        let mut proxy = proxy();
        let mut backend = servers();
        let (client, server) = open_tunnel(&mut proxy, &mut backend);
        receive(&mut proxy, client, b"hello");
        proxy.ready(client, on("e"));
        assert_eq!(1, proxy.connection_count());
        proxy.ready(server, on(events));
        assert_eq!(
            Request::Abort { fault: Fault::NoOtherEnd { token: server } },
            proxy.request()
        );
    }
}

#[test]
fn a_failed_read_is_a_fault() {
    for events in ["r", "rh"] {
        let mut proxy = proxy();
        let mut backend = servers();
        let (client, _) = open_tunnel(&mut proxy, &mut backend);
        proxy.ready(client, on(events));
        proxy.read(ReadOutcome::Failed);
        assert_eq!(
            Request::Abort { fault: Fault::ReadFailed { token: client } },
            proxy.request()
        );
    }
}

#[test]
fn a_failed_write_drops_the_send_queue() {
    let mut proxy = proxy();
    let mut backend = servers();
    let (client, server) = open_tunnel(&mut proxy, &mut backend);
    receive(&mut proxy, client, b"one");
    receive(&mut proxy, client, b"two");
    proxy.ready(server, on("w"));
    proxy.take_effects();
    proxy.wrote(WriteOutcome::Failed);
    assert_eq!(Request::Wait, proxy.request());
    assert_eq!(2, proxy.connection_count());
    assert!(proxy.take_effects().is_empty());
    proxy.ready(server, on("w"));
    assert_eq!(Request::Wait, proxy.request());
    assert_eq!(vec![reregister(server, "reh")], proxy.take_effects());
}

#[test]
fn a_failed_write_ends_a_lone_connection() {
    let mut proxy = proxy();
    let mut backend = servers();
    let (client, server) = open_tunnel(&mut proxy, &mut backend);
    receive(&mut proxy, client, b"hello");
    proxy.ready(client, on("e"));
    proxy.ready(server, on("w"));
    proxy.take_effects();
    proxy.wrote(WriteOutcome::Failed);
    assert_eq!(0, proxy.connection_count());
    assert_eq!(
        vec![Effect::Deregister { token: server }, Effect::Close { token: server }],
        proxy.take_effects()
    );
}

#[test]
fn a_write_event_comes_before_a_read_event() {
    let mut proxy = proxy();
    let mut backend = servers();
    let (client, server) = open_tunnel(&mut proxy, &mut backend);
    receive(&mut proxy, client, b"ping");
    proxy.ready(server, on("rw"));
    assert_eq!(Request::Write { token: server }, proxy.request());
    proxy.wrote(WriteOutcome::Wrote(4));
    assert_eq!(Request::Read { token: server }, proxy.request());
    proxy.read(ReadOutcome::Data(b"pong".to_vec()));
    proxy.read(ReadOutcome::WouldBlock);
    proxy.ready(client, on("w"));
    assert_eq!(Some(&b"pong".to_vec()), proxy.buffer_to_write());
}

#[test]
fn the_token_that_was_freed_last_is_used_first() {
    let mut proxy = proxy();
    let mut backend = servers();
    assert_eq!((2, 3), open_tunnel(&mut proxy, &mut backend));
    assert_eq!((4, 5), open_tunnel(&mut proxy, &mut backend));
    answer(&mut proxy, 3);
    proxy.ready(3, on("e"));
    proxy.take_effects();
    assert_eq!((3, 2), open_tunnel(&mut proxy, &mut backend));
    assert_eq!((6, 7), open_tunnel(&mut proxy, &mut backend));
}

#[test]
fn a_full_table_refuses_clients() {
    let mut proxy = proxy();
    let mut backend = servers();
    for i in 0..256 {
        assert_eq!((2 + 2 * i, 3 + 2 * i), open_tunnel(&mut proxy, &mut backend));
    }
    assert_eq!(512, proxy.connection_count());
    proxy.ready(1, on("r"));
    proxy.accepted(AcceptOutcome::Client);
    proxy.connect_to_backend_server(&mut backend);
    proxy.connected(true);
    assert_eq!(Request::Wait, proxy.request());
    assert_eq!(512, proxy.connection_count());
    assert!(proxy.take_effects().is_empty());

    // with one token left the client is dropped after it was created
    receive(&mut proxy, 2, b"hello");
    proxy.ready(2, on("e"));
    assert_eq!(511, proxy.connection_count());
    proxy.take_effects();
    proxy.ready(1, on("r"));
    proxy.accepted(AcceptOutcome::Client);
    proxy.connect_to_backend_server(&mut backend);
    proxy.connected(true);
    assert_eq!(Request::Wait, proxy.request());
    assert_eq!(511, proxy.connection_count());
    assert_eq!(
        vec![
            Effect::Attach { token: 2, socket: Socket::Accepted },
            Effect::Register { token: 2, interest: on("eh") },
            Effect::Close { token: 2 },
        ],
        proxy.take_effects()
    );
}

/// The sockets of an event loop that carries out effects.
struct Sockets {
    registered: Vec<Option<EventSet>>,
    open: Vec<bool>,
    timeouts: Vec<bool>,
}

impl Sockets {
    fn new() -> Sockets {
        Sockets { registered: vec![None; 20], open: vec![false; 20], timeouts: vec![false; 20] }
    }

    fn perform(&mut self, effects: Vec<Effect>) {
        for effect in effects {
            match effect {
                Effect::Attach { token, .. } => {
                    assert!(self.registered[token].is_none());
                    self.open[token] = true;
                }
                Effect::Register { token, interest } => {
                    assert!(self.open[token] && self.registered[token].is_none());
                    self.registered[token] = Some(interest);
                }
                Effect::Reregister { token, interest, .. } => {
                    assert!(self.open[token]);
                    if self.registered[token].is_some() {
                        self.registered[token] = Some(interest);
                    }
                }
                Effect::Deregister { token } => {
                    assert!(self.open[token]);
                    self.registered[token] = None;
                }
                Effect::Close { token } => {
                    assert!(self.open[token]);
                    self.open[token] = false;
                    self.registered[token] = None;
                    self.timeouts[token] = false;
                }
                Effect::StartTimeout { token, ms } => {
                    assert_eq!(1000, ms);
                    assert!(self.open[token] && !self.timeouts[token]);
                    self.timeouts[token] = true;
                }
                Effect::ClearTimeout { token } => {
                    assert!(self.timeouts[token]);
                    self.timeouts[token] = false;
                }
                Effect::Connected { token } => assert!(self.open[token]),
            }
        }
    }

    fn count(&self) -> usize {
        self.open.iter().filter(|open| **open).count()
    }
}

#[test]
fn sockets_follow_connections() {
    let mut proxy = proxy();
    let mut backend = servers();
    let mut sockets = Sockets::new();
    proxy.ready(1, on("r"));
    for _ in 0..2 {
        proxy.accepted(AcceptOutcome::Client);
        proxy.connect_to_backend_server(&mut backend);
        proxy.connected(true);
    }
    proxy.accepted(AcceptOutcome::NoClient);
    sockets.perform(proxy.take_effects());
    assert_eq!(4, sockets.count());
    assert!(sockets.timeouts[3] && sockets.timeouts[5]);
    assert_eq!(Some(on("rweh")), sockets.registered[3]);

    proxy.timeout(3);
    proxy.connect_to_backend_server(&mut backend);
    sockets.perform(proxy.take_effects());
    assert_eq!(None, sockets.registered[3]);
    proxy.connected(true);
    sockets.perform(proxy.take_effects());
    assert_eq!(Some(on("rweh")), sockets.registered[3]);
    assert!(sockets.timeouts[3]);

    receive(&mut proxy, 2, b"hello");
    proxy.ready(2, on("e"));
    sockets.perform(proxy.take_effects());
    assert_eq!(3, sockets.count());
    assert_eq!(Some(on("weh")), sockets.registered[3]);

    proxy.ready(3, on("w"));
    proxy.wrote(WriteOutcome::Wrote(5));
    sockets.perform(proxy.take_effects());
    assert_eq!(proxy.connection_count(), sockets.count());
    assert!(!sockets.open[3] && !sockets.timeouts[3]);
}

#[test]
fn a_second_readable_event_lists_a_token_twice() {
    let mut proxy = proxy();
    let mut backend = servers();
    let (client, _) = open_tunnel(&mut proxy, &mut backend);
    proxy.ready(client, on("r"));
    for _ in 0..16 {
        proxy.read(ReadOutcome::Data(vec![1]));
    }
    assert_eq!(1, proxy.readable_count());
    proxy.ready(client, on("r"));
    assert_eq!(Request::Wait, proxy.request());
    assert_eq!(2, proxy.readable_count());
}

/// A tunnel whose client is gone and whose server end has `hello` to send.
fn lone_server(proxy: &mut Proxy, backend: &mut RoundRobinBackend) -> usize {
    let (client, server) = open_tunnel(proxy, backend);
    answer(proxy, server);
    receive(proxy, client, b"hello");
    proxy.ready(client, on("e"));
    proxy.take_effects();
    assert_eq!(1, proxy.connection_count());
    server
}

#[test]
fn a_lone_connection_goes_with_its_last_byte() {
    let mut proxy = proxy();
    let mut backend = servers();
    let token = lone_server(&mut proxy, &mut backend);
    proxy.ready(token, on("w"));
    proxy.wrote(WriteOutcome::Wrote(4));
    assert_eq!(1, proxy.connection_count());
    proxy.ready(token, on("h"));
    proxy.timeout(token);
    assert_eq!(1, proxy.connection_count());
    // the readable event comes too late
    proxy.ready(token, on("rw"));
    assert_eq!(Some(&b"o".to_vec()), proxy.buffer_to_write());
    proxy.wrote(WriteOutcome::Wrote(1));
    assert_eq!(0, proxy.connection_count());
    assert_eq!(Request::Abort { fault: Fault::NoConnection { token } }, proxy.request());
}

#[test]
fn an_error_ends_a_lone_connection() {
    let mut proxy = proxy();
    let mut backend = servers();
    let token = lone_server(&mut proxy, &mut backend);
    proxy.ready(token, on("e"));
    assert_eq!(0, proxy.connection_count());
    assert_eq!(
        vec![Effect::Deregister { token }, Effect::Close { token }],
        proxy.take_effects()
    );
}

#[test]
fn a_full_buffer_is_passed_on_whole() {
    let mut proxy = proxy();
    let mut backend = servers();
    let (client, server) = open_tunnel(&mut proxy, &mut backend);
    let bytes = vec![7; BUFFER_SIZE];
    receive(&mut proxy, client, &bytes);
    proxy.ready(server, on("w"));
    assert_eq!(8192, proxy.buffer_to_write().unwrap().len());
    proxy.wrote(WriteOutcome::Wrote(8191));
    proxy.ready(server, on("w"));
    assert_eq!(Some(&vec![7]), proxy.buffer_to_write());
}

#[test]
fn only_a_server_that_did_not_answer_is_replaced() {
    let mut proxy = proxy();
    let mut backend = servers();
    let (client, server) = open_tunnel(&mut proxy, &mut backend);
    // the client end is connected from the start
    proxy.timeout(client);
    assert_eq!(Request::Wait, proxy.request());
    proxy.timeout(server);
    assert_eq!(Request::ChooseBackend, proxy.request());
    proxy.connect_to_backend_server(&mut backend);
    proxy.connected(true);
    proxy.take_effects();
    answer(&mut proxy, server);
    proxy.timeout(server);
    assert_eq!(Request::Wait, proxy.request());
    assert!(proxy.take_effects().is_empty());
}
