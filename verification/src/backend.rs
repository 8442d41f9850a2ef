//! The backend servers, and which of them is next.
use vstd::prelude::*;

use crate::addr::{denotes_what_it_spells, parsed_socket_addr, AddrParseError, SocketAddr};

verus! {

/// A collection of backend servers that says which one to connect to.
pub trait GetBackend {
    /// The servers, in the order in which they were added.
    spec fn servers(&self) -> Seq<SocketAddr>;

    /// One of the servers, if there is one.
    fn get(&mut self) -> (server: Option<SocketAddr>)
        ensures
            final(self).servers() == old(self).servers(),
            server is None <==> old(self).servers().len() == 0,
            server is Some ==> old(self).servers().contains(server->0),
    ;

    /// Adds the server that the text denotes.
    fn add(&mut self, backend_str: &str) -> (result: Result<(), AddrParseError>)
        ensures
            denotes_what_it_spells(backend_str@),
            result is Ok <==> parsed_socket_addr(backend_str@) is Some,
            final(self).servers() == (match parsed_socket_addr(backend_str@) {
                Some(addr) => old(self).servers().push(addr),
                None => old(self).servers(),
            }),
    ;

    /// Removes the server that the text denotes, as often as it is there.
    fn remove(&mut self, backend_str: &str) -> (result: Result<(), AddrParseError>)
        ensures
            denotes_what_it_spells(backend_str@),
            result is Ok <==> parsed_socket_addr(backend_str@) is Some,
            final(self).servers() == (match parsed_socket_addr(backend_str@) {
                Some(addr) => without(old(self).servers(), addr),
                None => old(self).servers(),
            }),
    ;
}

/// The servers other than `addr`, in their order.
pub open spec fn without(servers: Seq<SocketAddr>, addr: SocketAddr) -> Seq<SocketAddr> {
    servers.filter(other_than(addr))
}

/// Whether a server is another one than `addr`.
pub open spec fn other_than(addr: SocketAddr) -> spec_fn(SocketAddr) -> bool {
    |server: SocketAddr| server != addr
}

/// The texts in a vector of strings.
pub open spec fn texts(strings: Seq<String>) -> Seq<Seq<char>> {
    strings.map_values(|string: String| string@)
}

/// The socket addresses that the texts denote, where they denote one.
pub open spec fn parse_all(texts: Seq<Seq<char>>) -> Seq<Option<SocketAddr>> {
    texts.map_values(|text: Seq<char>| parsed_socket_addr(text))
}

/// Whether every text was a socket address.
pub open spec fn all_parsed(parsed: Seq<Option<SocketAddr>>) -> bool {
    forall|i: int| 0 <= i < parsed.len() ==> (#[trigger] parsed[i]) is Some
}

/// The socket addresses among what was parsed.
pub open spec fn parsed_addrs(parsed: Seq<Option<SocketAddr>>) -> Seq<SocketAddr> {
    parsed.map_values(|addr: Option<SocketAddr>| addr->0)
}

/// Takes the servers in turn.
pub struct RoundRobinBackend {
    backends: Vec<SocketAddr>,
    last_used: usize,
}

/// A [`RoundRobinBackend`] as a mathematical value.
#[verifier::ext_equal]
pub struct RoundRobinView {
    /// The servers, in the order in which they were added.
    pub servers: Seq<SocketAddr>,
    /// The position that was used last.
    pub last_used: nat,
}

impl RoundRobinView {
    /// The position that is used next.
    pub open spec fn next_position(self) -> nat
        recommends
            self.servers.len() > 0,
    {
        (self.last_used + 1) % self.servers.len()
    }

    /// The server that is used next, if there is one.
    pub open spec fn next_server(self) -> Option<SocketAddr> {
        if self.servers.len() == 0 {
            None
        } else {
            Some(self.servers[self.next_position() as int])
        }
    }

    /// The rotation after one more use.
    pub open spec fn advance(self) -> RoundRobinView {
        if self.servers.len() == 0 {
            self
        } else {
            RoundRobinView { last_used: self.next_position(), ..self }
        }
    }

    /// The rotation after `uses` more uses.
    pub open spec fn advance_by(self, uses: nat) -> RoundRobinView
        decreases uses,
    {
        if uses == 0 {
            self
        } else {
            self.advance_by((uses - 1) as nat).advance()
        }
    }

    /// The rotation with one more server, at the end.
    pub open spec fn with_server(self, addr: SocketAddr) -> RoundRobinView {
        RoundRobinView { servers: self.servers.push(addr), ..self }
    }

    /// The rotation without a server.
    pub open spec fn without_server(self, addr: SocketAddr) -> RoundRobinView {
        RoundRobinView { servers: without(self.servers, addr), ..self }
    }
}

impl View for RoundRobinBackend {
    type V = RoundRobinView;

    closed spec fn view(&self) -> RoundRobinView {
        RoundRobinView { servers: self.backends@, last_used: self.last_used as nat }
    }
}

impl RoundRobinBackend {
    /// The servers that the texts denote, all of them, or an error.
    pub fn new(backends_str: Vec<String>) -> (result: Result<RoundRobinBackend, AddrParseError>)
        ensures
            forall|i: int|
                0 <= i < backends_str@.len() ==> denotes_what_it_spells(
                    #[trigger] texts(backends_str@)[i],
                ),
            result is Ok <==> all_parsed(parse_all(texts(backends_str@))),
            result is Ok ==> result->Ok_0@ == (RoundRobinView {
                servers: parsed_addrs(parse_all(texts(backends_str@))),
                last_used: 0,
            }),
    {
        let ghost given = parse_all(texts(backends_str@));
        let mut parsed: Vec<Option<SocketAddr>> = Vec::new();
        let mut i: usize = 0;
        while i < backends_str.len()
            invariant
                given == parse_all(texts(backends_str@)),
                given.len() == backends_str@.len(),
                i <= backends_str.len(),
                parsed@ == given.take(i as int),
                forall|j: int|
                    0 <= j < i ==> denotes_what_it_spells(#[trigger] texts(backends_str@)[j]),
            decreases backends_str.len() - i,
        {
            assert(given[i as int] == parsed_socket_addr(backends_str@[i as int]@));
            match SocketAddr::from_str(backends_str[i].as_str()) {
                Ok(addr) => parsed.push(Some(addr)),
                Err(_) => parsed.push(None),
            }
            assert(parsed@ =~= given.take(i + 1));
            i = i + 1;
        }
        assert(given.take(i as int) =~= given);
        RoundRobinBackend::from_parsed(parsed)
    }

    /// A rotation over the addresses that were parsed, all of them, or an error.
    pub fn from_parsed(parsed: Vec<Option<SocketAddr>>) -> (result: Result<
        RoundRobinBackend,
        AddrParseError,
    >)
        ensures
            result is Ok <==> all_parsed(parsed@),
            result is Ok ==> result->Ok_0@ == (RoundRobinView {
                servers: parsed_addrs(parsed@),
                last_used: 0,
            }),
    {
        let mut backends: Vec<SocketAddr> = Vec::new();
        let mut i: usize = 0;
        while i < parsed.len()
            invariant
                i <= parsed.len(),
                backends@.len() == i,
                forall|j: int| 0 <= j < i ==> (#[trigger] parsed@[j]) == Some(backends@[j]),
            decreases parsed.len() - i,
        {
            match parsed[i] {
                Some(addr) => backends.push(addr),
                None => return Err(AddrParseError),
            }
            i = i + 1;
        }
        assert(backends@ =~= parsed_addrs(parsed@));
        Ok(RoundRobinBackend::from_addrs(backends))
    }

    /// A rotation over `addrs`.
    pub fn from_addrs(addrs: Vec<SocketAddr>) -> (backend: RoundRobinBackend)
        ensures
            backend@ == (RoundRobinView { servers: addrs@, last_used: 0 }),
    {
        RoundRobinBackend { backends: addrs, last_used: 0 }
    }

    /// The servers, in the order in which they were added.
    pub fn backends(&self) -> (backends: &Vec<SocketAddr>)
        ensures
            backends@ == self@.servers,
    {
        &self.backends
    }

    /// Adds a server.
    pub fn add_addr(&mut self, addr: SocketAddr)
        ensures
            final(self)@ == old(self)@.with_server(addr),
    {
        self.backends.push(addr);
    }

    /// Removes a server, as often as it is there.
    pub fn remove_addr(&mut self, addr: SocketAddr)
        ensures
            final(self)@ == old(self)@.without_server(addr),
    {
        let ghost servers = self.backends@;
        let ghost other = other_than(addr);
        let mut kept: Vec<SocketAddr> = Vec::new();
        let mut i: usize = 0;
        assert(servers.take(0).filter(other) =~= seq![]) by {
            reveal(Seq::filter);
        }
        while i < self.backends.len()
            invariant
                i <= self.backends.len(),
                self.backends@ == servers,
                other == other_than(addr),
                kept@ == servers.take(i as int).filter(other),
            decreases self.backends.len() - i,
        {
            let server = self.backends[i];
            assert(servers.take(i + 1).drop_last() =~= servers.take(i as int));
            assert(servers.take(i + 1).filter(other) == (if other(server) {
                servers.take(i as int).filter(other).push(server)
            } else {
                servers.take(i as int).filter(other)
            })) by {
                reveal(Seq::filter);
            }
            if server != addr {
                kept.push(server);
            }
            i = i + 1;
        }
        assert(servers.take(i as int) =~= servers);
        self.backends = kept;
    }
}

impl GetBackend for RoundRobinBackend {
    open spec fn servers(&self) -> Seq<SocketAddr> {
        self@.servers
    }

    fn get(&mut self) -> (server: Option<SocketAddr>)
        ensures
            server == old(self)@.next_server(),
            final(self)@ == old(self)@.advance(),
    {
        if self.backends.len() == 0 {
            return None;
        }
        let count = self.backends.len();
        proof {
            lemma_next_position(self.last_used as nat, count as nat);
        }
        self.last_used = (self.last_used % count + 1) % count;
        Some(self.backends[self.last_used])
    }

    fn add(&mut self, backend_str: &str) -> (result: Result<(), AddrParseError>)
        ensures
            final(self)@ == (match parsed_socket_addr(backend_str@) {
                Some(addr) => old(self)@.with_server(addr),
                None => old(self)@,
            }),
    {
        match SocketAddr::from_str(backend_str) {
            Ok(addr) => {
                self.add_addr(addr);
                Ok(())
            },
            Err(error) => Err(error),
        }
    }

    fn remove(&mut self, backend_str: &str) -> (result: Result<(), AddrParseError>)
        ensures
            final(self)@ == (match parsed_socket_addr(backend_str@) {
                Some(addr) => old(self)@.without_server(addr),
                None => old(self)@,
            }),
    {
        match SocketAddr::from_str(backend_str) {
            Ok(addr) => {
                self.remove_addr(addr);
                Ok(())
            },
            Err(error) => Err(error),
        }
    }
}

/// The position after `last` can be computed without leaving the range of `last`.
proof fn lemma_next_position(last: nat, count: nat)
    requires
        count > 0,
    ensures
        0 <= last % count < count,
        (last % count + 1) % count == (last + 1) % count,
{
    vstd::arithmetic::div_mod::lemma_mod_bound(last as int, count as int);
    vstd::arithmetic::div_mod::lemma_add_mod_noop(last as int, 1, count as int);
    vstd::arithmetic::div_mod::lemma_add_mod_noop(last as int % count as int, 1, count as int);
    vstd::arithmetic::div_mod::lemma_mod_twice(last as int, count as int);
}

/// The servers are those that were given, all of them and in their order.
pub proof fn law_servers_keep_their_order(parsed: Seq<Option<SocketAddr>>, i: int)
    requires
        0 <= i < parsed.len(),
        all_parsed(parsed),
    ensures
        parsed[i] is Some,
        parsed_addrs(parsed).len() == parsed.len(),
        parsed_addrs(parsed)[i] == parsed[i]->0,
{
}

/// One text that denotes no address is enough to refuse them all, and nothing else is.
pub proof fn law_one_bad_text_refuses_all(strings: Seq<String>)
    ensures
        all_parsed(parse_all(texts(strings))) <==> forall|i: int|
            0 <= i < strings.len() ==> parsed_socket_addr((#[trigger] strings[i])@) is Some,
        parse_all(texts(strings)).len() == strings.len(),
        forall|i: int|
            0 <= i < strings.len() ==> parse_all(texts(strings))[i] == parsed_socket_addr(
                (#[trigger] strings[i])@,
            ),
{
    let parsed = parse_all(texts(strings));
    assert forall|i: int| 0 <= i < strings.len() implies parsed[i] == parsed_socket_addr(
        (#[trigger] strings[i])@,
    ) by {}
    if all_parsed(parsed) {
        assert forall|i: int| 0 <= i < strings.len() implies parsed_socket_addr(
            (#[trigger] strings[i])@,
        ) is Some by {
            assert(parsed[i] is Some);
        }
    } else {
        let i = choose|i: int| 0 <= i < parsed.len() && !(parsed[i] is Some);
        assert(parsed_socket_addr(strings[i]@) is None);
    }
}

} // verus!
