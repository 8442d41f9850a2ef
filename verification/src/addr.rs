//! Socket addresses and their textual form.
use vstd::prelude::*;

use crate::ipv4::{digits, dotted_host, dotted_text, host, is_number, port, value_of};
use crate::ipv6::{spelled, spells_segments};

verus! {

/// The address of a TCP endpoint.
#[derive(Clone, Copy, PartialEq, Eq, Structural, Debug)]
pub enum SocketAddr {
    /// The octets of an IPv4 address, the first one in the most significant byte, and a port.
    V4 { octets: u32, port: u16 },
    /// The segments of an IPv6 address, the first one in the most significant bytes, a port, and
    /// the flow information and scope identifier that go with them.
    V6 { segments: u128, port: u16, flowinfo: u32, scope_id: u32 },
}

/// A text is not a socket address.
#[derive(Clone, Copy, PartialEq, Eq, Structural, Debug)]
pub struct AddrParseError;

#[verifier::external_type_specification]
#[verifier::external_body]
pub struct ExAddrParseError(core::net::AddrParseError);

/// The socket address that a text denotes, if it denotes one.
pub uninterp spec fn parsed_socket_addr(text: Seq<char>) -> Option<SocketAddr>;

/// The socket address with these octets, the first one in the most significant byte.
pub open spec fn ipv4(a: u8, b: u8, c: u8, d: u8, port: u16) -> SocketAddr {
    SocketAddr::V4 {
        octets: (a * 0x1000000 + b * 0x10000 + c * 0x100 + d) as u32,
        port,
    }
}

/// The socket address with these segments, the first one in the most significant bytes, and with
/// nothing else that goes with them.
pub open spec fn ipv6(segments: int, port: int) -> SocketAddr {
    SocketAddr::V6 { segments: segments as u128, port: port as u16, flowinfo: 0, scope_id: 0 }
}

/// The port of a socket address.
pub open spec fn port_of(addr: SocketAddr) -> u16 {
    match addr {
        SocketAddr::V4 { port, .. } => port,
        SocketAddr::V6 { port, .. } => port,
    }
}

/// Whether `addr` is what a text spells. A text that begins with four octets in decimal, with dots
/// between them and a colon behind them, denotes an address with these octets, if it denotes one,
/// and with the port that the digits behind the colon stand for; and it does denote one where that
/// port is in decimal without leading zeros. A text that spells segments in brackets, a colon and a
/// port denotes the address with these segments and this port, if it denotes one.
pub open spec fn spells(text: Seq<char>, addr: Option<SocketAddr>) -> bool {
    &&& forall|a: u8, b: u8, c: u8, d: u8, rest: Seq<char>|
        text == #[trigger] (dotted_host(a, b, c, d) + rest) && addr is Some ==> {
            &&& addr->0 == ipv4(a, b, c, d, port_of(addr->0))
            &&& is_number(rest) ==> port_of(addr->0) == value_of(rest)
        }
    &&& forall|a: u8, b: u8, c: u8, d: u8, port: u16|
        text == #[trigger] dotted_text(a, b, c, d, port) ==> addr == Some(ipv4(a, b, c, d, port))
    &&& forall|segments: int, port: int| #[trigger]
        spells_segments(text, segments, port) && addr is Some ==> addr->0 == ipv6(segments, port)
}

/// Whether a text denotes the address that it spells.
pub open spec fn denotes_what_it_spells(text: Seq<char>) -> bool {
    spells(text, parsed_socket_addr(text))
}

/// Calls `<core::net::SocketAddr as FromStr>::from_str`, which takes `a.b.c.d:port` and
/// `[v6]:port`, and takes the address apart. What it accepts depends on the text alone. Of the
/// grammar only this is stated: four octets in decimal with dots between them, then a colon and a
/// port in decimal, denote the address with these octets and this port, a text that begins with
/// such octets and a colon denotes no address with other octets or another port than its digits
/// stand for, and segments in brackets, a colon and a port denote no address with other segments,
/// another port, flow information or a scope.
#[verifier::external_body]
fn socket_addr_from_str(text: &str) -> (result: Result<SocketAddr, core::net::AddrParseError>)
    ensures
        (match result {
            Ok(addr) => Some(addr),
            Err(_) => None,
        }) == parsed_socket_addr(text@),
        spells(
            text@,
            match result {
                Ok(addr) => Some(addr),
                Err(_) => None,
            },
        ),
{
    text.parse().map(|addr| match addr {
        core::net::SocketAddr::V4(v4) => SocketAddr::V4 {
            octets: u32::from(*v4.ip()),
            port: v4.port(),
        },
        core::net::SocketAddr::V6(v6) => SocketAddr::V6 {
            segments: u128::from(*v6.ip()),
            port: v6.port(),
            flowinfo: v6.flowinfo(),
            scope_id: v6.scope_id(),
        },
    })
}

impl SocketAddr {
    /// The socket address that `text` denotes. Four octets in decimal with dots between them, then
    /// a colon and a port, denote the address that they spell.
    pub fn from_str(text: &str) -> (result: Result<SocketAddr, AddrParseError>)
        ensures
            result == (match parsed_socket_addr(text@) {
                Some(addr) => Ok(addr),
                None => Err::<SocketAddr, AddrParseError>(AddrParseError),
            }),
            denotes_what_it_spells(text@),
            forall|a: u8, b: u8, c: u8, d: u8, port: u16|
                text@ == #[trigger] dotted_text(a, b, c, d, port) ==> result is Ok && result->Ok_0
                    == ipv4(a, b, c, d, port),
    {
        let parsed = socket_addr_from_str(text);
        match host(text) {
            Some((a, b, c, d, end)) => match port(text, end) {
                Some(port) => {
                    assert(text@ == dotted_text(a, b, c, d, port));
                    Ok(SocketAddr::from_octets(a, b, c, d, port))
                },
                None => match parsed {
                    Ok(addr) => {
                        assert(text@ == dotted_host(a, b, c, d) + text@.skip(end as int));
                        match digits(text, end) {
                            Some(port) => Ok(SocketAddr::from_octets(a, b, c, d, port)),
                            None => Ok(SocketAddr::from_octets(a, b, c, d, addr.port())),
                        }
                    },
                    Err(_) => Err(AddrParseError),
                },
            },
            None => match parsed {
                Ok(addr) => match spelled(text) {
                    Some((segments, port)) => Ok(
                        SocketAddr::V6 { segments, port, flowinfo: 0, scope_id: 0 },
                    ),
                    None => Ok(addr),
                },
                Err(_) => Err(AddrParseError),
            },
        }
    }

    /// The port.
    pub fn port(&self) -> (port: u16)
        ensures
            port == port_of(*self),
    {
        match *self {
            SocketAddr::V4 { port, .. } => port,
            SocketAddr::V6 { port, .. } => port,
        }
    }

    /// The socket address with these octets, the first one in the most significant byte.
    pub fn from_octets(a: u8, b: u8, c: u8, d: u8, port: u16) -> (addr: SocketAddr)
        ensures
            addr == ipv4(a, b, c, d, port),
            addr is V4,
            addr->octets == a * 0x1000000 + b * 0x10000 + c * 0x100 + d,
            addr->V4_port == port,
    {
        let octets: u32 = a as u32 * 0x1000000 + b as u32 * 0x10000 + c as u32 * 0x100 + d as u32;
        SocketAddr::V4 { octets, port }
    }
}

/// Every octet stands in its own byte, the first one in the most significant byte.
pub proof fn law_octets_keep_their_places(a: u8, b: u8, c: u8, d: u8, port: u16)
    ensures
        ipv4(a, b, c, d, port) is V4,
        ipv4(a, b, c, d, port)->V4_port == port,
        ipv4(a, b, c, d, port)->octets == a * 0x1000000 + b * 0x10000 + c * 0x100 + d,
{
}

} // verus!
