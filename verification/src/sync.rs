//! Updates of the backend servers that arrive as published messages.
use vstd::prelude::*;

use crate::addr::{denotes_what_it_spells, parsed_socket_addr, SocketAddr};
use crate::backend::{RoundRobinBackend, RoundRobinView};
use crate::text::same_text;

verus! {

/// The channel on which servers to add are published.
pub const BACKEND_ADD: &'static str = "backend_add";

/// The channel on which servers to remove are published.
pub const BACKEND_REMOVE: &'static str = "backend_remove";

/// What a message asks for.
#[derive(Clone, Copy, PartialEq, Eq, Structural, Debug)]
pub enum Command {
    /// Add a server.
    Add,
    /// Remove a server.
    Remove,
}

/// What came of a message.
#[derive(Clone, Copy, PartialEq, Eq, Structural, Debug)]
pub enum MessageOutcome {
    /// The server was added.
    Added,
    /// The server was removed.
    Removed,
    /// The payload is not a socket address; nothing changed.
    Ignored,
    /// The channel is not one of ours; nothing changed.
    Unknown,
}

/// What a message on a channel asks for.
pub open spec fn command_of(channel: Seq<char>) -> Option<Command> {
    if channel == BACKEND_ADD@ {
        Some(Command::Add)
    } else if channel == BACKEND_REMOVE@ {
        Some(Command::Remove)
    } else {
        None
    }
}

/// The servers after a message for `addr`, the address that its payload denotes.
pub open spec fn servers_after(
    servers: RoundRobinView,
    command: Option<Command>,
    addr: Option<SocketAddr>,
) -> RoundRobinView {
    match (command, addr) {
        (Some(Command::Add), Some(addr)) => servers.with_server(addr),
        (Some(Command::Remove), Some(addr)) => servers.without_server(addr),
        _ => servers,
    }
}

/// What comes of a message for `addr`, the address that its payload denotes.
pub open spec fn outcome_of(command: Option<Command>, addr: Option<SocketAddr>) -> MessageOutcome {
    match (command, addr) {
        (None, _) => MessageOutcome::Unknown,
        (_, None) => MessageOutcome::Ignored,
        (Some(Command::Add), _) => MessageOutcome::Added,
        (Some(Command::Remove), _) => MessageOutcome::Removed,
    }
}

/// What a message on a channel asks for.
pub fn command(channel: &str) -> (command: Option<Command>)
    ensures
        command == command_of(channel@),
{
    if same_text(channel, BACKEND_ADD) {
        Some(Command::Add)
    } else if same_text(channel, BACKEND_REMOVE) {
        Some(Command::Remove)
    } else {
        None
    }
}

/// Carries out a command for `addr`, the address that the payload of a message denotes.
pub fn carry_out(
    backend: &mut RoundRobinBackend,
    command: Option<Command>,
    addr: Option<SocketAddr>,
) -> (outcome: MessageOutcome)
    ensures
        outcome == outcome_of(command, addr),
        final(backend)@ == servers_after(old(backend)@, command, addr),
{
    match (command, addr) {
        (Some(Command::Add), Some(addr)) => {
            backend.add_addr(addr);
            MessageOutcome::Added
        },
        (Some(Command::Remove), Some(addr)) => {
            backend.remove_addr(addr);
            MessageOutcome::Removed
        },
        (Some(_), None) => MessageOutcome::Ignored,
        (None, _) => MessageOutcome::Unknown,
    }
}

/// Handles the message with this payload that was published on this channel.
pub fn handle_message(backend: &mut RoundRobinBackend, channel: &str, payload: &str) -> (outcome:
    MessageOutcome)
    ensures
        denotes_what_it_spells(payload@),
        outcome == outcome_of(command_of(channel@), parsed_socket_addr(payload@)),
        final(backend)@ == servers_after(
            old(backend)@,
            command_of(channel@),
            parsed_socket_addr(payload@),
        ),
{
    let addr = match SocketAddr::from_str(payload) {
        Ok(addr) => Some(addr),
        Err(_) => None,
    };
    carry_out(backend, command(channel), addr)
}

/// Two channels carry commands, and no other does.
pub proof fn law_two_channels_carry_commands(channel: Seq<char>)
    ensures
        command_of(channel) == Some(Command::Add) <==> channel == "backend_add"@,
        command_of(channel) == Some(Command::Remove) <==> channel == "backend_remove"@,
        command_of(channel) is None <==> channel != "backend_add"@ && channel
            != "backend_remove"@,
{
    reveal_strlit("backend_add");
    reveal_strlit("backend_remove");
    assert("backend_add"@.len() != "backend_remove"@.len());
}

} // verus!
