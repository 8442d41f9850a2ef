//! What the rotation over the backend servers promises.
use vstd::arithmetic::div_mod::{
    lemma_add_mod_noop, lemma_mod_add_multiples_vanish, lemma_mod_bound, lemma_small_mod,
};
use vstd::prelude::*;

use crate::addr::SocketAddr;
use crate::backend::{without, RoundRobinView};
use crate::sync::{outcome_of, servers_after, Command};

verus! {

/// How many uses come before the server at `position` has its turn.
pub open spec fn uses_before(r: RoundRobinView, position: nat) -> nat {
    ((position - r.last_used - 1) % r.servers.len() as int) as nat
}

/// The servers are used in the order in which they were added, from the first again after the
/// last, and using them changes nothing else.
pub proof fn law_servers_are_used_in_turn(r: RoundRobinView, uses: nat)
    requires
        r.servers.len() > 0,
    ensures
        r.advance_by(uses).servers == r.servers,
        r.advance_by(uses).next_position() == (r.last_used + uses + 1) % r.servers.len(),
        r.advance_by(uses).next_server() == Some(
            r.servers[((r.last_used + uses + 1) % r.servers.len()) as int],
        ),
    decreases uses,
{
    if uses > 0 {
        law_servers_are_used_in_turn(r, (uses - 1) as nat);
        lemma_add_mod_noop((r.last_used + uses) as int, 1, r.servers.len() as int);
        lemma_add_mod_noop(
            (r.last_used + uses) as int % r.servers.len() as int,
            1,
            r.servers.len() as int,
        );
        lemma_mod_bound((r.last_used + uses) as int, r.servers.len() as int);
        lemma_small_mod((r.last_used + uses) % r.servers.len(), r.servers.len());
    }
    lemma_mod_bound((r.last_used + uses + 1) as int, r.servers.len() as int);
}

/// Two numbers of a range of `count` numbers that are equal modulo `count` are equal.
proof fn lemma_same_turn(start: int, i: int, j: int, count: int)
    requires
        0 <= i < count,
        0 <= j < count,
        (start + i) % count == (start + j) % count,
    ensures
        i == j,
{
    lemma_mod_bound(start, count);
    lemma_add_mod_noop(start, i, count);
    lemma_add_mod_noop(start, j, count);
    lemma_small_mod(i as nat, count as nat);
    lemma_small_mod(j as nat, count as nat);
    let base = start % count;
    lemma_reduce(base + i, count);
    lemma_reduce(base + j, count);
}

/// The remainder of a number below twice the divisor.
proof fn lemma_reduce(n: int, count: int)
    requires
        0 <= n < 2 * count,
    ensures
        n % count == if n < count {
            n
        } else {
            n - count
        },
{
    if n < count {
        lemma_small_mod(n as nat, count as nat);
    } else {
        lemma_small_mod((n - count) as nat, count as nat);
        lemma_mod_add_multiples_vanish(n - count, count);
    }
}

/// Every server has its turn once in as many uses as there are servers.
pub proof fn law_every_server_has_its_turn(r: RoundRobinView, position: nat)
    requires
        position < r.servers.len(),
    ensures
        uses_before(r, position) < r.servers.len(),
        r.advance_by(uses_before(r, position)).next_position() == position,
        r.advance_by(uses_before(r, position)).next_server() == Some(r.servers[position as int]),
        forall|uses: nat|
            uses < r.servers.len() && uses != uses_before(r, position) ==> (
            #[trigger] r.advance_by(uses)).next_position() != position,
{
    let count = r.servers.len() as int;
    let before = uses_before(r, position);
    lemma_mod_bound(position - r.last_used - 1, count);
    law_servers_are_used_in_turn(r, before);
    assert((r.last_used + before + 1) as int % count == position) by {
        lemma_add_mod_noop((r.last_used + 1) as int, position - r.last_used - 1, count);
        lemma_add_mod_noop((r.last_used + 1) as int, before as int, count);
        lemma_small_mod(before, count as nat);
        lemma_small_mod(position, count as nat);
    }
    assert forall|uses: nat|
        uses < r.servers.len() && uses != uses_before(r, position) implies (
    #[trigger] r.advance_by(uses)).next_position() != position by {
        law_servers_are_used_in_turn(r, uses);
        if (r.last_used + uses + 1) as int % count == position {
            lemma_same_turn((r.last_used + 1) as int, uses as int, before as int, count);
        }
    }
}

/// After as many uses as there are servers the rotation starts over.
pub proof fn law_rotation_starts_over(r: RoundRobinView, uses: nat)
    requires
        r.servers.len() > 0,
    ensures
        r.advance_by(uses + r.servers.len()).next_server() == r.advance_by(uses).next_server(),
{
    let count = r.servers.len();
    law_servers_are_used_in_turn(r, uses);
    law_servers_are_used_in_turn(r, uses + count);
    lemma_mod_add_multiples_vanish((r.last_used + uses + 1) as int, count as int);
}

/// Without servers there is nothing to use, however often it is tried.
pub proof fn law_no_servers_no_use(r: RoundRobinView, uses: nat)
    requires
        r.servers.len() == 0,
    ensures
        r.advance_by(uses) == r,
        r.advance_by(uses).next_server() is None,
    decreases uses,
{
    if uses > 0 {
        law_no_servers_no_use(r, (uses - 1) as nat);
    }
}

/// A removal keeps the other servers and no others.
pub proof fn law_removal_keeps_the_others(
    servers: Seq<SocketAddr>,
    addr: SocketAddr,
    server: SocketAddr,
)
    ensures
        without(servers, addr).contains(server) <==> servers.contains(server) && server != addr,
    decreases servers.len(),
{
    reveal(Seq::filter);
    let kept = without(servers, addr);
    if servers.len() > 0 {
        let before = servers.drop_last();
        law_removal_keeps_the_others(before, addr, server);
        if servers.contains(server) {
            let i = choose|i: int| 0 <= i < servers.len() && servers[i] == server;
            if i < before.len() {
                assert(before[i] == server);
            }
        }
        if before.contains(server) {
            let i = choose|i: int| 0 <= i < before.len() && before[i] == server;
            assert(servers[i] == server);
        }
        assert(servers[servers.len() - 1] == servers.last());
        let others = without(before, addr);
        if servers.last() != addr {
            assert(kept == others.push(servers.last()));
            assert(kept[others.len() as int] == servers.last());
            if others.contains(server) {
                let i = choose|i: int| 0 <= i < others.len() && others[i] == server;
                assert(kept[i] == server);
            }
            if kept.contains(server) {
                let i = choose|i: int| 0 <= i < kept.len() && kept[i] == server;
                if i < others.len() {
                    assert(others[i] == server);
                }
            }
        }
    }
}

/// The removal of a server that is not there changes nothing.
pub proof fn law_removal_of_a_stranger_changes_nothing(
    servers: Seq<SocketAddr>,
    addr: SocketAddr,
)
    requires
        !servers.contains(addr),
    ensures
        without(servers, addr) == servers,
    decreases servers.len(),
{
    reveal(Seq::filter);
    if servers.len() > 0 {
        let before = servers.drop_last();
        assert(servers[servers.len() - 1] == servers.last());
        if before.contains(addr) {
            let i = choose|i: int| 0 <= i < before.len() && before[i] == addr;
            assert(servers[i] == addr);
        }
        law_removal_of_a_stranger_changes_nothing(before, addr);
        assert(before.push(servers.last()) =~= servers);
    }
}

/// A second removal changes nothing.
pub proof fn law_second_removal_changes_nothing(servers: Seq<SocketAddr>, addr: SocketAddr)
    ensures
        without(without(servers, addr), addr) == without(servers, addr),
{
    law_removal_keeps_the_others(servers, addr, addr);
    law_removal_of_a_stranger_changes_nothing(without(servers, addr), addr);
}

/// The removal of a server that was just added undoes the addition, where it was not there
/// before.
pub proof fn law_removal_undoes_an_addition(r: RoundRobinView, addr: SocketAddr)
    requires
        !r.servers.contains(addr),
    ensures
        r.with_server(addr).without_server(addr) == r,
{
    reveal(Seq::filter);
    let servers = r.servers.push(addr);
    assert(servers.drop_last() =~= r.servers);
    law_removal_of_a_stranger_changes_nothing(r.servers, addr);
}

/// A server that was added has its turn within as many uses as there are servers.
pub proof fn law_added_servers_are_used(r: RoundRobinView, addr: SocketAddr)
    ensures
        ({
            let after = servers_after(r, Some(Command::Add), Some(addr));
            let uses = uses_before(after, r.servers.len());
            &&& after.servers == r.servers.push(addr)
            &&& uses < after.servers.len()
            &&& after.advance_by(uses).next_server() == Some(addr)
        }),
{
    law_every_server_has_its_turn(r.with_server(addr), r.servers.len());
}

/// A removal works server by server: each of the others stays, as often as it is there and in its
/// place among the others.
pub proof fn law_removal_works_server_by_server(
    first: Seq<SocketAddr>,
    server: SocketAddr,
    rest: Seq<SocketAddr>,
    addr: SocketAddr,
)
    ensures
        without(first.push(server) + rest, addr) == without(first, addr) + (if server == addr {
            seq![]
        } else {
            seq![server]
        }) + without(rest, addr),
    decreases rest.len(),
{
    reveal(Seq::filter);
    if rest.len() == 0 {
        assert(first.push(server) + rest =~= first.push(server));
        assert(first.push(server).drop_last() =~= first);
        assert(without(rest, addr) =~= seq![]);
        assert(without(first.push(server), addr) =~= without(first, addr) + (if server == addr {
            seq![]
        } else {
            seq![server]
        }) + without(rest, addr));
    } else {
        let before = rest.drop_last();
        law_removal_works_server_by_server(first, server, before, addr);
        let all = first.push(server) + rest;
        assert(all.drop_last() =~= first.push(server) + before);
        assert(all.last() == rest.last());
        assert(without(all, addr) =~= without(first, addr) + (if server == addr {
            seq![]
        } else {
            seq![server]
        }) + without(rest, addr));
    }
}

/// Without servers there is nothing to remove.
pub proof fn law_nothing_to_remove(addr: SocketAddr)
    ensures
        without(seq![], addr) == Seq::<SocketAddr>::empty(),
{
    reveal(Seq::filter);
}

/// A message adds its server behind the others, or removes it, and leaves the turn where it is. One
/// that is not a command, or whose payload is not an address, changes nothing.
pub proof fn law_what_messages_change(
    r: RoundRobinView,
    command: Option<Command>,
    addr: Option<SocketAddr>,
)
    ensures
        servers_after(r, command, addr).last_used == r.last_used,
        servers_after(r, command, addr).servers == (if command is None || addr is None {
            r.servers
        } else if command->0 is Add {
            r.servers.push(addr->0)
        } else {
            without(r.servers, addr->0)
        }),
{
}

/// What is said of a message is what was done: a server is said to be added or removed only where
/// it was.
pub proof fn law_what_is_said_of_messages(command: Option<Command>, addr: Option<SocketAddr>)
    ensures
        outcome_of(command, addr) is Unknown <==> command is None,
        outcome_of(command, addr) is Ignored <==> command is Some && addr is None,
        outcome_of(command, addr) is Added <==> command == Some(Command::Add) && addr is Some,
        outcome_of(command, addr) is Removed <==> command == Some(Command::Remove) && addr is Some,
{
}

/// What happens to the servers.
pub enum Step {
    /// The next server is used.
    Use,
    /// A message arrives: its command, and the address that its payload denotes.
    Message { command: Option<Command>, addr: Option<SocketAddr> },
}

/// The servers after a number of steps, the oldest first.
pub open spec fn after_steps(r: RoundRobinView, steps: Seq<Step>) -> RoundRobinView
    decreases steps.len(),
{
    if steps.len() == 0 {
        r
    } else {
        let before = after_steps(r, steps.drop_last());
        match steps.last() {
            Step::Use => before.advance(),
            Step::Message { command, addr } => servers_after(before, command, addr),
        }
    }
}

/// Whether one of the steps is a message with this command for `addr`.
pub open spec fn some_step_is(steps: Seq<Step>, command: Command, addr: SocketAddr) -> bool {
    steps.contains(Step::Message { command: Some(command), addr: Some(addr) })
}

/// Steps without a message have none before the last one, and the last one is none.
proof fn lemma_no_step_is(steps: Seq<Step>, command: Command, addr: SocketAddr)
    requires
        steps.len() > 0,
        !some_step_is(steps, command, addr),
    ensures
        !some_step_is(steps.drop_last(), command, addr),
        steps.last() != (Step::Message { command: Some(command), addr: Some(addr) }),
{
    let message = Step::Message { command: Some(command), addr: Some(addr) };
    let before = steps.drop_last();
    assert(steps[steps.len() - 1] == steps.last());
    if before.contains(message) {
        let i = choose|i: int| 0 <= i < before.len() && before[i] == message;
        assert(steps[i] == message);
    }
}

/// A server that is not there stays away until it is added.
proof fn lemma_strangers_stay_away(r: RoundRobinView, steps: Seq<Step>, addr: SocketAddr)
    requires
        !r.servers.contains(addr),
        !some_step_is(steps, Command::Add, addr),
    ensures
        !after_steps(r, steps).servers.contains(addr),
    decreases steps.len(),
{
    if steps.len() > 0 {
        lemma_no_step_is(steps, Command::Add, addr);
        lemma_strangers_stay_away(r, steps.drop_last(), addr);
        let before = after_steps(r, steps.drop_last());
        match steps.last() {
            Step::Message { command: Some(Command::Add), addr: Some(other) } => {
                let servers = before.servers.push(other);
                if servers.contains(addr) {
                    let i = choose|i: int| 0 <= i < servers.len() && servers[i] == addr;
                    assert(i < before.servers.len() ==> before.servers[i] == addr);
                }
            },
            Step::Message { command: Some(Command::Remove), addr: Some(other) } => {
                law_removal_keeps_the_others(before.servers, other, addr);
            },
            _ => {},
        }
    }
}

/// A server that was removed is not used until it is added again, whatever is used, added and
/// removed in between.
pub proof fn law_removed_servers_are_not_used(
    r: RoundRobinView,
    addr: SocketAddr,
    steps: Seq<Step>,
)
    requires
        !some_step_is(steps, Command::Add, addr),
    ensures
        ({
            let removed = servers_after(r, Some(Command::Remove), Some(addr));
            &&& !after_steps(removed, steps).servers.contains(addr)
            &&& after_steps(removed, steps).next_server() != Some(addr)
        }),
{
    let removed = r.without_server(addr);
    let after = after_steps(removed, steps);
    law_removal_keeps_the_others(r.servers, addr, addr);
    lemma_strangers_stay_away(removed, steps, addr);
    if after.servers.len() > 0 {
        lemma_mod_bound((after.last_used + 1) as int, after.servers.len() as int);
        assert(after.servers.contains(after.servers[after.next_position() as int]));
    }
}

/// A server that is there stays until it is removed, whatever is used, added and removed in
/// between, and so keeps having its turn.
pub proof fn law_servers_stay_until_removed(r: RoundRobinView, addr: SocketAddr, steps: Seq<Step>)
    requires
        r.servers.contains(addr),
        !some_step_is(steps, Command::Remove, addr),
    ensures
        after_steps(r, steps).servers.contains(addr),
        exists|uses: nat|
            {
                &&& uses < after_steps(r, steps).servers.len()
                &&& (#[trigger] after_steps(r, steps).advance_by(uses)).next_server() == Some(addr)
            },
    decreases steps.len(),
{
    if steps.len() > 0 {
        lemma_no_step_is(steps, Command::Remove, addr);
        law_servers_stay_until_removed(r, addr, steps.drop_last());
        let before = after_steps(r, steps.drop_last());
        match steps.last() {
            Step::Message { command: Some(Command::Add), addr: Some(other) } => {
                let i = choose|i: int| 0 <= i < before.servers.len() && before.servers[i] == addr;
                assert(before.servers.push(other)[i] == addr);
            },
            Step::Message { command: Some(Command::Remove), addr: Some(other) } => {
                law_removal_keeps_the_others(before.servers, other, addr);
            },
            _ => {},
        }
    }
    let after = after_steps(r, steps);
    let position = choose|i: int| 0 <= i < after.servers.len() && after.servers[i] == addr;
    law_every_server_has_its_turn(after, position as nat);
    let uses = uses_before(after, position as nat);
    assert(after.advance_by(uses).next_server() == Some(addr));
}

} // verus!
