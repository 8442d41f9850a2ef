//! The table of connections, by token.
use vstd::prelude::*;

use crate::connection::{Connection, ConnectionView};

verus! {

/// A preallocated table that hands out the token under which it stores a connection.
#[verifier::external_body]
pub struct ConnectionSlab {
    slab: mio::util::Slab<Connection>,
}

/// The connections in the table, by token.
pub uninterp spec fn slab_contents(slab: ConnectionSlab) -> Map<usize, ConnectionView>;

/// The tokens of the empty slots, in the order in which they will be handed out.
pub uninterp spec fn slab_free(slab: ConnectionSlab) -> Seq<usize>;

/// The `capacity` tokens from `first` on.
pub open spec fn tokens_from(first: usize, capacity: usize) -> Seq<usize> {
    Seq::new(capacity as nat, |i: int| (first + i) as usize)
}

impl ConnectionSlab {
    /// Calls `mio::util::Slab::new_starting_at`: every slot is empty, and the slots will be
    /// filled from `first` on. The bound keeps the allocation small enough to be made.
    #[verifier::external_body]
    pub(crate) fn new_starting_at(first: usize, capacity: usize) -> (slab: ConnectionSlab)
        requires
            first <= 0xffff,
            capacity <= 0xffff,
        ensures
            slab_contents(slab).is_empty(),
            slab_free(slab) == tokens_from(first, capacity),
    {
        ConnectionSlab { slab: mio::util::Slab::new_starting_at(mio::Token(first), capacity) }
    }

    /// Calls `mio::util::Slab::insert_with`: the next empty slot takes what `fun` makes of its
    /// token; a full table is left as it is and `fun` is not called.
    #[verifier::external_body]
    pub(crate) fn insert_with<F: FnOnce(usize) -> Connection>(&mut self, fun: F) -> (token: Option<
        usize,
    >)
        requires
            forall|token: usize| #[trigger] fun.requires((token,)),
        ensures
            token is None <==> slab_free(*old(self)).len() == 0,
            token is None ==> slab_contents(*final(self)) == slab_contents(*old(self)),
            token is None ==> slab_free(*final(self)) == slab_free(*old(self)),
            token is Some ==> token->0 == slab_free(*old(self))[0],
            token is Some ==> slab_free(*final(self)) == slab_free(*old(self)).skip(1),
            token is Some ==> exists|connection: Connection|
                {
                    &&& #[trigger] fun.ensures((token->0,), connection)
                    &&& slab_contents(*final(self)) == slab_contents(*old(self)).insert(
                        token->0,
                        connection@,
                    )
                },
    {
        self.slab.insert_with(|token| fun(token.as_usize())).map(|token| token.as_usize())
    }

    /// Calls `mio::util::Slab::remove` on a slot that is filled: the slot gives its connection
    /// back and is the next to be handed out. (On an empty slot the call would spoil the list
    /// of empty slots.)
    #[verifier::external_body]
    pub(crate) fn remove(&mut self, token: usize) -> (connection: Option<Connection>)
        requires
            slab_contents(*old(self)).contains_key(token),
        ensures
            connection is Some,
            connection->0@ == slab_contents(*old(self))[token],
            slab_contents(*final(self)) == slab_contents(*old(self)).remove(token),
            slab_free(*final(self)) == seq![token] + slab_free(*old(self)),
    {
        self.slab.remove(mio::Token(token))
    }

    /// Calls `mio::util::Slab::contains` on one of the tokens of the table: whether its slot is
    /// filled.
    #[verifier::external_body]
    pub(crate) fn contains(&self, token: usize) -> (filled: bool)
        requires
            slab_contents(*self).contains_key(token) || slab_free(*self).contains(token),
        ensures
            filled == slab_contents(*self).contains_key(token),
    {
        self.slab.contains(mio::Token(token))
    }

    /// Calls `mio::util::Slab::count`: the number of filled slots.
    #[verifier::external_body]
    pub(crate) fn count(&self) -> (count: usize)
        ensures
            count == slab_contents(*self).dom().len(),
    {
        self.slab.count()
    }

    /// Calls `mio::util::Slab::index` on a filled slot.
    #[verifier::external_body]
    pub(crate) fn index(&self, token: usize) -> (connection: &Connection)
        requires
            slab_contents(*self).contains_key(token),
        ensures
            connection@ == slab_contents(*self)[token],
    {
        &self.slab[mio::Token(token)]
    }

    /// Calls `mio::util::Slab::index_mut` on a filled slot: what is written through the
    /// reference stands in the slot, and nothing else changes.
    #[verifier::external_body]
    pub(crate) fn index_mut(&mut self, token: usize) -> (connection: &mut Connection)
        requires
            slab_contents(*old(self)).contains_key(token),
        ensures
            connection@ == slab_contents(*old(self))[token],
            slab_contents(*final(self)) == slab_contents(*old(self)).insert(
                token,
                final(connection)@,
            ),
            slab_free(*final(self)) == slab_free(*old(self)),
    {
        &mut self.slab[mio::Token(token)]
    }
}

} // verus!
