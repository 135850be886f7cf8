//! The registry of clients: every live connection under a handle of its
//! own, with the handle of the player that it controls.
//!
//! The handles of clients and the handles of players are numbered apart: a
//! client that leaves frees a slot for the next client, not for a player.
use crate::arena::{Arena, ArenaModel, Handle};
use crate::messages::{client_views, ClientMessage, ClientMessageView};
use crate::net::Connection;
use vstd::prelude::*;

verus! {

/// A client: its connection, and the player it controls.
pub struct RemoteClient {
    connection: Box<dyn Connection>,
    player_handle: Handle,
}

impl RemoteClient {
    /// The player that the client controls.
    pub closed spec fn spec_player_handle(&self) -> Handle {
        self.player_handle
    }

    pub fn new(connection: Box<dyn Connection>, player_handle: Handle) -> (client: RemoteClient)
        ensures
            client.spec_player_handle() == player_handle,
    {
        RemoteClient { connection, player_handle }
    }

    #[verifier::when_used_as_spec(spec_player_handle)]
    pub fn player_handle(&self) -> (player_handle: Handle)
        ensures
            player_handle == self.spec_player_handle(),
    {
        self.player_handle
    }
}

/// A frame that was handed to a client's connection, and whether the
/// connection took it.
pub struct Handed {
    pub client: Handle,
    pub bytes: Seq<u8>,
    pub ok: bool,
}

/// What a client's connection gave when it was asked: the messages that had
/// arrived, and whether its stream is closed.
pub struct Batch {
    pub client: Handle,
    pub messages: Seq<ClientMessageView>,
    pub closed: bool,
}

/// The clients. Its view is an arena of the players' handles: what a
/// connection has sent or taken changes nothing in it. Beside the clients
/// the registry keeps the record of every call it has made on a connection.
pub struct ClientRegistry {
    clients: Arena<RemoteClient>,
    handed: Ghost<Seq<Handed>>,
    received: Ghost<Seq<Batch>>,
}

impl View for ClientRegistry {
    type V = ArenaModel<Handle>;

    closed spec fn view(&self) -> ArenaModel<Handle> {
        self.clients@.map_payloads(|client: RemoteClient| client.player_handle)
    }
}

impl ClientRegistry {
    pub open spec fn wf(&self) -> bool {
        self@.wf()
    }

    /// Every frame handed to a connection so far, in order.
    pub closed spec fn handed(&self) -> Seq<Handed> {
        self.handed@
    }

    /// Everything that the connections gave so far, in the order in which
    /// they were asked.
    pub closed spec fn received(&self) -> Seq<Batch> {
        self.received@
    }

    proof fn lemma_view(&self)
        ensures
            self.clients@.wf() == self@.wf(),
            self.clients@.has_room() == self@.has_room(),
            self@.wf() ==> self.clients@.next_handle() == self@.next_handle(),
            self.clients@.live_handles() == self@.live_handles(),
            forall|h: Handle| #[trigger] self@.is_live(h) == self.clients@.is_live(h),
            forall|h: Handle|
                self.clients@.is_live(h) ==> #[trigger] self@.entries()[h]
                    == self.clients@.entries()[h].player_handle,
    {
        self.clients@.lemma_map_payloads(|client: RemoteClient| client.player_handle);
    }

    pub fn new() -> (registry: ClientRegistry)
        ensures
            registry.wf(),
            registry@ == ArenaModel::<Handle>::empty(),
            registry.handed() == Seq::<Handed>::empty(),
            registry.received() == Seq::<Batch>::empty(),
    {
        let registry = ClientRegistry {
            clients: Arena::new(),
            handed: Ghost(Seq::empty()),
            received: Ghost(Seq::empty()),
        };
        assert(registry@.slots =~= ArenaModel::<Handle>::empty().slots);
        registry
    }

    /// Whether one more client fits.
    pub fn has_room(&self) -> (b: bool)
        requires
            self.wf(),
        ensures
            b == self@.has_room(),
    {
        proof {
            self.lemma_view();
        }
        self.clients.has_room()
    }

    /// Takes a client in and returns its handle.
    pub fn spawn(&mut self, client: RemoteClient) -> (client_handle: Handle)
        requires
            old(self).wf(),
            old(self)@.has_room(),
        ensures
            final(self).wf(),
            client_handle == old(self)@.next_handle(),
            final(self)@ == old(self)@.spawn(client.spec_player_handle()),
            final(self).handed() == old(self).handed(),
            final(self).received() == old(self).received(),
    {
        proof {
            self.lemma_view();
            self.clients@.lemma_map_spawn(|client: RemoteClient| client.player_handle, client);
        }
        self.clients.spawn(client)
    }

    /// Whether a client with this handle is in the registry.
    pub fn is_valid_handle(&self, client_handle: Handle) -> (b: bool)
        ensures
            b == self@.is_live(client_handle),
    {
        proof {
        }
        self.clients.is_valid_handle(client_handle)
    }

    /// Takes a client out of the registry.
    pub fn free(&mut self, client_handle: Handle) -> (client: RemoteClient)
        requires
            old(self).wf(),
            old(self)@.is_live(client_handle),
        ensures
            final(self).wf(),
            final(self)@ == old(self)@.free(client_handle),
            client.spec_player_handle() == old(self)@.entries()[client_handle],
            final(self).handed() == old(self).handed(),
            final(self).received() == old(self).received(),
    {
        proof {
            self.lemma_view();
            self.clients@.lemma_map_free(|client: RemoteClient| client.player_handle, client_handle);
        }
        self.clients.free(client_handle)
    }

    /// The handles of the clients, by index.
    pub fn handles(&self) -> (client_handles: Vec<Handle>)
        requires
            self.wf(),
        ensures
            client_handles@ == self@.live_handles(),
    {
        proof {
            self.lemma_view();
        }
        self.clients.handles()
    }

    /// The player that a client controls.
    pub fn player_handle(&self, client_handle: Handle) -> (player_handle: Handle)
        requires
            self@.is_live(client_handle),
        ensures
            player_handle == self@.entries()[client_handle],
    {
        proof {
        }
        self.clients.borrow(client_handle).player_handle()
    }

    /// Hands one frame to a client's connection, once, and says whether
    /// the connection took it. Nothing else is called.
    pub fn send(&mut self, client_handle: Handle, bytes: &[u8]) -> (ok: bool)
        requires
            old(self).wf(),
            old(self)@.is_live(client_handle),
        ensures
            final(self).wf(),
            final(self)@ == old(self)@,
            final(self).handed() == old(self).handed().push(
                Handed { client: client_handle, bytes: bytes@, ok },
            ),
            final(self).received() == old(self).received(),
    {
        proof {
            self.lemma_view();
        }
        let client = self.clients.borrow_mut(client_handle);
        let ok = client.connection.send(bytes).is_ok();
        proof {
            old(self).clients@.lemma_map_replace(
                |client: RemoteClient| client.player_handle,
                client_handle,
                *client,
            );
            self.handed@ = self.handed@.push(Handed { client: client_handle, bytes: bytes@, ok });
        }
        ok
    }

    /// Asks a client's connection, once, for what has arrived, and returns
    /// what it gave: the messages, and whether the stream is closed.
    /// Nothing else is called.
    pub fn receive(&mut self, client_handle: Handle) -> (received: (Vec<ClientMessage>, bool))
        requires
            old(self).wf(),
            old(self)@.is_live(client_handle),
        ensures
            final(self).wf(),
            final(self)@ == old(self)@,
            final(self).handed() == old(self).handed(),
            final(self).received() == old(self).received().push(
                Batch {
                    client: client_handle,
                    messages: client_views(received.0@),
                    closed: received.1,
                },
            ),
    {
        proof {
            self.lemma_view();
        }
        let client = self.clients.borrow_mut(client_handle);
        let received = client.connection.receive_cm();
        proof {
            old(self).clients@.lemma_map_replace(
                |client: RemoteClient| client.player_handle,
                client_handle,
                *client,
            );
            self.received@ = self.received@.push(
                Batch {
                    client: client_handle,
                    messages: client_views(received.0@),
                    closed: received.1,
                },
            );
        }
        received
    }
}

} // verus!
