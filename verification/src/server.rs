//! The dedicated game server.
//!
//! One tick does its work in a fixed order: accept the connections that are
//! waiting, take what the clients have sent, let the scene simulate one step,
//! send everybody the update, and prune the clients that have failed. A
//! client whose stream is closed, or to whom a send has failed, is only
//! marked at first; it leaves with the next prune.
use crate::arena::{ArenaModel, Handle};
use crate::clients::{Batch, ClientRegistry, RemoteClient};
use crate::codec::{serialize, spec_serialize};
use crate::debug::{DebugContext, DebugShape};
use crate::entities::{Cycle, Player, PlayerState};
use crate::game_state::{GameState, Scene};
use crate::messages::{
    client_views, texts_view, AddPlayer, AddPlayerView, ClientMessage, ClientMessageView, CyclePhysics, InitData,
    InitDataView, PlayerCycle, ServerMessage, ServerMessageView, UpdatePhysics,
};
use crate::net::{AcceptError, Connection, Listener};
use vstd::prelude::*;

verus! {

/// To whom a message goes.
#[derive(Clone, Copy, Debug)]
pub enum SendDest {
    One(Handle),
    All,
}

/// A message on its way to a client.
pub struct Attempt {
    pub client: Handle,
    pub message: ServerMessageView,
}

/// An attempt to send, and whether the transport took the frame.
pub struct Delivery {
    pub client: Handle,
    pub message: ServerMessageView,
    pub ok: bool,
}

/// What the listener answered when it was asked for a connection.
pub enum Knock {
    /// It handed out a connection.
    Connection,
    /// Nobody was waiting.
    WouldBlock,
    /// It is broken.
    Fatal,
}

/// What was to be sent to whom, without the outcomes.
pub open spec fn attempts(deliveries: Seq<Delivery>) -> Seq<Attempt> {
    deliveries.map_values(|d: Delivery| Attempt { client: d.client, message: d.message })
}

/// The clients to whom a send has failed, once for each failure, in order.
pub open spec fn failures(deliveries: Seq<Delivery>) -> Seq<Handle>
    decreases deliveries.len(),
{
    if deliveries.len() == 0 {
        Seq::empty()
    } else if deliveries.last().ok {
        failures(deliveries.drop_last())
    } else {
        failures(deliveries.drop_last()).push(deliveries.last().client)
    }
}

/// One message for each of the targets, in order.
pub open spec fn fan_out(targets: Seq<Handle>, message: ServerMessageView) -> Seq<Attempt> {
    targets.map_values(|client: Handle| Attempt { client, message })
}

/// One after the other, each of the messages for each of the targets.
pub open spec fn fan_out_all(targets: Seq<Handle>, messages: Seq<ServerMessageView>) -> Seq<Attempt>
    decreases messages.len(),
{
    if messages.len() == 0 {
        Seq::empty()
    } else {
        fan_out_all(targets, messages.drop_last()) + fan_out(targets, messages.last())
    }
}

/// One more delivery adds its client to the failures if it failed.
pub proof fn lemma_failures_push(deliveries: Seq<Delivery>, d: Delivery)
    ensures
        failures(deliveries.push(d)) == (if d.ok {
            failures(deliveries)
        } else {
            failures(deliveries).push(d.client)
        }),
{
    assert(deliveries.push(d).drop_last() =~= deliveries);
}

/// The failures of two stretches are those of the first, then those of the
/// second.
pub proof fn lemma_failures_add(a: Seq<Delivery>, b: Seq<Delivery>)
    ensures
        failures(a + b) == failures(a) + failures(b),
    decreases b.len(),
{
    if b.len() == 0 {
        assert(a + b =~= a);
        assert(failures(a) + failures(b) =~= failures(a));
    } else {
        lemma_failures_add(a, b.drop_last());
        assert((a + b).drop_last() =~= a + b.drop_last());
        assert((a + b).last() == b.last());
        if b.last().ok {
        } else {
            assert(failures(a + b) =~= failures(a) + failures(b));
        }
    }
}

/// How often `message` was to be sent to `client`.
pub open spec fn told(deliveries: Seq<Delivery>, client: Handle, message: ServerMessageView) -> nat
    decreases deliveries.len(),
{
    if deliveries.len() == 0 {
        0
    } else if deliveries.last().client == client && deliveries.last().message == message {
        told(deliveries.drop_last(), client, message) + 1
    } else {
        told(deliveries.drop_last(), client, message)
    }
}

/// The message that tells that the player with this index is gone.
pub open spec fn gone(player_index: u32) -> ServerMessageView {
    ServerMessageView::RemovePlayer { player_index }
}

/// What was told in two stretches is what was told in each.
pub proof fn lemma_told_add(
    a: Seq<Delivery>,
    b: Seq<Delivery>,
    client: Handle,
    message: ServerMessageView,
)
    ensures
        told(a + b, client, message) == told(a, client, message) + told(b, client, message),
    decreases b.len(),
{
    if b.len() == 0 {
        assert(a + b =~= a);
    } else {
        lemma_told_add(a, b.drop_last(), client, message);
        assert((a + b).drop_last() =~= a + b.drop_last());
        assert((a + b).last() == b.last());
    }
}

/// Who was never sent a message was not told it.
pub proof fn lemma_told_none(deliveries: Seq<Delivery>, client: Handle, message: ServerMessageView)
    requires
        forall|k: int|
            0 <= k < deliveries.len() ==> (#[trigger] deliveries[k]).message != message
                || deliveries[k].client != client,
    ensures
        told(deliveries, client, message) == 0,
    decreases deliveries.len(),
{
    if deliveries.len() > 0 {
        assert forall|k: int| 0 <= k < deliveries.drop_last().len() implies (
        #[trigger] deliveries.drop_last()[k]).message != message || deliveries.drop_last()[k].client
            != client by {
            assert(deliveries.drop_last()[k] == deliveries[k]);
        }
        lemma_told_none(deliveries.drop_last(), client, message);
        assert(deliveries.last() == deliveries[deliveries.len() - 1]);
    }
}

/// Of a message that went to each of the targets once, each target was
/// told once and nobody else at all.
pub proof fn lemma_told_fan_out(
    deliveries: Seq<Delivery>,
    targets: Seq<Handle>,
    message: ServerMessageView,
    client: Handle,
)
    requires
        attempts(deliveries) == fan_out(targets, message),
        targets.no_duplicates(),
    ensures
        told(deliveries, client, message) == (if targets.contains(client) {
            1nat
        } else {
            0nat
        }),
        forall|k: int| 0 <= k < deliveries.len() ==> (#[trigger] deliveries[k]).message == message,
    decreases deliveries.len(),
{
    assert(attempts(deliveries).len() == deliveries.len());
    assert(fan_out(targets, message).len() == targets.len());
    if deliveries.len() > 0 {
        let front = deliveries.drop_last();
        let before = targets.drop_last();
        assert(attempts(front) =~= fan_out(before, message)) by {
            assert forall|k: int| 0 <= k < front.len() implies attempts(front)[k] == fan_out(
                before,
                message,
            )[k] by {
                assert(front[k] == deliveries[k]);
                assert(before[k] == targets[k]);
                assert(attempts(deliveries)[k] == fan_out(targets, message)[k]);
                assert(attempts(deliveries)[k].client == deliveries[k].client);
                assert(fan_out(targets, message)[k].client == targets[k]);
            }
        }
        lemma_told_fan_out(front, before, message, client);
        let n = deliveries.len() - 1;
        assert(attempts(deliveries)[n] == fan_out(targets, message)[n]);
        assert(attempts(deliveries)[n].client == deliveries[n].client);
        assert(attempts(deliveries)[n].message == deliveries[n].message);
        assert(fan_out(targets, message)[n].client == targets[n]);
        assert(fan_out(targets, message)[n].message == message);
        assert(deliveries.last().client == targets[n]);
        assert(deliveries.last().message == message);
        if targets[n] == client {
            if before.contains(client) {
                let k = choose|k: int| 0 <= k < before.len() && before[k] == client;
                assert(targets[k] == targets[n]);
            }
        } else {
            if targets.contains(client) {
                let k = choose|k: int| 0 <= k < targets.len() && targets[k] == client;
                assert(before[k] == client);
            }
            if before.contains(client) {
                let k = choose|k: int| 0 <= k < before.len() && before[k] == client;
                assert(targets[k] == client);
            }
        }
        assert forall|k: int| 0 <= k < deliveries.len() implies (#[trigger] deliveries[k]).message
            == message by {
            if k < n {
                assert(front[k] == deliveries[k]);
            }
        }
    }
}

/// The player after one message from their client: an input replaces the
/// one before, joining makes them play, observing makes them watch, and
/// chat changes nothing.
pub open spec fn apply_message(player: Player, message: ClientMessageView) -> Player {
    match message {
        ClientMessageView::Input(input) => Player { input, ..player },
        ClientMessageView::Chat(_) => player,
        ClientMessageView::Join => Player { ps: PlayerState::Playing, ..player },
        ClientMessageView::Observe => Player { ps: PlayerState::Observing, ..player },
    }
}

/// The player after the messages, taken in order.
pub open spec fn apply_messages(player: Player, messages: Seq<ClientMessageView>) -> Player
    decreases messages.len(),
{
    if messages.len() == 0 {
        player
    } else {
        apply_message(apply_messages(player, messages.drop_last()), messages.last())
    }
}

/// What everybody is told after one message from the client of the player
/// with this index.
pub open spec fn broadcast_for(player_index: u32, message: ClientMessageView) -> Seq<
    ServerMessageView,
> {
    match message {
        ClientMessageView::Join => seq![ServerMessageView::Join { player_index }],
        ClientMessageView::Observe => seq![ServerMessageView::Observe { player_index }],
        _ => Seq::empty(),
    }
}

/// What everybody is told after the messages, in the order of the messages.
pub open spec fn broadcasts_for(player_index: u32, messages: Seq<ClientMessageView>) -> Seq<
    ServerMessageView,
>
    decreases messages.len(),
{
    if messages.len() == 0 {
        Seq::empty()
    } else {
        broadcasts_for(player_index, messages.drop_last()) + broadcast_for(
            player_index,
            messages.last(),
        )
    }
}

/// The players after what the clients' connections gave, batch by batch:
/// the messages of each batch change the player of its client as
/// `apply_messages` says. A batch from a client that is not in the registry
/// changes nothing.
pub open spec fn apply_batches(
    players: ArenaModel<Player>,
    registry: ArenaModel<Handle>,
    batches: Seq<Batch>,
) -> ArenaModel<Player>
    decreases batches.len(),
{
    if batches.len() == 0 {
        players
    } else {
        let before = apply_batches(players, registry, batches.drop_last());
        let batch = batches.last();
        if registry.is_live(batch.client) {
            let player_handle = registry.entries()[batch.client];
            before.replace(
                player_handle,
                apply_messages(before.entries()[player_handle], batch.messages),
            )
        } else {
            before
        }
    }
}

/// What everybody is to be told after the batches, in the order of the
/// batches and of the messages in each.
pub open spec fn queued(registry: ArenaModel<Handle>, batches: Seq<Batch>) -> Seq<ServerMessageView>
    decreases batches.len(),
{
    if batches.len() == 0 {
        Seq::empty()
    } else if registry.is_live(batches.last().client) {
        queued(registry, batches.drop_last()) + broadcasts_for(
            registry.entries()[batches.last().client].index,
            batches.last().messages,
        )
    } else {
        queued(registry, batches.drop_last())
    }
}

/// The clients whose stream was closed when they were asked, in the order
/// of the batches.
pub open spec fn closed_clients(registry: ArenaModel<Handle>, batches: Seq<Batch>) -> Seq<Handle>
    decreases batches.len(),
{
    if batches.len() == 0 {
        Seq::empty()
    } else if registry.is_live(batches.last().client) && batches.last().closed {
        closed_clients(registry, batches.drop_last()).push(batches.last().client)
    } else {
        closed_clients(registry, batches.drop_last())
    }
}

/// The views of messages from the server.
pub open spec fn server_views(messages: Seq<ServerMessage>) -> Seq<ServerMessageView> {
    messages.map_values(|message: ServerMessage| message@)
}

/// Whether a message tells of a player who joined or who observes.
pub open spec fn is_transition(message: ServerMessageView) -> bool {
    message is Join || message is Observe
}

/// A send to many reaches each of them: wherever the server has carried out
/// a plan that `fan_out` made, every target got exactly one attempt, in
/// the order of the targets and with that message, whether or not the
/// attempts before it failed.
pub proof fn law_fan_out_reaches_every_target(
    before: Seq<Delivery>,
    after: Seq<Delivery>,
    targets: Seq<Handle>,
    message: ServerMessageView,
)
    requires
        before.len() <= after.len(),
        attempts(after.skip(before.len() as int)) == fan_out(targets, message),
    ensures
        after.len() == before.len() + targets.len(),
        forall|i: int|
            0 <= i < targets.len() ==> (#[trigger] after[before.len() + i]).client == targets[i]
                && after[before.len() + i].message == message,
{
    let news = after.skip(before.len() as int);
    assert(attempts(news).len() == news.len());
    assert(fan_out(targets, message).len() == targets.len());
    assert forall|i: int| 0 <= i < targets.len() implies (#[trigger] after[before.len() + i]).client
        == targets[i] && after[before.len() + i].message == message by {
        assert(news[i] == after[before.len() + i]);
        assert(attempts(news)[i].client == news[i].client);
        assert(attempts(news)[i].message == news[i].message);
        assert(fan_out(targets, message)[i].client == targets[i]);
        assert(fan_out(targets, message)[i].message == message);
    }
}

/// The last word counts: a player whose client says that they join and
/// then that they observe, in one tick, observes, and everybody is told of
/// both, in that order. The other way round they play.
pub proof fn law_join_then_observe(player: Player, player_index: u32)
    ensures
        apply_messages(player, seq![ClientMessageView::Join, ClientMessageView::Observe]).ps
            == PlayerState::Observing,
        broadcasts_for(player_index, seq![ClientMessageView::Join, ClientMessageView::Observe])
            == seq![
            ServerMessageView::Join { player_index },
            ServerMessageView::Observe { player_index },
        ],
        apply_messages(player, seq![ClientMessageView::Observe, ClientMessageView::Join]).ps
            == PlayerState::Playing,
        broadcasts_for(player_index, seq![ClientMessageView::Observe, ClientMessageView::Join])
            == seq![
            ServerMessageView::Observe { player_index },
            ServerMessageView::Join { player_index },
        ],
{
    let jo = seq![ClientMessageView::Join, ClientMessageView::Observe];
    let oj = seq![ClientMessageView::Observe, ClientMessageView::Join];
    assert(jo.drop_last() =~= seq![ClientMessageView::Join]);
    assert(oj.drop_last() =~= seq![ClientMessageView::Observe]);
    assert(jo.drop_last().drop_last() =~= Seq::<ClientMessageView>::empty());
    assert(oj.drop_last().drop_last() =~= Seq::<ClientMessageView>::empty());
    reveal_with_fuel(apply_messages, 3);
    reveal_with_fuel(broadcasts_for, 3);
    assert(broadcasts_for(player_index, jo) =~= seq![
        ServerMessageView::Join { player_index },
        ServerMessageView::Observe { player_index },
    ]);
    assert(broadcasts_for(player_index, oj) =~= seq![
        ServerMessageView::Observe { player_index },
        ServerMessageView::Join { player_index },
    ]);
}

/// Of the messages of one tick the last one of each kind decides: after an
/// input the player's input is that input, after a join they play, and
/// after an observe they watch, whatever came before.
pub proof fn law_last_message_wins(player: Player, earlier: Seq<ClientMessageView>, last: ClientMessageView)
    ensures
        apply_messages(player, earlier.push(last)) == apply_message(
            apply_messages(player, earlier),
            last,
        ),
        last matches ClientMessageView::Input(input) ==> apply_messages(
            player,
            earlier.push(last),
        ).input == input,
        last is Join ==> apply_messages(player, earlier.push(last)).ps == PlayerState::Playing,
        last is Observe ==> apply_messages(player, earlier.push(last)).ps == PlayerState::Observing,
{
    assert(earlier.push(last).drop_last() =~= earlier);
}

/// Everybody is only ever told of players who join or observe.
pub proof fn lemma_broadcasts_are_transitions(player_index: u32, messages: Seq<ClientMessageView>)
    ensures
        forall|k: int|
            0 <= k < broadcasts_for(player_index, messages).len() ==> is_transition(
                #[trigger] broadcasts_for(player_index, messages)[k],
            ),
    decreases messages.len(),
{
    if messages.len() > 0 {
        lemma_broadcasts_are_transitions(player_index, messages.drop_last());
        let before = broadcasts_for(player_index, messages.drop_last());
        let all = broadcasts_for(player_index, messages);
        assert forall|k: int| 0 <= k < all.len() implies is_transition(#[trigger] all[k]) by {
            if k < before.len() {
                assert(all[k] == before[k]);
            } else {
                assert(all[k] == broadcast_for(player_index, messages.last())[k - before.len()]);
            }
        }
    }
}

/// The server: the game state, the listener, the clients, the clients
/// marked as failed, and the record of every send attempted so far.
pub struct ServerGame {
    gs: GameState,
    listener: Box<dyn Listener>,
    clients: ClientRegistry,
    failed: Vec<Handle>,
    sent: Ghost<Seq<Delivery>>,
    knocks: Ghost<Seq<Knock>>,
}

impl ServerGame {
    /// The game state.
    pub closed spec fn game_state(&self) -> GameState {
        self.gs
    }

    /// The players.
    pub open spec fn players(&self) -> ArenaModel<Player> {
        self.game_state().players()
    }

    /// The cycles.
    pub open spec fn cycles(&self) -> ArenaModel<Cycle> {
        self.game_state().cycles()
    }

    /// The registry of clients: each client's handle with the handle of the
    /// player it controls.
    pub closed spec fn registry(&self) -> ArenaModel<Handle> {
        self.clients@
    }

    /// The clients marked as failed and not yet pruned, in the order in which
    /// they were marked. A client is marked once for each failure.
    pub closed spec fn failed(&self) -> Seq<Handle> {
        self.failed@
    }

    /// Every send attempted so far, in order.
    pub closed spec fn sent(&self) -> Seq<Delivery> {
        self.sent@
    }

    /// Every answer that the listener gave so far, in order.
    pub closed spec fn knocks(&self) -> Seq<Knock> {
        self.knocks@
    }

    /// Everything that the clients' connections gave so far, in the order
    /// in which they were asked.
    pub closed spec fn heard(&self) -> Seq<Batch> {
        self.clients.received()
    }

    /// Since `before` neither the listener nor a client was asked for
    /// anything.
    pub open spec fn quiet_since(&self, before: &ServerGame) -> bool {
        self.knocks() == before.knocks() && self.heard() == before.heard()
    }

    /// Every client controls a live player, and no two clients control the
    /// same one.
    pub open spec fn wf(&self) -> bool {
        &&& self.game_state().wf()
        &&& self.registry().wf()
        &&& forall|c: Handle| #[trigger]
            self.registry().is_live(c) ==> self.players().is_live(self.registry().entries()[c])
        &&& forall|c: Handle, d: Handle|
            #![trigger self.registry().is_live(c), self.registry().is_live(d)]
            self.registry().is_live(c) && self.registry().is_live(d) && c != d
                ==> self.registry().entries()[c] != self.registry().entries()[d]
    }

    /// Since `before`, the server has attempted exactly the sends of `plan`,
    /// in order, and has marked the clients to whom one failed.
    pub open spec fn continues(&self, before: &ServerGame, plan: Seq<Attempt>) -> bool {
        let news = self.sent().skip(before.sent().len() as int);
        &&& before.sent().len() <= self.sent().len()
        &&& self.sent() == before.sent() + news
        &&& attempts(news) == plan
        &&& self.failed() == before.failed() + failures(news)
    }

    /// What `continues` says of two stretches, it says of both together.
    pub proof fn lemma_continues(&self, middle: &ServerGame, before: &ServerGame, first: Seq<Attempt>, second: Seq<Attempt>)
        requires
            middle.continues(before, first),
            self.continues(middle, second),
        ensures
            self.continues(before, first + second),
    {
        let a = middle.sent().skip(before.sent().len() as int);
        let b = self.sent().skip(middle.sent().len() as int);
        let news = self.sent().skip(before.sent().len() as int);
        assert(news =~= a + b);
        assert(self.sent() =~= before.sent() + news);
        assert(attempts(news) =~= first + second);
        lemma_failures_add(a, b);
        assert(self.failed() =~= before.failed() + failures(news));
    }

    /// A server with no clients and nobody in the game.
    pub fn new(listener: Box<dyn Listener>) -> (server: ServerGame)
        ensures
            server.wf(),
            server.registry() == ArenaModel::<Handle>::empty(),
            server.players() == ArenaModel::<Player>::empty(),
            server.cycles() == ArenaModel::<Cycle>::empty(),
            server.failed() == Seq::<Handle>::empty(),
            server.sent() == Seq::<Delivery>::empty(),
            server.knocks() == Seq::<Knock>::empty(),
            server.heard() == Seq::<Batch>::empty(),
    {
        let server = ServerGame {
            gs: GameState::new(),
            listener,
            clients: ClientRegistry::new(),
            failed: Vec::new(),
            sent: Ghost(Seq::empty()),
            knocks: Ghost(Seq::empty()),
        };
        server
    }

    /// The game state.
    pub fn gs(&self) -> (gs: &GameState)
        ensures
            *gs == self.game_state(),
    {
        &self.gs
    }

    /// Sends one frame to one live client, records the attempt, and marks
    /// the client if the send fails.
    fn send_to(&mut self, client_handle: Handle, bytes: &Vec<u8>, Ghost(message): Ghost<ServerMessageView>) -> (ok: bool)
        requires
            old(self).wf(),
            old(self).registry().is_live(client_handle),
            bytes@ == spec_serialize(message),
        ensures
            final(self).wf(),
            final(self).quiet_since(old(self)),
            final(self).registry() == old(self).registry(),
            final(self).game_state() == old(self).game_state(),
            final(self).continues(old(self), seq![Attempt { client: client_handle, message }]),
            final(self).sent() == old(self).sent().push(Delivery { client: client_handle, message, ok }),
    {
        let ok = self.clients.send(client_handle, bytes.as_slice());
        proof {
            self.sent@ = self.sent@.push(Delivery { client: client_handle, message, ok });
        }
        if !ok {
            self.failed.push(client_handle);
        }
        proof {
            let d = Delivery { client: client_handle, message, ok };
            let news = self.sent().skip(old(self).sent().len() as int);
            assert(news =~= seq![d]);
            assert(self.sent() =~= old(self).sent() + news);
            assert(attempts(news) =~= seq![Attempt { client: client_handle, message }]);
            lemma_failures_push(Seq::<Delivery>::empty(), d);
            assert(Seq::<Delivery>::empty().push(d) =~= seq![d]);
            assert(self.failed() =~= old(self).failed() + failures(news));
        }
        ok
    }

    /// The live clients that `dest` names, in the order of the registry.
    pub open spec fn targets(&self, dest: SendDest) -> Seq<Handle> {
        match dest {
            SendDest::One(client_handle) => if self.registry().is_live(client_handle) {
                seq![client_handle]
            } else {
                Seq::empty()
            },
            SendDest::All => self.registry().live_handles(),
        }
    }

    /// Nothing sent, nobody marked.
    pub proof fn lemma_continues_nothing(&self, before: &ServerGame)
        requires
            self.sent() == before.sent(),
            self.failed() == before.failed(),
        ensures
            self.continues(before, Seq::empty()),
    {
        let news = self.sent().skip(before.sent().len() as int);
        assert(news =~= Seq::<Delivery>::empty());
        assert(self.sent() =~= before.sent() + news);
        assert(attempts(news) =~= Seq::<Attempt>::empty());
        assert(self.failed() =~= before.failed() + failures(news));
    }

    /// Sends a message to one client or to all of them. Every client named
    /// gets one attempt, whatever happens to the others; a client to whom
    /// the send fails is marked, and leaves with the next prune. A client
    /// that is not in the registry gets nothing.
    pub fn network_send(&mut self, message: ServerMessage, dest: SendDest)
        requires
            old(self).wf(),
        ensures
            final(self).wf(),
            final(self).quiet_since(old(self)),
            final(self).registry() == old(self).registry(),
            final(self).game_state() == old(self).game_state(),
            final(self).continues(old(self), fan_out(old(self).targets(dest), message@)),
    {
        self.send_message(&message, dest)
    }

    /// Sends a message that the caller keeps; otherwise as `network_send`.
    pub fn send_message(&mut self, message: &ServerMessage, dest: SendDest)
        requires
            old(self).wf(),
        ensures
            final(self).wf(),
            final(self).quiet_since(old(self)),
            final(self).registry() == old(self).registry(),
            final(self).game_state() == old(self).game_state(),
            final(self).continues(old(self), fan_out(old(self).targets(dest), message@)),
    {
        let bytes = serialize(message);
        proof {
            self.lemma_continues_nothing(old(self));
        }
        match dest {
            SendDest::One(client_handle) => {
                if self.clients.is_valid_handle(client_handle) {
                    self.send_to(client_handle, &bytes, Ghost(message@));
                    assert(fan_out(seq![client_handle], message@) =~= seq![
                        Attempt { client: client_handle, message: message@ },
                    ]);
                } else {
                    assert(fan_out(Seq::<Handle>::empty(), message@) =~= Seq::<Attempt>::empty());
                }
            },
            SendDest::All => {
                let handles = self.clients.handles();
                let mut i: usize = 0;
                assert(fan_out(handles@.take(0), message@) =~= Seq::<Attempt>::empty());
                while i < handles.len()
                    invariant
                        i <= handles@.len(),
                        self.wf(),
                        self.quiet_since(old(self)),
                        self.registry() == old(self).registry(),
                        self.game_state() == old(self).game_state(),
                        handles@ == old(self).registry().live_handles(),
                        bytes@ == spec_serialize(message@),
                        self.continues(old(self), fan_out(handles@.take(i as int), message@)),
                    decreases handles@.len() - i,
                {
                    let client_handle = handles[i];
                    let ghost middle = *self;
                    proof {
                        self.registry().lemma_live_handles();
                        assert(handles@.contains(handles@[i as int]));
                    }
                    self.send_to(client_handle, &bytes, Ghost(message@));
                    proof {
                        let one = seq![Attempt { client: client_handle, message: message@ }];
                        self.lemma_continues(
                            &middle,
                            old(self),
                            fan_out(handles@.take(i as int), message@),
                            one,
                        );
                        assert(fan_out(handles@.take(i + 1), message@) =~= fan_out(
                            handles@.take(i as int),
                            message@,
                        ) + one);
                    }
                    i = i + 1;
                }
                assert(handles@.take(i as int) =~= handles@);
            },
        }
    }

    /// Removes a client: it leaves the registry, its player and the cycle
    /// they ride leave the game, and every client that is left is told that
    /// the player is gone. Does nothing if the client is not in the registry.
    pub fn disconnect<S: Scene>(&mut self, scene: &mut S, client_handle: Handle)
        requires
            old(self).wf(),
        ensures
            final(self).wf(),
            !old(self).registry().is_live(client_handle) ==> {
                &&& final(self).registry() == old(self).registry()
                &&& final(self).game_state() == old(self).game_state()
                &&& final(self).continues(old(self), Seq::empty())
            },
            old(self).registry().is_live(client_handle) ==> {
                let player_handle = old(self).registry().entries()[client_handle];
                &&& final(self).registry() == old(self).registry().free(client_handle)
                &&& final(self).players() == old(self).players().free(player_handle)
                &&& final(self).cycles() == (match old(self).players().entries()[player_handle].cycle_handle {
                    Some(c) => old(self).cycles().free(c),
                    None => old(self).cycles(),
                })
                &&& final(self).continues(
                    old(self),
                    fan_out(
                        old(self).registry().free(client_handle).live_handles(),
                        gone(player_handle.index),
                    ),
                )
            },
    {
        proof {
            self.lemma_continues_nothing(old(self));
        }
        if !self.clients.is_valid_handle(client_handle) {
            return ;
        }
        let client = self.clients.free(client_handle);
        let player_handle = client.player_handle();
        self.gs.free_player(scene, player_handle);
        proof {
            old(self).registry().lemma_free(client_handle);
            old(self).players().lemma_free(player_handle);
            assert forall|c: Handle| #[trigger] self.registry().is_live(c) implies self.players().is_live(
                self.registry().entries()[c],
            ) by {
                assert(old(self).registry().is_live(c));
                assert(old(self).registry().is_live(client_handle));
            }
            assert forall|c: Handle, d: Handle|
                #![trigger self.registry().is_live(c), self.registry().is_live(d)]
                self.registry().is_live(c) && self.registry().is_live(d) && c != d
                    implies self.registry().entries()[c] != self.registry().entries()[d] by {
                assert(old(self).registry().is_live(c));
                assert(old(self).registry().is_live(d));
            }
        }
        let ghost middle = *self;
        proof {
            middle.lemma_continues_nothing(old(self));
        }
        let message = ServerMessage::RemovePlayer { player_index: player_handle.index() };
        self.network_send(message, SendDest::All);
        proof {
            self.lemma_continues(
                &middle,
                old(self),
                Seq::empty(),
                fan_out(middle.registry().live_handles(), message@),
            );
            assert(Seq::<Attempt>::empty() + fan_out(middle.registry().live_handles(), message@)
                =~= fan_out(middle.registry().live_handles(), message@));
        }
    }

    /// The indices of the players, in the order of their arena.
    pub open spec fn player_indices(players: ArenaModel<Player>) -> Seq<u32> {
        players.live_handles().map_values(|player_handle: Handle| player_handle.index)
    }

    /// Who rides what, in the order of the cycles' arena.
    pub open spec fn player_cycles(cycles: ArenaModel<Cycle>) -> Seq<PlayerCycle> {
        cycles.live_handles().map_values(
            |cycle_handle: Handle|
                PlayerCycle {
                    player_index: cycles.entries()[cycle_handle].player_handle.index,
                    cycle_index: cycle_handle.index,
                },
        )
    }

    /// What a new client is told: every player, which of them it controls,
    /// and who rides what. Nobody has fired anything yet.
    pub open spec fn init_data(
        players: ArenaModel<Player>,
        cycles: ArenaModel<Cycle>,
        local_player: Handle,
    ) -> ServerMessageView {
        ServerMessageView::InitData(
            InitDataView {
                player_indices: Self::player_indices(players),
                local_player_index: local_player.index,
                player_cycles: Self::player_cycles(cycles),
                player_projectiles: Seq::empty(),
            },
        )
    }

    /// Tells one client who is in the game. A client that is not in the
    /// registry is told nothing.
    pub fn send_init(&mut self, client_handle: Handle)
        requires
            old(self).wf(),
        ensures
            final(self).wf(),
            final(self).quiet_since(old(self)),
            final(self).registry() == old(self).registry(),
            final(self).game_state() == old(self).game_state(),
            final(self).continues(
                old(self),
                if old(self).registry().is_live(client_handle) {
                    seq![
                        Attempt {
                            client: client_handle,
                            message: Self::init_data(
                                old(self).players(),
                                old(self).cycles(),
                                old(self).registry().entries()[client_handle],
                            ),
                        },
                    ]
                } else {
                    Seq::empty()
                },
            ),
    {
        proof {
            self.lemma_continues_nothing(old(self));
        }
        if !self.clients.is_valid_handle(client_handle) {
            return ;
        }
        let players = self.gs.players_arena();
        let player_handles = players.handles();
        let mut player_indices: Vec<u32> = Vec::new();
        let mut i: usize = 0;
        while i < player_handles.len()
            invariant
                i <= player_handles@.len(),
                player_indices@ == player_handles@.take(i as int).map_values(
                    |player_handle: Handle| player_handle.index,
                ),
            decreases player_handles@.len() - i,
        {
            player_indices.push(player_handles[i].index());
            assert(player_handles@.take(i + 1) =~= player_handles@.take(i as int).push(
                player_handles@[i as int],
            ));
            assert(player_indices@ =~= player_handles@.take(i + 1).map_values(
                |player_handle: Handle| player_handle.index,
            ));
            i = i + 1;
        }
        assert(player_handles@.take(i as int) =~= player_handles@);
        let local_player_index = self.clients.player_handle(client_handle).index();

        let cycles = self.gs.cycles_arena();
        let cycle_handles = cycles.handles();
        let mut player_cycles: Vec<PlayerCycle> = Vec::new();
        let mut j: usize = 0;
        proof {
            cycles@.lemma_live_handles();
        }
        while j < cycle_handles.len()
            invariant
                j <= cycle_handles@.len(),
                cycle_handles@ == cycles@.live_handles(),
                forall|h: Handle| cycles@.live_handles().contains(h) <==> cycles@.is_live(h),
                player_cycles@ == cycle_handles@.take(j as int).map_values(
                    |cycle_handle: Handle|
                        PlayerCycle {
                            player_index: cycles@.entries()[cycle_handle].player_handle.index,
                            cycle_index: cycle_handle.index,
                        },
                ),
            decreases cycle_handles@.len() - j,
        {
            let cycle_handle = cycle_handles[j];
            assert(cycle_handles@.contains(cycle_handles@[j as int]));
            let cycle = cycles.borrow(cycle_handle);
            player_cycles.push(
                PlayerCycle {
                    player_index: cycle.player_handle.index(),
                    cycle_index: cycle_handle.index(),
                },
            );
            assert(cycle_handles@.take(j + 1) =~= cycle_handles@.take(j as int).push(
                cycle_handles@[j as int],
            ));
            assert(player_cycles@ =~= cycle_handles@.take(j + 1).map_values(
                |cycle_handle: Handle|
                    PlayerCycle {
                        player_index: cycles@.entries()[cycle_handle].player_handle.index,
                        cycle_index: cycle_handle.index,
                    },
            ));
            j = j + 1;
        }
        assert(cycle_handles@.take(j as int) =~= cycle_handles@);

        let init_data = InitData {
            player_indices,
            local_player_index,
            player_cycles,
            player_projectiles: Vec::new(),
        };
        let message = ServerMessage::InitData(init_data);
        assert(message@ == Self::init_data(
            old(self).players(),
            old(self).cycles(),
            old(self).registry().entries()[client_handle],
        ));
        self.send_message(&message, SendDest::One(client_handle));
        assert(fan_out(seq![client_handle], message@) =~= seq![
            Attempt { client: client_handle, message: message@ },
        ]);
    }

    /// One more client, its player and the player's cycle all fit.
    pub open spec fn has_room(&self) -> bool {
        &&& self.registry().has_room()
        &&& self.players().has_room()
        &&& self.cycles().has_room()
    }

    /// Whether one more connection can be accepted.
    pub fn can_accept(&self) -> (b: bool)
        requires
            self.wf(),
        ensures
            b == self.has_room(),
    {
        self.clients.has_room() && self.gs.players_arena().has_room()
            && self.gs.cycles_arena().has_room()
    }

    /// The name that every player goes by.
    pub open spec fn player_name() -> Seq<char> {
        "Player"@
    }

    /// Adds a player who watches and rides nothing, and tells the clients.
    fn add_player(&mut self) -> (player_handle: Handle)
        requires
            old(self).wf(),
            old(self).players().has_room(),
        ensures
            final(self).wf(),
            final(self).quiet_since(old(self)),
            player_handle == old(self).players().next_handle(),
            final(self).registry() == old(self).registry(),
            final(self).cycles() == old(self).cycles(),
            final(self).players() == old(self).players().spawn(Player::spec_new(None)),
            final(self).continues(
                old(self),
                fan_out(
                    old(self).registry().live_handles(),
                    ServerMessageView::AddPlayer(
                        AddPlayerView { name: Self::player_name(), player_index: player_handle.index },
                    ),
                ),
            ),
    {
        proof {
            old(self).players().lemma_spawn_grows(Player::spec_new(None));
        }
        let player_handle = self.gs.spawn_player();
        let add_player = AddPlayer { name: "Player".to_owned(), player_index: player_handle.index() };
        let message = ServerMessage::AddPlayer(add_player);
        let ghost middle = *self;
        proof {
            middle.lemma_continues_nothing(old(self));
        }
        self.send_message(&message, SendDest::All);
        proof {
            let plan = fan_out(old(self).registry().live_handles(), message@);
            self.lemma_continues(&middle, old(self), Seq::empty(), plan);
            assert(Seq::<Attempt>::empty() + plan =~= plan);
        }
        player_handle
    }

    /// Takes a connection into the registry as the client of a player whom
    /// no client controls yet, and tells it who is in the game.
    fn add_client(&mut self, connection: Box<dyn Connection>, player_handle: Handle) -> (client_handle: Handle)
        requires
            old(self).wf(),
            old(self).registry().has_room(),
            old(self).players().is_live(player_handle),
            forall|c: Handle| #[trigger]
                old(self).registry().is_live(c) ==> old(self).registry().entries()[c] != player_handle,
        ensures
            final(self).wf(),
            final(self).quiet_since(old(self)),
            client_handle == old(self).registry().next_handle(),
            final(self).registry() == old(self).registry().spawn(player_handle),
            final(self).game_state() == old(self).game_state(),
            final(self).continues(
                old(self),
                seq![
                    Attempt {
                        client: client_handle,
                        message: Self::init_data(
                            old(self).players(),
                            old(self).cycles(),
                            player_handle,
                        ),
                    },
                ],
            ),
    {
        let client = RemoteClient::new(connection, player_handle);
        let client_handle = self.clients.spawn(client);
        proof {
            old(self).registry().lemma_spawn(player_handle);
            assert forall|c: Handle| #[trigger] self.registry().is_live(c) implies self.players().is_live(
                self.registry().entries()[c],
            ) by {
                if c != client_handle {
                    assert(old(self).registry().is_live(c));
                }
            }
            assert forall|c: Handle, d: Handle|
                #![trigger self.registry().is_live(c), self.registry().is_live(d)]
                self.registry().is_live(c) && self.registry().is_live(d) && c != d
                    implies self.registry().entries()[c] != self.registry().entries()[d] by {
                if c != client_handle {
                    assert(old(self).registry().is_live(c));
                }
                if d != client_handle {
                    assert(old(self).registry().is_live(d));
                }
            }
        }
        let ghost middle = *self;
        proof {
            middle.lemma_continues_nothing(old(self));
        }
        self.send_init(client_handle);
        proof {
            let plan = seq![
                Attempt {
                    client: client_handle,
                    message: Self::init_data(old(self).players(), old(self).cycles(), player_handle),
                },
            ];
            self.lemma_continues(&middle, old(self), Seq::empty(), plan);
            assert(Seq::<Attempt>::empty() + plan =~= plan);
        }
        client_handle
    }

    /// Has the scene make a cycle for a player who rides nothing, and tells
    /// every client.
    fn add_cycle<S: Scene>(&mut self, scene: &mut S, player_handle: Handle) -> (cycle_handle: Handle)
        requires
            old(self).wf(),
            old(self).cycles().has_room(),
            old(self).players().is_live(player_handle),
            old(self).players().entries()[player_handle].cycle_handle is None,
        ensures
            final(self).wf(),
            final(self).quiet_since(old(self)),
            cycle_handle == old(self).cycles().next_handle(),
            final(self).registry() == old(self).registry(),
            final(self).cycles().is_live(cycle_handle),
            final(self).cycles().entries()[cycle_handle].player_handle == player_handle,
            final(self).cycles() == old(self).cycles().spawn(
                final(self).cycles().entries()[cycle_handle],
            ),
            final(self).players() == old(self).players().replace(
                player_handle,
                Player {
                    cycle_handle: Some(cycle_handle),
                    ..old(self).players().entries()[player_handle]
                },
            ),
            final(self).continues(
                old(self),
                fan_out(
                    old(self).registry().live_handles(),
                    ServerMessageView::SpawnCycle(
                        PlayerCycle {
                            player_index: player_handle.index,
                            cycle_index: cycle_handle.index,
                        },
                    ),
                ),
            ),
    {
        let cycle_handle = self.gs.spawn_cycle(scene, player_handle);
        proof {
            old(self).players().lemma_replace(
                player_handle,
                Player {
                    cycle_handle: Some(cycle_handle),
                    ..old(self).players().entries()[player_handle]
                },
            );
            assert forall|c: Handle| #[trigger] self.registry().is_live(c) implies self.players().is_live(
                self.registry().entries()[c],
            ) by {
                assert(old(self).players().is_live(old(self).registry().entries()[c]));
                assert(old(self).players().entries().dom().contains(self.registry().entries()[c]));
                assert(self.players().entries().dom().contains(self.registry().entries()[c]));
            }
        }
        let ghost middle = *self;
        proof {
            middle.lemma_continues_nothing(old(self));
        }
        let player_cycle = PlayerCycle {
            player_index: player_handle.index(),
            cycle_index: cycle_handle.index(),
        };
        let message = ServerMessage::SpawnCycle(player_cycle);
        self.send_message(&message, SendDest::All);
        proof {
            let plan = fan_out(old(self).registry().live_handles(), message@);
            self.lemma_continues(&middle, old(self), Seq::empty(), plan);
            assert(Seq::<Attempt>::empty() + plan =~= plan);
        }
        cycle_handle
    }

    /// `self` is `before` with one more connection taken in: a new player
    /// who watches, a new client for them, and a cycle for the player; the
    /// clients that were there were told of the player, the new client was
    /// told who is in the game, and everybody was told of the cycle.
    pub open spec fn took_in(&self, before: &ServerGame) -> bool {
        let client_handle = before.registry().next_handle();
        let player_handle = before.players().next_handle();
        let cycle_handle = before.cycles().next_handle();
        let joined = before.players().spawn(Player::spec_new(None));
        &&& self.registry() == before.registry().spawn(player_handle)
        &&& self.players() == joined.replace(player_handle, Player::spec_new(Some(cycle_handle)))
        &&& self.cycles().is_live(cycle_handle)
        &&& self.cycles().entries()[cycle_handle].player_handle == player_handle
        &&& self.cycles() == before.cycles().spawn(self.cycles().entries()[cycle_handle])
        &&& self.continues(
            before,
            fan_out(
                before.registry().live_handles(),
                ServerMessageView::AddPlayer(
                    AddPlayerView { name: Self::player_name(), player_index: player_handle.index },
                ),
            ) + seq![
                Attempt {
                    client: client_handle,
                    message: Self::init_data(joined, before.cycles(), player_handle),
                },
            ] + fan_out(
                self.registry().live_handles(),
                ServerMessageView::SpawnCycle(
                    PlayerCycle { player_index: player_handle.index, cycle_index: cycle_handle.index },
                ),
            ),
        )
    }

    /// The two servers have the same clients, the same game, the same
    /// record of sends and the same marks.
    pub open spec fn same_game(&self, other: &ServerGame) -> bool {
        &&& self.registry() == other.registry()
        &&& self.game_state() == other.game_state()
        &&& self.sent() == other.sent()
        &&& self.failed() == other.failed()
    }

    /// From the server at `i` to the next one, one connection was taken in,
    /// and there was room for it.
    pub open spec fn linked(steps: Seq<ServerGame>, i: int) -> bool {
        &&& steps[i].wf()
        &&& steps[i].has_room()
        &&& steps[i + 1].took_in(&steps[i])
    }

    /// The listener was asked until it had nobody waiting or was broken, or
    /// until the registry was full: the answers are `taken` connections
    /// and then, unless the registry was full, the one answer that ended
    /// the asking.
    pub open spec fn drained(
        knocks: Seq<Knock>,
        taken: int,
        result: Result<(), AcceptError>,
        full: bool,
    ) -> bool {
        &&& 0 <= taken <= knocks.len()
        &&& forall|i: int| 0 <= i < taken ==> (#[trigger] knocks[i]) is Connection
        &&& match result {
            Ok(()) => (knocks.len() == taken + 1 && knocks[taken] is WouldBlock) || (knocks.len()
                == taken && full),
            Err(e) => e == AcceptError::Fatal && knocks.len() == taken + 1 && knocks[taken] is Fatal,
        }
    }

    /// `self` is what `accept_new_connections` makes of `before` with this
    /// result: the listener was asked as `drained` says, every connection
    /// that it handed out was taken in as `took_in` says, one after the
    /// other through the servers of `steps`, and no client was asked for
    /// anything.
    pub open spec fn accepted_from(
        &self,
        before: &ServerGame,
        result: Result<(), AcceptError>,
        steps: Seq<ServerGame>,
    ) -> bool {
        &&& before.knocks().is_prefix_of(self.knocks())
        &&& self.heard() == before.heard()
        &&& steps.len() >= 1
        &&& steps[0].same_game(before)
        &&& steps.last().same_game(self)
        &&& forall|i: int| 0 <= i < steps.len() - 1 ==> #[trigger] Self::linked(steps, i)
        &&& Self::drained(
            self.knocks().skip(before.knocks().len() as int),
            steps.len() - 1,
            result,
            !self.has_room(),
        )
    }

    /// Takes a new connection into the game. The player starts out watching.
    /// The clients that were there are told of the new player; the new
    /// client is told who is in the game; the scene makes the player a
    /// cycle; and every client, the new one too, is told of the cycle.
    pub fn accept_connection<S: Scene>(&mut self, scene: &mut S, connection: Box<dyn Connection>) -> (client_handle: Handle)
        requires
            old(self).wf(),
            old(self).has_room(),
        ensures
            final(self).wf(),
            final(self).quiet_since(old(self)),
            final(self).follows(old(self)),
            final(self).took_in(old(self)),
            client_handle == old(self).registry().next_handle(),
            ({
                let player_handle = old(self).players().next_handle();
                let cycle_handle = old(self).cycles().next_handle();
                let joined = old(self).players().spawn(Player::spec_new(None));
                &&& final(self).registry() == old(self).registry().spawn(player_handle)
                &&& final(self).players() == joined.replace(
                    player_handle,
                    Player::spec_new(Some(cycle_handle)),
                )
                &&& final(self).cycles().is_live(cycle_handle)
                &&& final(self).cycles().entries()[cycle_handle].player_handle == player_handle
                &&& final(self).cycles() == old(self).cycles().spawn(
                    final(self).cycles().entries()[cycle_handle],
                )
                &&& final(self).continues(
                    old(self),
                    fan_out(
                        old(self).registry().live_handles(),
                        ServerMessageView::AddPlayer(
                            AddPlayerView {
                                name: Self::player_name(),
                                player_index: player_handle.index,
                            },
                        ),
                    ) + seq![
                        Attempt {
                            client: client_handle,
                            message: Self::init_data(joined, old(self).cycles(), player_handle),
                        },
                    ] + fan_out(
                        final(self).registry().live_handles(),
                        ServerMessageView::SpawnCycle(
                            PlayerCycle {
                                player_index: player_handle.index,
                                cycle_index: cycle_handle.index,
                            },
                        ),
                    ),
                )
            }),
    {
        proof {
            old(self).players().lemma_spawn(Player::spec_new(None));
        }
        let player_handle = self.add_player();
        let ghost with_player = *self;
        let client_handle = self.add_client(connection, player_handle);
        let ghost with_client = *self;
        let cycle_handle = self.add_cycle(scene, player_handle);
        proof {
            let plan_player = fan_out(
                old(self).registry().live_handles(),
                ServerMessageView::AddPlayer(
                    AddPlayerView { name: Self::player_name(), player_index: player_handle.index },
                ),
            );
            let plan_client = seq![
                Attempt {
                    client: client_handle,
                    message: Self::init_data(
                        with_player.players(),
                        old(self).cycles(),
                        player_handle,
                    ),
                },
            ];
            let plan_cycle = fan_out(
                self.registry().live_handles(),
                ServerMessageView::SpawnCycle(
                    PlayerCycle { player_index: player_handle.index, cycle_index: cycle_handle.index },
                ),
            );
            with_client.lemma_continues(&with_player, old(self), plan_player, plan_client);
            self.lemma_continues(&with_client, old(self), plan_player + plan_client, plan_cycle);
            self.lemma_continues_follows(old(self), plan_player + plan_client + plan_cycle);
        }
        client_handle
    }

    /// Since `before`, sends were only added and clients only marked.
    pub open spec fn follows(&self, before: &ServerGame) -> bool {
        &&& before.sent().is_prefix_of(self.sent())
        &&& before.failed().is_prefix_of(self.failed())
    }

    /// Where exactly a plan was carried out, sends were only added.
    pub proof fn lemma_continues_follows(&self, before: &ServerGame, plan: Seq<Attempt>)
        requires
            self.continues(before, plan),
        ensures
            self.follows(before),
    {
    }

    /// What follows what follows `before`, follows `before`.
    pub proof fn lemma_follows_trans(&self, middle: &ServerGame, before: &ServerGame)
        requires
            middle.follows(before),
            self.follows(middle),
        ensures
            self.follows(before),
    {
    }

    /// Accepts the connections that are waiting: asks the listener for one
    /// connection after the other and takes each in as `accept_connection`
    /// says, until the listener has nobody waiting, or is broken, or the
    /// registry is full. Fails if and only if the listener says that it is
    /// broken. Nobody leaves the game here, and no client is asked for
    /// anything.
    pub fn accept_new_connections<S: Scene>(&mut self, scene: &mut S) -> (result: Result<(), AcceptError>)
        requires
            old(self).wf(),
        ensures
            final(self).wf(),
            result is Err ==> result == Err::<(), AcceptError>(AcceptError::Fatal),
            final(self).follows(old(self)),
            old(self).registry().grown_to(final(self).registry()),
            old(self).players().grown_to(final(self).players()),
            old(self).cycles().grown_to(final(self).cycles()),
            exists|steps: Seq<ServerGame>| #[trigger]
                final(self).accepted_from(old(self), result, steps),
    {
        let ghost mut steps: Seq<ServerGame> = seq![*self];
        let ghost connection_knock = |i: int| Knock::Connection;
        proof {
            assert(self.knocks() =~= old(self).knocks() + Seq::new(0, connection_knock));
        }
        while self.can_accept()
            invariant
                self.wf(),
                self.follows(old(self)),
                old(self).registry().grown_to(self.registry()),
                old(self).players().grown_to(self.players()),
                old(self).cycles().grown_to(self.cycles()),
                connection_knock == (|i: int| Knock::Connection),
                steps.len() >= 1,
                steps[0] == *old(self),
                steps.last() == *self,
                forall|i: int| 0 <= i < steps.len() - 1 ==> #[trigger] Self::linked(steps, i),
                self.heard() == old(self).heard(),
                self.knocks() == old(self).knocks() + Seq::new(
                    (steps.len() - 1) as nat,
                    connection_knock,
                ),
            decreases self.registry().room(),
        {
            let ghost before = *self;
            let ghost taken = steps.len() - 1;
            match self.listener.accept() {
                Ok(connection) => {
                    proof {
                        self.knocks@ = self.knocks@.push(Knock::Connection);
                    }
                    let ghost asked = *self;
                    self.accept_connection(scene, connection);
                    proof {
                        assert(self.took_in(&asked));
                        assert(self.took_in(&before));
                        let longer = steps.push(*self);
                        assert forall|i: int| 0 <= i < longer.len() - 1 implies #[trigger] Self::linked(
                            longer,
                            i,
                        ) by {
                            if i < steps.len() - 1 {
                                assert(Self::linked(steps, i));
                                assert(longer[i] == steps[i]);
                                assert(longer[i + 1] == steps[i + 1]);
                            } else {
                                assert(longer[i] == before);
                                assert(longer[i + 1] == *self);
                            }
                        }
                        assert(self.knocks() =~= old(self).knocks() + Seq::new(
                            (longer.len() - 1) as nat,
                            connection_knock,
                        ));
                        steps = longer;
                        let player_handle = before.players().next_handle();
                        let cycle_handle = before.cycles().next_handle();
                        let joined = before.players().spawn(Player::spec_new(None));
                        self.lemma_follows_trans(&before, old(self));
                        before.registry().lemma_spawn_grows(player_handle);
                        before.registry().lemma_spawn_room(player_handle);
                        old(self).registry().lemma_grown_trans(before.registry(), self.registry());
                        before.players().lemma_spawn_grows(Player::spec_new(None));
                        before.players().lemma_spawn(Player::spec_new(None));
                        joined.lemma_replace(player_handle, Player::spec_new(Some(cycle_handle)));
                        assert(before.players().grown_to(self.players())) by {
                            assert forall|h: Handle| #[trigger]
                                before.players().is_live(h) implies self.players().is_live(h)
                                && self.players().entries()[h] == before.players().entries()[h] by {
                                assert(joined.is_live(h));
                                assert(joined.entries().dom().contains(h));
                                assert(self.players().entries().dom().contains(h));
                            }
                            assert forall|h: Handle| #[trigger]
                                before.players().is_stale(h) implies self.players().is_stale(h) by {
                                assert(joined.is_stale(h));
                            }
                        }
                        old(self).players().lemma_grown_trans(before.players(), self.players());
                        before.cycles().lemma_spawn_grows(self.cycles().entries()[cycle_handle]);
                        old(self).cycles().lemma_grown_trans(before.cycles(), self.cycles());
                    }
                },
                Err(AcceptError::WouldBlock) => {
                    proof {
                        self.knocks@ = self.knocks@.push(Knock::WouldBlock);
                        let news = self.knocks().skip(old(self).knocks().len() as int);
                        assert(news =~= Seq::new(taken as nat, connection_knock).push(
                            Knock::WouldBlock,
                        ));
                        assert(self.accepted_from(old(self), Ok(()), steps));
                    }
                    return Ok(());
                },
                Err(AcceptError::Fatal) => {
                    proof {
                        self.knocks@ = self.knocks@.push(Knock::Fatal);
                        let news = self.knocks().skip(old(self).knocks().len() as int);
                        assert(news =~= Seq::new(taken as nat, connection_knock).push(Knock::Fatal));
                        assert(self.accepted_from(old(self), Err(AcceptError::Fatal), steps));
                    }
                    return Err(AcceptError::Fatal);
                },
            }
        }
        proof {
            let news = self.knocks().skip(old(self).knocks().len() as int);
            assert(news =~= Seq::new((steps.len() - 1) as nat, connection_knock));
            assert(self.accepted_from(old(self), Ok(()), steps));
        }
        Ok(())
    }

    /// Takes in what one client has sent. Each message changes the client's
    /// player as `apply_message` says, and what everybody is to be told
    /// about it is added to `messages_to_all`. If the stream is closed the
    /// client is marked; its messages count all the same. Messages from a
    /// client that is not in the registry are ignored.
    pub fn receive_messages(
        &mut self,
        client_handle: Handle,
        messages: &Vec<ClientMessage>,
        closed: bool,
        messages_to_all: &mut Vec<ServerMessage>,
    )
        requires
            old(self).wf(),
        ensures
            final(self).wf(),
            final(self).quiet_since(old(self)),
            final(self).registry() == old(self).registry(),
            final(self).cycles() == old(self).cycles(),
            final(self).sent() == old(self).sent(),
            !old(self).registry().is_live(client_handle) ==> {
                &&& final(self).players() == old(self).players()
                &&& final(self).failed() == old(self).failed()
                &&& final(messages_to_all)@ == old(messages_to_all)@
            },
            old(self).registry().is_live(client_handle) ==> {
                let player_handle = old(self).registry().entries()[client_handle];
                &&& final(self).players() == old(self).players().replace(
                    player_handle,
                    apply_messages(
                        old(self).players().entries()[player_handle],
                        client_views(messages@),
                    ),
                )
                &&& final(self).failed() == (if closed {
                    old(self).failed().push(client_handle)
                } else {
                    old(self).failed()
                })
                &&& server_views(final(messages_to_all)@) == server_views(old(messages_to_all)@)
                    + broadcasts_for(player_handle.index, client_views(messages@))
            },
    {
        if !self.clients.is_valid_handle(client_handle) {
            return ;
        }
        let player_handle = self.clients.player_handle(client_handle);
        let ghost views = client_views(messages@);
        let ghost player = old(self).players().entries()[player_handle];
        proof {
            assert(self.registry().is_live(client_handle));
            assert(player_handle == self.registry().entries()[client_handle]);
            assert(self.players().is_live(player_handle));
            old(self).players().lemma_replace(player_handle, player);
            assert(old(self).players().replace(player_handle, player).slots =~= old(self).players().slots);
            assert(server_views(messages_to_all@) + Seq::<ServerMessageView>::empty() =~= server_views(
                messages_to_all@,
            ));
        }
        let mut i: usize = 0;
        while i < messages.len()
            invariant
                i <= messages@.len(),
                views == client_views(messages@),
                player == old(self).players().entries()[player_handle],
                old(self).wf(),
                old(self).players().is_live(player_handle),
                self.wf(),
                self.quiet_since(old(self)),
                self.registry() == old(self).registry(),
                self.cycles() == old(self).cycles(),
                self.sent() == old(self).sent(),
                self.failed() == old(self).failed(),
                self.players() == old(self).players().replace(
                    player_handle,
                    apply_messages(player, views.take(i as int)),
                ),
                server_views(messages_to_all@) == server_views(old(messages_to_all)@)
                    + broadcasts_for(player_handle.index, views.take(i as int)),
            decreases messages@.len() - i,
        {
            let ghost now = apply_messages(player, views.take(i as int));
            let ghost queue = messages_to_all@;
            proof {
                old(self).players().lemma_replace(player_handle, now);
                assert(views.take(i + 1).drop_last() =~= views.take(i as int));
                assert(views.take(i + 1).last() == messages@[i as int]@);
            }
            match &messages[i] {
                ClientMessage::Input(input) => {
                    self.gs.set_input(player_handle, *input);
                },
                ClientMessage::Chat(_) => {
                    proof {
                        self.players().lemma_replace(player_handle, now);
                    }
                },
                ClientMessage::Join => {
                    self.gs.set_state(player_handle, PlayerState::Playing);
                    messages_to_all.push(ServerMessage::Join { player_index: player_handle.index() });
                },
                ClientMessage::Observe => {
                    self.gs.set_state(player_handle, PlayerState::Observing);
                    messages_to_all.push(ServerMessage::Observe { player_index: player_handle.index() });
                },
            }
            proof {
                let next = apply_messages(player, views.take(i + 1));
                assert(self.players().slots =~= old(self).players().replace(player_handle, next).slots);
                let told = broadcast_for(player_handle.index, messages@[i as int]@);
                assert(server_views(messages_to_all@) =~= server_views(queue) + told);
                assert(server_views(messages_to_all@) =~= server_views(old(messages_to_all)@)
                    + broadcasts_for(player_handle.index, views.take(i + 1)));
                old(self).players().lemma_replace(player_handle, next);
                assert forall|c: Handle| #[trigger] self.registry().is_live(c) implies self.players().is_live(
                    self.registry().entries()[c],
                ) by {
                    assert(old(self).players().is_live(old(self).registry().entries()[c]));
                    assert(old(self).players().entries().dom().contains(old(self).registry().entries()[c]));
                    assert(self.players().entries().dom().contains(old(self).registry().entries()[c]));
                }
            }
            i = i + 1;
        }
        assert(views.take(i as int) =~= views);
        if closed {
            self.failed.push(client_handle);
        }
    }

    /// Sends each of the messages to every client, one message after the
    /// other.
    pub fn broadcast_all(&mut self, messages: &Vec<ServerMessage>)
        requires
            old(self).wf(),
        ensures
            final(self).wf(),
            final(self).quiet_since(old(self)),
            final(self).registry() == old(self).registry(),
            final(self).game_state() == old(self).game_state(),
            final(self).continues(
                old(self),
                fan_out_all(old(self).registry().live_handles(), server_views(messages@)),
            ),
    {
        let ghost targets = self.registry().live_handles();
        let ghost views = server_views(messages@);
        proof {
            self.lemma_continues_nothing(old(self));
        }
        let mut i: usize = 0;
        while i < messages.len()
            invariant
                i <= messages@.len(),
                targets == old(self).registry().live_handles(),
                views == server_views(messages@),
                self.wf(),
                self.quiet_since(old(self)),
                self.registry() == old(self).registry(),
                self.game_state() == old(self).game_state(),
                self.continues(old(self), fan_out_all(targets, views.take(i as int))),
            decreases messages@.len() - i,
        {
            let ghost middle = *self;
            self.send_message(&messages[i], SendDest::All);
            proof {
                assert(views.take(i + 1).drop_last() =~= views.take(i as int));
                assert(views.take(i + 1).last() == messages@[i as int]@);
                self.lemma_continues(
                    &middle,
                    old(self),
                    fan_out_all(targets, views.take(i as int)),
                    fan_out(targets, messages@[i as int]@),
                );
            }
            i = i + 1;
        }
        assert(views.take(i as int) =~= views);
    }

    /// `self` is what `sys_receive` makes of `before`: every client of the
    /// registry was asked once, in the order of the registry, for what had
    /// arrived; the players changed as `apply_batches` says of what the
    /// clients gave; every client whose stream was closed was marked; then
    /// everybody was told what `queued` says, message by message, and
    /// whoever could not be told was marked too. Nobody came or left, and
    /// the listener was not asked.
    pub open spec fn received_from(&self, before: &ServerGame) -> bool {
        let targets = before.registry().live_handles();
        let batches = self.heard().skip(before.heard().len() as int);
        let news = self.sent().skip(before.sent().len() as int);
        &&& self.knocks() == before.knocks()
        &&& before.heard().len() <= self.heard().len()
        &&& self.heard() == before.heard() + batches
        &&& batches.len() == targets.len()
        &&& forall|i: int| 0 <= i < batches.len() ==> (#[trigger] batches[i]).client == targets[i]
        &&& self.registry() == before.registry()
        &&& self.cycles() == before.cycles()
        &&& self.players() == apply_batches(before.players(), before.registry(), batches)
        &&& before.sent().len() <= self.sent().len()
        &&& self.sent() == before.sent() + news
        &&& attempts(news) == fan_out_all(targets, queued(before.registry(), batches))
        &&& self.failed() == before.failed() + closed_clients(before.registry(), batches)
            + failures(news)
    }

    /// Takes in what every client has sent, in the order of the registry,
    /// and then tells everybody who has joined and who observes now. A
    /// client whose stream is closed is marked and stays in the registry
    /// until the next prune; what it sent before counts.
    pub fn sys_receive(&mut self)
        requires
            old(self).wf(),
        ensures
            final(self).wf(),
            final(self).received_from(old(self)),
            final(self).follows(old(self)),
            final(self).registry() == old(self).registry(),
            final(self).cycles() == old(self).cycles(),
            final(self).players().map_payloads(|player: Player| player.cycle_handle)
                == old(self).players().map_payloads(|player: Player| player.cycle_handle),
            exists|queue: Seq<ServerMessageView>|
                {
                    &&& forall|k: int| 0 <= k < queue.len() ==> is_transition(#[trigger] queue[k])
                    &&& attempts(final(self).sent().skip(old(self).sent().len() as int))
                        == fan_out_all(old(self).registry().live_handles(), queue)
                },
    {
        let ghost shape = |player: Player| player.cycle_handle;
        let handles = self.clients.handles();
        let mut messages_to_all: Vec<ServerMessage> = Vec::new();
        let mut i: usize = 0;
        let ghost mut batches: Seq<Batch> = Seq::empty();
        proof {
            assert(self.heard() =~= old(self).heard() + batches);
            assert(self.failed() =~= old(self).failed() + closed_clients(
                old(self).registry(),
                batches,
            ));
            assert(server_views(messages_to_all@) =~= queued(old(self).registry(), batches));
        }
        while i < handles.len()
            invariant
                i <= handles@.len(),
                shape == (|player: Player| player.cycle_handle),
                handles@ == old(self).registry().live_handles(),
                self.wf(),
                old(self).wf(),
                self.knocks() == old(self).knocks(),
                self.heard() == old(self).heard() + batches,
                batches.len() == i,
                forall|j: int| 0 <= j < i ==> (#[trigger] batches[j]).client == handles@[j],
                self.players() == apply_batches(old(self).players(), old(self).registry(), batches),
                server_views(messages_to_all@) == queued(old(self).registry(), batches),
                self.failed() == old(self).failed() + closed_clients(old(self).registry(), batches),
                self.registry() == old(self).registry(),
                self.cycles() == old(self).cycles(),
                self.sent() == old(self).sent(),
                old(self).failed().is_prefix_of(self.failed()),
                self.players().map_payloads(shape) == old(self).players().map_payloads(shape),
                forall|k: int|
                    0 <= k < messages_to_all@.len() ==> is_transition(
                        #[trigger] server_views(messages_to_all@)[k],
                    ),
            decreases handles@.len() - i,
        {
            let client_handle = handles[i];
            proof {
                self.registry().lemma_live_handles();
                assert(handles@.contains(handles@[i as int]));
            }
            let ghost head = *self;
            let (messages, closed) = self.clients.receive(client_handle);
            let ghost queue = server_views(messages_to_all@);
            let ghost middle = *self;
            self.receive_messages(client_handle, &messages, closed, &mut messages_to_all);
            proof {
                let batch = Batch {
                    client: client_handle,
                    messages: client_views(messages@),
                    closed,
                };
                let longer = batches.push(batch);
                assert(longer.drop_last() =~= batches);
                assert(longer.last() == batch);
                assert(old(self).registry().is_live(client_handle));
                assert(middle.heard() == head.heard().push(batch));
                assert(self.heard() =~= old(self).heard() + longer);
                assert(middle.players() == head.players());
                assert(self.players() == apply_batches(
                    old(self).players(),
                    old(self).registry(),
                    longer,
                ));
                assert(server_views(messages_to_all@) =~= queued(old(self).registry(), longer));
                assert(middle.failed() == head.failed());
                assert(self.failed() =~= old(self).failed() + closed_clients(
                    old(self).registry(),
                    longer,
                ));
                assert forall|j: int| 0 <= j < i + 1 implies (#[trigger] longer[j]).client
                    == handles@[j] by {
                    if j < i {
                        assert(longer[j] == batches[j]);
                    }
                }
                batches = longer;
                let player_handle = self.registry().entries()[client_handle];
                let player = middle.players().entries()[player_handle];
                let now = apply_messages(player, client_views(messages@));
                Self::lemma_apply_keeps_cycle(player, client_views(messages@));
                assert(middle.players().is_live(player_handle));
                middle.players().lemma_map_replace(shape, player_handle, now);
                lemma_broadcasts_are_transitions(player_handle.index, client_views(messages@));
                let told = broadcasts_for(player_handle.index, client_views(messages@));
                assert(middle.registry().is_live(client_handle));
                assert(server_views(messages_to_all@) == queue + told);
                assert(server_views(messages_to_all@).len() == messages_to_all@.len());
                assert forall|k: int| 0 <= k < messages_to_all@.len() implies is_transition(
                    #[trigger] server_views(messages_to_all@)[k],
                ) by {
                    if k < queue.len() {
                        assert(server_views(messages_to_all@)[k] == queue[k]);
                    } else {
                        assert(server_views(messages_to_all@)[k] == told[k - queue.len()]);
                    }
                }
            }
            i = i + 1;
        }
        let ghost scanned = *self;
        self.broadcast_all(&messages_to_all);
        proof {
            let plan = fan_out_all(old(self).registry().live_handles(), server_views(messages_to_all@));
            self.lemma_continues_follows(&scanned, plan);
            assert(self.follows(old(self)));
            assert(self.sent().skip(old(self).sent().len() as int) == self.sent().skip(
                scanned.sent().len() as int,
            ));
            let news = self.sent().skip(old(self).sent().len() as int);
            assert(self.heard().skip(old(self).heard().len() as int) =~= batches);
            assert(self.players() == scanned.players());
            assert(self.failed() =~= old(self).failed() + closed_clients(
                old(self).registry(),
                batches,
            ) + failures(news));
            assert(self.received_from(old(self)));
        }
    }

    /// Messages from a client never change which cycle the player rides.
    pub proof fn lemma_apply_keeps_cycle(player: Player, messages: Seq<ClientMessageView>)
        ensures
            apply_messages(player, messages).cycle_handle == player.cycle_handle,
        decreases messages.len(),
    {
        if messages.len() > 0 {
            Self::lemma_apply_keeps_cycle(player, messages.drop_last());
        }
    }

    /// `self` is what `tick_begin_frame` makes of `before` with this
    /// result: first the connections that were waiting were accepted, as
    /// `accepted_from` says, which gave the server `middle`; then, unless
    /// the listener was broken, what the clients had sent was taken in, as
    /// `received_from` says. If the listener was broken nothing more was
    /// done.
    pub open spec fn began_frame(
        &self,
        before: &ServerGame,
        result: Result<(), AcceptError>,
        middle: ServerGame,
        steps: Seq<ServerGame>,
    ) -> bool {
        &&& middle.wf()
        &&& middle.accepted_from(before, result, steps)
        &&& match result {
            Ok(()) => self.received_from(&middle),
            Err(_) => self.same_game(&middle) && self.quiet_since(&middle),
        }
    }

    /// The first half of a tick: accept the connections that are waiting,
    /// then take in what the clients have sent. Fails if and only if the
    /// listener says that it is broken, and then before anything is
    /// received.
    pub fn tick_begin_frame<S: Scene>(&mut self, scene: &mut S) -> (result: Result<(), AcceptError>)
        requires
            old(self).wf(),
        ensures
            final(self).wf(),
            exists|middle: ServerGame, steps: Seq<ServerGame>| #[trigger]
                final(self).began_frame(old(self), result, middle, steps),
            result is Err ==> result == Err::<(), AcceptError>(AcceptError::Fatal),
            final(self).follows(old(self)),
            old(self).registry().grown_to(final(self).registry()),
            old(self).cycles().grown_to(final(self).cycles()),
            forall|h: Handle| #[trigger]
                old(self).players().is_live(h) ==> final(self).players().is_live(h)
                    && final(self).players().entries()[h].cycle_handle == old(
                    self,
                ).players().entries()[h].cycle_handle,
            forall|h: Handle| #[trigger]
                old(self).players().is_stale(h) ==> final(self).players().is_stale(h),
    {
        let ghost shape = |player: Player| player.cycle_handle;
        let outcome = self.accept_new_connections(scene);
        let ghost accepted = *self;
        let ghost steps = choose|steps: Seq<ServerGame>|
            accepted.accepted_from(old(self), outcome, steps);
        match outcome {
            Ok(()) => {},
            Err(e) => {
                proof {
                    assert(self.began_frame(old(self), Err(e), accepted, steps));
                }
                return Err(e);
            },
        }
        self.sys_receive();
        proof {
            assert(self.began_frame(old(self), Ok(()), accepted, steps));
            self.lemma_follows_trans(&accepted, old(self));
            accepted.players().lemma_map_payloads(shape);
            self.players().lemma_map_payloads(shape);
            assert forall|h: Handle| #[trigger] old(self).players().is_live(h) implies self.players().is_live(h)
                && self.players().entries()[h].cycle_handle == old(self).players().entries()[h].cycle_handle by {
                assert(accepted.players().is_live(h));
                assert(accepted.players().map_payloads(shape).is_live(h));
                assert(self.players().map_payloads(shape).is_live(h));
                assert(self.players().map_payloads(shape).entries()[h] == shape(
                    self.players().entries()[h],
                ));
                assert(accepted.players().map_payloads(shape).entries()[h] == shape(
                    accepted.players().entries()[h],
                ));
            }
            assert forall|h: Handle| #[trigger] old(self).players().is_stale(h) implies self.players().is_stale(h) by {
                assert(accepted.players().is_stale(h));
                assert(accepted.players().map_payloads(shape).is_stale(h));
                assert(self.players().map_payloads(shape).is_stale(h));
            }
        }
        Ok(())
    }

    /// `cycle_physics` has one entry for each cycle, in the order of the
    /// cycles' arena, under the cycle's index.
    pub open spec fn is_snapshot(&self, cycle_physics: Seq<CyclePhysics>) -> bool {
        &&& cycle_physics.len() == self.cycles().live_handles().len()
        &&& forall|i: int|
            0 <= i < cycle_physics.len() ==> (#[trigger] cycle_physics[i]).cycle_index
                == self.cycles().live_handles()[i].index
    }

    /// Reads every cycle's physics from the scene.
    pub fn snapshot_physics<S: Scene>(&self, scene: &S) -> (cycle_physics: Vec<CyclePhysics>)
        requires
            self.wf(),
        ensures
            self.is_snapshot(cycle_physics@),
    {
        let cycles = self.gs.cycles_arena();
        let cycle_handles = cycles.handles();
        let mut cycle_physics: Vec<CyclePhysics> = Vec::new();
        let mut i: usize = 0;
        proof {
            cycles@.lemma_live_handles();
        }
        while i < cycle_handles.len()
            invariant
                i <= cycle_handles@.len(),
                cycle_handles@ == cycles@.live_handles(),
                forall|h: Handle| cycles@.live_handles().contains(h) <==> cycles@.is_live(h),
                cycle_physics@.len() == i,
                forall|k: int|
                    0 <= k < i ==> (#[trigger] cycle_physics@[k]).cycle_index == cycle_handles@[k].index,
            decreases cycle_handles@.len() - i,
        {
            let cycle_handle = cycle_handles[i];
            assert(cycle_handles@.contains(cycle_handles@[i as int]));
            let cycle = cycles.borrow(cycle_handle);
            let body = scene.cycle_body_physics(cycle.body);
            cycle_physics.push(
                CyclePhysics {
                    cycle_index: cycle_handle.index(),
                    translation: body.translation,
                    rotation: body.rotation,
                    velocity: body.velocity,
                },
            );
            i = i + 1;
        }
        cycle_physics
    }

    /// The update that goes out after a tick: the physics of the cycles, and
    /// the debug texts and shapes gathered since the last one.
    pub open spec fn update(
        cycle_physics: Seq<CyclePhysics>,
        debug_texts: Seq<String>,
        debug_shapes: Seq<DebugShape>,
    ) -> ServerMessageView {
        ServerMessageView::Update {
            update_physics: cycle_physics,
            debug_texts: texts_view(debug_texts),
            debug_shapes,
        }
    }

    /// Sends every client one update with the given physics and with the
    /// debug texts and shapes gathered so far, and empties both: what is
    /// gathered later goes out with the next update.
    pub fn send_update(&mut self, cycle_physics: Vec<CyclePhysics>, debug: &mut DebugContext)
        requires
            old(self).wf(),
        ensures
            final(self).wf(),
            final(self).registry() == old(self).registry(),
            final(self).game_state() == old(self).game_state(),
            final(debug).texts@ == Seq::<String>::empty(),
            final(debug).shapes@ == Seq::<DebugShape>::empty(),
            final(debug).log == old(debug).log,
            final(debug).name == old(debug).name,
            final(debug).default_color == old(debug).default_color,
            final(self).continues(
                old(self),
                fan_out(
                    old(self).registry().live_handles(),
                    Self::update(cycle_physics@, old(debug).texts@, old(debug).shapes@),
                ),
            ),
    {
        let mut debug_texts: Vec<String> = Vec::new();
        core::mem::swap(&mut debug_texts, &mut debug.texts);
        let mut debug_shapes: Vec<DebugShape> = Vec::new();
        core::mem::swap(&mut debug_shapes, &mut debug.shapes);
        let message = ServerMessage::Update {
            update_physics: UpdatePhysics { cycle_physics },
            debug_texts,
            debug_shapes,
        };
        self.send_message(&message, SendDest::All);
    }

    /// Reads the physics of the cycles from the scene and sends every
    /// client the update.
    pub fn sys_send_update<S: Scene>(&mut self, scene: &S, debug: &mut DebugContext)
        requires
            old(self).wf(),
        ensures
            final(self).wf(),
            final(self).registry() == old(self).registry(),
            final(self).game_state() == old(self).game_state(),
            final(debug).texts@ == Seq::<String>::empty(),
            final(debug).shapes@ == Seq::<DebugShape>::empty(),
            final(debug).log == old(debug).log,
            final(debug).name == old(debug).name,
            final(debug).default_color == old(debug).default_color,
            exists|cycle_physics: Seq<CyclePhysics>|
                {
                    &&& old(self).is_snapshot(cycle_physics)
                    &&& #[trigger] final(self).continues(
                        old(self),
                        fan_out(
                            old(self).registry().live_handles(),
                            Self::update(cycle_physics, old(debug).texts@, old(debug).shapes@),
                        ),
                    )
                },
    {
        let cycle_physics = self.snapshot_physics(scene);
        let ghost snapshot = cycle_physics@;
        self.send_update(cycle_physics, debug);
        assert(self.continues(
            old(self),
            fan_out(
                old(self).registry().live_handles(),
                Self::update(snapshot, old(debug).texts@, old(debug).shapes@),
            ),
        ));
    }

    /// The client `r` was in the registry at `before` and is not now.
    pub open spec fn left(&self, before: &ServerGame, r: Handle) -> bool {
        before.registry().is_live(r) && !self.registry().is_live(r)
    }

    /// The player that `r` controlled at `before` and the cycle they rode
    /// are not in the game now.
    pub open spec fn took_along(&self, before: &ServerGame, r: Handle) -> bool {
        let player_handle = before.registry().entries()[r];
        &&& !self.players().is_live(player_handle)
        &&& match before.players().entries()[player_handle].cycle_handle {
            Some(c) => !self.cycles().is_live(c),
            None => true,
        }
    }

    /// The message tells that the player of a client that has left since
    /// `before` is gone.
    pub open spec fn tells_of_leaver(&self, before: &ServerGame, message: ServerMessageView) -> bool {
        exists|r: Handle| #[trigger]
            self.left(before, r) && message == gone(before.registry().entries()[r].index)
    }

    /// Since `before` nobody has come: who is there was there and is
    /// unchanged, and who has left took their player and its cycle along.
    pub open spec fn shrunk_from(&self, before: &ServerGame) -> bool {
        &&& forall|h: Handle| #[trigger]
            self.registry().is_live(h) ==> before.registry().is_live(h)
                && self.registry().entries()[h] == before.registry().entries()[h]
        &&& forall|h: Handle| #[trigger]
            before.registry().is_stale(h) ==> self.registry().is_stale(h)
        &&& forall|p: Handle| #[trigger]
            self.players().is_live(p) ==> before.players().is_live(p)
                && self.players().entries()[p] == before.players().entries()[p]
        &&& forall|c: Handle| #[trigger]
            self.cycles().is_live(c) ==> before.cycles().is_live(c) && self.cycles().entries()[c]
                == before.cycles().entries()[c]
        &&& forall|r: Handle| #[trigger] self.left(before, r) ==> self.took_along(before, r)
    }

    /// What has been sent since `before` tells of the clients that have
    /// left since, and of nothing else: every client that is still there
    /// was told once of each that left.
    pub open spec fn told_of_leavers(&self, before: &ServerGame) -> bool {
        let news = self.sent().skip(before.sent().len() as int);
        &&& before.sent().is_prefix_of(self.sent())
        &&& forall|k: int|
            0 <= k < news.len() ==> self.tells_of_leaver(before, (#[trigger] news[k]).message)
        &&& forall|r: Handle, s: Handle|
            #![trigger self.left(before, r), self.registry().is_live(s)]
            self.left(before, r) && self.registry().is_live(s) ==> told(
                news,
                s,
                gone(before.registry().entries()[r].index),
            ) == 1
    }

    /// A prune that began at `before` has dealt with the first `done` marks.
    pub open spec fn pruning(&self, before: &ServerGame, done: int) -> bool {
        let news = self.sent().skip(before.sent().len() as int);
        &&& self.wf()
        &&& before.sent().is_prefix_of(self.sent())
        &&& self.failed() == before.failed() + failures(news)
        &&& 0 <= done <= self.failed().len()
        &&& forall|k: int| 0 <= k < done ==> !self.registry().is_live(#[trigger] self.failed()[k])
        &&& forall|h: Handle| #[trigger]
            self.left(before, h) ==> exists|k: int| 0 <= k < done && self.failed()[k] == h
        &&& self.shrunk_from(before)
        &&& self.told_of_leavers(before)
    }

    /// Two clients control players with different indices.
    proof fn lemma_players_apart(&self, c: Handle, d: Handle)
        requires
            self.wf(),
            self.registry().is_live(c),
            self.registry().is_live(d),
            c != d,
        ensures
            self.registry().entries()[c].index != self.registry().entries()[d].index,
    {
        assert(self.players().is_live(self.registry().entries()[c]));
        assert(self.players().is_live(self.registry().entries()[d]));
    }

    /// A mark whose client has left already changes nothing.
    proof fn lemma_prune_skip(&self, middle: &ServerGame, before: &ServerGame, done: int)
        requires
            middle.pruning(before, done),
            done < middle.failed().len(),
            !middle.registry().is_live(middle.failed()[done]),
            self.wf(),
            self.registry() == middle.registry(),
            self.game_state() == middle.game_state(),
            self.continues(middle, Seq::empty()),
        ensures
            self.pruning(before, done + 1),
            self.failed() == middle.failed(),
    {
        let news = self.sent().skip(middle.sent().len() as int);
        assert(attempts(news).len() == news.len());
        assert(self.sent() =~= middle.sent());
        assert(self.failed() =~= middle.failed());
        assert(self.players() == middle.players());
        assert(self.cycles() == middle.cycles());
        assert forall|k: int| 0 <= k < done + 1 implies !self.registry().is_live(
            #[trigger] self.failed()[k],
        ) by {
            if k < done {
                assert(!middle.registry().is_live(middle.failed()[k]));
            }
        }
        assert forall|r: Handle| #[trigger] self.left(before, r) implies self.took_along(before, r) by {
            assert(middle.left(before, r));
            assert(middle.took_along(before, r));
        }
        assert(self.shrunk_from(before));
        assert forall|h: Handle| #[trigger] self.left(before, h) implies exists|k: int|
            0 <= k < done + 1 && self.failed()[k] == h by {
            assert(middle.left(before, h));
            let k = choose|k: int| 0 <= k < done && middle.failed()[k] == h;
            assert(self.failed()[k] == h);
        }
        let all = self.sent().skip(before.sent().len() as int);
        assert forall|k: int| 0 <= k < all.len() implies self.tells_of_leaver(
            before,
            (#[trigger] all[k]).message,
        ) by {
            assert(middle.tells_of_leaver(before, all[k].message));
            let r = choose|r: Handle| #[trigger]
                middle.left(before, r) && all[k].message == gone(
                    before.registry().entries()[r].index,
                );
            assert(self.left(before, r));
        }
        assert forall|r: Handle, s: Handle|
            #![trigger self.left(before, r), self.registry().is_live(s)]
            self.left(before, r) && self.registry().is_live(s) implies told(
            all,
            s,
            gone(before.registry().entries()[r].index),
        ) == 1 by {
            assert(middle.left(before, r));
            assert(middle.registry().is_live(s));
        }
        assert(self.told_of_leavers(before));
    }

    /// A mark whose client is still there makes it leave as `disconnect`
    /// says, and the rest is told.
    proof fn lemma_prune_step(&self, middle: &ServerGame, before: &ServerGame, done: int)
        requires
            before.wf(),
            middle.pruning(before, done),
            done < middle.failed().len(),
            middle.registry().is_live(middle.failed()[done]),
            self.wf(),
            ({
                let client_handle = middle.failed()[done];
                let player_handle = middle.registry().entries()[client_handle];
                &&& self.registry() == middle.registry().free(client_handle)
                &&& self.players() == middle.players().free(player_handle)
                &&& self.cycles() == (match middle.players().entries()[player_handle].cycle_handle {
                    Some(c) => middle.cycles().free(c),
                    None => middle.cycles(),
                })
                &&& self.continues(
                    middle,
                    fan_out(self.registry().live_handles(), gone(player_handle.index)),
                )
            }),
        ensures
            self.pruning(before, done + 1),
            self.registry().live_handles().len() < middle.registry().live_handles().len(),
    {
        let client_handle = middle.failed()[done];
        let player_handle = middle.registry().entries()[client_handle];
        let start = before.sent().len() as int;
        let earlier = middle.sent().skip(start);
        let news = self.sent().skip(middle.sent().len() as int);
        let all = self.sent().skip(start);
        let targets = self.registry().live_handles();
        let message = gone(player_handle.index);
        middle.registry().lemma_free(client_handle);
        middle.registry().lemma_live_count(client_handle, client_handle);
        middle.players().lemma_free(player_handle);
        self.registry().lemma_live_handles();
        assert(all =~= earlier + news);
        lemma_failures_add(earlier, news);
        assert(self.failed() =~= before.failed() + failures(all));
        assert(before.registry().is_live(client_handle));
        assert(before.registry().entries()[client_handle] == player_handle);
        assert(middle.players().is_live(player_handle));
        assert(before.players().entries()[player_handle] == middle.players().entries()[player_handle]);

        // Who is there was there.
        assert forall|h: Handle| #[trigger] self.registry().is_live(h) implies middle.registry().is_live(h)
            && self.registry().entries()[h] == middle.registry().entries()[h] by {
            assert(self.registry().entries().dom().contains(h));
            assert(middle.registry().entries().dom().contains(h));
        }
        assert forall|p: Handle| #[trigger] self.players().is_live(p) implies middle.players().is_live(p)
            && self.players().entries()[p] == middle.players().entries()[p] by {
            assert(self.players().entries().dom().contains(p));
            assert(middle.players().entries().dom().contains(p));
        }
        assert forall|c: Handle| #[trigger] self.cycles().is_live(c) implies middle.cycles().is_live(c)
            && self.cycles().entries()[c] == middle.cycles().entries()[c] by {
            match middle.players().entries()[player_handle].cycle_handle {
                Some(y) => {
                    middle.cycles().lemma_free(y);
                    assert(self.cycles().entries().dom().contains(c));
                    assert(middle.cycles().entries().dom().contains(c));
                },
                None => {},
            }
        }
        assert forall|k: int| 0 <= k < done + 1 implies !self.registry().is_live(
            #[trigger] self.failed()[k],
        ) by {
            assert(self.failed()[k] == middle.failed()[k]);
            if k < done {
                assert(!middle.registry().is_live(middle.failed()[k]));
            }
        }
        assert forall|r: Handle| #[trigger] self.left(before, r) implies self.took_along(before, r) by {
            if r == client_handle {
                match middle.players().entries()[player_handle].cycle_handle {
                    Some(y) => {
                        middle.cycles().lemma_free(y);
                    },
                    None => {},
                }
            } else {
                assert(self.registry().entries().dom().contains(r) == self.registry().is_live(r));
                assert(middle.registry().entries().dom().contains(r) == middle.registry().is_live(
                    r,
                ));
                assert(middle.left(before, r));
                assert(middle.took_along(before, r));
            }
        }
        assert forall|h: Handle| #[trigger] self.left(before, h) implies exists|k: int|
            0 <= k < done + 1 && self.failed()[k] == h by {
            if h == client_handle {
                assert(self.failed()[done] == h);
            } else {
                assert(self.registry().entries().dom().contains(h) == self.registry().is_live(h));
                assert(middle.registry().entries().dom().contains(h) == middle.registry().is_live(
                    h,
                ));
                assert(middle.left(before, h));
                let k = choose|k: int| 0 <= k < done && middle.failed()[k] == h;
                assert(self.failed()[k] == h);
            }
        }

        // What was sent tells of those who left.
        lemma_told_fan_out(news, targets, message, client_handle);
        assert(self.left(before, client_handle));
        assert forall|k: int| 0 <= k < all.len() implies self.tells_of_leaver(
            before,
            (#[trigger] all[k]).message,
        ) by {
            if k < earlier.len() {
                assert(all[k] == earlier[k]);
                assert(middle.tells_of_leaver(before, earlier[k].message));
                let r = choose|r: Handle| #[trigger]
                    middle.left(before, r) && earlier[k].message == gone(
                        before.registry().entries()[r].index,
                    );
                assert(self.registry().entries().dom().contains(r) == self.registry().is_live(r));
                assert(self.left(before, r));
            } else {
                assert(all[k] == news[k - earlier.len()]);
                assert(news[k - earlier.len()].message == message);
            }
        }
        assert forall|r: Handle, s: Handle|
            #![trigger self.left(before, r), self.registry().is_live(s)]
            self.left(before, r) && self.registry().is_live(s) implies told(
            all,
            s,
            gone(before.registry().entries()[r].index),
        ) == 1 by {
            let about = gone(before.registry().entries()[r].index);
            lemma_told_add(earlier, news, s, about);
            assert(middle.registry().is_live(s));
            assert(targets.contains(s));
            if r == client_handle {
                lemma_told_fan_out(news, targets, message, s);
                assert forall|k: int| 0 <= k < earlier.len() implies (#[trigger] earlier[k]).message
                    != about || earlier[k].client != s by {
                    assert(middle.tells_of_leaver(before, earlier[k].message));
                    let q = choose|q: Handle| #[trigger]
                        middle.left(before, q) && earlier[k].message == gone(
                            before.registry().entries()[q].index,
                        );
                    before.lemma_players_apart(q, client_handle);
                }
                lemma_told_none(earlier, s, about);
            } else {
                assert(self.registry().entries().dom().contains(r) == self.registry().is_live(r));
                assert(middle.registry().entries().dom().contains(r) == middle.registry().is_live(
                    r,
                ));
                assert(middle.left(before, r));
                before.lemma_players_apart(r, client_handle);
                assert forall|k: int| 0 <= k < news.len() implies (#[trigger] news[k]).message
                    != about || news[k].client != s by {
                    assert(news[k].message == message);
                }
                lemma_told_none(news, s, about);
            }
        }
    }

    /// The last step of a tick: every client that is marked leaves, in the
    /// order of the marks, as `disconnect` says: with its player and the
    /// cycle they ride, and with word to everybody who is still there. A
    /// client to whom the word cannot be sent is marked in turn and leaves
    /// in the same prune. Afterwards nobody is marked. Who is still there
    /// was never marked and was told once of each client that left; who
    /// has left was marked.
    pub fn prune<S: Scene>(&mut self, scene: &mut S)
        requires
            old(self).wf(),
        ensures
            final(self).wf(),
            final(self).failed() == Seq::<Handle>::empty(),
            final(self).shrunk_from(old(self)),
            final(self).told_of_leavers(old(self)),
            forall|h: Handle| #[trigger]
                final(self).registry().is_live(h) ==> {
                    &&& !old(self).failed().contains(h)
                    &&& !failures(final(self).sent().skip(old(self).sent().len() as int)).contains(h)
                },
            forall|h: Handle| #[trigger]
                final(self).left(old(self), h) ==> old(self).failed().contains(h) || failures(
                    final(self).sent().skip(old(self).sent().len() as int),
                ).contains(h),
    {
        let ghost start = old(self).sent().len() as int;
        let mut i: usize = 0;
        proof {
            assert(self.sent().skip(start) =~= Seq::<Delivery>::empty());
            assert(self.failed() =~= old(self).failed() + failures(self.sent().skip(start)));
        }
        while i < self.failed.len()
            invariant
                old(self).wf(),
                self.pruning(old(self), i as int),
            decreases self.registry().live_handles().len(), self.failed().len() - i,
        {
            let client_handle = self.failed[i];
            let ghost middle = *self;
            self.disconnect(scene, client_handle);
            proof {
                if middle.registry().is_live(client_handle) {
                    self.lemma_prune_step(&middle, old(self), i as int);
                } else {
                    self.lemma_prune_skip(&middle, old(self), i as int);
                }
            }
            i = i + 1;
        }
        proof {
            let news = self.sent().skip(start);
            assert forall|h: Handle| #[trigger] self.registry().is_live(h) implies !old(
                self,
            ).failed().contains(h) && !failures(news).contains(h) by {
                if old(self).failed().contains(h) {
                    let k = choose|k: int| 0 <= k < old(self).failed().len() && old(self).failed()[k] == h;
                    assert(self.failed()[k] == h);
                }
                if failures(news).contains(h) {
                    let k = choose|k: int| 0 <= k < failures(news).len() && failures(news)[k] == h;
                    assert(self.failed()[old(self).failed().len() + k] == h);
                }
            }
            assert forall|h: Handle| #[trigger] self.left(old(self), h) implies old(
                self,
            ).failed().contains(h) || failures(news).contains(h) by {
                let k = choose|k: int| 0 <= k < i && self.failed()[k] == h;
                if k < old(self).failed().len() {
                    assert(old(self).failed()[k] == h);
                } else {
                    assert(failures(news)[k - old(self).failed().len()] == h);
                }
            }
        }
        let ghost pruned = *self;
        self.failed.clear();
        proof {
            self.lemma_marks_aside(&pruned, old(self));
            assert forall|h: Handle| #[trigger] self.left(old(self), h) implies old(
                self,
            ).failed().contains(h) || failures(
                self.sent().skip(old(self).sent().len() as int),
            ).contains(h) by {
                assert(pruned.left(old(self), h));
            }
        }
    }

    /// The marks have no part in who is there and what was sent.
    proof fn lemma_marks_aside(&self, other: &ServerGame, before: &ServerGame)
        requires
            self.registry() == other.registry(),
            self.game_state() == other.game_state(),
            self.sent() == other.sent(),
            other.wf(),
            other.shrunk_from(before),
            other.told_of_leavers(before),
        ensures
            self.wf(),
            self.shrunk_from(before),
            self.told_of_leavers(before),
    {
        assert(self.players() == other.players());
        assert(self.cycles() == other.cycles());
        assert forall|r: Handle| #[trigger] self.left(before, r) implies self.took_along(before, r) by {
            assert(other.left(before, r));
            assert(other.took_along(before, r));
        }
        assert(self.shrunk_from(before));
        let news = self.sent().skip(before.sent().len() as int);
        assert forall|k: int| 0 <= k < news.len() implies self.tells_of_leaver(
            before,
            (#[trigger] news[k]).message,
        ) by {
            assert(other.tells_of_leaver(before, news[k].message));
            let r = choose|r: Handle| #[trigger]
                other.left(before, r) && news[k].message == gone(
                    before.registry().entries()[r].index,
                );
            assert(self.left(before, r));
        }
        assert forall|r: Handle, s: Handle|
            #![trigger self.left(before, r), self.registry().is_live(s)]
            self.left(before, r) && self.registry().is_live(s) implies told(
            news,
            s,
            gone(before.registry().entries()[r].index),
        ) == 1 by {
            assert(other.left(before, r));
            assert(other.registry().is_live(s));
        }
    }
}

} // verus!
