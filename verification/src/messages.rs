//! The messages that clients and the server exchange, and their mathematical
//! views.
//!
//! Positions, rotations and velocities are 32-bit floats held by their bit
//! patterns: the server passes them on and never computes with them.
use crate::debug::DebugShape;
use vstd::prelude::*;

verus! {

/// Three 32-bit floats, each by its bit pattern.
#[derive(Clone, Copy, PartialEq, Eq, Structural, Debug)]
pub struct Vec3 {
    pub x: u32,
    pub y: u32,
    pub z: u32,
}

/// A unit quaternion of four 32-bit floats, each by its bit pattern.
#[derive(Clone, Copy, PartialEq, Eq, Structural, Debug)]
pub struct Quaternion {
    pub i: u32,
    pub j: u32,
    pub k: u32,
    pub w: u32,
}

/// What a player is pressing, and where they look (two 32-bit floats by
/// their bit patterns).
#[derive(Clone, Copy, PartialEq, Eq, Structural, Debug)]
pub struct Input {
    pub forward: bool,
    pub backward: bool,
    pub left: bool,
    pub right: bool,
    pub brake: bool,
    pub yaw: u32,
    pub pitch: u32,
}

impl Input {
    /// Nothing pressed, looking straight ahead.
    pub open spec fn spec_idle() -> Input {
        Input {
            forward: false,
            backward: false,
            left: false,
            right: false,
            brake: false,
            yaw: 0,
            pitch: 0,
        }
    }

    #[verifier::when_used_as_spec(spec_idle)]
    pub fn idle() -> (input: Input)
        ensures
            input == Input::spec_idle(),
    {
        Input {
            forward: false,
            backward: false,
            left: false,
            right: false,
            brake: false,
            yaw: 0,
            pitch: 0,
        }
    }
}

/// A message from a client to the server.
#[derive(Clone, PartialEq, Eq, Debug)]
pub enum ClientMessage {
    Input(Input),
    Chat(String),
    Join,
    Observe,
}

pub enum ClientMessageView {
    Input(Input),
    Chat(Seq<char>),
    Join,
    Observe,
}

impl View for ClientMessage {
    type V = ClientMessageView;

    open spec fn view(&self) -> ClientMessageView {
        match *self {
            ClientMessage::Input(input) => ClientMessageView::Input(input),
            ClientMessage::Chat(text) => ClientMessageView::Chat(text@),
            ClientMessage::Join => ClientMessageView::Join,
            ClientMessage::Observe => ClientMessageView::Observe,
        }
    }
}

/// A player that has connected, for the clients that were there before.
#[derive(Clone, PartialEq, Eq, Debug)]
pub struct AddPlayer {
    pub name: String,
    pub player_index: u32,
}

pub struct AddPlayerView {
    pub name: Seq<char>,
    pub player_index: u32,
}

impl View for AddPlayer {
    type V = AddPlayerView;

    open spec fn view(&self) -> AddPlayerView {
        AddPlayerView { name: self.name@, player_index: self.player_index }
    }
}

/// A player and the cycle they ride.
#[derive(Clone, Copy, PartialEq, Eq, Structural, Debug)]
pub struct PlayerCycle {
    pub player_index: u32,
    pub cycle_index: u32,
}

/// A player and a projectile they fired.
#[derive(Clone, Copy, PartialEq, Eq, Structural, Debug)]
pub struct PlayerProjectile {
    pub player_index: u32,
    pub projectile_index: u32,
}

/// What a client that has just connected needs to know: who is there, which
/// of them it is, and who rides what.
#[derive(Clone, PartialEq, Eq, Debug)]
pub struct InitData {
    pub player_indices: Vec<u32>,
    pub local_player_index: u32,
    pub player_cycles: Vec<PlayerCycle>,
    pub player_projectiles: Vec<PlayerProjectile>,
}

pub struct InitDataView {
    pub player_indices: Seq<u32>,
    pub local_player_index: u32,
    pub player_cycles: Seq<PlayerCycle>,
    pub player_projectiles: Seq<PlayerProjectile>,
}

impl View for InitData {
    type V = InitDataView;

    open spec fn view(&self) -> InitDataView {
        InitDataView {
            player_indices: self.player_indices@,
            local_player_index: self.local_player_index,
            player_cycles: self.player_cycles@,
            player_projectiles: self.player_projectiles@,
        }
    }
}

/// Where one cycle is, how it is turned and how fast it moves.
#[derive(Clone, Copy, PartialEq, Eq, Structural, Debug)]
pub struct CyclePhysics {
    pub cycle_index: u32,
    pub translation: Vec3,
    pub rotation: Quaternion,
    pub velocity: Vec3,
}

/// The physics of every cycle after one tick.
#[derive(Clone, PartialEq, Eq, Debug)]
pub struct UpdatePhysics {
    pub cycle_physics: Vec<CyclePhysics>,
}

impl View for UpdatePhysics {
    type V = Seq<CyclePhysics>;

    open spec fn view(&self) -> Seq<CyclePhysics> {
        self.cycle_physics@
    }
}

/// The views of a vector of strings.
pub open spec fn texts_view(texts: Seq<String>) -> Seq<Seq<char>> {
    Seq::new(texts.len(), |i: int| texts[i]@)
}

/// The views of messages from clients.
pub open spec fn client_views(messages: Seq<ClientMessage>) -> Seq<ClientMessageView> {
    messages.map_values(|message: ClientMessage| message@)
}

/// A message from the server to a client.
#[derive(Clone, PartialEq, Eq, Debug)]
pub enum ServerMessage {
    AddPlayer(AddPlayer),
    InitData(InitData),
    SpawnCycle(PlayerCycle),
    Join { player_index: u32 },
    Observe { player_index: u32 },
    RemovePlayer { player_index: u32 },
    Update { update_physics: UpdatePhysics, debug_texts: Vec<String>, debug_shapes: Vec<DebugShape> },
}

pub enum ServerMessageView {
    AddPlayer(AddPlayerView),
    InitData(InitDataView),
    SpawnCycle(PlayerCycle),
    Join { player_index: u32 },
    Observe { player_index: u32 },
    RemovePlayer { player_index: u32 },
    Update {
        update_physics: Seq<CyclePhysics>,
        debug_texts: Seq<Seq<char>>,
        debug_shapes: Seq<DebugShape>,
    },
}

impl View for ServerMessage {
    type V = ServerMessageView;

    open spec fn view(&self) -> ServerMessageView {
        match *self {
            ServerMessage::AddPlayer(add_player) => ServerMessageView::AddPlayer(add_player@),
            ServerMessage::InitData(init_data) => ServerMessageView::InitData(init_data@),
            ServerMessage::SpawnCycle(player_cycle) => ServerMessageView::SpawnCycle(player_cycle),
            ServerMessage::Join { player_index } => ServerMessageView::Join { player_index },
            ServerMessage::Observe { player_index } => ServerMessageView::Observe { player_index },
            ServerMessage::RemovePlayer { player_index } => ServerMessageView::RemovePlayer {
                player_index,
            },
            ServerMessage::Update { update_physics, debug_texts, debug_shapes } => {
                ServerMessageView::Update {
                    update_physics: update_physics@,
                    debug_texts: texts_view(debug_texts@),
                    debug_shapes: debug_shapes@,
                }
            },
        }
    }
}

} // verus!
