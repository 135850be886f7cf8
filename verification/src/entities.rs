//! The players and the cycles they ride.
use crate::arena::Handle;
use crate::messages::Input;
use vstd::prelude::*;

verus! {

/// What a player is doing in the game.
#[derive(Clone, Copy, PartialEq, Eq, Structural, Debug)]
pub enum PlayerState {
    Connecting,
    Observing,
    Playing,
}

/// A player: their latest input, their state, and the cycle they ride.
#[derive(Clone, Copy, Debug)]
pub struct Player {
    pub input: Input,
    pub ps: PlayerState,
    pub cycle_handle: Option<Handle>,
}

impl Player {
    /// A player who has just connected: they watch until they join.
    pub open spec fn spec_new(cycle_handle: Option<Handle>) -> Player {
        Player { input: Input::spec_idle(), ps: PlayerState::Observing, cycle_handle }
    }

    #[verifier::when_used_as_spec(spec_new)]
    pub fn new(cycle_handle: Option<Handle>) -> (player: Player)
        ensures
            player == Player::spec_new(cycle_handle),
    {
        Player { input: Input::idle(), ps: PlayerState::Observing, cycle_handle }
    }
}

/// A cycle: the player who rides it, and the number by which the scene
/// knows its body.
#[derive(Clone, Copy, Debug)]
pub struct Cycle {
    pub player_handle: Handle,
    pub body: u64,
}

} // verus!
