//! The authoritative state of the game: who plays, and who rides what.
//!
//! Physics is not done here. The scene that simulates the bodies of the
//! cycles is reached through the `Scene` trait.
use crate::arena::{Arena, ArenaModel, Handle};
use crate::entities::{Cycle, Player, PlayerState};
use crate::messages::{Input, Quaternion, Vec3};
use vstd::prelude::*;

verus! {

/// Where a body is, how it is turned and how fast it moves.
#[derive(Clone, Copy, PartialEq, Eq, Structural, Debug)]
pub struct BodyPhysics {
    pub translation: Vec3,
    pub rotation: Quaternion,
    pub velocity: Vec3,
}

/// The scene that simulates the bodies of the cycles.
pub trait Scene {
    /// Creates the body of a cycle for the player with this index and
    /// returns the number by which the scene knows it.
    fn spawn_cycle_body(&mut self, player_index: u32) -> u64;

    /// Removes a body.
    fn remove_cycle_body(&mut self, body: u64);

    /// Reads a body's physics.
    fn cycle_body_physics(&self, body: u64) -> BodyPhysics;
}

/// The players and their cycles.
pub struct GameState {
    players: Arena<Player>,
    cycles: Arena<Cycle>,
}

impl GameState {
    /// The players.
    pub closed spec fn players(&self) -> ArenaModel<Player> {
        self.players@
    }

    /// The cycles.
    pub closed spec fn cycles(&self) -> ArenaModel<Cycle> {
        self.cycles@
    }

    /// Every cycle belongs to a live player who knows it as theirs, and
    /// every cycle that a player knows as theirs is live and belongs to them.
    pub open spec fn wf(&self) -> bool {
        &&& self.players().wf()
        &&& self.cycles().wf()
        &&& forall|c: Handle| #[trigger]
            self.cycles().is_live(c) ==> {
                let p = self.cycles().entries()[c].player_handle;
                self.players().is_live(p) && self.players().entries()[p].cycle_handle == Some(c)
            }
        &&& forall|p: Handle| #[trigger]
            self.players().is_live(p) ==> (match self.players().entries()[p].cycle_handle {
                Some(c) => self.cycles().is_live(c) && self.cycles().entries()[c].player_handle == p,
                None => true,
            })
    }

    pub fn new() -> (gs: GameState)
        ensures
            gs.wf(),
            gs.players() == ArenaModel::<Player>::empty(),
            gs.cycles() == ArenaModel::<Cycle>::empty(),
    {
        GameState { players: Arena::new(), cycles: Arena::new() }
    }

    pub fn players_arena(&self) -> (players: &Arena<Player>)
        ensures
            players@ == self.players(),
    {
        &self.players
    }

    pub fn cycles_arena(&self) -> (cycles: &Arena<Cycle>)
        ensures
            cycles@ == self.cycles(),
    {
        &self.cycles
    }

    /// Adds a player who rides nothing yet.
    pub fn spawn_player(&mut self) -> (player_handle: Handle)
        requires
            old(self).wf(),
            old(self).players().has_room(),
        ensures
            final(self).wf(),
            player_handle == old(self).players().next_handle(),
            final(self).players() == old(self).players().spawn(Player::spec_new(None)),
            final(self).cycles() == old(self).cycles(),
    {
        let player_handle = self.players.spawn(Player::new(None));
        assert forall|p: Handle| #[trigger] self.players().is_live(p) implies (match self.players().entries()[p].cycle_handle {
            Some(c) => self.cycles().is_live(c) && self.cycles().entries()[c].player_handle == p,
            None => true,
        }) by {
            if p != player_handle {
                assert(old(self).players().is_live(p));
            }
        }
        player_handle
    }

    /// Gives a player who rides nothing a cycle with the given body.
    pub fn spawn_cycle_with_body(&mut self, player_handle: Handle, body: u64) -> (cycle_handle: Handle)
        requires
            old(self).wf(),
            old(self).players().is_live(player_handle),
            old(self).players().entries()[player_handle].cycle_handle is None,
            old(self).cycles().has_room(),
        ensures
            final(self).wf(),
            cycle_handle == old(self).cycles().next_handle(),
            final(self).cycles() == old(self).cycles().spawn(Cycle { player_handle, body }),
            final(self).players() == old(self).players().replace(
                player_handle,
                Player {
                    cycle_handle: Some(cycle_handle),
                    ..old(self).players().entries()[player_handle]
                },
            ),
    {
        let cycle_handle = self.cycles.spawn(Cycle { player_handle, body });
        let player = self.players.borrow_mut(player_handle);
        player.cycle_handle = Some(cycle_handle);
        assert forall|c: Handle| #[trigger] self.cycles().is_live(c) implies {
            let p = self.cycles().entries()[c].player_handle;
            self.players().is_live(p) && self.players().entries()[p].cycle_handle == Some(c)
        } by {
            if c != cycle_handle {
                assert(old(self).cycles().is_live(c));
            }
        }
        assert forall|p: Handle| #[trigger] self.players().is_live(p) implies (match self.players().entries()[p].cycle_handle {
            Some(c) => self.cycles().is_live(c) && self.cycles().entries()[c].player_handle == p,
            None => true,
        }) by {
            if p != player_handle {
                assert(old(self).players().is_live(p));
            }
        }
        cycle_handle
    }

    /// Has the scene create a body and gives the player a cycle with it.
    pub fn spawn_cycle<S: Scene>(&mut self, scene: &mut S, player_handle: Handle) -> (cycle_handle: Handle)
        requires
            old(self).wf(),
            old(self).players().is_live(player_handle),
            old(self).players().entries()[player_handle].cycle_handle is None,
            old(self).cycles().has_room(),
        ensures
            final(self).wf(),
            cycle_handle == old(self).cycles().next_handle(),
            final(self).cycles().is_live(cycle_handle),
            final(self).cycles().entries()[cycle_handle].player_handle == player_handle,
            final(self).cycles() == old(self).cycles().spawn(final(self).cycles().entries()[cycle_handle]),
            final(self).players() == old(self).players().replace(
                player_handle,
                Player {
                    cycle_handle: Some(cycle_handle),
                    ..old(self).players().entries()[player_handle]
                },
            ),
    {
        let body = scene.spawn_cycle_body(player_handle.index());
        self.spawn_cycle_with_body(player_handle, body)
    }

    /// Removes a player and the cycle they ride, and has the scene remove
    /// its body. Does nothing if the player is not there.
    pub fn free_player<S: Scene>(&mut self, scene: &mut S, player_handle: Handle)
        requires
            old(self).wf(),
        ensures
            final(self).wf(),
            final(self).players() == old(self).players().free(player_handle),
            final(self).cycles() == (if old(self).players().is_live(player_handle) {
                match old(self).players().entries()[player_handle].cycle_handle {
                    Some(c) => old(self).cycles().free(c),
                    None => old(self).cycles(),
                }
            } else {
                old(self).cycles()
            }),
    {
        if !self.players.is_valid_handle(player_handle) {
            return ;
        }
        proof {
            self.players@.lemma_free(player_handle);
        }
        let player = self.players.free(player_handle);
        match player.cycle_handle {
            Some(c) => {
                let cycle = self.cycles.free(c);
                scene.remove_cycle_body(cycle.body);
                assert forall|d: Handle| #[trigger] self.cycles().is_live(d) implies {
                    let p = self.cycles().entries()[d].player_handle;
                    self.players().is_live(p) && self.players().entries()[p].cycle_handle == Some(d)
                } by {
                    assert(old(self).cycles().is_live(d));
                }
                assert forall|p: Handle| #[trigger] self.players().is_live(p) implies (match self.players().entries()[p].cycle_handle {
                    Some(d) => self.cycles().is_live(d) && self.cycles().entries()[d].player_handle == p,
                    None => true,
                }) by {
                }
            },
            None => {
                assert forall|d: Handle| #[trigger] self.cycles().is_live(d) implies {
                    let p = self.cycles().entries()[d].player_handle;
                    self.players().is_live(p) && self.players().entries()[p].cycle_handle == Some(d)
                } by {
                }
            },
        }
    }

    /// Overwrites a live player's input.
    pub fn set_input(&mut self, player_handle: Handle, input: Input)
        requires
            old(self).wf(),
            old(self).players().is_live(player_handle),
        ensures
            final(self).wf(),
            final(self).cycles() == old(self).cycles(),
            final(self).players() == old(self).players().replace(
                player_handle,
                Player { input, ..old(self).players().entries()[player_handle] },
            ),
    {
        let player = self.players.borrow_mut(player_handle);
        player.input = input;
    }

    /// Overwrites a live player's state.
    pub fn set_state(&mut self, player_handle: Handle, ps: PlayerState)
        requires
            old(self).wf(),
            old(self).players().is_live(player_handle),
        ensures
            final(self).wf(),
            final(self).cycles() == old(self).cycles(),
            final(self).players() == old(self).players().replace(
                player_handle,
                Player { ps, ..old(self).players().entries()[player_handle] },
            ),
    {
        let player = self.players.borrow_mut(player_handle);
        player.ps = ps;
    }

}

} // verus!
