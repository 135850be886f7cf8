use rustcycles::arena::Handle;
use rustcycles::clients::{ClientRegistry, RemoteClient};
use rustcycles::entities::{Player, PlayerState};
use rustcycles::game_state::{BodyPhysics, GameState, Scene};
use rustcycles::messages::{ClientMessage, Input, Quaternion, Vec3};
use rustcycles::net::{Connection, SendError};

#[derive(Default)]
struct Bodies {
    made: Vec<u32>,
    removed: Vec<u64>,
}

impl Scene for Bodies {
    fn spawn_cycle_body(&mut self, player_index: u32) -> u64 {
        self.made.push(player_index);
        1000 + self.made.len() as u64
    }

    fn remove_cycle_body(&mut self, body: u64) {
        self.removed.push(body);
    }

    fn cycle_body_physics(&self, _body: u64) -> BodyPhysics {
        BodyPhysics {
            translation: Vec3 { x: 0, y: 0, z: 0 },
            rotation: Quaternion { i: 0, j: 0, k: 0, w: 0 },
            velocity: Vec3 { x: 0, y: 0, z: 0 },
        }
    }
}

struct Echo {
    heard: Vec<u8>,
}

impl Connection for Echo {
    fn receive_cm(&mut self) -> (Vec<ClientMessage>, bool) {
        let heard = String::from_utf8_lossy(&self.heard).into_owned();
        self.heard.clear();
        (vec![ClientMessage::Chat(heard)], false)
    }

    fn send(&mut self, bytes: &[u8]) -> Result<(), SendError> {
        if bytes.is_empty() {
            return Err(SendError {});
        }
        self.heard.extend_from_slice(bytes);
        Ok(())
    }
}

#[test]
fn a_new_player_watches_and_rides_nothing() {
    let player = Player::new(None);
    assert_eq!(player.ps, PlayerState::Observing);
    assert_eq!(player.input, Input::idle());
    assert_eq!(player.cycle_handle, None);
    assert_eq!(
        Input::idle(),
        Input {
            forward: false,
            backward: false,
            left: false,
            right: false,
            brake: false,
            yaw: 0,
            pitch: 0
        }
    );
}

#[test]
fn players_get_cycles_and_take_them_along() {
    let mut gs = GameState::new();
    let mut scene = Bodies::default();
    let a = gs.spawn_player();
    let b = gs.spawn_player();
    assert_eq!(a, Handle { index: 0, generation: 1 });
    assert_eq!(b, Handle { index: 1, generation: 1 });

    let cb = gs.spawn_cycle(&mut scene, b);
    assert_eq!(scene.made, vec![1]);
    assert_eq!(cb, Handle { index: 0, generation: 1 });
    assert_eq!(gs.players_arena().borrow(b).cycle_handle, Some(cb));
    assert_eq!(gs.cycles_arena().borrow(cb).player_handle, b);
    assert_eq!(gs.cycles_arena().borrow(cb).body, 1001);

    let ca = gs.spawn_cycle_with_body(a, 7);
    assert_eq!(gs.cycles_arena().borrow(ca).body, 7);
    assert_eq!(gs.cycles_arena().handles(), vec![cb, ca]);

    gs.set_state(a, PlayerState::Playing);
    gs.set_input(a, Input { brake: true, ..Input::idle() });
    assert_eq!(gs.players_arena().borrow(a).ps, PlayerState::Playing);
    assert!(gs.players_arena().borrow(a).input.brake);
    assert_eq!(gs.players_arena().borrow(a).cycle_handle, Some(ca));
    assert_eq!(gs.players_arena().borrow(b).ps, PlayerState::Observing);

    gs.free_player(&mut scene, b);
    assert_eq!(scene.removed, vec![1001]);
    assert_eq!(gs.players_arena().handles(), vec![a]);
    assert_eq!(gs.cycles_arena().handles(), vec![ca]);

    // Somebody who is not there leaves nothing behind.
    gs.free_player(&mut scene, b);
    assert_eq!(scene.removed, vec![1001]);
    assert_eq!(gs.players_arena().handles(), vec![a]);
}

#[test]
fn the_registry_keeps_clients_with_their_players() {
    let mut registry = ClientRegistry::new();
    assert!(registry.has_room());
    let player = Handle { index: 4, generation: 2 };
    let client = RemoteClient::new(Box::new(Echo { heard: Vec::new() }), player);
    assert_eq!(client.player_handle(), player);
    let c = registry.spawn(client);
    assert_eq!(c, Handle { index: 0, generation: 1 });
    assert!(registry.is_valid_handle(c));
    assert_eq!(registry.player_handle(c), player);
    assert_eq!(registry.handles(), vec![c]);

    assert!(registry.send(c, b"hi"));
    assert!(!registry.send(c, b""));
    assert_eq!(registry.receive(c), (vec![ClientMessage::Chat("hi".to_string())], false));

    let client = registry.free(c);
    assert_eq!(client.player_handle(), player);
    assert!(!registry.is_valid_handle(c));
    assert_eq!(registry.handles(), Vec::<Handle>::new());
}
