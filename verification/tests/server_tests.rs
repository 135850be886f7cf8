use std::cell::RefCell;
use std::collections::VecDeque;
use std::rc::Rc;

use rustcycles::arena::Handle;
use rustcycles::codec::serialize;
use rustcycles::colors::white;
use rustcycles::debug::DebugContext;
use rustcycles::entities::PlayerState;
use rustcycles::game_state::{BodyPhysics, Scene};
use rustcycles::messages::{
    AddPlayer, ClientMessage, CyclePhysics, InitData, Input, PlayerCycle, Quaternion,
    ServerMessage, UpdatePhysics, Vec3,
};
use rustcycles::net::{AcceptError, Connection, Listener, SendError};
use rustcycles::server::{SendDest, ServerGame};

/// What a test sees of one connection.
#[derive(Default)]
struct Wire {
    incoming: VecDeque<ClientMessage>,
    closed: bool,
    refuse_sends: bool,
    sent: Vec<Vec<u8>>,
    attempts: usize,
}

type SharedWire = Rc<RefCell<Wire>>;

struct TestConnection {
    wire: SharedWire,
}

impl Connection for TestConnection {
    fn receive_cm(&mut self) -> (Vec<ClientMessage>, bool) {
        let mut wire = self.wire.borrow_mut();
        let messages = wire.incoming.drain(..).collect();
        (messages, wire.closed)
    }

    fn send(&mut self, bytes: &[u8]) -> Result<(), SendError> {
        let mut wire = self.wire.borrow_mut();
        wire.attempts += 1;
        if wire.refuse_sends {
            Err(SendError {})
        } else {
            wire.sent.push(bytes.to_vec());
            Ok(())
        }
    }
}

#[derive(Default)]
struct Door {
    waiting: VecDeque<SharedWire>,
    broken: bool,
}

struct TestListener {
    door: Rc<RefCell<Door>>,
}

impl Listener for TestListener {
    fn accept(&mut self) -> Result<Box<dyn Connection>, AcceptError> {
        let mut door = self.door.borrow_mut();
        if door.broken {
            return Err(AcceptError::Fatal);
        }
        match door.waiting.pop_front() {
            Some(wire) => Ok(Box::new(TestConnection { wire })),
            None => Err(AcceptError::WouldBlock),
        }
    }
}

#[derive(Default)]
struct TestScene {
    bodies: Vec<u64>,
    removed: Vec<u64>,
}

impl Scene for TestScene {
    fn spawn_cycle_body(&mut self, player_index: u32) -> u64 {
        let body = 100 + player_index as u64;
        self.bodies.push(body);
        body
    }

    fn remove_cycle_body(&mut self, body: u64) {
        self.bodies.retain(|b| *b != body);
        self.removed.push(body);
    }

    fn cycle_body_physics(&self, body: u64) -> BodyPhysics {
        BodyPhysics {
            translation: Vec3 { x: body as u32, y: 0, z: 0 },
            rotation: Quaternion { i: 0, j: 0, k: 0, w: 1.0f32.to_bits() },
            velocity: Vec3 { x: 0, y: body as u32, z: 0 },
        }
    }
}

fn server() -> (ServerGame, Rc<RefCell<Door>>, TestScene) {
    let door = Rc::new(RefCell::new(Door::default()));
    let server = ServerGame::new(Box::new(TestListener { door: door.clone() }));
    (server, door, TestScene::default())
}

fn knock(door: &Rc<RefCell<Door>>) -> SharedWire {
    let wire = Rc::new(RefCell::new(Wire::default()));
    door.borrow_mut().waiting.push_back(wire.clone());
    wire
}

fn taken(wire: &SharedWire) -> Vec<Vec<u8>> {
    wire.borrow_mut().sent.drain(..).collect()
}

fn add_player(player_index: u32) -> Vec<u8> {
    serialize(&ServerMessage::AddPlayer(AddPlayer { name: "Player".to_string(), player_index }))
}

fn spawn_cycle(player_index: u32, cycle_index: u32) -> Vec<u8> {
    serialize(&ServerMessage::SpawnCycle(PlayerCycle { player_index, cycle_index }))
}

fn init_data(player_indices: Vec<u32>, local: u32, cycles: Vec<(u32, u32)>) -> Vec<u8> {
    serialize(&ServerMessage::InitData(InitData {
        player_indices,
        local_player_index: local,
        player_cycles: cycles
            .into_iter()
            .map(|(player_index, cycle_index)| PlayerCycle { player_index, cycle_index })
            .collect(),
        player_projectiles: Vec::new(),
    }))
}

fn update(bodies: &[(u32, u64)], texts: &[&str]) -> Vec<u8> {
    serialize(&ServerMessage::Update {
        update_physics: UpdatePhysics {
            cycle_physics: bodies
                .iter()
                .map(|(cycle_index, body)| CyclePhysics {
                    cycle_index: *cycle_index,
                    translation: Vec3 { x: *body as u32, y: 0, z: 0 },
                    rotation: Quaternion { i: 0, j: 0, k: 0, w: 1.0f32.to_bits() },
                    velocity: Vec3 { x: 0, y: *body as u32, z: 0 },
                })
                .collect(),
        },
        debug_texts: texts.iter().map(|t| t.to_string()).collect(),
        debug_shapes: Vec::new(),
    })
}

fn h(index: u32) -> Handle {
    Handle { index, generation: 1 }
}

#[test]
fn two_clients_connect_and_one_leaves_mid_tick() {
    let (mut server, door, mut scene) = server();
    let mut debug = DebugContext::new("sv", white());

    // A connects and learns that it is alone.
    let a = knock(&door);
    assert_eq!(server.tick_begin_frame(&mut scene), Ok(()));
    assert_eq!(taken(&a), vec![init_data(vec![0], 0, vec![]), spawn_cycle(0, 0)]);

    // B connects: A hears of the player, then of the cycle; B learns of both players.
    let b = knock(&door);
    assert_eq!(server.tick_begin_frame(&mut scene), Ok(()));
    assert_eq!(taken(&a), vec![add_player(1), spawn_cycle(1, 1)]);
    assert_eq!(taken(&b), vec![init_data(vec![0, 1], 1, vec![(0, 0)]), spawn_cycle(1, 1)]);
    assert_eq!(scene.bodies, vec![100, 101]);

    // B joins and its stream closes in the same tick.
    b.borrow_mut().incoming.push_back(ClientMessage::Join);
    b.borrow_mut().closed = true;
    assert_eq!(server.tick_begin_frame(&mut scene), Ok(()));
    let join = serialize(&ServerMessage::Join { player_index: 1 });
    assert_eq!(taken(&a), vec![join.clone()]);
    assert_eq!(taken(&b), vec![join]);
    assert_eq!(server.gs().players_arena().borrow(h(1)).ps, PlayerState::Playing);
    assert_eq!(server.gs().players_arena().alive_count(), 2);

    // The update still goes to both.
    server.sys_send_update(&scene, &mut debug);
    assert_eq!(taken(&a), vec![update(&[(0, 100), (1, 101)], &[])]);
    assert_eq!(taken(&b).len(), 1);

    // B leaves with the prune, and A hears of it once.
    server.prune(&mut scene);
    assert_eq!(taken(&a), vec![serialize(&ServerMessage::RemovePlayer { player_index: 1 })]);
    assert_eq!(taken(&b), Vec::<Vec<u8>>::new());
    assert_eq!(server.gs().players_arena().handles(), vec![h(0)]);
    assert_eq!(server.gs().cycles_arena().handles(), vec![h(0)]);
    assert_eq!(scene.removed, vec![101]);
    assert_eq!(scene.bodies, vec![100]);

    // Nothing is left to prune.
    server.prune(&mut scene);
    assert_eq!(taken(&a), Vec::<Vec<u8>>::new());
    assert_eq!(scene.removed, vec![101]);
}

#[test]
fn join_then_observe_in_one_tick_leaves_the_player_observing() {
    let (mut server, door, mut scene) = server();
    let a = knock(&door);
    let b = knock(&door);
    assert_eq!(server.tick_begin_frame(&mut scene), Ok(()));
    taken(&a);
    taken(&b);

    b.borrow_mut().incoming.push_back(ClientMessage::Join);
    b.borrow_mut().incoming.push_back(ClientMessage::Observe);
    server.sys_receive();

    assert_eq!(server.gs().players_arena().borrow(h(1)).ps, PlayerState::Observing);
    let both = vec![
        serialize(&ServerMessage::Join { player_index: 1 }),
        serialize(&ServerMessage::Observe { player_index: 1 }),
    ];
    assert_eq!(taken(&a), both);
    assert_eq!(taken(&b), both);
}

#[test]
fn last_input_of_a_tick_wins() {
    let (mut server, door, mut scene) = server();
    let a = knock(&door);
    assert_eq!(server.tick_begin_frame(&mut scene), Ok(()));
    taken(&a);

    let first = Input { forward: true, ..Input::idle() };
    let second = Input { left: true, yaw: 7, ..Input::idle() };
    a.borrow_mut().incoming.push_back(ClientMessage::Input(first));
    a.borrow_mut().incoming.push_back(ClientMessage::Chat("hello".to_string()));
    a.borrow_mut().incoming.push_back(ClientMessage::Input(second));
    server.sys_receive();

    assert_eq!(server.gs().players_arena().borrow(h(0)).input, second);
    assert_eq!(server.gs().players_arena().borrow(h(0)).ps, PlayerState::Observing);
    assert_eq!(taken(&a), Vec::<Vec<u8>>::new());
}

#[test]
fn every_client_gets_one_update_even_if_a_send_fails() {
    let (mut server, door, mut scene) = server();
    let mut debug = DebugContext::new("sv", white());
    let a = knock(&door);
    let b = knock(&door);
    let c = knock(&door);
    assert_eq!(server.tick_begin_frame(&mut scene), Ok(()));
    for wire in [&a, &b, &c] {
        taken(wire);
        wire.borrow_mut().attempts = 0;
    }

    b.borrow_mut().refuse_sends = true;
    debug.textf("tick");
    server.sys_send_update(&scene, &mut debug);

    let expected = update(&[(0, 100), (1, 101), (2, 102)], &["sv tick"]);
    assert_eq!(a.borrow().attempts, 1);
    assert_eq!(b.borrow().attempts, 1);
    assert_eq!(c.borrow().attempts, 1);
    assert_eq!(taken(&a), vec![expected.clone()]);
    assert_eq!(taken(&c), vec![expected]);
    assert!(debug.texts.is_empty());
    assert!(debug.shapes.is_empty());

    // What is gathered after the update waits for the next one.
    debug.textf("late");
    assert_eq!(debug.texts, vec!["sv late".to_string()]);

    // B is still there until the prune.
    assert_eq!(server.gs().players_arena().alive_count(), 3);
    server.prune(&mut scene);
    assert_eq!(server.gs().players_arena().handles(), vec![h(0), h(2)]);
    let gone = serialize(&ServerMessage::RemovePlayer { player_index: 1 });
    assert_eq!(taken(&a), vec![gone.clone()]);
    assert_eq!(taken(&c), vec![gone]);
}

#[test]
fn a_client_that_fails_during_the_prune_leaves_in_the_same_prune() {
    let (mut server, door, mut scene) = server();
    let a = knock(&door);
    let b = knock(&door);
    let c = knock(&door);
    assert_eq!(server.tick_begin_frame(&mut scene), Ok(()));
    for wire in [&a, &b, &c] {
        taken(wire);
    }

    a.borrow_mut().closed = true;
    b.borrow_mut().refuse_sends = true;
    server.sys_receive();
    server.prune(&mut scene);

    assert_eq!(server.gs().players_arena().handles(), vec![h(2)]);
    assert_eq!(server.gs().cycles_arena().handles(), vec![h(2)]);
    assert_eq!(
        taken(&c),
        vec![
            serialize(&ServerMessage::RemovePlayer { player_index: 0 }),
            serialize(&ServerMessage::RemovePlayer { player_index: 1 }),
        ]
    );
    assert_eq!(scene.removed, vec![100, 101]);
}

#[test]
fn a_freed_slot_gets_a_new_generation() {
    let (mut server, door, mut scene) = server();
    let a = knock(&door);
    assert_eq!(server.tick_begin_frame(&mut scene), Ok(()));
    a.borrow_mut().closed = true;
    server.sys_receive();
    server.prune(&mut scene);
    assert_eq!(server.gs().players_arena().alive_count(), 0);

    let b = knock(&door);
    assert_eq!(server.tick_begin_frame(&mut scene), Ok(()));
    let again = Handle { index: 0, generation: 2 };
    assert_eq!(server.gs().players_arena().handles(), vec![again]);
    assert!(!server.gs().players_arena().is_valid_handle(h(0)));
    assert_eq!(taken(&b), vec![init_data(vec![0], 0, vec![]), spawn_cycle(0, 0)]);
}

#[test]
fn a_broken_listener_is_fatal() {
    let (mut server, door, mut scene) = server();
    let a = knock(&door);
    assert_eq!(server.accept_new_connections(&mut scene), Ok(()));
    taken(&a);
    door.borrow_mut().broken = true;
    assert_eq!(server.accept_new_connections(&mut scene), Err(AcceptError::Fatal));
    a.borrow_mut().incoming.push_back(ClientMessage::Join);
    assert_eq!(server.tick_begin_frame(&mut scene), Err(AcceptError::Fatal));
    // Nothing was received after the failure.
    assert_eq!(server.gs().players_arena().borrow(h(0)).ps, PlayerState::Observing);
}

#[test]
fn network_send_to_one_and_to_all() {
    let (mut server, door, mut scene) = server();
    let a = knock(&door);
    let b = knock(&door);
    assert_eq!(server.accept_new_connections(&mut scene), Ok(()));
    taken(&a);
    taken(&b);

    let message = ServerMessage::Observe { player_index: 9 };
    server.network_send(message.clone(), SendDest::One(h(1)));
    assert_eq!(taken(&a), Vec::<Vec<u8>>::new());
    assert_eq!(taken(&b), vec![serialize(&message)]);

    server.network_send(message.clone(), SendDest::All);
    assert_eq!(taken(&a), vec![serialize(&message)]);
    assert_eq!(taken(&b), vec![serialize(&message)]);

    // A client that is not there gets nothing, and nothing breaks.
    server.network_send(message.clone(), SendDest::One(Handle { index: 5, generation: 1 }));
    server.send_init(Handle { index: 5, generation: 1 });
    assert_eq!(taken(&a), Vec::<Vec<u8>>::new());
    assert_eq!(taken(&b), Vec::<Vec<u8>>::new());
}

#[test]
fn disconnect_removes_the_client_once() {
    let (mut server, door, mut scene) = server();
    let a = knock(&door);
    let b = knock(&door);
    assert_eq!(server.accept_new_connections(&mut scene), Ok(()));
    taken(&a);
    taken(&b);

    server.disconnect(&mut scene, h(0));
    assert_eq!(taken(&b), vec![serialize(&ServerMessage::RemovePlayer { player_index: 0 })]);
    assert_eq!(taken(&a), Vec::<Vec<u8>>::new());
    assert_eq!(server.gs().players_arena().handles(), vec![h(1)]);
    assert_eq!(scene.removed, vec![100]);

    server.disconnect(&mut scene, h(0));
    assert_eq!(taken(&b), Vec::<Vec<u8>>::new());
    assert_eq!(server.gs().players_arena().handles(), vec![h(1)]);
    assert_eq!(scene.removed, vec![100]);
}

#[test]
fn messages_from_an_unknown_client_are_ignored() {
    let (mut server, door, mut scene) = server();
    let a = knock(&door);
    assert_eq!(server.accept_new_connections(&mut scene), Ok(()));
    taken(&a);

    let mut queue = Vec::new();
    let stranger = Handle { index: 3, generation: 1 };
    server.receive_messages(stranger, &vec![ClientMessage::Join], true, &mut queue);
    assert!(queue.is_empty());
    server.prune(&mut scene);
    assert_eq!(server.gs().players_arena().handles(), vec![h(0)]);

    server.receive_messages(h(0), &vec![ClientMessage::Join], false, &mut queue);
    assert_eq!(queue, vec![ServerMessage::Join { player_index: 0 }]);
    assert_eq!(server.gs().players_arena().borrow(h(0)).ps, PlayerState::Playing);
    assert!(server.can_accept());
}
