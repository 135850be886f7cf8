use rustcycles::codec::{serialize, serialize_client_message};
use rustcycles::debug::{Color, DebugShape, Shape};
use rustcycles::decode::{
    decode_client_messages, deserialize_client_message, deserialize_server_message, DecodeError,
    Inbox,
};
use rustcycles::messages::{
    AddPlayer, ClientMessage, CyclePhysics, InitData, Input, PlayerCycle, PlayerProjectile,
    Quaternion, ServerMessage, UpdatePhysics, Vec3,
};

fn input() -> Input {
    Input {
        forward: true,
        backward: false,
        left: true,
        right: false,
        brake: true,
        yaw: 1.5f32.to_bits(),
        pitch: (-0.25f32).to_bits(),
    }
}

fn client_messages() -> Vec<ClientMessage> {
    vec![
        ClientMessage::Input(input()),
        ClientMessage::Chat("žluťoučký kůň 🐎".to_string()),
        ClientMessage::Chat(String::new()),
        ClientMessage::Join,
        ClientMessage::Observe,
    ]
}

fn server_messages() -> Vec<ServerMessage> {
    let v = |x: f32, y: f32, z: f32| Vec3 { x: x.to_bits(), y: y.to_bits(), z: z.to_bits() };
    vec![
        ServerMessage::AddPlayer(AddPlayer { name: "Player".to_string(), player_index: 3 }),
        ServerMessage::InitData(InitData {
            player_indices: vec![0, 1, 5],
            local_player_index: 5,
            player_cycles: vec![
                PlayerCycle { player_index: 0, cycle_index: 2 },
                PlayerCycle { player_index: 1, cycle_index: 0 },
            ],
            player_projectiles: vec![PlayerProjectile { player_index: 1, projectile_index: 9 }],
        }),
        ServerMessage::InitData(InitData {
            player_indices: Vec::new(),
            local_player_index: 0,
            player_cycles: Vec::new(),
            player_projectiles: Vec::new(),
        }),
        ServerMessage::SpawnCycle(PlayerCycle { player_index: 7, cycle_index: 8 }),
        ServerMessage::Join { player_index: u32::MAX },
        ServerMessage::Observe { player_index: 0 },
        ServerMessage::RemovePlayer { player_index: 12 },
        ServerMessage::Update {
            update_physics: UpdatePhysics {
                cycle_physics: vec![
                    CyclePhysics {
                        cycle_index: 0,
                        translation: v(1.0, 2.0, 3.0),
                        rotation: Quaternion {
                            i: 0,
                            j: 0,
                            k: 0.5f32.to_bits(),
                            w: 0.5f32.to_bits(),
                        },
                        velocity: v(-1.0, 0.0, 9.5),
                    },
                    CyclePhysics {
                        cycle_index: 4,
                        translation: v(0.0, 0.0, 0.0),
                        rotation: Quaternion { i: 1, j: 2, k: 3, w: 4 },
                        velocity: v(f32::MAX, f32::MIN, f32::NAN),
                    },
                ],
            },
            debug_texts: vec!["sv x: 5".to_string(), String::new(), "ünï".to_string()],
            debug_shapes: vec![
                DebugShape {
                    shape: Shape::Line { begin: v(1.0, 2.0, 3.0), end: v(4.0, 5.0, 6.0) },
                    time: 5.0f32.to_bits(),
                    color: Color { r: 0, g: 0, b: 255, a: 255 },
                },
                DebugShape {
                    shape: Shape::Arrow { begin: v(0.0, 0.0, 0.0), end: v(0.0, 1.0, 0.0) },
                    time: 0,
                    color: Color { r: 1, g: 2, b: 3, a: 4 },
                },
                DebugShape {
                    shape: Shape::Cross { point: v(7.0, 8.0, 9.0) },
                    time: 1,
                    color: Color { r: 255, g: 255, b: 255, a: 0 },
                },
            ],
        },
        ServerMessage::Update {
            update_physics: UpdatePhysics { cycle_physics: Vec::new() },
            debug_texts: Vec::new(),
            debug_shapes: Vec::new(),
        },
    ]
}

#[test]
fn client_messages_come_back_as_sent() {
    for message in client_messages() {
        let bytes = serialize_client_message(&message);
        assert_eq!(deserialize_client_message(&bytes, 0), Ok((message, bytes.len())));
    }
}

#[test]
fn server_messages_come_back_as_sent() {
    for message in server_messages() {
        let bytes = serialize(&message);
        assert_eq!(deserialize_server_message(&bytes, 0), Ok((message, bytes.len())));
    }
}

#[test]
fn a_frame_is_read_where_it_begins() {
    let mut bytes = vec![0xaa, 0xbb, 0xcc];
    bytes.extend(serialize(&ServerMessage::Join { player_index: 6 }));
    bytes.extend([1, 2, 3]);
    assert_eq!(
        deserialize_server_message(&bytes, 3),
        Ok((ServerMessage::Join { player_index: 6 }, 16))
    );
}

#[test]
fn a_frame_that_has_not_arrived_in_full_is_incomplete() {
    for message in server_messages() {
        let bytes = serialize(&message);
        for cut in 0..bytes.len() {
            assert_eq!(
                deserialize_server_message(&bytes[..cut], 0),
                Err(DecodeError::Incomplete)
            );
        }
    }
    let bytes = serialize_client_message(&ClientMessage::Input(input()));
    for cut in 0..bytes.len() {
        assert_eq!(deserialize_client_message(&bytes[..cut], 0), Err(DecodeError::Incomplete));
    }
    assert_eq!(deserialize_client_message(&bytes, bytes.len()), Err(DecodeError::Incomplete));
    assert_eq!(deserialize_client_message(&bytes, bytes.len() + 5), Err(DecodeError::Incomplete));
}

fn framed(payload: &[u8]) -> Vec<u8> {
    let mut bytes = (payload.len() as u64).to_le_bytes().to_vec();
    bytes.extend_from_slice(payload);
    bytes
}

#[test]
fn frames_that_are_no_messages_are_malformed() {
    let malformed = Some(DecodeError::Malformed);
    let client = |payload: &[u8]| deserialize_client_message(&framed(payload), 0).err();
    let server = |payload: &[u8]| deserialize_server_message(&framed(payload), 0).err();
    // No tag.
    assert_eq!(client(&[]), malformed);
    assert_eq!(server(&[]), malformed);
    // An unknown tag.
    assert_eq!(client(&[4]), malformed);
    assert_eq!(server(&[7, 0, 0, 0, 0]), malformed);
    // Bytes to spare.
    assert_eq!(client(&[2, 0]), malformed);
    assert_eq!(server(&[3, 1, 0, 0, 0, 0]), malformed);
    // Too few bytes for the fields.
    assert_eq!(server(&[3, 1, 0, 0]), malformed);
    assert_eq!(client(&[0, 1, 1, 1, 1, 1, 0, 0, 0, 0]), malformed);
    // A flag that is neither 0 nor 1.
    assert_eq!(client(&[0, 2, 0, 0, 0, 0, 0, 0, 0, 0, 0, 0, 0, 0]), malformed);
    // A text that is not UTF-8.
    assert_eq!(client(&[1, 2, 0, 0, 0, 0, 0, 0, 0, 0xc3, 0x28]), malformed);
    // A text longer than its frame.
    assert_eq!(client(&[1, 9, 0, 0, 0, 0, 0, 0, 0, b'a']), malformed);
    // A list longer than its frame.
    assert_eq!(
        server(&[1, 0xff, 0xff, 0xff, 0xff, 0xff, 0xff, 0xff, 0xff, 1, 0, 0, 0]),
        malformed
    );
    // An unknown shape.
    let mut update = vec![6];
    update.extend_from_slice(&0u64.to_le_bytes());
    update.extend_from_slice(&0u64.to_le_bytes());
    update.extend_from_slice(&1u64.to_le_bytes());
    update.extend_from_slice(&[3; 21]);
    assert_eq!(server(&update), malformed);
}

#[test]
fn a_stream_is_read_message_by_message() {
    let messages = client_messages();
    let mut bytes = Vec::new();
    for message in &messages {
        bytes.extend(serialize_client_message(message));
    }
    let whole = bytes.len();
    // Half a frame more.
    bytes.extend(&serialize_client_message(&ClientMessage::Join)[..5]);

    let decoded = decode_client_messages(&bytes);
    assert_eq!(decoded.messages, messages);
    assert_eq!(decoded.consumed, whole);
    assert!(!decoded.malformed);

    let decoded = decode_client_messages(&[]);
    assert!(decoded.messages.is_empty());
    assert_eq!(decoded.consumed, 0);
    assert!(!decoded.malformed);
}

#[test]
fn a_stream_stops_at_a_malformed_frame() {
    let mut bytes = serialize_client_message(&ClientMessage::Join);
    let good = bytes.len();
    bytes.extend(framed(&[9]));
    bytes.extend(serialize_client_message(&ClientMessage::Observe));
    let decoded = decode_client_messages(&bytes);
    assert_eq!(decoded.messages, vec![ClientMessage::Join]);
    assert_eq!(decoded.consumed, good);
    assert!(decoded.malformed);
}

#[test]
fn an_inbox_keeps_what_has_not_arrived_in_full() {
    let first = serialize_client_message(&ClientMessage::Chat("hello".to_string()));
    let second = serialize_client_message(&ClientMessage::Input(input()));
    let mut inbox = Inbox::new();

    inbox.push_bytes(&first[..4]);
    assert_eq!(inbox.take_messages(), (vec![], false));
    inbox.push_bytes(&first[4..]);
    inbox.push_bytes(&second[..10]);
    assert_eq!(inbox.take_messages(), (vec![ClientMessage::Chat("hello".to_string())], false));
    assert_eq!(inbox.take_messages(), (vec![], false));
    inbox.push_bytes(&second[10..]);
    inbox.push_bytes(&serialize_client_message(&ClientMessage::Join));
    assert_eq!(
        inbox.take_messages(),
        (vec![ClientMessage::Input(input()), ClientMessage::Join], false)
    );
    assert!(!inbox.is_broken());
}

#[test]
fn an_inbox_that_met_a_malformed_frame_stays_broken() {
    let mut inbox = Inbox::new();
    inbox.push_bytes(&serialize_client_message(&ClientMessage::Observe));
    inbox.push_bytes(&framed(&[200]));
    assert_eq!(inbox.take_messages(), (vec![ClientMessage::Observe], true));
    assert!(inbox.is_broken());
    inbox.push_bytes(&serialize_client_message(&ClientMessage::Join));
    assert_eq!(inbox.take_messages(), (vec![], true));
    assert!(inbox.is_broken());
}
