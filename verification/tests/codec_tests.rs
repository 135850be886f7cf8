use rustcycles::codec::{serialize, serialize_client_message};
use rustcycles::debug::{Color, DebugShape, Shape};
use rustcycles::messages::{
    AddPlayer, ClientMessage, CyclePhysics, InitData, Input, PlayerCycle, Quaternion,
    ServerMessage, UpdatePhysics, Vec3,
};

#[test]
fn join_is_a_tag_and_an_index() {
    let bytes = serialize(&ServerMessage::Join { player_index: 0x0102_0304 });
    assert_eq!(bytes, vec![5, 0, 0, 0, 0, 0, 0, 0, 3, 4, 3, 2, 1]);
    let bytes = serialize(&ServerMessage::Observe { player_index: 1 });
    assert_eq!(bytes, vec![5, 0, 0, 0, 0, 0, 0, 0, 4, 1, 0, 0, 0]);
    let bytes = serialize(&ServerMessage::RemovePlayer { player_index: 2 });
    assert_eq!(bytes, vec![5, 0, 0, 0, 0, 0, 0, 0, 5, 2, 0, 0, 0]);
}

#[test]
fn add_player_carries_its_name_in_utf8() {
    let message =
        ServerMessage::AddPlayer(AddPlayer { name: "Zoë".to_string(), player_index: 7 });
    assert_eq!(
        serialize(&message),
        vec![
            17, 0, 0, 0, 0, 0, 0, 0, // payload length
            0, // tag
            4, 0, 0, 0, 0, 0, 0, 0, // name length
            b'Z', b'o', 0xc3, 0xab, // name
            7, 0, 0, 0, // player index
        ]
    );
}

#[test]
fn spawn_cycle_is_two_indices() {
    let message = ServerMessage::SpawnCycle(PlayerCycle { player_index: 1, cycle_index: 2 });
    assert_eq!(serialize(&message), vec![9, 0, 0, 0, 0, 0, 0, 0, 2, 1, 0, 0, 0, 2, 0, 0, 0]);
}

#[test]
fn init_data_lists_are_counted() {
    let message = ServerMessage::InitData(InitData {
        player_indices: vec![0, 1],
        local_player_index: 1,
        player_cycles: vec![PlayerCycle { player_index: 0, cycle_index: 0 }],
        player_projectiles: Vec::new(),
    });
    assert_eq!(
        serialize(&message),
        vec![
            45, 0, 0, 0, 0, 0, 0, 0, // payload length
            1, // tag
            2, 0, 0, 0, 0, 0, 0, 0, // two players
            0, 0, 0, 0, 1, 0, 0, 0, //
            1, 0, 0, 0, // local player
            1, 0, 0, 0, 0, 0, 0, 0, // one cycle
            0, 0, 0, 0, 0, 0, 0, 0, //
            0, 0, 0, 0, 0, 0, 0, 0, // no projectiles
        ]
    );
}

#[test]
fn update_carries_physics_texts_and_shapes() {
    let one = 1.0f32.to_bits();
    let message = ServerMessage::Update {
        update_physics: UpdatePhysics {
            cycle_physics: vec![CyclePhysics {
                cycle_index: 3,
                translation: Vec3 { x: one, y: 0, z: 0 },
                rotation: Quaternion { i: 0, j: 0, k: 0, w: one },
                velocity: Vec3 { x: 0, y: 0, z: one },
            }],
        },
        debug_texts: vec!["hi".to_string()],
        debug_shapes: vec![DebugShape {
            shape: Shape::Cross { point: Vec3 { x: 1, y: 2, z: 3 } },
            time: 0,
            color: Color { r: 9, g: 8, b: 7, a: 6 },
        }],
    };
    let bytes = serialize(&message);
    let mut expected: Vec<u8> = Vec::new();
    expected.extend_from_slice(&[6]);
    expected.extend_from_slice(&1u64.to_le_bytes());
    expected.extend_from_slice(&3u32.to_le_bytes());
    for f in [1.0f32, 0.0, 0.0, 0.0, 0.0, 0.0, 1.0, 0.0, 0.0, 1.0] {
        expected.extend_from_slice(&f.to_le_bytes());
    }
    expected.extend_from_slice(&1u64.to_le_bytes());
    expected.extend_from_slice(&2u64.to_le_bytes());
    expected.extend_from_slice(b"hi");
    expected.extend_from_slice(&1u64.to_le_bytes());
    expected.extend_from_slice(&[2, 1, 0, 0, 0, 2, 0, 0, 0, 3, 0, 0, 0, 0, 0, 0, 0, 9, 8, 7, 6]);
    assert_eq!(bytes[..8], (expected.len() as u64).to_le_bytes());
    assert_eq!(bytes[8..], expected[..]);
}

#[test]
fn client_messages_as_bytes() {
    assert_eq!(serialize_client_message(&ClientMessage::Join), vec![1, 0, 0, 0, 0, 0, 0, 0, 2]);
    assert_eq!(
        serialize_client_message(&ClientMessage::Observe),
        vec![1, 0, 0, 0, 0, 0, 0, 0, 3]
    );
    assert_eq!(
        serialize_client_message(&ClientMessage::Chat("gg".to_string())),
        vec![11, 0, 0, 0, 0, 0, 0, 0, 1, 2, 0, 0, 0, 0, 0, 0, 0, b'g', b'g']
    );
    let input = Input {
        forward: true,
        backward: false,
        left: false,
        right: true,
        brake: false,
        yaw: 0x0a0b_0c0d,
        pitch: 1,
    };
    assert_eq!(
        serialize_client_message(&ClientMessage::Input(input)),
        vec![14, 0, 0, 0, 0, 0, 0, 0, 0, 1, 0, 0, 1, 0, 0x0d, 0x0c, 0x0b, 0x0a, 1, 0, 0, 0]
    );
}
