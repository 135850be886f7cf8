//! Reading the wire format back.
//!
//! A stream is read frame by frame. A frame whose bytes have not all arrived
//! is left for later. A frame that is all there but is no message, or is a
//! message with bytes to spare, is malformed: nothing after it can be
//! trusted, and whoever reads the stream treats it as closed.
use crate::codec::{
    spec_add_player, spec_client_payload, spec_cycle_physics, spec_debug_shape,
    spec_flag, spec_init_data, spec_input, spec_items, spec_len, spec_list, spec_player_cycle,
    spec_player_projectile, spec_quaternion, spec_serialize, spec_serialize_client,
    spec_server_payload, spec_shape, spec_text, spec_u32, spec_vec3,
};
use crate::debug::{Color, DebugShape, Shape};
use crate::messages::{
    texts_view, AddPlayer, AddPlayerView, ClientMessage, ClientMessageView, CyclePhysics, InitData,
    InitDataView, Input, PlayerCycle, PlayerProjectile, Quaternion, ServerMessage,
    ServerMessageView, UpdatePhysics, Vec3,
};
use vstd::bytes::{
    lemma_auto_spec_u32_to_from_le_bytes, lemma_auto_spec_u64_to_from_le_bytes,
    spec_u32_from_le_bytes, spec_u64_from_le_bytes, u32_from_le_bytes, u64_from_le_bytes,
};
use vstd::prelude::*;
use vstd::slice::slice_subrange;
use vstd::utf8::{
    decode_utf8, decode_utf8_encode_utf8, encode_utf8, encode_utf8_decode_utf8,
    encode_utf8_valid_utf8, valid_utf8,
};

verus! {

/// Why no message was read.
#[derive(Clone, Copy, PartialEq, Eq, Structural, Debug)]
pub enum DecodeError {
    /// The frame has not arrived in full.
    Incomplete,
    /// The frame is there and is not a message.
    Malformed,
}

/// What reading one frame gives: a message and where the next frame begins,
/// or why there is none.
pub enum Framed<M> {
    Message(M, int),
    Incomplete,
    Malformed,
}

pub open spec fn parse_u32(s: Seq<u8>, pos: int) -> Option<(u32, int)> {
    if 0 <= pos && pos + 4 <= s.len() {
        Some((spec_u32_from_le_bytes(s.subrange(pos, pos + 4)), pos + 4))
    } else {
        None
    }
}

pub open spec fn parse_len(s: Seq<u8>, pos: int) -> Option<(nat, int)> {
    if 0 <= pos && pos + 8 <= s.len() {
        Some((spec_u64_from_le_bytes(s.subrange(pos, pos + 8)) as nat, pos + 8))
    } else {
        None
    }
}

pub open spec fn flag_of(byte: u8) -> bool {
    byte == 1
}

pub open spec fn parse_text(s: Seq<u8>, pos: int) -> Option<(Seq<char>, int)> {
    match parse_len(s, pos) {
        Some((n, start)) => if start + n <= s.len() && valid_utf8(s.subrange(start, start + n)) {
            Some((decode_utf8(s.subrange(start, start + n)), start + n))
        } else {
            None
        },
        None => None,
    }
}

pub open spec fn parse_input(s: Seq<u8>, pos: int) -> Option<(Input, int)> {
    if 0 <= pos && pos + 13 <= s.len() && s[pos] <= 1 && s[pos + 1] <= 1 && s[pos + 2] <= 1 && s[pos
        + 3] <= 1 && s[pos + 4] <= 1 {
        Some(
            (
                Input {
                    forward: flag_of(s[pos]),
                    backward: flag_of(s[pos + 1]),
                    left: flag_of(s[pos + 2]),
                    right: flag_of(s[pos + 3]),
                    brake: flag_of(s[pos + 4]),
                    yaw: spec_u32_from_le_bytes(s.subrange(pos + 5, pos + 9)),
                    pitch: spec_u32_from_le_bytes(s.subrange(pos + 9, pos + 13)),
                },
                pos + 13,
            ),
        )
    } else {
        None
    }
}

pub open spec fn u32_at(s: Seq<u8>, pos: int) -> u32 {
    spec_u32_from_le_bytes(s.subrange(pos, pos + 4))
}

pub open spec fn vec3_at(s: Seq<u8>, pos: int) -> Vec3 {
    Vec3 { x: u32_at(s, pos), y: u32_at(s, pos + 4), z: u32_at(s, pos + 8) }
}

pub open spec fn quaternion_at(s: Seq<u8>, pos: int) -> Quaternion {
    Quaternion {
        i: u32_at(s, pos),
        j: u32_at(s, pos + 4),
        k: u32_at(s, pos + 8),
        w: u32_at(s, pos + 12),
    }
}

pub open spec fn parse_player_cycle(s: Seq<u8>, pos: int) -> Option<(PlayerCycle, int)> {
    if 0 <= pos && pos + 8 <= s.len() {
        Some(
            (PlayerCycle { player_index: u32_at(s, pos), cycle_index: u32_at(s, pos + 4) }, pos + 8),
        )
    } else {
        None
    }
}

pub open spec fn parse_player_projectile(s: Seq<u8>, pos: int) -> Option<(PlayerProjectile, int)> {
    if 0 <= pos && pos + 8 <= s.len() {
        Some(
            (
                PlayerProjectile {
                    player_index: u32_at(s, pos),
                    projectile_index: u32_at(s, pos + 4),
                },
                pos + 8,
            ),
        )
    } else {
        None
    }
}

pub open spec fn parse_cycle_physics(s: Seq<u8>, pos: int) -> Option<(CyclePhysics, int)> {
    if 0 <= pos && pos + 44 <= s.len() {
        Some(
            (
                CyclePhysics {
                    cycle_index: u32_at(s, pos),
                    translation: vec3_at(s, pos + 4),
                    rotation: quaternion_at(s, pos + 16),
                    velocity: vec3_at(s, pos + 32),
                },
                pos + 44,
            ),
        )
    } else {
        None
    }
}

pub open spec fn parse_shape(s: Seq<u8>, pos: int) -> Option<(Shape, int)> {
    if 0 <= pos < s.len() {
        if s[pos] == 0 && pos + 25 <= s.len() {
            Some((Shape::Line { begin: vec3_at(s, pos + 1), end: vec3_at(s, pos + 13) }, pos + 25))
        } else if s[pos] == 1 && pos + 25 <= s.len() {
            Some((Shape::Arrow { begin: vec3_at(s, pos + 1), end: vec3_at(s, pos + 13) }, pos + 25))
        } else if s[pos] == 2 && pos + 13 <= s.len() {
            Some((Shape::Cross { point: vec3_at(s, pos + 1) }, pos + 13))
        } else {
            None
        }
    } else {
        None
    }
}

pub open spec fn parse_debug_shape(s: Seq<u8>, pos: int) -> Option<(DebugShape, int)> {
    match parse_shape(s, pos) {
        Some((shape, p)) => if p + 8 <= s.len() {
            Some(
                (
                    DebugShape {
                        shape,
                        time: u32_at(s, p),
                        color: Color { r: s[p + 4], g: s[p + 5], b: s[p + 6], a: s[p + 7] },
                    },
                    p + 8,
                ),
            )
        } else {
            None
        },
        None => None,
    }
}

/// The first `count` items from `pos` on, and where they end.
pub open spec fn parse_items<T>(
    s: Seq<u8>,
    pos: int,
    count: nat,
    parse: spec_fn(Seq<u8>, int) -> Option<(T, int)>,
) -> Option<(Seq<T>, int)>
    decreases count,
{
    if count == 0 {
        Some((Seq::empty(), pos))
    } else {
        match parse_items(s, pos, (count - 1) as nat, parse) {
            Some((items, p)) => match parse(s, p) {
                Some((item, q)) => Some((items.push(item), q)),
                None => None,
            },
            None => None,
        }
    }
}

/// A list: as many items as its length says.
pub open spec fn parse_list<T>(
    s: Seq<u8>,
    pos: int,
    parse: spec_fn(Seq<u8>, int) -> Option<(T, int)>,
) -> Option<(Seq<T>, int)> {
    match parse_len(s, pos) {
        Some((n, start)) => parse_items(s, start, n, parse),
        None => None,
    }
}

pub open spec fn parse_add_player(s: Seq<u8>, pos: int) -> Option<(AddPlayerView, int)> {
    match parse_text(s, pos) {
        Some((name, p)) => match parse_u32(s, p) {
            Some((player_index, q)) => Some((AddPlayerView { name, player_index }, q)),
            None => None,
        },
        None => None,
    }
}

pub open spec fn parse_init_data(s: Seq<u8>, pos: int) -> Option<(InitDataView, int)> {
    match parse_list(s, pos, |s: Seq<u8>, p: int| parse_u32(s, p)) {
        Some((player_indices, at_local)) => match parse_u32(s, at_local) {
            Some((local_player_index, at_cycles)) => match parse_list(
                s,
                at_cycles,
                |s: Seq<u8>, p: int| parse_player_cycle(s, p),
            ) {
                Some((player_cycles, at_projectiles)) => match parse_list(
                    s,
                    at_projectiles,
                    |s: Seq<u8>, p: int| parse_player_projectile(s, p),
                ) {
                    Some((player_projectiles, end)) => Some(
                        (
                            InitDataView {
                                player_indices,
                                local_player_index,
                                player_cycles,
                                player_projectiles,
                            },
                            end,
                        ),
                    ),
                    None => None,
                },
                None => None,
            },
            None => None,
        },
        None => None,
    }
}

pub open spec fn parse_update(s: Seq<u8>, pos: int) -> Option<(ServerMessageView, int)> {
    match parse_list(s, pos, |s: Seq<u8>, p: int| parse_cycle_physics(s, p)) {
        Some((update_physics, at_texts)) => match parse_list(
            s,
            at_texts,
            |s: Seq<u8>, p: int| parse_text(s, p),
        ) {
            Some((debug_texts, at_shapes)) => match parse_list(
                s,
                at_shapes,
                |s: Seq<u8>, p: int| parse_debug_shape(s, p),
            ) {
                Some((debug_shapes, end)) => Some(
                    (ServerMessageView::Update { update_physics, debug_texts, debug_shapes }, end),
                ),
                None => None,
            },
            None => None,
        },
        None => None,
    }
}

/// The message from the server whose payload begins at `pos`, and where
/// the payload ends.
pub open spec fn parse_server_payload(s: Seq<u8>, pos: int) -> Option<(ServerMessageView, int)> {
    if 0 <= pos < s.len() {
        if s[pos] == 0 {
            match parse_add_player(s, pos + 1) {
                Some((add_player, end)) => Some((ServerMessageView::AddPlayer(add_player), end)),
                None => None,
            }
        } else if s[pos] == 1 {
            match parse_init_data(s, pos + 1) {
                Some((init_data, end)) => Some((ServerMessageView::InitData(init_data), end)),
                None => None,
            }
        } else if s[pos] == 2 {
            match parse_player_cycle(s, pos + 1) {
                Some((player_cycle, end)) => Some(
                    (ServerMessageView::SpawnCycle(player_cycle), end),
                ),
                None => None,
            }
        } else if s[pos] == 3 {
            match parse_u32(s, pos + 1) {
                Some((player_index, end)) => Some((ServerMessageView::Join { player_index }, end)),
                None => None,
            }
        } else if s[pos] == 4 {
            match parse_u32(s, pos + 1) {
                Some((player_index, end)) => Some(
                    (ServerMessageView::Observe { player_index }, end),
                ),
                None => None,
            }
        } else if s[pos] == 5 {
            match parse_u32(s, pos + 1) {
                Some((player_index, end)) => Some(
                    (ServerMessageView::RemovePlayer { player_index }, end),
                ),
                None => None,
            }
        } else if s[pos] == 6 {
            parse_update(s, pos + 1)
        } else {
            None
        }
    } else {
        None
    }
}

/// The frame of a message from the server that begins at `pos`.
pub open spec fn parse_server_frame(s: Seq<u8>, pos: int) -> Framed<ServerMessageView> {
    match parse_len(s, pos) {
        None => Framed::Incomplete,
        Some((n, start)) => if start + n > s.len() {
            Framed::Incomplete
        } else {
            match parse_server_payload(s.subrange(start, start + n), 0) {
                Some((message, end)) => if end == n {
                    Framed::Message(message, start + n)
                } else {
                    Framed::Malformed
                },
                None => Framed::Malformed,
            }
        },
    }
}

/// The message whose payload begins at `pos`, and where the payload ends.
pub open spec fn parse_client_payload(s: Seq<u8>, pos: int) -> Option<(ClientMessageView, int)> {
    if 0 <= pos < s.len() {
        if s[pos] == 0 {
            match parse_input(s, pos + 1) {
                Some((input, end)) => Some((ClientMessageView::Input(input), end)),
                None => None,
            }
        } else if s[pos] == 1 {
            match parse_text(s, pos + 1) {
                Some((text, end)) => Some((ClientMessageView::Chat(text), end)),
                None => None,
            }
        } else if s[pos] == 2 {
            Some((ClientMessageView::Join, pos + 1))
        } else if s[pos] == 3 {
            Some((ClientMessageView::Observe, pos + 1))
        } else {
            None
        }
    } else {
        None
    }
}

/// The frame that begins at `pos`.
pub open spec fn parse_client_frame(s: Seq<u8>, pos: int) -> Framed<ClientMessageView> {
    match parse_len(s, pos) {
        None => Framed::Incomplete,
        Some((n, start)) => if start + n > s.len() {
            Framed::Incomplete
        } else {
            match parse_client_payload(s.subrange(start, start + n), 0) {
                Some((message, end)) => if end == n {
                    Framed::Message(message, start + n)
                } else {
                    Framed::Malformed
                },
                None => Framed::Malformed,
            }
        },
    }
}

/// What a stream holds from `pos` on: the messages of the frames that are
/// there in full and well formed, where the first frame begins that is not,
/// and whether that frame is malformed.
pub open spec fn parse_client_stream(s: Seq<u8>, pos: int) -> (Seq<ClientMessageView>, int, bool)
    decreases s.len() - pos,
{
    match parse_client_frame(s, pos) {
        Framed::Message(message, next) => {
            if pos < next {
                let rest = parse_client_stream(s, next);
                (seq![message] + rest.0, rest.1, rest.2)
            } else {
                (Seq::empty(), pos, true)
            }
        },
        Framed::Incomplete => (Seq::empty(), pos, false),
        Framed::Malformed => (Seq::empty(), pos, true),
    }
}

/// The frames of the messages, one after the other.
pub open spec fn spec_client_stream(messages: Seq<ClientMessageView>) -> Seq<u8>
    decreases messages.len(),
{
    if messages.len() == 0 {
        Seq::empty()
    } else {
        spec_serialize_client(messages[0]) + spec_client_stream(messages.skip(1))
    }
}

/// `core::str::from_utf8`, with the text copied out: it succeeds exactly on
/// well-formed UTF-8, and the text is then the one that the bytes encode.
#[verifier::external_body]
fn text_from_utf8(bytes: &[u8]) -> (text: Option<String>)
    ensures
        text is Some <==> valid_utf8(bytes@),
        text matches Some(t) ==> t@ == decode_utf8(bytes@),
{
    match core::str::from_utf8(bytes) {
        Ok(text) => Some(text.to_owned()),
        Err(_) => None,
    }
}

fn take_u32(bytes: &[u8], pos: usize) -> (r: Option<(u32, usize)>)
    ensures
        match r {
            Some((v, next)) => parse_u32(bytes@, pos as int) == Some((v, next as int)),
            None => parse_u32(bytes@, pos as int) is None,
        },
{
    if pos > bytes.len() || bytes.len() - pos < 4 {
        return None;
    }
    Some((u32_from_le_bytes(slice_subrange(bytes, pos, pos + 4)), pos + 4))
}

fn take_len(bytes: &[u8], pos: usize) -> (r: Option<(u64, usize)>)
    ensures
        match r {
            Some((n, next)) => parse_len(bytes@, pos as int) == Some((n as nat, next as int)),
            None => parse_len(bytes@, pos as int) is None,
        },
{
    if pos > bytes.len() || bytes.len() - pos < 8 {
        return None;
    }
    Some((u64_from_le_bytes(slice_subrange(bytes, pos, pos + 8)), pos + 8))
}

fn take_text(bytes: &[u8], pos: usize) -> (r: Option<(String, usize)>)
    ensures
        match r {
            Some((text, next)) => parse_text(bytes@, pos as int) == Some((text@, next as int)),
            None => parse_text(bytes@, pos as int) is None,
        },
{
    match take_len(bytes, pos) {
        Some((n, start)) => {
            if n > (bytes.len() - start) as u64 {
                return None;
            }
            let end = start + n as usize;
            match text_from_utf8(slice_subrange(bytes, start, end)) {
                Some(text) => Some((text, end)),
                None => None,
            }
        },
        None => None,
    }
}

fn take_input(bytes: &[u8], pos: usize) -> (r: Option<(Input, usize)>)
    ensures
        match r {
            Some((input, next)) => parse_input(bytes@, pos as int) == Some((input, next as int)),
            None => parse_input(bytes@, pos as int) is None,
        },
{
    if pos > bytes.len() || bytes.len() - pos < 13 {
        return None;
    }
    if bytes[pos] > 1 || bytes[pos + 1] > 1 || bytes[pos + 2] > 1 || bytes[pos + 3] > 1 || bytes[pos
        + 4] > 1 {
        return None;
    }
    let input = Input {
        forward: bytes[pos] == 1,
        backward: bytes[pos + 1] == 1,
        left: bytes[pos + 2] == 1,
        right: bytes[pos + 3] == 1,
        brake: bytes[pos + 4] == 1,
        yaw: u32_from_le_bytes(slice_subrange(bytes, pos + 5, pos + 9)),
        pitch: u32_from_le_bytes(slice_subrange(bytes, pos + 9, pos + 13)),
    };
    Some((input, pos + 13))
}

fn take_client_payload(bytes: &[u8], pos: usize) -> (r: Option<(ClientMessage, usize)>)
    ensures
        match r {
            Some((message, next)) => parse_client_payload(bytes@, pos as int) == Some(
                (message@, next as int),
            ),
            None => parse_client_payload(bytes@, pos as int) is None,
        },
{
    if pos >= bytes.len() {
        return None;
    }
    let tag = bytes[pos];
    if tag == 0 {
        match take_input(bytes, pos + 1) {
            Some((input, end)) => Some((ClientMessage::Input(input), end)),
            None => None,
        }
    } else if tag == 1 {
        match take_text(bytes, pos + 1) {
            Some((text, end)) => Some((ClientMessage::Chat(text), end)),
            None => None,
        }
    } else if tag == 2 {
        Some((ClientMessage::Join, pos + 1))
    } else if tag == 3 {
        Some((ClientMessage::Observe, pos + 1))
    } else {
        None
    }
}

/// Once an item cannot be read, no longer list can be read either.
proof fn lemma_items_none<T>(
    s: Seq<u8>,
    pos: int,
    failing: nat,
    count: nat,
    parse: spec_fn(Seq<u8>, int) -> Option<(T, int)>,
)
    requires
        failing <= count,
        parse_items(s, pos, failing, parse) is None,
    ensures
        parse_items(s, pos, count, parse) is None,
    decreases count,
{
    if failing < count {
        lemma_items_none(s, pos, failing, (count - 1) as nat, parse);
    }
}

fn read_u32(bytes: &[u8], pos: usize) -> (v: u32)
    requires
        pos + 4 <= bytes.len(),
    ensures
        v == u32_at(bytes@, pos as int),
{
    u32_from_le_bytes(slice_subrange(bytes, pos, pos + 4))
}

fn read_vec3(bytes: &[u8], pos: usize) -> (v: Vec3)
    requires
        pos + 12 <= bytes.len(),
    ensures
        v == vec3_at(bytes@, pos as int),
{
    Vec3 { x: read_u32(bytes, pos), y: read_u32(bytes, pos + 4), z: read_u32(bytes, pos + 8) }
}

fn read_quaternion(bytes: &[u8], pos: usize) -> (q: Quaternion)
    requires
        pos + 16 <= bytes.len(),
    ensures
        q == quaternion_at(bytes@, pos as int),
{
    Quaternion {
        i: read_u32(bytes, pos),
        j: read_u32(bytes, pos + 4),
        k: read_u32(bytes, pos + 8),
        w: read_u32(bytes, pos + 12),
    }
}

fn take_player_cycle(bytes: &[u8], pos: usize) -> (r: Option<(PlayerCycle, usize)>)
    ensures
        match r {
            Some((v, next)) => parse_player_cycle(bytes@, pos as int) == Some((v, next as int)),
            None => parse_player_cycle(bytes@, pos as int) is None,
        },
{
    if pos > bytes.len() || bytes.len() - pos < 8 {
        return None;
    }
    Some(
        (
            PlayerCycle {
                player_index: read_u32(bytes, pos),
                cycle_index: read_u32(bytes, pos + 4),
            },
            pos + 8,
        ),
    )
}

fn take_player_projectile(bytes: &[u8], pos: usize) -> (r: Option<(PlayerProjectile, usize)>)
    ensures
        match r {
            Some((v, next)) => parse_player_projectile(bytes@, pos as int) == Some(
                (v, next as int),
            ),
            None => parse_player_projectile(bytes@, pos as int) is None,
        },
{
    if pos > bytes.len() || bytes.len() - pos < 8 {
        return None;
    }
    Some(
        (
            PlayerProjectile {
                player_index: read_u32(bytes, pos),
                projectile_index: read_u32(bytes, pos + 4),
            },
            pos + 8,
        ),
    )
}

fn take_cycle_physics(bytes: &[u8], pos: usize) -> (r: Option<(CyclePhysics, usize)>)
    ensures
        match r {
            Some((v, next)) => parse_cycle_physics(bytes@, pos as int) == Some((v, next as int)),
            None => parse_cycle_physics(bytes@, pos as int) is None,
        },
{
    if pos > bytes.len() || bytes.len() - pos < 44 {
        return None;
    }
    Some(
        (
            CyclePhysics {
                cycle_index: read_u32(bytes, pos),
                translation: read_vec3(bytes, pos + 4),
                rotation: read_quaternion(bytes, pos + 16),
                velocity: read_vec3(bytes, pos + 32),
            },
            pos + 44,
        ),
    )
}

fn take_shape(bytes: &[u8], pos: usize) -> (r: Option<(Shape, usize)>)
    ensures
        match r {
            Some((v, next)) => parse_shape(bytes@, pos as int) == Some((v, next as int)),
            None => parse_shape(bytes@, pos as int) is None,
        },
{
    if pos >= bytes.len() {
        return None;
    }
    let tag = bytes[pos];
    let left = bytes.len() - pos;
    if tag == 0 && left >= 25 {
        Some(
            (
                Shape::Line { begin: read_vec3(bytes, pos + 1), end: read_vec3(bytes, pos + 13) },
                pos + 25,
            ),
        )
    } else if tag == 1 && left >= 25 {
        Some(
            (
                Shape::Arrow { begin: read_vec3(bytes, pos + 1), end: read_vec3(bytes, pos + 13) },
                pos + 25,
            ),
        )
    } else if tag == 2 && left >= 13 {
        Some((Shape::Cross { point: read_vec3(bytes, pos + 1) }, pos + 13))
    } else {
        None
    }
}

fn take_debug_shape(bytes: &[u8], pos: usize) -> (r: Option<(DebugShape, usize)>)
    ensures
        match r {
            Some((v, next)) => parse_debug_shape(bytes@, pos as int) == Some((v, next as int)),
            None => parse_debug_shape(bytes@, pos as int) is None,
        },
{
    match take_shape(bytes, pos) {
        Some((shape, p)) => {
            if bytes.len() - p < 8 {
                return None;
            }
            let color = Color { r: bytes[p + 4], g: bytes[p + 5], b: bytes[p + 6], a: bytes[p + 7] };
            Some((DebugShape { shape, time: read_u32(bytes, p), color }, p + 8))
        },
        None => None,
    }
}

fn take_u32_list(bytes: &[u8], pos: usize) -> (r: Option<(Vec<u32>, usize)>)
    ensures
        match r {
            Some((items, next)) => parse_list(bytes@, pos as int, |s: Seq<u8>, p: int| parse_u32(s, p))
                == Some((items@, next as int)),
            None => parse_list(bytes@, pos as int, |s: Seq<u8>, p: int| parse_u32(s, p)) is None,
        },
{
    let ghost parse = |s: Seq<u8>, p: int| parse_u32(s, p);
    match take_len(bytes, pos) {
        None => None,
        Some((n, start)) => {
            let mut items: Vec<u32> = Vec::new();
            let mut cur: usize = start;
            let mut i: u64 = 0;
            while i < n
                invariant
                    i <= n,
                    parse_len(bytes@, pos as int) == Some((n as nat, start as int)),
                    parse == (|s: Seq<u8>, p: int| parse_u32(s, p)),
                    parse_items(bytes@, start as int, i as nat, parse) == Some((items@, cur as int)),
                decreases n - i,
            {
                match take_u32(bytes, cur) {
                    Some((item, next)) => {
                        items.push(item);
                        cur = next;
                        i = i + 1;
                    },
                    None => {
                        proof {
                            lemma_items_none(bytes@, start as int, (i + 1) as nat, n as nat, parse);
                        }
                        return None;
                    },
                }
            }
            Some((items, cur))
        },
    }
}

fn take_player_cycle_list(bytes: &[u8], pos: usize) -> (r: Option<(Vec<PlayerCycle>, usize)>)
    ensures
        match r {
            Some((items, next)) => parse_list(bytes@, pos as int, |s: Seq<u8>, p: int| parse_player_cycle(s, p))
                == Some((items@, next as int)),
            None => parse_list(bytes@, pos as int, |s: Seq<u8>, p: int| parse_player_cycle(s, p)) is None,
        },
{
    let ghost parse = |s: Seq<u8>, p: int| parse_player_cycle(s, p);
    match take_len(bytes, pos) {
        None => None,
        Some((n, start)) => {
            let mut items: Vec<PlayerCycle> = Vec::new();
            let mut cur: usize = start;
            let mut i: u64 = 0;
            while i < n
                invariant
                    i <= n,
                    parse_len(bytes@, pos as int) == Some((n as nat, start as int)),
                    parse == (|s: Seq<u8>, p: int| parse_player_cycle(s, p)),
                    parse_items(bytes@, start as int, i as nat, parse) == Some((items@, cur as int)),
                decreases n - i,
            {
                match take_player_cycle(bytes, cur) {
                    Some((item, next)) => {
                        items.push(item);
                        cur = next;
                        i = i + 1;
                    },
                    None => {
                        proof {
                            lemma_items_none(bytes@, start as int, (i + 1) as nat, n as nat, parse);
                        }
                        return None;
                    },
                }
            }
            Some((items, cur))
        },
    }
}

fn take_player_projectile_list(bytes: &[u8], pos: usize) -> (r: Option<(Vec<PlayerProjectile>, usize)>)
    ensures
        match r {
            Some((items, next)) => parse_list(bytes@, pos as int, |s: Seq<u8>, p: int| parse_player_projectile(s, p))
                == Some((items@, next as int)),
            None => parse_list(bytes@, pos as int, |s: Seq<u8>, p: int| parse_player_projectile(s, p)) is None,
        },
{
    let ghost parse = |s: Seq<u8>, p: int| parse_player_projectile(s, p);
    match take_len(bytes, pos) {
        None => None,
        Some((n, start)) => {
            let mut items: Vec<PlayerProjectile> = Vec::new();
            let mut cur: usize = start;
            let mut i: u64 = 0;
            while i < n
                invariant
                    i <= n,
                    parse_len(bytes@, pos as int) == Some((n as nat, start as int)),
                    parse == (|s: Seq<u8>, p: int| parse_player_projectile(s, p)),
                    parse_items(bytes@, start as int, i as nat, parse) == Some((items@, cur as int)),
                decreases n - i,
            {
                match take_player_projectile(bytes, cur) {
                    Some((item, next)) => {
                        items.push(item);
                        cur = next;
                        i = i + 1;
                    },
                    None => {
                        proof {
                            lemma_items_none(bytes@, start as int, (i + 1) as nat, n as nat, parse);
                        }
                        return None;
                    },
                }
            }
            Some((items, cur))
        },
    }
}

fn take_cycle_physics_list(bytes: &[u8], pos: usize) -> (r: Option<(Vec<CyclePhysics>, usize)>)
    ensures
        match r {
            Some((items, next)) => parse_list(bytes@, pos as int, |s: Seq<u8>, p: int| parse_cycle_physics(s, p))
                == Some((items@, next as int)),
            None => parse_list(bytes@, pos as int, |s: Seq<u8>, p: int| parse_cycle_physics(s, p)) is None,
        },
{
    let ghost parse = |s: Seq<u8>, p: int| parse_cycle_physics(s, p);
    match take_len(bytes, pos) {
        None => None,
        Some((n, start)) => {
            let mut items: Vec<CyclePhysics> = Vec::new();
            let mut cur: usize = start;
            let mut i: u64 = 0;
            while i < n
                invariant
                    i <= n,
                    parse_len(bytes@, pos as int) == Some((n as nat, start as int)),
                    parse == (|s: Seq<u8>, p: int| parse_cycle_physics(s, p)),
                    parse_items(bytes@, start as int, i as nat, parse) == Some((items@, cur as int)),
                decreases n - i,
            {
                match take_cycle_physics(bytes, cur) {
                    Some((item, next)) => {
                        items.push(item);
                        cur = next;
                        i = i + 1;
                    },
                    None => {
                        proof {
                            lemma_items_none(bytes@, start as int, (i + 1) as nat, n as nat, parse);
                        }
                        return None;
                    },
                }
            }
            Some((items, cur))
        },
    }
}

fn take_debug_shape_list(bytes: &[u8], pos: usize) -> (r: Option<(Vec<DebugShape>, usize)>)
    ensures
        match r {
            Some((items, next)) => parse_list(bytes@, pos as int, |s: Seq<u8>, p: int| parse_debug_shape(s, p))
                == Some((items@, next as int)),
            None => parse_list(bytes@, pos as int, |s: Seq<u8>, p: int| parse_debug_shape(s, p)) is None,
        },
{
    let ghost parse = |s: Seq<u8>, p: int| parse_debug_shape(s, p);
    match take_len(bytes, pos) {
        None => None,
        Some((n, start)) => {
            let mut items: Vec<DebugShape> = Vec::new();
            let mut cur: usize = start;
            let mut i: u64 = 0;
            while i < n
                invariant
                    i <= n,
                    parse_len(bytes@, pos as int) == Some((n as nat, start as int)),
                    parse == (|s: Seq<u8>, p: int| parse_debug_shape(s, p)),
                    parse_items(bytes@, start as int, i as nat, parse) == Some((items@, cur as int)),
                decreases n - i,
            {
                match take_debug_shape(bytes, cur) {
                    Some((item, next)) => {
                        items.push(item);
                        cur = next;
                        i = i + 1;
                    },
                    None => {
                        proof {
                            lemma_items_none(bytes@, start as int, (i + 1) as nat, n as nat, parse);
                        }
                        return None;
                    },
                }
            }
            Some((items, cur))
        },
    }
}

fn take_text_list(bytes: &[u8], pos: usize) -> (r: Option<(Vec<String>, usize)>)
    ensures
        match r {
            Some((items, next)) => parse_list(bytes@, pos as int, |s: Seq<u8>, p: int| parse_text(s, p))
                == Some((texts_view(items@), next as int)),
            None => parse_list(bytes@, pos as int, |s: Seq<u8>, p: int| parse_text(s, p)) is None,
        },
{
    let ghost parse = |s: Seq<u8>, p: int| parse_text(s, p);
    match take_len(bytes, pos) {
        None => None,
        Some((n, start)) => {
            let mut items: Vec<String> = Vec::new();
            let mut cur: usize = start;
            let mut i: u64 = 0;
            while i < n
                invariant
                    i <= n,
                    parse_len(bytes@, pos as int) == Some((n as nat, start as int)),
                    parse == (|s: Seq<u8>, p: int| parse_text(s, p)),
                    parse_items(bytes@, start as int, i as nat, parse) == Some(
                        (texts_view(items@), cur as int),
                    ),
                decreases n - i,
            {
                match take_text(bytes, cur) {
                    Some((item, next)) => {
                        items.push(item);
                        cur = next;
                        i = i + 1;
                    },
                    None => {
                        proof {
                            lemma_items_none(bytes@, start as int, (i + 1) as nat, n as nat, parse);
                        }
                        return None;
                    },
                }
            }
            Some((items, cur))
        },
    }
}

fn take_add_player(bytes: &[u8], pos: usize) -> (r: Option<(AddPlayer, usize)>)
    ensures
        match r {
            Some((v, next)) => parse_add_player(bytes@, pos as int) == Some((v@, next as int)),
            None => parse_add_player(bytes@, pos as int) is None,
        },
{
    match take_text(bytes, pos) {
        Some((name, p)) => match take_u32(bytes, p) {
            Some((player_index, q)) => Some((AddPlayer { name, player_index }, q)),
            None => None,
        },
        None => None,
    }
}

fn take_init_data(bytes: &[u8], pos: usize) -> (r: Option<(InitData, usize)>)
    ensures
        match r {
            Some((v, next)) => parse_init_data(bytes@, pos as int) == Some((v@, next as int)),
            None => parse_init_data(bytes@, pos as int) is None,
        },
{
    match take_u32_list(bytes, pos) {
        Some((player_indices, at_local)) => match take_u32(bytes, at_local) {
            Some((local_player_index, at_cycles)) => match take_player_cycle_list(bytes, at_cycles) {
                Some((player_cycles, at_projectiles)) => match take_player_projectile_list(
                    bytes,
                    at_projectiles,
                ) {
                    Some((player_projectiles, end)) => Some(
                        (
                            InitData {
                                player_indices,
                                local_player_index,
                                player_cycles,
                                player_projectiles,
                            },
                            end,
                        ),
                    ),
                    None => None,
                },
                None => None,
            },
            None => None,
        },
        None => None,
    }
}

fn take_update(bytes: &[u8], pos: usize) -> (r: Option<(ServerMessage, usize)>)
    ensures
        match r {
            Some((v, next)) => parse_update(bytes@, pos as int) == Some((v@, next as int)),
            None => parse_update(bytes@, pos as int) is None,
        },
{
    match take_cycle_physics_list(bytes, pos) {
        Some((cycle_physics, at_texts)) => match take_text_list(bytes, at_texts) {
            Some((debug_texts, at_shapes)) => match take_debug_shape_list(bytes, at_shapes) {
                Some((debug_shapes, end)) => Some(
                    (
                        ServerMessage::Update {
                            update_physics: UpdatePhysics { cycle_physics },
                            debug_texts,
                            debug_shapes,
                        },
                        end,
                    ),
                ),
                None => None,
            },
            None => None,
        },
        None => None,
    }
}

fn take_server_payload(bytes: &[u8], pos: usize) -> (r: Option<(ServerMessage, usize)>)
    ensures
        match r {
            Some((message, next)) => parse_server_payload(bytes@, pos as int) == Some(
                (message@, next as int),
            ),
            None => parse_server_payload(bytes@, pos as int) is None,
        },
{
    if pos >= bytes.len() {
        return None;
    }
    let tag = bytes[pos];
    if tag == 0 {
        match take_add_player(bytes, pos + 1) {
            Some((add_player, end)) => Some((ServerMessage::AddPlayer(add_player), end)),
            None => None,
        }
    } else if tag == 1 {
        match take_init_data(bytes, pos + 1) {
            Some((init_data, end)) => Some((ServerMessage::InitData(init_data), end)),
            None => None,
        }
    } else if tag == 2 {
        match take_player_cycle(bytes, pos + 1) {
            Some((player_cycle, end)) => Some((ServerMessage::SpawnCycle(player_cycle), end)),
            None => None,
        }
    } else if tag == 3 {
        match take_u32(bytes, pos + 1) {
            Some((player_index, end)) => Some((ServerMessage::Join { player_index }, end)),
            None => None,
        }
    } else if tag == 4 {
        match take_u32(bytes, pos + 1) {
            Some((player_index, end)) => Some((ServerMessage::Observe { player_index }, end)),
            None => None,
        }
    } else if tag == 5 {
        match take_u32(bytes, pos + 1) {
            Some((player_index, end)) => Some((ServerMessage::RemovePlayer { player_index }, end)),
            None => None,
        }
    } else if tag == 6 {
        take_update(bytes, pos + 1)
    } else {
        None
    }
}

/// The view of what reading a frame from the server gave.
pub open spec fn server_framed_view(r: Result<(ServerMessage, usize), DecodeError>) -> Framed<
    ServerMessageView,
> {
    match r {
        Ok((message, next)) => Framed::Message(message@, next as int),
        Err(DecodeError::Incomplete) => Framed::Incomplete,
        Err(DecodeError::Malformed) => Framed::Malformed,
    }
}

/// Reads the frame that begins at `pos`: a message from the server and
/// where the next frame begins.
pub fn deserialize_server_message(bytes: &[u8], pos: usize) -> (r: Result<
    (ServerMessage, usize),
    DecodeError,
>)
    ensures
        server_framed_view(r) == parse_server_frame(bytes@, pos as int),
        r matches Ok((_, next)) ==> pos + 8 < next <= bytes@.len(),
{
    match take_len(bytes, pos) {
        None => Err(DecodeError::Incomplete),
        Some((n, start)) => {
            if n > (bytes.len() - start) as u64 {
                return Err(DecodeError::Incomplete);
            }
            let end = start + n as usize;
            let payload = slice_subrange(bytes, start, end);
            match take_server_payload(payload, 0) {
                Some((message, used)) => {
                    if used == n as usize {
                        Ok((message, end))
                    } else {
                        Err(DecodeError::Malformed)
                    }
                },
                None => Err(DecodeError::Malformed),
            }
        },
    }
}

/// The view of what reading a frame gave.
pub open spec fn framed_view(r: Result<(ClientMessage, usize), DecodeError>) -> Framed<
    ClientMessageView,
> {
    match r {
        Ok((message, next)) => Framed::Message(message@, next as int),
        Err(DecodeError::Incomplete) => Framed::Incomplete,
        Err(DecodeError::Malformed) => Framed::Malformed,
    }
}

/// Reads the frame that begins at `pos`: a message from a client and where
/// the next frame begins.
pub fn deserialize_client_message(bytes: &[u8], pos: usize) -> (r: Result<
    (ClientMessage, usize),
    DecodeError,
>)
    ensures
        framed_view(r) == parse_client_frame(bytes@, pos as int),
        r matches Ok((_, next)) ==> pos + 8 < next <= bytes@.len(),
{
    match take_len(bytes, pos) {
        None => Err(DecodeError::Incomplete),
        Some((n, start)) => {
            if n > (bytes.len() - start) as u64 {
                return Err(DecodeError::Incomplete);
            }
            let end = start + n as usize;
            let payload = slice_subrange(bytes, start, end);
            match take_client_payload(payload, 0) {
                Some((message, used)) => {
                    if used == n as usize {
                        Ok((message, end))
                    } else {
                        Err(DecodeError::Malformed)
                    }
                },
                None => Err(DecodeError::Malformed),
            }
        },
    }
}

/// What was read from a stream.
pub struct Decoded {
    /// The messages of the frames that were there in full and well formed.
    pub messages: Vec<ClientMessage>,
    /// How many bytes those frames took.
    pub consumed: usize,
    /// Whether the frame after them is malformed.
    pub malformed: bool,
}

/// Reads as many messages from clients as the bytes hold.
pub fn decode_client_messages(bytes: &[u8]) -> (decoded: Decoded)
    ensures
        parse_client_stream(bytes@, 0) == (
            decoded.messages@.map_values(|m: ClientMessage| m@),
            decoded.consumed as int,
            decoded.malformed,
        ),
        decoded.consumed <= bytes@.len(),
{
    let mut messages: Vec<ClientMessage> = Vec::new();
    let mut pos: usize = 0;
    let ghost views = |m: ClientMessage| m@;
    loop
        invariant
            pos <= bytes@.len(),
            views == (|m: ClientMessage| m@),
            parse_client_stream(bytes@, 0) == ({
                let rest = parse_client_stream(bytes@, pos as int);
                (messages@.map_values(views) + rest.0, rest.1, rest.2)
            }),
        decreases bytes@.len() - pos,
    {
        match deserialize_client_message(bytes, pos) {
            Ok((message, next)) => {
                messages.push(message);
                pos = next;
            },
            Err(DecodeError::Incomplete) => {
                return Decoded { messages, consumed: pos, malformed: false };
            },
            Err(DecodeError::Malformed) => {
                return Decoded { messages, consumed: pos, malformed: true };
            },
        }
    }
}

/// What has arrived from a client and is not read yet.
pub struct Inbox {
    buffer: Vec<u8>,
    broken: bool,
}

impl Inbox {
    /// The bytes that have arrived and are not read yet.
    pub closed spec fn bytes(&self) -> Seq<u8> {
        self.buffer@
    }

    /// Whether a malformed frame has been met. Nothing is read after it.
    pub closed spec fn broken(&self) -> bool {
        self.broken
    }

    pub fn new() -> (inbox: Inbox)
        ensures
            inbox.bytes() == Seq::<u8>::empty(),
            !inbox.broken(),
    {
        Inbox { buffer: Vec::new(), broken: false }
    }

    /// Whether a malformed frame has been met.
    pub fn is_broken(&self) -> (b: bool)
        ensures
            b == self.broken(),
    {
        self.broken
    }

    /// Takes in bytes that have arrived.
    pub fn push_bytes(&mut self, bytes: &[u8])
        ensures
            final(self).bytes() == old(self).bytes() + bytes@,
            final(self).broken() == old(self).broken(),
    {
        let mut i: usize = 0;
        while i < bytes.len()
            invariant
                i <= bytes@.len(),
                self.broken == old(self).broken,
                self.buffer@ == old(self).buffer@ + bytes@.take(i as int),
            decreases bytes@.len() - i,
        {
            self.buffer.push(bytes[i]);
            i = i + 1;
        }
    }

    /// Takes out the messages whose frames have arrived in full, and says
    /// whether the stream is malformed. The bytes of a frame that has not
    /// arrived in full stay for the next time. Once the stream is
    /// malformed it stays so, and gives no more messages.
    pub fn take_messages(&mut self) -> (taken: (Vec<ClientMessage>, bool))
        ensures
            old(self).broken() ==> {
                &&& taken.0@ == Seq::<ClientMessage>::empty()
                &&& taken.1
                &&& final(self).broken()
                &&& final(self).bytes() == old(self).bytes()
            },
            !old(self).broken() ==> {
                let parsed = parse_client_stream(old(self).bytes(), 0);
                &&& taken.0@.map_values(|m: ClientMessage| m@) == parsed.0
                &&& taken.1 == parsed.2
                &&& final(self).broken() == parsed.2
                &&& 0 <= parsed.1 <= old(self).bytes().len()
                &&& final(self).bytes() == old(self).bytes().skip(parsed.1)
            },
    {
        if self.broken {
            return (Vec::new(), true);
        }
        let decoded = decode_client_messages(self.buffer.as_slice());
        let rest = self.buffer.split_off(decoded.consumed);
        self.buffer = rest;
        self.broken = decoded.malformed;
        (decoded.messages, decoded.malformed)
    }
}

/// A stretch of `s` that equals `e` equals it part by part.
proof fn lemma_part(s: Seq<u8>, pos: int, e: Seq<u8>, a: int, b: int)
    requires
        0 <= pos,
        pos + e.len() <= s.len(),
        s.subrange(pos, pos + e.len()) == e,
        0 <= a <= b <= e.len(),
    ensures
        s.subrange(pos + a, pos + b) == e.subrange(a, b),
        forall|k: int| a <= k < b ==> s[pos + k] == e[k],
{
}

proof fn lemma_input_roundtrip(input: Input, s: Seq<u8>, pos: int)
    requires
        0 <= pos,
        pos + spec_input(input).len() <= s.len(),
        s.subrange(pos, pos + spec_input(input).len()) == spec_input(input),
    ensures
        spec_input(input).len() == 13,
        parse_input(s, pos) == Some((input, pos + 13)),
{
    lemma_auto_spec_u32_to_from_le_bytes();
    let e = spec_input(input);
    lemma_part(s, pos, e, 5, 9);
    lemma_part(s, pos, e, 9, 13);
    assert(e.subrange(5, 9) =~= spec_u32(input.yaw));
    assert(e.subrange(9, 13) =~= spec_u32(input.pitch));
    assert(e[0] == spec_flag(input.forward)[0]);
    assert(e[1] == spec_flag(input.backward)[0]);
    assert(e[2] == spec_flag(input.left)[0]);
    assert(e[3] == spec_flag(input.right)[0]);
    assert(e[4] == spec_flag(input.brake)[0]);
}

proof fn lemma_text_roundtrip(text: Seq<char>, s: Seq<u8>, pos: int)
    requires
        0 <= pos,
        encode_utf8(text).len() <= u64::MAX || s.len() <= u64::MAX,
        pos + spec_text(text).len() <= s.len(),
        s.subrange(pos, pos + spec_text(text).len()) == spec_text(text),
    ensures
        spec_text(text).len() == 8 + encode_utf8(text).len(),
        parse_text(s, pos) == Some((text, pos + spec_text(text).len())),
{
    lemma_auto_spec_u64_to_from_le_bytes();
    let e = spec_text(text);
    let bytes = encode_utf8(text);
    lemma_part(s, pos, e, 0, 8);
    lemma_part(s, pos, e, 8, e.len() as int);
    assert(e.subrange(0, 8) =~= spec_len(bytes.len()));
    assert(e.subrange(8, e.len() as int) =~= bytes);
    encode_utf8_valid_utf8(text);
    encode_utf8_decode_utf8(text);
}

/// What is written is read back: where a stream holds the payload of a
/// message from a client, that message is read, and the reading ends where
/// the payload ends.
pub proof fn law_client_payload_roundtrip(message: ClientMessageView, s: Seq<u8>, pos: int)
    requires
        0 <= pos,
        spec_client_payload(message).len() <= u64::MAX,
        pos + spec_client_payload(message).len() <= s.len(),
        s.subrange(pos, pos + spec_client_payload(message).len()) == spec_client_payload(message),
    ensures
        parse_client_payload(s, pos) == Some((message, pos + spec_client_payload(message).len())),
{
    let e = spec_client_payload(message);
    lemma_part(s, pos, e, 1, e.len() as int);
    assert(s[pos + 0] == e[0]);
    match message {
        ClientMessageView::Input(input) => {
            assert(e.subrange(1, e.len() as int) =~= spec_input(input));
            lemma_input_roundtrip(input, s, pos + 1);
        },
        ClientMessageView::Chat(text) => {
            assert(e.subrange(1, e.len() as int) =~= spec_text(text));
            lemma_text_roundtrip(text, s, pos + 1);
        },
        ClientMessageView::Join => {},
        ClientMessageView::Observe => {},
    }
}

/// What is written is read back, frame and all: where a stream holds the
/// frame of a message from a client, that message is read, and the next
/// frame begins where this one ends.
pub proof fn law_client_frame_roundtrip(message: ClientMessageView, s: Seq<u8>, pos: int)
    requires
        0 <= pos,
        spec_client_payload(message).len() <= u64::MAX,
        pos + spec_serialize_client(message).len() <= s.len(),
        s.subrange(pos, pos + spec_serialize_client(message).len()) == spec_serialize_client(
            message,
        ),
    ensures
        spec_serialize_client(message).len() == 8 + spec_client_payload(message).len(),
        parse_client_frame(s, pos) == Framed::Message(
            message,
            pos + spec_serialize_client(message).len(),
        ),
{
    lemma_auto_spec_u64_to_from_le_bytes();
    let payload = spec_client_payload(message);
    let e = spec_serialize_client(message);
    lemma_part(s, pos, e, 0, 8);
    lemma_part(s, pos, e, 8, e.len() as int);
    assert(e.subrange(0, 8) =~= spec_len(payload.len()));
    assert(e.subrange(8, e.len() as int) =~= payload);
    let within = s.subrange(pos + 8, pos + 8 + payload.len());
    assert(within.subrange(0, payload.len() as int) =~= within);
    law_client_payload_roundtrip(message, within, 0);
}

/// A stream of whole frames is read back message by message: all of them
/// come out, in order, every byte is used, and nothing is malformed.
pub proof fn law_client_stream_roundtrip(before: Seq<u8>, messages: Seq<ClientMessageView>)
    requires
        forall|i: int|
            0 <= i < messages.len() ==> spec_client_payload(#[trigger] messages[i]).len()
                <= u64::MAX,
    ensures
        parse_client_stream(before + spec_client_stream(messages), before.len() as int) == (
            messages,
            (before + spec_client_stream(messages)).len() as int,
            false,
        ),
    decreases messages.len(),
{
    let s = before + spec_client_stream(messages);
    let pos = before.len() as int;
    if messages.len() != 0 {
        let frame = spec_serialize_client(messages[0]);
        let rest = messages.skip(1);
        assert(s.subrange(pos, pos + frame.len()) =~= frame);
        law_client_frame_roundtrip(messages[0], s, pos);
        assert(s =~= (before + frame) + spec_client_stream(rest));
        law_client_stream_roundtrip(before + frame, rest);
    }
}

/// What is read was written: a frame that reads as a message is the frame
/// of that message, byte for byte. So no two messages share a frame, and no
/// message has two frames.
pub proof fn law_client_frame_is_canonical(s: Seq<u8>, pos: int)
    requires
        parse_client_frame(s, pos) is Message,
    ensures
        ({
            let message = parse_client_frame(s, pos)->Message_0;
            let next = parse_client_frame(s, pos)->Message_1;
            &&& 0 <= pos < next <= s.len()
            &&& s.subrange(pos, next) == spec_serialize_client(message)
        }),
{
    lemma_auto_spec_u64_to_from_le_bytes();
    lemma_auto_spec_u32_to_from_le_bytes();
    let message = parse_client_frame(s, pos)->Message_0;
    let n = parse_len(s, pos).unwrap().0;
    let payload = s.subrange(pos + 8, pos + 8 + n);
    match message {
        ClientMessageView::Input(input) => {
        },
        ClientMessageView::Chat(text) => {
            let m = parse_len(payload, 1).unwrap().0;
            let bytes = payload.subrange(9, 9 + m as int);
            decode_utf8_encode_utf8(bytes);
        },
        ClientMessageView::Join => {
        },
        ClientMessageView::Observe => {
        },
    }
}

proof fn lemma_u32_at(s: Seq<u8>, pos: int, e: Seq<u8>, a: int, v: u32)
    requires
        0 <= pos,
        pos + e.len() <= s.len(),
        s.subrange(pos, pos + e.len()) == e,
        0 <= a,
        a + 4 <= e.len(),
        e.subrange(a, a + 4) == spec_u32(v),
    ensures
        u32_at(s, pos + a) == v,
{
    lemma_part(s, pos, e, a, a + 4);
    lemma_auto_spec_u32_to_from_le_bytes();
    assert(spec_u32(v).len() == 4);
}

proof fn lemma_vec3_at(s: Seq<u8>, pos: int, e: Seq<u8>, a: int, v: Vec3)
    requires
        0 <= pos,
        pos + e.len() <= s.len(),
        s.subrange(pos, pos + e.len()) == e,
        0 <= a,
        a + 12 <= e.len(),
        e.subrange(a, a + 12) == spec_vec3(v),
    ensures
        vec3_at(s, pos + a) == v,
{
    lemma_auto_spec_u32_to_from_le_bytes();
    let part = e.subrange(a, a + 12);
    assert(e.subrange(a, a + 4) =~= part.subrange(0, 4));
    assert(e.subrange(a + 4, a + 8) =~= part.subrange(4, 8));
    assert(e.subrange(a + 8, a + 12) =~= part.subrange(8, 12));
    assert(part.subrange(0, 4) =~= spec_u32(v.x));
    assert(part.subrange(4, 8) =~= spec_u32(v.y));
    assert(part.subrange(8, 12) =~= spec_u32(v.z));
    lemma_u32_at(s, pos, e, a, v.x);
    lemma_u32_at(s, pos, e, a + 4, v.y);
    lemma_u32_at(s, pos, e, a + 8, v.z);
}

proof fn lemma_quaternion_at(s: Seq<u8>, pos: int, e: Seq<u8>, a: int, q: Quaternion)
    requires
        0 <= pos,
        pos + e.len() <= s.len(),
        s.subrange(pos, pos + e.len()) == e,
        0 <= a,
        a + 16 <= e.len(),
        e.subrange(a, a + 16) == spec_quaternion(q),
    ensures
        quaternion_at(s, pos + a) == q,
{
    lemma_auto_spec_u32_to_from_le_bytes();
    let part = e.subrange(a, a + 16);
    assert(e.subrange(a, a + 4) =~= part.subrange(0, 4));
    assert(e.subrange(a + 4, a + 8) =~= part.subrange(4, 8));
    assert(e.subrange(a + 8, a + 12) =~= part.subrange(8, 12));
    assert(e.subrange(a + 12, a + 16) =~= part.subrange(12, 16));
    assert(part.subrange(0, 4) =~= spec_u32(q.i));
    assert(part.subrange(4, 8) =~= spec_u32(q.j));
    assert(part.subrange(8, 12) =~= spec_u32(q.k));
    assert(part.subrange(12, 16) =~= spec_u32(q.w));
    lemma_u32_at(s, pos, e, a, q.i);
    lemma_u32_at(s, pos, e, a + 4, q.j);
    lemma_u32_at(s, pos, e, a + 8, q.k);
    lemma_u32_at(s, pos, e, a + 12, q.w);
}

proof fn lemma_vec3_len(v: Vec3)
    ensures
        spec_vec3(v).len() == 12,
{
    lemma_auto_spec_u32_to_from_le_bytes();
}

proof fn lemma_u32_roundtrip(v: u32, s: Seq<u8>, pos: int)
    requires
        0 <= pos,
        pos + spec_u32(v).len() <= s.len(),
        s.subrange(pos, pos + spec_u32(v).len()) == spec_u32(v),
    ensures
        spec_u32(v).len() == 4,
        parse_u32(s, pos) == Some((v, pos + 4)),
{
    lemma_auto_spec_u32_to_from_le_bytes();
}

proof fn lemma_player_cycle_roundtrip(v: PlayerCycle, s: Seq<u8>, pos: int)
    requires
        0 <= pos,
        pos + spec_player_cycle(v).len() <= s.len(),
        s.subrange(pos, pos + spec_player_cycle(v).len()) == spec_player_cycle(v),
    ensures
        spec_player_cycle(v).len() == 8,
        parse_player_cycle(s, pos) == Some((v, pos + 8)),
{
    lemma_auto_spec_u32_to_from_le_bytes();
    let e = spec_player_cycle(v);
    assert(e.subrange(0, 4) =~= spec_u32(v.player_index));
    assert(e.subrange(4, 8) =~= spec_u32(v.cycle_index));
    lemma_u32_at(s, pos, e, 0, v.player_index);
    lemma_u32_at(s, pos, e, 4, v.cycle_index);
}

proof fn lemma_player_projectile_roundtrip(v: PlayerProjectile, s: Seq<u8>, pos: int)
    requires
        0 <= pos,
        pos + spec_player_projectile(v).len() <= s.len(),
        s.subrange(pos, pos + spec_player_projectile(v).len()) == spec_player_projectile(v),
    ensures
        spec_player_projectile(v).len() == 8,
        parse_player_projectile(s, pos) == Some((v, pos + 8)),
{
    lemma_auto_spec_u32_to_from_le_bytes();
    let e = spec_player_projectile(v);
    assert(e.subrange(0, 4) =~= spec_u32(v.player_index));
    assert(e.subrange(4, 8) =~= spec_u32(v.projectile_index));
    lemma_u32_at(s, pos, e, 0, v.player_index);
    lemma_u32_at(s, pos, e, 4, v.projectile_index);
}

proof fn lemma_cycle_physics_roundtrip(v: CyclePhysics, s: Seq<u8>, pos: int)
    requires
        0 <= pos,
        pos + spec_cycle_physics(v).len() <= s.len(),
        s.subrange(pos, pos + spec_cycle_physics(v).len()) == spec_cycle_physics(v),
    ensures
        spec_cycle_physics(v).len() == 44,
        parse_cycle_physics(s, pos) == Some((v, pos + 44)),
{
    lemma_auto_spec_u32_to_from_le_bytes();
    let e = spec_cycle_physics(v);
    assert(e.subrange(0, 4) =~= spec_u32(v.cycle_index));
    assert(e.subrange(4, 16) =~= spec_vec3(v.translation));
    assert(e.subrange(16, 32) =~= spec_quaternion(v.rotation));
    assert(e.subrange(32, 44) =~= spec_vec3(v.velocity));
    lemma_u32_at(s, pos, e, 0, v.cycle_index);
    lemma_vec3_at(s, pos, e, 4, v.translation);
    lemma_quaternion_at(s, pos, e, 16, v.rotation);
    lemma_vec3_at(s, pos, e, 32, v.velocity);
}

proof fn lemma_shape_roundtrip(v: Shape, s: Seq<u8>, pos: int)
    requires
        0 <= pos,
        pos + spec_shape(v).len() <= s.len(),
        s.subrange(pos, pos + spec_shape(v).len()) == spec_shape(v),
    ensures
        spec_shape(v).len() == (if v is Cross {
            13int
        } else {
            25int
        }),
        parse_shape(s, pos) == Some((v, pos + spec_shape(v).len())),
{
    let e = spec_shape(v);
    match v {
        Shape::Line { begin, end } => {
            lemma_vec3_len(begin);
            lemma_vec3_len(end);
            assert(s[pos + 0] == e[0]);
            assert(e.subrange(1, 13) =~= spec_vec3(begin));
            assert(e.subrange(13, 25) =~= spec_vec3(end));
            lemma_vec3_at(s, pos, e, 1, begin);
            lemma_vec3_at(s, pos, e, 13, end);
        },
        Shape::Arrow { begin, end } => {
            lemma_vec3_len(begin);
            lemma_vec3_len(end);
            assert(s[pos + 0] == e[0]);
            assert(e.subrange(1, 13) =~= spec_vec3(begin));
            assert(e.subrange(13, 25) =~= spec_vec3(end));
            lemma_vec3_at(s, pos, e, 1, begin);
            lemma_vec3_at(s, pos, e, 13, end);
        },
        Shape::Cross { point } => {
            lemma_vec3_len(point);
            assert(s[pos + 0] == e[0]);
            assert(e.subrange(1, 13) =~= spec_vec3(point));
            lemma_vec3_at(s, pos, e, 1, point);
        },
    }
}

proof fn lemma_debug_shape_roundtrip(v: DebugShape, s: Seq<u8>, pos: int)
    requires
        0 <= pos,
        pos + spec_debug_shape(v).len() <= s.len(),
        s.subrange(pos, pos + spec_debug_shape(v).len()) == spec_debug_shape(v),
    ensures
        spec_debug_shape(v).len() >= 21,
        parse_debug_shape(s, pos) == Some((v, pos + spec_debug_shape(v).len())),
{
    lemma_auto_spec_u32_to_from_le_bytes();
    let e = spec_debug_shape(v);
    let n = spec_shape(v.shape).len() as int;
    lemma_part(s, pos, e, 0, n);
    assert(e.subrange(0, n) =~= spec_shape(v.shape));
    lemma_shape_roundtrip(v.shape, s, pos);
    assert(e.subrange(n, n + 4) =~= spec_u32(v.time));
    lemma_u32_at(s, pos, e, n, v.time);
    assert(s[pos + (n + 4)] == e[n + 4]);
    assert(s[pos + (n + 5)] == e[n + 5]);
    assert(s[pos + (n + 6)] == e[n + 6]);
    assert(s[pos + (n + 7)] == e[n + 7]);
}

/// Items that are each read back are read back as a row.
proof fn lemma_items_roundtrip<T>(
    items: Seq<T>,
    encode: spec_fn(T) -> Seq<u8>,
    parse: spec_fn(Seq<u8>, int) -> Option<(T, int)>,
    s: Seq<u8>,
    pos: int,
)
    requires
        0 <= pos,
        pos + spec_items(items, encode).len() <= s.len(),
        s.subrange(pos, pos + spec_items(items, encode).len()) == spec_items(items, encode),
        forall|item: T, p: int|
            #![trigger parse(s, p), encode(item)]
            0 <= p && p + encode(item).len() <= s.len() && s.subrange(p, p + encode(item).len())
                == encode(item) ==> parse(s, p) == Some((item, p + encode(item).len())),
        forall|item: T| (#[trigger] encode(item)).len() >= 1,
    ensures
        spec_items(items, encode).len() >= items.len(),
        parse_items(s, pos, items.len(), parse) == Some(
            (items, pos + spec_items(items, encode).len()),
        ),
    decreases items.len(),
{
    if items.len() > 0 {
        let front = items.drop_last();
        let last = items.last();
        let e = spec_items(items, encode);
        let n = spec_items(front, encode).len() as int;
        lemma_part(s, pos, e, 0, n);
        lemma_part(s, pos, e, n, e.len() as int);
        assert(e.subrange(0, n) =~= spec_items(front, encode));
        assert(e.subrange(n, e.len() as int) =~= encode(last));
        lemma_items_roundtrip(front, encode, parse, s, pos);
    }
}

/// A list of items that are each read back is read back.
proof fn lemma_list_roundtrip<T>(
    items: Seq<T>,
    encode: spec_fn(T) -> Seq<u8>,
    parse: spec_fn(Seq<u8>, int) -> Option<(T, int)>,
    s: Seq<u8>,
    pos: int,
)
    requires
        0 <= pos,
        s.len() <= u64::MAX,
        pos + spec_list(items, encode).len() <= s.len(),
        s.subrange(pos, pos + spec_list(items, encode).len()) == spec_list(items, encode),
        forall|item: T, p: int|
            #![trigger parse(s, p), encode(item)]
            0 <= p && p + encode(item).len() <= s.len() && s.subrange(p, p + encode(item).len())
                == encode(item) ==> parse(s, p) == Some((item, p + encode(item).len())),
        forall|item: T| (#[trigger] encode(item)).len() >= 1,
    ensures
        parse_list(s, pos, parse) == Some((items, pos + spec_list(items, encode).len())),
{
    lemma_auto_spec_u64_to_from_le_bytes();
    let e = spec_list(items, encode);
    lemma_part(s, pos, e, 0, 8);
    lemma_part(s, pos, e, 8, e.len() as int);
    assert(e.subrange(0, 8) =~= spec_len(items.len()));
    assert(e.subrange(8, e.len() as int) =~= spec_items(items, encode));
    lemma_items_roundtrip(items, encode, parse, s, pos + 8);
}

proof fn lemma_u32_list_roundtrip(items: Seq<u32>, s: Seq<u8>, pos: int)
    requires
        0 <= pos,
        s.len() <= u64::MAX,
        pos + spec_list(items, |v: u32| spec_u32(v)).len() <= s.len(),
        s.subrange(pos, pos + spec_list(items, |v: u32| spec_u32(v)).len()) == spec_list(
            items,
            |v: u32| spec_u32(v),
        ),
    ensures
        parse_list(s, pos, |s: Seq<u8>, p: int| parse_u32(s, p)) == Some(
            (items, pos + spec_list(items, |v: u32| spec_u32(v)).len()),
        ),
{
    let encode = |v: u32| spec_u32(v);
    let parse = |s: Seq<u8>, p: int| parse_u32(s, p);
    lemma_auto_spec_u32_to_from_le_bytes();
    lemma_list_roundtrip(items, encode, parse, s, pos);
}

proof fn lemma_player_cycle_list_roundtrip(items: Seq<PlayerCycle>, s: Seq<u8>, pos: int)
    requires
        0 <= pos,
        s.len() <= u64::MAX,
        pos + spec_list(items, |v: PlayerCycle| spec_player_cycle(v)).len() <= s.len(),
        s.subrange(pos, pos + spec_list(items, |v: PlayerCycle| spec_player_cycle(v)).len())
            == spec_list(items, |v: PlayerCycle| spec_player_cycle(v)),
    ensures
        parse_list(s, pos, |s: Seq<u8>, p: int| parse_player_cycle(s, p)) == Some(
            (items, pos + spec_list(items, |v: PlayerCycle| spec_player_cycle(v)).len()),
        ),
{
    let encode = |v: PlayerCycle| spec_player_cycle(v);
    let parse = |s: Seq<u8>, p: int| parse_player_cycle(s, p);
    lemma_auto_spec_u32_to_from_le_bytes();
    assert forall|item: PlayerCycle, p: int|
        #![trigger parse(s, p), encode(item)]
        0 <= p && p + encode(item).len() <= s.len() && s.subrange(p, p + encode(item).len())
            == encode(item) implies parse(s, p) == Some((item, p + encode(item).len())) by {
        lemma_player_cycle_roundtrip(item, s, p);
    }
    lemma_list_roundtrip(items, encode, parse, s, pos);
}

proof fn lemma_player_projectile_list_roundtrip(items: Seq<PlayerProjectile>, s: Seq<u8>, pos: int)
    requires
        0 <= pos,
        s.len() <= u64::MAX,
        pos + spec_list(items, |v: PlayerProjectile| spec_player_projectile(v)).len() <= s.len(),
        s.subrange(
            pos,
            pos + spec_list(items, |v: PlayerProjectile| spec_player_projectile(v)).len(),
        ) == spec_list(items, |v: PlayerProjectile| spec_player_projectile(v)),
    ensures
        parse_list(s, pos, |s: Seq<u8>, p: int| parse_player_projectile(s, p)) == Some(
            (items, pos + spec_list(items, |v: PlayerProjectile| spec_player_projectile(v)).len()),
        ),
{
    let encode = |v: PlayerProjectile| spec_player_projectile(v);
    let parse = |s: Seq<u8>, p: int| parse_player_projectile(s, p);
    lemma_auto_spec_u32_to_from_le_bytes();
    assert forall|item: PlayerProjectile, p: int|
        #![trigger parse(s, p), encode(item)]
        0 <= p && p + encode(item).len() <= s.len() && s.subrange(p, p + encode(item).len())
            == encode(item) implies parse(s, p) == Some((item, p + encode(item).len())) by {
        lemma_player_projectile_roundtrip(item, s, p);
    }
    lemma_list_roundtrip(items, encode, parse, s, pos);
}

proof fn lemma_cycle_physics_list_roundtrip(items: Seq<CyclePhysics>, s: Seq<u8>, pos: int)
    requires
        0 <= pos,
        s.len() <= u64::MAX,
        pos + spec_list(items, |v: CyclePhysics| spec_cycle_physics(v)).len() <= s.len(),
        s.subrange(pos, pos + spec_list(items, |v: CyclePhysics| spec_cycle_physics(v)).len())
            == spec_list(items, |v: CyclePhysics| spec_cycle_physics(v)),
    ensures
        parse_list(s, pos, |s: Seq<u8>, p: int| parse_cycle_physics(s, p)) == Some(
            (items, pos + spec_list(items, |v: CyclePhysics| spec_cycle_physics(v)).len()),
        ),
{
    let encode = |v: CyclePhysics| spec_cycle_physics(v);
    let parse = |s: Seq<u8>, p: int| parse_cycle_physics(s, p);
    assert forall|item: CyclePhysics, p: int|
        #![trigger parse(s, p), encode(item)]
        0 <= p && p + encode(item).len() <= s.len() && s.subrange(p, p + encode(item).len())
            == encode(item) implies parse(s, p) == Some((item, p + encode(item).len())) by {
        lemma_cycle_physics_roundtrip(item, s, p);
    }
    assert forall|item: CyclePhysics| (#[trigger] encode(item)).len() >= 1 by {
        lemma_auto_spec_u32_to_from_le_bytes();
    }
    lemma_list_roundtrip(items, encode, parse, s, pos);
}

proof fn lemma_debug_shape_list_roundtrip(items: Seq<DebugShape>, s: Seq<u8>, pos: int)
    requires
        0 <= pos,
        s.len() <= u64::MAX,
        pos + spec_list(items, |v: DebugShape| spec_debug_shape(v)).len() <= s.len(),
        s.subrange(pos, pos + spec_list(items, |v: DebugShape| spec_debug_shape(v)).len())
            == spec_list(items, |v: DebugShape| spec_debug_shape(v)),
    ensures
        parse_list(s, pos, |s: Seq<u8>, p: int| parse_debug_shape(s, p)) == Some(
            (items, pos + spec_list(items, |v: DebugShape| spec_debug_shape(v)).len()),
        ),
{
    let encode = |v: DebugShape| spec_debug_shape(v);
    let parse = |s: Seq<u8>, p: int| parse_debug_shape(s, p);
    assert forall|item: DebugShape, p: int|
        #![trigger parse(s, p), encode(item)]
        0 <= p && p + encode(item).len() <= s.len() && s.subrange(p, p + encode(item).len())
            == encode(item) implies parse(s, p) == Some((item, p + encode(item).len())) by {
        lemma_debug_shape_roundtrip(item, s, p);
    }
    lemma_list_roundtrip(items, encode, parse, s, pos);
}

proof fn lemma_text_list_roundtrip(items: Seq<Seq<char>>, s: Seq<u8>, pos: int)
    requires
        0 <= pos,
        s.len() <= u64::MAX,
        pos + spec_list(items, |v: Seq<char>| spec_text(v)).len() <= s.len(),
        s.subrange(pos, pos + spec_list(items, |v: Seq<char>| spec_text(v)).len()) == spec_list(
            items,
            |v: Seq<char>| spec_text(v),
        ),
    ensures
        parse_list(s, pos, |s: Seq<u8>, p: int| parse_text(s, p)) == Some(
            (items, pos + spec_list(items, |v: Seq<char>| spec_text(v)).len()),
        ),
{
    let encode = |v: Seq<char>| spec_text(v);
    let parse = |s: Seq<u8>, p: int| parse_text(s, p);
    lemma_auto_spec_u64_to_from_le_bytes();
    assert forall|item: Seq<char>, p: int|
        #![trigger parse(s, p), encode(item)]
        0 <= p && p + encode(item).len() <= s.len() && s.subrange(p, p + encode(item).len())
            == encode(item) implies parse(s, p) == Some((item, p + encode(item).len())) by {
        lemma_text_roundtrip(item, s, p);
    }
    lemma_list_roundtrip(items, encode, parse, s, pos);
}

proof fn lemma_add_player_roundtrip(v: AddPlayerView, s: Seq<u8>, pos: int)
    requires
        0 <= pos,
        s.len() <= u64::MAX,
        pos + spec_add_player(v).len() <= s.len(),
        s.subrange(pos, pos + spec_add_player(v).len()) == spec_add_player(v),
    ensures
        parse_add_player(s, pos) == Some((v, pos + spec_add_player(v).len())),
{
    lemma_auto_spec_u32_to_from_le_bytes();
    let e = spec_add_player(v);
    let n = spec_text(v.name).len() as int;
    lemma_part(s, pos, e, 0, n);
    lemma_part(s, pos, e, n, n + 4);
    assert(e.subrange(0, n) =~= spec_text(v.name));
    assert(e.subrange(n, n + 4) =~= spec_u32(v.player_index));
    lemma_text_roundtrip(v.name, s, pos);
}

proof fn lemma_init_data_roundtrip(v: InitDataView, s: Seq<u8>, pos: int)
    requires
        0 <= pos,
        s.len() <= u64::MAX,
        pos + spec_init_data(v).len() <= s.len(),
        s.subrange(pos, pos + spec_init_data(v).len()) == spec_init_data(v),
    ensures
        parse_init_data(s, pos) == Some((v, pos + spec_init_data(v).len())),
{
    lemma_auto_spec_u32_to_from_le_bytes();
    let e = spec_init_data(v);
    let a = spec_list(v.player_indices, |v: u32| spec_u32(v));
    let c = spec_list(v.player_cycles, |pc: PlayerCycle| spec_player_cycle(pc));
    let d = spec_list(v.player_projectiles, |pp: PlayerProjectile| spec_player_projectile(pp));
    let n1 = a.len() as int;
    let n2 = n1 + 4;
    let n3 = n2 + c.len();
    let n4 = n3 + d.len();
    lemma_part(s, pos, e, 0, n1);
    lemma_part(s, pos, e, n1, n2);
    lemma_part(s, pos, e, n2, n3);
    lemma_part(s, pos, e, n3, n4);
    assert(e.subrange(0, n1) =~= a);
    assert(e.subrange(n1, n2) =~= spec_u32(v.local_player_index));
    assert(e.subrange(n2, n3) =~= c);
    assert(e.subrange(n3, n4) =~= d);
    lemma_u32_list_roundtrip(v.player_indices, s, pos);
    lemma_player_cycle_list_roundtrip(v.player_cycles, s, pos + n2);
    lemma_player_projectile_list_roundtrip(v.player_projectiles, s, pos + n3);
}

proof fn lemma_update_roundtrip(
    update_physics: Seq<CyclePhysics>,
    debug_texts: Seq<Seq<char>>,
    debug_shapes: Seq<DebugShape>,
    s: Seq<u8>,
    pos: int,
)
    requires
        0 <= pos,
        s.len() <= u64::MAX,
        ({
            let e = spec_list(update_physics, |cp: CyclePhysics| spec_cycle_physics(cp)) + spec_list(
                debug_texts,
                |text: Seq<char>| spec_text(text),
            ) + spec_list(debug_shapes, |d: DebugShape| spec_debug_shape(d));
            pos + e.len() <= s.len() && s.subrange(pos, pos + e.len()) == e
        }),
    ensures
        ({
            let e = spec_list(update_physics, |cp: CyclePhysics| spec_cycle_physics(cp)) + spec_list(
                debug_texts,
                |text: Seq<char>| spec_text(text),
            ) + spec_list(debug_shapes, |d: DebugShape| spec_debug_shape(d));
            parse_update(s, pos) == Some(
                (
                    ServerMessageView::Update { update_physics, debug_texts, debug_shapes },
                    pos + e.len(),
                ),
            )
        }),
{
    let a = spec_list(update_physics, |cp: CyclePhysics| spec_cycle_physics(cp));
    let b = spec_list(debug_texts, |text: Seq<char>| spec_text(text));
    let c = spec_list(debug_shapes, |d: DebugShape| spec_debug_shape(d));
    let e = a + b + c;
    let n1 = a.len() as int;
    let n2 = n1 + b.len();
    let n3 = n2 + c.len();
    lemma_part(s, pos, e, 0, n1);
    lemma_part(s, pos, e, n1, n2);
    lemma_part(s, pos, e, n2, n3);
    assert(e.subrange(0, n1) =~= a);
    assert(e.subrange(n1, n2) =~= b);
    assert(e.subrange(n2, n3) =~= c);
    lemma_cycle_physics_list_roundtrip(update_physics, s, pos);
    lemma_text_list_roundtrip(debug_texts, s, pos + n1);
    lemma_debug_shape_list_roundtrip(debug_shapes, s, pos + n2);
}

/// What the server writes is read back: where a stream of at most
/// `u64::MAX` bytes holds the payload of a message from the server, that
/// message is read, and the reading ends where the payload ends.
pub proof fn law_server_payload_roundtrip(message: ServerMessageView, s: Seq<u8>, pos: int)
    requires
        0 <= pos,
        s.len() <= u64::MAX,
        pos + spec_server_payload(message).len() <= s.len(),
        s.subrange(pos, pos + spec_server_payload(message).len()) == spec_server_payload(message),
    ensures
        parse_server_payload(s, pos) == Some((message, pos + spec_server_payload(message).len())),
{
    let e = spec_server_payload(message);
    lemma_part(s, pos, e, 1, e.len() as int);
    assert(s[pos + 0] == e[0]);
    match message {
        ServerMessageView::AddPlayer(add_player) => {
            assert(e.subrange(1, e.len() as int) =~= spec_add_player(add_player));
            lemma_add_player_roundtrip(add_player, s, pos + 1);
        },
        ServerMessageView::InitData(init_data) => {
            assert(e.subrange(1, e.len() as int) =~= spec_init_data(init_data));
            lemma_init_data_roundtrip(init_data, s, pos + 1);
        },
        ServerMessageView::SpawnCycle(player_cycle) => {
            assert(e.subrange(1, e.len() as int) =~= spec_player_cycle(player_cycle));
            lemma_player_cycle_roundtrip(player_cycle, s, pos + 1);
        },
        ServerMessageView::Join { player_index } => {
            assert(e.subrange(1, e.len() as int) =~= spec_u32(player_index));
            lemma_u32_roundtrip(player_index, s, pos + 1);
        },
        ServerMessageView::Observe { player_index } => {
            assert(e.subrange(1, e.len() as int) =~= spec_u32(player_index));
            lemma_u32_roundtrip(player_index, s, pos + 1);
        },
        ServerMessageView::RemovePlayer { player_index } => {
            assert(e.subrange(1, e.len() as int) =~= spec_u32(player_index));
            lemma_u32_roundtrip(player_index, s, pos + 1);
        },
        ServerMessageView::Update { update_physics, debug_texts, debug_shapes } => {
            let fields = spec_list(update_physics, |cp: CyclePhysics| spec_cycle_physics(cp))
                + spec_list(debug_texts, |text: Seq<char>| spec_text(text)) + spec_list(
                debug_shapes,
                |d: DebugShape| spec_debug_shape(d),
            );
            assert(e.subrange(1, e.len() as int) =~= fields);
            lemma_update_roundtrip(update_physics, debug_texts, debug_shapes, s, pos + 1);
        },
    }
}

/// What the server writes is read back, frame and all: where a stream
/// holds the frame of a message from the server, that message is read, and
/// the next frame begins where this one ends.
pub proof fn law_server_frame_roundtrip(message: ServerMessageView, s: Seq<u8>, pos: int)
    requires
        0 <= pos,
        spec_server_payload(message).len() <= u64::MAX,
        pos + spec_serialize(message).len() <= s.len(),
        s.subrange(pos, pos + spec_serialize(message).len()) == spec_serialize(message),
    ensures
        spec_serialize(message).len() == 8 + spec_server_payload(message).len(),
        parse_server_frame(s, pos) == Framed::Message(message, pos + spec_serialize(message).len()),
{
    lemma_auto_spec_u64_to_from_le_bytes();
    let payload = spec_server_payload(message);
    let e = spec_serialize(message);
    lemma_part(s, pos, e, 0, 8);
    lemma_part(s, pos, e, 8, e.len() as int);
    assert(e.subrange(0, 8) =~= spec_len(payload.len()));
    assert(e.subrange(8, e.len() as int) =~= payload);
    let within = s.subrange(pos + 8, pos + 8 + payload.len());
    assert(within.subrange(0, payload.len() as int) =~= within);
    law_server_payload_roundtrip(message, within, 0);
}

} // verus!
