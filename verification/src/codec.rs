//! The wire format.
//!
//! A message travels as a frame: the length of its payload as a 64-bit
//! little-endian number, then the payload. A payload is a tag byte and the
//! fields of the message in order. Numbers are 32-bit little-endian, a flag
//! is one byte, a text is the length of its UTF-8 encoding as a 64-bit
//! little-endian number and then the encoding, and a list is its length as a
//! 64-bit little-endian number and then its items.
use crate::debug::{Color, DebugShape, Shape};
use crate::messages::{
    texts_view, AddPlayerView, ClientMessage, ClientMessageView, CyclePhysics, InitDataView, Input,
    PlayerCycle, PlayerProjectile, Quaternion, ServerMessage, ServerMessageView, Vec3,
};
use vstd::bytes::{spec_u32_to_le_bytes, spec_u64_to_le_bytes, u32_to_le_bytes, u64_to_le_bytes};
use vstd::prelude::*;
use vstd::utf8::encode_utf8;

verus! {

pub open spec fn spec_u32(v: u32) -> Seq<u8> {
    spec_u32_to_le_bytes(v)
}

pub open spec fn spec_len(n: nat) -> Seq<u8> {
    spec_u64_to_le_bytes(n as u64)
}

pub open spec fn spec_flag(b: bool) -> Seq<u8> {
    seq![if b { 1u8 } else { 0u8 }]
}

pub open spec fn spec_text(text: Seq<char>) -> Seq<u8> {
    spec_len(encode_utf8(text).len()) + encode_utf8(text)
}

pub open spec fn spec_vec3(v: Vec3) -> Seq<u8> {
    spec_u32(v.x) + spec_u32(v.y) + spec_u32(v.z)
}

pub open spec fn spec_quaternion(q: Quaternion) -> Seq<u8> {
    spec_u32(q.i) + spec_u32(q.j) + spec_u32(q.k) + spec_u32(q.w)
}

pub open spec fn spec_input(input: Input) -> Seq<u8> {
    spec_flag(input.forward) + spec_flag(input.backward) + spec_flag(input.left) + spec_flag(
        input.right,
    ) + spec_flag(input.brake) + spec_u32(input.yaw) + spec_u32(input.pitch)
}

pub open spec fn spec_player_cycle(pc: PlayerCycle) -> Seq<u8> {
    spec_u32(pc.player_index) + spec_u32(pc.cycle_index)
}

pub open spec fn spec_player_projectile(pp: PlayerProjectile) -> Seq<u8> {
    spec_u32(pp.player_index) + spec_u32(pp.projectile_index)
}

pub open spec fn spec_cycle_physics(cp: CyclePhysics) -> Seq<u8> {
    spec_u32(cp.cycle_index) + spec_vec3(cp.translation) + spec_quaternion(cp.rotation) + spec_vec3(
        cp.velocity,
    )
}

pub open spec fn spec_color(c: Color) -> Seq<u8> {
    seq![c.r, c.g, c.b, c.a]
}

pub open spec fn spec_shape(shape: Shape) -> Seq<u8> {
    match shape {
        Shape::Line { begin, end } => seq![0u8] + spec_vec3(begin) + spec_vec3(end),
        Shape::Arrow { begin, end } => seq![1u8] + spec_vec3(begin) + spec_vec3(end),
        Shape::Cross { point } => seq![2u8] + spec_vec3(point),
    }
}

pub open spec fn spec_debug_shape(d: DebugShape) -> Seq<u8> {
    spec_shape(d.shape) + spec_u32(d.time) + spec_color(d.color)
}

/// The encodings of the items, one after the other.
pub open spec fn spec_items<T>(items: Seq<T>, encode: spec_fn(T) -> Seq<u8>) -> Seq<u8>
    decreases items.len(),
{
    if items.len() == 0 {
        Seq::empty()
    } else {
        spec_items(items.drop_last(), encode) + encode(items.last())
    }
}

/// A list: its length, then its items.
pub open spec fn spec_list<T>(items: Seq<T>, encode: spec_fn(T) -> Seq<u8>) -> Seq<u8> {
    spec_len(items.len()) + spec_items(items, encode)
}

pub open spec fn spec_add_player(m: AddPlayerView) -> Seq<u8> {
    spec_text(m.name) + spec_u32(m.player_index)
}

pub open spec fn spec_init_data(m: InitDataView) -> Seq<u8> {
    spec_list(m.player_indices, |v: u32| spec_u32(v)) + spec_u32(m.local_player_index) + spec_list(
        m.player_cycles,
        |pc: PlayerCycle| spec_player_cycle(pc),
    ) + spec_list(m.player_projectiles, |pp: PlayerProjectile| spec_player_projectile(pp))
}

/// The payload of a message from the server: its tag, then its fields.
pub open spec fn spec_server_payload(m: ServerMessageView) -> Seq<u8> {
    match m {
        ServerMessageView::AddPlayer(add_player) => seq![0u8] + spec_add_player(add_player),
        ServerMessageView::InitData(init_data) => seq![1u8] + spec_init_data(init_data),
        ServerMessageView::SpawnCycle(player_cycle) => seq![2u8] + spec_player_cycle(player_cycle),
        ServerMessageView::Join { player_index } => seq![3u8] + spec_u32(player_index),
        ServerMessageView::Observe { player_index } => seq![4u8] + spec_u32(player_index),
        ServerMessageView::RemovePlayer { player_index } => seq![5u8] + spec_u32(player_index),
        ServerMessageView::Update { update_physics, debug_texts, debug_shapes } => seq![6u8]
            + spec_list(update_physics, |cp: CyclePhysics| spec_cycle_physics(cp)) + spec_list(
            debug_texts,
            |text: Seq<char>| spec_text(text),
        ) + spec_list(debug_shapes, |d: DebugShape| spec_debug_shape(d)),
    }
}

/// The payload of a message from a client: its tag, then its fields.
pub open spec fn spec_client_payload(m: ClientMessageView) -> Seq<u8> {
    match m {
        ClientMessageView::Input(input) => seq![0u8] + spec_input(input),
        ClientMessageView::Chat(text) => seq![1u8] + spec_text(text),
        ClientMessageView::Join => seq![2u8],
        ClientMessageView::Observe => seq![3u8],
    }
}

/// A frame: the length of the payload, then the payload.
pub open spec fn spec_frame(payload: Seq<u8>) -> Seq<u8> {
    spec_len(payload.len()) + payload
}

/// A message from the server as it travels.
pub open spec fn spec_serialize(m: ServerMessageView) -> Seq<u8> {
    spec_frame(spec_server_payload(m))
}

/// A message from a client as it travels.
pub open spec fn spec_serialize_client(m: ClientMessageView) -> Seq<u8> {
    spec_frame(spec_client_payload(m))
}

proof fn lemma_items_push<T>(items: Seq<T>, item: T, encode: spec_fn(T) -> Seq<u8>)
    ensures
        spec_items(items.push(item), encode) == spec_items(items, encode) + encode(item),
{
    assert(items.push(item).drop_last() =~= items);
}

fn put_bytes(out: &mut Vec<u8>, bytes: &[u8])
    ensures
        final(out)@ == old(out)@ + bytes@,
{
    let mut i: usize = 0;
    while i < bytes.len()
        invariant
            i <= bytes@.len(),
            out@ == old(out)@ + bytes@.take(i as int),
        decreases bytes@.len() - i,
    {
        out.push(bytes[i]);
        i = i + 1;
    }
}

fn put_u32(out: &mut Vec<u8>, v: u32)
    ensures
        final(out)@ == old(out)@ + spec_u32(v),
{
    let bytes = u32_to_le_bytes(v);
    put_bytes(out, bytes.as_slice());
}

fn put_len(out: &mut Vec<u8>, n: usize)
    ensures
        final(out)@ == old(out)@ + spec_len(n as nat),
{
    let bytes = u64_to_le_bytes(n as u64);
    put_bytes(out, bytes.as_slice());
}

fn put_flag(out: &mut Vec<u8>, b: bool)
    ensures
        final(out)@ == old(out)@ + spec_flag(b),
{
    out.push(if b { 1u8 } else { 0u8 });
}

fn put_text(out: &mut Vec<u8>, text: &str)
    ensures
        final(out)@ == old(out)@ + spec_text(text@),
{
    let bytes = text.as_bytes();
    put_len(out, bytes.len());
    put_bytes(out, bytes);
}

fn put_vec3(out: &mut Vec<u8>, v: Vec3)
    ensures
        final(out)@ == old(out)@ + spec_vec3(v),
{
    put_u32(out, v.x);
    put_u32(out, v.y);
    put_u32(out, v.z);
}

fn put_quaternion(out: &mut Vec<u8>, q: Quaternion)
    ensures
        final(out)@ == old(out)@ + spec_quaternion(q),
{
    put_u32(out, q.i);
    put_u32(out, q.j);
    put_u32(out, q.k);
    put_u32(out, q.w);
}

fn put_input(out: &mut Vec<u8>, input: Input)
    ensures
        final(out)@ == old(out)@ + spec_input(input),
{
    put_flag(out, input.forward);
    put_flag(out, input.backward);
    put_flag(out, input.left);
    put_flag(out, input.right);
    put_flag(out, input.brake);
    put_u32(out, input.yaw);
    put_u32(out, input.pitch);
}

fn put_player_cycle(out: &mut Vec<u8>, pc: PlayerCycle)
    ensures
        final(out)@ == old(out)@ + spec_player_cycle(pc),
{
    put_u32(out, pc.player_index);
    put_u32(out, pc.cycle_index);
}

fn put_player_projectile(out: &mut Vec<u8>, pp: PlayerProjectile)
    ensures
        final(out)@ == old(out)@ + spec_player_projectile(pp),
{
    put_u32(out, pp.player_index);
    put_u32(out, pp.projectile_index);
}

fn put_cycle_physics(out: &mut Vec<u8>, cp: CyclePhysics)
    ensures
        final(out)@ == old(out)@ + spec_cycle_physics(cp),
{
    put_u32(out, cp.cycle_index);
    put_vec3(out, cp.translation);
    put_quaternion(out, cp.rotation);
    put_vec3(out, cp.velocity);
}

fn put_color(out: &mut Vec<u8>, c: Color)
    ensures
        final(out)@ == old(out)@ + spec_color(c),
{
    out.push(c.r);
    out.push(c.g);
    out.push(c.b);
    out.push(c.a);
}

fn put_shape(out: &mut Vec<u8>, shape: Shape)
    ensures
        final(out)@ == old(out)@ + spec_shape(shape),
{
    match shape {
        Shape::Line { begin, end } => {
            out.push(0u8);
            put_vec3(out, begin);
            put_vec3(out, end);
        },
        Shape::Arrow { begin, end } => {
            out.push(1u8);
            put_vec3(out, begin);
            put_vec3(out, end);
        },
        Shape::Cross { point } => {
            out.push(2u8);
            put_vec3(out, point);
        },
    }
}

fn put_debug_shape(out: &mut Vec<u8>, d: DebugShape)
    ensures
        final(out)@ == old(out)@ + spec_debug_shape(d),
{
    put_shape(out, d.shape);
    put_u32(out, d.time);
    put_color(out, d.color);
}

fn put_u32_list(out: &mut Vec<u8>, items: &Vec<u32>)
    ensures
        final(out)@ == old(out)@ + spec_list(items@, |v: u32| spec_u32(v)),
{
    let ghost encode = |v: u32| spec_u32(v);
    put_len(out, items.len());
    let mut i: usize = 0;
    while i < items.len()
        invariant
            i <= items@.len(),
            encode == (|v: u32| spec_u32(v)),
            out@ == old(out)@ + spec_len(items@.len()) + spec_items(items@.take(i as int), encode),
        decreases items@.len() - i,
    {
        put_u32(out, items[i]);
        proof {
            lemma_items_push(items@.take(i as int), items@[i as int], encode);
            assert(items@.take(i + 1) =~= items@.take(i as int).push(items@[i as int]));
        }
        i = i + 1;
    }
    assert(items@.take(i as int) =~= items@);
}

fn put_player_cycle_list(out: &mut Vec<u8>, items: &Vec<PlayerCycle>)
    ensures
        final(out)@ == old(out)@ + spec_list(items@, |pc: PlayerCycle| spec_player_cycle(pc)),
{
    let ghost encode = |pc: PlayerCycle| spec_player_cycle(pc);
    put_len(out, items.len());
    let mut i: usize = 0;
    while i < items.len()
        invariant
            i <= items@.len(),
            encode == (|pc: PlayerCycle| spec_player_cycle(pc)),
            out@ == old(out)@ + spec_len(items@.len()) + spec_items(items@.take(i as int), encode),
        decreases items@.len() - i,
    {
        put_player_cycle(out, items[i]);
        proof {
            lemma_items_push(items@.take(i as int), items@[i as int], encode);
            assert(items@.take(i + 1) =~= items@.take(i as int).push(items@[i as int]));
        }
        i = i + 1;
    }
    assert(items@.take(i as int) =~= items@);
}

fn put_player_projectile_list(out: &mut Vec<u8>, items: &Vec<PlayerProjectile>)
    ensures
        final(out)@ == old(out)@ + spec_list(
            items@,
            |pp: PlayerProjectile| spec_player_projectile(pp),
        ),
{
    let ghost encode = |pp: PlayerProjectile| spec_player_projectile(pp);
    put_len(out, items.len());
    let mut i: usize = 0;
    while i < items.len()
        invariant
            i <= items@.len(),
            encode == (|pp: PlayerProjectile| spec_player_projectile(pp)),
            out@ == old(out)@ + spec_len(items@.len()) + spec_items(items@.take(i as int), encode),
        decreases items@.len() - i,
    {
        put_player_projectile(out, items[i]);
        proof {
            lemma_items_push(items@.take(i as int), items@[i as int], encode);
            assert(items@.take(i + 1) =~= items@.take(i as int).push(items@[i as int]));
        }
        i = i + 1;
    }
    assert(items@.take(i as int) =~= items@);
}

fn put_cycle_physics_list(out: &mut Vec<u8>, items: &Vec<CyclePhysics>)
    ensures
        final(out)@ == old(out)@ + spec_list(items@, |cp: CyclePhysics| spec_cycle_physics(cp)),
{
    let ghost encode = |cp: CyclePhysics| spec_cycle_physics(cp);
    put_len(out, items.len());
    let mut i: usize = 0;
    while i < items.len()
        invariant
            i <= items@.len(),
            encode == (|cp: CyclePhysics| spec_cycle_physics(cp)),
            out@ == old(out)@ + spec_len(items@.len()) + spec_items(items@.take(i as int), encode),
        decreases items@.len() - i,
    {
        put_cycle_physics(out, items[i]);
        proof {
            lemma_items_push(items@.take(i as int), items@[i as int], encode);
            assert(items@.take(i + 1) =~= items@.take(i as int).push(items@[i as int]));
        }
        i = i + 1;
    }
    assert(items@.take(i as int) =~= items@);
}

fn put_debug_shape_list(out: &mut Vec<u8>, items: &Vec<DebugShape>)
    ensures
        final(out)@ == old(out)@ + spec_list(items@, |d: DebugShape| spec_debug_shape(d)),
{
    let ghost encode = |d: DebugShape| spec_debug_shape(d);
    put_len(out, items.len());
    let mut i: usize = 0;
    while i < items.len()
        invariant
            i <= items@.len(),
            encode == (|d: DebugShape| spec_debug_shape(d)),
            out@ == old(out)@ + spec_len(items@.len()) + spec_items(items@.take(i as int), encode),
        decreases items@.len() - i,
    {
        put_debug_shape(out, items[i]);
        proof {
            lemma_items_push(items@.take(i as int), items@[i as int], encode);
            assert(items@.take(i + 1) =~= items@.take(i as int).push(items@[i as int]));
        }
        i = i + 1;
    }
    assert(items@.take(i as int) =~= items@);
}

fn put_text_list(out: &mut Vec<u8>, items: &Vec<String>)
    ensures
        final(out)@ == old(out)@ + spec_list(texts_view(items@), |text: Seq<char>| spec_text(text)),
{
    let ghost encode = |text: Seq<char>| spec_text(text);
    let ghost texts = texts_view(items@);
    put_len(out, items.len());
    let mut i: usize = 0;
    while i < items.len()
        invariant
            i <= items@.len(),
            encode == (|text: Seq<char>| spec_text(text)),
            texts == texts_view(items@),
            out@ == old(out)@ + spec_len(items@.len()) + spec_items(texts.take(i as int), encode),
        decreases items@.len() - i,
    {
        put_text(out, items[i].as_str());
        proof {
            lemma_items_push(texts.take(i as int), texts[i as int], encode);
            assert(texts.take(i + 1) =~= texts.take(i as int).push(texts[i as int]));
        }
        i = i + 1;
    }
    assert(texts.take(i as int) =~= texts);
}

fn frame(payload: &Vec<u8>) -> (bytes: Vec<u8>)
    ensures
        bytes@ == spec_frame(payload@),
{
    let mut bytes: Vec<u8> = Vec::new();
    put_len(&mut bytes, payload.len());
    put_bytes(&mut bytes, payload.as_slice());
    bytes
}

/// Serializes a message from the server.
pub fn serialize(message: &ServerMessage) -> (bytes: Vec<u8>)
    ensures
        bytes@ == spec_serialize(message@),
{
    let mut payload: Vec<u8> = Vec::new();
    match message {
        ServerMessage::AddPlayer(add_player) => {
            payload.push(0u8);
            put_text(&mut payload, add_player.name.as_str());
            put_u32(&mut payload, add_player.player_index);
        },
        ServerMessage::InitData(init_data) => {
            payload.push(1u8);
            put_u32_list(&mut payload, &init_data.player_indices);
            put_u32(&mut payload, init_data.local_player_index);
            put_player_cycle_list(&mut payload, &init_data.player_cycles);
            put_player_projectile_list(&mut payload, &init_data.player_projectiles);
        },
        ServerMessage::SpawnCycle(player_cycle) => {
            payload.push(2u8);
            put_player_cycle(&mut payload, *player_cycle);
        },
        ServerMessage::Join { player_index } => {
            payload.push(3u8);
            put_u32(&mut payload, *player_index);
        },
        ServerMessage::Observe { player_index } => {
            payload.push(4u8);
            put_u32(&mut payload, *player_index);
        },
        ServerMessage::RemovePlayer { player_index } => {
            payload.push(5u8);
            put_u32(&mut payload, *player_index);
        },
        ServerMessage::Update { update_physics, debug_texts, debug_shapes } => {
            payload.push(6u8);
            put_cycle_physics_list(&mut payload, &update_physics.cycle_physics);
            put_text_list(&mut payload, debug_texts);
            put_debug_shape_list(&mut payload, debug_shapes);
        },
    }
    frame(&payload)
}

/// Serializes a message from a client.
pub fn serialize_client_message(message: &ClientMessage) -> (bytes: Vec<u8>)
    ensures
        bytes@ == spec_serialize_client(message@),
{
    let mut payload: Vec<u8> = Vec::new();
    match message {
        ClientMessage::Input(input) => {
            payload.push(0u8);
            put_input(&mut payload, *input);
        },
        ClientMessage::Chat(text) => {
            payload.push(1u8);
            put_text(&mut payload, text.as_str());
        },
        ClientMessage::Join => {
            payload.push(2u8);
        },
        ClientMessage::Observe => {
            payload.push(3u8);
        },
    }
    frame(&payload)
}

} // verus!
