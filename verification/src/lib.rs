//! The authoritative server of a multiplayer game of light cycles, as a
//! verified library.
//!
//! The server owns the game state and the registry of clients. In each tick
//! it accepts the connections that are waiting, takes in what the clients
//! have sent, has the scene simulate one fixed step, sends every client the
//! update, and prunes the clients that have failed. The transport and the
//! scene are reached through traits: nothing here opens a socket or steps a
//! body.
//!
//! - `arena`: the generational arena that players, cycles and clients live
//!   in, and the laws of its handles.
//! - `entities`, `game_state`: the players, their cycles, and the trait for
//!   the scene.
//! - `messages`, `codec`, `decode`: the messages, how they are written as
//!   frames, and how frames are read back.
//! - `net`, `clients`: the traits for the transport, and the registry of
//!   clients.
//! - `server`: the steps of a tick.
//! - `debug`, `colors`: soft assertions, log lines, and texts and shapes for
//!   the clients to draw.
//! - `cvars`, `console`: the console variables, and the console that reads
//!   and sets them.
pub mod arena;
pub mod clients;
pub mod codec;
pub mod colors;
pub mod console;
pub mod cvars;
pub mod debug;
pub mod decode;
pub mod entities;
pub mod game_state;
pub mod messages;
pub mod net;
pub mod server;
