//! A minimal in-memory key-value server core speaking a Redis-compatible
//! wire protocol: the codec between the wire text and message trees, the
//! store with per-key expiration, the command dispatcher, and the
//! replica-side handshake state machine. The surrounding process (socket
//! handling, argument parsing) lives outside this library and feeds it
//! plain values.

pub mod text;
pub mod parser;
pub mod database;
pub mod commands;
pub mod handshake;
