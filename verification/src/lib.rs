//! Playback-control core for a remote-storage media player.
//!
//! The library models the logic of the player: percent-encoding of stream
//! paths, resolution of a remote file to a local mount or a served URL, the
//! lifecycle of the single file-serving helper process, the playback worker's
//! state machine with its event de-duplication, and the pure parsing helpers
//! for remote configuration and media filenames. All I/O — process spawning,
//! sockets, the native playback engine — lives outside, in thin callers that
//! feed plain values in and carry plain values out.

pub mod auth;
pub mod bytes;
pub mod config;
pub mod encode;
pub mod resolve;
pub mod scan;
pub mod session;
pub mod supervisor;
pub mod worker;
