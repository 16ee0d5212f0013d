//! Playback session lifecycle management for a network audio player.
//!
//! The crate holds the validated descriptor model, the preset store with
//! last-writer-wins merge semantics over a structured text resource, and
//! the playback session lifecycle manager with its broadcast cancellation
//! signal. File and network transport stay outside; the functions here
//! work on plain values and carry contracts for what they compute.

pub mod codec;
pub mod descriptor;
pub mod preset;
pub mod session;
