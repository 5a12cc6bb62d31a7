//! A verified relay and session-coordination layer for a networked
//! turn-based board game.
//!
//! Clients exchange fixed-size frames over a byte transport; each frame
//! carries a UTF-8 command payload. The library provides the framing
//! codec, the command grammar, the per-connection reader decisions, and
//! the coordinator that applies commands to the shared game through an
//! external rules engine and decides which connections receive each
//! reply. All transport I/O lives outside the library.

pub mod command;
pub mod coordinator;
pub mod engine;
pub mod frame;
pub mod reader;
