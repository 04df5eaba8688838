//! Core engine of a multi-room text chat service.
//!
//! Rooms serialize Join/Broadcast/Leave commands, keep a totally ordered
//! message log, fan messages out to bounded per-member outbound queues,
//! close themselves when their last member leaves, and hand the unflushed
//! tail of their log to a durable store on closure.  A registry resolves
//! room identifiers to live rooms with atomic create-or-attach, and a
//! reaper sweeps closed rooms and stale connection bookkeeping.

pub mod msg;
pub mod queue;
pub mod room;
pub mod laws;
pub mod registry;
pub mod conn;
pub mod reaper;
pub mod wire;
pub mod ui;
pub mod dto;
