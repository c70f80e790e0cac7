//! A peer-to-peer chat overlay node: the decisions of its event loop, its
//! peer-liveness tracking, its relay bootstrap logic and its host-facing
//! event stream, all specified and verified. The surrounding process — the
//! transport stack, the gossip, DHT and discovery protocols, and the
//! asynchronous loop that awaits them — performs the actions these functions
//! decide on and feeds their results back in as plain values.

pub mod commands;
pub mod config;
pub mod engine;
pub mod events;
pub mod laws;
pub mod multiaddr;
pub mod relay_role;
pub mod text;
pub mod tracker;
