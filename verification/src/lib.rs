//! Routing of a physical microphone and a playing application into one
//! virtual PipeWire microphone: reading `pw-dump` objects, matching ports by
//! channel, and deciding each round of the routing loop.
pub mod channel;
pub mod config;
pub mod dump;
pub mod links;
pub mod plan;
pub mod text;
