//! Control protocol, domain registry and forwarding decisions of a reverse HTTP tunnel relay.

pub mod text;
pub mod tunnel;
pub mod codec;
pub mod registry;
pub mod config;
pub mod server;
pub mod client;
pub mod forward;
