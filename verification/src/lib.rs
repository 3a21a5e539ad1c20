//! Port forwarding rules, their runtime registry, rotating per-entry logs
//! and the daemon's control decisions.

pub mod api;
pub mod clock;
pub mod config;
pub mod daemon;
pub mod error;
pub mod forwarder;
pub mod ids;
pub mod logger;
pub mod manager;
pub mod models;
pub mod paths;
pub mod server;
pub mod text;
