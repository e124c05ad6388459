//! A two-tier publish/subscribe message router.
//!
//! Gateways hold live client sockets and route inbound events to local
//! subscribers; a central broker keeps the global directory of which gateway
//! is subscribed to which topic and fans published events out to them.

pub mod auth;
pub mod broker;
pub mod client;
pub mod codec;
pub mod config;
pub mod directory;
pub mod dispatcher;
pub mod error;
pub mod subscription_table;
pub mod target_info;
pub mod text;
pub mod time;
pub mod types;
pub mod ws;
