//! Decision logic of a transparent forwarding proxy: protocol sniffers that
//! learn a connection's destination from its first bytes, and a rule-chain
//! resolver that picks the upstream for it.

pub mod args;
pub mod chain;
pub mod config;
pub mod configurator;
pub mod http_proxy;
pub mod mc_proxy;
pub mod name_map;
pub mod server;
pub mod sniff;
pub mod text;
pub mod tls_proxy;
