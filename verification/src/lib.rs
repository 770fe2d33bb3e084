//! A lightweight API gateway core: a registry of backend endpoints keyed by
//! path, heartbeat expiry, round-robin selection and the routing decisions of
//! a reverse proxy, each with a machine-checked contract.

pub mod apis;
pub mod clock;
pub mod config;
pub mod expiry;
pub mod forwarder;
pub mod laws;
pub mod model;
pub mod monitor;
pub mod outside;
pub mod registry;
pub mod selector;
pub mod text;
