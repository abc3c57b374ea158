//! A small HTTP reverse proxy: request-header parsing, routing by `Host`
//! and path prefix, access control, round-robin backend choice, backend
//! health tracking and the per-connection decision machine.

pub mod bytes;
pub mod http;
pub mod routing;
pub mod config;
pub mod connection;
pub mod health;
