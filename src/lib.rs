//! Resolution of the originating client address of an HTTP request that
//! reached the service through reverse proxies, from the proxy headers
//! `X-Forwarded-For`, `X-Real-IP` and `Forwarded` and the transport peer.
//!
//! Every parser here is stated over a mathematical model of its input (a
//! sequence of characters) and proved to compute exactly that model.

pub mod text;
pub mod ip;
pub mod error;
pub mod identifier;
pub mod forwarded;
pub mod resolve;
