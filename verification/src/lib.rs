//! A small chat-bot core: phrase matching, per-user rate limiting, and the
//! event-dispatch decisions of an IRC-style chat client.
//!
//! The modules hold the pure, verified logic; the surrounding binary performs
//! the network I/O and feeds events in as plain values.

pub mod dispatch;
pub mod phrase;
pub mod pyramid;
pub mod rate;
pub mod text;
