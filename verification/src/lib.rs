//! Core of a multi-room chat server: the hub router, the per-room state
//! with its bounded history ring, the wire codec, the buffer pool, and the
//! per-connection protocol driver. The surrounding transport (WebSocket
//! framing, task plumbing, terminal clients) lives outside this crate.

pub mod codec;
pub mod config;
pub mod conn;
pub mod hub;
pub mod memory_pool;
pub mod protocol;
pub mod room;
