//! Beet: a TCP cache server's protocol, storage and configuration logic.

pub mod buffers;
pub mod text;
pub mod request;
pub mod storage;
pub mod engine;
pub mod server;
pub mod config;
