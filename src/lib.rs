//! A small reliability protocol over datagrams: a wire codec for its
//! messages, chunk checksums, the sender and receiver state machines of one
//! transfer, and the registry of per-client channels.

pub mod constants;
pub mod varint;
pub mod integrity;
pub mod ztp;
pub mod sender;
pub mod receiver;
pub mod registry;
pub mod retry;
