use vstd::prelude::*;

verus! {

/// Number of payload bytes carried by one data chunk.
pub const DATA_PIECE_SIZE: usize = 1024;

/// Number of attempts made at each protocol step before giving up.
pub const MAX_RETRIES: usize = 10;

/// Milliseconds waited for a reply between two attempts.
pub const TTL_MILLIS: u64 = 20;

/// Number of long-lived workers on the server.
pub const THREAD_POOL_SIZE: usize = 30;


/// Size of the buffers that hold one datagram.
pub const BUFF_SIZE: usize = 4096;

} // verus!
