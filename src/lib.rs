use vstd::prelude::*;

pub mod bitfield;
pub mod chunk_tracker;
pub mod handler;
pub mod ledger;
pub mod laws;
pub mod lengths;
pub mod live;
pub mod peers;
pub mod speed;
pub mod tracker;

verus! {

/// Timeouts for peer connections, in milliseconds.
#[derive(Clone, Copy, Debug, Default)]
pub struct TorrentStateOptions {
    pub peer_connect_timeout_ms: Option<u64>,
    pub peer_read_write_timeout_ms: Option<u64>,
}

} // verus!
