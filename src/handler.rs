use vstd::prelude::*;

use crate::bitfield::{bit_at, bits_from_bytes, has_bit};
use crate::chunk_tracker::{all_set, ChunkTracker};
use crate::ledger::{elapsed, InflightPiece};
use crate::lengths::ChunkInfo;
use crate::live::{LiveError, TorrentStateLive};
use crate::peers::{entry_full, Id20, InflightRequest, PeerAddr, PeerState, PeerStateError, PeerStateKind};

verus! {

/// Errors that end a peer's connection.
#[derive(Clone, Copy, Debug, PartialEq, Eq, Structural)]
pub enum PeerError {
    /// A request that names no chunk of the torrent.
    InvalidRequest,
    /// A request for a chunk of a piece we do not have.
    ChunkNotReady,
    /// A piece message that names no chunk of the torrent.
    InvalidPiece,
    /// A piece message for a chunk we did not request from this peer.
    UnsolicitedPiece,
    /// A bitfield whose length is not one bit per piece, rounded up to bytes.
    BitfieldSize,
    /// The peer is not in the table, or not live.
    PeerNotLive,
    /// The chunk tracker is gone: the session was paused.
    Paused,
}

/// What to tell a peer after its bitfield arrived.
#[derive(Clone, Copy, Debug, PartialEq, Eq, Structural)]
pub enum BitfieldOutcome {
    /// It has a piece we need: start requesting.
    Interested,
    /// Send `Unchoke` and `NotInterested`; disconnect too when `disconnect`.
    NotInterested { disconnect: bool },
}

/// What to do with a chunk that a peer sent.
#[derive(Clone, Copy, Debug, PartialEq, Eq, Structural)]
pub enum PieceReceived {
    /// Write it; its piece still misses chunks.
    Write,
    /// Write it, then check the whole piece, whose download took `elapsed_ms`.
    WriteAndCheck { elapsed_ms: u64 },
    /// Drop it: the piece is now reserved for another peer.
    Stolen,
    /// Drop it: the piece is no longer reserved.
    NotReserved,
    /// Drop it: every chunk of the piece had arrived before.
    PreviouslyCompleted,
}

/// What a piece check led to.
pub enum PieceChecked {
    /// The piece is ours. Send `Have` to `have_to`; when `finished`, the torrent
    /// is complete and the peers in `disconnect` are to be disconnected.
    Verified { finished: bool, disconnect: Vec<PeerAddr>, have_to: Vec<PeerAddr> },
    /// The piece failed its check and is needed again.
    Broken,
}

/// What became of a peer whose task ended.
#[derive(Clone, Copy, Debug, PartialEq, Eq, Structural)]
pub enum PeerDeath {
    /// The peer was not in the table.
    NotFound,
    /// The peer was already not needed and stays so.
    WasNotNeeded,
    /// The peer was queued or dead, which a running task cannot be: it is forgotten.
    WrongStateDropped,
    /// The peer is now not needed.
    NotNeeded,
    /// The peer is now dead; queue it again after `delay_ms`.
    Requeue { delay_ms: u64 },
    /// The peer's backoff is exhausted: it is forgotten.
    BackoffExhausted,
}

/// State that only a peer's own task uses.
pub struct PeerHandlerLocked {
    pub i_am_choked: bool,
    /// Pieces already requested from this peer since its last bitfield.
    pub previously_requested_pieces: Vec<bool>,
    /// Requests that may still be sent.
    pub request_permits: u64,
}

/// Permits granted by each `Unchoke`.
pub const UNCHOKE_PERMITS: u64 = 16;

/// Pieces that must have been checked before the average piece time is used.
pub const STEAL_MIN_PIECES: u64 = 20;

impl PeerHandlerLocked {
    /// A peer that just connected: choked, nothing requested, no permits.
    pub fn new() -> (r: PeerHandlerLocked)
        ensures
            r.i_am_choked,
            r.previously_requested_pieces@.len() == 0,
            r.request_permits == 0,
    {
        PeerHandlerLocked { i_am_choked: true, previously_requested_pieces: Vec::new(), request_permits: 0 }
    }

    pub fn on_i_am_choked(&mut self)
        ensures
            final(self).i_am_choked,
            final(self).previously_requested_pieces == old(self).previously_requested_pieces,
            final(self).request_permits == old(self).request_permits,
    {
        self.i_am_choked = true;
    }

    /// Unchoked: requests may go out, with 16 more permits.
    pub fn on_i_am_unchoked(&mut self)
        ensures
            !final(self).i_am_choked,
            final(self).previously_requested_pieces == old(self).previously_requested_pieces,
            final(self).request_permits == if old(self).request_permits + UNCHOKE_PERMITS <= u64::MAX {
                (old(self).request_permits + UNCHOKE_PERMITS) as u64
            } else {
                u64::MAX
            },
    {
        self.i_am_choked = false;
        self.request_permits = self.request_permits.saturating_add(UNCHOKE_PERMITS);
    }

    /// A chunk arrived: one more permit.
    pub fn on_chunk_received(&mut self)
        ensures
            final(self).i_am_choked == old(self).i_am_choked,
            final(self).previously_requested_pieces == old(self).previously_requested_pieces,
            final(self).request_permits == if old(self).request_permits < u64::MAX {
                (old(self).request_permits + 1) as u64
            } else {
                u64::MAX
            },
    {
        self.request_permits = self.request_permits.saturating_add(1);
    }

    /// Takes one permit to send a request, if any is left.
    pub fn try_acquire_request_permit(&mut self) -> (r: bool)
        ensures
            r == (old(self).request_permits > 0),
            final(self).request_permits == if r { (old(self).request_permits - 1) as u64 } else { 0 },
            final(self).i_am_choked == old(self).i_am_choked,
            final(self).previously_requested_pieces == old(self).previously_requested_pieces,
    {
        if self.request_permits > 0 {
            self.request_permits = self.request_permits - 1;
            true
        } else {
            false
        }
    }

    /// Marks piece `index` as requested from this peer.
    pub fn mark_requested(&mut self, index: u32)
        ensures
            final(self).i_am_choked == old(self).i_am_choked,
            final(self).request_permits == old(self).request_permits,
            final(self).previously_requested_pieces@ == if index < old(self).previously_requested_pieces@.len() {
                old(self).previously_requested_pieces@.update(index as int, true)
            } else {
                old(self).previously_requested_pieces@
            },
    {
        if (index as usize) < self.previously_requested_pieces.len() {
            self.previously_requested_pieces.set(index as usize, true);
        }
    }
}

/// `a + b` modulo 2^64.
pub open spec fn wadd(a: u64, b: u64) -> u64 {
    if a + b > u64::MAX {
        (a + b - u64::MAX - 1) as u64
    } else {
        (a + b) as u64
    }
}

/// The request for chunk `c` of piece `p`.
pub open spec fn req_of(p: u32, c: int) -> InflightRequest {
    InflightRequest { piece: p, chunk: c as u32 }
}

/// The needed flags after abandoning the requests `reqs`: each piece they
/// name is needed again, unless we have it or all its chunks are done.
pub open spec fn cancel_effect(t: ChunkTracker, reqs: Seq<InflightRequest>) -> Seq<bool> {
    Seq::new(
        t.needed@.len(),
        |p: int|
            t.needed@[p] || (!t.have@[p] && !all_set(t.chunks_of(p)) && exists|j: int|
                0 <= j < reqs.len() && reqs[j].piece == p),
    )
}

/// Abandons each request of `reqs`.
pub fn cancel_requests(t: &mut ChunkTracker, reqs: &Vec<InflightRequest>)
    requires
        old(t).wf(),
    ensures
        final(t).wf(),
        final(t).lengths == old(t).lengths,
        final(t).have@ == old(t).have@,
        final(t).chunk_status@ == old(t).chunk_status@,
        final(t).needed@ == cancel_effect(*old(t), reqs@),
{
    let ghost t0 = *t;
    let n = t.lengths.total_pieces;
    let mut j: usize = 0;
    assert(t.needed@ =~= cancel_effect(t0, reqs@.subrange(0, 0)));
    while j < reqs.len()
        invariant
            t.wf(),
            n == t.lengths.total_pieces,
            t.lengths == t0.lengths,
            t.have@ == t0.have@,
            t.chunk_status@ == t0.chunk_status@,
            j <= reqs@.len(),
            t.needed@ == cancel_effect(t0, reqs@.subrange(0, j as int)),
        decreases reqs@.len() - j,
    {
        let req = reqs[j];
        let ghost before = t.needed@;
        if req.piece < n {
            t.mark_chunk_request_cancelled(req.piece, req.chunk);
        }
        proof {
            let a = reqs@.subrange(0, j as int);
            let b = reqs@.subrange(0, j + 1);
            assert forall|p: int| 0 <= p < t.needed@.len() implies t.needed@[p] == cancel_effect(t0, b)[p] by {
                assert(t0.chunks_of(p) == t.chunks_of(p));
                if exists|k: int| 0 <= k < b.len() && b[k].piece == p {
                    let k = choose|k: int| 0 <= k < b.len() && b[k].piece == p;
                    if k < j {
                        assert(a[k].piece == p);
                    }
                }
                if exists|k: int| 0 <= k < a.len() && a[k].piece == p {
                    let k = choose|k: int| 0 <= k < a.len() && a[k].piece == p;
                    assert(b[k].piece == p);
                }
                if req.piece == p {
                    assert(b[j as int].piece == p);
                }
            }
            assert(t.needed@ =~= cancel_effect(t0, b));
        }
        j = j + 1;
    }
    assert(reqs@.subrange(0, reqs@.len() as int) =~= reqs@);
}

impl TorrentStateLive {
    /// Whether the live peer at `addr` has a piece that we need.
    pub open spec fn peer_has_needed(&self, addr: PeerAddr) -> bool {
        &&& self.locked.chunks is Some
        &&& self.peers.live(addr) is Some
        &&& exists|p: int|
            0 <= p < self.lengths.total_pieces && self.locked.chunks->0.is_needed(p) && has_bit(
                self.peers.live(addr)->0.bitfield@,
                p,
            )
    }

    /// The peer's task starts: `Queued` to `Connecting`, one more attempt counted.
    pub fn start_managing_peer(&mut self, addr: PeerAddr) -> (r: Result<(), PeerStateError>)
        requires
            old(self).wf(),
        ensures
            final(self).wf(),
            final(self).locked == old(self).locked,
            final(self).stats == old(self).stats,
            final(self).active_peer_tasks == old(self).active_peer_tasks,
            r == if !old(self).peers.has(addr) {
                Err::<(), PeerStateError>(PeerStateError::NotFound)
            } else if old(self).peers.kind(addr) != PeerStateKind::Queued {
                Err(PeerStateError::WrongState(old(self).peers.kind(addr)))
            } else {
                Ok(())
            },
            r is Ok ==> final(self).peers.has(addr) && final(self).peers.kind(addr) == PeerStateKind::Connecting
                && final(self).peers.entry(addr).counters == (crate::peers::PeerCounters {
                    connection_attempts: wadd(old(self).peers.entry(addr).counters.connection_attempts, 1),
                    ..old(self).peers.entry(addr).counters
                }),
            r is Err ==> final(self).peers.entries@ == old(self).peers.entries@,
    {
        let r = self.peers.mark_peer_connecting(addr);
        if r.is_ok() {
            proof {
                let j = old(self).peers.index_of(addr)->0;
                assert(self.peers.entries@[j].addr == addr);
                self.peers.lemma_index(j);
            }
            match self.peers.find(addr) {
                Some(i) => {
                    let mut c = self.peers.entries[i].counters;
                    c.connection_attempts = c.connection_attempts.wrapping_add(1);
                    self.peers.set_counters(i, c);
                    proof {
                        assert(self.peers.entries@[i as int].addr == addr);
                        self.peers.lemma_index(i as int);
                    }
                },
                None => {},
            }
        }
        r
    }

    /// The connection is up after `connection_time_ms`.
    pub fn on_connected(&mut self, addr: PeerAddr, connection_time_ms: u64)
        requires
            old(self).wf(),
        ensures
            final(self).wf(),
            final(self).locked == old(self).locked,
            final(self).stats == old(self).stats,
            final(self).active_peer_tasks == old(self).active_peer_tasks,
            final(self).peers.entries@.len() == old(self).peers.entries@.len(),
            !old(self).peers.has(addr) ==> final(self).peers.entries@ == old(self).peers.entries@,
            old(self).peers.has(addr) ==> final(self).peers.has(addr) && final(self).peers.entry(addr) == (crate::peers::PeerEntry {
                counters: crate::peers::PeerCounters {
                    connections: wadd(old(self).peers.entry(addr).counters.connections, 1),
                    total_time_connecting_ms: wadd(old(self).peers.entry(addr).counters.total_time_connecting_ms, connection_time_ms),
                    ..old(self).peers.entry(addr).counters
                },
                ..old(self).peers.entry(addr)
            }),
    {
        if let Some(i) = self.peers.find(addr) {
            let mut c = self.peers.entries[i].counters;
            c.connections = c.connections.wrapping_add(1);
            c.total_time_connecting_ms = c.total_time_connecting_ms.wrapping_add(connection_time_ms);
            self.peers.set_counters(i, c);
            proof {
                self.peers.lemma_index(i as int);
            }
        }
    }

    /// The handshake arrived: the peer goes live.
    pub fn on_handshake(&mut self, addr: PeerAddr, peer_id: Id20) -> (r: bool)
        requires
            old(self).wf(),
        ensures
            final(self).wf(),
            final(self).locked == old(self).locked,
            final(self).stats == old(self).stats,
            final(self).active_peer_tasks == old(self).active_peer_tasks,
            r == (old(self).peers.has(addr) && old(self).peers.kind(addr) == PeerStateKind::Connecting),
            !r ==> final(self).peers.entries@ == old(self).peers.entries@,
            r ==> final(self).peers.live(addr) is Some && final(self).peers.live(addr)->0.bitfield@.len() == 0
                && final(self).peers.live(addr)->0.inflight_requests@.len() == 0
                && final(self).peers.live(addr)->0.peer_id == peer_id
                && !final(self).peers.live(addr)->0.peer_interested,
    {
        let r = self.peers.connecting_to_live(addr, peer_id);
        proof {
            if r {
                self.peers.lemma_index(old(self).peers.index_of(addr)->0);
            }
        }
        r
    }

    /// Bytes sent to some peer.
    pub fn on_uploaded_bytes(&mut self, bytes: u32)
        requires
            old(self).wf(),
        ensures
            final(self).wf(),
            final(self).stats == (crate::live::SessionStats { uploaded_bytes: wadd(old(self).stats.uploaded_bytes, bytes as u64), ..old(self).stats }),
            final(self).locked == old(self).locked,
            final(self).peers.entries@ == old(self).peers.entries@,
            final(self).active_peer_tasks == old(self).active_peer_tasks,
    {
        self.stats.uploaded_bytes = self.stats.uploaded_bytes.wrapping_add(bytes as u64);
    }

    /// The peer said it is interested in our pieces.
    pub fn on_peer_interested(&mut self, addr: PeerAddr)
        requires
            old(self).wf(),
        ensures
            final(self).wf(),
            final(self).locked == old(self).locked,
            final(self).stats == old(self).stats,
            final(self).active_peer_tasks == old(self).active_peer_tasks,
            old(self).peers.live(addr) is Some ==> final(self).peers.live(addr) is Some
                && final(self).peers.live(addr)->0.peer_interested,
            old(self).peers.live(addr) is None ==> final(self).peers.entries@ == old(self).peers.entries@,
    {
        let r = self.peers.mark_peer_interested(addr, true);
        proof {
            if r {
                self.peers.lemma_index(old(self).peers.index_of(addr)->0);
            }
        }
    }

    /// The peer has piece `index`; indices past its bitfield are ignored.
    pub fn on_have(&mut self, addr: PeerAddr, index: u32)
        requires
            old(self).wf(),
        ensures
            final(self).wf(),
            final(self).locked == old(self).locked,
            final(self).stats == old(self).stats,
            final(self).active_peer_tasks == old(self).active_peer_tasks,
            old(self).peers.live(addr) is None ==> final(self).peers.entries@ == old(self).peers.entries@,
            old(self).peers.live(addr) is Some ==> {
                let l = old(self).peers.live(addr)->0;
                let bf = if l.bitfield@.len() == 0 {
                    Seq::new(old(self).lengths.total_pieces as nat, |i: int| false)
                } else {
                    l.bitfield@
                };
                &&& final(self).peers.live(addr) is Some
                &&& final(self).peers.live(addr)->0.bitfield@ == if index < bf.len() {
                    bf.update(index as int, true)
                } else {
                    bf
                }
                &&& final(self).peers.entries@ == old(self).peers.with_state(
                    old(self).peers.index_of(addr)->0,
                    PeerState::Live(crate::peers::LivePeerData { bitfield: final(self).peers.live(addr)->0.bitfield, ..l }),
                )
            },
    {
        let r = self.peers.on_have(addr, index, self.lengths.total_pieces);
        proof {
            if r {
                self.peers.lemma_index(old(self).peers.index_of(addr)->0);
                let l = old(self).peers.live(addr)->0;
                if l.bitfield@.len() != 0 && index < self.lengths.total_pieces && index >= l.bitfield@.len() {
                }
            }
        }
    }

    /// The lowest needed piece that the live peer at `addr` has.
    pub fn get_next_needed_piece(&self, addr: PeerAddr) -> (r: Result<Option<u32>, PeerError>)
        requires
            self.wf(),
        ensures
            self.peers.live(addr) is None ==> r == Ok::<Option<u32>, PeerError>(None),
            self.peers.live(addr) is Some && self.locked.chunks is None ==> r == Err::<Option<u32>, PeerError>(PeerError::Paused),
            self.peers.live(addr) is Some && self.locked.chunks is Some ==> r is Ok,
            r matches Ok(Some(p)) ==> p < self.lengths.total_pieces && self.locked.chunks->0.is_needed(p as int)
                && has_bit(self.peers.live(addr)->0.bitfield@, p as int)
                && forall|q: int| 0 <= q < p ==> !(self.locked.chunks->0.is_needed(q) && has_bit(self.peers.live(addr)->0.bitfield@, q)),
            (r matches Ok(Some(_))) <==> self.peer_has_needed(addr),
    {
        match self.peers.live_index(addr) {
            None => Ok(None),
            Some(i) => {
                let t = match &self.locked.chunks {
                    None => return Err(PeerError::Paused),
                    Some(t) => t,
                };
                match &self.peers.entries[i].state {
                    crate::peers::PeerState::Live(l) => Ok(t.first_needed_in(&l.bitfield)),
                    _ => {
                        proof {
                            assert(false);
                        }
                        Ok(None)
                    },
                }
            },
        }
    }

    pub fn am_i_interested_in_peer(&self, addr: PeerAddr) -> (r: bool)
        requires
            self.wf(),
        ensures
            r == self.peer_has_needed(addr),
    {
        match self.get_next_needed_piece(addr) {
            Ok(Some(_)) => true,
            _ => false,
        }
    }

    /// A bitfield arrived. It must hold one bit per piece, rounded up to
    /// whole bytes. It is stored on the live peer, and the pieces requested
    /// from the peer are forgotten.
    pub fn on_bitfield(&mut self, addr: PeerAddr, h: &mut PeerHandlerLocked, bytes: &Vec<u8>) -> (r: Result<BitfieldOutcome, PeerError>)
        requires
            old(self).wf(),
        ensures
            final(self).wf(),
            final(self).locked == old(self).locked,
            final(self).stats == old(self).stats,
            final(self).active_peer_tasks == old(self).active_peer_tasks,
            bytes@.len() != old(self).lengths.bitfield_bytes() ==> r == Err::<BitfieldOutcome, PeerError>(PeerError::BitfieldSize)
                && final(self).peers.entries@ == old(self).peers.entries@ && *final(h) == *old(h),
            bytes@.len() == old(self).lengths.bitfield_bytes() ==> {
                &&& final(h).previously_requested_pieces@ == Seq::new(old(self).lengths.total_pieces as nat, |i: int| false)
                &&& final(h).i_am_choked == old(h).i_am_choked
                &&& final(h).request_permits == old(h).request_permits
                &&& old(self).peers.live(addr) is None ==> final(self).peers.entries@ == old(self).peers.entries@
                &&& old(self).peers.live(addr) is Some ==> final(self).peers.live(addr) is Some
                    && final(self).peers.live(addr)->0.bitfield@ == Seq::new(
                    old(self).lengths.total_pieces as nat,
                    |i: int| bit_at(bytes@, i),
                )
                &&& r == Ok::<BitfieldOutcome, PeerError>(if final(self).peer_has_needed(addr) {
                    BitfieldOutcome::Interested
                } else {
                    BitfieldOutcome::NotInterested { disconnect: old(self).finished() }
                })
            },
    {
        let expected = self.lengths.piece_bitfield_bytes();
        if bytes.len() != expected {
            return Err(PeerError::BitfieldSize);
        }
        let n = self.lengths.total_pieces;
        let nbits = n;
        let mut cleared: Vec<bool> = Vec::new();
        let mut k: u32 = 0;
        while k < nbits
            invariant
                k <= nbits,
                cleared@ =~= Seq::new(k as nat, |i: int| false),
            decreases nbits - k,
        {
            cleared.push(false);
            k = k + 1;
        }
        h.previously_requested_pieces = cleared;
        proof {
            crate::lengths::lemma_chunk_index_bound(n as int, 8, bytes@.len() as int);
        }
        let bits = bits_from_bytes(bytes, n);
        let ghost gbits = bits@;
        let updated = self.peers.update_bitfield(addr, bits);
        proof {
            if updated {
                self.peers.lemma_index(old(self).peers.index_of(addr)->0);
                assert(self.peers.live(addr)->0.bitfield@ =~= Seq::new(n as nat, |i: int| bit_at(bytes@, i)));
            }
        }
        if !self.am_i_interested_in_peer(addr) {
            return Ok(BitfieldOutcome::NotInterested { disconnect: self.is_finished() });
        }
        Ok(BitfieldOutcome::Interested)
    }

    /// A peer asks for a chunk: it must name a chunk of the torrent, of a
    /// piece that we have. Returns the chunk to read and send.
    pub fn on_download_request(&self, index: u32, begin: u32, length: u32) -> (r: Result<ChunkInfo, PeerError>)
        requires
            self.wf(),
        ensures
            !self.lengths.is_valid_chunk(index as int, begin as int, length as int) ==> r == Err::<ChunkInfo, PeerError>(PeerError::InvalidRequest),
            self.lengths.is_valid_chunk(index as int, begin as int, length as int) ==> r == if self.locked.chunks is None {
                Err::<ChunkInfo, PeerError>(PeerError::Paused)
            } else if !self.locked.chunks->0.is_had(index as int) {
                Err(PeerError::ChunkNotReady)
            } else {
                Ok(self.lengths.chunk_of(index as int, begin as int))
            },
    {
        let chunk = match self.lengths.chunk_info_from_received_data(index, begin, length) {
            None => return Err(PeerError::InvalidRequest),
            Some(c) => c,
        };
        let t = match &self.locked.chunks {
            None => return Err(PeerError::Paused),
            Some(t) => t,
        };
        if !t.is_chunk_ready_to_upload(&chunk) {
            return Err(PeerError::ChunkNotReady);
        }
        Ok(chunk)
    }


    /// Whether some piece reserved for another peer than `addr` has been so
    /// for over `factor` average piece times, once enough pieces are checked.
    pub open spec fn can_steal(&self, addr: PeerAddr, factor: u64, now: u64) -> bool {
        &&& self.stats.downloaded_and_checked_pieces >= STEAL_MIN_PIECES
        &&& exists|j: int|
            0 <= j < self.locked.inflight_pieces@.len() && #[trigger] self.locked.inflight_pieces@[j].peer != addr
                && elapsed(self.locked.inflight_pieces@[j].started_ms, now) > self.steal_limit(factor)
    }

    /// Whether `p` is the lowest needed piece that the live peer at `addr` has.
    pub open spec fn is_first_needed(&self, addr: PeerAddr, p: u32) -> bool {
        let t = self.locked.chunks->0;
        let bf = self.peers.live(addr)->0.bitfield@;
        &&& p < self.lengths.total_pieces && t.is_needed(p as int) && has_bit(bf, p as int)
        &&& forall|q: int| 0 <= q < p ==> !(t.is_needed(q) && has_bit(bf, q))
    }

    /// The steal threshold: the average piece time times `factor`, in ms.
    pub open spec fn steal_limit(&self, factor: u64) -> int {
        (self.stats.total_piece_download_ms / self.stats.downloaded_and_checked_pieces) as int * factor
    }

    /// Reserves for `addr` the lowest needed piece that it has, unless we are choked.
    pub fn reserve_next_needed_piece(&mut self, addr: PeerAddr, choked: bool, now: u64) -> (r: Result<Option<u32>, PeerError>)
        requires
            old(self).wf(),
        ensures
            final(self).wf(),
            final(self).stats == old(self).stats,
            final(self).peers.entries@ == old(self).peers.entries@,
            final(self).active_peer_tasks == old(self).active_peer_tasks,
            old(self).peers.live(addr) is None || choked ==> r == Ok::<Option<u32>, PeerError>(None),
            old(self).peers.live(addr) is Some && !choked && old(self).locked.chunks is None ==> r == Err::<Option<u32>, PeerError>(PeerError::Paused),
            old(self).peers.live(addr) is Some && !choked && old(self).locked.chunks is Some ==> r is Ok
                && ((r matches Ok(Some(_))) <==> old(self).peer_has_needed(addr)),
            !(r matches Ok(Some(_))) ==> final(self).locked == old(self).locked,
            r matches Ok(Some(p)) ==> {
                let t = old(self).locked.chunks->0;
                let bf = old(self).peers.live(addr)->0.bitfield@;
                &&& p < old(self).lengths.total_pieces && t.is_needed(p as int) && has_bit(bf, p as int)
                &&& forall|q: int| 0 <= q < p ==> !(t.is_needed(q) && has_bit(bf, q))
                &&& final(self).locked.chunks is Some
                &&& final(self).locked.chunks->0.needed@ == t.needed@.update(p as int, false)
                &&& final(self).locked.chunks->0.have@ == t.have@
                &&& final(self).locked.chunks->0.chunk_status@ == t.chunk_status@
                &&& final(self).locked.owner(p) == Some(InflightPiece { piece: p, peer: addr, started_ms: now })
                &&& forall|q: u32| q != p ==> #[trigger] final(self).locked.owner(q) == old(self).locked.owner(q)
            },
    {
        if self.peers.live_index(addr).is_none() || choked {
            return Ok(None);
        }
        let p = match self.get_next_needed_piece(addr) {
            Err(e) => return Err(e),
            Ok(None) => return Ok(None),
            Ok(Some(p)) => p,
        };
        let mut t = self.locked.chunks.take().unwrap();
        t.reserve_needed_piece(p);
        self.locked.chunks = Some(t);
        self.locked.set_inflight(Ghost(self.lengths), p, addr, now);
        Ok(Some(p))
    }

    /// Once 20 pieces have been checked, takes from another peer the piece
    /// reserved longest ago, if that was more than `factor` average piece
    /// times ago.
    pub fn try_steal_old_slow_piece(&mut self, addr: PeerAddr, factor: u64, now: u64) -> (r: Option<u32>)
        requires
            old(self).wf(),
        ensures
            final(self).wf(),
            final(self).stats == old(self).stats,
            final(self).peers.entries@ == old(self).peers.entries@,
            final(self).active_peer_tasks == old(self).active_peer_tasks,
            final(self).locked.chunks == old(self).locked.chunks,
            r is None ==> final(self).locked == old(self).locked,
            old(self).stats.downloaded_and_checked_pieces < STEAL_MIN_PIECES ==> r is None,
            old(self).stats.downloaded_and_checked_pieces >= STEAL_MIN_PIECES ==> {
                let s = old(self).locked.inflight_pieces@;
                let limit = old(self).steal_limit(factor);
                &&& r is None ==> forall|j: int| 0 <= j < s.len() && #[trigger] s[j].peer != addr
                    ==> elapsed(s[j].started_ms, now) <= limit
                &&& r matches Some(p) ==> {
                    let o = old(self).locked.owner(p);
                    &&& o is Some
                    &&& o->0.peer != addr
                    &&& elapsed(o->0.started_ms, now) > limit
                    &&& forall|j: int| 0 <= j < s.len() && #[trigger] s[j].peer != addr
                        ==> elapsed(s[j].started_ms, now) <= elapsed(o->0.started_ms, now)
                    &&& final(self).locked.owner(p) == Some(InflightPiece { piece: p, peer: addr, started_ms: now })
                    &&& forall|q: u32| q != p ==> #[trigger] final(self).locked.owner(q) == old(self).locked.owner(q)
                }
            },
    {
        let total = self.stats.downloaded_and_checked_pieces;
        if total < STEAL_MIN_PIECES {
            return None;
        }
        let avg = self.stats.total_piece_download_ms / total;
        proof {
            assert((avg as u128) * (factor as u128) <= u128::MAX) by (nonlinear_arith)
                requires avg <= u64::MAX, factor <= u64::MAX;
        }
        let limit = (avg as u128) * (factor as u128);
        proof {
            assert(limit == self.steal_limit(factor)) by (nonlinear_arith)
                requires limit == (avg as u128) * (factor as u128), avg == self.stats.total_piece_download_ms / total,
                    total == self.stats.downloaded_and_checked_pieces, total > 0,
                    (avg as u128) * (factor as u128) <= u128::MAX;
        }
        self.locked.steal_slowest(Ghost(self.lengths), addr, limit, now)
    }

    /// Picks the next piece to request from `addr`: first a piece very
    /// slow elsewhere (over 10 average piece times), then the lowest needed
    /// piece it has, then a piece moderately slow elsewhere (over 2). The
    /// piece is then reserved for `addr` and marked as requested from it.
    pub fn next_piece_to_request(&mut self, addr: PeerAddr, h: &mut PeerHandlerLocked, now: u64) -> (r: Option<u32>)
        requires
            old(self).wf(),
        ensures
            final(self).wf(),
            final(self).stats == old(self).stats,
            final(self).peers.entries@ == old(self).peers.entries@,
            final(self).active_peer_tasks == old(self).active_peer_tasks,
            final(h).i_am_choked == old(h).i_am_choked,
            final(h).request_permits == old(h).request_permits,
            r matches Some(p) ==> final(self).locked.owner(p) == Some(InflightPiece { piece: p, peer: addr, started_ms: now })
                && final(h).previously_requested_pieces@ == if p < old(h).previously_requested_pieces@.len() {
                    old(h).previously_requested_pieces@.update(p as int, true)
                } else {
                    old(h).previously_requested_pieces@
                },
            r is None ==> final(self).locked == old(self).locked
                && final(h).previously_requested_pieces@ == old(h).previously_requested_pieces@
                && (old(self).peers.live(addr) is None || old(h).i_am_choked || old(self).locked.chunks is None
                    || !old(self).peer_has_needed(addr))
                && (old(self).stats.downloaded_and_checked_pieces < STEAL_MIN_PIECES || forall|j: int|
                    0 <= j < old(self).locked.inflight_pieces@.len() && #[trigger] old(self).locked.inflight_pieces@[j].peer != addr
                    ==> elapsed(old(self).locked.inflight_pieces@[j].started_ms, now) <= old(self).steal_limit(2)),
            old(self).stats.downloaded_and_checked_pieces >= STEAL_MIN_PIECES && (exists|j: int|
                0 <= j < old(self).locked.inflight_pieces@.len() && #[trigger] old(self).locked.inflight_pieces@[j].peer != addr
                && elapsed(old(self).locked.inflight_pieces@[j].started_ms, now) > old(self).steal_limit(10))
                ==> (r matches Some(p) && old(self).locked.owner(p) is Some
                && old(self).locked.owner(p)->0.peer != addr
                && elapsed(old(self).locked.owner(p)->0.started_ms, now) > old(self).steal_limit(10)),
            !old(self).can_steal(addr, 10, now) && !old(h).i_am_choked && old(self).peer_has_needed(addr)
                ==> (r matches Some(p) && old(self).is_first_needed(addr, p)),
            !old(self).can_steal(addr, 10, now) && !(!old(h).i_am_choked && old(self).peer_has_needed(addr))
                ==> (r is None <==> !old(self).can_steal(addr, 2, now))
                && (r matches Some(p) ==> old(self).locked.owner(p) is Some
                && old(self).locked.owner(p)->0.peer != addr
                && elapsed(old(self).locked.owner(p)->0.started_ms, now) > old(self).steal_limit(2)),
    {
        let picked = match self.try_steal_old_slow_piece(addr, 10, now) {
            Some(p) => {
                proof {
                    let j = old(self).locked.index_of(p)->0;
                    assert(old(self).locked.inflight_pieces@[j] == old(self).locked.owner(p)->0);
                }
                Some(p)
            },
            None => {
                match self.reserve_next_needed_piece(addr, h.i_am_choked, now) {
                    Ok(Some(p)) => Some(p),
                    _ => {
                        let r3 = self.try_steal_old_slow_piece(addr, 2, now);
                        proof {
                            if let Some(p) = r3 {
                                let j = old(self).locked.index_of(p)->0;
                                assert(old(self).locked.inflight_pieces@[j] == old(self).locked.owner(p)->0);
                            }
                        }
                        r3
                    },
                }
            },
        };
        match picked {
            Some(p) => {
                h.mark_requested(p);
                Some(p)
            },
            None => None,
        }
    }


    /// What `on_received_piece` answers for an expected chunk of piece
    /// `index` at `begin` sent by `addr`.
    pub open spec fn received_outcome(&self, addr: PeerAddr, index: u32, begin: u32, now: u64) -> Result<PieceReceived, PeerError> {
        let ci = self.lengths.chunk_of(index as int, begin as int);
        let o = self.locked.owner(index);
        if o is None {
            Ok(PieceReceived::NotReserved)
        } else if o->0.peer != addr {
            Ok(PieceReceived::Stolen)
        } else if self.locked.chunks is None {
            Err(PeerError::Paused)
        } else {
            let before = self.locked.chunks->0.chunks_of(index as int);
            let after = before.update(ci.chunk_index as int, true);
            if all_set(before) {
                Ok(PieceReceived::PreviouslyCompleted)
            } else if all_set(after) {
                Ok(PieceReceived::WriteAndCheck { elapsed_ms: elapsed(o->0.started_ms, now) })
            } else {
                Ok(PieceReceived::Write)
            }
        }
    }

    /// A chunk arrived from `addr`. It must name a chunk of the torrent that
    /// we requested from this peer. It is kept only while the piece is still
    /// reserved for this peer; the chunk that completes the piece ends the
    /// reservation.
    pub fn on_received_piece(&mut self, addr: PeerAddr, h: &mut PeerHandlerLocked, index: u32, begin: u32, length: u32, now: u64) -> (r: Result<PieceReceived, PeerError>)
        requires
            old(self).wf(),
        ensures
            final(self).wf(),
            final(self).active_peer_tasks == old(self).active_peer_tasks,
            final(h).i_am_choked == old(h).i_am_choked,
            final(h).previously_requested_pieces == old(h).previously_requested_pieces,
            !old(self).lengths.is_valid_chunk(index as int, begin as int, length as int) ==> r == Err::<PieceReceived, PeerError>(PeerError::InvalidPiece)
                && final(self).locked == old(self).locked && final(self).stats == old(self).stats
                && final(self).peers.entries@ == old(self).peers.entries@ && final(h).request_permits == old(h).request_permits,
            old(self).lengths.is_valid_chunk(index as int, begin as int, length as int) ==> ({
                let ci = old(self).lengths.chunk_of(index as int, begin as int);
                let req = InflightRequest { piece: index, chunk: ci.chunk_index };
                let live = old(self).peers.live(addr);
                &&& final(self).stats == (crate::live::SessionStats { fetched_bytes: wadd(old(self).stats.fetched_bytes, length as u64), ..old(self).stats })
                &&& final(h).request_permits == if old(h).request_permits < u64::MAX { (old(h).request_permits + 1) as u64 } else { u64::MAX }
                &&& old(self).peers.has(addr) ==> final(self).peers.has(addr)
                    && final(self).peers.entry(addr).counters == (crate::peers::PeerCounters {
                        fetched_bytes: wadd(old(self).peers.entry(addr).counters.fetched_bytes, length as u64),
                        fetched_chunks: wadd(old(self).peers.entry(addr).counters.fetched_chunks, 1),
                        ..old(self).peers.entry(addr).counters
                    })
                &&& live is None ==> r == Err::<PieceReceived, PeerError>(PeerError::PeerNotLive) && final(self).locked == old(self).locked
                &&& live is Some && !live->0.inflight_requests@.contains(req) ==> r == Err::<PieceReceived, PeerError>(PeerError::UnsolicitedPiece)
                    && final(self).locked == old(self).locked
                &&& live is Some && live->0.inflight_requests@.contains(req) ==> {
                    &&& final(self).peers.live(addr) is Some
                    &&& !final(self).peers.live(addr)->0.inflight_requests@.contains(req)
                    &&& final(self).peers.live(addr)->0.inflight_requests@.to_set()
                        == live->0.inflight_requests@.to_set().remove(req)
                    &&& r == old(self).received_outcome(addr, index, begin, now)
                    &&& (r matches Ok(PieceReceived::Write) || r matches Ok(PieceReceived::WriteAndCheck { .. })) ==> {
                        let t = old(self).locked.chunks->0;
                        let nt = final(self).locked.chunks->0;
                        &&& final(self).locked.chunks is Some
                        &&& nt.have@ == t.have@ && nt.needed@ == t.needed@
                        &&& nt.chunks_of(index as int) == t.chunks_of(index as int).update(ci.chunk_index as int, true)
                        &&& forall|q: int| 0 <= q < t.chunk_status@.len() && q != index ==> #[trigger] nt.chunk_status@[q] == t.chunk_status@[q]
                    }
                    &&& r matches Ok(PieceReceived::Write) ==> final(self).locked.inflight_pieces@ == old(self).locked.inflight_pieces@
                    &&& r matches Ok(PieceReceived::WriteAndCheck { .. }) ==> final(self).locked.owner(index) is None
                        && forall|q: u32| q != index ==> #[trigger] final(self).locked.owner(q) == old(self).locked.owner(q)
                    &&& !(r matches Ok(PieceReceived::Write) || r matches Ok(PieceReceived::WriteAndCheck { .. }))
                        ==> final(self).locked.same_as(old(self).locked)
                }
            }),
    {
        let chunk = match self.lengths.chunk_info_from_received_data(index, begin, length) {
            None => return Err(PeerError::InvalidPiece),
            Some(c) => c,
        };
        h.on_chunk_received();
        let ghost p0 = self.peers;
        if let Some(i) = self.peers.find(addr) {
            let mut c = self.peers.entries[i].counters;
            c.fetched_bytes = c.fetched_bytes.wrapping_add(length as u64);
            c.fetched_chunks = c.fetched_chunks.wrapping_add(1);
            self.peers.set_counters(i, c);
            proof {
                self.peers.lemma_index(i as int);
            }
        }
        assert(self.peers.live(addr) == p0.live(addr));
        let ghost p1 = self.peers;
        proof {
            if p0.has(addr) {
                let j = p0.index_of(addr)->0;
                assert(p1.entries@[j].addr == addr);
                p1.lemma_index(j);
            }
        }
        self.stats.fetched_bytes = self.stats.fetched_bytes.wrapping_add(length as u64);
        let req = InflightRequest { piece: index, chunk: chunk.chunk_index };
        match self.peers.remove_inflight_request(addr, req) {
            None => return Err(PeerError::PeerNotLive),
            Some(false) => return Err(PeerError::UnsolicitedPiece),
            Some(true) => {},
        }
        proof {
            let j = p0.index_of(addr)->0;
            assert(self.peers.entries@[j].addr == addr);
            self.peers.lemma_index(j);
            assert(self.peers.entries@[j].counters == p1.entries@[j].counters);
        }
        let o = match self.locked.find_inflight(Ghost(self.lengths), index) {
            None => return Ok(PieceReceived::NotReserved),
            Some(i) => self.locked.inflight_pieces[i],
        };
        if o.peer != addr {
            return Ok(PieceReceived::Stolen);
        }
        let mut t = match self.locked.chunks.take() {
            None => return Err(PeerError::Paused),
            Some(t) => t,
        };
        let m = t.mark_chunk_downloaded(&chunk);
        self.locked.chunks = Some(t);
        match m {
            crate::chunk_tracker::ChunkMarkingResult::PreviouslyCompleted => Ok(PieceReceived::PreviouslyCompleted),
            crate::chunk_tracker::ChunkMarkingResult::NotCompleted => Ok(PieceReceived::Write),
            crate::chunk_tracker::ChunkMarkingResult::Completed => {
                self.locked.remove_inflight(Ghost(self.lengths), index);
                Ok(PieceReceived::WriteAndCheck { elapsed_ms: crate::ledger::elapsed_ms(o.started_ms, now) })
            },
        }
    }


    /// The whole of piece `index`, downloaded from `addr` in `elapsed_ms`,
    /// was checked against its hash. A valid piece becomes ours and is
    /// counted (once), the peer's backoff starts over, and the peers to tell
    /// are listed; once the torrent is complete, so are the live peers that
    /// have all of it, which are now not needed. An invalid piece is needed
    /// again from scratch, and no peer is blamed.
    pub fn on_piece_checked(&mut self, addr: PeerAddr, index: u32, elapsed_ms: u64, valid: bool) -> (r: Result<PieceChecked, PeerError>)
        requires
            old(self).wf(),
            index < old(self).lengths.total_pieces,
        ensures
            final(self).wf(),
            final(self).active_peer_tasks == old(self).active_peer_tasks,
            old(self).locked.chunks is None ==> (r matches Err(PeerError::Paused)) && final(self).locked == old(self).locked
                && final(self).stats == old(self).stats && final(self).peers.entries@ == old(self).peers.entries@,
            old(self).locked.chunks is Some ==> final(self).locked.fatal_error_pending == old(self).locked.fatal_error_pending
                && forall|q: u32| #[trigger] final(self).locked.owner(q) == if q == index {
                    None
                } else {
                    old(self).locked.owner(q)
                },
            old(self).locked.chunks is Some && !valid ==> ({
                let t = old(self).locked.chunks->0;
                let nt = final(self).locked.chunks->0;
                &&& r matches Ok(PieceChecked::Broken)
                &&& final(self).stats == old(self).stats
                &&& final(self).peers.entries@ == old(self).peers.entries@
                &&& final(self).locked.chunks is Some
                &&& nt.have@ == t.have@
                &&& nt.chunk_status@.len() == t.chunk_status@.len()
                &&& forall|q: int| 0 <= q < t.chunk_status@.len() && q != index ==> #[trigger] nt.chunk_status@[q] == t.chunk_status@[q]
                &&& t.have@[index as int] ==> nt.needed@ == t.needed@ && nt.chunk_status@ == t.chunk_status@
                &&& !t.have@[index as int] ==> nt.needed@ == t.needed@.update(index as int, true)
                    && forall|i: int| 0 <= i < nt.chunks_of(index as int).len() ==> !nt.chunks_of(index as int)[i]
            }),
            old(self).locked.chunks is Some && valid ==> ({
                let t = old(self).locked.chunks->0;
                let nt = final(self).locked.chunks->0;
                let pl = old(self).lengths.piece_len(index as int);
                let n = old(self).lengths.total_pieces as int;
                &&& final(self).locked.chunks is Some
                &&& nt.have@ == t.have@.update(index as int, true)
                &&& nt.needed@ == t.needed@.update(index as int, false)
                &&& nt.chunk_status@ == t.chunk_status@
                &&& !t.have@[index as int] ==> final(self).stats == (crate::live::SessionStats {
                    have_bytes: (old(self).stats.have_bytes + pl) as u64,
                    downloaded_and_checked_bytes: (old(self).stats.downloaded_and_checked_bytes + pl) as u64,
                    downloaded_and_checked_pieces: (old(self).stats.downloaded_and_checked_pieces + 1) as u64,
                    total_piece_download_ms: wadd(old(self).stats.total_piece_download_ms, elapsed_ms),
                    ..old(self).stats
                })
                &&& t.have@[index as int] ==> final(self).stats == old(self).stats
                &&& old(self).peers.has(addr) ==> final(self).peers.has(addr)
                    && final(self).peers.entry(addr).counters == (crate::peers::PeerCounters {
                        downloaded_and_checked_pieces: wadd(old(self).peers.entry(addr).counters.downloaded_and_checked_pieces, 1),
                        downloaded_and_checked_bytes: wadd(old(self).peers.entry(addr).counters.downloaded_and_checked_bytes, pl as u64),
                        ..old(self).peers.entry(addr).counters
                    })
                &&& r matches Ok(PieceChecked::Verified { finished, disconnect, have_to }) && {
                    &&& finished == final(self).finished()
                    &&& forall|a: PeerAddr| have_to@.contains(a) <==> final(self).peers.should_get_have(a, index as int)
                    &&& !finished ==> disconnect@.len() == 0
                    &&& finished ==> forall|a: PeerAddr| disconnect@.contains(a) <==> (old(self).peers.has(a)
                        && entry_full(old(self).peers.entry(a), n))
                    &&& forall|a: PeerAddr| disconnect@.contains(a) ==> final(self).peers.has(a)
                        && final(self).peers.kind(a) == PeerStateKind::NotNeeded
                    &&& final(self).peers.entries@.len() == old(self).peers.entries@.len()
                    &&& forall|j: int| 0 <= j < old(self).peers.entries@.len() ==> {
                        let e = old(self).peers.entries@[j];
                        let f = #[trigger] final(self).peers.entries@[j];
                        &&& f.addr == e.addr
                        &&& f.state == if finished && entry_full(e, n) { PeerState::NotNeeded } else { e.state }
                        &&& e.addr != addr ==> f.counters == e.counters
                    }
                }
            }),
    {
        let mut t = match self.locked.chunks.take() {
            None => return Err(PeerError::Paused),
            Some(t) => t,
        };
        let ghost t0 = t;
        let ghost l0 = self.locked;
        let had = t.get_have_pieces()[index as usize];
        if !valid {
            t.mark_piece_broken(index);
        } else {
            t.mark_piece_downloaded(index);
        }
        assert(forall|q: int| 0 <= q < t0.needed@.len() && q != index ==> t.needed@[q] == t0.needed@[q] && t.have@[q] == t0.have@[q]);
        self.locked.retain_reserved(Ghost(self.lengths), &t);
        let ghost l1 = self.locked;
        self.locked.chunks = Some(t);
        proof {
            assert forall|q: u32| #[trigger] self.locked.owner(q) == if q == index {
                None
            } else {
                old(self).locked.owner(q)
            } by {
                assert(l0.inflight_pieces@ == old(self).locked.inflight_pieces@);
                assert(l0.owner(q) == old(self).locked.owner(q));
                assert(l1.inflight_pieces@ == self.locked.inflight_pieces@);
                assert(l1.owner(q) == self.locked.owner(q));
                if q != index && old(self).locked.owner(q) is Some {
                    let k = old(self).locked.index_of(q)->0;
                    assert(crate::ledger::all_reserved(t0, old(self).locked.inflight_pieces@));
                    assert(crate::ledger::is_reserved(t0, old(self).locked.inflight_pieces@[k].piece));
                    assert(old(self).locked.inflight_pieces@[k].piece == q);
                    assert(crate::ledger::is_reserved(t, q));
                }
            }
        }
        if !valid {
            return Ok(PieceChecked::Broken);
        }
        proof {
            crate::chunk_tracker::lemma_bytes_set(self.lengths, t0.have@, index as int, self.lengths.total_pieces as int);
            crate::chunk_tracker::lemma_bytes_le_total(self.lengths, self.locked.chunks->0.have@);
        }
        let piece_len = self.lengths.piece_length(index) as u64;
        if !had {
            self.stats.downloaded_and_checked_bytes = self.stats.downloaded_and_checked_bytes + piece_len;
            self.stats.downloaded_and_checked_pieces = self.stats.downloaded_and_checked_pieces + 1;
            self.stats.have_bytes = self.stats.have_bytes + piece_len;
            self.stats.total_piece_download_ms = self.stats.total_piece_download_ms.wrapping_add(elapsed_ms);
        }
        let ghost p0 = self.peers;
        if let Some(i) = self.peers.find(addr) {
            let mut c = self.peers.entries[i].counters;
            c.downloaded_and_checked_pieces = c.downloaded_and_checked_pieces.wrapping_add(1);
            c.downloaded_and_checked_bytes = c.downloaded_and_checked_bytes.wrapping_add(piece_len);
            self.peers.set_counters(i, c);
        }
        let ghost p1 = self.peers;
        self.peers.reset_peer_backoff(addr);
        let finished = self.is_finished();
        let ghost mid = self.peers;
        let n = self.lengths.total_pieces as usize;
        let disconnect = if finished {
            self.peers.disconnect_peers_with_full_torrent(n)
        } else {
            Vec::new()
        };
        proof {
            assert forall|j: int| 0 <= j < p0.entries@.len() implies #[trigger] mid.entries@[j].addr == p0.entries@[j].addr
                && mid.entries@[j].state == p0.entries@[j].state
                && (p0.entries@[j].addr != addr ==> mid.entries@[j].counters == p0.entries@[j].counters) by {
                assert(p1.entries@[j].addr == p0.entries@[j].addr);
                if p0.entries@[j].addr != addr {
                    if p0.index_of(addr) is Some {
                        assert(j != p0.index_of(addr)->0);
                    }
                }
            }
            assert forall|a: PeerAddr| mid.has(a) == p0.has(a) && (p0.has(a) ==> mid.index_of(a) == p0.index_of(a)) by {
                if p0.has(a) {
                    let j = p0.index_of(a)->0;
                    assert(mid.entries@[j].addr == a);
                    mid.lemma_index(j);
                }
                if mid.has(a) {
                    let j = mid.index_of(a)->0;
                    assert(p0.entries@[j].addr == a);
                    p0.lemma_index(j);
                }
            }
            if finished {
                assert forall|a: PeerAddr| disconnect@.contains(a) <==> (p0.has(a) && entry_full(p0.entry(a), n as int)) by {
                    if p0.has(a) {
                        let j = p0.index_of(a)->0;
                        assert(mid.entries@[j].state == p0.entries@[j].state);
                    }
                }
            }
            assert forall|a: PeerAddr| disconnect@.contains(a) implies self.peers.has(a)
                && self.peers.kind(a) == PeerStateKind::NotNeeded by {
                let j = mid.index_of(a)->0;
                assert(self.peers.entries@[j].addr == a);
                self.peers.lemma_index(j);
            }
            assert forall|j: int| 0 <= j < p0.entries@.len() implies {
                let e = p0.entries@[j];
                let f = #[trigger] self.peers.entries@[j];
                &&& f.addr == e.addr
                &&& f.state == if finished && entry_full(e, n as int) { PeerState::NotNeeded } else { e.state }
                &&& e.addr != addr ==> f.counters == e.counters
            } by {
                assert(mid.entries@[j].addr == p0.entries@[j].addr);
            }
            if p0.has(addr) {
                let j = p0.index_of(addr)->0;
                assert(self.peers.entries@[j].addr == addr);
                self.peers.lemma_index(j);
                assert(self.peers.entries@[j].counters == p1.entries@[j].counters);
            }
        }
        let have_to = self.peers.have_recipients(index);
        Ok(PieceChecked::Verified { finished, disconnect, have_to })
    }


    /// The peer's task ended, with an error or not. A live peer's
    /// unanswered requests are abandoned. A peer that ended cleanly, or once
    /// the torrent is complete, is not needed; one that failed is dead and
    /// queued again after its backoff delay, or forgotten once its backoff is
    /// exhausted.
    pub fn on_peer_died(&mut self, addr: PeerAddr, error: bool) -> (r: Result<PeerDeath, LiveError>)
        requires
            old(self).wf(),
        ensures
            final(self).wf(),
            final(self).stats == old(self).stats,
            final(self).active_peer_tasks == old(self).active_peer_tasks,
            !old(self).peers.has(addr) ==> r == Ok::<PeerDeath, LiveError>(PeerDeath::NotFound)
                && final(self).peers.entries@ == old(self).peers.entries@ && final(self).locked == old(self).locked,
            old(self).peers.has(addr) ==> ({
                let k = old(self).peers.kind(addr);
                let t = old(self).locked.chunks->0;
                &&& k == PeerStateKind::NotNeeded ==> r == Ok::<PeerDeath, LiveError>(PeerDeath::WasNotNeeded)
                    && final(self).peers.entries@ == old(self).peers.entries@ && final(self).locked == old(self).locked
                &&& (k == PeerStateKind::Queued || k == PeerStateKind::Dead) ==> r == Ok::<PeerDeath, LiveError>(PeerDeath::WrongStateDropped)
                    && !final(self).peers.has(addr) && final(self).locked == old(self).locked
                &&& k == PeerStateKind::Live && old(self).locked.chunks is None ==> r == Err::<PeerDeath, LiveError>(LiveError::Paused)
                    && final(self).locked == old(self).locked
                    && final(self).peers.has(addr) && final(self).peers.kind(addr) == PeerStateKind::Dead
                &&& k == PeerStateKind::Connecting ==> final(self).locked == old(self).locked
                &&& k == PeerStateKind::Live && old(self).locked.chunks is Some ==> {
                    let nt = final(self).locked.chunks->0;
                    &&& final(self).locked.chunks is Some
                    &&& final(self).locked.fatal_error_pending == old(self).locked.fatal_error_pending
                    &&& forall|q: u32| #[trigger] final(self).locked.owner(q) == if old(self).locked.owner(q) is Some
                        && nt.needed@[q as int] {
                        None
                    } else {
                        old(self).locked.owner(q)
                    }
                    &&& nt.needed@ == cancel_effect(t, old(self).peers.live(addr)->0.inflight_requests@)
                    &&& nt.have@ == t.have@
                    &&& nt.chunk_status@ == t.chunk_status@
                }
                &&& k == PeerStateKind::Connecting || (k == PeerStateKind::Live && old(self).locked.chunks is Some) ==> {
                    &&& !error || old(self).finished() ==> r == Ok::<PeerDeath, LiveError>(PeerDeath::NotNeeded)
                        && final(self).peers.has(addr) && final(self).peers.kind(addr) == PeerStateKind::NotNeeded
                    &&& error && !old(self).finished() ==> (r matches Ok(PeerDeath::Requeue { .. })
                        && final(self).peers.has(addr) && final(self).peers.kind(addr) == PeerStateKind::Dead)
                        || (r == Ok::<PeerDeath, LiveError>(PeerDeath::BackoffExhausted) && !final(self).peers.has(addr))
                    &&& error && final(self).peers.has(addr) ==> final(self).peers.entry(addr).counters.errors
                        == wadd(old(self).peers.entry(addr).counters.errors, 1)
                    &&& !error ==> final(self).peers.entry(addr).counters == old(self).peers.entry(addr).counters
                }
            }),
    {
        let i = match self.peers.find(addr) {
            None => return Ok(PeerDeath::NotFound),
            Some(i) => i,
        };
        let kind = self.peers.entries[i].state.kind();
        match kind {
            PeerStateKind::NotNeeded => return Ok(PeerDeath::WasNotNeeded),
            PeerStateKind::Queued | PeerStateKind::Dead => {
                self.peers.drop_peer(addr);
                return Ok(PeerDeath::WrongStateDropped);
            },
            PeerStateKind::Connecting => {},
            PeerStateKind::Live => {
                let live = self.peers.take_live(i);
                proof {
                    self.peers.lemma_index(i as int);
                }
                let mut t = match self.locked.chunks.take() {
                    None => return Err(LiveError::Paused),
                    Some(t) => t,
                };
                cancel_requests(&mut t, &live.inflight_requests);
                let ghost mid = self.locked;
                assert(mid.inflight_pieces@ == old(self).locked.inflight_pieces@);
                self.locked.retain_reserved(Ghost(self.lengths), &t);
                let ghost after = self.locked;
                self.locked.chunks = Some(t);
                proof {
                    assert forall|q: u32| #[trigger] self.locked.owner(q) == if old(self).locked.owner(q) is Some
                        && t.needed@[q as int] {
                        None
                    } else {
                        old(self).locked.owner(q)
                    } by {
                        if old(self).locked.owner(q) is Some {
                            let k = old(self).locked.index_of(q)->0;
                            let t0 = old(self).locked.chunks->0;
                            assert(old(self).locked.wf(old(self).lengths));
                            assert(crate::ledger::all_reserved(t0, old(self).locked.inflight_pieces@));
                            assert(0 <= k < old(self).locked.inflight_pieces@.len());
                            assert(crate::ledger::is_reserved(t0, old(self).locked.inflight_pieces@[k].piece));
                            assert(t.have@ == t0.have@);
                            assert(old(self).locked.inflight_pieces@[k].piece == q);
                            assert(!t.have@[q as int]);
                        }
                        assert(mid.owner(q) == old(self).locked.owner(q));
                        assert(after.inflight_pieces@ == self.locked.inflight_pieces@);
                        assert(after.owner(q) == if mid.owner(q) is Some && !crate::ledger::is_reserved(t, q) {
                            None
                        } else {
                            mid.owner(q)
                        });
                        assert(after.owner(q) == self.locked.owner(q));
                        assert(self.locked.owner(q) == if old(self).locked.owner(q) is Some && !crate::ledger::is_reserved(t, q) {
                            None
                        } else {
                            old(self).locked.owner(q)
                        });
                    }
                }

            },
        }
        assert(self.peers.entries@[i as int].counters == old(self).peers.entries@[i as int].counters);
        if !error {
            self.peers.swap_state(i, crate::peers::PeerState::NotNeeded);
            proof {
                self.peers.lemma_index(i as int);
                old(self).peers.lemma_index(i as int);
                assert(self.peers.entries@[i as int].counters == old(self).peers.entries@[i as int].counters);
            }
            return Ok(PeerDeath::NotNeeded);
        }
        let mut c = self.peers.entries[i].counters;
        c.errors = c.errors.wrapping_add(1);
        self.peers.set_counters(i, c);
        if self.is_finished() {
            self.peers.swap_state(i, crate::peers::PeerState::NotNeeded);
            proof {
                self.peers.lemma_index(i as int);
            }
            return Ok(PeerDeath::NotNeeded);
        }
        self.peers.swap_state(i, crate::peers::PeerState::Dead);
        match self.peers.next_backoff(i) {
            Some(delay_ms) => {
                proof {
                    self.peers.lemma_index(i as int);
                }
                Ok(PeerDeath::Requeue { delay_ms })
            },
            None => {
                proof {
                    self.peers.lemma_index(i as int);
                }
                self.peers.drop_peer(addr);
                Ok(PeerDeath::BackoffExhausted)
            },
        }
    }


    /// Our have-bitfield as sent in a `Bitfield` message: one bit per piece,
    /// most significant first, padded with clear bits to whole bytes.
    pub fn have_pieces_bitfield(&self) -> (r: Result<Vec<u8>, LiveError>)
        requires
            self.wf(),
        ensures
            self.locked.chunks is None ==> r == Err::<Vec<u8>, LiveError>(LiveError::Paused),
            self.locked.chunks is Some ==> (r matches Ok(b) && b@.len() == self.lengths.bitfield_bytes()
                && forall|i: int| 0 <= i < b@.len() * 8 ==> #[trigger] bit_at(b@, i) == self.locked.chunks->0.is_had(i)),
    {
        let t = match &self.locked.chunks {
            None => return Err(LiveError::Paused),
            Some(t) => t,
        };
        let nbytes = self.lengths.piece_bitfield_bytes();
        proof {
            let n = self.lengths.total_pieces as int;
            assert((n + 7) / 8 <= u32::MAX) by (nonlinear_arith)
                requires 0 <= n <= u32::MAX;
        }
        Ok(crate::bitfield::bits_to_bytes(t.get_have_pieces(), nbytes))
    }

    /// The peers to send `Have(index)` to: live, interested, and not known to have it.
    pub fn maybe_transmit_haves(&self, index: u32) -> (r: Vec<PeerAddr>)
        requires
            self.wf(),
        ensures
            forall|a: PeerAddr| r@.contains(a) <==> self.peers.should_get_have(a, index as int),
            forall|i: int, j: int| 0 <= i < j < r@.len() ==> r@[i] != r@[j],
    {
        self.peers.have_recipients(index)
    }

    /// Records requests for every chunk of piece `index` on the live peer at
    /// `addr`, and returns the chunks to request, in offset order: those not
    /// already requested from it. `None` when the peer is no longer live.
    pub fn register_chunk_requests(&mut self, addr: PeerAddr, index: u32) -> (r: Option<Vec<ChunkInfo>>)
        requires
            old(self).wf(),
            index < old(self).lengths.total_pieces,
        ensures
            final(self).wf(),
            final(self).locked == old(self).locked,
            final(self).stats == old(self).stats,
            final(self).active_peer_tasks == old(self).active_peer_tasks,
            r is None <==> old(self).peers.live(addr) is None,
            r is None ==> final(self).peers.entries@ == old(self).peers.entries@,
            r matches Some(v) ==> {
                let live = final(self).peers.live(addr);
                &&& live is Some
                &&& forall|k: int| 0 <= k < v@.len() ==> old(self).lengths.is_valid_chunk(index as int, #[trigger] v@[k].offset as int, v@[k].size as int)
                    && v@[k] == old(self).lengths.chunk_of(index as int, v@[k].offset as int)
                    && !old(self).peers.live(addr)->0.inflight_requests@.contains(InflightRequest { piece: index, chunk: v@[k].chunk_index })
                &&& forall|c: int| 0 <= c < old(self).lengths.num_chunks(index as int) ==>
                    live->0.inflight_requests@.contains(#[trigger] req_of(index, c))
                &&& forall|c: int| 0 <= c < old(self).lengths.num_chunks(index as int) ==>
                    (!old(self).peers.live(addr)->0.inflight_requests@.contains(#[trigger] req_of(index, c))
                    <==> exists|k: int| 0 <= k < v@.len() && v@[k].chunk_index == c)
                &&& forall|i: int, j: int| 0 <= i < j < v@.len() ==> v@[i].offset < v@[j].offset
            },
    {
        let chunks = self.lengths.iter_chunk_infos(index);
        if self.peers.live_index(addr).is_none() {
            return None;
        }
        let ghost l0 = old(self).peers.live(addr)->0.inflight_requests@;
        let mut out: Vec<ChunkInfo> = Vec::new();
        let mut k: usize = 0;
        while k < chunks.len()
            invariant
                self.wf(),
                self.locked == old(self).locked,
                self.stats == old(self).stats,
                self.active_peer_tasks == old(self).active_peer_tasks,
                self.lengths == old(self).lengths,
                k <= chunks@.len(),
                chunks@.len() == self.lengths.num_chunks(index as int),
                forall|j: int| 0 <= j < chunks@.len() ==> self.lengths.is_valid_chunk(
                    index as int,
                    #[trigger] chunks@[j].offset as int,
                    chunks@[j].size as int,
                ) && chunks@[j] == self.lengths.chunk_of(index as int, chunks@[j].offset as int) && chunks@[j].chunk_index == j
                    && chunks@[j].offset == j * self.lengths.chunk_length,
                forall|x: InflightRequest| self.peers.live(addr)->0.inflight_requests@.contains(x) ==> l0.contains(x)
                    || exists|j: int| 0 <= j < k && x == #[trigger] req_of(index, j),
                forall|c: int| 0 <= c < k ==> (!l0.contains(#[trigger] req_of(index, c)) <==> exists|m: int| 0 <= m < out@.len() && out@[m].chunk_index == c),
                forall|m: int| 0 <= m < out@.len() ==> #[trigger] out@[m].chunk_index < k && out@[m].offset == out@[m].chunk_index * self.lengths.chunk_length,
                forall|a: int, b: int| 0 <= a < b < out@.len() ==> out@[a].offset < out@[b].offset,
                self.peers.live(addr) is Some,
                forall|x: InflightRequest| l0.contains(x) ==> self.peers.live(addr)->0.inflight_requests@.contains(x),
                forall|j: int| 0 <= j < k ==> self.peers.live(addr)->0.inflight_requests@.contains(#[trigger] req_of(index, j)),
                forall|j: int| 0 <= j < out@.len() ==> self.lengths.is_valid_chunk(index as int, #[trigger] out@[j].offset as int, out@[j].size as int)
                    && out@[j] == self.lengths.chunk_of(index as int, out@[j].offset as int)
                    && !l0.contains(InflightRequest { piece: index, chunk: out@[j].chunk_index }),
            decreases chunks@.len() - k,
        {
            let c = chunks[k];
            let req = InflightRequest { piece: index, chunk: c.chunk_index };
            let ghost before = self.peers.live(addr)->0.inflight_requests@;
            let ghost pre = self.peers;
            let ghost prev_out = out@;
            proof {
                assert(self.lengths.is_valid_chunk(index as int, chunks@[k as int].offset as int, chunks@[k as int].size as int));
                assert forall|j: int| 0 <= j < k implies req_of(index, j) != req_of(index, k as int) by {
                    assert(self.lengths.is_valid_chunk(index as int, chunks@[j].offset as int, chunks@[j].size as int));
                }
                if before.contains(req_of(index, k as int)) && !l0.contains(req_of(index, k as int)) {
                    let j = choose|j: int| 0 <= j < k && req_of(index, k as int) == #[trigger] req_of(index, j);
                }
            }
            match self.peers.add_inflight_request(addr, req) {
                None => {
                    proof {
                        assert(false);
                    }
                    return None;
                },
                Some(added) => {
                    proof {
                        assert(c == chunks@[k as int]);
                        assert(self.lengths.is_valid_chunk(index as int, chunks@[k as int].offset as int, chunks@[k as int].size as int));
                        assert(req == req_of(index, k as int));
                        if added {
                            self.peers.lemma_index(pre.index_of(addr)->0);
                            let after = self.peers.live(addr)->0.inflight_requests@;
                            assert(after == before.push(req));
                            assert(after[after.len() - 1] == req);
                            assert forall|x: InflightRequest| before.contains(x) implies after.contains(x) by {
                                let y = choose|y: int| 0 <= y < before.len() && before[y] == x;
                                assert(after[y] == x);
                            }
                            assert(!l0.contains(req));
                            assert(after.contains(req));
                        } else {
                            assert(before.contains(req));
                        }
                        assert forall|j: int| 0 <= j < k + 1 implies self.peers.live(addr)->0.inflight_requests@.contains(#[trigger] req_of(index, j)) by {
                            if j < k {
                                assert(before.contains(req_of(index, j)));
                            }
                        }
                    }
                    if added {
                        out.push(c);
                        proof {
                            assert forall|m: int| 0 <= m < prev_out.len() implies prev_out[m].offset < c.offset by {
                                let cl = self.lengths.chunk_length as int;
                                let cm = prev_out[m].chunk_index as int;
                                assert(cm * cl < (k as int) * cl) by (nonlinear_arith)
                                    requires cm < k, cl > 0;
                            }
                        }
                    }
                    proof {
                        let after = self.peers.live(addr)->0.inflight_requests@;
                        assert forall|x: InflightRequest| after.contains(x) implies l0.contains(x)
                            || exists|j: int| 0 <= j < k + 1 && x == #[trigger] req_of(index, j) by {
                            if added {
                                let y = choose|y: int| 0 <= y < after.len() && after[y] == x;
                                if y < before.len() {
                                    assert(before[y] == x);
                                    assert(before.contains(x));
                                } else {
                                    assert(x == req_of(index, k as int));
                                }
                            } else {
                                assert(before.contains(x));
                            }
                            if !l0.contains(x) && before.contains(x) {
                                let j = choose|j: int| 0 <= j < k && x == #[trigger] req_of(index, j);
                            }
                        }
                        assert forall|cc: int| 0 <= cc < k + 1 implies (!l0.contains(#[trigger] req_of(index, cc)) <==> exists|m: int| 0 <= m < out@.len() && out@[m].chunk_index == cc) by {
                            if cc < k {
                                if exists|m: int| 0 <= m < out@.len() && out@[m].chunk_index == cc {
                                    let m = choose|m: int| 0 <= m < out@.len() && out@[m].chunk_index == cc;
                                    if m < prev_out.len() {
                                        assert(prev_out[m].chunk_index == cc);
                                    }
                                }
                                if !l0.contains(req_of(index, cc)) {
                                    let m = choose|m: int| 0 <= m < prev_out.len() && prev_out[m].chunk_index == cc;
                                    assert(out@[m].chunk_index == cc);
                                }
                            } else {
                                if added {
                                    assert(out@[out@.len() - 1].chunk_index == cc);
                                } else {
                                    if exists|m: int| 0 <= m < out@.len() && out@[m].chunk_index == cc {
                                        let m = choose|m: int| 0 <= m < out@.len() && out@[m].chunk_index == cc;
                                        assert(prev_out[m].chunk_index < k);
                                    }
                                }
                            }
                        }
                    }
                },
            }
            k = k + 1;
        }
        Some(out)
    }

    /// A dead peer whose backoff delay has passed goes back to `Queued`.
    /// Returns whether it did; a peer in any other state is left alone.
    pub fn requeue_dead_peer(&mut self, addr: PeerAddr) -> (r: bool)
        requires
            old(self).wf(),
        ensures
            final(self).wf(),
            final(self).locked == old(self).locked,
            final(self).stats == old(self).stats,
            final(self).active_peer_tasks == old(self).active_peer_tasks,
            r == (old(self).peers.has(addr) && old(self).peers.kind(addr) == PeerStateKind::Dead),
            !r ==> final(self).peers.entries@ == old(self).peers.entries@,
            r ==> final(self).peers.has(addr) && final(self).peers.kind(addr) == PeerStateKind::Queued,
    {
        let r = self.peers.dead_to_queued(addr);
        proof {
            if r {
                self.peers.lemma_index(old(self).peers.index_of(addr)->0);
            }
        }
        r
    }
}

} // verus!
