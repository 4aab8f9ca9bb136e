use vstd::prelude::*;

use crate::chunk_tracker::{none_set, bytes_of, lemma_bytes_le_total, ChunkTracker};
use crate::ledger::TorrentStateLocked;
use crate::lengths::Lengths;
use crate::peers::{AggregatePeerStats, Id20, PeerAddr, PeerCounters, PeerStateError, PeerStates, PeerStatsFilter, stats_of};
use crate::speed::SpeedEstimator;
use crate::TorrentStateOptions;

verus! {

/// How many readings the speed estimator keeps.
pub const SPEED_SAMPLES: usize = 5;

/// How many peers may be connecting or connected at once.
pub const MAX_ACTIVE_PEERS: usize = 128;

/// What the metainfo says of the torrent's content.
#[derive(Clone, Debug)]
pub struct TorrentMetaInfo {
    /// The SHA-1 of each piece, 20 bytes each.
    pub piece_hashes: Vec<u8>,
    pub file_names: Vec<String>,
    pub file_lengths: Vec<u64>,
}

/// What identifies a torrent session.
#[derive(Clone, Debug)]
pub struct ManagedTorrentInfo {
    pub info: TorrentMetaInfo,
    pub info_hash: Id20,
    pub peer_id: Id20,
    pub trackers: Vec<String>,
    pub options: TorrentStateOptions,
}

/// Session-wide running totals.
#[derive(Clone, Copy, Debug)]
pub struct SessionStats {
    pub have_bytes: u64,
    pub downloaded_and_checked_bytes: u64,
    pub downloaded_and_checked_pieces: u64,
    pub fetched_bytes: u64,
    pub uploaded_bytes: u64,
    pub total_piece_download_ms: u64,
}

/// A copy of the session's statistics at one moment.
#[derive(Clone, Copy, Debug)]
pub struct StatsSnapshot {
    pub have_bytes: u64,
    pub downloaded_and_checked_bytes: u64,
    pub downloaded_and_checked_pieces: u64,
    pub fetched_bytes: u64,
    pub uploaded_bytes: u64,
    pub total_bytes: u64,
    pub initially_needed_bytes: u64,
    pub remaining_bytes: u64,
    pub total_piece_download_ms: u64,
    pub peer_stats: AggregatePeerStats,
}

/// A stopped session: what a new live session starts from.
pub struct TorrentStatePaused {
    pub info: ManagedTorrentInfo,
    pub chunk_tracker: ChunkTracker,
    pub have_bytes: u64,
}

impl TorrentStatePaused {
    pub open spec fn wf(&self) -> bool {
        self.chunk_tracker.wf() && self.have_bytes == self.chunk_tracker.have_bytes()
    }

    /// Whether the tracker is consistent and `have_bytes` counts its pieces.
    pub fn is_valid(&self) -> (r: bool)
        ensures
            r == self.wf(),
    {
        self.chunk_tracker.is_valid() && self.have_bytes == self.chunk_tracker.calc_have_bytes()
    }

    /// A stopped session of a torrent of which we have the pieces flagged in `have`.
    pub fn new(info: ManagedTorrentInfo, lengths: Lengths, have: Vec<bool>) -> (r: TorrentStatePaused)
        requires
            lengths.wf(),
            have@.len() == lengths.total_pieces,
        ensures
            r.wf(),
            r.chunk_tracker.lengths == lengths,
            r.chunk_tracker.have@ == have@,
            r.have_bytes == bytes_of(lengths, have@, lengths.total_pieces as int),
    {
        let chunk_tracker = ChunkTracker::new(lengths, have);
        let have_bytes = chunk_tracker.calc_have_bytes();
        TorrentStatePaused { info, chunk_tracker, have_bytes }
    }
}

/// Errors of the session's shared state.
#[derive(Clone, Copy, Debug, PartialEq, Eq, Structural)]
pub enum LiveError {
    /// The chunk tracker is gone: the session was paused.
    Paused,
    /// The first fatal error was already reported.
    FatalErrorAlreadyReported,
}

/// What the peer adder does with an address taken from its queue.
#[derive(Clone, Copy, Debug, PartialEq, Eq, Structural)]
pub enum PeerAdderAction {
    /// The torrent is complete: the peer was marked not needed.
    NotNeeded,
    /// A slot was taken: start the peer's task.
    Spawn,
    /// Every slot is taken: try again once a peer task ends.
    WaitForSlot,
}

/// The state of a running torrent session.
pub struct TorrentStateLive {
    pub peers: PeerStates,
    pub meta: ManagedTorrentInfo,
    pub locked: TorrentStateLocked,
    pub stats: SessionStats,
    pub lengths: Lengths,
    pub initial_have_bytes: u64,
    pub initially_needed_bytes: u64,
    /// Peer tasks started and not yet ended.
    pub active_peer_tasks: usize,
    pub speed_estimator: SpeedEstimator,
}

/// Whether piece `q` is listed in `s`.
pub open spec fn is_listed(s: Seq<crate::ledger::InflightPiece>, q: int) -> bool {
    listed_before(s, s.len() as int, q)
}

/// Whether piece `q` is listed among the first `k` entries of `s`.
pub open spec fn listed_before(s: Seq<crate::ledger::InflightPiece>, k: int, q: int) -> bool {
    exists|j: int| 0 <= j < k && j < s.len() && s[j].piece == q
}

impl TorrentStateLive {
    pub open spec fn wf(&self) -> bool {
        &&& self.lengths.wf()
        &&& self.peers.wf()
        &&& self.locked.wf(self.lengths)
        &&& self.active_peer_tasks <= MAX_ACTIVE_PEERS
        &&& self.speed_estimator.wf()
        &&& self.stats.downloaded_and_checked_bytes <= self.initially_needed_bytes
        &&& self.stats.downloaded_and_checked_pieces <= self.stats.downloaded_and_checked_bytes
        &&& self.initial_have_bytes + self.initially_needed_bytes == self.lengths.total_length
        &&& self.locked.chunks matches Some(t) ==> {
            &&& self.stats.have_bytes == t.have_bytes()
            &&& self.initial_have_bytes + self.stats.downloaded_and_checked_bytes == t.have_bytes()
        }
    }

    /// Every byte that was needed at the start has been downloaded and checked.
    pub open spec fn finished(&self) -> bool {
        self.stats.downloaded_and_checked_bytes == self.initially_needed_bytes
    }

    /// A live session resumed from `paused`, with no peers and nothing reserved.
    pub fn new(paused: TorrentStatePaused) -> (r: TorrentStateLive)
        requires
            paused.wf(),
        ensures
            r.wf(),
            r.lengths == paused.chunk_tracker.lengths,
            r.locked.chunks == Some(paused.chunk_tracker),
            r.locked.inflight_pieces@.len() == 0,
            r.locked.fatal_error_pending,
            r.peers.entries@.len() == 0,
            r.active_peer_tasks == 0,
            r.stats == (SessionStats {
                have_bytes: paused.have_bytes,
                downloaded_and_checked_bytes: 0,
                downloaded_and_checked_pieces: 0,
                fetched_bytes: 0,
                uploaded_bytes: 0,
                total_piece_download_ms: 0,
            }),
            r.initially_needed_bytes == paused.chunk_tracker.lengths.total_length - paused.have_bytes,
    {
        let lengths = *paused.chunk_tracker.get_lengths();
        proof {
            lemma_bytes_le_total(lengths, paused.chunk_tracker.have@);
        }
        let have_bytes = paused.have_bytes;
        let needed = lengths.total_length - have_bytes;
        TorrentStateLive {
            peers: PeerStates::new(),
            meta: paused.info,
            locked: TorrentStateLocked {
                chunks: Some(paused.chunk_tracker),
                inflight_pieces: Vec::new(),
                fatal_error_pending: true,
            },
            stats: SessionStats {
                have_bytes,
                downloaded_and_checked_bytes: 0,
                downloaded_and_checked_pieces: 0,
                fetched_bytes: 0,
                uploaded_bytes: 0,
                total_piece_download_ms: 0,
            },
            lengths,
            initial_have_bytes: have_bytes,
            initially_needed_bytes: needed,
            active_peer_tasks: 0,
            speed_estimator: SpeedEstimator::new(SPEED_SAMPLES),
        }
    }

    pub fn meta(&self) -> (r: &ManagedTorrentInfo)
        ensures
            r == &self.meta,
    {
        &self.meta
    }

    pub fn info(&self) -> (r: &TorrentMetaInfo)
        ensures
            r == &self.meta.info,
    {
        &self.meta.info
    }

    pub fn speed_estimator(&self) -> (r: &SpeedEstimator)
        ensures
            r == &self.speed_estimator,
    {
        &self.speed_estimator
    }

    pub fn info_hash(&self) -> (r: Id20)
        ensures
            r == self.meta.info_hash,
    {
        self.meta.info_hash
    }

    pub fn peer_id(&self) -> (r: Id20)
        ensures
            r == self.meta.peer_id,
    {
        self.meta.peer_id
    }

    pub fn lengths(&self) -> (r: &Lengths)
        ensures
            r == &self.lengths,
    {
        &self.lengths
    }

    /// Bytes that were missing when the session started.
    pub fn initially_needed(&self) -> (r: u64)
        ensures
            r == self.initially_needed_bytes,
    {
        self.initially_needed_bytes
    }

    pub fn get_uploaded_bytes(&self) -> (r: u64)
        ensures
            r == self.stats.uploaded_bytes,
    {
        self.stats.uploaded_bytes
    }

    pub fn get_downloaded_bytes(&self) -> (r: u64)
        ensures
            r == self.stats.downloaded_and_checked_bytes,
    {
        self.stats.downloaded_and_checked_bytes
    }

    pub fn get_approx_have_bytes(&self) -> (r: u64)
        ensures
            r == self.stats.have_bytes,
    {
        self.stats.have_bytes
    }

    pub fn get_left_to_download_bytes(&self) -> (r: u64)
        requires
            self.wf(),
        ensures
            r == self.initially_needed_bytes - self.stats.downloaded_and_checked_bytes,
    {
        self.initially_needed_bytes - self.stats.downloaded_and_checked_bytes
    }

    pub fn is_finished(&self) -> (r: bool)
        requires
            self.wf(),
        ensures
            r == self.finished(),
    {
        self.get_left_to_download_bytes() == 0
    }

    pub fn stats_snapshot(&self) -> (r: StatsSnapshot)
        requires
            self.wf(),
        ensures
            r == (StatsSnapshot {
                have_bytes: self.stats.have_bytes,
                downloaded_and_checked_bytes: self.stats.downloaded_and_checked_bytes,
                downloaded_and_checked_pieces: self.stats.downloaded_and_checked_pieces,
                fetched_bytes: self.stats.fetched_bytes,
                uploaded_bytes: self.stats.uploaded_bytes,
                total_bytes: self.lengths.total_length,
                initially_needed_bytes: self.initially_needed_bytes,
                remaining_bytes: (self.initially_needed_bytes - self.stats.downloaded_and_checked_bytes) as u64,
                total_piece_download_ms: self.stats.total_piece_download_ms,
                peer_stats: self.peers.stats,
            }),
    {
        StatsSnapshot {
            have_bytes: self.stats.have_bytes,
            downloaded_and_checked_bytes: self.stats.downloaded_and_checked_bytes,
            downloaded_and_checked_pieces: self.stats.downloaded_and_checked_pieces,
            fetched_bytes: self.stats.fetched_bytes,
            uploaded_bytes: self.stats.uploaded_bytes,
            total_bytes: self.lengths.total_length,
            initially_needed_bytes: self.initially_needed_bytes,
            remaining_bytes: self.initially_needed_bytes - self.stats.downloaded_and_checked_bytes,
            total_piece_download_ms: self.stats.total_piece_download_ms,
            peer_stats: self.peers.stats,
        }
    }

    /// Address and counters of each peer that `filter` admits.
    pub fn per_peer_stats_snapshot(&self, filter: PeerStatsFilter) -> (r: Vec<(PeerAddr, PeerCounters)>)
        ensures
            r@ == stats_of(self.peers.entries@, filter),
    {
        self.peers.per_peer_stats(filter)
    }

    /// Stops the session: takes the chunk tracker out, and makes every
    /// reserved piece that we do not have needed again with none of its
    /// chunks done, so that partial progress is not trusted on resume.
    pub fn pause(&mut self) -> (r: Result<TorrentStatePaused, LiveError>)
        requires
            old(self).wf(),
        ensures
            final(self).wf(),
            final(self).locked.chunks is None,
            final(self).locked.inflight_pieces == old(self).locked.inflight_pieces,
            final(self).stats == old(self).stats,
            final(self).peers == old(self).peers,
            old(self).locked.chunks is None ==> r == Err::<TorrentStatePaused, LiveError>(LiveError::Paused),
            old(self).locked.chunks matches Some(t) ==> r matches Ok(p) && {
                &&& p.wf()
                &&& p.chunk_tracker.lengths == t.lengths
                &&& p.chunk_tracker.have@ == t.have@
                &&& p.have_bytes == old(self).stats.have_bytes
                &&& forall|i: int| 0 <= i < old(self).locked.inflight_pieces@.len() ==> {
                    let q = #[trigger] old(self).locked.inflight_pieces@[i].piece as int;
                    &&& !t.have@[q]
                    &&& p.chunk_tracker.needed@[q]
                    &&& none_set(p.chunk_tracker.chunks_of(q))
                }
                &&& p.chunk_tracker.chunk_status@.len() == t.chunk_status@.len()
                &&& forall|q: int| 0 <= q < t.lengths.total_pieces && !is_listed(old(self).locked.inflight_pieces@, q)
                    ==> p.chunk_tracker.needed@[q] == t.needed@[q] && #[trigger] p.chunk_tracker.chunk_status@[q] == t.chunk_status@[q]
            },
    {
        let mut t = match self.locked.chunks.take() {
            None => return Err(LiveError::Paused),
            Some(t) => t,
        };
        let ghost t0 = t;
        let ghost s = self.locked.inflight_pieces@;
        let mut i: usize = 0;
        while i < self.locked.inflight_pieces.len()
            invariant
                self.locked.inflight_pieces@ == s,
                self.locked.wf(self.lengths),
                t.wf(),
                t.lengths == self.lengths,
                t.have@ == t0.have@,
                t0.wf(),
                t0.lengths == t.lengths,
                crate::ledger::all_reserved(t0, s),
                i <= s.len(),
                forall|a: int, b: int| 0 <= a < b < s.len() ==> s[a].piece != s[b].piece,
                forall|j: int| 0 <= j < i ==> {
                    let q = #[trigger] s[j].piece as int;
                    !t0.have@[q] ==> t.needed@[q] && none_set(t.chunks_of(q))
                },
                forall|q: int| 0 <= q < t0.lengths.total_pieces && !listed_before(s, i as int, q)
                    ==> #[trigger] t.needed@[q] == t0.needed@[q],
                forall|q: int| 0 <= q < t0.lengths.total_pieces && !listed_before(s, i as int, q)
                    ==> #[trigger] t.chunk_status@[q] == t0.chunk_status@[q],
            decreases s.len() - i,
        {
            let p = self.locked.inflight_pieces[i].piece;
            let ghost before = t;
            t.mark_piece_broken(p);
            proof {
                assert forall|q: int| 0 <= q < t0.lengths.total_pieces && !listed_before(s, i + 1, q)
                    implies #[trigger] t.needed@[q] == t0.needed@[q] && t.chunk_status@[q] == t0.chunk_status@[q] by {
                    assert(s[i as int].piece == p);
                    assert(q != p);
                    if listed_before(s, i as int, q) {
                        let j = choose|j: int| 0 <= j < i && j < s.len() && s[j].piece == q;
                        assert(listed_before(s, i + 1, q));
                    }
                    assert(!listed_before(s, i as int, q));
                    assert(before.chunk_status@[q] == t0.chunk_status@[q]);
                    assert(before.needed@[q] == t0.needed@[q]);
                    if before.have@[p as int] {
                        assert(t.needed@[q] == before.needed@[q]);
                        assert(t.chunk_status@[q] == before.chunk_status@[q]);
                    } else {
                        assert(t.needed@ == before.needed@.update(p as int, true));
                        assert(q != p as int);
                        assert(t.needed@[q] == before.needed@[q]);
                        assert(t.chunk_status@[q] == before.chunk_status@[q]);
                    }
                }
                assert forall|j: int| 0 <= j < i + 1 implies {
                    let q = #[trigger] s[j].piece as int;
                    !t0.have@[q] ==> t.needed@[q] && none_set(t.chunks_of(q))
                } by {
                    let q = s[j].piece as int;
                    if j < i && !t0.have@[q] {
                        assert(q != p);
                        assert(t.needed@[q] == before.needed@[q]);
                        assert(t.chunk_status@[q] == before.chunk_status@[q]);
                    }
                }
            }
            let ghost old_i = i as int;
            i = i + 1;
            proof {
                assert(i as int == old_i + 1);
                assert forall|q: int| 0 <= q < t0.lengths.total_pieces && !listed_before(s, i as int, q)
                    implies #[trigger] t.needed@[q] == t0.needed@[q] by {
                    assert(!listed_before(s, old_i + 1, q));
                }
                assert forall|q: int| 0 <= q < t0.lengths.total_pieces && !listed_before(s, i as int, q)
                    implies #[trigger] t.chunk_status@[q] == t0.chunk_status@[q] by {
                    assert(!listed_before(s, old_i + 1, q));
                    assert(t.needed@[q] == t0.needed@[q]);
                }
            }
        }
        proof {
            assert forall|j: int| 0 <= j < s.len() implies !t0.have@[#[trigger] s[j].piece as int] by {
                assert(crate::ledger::is_reserved(t0, s[j].piece));
            }
        }
        let have_bytes = t.calc_have_bytes();
        Ok(TorrentStatePaused { info: self.meta.clone(), chunk_tracker: t, have_bytes })
    }

    /// Takes the right to report a fatal error: true the first time only.
    pub fn on_fatal_error(&mut self) -> (r: Result<(), LiveError>)
        requires
            old(self).wf(),
        ensures
            final(self).wf(),
            r is Ok <==> old(self).locked.fatal_error_pending,
            r is Err ==> r == Err::<(), LiveError>(LiveError::FatalErrorAlreadyReported),
            !final(self).locked.fatal_error_pending,
            final(self).locked.chunks == old(self).locked.chunks,
            final(self).locked.inflight_pieces == old(self).locked.inflight_pieces,
    {
        if !self.locked.fatal_error_pending {
            return Err(LiveError::FatalErrorAlreadyReported);
        }
        self.locked.fatal_error_pending = false;
        Ok(())
    }

    /// Adds a newly learned address as queued. Returns whether it was new,
    /// in which case it is to be handed to the peer adder.
    pub fn add_peer_if_not_seen(&mut self, addr: PeerAddr) -> (r: bool)
        requires
            old(self).wf(),
        ensures
            final(self).wf(),
            r == !old(self).peers.has(addr),
            final(self).peers.has(addr),
            final(self).locked == old(self).locked,
            final(self).stats == old(self).stats,
            final(self).active_peer_tasks == old(self).active_peer_tasks,
            !r ==> final(self).peers.entries@ == old(self).peers.entries@,
            r ==> final(self).peers.entries@.len() == old(self).peers.entries@.len() + 1
                && final(self).peers.entries@.drop_last() == old(self).peers.entries@
                && final(self).peers.entries@.last().addr == addr
                && final(self).peers.entries@.last().state is Queued
                && final(self).peers.entries@.last().counters == crate::peers::zero_counters()
                && final(self).peers.kind(addr) == crate::peers::PeerStateKind::Queued,
    {
        let r = self.peers.add_if_not_seen(addr);
        proof {
            if r {
                self.peers.lemma_index(self.peers.entries@.len() - 1);
            }
        }
        r
    }

    /// Decides what the peer adder does with an address from its queue.
    pub fn on_peer_dequeued(&mut self, addr: PeerAddr) -> (r: PeerAdderAction)
        requires
            old(self).wf(),
        ensures
            final(self).wf(),
            old(self).finished() ==> r == PeerAdderAction::NotNeeded && final(self).active_peer_tasks == old(self).active_peer_tasks
                && (old(self).peers.has(addr) ==> final(self).peers.entries@ == old(self).peers.with_state(
                    old(self).peers.index_of(addr)->0, crate::peers::PeerState::NotNeeded)),
            !old(self).finished() && old(self).active_peer_tasks < MAX_ACTIVE_PEERS ==> r == PeerAdderAction::Spawn
                && final(self).active_peer_tasks == old(self).active_peer_tasks + 1
                && final(self).peers == old(self).peers,
            !old(self).finished() && old(self).active_peer_tasks >= MAX_ACTIVE_PEERS ==> r == PeerAdderAction::WaitForSlot
                && final(self).active_peer_tasks == old(self).active_peer_tasks
                && final(self).peers == old(self).peers,
    {
        if self.is_finished() {
            self.peers.mark_peer_not_needed(addr);
            return PeerAdderAction::NotNeeded;
        }
        if self.active_peer_tasks < MAX_ACTIVE_PEERS {
            self.active_peer_tasks = self.active_peer_tasks + 1;
            PeerAdderAction::Spawn
        } else {
            PeerAdderAction::WaitForSlot
        }
    }

    /// A peer task ended: its slot is free again.
    pub fn release_peer_slot(&mut self)
        requires
            old(self).wf(),
        ensures
            final(self).wf(),
            final(self).active_peer_tasks == if old(self).active_peer_tasks > 0 {
                old(self).active_peer_tasks - 1
            } else {
                0
            },
            final(self).peers == old(self).peers,
    {
        if self.active_peer_tasks > 0 {
            self.active_peer_tasks = self.active_peer_tasks - 1;
        }
    }
}

} // verus!
