use vstd::prelude::*;

use crate::bitfield::has_bit;
use crate::chunk_tracker::{all_set, ChunkTracker};
use crate::handler::cancel_effect;
use crate::live::{TorrentStateLive, MAX_ACTIVE_PEERS};
use crate::peers::{count_kind, InflightRequest, PeerAddr, PeerStateKind, PeerStates};

verus! {

/// Checked bytes never exceed the bytes that were missing at the start.
pub proof fn lemma_downloaded_within_needed(s: TorrentStateLive)
    requires
        s.wf(),
    ensures
        s.stats.downloaded_and_checked_bytes <= s.initially_needed_bytes,
{
}

/// No piece is reserved twice.
pub proof fn lemma_one_reservation_per_piece(s: TorrentStateLive)
    requires
        s.wf(),
    ensures
        forall|i: int, j: int|
            0 <= i < j < s.locked.inflight_pieces@.len() ==> s.locked.inflight_pieces@[i].piece
                != s.locked.inflight_pieces@[j].piece,
{
}

/// A listed reservation is one that the tracker holds: the piece is neither
/// needed nor had.
pub proof fn lemma_reservations_match_tracker(s: TorrentStateLive, i: int)
    requires
        s.wf(),
        s.locked.chunks is Some,
        0 <= i < s.locked.inflight_pieces@.len(),
    ensures
        !s.locked.chunks->0.is_needed(s.locked.inflight_pieces@[i].piece as int),
        !s.locked.chunks->0.is_had(s.locked.inflight_pieces@[i].piece as int),
{
    assert(crate::ledger::is_reserved(s.locked.chunks->0, s.locked.inflight_pieces@[i].piece));
}

/// A piece that a live peer has a request for is either not reserved, or
/// reserved (for that peer or another) under its own index.
pub proof fn lemma_request_owner(s: TorrentStateLive, a: PeerAddr, req: InflightRequest)
    requires
        s.wf(),
        s.peers.live(a) is Some,
        s.peers.live(a)->0.inflight_requests@.contains(req),
    ensures
        s.locked.owner(req.piece) is None || s.locked.owner(req.piece)->0.piece == req.piece,
{
}

/// The per-state totals equal the number of entries in each state.
pub proof fn lemma_peer_counts(p: PeerStates)
    requires
        p.wf(),
    ensures
        p.stats.queued == count_kind(p.entries@, PeerStateKind::Queued),
        p.stats.connecting == count_kind(p.entries@, PeerStateKind::Connecting),
        p.stats.live == count_kind(p.entries@, PeerStateKind::Live),
        p.stats.dead == count_kind(p.entries@, PeerStateKind::Dead),
        p.stats.not_needed == count_kind(p.entries@, PeerStateKind::NotNeeded),
{
    assert(p.stats.get(PeerStateKind::Queued) == count_kind(p.entries@, PeerStateKind::Queued));
    assert(p.stats.get(PeerStateKind::Connecting) == count_kind(p.entries@, PeerStateKind::Connecting));
    assert(p.stats.get(PeerStateKind::Live) == count_kind(p.entries@, PeerStateKind::Live));
    assert(p.stats.get(PeerStateKind::Dead) == count_kind(p.entries@, PeerStateKind::Dead));
    assert(p.stats.get(PeerStateKind::NotNeeded) == count_kind(p.entries@, PeerStateKind::NotNeeded));
}

/// At most 128 peer tasks run at once.
pub proof fn lemma_active_peers_capped(s: TorrentStateLive)
    requires
        s.wf(),
    ensures
        s.active_peer_tasks <= MAX_ACTIVE_PEERS,
{
}

/// Reserving a needed piece whose chunks are not all done, then abandoning
/// requests that include one of that piece, makes it needed again; when all
/// the abandoned requests are of that piece, the needed flags are as before.
pub proof fn lemma_reserve_cancel_round_trip(
    t0: ChunkTracker,
    t1: ChunkTracker,
    t2: ChunkTracker,
    p: u32,
    reqs: Seq<InflightRequest>,
)
    requires
        t0.wf(),
        p < t0.lengths.total_pieces,
        t0.is_needed(p as int),
        !all_set(t0.chunks_of(p as int)),
        t1.wf(),
        t1.lengths == t0.lengths,
        t1.needed@ == t0.needed@.update(p as int, false),
        t1.have@ == t0.have@,
        t1.chunk_status@ == t0.chunk_status@,
        t2.needed@ == cancel_effect(t1, reqs),
        exists|j: int| 0 <= j < reqs.len() && reqs[j].piece == p,
    ensures
        t2.is_needed(p as int),
        (forall|j: int| 0 <= j < reqs.len() ==> reqs[j].piece == p) ==> t2.needed@ == t0.needed@,
{
    assert(t1.chunks_of(p as int) == t0.chunks_of(p as int));
    if forall|j: int| 0 <= j < reqs.len() ==> reqs[j].piece == p {
        assert forall|q: int| 0 <= q < t0.needed@.len() implies t2.needed@[q] == t0.needed@[q] by {
            if q != p {
                if exists|j: int| 0 <= j < reqs.len() && reqs[j].piece == q {
                    let j = choose|j: int| 0 <= j < reqs.len() && reqs[j].piece == q;
                }
            }
        }
        assert(t2.needed@ =~= t0.needed@);
    }
}

/// A peer whose bitfield already records piece `p` is never sent `Have(p)`:
/// announcing `p` twice tells it no more than announcing it once.
pub proof fn lemma_have_skips_holders(peers: PeerStates, a: PeerAddr, p: int)
    requires
        peers.live(a) is Some,
        has_bit(peers.live(a)->0.bitfield@, p),
    ensures
        !peers.should_get_have(a, p),
{
}

} // verus!
