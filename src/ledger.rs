use vstd::prelude::*;

use crate::chunk_tracker::ChunkTracker;
use crate::lengths::Lengths;
use crate::peers::PeerAddr;

verus! {

/// A piece reserved for download from one peer since `started_ms`.
#[derive(Clone, Copy, Debug, PartialEq, Eq, Structural)]
pub struct InflightPiece {
    pub piece: u32,
    pub peer: PeerAddr,
    pub started_ms: u64,
}

/// Milliseconds from `started` to `now`; zero if the clock went back.
pub open spec fn elapsed(started: u64, now: u64) -> u64 {
    if now >= started {
        (now - started) as u64
    } else {
        0
    }
}

pub fn elapsed_ms(started: u64, now: u64) -> (r: u64)
    ensures
        r == elapsed(started, now),
{
    if now >= started {
        now - started
    } else {
        0
    }
}

/// The state that all peers share: the chunk tracker (absent once paused),
/// the reserved pieces and who they are reserved for, and whether the
/// first fatal error is still to be reported.
pub struct TorrentStateLocked {
    pub chunks: Option<ChunkTracker>,
    pub inflight_pieces: Vec<InflightPiece>,
    pub fatal_error_pending: bool,
}

/// Whether two trackers hold the same flags.
pub open spec fn same_tracker(a: ChunkTracker, b: ChunkTracker) -> bool {
    &&& a.lengths == b.lengths
    &&& a.needed@ == b.needed@
    &&& a.have@ == b.have@
    &&& a.chunk_status@ == b.chunk_status@
}

/// Whether the tracker holds piece `p` reserved: neither needed nor had.
pub open spec fn is_reserved(t: ChunkTracker, p: u32) -> bool {
    !t.needed@[p as int] && !t.have@[p as int]
}

/// Whether every listed piece is reserved in the tracker.
pub open spec fn all_reserved(t: ChunkTracker, s: Seq<InflightPiece>) -> bool {
    forall|i: int| 0 <= i < s.len() ==> is_reserved(t, #[trigger] s[i].piece)
}

impl TorrentStateLocked {
    /// Whether two ledgers hold the same contents.
    pub open spec fn same_as(&self, o: TorrentStateLocked) -> bool {
        &&& self.inflight_pieces@ == o.inflight_pieces@
        &&& self.fatal_error_pending == o.fatal_error_pending
        &&& (self.chunks is Some <==> o.chunks is Some)
        &&& self.chunks is Some ==> same_tracker(self.chunks->0, o.chunks->0)
    }

    pub open spec fn wf(&self, l: Lengths) -> bool {
        let s = self.inflight_pieces@;
        &&& forall|i: int, j: int| 0 <= i < j < s.len() ==> s[i].piece != s[j].piece
        &&& forall|i: int| 0 <= i < s.len() ==> #[trigger] s[i].piece < l.total_pieces
        &&& self.chunks matches Some(t) ==> t.wf() && t.lengths == l && all_reserved(t, s)
    }

    /// Index of the reservation of piece `p`.
    pub open spec fn index_of(&self, p: u32) -> Option<int> {
        if exists|i: int| 0 <= i < self.inflight_pieces@.len() && self.inflight_pieces@[i].piece == p {
            Some(choose|i: int| 0 <= i < self.inflight_pieces@.len() && self.inflight_pieces@[i].piece == p)
        } else {
            None
        }
    }

    /// The reservation of piece `p`.
    pub open spec fn owner(&self, p: u32) -> Option<InflightPiece> {
        match self.index_of(p) {
            Some(i) => Some(self.inflight_pieces@[i]),
            None => None,
        }
    }

    pub proof fn lemma_index(&self, l: Lengths, i: int)
        requires
            self.wf(l),
            0 <= i < self.inflight_pieces@.len(),
        ensures
            self.index_of(self.inflight_pieces@[i].piece) == Some(i),
    {
    }

    pub fn find_inflight(&self, l: Ghost<Lengths>, p: u32) -> (r: Option<usize>)
        requires
            self.wf(l@),
        ensures
            r == match self.index_of(p) {
                Some(i) => Some(i as usize),
                None => None::<usize>,
            },
            r matches Some(i) ==> i < self.inflight_pieces@.len() && self.inflight_pieces@[i as int].piece == p,
    {
        let mut i: usize = 0;
        while i < self.inflight_pieces.len()
            invariant
                self.wf(l@),
                i <= self.inflight_pieces@.len(),
                forall|j: int| 0 <= j < i ==> self.inflight_pieces@[j].piece != p,
            decreases self.inflight_pieces@.len() - i,
        {
            if self.inflight_pieces[i].piece == p {
                proof {
                    self.lemma_index(l@, i as int);
                }
                return Some(i);
            }
            i = i + 1;
        }
        None
    }

    /// Reserves piece `p` for `peer` from `now`, replacing any reservation of it.
    pub fn set_inflight(&mut self, l: Ghost<Lengths>, p: u32, peer: PeerAddr, now: u64)
        requires
            old(self).wf(l@),
            p < l@.total_pieces,
            old(self).chunks matches Some(t) ==> is_reserved(t, p),
        ensures
            final(self).wf(l@),
            final(self).chunks == old(self).chunks,
            final(self).fatal_error_pending == old(self).fatal_error_pending,
            final(self).owner(p) == Some(InflightPiece { piece: p, peer, started_ms: now }),
            forall|q: u32| q != p ==> #[trigger] final(self).owner(q) == old(self).owner(q),
            final(self).inflight_pieces@ == match old(self).index_of(p) {
                Some(i) => old(self).inflight_pieces@.update(i, InflightPiece { piece: p, peer, started_ms: now }),
                None => old(self).inflight_pieces@.push(InflightPiece { piece: p, peer, started_ms: now }),
            },
    {
        let ghost s = self.inflight_pieces@;
        let e = InflightPiece { piece: p, peer, started_ms: now };
        match self.find_inflight(l, p) {
            Some(i) => {
                self.inflight_pieces.set(i, e);
                proof {
                    let t = self.inflight_pieces@;
                    assert forall|a: int| 0 <= a < t.len() implies #[trigger] t[a].piece == s[a].piece by {}
                    assert forall|a: int, b: int| 0 <= a < b < t.len() implies t[a].piece != t[b].piece by {
                        assert(t[a].piece == s[a].piece);
                        assert(t[b].piece == s[b].piece);
                    }
                    assert(self.wf(l@));
                    self.lemma_index(l@, i as int);
                    assert forall|q: u32| q != p implies #[trigger] self.owner(q) == old(self).owner(q) by {
                        match old(self).index_of(q) {
                            Some(j) => {
                                assert(t[j] == s[j]);
                                self.lemma_index(l@, j);
                            },
                            None => {
                                if self.index_of(q) is Some {
                                    let j = self.index_of(q)->0;
                                    assert(t[j].piece == q);
                                    assert(s[j].piece == q);
                                }
                            },
                        }
                    }
                }
            },
            None => {
                self.inflight_pieces.push(e);
                proof {
                    let t = self.inflight_pieces@;
                    assert forall|a: int, b: int| 0 <= a < b < t.len() implies t[a].piece != t[b].piece by {
                        if b == s.len() {
                            assert(t[a] == s[a]);
                            assert(s[a].piece != p);
                        } else {
                            assert(t[a] == s[a]);
                            assert(t[b] == s[b]);
                        }
                    }
                    assert(self.wf(l@));
                    self.lemma_index(l@, s.len() as int);
                    assert forall|q: u32| q != p implies #[trigger] self.owner(q) == old(self).owner(q) by {
                        match old(self).index_of(q) {
                            Some(j) => {
                                assert(t[j] == s[j]);
                                self.lemma_index(l@, j);
                            },
                            None => {
                                if self.index_of(q) is Some {
                                    let j = self.index_of(q)->0;
                                    assert(t[j].piece == q);
                                    assert(j < s.len());
                                    assert(s[j].piece == q);
                                }
                            },
                        }
                    }
                }
            },
        }
    }


    /// Among the pieces reserved for peers other than `me`, takes the one
    /// reserved longest ago, if more than `limit_ms` have passed since: it is
    /// then reserved for `me` from `now`.
    pub fn steal_slowest(&mut self, l: Ghost<Lengths>, me: PeerAddr, limit_ms: u128, now: u64) -> (r: Option<u32>)
        requires
            old(self).wf(l@),
        ensures
            final(self).wf(l@),
            final(self).chunks == old(self).chunks,
            final(self).fatal_error_pending == old(self).fatal_error_pending,
            r is None ==> *final(self) == *old(self)
                && forall|j: int| 0 <= j < old(self).inflight_pieces@.len()
                    && #[trigger] old(self).inflight_pieces@[j].peer != me
                    ==> elapsed(old(self).inflight_pieces@[j].started_ms, now) <= limit_ms,
            r matches Some(p) ==> {
                let o = old(self).owner(p);
                &&& o is Some
                &&& o->0.peer != me
                &&& elapsed(o->0.started_ms, now) > limit_ms
                &&& forall|j: int| 0 <= j < old(self).inflight_pieces@.len()
                    && #[trigger] old(self).inflight_pieces@[j].peer != me
                    ==> elapsed(old(self).inflight_pieces@[j].started_ms, now) <= elapsed(o->0.started_ms, now)
                &&& final(self).owner(p) == Some(InflightPiece { piece: p, peer: me, started_ms: now })
                &&& forall|q: u32| q != p ==> #[trigger] final(self).owner(q) == old(self).owner(q)
            },
    {
        let mut best: Option<usize> = None;
        let mut best_elapsed: u64 = 0;
        let mut i: usize = 0;
        let ghost s = self.inflight_pieces@;
        while i < self.inflight_pieces.len()
            invariant
                self.inflight_pieces@ == s,
                i <= s.len(),
                best matches Some(b) ==> b < i && s[b as int].peer != me && best_elapsed == elapsed(s[b as int].started_ms, now),
                forall|j: int| 0 <= j < i && #[trigger] s[j].peer != me ==> best is Some && elapsed(s[j].started_ms, now) <= best_elapsed,
            decreases s.len() - i,
        {
            let e = self.inflight_pieces[i];
            if e.peer != me {
                let el = elapsed_ms(e.started_ms, now);
                if best.is_none() || el > best_elapsed {
                    best = Some(i);
                    best_elapsed = el;
                }
            }
            i = i + 1;
        }
        match best {
            None => None,
            Some(b) => {
                if (best_elapsed as u128) > limit_ms {
                    let p = self.inflight_pieces[b].piece;
                    proof {
                        self.lemma_index(l@, b as int);
                    }
                    self.set_inflight(l, p, me, now);
                    Some(p)
                } else {
                    None
                }
            },
        }
    }


    /// Drops the reservations of the pieces that `t` does not hold reserved,
    /// while the tracker is out of the ledger.
    pub fn retain_reserved(&mut self, l: Ghost<Lengths>, t: &ChunkTracker)
        requires
            old(self).wf(l@),
            old(self).chunks is None,
            t.wf(),
            t.lengths == l@,
        ensures
            final(self).wf(l@),
            final(self).chunks is None,
            final(self).fatal_error_pending == old(self).fatal_error_pending,
            all_reserved(*t, final(self).inflight_pieces@),
            forall|q: u32| #[trigger] final(self).owner(q) == if old(self).owner(q) is Some && !is_reserved(*t, q) {
                None
            } else {
                old(self).owner(q)
            },
    {
        let ghost s = self.inflight_pieces@;
        let ghost mut idx: Seq<int> = Seq::empty();
        let mut out: Vec<InflightPiece> = Vec::new();
        let mut i: usize = 0;
        while i < self.inflight_pieces.len()
            invariant
                self.inflight_pieces@ == s,
                self.wf(l@),
                t.wf(),
                t.lengths == l@,
                i <= s.len(),
                idx.len() == out@.len(),
                forall|m: int| 0 <= m < out@.len() ==> 0 <= #[trigger] idx[m] < i && out@[m] == s[idx[m]]
                    && is_reserved(*t, out@[m].piece),
                forall|a: int, b: int| 0 <= a < b < idx.len() ==> idx[a] < idx[b],
                forall|k: int| 0 <= k < i && is_reserved(*t, #[trigger] s[k].piece) ==> exists|m: int| 0 <= m < out@.len() && idx[m] == k,
            decreases s.len() - i,
        {
            let e = self.inflight_pieces[i];
            let ghost prev_idx = idx;
            let ghost prev_len = out@.len();
            if !t.needed[e.piece as usize] && !t.get_have_pieces()[e.piece as usize] {
                out.push(e);
                proof {
                    idx = idx.push(i as int);
                    assert(idx[idx.len() - 1] == i);
                }
            }
            proof {
                assert forall|k: int| 0 <= k < i + 1 && is_reserved(*t, #[trigger] s[k].piece) implies exists|m: int| 0 <= m < out@.len() && idx[m] == k by {
                    if k == i {
                        assert(is_reserved(*t, e.piece));
                        assert(idx[idx.len() - 1] == k);
                    } else {
                        let m = choose|m: int| 0 <= m < prev_len && prev_idx[m] == k;
                        assert(idx[m] == k);
                    }
                }
            }
            i = i + 1;
        }
        self.inflight_pieces = out;
        proof {
            let o = self.inflight_pieces@;
            assert forall|m: int| 0 <= m < o.len() implies is_reserved(*t, #[trigger] o[m].piece) by {
                assert(o[m] == s[idx[m]]);
            }
            assert forall|a: int, b: int| 0 <= a < b < o.len() implies o[a].piece != o[b].piece by {
                assert(idx[a] < idx[b]);
            }
            assert forall|m: int| 0 <= m < o.len() implies #[trigger] o[m].piece < l@.total_pieces by {
                assert(o[m] == s[idx[m]]);
            }
            assert forall|q: u32| #[trigger] self.owner(q) == if old(self).owner(q) is Some && !is_reserved(*t, q) {
                None
            } else {
                old(self).owner(q)
            } by {
                if self.index_of(q) is Some {
                    let m = self.index_of(q)->0;
                    assert(o[m] == s[idx[m]]);
                    old(self).lemma_index(l@, idx[m]);
                } else {
                    if old(self).owner(q) is Some && is_reserved(*t, q) {
                        let k = old(self).index_of(q)->0;
                        assert(is_reserved(*t, s[k].piece));
                        let m = choose|m: int| 0 <= m < o.len() && idx[m] == k;
                        assert(o[m].piece == q);
                    }
                }
            }
        }
    }

    /// Drops the reservation of piece `p` and returns it.
    pub fn remove_inflight(&mut self, l: Ghost<Lengths>, p: u32) -> (r: Option<InflightPiece>)
        requires
            old(self).wf(l@),
        ensures
            final(self).wf(l@),
            final(self).chunks == old(self).chunks,
            final(self).fatal_error_pending == old(self).fatal_error_pending,
            r == old(self).owner(p),
            final(self).owner(p) is None,
            forall|q: u32| q != p ==> #[trigger] final(self).owner(q) == old(self).owner(q),
            final(self).inflight_pieces@ == match old(self).index_of(p) {
                Some(i) => old(self).inflight_pieces@.remove(i),
                None => old(self).inflight_pieces@,
            },
    {
        let ghost s = self.inflight_pieces@;
        match self.find_inflight(l, p) {
            Some(i) => {
                let r = self.inflight_pieces.remove(i);
                proof {
                    let t = self.inflight_pieces@;
                    assert(t =~= s.remove(i as int));
                    assert forall|a: int, b: int| 0 <= a < b < t.len() implies t[a].piece != t[b].piece by {
                        let a2 = if a < i { a } else { a + 1 };
                        let b2 = if b < i { b } else { b + 1 };
                        assert(t[a] == s[a2]);
                        assert(t[b] == s[b2]);
                    }
                    assert forall|j: int| 0 <= j < t.len() implies #[trigger] t[j].piece < l@.total_pieces by {
                        let j2 = if j < i { j } else { j + 1 };
                        assert(t[j] == s[j2]);
                    }
                    if self.index_of(p) is Some {
                        let j = self.index_of(p)->0;
                        let j2 = if j < i { j } else { j + 1 };
                        assert(t[j] == s[j2]);
                    }
                    assert forall|q: u32| q != p implies #[trigger] self.owner(q) == old(self).owner(q) by {
                        match old(self).index_of(q) {
                            Some(j) => {
                                let j1 = if j < i { j } else { j - 1 };
                                assert(j != i);
                                assert(t[j1] == s[j]);
                                self.lemma_index(l@, j1);
                            },
                            None => {
                                if self.index_of(q) is Some {
                                    let j = self.index_of(q)->0;
                                    let j2 = if j < i { j } else { j + 1 };
                                    assert(t[j] == s[j2]);
                                }
                            },
                        }
                    }
                }
                Some(r)
            },
            None => None,
        }
    }
}

} // verus!
