use vstd::prelude::*;

use crate::bitfield::has_bit;

verus! {

/// A remote peer's address: an IPv6 (or IPv4-mapped) address and a port.
#[derive(Clone, Copy, Debug, PartialEq, Eq, Structural, Hash)]
pub struct PeerAddr {
    pub ip: u128,
    pub port: u16,
}

/// A 20-byte identifier (info-hash or peer id).
#[derive(Clone, Copy, Debug)]
pub struct Id20 {
    pub bytes: [u8; 20],
}

/// A chunk request sent to a peer and not yet answered.
#[derive(Clone, Copy, Debug, PartialEq, Eq, Structural)]
pub struct InflightRequest {
    pub piece: u32,
    pub chunk: u32,
}

/// What we know of a connected peer.
pub struct LivePeerData {
    pub peer_id: Id20,
    /// One flag per piece that the peer has; empty until it tells us.
    pub bitfield: Vec<bool>,
    /// Requests sent and not answered; no request appears twice.
    pub inflight_requests: Vec<InflightRequest>,
    pub peer_interested: bool,
}

pub enum PeerState {
    Queued,
    Connecting,
    Live(LivePeerData),
    Dead,
    NotNeeded,
}

#[derive(Clone, Copy, Debug, PartialEq, Eq, Structural)]
pub enum PeerStateKind {
    Queued,
    Connecting,
    Live,
    Dead,
    NotNeeded,
}

pub open spec fn kind_of(st: PeerState) -> PeerStateKind {
    match st {
        PeerState::Queued => PeerStateKind::Queued,
        PeerState::Connecting => PeerStateKind::Connecting,
        PeerState::Live(_) => PeerStateKind::Live,
        PeerState::Dead => PeerStateKind::Dead,
        PeerState::NotNeeded => PeerStateKind::NotNeeded,
    }
}

impl PeerState {
    pub fn kind(&self) -> (r: PeerStateKind)
        ensures
            r == kind_of(*self),
    {
        match self {
            PeerState::Queued => PeerStateKind::Queued,
            PeerState::Connecting => PeerStateKind::Connecting,
            PeerState::Live(_) => PeerStateKind::Live,
            PeerState::Dead => PeerStateKind::Dead,
            PeerState::NotNeeded => PeerStateKind::NotNeeded,
        }
    }
}

/// Per-peer statistics, each a running total.
#[derive(Clone, Copy, Debug)]
pub struct PeerCounters {
    pub connection_attempts: u64,
    pub connections: u64,
    pub errors: u64,
    pub fetched_bytes: u64,
    pub fetched_chunks: u64,
    pub downloaded_and_checked_pieces: u64,
    pub downloaded_and_checked_bytes: u64,
    pub total_time_connecting_ms: u64,
}

pub open spec fn zero_counters() -> PeerCounters {
    PeerCounters {
        connection_attempts: 0,
        connections: 0,
        errors: 0,
        fetched_bytes: 0,
        fetched_chunks: 0,
        downloaded_and_checked_pieces: 0,
        downloaded_and_checked_bytes: 0,
        total_time_connecting_ms: 0,
    }
}

impl PeerCounters {
    pub fn new() -> (r: PeerCounters)
        ensures
            r == zero_counters(),
    {
        PeerCounters {
            connection_attempts: 0,
            connections: 0,
            errors: 0,
            fetched_bytes: 0,
            fetched_chunks: 0,
            downloaded_and_checked_pieces: 0,
            downloaded_and_checked_bytes: 0,
            total_time_connecting_ms: 0,
        }
    }
}

pub struct PeerEntry {
    pub addr: PeerAddr,
    pub state: PeerState,
    pub counters: PeerCounters,
    pub backoff: backoff::ExponentialBackoff,
}

/// How many peers are in each state.
#[derive(Clone, Copy, Debug)]
pub struct AggregatePeerStats {
    pub queued: usize,
    pub connecting: usize,
    pub live: usize,
    pub dead: usize,
    pub not_needed: usize,
}

impl AggregatePeerStats {
    pub open spec fn get(&self, k: PeerStateKind) -> int {
        match k {
            PeerStateKind::Queued => self.queued as int,
            PeerStateKind::Connecting => self.connecting as int,
            PeerStateKind::Live => self.live as int,
            PeerStateKind::Dead => self.dead as int,
            PeerStateKind::NotNeeded => self.not_needed as int,
        }
    }
}

/// Number of entries of `s` in state `k`.
pub open spec fn count_kind(s: Seq<PeerEntry>, k: PeerStateKind) -> int
    decreases s.len(),
{
    if s.len() == 0 {
        0
    } else {
        count_kind(s.drop_last(), k) + if kind_of(s.last().state) == k {
            1int
        } else {
            0
        }
    }
}

pub proof fn lemma_count_bounds(s: Seq<PeerEntry>, k: PeerStateKind)
    ensures
        0 <= count_kind(s, k) <= s.len(),
    decreases s.len(),
{
    if s.len() > 0 {
        lemma_count_bounds(s.drop_last(), k);
    }
}

pub proof fn lemma_count_concat(a: Seq<PeerEntry>, b: Seq<PeerEntry>, k: PeerStateKind)
    ensures
        count_kind(a + b, k) == count_kind(a, k) + count_kind(b, k),
    decreases b.len(),
{
    if b.len() > 0 {
        assert((a + b).drop_last() =~= a + b.drop_last());
        lemma_count_concat(a, b.drop_last(), k);
    } else {
        assert(a + b =~= a);
    }
}

pub open spec fn one(e: PeerEntry, k: PeerStateKind) -> int {
    if kind_of(e.state) == k {
        1
    } else {
        0
    }
}

pub proof fn lemma_count_single(e: PeerEntry, k: PeerStateKind)
    ensures
        count_kind(seq![e], k) == one(e, k),
{
    assert(seq![e].drop_last() =~= Seq::<PeerEntry>::empty());
    assert(count_kind(Seq::<PeerEntry>::empty(), k) == 0);
    assert(seq![e].last() == e);
}

pub proof fn lemma_count_update(s: Seq<PeerEntry>, i: int, e: PeerEntry, k: PeerStateKind)
    requires
        0 <= i < s.len(),
    ensures
        count_kind(s.update(i, e), k) == count_kind(s, k) - one(s[i], k) + one(e, k),
        count_kind(s, k) >= one(s[i], k),
{
    let a = s.subrange(0, i);
    let b = s.subrange(i + 1, s.len() as int);
    assert(s =~= a + seq![s[i]] + b);
    assert(s.update(i, e) =~= a + seq![e] + b);
    lemma_count_concat(a + seq![s[i]], b, k);
    lemma_count_concat(a, seq![s[i]], k);
    lemma_count_concat(a + seq![e], b, k);
    lemma_count_concat(a, seq![e], k);
    lemma_count_single(s[i], k);
    lemma_count_single(e, k);
    lemma_count_bounds(a, k);
    lemma_count_bounds(b, k);
}

pub proof fn lemma_count_remove(s: Seq<PeerEntry>, i: int, k: PeerStateKind)
    requires
        0 <= i < s.len(),
    ensures
        count_kind(s.remove(i), k) == count_kind(s, k) - one(s[i], k),
{
    let a = s.subrange(0, i);
    let b = s.subrange(i + 1, s.len() as int);
    assert(s =~= a + seq![s[i]] + b);
    assert(s.remove(i) =~= a + b);
    lemma_count_concat(a + seq![s[i]], b, k);
    lemma_count_concat(a, seq![s[i]], k);
    lemma_count_concat(a, b, k);
    lemma_count_single(s[i], k);
}

pub proof fn lemma_count_push(s: Seq<PeerEntry>, e: PeerEntry, k: PeerStateKind)
    ensures
        count_kind(s.push(e), k) == count_kind(s, k) + one(e, k),
{
    assert(s.push(e).drop_last() =~= s);
}

/// Whether an entry is a live peer whose bitfield has all of the first `n` pieces.
pub open spec fn entry_full(e: PeerEntry, n: int) -> bool {
    e.state matches PeerState::Live(l) && forall|i: int| 0 <= i < n ==> has_bit(l.bitfield@, i)
}

/// Whether no request appears twice.
pub open spec fn distinct_requests(s: Seq<InflightRequest>) -> bool {
    forall|i: int, j: int| 0 <= i < j < s.len() ==> s[i] != s[j]
}

pub open spec fn entry_wf(e: PeerEntry) -> bool {
    e.state matches PeerState::Live(live) ==> distinct_requests(live.inflight_requests@)
}

/// The backoff generator of backoff 0.4, opaque here.
#[verifier::external_type_specification]
#[verifier::external_body]
#[verifier::reject_recursive_types(C)]
pub struct ExExponentialBackoff<C>(backoff::exponential::ExponentialBackoff<C>);

/// The wall clock that backoff 0.4's default generator reads.
#[verifier::external_type_specification]
#[verifier::external_body]
pub struct ExSystemClock(backoff::SystemClock);

/// Which peers a per-peer statistics snapshot lists.
#[derive(Clone, Copy, Debug, PartialEq, Eq, Structural)]
pub enum PeerStatsFilter {
    All,
    Live,
}

impl PeerStatsFilter {
    pub open spec fn admits(&self, st: PeerState) -> bool {
        match self {
            PeerStatsFilter::All => true,
            PeerStatsFilter::Live => st is Live,
        }
    }

    pub fn matches(&self, st: &PeerState) -> (r: bool)
        ensures
            r == self.admits(*st),
    {
        match self {
            PeerStatsFilter::All => true,
            PeerStatsFilter::Live => st.kind() == PeerStateKind::Live,
        }
    }
}

/// The address and counters of each entry of `s` that `f` admits.
pub open spec fn stats_of(s: Seq<PeerEntry>, f: PeerStatsFilter) -> Seq<(PeerAddr, PeerCounters)>
    decreases s.len(),
{
    if s.len() == 0 {
        Seq::empty()
    } else {
        let rest = stats_of(s.drop_last(), f);
        if f.admits(s.last().state) {
            rest.push((s.last().addr, s.last().counters))
        } else {
            rest
        }
    }
}

/// Position of `req` in `reqs`.
pub fn find_request(reqs: &Vec<InflightRequest>, req: InflightRequest) -> (r: Option<usize>)
    ensures
        r is None <==> !reqs@.contains(req),
        r matches Some(j) ==> j < reqs@.len() && reqs@[j as int] == req,
{
    let mut j: usize = 0;
    while j < reqs.len()
        invariant
            j <= reqs@.len(),
            forall|k: int| 0 <= k < j ==> reqs@[k] != req,
        decreases reqs@.len() - j,
    {
        if reqs[j] == req {
            return Some(j);
        }
        j = j + 1;
    }
    None
}

/// Relies on `ExponentialBackoff::default` (backoff 0.4): a fresh exponential
/// backoff generator.
#[verifier::external_body]
fn new_backoff() -> backoff::ExponentialBackoff {
    backoff::ExponentialBackoff::default()
}

/// Relies on `Backoff::next_backoff` of `ExponentialBackoff` (backoff 0.4): the
/// next randomised delay in milliseconds, or none once the generator's maximal
/// elapsed time has passed. The value depends on chance and on the clock.
#[verifier::external_body]
fn next_backoff_ms(b: &mut backoff::ExponentialBackoff) -> Option<u64> {
    backoff::backoff::Backoff::next_backoff(b).map(|d| d.as_millis() as u64)
}

/// Relies on `Backoff::reset` of `ExponentialBackoff` (backoff 0.4): the
/// generator starts again from its initial interval.
#[verifier::external_body]
fn reset_backoff(b: &mut backoff::ExponentialBackoff) {
    backoff::backoff::Backoff::reset(b)
}

/// Why a peer-table transition was refused.
#[derive(Clone, Copy, Debug, PartialEq, Eq, Structural)]
pub enum PeerStateError {
    NotFound,
    WrongState(PeerStateKind),
}

/// The peer table: one entry per known address, and how many entries are in
/// each state.
pub struct PeerStates {
    pub entries: Vec<PeerEntry>,
    pub stats: AggregatePeerStats,
}

impl PeerStates {
    pub open spec fn wf(&self) -> bool {
        let s = self.entries@;
        &&& forall|i: int, j: int| 0 <= i < j < s.len() ==> s[i].addr != s[j].addr
        &&& forall|k: PeerStateKind| #[trigger] self.stats.get(k) == count_kind(s, k)
        &&& forall|i: int| 0 <= i < s.len() ==> #[trigger] entry_wf(s[i])
    }

    /// Index of the entry of `addr`.
    pub open spec fn index_of(&self, addr: PeerAddr) -> Option<int> {
        if exists|i: int| 0 <= i < self.entries@.len() && self.entries@[i].addr == addr {
            Some(choose|i: int| 0 <= i < self.entries@.len() && self.entries@[i].addr == addr)
        } else {
            None
        }
    }

    pub open spec fn has(&self, addr: PeerAddr) -> bool {
        self.index_of(addr) is Some
    }

    /// The entry of `addr`, which must be present.
    pub open spec fn entry(&self, addr: PeerAddr) -> PeerEntry {
        self.entries@[self.index_of(addr)->0]
    }

    pub open spec fn kind(&self, addr: PeerAddr) -> PeerStateKind {
        kind_of(self.entry(addr).state)
    }

    pub open spec fn live(&self, addr: PeerAddr) -> Option<LivePeerData> {
        if self.has(addr) {
            match self.entry(addr).state {
                PeerState::Live(l) => Some(l),
                _ => None,
            }
        } else {
            None
        }
    }

    pub proof fn lemma_index(&self, i: int)
        requires
            self.wf(),
            0 <= i < self.entries@.len(),
        ensures
            self.index_of(self.entries@[i].addr) == Some(i),
    {
    }

    pub fn new() -> (r: PeerStates)
        ensures
            r.wf(),
            r.entries@.len() == 0,
    {
        let r = PeerStates {
            entries: Vec::new(),
            stats: AggregatePeerStats { queued: 0, connecting: 0, live: 0, dead: 0, not_needed: 0 },
        };
        assert forall|k: PeerStateKind| #[trigger] r.stats.get(k) == count_kind(r.entries@, k) by {}
        r
    }

    pub fn find(&self, addr: PeerAddr) -> (r: Option<usize>)
        requires
            self.wf(),
        ensures
            r == match self.index_of(addr) {
                Some(i) => Some(i as usize),
                None => None::<usize>,
            },
            r matches Some(i) ==> i < self.entries@.len() && self.entries@[i as int].addr == addr,
    {
        let mut i: usize = 0;
        while i < self.entries.len()
            invariant
                self.wf(),
                i <= self.entries@.len(),
                forall|j: int| 0 <= j < i ==> self.entries@[j].addr != addr,
            decreases self.entries@.len() - i,
        {
            if self.entries[i].addr == addr {
                proof {
                    self.lemma_index(i as int);
                }
                return Some(i);
            }
            i = i + 1;
        }
        None
    }

    /// Replaces the state of entry `i`, keeping the counters in step.
    pub fn swap_state(&mut self, i: usize, st: PeerState) -> (prev: PeerState)
        requires
            old(self).wf(),
            i < old(self).entries@.len(),
            entry_wf(PeerEntry { state: st, ..old(self).entries@[i as int] }),
        ensures
            final(self).wf(),
            prev == old(self).entries@[i as int].state,
            final(self).entries@ == old(self).entries@.update(
                i as int,
                PeerEntry { state: st, ..old(self).entries@[i as int] },
            ),
    {
        let ghost s = self.entries@;
        let mut e = self.entries.remove(i);
        let mut prev = st;
        std::mem::swap(&mut e.state, &mut prev);
        let ghost ne = e;
        self.entries.insert(i, e);
        assert(self.entries@ =~= s.update(i as int, ne));
        let kp = prev.kind();
        let kn = self.entries[i].state.kind();
        let len = self.entries.len();
        proof {
            lemma_count_update(s, i as int, ne, kp);
            lemma_count_update(s, i as int, ne, kn);
            lemma_count_bounds(self.entries@, kn);
            assert(self.entries@[i as int] == ne);
            assert(self.entries@.len() == len);
        }
        self.dec(kp);
        self.inc(kn);
        proof {
            assert forall|k: PeerStateKind| #[trigger]
                self.stats.get(k) == count_kind(self.entries@, k) by {
                lemma_count_update(s, i as int, ne, k);
            }
            assert forall|a: int, b: int|
                0 <= a < b < self.entries@.len() implies self.entries@[a].addr
                != self.entries@[b].addr by {
                assert(s[a].addr == self.entries@[a].addr);
                assert(s[b].addr == self.entries@[b].addr);
            }
            assert forall|j: int| 0 <= j < self.entries@.len() implies #[trigger] entry_wf(
                self.entries@[j],
            ) by {
                if j != i {
                    assert(self.entries@[j] == s[j]);
                }
            }
        }
        prev
    }


    /// The entry at `i` with state `st`.
    pub open spec fn with_state(&self, i: int, st: PeerState) -> Seq<PeerEntry> {
        self.entries@.update(i, PeerEntry { state: st, ..self.entries@[i] })
    }

    /// Adds `addr` in state `Queued` unless it is already known. Returns
    /// whether it was added.
    pub fn add_if_not_seen(&mut self, addr: PeerAddr) -> (r: bool)
        requires
            old(self).wf(),
        ensures
            final(self).wf(),
            r == !old(self).has(addr),
            !r ==> final(self).entries@ == old(self).entries@,
            r ==> final(self).entries@.len() == old(self).entries@.len() + 1
                && final(self).entries@.drop_last() == old(self).entries@
                && final(self).entries@.last().addr == addr
                && final(self).entries@.last().state is Queued
                && final(self).entries@.last().counters == zero_counters(),
    {
        if self.find(addr).is_some() {
            return false;
        }
        let ghost s = self.entries@;
        let e = PeerEntry {
            addr,
            state: PeerState::Queued,
            counters: PeerCounters::new(),
            backoff: new_backoff(),
        };
        let ghost ge = e;
        self.entries.push(e);
        let len = self.entries.len();
        proof {
            assert(self.entries@ == s.push(ge));
            lemma_count_push(s, ge, PeerStateKind::Queued);
            lemma_count_bounds(self.entries@, PeerStateKind::Queued);
            assert(self.entries@.len() == len);
        }
        self.inc(PeerStateKind::Queued);
        proof {
            assert forall|k: PeerStateKind| #[trigger]
                self.stats.get(k) == count_kind(self.entries@, k) by {
                lemma_count_push(s, ge, k);
            }
            assert forall|i: int| 0 <= i < self.entries@.len() implies #[trigger] entry_wf(
                self.entries@[i],
            ) by {
                if i < s.len() {
                    assert(self.entries@[i] == s[i]);
                }
            }
            assert(self.entries@.drop_last() =~= s);
        }
        true
    }

    /// `Queued` to `Connecting`.
    pub fn mark_peer_connecting(&mut self, addr: PeerAddr) -> (r: Result<(), PeerStateError>)
        requires
            old(self).wf(),
        ensures
            final(self).wf(),
            r == if !old(self).has(addr) {
                Err::<(), PeerStateError>(PeerStateError::NotFound)
            } else if old(self).kind(addr) != PeerStateKind::Queued {
                Err(PeerStateError::WrongState(old(self).kind(addr)))
            } else {
                Ok(())
            },
            r is Err ==> final(self).entries@ == old(self).entries@,
            r is Ok ==> final(self).entries@ == old(self).with_state(
                old(self).index_of(addr)->0,
                PeerState::Connecting,
            ),
    {
        match self.find(addr) {
            None => Err(PeerStateError::NotFound),
            Some(i) => {
                let k = self.entries[i].state.kind();
                if k != PeerStateKind::Queued {
                    return Err(PeerStateError::WrongState(k));
                }
                self.swap_state(i, PeerState::Connecting);
                Ok(())
            },
        }
    }

    /// `Connecting` to `Live`, with the peer id from the handshake, no
    /// bitfield, no requests and no interest. Returns false, changing
    /// nothing, when the peer is unknown or not connecting.
    pub fn connecting_to_live(&mut self, addr: PeerAddr, peer_id: Id20) -> (r: bool)
        requires
            old(self).wf(),
        ensures
            final(self).wf(),
            r == (old(self).has(addr) && old(self).kind(addr) == PeerStateKind::Connecting),
            !r ==> final(self).entries@ == old(self).entries@,
            r ==> final(self).entries@ == old(self).with_state(
                old(self).index_of(addr)->0,
                PeerState::Live(
                    LivePeerData {
                        peer_id,
                        bitfield: final(self).live(addr)->0.bitfield,
                        inflight_requests: final(self).live(addr)->0.inflight_requests,
                        peer_interested: false,
                    },
                ),
            ) && final(self).live(addr)->0.bitfield@.len() == 0
                && final(self).live(addr)->0.inflight_requests@.len() == 0,
    {
        match self.find(addr) {
            None => false,
            Some(i) => {
                let k = self.entries[i].state.kind();
                if k != PeerStateKind::Connecting {
                    return false;
                }
                let live = LivePeerData {
                    peer_id,
                    bitfield: Vec::new(),
                    inflight_requests: Vec::new(),
                    peer_interested: false,
                };
                self.swap_state(i, PeerState::Live(live));
                proof {
                    self.lemma_index(i as int);
                }
                true
            },
        }
    }

    /// Moves the entry of `addr`, whatever its state, to `NotNeeded`.
    /// Returns false when the peer is unknown.
    pub fn mark_peer_not_needed(&mut self, addr: PeerAddr) -> (r: bool)
        requires
            old(self).wf(),
        ensures
            final(self).wf(),
            r == old(self).has(addr),
            !r ==> final(self).entries@ == old(self).entries@,
            r ==> final(self).entries@ == old(self).with_state(
                old(self).index_of(addr)->0,
                PeerState::NotNeeded,
            ),
    {
        match self.find(addr) {
            None => false,
            Some(i) => {
                self.swap_state(i, PeerState::NotNeeded);
                true
            },
        }
    }

    /// `Dead` to `Queued`, for a peer whose backoff delay has passed.
    /// Returns false, changing nothing, when the peer is unknown or not dead.
    pub fn dead_to_queued(&mut self, addr: PeerAddr) -> (r: bool)
        requires
            old(self).wf(),
        ensures
            final(self).wf(),
            r == (old(self).has(addr) && old(self).kind(addr) == PeerStateKind::Dead),
            !r ==> final(self).entries@ == old(self).entries@,
            r ==> final(self).entries@ == old(self).with_state(
                old(self).index_of(addr)->0,
                PeerState::Queued,
            ),
    {
        match self.find(addr) {
            None => false,
            Some(i) => {
                if self.entries[i].state.kind() != PeerStateKind::Dead {
                    return false;
                }
                self.swap_state(i, PeerState::Queued);
                true
            },
        }
    }

    /// Forgets the entry of `addr`. Returns false when the peer is unknown.
    pub fn drop_peer(&mut self, addr: PeerAddr) -> (r: bool)
        requires
            old(self).wf(),
        ensures
            final(self).wf(),
            r == old(self).has(addr),
            !r ==> final(self).entries@ == old(self).entries@,
            r ==> final(self).entries@ == old(self).entries@.remove(old(self).index_of(addr)->0),
            !final(self).has(addr),
    {
        match self.find(addr) {
            None => false,
            Some(i) => {
                let ghost s = self.entries@;
                let e = self.entries.remove(i);
                let k = e.state.kind();
                proof {
                    lemma_count_remove(s, i as int, k);
                    lemma_count_bounds(s.remove(i as int), k);
                }
                self.dec(k);
                proof {
                    assert forall|j: PeerStateKind| #[trigger]
                        self.stats.get(j) == count_kind(self.entries@, j) by {
                        lemma_count_remove(s, i as int, j);
                    }
                    assert forall|a: int, b: int|
                        0 <= a < b < self.entries@.len() implies self.entries@[a].addr
                        != self.entries@[b].addr by {
                        let a2 = if a < i { a } else { a + 1 };
                        let b2 = if b < i { b } else { b + 1 };
                        assert(self.entries@[a] == s[a2]);
                        assert(self.entries@[b] == s[b2]);
                    }
                    assert forall|j: int| 0 <= j < self.entries@.len() implies #[trigger] entry_wf(
                        self.entries@[j],
                    ) by {
                        let j2 = if j < i { j } else { j + 1 };
                        assert(self.entries@[j] == s[j2]);
                    }
                    assert forall|j: int| 0 <= j < self.entries@.len() implies self.entries@[j].addr
                        != addr by {
                        let j2 = if j < i { j } else { j + 1 };
                        assert(self.entries@[j] == s[j2]);
                    }
                }
                true
            },
        }
    }

    /// Takes the live data out of entry `i`, leaving it `Dead` for the moment.
    pub fn take_live(&mut self, i: usize) -> (r: LivePeerData)
        requires
            old(self).wf(),
            i < old(self).entries@.len(),
            old(self).entries@[i as int].state is Live,
        ensures
            final(self).wf(),
            old(self).entries@[i as int].state == PeerState::Live(r),
            final(self).entries@ == old(self).with_state(i as int, PeerState::Dead),
            distinct_requests(r.inflight_requests@),
    {
        proof {
            assert(entry_wf(self.entries@[i as int]));
        }
        match self.swap_state(i, PeerState::Dead) {
            PeerState::Live(live) => live,
            _ => {
                proof {
                    assert(false);
                }
                LivePeerData {
                    peer_id: Id20 { bytes: [0u8; 20] },
                    bitfield: Vec::new(),
                    inflight_requests: Vec::new(),
                    peer_interested: false,
                }
            },
        }
    }

    /// Applies a change to the live data of `addr`: `None` when the peer is
    /// unknown or not live, changing nothing.
    pub fn live_index(&self, addr: PeerAddr) -> (r: Option<usize>)
        requires
            self.wf(),
        ensures
            r is Some <==> self.live(addr) is Some,
            r matches Some(i) ==> i < self.entries@.len() && self.index_of(addr) == Some(i as int)
                && self.entries@[i as int].state == PeerState::Live(self.live(addr)->0),
    {
        match self.find(addr) {
            None => None,
            Some(i) => {
                if self.entries[i].state.kind() == PeerStateKind::Live {
                    Some(i)
                } else {
                    None
                }
            },
        }
    }

    /// Records whether a live peer is interested in our pieces.
    pub fn mark_peer_interested(&mut self, addr: PeerAddr, interested: bool) -> (r: bool)
        requires
            old(self).wf(),
        ensures
            final(self).wf(),
            r == old(self).live(addr) is Some,
            !r ==> final(self).entries@ == old(self).entries@,
            r ==> final(self).entries@ == old(self).with_state(
                old(self).index_of(addr)->0,
                PeerState::Live(LivePeerData { peer_interested: interested, ..old(self).live(addr)->0 }),
            ),
    {
        match self.live_index(addr) {
            None => false,
            Some(i) => {
                let mut live = self.take_live(i);
                live.peer_interested = interested;
                self.swap_state(i, PeerState::Live(live));
                proof {
                    assert(self.entries@ =~= old(self).with_state(
                        i as int,
                        PeerState::Live(LivePeerData { peer_interested: interested, ..old(self).live(addr)->0 }),
                    ));
                }
                true
            },
        }
    }

    /// Stores the bitfield that a live peer sent.
    pub fn update_bitfield(&mut self, addr: PeerAddr, bits: Vec<bool>) -> (r: bool)
        requires
            old(self).wf(),
        ensures
            final(self).wf(),
            r == old(self).live(addr) is Some,
            !r ==> final(self).entries@ == old(self).entries@,
            r ==> final(self).entries@ == old(self).with_state(
                old(self).index_of(addr)->0,
                PeerState::Live(LivePeerData { bitfield: bits, ..old(self).live(addr)->0 }),
            ),
    {
        match self.live_index(addr) {
            None => false,
            Some(i) => {
                let mut live = self.take_live(i);
                live.bitfield = bits;
                self.swap_state(i, PeerState::Live(live));
                proof {
                    assert(self.entries@ =~= old(self).with_state(
                        i as int,
                        PeerState::Live(LivePeerData { bitfield: bits, ..old(self).live(addr)->0 }),
                    ));
                }
                true
            },
        }
    }


    /// Records that a live peer has piece `index`. A peer that sent no
    /// bitfield yet gets an empty one of `nbits` bits first; an index past
    /// the bitfield's end is ignored.
    pub fn on_have(&mut self, addr: PeerAddr, index: u32, nbits: u32) -> (r: bool)
        requires
            old(self).wf(),
        ensures
            final(self).wf(),
            r == old(self).live(addr) is Some,
            !r ==> final(self).entries@ == old(self).entries@,
            r ==> {
                let l = old(self).live(addr)->0;
                let bf = if l.bitfield@.len() == 0 {
                    Seq::new(nbits as nat, |i: int| false)
                } else {
                    l.bitfield@
                };
                let nbf = if index < bf.len() {
                    bf.update(index as int, true)
                } else {
                    bf
                };
                &&& final(self).live(addr) is Some
                &&& final(self).live(addr)->0.bitfield@ == nbf
                &&& final(self).entries@ == old(self).with_state(
                    old(self).index_of(addr)->0,
                    PeerState::Live(LivePeerData { bitfield: final(self).live(addr)->0.bitfield, ..l }),
                )
            },
    {
        match self.live_index(addr) {
            None => false,
            Some(i) => {
                let mut live = self.take_live(i);
                if live.bitfield.len() == 0 {
                    let mut bf: Vec<bool> = Vec::new();
                    let total = nbits;
                    let mut k: u32 = 0;
                    while k < total
                        invariant
                            k <= total,
                            bf@ =~= Seq::new(k as nat, |j: int| false),
                        decreases total - k,
                    {
                        bf.push(false);
                        k = k + 1;
                    }
                    live.bitfield = bf;
                }
                if (index as usize) < live.bitfield.len() {
                    live.bitfield.set(index as usize, true);
                }
                let ghost nl = live;
                self.swap_state(i, PeerState::Live(live));
                proof {
                    self.lemma_index(i as int);
                    assert(self.entries@ =~= old(self).with_state(
                        i as int,
                        PeerState::Live(LivePeerData { bitfield: nl.bitfield, ..old(self).live(addr)->0 }),
                    ));
                }
                true
            },
        }
    }

    /// Adds a request to a live peer's inflight set: `None` when the peer is
    /// unknown or not live, else whether the request was new.
    pub fn add_inflight_request(&mut self, addr: PeerAddr, req: InflightRequest) -> (r: Option<bool>)
        requires
            old(self).wf(),
        ensures
            final(self).wf(),
            r is Some <==> old(self).live(addr) is Some,
            r matches Some(b) ==> b == !old(self).live(addr)->0.inflight_requests@.contains(req),
            r != Some(true) ==> final(self).entries@ == old(self).entries@,
            r == Some(true) ==> final(self).entries@ == old(self).with_state(
                old(self).index_of(addr)->0,
                PeerState::Live(LivePeerData {
                    inflight_requests: final(self).live(addr)->0.inflight_requests,
                    ..old(self).live(addr)->0
                }),
            ) && final(self).live(addr)->0.inflight_requests@ == old(self).live(addr)->0.inflight_requests@.push(req),
    {
        match self.live_index(addr) {
            None => None,
            Some(i) => {
                let mut live = self.take_live(i);
                let ghost before = live.inflight_requests@;
                let found = find_request(&live.inflight_requests, req);
                if found.is_some() {
                    let ghost nl = live;
                    self.swap_state(i, PeerState::Live(live));
                    proof {
                        assert(self.entries@ =~= old(self).entries@);
                    }
                    return Some(false);
                }
                live.inflight_requests.push(req);
                proof {
                    assert forall|a: int, b: int|
                        0 <= a < b < live.inflight_requests@.len() implies live.inflight_requests@[a]
                        != live.inflight_requests@[b] by {
                        if b == before.len() {
                            assert(live.inflight_requests@[a] == before[a]);
                        }
                    }
                }
                let ghost nl = live;
                self.swap_state(i, PeerState::Live(live));
                proof {
                    self.lemma_index(i as int);
                    assert(self.entries@ =~= old(self).with_state(
                        i as int,
                        PeerState::Live(LivePeerData {
                            inflight_requests: nl.inflight_requests,
                            ..old(self).live(addr)->0
                        }),
                    ));
                }
                Some(true)
            },
        }
    }

    /// Removes a request from a live peer's inflight set: `None` when the
    /// peer is unknown or not live, else whether the request was there.
    pub fn remove_inflight_request(&mut self, addr: PeerAddr, req: InflightRequest) -> (r: Option<bool>)
        requires
            old(self).wf(),
        ensures
            final(self).wf(),
            r is Some <==> old(self).live(addr) is Some,
            r matches Some(b) ==> b == old(self).live(addr)->0.inflight_requests@.contains(req),
            r != Some(true) ==> final(self).entries@ == old(self).entries@,
            r == Some(true) ==> final(self).entries@ == old(self).with_state(
                old(self).index_of(addr)->0,
                PeerState::Live(LivePeerData {
                    inflight_requests: final(self).live(addr)->0.inflight_requests,
                    ..old(self).live(addr)->0
                }),
            ) && final(self).live(addr)->0.inflight_requests@.to_set() == old(self).live(addr)->0.inflight_requests@.to_set().remove(req)
              && !final(self).live(addr)->0.inflight_requests@.contains(req),
    {
        match self.live_index(addr) {
            None => None,
            Some(i) => {
                let mut live = self.take_live(i);
                let ghost before = live.inflight_requests@;
                match find_request(&live.inflight_requests, req) {
                    None => {
                        self.swap_state(i, PeerState::Live(live));
                        proof {
                            assert(self.entries@ =~= old(self).entries@);
                        }
                        Some(false)
                    },
                    Some(j) => {
                        live.inflight_requests.remove(j);
                        let ghost after = live.inflight_requests@;
                        proof {
                            assert(after =~= before.remove(j as int));
                            assert forall|a: int, b: int|
                                0 <= a < b < after.len() implies after[a] != after[b] by {
                                let a2 = if a < j { a } else { a + 1 };
                                let b2 = if b < j { b } else { b + 1 };
                                assert(after[a] == before[a2]);
                                assert(after[b] == before[b2]);
                            }
                            assert forall|x: InflightRequest| after.contains(x) <==> before.contains(x) && x != req by {
                                if after.contains(x) {
                                    let a = choose|a: int| 0 <= a < after.len() && after[a] == x;
                                    let a2 = if a < j { a } else { a + 1 };
                                    assert(after[a] == before[a2]);
                                }
                                if before.contains(x) && x != req {
                                    let a = choose|a: int| 0 <= a < before.len() && before[a] == x;
                                    if a < j {
                                        assert(after[a] == x);
                                    } else {
                                        assert(a != j);
                                        assert(after[a - 1] == x);
                                    }
                                }
                            }
                            assert(after.to_set() =~= before.to_set().remove(req));
                        }
                        let ghost nl = live;
                        self.swap_state(i, PeerState::Live(live));
                        proof {
                            self.lemma_index(i as int);
                            assert(self.entries@ =~= old(self).with_state(
                                i as int,
                                PeerState::Live(LivePeerData {
                                    inflight_requests: nl.inflight_requests,
                                    ..old(self).live(addr)->0
                                }),
                            ));
                        }
                        Some(true)
                    },
                }
            },
        }
    }


    /// Replaces the counters of entry `i`.
    pub fn set_counters(&mut self, i: usize, c: PeerCounters)
        requires
            old(self).wf(),
            i < old(self).entries@.len(),
        ensures
            final(self).wf(),
            final(self).entries@.len() == old(self).entries@.len(),
            final(self).entries@[i as int] == (PeerEntry { counters: c, ..old(self).entries@[i as int] }),
            forall|j: int| 0 <= j < old(self).entries@.len() && j != i ==> final(self).entries@[j] == old(self).entries@[j],
    {
        let ghost s = self.entries@;
        let mut e = self.entries.remove(i);
        e.counters = c;
        self.entries.insert(i, e);
        proof {
            let ne = PeerEntry { counters: c, ..s[i as int] };
            assert(self.entries@ =~= s.update(i as int, ne));
            assert forall|k: PeerStateKind| #[trigger] self.stats.get(k) == count_kind(self.entries@, k) by {
                lemma_count_update(s, i as int, ne, k);
            }
            assert forall|a: int, b: int|
                0 <= a < b < self.entries@.len() implies self.entries@[a].addr != self.entries@[b].addr by {
                assert(s[a].addr == self.entries@[a].addr);
                assert(s[b].addr == self.entries@[b].addr);
            }
            assert forall|j: int| 0 <= j < self.entries@.len() implies #[trigger] entry_wf(self.entries@[j]) by {
                if j != i {
                    assert(self.entries@[j] == s[j]);
                } else {
                    assert(entry_wf(s[j]));
                }
            }
        }
    }

    /// Asks the backoff generator of entry `i` for the next delay, in
    /// milliseconds; `None` once it is exhausted.
    pub fn next_backoff(&mut self, i: usize) -> (r: Option<u64>)
        requires
            old(self).wf(),
            i < old(self).entries@.len(),
        ensures
            final(self).wf(),
            final(self).entries@.len() == old(self).entries@.len(),
            final(self).entries@[i as int] == (PeerEntry { backoff: final(self).entries@[i as int].backoff, ..old(self).entries@[i as int] }),
            forall|j: int| 0 <= j < old(self).entries@.len() && j != i ==> final(self).entries@[j] == old(self).entries@[j],
    {
        let ghost s = self.entries@;
        let mut e = self.entries.remove(i);
        let r = next_backoff_ms(&mut e.backoff);
        let ghost ne = e;
        self.entries.insert(i, e);
        proof {
            assert(self.entries@ =~= s.update(i as int, ne));
            assert(kind_of(ne.state) == kind_of(s[i as int].state));
            assert forall|k: PeerStateKind| #[trigger] self.stats.get(k) == count_kind(self.entries@, k) by {
                lemma_count_update(s, i as int, ne, k);
            }
            assert forall|a: int, b: int|
                0 <= a < b < self.entries@.len() implies self.entries@[a].addr != self.entries@[b].addr by {
                assert(s[a].addr == self.entries@[a].addr);
                assert(s[b].addr == self.entries@[b].addr);
            }
            assert forall|j: int| 0 <= j < self.entries@.len() implies #[trigger] entry_wf(self.entries@[j]) by {
                if j != i {
                    assert(self.entries@[j] == s[j]);
                } else {
                    assert(entry_wf(s[j]));
                }
            }
        }
        r
    }

    /// Starts the backoff generator of `addr` again from its first delay.
    /// Returns false when the peer is unknown.
    pub fn reset_peer_backoff(&mut self, addr: PeerAddr) -> (r: bool)
        requires
            old(self).wf(),
        ensures
            final(self).wf(),
            r == old(self).has(addr),
            final(self).entries@.len() == old(self).entries@.len(),
            forall|j: int| 0 <= j < old(self).entries@.len() ==> final(self).entries@[j] == (PeerEntry { backoff: final(self).entries@[j].backoff, ..old(self).entries@[j] }),
    {
        match self.find(addr) {
            None => false,
            Some(i) => {
                let ghost s = self.entries@;
                let mut e = self.entries.remove(i);
                reset_backoff(&mut e.backoff);
                let ghost ne = e;
                self.entries.insert(i, e);
                proof {
                    assert(self.entries@ =~= s.update(i as int, ne));
                    assert forall|k: PeerStateKind| #[trigger] self.stats.get(k) == count_kind(self.entries@, k) by {
                        lemma_count_update(s, i as int, ne, k);
                    }
                    assert forall|a: int, b: int|
                        0 <= a < b < self.entries@.len() implies self.entries@[a].addr != self.entries@[b].addr by {
                        assert(s[a].addr == self.entries@[a].addr);
                        assert(s[b].addr == self.entries@[b].addr);
                    }
                    assert forall|j: int| 0 <= j < self.entries@.len() implies #[trigger] entry_wf(self.entries@[j]) by {
                        if j != i {
                            assert(self.entries@[j] == s[j]);
                        } else {
                            assert(entry_wf(s[j]));
                        }
                    }
                }
                true
            },
        }
    }

    /// Whether the peer at `a` is to be told that we now have piece `p`: it is
    /// live, interested, and its bitfield does not record `p`.
    pub open spec fn should_get_have(&self, a: PeerAddr, p: int) -> bool {
        self.live(a) matches Some(l) && l.peer_interested && !has_bit(l.bitfield@, p)
    }

    /// The peers to send `Have(piece)` to.
    pub fn have_recipients(&self, piece: u32) -> (r: Vec<PeerAddr>)
        requires
            self.wf(),
        ensures
            forall|a: PeerAddr| r@.contains(a) <==> self.should_get_have(a, piece as int),
            forall|i: int, j: int| 0 <= i < j < r@.len() ==> r@[i] != r@[j],
    {
        let mut out: Vec<PeerAddr> = Vec::new();
        let mut i: usize = 0;
        while i < self.entries.len()
            invariant
                self.wf(),
                i <= self.entries@.len(),
                forall|a: PeerAddr| out@.contains(a) <==> exists|j: int| 0 <= j < i && self.entries@[j].addr == a && self.should_get_have(a, piece as int),
                forall|x: int, y: int| 0 <= x < y < out@.len() ==> out@[x] != out@[y],
            decreases self.entries@.len() - i,
        {
            let ghost prev = out@;
            let e = &self.entries[i];
            proof {
                self.lemma_index(i as int);
            }
            match &e.state {
                PeerState::Live(l) => {
                    if l.peer_interested && !((piece as usize) < l.bitfield.len() && l.bitfield[piece as usize]) {
                        proof {
                            if prev.contains(e.addr) {
                                let j = choose|j: int| 0 <= j < i && self.entries@[j].addr == e.addr && self.should_get_have(e.addr, piece as int);
                                assert(self.entries@[j].addr != self.entries@[i as int].addr);
                            }
                        }
                        out.push(e.addr);
                        proof {
                            assert forall|x: int, y: int| 0 <= x < y < out@.len() implies out@[x] != out@[y] by {
                                if y == out@.len() - 1 {
                                    assert(prev[x] == out@[x]);
                                    assert(prev.contains(out@[x]));
                                } else {
                                    assert(prev[x] == out@[x] && prev[y] == out@[y]);
                                }
                            }
                        }
                    }
                },
                _ => {},
            }
            proof {
                assert forall|a: PeerAddr| out@.contains(a) <==> exists|j: int| 0 <= j < i + 1 && self.entries@[j].addr == a && self.should_get_have(a, piece as int) by {
                    if out@.contains(a) {
                        let k = choose|k: int| 0 <= k < out@.len() && out@[k] == a;
                        if k < prev.len() {
                            assert(prev.contains(a));
                        } else {
                            assert(self.entries@[i as int].addr == a);
                        }
                    }
                    if exists|j: int| 0 <= j < i + 1 && self.entries@[j].addr == a && self.should_get_have(a, piece as int) {
                        let j = choose|j: int| 0 <= j < i + 1 && self.entries@[j].addr == a && self.should_get_have(a, piece as int);
                        if j < i {
                            assert(prev.contains(a));
                            let k = choose|k: int| 0 <= k < prev.len() && prev[k] == a;
                            assert(out@[k] == a);
                        } else {
                            assert(out@[out@.len() - 1] == a);
                        }
                    }
                }
            }
            i = i + 1;
        }
        proof {
            assert forall|a: PeerAddr| self.should_get_have(a, piece as int) implies out@.contains(a) by {
                let j = self.index_of(a)->0;
                assert(exists|j: int| 0 <= j < self.entries@.len() && self.entries@[j].addr == a && self.should_get_have(a, piece as int));
            }
        }
        out
    }

    /// Per-peer counters of the entries that `filter` admits, in table order.
    pub fn per_peer_stats(&self, filter: PeerStatsFilter) -> (r: Vec<(PeerAddr, PeerCounters)>)
        ensures
            r@ == stats_of(self.entries@, filter),
    {
        let mut out: Vec<(PeerAddr, PeerCounters)> = Vec::new();
        let mut i: usize = 0;
        while i < self.entries.len()
            invariant
                i <= self.entries@.len(),
                out@ == stats_of(self.entries@.subrange(0, i as int), filter),
            decreases self.entries@.len() - i,
        {
            let e = &self.entries[i];
            proof {
                assert(self.entries@.subrange(0, i + 1).drop_last() =~= self.entries@.subrange(0, i as int));
            }
            if filter.matches(&e.state) {
                out.push((e.addr, e.counters));
            }
            i = i + 1;
        }
        assert(self.entries@.subrange(0, self.entries@.len() as int) =~= self.entries@);
        out
    }


    /// Moves every live peer whose bitfield has all of the first `n` pieces
    /// to `NotNeeded`, and returns their addresses.
    pub fn disconnect_peers_with_full_torrent(&mut self, n: usize) -> (r: Vec<PeerAddr>)
        requires
            old(self).wf(),
        ensures
            final(self).wf(),
            final(self).entries@.len() == old(self).entries@.len(),
            forall|j: int| 0 <= j < old(self).entries@.len() ==> #[trigger] final(self).entries@[j]
                == if entry_full(old(self).entries@[j], n as int) {
                PeerEntry { state: PeerState::NotNeeded, ..old(self).entries@[j] }
            } else {
                old(self).entries@[j]
            },
            forall|a: PeerAddr| r@.contains(a) <==> (old(self).has(a) && entry_full(old(self).entry(a), n as int)),
    {
        let ghost s = self.entries@;
        let mut out: Vec<PeerAddr> = Vec::new();
        let mut i: usize = 0;
        while i < self.entries.len()
            invariant
                self.wf(),
                self.entries@.len() == s.len(),
                i <= s.len(),
                forall|j: int| 0 <= j < i ==> #[trigger] self.entries@[j]
                    == if entry_full(s[j], n as int) {
                    PeerEntry { state: PeerState::NotNeeded, ..s[j] }
                } else {
                    s[j]
                },
                forall|j: int| i <= j < s.len() ==> #[trigger] self.entries@[j] == s[j],
                forall|a: PeerAddr| out@.contains(a) <==> exists|j: int| 0 <= j < i && s[j].addr == a && entry_full(s[j], n as int),
            decreases s.len() - i,
        {
            let ghost prev = out@;
            let ghost before = self.entries@;
            let full = match &self.entries[i].state {
                PeerState::Live(l) => crate::bitfield::has_all(&l.bitfield, n),
                _ => false,
            };
            assert(full == entry_full(s[i as int], n as int));
            if full {
                let a = self.entries[i].addr;
                self.swap_state(i, PeerState::NotNeeded);
                out.push(a);
            }
            proof {
                assert forall|j: int| 0 <= j < i + 1 implies #[trigger] self.entries@[j]
                    == if entry_full(s[j], n as int) {
                    PeerEntry { state: PeerState::NotNeeded, ..s[j] }
                } else {
                    s[j]
                } by {
                    if j < i {
                        assert(self.entries@[j] == before[j]);
                    }
                }
                assert forall|j: int| i + 1 <= j < s.len() implies #[trigger] self.entries@[j] == s[j] by {
                    assert(self.entries@[j] == before[j]);
                }
                assert forall|a: PeerAddr| out@.contains(a) <==> exists|j: int| 0 <= j < i + 1 && s[j].addr == a && entry_full(s[j], n as int) by {
                    if out@.contains(a) {
                        let k = choose|k: int| 0 <= k < out@.len() && out@[k] == a;
                        if k < prev.len() {
                            assert(prev.contains(a));
                        } else {
                            assert(s[i as int].addr == a);
                        }
                    }
                    if exists|j: int| 0 <= j < i + 1 && s[j].addr == a && entry_full(s[j], n as int) {
                        let j = choose|j: int| 0 <= j < i + 1 && s[j].addr == a && entry_full(s[j], n as int);
                        if j < i {
                            assert(prev.contains(a));
                            let k = choose|k: int| 0 <= k < prev.len() && prev[k] == a;
                            assert(out@[k] == a);
                        } else {
                            assert(out@[out@.len() - 1] == a);
                        }
                    }
                }
            }
            i = i + 1;
        }
        proof {
            assert forall|a: PeerAddr| out@.contains(a) <==> (old(self).has(a) && entry_full(old(self).entry(a), n as int)) by {
                if out@.contains(a) {
                    let j = choose|j: int| 0 <= j < s.len() && s[j].addr == a && entry_full(s[j], n as int);
                    old(self).lemma_index(j);
                }
                if old(self).has(a) && entry_full(old(self).entry(a), n as int) {
                    let j = old(self).index_of(a)->0;
                    assert(s[j].addr == a);
                }
            }
        }
        out
    }

    fn dec(&mut self, k: PeerStateKind)
        requires
            old(self).stats.get(k) >= 1,
        ensures
            final(self).entries == old(self).entries,
            final(self).stats.get(k) == old(self).stats.get(k) - 1,
            forall|j: PeerStateKind| j != k ==> final(self).stats.get(j) == old(self).stats.get(j),
    {
        match k {
            PeerStateKind::Queued => self.stats.queued = self.stats.queued - 1,
            PeerStateKind::Connecting => self.stats.connecting = self.stats.connecting - 1,
            PeerStateKind::Live => self.stats.live = self.stats.live - 1,
            PeerStateKind::Dead => self.stats.dead = self.stats.dead - 1,
            PeerStateKind::NotNeeded => self.stats.not_needed = self.stats.not_needed - 1,
        }
    }

    fn inc(&mut self, k: PeerStateKind)
        requires
            old(self).stats.get(k) < usize::MAX,
        ensures
            final(self).entries == old(self).entries,
            final(self).stats.get(k) == old(self).stats.get(k) + 1,
            forall|j: PeerStateKind| j != k ==> final(self).stats.get(j) == old(self).stats.get(j),
    {
        match k {
            PeerStateKind::Queued => self.stats.queued = self.stats.queued + 1,
            PeerStateKind::Connecting => self.stats.connecting = self.stats.connecting + 1,
            PeerStateKind::Live => self.stats.live = self.stats.live + 1,
            PeerStateKind::Dead => self.stats.dead = self.stats.dead + 1,
            PeerStateKind::NotNeeded => self.stats.not_needed = self.stats.not_needed + 1,
        }
    }
}

} // verus!
