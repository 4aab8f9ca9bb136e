use librqbit::bitfield::{bits_from_bytes, bits_to_bytes, has_all};
use librqbit::chunk_tracker::{ChunkMarkingResult, ChunkTracker};
use librqbit::handler::{
    cancel_requests, BitfieldOutcome, PeerDeath, PeerError, PeerHandlerLocked, PieceChecked,
    PieceReceived,
};
use librqbit::lengths::{ChunkInfo, Lengths};
use librqbit::live::{
    LiveError, ManagedTorrentInfo, PeerAdderAction, TorrentMetaInfo, TorrentStateLive,
    TorrentStatePaused, MAX_ACTIVE_PEERS,
};
use librqbit::peers::{Id20, InflightRequest, PeerAddr, PeerStateKind, PeerStatsFilter};
use librqbit::speed::{SpeedEstimator, SpeedSample};
use librqbit::tracker::{TrackerMonitor, TrackerRequestEvent, TRACKER_RETRY_MS};
use librqbit::TorrentStateOptions;

fn info() -> ManagedTorrentInfo {
    ManagedTorrentInfo {
        info: TorrentMetaInfo { piece_hashes: vec![], file_names: vec![], file_lengths: vec![] },
        info_hash: Id20 { bytes: [1u8; 20] },
        peer_id: Id20 { bytes: [2u8; 20] },
        trackers: vec![],
        options: TorrentStateOptions::default(),
    }
}

fn session_with(total: u64, piece: u32, chunk: u32, have: Vec<bool>) -> TorrentStateLive {
    let l = Lengths::new(total, piece, chunk).unwrap();
    TorrentStateLive::new(TorrentStatePaused::new(info(), l, have))
}

fn session(total: u64, piece: u32, chunk: u32) -> TorrentStateLive {
    let l = Lengths::new(total, piece, chunk).unwrap();
    session_with(total, piece, chunk, vec![false; l.total_pieces as usize])
}

fn addr(port: u16) -> PeerAddr {
    PeerAddr { ip: 0x7f00_0001, port }
}

fn kind_of(s: &TorrentStateLive, a: PeerAddr) -> Option<PeerStateKind> {
    let i = s.peers.find(a)?;
    Some(s.peers.entries[i].state.kind())
}

fn owner_of(s: &TorrentStateLive, piece: u32) -> Option<PeerAddr> {
    s.locked.inflight_pieces.iter().find(|p| p.piece == piece).map(|p| p.peer)
}

fn needed(s: &TorrentStateLive) -> Vec<u32> {
    s.locked.chunks.as_ref().unwrap().iter_needed_pieces()
}

fn connect(s: &mut TorrentStateLive, a: PeerAddr, bitfield: &[u8]) -> PeerHandlerLocked {
    assert!(s.add_peer_if_not_seen(a));
    assert_eq!(s.on_peer_dequeued(a), PeerAdderAction::Spawn);
    assert_eq!(s.start_managing_peer(a), Ok(()));
    assert!(s.on_handshake(a, Id20 { bytes: [9u8; 20] }));
    let mut h = PeerHandlerLocked::new();
    assert_eq!(s.on_bitfield(a, &mut h, &bitfield.to_vec()), Ok(BitfieldOutcome::Interested));
    h.on_i_am_unchoked();
    h
}

#[test]
fn lengths_split_pieces_and_chunks() {
    let l = Lengths::new(100_000, 32_768, 16_384).unwrap();
    assert_eq!(l.total_pieces, 4);
    assert_eq!(l.last_piece_length, 100_000 - 3 * 32_768);
    assert_eq!(l.piece_length(3), 1_696);
    assert_eq!(l.piece_length(0), 32_768);
    assert_eq!(l.chunk_count(0), 2);
    assert_eq!(l.chunk_count(3), 1);
    assert_eq!(l.piece_bitfield_bytes(), 1);
    let exact = Lengths::new(65_536, 32_768, 16_384).unwrap();
    assert_eq!(exact.total_pieces, 2);
    assert_eq!(exact.last_piece_length, 32_768);
}

#[test]
fn lengths_reject_bad_sizes() {
    assert!(Lengths::new(0, 16_384, 16_384).is_none());
    assert!(Lengths::new(100, 0, 16_384).is_none());
    assert!(Lengths::new(100, 16_384, 0).is_none());
    assert!(Lengths::new(100, 1_024, 2_048).is_none());
    assert!(Lengths::new(u64::MAX, 1, 1).is_none());
}

#[test]
fn chunk_validation() {
    let l = Lengths::new(100_000, 32_768, 16_384).unwrap();
    assert_eq!(
        l.chunk_info_from_received_data(0, 16_384, 16_384),
        Some(ChunkInfo { piece_index: 0, chunk_index: 1, offset: 16_384, size: 16_384 })
    );
    assert_eq!(
        l.chunk_info_from_received_data(3, 0, 1_696),
        Some(ChunkInfo { piece_index: 3, chunk_index: 0, offset: 0, size: 1_696 })
    );
    assert_eq!(l.chunk_info_from_received_data(3, 0, 16_384), None);
    assert_eq!(l.chunk_info_from_received_data(4, 0, 16_384), None);
    assert_eq!(l.chunk_info_from_received_data(0, 100, 16_384), None);
    assert_eq!(l.chunk_info_from_received_data(0, 32_768, 16_384), None);
    let chunks = l.iter_chunk_infos(0);
    assert_eq!(chunks.len(), 2);
    assert_eq!(chunks[1].offset, 16_384);
}

#[test]
fn bitfield_round_trip() {
    let bits = bits_from_bytes(&vec![0b1010_0000, 0b0000_0001], 16);
    assert_eq!(bits[0], true);
    assert_eq!(bits[1], false);
    assert_eq!(bits[2], true);
    assert_eq!(bits[15], true);
    assert_eq!(bits.iter().filter(|b| **b).count(), 3);
    assert_eq!(bits_to_bytes(&bits, 2), vec![0b1010_0000, 0b0000_0001]);
    assert_eq!(bits_to_bytes(&vec![true, true, true], 1), vec![0b1110_0000]);
    assert!(has_all(&vec![true, true, false], 2));
    assert!(!has_all(&vec![true, true, false], 3));
    assert!(!has_all(&vec![true], 2));
}

#[test]
fn tracker_marks_chunks_and_pieces() {
    let l = Lengths::new(65_536, 32_768, 16_384).unwrap();
    let mut t = ChunkTracker::new(l, vec![false, true]);
    assert_eq!(t.iter_needed_pieces(), vec![0]);
    assert_eq!(t.calc_have_bytes(), 32_768);
    t.reserve_needed_piece(0);
    assert!(t.iter_needed_pieces().is_empty());
    let c0 = ChunkInfo { piece_index: 0, chunk_index: 0, offset: 0, size: 16_384 };
    let c1 = ChunkInfo { piece_index: 0, chunk_index: 1, offset: 16_384, size: 16_384 };
    assert_eq!(t.mark_chunk_downloaded(&c0), ChunkMarkingResult::NotCompleted);
    assert_eq!(t.mark_chunk_downloaded(&c1), ChunkMarkingResult::Completed);
    assert_eq!(t.mark_chunk_downloaded(&c1), ChunkMarkingResult::PreviouslyCompleted);
    // All chunks done: a cancelled request does not make it needed again.
    assert!(t.mark_chunk_request_cancelled(0, 1));
    assert!(t.iter_needed_pieces().is_empty());
    t.mark_piece_downloaded(0);
    assert!(t.is_chunk_ready_to_upload(&c0));
    assert_eq!(t.calc_have_bytes(), 65_536);
    // A piece we have is neither cancelled nor broken.
    assert!(!t.mark_chunk_request_cancelled(0, 0));
    t.mark_piece_broken(0);
    assert!(t.iter_needed_pieces().is_empty());
}

#[test]
fn reserve_then_cancel_makes_piece_needed_again() {
    let l = Lengths::new(65_536, 32_768, 16_384).unwrap();
    let mut t = ChunkTracker::new(l, vec![false, false]);
    let before = t.needed.clone();
    t.reserve_needed_piece(1);
    assert_eq!(t.iter_needed_pieces(), vec![0]);
    cancel_requests(&mut t, &vec![InflightRequest { piece: 1, chunk: 0 }, InflightRequest { piece: 1, chunk: 1 }]);
    assert_eq!(t.iter_needed_pieces(), vec![0, 1]);
    assert_eq!(t.needed, before);
}

#[test]
fn single_peer_happy_path() {
    let mut s = session(32_768, 16_384, 16_384);
    assert_eq!(s.initially_needed(), 32_768);
    let a = addr(1);
    let mut h = connect(&mut s, a, &[0b1100_0000]);
    for (piece, now) in [(0u32, 10u64), (1, 20)] {
        assert_eq!(s.next_piece_to_request(a, &mut h, now), Some(piece));
        let reqs = s.register_chunk_requests(a, piece).unwrap();
        assert_eq!(reqs, vec![ChunkInfo { piece_index: piece, chunk_index: 0, offset: 0, size: 16_384 }]);
        assert!(h.try_acquire_request_permit());
        assert_eq!(
            s.on_received_piece(a, &mut h, piece, 0, 16_384, now + 5),
            Ok(PieceReceived::WriteAndCheck { elapsed_ms: 5 })
        );
        match s.on_piece_checked(a, piece, 5, true) {
            Ok(PieceChecked::Verified { finished, disconnect, have_to }) => {
                assert_eq!(finished, piece == 1);
                assert!(have_to.is_empty());
                if finished {
                    assert_eq!(disconnect, vec![a]);
                } else {
                    assert!(disconnect.is_empty());
                }
            }
            _ => panic!("piece should verify"),
        }
    }
    assert_eq!(s.stats.downloaded_and_checked_pieces, 2);
    assert_eq!(s.get_downloaded_bytes(), 32_768);
    assert_eq!(s.get_approx_have_bytes(), 32_768);
    assert_eq!(s.stats.total_piece_download_ms, 10);
    assert!(s.is_finished());
    assert_eq!(s.get_left_to_download_bytes(), 0);
    assert_eq!(kind_of(&s, a), Some(PeerStateKind::NotNeeded));
    assert_eq!(s.have_pieces_bitfield(), Ok(vec![0b1100_0000]));
    let snap = s.stats_snapshot();
    assert_eq!(snap.remaining_bytes, 0);
    assert_eq!(snap.total_bytes, 32_768);
    assert_eq!(snap.fetched_bytes, 32_768);
    // Once complete, newly dequeued peers are not needed.
    let b = addr(2);
    assert!(s.add_peer_if_not_seen(b));
    assert_eq!(s.on_peer_dequeued(b), PeerAdderAction::NotNeeded);
    assert_eq!(kind_of(&s, b), Some(PeerStateKind::NotNeeded));
}

#[test]
fn checksum_failure_makes_piece_needed_again() {
    let mut s = session(32_768, 16_384, 16_384);
    let a = addr(1);
    let mut h = connect(&mut s, a, &[0b1100_0000]);
    assert_eq!(s.next_piece_to_request(a, &mut h, 0), Some(0));
    s.register_chunk_requests(a, 0).unwrap();
    assert_eq!(s.on_received_piece(a, &mut h, 0, 0, 16_384, 7), Ok(PieceReceived::WriteAndCheck { elapsed_ms: 7 }));
    assert!(!needed(&s).contains(&0));
    assert!(matches!(s.on_piece_checked(a, 0, 7, false), Ok(PieceChecked::Broken)));
    assert!(needed(&s).contains(&0));
    assert_eq!(kind_of(&s, a), Some(PeerStateKind::Live));
    assert_eq!(s.get_downloaded_bytes(), 0);
    assert_eq!(s.stats.downloaded_and_checked_pieces, 0);
}

/// Downloads and verifies the next piece from `a`, taking `ms` milliseconds.
fn download_one(s: &mut TorrentStateLive, a: PeerAddr, h: &mut PeerHandlerLocked, start: u64, ms: u64) -> u32 {
    let piece = s.next_piece_to_request(a, h, start).unwrap();
    let chunks = s.register_chunk_requests(a, piece).unwrap();
    let mut last = None;
    for c in chunks {
        last = Some(s.on_received_piece(a, h, piece, c.offset, c.size, start + ms).unwrap());
    }
    assert_eq!(last, Some(PieceReceived::WriteAndCheck { elapsed_ms: ms }));
    assert!(matches!(s.on_piece_checked(a, piece, ms, true), Ok(PieceChecked::Verified { .. })));
    piece
}

#[test]
fn slow_piece_is_stolen() {
    // 24 pieces of two chunks each; a third peer downloads 20 of them at
    // 100 ms each, so the average piece time is 100 ms.
    let mut s = session(24 * 32_768, 32_768, 16_384);
    let c = addr(3);
    let mut hc = connect(&mut s, c, &[0xff, 0xff, 0xff]);
    for k in 0..20u64 {
        assert_eq!(download_one(&mut s, c, &mut hc, k * 100, 100), k as u32);
    }
    assert_eq!(s.stats.downloaded_and_checked_pieces, 20);
    assert_eq!(s.stats.total_piece_download_ms, 2_000);
    let a = addr(1);
    let b = addr(2);
    let mut ha = connect(&mut s, a, &[0, 0, 0b0000_1000]);
    let mut hb = connect(&mut s, b, &[0, 0, 0b0000_1000]);
    assert_eq!(s.next_piece_to_request(a, &mut ha, 10_000), Some(20));
    assert_eq!(s.register_chunk_requests(a, 20).unwrap().len(), 2);
    assert_eq!(owner_of(&s, 20), Some(a));
    // Not yet ten average piece times.
    assert_eq!(s.try_steal_old_slow_piece(b, 10, 10_900), None);
    // Eleven average piece times later, B steals piece 20.
    assert_eq!(s.next_piece_to_request(b, &mut hb, 11_100), Some(20));
    assert_eq!(owner_of(&s, 20), Some(b));
    assert_eq!(s.register_chunk_requests(b, 20).unwrap().len(), 2);
    // A's chunk is dropped: the piece belongs to B now.
    assert_eq!(s.on_received_piece(a, &mut ha, 20, 0, 16_384, 11_150), Ok(PieceReceived::Stolen));
    assert_eq!(s.on_received_piece(b, &mut hb, 20, 0, 16_384, 11_200), Ok(PieceReceived::Write));
    assert_eq!(
        s.on_received_piece(b, &mut hb, 20, 16_384, 16_384, 11_300),
        Ok(PieceReceived::WriteAndCheck { elapsed_ms: 200 })
    );
    assert!(matches!(s.on_piece_checked(b, 20, 200, true), Ok(PieceChecked::Verified { .. })));
    assert_eq!(s.on_received_piece(a, &mut ha, 20, 16_384, 16_384, 11_400), Ok(PieceReceived::NotReserved));
    assert_eq!(s.stats.downloaded_and_checked_pieces, 21);
}

#[test]
fn no_steal_before_enough_pieces() {
    let mut s = session(24 * 32_768, 32_768, 16_384);
    let c = addr(3);
    let mut hc = connect(&mut s, c, &[0xff, 0xff, 0xff]);
    for k in 0..19u64 {
        download_one(&mut s, c, &mut hc, k * 100, 100);
    }
    let a = addr(1);
    let b = addr(2);
    let mut ha = connect(&mut s, a, &[0, 0, 0b0001_0000]);
    let mut hb = connect(&mut s, b, &[0, 0, 0b0001_0000]);
    assert_eq!(s.next_piece_to_request(a, &mut ha, 0), Some(19));
    assert_eq!(s.next_piece_to_request(b, &mut hb, 1_000_000), None);
    assert_eq!(owner_of(&s, 19), Some(a));
}

#[test]
fn peer_death_cancels_requests_and_requeues() {
    let mut s = session(98_304, 49_152, 16_384);
    let a = addr(1);
    let mut h = connect(&mut s, a, &[0b1100_0000]);
    assert_eq!(s.next_piece_to_request(a, &mut h, 0), Some(0));
    assert_eq!(s.register_chunk_requests(a, 0).unwrap().len(), 3);
    assert!(!needed(&s).contains(&0));
    match s.on_peer_died(a, true) {
        Ok(PeerDeath::Requeue { .. }) => {}
        other => panic!("unexpected {:?}", other),
    }
    assert!(needed(&s).contains(&0));
    assert_eq!(kind_of(&s, a), Some(PeerStateKind::Dead));
    assert_eq!(s.peers.stats.dead, 1);
    assert_eq!(s.peers.stats.live, 0);
    assert!(s.requeue_dead_peer(a));
    assert_eq!(kind_of(&s, a), Some(PeerStateKind::Queued));
    assert!(!s.requeue_dead_peer(a));
    let errors = s.per_peer_stats_snapshot(PeerStatsFilter::All)[0].1.errors;
    assert_eq!(errors, 1);
}

#[test]
fn clean_peer_exit_is_not_needed() {
    let mut s = session(32_768, 16_384, 16_384);
    let a = addr(1);
    let _h = connect(&mut s, a, &[0b1100_0000]);
    assert_eq!(s.on_peer_died(a, false), Ok(PeerDeath::NotNeeded));
    assert_eq!(kind_of(&s, a), Some(PeerStateKind::NotNeeded));
    assert_eq!(s.on_peer_died(a, true), Ok(PeerDeath::WasNotNeeded));
    assert_eq!(s.on_peer_died(addr(9), true), Ok(PeerDeath::NotFound));
    let b = addr(2);
    assert!(s.add_peer_if_not_seen(b));
    assert_eq!(s.on_peer_died(b, true), Ok(PeerDeath::WrongStateDropped));
    assert_eq!(s.peers.find(b), None);
}

#[test]
fn pause_mid_download() {
    let mut s = session_with(262_144, 65_536, 16_384, vec![true, true, true, false]);
    assert_eq!(s.get_approx_have_bytes(), 196_608);
    let a = addr(1);
    let mut h = connect(&mut s, a, &[0b0001_0000]);
    assert_eq!(s.next_piece_to_request(a, &mut h, 0), Some(3));
    assert_eq!(s.register_chunk_requests(a, 3).unwrap().len(), 4);
    assert_eq!(s.on_received_piece(a, &mut h, 3, 0, 16_384, 1), Ok(PieceReceived::Write));
    assert_eq!(s.on_received_piece(a, &mut h, 3, 16_384, 16_384, 2), Ok(PieceReceived::Write));
    let paused = s.pause().ok().unwrap();
    assert!(s.locked.chunks.is_none());
    assert_eq!(paused.have_bytes, 196_608);
    assert_eq!(paused.chunk_tracker.iter_needed_pieces(), vec![3]);
    assert!(paused.chunk_tracker.chunk_status[3].iter().all(|c| !*c));
    assert!(matches!(s.pause(), Err(LiveError::Paused)));
    assert_eq!(s.have_pieces_bitfield(), Err(LiveError::Paused));
    assert_eq!(s.on_received_piece(a, &mut h, 3, 32_768, 16_384, 3), Err(PeerError::Paused));
    let resumed = TorrentStateLive::new(paused);
    assert_eq!(resumed.get_approx_have_bytes(), 196_608);
    assert_eq!(resumed.initially_needed(), 65_536);
}

#[test]
fn concurrent_peer_cap() {
    let mut s = session(32_768, 16_384, 16_384);
    let mut spawned = Vec::new();
    for port in 0..500u16 {
        assert!(s.add_peer_if_not_seen(addr(port)));
    }
    assert!(!s.add_peer_if_not_seen(addr(7)));
    assert_eq!(s.peers.entries.len(), 500);
    assert_eq!(s.peers.stats.queued, 500);
    for port in 0..500u16 {
        match s.on_peer_dequeued(addr(port)) {
            PeerAdderAction::Spawn => {
                assert_eq!(s.start_managing_peer(addr(port)), Ok(()));
                spawned.push(port);
            }
            PeerAdderAction::WaitForSlot => {}
            PeerAdderAction::NotNeeded => panic!("not finished"),
        }
        assert!(s.active_peer_tasks <= MAX_ACTIVE_PEERS);
        assert!(s.peers.stats.connecting + s.peers.stats.live <= 128);
    }
    assert_eq!(spawned.len(), 128);
    assert_eq!(s.peers.stats.connecting, 128);
    assert_eq!(s.peers.stats.queued, 372);
    s.release_peer_slot();
    assert_eq!(s.on_peer_dequeued(addr(499)), PeerAdderAction::Spawn);
    assert_eq!(s.on_peer_dequeued(addr(498)), PeerAdderAction::WaitForSlot);
}

#[test]
fn peer_counters_follow_transitions() {
    let mut s = session(32_768, 16_384, 16_384);
    let a = addr(1);
    let _h = connect(&mut s, a, &[0b1000_0000]);
    let st = s.peers.stats;
    assert_eq!((st.queued, st.connecting, st.live, st.dead, st.not_needed), (0, 0, 1, 0, 0));
    s.on_peer_died(a, true).unwrap();
    let st = s.peers.stats;
    assert_eq!((st.queued, st.connecting, st.live, st.dead, st.not_needed), (0, 0, 0, 1, 0));
    assert!(s.requeue_dead_peer(a));
    assert_eq!(s.peers.stats.queued, 1);
    assert_eq!(s.start_managing_peer(a), Ok(()));
    assert_eq!(s.start_managing_peer(a), Err(librqbit::peers::PeerStateError::WrongState(PeerStateKind::Connecting)));
    assert_eq!(s.start_managing_peer(addr(5)), Err(librqbit::peers::PeerStateError::NotFound));
    assert_eq!(s.peers.stats.connecting, 1);
    assert_eq!(s.per_peer_stats_snapshot(PeerStatsFilter::Live).len(), 0);
    assert_eq!(s.per_peer_stats_snapshot(PeerStatsFilter::All)[0].1.connection_attempts, 2);
}

#[test]
fn have_fan_out_skips_holders() {
    let mut s = session(65_536, 32_768, 16_384);
    let a = addr(1);
    let b = addr(2);
    let c = addr(3);
    let _ha = connect(&mut s, a, &[0b1000_0000]);
    let _hb = connect(&mut s, b, &[0b0100_0000]);
    assert!(s.add_peer_if_not_seen(c));
    s.start_managing_peer(c).unwrap();
    assert!(s.on_handshake(c, Id20 { bytes: [4u8; 20] }));
    let mut hc = PeerHandlerLocked::new();
    assert_eq!(
        s.on_bitfield(c, &mut hc, &vec![0]),
        Ok(BitfieldOutcome::NotInterested { disconnect: false })
    );
    s.on_peer_interested(a);
    s.on_peer_interested(b);
    assert_eq!(s.maybe_transmit_haves(1), vec![a]);
    assert_eq!(s.maybe_transmit_haves(0), vec![b]);
    s.on_have(a, 1);
    assert!(s.maybe_transmit_haves(1).is_empty());
    assert!(s.maybe_transmit_haves(1).is_empty());
}

#[test]
fn have_before_bitfield_allocates() {
    let mut s = session(65_536, 32_768, 16_384);
    let a = addr(1);
    assert!(s.add_peer_if_not_seen(a));
    s.start_managing_peer(a).unwrap();
    assert!(s.on_handshake(a, Id20 { bytes: [3u8; 20] }));
    assert!(!s.am_i_interested_in_peer(a));
    s.on_have(a, 1);
    s.on_have(a, 40);
    assert_eq!(s.get_next_needed_piece(a), Ok(Some(1)));
    assert!(s.am_i_interested_in_peer(a));
}

#[test]
fn bitfield_errors_and_disinterest() {
    let mut s = session_with(65_536, 32_768, 16_384, vec![true, false]);
    let a = addr(1);
    assert!(s.add_peer_if_not_seen(a));
    s.start_managing_peer(a).unwrap();
    assert!(s.on_handshake(a, Id20 { bytes: [3u8; 20] }));
    let mut h = PeerHandlerLocked::new();
    assert_eq!(s.on_bitfield(a, &mut h, &vec![0, 0]), Err(PeerError::BitfieldSize));
    assert_eq!(
        s.on_bitfield(a, &mut h, &vec![0b1000_0000]),
        Ok(BitfieldOutcome::NotInterested { disconnect: false })
    );
    assert_eq!(h.previously_requested_pieces, vec![false, false]);
    assert_eq!(s.on_bitfield(a, &mut h, &vec![0b0100_0000]), Ok(BitfieldOutcome::Interested));
}

#[test]
fn upload_requests() {
    let mut s = session_with(65_536, 32_768, 16_384, vec![true, false]);
    assert_eq!(
        s.on_download_request(0, 16_384, 16_384),
        Ok(ChunkInfo { piece_index: 0, chunk_index: 1, offset: 16_384, size: 16_384 })
    );
    assert_eq!(s.on_download_request(1, 0, 16_384), Err(PeerError::ChunkNotReady));
    assert_eq!(s.on_download_request(2, 0, 16_384), Err(PeerError::InvalidRequest));
    assert_eq!(s.on_download_request(0, 1, 16_384), Err(PeerError::InvalidRequest));
    s.on_uploaded_bytes(16_384);
    s.on_uploaded_bytes(100);
    assert_eq!(s.get_uploaded_bytes(), 16_484);
}

#[test]
fn unsolicited_and_invalid_pieces() {
    let mut s = session(65_536, 32_768, 16_384);
    let a = addr(1);
    let mut h = connect(&mut s, a, &[0b1100_0000]);
    assert_eq!(s.on_received_piece(a, &mut h, 0, 0, 100, 0), Err(PeerError::InvalidPiece));
    assert_eq!(s.on_received_piece(a, &mut h, 0, 0, 16_384, 0), Err(PeerError::UnsolicitedPiece));
    assert_eq!(s.on_received_piece(addr(8), &mut h, 0, 0, 16_384, 0), Err(PeerError::PeerNotLive));
    assert_eq!(s.stats.fetched_bytes, 32_768);
}

#[test]
fn request_permits() {
    let mut h = PeerHandlerLocked::new();
    assert!(!h.try_acquire_request_permit());
    h.on_i_am_unchoked();
    assert!(!h.i_am_choked);
    assert_eq!(h.request_permits, 16);
    h.on_chunk_received();
    assert_eq!(h.request_permits, 17);
    assert!(h.try_acquire_request_permit());
    assert_eq!(h.request_permits, 16);
    h.on_i_am_choked();
    assert!(h.i_am_choked);
    h.previously_requested_pieces = vec![false, false];
    h.mark_requested(1);
    h.mark_requested(5);
    assert_eq!(h.previously_requested_pieces, vec![false, true]);
}

#[test]
fn choked_peer_gets_no_fresh_piece() {
    let mut s = session(65_536, 32_768, 16_384);
    let a = addr(1);
    let mut h = connect(&mut s, a, &[0b1100_0000]);
    h.on_i_am_choked();
    assert_eq!(s.next_piece_to_request(a, &mut h, 0), None);
    assert_eq!(s.reserve_next_needed_piece(a, true, 0), Ok(None));
    assert_eq!(s.reserve_next_needed_piece(a, false, 0), Ok(Some(0)));
    assert_eq!(s.reserve_next_needed_piece(a, false, 0), Ok(Some(1)));
    assert_eq!(s.reserve_next_needed_piece(a, false, 0), Ok(None));
}

#[test]
fn fatal_error_reported_once() {
    let mut s = session(32_768, 16_384, 16_384);
    assert_eq!(s.on_fatal_error(), Ok(()));
    assert_eq!(s.on_fatal_error(), Err(LiveError::FatalErrorAlreadyReported));
}

#[test]
fn tracker_monitor_intervals() {
    let mut m = TrackerMonitor::new();
    assert_eq!(m.event, Some(TrackerRequestEvent::Started));
    assert_eq!(m.on_announce_result(None, None), TRACKER_RETRY_MS);
    assert_eq!(m.event, Some(TrackerRequestEvent::Started));
    assert_eq!(m.on_announce_result(Some(1_800), None), 1_800_000);
    assert_eq!(m.event, None);
    assert_eq!(m.on_announce_result(Some(1_800), Some(5_000)), 5_000);
    assert_eq!(m.on_announce_result(Some(u64::MAX), None), u64::MAX);
}

#[test]
fn announce_and_estimate_counts() {
    let mut s = session(32_768, 16_384, 16_384);
    let counts = s.announce_counts();
    assert_eq!((counts.uploaded, counts.downloaded, counts.left), (0, 0, 32_768));
    assert_eq!(s.remaining_for_estimate(1_000), 31_768);
    assert_eq!(s.remaining_for_estimate(40_000), 32_768);
    s.on_uploaded_bytes(5);
    assert_eq!(s.announce_counts().uploaded, 5);
    assert_eq!(s.info_hash().bytes, [1u8; 20]);
    assert_eq!(s.peer_id().bytes, [2u8; 20]);
    assert_eq!(s.lengths().total_pieces, 2);
    assert_eq!(s.meta().trackers.len(), 0);
}

#[test]
fn speed_estimator_keeps_last_samples() {
    let mut e = SpeedEstimator::new(2);
    assert_eq!(e.download_bytes_per_sec(), 0);
    assert_eq!(e.remaining_bytes(), None);
    e.add_snapshot(0, 100, 0);
    e.add_snapshot(1_000, 90, 1_000);
    assert_eq!(e.download_bytes_per_sec(), 1_000);
    e.add_snapshot(5_000, 50, 2_000);
    assert_eq!(e.samples.len(), 2);
    assert_eq!(e.samples[0], SpeedSample { fetched_bytes: 1_000, remaining_bytes: 90, time_ms: 1_000 });
    assert_eq!(e.download_bytes_per_sec(), 4_000);
    assert_eq!(e.remaining_bytes(), Some(50));
    e.add_snapshot(10, 50, 500);
    assert_eq!(e.download_bytes_per_sec(), 0);
}

#[test]
fn session_feeds_speed_estimator() {
    let mut s = session(32_768, 16_384, 16_384);
    let a = addr(1);
    let mut h = connect(&mut s, a, &[0b1100_0000]);
    s.update_speed_estimator(0);
    download_one(&mut s, a, &mut h, 0, 10);
    s.update_speed_estimator(1_000);
    let e = s.speed_estimator();
    assert_eq!(e.samples.len(), 2);
    assert_eq!(e.remaining_bytes(), Some(16_384));
    assert_eq!(e.download_bytes_per_sec(), 16_384);
    assert_eq!(s.info().piece_hashes.len(), 0);
}

#[test]
fn peer_death_drops_reservation_of_needed_piece() {
    let mut s = session(98_304, 49_152, 16_384);
    let a = addr(1);
    let b = addr(2);
    let mut ha = connect(&mut s, a, &[0b1100_0000]);
    let _hb = connect(&mut s, b, &[0b0100_0000]);
    assert_eq!(s.next_piece_to_request(a, &mut ha, 0), Some(0));
    s.register_chunk_requests(a, 0).unwrap();
    assert_eq!(owner_of(&s, 0), Some(a));
    s.on_peer_died(a, true).unwrap();
    assert_eq!(owner_of(&s, 0), None);
    assert!(needed(&s).contains(&0));
    assert_eq!(kind_of(&s, b), Some(PeerStateKind::Live));
}

#[test]
fn pieces_are_requested_lowest_first() {
    let mut s = session(65_536, 16_384, 16_384);
    let a = addr(1);
    let mut h = connect(&mut s, a, &[0b1111_0000]);
    assert_eq!(s.next_piece_to_request(a, &mut h, 0), Some(0));
    assert_eq!(s.next_piece_to_request(a, &mut h, 0), Some(1));
    assert_eq!(s.next_piece_to_request(a, &mut h, 0), Some(2));
    assert_eq!(s.next_piece_to_request(a, &mut h, 0), Some(3));
    assert_eq!(s.next_piece_to_request(a, &mut h, 0), None);
}

#[test]
fn registering_requests_skips_those_already_sent() {
    let mut s = session(49_152, 49_152, 16_384);
    let a = addr(1);
    let mut h = connect(&mut s, a, &[0b1000_0000]);
    assert_eq!(s.next_piece_to_request(a, &mut h, 0), Some(0));
    let first = s.register_chunk_requests(a, 0).unwrap();
    assert_eq!(first.iter().map(|c| c.offset).collect::<Vec<_>>(), vec![0, 16_384, 32_768]);
    assert!(s.register_chunk_requests(a, 0).unwrap().is_empty());
    assert_eq!(s.on_received_piece(a, &mut h, 0, 16_384, 16_384, 1), Ok(PieceReceived::Write));
    let again = s.register_chunk_requests(a, 0).unwrap();
    assert_eq!(again, vec![ChunkInfo { piece_index: 0, chunk_index: 1, offset: 16_384, size: 16_384 }]);
    assert_eq!(s.register_chunk_requests(addr(9), 0), None);
}

#[test]
fn checked_piece_counts_on_the_peer() {
    let mut s = session(32_768, 16_384, 16_384);
    let a = addr(1);
    let mut h = connect(&mut s, a, &[0b1100_0000]);
    download_one(&mut s, a, &mut h, 0, 3);
    let c = s.per_peer_stats_snapshot(PeerStatsFilter::All)[0].1;
    assert_eq!(c.downloaded_and_checked_pieces, 1);
    assert_eq!(c.downloaded_and_checked_bytes, 16_384);
    assert_eq!(c.fetched_bytes, 16_384);
    assert_eq!(c.fetched_chunks, 1);
    assert!(s.locked.inflight_pieces.is_empty());
}

#[test]
fn paused_state_validity() {
    let l = Lengths::new(65_536, 32_768, 16_384).unwrap();
    let mut p = TorrentStatePaused::new(info(), l, vec![true, false]);
    assert!(p.is_valid());
    assert_eq!(p.have_bytes, 32_768);
    p.have_bytes = 1;
    assert!(!p.is_valid());
    p.have_bytes = 32_768;
    p.chunk_tracker.needed[0] = true;
    assert!(!p.is_valid());
    p.chunk_tracker.needed[0] = false;
    p.chunk_tracker.lengths.total_length = 1;
    assert!(!p.is_valid());
}
