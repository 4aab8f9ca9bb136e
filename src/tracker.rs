use vstd::prelude::*;

use crate::live::TorrentStateLive;

verus! {

/// The event field of an announce.
#[derive(Clone, Copy, Debug, PartialEq, Eq, Structural)]
pub enum TrackerRequestEvent {
    Started,
    Stopped,
    Completed,
}

/// Delay before announcing again after a failed announce, in ms.
pub const TRACKER_RETRY_MS: u64 = 60000;

/// The byte counts that an announce reports.
#[derive(Clone, Copy, Debug, PartialEq, Eq, Structural)]
pub struct AnnounceCounts {
    pub uploaded: u64,
    pub downloaded: u64,
    pub left: u64,
}

/// The decisions of one tracker's announce loop.
#[derive(Clone, Copy, Debug, PartialEq, Eq, Structural)]
pub struct TrackerMonitor {
    /// The event of the next announce.
    pub event: Option<TrackerRequestEvent>,
}

impl TrackerMonitor {
    /// A loop whose first announce says `started`.
    pub fn new() -> (r: TrackerMonitor)
        ensures
            r.event == Some(TrackerRequestEvent::Started),
    {
        TrackerMonitor { event: Some(TrackerRequestEvent::Started) }
    }

    /// An announce ended: with the tracker's interval in seconds, or with a
    /// failure. Returns how long to wait before the next one, in ms: the
    /// forced interval if one is set, else the tracker's; a flat minute after
    /// a failure. After a success later announces carry no event.
    pub fn on_announce_result(&mut self, interval_secs: Option<u64>, forced_interval_ms: Option<u64>) -> (r: u64)
        ensures
            interval_secs is None ==> r == TRACKER_RETRY_MS && final(self).event == old(self).event,
            interval_secs matches Some(s) ==> final(self).event is None && r == match forced_interval_ms {
                Some(f) => f,
                None => if s * 1000 <= u64::MAX { (s * 1000) as u64 } else { u64::MAX },
            },
    {
        match interval_secs {
            None => TRACKER_RETRY_MS,
            Some(s) => {
                self.event = None;
                match forced_interval_ms {
                    Some(f) => f,
                    None => {
                        if s <= u64::MAX / 1000 {
                            s * 1000
                        } else {
                            u64::MAX
                        }
                    },
                }
            },
        }
    }
}

/// `a - b` modulo 2^64.
pub open spec fn wsub(a: u64, b: u64) -> u64 {
    if a >= b {
        (a - b) as u64
    } else {
        (a + u64::MAX + 1 - b) as u64
    }
}

impl TorrentStateLive {
    /// What the next announce reports.
    pub fn announce_counts(&self) -> (r: AnnounceCounts)
        requires
            self.wf(),
        ensures
            r == (AnnounceCounts {
                uploaded: self.stats.uploaded_bytes,
                downloaded: self.stats.downloaded_and_checked_bytes,
                left: (self.initially_needed_bytes - self.stats.downloaded_and_checked_bytes) as u64,
            }),
    {
        AnnounceCounts {
            uploaded: self.get_uploaded_bytes(),
            downloaded: self.get_downloaded_bytes(),
            left: self.get_left_to_download_bytes(),
        }
    }

    /// Feeds the speed estimator a reading taken at `now_ms`: the fetched
    /// bytes and the bytes still to fetch.
    pub fn update_speed_estimator(&mut self, now_ms: u64)
        requires
            old(self).wf(),
        ensures
            final(self).wf(),
            final(self).stats == old(self).stats,
            final(self).locked == old(self).locked,
            final(self).peers == old(self).peers,
            final(self).speed_estimator.samples@.len() > 0,
            final(self).speed_estimator.samples@.last() == (crate::speed::SpeedSample {
                fetched_bytes: old(self).stats.fetched_bytes,
                remaining_bytes: old(self).remaining_spec(old(self).stats.fetched_bytes),
                time_ms: now_ms,
            }),
    {
        let fetched = self.stats.fetched_bytes;
        let remaining = self.remaining_for_estimate(fetched);
        self.speed_estimator.add_snapshot(fetched, remaining, now_ms);
    }

    pub open spec fn remaining_spec(&self, fetched: u64) -> u64 {
        if wsub(self.initially_needed_bytes, fetched) <= self.initially_needed_bytes - self.stats.downloaded_and_checked_bytes {
            wsub(self.initially_needed_bytes, fetched)
        } else {
            (self.initially_needed_bytes - self.stats.downloaded_and_checked_bytes) as u64
        }
    }

    /// The bytes still to fetch that the speed estimator is fed, given
    /// `fetched` bytes so far: the smaller of the needed bytes minus
    /// `fetched` (modulo 2^64, as fetched bytes may exceed what was checked)
    /// and the needed bytes minus those checked.
    pub fn remaining_for_estimate(&self, fetched: u64) -> (r: u64)
        requires
            self.wf(),
        ensures
            r == self.remaining_spec(fetched),
    {
        let a = self.initially_needed_bytes.wrapping_sub(fetched);
        let b = self.initially_needed_bytes - self.stats.downloaded_and_checked_bytes;
        if a <= b {
            a
        } else {
            b
        }
    }
}

} // verus!
