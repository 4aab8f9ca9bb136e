use vstd::prelude::*;

verus! {

/// One reading of the download counters.
#[derive(Clone, Copy, Debug, PartialEq, Eq, Structural)]
pub struct SpeedSample {
    pub fetched_bytes: u64,
    pub remaining_bytes: u64,
    pub time_ms: u64,
}

/// The last `capacity` readings, oldest first.
pub struct SpeedEstimator {
    pub capacity: usize,
    pub samples: Vec<SpeedSample>,
}

/// Bytes per second between the oldest and the newest reading; zero when
/// there is no such span or the counter went back.
pub open spec fn rate_of(s: Seq<SpeedSample>) -> int {
    if s.len() < 2 {
        0
    } else {
        let first = s[0];
        let last = s[s.len() - 1];
        if last.time_ms <= first.time_ms || last.fetched_bytes < first.fetched_bytes {
            0
        } else {
            let r = (last.fetched_bytes - first.fetched_bytes) * 1000 / (last.time_ms - first.time_ms);
            if r > u64::MAX {
                u64::MAX as int
            } else {
                r
            }
        }
    }
}

impl SpeedEstimator {
    pub open spec fn wf(&self) -> bool {
        0 < self.capacity && self.samples@.len() <= self.capacity
    }

    pub fn new(capacity: usize) -> (r: SpeedEstimator)
        requires
            capacity > 0,
        ensures
            r.wf(),
            r.capacity == capacity,
            r.samples@.len() == 0,
    {
        SpeedEstimator { capacity, samples: Vec::new() }
    }

    /// Records a reading, forgetting the oldest one when full.
    pub fn add_snapshot(&mut self, fetched_bytes: u64, remaining_bytes: u64, time_ms: u64)
        requires
            old(self).wf(),
        ensures
            final(self).wf(),
            final(self).capacity == old(self).capacity,
            final(self).samples@ == if old(self).samples@.len() < old(self).capacity {
                old(self).samples@
            } else {
                old(self).samples@.subrange(1, old(self).samples@.len() as int)
            }.push(SpeedSample { fetched_bytes, remaining_bytes, time_ms }),
    {
        if self.samples.len() >= self.capacity {
            self.samples.remove(0);
            assert(self.samples@ =~= old(self).samples@.subrange(1, old(self).samples@.len() as int));
        }
        self.samples.push(SpeedSample { fetched_bytes, remaining_bytes, time_ms });
    }

    /// Download speed over the recorded readings, in bytes per second.
    pub fn download_bytes_per_sec(&self) -> (r: u64)
        ensures
            r == rate_of(self.samples@),
    {
        let n = self.samples.len();
        if n < 2 {
            return 0;
        }
        let first = self.samples[0];
        let last = self.samples[n - 1];
        if last.time_ms <= first.time_ms || last.fetched_bytes < first.fetched_bytes {
            return 0;
        }
        let bytes = (last.fetched_bytes - first.fetched_bytes) as u128;
        let ms = (last.time_ms - first.time_ms) as u128;
        proof {
            assert(bytes * 1000 <= u128::MAX) by (nonlinear_arith)
                requires bytes <= u64::MAX;
        }
        let r = bytes * 1000 / ms;
        if r > u64::MAX as u128 {
            u64::MAX
        } else {
            r as u64
        }
    }

    /// The newest reading of the bytes still to fetch, if any.
    pub fn remaining_bytes(&self) -> (r: Option<u64>)
        ensures
            self.samples@.len() == 0 ==> r is None,
            self.samples@.len() > 0 ==> r == Some(self.samples@.last().remaining_bytes),
    {
        if self.samples.len() == 0 {
            None
        } else {
            Some(self.samples[self.samples.len() - 1].remaining_bytes)
        }
    }
}

} // verus!
