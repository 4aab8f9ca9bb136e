use vstd::prelude::*;

use crate::bitfield::has_bit;
use crate::lengths::{ChunkInfo, Lengths};

verus! {

/// What marking one chunk as downloaded did to its piece.
#[derive(Clone, Copy, Debug, PartialEq, Eq, Structural)]
pub enum ChunkMarkingResult {
    /// Every chunk of the piece had already been downloaded.
    PreviouslyCompleted,
    /// This chunk was the piece's last missing one.
    Completed,
    /// The piece still misses chunks.
    NotCompleted,
}

/// Which pieces we have, which we need, and which chunks of each piece have
/// been downloaded. A piece that is neither needed nor had is reserved.
pub struct ChunkTracker {
    pub lengths: Lengths,
    pub needed: Vec<bool>,
    pub have: Vec<bool>,
    pub chunk_status: Vec<Vec<bool>>,
}

pub open spec fn all_set(s: Seq<bool>) -> bool {
    forall|i: int| 0 <= i < s.len() ==> s[i]
}

pub open spec fn none_set(s: Seq<bool>) -> bool {
    forall|i: int| 0 <= i < s.len() ==> !s[i]
}

/// Sum of the lengths of the pieces below `k` whose flag is set.
pub open spec fn bytes_of(l: Lengths, flags: Seq<bool>, k: int) -> int
    decreases k,
{
    if k <= 0 {
        0
    } else {
        bytes_of(l, flags, k - 1) + if flags[k - 1] {
            l.piece_len(k - 1)
        } else {
            0
        }
    }
}

/// Sum of the lengths of the pieces below `k`.
pub open spec fn span_bytes(l: Lengths, k: int) -> int
    decreases k,
{
    if k <= 0 {
        0
    } else {
        span_bytes(l, k - 1) + l.piece_len(k - 1)
    }
}

pub proof fn lemma_bytes_le_span(l: Lengths, flags: Seq<bool>, k: int)
    ensures
        0 <= bytes_of(l, flags, k) <= span_bytes(l, k),
    decreases k,
{
    if k > 0 {
        lemma_bytes_le_span(l, flags, k - 1);
    }
}

pub proof fn lemma_span_total(l: Lengths, k: int)
    requires
        l.wf(),
        0 <= k <= l.total_pieces,
    ensures
        k < l.total_pieces ==> span_bytes(l, k) == k * l.piece_length,
        k == l.total_pieces ==> span_bytes(l, k) == l.total_length,
    decreases k,
{
    if k > 0 {
        lemma_span_total(l, k - 1);
        assert((k - 1) * l.piece_length + l.piece_length == k * l.piece_length) by (
        nonlinear_arith);
    }
}

/// The bytes of the pieces flagged in `flags` never exceed the torrent's length.
pub proof fn lemma_bytes_le_total(l: Lengths, flags: Seq<bool>)
    requires
        l.wf(),
    ensures
        0 <= bytes_of(l, flags, l.total_pieces as int) <= l.total_length,
{
    lemma_bytes_le_span(l, flags, l.total_pieces as int);
    lemma_span_total(l, l.total_pieces as int);
}

pub proof fn lemma_bytes_set(l: Lengths, flags: Seq<bool>, p: int, k: int)
    requires
        0 <= p < flags.len(),
        k <= flags.len(),
    ensures
        bytes_of(l, flags.update(p, true), k) == bytes_of(l, flags, k) + if p < k && !flags[p] {
            l.piece_len(p)
        } else {
            0
        },
    decreases k,
{
    if k > 0 {
        lemma_bytes_set(l, flags, p, k - 1);
    }
}

pub proof fn lemma_bytes_ext(l: Lengths, a: Seq<bool>, b: Seq<bool>, k: int)
    requires
        k <= a.len(),
        k <= b.len(),
        forall|i: int| 0 <= i < k ==> a[i] == b[i],
    ensures
        bytes_of(l, a, k) == bytes_of(l, b, k),
    decreases k,
{
    if k > 0 {
        lemma_bytes_ext(l, a, b, k - 1);
    }
}

fn copy_flags(v: &Vec<bool>) -> (r: Vec<bool>)
    ensures
        r@ == v@,
{
    let mut out: Vec<bool> = Vec::new();
    let mut i: usize = 0;
    while i < v.len()
        invariant
            i <= v@.len(),
            out@ =~= v@.subrange(0, i as int),
        decreases v@.len() - i,
    {
        out.push(v[i]);
        i = i + 1;
    }
    assert(out@ =~= v@);
    out
}

impl ChunkTracker {
    pub open spec fn wf(&self) -> bool {
        let n = self.lengths.total_pieces as int;
        &&& self.lengths.wf()
        &&& self.needed@.len() == n
        &&& self.have@.len() == n
        &&& self.chunk_status@.len() == n
        &&& forall|p: int|
            0 <= p < n ==> #[trigger] self.chunk_status@[p]@.len() == self.lengths.num_chunks(p)
        &&& forall|p: int| 0 <= p < n ==> #[trigger] self.have@[p] ==> !self.needed@[p]
    }

    /// Whether the tracker is consistent: flags of the right lengths, and no
    /// piece both had and needed.
    pub fn is_valid(&self) -> (r: bool)
        ensures
            r == self.wf(),
    {
        if !self.lengths.is_valid() {
            return false;
        }
        let n = self.lengths.total_pieces;
        if self.needed.len() != n as usize || self.have.len() != n as usize || self.chunk_status.len()
            != n as usize {
            return false;
        }
        let mut p: u32 = 0;
        while p < n
            invariant
                self.lengths.wf(),
                n == self.lengths.total_pieces,
                self.needed@.len() == n,
                self.have@.len() == n,
                self.chunk_status@.len() == n,
                p <= n,
                forall|q: int| 0 <= q < p ==> #[trigger] self.chunk_status@[q]@.len() == self.lengths.num_chunks(q),
                forall|q: int| 0 <= q < p ==> #[trigger] self.have@[q] ==> !self.needed@[q],
            decreases n - p,
        {
            if self.chunk_status[p as usize].len() != self.lengths.chunk_count(p) as usize {
                return false;
            }
            if self.have[p as usize] && self.needed[p as usize] {
                return false;
            }
            p = p + 1;
        }
        true
    }

    pub open spec fn is_needed(&self, p: int) -> bool {
        has_bit(self.needed@, p)
    }

    pub open spec fn is_had(&self, p: int) -> bool {
        has_bit(self.have@, p)
    }

    pub open spec fn chunks_of(&self, p: int) -> Seq<bool> {
        self.chunk_status@[p]@
    }

    /// Bytes of the pieces we have.
    pub open spec fn have_bytes(&self) -> int {
        bytes_of(self.lengths, self.have@, self.lengths.total_pieces as int)
    }

    /// A tracker for a torrent of which we have the pieces flagged in `have`:
    /// every other piece is needed, and every chunk of a piece we have is done.
    pub fn new(lengths: Lengths, have: Vec<bool>) -> (r: ChunkTracker)
        requires
            lengths.wf(),
            have@.len() == lengths.total_pieces,
        ensures
            r.wf(),
            r.lengths == lengths,
            r.have@ == have@,
            forall|p: int| 0 <= p < lengths.total_pieces ==> r.is_needed(p) == !have@[p],
            forall|p: int|
                0 <= p < lengths.total_pieces ==> #[trigger] r.chunks_of(p) == Seq::new(
                    lengths.num_chunks(p) as nat,
                    |i: int| have@[p],
                ),
    {
        let n = lengths.total_pieces;
        let mut needed: Vec<bool> = Vec::new();
        let mut chunk_status: Vec<Vec<bool>> = Vec::new();
        let mut p: u32 = 0;
        while p < n
            invariant
                lengths.wf(),
                n == lengths.total_pieces,
                have@.len() == n,
                p <= n,
                needed@.len() == p,
                chunk_status@.len() == p,
                forall|q: int| 0 <= q < p ==> #[trigger] needed@[q] == !have@[q],
                forall|q: int|
                    0 <= q < p ==> #[trigger] chunk_status@[q]@ =~= Seq::new(
                        lengths.num_chunks(q) as nat,
                        |i: int| have@[q],
                    ),
            decreases n - p,
        {
            let h = have[p as usize];
            needed.push(!h);
            let count = lengths.chunk_count(p);
            let mut chunks: Vec<bool> = Vec::new();
            let mut c: u32 = 0;
            while c < count
                invariant
                    c <= count,
                    chunks@ =~= Seq::new(c as nat, |i: int| h),
                decreases count - c,
            {
                chunks.push(h);
                c = c + 1;
            }
            chunk_status.push(chunks);
            p = p + 1;
        }
        ChunkTracker { lengths, needed, have, chunk_status }
    }

    pub fn get_lengths(&self) -> (r: &Lengths)
        ensures
            r == &self.lengths,
    {
        &self.lengths
    }

    /// The pieces that are needed, in increasing order.
    pub fn iter_needed_pieces(&self) -> (r: Vec<u32>)
        requires
            self.wf(),
        ensures
            forall|i: int, j: int| 0 <= i < j < r@.len() ==> r@[i] < r@[j],
            forall|p: int|
                0 <= p < self.lengths.total_pieces ==> (self.is_needed(p) <==> r@.contains(
                    p as u32,
                )),
            forall|i: int| 0 <= i < r@.len() ==> self.is_needed(#[trigger] r@[i] as int),
    {
        let n = self.lengths.total_pieces;
        let mut out: Vec<u32> = Vec::new();
        let mut p: u32 = 0;
        while p < n
            invariant
                self.wf(),
                n == self.lengths.total_pieces,
                p <= n,
                forall|i: int, j: int| 0 <= i < j < out@.len() ==> out@[i] < out@[j],
                forall|i: int| 0 <= i < out@.len() ==> #[trigger] out@[i] < p,
                forall|q: int| 0 <= q < p ==> (self.is_needed(q) <==> out@.contains(q as u32)),
                forall|i: int| 0 <= i < out@.len() ==> self.is_needed(#[trigger] out@[i] as int),
            decreases n - p,
        {
            let ghost prev = out@;
            if self.needed[p as usize] {
                out.push(p);
            }
            proof {
                assert forall|q: int| 0 <= q < p + 1 implies (self.is_needed(q)
                    <==> out@.contains(q as u32)) by {
                    if q < p {
                        if prev.contains(q as u32) {
                            let i = choose|i: int| 0 <= i < prev.len() && prev[i] == q as u32;
                            assert(out@[i] == q as u32);
                        }
                        if out@.contains(q as u32) {
                            let i = choose|i: int| 0 <= i < out@.len() && out@[i] == q as u32;
                            if i < prev.len() {
                                assert(prev[i] == q as u32);
                            }
                        }
                    } else {
                        if self.is_needed(q) {
                            assert(out@[out@.len() - 1] == p);
                        }
                        if out@.contains(q as u32) {
                            let i = choose|i: int| 0 <= i < out@.len() && out@[i] == q as u32;
                            if i < prev.len() {
                                assert(prev[i] < p);
                            }
                        }
                    }
                }
            }
            p = p + 1;
        }
        out
    }

    /// The lowest needed piece that `bitfield` has.
    pub fn first_needed_in(&self, bitfield: &Vec<bool>) -> (r: Option<u32>)
        requires
            self.wf(),
        ensures
            r is None <==> !(exists|p: int|
                0 <= p < self.lengths.total_pieces && self.is_needed(p) && has_bit(bitfield@, p)),
            r matches Some(p) ==> p < self.lengths.total_pieces && self.is_needed(p as int)
                && has_bit(bitfield@, p as int) && forall|q: int|
                0 <= q < p ==> !(self.is_needed(q) && has_bit(bitfield@, q)),
    {
        let n = self.lengths.total_pieces;
        let mut p: u32 = 0;
        while p < n
            invariant
                self.wf(),
                n == self.lengths.total_pieces,
                p <= n,
                forall|q: int| 0 <= q < p ==> !(self.is_needed(q) && has_bit(bitfield@, q)),
            decreases n - p,
        {
            if self.needed[p as usize] && (p as usize) < bitfield.len() && bitfield[p as usize] {
                assert(self.is_needed(p as int) && has_bit(bitfield@, p as int));
                return Some(p);
            }
            p = p + 1;
        }
        None
    }

    /// Takes a needed piece out of the needed set: it is reserved.
    pub fn reserve_needed_piece(&mut self, index: u32)
        requires
            old(self).wf(),
            index < old(self).lengths.total_pieces,
        ensures
            final(self).wf(),
            final(self).lengths == old(self).lengths,
            final(self).needed@ == old(self).needed@.update(index as int, false),
            final(self).have@ == old(self).have@,
            final(self).chunk_status@ == old(self).chunk_status@,
    {
        self.needed.set(index as usize, false);
    }

    /// A request for a chunk of `index` was abandoned: unless we have the
    /// piece or all its chunks are done, the piece becomes needed again.
    /// Returns false when we have the piece.
    pub fn mark_chunk_request_cancelled(&mut self, index: u32, chunk: u32) -> (r: bool)
        requires
            old(self).wf(),
            index < old(self).lengths.total_pieces,
        ensures
            final(self).wf(),
            r == !old(self).have@[index as int],
            final(self).lengths == old(self).lengths,
            final(self).have@ == old(self).have@,
            final(self).chunk_status@ == old(self).chunk_status@,
            final(self).needed@ == if r && !all_set(old(self).chunks_of(index as int)) {
                old(self).needed@.update(index as int, true)
            } else {
                old(self).needed@
            },
    {
        if self.have[index as usize] {
            return false;
        }
        if !self.all_chunks_done(index) {
            self.needed.set(index as usize, true);
        }
        true
    }

    fn all_chunks_done(&self, index: u32) -> (r: bool)
        requires
            self.wf(),
            index < self.lengths.total_pieces,
        ensures
            r == all_set(self.chunks_of(index as int)),
    {
        let chunks = &self.chunk_status[index as usize];
        let mut i: usize = 0;
        while i < chunks.len()
            invariant
                chunks@ == self.chunks_of(index as int),
                forall|k: int| 0 <= k < i ==> chunks@[k],
                i <= chunks@.len(),
            decreases chunks@.len() - i,
        {
            if !chunks[i] {
                return false;
            }
            i = i + 1;
        }
        true
    }

    /// Records that a chunk of a piece arrived.
    pub fn mark_chunk_downloaded(&mut self, chunk: &ChunkInfo) -> (r: ChunkMarkingResult)
        requires
            old(self).wf(),
            chunk.piece_index < old(self).lengths.total_pieces,
            chunk.chunk_index < old(self).lengths.num_chunks(chunk.piece_index as int),
        ensures
            final(self).wf(),
            final(self).lengths == old(self).lengths,
            final(self).have@ == old(self).have@,
            final(self).needed@ == old(self).needed@,
            ({
                let p = chunk.piece_index as int;
                let before = old(self).chunks_of(p);
                let after = before.update(chunk.chunk_index as int, true);
                if all_set(before) {
                    r == ChunkMarkingResult::PreviouslyCompleted && final(self).chunk_status@
                        == old(self).chunk_status@
                } else {
                    &&& final(self).chunks_of(p) == after
                    &&& forall|q: int|
                        0 <= q < final(self).chunk_status@.len() && q != p
                            ==> #[trigger] final(self).chunk_status@[q] == old(
                            self,
                        ).chunk_status@[q]
                    &&& final(self).chunk_status@.len() == old(self).chunk_status@.len()
                    &&& r == if all_set(after) {
                        ChunkMarkingResult::Completed
                    } else {
                        ChunkMarkingResult::NotCompleted
                    }
                }
            }),
    {
        let p = chunk.piece_index;
        if self.all_chunks_done(p) {
            return ChunkMarkingResult::PreviouslyCompleted;
        }
        let mut chunks = copy_flags(&self.chunk_status[p as usize]);
        chunks.set(chunk.chunk_index as usize, true);
        self.chunk_status.set(p as usize, chunks);
        if self.all_chunks_done(p) {
            ChunkMarkingResult::Completed
        } else {
            ChunkMarkingResult::NotCompleted
        }
    }

    /// The piece passed its check: we have it.
    pub fn mark_piece_downloaded(&mut self, index: u32)
        requires
            old(self).wf(),
            index < old(self).lengths.total_pieces,
        ensures
            final(self).wf(),
            final(self).lengths == old(self).lengths,
            final(self).have@ == old(self).have@.update(index as int, true),
            final(self).needed@ == old(self).needed@.update(index as int, false),
            final(self).chunk_status@ == old(self).chunk_status@,
    {
        self.have.set(index as usize, true);
        self.needed.set(index as usize, false);
    }

    /// The piece failed its check: all its chunks are needed again. A piece
    /// that we have is left as it is.
    pub fn mark_piece_broken(&mut self, index: u32)
        requires
            old(self).wf(),
            index < old(self).lengths.total_pieces,
        ensures
            final(self).wf(),
            final(self).lengths == old(self).lengths,
            final(self).have@ == old(self).have@,
            old(self).have@[index as int] ==> final(self).needed@ == old(self).needed@
                && final(self).chunk_status@ == old(self).chunk_status@,
            !old(self).have@[index as int] ==> {
                &&& final(self).needed@ == old(self).needed@.update(index as int, true)
                &&& final(self).chunk_status@.len() == old(self).chunk_status@.len()
                &&& forall|i: int|
                    0 <= i < final(self).chunks_of(index as int).len() ==> !final(self).chunks_of(
                        index as int,
                    )[i]
                &&& forall|q: int|
                    0 <= q < final(self).chunk_status@.len() && q != index
                        ==> #[trigger] final(self).chunk_status@[q] == old(self).chunk_status@[q]
            },
    {
        if self.have[index as usize] {
            return;
        }
        self.needed.set(index as usize, true);
        let count = self.lengths.chunk_count(index);
        let mut chunks: Vec<bool> = Vec::new();
        let mut c: u32 = 0;
        while c < count
            invariant
                c <= count,
                chunks@ =~= Seq::new(c as nat, |i: int| false),
            decreases count - c,
        {
            chunks.push(false);
            c = c + 1;
        }
        self.chunk_status.set(index as usize, chunks);
    }

    /// A chunk can be uploaded once we have its whole piece.
    pub fn is_chunk_ready_to_upload(&self, chunk: &ChunkInfo) -> (r: bool)
        requires
            self.wf(),
        ensures
            r == self.is_had(chunk.piece_index as int),
    {
        (chunk.piece_index as usize) < self.have.len() && self.have[chunk.piece_index as usize]
    }

    /// Which pieces we have, one flag per piece.
    pub fn get_have_pieces(&self) -> (r: &Vec<bool>)
        ensures
            r@ == self.have@,
    {
        &self.have
    }

    /// Bytes of the pieces we have.
    pub fn calc_have_bytes(&self) -> (r: u64)
        requires
            self.wf(),
        ensures
            r == self.have_bytes(),
    {
        let n = self.lengths.total_pieces;
        let mut sum: u64 = 0;
        let mut p: u32 = 0;
        proof {
            lemma_bytes_le_total(self.lengths, self.have@);
        }
        while p < n
            invariant
                self.wf(),
                n == self.lengths.total_pieces,
                p <= n,
                sum == bytes_of(self.lengths, self.have@, p as int),
            decreases n - p,
        {
            proof {
                lemma_bytes_le_span(self.lengths, self.have@, p + 1);
                lemma_span_total(self.lengths, p + 1);
                lemma_bytes_le_total(self.lengths, self.have@);
                if p + 1 < n {
                    assert((p + 1) * self.lengths.piece_length <= self.lengths.total_length)
                        by (nonlinear_arith)
                        requires
                            p + 1 <= n - 1,
                            self.lengths.total_length == (n - 1) * self.lengths.piece_length
                                + self.lengths.last_piece_length,
                            self.lengths.last_piece_length > 0,
                    ;
                }
            }
            if self.have[p as usize] {
                sum = sum + self.lengths.piece_length(p) as u64;
            }
            p = p + 1;
        }
        sum
    }
}

} // verus!
