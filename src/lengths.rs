use vstd::prelude::*;

verus! {

/// The geometry of a torrent: how its bytes split into pieces and chunks.
#[derive(Clone, Copy, Debug)]
pub struct Lengths {
    pub total_length: u64,
    pub piece_length: u32,
    pub last_piece_length: u32,
    pub chunk_length: u32,
    pub total_pieces: u32,
}

/// A validated chunk of a piece: `offset` is a multiple of the chunk length,
/// `size` is the chunk's exact size.
#[derive(Clone, Copy, Debug, PartialEq, Eq, Structural)]
pub struct ChunkInfo {
    pub piece_index: u32,
    pub chunk_index: u32,
    pub offset: u32,
    pub size: u32,
}

/// Number of `c`-sized chunks needed to cover `l` bytes.
pub open spec fn ceil_div(l: int, c: int) -> int {
    (l + c - 1) / c
}

pub proof fn lemma_chunk_index_bound(l: int, c: int, k: int)
    requires
        l > 0,
        c > 0,
        k >= 0,
    ensures
        k < ceil_div(l, c) <==> k * c < l,
{
    let q = (l + c - 1) / c;
    let r = (l + c - 1) % c;
    vstd::arithmetic::div_mod::lemma_fundamental_div_mod(l + c - 1, c);
    assert(l + c - 1 == c * q + r);
    assert(0 <= r < c);
    if k < q {
        assert(k * c <= (q - 1) * c) by (nonlinear_arith)
            requires k <= q - 1, c > 0;
        assert((q - 1) * c == q * c - c) by (nonlinear_arith);
        assert(c * q == q * c) by (nonlinear_arith);
    }
    if k * c < l {
        assert((k + 1) * c == k * c + c) by (nonlinear_arith);
        assert(c * q == q * c) by (nonlinear_arith);
        assert((k + 1) * c <= q * c + r);
        assert((q + 1) * c == q * c + c) by (nonlinear_arith);
        assert((k + 1) * c < (q + 1) * c) by (nonlinear_arith)
            requires (k + 1) * c <= q * c + r, r < c, (q + 1) * c == q * c + c;
        assert(k + 1 < q + 1) by (nonlinear_arith)
            requires (k + 1) * c < (q + 1) * c, c > 0;
    }
}

impl Lengths {
    pub open spec fn wf(&self) -> bool {
        &&& self.piece_length > 0
        &&& self.chunk_length > 0
        &&& self.chunk_length <= self.piece_length
        &&& self.total_pieces > 0
        &&& 0 < self.last_piece_length <= self.piece_length
        &&& self.total_length == (self.total_pieces - 1) * self.piece_length
            + self.last_piece_length
    }

    /// Length in bytes of piece `p`.
    pub open spec fn piece_len(&self, p: int) -> int {
        if p == self.total_pieces - 1 {
            self.last_piece_length as int
        } else {
            self.piece_length as int
        }
    }

    /// Number of chunks of piece `p`.
    pub open spec fn num_chunks(&self, p: int) -> int {
        ceil_div(self.piece_len(p), self.chunk_length as int)
    }

    /// Size of the chunk of piece `p` that starts at byte `begin`.
    pub open spec fn chunk_size(&self, p: int, begin: int) -> int {
        if begin + self.chunk_length <= self.piece_len(p) {
            self.chunk_length as int
        } else {
            self.piece_len(p) - begin
        }
    }

    /// Whether (`p`, `begin`, `length`) names exactly one chunk of the torrent.
    pub open spec fn is_valid_chunk(&self, p: int, begin: int, length: int) -> bool {
        &&& 0 <= p < self.total_pieces
        &&& 0 <= begin < self.piece_len(p)
        &&& begin % (self.chunk_length as int) == 0
        &&& length == self.chunk_size(p, begin)
    }

    /// The chunk of piece `p` at byte `begin`, as returned for a valid chunk.
    pub open spec fn chunk_of(&self, p: int, begin: int) -> ChunkInfo {
        ChunkInfo {
            piece_index: p as u32,
            chunk_index: (begin / (self.chunk_length as int)) as u32,
            offset: begin as u32,
            size: self.chunk_size(p, begin) as u32,
        }
    }

    /// Number of bytes of a bitfield with one bit per piece.
    pub open spec fn bitfield_bytes(&self) -> int {
        ceil_div(self.total_pieces as int, 8)
    }

    /// Splits `total_length` bytes into pieces of `piece_length` bytes and
    /// chunks of `chunk_length` bytes. Fails on zero sizes, on a chunk longer
    /// than a piece, and when the piece count does not fit in `u32`.
    pub fn new(total_length: u64, piece_length: u32, chunk_length: u32) -> (r: Option<Lengths>)
        ensures
            r is Some <==> (total_length > 0 && piece_length > 0 && chunk_length > 0
                && chunk_length <= piece_length && ceil_div(
                total_length as int,
                piece_length as int,
            ) <= u32::MAX),
            r matches Some(l) ==> l.wf() && l.total_length == total_length && l.piece_length
                == piece_length && l.chunk_length == chunk_length && l.total_pieces == ceil_div(
                total_length as int,
                piece_length as int,
            ),
    {
        if total_length == 0 || piece_length == 0 || chunk_length == 0 || chunk_length
            > piece_length {
            return None;
        }
        let q: u64 = total_length / (piece_length as u64);
        let rem: u64 = total_length % (piece_length as u64);
        let ghost t = total_length as int;
        let ghost p = piece_length as int;
        proof {
            vstd::arithmetic::div_mod::lemma_fundamental_div_mod(t, p);
            assert(q as int == t / p);
            assert(rem as int == t % p);
            assert(t == p * q + rem);
            if rem > 0 {
                assert(q < u64::MAX) by (nonlinear_arith)
                    requires t == p * q + rem, rem > 0, p >= 1, t <= u64::MAX, q >= 0;
            }
        }
        let pieces: u64 = if rem == 0 { q } else { q + 1 };
        assert(pieces == ceil_div(t, p)) by {
            assert(t == p * q + rem);
            if rem == 0 {
                assert((t + p - 1) == p * q + (p - 1));
                vstd::arithmetic::div_mod::lemma_div_multiples_vanish_fancy(q as int, p - 1, p);
            } else {
                assert(p * (q + 1) == p * q + p) by (nonlinear_arith);
                assert((t + p - 1) == p * (q + 1) + (rem - 1));
                vstd::arithmetic::div_mod::lemma_div_multiples_vanish_fancy(
                    (q + 1) as int,
                    rem - 1,
                    p,
                );
            }
        }
        if pieces > u32::MAX as u64 {
            return None;
        }
        let last: u32 = if rem == 0 { piece_length } else { rem as u32 };
        proof {
            assert(t == p * q + rem);
            if rem == 0 {
                assert(q >= 1) by (nonlinear_arith)
                    requires t == p * q, t > 0, p > 0, q >= 0;
                assert(p * q == (q - 1) * p + p) by (nonlinear_arith);
            } else {
                assert(p * q == q * p) by (nonlinear_arith);
            }
        }
        Some(
            Lengths {
                total_length,
                piece_length,
                last_piece_length: last,
                chunk_length,
                total_pieces: pieces as u32,
            },
        )
    }

    /// Whether the fields describe a consistent split.
    pub fn is_valid(&self) -> (r: bool)
        ensures
            r == self.wf(),
    {
        if self.piece_length == 0 || self.chunk_length == 0 || self.chunk_length > self.piece_length
            || self.total_pieces == 0 || self.last_piece_length == 0 || self.last_piece_length
            > self.piece_length {
            return false;
        }
        let n = (self.total_pieces - 1) as u128;
        proof {
            assert(n * (self.piece_length as u128) <= u64::MAX as u128 * u32::MAX as u128) by (nonlinear_arith)
                requires n <= u32::MAX, self.piece_length <= u32::MAX;
        }
        let span = n * (self.piece_length as u128) + self.last_piece_length as u128;
        span == self.total_length as u128
    }

    /// The index itself when it names a piece of the torrent.
    pub fn validate_piece_index(&self, index: u32) -> (r: Option<u32>)
        ensures
            r is Some <==> index < self.total_pieces,
            r matches Some(p) ==> p == index,
    {
        if index < self.total_pieces {
            Some(index)
        } else {
            None
        }
    }

    pub fn piece_length(&self, index: u32) -> (r: u32)
        requires
            self.wf(),
            index < self.total_pieces,
        ensures
            r == self.piece_len(index as int),
            r > 0,
    {
        if index == self.total_pieces - 1 {
            self.last_piece_length
        } else {
            self.piece_length
        }
    }

    /// Number of chunks of piece `index`.
    pub fn chunk_count(&self, index: u32) -> (r: u32)
        requires
            self.wf(),
            index < self.total_pieces,
        ensures
            r == self.num_chunks(index as int),
            r > 0,
    {
        let l = self.piece_length(index) as u64;
        let c = self.chunk_length as u64;
        let r = (l + c - 1) / c;
        proof {
            lemma_chunk_index_bound(l as int, c as int, 0);
            let (li, ci, ri) = (l as int, c as int, r as int);
            assert(ri <= li) by (nonlinear_arith)
                requires ri == (li + ci - 1) / ci, ci >= 1, li >= 1;
        }
        r as u32
    }

    /// Number of bytes of a bitfield with one bit per piece.
    pub fn piece_bitfield_bytes(&self) -> (r: usize)
        ensures
            r == self.bitfield_bytes(),
    {
        let n = self.total_pieces as u64;
        ((n + 7) / 8) as usize
    }

    /// The chunk named by a request or a piece message, if it names one.
    pub fn chunk_info_from_received_data(&self, index: u32, begin: u32, length: u32) -> (r:
        Option<ChunkInfo>)
        requires
            self.wf(),
        ensures
            r is Some <==> self.is_valid_chunk(index as int, begin as int, length as int),
            r matches Some(ci) ==> ci == self.chunk_of(index as int, begin as int)
                && ci.chunk_index < self.num_chunks(index as int),
    {
        if index >= self.total_pieces {
            return None;
        }
        let pl = self.piece_length(index);
        if begin >= pl || begin % self.chunk_length != 0 {
            return None;
        }
        let size: u32 = if (begin as u64) + (self.chunk_length as u64) <= pl as u64 {
            self.chunk_length
        } else {
            pl - begin
        };
        if length != size {
            return None;
        }
        let ci: u32 = begin / self.chunk_length;
        proof {
            let c = self.chunk_length as int;
            vstd::arithmetic::div_mod::lemma_fundamental_div_mod(begin as int, c);
            let (b, k) = (begin as int, ci as int);
            assert(k * c == b) by (nonlinear_arith)
                requires b == c * k + b % c, b % c == 0;
            lemma_chunk_index_bound(pl as int, c, ci as int);
        }
        Some(ChunkInfo { piece_index: index, chunk_index: ci, offset: begin, size })
    }

    /// The chunks of piece `index`, in offset order.
    pub fn iter_chunk_infos(&self, index: u32) -> (r: Vec<ChunkInfo>)
        requires
            self.wf(),
            index < self.total_pieces,
        ensures
            r@.len() == self.num_chunks(index as int),
            forall|k: int|
                0 <= k < r@.len() ==> self.is_valid_chunk(
                    index as int,
                    #[trigger] r@[k].offset as int,
                    r@[k].size as int,
                ) && r@[k] == self.chunk_of(index as int, r@[k].offset as int) && r@[k].chunk_index
                    == k && r@[k].offset == k * self.chunk_length,
    {
        let pl = self.piece_length(index);
        let c = self.chunk_length;
        let count = self.chunk_count(index);
        let mut out: Vec<ChunkInfo> = Vec::new();
        let mut k: u32 = 0;
        while k < count
            invariant
                self.wf(),
                index < self.total_pieces,
                pl == self.piece_len(index as int),
                c == self.chunk_length,
                count == self.num_chunks(index as int),
                k <= count,
                out@.len() == k,
                forall|j: int|
                    0 <= j < out@.len() ==> self.is_valid_chunk(
                        index as int,
                        #[trigger] out@[j].offset as int,
                        out@[j].size as int,
                    ) && out@[j] == self.chunk_of(index as int, out@[j].offset as int)
                        && out@[j].chunk_index == j && out@[j].offset == j * c,
            decreases count - k,
        {
            proof {
                lemma_chunk_index_bound(pl as int, c as int, k as int);
                vstd::arithmetic::div_mod::lemma_mod_multiples_basic(k as int, c as int);
                vstd::arithmetic::div_mod::lemma_div_multiples_vanish(k as int, c as int);
                assert(k * c == c * k) by (nonlinear_arith);
            }
            let begin: u32 = k * c;
            let size: u32 = if (begin as u64) + (c as u64) <= pl as u64 {
                c
            } else {
                pl - begin
            };
            out.push(ChunkInfo { piece_index: index, chunk_index: k, offset: begin, size });
            k = k + 1;
        }
        out
    }
}

} // verus!
