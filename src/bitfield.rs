use vstd::prelude::*;

verus! {

/// Bit `j` (0 = most significant) of byte `b`, the order of the wire bitfield.
pub open spec fn msb_bit(b: u8, j: int) -> bool {
    (b >> ((7 - j) as u8)) & 1u8 == 1u8
}

/// Bit `i` of a byte string read most-significant-bit first.
pub open spec fn bit_at(bytes: Seq<u8>, i: int) -> bool {
    msb_bit(bytes[i / 8], i % 8)
}

/// Whether bit `i` of a bitfield is set; bits past its end are clear.
pub open spec fn has_bit(bits: Seq<bool>, i: int) -> bool {
    0 <= i < bits.len() && bits[i]
}

/// The first `n` bits of `bytes`, most significant bit of each byte first.
pub fn bits_from_bytes(bytes: &Vec<u8>, n: u32) -> (r: Vec<bool>)
    requires
        n <= bytes@.len() * 8,
    ensures
        r@.len() == n,
        forall|i: int| 0 <= i < n ==> #[trigger] r@[i] == bit_at(bytes@, i),
{
    let mut out: Vec<bool> = Vec::new();
    let mut i: u32 = 0;
    while i < n
        invariant
            n <= bytes@.len() * 8,
            i <= n,
            out@.len() == i,
            forall|k: int| 0 <= k < i ==> #[trigger] out@[k] == bit_at(bytes@, k),
        decreases n - i,
    {
        let byte = bytes[(i / 8) as usize];
        let shift: u8 = (7 - i % 8) as u8;
        out.push((byte >> shift) & 1u8 == 1u8);
        i = i + 1;
    }
    out
}


proof fn lemma_set_msb(b: u8, j: u8, k: u8)
    requires
        j < 8,
        k < 8,
    ensures
        ((b | (128u8 >> j)) >> ((7 - k) as u8)) & 1u8 == if k == j {
            1u8
        } else {
            (b >> ((7 - k) as u8)) & 1u8
        },
{
    assert(((b | (128u8 >> j)) >> ((7 - k) as u8)) & 1u8 == if k == j {
        1u8
    } else {
        (b >> ((7 - k) as u8)) & 1u8
    }) by (bit_vector)
        requires
            j < 8,
            k < 8,
    ;
}

proof fn lemma_zero_msb(k: u8)
    requires
        k < 8,
    ensures
        (0u8 >> ((7 - k) as u8)) & 1u8 == 0u8,
{
    assert((0u8 >> ((7 - k) as u8)) & 1u8 == 0u8) by (bit_vector)
        requires
            k < 8,
    ;
}

/// Packs `bits` into `nbytes` bytes, most significant bit first; bits past
/// the end of `bits` are clear.
pub fn bits_to_bytes(bits: &Vec<bool>, nbytes: usize) -> (r: Vec<u8>)
    requires
        nbytes <= u32::MAX,
    ensures
        r@.len() == nbytes,
        forall|i: int| 0 <= i < nbytes * 8 ==> #[trigger] bit_at(r@, i) == has_bit(bits@, i),
{
    let mut out: Vec<u8> = Vec::new();
    let mut k: usize = 0;
    while k < nbytes
        invariant
            nbytes <= u32::MAX,
            k <= nbytes,
            out@.len() == k,
            forall|i: int| 0 <= i < k * 8 ==> #[trigger] bit_at(out@, i) == has_bit(bits@, i),
        decreases nbytes - k,
    {
        let mut b: u8 = 0;
        let mut j: u8 = 0;
        let base: u64 = (k as u64) * 8;
        proof {
            assert forall|jj: int| 0 <= jj < 8 implies !msb_bit(0u8, jj) by {
                lemma_zero_msb(jj as u8);
            }
        }
        while j < 8
            invariant
                j <= 8,
                base == k * 8,
                forall|jj: int| 0 <= jj < j ==> #[trigger] msb_bit(b, jj) == has_bit(bits@, base + jj),
                forall|jj: int| j <= jj < 8 ==> !#[trigger] msb_bit(b, jj),
            decreases 8 - j,
        {
            let idx: u64 = base + j as u64;
            if idx < bits.len() as u64 && bits[idx as usize] {
                let ghost b0 = b;
                b = b | (128u8 >> j);
                proof {
                    assert forall|jj: int| 0 <= jj < 8 implies #[trigger] msb_bit(b, jj) == if jj == j {
                        true
                    } else {
                        msb_bit(b0, jj)
                    } by {
                        lemma_set_msb(b0, j, jj as u8);
                    }
                }
            }
            j = j + 1;
        }
        let ghost prev = out@;
        out.push(b);
        proof {
            assert forall|i: int| 0 <= i < (k + 1) * 8 implies #[trigger] bit_at(out@, i) == has_bit(bits@, i) by {
                let q = i / 8;
                let r = i % 8;
                vstd::arithmetic::div_mod::lemma_fundamental_div_mod(i, 8);
                if i < k * 8 {
                    assert(q < k);
                    assert(out@[q] == prev[q]);
                    assert(bit_at(prev, i) == has_bit(bits@, i));
                } else {
                    assert(q == k);
                    assert(out@[q] == b);
                    assert(i == base + r);
                }
            }
        }
        k = k + 1;
    }
    out
}

/// Whether every one of the first `n` bits is set.
pub fn has_all(bits: &Vec<bool>, n: usize) -> (r: bool)
    ensures
        r == (forall|i: int| 0 <= i < n ==> has_bit(bits@, i)),
{
    if bits.len() < n {
        assert(!has_bit(bits@, bits@.len() as int));
        return false;
    }
    let mut i: usize = 0;
    while i < n
        invariant
            n <= bits@.len(),
            i <= n,
            forall|k: int| 0 <= k < i ==> has_bit(bits@, k),
        decreases n - i,
    {
        if !bits[i] {
            assert(!has_bit(bits@, i as int));
            return false;
        }
        i = i + 1;
    }
    true
}

} // verus!
