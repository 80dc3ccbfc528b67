use vstd::prelude::*;

verus! {

/// Whether bit `k` (counted from the least significant end) of `b` is set.
pub open spec fn byte_bit(b: u8, k: int) -> bool {
    (b >> (k as u8)) & 1u8 == 1u8
}

/// Bit `i` of a little-endian bit packing: bit `i % 8` of byte `i / 8`.
pub open spec fn packed_bit(bytes: Seq<u8>, i: int) -> bool {
    byte_bit(bytes[i / 8], i % 8)
}

/// `bytes` holds `bits`, eight to a byte, with the last byte padded by zeros.
pub open spec fn packs(bytes: Seq<u8>, bits: Seq<bool>) -> bool {
    &&& bytes.len() == (bits.len() + 7) / 8
    &&& forall|i: int|
        0 <= i < 8 * bytes.len() ==> #[trigger] packed_bit(bytes, i) == (i < bits.len() && bits[i])
}

/// The first `n` bits read back from `bytes`; bits past the end read as zero.
pub open spec fn unpacked(bytes: Seq<u8>, n: nat) -> Seq<bool> {
    Seq::new(n, |i: int| i / 8 < bytes.len() && packed_bit(bytes, i))
}

proof fn lemma_set_bit(b: u8, k: u8, t: u8)
    requires
        k < 8,
        t < 8,
    ensures
        ((b | (1u8 << k)) >> t) & 1u8 == (if t == k { 1u8 } else { (b >> t) & 1u8 }),
{
    assert(((b | (1u8 << k)) >> t) & 1u8 == (if t == k { 1u8 } else { (b >> t) & 1u8 }))
        by (bit_vector)
        requires
            k < 8,
            t < 8,
    ;
}

proof fn lemma_zero_bits(t: u8)
    requires
        t < 8,
    ensures
        (0u8 >> t) & 1u8 == 0u8,
{
    assert((0u8 >> t) & 1u8 == 0u8) by (bit_vector);
}

/// Packs `bits` eight to a byte, least significant bit first.
pub fn pack_bits(bits: &Vec<bool>) -> (r: Vec<u8>)
    ensures
        packs(r@, bits@),
{
    let n = bits.len();
    let mut out: Vec<u8> = Vec::new();
    let mut byte: u8 = 0;
    let mut idx: usize = 0;
    proof {
        assert forall|t: int| 0 <= t < 8 implies !byte_bit(byte, t) by {
            lemma_zero_bits(t as u8);
        }
    }
    while idx < n
        invariant
            n == bits.len(),
            idx <= n,
            out.len() == idx / 8,
            forall|j: int, t: int|
                0 <= j < out.len() && 0 <= t < 8 ==> (#[trigger] byte_bit(out@[j], t) == (8 * j
                    + t < n && bits@[8 * j + t])),
            forall|t: int|
                0 <= t < 8 ==> (byte_bit(byte, t) == (t < idx % 8 && bits@[8 * (idx / 8) + t])),
        decreases n - idx,
    {
        let k: u8 = (idx % 8) as u8;
        let old_byte = byte;
        if bits[idx] {
            byte = byte | (1u8 << k);
        }
        proof {
            assert forall|t: int| 0 <= t < 8 implies (byte_bit(byte, t) == (t < k + 1 && bits@[8
                * (idx / 8) + t])) by {
                assert(8 * (idx as int / 8) + k == idx);
                assert(k == idx % 8);
                assert(byte_bit(old_byte, t) == (t < k && bits@[8 * (idx / 8) + t]));
                if bits@[idx as int] {
                    lemma_set_bit(old_byte, k, t as u8);
                    assert(byte == old_byte | (1u8 << k));
                    if t == k {
                        assert(byte_bit(byte, t));
                    } else {
                        assert(byte_bit(byte, t) == byte_bit(old_byte, t));
                    }
                } else {
                    assert(byte == old_byte);
                }
            }
        }
        if k == 7 {
            out.push(byte);
            byte = 0;
            proof {
                assert forall|t: int| 0 <= t < 8 implies !byte_bit(byte, t) by {
                    lemma_zero_bits(t as u8);
                }
            }
        }
        idx = idx + 1;
    }
    if n % 8 != 0 {
        out.push(byte);
    }
    proof {
        assert forall|i: int| 0 <= i < 8 * out.len() implies #[trigger] packed_bit(out@, i) == (i
            < n && bits@[i]) by {
            let j = i / 8;
            let t = i % 8;
            assert(8 * j + t == i);
            assert(0 <= j < out.len());
        }
    }
    out
}

/// Reads `len` bits back from a packing made by `pack_bits`.
pub fn unpack_bits(bytes: &Vec<u8>, len: usize) -> (r: Vec<bool>)
    ensures
        r@ == unpacked(bytes@, len as nat),
{
    let mut out: Vec<bool> = Vec::new();
    let mut idx: usize = 0;
    while idx < len
        invariant
            idx <= len,
            out@ == unpacked(bytes@, idx as nat),
        decreases len - idx,
    {
        let byte: u8 = if idx / 8 < bytes.len() {
            bytes[idx / 8]
        } else {
            0
        };
        let k: u8 = (idx % 8) as u8;
        let bit = (byte >> k) & 1u8 == 1u8;
        proof {
            if idx / 8 >= bytes.len() {
                lemma_zero_bits(k);
            }
        }
        out.push(bit);
        assert(out@ =~= unpacked(bytes@, (idx + 1) as nat));
        idx = idx + 1;
    }
    out
}

/// Reading back a packing yields exactly the bits that were packed.
pub proof fn lemma_pack_round_trip(bytes: Seq<u8>, bits: Seq<bool>)
    requires
        packs(bytes, bits),
    ensures
        unpacked(bytes, bits.len()) == bits,
{
    assert forall|i: int| 0 <= i < bits.len() implies #[trigger] unpacked(bytes, bits.len())[i]
        == bits[i] by {
        assert(i / 8 < bytes.len());
        assert(packed_bit(bytes, i) == (i < bits.len() && bits[i]));
    }
    assert(unpacked(bytes, bits.len()) =~= bits);
}

} // verus!
