//! Bit helpers shared by the modulators: bytes unpacked MSB first into
//! one-bit values, and the inverse packing.
use vstd::prelude::*;

verus! {

/// Bit `k` (0 = most significant) of `b`, as 0 or 1.
pub open spec fn bit_of(b: u8, k: int) -> u8 {
    ((b >> ((7 - k) as u8)) & 1u8) as u8
}

/// The MSB-first bit expansion of `data`: eight entries per byte.
pub open spec fn bits_of(data: Seq<u8>) -> Seq<u8> {
    Seq::new((8 * data.len()) as nat, |i: int| bit_of(data[i / 8], i % 8))
}

/// The entry of `bits` at `i`, or 0 past its end.
pub open spec fn bit_or_zero(bits: Seq<u8>, i: int) -> u8 {
    if 0 <= i < bits.len() {
        bits[i]
    } else {
        0
    }
}

/// `acc` shifted left by one bit with `bit` OR-ed into the low end.
pub open spec fn shift_in(acc: u8, bit: u8) -> u8 {
    (((acc << 1u8) as u8) | bit) as u8
}

/// The byte obtained by shifting in the `k` entries of `bits` that start at
/// `start` (entries past the end count as 0).
pub open spec fn pack_prefix(bits: Seq<u8>, start: int, k: nat) -> u8
    decreases k,
{
    if k == 0 {
        0
    } else {
        shift_in(pack_prefix(bits, start, (k - 1) as nat), bit_or_zero(bits, start + k - 1))
    }
}

/// Packing of `bits` into bytes, eight entries per byte, the last byte padded
/// with zero entries.
pub open spec fn pack_bits(bits: Seq<u8>) -> Seq<u8> {
    Seq::new(((bits.len() + 7) / 8) as nat, |j: int| pack_prefix(bits, 8 * j, 8))
}

proof fn lemma_pack_byte(b: u8, a1: u8, a2: u8, a3: u8, a4: u8, a5: u8, a6: u8, a7: u8, a8: u8)
    requires
        a1 == shift_in(0, bit_of(b, 0)),
        a2 == shift_in(a1, bit_of(b, 1)),
        a3 == shift_in(a2, bit_of(b, 2)),
        a4 == shift_in(a3, bit_of(b, 3)),
        a5 == shift_in(a4, bit_of(b, 4)),
        a6 == shift_in(a5, bit_of(b, 5)),
        a7 == shift_in(a6, bit_of(b, 6)),
        a8 == shift_in(a7, bit_of(b, 7)),
    ensures
        a8 == b,
{
    assert(a8 == b) by (bit_vector)
        requires
            a1 == (((0u8 << 1u8) as u8) | ((b >> 7u8) & 1u8)) as u8,
            a2 == (((a1 << 1u8) as u8) | ((b >> 6u8) & 1u8)) as u8,
            a3 == (((a2 << 1u8) as u8) | ((b >> 5u8) & 1u8)) as u8,
            a4 == (((a3 << 1u8) as u8) | ((b >> 4u8) & 1u8)) as u8,
            a5 == (((a4 << 1u8) as u8) | ((b >> 3u8) & 1u8)) as u8,
            a6 == (((a5 << 1u8) as u8) | ((b >> 2u8) & 1u8)) as u8,
            a7 == (((a6 << 1u8) as u8) | ((b >> 1u8) & 1u8)) as u8,
            a8 == (((a7 << 1u8) as u8) | ((b >> 0u8) & 1u8)) as u8,
    ;
}

/// Packing the bit expansion of some bytes gives the bytes back.
pub proof fn lemma_pack_bits_of(data: Seq<u8>)
    ensures
        pack_bits(bits_of(data)) == data,
{
    let bits = bits_of(data);
    assert forall|j: int| 0 <= j < data.len() implies #[trigger] pack_prefix(bits, 8 * j, 8)
        == data[j] by {
        assert forall|k: int| 0 <= k < 8 implies #[trigger] bit_or_zero(bits, 8 * j + k) == bit_of(
            data[j],
            k,
        ) by {
            assert((8 * j + k) / 8 == j);
            assert((8 * j + k) % 8 == k);
        }
        let b = data[j];
        let s = 8 * j;
        assert(bit_or_zero(bits, s + 0) == bit_of(b, 0));
        assert(bit_or_zero(bits, s + 1) == bit_of(b, 1));
        assert(bit_or_zero(bits, s + 2) == bit_of(b, 2));
        assert(bit_or_zero(bits, s + 3) == bit_of(b, 3));
        assert(bit_or_zero(bits, s + 4) == bit_of(b, 4));
        assert(bit_or_zero(bits, s + 5) == bit_of(b, 5));
        assert(bit_or_zero(bits, s + 6) == bit_of(b, 6));
        assert(bit_or_zero(bits, s + 7) == bit_of(b, 7));
        assert(pack_prefix(bits, s, 0) == 0);
        assert(pack_prefix(bits, s, 1) == shift_in(0, bit_of(b, 0)));
        assert(pack_prefix(bits, s, 2) == shift_in(pack_prefix(bits, s, 1), bit_of(b, 1)));
        assert(pack_prefix(bits, s, 3) == shift_in(pack_prefix(bits, s, 2), bit_of(b, 2)));
        assert(pack_prefix(bits, s, 4) == shift_in(pack_prefix(bits, s, 3), bit_of(b, 3)));
        assert(pack_prefix(bits, s, 5) == shift_in(pack_prefix(bits, s, 4), bit_of(b, 4)));
        assert(pack_prefix(bits, s, 6) == shift_in(pack_prefix(bits, s, 5), bit_of(b, 5)));
        assert(pack_prefix(bits, s, 7) == shift_in(pack_prefix(bits, s, 6), bit_of(b, 6)));
        assert(pack_prefix(bits, s, 8) == shift_in(pack_prefix(bits, s, 7), bit_of(b, 7)));
        lemma_pack_byte(
            b,
            pack_prefix(bits, s, 1),
            pack_prefix(bits, s, 2),
            pack_prefix(bits, s, 3),
            pack_prefix(bits, s, 4),
            pack_prefix(bits, s, 5),
            pack_prefix(bits, s, 6),
            pack_prefix(bits, s, 7),
            pack_prefix(bits, s, 8),
        );
    }
    assert((bits.len() + 7) / 8 == data.len());
    assert(pack_bits(bits) =~= data);
}

proof fn lemma_unpack_byte(
    c0: u8,
    c1: u8,
    c2: u8,
    c3: u8,
    c4: u8,
    c5: u8,
    c6: u8,
    c7: u8,
    a1: u8,
    a2: u8,
    a3: u8,
    a4: u8,
    a5: u8,
    a6: u8,
    a7: u8,
    a8: u8,
)
    requires
        c0 <= 1 && c1 <= 1 && c2 <= 1 && c3 <= 1 && c4 <= 1 && c5 <= 1 && c6 <= 1 && c7 <= 1,
        a1 == shift_in(0, c0),
        a2 == shift_in(a1, c1),
        a3 == shift_in(a2, c2),
        a4 == shift_in(a3, c3),
        a5 == shift_in(a4, c4),
        a6 == shift_in(a5, c5),
        a7 == shift_in(a6, c6),
        a8 == shift_in(a7, c7),
    ensures
        bit_of(a8, 0) == c0 && bit_of(a8, 1) == c1 && bit_of(a8, 2) == c2 && bit_of(a8, 3) == c3,
        bit_of(a8, 4) == c4 && bit_of(a8, 5) == c5 && bit_of(a8, 6) == c6 && bit_of(a8, 7) == c7,
{
    assert(((a8 >> 7u8) & 1u8) == c0 && ((a8 >> 6u8) & 1u8) == c1 && ((a8 >> 5u8) & 1u8) == c2
        && ((a8 >> 4u8) & 1u8) == c3 && ((a8 >> 3u8) & 1u8) == c4 && ((a8 >> 2u8) & 1u8) == c5
        && ((a8 >> 1u8) & 1u8) == c6 && ((a8 >> 0u8) & 1u8) == c7) by (bit_vector)
        requires
            c0 <= 1 && c1 <= 1 && c2 <= 1 && c3 <= 1 && c4 <= 1 && c5 <= 1 && c6 <= 1 && c7 <= 1,
            a1 == (((0u8 << 1u8) as u8) | c0) as u8,
            a2 == (((a1 << 1u8) as u8) | c1) as u8,
            a3 == (((a2 << 1u8) as u8) | c2) as u8,
            a4 == (((a3 << 1u8) as u8) | c3) as u8,
            a5 == (((a4 << 1u8) as u8) | c4) as u8,
            a6 == (((a5 << 1u8) as u8) | c5) as u8,
            a7 == (((a6 << 1u8) as u8) | c6) as u8,
            a8 == (((a7 << 1u8) as u8) | c7) as u8,
    ;
}

/// Packing bits (each 0 or 1) and expanding the bytes again gives the bits
/// back, followed by zero bits up to a whole byte: `ceil(len / 8)` bytes.
pub proof fn lemma_bits_of_pack(bits: Seq<u8>)
    requires
        forall|i: int| 0 <= i < bits.len() ==> #[trigger] bits[i] <= 1,
    ensures
        pack_bits(bits).len() == (bits.len() + 7) / 8,
        bits_of(pack_bits(bits)).len() == 8 * ((bits.len() + 7) / 8),
        bits_of(pack_bits(bits)).take(bits.len() as int) == bits,
        forall|i: int|
            bits.len() <= i < bits_of(pack_bits(bits)).len() ==> #[trigger] bits_of(
                pack_bits(bits),
            )[i] == 0,
{
    let p = pack_bits(bits);
    let e = bits_of(p);
    assert forall|i: int| 0 <= i < e.len() implies #[trigger] e[i] == bit_or_zero(bits, i) by {
        let j = i / 8;
        let k = i % 8;
        let s = 8 * j;
        assert(i == s + k);
        assert forall|m: int| 0 <= m < 8 implies #[trigger] bit_or_zero(bits, s + m) <= 1 by {
            if 0 <= s + m < bits.len() {
                assert(bits[s + m] <= 1);
            }
        }
        assert(bit_or_zero(bits, s + 0) <= 1);
        assert(bit_or_zero(bits, s + 1) <= 1);
        assert(bit_or_zero(bits, s + 2) <= 1);
        assert(bit_or_zero(bits, s + 3) <= 1);
        assert(bit_or_zero(bits, s + 4) <= 1);
        assert(bit_or_zero(bits, s + 5) <= 1);
        assert(bit_or_zero(bits, s + 6) <= 1);
        assert(bit_or_zero(bits, s + 7) <= 1);
        assert(pack_prefix(bits, s, 0) == 0);
        lemma_unpack_byte(
            bit_or_zero(bits, s + 0),
            bit_or_zero(bits, s + 1),
            bit_or_zero(bits, s + 2),
            bit_or_zero(bits, s + 3),
            bit_or_zero(bits, s + 4),
            bit_or_zero(bits, s + 5),
            bit_or_zero(bits, s + 6),
            bit_or_zero(bits, s + 7),
            pack_prefix(bits, s, 1),
            pack_prefix(bits, s, 2),
            pack_prefix(bits, s, 3),
            pack_prefix(bits, s, 4),
            pack_prefix(bits, s, 5),
            pack_prefix(bits, s, 6),
            pack_prefix(bits, s, 7),
            pack_prefix(bits, s, 8),
        );
        assert(p[j] == pack_prefix(bits, s, 8));
        assert(e[i] == bit_of(p[j], k));
    }
    assert(e.take(bits.len() as int) =~= bits) by {
        assert forall|i: int| 0 <= i < bits.len() implies e.take(bits.len() as int)[i] == bits[i] by {
            assert(e[i] == bit_or_zero(bits, i));
        }
    }
}

/// Unpack bytes into bits, most significant bit first.
pub fn bytes_to_bits(data: &[u8]) -> (bits: Vec<u8>)
    requires
        8 * data@.len() <= usize::MAX,
    ensures
        bits@ == bits_of(data@),
{
    let mut bits: Vec<u8> = Vec::with_capacity(data.len() * 8);
    let mut i: usize = 0;
    while i < data.len()
        invariant
            i <= data@.len(),
            8 * data@.len() <= usize::MAX,
            bits@.len() == 8 * i,
            forall|j: int| 0 <= j < 8 * i ==> bits@[j] == bit_of(data@[j / 8], j % 8),
        decreases data@.len() - i,
    {
        let byte = data[i];
        let mut b: u8 = 8;
        while b > 0
            invariant
                b <= 8,
                i < data@.len(),
                byte == data@[i as int],
                bits@.len() == 8 * i + (8 - b),
                forall|j: int| 0 <= j < 8 * i + (8 - b) ==> bits@[j] == bit_of(data@[j / 8], j % 8),
            decreases b,
        {
            b = b - 1;
            let bit = (byte >> b) & 1;
            proof {
                let j = 8 * i + (7 - b);
                assert(j / 8 == i as int);
                assert(j % 8 == 7 - b);
                assert(bit == bit_of(byte, 7 - b));
            }
            bits.push(bit);
        }
        i = i + 1;
    }
    assert(bits@ =~= bits_of(data@));
    bits
}

/// Pack bits into bytes, eight per byte, most significant first; a short last
/// group is padded with zero bits.
pub fn bits_to_bytes(bits: &[u8]) -> (bytes: Vec<u8>)
    ensures
        bytes@ == pack_bits(bits@),
{
    let n_bytes = bits.len() / 8 + if bits.len() % 8 == 0 { 0 } else { 1 };
    assert(n_bytes == (bits@.len() + 7) / 8);
    let mut bytes: Vec<u8> = Vec::with_capacity(n_bytes);
    let mut byte_idx: usize = 0;
    while byte_idx < n_bytes
        invariant
            n_bytes == (bits@.len() + 7) / 8,
            byte_idx <= n_bytes,
            bytes@.len() == byte_idx,
            forall|j: int| 0 <= j < byte_idx ==> bytes@[j] == pack_prefix(bits@, 8 * j, 8),
        decreases n_bytes - byte_idx,
    {
        let mut byte: u8 = 0;
        let mut bit_idx: usize = 0;
        assert(8 * byte_idx <= bits@.len() + 7 - 8) by (nonlinear_arith)
            requires
                byte_idx < n_bytes,
                n_bytes == (bits@.len() + 7) / 8,
        ;
        assert(bits@.len() == bits.len());
        assert(byte_idx * 8 < bits@.len());
        let base = byte_idx * 8;
        while bit_idx < 8
            invariant
                bit_idx <= 8,
                byte_idx < n_bytes,
                n_bytes == (bits@.len() + 7) / 8,
                base == 8 * byte_idx,
                base < bits@.len(),
                byte == pack_prefix(bits@, 8 * byte_idx, bit_idx as nat),
            decreases 8 - bit_idx,
        {
            let bit = if bit_idx < bits.len() - base { bits[base + bit_idx] } else { 0 };
            byte = (byte << 1) | bit;
            bit_idx = bit_idx + 1;
        }
        bytes.push(byte);
        byte_idx = byte_idx + 1;
    }
    assert(bytes@ =~= pack_bits(bits@));
    bytes
}

} // verus!
