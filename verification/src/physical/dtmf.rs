//! Nibble packing for the DTMF control channel: each DTMF symbol carries
//! four bits, so bytes travel as two symbols, high nibble first.
use vstd::prelude::*;

verus! {

/// The byte made of two nibbles (each masked to four bits), `hi` on top.
pub open spec fn nibble_pair(hi: u8, lo: u8) -> u8 {
    (((hi & 0x0Fu8) << 4u8) | (lo & 0x0Fu8)) as u8
}

/// Nibbles packed two per byte; an odd last nibble is paired with zero.
pub open spec fn packed_nibbles(nibbles: Seq<u8>) -> Seq<u8> {
    Seq::new(
        ((nibbles.len() + 1) / 2) as nat,
        |j: int|
            nibble_pair(
                nibbles[2 * j],
                if 2 * j + 1 < nibbles.len() {
                    nibbles[2 * j + 1]
                } else {
                    0
                },
            ),
    )
}

/// Bytes split into nibbles, high nibble first.
pub open spec fn split_nibbles(bytes: Seq<u8>) -> Seq<u8> {
    Seq::new(
        2 * bytes.len(),
        |i: int|
            if i % 2 == 0 {
                ((bytes[i / 2] >> 4u8) & 0x0Fu8) as u8
            } else {
                (bytes[i / 2] & 0x0Fu8) as u8
            },
    )
}

/// Pack nibbles (each taken modulo 16) into bytes, two per byte, high nibble
/// first.
pub fn nibbles_to_bytes(nibbles: &[u8]) -> (out: Vec<u8>)
    ensures
        out@ == packed_nibbles(nibbles@),
{
    let n = nibbles.len();
    let mut out: Vec<u8> = Vec::new();
    let mut j: usize = 0;
    while j < n / 2 + n % 2
        invariant
            n == nibbles@.len(),
            j <= n / 2 + n % 2,
            n / 2 + n % 2 == (n + 1) / 2,
            out@ == packed_nibbles(nibbles@).take(j as int),
        decreases n / 2 + n % 2 - j,
    {
        let hi = nibbles[2 * j] & 0x0F;
        let lo = if 2 * j + 1 < n {
            nibbles[2 * j + 1] & 0x0F
        } else {
            0
        };
        out.push((hi << 4) | lo);
        j = j + 1;
        proof {
            let a = nibbles@[2 * (j - 1)];
            let b: u8 = if 2 * (j - 1) + 1 < n {
                nibbles@[2 * (j - 1) + 1]
            } else {
                0
            };
            assert(((a & 0x0F) << 4u8) | (b & 0x0F) == nibble_pair(a, b));
            assert(b & 0x0F == (if 2 * (j - 1) + 1 < n {
                nibbles@[2 * (j - 1) + 1] & 0x0F
            } else {
                0u8 & 0x0F
            }));
            assert(0u8 & 0x0Fu8 == 0u8) by (bit_vector);
        }
        assert(out@ =~= packed_nibbles(nibbles@).take(j as int));
    }
    assert(out@ =~= packed_nibbles(nibbles@));
    out
}

/// Unpack bytes into nibbles, high nibble first.
pub fn bytes_to_nibbles(bytes: &[u8]) -> (out: Vec<u8>)
    requires
        2 * bytes@.len() <= usize::MAX,
    ensures
        out@ == split_nibbles(bytes@),
{
    let mut out: Vec<u8> = Vec::new();
    let mut i: usize = 0;
    while i < bytes.len()
        invariant
            i <= bytes@.len(),
            out@ == split_nibbles(bytes@).take(2 * i),
            2 * bytes@.len() <= usize::MAX,
        decreases bytes@.len() - i,
    {
        let b = bytes[i];
        out.push((b >> 4) & 0x0F);
        out.push(b & 0x0F);
        i = i + 1;
        assert(out@ =~= split_nibbles(bytes@).take(2 * i));
    }
    assert(out@ =~= split_nibbles(bytes@));
    out
}

/// Splitting bytes into nibbles and packing them again gives the bytes back.
pub proof fn lemma_nibbles_roundtrip(bytes: Seq<u8>)
    ensures
        packed_nibbles(split_nibbles(bytes)) == bytes,
{
    let s = split_nibbles(bytes);
    assert forall|j: int| 0 <= j < bytes.len() implies #[trigger] packed_nibbles(s)[j]
        == bytes[j] by {
        let b = bytes[j];
        assert(s[2 * j] == ((b >> 4u8) & 0x0Fu8) as u8);
        assert(s[2 * j + 1] == (b & 0x0Fu8) as u8);
        assert(nibble_pair(((b >> 4u8) & 0x0Fu8) as u8, (b & 0x0Fu8) as u8) == b) by (bit_vector);
    }
    assert(packed_nibbles(s) =~= bytes);
}

} // verus!
