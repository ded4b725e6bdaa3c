//! The integer side of the OFDM modem: the bits that the data symbols of a
//! frame carry (the scrambled bytes, then keystream padding up to the frame's
//! capacity), and the bytes recovered from demapped bits.
use vstd::prelude::*;
use rand::{Rng, SeedableRng};
use crate::bits::{
    bits_of, pack_bits, pack_prefix, bit_or_zero, bit_of, bytes_to_bits, bits_to_bytes,
    lemma_pack_bits_of,
};
use crate::config::Config;
use crate::link::scrambler::{Scrambler, chacha12_bytes, xor_bytes, keystream_prefixes};

verus! {

/// Data symbols of a frame that carry bits: all of them, or all but the
/// leading reference symbol in differential mode.
pub open spec fn carrying_symbols(c: Config) -> nat {
    if c.differential {
        if c.data_symbols_per_frame >= 1 {
            (c.data_symbols_per_frame - 1) as nat
        } else {
            0
        }
    } else {
        c.data_symbols_per_frame as nat
    }
}

/// Bits that the data symbols of one frame carry: two per active subcarrier
/// per carrying symbol.
pub open spec fn frame_bit_capacity(c: Config) -> nat {
    carrying_symbols(c) * (2 * c.spec_active_subcarriers())
}

/// Padding bits after `n` data bytes in a frame of `capacity` bits.
pub open spec fn pad_bits(n: nat, capacity: nat) -> nat {
    if capacity > 8 * n {
        (capacity - 8 * n) as nat
    } else {
        0
    }
}

/// Keystream bytes the padding draws from: one per whole padding byte, and
/// one more for a partial byte.
pub open spec fn pad_bytes(n: nat, capacity: nat) -> nat {
    pad_bits(n, capacity) / 8 + if pad_bits(n, capacity) % 8 > 0 {
        1nat
    } else {
        0nat
    }
}

/// The low `r` bits of `b`, most significant first.
pub open spec fn low_bits(b: u8, r: nat) -> Seq<u8> {
    Seq::new(r, |i: int| bit_of(b, 8 - r + i))
}

/// The bits of one frame: the data XOR-ed with the keystream, MSB first;
/// then the keystream bytes that follow the data's, up to the capacity, a
/// partial last byte giving its low bits.
pub open spec fn ofdm_data_bits(seed: u64, data: Seq<u8>, capacity: nat) -> Seq<u8> {
    let n = data.len();
    let pad = pad_bits(n, capacity);
    let full = pad / 8;
    let rem = pad % 8;
    let mask = chacha12_bytes(seed, n + pad_bytes(n, capacity));
    bits_of(xor_bytes(data, chacha12_bytes(seed, n))) + bits_of(
        mask.subrange(n as int, (n + full) as int),
    ) + if rem > 0 {
        low_bits(mask[(n + full) as int], rem)
    } else {
        seq![]
    }
}

/// The bytes recovered from demapped bits: every whole group of eight
/// packed MSB first, then XOR-ed with the keystream.
pub open spec fn ofdm_payload(seed: u64, bits: Seq<u8>) -> Seq<u8> {
    let n = bits.len() / 8;
    xor_bytes(pack_bits(bits.take(8 * n as int)), chacha12_bytes(seed, n))
}

/// The first `count` values that `rand_chacha::ChaCha12Rng::seed_from_u64(seed)`
/// yields through `Rng::random_range(0..2u8)`.
pub uninterp spec fn chacha12_coin_flips(seed: u64, count: nat) -> Seq<u8>;

/// Seeds `rand_chacha::ChaCha12Rng` with `SeedableRng::seed_from_u64(seed)`
/// and draws `count` values with `Rng::random_range(0..2u8)`. Claimed: the
/// result is `chacha12_coin_flips(seed, count)` (the generator is seeded
/// afresh on every call), with `count` values, each 0 or 1 (the range is
/// half-open and not empty).
#[verifier::external_body]
fn chacha12_flips(seed: u64, count: usize) -> (v: Vec<u8>)
    ensures
        v@ == chacha12_coin_flips(seed, count as nat),
        v@.len() == count,
        forall|i: int| 0 <= i < count ==> #[trigger] v@[i] < 2,
{
    let mut rng = rand_chacha::ChaCha12Rng::seed_from_u64(seed);
    (0..count).map(|_| rng.random_range(0..2u8)).collect()
}

/// The bits of the known preamble: two per active subcarrier per preamble
/// symbol, symbol after symbol, drawn from the preamble seed; each pair is
/// one QPSK point.
pub fn ofdm_preamble_bits(config: &Config) -> (bits: Vec<u8>)
    requires
        config.sc_max - config.sc_min < usize::MAX,
        config.preamble_symbols * (2 * config.spec_active_subcarriers()) <= usize::MAX,
    ensures
        bits@ == chacha12_coin_flips(
            config.preamble_seed,
            (config.preamble_symbols * (2 * config.spec_active_subcarriers())) as nat,
        ),
        bits@.len() == config.preamble_symbols * (2 * config.spec_active_subcarriers()),
        forall|i: int| 0 <= i < bits@.len() ==> #[trigger] bits@[i] < 2,
{
    let n_sc = config.active_subcarriers();
    let count = if config.preamble_symbols == 0 {
        0
    } else {
        assert(2 * n_sc <= config.preamble_symbols * (2 * n_sc)) by (nonlinear_arith)
            requires
                config.preamble_symbols >= 1,
        ;
        config.preamble_symbols * (2 * n_sc)
    };
    chacha12_flips(config.preamble_seed, count)
}

/// Packing reads only the window it packs.
proof fn lemma_pack_window(a: Seq<u8>, b: Seq<u8>, start: int, k: nat)
    requires
        forall|i: int| start <= i < start + k ==> bit_or_zero(a, i) == bit_or_zero(b, i),
    ensures
        pack_prefix(a, start, k) == pack_prefix(b, start, k),
    decreases k,
{
    if k > 0 {
        lemma_pack_window(a, b, start, (k - 1) as nat);
        assert(bit_or_zero(a, start + k - 1) == bit_or_zero(b, start + k - 1));
    }
}

/// The bytes recovered from the bits of a frame start with the data the
/// frame carries, whenever the frame can hold the data and the keystream
/// drawn for the frame starts with the shorter keystreams (which every mask
/// drawn through `Scrambler::mask` reports).
pub proof fn lemma_ofdm_bits_roundtrip(seed: u64, data: Seq<u8>, capacity: nat)
    requires
        8 * data.len() <= capacity,
        keystream_prefixes(seed, data.len() + pad_bytes(data.len(), capacity)),
    ensures
        ofdm_payload(seed, ofdm_data_bits(seed, data, capacity)).take(data.len() as int) == data,
{
    let n = data.len();
    let pad = pad_bits(n, capacity);
    let full = pad / 8;
    let rem = pad % 8;
    let m = n + pad_bytes(n, capacity);
    let bits = ofdm_data_bits(seed, data, capacity);
    let s = xor_bytes(data, chacha12_bytes(seed, n));
    let mask = chacha12_bytes(seed, m);
    assert(bits.len() == capacity) by {
        if rem > 0 {
            assert(low_bits(mask[(n + full) as int], rem).len() == rem);
        }
    }
    let n2 = capacity / 8;
    assert(n2 == n + full);
    let k1 = chacha12_bytes(seed, n);
    let k2 = chacha12_bytes(seed, n2);
    assert(k1 == mask.take(n as int));
    assert(k2 == mask.take(n2 as int));
    let whole = bits.take(8 * n2 as int);
    let out = ofdm_payload(seed, bits);
    lemma_pack_bits_of(s);
    assert forall|i: int| 0 <= i < n implies #[trigger] out[i] == data[i] by {
        let bs = bits_of(s);
        assert forall|j: int| 8 * i <= j < 8 * i + 8 implies bit_or_zero(whole, j)
            == bit_or_zero(bs, j) by {
            assert(whole[j] == bits[j]);
            assert(bits[j] == bs[j]);
        }
        lemma_pack_window(whole, bs, 8 * i, 8);
        assert(pack_bits(whole)[i] == pack_prefix(whole, 8 * i, 8));
        assert(pack_bits(bs)[i] == pack_prefix(bs, 8 * i, 8));
        let d = data[i];
        let key = mask[i];
        assert(k1[i] == key && k2[i] == key);
        assert(((d ^ key) as u8 ^ key) as u8 == d) by (bit_vector);
    }
    assert(out.take(n as int) =~= data);
}

/// The bits to map onto the data symbols of one frame carrying `data`.
pub fn ofdm_frame_bits(config: &Config, data: &[u8]) -> (bits: Vec<u8>)
    requires
        config.sc_max - config.sc_min < usize::MAX,
        2 * config.spec_active_subcarriers() <= usize::MAX,
        frame_bit_capacity(*config) <= usize::MAX,
        8 * (data@.len() + pad_bytes(data@.len(), frame_bit_capacity(*config))) <= usize::MAX,
    ensures
        bits@ == ofdm_data_bits(config.scrambler_seed, data@, frame_bit_capacity(*config)),
{
    let ghost cap = frame_bit_capacity(*config);
    let bits_per_sym = config.bits_per_ofdm_symbol();
    let syms: usize = if config.differential {
        if config.data_symbols_per_frame >= 1 {
            config.data_symbols_per_frame - 1
        } else {
            0
        }
    } else {
        config.data_symbols_per_frame
    };
    assert(syms * bits_per_sym == cap);
    let total = syms * bits_per_sym;
    let n = data.len();
    let data_bits = n * 8;
    let pad = if total > data_bits {
        total - data_bits
    } else {
        0
    };
    let full = pad / 8;
    let rem = pad % 8;
    let pad_total = full + if rem > 0 {
        1
    } else {
        0
    };
    assert(pad_total == pad_bytes(n as nat, cap));
    let scrambler = Scrambler::new(config.scrambler_seed);
    let scrambled = scrambler.scramble(data);
    let mask_all = scrambler.mask(n + pad_total);
    let mut bits = bytes_to_bits(scrambled.as_slice());
    let pad_full = bytes_to_bits(vstd::slice::slice_subrange(mask_all.as_slice(), n, n + full));
    bits.extend_from_slice(pad_full.as_slice());
    let ghost head = bits@;
    if rem > 0 {
        let b = mask_all[n + full];
        let mut k: usize = rem;
        while k > 0
            invariant
                k <= rem,
                rem < 8,
                bits@ == head + low_bits(b, rem as nat).take((rem - k) as int),
            decreases k,
        {
            k = k - 1;
            let bit = (b >> (k as u8)) & 1;
            assert(bit == bit_of(b, 8 - rem + (rem - 1 - k))) by {
                assert(7 - (8 - rem + (rem - 1 - k)) == k);
            }
            bits.push(bit);
            assert(bits@ =~= head + low_bits(b, rem as nat).take((rem - k) as int));
        }
        assert(low_bits(b, rem as nat).take(rem as int) =~= low_bits(b, rem as nat));
    } else {
        assert(bits@ =~= head + seq![]);
    }
    bits
}

/// The bytes that demapped bits carry.
pub fn ofdm_payload_bytes(config: &Config, bits: &[u8]) -> (out: Vec<u8>)
    ensures
        out@ == ofdm_payload(config.scrambler_seed, bits@),
{
    let n = bits.len() / 8;
    let whole = vstd::slice::slice_subrange(bits, 0, 8 * n);
    let bytes = bits_to_bytes(whole);
    assert(whole@ == bits@.take(8 * n as int));
    assert(bytes@.len() == n);
    Scrambler::new(config.scrambler_seed).descramble(bytes.as_slice())
}

} // verus!
