//! The integer side of differential PSK: the pseudo-random preamble bits,
//! the bit stream of a frame, the Gray mapping between bit groups and phase
//! steps (in quarter turns), and the recovery of a payload from decided bits.
use vstd::prelude::*;
use crate::bits::{bits_of, bits_to_bytes, bytes_to_bits, lemma_pack_bits_of, pack_bits};
use crate::physical::fsk::{
    lemma_unwrap_wrapped, unwrap_frame, unwrapped, wrap_frame, wrapped, xorshift,
};

verus! {

/// The xorshift state after `k` steps from `s`.
pub open spec fn xorshift_iter(s: u32, k: nat) -> u32
    decreases k,
{
    if k == 0 {
        s
    } else {
        xorshift(xorshift_iter(s, (k - 1) as nat))
    }
}

/// The low bits of the first `n` xorshift states after `s0`.
pub open spec fn lsb_stream(s0: u32, n: nat) -> Seq<u8> {
    Seq::new(n, |i: int| (xorshift_iter(s0, (i + 1) as nat) & 1u32) as u8)
}

/// The phase step, in quarter turns, that a Gray-coded bit group selects:
/// one bit maps 0 to no turn and 1 to a half turn; two bits map 00, 01, 11,
/// 10 to 0, 1, 2 and 3 quarter turns.
pub open spec fn gray_quarter_turns(b0: u8, b1: u8, bps: nat) -> u8 {
    if bps == 1 {
        if b0 == 0 {
            0
        } else {
            2
        }
    } else if b0 == 0 && b1 == 0 {
        0
    } else if b0 == 0 && b1 == 1 {
        1
    } else if b0 == 1 && b1 == 1 {
        2
    } else {
        3
    }
}

/// The bit group that a detected phase step (in quarter turns, modulo 4)
/// decodes to. One bit: steps within a quarter turn of none read 0 (the
/// decision boundaries fall between quadrants, so 0 and 3 read 0). Two bits:
/// the Gray code.
pub open spec fn quarter_turn_bits(q: u8, bps: nat) -> Seq<u8> {
    let r = q % 4;
    if bps == 1 {
        if r == 0 || r == 3 {
            seq![0u8]
        } else {
            seq![1u8]
        }
    } else if r == 0 {
        seq![0u8, 0u8]
    } else if r == 1 {
        seq![0u8, 1u8]
    } else if r == 2 {
        seq![1u8, 1u8]
    } else {
        seq![1u8, 0u8]
    }
}

/// The integer parameters of the DPSK modem (rates, carrier, roll-off,
/// amplitude and step size are the audio side's).
#[derive(Clone, Copy, Debug)]
pub struct DpskConfig {
    pub sample_rate: u32,
    /// RRC span in symbols (one-sided).
    pub span: usize,
    /// 1 = DBPSK, 2 = DQPSK.
    pub bits_per_symbol: usize,
    pub preamble_symbols: usize,
    pub preamble_seed: u32,
    pub leading_silence: usize,
    pub guard_samples: usize,
    /// Feedforward / feedback DFE taps.
    pub dfe_ff: usize,
    pub dfe_fb: usize,
    pub payload_size: usize,
}

impl DpskConfig {
    /// The preamble bits: the low bit of each xorshift state from the seed
    /// (forced odd).
    pub open spec fn spec_preamble_bits(&self) -> Seq<u8> {
        lsb_stream(self.preamble_seed | 1u32, (self.preamble_symbols * self.bits_per_symbol) as nat)
    }

    /// The bits of a frame: preamble, then the wire frame of the payload.
    pub open spec fn spec_frame_bits(&self, payload: Seq<u8>) -> Seq<u8> {
        self.spec_preamble_bits() + bits_of(wrapped(payload))
    }

    /// `preamble_symbols * bits_per_symbol` pseudo-random bits.
    pub fn preamble_bits(&self) -> (out: Vec<u8>)
        requires
            self.preamble_symbols * self.bits_per_symbol <= usize::MAX,
        ensures
            out@ == self.spec_preamble_bits(),
    {
        let n = self.preamble_symbols * self.bits_per_symbol;
        let s0 = self.preamble_seed | 1;
        let mut s = s0;
        let mut out: Vec<u8> = Vec::new();
        let mut i: usize = 0;
        while i < n
            invariant
                i <= n,
                s == xorshift_iter(s0, i as nat),
                out@ == lsb_stream(s0, i as nat),
            decreases n - i,
        {
            s ^= s << 13;
            s ^= s >> 17;
            s ^= s << 5;
            out.push((s & 1) as u8);
            i = i + 1;
            assert(out@ =~= lsb_stream(s0, i as nat));
        }
        out
    }

    /// The bit stream of a frame: the preamble bits followed by the bits of
    /// the payload's wire frame (length, payload, CRC).
    pub fn frame_bits(&self, payload: &[u8]) -> (out: Vec<u8>)
        requires
            self.preamble_symbols * self.bits_per_symbol <= usize::MAX,
            8 * (payload@.len() + 6) <= usize::MAX,
        ensures
            out@ == self.spec_frame_bits(payload@),
    {
        let wire = wrap_frame(payload);
        let mut bits = self.preamble_bits();
        let wb = bytes_to_bits(wire.as_slice());
        bits.extend_from_slice(wb.as_slice());
        bits
    }

    /// The phase step, in quarter turns, for one bit group (missing bits of a
    /// short last group count as 0).
    pub fn phase_quarter_turns(&self, group: &[u8]) -> (q: u8)
        requires
            self.bits_per_symbol == 1 || self.bits_per_symbol == 2,
            group@.len() >= 1,
        ensures
            q == gray_quarter_turns(
                group@[0],
                if group@.len() >= 2 {
                    group@[1]
                } else {
                    0
                },
                self.bits_per_symbol as nat,
            ),
    {
        let b0 = group[0];
        let b1 = if group.len() >= 2 {
            group[1]
        } else {
            0
        };
        if self.bits_per_symbol == 1 {
            if b0 == 0 {
                0
            } else {
                2
            }
        } else if b0 == 0 && b1 == 0 {
            0
        } else if b0 == 0 && b1 == 1 {
            1
        } else if b0 == 1 && b1 == 1 {
            2
        } else {
            3
        }
    }

    /// The bits that a detected phase step (in quarter turns) decodes to.
    pub fn quarter_turn_bits(&self, q: u8) -> (bits: Vec<u8>)
        requires
            self.bits_per_symbol == 1 || self.bits_per_symbol == 2,
        ensures
            bits@ == quarter_turn_bits(q, self.bits_per_symbol as nat),
    {
        let r = q % 4;
        if self.bits_per_symbol == 1 {
            if r == 0 || r == 3 {
                vec![0u8]
            } else {
                vec![1u8]
            }
        } else if r == 0 {
            vec![0u8, 0u8]
        } else if r == 1 {
            vec![0u8, 1u8]
        } else if r == 2 {
            vec![1u8, 1u8]
        } else {
            vec![1u8, 0u8]
        }
    }

    /// The payload carried by decided payload bits: the wire frame they pack
    /// to, unwrapped when its CRC holds, else the packed bytes as they are.
    pub fn payload_from_bits(&self, bits: &[u8]) -> (out: Vec<u8>)
        ensures
            out@ == (match unwrapped(pack_bits(bits@)) {
                Some(p) => p,
                None => pack_bits(bits@),
            }),
    {
        let bytes = bits_to_bytes(bits);
        match unwrap_frame(bytes.as_slice()) {
            Some(p) => p,
            None => bytes,
        }
    }

    /// Gray mapping round-trips: the bits decoded from the phase step of a
    /// bit group are that group.
    pub proof fn lemma_gray_roundtrip(&self, b0: u8, b1: u8)
        requires
            self.bits_per_symbol == 1 || self.bits_per_symbol == 2,
            b0 <= 1,
            b1 <= 1,
        ensures
            quarter_turn_bits(
                gray_quarter_turns(b0, b1, self.bits_per_symbol as nat),
                self.bits_per_symbol as nat,
            ) == (if self.bits_per_symbol == 1 {
                seq![b0]
            } else {
                seq![b0, b1]
            }),
    {
    }

    /// The payload bits of a frame give the payload back (payloads under
    /// 2^16 bytes).
    pub proof fn lemma_frame_payload(&self, payload: Seq<u8>)
        requires
            payload.len() < 65536,
        ensures
            self.spec_frame_bits(payload).subrange(
                self.spec_preamble_bits().len() as int,
                self.spec_frame_bits(payload).len() as int,
            ) == bits_of(wrapped(payload)),
            unwrapped(pack_bits(bits_of(wrapped(payload)))) == Some(payload),
    {
        let pre = self.spec_preamble_bits();
        assert(self.spec_frame_bits(payload).subrange(
            pre.len() as int,
            self.spec_frame_bits(payload).len() as int,
        ) =~= bits_of(wrapped(payload)));
        lemma_pack_bits_of(wrapped(payload));
        lemma_unwrap_wrapped(payload);
    }
}

impl Default for DpskConfig {
    /// DQPSK at 48 kHz with a 6-symbol RRC span, 48 preamble symbols, a
    /// 6/3-tap DFE and 128-byte payloads.
    fn default() -> (c: Self)
        ensures
            c.sample_rate == 48_000 && c.span == 6 && c.bits_per_symbol == 2,
            c.preamble_symbols == 48 && c.preamble_seed == 0x0517,
            c.leading_silence == 2_496 && c.guard_samples == 4_800,
            c.dfe_ff == 6 && c.dfe_fb == 3 && c.payload_size == 128,
    {
        DpskConfig {
            sample_rate: 48_000,
            span: 6,
            bits_per_symbol: 2,
            preamble_symbols: 48,
            preamble_seed: 0x0517,
            leading_silence: 2_496,
            guard_samples: 4_800,
            dfe_ff: 6,
            dfe_fb: 3,
            payload_size: 128,
        }
    }
}

} // verus!
