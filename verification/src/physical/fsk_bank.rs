//! The integer side of parallel multi-tone M-FSK: many narrowband FSK
//! sub-channels sent at once, each symbol period carrying one symbol per
//! channel. Bytes are spread across the channels MSB first.
use vstd::prelude::*;
use crate::bits::{bits_of, bytes_to_bits, pack_prefix};
use crate::link::fec::{blocks_for, lemma_blocks_for};
use crate::physical::fsk::{
    coded_frame, decode_wire, decode_wire_spec, fec_block_of, fec_fits_spec, full_bytes,
    lemma_log2_floor_le, lemma_log2_floor_lt, lemma_symbol_groups_unpack, lemma_unwrap_prefix,
    lemma_unwrap_wrapped, log2_floor, pow2, preamble_spec, sent_payload, shuffled_preamble,
    starts_with, symbol_bits, unpack_symbols, unwrapped, wire_bytes_spec, wrap_frame, wrapped,
    FskFec,
};

verus! {

/// The symbol matrix of a bit stream: one row per symbol period, `ch`
/// symbols per row, each the next `bps` bits (most significant first,
/// zero-padded past the end).
pub open spec fn matrix_of(bits: Seq<u8>, ch: nat, bps: nat) -> Seq<Seq<u8>> {
    Seq::new(
        blocks_for(bits.len(), ch * bps),
        |r: int| Seq::new(ch, |c: int| pack_prefix(bits, r * (ch * bps) + c * bps, bps)),
    )
}

/// The rows of a matrix, one after another.
pub open spec fn flatten_rows(rows: Seq<Seq<u8>>) -> Seq<u8>
    decreases rows.len(),
{
    if rows.len() == 0 {
        seq![]
    } else {
        flatten_rows(rows.drop_last()) + rows.last()
    }
}

/// The byte rows of a vector of rows.
pub open spec fn rows_view(rows: Seq<Vec<u8>>) -> Seq<Seq<u8>> {
    Seq::new(rows.len(), |r: int| rows[r]@)
}

proof fn lemma_flatten_uniform(rows: Seq<Seq<u8>>, ch: nat)
    requires
        forall|r: int| 0 <= r < rows.len() ==> #[trigger] rows[r].len() == ch,
    ensures
        flatten_rows(rows).len() == rows.len() * ch,
        forall|r: int, c: int|
            0 <= r < rows.len() && 0 <= c < ch ==> flatten_rows(rows)[r * ch + c] == #[trigger] rows[r][c],
    decreases rows.len(),
{
    if rows.len() > 0 {
        let init = rows.drop_last();
        lemma_flatten_uniform(init, ch);
        let k = (rows.len() - 1) as int;
        assert(init.len() * ch + ch == rows.len() * ch) by (nonlinear_arith)
            requires
                init.len() == rows.len() - 1,
        ;
        assert forall|r: int, c: int| 0 <= r < rows.len() && 0 <= c < ch implies flatten_rows(
            rows,
        )[r * ch + c] == #[trigger] rows[r][c] by {
            if r < k {
                assert(r * ch + c < init.len() * ch) by (nonlinear_arith)
                    requires
                        r < k,
                        k == init.len(),
                        c < ch,
                ;
                assert(init[r] == rows[r]);
            } else {
                assert(r * ch == init.len() * ch);
            }
        }
    } else {
        assert(rows.len() * ch == 0) by (nonlinear_arith)
            requires
                rows.len() == 0,
        ;
    }
}

/// The integer parameters of the parallel FSK bank (frequencies and
/// amplitude are the audio side's).
#[derive(Clone, Copy, Debug)]
pub struct FskBankConfig {
    pub sample_rate: u32,
    pub n_channels: usize,
    /// Tones per sub-channel (2 or 4).
    pub tones_per_channel: usize,
    pub symbol_samples: usize,
    /// Grid units between adjacent tones inside a channel.
    pub tone_stride: usize,
    /// Grid units between the starts of adjacent channels.
    pub channel_stride: usize,
    /// Number of explicitly placed carriers; when nonzero it overrides
    /// `n_channels`.
    pub carrier_count: usize,
    pub preamble_symbols: usize,
    pub preamble_seed: u32,
    pub leading_silence: usize,
    pub guard_samples: usize,
    /// Reed-Solomon parity bytes per block (0 disables FEC).
    pub rs_nsym: usize,
    pub fec_data_block: usize,
    pub payload_size: usize,
}

impl FskBankConfig {
    /// Channels in use.
    pub open spec fn spec_channels(&self) -> nat {
        if self.carrier_count == 0 {
            self.n_channels as nat
        } else {
            self.carrier_count as nat
        }
    }

    /// Bits carried by one channel symbol.
    pub open spec fn spec_bits_per_channel_symbol(&self) -> nat {
        log2_floor(self.tones_per_channel as nat)
    }

    /// The symbol matrix of `bytes`.
    pub open spec fn spec_matrix(&self, bytes: Seq<u8>) -> Seq<Seq<u8>> {
        matrix_of(bits_of(bytes), self.spec_channels(), self.spec_bits_per_channel_symbol())
    }

    /// The transmitted wire bytes of a payload.
    pub open spec fn spec_wire_bytes(&self, payload: Seq<u8>) -> Seq<u8> {
        wire_bytes_spec(payload, self.payload_size, self.rs_nsym, self.fec_data_block)
    }

    /// What `decode_rows` makes of a matrix of received symbols.
    pub open spec fn spec_decode_rows(&self, rows: Seq<Seq<u8>>) -> (Seq<u8>, bool) {
        let raw = full_bytes(symbol_bits(flatten_rows(rows), self.spec_bits_per_channel_symbol()));
        if self.rs_nsym > 0 {
            decode_wire_spec(fec_block_of(self.fec_data_block), self.rs_nsym as nat, raw)
        } else {
            (raw, true)
        }
    }

    /// `floor(log2(tones_per_channel))`.
    pub fn bits_per_channel_symbol(&self) -> (b: usize)
        ensures
            b == self.spec_bits_per_channel_symbol(),
    {
        let mut v = self.tones_per_channel;
        let mut b: usize = 0;
        proof {
            lemma_log2_floor_le(self.tones_per_channel as nat);
        }
        while v >= 2
            invariant
                b + log2_floor(v as nat) == log2_floor(self.tones_per_channel as nat),
                log2_floor(self.tones_per_channel as nat) <= self.tones_per_channel,
            decreases v,
        {
            proof {
                lemma_log2_floor_le(v as nat);
            }
            v = v / 2;
            b = b + 1;
        }
        b
    }

    /// Number of channels actually used (explicit carriers override
    /// `n_channels`).
    pub fn channels(&self) -> (n: usize)
        ensures
            n == self.spec_channels(),
    {
        if self.carrier_count == 0 {
            self.n_channels
        } else {
            self.carrier_count
        }
    }

    /// Samples taken by the preamble.
    pub fn preamble_samples(&self) -> (n: usize)
        requires
            self.preamble_symbols * self.symbol_samples <= usize::MAX,
        ensures
            n == self.preamble_symbols * self.symbol_samples,
    {
        self.preamble_symbols * self.symbol_samples
    }

    /// The preamble symbol sequence, sent identically on every channel: a
    /// shuffled permutation of the channel's tones per round, so it locks the
    /// timing unambiguously and covers each tone about equally.
    pub fn preamble(&self) -> (out: Vec<u8>)
        requires
            self.preamble_symbols == 0 || self.tones_per_channel % 256 != 0,
        ensures
            out@ == preamble_spec(
                (self.tones_per_channel % 256) as nat,
                self.preamble_seed,
                self.preamble_symbols as nat,
            ),
    {
        shuffled_preamble(self.tones_per_channel, self.preamble_seed, self.preamble_symbols)
    }

    /// Distribute a byte payload across channels, MSB first, one symbol per
    /// channel per period.
    pub fn bytes_to_matrix(&self, bytes: &[u8]) -> (rows: Vec<Vec<u8>>)
        requires
            bytes@.len() == 0 || self.spec_channels() * self.spec_bits_per_channel_symbol() > 0,
            8 * bytes@.len() + self.spec_channels() * self.spec_bits_per_channel_symbol()
                <= usize::MAX,
        ensures
            rows_view(rows@) == self.spec_matrix(bytes@),
    {
        let bps = self.bits_per_channel_symbol();
        let ch = self.channels();
        let bits = bytes_to_bits(bytes);
        proof {
            assert(bits@.len() == bits.len());
            assert(ch * bps <= usize::MAX);
        }
        let per_period = ch * bps;
        let ghost target = self.spec_matrix(bytes@);
        let mut rows: Vec<Vec<u8>> = Vec::new();
        let mut i: usize = 0;
        proof {
            if per_period > 0 {
                lemma_blocks_for(bits@.len(), per_period as nat);
                vstd::arithmetic::div_mod::lemma_fundamental_div_mod(
                    bits@.len() as int,
                    per_period as int,
                );
                let q = (bits@.len() as int) / (per_period as int);
                let rm = (bits@.len() as int) % (per_period as int);
                assert(target.len() == q + (if rm == 0 { 0int } else { 1int }));
                assert(bits.len() > 0 <==> target.len() > 0) by (nonlinear_arith)
                    requires
                        target.len() == q + (if rm == 0 { 0int } else { 1int }),
                        bits.len() == per_period * q + rm,
                        0 <= rm < per_period,
                ;
            } else {
                assert(bits.len() == 0);
                assert(target.len() == 0);
            }
        }
        while i < bits.len()
            invariant
                per_period == ch * bps,
                ch == self.spec_channels(),
                bps == self.spec_bits_per_channel_symbol(),
                bits@ == bits_of(bytes@),
                bits@.len() == bits.len(),
                bits.len() == 0 || per_period > 0,
                bits.len() + per_period <= usize::MAX,
                target == self.spec_matrix(bytes@),
                i == rows@.len() * per_period,
                rows@.len() <= target.len(),
                i < bits.len() ==> rows@.len() < target.len(),
                i >= bits.len() ==> rows@.len() == target.len(),
                rows_view(rows@) == target.take(rows@.len() as int),
            decreases bits.len() + per_period - i,
        {
            let r = rows.len();
            assert(r * per_period < bits.len());
            let mut row: Vec<u8> = Vec::new();
            let mut c: usize = 0;
            while c < ch
                invariant
                    c <= ch,
                    per_period == ch * bps,
                    i < bits.len(),
                    bits.len() + per_period <= usize::MAX,
                    bits@.len() == bits.len(),
                    row@.len() == c,
                    forall|t: int|
                        0 <= t < c ==> #[trigger] row@[t] == pack_prefix(
                            bits@,
                            i + t * bps,
                            bps as nat,
                        ),
                decreases ch - c,
            {
                assert(c * bps + bps <= per_period) by (nonlinear_arith)
                    requires
                        c < ch,
                        per_period == ch * bps,
                ;
                let base = i + c * bps;
                let mut v: u8 = 0;
                let mut b: usize = 0;
                while b < bps
                    invariant
                        b <= bps,
                        base + bps <= usize::MAX,
                        bits@.len() == bits.len(),
                        v == pack_prefix(bits@, base as int, b as nat),
                    decreases bps - b,
                {
                    let idx = base + b;
                    let bit = if idx < bits.len() {
                        bits[idx]
                    } else {
                        0
                    };
                    v = (v << 1) | bit;
                    b = b + 1;
                }
                row.push(v);
                c = c + 1;
            }
            proof {
                assert(row@ =~= target[r as int]);
            }
            rows.push(row);
            i = i + per_period;
            proof {
                let nr = rows@.len();
                assert(i == nr * per_period) by (nonlinear_arith)
                    requires
                        i == r * per_period + per_period,
                        nr == r + 1,
                ;
                lemma_blocks_for(bits@.len(), per_period as nat);
                let q = (bits@.len() as int) / (per_period as int);
                let rm = (bits@.len() as int) % (per_period as int);
                vstd::arithmetic::div_mod::lemma_fundamental_div_mod(
                    bits@.len() as int,
                    per_period as int,
                );
                assert(target.len() == q + (if rm == 0 { 0int } else { 1int }));
                assert(i < bits.len() ==> nr < target.len()) by (nonlinear_arith)
                    requires
                        i == nr * per_period,
                        target.len() == q + (if rm == 0 { 0int } else { 1int }),
                        bits.len() == per_period * q + rm,
                        0 <= rm < per_period,
                ;
                assert(i >= bits.len() ==> nr == target.len()) by (nonlinear_arith)
                    requires
                        i == nr * per_period,
                        r * per_period < bits.len(),
                        nr == r + 1,
                        target.len() == q + (if rm == 0 { 0int } else { 1int }),
                        bits.len() == per_period * q + rm,
                        0 <= rm < per_period,
                ;
                assert(rows_view(rows@) =~= target.take(nr as int));
            }
        }
        proof {
            assert(rows_view(rows@) =~= target);
        }
        rows
    }

    /// Inverse of `bytes_to_matrix`: the symbols of all rows, unpacked to
    /// whole bytes.
    pub fn matrix_to_bytes(&self, rows: &[Vec<u8>]) -> (out: Vec<u8>)
        requires
            self.tones_per_channel < 512,
            flatten_rows(rows_view(rows@)).len() * self.spec_bits_per_channel_symbol()
                <= usize::MAX,
        ensures
            out@ == full_bytes(
                symbol_bits(flatten_rows(rows_view(rows@)), self.spec_bits_per_channel_symbol()),
            ),
    {
        let bps = self.bits_per_channel_symbol();
        proof {
            reveal_with_fuel(pow2, 10);
            lemma_log2_floor_lt(self.tones_per_channel as nat, 8);
        }
        let mut syms: Vec<u8> = Vec::new();
        let mut r: usize = 0;
        while r < rows.len()
            invariant
                r <= rows@.len(),
                syms@ == flatten_rows(rows_view(rows@).take(r as int)),
            decreases rows@.len() - r,
        {
            let row = &rows[r];
            let mut c: usize = 0;
            let ghost before = syms@;
            while c < row.len()
                invariant
                    c <= row@.len(),
                    syms@ == before + row@.take(c as int),
                decreases row@.len() - c,
            {
                syms.push(row[c]);
                c = c + 1;
                assert(syms@ =~= before + row@.take(c as int));
            }
            proof {
                let vt = rows_view(rows@).take(r + 1);
                assert(vt.drop_last() =~= rows_view(rows@).take(r as int));
                assert(row@.take(row@.len() as int) =~= row@);
            }
            r = r + 1;
        }
        proof {
            assert(rows_view(rows@).take(rows@.len() as int) =~= rows_view(rows@));
        }
        unpack_symbols(syms.as_slice(), bps)
    }

    /// The frame coder, when parity bytes are configured.
    pub fn fec(&self) -> (f: Option<FskFec>)
        requires
            self.rs_nsym <= 255,
        ensures
            f.is_some() == (self.rs_nsym > 0),
            f.is_some() ==> f.unwrap().nsym == self.rs_nsym && f.unwrap().data_block == fec_block_of(
                self.fec_data_block,
            ),
    {
        if self.rs_nsym > 0 {
            Some(FskFec::new(self.fec_data_block, self.rs_nsym))
        } else {
            None
        }
    }

    /// Length of a full-size wire frame.
    pub fn wire_len(&self) -> (n: usize)
        requires
            self.payload_size + 6 <= usize::MAX,
        ensures
            n == self.payload_size + 6,
    {
        self.payload_size + 6
    }

    /// The transmitted wire bytes for a payload: cut to `payload_size`, add
    /// length and CRC, then RS-code if enabled.
    pub fn wire_bytes(&self, payload: &[u8]) -> (out: Vec<u8>)
        requires
            fec_fits_spec(
                wrapped(sent_payload(payload@, self.payload_size)).len(),
                self.rs_nsym,
                self.fec_data_block,
            ),
        ensures
            out@ == self.spec_wire_bytes(payload@),
    {
        let p = if payload.len() > self.payload_size {
            vstd::slice::slice_subrange(payload, 0, self.payload_size)
        } else {
            payload
        };
        assert(p@ =~= sent_payload(payload@, self.payload_size));
        let wire = wrap_frame(p);
        match self.fec() {
            Some(fec) => fec.encode(wire.as_slice()),
            None => wire,
        }
    }

    /// FEC-decode a variable-length wire frame (see `decode_wire`).
    pub fn decode_wire_fec(&self, raw: &[u8], fec: &FskFec) -> (out: (Vec<u8>, bool))
        requires
            fec.data_block > 0,
            fec.data_block + fec.nsym < 256,
            fec.nsym <= 170,
        ensures
            (out.0@, out.1) == decode_wire_spec(fec.data_block as nat, fec.nsym as nat, raw@),
            forall|p: Seq<u8>|
                #![trigger wrapped(p)]
                p.len() < 65536 && fec.data_block >= 2 && starts_with(
                    raw@,
                    coded_frame(fec.data_block as nat, fec.nsym as nat, p),
                ) ==> out.1 && out.0@ == wrapped(p),
    {
        decode_wire(raw, fec)
    }

    /// The integer tail of bank demodulation: the received symbol matrix,
    /// unpacked to bytes and FEC-decoded. The matrix of a payload's wire
    /// bytes decodes to bytes that unwrap to the sent payload.
    pub fn decode_rows(&self, rows: &[Vec<u8>]) -> (out: (Vec<u8>, bool))
        requires
            self.tones_per_channel < 512,
            flatten_rows(rows_view(rows@)).len() * self.spec_bits_per_channel_symbol()
                <= usize::MAX,
            self.rs_nsym <= 170,
            self.rs_nsym > 0 ==> fec_block_of(self.fec_data_block) + self.rs_nsym < 256,
        ensures
            (out.0@, out.1) == self.spec_decode_rows(rows_view(rows@)),
            forall|p: Seq<u8>|
                #![trigger self.spec_wire_bytes(p)]
                self.spec_channels() >= 1 && 2 <= self.tones_per_channel && sent_payload(
                    p,
                    self.payload_size,
                ).len() < 65536 && (self.rs_nsym > 0 ==> fec_block_of(self.fec_data_block) >= 2)
                    && rows_view(rows@) == self.spec_matrix(self.spec_wire_bytes(p)) ==> out.1
                    && unwrapped(out.0@) == Some(sent_payload(p, self.payload_size)),
    {
        let raw = self.matrix_to_bytes(rows);
        let (bytes, ok) = match self.fec() {
            Some(fec) => self.decode_wire_fec(raw.as_slice(), &fec),
            None => (raw, true),
        };
        proof {
            assert forall|p: Seq<u8>|
                #![trigger self.spec_wire_bytes(p)]
                self.spec_channels() >= 1 && 2 <= self.tones_per_channel && sent_payload(
                    p,
                    self.payload_size,
                ).len() < 65536 && (self.rs_nsym > 0 ==> fec_block_of(self.fec_data_block) >= 2)
                    && rows_view(rows@) == self.spec_matrix(self.spec_wire_bytes(p)) implies ok
                && unwrapped(bytes@) == Some(sent_payload(p, self.payload_size)) by {
                let sp = sent_payload(p, self.payload_size);
                let wb = self.spec_wire_bytes(p);
                self.lemma_matrix_unpacks(wb);
                if self.rs_nsym > 0 {
                    assert(wb == coded_frame(
                        fec_block_of(self.fec_data_block),
                        self.rs_nsym as nat,
                        sp,
                    ));
                    lemma_unwrap_wrapped(sp);
                } else {
                    lemma_unwrap_prefix(sp, raw@);
                }
            }
        }
        (bytes, ok)
    }

    /// The symbol matrix of some bytes unpacks to bytes that begin with them.
    pub proof fn lemma_matrix_unpacks(&self, data: Seq<u8>)
        requires
            self.spec_channels() >= 1,
            2 <= self.tones_per_channel < 512,
        ensures
            starts_with(
                full_bytes(
                    symbol_bits(
                        flatten_rows(self.spec_matrix(data)),
                        self.spec_bits_per_channel_symbol(),
                    ),
                ),
                data,
            ),
    {
        let bps = self.spec_bits_per_channel_symbol();
        let ch = self.spec_channels();
        reveal_with_fuel(pow2, 10);
        lemma_log2_floor_lt(self.tones_per_channel as nat, 8);
        lemma_log2_floor_le(self.tones_per_channel as nat);
        let bits = bits_of(data);
        let m = self.spec_matrix(data);
        let pp = ch * bps;
        assert(pp >= 1) by (nonlinear_arith)
            requires
                ch >= 1,
                bps >= 1,
                pp == ch * bps,
        ;
        lemma_flatten_uniform(m, ch);
        let flat = flatten_rows(m);
        assert forall|j: int| 0 <= j < flat.len() implies #[trigger] flat[j] == pack_prefix(
            bits,
            j * bps,
            bps,
        ) by {
            let r = j / (ch as int);
            let c = j % (ch as int);
            vstd::arithmetic::div_mod::lemma_fundamental_div_mod(j, ch as int);
            assert(0 <= r < m.len()) by (nonlinear_arith)
                requires
                    0 <= j < m.len() * ch,
                    r == j / (ch as int),
                    ch >= 1,
            ;
            assert(flat[r * ch + c] == m[r][c]);
            assert(r * ch + c == j);
            assert(r * pp + c * bps == j * bps) by (nonlinear_arith)
                requires
                    j == ch * r + c,
                    pp == ch * bps,
            ;
        }
        lemma_blocks_for(bits.len(), pp);
        vstd::arithmetic::div_mod::lemma_fundamental_div_mod(bits.len() as int, pp as int);
        assert(flat.len() * bps >= 8 * data.len()) by (nonlinear_arith)
            requires
                flat.len() == m.len() * ch,
                m.len() == (bits.len() as int) / (pp as int) + (if (bits.len() as int) % (
                pp as int) == 0 {
                    0int
                } else {
                    1int
                }),
                bits.len() as int == pp * ((bits.len() as int) / (pp as int)) + (
                bits.len() as int) % (pp as int),
                0 <= (bits.len() as int) % (pp as int) < pp,
                pp == ch * bps,
                bits.len() == 8 * data.len(),
        ;
        lemma_symbol_groups_unpack(data, flat, bps);
    }
}

impl Default for FskBankConfig {
    /// Four 2-FSK channels on a 333 Hz grid (144-sample symbols), one guard
    /// tone between channels, a 24-symbol preamble, no FEC, 64-byte payloads.
    fn default() -> (c: Self)
        ensures
            c.sample_rate == 48_000 && c.n_channels == 4 && c.tones_per_channel == 2,
            c.symbol_samples == 144 && c.tone_stride == 1 && c.channel_stride == 3,
            c.carrier_count == 0 && c.preamble_symbols == 24 && c.preamble_seed == 0xBA11,
            c.leading_silence == 2_400 && c.guard_samples == 4_800,
            c.rs_nsym == 0 && c.fec_data_block == 32 && c.payload_size == 64,
    {
        FskBankConfig {
            sample_rate: 48_000,
            n_channels: 4,
            tones_per_channel: 2,
            symbol_samples: 144,
            tone_stride: 1,
            channel_stride: 3,
            carrier_count: 0,
            preamble_symbols: 24,
            preamble_seed: 0xBA11,
            leading_silence: 2_400,
            guard_samples: 4_800,
            rs_nsym: 0,
            fec_data_block: 32,
            payload_size: 64,
        }
    }
}

} // verus!
